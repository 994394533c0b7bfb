//! The decisions a worker takes around a job: which dependencies to ask
//! the server for (each key once), when the job can start, and which
//! sandboxes to stop when one of the group fails.
use vstd::prelude::*;
use crate::cache::{find_key, lookup_key};
use crate::dag::{
    opt_bytes, status_of, ExecutionLimits, ExecutionResourcesUsage, ExecutionResult, ExecutionStatus, FileUuid,
};
use crate::store::{FileStore, FileStoreKey};

verus! {

/// A job waiting for its dependencies.
#[derive(Debug)]
pub struct DependencyWait {
    /// The keys asked to the server and not yet received.
    missing: Vec<FileStoreKey>,
    /// The dependencies whose content is in the local store.
    ready: Vec<(FileUuid, FileStoreKey)>,
    /// The keys received from the server.
    received: Vec<FileStoreKey>,
    /// Every dependency of the job.
    deps: Vec<(FileUuid, FileStoreKey)>,
}

/// Errors of the worker protocol.
#[derive(Clone, Copy, Debug, PartialEq, Eq, Structural)]
pub enum WorkerError {
    /// The server sent a file the job does not need.
    NotRequired,
    /// The job gives no key for a dependency.
    MissingDependencyKey(FileUuid),
}

pub open spec fn keys_hold(ks: Seq<FileStoreKey>, k: Seq<u8>) -> bool {
    exists|i: int| 0 <= i < ks.len() && #[trigger] ks[i]@ == k
}

pub open spec fn pair_holds(ps: Seq<(FileUuid, FileStoreKey)>, k: Seq<u8>) -> bool {
    exists|i: int| 0 <= i < ps.len() && #[trigger] ps[i].1@ == k
}

pub open spec fn keys_unique(ks: Seq<FileStoreKey>) -> bool {
    forall|i: int, j: int| 0 <= i < j < ks.len() ==> (#[trigger] ks[i])@ != (#[trigger] ks[j])@
}

fn position(ks: &Vec<FileStoreKey>, k: &FileStoreKey) -> (r: Option<usize>)
    ensures
        r is Some ==> r->0 < ks@.len() && ks@[r->0 as int]@ == k@,
        r is None ==> !keys_hold(ks@, k@),
{
    let mut i: usize = 0;
    while i < ks.len()
        invariant
            0 <= i <= ks@.len(),
            forall|j: int| 0 <= j < i ==> ks@[j]@ != k@,
        decreases ks@.len() - i,
    {
        if ks[i].same(k) {
            return Some(i);
        }
        i = i + 1;
    }
    None
}

impl DependencyWait {
    pub closed spec fn missing_v(&self) -> Seq<FileStoreKey> {
        self.missing@
    }

    pub closed spec fn ready_v(&self) -> Seq<(FileUuid, FileStoreKey)> {
        self.ready@
    }

    pub closed spec fn received_v(&self) -> Seq<FileStoreKey> {
        self.received@
    }

    pub closed spec fn deps_v(&self) -> Seq<(FileUuid, FileStoreKey)> {
        self.deps@
    }

    /// Every dependency is local, asked for, or received.
    pub open spec fn covered(&self) -> bool {
        forall|i: int|
            0 <= i < self.deps_v().len() ==> pair_holds(self.ready_v(), (#[trigger] self.deps_v()[i]).1@) || keys_hold(
                self.missing_v(),
                self.deps_v()[i].1@,
            ) || keys_hold(self.received_v(), self.deps_v()[i].1@)
    }

    /// The dependencies found in the local store.
    pub fn ready(&self) -> (r: &Vec<(FileUuid, FileStoreKey)>)
        ensures
            r@ == self.ready_v(),
    {
        &self.ready
    }

    /// Start waiting for `deps`: those whose key the local store holds are
    /// ready; the others are asked to the server, each key once.
    pub fn new(deps: &Vec<(FileUuid, FileStoreKey)>, local: &FileStore) -> (r: (DependencyWait, Vec<FileStoreKey>))
        ensures
            keys_unique(r.0.missing_v()),
            r.1@.len() == r.0.missing_v().len(),
            forall|i: int| 0 <= i < r.1@.len() ==> (#[trigger] r.1@[i])@ == r.0.missing_v()[i]@,
            forall|i: int| 0 <= i < deps@.len() && !local.holds((#[trigger] deps@[i]).1@) ==> keys_hold(r.0.missing_v(), deps@[i].1@),
            forall|i: int| 0 <= i < r.0.missing_v().len() ==> !local.holds((#[trigger] r.0.missing_v()[i])@),
            forall|j: int| 0 <= j < r.0.missing_v().len() ==> pair_holds(deps@, (#[trigger] r.0.missing_v()[j])@),
            r.0.missing_v().len() == 0 <==> forall|i: int| 0 <= i < deps@.len() ==> local.holds((#[trigger] deps@[i]).1@),
            forall|i: int| 0 <= i < r.0.ready_v().len() ==> local.holds((#[trigger] r.0.ready_v()[i]).1@),
            r.0.covered(),
            r.0.deps_v().len() == deps@.len(),
            forall|i: int| 0 <= i < deps@.len() ==> (#[trigger] r.0.deps_v()[i]).1@ == deps@[i].1@,
            r.0.received_v().len() == 0,
    {
        let mut missing: Vec<FileStoreKey> = Vec::new();
        let mut ready: Vec<(FileUuid, FileStoreKey)> = Vec::new();
        let mut i: usize = 0;
        while i < deps.len()
            invariant
                0 <= i <= deps@.len(),
                keys_unique(missing@),
                forall|j: int| 0 <= j < i && !local.holds((#[trigger] deps@[j]).1@) ==> keys_hold(missing@, deps@[j].1@),
                forall|j: int| 0 <= j < missing@.len() ==> !local.holds((#[trigger] missing@[j])@),
                forall|j: int| 0 <= j < missing@.len() ==> pair_holds(deps@, (#[trigger] missing@[j])@),
                forall|j: int| 0 <= j < ready@.len() ==> local.holds((#[trigger] ready@[j]).1@),
                forall|j: int| 0 <= j < i && local.holds((#[trigger] deps@[j]).1@) ==> pair_holds(ready@, deps@[j].1@),
            decreases deps@.len() - i,
        {
            let k = &deps[i].1;
            if local.contains(k) {
                let ghost before = ready@;
                ready.push((deps[i].0, k.clone()));
                proof {
                    assert(ready@[before.len() as int].1@ == k@);
                    assert forall|j: int| 0 <= j < i + 1 && local.holds((#[trigger] deps@[j]).1@) implies pair_holds(ready@, deps@[j].1@) by {
                        if j < i {
                            let x = choose|x: int| 0 <= x < before.len() && #[trigger] before[x].1@ == deps@[j].1@;
                            assert(ready@[x] == before[x]);
                        }
                    }
                }
            } else if position(&missing, k).is_none() {
                let ghost before = missing@;
                missing.push(k.clone());
                proof {
                    assert(missing@[before.len() as int]@ == k@);
                    assert(deps@[i as int].1@ == k@);
                    assert forall|j: int| 0 <= j < missing@.len() implies pair_holds(deps@, (#[trigger] missing@[j])@) by {
                        if j < before.len() {
                            assert(missing@[j] == before[j]);
                        }
                    }
                    assert forall|j: int| 0 <= j < i && !local.holds((#[trigger] deps@[j]).1@) implies keys_hold(missing@, deps@[j].1@) by {
                        let x = choose|x: int| 0 <= x < before.len() && #[trigger] before[x]@ == deps@[j].1@;
                        assert(missing@[x] == before[x]);
                    }
                }
            }
            i = i + 1;
        }
        proof {
            if missing@.len() == 0 {
                assert forall|i: int| 0 <= i < deps@.len() implies local.holds((#[trigger] deps@[i]).1@) by {
                    if !local.holds(deps@[i].1@) {
                        assert(keys_hold(missing@, deps@[i].1@));
                    }
                }
            } else {
                let x = choose|x: int| 0 <= x < deps@.len() && #[trigger] deps@[x].1@ == missing@[0]@;
                assert(pair_holds(deps@, missing@[0]@));
                assert(!local.holds(deps@[x].1@));
            }
        }
        let asks = copy_keys(&missing);
        let all = copy_deps(deps);
        let w = DependencyWait { missing, ready, received: Vec::new(), deps: all };
        proof {
            assert forall|i: int| 0 <= i < w.deps_v().len() implies pair_holds(w.ready_v(), (#[trigger] w.deps_v()[i]).1@) || keys_hold(
                w.missing_v(),
                w.deps_v()[i].1@,
            ) || keys_hold(w.received_v(), w.deps_v()[i].1@) by {
                assert(w.deps_v()[i].1@ == deps@[i].1@);
                if local.holds(deps@[i].1@) {
                    assert(pair_holds(w.ready_v(), deps@[i].1@));
                }
            }
        }
        (w, asks)
    }

    /// Whether every dependency is in the local store.
    pub fn is_ready(&self) -> (r: bool)
        ensures
            r == (self.missing_v().len() == 0),
    {
        self.missing.len() == 0
    }

    /// The server sent the file `key`, now in the local store. It must have
    /// been asked for.
    pub fn file_arrived(&mut self, key: &FileStoreKey) -> (r: Result<(), WorkerError>)
        requires
            keys_unique(old(self).missing_v()),
            old(self).covered(),
        ensures
            keys_unique(final(self).missing_v()),
            final(self).covered(),
            final(self).deps_v() == old(self).deps_v(),
            final(self).ready_v() == old(self).ready_v(),
            r is Ok ==> keys_hold(final(self).received_v(), key@),
            r is Err <==> !keys_hold(old(self).missing_v(), key@),
            r is Err ==> final(self).missing_v() == old(self).missing_v(),
            r is Ok ==> !keys_hold(final(self).missing_v(), key@) && final(self).missing_v().len() + 1
                == old(self).missing_v().len(),
            forall|k: Seq<u8>| k != key@ ==> (keys_hold(final(self).missing_v(), k) == keys_hold(old(self).missing_v(), k)),
    {
        match position(&self.missing, key) {
            None => Err(WorkerError::NotRequired),
            Some(p) => {
                let ghost before = self.missing@;
                let ghost before_received = self.received@;
                self.missing.remove(p);
                self.received.push(key.clone());
                proof {
                    let after = self.missing@;
                    assert(self.received@[before_received.len() as int]@ == key@);
                    assert forall|k: Seq<u8>| keys_hold(before_received, k) implies keys_hold(self.received@, k) by {
                        let x = choose|x: int| 0 <= x < before_received.len() && #[trigger] before_received[x]@ == k;
                        assert(self.received@[x] == before_received[x]);
                    }
                    assert forall|a: int, b: int| 0 <= a < b < after.len() implies (#[trigger] after[a])@ != (#[trigger] after[b])@ by {
                        let aa = if a < p { a } else { a + 1 };
                        let bb = if b < p { b } else { b + 1 };
                        assert(after[a] == before[aa] && after[b] == before[bb]);
                    }
                    assert(!keys_hold(after, key@)) by {
                        if keys_hold(after, key@) {
                            let x = choose|x: int| 0 <= x < after.len() && #[trigger] after[x]@ == key@;
                            let xx = if x < p { x } else { x + 1 };
                            assert(after[x] == before[xx]);
                            assert(before[p as int]@ == key@);
                        }
                    }
                    assert forall|k: Seq<u8>| k != key@ implies (keys_hold(after, k) == keys_hold(before, k)) by {
                        if keys_hold(before, k) {
                            let x = choose|x: int| 0 <= x < before.len() && #[trigger] before[x]@ == k;
                            assert(x != p);
                            let xx = if x < p { x } else { x - 1 };
                            assert(after[xx] == before[x]);
                        }
                        if keys_hold(after, k) {
                            let x = choose|x: int| 0 <= x < after.len() && #[trigger] after[x]@ == k;
                            let xx = if x < p { x } else { x + 1 };
                            assert(after[x] == before[xx]);
                        }
                    }
                    assert forall|i: int| 0 <= i < self.deps_v().len() implies pair_holds(self.ready_v(), (#[trigger] self.deps_v()[i]).1@)
                        || keys_hold(self.missing_v(), self.deps_v()[i].1@) || keys_hold(self.received_v(), self.deps_v()[i].1@) by {
                        let k = self.deps_v()[i].1@;
                        assert(self.deps_v()[i] == old(self).deps_v()[i]);
                        assert(pair_holds(old(self).ready_v(), k) || keys_hold(before, k) || keys_hold(before_received, k));
                        if k == key@ {
                            assert(keys_hold(self.received@, k));
                        }
                        if keys_hold(before, k) && k != key@ {
                            assert(keys_hold(after, k));
                        }
                        if keys_hold(before_received, k) {
                            assert(keys_hold(self.received@, k));
                        }
                    }
                }
                Ok(())
            },
        }
    }
}

fn copy_deps(ds: &Vec<(FileUuid, FileStoreKey)>) -> (r: Vec<(FileUuid, FileStoreKey)>)
    ensures
        r@.len() == ds@.len(),
        forall|i: int| 0 <= i < ds@.len() ==> (#[trigger] r@[i]).1@ == ds@[i].1@ && r@[i].0 == ds@[i].0,
{
    let mut r: Vec<(FileUuid, FileStoreKey)> = Vec::new();
    let mut i: usize = 0;
    while i < ds.len()
        invariant
            0 <= i <= ds@.len(),
            r@.len() == i,
            forall|j: int| 0 <= j < i ==> (#[trigger] r@[j]).1@ == ds@[j].1@ && r@[j].0 == ds@[j].0,
        decreases ds@.len() - i,
    {
        r.push((ds[i].0, ds[i].1.clone()));
        i = i + 1;
    }
    r
}

/// A job starts only once every dependency is materialized on the worker:
/// when nothing is missing, each dependency was found in the local store or
/// received from the server.
pub proof fn law_ready_job_has_all_inputs(w: DependencyWait, i: int)
    requires
        w.covered(),
        w.missing_v().len() == 0,
        0 <= i < w.deps_v().len(),
    ensures
        pair_holds(w.ready_v(), w.deps_v()[i].1@) || keys_hold(w.received_v(), w.deps_v()[i].1@),
{
    assert(!keys_hold(w.missing_v(), w.deps_v()[i].1@));
}

fn copy_keys(ks: &Vec<FileStoreKey>) -> (r: Vec<FileStoreKey>)
    ensures
        r@.len() == ks@.len(),
        forall|i: int| 0 <= i < ks@.len() ==> (#[trigger] r@[i])@ == ks@[i]@,
{
    let mut r: Vec<FileStoreKey> = Vec::new();
    let mut i: usize = 0;
    while i < ks.len()
        invariant
            0 <= i <= ks@.len(),
            r@.len() == i,
            forall|j: int| 0 <= j < i ==> (#[trigger] r@[j])@ == ks@[j]@,
        decreases ks@.len() - i,
    {
        r.push(ks[i].clone());
        i = i + 1;
    }
    r
}

/// When sandbox `index` of a group ended unsuccessfully, the others still
/// running (`done[i]` false) are stopped; the failed one is not. Returns,
/// for each sandbox, whether to stop it.
pub fn sandboxes_to_kill(done: &Vec<bool>, index: usize, success: bool) -> (r: Vec<bool>)
    ensures
        r@.len() == done@.len(),
        forall|i: int| 0 <= i < done@.len() ==> #[trigger] r@[i] == (!success && i != index && !done@[i]),
{
    let mut r: Vec<bool> = Vec::new();
    let mut i: usize = 0;
    while i < done.len()
        invariant
            0 <= i <= done@.len(),
            r@.len() == i,
            forall|x: int| 0 <= x < i ==> #[trigger] r@[x] == (!success && x != index && !done@[x]),
        decreases done@.len() - i,
    {
        r.push(!success && i != index && !done[i]);
        i = i + 1;
    }
    r
}

/// The content key of each dependency of a job, from the keys the server
/// sent with it; a dependency without a key is an error.
pub fn dependency_keys(deps: &Vec<FileUuid>, dep_keys: &Vec<(FileUuid, FileStoreKey)>) -> (r: Result<
    Vec<(FileUuid, FileStoreKey)>,
    WorkerError,
>)
    ensures
        r is Ok <==> forall|i: int| 0 <= i < deps@.len() ==> (#[trigger] lookup_key(dep_keys@, deps@[i])) is Some,
        r matches Ok(v) ==> v@.len() == deps@.len() && forall|i: int|
            0 <= i < deps@.len() ==> (#[trigger] v@[i]).0 == deps@[i] && lookup_key(dep_keys@, deps@[i]) == Some(v@[i].1@),
        r matches Err(e) ==> e matches WorkerError::MissingDependencyKey(u) && deps@.contains(u) && lookup_key(dep_keys@, u) is None,
{
    let mut v: Vec<(FileUuid, FileStoreKey)> = Vec::new();
    let mut i: usize = 0;
    while i < deps.len()
        invariant
            0 <= i <= deps@.len(),
            v@.len() == i,
            forall|x: int| 0 <= x < i ==> (#[trigger] v@[x]).0 == deps@[x] && lookup_key(dep_keys@, deps@[x]) == Some(v@[x].1@),
        decreases deps@.len() - i,
    {
        match find_key(dep_keys, deps[i]) {
            None => {
                assert(deps@[i as int] == deps[i as int]);
                assert(lookup_key(dep_keys@, deps@[i as int]) is None);
                return Err(WorkerError::MissingDependencyKey(deps[i]));
            },
            Some(k) => {
                v.push((deps[i], k.clone()));
            },
        }
        i = i + 1;
    }
    assert forall|x: int| 0 <= x < deps@.len() implies (#[trigger] lookup_key(dep_keys@, deps@[x])) is Some by {
        assert(v@[x].0 == deps@[x]);
    }
    Ok(v)
}

/// A request to kill job `requested` applies when it is the current job.
pub fn kills_current_job(current: Option<u64>, requested: u64) -> (r: bool)
    ensures
        r == (current == Some(requested)),
{
    match current {
        Some(c) => c == requested,
        None => false,
    }
}

/// How a sandbox ended.
#[derive(Clone, Debug)]
pub enum SandboxOutcome {
    /// The process ran.
    Success {
        exit_status: u32,
        signal: Option<(u32, String)>,
        resources: ExecutionResourcesUsage,
        was_killed: bool,
    },
    /// The sandbox itself failed.
    Failed { error: String },
}

/// The result of an execution under `limits` from how its sandbox ended
/// and the captured streams.
pub fn execution_result(
    limits: &ExecutionLimits,
    outcome: SandboxOutcome,
    stdout: Option<Vec<u8>>,
    stderr: Option<Vec<u8>>,
) -> (r: ExecutionResult)
    ensures
        outcome matches SandboxOutcome::Success { exit_status, signal, resources, was_killed } ==> {
            &&& r.status == status_of(*limits, exit_status, signal, resources)
            &&& r.resources == resources
            &&& r.was_killed == was_killed
            &&& !r.was_cached
            &&& opt_bytes(r.stdout) == opt_bytes(stdout)
            &&& opt_bytes(r.stderr) == opt_bytes(stderr)
        },
        outcome matches SandboxOutcome::Failed { error } ==> {
            &&& r.status == ExecutionStatus::InternalError(error)
            &&& r.resources == (ExecutionResourcesUsage { cpu_time: 0, sys_time: 0, wall_time: 0, memory: 0 })
            &&& r.stdout is None
            &&& r.stderr is None
            &&& !r.was_killed
            &&& !r.was_cached
        },
{
    match outcome {
        SandboxOutcome::Success { exit_status, signal, resources, was_killed } => ExecutionResult {
            status: limits.status(exit_status, signal, &resources),
            resources,
            was_killed,
            was_cached: false,
            stdout,
            stderr,
        },
        SandboxOutcome::Failed { error } => ExecutionResult {
            status: ExecutionStatus::InternalError(error),
            resources: ExecutionResourcesUsage { cpu_time: 0, sys_time: 0, wall_time: 0, memory: 0 },
            was_killed: false,
            was_cached: false,
            stdout: None,
            stderr: None,
        },
    }
}

/// The key of a declared output: the key of the file the process wrote,
/// or, when it wrote none, the key of the empty blob.
pub fn output_key(written: Option<FileStoreKey>) -> (r: FileStoreKey)
    ensures
        written matches Some(k) ==> r@ == k@,
        written is None ==> r@ == crate::store::blake2b_512(Seq::empty()),
{
    match written {
        Some(k) => k,
        None => {
            let empty: Vec<u8> = Vec::new();
            let k = FileStoreKey::from_content(empty.as_slice());
            assert(empty@ =~= Seq::<u8>::empty());
            k
        },
    }
}

} // verus!
