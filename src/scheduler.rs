//! The scheduler: the state machine that admits a DAG of execution groups,
//! tracks which files are resolved, serves groups from the cache or hands
//! them to idle workers, and propagates failures to the consumers.
use vstd::prelude::*;
use crate::cache::{Cache, CacheResult};
use crate::cache::{
    bucket_with, chosen_entry, entry_records, group_slots, key_text, lookup_key, opt_key, output_slots, replayed, CacheEntry,
};
use crate::dag::{Execution, ExecutionGroup, ExecutionResult, FileUuid, InputBinding};
use crate::text::{join_map, lemma_join_map_step};
use crate::store::{FileStore, FileStoreKey};

verus! {

/// A file of the DAG as the scheduler sees it.
#[derive(Debug)]
pub struct FileSlot {
    /// The group that produces it; `None` for a file the client provides.
    pub producer: Option<usize>,
    /// Whether its content is known (or known never to come).
    pub ready: bool,
    /// Whether it comes from a successful run; a provided file is.
    pub ok: bool,
    pub key: Option<FileStoreKey>,
}

/// An input of a group: a file of the table, and whether it is a side
/// input, whose failure does not make the consumer skip.
#[derive(Clone, Copy, Debug)]
pub struct Dep {
    pub file: usize,
    pub side: bool,
}

/// A group of the DAG with its inputs and outputs resolved to the table.
#[derive(Debug)]
pub struct SchedNode {
    pub group: ExecutionGroup,
    pub deps: Vec<Dep>,
    pub outs: Vec<usize>,
    pub priority: i64,
}

/// Where a group stands.
#[derive(Clone, Copy, Debug, PartialEq, Eq, Structural)]
pub enum NodeState {
    /// Waiting for some input.
    Pending,
    /// All inputs resolved; the number orders arrivals, the flag says
    /// whether the group was already announced as started (it was requeued).
    Ready(u64, bool),
    /// On the given worker.
    Running(usize),
    /// Completed; whether every execution succeeded.
    Done(bool),
    /// Not run because an input came from a failed run.
    Skipped,
}

/// A connected or departed worker and the group it is running.
#[derive(Clone, Copy, Debug, PartialEq, Eq, Structural)]
pub struct WorkerSlot {
    pub connected: bool,
    pub job: Option<usize>,
}

/// Why a DAG is refused.
#[derive(Clone, Copy, Debug, PartialEq, Eq, Structural)]
pub enum DagError {
    /// A file is consumed but neither provided nor produced.
    MissingFile(FileUuid),
    /// A file is produced twice, or both provided and produced.
    DuplicateFile(FileUuid),
}

/// What the scheduler asks of the rest of the server.
#[derive(Debug)]
pub enum Action {
    /// Send the group of `node` to `worker`; `announce` unless the client
    /// was already told that it started.
    Start { node: usize, worker: usize, announce: bool },
    /// The group of `node` was served from the cache.
    Cached { node: usize, results: Vec<ExecutionResult>, announce: bool },
}

/// The state of one evaluation.
#[derive(Debug)]
pub struct Scheduler {
    nodes: Vec<SchedNode>,
    state: Vec<NodeState>,
    files: Vec<FileSlot>,
    /// The identity of each file of the table.
    ids: Vec<FileUuid>,
    workers: Vec<WorkerSlot>,
    arrivals: u64,
}

/// The worker running a group, or -1.
pub open spec fn worker_of(s: NodeState) -> int {
    match s {
        NodeState::Running(w) => w as int,
        _ => -1,
    }
}

pub open spec fn finished(s: NodeState) -> bool {
    s is Done || s is Skipped
}

pub open spec fn poisoned(f: FileSlot) -> bool {
    f.ready && !f.ok
}

impl Scheduler {
    pub closed spec fn nodes_v(&self) -> Seq<SchedNode> {
        self.nodes@
    }

    pub closed spec fn state_v(&self) -> Seq<NodeState> {
        self.state@
    }

    pub closed spec fn files_v(&self) -> Seq<FileSlot> {
        self.files@
    }

    pub closed spec fn ids_v(&self) -> Seq<FileUuid> {
        self.ids@
    }

    pub closed spec fn workers_v(&self) -> Seq<WorkerSlot> {
        self.workers@
    }

    pub closed spec fn arrivals_v(&self) -> u64 {
        self.arrivals
    }

    /// Every index stored in the tables is in range.
    pub open spec fn shape(&self) -> bool {
        let (ns, st, fs, ws) = (self.nodes_v(), self.state_v(), self.files_v(), self.workers_v());
        &&& st.len() == ns.len()
        &&& self.ids_v().len() == fs.len()
        &&& forall|i: int, k: int|
            0 <= i < ns.len() && 0 <= k < ns[i].deps@.len() ==> (#[trigger] ns[i].deps@[k]).file < fs.len()
        &&& forall|i: int, k: int|
            0 <= i < ns.len() && 0 <= k < ns[i].outs@.len() ==> {
                &&& (#[trigger] ns[i].outs@[k]) < fs.len()
                &&& fs[ns[i].outs@[k] as int].producer == Some(i as usize)
            }
        &&& forall|f: int| 0 <= f < fs.len() && (#[trigger] fs[f]).producer is Some ==> fs[f].producer->0 < ns.len()
        &&& forall|w: int| 0 <= w < ws.len() && (#[trigger] ws[w]).job is Some ==> ws[w].job->0 < ns.len()
    }

    /// A group runs, or has run, only with all its inputs resolved.
    pub open spec fn inputs_resolved_when_started(&self) -> bool {
        forall|i: int, k: int|
            0 <= i < self.nodes_v().len() && 0 <= k < self.nodes_v()[i].deps@.len() && !(
            #[trigger] self.state_v()[i] is Pending) && !(self.state_v()[i] is Skipped)
                ==> (#[trigger] self.files_v()[self.nodes_v()[i].deps@[k].file as int]).ready
    }

    /// A group with an unresolved input waits, or was skipped.
    pub open spec fn waits_for_inputs(&self) -> bool {
        forall|i: int, k: int|
            0 <= i < self.nodes_v().len() && 0 <= k < self.nodes_v()[i].deps@.len() && !(
            #[trigger] self.files_v()[self.nodes_v()[i].deps@[k].file as int]).ready
                ==> self.state_v()[i] is Pending || self.state_v()[i] is Skipped
    }

    /// A produced file is resolved exactly when its producer has finished.
    pub open spec fn outputs_follow_producer(&self) -> bool {
        forall|f: int|
            0 <= f < self.files_v().len() && (#[trigger] self.files_v()[f]).producer is Some ==> (
            self.files_v()[f].ready <==> finished(self.state_v()[self.files_v()[f].producer->0 as int]))
    }

    /// Downstream of a failed run, through a non-side input, every group is
    /// skipped.
    pub open spec fn failures_propagated(&self) -> bool {
        forall|i: int, k: int|
            0 <= i < self.nodes_v().len() && 0 <= k < self.nodes_v()[i].deps@.len() && !self.nodes_v()[i].deps@[k].side
                && poisoned(#[trigger] self.files_v()[self.nodes_v()[i].deps@[k].file as int]) ==> (
            #[trigger] self.state_v()[i]) is Skipped
    }

    /// No waiting group could move: each lacks an input and none is poisoned.
    pub open spec fn settled(&self) -> bool {
        forall|i: int|
            0 <= i < self.nodes_v().len() && (#[trigger] self.state_v()[i]) is Pending ==> exists|k: int|
                0 <= k < self.nodes_v()[i].deps@.len() && !(#[trigger] self.files_v()[self.nodes_v()[i].deps@[k].file as int]).ready
    }

    /// The worker table and the running groups agree.
    pub open spec fn workers_agree(&self) -> bool {
        &&& forall|i: int|
            0 <= i < self.state_v().len() && (#[trigger] self.state_v()[i]) is Running ==> {
                &&& self.state_v()[i]->Running_0 < self.workers_v().len()
                &&& self.workers_v()[self.state_v()[i]->Running_0 as int].job == Some(i as usize)
                &&& self.workers_v()[self.state_v()[i]->Running_0 as int].connected
            }
        &&& forall|w: int|
            0 <= w < self.workers_v().len() && (#[trigger] self.workers_v()[w]).job is Some ==> self.state_v()[
                self.workers_v()[w].job->0 as int] == NodeState::Running(w as usize)
    }

    /// A produced file is good exactly when its producer completed
    /// successfully: the files of a failed or skipped group count as failed.
    pub open spec fn outputs_reflect_outcome(&self) -> bool {
        forall|f: int|
            0 <= f < self.files_v().len() && (#[trigger] self.files_v()[f]).producer is Some && finished(
                self.state_v()[self.files_v()[f].producer->0 as int],
            ) ==> (self.files_v()[f].ok <==> self.state_v()[self.files_v()[f].producer->0 as int] == NodeState::Done(
                true,
            ))
    }

    pub open spec fn wf(&self) -> bool {
        &&& self.outputs_reflect_outcome()
        &&& self.shape()
        &&& covers(self.nodes_v(), self.ids_v())
        &&& no_duplicates(self.ids_v())
        &&& self.inputs_resolved_when_started()
        &&& self.waits_for_inputs()
        &&& self.outputs_follow_producer()
        &&& self.failures_propagated()
        &&& self.settled()
        &&& self.workers_agree()
    }

    /// A worker is connected and has no job.
    pub open spec fn idle_worker(&self, w: int) -> bool {
        0 <= w < self.workers_v().len() && self.workers_v()[w].connected && self.workers_v()[w].job is None
    }

    pub open spec fn has_idle_worker(&self) -> bool {
        exists|w: int| self.idle_worker(w)
    }

    pub open spec fn has_ready(&self) -> bool {
        exists|i: int| 0 <= i < self.state_v().len() && (#[trigger] self.state_v()[i]) is Ready
    }

    /// Nothing is waiting, ready or running.
    pub open spec fn all_finished(&self) -> bool {
        forall|i: int| 0 <= i < self.state_v().len() ==> finished(#[trigger] self.state_v()[i])
    }
}

} // verus!

verus! {

/// The number of waiting groups.
pub open spec fn pending_count(st: Seq<NodeState>) -> nat
    decreases st.len(),
{
    if st.len() == 0 {
        0
    } else {
        pending_count(st.drop_last()) + (if st.last() is Pending { 1nat } else { 0nat })
    }
}

proof fn lemma_pending_count_update(st: Seq<NodeState>, i: int, s: NodeState)
    requires
        0 <= i < st.len(),
        st[i] is Pending,
        !(s is Pending),
    ensures
        pending_count(st.update(i, s)) + 1 == pending_count(st),
    decreases st.len(),
{
    let nst = st.update(i, s);
    if i == st.len() - 1 {
        assert(nst.drop_last() =~= st.drop_last());
    } else {
        assert(nst.drop_last() =~= st.drop_last().update(i, s));
        lemma_pending_count_update(st.drop_last(), i, s);
    }
}

/// The file `f` after the run producing it finished: resolved, and failed
/// unless `ok`.
pub open spec fn resolved_as(before: FileSlot, after: FileSlot, ok: bool) -> bool {
    &&& after.producer == before.producer
    &&& after.ready
    &&& after.ok == ok
}

impl Scheduler {
    /// The invariant while failures are being propagated: a group with a
    /// failed non-side input may still be waiting.
    pub open spec fn wf_loose(&self) -> bool {
        &&& self.outputs_reflect_outcome()
        &&& self.shape()
        &&& covers(self.nodes_v(), self.ids_v())
        &&& no_duplicates(self.ids_v())
        &&& self.inputs_resolved_when_started()
        &&& self.waits_for_inputs()
        &&& self.outputs_follow_producer()
        &&& self.workers_agree()
        &&& forall|i: int, k: int|
            0 <= i < self.nodes_v().len() && 0 <= k < self.nodes_v()[i].deps@.len() && !self.nodes_v()[i].deps@[k].side
                && poisoned(#[trigger] self.files_v()[self.nodes_v()[i].deps@[k].file as int]) ==> (
            #[trigger] self.state_v()[i]) is Skipped || self.state_v()[i] is Pending
    }

    fn dep_poisoned(&self, i: usize) -> (r: bool)
        requires
            self.shape(),
            i < self.nodes_v().len(),
        ensures
            r == exists|k: int|
                0 <= k < self.nodes_v()[i as int].deps@.len() && !self.nodes_v()[i as int].deps@[k].side && poisoned(
                    #[trigger] self.files_v()[self.nodes_v()[i as int].deps@[k].file as int],
                ),
    {
        let deps = &self.nodes[i].deps;
        let mut k: usize = 0;
        while k < deps.len()
            invariant
                self.shape(),
                i < self.nodes_v().len(),
                deps@ == self.nodes_v()[i as int].deps@,
                0 <= k <= deps@.len(),
                forall|x: int|
                    0 <= x < k ==> !(!deps@[x].side && poisoned(#[trigger] self.files_v()[deps@[x].file as int])),
            decreases deps@.len() - k,
        {
            let d = deps[k];
            assert(d.file < self.files_v().len());
            if !d.side && self.files[d.file].ready && !self.files[d.file].ok {
                return true;
            }
            k = k + 1;
        }
        false
    }

    fn deps_ready(&self, i: usize) -> (r: bool)
        requires
            self.shape(),
            i < self.nodes_v().len(),
        ensures
            r == forall|k: int|
                0 <= k < self.nodes_v()[i as int].deps@.len() ==> (#[trigger] self.files_v()[self.nodes_v()[i as int].deps@[k].file as int]).ready,
    {
        let deps = &self.nodes[i].deps;
        let mut k: usize = 0;
        while k < deps.len()
            invariant
                self.shape(),
                i < self.nodes_v().len(),
                deps@ == self.nodes_v()[i as int].deps@,
                0 <= k <= deps@.len(),
                forall|x: int| 0 <= x < k ==> (#[trigger] self.files_v()[deps@[x].file as int]).ready,
            decreases deps@.len() - k,
        {
            let d = deps[k];
            assert(d.file < self.files_v().len());
            if !self.files[d.file].ready {
                assert(!self.files_v()[deps@[k as int].file as int].ready);
                return false;
            }
            k = k + 1;
        }
        true
    }

    /// Mark every file produced by group `i` resolved, failed unless `ok`,
    /// with the content key `keys` gives it.
    fn resolve_outputs(&mut self, i: usize, ok: bool, keys: &Vec<(FileUuid, FileStoreKey)>)
        requires
            old(self).ids_v().len() == old(self).files_v().len(),
        ensures
            final(self).ids_v() == old(self).ids_v(),
            final(self).nodes_v() == old(self).nodes_v(),
            final(self).state_v() == old(self).state_v(),
            final(self).workers_v() == old(self).workers_v(),
            final(self).arrivals_v() == old(self).arrivals_v(),
            final(self).files_v().len() == old(self).files_v().len(),
            forall|f: int|
                0 <= f < old(self).files_v().len() ==> if old(self).files_v()[f].producer == Some(i) {
                    resolved_as(old(self).files_v()[f], #[trigger] final(self).files_v()[f], ok) && opt_key(
                        final(self).files_v()[f].key,
                    ) == lookup_key(keys@, old(self).ids_v()[f])
                } else {
                    final(self).files_v()[f] == old(self).files_v()[f]
                },
    {
        let ghost before = self.files@;
        let mut f: usize = 0;
        while f < self.files.len()
            invariant
                self.files@.len() == before.len(),
                self.nodes@ == old(self).nodes@,
                self.state@ == old(self).state@,
                self.workers@ == old(self).workers@,
                self.arrivals == old(self).arrivals,
                self.ids@ == old(self).ids@,
                self.ids@.len() == before.len(),
                before == old(self).files@,
                0 <= f <= before.len(),
                forall|x: int|
                    0 <= x < before.len() ==> if before[x].producer == Some(i) && x < f {
                        resolved_as(before[x], #[trigger] self.files@[x], ok) && opt_key(self.files@[x].key)
                            == lookup_key(keys@, self.ids@[x])
                    } else {
                        self.files@[x] == before[x]
                    },
            decreases before.len() - f,
        {
            if self.files[f].producer == Some(i) {
                let uuid = self.ids[f];
                let key = match crate::cache::find_key(keys, uuid) {
                    Some(k) => Some(k.clone()),
                    None => None,
                };
                self.files.set(f, FileSlot { producer: Some(i), ready: true, ok, key });
            }
            f = f + 1;
        }
    }
}

} // verus!

verus! {

impl Scheduler {
    /// Group `i` finished: done (successfully when `success`) or skipped.
    /// Its worker, if any, is freed and its files are resolved.
    #[verifier::spinoff_prover]
    fn finish(&mut self, i: usize, skipped: bool, success: bool, keys: &Vec<(FileUuid, FileStoreKey)>)
        requires
            old(self).wf_loose(),
            i < old(self).nodes_v().len(),
            skipped ==> old(self).state_v()[i as int] is Pending,
            !skipped ==> old(self).state_v()[i as int] is Ready || old(self).state_v()[i as int] is Running,
        ensures
            final(self).wf_loose(),
            final(self).nodes_v() == old(self).nodes_v(),
            final(self).ids_v() == old(self).ids_v(),
            final(self).arrivals_v() == old(self).arrivals_v(),
            final(self).state_v() == old(self).state_v().update(
                i as int,
                if skipped { NodeState::Skipped } else { NodeState::Done(success) },
            ),
            final(self).workers_v().len() == old(self).workers_v().len(),
            forall|w: int|
                0 <= w < old(self).workers_v().len() ==> (#[trigger] final(self).workers_v()[w]).connected
                    == old(self).workers_v()[w].connected,
            forall|w: int|
                0 <= w < old(self).workers_v().len() && old(self).workers_v()[w].job != Some(i) ==> (
                #[trigger] final(self).workers_v()[w]) == old(self).workers_v()[w],
            forall|w: int|
                0 <= w < old(self).workers_v().len() && old(self).workers_v()[w].job == Some(i) ==> (
                #[trigger] final(self).workers_v()[w]).job is None,
            final(self).files_v().len() == old(self).files_v().len(),
            forall|f: int|
                0 <= f < old(self).files_v().len() && old(self).files_v()[f].ready ==> #[trigger] final(self).files_v()[f]
                    == old(self).files_v()[f],
            forall|f: int|
                0 <= f < old(self).files_v().len() && old(self).files_v()[f].producer == Some(i) ==> resolved_as(
                    old(self).files_v()[f],
                    #[trigger] final(self).files_v()[f],
                    !skipped && success,
                ) && opt_key(final(self).files_v()[f].key) == lookup_key(keys@, old(self).ids_v()[f]),
            forall|f: int|
                0 <= f < old(self).files_v().len() && old(self).files_v()[f].producer != Some(i) ==> #[trigger] final(self).files_v()[f]
                    == old(self).files_v()[f],
    {
        let ghost old_self = *self;
        let ghost wi: int = worker_of(old_self.state_v()[i as int]);
        if let NodeState::Running(w) = self.state[i] {
            let c = self.workers[w].connected;
            self.workers.set(w, WorkerSlot { connected: c, job: None });
        }
        assert(wi >= 0 ==> old_self.state_v()[i as int] == NodeState::Running(wi as usize));
        assert(wi >= 0 ==> self.workers_v() == old_self.workers_v().update(
            wi,
            WorkerSlot { connected: old_self.workers_v()[wi].connected, job: None },
        ));
        assert(wi < 0 ==> self.workers_v() == old_self.workers_v());
        assert(wi < 0 ==> !(old_self.state_v()[i as int] is Running));
        let ns = if skipped {
            NodeState::Skipped
        } else {
            NodeState::Done(success)
        };
        self.state.set(i, ns);
        let ok = !skipped && success;
        self.resolve_outputs(i, ok, keys);
        proof {
            let (nodes, st0, fs0, ws0) = (old_self.nodes_v(), old_self.state_v(), old_self.files_v(), old_self.workers_v());
            let (st, fs, ws) = (self.state_v(), self.files_v(), self.workers_v());
            assert(ws0.len() == old_self.workers.len());
            assert(st0.len() == old_self.state.len());
            assert forall|f: int| 0 <= f < fs.len() implies (#[trigger] fs[f]).ready || !fs0[f].ready by {}
            assert forall|f: int| 0 <= f < fs0.len() && fs0[f].ready implies #[trigger] fs[f] == fs0[f] by {
                if fs0[f].producer == Some(i) {
                    assert(finished(st0[i as int]));
                }
            }
            assert forall|f: int| 0 <= f < fs.len() && (#[trigger] fs[f]).producer is Some implies fs[f].producer->0 < nodes.len() by {
                assert(fs[f].producer == fs0[f].producer);
            }
            assert forall|x: int, k: int|
                0 <= x < nodes.len() && 0 <= k < nodes[x].deps@.len() implies (#[trigger] nodes[x].deps@[k]).file < fs.len() by {
                assert(old_self.shape());
            }
            assert forall|x: int, k: int|
                0 <= x < nodes.len() && 0 <= k < nodes[x].outs@.len() implies {
                    &&& (#[trigger] nodes[x].outs@[k]) < fs.len()
                    &&& fs[nodes[x].outs@[k] as int].producer == Some(x as usize)
                } by {
                assert(fs0[nodes[x].outs@[k] as int].producer == Some(x as usize));
            }
            assert forall|w: int| 0 <= w < ws.len() && (#[trigger] ws[w]).job is Some implies ws[w].job->0 < nodes.len() by {}
            assert(self.shape());
            // a file resolved now was unresolved before, so its consumers were waiting
            assert forall|x: int, k: int|
                0 <= x < nodes.len() && 0 <= k < nodes[x].deps@.len() && !(#[trigger] st[x] is Pending) && !(st[x] is Skipped)
                    implies (#[trigger] fs[nodes[x].deps@[k].file as int]).ready by {
                let f = nodes[x].deps@[k].file as int;
                if x != i {
                    assert(st[x] == st0[x]);
                    assert(fs0[f].ready);
                } else {
                    assert(!(st0[x] is Pending) && !(st0[x] is Skipped));
                    assert(fs0[f].ready);
                }
            }
            assert forall|x: int, k: int|
                0 <= x < nodes.len() && 0 <= k < nodes[x].deps@.len() && !(#[trigger] fs[nodes[x].deps@[k].file as int]).ready
                    implies st[x] is Pending || st[x] is Skipped by {
                let f = nodes[x].deps@[k].file as int;
                assert(!fs0[f].ready);
                if x == i {
                    assert(st0[x] is Pending || st0[x] is Skipped);
                }
            }
            assert forall|f: int|
                0 <= f < fs.len() && (#[trigger] fs[f]).producer is Some implies (fs[f].ready <==> finished(st[fs[f].producer->0 as int])) by {
                if fs0[f].producer == Some(i) {
                } else {
                    assert(fs[f] == fs0[f]);
                }
            }
            assert forall|x: int| 0 <= x < st.len() && (#[trigger] st[x]) is Running implies {
                &&& st[x]->Running_0 < ws.len()
                &&& ws[st[x]->Running_0 as int].job == Some(x as usize)
                &&& ws[st[x]->Running_0 as int].connected
            } by {
                assert(st0[x] == st[x]);
                assert(x != i);
                let w2 = st[x]->Running_0 as int;
                assert(ws0[w2].job == Some(x as usize));
                if wi >= 0 {
                    assert(ws0[wi].job == Some(i));
                    assert(w2 != wi);
                }
                assert(ws[w2] == ws0[w2]);
            }
            assert forall|w: int| 0 <= w < ws.len() && (#[trigger] ws[w]).job is Some implies st[ws[w].job->0 as int] == NodeState::Running(w as usize) by {
                assert(w != wi);
                assert(ws[w] == ws0[w]);
                let x = ws0[w].job->0 as int;
                assert(st0[x] == NodeState::Running(w as usize));
                if x == i {
                    assert(wi == w);
                }
            }
            assert forall|x: int, k: int|
                0 <= x < nodes.len() && 0 <= k < nodes[x].deps@.len() && !nodes[x].deps@[k].side && poisoned(
                    #[trigger] fs[nodes[x].deps@[k].file as int]) implies (#[trigger] st[x]) is Skipped || st[x] is Pending by {
                let f = nodes[x].deps@[k].file as int;
                if fs0[f].producer == Some(i) && !fs0[f].ready {
                    assert(!fs0[nodes[x].deps@[k].file as int].ready);
                    assert(st0[x] is Pending || st0[x] is Skipped);
                    if x == i {
                        assert(st0[x] is Pending);
                    } else {
                        assert(st[x] == st0[x]);
                    }
                } else {
                    assert(fs[f] == fs0[f] || fs0[f].ready);
                    if fs0[f].producer == Some(i) {
                        assert(finished(st0[i as int]));
                        assert(false);
                    }
                    assert(poisoned(fs0[f]));
                    assert(st0[x] is Skipped || st0[x] is Pending);
                    if x != i {
                        assert(st[x] == st0[x]);
                    }
                }
            }
        }
    }
}

} // verus!

verus! {

/// `b` differs from `a` only by groups that left the waiting state and by
/// files that got resolved.
pub open spec fn progressed(a: Scheduler, b: Scheduler) -> bool {
    &&& b.nodes_v() == a.nodes_v()
    &&& b.ids_v() == a.ids_v()
    &&& b.workers_v() == a.workers_v()
    &&& b.state_v().len() == a.state_v().len()
    &&& forall|i: int| 0 <= i < a.state_v().len() && !(a.state_v()[i] is Pending) ==> #[trigger] b.state_v()[i] == a.state_v()[i]
    &&& forall|i: int| 0 <= i < a.state_v().len() && a.state_v()[i] is Pending ==> !(#[trigger] b.state_v()[i] is Running) && !(b.state_v()[i] is Done)
        && !(b.state_v()[i] matches NodeState::Ready(_, true))
    &&& b.files_v().len() == a.files_v().len()
    &&& forall|f: int| 0 <= f < a.files_v().len() && a.files_v()[f].ready ==> #[trigger] b.files_v()[f] == a.files_v()[f]
}

impl Scheduler {
    /// Group `i` has all its inputs: it joins the ready set.
    #[verifier::spinoff_prover]
    fn make_ready(&mut self, i: usize)
        requires
            old(self).wf_loose(),
            i < old(self).nodes_v().len(),
            old(self).state_v()[i as int] is Pending,
            forall|k: int|
                0 <= k < old(self).nodes_v()[i as int].deps@.len() ==> (#[trigger] old(self).files_v()[old(self).nodes_v()[i as int].deps@[k].file as int]).ready,
            !exists|k: int|
                0 <= k < old(self).nodes_v()[i as int].deps@.len() && !old(self).nodes_v()[i as int].deps@[k].side && poisoned(
                    #[trigger] old(self).files_v()[old(self).nodes_v()[i as int].deps@[k].file as int],
                ),
        ensures
            final(self).wf_loose(),
            final(self).nodes_v() == old(self).nodes_v(),
            final(self).files_v() == old(self).files_v(),
            final(self).ids_v() == old(self).ids_v(),
            final(self).workers_v() == old(self).workers_v(),
            final(self).state_v() == old(self).state_v().update(i as int, NodeState::Ready(old(self).arrivals_v(), false)),
    {
        let ghost old_self = *self;
        let a = self.arrivals;
        self.state.set(i, NodeState::Ready(a, false));
        if self.arrivals < u64::MAX {
            self.arrivals = self.arrivals + 1;
        }
        proof {
            let (nodes, st0, fs, ws) = (old_self.nodes_v(), old_self.state_v(), old_self.files_v(), old_self.workers_v());
            let st = self.state_v();
            assert(st0.len() == old_self.state.len());
            assert forall|x: int, k: int|
                0 <= x < nodes.len() && 0 <= k < nodes[x].deps@.len() && !(#[trigger] st[x] is Pending) && !(st[x] is Skipped)
                    implies (#[trigger] fs[nodes[x].deps@[k].file as int]).ready by {
                if x != i {
                    assert(st[x] == st0[x]);
                    assert(!(st0[x] is Pending) && !(st0[x] is Skipped));
                    assert(fs[nodes[x].deps@[k].file as int].ready);
                } else {
                    assert(fs[nodes[i as int].deps@[k].file as int].ready);
                }
            }
            assert forall|x: int, k: int|
                0 <= x < nodes.len() && 0 <= k < nodes[x].deps@.len() && !(#[trigger] fs[nodes[x].deps@[k].file as int]).ready
                    implies st[x] is Pending || st[x] is Skipped by {
                if x == i {
                    assert(fs[nodes[x].deps@[k].file as int].ready);
                }
            }
            assert forall|f: int|
                0 <= f < fs.len() && (#[trigger] fs[f]).producer is Some implies (fs[f].ready <==> finished(st[fs[f].producer->0 as int])) by {
            }
            assert forall|x: int| 0 <= x < st.len() && (#[trigger] st[x]) is Running implies {
                &&& st[x]->Running_0 < ws.len()
                &&& ws[st[x]->Running_0 as int].job == Some(x as usize)
                &&& ws[st[x]->Running_0 as int].connected
            } by {
                assert(x != i);
                assert(st0[x] == st[x]);
            }
            assert forall|w: int| 0 <= w < ws.len() && (#[trigger] ws[w]).job is Some implies st[ws[w].job->0 as int] == NodeState::Running(w as usize) by {
                let x = ws[w].job->0 as int;
                assert(st0[x] == NodeState::Running(w as usize));
                assert(x != i);
            }
            assert forall|x: int, k: int|
                0 <= x < nodes.len() && 0 <= k < nodes[x].deps@.len() && !nodes[x].deps@[k].side && poisoned(
                    #[trigger] fs[nodes[x].deps@[k].file as int]) implies (#[trigger] st[x]) is Skipped || st[x] is Pending by {
                if x == i {
                    assert(0 <= k < nodes[i as int].deps@.len() && !nodes[i as int].deps@[k].side && poisoned(
                        fs[nodes[i as int].deps@[k].file as int]));
                    assert(false);
                } else {
                    assert(st[x] == st0[x]);
                }
            }
        }
    }

    /// Move waiting groups until none can move: a group with a failed
    /// non-side input is skipped (and so are, in turn, its consumers); a
    /// group with all inputs resolved becomes ready. Returns the skipped
    /// groups.
    #[verifier::spinoff_prover]
    fn settle(&mut self) -> (skipped: Vec<usize>)
        requires
            old(self).wf_loose(),
        ensures
            final(self).wf(),
            progressed(*old(self), *final(self)),
            forall|f: int|
                0 <= f < old(self).files_v().len() && old(self).files_v()[f].producer is None ==> #[trigger] final(self).files_v()[f]
                    == old(self).files_v()[f],
            forall|j: int| 0 <= j < skipped@.len() ==> (#[trigger] skipped@[j]) < old(self).state_v().len()
                && old(self).state_v()[skipped@[j] as int] is Pending && final(self).state_v()[skipped@[j] as int] is Skipped,
    {
        let ghost start = *self;
        let empty: Vec<(FileUuid, FileStoreKey)> = Vec::new();
        let mut skipped: Vec<usize> = Vec::new();
        let n = self.state.len();
        let mut changed = true;
        while changed
            invariant
                self.wf_loose(),
                progressed(start, *self),
                forall|f: int|
                    0 <= f < start.files_v().len() && start.files_v()[f].producer is None ==> #[trigger] self.files_v()[f]
                        == start.files_v()[f],
                self.state_v().len() == n,
                start.state_v().len() == n,
                forall|j: int| 0 <= j < skipped@.len() ==> (#[trigger] skipped@[j]) < n
                    && start.state_v()[skipped@[j] as int] is Pending && self.state_v()[skipped@[j] as int] is Skipped,
                !changed ==> forall|x: int|
                    0 <= x < n && (#[trigger] self.state_v()[x]) is Pending ==> {
                        &&& !(forall|k: int|
                            0 <= k < self.nodes_v()[x].deps@.len() ==> (#[trigger] self.files_v()[self.nodes_v()[x].deps@[k].file as int]).ready)
                        &&& !exists|k: int|
                            0 <= k < self.nodes_v()[x].deps@.len() && !self.nodes_v()[x].deps@[k].side && poisoned(
                                #[trigger] self.files_v()[self.nodes_v()[x].deps@[k].file as int],
                            )
                    },
            decreases pending_count(self.state_v()) + (if changed { 1nat } else { 0nat }),
        {
            let ghost pass_start = pending_count(self.state_v());
            changed = false;
            let mut i: usize = 0;
            while i < n
                invariant
                    self.wf_loose(),
                    progressed(start, *self),
                    forall|f: int|
                        0 <= f < start.files_v().len() && start.files_v()[f].producer is None ==> #[trigger] self.files_v()[f]
                            == start.files_v()[f],
                    self.state_v().len() == n,
                    start.state_v().len() == n,
                    0 <= i <= n,
                    forall|j: int| 0 <= j < skipped@.len() ==> (#[trigger] skipped@[j]) < n
                        && start.state_v()[skipped@[j] as int] is Pending && self.state_v()[skipped@[j] as int] is Skipped,
                    changed ==> pending_count(self.state_v()) < pass_start,
                    !changed ==> pending_count(self.state_v()) == pass_start,
                    !changed ==> forall|x: int|
                        0 <= x < i && (#[trigger] self.state_v()[x]) is Pending ==> {
                            &&& !(forall|k: int|
                                0 <= k < self.nodes_v()[x].deps@.len() ==> (#[trigger] self.files_v()[self.nodes_v()[x].deps@[k].file as int]).ready)
                            &&& !exists|k: int|
                                0 <= k < self.nodes_v()[x].deps@.len() && !self.nodes_v()[x].deps@[k].side && poisoned(
                                    #[trigger] self.files_v()[self.nodes_v()[x].deps@[k].file as int],
                                )
                        },
                decreases n - i,
            {
                if let NodeState::Pending = self.state[i] {
                    let ghost before = *self;
                    if self.dep_poisoned(i) {
                        self.finish(i, true, false, &empty);
                        skipped.push(i);
                        changed = true;
                        proof {
                            lemma_pending_count_update(before.state_v(), i as int, NodeState::Skipped);
                            assert forall|w: int| 0 <= w < before.workers_v().len() implies before.workers_v()[w].job != Some(i) by {
                                if before.workers_v()[w].job == Some(i) {
                                    assert(before.state_v()[i as int] == NodeState::Running(w as usize));
                                }
                            }
                            assert(self.workers_v() =~= before.workers_v());
                            lemma_progressed_trans(start, before, *self, i as int);
                        }
                    } else if self.deps_ready(i) {
                        self.make_ready(i);
                        changed = true;
                        proof {
                            lemma_pending_count_update(before.state_v(), i as int, NodeState::Ready(before.arrivals_v(), false));
                            lemma_progressed_trans(start, before, *self, i as int);
                        }
                    }
                }
                i = i + 1;
            }
        }
        proof {
            let s = *self;
            assert forall|x: int, k: int|
                0 <= x < s.nodes_v().len() && 0 <= k < s.nodes_v()[x].deps@.len() && !s.nodes_v()[x].deps@[k].side
                    && poisoned(#[trigger] s.files_v()[s.nodes_v()[x].deps@[k].file as int]) implies (#[trigger] s.state_v()[x]) is Skipped by {
                if s.state_v()[x] is Pending {
                    assert(!exists|k2: int|
                        0 <= k2 < s.nodes_v()[x].deps@.len() && !s.nodes_v()[x].deps@[k2].side && poisoned(
                            #[trigger] s.files_v()[s.nodes_v()[x].deps@[k2].file as int],
                        ));
                }
            }
        }
        skipped
    }
}

/// One step of a group leaving the waiting state extends `progressed`.
proof fn lemma_progressed_trans(a: Scheduler, b: Scheduler, c: Scheduler, i: int)
    requires
        progressed(a, b),
        0 <= i < b.state_v().len(),
        b.state_v()[i] is Pending,
        c.nodes_v() == b.nodes_v(),
        c.ids_v() == b.ids_v(),
        c.workers_v() == b.workers_v(),
        c.state_v().len() == b.state_v().len(),
        forall|j: int| 0 <= j < b.state_v().len() && j != i ==> #[trigger] c.state_v()[j] == b.state_v()[j],
        !(c.state_v()[i] is Running) && !(c.state_v()[i] is Done) && !(c.state_v()[i] matches NodeState::Ready(_, true)),
        c.files_v().len() == b.files_v().len(),
        forall|f: int| 0 <= f < b.files_v().len() && b.files_v()[f].ready ==> #[trigger] c.files_v()[f] == b.files_v()[f],
    ensures
        progressed(a, c),
{
    assert forall|f: int| 0 <= f < a.files_v().len() && a.files_v()[f].ready implies #[trigger] c.files_v()[f] == a.files_v()[f] by {
        assert(b.files_v()[f] == a.files_v()[f]);
    }
    assert forall|j: int| 0 <= j < a.state_v().len() && !(a.state_v()[j] is Pending) implies #[trigger] c.state_v()[j] == a.state_v()[j] by {
        assert(b.state_v()[j] == a.state_v()[j]);
    }
    assert forall|j: int| 0 <= j < a.state_v().len() && a.state_v()[j] is Pending implies !(#[trigger] c.state_v()[j] is Running) && !(c.state_v()[j] is Done)
        && !(c.state_v()[j] matches NodeState::Ready(_, true)) by {
        if j != i {
            assert(c.state_v()[j] == b.state_v()[j]);
        }
    }
}

} // verus!

verus! {

/// Ready group `i` goes before ready group `j`: higher priority first,
/// then earlier arrival.
pub open spec fn before_in_queue(pi: i64, ai: u64, pj: i64, aj: u64) -> bool {
    pi > pj || (pi == pj && ai <= aj)
}

impl Scheduler {
    /// An idle worker, if any.
    fn find_idle_worker(&self) -> (r: Option<usize>)
        ensures
            r is Some ==> self.idle_worker(r->0 as int),
            r is None ==> !self.has_idle_worker(),
    {
        let mut w: usize = 0;
        while w < self.workers.len()
            invariant
                0 <= w <= self.workers@.len(),
                forall|x: int| 0 <= x < w ==> !self.idle_worker(x),
            decreases self.workers@.len() - w,
        {
            if self.workers[w].connected && self.workers[w].job.is_none() {
                return Some(w);
            }
            w = w + 1;
        }
        None
    }

    /// The ready group that goes first in the queue, if any.
    fn best_ready(&self) -> (r: Option<usize>)
        requires
            self.shape(),
        ensures
            r is Some ==> r->0 < self.state_v().len() && self.state_v()[r->0 as int] is Ready && forall|j: int|
                0 <= j < self.state_v().len() && (#[trigger] self.state_v()[j]) is Ready ==> before_in_queue(
                    self.nodes_v()[r->0 as int].priority,
                    self.state_v()[r->0 as int]->Ready_0,
                    self.nodes_v()[j].priority,
                    self.state_v()[j]->Ready_0,
                ),
            r is None ==> !self.has_ready(),
    {
        let mut best: Option<usize> = None;
        let mut i: usize = 0;
        while i < self.state.len()
            invariant
                self.shape(),
                0 <= i <= self.state_v().len(),
                best is Some ==> best->0 < i && self.state_v()[best->0 as int] is Ready && forall|j: int|
                    0 <= j < i && (#[trigger] self.state_v()[j]) is Ready ==> before_in_queue(
                        self.nodes_v()[best->0 as int].priority,
                        self.state_v()[best->0 as int]->Ready_0,
                        self.nodes_v()[j].priority,
                        self.state_v()[j]->Ready_0,
                    ),
                best is None ==> forall|j: int| 0 <= j < i ==> !(#[trigger] self.state_v()[j] is Ready),
            decreases self.state_v().len() - i,
        {
            if let NodeState::Ready(a, _) = self.state[i] {
                match best {
                    None => {
                        best = Some(i);
                    },
                    Some(b) => {
                        let pb = self.nodes[b].priority;
                        let pi = self.nodes[i].priority;
                        let ab = match self.state[b] {
                            NodeState::Ready(x, _) => x,
                            _ => 0,
                        };
                        if pi > pb || (pi == pb && a < ab) {
                            best = Some(i);
                        }
                    },
                }
            }
            i = i + 1;
        }
        best
    }
}

} // verus!

verus! {

/// The number of groups waiting or ready.
pub open spec fn waiting_count(st: Seq<NodeState>) -> nat
    decreases st.len(),
{
    if st.len() == 0 {
        0
    } else {
        waiting_count(st.drop_last()) + (if st.last() is Pending || st.last() is Ready { 1nat } else { 0nat })
    }
}

proof fn lemma_waiting_count_mono(a: Seq<NodeState>, b: Seq<NodeState>)
    requires
        a.len() == b.len(),
        forall|i: int| 0 <= i < a.len() && (#[trigger] b[i] is Pending || b[i] is Ready) ==> a[i] is Pending || a[i] is Ready,
    ensures
        waiting_count(b) <= waiting_count(a),
    decreases a.len(),
{
    if a.len() > 0 {
        let (a2, b2) = (a.drop_last(), b.drop_last());
        assert forall|i: int| 0 <= i < a2.len() && (#[trigger] b2[i] is Pending || b2[i] is Ready) implies a2[i] is Pending || a2[i] is Ready by {
            assert(b2[i] == b[i] && a2[i] == a[i]);
        }
        lemma_waiting_count_mono(a2, b2);
    }
}

proof fn lemma_waiting_count_drop(a: Seq<NodeState>, b: Seq<NodeState>, i: int)
    requires
        a.len() == b.len(),
        0 <= i < a.len(),
        a[i] is Ready,
        !(b[i] is Pending || b[i] is Ready),
        forall|j: int| 0 <= j < a.len() && j != i ==> #[trigger] b[j] == a[j],
    ensures
        waiting_count(b) < waiting_count(a),
    decreases a.len(),
{
    let (a2, b2) = (a.drop_last(), b.drop_last());
    if i == a.len() - 1 {
        assert(a2 =~= b2);
    } else {
        assert forall|j: int| 0 <= j < a2.len() && j != i implies #[trigger] b2[j] == a2[j] by {
            assert(b2[j] == b[j] && a2[j] == a[j]);
        }
        lemma_waiting_count_drop(a2, b2, i);
    }
}

impl Scheduler {
    /// Hand ready group `i` to idle worker `w`.
    #[verifier::spinoff_prover]
    fn assign(&mut self, i: usize, w: usize)
        requires
            old(self).wf(),
            i < old(self).state_v().len(),
            old(self).state_v()[i as int] is Ready,
            old(self).idle_worker(w as int),
        ensures
            final(self).wf(),
            final(self).nodes_v() == old(self).nodes_v(),
            final(self).files_v() == old(self).files_v(),
            final(self).ids_v() == old(self).ids_v(),
            final(self).state_v() == old(self).state_v().update(i as int, NodeState::Running(w)),
            final(self).workers_v() == old(self).workers_v().update(w as int, WorkerSlot { connected: true, job: Some(i) }),
    {
        let ghost old_self = *self;
        self.state.set(i, NodeState::Running(w));
        self.workers.set(w, WorkerSlot { connected: true, job: Some(i) });
        proof {
            let (nodes, st0, fs, ws0) = (old_self.nodes_v(), old_self.state_v(), old_self.files_v(), old_self.workers_v());
            let (st, ws) = (self.state_v(), self.workers_v());
            assert(st0.len() == old_self.state.len());
            assert(ws0.len() == old_self.workers.len());
            assert forall|w2: int| 0 <= w2 < ws.len() && (#[trigger] ws[w2]).job is Some implies ws[w2].job->0 < nodes.len() by {
                if w2 != w {
                    assert(ws[w2] == ws0[w2]);
                }
            }
            assert forall|x: int, k: int|
                0 <= x < nodes.len() && 0 <= k < nodes[x].deps@.len() && !(#[trigger] st[x] is Pending) && !(st[x] is Skipped)
                    implies (#[trigger] fs[nodes[x].deps@[k].file as int]).ready by {
                if x != i {
                    assert(st[x] == st0[x]);
                } else {
                    assert(!(st0[x] is Pending) && !(st0[x] is Skipped));
                }
            }
            assert forall|x: int, k: int|
                0 <= x < nodes.len() && 0 <= k < nodes[x].deps@.len() && !(#[trigger] fs[nodes[x].deps@[k].file as int]).ready
                    implies st[x] is Pending || st[x] is Skipped by {
                if x == i {
                    assert(!(st0[x] is Pending) && !(st0[x] is Skipped));
                }
            }
            assert forall|f: int|
                0 <= f < fs.len() && (#[trigger] fs[f]).producer is Some implies (fs[f].ready <==> finished(st[fs[f].producer->0 as int])) by {
            }
            assert forall|x: int, k: int|
                0 <= x < nodes.len() && 0 <= k < nodes[x].deps@.len() && !nodes[x].deps@[k].side && poisoned(
                    #[trigger] fs[nodes[x].deps@[k].file as int]) implies (#[trigger] st[x]) is Skipped by {
                if x == i {
                    assert(st0[x] is Skipped);
                }
            }
            assert forall|x: int| 0 <= x < nodes.len() && (#[trigger] st[x]) is Pending implies exists|k: int|
                0 <= k < nodes[x].deps@.len() && !(#[trigger] fs[nodes[x].deps@[k].file as int]).ready by {
                assert(st0[x] is Pending);
            }
            assert forall|x: int| 0 <= x < st.len() && (#[trigger] st[x]) is Running implies {
                &&& st[x]->Running_0 < ws.len()
                &&& ws[st[x]->Running_0 as int].job == Some(x as usize)
                &&& ws[st[x]->Running_0 as int].connected
            } by {
                if x != i {
                    assert(st0[x] == st[x]);
                    let w2 = st[x]->Running_0 as int;
                    assert(ws0[w2].job == Some(x as usize));
                    assert(w2 != w);
                }
            }
            assert forall|w2: int| 0 <= w2 < ws.len() && (#[trigger] ws[w2]).job is Some implies st[ws[w2].job->0 as int] == NodeState::Running(w2 as usize) by {
                if w2 != w {
                    assert(ws[w2] == ws0[w2]);
                    let x = ws0[w2].job->0 as int;
                    assert(st0[x] == NodeState::Running(w2 as usize));
                    assert(x != i);
                }
            }
        }
    }

    /// The contents of the inputs of group `i`, as far as they are known.
    fn input_keys(&self, i: usize) -> (r: Vec<(FileUuid, FileStoreKey)>)
        requires
            self.shape(),
            i < self.nodes_v().len(),
        ensures
            key_views(r@) == input_key_views(*self, i as int),
    {
        let mut r: Vec<(FileUuid, FileStoreKey)> = Vec::new();
        let deps = &self.nodes[i].deps;
        let ghost enc = dep_key_enc(self.files_v(), self.ids_v());
        let mut k: usize = 0;
        while k < deps.len()
            invariant
                self.shape(),
                i < self.nodes_v().len(),
                deps@ == self.nodes_v()[i as int].deps@,
                enc == dep_key_enc(self.files_v(), self.ids_v()),
                0 <= k <= deps@.len(),
                key_views(r@) == join_map(deps@.subrange(0, k as int), enc),
            decreases deps@.len() - k,
        {
            let f = deps[k].file;
            assert(f < self.files_v().len());
            let ghost before = r@;
            if let Some(key) = &self.files[f].key {
                r.push((self.ids[f], key.clone()));
                assert(key_views(r@) =~= key_views(before) + seq![(self.ids_v()[f as int], key@)]);
            }
            proof {
                lemma_join_map_step(deps@, k as int, enc);
                assert(key_views(r@) =~= join_map(deps@.subrange(0, k + 1), enc));
            }
            k = k + 1;
        }
        assert(deps@.subrange(0, deps@.len() as int) =~= deps@);
        r
    }
}

} // verus!

verus! {

/// The content keys of a resolution, by view.
pub open spec fn key_views(fk: Seq<(FileUuid, FileStoreKey)>) -> Seq<(FileUuid, Seq<u8>)> {
    fk.map_values(|p: (FileUuid, FileStoreKey)| (p.0, p.1@))
}

pub open spec fn dep_key_enc(files: Seq<FileSlot>, ids: Seq<FileUuid>) -> spec_fn(Dep) -> Seq<(FileUuid, Seq<u8>)> {
    |d: Dep|
        match files[d.file as int].key {
            Some(k) => seq![(ids[d.file as int], k@)],
            None => Seq::empty(),
        }
}

/// The recorded content keys of the inputs of group `i`, in order.
pub open spec fn input_key_views(s: Scheduler, i: int) -> Seq<(FileUuid, Seq<u8>)> {
    join_map(s.nodes_v()[i].deps@, dep_key_enc(s.files_v(), s.ids_v()))
}

/// `results` is what the cache serves for `g` with inputs `fk`.
pub open spec fn served(cache: Cache, g: ExecutionGroup, fk: Seq<(FileUuid, FileStoreKey)>, st: FileStore, results: Seq<ExecutionResult>) -> bool {
    match chosen_entry(cache.bucket(key_text(g, fk)), g, st) {
        Some(e) => results.len() == g.executions@.len() && forall|j: int|
            0 <= j < results.len() ==> replayed(e.items@[j], g.executions@[j].limits, #[trigger] results[j]),
        None => false,
    }
}

/// Why `schedule` took action `a`: the cache was asked for the group with
/// the recorded contents of its inputs, and answered a hit (`Cached`, with
/// the results it served) or a miss (`Start`). A group is announced unless
/// it was already announced before being requeued.
pub open spec fn action_justified(a: Action, s: Scheduler, cache: Cache, st: FileStore, start: Seq<NodeState>) -> bool {
    match a {
        Action::Start { node, worker, announce } => {
            &&& node < s.nodes_v().len()
            &&& announce == !(start[node as int] matches NodeState::Ready(_, true))
            &&& exists|fk: Seq<(FileUuid, FileStoreKey)>|
                key_views(fk) == input_key_views(s, node as int) && (#[trigger] chosen_entry(
                    cache.bucket(key_text(s.nodes_v()[node as int].group, fk)),
                    s.nodes_v()[node as int].group,
                    st,
                )) is None
        },
        Action::Cached { node, results, announce } => {
            &&& node < s.nodes_v().len()
            &&& announce == !(start[node as int] matches NodeState::Ready(_, true))
            &&& exists|fk: Seq<(FileUuid, FileStoreKey)>|
                key_views(fk) == input_key_views(s, node as int) && #[trigger] served(
                    cache,
                    s.nodes_v()[node as int].group,
                    fk,
                    st,
                    results@,
                )
        },
    }
}

pub open spec fn action_node(a: Action) -> usize {
    match a {
        Action::Start { node, .. } => node,
        Action::Cached { node, .. } => node,
    }
}

proof fn lemma_join_map_congruence<T, U>(s: Seq<T>, f: spec_fn(T) -> Seq<U>, g: spec_fn(T) -> Seq<U>)
    requires
        forall|k: int| 0 <= k < s.len() ==> f(#[trigger] s[k]) == g(s[k]),
    ensures
        join_map(s, f) == join_map(s, g),
    decreases s.len(),
{
    if s.len() > 0 {
        lemma_join_map_congruence(s.drop_last(), f, g);
        assert(f(s.last()) == g(s[s.len() - 1]));
    }
}

/// The recorded input keys of a group whose inputs are all resolved do not
/// change while resolved files stay as they are.
proof fn lemma_input_keys_stable(a: Scheduler, b: Scheduler, i: int)
    requires
        a.shape(),
        0 <= i < a.nodes_v().len(),
        b.nodes_v() == a.nodes_v(),
        b.ids_v() == a.ids_v(),
        b.files_v().len() == a.files_v().len(),
        forall|k: int| 0 <= k < a.nodes_v()[i].deps@.len() ==> (#[trigger] a.files_v()[a.nodes_v()[i].deps@[k].file as int]).ready,
        forall|f: int| 0 <= f < a.files_v().len() && a.files_v()[f].ready ==> #[trigger] b.files_v()[f] == a.files_v()[f],
    ensures
        input_key_views(b, i) == input_key_views(a, i),
{
    let deps = a.nodes_v()[i].deps@;
    assert forall|k: int| 0 <= k < deps.len() implies dep_key_enc(a.files_v(), a.ids_v())(#[trigger] deps[k]) == dep_key_enc(
        b.files_v(),
        b.ids_v(),
    )(deps[k]) by {
        let f = deps[k].file as int;
        assert(a.files_v()[f].ready);
        assert(b.files_v()[f] == a.files_v()[f]);
    }
    lemma_join_map_congruence(deps, dep_key_enc(a.files_v(), a.ids_v()), dep_key_enc(b.files_v(), b.ids_v()));
}

/// What an action of `schedule` left in the state.
pub open spec fn action_done(a: Action, st: Seq<NodeState>) -> bool {
    match a {
        Action::Start { node, worker, announce } => node < st.len() && st[node as int] == NodeState::Running(worker),
        Action::Cached { node, results, announce } => node < st.len() && st[node as int] is Done,
    }
}

/// Whether every execution succeeded.
pub open spec fn all_succeeded(rs: Seq<ExecutionResult>) -> bool {
    forall|i: int| 0 <= i < rs.len() ==> (#[trigger] rs[i]).status is Success
}

fn all_success(rs: &Vec<ExecutionResult>) -> (r: bool)
    ensures
        r == all_succeeded(rs@),
{
    let mut i: usize = 0;
    while i < rs.len()
        invariant
            0 <= i <= rs@.len(),
            forall|j: int| 0 <= j < i ==> (#[trigger] rs@[j]).status is Success,
        decreases rs@.len() - i,
    {
        if !rs[i].status.is_success() {
            return false;
        }
        i = i + 1;
    }
    true
}

impl Scheduler {
    /// Earlier actions stay justified across a step that keeps resolved
    /// files and the running or completed groups as they are.
    proof fn lemma_actions_kept(&self, before: Scheduler, actions: Seq<Action>, cache: Cache, st: FileStore, start: Seq<NodeState>)
        requires
            before.wf(),
            self.nodes_v() == before.nodes_v(),
            self.ids_v() == before.ids_v(),
            self.files_v().len() == before.files_v().len(),
            forall|f: int| 0 <= f < before.files_v().len() && before.files_v()[f].ready ==> #[trigger] self.files_v()[f] == before.files_v()[f],
            forall|j: int| 0 <= j < actions.len() ==> action_done(#[trigger] actions[j], before.state_v()),
            forall|j: int| 0 <= j < actions.len() ==> action_justified(#[trigger] actions[j], before, cache, st, start),
        ensures
            forall|j: int| 0 <= j < actions.len() ==> action_justified(#[trigger] actions[j], *self, cache, st, start),
    {
        assert forall|j: int| 0 <= j < actions.len() implies action_justified(#[trigger] actions[j], *self, cache, st, start) by {
            let a = actions[j];
            assert(action_done(a, before.state_v()));
            assert(action_justified(a, before, cache, st, start));
            let n = action_node(a) as int;
            assert(!(before.state_v()[n] is Pending) && !(before.state_v()[n] is Skipped));
            assert forall|k: int| 0 <= k < before.nodes_v()[n].deps@.len() implies (#[trigger] before.files_v()[before.nodes_v()[n].deps@[k].file as int]).ready by {
            }
            lemma_input_keys_stable(before, *self, n);
        }
    }

    proof fn lemma_announce_kept(&self, before: Scheduler, mid: Scheduler, start: Seq<NodeState>, i: int)
        requires
            0 <= i < before.state_v().len(),
            mid.state_v() == before.state_v().update(i, NodeState::Done(mid.state_v()[i]->Done_0)),
            progressed(mid, *self),
            forall|x: int| 0 <= x < before.state_v().len() && (#[trigger] before.state_v()[x]) is Pending ==> start[x] is Pending,
            forall|x: int| 0 <= x < before.state_v().len() && (#[trigger] before.state_v()[x]) is Ready ==> (before.state_v()[x]->Ready_1
                <==> start[x] matches NodeState::Ready(_, true)),
        ensures
            forall|x: int| 0 <= x < self.state_v().len() && (#[trigger] self.state_v()[x]) is Pending ==> start[x] is Pending,
            forall|x: int| 0 <= x < self.state_v().len() && (#[trigger] self.state_v()[x]) is Ready ==> (self.state_v()[x]->Ready_1
                <==> start[x] matches NodeState::Ready(_, true)),
    {
        assert forall|x: int| 0 <= x < self.state_v().len() && (#[trigger] self.state_v()[x]) is Pending implies start[x] is Pending by {
            if !(mid.state_v()[x] is Pending) {
                assert(self.state_v()[x] == mid.state_v()[x]);
            }
        }
        assert forall|x: int| 0 <= x < self.state_v().len() && (#[trigger] self.state_v()[x]) is Ready implies (self.state_v()[x]->Ready_1
            <==> start[x] matches NodeState::Ready(_, true)) by {
            if mid.state_v()[x] is Pending {
                assert(before.state_v()[x] is Pending);
                assert(!(self.state_v()[x] matches NodeState::Ready(_, true)));
            } else {
                assert(self.state_v()[x] == mid.state_v()[x]);
            }
        }
    }

    /// Hand out work while a worker is idle and a group is ready, best
    /// first: a group the cache can serve completes at once, without a
    /// worker; any other goes to an idle worker. Afterwards no worker is
    /// idle while a group is ready.
    #[verifier::spinoff_prover]
    #[verifier::rlimit(80)]
    pub fn schedule(&mut self, cache: &Cache, store: &FileStore) -> (r: Vec<Action>)
        requires
            old(self).wf(),
            cache.wf(),
        ensures
            final(self).wf(),
            !(final(self).has_idle_worker() && final(self).has_ready()),
            final(self).nodes_v() == old(self).nodes_v(),
            final(self).ids_v() == old(self).ids_v(),
            forall|x: int|
                0 <= x < old(self).state_v().len() && (old(self).state_v()[x] is Running || finished(
                    old(self).state_v()[x],
                )) ==> #[trigger] final(self).state_v()[x] == old(self).state_v()[x],
            forall|j: int| 0 <= j < r@.len() ==> action_done(#[trigger] r@[j], final(self).state_v()),
            forall|j: int| 0 <= j < r@.len() ==> action_justified(#[trigger] r@[j], *final(self), *cache, *store, old(self).state_v()),
    {
        let ghost start = *self;
        let mut actions: Vec<Action> = Vec::new();
        let mut go = true;
        while go
            invariant
                self.wf(),
                cache.wf(),
                self.nodes_v() == start.nodes_v(),
                self.ids_v() == start.ids_v(),
                self.state_v().len() == start.state_v().len(),
                forall|x: int|
                    0 <= x < start.state_v().len() && (start.state_v()[x] is Running || finished(start.state_v()[x]))
                        ==> #[trigger] self.state_v()[x] == start.state_v()[x],
                forall|j: int| 0 <= j < actions@.len() ==> action_done(#[trigger] actions@[j], self.state_v()),
                forall|j: int| 0 <= j < actions@.len() ==> action_justified(#[trigger] actions@[j], *self, *cache, *store, start.state_v()),
                forall|x: int| 0 <= x < self.state_v().len() && (#[trigger] self.state_v()[x]) is Pending ==> start.state_v()[x] is Pending,
                forall|x: int| 0 <= x < self.state_v().len() && (#[trigger] self.state_v()[x]) is Ready ==> (self.state_v()[x]->Ready_1
                    <==> start.state_v()[x] matches NodeState::Ready(_, true)),
                !go ==> !(self.has_idle_worker() && self.has_ready()),
            decreases waiting_count(self.state_v()) + (if go { 1nat } else { 0nat }),
        {
            let ghost before = *self;
            match self.find_idle_worker() {
                None => {
                    go = false;
                },
                Some(w) => {
                    match self.best_ready() {
                        None => {
                            go = false;
                        },
                        Some(i) => {
                            let announce = match self.state[i] {
                                NodeState::Ready(_, announced) => !announced,
                                _ => true,
                            };
                            let fk = self.input_keys(i);
                            let answer = cache.get(&self.nodes[i].group, &fk, store);
                            let ghost g = self.nodes_v()[i as int].group;
                            let ghost hit = chosen_entry(cache.bucket(key_text(g, fk@)), g, *store);
                            assert(before.state_v()[i as int] is Ready);
                            match answer {
                                CacheResult::Hit { result, outputs } => {
                                    let ok = all_success(&result);
                                    self.finish(i, false, ok, &outputs);
                                    let ghost mid = *self;
                                    let _ = self.settle();
                                    proof {
                                        lemma_waiting_count_drop(before.state_v(), mid.state_v(), i as int);
                                        lemma_waiting_count_mono(mid.state_v(), self.state_v());
                                        assert forall|x: int|
                                            0 <= x < mid.state_v().len() && !(mid.state_v()[x] is Pending) implies #[trigger] self.state_v()[x] == mid.state_v()[x] by {}
                                        assert forall|f: int| 0 <= f < before.files_v().len() && before.files_v()[f].ready implies #[trigger] self.files_v()[f]
                                            == before.files_v()[f] by {
                                            assert(mid.files_v()[f] == before.files_v()[f]);
                                        }
                                        assert(hit is Some && served(*cache, g, fk@, *store, result@));
                                        self.lemma_actions_kept(before, actions@, *cache, *store, start.state_v());
                                        lemma_input_keys_stable(before, *self, i as int);
                                        self.lemma_announce_kept(before, mid, start.state_v(), i as int);
                                    }
                                    let ghost prev = actions@;
                                    let ghost rv = result@;
                                    actions.push(Action::Cached { node: i, results: result, announce });
                                    proof {
                                        assert(served(*cache, self.nodes_v()[i as int].group, fk@, *store, rv));
                                        assert(actions@[prev.len() as int] matches Action::Cached { node, results, announce: a }
                                            && node == i && results@ == rv && a == announce);
                                        assert(key_views(fk@) == input_key_views(*self, i as int));
                                        assert(before.state_v()[i as int]->Ready_1 <==> start.state_v()[i as int] matches NodeState::Ready(_, true));
                                        assert(announce == !before.state_v()[i as int]->Ready_1);
                                        assert(self.nodes_v()[i as int].group == g);
                                        assert(action_justified(actions@[prev.len() as int], *self, *cache, *store, start.state_v()));
                                        assert forall|j: int| 0 <= j < actions@.len() implies action_justified(#[trigger] actions@[j], *self, *cache, *store, start.state_v()) by {
                                            if j < prev.len() {
                                                assert(actions@[j] == prev[j]);
                                            }
                                        }
                                    }
                                },
                                CacheResult::Miss => {
                                    self.assign(i, w);
                                    proof {
                                        lemma_waiting_count_drop(before.state_v(), self.state_v(), i as int);
                                        assert(hit is None);
                                        self.lemma_actions_kept(before, actions@, *cache, *store, start.state_v());
                                        lemma_input_keys_stable(before, *self, i as int);
                                        assert forall|x: int| 0 <= x < self.state_v().len() && (#[trigger] self.state_v()[x]) is Pending implies start.state_v()[x] is Pending by {
                                            assert(before.state_v()[x] is Pending);
                                        }
                                        assert forall|x: int| 0 <= x < self.state_v().len() && (#[trigger] self.state_v()[x]) is Ready implies (self.state_v()[x]->Ready_1
                                            <==> start.state_v()[x] matches NodeState::Ready(_, true)) by {
                                            assert(before.state_v()[x] == self.state_v()[x]);
                                        }
                                    }
                                    let ghost prev = actions@;
                                    actions.push(Action::Start { node: i, worker: w, announce });
                                    proof {
                                        assert(key_views(fk@) == input_key_views(*self, i as int));
                                        assert(before.state_v()[i as int]->Ready_1 <==> start.state_v()[i as int] matches NodeState::Ready(_, true));
                                        assert(announce == !before.state_v()[i as int]->Ready_1);
                                        assert(self.nodes_v()[i as int].group == g);
                                        assert(action_justified(actions@[prev.len() as int], *self, *cache, *store, start.state_v()));
                                        assert forall|j: int| 0 <= j < actions@.len() implies action_justified(#[trigger] actions@[j], *self, *cache, *store, start.state_v()) by {
                                            if j < prev.len() {
                                                assert(actions@[j] == prev[j]);
                                            }
                                        }
                                    }
                                },
                            }
                        },
                    }
                },
            }
        }
        actions
    }
}

} // verus!

verus! {

/// The files an execution consumes, with whether each is a side input:
/// its stdin, then its inputs.
pub open spec fn exec_consumes(e: Execution) -> Seq<(FileUuid, bool)> {
    (match e.stdin {
        Some(u) => seq![(u, false)],
        None => Seq::empty(),
    }) + e.inputs@.map_values(|b: InputBinding| (b.file, b.side))
}

pub open spec fn consumes_enc() -> spec_fn(Execution) -> Seq<(FileUuid, bool)> {
    |e: Execution| exec_consumes(e)
}

/// The files a group consumes, execution by execution.
pub open spec fn group_consumes(g: ExecutionGroup) -> Seq<(FileUuid, bool)> {
    join_map(g.executions@, consumes_enc())
}

pub open spec fn group_slots_enc() -> spec_fn(ExecutionGroup) -> Seq<FileUuid> {
    |g: ExecutionGroup| group_slots(g)
}

/// Every file the DAG declares: the provided ones, then the outputs of
/// each group.
pub open spec fn declared(groups: Seq<ExecutionGroup>, provided: Seq<FileUuid>) -> Seq<FileUuid> {
    provided + join_map(groups, group_slots_enc())
}

pub open spec fn no_duplicates(s: Seq<FileUuid>) -> bool {
    forall|i: int, j: int| 0 <= i < j < s.len() ==> s[i] != s[j]
}

/// Every consumed file is declared.
pub open spec fn all_declared(groups: Seq<ExecutionGroup>, decl: Seq<FileUuid>) -> bool {
    forall|i: int, k: int|
        0 <= i < groups.len() && 0 <= k < group_consumes(groups[i]).len() ==> decl.contains(
            (#[trigger] group_consumes(groups[i])[k]).0,
        )
}

/// The inputs of each group are its consumed files, in order.
pub open spec fn covers(nodes: Seq<SchedNode>, ids: Seq<FileUuid>) -> bool {
    forall|i: int|
        0 <= i < nodes.len() ==> {
            &&& (#[trigger] nodes[i]).deps@.len() == group_consumes(nodes[i].group).len()
            &&& forall|k: int|
                0 <= k < nodes[i].deps@.len() ==> ids[(#[trigger] nodes[i].deps@[k]).file as int]
                    == group_consumes(nodes[i].group)[k].0 && nodes[i].deps@[k].side == group_consumes(
                    nodes[i].group,
                )[k].1
        }
}

/// The position of `u` in `ids`, if it is there.
fn index_of(ids: &Vec<FileUuid>, u: FileUuid) -> (r: Option<usize>)
    ensures
        r is Some ==> r->0 < ids@.len() && ids@[r->0 as int] == u,
        r is None ==> !ids@.contains(u),
{
    let mut i: usize = 0;
    while i < ids.len()
        invariant
            0 <= i <= ids@.len(),
            forall|j: int| 0 <= j < i ==> ids@[j] != u,
        decreases ids@.len() - i,
    {
        if ids[i] == u {
            return Some(i);
        }
        i = i + 1;
    }
    None
}

fn push_exec_consumes(v: &mut Vec<(FileUuid, bool)>, e: &Execution)
    ensures
        final(v)@ == old(v)@ + exec_consumes(*e),
{
    if let Some(u) = e.stdin {
        v.push((u, false));
    }
    let ghost base = v@;
    let mut j: usize = 0;
    while j < e.inputs.len()
        invariant
            0 <= j <= e.inputs@.len(),
            v@ == base + e.inputs@.subrange(0, j as int).map_values(|b: InputBinding| (b.file, b.side)),
        decreases e.inputs@.len() - j,
    {
        v.push((e.inputs[j].file, e.inputs[j].side));
        j = j + 1;
        assert(v@ =~= base + e.inputs@.subrange(0, j as int).map_values(|b: InputBinding| (b.file, b.side)));
    }
    assert(e.inputs@.subrange(0, e.inputs@.len() as int) =~= e.inputs@);
    assert(final(v)@ =~= old(v)@ + exec_consumes(*e));
}

/// The files `group` consumes, in order.
fn consumed_files(group: &ExecutionGroup) -> (r: Vec<(FileUuid, bool)>)
    ensures
        r@ == group_consumes(*group),
{
    let mut v: Vec<(FileUuid, bool)> = Vec::new();
    let xs = &group.executions;
    let mut i: usize = 0;
    while i < xs.len()
        invariant
            0 <= i <= xs@.len(),
            v@ == join_map(xs@.subrange(0, i as int), consumes_enc()),
        decreases xs@.len() - i,
    {
        push_exec_consumes(&mut v, &xs[i]);
        proof {
            lemma_join_map_step(xs@, i as int, consumes_enc());
        }
        i = i + 1;
    }
    assert(xs@.subrange(0, xs@.len() as int) =~= xs@);
    v
}

/// The priority of a group: the highest of its executions (0 when empty).
pub open spec fn group_priority(es: Seq<Execution>) -> i64
    decreases es.len(),
{
    if es.len() == 0 {
        0
    } else if es.len() == 1 {
        es[0].priority
    } else {
        let p = group_priority(es.drop_last());
        if es.last().priority > p {
            es.last().priority
        } else {
            p
        }
    }
}

fn priority_of(group: &ExecutionGroup) -> (r: i64)
    ensures
        r == group_priority(group.executions@),
{
    let xs = &group.executions;
    if xs.len() == 0 {
        return 0;
    }
    let mut best = xs[0].priority;
    let mut i: usize = 1;
    assert(xs@.subrange(0, 1).drop_last().len() == 0);
    while i < xs.len()
        invariant
            1 <= i <= xs@.len(),
            best == group_priority(xs@.subrange(0, i as int)),
        decreases xs@.len() - i,
    {
        assert(xs@.subrange(0, i + 1).drop_last() =~= xs@.subrange(0, i as int));
        if xs[i].priority > best {
            best = xs[i].priority;
        }
        i = i + 1;
    }
    assert(xs@.subrange(0, xs@.len() as int) =~= xs@);
    best
}

} // verus!

verus! {

impl Scheduler {
    /// Admit a DAG: `groups` with the files `provided` by the client. It is
    /// refused when a file is declared twice (provided or produced), or when
    /// a consumed file is declared nowhere. On admission every group waits
    /// for its inputs (none is resolved yet) or is ready, and no worker is
    /// known.
    #[verifier::spinoff_prover]
    pub fn new(groups: Vec<ExecutionGroup>, provided: &Vec<FileUuid>) -> (r: Result<Scheduler, DagError>)
        ensures
            (r is Ok) <==> (no_duplicates(declared(groups@, provided@)) && all_declared(
                groups@,
                declared(groups@, provided@),
            )),
            r matches Err(DagError::DuplicateFile(u)) ==> !no_duplicates(declared(groups@, provided@))
                && declared(groups@, provided@).contains(u),
            r matches Err(DagError::MissingFile(u)) ==> !declared(groups@, provided@).contains(u)
                && exists|i: int, k: int|
                0 <= i < groups@.len() && 0 <= k < group_consumes(groups@[i]).len()
                    && (#[trigger] group_consumes(groups@[i])[k]).0 == u,
            r matches Ok(s) ==> {
                &&& s.wf()
                &&& s.nodes_v().len() == groups@.len()
                &&& forall|i: int| 0 <= i < groups@.len() ==> (#[trigger] s.nodes_v()[i]).group == groups@[i]
                &&& s.ids_v() == declared(groups@, provided@)
                &&& covers(s.nodes_v(), s.ids_v())
                &&& s.workers_v().len() == 0
                &&& forall|i: int| 0 <= i < s.state_v().len() ==> !(#[trigger] s.state_v()[i] is Running)
                    && !(s.state_v()[i] is Done)
            },
    {
        let ghost decl = declared(groups@, provided@);
        let ghost np = provided@.len();
        let mut ids: Vec<FileUuid> = Vec::new();
        let mut files: Vec<FileSlot> = Vec::new();
        let mut p: usize = 0;
        while p < provided.len()
            invariant
                0 <= p <= provided@.len(),
                decl == declared(groups@, provided@),
                ids@ == provided@.subrange(0, p as int),
                no_duplicates(ids@),
                files@.len() == ids@.len(),
                forall|f: int| 0 <= f < files@.len() ==> (#[trigger] files@[f]).producer is None && !files@[f].ready,
            decreases provided@.len() - p,
        {
            let u = provided[p];
            if let Some(x) = index_of(&ids, u) {
                proof {
                    assert(decl[x as int] == provided@[x as int]);
                    assert(decl[p as int] == provided@[p as int]);
                    assert(decl[x as int] == u && decl[p as int] == u);
                }
                return Err(DagError::DuplicateFile(u));
            }
            ids.push(u);
            files.push(FileSlot { producer: None, ready: false, ok: true, key: None });
            p = p + 1;
            assert(ids@ =~= provided@.subrange(0, p as int));
        }
        assert(ids@ =~= provided@);
        let n = groups.len();
        let mut all_outs: Vec<Vec<usize>> = Vec::new();
        let mut j: usize = 0;
        while j < n
            invariant
                n == groups@.len(),
                0 <= j <= n,
                decl == declared(groups@, provided@),
                ids@ == provided@ + join_map(groups@.subrange(0, j as int), group_slots_enc()),
                no_duplicates(ids@),
                files@.len() == ids@.len(),
                all_outs@.len() == j,
                forall|f: int| 0 <= f < files@.len() ==> !(#[trigger] files@[f]).ready,
                forall|f: int| 0 <= f < files@.len() && (#[trigger] files@[f]).producer is Some ==> files@[f].producer->0 < j,
                forall|a: int, k: int| 0 <= a < j && 0 <= k < all_outs@[a]@.len() ==> (#[trigger] all_outs@[a]@[k]) < files@.len()
                    && files@[all_outs@[a]@[k] as int].producer == Some(a as usize),
            decreases n - j,
        {
            let slots = output_slots(&groups[j]);
            let ghost base = ids@;
            let mut outs: Vec<usize> = Vec::new();
            let mut m: usize = 0;
            while m < slots.len()
                invariant
                    n == groups@.len(),
                    j < n,
                    decl == declared(groups@, provided@),
                    slots@ == group_slots(groups@[j as int]),
                    base == provided@ + join_map(groups@.subrange(0, j as int), group_slots_enc()),
                    0 <= m <= slots@.len(),
                    ids@ == base + slots@.subrange(0, m as int),
                    no_duplicates(ids@),
                    files@.len() == ids@.len(),
                    all_outs@.len() == j,
                    forall|f: int| 0 <= f < files@.len() ==> !(#[trigger] files@[f]).ready,
                    forall|f: int| 0 <= f < files@.len() && (#[trigger] files@[f]).producer is Some ==> files@[f].producer->0 <= j,
                    forall|a: int, k: int| 0 <= a < j && 0 <= k < all_outs@[a]@.len() ==> (#[trigger] all_outs@[a]@[k]) < files@.len()
                        && files@[all_outs@[a]@[k] as int].producer == Some(a as usize),
                    forall|k: int| 0 <= k < outs@.len() ==> (#[trigger] outs@[k]) < files@.len()
                        && files@[outs@[k] as int].producer == Some(j),
                decreases slots@.len() - m,
            {
                let u = slots[m];
                if let Some(x) = index_of(&ids, u) {
                    proof {
                        lemma_join_map_step(groups@, j as int, group_slots_enc());
                        let full = provided@ + join_map(groups@.subrange(0, j as int + 1), group_slots_enc());
                        assert(full =~= base + slots@);
                        lemma_declared_prefix(groups@, provided@, j as int + 1);
                        assert(decl.subrange(0, full.len() as int) == full);
                        assert(decl.subrange(0, full.len() as int)[x as int] == decl[x as int]);
                        assert(decl.subrange(0, full.len() as int)[ids@.len() as int] == decl[ids@.len() as int]);
                        assert(decl[x as int] == full[x as int]);
                        assert(decl[ids@.len() as int] == full[ids@.len() as int]);
                        assert(decl[x as int] == u && decl[ids@.len() as int] == u);
                    }
                    return Err(DagError::DuplicateFile(u));
                }
                outs.push(ids.len());
                ids.push(u);
                files.push(FileSlot { producer: Some(j), ready: false, ok: true, key: None });
                m = m + 1;
                assert(ids@ =~= base + slots@.subrange(0, m as int));
            }
            proof {
                lemma_join_map_step(groups@, j as int, group_slots_enc());
                assert(slots@.subrange(0, slots@.len() as int) =~= slots@);
                assert(ids@ =~= provided@ + join_map(groups@.subrange(0, j as int + 1), group_slots_enc()));
            }
            all_outs.push(outs);
            j = j + 1;
        }
        proof {
            assert(groups@.subrange(0, n as int) =~= groups@);
            assert(ids@ == decl);
        }
        let mut all_deps: Vec<Vec<Dep>> = Vec::new();
        let mut j: usize = 0;
        while j < n
            invariant
                n == groups@.len(),
                0 <= j <= n,
                decl == declared(groups@, provided@),
                ids@ == decl,
                no_duplicates(ids@),
                files@.len() == ids@.len(),
                all_outs@.len() == n,
                forall|f: int| 0 <= f < files@.len() ==> !(#[trigger] files@[f]).ready,
                forall|f: int| 0 <= f < files@.len() && (#[trigger] files@[f]).producer is Some ==> files@[f].producer->0 < n,
                forall|a: int, k: int| 0 <= a < n && 0 <= k < all_outs@[a]@.len() ==> (#[trigger] all_outs@[a]@[k]) < files@.len()
                    && files@[all_outs@[a]@[k] as int].producer == Some(a as usize),
                all_deps@.len() == j,
                forall|a: int| 0 <= a < j ==> (#[trigger] all_deps@[a])@.len() == group_consumes(groups@[a]).len(),
                forall|a: int, k: int| 0 <= a < j && 0 <= k < all_deps@[a]@.len() ==> (#[trigger] all_deps@[a]@[k]).file < ids@.len()
                    && ids@[all_deps@[a]@[k].file as int] == group_consumes(groups@[a])[k].0
                    && all_deps@[a]@[k].side == group_consumes(groups@[a])[k].1,
                forall|a: int, k: int| 0 <= a < j && 0 <= k < group_consumes(groups@[a]).len() ==> decl.contains(
                    (#[trigger] group_consumes(groups@[a])[k]).0),
            decreases n - j,
        {
            let cons = consumed_files(&groups[j]);
            let mut deps: Vec<Dep> = Vec::new();
            let mut m: usize = 0;
            while m < cons.len()
                invariant
                    n == groups@.len(),
                    j < n,
                    cons@ == group_consumes(groups@[j as int]),
                    0 <= m <= cons@.len(),
                    decl == declared(groups@, provided@),
                    no_duplicates(ids@),
                    ids@ == decl,
                    deps@.len() == m,
                    forall|k: int| 0 <= k < m ==> (#[trigger] deps@[k]).file < ids@.len() && ids@[deps@[k].file as int]
                        == cons@[k].0 && deps@[k].side == cons@[k].1,
                decreases cons@.len() - m,
            {
                let (u, side) = cons[m];
                match index_of(&ids, u) {
                    None => {
                        proof {
                            assert(group_consumes(groups@[j as int])[m as int].0 == u);
                            assert(!decl.contains(u));
                            assert(!all_declared(groups@, decl));
                        }
                        return Err(DagError::MissingFile(u));
                    },
                    Some(x) => {
                        deps.push(Dep { file: x, side });
                    },
                }
                m = m + 1;
            }
            proof {
                assert forall|k: int| 0 <= k < group_consumes(groups@[j as int]).len() implies decl.contains(
                    (#[trigger] group_consumes(groups@[j as int])[k]).0) by {
                    assert(ids@[deps@[k].file as int] == cons@[k].0);
                }
            }
            all_deps.push(deps);
            j = j + 1;
        }
        let ghost orig = groups@;
        let ghost outs0 = all_outs@;
        let ghost deps0 = all_deps@;
        let mut groups = groups;
        let mut nodes: Vec<SchedNode> = Vec::new();
        let mut state: Vec<NodeState> = Vec::new();
        let mut j: usize = 0;
        while j < n
            invariant
                n == orig.len(),
                0 <= j <= n,
                groups@ == orig.subrange(j as int, n as int),
                all_outs@ == outs0.subrange(j as int, n as int),
                all_deps@ == deps0.subrange(j as int, n as int),
                outs0.len() == n,
                deps0.len() == n,
                files@.len() == ids@.len(),
                forall|f: int| 0 <= f < files@.len() ==> !(#[trigger] files@[f]).ready,
                forall|f: int| 0 <= f < files@.len() && (#[trigger] files@[f]).producer is Some ==> files@[f].producer->0 < n,
                forall|a: int, k: int| 0 <= a < n && 0 <= k < outs0[a]@.len() ==> (#[trigger] outs0[a]@[k]) < files@.len()
                    && files@[outs0[a]@[k] as int].producer == Some(a as usize),
                forall|a: int, k: int| 0 <= a < n && 0 <= k < deps0[a]@.len() ==> (#[trigger] deps0[a]@[k]).file < ids@.len()
                    && ids@[deps0[a]@[k].file as int] == group_consumes(orig[a])[k].0
                    && deps0[a]@[k].side == group_consumes(orig[a])[k].1,
                forall|a: int| 0 <= a < n ==> (#[trigger] deps0[a])@.len() == group_consumes(orig[a]).len(),
                nodes@.len() == j,
                state@.len() == j,
                forall|a: int| 0 <= a < j ==> (#[trigger] state@[a]) is Pending,
                forall|a: int| 0 <= a < j ==> {
                    &&& (#[trigger] nodes@[a]).group == orig[a]
                    &&& nodes@[a].deps@ == deps0[a]@
                    &&& nodes@[a].outs@ == outs0[a]@
                },
            decreases n - j,
        {
            let g = groups.remove(0);
            let outs = all_outs.remove(0);
            let deps = all_deps.remove(0);
            let priority = priority_of(&g);
            nodes.push(SchedNode { group: g, deps, outs, priority });
            state.push(NodeState::Pending);
            j = j + 1;
            assert(groups@ =~= orig.subrange(j as int, n as int));
            assert(all_outs@ =~= outs0.subrange(j as int, n as int));
            assert(all_deps@ =~= deps0.subrange(j as int, n as int));
        }
        let mut s = Scheduler { nodes, state, files, ids, workers: Vec::new(), arrivals: 0 };
        proof {
            assert(s.shape());
            assert(covers(s.nodes_v(), s.ids_v()));
        }
        let _ = s.settle();
        Ok(s)
    }
}

/// The declared files start with the provided ones and the outputs of the
/// first `j` groups.
proof fn lemma_declared_prefix(groups: Seq<ExecutionGroup>, provided: Seq<FileUuid>, j: int)
    requires
        0 <= j <= groups.len(),
    ensures
        (provided + join_map(groups.subrange(0, j), group_slots_enc())).len() <= declared(groups, provided).len(),
        declared(groups, provided).subrange(
            0,
            (provided + join_map(groups.subrange(0, j), group_slots_enc())).len() as int,
        ) == provided + join_map(groups.subrange(0, j), group_slots_enc()),
    decreases groups.len() - j,
{
    if j == groups.len() {
        assert(groups.subrange(0, j) =~= groups);
        let d = declared(groups, provided);
        assert(d.subrange(0, d.len() as int) =~= d);
    } else {
        lemma_declared_prefix(groups, provided, j + 1);
        lemma_join_map_step(groups, j, group_slots_enc());
        let a = provided + join_map(groups.subrange(0, j), group_slots_enc());
        let b = provided + join_map(groups.subrange(0, j + 1), group_slots_enc());
        assert(b =~= a + group_slots(groups[j]));
        let d = declared(groups, provided);
        let db = d.subrange(0, b.len() as int);
        assert forall|i: int| 0 <= i < a.len() implies d[i] == a[i] by {
            assert(db[i] == d[i]);
            assert(b[i] == a[i]);
        }
        assert(d.subrange(0, a.len() as int) =~= a);
    }
}

} // verus!

verus! {

/// A message that makes no sense in the worker's state.
#[derive(Clone, Copy, Debug, PartialEq, Eq, Structural)]
pub enum ProtocolError {
    /// The worker reported a result without having a job.
    NoJob,
}

/// The number of groups in the given state.
pub open spec fn count_where(st: Seq<NodeState>, ready: bool) -> nat
    decreases st.len(),
{
    if st.len() == 0 {
        0
    } else {
        count_where(st.drop_last(), ready) + (if (ready && st.last() is Ready) || (!ready && st.last() is Pending) {
            1nat
        } else {
            0nat
        })
    }
}

impl Scheduler {
    /// The client provided file `uuid`, whose content has key `key`: it is
    /// resolved and the groups waiting for it move on. Returns the groups
    /// skipped as a consequence (none: a provided file never fails).
    #[verifier::spinoff_prover]
    pub fn provide_file(&mut self, uuid: FileUuid, key: FileStoreKey) -> (skipped: Vec<usize>)
        requires
            old(self).wf(),
        ensures
            final(self).wf(),
            progressed(*old(self), *final(self)),
            forall|f: int|
                0 <= f < old(self).ids_v().len() && old(self).ids_v()[f] == uuid && old(self).files_v()[f].producer is None
                    ==> (#[trigger] final(self).files_v()[f]).ready,
            forall|f: int|
                0 <= f < old(self).ids_v().len() && old(self).ids_v()[f] == uuid && old(self).files_v()[f].producer is None
                    && !old(self).files_v()[f].ready ==> (#[trigger] final(self).files_v()[f]).ok && opt_key(
                    final(self).files_v()[f].key,
                ) == Some(key@),
            forall|f: int|
                0 <= f < old(self).ids_v().len() && old(self).ids_v()[f] != uuid && old(self).files_v()[f].producer is None
                    ==> #[trigger] final(self).files_v()[f] == old(self).files_v()[f],
            forall|f: int|
                0 <= f < old(self).ids_v().len() && old(self).files_v()[f].producer is None ==> (
                #[trigger] final(self).files_v()[f]).producer is None,
    {
        match index_of(&self.ids, uuid) {
            None => Vec::new(),
            Some(f) => {
                if self.files[f].producer.is_some() || self.files[f].ready {
                    proof {
                        assert forall|g: int|
                            0 <= g < self.ids_v().len() && self.ids_v()[g] == uuid && self.files_v()[g].producer is None
                                implies (#[trigger] self.files_v()[g]).ready by {
                            assert(g == f as int);
                        }
                    }
                    return Vec::new();
                }
                let ghost old_self = *self;
                self.files.set(f, FileSlot { producer: None, ready: true, ok: true, key: Some(key) });
                proof {
                    let (nodes, st, fs0, fs) = (old_self.nodes_v(), old_self.state_v(), old_self.files_v(), self.files_v());
                    assert forall|x: int, k: int|
                        0 <= x < nodes.len() && 0 <= k < nodes[x].deps@.len() && !(#[trigger] st[x] is Pending) && !(st[x] is Skipped)
                            implies (#[trigger] fs[nodes[x].deps@[k].file as int]).ready by {
                        assert(fs0[nodes[x].deps@[k].file as int].ready);
                    }
                    assert forall|x: int, k: int|
                        0 <= x < nodes.len() && 0 <= k < nodes[x].deps@.len() && !(#[trigger] fs[nodes[x].deps@[k].file as int]).ready
                            implies st[x] is Pending || st[x] is Skipped by {
                        assert(!fs0[nodes[x].deps@[k].file as int].ready);
                    }
                    assert forall|x: int, k: int|
                        0 <= x < nodes.len() && 0 <= k < nodes[x].deps@.len() && !nodes[x].deps@[k].side && poisoned(
                            #[trigger] fs[nodes[x].deps@[k].file as int]) implies (#[trigger] st[x]) is Skipped || st[x] is Pending by {
                        assert(poisoned(fs0[nodes[x].deps@[k].file as int]));
                    }
                    assert forall|g: int|
                        0 <= g < fs.len() && (#[trigger] fs[g]).producer is Some implies (fs[g].ready <==> finished(st[fs[g].producer->0 as int])) by {
                        assert(fs[g] == fs0[g]);
                    }
                    assert forall|g: int| 0 <= g < fs.len() && (#[trigger] fs[g]).producer is Some implies fs[g].producer->0 < nodes.len() by {
                        assert(fs[g] == fs0[g]);
                    }
                    assert forall|x: int, k: int|
                        0 <= x < nodes.len() && 0 <= k < nodes[x].outs@.len() implies {
                            &&& (#[trigger] nodes[x].outs@[k]) < fs.len()
                            &&& fs[nodes[x].outs@[k] as int].producer == Some(x as usize)
                        } by {
                        assert(fs0[nodes[x].outs@[k] as int].producer == Some(x as usize));
                    }
                    assert(self.wf_loose());
                }
                let ghost mid = *self;
                let skipped = self.settle();
                proof {
                    assert forall|g: int| 0 <= g < old_self.files_v().len() && old_self.files_v()[g].ready implies #[trigger] self.files_v()[g] == old_self.files_v()[g] by {
                        assert(mid.files_v()[g] == old_self.files_v()[g]);
                    }
                    assert forall|j: int| 0 <= j < old_self.state_v().len() && old_self.state_v()[j] is Pending implies !(#[trigger] self.state_v()[j] is Running) && !(self.state_v()[j] is Done) by {
                        assert(mid.state_v()[j] is Pending);
                    }
                    assert forall|g: int|
                        0 <= g < old_self.ids_v().len() && old_self.ids_v()[g] == uuid && old_self.files_v()[g].producer is None
                            implies (#[trigger] self.files_v()[g]).ready by {
                        assert(old_self.ids_v()[f as int] == uuid);
                        assert(g == f as int);
                        assert(mid.files_v()[g].ready);
                    }
                }
                skipped
            },
        }
    }

    /// A new worker connects; it is idle.
    pub fn add_worker(&mut self) -> (w: usize)
        requires
            old(self).wf(),
        ensures
            final(self).wf(),
            final(self).idle_worker(w as int),
            w == old(self).workers_v().len(),
            final(self).workers_v() == old(self).workers_v().push(WorkerSlot { connected: true, job: None }),
            final(self).state_v() == old(self).state_v(),
            final(self).nodes_v() == old(self).nodes_v(),
            final(self).ids_v() == old(self).ids_v(),
            final(self).files_v() == old(self).files_v(),
    {
        let w = self.workers.len();
        self.workers.push(WorkerSlot { connected: true, job: None });
        proof {
            let ws = self.workers_v();
            assert forall|x: int| 0 <= x < self.state_v().len() && (#[trigger] self.state_v()[x]) is Running implies {
                &&& self.state_v()[x]->Running_0 < ws.len()
                &&& ws[self.state_v()[x]->Running_0 as int].job == Some(x as usize)
                &&& ws[self.state_v()[x]->Running_0 as int].connected
            } by {
                assert(ws[self.state_v()[x]->Running_0 as int] == old(self).workers_v()[self.state_v()[x]->Running_0 as int]);
            }
            assert forall|x: int| 0 <= x < ws.len() && (#[trigger] ws[x]).job is Some implies self.state_v()[ws[x].job->0 as int] == NodeState::Running(x as usize) by {
                assert(ws[x] == old(self).workers_v()[x]);
            }
            assert forall|x: int| 0 <= x < ws.len() && (#[trigger] ws[x]).job is Some implies ws[x].job->0 < self.nodes_v().len() by {
                assert(ws[x] == old(self).workers_v()[x]);
            }
        }
        w
    }

    /// Worker `w` left. Its group, if any, is ready again (and will not be
    /// announced twice); the worker gets no more work.
    #[verifier::spinoff_prover]
    pub fn worker_disconnected(&mut self, w: usize) -> (r: Option<usize>)
        requires
            old(self).wf(),
        ensures
            final(self).wf(),
            final(self).nodes_v() == old(self).nodes_v(),
            final(self).ids_v() == old(self).ids_v(),
            final(self).files_v() == old(self).files_v(),
            w < old(self).workers_v().len() ==> !final(self).workers_v()[w as int].connected
                && final(self).workers_v()[w as int].job is None,
            r is Some ==> {
                &&& w < old(self).workers_v().len()
                &&& old(self).workers_v()[w as int].job == Some(r->0)
                &&& old(self).state_v()[r->0 as int] == NodeState::Running(w)
                &&& final(self).state_v() == old(self).state_v().update(
                    r->0 as int,
                    NodeState::Ready(old(self).arrivals_v(), true),
                )
            },
            r is None ==> final(self).state_v() == old(self).state_v(),
    {
        if w >= self.workers.len() {
            return None;
        }
        let ghost old_self = *self;
        match self.workers[w].job {
            None => {
                self.workers.set(w, WorkerSlot { connected: false, job: None });
                proof {
                    let ws = self.workers_v();
                    assert forall|x: int| 0 <= x < self.state_v().len() && (#[trigger] self.state_v()[x]) is Running implies {
                        &&& self.state_v()[x]->Running_0 < ws.len()
                        &&& ws[self.state_v()[x]->Running_0 as int].job == Some(x as usize)
                        &&& ws[self.state_v()[x]->Running_0 as int].connected
                    } by {
                        let w2 = self.state_v()[x]->Running_0 as int;
                        assert(old_self.workers_v()[w2].job == Some(x as usize));
                        assert(w2 != w);
                    }
                    assert forall|x: int| 0 <= x < ws.len() && (#[trigger] ws[x]).job is Some implies self.state_v()[ws[x].job->0 as int] == NodeState::Running(x as usize) by {
                        assert(ws[x] == old_self.workers_v()[x]);
                    }
                    assert forall|x: int| 0 <= x < ws.len() && (#[trigger] ws[x]).job is Some implies ws[x].job->0 < self.nodes_v().len() by {
                        assert(ws[x] == old_self.workers_v()[x]);
                    }
                }
                None
            },
            Some(i) => {
                let a = self.arrivals;
                self.state.set(i, NodeState::Ready(a, true));
                if self.arrivals < u64::MAX {
                    self.arrivals = self.arrivals + 1;
                }
                self.workers.set(w, WorkerSlot { connected: false, job: None });
                proof {
                    let (nodes, st0, fs, ws0) = (old_self.nodes_v(), old_self.state_v(), old_self.files_v(), old_self.workers_v());
                    let (st, ws) = (self.state_v(), self.workers_v());
                    assert(st0.len() == old_self.state.len());
                    assert(ws0.len() == old_self.workers.len());
                    assert(st0[i as int] == NodeState::Running(w));
                    assert forall|x: int, k: int|
                        0 <= x < nodes.len() && 0 <= k < nodes[x].deps@.len() && !(#[trigger] st[x] is Pending) && !(st[x] is Skipped)
                            implies (#[trigger] fs[nodes[x].deps@[k].file as int]).ready by {
                        if x != i {
                            assert(st[x] == st0[x]);
                        } else {
                            assert(!(st0[x] is Pending) && !(st0[x] is Skipped));
                        }
                    }
                    assert forall|x: int, k: int|
                        0 <= x < nodes.len() && 0 <= k < nodes[x].deps@.len() && !(#[trigger] fs[nodes[x].deps@[k].file as int]).ready
                            implies st[x] is Pending || st[x] is Skipped by {
                        if x == i {
                            assert(!(st0[x] is Pending) && !(st0[x] is Skipped));
                        }
                    }
                    assert forall|f: int|
                        0 <= f < fs.len() && (#[trigger] fs[f]).producer is Some implies (fs[f].ready <==> finished(st[fs[f].producer->0 as int])) by {
                    }
                    assert forall|x: int, k: int|
                        0 <= x < nodes.len() && 0 <= k < nodes[x].deps@.len() && !nodes[x].deps@[k].side && poisoned(
                            #[trigger] fs[nodes[x].deps@[k].file as int]) implies (#[trigger] st[x]) is Skipped by {
                        if x == i {
                            assert(st0[x] is Skipped);
                        }
                    }
                    assert forall|x: int| 0 <= x < nodes.len() && (#[trigger] st[x]) is Pending implies exists|k: int|
                        0 <= k < nodes[x].deps@.len() && !(#[trigger] fs[nodes[x].deps@[k].file as int]).ready by {
                        assert(st0[x] is Pending);
                    }
                    assert forall|x: int| 0 <= x < st.len() && (#[trigger] st[x]) is Running implies {
                        &&& st[x]->Running_0 < ws.len()
                        &&& ws[st[x]->Running_0 as int].job == Some(x as usize)
                        &&& ws[st[x]->Running_0 as int].connected
                    } by {
                        assert(x != i);
                        assert(st0[x] == st[x]);
                        let w2 = st[x]->Running_0 as int;
                        assert(ws0[w2].job == Some(x as usize));
                        assert(w2 != w);
                    }
                    assert forall|w2: int| 0 <= w2 < ws.len() && (#[trigger] ws[w2]).job is Some implies st[ws[w2].job->0 as int] == NodeState::Running(w2 as usize) by {
                        assert(w2 != w);
                        assert(ws[w2] == ws0[w2]);
                        let x = ws0[w2].job->0 as int;
                        assert(st0[x] == NodeState::Running(w2 as usize));
                        assert(x != i);
                    }
                    assert forall|w2: int| 0 <= w2 < ws.len() && (#[trigger] ws[w2]).job is Some implies ws[w2].job->0 < nodes.len() by {
                        assert(ws[w2] == ws0[w2]);
                    }
                }
                Some(i)
            },
        }
    }
}

} // verus!

verus! {

/// `after` is `before` with the results of `g` recorded under the
/// fingerprint of `g` with inputs whose contents are `inputs`.
pub open spec fn recorded_in(
    before: Cache,
    after: Cache,
    g: ExecutionGroup,
    inputs: Seq<(FileUuid, Seq<u8>)>,
    results: Seq<ExecutionResult>,
    outputs: Seq<(FileUuid, FileStoreKey)>,
) -> bool {
    exists|fk: Seq<(FileUuid, FileStoreKey)>|
        key_views(fk) == inputs && {
            &&& exists|e: CacheEntry|
                entry_records(e, g, results, outputs) && #[trigger] after.bucket(key_text(g, fk)) == bucket_with(
                    before.bucket(key_text(g, fk)),
                    e,
                )
            &&& forall|k: Seq<char>| k != key_text(g, fk) ==> #[trigger] after.bucket(k) == before.bucket(k)
        }
}

/// Every result may be recorded in the cache.
pub open spec fn all_cacheable(rs: Seq<ExecutionResult>) -> bool {
    forall|i: int| 0 <= i < rs.len() ==> !((#[trigger] rs[i]).status is InternalError)
}

fn all_cacheable_exec(rs: &Vec<ExecutionResult>) -> (r: bool)
    ensures
        r == all_cacheable(rs@),
{
    let mut i: usize = 0;
    while i < rs.len()
        invariant
            0 <= i <= rs@.len(),
            forall|j: int| 0 <= j < i ==> !((#[trigger] rs@[j]).status is InternalError),
        decreases rs@.len() - i,
    {
        if !Cache::is_cacheable(&rs[i]) {
            return false;
        }
        i = i + 1;
    }
    true
}

impl Scheduler {
    /// Worker `w` completed its group with `results`, producing files with
    /// the contents `outputs`. The outcome is recorded in the cache when
    /// every result is cacheable; the group is done, its files resolved,
    /// and its consumers move on (those downstream of a failure are
    /// skipped and returned). A worker without a job is a protocol error:
    /// it is disconnected.
    #[verifier::spinoff_prover]
    pub fn worker_done(
        &mut self,
        w: usize,
        results: &Vec<ExecutionResult>,
        outputs: &Vec<(FileUuid, FileStoreKey)>,
        cache: &mut Cache,
    ) -> (r: Result<(usize, Vec<usize>), ProtocolError>)
        requires
            old(self).wf(),
            old(cache).wf(),
        ensures
            final(self).wf(),
            final(cache).wf(),
            final(self).nodes_v() == old(self).nodes_v(),
            final(self).ids_v() == old(self).ids_v(),
            r is Ok <==> (w < old(self).workers_v().len() && old(self).workers_v()[w as int].job is Some),
            r matches Ok((i, _)) ==> {
                &&& old(self).workers_v()[w as int].job == Some(i)
                &&& final(self).state_v()[i as int] == NodeState::Done(all_succeeded(results@))
                &&& final(self).workers_v()[w as int].job is None
                &&& final(self).workers_v()[w as int].connected == old(self).workers_v()[w as int].connected
            },
            r is Err && w < old(self).workers_v().len() ==> !final(self).workers_v()[w as int].connected,
            (r matches Ok((i, _)) && results@.len() == old(self).nodes_v()[i as int].group.executions@.len()
                && all_cacheable(results@)) || *final(cache) == *old(cache),
            r matches Ok((i, _)) ==> forall|f: int|
                0 <= f < old(self).files_v().len() && old(self).files_v()[f].producer == Some(i) ==> {
                    &&& (#[trigger] final(self).files_v()[f]).ready
                    &&& final(self).files_v()[f].ok == all_succeeded(results@)
                    &&& opt_key(final(self).files_v()[f].key) == lookup_key(outputs@, old(self).ids_v()[f])
                },
            r matches Ok((i, _)) ==> (results@.len() == old(self).nodes_v()[i as int].group.executions@.len()
                && all_cacheable(results@) ==> recorded_in(
                *old(cache),
                *final(cache),
                old(self).nodes_v()[i as int].group,
                input_key_views(*old(self), i as int),
                results@,
                outputs@,
            )),
    {
        if w >= self.workers.len() {
            return Err(ProtocolError::NoJob);
        }
        match self.workers[w].job {
            None => {
                let _ = self.worker_disconnected(w);
                Err(ProtocolError::NoJob)
            },
            Some(i) => {
                let ghost old_self = *self;
                assert(self.state_v()[i as int] == NodeState::Running(w));
                if results.len() == self.nodes[i].group.executions.len() && all_cacheable_exec(results) {
                    let fk = self.input_keys(i);
                    cache.insert(&self.nodes[i].group, &fk, results, outputs);
                    assert(key_views(fk@) == input_key_views(old_self, i as int));
                }
                let ok = all_success(results);
                self.finish(i, false, ok, outputs);
                let ghost mid = *self;
                let skipped = self.settle();
                proof {
                    assert forall|f: int| 0 <= f < old_self.files_v().len() && old_self.files_v()[f].producer == Some(i) implies {
                        &&& (#[trigger] self.files_v()[f]).ready
                        &&& self.files_v()[f].ok == all_succeeded(results@)
                        &&& opt_key(self.files_v()[f].key) == lookup_key(outputs@, old_self.ids_v()[f])
                    } by {
                        assert(mid.files_v()[f].ready);
                        assert(self.files_v()[f] == mid.files_v()[f]);
                    }
                    assert(mid.state_v()[i as int] == NodeState::Done(ok));
                    assert(self.state_v()[i as int] == mid.state_v()[i as int]);
                    assert(mid.workers_v()[w as int].job is None);
                }
                Ok((i, skipped))
            },
        }
    }

    /// Whether no group waits, is ready or runs.
    pub fn is_done(&self) -> (r: bool)
        ensures
            r == self.all_finished(),
    {
        let mut i: usize = 0;
        while i < self.state.len()
            invariant
                0 <= i <= self.state_v().len(),
                forall|j: int| 0 <= j < i ==> finished(#[trigger] self.state_v()[j]),
            decreases self.state_v().len() - i,
        {
            match self.state[i] {
                NodeState::Done(_) => {},
                NodeState::Skipped => {},
                _ => {
                    return false;
                },
            }
            i = i + 1;
        }
        true
    }

    /// The number of ready groups and of waiting groups.
    pub fn status_counts(&self) -> (r: (usize, usize))
        ensures
            r.0 == count_where(self.state_v(), true),
            r.1 == count_where(self.state_v(), false),
    {
        let mut ready: usize = 0;
        let mut waiting: usize = 0;
        let mut i: usize = 0;
        while i < self.state.len()
            invariant
                0 <= i <= self.state_v().len(),
                ready == count_where(self.state_v().subrange(0, i as int), true),
                waiting == count_where(self.state_v().subrange(0, i as int), false),
                ready <= i,
                waiting <= i,
            decreases self.state_v().len() - i,
        {
            assert(self.state_v().subrange(0, i + 1).drop_last() =~= self.state_v().subrange(0, i as int));
            match self.state[i] {
                NodeState::Ready(_, _) => {
                    ready = ready + 1;
                },
                NodeState::Pending => {
                    waiting = waiting + 1;
                },
                _ => {},
            }
            i = i + 1;
        }
        assert(self.state_v().subrange(0, self.state_v().len() as int) =~= self.state_v());
        (ready, waiting)
    }

    /// Where group `i` stands.
    pub fn node_state(&self, i: usize) -> (r: Option<NodeState>)
        ensures
            i < self.state_v().len() ==> r == Some(self.state_v()[i as int]),
            i >= self.state_v().len() ==> r is None,
    {
        if i < self.state.len() {
            Some(self.state[i])
        } else {
            None
        }
    }

    /// The number of groups.
    pub fn len(&self) -> (r: usize)
        requires
            self.shape(),
        ensures
            r == self.nodes_v().len(),
    {
        self.nodes.len()
    }

    /// The group of node `i`.
    pub fn group(&self, i: usize) -> (r: &ExecutionGroup)
        requires
            i < self.nodes_v().len(),
        ensures
            *r == self.nodes_v()[i as int].group,
    {
        &self.nodes[i].group
    }

    /// The workers, connected or not, with their jobs.
    pub fn workers(&self) -> (r: &Vec<WorkerSlot>)
        ensures
            r@ == self.workers_v(),
    {
        &self.workers
    }

    /// The outcome of file `uuid`: its content key if known, and whether it
    /// comes from a successful run. `None` while it is unresolved, or when
    /// the DAG does not declare it.
    pub fn file_outcome(&self, uuid: FileUuid) -> (r: Option<(Option<FileStoreKey>, bool)>)
        requires
            self.shape(),
        ensures
            r matches Some((key, ok)) ==> exists|f: int|
                0 <= f < self.ids_v().len() && self.ids_v()[f] == uuid && (#[trigger] self.files_v()[f]).ready
                    && self.files_v()[f].ok == ok && opt_key(key) == opt_key(self.files_v()[f].key),
            r is None ==> forall|f: int|
                0 <= f < self.ids_v().len() && self.ids_v()[f] == uuid ==> !(#[trigger] self.files_v()[f]).ready,
    {
        let mut f: usize = 0;
        while f < self.ids.len()
            invariant
                self.shape(),
                0 <= f <= self.ids_v().len(),
                forall|g: int| 0 <= g < f && self.ids_v()[g] == uuid ==> !(#[trigger] self.files_v()[g]).ready,
            decreases self.ids_v().len() - f,
        {
            if self.ids[f] == uuid && self.files[f].ready {
                let key = match &self.files[f].key {
                    Some(k) => Some(k.clone()),
                    None => None,
                };
                return Some((key, self.files[f].ok));
            }
            f = f + 1;
        }
        None
    }
}

/// A group runs, or has run, only once every file it consumes is
/// resolved.
pub proof fn law_inputs_resolved_before_start(s: Scheduler, i: int, k: int)
    requires
        s.wf(),
        0 <= i < s.nodes_v().len(),
        s.state_v()[i] is Running || s.state_v()[i] is Done,
        0 <= k < group_consumes(s.nodes_v()[i].group).len(),
    ensures
        exists|f: int|
            0 <= f < s.files_v().len() && s.ids_v()[f] == group_consumes(s.nodes_v()[i].group)[k].0
                && (#[trigger] s.files_v()[f]).ready,
{
    let f = s.nodes_v()[i].deps@[k].file as int;
    assert(s.ids_v()[f] == group_consumes(s.nodes_v()[i].group)[k].0);
    assert(s.files_v()[f].ready);
}

/// Downstream of a failed run, through an input that is not a side input,
/// no group runs or completes: it is skipped.
pub proof fn law_no_run_downstream_of_failure(s: Scheduler, i: int, k: int, f: int)
    requires
        s.wf(),
        0 <= i < s.nodes_v().len(),
        0 <= k < group_consumes(s.nodes_v()[i].group).len(),
        !group_consumes(s.nodes_v()[i].group)[k].1,
        0 <= f < s.files_v().len(),
        s.ids_v()[f] == group_consumes(s.nodes_v()[i].group)[k].0,
        poisoned(s.files_v()[f]),
    ensures
        s.state_v()[i] is Skipped,
{
    let d = s.nodes_v()[i].deps@[k];
    assert(s.ids_v()[d.file as int] == s.ids_v()[f]);
    assert(d.file as int == f);
    assert(poisoned(s.files_v()[s.nodes_v()[i].deps@[k].file as int]));
}

/// The files of a failed or skipped group count as failed, so whatever
/// consumes them through an input that is not a side input is skipped in
/// turn: skipping propagates down the whole DAG.
pub proof fn law_skip_propagates(s: Scheduler, i: int, k: int, f: int)
    requires
        s.wf(),
        0 <= i < s.nodes_v().len(),
        0 <= k < group_consumes(s.nodes_v()[i].group).len(),
        !group_consumes(s.nodes_v()[i].group)[k].1,
        0 <= f < s.files_v().len(),
        s.ids_v()[f] == group_consumes(s.nodes_v()[i].group)[k].0,
        s.files_v()[f].producer is Some,
        s.state_v()[s.files_v()[f].producer->0 as int] is Skipped || s.state_v()[s.files_v()[f].producer->0 as int]
            == NodeState::Done(false),
    ensures
        poisoned(s.files_v()[f]),
        s.state_v()[i] is Skipped,
{
    assert(poisoned(s.files_v()[f]));
    law_no_run_downstream_of_failure(s, i, k, f);
}

/// An empty DAG is finished as soon as it is admitted.
pub proof fn law_empty_dag_finished(s: Scheduler)
    requires
        s.wf(),
        s.nodes_v().len() == 0,
    ensures
        s.all_finished(),
{
}

/// A completed group, for instance one served from the cache, holds no
/// worker.
pub proof fn law_done_group_holds_no_worker(s: Scheduler, i: usize, w: usize)
    requires
        s.wf(),
        i < s.state_v().len(),
        s.state_v()[i as int] is Done,
        w < s.workers_v().len(),
    ensures
        s.workers_v()[w as int].job != Some(i),
{
    if s.workers_v()[w as int].job == Some(i) {
        assert(s.state_v()[i as int] == NodeState::Running(w));
    }
}

} // verus!

verus! {

/// Entry `i` is the first of `provided` for its file whose content the
/// store holds.
pub open spec fn first_held(provided: Seq<(FileUuid, FileStoreKey)>, store: FileStore, i: int) -> bool {
    &&& 0 <= i < provided.len()
    &&& store.holds(provided[i].1@)
    &&& forall|j: int| 0 <= j < i ==> !(#[trigger] provided[j].0 == provided[i].0 && store.holds(provided[j].1@))
}

proof fn lemma_progressed_chain(a: Scheduler, b: Scheduler, c: Scheduler)
    requires
        progressed(a, b),
        progressed(b, c),
    ensures
        progressed(a, c),
{
    assert forall|f: int| 0 <= f < a.files_v().len() && a.files_v()[f].ready implies #[trigger] c.files_v()[f] == a.files_v()[f] by {
        assert(b.files_v()[f] == a.files_v()[f]);
    }
    assert forall|j: int| 0 <= j < a.state_v().len() && !(a.state_v()[j] is Pending) implies #[trigger] c.state_v()[j] == a.state_v()[j] by {
        assert(b.state_v()[j] == a.state_v()[j]);
    }
    assert forall|j: int| 0 <= j < a.state_v().len() && a.state_v()[j] is Pending implies !(#[trigger] c.state_v()[j] is Running) && !(c.state_v()[j] is Done)
        && !(c.state_v()[j] matches NodeState::Ready(_, true)) by {
        if !(b.state_v()[j] is Pending) {
            assert(c.state_v()[j] == b.state_v()[j]);
        }
    }
}

/// A provided file whose content the store lacks.
pub open spec fn needs_upload(provided: Seq<(FileUuid, FileStoreKey)>, store: FileStore, u: FileUuid) -> bool {
    exists|x: int| 0 <= x < provided.len() && #[trigger] provided[x].0 == u && !store.holds(provided[x].1@)
}

impl Scheduler {
    /// Admit the files the client provides, with their contents: those the
    /// store already holds are resolved at once; the others are returned,
    /// to be asked of the client.
    pub fn admit_provided(&mut self, provided: &Vec<(FileUuid, FileStoreKey)>, store: &FileStore) -> (asks: Vec<FileUuid>)
        requires
            old(self).wf(),
        ensures
            final(self).wf(),
            progressed(*old(self), *final(self)),
            asks@.len() <= provided@.len(),
            forall|j: int| 0 <= j < asks@.len() ==> needs_upload(provided@, *store, #[trigger] asks@[j]),
            forall|i: int|
                0 <= i < provided@.len() && !store.holds(#[trigger] provided@[i].1@) ==> asks@.contains(provided@[i].0),
            forall|i: int, f: int|
                0 <= i < provided@.len() && store.holds(provided@[i].1@) && 0 <= f < old(self).ids_v().len()
                    && old(self).ids_v()[f] == provided@[i].0 && old(self).files_v()[f].producer is None ==> (
                #[trigger] final(self).files_v()[f]).ready && #[trigger] provided@[i].0 == provided@[i].0,
            forall|i: int, f: int|
                first_held(provided@, *store, i) && 0 <= f < old(self).ids_v().len() && old(self).ids_v()[f]
                    == provided@[i].0 && old(self).files_v()[f].producer is None && !old(self).files_v()[f].ready ==> (
                #[trigger] final(self).files_v()[f]).ok && opt_key(final(self).files_v()[f].key) == Some(
                    provided@[i].1@,
                ) && #[trigger] provided@[i].0 == provided@[i].0,
    {
        let ghost start = *self;
        let mut asks: Vec<FileUuid> = Vec::new();
        let mut i: usize = 0;
        while i < provided.len()
            invariant
                self.wf(),
                progressed(start, *self),
                start.files_v().len() == start.ids_v().len(),
                0 <= i <= provided@.len(),
                asks@.len() <= i,
                forall|j: int| 0 <= j < asks@.len() ==> needs_upload(provided@, *store, #[trigger] asks@[j]),
                forall|x: int| 0 <= x < i && !store.holds(#[trigger] provided@[x].1@) ==> asks@.contains(provided@[x].0),
                forall|x: int, f: int|
                    0 <= x < i && store.holds(provided@[x].1@) && 0 <= f < start.ids_v().len() && start.ids_v()[f]
                        == provided@[x].0 && start.files_v()[f].producer is None ==> (#[trigger] self.files_v()[f]).ready
                        && #[trigger] provided@[x].0 == provided@[x].0,
                forall|x: int, f: int|
                    first_held(provided@, *store, x) && x < i && 0 <= f < start.ids_v().len() && start.ids_v()[f]
                        == provided@[x].0 && start.files_v()[f].producer is None && !start.files_v()[f].ready ==> (
                    #[trigger] self.files_v()[f]).ok && opt_key(self.files_v()[f].key) == Some(provided@[x].1@)
                        && #[trigger] provided@[x].0 == provided@[x].0,
                forall|f: int|
                    0 <= f < start.ids_v().len() && start.files_v()[f].producer is None && !start.files_v()[f].ready && (
                    #[trigger] self.files_v()[f]).ready ==> exists|x: int|
                        0 <= x < i && store.holds(provided@[x].1@) && #[trigger] provided@[x].0 == start.ids_v()[f],
                forall|f: int|
                    0 <= f < start.ids_v().len() && start.files_v()[f].producer is None ==> (
                    #[trigger] self.files_v()[f]).producer is None,
            decreases provided@.len() - i,
        {
            let (u, k) = (provided[i].0, &provided[i].1);
            if store.contains(k) {
                let ghost before = *self;
                let _ = self.provide_file(u, k.clone());
                proof {
                    lemma_progressed_chain(start, before, *self);
                    assert forall|f: int|
                        0 <= f < start.ids_v().len() && start.files_v()[f].producer is None && !start.files_v()[f].ready && (
                        #[trigger] self.files_v()[f]).ready implies exists|x: int|
                            0 <= x < i + 1 && store.holds(provided@[x].1@) && #[trigger] provided@[x].0 == start.ids_v()[f] by {
                        if before.ids_v()[f] == u {
                            assert(provided@[i as int].0 == start.ids_v()[f]);
                        } else {
                            assert(self.files_v()[f] == before.files_v()[f]);
                        }
                    }
                    assert forall|x: int, f: int|
                        first_held(provided@, *store, x) && x < i + 1 && 0 <= f < start.ids_v().len() && start.ids_v()[f]
                            == provided@[x].0 && start.files_v()[f].producer is None && !start.files_v()[f].ready implies (
                        #[trigger] self.files_v()[f]).ok && opt_key(self.files_v()[f].key) == Some(provided@[x].1@)
                            && #[trigger] provided@[x].0 == provided@[x].0 by {
                        if x == i {
                            if before.files_v()[f].ready {
                                let y = choose|y: int|
                                    0 <= y < i && store.holds(provided@[y].1@) && #[trigger] provided@[y].0 == start.ids_v()[f];
                                assert(!(provided@[y].0 == provided@[x].0 && store.holds(provided@[y].1@)));
                            }
                        } else {
                            assert(before.files_v()[f].ready);
                        }
                    }
                    assert forall|x: int, f: int|
                        0 <= x < i + 1 && store.holds(provided@[x].1@) && 0 <= f < start.ids_v().len() && start.ids_v()[f]
                            == provided@[x].0 && start.files_v()[f].producer is None implies (#[trigger] self.files_v()[f]).ready
                            && #[trigger] provided@[x].0 == provided@[x].0 by {
                        if x < i {
                            assert(before.files_v()[f].ready);
                        }
                    }
                }
            } else {
                let ghost before = asks@;
                asks.push(u);
                proof {
                    assert(asks@[before.len() as int] == u);
                    assert forall|j: int| 0 <= j < asks@.len() implies needs_upload(provided@, *store, #[trigger] asks@[j]) by {
                        if j < before.len() {
                            assert(asks@[j] == before[j]);
                        } else {
                            assert(provided@[i as int].0 == asks@[j]);
                        }
                    }
                    assert forall|x: int| 0 <= x < i && !store.holds(#[trigger] provided@[x].1@) implies asks@.contains(provided@[x].0) by {
                        let y = choose|y: int| 0 <= y < before.len() && before[y] == provided@[x].0;
                        assert(asks@[y] == before[y]);
                    }
                }
            }
            i = i + 1;
        }
        asks
    }
}

} // verus!

verus! {

impl Scheduler {
    /// On Stop, or when the client goes away: the workers to send KillJob
    /// to, with the group each is running, in worker order.
    pub fn jobs_to_kill(&self) -> (r: Vec<(usize, usize)>)
        ensures
            forall|j: int| 0 <= j < r@.len() ==> (#[trigger] r@[j]).0 < self.workers_v().len()
                && self.workers_v()[r@[j].0 as int].job == Some(r@[j].1),
            forall|w: int| 0 <= w < self.workers_v().len() && (#[trigger] self.workers_v()[w]).job is Some ==> exists|j: int|
                0 <= j < r@.len() && (#[trigger] r@[j]).0 == w,
            forall|a: int, b: int| 0 <= a < b < r@.len() ==> r@[a].0 < r@[b].0,
    {
        let mut r: Vec<(usize, usize)> = Vec::new();
        let mut w: usize = 0;
        while w < self.workers.len()
            invariant
                0 <= w <= self.workers_v().len(),
                forall|j: int| 0 <= j < r@.len() ==> (#[trigger] r@[j]).0 < w
                    && self.workers_v()[r@[j].0 as int].job == Some(r@[j].1),
                forall|x: int| 0 <= x < w && (#[trigger] self.workers_v()[x]).job is Some ==> exists|j: int|
                    0 <= j < r@.len() && (#[trigger] r@[j]).0 == x,
                forall|a: int, b: int| 0 <= a < b < r@.len() ==> r@[a].0 < r@[b].0,
            decreases self.workers_v().len() - w,
        {
            if let Some(i) = self.workers[w].job {
                let ghost before = r@;
                r.push((w, i));
                proof {
                    assert(r@[before.len() as int].0 == w);
                    assert forall|x: int| 0 <= x < w + 1 && (#[trigger] self.workers_v()[x]).job is Some implies exists|j: int|
                        0 <= j < r@.len() && (#[trigger] r@[j]).0 == x by {
                        if x < w {
                            let j = choose|j: int| 0 <= j < before.len() && (#[trigger] before[j]).0 == x;
                            assert(r@[j] == before[j]);
                        }
                    }
                }
            }
            w = w + 1;
        }
        r
    }
}

} // verus!
