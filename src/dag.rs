//! The data model of executions, their limits and the categorisation of
//! their outcome.
use vstd::prelude::*;

verus! {

/// Logical identity of a file flowing through the DAG.
pub type FileUuid = u64;

/// Identity of an execution of the DAG.
pub type ExecutionUuid = u64;

/// The resource limits of an execution; `None` means unlimited. Times are
/// in milliseconds, sizes in KiB.
#[derive(Clone, Copy, Debug, PartialEq, Eq, Structural)]
pub struct ExecutionLimits {
    pub cpu_time: Option<u64>,
    pub sys_time: Option<u64>,
    pub wall_time: Option<u64>,
    pub memory: Option<u64>,
    pub nproc: Option<u64>,
    pub fsize: Option<u64>,
    pub stack: Option<u64>,
}

/// The resources used by a process. Times are in milliseconds, memory in KiB.
#[derive(Clone, Copy, Debug, PartialEq, Eq, Default)]
pub struct ExecutionResourcesUsage {
    pub cpu_time: u64,
    pub sys_time: u64,
    pub wall_time: u64,
    pub memory: u64,
}

/// How an execution ended.
#[derive(Clone, Debug, PartialEq, Eq)]
pub enum ExecutionStatus {
    Success,
    ReturnCode(u32),
    Signal(u32, String),
    TimeLimitExceeded,
    SysTimeLimitExceeded,
    WallTimeLimitExceeded,
    MemoryLimitExceeded,
    InternalError(String),
}

/// The outcome of an execution.
#[derive(Clone, Debug, PartialEq, Eq)]
pub struct ExecutionResult {
    pub status: ExecutionStatus,
    pub was_killed: bool,
    pub was_cached: bool,
    pub resources: ExecutionResourcesUsage,
    pub stdout: Option<Vec<u8>>,
    pub stderr: Option<Vec<u8>>,
}

/// One limit dimension: `a` is at most as restrictive as `b` (a missing
/// limit is infinite).
pub open spec fn dim_looser(a: Option<u64>, b: Option<u64>) -> bool {
    match (a, b) {
        (None, _) => true,
        (Some(_), None) => false,
        (Some(x), Some(y)) => x >= y,
    }
}

/// `l1` is less restrictive than (or as restrictive as) `l2` in every
/// dimension.
pub open spec fn limits_looser(l1: ExecutionLimits, l2: ExecutionLimits) -> bool {
    &&& dim_looser(l1.cpu_time, l2.cpu_time)
    &&& dim_looser(l1.sys_time, l2.sys_time)
    &&& dim_looser(l1.wall_time, l2.wall_time)
    &&& dim_looser(l1.memory, l2.memory)
    &&& dim_looser(l1.nproc, l2.nproc)
    &&& dim_looser(l1.fsize, l2.fsize)
    &&& dim_looser(l1.stack, l2.stack)
}

/// A usage exceeds a limit when the limit is set and the usage is above it.
pub open spec fn exceeds(limit: Option<u64>, used: u64) -> bool {
    match limit {
        Some(l) => used > l,
        None => false,
    }
}

/// The status of a process that exited with `exit_status`, possibly killed
/// by `signal`, having used `res` under `limits`. Limits are checked first,
/// since exceeding them makes the sandbox kill the process.
pub open spec fn status_of(
    limits: ExecutionLimits,
    exit_status: u32,
    signal: Option<(u32, String)>,
    res: ExecutionResourcesUsage,
) -> ExecutionStatus {
    if exceeds(limits.cpu_time, res.cpu_time) {
        ExecutionStatus::TimeLimitExceeded
    } else if exceeds(limits.sys_time, res.sys_time) {
        ExecutionStatus::SysTimeLimitExceeded
    } else if exceeds(limits.wall_time, res.wall_time) {
        ExecutionStatus::WallTimeLimitExceeded
    } else if exceeds(limits.memory, res.memory) {
        ExecutionStatus::MemoryLimitExceeded
    } else if exit_status != 0 {
        ExecutionStatus::ReturnCode(exit_status)
    } else {
        match signal {
            Some((s, name)) => ExecutionStatus::Signal(s, name),
            None => ExecutionStatus::Success,
        }
    }
}

fn dim_is_looser(a: Option<u64>, b: Option<u64>) -> (r: bool)
    ensures
        r == dim_looser(a, b),
{
    match (a, b) {
        (None, _) => true,
        (Some(_), None) => false,
        (Some(x), Some(y)) => x >= y,
    }
}

fn exceeds_limit(limit: Option<u64>, used: u64) -> (r: bool)
    ensures
        r == exceeds(limit, used),
{
    match limit {
        Some(l) => used > l,
        None => false,
    }
}

impl ExecutionLimits {
    /// Whether `self` is less restrictive than, or as restrictive as, `other`.
    pub fn is_looser_than(&self, other: &ExecutionLimits) -> (r: bool)
        ensures
            r == limits_looser(*self, *other),
    {
        dim_is_looser(self.cpu_time, other.cpu_time) && dim_is_looser(self.sys_time, other.sys_time)
            && dim_is_looser(self.wall_time, other.wall_time) && dim_is_looser(
            self.memory,
            other.memory,
        ) && dim_is_looser(self.nproc, other.nproc) && dim_is_looser(self.fsize, other.fsize)
            && dim_is_looser(self.stack, other.stack)
    }

    /// Categorise the end of a process under these limits.
    pub fn status(
        &self,
        exit_status: u32,
        signal: Option<(u32, String)>,
        resources: &ExecutionResourcesUsage,
    ) -> (r: ExecutionStatus)
        ensures
            r == status_of(*self, exit_status, signal, *resources),
    {
        if exceeds_limit(self.cpu_time, resources.cpu_time) {
            ExecutionStatus::TimeLimitExceeded
        } else if exceeds_limit(self.sys_time, resources.sys_time) {
            ExecutionStatus::SysTimeLimitExceeded
        } else if exceeds_limit(self.wall_time, resources.wall_time) {
            ExecutionStatus::WallTimeLimitExceeded
        } else if exceeds_limit(self.memory, resources.memory) {
            ExecutionStatus::MemoryLimitExceeded
        } else if exit_status != 0 {
            ExecutionStatus::ReturnCode(exit_status)
        } else {
            match signal {
                Some((s, name)) => ExecutionStatus::Signal(s, name),
                None => ExecutionStatus::Success,
            }
        }
    }
}

impl ExecutionStatus {
    /// Whether the status is `Success`.
    pub fn is_success(&self) -> (r: bool)
        ensures
            r == (*self is Success),
    {
        match self {
            ExecutionStatus::Success => true,
            _ => false,
        }
    }
}

/// The relation "less restrictive or equal" is reflexive.
pub proof fn lemma_limits_looser_reflexive(l: ExecutionLimits)
    ensures
        limits_looser(l, l),
{
}

/// The relation "less restrictive or equal" is transitive.
pub proof fn lemma_limits_looser_transitive(a: ExecutionLimits, b: ExecutionLimits, c: ExecutionLimits)
    requires
        limits_looser(a, b),
        limits_looser(b, c),
    ensures
        limits_looser(a, c),
{
}

} // verus!

verus! {

/// A file that an execution reads, bound to a path inside its sandbox.
#[derive(Clone, Debug)]
pub struct InputBinding {
    pub path: String,
    pub file: FileUuid,
    pub executable: bool,
    /// A side input only orders the executions: its failure does not make
    /// the consumer skip.
    pub side: bool,
}

/// A file that an execution writes at a path inside its sandbox.
#[derive(Clone, Debug)]
pub struct OutputBinding {
    pub path: String,
    pub file: FileUuid,
}

/// A tag grouping executions of the same kind.
#[derive(Clone, Debug)]
pub struct ExecutionTag {
    pub name: String,
}

/// A single sandboxed process run.
#[derive(Clone, Debug)]
pub struct Execution {
    pub uuid: ExecutionUuid,
    pub description: String,
    pub command: String,
    pub args: Vec<String>,
    pub env: Vec<(String, String)>,
    pub stdin: Option<FileUuid>,
    pub inputs: Vec<InputBinding>,
    pub outputs: Vec<OutputBinding>,
    pub stdout: Option<FileUuid>,
    pub stderr: Option<FileUuid>,
    pub limits: ExecutionLimits,
    pub priority: i64,
    pub tag: Option<ExecutionTag>,
}

/// Executions started together, sharing FIFOs; the unit of scheduling and
/// caching.
#[derive(Clone, Debug)]
pub struct ExecutionGroup {
    pub uuid: ExecutionUuid,
    pub description: String,
    pub executions: Vec<Execution>,
    /// Sandbox paths of the FIFOs shared by the executions.
    pub fifo: Vec<String>,
}

impl Execution {
    /// A new execution of `command` with no arguments, inputs or outputs.
    pub fn new(uuid: ExecutionUuid, description: String, command: String) -> (r: Execution)
        ensures
            r.uuid == uuid,
            r.description == description,
            r.command == command,
            r.args@.len() == 0,
            r.env@.len() == 0,
            r.inputs@.len() == 0,
            r.outputs@.len() == 0,
            r.stdin is None,
            r.stdout is None,
            r.stderr is None,
            r.limits == ExecutionLimits::default_spec(),
            r.priority == 0,
            r.tag is None,
    {
        Execution {
            uuid,
            description,
            command,
            args: Vec::new(),
            env: Vec::new(),
            stdin: None,
            inputs: Vec::new(),
            outputs: Vec::new(),
            stdout: None,
            stderr: None,
            limits: ExecutionLimits::unlimited(),
            priority: 0,
            tag: None,
        }
    }

    /// Append an argument.
    pub fn arg(&mut self, a: String)
        ensures
            final(self).args@ == old(self).args@.push(a),
            final(self).inputs == old(self).inputs,
            final(self).outputs == old(self).outputs,
            final(self).uuid == old(self).uuid,
    {
        self.args.push(a);
    }

    /// Bind `file` at `path` inside the sandbox.
    pub fn input(&mut self, file: FileUuid, path: String, executable: bool, side: bool)
        ensures
            final(self).inputs@ == old(self).inputs@.push(
                InputBinding { path, file, executable, side },
            ),
            final(self).outputs == old(self).outputs,
            final(self).stdin == old(self).stdin,
            final(self).uuid == old(self).uuid,
    {
        self.inputs.push(InputBinding { path, file, executable, side });
    }

    /// Declare that the process writes `file` at `path` inside the sandbox.
    pub fn output(&mut self, file: FileUuid, path: String)
        ensures
            final(self).outputs@ == old(self).outputs@.push(OutputBinding { path, file }),
            final(self).inputs == old(self).inputs,
            final(self).stdin == old(self).stdin,
            final(self).uuid == old(self).uuid,
    {
        self.outputs.push(OutputBinding { path, file });
    }
}

impl ExecutionLimits {
    pub open spec fn default_spec() -> ExecutionLimits {
        ExecutionLimits {
            cpu_time: None,
            sys_time: None,
            wall_time: None,
            memory: None,
            nproc: None,
            fsize: None,
            stack: None,
        }
    }

    /// No limit in any dimension.
    pub fn unlimited() -> (r: ExecutionLimits)
        ensures
            r == ExecutionLimits::default_spec(),
    {
        ExecutionLimits {
            cpu_time: None,
            sys_time: None,
            wall_time: None,
            memory: None,
            nproc: None,
            fsize: None,
            stack: None,
        }
    }
}

} // verus!

verus! {

/// The bytes of an optional capture.
pub open spec fn opt_bytes(o: Option<Vec<u8>>) -> Option<Seq<u8>> {
    match o {
        Some(v) => Some(v@),
        None => None,
    }
}

/// `b` is a copy of `a`.
pub open spec fn same_result(a: ExecutionResult, b: ExecutionResult) -> bool {
    &&& b.status == a.status
    &&& b.was_killed == a.was_killed
    &&& b.was_cached == a.was_cached
    &&& b.resources == a.resources
    &&& opt_bytes(b.stdout) == opt_bytes(a.stdout)
    &&& opt_bytes(b.stderr) == opt_bytes(a.stderr)
}

/// A copy of a byte vector.
pub fn copy_bytes(v: &Vec<u8>) -> (r: Vec<u8>)
    ensures
        r@ == v@,
{
    let mut r: Vec<u8> = Vec::new();
    let mut i: usize = 0;
    while i < v.len()
        invariant
            0 <= i <= v@.len(),
            r@ == v@.subrange(0, i as int),
        decreases v@.len() - i,
    {
        r.push(v[i]);
        i = i + 1;
        assert(r@ =~= v@.subrange(0, i as int));
    }
    assert(r@ =~= v@);
    r
}

pub fn copy_opt_bytes(o: &Option<Vec<u8>>) -> (r: Option<Vec<u8>>)
    ensures
        opt_bytes(r) == opt_bytes(*o),
{
    match o {
        Some(v) => Some(copy_bytes(v)),
        None => None,
    }
}

impl ExecutionStatus {
    /// A copy of the status.
    pub fn copy(&self) -> (r: ExecutionStatus)
        ensures
            r == *self,
    {
        match self {
            ExecutionStatus::Success => ExecutionStatus::Success,
            ExecutionStatus::ReturnCode(c) => ExecutionStatus::ReturnCode(*c),
            ExecutionStatus::Signal(s, n) => ExecutionStatus::Signal(*s, n.clone()),
            ExecutionStatus::TimeLimitExceeded => ExecutionStatus::TimeLimitExceeded,
            ExecutionStatus::SysTimeLimitExceeded => ExecutionStatus::SysTimeLimitExceeded,
            ExecutionStatus::WallTimeLimitExceeded => ExecutionStatus::WallTimeLimitExceeded,
            ExecutionStatus::MemoryLimitExceeded => ExecutionStatus::MemoryLimitExceeded,
            ExecutionStatus::InternalError(m) => ExecutionStatus::InternalError(m.clone()),
        }
    }
}

impl ExecutionResult {
    /// A copy of the result.
    pub fn copy(&self) -> (r: ExecutionResult)
        ensures
            same_result(*self, r),
    {
        ExecutionResult {
            status: self.status.copy(),
            was_killed: self.was_killed,
            was_cached: self.was_cached,
            resources: self.resources,
            stdout: copy_opt_bytes(&self.stdout),
            stderr: copy_opt_bytes(&self.stderr),
        }
    }
}

} // verus!

verus! {

/// Write a file to a path of the client once it is available.
#[derive(Clone, Debug)]
pub struct WriteToCallback {
    pub dest: String,
    pub executable: bool,
    /// Write the file even when the run producing it failed.
    pub allow_failure: bool,
}

/// What the client does with a file once it is available.
#[derive(Clone, Debug)]
pub struct FileCallbacks {
    pub write_to: Option<WriteToCallback>,
    /// Keep at most this many leading bytes of the content.
    pub get_content: Option<usize>,
}

/// A DAG as the client builds it: the groups and the callbacks on files.
#[derive(Clone, Debug)]
pub struct ExecutionDag {
    pub groups: Vec<ExecutionGroup>,
    pub file_callbacks: Vec<(FileUuid, FileCallbacks)>,
}

/// A DAG to evaluate and the root of the task it evaluates.
#[derive(Clone, Debug)]
pub struct EvaluationData {
    pub task_root: String,
    pub dag: ExecutionDag,
}

impl ExecutionDag {
    /// Write `file` to `dest` when available, even if its run failed.
    pub fn write_file_to_allow_fail(&mut self, file: FileUuid, dest: String, executable: bool)
        ensures
            final(self).groups == old(self).groups,
            exists|c: int|
                0 <= c < final(self).file_callbacks@.len() && (#[trigger] final(self).file_callbacks@[c]).0 == file
                    && final(self).file_callbacks@[c].1.write_to == Some(
                    WriteToCallback { dest, executable, allow_failure: true },
                ),
            final(self).file_callbacks@.len() >= old(self).file_callbacks@.len(),
            forall|c: int|
                0 <= c < old(self).file_callbacks@.len() && old(self).file_callbacks@[c].0 != file
                    ==> #[trigger] final(self).file_callbacks@[c] == old(self).file_callbacks@[c],
    {
        let ghost want = WriteToCallback { dest, executable, allow_failure: true };
        let cb = WriteToCallback { dest, executable, allow_failure: true };
        let mut c: usize = 0;
        let mut found = false;
        while !found && c < self.file_callbacks.len()
            invariant
                0 <= c <= self.file_callbacks@.len(),
                found ==> c < self.file_callbacks@.len() && self.file_callbacks@[c as int].0 == file,
            decreases self.file_callbacks@.len() - c + (if found { 0int } else { 1int }),
        {
            if self.file_callbacks[c].0 == file {
                found = true;
            } else {
                c = c + 1;
            }
        }
        if found {
            let get_content = self.file_callbacks[c].1.get_content;
            self.file_callbacks.set(c, (file, FileCallbacks { write_to: Some(cb), get_content }));
            assert(self.file_callbacks@[c as int].1.write_to == Some(want));
        } else {
            self.file_callbacks.push((file, FileCallbacks { write_to: Some(cb), get_content: None }));
            assert(self.file_callbacks@[c as int].0 == file);
        }
    }
}

} // verus!
