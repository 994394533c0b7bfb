//! Rewriting an evaluation DAG so that a batch of freshly generated
//! testcases is evaluated, with inputs and outputs written to a working
//! directory.
use vstd::prelude::*;
use crate::dag::{EvaluationData, Execution, ExecutionGroup, FileCallbacks, FileUuid, WriteToCallback};
use crate::text::{
    decimal, decimal_string, last_occurrence, parse_u32, parse_u32_exec, rfind, same_text,
};

verus! {

/// The id of a testcase.
pub type TestcaseId = u32;

/// A generated testcase of a batch and where its files go.
#[derive(Clone, Debug, Default)]
pub struct TestcaseData {
    pub generator_args: Vec<String>,
    pub seed: u32,
    pub input_path: String,
    pub output_path: String,
    pub correct_output_path: String,
}

/// The testcases of a batch, by id.
#[derive(Clone, Debug, Default)]
pub struct Batch {
    pub testcases: Vec<(TestcaseId, TestcaseData)>,
}

/// Why a DAG could not be patched.
#[derive(Clone, Debug, PartialEq, Eq)]
pub enum PatchError {
    /// A file is written outside the task directory.
    OutsideTask(String),
    /// The testcase of a file or execution cannot be told.
    NoTestcaseId(String),
    /// The testcase is not part of the batch.
    NotInBatch(TestcaseId),
    /// The number of evaluation and checking executions is not twice the
    /// batch size.
    WrongCount { expected: usize, found: usize },
}

/// The arguments of a generator for a testcase: each `{}` becomes the seed.
pub open spec fn arg_for_seed(a: Seq<char>, seed: u32) -> Seq<char> {
    if a == seq!['{', '}'] {
        decimal(seed as nat)
    } else {
        a
    }
}

/// The generator arguments of the testcase with the given seed.
pub fn generator_args_for_testcase(args: &Vec<String>, seed: u32) -> (r: Vec<String>)
    ensures
        r@.len() == args@.len(),
        forall|i: int| 0 <= i < args@.len() ==> (#[trigger] r@[i])@ == arg_for_seed(args@[i]@, seed),
{
    let mut r: Vec<String> = Vec::new();
    let mut i: usize = 0;
    proof {
        reveal_strlit("{}");
    }
    while i < args.len()
        invariant
            0 <= i <= args@.len(),
            r@.len() == i,
            "{}"@ == seq!['{', '}'],
            forall|j: int| 0 <= j < i ==> (#[trigger] r@[j])@ == arg_for_seed(args@[j]@, seed),
        decreases args@.len() - i,
    {
        if same_text(args[i].as_str(), "{}") {
            r.push(decimal_string(seed as u64));
        } else {
            r.push(args[i].clone());
        }
        i = i + 1;
    }
    r
}

/// `dest` relative to the directory `root`, if it lies inside it.
pub open spec fn strip_root(dest: Seq<char>, root: Seq<char>) -> Option<Seq<char>> {
    if dest == root {
        Some(Seq::empty())
    } else if dest.len() > root.len() && dest.subrange(0, root.len() as int) == root && dest[root.len() as int]
        == '/' {
        Some(dest.subrange(root.len() as int + 1, dest.len() as int))
    } else {
        None
    }
}

/// The relative path `rel` starts with the component `name`.
pub open spec fn under_dir(rel: Seq<char>, name: Seq<char>) -> bool {
    rel == name || (rel.len() > name.len() && rel.subrange(0, name.len() as int) == name && rel[name.len() as int]
        == '/')
}

/// The last component of a path.
pub open spec fn file_name_of(p: Seq<char>) -> Seq<char> {
    match last_occurrence(p, seq!['/']) {
        Some(i) => p.subrange(i + 1, p.len() as int),
        None => p,
    }
}

/// The testcase of a file named like `input12.txt` or `output12.txt`: the
/// number between the last `put` and the last `.`.
pub open spec fn testcase_of_file(name: Seq<char>) -> Option<TestcaseId> {
    let put = last_occurrence(name, seq!['p', 'u', 't']);
    let dot = last_occurrence(name, seq!['.']);
    if put is Some && dot is Some && put->0 + 3 <= dot->0 {
        parse_u32(name.subrange(put->0 + 3, dot->0))
    } else {
        None
    }
}

/// The testcase of an execution described like `... testcase 12, ...`.
pub open spec fn testcase_of_description(d: Seq<char>) -> Option<TestcaseId> {
    let start = last_occurrence(d, "testcase "@);
    let end = last_occurrence(d, seq![',', ' ']);
    if start is Some && end is Some && start->0 + 9 <= end->0 {
        parse_u32(d.subrange(start->0 + 9, end->0))
    } else {
        None
    }
}

/// Whether `p` is under the `input` or the `output` directory.
pub open spec fn is_io_path(rel: Seq<char>) -> bool {
    under_dir(rel, "input"@) || under_dir(rel, "output"@)
}

/// The testcase bound to `id` in the batch, at its first position.
pub open spec fn batch_pos(b: Seq<(TestcaseId, TestcaseData)>, id: TestcaseId, i: int) -> bool {
    &&& 0 <= i < b.len()
    &&& b[i].0 == id
    &&& forall|j: int| 0 <= j < i ==> #[trigger] b[j].0 != id
}

pub open spec fn batch_lookup(b: Seq<(TestcaseId, TestcaseData)>, id: TestcaseId) -> Option<TestcaseData> {
    if exists|i: int| batch_pos(b, id, i) {
        Some(b[choose|i: int| batch_pos(b, id, i)].1)
    } else {
        None
    }
}

impl Batch {
    /// The testcase with the given id.
    pub fn get(&self, id: TestcaseId) -> (r: Option<&TestcaseData>)
        ensures
            match batch_lookup(self.testcases@, id) {
                Some(t) => r == Some(&t),
                None => r is None,
            },
    {
        let mut i: usize = 0;
        while i < self.testcases.len()
            invariant
                0 <= i <= self.testcases@.len(),
                forall|j: int| 0 <= j < i ==> #[trigger] self.testcases@[j].0 != id,
            decreases self.testcases@.len() - i,
        {
            if self.testcases[i].0 == id {
                proof {
                    assert(batch_pos(self.testcases@, id, i as int));
                    assert forall|q: int| batch_pos(self.testcases@, id, q) implies q == i by {
                        if q < i {
                            assert(self.testcases@[q].0 != id);
                        } else if q > i {
                            assert(self.testcases@[i as int].0 != id);
                        }
                    }
                }
                return Some(&self.testcases[i].1);
            }
            i = i + 1;
        }
        None
    }
}

fn strip_root_exec<'a>(dest: &'a str, root: &str) -> (r: Option<&'a str>)
    ensures
        match strip_root(dest@, root@) {
            Some(p) => r is Some && r->0@ == p,
            None => r is None,
        },
{
    let n = dest.unicode_len();
    let m = root.unicode_len();
    if m > n {
        return None;
    }
    let head = dest.substring_char(0, m);
    if !same_text(head, root) {
        proof {
            if dest@ == root@ {
                assert(dest@.subrange(0, m as int) =~= dest@);
            }
        }
        return None;
    }
    if n == m {
        proof {
            assert(dest@ =~= root@);
        }
        return Some(dest.substring_char(n, n));
    }
    if dest.get_char(m) != '/' {
        return None;
    }
    Some(dest.substring_char(m + 1, n))
}

fn under_dir_exec(rel: &str, name: &str) -> (r: bool)
    ensures
        r == under_dir(rel@, name@),
{
    let n = rel.unicode_len();
    let m = name.unicode_len();
    if m > n {
        return false;
    }
    let head = rel.substring_char(0, m);
    if !same_text(head, name) {
        proof {
            if rel@ == name@ {
                assert(rel@.subrange(0, m as int) =~= rel@);
            }
        }
        return false;
    }
    if n == m {
        assert(rel@ =~= name@);
        return true;
    }
    rel.get_char(m) == '/'
}

fn file_name_exec(p: &str) -> (r: &str)
    ensures
        r@ == file_name_of(p@),
{
    proof {
        reveal_strlit("/");
    }
    assert("/"@ == seq!['/']);
    match rfind(p, "/") {
        Some(i) => {
            let n = p.unicode_len();
            p.substring_char(i + 1, n)
        },
        None => p,
    }
}

/// The testcase of a file name, as `testcase_of_file` says.
pub fn testcase_of_file_exec(name: &str) -> (r: Option<TestcaseId>)
    ensures
        r == testcase_of_file(name@),
{
    proof {
        reveal_strlit("put");
        reveal_strlit(".");
    }
    assert("put"@ == seq!['p', 'u', 't']);
    let _n = name.unicode_len();
    assert("."@ == seq!['.']);
    let put = rfind(name, "put");
    let dot = rfind(name, ".");
    if let Some(p) = put {
        if let Some(d) = dot {
            if p + 3 <= d {
                return parse_u32_exec(name.substring_char(p + 3, d));
            }
        }
    }
    None
}

/// The testcase of an execution description, as `testcase_of_description`
/// says.
pub fn testcase_of_description_exec(d: &str) -> (r: Option<TestcaseId>)
    ensures
        r == testcase_of_description(d@),
{
    proof {
        reveal_strlit("testcase ");
        reveal_strlit(", ");
    }
    assert(", "@ == seq![',', ' ']);
    let _n = d.unicode_len();
    assert("testcase "@.len() == 9);
    let start = rfind(d, "testcase ");
    let end = rfind(d, ", ");
    if let Some(s) = start {
        if let Some(e) = end {
            if s + 9 <= e {
                return parse_u32_exec(d.substring_char(s + 9, e));
            }
        }
    }
    None
}

} // verus!

verus! {

/// Where a callback writing `dest` must write instead: `None` when the DAG
/// cannot be patched, `Some(None)` to leave it, `Some(Some(p))` to write to
/// `p`.
pub open spec fn redirect_of(root: Seq<char>, b: Seq<(TestcaseId, TestcaseData)>, dest: Seq<char>) -> Option<
    Option<Seq<char>>,
> {
    match strip_root(dest, root) {
        None => None,
        Some(rel) => if !is_io_path(rel) {
            Some(None)
        } else {
            match testcase_of_file(file_name_of(rel)) {
                None => None,
                Some(id) => match batch_lookup(b, id) {
                    None => None,
                    Some(t) => Some(
                        Some(
                            if under_dir(rel, "input"@) {
                                t.input_path@
                            } else {
                                t.correct_output_path@
                            },
                        ),
                    ),
                },
            }
        },
    }
}

/// `after` is the callback `before` once redirected as `redirect_of` says.
pub open spec fn redirected(root: Seq<char>, b: Seq<(TestcaseId, TestcaseData)>, before: FileCallbacks, after: FileCallbacks) -> bool {
    &&& after.get_content == before.get_content
    &&& match before.write_to {
        None => after.write_to is None,
        Some(w) => match redirect_of(root, b, w.dest@) {
            Some(None) => after.write_to == Some(w),
            Some(Some(p)) => after.write_to is Some && after.write_to->0.dest@ == p
                && after.write_to->0.executable == w.executable && after.write_to->0.allow_failure,
            None => false,
        },
    }
}

/// A callback can be redirected.
pub open spec fn callback_ok(root: Seq<char>, b: Seq<(TestcaseId, TestcaseData)>, cb: FileCallbacks) -> bool {
    cb.write_to is None || redirect_of(root, b, cb.write_to->0.dest@) is Some
}

/// The testcase of an evaluation that captures stdout is known and in the
/// batch.
pub open spec fn exec_ok(e: Execution, b: Seq<(TestcaseId, TestcaseData)>) -> bool {
    (tagged(e, "evaluation"@) && e.stdout is Some) ==> (testcase_of_description(e.description@) is Some
        && batch_lookup(b, testcase_of_description(e.description@)->0) is Some)
}

/// The DAG can be patched for the batch.
pub open spec fn patchable(eval: EvaluationData, batch_size: usize, b: Seq<(TestcaseId, TestcaseData)>) -> bool {
    &&& forall|c: int| 0 <= c < eval.dag.file_callbacks@.len() ==> callback_ok(eval.task_root@, b, (#[trigger] eval.dag.file_callbacks@[c]).1)
    &&& forall|g: int, k: int|
        0 <= g < eval.dag.groups@.len() && 0 <= k < eval.dag.groups@[g].executions@.len() ==> exec_ok(
            #[trigger] eval.dag.groups@[g].executions@[k],
            b,
        )
    &&& count_patched(all_execs(eval.dag.groups@)) == 2 * batch_size
}

/// The execution is tagged `name`.
pub open spec fn tagged(e: Execution, name: Seq<char>) -> bool {
    e.tag is Some && e.tag->0.name@ == name
}

pub open spec fn is_patched_kind(e: Execution) -> bool {
    tagged(e, "evaluation"@) || tagged(e, "checking"@)
}

/// The execution after patching: evaluation and checking run right after
/// the generation.
pub open spec fn patched_exec(e: Execution, generation_priority: i64) -> Execution {
    if is_patched_kind(e) {
        Execution { priority: (generation_priority + 1) as i64, ..e }
    } else {
        e
    }
}

/// The number of evaluation and checking executions.
pub open spec fn count_patched(es: Seq<Execution>) -> nat
    decreases es.len(),
{
    if es.len() == 0 {
        0
    } else {
        count_patched(es.drop_last()) + (if is_patched_kind(es.last()) { 1nat } else { 0nat })
    }
}

pub open spec fn group_count_enc() -> spec_fn(ExecutionGroup) -> Seq<Execution> {
    |g: ExecutionGroup| g.executions@
}

/// All the executions of the groups, in order.
pub open spec fn all_execs(gs: Seq<ExecutionGroup>) -> Seq<Execution> {
    crate::text::join_map(gs, group_count_enc())
}

/// The stdout of an evaluation execution of the DAG.
pub open spec fn eval_stdout(gs: Seq<ExecutionGroup>, u: FileUuid) -> bool {
    exists|k: int|
        0 <= k < all_execs(gs).len() && tagged(#[trigger] all_execs(gs)[k], "evaluation"@) && all_execs(gs)[k].stdout
            == Some(u)
}

fn is_tagged(e: &Execution, name: &str) -> (r: bool)
    ensures
        r == tagged(*e, name@),
{
    match &e.tag {
        Some(t) => same_text(t.name.as_str(), name),
        None => false,
    }
}

fn redirect_callback(root: &String, batch: &Batch, cb: &FileCallbacks) -> (r: Result<FileCallbacks, PatchError>)
    ensures
        match r {
            Ok(after) => redirected(root@, batch.testcases@, *cb, after),
            Err(e) => cb.write_to is Some && redirect_of(root@, batch.testcases@, cb.write_to->0.dest@) is None
                && !(e is WrongCount),
        },
{
    proof {
        reveal_strlit("input");
        reveal_strlit("output");
    }
    match &cb.write_to {
        None => Ok(FileCallbacks { write_to: None, get_content: cb.get_content }),
        Some(w) => {
            let rel = match strip_root_exec(w.dest.as_str(), root.as_str()) {
                None => {
                    return Err(PatchError::OutsideTask(w.dest.clone()));
                },
                Some(rel) => rel,
            };
            let is_input = under_dir_exec(rel, "input");
            let is_output = under_dir_exec(rel, "output");
            if !is_input && !is_output {
                return Ok(
                    FileCallbacks {
                        write_to: Some(
                            WriteToCallback {
                                dest: w.dest.clone(),
                                executable: w.executable,
                                allow_failure: w.allow_failure,
                            },
                        ),
                        get_content: cb.get_content,
                    },
                );
            }
            let id = match testcase_of_file_exec(file_name_exec(rel)) {
                None => {
                    return Err(PatchError::NoTestcaseId(w.dest.clone()));
                },
                Some(id) => id,
            };
            let t = match batch.get(id) {
                None => {
                    return Err(PatchError::NotInBatch(id));
                },
                Some(t) => t,
            };
            let dest = if is_input {
                t.input_path.clone()
            } else {
                t.correct_output_path.clone()
            };
            Ok(
                FileCallbacks {
                    write_to: Some(WriteToCallback { dest, executable: w.executable, allow_failure: true }),
                    get_content: cb.get_content,
                },
            )
        },
    }
}

} // verus!

verus! {

/// `u` is the stdout of an evaluation execution among `es`.
pub open spec fn is_eval_stdout(es: Seq<Execution>, u: FileUuid) -> bool {
    exists|x: int| 0 <= x < es.len() && tagged(es[x], "evaluation"@) && #[trigger] es[x].stdout == Some(u)
}

/// Some output to write is for file `u`.
pub open spec fn writes_file(news: Seq<(FileUuid, String)>, u: FileUuid) -> bool {
    exists|j: int| 0 <= j < news.len() && #[trigger] news[j].0 == u
}

proof fn lemma_count_patched_push(es: Seq<Execution>, e: Execution)
    ensures
        count_patched(es.push(e)) == count_patched(es) + (if is_patched_kind(e) { 1nat } else { 0nat }),
{
    assert(es.push(e).drop_last() =~= es);
}

proof fn lemma_count_patched_concat(a: Seq<Execution>, b: Seq<Execution>)
    ensures
        count_patched(a + b) == count_patched(a) + count_patched(b),
    decreases b.len(),
{
    if b.len() == 0 {
        assert(a + b =~= a);
    } else {
        lemma_count_patched_concat(a, b.drop_last());
        assert((a + b).drop_last() =~= a + b.drop_last());
    }
}

/// Patch the executions of one group: priorities, and for each evaluation
/// that captures stdout, where its output goes. Returns the patched group,
/// the number of evaluation and checking executions, and the outputs to
/// write.
fn patch_group(group: ExecutionGroup, generation_priority: i64, batch: &Batch) -> (r: Result<
    (ExecutionGroup, usize, Vec<(FileUuid, String)>),
    PatchError,
>)
    requires
        generation_priority < i64::MAX,
    ensures
        r is Err ==> !(r->Err_0 is WrongCount),
        r is Ok <==> forall|k: int| 0 <= k < group.executions@.len() ==> exec_ok(#[trigger] group.executions@[k], batch.testcases@),
        r matches Ok((g, count, news)) ==> {
            &&& g.uuid == group.uuid
            &&& g.description == group.description
            &&& g.fifo == group.fifo
            &&& g.executions@.len() == group.executions@.len()
            &&& forall|k: int| 0 <= k < g.executions@.len() ==> #[trigger] g.executions@[k] == patched_exec(group.executions@[k], generation_priority)
            &&& count == count_patched(group.executions@)
            &&& forall|j: int| 0 <= j < news@.len() ==> is_eval_stdout(group.executions@, (#[trigger] news@[j]).0)
            &&& forall|k: int|
                0 <= k < group.executions@.len() && tagged(#[trigger] group.executions@[k], "evaluation"@)
                    && group.executions@[k].stdout is Some ==> writes_file(news@, group.executions@[k].stdout->0)
        },
{
    proof {
        reveal_strlit("evaluation");
        reveal_strlit("checking");
    }
    let ghost orig = group.executions@;
    let mut rest = group.executions;
    let mut done: Vec<Execution> = Vec::new();
    let mut news: Vec<(FileUuid, String)> = Vec::new();
    let mut count: usize = 0;
    let n = rest.len();
    let mut k: usize = 0;
    while k < n
        invariant
            n == orig.len(),
            generation_priority < i64::MAX,
            0 <= k <= n,
            rest@ == orig.subrange(k as int, n as int),
            done@.len() == k,
            forall|x: int| 0 <= x < k ==> #[trigger] done@[x] == patched_exec(orig[x], generation_priority),
            count == count_patched(orig.subrange(0, k as int)),
            count <= k,
            forall|x: int| 0 <= x < k ==> exec_ok(#[trigger] orig[x], batch.testcases@),
            orig == group.executions@,
            forall|j: int| 0 <= j < news@.len() ==> is_eval_stdout(orig, (#[trigger] news@[j]).0),
            forall|x: int|
                0 <= x < k && tagged(#[trigger] orig[x], "evaluation"@) && orig[x].stdout is Some ==> writes_file(
                    news@,
                    orig[x].stdout->0,
                ),
        decreases n - k,
    {
        let mut e = rest.remove(0);
        assert(e == orig[k as int]);
        let is_eval = is_tagged(&e, "evaluation");
        let is_check = is_tagged(&e, "checking");
        proof {
            assert(orig.subrange(0, k + 1) =~= orig.subrange(0, k as int).push(e));
            lemma_count_patched_push(orig.subrange(0, k as int), e);
        }
        if is_eval || is_check {
            e.priority = generation_priority + 1;
            count = count + 1;
        }
        if is_eval {
            if let Some(u) = e.stdout {
                let id = match testcase_of_description_exec(e.description.as_str()) {
                    None => {
                        assert(!exec_ok(orig[k as int], batch.testcases@));
                        return Err(PatchError::NoTestcaseId(e.description.clone()));
                    },
                    Some(id) => id,
                };
                let t = match batch.get(id) {
                    None => {
                        assert(!exec_ok(orig[k as int], batch.testcases@));
                        return Err(PatchError::NotInBatch(id));
                    },
                    Some(t) => t,
                };
                assert(exec_ok(orig[k as int], batch.testcases@));
                let ghost before = news@;
                news.push((u, t.output_path.clone()));
                proof {
                    let j = news@.len() - 1;
                    assert(news@[j].0 == u);
                    assert(orig[k as int].stdout == Some(u));
                    assert(is_eval_stdout(orig, u));
                    assert(writes_file(news@, u));
                    assert forall|j2: int| 0 <= j2 < news@.len() implies is_eval_stdout(orig, (#[trigger] news@[j2]).0) by {
                        if j2 < before.len() {
                            assert(news@[j2] == before[j2]);
                        }
                    }
                    assert forall|x: int| 0 <= x < k && tagged(#[trigger] orig[x], "evaluation"@) && orig[x].stdout is Some implies writes_file(news@, orig[x].stdout->0) by {
                        assert(writes_file(before, orig[x].stdout->0));
                        let j2 = choose|j2: int| 0 <= j2 < before.len() && #[trigger] before[j2].0 == orig[x].stdout->0;
                        assert(news@[j2] == before[j2]);
                    }
                }
            }
        }
        done.push(e);
        k = k + 1;
        assert(rest@ =~= orig.subrange(k as int, n as int));
    }
    assert(orig.subrange(0, n as int) =~= orig);
    Ok((ExecutionGroup { uuid: group.uuid, description: group.description, executions: done, fifo: group.fifo }, count, news))
}

} // verus!

verus! {

/// Redirect the DAG of an evaluation to a batch of generated testcases:
/// every input or output file of the task is written to the working paths
/// of its testcase, even when its run fails; evaluations and checkings run
/// right after the generation (`generation_priority + 1`); the output of
/// each evaluation is written to its testcase's output path. There must be
/// one evaluation and one checking per testcase of the batch.
#[verifier::spinoff_prover]
pub fn patch_dag(eval: &mut EvaluationData, batch_size: usize, batch: &Batch, generation_priority: i64) -> (r: Result<
    (),
    PatchError,
>)
    requires
        generation_priority < i64::MAX,
        batch_size <= usize::MAX / 2,
        all_execs(old(eval).dag.groups@).len() <= usize::MAX,
    ensures
        r is Ok ==> {
            &&& final(eval).task_root == old(eval).task_root
            &&& count_patched(all_execs(old(eval).dag.groups@)) == 2 * batch_size
            &&& final(eval).dag.groups@.len() == old(eval).dag.groups@.len()
            &&& forall|g: int|
                0 <= g < old(eval).dag.groups@.len() ==> {
                    &&& (#[trigger] final(eval).dag.groups@[g]).executions@.len() == old(eval).dag.groups@[g].executions@.len()
                    &&& forall|k: int|
                        0 <= k < old(eval).dag.groups@[g].executions@.len() ==> #[trigger] final(eval).dag.groups@[g].executions@[k]
                            == patched_exec(old(eval).dag.groups@[g].executions@[k], generation_priority)
                }
            &&& final(eval).dag.file_callbacks@.len() >= old(eval).dag.file_callbacks@.len()
            &&& forall|c: int|
                0 <= c < old(eval).dag.file_callbacks@.len() && !is_eval_stdout(
                    all_execs(old(eval).dag.groups@),
                    old(eval).dag.file_callbacks@[c].0,
                ) ==> (#[trigger] final(eval).dag.file_callbacks@[c]).0 == old(eval).dag.file_callbacks@[c].0
                    && redirected(
                    old(eval).task_root@,
                    batch.testcases@,
                    old(eval).dag.file_callbacks@[c].1,
                    final(eval).dag.file_callbacks@[c].1,
                )
        },
        r matches Err(PatchError::WrongCount { expected, found }) ==> expected == 2 * batch_size && found
            == count_patched(all_execs(old(eval).dag.groups@)) && found != expected,
        r is Ok <==> patchable(*old(eval), batch_size, batch.testcases@),
{
    // Redirect the files written to the task directory.
    let ghost old_cbs = eval.dag.file_callbacks@;
    let mut cbs: Vec<(FileUuid, FileCallbacks)> = Vec::new();
    let mut c: usize = 0;
    while c < eval.dag.file_callbacks.len()
        invariant
            0 <= c <= old_cbs.len(),
            *eval == *old(eval),
            eval.dag.file_callbacks@ == old_cbs,
            cbs@.len() == c,
            forall|x: int| 0 <= x < c ==> callback_ok(eval.task_root@, batch.testcases@, (#[trigger] old_cbs[x]).1),
            forall|x: int| 0 <= x < c ==> (#[trigger] cbs@[x]).0 == old_cbs[x].0 && redirected(
                eval.task_root@,
                batch.testcases@,
                old_cbs[x].1,
                cbs@[x].1,
            ),
        decreases old_cbs.len() - c,
    {
        let nc = match redirect_callback(&eval.task_root, batch, &eval.dag.file_callbacks[c].1) {
            Ok(nc) => nc,
            Err(e) => {
                assert(!callback_ok(eval.task_root@, batch.testcases@, old_cbs[c as int].1));
                return Err(e);
            },
        };
        cbs.push((eval.dag.file_callbacks[c].0, nc));
        c = c + 1;
    }
    // Patch the priorities and collect the outputs of the evaluations.
    let ghost orig = eval.dag.groups@;
    let mut rest: Vec<ExecutionGroup> = Vec::new();
    std::mem::swap(&mut rest, &mut eval.dag.groups);
    let n = rest.len();
    let mut groups: Vec<ExecutionGroup> = Vec::new();
    let mut news: Vec<(FileUuid, String)> = Vec::new();
    let mut processed: usize = 0;
    let mut g: usize = 0;
    while g < n
        invariant
            n == orig.len(),
            generation_priority < i64::MAX,
            all_execs(orig).len() <= usize::MAX,
            0 <= g <= n,
            rest@ == orig.subrange(g as int, n as int),
            groups@.len() == g,
            forall|x: int|
                0 <= x < g ==> {
                    &&& (#[trigger] groups@[x]).executions@.len() == orig[x].executions@.len()
                    &&& forall|k: int|
                        0 <= k < orig[x].executions@.len() ==> #[trigger] groups@[x].executions@[k] == patched_exec(
                            orig[x].executions@[k],
                            generation_priority,
                        )
                },
            processed == count_patched(all_execs(orig.subrange(0, g as int))),
            forall|j: int| 0 <= j < news@.len() ==> is_eval_stdout(all_execs(orig), (#[trigger] news@[j]).0),
            orig == old(eval).dag.groups@,
            eval.task_root == old(eval).task_root,
            forall|x: int| 0 <= x < old_cbs.len() ==> callback_ok(eval.task_root@, batch.testcases@, (#[trigger] old_cbs[x]).1),
            old_cbs == old(eval).dag.file_callbacks@,
            forall|x: int, k: int|
                0 <= x < g && 0 <= k < orig[x].executions@.len() ==> exec_ok(#[trigger] orig[x].executions@[k], batch.testcases@),
        decreases n - g,
    {
        let grp = rest.remove(0);
        assert(grp == orig[g as int]);
        let (pg, count, gnews) = match patch_group(grp, generation_priority, batch) {
            Ok(x) => x,
            Err(e) => {
                proof {
                    let k = choose|k: int| 0 <= k < orig[g as int].executions@.len() && !exec_ok(#[trigger] orig[g as int].executions@[k], batch.testcases@);
                    assert(!patchable(*old(eval), batch_size, batch.testcases@));
                }
                return Err(e);
            },
        };
        proof {
            crate::text::lemma_join_map_step(orig, g as int, group_count_enc());
            lemma_count_patched_concat(all_execs(orig.subrange(0, g as int)), orig[g as int].executions@);
            lemma_all_execs_prefix_len(orig, g as int + 1);
            lemma_count_patched_le(all_execs(orig.subrange(0, g as int + 1)));
            assert(orig.subrange(0, g as int + 1).drop_last() =~= orig.subrange(0, g as int));
        }
        processed = processed + count;
        let mut j: usize = 0;
        let ghost before = news@;
        while j < gnews.len()
            invariant
                0 <= j <= gnews@.len(),
                g < n,
                n == orig.len(),
                news@.len() == before.len() + j,
                forall|x: int| 0 <= x < before.len() ==> #[trigger] news@[x] == before[x],
                forall|x: int| 0 <= x < j ==> #[trigger] news@[before.len() + x] == gnews@[x],
                forall|q: int| 0 <= q < gnews@.len() ==> is_eval_stdout(orig[g as int].executions@, (#[trigger] gnews@[q]).0),
            decreases gnews@.len() - j,
        {
            news.push((gnews[j].0, gnews[j].1.clone()));
            j = j + 1;
        }
        proof {
            assert forall|q: int| 0 <= q < news@.len() implies is_eval_stdout(all_execs(orig), (#[trigger] news@[q]).0) by {
                if q < before.len() {
                    assert(news@[q] == before[q]);
                } else {
                    let y = q - before.len();
                    assert(news@[before.len() + y] == gnews@[y]);
                    assert(news@[q] == gnews@[y]);
                    assert(is_eval_stdout(orig[g as int].executions@, gnews@[y].0));
                    lemma_eval_stdout_in_all(orig, g as int, gnews@[y].0);
                }
            }
        }
        groups.push(pg);
        g = g + 1;
        assert(rest@ =~= orig.subrange(g as int, n as int));
    }
    assert(orig.subrange(0, n as int) =~= orig);
    eval.dag.groups = groups;
    // Write the outputs of the evaluations to the working directory.
    eval.dag.file_callbacks = cbs;
    let ghost gfinal = eval.dag.groups@;
    let mut j: usize = 0;
    while j < news.len()
        invariant
            0 <= j <= news@.len(),
            eval.dag.groups@ == gfinal,
            gfinal.len() == orig.len(),
            forall|x: int|
                0 <= x < orig.len() ==> {
                    &&& (#[trigger] gfinal[x]).executions@.len() == orig[x].executions@.len()
                    &&& forall|k: int|
                        0 <= k < orig[x].executions@.len() ==> #[trigger] gfinal[x].executions@[k] == patched_exec(
                            orig[x].executions@[k],
                            generation_priority,
                        )
                },
            eval.dag.file_callbacks@.len() >= old_cbs.len(),
            eval.task_root == old(eval).task_root,
            forall|q: int| 0 <= q < news@.len() ==> is_eval_stdout(all_execs(orig), (#[trigger] news@[q]).0),
            forall|x: int|
                0 <= x < old_cbs.len() && !is_eval_stdout(all_execs(orig), old_cbs[x].0) ==> (#[trigger] eval.dag.file_callbacks@[x]).0
                    == old_cbs[x].0 && redirected(eval.task_root@, batch.testcases@, old_cbs[x].1, eval.dag.file_callbacks@[x].1),
        decreases news@.len() - j,
    {
        let ghost before = eval.dag.file_callbacks@;
        eval.dag.write_file_to_allow_fail(news[j].0, news[j].1.clone(), false);
        proof {
            assert forall|x: int|
                0 <= x < old_cbs.len() && !is_eval_stdout(all_execs(orig), old_cbs[x].0) implies (#[trigger] eval.dag.file_callbacks@[x]).0
                    == old_cbs[x].0 && redirected(eval.task_root@, batch.testcases@, old_cbs[x].1, eval.dag.file_callbacks@[x].1) by {
                assert(before[x].0 == old_cbs[x].0);
                assert(is_eval_stdout(all_execs(orig), news@[j as int].0));
                assert(before[x].0 != news@[j as int].0);
            }
        }
        j = j + 1;
    }
    if processed != batch_size * 2 {
        return Err(PatchError::WrongCount { expected: batch_size * 2, found: processed });
    }
    Ok(())
}

proof fn lemma_count_patched_le(es: Seq<Execution>)
    ensures
        count_patched(es) <= es.len(),
    decreases es.len(),
{
    if es.len() > 0 {
        lemma_count_patched_le(es.drop_last());
    }
}

proof fn lemma_all_execs_prefix_len(gs: Seq<ExecutionGroup>, g: int)
    requires
        0 <= g <= gs.len(),
    ensures
        all_execs(gs.subrange(0, g)).len() <= all_execs(gs).len(),
    decreases gs.len() - g,
{
    if g < gs.len() {
        lemma_all_execs_prefix_len(gs, g + 1);
        crate::text::lemma_join_map_step(gs, g, group_count_enc());
    } else {
        assert(gs.subrange(0, g) =~= gs);
    }
}

/// An evaluation stdout of group `g` is one of the whole DAG.
proof fn lemma_eval_stdout_in_all(gs: Seq<ExecutionGroup>, g: int, u: FileUuid)
    requires
        0 <= g < gs.len(),
        is_eval_stdout(gs[g].executions@, u),
    ensures
        is_eval_stdout(all_execs(gs), u),
    decreases gs.len(),
{
    let x = choose|x: int|
        0 <= x < gs[g].executions@.len() && tagged(gs[g].executions@[x], "evaluation"@) && #[trigger] gs[g].executions@[x].stdout
            == Some(u);
    if g == gs.len() - 1 {
        let pre = all_execs(gs.drop_last());
        assert(all_execs(gs) == pre + gs[g].executions@);
        assert(all_execs(gs)[pre.len() + x] == gs[g].executions@[x]);
    } else {
        lemma_eval_stdout_in_all(gs.drop_last(), g, u);
        let pre = all_execs(gs.drop_last());
        assert(all_execs(gs) == pre + gs.last().executions@);
        let y = choose|y: int| 0 <= y < pre.len() && tagged(pre[y], "evaluation"@) && #[trigger] pre[y].stdout == Some(u);
        assert(all_execs(gs)[y] == pre[y]);
    }
}

} // verus!
