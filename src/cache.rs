//! The execution cache: a memo table from the fingerprint of an execution
//! group and of its inputs' contents to the results observed under given
//! limits.
use vstd::prelude::*;
use crate::dag::{
    copy_opt_bytes, dim_looser, limits_looser, opt_bytes, same_result, status_of, Execution, ExecutionGroup, ExecutionLimits,
    ExecutionResult, ExecutionStatus, FileUuid, InputBinding, OutputBinding,
};
use crate::store::{FileStore, FileStoreKey, hex_encode};
use crate::text::{
    decimal, enc_list, enc_str, hex_of, join_map, lemma_join_map_step, lex_order, push_enc_str, push_list_head,
    sort_strings, views,
};

verus! {

/// The content key bound to `u` in `fk` at position `i`, the first one.
pub open spec fn is_first(fk: Seq<(FileUuid, FileStoreKey)>, u: FileUuid, i: int) -> bool {
    &&& 0 <= i < fk.len()
    &&& fk[i].0 == u
    &&& forall|j: int| 0 <= j < i ==> #[trigger] fk[j].0 != u
}

/// The content key of file `u` in the resolution `fk` (the first binding).
pub open spec fn lookup_key(fk: Seq<(FileUuid, FileStoreKey)>, u: FileUuid) -> Option<Seq<u8>> {
    if exists|i: int| is_first(fk, u, i) {
        Some(fk[choose|i: int| is_first(fk, u, i)].1@)
    } else {
        None
    }
}

/// The content key bound to `u`, if any.
pub fn find_key(fk: &Vec<(FileUuid, FileStoreKey)>, u: FileUuid) -> (r: Option<&FileStoreKey>)
    ensures
        r is Some <==> lookup_key(fk@, u) is Some,
        r is Some ==> lookup_key(fk@, u) == Some(r->0@),
{
    let mut i: usize = 0;
    while i < fk.len()
        invariant
            0 <= i <= fk@.len(),
            forall|j: int| 0 <= j < i ==> #[trigger] fk@[j].0 != u,
        decreases fk@.len() - i,
    {
        if fk[i].0 == u {
            proof {
                assert(is_first(fk@, u, i as int));
                assert forall|j: int| is_first(fk@, u, j) implies j == i by {
                    if j < i {
                        assert(fk@[j].0 != u);
                    } else if j > i {
                        assert(fk@[i as int].0 != u);
                    }
                }
            }
            return Some(&fk[i].1);
        }
        i = i + 1;
    }
    None
}

pub open spec fn flag(b: bool) -> Seq<char> {
    if b {
        seq!['x']
    } else {
        seq!['-']
    }
}

/// A file of the group, by content: its key, or a mark when unresolved.
pub open spec fn file_text(fk: Seq<(FileUuid, FileStoreKey)>, u: FileUuid) -> Seq<char> {
    match lookup_key(fk, u) {
        Some(k) => seq!['k'] + hex_of(k),
        None => seq!['-'],
    }
}

pub open spec fn str_enc() -> spec_fn(String) -> Seq<char> {
    |s: String| enc_str(s@)
}

pub open spec fn env_enc() -> spec_fn((String, String)) -> Seq<char> {
    |p: (String, String)| enc_str(p.0@) + enc_str(p.1@)
}

pub open spec fn input_enc(fk: Seq<(FileUuid, FileStoreKey)>) -> spec_fn(InputBinding) -> Seq<char> {
    |b: InputBinding| enc_str(b.path@) + file_text(fk, b.file) + flag(b.executable)
}

pub open spec fn output_enc() -> spec_fn(OutputBinding) -> Seq<char> {
    |o: OutputBinding| enc_str(o.path@)
}

pub open spec fn stdin_text(fk: Seq<(FileUuid, FileStoreKey)>, s: Option<FileUuid>) -> Seq<char> {
    match s {
        Some(u) => seq!['s'] + file_text(fk, u),
        None => seq!['n'],
    }
}

/// A set of encoded items: their number, then the items in lexicographic
/// order, so that the order they were declared in does not matter.
pub open spec fn enc_sorted(items: Seq<Seq<char>>) -> Seq<char> {
    decimal(items.len()) + seq!['['] + join_map(items.sort_by(lex_order()), |x: Seq<char>| x)
}

/// The fingerprint of one execution: everything but its limits,
/// description, tag and priority, with inputs named by content and the
/// environment and inputs sorted.
pub open spec fn exec_text(fk: Seq<(FileUuid, FileStoreKey)>, e: Execution) -> Seq<char> {
    enc_str(e.command@) + enc_list(e.args@, str_enc()) + enc_sorted(e.env@.map_values(env_enc())) + stdin_text(
        fk,
        e.stdin,
    ) + enc_sorted(e.inputs@.map_values(input_enc(fk))) + enc_list(e.outputs@, output_enc()) + flag(
        e.stdout is Some,
    ) + flag(e.stderr is Some)
}

pub open spec fn exec_enc(fk: Seq<(FileUuid, FileStoreKey)>) -> spec_fn(Execution) -> Seq<char> {
    |e: Execution| exec_text(fk, e)
}

/// The fingerprint of a group whose input files have the contents `fk`.
pub open spec fn key_text(g: ExecutionGroup, fk: Seq<(FileUuid, FileStoreKey)>) -> Seq<char> {
    enc_list(g.executions@, exec_enc(fk)) + enc_list(g.fifo@, str_enc())
}

fn push_file(t: &mut String, fk: &Vec<(FileUuid, FileStoreKey)>, u: FileUuid)
    ensures
        final(t)@ == old(t)@ + file_text(fk@, u),
{
    proof {
        reveal_strlit("k");
        reveal_strlit("-");
    }
    match find_key(fk, u) {
        Some(k) => {
            t.append("k");
            let h = hex_encode(k.hash().as_slice());
            t.append(h.as_str());
            assert(final(t)@ =~= old(t)@ + file_text(fk@, u));
        },
        None => {
            t.append("-");
        },
    }
}

fn push_flag(t: &mut String, b: bool)
    ensures
        final(t)@ == old(t)@ + flag(b),
{
    proof {
        reveal_strlit("x");
        reveal_strlit("-");
    }
    if b {
        t.append("x");
    } else {
        t.append("-");
    }
}

fn push_strings(t: &mut String, xs: &Vec<String>)
    ensures
        final(t)@ == old(t)@ + enc_list(xs@, str_enc()),
{
    push_list_head(t, xs.len());
    let ghost base = t@;
    let mut i: usize = 0;
    while i < xs.len()
        invariant
            0 <= i <= xs@.len(),
            t@ == base + join_map(xs@.subrange(0, i as int), str_enc()),
        decreases xs@.len() - i,
    {
        push_enc_str(t, xs[i].as_str());
        proof {
            lemma_join_map_step(xs@, i as int, str_enc());
            assert(t@ =~= base + join_map(xs@.subrange(0, i + 1), str_enc()));
        }
        i = i + 1;
    }
    assert(xs@.subrange(0, xs@.len() as int) =~= xs@);
    assert(final(t)@ =~= old(t)@ + enc_list(xs@, str_enc()));
}

/// Append the strings of `encs`, sorted, after their number.
fn push_sorted(t: &mut String, encs: Vec<String>)
    ensures
        final(t)@ == old(t)@ + enc_sorted(views(encs@)),
{
    let ghost items = views(encs@);
    push_list_head(t, encs.len());
    let sorted = sort_strings(encs);
    let ghost base = t@;
    let ghost sv = views(sorted@);
    let mut i: usize = 0;
    while i < sorted.len()
        invariant
            0 <= i <= sorted@.len(),
            sv == views(sorted@),
            t@ == base + join_map(sv.subrange(0, i as int), |x: Seq<char>| x),
        decreases sorted@.len() - i,
    {
        t.append(sorted[i].as_str());
        proof {
            lemma_join_map_step(sv, i as int, |x: Seq<char>| x);
            assert(t@ =~= base + join_map(sv.subrange(0, i + 1), |x: Seq<char>| x));
        }
        i = i + 1;
    }
    assert(sv.subrange(0, sv.len() as int) =~= sv);
    assert(items.len() == encs@.len());
    assert(final(t)@ =~= old(t)@ + enc_sorted(items));
}

fn env_encodings(xs: &Vec<(String, String)>) -> (r: Vec<String>)
    ensures
        views(r@) == xs@.map_values(env_enc()),
{
    let mut r: Vec<String> = Vec::new();
    let mut i: usize = 0;
    while i < xs.len()
        invariant
            0 <= i <= xs@.len(),
            views(r@) == xs@.subrange(0, i as int).map_values(env_enc()),
        decreases xs@.len() - i,
    {
        let mut e = String::new();
        push_enc_str(&mut e, xs[i].0.as_str());
        push_enc_str(&mut e, xs[i].1.as_str());
        assert(e@ =~= env_enc()(xs@[i as int]));
        let ghost before = r@;
        let ghost ev = e@;
        r.push(e);
        proof {
            assert(views(before).len() == before.len());
            assert(before.len() == i as int);
            assert(r@.len() == i + 1);
            assert(r@[i as int]@ == ev);
            assert forall|k: int| 0 <= k < r@.len() implies #[trigger] views(r@)[k] == xs@.subrange(0, i + 1).map_values(env_enc())[k] by {
                if k < i {
                    assert(r@[k] == before[k]);
                    assert(views(before)[k] == xs@.subrange(0, i as int).map_values(env_enc())[k]);
                }
            }
        }
        i = i + 1;
        assert(views(r@) =~= xs@.subrange(0, i as int).map_values(env_enc()));
    }
    assert(xs@.subrange(0, xs@.len() as int) =~= xs@);
    r
}

fn push_env(t: &mut String, xs: &Vec<(String, String)>)
    ensures
        final(t)@ == old(t)@ + enc_sorted(xs@.map_values(env_enc())),
{
    let encs = env_encodings(xs);
    push_sorted(t, encs);
}

fn input_encodings(xs: &Vec<InputBinding>, fk: &Vec<(FileUuid, FileStoreKey)>) -> (r: Vec<String>)
    ensures
        views(r@) == xs@.map_values(input_enc(fk@)),
{
    let mut r: Vec<String> = Vec::new();
    let mut i: usize = 0;
    while i < xs.len()
        invariant
            0 <= i <= xs@.len(),
            views(r@) == xs@.subrange(0, i as int).map_values(input_enc(fk@)),
        decreases xs@.len() - i,
    {
        let mut e = String::new();
        push_enc_str(&mut e, xs[i].path.as_str());
        push_file(&mut e, fk, xs[i].file);
        push_flag(&mut e, xs[i].executable);
        assert(e@ =~= input_enc(fk@)(xs@[i as int]));
        let ghost before = r@;
        let ghost ev = e@;
        r.push(e);
        proof {
            assert(views(before).len() == before.len());
            assert(before.len() == i as int);
            assert(r@.len() == i + 1);
            assert(r@[i as int]@ == ev);
            assert forall|k: int| 0 <= k < r@.len() implies #[trigger] views(r@)[k] == xs@.subrange(0, i + 1).map_values(input_enc(fk@))[k] by {
                if k < i {
                    assert(r@[k] == before[k]);
                    assert(views(before)[k] == xs@.subrange(0, i as int).map_values(input_enc(fk@))[k]);
                }
            }
        }
        i = i + 1;
        assert(views(r@) =~= xs@.subrange(0, i as int).map_values(input_enc(fk@)));
    }
    assert(xs@.subrange(0, xs@.len() as int) =~= xs@);
    r
}

fn push_inputs(t: &mut String, xs: &Vec<InputBinding>, fk: &Vec<(FileUuid, FileStoreKey)>)
    ensures
        final(t)@ == old(t)@ + enc_sorted(xs@.map_values(input_enc(fk@))),
{
    let encs = input_encodings(xs, fk);
    push_sorted(t, encs);
}

fn push_outputs(t: &mut String, xs: &Vec<OutputBinding>)
    ensures
        final(t)@ == old(t)@ + enc_list(xs@, output_enc()),
{
    push_list_head(t, xs.len());
    let ghost base = t@;
    let mut i: usize = 0;
    while i < xs.len()
        invariant
            0 <= i <= xs@.len(),
            t@ == base + join_map(xs@.subrange(0, i as int), output_enc()),
        decreases xs@.len() - i,
    {
        push_enc_str(t, xs[i].path.as_str());
        proof {
            lemma_join_map_step(xs@, i as int, output_enc());
            assert(t@ =~= base + join_map(xs@.subrange(0, i + 1), output_enc()));
        }
        i = i + 1;
    }
    assert(xs@.subrange(0, xs@.len() as int) =~= xs@);
    assert(final(t)@ =~= old(t)@ + enc_list(xs@, output_enc()));
}

fn push_exec(t: &mut String, e: &Execution, fk: &Vec<(FileUuid, FileStoreKey)>)
    ensures
        final(t)@ == old(t)@ + exec_text(fk@, *e),
{
    push_enc_str(t, e.command.as_str());
    push_strings(t, &e.args);
    push_env(t, &e.env);
    proof {
        reveal_strlit("s");
        reveal_strlit("n");
    }
    match e.stdin {
        Some(u) => {
            t.append("s");
            push_file(t, fk, u);
        },
        None => {
            t.append("n");
        },
    }
    push_inputs(t, &e.inputs, fk);
    push_outputs(t, &e.outputs);
    push_flag(t, e.stdout.is_some());
    push_flag(t, e.stderr.is_some());
    assert(final(t)@ =~= old(t)@ + exec_text(fk@, *e));
}

/// The fingerprint of `group` with inputs resolved by `fk`.
pub fn group_key(group: &ExecutionGroup, fk: &Vec<(FileUuid, FileStoreKey)>) -> (r: String)
    ensures
        r@ == key_text(*group, fk@),
{
    let mut t = String::new();
    let xs = &group.executions;
    push_list_head(&mut t, xs.len());
    let ghost base = t@;
    let mut i: usize = 0;
    while i < xs.len()
        invariant
            0 <= i <= xs@.len(),
            t@ == base + join_map(xs@.subrange(0, i as int), exec_enc(fk@)),
            base == decimal(xs@.len() as nat) + seq!['['],
        decreases xs@.len() - i,
    {
        push_exec(&mut t, &xs[i], fk);
        proof {
            lemma_join_map_step(xs@, i as int, exec_enc(fk@));
            assert(t@ =~= base + join_map(xs@.subrange(0, i + 1), exec_enc(fk@)));
        }
        i = i + 1;
    }
    assert(xs@.subrange(0, xs@.len() as int) =~= xs@);
    push_strings(&mut t, &group.fifo);
    assert(t@ =~= key_text(*group, fk@));
    t
}

} // verus!

verus! {

pub open spec fn opt_file(o: Option<FileUuid>) -> Seq<FileUuid> {
    match o {
        Some(u) => seq![u],
        None => Seq::empty(),
    }
}

/// The files an execution produces, in a fixed order: stdout, stderr, then
/// the declared outputs.
pub open spec fn exec_slots(e: Execution) -> Seq<FileUuid> {
    opt_file(e.stdout) + opt_file(e.stderr) + e.outputs@.map_values(|o: OutputBinding| o.file)
}

pub open spec fn slots_enc() -> spec_fn(Execution) -> Seq<FileUuid> {
    |e: Execution| exec_slots(e)
}

/// The files a group produces, execution by execution.
pub open spec fn group_slots(g: ExecutionGroup) -> Seq<FileUuid> {
    join_map(g.executions@, slots_enc())
}

fn push_exec_slots(v: &mut Vec<FileUuid>, e: &Execution)
    ensures
        final(v)@ == old(v)@ + exec_slots(*e),
{
    if let Some(u) = e.stdout {
        v.push(u);
    }
    if let Some(u) = e.stderr {
        v.push(u);
    }
    let ghost base = v@;
    let mut j: usize = 0;
    while j < e.outputs.len()
        invariant
            0 <= j <= e.outputs@.len(),
            v@ == base + e.outputs@.subrange(0, j as int).map_values(|o: OutputBinding| o.file),
        decreases e.outputs@.len() - j,
    {
        v.push(e.outputs[j].file);
        j = j + 1;
        assert(v@ =~= base + e.outputs@.subrange(0, j as int).map_values(|o: OutputBinding| o.file));
    }
    assert(e.outputs@.subrange(0, e.outputs@.len() as int) =~= e.outputs@);
    assert(final(v)@ =~= old(v)@ + exec_slots(*e));
}

/// The files `group` produces, in slot order.
pub fn output_slots(group: &ExecutionGroup) -> (r: Vec<FileUuid>)
    ensures
        r@ == group_slots(*group),
{
    let mut v: Vec<FileUuid> = Vec::new();
    let xs = &group.executions;
    let mut i: usize = 0;
    while i < xs.len()
        invariant
            0 <= i <= xs@.len(),
            v@ == join_map(xs@.subrange(0, i as int), slots_enc()),
        decreases xs@.len() - i,
    {
        push_exec_slots(&mut v, &xs[i]);
        proof {
            lemma_join_map_step(xs@, i as int, slots_enc());
        }
        i = i + 1;
    }
    assert(xs@.subrange(0, xs@.len() as int) =~= xs@);
    v
}

/// The result of one execution and the limits it ran under.
#[derive(Debug)]
pub struct CacheEntryItem {
    pub limits: ExecutionLimits,
    pub result: ExecutionResult,
}

/// What was observed for a group under one set of limits: a result per
/// execution and the content key of each produced file, in slot order.
#[derive(Debug)]
pub struct CacheEntry {
    pub items: Vec<CacheEntryItem>,
    pub outputs: Vec<Option<FileStoreKey>>,
}

/// The entries recorded under one fingerprint.
#[derive(Debug)]
pub struct CacheBucket {
    pub key: String,
    pub entries: Vec<CacheEntry>,
}

/// The answer of a cache query.
#[derive(Debug)]
pub enum CacheResult {
    Miss,
    Hit {
        /// One result per execution of the group, recategorised under its
        /// limits and marked as cached.
        result: Vec<ExecutionResult>,
        /// The produced files with their content keys.
        outputs: Vec<(FileUuid, FileStoreKey)>,
    },
}

/// The memo table of executions.
#[derive(Debug)]
pub struct Cache {
    entries: Vec<CacheBucket>,
    cache_file: String,
}

pub open spec fn opt_key(o: Option<FileStoreKey>) -> Option<Seq<u8>> {
    match o {
        Some(k) => Some(k@),
        None => None,
    }
}

/// A cached outcome may stand for a run under `l2`: a success under limits
/// at most as strict, a limit failure under limits at most as strict (the
/// new run fails the same way), a return code or signal whatever the limits.
pub open spec fn item_compatible(item: CacheEntryItem, l2: ExecutionLimits) -> bool {
    match item.result.status {
        ExecutionStatus::Success => limits_looser(item.limits, l2),
        ExecutionStatus::TimeLimitExceeded => limits_looser(item.limits, l2),
        ExecutionStatus::SysTimeLimitExceeded => limits_looser(item.limits, l2),
        ExecutionStatus::WallTimeLimitExceeded => limits_looser(item.limits, l2),
        ExecutionStatus::MemoryLimitExceeded => limits_looser(item.limits, l2),
        ExecutionStatus::ReturnCode(_) => true,
        ExecutionStatus::Signal(_, _) => true,
        ExecutionStatus::InternalError(_) => false,
    }
}

pub open spec fn entry_compatible(e: CacheEntry, g: ExecutionGroup) -> bool {
    &&& e.items@.len() == g.executions@.len()
    &&& forall|i: int| 0 <= i < e.items@.len() ==> item_compatible(
        #[trigger] e.items@[i],
        g.executions@[i].limits,
    )
}

/// Every produced file of the entry is known to the store.
pub open spec fn entry_available(e: CacheEntry, g: ExecutionGroup, st: FileStore) -> bool {
    &&& e.outputs@.len() == group_slots(g).len()
    &&& forall|j: int| 0 <= j < e.outputs@.len() ==> (#[trigger] e.outputs@[j]) is Some && st.holds(
        e.outputs@[j]->0@,
    )
}

pub open spec fn entry_ok(e: CacheEntry, g: ExecutionGroup, st: FileStore) -> bool {
    entry_available(e, g, st) && entry_compatible(e, g)
}

/// Entry `i` is the first usable one of the bucket.
pub open spec fn first_ok(b: Seq<CacheEntry>, g: ExecutionGroup, st: FileStore, i: int) -> bool {
    &&& 0 <= i < b.len()
    &&& entry_ok(b[i], g, st)
    &&& forall|j: int| 0 <= j < i ==> !entry_ok(#[trigger] b[j], g, st)
}

/// The entry a query answers from, if any.
pub open spec fn chosen_entry(b: Seq<CacheEntry>, g: ExecutionGroup, st: FileStore) -> Option<CacheEntry> {
    if exists|i: int| first_ok(b, g, st, i) {
        Some(b[choose|i: int| first_ok(b, g, st, i)])
    } else {
        None
    }
}

/// The exit code and signal a status was recorded with.
pub open spec fn exit_of(s: ExecutionStatus) -> u32 {
    match s {
        ExecutionStatus::ReturnCode(c) => c,
        _ => 0,
    }
}

pub open spec fn signal_of(s: ExecutionStatus) -> Option<(u32, String)> {
    match s {
        ExecutionStatus::Signal(n, name) => Some((n, name)),
        _ => None,
    }
}

/// `r` is the cached `item` served to an execution under `l2`.
pub open spec fn replayed(item: CacheEntryItem, l2: ExecutionLimits, r: ExecutionResult) -> bool {
    &&& r.status == status_of(
        l2,
        exit_of(item.result.status),
        signal_of(item.result.status),
        item.result.resources,
    )
    &&& r.was_cached
    &&& r.was_killed == item.result.was_killed
    &&& r.resources == item.result.resources
    &&& opt_bytes(r.stdout) == opt_bytes(item.result.stdout)
    &&& opt_bytes(r.stderr) == opt_bytes(item.result.stderr)
}

/// `e` records `results` for `g`, with produced files keyed as in `os`.
pub open spec fn entry_records(
    e: CacheEntry,
    g: ExecutionGroup,
    results: Seq<ExecutionResult>,
    os: Seq<(FileUuid, FileStoreKey)>,
) -> bool {
    &&& e.items@.len() == g.executions@.len()
    &&& forall|i: int| 0 <= i < e.items@.len() ==> {
        &&& (#[trigger] e.items@[i]).limits == g.executions@[i].limits
        &&& same_result(results[i], e.items@[i].result)
    }
    &&& e.outputs@.len() == group_slots(g).len()
    &&& forall|j: int| 0 <= j < e.outputs@.len() ==> opt_key(#[trigger] e.outputs@[j]) == lookup_key(
        os,
        group_slots(g)[j],
    )
}

/// `e` was recorded under the limits of `g`'s executions.
pub open spec fn limits_of_group(e: CacheEntry, g: ExecutionGroup) -> bool {
    &&& e.items@.len() == g.executions@.len()
    &&& forall|i: int| 0 <= i < e.items@.len() ==> (#[trigger] e.items@[i]).limits == g.executions@[i].limits
}

/// The same limits, execution by execution.
pub open spec fn same_limits(a: CacheEntry, b: CacheEntry) -> bool {
    &&& a.items@.len() == b.items@.len()
    &&& forall|i: int| 0 <= i < a.items@.len() ==> (#[trigger] a.items@[i]).limits == b.items@[i].limits
}

pub open spec fn first_same_limits(b: Seq<CacheEntry>, e: CacheEntry, p: int) -> bool {
    &&& 0 <= p < b.len()
    &&& same_limits(b[p], e)
    &&& forall|j: int| 0 <= j < p ==> !same_limits(#[trigger] b[j], e)
}

/// The bucket after recording `e`: it replaces the first entry with the
/// same limits, or is appended.
pub open spec fn bucket_with(b: Seq<CacheEntry>, e: CacheEntry) -> Seq<CacheEntry> {
    if exists|p: int| first_same_limits(b, e, p) {
        b.update(choose|p: int| first_same_limits(b, e, p), e)
    } else {
        b.push(e)
    }
}

pub open spec fn buckets_unique(bs: Seq<CacheBucket>) -> bool {
    forall|i: int, j: int|
        0 <= i < bs.len() && 0 <= j < bs.len() && (#[trigger] bs[i]).key@ == (#[trigger] bs[j]).key@ ==> i == j
}

/// The entries recorded under fingerprint `k`.
pub open spec fn bucket_of(bs: Seq<CacheBucket>, k: Seq<char>) -> Seq<CacheEntry> {
    if exists|i: int| 0 <= i < bs.len() && (#[trigger] bs[i]).key@ == k {
        bs[choose|i: int| 0 <= i < bs.len() && (#[trigger] bs[i]).key@ == k].entries@
    } else {
        Seq::empty()
    }
}

impl Cache {
    pub closed spec fn buckets(&self) -> Seq<CacheBucket> {
        self.entries@
    }

    pub closed spec fn file(&self) -> Seq<char> {
        self.cache_file@
    }

    /// The entries recorded under fingerprint `k`.
    pub open spec fn bucket(&self, k: Seq<char>) -> Seq<CacheEntry> {
        bucket_of(self.buckets(), k)
    }

    pub open spec fn wf(&self) -> bool {
        buckets_unique(self.buckets())
    }

    /// An empty cache that is saved to `cache_file`.
    pub fn new(cache_file: String) -> (r: Cache)
        ensures
            r.wf(),
            r.file() == cache_file@,
            forall|k: Seq<char>| r.bucket(k).len() == 0,
    {
        Cache { entries: Vec::new(), cache_file }
    }

    /// The file the cache is saved to.
    pub fn cache_file(&self) -> (r: &String)
        ensures
            r@ == self.file(),
    {
        &self.cache_file
    }

    /// The recorded buckets, to be saved by the caller.
    pub fn buckets_vec(&self) -> (r: &Vec<CacheBucket>)
        ensures
            r@ == self.buckets(),
    {
        &self.entries
    }

    fn find_bucket(&self, k: &String) -> (r: Option<usize>)
        ensures
            r is Some ==> r->0 < self.buckets().len() && self.buckets()[r->0 as int].key@ == k@,
            r is None ==> forall|i: int| 0 <= i < self.buckets().len() ==> (#[trigger] self.buckets()[i]).key@ != k@,
    {
        let mut i: usize = 0;
        while i < self.entries.len()
            invariant
                0 <= i <= self.entries@.len(),
                forall|j: int| 0 <= j < i ==> (#[trigger] self.entries@[j]).key@ != k@,
            decreases self.entries@.len() - i,
        {
            if self.entries[i].key == *k {
                return Some(i);
            }
            i = i + 1;
        }
        None
    }
}

} // verus!

verus! {

/// The key bound to each slot, in slot order.
fn keys_of_slots(slots: &Vec<FileUuid>, os: &Vec<(FileUuid, FileStoreKey)>) -> (r: Vec<Option<FileStoreKey>>)
    ensures
        r@.len() == slots@.len(),
        forall|j: int| 0 <= j < r@.len() ==> opt_key(#[trigger] r@[j]) == lookup_key(os@, slots@[j]),
{
    let mut r: Vec<Option<FileStoreKey>> = Vec::new();
    let mut j: usize = 0;
    while j < slots.len()
        invariant
            0 <= j <= slots@.len(),
            r@.len() == j,
            forall|x: int| 0 <= x < j ==> opt_key(#[trigger] r@[x]) == lookup_key(os@, slots@[x]),
        decreases slots@.len() - j,
    {
        let k = match find_key(os, slots[j]) {
            Some(k) => Some(k.clone()),
            None => None,
        };
        r.push(k);
        j = j + 1;
    }
    r
}

fn same_limits_exec(a: &CacheEntry, b: &CacheEntry) -> (r: bool)
    ensures
        r == same_limits(*a, *b),
{
    if a.items.len() != b.items.len() {
        return false;
    }
    let mut i: usize = 0;
    while i < a.items.len()
        invariant
            a.items@.len() == b.items@.len(),
            0 <= i <= a.items@.len(),
            forall|j: int| 0 <= j < i ==> (#[trigger] a.items@[j]).limits == b.items@[j].limits,
        decreases a.items@.len() - i,
    {
        if a.items[i].limits != b.items[i].limits {
            return false;
        }
        i = i + 1;
    }
    true
}

fn is_compatible_item(item: &CacheEntryItem, l2: &ExecutionLimits) -> (r: bool)
    ensures
        r == item_compatible(*item, *l2),
{
    match item.result.status {
        ExecutionStatus::Success => item.limits.is_looser_than(l2),
        ExecutionStatus::TimeLimitExceeded => item.limits.is_looser_than(l2),
        ExecutionStatus::SysTimeLimitExceeded => item.limits.is_looser_than(l2),
        ExecutionStatus::WallTimeLimitExceeded => item.limits.is_looser_than(l2),
        ExecutionStatus::MemoryLimitExceeded => item.limits.is_looser_than(l2),
        ExecutionStatus::ReturnCode(_) => true,
        ExecutionStatus::Signal(_, _) => true,
        ExecutionStatus::InternalError(_) => false,
    }
}

fn is_usable(e: &CacheEntry, g: &ExecutionGroup, slots: &Vec<FileUuid>, st: &FileStore) -> (r: bool)
    requires
        slots@ == group_slots(*g),
    ensures
        r == entry_ok(*e, *g, *st),
{
    if e.outputs.len() != slots.len() {
        return false;
    }
    let mut j: usize = 0;
    while j < e.outputs.len()
        invariant
            e.outputs@.len() == group_slots(*g).len(),
            0 <= j <= e.outputs@.len(),
            forall|x: int| 0 <= x < j ==> (#[trigger] e.outputs@[x]) is Some && st.holds(e.outputs@[x]->0@),
        decreases e.outputs@.len() - j,
    {
        match &e.outputs[j] {
            Some(k) => {
                if !st.contains(k) {
                    return false;
                }
            },
            None => {
                return false;
            },
        }
        j = j + 1;
    }
    if e.items.len() != g.executions.len() {
        return false;
    }
    let mut i: usize = 0;
    while i < e.items.len()
        invariant
            e.items@.len() == g.executions@.len(),
            0 <= i <= e.items@.len(),
            forall|x: int| 0 <= x < i ==> item_compatible(#[trigger] e.items@[x], g.executions@[x].limits),
        decreases e.items@.len() - i,
    {
        if !is_compatible_item(&e.items[i], &g.executions[i].limits) {
            return false;
        }
        i = i + 1;
    }
    true
}

/// Serve the entry `e` to the group `g`.
fn replay(e: &CacheEntry, g: &ExecutionGroup, slots: &Vec<FileUuid>) -> (r: CacheResult)
    requires
        slots@ == group_slots(*g),
        e.outputs@.len() == slots@.len(),
        forall|j: int| 0 <= j < e.outputs@.len() ==> (#[trigger] e.outputs@[j]) is Some,
        e.items@.len() == g.executions@.len(),
    ensures
        hit_of(r, *e, *g),
{
    let mut results: Vec<ExecutionResult> = Vec::new();
    let mut i: usize = 0;
    while i < e.items.len()
        invariant
            e.items@.len() == g.executions@.len(),
            0 <= i <= e.items@.len(),
            results@.len() == i,
            forall|x: int| 0 <= x < i ==> replayed(e.items@[x], g.executions@[x].limits, #[trigger] results@[x]),
        decreases e.items@.len() - i,
    {
        let item = &e.items[i];
        let exit_status: u32 = match &item.result.status {
            ExecutionStatus::ReturnCode(c) => *c,
            _ => 0,
        };
        let signal: Option<(u32, String)> = match &item.result.status {
            ExecutionStatus::Signal(s, name) => Some((*s, name.clone())),
            _ => None,
        };
        let status = g.executions[i].limits.status(exit_status, signal, &item.result.resources);
        results.push(
            ExecutionResult {
                status,
                was_killed: item.result.was_killed,
                was_cached: true,
                resources: item.result.resources,
                stdout: copy_opt_bytes(&item.result.stdout),
                stderr: copy_opt_bytes(&item.result.stderr),
            },
        );
        i = i + 1;
    }
    let mut outputs: Vec<(FileUuid, FileStoreKey)> = Vec::new();
    let mut j: usize = 0;
    while j < e.outputs.len()
        invariant
            e.outputs@.len() == slots@.len(),
            forall|x: int| 0 <= x < e.outputs@.len() ==> (#[trigger] e.outputs@[x]) is Some,
            0 <= j <= e.outputs@.len(),
            outputs@.len() == j,
            forall|x: int| 0 <= x < j ==> (#[trigger] outputs@[x]).0 == slots@[x] && Some(outputs@[x].1@)
                == opt_key(e.outputs@[x]),
        decreases e.outputs@.len() - j,
    {
        match &e.outputs[j] {
            Some(k) => {
                outputs.push((slots[j], k.clone()));
            },
            None => {
                assert(false);
            },
        }
        j = j + 1;
    }
    CacheResult::Hit { result: results, outputs }
}

/// `r` answers a query from entry `e`.
pub open spec fn hit_of(r: CacheResult, e: CacheEntry, g: ExecutionGroup) -> bool {
    match r {
        CacheResult::Hit { result, outputs } => {
            &&& result@.len() == g.executions@.len()
            &&& forall|i: int| 0 <= i < result@.len() ==> replayed(e.items@[i], g.executions@[i].limits, #[trigger] result@[i])
            &&& outputs@.len() == group_slots(g).len()
            &&& forall|j: int| 0 <= j < outputs@.len() ==> (#[trigger] outputs@[j]).0 == group_slots(g)[j]
                && Some(outputs@[j].1@) == opt_key(e.outputs@[j])
        },
        CacheResult::Miss => false,
    }
}

} // verus!

verus! {

impl Cache {
    /// Record the results of `group`, whose inputs have the contents `fk`
    /// and whose produced files have the contents `os`. An entry with the
    /// same limits is replaced, otherwise the entry is added.
    pub fn insert(
        &mut self,
        group: &ExecutionGroup,
        fk: &Vec<(FileUuid, FileStoreKey)>,
        results: &Vec<ExecutionResult>,
        os: &Vec<(FileUuid, FileStoreKey)>,
    )
        requires
            old(self).wf(),
            results@.len() == group.executions@.len(),
        ensures
            final(self).wf(),
            final(self).file() == old(self).file(),
            exists|e: CacheEntry|
                entry_records(e, *group, results@, os@) && #[trigger] final(self).bucket(key_text(*group, fk@))
                    == bucket_with(old(self).bucket(key_text(*group, fk@)), e),
            forall|k: Seq<char>| k != key_text(*group, fk@) ==> final(self).bucket(k) == old(self).bucket(k),
    {
        let key = group_key(group, fk);
        let mut items: Vec<CacheEntryItem> = Vec::new();
        let mut i: usize = 0;
        while i < group.executions.len()
            invariant
                results@.len() == group.executions@.len(),
                0 <= i <= group.executions@.len(),
                items@.len() == i,
                forall|x: int| 0 <= x < i ==> {
                    &&& (#[trigger] items@[x]).limits == group.executions@[x].limits
                    &&& same_result(results@[x], items@[x].result)
                },
            decreases group.executions@.len() - i,
        {
            items.push(CacheEntryItem { limits: group.executions[i].limits, result: results[i].copy() });
            i = i + 1;
        }
        let slots = output_slots(group);
        let outputs = keys_of_slots(&slots, os);
        let entry = CacheEntry { items, outputs };
        assert(entry_records(entry, *group, results@, os@));
        let ghost k = key@;
        let ghost old_buckets = self.entries@;
        match self.find_bucket(&key) {
            Some(bi) => {
                let mut bucket = self.entries.remove(bi);
                let ghost ob = bucket.entries@;
                let mut p: usize = 0;
                let mut found = false;
                while !found && p < bucket.entries.len()
                    invariant
                        bucket.entries@ == ob,
                        0 <= p <= ob.len(),
                        found ==> p < ob.len() && same_limits(ob[p as int], entry),
                        forall|j: int| 0 <= j < p ==> !same_limits(#[trigger] ob[j], entry),
                    decreases ob.len() - p + (if found { 0int } else { 1int }),
                {
                    if same_limits_exec(&bucket.entries[p], &entry) {
                        found = true;
                    } else {
                        p = p + 1;
                    }
                }
                proof {
                    if found {
                        assert(first_same_limits(ob, entry, p as int));
                        assert forall|q: int| first_same_limits(ob, entry, q) implies q == p by {
                            if q < p {
                                assert(!same_limits(ob[q], entry));
                            } else if q > p {
                                assert(!same_limits(ob[p as int], entry));
                            }
                        }
                    } else {
                        assert forall|q: int| !first_same_limits(ob, entry, q) by {
                            if 0 <= q < ob.len() {
                                assert(!same_limits(ob[q], entry));
                            }
                        }
                    }
                }
                if found {
                    bucket.entries.set(p, entry);
                } else {
                    bucket.entries.push(entry);
                }
                assert(bucket.entries@ == bucket_with(ob, entry));
                self.entries.insert(bi, bucket);
                proof {
                    assert(self.entries@ == old_buckets.update(bi as int, bucket));
                    self.lemma_bucket_update(old_buckets, bi as int);
                    assert(old_buckets[bi as int].entries@ == ob);
                }
            },
            None => {
                let mut es: Vec<CacheEntry> = Vec::new();
                es.push(entry);
                self.entries.push(CacheBucket { key, entries: es });
                proof {
                    let n = old_buckets.len() as int;
                    assert(self.entries@ == old_buckets.push(self.entries@[n]));
                    assert(bucket_of(old_buckets, k) == Seq::<CacheEntry>::empty());
                    assert forall|q: int| !first_same_limits(Seq::<CacheEntry>::empty(), entry, q) by {}
                    assert(bucket_with(Seq::<CacheEntry>::empty(), entry) =~= seq![entry]);
                    assert(self.entries@[n].entries@ =~= seq![entry]);
                    self.lemma_bucket_push(old_buckets);
                }
            },
        }
    }

    proof fn lemma_bucket_update(&self, old_buckets: Seq<CacheBucket>, bi: int)
        requires
            buckets_unique(old_buckets),
            0 <= bi < old_buckets.len(),
            self.buckets().len() == old_buckets.len(),
            self.buckets()[bi].key@ == old_buckets[bi].key@,
            forall|j: int| 0 <= j < old_buckets.len() && j != bi ==> self.buckets()[j] == old_buckets[j],
        ensures
            self.wf(),
            self.bucket(old_buckets[bi].key@) == self.buckets()[bi].entries@,
            forall|k: Seq<char>| k != old_buckets[bi].key@ ==> self.bucket(k) == bucket_of(old_buckets, k),
    {
        let bs = self.buckets();
        assert forall|i: int, j: int|
            0 <= i < bs.len() && 0 <= j < bs.len() && (#[trigger] bs[i]).key@ == (#[trigger] bs[j]).key@ implies i == j by {
            assert(old_buckets[i].key@ == bs[i].key@);
            assert(old_buckets[j].key@ == bs[j].key@);
        }
        let kb = old_buckets[bi].key@;
        let c = choose|i: int| 0 <= i < bs.len() && (#[trigger] bs[i]).key@ == kb;
        assert(bs[bi].key@ == kb);
        assert(c == bi);
        assert forall|k: Seq<char>| k != kb implies self.bucket(k) == bucket_of(old_buckets, k) by {
            if exists|i: int| 0 <= i < old_buckets.len() && (#[trigger] old_buckets[i]).key@ == k {
                let j = choose|i: int| 0 <= i < old_buckets.len() && (#[trigger] old_buckets[i]).key@ == k;
                assert(j != bi);
                assert(bs[j].key@ == k);
                let c2 = choose|i: int| 0 <= i < bs.len() && (#[trigger] bs[i]).key@ == k;
                assert(c2 == j);
            } else {
                assert forall|i: int| 0 <= i < bs.len() implies (#[trigger] bs[i]).key@ != k by {
                    assert(old_buckets[i].key@ == bs[i].key@);
                }
            }
        }
    }

    proof fn lemma_bucket_push(&self, old_buckets: Seq<CacheBucket>)
        requires
            buckets_unique(old_buckets),
            self.buckets().len() == old_buckets.len() + 1,
            forall|j: int| 0 <= j < old_buckets.len() ==> self.buckets()[j] == old_buckets[j],
            forall|j: int| 0 <= j < old_buckets.len() ==> (#[trigger] old_buckets[j]).key@ != self.buckets()[old_buckets.len() as int].key@,
        ensures
            self.wf(),
            self.bucket(self.buckets()[old_buckets.len() as int].key@) == self.buckets()[old_buckets.len() as int].entries@,
            forall|k: Seq<char>| k != self.buckets()[old_buckets.len() as int].key@ ==> self.bucket(k) == bucket_of(old_buckets, k),
    {
        let bs = self.buckets();
        let n = old_buckets.len() as int;
        assert forall|i: int, j: int|
            0 <= i < bs.len() && 0 <= j < bs.len() && (#[trigger] bs[i]).key@ == (#[trigger] bs[j]).key@ implies i == j by {
            if i < n && j < n {
                assert(old_buckets[i].key@ == bs[i].key@);
                assert(old_buckets[j].key@ == bs[j].key@);
            } else if i < n {
                assert(old_buckets[i].key@ != bs[n].key@);
            } else if j < n {
                assert(old_buckets[j].key@ != bs[n].key@);
            }
        }
        let kb = bs[n].key@;
        let c = choose|i: int| 0 <= i < bs.len() && (#[trigger] bs[i]).key@ == kb;
        assert(c == n);
        assert forall|k: Seq<char>| k != kb implies self.bucket(k) == bucket_of(old_buckets, k) by {
            if exists|i: int| 0 <= i < old_buckets.len() && (#[trigger] old_buckets[i]).key@ == k {
                let j = choose|i: int| 0 <= i < old_buckets.len() && (#[trigger] old_buckets[i]).key@ == k;
                assert(bs[j].key@ == k);
                let c2 = choose|i: int| 0 <= i < bs.len() && (#[trigger] bs[i]).key@ == k;
                assert(c2 == j);
            } else {
                assert forall|i: int| 0 <= i < bs.len() implies (#[trigger] bs[i]).key@ != k by {
                    if i < n {
                        assert(old_buckets[i].key@ == bs[i].key@);
                    }
                }
            }
        }
    }
}

} // verus!

verus! {

impl Cache {
    /// Look `group` up, its inputs having the contents `fk`: the first entry
    /// under its fingerprint whose produced files are all in the store and
    /// whose outcome stands for the group's limits is served, its statuses
    /// recategorised under those limits.
    pub fn get(&self, group: &ExecutionGroup, fk: &Vec<(FileUuid, FileStoreKey)>, st: &FileStore) -> (r: CacheResult)
        requires
            self.wf(),
        ensures
            match chosen_entry(self.bucket(key_text(*group, fk@)), *group, *st) {
                Some(e) => hit_of(r, e, *group),
                None => r is Miss,
            },
    {
        let key = group_key(group, fk);
        let slots = output_slots(group);
        match self.find_bucket(&key) {
            None => {
                proof {
                    assert(self.bucket(key@) == Seq::<CacheEntry>::empty());
                }
                CacheResult::Miss
            },
            Some(bi) => {
                let b = &self.entries[bi].entries;
                proof {
                    let c = choose|i: int| 0 <= i < self.buckets().len() && (#[trigger] self.buckets()[i]).key@ == key@;
                    assert(c == bi);
                    assert(self.bucket(key@) == b@);
                }
                let mut i: usize = 0;
                while i < b.len()
                    invariant
                        0 <= i <= b@.len(),
                        slots@ == group_slots(*group),
                        self.bucket(key_text(*group, fk@)) == b@,
                        forall|j: int| 0 <= j < i ==> !entry_ok(#[trigger] b@[j], *group, *st),
                    decreases b@.len() - i,
                {
                    if is_usable(&b[i], group, &slots, st) {
                        proof {
                            assert(first_ok(b@, *group, *st, i as int));
                            assert forall|q: int| first_ok(b@, *group, *st, q) implies q == i by {
                                if q < i {
                                    assert(!entry_ok(b@[q], *group, *st));
                                } else if q > i {
                                    assert(!entry_ok(b@[i as int], *group, *st));
                                }
                            }
                            let c = choose|q: int| first_ok(b@, *group, *st, q);
                            assert(c == i);
                            assert(chosen_entry(b@, *group, *st) == Some(b@[i as int]));
                        }
                        return replay(&b[i], group, &slots);
                    }
                    i = i + 1;
                }
                proof {
                    assert forall|q: int| !first_ok(b@, *group, *st, q) by {
                        if 0 <= q < b@.len() {
                            assert(!entry_ok(b@[q], *group, *st));
                        }
                    }
                }
                CacheResult::Miss
            },
        }
    }

    /// Whether a result may be recorded: anything but an internal error.
    pub fn is_cacheable(result: &ExecutionResult) -> (r: bool)
        ensures
            r == !(result.status is InternalError),
    {
        match result.status {
            ExecutionStatus::InternalError(_) => false,
            _ => true,
        }
    }
}

} // verus!

verus! {

/// Recording the results of a group and then looking the same group up,
/// with the same input contents, serves what was recorded: every produced
/// file comes back with the key it was recorded with, and every result
/// with the recorded outcome. This needs the results to be cacheable, the
/// produced files to be in the store, and no other entry under the same
/// fingerprint (with other limits) to be served first.
pub proof fn law_insert_then_get(
    before: Cache,
    after: Cache,
    g: ExecutionGroup,
    fk: Seq<(FileUuid, FileStoreKey)>,
    results: Seq<ExecutionResult>,
    os: Seq<(FileUuid, FileStoreKey)>,
    st: FileStore,
)
    requires
        exists|e: CacheEntry|
            entry_records(e, g, results, os) && #[trigger] after.bucket(key_text(g, fk))
                == bucket_with(before.bucket(key_text(g, fk)), e),
        results.len() == g.executions@.len(),
        forall|i: int| 0 <= i < results.len() ==> !((#[trigger] results[i]).status is InternalError),
        forall|j: int|
            0 <= j < group_slots(g).len() ==> (#[trigger] lookup_key(os, group_slots(g)[j])) is Some
                && st.holds(lookup_key(os, group_slots(g)[j])->0),
        forall|x: int|
            0 <= x < before.bucket(key_text(g, fk)).len() && !limits_of_group(
                #[trigger] before.bucket(key_text(g, fk))[x],
                g,
            ) ==> !entry_ok(before.bucket(key_text(g, fk))[x], g, st),
    ensures
        chosen_entry(after.bucket(key_text(g, fk)), g, st) is Some,
        entry_records(chosen_entry(after.bucket(key_text(g, fk)), g, st)->0, g, results, os),
{
    let k = key_text(g, fk);
    let e = choose|e: CacheEntry|
        entry_records(e, g, results, os) && #[trigger] after.bucket(k) == bucket_with(before.bucket(k), e);
    let b = before.bucket(k);
    let nb = after.bucket(k);
    assert(entry_compatible(e, g)) by {
        assert forall|i: int| 0 <= i < e.items@.len() implies item_compatible(#[trigger] e.items@[i], g.executions@[i].limits) by {
            assert(same_result(results[i], e.items@[i].result));
            assert(!(results[i].status is InternalError));
        }
    }
    assert(entry_available(e, g, st)) by {
        assert forall|j: int| 0 <= j < e.outputs@.len() implies (#[trigger] e.outputs@[j]) is Some && st.holds(e.outputs@[j]->0@) by {
            assert(opt_key(e.outputs@[j]) == lookup_key(os, group_slots(g)[j]));
            assert(lookup_key(os, group_slots(g)[j]) is Some);
        }
    }
    assert forall|x: int| 0 <= x < b.len() && !same_limits(#[trigger] b[x], e) implies !entry_ok(b[x], g, st) by {
        if limits_of_group(b[x], g) {
            assert(same_limits(b[x], e));
        }
    }
    if exists|p: int| first_same_limits(b, e, p) {
        let p = choose|p: int| first_same_limits(b, e, p);
        assert(nb == b.update(p, e));
        assert(first_ok(nb, g, st, p)) by {
            assert forall|j: int| 0 <= j < p implies !entry_ok(#[trigger] nb[j], g, st) by {
                assert(nb[j] == b[j]);
                assert(!same_limits(b[j], e));
            }
        }
        assert forall|q: int| first_ok(nb, g, st, q) implies q == p by {
            if q < p {
                assert(!entry_ok(nb[q], g, st));
            } else if q > p {
                assert(!entry_ok(nb[p], g, st));
            }
        }
        let c = choose|q: int| first_ok(nb, g, st, q);
        assert(c == p);
    } else {
        let n = b.len() as int;
        assert(nb == b.push(e));
        assert forall|x: int| 0 <= x < b.len() implies !same_limits(#[trigger] b[x], e) by {
            if same_limits(b[x], e) {
                lemma_first_index(b, e, x);
            }
        }
        assert(first_ok(nb, g, st, n)) by {
            assert forall|j: int| 0 <= j < n implies !entry_ok(#[trigger] nb[j], g, st) by {
                assert(nb[j] == b[j]);
                assert(!same_limits(b[j], e));
            }
        }
        assert forall|q: int| first_ok(nb, g, st, q) implies q == n by {
            if q < n {
                assert(!entry_ok(nb[q], g, st));
            }
        }
        let c = choose|q: int| first_ok(nb, g, st, q);
        assert(c == n);
    }
}

/// If some entry has the limits of `e`, a first one does.
proof fn lemma_first_index(b: Seq<CacheEntry>, e: CacheEntry, x: int)
    requires
        0 <= x < b.len(),
        same_limits(b[x], e),
    ensures
        exists|p: int| first_same_limits(b, e, p),
    decreases x,
{
    if forall|j: int| 0 <= j < x ==> !same_limits(#[trigger] b[j], e) {
        assert(first_same_limits(b, e, x));
    } else {
        let y = choose|j: int| 0 <= j < x && !!same_limits(#[trigger] b[j], e);
        lemma_first_index(b, e, y);
    }
}

/// A run that succeeded under some limits, looked up under limits at most
/// as loose, is served from the cache and recategorised from its recorded
/// usage: above the new cpu-time limit it is a time-limit failure.
pub proof fn law_tightened_limit_recategorised(item: CacheEntryItem, l2: ExecutionLimits)
    requires
        item.result.status is Success,
        limits_looser(item.limits, l2),
        l2.cpu_time is Some,
        item.result.resources.cpu_time > l2.cpu_time->0,
    ensures
        item_compatible(item, l2),
        status_of(
            l2,
            exit_of(item.result.status),
            signal_of(item.result.status),
            item.result.resources,
        ) == ExecutionStatus::TimeLimitExceeded,
{
}

/// A run that failed by a limit is not served to a run with a looser limit
/// in that dimension: the new run might succeed.
pub proof fn law_limit_failure_not_reused_when_loosened(item: CacheEntryItem, l2: ExecutionLimits)
    requires
        item.result.status is TimeLimitExceeded,
        !dim_looser(item.limits.cpu_time, l2.cpu_time),
    ensures
        !item_compatible(item, l2),
{
}

} // verus!

verus! {

impl Cache {
    /// A cache holding the saved `buckets`, saved to `cache_file`; `None`
    /// when two buckets have the same fingerprint (the saved file is then
    /// not trusted).
    pub fn from_buckets(cache_file: String, buckets: Vec<CacheBucket>) -> (r: Option<Cache>)
        ensures
            buckets_unique(buckets@) ==> r is Some && r->0.buckets() == buckets@ && r->0.wf() && r->0.file()
                == cache_file@,
            !buckets_unique(buckets@) ==> r is None,
    {
        let n = buckets.len();
        let mut i: usize = 0;
        while i < n
            invariant
                n == buckets@.len(),
                0 <= i <= n,
                forall|a: int, b: int|
                    0 <= a < i && 0 <= b < n && (#[trigger] buckets@[a]).key@ == (#[trigger] buckets@[b]).key@ ==> a == b,
            decreases n - i,
        {
            let mut j: usize = 0;
            while j < n
                invariant
                    n == buckets@.len(),
                    0 <= i < n,
                    0 <= j <= n,
                    forall|a: int, b: int|
                        0 <= a < i && 0 <= b < n && (#[trigger] buckets@[a]).key@ == (#[trigger] buckets@[b]).key@ ==> a == b,
                    forall|b: int| 0 <= b < j && buckets@[i as int].key@ == (#[trigger] buckets@[b]).key@ ==> b == i,
                decreases n - j,
            {
                if j != i && buckets[i].key == buckets[j].key {
                    proof {
                        assert(!buckets_unique(buckets@)) by {
                            assert(buckets@[i as int].key@ == buckets@[j as int].key@);
                        }
                    }
                    return None;
                }
                j = j + 1;
            }
            i = i + 1;
        }
        Some(Cache { entries: buckets, cache_file })
    }
}

} // verus!
