use task_maker_core::cache::{Cache, CacheBucket, CacheResult};
use task_maker_core::dag::{
    Execution, ExecutionGroup, ExecutionLimits, ExecutionResourcesUsage, ExecutionResult,
    ExecutionStatus, ExecutionTag,
};
use task_maker_core::scheduler::{Action, DagError, NodeState, Scheduler};
use task_maker_core::store::{FileStore, FileStoreKey};

fn key_of(content: &str) -> FileStoreKey {
    FileStoreKey::from_content(content.as_bytes())
}

fn group(uuid: u64, exec: Execution) -> ExecutionGroup {
    ExecutionGroup { uuid, description: format!("group {}", uuid), executions: vec![exec], fifo: vec![] }
}

fn result(status: ExecutionStatus, cpu_time: u64) -> ExecutionResult {
    ExecutionResult {
        status,
        was_killed: false,
        was_cached: false,
        resources: ExecutionResourcesUsage { cpu_time, sys_time: 0, wall_time: cpu_time, memory: 100 },
        stdout: None,
        stderr: None,
    }
}

fn with_cpu_limit(mut e: Execution, ms: u64) -> Execution {
    e.limits.cpu_time = Some(ms);
    e
}

fn echo(stdout: u64) -> Execution {
    let mut e = Execution::new(1, "echo".to_string(), "/bin/echo".to_string());
    e.arg("hello".to_string());
    e.stdout = Some(stdout);
    e
}

#[test]
fn limits_order() {
    let mut a = ExecutionLimits::unlimited();
    let mut b = ExecutionLimits::unlimited();
    assert!(a.is_looser_than(&b));
    b.cpu_time = Some(1000);
    assert!(a.is_looser_than(&b));
    assert!(!b.is_looser_than(&a));
    a.cpu_time = Some(2000);
    assert!(a.is_looser_than(&b));
    assert!(!b.is_looser_than(&a));
}

#[test]
fn status_categorisation() {
    let mut l = ExecutionLimits::unlimited();
    l.cpu_time = Some(1500);
    l.memory = Some(1000);
    let r = ExecutionResourcesUsage { cpu_time: 1800, sys_time: 0, wall_time: 1900, memory: 10 };
    assert_eq!(l.status(0, None, &r), ExecutionStatus::TimeLimitExceeded);
    let r2 = ExecutionResourcesUsage { cpu_time: 100, sys_time: 0, wall_time: 100, memory: 2000 };
    assert_eq!(l.status(0, None, &r2), ExecutionStatus::MemoryLimitExceeded);
    let r3 = ExecutionResourcesUsage { cpu_time: 100, sys_time: 0, wall_time: 100, memory: 10 };
    assert_eq!(l.status(1, None, &r3), ExecutionStatus::ReturnCode(1));
    assert_eq!(l.status(0, Some((9, "SIGKILL".to_string())), &r3), ExecutionStatus::Signal(9, "SIGKILL".to_string()));
    assert_eq!(l.status(0, None, &r3), ExecutionStatus::Success);
}

#[test]
fn cache_insert_then_get_round_trip() {
    let mut cache = Cache::new("cache.bin".to_string());
    let mut store = FileStore::new("/s".to_string());
    let out = key_of("hello\n");
    store.touch(&out, 0);
    let g = group(1, echo(10));
    cache.insert(&g, &vec![], &vec![result(ExecutionStatus::Success, 5)], &vec![(10, out.clone())]);
    match cache.get(&g, &vec![], &store) {
        CacheResult::Hit { result, outputs } => {
            assert_eq!(result.len(), 1);
            assert!(result[0].was_cached);
            assert_eq!(result[0].status, ExecutionStatus::Success);
            assert_eq!(outputs.len(), 1);
            assert_eq!(outputs[0].0, 10);
            assert_eq!(outputs[0].1, out);
        }
        CacheResult::Miss => panic!("expected a hit"),
    }
}

#[test]
fn cache_hit_maps_outputs_to_new_file_ids() {
    let mut cache = Cache::new("cache.bin".to_string());
    let mut store = FileStore::new("/s".to_string());
    let out = key_of("hello\n");
    store.touch(&out, 0);
    cache.insert(&group(1, echo(10)), &vec![], &vec![result(ExecutionStatus::Success, 5)], &vec![(10, out.clone())]);
    match cache.get(&group(2, echo(77)), &vec![], &store) {
        CacheResult::Hit { outputs, .. } => assert_eq!(outputs[0].0, 77),
        CacheResult::Miss => panic!("expected a hit"),
    }
}

#[test]
fn cache_miss_when_output_not_in_store() {
    let mut cache = Cache::new("cache.bin".to_string());
    let store = FileStore::new("/s".to_string());
    let g = group(1, echo(10));
    cache.insert(&g, &vec![], &vec![result(ExecutionStatus::Success, 5)], &vec![(10, key_of("x"))]);
    assert!(matches!(cache.get(&g, &vec![], &store), CacheResult::Miss));
}

#[test]
fn cache_miss_on_different_input_content() {
    let mut cache = Cache::new("cache.bin".to_string());
    let store = FileStore::new("/s".to_string());
    let mut e = Execution::new(1, "cat".to_string(), "/bin/cat".to_string());
    e.input(5, "in".to_string(), false, false);
    let g = group(1, e);
    cache.insert(&g, &vec![(5, key_of("42"))], &vec![result(ExecutionStatus::Success, 5)], &vec![]);
    assert!(matches!(cache.get(&g, &vec![(5, key_of("42"))], &store), CacheResult::Hit { .. }));
    assert!(matches!(cache.get(&g, &vec![(5, key_of("43"))], &store), CacheResult::Miss));
}

#[test]
fn cache_limit_tightening_recategorises() {
    let mut cache = Cache::new("cache.bin".to_string());
    let store = FileStore::new("/s".to_string());
    let base = Execution::new(1, "sol".to_string(), "sol".to_string());
    let g2000 = group(1, with_cpu_limit(base.clone(), 2000));
    cache.insert(&g2000, &vec![], &vec![result(ExecutionStatus::Success, 1800)], &vec![]);
    let g1500 = group(1, with_cpu_limit(base, 1500));
    match cache.get(&g1500, &vec![], &store) {
        CacheResult::Hit { result, .. } => {
            assert_eq!(result[0].status, ExecutionStatus::TimeLimitExceeded);
            assert!(result[0].was_cached);
        }
        CacheResult::Miss => panic!("expected a hit"),
    }
}

#[test]
fn cache_limit_failure_not_reused_with_looser_limit() {
    let mut cache = Cache::new("cache.bin".to_string());
    let store = FileStore::new("/s".to_string());
    let base = Execution::new(1, "sleep".to_string(), "/bin/sleep".to_string());
    cache.insert(&group(1, with_cpu_limit(base.clone(), 500)), &vec![], &vec![result(ExecutionStatus::TimeLimitExceeded, 501)], &vec![]);
    assert!(matches!(cache.get(&group(1, with_cpu_limit(base.clone(), 10000)), &vec![], &store), CacheResult::Miss));
    match cache.get(&group(1, with_cpu_limit(base, 400)), &vec![], &store) {
        CacheResult::Hit { result, .. } => assert_eq!(result[0].status, ExecutionStatus::TimeLimitExceeded),
        CacheResult::Miss => panic!("expected a hit"),
    }
}

#[test]
fn cache_insert_replaces_same_limits() {
    let mut cache = Cache::new("cache.bin".to_string());
    let store = FileStore::new("/s".to_string());
    let g = group(1, Execution::new(1, "x".to_string(), "x".to_string()));
    cache.insert(&g, &vec![], &vec![result(ExecutionStatus::ReturnCode(1), 5)], &vec![]);
    cache.insert(&g, &vec![], &vec![result(ExecutionStatus::ReturnCode(2), 5)], &vec![]);
    assert_eq!(cache.buckets_vec().len(), 1);
    assert_eq!(cache.buckets_vec()[0].entries.len(), 1);
    match cache.get(&g, &vec![], &store) {
        CacheResult::Hit { result, .. } => assert_eq!(result[0].status, ExecutionStatus::ReturnCode(2)),
        CacheResult::Miss => panic!("expected a hit"),
    }
}

#[test]
fn internal_errors_are_not_cacheable() {
    assert!(!Cache::is_cacheable(&result(ExecutionStatus::InternalError("boom".to_string()), 0)));
    assert!(Cache::is_cacheable(&result(ExecutionStatus::TimeLimitExceeded, 0)));
}

#[test]
fn empty_dag_is_done_at_once() {
    let s = Scheduler::new(vec![], &vec![]).unwrap();
    assert!(s.is_done());
    assert_eq!(s.status_counts(), (0, 0));
}

#[test]
fn single_execution_runs_and_completes() {
    let mut s = Scheduler::new(vec![group(1, echo(10))], &vec![]).unwrap();
    let mut cache = Cache::new("c".to_string());
    let store = FileStore::new("/s".to_string());
    let w = s.add_worker();
    let actions = s.schedule(&cache, &store);
    assert_eq!(actions.len(), 1);
    assert!(matches!(actions[0], Action::Start { node: 0, worker, announce: true } if worker == w));
    let out = key_of("hello\n");
    let (node, skipped) = s.worker_done(w, &vec![result(ExecutionStatus::Success, 1)], &vec![(10, out.clone())], &mut cache).unwrap();
    assert_eq!(node, 0);
    assert!(skipped.is_empty());
    assert!(s.is_done());
    let (key, ok) = s.file_outcome(10).unwrap();
    assert!(ok);
    assert_eq!(key.unwrap(), out);
}

#[test]
fn cache_hit_never_takes_a_worker() {
    let mut cache = Cache::new("c".to_string());
    let mut store = FileStore::new("/s".to_string());
    let out = key_of("hello\n");
    store.touch(&out, 0);
    cache.insert(&group(1, echo(10)), &vec![], &vec![result(ExecutionStatus::Success, 1)], &vec![(10, out)]);
    let mut s = Scheduler::new(vec![group(1, echo(10))], &vec![]).unwrap();
    let w = s.add_worker();
    let actions = s.schedule(&cache, &store);
    assert_eq!(actions.len(), 1);
    match &actions[0] {
        Action::Cached { node, results, announce } => {
            assert_eq!(*node, 0);
            assert!(*announce);
            assert!(results[0].was_cached);
        }
        _ => panic!("expected a cached completion"),
    }
    assert!(s.workers()[w].job.is_none());
    assert!(s.is_done());
}

fn pipeline() -> Vec<ExecutionGroup> {
    let mut a = Execution::new(1, "A".to_string(), "gen".to_string());
    a.output(100, "f".to_string());
    let mut b = Execution::new(2, "B".to_string(), "/bin/cat".to_string());
    b.arg("in".to_string());
    b.input(100, "in".to_string(), false, false);
    b.stdout = Some(200);
    vec![group(1, a), group(2, b)]
}

#[test]
fn two_stage_pipeline_runs_in_order() {
    let mut s = Scheduler::new(pipeline(), &vec![]).unwrap();
    let mut cache = Cache::new("c".to_string());
    let store = FileStore::new("/s".to_string());
    let w1 = s.add_worker();
    let _w2 = s.add_worker();
    let actions = s.schedule(&cache, &store);
    assert_eq!(actions.len(), 1);
    assert!(matches!(actions[0], Action::Start { node: 0, .. }));
    assert_eq!(s.node_state(1), Some(NodeState::Pending));
    s.worker_done(w1, &vec![result(ExecutionStatus::Success, 1)], &vec![(100, key_of("42"))], &mut cache).unwrap();
    assert!(matches!(s.node_state(1), Some(NodeState::Ready(_, false))));
    let actions = s.schedule(&cache, &store);
    assert!(matches!(actions[0], Action::Start { node: 1, .. }));
}

#[test]
fn second_run_is_served_from_cache() {
    let mut cache = Cache::new("c".to_string());
    let mut store = FileStore::new("/s".to_string());
    let f = key_of("42");
    let o = key_of("42");
    store.touch(&f, 0);
    let mut s = Scheduler::new(pipeline(), &vec![]).unwrap();
    let w = s.add_worker();
    s.schedule(&cache, &store);
    s.worker_done(w, &vec![result(ExecutionStatus::Success, 1)], &vec![(100, f.clone())], &mut cache).unwrap();
    s.schedule(&cache, &store);
    s.worker_done(w, &vec![result(ExecutionStatus::Success, 1)], &vec![(200, o)], &mut cache).unwrap();
    assert!(s.is_done());
    let mut again = Scheduler::new(pipeline(), &vec![]).unwrap();
    again.add_worker();
    let actions = again.schedule(&cache, &store);
    assert_eq!(actions.len(), 2);
    assert!(actions.iter().all(|a| matches!(a, Action::Cached { .. })));
    assert!(again.is_done());
}

#[test]
fn failure_skips_downstream() {
    let mut s = Scheduler::new(pipeline(), &vec![]).unwrap();
    let mut cache = Cache::new("c".to_string());
    let store = FileStore::new("/s".to_string());
    let w = s.add_worker();
    s.schedule(&cache, &store);
    let (_, skipped) = s.worker_done(w, &vec![result(ExecutionStatus::ReturnCode(1), 1)], &vec![(100, key_of(""))], &mut cache).unwrap();
    assert_eq!(skipped, vec![1]);
    assert_eq!(s.node_state(1), Some(NodeState::Skipped));
    assert!(s.is_done());
    assert!(s.schedule(&cache, &store).is_empty());
    let (_, ok) = s.file_outcome(200).unwrap();
    assert!(!ok);
}

#[test]
fn side_input_failure_does_not_skip() {
    let mut a = Execution::new(1, "A".to_string(), "gen".to_string());
    a.output(100, "f".to_string());
    let mut b = Execution::new(2, "B".to_string(), "x".to_string());
    b.input(100, "in".to_string(), false, true);
    let mut s = Scheduler::new(vec![group(1, a), group(2, b)], &vec![]).unwrap();
    let mut cache = Cache::new("c".to_string());
    let store = FileStore::new("/s".to_string());
    let w = s.add_worker();
    s.schedule(&cache, &store);
    s.worker_done(w, &vec![result(ExecutionStatus::ReturnCode(1), 1)], &vec![], &mut cache).unwrap();
    assert!(matches!(s.node_state(1), Some(NodeState::Ready(_, _))));
}

#[test]
fn worker_disconnect_requeues_without_second_announce() {
    let mut s = Scheduler::new(vec![group(1, echo(10))], &vec![]).unwrap();
    let cache = Cache::new("c".to_string());
    let store = FileStore::new("/s".to_string());
    let w1 = s.add_worker();
    s.schedule(&cache, &store);
    assert_eq!(s.worker_disconnected(w1), Some(0));
    assert!(matches!(s.node_state(0), Some(NodeState::Ready(_, true))));
    assert!(s.schedule(&cache, &store).is_empty());
    let w2 = s.add_worker();
    let actions = s.schedule(&cache, &store);
    assert!(matches!(actions[0], Action::Start { node: 0, worker, announce: false } if worker == w2));
}

#[test]
fn work_is_handed_out_by_priority_then_arrival() {
    let mut low = Execution::new(1, "low".to_string(), "x".to_string());
    low.priority = 1;
    let mut high = Execution::new(2, "high".to_string(), "y".to_string());
    high.priority = 5;
    let other = Execution::new(3, "other".to_string(), "z".to_string());
    let mut s = Scheduler::new(vec![group(1, low), group(2, high), group(3, other)], &vec![]).unwrap();
    let cache = Cache::new("c".to_string());
    let store = FileStore::new("/s".to_string());
    s.add_worker();
    let actions = s.schedule(&cache, &store);
    assert_eq!(actions.len(), 1);
    assert!(matches!(actions[0], Action::Start { node: 1, .. }));
    assert_eq!(s.status_counts(), (2, 0));
}

#[test]
fn provided_file_unblocks_consumer() {
    let mut b = Execution::new(2, "B".to_string(), "x".to_string());
    b.input(7, "in".to_string(), false, false);
    let mut s = Scheduler::new(vec![group(2, b)], &vec![7]).unwrap();
    assert_eq!(s.node_state(0), Some(NodeState::Pending));
    assert_eq!(s.status_counts(), (0, 1));
    s.provide_file(7, key_of("data"));
    assert!(matches!(s.node_state(0), Some(NodeState::Ready(_, false))));
}

#[test]
fn dag_with_unknown_input_is_refused() {
    let mut b = Execution::new(2, "B".to_string(), "x".to_string());
    b.input(7, "in".to_string(), false, false);
    assert!(matches!(Scheduler::new(vec![group(2, b)], &vec![]), Err(DagError::MissingFile(7))));
}

#[test]
fn dag_with_duplicate_file_is_refused() {
    let mut a = Execution::new(1, "A".to_string(), "gen".to_string());
    a.output(7, "f".to_string());
    assert!(matches!(Scheduler::new(vec![group(1, a)], &vec![7]), Err(DagError::DuplicateFile(7))));
}

#[test]
fn done_without_job_is_protocol_error() {
    let mut s = Scheduler::new(vec![], &vec![]).unwrap();
    let mut cache = Cache::new("c".to_string());
    let w = s.add_worker();
    assert!(s.worker_done(w, &vec![], &vec![], &mut cache).is_err());
    assert!(!s.workers()[w].connected);
}

#[test]
fn execution_tag_is_kept() {
    let mut e = Execution::new(1, "x".to_string(), "x".to_string());
    e.tag = Some(ExecutionTag { name: "evaluation".to_string() });
    assert_eq!(e.tag.unwrap().name, "evaluation");
}

#[test]
fn saved_cache_with_duplicate_fingerprints_is_refused() {
    let twice = vec![
        CacheBucket { key: "k".to_string(), entries: vec![] },
        CacheBucket { key: "k".to_string(), entries: vec![] },
    ];
    assert!(Cache::from_buckets("c".to_string(), twice).is_none());
    let once = vec![CacheBucket { key: "k".to_string(), entries: vec![] }];
    let cache = Cache::from_buckets("c".to_string(), once).unwrap();
    assert_eq!(cache.buckets_vec().len(), 1);
    assert_eq!(cache.cache_file(), "c");
}

#[test]
fn cache_key_ignores_declaration_order() {
    let mut cache = Cache::new("c".to_string());
    let store = FileStore::new("/s".to_string());
    let mut a = Execution::new(1, "x".to_string(), "x".to_string());
    a.env.push(("A".to_string(), "1".to_string()));
    a.env.push(("B".to_string(), "2".to_string()));
    a.input(5, "one".to_string(), false, false);
    a.input(6, "two".to_string(), true, false);
    let mut b = Execution::new(1, "x".to_string(), "x".to_string());
    b.env.push(("B".to_string(), "2".to_string()));
    b.env.push(("A".to_string(), "1".to_string()));
    b.input(6, "two".to_string(), true, false);
    b.input(5, "one".to_string(), false, false);
    let fk = vec![(5, key_of("1")), (6, key_of("2"))];
    cache.insert(&group(1, a), &fk, &vec![result(ExecutionStatus::Success, 1)], &vec![]);
    assert!(matches!(cache.get(&group(1, b.clone()), &fk, &store), CacheResult::Hit { .. }));
    b.env[0].1 = "3".to_string();
    assert!(matches!(cache.get(&group(1, b), &fk, &store), CacheResult::Miss));
}

#[test]
fn provided_files_in_store_are_not_asked() {
    let mut b = Execution::new(2, "B".to_string(), "x".to_string());
    b.input(7, "a".to_string(), false, false);
    b.input(8, "b".to_string(), false, false);
    let mut s = Scheduler::new(vec![group(2, b)], &vec![7, 8]).unwrap();
    let mut store = FileStore::new("/s".to_string());
    let have = key_of("have");
    store.touch(&have, 0);
    let asks = s.admit_provided(&vec![(7, have), (8, key_of("missing"))], &store);
    assert_eq!(asks, vec![8]);
    assert_eq!(s.node_state(0), Some(NodeState::Pending));
    s.provide_file(8, key_of("missing"));
    assert!(matches!(s.node_state(0), Some(NodeState::Ready(_, false))));
}

fn chain() -> Vec<ExecutionGroup> {
    let mut a = Execution::new(1, "A".to_string(), "gen".to_string());
    a.output(100, "f".to_string());
    let mut b = Execution::new(2, "B".to_string(), "x".to_string());
    b.input(100, "in".to_string(), false, false);
    b.output(200, "g".to_string());
    let mut c = Execution::new(3, "C".to_string(), "y".to_string());
    c.input(200, "in".to_string(), false, false);
    vec![group(1, a), group(2, b), group(3, c)]
}

#[test]
fn skip_propagates_two_levels() {
    let mut s = Scheduler::new(chain(), &vec![]).unwrap();
    let mut cache = Cache::new("c".to_string());
    let store = FileStore::new("/s".to_string());
    let w = s.add_worker();
    s.schedule(&cache, &store);
    let (_, skipped) = s.worker_done(w, &vec![result(ExecutionStatus::ReturnCode(1), 1)], &vec![], &mut cache).unwrap();
    assert_eq!(skipped, vec![1, 2]);
    assert!(s.is_done());
    assert_eq!(s.file_outcome(200).unwrap().1, false);
    assert!(s.schedule(&cache, &store).is_empty());
}

#[test]
fn worker_done_records_keys_and_cache() {
    let mut s = Scheduler::new(chain(), &vec![]).unwrap();
    let mut cache = Cache::new("c".to_string());
    let mut store = FileStore::new("/s".to_string());
    let w = s.add_worker();
    s.schedule(&cache, &store);
    let f = key_of("f");
    s.worker_done(w, &vec![result(ExecutionStatus::Success, 1)], &vec![(100, f.clone())], &mut cache).unwrap();
    assert_eq!(s.file_outcome(100), Some((Some(f.clone()), true)));
    store.touch(&f, 0);
    assert_eq!(cache.buckets_vec().len(), 1);
    let mut again = Scheduler::new(chain(), &vec![]).unwrap();
    again.add_worker();
    let actions = again.schedule(&cache, &store);
    assert!(matches!(actions[0], Action::Cached { node: 0, announce: true, .. }));
    assert!(matches!(actions[1], Action::Start { node: 1, announce: true, .. }));
}

#[test]
fn internal_error_is_not_cached() {
    let mut s = Scheduler::new(vec![group(1, echo(10))], &vec![]).unwrap();
    let mut cache = Cache::new("c".to_string());
    let store = FileStore::new("/s".to_string());
    let w = s.add_worker();
    s.schedule(&cache, &store);
    s.worker_done(w, &vec![result(ExecutionStatus::InternalError("x".to_string()), 1)], &vec![], &mut cache).unwrap();
    assert_eq!(cache.buckets_vec().len(), 0);
}

#[test]
fn admitted_provided_file_keeps_its_key() {
    let mut b = Execution::new(2, "B".to_string(), "x".to_string());
    b.input(7, "a".to_string(), false, false);
    let mut s = Scheduler::new(vec![group(2, b)], &vec![7]).unwrap();
    let mut store = FileStore::new("/s".to_string());
    let have = key_of("have");
    store.touch(&have, 0);
    assert!(s.admit_provided(&vec![(7, have.clone())], &store).is_empty());
    assert_eq!(s.file_outcome(7), Some((Some(have), true)));
}

#[test]
fn stop_kills_running_jobs() {
    let mut s = Scheduler::new(vec![group(1, echo(10)), group(2, echo(11))], &vec![]).unwrap();
    let cache = Cache::new("c".to_string());
    let store = FileStore::new("/s".to_string());
    s.add_worker();
    let w2 = s.add_worker();
    s.add_worker();
    assert!(s.jobs_to_kill().is_empty());
    s.schedule(&cache, &store);
    let kills = s.jobs_to_kill();
    assert_eq!(kills.len(), 2);
    assert_eq!(kills[0].0, 0);
    assert_eq!(kills[1].0, w2);
}
