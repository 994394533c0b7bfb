use std::sync::Arc;

use task_maker_core::batch::{
    generator_args_for_testcase, patch_dag, testcase_of_description_exec, testcase_of_file_exec, Batch,
    PatchError, TestcaseData,
};
use task_maker_core::booklet::{Booklet, BookletConfig, Statement};
use task_maker_core::checks::{CheckFailure, CompilationStatus, TestInterfaceSuccessful, UIState};
use task_maker_core::client::{append_capped, should_write, ClientSession};
use task_maker_core::dag::{
    ExecutionLimits, ExecutionResourcesUsage, ExecutionStatus, EvaluationData, Execution, ExecutionDag, ExecutionGroup, ExecutionTag, FileCallbacks, WriteToCallback,
};
use task_maker_core::rpc::{Address, Connector};
use task_maker_core::store::{FileStore, FileStoreKey};
use task_maker_core::terry::CaseStatus;
use task_maker_core::worker::{
    dependency_keys, execution_result, kills_current_job, output_key, sandboxes_to_kill, DependencyWait, SandboxOutcome,
    WorkerError,
};

#[test]
fn generator_args_replace_placeholder() {
    let args = vec!["a".to_string(), "{}".to_string(), "{}x".to_string()];
    assert_eq!(generator_args_for_testcase(&args, 42), vec!["a", "42", "{}x"]);
    assert_eq!(generator_args_for_testcase(&args, 0)[1], "0");
    assert_eq!(generator_args_for_testcase(&args, 4294967295)[1], "4294967295");
}

#[test]
fn testcase_ids_from_names() {
    assert_eq!(testcase_of_file_exec("input12.txt"), Some(12));
    assert_eq!(testcase_of_file_exec("output3.txt"), Some(3));
    assert_eq!(testcase_of_file_exec("input.txt"), None);
    assert_eq!(testcase_of_file_exec("foo"), None);
    assert_eq!(testcase_of_file_exec("input99999999999.txt"), None);
    assert_eq!(testcase_of_description_exec("Evaluation of sol.cpp on testcase 7, subtask 1"), Some(7));
    assert_eq!(testcase_of_description_exec("Checking testcase x, y"), None);
}

fn data(seed: u32) -> TestcaseData {
    TestcaseData {
        generator_args: vec![],
        seed,
        input_path: format!("/work/testcase-{}/input.txt", seed),
        output_path: format!("/work/testcase-{}/output.txt", seed),
        correct_output_path: format!("/work/testcase-{}/correct_output.txt", seed),
    }
}

fn tagged(uuid: u64, name: &str, description: &str, stdout: Option<u64>) -> Execution {
    let mut e = Execution::new(uuid, description.to_string(), "x".to_string());
    e.tag = Some(ExecutionTag { name: name.to_string() });
    e.stdout = stdout;
    e
}

fn evaluation(callback_dest: &str) -> EvaluationData {
    let eval_exec = tagged(1, "evaluation", "Evaluation of sol on testcase 0, subtask 0", Some(50));
    let check_exec = tagged(2, "checking", "Checking sol on testcase 0, subtask 0", None);
    let groups = vec![
        ExecutionGroup { uuid: 1, description: "e".to_string(), executions: vec![eval_exec], fifo: vec![] },
        ExecutionGroup { uuid: 2, description: "c".to_string(), executions: vec![check_exec], fifo: vec![] },
    ];
    let cb = FileCallbacks {
        write_to: Some(WriteToCallback { dest: callback_dest.to_string(), executable: false, allow_failure: false }),
        get_content: None,
    };
    EvaluationData { task_root: "/task".to_string(), dag: ExecutionDag { groups, file_callbacks: vec![(9, cb)] } }
}

#[test]
fn patch_dag_redirects_and_reprioritises() {
    let batch = Batch { testcases: vec![(0, data(0))] };
    let mut eval = evaluation("/task/input/input0.txt");
    assert_eq!(patch_dag(&mut eval, 1, &batch, 1000), Ok(()));
    let w = eval.dag.file_callbacks[0].1.write_to.clone().unwrap();
    assert_eq!(w.dest, "/work/testcase-0/input.txt");
    assert!(w.allow_failure);
    assert_eq!(eval.dag.groups[0].executions[0].priority, 1001);
    assert_eq!(eval.dag.groups[1].executions[0].priority, 1001);
    let out = eval.dag.file_callbacks.iter().find(|(u, _)| *u == 50).unwrap();
    assert_eq!(out.1.write_to.clone().unwrap().dest, "/work/testcase-0/output.txt");
}

#[test]
fn patch_dag_keeps_other_files() {
    let batch = Batch { testcases: vec![(0, data(0))] };
    let mut eval = evaluation("/task/statement/booklet.pdf");
    assert_eq!(patch_dag(&mut eval, 1, &batch, 10), Ok(()));
    let w = eval.dag.file_callbacks[0].1.write_to.clone().unwrap();
    assert_eq!(w.dest, "/task/statement/booklet.pdf");
    assert!(!w.allow_failure);
}

#[test]
fn patch_dag_errors() {
    let batch = Batch { testcases: vec![(0, data(0))] };
    let mut outside = evaluation("/elsewhere/input/input0.txt");
    assert_eq!(patch_dag(&mut outside, 1, &batch, 10), Err(PatchError::OutsideTask("/elsewhere/input/input0.txt".to_string())));
    let mut unknown = evaluation("/task/output/output5.txt");
    assert_eq!(patch_dag(&mut unknown, 1, &batch, 10), Err(PatchError::NotInBatch(5)));
    let mut count = evaluation("/task/input/input0.txt");
    assert_eq!(patch_dag(&mut count, 2, &batch, 10), Err(PatchError::WrongCount { expected: 4, found: 2 }));
}

#[test]
fn client_write_decision_and_capture() {
    assert!(should_write(true, false, false));
    assert!(!should_write(false, false, false));
    assert!(should_write(false, true, false));
    assert!(!should_write(true, true, true));
    let mut buf = vec![1u8, 2];
    append_capped(&mut buf, &vec![3, 4, 5, 6], 4);
    assert_eq!(buf, vec![1, 2, 3, 4]);
    append_capped(&mut buf, &vec![7], 4);
    assert_eq!(buf, vec![1, 2, 3, 4]);
}

#[test]
fn client_session_waits_for_missing_files() {
    let mut s = ClientSession::new();
    assert!(s.running());
    s.file_received();
    assert!(s.running());
    let asks = s.evaluation_done(&vec![true, false, false]);
    assert_eq!(asks, vec![1, 2]);
    assert!(s.running());
    s.file_received();
    s.file_received();
    assert!(!s.running());
}

#[test]
fn worker_asks_each_missing_key_once() {
    let mut store = FileStore::new("/w".to_string());
    let have = FileStoreKey::from_content(b"have");
    let need = FileStoreKey::from_content(b"need");
    store.touch(&have, 0);
    let deps = vec![(1, have.clone()), (2, need.clone()), (3, need.clone())];
    let (mut wait, asks) = DependencyWait::new(&deps, &store);
    assert_eq!(asks, vec![need.clone()]);
    assert_eq!(wait.ready().len(), 1);
    assert!(!wait.is_ready());
    assert_eq!(wait.file_arrived(&have), Err(WorkerError::NotRequired));
    assert_eq!(wait.file_arrived(&need), Ok(()));
    assert!(wait.is_ready());
}

#[test]
fn failed_sandbox_stops_the_others() {
    assert_eq!(sandboxes_to_kill(&vec![false, false, true], 0, false), vec![false, true, false]);
    assert_eq!(sandboxes_to_kill(&vec![false, false], 0, true), vec![false, false]);
}

#[test]
fn booklet_template_values() {
    let mut config = BookletConfig::default();
    config.language = "english".to_string();
    config.show_summary = true;
    config.location = Some("Rome".to_string());
    let mut booklet = Booklet::new(config, "dest.pdf".to_string());
    booklet.add_statement(Statement { name: "a".to_string(), packages: vec!["x".to_string(), "y".to_string()] });
    booklet.add_statement(Statement { name: "b".to_string(), packages: vec!["x".to_string()] });
    let t = booklet.make_tex();
    assert_eq!(t.language, "english");
    assert_eq!(t.show_summary, "showsummary");
    assert_eq!(t.show_solutions, "");
    assert_eq!(t.location, "Rome");
    assert_eq!(t.date, "");
    assert_eq!(t.packages, "x\ny");
    assert_eq!(t.tasks, "\\input{a/statement.tex}\n\\input{b/statement.tex}");
    assert_eq!(Booklet::bool_to_tpl_string(false, "z"), "");
}

#[test]
fn addresses_on_the_wire() {
    let c = Connector {};
    let local: Address<u8> = Address::Local(Arc::new(3));
    assert_eq!(c.uuid_of(&local), (0, 0));
    let remote: Address<u8> = Address::Remote { connector: Arc::new(Connector {}), remote_id: 4, object_id: 9 };
    assert_eq!(c.uuid_of(&remote), (4, 9));
    assert_eq!(CaseStatus::Parsed.name(), "parsed");
}

#[test]
fn compilation_checks() {
    let state = UIState {
        memory_limit: Some(256),
        compilations: vec![
            ("/task/sol/ok.cpp".to_string(), CompilationStatus::Done),
            ("/task/sol/bad.cpp".to_string(), CompilationStatus::Failed),
        ],
    };
    let t = TestInterfaceSuccessful { state };
    let t = t.memory_limit(256).unwrap();
    let t = t.must_compile("ok.cpp".to_string()).unwrap();
    let t = t.must_not_compile("bad.cpp".to_string()).unwrap();
    let t = t.not_compiled("other.cpp".to_string()).unwrap();
    assert!(matches!(t.clone().must_compile("bad.cpp".to_string()), Err(CheckFailure::WrongCompilation(_, CompilationStatus::Failed))));
    assert!(matches!(t.clone().must_compile("none.cpp".to_string()), Err(CheckFailure::CompilationMissing(_))));
    assert!(matches!(t.memory_limit(1), Err(CheckFailure::WrongMemoryLimit(Some(256)))));
}

#[test]
fn evaluation_done_lists_each_missing_once_in_order() {
    let mut s = ClientSession::new();
    assert_eq!(s.evaluation_done(&vec![false, true, false, false]), vec![0, 2, 3]);
    assert_eq!(s.missing_files, Some(3));
}

#[test]
fn dependency_keys_and_kill_decision() {
    let k = FileStoreKey::from_content(b"k");
    let keys = vec![(1, k.clone())];
    let v = dependency_keys(&vec![1, 1], &keys).unwrap();
    assert_eq!(v.len(), 2);
    assert_eq!(v[1].1, k);
    assert_eq!(dependency_keys(&vec![1, 2], &keys).unwrap_err(), WorkerError::MissingDependencyKey(2));
    assert!(kills_current_job(Some(3), 3));
    assert!(!kills_current_job(Some(3), 4));
    assert!(!kills_current_job(None, 3));
}

#[test]
fn nothing_asked_when_all_local() {
    let mut store = FileStore::new("/w".to_string());
    let have = FileStoreKey::from_content(b"have");
    store.touch(&have, 0);
    let (wait, asks) = DependencyWait::new(&vec![(1, have.clone()), (2, have)], &store);
    assert!(asks.is_empty());
    assert!(wait.is_ready());
}

#[test]
fn sandbox_outcomes_become_results() {
    let mut limits = ExecutionLimits::unlimited();
    limits.cpu_time = Some(1000);
    let res = ExecutionResourcesUsage { cpu_time: 1500, sys_time: 0, wall_time: 1600, memory: 5 };
    let r = execution_result(&limits, SandboxOutcome::Success { exit_status: 0, signal: None, resources: res, was_killed: true }, Some(b"out".to_vec()), None);
    assert_eq!(r.status, ExecutionStatus::TimeLimitExceeded);
    assert!(r.was_killed && !r.was_cached);
    assert_eq!(r.stdout, Some(b"out".to_vec()));
    let f = execution_result(&limits, SandboxOutcome::Failed { error: "boom".to_string() }, Some(vec![1]), None);
    assert_eq!(f.status, ExecutionStatus::InternalError("boom".to_string()));
    assert_eq!(f.stdout, None);
    assert_eq!(output_key(None), FileStoreKey::from_content(b""));
    let k = FileStoreKey::from_content(b"x");
    assert_eq!(output_key(Some(k.clone())), k);
}

#[test]
fn patch_dag_needs_testcase_of_evaluation() {
    let batch = Batch { testcases: vec![(0, data(0))] };
    let mut eval = evaluation("/task/input/input0.txt");
    eval.dag.groups[0].executions[0].description = "Evaluation of sol".to_string();
    assert_eq!(patch_dag(&mut eval, 1, &batch, 10), Err(PatchError::NoTestcaseId("Evaluation of sol".to_string())));
}
