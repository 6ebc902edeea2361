use codex_par::coordinator::{
    build_barrier, dropped_meta, pending_names, validate_dispatch_deps, validate_dispatch_name,
    write_cancelled_meta, DispatchError, DispatchRequest, NextStep, PendingTask, RunCoordinator,
    RunEvent,
};
use codex_par::names::NameSet;
use codex_par::task::{TaskDef, TaskMeta, TaskRunReport, TaskStatus};
use std::collections::VecDeque;

fn task(name: &str, depends_on: &[&str]) -> TaskDef {
    TaskDef {
        name: name.to_string(),
        cwd: "/work".to_string(),
        prompt: "do it".to_string(),
        depends_on: depends_on.iter().map(|d| d.to_string()).collect(),
        agent_id: None,
        thread_id: None,
        output_schema: None,
        ephemeral: false,
        add_dirs: vec![],
        sandbox: "read-only".to_string(),
        model: None,
        ask_for_approval: "never".to_string(),
        config_overrides: vec![],
        profile: None,
    }
}

fn report(name: &str, status: TaskStatus) -> RunEvent {
    RunEvent::Reported(TaskRunReport {
        name: name.to_string(),
        status,
        error: None,
    })
}

fn names(tasks: &[TaskDef]) -> Vec<&str> {
    tasks.iter().map(|t| t.name.as_str()).collect()
}

fn set(members: &[&str]) -> NameSet {
    let mut set = NameSet::new();
    for name in members {
        set.insert(name.to_string());
    }
    set
}

#[test]
fn validate_name_rejects_duplicate() {
    let accepted = set(&["task_a"]);
    assert!(validate_dispatch_name("task_a", &accepted).is_err());
    assert!(validate_dispatch_name("task_b", &accepted).is_ok());
}

#[test]
fn validate_name_rejects_forward_dep() {
    let accepted = set(&["task_a"]);
    let result = validate_dispatch_deps(&["task_b".to_string()], &accepted);
    assert!(result.is_err());
}

#[test]
fn validate_name_allows_known_dep() {
    let accepted = set(&["task_a"]);
    let result = validate_dispatch_deps(&["task_a".to_string()], &accepted);
    assert!(result.is_ok());
}

#[test]
fn barrier_snapshot_includes_running_and_pending() {
    let running = set(&["r1"]);
    let pending_names = vec!["p1".to_string()];
    let barrier = build_barrier(&running, &pending_names);
    assert!(barrier.contains("r1"));
    assert!(barrier.contains("p1"));
}

#[test]
fn barrier_holds_nothing_else() {
    let barrier = build_barrier(&set(&["r1"]), &["p1".to_string(), "r1".to_string()]);
    assert!(!barrier.contains("q"));
    assert!(barrier.is_subset(&set(&["p1", "r1"])));
    assert!(set(&["p1", "r1"]).is_subset(&barrier));
}

#[test]
fn duplicate_name_is_named_in_the_message() {
    let error = validate_dispatch_name("task_a", &set(&["task_a"])).unwrap_err();
    assert!(matches!(error, DispatchError::DuplicateName(ref name) if name == "task_a"));
    assert_eq!(error.message(), "task name 'task_a' is already in this run");
}

#[test]
fn illegal_names_are_turned_down() {
    let accepted = NameSet::new();
    for name in ["", ".", "..", "a/b", "a b", "ä", "a:b"] {
        let error = validate_dispatch_name(name, &accepted).unwrap_err();
        assert!(matches!(error, DispatchError::IllegalName(ref shown) if shown == name));
    }
    for name in ["a", "...", "A-b_c.9", "-", "_", "0"] {
        assert!(validate_dispatch_name(name, &accepted).is_ok());
    }
    assert_eq!(
        validate_dispatch_name("a/b", &accepted).unwrap_err().message(),
        "invalid task name 'a/b'; use letters, digits, '.', '_' and '-'"
    );
}

#[test]
fn first_unknown_dependency_is_the_one_named() {
    let deps = ["a".to_string(), "x".to_string(), "y".to_string()];
    let error = validate_dispatch_deps(&deps, &set(&["a"])).unwrap_err();
    assert!(matches!(error, DispatchError::UnknownDependency(ref name) if name == "x"));
    assert_eq!(
        error.message(),
        "depends_on references unknown task 'x'; only already-accepted tasks are allowed"
    );
    assert!(validate_dispatch_deps(&[], &NameSet::new()).is_ok());
}

#[test]
fn pending_task_waits_for_barrier_and_dependencies() {
    let waiting = PendingTask {
        def: task("c", &["a"]),
        barrier: set(&["b"]),
    };
    assert!(!waiting.is_unblocked(&set(&["a"])));
    assert!(!waiting.is_unblocked(&set(&["b"])));
    assert!(waiting.is_unblocked(&set(&["a", "b"])));
    assert!(waiting.is_unblocked(&set(&["z", "a", "b"])));
}

#[test]
fn pending_names_keep_queue_order() {
    let mut queue = VecDeque::new();
    for name in ["z", "a", "m"] {
        queue.push_back(PendingTask {
            def: task(name, &[]),
            barrier: NameSet::new(),
        });
    }
    assert_eq!(pending_names(&queue), vec!["z", "a", "m"]);
}

#[test]
fn initial_tasks_start_as_their_dependencies_complete() {
    let mut run = RunCoordinator::start("/run");
    run.accept_initial(vec![task("c", &["a", "b"]), task("a", &[]), task("b", &[])]);
    assert!(run.has_room());
    assert_eq!(names(&run.spawn_ready_tasks(false)), vec!["a", "b"]);
    assert_eq!(
        run.next_step(),
        NextStep::Wait { for_worker: true, for_request: true }
    );
    run.handle(report("a", TaskStatus::Done));
    assert!(run.spawn_ready_tasks(false).is_empty());
    run.handle(report("b", TaskStatus::Done));
    assert_eq!(names(&run.spawn_ready_tasks(false)), vec!["c"]);
    let reaction = run.handle(RunEvent::Dispatched(DispatchRequest::Seal));
    assert!(reaction.close_dispatch);
    assert!(!reaction.cancel_run);
    assert_eq!(
        run.next_step(),
        NextStep::Wait { for_worker: true, for_request: false }
    );
    run.handle(report("c", TaskStatus::Done));
    assert!(run.spawn_ready_tasks(false).is_empty());
    assert_eq!(run.next_step(), NextStep::Finish(true));
}

#[test]
fn empty_run_stays_open_until_sealed() {
    let mut run = RunCoordinator::start("/run");
    run.accept_initial(vec![]);
    assert!(run.spawn_ready_tasks(false).is_empty());
    assert_eq!(
        run.next_step(),
        NextStep::Wait { for_worker: false, for_request: true }
    );
    let reaction = run.handle(RunEvent::DispatchClosed);
    assert!(reaction.close_dispatch);
    assert_eq!(run.next_step(), NextStep::Finish(true));
}

#[test]
fn requests_sent_before_the_senders_left_are_drained() {
    let mut run = RunCoordinator::start("/run");
    run.accept_initial(vec![]);
    assert!(run.spawn_ready_tasks(false).is_empty());
    // The senders are gone, and one request still waits to be taken.
    assert_eq!(
        run.next_step(),
        NextStep::Wait { for_worker: false, for_request: true }
    );
    run.handle(RunEvent::Dispatched(DispatchRequest::Task(task("a", &[]))));
    assert_eq!(names(&run.spawn_ready_tasks(false)), vec!["a"]);
    run.handle(report("a", TaskStatus::Done));
    assert!(run.spawn_ready_tasks(false).is_empty());
    assert_eq!(
        run.next_step(),
        NextStep::Wait { for_worker: false, for_request: true }
    );
    run.handle(RunEvent::DispatchClosed);
    assert_eq!(run.next_step(), NextStep::Finish(true));
}

#[test]
fn requests_taken_after_the_last_worker_still_run() {
    let mut run = RunCoordinator::start("/run");
    run.accept_initial(vec![task("a", &[])]);
    assert_eq!(names(&run.spawn_ready_tasks(false)), vec!["a"]);
    run.handle(report("a", TaskStatus::Done));
    assert!(run.spawn_ready_tasks(false).is_empty());
    assert_eq!(
        run.next_step(),
        NextStep::Wait { for_worker: false, for_request: true }
    );
    run.handle(RunEvent::Dispatched(DispatchRequest::Task(task("b", &["a"]))));
    assert_eq!(names(&run.spawn_ready_tasks(false)), vec!["b"]);
    run.handle(RunEvent::DispatchClosed);
    assert_eq!(
        run.next_step(),
        NextStep::Wait { for_worker: true, for_request: false }
    );
    run.handle(report("b", TaskStatus::Done));
    assert_eq!(run.next_step(), NextStep::Finish(true));
}

#[test]
fn started_tasks_carry_all_that_they_were_given() {
    let mut def = task("a", &[]);
    def.output_schema = Some("schema.json".to_string());
    def.ephemeral = true;
    def.add_dirs = vec!["/extra".to_string()];
    let mut run = RunCoordinator::start("/run");
    run.handle(RunEvent::Dispatched(DispatchRequest::Task(def)));
    let started = run.spawn_ready_tasks(false);
    assert_eq!(started[0].output_schema.as_deref(), Some("schema.json"));
    assert!(started[0].ephemeral);
    assert_eq!(started[0].add_dirs, vec!["/extra"]);
}

#[test]
fn dispatched_task_without_dependencies_waits_for_all_before_it() {
    let mut run = RunCoordinator::start("/run");
    run.accept_initial(vec![task("a", &[]), task("b", &["a"])]);
    assert_eq!(names(&run.spawn_ready_tasks(false)), vec!["a"]);
    run.handle(RunEvent::Dispatched(DispatchRequest::Task(task("late", &[]))));
    assert!(run.spawn_ready_tasks(false).is_empty());
    run.handle(report("a", TaskStatus::Done));
    assert_eq!(names(&run.spawn_ready_tasks(false)), vec!["b"]);
    run.handle(report("b", TaskStatus::Done));
    assert_eq!(names(&run.spawn_ready_tasks(false)), vec!["late"]);
}

#[test]
fn dispatched_task_with_dependencies_waits_for_these_alone() {
    let mut run = RunCoordinator::start("/run");
    run.accept_initial(vec![task("a", &[]), task("b", &[])]);
    assert_eq!(names(&run.spawn_ready_tasks(false)), vec!["a", "b"]);
    run.handle(RunEvent::Dispatched(DispatchRequest::Task(task("after_a", &["a"]))));
    run.handle(report("a", TaskStatus::Done));
    assert_eq!(names(&run.spawn_ready_tasks(false)), vec!["after_a"]);
}

#[test]
fn dispatched_wave_waits_for_all_before_it() {
    let mut run = RunCoordinator::start("/run");
    run.accept_initial(vec![task("a", &[])]);
    assert_eq!(names(&run.spawn_ready_tasks(false)), vec!["a"]);
    run.handle(RunEvent::Dispatched(DispatchRequest::Wave(vec![
        task("y", &["x"]),
        task("x", &[]),
        task("w", &[]),
    ])));
    assert!(run.spawn_ready_tasks(false).is_empty());
    run.handle(report("a", TaskStatus::Done));
    assert_eq!(names(&run.spawn_ready_tasks(false)), vec!["x", "w"]);
    run.handle(report("x", TaskStatus::Done));
    assert_eq!(names(&run.spawn_ready_tasks(false)), vec!["y"]);
}

#[test]
fn failure_asks_for_cancellation_and_a_bad_verdict() {
    let mut run = RunCoordinator::start("/run");
    run.accept_initial(vec![task("a", &[]), task("b", &[]), task("c", &["a"])]);
    assert_eq!(names(&run.spawn_ready_tasks(false)), vec!["a", "b"]);
    let reaction = run.handle(report("a", TaskStatus::Failed));
    assert!(reaction.cancel_run);
    assert!(!reaction.close_dispatch);
    assert!(reaction.dropped.is_empty());
    assert!(run.spawn_ready_tasks(true).is_empty());
    let reaction = run.handle(RunEvent::Cancelled);
    assert!(reaction.close_dispatch);
    assert!(!reaction.cancel_run);
    assert_eq!(names(&reaction.dropped), vec!["c"]);
    assert_eq!(
        run.next_step(),
        NextStep::Wait { for_worker: true, for_request: false }
    );
    let reaction = run.handle(report("b", TaskStatus::Cancelled));
    assert!(!reaction.cancel_run);
    assert_eq!(run.next_step(), NextStep::Finish(false));
}

#[test]
fn crash_counts_as_failure() {
    let mut run = RunCoordinator::start("/run");
    run.accept_initial(vec![task("a", &[])]);
    run.spawn_ready_tasks(false);
    let reaction = run.handle(RunEvent::Crashed);
    assert!(reaction.cancel_run);
    assert_eq!(
        run.next_step(),
        NextStep::Wait { for_worker: false, for_request: true }
    );
    run.handle(RunEvent::DispatchClosed);
    assert_eq!(run.next_step(), NextStep::Finish(false));
}

#[test]
fn cancelled_task_spoils_the_verdict_without_stopping_the_run() {
    let mut run = RunCoordinator::start("/run");
    run.accept_initial(vec![task("a", &[]), task("b", &["a"])]);
    run.spawn_ready_tasks(false);
    assert!(!run.handle(report("a", TaskStatus::Cancelled)).cancel_run);
    assert_eq!(names(&run.spawn_ready_tasks(false)), vec!["b"]);
    run.handle(report("b", TaskStatus::Done));
    run.handle(RunEvent::DispatchClosed);
    assert_eq!(run.next_step(), NextStep::Finish(false));
}

#[test]
fn waking_up_to_no_worker_changes_nothing() {
    let mut run = RunCoordinator::start("/run");
    run.accept_initial(vec![task("a", &[])]);
    let reaction = run.handle(RunEvent::NoWorker);
    assert!(!reaction.cancel_run && !reaction.close_dispatch && reaction.dropped.is_empty());
    assert_eq!(names(&run.spawn_ready_tasks(false)), vec!["a"]);
}

#[test]
fn cancelled_run_starts_nothing() {
    let mut run = RunCoordinator::start("/run");
    run.accept_initial(vec![task("a", &[]), task("b", &[])]);
    assert!(run.spawn_ready_tasks(true).is_empty());
    assert_eq!(names(&run.spawn_ready_tasks(false)), vec!["a", "b"]);
}

#[test]
fn circular_tasks_stay_queued() {
    let mut run = RunCoordinator::start("/run");
    run.accept_initial(vec![task("a", &["b"]), task("b", &["a"]), task("c", &[])]);
    assert_eq!(names(&run.spawn_ready_tasks(false)), vec!["c"]);
    run.handle(report("c", TaskStatus::Done));
    assert!(run.spawn_ready_tasks(false).is_empty());
    assert_eq!(
        run.next_step(),
        NextStep::Wait { for_worker: false, for_request: true }
    );
}

#[test]
fn sealed_run_takes_one_report_per_task() {
    let mut run = RunCoordinator::start("/run");
    run.accept_initial(vec![
        task("d", &["b", "c"]),
        task("b", &["a"]),
        task("c", &["a"]),
        task("a", &[]),
    ]);
    run.handle(RunEvent::Dispatched(DispatchRequest::Seal));
    let mut running: Vec<String> = vec![];
    let mut order: Vec<String> = vec![];
    let mut turns = 0;
    loop {
        running.extend(run.spawn_ready_tasks(false).into_iter().map(|t| t.name));
        match run.next_step() {
            NextStep::Finish(ok) => {
                assert!(ok);
                break;
            }
            NextStep::Wait { for_worker, for_request } => {
                assert!(for_worker);
                assert!(!for_request);
            }
        }
        let name = running.pop().unwrap();
        run.handle(report(&name, TaskStatus::Done));
        order.push(name);
        turns += 1;
    }
    assert_eq!(turns, 4);
    assert_eq!(order, vec!["a", "c", "b", "d"]);
}

#[test]
fn log_dir_is_in_the_run_dir() {
    assert_eq!(RunCoordinator::start("/run").log_dir(), "/run/logs");
    assert_eq!(RunCoordinator::start("").log_dir(), "logs");
}

#[test]
fn cancelled_record_fills_in_labels() {
    let mut def = task("t", &[]);
    def.agent_id = Some("agent".to_string());
    let meta = write_cancelled_meta(None, &def, "why");
    assert_eq!(meta.name, "t");
    assert_eq!(meta.cwd, "/work");
    assert_eq!(meta.prompt, "do it");
    assert_eq!(meta.agent_id, "agent");
    assert_eq!(meta.thread_id, "t");
    assert_eq!(meta.wave, None);
    assert_eq!(meta.other, "");
    assert_eq!(meta.status, TaskStatus::Cancelled);
    assert_eq!(meta.error.as_deref(), Some("why"));
}

#[test]
fn cancelled_record_keeps_what_was_recorded() {
    let mut recorded = TaskMeta::new("t", "/there", "old");
    recorded.agent_id = "known".to_string();
    recorded.wave = Some(2);
    recorded.other = "{\"start_time\":\"2026-03-08T10:00:00Z\"}".to_string();
    let mut def = task("t", &[]);
    def.agent_id = Some("agent".to_string());
    def.thread_id = Some("thread".to_string());
    let meta = dropped_meta(Some(recorded), &def);
    assert_eq!(meta.cwd, "/there");
    assert_eq!(meta.prompt, "old");
    assert_eq!(meta.agent_id, "known");
    assert_eq!(meta.thread_id, "thread");
    assert_eq!(meta.wave, Some(2));
    assert_eq!(meta.other, "{\"start_time\":\"2026-03-08T10:00:00Z\"}");
    assert_eq!(meta.status, TaskStatus::Cancelled);
    assert_eq!(meta.error.as_deref(), Some("run cancelled before task started"));
}

#[test]
fn cancelled_record_ends_now() {
    let before = chrono::Local::now();
    let meta = write_cancelled_meta(None, &task("t", &[]), "why");
    let after = chrono::Local::now();
    let end = chrono::DateTime::parse_from_rfc3339(&meta.end_time.unwrap()).unwrap();
    assert!(before <= end && end <= after);
}
