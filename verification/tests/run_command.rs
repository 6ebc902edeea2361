use codex_par::commands::run::{
    announce, collect_reports, meta_path, pending_metas, summarize, total_tasks,
};
use codex_par::task::{TaskDef, TaskMeta, TaskRunReport, TaskStatus};
use codex_par::text::decimal_text;

fn task(name: &str) -> TaskDef {
    TaskDef {
        name: name.to_string(),
        cwd: format!("/work/{}", name),
        prompt: format!("do {}", name),
        depends_on: vec![],
        agent_id: None,
        thread_id: None,
        output_schema: None,
        ephemeral: false,
        add_dirs: vec![],
        sandbox: "read-only".to_string(),
        model: None,
        ask_for_approval: "never".to_string(),
        config_overrides: vec![],
        profile: None,
    }
}

#[test]
fn tasks_of_all_waves_are_counted() {
    assert_eq!(total_tasks(&vec![]), Some(0));
    assert_eq!(
        total_tasks(&vec![vec![task("a"), task("b")], vec![], vec![task("c")]]),
        Some(3)
    );
}

#[test]
fn every_task_is_recorded_as_waiting() {
    let metas = pending_metas(&vec![vec![task("a"), task("b")], vec![task("c")]]);
    let seen: Vec<(&str, Option<u32>)> =
        metas.iter().map(|m| (m.name.as_str(), m.wave)).collect();
    assert_eq!(seen, vec![("a", Some(0)), ("b", Some(0)), ("c", Some(1))]);
    for meta in &metas {
        assert_eq!(meta.status, TaskStatus::Pending);
        assert_eq!(meta.cwd, format!("/work/{}", meta.name));
        assert_eq!(meta.prompt, format!("do {}", meta.name));
        assert_eq!(meta.agent_id, "");
        assert_eq!(meta.thread_id, "");
        assert!(meta.error.is_none());
        assert!(meta.end_time.is_none());
    }
}

#[test]
fn records_are_files_in_the_log_directory() {
    assert_eq!(meta_path("/run/logs", "build"), "/run/logs/build.meta.json");
    assert_eq!(meta_path("", "build"), "build.meta.json");
    assert_eq!(meta_path("/run/logs", "/abs"), "/abs.meta.json");
}

#[test]
fn waves_are_announced() {
    assert_eq!(
        announce(&vec![vec![task("a"), task("b")], vec![task("c")]], 3),
        "Launching 3 tasks in 2 wave(s)...\n\n\
         -- Wave 0 (2 tasks, parallel) --\n\
         -- Wave 1 (1 task, parallel) --\n\n"
    );
}

#[test]
fn nothing_is_announced_of_no_waves() {
    assert_eq!(announce(&vec![], 0), "Launching 0 tasks in 0 wave(s)...\n\n");
}

#[test]
fn reports_come_from_the_records_in_order() {
    let mut done = TaskMeta::new("renamed", "/", "p");
    done.status = TaskStatus::Done;
    let mut failed = TaskMeta::new("c", "/", "p");
    failed.status = TaskStatus::Failed;
    failed.error = Some("exit 1".to_string());
    let reports = collect_reports(
        &vec![vec![task("a"), task("b")], vec![task("c")]],
        &vec![Ok(done), Err("no such file".to_string()), Ok(failed)],
    );
    assert_eq!(reports.len(), 3);
    assert_eq!(reports[0].name, "renamed");
    assert_eq!(reports[0].status, TaskStatus::Done);
    assert_eq!(reports[0].error, None);
    assert_eq!(reports[1].name, "b");
    assert_eq!(reports[1].status, TaskStatus::Failed);
    assert_eq!(
        reports[1].error.as_deref(),
        Some("failed to read task meta: no such file")
    );
    assert_eq!(reports[2].name, "c");
    assert_eq!(reports[2].status, TaskStatus::Failed);
    assert_eq!(reports[2].error.as_deref(), Some("exit 1"));
}

#[test]
fn summary_shows_every_report() {
    let report = |name: &str, status: TaskStatus, error: Option<&str>| TaskRunReport {
        name: name.to_string(),
        status,
        error: error.map(|e| e.to_string()),
    };
    let printed = summarize(
        &vec![
            report("a", TaskStatus::Done, None),
            report("b", TaskStatus::Failed, Some("exit 1")),
            report("c", TaskStatus::Cancelled, Some("skipped")),
            report("d", TaskStatus::Running, None),
            report("e", TaskStatus::Pending, None),
        ],
        5,
        "out",
    );
    let rule = "=".repeat(50);
    assert_eq!(
        printed,
        format!(
            "\n{}\n  SUMMARY (5 tasks)\n{}\n{}{}{}{}{}\n  Results: out/outputs/*.md\n",
            rule,
            rule,
            "  \x1b[32m✓\x1b[0m a\n",
            "  \x1b[31m✗\x1b[0m b  -- exit 1\n",
            "  \x1b[35m⊘\x1b[0m c  -- skipped\n",
            "  ? d\n",
            "  ? e\n",
        )
    );
}

#[test]
fn summary_of_nothing() {
    let rule = "=".repeat(50);
    assert_eq!(
        summarize(&vec![], 0, "."),
        format!("\n{}\n  SUMMARY (0 tasks)\n{}\n\n  Results: ./outputs/*.md\n", rule, rule)
    );
}

#[test]
fn decimals_are_exact() {
    for n in [0, 1, 9, 10, 42, 100, 65535, 4294967295] {
        assert_eq!(decimal_text(n), format!("{}", n));
    }
    assert_eq!(decimal_text(usize::MAX), format!("{}", usize::MAX));
}
