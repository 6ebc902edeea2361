use codex_par::config::{circular_message, ConfigError, TasksConfig};
use codex_par::task::TaskDef;

fn task(name: &str, depends_on: Vec<&str>) -> TaskDef {
    TaskDef {
        name: name.to_string(),
        cwd: "/tmp".to_string(),
        prompt: "test".to_string(),
        depends_on: depends_on.into_iter().map(String::from).collect(),
        agent_id: None,
        thread_id: None,
        output_schema: None,
        ephemeral: false,
        add_dirs: vec![],
        sandbox: "read-only".to_string(),
        model: None,
        ask_for_approval: "never".to_string(),
        config_overrides: vec![],
        profile: None,
    }
}

fn waves(tasks: Vec<TaskDef>) -> Vec<Vec<String>> {
    TasksConfig { tasks }
        .into_waves()
        .unwrap()
        .into_iter()
        .map(|wave| wave.into_iter().map(|t| t.name).collect())
        .collect()
}

#[test]
fn no_dependencies_single_wave() {
    assert_eq!(
        waves(vec![task("a", vec![]), task("b", vec![]), task("c", vec![])]),
        vec![vec!["a", "b", "c"]]
    );
}

#[test]
fn linear_chain_three_waves() {
    assert_eq!(
        waves(vec![task("a", vec![]), task("b", vec!["a"]), task("c", vec!["b"])]),
        vec![vec!["a"], vec!["b"], vec!["c"]]
    );
}

#[test]
fn diamond_dependency() {
    assert_eq!(
        waves(vec![
            task("a", vec![]),
            task("b", vec!["a"]),
            task("c", vec!["a"]),
            task("d", vec!["b", "c"]),
        ]),
        vec![vec!["a"], vec!["b", "c"], vec!["d"]]
    );
}

#[test]
fn waves_keep_the_given_order() {
    assert_eq!(
        waves(vec![
            task("z", vec!["m"]),
            task("m", vec![]),
            task("a", vec!["m"]),
            task("b", vec![]),
            task("k", vec!["z", "b"]),
        ]),
        vec![vec!["m", "b"], vec!["z", "a"], vec!["k"]]
    );
}

#[test]
fn no_tasks_no_waves() {
    assert!(waves(vec![]).is_empty());
}

#[test]
fn circular_dependency_error() {
    let error = TasksConfig {
        tasks: vec![task("a", vec!["b"]), task("ok", vec![]), task("b", vec!["a"])],
    }
    .into_waves()
    .unwrap_err();
    assert!(matches!(error, ConfigError::CircularDependency(ref names) if *names == ["a", "b"]));
    assert_eq!(error.message(), "circular dependency detected among tasks: [\"a\", \"b\"]");
}

#[test]
fn tasks_behind_a_circle_are_stuck_too() {
    let error = TasksConfig {
        tasks: vec![task("end", vec!["b"]), task("a", vec!["b"]), task("b", vec!["a"])],
    }
    .into_waves()
    .unwrap_err();
    assert!(
        matches!(error, ConfigError::CircularDependency(ref names) if *names == ["end", "a", "b"])
    );
}

#[test]
fn self_dependency_is_circular() {
    let error = TasksConfig { tasks: vec![task("a", vec!["a"])] }.into_waves().unwrap_err();
    assert_eq!(error.message(), "circular dependency detected among tasks: [\"a\"]");
}

#[test]
fn unknown_dependency_error() {
    let error = TasksConfig {
        tasks: vec![task("b", vec![]), task("a", vec!["b", "nonexistent", "other"])],
    }
    .into_waves()
    .unwrap_err();
    assert!(matches!(
        error,
        ConfigError::UnknownDependency { ref task, ref dependency }
            if task == "a" && dependency == "nonexistent"
    ));
    assert_eq!(error.message(), "task 'a' depends on unknown task 'nonexistent'");
}

#[test]
fn duplicate_name_error() {
    let error = TasksConfig {
        tasks: vec![
            task("a", vec!["nowhere"]),
            task("b", vec![]),
            task("b", vec![]),
            task("a", vec![]),
        ],
    }
    .into_waves()
    .unwrap_err();
    assert!(matches!(error, ConfigError::DuplicateName(ref name) if name == "b"));
    assert_eq!(error.message(), "duplicate task name: b");
}

#[test]
fn circular_names_are_escaped() {
    let name = "a\"b\\c\nd";
    let error = TasksConfig { tasks: vec![task("x", vec![name]), task(name, vec!["x"])] }
        .into_waves()
        .unwrap_err();
    assert_eq!(
        error.message(),
        "circular dependency detected among tasks: [\"x\", \"a\\\"b\\\\c\\nd\"]"
    );
    assert_eq!(
        error.message(),
        format!("circular dependency detected among tasks: {:?}", vec!["x", name])
    );
}

#[test]
fn circular_message_lists_what_it_is_given() {
    assert_eq!(circular_message(&vec![]), "circular dependency detected among tasks: []");
    assert_eq!(
        circular_message(&vec!["p".to_string(), "q".to_string(), "r".to_string()]),
        "circular dependency detected among tasks: [p, q, r]"
    );
}
