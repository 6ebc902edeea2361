use codex_par::facts::{
    truncate_value, FactEntry, FactTable, FactsError, FactsStore, StoredFacts, MAX_PREAMBLE_BYTES,
    MAX_VALUE_BYTES,
};
use codex_par::task::TaskDef;

fn entry(value: &str, artifact_path: Option<&str>) -> FactEntry {
    FactEntry {
        value: value.to_string(),
        artifact_path: artifact_path.map(|p| p.to_string()),
        updated_at: "2026-03-08T10:00:00Z".to_string(),
    }
}

#[test]
fn write_and_read_fact() {
    let store = FactsStore::new("/run");
    let written = store
        .write_fact(StoredFacts::Missing, "repo", "my-value".to_string(), None)
        .unwrap();

    let facts = store.read_all(StoredFacts::Loaded(written)).unwrap();
    assert_eq!(facts.get("repo").unwrap().value, "my-value");
}

#[test]
fn overwrite_same_key() {
    let store = FactsStore::new("/run");
    let first = store
        .write_fact(StoredFacts::Missing, "k", "v1".to_string(), None)
        .unwrap();
    let second = store
        .write_fact(StoredFacts::Loaded(first), "k", "v2".to_string(), None)
        .unwrap();

    let facts = store.read_all(StoredFacts::Loaded(second)).unwrap();
    assert_eq!(facts.get("k").unwrap().value, "v2");
    assert_eq!(facts.len(), 1);
}

#[test]
fn truncates_value_over_1kib() {
    let store = FactsStore::new("/run");
    let big = "x".repeat(2000);
    let written = store.write_fact(StoredFacts::Missing, "k", big, None).unwrap();

    let facts = store.read_all(StoredFacts::Loaded(written)).unwrap();
    assert!(facts.get("k").unwrap().value.len() <= 1035);
    assert!(facts.get("k").unwrap().value.ends_with("[truncated]"));
}

#[test]
fn empty_store_returns_none_preamble() {
    let store = FactsStore::new("/run");

    assert!(store.build_preamble(StoredFacts::Missing, None).unwrap().is_none());
}

#[test]
fn preamble_contains_key_value_and_path() {
    let store = FactsStore::new("/run");
    let written = store
        .write_fact(StoredFacts::Missing, "model", "o4-mini".to_string(), None)
        .unwrap();

    let preamble = store
        .build_preamble(StoredFacts::Loaded(written), None)
        .unwrap()
        .unwrap();
    assert!(preamble.contains("model: o4-mini"));
    assert!(preamble.contains("facts.json"));
    assert!(preamble.starts_with("=== Shared Context ==="));
}

#[test]
fn preamble_truncates_at_4kib_total() {
    let store = FactsStore::new("/run");

    let mut stored = StoredFacts::Missing;
    for i in 0..20 {
        let written = store
            .write_fact(stored, &format!("key{:02}", i), "x".repeat(300), None)
            .unwrap();
        stored = StoredFacts::Loaded(written);
    }

    let preamble = store.build_preamble(stored, None).unwrap().unwrap();
    assert!(preamble.contains("[additional facts truncated"));
}

#[test]
fn preamble_of_many_facts_stays_small() {
    let store = FactsStore::new("/run");
    let mut table = FactTable::new();
    for i in 0..20 {
        table.insert(format!("key{:02}", i), entry(&"x".repeat(300), None));
    }
    let preamble = store.build_preamble(StoredFacts::Loaded(table), None).unwrap().unwrap();
    assert!(preamble.len() < 5000);
    // Each line takes 5 + 2 + 300 bytes and its end: 13 of them fit.
    assert!(preamble.contains("\nkey12: "));
    assert!(!preamble.contains("\nkey13: "));
    assert_eq!(preamble.lines().count(), 1 + 13 + 1 + 2);
}

#[test]
fn preamble_is_exact() {
    let store = FactsStore::new("/run");
    let mut table = FactTable::new();
    table.insert("repo".to_string(), entry("at /foo", None));
    table.insert("log".to_string(), entry("build log", Some("/tmp/build.txt")));
    let preamble = store.build_preamble(StoredFacts::Loaded(table), None).unwrap();
    assert_eq!(
        preamble.as_deref(),
        Some(
            "=== Shared Context ===\n\
             log: build log [artifact: /tmp/build.txt]\n\
             repo: at /foo\n\
             [Full facts at: /run/shared/facts.json]\n\
             ======================"
        )
    );
}

#[test]
fn preamble_shows_the_canonical_path_where_it_is_known() {
    let store = FactsStore::new("run");
    let mut table = FactTable::new();
    table.insert("a".to_string(), entry("1", None));
    let preamble = store
        .build_preamble(StoredFacts::Loaded(table), Some("/abs/run/shared/facts.json".to_string()))
        .unwrap()
        .unwrap();
    assert!(preamble
        .ends_with("\n[Full facts at: /abs/run/shared/facts.json]\n======================"));
}

#[test]
fn preamble_takes_a_fact_that_just_fits() {
    let store = FactsStore::new("/run");
    for (length, fits) in [(MAX_PREAMBLE_BYTES - 4, true), (MAX_PREAMBLE_BYTES - 3, false)] {
        let mut table = FactTable::new();
        table.insert("k".to_string(), entry(&"x".repeat(length), None));
        let preamble = store.build_preamble(StoredFacts::Loaded(table), None).unwrap().unwrap();
        assert_eq!(preamble.contains("\nk: x"), fits);
        assert_eq!(preamble.contains("\n[additional facts truncated — see facts.json]\n"), !fits);
    }
}

#[test]
fn empty_table_gives_no_preamble() {
    let store = FactsStore::new("/run");
    assert!(store
        .build_preamble(StoredFacts::Loaded(FactTable::new()), None)
        .unwrap()
        .is_none());
}

#[test]
fn unreadable_facts_are_an_error_everywhere() {
    let store = FactsStore::new("/run");
    let broken = || StoredFacts::Unreadable("no facts".to_string());
    let FactsError::Unreadable(why) = store.read_all(broken()).err().unwrap();
    assert_eq!(why, "no facts");
    let FactsError::Unreadable(why) =
        store.write_fact(broken(), "k", "v".to_string(), None).err().unwrap();
    assert_eq!(why, "no facts");
    let FactsError::Unreadable(why) = store.build_preamble(broken(), None).err().unwrap();
    assert_eq!(why, "no facts");
}

#[test]
fn preamble_does_not_show_when_facts_were_written() {
    let store = FactsStore::new("/run");
    let mut forward = FactTable::new();
    let mut backward = FactTable::new();
    for (key, other_key) in [("a", "b"), ("b", "a")] {
        forward.insert(key.to_string(), entry(key, Some("/x")));
        let mut later = entry(other_key, Some("/x"));
        later.updated_at = "2026-04-01T00:00:00Z".to_string();
        backward.insert(other_key.to_string(), later);
    }
    assert_eq!(
        store.build_preamble(StoredFacts::Loaded(forward), None).unwrap(),
        store.build_preamble(StoredFacts::Loaded(backward), None).unwrap()
    );
}

#[test]
fn prompt_comes_after_the_facts() {
    let store = FactsStore::new("/run");
    let mut table = FactTable::new();
    table.insert("a".to_string(), entry("1", None));
    assert_eq!(
        store.shared_prompt(StoredFacts::Loaded(table), None, "Do it.".to_string()),
        "=== Shared Context ===\na: 1\n[Full facts at: /run/shared/facts.json]\n\
         ======================\n\nDo it."
    );
    assert_eq!(store.shared_prompt(StoredFacts::Missing, None, "Do it.".to_string()), "Do it.");
    assert_eq!(
        store.shared_prompt(StoredFacts::Unreadable("bad".to_string()), None, "Do it.".to_string()),
        "Do it."
    );
}

#[test]
fn handed_task_differs_in_its_prompt_alone() {
    let store = FactsStore::new("/run");
    let def = || TaskDef {
        name: "t".to_string(),
        cwd: "/work".to_string(),
        prompt: "Do it.".to_string(),
        depends_on: vec!["d".to_string()],
        agent_id: Some("agent".to_string()),
        thread_id: Some("thread".to_string()),
        output_schema: Some("schema".to_string()),
        ephemeral: true,
        add_dirs: vec!["/extra".to_string()],
        sandbox: "read-write".to_string(),
        model: Some("o4-mini".to_string()),
        ask_for_approval: "never".to_string(),
        config_overrides: vec!["k=v".to_string()],
        profile: Some("p".to_string()),
    };
    let mut table = FactTable::new();
    table.insert("a".to_string(), entry("1", None));
    let handed = store.shared_task(StoredFacts::Loaded(table), None, def());
    let mut expected = def();
    expected.prompt = "=== Shared Context ===\na: 1\n[Full facts at: /run/shared/facts.json]\n\
                       ======================\n\nDo it."
        .to_string();
    assert_eq!(format!("{:?}", handed), format!("{:?}", expected));
    let handed = store.shared_task(StoredFacts::Missing, None, def());
    assert_eq!(format!("{:?}", handed), format!("{:?}", def()));
    let handed = store.shared_task(StoredFacts::Unreadable("bad".to_string()), None, def());
    assert_eq!(format!("{:?}", handed), format!("{:?}", def()));
}

#[test]
fn written_fact_leaves_other_keys_alone() {
    let store = FactsStore::new("/run");
    let mut table = FactTable::new();
    table.insert("b".to_string(), entry("old", Some("/b")));
    let written = store
        .write_fact_at(
            StoredFacts::Loaded(table),
            "a",
            "new".to_string(),
            Some("/a".to_string()),
            "2026-03-08T11:00:00Z".to_string(),
        )
        .unwrap();
    assert_eq!(written.len(), 2);
    assert_eq!(written.key_at(0), "a");
    assert_eq!(written.fact_at(0).value, "new");
    assert_eq!(written.fact_at(0).artifact_path.as_deref(), Some("/a"));
    assert_eq!(written.fact_at(0).updated_at, "2026-03-08T11:00:00Z");
    assert_eq!(written.key_at(1), "b");
    assert_eq!(written.get("b").unwrap().value, "old");
    assert_eq!(written.get("b").unwrap().artifact_path.as_deref(), Some("/b"));
    assert!(written.get("c").is_none());
}

#[test]
fn written_fact_is_dated_now() {
    let store = FactsStore::new("/run");
    let before = chrono::Local::now();
    let written = store.write_fact(StoredFacts::Missing, "k", "v".to_string(), None).unwrap();
    let after = chrono::Local::now();
    let updated_at = &written.get("k").unwrap().updated_at;
    let dated = chrono::DateTime::parse_from_rfc3339(updated_at).unwrap();
    assert!(before <= dated && dated <= after);
}

#[test]
fn keys_are_in_byte_order() {
    let mut table = FactTable::new();
    let mut keys = vec!["b", "a", "", "ab", "B", "é", "z", "a-b", "日本", "😀", "\u{ffff}"];
    for key in &keys {
        table.insert(key.to_string(), entry(key, None));
    }
    keys.sort();
    let listed: Vec<&str> = (0..table.len()).map(|i| table.key_at(i).as_str()).collect();
    assert_eq!(listed, keys);
    for key in keys {
        assert_eq!(table.get(key).unwrap().value, key);
    }
}

#[test]
fn rows_do_not_depend_on_the_order_of_writing() {
    let mut forward = FactTable::new();
    let mut backward = FactTable::new();
    let keys = ["k1", "k2", "k3", "k4"];
    for key in keys {
        forward.insert(key.to_string(), entry(key, None));
    }
    for key in keys.iter().rev() {
        backward.insert(key.to_string(), entry(key, None));
    }
    for i in 0..4 {
        assert_eq!(forward.key_at(i), backward.key_at(i));
        assert_eq!(forward.fact_at(i).value, backward.fact_at(i).value);
    }
}

#[test]
fn short_values_are_kept() {
    for length in [0, 1, MAX_VALUE_BYTES] {
        let value = "y".repeat(length);
        assert_eq!(truncate_value(value.clone()), value);
    }
}

#[test]
fn long_values_are_cut_at_the_limit() {
    let cut = truncate_value("y".repeat(MAX_VALUE_BYTES + 1));
    assert_eq!(cut, format!("{}[truncated]", "y".repeat(MAX_VALUE_BYTES)));
}

#[test]
fn values_are_cut_between_characters() {
    // Two bytes each after one byte: the limit falls into a character.
    let value = format!("y{}", "é".repeat(1000));
    assert_eq!(truncate_value(value), format!("y{}[truncated]", "é".repeat(511)));
    // Four bytes each after three bytes.
    let value = format!("yyy{}", "😀".repeat(500));
    assert_eq!(truncate_value(value), format!("yyy{}[truncated]", "😀".repeat(255)));
    // Three bytes each: the limit leaves one byte over.
    let value = "日".repeat(500);
    assert_eq!(truncate_value(value), format!("{}[truncated]", "日".repeat(341)));
}

#[test]
fn paths_are_in_the_shared_directory() {
    let store = FactsStore::new("/run");
    assert_eq!(store.shared_dir(), "/run/shared");
    assert_eq!(store.facts_path(), "/run/shared/facts.json");
    assert_eq!(store.temporary_path(), "/run/shared/facts.tmp");
    assert_eq!(FactsStore::new("/run/").facts_path(), "/run/shared/facts.json");
    assert_eq!(FactsStore::new("").facts_path(), "shared/facts.json");
}
