use docstore::collection::insert_into_collection;
use docstore::collection::remove_from_collection;
use docstore::collection::Collection;
use docstore::collection::IndexSnapshot;
use docstore::error::StoreError;
use docstore::json::Json;
use docstore::latency::LatencyRing;
use docstore::log::apply;
use docstore::log::replay_log;
use docstore::log::tombstone_record;
use docstore::registry::Append;
use docstore::registry::Compaction;
use docstore::registry::CreatedIndex;
use docstore::registry::Registry;

fn text(value: &str) -> Json {
    Json::String(value.to_string())
}

fn object(members: Vec<(&str, Json)>) -> Json {
    Json::Object(members.into_iter().map(|(key, value)| (key.to_string(), value)).collect())
}

fn user(id: &str, role: &str) -> Json {
    object(vec![("_id", text(id)), ("role", text(role))])
}

fn lines(texts: &[&str]) -> Vec<String> {
    texts.iter().map(|line| line.to_string()).collect()
}

fn by_role() -> Vec<CreatedIndex> {
    vec![CreatedIndex { name: "byRole".to_string(), key: "role".to_string() }]
}

fn persistent(file: &str, log: &[&str]) -> Registry {
    let mut registry = Registry::new();
    assert_eq!(
        registry.create("users".to_string(), Some(file.to_string()), &by_role(), &lines(log)),
        Ok(())
    );
    registry
}

fn line_of(outcome: Option<Append>) -> String {
    outcome.unwrap().line
}

#[test]
fn replay_applies_records_in_order() {
    let registry = persistent(
        "users.db",
        &[
            "{\"_id\":\"a\",\"role\":\"admin\"}",
            "{\"_id\":\"b\",\"role\":\"guest\"}",
            "{\"_id\":\"a\",\"role\":\"guest\"}",
            "{\"$$deleted\":true,\"_id\":\"b\"}",
            "{\"_id\":\"c\",\"role\":\"admin\"}",
        ],
    );
    assert_eq!(registry.get_collection("users"), Ok(vec![user("a", "guest"), user("c", "admin")]));
    assert_eq!(
        registry.retrieve_indexed("users", "byRole", Some("admin")),
        Ok(vec![user("c", "admin")])
    );
    assert_eq!(
        registry.retrieve_indexed("users", "byRole", Some("guest")),
        Ok(vec![user("a", "guest")])
    );
}

#[test]
fn replay_passes_over_empty_lines_and_old_markers() {
    let registry = persistent(
        "users.db",
        &[
            "",
            "{\"$$indexCreated\":{\"fieldName\":\"role\"}}",
            "{\"_id\":\"a\",\"role\":\"admin\"}",
            "",
            "{\"$$indexCreated\":{},\"_id\":\"zz\"}",
        ],
    );
    assert_eq!(registry.get_collection("users"), Ok(vec![user("a", "admin")]));
}

#[test]
fn record_with_the_old_marker_is_passed_over_whatever_stands_under_it() {
    let registry = persistent(
        "users.db",
        &[
            "{\"$$indexCreated\":true,\"_id\":\"z\"}",
            "{\"_id\":\"a\"}",
            "{\"$$indexCreated\":null,\"_id\":\"y\"}",
            "{\"$$indexCreated\":\"role\"}",
            "{\"$$indexCreated\":{},\"$$deleted\":true,\"_id\":\"a\"}",
        ],
    );
    assert_eq!(registry.get_collection("users"), Ok(vec![object(vec![("_id", text("a"))])]));
}

#[test]
fn deletion_marker_that_is_no_boolean_is_no_marker() {
    let registry = persistent("users.db", &["{\"$$deleted\":\"yes\",\"_id\":\"b\"}"]);
    assert_eq!(
        registry.get_collection("users"),
        Ok(vec![object(vec![("$$deleted", text("yes")), ("_id", text("b"))])])
    );
}

#[test]
fn any_boolean_under_the_deletion_marker_deletes() {
    let registry = persistent(
        "users.db",
        &["{\"_id\":\"a\",\"role\":\"admin\"}", "{\"$$deleted\":false,\"_id\":\"a\"}"],
    );
    assert_eq!(registry.get_count("users"), Ok(0));
    assert_eq!(registry.retrieve_indexed("users", "byRole", Some("admin")), Ok(vec![]));
}

#[test]
fn tombstone_of_a_missing_document_changes_nothing() {
    let registry = persistent(
        "users.db",
        &["{\"$$deleted\":true,\"_id\":\"zz\"}", "{\"_id\":\"a\",\"role\":\"admin\"}"],
    );
    assert_eq!(registry.get_collection("users"), Ok(vec![user("a", "admin")]));
}

#[test]
fn malformed_line_aborts_the_creation() {
    let mut registry = Registry::new();
    let cases: Vec<(Vec<String>, usize)> = vec![
        (lines(&["{\"_id\":\"a\"}", "not json"]), 1),
        (lines(&["{\"name\":\"no id\"}"]), 0),
        (lines(&["", "", "{\"_id\":7}"]), 2),
        (lines(&["{\"$$deleted\":true}"]), 0),
        (lines(&["{\"_id\":\"a\"}", " "]), 1),
        (lines(&["[]"]), 0),
        (lines(&["{\"_id\":\"a\"}", "{\"_id\":\"b\"", "{\"_id\":\"c\"}", "nope"]), 1),
    ];
    for (log, bad) in cases {
        assert_eq!(
            registry.create("users".to_string(), Some("users.db".to_string()), &by_role(), &log),
            Err(StoreError::MalformedRecord { line: bad })
        );
        assert_eq!(registry.len(), 0);
    }
}

#[test]
fn replay_stops_at_the_malformed_line() {
    let mut collection = Collection::new("users".to_string(), None);
    let log = lines(&["{\"_id\":\"a\"}", "{\"_id\":\"b\"}", "oops", "{\"_id\":\"c\"}"]);
    assert_eq!(replay_log(&mut collection, &log), Err(StoreError::MalformedRecord { line: 2 }));
    assert_eq!(collection.count(), 2);
    assert!(collection.contains("a"));
    assert!(collection.contains("b"));
    assert!(!collection.contains("c"));
}

#[test]
fn replay_logs_nothing() {
    let mut collection = Collection::new("users".to_string(), Some("users.db".to_string()));
    assert!(apply(&mut collection, user("a", "admin")));
    assert!(apply(&mut collection, tombstone_record("a")));
    assert!(!apply(&mut collection, object(vec![("name", text("x"))])));
    assert!(apply(&mut collection, object(vec![("$$indexCreated", Json::Null)])));
    assert_eq!(collection.count(), 0);
    assert_eq!(
        insert_into_collection(&mut collection, "a".to_string(), user("a", "x"), false),
        None
    );
    assert_eq!(
        remove_from_collection(&mut collection, "a".to_string(), false),
        (user("a", "x"), None)
    );
    assert_eq!(
        remove_from_collection(&mut collection, "a".to_string(), true),
        (Json::Null, None)
    );
    assert_eq!(
        insert_into_collection(&mut collection, "a".to_string(), user("a", "x"), true),
        Some("{\"_id\":\"a\",\"role\":\"x\"}".to_string())
    );
    assert_eq!(
        remove_from_collection(&mut collection, "a".to_string(), true),
        (user("a", "x"), Some("{\"$$deleted\":true,\"_id\":\"a\"}".to_string()))
    );
}

#[test]
fn tombstone_holds_the_marker_and_the_identifier() {
    assert_eq!(
        tombstone_record("u1"),
        object(vec![("$$deleted", Json::Bool(true)), ("_id", text("u1"))])
    );
}

#[test]
fn collection_recreated_from_its_log_is_the_same() {
    let mut live = persistent("users.db", &[]);
    let mut log: Vec<String> = Vec::new();
    let inserts = [("a", "admin"), ("b", "guest"), ("c", "admin"), ("a", "guest"), ("d", "x")];
    for (id, role) in inserts {
        log.push(line_of(live.insert_item("users", id.to_string(), user(id, role)).unwrap()));
    }
    log.push(line_of(live.delete_item("users", "b").unwrap().1));
    assert_eq!(live.delete_item("users", "zz"), Err(StoreError::ItemNotFound));
    log.push(line_of(live.insert_item("users", "b".to_string(), user("b", "admin")).unwrap()));
    log.push(line_of(live.delete_item("users", "d").unwrap().1));
    live.retrieve_item("users", "a", 1, 2).unwrap();

    let rebuilt = persistent("users.db", &log.iter().map(String::as_str).collect::<Vec<_>>());
    let before = live.list();
    let after = rebuilt.list();
    assert_eq!(after.len(), 1);
    assert_eq!(after[0].name, before[0].name);
    assert_eq!(after[0].file, before[0].file);
    assert_eq!(after[0].documents, before[0].documents);
    assert_eq!(after[0].indexes, before[0].indexes);
    assert_eq!(
        after[0].indexes,
        vec![IndexSnapshot {
            name: "byRole".to_string(),
            key: "role".to_string(),
            buckets: vec![
                ("admin".to_string(), vec!["c".to_string(), "b".to_string()]),
                ("guest".to_string(), vec!["a".to_string()]),
                ("x".to_string(), vec![]),
            ],
        }]
    );
    assert_eq!(before[0].query_times, vec![(1, 2)]);
    assert_eq!(
        rebuilt.get_collection("users"),
        Ok(vec![user("a", "guest"), user("c", "admin"), user("b", "admin")])
    );
    for key in ["admin", "guest", "x", "$$null"] {
        assert_eq!(
            rebuilt.retrieve_indexed("users", "byRole", Some(key)),
            live.retrieve_indexed("users", "byRole", Some(key))
        );
    }
    assert_eq!(
        rebuilt.retrieve_indexed("users", "byRole", Some("admin")),
        Ok(vec![user("c", "admin"), user("b", "admin")])
    );
    assert_eq!(rebuilt.get_times("users"), Ok(vec![]));
}

#[test]
fn compaction_writes_the_live_documents_only() {
    let mut registry = persistent("users.db", &[]);
    registry.insert_item("users", "a".to_string(), user("a", "admin")).unwrap();
    registry.insert_item("users", "b".to_string(), user("b", "guest")).unwrap();
    registry.insert_item("users", "a".to_string(), user("a", "guest")).unwrap();
    registry.delete_item("users", "b").unwrap();
    registry.insert_item("users", "c".to_string(), user("c", "admin")).unwrap();
    assert_eq!(
        registry.compact_collection("users"),
        Ok(Compaction {
            file: "users.db".to_string(),
            scratch: "users.db~".to_string(),
            lines: lines(&[
                "{\"_id\":\"a\",\"role\":\"guest\"}",
                "{\"_id\":\"c\",\"role\":\"admin\"}",
            ]),
        })
    );
}

#[test]
fn compacted_log_replays_to_the_same_documents() {
    let mut registry = persistent("users.db", &[]);
    for (id, role) in [("a", "admin"), ("b", "guest"), ("c", "admin"), ("b", "admin")] {
        registry.insert_item("users", id.to_string(), user(id, role)).unwrap();
    }
    registry.delete_item("users", "a").unwrap();
    let compaction = registry.compact_collection("users").unwrap();
    for line in &compaction.lines {
        assert!(!line.contains("$$deleted"));
    }
    let mut rebuilt = Registry::new();
    rebuilt
        .create("users".to_string(), Some("users.db".to_string()), &by_role(), &compaction.lines)
        .unwrap();
    assert_eq!(rebuilt.list()[0].documents, registry.list()[0].documents);
    assert_eq!(rebuilt.get_collection("users"), Ok(vec![user("b", "admin"), user("c", "admin")]));
    assert_eq!(
        registry.list()[0].indexes[0].buckets,
        vec![
            ("admin".to_string(), vec!["c".to_string(), "b".to_string()]),
            ("guest".to_string(), vec![]),
        ]
    );
    assert_eq!(
        rebuilt.list()[0].indexes[0].buckets,
        vec![("admin".to_string(), vec!["b".to_string(), "c".to_string()])]
    );
}

#[test]
fn compaction_of_an_empty_collection_has_no_lines() {
    let registry = persistent("dir/users.db", &[]);
    assert_eq!(
        registry.compact_collection("users"),
        Ok(Compaction {
            file: "dir/users.db".to_string(),
            scratch: "dir/users.db~".to_string(),
            lines: vec![],
        })
    );
}

#[test]
fn ring_evicts_the_oldest_sample() {
    let mut ring = LatencyRing::new();
    assert_eq!(ring.len(), 0);
    for n in 0..2600u64 {
        ring.record(n, n + 1);
    }
    assert_eq!(ring.len(), 2500);
    let samples = ring.snapshot();
    assert_eq!(samples.len(), 2500);
    assert_eq!(samples[0], (100, 101));
    assert_eq!(samples[2499], (2599, 2600));
    for (i, sample) in samples.iter().enumerate() {
        assert_eq!(*sample, (100 + i as u64, 101 + i as u64));
    }
}

#[test]
fn ring_below_its_capacity_keeps_everything() {
    let mut ring = LatencyRing::new();
    ring.record(5, 6);
    ring.record(1, 2);
    assert_eq!(ring.snapshot(), vec![(5, 6), (1, 2)]);
}
