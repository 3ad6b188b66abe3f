use docstore::error::ErrorKind;
use docstore::error::StoreError;
use docstore::json::Json;
use docstore::registry::Append;
use docstore::registry::CreatedIndex;
use docstore::registry::Registry;

fn text(value: &str) -> Json {
    Json::String(value.to_string())
}

fn object(members: Vec<(&str, Json)>) -> Json {
    Json::Object(members.into_iter().map(|(key, value)| (key.to_string(), value)).collect())
}

fn ana() -> Json {
    object(vec![("_id", text("u1")), ("name", text("Ana")), ("role", text("admin"))])
}

fn declaration(name: &str, key: &str) -> CreatedIndex {
    CreatedIndex { name: name.to_string(), key: key.to_string() }
}

fn no_lines() -> Vec<String> {
    Vec::new()
}

fn memory_store(name: &str, indexes: Vec<CreatedIndex>) -> Registry {
    let mut registry = Registry::new();
    assert_eq!(registry.create(name.to_string(), None, &indexes, &no_lines()), Ok(()));
    registry
}

#[test]
fn inserted_document_is_retrieved() {
    let mut registry = memory_store("users", vec![]);
    assert_eq!(registry.insert_item("users", "u1".to_string(), ana()), Ok(None));
    assert_eq!(registry.retrieve_item("users", "u1", 10, 20), Ok(ana()));
}

#[test]
fn inserted_text_is_read_as_a_document() {
    let mut registry = Registry::new();
    registry
        .create("users".to_string(), Some("users.db".to_string()), &vec![], &no_lines())
        .unwrap();
    let body = " { \"role\" : \"admin\", \"name\": \"Ana\", \"_id\": \"u1\" } ";
    assert_eq!(
        registry.insert_text("users", "u1".to_string(), body),
        Ok(Some(Append {
            file: "users.db".to_string(),
            line: "{\"_id\":\"u1\",\"name\":\"Ana\",\"role\":\"admin\"}".to_string(),
        }))
    );
    assert_eq!(registry.retrieve_item("users", "u1", 0, 0), Ok(ana()));
}

#[test]
fn insert_keeps_nested_values() {
    let mut registry = memory_store("things", vec![]);
    let doc = object(vec![
        ("_id", text("t")),
        ("tags", Json::Array(vec![text("a"), Json::Null, Json::Bool(false)])),
        ("size", Json::Number(serde_json::Number::from(42u64))),
        ("inner", object(vec![("deep", Json::Array(vec![object(vec![])]))])),
    ]);
    assert_eq!(registry.insert_item("things", "t".to_string(), doc.clone()), Ok(None));
    assert_eq!(registry.retrieve_item("things", "t", 0, 0), Ok(doc));
}

#[test]
fn insert_overwrites_the_document_of_an_identifier() {
    let mut registry = memory_store("users", vec![]);
    registry.insert_item("users", "u1".to_string(), ana()).unwrap();
    let other = object(vec![("_id", text("u1")), ("name", text("Bea"))]);
    registry.insert_item("users", "u1".to_string(), other.clone()).unwrap();
    assert_eq!(registry.get_count("users"), Ok(1));
    assert_eq!(registry.retrieve_item("users", "u1", 0, 0), Ok(other));
}

#[test]
fn deleted_document_is_not_found() {
    let mut registry = memory_store("users", vec![]);
    registry.insert_item("users", "u1".to_string(), ana()).unwrap();
    assert_eq!(registry.delete_item("users", "u1"), Ok((ana(), None)));
    assert_eq!(registry.retrieve_item("users", "u1", 0, 0), Err(StoreError::ItemNotFound));
    assert_eq!(registry.get_count("users"), Ok(0));
}

#[test]
fn delete_of_a_missing_document_fails_and_changes_nothing() {
    let mut registry = memory_store("users", vec![]);
    registry.insert_item("users", "u1".to_string(), ana()).unwrap();
    assert_eq!(registry.delete_item("users", "u2"), Err(StoreError::ItemNotFound));
    assert_eq!(registry.delete_item("nobody", "u1"), Err(StoreError::CollectionNotFound));
    assert_eq!(registry.get_count("users"), Ok(1));
}

#[test]
fn index_finds_a_document_until_it_is_deleted() {
    let mut registry = memory_store("users", vec![declaration("byRole", "role")]);
    registry.insert_item("users", "u1".to_string(), ana()).unwrap();
    assert_eq!(registry.retrieve_indexed("users", "byRole", Some("admin")), Ok(vec![ana()]));
    registry.delete_item("users", "u1").unwrap();
    assert_eq!(registry.retrieve_indexed("users", "byRole", Some("admin")), Ok(vec![]));
}

#[test]
fn bucket_keeps_the_order_of_insertion() {
    let mut registry = memory_store("users", vec![declaration("byRole", "role")]);
    let doc = |id: &str| object(vec![("_id", text(id)), ("role", text("admin"))]);
    for id in ["c", "a", "b"] {
        registry.insert_item("users", id.to_string(), doc(id)).unwrap();
    }
    assert_eq!(
        registry.retrieve_indexed("users", "byRole", Some("admin")),
        Ok(vec![doc("c"), doc("a"), doc("b")])
    );
    registry.delete_item("users", "a").unwrap();
    assert_eq!(
        registry.retrieve_indexed("users", "byRole", Some("admin")),
        Ok(vec![doc("c"), doc("b")])
    );
    registry.insert_item("users", "c".to_string(), doc("c")).unwrap();
    assert_eq!(
        registry.retrieve_indexed("users", "byRole", Some("admin")),
        Ok(vec![doc("b"), doc("c")])
    );
}

#[test]
fn document_without_the_field_is_found_under_the_sentinel() {
    let mut registry = memory_store("users", vec![declaration("byRole", "role")]);
    let plain = object(vec![("_id", text("u2")), ("name", text("Bo"))]);
    let number = object(vec![
        ("_id", text("u3")),
        ("role", Json::Number(serde_json::Number::from(7u64))),
    ]);
    registry.insert_item("users", "u2".to_string(), plain.clone()).unwrap();
    registry.insert_item("users", "u3".to_string(), number.clone()).unwrap();
    registry.insert_item("users", "u4".to_string(), Json::Null).unwrap();
    let expected = vec![plain, number, Json::Null];
    assert_eq!(registry.retrieve_indexed("users", "byRole", None), Ok(expected.clone()));
    assert_eq!(registry.retrieve_indexed("users", "byRole", Some("$$null")), Ok(expected));
}

#[test]
fn upsert_moves_the_identifier_to_the_new_bucket() {
    let mut registry = memory_store("items", vec![declaration("idx", "x")]);
    let first = object(vec![("_id", text("a")), ("x", text("1"))]);
    let second = object(vec![("_id", text("a")), ("x", text("2"))]);
    registry.insert_item("items", "a".to_string(), first).unwrap();
    registry.insert_item("items", "a".to_string(), second.clone()).unwrap();
    assert_eq!(registry.retrieve_indexed("items", "idx", Some("1")), Ok(vec![]));
    assert_eq!(registry.retrieve_indexed("items", "idx", Some("2")), Ok(vec![second]));
}

#[test]
fn users_scenario() {
    let mut registry = Registry::new();
    assert_eq!(registry.create("users".to_string(), None, &vec![], &no_lines()), Ok(()));
    assert_eq!(registry.insert_item("users", "u1".to_string(), ana()), Ok(None));
    assert_eq!(registry.create_index("users", "byRole".to_string(), "role".to_string()), Ok(()));
    assert_eq!(registry.retrieve_indexed("users", "byRole", Some("admin")), Ok(vec![]));
    assert_eq!(registry.insert_item("users", "u1".to_string(), ana()), Ok(None));
    assert_eq!(registry.retrieve_indexed("users", "byRole", Some("admin")), Ok(vec![ana()]));
    assert_eq!(registry.delete_item("users", "u1"), Ok((ana(), None)));
    assert_eq!(registry.retrieve_indexed("users", "byRole", Some("admin")), Ok(vec![]));
}

#[test]
fn delete_of_a_document_older_than_the_index_leaves_the_index() {
    let mut registry = memory_store("users", vec![]);
    registry.insert_item("users", "u1".to_string(), ana()).unwrap();
    let twin = object(vec![("_id", text("u2")), ("role", text("admin"))]);
    registry.create_index("users", "byRole".to_string(), "role".to_string()).unwrap();
    registry.insert_item("users", "u2".to_string(), twin.clone()).unwrap();
    assert_eq!(registry.delete_item("users", "u1"), Ok((ana(), None)));
    assert_eq!(registry.retrieve_indexed("users", "byRole", Some("admin")), Ok(vec![twin]));
}

#[test]
fn retrieve_bulk_puts_null_for_missing_identifiers() {
    let mut registry = memory_store("users", vec![]);
    registry.insert_item("users", "u1".to_string(), ana()).unwrap();
    let ids = vec!["zz".to_string(), "u1".to_string(), "u1".to_string(), "".to_string()];
    assert_eq!(
        registry.retrieve_bulk("users", &ids),
        Ok(vec![Json::Null, ana(), ana(), Json::Null])
    );
    assert_eq!(registry.retrieve_bulk("users", &vec![]), Ok(vec![]));
    assert_eq!(registry.retrieve_bulk("nobody", &ids), Err(StoreError::CollectionNotFound));
}

#[test]
fn every_error_has_its_input() {
    let mut registry = memory_store("users", vec![declaration("byRole", "role")]);
    assert_eq!(
        registry.insert_item("nobody", "a".to_string(), Json::Null),
        Err(StoreError::CollectionNotFound)
    );
    assert_eq!(registry.retrieve_item("nobody", "a", 0, 0), Err(StoreError::CollectionNotFound));
    assert_eq!(registry.retrieve_item("users", "a", 0, 0), Err(StoreError::ItemNotFound));
    assert_eq!(
        registry.retrieve_indexed("users", "byName", Some("x")),
        Err(StoreError::IndexNotFound)
    );
    assert_eq!(
        registry.retrieve_indexed("nobody", "byRole", Some("x")),
        Err(StoreError::CollectionNotFound)
    );
    assert_eq!(
        registry.create("users".to_string(), None, &vec![], &no_lines()),
        Err(StoreError::CollectionConflict)
    );
    assert_eq!(
        registry.create_index("users", "byRole".to_string(), "name".to_string()),
        Err(StoreError::IndexConflict)
    );
    assert_eq!(
        registry.create_index("nobody", "byRole".to_string(), "name".to_string()),
        Err(StoreError::CollectionNotFound)
    );
    assert_eq!(registry.compact_collection("users"), Err(StoreError::LogNotFound));
    assert_eq!(registry.compact_collection("nobody"), Err(StoreError::CollectionNotFound));
    assert_eq!(registry.delete_collection("nobody"), Err(StoreError::CollectionNotFound));
    assert_eq!(registry.get_collection("nobody"), Err(StoreError::CollectionNotFound));
    assert_eq!(registry.get_count("nobody"), Err(StoreError::CollectionNotFound));
    assert_eq!(registry.get_times("nobody"), Err(StoreError::CollectionNotFound));
    assert_eq!(
        registry.insert_text("users", "a".to_string(), "{\"_id\":"),
        Err(StoreError::MalformedDocument)
    );
    assert_eq!(
        registry.insert_text("nobody", "a".to_string(), "{\"_id\":"),
        Err(StoreError::MalformedDocument)
    );
    assert_eq!(
        registry.insert_text("nobody", "a".to_string(), "{\"_id\":\"a\"}"),
        Err(StoreError::CollectionNotFound)
    );
    assert_eq!(registry.get_count("users"), Ok(0));
    let lines = vec!["{\"_id\":\"a\"}".to_string(), "{\"name\":\"b\"}".to_string()];
    assert_eq!(
        registry.create("broken".to_string(), None, &vec![], &lines),
        Err(StoreError::MalformedRecord { line: 1 })
    );
}

#[test]
fn errors_fall_into_three_kinds() {
    assert_eq!(StoreError::CollectionNotFound.kind(), ErrorKind::NotFound);
    assert_eq!(StoreError::ItemNotFound.kind(), ErrorKind::NotFound);
    assert_eq!(StoreError::IndexNotFound.kind(), ErrorKind::NotFound);
    assert_eq!(StoreError::LogNotFound.kind(), ErrorKind::NotFound);
    assert_eq!(StoreError::CollectionConflict.kind(), ErrorKind::Conflict);
    assert_eq!(StoreError::IndexConflict.kind(), ErrorKind::Conflict);
    assert_eq!(StoreError::MalformedDocument.kind(), ErrorKind::MalformedInput);
    assert_eq!(StoreError::MalformedRecord { line: 3 }.kind(), ErrorKind::MalformedInput);
}

#[test]
fn conflicting_index_keeps_the_first_one() {
    let mut registry = memory_store("users", vec![declaration("byRole", "role")]);
    registry.insert_item("users", "u1".to_string(), ana()).unwrap();
    assert_eq!(
        registry.create_index("users", "byRole".to_string(), "name".to_string()),
        Err(StoreError::IndexConflict)
    );
    assert_eq!(registry.retrieve_indexed("users", "byRole", Some("admin")), Ok(vec![ana()]));
    assert_eq!(registry.retrieve_indexed("users", "byRole", Some("Ana")), Ok(vec![]));
}

#[test]
fn later_declaration_of_a_name_replaces_the_earlier_one() {
    let mut registry = memory_store(
        "users",
        vec![declaration("idx", "role"), declaration("idx", "name")],
    );
    registry.insert_item("users", "u1".to_string(), ana()).unwrap();
    assert_eq!(registry.retrieve_indexed("users", "idx", Some("Ana")), Ok(vec![ana()]));
    assert_eq!(registry.retrieve_indexed("users", "idx", Some("admin")), Ok(vec![]));
}

#[test]
fn collections_are_created_listed_and_dropped() {
    let mut registry = Registry::new();
    assert_eq!(registry.len(), 0);
    registry.create("b".to_string(), None, &vec![], &no_lines()).unwrap();
    registry.create("a".to_string(), Some("a.db".to_string()), &vec![], &no_lines()).unwrap();
    registry.insert_item("a", "x".to_string(), text("one")).unwrap();
    registry.insert_item("a", "y".to_string(), text("two")).unwrap();
    let listings = registry.list();
    assert_eq!(listings.len(), 2);
    assert_eq!(listings[0].name, "b");
    assert_eq!(listings[0].documents, vec![]);
    assert_eq!(listings[0].file, None);
    assert_eq!(listings[1].name, "a");
    assert_eq!(listings[1].file, Some("a.db".to_string()));
    assert_eq!(listings[1].indexes, vec![]);
    assert_eq!(listings[1].query_times, vec![]);
    assert_eq!(
        listings[1].documents,
        vec![("x".to_string(), text("one")), ("y".to_string(), text("two"))]
    );
    assert_eq!(registry.get_collection("a"), Ok(vec![text("one"), text("two")]));
    assert_eq!(registry.delete_collection("b"), Ok(()));
    assert_eq!(registry.len(), 1);
    assert_eq!(registry.get_count("b"), Err(StoreError::CollectionNotFound));
    assert_eq!(registry.get_count("a"), Ok(2));
    registry.reset();
    assert_eq!(registry.len(), 0);
    assert_eq!(registry.get_count("a"), Err(StoreError::CollectionNotFound));
    assert_eq!(registry.create("a".to_string(), None, &vec![], &no_lines()), Ok(()));
    assert_eq!(registry.get_count("a"), Ok(0));
}

#[test]
fn upsert_keeps_the_place_of_the_document() {
    let mut registry = memory_store("c", vec![]);
    for id in ["x", "y", "z"] {
        registry.insert_item("c", id.to_string(), text(id)).unwrap();
    }
    registry.insert_item("c", "x".to_string(), text("again")).unwrap();
    assert_eq!(registry.get_collection("c"), Ok(vec![text("again"), text("y"), text("z")]));
    registry.delete_item("c", "y").unwrap();
    registry.insert_item("c", "y".to_string(), text("back")).unwrap();
    assert_eq!(registry.get_collection("c"), Ok(vec![text("again"), text("z"), text("back")]));
}

#[test]
fn mutations_of_a_persistent_collection_hand_back_their_lines() {
    let mut registry = Registry::new();
    registry
        .create("users".to_string(), Some("users.db".to_string()), &vec![], &no_lines())
        .unwrap();
    assert_eq!(
        registry.insert_item("users", "u1".to_string(), ana()),
        Ok(Some(Append {
            file: "users.db".to_string(),
            line: "{\"_id\":\"u1\",\"name\":\"Ana\",\"role\":\"admin\"}".to_string(),
        }))
    );
    assert_eq!(
        registry.delete_item("users", "u1"),
        Ok((
            ana(),
            Some(Append {
                file: "users.db".to_string(),
                line: "{\"$$deleted\":true,\"_id\":\"u1\"}".to_string(),
            })
        ))
    );
    assert_eq!(registry.delete_item("users", "u1"), Err(StoreError::ItemNotFound));
}

#[test]
fn tombstone_line_escapes_the_identifier() {
    let mut registry = Registry::new();
    registry.create("c".to_string(), Some("c.db".to_string()), &vec![], &no_lines()).unwrap();
    registry.insert_item("c", "a\"b".to_string(), Json::Null).unwrap();
    let (_, append) = registry.delete_item("c", "a\"b").unwrap();
    assert_eq!(append.unwrap().line, "{\"$$deleted\":true,\"_id\":\"a\\\"b\"}");
}

#[test]
fn every_lookup_in_a_collection_records_its_latency() {
    let mut registry = memory_store("users", vec![]);
    registry.insert_item("users", "u1".to_string(), ana()).unwrap();
    assert_eq!(registry.get_times("users"), Ok(vec![]));
    registry.retrieve_item("users", "u1", 100, 7).unwrap();
    assert_eq!(registry.retrieve_item("users", "zz", 101, 8), Err(StoreError::ItemNotFound));
    registry.retrieve_item("users", "u1", 102, 9).unwrap();
    assert_eq!(registry.get_times("users"), Ok(vec![(100, 7), (101, 8), (102, 9)]));
}

#[test]
fn lookup_in_a_missing_collection_records_nothing() {
    let mut registry = memory_store("users", vec![]);
    assert_eq!(registry.retrieve_item("nobody", "u1", 1, 2), Err(StoreError::CollectionNotFound));
    assert_eq!(registry.record_lookup("nobody", 3, 4), Err(StoreError::CollectionNotFound));
    assert_eq!(registry.get_times("users"), Ok(vec![]));
    assert_eq!(registry.len(), 1);
}

#[test]
fn lookup_and_recording_can_be_made_apart() {
    let mut registry = memory_store("users", vec![]);
    registry.insert_item("users", "u1".to_string(), ana()).unwrap();
    assert_eq!(registry.lookup_item("users", "u1"), Ok(ana()));
    assert_eq!(registry.lookup_item("users", "zz"), Err(StoreError::ItemNotFound));
    assert_eq!(registry.lookup_item("nobody", "u1"), Err(StoreError::CollectionNotFound));
    assert_eq!(registry.get_times("users"), Ok(vec![]));
    assert_eq!(registry.record_lookup("users", 5, 6), Ok(()));
    assert_eq!(registry.record_lookup("users", 7, 8), Ok(()));
    assert_eq!(registry.get_times("users"), Ok(vec![(5, 6), (7, 8)]));
    assert_eq!(registry.get_count("users"), Ok(1));
}

#[test]
fn latency_ring_keeps_the_2500_most_recent_samples() {
    let mut registry = memory_store("users", vec![]);
    registry.insert_item("users", "u1".to_string(), ana()).unwrap();
    for n in 0..2600u64 {
        registry.retrieve_item("users", "u1", n, 2 * n).unwrap();
    }
    let samples = registry.get_times("users").unwrap();
    assert_eq!(samples.len(), 2500);
    let expected: Vec<(u64, u64)> = (100..2600u64).map(|n| (n, 2 * n)).collect();
    assert_eq!(samples, expected);
}

#[test]
fn latency_ring_holds_exactly_its_capacity() {
    let mut registry = memory_store("users", vec![]);
    registry.insert_item("users", "u1".to_string(), ana()).unwrap();
    for n in 0..2500u64 {
        registry.retrieve_item("users", "u1", n, n).unwrap();
    }
    let samples = registry.get_times("users").unwrap();
    assert_eq!(samples.len(), 2500);
    assert_eq!(samples[0], (0, 0));
    registry.retrieve_item("users", "u1", 2500, 2500).unwrap();
    let samples = registry.get_times("users").unwrap();
    assert_eq!(samples.len(), 2500);
    assert_eq!(samples[0], (1, 1));
    assert_eq!(samples[2499], (2500, 2500));
}
