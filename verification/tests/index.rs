use docstore::index::Index;

fn ids(index: &Index, key: &str) -> Vec<String> {
    index.bucket(key)
}

#[test]
fn new_index_has_no_buckets() {
    let index = Index::new("role".to_string());
    assert_eq!(index.field(), "role");
    assert_eq!(index.bucket_count(), 0);
    assert_eq!(ids(&index, "admin"), Vec::<String>::new());
}

#[test]
fn add_enters_identifiers_in_order_and_once() {
    let mut index = Index::new("role".to_string());
    index.add("admin", "b");
    index.add("admin", "a");
    index.add("admin", "b");
    index.add("guest", "c");
    assert_eq!(ids(&index, "admin"), vec!["b".to_string(), "a".to_string()]);
    assert_eq!(ids(&index, "guest"), vec!["c".to_string()]);
    assert_eq!(ids(&index, "other"), Vec::<String>::new());
    assert_eq!(index.bucket_count(), 2);
}

#[test]
fn remove_takes_one_identifier_out_of_one_bucket() {
    let mut index = Index::new("role".to_string());
    for id in ["a", "b", "c"] {
        index.add("admin", id);
    }
    index.add("guest", "b");
    index.remove("admin", "b");
    assert_eq!(ids(&index, "admin"), vec!["a".to_string(), "c".to_string()]);
    assert_eq!(ids(&index, "guest"), vec!["b".to_string()]);
    index.remove("admin", "zz");
    index.remove("nobody", "a");
    assert_eq!(ids(&index, "admin"), vec!["a".to_string(), "c".to_string()]);
}

#[test]
fn emptied_bucket_stays() {
    let mut index = Index::new("role".to_string());
    index.add("admin", "a");
    index.remove("admin", "a");
    assert_eq!(ids(&index, "admin"), Vec::<String>::new());
    assert_eq!(index.bucket_count(), 1);
    index.add("admin", "b");
    assert_eq!(ids(&index, "admin"), vec!["b".to_string()]);
    assert_eq!(index.bucket_count(), 1);
}

#[test]
fn buckets_of_many_keys_are_all_found() {
    let mut index = Index::new("k".to_string());
    let keys = ["m", "c", "x", "a", "", "zz", "b", "é", "$$null"];
    for (n, key) in keys.iter().enumerate() {
        index.add(key, &n.to_string());
    }
    assert_eq!(index.bucket_count(), keys.len());
    for (n, key) in keys.iter().enumerate() {
        assert_eq!(ids(&index, key), vec![n.to_string()]);
    }
}

#[test]
fn keys_come_in_ascending_order() {
    let mut index = Index::new("k".to_string());
    for key in ["m", "c", "x", "a", "", "zz", "b"] {
        index.add(key, "id");
    }
    assert_eq!(
        index.keys(),
        vec!["", "a", "b", "c", "m", "x", "zz"].into_iter().map(String::from).collect::<Vec<_>>()
    );
}
