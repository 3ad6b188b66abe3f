use docstore::codec::from_value;
use docstore::codec::parse_json;
use docstore::codec::to_text;
use docstore::codec::to_value;
use docstore::json::Json;

fn text(value: &str) -> Json {
    Json::String(value.to_string())
}

fn number(n: u64) -> Json {
    Json::Number(serde_json::Number::from(n))
}

fn object(members: Vec<(&str, Json)>) -> Json {
    Json::Object(members.into_iter().map(|(key, value)| (key.to_string(), value)).collect())
}

#[test]
fn parse_reads_every_kind_of_value() {
    assert_eq!(parse_json("null"), Some(Json::Null));
    assert_eq!(parse_json("true"), Some(Json::Bool(true)));
    assert_eq!(parse_json("false"), Some(Json::Bool(false)));
    assert_eq!(parse_json("17"), Some(number(17)));
    assert_eq!(parse_json("-3"), Some(Json::Number(serde_json::Number::from(-3i64))));
    assert_eq!(
        parse_json("1.5"),
        Some(Json::Number(serde_json::Number::from_f64(1.5).unwrap()))
    );
    assert_eq!(parse_json("\"a\\nb\""), Some(text("a\nb")));
    assert_eq!(parse_json("[]"), Some(Json::Array(vec![])));
    assert_eq!(parse_json("{}"), Some(Json::Object(vec![])));
    assert_eq!(
        parse_json(" [1, [2, \"x\"], {\"k\": null}] "),
        Some(Json::Array(vec![
            number(1),
            Json::Array(vec![number(2), text("x")]),
            object(vec![("k", Json::Null)]),
        ]))
    );
}

#[test]
fn parse_hands_members_out_in_the_order_of_their_keys() {
    assert_eq!(
        parse_json("{\"b\": 1, \"a\": 2, \"c\": {\"z\": true, \"y\": false}}"),
        Some(object(vec![
            ("a", number(2)),
            ("b", number(1)),
            ("c", object(vec![("y", Json::Bool(false)), ("z", Json::Bool(true))])),
        ]))
    );
}

#[test]
fn parse_keeps_the_last_of_two_members_with_one_key() {
    assert_eq!(parse_json("{\"a\": 1, \"a\": 2}"), Some(object(vec![("a", number(2))])));
}

#[test]
fn parse_refuses_what_is_not_json() {
    assert_eq!(parse_json(""), None);
    assert_eq!(parse_json("   "), None);
    assert_eq!(parse_json("{"), None);
    assert_eq!(parse_json("{\"a\":}"), None);
    assert_eq!(parse_json("[1,]"), None);
    assert_eq!(parse_json("nul"), None);
    assert_eq!(parse_json("{} {}"), None);
    assert_eq!(parse_json("'a'"), None);
}

#[test]
fn text_of_every_kind_of_value() {
    assert_eq!(to_text(&Json::Null), "null");
    assert_eq!(to_text(&Json::Bool(true)), "true");
    assert_eq!(to_text(&number(17)), "17");
    assert_eq!(to_text(&text("a\"b\n")), "\"a\\\"b\\n\"");
    assert_eq!(to_text(&Json::Array(vec![])), "[]");
    assert_eq!(to_text(&Json::Object(vec![])), "{}");
    assert_eq!(
        to_text(&Json::Array(vec![number(1), Json::Null, object(vec![("k", text("v"))])])),
        "[1,null,{\"k\":\"v\"}]"
    );
}

#[test]
fn text_has_members_in_the_order_of_their_keys() {
    let doc = object(vec![("name", text("Ana")), ("_id", text("u1")), ("age", number(30))]);
    assert_eq!(to_text(&doc), "{\"_id\":\"u1\",\"age\":30,\"name\":\"Ana\"}");
}

#[test]
fn text_takes_the_last_of_two_members_with_one_key() {
    let doc = object(vec![("a", number(1)), ("b", number(5)), ("a", number(2))]);
    assert_eq!(to_text(&doc), "{\"a\":2,\"b\":5}");
}

#[test]
fn text_of_a_document_reads_as_the_document() {
    let doc = object(vec![
        ("_id", text("u1")),
        ("list", Json::Array(vec![Json::Bool(false), Json::Null, text("")])),
        ("nested", object(vec![("n", Json::Number(serde_json::Number::from(-12i64)))])),
    ]);
    assert_eq!(parse_json(&to_text(&doc)), Some(doc));
}

#[test]
fn values_convert_both_ways() {
    let doc = object(vec![
        ("a", Json::Array(vec![number(1), text("x"), Json::Bool(true), Json::Null])),
        ("b", object(vec![("c", number(3))])),
    ]);
    let value = to_value(&doc);
    assert!(value.is_object());
    assert_eq!(value["a"][1], serde_json::Value::String("x".to_string()));
    assert_eq!(value["a"][2], serde_json::Value::Bool(true));
    assert_eq!(value["a"][3], serde_json::Value::Null);
    assert_eq!(value["b"]["c"], serde_json::Value::Number(serde_json::Number::from(3u64)));
    assert_eq!(value.as_object().unwrap().len(), 2);
    assert_eq!(value["a"].as_array().unwrap().len(), 4);
    assert_eq!(from_value(value), doc);
}

#[test]
fn arrays_keep_their_order_both_ways() {
    let items: Vec<Json> = (0..20u64).map(number).collect();
    let doc = Json::Array(items);
    assert_eq!(from_value(to_value(&doc)), doc);
    assert_eq!(to_text(&doc), "[0,1,2,3,4,5,6,7,8,9,10,11,12,13,14,15,16,17,18,19]");
}
