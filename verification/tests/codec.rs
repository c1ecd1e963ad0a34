use sso_adapter::assoc::OrderedMap;
use sso_adapter::flat::{
    can_unflatten, flat_map_to_json, json_body_to_string, json_to_flat_map, key_is_insertable,
    merge_subfields, parse_key_path, try_flat_map_to_json, FlatMap,
};
use sso_adapter::json::{json_from_bytes, json_to_bytes, Json, Scalar};

fn s(text: &str) -> String {
    text.to_string()
}

fn text(v: &str) -> Scalar {
    Scalar::Str(s(v))
}

fn obj(fields: Vec<(&str, Json)>) -> Json {
    Json::Object(OrderedMap { entries: fields.into_iter().map(|(k, v)| (s(k), v)).collect() })
}

fn flat(entries: Vec<(&str, Scalar)>) -> FlatMap {
    OrderedMap { entries: entries.into_iter().map(|(k, v)| (s(k), v)).collect() }
}

fn flatten(value: &Json) -> FlatMap {
    let mut map = OrderedMap::new();
    json_to_flat_map(value, "", &mut map);
    map
}

#[test]
fn flatten_joins_object_keys_with_dots() {
    let value = obj(vec![("a", obj(vec![("b", Json::Leaf(text("x")))])), ("c", Json::Leaf(Scalar::Bool(true)))]);
    assert_eq!(flatten(&value), flat(vec![("a.b", text("x")), ("c", Scalar::Bool(true))]));
}

#[test]
fn flatten_writes_array_items_with_brackets() {
    let value = obj(vec![(
        "list",
        Json::Array(vec![obj(vec![("n", Json::Leaf(Scalar::Number(s("1"))))]), obj(vec![("n", Json::Leaf(Scalar::Number(s("2"))))])]),
    )]);
    assert_eq!(
        flatten(&value),
        flat(vec![("list[0].n", Scalar::Number(s("1"))), ("list[1].n", Scalar::Number(s("2")))])
    );
}

#[test]
fn flatten_of_a_top_level_scalar_uses_the_empty_key() {
    assert_eq!(flatten(&Json::Leaf(Scalar::Null)), flat(vec![("", Scalar::Null)]));
}

#[test]
fn flatten_of_a_top_level_array_starts_with_a_bracket() {
    let value = Json::Array(vec![Json::Leaf(text("a")), Json::Leaf(text("b"))]);
    assert_eq!(flatten(&value), flat(vec![("[0]", text("a")), ("[1]", text("b"))]));
}

#[test]
fn flatten_writes_index_ten_in_decimal() {
    let items: Vec<Json> = (0..11).map(|_| Json::Leaf(Scalar::Null)).collect();
    let map = flatten(&Json::Array(items));
    assert_eq!(map.entries[10].0, "[10]");
}

#[test]
fn flatten_into_a_map_that_holds_the_key_replaces_the_value() {
    let mut map = flat(vec![("a", text("old")), ("z", text("kept"))]);
    json_to_flat_map(&obj(vec![("a", Json::Leaf(text("new")))]), "", &mut map);
    assert_eq!(map, flat(vec![("a", text("new")), ("z", text("kept"))]));
}

#[test]
fn key_path_of_the_documented_example() {
    assert_eq!(parse_key_path("aa[0].bb[1].cc"), vec!["aa", "0", "bb", "1", "cc"]);
}

#[test]
fn key_path_takes_digits_before_words() {
    assert_eq!(parse_key_path("1a"), vec!["1", "a"]);
    assert_eq!(parse_key_path("a1"), vec!["a1"]);
    assert_eq!(parse_key_path("a_b.c"), vec!["a_b", "c"]);
}

#[test]
fn key_path_passes_over_other_characters() {
    assert_eq!(parse_key_path("[x]"), vec!["x"]);
    assert_eq!(parse_key_path("[12"), vec!["12"]);
    assert_eq!(parse_key_path("a b-c"), vec!["a", "b", "c"]);
    assert_eq!(parse_key_path(""), Vec::<String>::new());
    assert_eq!(parse_key_path("..."), Vec::<String>::new());
}

#[test]
fn unflatten_builds_nested_objects() {
    let map = flat(vec![("auth.token", text("abc"))]);
    assert_eq!(flat_map_to_json(&map), obj(vec![("auth", obj(vec![("token", Json::Leaf(text("abc")))]))]));
}

#[test]
fn unflatten_pads_arrays_with_null() {
    let map = flat(vec![("a[2].b", text("x"))]);
    let expected = obj(vec![(
        "a",
        Json::Array(vec![Json::Leaf(Scalar::Null), Json::Leaf(Scalar::Null), obj(vec![("b", Json::Leaf(text("x")))])]),
    )]);
    assert_eq!(flat_map_to_json(&map), expected);
}

#[test]
fn unflatten_of_an_empty_key_sets_nothing() {
    let map = flat(vec![("", text("x"))]);
    assert_eq!(flat_map_to_json(&map), obj(vec![]));
}

#[test]
fn unflatten_refuses_an_index_at_the_leaf() {
    let map = flat(vec![("tags[0]", text("x"))]);
    assert!(!can_unflatten(&map));
    assert_eq!(try_flat_map_to_json(&map), None);
    assert!(!key_is_insertable("tags[0]"));
    assert!(!key_is_insertable("7"));
    assert!(key_is_insertable("tags[0].name"));
    assert!(key_is_insertable(""));
}

#[test]
fn round_trip_of_nested_objects_and_arrays_of_objects() {
    let value = obj(vec![
        ("user", obj(vec![("name", Json::Leaf(text("ann"))), ("age", Json::Leaf(Scalar::Number(s("7"))))])),
        ("items", Json::Array(vec![obj(vec![("id", Json::Leaf(Scalar::Bool(false)))]), obj(vec![("id", Json::Leaf(Scalar::Null))])])),
    ]);
    let map = flatten(&value);
    assert_eq!(try_flat_map_to_json(&map), Some(value));
}

#[test]
fn merge_takes_the_exact_key_alone() {
    let map = flat(vec![("user", text("u")), ("user.name", text("n"))]);
    let mut pairs = OrderedMap::new();
    merge_subfields(&map, "user", &mut pairs);
    assert_eq!(pairs, flat(vec![("user", text("u"))]));
}

#[test]
fn merge_takes_the_sub_fields_without_their_prefix() {
    let map = flat(vec![("user.name", text("n")), ("other", text("o")), ("user.id", Scalar::Number(s("3")))]);
    let mut pairs = OrderedMap::new();
    merge_subfields(&map, "user", &mut pairs);
    assert_eq!(pairs, flat(vec![("name", text("n")), ("id", Scalar::Number(s("3")))]));
}

#[test]
fn body_string_of_one_string_entry_is_that_string() {
    assert_eq!(json_body_to_string(&flat(vec![("k", text("raw value"))]), "{key}={value}"), "raw value");
}

#[test]
fn body_string_sorts_and_joins() {
    let map = flat(vec![("b", text("2")), ("a", Scalar::Number(s("1"))), ("c", Scalar::Bool(true))]);
    assert_eq!(json_body_to_string(&map, "{key}={value}"), "a=1; b=2; c=true");
}

#[test]
fn body_string_of_one_entry_that_is_no_string_is_formatted() {
    assert_eq!(json_body_to_string(&flat(vec![("n", Scalar::Null)]), "{key}={value}"), "n=null");
}

#[test]
fn body_string_of_nothing_is_empty() {
    assert_eq!(json_body_to_string(&flat(vec![]), "{key}={value}"), "");
}

#[test]
fn json_text_is_parsed_into_a_tree() {
    let parsed = json_from_bytes(br#"{"b":[1,"x",null],"a":{"t":true}}"#).unwrap();
    let expected = obj(vec![
        ("a", obj(vec![("t", Json::Leaf(Scalar::Bool(true)))])),
        ("b", Json::Array(vec![Json::Leaf(Scalar::Number(s("1"))), Json::Leaf(text("x")), Json::Leaf(Scalar::Null)])),
    ]);
    assert_eq!(parsed, expected);
    assert_eq!(json_from_bytes(b"{not json"), None);
}

#[test]
fn json_tree_is_written_as_compact_text() {
    let value = obj(vec![("n", Json::Leaf(Scalar::Number(s("1.5")))), ("a", Json::Array(vec![Json::Leaf(text("q\"")), Json::Leaf(Scalar::Bool(false))]))]);
    assert_eq!(json_to_bytes(&value).unwrap(), br#"{"a":["q\"",false],"n":1.5}"#.to_vec());
}

#[test]
fn json_tree_with_a_number_that_is_none_is_not_written() {
    assert_eq!(json_to_bytes(&Json::Leaf(Scalar::Number(s("12abc")))), None);
}

#[test]
fn an_object_that_holds_an_array_becomes_its_numbered_items() {
    let mut map = OrderedMap {
        entries: vec![
            (s("other"), Json::Leaf(Scalar::Bool(true))),
            (
                s("_array"),
                Json::Array(vec![
                    obj(vec![("_array", Json::Array(vec![Json::Leaf(text("deep"))]))]),
                    Json::Leaf(text("x")),
                ]),
            ),
        ],
    };
    sso_adapter::flat::post_process_arrays(&mut map);
    let expected = OrderedMap {
        entries: vec![
            (s("0"), obj(vec![("0", Json::Leaf(text("deep")))])),
            (s("1"), Json::Leaf(text("x"))),
        ],
    };
    assert_eq!(map, expected);
}

#[test]
fn an_object_without_an_array_keeps_its_fields() {
    let mut map = OrderedMap {
        entries: vec![
            (s("a"), obj(vec![("_array", Json::Array(vec![Json::Leaf(Scalar::Null)]))])),
            (s("_array"), Json::Leaf(text("no array"))),
            (s("b"), Json::Leaf(Scalar::Number(s("2")))),
        ],
    };
    sso_adapter::flat::post_process_arrays(&mut map);
    let expected = OrderedMap {
        entries: vec![
            (s("a"), obj(vec![("0", Json::Leaf(Scalar::Null))])),
            (s("b"), Json::Leaf(Scalar::Number(s("2")))),
        ],
    };
    assert_eq!(map, expected);
}

#[test]
fn key_path_takes_words_and_digits_of_any_script() {
    assert_eq!(parse_key_path("名字.é1[2].ключ"), vec!["名字", "é1", "2", "ключ"]);
    assert_eq!(parse_key_path("٣a"), vec!["٣", "a"]);
    assert_eq!(parse_key_path("a·b→c"), vec!["a", "b", "c"]);
    assert!(key_is_insertable("x.٣"));
    assert!(!key_is_insertable("x.3"));
}

#[test]
fn round_trip_of_names_beyond_ascii() {
    let value = obj(vec![
        ("é", Json::Leaf(text("x"))),
        ("名字", obj(vec![("ключ", Json::Leaf(Scalar::Bool(true)))])),
    ]);
    let map = flatten(&value);
    assert_eq!(map, flat(vec![("é", text("x")), ("名字.ключ", Scalar::Bool(true))]));
    assert_eq!(try_flat_map_to_json(&map), Some(value));
}
