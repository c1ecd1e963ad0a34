use sso_adapter::assoc::OrderedMap;
use sso_adapter::query::{
    map_to_query, multimap_to_pairs, multimap_to_query, query_to_map, query_to_multimap,
    QueryMap, QueryMultimap,
};

fn s(text: &str) -> String {
    text.to_string()
}

fn multimap(entries: Vec<(&str, Vec<&str>)>) -> QueryMultimap {
    OrderedMap {
        entries: entries
            .into_iter()
            .map(|(k, vs)| (s(k), vs.into_iter().map(s).collect()))
            .collect(),
    }
}

fn map(entries: Vec<(&str, &str)>) -> QueryMap {
    OrderedMap { entries: entries.into_iter().map(|(k, v)| (s(k), s(v))).collect() }
}

#[test]
fn multimap_keeps_repeated_names_in_order() {
    assert_eq!(
        query_to_multimap("a=1&b=2&a=3"),
        multimap(vec![("a", vec!["1", "3"]), ("b", vec!["2"])])
    );
}

#[test]
fn multimap_decodes_percent_and_plus() {
    assert_eq!(
        query_to_multimap("na%20me=a+b%26c"),
        multimap(vec![("na me", vec!["a b&c"])])
    );
}

#[test]
fn multimap_of_an_empty_query_is_empty() {
    assert_eq!(query_to_multimap(""), multimap(vec![]));
}

#[test]
fn multimap_reads_a_name_without_a_value() {
    assert_eq!(query_to_multimap("flag&x="), multimap(vec![("flag", vec![""]), ("x", vec![""])]));
}

#[test]
fn map_keeps_the_last_value_of_a_name() {
    assert_eq!(query_to_map("a=1&b=2&a=3"), map(vec![("a", "3"), ("b", "2")]));
}

#[test]
fn map_is_written_pair_by_pair() {
    assert_eq!(map_to_query(&map(vec![("a", "1"), ("b c", "x&y")])), "a=1&b+c=x%26y");
}

#[test]
fn multimap_is_written_one_pair_for_each_value() {
    let m = multimap(vec![("uid", vec!["42"]), ("tag", vec!["a", "b"])]);
    assert_eq!(multimap_to_query(&m), "uid=42&tag=a&tag=b");
    assert_eq!(
        multimap_to_pairs(&m),
        vec![(s("uid"), s("42")), (s("tag"), s("a")), (s("tag"), s("b"))]
    );
}

#[test]
fn multimap_round_trip_keeps_names_values_and_order() {
    let m = multimap(vec![("b", vec!["2", "1"]), ("a b", vec!["x=y&z", "+"]), ("", vec![""])]);
    assert_eq!(query_to_multimap(&multimap_to_query(&m)), m);
}

#[test]
fn multimap_round_trip_loses_a_name_without_values() {
    let m = multimap(vec![("a", vec![])]);
    assert_eq!(query_to_multimap(&multimap_to_query(&m)), multimap(vec![]));
}

#[test]
fn ordered_map_sets_removes_and_finds() {
    let mut m: QueryMap = OrderedMap::new();
    assert!(m.is_empty());
    m.insert(s("a"), s("1"));
    m.insert(s("b"), s("2"));
    m.insert(s("a"), s("3"));
    assert_eq!(m, map(vec![("a", "3"), ("b", "2")]));
    assert_eq!(m.len(), 2);
    assert_eq!(m.position("b"), Some(1));
    assert_eq!(m.get("a"), Some(&s("3")));
    assert!(m.contains_key("b"));
    assert_eq!(m.remove("a"), Some(s("3")));
    assert_eq!(m.remove("a"), None);
    assert_eq!(m, map(vec![("b", "2")]));
}

#[test]
fn round_trips_hold_beyond_ascii() {
    let m = multimap(vec![("名", vec!["é ü", "&="]), ("k", vec!["\u{1F600}"])]);
    assert_eq!(query_to_multimap(&multimap_to_query(&m)), m);
    let single = map(vec![("k", "a b"), ("名", "é")]);
    assert_eq!(map_to_query(&map(vec![("k", "a b")])), "k=a+b");
    assert_eq!(query_to_map(&map_to_query(&single)), single);
}
