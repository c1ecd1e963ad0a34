use hyper::header::HeaderValue;
use hyper::HeaderMap;
use sso_adapter::assoc::OrderedMap;
use sso_adapter::config::{MixAction, MixMapping, MixSource, MixTarget, Transformation};
use sso_adapter::egress::set_text_header;
use sso_adapter::headers::{bytes_to_text, text_to_bytes};
use sso_adapter::pipeline::header_text;
use sso_adapter::json::Scalar;
use sso_adapter::rules::{
    apply_mapping, apply_mappings, get_bodymap_val, get_header_val, get_querymap_val,
    write_header, RuleError, WorkingState,
};

fn s(text: &str) -> String {
    text.to_string()
}

fn state(headers: Vec<(&'static str, &'static str)>, query: Vec<(&str, Vec<&str>)>, body: Vec<(&str, Scalar)>) -> WorkingState {
    let mut map = HeaderMap::new();
    for (k, v) in headers {
        map.append(k, HeaderValue::from_static(v));
    }
    WorkingState {
        headers: map,
        query: OrderedMap {
            entries: query.into_iter().map(|(k, vs)| (s(k), vs.into_iter().map(s).collect())).collect(),
        },
        body: OrderedMap { entries: body.into_iter().map(|(k, v)| (s(k), v)).collect() },
    }
}

fn rule(source: MixSource, target: MixTarget, action: MixAction, transformations: Option<Vec<Transformation>>) -> MixMapping {
    MixMapping { source, target, action, transformations }
}

fn body_of(st: &WorkingState) -> Vec<(String, Scalar)> {
    st.body.entries.clone()
}

fn query_of(st: &WorkingState) -> Vec<(String, Vec<String>)> {
    st.query.entries.clone()
}

fn header(st: &WorkingState, name: &str) -> Option<String> {
    st.headers.get(name).map(|v| v.to_str().unwrap().to_string())
}

#[test]
fn header_lookup_ignores_case_and_takes_the_first_value() {
    let mut st = state(vec![("x-a", "1"), ("x-a", "2")], vec![], vec![]);
    assert_eq!(get_header_val(&mut st.headers, &MixAction::Copy, &s("X-A")), Ok(Some(b"1".to_vec())));
    assert_eq!(get_header_val(&mut st.headers, &MixAction::Copy, &s("x-b")), Ok(None));
    assert_eq!(get_header_val(&mut st.headers, &MixAction::Copy, &s("not a name")), Ok(None));
    assert_eq!(header_text(&st.headers, "X-a"), Some(s("1")));
    assert_eq!(header_text(&st.headers, "x-b"), None);
}

#[test]
fn header_remove_takes_every_value_out() {
    let mut st = state(vec![("x-a", "1"), ("x-a", "2"), ("x-b", "3")], vec![], vec![]);
    assert_eq!(get_header_val(&mut st.headers, &MixAction::Move, &s("X-a")), Ok(Some(b"1".to_vec())));
    assert_eq!(st.headers.get_all("x-a").iter().count(), 0);
    assert_eq!(header(&st, "x-b"), Some(s("3")));
    assert_eq!(get_header_val(&mut st.headers, &MixAction::Move, &s("x-a")), Ok(None));
}

#[test]
fn header_insert_leaves_one_value() {
    let mut st = state(vec![("x-a", "1"), ("x-a", "2")], vec![], vec![]);
    assert!(set_text_header(&mut st.headers, "X-A", "new"));
    let all: Vec<_> = st.headers.get_all("x-a").iter().map(|v| v.as_bytes().to_vec()).collect();
    assert_eq!(all, vec![b"new".to_vec()]);
    assert!(!set_text_header(&mut st.headers, "bad name", "v"));
    assert!(!set_text_header(&mut st.headers, "x-c", "line\nbreak"));
}

#[test]
fn header_text_and_bytes() {
    assert_eq!(bytes_to_text(&b"a b\t~".to_vec()), Some(s("a b\t~")));
    assert_eq!(bytes_to_text(&vec![0x61, 0xff]), None);
    assert_eq!(bytes_to_text(&vec![0x7f]), None);
    assert_eq!(text_to_bytes("abc 1"), Some(b"abc 1".to_vec()));
    assert_eq!(text_to_bytes("é"), Some(vec![0xc3, 0xa9]));
    assert_eq!(text_to_bytes("a\nb"), None);
    assert_eq!(text_to_bytes("\u{7f}"), None);
}

#[test]
fn reading_a_header_by_action() {
    let mut st = state(vec![("x-a", "1")], vec![], vec![]);
    assert_eq!(get_header_val(&mut st.headers, &MixAction::Copy, &s("X-A")), Ok(Some(b"1".to_vec())));
    assert_eq!(header(&st, "x-a"), Some(s("1")));
    assert_eq!(get_header_val(&mut st.headers, &MixAction::AddTarget(s("lit")), &s("x-a")), Ok(Some(b"lit".to_vec())));
    assert_eq!(get_header_val(&mut st.headers, &MixAction::AddTarget(s("é")), &s("x-a")), Ok(Some(vec![0xc3, 0xa9])));
    assert_eq!(get_header_val(&mut st.headers, &MixAction::AddTarget(s("a\nb")), &s("x-a")), Err(RuleError::HeaderRejected));
    assert_eq!(get_header_val(&mut st.headers, &MixAction::Move, &s("x-a")), Ok(Some(b"1".to_vec())));
    assert_eq!(header(&st, "x-a"), None);
    let mut st = state(vec![("x-a", "1")], vec![], vec![]);
    assert_eq!(get_header_val(&mut st.headers, &MixAction::DeleteSrc, &s("x-a")), Ok(None));
    assert_eq!(header(&st, "x-a"), None);
}

#[test]
fn reading_a_query_name_by_action() {
    let mut st = state(vec![], vec![("a", vec!["1", "2"])], vec![]);
    assert_eq!(get_querymap_val(&mut st.query, &MixAction::Copy, &s("a")), Some(vec![s("1"), s("2")]));
    assert_eq!(query_of(&st).len(), 1);
    assert_eq!(get_querymap_val(&mut st.query, &MixAction::AddTarget(s("x")), &s("a")), Some(vec![s("x")]));
    assert_eq!(get_querymap_val(&mut st.query, &MixAction::Move, &s("a")), Some(vec![s("1"), s("2")]));
    assert_eq!(query_of(&st).len(), 0);
    assert_eq!(get_querymap_val(&mut st.query, &MixAction::Move, &s("a")), None);
    assert_eq!(get_querymap_val(&mut st.query, &MixAction::DeleteSrc, &s("a")), None);
}

#[test]
fn reading_a_single_valued_map_by_action() {
    let mut m = OrderedMap { entries: vec![(s("a"), s("1"))] };
    assert_eq!(get_bodymap_val(&mut m, &MixAction::Copy, &s("a")), Some(s("1")));
    assert_eq!(get_bodymap_val(&mut m, &MixAction::AddTarget(s("x")), &s("b")), Some(s("x")));
    assert_eq!(get_bodymap_val(&mut m, &MixAction::DeleteSrc, &s("a")), None);
    assert!(m.is_empty());
    assert_eq!(get_bodymap_val(&mut m, &MixAction::Move, &s("a")), None);
}

#[test]
fn move_header_to_body_removes_the_header() {
    let mut st = state(vec![("x-token", "YWJj")], vec![], vec![]);
    let m = rule(MixSource::Header(s("X-Token")), MixTarget::BodyField(s("auth.token")), MixAction::Move, Some(vec![Transformation::Base64Decode]));
    assert_eq!(apply_mapping(&mut st, &m), Ok(()));
    assert_eq!(header(&st, "x-token"), None);
    assert_eq!(body_of(&st), vec![(s("auth.token"), Scalar::Str(s("abc")))]);
}

#[test]
fn copy_header_to_query_keeps_the_header() {
    let mut st = state(vec![("x-id", "7")], vec![("q", vec!["1"])], vec![]);
    let m = rule(MixSource::Header(s("x-id")), MixTarget::Query(s("id")), MixAction::Copy, None);
    assert_eq!(apply_mapping(&mut st, &m), Ok(()));
    assert_eq!(header(&st, "x-id"), Some(s("7")));
    assert_eq!(query_of(&st), vec![(s("q"), vec![s("1")]), (s("id"), vec![s("7")])]);
}

#[test]
fn a_transformation_that_leaves_nothing_writes_the_value_as_read() {
    let mut st = state(vec![("x-id", "7")], vec![], vec![]);
    let ts = Some(vec![Transformation::Split { separator: s(","), index: 3 }]);
    let m = rule(MixSource::Header(s("x-id")), MixTarget::Header(s("x-out")), MixAction::Copy, ts);
    assert_eq!(apply_mapping(&mut st, &m), Ok(()));
    assert_eq!(header(&st, "x-out"), Some(s("7")));
}

#[test]
fn header_to_header_with_transformations() {
    let mut st = state(vec![("authorization", "Bearer abc")], vec![], vec![]);
    let ts = Some(vec![Transformation::Split { separator: s(" "), index: 1 }]);
    let m = rule(MixSource::Header(s("Authorization")), MixTarget::Header(s("x-token")), MixAction::Move, ts);
    assert_eq!(apply_mapping(&mut st, &m), Ok(()));
    assert_eq!(header(&st, "authorization"), None);
    assert_eq!(header(&st, "x-token"), Some(s("abc")));
}

#[test]
fn a_header_that_is_absent_writes_nothing() {
    let mut st = state(vec![], vec![], vec![]);
    let m = rule(MixSource::Header(s("x-none")), MixTarget::BodyField(s("f")), MixAction::Move, None);
    assert_eq!(apply_mapping(&mut st, &m), Ok(()));
    assert!(body_of(&st).is_empty());
}

#[test]
fn a_header_that_is_no_text_cannot_go_to_the_body() {
    let mut st = state(vec![], vec![], vec![]);
    st.headers.insert("x-bin", HeaderValue::from_bytes(&[0x61, 0xfe]).unwrap());
    let m = rule(MixSource::Header(s("x-bin")), MixTarget::BodyField(s("f")), MixAction::Copy, None);
    assert_eq!(apply_mapping(&mut st, &m), Err(RuleError::HeaderNotText));
}

#[test]
fn a_header_that_is_no_text_is_copied_as_it_is() {
    let mut st = state(vec![], vec![], vec![]);
    st.headers.insert("x-bin", HeaderValue::from_bytes(&[0x61, 0xfe]).unwrap());
    let m = rule(MixSource::Header(s("x-bin")), MixTarget::Header(s("x-copy")), MixAction::Copy, None);
    assert_eq!(apply_mapping(&mut st, &m), Ok(()));
    assert_eq!(st.headers.get("x-copy").unwrap().as_bytes(), &[0x61, 0xfe]);
}

#[test]
fn a_header_name_that_is_none_is_rejected() {
    let mut st = state(vec![("x-a", "1")], vec![], vec![]);
    let m = rule(MixSource::Header(s("x-a")), MixTarget::Header(s("bad name")), MixAction::Copy, None);
    assert_eq!(apply_mapping(&mut st, &m), Err(RuleError::HeaderRejected));
}

#[test]
fn add_target_ignores_the_source() {
    let mut st = state(vec![], vec![], vec![]);
    let m = rule(MixSource::Header(s("x-none")), MixTarget::Query(s("k")), MixAction::AddTarget(s("lit")), None);
    assert_eq!(apply_mapping(&mut st, &m), Ok(()));
    assert_eq!(query_of(&st), vec![(s("k"), vec![s("lit")])]);
    let m = rule(MixSource::BodyField(s("none")), MixTarget::BodyField(s("k")), MixAction::AddTarget(s("v")), None);
    assert_eq!(apply_mapping(&mut st, &m), Ok(()));
    assert_eq!(body_of(&st), vec![(s("k"), Scalar::Str(s("v")))]);
    let m = rule(MixSource::Query(s("none")), MixTarget::Header(s("x-k")), MixAction::AddTarget(s("h")), None);
    assert_eq!(apply_mapping(&mut st, &m), Ok(()));
    assert_eq!(header(&st, "x-k"), Some(s("h")));
}

#[test]
fn copy_query_to_query_keeps_every_value() {
    let mut st = state(vec![], vec![("uid", vec!["42", "43"])], vec![]);
    let m = rule(MixSource::Query(s("uid")), MixTarget::Query(s("user")), MixAction::Copy, None);
    assert_eq!(apply_mapping(&mut st, &m), Ok(()));
    assert_eq!(query_of(&st), vec![(s("uid"), vec![s("42"), s("43")]), (s("user"), vec![s("42"), s("43")])]);
}

#[test]
fn query_values_are_joined_for_transformations_and_cut_again() {
    let mut st = state(vec![], vec![("ids", vec!["a", "b"])], vec![]);
    let ts = Some(vec![Transformation::Append { value: s(",c") }]);
    let m = rule(MixSource::Query(s("ids")), MixTarget::Query(s("out")), MixAction::Move, ts);
    assert_eq!(apply_mapping(&mut st, &m), Ok(()));
    assert_eq!(query_of(&st), vec![(s("out"), vec![s("a"), s("b"), s("c")])]);
}

#[test]
fn move_query_to_header_and_body() {
    let mut st = state(vec![], vec![("ids", vec!["a", "b"]), ("k", vec!["v"])], vec![]);
    let m = rule(MixSource::Query(s("ids")), MixTarget::Header(s("x-ids")), MixAction::Move, None);
    assert_eq!(apply_mapping(&mut st, &m), Ok(()));
    assert_eq!(header(&st, "x-ids"), Some(s("a,b")));
    let m = rule(MixSource::Query(s("k")), MixTarget::BodyField(s("key")), MixAction::Move, Some(vec![Transformation::Format { format: s("p-") }]));
    assert_eq!(apply_mapping(&mut st, &m), Ok(()));
    assert_eq!(body_of(&st), vec![(s("key"), Scalar::Str(s("p-v")))]);
    assert!(query_of(&st).is_empty());
}

#[test]
fn move_body_field_to_another_key() {
    let mut st = state(vec![], vec![], vec![("a", Scalar::Str(s("1"))), ("b", Scalar::Bool(true))]);
    let m = rule(MixSource::BodyField(s("a")), MixTarget::BodyField(s("x.y")), MixAction::Move, None);
    assert_eq!(apply_mapping(&mut st, &m), Ok(()));
    assert_eq!(body_of(&st), vec![(s("b"), Scalar::Bool(true)), (s("x.y"), Scalar::Str(s("1")))]);
}

#[test]
fn copy_body_field_keeps_the_source() {
    let mut st = state(vec![], vec![], vec![("a", Scalar::Str(s("1")))]);
    let m = rule(MixSource::BodyField(s("a")), MixTarget::BodyField(s("b")), MixAction::Copy, None);
    assert_eq!(apply_mapping(&mut st, &m), Ok(()));
    assert_eq!(body_of(&st), vec![(s("a"), Scalar::Str(s("1"))), (s("b"), Scalar::Str(s("1")))]);
}

#[test]
fn move_body_sub_fields_to_a_header() {
    let mut st = state(vec![], vec![], vec![("user.name", Scalar::Str(s("ann"))), ("user.id", Scalar::Number(s("7"))), ("keep", Scalar::Null)]);
    let m = rule(MixSource::BodyField(s("user")), MixTarget::Header(s("x-user")), MixAction::Move, None);
    assert_eq!(apply_mapping(&mut st, &m), Ok(()));
    assert_eq!(header(&st, "x-user"), Some(s("id=7; name=ann")));
    assert_eq!(body_of(&st), vec![(s("keep"), Scalar::Null)]);
}

#[test]
fn copy_body_field_to_query() {
    let mut st = state(vec![], vec![], vec![("token", Scalar::Str(s("t1")))]);
    let m = rule(MixSource::BodyField(s("token")), MixTarget::Query(s("t")), MixAction::Copy, None);
    assert_eq!(apply_mapping(&mut st, &m), Ok(()));
    assert_eq!(query_of(&st), vec![(s("t"), vec![s("t1")])]);
    assert_eq!(body_of(&st).len(), 1);
}

#[test]
fn delete_src_removes_and_writes_nothing() {
    let mut st = state(vec![("x-a", "1")], vec![("q", vec!["1"])], vec![("f", Scalar::Null), ("f.f", Scalar::Null)]);
    let rules = vec![
        rule(MixSource::Header(s("x-a")), MixTarget::Query(s("t")), MixAction::DeleteSrc, None),
        rule(MixSource::Query(s("q")), MixTarget::Header(s("x-t")), MixAction::DeleteSrc, None),
        rule(MixSource::BodyField(s("f")), MixTarget::Header(s("x-t")), MixAction::DeleteSrc, None),
    ];
    assert_eq!(apply_mappings(&mut st, &rules), Ok(()));
    assert_eq!(st.headers.len(), 0);
    assert!(query_of(&st).is_empty());
    assert_eq!(body_of(&st), vec![(s("f.f"), Scalar::Null)]);
}

#[test]
fn delete_src_of_sub_fields_takes_out_the_collected_keys() {
    let mut st = state(vec![], vec![], vec![("g.h", Scalar::Null), ("h", Scalar::Bool(true)), ("k", Scalar::Null)]);
    let m = rule(MixSource::BodyField(s("g")), MixTarget::BodyField(s("z")), MixAction::DeleteSrc, None);
    assert_eq!(apply_mapping(&mut st, &m), Ok(()));
    assert_eq!(body_of(&st), vec![(s("g.h"), Scalar::Null), (s("k"), Scalar::Null)]);
}

#[test]
fn move_of_an_exact_field_takes_out_the_field_and_its_namesake_below() {
    let mut st = state(vec![], vec![], vec![("f", Scalar::Str(s("v"))), ("f.f", Scalar::Null), ("f.g", Scalar::Null)]);
    let m = rule(MixSource::BodyField(s("f")), MixTarget::Query(s("q")), MixAction::Move, None);
    assert_eq!(apply_mapping(&mut st, &m), Ok(()));
    assert_eq!(body_of(&st), vec![(s("f.g"), Scalar::Null)]);
    assert_eq!(query_of(&st), vec![(s("q"), vec![s("v")])]);
}

#[test]
fn text_beyond_ascii_is_written_into_a_header_by_its_bytes() {
    let mut st = state(vec![], vec![("n", vec!["Zoé"])], vec![]);
    let rules = vec![
        rule(MixSource::Query(s("n")), MixTarget::Header(s("x-name")), MixAction::Copy, None),
        rule(MixSource::Header(s("x-none")), MixTarget::Header(s("x-lit")), MixAction::AddTarget(s("ü")), None),
    ];
    assert_eq!(apply_mappings(&mut st, &rules), Ok(()));
    assert_eq!(st.headers.get("x-name").unwrap().as_bytes(), "Zoé".as_bytes());
    assert_eq!(st.headers.get("x-lit").unwrap().as_bytes(), "ü".as_bytes());
    let back = rule(MixSource::Header(s("x-name")), MixTarget::BodyField(s("n")), MixAction::Copy, None);
    assert_eq!(apply_mapping(&mut st, &back), Err(RuleError::HeaderNotText));
}

#[test]
fn a_header_value_with_a_control_character_is_rejected() {
    let mut st = state(vec![], vec![("n", vec!["a\nb"])], vec![]);
    let m = rule(MixSource::Query(s("n")), MixTarget::Header(s("x-n")), MixAction::Copy, None);
    assert_eq!(apply_mapping(&mut st, &m), Err(RuleError::HeaderRejected));
}

#[test]
fn later_rules_see_what_earlier_rules_did() {
    let mut st = state(vec![("x-a", "1")], vec![], vec![]);
    let rules = vec![
        rule(MixSource::Header(s("x-a")), MixTarget::Query(s("a")), MixAction::Move, None),
        rule(MixSource::Query(s("a")), MixTarget::BodyField(s("b")), MixAction::Move, None),
        rule(MixSource::BodyField(s("b")), MixTarget::Header(s("x-c")), MixAction::Move, None),
    ];
    assert_eq!(apply_mappings(&mut st, &rules), Ok(()));
    assert_eq!(header(&st, "x-a"), None);
    assert_eq!(header(&st, "x-c"), Some(s("1")));
    assert!(query_of(&st).is_empty());
    assert!(body_of(&st).is_empty());
}

#[test]
fn the_first_failing_rule_ends_the_run() {
    let mut st = state(vec![("x-a", "1")], vec![], vec![]);
    let rules = vec![
        rule(MixSource::Header(s("x-a")), MixTarget::Header(s("bad name")), MixAction::Copy, None),
        rule(MixSource::Header(s("x-a")), MixTarget::Query(s("a")), MixAction::Copy, None),
    ];
    assert_eq!(apply_mappings(&mut st, &rules), Err(RuleError::HeaderRejected));
    assert!(query_of(&st).is_empty());
}

#[test]
fn what_a_rule_writes_does_not_depend_on_rules_that_left_its_source_alone() {
    let ts = Some(vec![Transformation::Base64Decode, Transformation::Append { value: s("!") }]);
    let rule_under_test = rule(MixSource::Header(s("x-token")), MixTarget::BodyField(s("t")), MixAction::Copy, ts);
    let mut plain = state(vec![("x-token", "YWJj"), ("x-other", "o")], vec![("q", vec!["1"])], vec![]);
    assert_eq!(apply_mapping(&mut plain, &rule_under_test), Ok(()));
    let mut busy = state(vec![("x-token", "YWJj"), ("x-other", "o")], vec![("q", vec!["1"])], vec![]);
    let earlier = vec![
        rule(MixSource::Header(s("x-other")), MixTarget::Query(s("o")), MixAction::Move, None),
        rule(MixSource::Query(s("q")), MixTarget::BodyField(s("q")), MixAction::Copy, None),
    ];
    assert_eq!(apply_mappings(&mut busy, &earlier), Ok(()));
    assert_eq!(apply_mapping(&mut busy, &rule_under_test), Ok(()));
    assert_eq!(plain.body.get("t"), Some(&Scalar::Str(s("abc!"))));
    assert_eq!(busy.body.get("t"), plain.body.get("t"));
}

#[test]
fn a_header_is_written_for_a_name_and_a_value_that_are_both_in_order() {
    let mut st = state(vec![("x-a", "1"), ("x-a", "2")], vec![], vec![]);
    assert_eq!(write_header(&mut st, "X-A", &b"v".to_vec()), Ok(()));
    assert_eq!(st.headers.get_all("x-a").iter().count(), 1);
    assert_eq!(header(&st, "x-a"), Some(s("v")));
    assert_eq!(write_header(&mut st, "", &b"v".to_vec()), Err(RuleError::HeaderRejected));
    assert_eq!(write_header(&mut st, "x y", &b"v".to_vec()), Err(RuleError::HeaderRejected));
    assert_eq!(write_header(&mut st, "x-b", &vec![0x7f]), Err(RuleError::HeaderRejected));
    assert_eq!(write_header(&mut st, "x-b", &vec![0x09, 0x20, 0xff]), Ok(()));
    for i in 0..200 {
        assert_eq!(write_header(&mut st, &format!("x-n-{}", i), &b"v".to_vec()), Ok(()));
    }
    assert_eq!(st.headers.keys_len(), 202);
}
