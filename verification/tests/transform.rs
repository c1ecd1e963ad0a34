use sso_adapter::config::Transformation;
use sso_adapter::text::{
    concat_str, contains, decimal_string, join, replace, sort_strings, split_all, split_nth,
    starts_with, str_eq, strip_prefix, to_lower_ascii,
};
use sso_adapter::transform::{
    apply_stage, apply_transformations, transformations_supported, try_apply_transformations,
};

fn s(text: &str) -> String {
    text.to_string()
}

#[test]
fn no_transformation_gives_the_value_back() {
    assert_eq!(apply_transformations("abc", &[]), Some(s("abc")));
    assert_eq!(apply_transformations("", &[]), Some(s("")));
}

#[test]
fn base64_decode_of_valid_text() {
    assert_eq!(apply_transformations("YWJj", &[Transformation::Base64Decode]), Some(s("abc")));
}

#[test]
fn base64_decode_of_invalid_text_gives_none() {
    assert_eq!(apply_transformations("@@@", &[Transformation::Base64Decode]), None);
}

#[test]
fn base64_decode_of_bytes_that_are_no_utf8_gives_none() {
    assert_eq!(apply_transformations("/w==", &[Transformation::Base64Decode]), None);
}

#[test]
fn base64_encode_of_text() {
    assert_eq!(apply_transformations("abc", &[Transformation::Base64Encode]), Some(s("YWJj")));
    assert_eq!(apply_transformations("ab", &[Transformation::Base64Encode]), Some(s("YWI=")));
}

#[test]
fn split_takes_the_piece_at_the_index() {
    let split = |index| Transformation::Split { separator: s(" "), index };
    assert_eq!(apply_transformations("Bearer tok en", &[split(1)]), Some(s("tok")));
    assert_eq!(apply_transformations("Bearer tok en", &[split(2)]), Some(s("en")));
    assert_eq!(apply_transformations("Bearer tok en", &[split(3)]), None);
    assert_eq!(apply_transformations(" x", &[split(0)]), None);
}

#[test]
fn replace_changes_every_occurrence() {
    let t = Transformation::Replace { from: s("ab"), to: s("-") };
    assert_eq!(apply_transformations("abcabab", &[t]), Some(s("-c--")));
}

#[test]
fn replace_that_leaves_nothing_gives_none() {
    let t = Transformation::Replace { from: s("a"), to: s("") };
    assert_eq!(apply_transformations("aaa", &[t]), None);
}

#[test]
fn format_puts_its_text_in_front() {
    let t = Transformation::Format { format: s("Bearer ") };
    assert_eq!(apply_transformations("tok", &[t]), Some(s("Bearer tok")));
}

#[test]
fn append_puts_its_text_behind() {
    let t = Transformation::Append { value: s("!") };
    assert_eq!(apply_transformations("tok", &[t]), Some(s("tok!")));
}

#[test]
fn extract_takes_the_first_match() {
    let t = Transformation::Extract { regex: s("[0-9]+") };
    assert_eq!(apply_transformations("id=42;n=7", &[t]), Some(s("42")));
}

#[test]
fn extract_without_a_match_passes_the_value_on() {
    let t = Transformation::Extract { regex: s("[0-9]+") };
    assert_eq!(apply_transformations("none", &[t]), Some(s("none")));
}

#[test]
fn extract_with_a_pattern_that_does_not_compile_gives_none() {
    let t = Transformation::Extract { regex: s("(") };
    assert_eq!(apply_transformations("abc", &[t]), None);
}

#[test]
fn stages_run_in_their_order() {
    let ts = vec![
        Transformation::Base64Decode,
        Transformation::Split { separator: s(":"), index: 1 },
        Transformation::Format { format: s("<") },
        Transformation::Append { value: s(">") },
    ];
    // "user:secret" in base64
    assert_eq!(apply_transformations("dXNlcjpzZWNyZXQ=", &ts), Some(s("<secret>")));
}

#[test]
fn a_stage_that_leaves_nothing_ends_the_pipeline() {
    let ts = vec![
        Transformation::Split { separator: s(":"), index: 5 },
        Transformation::Append { value: s("x") },
    ];
    assert_eq!(apply_transformations("a:b", &ts), None);
}

#[test]
fn reserved_transformations_are_not_supported() {
    assert!(!transformations_supported(&[Transformation::Base64Encode, Transformation::If]));
    assert!(!transformations_supported(&[Transformation::Merge]));
    assert!(transformations_supported(&[Transformation::Base64Encode]));
    assert_eq!(try_apply_transformations("x", &[Transformation::Merge]), None);
    assert_eq!(
        try_apply_transformations("x", &[Transformation::Append { value: s("y") }]),
        Some(Some(s("xy")))
    );
}

#[test]
fn one_stage_alone() {
    assert_eq!(apply_stage(&Transformation::Append { value: s("b") }, s("a")), "ab");
    assert_eq!(apply_stage(&Transformation::Base64Decode, s("not base64!")), "");
}

#[test]
fn text_replace_with_an_empty_pattern() {
    assert_eq!(replace("abc", "", "-"), "-a-b-c-");
    assert_eq!(replace("", "", "-"), "-");
    assert_eq!(replace("aaa", "aa", "b"), "ba");
}

#[test]
fn text_split_pieces() {
    assert_eq!(split_nth("a,b,,c", ",", 0), Some(s("a")));
    assert_eq!(split_nth("a,b,,c", ",", 2), Some(s("")));
    assert_eq!(split_nth("a,b,,c", ",", 3), Some(s("c")));
    assert_eq!(split_nth("a,b,,c", ",", 4), None);
    assert_eq!(split_nth("", ",", 0), Some(s("")));
    assert_eq!(split_nth("ab", "", 0), Some(s("")));
    assert_eq!(split_nth("ab", "", 1), Some(s("a")));
    assert_eq!(split_nth("ab", "", 2), Some(s("b")));
    assert_eq!(split_nth("ab", "", 3), Some(s("")));
    assert_eq!(split_nth("ab", "", 4), None);
    assert_eq!(split_all("a,b,,c", ","), vec!["a", "b", "", "c"]);
    assert_eq!(split_all("", ","), vec![""]);
    assert_eq!(split_all(",", ","), vec!["", ""]);
}

#[test]
fn text_helpers() {
    assert_eq!(concat_str("ab", "cd"), "abcd");
    assert!(contains("a chunked b", "chunked"));
    assert!(!contains("chunk", "chunked"));
    assert!(contains("x", ""));
    assert!(starts_with("text/plain; charset=utf-8", "text/plain"));
    assert!(!starts_with("text", "text/plain"));
    assert!(str_eq("é", "é"));
    assert!(!str_eq("a", "ab"));
    assert_eq!(strip_prefix("user.name", "user."), Some(s("name")));
    assert_eq!(strip_prefix("user", "user."), None);
    assert_eq!(to_lower_ascii("BodyField-É"), "bodyfield-É");
    assert_eq!(decimal_string(0), "0");
    assert_eq!(decimal_string(1205), "1205");
    assert_eq!(join(&vec![s("a"), s("b"), s("c")], "; "), "a; b; c");
    assert_eq!(join(&vec![], "; "), "");
    assert_eq!(
        sort_strings(vec![s("b"), s("a=2"), s("a"), s("B"), s("a=1")]),
        vec!["B", "a", "a=1", "a=2", "b"]
    );
}
