//! Header maps. The map itself is `hyper::HeaderMap`; this module says what
//! the library relies on when it reads and fills one.

use crate::text::{lower_ascii, string_of};
use vstd::prelude::*;
use vstd::utf8::{encode_utf8, is_ascii_chars, is_ascii_chars_encode_utf8};

verus! {

/// `hyper::header::HeaderValue`: named only as what a header map holds.
#[verifier::external_type_specification]
#[verifier::external_body]
pub struct ExHeaderValue(hyper::header::HeaderValue);

/// `hyper::HeaderMap`: read and filled through the three functions below.
#[verifier::external_type_specification]
#[verifier::external_body]
#[verifier::reject_recursive_types(T)]
pub struct ExHeaderMap<T>(hyper::HeaderMap<T>);

/// What a header map holds: under each name, written in lower case, the
/// values of that name as bytes, in their order.
pub type HeaderModel = Map<Seq<char>, Seq<Seq<u8>>>;

/// The contents of a header map.
pub uninterp spec fn header_values(m: hyper::HeaderMap) -> HeaderModel;

/// The first value of a name, whatever the case it is written in.
pub open spec fn first_value(h: HeaderModel, name: Seq<char>) -> Option<Seq<u8>> {
    if h.contains_key(lower_ascii(name)) {
        Some(h[lower_ascii(name)].first())
    } else {
        None
    }
}

/// The map without a name.
pub open spec fn without_name(h: HeaderModel, name: Seq<char>) -> HeaderModel {
    h.remove(lower_ascii(name))
}

/// The map with one value, and no other, under a name.
pub open spec fn with_value(h: HeaderModel, name: Seq<char>, value: Seq<u8>) -> HeaderModel {
    h.insert(lower_ascii(name), seq![value])
}

/// Whether a header map takes a name with a value when they are set in it.
pub uninterp spec fn header_takes(m: hyper::HeaderMap, name: Seq<char>, value: Seq<u8>) -> bool;

/// A character that may stand in a header name: a letter or a digit of ASCII,
/// or one of ``! # $ % & ' * + - . ^ _ ` | ~``.
pub open spec fn is_name_char(c: char) -> bool {
    ||| 'a' <= c <= 'z'
    ||| 'A' <= c <= 'Z'
    ||| '0' <= c <= '9'
    ||| c == '!'
    ||| c == '#'
    ||| c == '$'
    ||| c == '%'
    ||| c == '&'
    ||| c == '\''
    ||| c == '*'
    ||| c == '+'
    ||| c == '-'
    ||| c == '.'
    ||| c == '^'
    ||| c == '_'
    ||| c == '`'
    ||| c == '|'
    ||| c == '~'
}

/// A header name: between 1 and 65,535 characters, each of which may stand in
/// one.
pub open spec fn is_header_name(name: Seq<char>) -> bool {
    &&& 0 < name.len() <= 65535
    &&& forall|i: int| 0 <= i < name.len() ==> is_name_char(#[trigger] name[i])
}

/// A byte that may stand in a header value: a tab, or any byte from 32 up but
/// 127.
pub open spec fn is_value_byte(b: u8) -> bool {
    (b >= 32 && b != 127) || b == 9
}

/// A header value: every byte may stand in one.
pub open spec fn is_header_value(value: Seq<u8>) -> bool {
    forall|i: int| 0 <= i < value.len() ==> is_value_byte(#[trigger] value[i])
}

/// The map holds so few names that `writes` more can be set in it: with the
/// new ones there are no more than 6,554. A header map never refuses a name
/// for want of room while it holds fewer than that: it grows up to 32,768
/// slots, and gives up only when it would have to grow beyond them, which it
/// does not try before a fifth of the slots are taken.
pub open spec fn has_room(h: HeaderModel, writes: nat) -> bool {
    h.dom().finite() && h.dom().len() + writes <= 6554
}

/// The second map holds at most `k` names more than the first.
pub open spec fn more_by(before: HeaderModel, after: HeaderModel, k: nat) -> bool {
    before.dom().finite() ==> after.dom().finite() && after.dom().len() <= before.dom().len() + k
}

/// The second map holds at most one name more than the first.
pub open spec fn one_more(before: HeaderModel, after: HeaderModel) -> bool {
    more_by(before, after, 1)
}

/// The map with one value, and no other, under a name; `None` where the name
/// is no header name or the value no header value.
pub open spec fn stored(h: HeaderModel, name: Seq<char>, value: Seq<u8>) -> Option<HeaderModel> {
    if is_header_name(name) && is_header_value(value) {
        Some(with_value(h, name, value))
    } else {
        None
    }
}

/// Setting a name adds at most one name; taking one out adds none.
pub proof fn lemma_one_more(h: HeaderModel, name: Seq<char>, value: Seq<u8>)
    ensures
        one_more(h, with_value(h, name, value)),
        one_more(h, without_name(h, name)),
        one_more(h, h),
        h.dom().finite() ==> without_name(h, name).dom().finite() && without_name(
            h,
            name,
        ).dom().len() <= h.dom().len(),
{
    broadcast use vstd::set::group_set_axioms, vstd::map::group_map_axioms;

    let k = lower_ascii(name);
    assert(with_value(h, name, value).dom() =~= h.dom().insert(k));
    assert(without_name(h, name).dom() =~= h.dom().remove(k));
}

/// `HeaderMap::get` with a string key: the first value of the name, as bytes.
/// The lookup ignores case. A string that is no header name finds nothing.
#[verifier::external_body]
pub(crate) fn header_get(m: &hyper::HeaderMap, name: &str) -> (r: Option<Vec<u8>>)
    ensures
        match r {
            Some(v) => first_value(header_values(*m), name@) == Some(v@),
            None => first_value(header_values(*m), name@) is None,
        },
{
    m.get(name).map(|v| v.as_bytes().to_vec())
}

/// `HeaderMap::remove` with a string key: every value of the name leaves the
/// map, and the first one is returned.
#[verifier::external_body]
pub(crate) fn header_remove(m: &mut hyper::HeaderMap, name: &str) -> (r: Option<Vec<u8>>)
    ensures
        match r {
            Some(v) => first_value(header_values(*old(m)), name@) == Some(v@),
            None => first_value(header_values(*old(m)), name@) is None,
        },
        header_values(*final(m)) == without_name(header_values(*old(m)), name@),
{
    m.remove(name).map(|v| v.as_bytes().to_vec())
}

/// `HeaderMap::try_insert` of a name made by `HeaderName::from_bytes` and a
/// value made by `HeaderValue::from_bytes`. The result is `true` where all
/// three accept, which is what [`header_takes`] names; the name then holds
/// this value and no other. The two makers accept exactly the names and values
/// that [`is_header_name`] and [`is_header_value`] describe, and the map takes
/// what they made while it has room as [`has_room`] says. Nothing is said of
/// the map after a `false`.
#[verifier::external_body]
pub(crate) fn header_insert(m: &mut hyper::HeaderMap, name: &str, value: &Vec<u8>) -> (ok: bool)
    ensures
        ok == header_takes(*old(m), name@, value@),
        ok ==> header_values(*final(m)) == with_value(header_values(*old(m)), name@, value@),
        ok ==> is_header_name(name@) && is_header_value(value@),
        is_header_name(name@) && is_header_value(value@) && has_room(header_values(*old(m)), 1)
            ==> ok,
{
    match (
        hyper::header::HeaderName::from_bytes(name.as_bytes()),
        hyper::header::HeaderValue::from_bytes(value),
    ) {
        (Ok(n), Ok(v)) => m.try_insert(n, v).is_ok(),
        _ => false,
    }
}

/// A byte that may stand in a header value that is text: a visible ASCII
/// character, a space or a tab.
pub open spec fn is_text_byte(b: u8) -> bool {
    (32 <= b < 127) || b == 9
}

pub open spec fn all_text_bytes(bytes: Seq<u8>) -> bool {
    forall|i: int| 0 <= i < bytes.len() ==> is_text_byte(#[trigger] bytes[i])
}

/// A visible ASCII character, a space or a tab.
pub open spec fn is_text_char(c: char) -> bool {
    (' ' <= c <= '~') || c == '\t'
}

/// Text whose every character may stand in a header value.
pub open spec fn is_header_text(s: Seq<char>) -> bool {
    forall|i: int| 0 <= i < s.len() ==> is_text_char(#[trigger] s[i])
}

/// The characters that the bytes spell, one for one.
pub open spec fn bytes_as_text(bytes: Seq<u8>) -> Seq<char> {
    Seq::new(bytes.len(), |i: int| bytes[i] as char)
}

/// The bytes that spell the characters, one for one.
pub open spec fn text_as_bytes(s: Seq<char>) -> Seq<u8> {
    Seq::new(s.len(), |i: int| s[i] as u8)
}

/// A header value as text, where it is text.
pub open spec fn value_text(bytes: Seq<u8>) -> Option<Seq<char>> {
    if all_text_bytes(bytes) {
        Some(bytes_as_text(bytes))
    } else {
        None
    }
}

/// Text as a header value: its UTF-8 bytes, where each of them may stand in
/// one.
pub open spec fn text_value(s: Seq<char>) -> Option<Seq<u8>> {
    if is_header_value(encode_utf8(s)) {
        Some(encode_utf8(s))
    } else {
        None
    }
}

/// Reads a header value as text; `None` where it holds another byte than a
/// visible ASCII character, a space or a tab.
pub fn bytes_to_text(bytes: &Vec<u8>) -> (r: Option<String>)
    ensures
        r.deep_view() == value_text(bytes@),
{
    let mut out: Vec<char> = Vec::new();
    let mut i: usize = 0;
    while i < bytes.len()
        invariant
            i <= bytes.len(),
            all_text_bytes(bytes@.take(i as int)),
            out@ == bytes_as_text(bytes@.take(i as int)),
        decreases bytes.len() - i,
    {
        let b = bytes[i];
        if !((32 <= b && b < 127) || b == 9) {
            return None;
        }
        out.push(b as char);
        i += 1;
        proof {
            assert(out@ =~= bytes_as_text(bytes@.take(i as int)));
        }
    }
    proof {
        assert(bytes@.take(i as int) =~= bytes@);
    }
    Some(string_of(&out))
}

/// Writes text as a header value: its UTF-8 bytes. `None` where one of them
/// is a control character other than a tab.
pub fn text_to_bytes(s: &str) -> (r: Option<Vec<u8>>)
    ensures
        match r {
            Some(bytes) => text_value(s@) == Some(bytes@),
            None => text_value(s@) is None,
        },
{
    let bytes = s.as_bytes_vec();
    let mut i: usize = 0;
    while i < bytes.len()
        invariant
            i <= bytes.len(),
            bytes@ == encode_utf8(s@),
            forall|j: int| 0 <= j < i ==> is_value_byte(#[trigger] bytes@[j]),
        decreases bytes.len() - i,
    {
        let b = bytes[i];
        if !((b >= 32 && b != 127) || b == 9) {
            return None;
        }
        i += 1;
    }
    Some(bytes)
}

/// Text of visible ASCII characters, spaces and tabs is written byte for
/// character, and reads back as the same text.
pub proof fn lemma_text_value_text(s: Seq<char>)
    requires
        is_header_text(s),
    ensures
        text_value(s) == Some(text_as_bytes(s)),
        value_text(text_as_bytes(s)) == Some(s),
{
    let b = text_as_bytes(s);
    assert forall|i: int| 0 <= i < b.len() implies is_text_byte(#[trigger] b[i]) by {
        assert(is_text_char(s[i]));
    }
    assert(bytes_as_text(b) =~= s);
    assert(is_ascii_chars(s)) by {
        assert forall|i: int| 0 <= i < s.len() implies '\0' <= #[trigger] s[i] <= '\u{7f}' by {
            assert(is_text_char(s[i]));
        }
    }
    is_ascii_chars_encode_utf8(s);
    assert(encode_utf8(s) =~= b);
}

} // verus!
