//! The transformation pipeline: an ordered list of string transformations
//! applied to one value.

use crate::config::Transformation;
use crate::text::{concat_str, replace, replace_spec, split_nth, split_nth_spec};
use vstd::prelude::*;
use vstd::utf8::{decode_utf8, valid_utf8};

verus! {

/// The bytes that the standard base64 alphabet, with padding, decodes a text
/// to; `None` where the text is no such encoding.
pub uninterp spec fn base64_decoded(text: Seq<char>) -> Option<Seq<u8>>;

/// The standard base64 encoding, with padding, of the UTF-8 bytes of a text.
pub uninterp spec fn base64_encoded(text: Seq<char>) -> Seq<char>;

/// What a regular expression finds in a text: `None` where the pattern does
/// not compile, else the leftmost match, if there is one.
pub uninterp spec fn regex_search(pattern: Seq<char>, text: Seq<char>) -> Option<
    Option<Seq<char>>,
>;

/// Decodes with `Engine::decode` of `base64::prelude::BASE64_STANDARD`; an
/// error of the decoder becomes `None`. The contract claims that the outcome
/// depends on the text alone: it is what [`base64_decoded`] names.
#[verifier::external_body]
fn base64_decode(text: &str) -> (r: Option<Vec<u8>>)
    ensures
        r.is_some() == base64_decoded(text@).is_some(),
        r matches Some(bytes) ==> base64_decoded(text@) == Some(bytes@),
{
    base64::Engine::decode(&base64::prelude::BASE64_STANDARD, text).ok()
}

/// Encodes the bytes of `text` with `Engine::encode` of
/// `base64::prelude::BASE64_STANDARD`. The contract claims that the outcome
/// depends on the text alone: it is what [`base64_encoded`] names.
#[verifier::external_body]
fn base64_encode(text: &str) -> (r: String)
    ensures
        r@ == base64_encoded(text@),
{
    base64::Engine::encode(&base64::prelude::BASE64_STANDARD, text.as_bytes())
}

/// `String::from_utf8`: the text that the bytes encode, where they are valid
/// UTF-8.
#[verifier::external_body]
fn utf8_text(bytes: Vec<u8>) -> (r: Option<String>)
    ensures
        r.is_some() == valid_utf8(bytes@),
        r matches Some(s) ==> s@ == decode_utf8(bytes@),
{
    String::from_utf8(bytes).ok()
}

/// Compiles `pattern` with `regex::Regex::new` and asks `Regex::find` for the
/// leftmost match in `text`. `None` where the pattern does not compile. The
/// contract claims that the outcome depends on pattern and text alone: it is
/// what [`regex_search`] names.
#[verifier::external_body]
pub(crate) fn regex_find(pattern: &str, text: &str) -> (r: Option<Option<String>>)
    ensures
        r.deep_view() == regex_search(pattern@, text@),
{
    match regex::Regex::new(pattern) {
        Ok(re) => Some(re.find(text).map(|m| m.as_str().to_string())),
        Err(_) => None,
    }
}

/// The transformation has a defined meaning: it is neither `If` nor `Merge`.
pub open spec fn is_supported(t: Transformation) -> bool {
    !(t is If) && !(t is Merge)
}

/// Every transformation of the list has a defined meaning.
pub open spec fn all_supported(ts: Seq<Transformation>) -> bool {
    forall|i: int| 0 <= i < ts.len() ==> is_supported(#[trigger] ts[i])
}

/// What decoding base64 leaves of a text: the decoded text, or nothing where
/// the text is no base64 or the bytes are no UTF-8.
pub open spec fn decoded_text(s: Seq<char>) -> Seq<char> {
    match base64_decoded(s) {
        Some(bytes) => if valid_utf8(bytes) {
            decode_utf8(bytes)
        } else {
            Seq::empty()
        },
        None => Seq::empty(),
    }
}

/// What the first match of a pattern leaves of a text: the match, the text
/// itself where nothing matches, nothing where the pattern does not compile.
pub open spec fn extracted(found: Option<Option<Seq<char>>>, s: Seq<char>) -> Seq<char> {
    match found {
        Some(Some(m)) => m,
        Some(None) => s,
        None => Seq::empty(),
    }
}

/// The outcome of one stage on the value `s`.
pub open spec fn stage_spec(t: Transformation, s: Seq<char>) -> Seq<char> {
    match t {
        Transformation::Base64Decode => decoded_text(s),
        Transformation::Base64Encode => base64_encoded(s),
        Transformation::Split { separator, index } => match split_nth_spec(
            s,
            separator@,
            index as nat,
        ) {
            Some(piece) => piece,
            None => Seq::empty(),
        },
        Transformation::Replace { from, to } => replace_spec(s, from@, to@),
        Transformation::Format { format } => format@ + s,
        Transformation::Append { value } => s + value@,
        Transformation::Extract { regex } => extracted(regex_search(regex@, s), s),
        Transformation::If => s,
        Transformation::Merge => s,
    }
}

/// The outcome of the stages in their order, each on the outcome of the one
/// before; `None` as soon as a stage leaves nothing.
pub open spec fn apply_spec(s: Seq<char>, ts: Seq<Transformation>) -> Option<Seq<char>>
    decreases ts.len(),
{
    if ts.len() == 0 {
        Some(s)
    } else {
        let next = stage_spec(ts[0], s);
        if next.len() == 0 {
            None
        } else {
            apply_spec(next, ts.drop_first())
        }
    }
}

/// Whether the transformation has a defined meaning.
pub fn transformation_supported(t: &Transformation) -> (ok: bool)
    ensures
        ok == is_supported(*t),
{
    match t {
        Transformation::If => false,
        Transformation::Merge => false,
        _ => true,
    }
}

/// Whether every transformation of the list has a defined meaning.
pub fn transformations_supported(ts: &[Transformation]) -> (ok: bool)
    ensures
        ok == all_supported(ts@),
{
    let mut i: usize = 0;
    while i < ts.len()
        invariant
            i <= ts.len(),
            forall|j: int| 0 <= j < i ==> is_supported(#[trigger] ts@[j]),
        decreases ts.len() - i,
    {
        if !transformation_supported(&ts[i]) {
            return false;
        }
        i += 1;
    }
    true
}

/// The text after a search: see [`extracted`].
pub fn after_search(found: Option<Option<String>>, current: String) -> (r: String)
    ensures
        r@ == extracted(found.deep_view(), current@),
{
    match found {
        Some(Some(m)) => m,
        Some(None) => current,
        None => String::new(),
    }
}

/// Applies one stage to a value.
pub fn apply_stage(t: &Transformation, current: String) -> (r: String)
    requires
        is_supported(*t),
    ensures
        r@ == stage_spec(*t, current@),
{
    match t {
        Transformation::Base64Decode => {
            match base64_decode(current.as_str()) {
                Some(bytes) => match utf8_text(bytes) {
                    Some(s) => s,
                    None => String::new(),
                },
                None => String::new(),
            }
        },
        Transformation::Base64Encode => base64_encode(current.as_str()),
        Transformation::Split { separator, index } => {
            match split_nth(current.as_str(), separator.as_str(), *index) {
                Some(piece) => piece,
                None => String::new(),
            }
        },
        Transformation::Replace { from, to } => replace(
            current.as_str(),
            from.as_str(),
            to.as_str(),
        ),
        Transformation::Format { format } => concat_str(format.as_str(), current.as_str()),
        Transformation::Append { value } => concat_str(current.as_str(), value.as_str()),
        Transformation::Extract { regex } => {
            let found = regex_find(regex.as_str(), current.as_str());
            after_search(found, current)
        },
        Transformation::If => current,
        Transformation::Merge => current,
    }
}

/// Applies the transformations in their order. `None` as soon as a stage
/// leaves an empty string.
pub fn apply_transformations(value: &str, transformations: &[Transformation]) -> (r: Option<
    String,
>)
    requires
        all_supported(transformations@),
    ensures
        r.deep_view() == apply_spec(value@, transformations@),
{
    let mut result = value.to_owned();
    let mut i: usize = 0;
    proof {
        assert(transformations@.skip(0) =~= transformations@);
    }
    while i < transformations.len()
        invariant
            i <= transformations.len(),
            all_supported(transformations@),
            apply_spec(value@, transformations@) == apply_spec(
                result@,
                transformations@.skip(i as int),
            ),
        decreases transformations.len() - i,
    {
        proof {
            assert(transformations@.skip(i as int)[0] == transformations@[i as int]);
            assert(transformations@.skip(i as int).drop_first() =~= transformations@.skip(i + 1));
        }
        result = apply_stage(&transformations[i], result);
        if result.as_str().unicode_len() == 0 {
            return None;
        }
        i += 1;
    }
    Some(result)
}

/// [`apply_transformations`] where every stage has a defined meaning; `None`,
/// and nothing applied, where a stage has none.
pub fn try_apply_transformations(value: &str, transformations: &[Transformation]) -> (r: Option<
    Option<String>,
>)
    ensures
        r.is_some() == all_supported(transformations@),
        r matches Some(out) ==> out.deep_view() == apply_spec(value@, transformations@),
{
    if transformations_supported(transformations) {
        Some(apply_transformations(value, transformations))
    } else {
        None
    }
}

} // verus!
