//! Bodies: reading one into a flat map, and writing a flat map as JSON or as a
//! URL-encoded form.

use crate::assoc::{upsert, OrderedMap};
use crate::config::BodyConversion;
use crate::flat::{
    can_unflatten, flat_map_to_json, flatten, json_to_flat_map, keys_insertable, scalar_text,
    scalar_to_string, unflatten, FlatMap, FlatModel,
};
use crate::json::{json_from_bytes, json_parsed, json_text, json_to_bytes, Scalar, ScalarModel};
use crate::query::Pairs;
use vstd::prelude::*;

verus! {

/// An answer that ends the exchange: a status code and a message.
#[derive(Debug, Clone, PartialEq)]
pub struct Rejection {
    pub status: u16,
    pub message: String,
}

/// The pairs that `serde_urlencoded` reads from a form body; `None` where it
/// gives an error.
pub uninterp spec fn urlencoded_pairs(bytes: Seq<u8>) -> Option<Pairs>;

/// The text that `serde_urlencoded` writes for pairs of strings; `None` where
/// it gives an error.
pub uninterp spec fn urlencoded_text(pairs: Pairs) -> Option<Seq<char>>;

/// Calls `serde_urlencoded::from_bytes` for a list of pairs of strings. The
/// contract claims no more than that the outcome depends on the bytes alone:
/// the pairs are the ones that [`urlencoded_pairs`] names, and `None` stands
/// for an error of the call.
#[verifier::external_body]
fn form_from_bytes(bytes: &[u8]) -> (r: Option<Vec<(String, String)>>)
    ensures
        r.deep_view() == urlencoded_pairs(bytes@),
{
    serde_urlencoded::from_bytes::<Vec<(String, String)>>(bytes).ok()
}

/// Calls `serde_urlencoded::to_string` on a list of pairs of strings. The
/// contract claims no more than that the outcome depends on the pairs alone:
/// the text is the one that [`urlencoded_text`] names, and `None` stands for
/// an error of the call.
#[verifier::external_body]
fn form_to_string(pairs: &Vec<(String, String)>) -> (r: Option<String>)
    ensures
        r.deep_view() == urlencoded_text(pairs.deep_view()),
{
    serde_urlencoded::to_string(pairs).ok()
}

/// The media type of JSON.
pub open spec fn json_type() -> Seq<char> {
    "application/json"@
}

/// The media type of a URL-encoded form.
pub open spec fn form_type() -> Seq<char> {
    "application/x-www-form-urlencoded"@
}

/// The flat map of a form: every value a string, a name that comes twice keeps
/// its last value.
pub open spec fn form_map(pairs: Pairs) -> FlatModel
    decreases pairs.len(),
{
    if pairs.len() == 0 {
        Seq::empty()
    } else {
        upsert(form_map(pairs.drop_last()), pairs.last().0, ScalarModel::Str(pairs.last().1))
    }
}

/// The pairs of a flat map, each value as text; `None` where a value is null,
/// which a form cannot hold.
pub open spec fn map_pairs(map: FlatModel) -> Option<Pairs> {
    if exists|i: int| 0 <= i < map.len() && (#[trigger] map[i]).1 is Null {
        None
    } else {
        Some(Seq::new(map.len(), |i: int| (map[i].0, scalar_text(map[i].1))))
    }
}

/// A body with its media type.
pub struct BodyModel {
    pub content_type: Option<Seq<char>>,
    pub bytes: Seq<u8>,
}

/// A JSON body read into a flat map: 400 where it is no JSON.
pub open spec fn json_body_map(body: Seq<u8>) -> Option<FlatModel> {
    match json_parsed(body) {
        Some(value) => Some(flatten(value)),
        None => None,
    }
}

/// Reads a JSON body into a flat map; `None` where the body is no JSON.
pub fn read_json_body(body: &[u8]) -> (r: Option<FlatMap>)
    ensures
        r.deep_view() == json_body_map(body@),
        r matches Some(map) ==> map.wf(),
{
    match json_from_bytes(body) {
        Some(value) => {
            let mut map: FlatMap = OrderedMap::new();
            json_to_flat_map(&value, "", &mut map);
            proof {
                reveal_strlit("");
                assert(""@ =~= Seq::<char>::empty());
            }
            Some(map)
        },
        None => None,
    }
}

/// A form body read into a flat map.
pub open spec fn form_body_map(body: Seq<u8>) -> Option<FlatModel> {
    match urlencoded_pairs(body) {
        Some(pairs) => Some(form_map(pairs)),
        None => None,
    }
}

/// Reads a URL-encoded form body into a flat map; `None` where the body
/// cannot be read.
pub fn read_form_body(body: &[u8]) -> (r: Option<FlatMap>)
    ensures
        r.deep_view() == form_body_map(body@),
        r matches Some(map) ==> map.wf(),
{
    match form_from_bytes(body) {
        Some(pairs) => {
            let mut map: FlatMap = OrderedMap::new();
            let mut i: usize = 0;
            proof {
                assert(pairs.deep_view().take(0) =~= Seq::<(Seq<char>, Seq<char>)>::empty());
            }
            while i < pairs.len()
                invariant
                    i <= pairs.len(),
                    map.wf(),
                    map@ == form_map(pairs.deep_view().take(i as int)),
                decreases pairs.len() - i,
            {
                proof {
                    let now = pairs.deep_view().take(i + 1);
                    assert(now.drop_last() =~= pairs.deep_view().take(i as int));
                    assert(now.last() == (pairs@[i as int].0@, pairs@[i as int].1@));
                }
                map.insert(pairs[i].0.clone(), Scalar::Str(pairs[i].1.clone()));
                i += 1;
            }
            proof {
                assert(pairs.deep_view().take(i as int) =~= pairs.deep_view());
            }
            Some(map)
        },
        None => None,
    }
}

/// The JSON body of a flat map: 500 where a key ends in an array index or the
/// value cannot be written.
pub open spec fn json_body(map: FlatModel) -> Option<Seq<u8>> {
    if keys_insertable(map) {
        json_text(unflatten(map))
    } else {
        None
    }
}

/// Writes a flat map as a JSON body.
///
/// `Ok` with the media type of JSON and the text of the value that the map
/// spells. Status 500 where a key of the map ends in an array index, or where
/// the value cannot be written; and only there.
pub fn map_to_json_body(res_json_map: &FlatMap) -> (r: Result<(Option<String>, Vec<u8>), Rejection>)
    ensures
        match r {
            Ok((content_type, bytes)) => content_type.deep_view() == Some(json_type())
                && json_body(res_json_map@) == Some(bytes@),
            Err(e) => e.status == 500 && json_body(res_json_map@) is None,
        },
{
    if !can_unflatten(res_json_map) {
        return Err(
            Rejection {
                status: 500,
                message: "JSON conversion error: array index at leaf node".to_owned(),
            },
        );
    }
    let value = flat_map_to_json(res_json_map);
    match json_to_bytes(&value) {
        Some(bytes) => Ok((Some("application/json".to_owned()), bytes)),
        None => Err(Rejection { status: 500, message: "JSON conversion error".to_owned() }),
    }
}

/// The form body of a flat map.
pub open spec fn form_body(map: FlatModel) -> Option<Seq<char>> {
    match map_pairs(map) {
        Some(pairs) => urlencoded_text(pairs),
        None => None,
    }
}

/// The pairs of a flat map, or `None` where a value is null.
pub fn flat_map_pairs(map: &FlatMap) -> (r: Option<Vec<(String, String)>>)
    ensures
        r.deep_view() == map_pairs(map@),
{
    let mut pairs: Vec<(String, String)> = Vec::new();
    let mut i: usize = 0;
    while i < map.entries.len()
        invariant
            i <= map.entries.len(),
            forall|j: int| 0 <= j < i ==> !((#[trigger] map@[j]).1 is Null),
            pairs.deep_view() =~= Seq::new(i as nat, |j: int| (map@[j].0, scalar_text(map@[j].1))),
        decreases map.entries.len() - i,
    {
        proof {
            assert(map@[i as int].0 == map.entries@[i as int].0@);
            assert(map@[i as int].1 == map.entries@[i as int].1@);
        }
        match &map.entries[i].1 {
            Scalar::Null => {
                return None;
            },
            _ => {},
        }
        let ghost before = pairs.deep_view();
        let pair = (map.entries[i].0.clone(), scalar_to_string(&map.entries[i].1));
        proof {
            assert(pair.deep_view() == (map@[i as int].0, scalar_text(map@[i as int].1)));
        }
        pairs.push(pair);
        proof {
            assert(pairs.deep_view() =~= before.push(
                (map@[i as int].0, scalar_text(map@[i as int].1)),
            ));
        }
        i += 1;
    }
    Some(pairs)
}

/// Writes a flat map as a URL-encoded form body.
///
/// `Ok` with the media type of a form and the encoded pairs, each value as
/// text. Status 500 where a value is null or the encoder gives an error.
pub fn map_to_form_body(res_json_map: &FlatMap) -> (r: Result<(Option<String>, Vec<u8>), Rejection>)
    ensures
        match r {
            Ok((content_type, bytes)) => {
                &&& content_type.deep_view() == Some(form_type())
                &&& form_body(res_json_map@) matches Some(text)
                &&& bytes@ == vstd::utf8::encode_utf8(text)
            },
            Err(e) => e.status == 500 && form_body(res_json_map@) is None,
        },
{
    let pairs = match flat_map_pairs(res_json_map) {
        Some(pairs) => pairs,
        None => {
            return Err(
                Rejection {
                    status: 500,
                    message: "Form conversion error: unsupported value".to_owned(),
                },
            );
        },
    };
    match form_to_string(&pairs) {
        Some(text) => Ok(
            (Some("application/x-www-form-urlencoded".to_owned()), text.as_str().as_bytes_vec()),
        ),
        None => Err(Rejection { status: 500, message: "Form conversion error".to_owned() }),
    }
}

/// The body that goes out: the kind that the conversion names; without one,
/// JSON where the map holds anything and the original body else.
pub open spec fn converted(
    map: FlatModel,
    conversion: Option<BodyConversion>,
    original: BodyModel,
) -> Option<BodyModel> {
    match conversion {
        Some(BodyConversion::FormToJson) => match json_body(map) {
            Some(bytes) => Some(BodyModel { content_type: Some(json_type()), bytes }),
            None => None,
        },
        Some(BodyConversion::JsonToForm) => match form_body(map) {
            Some(text) => Some(
                BodyModel { content_type: Some(form_type()), bytes: vstd::utf8::encode_utf8(text) },
            ),
            None => None,
        },
        None => if map.len() > 0 {
            match json_body(map) {
                Some(bytes) => Some(BodyModel { content_type: Some(json_type()), bytes }),
                None => None,
            }
        } else {
            Some(original)
        },
    }
}

/// Chooses and writes the outgoing body.
///
/// `Ok` with the body that [`converted`] describes; status 500 where the map
/// cannot be written in the chosen kind.
pub fn convert_body(
    map: &FlatMap,
    conversion: Option<BodyConversion>,
    original_type: Option<String>,
    original: Vec<u8>,
) -> (r: Result<(Option<String>, Vec<u8>), Rejection>)
    ensures
        match r {
            Ok((content_type, bytes)) => converted(
                map@,
                conversion,
                BodyModel { content_type: original_type.deep_view(), bytes: original@ },
            ) == Some(BodyModel { content_type: content_type.deep_view(), bytes: bytes@ }),
            Err(e) => e.status == 500 && converted(
                map@,
                conversion,
                BodyModel { content_type: original_type.deep_view(), bytes: original@ },
            ) is None,
        },
{
    match conversion {
        Some(BodyConversion::FormToJson) => map_to_json_body(map),
        Some(BodyConversion::JsonToForm) => map_to_form_body(map),
        None => {
            if !map.is_empty() {
                map_to_json_body(map)
            } else {
                Ok((original_type, original))
            }
        },
    }
}

} // verus!
