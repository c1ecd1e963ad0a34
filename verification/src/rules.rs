//! The rule engine: one rewrite rule at a time, read from one namespace and
//! written into another.

use crate::assoc::{
    has_key, keys_distinct, lemma_distinct_kept, lemma_key_index, lemma_upsert_other,
    lemma_upsert_same, lemma_without_absent, lemma_without_other, lookup, upsert, without,
    OrderedMap,
};
use crate::config::{MixAction, MixMapping, MixSource, MixTarget, Transformation};
use crate::flat::{
    body_string, json_body_to_string, merge_spec, merge_subfields, FlatMap, FlatModel,
};
use crate::headers::{
    bytes_to_text, first_value, header_get, header_insert, header_remove, header_values,
    has_room, lemma_one_more, more_by, one_more, stored, text_to_bytes,
    text_value, value_text, with_value, without_name, HeaderModel,
};
use crate::json::{Scalar, ScalarModel};
use crate::query::{MultimapModel, QueryMap, QueryMultimap};
use crate::text::{
    clone_strings, concat_str, is_prefix, join, join_spec, lower_ascii, split_all, split_all_spec,
    strip_prefix,
};
use crate::transform::{all_supported, apply_spec, apply_transformations};
use vstd::prelude::*;

verus! {

/// The three namespaces of one request or response while its rules run.
#[derive(Debug)]
pub struct WorkingState {
    pub headers: hyper::HeaderMap,
    pub query: QueryMultimap,
    pub body: FlatMap,
}

/// What a [`WorkingState`] holds.
pub struct StateModel {
    pub headers: HeaderModel,
    pub query: MultimapModel,
    pub body: FlatModel,
}

impl View for WorkingState {
    type V = StateModel;

    open spec fn view(&self) -> StateModel {
        StateModel { headers: header_values(self.headers), query: self.query@, body: self.body@ }
    }
}

impl WorkingState {
    /// No name occurs twice in the query, and no key twice in the body.
    pub open spec fn wf(&self) -> bool {
        self.query.wf() && self.body.wf()
    }
}

/// Why a rule could not be applied.
#[derive(Debug, Clone, Copy, PartialEq, Eq, Structural)]
pub enum RuleError {
    /// The header that the rule reads holds a value that is no text.
    HeaderNotText,
    /// The header map did not take the name or the value that the rule writes.
    HeaderRejected,
}

/// The transformations of a rule, as a sequence.
pub open spec fn transformations_of(m: MixMapping) -> Option<Seq<Transformation>> {
    match m.transformations {
        Some(list) => Some(list@),
        None => None,
    }
}

/// Every transformation of the rule has a defined meaning.
pub open spec fn mapping_supported(m: MixMapping) -> bool {
    match m.transformations {
        Some(list) => all_supported(list@),
        None => true,
    }
}

/// What the transformations make of a text, where the rule has some and they
/// leave something.
pub open spec fn shaped(text: Seq<char>, ts: Option<Seq<Transformation>>) -> Option<Seq<char>> {
    match ts {
        Some(list) => apply_spec(text, list),
        None => None,
    }
}

/// The text that is written: the transformed one, or the text as it was read
/// where the rule has no transformations or they leave nothing.
pub open spec fn transformed(text: Seq<char>, ts: Option<Seq<Transformation>>) -> Seq<char> {
    match shaped(text, ts) {
        Some(t) => t,
        None => text,
    }
}

/// What a rule reads from a header.
pub open spec fn header_read(h: HeaderModel, action: MixAction, src: Seq<char>) -> Result<
    Option<Seq<u8>>,
    RuleError,
> {
    match action {
        MixAction::Move => Ok(first_value(h, src)),
        MixAction::Copy => Ok(first_value(h, src)),
        MixAction::AddTarget(lit) => match text_value(lit@) {
            Some(bytes) => Ok(Some(bytes)),
            None => Err(RuleError::HeaderRejected),
        },
        MixAction::DeleteSrc => Ok(None),
    }
}

/// The headers after a rule has read from them.
pub open spec fn header_left(h: HeaderModel, action: MixAction, src: Seq<char>) -> HeaderModel {
    match action {
        MixAction::Move => without_name(h, src),
        MixAction::DeleteSrc => without_name(h, src),
        _ => h,
    }
}

/// What a rule reads from a map of names and values.
pub open spec fn map_read<V>(q: Seq<(Seq<char>, V)>, action: MixAction, src: Seq<char>, lit: V)
    -> Option<V> {
    match action {
        MixAction::Move => lookup(q, src),
        MixAction::Copy => lookup(q, src),
        MixAction::AddTarget(_) => Some(lit),
        MixAction::DeleteSrc => None,
    }
}

/// The map after a rule has read from it.
pub open spec fn map_left<V>(q: Seq<(Seq<char>, V)>, action: MixAction, src: Seq<char>) -> Seq<
    (Seq<char>, V),
> {
    match action {
        MixAction::Move => without(q, src),
        MixAction::DeleteSrc => without(q, src),
        _ => q,
    }
}

/// The literal of an `AddTarget` action; empty for the other actions.
pub open spec fn literal_of(action: MixAction) -> Seq<char> {
    match action {
        MixAction::AddTarget(lit) => lit@,
        _ => Seq::empty(),
    }
}

/// Reads the source header as the action says: `Move` takes it out, `Copy`
/// leaves it, `AddTarget` gives its literal, `DeleteSrc` takes it out and
/// gives nothing.
pub fn get_header_val(headers_map: &mut hyper::HeaderMap, action: &MixAction, src: &String) -> (r:
    Result<Option<Vec<u8>>, RuleError>)
    ensures
        match r {
            Ok(Some(v)) => header_read(header_values(*old(headers_map)), *action, src@) == Ok::<
                Option<Seq<u8>>,
                RuleError,
            >(Some(v@)),
            Ok(None) => header_read(header_values(*old(headers_map)), *action, src@) == Ok::<
                Option<Seq<u8>>,
                RuleError,
            >(None),
            Err(e) => header_read(header_values(*old(headers_map)), *action, src@) == Err::<
                Option<Seq<u8>>,
                RuleError,
            >(e),
        },
        header_values(*final(headers_map)) == header_left(
            header_values(*old(headers_map)),
            *action,
            src@,
        ),
{
    match action {
        MixAction::Move => Ok(header_remove(headers_map, src.as_str())),
        MixAction::Copy => Ok(header_get(headers_map, src.as_str())),
        MixAction::AddTarget(value) => match text_to_bytes(value.as_str()) {
            Some(bytes) => Ok(Some(bytes)),
            None => Err(RuleError::HeaderRejected),
        },
        MixAction::DeleteSrc => {
            let _ = header_remove(headers_map, src.as_str());
            Ok(None)
        },
    }
}

/// Reads the source name of a query as the action says.
pub fn get_querymap_val(map: &mut QueryMultimap, action: &MixAction, src: &String) -> (r: Option<
    Vec<String>,
>)
    ensures
        r.deep_view() == map_read(old(map)@, *action, src@, seq![literal_of(*action)]),
        final(map)@ == map_left(old(map)@, *action, src@),
        old(map).wf() ==> final(map).wf(),
{
    match action {
        MixAction::Move => map.remove(src.as_str()),
        MixAction::Copy => match map.get(src.as_str()) {
            Some(values) => Some(clone_strings(values)),
            None => None,
        },
        MixAction::AddTarget(value) => {
            let mut values: Vec<String> = Vec::new();
            values.push(value.clone());
            proof {
                assert(values.deep_view() =~= seq![value@]);
            }
            Some(values)
        },
        MixAction::DeleteSrc => {
            let _ = map.remove(src.as_str());
            None
        },
    }
}

/// Reads the source key of a map of single values as the action says.
pub fn get_bodymap_val(map: &mut QueryMap, action: &MixAction, src: &String) -> (r: Option<String>)
    ensures
        r.deep_view() == map_read(old(map)@, *action, src@, literal_of(*action)),
        final(map)@ == map_left(old(map)@, *action, src@),
        old(map).wf() ==> final(map).wf(),
{
    match action {
        MixAction::Move => map.remove(src.as_str()),
        MixAction::Copy => match map.get(src.as_str()) {
            Some(value) => Some(value.clone()),
            None => None,
        },
        MixAction::AddTarget(value) => Some(value.clone()),
        MixAction::DeleteSrc => {
            let _ = map.remove(src.as_str());
            None
        },
    }
}

/// What the transformations of a rule make of a text: see [`shaped`].
pub fn shape_text(text: &str, transformations: &Option<Vec<Transformation>>) -> (r: Option<String>)
    requires
        match transformations {
            Some(list) => all_supported(list@),
            None => true,
        },
    ensures
        r.deep_view() == shaped(
            text@,
            match transformations {
                Some(list) => Some(list@),
                None => None,
            },
        ),
{
    match transformations {
        Some(list) => apply_transformations(text, list.as_slice()),
        None => None,
    }
}


/// The state with a header set to a value; `HeaderRejected` where the name is
/// no header name or the value no header value.
pub open spec fn header_written(
    h: HeaderModel,
    query: MultimapModel,
    body: FlatModel,
    name: Seq<char>,
    value: Seq<u8>,
) -> Result<StateModel, RuleError> {
    match stored(h, name, value) {
        Some(headers) => Ok(StateModel { headers, query, body }),
        None => Err(RuleError::HeaderRejected),
    }
}

/// Sets a header of the state to a value.
///
/// `Ok` where the state is now what [`header_written`] says. `HeaderRejected`
/// where [`header_written`] gives it, and where the header map did not take
/// the value, which it does while it has room for one name.
pub fn write_header(state: &mut WorkingState, name: &str, value: &Vec<u8>) -> (r: Result<
    (),
    RuleError,
>)
    ensures
        r is Ok ==> header_written(
            old(state)@.headers,
            old(state)@.query,
            old(state)@.body,
            name@,
            value@,
        ) == Ok::<StateModel, RuleError>(final(state)@),
        r matches Err(e) ==> e == RuleError::HeaderRejected && (stored(
            old(state)@.headers,
            name@,
            value@,
        ) is None || !has_room(old(state)@.headers, 1)),
        r is Ok ==> one_more(old(state)@.headers, final(state)@.headers),
        old(state).wf() ==> final(state).wf(),
{
    proof {
        lemma_one_more(state@.headers, name@, value@);
    }
    if header_insert(&mut state.headers, name, value) {
        Ok(())
    } else {
        Err(RuleError::HeaderRejected)
    }
}

/// The state after a rule that reads the header `src`.
pub open spec fn header_rule(s: StateModel, m: MixMapping, src: Seq<char>) -> Result<
    StateModel,
    RuleError,
> {
    let ts = transformations_of(m);
    let left = header_left(s.headers, m.action, src);
    match header_read(s.headers, m.action, src) {
        Err(e) => Err(e),
        Ok(None) => Ok(StateModel { headers: left, query: s.query, body: s.body }),
        Ok(Some(raw)) => match m.target {
            MixTarget::Header(dst) => {
                if ts is None {
                    header_written(left, s.query, s.body, dst@, raw)
                } else {
                    match value_text(raw) {
                        None => Err(RuleError::HeaderNotText),
                        Some(text) => match shaped(text, ts) {
                            None => header_written(left, s.query, s.body, dst@, raw),
                            Some(t) => match text_value(t) {
                                None => Err(RuleError::HeaderRejected),
                                Some(bytes) => header_written(left, s.query, s.body, dst@, bytes),
                            },
                        },
                    }
                }
            },
            MixTarget::BodyField(dst) => match value_text(raw) {
                None => Err(RuleError::HeaderNotText),
                Some(text) => Ok(
                    StateModel {
                        headers: left,
                        query: s.query,
                        body: upsert(s.body, dst@, ScalarModel::Str(transformed(text, ts))),
                    },
                ),
            },
            MixTarget::Query(dst) => match value_text(raw) {
                None => Err(RuleError::HeaderNotText),
                Some(text) => Ok(
                    StateModel {
                        headers: left,
                        query: upsert(s.query, dst@, seq![transformed(text, ts)]),
                        body: s.body,
                    },
                ),
            },
        },
    }
}

/// The state after a rule that reads the query name `src`. The values of the
/// name are joined by `,` for the transformations. A header or body target
/// gets the transformed text; a query target gets the transformed text cut at
/// every `,`, or the values as they were where nothing was transformed.
pub open spec fn query_rule(s: StateModel, m: MixMapping, src: Seq<char>) -> Result<
    StateModel,
    RuleError,
> {
    let ts = transformations_of(m);
    let left = map_left(s.query, m.action, src);
    match map_read(s.query, m.action, src, seq![literal_of(m.action)]) {
        None => Ok(StateModel { headers: s.headers, query: left, body: s.body }),
        Some(values) => {
            let text = join_spec(values, ","@);
            match m.target {
                MixTarget::Query(dst) => {
                    let written = match shaped(text, ts) {
                        Some(t) => split_all_spec(t, ","@),
                        None => values,
                    };
                    Ok(
                        StateModel {
                            headers: s.headers,
                            query: upsert(left, dst@, written),
                            body: s.body,
                        },
                    )
                },
                MixTarget::Header(dst) => match text_value(transformed(text, ts)) {
                    None => Err(RuleError::HeaderRejected),
                    Some(bytes) => header_written(s.headers, left, s.body, dst@, bytes),
                },
                MixTarget::BodyField(dst) => Ok(
                    StateModel {
                        headers: s.headers,
                        query: left,
                        body: upsert(s.body, dst@, ScalarModel::Str(transformed(text, ts))),
                    },
                ),
            }
        },
    }
}

/// Applies a rule whose source is the header `src`.
pub fn apply_header_rule(state: &mut WorkingState, m: &MixMapping, src: &String) -> (r: Result<
    (),
    RuleError,
>)
    requires
        mapping_supported(*m),
    ensures
        r is Ok ==> header_rule(old(state)@, *m, src@) == Ok::<StateModel, RuleError>(
            final(state)@,
        ),
        r matches Err(e) ==> header_rule(old(state)@, *m, src@) == Err::<StateModel, RuleError>(e)
            || (e == RuleError::HeaderRejected && m.target is Header && !has_room(
            old(state)@.headers,
            1,
        )),
        r is Ok ==> one_more(old(state)@.headers, final(state)@.headers),
        old(state).wf() ==> final(state).wf(),
{
    let taken = match get_header_val(&mut state.headers, &m.action, src) {
        Ok(v) => v,
        Err(e) => {
            return Err(e);
        },
    };
    let raw = match taken {
        Some(raw) => raw,
        None => {
            return Ok(());
        },
    };
    match &m.target {
        MixTarget::Header(dst) => {
            let value = match &m.transformations {
                None => raw,
                Some(_) => {
                    let text = match bytes_to_text(&raw) {
                        Some(text) => text,
                        None => {
                            return Err(RuleError::HeaderNotText);
                        },
                    };
                    match shape_text(text.as_str(), &m.transformations) {
                        None => raw,
                        Some(t) => match text_to_bytes(t.as_str()) {
                            Some(bytes) => bytes,
                            None => {
                                return Err(RuleError::HeaderRejected);
                            },
                        },
                    }
                },
            };
            write_header(state, dst.as_str(), &value)
        },
        MixTarget::BodyField(dst) => {
            let text = match bytes_to_text(&raw) {
                Some(text) => text,
                None => {
                    return Err(RuleError::HeaderNotText);
                },
            };
            let written = match shape_text(text.as_str(), &m.transformations) {
                Some(t) => t,
                None => text,
            };
            state.body.insert(dst.clone(), Scalar::Str(written));
            Ok(())
        },
        MixTarget::Query(dst) => {
            let text = match bytes_to_text(&raw) {
                Some(text) => text,
                None => {
                    return Err(RuleError::HeaderNotText);
                },
            };
            let written = match shape_text(text.as_str(), &m.transformations) {
                Some(t) => t,
                None => text,
            };
            let mut values: Vec<String> = Vec::new();
            values.push(written);
            proof {
                assert(values.deep_view() =~= seq![written@]);
            }
            state.query.insert(dst.clone(), values);
            Ok(())
        },
    }
}

/// Applies a rule whose source is the query name `src`.
pub fn apply_query_rule(state: &mut WorkingState, m: &MixMapping, src: &String) -> (r: Result<
    (),
    RuleError,
>)
    requires
        mapping_supported(*m),
    ensures
        r is Ok ==> query_rule(old(state)@, *m, src@) == Ok::<StateModel, RuleError>(
            final(state)@,
        ),
        r matches Err(e) ==> query_rule(old(state)@, *m, src@) == Err::<StateModel, RuleError>(e)
            || (e == RuleError::HeaderRejected && m.target is Header && !has_room(
            old(state)@.headers,
            1,
        )),
        r is Ok ==> one_more(old(state)@.headers, final(state)@.headers),
        old(state).wf() ==> final(state).wf(),
{
    let values = match get_querymap_val(&mut state.query, &m.action, src) {
        Some(values) => values,
        None => {
            return Ok(());
        },
    };
    let text = join(&values, ",");
    let reshaped = shape_text(text.as_str(), &m.transformations);
    match &m.target {
        MixTarget::Query(dst) => {
            let written = match reshaped {
                Some(t) => {
                    proof {
                        reveal_strlit(",");
                    }
                    split_all(t.as_str(), ",")
                },
                None => values,
            };
            state.query.insert(dst.clone(), written);
            Ok(())
        },
        MixTarget::Header(dst) => {
            let written = match reshaped {
                Some(t) => t,
                None => text,
            };
            match text_to_bytes(written.as_str()) {
                Some(bytes) => write_header(state, dst.as_str(), &bytes),
                None => Err(RuleError::HeaderRejected),
            }
        },
        MixTarget::BodyField(dst) => {
            let written = match reshaped {
                Some(t) => t,
                None => text,
            };
            state.body.insert(dst.clone(), Scalar::Str(written));
            Ok(())
        },
    }
}


/// The key of the sub-field `k` of `src`.
pub open spec fn sub_key(src: Seq<char>, k: Seq<char>) -> Seq<char> {
    src + seq!['.'] + k
}

/// `k` with the prefix `src` replaced by `dst`; `k` itself where it does not
/// start with `src`.
pub open spec fn replace_prefix(k: Seq<char>, src: Seq<char>, dst: Seq<char>) -> Seq<char> {
    if is_prefix(src, k) {
        dst + k.skip(src.len() as int)
    } else {
        k
    }
}

/// The body without what the first `n` collected entries stand for: for each
/// collected key `k`, both `src.k` and `k` leave.
pub open spec fn cleared(b: FlatModel, src: Seq<char>, collected: FlatModel, n: nat) -> FlatModel
    decreases n,
{
    if n == 0 || n > collected.len() {
        b
    } else {
        let k = collected[n - 1].0;
        without(without(cleared(b, src, collected, (n - 1) as nat), sub_key(src, k)), k)
    }
}

/// The body without the keys of the first `n` collected entries.
pub open spec fn dropped(b: FlatModel, collected: FlatModel, n: nat) -> FlatModel
    decreases n,
{
    if n == 0 || n > collected.len() {
        b
    } else {
        without(dropped(b, collected, (n - 1) as nat), collected[n - 1].0)
    }
}

/// The body after the first `n` collected entries were moved: for each, in
/// order, `src.k` and `k` leave and the value is set under the key with `src`
/// replaced by `dst`.
pub open spec fn moved(
    b: FlatModel,
    src: Seq<char>,
    dst: Seq<char>,
    collected: FlatModel,
    n: nat,
) -> FlatModel
    decreases n,
{
    if n == 0 || n > collected.len() {
        b
    } else {
        let k = collected[n - 1].0;
        upsert(
            without(without(moved(b, src, dst, collected, (n - 1) as nat), sub_key(src, k)), k),
            replace_prefix(k, src, dst),
            collected[n - 1].1,
        )
    }
}

/// The body after the first `n` collected entries were copied to their keys
/// with `src` replaced by `dst`.
pub open spec fn copied(
    b: FlatModel,
    src: Seq<char>,
    dst: Seq<char>,
    collected: FlatModel,
    n: nat,
) -> FlatModel
    decreases n,
{
    if n == 0 || n > collected.len() {
        b
    } else {
        upsert(
            copied(b, src, dst, collected, (n - 1) as nat),
            replace_prefix(collected[n - 1].0, src, dst),
            collected[n - 1].1,
        )
    }
}

/// What a rule collects from the body for the field `src`.
pub open spec fn collected_fields(b: FlatModel, src: Seq<char>) -> FlatModel {
    merge_spec(b, src, Seq::empty())
}

/// The body after a rule has read the field `src` from it, for a target
/// outside the body: a `Move` takes out what the collected entries stand for,
/// a `DeleteSrc` the keys of the collected entries.
pub open spec fn body_left(b: FlatModel, action: MixAction, src: Seq<char>) -> FlatModel {
    let collected = collected_fields(b, src);
    match action {
        MixAction::Move => cleared(b, src, collected, collected.len()),
        MixAction::DeleteSrc => dropped(b, collected, collected.len()),
        _ => b,
    }
}

/// The one string that a rule reads from the body field `src`: the collected
/// entries as `key=value`, in ascending order, joined by `"; "` (a single
/// string entry: that string); the literal for `AddTarget`; nothing for
/// `DeleteSrc`.
pub open spec fn body_read(b: FlatModel, action: MixAction, src: Seq<char>) -> Option<Seq<char>> {
    match action {
        MixAction::Move => Some(body_string(collected_fields(b, src), "{key}={value}"@)),
        MixAction::Copy => Some(body_string(collected_fields(b, src), "{key}={value}"@)),
        MixAction::AddTarget(lit) => Some(lit@),
        MixAction::DeleteSrc => None,
    }
}

/// The state after a rule that reads the body field `src`. Transformations
/// are not applied to what is read from the body.
pub open spec fn body_rule(s: StateModel, m: MixMapping, src: Seq<char>) -> Result<
    StateModel,
    RuleError,
> {
    let collected = collected_fields(s.body, src);
    match m.target {
        MixTarget::BodyField(dst) => Ok(
            StateModel {
                headers: s.headers,
                query: s.query,
                body: match m.action {
                    MixAction::Move => moved(s.body, src, dst@, collected, collected.len()),
                    MixAction::Copy => copied(s.body, src, dst@, collected, collected.len()),
                    MixAction::AddTarget(lit) => upsert(s.body, dst@, ScalarModel::Str(lit@)),
                    MixAction::DeleteSrc => dropped(s.body, collected, collected.len()),
                },
            },
        ),
        MixTarget::Query(dst) => Ok(
            StateModel {
                headers: s.headers,
                query: match body_read(s.body, m.action, src) {
                    Some(text) => upsert(s.query, dst@, seq![text]),
                    None => s.query,
                },
                body: body_left(s.body, m.action, src),
            },
        ),
        MixTarget::Header(dst) => match body_read(s.body, m.action, src) {
            None => Ok(
                StateModel {
                    headers: s.headers,
                    query: s.query,
                    body: body_left(s.body, m.action, src),
                },
            ),
            Some(text) => match text_value(text) {
                None => Err(RuleError::HeaderRejected),
                Some(bytes) => header_written(
                    s.headers,
                    s.query,
                    body_left(s.body, m.action, src),
                    dst@,
                    bytes,
                ),
            },
        },
    }
}

/// `k` with the prefix `src` replaced by `dst`.
pub fn replaced_prefix(k: &str, src: &str, dst: &str) -> (r: String)
    ensures
        r@ == replace_prefix(k@, src@, dst@),
{
    match strip_prefix(k, src) {
        Some(rest) => concat_str(dst, rest.as_str()),
        None => k.to_owned(),
    }
}

/// Takes out of the body what the collected entries stand for.
pub fn clear_collected(body: &mut FlatMap, src: &str, collected: &FlatMap)
    ensures
        final(body)@ == cleared(old(body)@, src@, collected@, collected@.len()),
        old(body).wf() ==> final(body).wf(),
{
    let prefix = concat_str(src, ".");
    proof {
        reveal_strlit(".");
        assert("."@ =~= seq!['.']);
    }
    let mut i: usize = 0;
    while i < collected.entries.len()
        invariant
            i <= collected.entries.len(),
            prefix@ == src@ + seq!['.'],
            body@ == cleared(old(body)@, src@, collected@, i as nat),
            old(body).wf() ==> body.wf(),
        decreases collected.entries.len() - i,
    {
        let k = collected.entries[i].0.as_str();
        let src_key = concat_str(prefix.as_str(), k);
        proof {
            assert(collected@[i as int].0 == k@);
        }
        let _ = body.remove(src_key.as_str());
        let _ = body.remove(k);
        i += 1;
    }
}

/// Takes the keys of the collected entries out of the body.
pub fn drop_collected(body: &mut FlatMap, collected: &FlatMap)
    ensures
        final(body)@ == dropped(old(body)@, collected@, collected@.len()),
        old(body).wf() ==> final(body).wf(),
{
    let mut i: usize = 0;
    while i < collected.entries.len()
        invariant
            i <= collected.entries.len(),
            body@ == dropped(old(body)@, collected@, i as nat),
            old(body).wf() ==> body.wf(),
        decreases collected.entries.len() - i,
    {
        let k = collected.entries[i].0.as_str();
        proof {
            assert(collected@[i as int].0 == k@);
        }
        let _ = body.remove(k);
        i += 1;
    }
}

/// The string that a rule reads from the collected entries, as its action
/// says; the body loses what was collected where the action moves or deletes.
pub fn take_body_text(body: &mut FlatMap, action: &MixAction, src: &str) -> (r: Option<String>)
    ensures
        r.deep_view() == body_read(old(body)@, *action, src@),
        final(body)@ == body_left(old(body)@, *action, src@),
        old(body).wf() ==> final(body).wf(),
{
    let mut collected: FlatMap = OrderedMap::new();
    merge_subfields(body, src, &mut collected);
    match action {
        MixAction::Move => {
            clear_collected(body, src, &collected);
            Some(json_body_to_string(&collected, "{key}={value}"))
        },
        MixAction::Copy => Some(json_body_to_string(&collected, "{key}={value}")),
        MixAction::AddTarget(v) => Some(v.clone()),
        MixAction::DeleteSrc => {
            drop_collected(body, &collected);
            None
        },
    }
}

/// Applies a rule whose source is the body field `src`.
pub fn apply_body_rule(state: &mut WorkingState, m: &MixMapping, src: &String) -> (r: Result<
    (),
    RuleError,
>)
    ensures
        r is Ok ==> body_rule(old(state)@, *m, src@) == Ok::<StateModel, RuleError>(final(state)@),
        r matches Err(e) ==> body_rule(old(state)@, *m, src@) == Err::<StateModel, RuleError>(e)
            || (e == RuleError::HeaderRejected && m.target is Header && !has_room(
            old(state)@.headers,
            1,
        )),
        r is Ok ==> one_more(old(state)@.headers, final(state)@.headers),
        old(state).wf() ==> final(state).wf(),
{
    match &m.target {
        MixTarget::BodyField(dst) => {
            let mut collected: FlatMap = OrderedMap::new();
            merge_subfields(&state.body, src.as_str(), &mut collected);
            match &m.action {
                MixAction::Move => {
                    let prefix = concat_str(src.as_str(), ".");
                    proof {
                        reveal_strlit(".");
                        assert("."@ =~= seq!['.']);
                    }
                    let mut i: usize = 0;
                    while i < collected.entries.len()
                        invariant
                            i <= collected.entries.len(),
                            prefix@ == src@ + seq!['.'],
                            state.body@ == moved(
                                old(state).body@,
                                src@,
                                dst@,
                                collected@,
                                i as nat,
                            ),
                            state.query == old(state).query,
                            state.headers == old(state).headers,
                            old(state).wf() ==> state.wf(),
                        decreases collected.entries.len() - i,
                    {
                        let k = collected.entries[i].0.as_str();
                        let src_key = concat_str(prefix.as_str(), k);
                        proof {
                            assert(collected@[i as int].0 == k@);
                            assert(collected@[i as int].1 == collected.entries@[i as int].1@);
                        }
                        let _ = state.body.remove(src_key.as_str());
                        let _ = state.body.remove(k);
                        let target = replaced_prefix(k, src.as_str(), dst.as_str());
                        state.body.insert(target, collected.entries[i].1.clone());
                        i += 1;
                    }
                },
                MixAction::Copy => {
                    let mut i: usize = 0;
                    while i < collected.entries.len()
                        invariant
                            i <= collected.entries.len(),
                            state.body@ == copied(
                                old(state).body@,
                                src@,
                                dst@,
                                collected@,
                                i as nat,
                            ),
                            state.query == old(state).query,
                            state.headers == old(state).headers,
                            old(state).wf() ==> state.wf(),
                        decreases collected.entries.len() - i,
                    {
                        let k = collected.entries[i].0.as_str();
                        proof {
                            assert(collected@[i as int].0 == k@);
                            assert(collected@[i as int].1 == collected.entries@[i as int].1@);
                        }
                        let target = replaced_prefix(k, src.as_str(), dst.as_str());
                        state.body.insert(target, collected.entries[i].1.clone());
                        i += 1;
                    }
                },
                MixAction::AddTarget(v) => {
                    state.body.insert(dst.clone(), Scalar::Str(v.clone()));
                },
                MixAction::DeleteSrc => {
                    drop_collected(&mut state.body, &collected);
                },
            }
            Ok(())
        },
        MixTarget::Query(dst) => {
            match take_body_text(&mut state.body, &m.action, src.as_str()) {
                Some(text) => {
                    let mut values: Vec<String> = Vec::new();
                    values.push(text);
                    proof {
                        assert(values.deep_view() =~= seq![text@]);
                    }
                    state.query.insert(dst.clone(), values);
                },
                None => {},
            }
            Ok(())
        },
        MixTarget::Header(dst) => {
            match take_body_text(&mut state.body, &m.action, src.as_str()) {
                Some(text) => match text_to_bytes(text.as_str()) {
                    Some(bytes) => write_header(state, dst.as_str(), &bytes),
                    None => Err(RuleError::HeaderRejected),
                },
                None => Ok(()),
            }
        },
    }
}

/// The state after one rule.
pub open spec fn mapping_spec(s: StateModel, m: MixMapping) -> Result<StateModel, RuleError> {
    match m.source {
        MixSource::Header(src) => header_rule(s, m, src@),
        MixSource::Query(src) => query_rule(s, m, src@),
        MixSource::BodyField(src) => body_rule(s, m, src@),
    }
}

/// The state after the first `n` rules, each applied to what the one before
/// left; the first error ends it.
pub open spec fn mappings_spec(s: StateModel, rules: Seq<MixMapping>, n: nat) -> Result<
    StateModel,
    RuleError,
>
    decreases n,
{
    if n == 0 || n > rules.len() {
        Ok(s)
    } else {
        match mappings_spec(s, rules, (n - 1) as nat) {
            Ok(before) => mapping_spec(before, rules[n - 1]),
            Err(e) => Err(e),
        }
    }
}

/// Every rule of the list has only transformations with a defined meaning.
pub open spec fn mappings_supported(rules: Seq<MixMapping>) -> bool {
    forall|i: int| 0 <= i < rules.len() ==> mapping_supported(#[trigger] rules[i])
}

/// Applies one rule to the state.
///
/// `Ok` where the state is now what [`mapping_spec`] says. An error is the one
/// that [`mapping_spec`] gives; or `HeaderRejected` where the header map did
/// not take what the rule writes, which does not happen while the map has room
/// for one name.
pub fn apply_mapping(state: &mut WorkingState, m: &MixMapping) -> (r: Result<(), RuleError>)
    requires
        mapping_supported(*m),
    ensures
        r is Ok ==> mapping_spec(old(state)@, *m) == Ok::<StateModel, RuleError>(final(state)@),
        r matches Err(e) ==> mapping_spec(old(state)@, *m) == Err::<StateModel, RuleError>(e) || (e
            == RuleError::HeaderRejected && m.target is Header && !has_room(
            old(state)@.headers,
            1,
        )),
        r is Ok ==> one_more(old(state)@.headers, final(state)@.headers),
        old(state).wf() ==> final(state).wf(),
{
    match &m.source {
        MixSource::Header(src) => apply_header_rule(state, m, src),
        MixSource::Query(src) => apply_query_rule(state, m, src),
        MixSource::BodyField(src) => apply_body_rule(state, m, src),
    }
}

/// One of the rules writes a header.
pub open spec fn writes_header(rules: Seq<MixMapping>) -> bool {
    exists|i: int| 0 <= i < rules.len() && (#[trigger] rules[i]).target is Header
}

/// Applies the rules in their order; stops at the first error.
///
/// `Ok` where the state is now what [`mappings_spec`] says. An error is the
/// one that [`mappings_spec`] gives; or `HeaderRejected` where the header map
/// did not take what a rule writes, which does not happen while the map has
/// room for one name for each rule.
pub fn apply_mappings(state: &mut WorkingState, rules: &Vec<MixMapping>) -> (r: Result<
    (),
    RuleError,
>)
    requires
        mappings_supported(rules@),
    ensures
        r is Ok ==> mappings_spec(old(state)@, rules@, rules@.len()) == Ok::<
            StateModel,
            RuleError,
        >(final(state)@),
        r matches Err(e) ==> mappings_spec(old(state)@, rules@, rules@.len()) == Err::<
            StateModel,
            RuleError,
        >(e) || (e == RuleError::HeaderRejected && writes_header(rules@) && !has_room(
            old(state)@.headers,
            rules@.len(),
        )),
        r is Ok ==> more_by(old(state)@.headers, final(state)@.headers, rules@.len()),
        old(state).wf() ==> final(state).wf(),
{
    let mut i: usize = 0;
    while i < rules.len()
        invariant
            i <= rules.len(),
            mappings_supported(rules@),
            mappings_spec(old(state)@, rules@, i as nat) == Ok::<StateModel, RuleError>(state@),
            more_by(old(state)@.headers, state@.headers, i as nat),
            old(state).wf() ==> state.wf(),
        decreases rules.len() - i,
    {
        let ghost before = state@;
        match apply_mapping(state, &rules[i]) {
            Ok(()) => {},
            Err(e) => {
                proof {
                    if mapping_spec(before, rules@[i as int]) is Err {
                        lemma_error_stays(old(state)@, rules@, (i + 1) as nat, rules@.len());
                    }
                }
                return Err(e);
            },
        }
        i += 1;
    }
    Ok(())
}

/// Once the rules have failed, more rules do not mend it.
pub proof fn lemma_error_stays(s: StateModel, rules: Seq<MixMapping>, n: nat, k: nat)
    requires
        n <= k <= rules.len(),
        mappings_spec(s, rules, n) is Err,
    ensures
        mappings_spec(s, rules, k) == mappings_spec(s, rules, n),
    decreases k - n,
{
    if n < k {
        lemma_error_stays(s, rules, n, (k - 1) as nat);
    }
}


/// The rule writes where it reads: source and target are the same header (in
/// any case) or the same query name, or both lie in the body.
pub open spec fn writes_its_source(m: MixMapping) -> bool {
    match (m.source, m.target) {
        (MixSource::Header(src), MixTarget::Header(dst)) => lower_ascii(src@) == lower_ascii(dst@),
        (MixSource::Query(src), MixTarget::Query(dst)) => src@ == dst@,
        (MixSource::BodyField(_), MixTarget::BodyField(_)) => true,
        _ => false,
    }
}

/// The source of a rule is there: its header has a value, its query name is
/// in the query, its body field is a key of the body.
pub open spec fn source_present(s: StateModel, source: MixSource) -> bool {
    match source {
        MixSource::Header(src) => first_value(s.headers, src@) is Some,
        MixSource::Query(src) => has_key(s.query, src@),
        MixSource::BodyField(src) => has_key(s.body, src@),
    }
}

/// Taking the collected keys out of a body does not bring a key in.
pub proof fn lemma_cleared_absent(
    b: FlatModel,
    src: Seq<char>,
    collected: FlatModel,
    n: nat,
    key: Seq<char>,
)
    requires
        !has_key(b, key),
    ensures
        !has_key(cleared(b, src, collected, n), key),
    decreases n,
{
    if !(n == 0 || n > collected.len()) {
        lemma_cleared_absent(b, src, collected, (n - 1) as nat, key);
        let before = cleared(b, src, collected, (n - 1) as nat);
        let k = collected[n - 1].0;
        lemma_gone_stays_gone(before, sub_key(src, k), key);
        lemma_gone_stays_gone(without(before, sub_key(src, k)), k, key);
    }
}

/// Taking a key out does not bring another one in.
pub proof fn lemma_gone_stays_gone<V>(e: Seq<(Seq<char>, V)>, gone: Seq<char>, key: Seq<char>)
    requires
        !has_key(e, key),
    ensures
        !has_key(without(e, gone), key),
{
    if gone == key {
        lemma_key_index(e, key);
    } else {
        lemma_without_other(e, gone, key);
    }
}

/// After a `Move` from a header to another place, the header has no value.
pub proof fn lemma_move_removes_header(s: StateModel, m: MixMapping, src: Seq<char>)
    requires
        m.action is Move,
        m.target matches MixTarget::Header(dst) ==> lower_ascii(src) != lower_ascii(dst@),
        header_rule(s, m, src) is Ok,
    ensures
        first_value(header_rule(s, m, src)->Ok_0.headers, src) is None,
{
    let after = header_rule(s, m, src)->Ok_0;
    let left = without_name(s.headers, src);
    assert(header_left(s.headers, m.action, src) == left);
    assert(!left.contains_key(lower_ascii(src)));
    match first_value(s.headers, src) {
        None => {
            assert(after.headers == left);
        },
        Some(raw) => {
            match m.target {
                MixTarget::Header(dst) => {
                    assert(exists|b: Seq<u8>| after.headers == with_value(left, dst@, b)) by {
                        if transformations_of(m) is None {
                            assert(after.headers == with_value(left, dst@, raw));
                        } else {
                            let text = value_text(raw)->0;
                            match shaped(text, transformations_of(m)) {
                                None => {
                                    assert(after.headers == with_value(left, dst@, raw));
                                },
                                Some(t) => {
                                    assert(after.headers == with_value(
                                        left,
                                        dst@,
                                        text_value(t)->0,
                                    ));
                                },
                            }
                        }
                    }
                },
                MixTarget::BodyField(dst) => {
                    assert(after.headers == left);
                },
                MixTarget::Query(dst) => {
                    assert(after.headers == left);
                },
            }
        },
    }
}

/// After a `Move` from a query name to another place, the name is not in the
/// query.
pub proof fn lemma_move_removes_query(s: StateModel, m: MixMapping, src: Seq<char>)
    requires
        m.action is Move,
        m.target matches MixTarget::Query(dst) ==> src != dst@,
        keys_distinct(s.query),
        query_rule(s, m, src) is Ok,
    ensures
        !has_key(query_rule(s, m, src)->Ok_0.query, src),
{
    let after = query_rule(s, m, src)->Ok_0;
    let left = without(s.query, src);
    lemma_without_absent(s.query, src);
    assert(map_left(s.query, m.action, src) == left);
    match lookup(s.query, src) {
        None => {
            assert(after.query == left);
        },
        Some(values) => {
            match m.target {
                MixTarget::Query(dst) => {
                    let written = match shaped(join_spec(values, ","@), transformations_of(m)) {
                        Some(t) => split_all_spec(t, ","@),
                        None => values,
                    };
                    assert(after.query == upsert(left, dst@, written));
                    lemma_upsert_other(left, dst@, written, src);
                },
                MixTarget::Header(dst) => {
                    assert(after.query == left);
                },
                MixTarget::BodyField(dst) => {
                    assert(after.query == left);
                },
            }
        },
    }
}

/// After a `Move` from a body field to a header or to the query, the field is
/// no key of the body.
pub proof fn lemma_move_removes_field(s: StateModel, m: MixMapping, src: Seq<char>)
    requires
        m.action is Move,
        !(m.target is BodyField),
        keys_distinct(s.body),
        body_rule(s, m, src) is Ok,
    ensures
        !has_key(body_rule(s, m, src)->Ok_0.body, src),
{
    let after = body_rule(s, m, src)->Ok_0;
    let collected = collected_fields(s.body, src);
    assert(after.body == cleared(s.body, src, collected, collected.len()));
    lemma_key_index(s.body, src);
    if has_key(s.body, src) {
        let v = s.body[crate::assoc::key_index(s.body, src)].1;
        assert(collected =~= seq![(src, v)]);
        assert(cleared(s.body, src, collected, 0) == s.body);
        let first = without(s.body, sub_key(src, src));
        lemma_distinct_kept(s.body, sub_key(src, src), v);
        lemma_without_absent(first, src);
    } else {
        lemma_cleared_absent(s.body, src, collected, collected.len(), src);
    }
}

/// After a `Move` the source is gone: the header has no value, the query name
/// is not in the query, the body field is no key of the body. This holds of
/// every rule that does not write where it reads, on a state whose query and
/// body hold no key twice.
pub proof fn lemma_move_removes_source(s: StateModel, m: MixMapping)
    requires
        m.action is Move,
        !writes_its_source(m),
        keys_distinct(s.query),
        keys_distinct(s.body),
        mapping_spec(s, m) is Ok,
    ensures
        !source_present(mapping_spec(s, m)->Ok_0, m.source),
{
    match m.source {
        MixSource::Header(src) => {
            lemma_move_removes_header(s, m, src@);
        },
        MixSource::Query(src) => {
            lemma_move_removes_query(s, m, src@);
        },
        MixSource::BodyField(src) => {
            lemma_move_removes_field(s, m, src@);
        },
    }
}

/// After a `Copy` the source holds what it held: the first value of the
/// header, the values of the query name, the body itself. This holds of every
/// rule that does not write where it reads.
pub proof fn lemma_copy_keeps_source(s: StateModel, m: MixMapping)
    requires
        m.action is Copy,
        !writes_its_source(m),
        mapping_spec(s, m) is Ok,
    ensures
        ({
            let after = mapping_spec(s, m)->Ok_0;
            match m.source {
                MixSource::Header(src) => first_value(after.headers, src@) == first_value(
                    s.headers,
                    src@,
                ),
                MixSource::Query(src) => lookup(after.query, src@) == lookup(s.query, src@),
                MixSource::BodyField(src) => after.body == s.body,
            }
        }),
        source_present(s, m.source) ==> source_present(mapping_spec(s, m)->Ok_0, m.source),
{
    let after = mapping_spec(s, m)->Ok_0;
    match m.source {
        MixSource::Header(src) => {
            assert(header_left(s.headers, m.action, src@) == s.headers);
            match first_value(s.headers, src@) {
                None => {
                    assert(after.headers == s.headers);
                },
                Some(raw) => {
                    match m.target {
                        MixTarget::Header(dst) => {
                            assert(exists|b: Seq<u8>| after.headers == with_value(s.headers, dst@, b))
                                by {
                                if transformations_of(m) is None {
                                    assert(after.headers == with_value(s.headers, dst@, raw));
                                } else {
                                    let text = value_text(raw)->0;
                                    match shaped(text, transformations_of(m)) {
                                        None => {
                                            assert(after.headers == with_value(
                                                s.headers,
                                                dst@,
                                                raw,
                                            ));
                                        },
                                        Some(t) => {
                                            assert(after.headers == with_value(
                                                s.headers,
                                                dst@,
                                                text_value(t)->0,
                                            ));
                                        },
                                    }
                                }
                            }
                        },
                        MixTarget::BodyField(dst) => {
                            assert(after.headers == s.headers);
                        },
                        MixTarget::Query(dst) => {
                            assert(after.headers == s.headers);
                        },
                    }
                },
            }
        },
        MixSource::Query(src) => {
            assert(map_left(s.query, m.action, src@) == s.query);
            match lookup(s.query, src@) {
                None => {
                    assert(after.query == s.query);
                },
                Some(values) => {
                    match m.target {
                        MixTarget::Query(dst) => {
                            let written = match shaped(
                                join_spec(values, ","@),
                                transformations_of(m),
                            ) {
                                Some(t) => split_all_spec(t, ","@),
                                None => values,
                            };
                            assert(after.query == upsert(s.query, dst@, written));
                            lemma_upsert_other(s.query, dst@, written, src@);
                        },
                        MixTarget::Header(dst) => {
                            assert(after.query == s.query);
                        },
                        MixTarget::BodyField(dst) => {
                            assert(after.query == s.query);
                        },
                    }
                },
            }
        },
        MixSource::BodyField(src) => {
            assert(body_left(s.body, m.action, src@) == s.body);
        },
    }
}

/// What a rule writes is made of what it read and of its transformations
/// alone: the text of the source header, or the values of the source query
/// name joined by `,`, passed through the transformations. Nothing else of the
/// state, and so no rule that ran before without touching the source, has a
/// part in it.
pub proof fn lemma_written_value(s: StateModel, m: MixMapping)
    requires
        mapping_spec(s, m) is Ok,
        !(m.action is DeleteSrc),
    ensures
        ({
            let after = mapping_spec(s, m)->Ok_0;
            let ts = transformations_of(m);
            let read = match m.source {
                MixSource::Header(src) => match header_read(s.headers, m.action, src@) {
                    Ok(Some(raw)) => value_text(raw),
                    _ => None,
                },
                MixSource::Query(src) => match map_read(
                    s.query,
                    m.action,
                    src@,
                    seq![literal_of(m.action)],
                ) {
                    Some(values) => Some(join_spec(values, ","@)),
                    None => None,
                },
                MixSource::BodyField(_) => None,
            };
            read matches Some(text) ==> match m.target {
                MixTarget::BodyField(dst) => lookup(after.body, dst@) == Some(
                    ScalarModel::Str(transformed(text, ts)),
                ),
                MixTarget::Header(dst) => m.source is Query || shaped(text, ts) is Some ==> {
                    &&& first_value(after.headers, dst@) is Some
                    &&& first_value(after.headers, dst@) == text_value(transformed(text, ts))
                },
                MixTarget::Query(dst) => m.source is Header ==> lookup(after.query, dst@) == Some(
                    seq![transformed(text, ts)],
                ),
            }
        }),
{
    let ts = transformations_of(m);
    match m.target {
        MixTarget::BodyField(dst) => {
            match m.source {
                MixSource::Header(src) => {
                    match header_read(s.headers, m.action, src@) {
                        Ok(Some(raw)) => {
                            if value_text(raw) is Some {
                                lemma_upsert_same(
                                    s.body,
                                    dst@,
                                    ScalarModel::Str(transformed(value_text(raw)->0, ts)),
                                );
                            }
                        },
                        _ => {},
                    }
                },
                MixSource::Query(src) => {
                    match map_read(s.query, m.action, src@, seq![literal_of(m.action)]) {
                        Some(values) => {
                            lemma_upsert_same(
                                s.body,
                                dst@,
                                ScalarModel::Str(transformed(join_spec(values, ","@), ts)),
                            );
                        },
                        None => {},
                    }
                },
                _ => {},
            }
        },
        MixTarget::Query(dst) => {
            match m.source {
                MixSource::Header(src) => {
                    match header_read(s.headers, m.action, src@) {
                        Ok(Some(raw)) => {
                            if value_text(raw) is Some {
                                lemma_upsert_same(
                                    s.query,
                                    dst@,
                                    seq![transformed(value_text(raw)->0, ts)],
                                );
                            }
                        },
                        _ => {},
                    }
                },
                _ => {},
            }
        },
        MixTarget::Header(dst) => {},
    }
}

} // verus!
