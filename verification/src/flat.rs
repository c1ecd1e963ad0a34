//! The flat-map codec: nested JSON to and from a map of dotted and bracketed
//! keys.

use crate::assoc::{
    key_index, keys_distinct, lemma_distinct_kept, lemma_key_index, lookup, upsert, OrderedMap,
};
use crate::json::{
    empty_object, lemma_array_view, lemma_object_view, null_model, Json, JsonModel, Scalar,
    ScalarModel,
};
use crate::transform::{regex_find, regex_search};
use crate::text::{
    chars_of, concat_str, decimal, decimal_string, digits_value, is_digit, is_index_text,
    is_word_char, join, join_spec, parse_index, replace, replace_spec, sort_spec, sort_strings,
    string_of, strip_prefix, strip_prefix_spec,
};
use vstd::prelude::*;

verus! {

/// A flat map: each leaf of a JSON value under the key that spells its path.
pub type FlatMap = OrderedMap<Scalar>;

/// What a [`FlatMap`] holds.
pub type FlatModel = Seq<(Seq<char>, ScalarModel)>;

/// The key of field `name` below `prefix`.
pub open spec fn field_key(prefix: Seq<char>, name: Seq<char>) -> Seq<char> {
    if prefix.len() == 0 {
        name
    } else {
        prefix + seq!['.'] + name
    }
}

/// The key of item `i` below `prefix`.
pub open spec fn item_key(prefix: Seq<char>, i: nat) -> Seq<char> {
    prefix + seq!['['] + decimal(i) + seq![']']
}

/// `acc` after the leaves of `v` were stored in it, each under `prefix`
/// extended by its path: `.name` for a field (the bare name at the top), `[i]`
/// for an item.
pub open spec fn flatten_spec(v: JsonModel, prefix: Seq<char>, acc: FlatModel) -> FlatModel
    decreases v, 0nat,
{
    match v {
        JsonModel::Leaf(s) => upsert(acc, prefix, s),
        JsonModel::Array(items) => flatten_items(items, prefix, items.len(), acc),
        JsonModel::Object(fields) => flatten_fields(fields, prefix, fields.len(), acc),
    }
}

/// `acc` after the first `n` items were flattened into it.
pub open spec fn flatten_items(
    items: Seq<JsonModel>,
    prefix: Seq<char>,
    n: nat,
    acc: FlatModel,
) -> FlatModel
    decreases items, n,
{
    if n == 0 || n > items.len() {
        acc
    } else {
        flatten_spec(
            items[n - 1],
            item_key(prefix, (n - 1) as nat),
            flatten_items(items, prefix, (n - 1) as nat, acc),
        )
    }
}

/// `acc` after the first `n` fields were flattened into it.
pub open spec fn flatten_fields(
    fields: Seq<(Seq<char>, JsonModel)>,
    prefix: Seq<char>,
    n: nat,
    acc: FlatModel,
) -> FlatModel
    decreases fields, n,
{
    if n == 0 || n > fields.len() {
        acc
    } else {
        flatten_spec(
            fields[n - 1].1,
            field_key(prefix, fields[n - 1].0),
            flatten_fields(fields, prefix, (n - 1) as nat, acc),
        )
    }
}

/// The flat map of a whole JSON value.
pub open spec fn flatten(v: JsonModel) -> FlatModel {
    flatten_spec(v, Seq::empty(), Seq::empty())
}

/// Flattening keeps the keys distinct.
pub proof fn lemma_flatten_distinct(v: JsonModel, prefix: Seq<char>, acc: FlatModel)
    requires
        keys_distinct(acc),
    ensures
        keys_distinct(flatten_spec(v, prefix, acc)),
    decreases v, 0nat,
{
    match v {
        JsonModel::Leaf(s) => {
            lemma_distinct_kept(acc, prefix, s);
        },
        JsonModel::Array(items) => {
            lemma_flatten_items_distinct(items, prefix, items.len(), acc);
        },
        JsonModel::Object(fields) => {
            lemma_flatten_fields_distinct(fields, prefix, fields.len(), acc);
        },
    }
}

proof fn lemma_flatten_items_distinct(
    items: Seq<JsonModel>,
    prefix: Seq<char>,
    n: nat,
    acc: FlatModel,
)
    requires
        keys_distinct(acc),
    ensures
        keys_distinct(flatten_items(items, prefix, n, acc)),
    decreases items, n,
{
    if !(n == 0 || n > items.len()) {
        lemma_flatten_items_distinct(items, prefix, (n - 1) as nat, acc);
        lemma_flatten_distinct(
            items[n - 1],
            item_key(prefix, (n - 1) as nat),
            flatten_items(items, prefix, (n - 1) as nat, acc),
        );
    }
}

proof fn lemma_flatten_fields_distinct(
    fields: Seq<(Seq<char>, JsonModel)>,
    prefix: Seq<char>,
    n: nat,
    acc: FlatModel,
)
    requires
        keys_distinct(acc),
    ensures
        keys_distinct(flatten_fields(fields, prefix, n, acc)),
    decreases fields, n,
{
    if !(n == 0 || n > fields.len()) {
        lemma_flatten_fields_distinct(fields, prefix, (n - 1) as nat, acc);
        lemma_flatten_distinct(
            fields[n - 1].1,
            field_key(prefix, fields[n - 1].0),
            flatten_fields(fields, prefix, (n - 1) as nat, acc),
        );
    }
}

/// Stores every leaf of `value` in `result`, under `prefix` extended by the
/// leaf's path. A key that is there already gets the new value.
#[verifier::loop_isolation(false)]
pub fn json_to_flat_map(value: &Json, prefix: &str, result: &mut FlatMap)
    ensures
        final(result)@ == flatten_spec(value@, prefix@, old(result)@),
        old(result).wf() ==> final(result).wf(),
    decreases value,
{
    proof {
        if result.wf() {
            lemma_flatten_distinct(value@, prefix@, result@);
        }
    }
    match value {
        Json::Leaf(s) => {
            result.insert(prefix.to_owned(), s.clone());
        },
        Json::Array(items) => {
            proof {
                lemma_array_view(*items);
            }
            let mut i: usize = 0;
            while i < items.len()
                invariant
                    i <= items.len(),
                    result@ == flatten_items(items.deep_view(), prefix@, i as nat, old(result)@),
                decreases items.len() - i,
            {
                let head = concat_str(prefix, "[");
                let number = decimal_string(i);
                let open = concat_str(head.as_str(), number.as_str());
                let key = concat_str(open.as_str(), "]");
                proof {
                    reveal_strlit("[");
                    reveal_strlit("]");
                    assert("["@ =~= seq!['[']);
                    assert("]"@ =~= seq![']']);
                    assert(key@ == item_key(prefix@, i as nat));
                }
                json_to_flat_map(&items[i], key.as_str(), result);
                i += 1;
            }
        },
        Json::Object(fields) => {
            proof {
                lemma_object_view(*fields);
            }
            let mut i: usize = 0;
            while i < fields.entries.len()
                invariant
                    i <= fields.entries.len(),
                    result@ == flatten_fields(fields@, prefix@, i as nat, old(result)@),
                decreases fields.entries.len() - i,
            {
                let name = fields.entries[i].0.as_str();
                let key = if prefix.unicode_len() == 0 {
                    name.to_owned()
                } else {
                    let head = concat_str(prefix, ".");
                    concat_str(head.as_str(), name)
                };
                proof {
                    reveal_strlit(".");
                    assert("."@ =~= seq!['.']);
                    assert(fields@[i as int].0 == name@);
                    assert(key@ == field_key(prefix@, name@));
                }
                json_to_flat_map(&fields.entries[i].1, key.as_str(), result);
                i += 1;
            }
        },
    }
}


/// Whether a class of regular expressions, written as `pattern`, holds the
/// character: the pattern finds a match in the text of that one character.
pub open spec fn class_has(pattern: Seq<char>, c: char) -> bool {
    regex_search(pattern, seq![c]) is Some && regex_search(pattern, seq![c])->0 is Some
}

/// A digit as the tokeniser sees it: `0` to `9`, and beyond ASCII every
/// character of the class `\d` of regular expressions, the decimal digits of
/// Unicode.
pub open spec fn is_token_digit(c: char) -> bool {
    if c <= '\u{7f}' {
        is_digit(c)
    } else {
        class_has("\\d"@, c)
    }
}

/// A word character as the tokeniser sees it: a letter or a digit of ASCII or
/// `_`, and beyond ASCII every character of the class `\w` of regular
/// expressions, the word characters of Unicode.
pub open spec fn is_token_word(c: char) -> bool {
    if c <= '\u{7f}' {
        is_word_char(c)
    } else {
        class_has("\\w"@, c)
    }
}

/// How many digits stand at the start of `s`.
pub open spec fn digit_run(s: Seq<char>) -> int
    decreases s.len(),
{
    if s.len() > 0 && is_token_digit(s[0]) {
        1 + digit_run(s.drop_first())
    } else {
        0
    }
}

/// How many word characters stand at the start of `s`.
pub open spec fn word_run(s: Seq<char>) -> int
    decreases s.len(),
{
    if s.len() > 0 && is_token_word(s[0]) {
        1 + word_run(s.drop_first())
    } else {
        0
    }
}

/// A bracketed index stands at the start of `s`: `[`, one or more digits, `]`.
pub open spec fn bracket_at_start(s: Seq<char>) -> bool {
    &&& s.len() > 0
    &&& s[0] == '['
    &&& digit_run(s.skip(1)) > 0
    &&& 1 + digit_run(s.skip(1)) < s.len()
    &&& s[1 + digit_run(s.skip(1))] == ']'
}

/// The tokens of a key, from left to right. At each place the first of these
/// that fits is taken: a bracketed run of digits (the token is the digits), a
/// run of digits, a run of word characters. A character that starts none of
/// them is passed over.
pub open spec fn tokens_spec(s: Seq<char>) -> Seq<Seq<char>>
    decreases s.len(),
{
    if s.len() == 0 {
        Seq::empty()
    } else if bracket_at_start(s) {
        let d = digit_run(s.skip(1));
        seq![s.subrange(1, 1 + d)] + tokens_spec(s.skip(d + 2))
    } else if is_token_digit(s[0]) {
        let d = digit_run(s);
        if 0 < d <= s.len() {
            seq![s.take(d)] + tokens_spec(s.skip(d))
        } else {
            Seq::empty()
        }
    } else if is_token_word(s[0]) {
        let w = word_run(s);
        if 0 < w <= s.len() {
            seq![s.take(w)] + tokens_spec(s.skip(w))
        } else {
            Seq::empty()
        }
    } else {
        tokens_spec(s.drop_first())
    }
}

/// A run is no longer than the text.
pub proof fn lemma_runs_bounded(s: Seq<char>)
    ensures
        0 <= digit_run(s) <= s.len(),
        0 <= word_run(s) <= s.len(),
    decreases s.len(),
{
    if s.len() > 0 {
        lemma_runs_bounded(s.drop_first());
    }
}

/// Whether the class of regular expressions holds the character.
pub fn in_class(pattern: &str, c: char) -> (r: bool)
    ensures
        r == class_has(pattern@, c),
{
    let mut one: Vec<char> = Vec::new();
    one.push(c);
    proof {
        assert(one@ =~= seq![c]);
    }
    let text = string_of(&one);
    match regex_find(pattern, text.as_str()) {
        Some(Some(_)) => true,
        _ => false,
    }
}

fn is_digit_char(c: char) -> (r: bool)
    ensures
        r == is_token_digit(c),
{
    if c <= '\u{7f}' {
        '0' <= c && c <= '9'
    } else {
        in_class("\\d", c)
    }
}

fn is_word(c: char) -> (r: bool)
    ensures
        r == is_token_word(c),
{
    if c <= '\u{7f}' {
        ('a' <= c && c <= 'z') || ('A' <= c && c <= 'Z') || ('0' <= c && c <= '9') || c == '_'
    } else {
        in_class("\\w", c)
    }
}

/// The end of the run of digits that starts at `from`.
fn digit_run_end(s: &Vec<char>, from: usize) -> (end: usize)
    requires
        from <= s.len(),
    ensures
        from <= end <= s.len(),
        end - from == digit_run(s@.skip(from as int)),
{
    let mut end: usize = from;
    while end < s.len() && is_digit_char(s[end])
        invariant
            from <= end <= s.len(),
            digit_run(s@.skip(from as int)) == (end - from) + digit_run(s@.skip(end as int)),
        decreases s.len() - end,
    {
        proof {
            assert(s@.skip(end as int).drop_first() =~= s@.skip(end + 1));
        }
        end += 1;
    }
    end
}

/// The end of the run of word characters that starts at `from`.
fn word_run_end(s: &Vec<char>, from: usize) -> (end: usize)
    requires
        from <= s.len(),
    ensures
        from <= end <= s.len(),
        end - from == word_run(s@.skip(from as int)),
{
    let mut end: usize = from;
    while end < s.len() && is_word(s[end])
        invariant
            from <= end <= s.len(),
            word_run(s@.skip(from as int)) == (end - from) + word_run(s@.skip(end as int)),
        decreases s.len() - end,
    {
        proof {
            assert(s@.skip(end as int).drop_first() =~= s@.skip(end + 1));
        }
        end += 1;
    }
    end
}

/// The characters of `s` from `from` up to `to`, as a string.
fn piece(s: &Vec<char>, from: usize, to: usize) -> (r: String)
    requires
        from <= to <= s.len(),
    ensures
        r@ == s@.subrange(from as int, to as int),
{
    let mut out: Vec<char> = Vec::new();
    let mut i: usize = from;
    while i < to
        invariant
            from <= i <= to,
            to <= s.len(),
            out@ == s@.subrange(from as int, i as int),
        decreases to - i,
    {
        out.push(s[i]);
        i += 1;
        proof {
            assert(out@ =~= s@.subrange(from as int, i as int));
        }
    }
    string_of(&out)
}

/// Cuts a key into its tokens: `aa[0].bb[1].cc` gives `aa`, `0`, `bb`, `1`,
/// `cc`.
pub fn parse_key_path(key: &str) -> (parts: Vec<String>)
    ensures
        parts.deep_view() == tokens_spec(key@),
{
    let s = chars_of(key);
    let mut parts: Vec<String> = Vec::new();
    let mut i: usize = 0;
    proof {
        assert(s@.skip(0) =~= s@);
        assert(parts.deep_view() =~= Seq::<Seq<char>>::empty());
    }
    while i < s.len()
        invariant
            i <= s.len(),
            s@ == key@,
            parts.deep_view() + tokens_spec(s@.skip(i as int)) == tokens_spec(s@),
        decreases s.len() - i,
    {
        let ghost rest = s@.skip(i as int);
        let ghost before = parts.deep_view();
        proof {
            lemma_runs_bounded(rest);
            lemma_runs_bounded(rest.drop_first());
            lemma_runs_bounded(rest.skip(1));
        }
        let c = s[i];
        let mut bracket_end: usize = i;
        if c == '[' {
            let e = digit_run_end(&s, i + 1);
            proof {
                assert(rest.skip(1) =~= s@.skip(i + 1));
            }
            if e > i + 1 && e < s.len() && s[e] == ']' {
                bracket_end = e;
            }
        }
        if bracket_end > i {
            let token = piece(&s, i + 1, bracket_end);
            proof {
                let d = digit_run(rest.skip(1));
                assert(rest.skip(1) =~= s@.skip(i + 1));
                assert(bracket_at_start(rest));
                assert(rest.subrange(1, 1 + d) =~= token@);
                assert(rest.skip(d + 2) =~= s@.skip(bracket_end + 1));
            }
            parts.push(token);
            proof {
                assert(parts.deep_view() =~= before.push(token@));
                assert(parts.deep_view() + tokens_spec(s@.skip(bracket_end + 1)) =~= before + (
                seq![token@] + tokens_spec(s@.skip(bracket_end + 1))));
            }
            i = bracket_end + 1;
        } else if is_digit_char(c) {
            proof {
                assert(rest.skip(1) =~= s@.skip(i + 1));
                assert(!bracket_at_start(rest));
            }
            let e = digit_run_end(&s, i);
            let token = piece(&s, i, e);
            proof {
                assert(rest.take(e - i) =~= token@);
                assert(rest.skip(e - i) =~= s@.skip(e as int));
            }
            parts.push(token);
            proof {
                assert(parts.deep_view() =~= before.push(token@));
                assert(parts.deep_view() + tokens_spec(s@.skip(e as int)) =~= before + (
                seq![token@] + tokens_spec(s@.skip(e as int))));
            }
            i = e;
        } else if is_word(c) {
            proof {
                assert(rest.skip(1) =~= s@.skip(i + 1));
                assert(!bracket_at_start(rest));
            }
            let e = word_run_end(&s, i);
            let token = piece(&s, i, e);
            proof {
                assert(rest.take(e - i) =~= token@);
                assert(rest.skip(e - i) =~= s@.skip(e as int));
            }
            parts.push(token);
            proof {
                assert(parts.deep_view() =~= before.push(token@));
                assert(parts.deep_view() + tokens_spec(s@.skip(e as int)) =~= before + (
                seq![token@] + tokens_spec(s@.skip(e as int))));
            }
            i = e;
        } else {
            proof {
                assert(rest.skip(1) =~= s@.skip(i + 1));
                assert(!bracket_at_start(rest));
                assert(rest.drop_first() =~= s@.skip(i + 1));
            }
            i += 1;
        }
    }
    proof {
        assert(s@.skip(i as int) =~= Seq::<char>::empty());
        assert(parts.deep_view() + Seq::<Seq<char>>::empty() =~= parts.deep_view());
    }
    parts
}


/// The fields of an object; none for another value.
pub open spec fn fields_of(v: JsonModel) -> Seq<(Seq<char>, JsonModel)> {
    match v {
        JsonModel::Object(fields) => fields,
        _ => Seq::empty(),
    }
}

/// The items of an array; none for another value.
pub open spec fn items_of(v: JsonModel) -> Seq<JsonModel> {
    match v {
        JsonModel::Array(items) => items,
        _ => Seq::empty(),
    }
}

/// `items` with nulls added at the end until position `idx` exists.
pub open spec fn padded(items: Seq<JsonModel>, idx: nat) -> Seq<JsonModel> {
    if items.len() > idx {
        items
    } else {
        items + Seq::new((idx + 1 - items.len()) as nat, |i: int| null_model())
    }
}

/// The last token of a path is no array index: a value can be set there.
pub open spec fn insertable(parts: Seq<Seq<char>>) -> bool {
    parts.len() > 0 ==> !is_index_text(parts.last())
}

/// `cur` after `value` was set at the path `parts`.
///
/// An empty path changes nothing. The last token names a field: `cur` becomes
/// an object if it is none, and the field is set. A token before the last that
/// is an index makes `cur` an array, padded with nulls up to that index, and a
/// null at the index becomes an empty object; any other token before the last
/// makes `cur` an object, with an empty object under the token if the field is
/// new. The rest of the path is then set inside that item or field.
pub open spec fn insert_spec(cur: JsonModel, parts: Seq<Seq<char>>, value: JsonModel) -> JsonModel
    decreases parts.len(),
{
    if parts.len() == 0 {
        cur
    } else {
        let first = parts[0];
        let rest = parts.drop_first();
        if rest.len() == 0 {
            JsonModel::Object(upsert(fields_of(cur), first, value))
        } else if is_index_text(first) {
            let idx = digits_value(first);
            let items = padded(items_of(cur), idx);
            let slot = if items[idx as int] == null_model() {
                empty_object()
            } else {
                items[idx as int]
            };
            JsonModel::Array(items.update(idx as int, insert_spec(slot, rest, value)))
        } else {
            let fields = fields_of(cur);
            let child = match lookup(fields, first) {
                Some(c) => c,
                None => empty_object(),
            };
            JsonModel::Object(upsert(fields, first, insert_spec(child, rest, value)))
        }
    }
}

/// Sets `value` at the path `parts[from..]` inside `current`.
pub fn insert_recursive(current: &mut Json, parts: &Vec<String>, from: usize, value: Json)
    requires
        from <= parts.len(),
        insertable(parts.deep_view().skip(from as int)),
    ensures
        final(current)@ == insert_spec(old(current)@, parts.deep_view().skip(from as int), value@),
    decreases parts.len() - from,
{
    if from >= parts.len() {
        return ;
    }
    let ghost path = parts.deep_view().skip(from as int);
    let ghost target = insert_spec(current@, path, value@);
    let first = chars_of(parts[from].as_str());
    let index = parse_index(&first);
    proof {
        assert(path[0] == first@);
        assert(path.drop_first() =~= parts.deep_view().skip(from + 1));
    }
    if from + 1 == parts.len() {
        proof {
            assert(path.last() == first@);
        }
        match current {
            Json::Object(map) => {
                proof {
                    lemma_object_view(*map);
                }
                map.insert(parts[from].clone(), value);
                proof {
                    lemma_object_view(*map);
                }
            },
            _ => {
                proof {
                    assert(fields_of(current@) =~= Seq::empty());
                }
                let mut map: OrderedMap<Json> = OrderedMap::new();
                map.insert(parts[from].clone(), value);
                proof {
                    lemma_object_view(map);
                }
                *current = Json::Object(map);
            },
        }
        assert(current@ == target);
    } else {
        let ghost rest = path.drop_first();
        let ghost value_model = value@;
        match index {
            Some(idx) => {
                match current {
                    Json::Array(_) => {},
                    _ => {
                        let fresh: Vec<Json> = Vec::new();
                        proof {
                            lemma_array_view(fresh);
                            assert(fresh.deep_view() =~= Seq::<JsonModel>::empty());
                        }
                        *current = Json::Array(fresh);
                    },
                }
                let ghost mid = current@;
                proof {
                    assert(mid == JsonModel::Array(items_of(old(current)@)));
                }
                match current {
                    Json::Array(items) => {
                        let ghost start = items.deep_view();
                        proof {
                            lemma_array_view(*items);
                            assert(start == items_of(mid));
                        }
                        while items.len() <= idx
                            invariant
                                items.deep_view().len() >= start.len(),
                                items.deep_view().len() > start.len() ==> items.deep_view().len()
                                    <= idx + 1,
                                items.deep_view() =~= start + Seq::new(
                                    (items.deep_view().len() - start.len()) as nat,
                                    |i: int| null_model(),
                                ),
                            decreases idx + 1 - items.len(),
                        {
                            let ghost before = items.deep_view();
                            items.push(Json::Leaf(Scalar::Null));
                            proof {
                                assert(items.deep_view() =~= before.push(null_model()));
                            }
                        }
                        let ghost full = items.deep_view();
                        proof {
                            assert(full =~= padded(start, idx as nat));
                            assert(full[idx as int] == items@[idx as int].deep_view());
                        }
                        let is_null = match &items[idx] {
                            Json::Leaf(Scalar::Null) => true,
                            _ => false,
                        };
                        if is_null {
                            let fresh: OrderedMap<Json> = OrderedMap::new();
                            proof {
                                lemma_object_view(fresh);
                            }
                            items[idx] = Json::Object(fresh);
                        }
                        let ghost slot = if full[idx as int] == null_model() {
                            empty_object()
                        } else {
                            full[idx as int]
                        };
                        let ghost ready = items@;
                        proof {
                            assert(items.deep_view() =~= full.update(idx as int, slot));
                        }
                        insert_recursive(&mut items[idx], parts, from + 1, value);
                        proof {
                            assert(items@.len() == ready.len());
                            assert(forall|j: int|
                                0 <= j < ready.len() && j != idx ==> items@[j] == ready[j]);
                            assert(items.deep_view() =~= full.update(
                                idx as int,
                                insert_spec(slot, rest, value_model),
                            ));
                            lemma_array_view(*items);
                        }
                    },
                    _ => {},
                }
                assert(current@ == target);
            },
            None => {
                match current {
                    Json::Object(_) => {},
                    _ => {
                        let fresh: OrderedMap<Json> = OrderedMap::new();
                        proof {
                            lemma_object_view(fresh);
                        }
                        *current = Json::Object(fresh);
                    },
                }
                let ghost mid = current@;
                proof {
                    assert(mid == JsonModel::Object(fields_of(old(current)@)));
                }
                match current {
                    Json::Object(map) => {
                        let ghost start = map@;
                        proof {
                            lemma_object_view(*map);
                            assert(start == fields_of(mid));
                            lemma_key_index(start, first@);
                        }
                        let at = match map.position(parts[from].as_str()) {
                            Some(i) => i,
                            None => {
                                let fresh: OrderedMap<Json> = OrderedMap::new();
                                proof {
                                    lemma_object_view(fresh);
                                }
                                map.entries.push((parts[from].clone(), Json::Object(fresh)));
                                proof {
                                    assert(map@ =~= start.push((first@, empty_object())));
                                }
                                map.entries.len() - 1
                            },
                        };
                        let ghost child = match lookup(start, first@) {
                            Some(c) => c,
                            None => empty_object(),
                        };
                        let ghost ready = map.entries@;
                        let ghost ready_model = map@;
                        proof {
                            assert(ready_model[at as int] == (first@, child));
                        }
                        insert_recursive(&mut map.entries[at].1, parts, from + 1, value);
                        proof {
                            assert(map.entries@.len() == ready.len());
                            assert(forall|j: int|
                                0 <= j < ready.len() && j != at ==> map.entries@[j] == ready[j]);
                            assert(map.entries@[at as int].0 == ready[at as int].0);
                            assert(map@ =~= ready_model.update(
                                at as int,
                                (first@, insert_spec(child, rest, value_model)),
                            ));
                            assert(map@ =~= upsert(
                                start,
                                first@,
                                insert_spec(child, rest, value_model),
                            ));
                            lemma_object_view(*map);
                        }
                    },
                    _ => {},
                }
                assert(current@ == target);
            },
        }
    }
}


/// The JSON value built from the first `n` entries of a flat map: each value
/// set at the path that its key spells, one entry after the other, starting
/// from an empty object.
pub open spec fn unflatten_upto(entries: FlatModel, n: nat) -> JsonModel
    decreases n,
{
    if n == 0 || n > entries.len() {
        empty_object()
    } else {
        insert_spec(
            unflatten_upto(entries, (n - 1) as nat),
            tokens_spec(entries[n - 1].0),
            JsonModel::Leaf(entries[n - 1].1),
        )
    }
}

/// The JSON value that a flat map spells.
pub open spec fn unflatten(entries: FlatModel) -> JsonModel {
    unflatten_upto(entries, entries.len())
}

/// No key of the map ends in an array index.
pub open spec fn keys_insertable(entries: FlatModel) -> bool {
    forall|i: int| 0 <= i < entries.len() ==> insertable(tokens_spec((#[trigger] entries[i]).0))
}

/// Whether a value can be set under this key: its last token is no array
/// index.
pub fn key_is_insertable(key: &str) -> (ok: bool)
    ensures
        ok == insertable(tokens_spec(key@)),
{
    let parts = parse_key_path(key);
    if parts.len() == 0 {
        return true;
    }
    let last = chars_of(parts[parts.len() - 1].as_str());
    parse_index(&last).is_none()
}

/// Whether [`flat_map_to_json`] accepts the map: no key ends in an array index.
pub fn can_unflatten(map: &FlatMap) -> (ok: bool)
    ensures
        ok == keys_insertable(map@),
{
    let mut i: usize = 0;
    while i < map.entries.len()
        invariant
            i <= map.entries.len(),
            forall|j: int| 0 <= j < i ==> insertable(tokens_spec((#[trigger] map@[j]).0)),
        decreases map.entries.len() - i,
    {
        proof {
            assert(map@[i as int].0 == map.entries@[i as int].0@);
        }
        if !key_is_insertable(map.entries[i].0.as_str()) {
            return false;
        }
        i += 1;
    }
    true
}

/// Builds the JSON value that a flat map spells.
pub fn flat_map_to_json(map: &FlatMap) -> (root: Json)
    requires
        keys_insertable(map@),
    ensures
        root@ == unflatten(map@),
{
    let fresh: OrderedMap<Json> = OrderedMap::new();
    proof {
        lemma_object_view(fresh);
    }
    let mut root = Json::Object(fresh);
    let mut i: usize = 0;
    while i < map.entries.len()
        invariant
            i <= map.entries.len(),
            keys_insertable(map@),
            root@ == unflatten_upto(map@, i as nat),
        decreases map.entries.len() - i,
    {
        let parts = parse_key_path(map.entries[i].0.as_str());
        let leaf = Json::Leaf(map.entries[i].1.clone());
        proof {
            assert(map@[i as int].0 == map.entries@[i as int].0@);
            assert(map@[i as int].1 == map.entries@[i as int].1@);
            assert(parts.deep_view().skip(0) =~= parts.deep_view());
        }
        insert_recursive(&mut root, &parts, 0, leaf);
        i += 1;
    }
    root
}

/// [`flat_map_to_json`] where the map allows it, `None` where a key ends in an
/// array index.
pub fn try_flat_map_to_json(map: &FlatMap) -> (r: Option<Json>)
    ensures
        r.is_some() == keys_insertable(map@),
        r matches Some(root) ==> root@ == unflatten(map@),
{
    if can_unflatten(map) {
        Some(flat_map_to_json(map))
    } else {
        None
    }
}

/// `acc` after each of the first `n` entries whose key starts with `prefix`
/// was stored in it under the rest of its key.
pub open spec fn subfields(map: FlatModel, prefix: Seq<char>, n: nat, acc: FlatModel) -> FlatModel
    decreases n,
{
    if n == 0 || n > map.len() {
        acc
    } else {
        let before = subfields(map, prefix, (n - 1) as nat, acc);
        match strip_prefix_spec(map[n - 1].0, prefix) {
            Some(sub) => upsert(before, sub, map[n - 1].1),
            None => before,
        }
    }
}

/// What a rule that reads `parent` collects into `pairs`. The entry under
/// `parent` itself, if there is one. Else, and if `pairs` held nothing, every
/// entry below `parent.`, under the rest of its key.
pub open spec fn merge_spec(map: FlatModel, parent: Seq<char>, pairs: FlatModel) -> FlatModel {
    let own = match lookup(map, parent) {
        Some(v) => upsert(pairs, parent, v),
        None => pairs,
    };
    if own.len() > 0 {
        own
    } else {
        subfields(map, parent + seq!['.'], map.len(), own)
    }
}

/// Collects into `pairs` what a rule that reads `parent_key` reads.
pub fn merge_subfields(map: &FlatMap, parent_key: &str, pairs: &mut FlatMap)
    ensures
        final(pairs)@ == merge_spec(map@, parent_key@, old(pairs)@),
        old(pairs).wf() ==> final(pairs).wf(),
{
    match map.get(parent_key) {
        Some(value) => {
            pairs.insert(parent_key.to_owned(), value.clone());
        },
        None => {},
    }
    if !pairs.is_empty() {
        return ;
    }
    let prefix = concat_str(parent_key, ".");
    proof {
        reveal_strlit(".");
        assert("."@ =~= seq!['.']);
    }
    let ghost own = pairs@;
    let mut i: usize = 0;
    while i < map.entries.len()
        invariant
            i <= map.entries.len(),
            prefix@ == parent_key@ + seq!['.'],
            pairs@ == subfields(map@, prefix@, i as nat, own),
            old(pairs).wf() ==> pairs.wf(),
        decreases map.entries.len() - i,
    {
        proof {
            assert(map@[i as int].0 == map.entries@[i as int].0@);
            assert(map@[i as int].1 == map.entries@[i as int].1@);
        }
        match strip_prefix(map.entries[i].0.as_str(), prefix.as_str()) {
            Some(sub_key) => {
                pairs.insert(sub_key, map.entries[i].1.clone());
            },
            None => {},
        }
        i += 1;
    }
}

/// A leaf as text: a string as it is, a number by its digits, `true`, `false`,
/// `null`.
pub open spec fn scalar_text(v: ScalarModel) -> Seq<char> {
    match v {
        ScalarModel::Str(s) => s,
        ScalarModel::Number(n) => n,
        ScalarModel::Bool(b) => if b {
            "true"@
        } else {
            "false"@
        },
        ScalarModel::Null => "null"@,
    }
}

/// The leaf as text.
pub fn scalar_to_string(v: &Scalar) -> (r: String)
    ensures
        r@ == scalar_text(v@),
{
    match v {
        Scalar::Str(s) => s.clone(),
        Scalar::Number(n) => n.clone(),
        Scalar::Bool(b) => if *b {
            "true".to_owned()
        } else {
            "false".to_owned()
        },
        Scalar::Null => "null".to_owned(),
    }
}

/// `format` with `{key}` replaced by the key and then `{value}` by the value.
pub open spec fn formatted(format: Seq<char>, key: Seq<char>, value: ScalarModel) -> Seq<char> {
    replace_spec(replace_spec(format, "{key}"@, key), "{value}"@, scalar_text(value))
}

/// Every entry formatted, in the order of the map.
pub open spec fn formatted_entries(entries: FlatModel, format: Seq<char>) -> Seq<Seq<char>> {
    Seq::new(entries.len(), |i: int| formatted(format, entries[i].0, entries[i].1))
}

/// A collected set as one string. A single entry that holds a string is that
/// string. Else every entry is formatted, and the results stand in ascending
/// order with `"; "` between them.
pub open spec fn body_string(entries: FlatModel, format: Seq<char>) -> Seq<char> {
    if entries.len() == 1 && entries[0].1 is Str {
        entries[0].1->Str_0
    } else {
        join_spec(sort_spec(formatted_entries(entries, format)), "; "@)
    }
}

/// Collapses a collected set into one string.
pub fn json_body_to_string(map: &FlatMap, format: &str) -> (r: String)
    ensures
        r@ == body_string(map@, format@),
{
    if map.entries.len() == 1 {
        proof {
            assert(map@[0].1 == map.entries@[0].1@);
        }
        match &map.entries[0].1 {
            Scalar::Str(s) => {
                return s.clone();
            },
            _ => {},
        }
    }
    let mut pairs: Vec<String> = Vec::new();
    let mut i: usize = 0;
    while i < map.entries.len()
        invariant
            i <= map.entries.len(),
            pairs.deep_view() == formatted_entries(map@, format@).take(i as int),
        decreases map.entries.len() - i,
    {
        let value_str = scalar_to_string(&map.entries[i].1);
        let with_key = replace(format, "{key}", map.entries[i].0.as_str());
        let done = replace(with_key.as_str(), "{value}", value_str.as_str());
        let ghost before = pairs.deep_view();
        proof {
            assert(map@[i as int].0 == map.entries@[i as int].0@);
            assert(map@[i as int].1 == map.entries@[i as int].1@);
            assert(done@ == formatted_entries(map@, format@)[i as int]);
        }
        pairs.push(done);
        i += 1;
        proof {
            assert(pairs.deep_view() =~= before.push(done@));
            assert(pairs.deep_view() =~= formatted_entries(map@, format@).take(i as int));
        }
    }
    proof {
        assert(formatted_entries(map@, format@).take(i as int) =~= formatted_entries(
            map@,
            format@,
        ));
    }
    let sorted = sort_strings(pairs);
    join(&sorted, "; ")
}


/// The fields of an object after arrays that were written as objects are put
/// into shape. An object that holds an array under `_array` becomes the object
/// of that array's items, each under its index in decimal. Any other object
/// keeps its fields, but for an `_array` that holds no array, which leaves. In
/// both cases the objects among the items or fields are treated alike.
pub open spec fn processed(fields: Seq<(Seq<char>, JsonModel)>) -> Seq<(Seq<char>, JsonModel)>
    decreases fields, fields.len() + 1,
{
    let at = key_index(fields, "_array"@);
    if 0 <= at < fields.len() && fields[at].1 is Array {
        let items = fields[at].1->Array_0;
        numbered(items, items.len())
    } else {
        others_processed(fields, at, fields.len())
    }
}

/// The first `n` items, each processed, under their indices.
pub open spec fn numbered(items: Seq<JsonModel>, n: nat) -> Seq<(Seq<char>, JsonModel)>
    decreases items, n,
{
    if n == 0 || n > items.len() {
        Seq::empty()
    } else {
        upsert(
            numbered(items, (n - 1) as nat),
            decimal((n - 1) as nat),
            processed_value(items[n - 1]),
        )
    }
}

/// The first `n` fields, each processed, without the one at `skip`.
pub open spec fn others_processed(fields: Seq<(Seq<char>, JsonModel)>, skip: int, n: nat) -> Seq<
    (Seq<char>, JsonModel),
>
    decreases fields, n,
{
    if n == 0 || n > fields.len() {
        Seq::empty()
    } else {
        let before = others_processed(fields, skip, (n - 1) as nat);
        if n - 1 == skip {
            before
        } else {
            before.push((fields[n - 1].0, processed_value(fields[n - 1].1)))
        }
    }
}

/// A value with its fields processed where it is an object; any other value
/// as it is.
pub open spec fn processed_value(v: JsonModel) -> JsonModel
    decreases v, 0nat,
{
    match v {
        JsonModel::Object(fields) => JsonModel::Object(processed(fields)),
        _ => v,
    }
}

/// A copy of the value, processed as [`processed_value`] says.
pub fn processed_value_copy(v: &Json) -> (r: Json)
    ensures
        r@ == processed_value(v@),
    decreases v, 0nat,
{
    match v {
        Json::Object(fields) => {
            proof {
                lemma_object_view(*fields);
            }
            let done = processed_copy(fields);
            proof {
                lemma_object_view(done);
            }
            Json::Object(done)
        },
        _ => v.clone(),
    }
}

/// A copy of the fields, processed as [`processed`] says.
#[verifier::loop_isolation(false)]
pub fn processed_copy(map: &OrderedMap<Json>) -> (out: OrderedMap<Json>)
    ensures
        out@ == processed(map@),
    decreases map, 1nat,
{
    let found = map.position("_array");
    let ghost at = key_index(map@, "_array"@);
    proof {
        lemma_key_index(map@, "_array"@);
    }
    let mut out: OrderedMap<Json> = OrderedMap::new();
    match found {
        Some(i) => {
            match &map.entries[i].1 {
                Json::Array(items) => {
                    proof {
                        lemma_array_view(*items);
                        assert(map@[i as int].1 == map.entries@[i as int].1@);
                    }
                    let mut k: usize = 0;
                    while k < items.len()
                        invariant
                            k <= items.len(),
                            out@ == numbered(items.deep_view(), k as nat),
                        decreases items.len() - k,
                    {
                        let item = processed_value_copy(&items[k]);
                        out.insert(decimal_string(k), item);
                        k += 1;
                    }
                    return out;
                },
                _ => {
                    proof {
                        assert(map@[i as int].1 == map.entries@[i as int].1@);
                    }
                },
            }
        },
        None => {},
    }
    let mut n: usize = 0;
    while n < map.entries.len()
        invariant
            n <= map.entries.len(),
            out@ == others_processed(map@, at, n as nat),
        decreases map.entries.len() - n,
    {
        let skip = match found {
            Some(i) => i == n,
            None => false,
        };
        if !skip {
            let ghost before = out@;
            let value = processed_value_copy(&map.entries[n].1);
            let name = map.entries[n].0.clone();
            proof {
                assert(map@[n as int].0 == map.entries@[n as int].0@);
                assert(map@[n as int].1 == map.entries@[n as int].1@);
            }
            out.entries.push((name, value));
            proof {
                assert(out@ =~= before.push((map@[n as int].0, processed_value(map@[n as int].1))));
            }
        }
        n += 1;
    }
    out
}

/// Puts arrays that were written as objects into shape: see [`processed`].
pub fn post_process_arrays(map: &mut OrderedMap<Json>)
    ensures
        final(map)@ == processed(old(map)@),
{
    let done = processed_copy(map);
    *map = done;
}

} // verus!
