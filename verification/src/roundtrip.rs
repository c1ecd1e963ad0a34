//! Flattening a JSON value and building it again gives the value back.

use crate::assoc::{
    has_key, key_index, keys_distinct, lemma_key_index, lemma_key_index_is, lemma_upsert_same,
    lookup, upsert,
};
use crate::flat::{
    bracket_at_start, digit_run, field_key, fields_of, flatten, flatten_fields, flatten_items,
    flatten_spec, insert_spec, insertable, is_token_digit, is_token_word, item_key, items_of,
    keys_insertable, lemma_runs_bounded, padded, tokens_spec, unflatten, unflatten_upto, word_run,
    FlatModel,
};
use crate::json::{empty_object, null_model, JsonModel, ScalarModel};
use crate::text::{
    all_digits, decimal, digits_value, is_digit, is_index_text, lemma_decimal_digits,
};
use vstd::prelude::*;

verus! {

/// A path into a JSON value: the tokens from the top down to a node.
pub type Path = Seq<Seq<char>>;

/// The node below `cur` that the token `t` leads to when a value is set
/// through it: the item at the index, an empty object in place of a null or
/// of an item that is not there; or the field, an empty object where the
/// field is new.
pub open spec fn step_into(cur: JsonModel, t: Seq<char>) -> JsonModel {
    if is_index_text(t) {
        let idx = digits_value(t);
        let items = padded(items_of(cur), idx);
        if items[idx as int] == null_model() {
            empty_object()
        } else {
            items[idx as int]
        }
    } else {
        match lookup(fields_of(cur), t) {
            Some(c) => c,
            None => empty_object(),
        }
    }
}

/// `cur` with `sub` as the node that the token `t` leads to.
pub open spec fn step_put(cur: JsonModel, t: Seq<char>, sub: JsonModel) -> JsonModel {
    if is_index_text(t) {
        let idx = digits_value(t);
        JsonModel::Array(padded(items_of(cur), idx).update(idx as int, sub))
    } else {
        JsonModel::Object(upsert(fields_of(cur), t, sub))
    }
}

/// The node that a path leads to.
pub open spec fn node_at(cur: JsonModel, path: Path) -> JsonModel
    decreases path.len(),
{
    if path.len() == 0 {
        cur
    } else {
        node_at(step_into(cur, path[0]), path.drop_first())
    }
}

/// `cur` with `sub` as the node that a path leads to.
pub open spec fn put_at(cur: JsonModel, path: Path, sub: JsonModel) -> JsonModel
    decreases path.len(),
{
    if path.len() == 0 {
        sub
    } else {
        step_put(cur, path[0], put_at(step_into(cur, path[0]), path.drop_first(), sub))
    }
}

/// Setting a value below a path changes the node that the path leads to, and
/// nothing else.
pub proof fn lemma_insert_below(cur: JsonModel, path: Path, rest: Path, value: JsonModel)
    requires
        rest.len() > 0,
    ensures
        insert_spec(cur, path + rest, value) == put_at(
            cur,
            path,
            insert_spec(node_at(cur, path), rest, value),
        ),
    decreases path.len(),
{
    if path.len() == 0 {
        assert(path + rest =~= rest);
    } else {
        let whole = path + rest;
        assert(whole[0] == path[0]);
        assert(whole.drop_first() =~= path.drop_first() + rest);
        lemma_insert_below(step_into(cur, path[0]), path.drop_first(), rest, value);
    }
}

/// The node that a token leads to is the one that was put there.
pub proof fn lemma_step_into_put(cur: JsonModel, t: Seq<char>, sub: JsonModel)
    requires
        !(sub is Leaf),
    ensures
        step_into(step_put(cur, t, sub), t) == sub,
{
    if is_index_text(t) {
        let idx = digits_value(t);
        let items = padded(items_of(cur), idx).update(idx as int, sub);
        assert(padded(items, idx) == items);
    } else {
        lemma_upsert_same(fields_of(cur), t, sub);
    }
}

/// Putting a node twice is putting the second one.
pub proof fn lemma_step_put_twice(cur: JsonModel, t: Seq<char>, first: JsonModel, second: JsonModel)
    ensures
        step_put(step_put(cur, t, first), t, second) == step_put(cur, t, second),
{
    if is_index_text(t) {
        let idx = digits_value(t);
        let once = padded(items_of(cur), idx).update(idx as int, first);
        assert(padded(once, idx) == once);
        assert(once.update(idx as int, second) =~= padded(items_of(cur), idx).update(
            idx as int,
            second,
        ));
    } else {
        let fields = fields_of(cur);
        lemma_key_index(fields, t);
        let once = upsert(fields, t, first);
        let k = key_index(fields, t);
        assert forall|j: int| 0 <= j < k implies (#[trigger] once[j]).0 != t by {
            assert(once[j].0 == fields[j].0);
        }
        lemma_key_index_is(once, t, k);
        assert(upsert(once, t, second) =~= upsert(fields, t, second));
    }
}

/// The node that a path leads to is the one that was put there.
pub proof fn lemma_node_at_put(cur: JsonModel, path: Path, sub: JsonModel)
    requires
        !(sub is Leaf),
    ensures
        node_at(put_at(cur, path, sub), path) == sub,
        !(put_at(cur, path, sub) is Leaf),
    decreases path.len(),
{
    if path.len() > 0 {
        let inner = put_at(step_into(cur, path[0]), path.drop_first(), sub);
        lemma_node_at_put(step_into(cur, path[0]), path.drop_first(), sub);
        lemma_step_into_put(cur, path[0], inner);
    }
}

/// Putting a node at a path twice is putting the second one.
pub proof fn lemma_put_twice(cur: JsonModel, path: Path, first: JsonModel, second: JsonModel)
    requires
        !(first is Leaf),
    ensures
        put_at(put_at(cur, path, first), path, second) == put_at(cur, path, second),
    decreases path.len(),
{
    if path.len() > 0 {
        let t = path[0];
        let below = step_into(cur, t);
        let inner = put_at(below, path.drop_first(), first);
        lemma_node_at_put(below, path.drop_first(), first);
        lemma_step_into_put(cur, t, inner);
        lemma_put_twice(below, path.drop_first(), first, second);
        lemma_step_put_twice(cur, t, inner, put_at(below, path.drop_first(), second));
    }
}


/// The leaves of a value, each with the path that leads to it.
pub type PathLeaves = Seq<(Path, ScalarModel)>;

/// The leaves with the token `t` put in front of every path.
pub open spec fn under(t: Seq<char>, ps: PathLeaves) -> PathLeaves {
    Seq::new(ps.len(), |i: int| (seq![t] + ps[i].0, ps[i].1))
}

/// The leaves of a value in the order in which flattening meets them: a field
/// adds its name to the path, an item its index in decimal.
pub open spec fn paths(v: JsonModel) -> PathLeaves
    decreases v, 0nat,
{
    match v {
        JsonModel::Leaf(s) => seq![(Seq::empty(), s)],
        JsonModel::Array(items) => item_paths(items, items.len()),
        JsonModel::Object(fields) => field_paths(fields, fields.len()),
    }
}

/// The leaves of the first `n` items.
pub open spec fn item_paths(items: Seq<JsonModel>, n: nat) -> PathLeaves
    decreases items, n,
{
    if n == 0 || n > items.len() {
        Seq::empty()
    } else {
        item_paths(items, (n - 1) as nat) + under(decimal((n - 1) as nat), paths(items[n - 1]))
    }
}

/// The leaves of the first `n` fields.
pub open spec fn field_paths(fields: Seq<(Seq<char>, JsonModel)>, n: nat) -> PathLeaves
    decreases fields, n,
{
    if n == 0 || n > fields.len() {
        Seq::empty()
    } else {
        field_paths(fields, (n - 1) as nat) + under(fields[n - 1].0, paths(fields[n - 1].1))
    }
}

/// `cur` after the first `n` leaves were set in it, one after the other.
pub open spec fn build(cur: JsonModel, ps: PathLeaves, n: nat) -> JsonModel
    decreases n,
{
    if n == 0 || n > ps.len() {
        cur
    } else {
        insert_spec(build(cur, ps, (n - 1) as nat), ps[n - 1].0, JsonModel::Leaf(ps[n - 1].1))
    }
}

/// A name that the tokeniser reads back as one token that is no index: word
/// characters only, of any script, at least one, and no digit in front.
pub open spec fn plain_key(k: Seq<char>) -> bool {
    &&& k.len() > 0
    &&& !is_token_digit(k[0])
    &&& forall|i: int| 0 <= i < k.len() ==> is_token_word(#[trigger] k[i])
}

/// A value whose every part comes back from its leaves: an array or an object
/// that is not empty; the items of an array are such values again, and no more
/// than `usize` can count; the names of an object are plain and distinct, and
/// its fields hold leaves or such values.
pub open spec fn grows(v: JsonModel) -> bool
    decreases v,
{
    match v {
        JsonModel::Leaf(_) => false,
        JsonModel::Array(items) => {
            &&& 0 < items.len() <= usize::MAX
            &&& forall|i: int| 0 <= i < items.len() ==> grows(#[trigger] items[i])
        },
        JsonModel::Object(fields) => {
            &&& fields.len() > 0
            &&& keys_distinct(fields)
            &&& forall|i: int|
                0 <= i < fields.len() ==> plain_key((#[trigger] fields[i]).0) && (fields[i].1 is Leaf
                    || grows(fields[i].1))
        },
    }
}

/// The values that flattening and building again gives back: the empty
/// object, and every value that [`grows`].
pub open spec fn round_trips(v: JsonModel) -> bool {
    v == empty_object() || grows(v)
}

/// A node in which nothing stands yet: a leaf, an empty object or an empty
/// array.
pub open spec fn is_fresh(cur: JsonModel) -> bool {
    fields_of(cur).len() == 0 && items_of(cur).len() == 0
}

/// Building from two runs of leaves is building from the second on what the
/// first built.
pub proof fn lemma_build_concat(cur: JsonModel, a: PathLeaves, b: PathLeaves, k: nat)
    requires
        k <= b.len(),
    ensures
        build(cur, a + b, a.len() + k) == build(build(cur, a, a.len()), b, k),
    decreases k,
{
    if k == 0 {
        lemma_build_prefix(cur, a, b, a.len());
    } else {
        lemma_build_concat(cur, a, b, (k - 1) as nat);
        assert((a + b)[a.len() + k - 1] == b[k - 1]);
    }
}

/// Building from the first leaves of a run does not look at what follows.
pub proof fn lemma_build_prefix(cur: JsonModel, a: PathLeaves, b: PathLeaves, n: nat)
    requires
        n <= a.len(),
    ensures
        build(cur, a + b, n) == build(cur, a, n),
    decreases n,
{
    if n > 0 {
        lemma_build_prefix(cur, a, b, (n - 1) as nat);
        assert((a + b)[n - 1] == a[n - 1]);
    }
}

/// What was built from at least one leaf with a path is no leaf.
pub proof fn lemma_build_is_container(cur: JsonModel, ps: PathLeaves, n: nat)
    requires
        0 < n <= ps.len(),
        ps[n - 1].0.len() > 0,
    ensures
        !(build(cur, ps, n) is Leaf),
{
}

/// Putting a node at a path of one token.
pub proof fn lemma_put_at_one(cur: JsonModel, t: Seq<char>, sub: JsonModel)
    ensures
        put_at(cur, seq![t], sub) == step_put(cur, t, sub),
{
    let path = seq![t];
    assert(path.drop_first().len() == 0);
    assert(put_at(step_into(cur, t), path.drop_first(), sub) == sub);
}

/// Building from leaves that all lie below one token builds the node below
/// that token.
pub proof fn lemma_build_under(cur: JsonModel, t: Seq<char>, ps: PathLeaves, n: nat)
    requires
        0 < n <= ps.len(),
        forall|i: int| 0 <= i < ps.len() ==> (#[trigger] ps[i]).0.len() > 0,
    ensures
        build(cur, under(t, ps), n) == step_put(cur, t, build(step_into(cur, t), ps, n)),
    decreases n,
{
    let leaf = JsonModel::Leaf(ps[n - 1].1);
    let path = ps[n - 1].0;
    assert(under(t, ps)[n - 1] == (seq![t] + path, ps[n - 1].1));
    if n == 1 {
        lemma_insert_below(cur, seq![t], path, leaf);
        assert(seq![t].drop_first() =~= Seq::<Seq<char>>::empty());
        assert(node_at(cur, seq![t]) == step_into(cur, t)) by {
            assert(node_at(step_into(cur, t), seq![t].drop_first()) == step_into(cur, t));
        }
        lemma_put_at_one(cur, t, insert_spec(step_into(cur, t), path, leaf));
    } else {
        lemma_build_under(cur, t, ps, (n - 1) as nat);
        let node = build(step_into(cur, t), ps, (n - 1) as nat);
        let root = step_put(cur, t, node);
        lemma_build_is_container(step_into(cur, t), ps, (n - 1) as nat);
        lemma_insert_below(root, seq![t], path, leaf);
        assert(seq![t].drop_first() =~= Seq::<Seq<char>>::empty());
        lemma_step_into_put(cur, t, node);
        assert(node_at(root, seq![t]) == node) by {
            assert(node_at(step_into(root, t), seq![t].drop_first()) == step_into(root, t));
        }
        lemma_put_at_one(root, t, insert_spec(node, path, leaf));
        lemma_step_put_twice(cur, t, node, insert_spec(node, path, leaf));
    }
}

/// A value that grows has leaves, and the path of each is not empty.
pub proof fn lemma_paths_of_grown(v: JsonModel)
    requires
        grows(v),
    ensures
        paths(v).len() > 0,
        forall|i: int| 0 <= i < paths(v).len() ==> (#[trigger] paths(v)[i]).0.len() > 0,
    decreases v, 0nat,
{
    match v {
        JsonModel::Leaf(_) => {},
        JsonModel::Array(items) => {
            lemma_item_paths(items, items.len());
        },
        JsonModel::Object(fields) => {
            lemma_field_paths(fields, fields.len());
        },
    }
}

proof fn lemma_item_paths(items: Seq<JsonModel>, n: nat)
    requires
        n <= items.len(),
        forall|i: int| 0 <= i < items.len() ==> grows(#[trigger] items[i]),
    ensures
        n > 0 ==> item_paths(items, n).len() > 0,
        forall|i: int|
            0 <= i < item_paths(items, n).len() ==> (#[trigger] item_paths(items, n)[i]).0.len() > 0,
    decreases items, n,
{
    if n > 0 {
        lemma_item_paths(items, (n - 1) as nat);
        lemma_paths_of_grown(items[n - 1]);
        let before = item_paths(items, (n - 1) as nat);
        let added = under(decimal((n - 1) as nat), paths(items[n - 1]));
        let all = item_paths(items, n);
        assert(all.len() == before.len() + added.len());
        assert forall|i: int| 0 <= i < all.len() implies (#[trigger] all[i]).0.len() > 0 by {
            if i < before.len() {
                assert(all[i] == before[i]);
            } else {
                assert(all[i] == added[i - before.len()]);
            }
        }
    }
}

proof fn lemma_field_paths(fields: Seq<(Seq<char>, JsonModel)>, n: nat)
    requires
        n <= fields.len(),
        forall|i: int|
            0 <= i < fields.len() ==> ((#[trigger] fields[i]).1 is Leaf || grows(fields[i].1)),
    ensures
        n > 0 ==> field_paths(fields, n).len() > 0,
        forall|i: int|
            0 <= i < field_paths(fields, n).len() ==> (#[trigger] field_paths(fields, n)[i]).0.len()
                > 0,
    decreases fields, n,
{
    if n > 0 {
        lemma_field_paths(fields, (n - 1) as nat);
        if !(fields[n - 1].1 is Leaf) {
            lemma_paths_of_grown(fields[n - 1].1);
        }
        let before = field_paths(fields, (n - 1) as nat);
        let added = under(fields[n - 1].0, paths(fields[n - 1].1));
        let all = field_paths(fields, n);
        assert(paths(fields[n - 1].1).len() > 0);
        assert(all.len() == before.len() + added.len());
        assert forall|i: int| 0 <= i < all.len() implies (#[trigger] all[i]).0.len() > 0 by {
            if i < before.len() {
                assert(all[i] == before[i]);
            } else {
                assert(all[i] == added[i - before.len()]);
            }
        }
    }
}

/// A plain name is no array index.
pub proof fn lemma_plain_key_is_no_index(k: Seq<char>)
    requires
        plain_key(k),
    ensures
        !is_index_text(k),
{
    if all_digits(k) {
        assert(is_digit(k[0]));
    }
}

/// Building a value that grows from its leaves, in a node in which nothing
/// stands yet, gives the value.
pub proof fn lemma_build_paths(v: JsonModel, cur: JsonModel)
    requires
        grows(v),
        is_fresh(cur),
    ensures
        build(cur, paths(v), paths(v).len()) == v,
    decreases v, 0nat,
{
    match v {
        JsonModel::Leaf(_) => {},
        JsonModel::Array(items) => {
            lemma_build_items(items, items.len(), cur);
            assert(items.take(items.len() as int) =~= items);
        },
        JsonModel::Object(fields) => {
            lemma_build_fields(fields, fields.len(), cur);
            assert(fields.take(fields.len() as int) =~= fields);
        },
    }
}

proof fn lemma_build_items(items: Seq<JsonModel>, n: nat, cur: JsonModel)
    requires
        0 < n <= items.len() <= usize::MAX,
        forall|i: int| 0 <= i < items.len() ==> grows(#[trigger] items[i]),
        is_fresh(cur),
    ensures
        build(cur, item_paths(items, n), item_paths(items, n).len()) == JsonModel::Array(
            items.take(n as int),
        ),
    decreases items, n,
{
    let before = item_paths(items, (n - 1) as nat);
    let child = items[n - 1];
    let t = decimal((n - 1) as nat);
    let root = build(cur, before, before.len());
    if n > 1 {
        lemma_build_items(items, (n - 1) as nat, cur);
    }
    assert(items_of(root) =~= items.take(n - 1));
    lemma_paths_of_grown(child);
    lemma_build_concat(cur, before, under(t, paths(child)), paths(child).len());
    lemma_build_under(root, t, paths(child), paths(child).len());
    lemma_decimal_digits((n - 1) as nat);
    assert(is_index_text(t));
    let grown = padded(items.take(n - 1), (n - 1) as nat);
    assert(grown[n - 1] == null_model());
    assert(step_into(root, t) == empty_object());
    lemma_build_paths(child, empty_object());
    assert(grown.update(n - 1, child) =~= items.take(n as int));
}

proof fn lemma_build_fields(fields: Seq<(Seq<char>, JsonModel)>, n: nat, cur: JsonModel)
    requires
        0 < n <= fields.len(),
        keys_distinct(fields),
        forall|i: int|
            0 <= i < fields.len() ==> plain_key((#[trigger] fields[i]).0) && (fields[i].1 is Leaf
                || grows(fields[i].1)),
        is_fresh(cur),
    ensures
        build(cur, field_paths(fields, n), field_paths(fields, n).len()) == JsonModel::Object(
            fields.take(n as int),
        ),
    decreases fields, n,
{
    let before = field_paths(fields, (n - 1) as nat);
    let name = fields[n - 1].0;
    let child = fields[n - 1].1;
    let root = build(cur, before, before.len());
    if n > 1 {
        lemma_build_fields(fields, (n - 1) as nat, cur);
    }
    let done = fields.take(n - 1);
    assert(fields_of(root) =~= done);
    assert(!has_key(done, name)) by {
        lemma_key_index(done, name);
        if has_key(done, name) {
            let i = key_index(done, name);
            assert(done[i] == fields[i]);
        }
    }
    lemma_plain_key_is_no_index(name);
    lemma_build_concat(cur, before, under(name, paths(child)), paths(child).len());
    match child {
        JsonModel::Leaf(s) => {
            let only = under(name, paths(child));
            assert(only[0] == (seq![name] + Seq::<Seq<char>>::empty(), s));
            assert(seq![name] + Seq::<Seq<char>>::empty() =~= seq![name]);
            assert(seq![name].drop_first() =~= Seq::<Seq<char>>::empty());
            assert(build(root, only, 0) == root);
            assert(build(root, only, 1) == insert_spec(root, seq![name], child));
            assert(done.push((name, child)) =~= fields.take(n as int));
        },
        _ => {
            lemma_paths_of_grown(child);
            lemma_build_under(root, name, paths(child), paths(child).len());
            assert(step_into(root, name) == empty_object());
            lemma_build_paths(child, empty_object());
            assert(done.push((name, child)) =~= fields.take(n as int));
        },
    }
}


/// A text at whose start no token of the text before it can go on: it is
/// empty, or starts with a character that is neither a word character nor
/// `]`.
pub open spec fn starts_apart(b: Seq<char>) -> bool {
    b.len() > 0 ==> !is_token_word(b[0]) && !is_token_digit(b[0]) && b[0] != ']'
}

proof fn lemma_runs_concat(x: Seq<char>, b: Seq<char>)
    requires
        starts_apart(b),
    ensures
        digit_run(x + b) == digit_run(x),
        word_run(x + b) == word_run(x),
    decreases x.len(),
{
    if x.len() == 0 {
        assert(x + b =~= b);
    } else {
        assert((x + b)[0] == x[0]);
        assert((x + b).drop_first() =~= x.drop_first() + b);
        lemma_runs_concat(x.drop_first(), b);
    }
}

proof fn lemma_bracket_concat(x: Seq<char>, b: Seq<char>)
    requires
        x.len() > 0,
        starts_apart(b),
    ensures
        bracket_at_start(x + b) == bracket_at_start(x),
{
    assert((x + b).skip(1) =~= x.skip(1) + b);
    lemma_runs_concat(x.skip(1), b);
    lemma_runs_bounded(x.skip(1));
    let d = digit_run(x.skip(1));
    if 1 + d < x.len() {
        assert((x + b)[1 + d] == x[1 + d]);
    } else if b.len() > 0 {
        assert((x + b)[1 + d] == b[0]);
    }
}

/// The tokens of two texts, one after the other, are the tokens of the first
/// and then those of the second, where the second starts apart.
pub proof fn lemma_tokens_concat(a: Seq<char>, b: Seq<char>)
    requires
        starts_apart(b),
    ensures
        tokens_spec(a + b) == tokens_spec(a) + tokens_spec(b),
    decreases a.len(),
{
    let s = a + b;
    if a.len() == 0 {
        assert(s =~= b);
        assert(tokens_spec(a) + tokens_spec(b) =~= tokens_spec(b));
    } else {
        assert(s[0] == a[0]);
        lemma_bracket_concat(a, b);
        lemma_runs_concat(a, b);
        lemma_runs_bounded(a);
        lemma_runs_bounded(a.skip(1));
        if bracket_at_start(a) {
            let d = digit_run(a.skip(1));
            assert(s.skip(1) =~= a.skip(1) + b);
            lemma_runs_concat(a.skip(1), b);
            assert(s.subrange(1, 1 + d) =~= a.subrange(1, 1 + d));
            assert(s.skip(d + 2) =~= a.skip(d + 2) + b);
            lemma_tokens_concat(a.skip(d + 2), b);
            assert(seq![a.subrange(1, 1 + d)] + (tokens_spec(a.skip(d + 2)) + tokens_spec(b)) =~= (
            seq![a.subrange(1, 1 + d)] + tokens_spec(a.skip(d + 2))) + tokens_spec(b));
        } else if is_token_digit(a[0]) {
            let d = digit_run(a);
            assert(s.take(d) =~= a.take(d));
            assert(s.skip(d) =~= a.skip(d) + b);
            lemma_tokens_concat(a.skip(d), b);
            assert(seq![a.take(d)] + (tokens_spec(a.skip(d)) + tokens_spec(b)) =~= (seq![a.take(d)]
                + tokens_spec(a.skip(d))) + tokens_spec(b));
        } else if is_token_word(a[0]) {
            let w = word_run(a);
            assert(s.take(w) =~= a.take(w));
            assert(s.skip(w) =~= a.skip(w) + b);
            lemma_tokens_concat(a.skip(w), b);
            assert(seq![a.take(w)] + (tokens_spec(a.skip(w)) + tokens_spec(b)) =~= (seq![a.take(w)]
                + tokens_spec(a.skip(w))) + tokens_spec(b));
        } else {
            assert(s.drop_first() =~= a.drop_first() + b);
            lemma_tokens_concat(a.drop_first(), b);
        }
    }
}

proof fn lemma_word_run_all(k: Seq<char>)
    requires
        forall|i: int| 0 <= i < k.len() ==> is_token_word(#[trigger] k[i]),
    ensures
        word_run(k) == k.len(),
    decreases k.len(),
{
    if k.len() > 0 {
        let rest = k.drop_first();
        assert forall|i: int| 0 <= i < rest.len() implies is_token_word(#[trigger] rest[i]) by {
            assert(rest[i] == k[i + 1]);
        }
        lemma_word_run_all(rest);
    }
}

proof fn lemma_digit_run_all(d: Seq<char>, x: Seq<char>)
    requires
        all_digits(d),
        x.len() > 0 ==> !is_token_digit(x[0]),
    ensures
        digit_run(d + x) == d.len(),
    decreases d.len(),
{
    if d.len() == 0 {
        assert(d + x =~= x);
    } else {
        let rest = d.drop_first();
        assert((d + x)[0] == d[0]);
        assert((d + x).drop_first() =~= rest + x);
        assert forall|i: int| 0 <= i < rest.len() implies is_digit(#[trigger] rest[i]) by {
            assert(rest[i] == d[i + 1]);
        }
        lemma_digit_run_all(rest, x);
    }
}

/// A plain name is read back as one token.
pub proof fn lemma_tokens_of_plain_key(k: Seq<char>)
    requires
        plain_key(k),
    ensures
        tokens_spec(k) == seq![k],
        tokens_spec(seq!['.'] + k) == seq![k],
{
    lemma_word_run_all(k);
    assert(is_token_word(k[0]));
    assert(!bracket_at_start(k));
    assert(k.take(k.len() as int) =~= k);
    assert(k.skip(k.len() as int) =~= Seq::<char>::empty());
    assert(tokens_spec(k.skip(k.len() as int)) =~= Seq::<Seq<char>>::empty());
    assert(tokens_spec(k) =~= seq![k]);
    let dotted = seq!['.'] + k;
    assert(dotted[0] == '.');
    assert(!bracket_at_start(dotted));
    assert(dotted.drop_first() =~= k);
}

/// A bracketed number is read back as one token, the digits.
pub proof fn lemma_tokens_of_index(n: nat)
    ensures
        tokens_spec(seq!['['] + decimal(n) + seq![']']) == seq![decimal(n)],
{
    let d = decimal(n);
    let s = seq!['['] + d + seq![']'];
    lemma_decimal_digits(n);
    assert(s.skip(1) =~= d + seq![']']);
    lemma_digit_run_all(d, seq![']']);
    let len = d.len() as int;
    assert(s[0] == '[');
    assert(s[1 + len] == ']');
    assert(bracket_at_start(s));
    assert(s.subrange(1, 1 + len) =~= d);
    assert(s.skip(len + 2) =~= Seq::<char>::empty());
    assert(tokens_spec(s.skip(len + 2)) =~= Seq::<Seq<char>>::empty());
    assert(tokens_spec(s) =~= seq![d]);
}

/// The key of a field is read back as the tokens of the prefix and the name.
pub proof fn lemma_tokens_of_field_key(prefix: Seq<char>, name: Seq<char>)
    requires
        plain_key(name),
    ensures
        tokens_spec(field_key(prefix, name)) == tokens_spec(prefix) + seq![name],
{
    lemma_tokens_of_plain_key(name);
    if prefix.len() == 0 {
        assert(tokens_spec(prefix) + seq![name] =~= seq![name]);
    } else {
        let tail = seq!['.'] + name;
        assert(tail[0] == '.');
        assert(prefix + seq!['.'] + name =~= prefix + tail);
        lemma_tokens_concat(prefix, tail);
    }
}

/// The key of an item is read back as the tokens of the prefix and the index.
pub proof fn lemma_tokens_of_item_key(prefix: Seq<char>, i: nat)
    ensures
        tokens_spec(item_key(prefix, i)) == tokens_spec(prefix) + seq![decimal(i)],
{
    let tail = seq!['['] + decimal(i) + seq![']'];
    assert(tail[0] == '[');
    assert(item_key(prefix, i) =~= prefix + tail);
    lemma_tokens_of_index(i);
    lemma_tokens_concat(prefix, tail);
}


/// The entries that flattening adds for a value: one for each leaf, in order,
/// under the key that spells the leaf's path below `prefix`.
pub open spec fn leaves(v: JsonModel, prefix: Seq<char>) -> FlatModel
    decreases v, 0nat,
{
    match v {
        JsonModel::Leaf(s) => seq![(prefix, s)],
        JsonModel::Array(items) => item_leaves(items, prefix, items.len()),
        JsonModel::Object(fields) => field_leaves(fields, prefix, fields.len()),
    }
}

/// The entries of the first `n` items.
pub open spec fn item_leaves(items: Seq<JsonModel>, prefix: Seq<char>, n: nat) -> FlatModel
    decreases items, n,
{
    if n == 0 || n > items.len() {
        Seq::empty()
    } else {
        item_leaves(items, prefix, (n - 1) as nat) + leaves(
            items[n - 1],
            item_key(prefix, (n - 1) as nat),
        )
    }
}

/// The entries of the first `n` fields.
pub open spec fn field_leaves(fields: Seq<(Seq<char>, JsonModel)>, prefix: Seq<char>, n: nat)
    -> FlatModel
    decreases fields, n,
{
    if n == 0 || n > fields.len() {
        Seq::empty()
    } else {
        field_leaves(fields, prefix, (n - 1) as nat) + leaves(
            fields[n - 1].1,
            field_key(prefix, fields[n - 1].0),
        )
    }
}

/// A leaf, or a value that grows.
pub open spec fn is_whole(v: JsonModel) -> bool {
    v is Leaf || grows(v)
}

/// Entry for entry, the key is read back as the tokens `top` and then the
/// path, and the values are the same.
pub open spec fn spells(e: FlatModel, top: Path, ps: PathLeaves) -> bool {
    &&& e.len() == ps.len()
    &&& forall|j: int|
        0 <= j < e.len() ==> tokens_spec((#[trigger] e[j]).0) == top + ps[j].0 && e[j].1 == ps[j].1
}

/// The keys of the entries of a value spell the paths of its leaves.
pub proof fn lemma_leaves_spell_paths(v: JsonModel, prefix: Seq<char>)
    requires
        is_whole(v),
    ensures
        spells(leaves(v, prefix), tokens_spec(prefix), paths(v)),
    decreases v, 0nat,
{
    match v {
        JsonModel::Leaf(s) => {
            assert(tokens_spec(prefix) + Seq::<Seq<char>>::empty() =~= tokens_spec(prefix));
        },
        JsonModel::Array(items) => {
            lemma_item_leaves_spell(items, prefix, items.len());
        },
        JsonModel::Object(fields) => {
            lemma_field_leaves_spell(fields, prefix, fields.len());
        },
    }
}

proof fn lemma_spells_more(
    e: FlatModel,
    ps: PathLeaves,
    top: Path,
    t: Seq<char>,
    more: FlatModel,
    sub: PathLeaves,
)
    requires
        spells(e, top, ps),
        spells(more, top + seq![t], sub),
    ensures
        spells(e + more, top, ps + under(t, sub)),
{
    let all = e + more;
    let all_paths = ps + under(t, sub);
    assert forall|j: int| 0 <= j < all.len() implies tokens_spec((#[trigger] all[j]).0) == top
        + all_paths[j].0 && all[j].1 == all_paths[j].1 by {
        if j < e.len() {
            assert(all[j] == e[j]);
            assert(all_paths[j] == ps[j]);
        } else {
            let k = j - e.len();
            assert(all[j] == more[k]);
            assert(all_paths[j] == under(t, sub)[k]);
            assert(top + (seq![t] + sub[k].0) =~= (top + seq![t]) + sub[k].0);
        }
    }
}

proof fn lemma_item_leaves_spell(items: Seq<JsonModel>, prefix: Seq<char>, n: nat)
    requires
        n <= items.len(),
        forall|i: int| 0 <= i < items.len() ==> grows(#[trigger] items[i]),
    ensures
        spells(item_leaves(items, prefix, n), tokens_spec(prefix), item_paths(items, n)),
    decreases items, n,
{
    if n > 0 {
        lemma_item_leaves_spell(items, prefix, (n - 1) as nat);
        let key = item_key(prefix, (n - 1) as nat);
        lemma_leaves_spell_paths(items[n - 1], key);
        lemma_tokens_of_item_key(prefix, (n - 1) as nat);
        lemma_spells_more(
            item_leaves(items, prefix, (n - 1) as nat),
            item_paths(items, (n - 1) as nat),
            tokens_spec(prefix),
            decimal((n - 1) as nat),
            leaves(items[n - 1], key),
            paths(items[n - 1]),
        );
    }
}

proof fn lemma_field_leaves_spell(fields: Seq<(Seq<char>, JsonModel)>, prefix: Seq<char>, n: nat)
    requires
        n <= fields.len(),
        forall|i: int|
            0 <= i < fields.len() ==> plain_key((#[trigger] fields[i]).0) && (fields[i].1 is Leaf
                || grows(fields[i].1)),
    ensures
        spells(field_leaves(fields, prefix, n), tokens_spec(prefix), field_paths(fields, n)),
    decreases fields, n,
{
    if n > 0 {
        lemma_field_leaves_spell(fields, prefix, (n - 1) as nat);
        let key = field_key(prefix, fields[n - 1].0);
        lemma_leaves_spell_paths(fields[n - 1].1, key);
        lemma_tokens_of_field_key(prefix, fields[n - 1].0);
        lemma_spells_more(
            field_leaves(fields, prefix, (n - 1) as nat),
            field_paths(fields, (n - 1) as nat),
            tokens_spec(prefix),
            fields[n - 1].0,
            leaves(fields[n - 1].1, key),
            paths(fields[n - 1].1),
        );
    }
}

/// The path starts with the index of one of the first `n` items.
pub open spec fn starts_with_index_below(path: Path, n: nat) -> bool {
    path.len() > 0 && exists|m: nat| m < n && path[0] == decimal(m)
}

/// The path starts with the name of one of the first `n` fields.
pub open spec fn starts_with_name_of(
    path: Path,
    fields: Seq<(Seq<char>, JsonModel)>,
    n: nat,
) -> bool {
    path.len() > 0 && exists|m: int| 0 <= m < n && path[0] == (#[trigger] fields[m]).0
}

proof fn lemma_item_paths_start(items: Seq<JsonModel>, n: nat)
    requires
        n <= items.len(),
    ensures
        forall|i: int|
            0 <= i < item_paths(items, n).len() ==> starts_with_index_below(
                (#[trigger] item_paths(items, n)[i]).0,
                n,
            ),
    decreases n,
{
    if n > 0 {
        lemma_item_paths_start(items, (n - 1) as nat);
        let before = item_paths(items, (n - 1) as nat);
        let added = under(decimal((n - 1) as nat), paths(items[n - 1]));
        let all = item_paths(items, n);
        assert forall|i: int| 0 <= i < all.len() implies starts_with_index_below(
            (#[trigger] all[i]).0,
            n,
        ) by {
            if i < before.len() {
                assert(all[i] == before[i]);
                assert(starts_with_index_below(before[i].0, (n - 1) as nat));
                let m = choose|m: nat| m < n - 1 && before[i].0[0] == decimal(m);
                assert(m < n && all[i].0[0] == decimal(m));
            } else {
                assert(all[i] == added[i - before.len()]);
                assert(all[i].0[0] == decimal((n - 1) as nat));
            }
        }
    }
}

proof fn lemma_field_paths_start(fields: Seq<(Seq<char>, JsonModel)>, n: nat)
    requires
        n <= fields.len(),
    ensures
        forall|i: int|
            0 <= i < field_paths(fields, n).len() ==> starts_with_name_of(
                (#[trigger] field_paths(fields, n)[i]).0,
                fields,
                n,
            ),
    decreases n,
{
    if n > 0 {
        lemma_field_paths_start(fields, (n - 1) as nat);
        let before = field_paths(fields, (n - 1) as nat);
        let added = under(fields[n - 1].0, paths(fields[n - 1].1));
        let all = field_paths(fields, n);
        assert forall|i: int| 0 <= i < all.len() implies starts_with_name_of(
            (#[trigger] all[i]).0,
            fields,
            n,
        ) by {
            if i < before.len() {
                assert(all[i] == before[i]);
                assert(starts_with_name_of(before[i].0, fields, (n - 1) as nat));
                let m = choose|m: int| 0 <= m < n - 1 && before[i].0[0] == (#[trigger] fields[m]).0;
                assert(0 <= m < n && all[i].0[0] == fields[m].0);
            } else {
                assert(all[i] == added[i - before.len()]);
                assert(all[i].0[0] == fields[n - 1].0);
            }
        }
    }
}

/// No key of the entries is read back as tokens that start with `top`.
pub open spec fn unused(acc: FlatModel, top: Path) -> bool {
    forall|i: int| 0 <= i < acc.len() ==> !top.is_prefix_of(tokens_spec((#[trigger] acc[i]).0))
}

/// Flattening a value into entries that do not reach below its prefix adds
/// the entries of its leaves at the end, and changes nothing else.
pub proof fn lemma_flatten_appends(v: JsonModel, prefix: Seq<char>, acc: FlatModel)
    requires
        is_whole(v),
        unused(acc, tokens_spec(prefix)),
    ensures
        flatten_spec(v, prefix, acc) == acc + leaves(v, prefix),
    decreases v, 0nat,
{
    match v {
        JsonModel::Leaf(s) => {
            lemma_key_index(acc, prefix);
            if has_key(acc, prefix) {
                let i = key_index(acc, prefix);
                assert(tokens_spec(prefix).is_prefix_of(tokens_spec(acc[i].0)));
            }
            assert(acc.push((prefix, s)) =~= acc + seq![(prefix, s)]);
        },
        JsonModel::Array(items) => {
            lemma_flatten_items_append(items, prefix, items.len(), acc);
        },
        JsonModel::Object(fields) => {
            lemma_flatten_fields_append(fields, prefix, fields.len(), acc);
        },
    }
}

proof fn lemma_decimal_differs(a: nat, b: nat)
    requires
        a != b,
    ensures
        decimal(a) != decimal(b),
{
    lemma_decimal_digits(a);
    lemma_decimal_digits(b);
}

proof fn lemma_flatten_items_append(
    items: Seq<JsonModel>,
    prefix: Seq<char>,
    n: nat,
    acc: FlatModel,
)
    requires
        n <= items.len(),
        forall|i: int| 0 <= i < items.len() ==> grows(#[trigger] items[i]),
        unused(acc, tokens_spec(prefix)),
    ensures
        flatten_items(items, prefix, n, acc) == acc + item_leaves(items, prefix, n),
    decreases items, n,
{
    if n == 0 {
        assert(acc + item_leaves(items, prefix, n) =~= acc);
    } else {
        lemma_flatten_items_append(items, prefix, (n - 1) as nat, acc);
        let top = tokens_spec(prefix);
        let earlier = item_leaves(items, prefix, (n - 1) as nat);
        let before = acc + earlier;
        let key = item_key(prefix, (n - 1) as nat);
        let t = decimal((n - 1) as nat);
        lemma_tokens_of_item_key(prefix, (n - 1) as nat);
        lemma_item_leaves_spell(items, prefix, (n - 1) as nat);
        lemma_item_paths_start(items, (n - 1) as nat);
        let earlier_paths = item_paths(items, (n - 1) as nat);
        assert forall|i: int| 0 <= i < before.len() implies !(top + seq![t]).is_prefix_of(
            tokens_spec((#[trigger] before[i]).0),
        ) by {
            let read = tokens_spec(before[i].0);
            if (top + seq![t]).is_prefix_of(read) {
                assert(read[top.len() as int] == (top + seq![t])[top.len() as int]);
                if i < acc.len() {
                    assert(before[i] == acc[i]);
                    assert(top.is_prefix_of(read)) by {
                        assert forall|j: int| 0 <= j < top.len() implies top[j] == read[j] by {
                            assert(read[j] == (top + seq![t])[j]);
                        }
                    }
                } else {
                    let k = i - acc.len();
                    assert(before[i] == earlier[k]);
                    assert(read == top + earlier_paths[k].0);
                    assert(starts_with_index_below(earlier_paths[k].0, (n - 1) as nat));
                    let m = choose|m: nat| m < n - 1 && earlier_paths[k].0[0] == decimal(m);
                    assert(read[top.len() as int] == earlier_paths[k].0[0]);
                    lemma_decimal_differs(m, (n - 1) as nat);
                }
            }
        }
        lemma_flatten_appends(items[n - 1], key, before);
        assert((acc + earlier) + leaves(items[n - 1], key) =~= acc + (earlier + leaves(
            items[n - 1],
            key,
        )));
    }
}

proof fn lemma_flatten_fields_append(
    fields: Seq<(Seq<char>, JsonModel)>,
    prefix: Seq<char>,
    n: nat,
    acc: FlatModel,
)
    requires
        n <= fields.len(),
        keys_distinct(fields),
        forall|i: int|
            0 <= i < fields.len() ==> plain_key((#[trigger] fields[i]).0) && (fields[i].1 is Leaf
                || grows(fields[i].1)),
        unused(acc, tokens_spec(prefix)),
    ensures
        flatten_fields(fields, prefix, n, acc) == acc + field_leaves(fields, prefix, n),
    decreases fields, n,
{
    if n == 0 {
        assert(acc + field_leaves(fields, prefix, n) =~= acc);
    } else {
        lemma_flatten_fields_append(fields, prefix, (n - 1) as nat, acc);
        let top = tokens_spec(prefix);
        let earlier = field_leaves(fields, prefix, (n - 1) as nat);
        let before = acc + earlier;
        let t = fields[n - 1].0;
        let key = field_key(prefix, t);
        lemma_tokens_of_field_key(prefix, t);
        lemma_field_leaves_spell(fields, prefix, (n - 1) as nat);
        lemma_field_paths_start(fields, (n - 1) as nat);
        let earlier_paths = field_paths(fields, (n - 1) as nat);
        assert forall|i: int| 0 <= i < before.len() implies !(top + seq![t]).is_prefix_of(
            tokens_spec((#[trigger] before[i]).0),
        ) by {
            let read = tokens_spec(before[i].0);
            if (top + seq![t]).is_prefix_of(read) {
                assert(read[top.len() as int] == (top + seq![t])[top.len() as int]);
                if i < acc.len() {
                    assert(before[i] == acc[i]);
                    assert(top.is_prefix_of(read)) by {
                        assert forall|j: int| 0 <= j < top.len() implies top[j] == read[j] by {
                            assert(read[j] == (top + seq![t])[j]);
                        }
                    }
                } else {
                    let k = i - acc.len();
                    assert(before[i] == earlier[k]);
                    assert(read == top + earlier_paths[k].0);
                    assert(starts_with_name_of(earlier_paths[k].0, fields, (n - 1) as nat));
                    let m = choose|m: int|
                        0 <= m < n - 1 && earlier_paths[k].0[0] == (#[trigger] fields[m]).0;
                    assert(read[top.len() as int] == earlier_paths[k].0[0]);
                    assert(fields[m].0 != fields[n - 1].0);
                }
            }
        }
        lemma_flatten_appends(fields[n - 1].1, key, before);
        assert((acc + earlier) + leaves(fields[n - 1].1, key) =~= acc + (earlier + leaves(
            fields[n - 1].1,
            key,
        )));
    }
}

/// Entries whose keys spell the paths build what the paths build.
pub proof fn lemma_unflatten_is_build(e: FlatModel, ps: PathLeaves, n: nat)
    requires
        spells(e, Seq::empty(), ps),
        n <= e.len(),
    ensures
        unflatten_upto(e, n) == build(empty_object(), ps, n),
    decreases n,
{
    if n > 0 {
        lemma_unflatten_is_build(e, ps, (n - 1) as nat);
        assert(Seq::<Seq<char>>::empty() + ps[n - 1].0 =~= ps[n - 1].0);
    }
}

/// The path of every leaf of a value that grows ends in a plain name.
pub proof fn lemma_paths_end_in_names(v: JsonModel)
    requires
        grows(v),
    ensures
        forall|i: int|
            0 <= i < paths(v).len() ==> (#[trigger] paths(v)[i]).0.len() > 0 && plain_key(
                paths(v)[i].0.last(),
            ),
    decreases v, 0nat,
{
    match v {
        JsonModel::Leaf(_) => {},
        JsonModel::Array(items) => {
            lemma_item_paths_end(items, items.len());
            let all = item_paths(items, items.len());
            assert(paths(v) == all);
            assert forall|i: int| 0 <= i < paths(v).len() implies (#[trigger] paths(v)[i]).0.len()
                > 0 && plain_key(paths(v)[i].0.last()) by {
                assert(all[i].0.len() > 0 && plain_key(all[i].0.last()));
            }
        },
        JsonModel::Object(fields) => {
            lemma_field_paths_end(fields, fields.len());
            let all = field_paths(fields, fields.len());
            assert(paths(v) == all);
            assert forall|i: int| 0 <= i < paths(v).len() implies (#[trigger] paths(v)[i]).0.len()
                > 0 && plain_key(paths(v)[i].0.last()) by {
                assert(all[i].0.len() > 0 && plain_key(all[i].0.last()));
            }
        },
    }
}

proof fn lemma_item_paths_end(items: Seq<JsonModel>, n: nat)
    requires
        n <= items.len(),
        forall|i: int| 0 <= i < items.len() ==> grows(#[trigger] items[i]),
    ensures
        forall|i: int|
            0 <= i < item_paths(items, n).len() ==> (#[trigger] item_paths(items, n)[i]).0.len() > 0
                && plain_key(item_paths(items, n)[i].0.last()),
    decreases items, n,
{
    if n > 0 {
        lemma_item_paths_end(items, (n - 1) as nat);
        lemma_paths_end_in_names(items[n - 1]);
        let before = item_paths(items, (n - 1) as nat);
        let sub = paths(items[n - 1]);
        let added = under(decimal((n - 1) as nat), sub);
        let all = item_paths(items, n);
        assert forall|i: int| 0 <= i < all.len() implies (#[trigger] all[i]).0.len() > 0
            && plain_key(all[i].0.last()) by {
            if i < before.len() {
                assert(all[i] == before[i]);
            } else {
                let k = i - before.len();
                assert(all[i] == added[k]);
                assert(added[k].0.last() == sub[k].0.last());
            }
        }
    }
}

proof fn lemma_field_paths_end(fields: Seq<(Seq<char>, JsonModel)>, n: nat)
    requires
        n <= fields.len(),
        forall|i: int|
            0 <= i < fields.len() ==> plain_key((#[trigger] fields[i]).0) && (fields[i].1 is Leaf
                || grows(fields[i].1)),
    ensures
        forall|i: int|
            0 <= i < field_paths(fields, n).len() ==> (#[trigger] field_paths(fields, n)[i]).0.len()
                > 0 && plain_key(field_paths(fields, n)[i].0.last()),
    decreases fields, n,
{
    if n > 0 {
        lemma_field_paths_end(fields, (n - 1) as nat);
        if !(fields[n - 1].1 is Leaf) {
            lemma_paths_end_in_names(fields[n - 1].1);
        }
        let before = field_paths(fields, (n - 1) as nat);
        let sub = paths(fields[n - 1].1);
        let added = under(fields[n - 1].0, sub);
        let all = field_paths(fields, n);
        assert forall|i: int| 0 <= i < all.len() implies (#[trigger] all[i]).0.len() > 0
            && plain_key(all[i].0.last()) by {
            if i < before.len() {
                assert(all[i] == before[i]);
            } else {
                let k = i - before.len();
                assert(all[i] == added[k]);
                if sub[k].0.len() > 0 {
                    assert(added[k].0.last() == sub[k].0.last());
                } else {
                    assert(added[k].0 =~= seq![fields[n - 1].0]);
                }
            }
        }
    }
}

/// Flattening a value and building it again gives the value back, field for
/// field in the same order. This holds of the empty object and of every value
/// that [`grows`]; the flat map of such a value has only keys under which a
/// value can be set.
pub proof fn lemma_unflatten_flatten(v: JsonModel)
    requires
        round_trips(v),
    ensures
        keys_insertable(flatten(v)),
        unflatten(flatten(v)) == v,
{
    let none = Seq::<char>::empty();
    let start = Seq::<(Seq<char>, ScalarModel)>::empty();
    if grows(v) {
        lemma_flatten_appends(v, none, start);
        let e = leaves(v, none);
        assert(start + e =~= e);
        lemma_leaves_spell_paths(v, none);
        assert(tokens_spec(none) =~= Seq::<Seq<char>>::empty());
        lemma_unflatten_is_build(e, paths(v), e.len());
        lemma_build_paths(v, empty_object());
        lemma_paths_end_in_names(v);
        assert forall|i: int| 0 <= i < e.len() implies insertable(
            tokens_spec((#[trigger] e[i]).0),
        ) by {
            assert(tokens_spec(e[i].0) =~= paths(v)[i].0);
            lemma_plain_key_is_no_index(paths(v)[i].0.last());
        }
    } else {
        assert(flatten(v) =~= start);
    }
}

} // verus!
