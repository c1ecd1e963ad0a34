//! The query codec: URL-encoded text to and from maps of names and values.

use crate::assoc::{
    has_key, key_index, keys_distinct, lemma_distinct_kept, lemma_key_index, lemma_key_index_is,
    lookup, upsert, OrderedMap,
};
use vstd::prelude::*;

verus! {

/// Names with one value each.
pub type QueryMap = OrderedMap<String>;

/// Names with their values, in the order in which the values came.
pub type QueryMultimap = OrderedMap<Vec<String>>;

/// A sequence of (name, value) pairs.
pub type Pairs = Seq<(Seq<char>, Seq<char>)>;

/// What a [`QueryMultimap`] holds.
pub type MultimapModel = Seq<(Seq<char>, Seq<Seq<char>>)>;

/// The pairs that `url::form_urlencoded::parse` reads from a text.
pub uninterp spec fn form_pairs(input: Seq<char>) -> Pairs;

/// The text that `url::form_urlencoded::Serializer` writes for the pairs.
pub uninterp spec fn form_text(pairs: Pairs) -> Seq<char>;

/// Reads the pairs of a URL-encoded text with `url::form_urlencoded::parse`,
/// names and values percent-decoded, in the order of the text.
#[verifier::external_body]
fn parse_pairs(input: &str) -> (pairs: Vec<(String, String)>)
    ensures
        pairs.deep_view() == form_pairs(input@),
{
    url::form_urlencoded::parse(input.as_bytes()).into_owned().collect()
}

/// Writes pairs as URL-encoded text with `url::form_urlencoded::Serializer`:
/// `name=value` joined by `&`, both percent-encoded. Reading the text back
/// gives the pairs again: the serializer writes every byte of a name or value
/// that is not a letter, a digit or one of `* - . _` as `+` or `%XX`, so the
/// parser finds every `&` and `=` that it wrote and no other, and decodes
/// each name and value to the bytes that it had.
#[verifier::external_body]
fn encode_pairs(pairs: &Vec<(String, String)>) -> (text: String)
    ensures
        text@ == form_text(pairs.deep_view()),
        form_pairs(text@) == pairs.deep_view(),
{
    url::form_urlencoded::Serializer::new(String::new()).extend_pairs(pairs.iter()).finish()
}

/// `acc` after one more pair: the value goes to the end of its name's values;
/// a new name goes to the end of the map.
pub open spec fn group_step(acc: MultimapModel, pair: (Seq<char>, Seq<char>)) -> MultimapModel {
    match lookup(acc, pair.0) {
        Some(values) => upsert(acc, pair.0, values.push(pair.1)),
        None => acc.push((pair.0, seq![pair.1])),
    }
}

/// `acc` after the pairs were grouped into it, one after the other.
pub open spec fn group_onto(acc: MultimapModel, pairs: Pairs) -> MultimapModel
    decreases pairs.len(),
{
    if pairs.len() == 0 {
        acc
    } else {
        group_step(group_onto(acc, pairs.drop_last()), pairs.last())
    }
}

/// The pairs grouped by name: names in the order of their first occurrence,
/// the values of a name in the order of the pairs.
pub open spec fn grouped(pairs: Pairs) -> MultimapModel {
    group_onto(Seq::empty(), pairs)
}

/// The map in which each name has the value of its last pair; names stand in
/// the order of their first occurrence.
pub open spec fn last_values(pairs: Pairs) -> Pairs
    decreases pairs.len(),
{
    if pairs.len() == 0 {
        pairs
    } else {
        upsert(last_values(pairs.drop_last()), pairs.last().0, pairs.last().1)
    }
}

/// One pair for each value of a name.
pub open spec fn entry_pairs(name: Seq<char>, values: Seq<Seq<char>>) -> Pairs {
    Seq::new(values.len(), |i: int| (name, values[i]))
}

/// The pairs of the first `n` entries of a multimap: entry after entry, and
/// within an entry value after value.
pub open spec fn multimap_pairs_upto(m: MultimapModel, n: nat) -> Pairs
    decreases n,
{
    if n == 0 || n > m.len() {
        Seq::empty()
    } else {
        multimap_pairs_upto(m, (n - 1) as nat) + entry_pairs(m[n - 1].0, m[n - 1].1)
    }
}

/// The pairs of a multimap.
pub open spec fn multimap_pairs(m: MultimapModel) -> Pairs {
    multimap_pairs_upto(m, m.len())
}

/// Every name has at least one value.
pub open spec fn values_present(m: MultimapModel) -> bool {
    forall|i: int| 0 <= i < m.len() ==> (#[trigger] m[i]).1.len() > 0
}

/// A map without repeated names is the map of its own pairs.
pub proof fn lemma_last_values_distinct(e: Pairs)
    requires
        keys_distinct(e),
    ensures
        last_values(e) == e,
    decreases e.len(),
{
    if e.len() > 0 {
        let before = e.drop_last();
        lemma_last_values_distinct(before);
        lemma_key_index(before, e.last().0);
        if has_key(before, e.last().0) {
            let i = key_index(before, e.last().0);
            assert(before[i] == e[i]);
        }
        assert(before.push(e.last()) =~= e);
    }
}

/// Grouping keeps the names distinct.
pub proof fn lemma_group_distinct(acc: MultimapModel, pairs: Pairs)
    requires
        keys_distinct(acc),
    ensures
        keys_distinct(group_onto(acc, pairs)),
    decreases pairs.len(),
{
    if pairs.len() > 0 {
        lemma_group_distinct(acc, pairs.drop_last());
        let before = group_onto(acc, pairs.drop_last());
        let pair = pairs.last();
        lemma_key_index(before, pair.0);
        lemma_distinct_kept(before, pair.0, seq![pair.1]);
        match lookup(before, pair.0) {
            Some(values) => {
                lemma_distinct_kept(before, pair.0, values.push(pair.1));
            },
            None => {
                assert(upsert(before, pair.0, seq![pair.1]) == before.push((pair.0, seq![pair.1])));
            },
        }
    }
}

/// Grouping two runs of pairs is grouping the second onto the first.
pub proof fn lemma_group_concat(acc: MultimapModel, a: Pairs, b: Pairs)
    ensures
        group_onto(acc, a + b) == group_onto(group_onto(acc, a), b),
    decreases b.len(),
{
    if b.len() == 0 {
        assert(a + b =~= a);
    } else {
        assert((a + b).drop_last() =~= a + b.drop_last());
        assert((a + b).last() == b.last());
        lemma_group_concat(acc, a, b.drop_last());
    }
}

/// Grouping the pairs of one new name adds that name with its values.
pub proof fn lemma_group_entry(acc: MultimapModel, name: Seq<char>, values: Seq<Seq<char>>)
    requires
        !has_key(acc, name),
        values.len() > 0,
    ensures
        group_onto(acc, entry_pairs(name, values)) == acc.push((name, values)),
    decreases values.len(),
{
    let pairs = entry_pairs(name, values);
    lemma_key_index(acc, name);
    assert(pairs.drop_last() =~= entry_pairs(name, values.drop_last()));
    assert(pairs.last() == (name, values.last()));
    if values.len() == 1 {
        assert(pairs.drop_last() =~= Seq::<(Seq<char>, Seq<char>)>::empty());
        assert(group_onto(acc, pairs.drop_last()) == acc);
        assert(values =~= seq![values.last()]);
    } else {
        lemma_group_entry(acc, name, values.drop_last());
        let before = acc.push((name, values.drop_last()));
        lemma_key_index_is(before, name, acc.len() as int);
        assert(values.drop_last().push(values.last()) =~= values);
        assert(before.update(acc.len() as int, (name, values)) =~= acc.push((name, values)));
    }
}

/// A multimap flattened into pairs and grouped again is itself, provided that
/// no name occurs twice in it and every name has a value.
pub proof fn lemma_group_multimap_pairs(m: MultimapModel)
    requires
        keys_distinct(m),
        values_present(m),
    ensures
        grouped(multimap_pairs(m)) == m,
{
    lemma_group_upto(m, m.len());
    assert(m.take(m.len() as int) =~= m);
}

proof fn lemma_group_upto(m: MultimapModel, n: nat)
    requires
        keys_distinct(m),
        values_present(m),
        n <= m.len(),
    ensures
        grouped(multimap_pairs_upto(m, n)) == m.take(n as int),
    decreases n,
{
    if n == 0 {
        assert(m.take(0) =~= Seq::<(Seq<char>, Seq<Seq<char>>)>::empty());
    } else {
        lemma_group_upto(m, (n - 1) as nat);
        let before = m.take(n - 1);
        let entry = m[n - 1];
        lemma_group_concat(
            Seq::empty(),
            multimap_pairs_upto(m, (n - 1) as nat),
            entry_pairs(entry.0, entry.1),
        );
        assert(!has_key(before, entry.0)) by {
            lemma_key_index(before, entry.0);
            if has_key(before, entry.0) {
                let i = key_index(before, entry.0);
                assert(before[i] == m[i]);
            }
        }
        lemma_group_entry(before, entry.0, entry.1);
        assert(before.push(entry) =~= m.take(n as int));
    }
}

/// Parses a query string; a name that comes twice keeps its last value.
pub fn query_to_map(query: &str) -> (map: QueryMap)
    ensures
        map@ == last_values(form_pairs(query@)),
        map.wf(),
{
    let pairs = parse_pairs(query);
    let mut map: QueryMap = OrderedMap::new();
    let mut i: usize = 0;
    proof {
        assert(pairs.deep_view().take(0) =~= Seq::<(Seq<char>, Seq<char>)>::empty());
    }
    while i < pairs.len()
        invariant
            i <= pairs.len(),
            map.wf(),
            map@ == last_values(pairs.deep_view().take(i as int)),
        decreases pairs.len() - i,
    {
        proof {
            let now = pairs.deep_view().take(i + 1);
            assert(now.drop_last() =~= pairs.deep_view().take(i as int));
            assert(now.last() == (pairs@[i as int].0@, pairs@[i as int].1@));
        }
        map.insert(pairs[i].0.clone(), pairs[i].1.clone());
        i += 1;
    }
    proof {
        assert(pairs.deep_view().take(i as int) =~= pairs.deep_view());
    }
    map
}

/// Parses a query string, keeping every value of every name.
pub fn query_to_multimap(query: &str) -> (map: QueryMultimap)
    ensures
        map@ == grouped(form_pairs(query@)),
        map.wf(),
{
    let pairs = parse_pairs(query);
    let mut map: QueryMultimap = OrderedMap::new();
    let mut i: usize = 0;
    proof {
        assert(pairs.deep_view().take(0) =~= Seq::<(Seq<char>, Seq<char>)>::empty());
    }
    while i < pairs.len()
        invariant
            i <= pairs.len(),
            map.wf(),
            map@ == grouped(pairs.deep_view().take(i as int)),
        decreases pairs.len() - i,
    {
        let ghost before = map@;
        let ghost pair = (pairs@[i as int].0@, pairs@[i as int].1@);
        proof {
            let now = pairs.deep_view().take(i + 1);
            assert(now.drop_last() =~= pairs.deep_view().take(i as int));
            assert(now.last() == pair);
            lemma_group_distinct(Seq::empty(), now);
            lemma_key_index(before, pair.0);
        }
        match map.position(pairs[i].0.as_str()) {
            Some(at) => {
                let ghost values = map.entries@[at as int].1.deep_view();
                map.entries[at].1.push(pairs[i].1.clone());
                proof {
                    assert(map.entries@[at as int].1.deep_view() =~= values.push(pair.1));
                    assert(map@ =~= group_step(before, pair));
                }
            },
            None => {
                let mut values: Vec<String> = Vec::new();
                values.push(pairs[i].1.clone());
                proof {
                    assert(values.deep_view() =~= seq![pair.1]);
                }
                map.entries.push((pairs[i].0.clone(), values));
                proof {
                    assert(map@ =~= group_step(before, pair));
                }
            },
        }
        i += 1;
    }
    proof {
        assert(pairs.deep_view().take(i as int) =~= pairs.deep_view());
    }
    map
}

/// Writes a map as a query string, entry after entry. Parsing the result
/// gives the pairs of the map again, and the map itself where no name occurs
/// twice in it.
pub fn map_to_query(map: &QueryMap) -> (query: String)
    ensures
        query@ == form_text(map@),
        form_pairs(query@) == map@,
        map.wf() ==> last_values(form_pairs(query@)) == map@,
{
    proof {
        if map.wf() {
            lemma_last_values_distinct(map@);
        }
    }
    let mut pairs: Vec<(String, String)> = Vec::new();
    let mut i: usize = 0;
    while i < map.entries.len()
        invariant
            i <= map.entries.len(),
            pairs.deep_view() == map@.take(i as int),
        decreases map.entries.len() - i,
    {
        let ghost before = pairs.deep_view();
        let pair = (map.entries[i].0.clone(), map.entries[i].1.clone());
        proof {
            assert(pair.deep_view() == map@[i as int]);
        }
        pairs.push(pair);
        i += 1;
        proof {
            assert(pairs.deep_view() =~= before.push(map@[i - 1]));
            assert(pairs.deep_view() =~= map@.take(i as int));
        }
    }
    proof {
        assert(map@.take(i as int) =~= map@);
    }
    encode_pairs(&pairs)
}

/// The pairs of a multimap, as owned strings.
pub fn multimap_to_pairs(multimap: &QueryMultimap) -> (pairs: Vec<(String, String)>)
    ensures
        pairs.deep_view() == multimap_pairs(multimap@),
{
    let mut pairs: Vec<(String, String)> = Vec::new();
    let mut i: usize = 0;
    proof {
        assert(pairs.deep_view() =~= multimap_pairs_upto(multimap@, 0));
    }
    while i < multimap.entries.len()
        invariant
            i <= multimap.entries.len(),
            pairs.deep_view() == multimap_pairs_upto(multimap@, i as nat),
        decreases multimap.entries.len() - i,
    {
        let ghost done = pairs.deep_view();
        let ghost name = multimap@[i as int].0;
        let ghost values = multimap@[i as int].1;
        let mut j: usize = 0;
        proof {
            assert(name == multimap.entries@[i as int].0@);
            assert(values == multimap.entries@[i as int].1.deep_view());
            assert(pairs.deep_view() =~= done + entry_pairs(name, values.take(0)));
        }
        while j < multimap.entries[i].1.len()
            invariant
                i < multimap.entries.len(),
                j <= multimap.entries[i as int].1.len(),
                name == multimap.entries@[i as int].0@,
                values == multimap.entries@[i as int].1.deep_view(),
                pairs.deep_view() == done + entry_pairs(name, values.take(j as int)),
            decreases multimap.entries[i as int].1.len() - j,
        {
            let ghost before = pairs.deep_view();
            let pair = (multimap.entries[i].0.clone(), multimap.entries[i].1[j].clone());
            proof {
                assert(pair.deep_view() == (name, values[j as int]));
            }
            pairs.push(pair);
            j += 1;
            proof {
                assert(pairs.deep_view() =~= before.push((name, values[j - 1])));
                assert(pairs.deep_view() =~= done + entry_pairs(name, values.take(j as int)));
            }
        }
        proof {
            assert(values.take(j as int) =~= values);
        }
        i += 1;
    }
    pairs
}

/// Writes a multimap as a query string: one pair for each value, entry after
/// entry. Parsing the result gives the multimap again where no name occurs
/// twice in it and every name has a value.
pub fn multimap_to_query(multimap: &QueryMultimap) -> (query: String)
    ensures
        query@ == form_text(multimap_pairs(multimap@)),
        form_pairs(query@) == multimap_pairs(multimap@),
        multimap.wf() && values_present(multimap@) ==> grouped(form_pairs(query@)) == multimap@,
{
    let pairs = multimap_to_pairs(multimap);
    proof {
        if multimap.wf() && values_present(multimap@) {
            lemma_group_multimap_pairs(multimap@);
        }
    }
    encode_pairs(&pairs)
}

} // verus!
