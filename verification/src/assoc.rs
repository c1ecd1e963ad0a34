//! An insertion-ordered map from strings to values.
//!
//! The model of a map is the sequence of its (key, value) pairs. A well-formed
//! map holds no key twice; a new key goes to the end, and a key that is set
//! again keeps its place.

use crate::text::chars_of;
use crate::text::matches_at;
use vstd::prelude::*;

verus! {

/// Position of the first pair with this key; the length where there is none.
pub open spec fn key_index<V>(e: Seq<(Seq<char>, V)>, key: Seq<char>) -> int
    decreases e.len(),
{
    if e.len() == 0 {
        0
    } else if e[0].0 == key {
        0
    } else {
        1 + key_index(e.drop_first(), key)
    }
}

pub open spec fn has_key<V>(e: Seq<(Seq<char>, V)>, key: Seq<char>) -> bool {
    key_index(e, key) < e.len()
}

/// The value under `key`.
pub open spec fn lookup<V>(e: Seq<(Seq<char>, V)>, key: Seq<char>) -> Option<V> {
    if has_key(e, key) {
        Some(e[key_index(e, key)].1)
    } else {
        None
    }
}

/// `value` stored under `key`: in place where the key is there, at the end
/// where it is not.
pub open spec fn upsert<V>(e: Seq<(Seq<char>, V)>, key: Seq<char>, value: V) -> Seq<
    (Seq<char>, V),
> {
    if has_key(e, key) {
        e.update(key_index(e, key), (key, value))
    } else {
        e.push((key, value))
    }
}

/// The pairs without the first one that has this key.
pub open spec fn without<V>(e: Seq<(Seq<char>, V)>, key: Seq<char>) -> Seq<(Seq<char>, V)> {
    if has_key(e, key) {
        e.remove(key_index(e, key))
    } else {
        e
    }
}

/// No key occurs twice.
pub open spec fn keys_distinct<V>(e: Seq<(Seq<char>, V)>) -> bool {
    forall|i: int, j: int| 0 <= i < j < e.len() ==> (#[trigger] e[i]).0 != (#[trigger] e[j]).0
}

/// What [`key_index`] finds: the first pair with the key, if any.
pub proof fn lemma_key_index<V>(e: Seq<(Seq<char>, V)>, key: Seq<char>)
    ensures
        0 <= key_index(e, key) <= e.len(),
        has_key(e, key) ==> e[key_index(e, key)].0 == key,
        forall|j: int| 0 <= j < key_index(e, key) ==> (#[trigger] e[j]).0 != key,
    decreases e.len(),
{
    if e.len() > 0 && e[0].0 != key {
        lemma_key_index(e.drop_first(), key);
        let k = key_index(e.drop_first(), key);
        assert forall|j: int| 0 <= j < 1 + k implies (#[trigger] e[j]).0 != key by {
            if j > 0 {
                assert(e.drop_first()[j - 1] == e[j]);
            }
        }
    }
}

/// A pair with the key at `i`, and none before it, is what [`key_index`] finds.
pub proof fn lemma_key_index_is<V>(e: Seq<(Seq<char>, V)>, key: Seq<char>, i: int)
    requires
        0 <= i <= e.len(),
        i < e.len() ==> e[i].0 == key,
        forall|j: int| 0 <= j < i ==> (#[trigger] e[j]).0 != key,
    ensures
        key_index(e, key) == i,
    decreases e.len(),
{
    if e.len() > 0 && i > 0 {
        let rest = e.drop_first();
        assert(e[0].0 != key);
        assert forall|j: int| 0 <= j < i - 1 implies (#[trigger] rest[j]).0 != key by {
            assert(rest[j] == e[j + 1]);
        }
        lemma_key_index_is(rest, key, i - 1);
    }
}

/// Setting a key keeps the keys distinct; so does removing one.
pub proof fn lemma_distinct_kept<V>(e: Seq<(Seq<char>, V)>, key: Seq<char>, value: V)
    requires
        keys_distinct(e),
    ensures
        keys_distinct(upsert(e, key, value)),
        keys_distinct(without(e, key)),
{
    lemma_key_index(e, key);
    let k = key_index(e, key);
    if has_key(e, key) {
        let u = e.update(k, (key, value));
        assert forall|i: int, j: int| 0 <= i < j < u.len() implies (#[trigger] u[i]).0 != (
        #[trigger] u[j]).0 by {
            assert(u[i].0 == e[i].0 && u[j].0 == e[j].0);
        }
        let w = e.remove(k);
        assert forall|i: int, j: int| 0 <= i < j < w.len() implies (#[trigger] w[i]).0 != (
        #[trigger] w[j]).0 by {
            let a = if i < k { i } else { i + 1 };
            let b = if j < k { j } else { j + 1 };
            assert(w[i] == e[a] && w[j] == e[b]);
        }
    } else {
        let u = e.push((key, value));
        assert forall|i: int, j: int| 0 <= i < j < u.len() implies (#[trigger] u[i]).0 != (
        #[trigger] u[j]).0 by {
            if j < e.len() {
                assert(u[i] == e[i] && u[j] == e[j]);
            } else {
                assert(u[i] == e[i]);
            }
        }
    }
}

/// Nothing is found under a key that was taken out of a map without repeated
/// keys.
pub proof fn lemma_without_absent<V>(e: Seq<(Seq<char>, V)>, key: Seq<char>)
    requires
        keys_distinct(e),
    ensures
        !has_key(without(e, key), key),
{
    lemma_key_index(e, key);
    let k = key_index(e, key);
    let w = without(e, key);
    if has_key(e, key) {
        assert forall|j: int| 0 <= j < w.len() implies (#[trigger] w[j]).0 != key by {
            let a = if j < k { j } else { j + 1 };
            assert(w[j] == e[a]);
        }
    }
    lemma_key_index_is(w, key, w.len() as int);
}

/// Taking one key out leaves what stands under another key.
pub proof fn lemma_without_other<V>(e: Seq<(Seq<char>, V)>, gone: Seq<char>, key: Seq<char>)
    requires
        gone != key,
    ensures
        lookup(without(e, gone), key) == lookup(e, key),
{
    lemma_key_index(e, key);
    lemma_key_index(e, gone);
    let k = key_index(e, key);
    let g = key_index(e, gone);
    let w = without(e, gone);
    if has_key(e, gone) {
        let at = if k < g { k } else { k - 1 };
        assert forall|j: int| 0 <= j < at implies (#[trigger] w[j]).0 != key by {
            let a = if j < g { j } else { j + 1 };
            assert(w[j] == e[a]);
        }
        if has_key(e, key) {
            assert(w[at] == e[k]);
        }
        lemma_key_index_is(w, key, at);
    }
}

/// Setting one key leaves what stands under another key.
pub proof fn lemma_upsert_other<V>(e: Seq<(Seq<char>, V)>, set: Seq<char>, value: V, key: Seq<char>)
    requires
        set != key,
    ensures
        lookup(upsert(e, set, value), key) == lookup(e, key),
{
    lemma_key_index(e, key);
    lemma_key_index(e, set);
    let k = key_index(e, key);
    let u = upsert(e, set, value);
    assert forall|j: int| 0 <= j < k implies (#[trigger] u[j]).0 != key by {
        assert(u[j].0 == e[j].0);
    }
    if has_key(e, key) {
        assert(u[k] == e[k]);
        lemma_key_index_is(u, key, k);
    } else {
        assert forall|j: int| 0 <= j < u.len() implies (#[trigger] u[j]).0 != key by {
            if j < e.len() {
                assert(u[j].0 == e[j].0);
            }
        }
        lemma_key_index_is(u, key, u.len() as int);
    }
}

/// A key holds the value that was set under it.
pub proof fn lemma_upsert_same<V>(e: Seq<(Seq<char>, V)>, key: Seq<char>, value: V)
    ensures
        lookup(upsert(e, key, value), key) == Some(value),
{
    lemma_key_index(e, key);
    let k = key_index(e, key);
    let u = upsert(e, key, value);
    assert forall|j: int| 0 <= j < k implies (#[trigger] u[j]).0 != key by {
        assert(u[j].0 == e[j].0);
    }
    lemma_key_index_is(u, key, k);
}

/// An insertion-ordered map from strings to values.
#[derive(Debug, PartialEq)]
pub struct OrderedMap<V> {
    pub entries: Vec<(String, V)>,
}

impl<V: DeepView> DeepView for OrderedMap<V> {
    type V = Seq<(Seq<char>, V::V)>;

    open spec fn deep_view(&self) -> Seq<(Seq<char>, V::V)> {
        self.entries.deep_view()
    }
}

impl<V: DeepView> View for OrderedMap<V> {
    type V = Seq<(Seq<char>, V::V)>;

    open spec fn view(&self) -> Seq<(Seq<char>, V::V)> {
        self.entries.deep_view()
    }
}

impl<V: DeepView> OrderedMap<V> {
    /// No key occurs twice.
    pub open spec fn wf(&self) -> bool {
        keys_distinct(self@)
    }

    pub fn new() -> (m: Self)
        ensures
            m@ == Seq::<(Seq<char>, V::V)>::empty(),
            m.wf(),
    {
        let m = OrderedMap { entries: Vec::new() };
        proof {
            assert(m@ =~= Seq::<(Seq<char>, V::V)>::empty());
        }
        m
    }

    pub fn len(&self) -> (n: usize)
        ensures
            n == self@.len(),
    {
        self.entries.len()
    }

    pub fn is_empty(&self) -> (b: bool)
        ensures
            b == (self@.len() == 0),
    {
        self.entries.len() == 0
    }

    /// Where `key` stands, if it is there.
    pub fn position(&self, key: &str) -> (r: Option<usize>)
        ensures
            r.is_some() == has_key(self@, key@),
            r matches Some(i) ==> i == key_index(self@, key@) && i < self@.len(),
    {
        let k = chars_of(key);
        let mut i: usize = 0;
        while i < self.entries.len()
            invariant
                i <= self.entries.len(),
                k@ == key@,
                forall|j: int| 0 <= j < i ==> (#[trigger] self@[j]).0 != key@,
            decreases self.entries.len() - i,
        {
            let c = chars_of(self.entries[i].0.as_str());
            proof {
                assert(c@.skip(0) =~= c@);
                assert(self@[i as int].0 == c@);
                if c@.len() == k@.len() {
                    assert(c@.take(k@.len() as int) =~= c@);
                }
            }
            if c.len() == k.len() && matches_at(&c, 0, &k) {
                proof {
                    lemma_key_index_is(self@, key@, i as int);
                }
                return Some(i);
            }
            i += 1;
        }
        proof {
            lemma_key_index_is(self@, key@, i as int);
        }
        None
    }

    /// The value under `key`.
    pub fn get(&self, key: &str) -> (r: Option<&V>)
        ensures
            r.is_some() == has_key(self@, key@),
            r matches Some(v) ==> lookup(self@, key@) == Some(v.deep_view()),
    {
        match self.position(key) {
            Some(i) => Some(&self.entries[i].1),
            None => None,
        }
    }

    pub fn contains_key(&self, key: &str) -> (b: bool)
        ensures
            b == has_key(self@, key@),
    {
        self.position(key).is_some()
    }

    /// Stores `value` under `key`, in place of what was there.
    pub fn insert(&mut self, key: String, value: V)
        ensures
            final(self)@ == upsert(old(self)@, key@, value.deep_view()),
            old(self).wf() ==> final(self).wf(),
    {
        proof {
            if self.wf() {
                lemma_distinct_kept(self@, key@, value.deep_view());
            }
        }
        match self.position(key.as_str()) {
            Some(i) => {
                self.entries.set(i, (key, value));
                proof {
                    assert(self@ =~= upsert(old(self)@, key@, value.deep_view()));
                }
            },
            None => {
                self.entries.push((key, value));
                proof {
                    assert(self@ =~= upsert(old(self)@, key@, value.deep_view()));
                }
            },
        }
    }

    /// Takes `key` and its value out.
    pub fn remove(&mut self, key: &str) -> (r: Option<V>)
        ensures
            final(self)@ == without(old(self)@, key@),
            r.is_some() == has_key(old(self)@, key@),
            r matches Some(v) ==> lookup(old(self)@, key@) == Some(v.deep_view()),
            old(self).wf() ==> final(self).wf(),
    {
        proof {
            if self.wf() {
                lemma_distinct_kept(self@, key@, self@[0].1);
            }
        }
        match self.position(key) {
            Some(i) => {
                let pair = self.entries.remove(i);
                proof {
                    assert(self@ =~= without(old(self)@, key@));
                    assert(pair.deep_view() == old(self)@[i as int]);
                }
                Some(pair.1)
            },
            None => None,
        }
    }
}

} // verus!
