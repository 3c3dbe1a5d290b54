//! `StrMap`: a finite map from text keys to text values, kept as a listing of
//! entries in ascending key order. It is what the secrets store, the session
//! metadata and the arguments of trace events are built on.

use vstd::prelude::*;
use crate::text_order::{compare_text, lemma_text_lt_asymmetric, lemma_text_lt_irreflexive, lemma_text_lt_transitive, text_lt, KeyOrder};

verus! {

broadcast use vstd::seq_lib::seq_to_set_is_finite;

// ---------------------------------------------------------------------------
// Listings: sequences of (key, value) pairs, read as maps.
// ---------------------------------------------------------------------------

/// `k` is the key of some entry of the listing.
pub open spec fn listing_has<V>(s: Seq<(Seq<char>, V)>, k: Seq<char>) -> bool {
    exists|i: int| 0 <= i < s.len() && s[i].0 == k
}

/// The map that a listing with distinct keys stands for.
pub open spec fn listing_map<V>(s: Seq<(Seq<char>, V)>) -> Map<Seq<char>, V> {
    Map::new(
        |k: Seq<char>| listing_has(s, k),
        |k: Seq<char>| s[choose|i: int| 0 <= i < s.len() && s[i].0 == k].1,
    )
}

/// No key occurs twice in the listing.
pub open spec fn keys_distinct<V>(s: Seq<(Seq<char>, V)>) -> bool {
    forall|i: int, j: int| 0 <= i < s.len() && 0 <= j < s.len() && i != j ==> s[i].0 != s[j].0
}

/// The keys of the listing ascend strictly in the order of `str`.
pub open spec fn keys_ascending<V>(s: Seq<(Seq<char>, V)>) -> bool {
    forall|i: int, j: int| 0 <= i < j < s.len() ==> text_lt(s[i].0, s[j].0)
}

/// The map built by inserting the pairs in turn: where a key occurs twice,
/// the later pair wins.
pub open spec fn pairs_to_map(s: Seq<(Seq<char>, Seq<char>)>) -> Map<Seq<char>, Seq<char>>
    decreases s.len(),
{
    if s.len() == 0 {
        Map::empty()
    } else {
        pairs_to_map(s.drop_last()).insert(s.last().0, s.last().1)
    }
}

pub proof fn lemma_ascending_distinct<V>(s: Seq<(Seq<char>, V)>)
    requires
        keys_ascending(s),
    ensures
        keys_distinct(s),
{
    assert forall|i: int, j: int| 0 <= i < s.len() && 0 <= j < s.len() && i != j implies s[i].0
        != s[j].0 by {
        if i < j {
            lemma_text_lt_irreflexive(s[i].0);
        } else {
            lemma_text_lt_irreflexive(s[j].0);
        }
    }
}

/// The entry at index `i` is what the map gives for its key.
pub proof fn lemma_listing_map_index<V>(s: Seq<(Seq<char>, V)>, i: int)
    requires
        keys_distinct(s),
        0 <= i < s.len(),
    ensures
        listing_map(s).contains_key(s[i].0),
        listing_map(s)[s[i].0] == s[i].1,
{
    assert(listing_has(s, s[i].0));
    let j = choose|j: int| 0 <= j < s.len() && s[j].0 == s[i].0;
    assert(j == i);
}

/// A listing with distinct keys stands for `m` when each entry is in `m` and
/// each key of `m` is in the listing.
pub proof fn lemma_listing_map_is<V>(s: Seq<(Seq<char>, V)>, m: Map<Seq<char>, V>)
    requires
        keys_distinct(s),
        forall|i: int| 0 <= i < s.len() ==> m.contains_key(#[trigger] s[i].0) && m[s[i].0] == s[i].1,
        forall|k: Seq<char>| m.contains_key(k) ==> listing_has(s, k),
    ensures
        listing_map(s) == m,
{
    assert forall|k: Seq<char>| #[trigger] listing_map(s).contains_key(k) implies m.contains_key(k)
        && listing_map(s)[k] == m[k] by {
        let i = choose|i: int| 0 <= i < s.len() && s[i].0 == k;
        lemma_listing_map_index(s, i);
    }
    assert(listing_map(s) =~= m);
}

pub proof fn lemma_listing_map_len<V>(s: Seq<(Seq<char>, V)>)
    requires
        keys_distinct(s),
    ensures
        listing_map(s).dom().finite(),
        listing_map(s).len() == s.len(),
{
    let keys = s.map_values(|p: (Seq<char>, V)| p.0);
    assert(keys.no_duplicates());
    keys.unique_seq_to_set();
    assert forall|k: Seq<char>| listing_map(s).dom().contains(k) <==> keys.to_set().contains(k) by {
        if listing_has(s, k) {
            let i = choose|i: int| 0 <= i < s.len() && s[i].0 == k;
            assert(keys[i] == k);
        }
        if keys.contains(k) {
            let i = choose|i: int| 0 <= i < keys.len() && keys[i] == k;
            assert(s[i].0 == k);
        }
    }
    assert(listing_map(s).dom() =~= keys.to_set());
}

pub proof fn lemma_listing_map_empty<V>(s: Seq<(Seq<char>, V)>)
    requires
        s.len() == 0,
    ensures
        listing_map(s) == Map::<Seq<char>, V>::empty(),
{
    assert(listing_map(s) =~= Map::<Seq<char>, V>::empty());
}

/// Replacing the value of the entry at index `i`.
pub proof fn lemma_listing_map_update<V>(s: Seq<(Seq<char>, V)>, i: int, v: V)
    requires
        keys_distinct(s),
        0 <= i < s.len(),
    ensures
        keys_distinct(s.update(i, (s[i].0, v))),
        listing_map(s.update(i, (s[i].0, v))) == listing_map(s).insert(s[i].0, v),
{
    let t = s.update(i, (s[i].0, v));
    let m = listing_map(s).insert(s[i].0, v);
    assert forall|j: int| 0 <= j < t.len() implies m.contains_key(#[trigger] t[j].0) && m[t[j].0]
        == t[j].1 by {
        if j != i {
            lemma_listing_map_index(s, j);
        }
    }
    assert forall|k: Seq<char>| m.contains_key(k) implies listing_has(t, k) by {
        if k != s[i].0 {
            let j = choose|j: int| 0 <= j < s.len() && s[j].0 == k;
            assert(t[j].0 == k);
        } else {
            assert(t[i].0 == k);
        }
    }
    lemma_listing_map_is(t, m);
}

/// Inserting an entry with a new key at position `p`.
pub proof fn lemma_listing_map_insert<V>(s: Seq<(Seq<char>, V)>, p: int, k: Seq<char>, v: V)
    requires
        keys_distinct(s),
        0 <= p <= s.len(),
        !listing_has(s, k),
    ensures
        keys_distinct(s.insert(p, (k, v))),
        listing_map(s.insert(p, (k, v))) == listing_map(s).insert(k, v),
{
    let t = s.insert(p, (k, v));
    let m = listing_map(s).insert(k, v);
    assert forall|a: int, b: int| 0 <= a < t.len() && 0 <= b < t.len() && a != b implies t[a].0
        != t[b].0 by {
        if a != p && b != p {
            let a0 = if a < p { a } else { a - 1 };
            let b0 = if b < p { b } else { b - 1 };
            assert(t[a] == s[a0]);
            assert(t[b] == s[b0]);
        } else if a == p {
            let b0 = if b < p { b } else { b - 1 };
            assert(t[b] == s[b0]);
        } else {
            let a0 = if a < p { a } else { a - 1 };
            assert(t[a] == s[a0]);
        }
    }
    assert forall|j: int| 0 <= j < t.len() implies m.contains_key(#[trigger] t[j].0) && m[t[j].0]
        == t[j].1 by {
        if j != p {
            let j0 = if j < p { j } else { j - 1 };
            assert(t[j] == s[j0]);
            lemma_listing_map_index(s, j0);
        }
    }
    assert forall|q: Seq<char>| m.contains_key(q) implies listing_has(t, q) by {
        if q != k {
            let j = choose|j: int| 0 <= j < s.len() && s[j].0 == q;
            if j < p {
                assert(t[j].0 == q);
            } else {
                assert(t[j + 1].0 == q);
            }
        } else {
            assert(t[p].0 == q);
        }
    }
    lemma_listing_map_is(t, m);
}

/// Splitting off the last entry.
pub proof fn lemma_listing_map_drop_last<V>(s: Seq<(Seq<char>, V)>)
    requires
        keys_distinct(s),
        s.len() > 0,
    ensures
        keys_distinct(s.drop_last()),
        !listing_has(s.drop_last(), s.last().0),
        listing_map(s) == listing_map(s.drop_last()).insert(s.last().0, s.last().1),
{
    let t = s.drop_last();
    assert(s =~= t.insert(t.len() as int, s.last()));
    assert(keys_distinct(t));
    if listing_has(t, s.last().0) {
        let j = choose|j: int| 0 <= j < t.len() && t[j].0 == s.last().0;
        assert(s[j].0 == s[s.len() - 1].0);
    }
    lemma_listing_map_insert(t, t.len() as int, s.last().0, s.last().1);
}

/// For a listing with distinct keys, inserting the pairs in turn gives the
/// map the listing stands for.
pub proof fn lemma_pairs_to_map_distinct(s: Seq<(Seq<char>, Seq<char>)>)
    requires
        keys_distinct(s),
    ensures
        pairs_to_map(s) == listing_map(s),
    decreases s.len(),
{
    if s.len() == 0 {
        lemma_listing_map_empty(s);
    } else {
        lemma_listing_map_drop_last(s);
        lemma_pairs_to_map_distinct(s.drop_last());
    }
}

/// Inserting the pairs of `a + b` in turn: the pairs of `b` win.
pub proof fn lemma_pairs_to_map_concat(a: Seq<(Seq<char>, Seq<char>)>, b: Seq<(Seq<char>, Seq<char>)>)
    ensures
        pairs_to_map(a + b) == pairs_to_map(a).union_prefer_right(pairs_to_map(b)),
    decreases b.len(),
{
    if b.len() == 0 {
        assert(a + b =~= a);
        assert(pairs_to_map(a).union_prefer_right(pairs_to_map(b)) =~= pairs_to_map(a));
    } else {
        lemma_pairs_to_map_concat(a, b.drop_last());
        assert((a + b).drop_last() =~= a + b.drop_last());
        assert((a + b).last() == b.last());
        assert(pairs_to_map(a + b) =~= pairs_to_map(a).union_prefer_right(pairs_to_map(b)));
    }
}


/// Two listings with ascending keys that stand for the same map are the same
/// listing: the listing is a canonical form of the map.
pub proof fn lemma_listing_canonical(s: Seq<(Seq<char>, Seq<char>)>, t: Seq<(Seq<char>, Seq<char>)>)
    requires
        keys_ascending(s),
        keys_ascending(t),
        listing_map(s) == listing_map(t),
    ensures
        s == t,
    decreases s.len(),
{
    lemma_ascending_distinct(s);
    lemma_ascending_distinct(t);
    lemma_listing_map_len(s);
    lemma_listing_map_len(t);
    if s.len() == 0 {
        assert(s =~= t);
    } else {
        let n = s.len() as int;
        let m = listing_map(s);
        lemma_listing_map_index(s, n - 1);
        lemma_listing_map_index(t, n - 1);
        // the last key of each listing is the greatest key of the map
        let ks = s[n - 1].0;
        let kt = t[n - 1].0;
        if ks != kt {
            let i = choose|i: int| 0 <= i < s.len() && s[i].0 == kt;
            let j = choose|j: int| 0 <= j < t.len() && t[j].0 == ks;
            assert(text_lt(kt, ks));
            assert(text_lt(ks, kt));
            lemma_text_lt_asymmetric(kt, ks);
        }
        lemma_listing_map_drop_last(s);
        lemma_listing_map_drop_last(t);
        assert(listing_map(s.drop_last()) =~= m.remove(ks));
        assert(listing_map(t.drop_last()) =~= m.remove(ks));
        assert(keys_ascending(s.drop_last()));
        assert(keys_ascending(t.drop_last()));
        lemma_listing_canonical(s.drop_last(), t.drop_last());
        assert(s =~= s.drop_last().push(s[n - 1]));
        assert(t =~= t.drop_last().push(t[n - 1]));
    }
}

// ---------------------------------------------------------------------------
// StrMap
// ---------------------------------------------------------------------------

/// A finite map from text keys to text values, held as entries in ascending
/// key order.
#[derive(Clone, Debug)]
pub struct StrMap {
    entries: Vec<(String, String)>,
}

impl StrMap {
    /// The entries, in order, as (key, value) texts.
    pub closed spec fn listing(&self) -> Seq<(Seq<char>, Seq<char>)> {
        self.entries@.map_values(|e: (String, String)| (e.0@, e.1@))
    }

    /// Well-formedness: the keys ascend strictly.
    pub open spec fn wf(&self) -> bool {
        keys_ascending(self.listing())
    }

    /// What every well-formed map guarantees of its listing and its view.
    pub proof fn lemma_wf(&self)
        requires
            self.wf(),
        ensures
            keys_distinct(self.listing()),
            self@.dom().finite(),
            self@.len() == self.listing().len(),
            forall|i: int|
                0 <= i < self.listing().len() ==> self@.contains_key(#[trigger] self.listing()[i].0)
                    && self@[self.listing()[i].0] == self.listing()[i].1,
            forall|k: Seq<char>| self@.contains_key(k) <==> listing_has(self.listing(), k),
    {
        lemma_ascending_distinct(self.listing());
        lemma_listing_map_len(self.listing());
        assert forall|i: int| 0 <= i < self.listing().len() implies self@.contains_key(
            #[trigger] self.listing()[i].0,
        ) && self@[self.listing()[i].0] == self.listing()[i].1 by {
            lemma_listing_map_index(self.listing(), i);
        }
    }

    /// An empty map.
    pub fn new() -> (m: StrMap)
        ensures
            m.wf(),
            m@ == Map::<Seq<char>, Seq<char>>::empty(),
            m.listing().len() == 0,
    {
        let m = StrMap { entries: Vec::new() };
        proof {
            lemma_listing_map_empty(m.listing());
        }
        m
    }

    /// The number of entries.
    pub fn len(&self) -> (n: usize)
        requires
            self.wf(),
        ensures
            n == self@.len(),
            n == self.listing().len(),
    {
        proof {
            self.lemma_wf();
        }
        self.entries.len()
    }

    /// Whether the map has no entry.
    pub fn is_empty(&self) -> (b: bool)
        requires
            self.wf(),
        ensures
            b <==> self@ == Map::<Seq<char>, Seq<char>>::empty(),
            b <==> self.listing().len() == 0,
    {
        proof {
            self.lemma_wf();
            if self.listing().len() == 0 {
                lemma_listing_map_empty(self.listing());
            } else {
                assert(self@.contains_key(self.listing()[0].0));
            }
        }
        self.entries.len() == 0
    }

    /// Where `key` stands in the listing: its index if present, else the
    /// index at which it would be inserted.
    fn locate(&self, key: &str) -> (r: (usize, bool))
        requires
            self.wf(),
        ensures
            r.0 <= self.listing().len(),
            r.1 ==> r.0 < self.listing().len() && self.listing()[r.0 as int].0 == key@,
            !r.1 ==> (forall|j: int| 0 <= j < r.0 ==> text_lt(#[trigger] self.listing()[j].0, key@)),
            !r.1 ==> (forall|j: int|
                r.0 <= j < self.listing().len() ==> text_lt(key@, #[trigger] self.listing()[j].0)),
    {
        let n = self.entries.len();
        let mut i: usize = 0;
        while i < n
            invariant
                n == self.entries.len(),
                n == self.listing().len(),
                i <= n,
                self.wf(),
                forall|j: int| 0 <= j < i ==> text_lt(#[trigger] self.listing()[j].0, key@),
            decreases n - i,
        {
            let c = compare_text(self.entries[i].0.as_str(), key);
            assert(self.listing()[i as int].0 == self.entries@[i as int].0@);
            match c {
                KeyOrder::Equal => {
                    return (i, true);
                },
                KeyOrder::Greater => {
                    assert forall|j: int| i <= j < n implies text_lt(
                        key@,
                        #[trigger] self.listing()[j].0,
                    ) by {
                        if j > i {
                            lemma_text_lt_transitive(key@, self.listing()[i as int].0, self.listing()[j].0);
                        }
                    }
                    return (i, false);
                },
                KeyOrder::Less => {},
            }
            i = i + 1;
        }
        (n, false)
    }

    /// The value stored under `key`, if any.
    pub fn get(&self, key: &str) -> (r: Option<&str>)
        requires
            self.wf(),
        ensures
            match r {
                Some(v) => self@.contains_key(key@) && v@ == self@[key@],
                None => !self@.contains_key(key@),
            },
    {
        proof {
            self.lemma_wf();
        }
        let (i, found) = self.locate(key);
        if found {
            Some(self.entries[i].1.as_str())
        } else {
            proof {
                if self@.contains_key(key@) {
                    let j = choose|j: int| 0 <= j < self.listing().len() && self.listing()[j].0 == key@;
                    lemma_text_lt_irreflexive(key@);
                }
            }
            None
        }
    }

    /// Whether `key` has an entry.
    pub fn contains_key(&self, key: &str) -> (b: bool)
        requires
            self.wf(),
        ensures
            b == self@.contains_key(key@),
    {
        match self.get(key) {
            Some(_) => true,
            None => false,
        }
    }

    /// Stores `value` under `key`, giving back the value it replaces.
    pub fn insert(&mut self, key: String, value: String) -> (prev: Option<String>)
        requires
            old(self).wf(),
        ensures
            final(self).wf(),
            final(self)@ == old(self)@.insert(key@, value@),
            match prev {
                Some(v) => old(self)@.contains_key(key@) && v@ == old(self)@[key@],
                None => !old(self)@.contains_key(key@),
            },
    {
        proof {
            self.lemma_wf();
        }
        let ghost s = self.listing();
        let (i, found) = self.locate(key.as_str());
        if found {
            let (_old_key, old_value) = self.entries.remove(i);
            self.entries.insert(i, (key, value));
            proof {
                assert(self.listing() =~= s.update(i as int, (s[i as int].0, value@)));
                lemma_listing_map_update(s, i as int, value@);
                assert forall|a: int, b: int| 0 <= a < b < self.listing().len() implies text_lt(
                    self.listing()[a].0,
                    self.listing()[b].0,
                ) by {
                    assert(self.listing()[a].0 == s[a].0);
                    assert(self.listing()[b].0 == s[b].0);
                }
                assert(old_value@ == s[i as int].1);
            }
            Some(old_value)
        } else {
            self.entries.insert(i, (key, value));
            proof {
                assert(self.listing() =~= s.insert(i as int, (key@, value@)));
                if listing_has(s, key@) {
                    let j = choose|j: int| 0 <= j < s.len() && s[j].0 == key@;
                    lemma_text_lt_irreflexive(key@);
                }
                lemma_listing_map_insert(s, i as int, key@, value@);
                let t = self.listing();
                assert forall|a: int, b: int| 0 <= a < b < t.len() implies text_lt(t[a].0, t[b].0) by {
                    if b < i {
                        assert(t[a] == s[a] && t[b] == s[b]);
                    } else if b == i {
                        assert(t[a] == s[a]);
                    } else if a < i {
                        assert(t[a] == s[a] && t[b] == s[b - 1]);
                        lemma_text_lt_transitive(s[a].0, key@, s[b - 1].0);
                    } else if a == i {
                        assert(t[b] == s[b - 1]);
                    } else {
                        assert(t[a] == s[a - 1] && t[b] == s[b - 1]);
                    }
                }
            }
            None
        }
    }

    /// The keys, in ascending order.
    pub fn keys(&self) -> (r: Vec<&str>)
        requires
            self.wf(),
        ensures
            r.len() == self.listing().len(),
            forall|i: int| 0 <= i < r.len() ==> (#[trigger] r[i])@ == self.listing()[i].0,
    {
        let n = self.entries.len();
        let mut r: Vec<&str> = Vec::new();
        let mut i: usize = 0;
        while i < n
            invariant
                n == self.entries.len(),
                n == self.listing().len(),
                i <= n,
                r.len() == i,
                forall|j: int| 0 <= j < i ==> (#[trigger] r[j])@ == self.listing()[j].0,
            decreases n - i,
        {
            r.push(self.entries[i].0.as_str());
            i = i + 1;
        }
        r
    }

    /// The entry at index `i` of the listing.
    pub fn entry(&self, i: usize) -> (r: (&str, &str))
        requires
            i < self.listing().len(),
        ensures
            r.0@ == self.listing()[i as int].0,
            r.1@ == self.listing()[i as int].1,
    {
        (self.entries[i].0.as_str(), self.entries[i].1.as_str())
    }

    /// The entries as owned pairs, in ascending key order.
    pub fn as_pairs(&self) -> (r: &Vec<(String, String)>)
        ensures
            r@.map_values(|e: (String, String)| (e.0@, e.1@)) == self.listing(),
    {
        &self.entries
    }

    /// A copy holding the same entries.
    pub fn duplicate(&self) -> (r: StrMap)
        ensures
            r.listing() == self.listing(),
            r@ == self@,
    {
        let n = self.entries.len();
        let mut entries: Vec<(String, String)> = Vec::new();
        let mut i: usize = 0;
        while i < n
            invariant
                n == self.entries.len(),
                i <= n,
                entries.len() == i,
                forall|j: int|
                    0 <= j < i ==> (#[trigger] entries@[j]).0@ == self.entries@[j].0@
                        && entries@[j].1@ == self.entries@[j].1@,
            decreases n - i,
        {
            entries.push((self.entries[i].0.clone(), self.entries[i].1.clone()));
            i = i + 1;
        }
        let r = StrMap { entries };
        assert(r.listing() =~= self.listing());
        r
    }

    /// Inserts every entry of `other`; where both have a key, `other`'s value
    /// wins.
    pub fn extend(&mut self, other: StrMap)
        requires
            old(self).wf(),
            other.wf(),
        ensures
            final(self).wf(),
            final(self)@ == old(self)@.union_prefer_right(other@),
    {
        let ghost goal = old(self)@.union_prefer_right(other@);
        let mut rest = other.entries;
        proof {
            lemma_ascending_distinct(other.listing());
        }
        let ghost rest0 = other.listing();
        assert(rest@.map_values(|e: (String, String)| (e.0@, e.1@)) == rest0);
        while rest.len() > 0
            invariant
                self.wf(),
                keys_distinct(rest@.map_values(|e: (String, String)| (e.0@, e.1@))),
                self@.union_prefer_right(
                    listing_map(rest@.map_values(|e: (String, String)| (e.0@, e.1@))),
                ) == goal,
            decreases rest.len(),
        {
            let ghost before = rest@.map_values(|e: (String, String)| (e.0@, e.1@));
            let ghost cur = self@;
            let (k, v) = rest.pop().unwrap();
            let ghost after = rest@.map_values(|e: (String, String)| (e.0@, e.1@));
            proof {
                assert(after =~= before.drop_last());
                assert(before.last() == (k@, v@));
                lemma_listing_map_drop_last(before);
            }
            self.insert(k, v);
            proof {
                assert(self@.union_prefer_right(listing_map(after)) =~= cur.union_prefer_right(
                    listing_map(before),
                ));
            }
        }
        proof {
            let e = rest@.map_values(|e: (String, String)| (e.0@, e.1@));
            lemma_listing_map_empty(e);
            assert(self@.union_prefer_right(listing_map(e)) =~= self@);
        }
    }

    /// Builds a map by inserting the pairs in turn: where a key occurs twice,
    /// the later pair wins.
    pub fn from_pairs(pairs: Vec<(String, String)>) -> (m: StrMap)
        ensures
            m.wf(),
            m@ == pairs_to_map(pairs@.map_values(|e: (String, String)| (e.0@, e.1@))),
    {
        let ghost all = pairs@.map_values(|e: (String, String)| (e.0@, e.1@));
        let mut rest = pairs;
        let mut m = StrMap::new();
        let ghost mut done: Seq<(Seq<char>, Seq<char>)> = Seq::empty();
        while rest.len() > 0
            invariant
                m.wf(),
                all == rest@.map_values(|e: (String, String)| (e.0@, e.1@)) + done,
                m@ == pairs_to_map(done),
            decreases rest.len(),
        {
            let ghost before = rest@.map_values(|e: (String, String)| (e.0@, e.1@));
            let (k, v) = rest.pop().unwrap();
            let ghost after = rest@.map_values(|e: (String, String)| (e.0@, e.1@));
            let ghost old_m = m@;
            proof {
                assert(after =~= before.drop_last());
                assert(before.last() == (k@, v@));
                assert(before =~= after + seq![(k@, v@)]);
                assert(all =~= after + (seq![(k@, v@)] + done));
                lemma_pairs_to_map_concat(seq![(k@, v@)], done);
                assert(seq![(k@, v@)].drop_last() =~= Seq::<(Seq<char>, Seq<char>)>::empty());
            }
            if !m.contains_key(k.as_str()) {
                m.insert(k, v);
            }
            proof {
                let single = pairs_to_map(seq![(k@, v@)]);
                assert(seq![(k@, v@)].drop_last() =~= Seq::<(Seq<char>, Seq<char>)>::empty());
                assert(pairs_to_map(Seq::<(Seq<char>, Seq<char>)>::empty()) == Map::<
                    Seq<char>,
                    Seq<char>,
                >::empty());
                assert(single =~= Map::<Seq<char>, Seq<char>>::empty().insert(k@, v@));
                assert(m@ =~= single.union_prefer_right(old_m));
                done = seq![(k@, v@)] + done;
            }
        }
        proof {
            assert(rest@.map_values(|e: (String, String)| (e.0@, e.1@)) =~= Seq::<
                (Seq<char>, Seq<char>),
            >::empty());
            assert(all =~= done);
        }
        m
    }
}

impl PartialEq for StrMap {
    fn eq(&self, other: &Self) -> (r: bool) {
        let n = self.entries.len();
        if n != other.entries.len() {
            return false;
        }
        let mut i: usize = 0;
        while i < n
            invariant
                n == self.entries.len(),
                n == other.entries.len(),
                i <= n,
                forall|j: int| 0 <= j < i ==> self.listing()[j] == other.listing()[j],
            decreases n - i,
        {
            if self.entries[i].0 != other.entries[i].0 || self.entries[i].1 != other.entries[i].1 {
                assert(self.listing()[i as int] != other.listing()[i as int]);
                return false;
            }
            i = i + 1;
        }
        assert(self.listing() =~= other.listing());
        true
    }
}

impl vstd::std_specs::cmp::PartialEqSpecImpl for StrMap {
    open spec fn obeys_eq_spec() -> bool {
        true
    }

    open spec fn eq_spec(&self, other: &StrMap) -> bool {
        self.listing() == other.listing()
    }
}

impl StrMap {
    /// Two well-formed maps have equal listings (so compare equal with `==`)
    /// exactly when they hold the same entries.
    pub proof fn lemma_eq_iff_same_entries(&self, other: &StrMap)
        requires
            self.wf(),
            other.wf(),
        ensures
            (self.listing() == other.listing()) <==> (self@ == other@),
    {
        if self@ == other@ {
            lemma_listing_canonical(self.listing(), other.listing());
        }
    }
}

impl View for StrMap {
    type V = Map<Seq<char>, Seq<char>>;

    open spec fn view(&self) -> Map<Seq<char>, Seq<char>> {
        listing_map(self.listing())
    }
}

} // verus!
