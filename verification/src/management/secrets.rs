//! Secrets store for persisting API keys and other sensitive configuration.
//!
//! Secrets are stored as a flat key-value map and serialized to/from a JSON
//! object of string members. The store intentionally exposes values when
//! serialized; `SecretsStore::keys` surfaces key names only.

use std::collections::BTreeMap;
use vstd::prelude::*;
use crate::string_map::{keys_ascending, lemma_pairs_to_map_distinct, listing_has, pairs_to_map, StrMap};
use crate::text_order::text_lt;

verus! {

/// Filename used to persist secrets alongside `playlist.json`.
pub const SECRETS_FILENAME: &'static str = "secrets.json";

/// Why a conversion between a store and JSON text failed, with the error
/// that `serde_json` reported (its message and position).
#[derive(Debug)]
pub enum SecretsError {
    /// The JSON writer reported an error.
    Serialize(serde_json::Error),
    /// The text is not a JSON object whose members all have string values.
    Parse(serde_json::Error),
}

#[verifier::external_type_specification]
#[verifier::external_body]
pub struct ExJsonError(serde_json::Error);

/// The text that `serde_json::to_string_pretty` writes for a
/// `BTreeMap<String, String>` holding these (key, value) pairs.
pub uninterp spec fn pretty_json_object(entries: Seq<(Seq<char>, Seq<char>)>) -> Seq<char>;

/// The members, in ascending key order, of the `BTreeMap<String, String>`
/// that `serde_json::from_str` reads from this text; `None` where it reports
/// an error.
pub uninterp spec fn parsed_json_object(text: Seq<char>) -> Option<Seq<(Seq<char>, Seq<char>)>>;

/// The store that a JSON text stands for, if it is a JSON object of string
/// members: where a key occurs twice, the later member wins.
pub open spec fn json_store(text: Seq<char>) -> Option<Map<Seq<char>, Seq<char>>> {
    match parsed_json_object(text) {
        Some(entries) => Some(pairs_to_map(entries)),
        None => None,
    }
}

/// Calls `serde_json::to_string_pretty` on a `BTreeMap` built from the pairs.
/// The contract claims: the call succeeds (a map with `String` keys and
/// `String` values is written into a `Vec<u8>`, and neither that writer nor
/// the serializer of string keys and string values reports an error); the
/// text is the one that function writes for these pairs; and when the keys
/// ascend strictly (so the map holds the pairs in the same order)
/// `serde_json::from_str` reads the same pairs back.
#[verifier::external_body]
fn json_object_text(entries: &Vec<(String, String)>) -> (r: Result<String, serde_json::Error>)
    ensures
        r is Ok,
        r matches Ok(text) ==> text@ == pretty_json_object(
            entries@.map_values(|e: (String, String)| (e.0@, e.1@)),
        ),
        r matches Ok(text) ==> (keys_ascending(entries@.map_values(|e: (String, String)| (e.0@, e.1@)))
            ==> parsed_json_object(text@) == Some(
            entries@.map_values(|e: (String, String)| (e.0@, e.1@)),
        )),
{
    let map: BTreeMap<String, String> = entries.iter().cloned().collect();
    serde_json::to_string_pretty(&map)
}

/// Calls `serde_json::from_str` into a `BTreeMap<String, String>` and hands
/// back its members in iteration (ascending key) order. The contract claims
/// only that the outcome is the named function of the text.
#[verifier::external_body]
fn json_object_entries(text: &str) -> (r: Result<Vec<(String, String)>, serde_json::Error>)
    ensures
        match r {
            Ok(v) => parsed_json_object(text@) == Some(
                v@.map_values(|e: (String, String)| (e.0@, e.1@)),
            ),
            Err(_) => parsed_json_object(text@) is None,
        },
{
    let map: BTreeMap<String, String> = serde_json::from_str(text)?;
    Ok(map.into_iter().collect())
}

/// A flat key-value store for slide secrets such as API keys.
///
/// Serializes to/from a plain JSON object: `{"KEY": "value", ...}`.
#[derive(Clone, Debug)]
pub struct SecretsStore(pub StrMap);

impl View for SecretsStore {
    type V = Map<Seq<char>, Seq<char>>;

    open spec fn view(&self) -> Map<Seq<char>, Seq<char>> {
        self.0@
    }
}

impl SecretsStore {
    /// Well-formedness: that of the underlying map.
    pub open spec fn wf(&self) -> bool {
        self.0.wf()
    }

    /// Serialize the store to a JSON string. This never fails.
    pub fn to_json(&self) -> (r: Result<String, SecretsError>)
        requires
            self.wf(),
        ensures
            r is Ok,
            r matches Ok(text) ==> text@ == pretty_json_object(self.0.listing()),
            r matches Ok(text) ==> json_store(text@) == Some(self@),
    {
        let pairs = self.0.as_pairs();
        match json_object_text(pairs) {
            Ok(text) => {
                proof {
                    crate::string_map::lemma_ascending_distinct(self.0.listing());
                    lemma_pairs_to_map_distinct(self.0.listing());
                }
                Ok(text)
            },
            Err(e) => Err(SecretsError::Serialize(e)),
        }
    }

    /// Deserialize a store from a JSON string.
    pub fn from_json(s: &str) -> (r: Result<SecretsStore, SecretsError>)
        ensures
            r is Ok <==> json_store(s@) is Some,
            r matches Ok(store) ==> store.wf() && json_store(s@) == Some(store@),
            r matches Err(e) ==> e is Parse,
    {
        match json_object_entries(s) {
            Ok(pairs) => Ok(SecretsStore::from_pairs(pairs)),
            Err(e) => Err(SecretsError::Parse(e)),
        }
    }

    /// A store holding the pairs; where a key occurs twice, the later pair
    /// wins.
    pub fn from_pairs(pairs: Vec<(String, String)>) -> (r: SecretsStore)
        ensures
            r.wf(),
            r@ == pairs_to_map(pairs@.map_values(|e: (String, String)| (e.0@, e.1@))),
    {
        SecretsStore(StrMap::from_pairs(pairs))
    }

    /// Return the key names, in ascending order, without exposing values.
    pub fn keys(&self) -> (r: Vec<&str>)
        requires
            self.wf(),
        ensures
            r.len() == self@.len(),
            forall|i: int, j: int| 0 <= i < j < r.len() ==> text_lt(r[i]@, r[j]@),
            forall|k: Seq<char>|
                self@.contains_key(k) <==> exists|i: int| 0 <= i < r.len() && (#[trigger] r[i])@ == k,
    {
        let r = self.0.keys();
        proof {
            self.0.lemma_wf();
            assert forall|k: Seq<char>| self@.contains_key(k) <==> exists|i: int|
                0 <= i < r.len() && (#[trigger] r[i])@ == k by {
                if self@.contains_key(k) {
                    let i = choose|i: int|
                        0 <= i < self.0.listing().len() && self.0.listing()[i].0 == k;
                    assert(r[i]@ == k);
                }
                if exists|i: int| 0 <= i < r.len() && (#[trigger] r[i])@ == k {
                    let i = choose|i: int| 0 <= i < r.len() && (#[trigger] r[i])@ == k;
                    assert(listing_has(self.0.listing(), k));
                }
            }
        }
        r
    }

    /// Merge another store into this one, overwriting any conflicting keys.
    pub fn merge(&mut self, other: SecretsStore)
        requires
            old(self).wf(),
            other.wf(),
        ensures
            final(self).wf(),
            final(self)@ == old(self)@.union_prefer_right(other@),
    {
        self.0.extend(other.0);
    }

    /// Returns `true` if the store contains no entries.
    pub fn is_empty(&self) -> (b: bool)
        requires
            self.wf(),
        ensures
            b <==> self@ == Map::<Seq<char>, Seq<char>>::empty(),
    {
        self.0.is_empty()
    }

    /// Returns the number of entries.
    pub fn len(&self) -> (n: usize)
        requires
            self.wf(),
        ensures
            n == self@.len(),
    {
        self.0.len()
    }
}

impl Default for SecretsStore {
    fn default() -> (r: SecretsStore)
        ensures
            r.wf(),
            r@ == Map::<Seq<char>, Seq<char>>::empty(),
    {
        SecretsStore(StrMap::new())
    }
}

impl PartialEq for SecretsStore {
    fn eq(&self, other: &Self) -> (r: bool) {
        self.0 == other.0
    }
}

impl vstd::std_specs::cmp::PartialEqSpecImpl for SecretsStore {
    open spec fn obeys_eq_spec() -> bool {
        true
    }

    open spec fn eq_spec(&self, other: &SecretsStore) -> bool {
        self.0.listing() == other.0.listing()
    }
}

/// Two well-formed stores compare equal with `==` exactly when they hold the
/// same entries.
pub proof fn lemma_store_eq_iff_same_entries(a: SecretsStore, b: SecretsStore)
    requires
        a.wf(),
        b.wf(),
    ensures
        (a.0.listing() == b.0.listing()) <==> a@ == b@,
{
    a.0.lemma_eq_iff_same_entries(&b.0);
}

} // verus!
