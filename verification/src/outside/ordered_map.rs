//! The insertion-ordered map that backs the failure cache.
//!
//! Nothing in this file is proved.  Each function states what the map's own
//! documentation and source say of one of its methods, over the sequence of
//! entries that the map holds.

use crate::commands::collections::migrate::CacheItem;
use crate::text::text_le;
use indexmap::IndexMap;
use std::collections::BTreeMap;
use vstd::prelude::*;

verus! {

/// `indexmap::IndexMap`, taken as it is: nothing is said of what it is made
/// of.
#[verifier::external_type_specification]
#[verifier::external_body]
#[verifier::reject_recursive_types(K)]
#[verifier::reject_recursive_types(V)]
#[verifier::reject_recursive_types(S)]
pub struct ExIndexMap<K, V, S>(IndexMap<K, V, S>);

/// The entries of a map in the map's own order: each key with the error text
/// stored under it.
pub uninterp spec fn cache_entries(map: IndexMap<String, CacheItem>) -> Seq<(Seq<char>, Option<Seq<char>>)>;

/// What an optional string holds.
pub open spec fn optional_text(text: Option<String>) -> Option<Seq<char>> {
    match text {
        Some(t) => Some(t@),
        None => None,
    }
}

/// The entries after `key` has been inserted with `value`: an entry with that
/// key keeps its place and takes the new value, otherwise the pair is added
/// at the end.
pub open spec fn entries_insert(
    entries: Seq<(Seq<char>, Option<Seq<char>>)>,
    key: Seq<char>,
    value: Option<Seq<char>>,
) -> Seq<(Seq<char>, Option<Seq<char>>)>
    decreases entries.len(),
{
    if entries.len() == 0 {
        seq![(key, value)]
    } else if entries[0].0 == key {
        seq![(key, value)] + entries.drop_first()
    } else {
        seq![entries[0]] + entries_insert(entries.drop_first(), key, value)
    }
}

/// No key comes after a greater one.
pub open spec fn keys_ascending(entries: Seq<(Seq<char>, Option<Seq<char>>)>) -> bool {
    forall|i: int, j: int|
        0 <= i < j < entries.len() ==> text_le(#[trigger] entries[i].0, #[trigger] entries[j].0)
}

/// What a vector of owned pairs holds.
pub open spec fn pairs_view(pairs: Seq<(String, Option<String>)>) -> Seq<(Seq<char>, Option<Seq<char>>)> {
    Seq::new(pairs.len(), |i: int| (pairs[i].0@, optional_text(pairs[i].1)))
}

/// `IndexMap::new`: a map without entries.
#[verifier::external_body]
pub(crate) fn map_new() -> (map: IndexMap<String, CacheItem>)
    ensures
        cache_entries(map) == Seq::<(Seq<char>, Option<Seq<char>>)>::empty(),
{
    IndexMap::new()
}

/// `IndexMap::len`: the number of entries.
#[verifier::external_body]
pub(crate) fn map_len(map: &IndexMap<String, CacheItem>) -> (len: usize)
    ensures
        len == cache_entries(*map).len(),
{
    map.len()
}

/// `IndexMap::clear`: every entry is removed.
#[verifier::external_body]
pub(crate) fn map_clear(map: &mut IndexMap<String, CacheItem>)
    ensures
        cache_entries(*final(map)) == Seq::<(Seq<char>, Option<Seq<char>>)>::empty(),
{
    map.clear()
}

/// `IndexMap::insert`: where the key is present it stays in its place and
/// takes the new value; where it is not, the pair becomes the last entry.
/// The value that was replaced is dropped.
#[verifier::external_body]
pub(crate) fn map_insert(map: &mut IndexMap<String, CacheItem>, key: String, item: CacheItem)
    ensures
        cache_entries(*final(map)) == entries_insert(
            cache_entries(*old(map)),
            key@,
            optional_text(item.error),
        ),
{
    map.insert(key, item);
}

/// `IndexMap::sort_unstable_keys`: the same entries, ordered by their keys as
/// `String` orders them.
#[verifier::external_body]
pub(crate) fn map_sort_unstable_keys(map: &mut IndexMap<String, CacheItem>)
    ensures
        cache_entries(*final(map)).to_multiset() == cache_entries(*old(map)).to_multiset(),
        keys_ascending(cache_entries(*final(map))),
{
    map.sort_unstable_keys()
}

/// `IndexMap::iter`: the entries in the map's order, each copied out as a
/// pair of key and error text.
#[verifier::external_body]
pub(crate) fn map_pairs(map: &IndexMap<String, CacheItem>) -> (pairs: Vec<(String, Option<String>)>)
    ensures
        pairs_view(pairs@) == cache_entries(*map),
{
    map.iter().map(|(key, item)| (key.clone(), item.error.clone())).collect()
}

/// `serde_json::Error`, taken as it is.
#[verifier::external_type_specification]
#[verifier::external_body]
pub struct ExJsonError(serde_json::Error);

/// The text that `serde_json` prints, in its pretty form, for the object
/// whose members are the entries in their order, the value of each an
/// object with the one member `field`: the error text, or null.
pub uninterp spec fn pretty_json_of(entries: Seq<(Seq<char>, Option<Seq<char>>)>, field: Seq<char>) -> Seq<char>;

/// `serde_json::to_string_pretty`, on the entries of the map in the map's
/// order, each shaped as an object with the one member `field`.  The
/// printer writes into memory and fails only where a value refuses to be
/// written or a key is not a string; keys here are strings and values are
/// strings or nothing, so the text always comes.
#[verifier::external_body]
pub(crate) fn map_to_pretty_json(map: &IndexMap<String, CacheItem>, field: &str) -> (text: Result<
    String,
    serde_json::Error,
>)
    ensures
        text is Ok,
        text matches Ok(t) ==> t@ == pretty_json_of(cache_entries(*map), field@),
{
    let shaped: IndexMap<&str, BTreeMap<&str, &Option<String>>> = map.iter().map(
        |(key, item)| (key.as_str(), BTreeMap::from([(field, &item.error)])),
    ).collect();
    serde_json::to_string_pretty(&shaped)
}

} // verus!
