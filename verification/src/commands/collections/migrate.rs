//! The failure cache of a migration and the errors that fill it.

use crate::outside::ordered_map::{
    cache_entries, entries_insert, keys_ascending, map_clear, map_insert, map_len, map_new,
    map_pairs, map_sort_unstable_keys, map_to_pretty_json, optional_text, pairs_view,
    pretty_json_of,
};
use crate::text::{lemma_text_le_antisymmetric, text_le};
use crate::batch::pool::DispatchPolicy;
use crate::batch::retry::{BatchRun, RunState};
use crate::text::texts;
use indexmap::IndexMap;
use vstd::prelude::*;

verus! {

/// What is recorded for one item: the text of its last failure.
#[derive(Clone, Debug, PartialEq, Eq)]
pub struct CacheItem {
    pub error: Option<String>,
}

/// Why an item could not be migrated.
#[derive(Clone, Debug, PartialEq, Eq)]
pub enum MigrateError {
    /// The item's key, then the reason.
    MigrationFailed(String, String),
}

impl MigrateError {
    /// The key of the item that failed.
    pub open spec fn key(self) -> Seq<char> {
        match self {
            MigrateError::MigrationFailed(key, _) => key@,
        }
    }

    /// Why it failed.
    pub open spec fn reason(self) -> Seq<char> {
        match self {
            MigrateError::MigrationFailed(_, reason) => reason@,
        }
    }

    /// The text that describes the failure.
    pub open spec fn message(self) -> Seq<char> {
        failure_message(self.reason())
    }

    /// The failure as readable text.
    pub fn to_string(&self) -> (text: String)
        ensures
            text@ == self.message(),
    {
        match self {
            MigrateError::MigrationFailed(_, reason) => {
                let mut text = String::from_str("Migration failed with error: ");
                text.append(reason.as_str());
                text
            },
        }
    }
}

/// The text recorded for a failure with the given reason.
pub open spec fn failure_message(reason: Seq<char>) -> Seq<char> {
    "Migration failed with error: "@ + reason
}

/// What errors say, as plain values: item key and reason.
pub open spec fn errors_view(errors: Seq<MigrateError>) -> Seq<(Seq<char>, Seq<char>)> {
    Seq::new(errors.len(), |k: int| (errors[k].key(), errors[k].reason()))
}

/// The cache that failures leave behind when each is inserted in turn into
/// an empty cache: one entry for each item that failed, at the place of its
/// first failure, with the message of its last.
pub open spec fn entries_of_failures(failures: Seq<(Seq<char>, Seq<char>)>) -> Seq<
    (Seq<char>, Option<Seq<char>>),
>
    decreases failures.len(),
{
    if failures.len() == 0 {
        Seq::empty()
    } else {
        entries_insert(
            entries_of_failures(failures.drop_last()),
            failures.last().0,
            Some(failure_message(failures.last().1)),
        )
    }
}

/// The cache that pairs of key and error text leave behind when each is
/// inserted in turn into an empty cache.
pub open spec fn entries_of_pairs(pairs: Seq<(Seq<char>, Option<Seq<char>>)>) -> Seq<
    (Seq<char>, Option<Seq<char>>),
>
    decreases pairs.len(),
{
    if pairs.len() == 0 {
        Seq::empty()
    } else {
        entries_insert(entries_of_pairs(pairs.drop_last()), pairs.last().0, pairs.last().1)
    }
}

/// No two entries share a key.
pub open spec fn distinct_keys(entries: Seq<(Seq<char>, Option<Seq<char>>)>) -> bool {
    forall|i: int, j: int|
        0 <= i < j < entries.len() ==> #[trigger] entries[i].0 != #[trigger] entries[j].0
}

/// The keys of the entries, in order.
pub open spec fn entry_keys(entries: Seq<(Seq<char>, Option<Seq<char>>)>) -> Seq<Seq<char>> {
    Seq::new(entries.len(), |i: int| entries[i].0)
}

/// Inserting keeps the keys distinct, keeps the other entries, and leaves the
/// key present with the new value.
pub proof fn lemma_entries_insert(
    entries: Seq<(Seq<char>, Option<Seq<char>>)>,
    key: Seq<char>,
    value: Option<Seq<char>>,
)
    requires
        distinct_keys(entries),
    ensures
        distinct_keys(entries_insert(entries, key, value)),
        entries_insert(entries, key, value).len() >= 1,
        entries_insert(entries, key, value).len() <= entries.len() + 1,
        entries_insert(entries, key, value).len() >= entries.len(),
        forall|i: int|
            0 <= i < entries_insert(entries, key, value).len() ==> {
                let after = #[trigger] entries_insert(entries, key, value)[i];
                after == (key, value) || (i < entries.len() && after == entries[i] && after.0 != key)
            },
        exists|i: int|
            0 <= i < entries_insert(entries, key, value).len() && entries_insert(
                entries,
                key,
                value,
            )[i] == (key, value),
    decreases entries.len(),
{
    let after = entries_insert(entries, key, value);
    if entries.len() == 0 {
        assert(after[0] == (key, value));
    } else if entries[0].0 == key {
        assert(after[0] == (key, value));
        assert forall|i: int, j: int| 0 <= i < j < after.len() implies after[i].0 != after[j].0 by {
            assert(after[j] == entries[j]);
            assert(entries[0].0 != entries[j].0);
            if i > 0 {
                assert(after[i] == entries[i]);
            }
        }
        assert forall|i: int| 0 <= i < after.len() implies (after[i] == (key, value) || (i
            < entries.len() && after[i] == entries[i] && after[i].0 != key)) by {
            if i > 0 {
                assert(after[i] == entries[i]);
                assert(entries[0].0 != entries[i].0);
            }
        }
    } else {
        let rest = entries.drop_first();
        assert(distinct_keys(rest)) by {
            assert forall|i: int, j: int| 0 <= i < j < rest.len() implies rest[i].0 != rest[j].0 by {
                assert(rest[i] == entries[i + 1]);
                assert(rest[j] == entries[j + 1]);
            }
        }
        lemma_entries_insert(rest, key, value);
        let tail = entries_insert(rest, key, value);
        assert(after == seq![entries[0]] + tail);
        assert forall|i: int| 0 <= i < after.len() implies (after[i] == (key, value) || (i
            < entries.len() && after[i] == entries[i] && after[i].0 != key)) by {
            if i > 0 {
                assert(after[i] == tail[i - 1]);
                if tail[i - 1] != (key, value) {
                    assert(rest[i - 1] == entries[i]);
                }
            }
        }
        assert forall|i: int, j: int| 0 <= i < j < after.len() implies after[i].0 != after[j].0 by {
            assert(after[j] == tail[j - 1]);
            if i > 0 {
                assert(after[i] == tail[i - 1]);
            } else {
                if tail[j - 1] != (key, value) {
                    assert(rest[j - 1] == entries[j]);
                    assert(entries[0].0 != entries[j].0);
                }
            }
        }
        let k = choose|k: int| 0 <= k < tail.len() && tail[k] == (key, value);
        assert(after[k + 1] == (key, value));
    }
}

/// The cache left by failures has distinct keys, no more entries than there
/// were failures, and at least one entry where there was a failure.
pub proof fn lemma_entries_of_failures(failures: Seq<(Seq<char>, Seq<char>)>)
    ensures
        distinct_keys(entries_of_failures(failures)),
        entries_of_failures(failures).len() <= failures.len(),
        failures.len() > 0 ==> entries_of_failures(failures).len() > 0,
    decreases failures.len(),
{
    if failures.len() > 0 {
        lemma_entries_of_failures(failures.drop_last());
        lemma_entries_insert(
            entries_of_failures(failures.drop_last()),
            failures.last().0,
            Some(failure_message(failures.last().1)),
        );
    }
}

/// Entries that are the entries of a cache in another order have distinct
/// keys as well.
pub proof fn lemma_same_entries_distinct(
    entries: Seq<(Seq<char>, Option<Seq<char>>)>,
    reordered: Seq<(Seq<char>, Option<Seq<char>>)>,
)
    requires
        distinct_keys(entries),
        reordered.to_multiset() == entries.to_multiset(),
    ensures
        distinct_keys(reordered),
        reordered.len() == entries.len(),
{
    broadcast use vstd::seq_lib::group_to_multiset_ensures;

    assert(entries.no_duplicates()) by {
        assert forall|i: int, j: int|
            0 <= i < entries.len() && 0 <= j < entries.len() && i != j implies entries[i]
            != entries[j] by {
            if i < j {
                assert(entries[i].0 != entries[j].0);
            } else {
                assert(entries[j].0 != entries[i].0);
            }
        }
    }
    entries.lemma_multiset_has_no_duplicates();
    reordered.lemma_multiset_has_no_duplicates_conv();
    vstd::seq_lib::to_multiset_len(entries);
    vstd::seq_lib::to_multiset_len(reordered);
    assert forall|i: int, j: int| 0 <= i < j < reordered.len() implies #[trigger] reordered[i].0
        != #[trigger] reordered[j].0 by {
        assert(reordered.contains(reordered[i]));
        assert(reordered.contains(reordered[j]));
        vstd::seq_lib::to_multiset_contains(reordered, reordered[i]);
        vstd::seq_lib::to_multiset_contains(reordered, reordered[j]);
        vstd::seq_lib::to_multiset_contains(entries, reordered[i]);
        vstd::seq_lib::to_multiset_contains(entries, reordered[j]);
        assert(entries.contains(reordered[i]));
        assert(entries.contains(reordered[j]));
        let p = choose|p: int| 0 <= p < entries.len() && entries[p] == reordered[i];
        let q = choose|q: int| 0 <= q < entries.len() && entries[q] == reordered[j];
        assert(reordered[i] != reordered[j]);
        if p < q {
            assert(entries[p].0 != entries[q].0);
        } else if q < p {
            assert(entries[q].0 != entries[p].0);
        }
    }
}

/// There is one way only to put the entries of a cache in the order of
/// their keys.
pub proof fn lemma_sorted_entries_unique(
    first: Seq<(Seq<char>, Option<Seq<char>>)>,
    second: Seq<(Seq<char>, Option<Seq<char>>)>,
)
    requires
        distinct_keys(first),
        keys_ascending(first),
        keys_ascending(second),
        first.to_multiset() == second.to_multiset(),
    ensures
        first == second,
    decreases first.len(),
{
    broadcast use vstd::seq_lib::group_to_multiset_ensures;

    lemma_same_entries_distinct(first, second);
    if first.len() == 0 {
        assert(first =~= second);
    } else {
        assert(first.contains(first[0]));
        assert(second.contains(second[0]));
        vstd::seq_lib::to_multiset_contains(first, first[0]);
        vstd::seq_lib::to_multiset_contains(second, first[0]);
        vstd::seq_lib::to_multiset_contains(second, second[0]);
        vstd::seq_lib::to_multiset_contains(first, second[0]);
        assert(second.contains(first[0]));
        assert(first.contains(second[0]));
        let i = choose|i: int| 0 <= i < first.len() && first[i] == second[0];
        let j = choose|j: int| 0 <= j < second.len() && second[j] == first[0];
        if i > 0 {
            assert(text_le(first[0].0, first[i].0));
            if j > 0 {
                assert(text_le(second[0].0, second[j].0));
            } else {
                crate::text::lemma_text_le_reflexive(second[0].0);
            }
            lemma_text_le_antisymmetric(first[0].0, first[i].0);
            assert(first[0].0 != first[i].0);
        }
        assert(first[0] == second[0]);
        let rest_first = first.drop_first();
        let rest_second = second.drop_first();
        assert(rest_first =~= first.remove(0));
        assert(rest_second =~= second.remove(0));
        assert(rest_first.to_multiset() == rest_second.to_multiset());
        assert(distinct_keys(rest_first)) by {
            assert forall|a: int, b: int| 0 <= a < b < rest_first.len() implies
                #[trigger] rest_first[a].0 != #[trigger] rest_first[b].0 by {
                assert(rest_first[a] == first[a + 1]);
                assert(rest_first[b] == first[b + 1]);
            }
        }
        assert(keys_ascending(rest_first)) by {
            assert forall|a: int, b: int| 0 <= a < b < rest_first.len() implies text_le(
                #[trigger] rest_first[a].0,
                #[trigger] rest_first[b].0,
            ) by {
                assert(rest_first[a] == first[a + 1]);
                assert(rest_first[b] == first[b + 1]);
            }
        }
        assert(keys_ascending(rest_second)) by {
            assert forall|a: int, b: int| 0 <= a < b < rest_second.len() implies text_le(
                #[trigger] rest_second[a].0,
                #[trigger] rest_second[b].0,
            ) by {
                assert(rest_second[a] == second[a + 1]);
                assert(rest_second[b] == second[b + 1]);
            }
        }
        lemma_sorted_entries_unique(rest_first, rest_second);
        assert(first =~= seq![first[0]] + rest_first);
        assert(second =~= seq![second[0]] + rest_second);
    }
}

/// Writing is stable.  Put the entries of a cache in the order of their
/// keys, as writing does, and then do so once more: the second time nothing
/// moves, so the text written is the same.
pub proof fn lemma_rewrite_is_stable(
    entries: Seq<(Seq<char>, Option<Seq<char>>)>,
    first: Seq<(Seq<char>, Option<Seq<char>>)>,
    second: Seq<(Seq<char>, Option<Seq<char>>)>,
    field: Seq<char>,
)
    requires
        distinct_keys(entries),
        keys_ascending(first),
        first.to_multiset() == entries.to_multiset(),
        keys_ascending(second),
        second.to_multiset() == first.to_multiset(),
    ensures
        second == first,
        pretty_json_of(second, field) == pretty_json_of(first, field),
{
    lemma_same_entries_distinct(entries, first);
    lemma_sorted_entries_unique(first, second);
}

/// Inserting under a key that is not there adds the pair at the end.
pub proof fn lemma_entries_insert_absent(
    entries: Seq<(Seq<char>, Option<Seq<char>>)>,
    key: Seq<char>,
    value: Option<Seq<char>>,
)
    requires
        forall|i: int| 0 <= i < entries.len() ==> (#[trigger] entries[i]).0 != key,
    ensures
        entries_insert(entries, key, value) == entries.push((key, value)),
    decreases entries.len(),
{
    if entries.len() == 0 {
        assert(entries_insert(entries, key, value) =~= entries.push((key, value)));
    } else {
        assert(entries[0].0 != key);
        let rest = entries.drop_first();
        assert forall|i: int| 0 <= i < rest.len() implies (#[trigger] rest[i]).0 != key by {
            assert(rest[i] == entries[i + 1]);
        }
        lemma_entries_insert_absent(rest, key, value);
        assert(entries_insert(entries, key, value) =~= entries.push((key, value)));
    }
}

/// A cache built from the entries of a cache, in their order, has these
/// entries in this order.
pub proof fn lemma_entries_of_own_pairs(entries: Seq<(Seq<char>, Option<Seq<char>>)>)
    requires
        distinct_keys(entries),
    ensures
        entries_of_pairs(entries) == entries,
    decreases entries.len(),
{
    if entries.len() > 0 {
        let shorter = entries.drop_last();
        assert(distinct_keys(shorter)) by {
            assert forall|i: int, j: int| 0 <= i < j < shorter.len() implies
                #[trigger] shorter[i].0 != #[trigger] shorter[j].0 by {
                assert(shorter[i] == entries[i]);
                assert(shorter[j] == entries[j]);
            }
        }
        lemma_entries_of_own_pairs(shorter);
        let last = entries.len() - 1;
        assert forall|i: int| 0 <= i < shorter.len() implies (#[trigger] shorter[i]).0
            != entries.last().0 by {
            assert(shorter[i] == entries[i]);
            assert(entries[i].0 != entries[last].0);
        }
        lemma_entries_insert_absent(shorter, entries.last().0, entries.last().1);
        assert(shorter.push(entries.last()) =~= entries);
    } else {
        assert(entries_of_pairs(entries) =~= entries);
    }
}

/// Reloading is stable.  Write a cache, build a cache from the entries that
/// were written, in their order, and write that: the text is the same as
/// the first.
pub proof fn lemma_reload_is_stable(
    entries: Seq<(Seq<char>, Option<Seq<char>>)>,
    first: Seq<(Seq<char>, Option<Seq<char>>)>,
    second: Seq<(Seq<char>, Option<Seq<char>>)>,
    field: Seq<char>,
)
    requires
        distinct_keys(entries),
        keys_ascending(first),
        first.to_multiset() == entries.to_multiset(),
        keys_ascending(second),
        second.to_multiset() == entries_of_pairs(first).to_multiset(),
    ensures
        entries_of_pairs(first) == first,
        second == first,
        pretty_json_of(second, field) == pretty_json_of(first, field),
{
    lemma_same_entries_distinct(entries, first);
    lemma_entries_of_own_pairs(first);
    lemma_sorted_entries_unique(first, second);
}

/// Why a cache could not be written.
#[derive(Clone, Copy, Debug, PartialEq, Eq, Structural)]
pub enum CacheError {
    /// The entries could not be put into text.
    Serialization,
}

/// The failures of the latest round, by item key, in the order in which the
/// keys first failed.
pub struct MigrateCache(IndexMap<String, CacheItem>);

impl View for MigrateCache {
    type V = Seq<(Seq<char>, Option<Seq<char>>)>;

    closed spec fn view(&self) -> Seq<(Seq<char>, Option<Seq<char>>)> {
        cache_entries(self.0)
    }
}

impl MigrateCache {
    /// The cache is usable: no key occurs twice.
    pub open spec fn wf(&self) -> bool {
        distinct_keys(self@)
    }

    /// An empty cache.
    pub fn new() -> (cache: Self)
        ensures
            cache.wf(),
            cache@ == Seq::<(Seq<char>, Option<Seq<char>>)>::empty(),
    {
        MigrateCache(map_new())
    }

    /// The number of items recorded.
    pub fn len(&self) -> (len: usize)
        ensures
            len == self@.len(),
    {
        map_len(&self.0)
    }

    /// Whether nothing is recorded.
    pub fn is_empty(&self) -> (empty: bool)
        ensures
            empty == (self@.len() == 0),
    {
        map_len(&self.0) == 0
    }

    /// Forgets every entry.
    pub fn clear(&mut self)
        ensures
            final(self).wf(),
            final(self)@ == Seq::<(Seq<char>, Option<Seq<char>>)>::empty(),
    {
        map_clear(&mut self.0);
    }

    /// Records `item` under `key`.  A key that is already present keeps its
    /// place and takes the new item.
    pub fn insert(&mut self, key: String, item: CacheItem)
        requires
            old(self).wf(),
        ensures
            final(self).wf(),
            final(self)@ == entries_insert(old(self)@, key@, optional_text(item.error)),
    {
        proof {
            lemma_entries_insert(self@, key@, optional_text(item.error));
        }
        map_insert(&mut self.0, key, item);
    }

    /// Replaces the whole content by the given failures: what was recorded
    /// before is dropped, and each failure is then recorded under its item's
    /// key with its message.  Of two failures of one item the later message
    /// stays, at the place of the first.
    pub fn update_errors(&mut self, errors: Vec<MigrateError>)
        ensures
            final(self).wf(),
            final(self)@ == entries_of_failures(errors_view(errors@)),
    {
        map_clear(&mut self.0);
        let ghost all = errors@;
        let ghost plain = errors_view(all);
        for error in it: errors
            invariant
                it.seq() == all,
                plain == errors_view(all),
                self.wf(),
                self@ == entries_of_failures(plain.take(it.index() as int)),
        {
            proof {
                let upto = plain.take(it.index() + 1);
                assert(upto.drop_last() == plain.take(it.index() as int));
                assert(upto.last() == (error.key(), error.reason()));
            }
            let text = error.to_string();
            match error {
                MigrateError::MigrationFailed(key, _) => {
                    self.insert(key, CacheItem { error: Some(text) });
                },
            }
        }
        proof {
            assert(plain.take(all.len() as int) == plain);
        }
    }

    /// Puts the entries in the order of their keys and gives the text to
    /// store: a JSON object with one member for each item, its value an
    /// object whose member "error" is the error text or null, pretty-printed.
    /// Every cache can be written.
    pub fn write(&mut self) -> (written: Result<String, CacheError>)
        requires
            old(self).wf(),
        ensures
            final(self).wf(),
            keys_ascending(final(self)@),
            final(self)@.to_multiset() == old(self)@.to_multiset(),
            written is Ok,
            written matches Ok(text) ==> text@ == pretty_json_of(final(self)@, "error"@),
    {
        let ghost before = self@;
        map_sort_unstable_keys(&mut self.0);
        proof {
            lemma_same_entries_distinct(before, self@);
        }
        match map_to_pretty_json(&self.0, "error") {
            Ok(text) => Ok(text),
            Err(_) => Err(CacheError::Serialization),
        }
    }

    /// A cache with the given entries, each inserted in turn.
    pub fn from_entries(entries: Vec<(String, Option<String>)>) -> (cache: Self)
        ensures
            cache.wf(),
            cache@ == entries_of_pairs(pairs_view(entries@)),
    {
        let mut cache = MigrateCache::new();
        let ghost all = entries@;
        let ghost plain = pairs_view(all);
        for entry in it: entries
            invariant
                it.seq() == all,
                plain == pairs_view(all),
                cache.wf(),
                cache@ == entries_of_pairs(plain.take(it.index() as int)),
        {
            proof {
                let upto = plain.take(it.index() + 1);
                assert(upto.drop_last() == plain.take(it.index() as int));
                assert(upto.last() == (entry.0@, optional_text(entry.1)));
            }
            let (key, error) = entry;
            cache.insert(key, CacheItem { error });
        }
        proof {
            assert(plain.take(all.len() as int) == plain);
        }
        cache
    }

    /// The entries in the cache's order, each as the item's key with the
    /// error text recorded for it.
    pub fn entries(&self) -> (entries: Vec<(String, Option<String>)>)
        ensures
            pairs_view(entries@) == self@,
    {
        map_pairs(&self.0)
    }

    /// The keys of the recorded items, in the cache's order.
    pub fn keys(&self) -> (keys: Vec<String>)
        ensures
            keys@.len() == self@.len(),
            forall|i: int| 0 <= i < self@.len() ==> (#[trigger] keys@[i])@ == self@[i].0,
    {
        let pairs = map_pairs(&self.0);
        let mut keys: Vec<String> = Vec::new();
        let ghost all = pairs@;
        proof {
            assert(pairs_view(all).len() == all.len());
        }
        for pair in it: pairs
            invariant
                it.seq() == all,
                pairs_view(all) == self@,
                keys@.len() == it.index(),
                forall|i: int| 0 <= i < it.index() ==> (#[trigger] keys@[i])@ == self@[i].0,
        {
            proof {
                assert(pairs_view(all)[it.index() as int] == (pair.0@, optional_text(pair.1)));
            }
            keys.push(pair.0);
        }
        keys
    }
}

/// What the operator gives to move tokens into a collection.
#[derive(Clone, Debug, PartialEq, Eq)]
pub struct MigrateArgs {
    pub keypair: Option<String>,
    pub mint_address: String,
    pub candy_machine_id: Option<String>,
    pub mint_list: Option<Vec<String>>,
    pub retries: u8,
    pub batch_size: usize,
}

/// Where the tokens to migrate come from.
#[derive(Clone, Debug, PartialEq, Eq)]
pub enum MintSource {
    /// The tokens that a candy machine has made.
    CandyMachine(String),
    /// The tokens of a list.
    MintList(Vec<String>),
}

/// Why the operator's choice of tokens is refused.
#[derive(Debug, PartialEq, Eq, Structural, Clone, Copy)]
pub enum MigrateArgsError {
    /// Both a candy machine and a list were named.
    BothSources,
    /// Neither a candy machine nor a list was named.
    NoSource,
}

/// Where the tokens to migrate come from: the candy machine or the list,
/// whichever the operator named.  Naming both is refused, and so is naming
/// neither.
pub fn mint_source(candy_machine_id: Option<String>, mint_list: Option<Vec<String>>) -> (source:
    Result<MintSource, MigrateArgsError>)
    ensures
        match (candy_machine_id, mint_list) {
            (Some(_), Some(_)) => source matches Err(e) && e == MigrateArgsError::BothSources,
            (Some(id), None) => source matches Ok(MintSource::CandyMachine(c)) && c == id,
            (None, Some(list)) => source matches Ok(MintSource::MintList(l)) && l == list,
            (None, None) => source matches Err(e) && e == MigrateArgsError::NoSource,
        },
{
    match candy_machine_id {
        Some(id) => match mint_list {
            Some(_) => Err(MigrateArgsError::BothSources),
            None => Ok(MintSource::CandyMachine(id)),
        },
        None => match mint_list {
            Some(list) => Ok(MintSource::MintList(list)),
            None => Err(MigrateArgsError::NoSource),
        },
    }
}

/// The run that migrates the given tokens: one slot is taken for each
/// token before it starts, as many slots as the operator's batch size, and
/// as many retries as the operator allows.
pub fn migration_run(mint_accounts: Vec<String>, args: &MigrateArgs) -> (run: BatchRun<()>)
    ensures
        run.wf(),
        run@ == RunState::<()>::start(
            DispatchPolicy::StrictSemaphore,
            args.batch_size as nat,
            texts(mint_accounts@),
            args.retries as nat,
        ),
{
    BatchRun::new(mint_accounts, args.batch_size, args.retries, DispatchPolicy::StrictSemaphore)
}

} // verus!
