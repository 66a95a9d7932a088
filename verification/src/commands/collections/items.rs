//! The items of a collection: listing them, and checking that a list of
//! tokens belongs to one collection.

use crate::batch::outcome::{
    classified_view, group_by_key, groups_of, groups_view, has_group, extra_group_names,
    members_of, membership_holds, partition, successes_of, successes_view, validate_membership,
    ClassificationMismatch,
};
use crate::batch::pool::{results_view, DispatchPolicy, PoolState, TaskSlotPool};
use crate::commands::snapshot::methods::sort_mints;
use crate::outside::encoding::{pretty_json_of_texts, texts_to_pretty_json};
use crate::text::{texts, texts_ascending};
use vstd::prelude::*;

verus! {

/// How many lookups of a collection check run at once.
pub const PARALLEL_LIMIT: usize = 50;

/// Where the items of a collection can be asked for.
#[derive(Debug, Clone, Copy, PartialEq, Eq, Structural)]
pub enum GetCollectionItemsMethods {
    TheIndexIO,
}

/// Why the items of a collection could not be listed.
#[derive(Debug, PartialEq, Eq, Structural, Clone, Copy)]
pub enum CollectionError {
    /// The index asked needs a key, and none was given.
    MissingIndexKey,
    /// The list could not be put into text.
    Serialization,
}

/// The key to ask the index with.  The index is not asked without one.
pub fn index_api_key(method: GetCollectionItemsMethods, api_key: Option<String>) -> (key:
    Result<String, CollectionError>)
    ensures
        match api_key {
            Some(given) => key == Ok::<String, CollectionError>(given),
            None => key == Err::<String, CollectionError>(CollectionError::MissingIndexKey),
        },
{
    match method {
        GetCollectionItemsMethods::TheIndexIO => match api_key {
            Some(given) => Ok(given),
            None => Err(CollectionError::MissingIndexKey),
        },
    }
}

/// The list of a collection's items as text: the mints in ascending order,
/// as a JSON array, pretty-printed.
pub fn collection_items_text(mints: Vec<String>) -> (listed: Result<
    String,
    CollectionError,
>)
    ensures
        listed is Ok,
        listed matches Ok(text) ==> exists|sorted: Seq<Seq<char>>|
            {
                &&& sorted.to_multiset() == texts(mints@).to_multiset()
                &&& texts_ascending(sorted)
                &&& text@ == #[trigger] pretty_json_of_texts(sorted)
            },
{
    let sorted = sort_mints(mints);
    match texts_to_pretty_json(&sorted) {
        Some(text) => Ok(text),
        None => Err(CollectionError::Serialization),
    }
}

/// The successes of a collection check, each as the token with the
/// collection found for it, if one was found.
pub open spec fn found_collections(results: Seq<(Seq<char>, Result<Option<String>, Seq<char>>)>) -> Seq<
    (Seq<char>, Option<Seq<char>>),
> {
    let successes = successes_of(results);
    Seq::new(
        successes.len(),
        |k: int|
            (
                successes[k].0,
                match successes[k].1 {
                    Some(name) => Some(name@),
                    None => None,
                },
            ),
    )
}

/// The pool for looking up the collection of each token of a list: a
/// fixed number of slots, refilled when more than half of them are free.
pub fn collection_check_pool(mint_list: Vec<String>) -> (pool: TaskSlotPool<Option<String>>)
    ensures
        pool.wf(),
        pool@ == PoolState::<Option<String>>::start(
            DispatchPolicy::WatermarkRefill,
            PARALLEL_LIMIT as nat,
            texts(mint_list@),
        ),
{
    TaskSlotPool::new(mint_list, PARALLEL_LIMIT, DispatchPolicy::WatermarkRefill)
}

/// Checks that every token of a list belongs to the collection
/// `collection_mint` and to no other.  `results` holds, for each token
/// looked up, the collection found for it or why the lookup failed; a token
/// without collection counts for the group "none", a failed lookup for no
/// group.  The check holds where the collection has `mint_list_length`
/// tokens and no other group has any.
pub fn check_collection_items(
    results: Vec<(String, Result<Option<String>, String>)>,
    collection_mint: &str,
    mint_list_length: usize,
) -> (checked: Result<(), ClassificationMismatch>)
    ensures
        checked is Ok <==> membership_holds(
            groups_of(found_collections(results_view(results@))),
            collection_mint@,
            mint_list_length as nat,
        ),
        checked matches Err(mismatch) ==> {
            let groups = groups_of(found_collections(results_view(results@)));
            &&& mismatch.expected_group_missing == !has_group(groups, collection_mint@)
            &&& texts(mismatch.extra_groups@) == extra_group_names(groups, collection_mint@)
            &&& mismatch.classified == members_of(groups, collection_mint@).len()
            &&& mismatch.total == mint_list_length
        },
{
    let (successes, _failures) = partition(results);
    proof {
        assert(classified_view(successes@) =~= found_collections(results_view(results@)));
    }
    let groups = group_by_key(successes);
    validate_membership(&groups, collection_mint, mint_list_length)
}

/// What to tell the operator about a check that did not hold.
pub fn mismatch_message(mismatch: &ClassificationMismatch) -> (message: String)
    ensures
        message@ == if mismatch.expected_group_missing {
            "No mints found for this parent. Run with --debug to see more details."@
        } else {
            "Not all mints from the list belong to this parent. Run with --debug to see more details."@
        },
{
    if mismatch.expected_group_missing {
        String::from_str("No mints found for this parent. Run with --debug to see more details.")
    } else {
        String::from_str(
            "Not all mints from the list belong to this parent. Run with --debug to see more details.",
        )
    }
}

} // verus!
