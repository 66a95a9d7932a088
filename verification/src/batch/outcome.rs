//! The aggregator: what came back from a round, split into successes and
//! failures, and successes gathered into groups.

use crate::batch::pool::{outcome_view, results_view, PoolState};
use crate::text::texts;
use vstd::prelude::*;

verus! {

/// The successes among the results, in the order of the results, each as the
/// item's key with the value returned.
pub open spec fn successes_of<V>(results: Seq<(Seq<char>, Result<V, Seq<char>>)>) -> Seq<
    (Seq<char>, V),
>
    decreases results.len(),
{
    if results.len() == 0 {
        Seq::empty()
    } else {
        let before = successes_of(results.drop_last());
        match results.last().1 {
            Ok(value) => before.push((results.last().0, value)),
            Err(_) => before,
        }
    }
}

/// The failures among the results, in the order of the results, each as the
/// item's key with the reason.
pub open spec fn failures_of<V>(results: Seq<(Seq<char>, Result<V, Seq<char>>)>) -> Seq<
    (Seq<char>, Seq<char>),
>
    decreases results.len(),
{
    if results.len() == 0 {
        Seq::empty()
    } else {
        let before = failures_of(results.drop_last());
        match results.last().1 {
            Ok(_) => before,
            Err(reason) => before.push((results.last().0, reason)),
        }
    }
}

/// The item keys of results.
pub open spec fn result_keys<V>(results: Seq<(Seq<char>, Result<V, Seq<char>>)>) -> Seq<Seq<char>> {
    Seq::new(results.len(), |k: int| results[k].0)
}

/// The item keys of successes.
pub open spec fn success_keys<V>(successes: Seq<(Seq<char>, V)>) -> Seq<Seq<char>> {
    Seq::new(successes.len(), |k: int| successes[k].0)
}

/// The item keys of failures.
pub open spec fn failure_keys(failures: Seq<(Seq<char>, Seq<char>)>) -> Seq<Seq<char>> {
    Seq::new(failures.len(), |k: int| failures[k].0)
}

/// What successes hold, as plain values.
pub open spec fn successes_view<V>(successes: Seq<(String, V)>) -> Seq<(Seq<char>, V)> {
    Seq::new(successes.len(), |k: int| (successes[k].0@, successes[k].1))
}

/// What failures hold, as plain values.
pub open spec fn failures_view(failures: Seq<(String, String)>) -> Seq<(Seq<char>, Seq<char>)> {
    Seq::new(failures.len(), |k: int| (failures[k].0@, failures[k].1@))
}

/// Every result is either a success or a failure, and the two parts hold
/// the keys of the results, each as often as it occurs among them.
pub proof fn lemma_partition_complete<V>(results: Seq<(Seq<char>, Result<V, Seq<char>>)>)
    ensures
        successes_of(results).len() + failures_of(results).len() == results.len(),
        success_keys(successes_of(results)).to_multiset().add(
            failure_keys(failures_of(results)).to_multiset(),
        ) == result_keys(results).to_multiset(),
    decreases results.len(),
{
    broadcast use vstd::seq_lib::group_to_multiset_ensures;

    if results.len() == 0 {
        assert(success_keys(successes_of(results)) =~= Seq::empty());
        assert(failure_keys(failures_of(results)) =~= Seq::empty());
        assert(result_keys(results) =~= Seq::empty());
        assert(Seq::<Seq<char>>::empty().to_multiset().add(Seq::<Seq<char>>::empty().to_multiset())
            =~= Seq::<Seq<char>>::empty().to_multiset());
    } else {
        let shorter = results.drop_last();
        lemma_partition_complete(shorter);
        let key = results.last().0;
        assert(result_keys(results) =~= result_keys(shorter).push(key));
        match results.last().1 {
            Ok(value) => {
                assert(success_keys(successes_of(results)) =~= success_keys(
                    successes_of(shorter),
                ).push(key));
                assert(success_keys(successes_of(shorter)).to_multiset().insert(key).add(
                    failure_keys(failures_of(shorter)).to_multiset(),
                ) =~= success_keys(successes_of(shorter)).to_multiset().add(
                    failure_keys(failures_of(shorter)).to_multiset(),
                ).insert(key));
            },
            Err(reason) => {
                assert(failure_keys(failures_of(results)) =~= failure_keys(
                    failures_of(shorter),
                ).push(key));
                assert(success_keys(successes_of(shorter)).to_multiset().add(
                    failure_keys(failures_of(shorter)).to_multiset().insert(key),
                ) =~= success_keys(successes_of(shorter)).to_multiset().add(
                    failure_keys(failures_of(shorter)).to_multiset(),
                ).insert(key));
            },
        }
    }
}

/// Completeness of a round.  When a round is over, its successes and its
/// failures together hold the items of the round, each as often as it was
/// given: no item is dropped and none is counted twice.
pub proof fn lemma_round_complete<V>(pool: PoolState<V>)
    requires
        pool.inv(),
        pool.finished(),
    ensures
        successes_of(pool.results()).len() + failures_of(pool.results()).len()
            == pool.items.len(),
        success_keys(successes_of(pool.results())).to_multiset().add(
            failure_keys(failures_of(pool.results())).to_multiset(),
        ) == pool.items.to_multiset(),
{
    crate::batch::pool::lemma_finished_reports_each_item_once(pool);
    lemma_partition_complete(pool.results());
    assert(result_keys(pool.results()) =~= pool.reported_items());
}

/// Splits results into successes and failures.  Each part keeps the order
/// of the results.
pub fn partition<V>(results: Vec<(String, Result<V, String>)>) -> (parts: (
    Vec<(String, V)>,
    Vec<(String, String)>,
))
    ensures
        successes_view(parts.0@) == successes_of(results_view(results@)),
        failures_view(parts.1@) == failures_of(results_view(results@)),
{
    let mut successes: Vec<(String, V)> = Vec::new();
    let mut failures: Vec<(String, String)> = Vec::new();
    let ghost all = results@;
    let ghost plain = results_view(all);
    for entry in it: results
        invariant
            it.seq() == all,
            plain == results_view(all),
            successes_view(successes@) == successes_of(plain.take(it.index() as int)),
            failures_view(failures@) == failures_of(plain.take(it.index() as int)),
    {
        let ghost before_successes = successes@;
        let ghost before_failures = failures@;
        proof {
            let upto = plain.take(it.index() + 1);
            assert(upto.drop_last() == plain.take(it.index() as int));
            assert(upto.last() == (entry.0@, outcome_view(entry.1)));
        }
        let (key, outcome) = entry;
        match outcome {
            Ok(value) => {
                successes.push((key, value));
                proof {
                    assert(successes_view(successes@) =~= successes_view(before_successes).push(
                        (key@, value),
                    ));
                }
            },
            Err(reason) => {
                failures.push((key, reason));
                proof {
                    assert(failures_view(failures@) =~= failures_view(before_failures).push(
                        (key@, reason@),
                    ));
                }
            },
        }
    }
    proof {
        assert(plain.take(all.len() as int) == plain);
    }
    (successes, failures)
}

/// The name under which the items without a group are gathered.
pub open spec fn no_group() -> Seq<char> {
    "none"@
}

/// The name of the group that a classification puts an item in.
pub open spec fn group_name(group: Option<Seq<char>>) -> Seq<char> {
    match group {
        Some(name) => name,
        None => no_group(),
    }
}

/// What classified items hold, as plain values: each item's key with its
/// group, if it has one.
pub open spec fn classified_view(classified: Seq<(String, Option<String>)>) -> Seq<
    (Seq<char>, Option<Seq<char>>),
> {
    Seq::new(
        classified.len(),
        |k: int|
            (
                classified[k].0@,
                match classified[k].1 {
                    Some(name) => Some(name@),
                    None => None,
                },
            ),
    )
}

/// What groups hold, as plain values: each group's name with the keys of
/// its members.
pub open spec fn groups_view(groups: Seq<(String, Vec<String>)>) -> Seq<
    (Seq<char>, Seq<Seq<char>>),
> {
    Seq::new(groups.len(), |k: int| (groups[k].0@, texts(groups[k].1@)))
}

/// The groups after `item` has joined the group `name`: it becomes the last
/// member of that group, and where there is no such group yet, a new last
/// group with this one member.
pub open spec fn groups_add(
    groups: Seq<(Seq<char>, Seq<Seq<char>>)>,
    name: Seq<char>,
    item: Seq<char>,
) -> Seq<(Seq<char>, Seq<Seq<char>>)>
    decreases groups.len(),
{
    if groups.len() == 0 {
        seq![(name, seq![item])]
    } else if groups[0].0 == name {
        seq![(name, groups[0].1.push(item))] + groups.drop_first()
    } else {
        seq![groups[0]] + groups_add(groups.drop_first(), name, item)
    }
}

/// The groups that classified items form when each joins its group in turn.
pub open spec fn groups_of(classified: Seq<(Seq<char>, Option<Seq<char>>)>) -> Seq<
    (Seq<char>, Seq<Seq<char>>),
>
    decreases classified.len(),
{
    if classified.len() == 0 {
        Seq::empty()
    } else {
        groups_add(
            groups_of(classified.drop_last()),
            group_name(classified.last().1),
            classified.last().0,
        )
    }
}

/// Whether there is a group of that name.
pub open spec fn has_group(groups: Seq<(Seq<char>, Seq<Seq<char>>)>, name: Seq<char>) -> bool {
    exists|i: int| 0 <= i < groups.len() && (#[trigger] groups[i]).0 == name
}

/// The members of the first group of that name; none where there is no such
/// group.
pub open spec fn members_of(groups: Seq<(Seq<char>, Seq<Seq<char>>)>, name: Seq<char>) -> Seq<
    Seq<char>,
>
    decreases groups.len(),
{
    if groups.len() == 0 {
        Seq::empty()
    } else if groups[0].0 == name {
        groups[0].1
    } else {
        members_of(groups.drop_first(), name)
    }
}

/// The names of the groups other than `expected`, in order.
pub open spec fn extra_group_names(
    groups: Seq<(Seq<char>, Seq<Seq<char>>)>,
    expected: Seq<char>,
) -> Seq<Seq<char>>
    decreases groups.len(),
{
    if groups.len() == 0 {
        Seq::empty()
    } else {
        let before = extra_group_names(groups.drop_last(), expected);
        if groups.last().0 != expected {
            before.push(groups.last().0)
        } else {
            before
        }
    }
}

/// The keys of the items classified into the group `name`, in order.
pub open spec fn items_in_group(
    classified: Seq<(Seq<char>, Option<Seq<char>>)>,
    name: Seq<char>,
) -> Seq<Seq<char>>
    decreases classified.len(),
{
    if classified.len() == 0 {
        Seq::empty()
    } else {
        let before = items_in_group(classified.drop_last(), name);
        if group_name(classified.last().1) == name {
            before.push(classified.last().0)
        } else {
            before
        }
    }
}

/// No two groups share a name, and no group is empty.
pub open spec fn groups_wf(groups: Seq<(Seq<char>, Seq<Seq<char>>)>) -> bool {
    &&& forall|i: int, j: int|
        0 <= i < j < groups.len() ==> (#[trigger] groups[i]).0 != (#[trigger] groups[j]).0
    &&& forall|i: int| 0 <= i < groups.len() ==> (#[trigger] groups[i]).1.len() > 0
}

/// Where the first group named `name` stands at `at`, the item joins it
/// there.
pub proof fn lemma_groups_add_present(
    groups: Seq<(Seq<char>, Seq<Seq<char>>)>,
    name: Seq<char>,
    item: Seq<char>,
    at: int,
)
    requires
        0 <= at < groups.len(),
        groups[at].0 == name,
        forall|j: int| 0 <= j < at ==> (#[trigger] groups[j]).0 != name,
    ensures
        groups_add(groups, name, item) == groups.update(at, (name, groups[at].1.push(item))),
        members_of(groups, name) == groups[at].1,
    decreases groups.len(),
{
    if at == 0 {
        assert(groups_add(groups, name, item) =~= groups.update(
            at,
            (name, groups[at].1.push(item)),
        ));
    } else {
        assert(groups[0].0 != name);
        let rest = groups.drop_first();
        assert forall|j: int| 0 <= j < at - 1 implies (#[trigger] rest[j]).0 != name by {
            assert(rest[j] == groups[j + 1]);
        }
        lemma_groups_add_present(rest, name, item, at - 1);
        assert(groups_add(groups, name, item) =~= groups.update(
            at,
            (name, groups[at].1.push(item)),
        ));
    }
}

/// Where no group is named `name`, the item founds a new last group.
pub proof fn lemma_groups_add_absent(
    groups: Seq<(Seq<char>, Seq<Seq<char>>)>,
    name: Seq<char>,
    item: Seq<char>,
)
    requires
        forall|j: int| 0 <= j < groups.len() ==> (#[trigger] groups[j]).0 != name,
    ensures
        groups_add(groups, name, item) == groups.push((name, seq![item])),
        members_of(groups, name) == Seq::<Seq<char>>::empty(),
        !has_group(groups, name),
    decreases groups.len(),
{
    if groups.len() == 0 {
        assert(groups_add(groups, name, item) =~= groups.push((name, seq![item])));
    } else {
        assert(groups[0].0 != name);
        let rest = groups.drop_first();
        assert forall|j: int| 0 <= j < rest.len() implies (#[trigger] rest[j]).0 != name by {
            assert(rest[j] == groups[j + 1]);
        }
        lemma_groups_add_absent(rest, name, item);
        assert(groups_add(groups, name, item) =~= groups.push((name, seq![item])));
    }
}

/// What joining a group changes: the group named gains the item as its last
/// member, and every other group stays as it was.
pub proof fn lemma_groups_add(
    groups: Seq<(Seq<char>, Seq<Seq<char>>)>,
    name: Seq<char>,
    item: Seq<char>,
    other: Seq<char>,
)
    requires
        groups_wf(groups),
    ensures
        groups_wf(groups_add(groups, name, item)),
        has_group(groups_add(groups, name, item), name),
        members_of(groups_add(groups, name, item), name) == members_of(groups, name).push(item),
        other != name ==> members_of(groups_add(groups, name, item), other) == members_of(
            groups,
            other,
        ),
        other != name ==> has_group(groups_add(groups, name, item), other) == has_group(
            groups,
            other,
        ),
    decreases groups.len(),
{
    let after = groups_add(groups, name, item);
    if groups.len() == 0 {
        assert(after[0].0 == name);
        assert(after.drop_first() =~= groups);
    } else if groups[0].0 == name {
        assert(after[0].0 == name);
        assert(after.drop_first() =~= groups.drop_first());
        assert forall|i: int, j: int| 0 <= i < j < after.len() implies (#[trigger] after[i]).0 != (
        #[trigger] after[j]).0 by {
            assert(after[j] == groups[j]);
            if i > 0 {
                assert(after[i] == groups[i]);
            } else {
                assert(groups[0].0 != groups[j].0);
            }
        }
        assert forall|i: int| 0 <= i < after.len() implies (#[trigger] after[i]).1.len() > 0 by {
            if i > 0 {
                assert(after[i] == groups[i]);
            }
        }
        if other != name {
            if has_group(after, other) {
                let i = choose|i: int| 0 <= i < after.len() && (#[trigger] after[i]).0 == other;
                assert(after[i] == groups[i]);
            }
            if has_group(groups, other) {
                let i = choose|i: int| 0 <= i < groups.len() && (#[trigger] groups[i]).0 == other;
                assert(after[i] == groups[i]);
            }
        }
    } else {
        let rest = groups.drop_first();
        assert(groups_wf(rest)) by {
            assert forall|i: int, j: int| 0 <= i < j < rest.len() implies (#[trigger] rest[i]).0
                != (#[trigger] rest[j]).0 by {
                assert(rest[i] == groups[i + 1]);
                assert(rest[j] == groups[j + 1]);
            }
            assert forall|i: int| 0 <= i < rest.len() implies (#[trigger] rest[i]).1.len() > 0 by {
                assert(rest[i] == groups[i + 1]);
            }
        }
        lemma_groups_add(rest, name, item, other);
        lemma_groups_add(rest, name, item, groups[0].0);
        let tail = groups_add(rest, name, item);
        assert(after =~= seq![groups[0]] + tail);
        assert(after.drop_first() =~= tail);
        assert(after[0] == groups[0]);
        let k = choose|k: int| 0 <= k < tail.len() && (#[trigger] tail[k]).0 == name;
        assert(after[k + 1] == tail[k]);
        assert forall|i: int| 0 <= i < after.len() implies (#[trigger] after[i]).1.len() > 0 by {
            if i > 0 {
                assert(after[i] == tail[i - 1]);
            }
        }
        assert(!has_group(rest, groups[0].0)) by {
            if has_group(rest, groups[0].0) {
                let i = choose|i: int| 0 <= i < rest.len() && (#[trigger] rest[i]).0 == groups[0].0;
                assert(rest[i] == groups[i + 1]);
                assert(groups[0].0 != groups[i + 1].0);
            }
        }
        assert forall|i: int, j: int| 0 <= i < j < after.len() implies (#[trigger] after[i]).0 != (
        #[trigger] after[j]).0 by {
            assert(after[j] == tail[j - 1]);
            if i > 0 {
                assert(after[i] == tail[i - 1]);
            } else {
                assert(has_group(tail, groups[0].0) == has_group(rest, groups[0].0));
            }
        }
        if other != name {
            if other != groups[0].0 {
                if has_group(after, other) {
                    let i = choose|i: int| 0 <= i < after.len() && (#[trigger] after[i]).0 == other;
                    assert(after[i] == tail[i - 1]);
                    assert(has_group(tail, other));
                    let r = choose|r: int| 0 <= r < rest.len() && (#[trigger] rest[r]).0 == other;
                    assert(groups[r + 1] == rest[r]);
                }
                if has_group(groups, other) {
                    let i = choose|i: int|
                        0 <= i < groups.len() && (#[trigger] groups[i]).0 == other;
                    assert(rest[i - 1] == groups[i]);
                    assert(has_group(rest, other));
                    let t = choose|t: int| 0 <= t < tail.len() && (#[trigger] tail[t]).0 == other;
                    assert(after[t + 1] == tail[t]);
                }
            } else {
                assert(groups[0].0 == other);
            }
        }
    }
}

/// What the groups are, said directly: the groups are in order, a group
/// exists where an item was classified into it, and its members are the
/// items classified into it, in the order given.
pub proof fn lemma_groups_of(classified: Seq<(Seq<char>, Option<Seq<char>>)>, name: Seq<char>)
    ensures
        groups_wf(groups_of(classified)),
        members_of(groups_of(classified), name) == items_in_group(classified, name),
        has_group(groups_of(classified), name) == (items_in_group(classified, name).len() > 0),
    decreases classified.len(),
{
    if classified.len() == 0 {
    } else {
        let shorter = classified.drop_last();
        let joined = group_name(classified.last().1);
        lemma_groups_of(shorter, name);
        lemma_groups_of(shorter, joined);
        lemma_groups_add(groups_of(shorter), joined, classified.last().0, name);
    }
}

/// Gathers classified items into groups.  An item without a group goes into
/// the group named "none".  Groups stand in the order in which their first
/// member came, members in the order given.
pub fn group_by_key(classified: Vec<(String, Option<String>)>) -> (groups: Vec<
    (String, Vec<String>),
>)
    ensures
        groups_view(groups@) == groups_of(classified_view(classified@)),
        groups_wf(groups_view(groups@)),
{
    proof {
        lemma_groups_of(classified_view(classified@), no_group());
    }
    let mut groups: Vec<(String, Vec<String>)> = Vec::new();
    let ghost all = classified@;
    let ghost plain = classified_view(all);
    proof {
        assert(groups_view(groups@) =~= Seq::empty());
    }
    for entry in it: classified
        invariant
            it.seq() == all,
            plain == classified_view(all),
            groups_view(groups@) == groups_of(plain.take(it.index() as int)),
    {
        proof {
            let upto = plain.take(it.index() + 1);
            assert(upto.drop_last() == plain.take(it.index() as int));
            assert(upto.last() == plain[it.index() as int]);
        }
        let (item, group) = entry;
        let name = match group {
            Some(name) => name,
            None => {
                let name = String::from_str("none");
                name
            },
        };
        add_to_group(&mut groups, name, item);
    }
    proof {
        assert(plain.take(all.len() as int) == plain);
    }
    groups
}

/// Lets `item` join the group `name`.
pub fn add_to_group(groups: &mut Vec<(String, Vec<String>)>, name: String, item: String)
    ensures
        groups_view(final(groups)@) == groups_add(groups_view(old(groups)@), name@, item@),
{
    let ghost before = groups_view(groups@);
    let mut at: usize = 0;
    while at < groups.len()
        invariant
            at <= groups.len(),
            before == groups_view(old(groups)@),
            groups_view(groups@) == before,
            forall|j: int| 0 <= j < at ==> (#[trigger] before[j]).0 != name@,
        decreases groups.len() - at,
    {
        proof {
            assert(before[at as int].0 == groups@[at as int].0@);
        }
        if groups[at].0 == name {
            let ghost stored = groups@;
            let mut entry = groups.remove(at);
            let ghost found = entry;
            entry.1.push(item);
            let ghost joined = (entry.0@, texts(entry.1@));
            let ghost grown = entry;
            groups.insert(at, entry);
            proof {
                lemma_groups_add_present(before, name@, item@, at as int);
                assert(found == stored[at as int]);
                assert(before[at as int] == (found.0@, texts(found.1@)));
                assert(joined.0 == name@);
                assert(joined.1 =~= before[at as int].1.push(item@));
                assert(groups@ =~= stored.update(at as int, grown));
                assert forall|k: int| 0 <= k < groups@.len() implies groups_view(groups@)[k]
                    == before.update(at as int, joined)[k] by {
                    if k != at {
                        assert(groups@[k] == stored[k]);
                        assert(before[k] == (stored[k].0@, texts(stored[k].1@)));
                    }
                }
                assert(groups_view(groups@) =~= before.update(at as int, joined));
            }
            return ;
        }
        at = at + 1;
    }
    let mut members: Vec<String> = Vec::new();
    members.push(item);
    groups.push((name, members));
    proof {
        lemma_groups_add_absent(before, name@, item@);
        assert(texts(members@) =~= seq![item@]);
        assert(groups_view(groups@) =~= before.push((name@, seq![item@])));
    }
}

/// How the groups that were found differ from the one group that was
/// expected.  Each condition is reported on its own.
#[derive(Clone, Debug, PartialEq, Eq)]
pub struct ClassificationMismatch {
    /// No item was classified into the expected group.
    pub expected_group_missing: bool,
    /// The names of the groups that are there besides the expected one.
    pub extra_groups: Vec<String>,
    /// How many items were classified into the expected group.
    pub classified: usize,
    /// How many items were to be classified into it.
    pub total: usize,
}

impl ClassificationMismatch {
    /// The expected group does not have as many members as there were items.
    pub open spec fn count_mismatch(&self) -> bool {
        self.classified != self.total
    }

    /// Whether the expected group lacks or exceeds the number of items.
    pub fn has_count_mismatch(&self) -> (mismatch: bool)
        ensures
            mismatch == self.count_mismatch(),
    {
        self.classified != self.total
    }

    /// Whether groups other than the expected one were found.
    pub fn has_extra_groups(&self) -> (extra: bool)
        ensures
            extra == (self.extra_groups@.len() > 0),
    {
        self.extra_groups.len() > 0
    }
}

/// All of `total` items belong to the group `expected`, and there is no
/// other group.
pub open spec fn membership_holds(
    groups: Seq<(Seq<char>, Seq<Seq<char>>)>,
    expected: Seq<char>,
    total: nat,
) -> bool {
    &&& has_group(groups, expected)
    &&& extra_group_names(groups, expected).len() == 0
    &&& members_of(groups, expected).len() == total
}

/// Checks that the groups are the one group `expected` with `total`
/// members.  Where they are not, says which of three things is wrong: the
/// expected group is missing, other groups are present, or the expected
/// group does not have `total` members.
pub fn validate_membership(groups: &Vec<(String, Vec<String>)>, expected: &str, total: usize) -> (checked:
    Result<(), ClassificationMismatch>)
    ensures
        checked is Ok <==> membership_holds(groups_view(groups@), expected@, total as nat),
        checked matches Err(mismatch) ==> {
            &&& mismatch.expected_group_missing == !has_group(groups_view(groups@), expected@)
            &&& texts(mismatch.extra_groups@) == extra_group_names(
                groups_view(groups@),
                expected@,
            )
            &&& mismatch.classified == members_of(groups_view(groups@), expected@).len()
            &&& mismatch.total == total
        },
{
    let wanted = String::from_str(expected);
    let ghost plain = groups_view(groups@);
    let mut extra: Vec<String> = Vec::new();
    let mut found = false;
    let mut classified: usize = 0;
    let ghost mut first: int = 0;
    let mut i: usize = 0;
    proof {
        assert(texts(extra@) =~= extra_group_names(plain.take(0), expected@));
    }
    while i < groups.len()
        invariant
            i <= groups.len(),
            plain == groups_view(groups@),
            wanted@ == expected@,
            texts(extra@) == extra_group_names(plain.take(i as int), expected@),
            !found ==> classified == 0 && forall|j: int|
                0 <= j < i ==> (#[trigger] plain[j]).0 != expected@,
            found ==> 0 <= first < i && plain[first].0 == expected@ && classified
                == plain[first].1.len() && forall|j: int|
                0 <= j < first ==> (#[trigger] plain[j]).0 != expected@,
        decreases groups.len() - i,
    {
        let ghost before = extra@;
        proof {
            let upto = plain.take(i + 1);
            assert(upto.drop_last() == plain.take(i as int));
            assert(upto.last() == plain[i as int]);
            assert(plain[i as int] == (groups@[i as int].0@, texts(groups@[i as int].1@)));
        }
        if groups[i].0 == wanted {
            if !found {
                found = true;
                classified = groups[i].1.len();
                proof {
                    first = i as int;
                }
            }
        } else {
            extra.push(groups[i].0.clone());
            proof {
                assert(texts(extra@) =~= texts(before).push(groups@[i as int].0@));
            }
        }
        i = i + 1;
    }
    proof {
        assert(plain.take(groups@.len() as int) == plain);
        if found {
            lemma_groups_add_present(plain, expected@, expected@, first);
            assert(has_group(plain, expected@));
        } else {
            lemma_groups_add_absent(plain, expected@, expected@);
        }
    }
    if found && extra.len() == 0 && classified == total {
        Ok(())
    } else {
        Err(ClassificationMismatch { expected_group_missing: !found, extra_groups: extra, classified, total })
    }
}

} // verus!
