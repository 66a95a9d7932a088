//! Changing the creators of a token.

use crate::commands::burn::Collection;
use crate::parse::{
    ledger_creators_view, parse_cli_creators, parsed_cli_creators, Creator, ParseError,
};
use vstd::prelude::*;

verus! {

/// How a token may be used.
#[derive(Clone, Debug, PartialEq, Eq)]
pub struct Uses {
    pub use_method: u8,
    pub remaining: u64,
    pub total: u64,
}

/// The data of a token as an update writes it.
#[derive(Clone, Debug, PartialEq, Eq)]
pub struct DataV2 {
    pub name: String,
    pub symbol: String,
    pub uri: String,
    pub seller_fee_basis_points: u16,
    pub creators: Option<Vec<Creator>>,
    pub collection: Option<Collection>,
    pub uses: Option<Uses>,
}

/// Why the creators of a token could not be changed.
#[derive(Debug, PartialEq, Eq, Structural, Clone, Copy)]
pub enum UpdateError {
    /// The creators given could not be read.
    InvalidCreators(ParseError),
    /// The shares of the creators do not sum to 100.
    SharesMustSumTo100,
}

/// The greatest number of creators that a token can have.
pub const MAX_CREATORS: usize = 5;

/// The sum of the creators' shares.
pub open spec fn shares_total(creators: Seq<(Seq<u8>, bool, u8)>) -> nat
    decreases creators.len(),
{
    if creators.len() == 0 {
        0
    } else {
        shares_total(creators.drop_last()) + creators.last().2 as nat
    }
}

/// The creators of a token after an update.  The creators given replace
/// those that the token has, unless they are to be appended: then the token
/// keeps its creators and takes as many of those given, from the first, as
/// it has room for, none where it has five or more already.  A token
/// without creators takes those given.
pub open spec fn merged_creators(
    old_creators: Option<Seq<(Seq<u8>, bool, u8)>>,
    parsed: Seq<(Seq<u8>, bool, u8)>,
    should_append: bool,
) -> Seq<(Seq<u8>, bool, u8)> {
    match old_creators {
        Some(old) => if !should_append {
            parsed
        } else {
            let room = if old.len() >= 5 {
                0
            } else {
                5 - old.len()
            };
            let taken = if parsed.len() < room {
                parsed.len() as int
            } else {
                room
            };
            old + parsed.take(taken)
        },
        None => parsed,
    }
}

/// More creators never have a smaller sum of shares.
pub proof fn lemma_shares_total_grows(creators: Seq<(Seq<u8>, bool, u8)>, upto: int)
    requires
        0 <= upto <= creators.len(),
    ensures
        shares_total(creators.take(upto)) <= shares_total(creators),
    decreases creators.len() - upto,
{
    if upto < creators.len() {
        let longer = creators.take(upto + 1);
        assert(longer.drop_last() == creators.take(upto));
        lemma_shares_total_grows(creators, upto + 1);
    } else {
        assert(creators.take(upto) == creators);
    }
}

/// Merges the creators given with those that the token has.
pub fn merge_creators(old_creators: Option<Vec<Creator>>, parsed: Vec<Creator>, should_append: bool) -> (merged:
    Vec<Creator>)
    ensures
        ledger_creators_view(merged@) == merged_creators(
            match old_creators {
                Some(old) => Some(ledger_creators_view(old@)),
                None => None,
            },
            ledger_creators_view(parsed@),
            should_append,
        ),
{
    match old_creators {
        Some(old) => {
            if !should_append {
                parsed
            } else {
                let room = if old.len() >= MAX_CREATORS {
                    0
                } else {
                    MAX_CREATORS - old.len()
                };
                let taken = if parsed.len() < room {
                    parsed.len()
                } else {
                    room
                };
                let mut merged = old;
                let ghost kept = merged@;
                let ghost all = parsed@;
                let mut count: usize = 0;
                proof {
                    assert(ledger_creators_view(all).take(0) =~= Seq::empty());
                    assert(ledger_creators_view(merged@) =~= ledger_creators_view(kept)
                        + ledger_creators_view(all).take(0));
                }
                for creator in it: parsed
                    invariant
                        it.seq() == all,
                        taken <= all.len(),
                        count <= taken,
                        count <= it.index(),
                        count < taken ==> count == it.index(),
                        ledger_creators_view(merged@) == ledger_creators_view(kept)
                            + ledger_creators_view(all).take(count as int),
                {
                    if count < taken {
                        let ghost before = merged@;
                        let ghost plain = (creator.address@, creator.verified, creator.share);
                        merged.push(creator);
                        proof {
                            assert(ledger_creators_view(merged@) =~= ledger_creators_view(before).push(
                                plain,
                            ));
                            assert(ledger_creators_view(all).take(count + 1)
                                =~= ledger_creators_view(all).take(count as int).push(plain));
                        }
                        count = count + 1;
                    }
                }
                proof {
                    assert(count == taken);
                }
                merged
            }
        },
        None => parsed,
    }
}

/// Whether the shares of the creators sum to 100.
pub fn shares_sum_to_100(creators: &Vec<Creator>) -> (exact: bool)
    ensures
        exact == (shares_total(ledger_creators_view(creators@)) == 100),
{
    let ghost plain = ledger_creators_view(creators@);
    let mut sum: u32 = 0;
    let mut i: usize = 0;
    proof {
        assert(plain.take(0) =~= Seq::empty());
    }
    while i < creators.len()
        invariant
            i <= creators.len(),
            plain == ledger_creators_view(creators@),
            sum == shares_total(plain.take(i as int)),
            sum <= 100,
        decreases creators.len() - i,
    {
        proof {
            let upto = plain.take(i + 1);
            assert(upto.drop_last() == plain.take(i as int));
            assert(upto.last() == plain[i as int]);
            assert(plain[i as int].2 == creators@[i as int].share);
        }
        sum = sum + creators[i].share as u32;
        if sum > 100 {
            proof {
                lemma_shares_total_grows(plain, i + 1);
            }
            return false;
        }
        i = i + 1;
    }
    proof {
        assert(plain.take(plain.len() as int) == plain);
    }
    sum == 100
}

/// The creators to write for a token: those given on the command line,
/// merged with those that the token has.  Refused where the text cannot be
/// read, and where the shares of the merged creators do not sum to 100.
pub fn update_creator(old_creators: Option<Vec<Creator>>, new_creators: String, should_append: bool) -> (updated:
    Result<Vec<Creator>, UpdateError>)
    ensures
        match parsed_cli_creators(new_creators@, should_append) {
            Err(e) => updated == Err::<Vec<Creator>, UpdateError>(UpdateError::InvalidCreators(e)),
            Ok(parsed) => {
                let merged = merged_creators(
                    match old_creators {
                        Some(old) => Some(ledger_creators_view(old@)),
                        None => None,
                    },
                    parsed,
                    should_append,
                );
                if shares_total(merged) == 100 {
                    match updated {
                        Ok(list) => ledger_creators_view(list@) == merged,
                        Err(_) => false,
                    }
                } else {
                    updated == Err::<Vec<Creator>, UpdateError>(UpdateError::SharesMustSumTo100)
                }
            },
        },
{
    let parsed = match parse_cli_creators(new_creators, should_append) {
        Ok(parsed) => parsed,
        Err(e) => {
            return Err(UpdateError::InvalidCreators(e));
        },
    };
    let merged = merge_creators(old_creators, parsed, should_append);
    if !shares_sum_to_100(&merged) {
        return Err(UpdateError::SharesMustSumTo100);
    }
    Ok(merged)
}

/// The data of a token with other creators; everything else stays.
pub fn data_with_creators(old: DataV2, creators: Vec<Creator>) -> (new: DataV2)
    ensures
        new == (DataV2 { creators: Some(creators), ..old }),
{
    DataV2 {
        creators: Some(creators),
        seller_fee_basis_points: old.seller_fee_basis_points,
        name: old.name,
        symbol: old.symbol,
        uri: old.uri,
        collection: old.collection,
        uses: old.uses,
    }
}

} // verus!
