//! Burning a token: which accounts the instruction names.

use crate::commands::decode::{get_metadata_pda, metadata_pda};
use vstd::prelude::*;

verus! {

/// The collection that a token says it belongs to.
#[derive(Clone, Debug, PartialEq, Eq)]
pub struct Collection {
    pub verified: bool,
    pub key: [u8; 32],
}

/// The metadata account of the collection that a burn has to name: that of
/// the token's collection where the token is a verified item of one.
pub fn collection_metadata(collection: &Option<Collection>) -> (address: Option<[u8; 32]>)
    ensures
        match collection {
            Some(c) => if c.verified {
                match address {
                    Some(a) => metadata_pda(c.key@) == Some(a@),
                    None => metadata_pda(c.key@) is None,
                }
            } else {
                address is None
            },
            None => address is None,
        },
{
    match collection {
        Some(c) => if c.verified {
            get_metadata_pda(&c.key)
        } else {
            None
        },
        None => None,
    }
}

} // verus!
