//! Ledger addresses: 32 bytes, written in base 58.
//!
//! Nothing in this file is proved.  Each function states what the ledger's
//! own library does, by a name for its result.

use solana_program::pubkey::Pubkey;
use vstd::prelude::*;

verus! {

/// The 32 bytes that a text names as an address, where it names one: the
/// text is at most 44 characters of the base-58 alphabet and decodes to
/// exactly 32 bytes.
pub uninterp spec fn pubkey_bytes(text: Seq<char>) -> Option<Seq<u8>>;

/// The address that a program derives from seeds, with the bump that was
/// needed to find it, where there is one.
pub uninterp spec fn program_address(seeds: Seq<Seq<u8>>, program_id: Seq<u8>) -> Option<(Seq<u8>, u8)>;

/// What seeds hold, one by one.
pub open spec fn seeds_view(seeds: Seq<Vec<u8>>) -> Seq<Seq<u8>> {
    Seq::new(seeds.len(), |i: int| seeds[i]@)
}

/// `Pubkey::from_str`: the address that the text names, if it names one.
#[verifier::external_body]
pub(crate) fn pubkey_from_str(text: &str) -> (bytes: Option<[u8; 32]>)
    ensures
        match bytes {
            Some(b) => pubkey_bytes(text@) == Some(b@),
            None => pubkey_bytes(text@) is None,
        },
{
    match <Pubkey as std::str::FromStr>::from_str(text) {
        Ok(key) => Some(key.to_bytes()),
        Err(_) => None,
    }
}

/// `Pubkey::try_find_program_address`: the address derived from the seeds
/// for the program, with its bump; none where no bump gives one or the
/// seeds are too many or too long.
#[verifier::external_body]
pub(crate) fn try_find_program_address(seeds: &Vec<Vec<u8>>, program_id: &[u8; 32]) -> (found:
    Option<([u8; 32], u8)>)
    ensures
        match found {
            Some((address, bump)) => program_address(seeds_view(seeds@), program_id@) == Some(
                (address@, bump),
            ),
            None => program_address(seeds_view(seeds@), program_id@) is None,
        },
{
    let slices: Vec<&[u8]> = seeds.iter().map(|seed| seed.as_slice()).collect();
    match Pubkey::try_find_program_address(&slices, &Pubkey::new_from_array(*program_id)) {
        Some((key, bump)) => Some((key.to_bytes(), bump)),
        None => None,
    }
}

} // verus!
