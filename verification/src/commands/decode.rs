//! Decoded accounts as they are shown, and the addresses they live at.

use crate::constants::{EDITIONS_PER_MARKER, METADATA_PREFIX, METAPLEX_PROGRAM_ID};
use crate::outside::address::{
    program_address, pubkey_bytes, pubkey_from_str, seeds_view, try_find_program_address,
};
use vstd::prelude::*;
use vstd::string::{StrSliceExecFns, StringSliceAdditionalSpecFns};

verus! {

/// A creator as shown.
#[derive(Clone, Debug, PartialEq, Eq)]
pub struct JSONCreator {
    pub address: String,
    pub verified: bool,
    pub share: u8,
}

/// A collection as shown.
#[derive(Clone, Debug, PartialEq, Eq)]
pub struct JSONCollection {
    pub verified: bool,
    pub key: String,
}

/// The details of a collection as shown.
#[derive(Clone, Debug, PartialEq, Eq)]
pub enum JSONCollectionDetails {
    V1 { size: u64 },
}

/// The uses of a token as shown.
#[derive(Clone, Debug, PartialEq, Eq)]
pub struct JSONUses {
    pub use_method: String,
    pub remaining: u64,
    pub total: u64,
}

/// Why an account could not be decoded.
#[derive(Debug, PartialEq, Eq, Structural, Clone, Copy)]
pub enum DecodeError {
    /// Neither an edition nor a marker was named.
    MissingEditionNumber,
    /// The marker lies beyond the last edition that can be numbered.
    EditionNumberOverflow,
}

/// The edition to look up the marker of: the edition named, else the
/// first edition that the marker named records.
pub fn edition_number(edition_num: Option<u64>, marker_num: Option<u64>) -> (edition: Result<
    u64,
    DecodeError,
>)
    ensures
        match (edition_num, marker_num) {
            (Some(num), _) => edition == Ok::<u64, DecodeError>(num),
            (None, Some(marker)) => if marker * 248 <= u64::MAX {
                edition == Ok::<u64, DecodeError>((marker * 248) as u64)
            } else {
                edition == Err::<u64, DecodeError>(DecodeError::EditionNumberOverflow)
            },
            (None, None) => edition == Err::<u64, DecodeError>(DecodeError::MissingEditionNumber),
        },
{
    match edition_num {
        Some(num) => Ok(num),
        None => match marker_num {
            Some(marker) => match marker.checked_mul(EDITIONS_PER_MARKER) {
                Some(edition) => Ok(edition),
                None => Err(DecodeError::EditionNumberOverflow),
            },
            None => Err(DecodeError::MissingEditionNumber),
        },
    }
}

/// The address of the metadata account of a mint: the address that the
/// metadata program derives from the seed "metadata", its own address and
/// the mint's.
pub open spec fn metadata_pda(mint: Seq<u8>) -> Option<Seq<u8>> {
    match pubkey_bytes(METAPLEX_PROGRAM_ID@) {
        None => None,
        Some(program) => match program_address(
            seq![METADATA_PREFIX.spec_bytes(), program, mint],
            program,
        ) {
            Some((address, _)) => Some(address),
            None => None,
        },
    }
}

fn bytes_of(address: &[u8; 32]) -> (bytes: Vec<u8>)
    ensures
        bytes@ == address@,
{
    let mut bytes: Vec<u8> = Vec::new();
    let mut i: usize = 0;
    while i < 32
        invariant
            i <= 32,
            bytes@ == address@.take(i as int),
        decreases 32 - i,
    {
        bytes.push(address[i]);
        proof {
            assert(address@.take(i + 1) == address@.take(i as int).push(address@[i as int]));
        }
        i = i + 1;
    }
    proof {
        assert(address@.take(32) == address@);
    }
    bytes
}

/// Derives the address of the metadata account of a mint.
pub fn get_metadata_pda(pubkey: &[u8; 32]) -> (address: Option<[u8; 32]>)
    ensures
        match address {
            Some(a) => metadata_pda(pubkey@) == Some(a@),
            None => metadata_pda(pubkey@) is None,
        },
{
    let program = match pubkey_from_str(METAPLEX_PROGRAM_ID) {
        Some(program) => program,
        None => {
            return None;
        },
    };
    let mut seeds: Vec<Vec<u8>> = Vec::new();
    seeds.push(METADATA_PREFIX.as_bytes_vec());
    seeds.push(bytes_of(&program));
    seeds.push(bytes_of(pubkey));
    proof {
        assert(seeds_view(seeds@) =~= seq![METADATA_PREFIX.spec_bytes(), program@, pubkey@]);
    }
    match try_find_program_address(&seeds, &program) {
        Some((address, _)) => Some(address),
        None => None,
    }
}

} // verus!
