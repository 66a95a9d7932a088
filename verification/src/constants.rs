//! Sizes and names that the ledger's programs fix.

use vstd::prelude::*;

verus! {

/// The greatest length of a token's name, in bytes.
pub const MAX_NAME_LENGTH: usize = 32;

/// The greatest length of the address of a token's document, in bytes.
pub const MAX_URI_LENGTH: usize = 200;

/// The greatest length of a token's symbol, in bytes.
pub const MAX_SYMBOL_LENGTH: usize = 10;

/// The length of one creator in the data of a metadata account: address,
/// verified, share.
pub const MAX_CREATOR_LEN: usize = 34;

/// The seed of metadata accounts.
pub const METADATA_PREFIX: &'static str = "metadata";

/// The seed of edition accounts.
pub const MASTER_EDITION_PREFIX: &'static str = "edition";

/// The seed of user accounts.
pub const USER_PREFIX: &'static str = "user";

/// The directory of the error tables.
pub const ERROR_FILES_DIR: &'static str = ".error_files";

/// The address of the token metadata program.
pub const METAPLEX_PROGRAM_ID: &'static str = "metaqbxxUerdq28cj1RbAWkYQm3ybzjb6a8bt518x1s";

/// The address of the candy machine program.
pub const CANDY_MACHINE_PROGRAM_ID: &'static str = "cndyAnrLdpjq1Ssp1z8xxDsB8dxe7u4HL5Nxi2K5WXZ";

/// The endpoints that everyone may use, and that allow few calls.
pub const PUBLIC_RPC_URLS: [&'static str; 4] = [
    "https://api.devnet.solana.com",
    "https://api.testnet.solana.com",
    "https://api.mainnet-beta.solana.com",
    "https://solana-api.projectserum.com",
];

/// The pause between two calls to a public endpoint, in milliseconds.
pub const DEFAULT_RPC_DELAY_MS: u32 = 200;

/// The number of slots of a batch where none is given, as text.
pub const DEFAULT_BATCH_SIZE: &'static str = "10";

/// The first lines of a file of error tables.
pub const ERROR_FILE_BEGIN: &'static str = "#![allow(unused)]\nuse phf::phf_map;\n\n";

/// The length of the data of a mint account, in bytes.
pub const MINT_LAYOUT: u64 = 82;

/// The number of editions that one edition marker account records.
pub const EDITIONS_PER_MARKER: u64 = 248;

} // verus!
