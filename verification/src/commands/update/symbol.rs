//! Changing the symbol or the name of a token.

use crate::batch::pool::{DispatchPolicy, PoolState};
use crate::batch::retry::{BatchRun, RunState};
use crate::commands::update::creator::DataV2;
use crate::text::texts;
use vstd::prelude::*;

verus! {

/// What the operator gives to change the symbol of many tokens.
#[derive(Clone, Debug, PartialEq, Eq)]
pub struct UpdateSymbolAllArgs {
    pub keypair: Option<String>,
    pub mint_list: Option<String>,
    pub cache_file: Option<String>,
    pub new_symbol: String,
    pub batch_size: usize,
    pub retries: u8,
}

/// The run that changes the symbol of the given tokens: as many at once as
/// the operator's batch size, retried as often as the operator allows.
pub fn update_symbol_all_run(mints: Vec<String>, args: &UpdateSymbolAllArgs) -> (run: BatchRun<()>)
    ensures
        run.wf(),
        run@ == RunState::<()>::start(
            DispatchPolicy::StrictSemaphore,
            args.batch_size as nat,
            texts(mints@),
            args.retries as nat,
        ),
{
    BatchRun::new(mints, args.batch_size, args.retries, DispatchPolicy::StrictSemaphore)
}

/// The data of a token with another symbol; everything else stays.
pub fn data_with_symbol(old: DataV2, new_symbol: String) -> (new: DataV2)
    ensures
        new == (DataV2 { symbol: new_symbol, ..old }),
{
    DataV2 {
        creators: old.creators,
        seller_fee_basis_points: old.seller_fee_basis_points,
        name: old.name,
        symbol: new_symbol,
        uri: old.uri,
        collection: old.collection,
        uses: old.uses,
    }
}

/// The data of a token with another name; everything else stays.
pub fn data_with_name(old: DataV2, new_name: String) -> (new: DataV2)
    ensures
        new == (DataV2 { name: new_name, ..old }),
{
    DataV2 {
        creators: old.creators,
        seller_fee_basis_points: old.seller_fee_basis_points,
        name: new_name,
        symbol: old.symbol,
        uri: old.uri,
        collection: old.collection,
        uses: old.uses,
    }
}

} // verus!
