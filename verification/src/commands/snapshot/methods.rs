//! Snapshots: which tokens an authority or a creator has made, and who
//! holds them.

use crate::batch::outcome::{failures_of, failures_view, partition, successes_of, successes_view};
use crate::batch::pool::results_view;
use crate::constants::{MAX_CREATOR_LEN, MAX_NAME_LENGTH, MAX_SYMBOL_LENGTH, MAX_URI_LENGTH};
use crate::json::JsonValue;
use crate::outside::sorting::{rows_ascending, rows_view, sort_rows, sort_texts};
use crate::parse::number::{decimal_number, parse_u64};
use crate::parse::{creator_is_verified, is_only_one_option, Creator};
use crate::text::{texts, texts_ascending};
use vstd::prelude::*;

verus! {

/// Why a snapshot could not be taken, or an account not be read.
#[derive(Debug, PartialEq, Eq, Structural, Clone, Copy)]
pub enum SnapshotError {
    /// Neither a creator nor an update authority was named, or both were.
    SelectorConflict,
    /// No source of accounts was named.
    MissingSelector,
    /// Reading tokens from a file of mint accounts is not provided.
    MintAccountsFileUnsupported,
    /// A creator's position is above 4.
    CreatorPositionTooLarge,
    /// An account's data has no member `info`.
    InvalidDataAccount,
    /// An account's data has no token amount that is a string.
    InvalidTokenAmount,
    /// An account's token amount is not a number.
    InvalidAmountNumber,
    /// An account's data names no owner.
    InvalidOwnerAccount,
    /// An account's owner is not a string.
    InvalidOwnerAmount,
    /// The data of a token account could not be decoded.
    UndecodableAccount,
    /// No account holds the token.
    NoHolderFound,
}

/// Who holds a token.
#[derive(Clone, Debug, PartialEq, Eq, PartialOrd, Ord)]
pub struct Holder {
    pub owner_wallet: String,
    pub associated_token_address: String,
    pub mint_account: String,
    pub metadata_account: String,
}

/// What a holder record says, as plain values, in the order of its fields.
pub open spec fn holder_view(holder: Holder) -> (Seq<char>, Seq<char>, Seq<char>, Seq<char>) {
    (
        holder.owner_wallet@,
        holder.associated_token_address@,
        holder.mint_account@,
        holder.metadata_account@,
    )
}

/// What holder records say, one by one.
pub open spec fn holders_view(holders: Seq<Holder>) -> Seq<
    (Seq<char>, Seq<char>, Seq<char>, Seq<char>),
> {
    Seq::new(holders.len(), |i: int| holder_view(holders[i]))
}

/// The data of a token account as it came in.
#[derive(Debug, PartialEq, Eq)]
pub enum TokenAccountData {
    /// The bytes could not be decoded from their text form.
    Undecodable,
    /// The bytes are not those of a token account.
    Unparsed,
    /// The account as a document.
    Parsed(JsonValue),
}

/// A token account: its address and its data.
#[derive(Debug, PartialEq, Eq)]
pub struct TokenAccount {
    pub address: String,
    pub data: TokenAccountData,
}

/// Where the accounts of a snapshot come from.
#[derive(Clone, Debug, PartialEq, Eq)]
pub enum AccountSource {
    /// The tokens that the authority may update.
    UpdateAuthority(String),
    /// The tokens with a creator at a position.
    Creator(String),
    /// The tokens made by a candy machine of the second version, whose
    /// creator address is derived from the machine's.
    CandyMachineV2(String),
}

/// The amount of tokens that a parsed token account holds.
pub open spec fn token_amount(parsed: JsonValue) -> Result<u64, SnapshotError> {
    match parsed.member("info"@) {
        None => Err(SnapshotError::InvalidDataAccount),
        Some(info) => match info.member("tokenAmount"@) {
            None => Err(SnapshotError::InvalidTokenAmount),
            Some(token_amount) => match token_amount.member("amount"@) {
                None => Err(SnapshotError::InvalidTokenAmount),
                Some(amount) => match amount.text() {
                    None => Err(SnapshotError::InvalidTokenAmount),
                    Some(text) => match decimal_number(text, false, 0, u64::MAX as int) {
                        Some(n) => Ok(n as u64),
                        None => Err(SnapshotError::InvalidAmountNumber),
                    },
                },
            },
        },
    }
}

/// The owner that a parsed token account names.
pub open spec fn token_owner(parsed: JsonValue) -> Result<Seq<char>, SnapshotError> {
    match parsed.member("info"@) {
        None => Err(SnapshotError::InvalidOwnerAccount),
        Some(info) => match info.member("owner"@) {
            None => Err(SnapshotError::InvalidOwnerAccount),
            Some(owner) => match owner.text() {
                None => Err(SnapshotError::InvalidOwnerAmount),
                Some(text) => Ok(text),
            },
        },
    }
}

/// Reads the amount of tokens that a parsed token account holds: the
/// number written at `info.tokenAmount.amount`.
pub fn parse_token_amount(data: &JsonValue) -> (amount: Result<u64, SnapshotError>)
    ensures
        amount == token_amount(*data),
{
    let info = match data.get("info") {
        Some(info) => info,
        None => {
            return Err(SnapshotError::InvalidDataAccount);
        },
    };
    let token_amount = match info.get("tokenAmount") {
        Some(token_amount) => token_amount,
        None => {
            return Err(SnapshotError::InvalidTokenAmount);
        },
    };
    let amount = match token_amount.get("amount") {
        Some(amount) => amount,
        None => {
            return Err(SnapshotError::InvalidTokenAmount);
        },
    };
    let text = match amount.as_str() {
        Some(text) => text,
        None => {
            return Err(SnapshotError::InvalidTokenAmount);
        },
    };
    match parse_u64(text) {
        Some(n) => Ok(n),
        None => Err(SnapshotError::InvalidAmountNumber),
    }
}

/// Reads the owner that a parsed token account names: the text at
/// `info.owner`.
pub fn parse_owner(data: &JsonValue) -> (owner: Result<String, SnapshotError>)
    ensures
        match owner {
            Ok(o) => token_owner(*data) == Ok::<Seq<char>, SnapshotError>(o@),
            Err(e) => token_owner(*data) == Err::<Seq<char>, SnapshotError>(e),
        },
{
    let info = match data.get("info") {
        Some(info) => info,
        None => {
            return Err(SnapshotError::InvalidOwnerAccount);
        },
    };
    let owner = match info.get("owner") {
        Some(owner) => owner,
        None => {
            return Err(SnapshotError::InvalidOwnerAccount);
        },
    };
    match owner.as_str() {
        Some(text) => Ok(String::from_str(text)),
        None => Err(SnapshotError::InvalidOwnerAmount),
    }
}

/// The owner of a token account that holds the token now: the account
/// could be read, holds exactly one token, and names its owner.
pub open spec fn holding_owner(data: TokenAccountData) -> Option<Seq<char>> {
    match data {
        TokenAccountData::Parsed(parsed) => if token_amount(parsed) == Ok::<u64, SnapshotError>(
            1,
        ) {
            match token_owner(parsed) {
                Ok(owner) => Some(owner),
                Err(_) => None,
            }
        } else {
            None
        },
        _ => None,
    }
}

/// The owner of a token account that holds the token now, if it does.
pub fn current_owner(data: &TokenAccountData) -> (owner: Option<String>)
    ensures
        match owner {
            Some(o) => holding_owner(*data) == Some(o@),
            None => holding_owner(*data) is None,
        },
{
    match data {
        TokenAccountData::Parsed(parsed) => {
            match parse_token_amount(parsed) {
                Ok(amount) => {
                    if amount == 1 {
                        match parse_owner(parsed) {
                            Ok(owner) => Some(owner),
                            Err(_) => None,
                        }
                    } else {
                        None
                    }
                },
                Err(_) => None,
            }
        },
        _ => None,
    }
}

/// The holders among the token accounts of a mint, in the order of the
/// accounts: one for each account that holds the token now.
pub open spec fn holders_among(
    accounts: Seq<TokenAccount>,
    mint_account: Seq<char>,
    metadata_account: Seq<char>,
) -> Seq<(Seq<char>, Seq<char>, Seq<char>, Seq<char>)>
    decreases accounts.len(),
{
    if accounts.len() == 0 {
        Seq::empty()
    } else {
        let before = holders_among(accounts.drop_last(), mint_account, metadata_account);
        match holding_owner(accounts.last().data) {
            Some(owner) => before.push(
                (owner, accounts.last().address@, mint_account, metadata_account),
            ),
            None => before,
        }
    }
}

/// Finds the holders of a mint among its token accounts.
pub fn holders_of_mint(
    accounts: &Vec<TokenAccount>,
    mint_account: &str,
    metadata_account: &str,
) -> (holders: Vec<Holder>)
    ensures
        holders_view(holders@) == holders_among(accounts@, mint_account@, metadata_account@),
{
    let mut holders: Vec<Holder> = Vec::new();
    let mut i: usize = 0;
    proof {
        assert(holders_view(holders@) =~= Seq::empty());
        assert(accounts@.take(0) =~= Seq::empty());
    }
    while i < accounts.len()
        invariant
            i <= accounts.len(),
            holders_view(holders@) == holders_among(
                accounts@.take(i as int),
                mint_account@,
                metadata_account@,
            ),
        decreases accounts.len() - i,
    {
        let ghost before = holders@;
        proof {
            let upto = accounts@.take(i + 1);
            assert(upto.drop_last() == accounts@.take(i as int));
            assert(upto.last() == accounts@[i as int]);
        }
        match current_owner(&accounts[i].data) {
            Some(owner_wallet) => {
                let holder = Holder {
                    owner_wallet,
                    associated_token_address: accounts[i].address.clone(),
                    mint_account: String::from_str(mint_account),
                    metadata_account: String::from_str(metadata_account),
                };
                let ghost plain = holder_view(holder);
                holders.push(holder);
                proof {
                    assert(holders_view(holders@) =~= holders_view(before).push(plain));
                }
            },
            None => {},
        }
        i = i + 1;
    }
    proof {
        assert(accounts@.take(accounts@.len() as int) == accounts@);
    }
    holders
}

/// The first holder among the token accounts of a mint.  The search breaks
/// off with an error at an account whose data could not be decoded, and
/// ends with one where no account holds the token.
pub open spec fn first_holder_among(
    accounts: Seq<TokenAccount>,
    mint_account: Seq<char>,
    metadata_account: Seq<char>,
) -> Result<(Seq<char>, Seq<char>, Seq<char>, Seq<char>), SnapshotError>
    decreases accounts.len(),
{
    if accounts.len() == 0 {
        Err(SnapshotError::NoHolderFound)
    } else if accounts[0].data is Undecodable {
        Err(SnapshotError::UndecodableAccount)
    } else {
        match holding_owner(accounts[0].data) {
            Some(owner) => Ok((owner, accounts[0].address@, mint_account, metadata_account)),
            None => first_holder_among(accounts.drop_first(), mint_account, metadata_account),
        }
    }
}

/// Finds the holder of a mint: the first of its token accounts that holds
/// the token now.
pub fn first_holder(accounts: &Vec<TokenAccount>, mint_account: &str, metadata_account: &str) -> (holder:
    Result<Holder, SnapshotError>)
    ensures
        match holder {
            Ok(h) => first_holder_among(accounts@, mint_account@, metadata_account@) == Ok::<
                (Seq<char>, Seq<char>, Seq<char>, Seq<char>),
                SnapshotError,
            >(holder_view(h)),
            Err(e) => first_holder_among(accounts@, mint_account@, metadata_account@) == Err::<
                (Seq<char>, Seq<char>, Seq<char>, Seq<char>),
                SnapshotError,
            >(e),
        },
{
    let mut i: usize = 0;
    proof {
        assert(accounts@.skip(0) == accounts@);
    }
    while i < accounts.len()
        invariant
            i <= accounts.len(),
            first_holder_among(accounts@, mint_account@, metadata_account@) == first_holder_among(
                accounts@.skip(i as int),
                mint_account@,
                metadata_account@,
            ),
        decreases accounts.len() - i,
    {
        proof {
            assert(accounts@.skip(i as int)[0] == accounts@[i as int]);
            assert(accounts@.skip(i as int).drop_first() == accounts@.skip(i + 1));
        }
        match &accounts[i].data {
            TokenAccountData::Undecodable => {
                return Err(SnapshotError::UndecodableAccount);
            },
            _ => {},
        }
        match current_owner(&accounts[i].data) {
            Some(owner_wallet) => {
                return Ok(
                    Holder {
                        owner_wallet,
                        associated_token_address: accounts[i].address.clone(),
                        mint_account: String::from_str(mint_account),
                        metadata_account: String::from_str(metadata_account),
                    },
                );
            },
            None => {},
        }
        i = i + 1;
    }
    Err(SnapshotError::NoHolderFound)
}

/// Whether a token counts for a snapshot: its creator at `position` is
/// verified, or unverified creators are let in.
pub fn accepts_creators(creators: &Option<Vec<Creator>>, position: usize, allow_unverified: bool) -> (accepted:
    bool)
    requires
        creators matches Some(list) ==> position < list@.len(),
    ensures
        accepted == (allow_unverified || (creators matches Some(list) && list@[position as int].verified)),
{
    creator_is_verified(creators, position) || allow_unverified
}

/// Where the accounts of a snapshot come from: the update authority where
/// one is named, else the creator, read as a candy machine of the second
/// version where `v2` says so.
pub fn account_source(creator: &Option<String>, update_authority: &Option<String>, v2: bool) -> (source:
    Result<AccountSource, SnapshotError>)
    ensures
        match (update_authority, creator) {
            (Some(authority), _) => source matches Ok(AccountSource::UpdateAuthority(a)) && a@
                == authority@,
            (None, Some(id)) => if v2 {
                source matches Ok(AccountSource::CandyMachineV2(c)) && c@ == id@
            } else {
                source matches Ok(AccountSource::Creator(c)) && c@ == id@
            },
            (None, None) => source matches Err(e) && e == SnapshotError::MissingSelector,
        },
{
    match update_authority {
        Some(authority) => Ok(AccountSource::UpdateAuthority(authority.clone())),
        None => match creator {
            Some(id) => if v2 {
                Ok(AccountSource::CandyMachineV2(id.clone()))
            } else {
                Ok(AccountSource::Creator(id.clone()))
            },
            None => Err(SnapshotError::MissingSelector),
        },
    }
}

/// Whether a snapshot of mints may be taken: exactly one of creator and
/// update authority is named.
pub fn check_mint_selectors(creator: &Option<String>, update_authority: &Option<String>) -> (checked:
    Result<(), SnapshotError>)
    ensures
        checked is Ok <==> (creator.is_some() != update_authority.is_some()),
        checked matches Err(e) ==> e == SnapshotError::SelectorConflict,
{
    if is_only_one_option(creator, update_authority) {
        Ok(())
    } else {
        Err(SnapshotError::SelectorConflict)
    }
}

/// Where the creator at `position` stands in the data of a metadata
/// account: after the key, the update authority, the mint, name, address
/// of the document, symbol and fee, each with its length where it has one,
/// and the creators before it.  There are five places for creators.
pub open spec fn creator_offset(position: nat) -> nat {
    (1 + 32 + 32 + 4 + 32 + 4 + 200 + 4 + 10 + 2 + 1 + 4 + position * (32 + 1 + 1)) as nat
}

/// The place of the creator at `position` in the data of a metadata
/// account; none for a position above 4.
pub fn creator_filter_offset(position: usize) -> (offset: Result<usize, SnapshotError>)
    ensures
        match offset {
            Ok(o) => position <= 4 && o == creator_offset(position as nat),
            Err(e) => position > 4 && e == SnapshotError::CreatorPositionTooLarge,
        },
{
    if position > 4 {
        return Err(SnapshotError::CreatorPositionTooLarge);
    }
    let fixed: usize = 1 + 32 + 32 + 4 + MAX_NAME_LENGTH + 4 + MAX_URI_LENGTH + 4
        + MAX_SYMBOL_LENGTH + 2 + 1 + 4;
    assert(position * MAX_CREATOR_LEN <= 136) by (nonlinear_arith)
        requires
            position <= 4,
            MAX_CREATOR_LEN == 34,
    ;
    Ok(fixed + position * MAX_CREATOR_LEN)
}

/// An account of the candy machine program that holds a configuration.
#[derive(Clone, Debug, PartialEq, Eq)]
pub struct ConfigAccount {
    pub address: String,
    pub data_len: usize,
}

/// An account of the candy machine program that holds a machine.
#[derive(Clone, Debug, PartialEq, Eq)]
pub struct CandyMachineAccount {
    pub address: String,
    pub data_len: usize,
}

/// The accounts of the candy machine program under one authority.
#[derive(Clone, Debug, PartialEq, Eq)]
pub struct CandyMachineProgramAccounts {
    pub config_accounts: Vec<ConfigAccount>,
    pub candy_machine_accounts: Vec<CandyMachineAccount>,
}

/// The length of the data of every candy machine account.
pub const CANDY_MACHINE_DATA_LEN: usize = 529;

/// The accounts whose data has the length of a machine, where `machines`
/// says so, else the others; in order.
pub open spec fn accounts_by_kind(accounts: Seq<(String, usize)>, machines: bool) -> Seq<
    (Seq<char>, usize),
>
    decreases accounts.len(),
{
    if accounts.len() == 0 {
        Seq::empty()
    } else {
        let before = accounts_by_kind(accounts.drop_last(), machines);
        if (accounts.last().1 == 529) == machines {
            before.push((accounts.last().0@, accounts.last().1))
        } else {
            before
        }
    }
}

/// What configuration accounts hold, as plain values.
pub open spec fn config_view(accounts: Seq<ConfigAccount>) -> Seq<(Seq<char>, usize)> {
    Seq::new(accounts.len(), |i: int| (accounts[i].address@, accounts[i].data_len))
}

/// What machine accounts hold, as plain values.
pub open spec fn machine_view(accounts: Seq<CandyMachineAccount>) -> Seq<(Seq<char>, usize)> {
    Seq::new(accounts.len(), |i: int| (accounts[i].address@, accounts[i].data_len))
}

/// Parts the accounts of the candy machine program, each given as its
/// address with the length of its data: machines have a fixed length,
/// everything else is a configuration.
pub fn snapshot_cm_accounts(accounts: Vec<(String, usize)>) -> (parted: CandyMachineProgramAccounts)
    ensures
        machine_view(parted.candy_machine_accounts@) == accounts_by_kind(accounts@, true),
        config_view(parted.config_accounts@) == accounts_by_kind(accounts@, false),
{
    let mut config_accounts: Vec<ConfigAccount> = Vec::new();
    let mut candy_machine_accounts: Vec<CandyMachineAccount> = Vec::new();
    let ghost all = accounts@;
    proof {
        assert(machine_view(candy_machine_accounts@) =~= Seq::empty());
        assert(config_view(config_accounts@) =~= Seq::empty());
    }
    for account in it: accounts
        invariant
            it.seq() == all,
            machine_view(candy_machine_accounts@) == accounts_by_kind(
                all.take(it.index() as int),
                true,
            ),
            config_view(config_accounts@) == accounts_by_kind(all.take(it.index() as int), false),
    {
        let ghost machines = candy_machine_accounts@;
        let ghost configs = config_accounts@;
        proof {
            let upto = all.take(it.index() + 1);
            assert(upto.drop_last() == all.take(it.index() as int));
            assert(upto.last() == account);
        }
        let (address, length) = account;
        if length == CANDY_MACHINE_DATA_LEN {
            candy_machine_accounts.push(CandyMachineAccount { address, data_len: length });
            proof {
                assert(machine_view(candy_machine_accounts@) =~= machine_view(machines).push(
                    (address@, length),
                ));
            }
        } else {
            config_accounts.push(ConfigAccount { address, data_len: length });
            proof {
                assert(config_view(config_accounts@) =~= config_view(configs).push(
                    (address@, length),
                ));
            }
        }
    }
    proof {
        assert(all.take(all.len() as int) == all);
    }
    CandyMachineProgramAccounts { config_accounts, candy_machine_accounts }
}

/// Puts mint addresses in ascending order.
pub fn sort_mints(mint_addresses: Vec<String>) -> (sorted: Vec<String>)
    ensures
        texts(sorted@).to_multiset() == texts(mint_addresses@).to_multiset(),
        texts_ascending(texts(sorted@)),
{
    let mut sorted = mint_addresses;
    sort_texts(&mut sorted);
    sorted
}

/// Puts holders in ascending order: by owner, then by token account, then
/// by mint, then by metadata account.
pub fn sort_holders(holders: Vec<Holder>) -> (sorted: Vec<Holder>)
    ensures
        holders_view(sorted@).to_multiset() == holders_view(holders@).to_multiset(),
        rows_ascending(holders_view(sorted@)),
{
    let mut rows: Vec<(String, String, String, String)> = Vec::new();
    let ghost all = holders@;
    proof {
        assert(rows_view(rows@) =~= holders_view(all).take(0));
    }
    for holder in it: holders
        invariant
            it.seq() == all,
            rows_view(rows@) == holders_view(all).take(it.index() as int),
    {
        let ghost before = rows@;
        rows.push(
            (
                holder.owner_wallet,
                holder.associated_token_address,
                holder.mint_account,
                holder.metadata_account,
            ),
        );
        proof {
            assert(rows_view(rows@) =~= rows_view(before).push(holder_view(holder)));
            assert(holders_view(all).take(it.index() + 1) =~= holders_view(all).take(
                it.index() as int,
            ).push(holder_view(holder)));
        }
    }
    proof {
        assert(holders_view(all).take(all.len() as int) == holders_view(all));
    }
    sort_rows(&mut rows);
    let mut sorted: Vec<Holder> = Vec::new();
    let ghost ordered = rows@;
    proof {
        assert(holders_view(sorted@) =~= rows_view(ordered).take(0));
    }
    for row in it: rows
        invariant
            it.seq() == ordered,
            holders_view(sorted@) == rows_view(ordered).take(it.index() as int),
    {
        let ghost before = sorted@;
        let ghost plain = (row.0@, row.1@, row.2@, row.3@);
        let (owner_wallet, associated_token_address, mint_account, metadata_account) = row;
        sorted.push(Holder { owner_wallet, associated_token_address, mint_account, metadata_account });
        proof {
            assert(holders_view(sorted@) =~= holders_view(before).push(plain));
            assert(rows_view(ordered).take(it.index() + 1) =~= rows_view(ordered).take(
                it.index() as int,
            ).push(plain));
        }
    }
    proof {
        assert(rows_view(ordered).take(ordered.len() as int) == rows_view(ordered));
    }
    sorted
}

/// What came back from looking up holders, parted: the holders found, in
/// the order in which they came in, and the lookups that failed, each as
/// the account looked up with the reason.
pub fn snapshot_indexed_holders(results: Vec<(String, Result<Holder, String>)>) -> (parted: (
    Vec<(String, Holder)>,
    Vec<(String, String)>,
))
    ensures
        successes_view(parted.0@) == successes_of(results_view(results@)),
        failures_view(parted.1@) == failures_of(results_view(results@)),
{
    partition(results)
}

} // verus!
