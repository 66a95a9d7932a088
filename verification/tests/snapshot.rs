use metaboss::batch::pool::DispatchPolicy;
use metaboss::batch::retry::RunStatus;
use metaboss::commands::burn::{collection_metadata, Collection};
use metaboss::commands::decode::{edition_number, get_metadata_pda, DecodeError};
use metaboss::commands::snapshot::methods::{
    accepts_creators, account_source, check_mint_selectors, creator_filter_offset, current_owner,
    first_holder, holders_of_mint, parse_owner, parse_token_amount, snapshot_cm_accounts,
    snapshot_indexed_holders, sort_holders, sort_mints, AccountSource, CandyMachineAccount,
    ConfigAccount, Holder, SnapshotError, TokenAccount, TokenAccountData,
};
use metaboss::commands::update::creator::{
    data_with_creators, merge_creators, shares_sum_to_100, update_creator, DataV2, UpdateError, Uses,
};
use metaboss::commands::update::symbol::{
    data_with_name, data_with_symbol, update_symbol_all_run, UpdateSymbolAllArgs,
};
use metaboss::constants::{
    DEFAULT_BATCH_SIZE, DEFAULT_RPC_DELAY_MS, ERROR_FILE_BEGIN, MAX_CREATOR_LEN, MINT_LAYOUT,
    PUBLIC_RPC_URLS,
};
use metaboss::json::{JsonNumber, JsonValue};
use metaboss::parse::{Creator, ParseError};
use solana_program::pubkey::Pubkey;

const SYSTEM: &str = "11111111111111111111111111111111";

fn s(text: &str) -> String {
    text.to_string()
}

fn object(members: Vec<(&str, JsonValue)>) -> JsonValue {
    JsonValue::Object(members.into_iter().map(|(k, v)| (s(k), v)).collect())
}

fn token_account(amount: &str, owner: &str) -> JsonValue {
    object(vec![(
        "info",
        object(vec![
            ("owner", JsonValue::String(s(owner))),
            ("tokenAmount", object(vec![("amount", JsonValue::String(s(amount))), ("decimals", JsonValue::Number(JsonNumber::PosInt(0)))])),
        ]),
    )])
}

fn account(address: &str, amount: &str, owner: &str) -> TokenAccount {
    TokenAccount { address: s(address), data: TokenAccountData::Parsed(token_account(amount, owner)) }
}

fn holder(owner: &str, token: &str, mint: &str, metadata: &str) -> Holder {
    Holder { owner_wallet: s(owner), associated_token_address: s(token), mint_account: s(mint), metadata_account: s(metadata) }
}

fn creator(byte: u8, verified: bool, share: u8) -> Creator {
    Creator { address: [byte; 32], verified, share }
}

#[test]
fn token_amount_is_read() {
    assert_eq!(parse_token_amount(&token_account("1", "w")), Ok(1));
    assert_eq!(parse_token_amount(&token_account("18446744073709551615", "w")), Ok(u64::MAX));
    assert_eq!(parse_token_amount(&token_account("0", "w")), Ok(0));
}

#[test]
fn token_amount_errors() {
    assert_eq!(parse_token_amount(&object(vec![])), Err(SnapshotError::InvalidDataAccount));
    assert_eq!(parse_token_amount(&JsonValue::Null), Err(SnapshotError::InvalidDataAccount));
    assert_eq!(parse_token_amount(&object(vec![("info", object(vec![]))])), Err(SnapshotError::InvalidTokenAmount));
    let no_amount = object(vec![("info", object(vec![("tokenAmount", object(vec![]))]))]);
    assert_eq!(parse_token_amount(&no_amount), Err(SnapshotError::InvalidTokenAmount));
    let not_text = object(vec![(
        "info",
        object(vec![("tokenAmount", object(vec![("amount", JsonValue::Number(JsonNumber::PosInt(1)))]))]),
    )]);
    assert_eq!(parse_token_amount(&not_text), Err(SnapshotError::InvalidTokenAmount));
    assert_eq!(parse_token_amount(&token_account("one", "w")), Err(SnapshotError::InvalidAmountNumber));
    assert_eq!(parse_token_amount(&token_account("-1", "w")), Err(SnapshotError::InvalidAmountNumber));
    assert_eq!(parse_token_amount(&token_account("18446744073709551616", "w")), Err(SnapshotError::InvalidAmountNumber));
}

#[test]
fn owner_is_read() {
    assert_eq!(parse_owner(&token_account("1", "wallet")), Ok(s("wallet")));
    assert_eq!(parse_owner(&object(vec![])), Err(SnapshotError::InvalidOwnerAccount));
    assert_eq!(parse_owner(&object(vec![("info", object(vec![]))])), Err(SnapshotError::InvalidOwnerAccount));
    let not_text = object(vec![("info", object(vec![("owner", JsonValue::Bool(true))]))]);
    assert_eq!(parse_owner(&not_text), Err(SnapshotError::InvalidOwnerAmount));
}

#[test]
fn current_owner_holds_exactly_one_token() {
    assert_eq!(current_owner(&TokenAccountData::Parsed(token_account("1", "w"))), Some(s("w")));
    assert_eq!(current_owner(&TokenAccountData::Parsed(token_account("0", "w"))), None);
    assert_eq!(current_owner(&TokenAccountData::Parsed(token_account("2", "w"))), None);
    assert_eq!(current_owner(&TokenAccountData::Parsed(token_account("01", "w"))), Some(s("w")));
    assert_eq!(current_owner(&TokenAccountData::Unparsed), None);
    assert_eq!(current_owner(&TokenAccountData::Undecodable), None);
    let no_owner = object(vec![("info", object(vec![("tokenAmount", object(vec![("amount", JsonValue::String(s("1")))]))]))]);
    assert_eq!(current_owner(&TokenAccountData::Parsed(no_owner)), None);
}

#[test]
fn holders_of_a_mint_are_the_accounts_with_one_token() {
    let accounts = vec![
        account("t1", "0", "old"),
        TokenAccount { address: s("t2"), data: TokenAccountData::Unparsed },
        account("t3", "1", "now"),
        account("t4", "x", "bad"),
        account("t5", "1", "also"),
    ];
    assert_eq!(
        holders_of_mint(&accounts, "mint", "md"),
        vec![holder("now", "t3", "mint", "md"), holder("also", "t5", "mint", "md")]
    );
    assert_eq!(holders_of_mint(&Vec::new(), "mint", "md"), vec![]);
}

#[test]
fn first_holder_is_the_first_account_with_one_token() {
    let accounts = vec![
        account("t1", "0", "old"),
        TokenAccount { address: s("t2"), data: TokenAccountData::Unparsed },
        account("t3", "1", "now"),
        TokenAccount { address: s("t4"), data: TokenAccountData::Undecodable },
        account("t5", "1", "also"),
    ];
    assert_eq!(first_holder(&accounts, "mint", "md"), Ok(holder("now", "t3", "mint", "md")));
}

#[test]
fn first_holder_errors() {
    assert_eq!(first_holder(&Vec::new(), "mint", "md"), Err(SnapshotError::NoHolderFound));
    let none = vec![account("t1", "0", "old"), account("t2", "2", "two")];
    assert_eq!(first_holder(&none, "mint", "md"), Err(SnapshotError::NoHolderFound));
    let broken = vec![
        account("t1", "0", "old"),
        TokenAccount { address: s("t2"), data: TokenAccountData::Undecodable },
        account("t3", "1", "now"),
    ];
    assert_eq!(first_holder(&broken, "mint", "md"), Err(SnapshotError::UndecodableAccount));
}

#[test]
fn holders_are_sorted_by_their_fields_in_order() {
    let given = vec![
        holder("b", "t1", "m1", "d1"),
        holder("a", "t9", "m1", "d1"),
        holder("a", "t2", "m2", "d1"),
        holder("a", "t2", "m1", "d2"),
        holder("a", "t2", "m1", "d1"),
        holder("", "z", "z", "z"),
    ];
    let mut expected = given.clone();
    expected.sort();
    let sorted = sort_holders(given);
    assert_eq!(sorted, expected);
    assert_eq!(sorted[0], holder("", "z", "z", "z"));
    assert_eq!(sorted[1], holder("a", "t2", "m1", "d1"));
    assert_eq!(sorted[5], holder("b", "t1", "m1", "d1"));
}

#[test]
fn mints_are_sorted() {
    assert_eq!(sort_mints(vec![s("b"), s("a"), s("B"), s("a")]), vec![s("B"), s("a"), s("a"), s("b")]);
    assert_eq!(sort_mints(Vec::new()), Vec::<String>::new());
}

#[test]
fn indexed_holders_are_parted_from_failed_lookups() {
    let results = vec![
        (s("md1"), Ok(holder("w1", "t1", "m1", "md1"))),
        (s("md2"), Err(s("No holder found for mint m2"))),
        (s("md3"), Ok(holder("w3", "t3", "m3", "md3"))),
    ];
    let (found, failed) = snapshot_indexed_holders(results);
    assert_eq!(found, vec![(s("md1"), holder("w1", "t1", "m1", "md1")), (s("md3"), holder("w3", "t3", "m3", "md3"))]);
    assert_eq!(failed, vec![(s("md2"), s("No holder found for mint m2"))]);
}

#[test]
fn unverified_creators_are_let_in_on_request() {
    let creators = Some(vec![creator(1, false, 100), creator(2, true, 0)]);
    assert!(!accepts_creators(&creators, 0, false));
    assert!(accepts_creators(&creators, 0, true));
    assert!(accepts_creators(&creators, 1, false));
    assert!(!accepts_creators(&None, 0, false));
    assert!(accepts_creators(&None, 0, true));
}

#[test]
fn account_source_prefers_the_update_authority() {
    assert_eq!(account_source(&Some(s("c")), &Some(s("ua")), true), Ok(AccountSource::UpdateAuthority(s("ua"))));
    assert_eq!(account_source(&Some(s("c")), &None, false), Ok(AccountSource::Creator(s("c"))));
    assert_eq!(account_source(&Some(s("c")), &None, true), Ok(AccountSource::CandyMachineV2(s("c"))));
    assert_eq!(account_source(&None, &None, true), Err(SnapshotError::MissingSelector));
}

#[test]
fn mint_snapshot_needs_exactly_one_selector() {
    assert_eq!(check_mint_selectors(&Some(s("c")), &None), Ok(()));
    assert_eq!(check_mint_selectors(&None, &Some(s("ua"))), Ok(()));
    assert_eq!(check_mint_selectors(&Some(s("c")), &Some(s("ua"))), Err(SnapshotError::SelectorConflict));
    assert_eq!(check_mint_selectors(&None, &None), Err(SnapshotError::SelectorConflict));
}

#[test]
fn creator_offset_in_metadata() {
    assert_eq!(creator_filter_offset(0), Ok(326));
    assert_eq!(creator_filter_offset(1), Ok(360));
    assert_eq!(creator_filter_offset(4), Ok(462));
    assert_eq!(creator_filter_offset(5), Err(SnapshotError::CreatorPositionTooLarge));
    assert_eq!(creator_filter_offset(usize::MAX), Err(SnapshotError::CreatorPositionTooLarge));
}

#[test]
fn candy_machine_accounts_are_parted_by_length() {
    let parted = snapshot_cm_accounts(vec![(s("a"), 529), (s("b"), 100), (s("c"), 529), (s("d"), 530), (s("e"), 0)]);
    assert_eq!(
        parted.candy_machine_accounts,
        vec![CandyMachineAccount { address: s("a"), data_len: 529 }, CandyMachineAccount { address: s("c"), data_len: 529 }]
    );
    assert_eq!(
        parted.config_accounts,
        vec![
            ConfigAccount { address: s("b"), data_len: 100 },
            ConfigAccount { address: s("d"), data_len: 530 },
            ConfigAccount { address: s("e"), data_len: 0 },
        ]
    );
}

#[test]
fn edition_number_is_the_edition_or_the_first_of_the_marker() {
    assert_eq!(edition_number(Some(5), Some(1)), Ok(5));
    assert_eq!(edition_number(Some(5), None), Ok(5));
    assert_eq!(edition_number(None, Some(2)), Ok(496));
    assert_eq!(edition_number(None, Some(0)), Ok(0));
    assert_eq!(edition_number(None, Some(u64::MAX / 248)), Ok(u64::MAX / 248 * 248));
    assert_eq!(edition_number(None, Some(u64::MAX / 248 + 1)), Err(DecodeError::EditionNumberOverflow));
    assert_eq!(edition_number(None, None), Err(DecodeError::MissingEditionNumber));
}

fn expected_metadata_pda(mint: &[u8; 32]) -> [u8; 32] {
    let program: Pubkey = "metaqbxxUerdq28cj1RbAWkYQm3ybzjb6a8bt518x1s".parse().unwrap();
    let (address, _) = Pubkey::find_program_address(&[b"metadata", program.as_ref(), mint], &program);
    address.to_bytes()
}

#[test]
fn metadata_address_is_derived_from_the_mint() {
    let system = [0u8; 32];
    let other = [7u8; 32];
    assert_eq!(get_metadata_pda(&system), Some(expected_metadata_pda(&system)));
    assert_eq!(get_metadata_pda(&other), Some(expected_metadata_pda(&other)));
    assert_ne!(get_metadata_pda(&system), get_metadata_pda(&other));
    assert_ne!(get_metadata_pda(&other), Some(other));
    assert_eq!(SYSTEM.parse::<Pubkey>().unwrap().to_bytes(), system);
}

#[test]
fn burn_names_the_collection_of_a_verified_item_only() {
    let key = [9u8; 32];
    assert_eq!(collection_metadata(&Some(Collection { verified: true, key })), Some(expected_metadata_pda(&key)));
    assert_eq!(collection_metadata(&Some(Collection { verified: false, key })), None);
    assert_eq!(collection_metadata(&None), None);
}

#[test]
fn given_creators_replace_or_are_appended() {
    let old = vec![creator(1, true, 100)];
    let given = vec![creator(2, false, 0), creator(3, false, 0)];
    assert_eq!(merge_creators(Some(old.clone()), given.clone(), false), given);
    assert_eq!(merge_creators(None, given.clone(), false), given);
    assert_eq!(merge_creators(None, given.clone(), true), given);
    assert_eq!(
        merge_creators(Some(old.clone()), given.clone(), true),
        vec![creator(1, true, 100), creator(2, false, 0), creator(3, false, 0)]
    );
}

#[test]
fn appended_creators_fill_the_room_that_is_left() {
    let old = vec![creator(1, true, 40), creator(2, true, 30), creator(3, true, 20), creator(4, true, 10)];
    let given = vec![creator(5, false, 0), creator(6, false, 0)];
    let merged = merge_creators(Some(old.clone()), given.clone(), true);
    assert_eq!(merged.len(), 5);
    assert_eq!(merged[4], creator(5, false, 0));
    let full = vec![creator(1, true, 100); 5];
    assert_eq!(merge_creators(Some(full.clone()), given.clone(), true), full);
    // a token with more creators than there are places takes none
    let crowded = vec![creator(1, true, 10); 7];
    assert_eq!(merge_creators(Some(crowded.clone()), given.clone(), true), crowded);
    assert_eq!(merge_creators(Some(crowded), given.clone(), false), given);
}

#[test]
fn crowded_token_is_judged_by_its_shares_alone() {
    let crowded = vec![creator(1, true, 20); 6];
    assert_eq!(
        update_creator(Some(crowded.clone()), format!("{}:0:true", SYSTEM), true),
        Err(UpdateError::SharesMustSumTo100)
    );
    let mut exact = vec![creator(1, true, 20); 5];
    exact.push(creator(2, false, 0));
    assert_eq!(update_creator(Some(exact.clone()), format!("{}:0:true", SYSTEM), true), Ok(exact));
}

#[test]
fn constants_hold_the_known_values() {
    assert_eq!(PUBLIC_RPC_URLS.len(), 4);
    assert_eq!(PUBLIC_RPC_URLS[0], "https://api.devnet.solana.com");
    assert_eq!(PUBLIC_RPC_URLS[3], "https://solana-api.projectserum.com");
    assert!(PUBLIC_RPC_URLS.contains(&"https://api.mainnet-beta.solana.com"));
    assert_eq!(ERROR_FILE_BEGIN.lines().collect::<Vec<_>>(), vec!["#![allow(unused)]", "use phf::phf_map;", ""]);
    assert!(ERROR_FILE_BEGIN.ends_with("\n\n"));
    assert_eq!(DEFAULT_BATCH_SIZE.parse::<usize>(), Ok(10));
    assert_eq!((DEFAULT_RPC_DELAY_MS, MINT_LAYOUT, MAX_CREATOR_LEN), (200, 82, 34));
}

#[test]
fn shares_must_sum_to_100() {
    assert!(shares_sum_to_100(&vec![creator(1, true, 100)]));
    assert!(shares_sum_to_100(&vec![creator(1, true, 60), creator(2, true, 40), creator(3, true, 0)]));
    assert!(!shares_sum_to_100(&vec![creator(1, true, 60), creator(2, true, 39)]));
    assert!(!shares_sum_to_100(&vec![creator(1, true, 60), creator(2, true, 41)]));
    assert!(!shares_sum_to_100(&Vec::new()));
    // 200 + 156 is 100 only when counted in eight bits
    assert!(!shares_sum_to_100(&vec![creator(1, true, 200), creator(2, true, 156)]));
    assert!(!shares_sum_to_100(&vec![creator(1, true, 255); 1000]));
}

#[test]
fn creators_are_updated_from_the_command_line() {
    let given = format!("{}:100:true", SYSTEM);
    assert_eq!(update_creator(Some(vec![creator(1, true, 100)]), given.clone(), false), Ok(vec![creator(0, true, 100)]));
    assert_eq!(
        update_creator(Some(vec![creator(1, true, 100)]), given.clone(), true),
        Ok(vec![creator(1, true, 100), creator(0, true, 0)])
    );
    assert_eq!(update_creator(None, given, true), Err(UpdateError::SharesMustSumTo100));
    assert_eq!(
        update_creator(None, format!("{}:99:true", SYSTEM), false),
        Err(UpdateError::SharesMustSumTo100)
    );
    assert_eq!(
        update_creator(None, s("nobody:100:true"), false),
        Err(UpdateError::InvalidCreators(ParseError::InvalidCreatorAddress))
    );
}

fn data() -> DataV2 {
    DataV2 {
        name: s("n"),
        symbol: s("s"),
        uri: s("u"),
        seller_fee_basis_points: 5,
        creators: Some(vec![creator(1, true, 100)]),
        collection: Some(Collection { verified: true, key: [3; 32] }),
        uses: Some(Uses { use_method: 1, remaining: 2, total: 3 }),
    }
}

#[test]
fn data_is_rebuilt_with_one_field_changed() {
    assert_eq!(data_with_symbol(data(), s("NEW")), DataV2 { symbol: s("NEW"), ..data() });
    assert_eq!(data_with_name(data(), s("Name")), DataV2 { name: s("Name"), ..data() });
    assert_eq!(
        data_with_creators(data(), vec![creator(2, false, 100)]),
        DataV2 { creators: Some(vec![creator(2, false, 100)]), ..data() }
    );
}

#[test]
fn symbol_update_run_uses_batch_size_and_retries() {
    let args = UpdateSymbolAllArgs {
        keypair: None,
        mint_list: Some(s("mints.json")),
        cache_file: None,
        new_symbol: s("NEW"),
        batch_size: 2,
        retries: 0,
    };
    let mut run = update_symbol_all_run(vec![s("m1"), s("m2"), s("m3")], &args);
    let tickets = run.dispatch();
    assert_eq!(tickets.len(), 2);
    assert_eq!(run.status(), RunStatus::Running);
    let _ = DispatchPolicy::StrictSemaphore;
}
