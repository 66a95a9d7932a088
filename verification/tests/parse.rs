use metaboss::json::{JsonNumber, JsonValue};
use metaboss::parse::number::{
    chars_of, parse_bool, parse_i64, parse_u64, parse_u8, signed_to_hex_upper, to_hex_upper,
};
use metaboss::parse::{
    convert_local_to_remote_data, creator_is_verified, find_errors, is_only_one_option,
    normalize_error_code, parse_cli_creators, parse_creators, parse_errors_code, parse_name,
    parse_seller_fee_basis_points, parse_symbol, read_number, read_text, split_text, Creator,
    Data, FoundError, KnownError, NFTCreator, NFTData, ParseError,
};

const SYSTEM: &str = "11111111111111111111111111111111";
const METADATA: &str = "metaqbxxUerdq28cj1RbAWkYQm3ybzjb6a8bt518x1s";

fn s(text: &str) -> String {
    text.to_string()
}

fn text(value: &str) -> JsonValue {
    JsonValue::String(s(value))
}

fn number(value: u64) -> JsonValue {
    JsonValue::Number(JsonNumber::PosInt(value))
}

fn object(members: Vec<(&str, JsonValue)>) -> JsonValue {
    JsonValue::Object(members.into_iter().map(|(k, v)| (s(k), v)).collect())
}

fn address_bytes(address: &str) -> [u8; 32] {
    let bytes = bs58::decode(address).into_vec().unwrap();
    let mut out = [0u8; 32];
    out.copy_from_slice(&bytes);
    out
}

#[test]
fn only_one_option() {
    assert!(is_only_one_option(&Some(1), &None::<u8>));
    assert!(is_only_one_option(&None::<u8>, &Some("x")));
    assert!(!is_only_one_option(&Some(1), &Some("x")));
    assert!(!is_only_one_option(&None::<u8>, &None::<u8>));
}

#[test]
fn json_readers_answer_by_kind() {
    let doc = object(vec![("a", text("x")), ("n", number(3)), ("l", JsonValue::Array(vec![number(1)]))]);
    assert_eq!(doc.get("a"), Some(&text("x")));
    assert_eq!(doc.get("missing"), None);
    assert_eq!(text("x").get("a"), None);
    assert_eq!(JsonValue::Array(vec![]).get("a"), None);
    assert_eq!(text("x").as_str(), Some("x"));
    assert_eq!(number(1).as_str(), None);
    assert_eq!(number(9).as_u64(), Some(9));
    assert_eq!(JsonValue::Number(JsonNumber::NegInt(-1)).as_u64(), None);
    assert_eq!(JsonValue::Number(JsonNumber::Float).as_u64(), None);
    assert_eq!(text("9").as_u64(), None);
    assert_eq!(doc.get("l").unwrap().as_array(), Some(&vec![number(1)]));
    assert_eq!(JsonValue::Null.as_array(), None);
    assert_eq!(JsonValue::Bool(true).as_u64(), None);
}

#[test]
fn name_symbol_and_fee_are_read_from_the_document() {
    let doc = object(vec![
        ("name", text("Token #1")),
        ("symbol", text("TKN")),
        ("seller_fee_basis_points", number(500)),
    ]);
    assert_eq!(parse_name(&doc), Ok(s("Token #1")));
    assert_eq!(parse_symbol(&doc), Ok(s("TKN")));
    assert_eq!(parse_seller_fee_basis_points(&doc), Ok(500));
}

#[test]
fn missing_or_mistyped_members_are_refused() {
    let doc = object(vec![("name", number(1)), ("seller_fee_basis_points", text("5"))]);
    assert_eq!(parse_name(&doc), Err(ParseError::InvalidName));
    assert_eq!(parse_symbol(&doc), Err(ParseError::InvalidSymbol));
    assert_eq!(parse_seller_fee_basis_points(&doc), Err(ParseError::InvalidSellerFeeBasisPoints));
    assert_eq!(parse_name(&JsonValue::Null), Err(ParseError::InvalidName));
    assert_eq!(read_text(&doc, "x", ParseError::InvalidAddress), Err(ParseError::InvalidAddress));
    assert_eq!(read_number(&doc, "name", ParseError::InvalidShare), Ok(1));
}

#[test]
fn fee_is_cut_to_sixteen_bits() {
    let doc = object(vec![("seller_fee_basis_points", number(65536 + 7))]);
    assert_eq!(parse_seller_fee_basis_points(&doc), Ok(7));
    let doc = object(vec![("seller_fee_basis_points", number(65535))]);
    assert_eq!(parse_seller_fee_basis_points(&doc), Ok(65535));
}

#[test]
fn creators_are_read_unverified() {
    let doc = JsonValue::Array(vec![
        object(vec![("address", text("addr1")), ("share", number(60))]),
        object(vec![("share", number(300)), ("address", text("addr2")), ("verified", JsonValue::Bool(true))]),
    ]);
    assert_eq!(
        parse_creators(&doc),
        Ok(vec![
            NFTCreator { address: s("addr1"), verified: false, share: 60 },
            NFTCreator { address: s("addr2"), verified: false, share: 44 },
        ])
    );
    assert_eq!(parse_creators(&JsonValue::Array(vec![])), Ok(vec![]));
}

#[test]
fn creators_reading_stops_at_the_first_bad_element() {
    assert_eq!(parse_creators(&object(vec![])), Err(ParseError::InvalidCreatorsArray));
    let no_address = JsonValue::Array(vec![object(vec![("share", number(1))])]);
    assert_eq!(parse_creators(&no_address), Err(ParseError::InvalidAddress));
    let bad_address = JsonValue::Array(vec![object(vec![("address", number(1)), ("share", number(1))])]);
    assert_eq!(parse_creators(&bad_address), Err(ParseError::InvalidAddress));
    let no_share = JsonValue::Array(vec![
        object(vec![("address", text("a")), ("share", number(1))]),
        object(vec![("address", text("b"))]),
        object(vec![("share", number(1))]),
    ]);
    assert_eq!(parse_creators(&no_share), Err(ParseError::InvalidShare));
    let negative = JsonValue::Array(vec![object(vec![
        ("address", text("a")),
        ("share", JsonValue::Number(JsonNumber::NegInt(-5))),
    ])]);
    assert_eq!(parse_creators(&negative), Err(ParseError::InvalidShare));
}

#[test]
fn creator_is_verified_at_its_position() {
    let creators = Some(vec![
        Creator { address: [1; 32], verified: false, share: 50 },
        Creator { address: [2; 32], verified: true, share: 50 },
    ]);
    assert!(!creator_is_verified(&creators, 0));
    assert!(creator_is_verified(&creators, 1));
    assert!(!creator_is_verified(&None, 3));
}

#[test]
fn local_data_is_converted_with_decoded_addresses() {
    let local = NFTData {
        name: s("n"),
        symbol: s("s"),
        uri: s("u"),
        seller_fee_basis_points: 250,
        creators: Some(vec![
            NFTCreator { address: s(SYSTEM), verified: true, share: 30 },
            NFTCreator { address: s(METADATA), verified: false, share: 70 },
        ]),
    };
    let remote = convert_local_to_remote_data(local).unwrap();
    assert_eq!(
        remote,
        Data {
            name: s("n"),
            symbol: s("s"),
            uri: s("u"),
            seller_fee_basis_points: 250,
            creators: Some(vec![
                Creator { address: [0; 32], verified: true, share: 30 },
                Creator { address: address_bytes(METADATA), verified: false, share: 70 },
            ]),
        }
    );
    assert_ne!(address_bytes(METADATA), [0u8; 32]);
}

#[test]
fn local_data_without_creators_or_with_a_bad_address() {
    let none = NFTData { name: s("n"), symbol: s("s"), uri: s("u"), seller_fee_basis_points: 1, creators: None };
    assert_eq!(convert_local_to_remote_data(none).unwrap().creators, None);
    let bad = NFTData {
        name: s("n"),
        symbol: s("s"),
        uri: s("u"),
        seller_fee_basis_points: 1,
        creators: Some(vec![
            NFTCreator { address: s(SYSTEM), verified: true, share: 30 },
            NFTCreator { address: s("not an address"), verified: false, share: 70 },
        ]),
    };
    assert_eq!(convert_local_to_remote_data(bad), Err(ParseError::InvalidCreatorAddress));
}

#[test]
fn text_is_split_as_the_standard_library_splits() {
    for given in ["", "a", "a,b", ",", "a,,b,", ",,", "ab:cd,ef", "é,ü"] {
        let expected: Vec<String> = given.split(',').map(|p| p.to_string()).collect();
        assert_eq!(split_text(given, ','), expected, "splitting {:?}", given);
    }
    assert_eq!(split_text("a:b:c", ':'), vec![s("a"), s("b"), s("c")]);
}

#[test]
fn cli_creators_are_read() {
    let given = format!("{}:70:true,{}:30:false", SYSTEM, METADATA);
    assert_eq!(
        parse_cli_creators(given, false),
        Ok(vec![
            Creator { address: [0; 32], verified: true, share: 70 },
            Creator { address: address_bytes(METADATA), verified: false, share: 30 },
        ])
    );
    // further fields are not looked at
    let given = format!("{}:255:false:more", SYSTEM);
    assert_eq!(
        parse_cli_creators(given, false),
        Ok(vec![Creator { address: [0; 32], verified: false, share: 255 }])
    );
}

#[test]
fn appended_cli_creators_have_no_share() {
    let given = format!("{}:70:true", SYSTEM);
    assert_eq!(
        parse_cli_creators(given, true),
        Ok(vec![Creator { address: [0; 32], verified: true, share: 0 }])
    );
    let given = format!("{}:not a number:false", SYSTEM);
    assert_eq!(
        parse_cli_creators(given, true),
        Ok(vec![Creator { address: [0; 32], verified: false, share: 0 }])
    );
    let given = format!("{}:true", SYSTEM);
    assert_eq!(parse_cli_creators(given, true), Err(ParseError::MissingCreatorVerified));
}

#[test]
fn cli_creators_errors() {
    assert_eq!(parse_cli_creators(s(""), false), Err(ParseError::InvalidCreatorAddress));
    assert_eq!(parse_cli_creators(s("nobody:1:true"), false), Err(ParseError::InvalidCreatorAddress));
    assert_eq!(parse_cli_creators(s(SYSTEM), false), Err(ParseError::MissingCreatorShare));
    assert_eq!(parse_cli_creators(format!("{}:256:true", SYSTEM), false), Err(ParseError::InvalidCreatorShare));
    assert_eq!(parse_cli_creators(format!("{}: 5:true", SYSTEM), false), Err(ParseError::InvalidCreatorShare));
    assert_eq!(parse_cli_creators(format!("{}:5", SYSTEM), false), Err(ParseError::MissingCreatorVerified));
    assert_eq!(parse_cli_creators(format!("{}:5:yes", SYSTEM), false), Err(ParseError::InvalidCreatorVerified));
    assert_eq!(parse_cli_creators(format!("{}:5:True", SYSTEM), false), Err(ParseError::InvalidCreatorVerified));
    // the first error counts
    assert_eq!(
        parse_cli_creators(format!("{}:5:true,{}:x:true,bad", SYSTEM, SYSTEM), false),
        Err(ParseError::InvalidCreatorShare)
    );
}

#[test]
fn more_than_five_cli_creators_are_refused() {
    let one = format!("{}:1:true", SYSTEM);
    let five = vec![one.clone(); 5].join(",");
    assert_eq!(parse_cli_creators(five, false).unwrap().len(), 5);
    let six = vec![one.clone(); 6].join(",");
    assert_eq!(parse_cli_creators(six, false), Err(ParseError::TooManyCreators));
    // an entry that cannot be read is reported before the number of entries
    let seven = format!("{},bad", vec![one; 6].join(","));
    assert_eq!(parse_cli_creators(seven, false), Err(ParseError::InvalidCreatorAddress));
}

#[test]
fn numbers_are_read_as_the_standard_library_reads_them() {
    let samples = [
        "", "0", "7", "+7", "-7", "007", "255", "256", "-0", "+0", "+", "-", "++1", "1 ", " 1", "1a", "a",
        "१", "18446744073709551615", "18446744073709551616", "9223372036854775807", "9223372036854775808",
        "-9223372036854775808", "-9223372036854775809", "99999999999999999999999", "1e3", "0x10", "1_000",
    ];
    for given in samples {
        assert_eq!(parse_u8(given), given.parse::<u8>().ok(), "u8 of {:?}", given);
        assert_eq!(parse_u64(given), given.parse::<u64>().ok(), "u64 of {:?}", given);
        assert_eq!(parse_i64(given), given.parse::<i64>().ok(), "i64 of {:?}", given);
        assert_eq!(parse_bool(given), given.parse::<bool>().ok(), "bool of {:?}", given);
    }
    assert_eq!(parse_u8("200"), Some(200));
    assert_eq!(parse_i64("-42"), Some(-42));
    assert_eq!(parse_bool("true"), Some(true));
    assert_eq!(parse_bool("false"), Some(false));
    assert_eq!(parse_bool("TRUE"), None);
    assert_eq!(chars_of("aé"), vec!['a', 'é']);
}

#[test]
fn hexadecimal_is_written_as_the_standard_library_writes_it() {
    for value in [0u64, 1, 9, 10, 15, 16, 255, 256, 6000, 0xDEADBEEF, u64::MAX, 1 << 63] {
        assert_eq!(to_hex_upper(value), format!("{:X}", value));
    }
    for value in [0i64, 1, -1, 100, -100, i64::MAX, i64::MIN, 6000] {
        assert_eq!(signed_to_hex_upper(value), format!("{:X}", value));
    }
    assert_eq!(to_hex_upper(6000), "1770");
    assert_eq!(signed_to_hex_upper(-1), "FFFFFFFFFFFFFFFF");
}

#[test]
fn error_codes_are_normalized() {
    assert_eq!(normalize_error_code("0x1770"), Some(s("1770")));
    assert_eq!(normalize_error_code("6000"), Some(s("1770")));
    assert_eq!(normalize_error_code("100"), Some(s("64")));
    assert_eq!(normalize_error_code("-1"), Some(s("FFFFFFFFFFFFFFFF")));
    assert_eq!(normalize_error_code("0"), Some(s("0")));
    assert_eq!(normalize_error_code("0x"), Some(s("")));
    assert_eq!(normalize_error_code("10x20"), Some(s("120")));
    assert_eq!(normalize_error_code("0x0x1"), Some(s("1")));
    assert_eq!(normalize_error_code("00xx"), Some(s("0x")));
    assert_eq!(normalize_error_code("abc"), None);
    assert_eq!(normalize_error_code(""), None);
    assert_eq!(normalize_error_code("x0"), None);
    for given in ["0x1770", "a0xb0xc", "0x", "00xx", "x0x", "0x0x0x"] {
        assert_eq!(normalize_error_code(given), Some(given.replace("0x", "")), "marks of {:?}", given);
    }
}

fn known() -> Vec<KnownError> {
    vec![
        KnownError { code: s("1770"), domain: s("Token Metadata"), message: s("Instruction unpack error") },
        KnownError { code: s("64"), domain: s("Anchor"), message: s("Instruction missing") },
        KnownError { code: s("1770"), domain: s("Candy Machine"), message: s("Incorrect owner") },
    ]
}

#[test]
fn error_codes_are_looked_up() {
    let found = parse_errors_code("0x1770", &known()).unwrap();
    assert_eq!(
        found,
        vec![
            FoundError { domain: s("Token Metadata"), message: s("Instruction unpack error") },
            FoundError { domain: s("Candy Machine"), message: s("Incorrect owner") },
        ]
    );
    assert_eq!(parse_errors_code("6000", &known()).unwrap().len(), 2);
    assert_eq!(
        parse_errors_code("100", &known()),
        Ok(vec![FoundError { domain: s("Anchor"), message: s("Instruction missing") }])
    );
    assert_eq!(find_errors("64", &known()).len(), 1);
    assert!(find_errors("65", &known()).is_empty());
}

#[test]
fn unknown_or_unreadable_error_codes_are_refused() {
    assert_eq!(parse_errors_code("0x9999", &known()), Err(ParseError::InvalidErrorCode));
    assert_eq!(parse_errors_code("1", &known()), Err(ParseError::InvalidErrorCode));
    assert_eq!(parse_errors_code("one", &known()), Err(ParseError::InvalidNumber));
    assert_eq!(parse_errors_code("1770", &Vec::new()), Err(ParseError::InvalidErrorCode));
}
