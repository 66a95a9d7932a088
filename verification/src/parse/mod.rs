//! Readers of what the tool is given: metadata documents and command-line
//! text.

pub mod keypair;
pub mod number;

use crate::json::JsonValue;
use crate::outside::address::{pubkey_bytes, pubkey_from_str};
use crate::parse::number::{
    bits_of, chars_of, decimal_number, hex_upper, parse_bool, parse_i64, parse_u8,
    signed_to_hex_upper, truth_value,
};
use crate::text::texts;
use vstd::prelude::*;

verus! {

/// Why something given to the tool could not be read.
#[derive(Debug, PartialEq, Eq, Structural, Clone, Copy)]
pub enum ParseError {
    /// The creators of a document are not an array.
    InvalidCreatorsArray,
    /// A creator of a document has no address that is a string.
    InvalidAddress,
    /// A creator of a document has no share that is a number.
    InvalidShare,
    /// A document has no name that is a string.
    InvalidName,
    /// A document has no symbol that is a string.
    InvalidSymbol,
    /// A document has no seller fee that is a number.
    InvalidSellerFeeBasisPoints,
    /// A creator's address does not name an address.
    InvalidCreatorAddress,
    /// A creator on the command line has no share.
    MissingCreatorShare,
    /// A creator's share on the command line is not a number from 0 to 255.
    InvalidCreatorShare,
    /// A creator on the command line does not say whether it is verified.
    MissingCreatorVerified,
    /// What a creator on the command line says of being verified is neither
    /// `true` nor `false`.
    InvalidCreatorVerified,
    /// More than five creators were given.
    TooManyCreators,
    /// An error code is not a number.
    InvalidNumber,
    /// No error is known under the code.
    InvalidErrorCode,
}

/// A creator as a metadata document names it.
#[derive(Clone, Debug, PartialEq, Eq)]
pub struct NFTCreator {
    pub address: String,
    pub verified: bool,
    pub share: u8,
}

/// The data of a token as a metadata document gives it.
#[derive(Clone, Debug, PartialEq, Eq)]
pub struct NFTData {
    pub name: String,
    pub symbol: String,
    pub uri: String,
    pub seller_fee_basis_points: u16,
    pub creators: Option<Vec<NFTCreator>>,
}

/// A creator as the ledger holds it.
#[derive(Clone, Debug, PartialEq, Eq)]
pub struct Creator {
    pub address: [u8; 32],
    pub verified: bool,
    pub share: u8,
}

/// The data of a token as the ledger holds it.
#[derive(Clone, Debug, PartialEq, Eq)]
pub struct Data {
    pub name: String,
    pub symbol: String,
    pub uri: String,
    pub seller_fee_basis_points: u16,
    pub creators: Option<Vec<Creator>>,
}

/// What a document's creator holds, as plain values: address, verified,
/// share.
pub open spec fn creator_view(creator: NFTCreator) -> (Seq<char>, bool, u8) {
    (creator.address@, creator.verified, creator.share)
}

/// What a document's creators hold, one by one.
pub open spec fn creators_view(creators: Seq<NFTCreator>) -> Seq<(Seq<char>, bool, u8)> {
    Seq::new(creators.len(), |i: int| creator_view(creators[i]))
}

/// What the ledger's creators hold, one by one: address, verified, share.
pub open spec fn ledger_creators_view(creators: Seq<Creator>) -> Seq<(Seq<u8>, bool, u8)> {
    Seq::new(creators.len(), |i: int| (creators[i].address@, creators[i].verified, creators[i].share))
}

/// The values of all results, in order, or the first error among them.
pub open spec fn collect_results<T>(results: Seq<Result<T, ParseError>>) -> Result<
    Seq<T>,
    ParseError,
>
    decreases results.len(),
{
    if results.len() == 0 {
        Ok(Seq::empty())
    } else {
        match collect_results(results.drop_last()) {
            Err(e) => Err(e),
            Ok(before) => match results.last() {
                Err(e) => Err(e),
                Ok(value) => Ok(before.push(value)),
            },
        }
    }
}

/// An error among the first results is the error of the whole.
pub proof fn lemma_first_error_stays<T>(results: Seq<Result<T, ParseError>>, upto: int)
    requires
        0 <= upto <= results.len(),
        collect_results(results.take(upto)) is Err,
    ensures
        collect_results(results) == collect_results(results.take(upto)),
    decreases results.len() - upto,
{
    if upto < results.len() {
        let longer = results.take(upto + 1);
        assert(longer.drop_last() == results.take(upto));
        lemma_first_error_stays(results, upto + 1);
    } else {
        assert(results.take(upto) == results);
    }
}

/// True when exactly one of the two options holds a value.
pub fn is_only_one_option<T, U>(option1: &Option<T>, option2: &Option<U>) -> (only_one: bool)
    ensures
        only_one == (option1.is_some() != option2.is_some()),
{
    match (option1, option2) {
        (Some(_), None) | (None, Some(_)) => true,
        (Some(_), Some(_)) => false,
        (None, None) => false,
    }
}

/// Whether the creator at `position` is verified.  Not so where there are
/// no creators.
pub fn creator_is_verified(creators_opt: &Option<Vec<Creator>>, position: usize) -> (verified: bool)
    requires
        creators_opt matches Some(creators) ==> position < creators@.len(),
    ensures
        verified == (creators_opt matches Some(creators) && creators@[position as int].verified),
{
    match creators_opt {
        Some(creators) => creators[position].verified,
        None => false,
    }
}

/// The text of the member `key` of `body`; `missing` where `body` has no
/// such member or the member is not a string.
pub open spec fn text_member(body: JsonValue, key: Seq<char>, missing: ParseError) -> Result<
    Seq<char>,
    ParseError,
> {
    match body.member(key) {
        Some(value) => match value.text() {
            Some(text) => Ok(text),
            None => Err(missing),
        },
        None => Err(missing),
    }
}

/// The number of the member `key` of `body`; `missing` where `body` has no
/// such member or the member is not an integer that is not negative.
pub open spec fn number_member(body: JsonValue, key: Seq<char>, missing: ParseError) -> Result<
    u64,
    ParseError,
> {
    match body.member(key) {
        Some(value) => match value.unsigned() {
            Some(number) => Ok(number),
            None => Err(missing),
        },
        None => Err(missing),
    }
}

/// Reads the text of a member.
pub fn read_text(body: &JsonValue, key: &str, missing: ParseError) -> (text: Result<
    String,
    ParseError,
>)
    ensures
        match text {
            Ok(t) => text_member(*body, key@, missing) == Ok::<Seq<char>, ParseError>(t@),
            Err(e) => text_member(*body, key@, missing) == Err::<Seq<char>, ParseError>(e),
        },
{
    match body.get(key) {
        Some(value) => match value.as_str() {
            Some(text) => Ok(String::from_str(text)),
            None => Err(missing),
        },
        None => Err(missing),
    }
}

/// Reads the number of a member.
pub fn read_number(body: &JsonValue, key: &str, missing: ParseError) -> (number: Result<
    u64,
    ParseError,
>)
    ensures
        number == number_member(*body, key@, missing),
{
    match body.get(key) {
        Some(value) => match value.as_u64() {
            Some(number) => Ok(number),
            None => Err(missing),
        },
        None => Err(missing),
    }
}

/// The name that a metadata document gives.
pub fn parse_name(body: &JsonValue) -> (name: Result<String, ParseError>)
    ensures
        match name {
            Ok(n) => text_member(*body, "name"@, ParseError::InvalidName) == Ok::<
                Seq<char>,
                ParseError,
            >(n@),
            Err(e) => e == ParseError::InvalidName && text_member(
                *body,
                "name"@,
                ParseError::InvalidName,
            ) is Err,
        },
{
    read_text(body, "name", ParseError::InvalidName)
}

/// The symbol that a metadata document gives.
pub fn parse_symbol(body: &JsonValue) -> (symbol: Result<String, ParseError>)
    ensures
        match symbol {
            Ok(s) => text_member(*body, "symbol"@, ParseError::InvalidSymbol) == Ok::<
                Seq<char>,
                ParseError,
            >(s@),
            Err(e) => e == ParseError::InvalidSymbol && text_member(
                *body,
                "symbol"@,
                ParseError::InvalidSymbol,
            ) is Err,
        },
{
    read_text(body, "symbol", ParseError::InvalidSymbol)
}

/// The seller fee that a metadata document gives, in basis points.  A
/// number that does not fit in sixteen bits is cut down to its low sixteen
/// bits.
pub fn parse_seller_fee_basis_points(body: &JsonValue) -> (fee: Result<u16, ParseError>)
    ensures
        match number_member(
            *body,
            "seller_fee_basis_points"@,
            ParseError::InvalidSellerFeeBasisPoints,
        ) {
            Ok(number) => fee == Ok::<u16, ParseError>((number % 65536) as u16),
            Err(_) => fee == Err::<u16, ParseError>(ParseError::InvalidSellerFeeBasisPoints),
        },
{
    match read_number(body, "seller_fee_basis_points", ParseError::InvalidSellerFeeBasisPoints) {
        Ok(number) => Ok((number % 65536) as u16),
        Err(e) => Err(e),
    }
}

/// The creator that one element of a creators array describes: its address
/// and its share, cut down to its low eight bits; never verified.
pub open spec fn creator_of(value: JsonValue) -> Result<(Seq<char>, bool, u8), ParseError> {
    match text_member(value, "address"@, ParseError::InvalidAddress) {
        Err(e) => Err(e),
        Ok(address) => match number_member(value, "share"@, ParseError::InvalidShare) {
            Err(e) => Err(e),
            Ok(share) => Ok((address, false, (share % 256) as u8)),
        },
    }
}

/// The creators that a creators array describes, or the first error met.
pub open spec fn parsed_creators(creators_json: JsonValue) -> Result<
    Seq<(Seq<char>, bool, u8)>,
    ParseError,
> {
    match creators_json.elements() {
        None => Err(ParseError::InvalidCreatorsArray),
        Some(elements) => collect_results(
            Seq::new(elements.len(), |i: int| creator_of(elements[i])),
        ),
    }
}

/// Reads the creators of a metadata document.  The value must be an array;
/// each element must have an address that is a string and a share that is an
/// integer not below zero.  The first element that does not stops the
/// reading.
pub fn parse_creators(creators_json: &JsonValue) -> (creators: Result<Vec<NFTCreator>, ParseError>)
    ensures
        match creators {
            Ok(list) => parsed_creators(*creators_json) == Ok::<
                Seq<(Seq<char>, bool, u8)>,
                ParseError,
            >(creators_view(list@)),
            Err(e) => parsed_creators(*creators_json) == Err::<
                Seq<(Seq<char>, bool, u8)>,
                ParseError,
            >(e),
        },
{
    let elements = match creators_json.as_array() {
        Some(elements) => elements,
        None => {
            return Err(ParseError::InvalidCreatorsArray);
        },
    };
    let ghost all = Seq::new(elements@.len(), |i: int| creator_of(elements@[i]));
    let mut creators: Vec<NFTCreator> = Vec::new();
    let mut i: usize = 0;
    proof {
        assert(creators_view(creators@) =~= Seq::empty());
        assert(all.take(0) =~= Seq::empty());
    }
    while i < elements.len()
        invariant
            i <= elements.len(),
            creators_json.elements() == Some(elements@),
            all == Seq::new(elements@.len(), |i: int| creator_of(elements@[i])),
            collect_results(all.take(i as int)) == Ok::<Seq<(Seq<char>, bool, u8)>, ParseError>(
                creators_view(creators@),
            ),
        decreases elements.len() - i,
    {
        let ghost before = creators@;
        proof {
            let upto = all.take(i + 1);
            assert(upto.drop_last() == all.take(i as int));
            assert(upto.last() == creator_of(elements@[i as int]));
        }
        let address = match read_text(&elements[i], "address", ParseError::InvalidAddress) {
            Ok(address) => address,
            Err(e) => {
                proof {
                    lemma_first_error_stays(all, i + 1);
                }
                return Err(e);
            },
        };
        let share = match read_number(&elements[i], "share", ParseError::InvalidShare) {
            Ok(share) => (share % 256) as u8,
            Err(e) => {
                proof {
                    lemma_first_error_stays(all, i + 1);
                }
                return Err(e);
            },
        };
        creators.push(NFTCreator { address, verified: false, share });
        proof {
            assert(creators_view(creators@) =~= creators_view(before).push(
                (address@, false, share),
            ));
        }
        i = i + 1;
    }
    proof {
        assert(all.take(all.len() as int) == all);
    }
    Ok(creators)
}

/// The creator on the ledger for a creator of a document, where the
/// document's address names an address.
pub open spec fn ledger_creator(creator: (Seq<char>, bool, u8)) -> Result<
    (Seq<u8>, bool, u8),
    ParseError,
> {
    match pubkey_bytes(creator.0) {
        Some(address) => Ok((address, creator.1, creator.2)),
        None => Err(ParseError::InvalidCreatorAddress),
    }
}

/// The creators on the ledger for the creators of a document.
pub open spec fn ledger_creators(creators: Seq<(Seq<char>, bool, u8)>) -> Result<
    Seq<(Seq<u8>, bool, u8)>,
    ParseError,
> {
    collect_results(Seq::new(creators.len(), |i: int| ledger_creator(creators[i])))
}

/// The data on the ledger has the name, symbol, address of the document
/// and fee of the data given.
pub open spec fn same_fields(data: Data, local: NFTData) -> bool {
    &&& data.name == local.name
    &&& data.symbol == local.symbol
    &&& data.uri == local.uri
    &&& data.seller_fee_basis_points == local.seller_fee_basis_points
}

fn convert_creator(creator: &NFTCreator) -> (converted: Result<Creator, ParseError>)
    ensures
        match converted {
            Ok(c) => ledger_creator(creator_view(*creator)) == Ok::<
                (Seq<u8>, bool, u8),
                ParseError,
            >((c.address@, c.verified, c.share)),
            Err(e) => ledger_creator(creator_view(*creator)) == Err::<
                (Seq<u8>, bool, u8),
                ParseError,
            >(e),
        },
{
    match pubkey_from_str(creator.address.as_str()) {
        Some(address) => Ok(Creator { address, verified: creator.verified, share: creator.share }),
        None => Err(ParseError::InvalidCreatorAddress),
    }
}

fn convert_creators(given: &Vec<NFTCreator>) -> (converted: Result<Vec<Creator>, ParseError>)
    ensures
        match converted {
            Ok(list) => ledger_creators(creators_view(given@)) == Ok::<
                Seq<(Seq<u8>, bool, u8)>,
                ParseError,
            >(ledger_creators_view(list@)),
            Err(e) => ledger_creators(creators_view(given@)) == Err::<
                Seq<(Seq<u8>, bool, u8)>,
                ParseError,
            >(e),
        },
{
    let ghost all = Seq::new(given@.len(), |i: int| ledger_creator(creators_view(given@)[i]));
    let mut converted: Vec<Creator> = Vec::new();
    let mut i: usize = 0;
    proof {
        assert(ledger_creators_view(converted@) =~= Seq::empty());
        assert(all.take(0) =~= Seq::empty());
        assert(all =~= Seq::new(
            creators_view(given@).len(),
            |i: int| ledger_creator(creators_view(given@)[i]),
        ));
    }
    while i < given.len()
        invariant
            i <= given.len(),
            all == Seq::new(given@.len(), |i: int| ledger_creator(creators_view(given@)[i])),
            ledger_creators(creators_view(given@)) == collect_results(all),
            collect_results(all.take(i as int)) == Ok::<Seq<(Seq<u8>, bool, u8)>, ParseError>(
                ledger_creators_view(converted@),
            ),
        decreases given.len() - i,
    {
        let ghost before = converted@;
        proof {
            let upto = all.take(i + 1);
            assert(upto.drop_last() == all.take(i as int));
            assert(upto.last() == ledger_creator(creator_view(given@[i as int])));
        }
        match convert_creator(&given[i]) {
            Ok(creator) => {
                let ghost plain = (creator.address@, creator.verified, creator.share);
                converted.push(creator);
                proof {
                    assert(ledger_creators_view(converted@) =~= ledger_creators_view(before).push(
                        plain,
                    ));
                }
            },
            Err(e) => {
                proof {
                    lemma_first_error_stays(all, i + 1);
                }
                return Err(e);
            },
        }
        i = i + 1;
    }
    proof {
        assert(all.take(all.len() as int) == all);
    }
    Ok(converted)
}

/// Turns the data of a document into the data that the ledger holds: the
/// same name, symbol, address of the document and fee, and each creator
/// with its address decoded.  Fails at the first creator whose address does
/// not name an address.
pub fn convert_local_to_remote_data(local: NFTData) -> (remote: Result<Data, ParseError>)
    ensures
        match local.creators {
            None => match remote {
                Ok(data) => same_fields(data, local) && data.creators is None,
                Err(_) => false,
            },
            Some(given) => match ledger_creators(creators_view(given@)) {
                Err(e) => remote == Err::<Data, ParseError>(e),
                Ok(converted) => match remote {
                    Ok(data) => same_fields(data, local) && match data.creators {
                        Some(list) => ledger_creators_view(list@) == converted,
                        None => false,
                    },
                    Err(_) => false,
                },
            },
        },
{
    let creators = match &local.creators {
        Some(given) => match convert_creators(given) {
            Ok(converted) => Some(converted),
            Err(e) => {
                return Err(e);
            },
        },
        None => None,
    };
    Ok(
        Data {
            name: local.name,
            symbol: local.symbol,
            uri: local.uri,
            seller_fee_basis_points: local.seller_fee_basis_points,
            creators,
        },
    )
}

/// The pieces of a text between the separators.  A text without separator
/// is one piece; two separators side by side have an empty piece between
/// them.
pub open spec fn split_on(text: Seq<char>, separator: char) -> Seq<Seq<char>>
    decreases text.len(),
{
    if text.len() == 0 {
        seq![Seq::empty()]
    } else {
        let before = split_on(text.drop_last(), separator);
        if text.last() == separator {
            before.push(Seq::empty())
        } else {
            before.update(before.len() - 1, before.last().push(text.last()))
        }
    }
}

/// Splits a text at every separator.
pub fn split_text(text: &str, separator: char) -> (pieces: Vec<String>)
    ensures
        texts(pieces@) == split_on(text@, separator),
        pieces@.len() >= 1,
{
    let chars = chars_of(text);
    let n = chars.len();
    let mut pieces: Vec<String> = Vec::new();
    let mut start: usize = 0;
    let mut i: usize = 0;
    proof {
        assert(text@.take(0) =~= Seq::empty());
        assert(texts(pieces@).push(text@.subrange(0, 0)) =~= seq![Seq::<char>::empty()]);
    }
    while i < n
        invariant
            start <= i <= n,
            n == text@.len(),
            chars@ == text@,
            split_on(text@.take(i as int), separator) == texts(pieces@).push(
                text@.subrange(start as int, i as int),
            ),
        decreases n - i,
    {
        let ghost done = pieces@;
        let ghost current = text@.subrange(start as int, i as int);
        proof {
            let upto = text@.take(i + 1);
            assert(upto.drop_last() == text@.take(i as int));
            assert(upto.last() == chars@[i as int]);
        }
        if chars[i] == separator {
            let piece = String::from_str(text.substring_char(start, i));
            pieces.push(piece);
            start = i + 1;
            proof {
                assert(texts(pieces@) =~= texts(done).push(current));
                assert(text@.subrange(i + 1, i + 1) =~= Seq::empty());
            }
        } else {
            proof {
                let before = texts(done).push(current);
                assert(text@.subrange(start as int, i + 1) =~= current.push(chars@[i as int]));
                assert(before.update(before.len() - 1, before.last().push(chars@[i as int]))
                    =~= texts(done).push(text@.subrange(start as int, i + 1)));
            }
        }
        i = i + 1;
    }
    let ghost done = pieces@;
    let last = String::from_str(text.substring_char(start, n));
    pieces.push(last);
    proof {
        assert(text@.take(n as int) == text@);
        assert(texts(pieces@) =~= texts(done).push(text@.subrange(start as int, n as int)));
    }
    pieces
}

/// The creator that the fields of one entry of the command line describe:
/// the address, then the share, then whether it is verified.  When creators
/// are appended the share is 0 whatever the entry says.
pub open spec fn cli_creator(fields: Seq<Seq<char>>, should_append: bool) -> Result<
    (Seq<u8>, bool, u8),
    ParseError,
> {
    if fields.len() < 1 {
        Err(ParseError::InvalidCreatorAddress)
    } else {
        match pubkey_bytes(fields[0]) {
            None => Err(ParseError::InvalidCreatorAddress),
            Some(address) => {
                let share: Result<u8, ParseError> = if should_append {
                    Ok(0u8)
                } else if fields.len() < 2 {
                    Err(ParseError::MissingCreatorShare)
                } else {
                    match decimal_number(fields[1], false, 0, 255) {
                        Some(n) => Ok(n as u8),
                        None => Err(ParseError::InvalidCreatorShare),
                    }
                };
                match share {
                    Err(e) => Err(e),
                    Ok(share) => if fields.len() < 3 {
                        Err(ParseError::MissingCreatorVerified)
                    } else {
                        match truth_value(fields[2]) {
                            Some(verified) => Ok((address, verified, share)),
                            None => Err(ParseError::InvalidCreatorVerified),
                        }
                    },
                }
            },
        }
    }
}

/// The creators that a text of the command line describes: entries parted
/// by commas, the fields of an entry parted by colons; at most five.
pub open spec fn parsed_cli_creators(text: Seq<char>, should_append: bool) -> Result<
    Seq<(Seq<u8>, bool, u8)>,
    ParseError,
> {
    let entries = split_on(text, ',');
    match collect_results(
        Seq::new(entries.len(), |i: int| cli_creator(split_on(entries[i], ':'), should_append)),
    ) {
        Err(e) => Err(e),
        Ok(creators) => if creators.len() > 5 {
            Err(ParseError::TooManyCreators)
        } else {
            Ok(creators)
        },
    }
}

fn parse_cli_creator(entry: &str, should_append: bool) -> (creator: Result<Creator, ParseError>)
    ensures
        match creator {
            Ok(c) => cli_creator(split_on(entry@, ':'), should_append) == Ok::<
                (Seq<u8>, bool, u8),
                ParseError,
            >((c.address@, c.verified, c.share)),
            Err(e) => cli_creator(split_on(entry@, ':'), should_append) == Err::<
                (Seq<u8>, bool, u8),
                ParseError,
            >(e),
        },
{
    let fields = split_text(entry, ':');
    proof {
        assert(forall|k: int| 0 <= k < fields@.len() ==> texts(fields@)[k] == fields@[k]@);
    }
    let address = match pubkey_from_str(fields[0].as_str()) {
        Some(address) => address,
        None => {
            return Err(ParseError::InvalidCreatorAddress);
        },
    };
    let share: u8 = if should_append {
        0
    } else if fields.len() < 2 {
        return Err(ParseError::MissingCreatorShare);
    } else {
        match parse_u8(fields[1].as_str()) {
            Some(share) => share,
            None => {
                return Err(ParseError::InvalidCreatorShare);
            },
        }
    };
    if fields.len() < 3 {
        return Err(ParseError::MissingCreatorVerified);
    }
    match parse_bool(fields[2].as_str()) {
        Some(verified) => Ok(Creator { address, verified, share }),
        None => Err(ParseError::InvalidCreatorVerified),
    }
}

/// Reads creators from the command line: `address:share:verified`, entries
/// parted by commas.  The first entry that cannot be read stops the reading;
/// more than five entries are refused.
pub fn parse_cli_creators(new_creators: String, should_append: bool) -> (creators: Result<
    Vec<Creator>,
    ParseError,
>)
    ensures
        match creators {
            Ok(list) => parsed_cli_creators(new_creators@, should_append) == Ok::<
                Seq<(Seq<u8>, bool, u8)>,
                ParseError,
            >(ledger_creators_view(list@)),
            Err(e) => parsed_cli_creators(new_creators@, should_append) == Err::<
                Seq<(Seq<u8>, bool, u8)>,
                ParseError,
            >(e),
        },
{
    let entries = split_text(new_creators.as_str(), ',');
    let ghost pieces = split_on(new_creators@, ',');
    let ghost all = Seq::new(
        pieces.len(),
        |i: int| cli_creator(split_on(pieces[i], ':'), should_append),
    );
    let mut creators: Vec<Creator> = Vec::new();
    let mut i: usize = 0;
    proof {
        assert(ledger_creators_view(creators@) =~= Seq::empty());
        assert(all.take(0) =~= Seq::empty());
    }
    while i < entries.len()
        invariant
            i <= entries.len(),
            texts(entries@) == pieces,
            pieces == split_on(new_creators@, ','),
            all == Seq::new(
                pieces.len(),
                |i: int| cli_creator(split_on(pieces[i], ':'), should_append),
            ),
            collect_results(all.take(i as int)) == Ok::<Seq<(Seq<u8>, bool, u8)>, ParseError>(
                ledger_creators_view(creators@),
            ),
        decreases entries.len() - i,
    {
        let ghost before = creators@;
        proof {
            let upto = all.take(i + 1);
            assert(upto.drop_last() == all.take(i as int));
            assert(pieces[i as int] == entries@[i as int]@);
            assert(upto.last() == cli_creator(split_on(pieces[i as int], ':'), should_append));
        }
        match parse_cli_creator(entries[i].as_str(), should_append) {
            Ok(creator) => {
                let ghost plain = (creator.address@, creator.verified, creator.share);
                creators.push(creator);
                proof {
                    assert(ledger_creators_view(creators@) =~= ledger_creators_view(before).push(
                        plain,
                    ));
                }
            },
            Err(e) => {
                proof {
                    lemma_first_error_stays(all, i + 1);
                }
                return Err(e);
            },
        }
        i = i + 1;
    }
    proof {
        assert(all.take(all.len() as int) == all);
    }
    if creators.len() > 5 {
        return Err(ParseError::TooManyCreators);
    }
    Ok(creators)
}

/// Whether the text holds the mark of a hexadecimal number, `0x`.
pub open spec fn has_hex_mark(text: Seq<char>) -> bool {
    exists|i: int| 0 <= i < text.len() - 1 && #[trigger] text[i] == '0' && text[i + 1] == 'x'
}

/// The text with every mark `0x` taken out, from left to right.
pub open spec fn without_hex_marks(text: Seq<char>) -> Seq<char>
    decreases text.len(),
{
    if text.len() < 2 {
        text
    } else if text[0] == '0' && text[1] == 'x' {
        without_hex_marks(text.skip(2))
    } else {
        seq![text[0]] + without_hex_marks(text.drop_first())
    }
}

/// The error code as the table of known errors writes it: hexadecimal in
/// upper case without mark.  A code that holds the mark `0x` is taken as
/// hexadecimal and only loses its marks; any other code is read as a
/// decimal number and written as its 64 bits in hexadecimal.
pub open spec fn normalized_error_code(text: Seq<char>) -> Option<Seq<char>> {
    if has_hex_mark(text) {
        Some(without_hex_marks(text))
    } else {
        match decimal_number(text, true, i64::MIN as int, i64::MAX as int) {
            Some(n) => Some(hex_upper(bits_of(n as i64))),
            None => None,
        }
    }
}

/// Brings an error code into the form of the table of known errors.
pub fn normalize_error_code(error_code: &str) -> (code: Option<String>)
    ensures
        match code {
            Some(c) => normalized_error_code(error_code@) == Some(c@),
            None => normalized_error_code(error_code@) is None,
        },
{
    let chars = chars_of(error_code);
    let n = chars.len();
    let mut out = String::new();
    let mut marked = false;
    let mut start: usize = 0;
    let mut i: usize = 0;
    proof {
        assert(error_code@.skip(0) == error_code@);
        assert(out@ + error_code@.subrange(0, 0) =~= Seq::empty());
        assert(Seq::<char>::empty() + without_hex_marks(error_code@) =~= without_hex_marks(
            error_code@,
        ));
    }
    while i < n
        invariant
            start <= i <= n,
            n == error_code@.len(),
            chars@ == error_code@,
            without_hex_marks(error_code@) == out@ + error_code@.subrange(start as int, i as int)
                + without_hex_marks(error_code@.skip(i as int)),
            marked ==> has_hex_mark(error_code@),
            !marked ==> forall|k: int|
                0 <= k < i && k < n - 1 ==> !(#[trigger] error_code@[k] == '0' && error_code@[k
                    + 1] == 'x'),
        decreases n - i,
    {
        let ghost rest = error_code@.skip(i as int);
        let ghost written = out@;
        let ghost run = error_code@.subrange(start as int, i as int);
        proof {
            assert(rest[0] == chars@[i as int]);
        }
        if i + 1 < n && chars[i] == '0' && chars[i + 1] == 'x' {
            proof {
                assert(rest[1] == chars@[i + 1]);
                assert(rest.skip(2) == error_code@.skip(i + 2));
                assert(error_code@[i as int] == '0' && error_code@[i + 1] == 'x');
            }
            out.append(error_code.substring_char(start, i));
            marked = true;
            start = i + 2;
            i = i + 2;
            proof {
                assert(error_code@.subrange(start as int, i as int) =~= Seq::empty());
                assert(out@ + error_code@.subrange(start as int, i as int) =~= written + run);
            }
        } else {
            proof {
                if rest.len() >= 2 {
                    assert(rest[1] == chars@[i + 1]);
                    assert(rest.drop_first() == error_code@.skip(i + 1));
                } else {
                    assert(error_code@.skip(i + 1) =~= Seq::empty());
                    assert(rest =~= seq![rest[0]]);
                }
                assert(without_hex_marks(rest) =~= seq![rest[0]] + without_hex_marks(
                    error_code@.skip(i + 1),
                ));
                assert(error_code@.subrange(start as int, i + 1) =~= run.push(rest[0]));
                assert(written + run.push(rest[0]) + without_hex_marks(error_code@.skip(i + 1))
                    =~= written + run + (seq![rest[0]] + without_hex_marks(
                    error_code@.skip(i + 1),
                )));
            }
            i = i + 1;
        }
    }
    if marked {
        let ghost written = out@;
        out.append(error_code.substring_char(start, n));
        proof {
            assert(error_code@.skip(n as int) =~= Seq::empty());
            assert(out@ =~= written + error_code@.subrange(start as int, n as int)
                + Seq::<char>::empty());
        }
        Some(out)
    } else {
        match parse_i64(error_code) {
            Some(number) => Some(signed_to_hex_upper(number)),
            None => None,
        }
    }
}

/// An error that a program of the ledger can report.
#[derive(Clone, Debug, PartialEq, Eq)]
pub struct KnownError {
    /// The code, hexadecimal in upper case without mark.
    pub code: String,
    /// The program that reports it.
    pub domain: String,
    pub message: String,
}

/// An error found under a code.
#[derive(Clone, Debug, PartialEq, Eq)]
pub struct FoundError {
    pub domain: String,
    pub message: String,
}

/// The known errors with the given code, in the order of the table, each as
/// its domain with its message.
pub open spec fn errors_with_code(known: Seq<KnownError>, code: Seq<char>) -> Seq<
    (Seq<char>, Seq<char>),
>
    decreases known.len(),
{
    if known.len() == 0 {
        Seq::empty()
    } else {
        let before = errors_with_code(known.drop_last(), code);
        if known.last().code@ == code {
            before.push((known.last().domain@, known.last().message@))
        } else {
            before
        }
    }
}

/// What found errors hold, as plain values: domain and message.
pub open spec fn found_view(found: Seq<FoundError>) -> Seq<(Seq<char>, Seq<char>)> {
    Seq::new(found.len(), |i: int| (found[i].domain@, found[i].message@))
}

/// Looks up the known errors with the given code.
pub fn find_errors(code: &str, known: &Vec<KnownError>) -> (found: Vec<FoundError>)
    ensures
        found_view(found@) == errors_with_code(known@, code@),
{
    let wanted = String::from_str(code);
    let mut found: Vec<FoundError> = Vec::new();
    let mut i: usize = 0;
    proof {
        assert(found_view(found@) =~= Seq::empty());
        assert(known@.take(0) =~= Seq::empty());
    }
    while i < known.len()
        invariant
            i <= known.len(),
            wanted@ == code@,
            found_view(found@) == errors_with_code(known@.take(i as int), code@),
        decreases known.len() - i,
    {
        let ghost before = found@;
        proof {
            let upto = known@.take(i + 1);
            assert(upto.drop_last() == known@.take(i as int));
            assert(upto.last() == known@[i as int]);
        }
        if known[i].code == wanted {
            let domain = known[i].domain.clone();
            let message = known[i].message.clone();
            found.push(FoundError { domain, message });
            proof {
                assert(found_view(found@) =~= found_view(before).push(
                    (known@[i as int].domain@, known@[i as int].message@),
                ));
            }
        }
        i = i + 1;
    }
    proof {
        assert(known@.take(known@.len() as int) == known@);
    }
    found
}

/// Explains an error code: brings it into the form of the table of known
/// errors and gives the errors found under it.  Fails where the code is
/// not a number, and where no error is known under it.
pub fn parse_errors_code(error_code: &str, known: &Vec<KnownError>) -> (found: Result<
    Vec<FoundError>,
    ParseError,
>)
    ensures
        match normalized_error_code(error_code@) {
            None => found == Err::<Vec<FoundError>, ParseError>(ParseError::InvalidNumber),
            Some(code) => if errors_with_code(known@, code).len() == 0 {
                found == Err::<Vec<FoundError>, ParseError>(ParseError::InvalidErrorCode)
            } else {
                found matches Ok(errors) && found_view(errors@) == errors_with_code(known@, code)
            },
        },
{
    let code = match normalize_error_code(error_code) {
        Some(code) => code,
        None => {
            return Err(ParseError::InvalidNumber);
        },
    };
    let errors = find_errors(code.as_str(), known);
    if errors.len() == 0 {
        return Err(ParseError::InvalidErrorCode);
    }
    Ok(errors)
}

} // verus!
