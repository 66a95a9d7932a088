//! Numbers and marks in text: decimal numbers as the standard library
//! reads them, and hexadecimal numbers as it prints them.

use vstd::prelude::*;

verus! {

/// One of the characters `0` to `9`.
pub open spec fn is_digit(c: char) -> bool {
    48 <= c as u32 <= 57
}

/// The number that a digit stands for.
pub open spec fn digit_value(c: char) -> nat {
    (c as u32 - 48) as nat
}

/// Every character is a digit.
pub open spec fn all_digits(text: Seq<char>) -> bool {
    forall|i: int| 0 <= i < text.len() ==> is_digit(#[trigger] text[i])
}

/// The number that decimal digits write.
pub open spec fn decimal_value(digits: Seq<char>) -> nat
    decreases digits.len(),
{
    if digits.len() == 0 {
        0
    } else {
        decimal_value(digits.drop_last()) * 10 + digit_value(digits.last())
    }
}

/// The number that `text` writes: digits, at least one, after at most one
/// sign, with no blank anywhere.  A minus sign is taken only where `signed`
/// says so.  There is no number where the text is not of that form or the
/// number lies outside `min` to `max`.
pub open spec fn decimal_number(text: Seq<char>, signed: bool, min: int, max: int) -> Option<int> {
    let negative = signed && text.len() > 0 && text[0] == '-';
    let digits = if text.len() > 0 && (text[0] == '+' || negative) {
        text.drop_first()
    } else {
        text
    };
    let value = if negative {
        -(decimal_value(digits) as int)
    } else {
        decimal_value(digits) as int
    };
    if digits.len() > 0 && all_digits(digits) && min <= value <= max {
        Some(value)
    } else {
        None
    }
}

/// More digits never write a smaller number.
pub proof fn lemma_decimal_value_grows(digits: Seq<char>, upto: int)
    requires
        0 <= upto <= digits.len(),
    ensures
        decimal_value(digits.take(upto)) <= decimal_value(digits),
    decreases digits.len() - upto,
{
    if upto < digits.len() {
        let longer = digits.take(upto + 1);
        assert(longer.drop_last() == digits.take(upto));
        lemma_decimal_value_grows(digits, upto + 1);
    } else {
        assert(digits.take(upto) == digits);
    }
}

/// The characters of a text.
pub fn chars_of(text: &str) -> (chars: Vec<char>)
    ensures
        chars@ == text@,
{
    broadcast use vstd::string::axiom_spec_iter;

    let mut chars: Vec<char> = Vec::new();
    for c in it: text.chars()
        invariant
            it.seq() == text@,
            chars@ == text@.take(it.index() as int),
    {
        chars.push(c);
        proof {
            assert(text@.take(it.index() + 1) == text@.take(it.index() as int).push(c));
        }
    }
    proof {
        assert(text@.take(text@.len() as int) == text@);
    }
    chars
}

/// Reads the digits between two places of a text as a number that fits in
/// 64 bits.
pub fn decimal_magnitude(chars: &Vec<char>, from: usize, to: usize) -> (value: Option<u64>)
    requires
        from <= to <= chars@.len(),
    ensures
        match value {
            Some(v) => {
                &&& to > from
                &&& all_digits(chars@.subrange(from as int, to as int))
                &&& decimal_value(chars@.subrange(from as int, to as int)) == v
            },
            None => {
                ||| to == from
                ||| !all_digits(chars@.subrange(from as int, to as int))
                ||| decimal_value(chars@.subrange(from as int, to as int)) > u64::MAX
            },
        },
{
    if from == to {
        return None;
    }
    let ghost digits = chars@.subrange(from as int, to as int);
    let mut value: u64 = 0;
    let mut i: usize = from;
    proof {
        assert(digits.take(0) =~= Seq::empty());
    }
    while i < to
        invariant
            from <= i <= to,
            to <= chars@.len(),
            digits == chars@.subrange(from as int, to as int),
            all_digits(digits.take(i - from)),
            decimal_value(digits.take(i - from)) == value,
        decreases to - i,
    {
        let c = chars[i];
        let code = c as u32;
        proof {
            let upto = digits.take(i - from + 1);
            assert(upto.drop_last() == digits.take(i - from));
            assert(upto.last() == c);
            assert(digits[i - from] == c);
        }
        if code < 48 || code > 57 {
            return None;
        }
        let digit = (code - 48) as u64;
        if value > (u64::MAX - digit) / 10 {
            proof {
                if all_digits(digits) {
                    lemma_decimal_value_grows(digits, i - from + 1);
                }
            }
            return None;
        }
        value = value * 10 + digit;
        proof {
            let upto = digits.take(i - from + 1);
            assert forall|k: int| 0 <= k < upto.len() implies is_digit(#[trigger] upto[k]) by {
                if k < i - from {
                    assert(upto[k] == digits.take(i - from)[k]);
                }
            }
        }
        i = i + 1;
    }
    proof {
        assert(digits.take(to - from) == digits);
    }
    Some(value)
}

/// Reads a text as a number without sign that fits in 64 bits.
pub fn parse_u64(text: &str) -> (number: Option<u64>)
    ensures
        match number {
            Some(n) => decimal_number(text@, false, 0, u64::MAX as int) == Some(n as int),
            None => decimal_number(text@, false, 0, u64::MAX as int) is None,
        },
{
    let chars = chars_of(text);
    let from: usize = if chars.len() > 0 && chars[0] == '+' {
        1
    } else {
        0
    };
    proof {
        if from == 1 {
            assert(chars@.subrange(1, chars@.len() as int) == text@.drop_first());
        } else {
            assert(chars@.subrange(0, chars@.len() as int) == text@);
        }
    }
    decimal_magnitude(&chars, from, chars.len())
}

/// Reads a text as a number from 0 to 255.
pub fn parse_u8(text: &str) -> (number: Option<u8>)
    ensures
        match number {
            Some(n) => decimal_number(text@, false, 0, 255) == Some(n as int),
            None => decimal_number(text@, false, 0, 255) is None,
        },
{
    match parse_u64(text) {
        Some(n) => if n <= 255 {
            Some(n as u8)
        } else {
            None
        },
        None => None,
    }
}

/// Reads a text as a number with sign that fits in 64 bits.
pub fn parse_i64(text: &str) -> (number: Option<i64>)
    ensures
        match number {
            Some(n) => decimal_number(text@, true, i64::MIN as int, i64::MAX as int) == Some(
                n as int,
            ),
            None => decimal_number(text@, true, i64::MIN as int, i64::MAX as int) is None,
        },
{
    let chars = chars_of(text);
    let negative = chars.len() > 0 && chars[0] == '-';
    let from: usize = if chars.len() > 0 && (chars[0] == '+' || negative) {
        1
    } else {
        0
    };
    proof {
        if from == 1 {
            assert(chars@.subrange(1, chars@.len() as int) == text@.drop_first());
        } else {
            assert(chars@.subrange(0, chars@.len() as int) == text@);
        }
    }
    match decimal_magnitude(&chars, from, chars.len()) {
        Some(magnitude) => {
            if negative {
                if magnitude <= 9223372036854775807 {
                    Some(-(magnitude as i64))
                } else if magnitude == 9223372036854775808 {
                    Some(i64::MIN)
                } else {
                    None
                }
            } else if magnitude <= 9223372036854775807 {
                Some(magnitude as i64)
            } else {
                None
            }
        },
        None => None,
    }
}

/// Reads a text as a truth value: `true` or `false`, nothing else.
pub open spec fn truth_value(text: Seq<char>) -> Option<bool> {
    if text == "true"@ {
        Some(true)
    } else if text == "false"@ {
        Some(false)
    } else {
        None
    }
}

/// Reads a text as a truth value.
pub fn parse_bool(text: &str) -> (value: Option<bool>)
    ensures
        value == truth_value(text@),
{
    let given = String::from_str(text);
    if given == String::from_str("true") {
        Some(true)
    } else if given == String::from_str("false") {
        Some(false)
    } else {
        None
    }
}

/// The hexadecimal digit for a number below sixteen, in upper case.
pub open spec fn hex_digit(value: nat) -> char {
    if value < 10 {
        (48 + value) as char
    } else {
        (55 + value) as char
    }
}

/// The number in hexadecimal, upper case, without leading zeros.
pub open spec fn hex_upper(value: nat) -> Seq<char>
    decreases value,
{
    if value < 16 {
        seq![hex_digit(value)]
    } else {
        hex_upper(value / 16).push(hex_digit(value % 16))
    }
}

/// The 64 bits that hold a number with sign, read as a number without.
pub open spec fn bits_of(value: i64) -> nat {
    if value >= 0 {
        value as nat
    } else {
        (value + 0x1_0000_0000_0000_0000) as nat
    }
}

fn hex_digit_text(value: u64) -> (text: &'static str)
    requires
        value < 16,
    ensures
        text@ == seq![hex_digit(value as nat)],
{
    proof {
        reveal_strlit("0");
        reveal_strlit("1");
        reveal_strlit("2");
        reveal_strlit("3");
        reveal_strlit("4");
        reveal_strlit("5");
        reveal_strlit("6");
        reveal_strlit("7");
        reveal_strlit("8");
        reveal_strlit("9");
        reveal_strlit("A");
        reveal_strlit("B");
        reveal_strlit("C");
        reveal_strlit("D");
        reveal_strlit("E");
        reveal_strlit("F");
    }
    let text = if value == 0 {
        "0"
    } else if value == 1 {
        "1"
    } else if value == 2 {
        "2"
    } else if value == 3 {
        "3"
    } else if value == 4 {
        "4"
    } else if value == 5 {
        "5"
    } else if value == 6 {
        "6"
    } else if value == 7 {
        "7"
    } else if value == 8 {
        "8"
    } else if value == 9 {
        "9"
    } else if value == 10 {
        "A"
    } else if value == 11 {
        "B"
    } else if value == 12 {
        "C"
    } else if value == 13 {
        "D"
    } else if value == 14 {
        "E"
    } else {
        "F"
    };
    proof {
        assert(text@ =~= seq![hex_digit(value as nat)]);
    }
    text
}

/// Writes a number in hexadecimal, upper case, without leading zeros.
pub fn to_hex_upper(value: u64) -> (text: String)
    ensures
        text@ == hex_upper(value as nat),
    decreases value,
{
    if value < 16 {
        String::from_str(hex_digit_text(value))
    } else {
        let mut text = to_hex_upper(value / 16);
        text.append(hex_digit_text(value % 16));
        text
    }
}

/// Writes a number with sign as its 64 bits in hexadecimal, upper case.
pub fn signed_to_hex_upper(value: i64) -> (text: String)
    ensures
        text@ == hex_upper(bits_of(value)),
{
    if value >= 0 {
        to_hex_upper(value as u64)
    } else {
        let low = (value - i64::MIN) as u64;
        to_hex_upper(low + 9223372036854775808)
    }
}

} // verus!
