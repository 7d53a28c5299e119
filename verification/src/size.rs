//! Byte counts as short text in binary units.

use vstd::prelude::*;

verus! {

/// Bytes in a kilobyte.
pub const BYTES_IN_KB: u64 = 1024;

/// Bytes in a megabyte.
pub const BYTES_IN_MB: u64 = 1_048_576;

/// Bytes in a gigabyte.
pub const BYTES_IN_GB: u64 = 1_073_741_824;

/// The character of one decimal digit.
pub open spec fn digit(d: nat) -> char {
    if d == 0 {
        '0'
    } else if d == 1 {
        '1'
    } else if d == 2 {
        '2'
    } else if d == 3 {
        '3'
    } else if d == 4 {
        '4'
    } else if d == 5 {
        '5'
    } else if d == 6 {
        '6'
    } else if d == 7 {
        '7'
    } else if d == 8 {
        '8'
    } else {
        '9'
    }
}

/// A number in decimal, without sign or leading zeros.
pub open spec fn decimal(n: nat) -> Seq<char>
    decreases n,
{
    if n < 10 {
        seq![digit(n)]
    } else {
        decimal(n / 10).push(digit(n % 10))
    }
}

/// `bytes / unit` in hundredths, rounded to the nearest hundredth; a value
/// half way between two hundredths goes to the even one.
pub open spec fn hundredths(bytes: nat, unit: nat) -> nat {
    let whole = bytes * 100 / unit;
    let rest = bytes * 100 % unit;
    if 2 * rest > unit || (2 * rest == unit && whole % 2 == 1) {
        whole + 1
    } else {
        whole
    }
}

/// A count of hundredths as a number with two decimal places.
pub open spec fn two_places(h: nat) -> Seq<char> {
    decimal(h / 100) + seq!['.', digit(h / 10 % 10), digit(h % 10)]
}

/// The unit in which a byte count is shown: fixed by the powers of 1024.
pub open spec fn unit(bytes: nat) -> Seq<char> {
    if bytes < BYTES_IN_KB {
        seq!['B']
    } else if bytes < BYTES_IN_MB {
        seq!['K', 'B']
    } else if bytes < BYTES_IN_GB {
        seq!['M', 'B']
    } else {
        seq!['G', 'B']
    }
}

/// The number shown in front of the unit: the bytes themselves below a
/// kilobyte, else the count in the unit with two decimal places.
pub open spec fn amount(bytes: nat) -> Seq<char> {
    if bytes < BYTES_IN_KB {
        decimal(bytes)
    } else if bytes < BYTES_IN_MB {
        two_places(hundredths(bytes, BYTES_IN_KB as nat))
    } else if bytes < BYTES_IN_GB {
        two_places(hundredths(bytes, BYTES_IN_MB as nat))
    } else {
        two_places(hundredths(bytes, BYTES_IN_GB as nat))
    }
}

/// A byte count as it is shown: the amount, then the unit.
pub open spec fn beautified(bytes: nat) -> Seq<char> {
    amount(bytes) + unit(bytes)
}

/// True of the characters that an amount is written with.
pub open spec fn is_amount_char(c: char) -> bool {
    c == '.' || exists|d: nat| d < 10 && c == #[trigger] digit(d)
}

fn digit_text(d: u8) -> (text: &'static str)
    requires
        d < 10,
    ensures
        text@ == seq![digit(d as nat)],
{
    proof {
        reveal_strlit("0");
        reveal_strlit("1");
        reveal_strlit("2");
        reveal_strlit("3");
        reveal_strlit("4");
        reveal_strlit("5");
        reveal_strlit("6");
        reveal_strlit("7");
        reveal_strlit("8");
        reveal_strlit("9");
    }
    if d == 0 {
        "0"
    } else if d == 1 {
        "1"
    } else if d == 2 {
        "2"
    } else if d == 3 {
        "3"
    } else if d == 4 {
        "4"
    } else if d == 5 {
        "5"
    } else if d == 6 {
        "6"
    } else if d == 7 {
        "7"
    } else if d == 8 {
        "8"
    } else {
        "9"
    }
}

fn push_decimal(text: &mut String, n: u128)
    ensures
        final(text)@ == old(text)@ + decimal(n as nat),
    decreases n,
{
    if n >= 10 {
        push_decimal(text, n / 10);
    }
    text.append(digit_text((n % 10) as u8));
}

fn push_two_places(text: &mut String, h: u128)
    ensures
        final(text)@ == old(text)@ + two_places(h as nat),
{
    push_decimal(text, h / 100);
    text.append(".");
    text.append(digit_text((h / 10 % 10) as u8));
    text.append(digit_text((h % 10) as u8));
    proof {
        reveal_strlit(".");
    }
}

fn rounded_hundredths(bytes: u64, unit: u64) -> (h: u128)
    requires
        unit > 0,
    ensures
        h == hundredths(bytes as nat, unit as nat),
{
    let scaled: u128 = bytes as u128 * 100;
    let whole: u128 = scaled / unit as u128;
    let rest: u128 = scaled % unit as u128;
    if 2 * rest > unit as u128 || (2 * rest == unit as u128 && whole % 2 == 1) {
        whole + 1
    } else {
        whole
    }
}

/// Shows a byte count in the largest binary unit that it fills: whole bytes
/// below a kilobyte, else kilobytes, megabytes or gigabytes with two decimal
/// places.
pub fn beautify_bytes(bytes: u64) -> (text: String)
    ensures
        text@ == beautified(bytes as nat),
{
    let mut text = String::new();
    if bytes < BYTES_IN_KB {
        push_decimal(&mut text, bytes as u128);
        text.append("B");
    } else if bytes < BYTES_IN_MB {
        push_two_places(&mut text, rounded_hundredths(bytes, BYTES_IN_KB));
        text.append("KB");
    } else if bytes < BYTES_IN_GB {
        push_two_places(&mut text, rounded_hundredths(bytes, BYTES_IN_MB));
        text.append("MB");
    } else {
        push_two_places(&mut text, rounded_hundredths(bytes, BYTES_IN_GB));
        text.append("GB");
    }
    proof {
        reveal_strlit("B");
        reveal_strlit("KB");
        reveal_strlit("MB");
        reveal_strlit("GB");
    }
    text
}

/// A decimal number is written with digits alone.
pub proof fn lemma_decimal_is_digits(n: nat)
    ensures
        decimal(n).len() >= 1,
        forall|i: int| 0 <= i < decimal(n).len() ==> is_amount_char(#[trigger] decimal(n)[i]),
    decreases n,
{
    if n >= 10 {
        lemma_decimal_is_digits(n / 10);
    }
}

/// What is shown for a byte count is a number followed by a unit, and the
/// unit depends on nothing but where the count lies among the powers of 1024.
pub proof fn lemma_unit_by_threshold(bytes: nat)
    ensures
        beautified(bytes) == amount(bytes) + unit(bytes),
        forall|i: int| 0 <= i < amount(bytes).len() ==> is_amount_char(#[trigger] amount(bytes)[i]),
        bytes < 1024 ==> unit(bytes) == seq!['B'] && amount(bytes) == decimal(bytes),
        1024 <= bytes < 1024 * 1024 ==> unit(bytes) == seq!['K', 'B'],
        1024 * 1024 <= bytes < 1024 * 1024 * 1024 ==> unit(bytes) == seq!['M', 'B'],
        1024 * 1024 * 1024 <= bytes ==> unit(bytes) == seq!['G', 'B'],
{
    if bytes < 1024 {
        lemma_decimal_is_digits(bytes);
    } else {
        let h = if bytes < BYTES_IN_MB {
            hundredths(bytes, BYTES_IN_KB as nat)
        } else if bytes < BYTES_IN_GB {
            hundredths(bytes, BYTES_IN_MB as nat)
        } else {
            hundredths(bytes, BYTES_IN_GB as nat)
        };
        lemma_decimal_is_digits(h / 100);
        assert forall|i: int| 0 <= i < two_places(h).len() implies is_amount_char(
            #[trigger] two_places(h)[i],
        ) by {}
    }
}

} // verus!
