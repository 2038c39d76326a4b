//! Texts of numbers, byte lists and quoted strings, as error messages show them.

use vstd::prelude::*;
use vstd::string::StringExecFns;

verus! {

/// The character of a decimal digit.
pub open spec fn digit(d: nat) -> char {
    (0x30 + d) as char
}

/// A number in decimal digits, without leading zeros.
pub open spec fn numeral(n: nat) -> Seq<char>
    decreases n,
{
    if n < 10 {
        seq![digit(n)]
    } else {
        numeral(n / 10).push(digit(n % 10))
    }
}

/// Numbers separated by commas and spaces.
pub open spec fn listed(bytes: Seq<u8>) -> Seq<char>
    decreases bytes.len(),
{
    if bytes.len() == 0 {
        Seq::empty()
    } else if bytes.len() == 1 {
        numeral(bytes[0] as nat)
    } else {
        listed(bytes.drop_last()) + ", "@ + numeral(bytes.last() as nat)
    }
}

/// Bytes as a list in square brackets.
pub open spec fn bracketed(bytes: Seq<u8>) -> Seq<char> {
    "["@ + listed(bytes) + "]"@
}

/// A string in double quotes, with special characters escaped, as std's `Debug` shows it.
pub uninterp spec fn quoted_form(s: Seq<char>) -> Seq<char>;

/// `s` in double quotes, by std's `Debug` for `str` through `format!`. Claimed of it: the text
/// depends on the characters of `s` alone. Which characters it escapes, and how, is not claimed.
#[verifier::external_body]
pub(crate) fn quoted(s: &str) -> (text: String)
    ensures
        text@ == quoted_form(s@),
{
    format!("{s:?}")
}

fn digit_text(d: u8) -> (text: &'static str)
    requires
        d < 10,
    ensures
        text@ == seq![digit(d as nat)],
{
    proof {
        reveal_strlit("0");
        reveal_strlit("1");
        reveal_strlit("2");
        reveal_strlit("3");
        reveal_strlit("4");
        reveal_strlit("5");
        reveal_strlit("6");
        reveal_strlit("7");
        reveal_strlit("8");
        reveal_strlit("9");
    }
    let text = match d {
        0 => "0",
        1 => "1",
        2 => "2",
        3 => "3",
        4 => "4",
        5 => "5",
        6 => "6",
        7 => "7",
        8 => "8",
        _ => "9",
    };
    assert(text@ =~= seq![digit(d as nat)]);
    text
}

/// A number in decimal digits.
#[must_use]
pub fn number_text(n: u128) -> (text: String)
    ensures
        text@ == numeral(n as nat),
    decreases n,
{
    let last = digit_text((n % 10) as u8);
    if n < 10 {
        return last.to_owned();
    }
    let mut text = number_text(n / 10);
    text.append(last);
    assert(text@ =~= numeral(n as nat));
    text
}

/// Bytes as a list in square brackets.
#[must_use]
pub fn bytes_text(bytes: &[u8]) -> (text: String)
    ensures
        text@ == bracketed(bytes@),
{
    let mut text: String = "[".to_owned();
    let mut i: usize = 0;
    assert(bytes@.take(0) =~= Seq::empty());
    assert("["@ + listed(bytes@.take(0)) =~= "["@);
    while i < bytes.len()
        invariant
            i <= bytes@.len(),
            text@ == "["@ + listed(bytes@.take(i as int)),
        decreases bytes@.len() - i,
    {
        let ghost more = bytes@.take(i + 1);
        assert(more.drop_last() =~= bytes@.take(i as int));
        if i > 0 {
            text.append(", ");
        }
        text.append(number_text(bytes[i] as u128).as_str());
        assert(text@ =~= "["@ + listed(more));
        i = i + 1;
    }
    assert(bytes@.take(i as int) =~= bytes@);
    text.append("]");
    text
}

/// The number that decimal digits write out.
pub open spec fn numeral_value(s: Seq<char>) -> int
    decreases s.len(),
{
    if s.len() == 0 {
        0
    } else {
        10 * numeral_value(s.drop_last()) + (s.last() as int - 0x30)
    }
}

/// A numeral reads back as its number, and starts with zero for zero alone.
pub proof fn law_numeral_reads_back(n: nat)
    ensures
        numeral_value(numeral(n)) == n,
        numeral(n).len() > 0,
        numeral(n)[0] == '0' <==> n == 0,
    decreases n,
{
    reveal_with_fuel(numeral_value, 2);
    if n < 10 {
        assert(numeral(n).drop_last() =~= Seq::empty());
    } else {
        law_numeral_reads_back(n / 10);
        assert(numeral(n).drop_last() =~= numeral(n / 10));
    }
}

} // verus!
