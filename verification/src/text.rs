//! The two pieces of std that the written forms are put together with.

use vstd::prelude::*;

verus! {

/// The character of a decimal digit.
pub open spec fn digit(d: nat) -> char {
    if d == 0 {
        '0'
    } else if d == 1 {
        '1'
    } else if d == 2 {
        '2'
    } else if d == 3 {
        '3'
    } else if d == 4 {
        '4'
    } else if d == 5 {
        '5'
    } else if d == 6 {
        '6'
    } else if d == 7 {
        '7'
    } else if d == 8 {
        '8'
    } else {
        '9'
    }
}

/// The decimal digits of `n`, the highest first, without leading zeros.
pub open spec fn digits(n: nat) -> Seq<char>
    decreases n,
{
    if n < 10 {
        seq![digit(n)]
    } else {
        digits(n / 10).push(digit(n % 10))
    }
}

/// `ToString::to_string` on a `u32`, which writes the number in decimal:
/// digits only, no sign, no leading zero but for zero itself.
#[verifier::external_body]
pub(crate) fn decimal(n: u32) -> (text: String)
    ensures
        text@ == digits(n as nat),
{
    n.to_string()
}

/// `String::push_str`: the text grows at its end by `piece`.
#[verifier::external_body]
pub(crate) fn append(text: &mut String, piece: &str)
    ensures
        final(text)@ == old(text)@ + piece@,
{
    text.push_str(piece)
}

} // verus!
