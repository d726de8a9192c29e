//! Text of log lines: decimal numbers and the text of bounded strings.
use crate::geometry::Point;
use crate::input_string::{all_ascii, string_bytes, InputString};
use vstd::prelude::*;
use vstd::string::StringExecFns;

verus! {

/// The character of a decimal digit.
pub open spec fn digit(d: nat) -> char {
    (48 + d) as char
}

/// A number in decimal digits, without leading zeros.
pub open spec fn decimal(n: nat) -> Seq<char>
    decreases n,
{
    if n < 10 {
        seq![digit(n)]
    } else {
        decimal(n / 10).push(digit(n % 10))
    }
}

/// An integer in decimal digits, with a minus sign where it is negative.
pub open spec fn signed_decimal(v: int) -> Seq<char> {
    if v < 0 {
        seq!['-'] + decimal((-v) as nat)
    } else {
        decimal(v as nat)
    }
}

/// The characters whose codes are the given ASCII bytes.
pub open spec fn ascii_text(bytes: Seq<u8>) -> Seq<char> {
    Seq::new(bytes.len(), |i: int| bytes[i] as char)
}

/// `u64::to_string`: the number in decimal digits, without leading zeros.
#[verifier::external_body]
pub(crate) fn u64_to_string(n: u64) -> (s: String)
    ensures
        s@ == decimal(n as nat),
{
    n.to_string()
}

/// `ArrayString::as_str` on a string of ASCII bytes: the characters with
/// these codes.
#[verifier::external_body]
pub(crate) fn input_string_text(s: &InputString) -> (text: String)
    requires
        all_ascii(string_bytes(*s)),
    ensures
        text@ == ascii_text(string_bytes(*s)),
{
    s.as_str().to_owned()
}

/// An integer as text.
pub fn i64_to_string(v: i64) -> (s: String)
    ensures
        s@ == signed_decimal(v as int),
{
    if v < 0 {
        let magnitude: u64 = (-(v + 1)) as u64 + 1;
        let digits = u64_to_string(magnitude);
        let sign = String::from_str("-");
        proof {
            reveal_strlit("-");
            assert("-"@ =~= seq!['-']);
        }
        sign.concat(digits.as_str())
    } else {
        u64_to_string(v as u64)
    }
}

/// A cell as text: its two coordinates with a semicolon between them.
pub fn pos_to_string(pos: Point) -> (s: String)
    ensures
        s@ == signed_decimal(pos.x as int) + ";"@ + signed_decimal(pos.y as int),
{
    let mut s = i64_to_string(pos.x as i64);
    s.append(";");
    s.append(i64_to_string(pos.y as i64).as_str());
    s
}

} // verus!
