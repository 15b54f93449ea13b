//! Text renderings of the values that a script can only look at.

use crate::text::{decimal, hex_of, hex_of_bytes, push_digits};
use vstd::prelude::*;

verus! {

/// The debug rendering that the `bson` crate gives a regular expression
/// with this pattern and these options.
pub uninterp spec fn regex_debug_text(pattern: Seq<char>, options: Seq<char>) -> Seq<char>;

/// Rendering of a timestamp pair.
pub open spec fn timestamp_text(time: u32, increment: u32) -> Seq<char> {
    "Timestamp { time: "@ + decimal(time as int) + ", increment: "@ + decimal(increment as int)
        + " }"@
}

/// Rendering of a 128-bit decimal: its stored bytes in hexadecimal.
pub open spec fn decimal128_text(bytes: Seq<u8>) -> Seq<char> {
    "Decimal128("@ + hex_of_bytes(bytes) + ")"@
}

/// Renders a regular expression as `bson` prints it for debugging.
///
/// Trusted: the body builds a `bson::Regex` from the two strings and formats
/// it with its derived `Debug` implementation. The contract only names the
/// text; it depends on the two strings alone.
#[verifier::external_body]
pub(crate) fn regex_text(pattern: &str, options: &str) -> (text: String)
    ensures
        text@ == regex_debug_text(pattern@, options@),
{
    let regex = bson::Regex { pattern: pattern.to_string(), options: options.to_string() };
    format!("{:?}", regex)
}

/// Renders a timestamp pair.
pub fn timestamp_string(time: u32, increment: u32) -> (text: String)
    ensures
        text@ == timestamp_text(time, increment),
{
    let mut text = String::from_str("Timestamp { time: ");
    push_digits(&mut text, time as u64, 10);
    text.append(", increment: ");
    push_digits(&mut text, increment as u64, 10);
    text.append(" }");
    text
}

/// Renders a 128-bit decimal from its stored bytes.
pub fn decimal128_string(bytes: &[u8; 16]) -> (text: String)
    ensures
        text@ == decimal128_text(bytes@),
{
    let mut text = String::from_str("Decimal128(");
    let digits = hex_of(bytes.as_slice());
    text.append(digits.as_str());
    text.append(")");
    text
}

} // verus!
