//! The calls this library makes into `rand`, `chrono` and std's lossy UTF-8
//! decoding, each with the contract that the called code documents.
use rand::Rng;
use vstd::prelude::*;
#[allow(unused_imports)]
use vstd::utf8::*;

verus! {

/// What `String::from_utf8_lossy` yields for `bytes`: the decoded text, with
/// each invalid sequence replaced by U+FFFD.
pub uninterp spec fn lossy_utf8(bytes: Seq<u8>) -> Seq<char>;

/// A decimal digit.
pub open spec fn is_digit(c: char) -> bool {
    '0' <= c && c <= '9'
}

/// The year as chrono writes it for `%Y` on a date after 1970: four digits,
/// or `'+'` and at least five digits past the year 9999.
pub open spec fn is_year_text(y: Seq<char>) -> bool {
    ||| (y.len() == 4 && forall|i: int| 0 <= i < 4 ==> is_digit(#[trigger] y[i]))
    ||| (y.len() >= 6 && y[0] == '+' && forall|i: int| 1 <= i < y.len() ==> is_digit(#[trigger] y[i]))
}

/// What follows the year in `%Y-%m-%d %H:%M:%S%.3f`: `-MM-DD HH:MM:SS.mmm`.
pub open spec fn is_time_of_year_text(t: Seq<char>) -> bool {
    &&& t.len() == 19
    &&& t[0] == '-' && is_digit(t[1]) && is_digit(t[2])
    &&& t[3] == '-' && is_digit(t[4]) && is_digit(t[5])
    &&& t[6] == ' ' && is_digit(t[7]) && is_digit(t[8])
    &&& t[9] == ':' && is_digit(t[10]) && is_digit(t[11])
    &&& t[12] == ':' && is_digit(t[13]) && is_digit(t[14])
    &&& t[15] == '.' && is_digit(t[16]) && is_digit(t[17]) && is_digit(t[18])
}

/// A UTC timestamp written with the pattern `%Y-%m-%d %H:%M:%S%.3f`.
pub open spec fn is_utc_timestamp(s: Seq<char>) -> bool {
    &&& s.len() >= 23
    &&& is_year_text(s.take(s.len() - 19))
    &&& is_time_of_year_text(s.skip(s.len() - 19))
}

/// Calls `rand::Rng::gen_range(low..high)` on the thread-local generator of
/// `rand::thread_rng`. Trusted: the value is drawn from the half-open range,
/// which must not be empty (the call panics on an empty range). Which value
/// comes out is left open.
#[verifier::external_body]
pub(crate) fn random_in_range(low: u64, high: u64) -> (r: u64)
    requires
        low < high,
    ensures
        low <= r < high,
{
    rand::thread_rng().gen_range(low..high)
}

/// Formats `chrono::Utc::now()` with `format("%Y-%m-%d %H:%M:%S%.3f")`.
/// Trusted: `Utc::now` is a date after 1970 (chrono panics on a system clock
/// set before the Unix epoch), so `%Y` is four digits, or a `'+'` and five or
/// more digits past 9999; every other field is zero-padded to its width
/// (`%.3f` writes `'.'` and three digits). Which instant is read is left open.
#[verifier::external_body]
pub(crate) fn utc_timestamp() -> (r: String)
    ensures
        is_utc_timestamp(r@),
{
    chrono::Utc::now().format("%Y-%m-%d %H:%M:%S%.3f").to_string()
}

/// Calls `String::from_utf8_lossy` and takes the owned result. Trusted: the
/// result is a function of the bytes alone, and for valid UTF-8 it is exactly
/// the decoded text, as std documents.
#[verifier::external_body]
pub(crate) fn decode_lossy(bytes: &[u8]) -> (r: String)
    ensures
        r@ == lossy_utf8(bytes@),
        valid_utf8(bytes@) ==> r@ == decode_utf8(bytes@),
{
    String::from_utf8_lossy(bytes).into_owned()
}

} // verus!
