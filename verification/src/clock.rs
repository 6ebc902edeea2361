//! The time.

use vstd::prelude::*;
use vstd::utf8::*;

verus! {

/// The text has the shape of an RFC 3339 time: a year of four or more characters, month, day,
/// `T`, hour, minute and second with their separators, and then at least the time zone.
pub open spec fn is_timestamp(text: Seq<char>) -> bool {
    &&& is_ascii_chars(text)
    &&& exists|year: int|
        {
            &&& 4 <= year
            &&& year + 16 <= text.len()
            &&& #[trigger] text[year] == '-'
            &&& text[year + 3] == '-'
            &&& text[year + 6] == 'T'
            &&& text[year + 9] == ':'
            &&& text[year + 12] == ':'
        }
}

/// The present local time as an RFC 3339 text, with as many digits of the second's fraction as
/// it has.
///
/// Calls `chrono::Local::now` and writes the result out with
/// `chrono::DateTime::to_rfc3339_opts`. Of the text only its shape is claimed: which time it
/// shows depends on the machine's clock and time zone. A clock set before 1970, or zone data
/// that gives no offset for the present time, makes `chrono` panic.
#[verifier::external_body]
pub(crate) fn local_now() -> (time: String)
    ensures
        is_timestamp(time@),
{
    chrono::Local::now().to_rfc3339_opts(chrono::SecondsFormat::AutoSi, true)
}

} // verus!
