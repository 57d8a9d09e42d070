//! Local calendar time as text.

use vstd::prelude::*;

verus! {

/// The first second, counted from the start of 1970 in UTC, that has a
/// calendar date here: the start of the year -262143.
pub const EARLIEST_EPOCH_SECS: i64 = -8_334_601_228_800;

/// The last second that has a calendar date here: the end of the year
/// 262142.
pub const LATEST_EPOCH_SECS: i64 = 8_210_266_876_799;

/// The moment has a calendar date, and the offset from UTC is less than a
/// day either way.
pub open spec fn representable(epoch_secs: int, utc_offset_secs: int) -> bool {
    &&& EARLIEST_EPOCH_SECS <= epoch_secs <= LATEST_EPOCH_SECS
    &&& -86_400 < utc_offset_secs < 86_400
}

/// The first second, counted from the start of 1970, of the year 0.
pub const FIRST_PLAIN_SECS: i64 = -62_167_219_200;

/// The last second of the year 9999.
pub const LAST_PLAIN_SECS: i64 = 253_402_300_799;

/// The clock that runs `utc_offset_secs` ahead of UTC reads a year from 0 to
/// 9999 at the moment `epoch_secs`: a year that is written with four digits
/// and no sign.
pub open spec fn in_plain_years(epoch_secs: int, utc_offset_secs: int) -> bool {
    FIRST_PLAIN_SECS <= epoch_secs + utc_offset_secs <= LAST_PLAIN_SECS
}

/// The character is one of the digits `0` to `9`.
pub open spec fn is_digit(c: char) -> bool {
    '0' <= c && c <= '9'
}

/// The text has the form `YYYY-MM-DD HH:MM:SS`: nineteen characters, all of
/// them digits but for the two hyphens, the blank and the two colons.
pub open spec fn has_plain_shape(text: Seq<char>) -> bool {
    &&& text.len() == 19
    &&& forall|i: int|
        0 <= i < 19 ==> if i == 4 || i == 7 {
            text[i] == '-'
        } else if i == 10 {
            text[i] == ' '
        } else if i == 13 || i == 16 {
            text[i] == ':'
        } else {
            is_digit(#[trigger] text[i])
        }
}

/// The date and time of the moment `epoch_secs` seconds after the start of
/// 1970 in UTC, as a clock reads that runs `utc_offset_secs` seconds ahead
/// of UTC. For years from 0 to 9999 the text has the form
/// `YYYY-MM-DD HH:MM:SS`; other years are written with a sign and as many
/// digits as they need.
pub uninterp spec fn local_time_text(epoch_secs: int, utc_offset_secs: int) -> Seq<char>;

/// Has chrono write a moment as local time: `FixedOffset::east_opt` and
/// `DateTime::from_timestamp` make the zone and the moment,
/// `DateTime::with_timezone` moves the moment into the zone, and
/// `DateTime::format` writes it with the pattern `%Y-%m-%d %H:%M:%S`.
///
/// Taken on trust: there is a text exactly for the moments and offsets that
/// chrono can hold, which are those of `representable`; the text depends on
/// the two numbers alone; and where the local year lies between 0 and 9999
/// the pattern gives four digits for the year and two for each other
/// number, each padded with zeros.
#[verifier::external_body]
pub(crate) fn format_local(epoch_secs: i64, utc_offset_secs: i32) -> (r: Option<String>)
    ensures
        r is Some <==> representable(epoch_secs as int, utc_offset_secs as int),
        r matches Some(text) ==> text@ == local_time_text(
            epoch_secs as int,
            utc_offset_secs as int,
        ),
        r matches Some(text) ==> (in_plain_years(epoch_secs as int, utc_offset_secs as int)
            ==> has_plain_shape(text@)),
{
    let zone = chrono::FixedOffset::east_opt(utc_offset_secs)?;
    let moment = chrono::DateTime::from_timestamp(epoch_secs, 0)?;
    Some(moment.with_timezone(&zone).format("%Y-%m-%d %H:%M:%S").to_string())
}

} // verus!
