//! Modification times and their day-month-year text.

use chrono::DateTime;
use vstd::prelude::*;

verus! {

/// Format of the date text kept with every entry: day, month, year.
pub const DATE_FORMAT: &'static str = "%d-%m-%Y";

/// A point in time as the file system reports it: whole seconds since the
/// start of 1970 in UTC (negative before it) and the nanoseconds past that
/// second.
#[derive(Clone, Copy, Debug, PartialEq, Eq, Structural)]
pub struct SysTime {
    pub secs: i64,
    pub nanos: u32,
}

/// Nanoseconds in a second.
pub const NANOS_PER_SEC: u32 = 1_000_000_000;

/// The time as nanoseconds since the start of 1970, negative before it.
pub open spec fn nanos_since_epoch(t: SysTime) -> int {
    t.secs * 1_000_000_000 + t.nanos
}

impl SysTime {
    /// The time that lies `secs` whole seconds and `nanos` nanoseconds after
    /// the start of 1970. `None` where `nanos` is a second or more, or the
    /// seconds pass what a time can hold.
    pub fn after_epoch(secs: u64, nanos: u32) -> (res: Option<SysTime>)
        ensures
            match res {
                Some(t) => {
                    &&& nanos < NANOS_PER_SEC
                    &&& t.nanos < NANOS_PER_SEC
                    &&& nanos_since_epoch(t) == secs * 1_000_000_000 + nanos
                },
                None => nanos >= NANOS_PER_SEC || secs > i64::MAX,
            },
    {
        if nanos >= NANOS_PER_SEC || secs > 0x7fff_ffff_ffff_ffff {
            None
        } else {
            Some(SysTime { secs: secs as i64, nanos })
        }
    }

    /// The time that lies `secs` whole seconds and `nanos` nanoseconds
    /// before the start of 1970. `None` where `nanos` is a second or more,
    /// or the time lies before the earliest that can be held.
    pub fn before_epoch(secs: u64, nanos: u32) -> (res: Option<SysTime>)
        ensures
            match res {
                Some(t) => {
                    &&& nanos < NANOS_PER_SEC
                    &&& t.nanos < NANOS_PER_SEC
                    &&& nanos_since_epoch(t) == -(secs * 1_000_000_000 + nanos)
                },
                None => nanos >= NANOS_PER_SEC || secs * 1_000_000_000 + nanos > -(i64::MIN
                    * 1_000_000_000),
            },
    {
        if nanos >= NANOS_PER_SEC {
            None
        } else if nanos == 0 {
            if secs <= 0x7fff_ffff_ffff_ffff {
                Some(SysTime { secs: -(secs as i64), nanos: 0 })
            } else if secs == 0x8000_0000_0000_0000 {
                Some(SysTime { secs: i64::MIN, nanos: 0 })
            } else {
                None
            }
        } else if secs <= 0x7fff_ffff_ffff_ffff {
            Some(SysTime { secs: -(secs as i64) - 1, nanos: NANOS_PER_SEC - nanos })
        } else {
            None
        }
    }
}

/// The text chrono writes for the UTC date and time that lies `secs` seconds
/// and `nanos` nanoseconds after the start of 1970, under the strftime-style
/// format `fmt`; `None` where chrono has no such date or rejects the format.
pub uninterp spec fn utc_text(secs: int, nanos: int, fmt: Seq<char>) -> Option<Seq<char>>;

/// Calls chrono: `DateTime::from_timestamp` builds the UTC date and time,
/// `DateTime::format` pairs it with the format and `DelayedFormat::write_to`
/// writes the text. The contract claims only that the outcome is the one
/// `utc_text` names: it depends on the three arguments and on nothing else.
/// `from_timestamp` answers `None` for a time out of chrono's range and
/// `write_to` fails on a format it cannot parse; both become `None` here, so
/// the call returns for every input.
#[verifier::external_body]
fn utc_format(secs: i64, nanos: u32, fmt: &str) -> (res: Option<String>)
    ensures
        match res {
            Some(text) => utc_text(secs as int, nanos as int, fmt@) == Some(text@),
            None => utc_text(secs as int, nanos as int, fmt@) is None,
        },
{
    let moment = DateTime::from_timestamp(secs, nanos)?;
    let mut text = String::new();
    moment.format(fmt).write_to(&mut text).ok()?;
    Some(text)
}

/// The format that `_convert_sys_time` uses for `fmt`.
pub open spec fn chosen_format(fmt: Option<&str>) -> Seq<char> {
    match fmt {
        Some(f) => f@,
        None => DATE_FORMAT@,
    }
}

/// Converts a time to its UTC date text under `fmt`, or under
/// [`DATE_FORMAT`] where `fmt` is `None`. `None` comes back where the time
/// has no date or the format is not one that can be written.
pub fn _convert_sys_time(t: SysTime, fmt: Option<&str>) -> (res: Option<String>)
    ensures
        match res {
            Some(text) => utc_text(t.secs as int, t.nanos as int, chosen_format(fmt)) == Some(
                text@,
            ),
            None => utc_text(t.secs as int, t.nanos as int, chosen_format(fmt)) is None,
        },
{
    match fmt {
        Some(f) => utc_format(t.secs, t.nanos, f),
        None => utc_format(t.secs, t.nanos, DATE_FORMAT),
    }
}

/// Converts a time to its UTC date text, day-month-year.
pub fn convert_sys_time(t: SysTime) -> (res: Option<String>)
    ensures
        match res {
            Some(text) => utc_text(t.secs as int, t.nanos as int, DATE_FORMAT@) == Some(text@),
            None => utc_text(t.secs as int, t.nanos as int, DATE_FORMAT@) is None,
        },
{
    _convert_sys_time(t, None)
}

} // verus!
