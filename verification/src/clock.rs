//! The time of day.

use vstd::prelude::*;

use crate::date::{date_of, date_string, date_text};

verus! {

/// Time since the first of January 1970.
#[derive(Debug)]
pub struct UnixTime {
    pub secs: u64,
    pub nanos: u32,
}

/// `SystemTime::elapsed`, called on the first of January 1970, reads the system clock and gives
/// the time since then in whole seconds and in nanoseconds of the started second, of which there
/// are less than 1,000,000,000; it fails when the clock is set before that day. What the clock
/// shows is not claimed.
#[verifier::external_body]
fn since_epoch() -> (time: Option<UnixTime>)
    ensures
        time matches Some(u) ==> u.nanos < 1_000_000_000,
{
    match std::time::UNIX_EPOCH.elapsed() {
        Ok(d) => Some(UnixTime { secs: d.as_secs(), nanos: d.subsec_nanos() }),
        Err(_) => None,
    }
}

/// The time, or the start of 1970 for a clock that is set before it.
pub fn unix_now() -> (time: UnixTime)
    ensures
        time.nanos < 1_000_000_000,
{
    // What the clock shows is left open here; `time_read` says what becomes of every reading of
    // it, and of none.
    let reading = since_epoch();
    time_read(reading)
}

impl UnixTime {
    /// The number of the day.
    pub fn day(&self) -> (days: i64)
        ensures
            days == self.secs / 86_400,
    {
        (self.secs / 86_400) as i64
    }

    /// The low 64 bits of the time in nanoseconds.
    pub fn low_nanos(&self) -> (n: u64)
        ensures
            n == (self.secs * 1_000_000_000 + self.nanos) % 0x1_0000_0000_0000_0000,
    {
        let all: u128 = self.secs as u128 * 1_000_000_000 + self.nanos as u128;
        (all % 0x1_0000_0000_0000_0000) as u64
    }
}

/// The number of this day.
pub fn days_today() -> (days: i64)
    ensures
        0 <= days <= u64::MAX / 86_400,
{
    unix_now().day()
}

/// The date of this day.
pub fn today() -> (date: String)
    ensures
        exists|days: int|
            0 <= days <= u64::MAX / 86_400 && date@ == #[trigger] date_text(date_of(days)),
{
    let days = days_today();
    let date = date_string(days);
    assert(date@ == date_text(date_of(days as int)));
    date
}

/// The time that a reading of the clock stands for: the reading itself, or the start of 1970 where
/// there is none because the clock is set before it.
pub fn time_read(reading: Option<UnixTime>) -> (time: UnixTime)
    ensures
        time == match reading {
            Some(shown) => shown,
            None => (UnixTime { secs: 0, nanos: 0 }),
        },
{
    match reading {
        Some(shown) => shown,
        None => UnixTime { secs: 0, nanos: 0 },
    }
}

} // verus!
