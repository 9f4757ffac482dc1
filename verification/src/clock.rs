use vstd::prelude::*;

verus! {

/// Whole seconds since the Unix epoch on the system clock, as
/// `std::time::UNIX_EPOCH.elapsed()` gives them (the time from the epoch to
/// the current system time), or `None` when the clock reads before the epoch.
/// Which instant the clock reads, nothing here states.
#[verifier::external_body]
fn system_seconds() -> (r: Option<u64>) {
    match std::time::UNIX_EPOCH.elapsed() {
        Ok(d) => Some(d.as_secs()),
        Err(_) => None,
    }
}

/// `exp` is the expiry of a session that started at `now`, a reading of the
/// clock, and lasts `seconds`.
pub open spec fn expiry_of(exp: usize, now: int, seconds: int) -> bool {
    0 <= now < 0x1_0000_0000_0000 && exp == (now + seconds) as usize
}

/// The expiry of a session that lasts `seconds`, for a reading of the clock:
/// none when there is no reading, or one too far out to count with.
pub open spec fn expiry_for_reading(reading: Option<u64>, seconds: int) -> Option<usize> {
    match reading {
        Some(t) => if t < 0x1_0000_0000_0000 {
            Some((t + seconds) as usize)
        } else {
            None
        },
        None => None,
    }
}

/// The expiry, as seconds since the epoch, of a session that starts at `now`
/// and lasts `seconds`.
pub fn expiry_at(now: i64, seconds: i64) -> (r: usize)
    requires
        0 <= now < 0x1_0000_0000_0000,
        0 <= seconds < 0x1_0000_0000_0000,
    ensures
        r == (now + seconds) as usize,
{
    (now + seconds) as usize
}

/// The expiry of a session that lasts `seconds`, for the clock reading
/// `reading`.
pub fn expiry_after(reading: Option<u64>, seconds: i64) -> (r: Option<usize>)
    requires
        0 <= seconds < 0x1_0000_0000_0000,
    ensures
        r == expiry_for_reading(reading, seconds as int),
{
    match reading {
        Some(t) => if t < 0x1_0000_0000_0000 {
            Some(expiry_at(t as i64, seconds))
        } else {
            None
        },
        None => None,
    }
}

/// The expiry of a session that starts now and lasts `seconds`; none when
/// the clock gives no usable reading.
pub fn expiry_from_now(seconds: i64) -> (r: Option<usize>)
    requires
        0 <= seconds < 0x1_0000_0000_0000,
    ensures
        exists|reading: Option<u64>| r == #[trigger] expiry_for_reading(reading, seconds as int),
        r matches Some(exp) ==> exists|now: int| #[trigger] expiry_of(exp, now, seconds as int),
{
    let reading = system_seconds();
    let r = expiry_after(reading, seconds);
    proof {
        if let Some(t) = reading {
            if t < 0x1_0000_0000_0000 {
                assert(expiry_of(r->0, t as int, seconds as int));
            }
        }
    }
    r
}

} // verus!
