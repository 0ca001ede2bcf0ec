use vstd::prelude::*;

verus! {

/// Relies on std::time::SystemTime::now: reads the wall clock as
/// milliseconds since the Unix epoch.  The clock is outside the program,
/// so nothing is promised about the reading; a clock before the epoch or
/// beyond the i64 range is reported saturated.
#[verifier::external_body]
fn clock_millis() -> (t: i64) {
    match std::time::SystemTime::now().duration_since(std::time::UNIX_EPOCH) {
        Ok(d) => {
            let ms = d.as_millis();
            if ms > i64::MAX as u128 {
                i64::MAX
            } else {
                ms as i64
            }
        },
        Err(_) => 0,
    }
}

/// The sample clock: the wall-clock epoch milliseconds, clamped to be
/// non-negative whatever the clock returned.
pub fn now_millis() -> (t: i64)
    ensures
        t >= 0,
{
    let raw = clock_millis();
    if raw < 0 {
        0
    } else {
        raw
    }
}

} // verus!
