//! Validation of user-supplied settings.

use crate::text::{append_decimal, decimal_chars};
use vstd::prelude::*;
use vstd::string::*;

verus! {

/// Lowest accepted sample rate, in hertz.
pub const MIN_SAMPLE_RATE: u32 = 8000;

/// Highest accepted sample rate, in hertz.
pub const MAX_SAMPLE_RATE: u32 = 192000;

/// Whether `rate` lies in the accepted range.
pub open spec fn sample_rate_in_range(rate: u32) -> bool {
    MIN_SAMPLE_RATE <= rate <= MAX_SAMPLE_RATE
}

/// The complaint about a sample rate outside the accepted range.
pub open spec fn sample_rate_complaint(rate: u32) -> Seq<char> {
    "Sample rate "@ + decimal_chars(rate as nat)
        + " Hz is outside valid range (8000-192000 Hz)"@
}

/// Accepts a sample rate between 8000 Hz and 192000 Hz, both included, and
/// hands it back; any other is refused with a complaint that quotes it.
pub fn validate_sample_rate(rate: u32) -> (res: Result<u32, String>)
    ensures
        sample_rate_in_range(rate) ==> res == Ok::<u32, String>(rate),
        !sample_rate_in_range(rate) ==> res is Err && res->Err_0@ == sample_rate_complaint(rate),
{
    if rate < MIN_SAMPLE_RATE || rate > MAX_SAMPLE_RATE {
        let mut message = String::from_str("Sample rate ");
        append_decimal(&mut message, rate as u64);
        message.append(" Hz is outside valid range (8000-192000 Hz)");
        Err(message)
    } else {
        Ok(rate)
    }
}

} // verus!
