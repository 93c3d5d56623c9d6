//! Dates as the rest of the program keeps them.

use crate::le;
use vstd::prelude::*;

verus! {

/// Milliseconds since 1970 of the present moment; zero where the clock stands before
/// that year. `millis` is what the system's clock says.
pub fn now_ms(millis: Option<u128>) -> (r: i64)
    ensures
        r == match millis {
            Some(m) => le::signed((m % 0x1_0000_0000_0000_0000) as nat),
            None => 0,
        },
{
    match millis {
        Some(m) => le::to_signed((m % 0x1_0000_0000_0000_0000) as u64),
        None => 0,
    }
}

/// Seconds since 1970 of the date of a file; zero where there is none, or where it is
/// before that year.
pub fn ts(secs: Option<u64>) -> (r: i64)
    ensures
        r == match secs {
            Some(s) => le::signed(s as nat),
            None => 0,
        },
{
    match secs {
        Some(s) => le::to_signed(s),
        None => 0,
    }
}

} // verus!
