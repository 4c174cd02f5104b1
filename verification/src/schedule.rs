//! When the labelling job is to run.

use crate::text::{decimal, push_decimal};
use vstd::prelude::*;
use vstd::string::StringExecFns;

verus! {

/// `n` in decimal digits, with a leading zero if it has a single digit.
pub open spec fn two_digits(n: nat) -> Seq<char> {
    if n < 10 {
        "0"@ + decimal(n)
    } else {
        decimal(n)
    }
}

/// The cron expression for two minutes after the given minute, at the given hour and day of
/// the month, in any month and on any day of the week.
pub open spec fn cron(minute: u32, hour: u32, day: u32) -> Seq<char> {
    two_digits((minute + 2) as nat) + " "@ + two_digits(hour as nat) + " "@ + two_digits(
        day as nat,
    ) + " * *"@
}

/// Appends `n` to `out` in at least two decimal digits.
pub fn push_two_digits(out: &mut String, n: u64)
    ensures
        final(out)@ == old(out)@ + two_digits(n as nat),
{
    if n < 10 {
        out.append("0");
    }
    push_decimal(out, n);
    proof {
        assert(out@ =~= old(out)@ + two_digits(n as nat));
    }
}

/// Returns the cron expression for a job that is to run two minutes after the given minute,
/// at the given hour and day of the month. The minute is not wrapped at the hour.
pub fn cron_expression(minute: u32, hour: u32, day: u32) -> (expression: String)
    ensures
        expression@ == cron(minute, hour, day),
{
    let mut out = String::new();
    push_two_digits(&mut out, minute as u64 + 2);
    out.append(" ");
    push_two_digits(&mut out, hour as u64);
    out.append(" ");
    push_two_digits(&mut out, day as u64);
    out.append(" * *");
    proof {
        assert(out@ =~= cron(minute, hour, day));
    }
    out
}

} // verus!
