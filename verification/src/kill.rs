//! Process terminator decision logic: how the outcome of launching
//! the kill-signal utility maps to the result the caller sees.  The
//! launch itself is the caller's, unverifiable, side.

use vstd::prelude::*;
use vstd::string::StringExecFns;

verus! {

/// The failure text reported when the signal utility ran but exited
/// non-zero without an error of its own.
pub open spec fn kill_failure_text() -> Seq<char> {
    "Failed to kill process"@
}

/// The result of a termination request, from how the signal utility's
/// launch went: a launch error is passed through as the failure text,
/// a clean exit is success, and a non-zero exit is the generic
/// failure message.  No outcome is an unhandled fault.
pub fn kill_outcome(launch: Result<bool, String>) -> (r: Result<(), String>)
    ensures
        match launch {
            Result::Ok(true) => r is Ok,
            Result::Ok(false) => r matches Err(m) && m@ == kill_failure_text(),
            Result::Err(e) => r matches Err(m) && m@ == e@,
        },
{
    match launch {
        Result::Ok(true) => Ok(()),
        Result::Ok(false) => Err(String::from_str("Failed to kill process")),
        Result::Err(e) => Err(e),
    }
}

} // verus!
