//! The wall clock, for the dates frame stamps on tasks.

use vstd::prelude::*;

verus! {

/// Today's local date as `YYYY-MM-DD`, from
/// `chrono::Local::now().format("%Y-%m-%d")`. It depends on the clock and the
/// machine's time zone, so nothing is promised about it.
#[verifier::external_body]
pub(crate) fn today_str() -> (r: String) {
    chrono::Local::now().format("%Y-%m-%d").to_string()
}

} // verus!
