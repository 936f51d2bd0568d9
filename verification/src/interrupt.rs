//! The flag by which a caller asks a long operation to stop.
use std::sync::atomic::{AtomicBool, Ordering};
use vstd::prelude::*;

verus! {

/// Reads the flag. Another thread may set it at any time, so nothing is
/// known of the answer beforehand.
pub fn is_triggered(flag: &AtomicBool) -> bool {
    flag.load(Ordering::Relaxed)
}

} // verus!
