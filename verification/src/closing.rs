//! The flag that tells the build to wind down.

use vstd::prelude::*;
use std::sync::atomic::AtomicBool;
use std::sync::atomic::Ordering;

verus! {

/// A flag that is down at first and stays up once it was raised.
pub fn new_flag() -> (flag: AtomicBool) {
    AtomicBool::new(false)
}

/// Whether the flag was raised. Other threads may raise it at any time,
/// so nothing is promised of the answer: the stages of a build take it as
/// an input and say what follows from either value.
pub fn closed(flag: &AtomicBool) -> (r: bool) {
    flag.load(Ordering::Relaxed)
}

/// Raises the flag.
pub fn close(flag: &AtomicBool) {
    flag.store(true, Ordering::Relaxed)
}

} // verus!
