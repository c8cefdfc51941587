//! What the solver learns from its surroundings while it runs: whether it has
//! been asked to stop, and how much memory the process holds.
use vstd::prelude::*;
use std::sync::atomic::AtomicBool;

verus! {

/// Whether the solver has been asked to stop.  The flag is set from outside
/// (a signal handler) at any time, so nothing is known of the answer.
pub fn should_terminate(termination_signal: &AtomicBool) -> bool {
    termination_signal.load(std::sync::atomic::Ordering::Relaxed)
}

/// Bytes currently allocated by this process, as counted by the allocator
/// of `peak_alloc` (`PeakAlloc::current_usage`).  The count depends on the
/// whole process and on whether that allocator is installed; nothing is stated
/// of it.
#[verifier::external_body]
fn current_memory_usage() -> usize {
    peak_alloc::PeakAlloc.current_usage()
}

/// The largest allocation, in bytes, whose size in gigabytes (computed as an
/// `f32`, as `PeakAlloc::current_usage_as_gb` does) is not above 4.0.
pub const MEMORY_LIMIT_BYTES: u64 = 4294967552;

/// Whether an allocation of `used_bytes` bytes is above the 4 GB limit.
pub fn exceeds_memory_limit(used_bytes: usize) -> (res: bool)
    ensures
        res == (used_bytes > MEMORY_LIMIT_BYTES),
{
    used_bytes as u64 > MEMORY_LIMIT_BYTES
}

/// Whether the process holds more than 4 GB (the limit the solver keeps
/// below): `exceeds_memory_limit` of the count that `current_memory_usage`
/// reads, which depends on the whole process.
pub fn memory_limit_exceeded() -> bool {
    let used = current_memory_usage();
    exceeds_memory_limit(used)
}

} // verus!
