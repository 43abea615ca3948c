use vstd::prelude::*;

pub mod device;
pub mod engine;
pub mod dates;
pub mod feed;
pub mod sched;
pub mod text;

verus! {

/// Outcome of invoking the external feed transport: the transport either
/// exits with a nonzero status code or is killed by a signal.
#[derive(Debug)]
pub enum CurlError {
    Code(i32),
    TerminatedBySignal,
}

} // verus!
