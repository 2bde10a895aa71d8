//! Result codes that system calls hand back to user space.
use vstd::prelude::*;

verus! {

/// The subsystem that reports an error.
#[derive(Clone, Copy, Debug, PartialEq, Eq, Structural)]
pub enum Module {
    Kernel,
    Fs,
}

/// Why an operation failed.
#[derive(Clone, Copy, Debug, PartialEq, Eq, Structural)]
pub enum Reason {
    InvalidHandle,
    OutOfMemory,
    NotFound,
    Unknown,
}

/// Success, or a (module, reason) pair.
#[derive(Clone, Copy, Debug, PartialEq, Eq, Structural)]
pub enum ResultCode {
    Success,
    Error(Module, Reason),
}

impl ResultCode {
    /// The error `reason` reported by `module`.
    pub fn new(module: Module, reason: Reason) -> (r: ResultCode)
        ensures
            r == ResultCode::Error(module, reason),
    {
        ResultCode::Error(module, reason)
    }

    /// Whether this is success.
    pub fn is_ok(&self) -> (r: bool)
        ensures
            r == (*self is Success),
    {
        match self {
            ResultCode::Success => true,
            ResultCode::Error(_, _) => false,
        }
    }
}

} // verus!
