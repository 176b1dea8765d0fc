//! The circumstances of a request: the root it is served under, who calls,
//! and at what time.
use crate::path::utf8;
use crate::principal::Principal;
use vstd::prelude::*;

verus! {

/// Who asks, when, and under which root.
#[derive(Debug, Clone)]
pub struct Context {
    /// The root of the store: every path begins with it.
    pub root: String,
    /// The identity of the caller.
    pub caller: Principal,
    /// The time of the call, in milliseconds.
    pub now: u64,
}

/// A [`Context`] as plain mathematics: the root as its bytes, the caller as its bytes.
pub struct ContextView {
    pub root: Seq<u8>,
    pub caller: Seq<u8>,
    pub now: u64,
}

impl View for Context {
    type V = ContextView;

    open spec fn view(&self) -> ContextView {
        ContextView { root: utf8(self.root@), caller: self.caller@, now: self.now }
    }
}

/// The time in milliseconds, from a clock that counts nanoseconds.
pub fn time(nanos: u64) -> (millis: u64)
    ensures
        millis == nanos / 1_000_000,
{
    nanos / 1_000_000
}

} // verus!
