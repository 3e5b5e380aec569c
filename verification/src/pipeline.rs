//! The engineer loop's results: which front door produced the term, and the
//! certified code that came out.
use vstd::prelude::*;

verus! {

/// Which front door produced the term.
#[derive(Debug, Clone, Copy, PartialEq, Eq, Structural)]
pub enum Door {
    Syn,
    /// LLVM IR lifting; carries no syn-door coverage guarantee — the term is
    /// whatever the compiler's dataflow said the function means.
    Lift,
}

#[derive(Debug)]
pub struct Certified {
    pub code: String,
    pub door: Door,
    pub cost_before: u64,
    pub cost_after: u64,
}

} // verus!
