//! Settings of the JIT door: when a hot term is compiled, and how it is
//! lowered.
use vstd::prelude::*;

verus! {

/// Interpret by default; after `install_threshold` calls, attempt one
/// install. A failed install pins the term to the interpreter for good.
pub struct HotPolicy {
    pub install_threshold: u64,
}

impl Default for HotPolicy {
    fn default() -> (r: HotPolicy)
        ensures
            r.install_threshold == 1000,
    {
        HotPolicy { install_threshold: 1_000 }
    }
}

pub struct LowerConfig {
    /// pattern-level contraction of `a * b + c` into a fused multiply-add
    pub fma_contraction: bool,
    /// deliberately wrong min/max lowering, for demonstrating the install
    /// differential
    pub naive_min_max: bool,
}

impl Default for LowerConfig {
    fn default() -> (r: LowerConfig)
        ensures
            !r.fma_contraction,
            !r.naive_min_max,
    {
        LowerConfig { fma_contraction: false, naive_min_max: false }
    }
}

#[derive(Debug)]
pub enum LowerError {
    Backend(String),
}

} // verus!
