pub mod motif;
pub mod freq;
pub mod reader;
pub mod mask;
pub mod ranker;
pub mod gz;

use vstd::prelude::*;

verus! {

/// A proportion threshold represented exactly as the fraction `num / den`.
pub struct Threshold {
    pub num: u64,
    pub den: u64,
}

impl Threshold {
    /// The threshold is a well-formed fraction: the denominator is positive.
    pub open spec fn wf(&self) -> bool {
        self.den > 0
    }

    /// `count / windows > num / den`, stated without division:
    /// `count * den > num * windows`.
    pub open spec fn exceeded_by(&self, count: nat, windows: nat) -> bool {
        count * self.den > self.num * windows
    }
}

} // verus!

