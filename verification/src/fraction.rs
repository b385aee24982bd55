//! Fixed-point fractions, counted in billionths.

use vstd::prelude::*;

verus! {

/// The number of parts that make up one whole.
pub const SCALE: u64 = 1_000_000_000;

/// A non-negative fixed-point number: `ppb` billionths.
#[derive(Clone, Copy, Debug, PartialEq, Eq, Structural)]
pub struct Fraction {
    /// The value, in parts per billion.
    pub ppb: u64,
}

/// The share `count / total`, rounded down to a whole number of billionths.
pub open spec fn share_ppb(count: nat, total: nat) -> nat
    recommends
        total > 0,
{
    count * SCALE as nat / total
}

/// A share of at most the whole is at most one.
pub proof fn lemma_share_at_most_one(count: nat, total: nat)
    requires
        0 < total,
        count <= total,
    ensures
        share_ppb(count, total) <= SCALE,
{
    assert(count * SCALE as nat <= total * SCALE as nat) by (nonlinear_arith)
        requires
            count <= total,
    ;
    assert(count * SCALE as nat / total <= SCALE) by (nonlinear_arith)
        requires
            0 < total,
            count * SCALE as nat <= total * SCALE as nat,
    ;
}

impl Fraction {
    /// Strictly between zero and one.
    pub open spec fn is_proper(self) -> bool {
        0 < self.ppb < SCALE
    }

    /// The fraction of `ppb` billionths.
    pub fn from_ppb(ppb: u64) -> (f: Fraction)
        ensures
            f.ppb == ppb,
    {
        Fraction { ppb }
    }

    /// Whether the fraction lies strictly between zero and one.
    pub fn proper(&self) -> (b: bool)
        ensures
            b == self.is_proper(),
    {
        0 < self.ppb && self.ppb < SCALE
    }

    /// The share `count / total`, rounded down to a whole number of billionths.
    pub fn share(count: u64, total: u64) -> (f: Fraction)
        requires
            0 < total,
            count <= total,
        ensures
            f.ppb == share_ppb(count as nat, total as nat),
            f.ppb <= SCALE,
    {
        proof {
            lemma_share_at_most_one(count as nat, total as nat);
            assert(count as nat * SCALE as nat <= u64::MAX as nat * SCALE as nat) by (nonlinear_arith)
                requires
                    count as nat <= u64::MAX as nat,
            ;
        }
        let scaled: u128 = count as u128 * SCALE as u128;
        let parts: u128 = scaled / total as u128;
        Fraction { ppb: parts as u64 }
    }
}

} // verus!
