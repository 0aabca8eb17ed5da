//! Whole numbers of up to 192 bits, for sums of squares over large frames.
use vstd::prelude::*;

verus! {

/// Two to the sixty-fourth.
pub const WORD: u128 = 0x1_0000_0000_0000_0000;

/// A number: `hi` words, and `lo`.
#[derive(Debug)]
pub struct Wide {
    hi: u128,
    lo: u64,
}

impl View for Wide {
    type V = int;

    closed spec fn view(&self) -> int {
        self.hi * WORD + self.lo
    }
}

impl Wide {
    /// The product of two numbers.
    pub fn product(x: u128, m: u64) -> (r: Wide)
        ensures
            r@ == x * m,
    {
        let x1: u128 = x / WORD;
        let x0: u128 = x % WORD;
        let k: u128 = m as u128;
        assert(x0 * k <= (WORD - 1) * (WORD - 1) && x1 * k <= (WORD - 1) * (WORD - 1))
            by (nonlinear_arith)
            requires
                0 <= x0 <= WORD - 1,
                0 <= x1 <= WORD - 1,
                0 <= k <= WORD - 1,
        ;
        assert(0 <= x0 * k && 0 <= x1 * k) by (nonlinear_arith);
        let low: u128 = x0 * k;
        let hi: u128 = x1 * k + low / WORD;
        let lo: u64 = (low % WORD) as u64;
        proof {
            let (a, b, c, w) = (x1 as int, x0 as int, k as int, WORD as int);
            assert((a * w + b) * c == (a * c) * w + b * c) by (nonlinear_arith);
            let (p, q) = (a * c, low as int / w);
            assert((p + q) * w == p * w + q * w) by (nonlinear_arith);
        }
        Wide { hi, lo }
    }

    /// The sum of two numbers.
    pub fn plus(&self, other: &Wide) -> (r: Wide)
        requires
            self@ + other@ < 0x1_0000_0000_0000_0000_0000_0000_0000_0000_0000_0000_0000_0000,
        ensures
            r@ == self@ + other@,
    {
        let low: u128 = self.lo as u128 + other.lo as u128;
        let hi: u128 = self.hi + other.hi + low / WORD;
        Wide { hi, lo: (low % WORD) as u64 }
    }

    /// Whether this number is at least the other.
    pub fn at_least(&self, other: &Wide) -> (r: bool)
        ensures
            r == (self@ >= other@),
    {
        self.hi > other.hi || (self.hi == other.hi && self.lo >= other.lo)
    }
}

} // verus!
