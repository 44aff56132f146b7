//! 256-bit unsigned arithmetic for the fixed-point conversions.
//!
//! A `Wide` holds the four 64-bit limbs of a 256-bit number, least significant
//! first. Products and quotients are computed by `sp_core::U256`; everything
//! else here is verified.

use vstd::prelude::*;
use sp_core::U256;

verus! {

/// 2^64, the weight of one limb.
pub open spec fn limb() -> int {
    0x1_0000_0000_0000_0000
}

/// 2^256, one more than the largest `Wide`.
pub open spec fn wide_limit() -> int {
    limb() * limb() * limb() * limb()
}

/// A 256-bit unsigned number: `l0 + l1·2^64 + l2·2^128 + l3·2^192`.
#[derive(Clone, Copy, Debug, PartialEq, Eq, Structural)]
pub struct Wide {
    pub l0: u64,
    pub l1: u64,
    pub l2: u64,
    pub l3: u64,
}

impl Wide {
    /// The number that the limbs stand for.
    pub open spec fn value(self) -> int {
        self.l0 as int + limb() * (self.l1 as int + limb() * (self.l2 as int + limb()
            * (self.l3 as int)))
    }

    /// Widens a 128-bit number.
    pub fn from_u128(a: u128) -> (w: Wide)
        ensures
            w.value() == a as int,
    {
        let lo: u64 = (a & 0xffff_ffff_ffff_ffff) as u64;
        let hi: u64 = (a >> 64) as u64;
        assert(a == (a >> 64) * 0x1_0000_0000_0000_0000 + (a & 0xffff_ffff_ffff_ffff))
            by (bit_vector);
        assert((a & 0xffff_ffff_ffff_ffff) <= 0xffff_ffff_ffff_ffff) by (bit_vector);
        assert((a >> 64) <= 0xffff_ffff_ffff_ffff) by (bit_vector);
        let w = Wide { l0: lo, l1: hi, l2: 0, l3: 0 };
        assert(w.value() == lo as int + limb() * (hi as int)) by (nonlinear_arith)
            requires
                w.value() == lo as int + limb() * (hi as int + limb() * (0 + limb() * 0)),
        ;
        assert(limb() * (hi as int) == (hi as int) * 0x1_0000_0000_0000_0000) by (nonlinear_arith)
            requires
                limb() == 0x1_0000_0000_0000_0000,
        ;
        w
    }

    /// Narrows to 128 bits where the number fits.
    pub fn to_u128(&self) -> (r: Option<u128>)
        ensures
            self.value() <= u128::MAX ==> r == Some(self.value() as u128),
            self.value() > u128::MAX ==> r.is_none(),
    {
        let b = Ghost(limb());
        if self.l2 != 0 || self.l3 != 0 {
            proof {
                let t2 = self.l2 as int + b@ * (self.l3 as int);
                assert(t2 >= 1) by (nonlinear_arith)
                    requires
                        t2 == self.l2 as int + b@ * (self.l3 as int),
                        self.l2 as int >= 0,
                        self.l3 as int >= 0,
                        self.l2 as int >= 1 || self.l3 as int >= 1,
                        b@ >= 1,
                ;
                assert(self.l0 as int + b@ * (self.l1 as int + b@ * t2) >= b@ * b@)
                    by (nonlinear_arith)
                    requires
                        t2 >= 1,
                        self.l0 as int >= 0,
                        self.l1 as int >= 0,
                        b@ >= 1,
                ;
            }
            None
        } else {
            let hi: u128 = self.l1 as u128;
            let lo: u128 = self.l0 as u128;
            let v: u128 = (hi << 64) | lo;
            assert(v == hi * 0x1_0000_0000_0000_0000 + lo) by (bit_vector)
                requires
                    v == (hi << 64) | lo,
                    hi <= 0xffff_ffff_ffff_ffff,
                    lo <= 0xffff_ffff_ffff_ffff,
            ;
            assert(self.value() == lo as int + (hi as int) * 0x1_0000_0000_0000_0000)
                by (nonlinear_arith)
                requires
                    self.value() == lo as int + limb() * (hi as int + limb() * (0 + limb() * 0)),
                    limb() == 0x1_0000_0000_0000_0000,
            ;
            Some(v)
        }
    }
}

/// The product of two 256-bit numbers, by `sp_core::U256`'s `*`, which stops
/// the program when the product does not fit in 256 bits: such operands are
/// left out. The limbs go in and come out in the order in which `U256` holds
/// them, least significant first.
#[verifier::external_body]
pub(crate) fn wide_mul(a: Wide, b: Wide) -> (p: Wide)
    requires
        a.value() * b.value() < wide_limit(),
    ensures
        p.value() == a.value() * b.value(),
{
    let p = U256([a.l0, a.l1, a.l2, a.l3]) * U256([b.l0, b.l1, b.l2, b.l3]);
    Wide { l0: p.0[0], l1: p.0[1], l2: p.0[2], l3: p.0[3] }
}

/// The quotient of two 256-bit numbers, rounded down, by `sp_core::U256`'s
/// `/`, which stops the program on a zero divisor: that divisor is left out.
#[verifier::external_body]
pub(crate) fn wide_div(a: Wide, b: Wide) -> (q: Wide)
    requires
        b.value() != 0,
    ensures
        q.value() == a.value() / b.value(),
{
    let q = U256([a.l0, a.l1, a.l2, a.l3]) / U256([b.l0, b.l1, b.l2, b.l3]);
    Wide { l0: q.0[0], l1: q.0[1], l2: q.0[2], l3: q.0[3] }
}

/// `a · b / d`, rounded down, as a mathematical integer.
pub open spec fn mul_div(a: int, b: int, d: int) -> int {
    (a * b) / d
}

/// `a · b / d` in 256 bits: no intermediate value is cut off.
pub fn wide_mul_div(a: Wide, b: u128, d: u128) -> (q: Wide)
    requires
        d > 0,
        a.value() * b < wide_limit(),
    ensures
        q.value() == mul_div(a.value(), b as int, d as int),
{
    let bw = Wide::from_u128(b);
    let dw = Wide::from_u128(d);
    let p = wide_mul(a, bw);
    wide_div(p, dw)
}

/// The product of two 128-bit numbers always fits in 256 bits.
pub proof fn lemma_product_fits(a: u128, b: u128)
    ensures
        0 <= (a as int) * (b as int) < wide_limit(),
{
    assert(0 <= (a as int) * (b as int) <= 0xffff_ffff_ffff_ffff_ffff_ffff_ffff_ffff
        * 0xffff_ffff_ffff_ffff_ffff_ffff_ffff_ffff) by (nonlinear_arith)
        requires
            0 <= a as int <= 0xffff_ffff_ffff_ffff_ffff_ffff_ffff_ffff,
            0 <= b as int <= 0xffff_ffff_ffff_ffff_ffff_ffff_ffff_ffff,
    ;
    assert(wide_limit() == 0x1_0000_0000_0000_0000_0000_0000_0000_0000
        * 0x1_0000_0000_0000_0000_0000_0000_0000_0000) by (nonlinear_arith)
        requires
            wide_limit() == limb() * limb() * limb() * limb(),
            limb() == 0x1_0000_0000_0000_0000,
    ;
}

} // verus!
