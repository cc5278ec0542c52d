//! Real numbers as the GUARD checks read them.
//!
//! A check such as `range(-12, 12)` or `thermal(2.5)` carries a real number.
//! Everything the solver and the compiler decide about such a number is a
//! function of four facts: whether it is a number at all (NaN), its sign, its
//! integer part and whether it has a nonzero fractional part. `Number` keeps
//! exactly these facts, with the integer part saturated at `u64::MAX`.

use vstd::prelude::*;

verus! {

/// A real number: `negative` is its sign, `whole` the integer part of its
/// magnitude (saturated at `u64::MAX`) and `fractional` tells whether the
/// magnitude has a nonzero fractional part. A negative sign on a number whose
/// magnitude is zero (`-0`) stands for zero. `nan` marks Not-a-Number, which
/// is neither below, above nor equal to any number and converts to 0.
#[derive(Clone, Copy, Debug, PartialEq, Eq, Structural)]
pub struct Number {
    pub negative: bool,
    pub whole: u64,
    pub fractional: bool,
    pub nan: bool,
}

/// `10^k`.
pub open spec fn pow10(k: nat) -> nat
    decreases k,
{
    if k == 0 {
        1
    } else {
        10 * pow10((k - 1) as nat)
    }
}

/// Every power of ten is at least one.
pub proof fn lemma_pow10_positive(k: nat)
    ensures
        pow10(k) >= 1,
    decreases k,
{
    if k > 0 {
        lemma_pow10_positive((k - 1) as nat);
    }
}

/// The number whose magnitude is `n / d` (for `d > 0`), with the given sign.
pub open spec fn from_ratio(negative: bool, n: nat, d: nat) -> Number {
    let q = n / d;
    Number {
        negative: negative,
        whole: if q > u64::MAX { u64::MAX } else { q as u64 },
        fractional: n % d != 0,
        nan: false,
    }
}

impl Number {
    /// The number equals zero.
    pub open spec fn is_zero(self) -> bool {
        !self.nan && self.whole == 0 && !self.fractional
    }

    /// The number is below zero.
    pub open spec fn is_neg(self) -> bool {
        !self.nan && self.negative && !(self.whole == 0 && !self.fractional)
    }

    /// The number is above zero.
    pub open spec fn is_pos(self) -> bool {
        !self.nan && !self.negative && !(self.whole == 0 && !self.fractional)
    }

    /// The number is below one.
    pub open spec fn below_one(self) -> bool {
        self.is_neg() || (!self.nan && self.whole == 0)
    }

    /// The number converted to an unsigned integer below `bound` as Rust's
    /// float-to-integer `as` does: truncated toward zero, negative numbers
    /// and NaN give zero, numbers past the bound give the bound.
    pub open spec fn saturate(self, bound: u64) -> u64 {
        if self.nan || self.negative {
            0
        } else if self.whole > bound {
            bound
        } else {
            self.whole
        }
    }

    /// Below zero.
    pub fn lt_zero(&self) -> (res: bool)
        ensures
            res == self.is_neg(),
    {
        !self.nan && self.negative && !(self.whole == 0 && !self.fractional)
    }

    /// Above zero.
    pub fn gt_zero(&self) -> (res: bool)
        ensures
            res == self.is_pos(),
    {
        !self.nan && !self.negative && !(self.whole == 0 && !self.fractional)
    }

    /// Equal to zero.
    pub fn eq_zero(&self) -> (res: bool)
        ensures
            res == self.is_zero(),
    {
        !self.nan && self.whole == 0 && !self.fractional
    }

    /// Below one.
    pub fn lt_one(&self) -> (res: bool)
        ensures
            res == self.below_one(),
    {
        self.lt_zero() || (!self.nan && self.whole == 0)
    }

    /// Rust's `as u8` of the number.
    pub fn to_u8(&self) -> (res: u8)
        ensures
            res as u64 == self.saturate(0xff),
    {
        if self.nan || self.negative {
            0
        } else if self.whole > 0xff {
            0xff
        } else {
            self.whole as u8
        }
    }

    /// Rust's `as u32` of the number.
    pub fn to_u32(&self) -> (res: u32)
        ensures
            res as u64 == self.saturate(0xffff_ffff),
    {
        if self.nan || self.negative {
            0
        } else if self.whole > 0xffff_ffff {
            0xffff_ffff
        } else {
            self.whole as u32
        }
    }

    /// Rust's `as u64` of the number.
    pub fn to_u64(&self) -> (res: u64)
        ensures
            res == self.saturate(u64::MAX),
    {
        if self.nan || self.negative {
            0
        } else {
            self.whole
        }
    }

    /// The integer `v`.
    pub fn from_int(v: i64) -> (res: Number)
        ensures
            res.negative == (v < 0),
            res.whole == (if v < 0 { -v } else { v as int }),
            !res.fractional,
            !res.nan,
    {
        if v < 0 {
            let m: u64 = if v == i64::MIN {
                0x8000_0000_0000_0000u64
            } else {
                (-v) as u64
            };
            Number { negative: true, whole: m, fractional: false, nan: false }
        } else {
            Number { negative: false, whole: v as u64, fractional: false, nan: false }
        }
    }

    /// The decimal `mantissa / 10^frac_digits`, e.g. `from_decimal(25, 1)` is 2.5.
    pub fn from_decimal(mantissa: i64, frac_digits: u32) -> (res: Number)
        ensures
            res == from_ratio(
                mantissa < 0,
                (if mantissa < 0 { -mantissa } else { mantissa as int }) as nat,
                pow10(frac_digits as nat),
            ),
    {
        let m: u64 = if mantissa < 0 {
            if mantissa == i64::MIN {
                0x8000_0000_0000_0000u64
            } else {
                (-mantissa) as u64
            }
        } else {
            mantissa as u64
        };
        let ghost mag: nat = m as nat;
        let mut whole: u64 = m;
        let mut fractional = false;
        let mut k: u32 = 0;
        proof {
            assert(pow10(0) == 1);
            vstd::arithmetic::div_mod::lemma_div_basics(mag as int);
            vstd::arithmetic::div_mod::lemma_fundamental_div_mod(mag as int, 1);
        }
        while k < frac_digits
            invariant
                k <= frac_digits,
                whole as nat == mag / pow10(k as nat),
                fractional == (mag % pow10(k as nat) != 0),
            decreases frac_digits - k,
        {
            let ghost p = pow10(k as nat);
            proof {
                lemma_pow10_positive(k as nat);
                lemma_div_mod_step(mag, p);
            }
            if whole % 10 != 0 {
                fractional = true;
            }
            whole = whole / 10;
            k = k + 1;
        }
        proof {
            lemma_pow10_positive(frac_digits as nat);
            assert(mag / pow10(frac_digits as nat) <= mag) by {
                vstd::arithmetic::div_mod::lemma_div_is_ordered_by_denominator(
                    mag as int,
                    1,
                    pow10(frac_digits as nat) as int,
                );
            }
        }
        Number { negative: mantissa < 0, whole, fractional, nan: false }
    }
}

/// Dividing by `p` and then by 10 is dividing by `10 p`, and the remainder
/// modulo `10 p` is nonzero iff the remainder modulo `p` is, or the last digit
/// of the quotient by `p` is.
pub proof fn lemma_div_mod_step(n: nat, p: nat)
    requires
        p >= 1,
    ensures
        n / (10 * p) == (n / p) / 10,
        (n % (10 * p) != 0) == (n % p != 0 || (n / p) % 10 != 0),
{
    vstd::arithmetic::div_mod::lemma_div_denominator(n as int, p as int, 10);
    vstd::arithmetic::div_mod::lemma_breakdown(n as int, p as int, 10);
    vstd::arithmetic::div_mod::lemma_fundamental_div_mod(n as int, p as int);
    vstd::arithmetic::mul::lemma_mul_is_commutative(p as int, 10);
    let q = n / p;
    let r = n % p;
    let r2 = (n / p) % 10;
    assert(n % (p * 10) == p * r2 + r);
    assert(10 * p == p * 10);
    assert(0 <= r < p);
    assert(r2 >= 0);
    if r2 != 0 {
        assert(p * r2 >= p) by (nonlinear_arith)
            requires
                r2 >= 1,
                p >= 1,
        ;
    }
    assert(p * r2 >= 0) by (nonlinear_arith)
        requires
            r2 >= 0,
            p >= 1,
    ;
    assert(n % (10 * p) == p * r2 + r);
    if r2 == 0 {
        assert(p * r2 == 0) by (nonlinear_arith) requires r2 == 0;
    }
}

} // verus!
