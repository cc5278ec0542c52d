//! Ternary domains: sets of `TernaryWeight`s held as three bits
//! (bit 0 = Neg, bit 1 = Zero, bit 2 = Pos).

use vstd::prelude::*;
use crate::types::TernaryWeight;

verus! {

/// A ternary domain represented as a bitmask (bit 0=Neg, bit 1=Zero, bit 2=Pos)
pub type Domain = u8;

pub const NEG_BIT: u8 = 1;

pub const ZERO_BIT: u8 = 2;

pub const POS_BIT: u8 = 4;

pub const ALL_DOMAIN: u8 = 7;

/// The domain holds `w`.
pub open spec fn in_dom(d: u8, w: TernaryWeight) -> bool {
    match w {
        TernaryWeight::Neg => d % 2 == 1,
        TernaryWeight::Zero => (d / 2) % 2 == 1,
        TernaryWeight::Pos => (d / 4) % 2 == 1,
    }
}

/// Number of values in a domain.
pub open spec fn size(d: u8) -> nat {
    (if in_dom(d, TernaryWeight::Neg) { 1nat } else { 0nat }) + (if in_dom(d, TernaryWeight::Zero) {
        1nat
    } else {
        0nat
    }) + (if in_dom(d, TernaryWeight::Pos) { 1nat } else { 0nat })
}

/// The values of a domain in the order Neg, Zero, Pos.
pub open spec fn dom_seq(d: u8) -> Seq<TernaryWeight> {
    (if in_dom(d, TernaryWeight::Neg) { seq![TernaryWeight::Neg] } else { seq![] }) + (if in_dom(
        d,
        TernaryWeight::Zero,
    ) {
        seq![TernaryWeight::Zero]
    } else {
        seq![]
    }) + (if in_dom(d, TernaryWeight::Pos) { seq![TernaryWeight::Pos] } else { seq![] })
}

/// Position of a weight in the order Neg, Zero, Pos.
pub open spec fn rank(w: TernaryWeight) -> int {
    match w {
        TernaryWeight::Neg => 0,
        TernaryWeight::Zero => 1,
        TernaryWeight::Pos => 2,
    }
}

/// A domain is one of the eight subsets.
pub open spec fn valid_dom(d: u8) -> bool {
    d < 8
}

/// `d` holds no more than `e`.
pub open spec fn subset(d: u8, e: u8) -> bool {
    forall|w: TernaryWeight| in_dom(d, w) ==> in_dom(e, w)
}

/// Two valid domains with the same members are equal.
pub proof fn lemma_dom_ext(d: u8, e: u8)
    requires
        valid_dom(d),
        valid_dom(e),
        forall|w: TernaryWeight| in_dom(d, w) == in_dom(e, w),
    ensures
        d == e,
{
    assert(in_dom(d, TernaryWeight::Neg) == in_dom(e, TernaryWeight::Neg));
    assert(in_dom(d, TernaryWeight::Zero) == in_dom(e, TernaryWeight::Zero));
    assert(in_dom(d, TernaryWeight::Pos) == in_dom(e, TernaryWeight::Pos));
}

/// A valid domain is empty iff it is 0.
pub proof fn lemma_dom_empty(d: u8)
    requires
        valid_dom(d),
    ensures
        (d == 0) == (forall|w: TernaryWeight| !in_dom(d, w)),
        (d == 0) == (size(d) == 0),
        (d == 0) == (dom_seq(d).len() == 0),
{
    if d != 0 {
        assert(in_dom(d, TernaryWeight::Neg) || in_dom(d, TernaryWeight::Zero) || in_dom(
            d,
            TernaryWeight::Pos,
        ));
    }
}

/// A strict subset is smaller.
pub proof fn lemma_dom_shrink(d: u8, e: u8)
    requires
        valid_dom(d),
        valid_dom(e),
        subset(d, e),
        d != e,
    ensures
        size(d) < size(e),
{
    if !(exists|w: TernaryWeight| in_dom(e, w) && !in_dom(d, w)) {
        assert forall|w: TernaryWeight| in_dom(d, w) == in_dom(e, w) by {}
        lemma_dom_ext(d, e);
    }
    assert(in_dom(d, TernaryWeight::Neg) ==> in_dom(e, TernaryWeight::Neg));
    assert(in_dom(d, TernaryWeight::Zero) ==> in_dom(e, TernaryWeight::Zero));
    assert(in_dom(d, TernaryWeight::Pos) ==> in_dom(e, TernaryWeight::Pos));
}

/// The members of `dom_seq(d)` are the members of `d`.
pub proof fn lemma_dom_seq(d: u8)
    ensures
        forall|w: TernaryWeight| dom_seq(d).contains(w) == in_dom(d, w),
        forall|i: int, j: int|
            0 <= i < j < dom_seq(d).len() ==> rank(dom_seq(d)[i]) < rank(dom_seq(d)[j]),
        dom_seq(d).len() <= 3,
{
    let s = dom_seq(d);
    assert forall|w: TernaryWeight| s.contains(w) == in_dom(d, w) by {
        if in_dom(d, w) {
            let i: int = match w {
                TernaryWeight::Neg => 0,
                TernaryWeight::Zero => if in_dom(d, TernaryWeight::Neg) {
                    1
                } else {
                    0
                },
                TernaryWeight::Pos => (if in_dom(d, TernaryWeight::Neg) {
                    1int
                } else {
                    0int
                }) + (if in_dom(d, TernaryWeight::Zero) {
                    1int
                } else {
                    0int
                }),
            };
            assert(s[i] == w);
        }
    }
}

/// The bit of a weight.
pub fn weight_to_domain(w: TernaryWeight) -> (res: Domain)
    ensures
        valid_dom(res),
        forall|v: TernaryWeight| in_dom(res, v) == (v == w),
        size(res) == 1,
{
    match w {
        TernaryWeight::Neg => NEG_BIT,
        TernaryWeight::Zero => ZERO_BIT,
        TernaryWeight::Pos => POS_BIT,
    }
}

/// The values of a domain, in the order Neg, Zero, Pos.
pub fn domain_to_vec(d: Domain) -> (res: Vec<TernaryWeight>)
    ensures
        res@ == dom_seq(d),
{
    let mut result = Vec::with_capacity(3);
    if dom_has(d, TernaryWeight::Neg) {
        result.push(TernaryWeight::Neg);
    }
    if dom_has(d, TernaryWeight::Zero) {
        result.push(TernaryWeight::Zero);
    }
    if dom_has(d, TernaryWeight::Pos) {
        result.push(TernaryWeight::Pos);
    }
    assert(result@ =~= dom_seq(d));
    result
}

/// Membership test.
pub fn dom_has(d: Domain, w: TernaryWeight) -> (res: bool)
    ensures
        res == in_dom(d, w),
{
    let b = weight_to_domain(w);
    let r = d & b;
    proof {
        lemma_bits(d, b);
    }
    r != 0
}

/// Intersection.
pub fn dom_and(d: Domain, e: Domain) -> (res: Domain)
    ensures
        forall|w: TernaryWeight| in_dom(res, w) == (in_dom(d, w) && in_dom(e, w)),
        valid_dom(d) || valid_dom(e) ==> valid_dom(res),
{
    let r = d & e;
    proof {
        lemma_bits(d, e);
    }
    r
}

/// Union with one value.
pub fn dom_add(d: Domain, w: TernaryWeight) -> (res: Domain)
    requires
        valid_dom(d),
    ensures
        valid_dom(res),
        forall|v: TernaryWeight| in_dom(res, v) == (in_dom(d, v) || v == w),
{
    let b = weight_to_domain(w);
    let r = d | b;
    proof {
        lemma_bits(d, b);
    }
    r
}

/// Number of values in a domain.
pub fn dom_size(d: Domain) -> (res: u32)
    ensures
        res == size(d),
{
    let mut n: u32 = 0;
    if dom_has(d, TernaryWeight::Neg) {
        n = n + 1;
    }
    if dom_has(d, TernaryWeight::Zero) {
        n = n + 1;
    }
    if dom_has(d, TernaryWeight::Pos) {
        n = n + 1;
    }
    n
}

/// The bit operations on domains in terms of their members.
proof fn lemma_bits(d: u8, e: u8)
    ensures
        ((d & e) % 2 == 1) == (d % 2 == 1 && e % 2 == 1),
        (((d & e) / 2) % 2 == 1) == ((d / 2) % 2 == 1 && (e / 2) % 2 == 1),
        (((d & e) / 4) % 2 == 1) == ((d / 4) % 2 == 1 && (e / 4) % 2 == 1),
        ((d | e) % 2 == 1) == (d % 2 == 1 || e % 2 == 1),
        (((d | e) / 2) % 2 == 1) == ((d / 2) % 2 == 1 || (e / 2) % 2 == 1),
        (((d | e) / 4) % 2 == 1) == ((d / 4) % 2 == 1 || (e / 4) % 2 == 1),
        d < 8 ==> (d & e) < 8,
        e < 8 ==> (d & e) < 8,
        d < 8 && e < 8 ==> (d | e) < 8,
        e == 1 ==> ((d & e) != 0) == (d % 2 == 1),
        e == 2 ==> ((d & e) != 0) == ((d / 2) % 2 == 1),
        e == 4 ==> ((d & e) != 0) == ((d / 4) % 2 == 1),
{
    assert(((d & e) % 2 == 1) == (d % 2 == 1 && e % 2 == 1)) by (bit_vector);
    assert((((d & e) / 2) % 2 == 1) == ((d / 2) % 2 == 1 && (e / 2) % 2 == 1)) by (bit_vector);
    assert((((d & e) / 4) % 2 == 1) == ((d / 4) % 2 == 1 && (e / 4) % 2 == 1)) by (bit_vector);
    assert(((d | e) % 2 == 1) == (d % 2 == 1 || e % 2 == 1)) by (bit_vector);
    assert((((d | e) / 2) % 2 == 1) == ((d / 2) % 2 == 1 || (e / 2) % 2 == 1)) by (bit_vector);
    assert((((d | e) / 4) % 2 == 1) == ((d / 4) % 2 == 1 || (e / 4) % 2 == 1)) by (bit_vector);
    assert(d < 8 ==> (d & e) < 8) by (bit_vector);
    assert(e < 8 ==> (d & e) < 8) by (bit_vector);
    assert(d < 8 && e < 8 ==> (d | e) < 8) by (bit_vector);
    assert(e == 1 ==> ((d & e) != 0) == (d % 2 == 1)) by (bit_vector);
    assert(e == 2 ==> ((d & e) != 0) == ((d / 2) % 2 == 1)) by (bit_vector);
    assert(e == 4 ==> ((d & e) != 0) == ((d / 4) % 2 == 1)) by (bit_vector);
}

} // verus!
