//! CSP solver for constraint satisfaction
//!
//! Takes parsed GUARD DSL constraints and finds a ternary weight assignment
//! {-1, 0, +1} for each variable using AC-3 arc consistency propagation
//! and backtracking search with MRV (Minimum Remaining Values) heuristic.
//!
//! ## Algorithm
//! 1. Build initial domains from unary constraints (Range, Bitmask, Thermal, Sparsity)
//! 2. Build constraint graph from binary constraints (Equal, NotEqual, Imply)
//! 3. AC-3 propagation until fixpoint (prunes impossible values)
//! 4. Backtracking search with MRV variable selection
//! 5. Return complete Assignment or error

use vstd::prelude::*;
use std::collections::VecDeque;
use crate::domain::{
    dom_add, dom_and, dom_has, dom_size, domain_to_vec, dom_seq, in_dom, lemma_dom_empty,
    lemma_dom_ext, lemma_dom_seq, lemma_dom_shrink, rank, size, subset, valid_dom,
    weight_to_domain, Domain, ALL_DOMAIN, NEG_BIT, POS_BIT, ZERO_BIT,
};
use crate::types::{key_index, lemma_key_index, weight_name, Assignment, TernaryWeight};
use crate::number::Number;
use crate::parser::{constraints_view, Check, CheckView, Constraint, ConstraintView};

verus! {

// ---------------------------------------------------------------------------
// Binary constraints between variable indices
// ---------------------------------------------------------------------------
/// A binary constraint between two variables (by index)
#[derive(Debug, Clone, Copy)]
pub enum BinaryConstraint {
    Equal(usize, usize),
    NotEqual(usize, usize),
    Imply { from: usize, to: usize },
}

/// A nonzero value of the first forces the same value on the second.
pub open spec fn imply_ok(a: TernaryWeight, b: TernaryWeight) -> bool {
    (a == TernaryWeight::Pos ==> b == TernaryWeight::Pos) && (a == TernaryWeight::Neg ==> b
        == TernaryWeight::Neg)
}

/// First and second variable of a binary constraint.
pub open spec fn ends(b: BinaryConstraint) -> (usize, usize) {
    match b {
        BinaryConstraint::Equal(x, y) => (x, y),
        BinaryConstraint::NotEqual(x, y) => (x, y),
        BinaryConstraint::Imply { from, to } => (from, to),
    }
}

/// The constraint holds when its first variable has `va` and its second `vb`.
pub open spec fn holds_for(b: BinaryConstraint, va: TernaryWeight, vb: TernaryWeight) -> bool {
    match b {
        BinaryConstraint::Equal(_, _) => va == vb,
        BinaryConstraint::NotEqual(_, _) => va != vb,
        BinaryConstraint::Imply { .. } => imply_ok(va, vb),
    }
}

/// The constraint holds in the complete assignment `vals`.
pub open spec fn bin_holds(b: BinaryConstraint, vals: Seq<TernaryWeight>) -> bool {
    holds_for(b, vals[ends(b).0 as int], vals[ends(b).1 as int])
}

/// Both variables of every constraint are below `n`.
pub open spec fn bins_wf(bins: Seq<BinaryConstraint>, n: nat) -> bool {
    forall|t: int| 0 <= t < bins.len() ==> ends(#[trigger] bins[t]).0 < n && ends(bins[t]).1 < n
}

/// Every domain is valid.
pub open spec fn doms_wf(d: Seq<Domain>) -> bool {
    forall|i: int| 0 <= i < d.len() ==> valid_dom(#[trigger] d[i])
}

/// `vals` picks a value of each domain.
pub open spec fn in_domains(d: Seq<Domain>, vals: Seq<TernaryWeight>) -> bool {
    vals.len() == d.len() && forall|i: int| 0 <= i < d.len() ==> in_dom(d[i], #[trigger] vals[i])
}

/// `vals` picks a value of each domain and satisfies every binary constraint.
pub open spec fn solves(d: Seq<Domain>, bins: Seq<BinaryConstraint>, vals: Seq<TernaryWeight>) -> bool {
    &&& in_domains(d, vals)
    &&& forall|t: int| 0 <= t < bins.len() ==> bin_holds(#[trigger] bins[t], vals)
}

/// Each domain of `d2` is within that of `d1`.
pub open spec fn doms_subset(d2: Seq<Domain>, d1: Seq<Domain>) -> bool {
    d2.len() == d1.len() && forall|i: int| 0 <= i < d1.len() ==> subset(#[trigger] d2[i], d1[i])
}

/// Every solution over `d1` picks its values from `d2`.
pub open spec fn keeps_solutions(d1: Seq<Domain>, d2: Seq<Domain>, bins: Seq<BinaryConstraint>) -> bool {
    forall|vals: Seq<TernaryWeight>| #[trigger] solves(d1, bins, vals) ==> in_domains(d2, vals)
}

/// The constraint links `xi` to `xj` (for implications: from `xi` to `xj`).
pub open spec fn relevant(b: BinaryConstraint, xi: int, xj: int) -> bool {
    match b {
        BinaryConstraint::Equal(a, c) => (a == xi && c == xj) || (a == xj && c == xi),
        BinaryConstraint::NotEqual(a, c) => (a == xi && c == xj) || (a == xj && c == xi),
        BinaryConstraint::Imply { from, to } => from == xi && to == xj,
    }
}

/// The constraint, read as a relation between `xi` and `xj`, admits `vi`, `vj`.
pub open spec fn check_bin(
    b: BinaryConstraint,
    xi: int,
    vi: TernaryWeight,
    xj: int,
    vj: TernaryWeight,
) -> bool {
    match b {
        BinaryConstraint::Equal(a, c) => if (a == xi && c == xj) || (a == xj && c == xi) {
            vi == vj
        } else {
            true
        },
        BinaryConstraint::NotEqual(a, c) => if (a == xi && c == xj) || (a == xj && c == xi) {
            vi != vj
        } else {
            true
        },
        BinaryConstraint::Imply { from, to } => if from == xi && to == xj {
            imply_ok(vi, vj)
        } else {
            true
        },
    }
}

/// A constraint that links `xi` to `xj` and holds in `vals` admits their values.
pub proof fn lemma_relevant_holds(
    b: BinaryConstraint,
    xi: int,
    xj: int,
    vals: Seq<TernaryWeight>,
)
    requires
        relevant(b, xi, xj),
        bin_holds(b, vals),
    ensures
        check_bin(b, xi, vals[xi], xj, vals[xj]),
{
}

/// Check if a binary constraint is satisfied by given variable assignments
fn check_binary(
    bc: &BinaryConstraint,
    xi: usize,
    vi: &TernaryWeight,
    xj: usize,
    vj: &TernaryWeight,
) -> (res: bool)
    ensures
        res == check_bin(*bc, xi as int, *vi, xj as int, *vj),
{
    match bc {
        BinaryConstraint::Equal(a, b) => {
            if (*a == xi && *b == xj) || (*a == xj && *b == xi) {
                *vi == *vj
            } else {
                true  // not relevant

            }
        },
        BinaryConstraint::NotEqual(a, b) => {
            if (*a == xi && *b == xj) || (*a == xj && *b == xi) {
                *vi != *vj
            } else {
                true
            }
        },
        BinaryConstraint::Imply { from, to } => {
            if *from == xi && *to == xj {
                // If xi is Pos or Neg, xj must also have the same non-zero orientation
                // If xi is Zero, no constraint on xj
                match vi {
                    TernaryWeight::Pos => *vj == TernaryWeight::Pos,
                    TernaryWeight::Neg => *vj == TernaryWeight::Neg,
                    TernaryWeight::Zero => true,  // Zero implies nothing
                }
            } else {
                true
            }
        },
    }
}

/// Some value of `dj` admits `v` for `xi` under every constraint linking `xi` to `xj`.
pub open spec fn supported(
    bins: Seq<BinaryConstraint>,
    xi: int,
    v: TernaryWeight,
    xj: int,
    dj: Domain,
) -> bool {
    exists|u: TernaryWeight|
        in_dom(dj, u) && forall|t: int|
            0 <= t < bins.len() && relevant(#[trigger] bins[t], xi, xj) ==> check_bin(
                bins[t],
                xi,
                v,
                xj,
                u,
            )
}

/// Some constraint of `rel` rejects the pair (`v`, `u`) for (`xi`, `xj`).
pub open spec fn refuted(rel: Seq<BinaryConstraint>, xi: int, v: TernaryWeight, xj: int, u: TernaryWeight) -> bool {
    exists|r: int| 0 <= r < rel.len() && !check_bin(#[trigger] rel[r], xi, v, xj, u)
}

/// Some constraint links `xi` to `xj`.
pub open spec fn any_relevant(bins: Seq<BinaryConstraint>, xi: int, xj: int) -> bool {
    exists|t: int| 0 <= t < bins.len() && relevant(#[trigger] bins[t], xi, xj)
}

#[verifier::loop_isolation(false)]
/// Revise: prune values from domain of xi that have no support in domain of xj.
/// Returns true if the domain was changed.
fn revise(domains: &mut Vec<Domain>, constraints: &Vec<BinaryConstraint>, xi: usize, xj: usize) -> (res:
    bool)
    requires
        xi < old(domains)@.len(),
        xj < old(domains)@.len(),
        doms_wf(old(domains)@),
    ensures
        final(domains)@.len() == old(domains)@.len(),
        doms_wf(final(domains)@),
        forall|i: int| 0 <= i < old(domains)@.len() && i != xi ==> final(domains)@[i] == old(domains)@[i],
        forall|v: TernaryWeight|
            #![trigger in_dom(final(domains)@[xi as int], v)]
            in_dom(final(domains)@[xi as int], v) == (in_dom(old(domains)@[xi as int], v) && (
            !any_relevant(constraints@, xi as int, xj as int) || supported(
                constraints@,
                xi as int,
                v,
                xj as int,
                old(domains)@[xj as int],
            ))),
        res == (final(domains)@[xi as int] != old(domains)@[xi as int]),
{
    let di = domains[xi];
    if di == 0 {
        proof {
            lemma_dom_empty(di);
        }
        return false;
    }
    let dj = domains[xj];

    // Find relevant constraint between xi and xj
    let mut relevant_cs: Vec<BinaryConstraint> = Vec::new();
    let mut t: usize = 0;
    while t < constraints.len()
        invariant
            t <= constraints@.len(),
            forall|r: int|
                0 <= r < relevant_cs@.len() ==> relevant(#[trigger] relevant_cs@[r], xi as int, xj as int)
                    && constraints@.contains(relevant_cs@[r]),
            forall|s: int|
                0 <= s < t && relevant(#[trigger] constraints@[s], xi as int, xj as int)
                    ==> relevant_cs@.contains(constraints@[s]),
        decreases constraints@.len() - t,
    {
        let bc = constraints[t];
        let is_relevant = match bc {
            BinaryConstraint::Equal(a, b) => (a == xi && b == xj) || (a == xj && b == xi),
            BinaryConstraint::NotEqual(a, b) => (a == xi && b == xj) || (a == xj && b == xi),
            BinaryConstraint::Imply { from, to } => from == xi && to == xj,
        };
        let ghost before = relevant_cs@;
        if is_relevant {
            relevant_cs.push(bc);
            proof {
                assert(relevant_cs@.last() == constraints@[t as int]);
                assert forall|s: int|
                    0 <= s < t + 1 && relevant(#[trigger] constraints@[s], xi as int, xj as int)
                        implies relevant_cs@.contains(constraints@[s]) by {
                    if s < t {
                        let q = choose|q: int| 0 <= q < before.len() && before[q] == constraints@[s];
                        assert(relevant_cs@[q] == constraints@[s]);
                    } else {
                        assert(relevant_cs@[relevant_cs@.len() - 1] == constraints@[s]);
                    }
                }
            }
        }
        t += 1;
    }

    if relevant_cs.len() == 0 {
        proof {
            assert forall|s: int|
                0 <= s < constraints@.len() implies !relevant(
                #[trigger] constraints@[s],
                xi as int,
                xj as int,
            ) by {
                if relevant(constraints@[s], xi as int, xj as int) {
                    assert(relevant_cs@.contains(constraints@[s]));
                }
            }
        }
        return false;  // No constraint between these two

    }
    proof {
        assert(relevant(relevant_cs@[0], xi as int, xj as int));
        let s = choose|s: int| 0 <= s < constraints@.len() && constraints@[s] == relevant_cs@[0];
        assert(relevant(constraints@[s], xi as int, xj as int));
    }

    let mut new_domain: Domain = 0;
    let xi_vals = domain_to_vec(di);
    proof {
        lemma_dom_seq(di);
        lemma_dom_seq(dj);
    }
    // For each value v of xi, check if there's a value w of xj that satisfies all constraints
    let mut a: usize = 0;
    while a < xi_vals.len()
        invariant
            a <= xi_vals@.len(),
            xi_vals@ == dom_seq(di),
            valid_dom(new_domain),
            forall|v: TernaryWeight|
                #![trigger in_dom(new_domain, v)]
                in_dom(new_domain, v) == (exists|b: int|
                    0 <= b < a && xi_vals@[b] == v && supported(
                        constraints@,
                        xi as int,
                        v,
                        xj as int,
                        dj,
                    )),
            forall|r: int|
                0 <= r < relevant_cs@.len() ==> relevant(#[trigger] relevant_cs@[r], xi as int, xj as int)
                    && constraints@.contains(relevant_cs@[r]),
            forall|s: int|
                0 <= s < constraints@.len() && relevant(#[trigger] constraints@[s], xi as int, xj as int)
                    ==> relevant_cs@.contains(constraints@[s]),
            forall|w: TernaryWeight| dom_seq(dj).contains(w) == in_dom(dj, w),
        decreases xi_vals@.len() - a,
    {
        let v = xi_vals[a];
        let mut supported_v = false;
        let xj_vals = domain_to_vec(dj);
        let mut b: usize = 0;
        while b < xj_vals.len() && !supported_v
            invariant
                b <= xj_vals@.len(),
                xj_vals@ == dom_seq(dj),
                supported_v ==> supported(constraints@, xi as int, v, xj as int, dj),
                !supported_v ==> forall|c: int|
                    0 <= c < b ==> #[trigger] refuted(relevant_cs@, xi as int, v, xj as int, xj_vals@[c]),
            decreases xj_vals@.len() - b,
        {
            let w = xj_vals[b];
            let mut ok = true;
            let mut r: usize = 0;
            while r < relevant_cs.len()
                invariant
                    r <= relevant_cs@.len(),
                    ok == forall|q: int|
                        0 <= q < r ==> check_bin(#[trigger] relevant_cs@[q], xi as int, v, xj as int, w),
                decreases relevant_cs@.len() - r,
            {
                if !check_binary(&relevant_cs[r], xi, &v, xj, &w) {
                    ok = false;
                }
                r += 1;
            }
            if ok {
                proof {
                    assert forall|t: int|
                        0 <= t < constraints@.len() && relevant(
                            #[trigger] constraints@[t],
                            xi as int,
                            xj as int,
                        ) implies check_bin(constraints@[t], xi as int, v, xj as int, w) by {
                        assert(relevant_cs@.contains(constraints@[t]));
                        let q = choose|q: int|
                            0 <= q < relevant_cs@.len() && relevant_cs@[q] == constraints@[t];
                        assert(check_bin(relevant_cs@[q], xi as int, v, xj as int, w));
                    }
                    assert(in_dom(dj, w)) by {
                        assert(dom_seq(dj).contains(w));
                    }
                    assert(supported(constraints@, xi as int, v, xj as int, dj));
                }
                supported_v = true;
            } else {
                proof {
                    let q = choose|q: int|
                        0 <= q < r && !check_bin(relevant_cs@[q], xi as int, v, xj as int, w);
                    assert(!check_bin(relevant_cs@[q], xi as int, v, xj as int, xj_vals@[b as int]));
                    assert(refuted(relevant_cs@, xi as int, v, xj as int, xj_vals@[b as int]));
                }
            }
            b += 1;
        }
        if !supported_v {
            proof {
                assert(!supported(constraints@, xi as int, v, xj as int, dj)) by {
                    if supported(constraints@, xi as int, v, xj as int, dj) {
                        let u = choose|u: TernaryWeight|
                            in_dom(dj, u) && forall|t: int|
                                0 <= t < constraints@.len() && relevant(
                                    #[trigger] constraints@[t],
                                    xi as int,
                                    xj as int,
                                ) ==> check_bin(constraints@[t], xi as int, v, xj as int, u);
                        assert(dom_seq(dj).contains(u));
                        let c = choose|c: int| 0 <= c < xj_vals@.len() && xj_vals@[c] == u;
                        assert(refuted(relevant_cs@, xi as int, v, xj as int, xj_vals@[c]));
                        let r = choose|r: int|
                            0 <= r < relevant_cs@.len() && !check_bin(
                                #[trigger] relevant_cs@[r],
                                xi as int,
                                v,
                                xj as int,
                                xj_vals@[c],
                            );
                        let t = choose|t: int|
                            0 <= t < constraints@.len() && constraints@[t] == relevant_cs@[r];
                        assert(check_bin(constraints@[t], xi as int, v, xj as int, u));
                    }
                }
            }
        }
        if supported_v {
            new_domain = dom_add(new_domain, v);
        }
        proof {
            assert forall|w: TernaryWeight| #![trigger in_dom(new_domain, w)]
                in_dom(new_domain, w) == (exists|b: int|
                    0 <= b < a + 1 && xi_vals@[b] == w && supported(
                        constraints@,
                        xi as int,
                        w,
                        xj as int,
                        dj,
                    )) by {
                if w == v && supported_v {
                    assert(xi_vals@[a as int] == w);
                }
            }
        }
        a += 1;
    }
    proof {
        assert forall|v: TernaryWeight| #![trigger in_dom(new_domain, v)]
            in_dom(new_domain, v) == (in_dom(di, v) && (!any_relevant(
                constraints@,
                xi as int,
                xj as int,
            ) || supported(constraints@, xi as int, v, xj as int, dj))) by {
            assert(dom_seq(di).contains(v) == in_dom(di, v));
        }
    }
    if new_domain != di {
        domains.set(xi, new_domain);
        true
    } else {
        false
    }
}

// ---------------------------------------------------------------------------
// AC-3
// ---------------------------------------------------------------------------
/// Sum of the sizes of the domains.
pub open spec fn total_size(d: Seq<Domain>) -> nat
    decreases d.len(),
{
    if d.len() == 0 {
        0
    } else {
        total_size(d.drop_last()) + size(d.last())
    }
}

/// Replacing one domain changes the total size by the difference of sizes.
proof fn lemma_total_size_update(d: Seq<Domain>, i: int, v: Domain)
    requires
        0 <= i < d.len(),
    ensures
        total_size(d.update(i, v)) + size(d[i]) == total_size(d) + size(v),
    decreases d.len(),
{
    let e = d.update(i, v);
    if i < d.len() - 1 {
        assert(e.drop_last() =~= d.drop_last().update(i, v));
        lemma_total_size_update(d.drop_last(), i, v);
    } else {
        assert(e.drop_last() =~= d.drop_last());
    }
}

/// Every neighbour listed in the adjacency lists is a variable below `n`.
pub open spec fn adj_wf(adj: Seq<Vec<(usize, usize)>>, n: nat) -> bool {
    &&& adj.len() == n
    &&& forall|v: int, e: int|
        0 <= v < n && 0 <= e < adj[v]@.len() ==> (#[trigger] adj[v]@[e]).0 < n
}

/// `b` is listed among the neighbours of `a`.
pub open spec fn adj_has(adj: Seq<Vec<(usize, usize)>>, a: int, b: int) -> bool {
    exists|e: int| 0 <= e < adj[a]@.len() && (#[trigger] adj[a]@[e]).0 == b
}

/// The two variables of every constraint are listed as each other's neighbours.
pub open spec fn adj_complete(adj: Seq<Vec<(usize, usize)>>, bins: Seq<BinaryConstraint>) -> bool {
    forall|t: int|
        0 <= t < bins.len() ==> adj_has(adj, ends(#[trigger] bins[t]).0 as int, ends(bins[t]).1 as int)
            && adj_has(adj, ends(bins[t]).1 as int, ends(bins[t]).0 as int)
}

/// Every value of `a`'s domain has a support in `b`'s domain (arc consistency
/// of the arc from `a` to `b`).
pub open spec fn arc_ok(bins: Seq<BinaryConstraint>, d: Seq<Domain>, a: int, b: int) -> bool {
    !any_relevant(bins, a, b) || forall|v: TernaryWeight|
        in_dom(d[a], v) ==> #[trigger] supported(bins, a, v, b, d[b])
}

/// The arc from `a` to `b` waits in the worklist.
pub open spec fn pending(wl: Seq<(usize, usize)>, a: int, b: int) -> bool {
    exists|q: int| 0 <= q < wl.len() && #[trigger] wl[q] == (a as usize, b as usize)
}

/// `d2` is `d` with the domain of `xi` revised against that of `xj`.
pub open spec fn revised(bins: Seq<BinaryConstraint>, d: Seq<Domain>, d2: Seq<Domain>, xi: int, xj: int) -> bool {
    &&& d2.len() == d.len()
    &&& forall|i: int| 0 <= i < d.len() && i != xi ==> d2[i] == d[i]
    &&& forall|v: TernaryWeight|
        #![trigger in_dom(d2[xi], v)]
        in_dom(d2[xi], v) == (in_dom(d[xi], v) && (!any_relevant(bins, xi, xj) || supported(
            bins,
            xi,
            v,
            xj,
            d[xj],
        )))
}

/// Constraints that link two variables link them as neighbours.
proof fn lemma_relevant_adj(bins: Seq<BinaryConstraint>, adj: Seq<Vec<(usize, usize)>>, a: int, b: int)
    requires
        adj_complete(adj, bins),
        any_relevant(bins, a, b),
    ensures
        adj_has(adj, a, b),
        adj_has(adj, b, a),
{
    let t = choose|t: int| 0 <= t < bins.len() && relevant(#[trigger] bins[t], a, b);
    assert(adj_has(adj, ends(bins[t]).0 as int, ends(bins[t]).1 as int));
    assert(adj_has(adj, ends(bins[t]).1 as int, ends(bins[t]).0 as int));
}

/// Revising `xi` against `xj` leaves `xi`'s values supported in `xj`, unless
/// a self-arc emptied part of the domain it checks against.
proof fn lemma_revised_arc_ok(bins: Seq<BinaryConstraint>, d: Seq<Domain>, d2: Seq<Domain>, xi: int, xj: int)
    requires
        revised(bins, d, d2, xi, xj),
        0 <= xi < d.len(),
        0 <= xj < d.len(),
        xi != xj || d2[xi] == d[xi],
    ensures
        arc_ok(bins, d2, xi, xj),
{
    assert(d2[xj] == d[xj]);
    assert forall|v: TernaryWeight| in_dom(d2[xi], v) && any_relevant(bins, xi, xj) implies #[trigger] supported(
        bins,
        xi,
        v,
        xj,
        d2[xj],
    ) by {
        assert(in_dom(d2[xi], v));
    }
}

/// One turn of the propagation keeps every arc consistent or waiting in
/// the worklist.
proof fn lemma_ac3_step(
    bins: Seq<BinaryConstraint>,
    adj: Seq<Vec<(usize, usize)>>,
    d: Seq<Domain>,
    d2: Seq<Domain>,
    wl: Seq<(usize, usize)>,
    wl2: Seq<(usize, usize)>,
    xi: int,
    xj: int,
)
    requires
        d.len() <= usize::MAX,
        0 <= xi < d.len(),
        0 <= xj < d.len(),
        wl.len() > 0,
        wl[0] == (xi as usize, xj as usize),
        doms_wf(d),
        doms_wf(d2),
        revised(bins, d, d2, xi, xj),
        d2[xi] != d[xi] ==> d2[xi] != 0,
        adj_complete(adj, bins),
        forall|a: int, b: int|
            0 <= a < d.len() && 0 <= b < d.len() ==> #[trigger] arc_ok(bins, d, a, b) || pending(
                wl,
                a,
                b,
            ),
        wl2.len() >= wl.len() - 1,
        forall|q: int| 0 <= q < wl.len() - 1 ==> wl2[q] == wl[q + 1],
        d2[xi] != d[xi] ==> forall|a: int|
            0 <= a < d.len() && adj_has(adj, xi, a) ==> pending(wl2, a, xi),
    ensures
        forall|a: int, b: int|
            0 <= a < d.len() && 0 <= b < d.len() ==> #[trigger] arc_ok(bins, d2, a, b) || pending(
                wl2,
                a,
                b,
            ),
{
    let n = d.len();
    let changed = d2[xi] != d[xi];
    assert forall|a: int, b: int| 0 <= a < n && 0 <= b < n implies #[trigger] arc_ok(
        bins,
        d2,
        a,
        b,
    ) || pending(wl2, a, b) by {
        if changed && b == xi {
            if any_relevant(bins, a, b) {
                lemma_relevant_adj(bins, adj, a, b);
            }
        } else if a == xi && b == xj {
            lemma_revised_arc_ok(bins, d, d2, xi, xj);
        } else if pending(wl, a, b) {
            let q = choose|q: int| 0 <= q < wl.len() && #[trigger] wl[q] == (a as usize, b as usize);
            assert(q != 0);
            assert(wl2[q - 1] == wl[q]);
        } else {
            assert(arc_ok(bins, d, a, b) || pending(wl, a, b));
            if !changed {
                assert(d2 =~= d);
            } else {
                assert(d2[b] == d[b]);
                assert forall|v: TernaryWeight| in_dom(d2[a], v) && any_relevant(bins, a, b) implies #[trigger] supported(
                    bins,
                    a,
                    v,
                    b,
                    d2[b],
                ) by {
                    assert(in_dom(d[a], v));
                }
            }
        }
    }
}

/// A solution's value for `xi` keeps its support in `xj` through every revision.
proof fn lemma_solution_supported(
    d: Seq<Domain>,
    bins: Seq<BinaryConstraint>,
    vals: Seq<TernaryWeight>,
    xi: int,
    xj: int,
)
    requires
        solves(d, bins, vals),
        0 <= xi < d.len(),
        0 <= xj < d.len(),
    ensures
        supported(bins, xi, vals[xi], xj, d[xj]),
{
    assert(in_dom(d[xj], vals[xj]));
    assert forall|t: int| 0 <= t < bins.len() && relevant(#[trigger] bins[t], xi, xj) implies check_bin(
        bins[t],
        xi,
        vals[xi],
        xj,
        vals[xj],
    ) by {
        assert(bin_holds(bins[t], vals));
        lemma_relevant_holds(bins[t], xi, xj, vals);
    }
}

/// Builds the message naming a variable.
fn message_about(prefix: &str, name: &String, suffix: &str) -> (res: String)
    ensures
        res@ == prefix@ + name@ + suffix@,
{
    let mut msg = String::from_str(prefix);
    msg.append(name.as_str());
    msg.append(suffix);
    msg
}

/// AC-3 arc consistency propagation.
///
/// Maintains a worklist of arcs (variable pairs connected by a binary constraint).
/// For each arc, prunes domain values that have no supporting value in the other
/// variable's domain. Re-adds every arc into a variable whose domain shrinks.
/// It fails exactly when it empties a domain that was not empty; on success
/// the domains are a fixpoint (every arc is consistent), and no solution has
/// lost a value.
fn ac3_propagate(
    domains: &mut Vec<Domain>,
    constraints: &Vec<BinaryConstraint>,
    adjacency: &Vec<Vec<(usize, usize)>>,
    names: &Vec<String>,
) -> (res: Result<(), String>)
    requires
        doms_wf(old(domains)@),
        bins_wf(constraints@, old(domains)@.len()),
        adj_wf(adjacency@, old(domains)@.len()),
        adj_complete(adjacency@, constraints@),
        names@.len() == old(domains)@.len(),
    ensures
        doms_wf(final(domains)@),
        doms_subset(final(domains)@, old(domains)@),
        keeps_solutions(old(domains)@, final(domains)@, constraints@),
        res is Err ==> forall|vals: Seq<TernaryWeight>| !(#[trigger] solves(old(domains)@, constraints@, vals)),
        res is Err <==> exists|i: int|
            0 <= i < old(domains)@.len() && #[trigger] final(domains)@[i] == 0 && old(domains)@[i] != 0,
        res is Ok ==> forall|a: int, b: int|
            0 <= a < final(domains)@.len() && 0 <= b < final(domains)@.len() ==> #[trigger] arc_ok(
                constraints@,
                final(domains)@,
                a,
                b,
            ),
{
    let n = domains.len();
    let ghost d0 = domains@;
    // Initialize worklist: all arcs
    let mut worklist: VecDeque<(usize, usize)> = VecDeque::new();
    let mut var: usize = 0;
    while var < n
        invariant
            var <= n,
            n == domains@.len(),
            domains@ == d0,
            adj_wf(adjacency@, n as nat),
            forall|q: int| 0 <= q < worklist@.len() ==> (#[trigger] worklist@[q]).0 < n && worklist@[q].1 < n,
            forall|a: int, b: int|
                0 <= a < var && 0 <= b < n && adj_has(adjacency@, a, b) ==> pending(worklist@, a, b),
        decreases n - var,
    {
        let neighbors = &adjacency[var];
        let mut e: usize = 0;
        while e < neighbors.len()
            invariant
                var < n,
                e <= neighbors@.len(),
                neighbors == adjacency@[var as int],
                adj_wf(adjacency@, n as nat),
                forall|q: int| 0 <= q < worklist@.len() ==> (#[trigger] worklist@[q]).0 < n && worklist@[q].1 < n,
                forall|a: int, b: int|
                    0 <= a < var && 0 <= b < n && adj_has(adjacency@, a, b) ==> pending(worklist@, a, b),
                forall|e2: int| 0 <= e2 < e ==> pending(worklist@, var as int, #[trigger] neighbors@[e2].0 as int),
            decreases neighbors@.len() - e,
        {
            assert(adjacency@[var as int]@[e as int].0 < n);
            let ghost wl = worklist@;
            worklist.push_back((var, neighbors[e].0));
            proof {
                assert forall|a: int, b: int| 0 <= a < var && 0 <= b < n && adj_has(adjacency@, a, b) implies pending(
                    worklist@,
                    a,
                    b,
                ) by {
                    let q = choose|q: int| 0 <= q < wl.len() && #[trigger] wl[q] == (a as usize, b as usize);
                    assert(worklist@[q] == wl[q]);
                }
                assert forall|e2: int| 0 <= e2 < e + 1 implies pending(
                    worklist@,
                    var as int,
                    #[trigger] neighbors@[e2].0 as int,
                ) by {
                    if e2 < e {
                        let q = choose|q: int|
                            0 <= q < wl.len() && #[trigger] wl[q] == (var as usize, neighbors@[e2].0);
                        assert(worklist@[q] == wl[q]);
                    } else {
                        assert(worklist@[wl.len() as int] == (var, neighbors@[e2].0));
                    }
                }
            }
            e += 1;
        }
        proof {
            assert forall|a: int, b: int| 0 <= a < var + 1 && 0 <= b < n && adj_has(adjacency@, a, b) implies pending(
                worklist@,
                a,
                b,
            ) by {
                if a == var {
                    let e2 = choose|e2: int| 0 <= e2 < adjacency@[a]@.len() && (#[trigger] adjacency@[a]@[e2]).0 == b;
                    assert(pending(worklist@, var as int, neighbors@[e2].0 as int));
                }
            }
        }
        var += 1;
    }
    proof {
        assert forall|a: int, b: int| 0 <= a < n && 0 <= b < n implies #[trigger] arc_ok(
            constraints@,
            domains@,
            a,
            b,
        ) || pending(worklist@, a, b) by {
            if any_relevant(constraints@, a, b) {
                lemma_relevant_adj(constraints@, adjacency@, a, b);
            }
        }
    }

    while worklist.len() > 0
        invariant
            n == domains@.len(),
            d0 == old(domains)@,
            doms_wf(domains@),
            doms_subset(domains@, d0),
            keeps_solutions(d0, domains@, constraints@),
            bins_wf(constraints@, n as nat),
            adj_wf(adjacency@, n as nat),
            names@.len() == n,
            forall|q: int| 0 <= q < worklist@.len() ==> (#[trigger] worklist@[q]).0 < n && worklist@[q].1 < n,
            adj_complete(adjacency@, constraints@),
            forall|a: int, b: int|
                0 <= a < n && 0 <= b < n ==> #[trigger] arc_ok(constraints@, domains@, a, b) || pending(
                    worklist@,
                    a,
                    b,
                ),
            forall|i: int| 0 <= i < n && #[trigger] domains@[i] == 0 ==> d0[i] == 0,
        decreases total_size(domains@), worklist@.len(),
    {
        let ghost wl = worklist@;
        let arc = worklist.pop_front().unwrap();
        let ghost wl1 = worklist@;
        let xi = arc.0;
        let xj = arc.1;
        let ghost before = domains@;
        let changed = revise(domains, constraints, xi, xj);
        proof {
            assert forall|vals: Seq<TernaryWeight>| #[trigger] solves(d0, constraints@, vals) implies in_domains(
                domains@,
                vals,
            ) by {
                assert(in_domains(before, vals));
                assert(solves(before, constraints@, vals));
                lemma_solution_supported(before, constraints@, vals, xi as int, xj as int);
                assert forall|i: int| 0 <= i < n implies in_dom(domains@[i], #[trigger] vals[i]) by {
                    if i == xi {
                        assert(in_dom(before[i], vals[i]));
                    }
                }
            }
            assert forall|i: int| 0 <= i < n implies subset(#[trigger] domains@[i], d0[i]) by {
                assert(subset(before[i], d0[i]));
                if i == xi {
                    assert forall|w: TernaryWeight| in_dom(domains@[i], w) implies in_dom(d0[i], w) by {
                        assert(in_dom(before[i], w));
                    }
                }
            }
        }
        assert(doms_subset(domains@, d0));
        if !changed {
            assert(domains@ =~= before);
        }
        if changed {
            proof {
                assert(subset(domains@[xi as int], before[xi as int])) by {
                    assert forall|w: TernaryWeight| in_dom(domains@[xi as int], w) implies in_dom(
                        before[xi as int],
                        w,
                    ) by {}
                }
                lemma_dom_shrink(domains@[xi as int], before[xi as int]);
                assert(domains@ =~= before.update(xi as int, domains@[xi as int]));
                lemma_total_size_update(before, xi as int, domains@[xi as int]);
            }
            // Domain of xi was pruned. Check for emptiness.
            if domains[xi] == 0 {
                proof {
                    assert(domains@[xi as int] == 0 && d0[xi as int] != 0);
                    lemma_dom_empty(domains@[xi as int]);
                    assert forall|vals: Seq<TernaryWeight>| !(#[trigger] solves(d0, constraints@, vals)) by {
                        if solves(d0, constraints@, vals) {
                            assert(in_domains(domains@, vals));
                            assert(in_dom(domains@[xi as int], vals[xi as int]));
                        }
                    }
                }
                return Err(
                    message_about(
                        "No valid values for variable '",
                        &names[xi],
                        "' after constraint propagation",
                    ),
                );
            }
            // Re-add every arc (xk, xi) into the revised variable
            let neighbors = &adjacency[xi];
            let mut e: usize = 0;
            while e < neighbors.len()
                invariant
                    xi < n,
                    e <= neighbors@.len(),
                    neighbors == adjacency@[xi as int],
                    adj_wf(adjacency@, n as nat),
                    forall|q: int| 0 <= q < worklist@.len() ==> (#[trigger] worklist@[q]).0 < n && worklist@[q].1 < n,
                    worklist@.len() >= wl1.len(),
                    forall|q: int| 0 <= q < wl1.len() ==> #[trigger] worklist@[q] == wl1[q],
                    forall|e2: int|
                        0 <= e2 < e ==> pending(
                            worklist@,
                            neighbors@[e2].0 as int,
                            xi as int,
                        ),
                decreases neighbors@.len() - e,
            {
                let xk = neighbors[e].0;
                assert(adjacency@[xi as int]@[e as int].0 < n);
                let ghost wlb = worklist@;
                worklist.push_back((xk, xi));
                proof {
                    assert(worklist@[wlb.len() as int] == (xk, xi));
                    assert forall|e2: int| 0 <= e2 < e + 1 implies pending(
                        worklist@,
                        #[trigger] neighbors@[e2].0 as int,
                        xi as int,
                    ) by {
                        if e2 < e {
                            let q = choose|q: int|
                                0 <= q < wlb.len() && #[trigger] wlb[q] == (neighbors@[e2].0, xi);
                            assert(worklist@[q] == wlb[q]);
                        }
                    }
                }
                e += 1;
            }
            proof {
                assert forall|a: int| 0 <= a < n && adj_has(adjacency@, xi as int, a) implies pending(
                    worklist@,
                    a,
                    xi as int,
                ) by {
                    let e2 = choose|e2: int|
                        0 <= e2 < adjacency@[xi as int]@.len() && (#[trigger] adjacency@[xi as int]@[e2]).0 == a;
                    assert(neighbors@[e2].0 == a);
                }
            }
        }
        proof {
            assert(revised(constraints@, before, domains@, xi as int, xj as int));
            lemma_ac3_step(constraints@, adjacency@, before, domains@, wl, worklist@, xi as int, xj as int);
            assert forall|i: int| 0 <= i < n && #[trigger] domains@[i] == 0 implies d0[i] == 0 by {
                if i != xi {
                    assert(domains@[i] == before[i]);
                }
            }
        }
    }
    Ok(())
}

// ---------------------------------------------------------------------------
// Backtracking search
// ---------------------------------------------------------------------------
/// MRV order: variable `i` comes before `j` when its domain is smaller, or as
/// small and `i` is the earlier variable.
pub open spec fn before(d: Seq<Domain>, i: int, j: int) -> bool {
    size(d[i]) < size(d[j]) || (size(d[i]) == size(d[j]) && i < j)
}

/// `a` comes before `b` when, at the first variable in MRV order where they
/// differ, `a` holds the earlier value in the order Neg, Zero, Pos.
pub open spec fn lex_less(d: Seq<Domain>, a: Seq<TernaryWeight>, b: Seq<TernaryWeight>) -> bool {
    exists|k: int|
        0 <= k < a.len() && #[trigger] rank(a[k]) < rank(b[k]) && forall|m: int|
            0 <= m < a.len() && before(d, m, k) ==> a[m] == b[m]
}

/// The complete assignment `b` agrees with the partial assignment `p`.
pub open spec fn extends(p: Seq<Option<TernaryWeight>>, b: Seq<TernaryWeight>) -> bool {
    p.len() == b.len() && forall|i: int| 0 <= i < p.len() && #[trigger] p[i] is Some ==> p[i]->0 == b[i]
}

/// Every variable that comes before an assigned one in MRV order is assigned.
pub open spec fn assigned_closed(d: Seq<Domain>, p: Seq<Option<TernaryWeight>>) -> bool {
    forall|i: int, j: int|
        0 <= i < p.len() && 0 <= j < p.len() && #[trigger] p[j] is Some && #[trigger] before(d, i, j)
            ==> p[i] is Some
}

/// The constraint holds if both its variables are assigned.
pub open spec fn partial_holds(b: BinaryConstraint, p: Seq<Option<TernaryWeight>>) -> bool {
    (p[ends(b).0 as int] is Some && p[ends(b).1 as int] is Some) ==> holds_for(
        b,
        p[ends(b).0 as int]->0,
        p[ends(b).1 as int]->0,
    )
}

/// Every constraint whose variables are both assigned holds.
pub open spec fn partial_consistent(bins: Seq<BinaryConstraint>, p: Seq<Option<TernaryWeight>>) -> bool {
    forall|t: int| 0 <= t < bins.len() ==> partial_holds(#[trigger] bins[t], p)
}

/// Every assigned value lies in its domain.
pub open spec fn partial_in_domains(d: Seq<Domain>, p: Seq<Option<TernaryWeight>>) -> bool {
    p.len() == d.len() && forall|i: int| 0 <= i < p.len() && #[trigger] p[i] is Some ==> in_dom(d[i], p[i]->0)
}

/// Every variable is assigned.
pub open spec fn complete(p: Seq<Option<TernaryWeight>>) -> bool {
    forall|i: int| 0 <= i < p.len() ==> #[trigger] p[i] is Some
}

/// The values of a complete assignment.
pub open spec fn unwrap_all(p: Seq<Option<TernaryWeight>>) -> Seq<TernaryWeight> {
    p.map_values(|o: Option<TernaryWeight>| o->0)
}

/// `vals` is the least (in MRV order) solution that extends `p`.
pub open spec fn least_extension(
    d: Seq<Domain>,
    bins: Seq<BinaryConstraint>,
    p: Seq<Option<TernaryWeight>>,
    vals: Seq<TernaryWeight>,
) -> bool {
    &&& solves(d, bins, vals)
    &&& extends(p, vals)
    &&& forall|b: Seq<TernaryWeight>|
        #[trigger] solves(d, bins, b) && extends(p, b) && b != vals ==> lex_less(d, vals, b)
}

/// Number of unassigned variables.
pub open spec fn unassigned_count(p: Seq<Option<TernaryWeight>>) -> nat
    decreases p.len(),
{
    if p.len() == 0 {
        0
    } else {
        unassigned_count(p.drop_last()) + if p.last() is None {
            1nat
        } else {
            0nat
        }
    }
}

/// Assigning an unassigned variable leaves one fewer unassigned.
proof fn lemma_unassigned_count_assign(p: Seq<Option<TernaryWeight>>, i: int, v: TernaryWeight)
    requires
        0 <= i < p.len(),
        p[i] is None,
    ensures
        unassigned_count(p.update(i, Some(v))) + 1 == unassigned_count(p),
    decreases p.len(),
{
    let q = p.update(i, Some(v));
    if i < p.len() - 1 {
        assert(q.drop_last() =~= p.drop_last().update(i, Some(v)));
        lemma_unassigned_count_assign(p.drop_last(), i, v);
    } else {
        assert(q.drop_last() =~= p.drop_last());
    }
}

/// The weights of `s` equal to `w`, in order.
pub open spec fn only(s: Seq<TernaryWeight>, w: TernaryWeight) -> Seq<TernaryWeight>
    decreases s.len(),
{
    if s.len() == 0 {
        seq![]
    } else {
        only(s.drop_last(), w) + if s.last() == w {
            seq![w]
        } else {
            seq![]
        }
    }
}

/// Keeping the copies of `w` distributes over concatenation.
proof fn lemma_only_concat(a: Seq<TernaryWeight>, b: Seq<TernaryWeight>, w: TernaryWeight)
    ensures
        only(a + b, w) == only(a, w) + only(b, w),
    decreases b.len(),
{
    if b.len() == 0 {
        assert(a + b =~= a);
        assert(only(b, w) =~= seq![]);
        assert(only(a, w) + only(b, w) =~= only(a, w));
    } else {
        assert((a + b).drop_last() =~= a + b.drop_last());
        lemma_only_concat(a, b.drop_last(), w);
        assert(only(a + b, w) =~= only(a, w) + only(b, w));
    }
}

/// Keeping the copies of `w` in a single value.
proof fn lemma_only_single(x: TernaryWeight, w: TernaryWeight)
    ensures
        only(seq![x], w) == if x == w {
            seq![w]
        } else {
            seq![]
        },
{
    assert(seq![x].drop_last() =~= seq![]);
    let e: Seq<TernaryWeight> = seq![];
    assert(only(e, w) =~= seq![]);
    assert(only(seq![x], w) =~= (if x == w {
        seq![w]
    } else {
        seq![]
    }));
}

/// Keeping the copies of `w` in nothing gives nothing.
proof fn lemma_only_empty(w: TernaryWeight)
    ensures
        only(seq![], w) == Seq::<TernaryWeight>::empty(),
{
}

/// Sorting the values of a domain by rank leaves them as they are.
proof fn lemma_order_dom_seq(d: Domain)
    ensures
        only(dom_seq(d), TernaryWeight::Neg) + only(dom_seq(d), TernaryWeight::Zero) + only(
            dom_seq(d),
            TernaryWeight::Pos,
        ) == dom_seq(d),
{
    let a: Seq<TernaryWeight> = if in_dom(d, TernaryWeight::Neg) {
        seq![TernaryWeight::Neg]
    } else {
        seq![]
    };
    let b: Seq<TernaryWeight> = if in_dom(d, TernaryWeight::Zero) {
        seq![TernaryWeight::Zero]
    } else {
        seq![]
    };
    let c: Seq<TernaryWeight> = if in_dom(d, TernaryWeight::Pos) {
        seq![TernaryWeight::Pos]
    } else {
        seq![]
    };
    assert(dom_seq(d) == a + b + c);
    lemma_only_empty(TernaryWeight::Neg);
    lemma_only_empty(TernaryWeight::Zero);
    lemma_only_empty(TernaryWeight::Pos);
    lemma_only_single(TernaryWeight::Neg, TernaryWeight::Neg);
    lemma_only_single(TernaryWeight::Neg, TernaryWeight::Zero);
    lemma_only_single(TernaryWeight::Neg, TernaryWeight::Pos);
    lemma_only_single(TernaryWeight::Zero, TernaryWeight::Neg);
    lemma_only_single(TernaryWeight::Zero, TernaryWeight::Zero);
    lemma_only_single(TernaryWeight::Zero, TernaryWeight::Pos);
    lemma_only_single(TernaryWeight::Pos, TernaryWeight::Neg);
    lemma_only_single(TernaryWeight::Pos, TernaryWeight::Zero);
    lemma_only_single(TernaryWeight::Pos, TernaryWeight::Pos);
    lemma_only_concat(a + b, c, TernaryWeight::Neg);
    lemma_only_concat(a, b, TernaryWeight::Neg);
    lemma_only_concat(a + b, c, TernaryWeight::Zero);
    lemma_only_concat(a, b, TernaryWeight::Zero);
    lemma_only_concat(a + b, c, TernaryWeight::Pos);
    lemma_only_concat(a, b, TernaryWeight::Pos);
    assert(only(dom_seq(d), TernaryWeight::Neg) + only(dom_seq(d), TernaryWeight::Zero) + only(
        dom_seq(d),
        TernaryWeight::Pos,
    ) =~= dom_seq(d));
}

/// Order values: Neg → Zero → Pos (Neg is most constrained as it represents -1)
fn order_values(values: Vec<TernaryWeight>) -> (res: Vec<TernaryWeight>)
    ensures
        res@ == only(values@, TernaryWeight::Neg) + only(values@, TernaryWeight::Zero) + only(
            values@,
            TernaryWeight::Pos,
        ),
{
    let mut result: Vec<TernaryWeight> = Vec::with_capacity(3);
    let ghost start: Seq<TernaryWeight> = seq![];
    let mut i: usize = 0;
    while i < values.len()
        invariant
            i <= values@.len(),
            result@ == only(values@.take(i as int), TernaryWeight::Neg),
        decreases values@.len() - i,
    {
        assert(values@.take(i + 1) =~= values@.take(i as int).push(values@[i as int]));
        if values[i] == TernaryWeight::Neg {
            result.push(TernaryWeight::Neg);
        }
        assert(values@.take(i + 1).drop_last() =~= values@.take(i as int));
        i += 1;
    }
    assert(values@.take(values@.len() as int) =~= values@);
    let ghost r1 = result@;
    i = 0;
    while i < values.len()
        invariant
            i <= values@.len(),
            result@ == r1 + only(values@.take(i as int), TernaryWeight::Zero),
        decreases values@.len() - i,
    {
        if values[i] == TernaryWeight::Zero {
            result.push(TernaryWeight::Zero);
        }
        assert(values@.take(i + 1).drop_last() =~= values@.take(i as int));
        assert(result@ =~= r1 + only(values@.take(i + 1), TernaryWeight::Zero));
        i += 1;
    }
    let ghost r2 = result@;
    i = 0;
    while i < values.len()
        invariant
            i <= values@.len(),
            result@ == r2 + only(values@.take(i as int), TernaryWeight::Pos),
        decreases values@.len() - i,
    {
        if values[i] == TernaryWeight::Pos {
            result.push(TernaryWeight::Pos);
        }
        assert(values@.take(i + 1).drop_last() =~= values@.take(i as int));
        assert(result@ =~= r2 + only(values@.take(i + 1), TernaryWeight::Pos));
        i += 1;
    }
    assert(r1 =~= only(values@, TernaryWeight::Neg));
    result
}

/// The constraint holds for the given values of its first and second variable.
fn holds(bc: &BinaryConstraint, va: TernaryWeight, vb: TernaryWeight) -> (res: bool)
    ensures
        res == holds_for(*bc, va, vb),
{
    match bc {
        BinaryConstraint::Equal(_, _) => va == vb,
        BinaryConstraint::NotEqual(_, _) => va != vb,
        BinaryConstraint::Imply { .. } => match va {
            TernaryWeight::Pos => vb == TernaryWeight::Pos,
            TernaryWeight::Neg => vb == TernaryWeight::Neg,
            TernaryWeight::Zero => true,
        },
    }
}

/// The constraint involves variable `v`.
pub open spec fn involves(b: BinaryConstraint, v: int) -> bool {
    ends(b).0 == v || ends(b).1 == v
}

/// Forward check: does the value just given to `var` conflict with any
/// already-assigned variable's binary constraint?
fn is_consistent_partial(
    var: usize,
    assignment: &Vec<Option<TernaryWeight>>,
    constraints: &Vec<BinaryConstraint>,
) -> (res: bool)
    requires
        bins_wf(constraints@, assignment@.len()),
    ensures
        res == forall|t: int|
            0 <= t < constraints@.len() && involves(#[trigger] constraints@[t], var as int)
                ==> partial_holds(constraints@[t], assignment@),
{
    let mut t: usize = 0;
    while t < constraints.len()
        invariant
            t <= constraints@.len(),
            bins_wf(constraints@, assignment@.len()),
            forall|s: int|
                0 <= s < t && involves(#[trigger] constraints@[s], var as int) ==> partial_holds(
                    constraints@[s],
                    assignment@,
                ),
        decreases constraints@.len() - t,
    {
        let bc = &constraints[t];
        let (a, c) = match bc {
            BinaryConstraint::Equal(a, c) => (*a, *c),
            BinaryConstraint::NotEqual(a, c) => (*a, *c),
            BinaryConstraint::Imply { from, to } => (*from, *to),
        };
        assert(ends(constraints@[t as int]) == (a, c));
        if a == var || c == var {
            match (assignment[a], assignment[c]) {
                (Some(va), Some(vc)) => {
                    if !holds(bc, va, vc) {
                        return false;
                    }
                },
                _ => {},
            }
        }
        t += 1;
    }
    true
}

/// Giving the unassigned variable `i` the value `v` breaks no constraint
/// between `i` and an assigned variable.
pub open spec fn fits_assigned(bins: Seq<BinaryConstraint>, p: Seq<Option<TernaryWeight>>, i: int, v: TernaryWeight) -> bool {
    forall|t: int|
        0 <= t < bins.len() && involves(#[trigger] bins[t], i) && ends(bins[t]).0 != ends(bins[t]).1
            ==> partial_holds(bins[t], p.update(i, Some(v)))
}

/// Every unassigned variable keeps a value of its domain that fits the
/// assigned ones.
pub open spec fn future_supported(d: Seq<Domain>, bins: Seq<BinaryConstraint>, p: Seq<Option<TernaryWeight>>) -> bool {
    forall|i: int|
        0 <= i < d.len() && #[trigger] p[i] is None ==> exists|v: TernaryWeight|
            in_dom(d[i], v) && #[trigger] fits_assigned(bins, p, i, v)
}

/// Does giving the unassigned variable `i` the value `v` keep every
/// constraint with an assigned variable?
fn fits_value(
    i: usize,
    v: TernaryWeight,
    assignment: &Vec<Option<TernaryWeight>>,
    constraints: &Vec<BinaryConstraint>,
) -> (res: bool)
    requires
        i < assignment@.len(),
        assignment@[i as int] is None,
        bins_wf(constraints@, assignment@.len()),
    ensures
        res == fits_assigned(constraints@, assignment@, i as int, v),
{
    let ghost p = assignment@;
    let ghost q = p.update(i as int, Some(v));
    let mut t: usize = 0;
    while t < constraints.len()
        invariant
            t <= constraints@.len(),
            i < p.len(),
            p == assignment@,
            q == p.update(i as int, Some(v)),
            p[i as int] is None,
            bins_wf(constraints@, assignment@.len()),
            forall|s: int|
                0 <= s < t && involves(#[trigger] constraints@[s], i as int) && ends(constraints@[s]).0
                    != ends(constraints@[s]).1 ==> partial_holds(constraints@[s], q),
        decreases constraints@.len() - t,
    {
        let bc = &constraints[t];
        let (a, c) = match bc {
            BinaryConstraint::Equal(a, c) => (*a, *c),
            BinaryConstraint::NotEqual(a, c) => (*a, *c),
            BinaryConstraint::Imply { from, to } => (*from, *to),
        };
        assert(ends(constraints@[t as int]) == (a, c));
        if a != c {
            if a == i {
                if let Some(vc) = assignment[c] {
                    if !holds(bc, v, vc) {
                        return false;
                    }
                }
            } else if c == i {
                if let Some(va) = assignment[a] {
                    if !holds(bc, va, v) {
                        return false;
                    }
                }
            }
        }
        t += 1;
    }
    true
}

/// Ensure every unassigned variable still has at least one value that is
/// consistent with the partial assignment.
fn has_future_support(
    domains: &Vec<Domain>,
    assignment: &Vec<Option<TernaryWeight>>,
    constraints: &Vec<BinaryConstraint>,
) -> (res: bool)
    requires
        domains@.len() == assignment@.len(),
        bins_wf(constraints@, assignment@.len()),
    ensures
        res == future_supported(domains@, constraints@, assignment@),
{
    let mut i: usize = 0;
    while i < domains.len()
        invariant
            i <= domains@.len(),
            domains@.len() == assignment@.len(),
            bins_wf(constraints@, assignment@.len()),
            forall|j: int|
                0 <= j < i && #[trigger] assignment@[j] is None ==> exists|v: TernaryWeight|
                    in_dom(domains@[j], v) && #[trigger] fits_assigned(constraints@, assignment@, j, v),
        decreases domains@.len() - i,
    {
        if assignment[i].is_none() {
            let values = domain_to_vec(domains[i]);
            proof {
                lemma_dom_seq(domains@[i as int]);
            }
            let mut found = false;
            let mut k: usize = 0;
            while k < values.len() && !found
                invariant
                    k <= values@.len(),
                    values@ == dom_seq(domains@[i as int]),
                    i < assignment@.len(),
                    assignment@[i as int] is None,
                    bins_wf(constraints@, assignment@.len()),
                    found ==> exists|v: TernaryWeight|
                        in_dom(domains@[i as int], v) && #[trigger] fits_assigned(constraints@, assignment@, i as int, v),
                    !found ==> forall|m: int|
                        0 <= m < k ==> !fits_assigned(constraints@, assignment@, i as int, #[trigger] values@[m]),
                decreases values@.len() - k,
            {
                if fits_value(i, values[k], assignment, constraints) {
                    assert(values@.contains(values@[k as int]));
                    found = true;
                }
                k += 1;
            }
            if !found {
                proof {
                    assert forall|v: TernaryWeight| in_dom(domains@[i as int], v) implies !#[trigger] fits_assigned(
                        constraints@,
                        assignment@,
                        i as int,
                        v,
                    ) by {
                        assert(values@.contains(v));
                        let m = choose|m: int| 0 <= m < values@.len() && values@[m] == v;
                        assert(!fits_assigned(constraints@, assignment@, i as int, values@[m]));
                    }
                }
                return false;
            }
        }
        i += 1;
    }
    true
}

/// An unassigned variable left without a fitting value means that no
/// solution extends the partial assignment.
proof fn lemma_no_future_no_solution(
    d: Seq<Domain>,
    bins: Seq<BinaryConstraint>,
    p: Seq<Option<TernaryWeight>>,
)
    requires
        p.len() == d.len(),
        bins_wf(bins, d.len()),
        !future_supported(d, bins, p),
    ensures
        forall|b: Seq<TernaryWeight>| !(#[trigger] solves(d, bins, b) && extends(p, b)),
{
    let i = choose|i: int|
        0 <= i < d.len() && #[trigger] p[i] is None && !exists|v: TernaryWeight|
            in_dom(d[i], v) && #[trigger] fits_assigned(bins, p, i, v);
    assert forall|b: Seq<TernaryWeight>| !(#[trigger] solves(d, bins, b) && extends(p, b)) by {
        if solves(d, bins, b) && extends(p, b) {
            let v = b[i];
            assert(in_dom(d[i], v));
            let q = p.update(i, Some(v));
            assert forall|t: int|
                0 <= t < bins.len() && involves(#[trigger] bins[t], i) && ends(bins[t]).0 != ends(bins[t]).1
                    implies partial_holds(bins[t], q) by {
                assert(bin_holds(bins[t], b));
                let x = ends(bins[t]).0 as int;
                let y = ends(bins[t]).1 as int;
                if q[x] is Some && q[y] is Some {
                    if x != i {
                        assert(p[x] is Some && p[x]->0 == b[x]);
                    }
                    if y != i {
                        assert(p[y] is Some && p[y]->0 == b[y]);
                    }
                }
            }
            assert(fits_assigned(bins, p, i, v));
        }
    }
}

/// MRV: the unassigned variable with the fewest remaining values (the first
/// such one on ties), or `None` when every variable is assigned.
fn select_unassigned(domains: &Vec<Domain>, assignment: &Vec<Option<TernaryWeight>>) -> (res: Option<usize>)
    requires
        domains@.len() == assignment@.len(),
    ensures
        res is None ==> complete(assignment@),
        res matches Some(v) ==> v < assignment@.len() && assignment@[v as int] is None && forall|m: int|
            0 <= m < assignment@.len() && #[trigger] assignment@[m] is None ==> !before(
                domains@,
                m,
                v as int,
            ),
{
    let mut best: Option<usize> = None;
    let mut best_size: u32 = 0;
    let mut i: usize = 0;
    while i < domains.len()
        invariant
            i <= domains@.len(),
            domains@.len() == assignment@.len(),
            best is None ==> forall|m: int| 0 <= m < i ==> #[trigger] assignment@[m] is Some,
            best matches Some(v) ==> v < i && assignment@[v as int] is None && best_size == size(
                domains@[v as int],
            ) && forall|m: int|
                0 <= m < i && #[trigger] assignment@[m] is None ==> !before(domains@, m, v as int),
        decreases domains@.len() - i,
    {
        if assignment[i].is_none() {
            let sz = dom_size(domains[i]);
            match best {
                None => {
                    best = Some(i);
                    best_size = sz;
                },
                Some(_) => {
                    if sz < best_size {
                        best = Some(i);
                        best_size = sz;
                    }
                },
            }
        }
        i += 1;
    }
    best
}

/// Recursive backtracking search with MRV heuristic
fn backtrack(
    names: &Vec<String>,
    domains: &Vec<Domain>,
    constraints: &Vec<BinaryConstraint>,
    assignment: &mut Vec<Option<TernaryWeight>>,
) -> (res: Result<(), String>)
    requires
        names@.len() == domains@.len(),
        doms_wf(domains@),
        forall|i: int| 0 <= i < domains@.len() ==> #[trigger] domains@[i] != 0,
        bins_wf(constraints@, domains@.len()),
        partial_in_domains(domains@, old(assignment)@),
        assigned_closed(domains@, old(assignment)@),
        partial_consistent(constraints@, old(assignment)@),
    ensures
        res is Ok ==> complete(final(assignment)@) && final(assignment)@.len() == old(assignment)@.len()
            && least_extension(domains@, constraints@, old(assignment)@, unwrap_all(final(assignment)@)),
        res is Err ==> final(assignment)@ == old(assignment)@ && forall|b: Seq<TernaryWeight>|
            !(#[trigger] solves(domains@, constraints@, b) && extends(old(assignment)@, b)),
    decreases unassigned_count(old(assignment)@),
{
    let ghost p = assignment@;
    let var = match select_unassigned(domains, assignment) {
        None => {
            proof {
                lemma_complete_least(domains@, constraints@, p);
            }
            return Ok(());
        },
        Some(v) => v,
    };

    // Value ordering: Neg → Zero → Pos (most constrained first)
    let domain = domains[var];
    let values = domain_to_vec(domain);
    let ordered_values = order_values(values);
    proof {
        lemma_order_dom_seq(domain);
        lemma_dom_seq(domain);
    }
    let mut t: usize = 0;
    while t < ordered_values.len()
        invariant
            t <= ordered_values@.len(),
            ordered_values@ == dom_seq(domain),
            domain == domains@[var as int],
            var < p.len(),
            p[var as int] is None,
            p == old(assignment)@,
            assignment@ == p,
            names@.len() == domains@.len(),
            doms_wf(domains@),
            forall|i: int| 0 <= i < domains@.len() ==> #[trigger] domains@[i] != 0,
            bins_wf(constraints@, domains@.len()),
            partial_in_domains(domains@, p),
            assigned_closed(domains@, p),
            partial_consistent(constraints@, p),
            forall|m: int| 0 <= m < p.len() && #[trigger] p[m] is None ==> !before(domains@, m, var as int),
            forall|s: int, b: Seq<TernaryWeight>|
                0 <= s < t ==> !(#[trigger] solves(domains@, constraints@, b) && extends(
                    p.update(var as int, Some(#[trigger] ordered_values@[s])),
                    b,
                )),
        decreases ordered_values@.len() - t,
    {
        let val = ordered_values[t];
        // Tentatively assign
        assignment.set(var, Some(val));
        let ghost q = assignment@;
        proof {
            assert(q == p.update(var as int, Some(val)));
            assert(dom_seq(domain).contains(val));
        }
        // Forward checking: verify all binary constraints involving var are consistent
        // with the partial assignment (no conflict with already-assigned vars)
        if is_consistent_partial(var, assignment, constraints) {
            proof {
                lemma_extend_consistent(domains@, constraints@, p, var as int, val);
            }
            // Check if assignment still possible for unassigned vars
            if has_future_support(domains, assignment, constraints) {
                proof {
                    lemma_unassigned_count_assign(p, var as int, val);
                }
                let result = backtrack(names, domains, constraints, assignment);
                if result.is_ok() {
                    proof {
                        lemma_least_step(
                            domains@,
                            constraints@,
                            p,
                            var as int,
                            ordered_values@,
                            t as int,
                            unwrap_all(assignment@),
                        );
                    }
                    return result;
                }
            } else {
                proof {
                    lemma_no_future_no_solution(domains@, constraints@, q);
                }
            }
        } else {
            proof {
                lemma_inconsistent_no_solution(domains@, constraints@, q, var as int);
            }
        }
        // Remove assignment
        assignment.set(var, None);
        proof {
            assert(assignment@ =~= p);
        }
        t += 1;
    }
    proof {
        assert forall|b: Seq<TernaryWeight>|
            !(#[trigger] solves(domains@, constraints@, b) && extends(p, b)) by {
            if solves(domains@, constraints@, b) && extends(p, b) {
                assert(in_dom(domains@[var as int], b[var as int]));
                assert(dom_seq(domain).contains(b[var as int]));
                let s = choose|s: int| 0 <= s < ordered_values@.len() && ordered_values@[s] == b[var as int];
                assert(extends(p.update(var as int, Some(ordered_values@[s])), b));
            }
        }
    }
    Err(message_about("No valid assignment found for variable '", &names[var], "'"))
}

/// A complete, consistent assignment within the domains is the only, hence
/// least, solution that extends itself.
proof fn lemma_complete_least(
    d: Seq<Domain>,
    bins: Seq<BinaryConstraint>,
    p: Seq<Option<TernaryWeight>>,
)
    requires
        complete(p),
        partial_in_domains(d, p),
        partial_consistent(bins, p),
        bins_wf(bins, d.len()),
    ensures
        least_extension(d, bins, p, unwrap_all(p)),
{
    let vals = unwrap_all(p);
    assert forall|i: int| 0 <= i < d.len() implies in_dom(d[i], #[trigger] vals[i]) by {
        assert(p[i] is Some);
    }
    assert forall|t: int| 0 <= t < bins.len() implies bin_holds(#[trigger] bins[t], vals) by {
        assert(partial_holds(bins[t], p));
        assert(p[ends(bins[t]).0 as int] is Some);
        assert(p[ends(bins[t]).1 as int] is Some);
    }
    assert forall|b: Seq<TernaryWeight>|
        #[trigger] solves(d, bins, b) && extends(p, b) implies b == vals by {
        assert forall|i: int| 0 <= i < b.len() implies b[i] == vals[i] by {
            assert(p[i] is Some);
        }
        assert(b =~= vals);
    }
}

/// Giving `var` (the first unassigned variable in MRV order) a value that
/// passes the forward check keeps the partial assignment well formed.
proof fn lemma_extend_consistent(
    d: Seq<Domain>,
    bins: Seq<BinaryConstraint>,
    p: Seq<Option<TernaryWeight>>,
    var: int,
    val: TernaryWeight,
)
    requires
        0 <= var < p.len(),
        p[var] is None,
        in_dom(d[var], val),
        partial_in_domains(d, p),
        assigned_closed(d, p),
        partial_consistent(bins, p),
        bins_wf(bins, d.len()),
        forall|m: int| 0 <= m < p.len() && #[trigger] p[m] is None ==> !before(d, m, var),
        forall|t: int|
            0 <= t < bins.len() && involves(#[trigger] bins[t], var) ==> partial_holds(
                bins[t],
                p.update(var, Some(val)),
            ),
    ensures
        partial_in_domains(d, p.update(var, Some(val))),
        assigned_closed(d, p.update(var, Some(val))),
        partial_consistent(bins, p.update(var, Some(val))),
{
    let q = p.update(var, Some(val));
    assert forall|i: int, j: int|
        0 <= i < q.len() && 0 <= j < q.len() && #[trigger] q[j] is Some && #[trigger] before(d, i, j)
            implies q[i] is Some by {
        if j == var {
            if p[i] is None && i != var {
                assert(!before(d, i, var));
            }
        } else {
            assert(p[j] is Some);
            if i != var {
                assert(p[i] is Some);
            }
        }
    }
    assert forall|t: int| 0 <= t < bins.len() implies partial_holds(#[trigger] bins[t], q) by {
        if !involves(bins[t], var) {
            assert(partial_holds(bins[t], p));
        }
    }
}

/// When the forward check fails no solution extends the partial assignment.
proof fn lemma_inconsistent_no_solution(
    d: Seq<Domain>,
    bins: Seq<BinaryConstraint>,
    q: Seq<Option<TernaryWeight>>,
    var: int,
)
    requires
        bins_wf(bins, d.len()),
        q.len() == d.len(),
        !(forall|t: int|
            0 <= t < bins.len() && involves(#[trigger] bins[t], var) ==> partial_holds(bins[t], q)),
    ensures
        forall|b: Seq<TernaryWeight>| !(#[trigger] solves(d, bins, b) && extends(q, b)),
{
    let t = choose|t: int|
        0 <= t < bins.len() && involves(#[trigger] bins[t], var) && !partial_holds(bins[t], q);
    assert forall|b: Seq<TernaryWeight>| !(#[trigger] solves(d, bins, b) && extends(q, b)) by {
        if solves(d, bins, b) && extends(q, b) {
            assert(bin_holds(bins[t], b));
            assert(q[ends(bins[t]).0 as int] is Some);
            assert(q[ends(bins[t]).1 as int] is Some);
        }
    }
}

/// The least solution extending `p` with `var := vals[t]` is the least
/// solution extending `p`, when the earlier values of `var` admit none.
proof fn lemma_least_step(
    d: Seq<Domain>,
    bins: Seq<BinaryConstraint>,
    p: Seq<Option<TernaryWeight>>,
    var: int,
    vals: Seq<TernaryWeight>,
    t: int,
    s: Seq<TernaryWeight>,
)
    requires
        0 <= var < p.len(),
        p.len() == d.len(),
        p[var] is None,
        vals == dom_seq(d[var]),
        0 <= t < vals.len(),
        assigned_closed(d, p.update(var, Some(vals[t]))),
        least_extension(d, bins, p.update(var, Some(vals[t])), s),
        forall|r: int, b: Seq<TernaryWeight>|
            0 <= r < t ==> !(#[trigger] solves(d, bins, b) && extends(
                p.update(var, Some(#[trigger] vals[r])),
                b,
            )),
    ensures
        least_extension(d, bins, p, s),
{
    let q = p.update(var, Some(vals[t]));
    lemma_dom_seq(d[var]);
    assert(extends(p, s)) by {
        assert forall|i: int| 0 <= i < p.len() && #[trigger] p[i] is Some implies p[i]->0 == s[i] by {
            assert(q[i] == p[i]);
        }
    }
    assert forall|b: Seq<TernaryWeight>|
        #[trigger] solves(d, bins, b) && extends(p, b) && b != s implies lex_less(d, s, b) by {
        assert(in_dom(d[var], b[var]));
        assert(dom_seq(d[var]).contains(b[var]));
        let r = choose|r: int| 0 <= r < vals.len() && vals[r] == b[var];
        assert(s[var] == vals[t]) by {
            assert(q[var] is Some);
        }
        if r < t {
            assert(extends(p.update(var, Some(vals[r])), b));
        } else if r == t {
            assert(extends(q, b));
        } else {
            assert(rank(s[var]) < rank(b[var]));
            assert forall|m: int| 0 <= m < s.len() && before(d, m, var) implies s[m] == b[m] by {
                assert(q[var] is Some);
                assert(q[m] is Some);
                assert(m != var);
                assert(p[m] == q[m]);
            }
        }
    }
}

// ---------------------------------------------------------------------------
// The problem that a list of constraints poses
// ---------------------------------------------------------------------------
/// The ternary values a `range(start, end)` check admits.
pub open spec fn range_mask(s: Number, e: Number) -> Domain {
    if s.is_zero() && e.is_zero() {
        ZERO_BIT
    } else if e.is_neg() {
        NEG_BIT
    } else if s.is_pos() {
        POS_BIT
    } else {
        ((if s.is_neg() || e.is_neg() {
            1u8
        } else {
            0u8
        }) + (if (s.is_neg() || s.is_zero()) && (e.is_pos() || e.is_zero()) {
            2u8
        } else {
            0u8
        }) + (if e.is_pos() || s.is_pos() {
            4u8
        } else {
            0u8
        })) as u8
    }
}

/// The ternary values a check admits for its own variable (binary checks and
/// whitelists admit every value).
pub open spec fn unary_mask(c: CheckView) -> Domain {
    match c {
        CheckView::Range { start, end } => range_mask(start, end),
        CheckView::Bitmask(m) => if m == 0 {
            ZERO_BIT
        } else if m % 2 == 0 {
            6
        } else {
            ALL_DOMAIN
        },
        CheckView::Thermal(b) => if b.is_neg() || b.is_zero() {
            ZERO_BIT
        } else if b.below_one() {
            3
        } else {
            ALL_DOMAIN
        },
        CheckView::Sparsity(c) => if c == 0 {
            ZERO_BIT
        } else {
            ALL_DOMAIN
        },
        _ => ALL_DOMAIN,
    }
}

/// Index of the first constraint named `n`, or -1.
pub open spec fn name_index(cs: Seq<ConstraintView>, n: Seq<char>) -> int
    decreases cs.len(),
{
    if cs.len() == 0 {
        -1
    } else {
        let r = name_index(cs.drop_last(), n);
        if r >= 0 {
            r
        } else if cs.last().name == n {
            cs.len() - 1
        } else {
            -1
        }
    }
}

/// Where `name_index` points: the first constraint of that name.
pub proof fn lemma_name_index(cs: Seq<ConstraintView>, n: Seq<char>)
    ensures
        -1 <= name_index(cs, n) < cs.len(),
        name_index(cs, n) >= 0 ==> cs[name_index(cs, n)].name == n,
        name_index(cs, n) >= 0 ==> forall|j: int| 0 <= j < name_index(cs, n) ==> cs[j].name != n,
        name_index(cs, n) < 0 ==> forall|j: int| 0 <= j < cs.len() ==> cs[j].name != n,
    decreases cs.len(),
{
    if cs.len() > 0 {
        let t = cs.drop_last();
        lemma_name_index(t, n);
        assert(forall|j: int| 0 <= j < t.len() ==> t[j] == cs[j]);
    }
}

/// The variable a binary check refers to.
pub open spec fn target_of(c: CheckView) -> Option<Seq<char>> {
    match c {
        CheckView::Equal(t) => Some(t),
        CheckView::NotEqual(t) => Some(t),
        CheckView::Imply { target } => Some(target),
        _ => None,
    }
}

/// Every variable that a binary check refers to is the name of a constraint.
pub open spec fn targets_declared(cs: Seq<ConstraintView>) -> bool {
    forall|k: int, j: int|
        0 <= k < cs.len() && 0 <= j < cs[k].checks.len() && (#[trigger] target_of(cs[k].checks[j])) is Some
            ==> name_index(cs, target_of(cs[k].checks[j])->0) >= 0
}

/// No two constraints share a name.
pub open spec fn names_distinct(cs: Seq<ConstraintView>) -> bool {
    forall|i: int, j: int| 0 <= i < j < cs.len() ==> cs[i].name != cs[j].name
}

/// Check `c` of constraint `k` holds when the variable of each constraint
/// (named by the constraint) has the value at its position in `vals`.
pub open spec fn check_holds(
    cs: Seq<ConstraintView>,
    vals: Seq<TernaryWeight>,
    k: int,
    c: CheckView,
) -> bool {
    match c {
        CheckView::Equal(t) => vals[k] == vals[name_index(cs, t)],
        CheckView::NotEqual(t) => vals[k] != vals[name_index(cs, t)],
        CheckView::Imply { target } => imply_ok(vals[k], vals[name_index(cs, target)]),
        _ => in_dom(unary_mask(c), vals[k]),
    }
}

/// `vals` gives each constraint's variable a value that satisfies every check.
pub open spec fn is_solution(cs: Seq<ConstraintView>, vals: Seq<TernaryWeight>) -> bool {
    &&& vals.len() == cs.len()
    &&& forall|k: int, j: int|
        0 <= k < cs.len() && 0 <= j < cs[k].checks.len() ==> #[trigger] check_holds(
            cs,
            vals,
            k,
            cs[k].checks[j],
        )
}

/// Domains that hold every value of every solution, and only values that the
/// unary checks admit.
pub open spec fn sound_domains(cs: Seq<ConstraintView>, d: Seq<Domain>) -> bool {
    &&& d.len() == cs.len()
    &&& doms_wf(d)
    &&& forall|k: int, j: int, w: TernaryWeight|
        0 <= k < cs.len() && 0 <= j < cs[k].checks.len() && #[trigger] in_dom(d[k], w) ==> in_dom(
            unary_mask(#[trigger] cs[k].checks[j]),
            w,
        )
    &&& forall|vals: Seq<TernaryWeight>| #[trigger] is_solution(cs, vals) ==> in_domains(d, vals)
}

/// `vals` is the solution that comes first in the MRV order of `d`, values
/// tried in the order Neg, Zero, Pos.
pub open spec fn least_solution(cs: Seq<ConstraintView>, d: Seq<Domain>, vals: Seq<TernaryWeight>) -> bool {
    &&& is_solution(cs, vals)
    &&& forall|b: Seq<TernaryWeight>| #[trigger] is_solution(cs, b) && b != vals ==> lex_less(d, vals, b)
}

/// The entries of the assignment that gives constraint `k`'s variable `vals[k]`.
pub open spec fn solution_entries(cs: Seq<ConstraintView>, vals: Seq<TernaryWeight>) -> Seq<(Seq<char>, TernaryWeight)> {
    Seq::new(cs.len(), |k: int| (cs[k].name, vals[k]))
}

/// The binary constraint that check `c` of constraint `k` stands for.
pub open spec fn bin_of(cs: Seq<ConstraintView>, k: int, c: CheckView) -> BinaryConstraint {
    let a = name_index(cs, cs[k].name) as usize;
    let b = name_index(cs, target_of(c)->0) as usize;
    match c {
        CheckView::Equal(_) => BinaryConstraint::Equal(a, b),
        CheckView::NotEqual(_) => BinaryConstraint::NotEqual(a, b),
        _ => BinaryConstraint::Imply { from: a, to: b },
    }
}

/// The ternary values a `range(start, end)` check admits.
fn range_allowed(start: &Number, end: &Number) -> (res: Domain)
    ensures
        res == range_mask(*start, *end),
{
    // Map range to ternary: a range containing 0 allows Zero,
    // containing positive allows Pos, containing negative allows Neg
    let mut allowed: Domain = 0;
    if start.lt_zero() || end.lt_zero() {
        allowed = dom_add(allowed, TernaryWeight::Neg);  // range includes negative numbers
    }
    if (start.lt_zero() || start.eq_zero()) && (end.gt_zero() || end.eq_zero()) {
        allowed = dom_add(allowed, TernaryWeight::Zero);  // range includes zero
    }
    if end.gt_zero() || start.gt_zero() {
        allowed = dom_add(allowed, TernaryWeight::Pos);  // range includes positive numbers
    }
    // If range is entirely positive (start > 0), only Pos
    if start.gt_zero() {
        allowed = POS_BIT;
    }
    // If range is entirely negative (end < 0), only Neg
    if end.lt_zero() {
        allowed = NEG_BIT;
    }
    // If range is exactly [0, 0], only Zero
    if start.eq_zero() && end.eq_zero() {
        allowed = ZERO_BIT;
    }
    proof {
        assert(valid_dom(allowed));
        assert(valid_dom(range_mask(*start, *end)));
        assert forall|w: TernaryWeight| in_dom(allowed, w) == in_dom(range_mask(*start, *end), w) by {}
        lemma_dom_ext(allowed, range_mask(*start, *end));
    }
    allowed
}

/// The ternary values a check admits for its own variable.
fn check_mask(check: &Check) -> (res: Domain)
    ensures
        res == unary_mask(check@),
{
    match check {
        Check::Range { start, end } => {
            assert(check@ == CheckView::Range { start: *start, end: *end });
            assert(unary_mask(check@) == range_mask(*start, *end));
            let r = range_allowed(start, end);
            r
        },
        Check::Bitmask(mask) => {
            // Bitmask check: certain bits must be set.
            // - If mask is 0 → only Zero
            // - Even number mask — zero is likely valid
            // - For general bitmasks, keep the domain as-is
            if *mask == 0 {
                ZERO_BIT
            } else if *mask & 1 == 0 {
                proof {
                    let m = *mask;
                    assert((m & 1 == 0) == (m % 2 == 0)) by (bit_vector);
                    assert(2u8 | 4u8 == 6u8) by (bit_vector);
                }
                ZERO_BIT | POS_BIT
            } else {
                proof {
                    let m = *mask;
                    assert((m & 1 == 0) == (m % 2 == 0)) by (bit_vector);
                }
                ALL_DOMAIN
            }
        },
        Check::Thermal(budget) => {
            // Thermal budget: keep only values that don't exceed budget.
            if budget.lt_zero() || budget.eq_zero() {
                ZERO_BIT  // zero budget → must be zero

            } else if budget.lt_one() {
                assert(1u8 | 2u8 == 3u8) by (bit_vector);
                NEG_BIT | ZERO_BIT  // small budget → no positive

            } else {
                ALL_DOMAIN  // Large budget: all values allowed

            }
        },
        Check::Sparsity(count) => {
            // Sparsity: zero sparsity → must be zero
            if *count == 0 {
                ZERO_BIT
            } else {
                ALL_DOMAIN
            }
        },
        _ => ALL_DOMAIN,
    }
}

/// Index of the first name equal to `target`.
fn find_name(names: &Vec<String>, target: &String, Ghost(cs): Ghost<Seq<ConstraintView>>) -> (res: Option<usize>)
    requires
        names@.len() == cs.len(),
        forall|k: int| 0 <= k < cs.len() ==> (#[trigger] names@[k])@ == cs[k].name,
    ensures
        match res {
            Some(i) => i as int == name_index(cs, target@),
            None => name_index(cs, target@) < 0,
        },
{
    let mut i: usize = 0;
    while i < names.len()
        invariant
            i <= names@.len(),
            names@.len() == cs.len(),
            forall|k: int| 0 <= k < cs.len() ==> (#[trigger] names@[k])@ == cs[k].name,
            forall|j: int| 0 <= j < i ==> cs[j].name != target@,
        decreases names@.len() - i,
    {
        if names[i] == *target {
            proof {
                lemma_name_index(cs, target@);
            }
            return Some(i);
        }
        i += 1;
    }
    proof {
        lemma_name_index(cs, target@);
    }
    None
}

#[verifier::loop_isolation(false)]
/// Solve a set of constraints and produce a complete assignment.
///
/// Each constraint's name becomes a CSP variable, and the checks constrain
/// which ternary weight {-1, 0, +1} that variable can take.
pub fn solve(constraints: &[Constraint]) -> (res: Result<Assignment, String>)
    requires
        targets_declared(constraints_view(constraints@)),
    ensures
        constraints@.len() == 0 ==> (res matches Ok(a) && a.values@.len() == 0),
        constraints@.len() > 0 && !names_distinct(constraints_view(constraints@)) ==> res is Err,
        constraints@.len() > 0 && names_distinct(constraints_view(constraints@)) ==> (res is Ok
            <==> exists|vals: Seq<TernaryWeight>| #[trigger] is_solution(constraints_view(constraints@), vals)),
        constraints@.len() > 0 ==> (res matches Ok(a) ==> exists|d: Seq<Domain>, vals: Seq<TernaryWeight>|
            sound_domains(constraints_view(constraints@), d) && #[trigger] least_solution(
                constraints_view(constraints@),
                d,
                vals,
            ) && a.values@ == solution_entries(constraints_view(constraints@), vals)),
{
    let ghost cs = constraints_view(constraints@);
    let n = constraints.len();
    if n == 0 {
        return Ok(Assignment::new());
    }
    // Collect all variable names from constraint names
    let mut names: Vec<String> = Vec::new();
    let mut k: usize = 0;
    while k < n
        invariant
            k <= n,
            n == constraints@.len(),
            cs == constraints_view(constraints@),
            names@.len() == k,
            forall|i: int| 0 <= i < k ==> (#[trigger] names@[i])@ == cs[i].name,
        decreases n - k,
    {
        names.push(constraints[k].name.clone());
        k += 1;
    }
    // Each name's variable is the first constraint of that name
    let mut ids: Vec<usize> = Vec::new();
    let mut distinct = true;
    k = 0;
    while k < n
        invariant
            k <= n,
            n == constraints@.len(),
            cs == constraints_view(constraints@),
            names@.len() == n,
            forall|i: int| 0 <= i < n ==> (#[trigger] names@[i])@ == cs[i].name,
            ids@.len() == k,
            forall|i: int| 0 <= i < k ==> (#[trigger] ids@[i]) as int == name_index(cs, cs[i].name),
            distinct == forall|i: int| 0 <= i < k ==> (#[trigger] ids@[i]) as int == i,
        decreases n - k,
    {
        let id = match find_name(&names, &names[k], Ghost(cs)) {
            Some(i) => i,
            None => {
                proof {
                    lemma_name_index(cs, cs[k as int].name);
                }
                0
            },
        };
        let ghost was_distinct = distinct;
        let ghost old_ids = ids@;
        if id != k {
            distinct = false;
        }
        ids.push(id);
        proof {
            assert(ids@[k as int] == id);
            assert(forall|i: int| 0 <= i < k ==> ids@[i] == old_ids[i]);
            lemma_name_index(cs, cs[k as int].name);
            assert(distinct == forall|i: int| 0 <= i < k + 1 ==> (#[trigger] ids@[i]) as int == i) by {
                if !distinct {
                    if id != k {
                        assert(ids@[k as int] as int != k);
                    } else {
                        assert(!was_distinct);
                        let i = choose|i: int| 0 <= i < k && !((#[trigger] old_ids[i]) as int == i);
                        assert(ids@[i] == old_ids[i]);
                    }
                }
            }
        }
        k += 1;
    }
    proof {
        lemma_distinct_ids(cs, distinct, ids@);
    }
    // Build initial domains from unary constraints (Range, Bitmask, Thermal, Sparsity)
    let mut domains: Vec<Domain> = Vec::new();
    k = 0;
    while k < n
        invariant
            k <= n,
            domains@.len() == k,
            forall|i: int| 0 <= i < k ==> #[trigger] domains@[i] == ALL_DOMAIN,
        decreases n - k,
    {
        domains.push(ALL_DOMAIN);
        k += 1;
    }
    // Collect binary constraints (Equal, NotEqual, Imply)
    let mut binary_constraints: Vec<BinaryConstraint> = Vec::new();
    let ghost mut origin: Seq<(int, int)> = seq![];
    k = 0;
    while k < n
        invariant
            k <= n,
            n == constraints@.len(),
            cs == constraints_view(constraints@),
            targets_declared(cs),
            names@.len() == n,
            forall|i: int| 0 <= i < n ==> (#[trigger] names@[i])@ == cs[i].name,
            ids@.len() == n,
            forall|i: int| 0 <= i < n ==> (#[trigger] ids@[i]) as int == name_index(cs, cs[i].name),
            domains@.len() == n,
            doms_wf(domains@),
            forall|i: int, w: TernaryWeight|
                0 <= i < n ==> (#[trigger] in_dom(domains@[i], w) <==> forall|k2: int, j2: int|
                    0 <= k2 < k && 0 <= j2 < cs[k2].checks.len() && ids@[k2] == i ==> in_dom(
                        #[trigger] unary_mask(cs[k2].checks[j2]),
                        w,
                    )),
            bins_wf(binary_constraints@, n as nat),
            origin.len() == binary_constraints@.len(),
            forall|t: int|
                0 <= t < origin.len() ==> 0 <= (#[trigger] origin[t]).0 < k && 0 <= origin[t].1 < cs[origin[t].0].checks.len()
                    && target_of(cs[origin[t].0].checks[origin[t].1]) is Some
                    && binary_constraints@[t] == bin_of(cs, origin[t].0, cs[origin[t].0].checks[origin[t].1]),
            forall|k2: int, j2: int|
                0 <= k2 < k && 0 <= j2 < cs[k2].checks.len() && (#[trigger] target_of(cs[k2].checks[j2])) is Some
                    ==> origin.contains((k2, j2)),
        decreases n - k,
    {
        let c = &constraints[k];
        let id = ids[k];
        proof {
            lemma_name_index(cs, cs[k as int].name);
        }
        let ghost dk = domains@;
        let ghost ok = origin;
        let mut j: usize = 0;
        while j < c.checks.len()
            invariant
                k < n,
                n == constraints@.len(),
                cs == constraints_view(constraints@),
                c == constraints@[k as int],
                cs[k as int] == c@,
                targets_declared(cs),
                id < n,
                id as int == name_index(cs, cs[k as int].name),
                j <= c.checks@.len(),
                names@.len() == n,
                forall|i: int| 0 <= i < n ==> (#[trigger] names@[i])@ == cs[i].name,
                ids@.len() == n,
                ids@[k as int] == id,
                domains@.len() == n,
                doms_wf(domains@),
                forall|i: int| 0 <= i < n && i != id ==> #[trigger] domains@[i] == dk[i],
                forall|w: TernaryWeight| #[trigger] in_dom(domains@[id as int], w) <==> (in_dom(dk[id as int], w) && forall|j2: int|
                    0 <= j2 < j ==> in_dom(#[trigger] unary_mask(cs[k as int].checks[j2]), w)),
                bins_wf(binary_constraints@, n as nat),
                origin.len() == binary_constraints@.len(),
                ok.len() <= origin.len(),
                forall|t: int| 0 <= t < ok.len() ==> #[trigger] origin[t] == ok[t],
                forall|t: int|
                    0 <= t < origin.len() ==> 0 <= (#[trigger] origin[t]).0 <= k && 0 <= origin[t].1 < cs[origin[t].0].checks.len()
                        && (origin[t].0 == k ==> origin[t].1 < j)
                        && target_of(cs[origin[t].0].checks[origin[t].1]) is Some
                        && binary_constraints@[t] == bin_of(cs, origin[t].0, cs[origin[t].0].checks[origin[t].1]),
                forall|j2: int|
                    0 <= j2 < j && (#[trigger] target_of(cs[k as int].checks[j2])) is Some
                        ==> origin.contains((k as int, j2)),
            decreases c.checks@.len() - j,
        {
            let check = &c.checks[j];
            assert(cs[k as int].checks[j as int] == check@);
            let ghost prev = origin;
            let mask = check_mask(check);
            let ghost before = domains@[id as int];
            let nd = dom_and(domains[id], mask);
            domains.set(id, nd);
            let target: Option<&String> = match check {
                Check::Equal(t) => Some(t),
                Check::NotEqual(t) => Some(t),
                Check::Imply { target } => Some(target),
                _ => None,
            };
            match target {
                Some(t) => {
                    assert(target_of(check@) == Some(t@));
                    let tid = match find_name(&names, t, Ghost(cs)) {
                        Some(i) => i,
                        None => {
                            assert(name_index(cs, target_of(cs[k as int].checks[j as int])->0) >= 0);
                            0
                        },
                    };
                    proof {
                        lemma_name_index(cs, t@);
                    }
                    let bc = match check {
                        Check::Equal(_) => BinaryConstraint::Equal(id, tid),
                        Check::NotEqual(_) => BinaryConstraint::NotEqual(id, tid),
                        _ => BinaryConstraint::Imply { from: id, to: tid },
                    };
                    binary_constraints.push(bc);
                    proof {
                        origin = origin.push((k as int, j as int));
                        assert(origin.last() == (k as int, j as int));
                    }
                },
                None => {},
            }
            proof {
                assert forall|j2: int|
                    0 <= j2 < j + 1 && (#[trigger] target_of(cs[k as int].checks[j2])) is Some
                        implies origin.contains((k as int, j2)) by {
                    if j2 < j {
                        assert(prev.contains((k as int, j2)));
                        let t = choose|t: int| 0 <= t < prev.len() && prev[t] == (k as int, j2);
                        assert(origin[t] == (k as int, j2));
                    } else {
                        assert(origin[origin.len() - 1] == (k as int, j2));
                    }
                }
            }
            j += 1;
        }
        proof {
            assert forall|i: int, w: TernaryWeight|
                0 <= i < n implies (#[trigger] in_dom(domains@[i], w) <==> forall|k2: int, j2: int|
                    0 <= k2 < k + 1 && 0 <= j2 < cs[k2].checks.len() && ids@[k2] == i ==> in_dom(
                        #[trigger] unary_mask(cs[k2].checks[j2]),
                        w,
                    )) by {
                if i == id {
                    if in_dom(domains@[i], w) {
                        assert forall|k2: int, j2: int|
                            0 <= k2 < k + 1 && 0 <= j2 < cs[k2].checks.len() && ids@[k2] == i implies in_dom(
                                #[trigger] unary_mask(cs[k2].checks[j2]),
                                w,
                            ) by {
                            if k2 == k {
                                assert(in_dom(unary_mask(cs[k as int].checks[j2]), w));
                            }
                        }
                    }
                    if forall|k2: int, j2: int|
                        0 <= k2 < k + 1 && 0 <= j2 < cs[k2].checks.len() && ids@[k2] == i ==> in_dom(
                            #[trigger] unary_mask(cs[k2].checks[j2]),
                            w,
                        ) {
                        assert forall|j2: int|
                            0 <= j2 < c.checks@.len() implies in_dom(#[trigger] unary_mask(cs[k as int].checks[j2]), w) by {
                            assert(ids@[k as int] == i);
                        }
                    }
                }
            }
            assert forall|k2: int, j2: int|
                0 <= k2 < k + 1 && 0 <= j2 < cs[k2].checks.len() && (#[trigger] target_of(cs[k2].checks[j2])) is Some
                    implies origin.contains((k2, j2)) by {
                if k2 < k {
                    let t = choose|t: int| 0 <= t < ok.len() && ok[t] == (k2, j2);
                    assert(origin[t] == (k2, j2));
                }
            }
        }
        k += 1;
    }
    let ghost bins = binary_constraints@;
    let ghost d0 = domains@;
    // Build adjacency list for AC-3: for each variable, list of (other_var, constraint_idx)
    let mut adjacency: Vec<Vec<(usize, usize)>> = Vec::new();
    k = 0;
    while k < n
        invariant
            k <= n,
            adjacency@.len() == k,
            forall|v: int, e: int|
                0 <= v < k && 0 <= e < adjacency@[v]@.len() ==> (#[trigger] adjacency@[v]@[e]).0 < n,
        decreases n - k,
    {
        adjacency.push(Vec::new());
        k += 1;
    }
    let mut idx: usize = 0;
    while idx < binary_constraints.len()
        invariant
            idx <= binary_constraints@.len(),
            bins_wf(binary_constraints@, n as nat),
            adj_wf(adjacency@, n as nat),
            forall|t: int|
                0 <= t < idx ==> adj_has(
                    adjacency@,
                    ends(#[trigger] binary_constraints@[t]).0 as int,
                    ends(binary_constraints@[t]).1 as int,
                ) && adj_has(
                    adjacency@,
                    ends(binary_constraints@[t]).1 as int,
                    ends(binary_constraints@[t]).0 as int,
                ),
        decreases binary_constraints@.len() - idx,
    {
        let ghost adj0 = adjacency@;
        let (a, b) = match binary_constraints[idx] {
            BinaryConstraint::Equal(a, b) => (a, b),
            BinaryConstraint::NotEqual(a, b) => (a, b),
            // Imply isn't symmetric, but we include the reverse so variable changes
            // propagate back through the constraint
            BinaryConstraint::Imply { from, to } => (from, to),
        };
        assert(ends(binary_constraints@[idx as int]) == (a, b));
        adjacency[a].push((b, idx));
        let ghost adj1 = adjacency@;
        adjacency[b].push((a, idx));
        proof {
            assert(adj_has(adjacency@, a as int, b as int)) by {
                if a == b {
                    assert(adjacency@[a as int]@[adj1[a as int]@.len() - 1] == adj1[a as int]@[adj1[a as int]@.len() - 1]);
                } else {
                    assert(adjacency@[a as int] == adj1[a as int]);
                }
                assert(adj1[a as int]@[adj0[a as int]@.len() as int] == (b, idx));
            }
            assert(adjacency@[b as int]@[adj1[b as int]@.len() as int] == (a, idx));
            assert(adj_has(adjacency@, b as int, a as int));
            assert forall|x: int, y: int| 0 <= x < n && adj_has(adj0, x, y) implies adj_has(adjacency@, x, y) by {
                let e = choose|e: int| 0 <= e < adj0[x]@.len() && (#[trigger] adj0[x]@[e]).0 == y;
                assert(adj1[x]@[e] == adj0[x]@[e]);
                assert(adjacency@[x]@[e] == adj1[x]@[e]);
            }
            assert forall|t: int| 0 <= t < idx + 1 implies adj_has(
                adjacency@,
                ends(#[trigger] binary_constraints@[t]).0 as int,
                ends(binary_constraints@[t]).1 as int,
            ) && adj_has(
                adjacency@,
                ends(binary_constraints@[t]).1 as int,
                ends(binary_constraints@[t]).0 as int,
            ) by {
                if t < idx {
                    assert(ends(binary_constraints@[t]).0 < n && ends(binary_constraints@[t]).1 < n);
                }
            }
        }
        idx += 1;
    }
    assert(adj_complete(adjacency@, binary_constraints@));
    // AC-3: propagate domain restrictions along binary constraints
    match ac3_propagate(&mut domains, &binary_constraints, &adjacency, &names) {
        Ok(()) => {},
        Err(e) => {
            proof {
                lemma_solutions_link(cs, ids@, d0, bins, origin, distinct);
            }
            return Err(e);
        },
    }
    let ghost d1 = domains@;
    // Check if any domain is empty
    k = 0;
    while k < n
        invariant
            k <= n,
            domains@ == d1,
            d1.len() == n,
            forall|i: int| 0 <= i < k ==> #[trigger] d1[i] != 0,
        decreases n - k,
    {
        if domains[k] == 0 {
            proof {
                assert forall|vals: Seq<TernaryWeight>| !(#[trigger] solves(d0, bins, vals)) by {
                    if solves(d0, bins, vals) {
                        assert(in_domains(d1, vals));
                        assert(in_dom(d1[k as int], vals[k as int]));
                        lemma_dom_empty(d1[k as int]);
                    }
                }
                lemma_solutions_link(cs, ids@, d0, bins, origin, distinct);
            }
            return Err(message_about("No valid values for variable '", &names[k], "' — domain is empty"));
        }
        k += 1;
    }
    if !distinct {
        // A name shared by several constraints is one variable; the search,
        // which counts one variable per constraint, can never complete.
        let mut unassigned: Vec<Option<TernaryWeight>> = Vec::new();
        k = 0;
        while k < n
            invariant
                k <= n,
                unassigned@.len() == k,
                forall|i: int| 0 <= i < k ==> #[trigger] unassigned@[i] is None,
            decreases n - k,
        {
            unassigned.push(None);
            k += 1;
        }
        let first = match select_unassigned(&domains, &unassigned) {
            Some(v) => v,
            None => {
                assert(unassigned@[0] is None);
                0
            },
        };
        return Err(message_about("No valid assignment found for variable '", &names[first], "'"));
    }
    // Backtracking search
    let vals = match backtrack_search(&names, &domains, &binary_constraints) {
        Ok(v) => v,
        Err(e) => {
            proof {
                assert forall|vals: Seq<TernaryWeight>| !(#[trigger] solves(d0, bins, vals)) by {
                    if solves(d0, bins, vals) {
                        assert(in_domains(d1, vals));
                        assert(solves(d1, bins, vals));
                    }
                }
                lemma_solutions_link(cs, ids@, d0, bins, origin, distinct);
            }
            return Err(e);
        },
    };
    proof {
        lemma_solutions_link(cs, ids@, d0, bins, origin, distinct);
        lemma_least_link(cs, d0, d1, bins, vals@);
    }
    let mut assignment = Assignment::new();
    k = 0;
    while k < n
        invariant
            k <= n,
            n == cs.len(),
            names@.len() == n,
            vals@.len() == n,
            forall|i: int| 0 <= i < n ==> (#[trigger] names@[i])@ == cs[i].name,
            names_distinct(cs),
            assignment.values@ == solution_entries(cs.take(k as int), vals@.take(k as int)),
        decreases n - k,
    {
        let ghost before = assignment.values@;
        proof {
            lemma_key_index(before, cs[k as int].name);
            assert forall|j: int| 0 <= j < before.len() implies before[j].0 != cs[k as int].name by {
                assert(before[j].0 == cs[j].name);
            }
        }
        assignment.values.insert(names[k].clone(), vals[k]);
        proof {
            assert(assignment.values@ =~= solution_entries(cs.take(k + 1), vals@.take(k + 1)));
        }
        k += 1;
    }
    proof {
        assert(cs.take(n as int) =~= cs);
        assert(vals@.take(n as int) =~= vals@);
    }
    Ok(assignment)
}

/// Backtracking search from the empty assignment.
fn backtrack_search(
    var_names: &Vec<String>,
    domains: &Vec<Domain>,
    constraints: &Vec<BinaryConstraint>,
) -> (res: Result<Vec<TernaryWeight>, String>)
    requires
        var_names@.len() == domains@.len(),
        doms_wf(domains@),
        forall|i: int| 0 <= i < domains@.len() ==> #[trigger] domains@[i] != 0,
        bins_wf(constraints@, domains@.len()),
    ensures
        res matches Ok(vals) ==> vals@.len() == domains@.len() && solves(domains@, constraints@, vals@)
            && forall|b: Seq<TernaryWeight>|
            #[trigger] solves(domains@, constraints@, b) && b != vals@ ==> lex_less(domains@, vals@, b),
        res is Err ==> forall|b: Seq<TernaryWeight>| !(#[trigger] solves(domains@, constraints@, b)),
{
    let n = domains.len();
    let mut assignment: Vec<Option<TernaryWeight>> = Vec::new();
    let mut k: usize = 0;
    while k < n
        invariant
            k <= n,
            assignment@.len() == k,
            forall|i: int| 0 <= i < k ==> #[trigger] assignment@[i] is None,
        decreases n - k,
    {
        assignment.push(None);
        k += 1;
    }
    let ghost p0 = assignment@;
    proof {
        assert forall|b: Seq<TernaryWeight>| b.len() == n implies #[trigger] extends(p0, b) by {}
    }
    match backtrack(var_names, domains, constraints, &mut assignment) {
        Ok(()) => {
            let mut vals: Vec<TernaryWeight> = Vec::new();
            k = 0;
            while k < n
                invariant
                    k <= n,
                    assignment@.len() == n,
                    complete(assignment@),
                    vals@ == unwrap_all(assignment@).take(k as int),
                decreases n - k,
            {
                let v = match assignment[k] {
                    Some(v) => v,
                    None => TernaryWeight::Zero,
                };
                vals.push(v);
                proof {
                    assert(vals@ =~= unwrap_all(assignment@).take(k + 1));
                }
                k += 1;
            }
            proof {
                assert(unwrap_all(assignment@).take(n as int) =~= unwrap_all(assignment@));
                assert forall|b: Seq<TernaryWeight>|
                    #[trigger] solves(domains@, constraints@, b) && b != vals@ implies lex_less(
                    domains@,
                    vals@,
                    b,
                ) by {
                    assert(extends(p0, b));
                }
            }
            Ok(vals)
        },
        Err(e) => {
            proof {
                assert forall|b: Seq<TernaryWeight>| !(#[trigger] solves(domains@, constraints@, b)) by {
                    if solves(domains@, constraints@, b) {
                        assert(extends(p0, b));
                    }
                }
            }
            Err(e)
        },
    }
}

/// With distinct names, the solutions of the constraints are exactly the
/// solutions of the unary domains and binary constraints built from them.
proof fn lemma_solutions_link(
    cs: Seq<ConstraintView>,
    ids: Seq<usize>,
    d0: Seq<Domain>,
    bins: Seq<BinaryConstraint>,
    origin: Seq<(int, int)>,
    distinct: bool,
)
    requires
        ids.len() == cs.len(),
        d0.len() == cs.len(),
        distinct == names_distinct(cs),
        forall|i: int| 0 <= i < cs.len() ==> (#[trigger] ids[i]) as int == name_index(cs, cs[i].name),
        forall|i: int, w: TernaryWeight|
            0 <= i < cs.len() ==> (#[trigger] in_dom(d0[i], w) <==> forall|k2: int, j2: int|
                0 <= k2 < cs.len() && 0 <= j2 < cs[k2].checks.len() && ids[k2] == i ==> in_dom(
                    #[trigger] unary_mask(cs[k2].checks[j2]),
                    w,
                )),
        origin.len() == bins.len(),
        forall|t: int|
            0 <= t < origin.len() ==> 0 <= (#[trigger] origin[t]).0 < cs.len() && 0 <= origin[t].1 < cs[origin[t].0].checks.len()
                && target_of(cs[origin[t].0].checks[origin[t].1]) is Some
                && bins[t] == bin_of(cs, origin[t].0, cs[origin[t].0].checks[origin[t].1]),
        forall|k2: int, j2: int|
            0 <= k2 < cs.len() && 0 <= j2 < cs[k2].checks.len() && (#[trigger] target_of(cs[k2].checks[j2])) is Some
                ==> origin.contains((k2, j2)),
        targets_declared(cs),
        cs.len() <= usize::MAX,
    ensures
        distinct ==> forall|vals: Seq<TernaryWeight>| #[trigger] is_solution(cs, vals) <==> solves(d0, bins, vals),
{
    broadcast use lemma_bin_of_ends;

    if distinct {
        assert forall|i: int| 0 <= i < cs.len() implies name_index(cs, #[trigger] cs[i].name) == i by {
            lemma_name_index(cs, cs[i].name);
        }
        assert forall|vals: Seq<TernaryWeight>| #[trigger] is_solution(cs, vals) <==> solves(d0, bins, vals) by {
            if is_solution(cs, vals) {
                assert forall|i: int| 0 <= i < d0.len() implies in_dom(d0[i], #[trigger] vals[i]) by {
                    assert forall|k2: int, j2: int|
                        0 <= k2 < cs.len() && 0 <= j2 < cs[k2].checks.len() && ids[k2] == i implies in_dom(
                            #[trigger] unary_mask(cs[k2].checks[j2]),
                            vals[i],
                        ) by {
                        assert(check_holds(cs, vals, k2, cs[k2].checks[j2]));
                        assert(k2 == i);
                    }
                }
                assert forall|t: int| 0 <= t < bins.len() implies bin_holds(#[trigger] bins[t], vals) by {
                    let (k2, j2) = origin[t];
                    assert(check_holds(cs, vals, k2, cs[k2].checks[j2]));
                    lemma_bin_of(cs, vals, k2, cs[k2].checks[j2]);
                }
            }
            if solves(d0, bins, vals) {
                assert forall|k2: int, j2: int|
                    0 <= k2 < cs.len() && 0 <= j2 < cs[k2].checks.len() implies #[trigger] check_holds(
                    cs,
                    vals,
                    k2,
                    cs[k2].checks[j2],
                ) by {
                    if target_of(cs[k2].checks[j2]) is Some {
                        assert(origin.contains((k2, j2)));
                        let t = choose|t: int| 0 <= t < origin.len() && origin[t] == (k2, j2);
                        assert(bin_holds(bins[t], vals));
                        lemma_bin_of(cs, vals, k2, cs[k2].checks[j2]);
                    } else {
                        assert(in_dom(d0[k2], vals[k2]));
                        assert(ids[k2] == k2);
                    }
                }
            }
        }
    }
}

/// The least solution of the pruned problem is the least solution of the
/// constraints, and the pruned domains are sound.
proof fn lemma_least_link(
    cs: Seq<ConstraintView>,
    d0: Seq<Domain>,
    d1: Seq<Domain>,
    bins: Seq<BinaryConstraint>,
    vals: Seq<TernaryWeight>,
)
    requires
        d0.len() == cs.len(),
        forall|i: int, w: TernaryWeight|
            0 <= i < cs.len() ==> (#[trigger] in_dom(d0[i], w) <==> forall|k2: int, j2: int|
                0 <= k2 < cs.len() && 0 <= j2 < cs[k2].checks.len() && k2 == i ==> in_dom(
                    #[trigger] unary_mask(cs[k2].checks[j2]),
                    w,
                )),
        forall|v: Seq<TernaryWeight>| #[trigger] is_solution(cs, v) <==> solves(d0, bins, v),
        doms_wf(d1),
        doms_subset(d1, d0),
        keeps_solutions(d0, d1, bins),
        vals.len() == d1.len(),
        solves(d1, bins, vals),
        forall|b: Seq<TernaryWeight>| #[trigger] solves(d1, bins, b) && b != vals ==> lex_less(d1, vals, b),
    ensures
        sound_domains(cs, d1),
        least_solution(cs, d1, vals),
{
    assert(solves(d0, bins, vals)) by {
        assert forall|i: int| 0 <= i < d0.len() implies in_dom(d0[i], #[trigger] vals[i]) by {
            assert(in_dom(d1[i], vals[i]));
            assert(subset(d1[i], d0[i]));
        }
    }
    assert(is_solution(cs, vals));
    assert forall|b: Seq<TernaryWeight>| #[trigger] is_solution(cs, b) && b != vals implies lex_less(d1, vals, b) by {
        assert(solves(d0, bins, b));
        assert(in_domains(d1, b));
        assert(solves(d1, bins, b));
    }
    assert forall|k: int, j: int, w: TernaryWeight|
        0 <= k < cs.len() && 0 <= j < cs[k].checks.len() && #[trigger] in_dom(d1[k], w) implies in_dom(
            unary_mask(#[trigger] cs[k].checks[j]),
            w,
        ) by {
        assert(subset(d1[k], d0[k]));
        assert(in_dom(d0[k], w));
    }
    assert forall|v: Seq<TernaryWeight>| #[trigger] is_solution(cs, v) implies in_domains(d1, v) by {
        assert(solves(d0, bins, v));
    }
}

/// Every constraint being the first of its name means the names are distinct.
proof fn lemma_distinct_ids(cs: Seq<ConstraintView>, distinct: bool, ids: Seq<usize>)
    requires
        ids.len() == cs.len(),
        forall|i: int| 0 <= i < cs.len() ==> (#[trigger] ids[i]) as int == name_index(cs, cs[i].name),
        distinct == forall|i: int| 0 <= i < cs.len() ==> (#[trigger] ids[i]) as int == i,
    ensures
        distinct == names_distinct(cs),
{
    if distinct {
        assert forall|i: int, j: int| 0 <= i < j < cs.len() implies cs[i].name != cs[j].name by {
            lemma_name_index(cs, cs[j].name);
            assert(ids[j] as int == j);
        }
    } else {
        let i = choose|i: int| 0 <= i < cs.len() && !((#[trigger] ids[i]) as int == i);
        lemma_name_index(cs, cs[i].name);
        let f = name_index(cs, cs[i].name);
        assert(f < i);
        assert(cs[f].name == cs[i].name);
    }
}

/// The variables of the binary constraint a check stands for.
pub broadcast proof fn lemma_bin_of_ends(cs: Seq<ConstraintView>, k: int, c: CheckView)
    requires
        0 <= k < cs.len(),
        cs.len() <= usize::MAX,
        target_of(c) is Some,
        name_index(cs, target_of(c)->0) >= 0,
    ensures
        ends(#[trigger] bin_of(cs, k, c)).0 as int == name_index(cs, cs[k].name),
        ends(bin_of(cs, k, c)).1 as int == name_index(cs, target_of(c)->0),
{
    lemma_name_index(cs, cs[k].name);
    lemma_name_index(cs, target_of(c)->0);
}

/// With distinct names, the binary constraint a check stands for holds
/// exactly when the check does.
proof fn lemma_bin_of(cs: Seq<ConstraintView>, vals: Seq<TernaryWeight>, k: int, c: CheckView)
    requires
        0 <= k < cs.len(),
        vals.len() == cs.len(),
        cs.len() <= usize::MAX,
        names_distinct(cs),
        target_of(c) is Some,
        name_index(cs, target_of(c)->0) >= 0,
    ensures
        bin_holds(bin_of(cs, k, c), vals) == check_holds(cs, vals, k, c),
{
    lemma_name_index(cs, cs[k].name);
    lemma_name_index(cs, target_of(c)->0);
    assert(name_index(cs, cs[k].name) == k);
    lemma_bin_of_ends(cs, k, c);
}

// ---------------------------------------------------------------------------
// Checking a complete assignment
// ---------------------------------------------------------------------------
/// The value bound to `n` in `entries`, if any.
pub open spec fn lookup(entries: Seq<(Seq<char>, TernaryWeight)>, n: Seq<char>) -> Option<TernaryWeight> {
    if key_index(entries, n) >= 0 {
        Some(entries[key_index(entries, n)].1)
    } else {
        None
    }
}

/// The binary check `c` of the variable `name` holds in `entries` (both of
/// its variables are bound and their values satisfy it); other checks pass.
pub open spec fn binary_check_ok(entries: Seq<(Seq<char>, TernaryWeight)>, name: Seq<char>, c: CheckView) -> bool {
    match target_of(c) {
        None => true,
        Some(t) => lookup(entries, name) is Some && lookup(entries, t) is Some && match c {
            CheckView::Equal(_) => lookup(entries, name)->0 == lookup(entries, t)->0,
            CheckView::NotEqual(_) => lookup(entries, name)->0 != lookup(entries, t)->0,
            _ => imply_ok(lookup(entries, name)->0, lookup(entries, t)->0),
        },
    }
}

/// Every binary check of every constraint holds in `entries`.
pub open spec fn all_binary_ok(entries: Seq<(Seq<char>, TernaryWeight)>, cs: Seq<ConstraintView>) -> bool {
    forall|k: int, j: int|
        0 <= k < cs.len() && 0 <= j < cs[k].checks.len() ==> #[trigger] binary_check_ok(
            entries,
            cs[k].name,
            cs[k].checks[j],
        )
}

/// Builds "<prefix><name> (<weight>)<suffix>".
fn describe_value(name: &String, w: TernaryWeight) -> (res: String)
    ensures
        res@ == name@ + " ("@ + weight_name(w) + ")"@,
{
    let mut s = String::new();
    s.append(name.as_str());
    s.append(" (");
    s.append(w.name());
    s.append(")");
    proof {
        assert(s@ =~= name@ + " ("@ + weight_name(w) + ")"@);
    }
    s
}

/// Check if all binary constraints are fully satisfied by a complete assignment
pub fn verify_all_binary(assignment: &Assignment, constraints: &[Constraint]) -> (res: Result<(), String>)
    ensures
        res is Ok <==> all_binary_ok(assignment.values@, constraints_view(constraints@)),
{
    let ghost cs = constraints_view(constraints@);
    let ghost entries = assignment.values@;
    let mut k: usize = 0;
    while k < constraints.len()
        invariant
            k <= constraints@.len(),
            cs == constraints_view(constraints@),
            entries == assignment.values@,
            forall|k2: int, j2: int|
                0 <= k2 < k && 0 <= j2 < cs[k2].checks.len() ==> #[trigger] binary_check_ok(
                    entries,
                    cs[k2].name,
                    cs[k2].checks[j2],
                ),
        decreases constraints@.len() - k,
    {
        let c = &constraints[k];
        assert(cs[k as int] == c@);
        let mut j: usize = 0;
        while j < c.checks.len()
            invariant
                k < constraints@.len(),
                j <= c.checks@.len(),
                cs == constraints_view(constraints@),
                entries == assignment.values@,
                c == constraints@[k as int],
                cs[k as int] == c@,
                forall|k2: int, j2: int|
                    0 <= k2 < k && 0 <= j2 < cs[k2].checks.len() ==> #[trigger] binary_check_ok(
                        entries,
                        cs[k2].name,
                        cs[k2].checks[j2],
                    ),
                forall|j2: int|
                    0 <= j2 < j ==> #[trigger] binary_check_ok(entries, cs[k as int].name, cs[k as int].checks[j2]),
            decreases c.checks@.len() - j,
        {
            let check = &c.checks[j];
            assert(cs[k as int].checks[j as int] == check@);
            let target: Option<&String> = match check {
                Check::Equal(t) => Some(t),
                Check::NotEqual(t) => Some(t),
                Check::Imply { target } => Some(target),
                _ => None,
            };
            match target {
                None => {},
                Some(t) => {
                    let va = match assignment.values.get(c.name.as_str()) {
                        Some(v) => *v,
                        None => {
                            assert(!binary_check_ok(entries, cs[k as int].name, cs[k as int].checks[j as int]));
                            return Err(message_about("Variable '", &c.name, "' not in assignment"));
                        },
                    };
                    let vb = match assignment.values.get(t.as_str()) {
                        Some(v) => *v,
                        None => {
                            assert(!binary_check_ok(entries, cs[k as int].name, cs[k as int].checks[j as int]));
                            return Err(message_about("Variable '", t, "' not in assignment"));
                        },
                    };
                    match check {
                        Check::Equal(_) => {
                            if va != vb {
                                let mut msg = String::from_str("Equal constraint violated: ");
                                msg.append(describe_value(&c.name, va).as_str());
                                msg.append(" != ");
                                msg.append(describe_value(t, vb).as_str());
                                assert(!binary_check_ok(entries, cs[k as int].name, cs[k as int].checks[j as int]));
                                return Err(msg);
                            }
                        },
                        Check::NotEqual(_) => {
                            if va == vb {
                                let mut msg = String::from_str("NotEqual constraint violated: ");
                                msg.append(describe_value(&c.name, va).as_str());
                                msg.append(" == ");
                                msg.append(describe_value(t, vb).as_str());
                                assert(!binary_check_ok(entries, cs[k as int].name, cs[k as int].checks[j as int]));
                                return Err(msg);
                            }
                        },
                        _ => {
                            let violated = match va {
                                TernaryWeight::Pos => vb != TernaryWeight::Pos,
                                TernaryWeight::Neg => vb != TernaryWeight::Neg,
                                TernaryWeight::Zero => false,  // Zero implies nothing
                            };
                            if violated {
                                let mut msg = String::from_str("Imply constraint violated: ");
                                msg.append(c.name.as_str());
                                msg.append(" is ");
                                msg.append(va.name());
                                msg.append(" but ");
                                msg.append(t.as_str());
                                msg.append(" is ");
                                msg.append(vb.name());
                                assert(!binary_check_ok(entries, cs[k as int].name, cs[k as int].checks[j as int]));
                                return Err(msg);
                            }
                        },
                    }
                },
            }
            j += 1;
        }
        k += 1;
    }
    Ok(())
}

/// Law: every assignment that `solve` returns passes `verify_all_binary`: a
/// solution of the constraints binds every variable, and every binary check
/// holds on the values it binds.
pub proof fn lemma_solution_passes_verification(cs: Seq<ConstraintView>, vals: Seq<TernaryWeight>)
    requires
        names_distinct(cs),
        targets_declared(cs),
        is_solution(cs, vals),
    ensures
        all_binary_ok(solution_entries(cs, vals), cs),
{
    let e = solution_entries(cs, vals);
    assert forall|i: int| 0 <= i < cs.len() implies #[trigger] lookup(e, cs[i].name) == Some(vals[i]) by {
        lemma_key_index(e, cs[i].name);
        let ki = key_index(e, cs[i].name);
        if ki < 0 {
            assert(e[i].0 == cs[i].name);
        } else {
            assert(e[ki].0 == cs[ki].name);
            if ki != i {
                assert(cs[ki].name == cs[i].name);
            }
        }
    }
    assert forall|k: int, j: int|
        0 <= k < cs.len() && 0 <= j < cs[k].checks.len() implies #[trigger] binary_check_ok(
        e,
        cs[k].name,
        cs[k].checks[j],
    ) by {
        assert(check_holds(cs, vals, k, cs[k].checks[j]));
        if target_of(cs[k].checks[j]) is Some {
            let t = target_of(cs[k].checks[j])->0;
            lemma_name_index(cs, t);
            let ti = name_index(cs, t);
            assert(cs[ti].name == t);
            assert(lookup(e, cs[ti].name) == Some(vals[ti]));
            assert(lookup(e, cs[k].name) == Some(vals[k]));
        }
    }
}


/// Law: a `range(start, end)` check admits Zero exactly when
/// start <= 0 <= end; Neg exactly when start < 0 or end < 0; Pos exactly
/// when end is not below zero and start > 0 or end > 0. (A NaN bound is
/// neither below, above nor equal to zero.)
pub proof fn lemma_range_admits(start: Number, end: Number)
    ensures
        in_dom(range_mask(start, end), TernaryWeight::Zero) == ((start.is_neg() || start.is_zero()) && (
        end.is_pos() || end.is_zero())),
        in_dom(range_mask(start, end), TernaryWeight::Neg) == (start.is_neg() || end.is_neg()),
        in_dom(range_mask(start, end), TernaryWeight::Pos) == (!end.is_neg() && (start.is_pos()
            || end.is_pos())),
{
    let a: u8 = if start.is_neg() || end.is_neg() {
        1u8
    } else {
        0u8
    };
    let b: u8 = if (start.is_neg() || start.is_zero()) && (end.is_pos() || end.is_zero()) {
        2u8
    } else {
        0u8
    };
    let c: u8 = if end.is_pos() || start.is_pos() {
        4u8
    } else {
        0u8
    };
    assert(((a + b + c) as u8) as int == a + b + c);
}

/// Law: `verify_all_binary` accepts the assignment that gives each
/// constraint's variable its value in `vals` exactly when every Equal,
/// NotEqual and Imply check of the constraints holds on `vals` as the
/// solver reads it; in particular an implication from Pos forces Pos and
/// one from Neg forces Neg.
pub proof fn lemma_verification_iff_binary_checks(cs: Seq<ConstraintView>, vals: Seq<TernaryWeight>)
    requires
        names_distinct(cs),
        targets_declared(cs),
        vals.len() == cs.len(),
    ensures
        all_binary_ok(solution_entries(cs, vals), cs) <==> forall|k: int, j: int|
            0 <= k < cs.len() && 0 <= j < cs[k].checks.len() && (#[trigger] target_of(cs[k].checks[j])) is Some
                ==> check_holds(cs, vals, k, cs[k].checks[j]),
        all_binary_ok(solution_entries(cs, vals), cs) ==> forall|k: int, j: int|
            0 <= k < cs.len() && 0 <= j < cs[k].checks.len() && (#[trigger] cs[k].checks[j]) is Imply
                ==> {
                let t = name_index(cs, cs[k].checks[j]->target);
                &&& (vals[k] == TernaryWeight::Pos ==> vals[t] == TernaryWeight::Pos)
                &&& (vals[k] == TernaryWeight::Neg ==> vals[t] == TernaryWeight::Neg)
            },
{
    let e = solution_entries(cs, vals);
    assert forall|i: int| 0 <= i < cs.len() implies #[trigger] lookup(e, cs[i].name) == Some(vals[i]) by {
        lemma_key_index(e, cs[i].name);
        let ki = key_index(e, cs[i].name);
        if ki < 0 {
            assert(e[i].0 == cs[i].name);
        } else {
            assert(e[ki].0 == cs[ki].name);
            if ki != i {
                assert(cs[ki].name == cs[i].name);
            }
        }
    }
    assert forall|k: int, j: int|
        0 <= k < cs.len() && 0 <= j < cs[k].checks.len() && (#[trigger] target_of(cs[k].checks[j])) is Some
            implies binary_check_ok(e, cs[k].name, cs[k].checks[j]) == check_holds(cs, vals, k, cs[k].checks[j]) by {
        let t = target_of(cs[k].checks[j])->0;
        lemma_name_index(cs, t);
        let ti = name_index(cs, t);
        assert(cs[ti].name == t);
        assert(lookup(e, cs[ti].name) == Some(vals[ti]));
        assert(lookup(e, cs[k].name) == Some(vals[k]));
    }
    if all_binary_ok(e, cs) {
        assert forall|k: int, j: int|
            0 <= k < cs.len() && 0 <= j < cs[k].checks.len() && (#[trigger] target_of(cs[k].checks[j])) is Some
                implies check_holds(cs, vals, k, cs[k].checks[j]) by {
            assert(binary_check_ok(e, cs[k].name, cs[k].checks[j]));
        }
        assert forall|k: int, j: int|
            0 <= k < cs.len() && 0 <= j < cs[k].checks.len() && (#[trigger] cs[k].checks[j]) is Imply implies {
                let t = name_index(cs, cs[k].checks[j]->target);
                &&& (vals[k] == TernaryWeight::Pos ==> vals[t] == TernaryWeight::Pos)
                &&& (vals[k] == TernaryWeight::Neg ==> vals[t] == TernaryWeight::Neg)
            } by {
            assert(target_of(cs[k].checks[j]) is Some);
            assert(binary_check_ok(e, cs[k].name, cs[k].checks[j]));
        }
    }
    if forall|k: int, j: int|
        0 <= k < cs.len() && 0 <= j < cs[k].checks.len() && (#[trigger] target_of(cs[k].checks[j])) is Some
            ==> check_holds(cs, vals, k, cs[k].checks[j]) {
        assert forall|k: int, j: int| 0 <= k < cs.len() && 0 <= j < cs[k].checks.len() implies #[trigger] binary_check_ok(
            e,
            cs[k].name,
            cs[k].checks[j],
        ) by {
            if target_of(cs[k].checks[j]) is Some {
                assert(check_holds(cs, vals, k, cs[k].checks[j]));
            }
        }
    }
}

} // verus!
