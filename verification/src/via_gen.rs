//! Via pattern generator for GDSII output.
//!
//! Lays an assignment out as vias: one via per variable, on layers 1-3 in
//! turn, placed down a column and shifted left (Neg), centred (Zero) or right
//! (Pos) of it; columns wrap after eleven vias.

use vstd::prelude::*;
use crate::text::{digits, u64_to_string};
use crate::types::{
    gdsii_bytes, generate_gdsii, box_fits, box_h, box_w, key_index, lemma_key_index, map_insert, Assignment,
    GDSIIOutput, TernaryWeight, ViaPattern,
};

verus! {

/// Default via size in database units (500nm at 1nm/DBU = 500 DBU)
pub const VIA_SIZE: u64 = 500;

/// The value fits in an `i64`.
pub open spec fn in_i64(v: int) -> bool {
    i64::MIN <= v <= i64::MAX
}

/// Column position of via `i` for the (signed) via size `s`.
pub open spec fn grid_x(s: int, i: int) -> int {
    if s > 0 {
        6 * s * (i / 11)
    } else if s < 0 {
        6 * s * i
    } else {
        0
    }
}

/// Row position of via `i` for the (signed) via size `s`.
pub open spec fn grid_y(s: int, i: int) -> int {
    if s > 0 {
        2 * s * (i % 11)
    } else {
        0
    }
}

/// Horizontal shift of a via for its weight.
pub open spec fn shift(s: int, w: TernaryWeight) -> int {
    match w {
        TernaryWeight::Neg => -s,
        TernaryWeight::Zero => 0,
        TernaryWeight::Pos => s,
    }
}

/// Every value computed while placing via `i` (weight `w`) fits in an `i64`.
pub open spec fn step_fits(s: int, i: int, w: TernaryWeight) -> bool {
    let x = grid_x(s, i);
    let y = grid_y(s, i);
    &&& in_i64(shift(s, w))
    &&& in_i64(x + shift(s, w))
    &&& in_i64(2 * s)
    &&& in_i64(y + 2 * s)
    &&& in_i64(20 * s)
    &&& (y + 2 * s > 20 * s ==> in_i64(6 * s) && in_i64(x + 6 * s))
}

/// Placing every via of `entries` with via size `size` stays within `i64`.
pub open spec fn layout_fits(size: u64, entries: Seq<(Seq<char>, TernaryWeight)>) -> bool {
    forall|i: int| 0 <= i < entries.len() ==> step_fits((size as i64) as int, i, #[trigger] entries[i].1)
}

/// The via of the `i`-th entry, of weight `w`.
pub open spec fn via_at(size: u64, i: int, w: TernaryWeight) -> ViaPattern {
    let s = (size as i64) as int;
    ViaPattern {
        x: (grid_x(s, i) + shift(s, w)) as i64,
        y: grid_y(s, i) as i64,
        layer: ((i as u32) % 3 + 1) as u32,
        width: size,
        height: size,
    }
}

/// The metadata of a layout of `count` vias of size `size`.
pub open spec fn layout_metadata(size: u64, count: nat) -> Seq<(Seq<char>, Seq<char>)> {
    seq![
        ("via_size_nm"@, digits(size as nat)),
        ("total_vias"@, digits(count)),
        ("library"@, "guard2mask_lib"@),
    ]
}

/// Going from via `i` to via `i + 1` moves down the column, or on to the
/// next column past the eleventh row.
proof fn lemma_grid_step(s: int, i: int)
    requires
        i >= 0,
    ensures
        (grid_y(s, i) + 2 * s > 20 * s) ==> (grid_y(s, i + 1) == 0 && grid_x(s, i + 1) == grid_x(s, i)
            + 6 * s),
        !(grid_y(s, i) + 2 * s > 20 * s) ==> (grid_y(s, i + 1) == grid_y(s, i) + 2 * s && grid_x(
            s,
            i + 1,
        ) == grid_x(s, i)),
{
    if s > 0 {
        let r = i % 11;
        let q = i / 11;
        assert(i == 11 * q + r && 0 <= r < 11);
        if r == 10 {
            assert(i + 1 == 11 * (q + 1));
            assert((i + 1) / 11 == q + 1);
            assert((i + 1) % 11 == 0);
            assert(2 * s * r + 2 * s > 20 * s) by (nonlinear_arith)
                requires
                    r == 10,
                    s > 0,
            ;
            assert(6 * s * (q + 1) == 6 * s * q + 6 * s) by (nonlinear_arith);
        } else {
            assert((i + 1) / 11 == q);
            assert((i + 1) % 11 == r + 1);
            assert(!(2 * s * r + 2 * s > 20 * s)) by (nonlinear_arith)
                requires
                    0 <= r < 10,
                    s > 0,
            ;
            assert(2 * s * (r + 1) == 2 * s * r + 2 * s) by (nonlinear_arith);
        }
    } else if s < 0 {
        assert(6 * s * (i + 1) == 6 * s * i + 6 * s) by (nonlinear_arith);
    }
}

/// Law: every via lies on layer 1, 2 or 3, and the layers go round in turn.
pub proof fn lemma_via_layers(size: u64, i: int, w: TernaryWeight)
    requires
        0 <= i,
    ensures
        1 <= via_at(size, i, w).layer <= 3,
        i < 0x1_0000_0000 ==> via_at(size, i, w).layer == i % 3 + 1,
{
}

/// Law: on its row, a Zero via is centred on its column, a Neg via lies one
/// via size to the left of it and a Pos via one via size to the right.
pub proof fn lemma_via_offsets(size: u64, i: int)
    requires
        0 <= i,
        size <= i64::MAX,
        step_fits(size as int, i, TernaryWeight::Neg),
        step_fits(size as int, i, TernaryWeight::Pos),
    ensures
        via_at(size, i, TernaryWeight::Zero).x == grid_x(size as int, i),
        via_at(size, i, TernaryWeight::Neg).x == via_at(size, i, TernaryWeight::Zero).x - size,
        via_at(size, i, TernaryWeight::Pos).x == via_at(size, i, TernaryWeight::Zero).x + size,
        via_at(size, i, TernaryWeight::Neg).y == via_at(size, i, TernaryWeight::Zero).y,
        via_at(size, i, TernaryWeight::Pos).y == via_at(size, i, TernaryWeight::Zero).y,
{
    assert((size as i64) as int == size as int);
    assert(in_i64(grid_x(size as int, i) + size)) by {
        assert(step_fits(size as int, i, TernaryWeight::Pos));
    }
}

/// Law: `generate_patterns` lays out what `generate_patterns_with_size` lays
/// out at 500 nm: the same vias, metadata and bounds.
pub proof fn lemma_default_size(entries: Seq<(Seq<char>, TernaryWeight)>)
    ensures
        VIA_SIZE == 500,
        forall|i: int| 0 <= i < entries.len() ==> via_at(VIA_SIZE, i, #[trigger] entries[i].1) == via_at(500, i, entries[i].1),
        layout_metadata(VIA_SIZE, entries.len()) == layout_metadata(500, entries.len()),
        layout_fits(VIA_SIZE, entries) == layout_fits(500, entries),
{
}

/// Generate via patterns from a CSP assignment.
/// Maps each variable assignment to a via on a specific layer.
pub fn generate_patterns(assignment: &Assignment) -> (res: GDSIIOutput)
    requires
        layout_fits(VIA_SIZE, assignment.values@),
    ensures
        res.patterns@.len() == assignment.values@.len(),
        forall|i: int|
            0 <= i < assignment.values@.len() ==> #[trigger] res.patterns@[i] == via_at(
                VIA_SIZE,
                i,
                assignment.values@[i].1,
            ),
        res.metadata@ == layout_metadata(VIA_SIZE, assignment.values@.len()),
{
    generate_patterns_with_size(assignment, VIA_SIZE)
}

/// Generate via patterns with custom via size
pub fn generate_patterns_with_size(assignment: &Assignment, via_size_nm: u64) -> (res: GDSIIOutput)
    requires
        layout_fits(via_size_nm, assignment.values@),
    ensures
        res.patterns@.len() == assignment.values@.len(),
        forall|i: int|
            0 <= i < assignment.values@.len() ==> #[trigger] res.patterns@[i] == via_at(
                via_size_nm,
                i,
                assignment.values@[i].1,
            ),
        res.metadata@ == layout_metadata(via_size_nm, assignment.values@.len()),
{
    let mut output = GDSIIOutput::new();
    let mut x: i64 = 0;
    let mut y: i64 = 0;
    let s = #[verifier::truncate] (via_size_nm as i64);
    let entries = assignment.values.entries();
    let ghost vals = assignment.values@;
    let mut i: usize = 0;
    proof {
        assert(grid_y(s as int, 0) == 0) by (nonlinear_arith);
        assert(grid_x(s as int, 0) == 0) by (nonlinear_arith);
    }
    while i < entries.len()
        invariant
            i <= entries@.len(),
            entries@.len() == vals.len(),
            vals == assignment.values@,
            forall|q: int| 0 <= q < entries@.len() ==> (#[trigger] entries@[q]).1 == vals[q].1,
            s == #[verifier::truncate] (via_size_nm as i64),
            layout_fits(via_size_nm, vals),
            x as int == grid_x(s as int, i as int),
            y as int == grid_y(s as int, i as int),
            output.patterns@.len() == i,
            output.metadata@.len() == 0,
            forall|q: int| 0 <= q < i ==> #[trigger] output.patterns@[q] == via_at(via_size_nm, q, vals[q].1),
        decreases entries@.len() - i,
    {
        let val = entries[i].1;
        proof {
            assert(step_fits(s as int, i as int, vals[i as int].1));
            lemma_grid_step(s as int, i as int);
        }
        let layer = ((#[verifier::truncate] (i as u32)) % 3) + 1;  // Alternate layers 1-3
        let offset = match val {
            TernaryWeight::Neg => -s,  // left of center
            TernaryWeight::Zero => 0,  // centered
            TernaryWeight::Pos => s,  // right of center
        };
        output.patterns.push(ViaPattern { x: x + offset, y, layer, width: via_size_nm, height: via_size_nm });
        // Move to next column, wrap after eleven vias
        y = y + s * 2;
        if y > s * 20 {
            y = 0;
            x = x + s * 6;  // horizontal spacing between columns
        }
        i += 1;
    }
    // Add metadata
    let ghost m0 = output.metadata@;
    output.metadata.insert(String::from_str("via_size_nm"), u64_to_string(via_size_nm));
    let ghost m1 = output.metadata@;
    proof {
        reveal_strlit("via_size_nm");
        reveal_strlit("total_vias");
        reveal_strlit("library");
        assert(m1 =~= seq![("via_size_nm"@, digits(via_size_nm as nat))]);
        assert("total_vias"@ != "via_size_nm"@) by {
            assert("total_vias"@.len() != "via_size_nm"@.len());
        }
        lemma_key_index(m1, "total_vias"@);
    }
    output.metadata.insert(String::from_str("total_vias"), u64_to_string(entries.len() as u64));
    let ghost m2 = output.metadata@;
    proof {
        assert(m2 =~= seq![("via_size_nm"@, digits(via_size_nm as nat)), ("total_vias"@, digits(vals.len()))]);
        assert("library"@ != "via_size_nm"@) by {
            assert("library"@.len() != "via_size_nm"@.len());
        }
        assert("library"@ != "total_vias"@) by {
            assert("library"@.len() != "total_vias"@.len());
        }
        lemma_key_index(m2, "library"@);
    }
    output.metadata.insert(String::from_str("library"), String::from_str("guard2mask_lib"));
    proof {
        assert(output.metadata@ =~= layout_metadata(via_size_nm, vals.len()));
    }
    output
}

/// Law: every assignment of up to 10^12 variables lays out with the default
/// via size without leaving 64-bit coordinates.
pub proof fn lemma_default_layout_fits(entries: Seq<(Seq<char>, TernaryWeight)>)
    requires
        entries.len() <= 1_000_000_000_000,
    ensures
        layout_fits(VIA_SIZE, entries),
{
    assert((VIA_SIZE as i64) as int == 500);
    assert forall|i: int| 0 <= i < entries.len() implies step_fits(
        (VIA_SIZE as i64) as int,
        i,
        #[trigger] entries[i].1,
    ) by {
        assert(0 <= 6 * 500 * (i / 11) <= 3_000_000_000_000_000) by (nonlinear_arith)
            requires
                0 <= i <= 1_000_000_000_000,
        ;
        assert(0 <= 2 * 500 * (i % 11) <= 10_000) by (nonlinear_arith)
            requires
                0 <= i,
        ;
    }
}

/// A via of the default size always has a box that fits in 32-bit
/// coordinates: its corner is half a 32-bit coordinate.
proof fn lemma_default_box_fits(i: int, w: TernaryWeight)
    ensures
        box_fits(via_at(VIA_SIZE, i, w)),
{
    let p = via_at(VIA_SIZE, i, w);
    assert(box_w(p) == 500);
    assert(box_h(p) == 500);
}

/// The contents of the GDSII file for a solved assignment: its via
/// patterns, written as a GDSII library.
pub fn generate_gdsii_file(assignment: &Assignment) -> (res: Vec<u8>)
    requires
        layout_fits(VIA_SIZE, assignment.values@),
    ensures
        res@ == gdsii_bytes(Seq::new(assignment.values@.len(), |i: int| via_at(VIA_SIZE, i, assignment.values@[i].1))),
{
    let patterns = generate_patterns(assignment);
    proof {
        assert(patterns.patterns@ =~= Seq::new(
            assignment.values@.len(),
            |i: int| via_at(VIA_SIZE, i, assignment.values@[i].1),
        ));
        assert forall|i: int| 0 <= i < patterns.patterns@.len() implies box_fits(
            #[trigger] patterns.patterns@[i],
        ) by {
            assert(patterns.patterns@[i] == via_at(VIA_SIZE, i, assignment.values@[i].1));
            lemma_default_box_fits(i, assignment.values@[i].1);
        }
    }
    generate_gdsii(&patterns)
}

} // verus!
