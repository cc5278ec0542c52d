//! Core types: ternary weights, name-keyed maps, assignments, via patterns
//! and CSP descriptions.

use vstd::prelude::*;
use vstd::string::StringSliceAdditionalSpecFns;
use crate::text::{
    ascii_bytes, digits, i64_to_string, int_text, lemma_digits_ascii, lemma_digits_len,
    u64_digit_bytes, u64_to_string,
};

verus! {

/// Ternary weight values: -1, 0, +1
#[derive(Debug, Clone, Copy, PartialEq, Eq, Hash, Structural)]
pub enum TernaryWeight {
    Neg,
    Zero,
    Pos,
}

impl View for TernaryWeight {
    type V = TernaryWeight;

    open spec fn view(&self) -> TernaryWeight {
        *self
    }
}

/// The name of a weight.
pub open spec fn weight_name(w: TernaryWeight) -> Seq<char> {
    match w {
        TernaryWeight::Neg => "Neg"@,
        TernaryWeight::Zero => "Zero"@,
        TernaryWeight::Pos => "Pos"@,
    }
}

impl TernaryWeight {
/// The name of the weight: `Neg`, `Zero` or `Pos`.
    pub fn name(&self) -> (res: &str)
        ensures
            res@ == weight_name(*self),
    {
        match self {
            TernaryWeight::Neg => "Neg",
            TernaryWeight::Zero => "Zero",
            TernaryWeight::Pos => "Pos",
        }
    }
}

/// Index of the first entry of `s` whose key is `k`, or -1.
pub open spec fn key_index<VV>(s: Seq<(Seq<char>, VV)>, k: Seq<char>) -> int
    decreases s.len(),
{
    if s.len() == 0 {
        -1
    } else {
        let r = key_index(s.drop_last(), k);
        if r >= 0 {
            r
        } else if s.last().0 == k {
            s.len() - 1
        } else {
            -1
        }
    }
}

/// `s` with `k` bound to `v`: the first entry with key `k` gets the value `v`;
/// where there is none, the entry `(k, v)` comes last.
pub open spec fn map_insert<VV>(s: Seq<(Seq<char>, VV)>, k: Seq<char>, v: VV) -> Seq<(Seq<char>, VV)> {
    let i = key_index(s, k);
    if i >= 0 {
        s.update(i, (k, v))
    } else {
        s.push((k, v))
    }
}

/// No key occurs twice in `s`.
pub open spec fn keys_distinct<VV>(s: Seq<(Seq<char>, VV)>) -> bool {
    forall|i: int, j: int| 0 <= i < j < s.len() ==> s[i].0 != s[j].0
}

/// Where `key_index` points: the first entry with that key.
pub proof fn lemma_key_index<VV>(s: Seq<(Seq<char>, VV)>, k: Seq<char>)
    ensures
        -1 <= key_index(s, k) < s.len(),
        key_index(s, k) >= 0 ==> s[key_index(s, k)].0 == k,
        key_index(s, k) >= 0 ==> forall|j: int| 0 <= j < key_index(s, k) ==> s[j].0 != k,
        key_index(s, k) < 0 ==> forall|j: int| 0 <= j < s.len() ==> s[j].0 != k,
    decreases s.len(),
{
    if s.len() > 0 {
        let t = s.drop_last();
        lemma_key_index(t, k);
        assert(forall|j: int| 0 <= j < t.len() ==> t[j] == s[j]);
    }
}

/// Law: binding a name never makes a name occur twice.
pub proof fn lemma_insert_distinct<VV>(s: Seq<(Seq<char>, VV)>, k: Seq<char>, v: VV)
    requires
        keys_distinct(s),
    ensures
        keys_distinct(map_insert(s, k, v)),
{
    lemma_key_index(s, k);
}

/// `key_index` reads only the keys.
proof fn lemma_key_index_keys<VV>(s: Seq<(Seq<char>, VV)>, t: Seq<(Seq<char>, VV)>, k: Seq<char>)
    requires
        s.len() == t.len(),
        forall|j: int| 0 <= j < s.len() ==> s[j].0 == t[j].0,
    ensures
        key_index(s, k) == key_index(t, k),
    decreases s.len(),
{
    if s.len() > 0 {
        lemma_key_index_keys(s.drop_last(), t.drop_last(), k);
    }
}

/// Law: reading a name back after binding it gives the value it was bound
/// to; every other name keeps its position and value; the map grows by one
/// entry exactly when the name was not bound before.
pub proof fn lemma_map_insert_lookup<VV>(s: Seq<(Seq<char>, VV)>, k: Seq<char>, v: VV, k2: Seq<char>)
    ensures
        key_index(map_insert(s, k, v), k) >= 0,
        map_insert(s, k, v)[key_index(map_insert(s, k, v), k)].1 == v,
        k2 != k ==> key_index(map_insert(s, k, v), k2) == key_index(s, k2),
        k2 != k && key_index(s, k2) >= 0 ==> map_insert(s, k, v)[key_index(s, k2)] == s[key_index(
            s,
            k2,
        )],
        map_insert(s, k, v).len() == s.len() + (if key_index(s, k) >= 0 {
            0int
        } else {
            1int
        }),
{
    lemma_key_index(s, k);
    lemma_key_index(s, k2);
    let i = key_index(s, k);
    let m = map_insert(s, k, v);
    if i >= 0 {
        lemma_key_index_keys(m, s, k);
        lemma_key_index_keys(m, s, k2);
    } else {
        assert(m.drop_last() =~= s);
    }
}

/// A map from names to values that remembers the order in which names were
/// first bound.
#[derive(Debug, Clone)]
pub struct NameMap<V> {
    entries: Vec<(String, V)>,
}

impl<V: View> View for NameMap<V> {
    type V = Seq<(Seq<char>, V::V)>;

    closed spec fn view(&self) -> Seq<(Seq<char>, V::V)> {
        self.entries@.map_values(|e: (String, V)| (e.0@, e.1@))
    }
}

impl<V: View> NameMap<V> {
    /// Well formed: no name is bound twice.
    pub open spec fn wf(&self) -> bool {
        keys_distinct(self@)
    }

    /// The empty map.
    pub fn new() -> (res: Self)
        ensures
            res@ == Seq::<(Seq<char>, V::V)>::empty(),
            res.wf(),
    {
        let res = NameMap { entries: Vec::new() };
        assert(res@ =~= Seq::<(Seq<char>, V::V)>::empty());
        res
    }

    /// Number of entries.
    pub fn len(&self) -> (res: usize)
        ensures
            res == self@.len(),
    {
        self.entries.len()
    }

    /// There is no entry.
    pub fn is_empty(&self) -> (res: bool)
        ensures
            res == (self@.len() == 0),
    {
        self.entries.len() == 0
    }

    /// The entries, in order.
    pub fn entries(&self) -> (res: &Vec<(String, V)>)
        ensures
            res@.len() == self@.len(),
            forall|i: int|
                0 <= i < res@.len() ==> (#[trigger] res@[i]).0@ == self@[i].0 && res@[i].1@
                    == self@[i].1,
    {
        &self.entries
    }

    /// Position of the entry with key `key`, if any.
    fn position(&self, key: &String) -> (res: Option<usize>)
        ensures
            match res {
                Some(i) => i as int == key_index(self@, key@) && i < self@.len(),
                None => key_index(self@, key@) < 0,
            },
    {
        let mut i: usize = 0;
        while i < self.entries.len()
            invariant
                i <= self.entries@.len(),
                key_index(self@.take(i as int), key@) < 0,
            decreases self.entries@.len() - i,
        {
            proof {
                assert(self@.take((i + 1) as int).drop_last() =~= self@.take(i as int));
                lemma_key_index(self@, key@);
                lemma_key_index(self@.take(i as int), key@);
            }
            if self.entries[i].0 == *key {
                assert(self@[i as int].0 == key@);
                assert forall|j: int| 0 <= j < i implies self@[j].0 != key@ by {
                    assert(self@.take(i as int)[j] == self@[j]);
                }
                return Some(i);
            }
            i += 1;
        }
        assert(self@.take(i as int) =~= self@);
        None
    }

    /// Binds `key` to `value`, returning the value it was bound to before.
    pub fn insert(&mut self, key: String, value: V) -> (res: Option<V>)
        ensures
            final(self)@ == map_insert(old(self)@, key@, value@),
            old(self).wf() ==> final(self).wf(),
            match res {
                Some(v) => key_index(old(self)@, key@) >= 0 && v@ == old(self)@[key_index(
                    old(self)@,
                    key@,
                )].1,
                None => key_index(old(self)@, key@) < 0,
            },
    {
        match self.position(&key) {
            Some(i) => {
                proof {
                    if old(self).wf() {
                        lemma_insert_distinct(old(self)@, key@, value@);
                    }
                }
                let old_entry = self.entries.remove(i);
                self.entries.insert(i, (key, value));
                assert(self@ =~= map_insert(old(self)@, key@, value@));
                Some(old_entry.1)
            },
            None => {
                proof {
                    if old(self).wf() {
                        lemma_insert_distinct(old(self)@, key@, value@);
                    }
                }
                self.entries.push((key, value));
                assert(self@ =~= map_insert(old(self)@, key@, value@));
                None
            },
        }
    }

    /// The value bound to `key`.
    pub fn get(&self, key: &str) -> (res: Option<&V>)
        ensures
            match res {
                Some(v) => key_index(self@, key@) >= 0 && v@ == self@[key_index(self@, key@)].1,
                None => key_index(self@, key@) < 0,
            },
    {
        let k = key.to_owned();
        match self.position(&k) {
            Some(i) => Some(&self.entries[i].1),
            None => None,
        }
    }

    /// `key` is bound.
    pub fn contains_key(&self, key: &str) -> (res: bool)
        ensures
            res == (key_index(self@, key@) >= 0),
    {
        let k = key.to_owned();
        self.position(&k).is_some()
    }
}

/// CSP variable assignment
#[derive(Debug, Clone)]
pub struct Assignment {
    pub values: NameMap<TernaryWeight>,
}

impl Assignment {
/// The empty assignment.
    pub fn new() -> (res: Self)
        ensures
            res.values@.len() == 0,
            res.values.wf(),
    {
        Assignment { values: NameMap::new() }
    }
}

impl Default for Assignment {
    fn default() -> (res: Self)
        ensures
            res.values@.len() == 0,
    {
        Assignment::new()
    }
}

/// Via pattern for GDSII output
#[derive(Debug, Clone, PartialEq, Eq, Structural)]
pub struct ViaPattern {
    pub x: i64,
    pub y: i64,
    pub layer: u32,
    pub width: u64,
    pub height: u64,
}

/// GDSII output structure
#[derive(Debug, Clone)]
pub struct GDSIIOutput {
    pub patterns: Vec<ViaPattern>,
    pub metadata: NameMap<String>,
}

impl GDSIIOutput {
/// An output with no vias and no metadata.
    pub fn new() -> (res: Self)
        ensures
            res.patterns@.len() == 0,
            res.metadata@.len() == 0,
            res.metadata.wf(),
    {
        GDSIIOutput { patterns: Vec::new(), metadata: NameMap::new() }
    }
}

impl Default for GDSIIOutput {
    fn default() -> (res: Self)
        ensures
            res.patterns@.len() == 0,
            res.metadata@.len() == 0,
    {
        GDSIIOutput::new()
    }
}

// ============================================================
// CSP (Constraint Satisfaction Problem) types
// ============================================================
/// CSP constraint types for the solver
#[derive(Debug, Clone)]
pub enum CSPConstraint {
    /// If var1 == val1, then var2 must be == val2
    Imply { var1: String, val1: TernaryWeight, var2: String, val2: TernaryWeight },
    /// Forbid both var1 == val1 AND var2 == val2 simultaneously
    ForbidBoth { var1: String, val1: TernaryWeight, var2: String, val2: TernaryWeight },
}

impl CSPConstraint {
    /// The first variable of the constraint.
    pub open spec fn first_var(&self) -> Seq<char> {
        match self {
            CSPConstraint::Imply { var1, .. } => var1@,
            CSPConstraint::ForbidBoth { var1, .. } => var1@,
        }
    }

    /// The second variable of the constraint.
    pub open spec fn second_var(&self) -> Seq<char> {
        match self {
            CSPConstraint::Imply { var2, .. } => var2@,
            CSPConstraint::ForbidBoth { var2, .. } => var2@,
        }
    }

    /// Get all variable names involved in this constraint
    pub fn variables(&self) -> (res: Vec<&str>)
        ensures
            res@.len() == 2,
            res@[0]@ == self.first_var(),
            res@[1]@ == self.second_var(),
    {
        match self {
            CSPConstraint::Imply { var1, var2, .. } => vec![var1.as_str(), var2.as_str()],
            CSPConstraint::ForbidBoth { var1, var2, .. } => vec![var1.as_str(), var2.as_str()],
        }
    }
}

/// A constraint satisfaction problem
#[derive(Debug, Clone)]
pub struct CSP {
    pub variables: Vec<String>,
    pub domains: NameMap<Vec<TernaryWeight>>,
    pub constraints: Vec<CSPConstraint>,
}

impl CSP {
/// A problem with no variables, domains or constraints.
    pub fn new() -> (res: Self)
        ensures
            res.variables@.len() == 0,
            res.domains@.len() == 0,
            res.domains.wf(),
            res.constraints@.len() == 0,
    {
        CSP { variables: Vec::new(), domains: NameMap::new(), constraints: Vec::new() }
    }

    /// Add a variable with its allowed domain values
    pub fn add_variable(&mut self, name: &str, domain: Vec<TernaryWeight>)
        ensures
            final(self).variables@.len() == old(self).variables@.len() + 1,
            forall|i: int|
                0 <= i < old(self).variables@.len() ==> final(self).variables@[i]
                    == old(self).variables@[i],
            final(self).variables@.last()@ == name@,
            final(self).domains@ == map_insert(old(self).domains@, name@, domain@),
            old(self).domains.wf() ==> final(self).domains.wf(),
            final(self).constraints@ == old(self).constraints@,
    {
        self.variables.push(name.to_owned());
        self.domains.insert(name.to_owned(), domain);
    }

    /// Add an implication constraint: if var1 == val1 then var2 == val2
    pub fn add_imply(&mut self, var1: &str, val1: TernaryWeight, var2: &str, val2: TernaryWeight)
        ensures
            final(self).variables@ == old(self).variables@,
            final(self).domains@ == old(self).domains@,
            final(self).constraints@.len() == old(self).constraints@.len() + 1,
            forall|i: int|
                0 <= i < old(self).constraints@.len() ==> final(self).constraints@[i]
                    == old(self).constraints@[i],
            final(self).constraints@.last() matches CSPConstraint::Imply { var1: a, val1: x, var2: b, val2: y }
                && a@ == var1@ && x == val1 && b@ == var2@ && y == val2,
    {
        self.constraints.push(
            CSPConstraint::Imply { var1: var1.to_owned(), val1, var2: var2.to_owned(), val2 },
        );
    }

    /// Add a forbid-both constraint: forbid var1 == val1 AND var2 == val2 simultaneously
    pub fn add_forbid_both(
        &mut self,
        var1: &str,
        val1: TernaryWeight,
        var2: &str,
        val2: TernaryWeight,
    )
        ensures
            final(self).variables@ == old(self).variables@,
            final(self).domains@ == old(self).domains@,
            final(self).constraints@.len() == old(self).constraints@.len() + 1,
            forall|i: int|
                0 <= i < old(self).constraints@.len() ==> final(self).constraints@[i]
                    == old(self).constraints@[i],
            final(self).constraints@.last() matches CSPConstraint::ForbidBoth {
                var1: a,
                val1: x,
                var2: b,
                val2: y,
            } && a@ == var1@ && x == val1 && b@ == var2@ && y == val2,
    {
        self.constraints.push(
            CSPConstraint::ForbidBoth { var1: var1.to_owned(), val1, var2: var2.to_owned(), val2 },
        );
    }
}

// ============================================================
// GDSII Binary Writer
// ============================================================
// GDSII record types
pub const HEADER: u16 = 0x0002;

pub const BGN_LIB: u16 = 0x0102;

pub const LIB_NAME: u16 = 0x0206;

pub const UNITS: u16 = 0x0305;

pub const END_LIB: u16 = 0x0400;

pub const BGN_STR: u16 = 0x0502;

pub const STR_NAME: u16 = 0x0606;

pub const END_STR: u16 = 0x0700;

pub const BOUNDARY: u16 = 0x0800;

pub const SREF: u16 = 0x0A00;

pub const LAYER: u16 = 0x0D02;

pub const DATA_TYPE: u16 = 0x0E02;

pub const XY: u16 = 0x1003;

pub const END_EL: u16 = 0x1100;

// GDSII record data types
pub const NO_DATA: u16 = 0;

pub const INT2: u16 = 2;

pub const INT4: u16 = 3;

pub const REAL8: u16 = 5;

pub const STRING: u16 = 6;

/// Big-endian bytes of a 16-bit value.
pub open spec fn be16(v: u16) -> Seq<u8> {
    seq![(v / 256) as u8, (v % 256) as u8]
}

/// Big-endian two's-complement bytes of a 16-bit signed value.
pub open spec fn be_i16(v: i16) -> Seq<u8> {
    be16(v as u16)
}

/// Big-endian two's-complement bytes of a 32-bit signed value.
pub open spec fn be_i32(v: i32) -> Seq<u8> {
    let u = v as u32;
    seq![(u / 0x100_0000) as u8, ((u / 0x1_0000) % 256) as u8, ((u / 256) % 256) as u8, (u % 256) as u8]
}

/// A GDSII record: total length (header, data and pad byte) and record type
/// (big endian), the data, and a zero byte when the data has odd length, so
/// that the length is always even.
pub open spec fn record(rectype: u16, data: Seq<u8>) -> Seq<u8> {
    be16((4 + data.len() + data.len() % 2) as u16) + be16(rectype) + data + if data.len() % 2 != 0 {
        seq![0u8]
    } else {
        seq![]
    }
}

/// Law: a record's length field counts every byte the record occupies, the
/// pad byte included, and is even.
pub proof fn lemma_record_length(rectype: u16, data: Seq<u8>)
    requires
        data.len() + 5 <= u16::MAX,
    ensures
        record(rectype, data).len() == 256 * (record(rectype, data)[0] as int) + record(rectype, data)[1] as int,
        record(rectype, data).len() % 2 == 0,
{
    let l = (4 + data.len() + data.len() % 2) as u16;
    assert(l as int == 4 + data.len() + data.len() % 2);
    assert(record(rectype, data)[0] == (l / 256) as u8);
    assert(record(rectype, data)[1] == (l % 256) as u8);
}

/// Eight zero bytes (a 1980-01-01 00:00:00 modification/access time).
pub open spec fn zero8() -> Seq<u8> {
    seq![0u8, 0, 0, 0, 0, 0, 0, 0]
}

/// `guard2mask_lib` followed by a zero byte.
pub open spec fn lib_name_bytes() -> Seq<u8> {
    seq![103u8, 117, 97, 114, 100, 50, 109, 97, 115, 107, 95, 108, 105, 98, 0]
}

/// `TOP` followed by a zero byte.
pub open spec fn top_name_bytes() -> Seq<u8> {
    seq![84u8, 79, 80, 0]
}

/// The GDSII 8-byte reals (sign bit, excess-64 base-16 exponent, 56-bit
/// mantissa) 1e-6 (database units per meter) and 1e-9 (user units per
/// meter).
pub open spec fn units_bytes() -> Seq<u8> {
    seq![
        0x3cu8, 0x10, 0xc6, 0xf7, 0xa0, 0xb5, 0xed, 0x8d,
        0x39, 0x44, 0xb8, 0x2f, 0xa0, 0x9b, 0x5a, 0x54,
    ]
}

/// The name of the structure that holds the vias of `layer`: `VIA_LAYER_<layer>`.
pub open spec fn layer_name(layer: u32) -> Seq<u8> {
    seq![86u8, 73, 65, 95, 76, 65, 89, 69, 82, 95] + ascii_bytes(digits(layer as nat))
}

/// Integer division by two, rounding toward zero.
pub open spec fn half(v: int) -> int {
    if v >= 0 {
        v / 2
    } else {
        -((-v) / 2)
    }
}

/// Lower-left corner and size of a via's box in GDSII coordinates.
pub open spec fn box_x(p: ViaPattern) -> int {
    half((p.x as i32) as int)
}

pub open spec fn box_y(p: ViaPattern) -> int {
    half((p.y as i32) as int)
}

pub open spec fn box_w(p: ViaPattern) -> int {
    (p.width as u32) as i32 as int
}

pub open spec fn box_h(p: ViaPattern) -> int {
    (p.height as u32) as i32 as int
}

/// The corners of a via's box fit in 32-bit coordinates.
pub open spec fn box_fits(p: ViaPattern) -> bool {
    i32::MIN <= box_x(p) + box_w(p) <= i32::MAX && i32::MIN <= box_y(p) + box_h(p) <= i32::MAX
}

/// The records of a via's box: BOUNDARY, LAYER, DATATYPE 0, the five
/// corners of the closed rectangle and ENDEL.
pub open spec fn box_records(p: ViaPattern) -> Seq<u8> {
    let x = box_x(p) as i32;
    let y = box_y(p) as i32;
    let x2 = (box_x(p) + box_w(p)) as i32;
    let y2 = (box_y(p) + box_h(p)) as i32;
    record(BOUNDARY, seq![]) + record(LAYER, be_i16(p.layer as i16)) + record(DATA_TYPE, be_i16(0))
        + record(
        XY,
        be_i32(x) + be_i32(y) + be_i32(x2) + be_i32(y) + be_i32(x2) + be_i32(y2) + be_i32(x) + be_i32(
            y2,
        ) + be_i32(x) + be_i32(y),
    ) + record(END_EL, seq![])
}

/// The boxes of the vias on `layer`, in order.
pub open spec fn layer_boxes(ps: Seq<ViaPattern>, layer: u32) -> Seq<u8>
    decreases ps.len(),
{
    if ps.len() == 0 {
        seq![]
    } else {
        layer_boxes(ps.drop_last(), layer) + if ps.last().layer == layer {
            box_records(ps.last())
        } else {
            seq![]
        }
    }
}

/// The distinct layers of the vias, in order of first appearance.
pub open spec fn layers_of(ps: Seq<ViaPattern>) -> Seq<u32>
    decreases ps.len(),
{
    if ps.len() == 0 {
        seq![]
    } else {
        let l = layers_of(ps.drop_last());
        if l.contains(ps.last().layer) {
            l
        } else {
            l.push(ps.last().layer)
        }
    }
}

/// The structure of one layer.
pub open spec fn layer_structure(ps: Seq<ViaPattern>, layer: u32) -> Seq<u8> {
    record(BGN_STR, zero8()) + record(STR_NAME, layer_name(layer)) + layer_boxes(ps, layer) + record(
        END_STR,
        seq![],
    )
}

/// The structures of the given layers, in order.
pub open spec fn layer_structures(ps: Seq<ViaPattern>, ls: Seq<u32>) -> Seq<u8>
    decreases ls.len(),
{
    if ls.len() == 0 {
        seq![]
    } else {
        layer_structures(ps, ls.drop_last()) + layer_structure(ps, ls.last())
    }
}

/// The records of a structure reference at the origin.
pub open spec fn sref_records(name: Seq<u8>) -> Seq<u8> {
    record(SREF, seq![]) + record(STR_NAME, name) + record(XY, be_i32(0) + be_i32(0)) + record(
        END_EL,
        seq![],
    )
}

/// References to the structures of the given layers.
pub open spec fn layer_srefs(ls: Seq<u32>) -> Seq<u8>
    decreases ls.len(),
{
    if ls.len() == 0 {
        seq![]
    } else {
        layer_srefs(ls.drop_last()) + sref_records(layer_name(ls.last()))
    }
}

/// The whole GDSII library: header, one structure per layer, the TOP
/// structure placing every layer structure, and the end of the library.
pub open spec fn gdsii_bytes(ps: Seq<ViaPattern>) -> Seq<u8> {
    record(HEADER, seq![0u8, 0x03, 0x00, 0x00]) + record(BGN_LIB, zero8()) + record(
        LIB_NAME,
        lib_name_bytes(),
    ) + record(UNITS, units_bytes()) + layer_structures(ps, layers_of(ps)) + record(
        BGN_STR,
        zero8(),
    ) + record(STR_NAME, top_name_bytes()) + layer_srefs(layers_of(ps)) + record(END_STR, seq![])
        + record(END_LIB, seq![])
}

/// Law: every GDSII library written starts with the HEADER record of
/// stream version 3 and ends with the ENDLIB record.
#[verifier::spinoff_prover]
pub proof fn lemma_gdsii_frame(ps: Seq<ViaPattern>)
    ensures
        gdsii_bytes(ps).len() >= 12,
        gdsii_bytes(ps).take(8) == seq![0u8, 8, 0, 2, 0, 3, 0, 0],
        gdsii_bytes(ps).subrange(gdsii_bytes(ps).len() - 4, gdsii_bytes(ps).len() as int) == seq![
            0u8,
            4,
            4,
            0,
        ],
{
    let head = record(HEADER, seq![0u8, 0x03, 0x00, 0x00]);
    let tail = record(END_LIB, seq![]);
    assert(head =~= seq![0u8, 8, 0, 2, 0, 3, 0, 0]);
    assert(tail =~= seq![0u8, 4, 4, 0]);
    let mid = record(BGN_LIB, zero8()) + record(LIB_NAME, lib_name_bytes()) + record(
        UNITS,
        units_bytes(),
    ) + layer_structures(ps, layers_of(ps)) + record(BGN_STR, zero8()) + record(
        STR_NAME,
        top_name_bytes(),
    ) + layer_srefs(layers_of(ps)) + record(END_STR, seq![]);
    assert(gdsii_bytes(ps) =~= head + mid + tail);
    let g = gdsii_bytes(ps);
    assert(g.take(8) =~= head);
    assert(g.subrange(g.len() - 4, g.len() as int) =~= tail);
}

/// The SREF records in the TOP structure: one per layer of `ls`, in order.
proof fn lemma_layer_srefs_flatten(ls: Seq<u32>)
    ensures
        layer_srefs(ls) == Seq::new(ls.len(), |k: int| sref_records(layer_name(ls[k]))).flatten(),
    decreases ls.len(),
{
    if ls.len() > 0 {
        lemma_layer_srefs_flatten(ls.drop_last());
        let f = Seq::new(ls.len(), |k: int| sref_records(layer_name(ls[k])));
        let g = Seq::new(ls.drop_last().len(), |k: int| sref_records(layer_name(ls.drop_last()[k])));
        assert(f =~= g.push(sref_records(layer_name(ls.last()))));
        g.lemma_flatten_push(sref_records(layer_name(ls.last())));
    }
}

/// The layers of the vias, each once.
proof fn lemma_layers_of(ps: Seq<ViaPattern>)
    ensures
        forall|i: int| 0 <= i < ps.len() ==> layers_of(ps).contains(#[trigger] ps[i].layer),
        forall|k: int| 0 <= k < layers_of(ps).len() ==> exists|i: int| 0 <= i < ps.len() && ps[i].layer == #[trigger] layers_of(ps)[k],
        forall|k1: int, k2: int| 0 <= k1 < k2 < layers_of(ps).len() ==> layers_of(ps)[k1] != layers_of(ps)[k2],
    decreases ps.len(),
{
    if ps.len() > 0 {
        let q = ps.drop_last();
        lemma_layers_of(q);
        let l = layers_of(q);
        assert forall|i: int| 0 <= i < ps.len() implies layers_of(ps).contains(#[trigger] ps[i].layer) by {
            if i < ps.len() - 1 {
                assert(q[i] == ps[i]);
                assert(l.contains(q[i].layer));
                if !l.contains(ps.last().layer) {
                    let k = choose|k: int| 0 <= k < l.len() && l[k] == q[i].layer;
                    assert(layers_of(ps)[k] == l[k]);
                }
            } else if !l.contains(ps.last().layer) {
                assert(layers_of(ps)[l.len() as int] == ps.last().layer);
            }
        }
        assert forall|k: int| 0 <= k < layers_of(ps).len() implies exists|i: int| 0 <= i < ps.len() && ps[i].layer == #[trigger] layers_of(ps)[k] by {
            if k < l.len() {
                assert(layers_of(ps)[k] == l[k]);
                let i = choose|i: int| 0 <= i < q.len() && q[i].layer == l[k];
                assert(ps[i] == q[i]);
            } else {
                assert(ps[ps.len() - 1].layer == layers_of(ps)[k]);
            }
        }
    }
}

/// Law: the TOP structure of a GDSII library ends the file (before ENDSTR
/// and ENDLIB) with one SREF record group per layer that the vias use, each
/// naming that layer's structure `VIA_LAYER_<n>`: every layer of a via is
/// referenced, every referenced layer is one a via uses, and no layer is
/// referenced twice.
pub proof fn lemma_top_references_layers(ps: Seq<ViaPattern>)
    ensures
        ({
            let ls = layers_of(ps);
            let refs = Seq::new(ls.len(), |k: int| sref_records(layer_name(ls[k]))).flatten();
            let g = gdsii_bytes(ps);
            &&& g.len() >= refs.len() + 8
            &&& g.subrange(g.len() - 8 - refs.len(), g.len() - 8) == refs
            &&& g.subrange(g.len() - 8, g.len() as int) == seq![0u8, 4, 7, 0, 0, 4, 4, 0]
        }),
        forall|i: int| 0 <= i < ps.len() ==> layers_of(ps).contains(#[trigger] ps[i].layer),
        forall|k: int|
            0 <= k < layers_of(ps).len() ==> exists|i: int|
                0 <= i < ps.len() && ps[i].layer == #[trigger] layers_of(ps)[k],
        forall|k1: int, k2: int|
            0 <= k1 < k2 < layers_of(ps).len() ==> layers_of(ps)[k1] != layers_of(ps)[k2],
{
    let ls = layers_of(ps);
    lemma_layer_srefs_flatten(ls);
    lemma_layers_of(ps);
    let refs = layer_srefs(ls);
    let head = record(HEADER, seq![0u8, 0x03, 0x00, 0x00]) + record(BGN_LIB, zero8()) + record(
        LIB_NAME,
        lib_name_bytes(),
    ) + record(UNITS, units_bytes()) + layer_structures(ps, ls) + record(BGN_STR, zero8()) + record(
        STR_NAME,
        top_name_bytes(),
    );
    let tail = record(END_STR, seq![]) + record(END_LIB, seq![]);
    assert(tail =~= seq![0u8, 4, 7, 0, 0, 4, 4, 0]);
    let g = gdsii_bytes(ps);
    assert(g =~= head + refs + tail);
    assert(g.subrange(g.len() - 8 - refs.len(), g.len() - 8) =~= refs);
    assert(g.subrange(g.len() - 8, g.len() as int) =~= tail);
}

/// Write a 16-bit value, big endian.
fn write_u16(buf: &mut Vec<u8>, val: u16)
    ensures
        final(buf)@ == old(buf)@ + be16(val),
{
    buf.push((val / 256) as u8);
    buf.push((val % 256) as u8);
    assert(buf@ =~= old(buf)@ + be16(val));
}

/// Append bytes.
fn write_bytes(buf: &mut Vec<u8>, data: &[u8])
    ensures
        final(buf)@ == old(buf)@ + data@,
{
    let mut i: usize = 0;
    while i < data.len()
        invariant
            i <= data@.len(),
            buf@ == old(buf)@ + data@.take(i as int),
        decreases data@.len() - i,
    {
        buf.push(data[i]);
        assert(data@.take(i + 1) =~= data@.take(i as int).push(data@[i as int]));
        i += 1;
    }
    assert(data@.take(data@.len() as int) =~= data@);
}

/// Write a GDSII record to a byte buffer
fn write_record(buf: &mut Vec<u8>, rectype: u16, _data_type: u16, data: &[u8])
    requires
        data@.len() <= usize::MAX - 5,
    ensures
        final(buf)@ == old(buf)@ + record(rectype, data@),
{
    let total_len = #[verifier::truncate] ((4 + data.len() + data.len() % 2) as u16);
    write_u16(buf, total_len);
    write_u16(buf, rectype);
    write_bytes(buf, data);
    // Pad to even boundary
    if data.len() % 2 != 0 {
        buf.push(0);
    }
    assert(buf@ =~= old(buf)@ + record(rectype, data@));
}

/// Write a 2-byte signed integer
fn write_int2(buf: &mut Vec<u8>, val: i16)
    ensures
        final(buf)@ == old(buf)@ + be_i16(val),
{
    write_u16(buf, val as u16);
}

/// Write a 4-byte signed integer
fn write_int4(buf: &mut Vec<u8>, val: i32)
    ensures
        final(buf)@ == old(buf)@ + be_i32(val),
{
    let u = val as u32;
    buf.push((u / 0x100_0000) as u8);
    buf.push(((u / 0x1_0000) % 256) as u8);
    buf.push(((u / 256) % 256) as u8);
    buf.push((u % 256) as u8);
    assert(buf@ =~= old(buf)@ + be_i32(val));
}

/// Write an ASCII string, padded to even length with nulls
fn write_string(buf: &mut Vec<u8>, s: &str)
    ensures
        final(buf)@ == old(buf)@ + s.spec_bytes() + if s.spec_bytes().len() % 2 != 0 {
            seq![0u8]
        } else {
            seq![]
        },
{
    let bytes = s.as_bytes();
    write_bytes(buf, bytes);
    if bytes.len() % 2 != 0 {
        buf.push(0);
    }
    assert(buf@ =~= old(buf)@ + s.spec_bytes() + if s.spec_bytes().len() % 2 != 0 {
        seq![0u8]
    } else {
        seq![]
    });
}

/// The bytes of `VIA_LAYER_<layer>`.
fn layer_name_of(layer: u32) -> (res: Vec<u8>)
    ensures
        res@ == layer_name(layer),
        res@.len() <= 20,
{
    let mut name: Vec<u8> = vec![86u8, 73, 65, 95, 76, 65, 89, 69, 82, 95];
    let digits_bytes = u64_digit_bytes(layer as u64);
    write_bytes(&mut name, digits_bytes.as_slice());
    proof {
        assert(crate::number::pow10(10) == 10000000000) by {
            reveal_with_fuel(crate::number::pow10, 11);
        }
        lemma_digits_len(layer as nat, 10);
        assert(name@ =~= layer_name(layer));
    }
    name
}

/// Integer division by two, rounding toward zero (Rust's `/ 2` on `i32`).
fn half_i32(v: i32) -> (res: i32)
    ensures
        res as int == half(v as int),
{
    if v >= 0 {
        v / 2
    } else {
        let m: i64 = -(v as i64);
        -((m / 2) as i32)
    }
}

/// Write a GDSII boundary box
fn write_boundary_box(buf: &mut Vec<u8>, p: &ViaPattern)
    requires
        box_fits(*p),
    ensures
        final(buf)@ == old(buf)@ + box_records(*p),
{
    write_record(buf, BOUNDARY, NO_DATA, &[]);
    let mut layer_data: Vec<u8> = Vec::new();
    write_int2(&mut layer_data, p.layer as i16);
    write_record(buf, LAYER, INT2, layer_data.as_slice());
    let mut dt_data: Vec<u8> = Vec::new();
    write_int2(&mut dt_data, 0);
    write_record(buf, DATA_TYPE, INT2, dt_data.as_slice());
    // XY data: 5 points (closed rectangle), each 4 bytes x and 4 bytes y
    let x = half_i32(p.x as i32);
    let y = half_i32(p.y as i32);
    let w = p.width as u32 as i32;
    let h = p.height as u32 as i32;
    let mut xy_data: Vec<u8> = Vec::with_capacity(5 * 8);
    // Bottom-left, bottom-right, top-right, top-left, back to bottom-left
    write_int4(&mut xy_data, x);
    write_int4(&mut xy_data, y);
    write_int4(&mut xy_data, x + w);
    write_int4(&mut xy_data, y);
    write_int4(&mut xy_data, x + w);
    write_int4(&mut xy_data, y + h);
    write_int4(&mut xy_data, x);
    write_int4(&mut xy_data, y + h);
    write_int4(&mut xy_data, x);
    write_int4(&mut xy_data, y);
    write_record(buf, XY, INT4, xy_data.as_slice());
    write_record(buf, END_EL, NO_DATA, &[]);
    proof {
        assert(buf@ =~= old(buf)@ + box_records(*p));
    }
}

/// Write a GDSII structure reference (SREF)
fn write_sref(buf: &mut Vec<u8>, strname: &[u8], x: i32, y: i32)
    requires
        strname@.len() <= usize::MAX - 5,
    ensures
        final(buf)@ == old(buf)@ + record(SREF, seq![]) + record(STR_NAME, strname@) + record(
            XY,
            be_i32(x) + be_i32(y),
        ) + record(END_EL, seq![]),
{
    write_record(buf, SREF, NO_DATA, &[]);
    write_record(buf, STR_NAME, STRING, strname);
    let mut xy_data: Vec<u8> = Vec::new();
    write_int4(&mut xy_data, x);
    write_int4(&mut xy_data, y);
    write_record(buf, XY, INT4, xy_data.as_slice());
    write_record(buf, END_EL, NO_DATA, &[]);
}

/// The distinct layers of the vias, in order of first appearance.
fn distinct_layers(patterns: &Vec<ViaPattern>) -> (res: Vec<u32>)
    ensures
        res@ == layers_of(patterns@),
{
    let mut layers: Vec<u32> = Vec::new();
    let mut i: usize = 0;
    while i < patterns.len()
        invariant
            i <= patterns@.len(),
            layers@ == layers_of(patterns@.take(i as int)),
        decreases patterns@.len() - i,
    {
        let layer = patterns[i].layer;
        let mut seen = false;
        let mut j: usize = 0;
        while j < layers.len()
            invariant
                j <= layers@.len(),
                seen == exists|q: int| 0 <= q < j && layers@[q] == layer,
            decreases layers@.len() - j,
        {
            if layers[j] == layer {
                seen = true;
            }
            j += 1;
        }
        proof {
            assert(patterns@.take(i + 1).drop_last() =~= patterns@.take(i as int));
            assert(seen == layers@.contains(layer));
        }
        if !seen {
            layers.push(layer);
        }
        i += 1;
    }
    assert(patterns@.take(patterns@.len() as int) =~= patterns@);
    layers
}

/// Generate binary GDSII from via patterns
pub fn generate_gdsii(output: &GDSIIOutput) -> (res: Vec<u8>)
    requires
        forall|i: int| 0 <= i < output.patterns@.len() ==> box_fits(#[trigger] output.patterns@[i]),
    ensures
        res@ == gdsii_bytes(output.patterns@),
{
    let ghost ps = output.patterns@;
    let mut buf: Vec<u8> = Vec::new();
    // Library header
    write_record(&mut buf, HEADER, INT2, vec![0u8, 0x03, 0x00, 0x00].as_slice());
    // bgnlib: 1980-01-01 00:00:00 mod/acc time
    let zeros: Vec<u8> = vec![0u8, 0, 0, 0, 0, 0, 0, 0];
    write_record(&mut buf, BGN_LIB, NO_DATA, zeros.as_slice());
    let lib_name: Vec<u8> = vec![103u8, 117, 97, 114, 100, 50, 109, 97, 115, 107, 95, 108, 105, 98, 0];
    write_record(&mut buf, LIB_NAME, STRING, lib_name.as_slice());
    // Units: 1e-6 database units per meter, 1e-9 user units per meter (GDSII reals)
    let units_data: Vec<u8> = vec![
        0x3cu8, 0x10, 0xc6, 0xf7, 0xa0, 0xb5, 0xed, 0x8d,
        0x39, 0x44, 0xb8, 0x2f, 0xa0, 0x9b, 0x5a, 0x54,
    ];
    write_record(&mut buf, UNITS, REAL8, units_data.as_slice());
    proof {
        assert(zeros@ =~= zero8());
        assert(lib_name@ =~= lib_name_bytes());
        assert(units_data@ =~= units_bytes());
    }
    let ghost head = buf@;

    // Group vias by layer, in order of first appearance
    let layers = distinct_layers(&output.patterns);

    // For each layer, create a structure with the boundary boxes
    let mut li: usize = 0;
    while li < layers.len()
        invariant
            li <= layers@.len(),
            layers@ == layers_of(ps),
            ps == output.patterns@,
            zeros@ == zero8(),
            forall|i: int| 0 <= i < ps.len() ==> box_fits(#[trigger] ps[i]),
            buf@ == head + layer_structures(ps, layers@.take(li as int)),
        decreases layers@.len() - li,
    {
        let layer = layers[li];
        // Structure: VIA_LAYER_<N>
        let str_name = layer_name_of(layer);
        let ghost start = buf@;
        write_record(&mut buf, BGN_STR, NO_DATA, zeros.as_slice());
        write_record(&mut buf, STR_NAME, STRING, str_name.as_slice());
        let ghost boxes_start = buf@;
        let mut pi: usize = 0;
        while pi < output.patterns.len()
            invariant
                pi <= ps.len(),
                ps == output.patterns@,
                forall|i: int| 0 <= i < ps.len() ==> box_fits(#[trigger] ps[i]),
                buf@ == boxes_start + layer_boxes(ps.take(pi as int), layer),
            decreases ps.len() - pi,
        {
            let p = &output.patterns[pi];
            proof {
                assert(ps.take(pi + 1).drop_last() =~= ps.take(pi as int));
                assert(box_fits(ps[pi as int]));
            }
            if p.layer == layer {
                write_boundary_box(&mut buf, p);
            }
            assert(buf@ =~= boxes_start + layer_boxes(ps.take(pi + 1), layer));
            pi += 1;
        }
        write_record(&mut buf, END_STR, NO_DATA, Vec::new().as_slice());
        proof {
            assert(ps.take(ps.len() as int) =~= ps);
            assert(layers@.take(li + 1).drop_last() =~= layers@.take(li as int));
            assert(buf@ =~= head + layer_structures(ps, layers@.take(li + 1)));
        }
        li += 1;
    }
    assert(layers@.take(layers@.len() as int) =~= layers@);
    let ghost structs = buf@;

    // Top-level structure placing all layer structures
    write_record(&mut buf, BGN_STR, NO_DATA, zeros.as_slice());
    let top_name: Vec<u8> = vec![84u8, 79, 80, 0];
    write_record(&mut buf, STR_NAME, STRING, top_name.as_slice());
    proof {
        assert(top_name@ =~= top_name_bytes());
    }
    let ghost top_start = buf@;
    li = 0;
    while li < layers.len()
        invariant
            li <= layers@.len(),
            buf@ == top_start + layer_srefs(layers@.take(li as int)),
        decreases layers@.len() - li,
    {
        let str_name = layer_name_of(layers[li]);
        write_sref(&mut buf, str_name.as_slice(), 0, 0);
        proof {
            assert(layers@.take(li + 1).drop_last() =~= layers@.take(li as int));
            assert(buf@ =~= top_start + layer_srefs(layers@.take(li + 1)));
        }
        li += 1;
    }
    assert(layers@.take(layers@.len() as int) =~= layers@);
    write_record(&mut buf, END_STR, NO_DATA, Vec::new().as_slice());

    // End library
    write_record(&mut buf, END_LIB, NO_DATA, Vec::new().as_slice());
    proof {
        assert(buf@ =~= gdsii_bytes(ps));
    }
    buf
}

/// The summary line of via `i`.
pub open spec fn via_line(i: nat, p: ViaPattern) -> Seq<char> {
    "  Via "@ + digits(i) + ": layer="@ + digits(p.layer as nat) + ", pos=("@ + int_text(p.x as int)
        + ","@ + int_text(p.y as int) + "), size="@ + digits(p.width as nat) + "x"@ + digits(
        p.height as nat,
    ) + "\n"@
}

/// The summary lines of the vias, numbered from zero.
pub open spec fn via_lines(ps: Seq<ViaPattern>) -> Seq<char>
    decreases ps.len(),
{
    if ps.len() == 0 {
        seq![]
    } else {
        via_lines(ps.drop_last()) + via_line((ps.len() - 1) as nat, ps.last())
    }
}

/// The summary lines of the metadata entries.
pub open spec fn metadata_lines(m: Seq<(Seq<char>, Seq<char>)>) -> Seq<char>
    decreases m.len(),
{
    if m.len() == 0 {
        seq![]
    } else {
        metadata_lines(m.drop_last()) + "  "@ + m.last().0 + ": "@ + m.last().1 + "\n"@
    }
}

/// The human-readable summary of a GDSII output.
pub open spec fn summary_text(ps: Seq<ViaPattern>, m: Seq<(Seq<char>, Seq<char>)>) -> Seq<char> {
    "=== GDSII Layout Summary ===\n"@ + "Total vias: "@ + digits(ps.len()) + "\n"@ + via_lines(ps) + if m.len()
        > 0 {
        "Metadata:\n"@ + metadata_lines(m)
    } else {
        seq![]
    }
}

/// The summary line of via `i`.
fn via_line_text(i: usize, p: &ViaPattern) -> (res: String)
    ensures
        res@ == via_line(i as nat, *p),
{
    let mut s = String::from_str("  Via ");
    s.append(u64_to_string(i as u64).as_str());
    s.append(": layer=");
    s.append(u64_to_string(p.layer as u64).as_str());
    s.append(", pos=(");
    s.append(i64_to_string(p.x).as_str());
    s.append(",");
    s.append(i64_to_string(p.y).as_str());
    s.append("), size=");
    s.append(u64_to_string(p.width).as_str());
    s.append("x");
    s.append(u64_to_string(p.height).as_str());
    s.append("\n");
    assert(s@ =~= via_line(i as nat, *p));
    s
}

/// Get a human-readable summary of a GDSII output
pub fn format_gdsii_summary(output: &GDSIIOutput) -> (res: String)
    ensures
        res@ == summary_text(output.patterns@, output.metadata@),
{
    let mut s = String::new();
    s.append("=== GDSII Layout Summary ===\n");
    s.append("Total vias: ");
    s.append(u64_to_string(output.patterns.len() as u64).as_str());
    s.append("\n");
    let ghost head = s@;
    let mut i: usize = 0;
    while i < output.patterns.len()
        invariant
            i <= output.patterns@.len(),
            s@ == head + via_lines(output.patterns@.take(i as int)),
        decreases output.patterns@.len() - i,
    {
        let line = via_line_text(i, &output.patterns[i]);
        s.append(line.as_str());
        proof {
            assert(output.patterns@.take(i + 1).drop_last() =~= output.patterns@.take(i as int));
            assert(s@ =~= head + via_lines(output.patterns@.take(i + 1)));
        }
        i += 1;
    }
    assert(output.patterns@.take(output.patterns@.len() as int) =~= output.patterns@);
    let ghost body = s@;
    if !output.metadata.is_empty() {
        s.append("Metadata:\n");
        let entries = output.metadata.entries();
        let ghost start = s@;
        let mut k: usize = 0;
        while k < entries.len()
            invariant
                k <= entries@.len(),
                entries@.len() == output.metadata@.len(),
                forall|q: int|
                    0 <= q < entries@.len() ==> (#[trigger] entries@[q]).0@ == output.metadata@[q].0
                        && entries@[q].1@ == output.metadata@[q].1,
                s@ == start + metadata_lines(output.metadata@.take(k as int)),
            decreases entries@.len() - k,
        {
            s.append("  ");
            s.append(entries[k].0.as_str());
            s.append(": ");
            s.append(entries[k].1.as_str());
            s.append("\n");
            proof {
                assert(output.metadata@.take(k + 1).drop_last() =~= output.metadata@.take(k as int));
                assert(s@ =~= start + metadata_lines(output.metadata@.take(k + 1)));
            }
            k += 1;
        }
        assert(output.metadata@.take(output.metadata@.len() as int) =~= output.metadata@);
    }
    assert(s@ =~= summary_text(output.patterns@, output.metadata@));
    s
}

} // verus!
