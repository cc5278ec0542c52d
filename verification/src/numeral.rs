//! Numerals of the GUARD checks: `0x3F`, `15000`, `-12`, `2.5`, `1e3`, `inf`, `nan`.
//!
//! A hexadecimal numeral is read as Rust's `u64::from_str_radix(_, 16)` reads
//! it; any other numeral as Rust reads a decimal floating-point literal
//! (`f64::from_str`), kept exactly as a `Number`: its sign, its integer part
//! (saturated) and whether a nonzero fractional part follows.

use vstd::prelude::*;
use crate::number::{pow10, Number};
use crate::scan::{starts_with, trim, starts_with_at, trim_at, string_at};
use crate::text::chars_of;

verus! {

/// `c` is a decimal digit.
pub open spec fn is_digit(c: char) -> bool {
    48 <= c as u32 <= 57
}

/// The value of the decimal digit `c`.
pub open spec fn digit_val(c: char) -> nat {
    (c as u32 - 48) as nat
}

/// `c` is a hexadecimal digit.
pub open spec fn is_hex(c: char) -> bool {
    is_digit(c) || (97 <= c as u32 <= 102) || (65 <= c as u32 <= 70)
}

/// The value of the hexadecimal digit `c`.
pub open spec fn hex_digit_val(c: char) -> nat {
    let u = c as u32;
    if u <= 57 {
        (u - 48) as nat
    } else if u >= 97 {
        (u - 87) as nat
    } else {
        (u - 55) as nat
    }
}

/// The value of the decimal digits `s`.
pub open spec fn dec_val(s: Seq<char>) -> nat
    decreases s.len(),
{
    if s.len() == 0 {
        0
    } else {
        dec_val(s.drop_last()) * 10 + digit_val(s.last())
    }
}

/// The value of the hexadecimal digits `s`.
pub open spec fn hex_val(s: Seq<char>) -> nat
    decreases s.len(),
{
    if s.len() == 0 {
        0
    } else {
        hex_val(s.drop_last()) * 16 + hex_digit_val(s.last())
    }
}

/// Every character of `s` is a hexadecimal digit.
pub open spec fn all_hex(s: Seq<char>) -> bool {
    forall|i: int| 0 <= i < s.len() ==> is_hex(#[trigger] s[i])
}

/// The number of decimal digits `s` starts with.
pub open spec fn lead_digits(s: Seq<char>) -> nat
    decreases s.len(),
{
    if s.len() > 0 && is_digit(s[0]) {
        1 + lead_digits(s.drop_first())
    } else {
        0
    }
}

/// `x`, saturated at `u64::MAX`.
pub open spec fn sat(x: nat) -> u64 {
    if x > u64::MAX {
        u64::MAX
    } else {
        x as u64
    }
}

/// `k` zero digits.
pub open spec fn zeros(k: nat) -> Seq<char> {
    Seq::new(k, |i: int| '0')
}

/// The digits before the decimal point when the point stands after the
/// first `p` digits of `d` (padded with zeros when `p` is past the end).
pub open spec fn int_digits(d: Seq<char>, p: int) -> Seq<char> {
    if p <= 0 {
        seq![]
    } else if p <= d.len() {
        d.take(p)
    } else {
        d + zeros((p - d.len()) as nat)
    }
}

/// Some digit after the decimal point is nonzero.
pub open spec fn frac_nonzero(d: Seq<char>, p: int) -> bool {
    exists|i: int| 0 <= i < d.len() && i >= p && #[trigger] d[i] != '0'
}

/// The number with sign `neg` whose decimal digits are `d`, the point
/// standing after the first `p` of them.
pub open spec fn number_at_point(neg: bool, d: Seq<char>, p: int) -> Number {
    Number {
        negative: neg,
        whole: sat(dec_val(int_digits(d, p))),
        fractional: frac_nonzero(d, p),
        nan: false,
    }
}

/// `s` without the copies of `p` it starts with (`str::trim_start_matches`).
pub open spec fn strip_prefix_all(s: Seq<char>, p: Seq<char>) -> Seq<char>
    decreases s.len(),
{
    if p.len() > 0 && starts_with(s, p) {
        strip_prefix_all(s.skip(p.len() as int), p)
    } else {
        s
    }
}

/// The digits of a hexadecimal numeral `t` that starts with `0x` or `0X`.
pub open spec fn hex_body(t: Seq<char>) -> Seq<char> {
    strip_prefix_all(strip_prefix_all(t, "0x"@), "0X"@)
}

/// `u64::from_str_radix(h, 16)`: an optional `+`, then hexadecimal digits
/// whose value fits in 64 bits.
pub open spec fn hex_number(h: Seq<char>) -> Option<u64> {
    let d = if h.len() >= 2 && h[0] == '+' {
        h.drop_first()
    } else {
        h
    };
    if d.len() >= 1 && all_hex(d) && hex_val(d) <= u64::MAX {
        Some(hex_val(d) as u64)
    } else {
        None
    }
}

/// 1 if `t` starts with a sign, else 0.
pub open spec fn sign_len(t: Seq<char>) -> int {
    if t.len() > 0 && (t[0] == '+' || t[0] == '-') {
        1
    } else {
        0
    }
}

/// The exponent written by `r`, the text after the digits of a numeral:
/// nothing (0), or `e`/`E`, an optional sign and at least one digit.
pub open spec fn exponent_of(r: Seq<char>) -> Option<int> {
    if r.len() == 0 {
        Some(0)
    } else if r[0] == 'e' || r[0] == 'E' {
        let r3 = r.drop_first();
        let sl = sign_len(r3);
        let ed = r3.skip(sl);
        if ed.len() >= 1 && lead_digits(ed) == ed.len() {
            Some(
                if sl == 1 && r3[0] == '-' {
                    -(dec_val(ed) as int)
                } else {
                    dec_val(ed) as int
                },
            )
        } else {
            None
        }
    } else {
        None
    }
}

/// The unsigned decimal numeral `b`: digits, an optional point with digits,
/// at least one digit in all, and an optional exponent.
pub open spec fn decimal_number(b: Seq<char>, neg: bool) -> Option<Number> {
    let a = lead_digits(b);
    let r1 = b.skip(a as int);
    let has_point = r1.len() > 0 && r1[0] == '.';
    let f = if has_point {
        lead_digits(r1.drop_first())
    } else {
        0
    };
    let frac = if has_point {
        r1.subrange(1, 1 + f as int)
    } else {
        seq![]
    };
    let r2 = if has_point {
        r1.skip(1 + f as int)
    } else {
        r1
    };
    if a + f == 0 {
        None
    } else {
        match exponent_of(r2) {
            None => None,
            Some(e) => Some(number_at_point(neg, b.take(a as int) + frac, a + e)),
        }
    }
}

/// The code of `c` with ASCII upper case letters lowered.
pub open spec fn lower_code(c: char) -> u32 {
    if 65 <= c as u32 <= 90 {
        (c as u32 + 32) as u32
    } else {
        c as u32
    }
}

/// `s` equals the lower case `p` but for the case of ASCII letters.
pub open spec fn eq_ignore_case(s: Seq<char>, p: Seq<char>) -> bool {
    s.len() == p.len() && forall|i: int| 0 <= i < s.len() ==> lower_code(#[trigger] s[i]) == p[i] as u32
}

/// `f64::from_str(t)` as a `Number`: an optional sign, then a decimal
/// numeral, or `inf`, `infinity` or `nan` in any case.
pub open spec fn float_number(t: Seq<char>) -> Option<Number> {
    let sl = sign_len(t);
    let neg = sl == 1 && t[0] == '-';
    let b = t.skip(sl);
    if b.len() == 0 {
        None
    } else {
        match decimal_number(b, neg) {
            Some(n) => Some(n),
            None => if eq_ignore_case(b, "inf"@) || eq_ignore_case(b, "infinity"@) {
                Some(Number { negative: neg, whole: u64::MAX, fractional: false, nan: false })
            } else if eq_ignore_case(b, "nan"@) {
                Some(Number { negative: neg, whole: 0, fractional: false, nan: true })
            } else {
                None
            },
        }
    }
}

/// The numeral `s` of a check, or the message that rejects it.
pub open spec fn number_spec(s: Seq<char>) -> Result<Number, Seq<char>> {
    let t = trim(s);
    if starts_with(t, "0x"@) || starts_with(t, "0X"@) {
        match hex_number(hex_body(t)) {
            Some(v) => Ok(Number { negative: false, whole: v, fractional: false, nan: false }),
            None => Err("Invalid hex: "@ + t),
        }
    } else {
        match float_number(t) {
            Some(n) => Ok(n),
            None => Err("Invalid number: "@ + t),
        }
    }
}

/// Exponents past this magnitude give the same number as the bound itself.
pub const EXP_CAP: u128 = 1267650600228229401496703205376;

/// `e` clamped to `-EXP_CAP..=EXP_CAP`.
pub open spec fn clamp_exp(e: int) -> int {
    if e > EXP_CAP {
        EXP_CAP as int
    } else if e < -EXP_CAP {
        -EXP_CAP
    } else {
        e
    }
}

/// `10^j <= 10^k` for `j <= k`.
pub proof fn lemma_pow10_mono(j: nat, k: nat)
    requires
        j <= k,
    ensures
        pow10(j) <= pow10(k),
    decreases k,
{
    if j < k {
        lemma_pow10_mono(j, (k - 1) as nat);
    }
}

/// `10^20`, past `u64::MAX`.
pub proof fn lemma_pow10_20()
    ensures
        pow10(20) == 100000000000000000000,
{
    reveal_with_fuel(pow10, 21);
}

/// Zeros appended to digits of value zero keep the value zero.
pub proof fn lemma_zeros_of_zero(s: Seq<char>, k: nat)
    requires
        dec_val(s) == 0,
    ensures
        dec_val(s + zeros(k)) == 0,
    decreases k,
{
    if k > 0 {
        lemma_zeros_of_zero(s, (k - 1) as nat);
        assert((s + zeros(k)).drop_last() =~= s + zeros((k - 1) as nat));
    } else {
        assert(s + zeros(0) =~= s);
    }
}

/// `k` zeros appended to digits of nonzero value give at least `10^k`.
pub proof fn lemma_zeros_grow(s: Seq<char>, k: nat)
    requires
        dec_val(s) >= 1,
    ensures
        dec_val(s + zeros(k)) >= pow10(k),
    decreases k,
{
    if k > 0 {
        lemma_zeros_grow(s, (k - 1) as nat);
        assert((s + zeros(k)).drop_last() =~= s + zeros((k - 1) as nat));
    } else {
        assert(s + zeros(0) =~= s);
    }
}

/// The decimal point far past the digits: both placements give the same number.
pub proof fn lemma_point_far(neg: bool, d: Seq<char>, p: int, q: int)
    requires
        p >= d.len() + 20,
        q >= d.len() + 20,
    ensures
        number_at_point(neg, d, p) == number_at_point(neg, d, q),
{
    assert(!frac_nonzero(d, p));
    assert(!frac_nonzero(d, q));
    let kp = (p - d.len()) as nat;
    let kq = (q - d.len()) as nat;
    if dec_val(d) == 0 {
        lemma_zeros_of_zero(d, kp);
        lemma_zeros_of_zero(d, kq);
    } else {
        lemma_zeros_grow(d, kp);
        lemma_zeros_grow(d, kq);
        lemma_pow10_mono(20, kp);
        lemma_pow10_mono(20, kq);
        lemma_pow10_20();
    }
}

/// The decimal point before all the digits: both placements give the same number.
pub proof fn lemma_point_before(neg: bool, d: Seq<char>, p: int, q: int)
    requires
        p <= 0,
        q <= 0,
    ensures
        number_at_point(neg, d, p) == number_at_point(neg, d, q),
{
    if frac_nonzero(d, p) {
        let i = choose|i: int| 0 <= i < d.len() && i >= p && #[trigger] d[i] != '0';
        assert(0 <= i < d.len() && i >= q && d[i] != '0');
    }
    if frac_nonzero(d, q) {
        let i = choose|i: int| 0 <= i < d.len() && i >= q && #[trigger] d[i] != '0';
        assert(0 <= i < d.len() && i >= p && d[i] != '0');
    }
}

/// Clamping the exponent does not change the number.
pub proof fn lemma_clamp_exp(neg: bool, d: Seq<char>, a: int, e: int)
    requires
        0 <= a <= d.len() <= u64::MAX,
    ensures
        number_at_point(neg, d, a + e) == number_at_point(neg, d, a + clamp_exp(e)),
{
    if e > EXP_CAP {
        lemma_point_far(neg, d, a + e, a + clamp_exp(e));
    } else if e < -EXP_CAP {
        lemma_point_before(neg, d, a + e, a + clamp_exp(e));
    }
}

/// `hex_val` of a prefix is at most `hex_val` of the whole.
pub proof fn lemma_hex_val_prefix(s: Seq<char>, k: int)
    requires
        0 <= k <= s.len(),
    ensures
        hex_val(s.take(k)) <= hex_val(s),
    decreases s.len(),
{
    if k < s.len() {
        lemma_hex_val_prefix(s.drop_last(), k);
        assert(s.drop_last().take(k) =~= s.take(k));
    } else {
        assert(s.take(k) =~= s);
    }
}

/// The value of the hexadecimal digit `c`, if it is one.
fn hex_digit(c: char) -> (r: Option<u64>)
    ensures
        match r {
            Some(v) => is_hex(c) && v == hex_digit_val(c) && v < 16,
            None => !is_hex(c),
        },
{
    let u = c as u32;
    if 48 <= u && u <= 57 {
        Some((u - 48) as u64)
    } else if 97 <= u && u <= 102 {
        Some((u - 87) as u64)
    } else if 65 <= u && u <= 70 {
        Some((u - 55) as u64)
    } else {
        None
    }
}

/// The end of the run of decimal digits that starts at `lo`.
pub fn lead_digits_at(s: &Vec<char>, lo: usize, hi: usize) -> (r: usize)
    requires
        lo <= hi <= s@.len(),
    ensures
        lo <= r <= hi,
        r - lo == lead_digits(s@.subrange(lo as int, hi as int)),
        forall|j: int| lo <= j < r ==> is_digit(#[trigger] s@[j]),
{
    let mut i = lo;
    while i < hi && 48 <= s[i] as u32 && s[i] as u32 <= 57
        invariant
            lo <= i <= hi,
            hi <= s@.len(),
            lead_digits(s@.subrange(lo as int, hi as int)) == (i - lo) + lead_digits(
                s@.subrange(i as int, hi as int),
            ),
            forall|j: int| lo <= j < i ==> is_digit(#[trigger] s@[j]),
        decreases hi - i,
    {
        assert(s@.subrange(i as int, hi as int).drop_first() =~= s@.subrange(i + 1, hi as int));
        i += 1;
    }
    i
}

/// `u64::from_str_radix(s[lo..hi], 16)`, as `hex_number` states it.
fn hex_at(s: &Vec<char>, lo: usize, hi: usize) -> (r: Option<u64>)
    requires
        lo <= hi <= s@.len(),
    ensures
        r == hex_number(s@.subrange(lo as int, hi as int)),
{
    let ghost h = s@.subrange(lo as int, hi as int);
    let mut i = lo;
    if hi - lo >= 2 && s[lo] == '+' {
        i = lo + 1;
    }
    let ghost d = s@.subrange(i as int, hi as int);
    proof {
        if hi - lo >= 2 && s@[lo as int] == '+' {
            assert(d =~= h.drop_first());
        } else {
            assert(d =~= h);
        }
    }
    if i == hi {
        assert(hex_number(h) is None);
        return None;
    }
    let start = i;
    let mut acc: u64 = 0;
    assert(hex_number(h) == (if d.len() >= 1 && all_hex(d) && hex_val(d) <= u64::MAX {
        Some(hex_val(d) as u64)
    } else {
        None
    }));
    while i < hi
        invariant
            hex_number(h) == (if d.len() >= 1 && all_hex(d) && hex_val(d) <= u64::MAX {
                Some(hex_val(d) as u64)
            } else {
                None
            }),
            start <= i <= hi,
            hi <= s@.len(),
            h == s@.subrange(lo as int, hi as int),
            d == s@.subrange(start as int, hi as int),
            all_hex(s@.subrange(start as int, i as int)),
            acc as nat == hex_val(s@.subrange(start as int, i as int)),
        decreases hi - i,
    {
        assert(s@.subrange(start as int, i + 1).drop_last() =~= s@.subrange(start as int, i as int));
        match hex_digit(s[i]) {
            None => {
                assert(!all_hex(d)) by {
                    assert(d[i - start] == s@[i as int]);
                }
                assert(hex_number(h) is None);
                return None;
            },
            Some(v) => {
                proof {
                    let x = s@.subrange(start as int, i + 1);
                    assert(x.last() == s@[i as int]);
                    assert(hex_val(x) == acc * 16 + v);
                }
                if acc > (u64::MAX - v) / 16 {
                    proof {
                        assert(d.take(i + 1 - start) =~= s@.subrange(start as int, i + 1));
                        lemma_hex_val_prefix(d, i + 1 - start);
                        assert(hex_val(d) > u64::MAX);
                    }
                    assert(hex_number(h) is None);
                    return None;
                }
                acc = acc * 16 + v;
            },
        }
        proof {
            assert forall|j: int| 0 <= j < i + 1 - start implies is_hex(
                #[trigger] s@.subrange(start as int, i + 1)[j],
            ) by {
                if j < i - start {
                    assert(s@.subrange(start as int, i + 1)[j] == s@.subrange(
                        start as int,
                        i as int,
                    )[j]);
                }
            }
        }
        i += 1;
    }
    assert(s@.subrange(start as int, hi as int) =~= d);
    Some(acc)
}

/// `sat(10 x + d)` from `sat(x)`.
fn sat_push10(acc: u64, dv: u64) -> (r: u64)
    requires
        dv < 10,
    ensures
        r == sat((acc * 10 + dv) as nat),
{
    if acc > 1844674407370955161 {
        u64::MAX
    } else {
        let t = acc * 10;
        if t > u64::MAX - dv {
            u64::MAX
        } else {
            t + dv
        }
    }
}

/// The value of the decimal digits `s[lo..hi]`, saturated.
fn dec_at(s: &Vec<char>, lo: usize, hi: usize) -> (r: u64)
    requires
        lo <= hi <= s@.len(),
        forall|j: int| lo <= j < hi ==> is_digit(#[trigger] s@[j]),
    ensures
        r == sat(dec_val(s@.subrange(lo as int, hi as int))),
{
    let mut acc: u64 = 0;
    let mut i = lo;
    while i < hi
        invariant
            lo <= i <= hi,
            hi <= s@.len(),
            forall|j: int| lo <= j < hi ==> is_digit(#[trigger] s@[j]),
            acc == sat(dec_val(s@.subrange(lo as int, i as int))),
        decreases hi - i,
    {
        assert(s@.subrange(lo as int, i + 1).drop_last() =~= s@.subrange(lo as int, i as int));
        assert(is_digit(s@[i as int]));
        let dv = (s[i] as u32 - 48) as u64;
        acc = sat_push10(acc, dv);
        i += 1;
    }
    acc
}

/// The value of the decimal digits `s[lo..hi]`, capped at `EXP_CAP`.
fn dec_capped_at(s: &Vec<char>, lo: usize, hi: usize) -> (r: u128)
    requires
        lo <= hi <= s@.len(),
        forall|j: int| lo <= j < hi ==> is_digit(#[trigger] s@[j]),
    ensures
        r == (if dec_val(s@.subrange(lo as int, hi as int)) > EXP_CAP {
            EXP_CAP as nat
        } else {
            dec_val(s@.subrange(lo as int, hi as int))
        }),
{
    let mut acc: u128 = 0;
    let mut i = lo;
    while i < hi
        invariant
            lo <= i <= hi,
            hi <= s@.len(),
            forall|j: int| lo <= j < hi ==> is_digit(#[trigger] s@[j]),
            acc == (if dec_val(s@.subrange(lo as int, i as int)) > EXP_CAP {
                EXP_CAP as nat
            } else {
                dec_val(s@.subrange(lo as int, i as int))
            }),
        decreases hi - i,
    {
        assert(s@.subrange(lo as int, i + 1).drop_last() =~= s@.subrange(lo as int, i as int));
        assert(is_digit(s@[i as int]));
        let dv = (s[i] as u32 - 48) as u128;
        let t = acc * 10 + dv;
        acc = if t > EXP_CAP {
            EXP_CAP
        } else {
            t
        };
        i += 1;
    }
    acc
}

/// The exponent written by `s[lo..hi]`, clamped, as `exponent_of` states it.
fn exponent_at(s: &Vec<char>, lo: usize, hi: usize) -> (r: Option<i128>)
    requires
        lo <= hi <= s@.len(),
    ensures
        match exponent_of(s@.subrange(lo as int, hi as int)) {
            None => r is None,
            Some(e) => r == Some(clamp_exp(e) as i128),
        },
{
    let ghost t = s@.subrange(lo as int, hi as int);
    if lo == hi {
        return Some(0);
    }
    if !(s[lo] == 'e' || s[lo] == 'E') {
        return None;
    }
    let mut j = lo + 1;
    let mut eneg = false;
    if j < hi && (s[j] == '+' || s[j] == '-') {
        eneg = s[j] == '-';
        j += 1;
    }
    proof {
        let r3 = t.drop_first();
        assert(r3 =~= s@.subrange(lo + 1, hi as int));
        assert(r3.skip(sign_len(r3)) =~= s@.subrange(j as int, hi as int));
    }
    let k = lead_digits_at(s, j, hi);
    if k == j || k != hi {
        return None;
    }
    let m = dec_capped_at(s, j, hi);
    if eneg {
        Some(-(m as i128))
    } else {
        Some(m as i128)
    }
}

/// `s[lo..hi]` equals the lower case `p` but for the case of ASCII letters.
fn eq_ignore_case_at(s: &Vec<char>, lo: usize, hi: usize, p: &Vec<char>) -> (res: bool)
    requires
        lo <= hi <= s@.len(),
    ensures
        res == eq_ignore_case(s@.subrange(lo as int, hi as int), p@),
{
    if hi - lo != p.len() {
        return false;
    }
    let mut k: usize = 0;
    while k < p.len()
        invariant
            k <= p@.len(),
            hi - lo == p@.len(),
            hi <= s@.len(),
            forall|q: int| 0 <= q < k ==> lower_code(#[trigger] s@[lo + q]) == p@[q] as u32,
        decreases p@.len() - k,
    {
        let u = s[lo + k] as u32;
        let lu = if 65 <= u && u <= 90 {
            u + 32
        } else {
            u
        };
        let same = lu == p[k] as u32;
        if !same {
            assert(s@.subrange(lo as int, hi as int)[k as int] == s@[lo + k]);
            return false;
        }
        k += 1;
    }
    assert forall|i: int| 0 <= i < hi - lo implies lower_code(
        #[trigger] s@.subrange(lo as int, hi as int)[i],
    ) == p@[i] as u32 by {
        assert(s@.subrange(lo as int, hi as int)[i] == s@[lo + i]);
    }
    true
}

/// The number whose decimal digits are `d`, the point standing after the
/// first `p` of them.
fn number_from_digits(d: &Vec<char>, p: i128, neg: bool) -> (r: Number)
    requires
        forall|j: int| 0 <= j < d@.len() ==> is_digit(#[trigger] d@[j]),
    ensures
        r == number_at_point(neg, d@, p as int),
{
    let len = d.len();
    let start: usize = if p <= 0 {
        0
    } else if p >= len as i128 {
        len
    } else {
        p as usize
    };
    let mut frac = false;
    let mut i = start;
    while i < len
        invariant
            start <= i <= len,
            len == d@.len(),
            start == (if p <= 0 {
                0
            } else if p >= len {
                len as int
            } else {
                p as int
            }),
            frac == exists|j: int| start <= j < i && #[trigger] d@[j] != '0',
        decreases len - i,
    {
        if d[i] != '0' {
            frac = true;
        }
        i += 1;
    }
    assert(frac == frac_nonzero(d@, p as int));
    let whole: u64 = if p <= 0 {
        assert(int_digits(d@, p as int) =~= seq![]);
        0
    } else if p <= len as i128 {
        let w = dec_at(d, 0, p as usize);
        assert(d@.subrange(0, p as int) =~= int_digits(d@, p as int));
        w
    } else {
        let acc = dec_at(d, 0, len);
        assert(d@.subrange(0, len as int) =~= d@);
        let k = p - len as i128;
        if acc == 0 {
            proof {
                lemma_zeros_of_zero(d@, k as nat);
            }
            0
        } else if k >= 20 {
            proof {
                lemma_zeros_grow(d@, k as nat);
                lemma_pow10_mono(20, k as nat);
                lemma_pow10_20();
            }
            u64::MAX
        } else {
            let kk = k as usize;
            let mut w = acc;
            let mut j: usize = 0;
            proof {
                assert(d@ + zeros(0) =~= d@);
            }
            while j < kk
                invariant
                    j <= kk,
                    w == sat(dec_val(d@ + zeros(j as nat))),
                decreases kk - j,
            {
                assert((d@ + zeros((j + 1) as nat)).drop_last() =~= d@ + zeros(j as nat));
                w = sat_push10(w, 0);
                j += 1;
            }
            w
        }
    };
    Number { negative: neg, whole, fractional: frac, nan: false }
}

/// `f64::from_str(s[lo..hi])` as a `Number`, as `float_number` states it.
fn float_at(s: &Vec<char>, lo: usize, hi: usize) -> (r: Option<Number>)
    requires
        lo <= hi <= s@.len(),
    ensures
        r == float_number(s@.subrange(lo as int, hi as int)),
{
    let ghost t = s@.subrange(lo as int, hi as int);
    let mut b0 = lo;
    let mut neg = false;
    if lo < hi && (s[lo] == '+' || s[lo] == '-') {
        neg = s[lo] == '-';
        b0 = lo + 1;
    }
    let ghost b = t.skip(sign_len(t));
    assert(b =~= s@.subrange(b0 as int, hi as int));
    if b0 == hi {
        return None;
    }
    let dec = decimal_at(s, b0, hi, neg);
    match dec {
        Some(n) => Some(n),
        None => {
            let inf = chars_of("inf");
            let infinity = chars_of("infinity");
            let nan = chars_of("nan");
            proof {
                reveal_strlit("inf");
                reveal_strlit("infinity");
                reveal_strlit("nan");
            }
            if eq_ignore_case_at(s, b0, hi, &inf) || eq_ignore_case_at(s, b0, hi, &infinity) {
                Some(Number { negative: neg, whole: u64::MAX, fractional: false, nan: false })
            } else if eq_ignore_case_at(s, b0, hi, &nan) {
                Some(Number { negative: neg, whole: 0, fractional: false, nan: true })
            } else {
                None
            }
        },
    }
}

/// The digits `s[lo..a_end]` followed by the digits `s[f_lo..f_hi]`.
fn join_digits(s: &Vec<char>, lo: usize, a_end: usize, f_lo: usize, f_hi: usize) -> (d: Vec<char>)
    requires
        lo <= a_end <= s@.len(),
        f_lo <= f_hi <= s@.len(),
        forall|j: int| lo <= j < a_end ==> is_digit(#[trigger] s@[j]),
        forall|j: int| f_lo <= j < f_hi ==> is_digit(#[trigger] s@[j]),
    ensures
        d@ == s@.subrange(lo as int, a_end as int) + s@.subrange(f_lo as int, f_hi as int),
        forall|j: int| 0 <= j < d@.len() ==> is_digit(#[trigger] d@[j]),
{
    let mut d: Vec<char> = Vec::new();
    let mut i = lo;
    while i < a_end
        invariant
            lo <= i <= a_end,
            a_end <= s@.len(),
            d@ == s@.subrange(lo as int, i as int),
        decreases a_end - i,
    {
        d.push(s[i]);
        assert(d@ =~= s@.subrange(lo as int, i + 1));
        i += 1;
    }
    let mut i = f_lo;
    while i < f_hi
        invariant
            f_lo <= i <= f_hi,
            f_hi <= s@.len(),
            d@ == s@.subrange(lo as int, a_end as int) + s@.subrange(f_lo as int, i as int),
        decreases f_hi - i,
    {
        d.push(s[i]);
        assert(d@ =~= s@.subrange(lo as int, a_end as int) + s@.subrange(f_lo as int, i + 1));
        i += 1;
    }
    assert forall|j: int| 0 <= j < d@.len() implies is_digit(#[trigger] d@[j]) by {
        if j < a_end - lo {
            assert(d@[j] == s@[lo + j]);
        } else {
            assert(d@[j] == s@[f_lo + (j - (a_end - lo))]);
        }
    }
    d
}

/// The unsigned decimal numeral `s[lo..hi]`, as `decimal_number` states it.
fn decimal_at(s: &Vec<char>, lo: usize, hi: usize, neg: bool) -> (r: Option<Number>)
    requires
        lo <= hi <= s@.len(),
    ensures
        r == decimal_number(s@.subrange(lo as int, hi as int), neg),
{
    let ghost b = s@.subrange(lo as int, hi as int);
    let a_end = lead_digits_at(s, lo, hi);
    let ghost a = lead_digits(b);
    let ghost r1 = b.skip(a as int);
    assert(r1 =~= s@.subrange(a_end as int, hi as int));
    let mut f_lo = a_end;
    let mut f_hi = a_end;
    if a_end < hi && s[a_end] == '.' {
        f_lo = a_end + 1;
        f_hi = lead_digits_at(s, f_lo, hi);
        assert(r1.drop_first() =~= s@.subrange(f_lo as int, hi as int));
        assert(r1.subrange(1, 1 + (f_hi - f_lo)) =~= s@.subrange(f_lo as int, f_hi as int));
        assert(r1.skip(1 + (f_hi - f_lo)) =~= s@.subrange(f_hi as int, hi as int));
    } else {
        assert(s@.subrange(f_lo as int, f_hi as int) =~= seq![]);
    }
    if (a_end - lo) + (f_hi - f_lo) == 0 {
        return None;
    }
    let e = exponent_at(s, f_hi, hi);
    match e {
        None => None,
        Some(ec) => {
            let d = join_digits(s, lo, a_end, f_lo, f_hi);
            proof {
                assert(b.take(a as int) =~= s@.subrange(lo as int, a_end as int));
                let ex = exponent_of(s@.subrange(f_hi as int, hi as int))->Some_0;
                lemma_clamp_exp(neg, d@, (a_end - lo) as int, ex);
            }
            let p: i128 = (a_end - lo) as i128 + ec;
            Some(number_from_digits(&d, p, neg))
        },
    }
}

/// The numeral `s[lo..hi]` of a check, or the message that rejects it, as
/// `number_spec` states it.
pub fn number_at(s: &Vec<char>, lo: usize, hi: usize) -> (r: Result<Number, String>)
    requires
        lo <= hi <= s@.len(),
    ensures
        match r {
            Ok(n) => number_spec(s@.subrange(lo as int, hi as int)) == Ok::<Number, Seq<char>>(n),
            Err(m) => number_spec(s@.subrange(lo as int, hi as int)) == Err::<Number, Seq<char>>(m@),
        },
{
    let (t0, t1) = trim_at(s, lo, hi);
    let ghost t = s@.subrange(t0 as int, t1 as int);
    let lx = chars_of("0x");
    let ux = chars_of("0X");
    proof {
        reveal_strlit("0x");
        reveal_strlit("0X");
    }
    if starts_with_at(s, t0, t1, &lx) || starts_with_at(s, t0, t1, &ux) {
        let h0 = strip_prefix_at(s, t0, t1, &lx);
        let h1 = strip_prefix_at(s, h0, t1, &ux);
        match hex_at(s, h1, t1) {
            Some(v) => Ok(Number { negative: false, whole: v, fractional: false, nan: false }),
            None => {
                let mut msg = String::from_str("Invalid hex: ");
                let body = string_at(s, t0, t1);
                msg.append(body.as_str());
                Err(msg)
            },
        }
    } else {
        match float_at(s, t0, t1) {
            Some(n) => Ok(n),
            None => {
                let mut msg = String::from_str("Invalid number: ");
                let body = string_at(s, t0, t1);
                msg.append(body.as_str());
                Err(msg)
            },
        }
    }
}

/// The start of `s[lo..hi]` once the copies of `p` it starts with are skipped.
fn strip_prefix_at(s: &Vec<char>, lo: usize, hi: usize, p: &Vec<char>) -> (r: usize)
    requires
        lo <= hi <= s@.len(),
        p@.len() > 0,
    ensures
        lo <= r <= hi,
        s@.subrange(r as int, hi as int) == strip_prefix_all(s@.subrange(lo as int, hi as int), p@),
{
    let mut i = lo;
    while starts_with_at(s, i, hi, p)
        invariant
            lo <= i <= hi,
            hi <= s@.len(),
            p@.len() > 0,
            strip_prefix_all(s@.subrange(i as int, hi as int), p@) == strip_prefix_all(
                s@.subrange(lo as int, hi as int),
                p@,
            ),
        decreases hi - i,
    {
        assert(s@.subrange(i as int, hi as int).skip(p@.len() as int) =~= s@.subrange(
            i + p@.len(),
            hi as int,
        ));
        i = i + p.len();
    }
    i
}

} // verus!
