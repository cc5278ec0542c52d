//! Text helpers: building strings from characters and writing integers in
//! decimal.

use vstd::prelude::*;

verus! {

/// Appends `c` to `s` by calling std's `String::push`, which this library
/// takes on trust to leave the characters of `s` followed by `c`.
#[verifier::external_body]
pub(crate) fn push_char(s: &mut String, c: char)
    ensures
        final(s)@ == old(s)@.push(c),
{
    s.push(c);
}

/// The string holding the given characters.
pub fn string_from_chars(v: &Vec<char>) -> (res: String)
    ensures
        res@ == v@,
{
    let mut s = String::new();
    let mut i: usize = 0;
    while i < v.len()
        invariant
            i <= v@.len(),
            s@ == v@.take(i as int),
        decreases v@.len() - i,
    {
        push_char(&mut s, v[i]);
        assert(v@.take(i + 1) =~= v@.take(i as int).push(v@[i as int]));
        i += 1;
    }
    assert(v@.take(v@.len() as int) =~= v@);
    s
}

/// The characters of a string slice.
pub fn chars_of(s: &str) -> (res: Vec<char>)
    ensures
        res@ == s@,
{
    let mut v: Vec<char> = Vec::new();
    for c in it: s.chars()
        invariant
            v@ == it.seq().take(it.index() as int),
            it.seq() == s@,
    {
        v.push(c);
    }
    v
}

/// The decimal digit `d` (below ten).
pub open spec fn digit_char(d: nat) -> char {
    ((48 + d) as u32) as char
}

/// The decimal representation of `n`, without leading zeros.
pub open spec fn digits(n: nat) -> Seq<char>
    decreases n,
{
    if n < 10 {
        seq![digit_char(n)]
    } else {
        digits(n / 10).push(digit_char(n % 10))
    }
}

/// The decimal representation of `v`, with a leading `-` when negative.
pub open spec fn int_text(v: int) -> Seq<char> {
    if v < 0 {
        seq!['-'] + digits((-v) as nat)
    } else {
        digits(v as nat)
    }
}

/// The ASCII bytes of characters below 128.
pub open spec fn ascii_bytes(s: Seq<char>) -> Seq<u8> {
    s.map_values(|c: char| (c as u32) as u8)
}

/// The digit character of `d`.
fn digit(d: u64) -> (res: char)
    requires
        d < 10,
    ensures
        res == digit_char(d as nat),
{
    let code: u8 = 48 + d as u8;
    code as char
}

/// The decimal digits of `n`.
pub fn u64_digits(n: u64) -> (res: Vec<char>)
    ensures
        res@ == digits(n as nat),
    decreases n,
{
    if n < 10 {
        let mut v: Vec<char> = Vec::new();
        v.push(digit(n));
        assert(v@ =~= seq![digit_char(n as nat)]);
        v
    } else {
        let mut v = u64_digits(n / 10);
        v.push(digit(n % 10));
        v
    }
}

/// `n` in decimal.
pub fn u64_to_string(n: u64) -> (res: String)
    ensures
        res@ == digits(n as nat),
{
    string_from_chars(&u64_digits(n))
}

/// `v` in decimal.
pub fn i64_to_string(v: i64) -> (res: String)
    ensures
        res@ == int_text(v as int),
{
    if v < 0 {
        let m: u64 = if v == i64::MIN {
            0x8000_0000_0000_0000u64
        } else {
            (-v) as u64
        };
        let mut s = String::from_str("-");
        let d = u64_to_string(m);
        s.append(d.as_str());
        proof {
            reveal_strlit("-");
            assert(s@ =~= int_text(v as int));
        }
        s
    } else {
        u64_to_string(v as u64)
    }
}

/// The digits of `n` are ASCII digits.
pub proof fn lemma_digits_ascii(n: nat)
    ensures
        forall|i: int| 0 <= i < digits(n).len() ==> 48 <= (#[trigger] digits(n)[i]) as u32 <= 57,
        digits(n).len() >= 1,
    decreases n,
{
    if n >= 10 {
        lemma_digits_ascii(n / 10);
    }
}

/// A number below `10^k` has at most `k` digits.
pub proof fn lemma_digits_len(n: nat, k: nat)
    requires
        k >= 1,
        n < crate::number::pow10(k),
    ensures
        digits(n).len() <= k,
    decreases n,
{
    if n >= 10 {
        assert(k >= 2) by {
            if k == 1 {
                assert(crate::number::pow10(1) == 10) by {
                    reveal_with_fuel(crate::number::pow10, 2);
                }
            }
        }
        assert(n / 10 < crate::number::pow10((k - 1) as nat));
        lemma_digits_len(n / 10, (k - 1) as nat);
    }
}

/// The ASCII bytes of the decimal digits of `n`.
pub fn u64_digit_bytes(n: u64) -> (res: Vec<u8>)
    ensures
        res@ == ascii_bytes(digits(n as nat)),
{
    let d = u64_digits(n);
    let mut out: Vec<u8> = Vec::new();
    let mut i: usize = 0;
    proof {
        lemma_digits_ascii(n as nat);
    }
    while i < d.len()
        invariant
            i <= d@.len(),
            d@ == digits(n as nat),
            out@ == ascii_bytes(d@.take(i as int)),
            forall|j: int| 0 <= j < d@.len() ==> 48 <= (#[trigger] d@[j]) as u32 <= 57,
        decreases d@.len() - i,
    {
        let c = d[i];
        assert(48 <= d@[i as int] as u32 <= 57);
        let code = c as u32;
        out.push(code as u8);
        proof {
            assert(ascii_bytes(d@.take(i + 1)) =~= ascii_bytes(d@.take(i as int)).push(
                (d@[i as int] as u32) as u8,
            ));
        }
        i += 1;
    }
    assert(d@.take(d@.len() as int) =~= d@);
    out
}

} // verus!
