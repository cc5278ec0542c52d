//! GUARD-to-FLUX compiler — turns constraint checks into FLUX bytecode
//!
//! Compilation rules:
//! - range(min, max) → BITMASK_RANGE min max, ASSERT
//! - whitelist(v1,v2,...) → sequential PUSH/EQ/JNZ chain, PUSH 0, ASSERT, NOP
//! - bitmask(mask) → PUSH mask, CHECK_DOMAIN mask, ASSERT
//! - thermal(budget) → PUSH budget, CMP_GE, ASSERT
//! - sparsity(count) → PUSH count, CMP_GE, ASSERT
//! - equal / not_equal / imply relate two variables and have no bytecode

use vstd::prelude::*;
use vstd::utf8::encode_utf8;
use crate::op;
use crate::parser::{
    extract_constraints, item_constraints, items_view, Check, CheckView, Constraint,
    ConstraintView, GuardItem, GuardItemView, Priority,
};

verus! {

/// Compilation result
pub struct CompiledProgram {
    pub bytecode: Vec<u8>,
    pub constraint_count: usize,
    pub hard_count: usize,
    pub soft_count: usize,
}

/// The byte a whitelist entry is compared with: the entry itself when it is a
/// single byte long, otherwise its (one-based) position, truncated to a byte.
pub open spec fn whitelist_byte(v: Seq<char>, i: int) -> u8 {
    if encode_utf8(v).len() == 1 {
        encode_utf8(v)[0]
    } else {
        ((i + 1) % 256) as u8
    }
}

/// Code for whitelist entry `i` of `n`, when the whitelist's code starts at
/// `base`: PUSH the entry's byte, EQ, and JNZ to the JNZ's own offset plus
/// 2, plus 3 per later entry, plus 3 (the closing NOP for the last entry).
pub open spec fn whitelist_entry(vals: Seq<Seq<char>>, base: int, i: int) -> Seq<u8> {
    let n = vals.len() as int;
    let jump_target = base + 5 * i + 3 + 2 + (n - i - 1) * 3 + 3;
    seq![op::PUSH, whitelist_byte(vals[i], i), op::EQ, op::JNZ, (jump_target % 256) as u8]
}

/// Code for the first `count` whitelist entries.
pub open spec fn whitelist_entries(vals: Seq<Seq<char>>, base: int, count: nat) -> Seq<u8>
    decreases count,
{
    if count == 0 {
        seq![]
    } else {
        whitelist_entries(vals, base, (count - 1) as nat) + whitelist_entry(vals, base, count - 1)
    }
}

/// Code for a check whose code starts at offset `base`.
pub open spec fn check_code(c: CheckView, base: int) -> Seq<u8> {
    match c {
        CheckView::Range { start, end } => seq![
            op::BITMASK_RANGE,
            start.saturate(0xff) as u8,
            end.saturate(0xff) as u8,
            op::ASSERT,
        ],
        CheckView::Whitelist(vals) => whitelist_entries(vals, base, vals.len()) + seq![
            op::PUSH,
            0u8,
            op::ASSERT,
            op::NOP,
        ],
        CheckView::Bitmask(mask) => seq![
            op::PUSH,
            (mask % 256) as u8,
            op::CHECK_DOMAIN,
            (mask % 256) as u8,
            op::ASSERT,
        ],
        CheckView::Thermal(budget) => seq![op::PUSH, budget.saturate(0xff) as u8, op::CMP_GE, op::ASSERT],
        CheckView::Sparsity(count) => seq![op::PUSH, (count % 256) as u8, op::CMP_GE, op::ASSERT],
        _ => seq![],
    }
}

/// Code for a list of checks whose code starts at offset `base`.
pub open spec fn checks_code(checks: Seq<CheckView>, base: int) -> Seq<u8>
    decreases checks.len(),
{
    if checks.len() == 0 {
        seq![]
    } else {
        let prefix = checks_code(checks.drop_last(), base);
        prefix + check_code(checks.last(), base + prefix.len())
    }
}

/// Code for the checks of a list of constraints, starting at offset `base`.
pub open spec fn constraints_code(cs: Seq<ConstraintView>, base: int) -> Seq<u8>
    decreases cs.len(),
{
    if cs.len() == 0 {
        seq![]
    } else {
        let prefix = constraints_code(cs.drop_last(), base);
        prefix + checks_code(cs.last().checks, base + prefix.len())
    }
}

/// Number of constraints of the given priority.
pub open spec fn priority_count(cs: Seq<ConstraintView>, p: Priority) -> nat
    decreases cs.len(),
{
    if cs.len() == 0 {
        0
    } else {
        priority_count(cs.drop_last(), p) + if cs.last().priority == p {
            1nat
        } else {
            0nat
        }
    }
}

/// Law: no more constraints are hard or soft than there are constraints.
pub proof fn lemma_priority_counts(cs: Seq<ConstraintView>)
    ensures
        priority_count(cs, Priority::Hard) + priority_count(cs, Priority::Soft) <= cs.len(),
    decreases cs.len(),
{
    if cs.len() > 0 {
        lemma_priority_counts(cs.drop_last());
    }
}

/// The program for a list of items: the code of their checks, then HALT and
/// GUARD_TRAP.
pub open spec fn program_code(items: Seq<GuardItemView>) -> Seq<u8> {
    constraints_code(item_constraints(items), 0) + seq![op::HALT, op::GUARD_TRAP]
}

/// No check of the constraints is a whitelist (whose jumps are absolute).
pub open spec fn no_whitelist(cs: Seq<ConstraintView>) -> bool {
    forall|k: int, j: int| 0 <= k < cs.len() && 0 <= j < cs[k].checks.len() ==> !(#[trigger] cs[k].checks[j] is Whitelist)
}

proof fn lemma_item_constraints_concat(a: Seq<GuardItemView>, b: Seq<GuardItemView>)
    ensures
        item_constraints(a + b) == item_constraints(a) + item_constraints(b),
    decreases b.len(),
{
    if b.len() == 0 {
        assert(a + b =~= a);
        assert(item_constraints(a) + item_constraints(b) =~= item_constraints(a));
    } else {
        lemma_item_constraints_concat(a, b.drop_last());
        assert((a + b).drop_last() =~= a + b.drop_last());
        assert((a + b).last() == b.last());
        let tail = match b.last() {
            GuardItemView::Constraint(c) => seq![c],
            GuardItemView::Comment(_) => seq![],
        };
        assert(item_constraints(a) + item_constraints(b.drop_last()) + tail =~= item_constraints(a) + (
        item_constraints(b.drop_last()) + tail));
    }
}

proof fn lemma_constraints_code_concat(c1: Seq<ConstraintView>, c2: Seq<ConstraintView>, base: int)
    ensures
        constraints_code(c1 + c2, base) == constraints_code(c1, base) + constraints_code(
            c2,
            base + constraints_code(c1, base).len(),
        ),
    decreases c2.len(),
{
    let p1 = constraints_code(c1, base);
    if c2.len() == 0 {
        assert(c1 + c2 =~= c1);
        assert(p1 + constraints_code(c2, base + p1.len()) =~= p1);
    } else {
        lemma_constraints_code_concat(c1, c2.drop_last(), base);
        assert((c1 + c2).drop_last() =~= c1 + c2.drop_last());
        assert((c1 + c2).last() == c2.last());
        let q = constraints_code(c2.drop_last(), base + p1.len());
        let r = checks_code(c2.last().checks, base + p1.len() + q.len());
        assert(p1 + q + r =~= p1 + (q + r));
    }
}

proof fn lemma_checks_code_base(checks: Seq<CheckView>, x: int, y: int)
    requires
        forall|j: int| 0 <= j < checks.len() ==> !(#[trigger] checks[j] is Whitelist),
    ensures
        checks_code(checks, x) == checks_code(checks, y),
    decreases checks.len(),
{
    if checks.len() > 0 {
        lemma_checks_code_base(checks.drop_last(), x, y);
        assert(!(checks[checks.len() - 1] is Whitelist));
    }
}

proof fn lemma_constraints_code_base(cs: Seq<ConstraintView>, x: int, y: int)
    requires
        no_whitelist(cs),
    ensures
        constraints_code(cs, x) == constraints_code(cs, y),
    decreases cs.len(),
{
    if cs.len() > 0 {
        lemma_constraints_code_base(cs.drop_last(), x, y);
        let last = cs[cs.len() - 1];
        assert forall|j: int| 0 <= j < last.checks.len() implies !(#[trigger] last.checks[j] is Whitelist) by {
            assert(!(cs[cs.len() - 1].checks[j] is Whitelist));
        }
        lemma_checks_code_base(
            last.checks,
            x + constraints_code(cs.drop_last(), x).len(),
            y + constraints_code(cs.drop_last(), y).len(),
        );
    }
}

proof fn lemma_priority_count_concat(c1: Seq<ConstraintView>, c2: Seq<ConstraintView>, p: Priority)
    ensures
        priority_count(c1 + c2, p) == priority_count(c1, p) + priority_count(c2, p),
    decreases c2.len(),
{
    if c2.len() == 0 {
        assert(c1 + c2 =~= c1);
    } else {
        lemma_priority_count_concat(c1, c2.drop_last(), p);
        assert((c1 + c2).drop_last() =~= c1 + c2.drop_last());
    }
}

/// Law: compiling two lists of items one after the other is compiling the
/// first without its closing HALT, GUARD_TRAP, followed by the second, when
/// the second holds no whitelist (whose jump targets are absolute); the
/// counts add up.
pub proof fn lemma_compile_concat(a: Seq<GuardItem>, b: Seq<GuardItem>)
    requires
        no_whitelist(item_constraints(items_view(b))),
    ensures
        program_code(items_view(a + b)) == program_code(items_view(a)).take(
            program_code(items_view(a)).len() - 2,
        ) + program_code(items_view(b)),
        item_constraints(items_view(a + b)).len() == item_constraints(items_view(a)).len()
            + item_constraints(items_view(b)).len(),
        priority_count(item_constraints(items_view(a + b)), Priority::Hard) == priority_count(
            item_constraints(items_view(a)),
            Priority::Hard,
        ) + priority_count(item_constraints(items_view(b)), Priority::Hard),
        priority_count(item_constraints(items_view(a + b)), Priority::Soft) == priority_count(
            item_constraints(items_view(a)),
            Priority::Soft,
        ) + priority_count(item_constraints(items_view(b)), Priority::Soft),
{
    assert(items_view(a + b) =~= items_view(a) + items_view(b));
    let ca = item_constraints(items_view(a));
    let cb = item_constraints(items_view(b));
    lemma_item_constraints_concat(items_view(a), items_view(b));
    lemma_constraints_code_concat(ca, cb, 0);
    let pa = constraints_code(ca, 0);
    lemma_constraints_code_base(cb, pa.len() as int, 0);
    lemma_priority_count_concat(ca, cb, Priority::Hard);
    lemma_priority_count_concat(ca, cb, Priority::Soft);
    assert(program_code(items_view(a)).take(program_code(items_view(a)).len() - 2) =~= pa);
    assert(program_code(items_view(a + b)) =~= pa + program_code(items_view(b)));
}

/// The first `count` entries' code: five bytes per entry, as laid out below.
proof fn lemma_whitelist_entries(vals: Seq<Seq<char>>, base: int, count: nat)
    requires
        count <= vals.len(),
    ensures
        whitelist_entries(vals, base, count).len() == 5 * count,
        forall|i: int, j: int|
            0 <= i < count && 0 <= j < 5 ==> #[trigger] whitelist_entries(vals, base, count)[5 * i + j]
                == whitelist_entry(vals, base, i)[j],
    decreases count,
{
    if count > 0 {
        lemma_whitelist_entries(vals, base, (count - 1) as nat);
        let prev = whitelist_entries(vals, base, (count - 1) as nat);
        let all = whitelist_entries(vals, base, count);
        assert forall|i: int, j: int| 0 <= i < count && 0 <= j < 5 implies #[trigger] all[5 * i + j]
            == whitelist_entry(vals, base, i)[j] by {
            if i < count - 1 {
                assert(all[5 * i + j] == prev[5 * i + j]);
            } else {
                assert(all[5 * i + j] == whitelist_entry(vals, base, count - 1)[5 * i + j - prev.len()]);
            }
        }
    }
}

/// The five bytes of `code` at offset `5 i` are PUSH b, EQ, JNZ t for entry
/// `i` of the whitelist `vals` whose code starts at `base`: b is the entry's
/// byte when it is one byte long, else (i + 1) mod 256; t is
/// base + 5i + 5 + 3(n - i - 1) + 3 (mod 256).
pub open spec fn whitelist_entry_at(code: Seq<u8>, vals: Seq<Seq<char>>, base: int, i: int) -> bool {
    &&& code[5 * i] == op::PUSH
    &&& code[5 * i + 1] == (if encode_utf8(vals[i]).len() == 1 {
        encode_utf8(vals[i])[0]
    } else {
        ((i + 1) % 256) as u8
    })
    &&& code[5 * i + 2] == op::EQ
    &&& code[5 * i + 3] == op::JNZ
    &&& code[5 * i + 4] == ((base + 5 * i + 5 + 3 * (vals.len() - i - 1) + 3) % 256) as u8
}

/// Law: the code of `whitelist(v_0, ..., v_{n-1})` starting at offset
/// `base` is, for each entry i, PUSH b_i, EQ, JNZ t_i, where b_i is the
/// entry's own byte when it is one byte long and (i + 1) mod 256 otherwise
/// (so entries of more than one byte at positions below 256 push distinct
/// bytes), and t_i = base + 5i + 5 + 3(n - i - 1) + 3 (mod 256); then PUSH 0,
/// ASSERT, NOP.
pub proof fn lemma_whitelist_code(vals: Seq<Seq<char>>, base: int)
    ensures
        check_code(CheckView::Whitelist(vals), base).len() == 5 * vals.len() + 4,
        forall|i: int|
            0 <= i < vals.len() ==> #[trigger] whitelist_entry_at(check_code(CheckView::Whitelist(vals), base), vals, base, i),
        check_code(CheckView::Whitelist(vals), base).subrange(5 * vals.len() as int, 5 * vals.len() as int + 4)
            == seq![op::PUSH, 0u8, op::ASSERT, op::NOP],
        forall|i: int, k: int|
            0 <= i < k < vals.len() && k < 255 && encode_utf8(vals[i]).len() != 1 && encode_utf8(vals[k]).len()
                != 1 ==> check_code(CheckView::Whitelist(vals), base)[5 * i + 1] != check_code(
                CheckView::Whitelist(vals),
                base,
            )[5 * k + 1],
{
    let n = vals.len();
    lemma_whitelist_entries(vals, base, n);
    let ent = whitelist_entries(vals, base, n);
    let code = check_code(CheckView::Whitelist(vals), base);
    assert(code == ent + seq![op::PUSH, 0u8, op::ASSERT, op::NOP]);
    assert forall|i: int| 0 <= i < vals.len() implies #[trigger] whitelist_entry_at(code, vals, base, i) by {
        assert(code[5 * i] == ent[5 * i]);
        assert(code[5 * i + 1] == ent[5 * i + 1]);
        assert(code[5 * i + 2] == ent[5 * i + 2]);
        assert(code[5 * i + 3] == ent[5 * i + 3]);
        assert(code[5 * i + 4] == ent[5 * i + 4]);
        assert(ent[5 * i + 0] == whitelist_entry(vals, base, i)[0]);
        assert(ent[5 * i + 1] == whitelist_entry(vals, base, i)[1]);
        assert(ent[5 * i + 2] == whitelist_entry(vals, base, i)[2]);
        assert(ent[5 * i + 3] == whitelist_entry(vals, base, i)[3]);
        assert(ent[5 * i + 4] == whitelist_entry(vals, base, i)[4]);
    }
    assert(code.subrange(5 * n as int, 5 * n as int + 4) =~= seq![op::PUSH, 0u8, op::ASSERT, op::NOP]);
    assert forall|i: int, k: int|
        0 <= i < k < n && k < 255 && encode_utf8(vals[i]).len() != 1 && encode_utf8(vals[k]).len() != 1
            implies code[5 * i + 1] != code[5 * k + 1] by {
        assert(code[5 * i + 1] == ((i + 1) % 256) as u8) by {
            assert(encode_utf8(vals[i]).len() != 1);
        }
        assert(code[5 * k + 1] == ((k + 1) % 256) as u8) by {
            assert(encode_utf8(vals[k]).len() != 1);
        }
    }
}

/// A priority is counted at most once per constraint.
proof fn lemma_priority_count_bound(cs: Seq<ConstraintView>, p: Priority)
    ensures
        priority_count(cs, p) <= cs.len(),
    decreases cs.len(),
{
    if cs.len() > 0 {
        lemma_priority_count_bound(cs.drop_last(), p);
    }
}

/// Compile GUARD items into FLUX bytecode
pub fn compile(items: &[GuardItem]) -> (res: CompiledProgram)
    ensures
        res.bytecode@ == constraints_code(item_constraints(items_view(items@)), 0) + seq![
            op::HALT,
            op::GUARD_TRAP,
        ],
        res.bytecode@ == program_code(items_view(items@)),
        res.constraint_count == item_constraints(items_view(items@)).len(),
        res.hard_count == priority_count(item_constraints(items_view(items@)), Priority::Hard),
        res.soft_count == priority_count(item_constraints(items_view(items@)), Priority::Soft),
{
    let constraints = extract_constraints(items);
    let ghost cs = item_constraints(items_view(items@));
    let mut bc: Vec<u8> = Vec::new();
    let mut hard_count: usize = 0;
    let mut soft_count: usize = 0;
    let mut k: usize = 0;
    while k < constraints.len()
        invariant
            k <= constraints@.len(),
            constraints@.map_values(|c: &Constraint| c@) == cs,
            bc@ == constraints_code(cs.take(k as int), 0),
            hard_count == priority_count(cs.take(k as int), Priority::Hard),
            soft_count == priority_count(cs.take(k as int), Priority::Soft),
        decreases constraints@.len() - k,
    {
        let constraint = constraints[k];
        proof {
            assert(cs[k as int] == constraint@);
            assert(cs.take(k + 1).drop_last() =~= cs.take(k as int));
            lemma_priority_count_bound(cs.take(k as int), Priority::Hard);
            lemma_priority_count_bound(cs.take(k as int), Priority::Soft);
        }
        match constraint.priority {
            Priority::Hard => hard_count += 1,
            Priority::Soft => soft_count += 1,
            Priority::Default => {},
        }
        let ghost start = bc@;
        let mut j: usize = 0;
        while j < constraint.checks.len()
            invariant
                j <= constraint.checks@.len(),
                bc@ == start + checks_code(constraint@.checks.take(j as int), start.len() as int),
            decreases constraint.checks@.len() - j,
        {
            proof {
                assert(constraint@.checks.take(j + 1).drop_last() =~= constraint@.checks.take(j as int));
                assert(constraint@.checks[j as int] == constraint.checks@[j as int]@);
            }
            compile_check(&constraint.checks[j], &mut bc);
            proof {
                assert(bc@ =~= start + checks_code(constraint@.checks.take(j + 1), start.len() as int));
            }
            j += 1;
        }
        proof {
            assert(constraint@.checks.take(constraint.checks@.len() as int) =~= constraint@.checks);
            assert(bc@ =~= constraints_code(cs.take(k + 1), 0));
        }
        k += 1;
    }
    proof {
        assert(cs.take(constraints@.len() as int) =~= cs);
    }
    // If any check failed, GUARD_TRAP would have already fired via ASSERT
    // If we reach here, all constraints passed
    bc.push(op::HALT);
    // Append failure handler at the end (for JFAIL targets)
    bc.push(op::GUARD_TRAP);
    CompiledProgram { bytecode: bc, constraint_count: constraints.len(), hard_count, soft_count }
}

fn compile_check(check: &Check, bc: &mut Vec<u8>)
    ensures
        final(bc)@ == old(bc)@ + check_code(check@, old(bc)@.len() as int),
{
    match check {
        Check::Range { start, end } => {
            // BITMASK_RANGE lo hi → pushes 1 if in range, 0 if not;
            // the value under test is already on the stack
            let lo = start.to_u8();
            let hi = end.to_u8();
            bc.push(op::BITMASK_RANGE);
            bc.push(lo);
            bc.push(hi);
            bc.push(op::ASSERT);
            assert(bc@ =~= old(bc)@ + check_code(check@, old(bc)@.len() as int));
        },
        Check::Whitelist(values) => {
            // Sequential PUSH/EQ/JNZ per entry; entry i's JNZ operand is its own
            // offset + 2 + 3 per later entry + 3 (only the last one lands on the
            // closing NOP)
            let ghost base = old(bc)@.len() as int;
            let ghost vals = values@.map_values(|s: String| s@);
            let mut i: usize = 0;
            while i < values.len()
                invariant
                    i <= values@.len(),
                    vals == values@.map_values(|s: String| s@),
                    base == old(bc)@.len(),
                    bc@ == old(bc)@ + whitelist_entries(vals, base, i as nat),
                    bc@.len() == base + 5 * i,
                decreases values@.len() - i,
            {
                let val_bytes = values[i].as_str().as_bytes();
                let val_byte = if val_bytes.len() == 1 {
                    val_bytes[0]
                } else {
                    ((i + 1) % 256) as u8
                };
                bc.push(op::PUSH);
                bc.push(val_byte);
                bc.push(op::EQ);  // compare stack top with pushed value
                // If EQ returned 1, jump forward by 2 + 3 per later entry + 3
                let jump_target: u128 = bc.len() as u128 + 2 + ((values.len() - i - 1) as u128) * 3
                    + 3;
                bc.push(op::JNZ);
                bc.push((jump_target % 256) as u8);
                proof {
                    assert(vals[i as int] == values@[i as int]@);
                    assert(bc@ =~= old(bc)@ + whitelist_entries(vals, base, (i + 1) as nat));
                }
                i += 1;
            }
            // No match found — push 0 and assert fail
            bc.push(op::PUSH);
            bc.push(0);
            bc.push(op::ASSERT);
            // Closing NOP (the last entry's jump target)
            bc.push(op::NOP);
            assert(bc@ =~= old(bc)@ + check_code(check@, old(bc)@.len() as int));
        },
        Check::Bitmask(mask) => {
            // PUSH mask, CHECK_DOMAIN, ASSERT
            bc.push(op::PUSH);
            bc.push((*mask % 256) as u8);
            bc.push(op::CHECK_DOMAIN);
            bc.push((*mask % 256) as u8);
            bc.push(op::ASSERT);
            assert(bc@ =~= old(bc)@ + check_code(check@, old(bc)@.len() as int));
        },
        Check::Thermal(budget) => {
            // PUSH budget, CMP_GE, ASSERT
            bc.push(op::PUSH);
            bc.push(budget.to_u8());
            bc.push(op::CMP_GE);
            bc.push(op::ASSERT);
            assert(bc@ =~= old(bc)@ + check_code(check@, old(bc)@.len() as int));
        },
        Check::Sparsity(count) => {
            // PUSH count, CMP_GE, ASSERT
            bc.push(op::PUSH);
            bc.push((*count % 256) as u8);
            bc.push(op::CMP_GE);
            bc.push(op::ASSERT);
            assert(bc@ =~= old(bc)@ + check_code(check@, old(bc)@.len() as int));
        },
        _ => {
            // Equal, NotEqual and Imply relate two variables; they have no
            // bytecode of their own
            assert(bc@ =~= old(bc)@ + check_code(check@, old(bc)@.len() as int));
        },
    }
}

} // verus!
