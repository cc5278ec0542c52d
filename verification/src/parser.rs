//! GUARD DSL: the constraint items and their parser.
//!
//! A GUARD source holds constraint blocks such as
//! ```text
//! constraint eVTOL_altitude @priority(HARD) {
//!     range(0, 15000)
//!     whitelist(HOVER, ASCEND, DESCEND)
//!     bitmask(0x3F)
//!     thermal(2.5)
//!     sparsity(128)
//! }
//! ```

use vstd::prelude::*;
use crate::number::Number;
use crate::numeral::{number_at, number_spec};
use crate::scan::{
    comment_at, contains_at, find_at, first_index, has_char, has_sub, last_index, lemma_first_index,
    lemma_last_index, remove_at, remove_char, rfind_at, starts_with, starts_with_at, string_at,
    strip_end, strip_end_at, strip_start, strip_start_at, trim, trim_at, comment_start,
};
use crate::text::{chars_of, digits, u64_to_string};

verus! {

/// How strictly a constraint is enforced.
#[derive(Clone, Copy, Debug, PartialEq, Eq, Structural)]
pub enum Priority {
    Hard,
    Soft,
    Default,
}

/// One check inside a constraint block.
#[derive(Debug, Clone, PartialEq)]
pub enum Check {
    /// `range(start, end)`
    Range { start: Number, end: Number },
    /// `whitelist(v1, v2, ...)`
    Whitelist(Vec<String>),
    /// `bitmask(mask)`
    Bitmask(u64),
    /// `thermal(budget)`
    Thermal(Number),
    /// `sparsity(count)`
    Sparsity(u32),
    /// The constraint's variable equals the named variable.
    Equal(String),
    /// The constraint's variable differs from the named variable.
    NotEqual(String),
    /// A nonzero value of the constraint's variable forces the same value on
    /// the named variable.
    Imply { target: String },
}

/// A check as a mathematical value.
pub enum CheckView {
    Range { start: Number, end: Number },
    Whitelist(Seq<Seq<char>>),
    Bitmask(u64),
    Thermal(Number),
    Sparsity(u32),
    Equal(Seq<char>),
    NotEqual(Seq<char>),
    Imply { target: Seq<char> },
}

impl View for Check {
    type V = CheckView;

    open spec fn view(&self) -> CheckView {
        match self {
            Check::Range { start, end } => CheckView::Range { start: *start, end: *end },
            Check::Whitelist(v) => CheckView::Whitelist(v@.map_values(|s: String| s@)),
            Check::Bitmask(m) => CheckView::Bitmask(*m),
            Check::Thermal(b) => CheckView::Thermal(*b),
            Check::Sparsity(c) => CheckView::Sparsity(*c),
            Check::Equal(t) => CheckView::Equal(t@),
            Check::NotEqual(t) => CheckView::NotEqual(t@),
            Check::Imply { target } => CheckView::Imply { target: target@ },
        }
    }
}

/// A named constraint block.
#[derive(Debug, Clone, PartialEq)]
pub struct Constraint {
    pub name: String,
    pub priority: Priority,
    pub checks: Vec<Check>,
}

/// A constraint block as a mathematical value.
pub struct ConstraintView {
    pub name: Seq<char>,
    pub priority: Priority,
    pub checks: Seq<CheckView>,
}

impl View for Constraint {
    type V = ConstraintView;

    open spec fn view(&self) -> ConstraintView {
        ConstraintView {
            name: self.name@,
            priority: self.priority,
            checks: self.checks@.map_values(|c: Check| c@),
        }
    }
}

/// A top-level item of a GUARD source.
#[derive(Debug, Clone, PartialEq)]
pub enum GuardItem {
    Constraint(Constraint),
    Comment(String),
}

/// A top-level item as a mathematical value.
pub enum GuardItemView {
    Constraint(ConstraintView),
    Comment(Seq<char>),
}

impl View for GuardItem {
    type V = GuardItemView;

    open spec fn view(&self) -> GuardItemView {
        match self {
            GuardItem::Constraint(c) => GuardItemView::Constraint(c@),
            GuardItem::Comment(s) => GuardItemView::Comment(s@),
        }
    }
}

/// A parse failure: the (zero-based) line it happened on and what went wrong.
#[derive(Debug, Clone)]
pub struct ParseError {
    pub line: usize,
    pub message: String,
}

/// The views of a slice of constraints.
pub open spec fn constraints_view(cs: Seq<Constraint>) -> Seq<ConstraintView> {
    cs.map_values(|c: Constraint| c@)
}

/// The constraints among `items`, in order.
pub open spec fn item_constraints(items: Seq<GuardItemView>) -> Seq<ConstraintView>
    decreases items.len(),
{
    if items.len() == 0 {
        seq![]
    } else {
        item_constraints(items.drop_last()) + match items.last() {
            GuardItemView::Constraint(c) => seq![c],
            GuardItemView::Comment(_) => seq![],
        }
    }
}

/// The views of a sequence of items.
pub open spec fn items_view(items: Seq<GuardItem>) -> Seq<GuardItemView> {
    items.map_values(|i: GuardItem| i@)
}

/// Extract only Constraint items from parse results.
pub fn extract_constraints(items: &[GuardItem]) -> (res: Vec<&Constraint>)
    ensures
        res@.map_values(|c: &Constraint| c@) == item_constraints(items_view(items@)),
{
    let mut res: Vec<&Constraint> = Vec::new();
    let mut i: usize = 0;
    while i < items.len()
        invariant
            i <= items@.len(),
            res@.map_values(|c: &Constraint| c@) == item_constraints(items_view(items@.take(i as int))),
        decreases items@.len() - i,
    {
        proof {
            assert(items_view(items@.take(i + 1)).drop_last() =~= items_view(items@.take(i as int)));
            assert(items_view(items@.take(i + 1)).last() == items@[i as int]@);
        }
        match &items[i] {
            GuardItem::Constraint(c) => {
                res.push(c);
                assert(res@.map_values(|c: &Constraint| c@) =~= item_constraints(items_view(items@.take(i + 1))));
            },
            GuardItem::Comment(_) => {
                assert(res@.map_values(|c: &Constraint| c@) =~= item_constraints(items_view(items@.take(i + 1))));
            },
        }
        i += 1;
    }
    assert(items@.take(items@.len() as int) =~= items@);
    res
}


impl ParseError {
    /// The error as text: `Line <n>: <message>`.
    pub fn to_string(&self) -> (res: String)
        ensures
            res@ == "Line "@ + digits(self.line as nat) + ": "@ + self.message@,
    {
        let mut out = String::from_str("Line ");
        let n = u64_to_string(self.line as u64);
        out.append(n.as_str());
        out.append(": ");
        out.append(self.message.as_str());
        out
    }
}

/// The text between the opening parenthesis (after the first `k` characters)
/// and the last `)` of `l`, if `l` has a `)`.
pub open spec fn paren_inner(l: Seq<char>, k: int) -> Option<Seq<char>> {
    if last_index(l, ')') < 0 {
        None
    } else {
        Some(l.subrange(k, last_index(l, ')')))
    }
}

/// The two numbers of `range(a, b)`'s parentheses, or the message that
/// rejects them.
pub open spec fn two_numbers(inner: Seq<char>) -> Result<(Number, Number), Seq<char>> {
    let c = first_index(inner, ',');
    if c >= inner.len() || has_char(inner.skip(c + 1int), ',') {
        Err("Expected two numbers, got: "@ + inner)
    } else {
        match number_spec(inner.take(c as int)) {
            Err(m) => Err(m),
            Ok(a) => match number_spec(inner.skip(c + 1int)) {
                Err(m) => Err(m),
                Ok(b) => Ok((a, b)),
            },
        }
    }
}

/// A whitelist entry: trimmed, then stripped of surrounding quotes.
pub open spec fn clean_value(x: Seq<char>) -> Seq<char> {
    strip_end(strip_start(trim(x), '"'), '"')
}

/// The nonempty entries of a comma-separated whitelist.
pub open spec fn whitelist_values(s: Seq<char>) -> Seq<Seq<char>>
    decreases s.len(),
{
    let c = first_index(s, ',');
    let v = clean_value(s.take(c as int));
    let head = if v.len() > 0 {
        seq![v]
    } else {
        seq![]
    };
    if c >= s.len() {
        head
    } else {
        head + whitelist_values(s.skip(c + 1int))
    }
}

/// The check written on a line of a constraint block: `Ok(None)` for a line
/// that holds no check, `Err` with the message for a malformed one.
pub open spec fn check_spec(line: Seq<char>) -> Result<Option<CheckView>, Seq<char>> {
    let l = strip_end(trim(line), ',');
    if starts_with(l, "range("@) {
        match paren_inner(l, 6) {
            None => Err("Missing closing ')' in range"@),
            Some(inner) => match two_numbers(inner) {
                Err(m) => Err(m),
                Ok((a, b)) => Ok(Some(CheckView::Range { start: a, end: b })),
            },
        }
    } else if starts_with(l, "whitelist("@) {
        match paren_inner(l, 10) {
            None => Err("Missing closing ')' in whitelist"@),
            Some(inner) => Ok(Some(CheckView::Whitelist(whitelist_values(inner)))),
        }
    } else if starts_with(l, "bitmask("@) {
        match paren_inner(l, 8) {
            None => Err("Missing closing ')' in bitmask"@),
            Some(inner) => match number_spec(inner) {
                Err(m) => Err(m),
                Ok(n) => Ok(Some(CheckView::Bitmask(n.saturate(u64::MAX)))),
            },
        }
    } else if starts_with(l, "thermal("@) {
        match paren_inner(l, 8) {
            None => Err("Missing closing ')' in thermal"@),
            Some(inner) => match number_spec(inner) {
                Err(m) => Err(m),
                Ok(n) => Ok(Some(CheckView::Thermal(n))),
            },
        }
    } else if starts_with(l, "sparsity("@) {
        match paren_inner(l, 9) {
            None => Err("Missing closing ')' in sparsity"@),
            Some(inner) => match number_spec(inner) {
                Err(m) => Err(m),
                Ok(n) => Ok(Some(CheckView::Sparsity(n.saturate(0xffff_ffff) as u32))),
            },
        }
    } else {
        Ok(None)
    }
}

/// The position of the last `)` of `s[lo..hi]`, which starts with `k`
/// characters none of which is `)`.
fn close_paren_at(s: &Vec<char>, lo: usize, hi: usize, k: usize) -> (r: Option<usize>)
    requires
        lo <= hi <= s@.len(),
        k <= hi - lo,
        forall|j: int| lo <= j < lo + k ==> s@[j] != ')',
    ensures
        match r {
            None => paren_inner(s@.subrange(lo as int, hi as int), k as int) is None,
            Some(e) => lo + k <= e < hi && paren_inner(s@.subrange(lo as int, hi as int), k as int)
                == Some(s@.subrange(lo + k, e as int)),
        },
{
    let r = rfind_at(s, lo, hi, ')');
    proof {
        lemma_last_index(s@.subrange(lo as int, hi as int), ')');
    }
    match r {
        None => None,
        Some(e) => {
            assert(s@.subrange(lo as int, hi as int)[e - lo] == s@[e as int]);
            assert(s@.subrange(lo as int, hi as int).subrange(k as int, e - lo) =~= s@.subrange(
                lo + k,
                e as int,
            ));
            Some(e)
        },
    }
}

/// The message `prefix` followed by `s[lo..hi]`.
fn message_with(prefix: &str, s: &Vec<char>, lo: usize, hi: usize) -> (res: String)
    requires
        lo <= hi <= s@.len(),
    ensures
        res@ == prefix@ + s@.subrange(lo as int, hi as int),
{
    let mut msg = String::from_str(prefix);
    let tail = string_at(s, lo, hi);
    msg.append(tail.as_str());
    msg
}

/// The two numbers of `s[lo..hi]`, as `two_numbers` states it.
fn two_numbers_at(s: &Vec<char>, lo: usize, hi: usize) -> (r: Result<(Number, Number), String>)
    requires
        lo <= hi <= s@.len(),
    ensures
        match r {
            Ok(v) => two_numbers(s@.subrange(lo as int, hi as int)) == Ok::<(Number, Number), Seq<char>>(v),
            Err(m) => two_numbers(s@.subrange(lo as int, hi as int)) == Err::<(Number, Number), Seq<char>>(m@),
        },
{
    let ghost inner = s@.subrange(lo as int, hi as int);
    let c = find_at(s, lo, hi, ',');
    if c >= hi {
        return Err(message_with("Expected two numbers, got: ", s, lo, hi));
    }
    assert(inner.skip(c - lo + 1) =~= s@.subrange(c + 1, hi as int));
    assert(inner.take(c - lo) =~= s@.subrange(lo as int, c as int));
    let c2 = find_at(s, c + 1, hi, ',');
    if c2 < hi {
        return Err(message_with("Expected two numbers, got: ", s, lo, hi));
    }
    match number_at(s, lo, c) {
        Err(m) => Err(m),
        Ok(a) => match number_at(s, c + 1, hi) {
            Err(m) => Err(m),
            Ok(b) => Ok((a, b)),
        },
    }
}

/// The nonempty entries of the whitelist `s[lo..hi]`.
fn whitelist_at(s: &Vec<char>, lo: usize, hi: usize) -> (r: Vec<String>)
    requires
        lo <= hi <= s@.len(),
    ensures
        r@.map_values(|v: String| v@) == whitelist_values(s@.subrange(lo as int, hi as int)),
{
    let mut out: Vec<String> = Vec::new();
    let mut pos = lo;
    let mut done = false;
    while !done
        invariant
            lo <= pos <= hi,
            hi <= s@.len(),
            done ==> out@.map_values(|v: String| v@) == whitelist_values(
                s@.subrange(lo as int, hi as int),
            ),
            !done ==> out@.map_values(|v: String| v@) + whitelist_values(
                s@.subrange(pos as int, hi as int),
            ) == whitelist_values(s@.subrange(lo as int, hi as int)),
        decreases (hi - pos) * 2 + (if done {
            0int
        } else {
            1int
        }),
    {
        let ghost seg = s@.subrange(pos as int, hi as int);
        let c = find_at(s, pos, hi, ',');
        assert(seg.take(c - pos) =~= s@.subrange(pos as int, c as int));
        let (v0, v1) = trim_at(s, pos, c);
        let w0 = strip_start_at(s, v0, v1, '"');
        let w1 = strip_end_at(s, w0, v1, '"');
        let ghost head: Seq<Seq<char>> = if w1 > w0 {
            seq![s@.subrange(w0 as int, w1 as int)]
        } else {
            seq![]
        };
        let ghost before = out@.map_values(|v: String| v@);
        if w1 > w0 {
            let v = string_at(s, w0, w1);
            out.push(v);
        }
        assert(out@.map_values(|v: String| v@) =~= before + head);
        if c >= hi {
            assert(whitelist_values(seg) == head);
            done = true;
        } else {
            assert(seg.skip(c - pos + 1) =~= s@.subrange(c + 1, hi as int));
            assert(whitelist_values(seg) == head + whitelist_values(s@.subrange(c + 1, hi as int)));
            assert(before + head + whitelist_values(s@.subrange(c + 1, hi as int)) =~= before + (head
                + whitelist_values(s@.subrange(c + 1, hi as int))));
            pos = c + 1;
        }
    }
    out
}

/// The check written on the line `s[lo..hi]`, as `check_spec` states it.
pub fn check_at(s: &Vec<char>, lo: usize, hi: usize) -> (r: Result<Option<Check>, String>)
    requires
        lo <= hi <= s@.len(),
    ensures
        match r {
            Ok(None) => check_spec(s@.subrange(lo as int, hi as int)) == Ok::<Option<CheckView>, Seq<char>>(None),
            Ok(Some(c)) => check_spec(s@.subrange(lo as int, hi as int)) == Ok::<Option<CheckView>, Seq<char>>(Some(c@)),
            Err(m) => check_spec(s@.subrange(lo as int, hi as int)) == Err::<Option<CheckView>, Seq<char>>(m@),
        },
{
    let (t0, t1) = trim_at(s, lo, hi);
    let l1 = strip_end_at(s, t0, t1, ',');
    let ghost l = s@.subrange(t0 as int, l1 as int);
    let p_range = chars_of("range(");
    let p_white = chars_of("whitelist(");
    let p_mask = chars_of("bitmask(");
    let p_therm = chars_of("thermal(");
    let p_sparse = chars_of("sparsity(");
    proof {
        reveal_strlit("range(");
        reveal_strlit("whitelist(");
        reveal_strlit("bitmask(");
        reveal_strlit("thermal(");
        reveal_strlit("sparsity(");
    }
    if starts_with_at(s, t0, l1, &p_range) {
        assert forall|j: int| t0 <= j < t0 + 6 implies s@[j] != ')' by {
            assert(s@[j] == l.take(6)[j - t0]);
        }
        match close_paren_at(s, t0, l1, 6) {
            None => Err(String::from_str("Missing closing ')' in range")),
            Some(e) => match two_numbers_at(s, t0 + 6, e) {
                Err(m) => Err(m),
                Ok((a, b)) => Ok(Some(Check::Range { start: a, end: b })),
            },
        }
    } else if starts_with_at(s, t0, l1, &p_white) {
        assert forall|j: int| t0 <= j < t0 + 10 implies s@[j] != ')' by {
            assert(s@[j] == l.take(10)[j - t0]);
        }
        match close_paren_at(s, t0, l1, 10) {
            None => Err(String::from_str("Missing closing ')' in whitelist")),
            Some(e) => Ok(Some(Check::Whitelist(whitelist_at(s, t0 + 10, e)))),
        }
    } else if starts_with_at(s, t0, l1, &p_mask) {
        assert forall|j: int| t0 <= j < t0 + 8 implies s@[j] != ')' by {
            assert(s@[j] == l.take(8)[j - t0]);
        }
        match close_paren_at(s, t0, l1, 8) {
            None => Err(String::from_str("Missing closing ')' in bitmask")),
            Some(e) => match number_at(s, t0 + 8, e) {
                Err(m) => Err(m),
                Ok(n) => Ok(Some(Check::Bitmask(n.to_u64()))),
            },
        }
    } else if starts_with_at(s, t0, l1, &p_therm) {
        assert forall|j: int| t0 <= j < t0 + 8 implies s@[j] != ')' by {
            assert(s@[j] == l.take(8)[j - t0]);
        }
        match close_paren_at(s, t0, l1, 8) {
            None => Err(String::from_str("Missing closing ')' in thermal")),
            Some(e) => match number_at(s, t0 + 8, e) {
                Err(m) => Err(m),
                Ok(n) => Ok(Some(Check::Thermal(n))),
            },
        }
    } else if starts_with_at(s, t0, l1, &p_sparse) {
        assert forall|j: int| t0 <= j < t0 + 9 implies s@[j] != ')' by {
            assert(s@[j] == l.take(9)[j - t0]);
        }
        match close_paren_at(s, t0, l1, 9) {
            None => Err(String::from_str("Missing closing ')' in sparsity")),
            Some(e) => match number_at(s, t0 + 9, e) {
                Err(m) => Err(m),
                Ok(n) => Ok(Some(Check::Sparsity(n.to_u32()))),
            },
        }
    } else {
        Ok(None)
    }
}


/// Where the parser stands between two lines: the items so far, and the
/// constraint block being read, if one is open.
pub struct ParseState {
    pub items: Seq<GuardItemView>,
    pub open: bool,
    pub name: Seq<char>,
    pub priority: Priority,
    pub checks: Seq<CheckView>,
}

/// The state before the first line.
pub open spec fn initial_state() -> ParseState {
    ParseState { items: seq![], open: false, name: seq![], priority: Priority::Default, checks: seq![] }
}

/// The open block closed: its constraint joins the items.
pub open spec fn closed(st: ParseState) -> ParseState {
    ParseState {
        items: st.items.push(
            GuardItemView::Constraint(
                ConstraintView { name: st.name, priority: st.priority, checks: st.checks },
            ),
        ),
        open: false,
        name: seq![],
        priority: st.priority,
        checks: seq![],
    }
}

/// The `@priority(..)` tag that a line holds, if any.
pub open spec fn priority_tag(l: Seq<char>) -> Option<Priority> {
    if has_sub(l, "@priority(HARD)"@) {
        Some(Priority::Hard)
    } else if has_sub(l, "@priority(SOFT)"@) {
        Some(Priority::Soft)
    } else if has_sub(l, "@priority(DEFAULT)"@) {
        Some(Priority::Default)
    } else {
        None
    }
}

/// The name of a `constraint <name> ...` header: the second word once
/// trailing `{` and white space are dropped.
pub open spec fn header_name(line: Seq<char>) -> Option<Seq<char>> {
    let t = trim(strip_end(line, '{'));
    let i = first_index(t, ' ');
    if i >= t.len() {
        None
    } else {
        let rest = t.skip(i + 1int);
        Some(rest.take(first_index(rest, ' ') as int))
    }
}

/// The text after the first `{` of a line, up to the next `{`.
pub open spec fn brace_segment(line: Seq<char>) -> Seq<char> {
    let rest = line.skip(first_index(line, '{') + 1int);
    rest.take(first_index(rest, '{') as int)
}

/// A line inside a constraint block: a priority tag, a check, or nothing.
pub open spec fn body_line(st: ParseState, l: Seq<char>) -> Result<ParseState, Seq<char>> {
    match priority_tag(l) {
        Some(p) => Ok(ParseState { priority: p, ..st }),
        None => match check_spec(l) {
            Err(m) => Err(m),
            Ok(None) => Ok(st),
            Ok(Some(c)) => Ok(ParseState { checks: st.checks.push(c), ..st }),
        },
    }
}

/// A `constraint ...` header line: closes an open block and opens a new
/// one, reading what follows its `{` on the same line.
pub open spec fn header_line(st: ParseState, line: Seq<char>) -> Result<ParseState, Seq<char>> {
    let st1 = if st.open {
        closed(st)
    } else {
        st
    };
    match header_name(line) {
        None => Err("Expected: constraint name {"@),
        Some(name) => {
            let st2 = ParseState {
                items: st1.items,
                open: true,
                name: name,
                priority: match priority_tag(line) {
                    Some(p) => p,
                    None => Priority::Default,
                },
                checks: seq![],
            };
            if !has_char(line, '{') {
                Ok(st2)
            } else {
                let after = brace_segment(line);
                let inline = trim(remove_char(after, '}'));
                if inline.len() == 0 {
                    Ok(st2)
                } else {
                    match body_line(st2, inline) {
                        Err(m) => Err(m),
                        Ok(st3) => if has_char(after, '}') {
                            Ok(closed(st3))
                        } else {
                            Ok(st3)
                        },
                    }
                }
            }
        },
    }
}

/// One line of source, with its `//` comment, applied to the state.
pub open spec fn line_step(st: ParseState, raw: Seq<char>) -> Result<ParseState, Seq<char>> {
    let line = trim(raw.take(comment_start(raw) as int));
    if line.len() == 0 {
        Ok(st)
    } else if starts_with(line, "constraint "@) {
        header_line(st, line)
    } else if line == "}"@ && st.open {
        Ok(closed(st))
    } else if st.open {
        body_line(st, line)
    } else {
        Ok(ParseState { items: st.items.push(GuardItemView::Comment(line)), ..st })
    }
}

/// The lines of `src` from position `pos` on (line number `ln`) applied to
/// the state; lines end at `\n`, and a final empty line is no line.
pub open spec fn run_lines(src: Seq<char>, pos: int, ln: int, st: ParseState) -> Result<
    ParseState,
    (int, Seq<char>),
>
    decreases src.len() - pos,
{
    if pos < 0 || pos >= src.len() {
        Ok(st)
    } else {
        let e = pos + first_index(src.subrange(pos, src.len() as int), '\n');
        match line_step(st, src.subrange(pos, e)) {
            Err(m) => Err((ln, m)),
            Ok(st2) => if e >= src.len() {
                Ok(st2)
            } else {
                run_lines(src, e + 1, ln + 1, st2)
            },
        }
    }
}

/// The items of a GUARD source, or the (line, message) of its first error.
pub open spec fn parse_spec(src: Seq<char>) -> Result<Seq<GuardItemView>, (int, Seq<char>)> {
    match run_lines(src, 0, 0, initial_state()) {
        Err(e) => Err(e),
        Ok(st) => Ok(
            if st.open {
                closed(st).items
            } else {
                st.items
            },
        ),
    }
}

/// The parser's state as it runs.
struct Parser {
    items: Vec<GuardItem>,
    open: bool,
    name: String,
    priority: Priority,
    checks: Vec<Check>,
}

impl View for Parser {
    type V = ParseState;

    closed spec fn view(&self) -> ParseState {
        ParseState {
            items: items_view(self.items@),
            open: self.open,
            name: self.name@,
            priority: self.priority,
            checks: self.checks@.map_values(|c: Check| c@),
        }
    }
}

impl Parser {
/// The parser before the first line.
    fn new() -> (p: Parser)
        ensures
            p@ == initial_state(),
    {
        let p = Parser {
            items: Vec::new(),
            open: false,
            name: String::new(),
            priority: Priority::Default,
            checks: Vec::new(),
        };
        assert(p@.items =~= seq![]);
        assert(p@.checks =~= seq![]);
        p
    }

/// Closes the open block: its constraint joins the items.
    fn close(&mut self)
        ensures
            final(self)@ == closed(old(self)@),
    {
        let mut name = String::new();
        std::mem::swap(&mut name, &mut self.name);
        let mut checks: Vec<Check> = Vec::new();
        std::mem::swap(&mut checks, &mut self.checks);
        let c = Constraint { name, priority: self.priority, checks };
        let ghost before = self.items@;
        let ghost cv = c@;
        self.items.push(GuardItem::Constraint(c));
        self.open = false;
        proof {
            assert(items_view(self.items@) =~= items_view(before).push(GuardItemView::Constraint(cv)));
            assert(self.checks@.map_values(|c: Check| c@) =~= seq![]);
        }
    }

/// Applies the block line `s[lo..hi]`, as `body_line` states it.
    fn body_line_at(&mut self, s: &Vec<char>, lo: usize, hi: usize) -> (r: Result<(), String>)
        requires
            lo <= hi <= s@.len(),
        ensures
            match r {
                Ok(_) => body_line(old(self)@, s@.subrange(lo as int, hi as int)) == Ok::<ParseState, Seq<char>>(final(self)@),
                Err(m) => body_line(old(self)@, s@.subrange(lo as int, hi as int)) == Err::<ParseState, Seq<char>>(m@),
            },
    {
        match priority_tag_at(s, lo, hi) {
            Some(p) => {
                self.priority = p;
                Ok(())
            },
            None => match check_at(s, lo, hi) {
                Err(m) => Err(m),
                Ok(None) => Ok(()),
                Ok(Some(c)) => {
                    let ghost before = self.checks@;
                    let ghost cv = c@;
                    self.checks.push(c);
                    assert(self.checks@.map_values(|c: Check| c@) =~= before.map_values(
                        |c: Check| c@,
                    ).push(cv));
                    Ok(())
                },
            },
        }
    }

/// Applies the header line `s[lo..hi]`, as `header_line` states it.
    fn header_line_at(&mut self, s: &Vec<char>, lo: usize, hi: usize) -> (r: Result<(), String>)
        requires
            lo <= hi <= s@.len(),
        ensures
            match r {
                Ok(_) => header_line(old(self)@, s@.subrange(lo as int, hi as int)) == Ok::<ParseState, Seq<char>>(final(self)@),
                Err(m) => header_line(old(self)@, s@.subrange(lo as int, hi as int)) == Err::<ParseState, Seq<char>>(m@),
            },
    {
        let ghost line = s@.subrange(lo as int, hi as int);
        if self.open {
            self.close();
        }
        match header_name_at(s, lo, hi) {
            None => Err(String::from_str("Expected: constraint name {")),
            Some(name) => {
                self.open = true;
                self.name = name;
                self.priority = match priority_tag_at(s, lo, hi) {
                    Some(p) => p,
                    None => Priority::Default,
                };
                self.checks = Vec::new();
                assert(self.checks@.map_values(|c: Check| c@) =~= seq![]);
                let b = find_at(s, lo, hi, '{');
                proof {
                    lemma_first_index(line, '{');
                }
                if b >= hi {
                    return Ok(());
                }
                let b2 = find_at(s, b + 1, hi, '{');
                let ghost rest = line.skip(first_index(line, '{') + 1int);
                assert(rest =~= s@.subrange(b + 1, hi as int));
                assert(brace_segment(line) =~= s@.subrange(b + 1, b2 as int));
                let after = remove_at(s, b + 1, b2, '}');
                let (i0, i1) = trim_at(&after, 0, after.len());
                assert(after@.subrange(0, after@.len() as int) =~= after@);
                if i0 == i1 {
                    return Ok(());
                }
                match self.body_line_at(&after, i0, i1) {
                    Err(m) => Err(m),
                    Ok(()) => {
                        let c = find_at(s, b + 1, b2, '}');
                        if c < b2 {
                            self.close();
                        }
                        Ok(())
                    },
                }
            },
        }
    }

/// Applies the source line `s[lo..hi]`, as `line_step` states it.
    fn line_at(&mut self, s: &Vec<char>, lo: usize, hi: usize) -> (r: Result<(), String>)
        requires
            lo <= hi <= s@.len(),
        ensures
            match r {
                Ok(_) => line_step(old(self)@, s@.subrange(lo as int, hi as int)) == Ok::<ParseState, Seq<char>>(final(self)@),
                Err(m) => line_step(old(self)@, s@.subrange(lo as int, hi as int)) == Err::<ParseState, Seq<char>>(m@),
            },
    {
        let ghost raw = s@.subrange(lo as int, hi as int);
        let cut = comment_at(s, lo, hi);
        assert(raw.take(comment_start(raw) as int) =~= s@.subrange(lo as int, cut as int));
        let (l0, l1) = trim_at(s, lo, cut);
        let ghost line = s@.subrange(l0 as int, l1 as int);
        if l0 == l1 {
            return Ok(());
        }
        let p_constraint = chars_of("constraint ");
        proof {
            reveal_strlit("}");
        }
        if starts_with_at(s, l0, l1, &p_constraint) {
            self.header_line_at(s, l0, l1)
        } else if l1 - l0 == 1 && s[l0] == '}' && self.open {
            assert(line =~= "}"@);
            self.close();
            Ok(())
        } else if self.open {
            assert(line != "}"@);
            self.body_line_at(s, l0, l1)
        } else {
            let ghost before = self.items@;
            let text = string_at(s, l0, l1);
            self.items.push(GuardItem::Comment(text));
            assert(items_view(self.items@) =~= items_view(before).push(GuardItemView::Comment(line)));
            Ok(())
        }
    }
}

/// The priority tag held by `s[lo..hi]`, as `priority_tag` states it.
fn priority_tag_at(s: &Vec<char>, lo: usize, hi: usize) -> (r: Option<Priority>)
    requires
        lo <= hi <= s@.len(),
    ensures
        r == priority_tag(s@.subrange(lo as int, hi as int)),
{
    let hard = chars_of("@priority(HARD)");
    let soft = chars_of("@priority(SOFT)");
    let default = chars_of("@priority(DEFAULT)");
    if contains_at(s, lo, hi, &hard) {
        Some(Priority::Hard)
    } else if contains_at(s, lo, hi, &soft) {
        Some(Priority::Soft)
    } else if contains_at(s, lo, hi, &default) {
        Some(Priority::Default)
    } else {
        None
    }
}

/// The name of the header `s[lo..hi]`, as `header_name` states it.
fn header_name_at(s: &Vec<char>, lo: usize, hi: usize) -> (r: Option<String>)
    requires
        lo <= hi <= s@.len(),
    ensures
        match r {
            None => header_name(s@.subrange(lo as int, hi as int)) is None,
            Some(n) => header_name(s@.subrange(lo as int, hi as int)) == Some(n@),
        },
{
    let e = strip_end_at(s, lo, hi, '{');
    let (t0, t1) = trim_at(s, lo, e);
    let ghost t = s@.subrange(t0 as int, t1 as int);
    let i = find_at(s, t0, t1, ' ');
    if i >= t1 {
        return None;
    }
    let j = find_at(s, i + 1, t1, ' ');
    assert(t.skip(i - t0 + 1) =~= s@.subrange(i + 1, t1 as int));
    assert(s@.subrange(i + 1, t1 as int).take(j - (i + 1)) =~= s@.subrange(i + 1, j as int));
    Some(string_at(s, i + 1, j))
}

/// Parse a GUARD DSL source string into items.
pub fn parse_guard(source: &str) -> (r: Result<Vec<GuardItem>, ParseError>)
    ensures
        match r {
            Ok(items) => parse_spec(source@) == Ok::<Seq<GuardItemView>, (int, Seq<char>)>(items_view(items@)),
            Err(e) => parse_spec(source@) == Err::<Seq<GuardItemView>, (int, Seq<char>)>((e.line as int, e.message@)),
        },
{
    let src = chars_of(source);
    let mut p = Parser::new();
    let mut pos: usize = 0;
    let mut ln: usize = 0;
    while pos < src.len()
        invariant
            pos <= src@.len(),
            ln <= pos,
            src@ == source@,
            run_lines(src@, 0, 0, initial_state()) == run_lines(src@, pos as int, ln as int, p@),
        decreases src@.len() - pos,
    {
        let e = find_at(&src, pos, src.len(), '\n');
        match p.line_at(&src, pos, e) {
            Err(m) => {
                return Err(ParseError { line: ln, message: m });
            },
            Ok(()) => {},
        }
        if e >= src.len() {
            pos = src.len();
        } else {
            pos = e + 1;
            ln = ln + 1;
        }
    }
    if p.open {
        p.close();
    }
    Ok(p.items)
}


/// Law: the tag `@priority(HARD)` makes a constraint hard, `@priority(SOFT)`
/// soft and `@priority(DEFAULT)` default (HARD taking precedence over SOFT,
/// and SOFT over DEFAULT); a line inside a block that holds a tag sets the
/// block's priority to it and changes nothing else; a line with no tag
/// leaves the priority as it was.
pub proof fn lemma_priority_tags(st: ParseState, l: Seq<char>)
    ensures
        has_sub(l, "@priority(HARD)"@) ==> priority_tag(l) == Some(Priority::Hard),
        !has_sub(l, "@priority(HARD)"@) && has_sub(l, "@priority(SOFT)"@) ==> priority_tag(l) == Some(
            Priority::Soft,
        ),
        !has_sub(l, "@priority(HARD)"@) && !has_sub(l, "@priority(SOFT)"@) && has_sub(
            l,
            "@priority(DEFAULT)"@,
        ) ==> priority_tag(l) == Some(Priority::Default),
        !has_sub(l, "@priority(HARD)"@) && !has_sub(l, "@priority(SOFT)"@) && !has_sub(
            l,
            "@priority(DEFAULT)"@,
        ) ==> priority_tag(l) is None,
        !has_sub(l, "@priority(HARD)"@) && !has_sub(l, "@priority(SOFT)"@) && has_sub(
            l,
            "@priority(DEFAULT)"@,
        ) ==> body_line(st, l) == Ok::<ParseState, Seq<char>>(
            ParseState { priority: Priority::Default, ..st },
        ),
        has_sub(l, "@priority(HARD)"@) ==> body_line(st, l) == Ok::<ParseState, Seq<char>>(
            ParseState { priority: Priority::Hard, ..st },
        ),
        !has_sub(l, "@priority(HARD)"@) && has_sub(l, "@priority(SOFT)"@) ==> body_line(st, l) == Ok::<
            ParseState,
            Seq<char>,
        >(ParseState { priority: Priority::Soft, ..st }),
        !has_sub(l, "@priority(HARD)"@) && !has_sub(l, "@priority(SOFT)"@) && !has_sub(
            l,
            "@priority(DEFAULT)"@,
        ) ==> match body_line(st, l) {
            Ok(st2) => st2.priority == st.priority,
            Err(_) => true,
        },
{
}

} // verus!
