//! The compiler from source text to a program.
use vstd::prelude::*;
use crate::text::chars_of;
use crate::tape::{grown, Tape, TapeError};
use crate::interpreter::{dump_text, Action, RuntimeError};
use crate::tape::{wrapping_add, wrapping_sub};
use crate::text::{decimal, push_decimal, string_from_chars};
use vstd::string::StrSliceExecFns;
pub mod balance;
pub mod instruction;
pub mod utils;
use self::balance::{
    brackets_balanced, first_extra_closing, lemma_balanced_iff_source_brackets,
    lemma_first_extra_closing_reported, lemma_outermost_opening_reported, outermost_opening,
};
use self::instruction::{Instruction, Operation};
use self::utils::{BracketCountMismatch, Position};

verus! {

/// The characters whose repetitions are grouped into one instruction.
pub open spec fn groupable(c: char) -> bool {
    c == '-' || c == '+' || c == '<' || c == '>'
}

/// The characters that make an instruction of their own each time.
pub open spec fn single(c: char) -> bool {
    c == ',' || c == '.' || c == '[' || c == ']'
}

/// The operation written by the character `c`.
pub open spec fn op_of_char(c: char) -> Operation {
    if c == '-' {
        Operation::CellDec
    } else if c == '+' {
        Operation::CellInc
    } else if c == '<' {
        Operation::TapeLeft
    } else if c == '>' {
        Operation::TapeRight
    } else if c == ',' {
        Operation::CellWrite
    } else if c == '.' {
        Operation::CellRead
    } else if c == '[' {
        Operation::BeginLoop(None)
    } else if c == ']' {
        Operation::EndLoop
    } else {
        Operation::TapePrint
    }
}

/// Whether `!TAPE` starts at index `i` of `s`.
pub open spec fn tape_marker_at(s: Seq<char>, i: int) -> bool {
    0 <= i && i + 4 < s.len() && s[i] == '!' && s[i + 1] == 'T' && s[i + 2] == 'A' && s[i + 3]
        == 'P' && s[i + 4] == 'E'
}

/// How many times `c` stands in `s` from index `i` on, without a break.
pub open spec fn run_length(s: Seq<char>, i: int, c: char) -> nat
    decreases s.len() - i,
{
    if 0 <= i < s.len() && s[i] == c {
        1 + run_length(s, i + 1, c)
    } else {
        0
    }
}

/// The instruction of `n` times `op` at line `line`, column `col`.
pub open spec fn instruction_at(n: int, op: Operation, line: int, col: int) -> Instruction {
    Instruction {
        n: n as usize,
        op,
        pos: Position { line_number: line as usize, char_number: col as usize },
    }
}

/// The instructions written in `s` from index `i` on, where index `i` stands
/// at line `line`, column `col`. `\r`, `\r\n` and `\n` each end a line; a run
/// of one groupable character is one instruction; `!TAPE` is one instruction;
/// every other character is a comment. Loop targets are left unset.
pub open spec fn lex(s: Seq<char>, i: int, line: int, col: int) -> Seq<Instruction>
    decreases s.len() - i
    via lex_decreases
{
    if i < 0 || i >= s.len() {
        Seq::empty()
    } else {
        let c = s[i];
        if c == '\r' {
            if i + 1 < s.len() && s[i + 1] == '\n' {
                lex(s, i + 2, line + 1, 0)
            } else {
                lex(s, i + 1, line + 1, 0)
            }
        } else if c == '\n' {
            lex(s, i + 1, line + 1, 0)
        } else if groupable(c) {
            let k = run_length(s, i, c) as int;
            seq![instruction_at(k, op_of_char(c), line, col)] + lex(s, i + k, line, col + k)
        } else if single(c) {
            seq![instruction_at(1, op_of_char(c), line, col)] + lex(s, i + 1, line, col + 1)
        } else if tape_marker_at(s, i) {
            seq![instruction_at(1, Operation::TapePrint, line, col)] + lex(s, i + 5, line, col + 5)
        } else {
            lex(s, i + 1, line, col + 1)
        }
    }
}

/// A run found at index `i` is at least one long and stays within `s`.
pub proof fn lemma_run_length_bounds(s: Seq<char>, i: int, c: char)
    requires
        0 <= i <= s.len(),
    ensures
        run_length(s, i, c) <= s.len() - i,
        i < s.len() && s[i] == c ==> run_length(s, i, c) >= 1,
    decreases s.len() - i,
{
    if i < s.len() && s[i] == c {
        lemma_run_length_bounds(s, i + 1, c);
    }
}

#[via_fn]
proof fn lex_decreases(s: Seq<char>, i: int, line: int, col: int) {
    if 0 <= i < s.len() {
        lemma_run_length_bounds(s, i, s[i]);
    }
}

/// The instructions of the whole source text `s`, loop targets unset.
pub open spec fn lexed(s: Seq<char>) -> Seq<Instruction> {
    lex(s, 0, 0, 0)
}

pub open spec fn is_begin(x: Instruction) -> bool {
    x.op is BeginLoop
}

pub open spec fn is_end(x: Instruction) -> bool {
    x.op is EndLoop
}

/// The loop target that a `BeginLoop` holds, if any.
pub open spec fn target_of(op: Operation) -> Option<usize> {
    match op {
        Operation::BeginLoop(t) => t,
        _ => None,
    }
}

/// The addresses of the loops left open after the first `k` instructions of
/// `p`, outermost first: each `BeginLoop` opens one, each `EndLoop` closes the
/// innermost (an `EndLoop` with nothing open closes nothing).
pub open spec fn open_loops(p: Seq<Instruction>, k: int) -> Seq<usize>
    decreases k,
{
    if k <= 0 {
        Seq::empty()
    } else {
        let prev = open_loops(p, k - 1);
        if is_begin(p[k - 1]) {
            prev.push((k - 1) as usize)
        } else if is_end(p[k - 1]) && prev.len() > 0 {
            prev.drop_last()
        } else {
            prev
        }
    }
}

/// Every `EndLoop` closes a loop, and no loop is left open at the end.
pub open spec fn balanced(p: Seq<Instruction>) -> bool {
    &&& forall|e: int| 0 <= e < p.len() && #[trigger] is_end(p[e]) ==> open_loops(p, e).len() > 0
    &&& open_loops(p, p.len() as int).len() == 0
}

/// `t` is the address of the `EndLoop` that closes the loop opened at `b`.
pub open spec fn loop_target(p: Seq<Instruction>, b: int, t: int) -> bool {
    &&& 0 <= b < t < p.len()
    &&& is_end(p[t])
    &&& open_loops(p, t).len() > 0
    &&& open_loops(p, t).last() == b
}

/// Every `BeginLoop` holds the address of its matching `EndLoop`.
pub open spec fn targets_resolved(p: Seq<Instruction>) -> bool {
    forall|b: int|
        0 <= b < p.len() && #[trigger] is_begin(p[b]) ==> target_of(p[b].op) is Some
            && loop_target(p, b, target_of(p[b].op)->0 as int)
}

/// `p` is `q` with the loop targets filled in: the same instructions in the
/// same places, each `BeginLoop` holding its matching `EndLoop`.
pub open spec fn resolution_of(q: Seq<Instruction>, p: Seq<Instruction>) -> bool {
    &&& p.len() == q.len()
    &&& targets_resolved(p)
    &&& forall|k: int|
        0 <= k < p.len() ==> {
            &&& #[trigger] p[k].n == q[k].n
            &&& p[k].pos == q[k].pos
            &&& (is_begin(q[k]) <==> is_begin(p[k]))
            &&& !is_begin(q[k]) ==> p[k].op == q[k].op
        }
}

/// The outcome of scanning `p` for a bracket without a partner from index
/// `k` on: the first `EndLoop` with nothing open, else the first (leftmost)
/// loop left open at the end, else none.
pub open spec fn bracket_scan(p: Seq<Instruction>, k: int) -> Result<(), BracketCountMismatch>
    decreases p.len() - k,
{
    if k < 0 || k >= p.len() {
        let left = open_loops(p, p.len() as int);
        if left.len() > 0 {
            Err(BracketCountMismatch::MoreOpening(p[left[0] as int].pos))
        } else {
            Ok(())
        }
    } else if is_end(p[k]) && open_loops(p, k).len() == 0 {
        Err(BracketCountMismatch::MoreClosing(p[k].pos))
    } else {
        bracket_scan(p, k + 1)
    }
}

/// What bracket checking finds in the whole of `p`.
pub open spec fn bracket_check(p: Seq<Instruction>) -> Result<(), BracketCountMismatch> {
    bracket_scan(p, 0)
}

/// Every open loop was opened by a `BeginLoop` before `k`, and they are
/// listed in the order they were opened.
pub proof fn lemma_open_loops_ordered(p: Seq<Instruction>, k: int)
    requires
        0 <= k <= p.len(),
        p.len() <= usize::MAX,
    ensures
        forall|j: int|
            0 <= j < open_loops(p, k).len() ==> {
                &&& #[trigger] open_loops(p, k)[j] < k
                &&& is_begin(p[open_loops(p, k)[j] as int])
            },
        forall|i: int, j: int|
            0 <= i < j < open_loops(p, k).len() ==> open_loops(p, k)[i] < open_loops(p, k)[j],
    decreases k,
{
    if k > 0 {
        lemma_open_loops_ordered(p, k - 1);
        let prev = open_loops(p, k - 1);
        let cur = open_loops(p, k);
        if is_begin(p[k - 1]) {
            assert forall|j: int| 0 <= j < prev.len() implies #[trigger] cur[j] == prev[j] by {}
            assert(cur[prev.len() as int] == (k - 1) as usize);
        } else if is_end(p[k - 1]) && prev.len() > 0 {
            assert forall|j: int| 0 <= j < cur.len() implies #[trigger] cur[j] == prev[j] by {}
        }
    }
}

/// Once the loop opened at `b` is closed it stays closed; while it is open,
/// the loops around it are those open before `b`.
proof fn lemma_open_loops_keep(p: Seq<Instruction>, b: int, k: int)
    requires
        0 <= b < k <= p.len(),
        p.len() <= usize::MAX,
        is_begin(p[b]),
    ensures
        open_loops(p, k).contains(b as usize) ==> open_loops(p, k).len() > open_loops(p, b).len()
            && open_loops(p, k).subrange(0, open_loops(p, b).len() + 1int) == open_loops(
            p,
            b,
        ).push(b as usize),
    decreases k,
{
    let cur = open_loops(p, k);
    let base = open_loops(p, b).push(b as usize);
    if k == b + 1 {
        assert(cur.subrange(0, base.len() as int) =~= base);
    } else {
        lemma_open_loops_keep(p, b, k - 1);
        lemma_open_loops_ordered(p, k - 1);
        lemma_open_loops_ordered(p, b);
        let prev = open_loops(p, k - 1);
        if cur.contains(b as usize) {
            let j = choose|j: int| 0 <= j < cur.len() && cur[j] == b as usize;
            if is_begin(p[k - 1]) {
                assert(prev.contains(b as usize)) by {
                    if j < prev.len() {
                        assert(prev[j] == b as usize);
                    }
                }
                assert(cur.subrange(0, base.len() as int) =~= prev.subrange(0, base.len() as int));
            } else if is_end(p[k - 1]) && prev.len() > 0 {
                assert(prev[j] == b as usize);
                assert(prev.contains(b as usize));
                if prev.len() == base.len() {
                    assert(prev[prev.len() - 1] == prev.subrange(0, base.len() as int)[base.len() - 1]);
                    assert(prev[prev.len() - 1] == b as usize);
                    assert(j < prev.len() - 1);
                    assert(false);
                }
                assert(cur.subrange(0, base.len() as int) =~= prev.subrange(0, base.len() as int));
            } else {
                assert(prev.contains(b as usize));
            }
        }
    }
}

/// The loops open where the loop opened at `b` is innermost are exactly
/// those open just after `b`.
pub proof fn lemma_innermost_open_loop(p: Seq<Instruction>, b: int, k: int)
    requires
        0 <= b < k <= p.len(),
        p.len() <= usize::MAX,
        open_loops(p, k).len() > 0,
        open_loops(p, k).last() == b,
    ensures
        open_loops(p, k) == open_loops(p, b + 1),
{
    lemma_open_loops_ordered(p, k);
    let cur = open_loops(p, k);
    assert(is_begin(p[b]));
    assert(cur.contains(b as usize)) by {
        assert(cur[cur.len() - 1] == b as usize);
    }
    lemma_open_loops_keep(p, b, k);
    let base = open_loops(p, b).push(b as usize);
    if cur.len() > base.len() {
        assert(cur[base.len() - 1] == base[base.len() - 1]);
        assert(cur[base.len() - 1] < cur[cur.len() - 1]);
    }
    assert(cur =~= base);
}

/// Two instruction sequences with the same loops in the same places open
/// the same loops.
pub proof fn lemma_open_loops_same_shape(p: Seq<Instruction>, q: Seq<Instruction>, k: int)
    requires
        0 <= k <= p.len(),
        p.len() == q.len(),
        forall|j: int|
            0 <= j < p.len() ==> (is_begin(#[trigger] p[j]) <==> is_begin(q[j])) && (is_end(p[j])
                <==> is_end(q[j])),
    ensures
        open_loops(p, k) == open_loops(q, k),
    decreases k,
{
    if k > 0 {
        lemma_open_loops_same_shape(p, q, k - 1);
    }
}

/// Bracket checking finds nothing exactly where the loops are balanced.
pub proof fn lemma_bracket_check_balanced(p: Seq<Instruction>)
    ensures
        bracket_check(p) is Ok <==> balanced(p),
{
    lemma_bracket_scan_from(p, 0);
}

proof fn lemma_bracket_scan_from(p: Seq<Instruction>, k: int)
    requires
        0 <= k <= p.len(),
    ensures
        bracket_scan(p, k) is Ok <==> (forall|e: int|
            k <= e < p.len() && #[trigger] is_end(p[e]) ==> open_loops(p, e).len() > 0) && open_loops(
            p,
            p.len() as int,
        ).len() == 0,
    decreases p.len() - k,
{
    if k < p.len() {
        lemma_bracket_scan_from(p, k + 1);
        if bracket_scan(p, k) is Ok {
            assert forall|e: int|
                k <= e < p.len() && #[trigger] is_end(p[e]) implies open_loops(p, e).len() > 0 by {
                if e > k {
                }
            }
        }
    }
}

fn char_op(c: char) -> (r: Operation)
    ensures
        r == op_of_char(c),
{
    if c == '-' {
        Operation::CellDec
    } else if c == '+' {
        Operation::CellInc
    } else if c == '<' {
        Operation::TapeLeft
    } else if c == '>' {
        Operation::TapeRight
    } else if c == ',' {
        Operation::CellWrite
    } else if c == '.' {
        Operation::CellRead
    } else if c == '[' {
        Operation::BeginLoop(None)
    } else if c == ']' {
        Operation::EndLoop
    } else {
        Operation::TapePrint
    }
}

/// The instructions written in `s`, loop targets unset.
fn lex_chars(s: &Vec<char>) -> (r: Vec<Instruction>)
    ensures
        r@ == lexed(s@),
{
    let mut out: Vec<Instruction> = Vec::new();
    let mut i: usize = 0;
    let mut line: usize = 0;
    let mut col: usize = 0;
    while i < s.len()
        invariant
            i <= s.len(),
            line <= i,
            col <= i,
            out@ + lex(s@, i as int, line as int, col as int) == lexed(s@),
        decreases s.len() - i,
    {
        let c = s[i];
        let ghost rest = lex(s@, i as int, line as int, col as int);
        if c == '\r' {
            if i + 1 < s.len() && s[i + 1] == '\n' {
                i = i + 2;
            } else {
                i = i + 1;
            }
            line = line + 1;
            col = 0;
        } else if c == '\n' {
            i = i + 1;
            line = line + 1;
            col = 0;
        } else if c == '-' || c == '+' || c == '<' || c == '>' {
            let mut j: usize = i + 1;
            while j < s.len() && s[j] == c
                invariant
                    i < j <= s.len(),
                    s@[i as int] == c,
                    run_length(s@, i as int, c) == (j - i) + run_length(s@, j as int, c),
                decreases s.len() - j,
            {
                j = j + 1;
            }
            let k: usize = j - i;
            let ins = Instruction::new(k, char_op(c), Position { line_number: line, char_number: col });
            assert(rest == seq![ins] + lex(s@, j as int, line as int, (col + k) as int));
            out.push(ins);
            col = col + k;
            i = j;
            assert(out@ + lex(s@, i as int, line as int, col as int) =~= lexed(s@));
        } else if c == ',' || c == '.' || c == '[' || c == ']' {
            let ins = Instruction::new(1, char_op(c), Position { line_number: line, char_number: col });
            out.push(ins);
            i = i + 1;
            col = col + 1;
            assert(out@ + lex(s@, i as int, line as int, col as int) =~= lexed(s@));
        } else if c == '!' && s.len() - i > 4 && s[i + 1] == 'T' && s[i + 2] == 'A' && s[i + 3] == 'P'
            && s[i + 4] == 'E' {
            let ins = Instruction::new(
                1,
                Operation::TapePrint,
                Position { line_number: line, char_number: col },
            );
            out.push(ins);
            i = i + 5;
            col = col + 5;
            assert(out@ + lex(s@, i as int, line as int, col as int) =~= lexed(s@));
        } else {
            i = i + 1;
            col = col + 1;
        }
    }
    assert(out@ =~= lexed(s@));
    out
}

/// What bracket checking finds in `p`.
fn check_instructions(p: &Vec<Instruction>) -> (r: Result<(), BracketCountMismatch>)
    ensures
        r == bracket_check(p@),
{
    let mut stack: Vec<usize> = Vec::new();
    let mut k: usize = 0;
    while k < p.len()
        invariant
            k <= p.len(),
            stack@ == open_loops(p@, k as int),
            bracket_scan(p@, 0) == bracket_scan(p@, k as int),
        decreases p.len() - k,
    {
        match p[k].op {
            Operation::BeginLoop(_) => {
                stack.push(k);
            },
            Operation::EndLoop => {
                if stack.len() == 0 {
                    return Err(BracketCountMismatch::MoreClosing(p[k].pos));
                }
                stack.pop();
            },
            _ => {},
        }
        k = k + 1;
    }
    if stack.len() > 0 {
        proof {
            lemma_open_loops_ordered(p@, p@.len() as int);
        }
        let first = stack[0];
        Err(BracketCountMismatch::MoreOpening(p[first].pos))
    } else {
        Ok(())
    }
}

/// `p` holds the instructions of `q` in the same places, with at most the
/// targets of its `BeginLoop`s changed.
pub open spec fn same_places(q: Seq<Instruction>, p: Seq<Instruction>) -> bool {
    forall|k: int|
        0 <= k < q.len() ==> {
            &&& #[trigger] p[k].n == q[k].n
            &&& p[k].pos == q[k].pos
            &&& (is_begin(q[k]) <==> is_begin(p[k]))
            &&& (is_end(q[k]) <==> is_end(p[k]))
            &&& !is_begin(q[k]) ==> p[k].op == q[k].op
        }
}

/// Setting the target of a `BeginLoop` keeps every instruction in its place.
proof fn lemma_target_set_keeps_places(
    q: Seq<Instruction>,
    p: Seq<Instruction>,
    b: int,
    ins: Instruction,
)
    requires
        p.len() == q.len(),
        same_places(q, p),
        0 <= b < p.len(),
        is_begin(q[b]),
        ins.n == p[b].n,
        ins.pos == p[b].pos,
        ins.op is BeginLoop,
    ensures
        same_places(q, p.update(b, ins)),
{
    let r = p.update(b, ins);
    assert forall|k: int| 0 <= k < q.len() implies {
        &&& #[trigger] r[k].n == q[k].n
        &&& r[k].pos == q[k].pos
        &&& (is_begin(q[k]) <==> is_begin(r[k]))
        &&& (is_end(q[k]) <==> is_end(r[k]))
        &&& !is_begin(q[k]) ==> r[k].op == q[k].op
    } by {
        assert(p[k].n == q[k].n);
    }
}

/// Fills in the target of every `BeginLoop`: the address of its matching `EndLoop`.
fn fill_loops_addresses(instructions: &mut Vec<Instruction>)
    requires
        balanced(old(instructions)@),
        forall|k: int|
            0 <= k < old(instructions)@.len() && #[trigger] is_begin(old(instructions)@[k])
                ==> old(instructions)@[k].op == Operation::BeginLoop(None),
    ensures
        resolution_of(old(instructions)@, final(instructions)@),
{
    let ghost q = instructions@;
    let mut stack: Vec<usize> = Vec::new();
    let mut i: usize = 0;
    while i < instructions.len()
        invariant
            instructions@.len() == q.len(),
            i <= q.len(),
            stack@ == open_loops(q, i as int),
            balanced(q),
            same_places(q, instructions@),
            forall|k: int|
                0 <= k < q.len() && #[trigger] is_begin(q[k]) && (k >= i || open_loops(
                    q,
                    i as int,
                ).contains(k as usize)) ==> instructions@[k].op == Operation::BeginLoop(None),
            forall|k: int|
                0 <= k < i && #[trigger] is_begin(q[k]) && !open_loops(q, i as int).contains(
                    k as usize,
                ) ==> target_of(instructions@[k].op) is Some && loop_target(
                    q,
                    k,
                    target_of(instructions@[k].op)->0 as int,
                ),
        decreases q.len() - i,
    {
        proof {
            lemma_open_loops_ordered(q, i as int);
        }
        let ghost before = instructions@;
        let ghost open_now = open_loops(q, i as int);
        assert(instructions@[i as int].n == q[i as int].n);
        match instructions[i].op {
            Operation::BeginLoop(_) => {
                stack.push(i);
                proof {
                    let open_next = open_loops(q, i + 1);
                    assert(open_next == open_now.push(i as usize));
                    assert forall|k: int|
                        0 <= k < i + 1 && #[trigger] is_begin(q[k]) && !open_next.contains(
                            k as usize,
                        ) implies target_of(instructions@[k].op) is Some && loop_target(
                        q,
                        k,
                        target_of(instructions@[k].op)->0 as int,
                    ) by {
                        if k == i {
                            assert(open_next[open_now.len() as int] == k as usize);
                        } else {
                            if open_now.contains(k as usize) {
                                let j = choose|j: int| 0 <= j < open_now.len() && open_now[j] == k as usize;
                                assert(open_next[j] == k as usize);
                            }
                        }
                    }
                    assert forall|k: int|
                        0 <= k < q.len() && #[trigger] is_begin(q[k]) && (k >= i + 1
                            || open_next.contains(k as usize)) implies instructions@[k].op
                        == Operation::BeginLoop(None) by {
                        if k < i + 1 && k != i {
                            let j = choose|j: int| 0 <= j < open_next.len() && open_next[j] == k as usize;
                            assert(open_now[j] == k as usize);
                        }
                    }
                }
            },
            Operation::EndLoop => {
                assert(is_end(q[i as int]));
                let b = stack.pop().unwrap();
                let mut ins = instructions[b];
                ins.set_end_of_loop_address(i);
                instructions.set(b, ins);
                proof {
                    let open_next = open_loops(q, i + 1);
                    assert(open_next == open_now.drop_last());
                    assert(b == open_now.last());
                    assert(open_now[open_now.len() - 1] == b);
                    assert(is_begin(q[b as int]));
                    lemma_target_set_keeps_places(q, before, b as int, ins);
                    assert(loop_target(q, b as int, i as int));
                    assert(!open_next.contains(b)) by {
                        if open_next.contains(b) {
                            let j = choose|j: int| 0 <= j < open_next.len() && open_next[j] == b;
                            assert(open_now[j] == b);
                            assert(open_now[j] < open_now[open_now.len() - 1]);
                        }
                    }
                    assert forall|k: int|
                        0 <= k < i + 1 && #[trigger] is_begin(q[k]) && !open_next.contains(
                            k as usize,
                        ) implies target_of(instructions@[k].op) is Some && loop_target(
                        q,
                        k,
                        target_of(instructions@[k].op)->0 as int,
                    ) by {
                        if k != b {
                            if open_now.contains(k as usize) {
                                let j = choose|j: int| 0 <= j < open_now.len() && open_now[j] == k as usize;
                                if j < open_now.len() - 1 {
                                    assert(open_next[j] == k as usize);
                                } else {
                                    assert(k as usize == b);
                                }
                            }
                            assert(instructions@[k] == before[k]);
                        }
                    }
                    assert forall|k: int|
                        0 <= k < q.len() && #[trigger] is_begin(q[k]) && (k >= i + 1
                            || open_next.contains(k as usize)) implies instructions@[k].op
                        == Operation::BeginLoop(None) by {
                        if k < i + 1 {
                            let j = choose|j: int| 0 <= j < open_next.len() && open_next[j] == k as usize;
                            assert(open_now[j] == k as usize);
                        }
                        if k == b {
                            assert(open_next.contains(b));
                        }
                        assert(instructions@[k] == before[k]);
                    }
                }
            },
            _ => {
                proof {
                    assert(open_loops(q, i + 1) == open_now);
                }
            },
        }
        i = i + 1;
    }
    proof {
        assert forall|j: int| 0 <= j < q.len() implies (is_begin(#[trigger] instructions@[j])
            <==> is_begin(q[j])) && (is_end(instructions@[j]) <==> is_end(q[j])) by {
            assert(instructions@[j].n == q[j].n);
        }
        lemma_open_loops_same_shape(instructions@, q, q.len() as int);
        assert forall|b: int|
            0 <= b < instructions@.len() && #[trigger] is_begin(instructions@[b]) implies target_of(
            instructions@[b].op,
        ) is Some && loop_target(instructions@, b, target_of(instructions@[b].op)->0 as int) by {
            assert(is_begin(q[b]));
            let t = target_of(instructions@[b].op)->0 as int;
            lemma_open_loops_same_shape(instructions@, q, t);
        }
    }
}

/// A compiled program and where a run of it stands: the next instruction
/// to run and the loops entered so far.
#[derive(Debug)]
pub struct Program {
    pub instructions: Vec<Instruction>,
    /// Addresses of the `BeginLoop`s of the loops entered and not yet left.
    pub stack: Vec<usize>,
    /// Address of the next instruction to run.
    pub pc: usize,
}

impl Program {
    /// The instructions are balanced, every loop target is set, and the
    /// next address is at most one past the end.
    pub open spec fn wf(&self) -> bool {
        &&& balanced(self.instructions@)
        &&& targets_resolved(self.instructions@)
        &&& self.pc <= self.instructions@.len()
    }

    /// Between two instructions: the loops entered are those open before `pc`.
    pub open spec fn at_boundary(&self) -> bool {
        self.stack@ == open_loops(self.instructions@, self.pc as int)
    }

    /// After the instruction at `pc` has acted and before `pc` moves on: the
    /// loops entered are those open after `pc`.
    pub open spec fn settled(&self) -> bool {
        &&& self.pc < self.instructions@.len()
        &&& self.stack@ == open_loops(self.instructions@, self.pc + 1)
    }

    /// Goes back to the first instruction, with no loop entered.
    pub fn reset(&mut self)
        ensures
            final(self).instructions == old(self).instructions,
            final(self).pc == 0,
            final(self).stack@ == Seq::<usize>::empty(),
    {
        self.pc = 0;
        self.stack.clear();
    }

    /// The instruction at `pc`, if `pc` is within the program.
    pub fn fetch_instruction(&self) -> (r: Option<&Instruction>)
        ensures
            self.pc < self.instructions@.len() ==> r == Some(&self.instructions@[self.pc as int]),
            self.pc >= self.instructions@.len() ==> r is None,
    {
        if self.pc < self.instructions.len() {
            Some(&self.instructions[self.pc])
        } else {
            None
        }
    }

    /// Moves on to the next instruction.
    pub fn inc_pc(&mut self)
        requires
            old(self).pc < old(self).instructions@.len(),
        ensures
            final(self).pc == old(self).pc + 1,
            final(self).instructions == old(self).instructions,
            final(self).stack == old(self).stack,
    {
        let len = self.instructions.len();
        assert(self.pc < len);
        self.pc = self.pc + 1;
    }

    /// Makes `addr` the next instruction, if it is within the program.
    pub fn jump(&mut self, addr: usize)
        ensures
            final(self).pc == if addr < old(self).instructions@.len() {
                addr
            } else {
                old(self).pc
            },
            final(self).instructions == old(self).instructions,
            final(self).stack == old(self).stack,
    {
        if addr < self.instructions.len() {
            self.pc = addr;
        }
    }

    /// Runs the `BeginLoop` at `pc`: where the current cell is zero, goes to
    /// the matching `EndLoop` (to be stepped past); otherwise enters the loop.
    pub fn begin_loop(&mut self, cell_value: usize)
        requires
            old(self).wf(),
            old(self).pc < old(self).instructions@.len(),
            is_begin(old(self).instructions@[old(self).pc as int]),
        ensures
            final(self).wf(),
            final(self).instructions == old(self).instructions,
            cell_value == 0 ==> final(self).pc == target_of(
                old(self).instructions@[old(self).pc as int].op,
            )->0 && final(self).stack == old(self).stack,
            cell_value != 0 ==> final(self).pc == old(self).pc && final(self).stack@ == old(self).stack@.push(old(self).pc),
            old(self).at_boundary() ==> final(self).settled(),
    {
        let ghost p = self.instructions@;
        let ghost b = self.pc as int;
        let len = self.instructions.len();
        assert(p.len() <= usize::MAX);
        if cell_value == 0 {
            let t = match self.instructions[self.pc].op {
                Operation::BeginLoop(Some(t)) => t,
                _ => self.pc,
            };
            assert(loop_target(p, b, t as int));
            self.jump(t);
            proof {
                lemma_innermost_open_loop(p, b, t as int);
                assert(open_loops(p, b + 1) == open_loops(p, b).push(b as usize));
                assert(open_loops(p, t + 1) == open_loops(p, t as int).drop_last());
                assert(open_loops(p, b).push(b as usize).drop_last() =~= open_loops(p, b));
            }
        } else {
            let pc = self.pc;
            self.stack.push(pc);
        }
    }

    /// Runs the `EndLoop` at `pc`: where the current cell is zero, leaves the
    /// innermost loop entered; otherwise goes back to its `BeginLoop` (to be
    /// stepped past).
    pub fn end_loop(&mut self, cell_value: usize)
        requires
            old(self).wf(),
            old(self).pc < old(self).instructions@.len(),
            is_end(old(self).instructions@[old(self).pc as int]),
            cell_value != 0 ==> old(self).stack@.len() > 0,
        ensures
            final(self).wf(),
            final(self).instructions == old(self).instructions,
            cell_value == 0 ==> final(self).pc == old(self).pc && final(self).stack@ == if old(self).stack@.len() > 0 {
                old(self).stack@.drop_last()
            } else {
                old(self).stack@
            },
            cell_value != 0 ==> final(self).stack == old(self).stack && final(self).pc == if old(self).stack@.last() < old(self).instructions@.len() {
                old(self).stack@.last()
            } else {
                old(self).pc
            },
            old(self).at_boundary() ==> final(self).settled(),
    {
        let ghost p = self.instructions@;
        let ghost e = self.pc as int;
        let len = self.instructions.len();
        assert(p.len() <= usize::MAX);
        if cell_value == 0 {
            self.stack.pop();
        } else {
            let top = self.stack[self.stack.len() - 1];
            self.jump(top);
            proof {
                if old(self).at_boundary() {
                    lemma_open_loops_ordered(p, e);
                    let open_e = open_loops(p, e);
                    assert(open_e[open_e.len() - 1] < e);
                    lemma_innermost_open_loop(p, top as int, e);
                }
            }
        }
    }
}

impl Default for Program {
    /// The empty program.
    fn default() -> (r: Program)
        ensures
            r.instructions@.len() == 0,
            r.stack@.len() == 0,
            r.pc == 0,
            r.wf(),
            r.at_boundary(),
    {
        let r = Program { instructions: Vec::new(), stack: Vec::new(), pc: 0 };
        assert(r.stack@ =~= open_loops(r.instructions@, 0));
        r
    }
}

/// Why a loop of source text could not be entered or left.
#[derive(Debug, Clone, Copy, PartialEq, Eq, Structural)]
pub enum LoopError {
    /// A `[` to be skipped has no matching `]`.
    NoClosingBracket,
    /// A `]` was reached with no loop entered.
    NoOpeningBracket,
}

/// The number of `[` minus the number of `]` in `s[from..to]`.
pub open spec fn bracket_depth(s: Seq<char>, from: int, to: int) -> int
    decreases to - from,
{
    if to <= from {
        0
    } else {
        bracket_depth(s, from, to - 1) + if s[to - 1] == '[' {
            1int
        } else if s[to - 1] == ']' {
            -1int
        } else {
            0int
        }
    }
}

/// The first `]` at or after index `i` that brings the bracket depth
/// counted from `start` back to zero.
pub open spec fn closing_bracket_from(s: Seq<char>, start: int, i: int) -> Result<usize, ()>
    decreases s.len() - i,
{
    if i < 0 || i >= s.len() {
        Err(())
    } else if s[i] == ']' && bracket_depth(s, start, i + 1) == 0 {
        Ok(i as usize)
    } else {
        closing_bracket_from(s, start, i + 1)
    }
}

/// What a run of source text stops for.
#[derive(Debug, Clone, Copy, PartialEq, Eq, Structural)]
pub enum SourceError {
    Runtime(RuntimeError),
    Loop(LoopError),
}

/// A compiler from source text to programs. Its fields hold the state of a
/// run that reads the source text directly, loop by loop.
pub struct Parser {
    pub tape: Tape,
    pub program_counter: usize,
    pub stack: Vec<usize>,
}

impl Parser {
    /// Compiles `src`: its instructions, with every loop target set, or the
    /// first bracket without a partner.
    pub fn parse(src: &str) -> (r: Result<Program, BracketCountMismatch>)
        ensures
            r is Ok <==> brackets_balanced(src@),
            r is Ok <==> balanced(lexed(src@)),
            (first_extra_closing(src@, 0, 0, 0, 0) matches Some(pos) ==> (r matches Err(e) && e
                == BracketCountMismatch::MoreClosing(pos))),
            first_extra_closing(src@, 0, 0, 0, 0) is None && bracket_depth(
                src@,
                0,
                src@.len() as int,
            ) > 0 ==> (r matches Err(e) && e == BracketCountMismatch::MoreOpening(
                outermost_opening(src@, 0, 0, 0, 0, None)->0,
            )),
            match r {
                Ok(p) => {
                    &&& resolution_of(lexed(src@), p.instructions@)
                    &&& p.wf()
                    &&& p.pc == 0
                    &&& p.stack@.len() == 0
                },
                Err(e) => bracket_check(lexed(src@)) == Err::<(), BracketCountMismatch>(e),
            },
    {
        let chars = chars_of(src);
        let count = chars.len();
        let mut instructions = lex_chars(&chars);
        proof {
            assert(src@.len() == count);
            lemma_bracket_check_balanced(instructions@);
            lemma_balanced_iff_source_brackets(src@);
            lemma_first_extra_closing_reported(src@);
            if first_extra_closing(src@, 0, 0, 0, 0) is None && bracket_depth(
                src@,
                0,
                src@.len() as int,
            ) > 0 {
                lemma_outermost_opening_reported(src@);
            }
        }
        match check_instructions(&instructions) {
            Err(e) => {
                return Err(e);
            },
            Ok(()) => {},
        }
        proof {
            lemma_lexed_loops_unset(chars@, 0, 0, 0);
        }
        fill_loops_addresses(&mut instructions);
        let r = Program { instructions, stack: Vec::new(), pc: 0 };
        proof {
            let q = lexed(src@);
            assert forall|j: int| 0 <= j < q.len() implies (is_begin(#[trigger] r.instructions@[j])
                <==> is_begin(q[j])) && (is_end(r.instructions@[j]) <==> is_end(q[j])) by {
                assert(r.instructions@[j].n == q[j].n);
            }
            lemma_open_loops_same_shape(r.instructions@, q, q.len() as int);
            assert forall|e: int|
                0 <= e < r.instructions@.len() && #[trigger] is_end(r.instructions@[e]) implies open_loops(
                r.instructions@,
                e,
            ).len() > 0 by {
                lemma_open_loops_same_shape(r.instructions@, q, e);
                assert(is_end(q[e]));
            }
        }
        Ok(r)
    }

    /// The first bracket without a partner in `src`, if any, scanning left
    /// to right: a closing one with nothing open, else the leftmost opening
    /// one left open.
    pub fn check_brackets(src: &str) -> (r: Result<(), BracketCountMismatch>)
        ensures
            r == bracket_check(lexed(src@)),
            r is Ok <==> brackets_balanced(src@),
            (first_extra_closing(src@, 0, 0, 0, 0) matches Some(pos) ==> r == Err::<
                (),
                BracketCountMismatch,
            >(BracketCountMismatch::MoreClosing(pos))),
            first_extra_closing(src@, 0, 0, 0, 0) is None && bracket_depth(
                src@,
                0,
                src@.len() as int,
            ) > 0 ==> r == Err::<(), BracketCountMismatch>(
                BracketCountMismatch::MoreOpening(outermost_opening(src@, 0, 0, 0, 0, None)->0),
            ),
    {
        let chars = chars_of(src);
        let count = chars.len();
        let instructions = lex_chars(&chars);
        proof {
            assert(src@.len() == count);
            lemma_bracket_check_balanced(instructions@);
            lemma_balanced_iff_source_brackets(src@);
            lemma_first_extra_closing_reported(src@);
            if first_extra_closing(src@, 0, 0, 0, 0) is None && bracket_depth(
                src@,
                0,
                src@.len() as int,
            ) > 0 {
                lemma_outermost_opening_reported(src@);
            }
        }
        check_instructions(&instructions)
    }

    /// A run of source text at its first character, on a fresh tape.
    pub fn new() -> (r: Parser)
        ensures
            r.tape.wf(),
            r.tape.materialized() == seq![0usize],
            r.tape.current_position == 0,
            r.program_counter == 0,
            r.stack@.len() == 0,
    {
        Parser { tape: Tape::new(), program_counter: 0, stack: Vec::new() }
    }

    /// The index (in characters) of the `]` that closes the bracket at
    /// `start` of `program`: the first `]` from `start` on where as many
    /// `]` as `[` have been seen.
    pub fn find_closing_bracket(&self, start: usize, program: &str) -> (r: Result<usize, ()>)
        ensures
            r == closing_bracket_from(program@, start as int, start as int),
    {
        let chars = chars_of(program);
        let mut opened: usize = 0;
        let mut closed: usize = 0;
        let mut i: usize = start;
        while i < chars.len()
            invariant
                start <= i,
                opened <= i - start,
                closed <= i - start,
                chars@ == program@,
                opened - closed == bracket_depth(chars@, start as int, i as int),
                closing_bracket_from(chars@, start as int, start as int) == closing_bracket_from(
                    chars@,
                    start as int,
                    i as int,
                ),
            decreases chars.len() - i,
        {
            if chars[i] == '[' {
                opened = opened + 1;
            } else if chars[i] == ']' {
                closed = closed + 1;
                if opened == closed {
                    return Ok(i);
                }
            }
            i = i + 1;
        }
        Err(())
    }

    /// Reads the byte `input` into the current cell; `None` means the input
    /// is exhausted.
    pub fn handle_comma(&mut self, input: Option<u8>) -> (r: Result<(), RuntimeError>)
        requires
            old(self).tape.wf(),
        ensures
            final(self).tape.wf(),
            final(self).program_counter == old(self).program_counter,
            final(self).stack == old(self).stack,
            match input {
                None => r == Err::<(), RuntimeError>(RuntimeError::InputExhausted) && final(self).tape
                    == old(self).tape,
                Some(b) => r is Ok && final(self).tape.materialized() == old(self).tape.materialized().update(old(self).tape.current_position as int, b as usize)
                    && final(self).tape.current_position == old(self).tape.current_position
                    && final(self).tape.last_position == old(self).tape.last_position,
            },
    {
        match input {
            None => Err(RuntimeError::InputExhausted),
            Some(b) => {
                self.tape.set_current_value(b as usize);
                Ok(())
            },
        }
    }

    /// Runs the `[` at `program_counter` of `program`: where the current cell
    /// is zero, goes to its matching `]`; otherwise enters the loop.
    pub fn enter_loop(&mut self, program: &str) -> (r: Result<(), LoopError>)
        requires
            old(self).tape.wf(),
        ensures
            final(self).tape == old(self).tape,
            old(self).tape.current_value != 0 ==> r is Ok && final(self).program_counter == old(self).program_counter && final(self).stack@ == old(self).stack@.push(
                old(self).program_counter,
            ),
            old(self).tape.current_value == 0 ==> match closing_bracket_from(
                program@,
                old(self).program_counter as int,
                old(self).program_counter as int,
            ) {
                Ok(i) => r is Ok && final(self).program_counter == i && final(self).stack == old(self).stack,
                Err(_) => r == Err::<(), LoopError>(LoopError::NoClosingBracket) && final(self).program_counter
                    == old(self).program_counter && final(self).stack == old(self).stack,
            },
    {
        if self.tape.current_value == 0 {
            match self.find_closing_bracket(self.program_counter, program) {
                Ok(i) => {
                    self.program_counter = i;
                    Ok(())
                },
                Err(()) => Err(LoopError::NoClosingBracket),
            }
        } else {
            let pc = self.program_counter;
            self.stack.push(pc);
            Ok(())
        }
    }

    /// Every loop entered was entered at a character of a text `len` long.
    pub open spec fn loops_within(&self, len: nat) -> bool {
        forall|i: int| 0 <= i < self.stack@.len() ==> #[trigger] self.stack@[i] < len
    }

    /// Runs the character at `program_counter` of `program` straight from
    /// the text, then moves past it: `-` `+` `<` `>` act on the tape, `[`
    /// and `]` enter and leave loops, `.` hands back the current cell (as a
    /// decimal line in `numerical_mode`, else as a byte), `,` moves on and
    /// asks for the byte that `handle_comma` then takes, and `!TAPE` in
    /// `debug_mode` hands back a tape dump line. Other characters are
    /// comments. On an error nothing changes. At the end of the text,
    /// returns `Halt`.
    pub fn execute_step(&mut self, program: &str, numerical_mode: bool, debug_mode: bool) -> (r:
        Result<Action, SourceError>)
        requires
            old(self).tape.wf(),
            old(self).loops_within(program@.len()),
        ensures
            final(self).tape.wf(),
            final(self).loops_within(program@.len()),
            final(self).tape.last_position == old(self).tape.last_position,
            old(self).program_counter >= program@.len() ==> r == Ok::<Action, SourceError>(
                Action::Halt,
            ) && *final(self) == *old(self),
            old(self).program_counter < program@.len() ==> {
                let pc = old(self).program_counter as int;
                let c = program@[pc];
                let t = old(self).tape;
                let v = t.current_value;
                let cells = t.materialized();
                let pos = t.current_position as int;
                let moved_on = final(self).program_counter == pc + 1 && final(self).stack
                    == old(self).stack;
                if c == '-' {
                    r == Ok::<Action, SourceError>(Action::Continue) && moved_on
                        && final(self).tape.materialized() == cells.update(pos, wrapping_sub(v, 1))
                        && final(self).tape.current_position == pos
                } else if c == '+' {
                    r == Ok::<Action, SourceError>(Action::Continue) && moved_on
                        && final(self).tape.materialized() == cells.update(pos, wrapping_add(v, 1))
                        && final(self).tape.current_position == pos
                } else if c == '<' {
                    if pos == 0 {
                        r == Err::<Action, SourceError>(
                            SourceError::Runtime(RuntimeError::Tape(TapeError::NegativePosition)),
                        ) && *final(self) == *old(self)
                    } else {
                        r == Ok::<Action, SourceError>(Action::Continue) && moved_on
                            && final(self).tape.materialized() == cells
                            && final(self).tape.current_position == pos - 1
                    }
                } else if c == '>' {
                    if pos == t.last_position {
                        r == Err::<Action, SourceError>(
                            SourceError::Runtime(RuntimeError::Tape(TapeError::PastLastPosition)),
                        ) && *final(self) == *old(self)
                    } else {
                        r == Ok::<Action, SourceError>(Action::Continue) && moved_on
                            && final(self).tape.materialized() == grown(cells, pos + 2)
                            && final(self).tape.current_position == pos + 1
                    }
                } else if c == ',' {
                    r == Ok::<Action, SourceError>(Action::NeedInput) && moved_on
                        && final(self).tape == t
                } else if c == '.' {
                    moved_on && final(self).tape == t && if numerical_mode {
                        (r matches Ok(Action::Text(text)) && text@ == decimal(v as nat).push('\n'))
                    } else {
                        r == Ok::<Action, SourceError>(Action::Byte((v % 256) as u8))
                    }
                } else if c == '[' {
                    final(self).tape == t && if v != 0 {
                        r == Ok::<Action, SourceError>(Action::Continue) && final(self).program_counter
                            == pc + 1 && final(self).stack@ == old(self).stack@.push(pc as usize)
                    } else {
                        match closing_bracket_from(program@, pc, pc) {
                            Ok(i) => r == Ok::<Action, SourceError>(Action::Continue)
                                && final(self).program_counter == i + 1 && final(self).stack == old(
                            self).stack,
                            Err(_) => r == Err::<Action, SourceError>(
                                SourceError::Loop(LoopError::NoClosingBracket),
                            ) && *final(self) == *old(self),
                        }
                    }
                } else if c == ']' {
                    final(self).tape == t && if old(self).stack@.len() == 0 {
                        r == Err::<Action, SourceError>(
                            SourceError::Loop(LoopError::NoOpeningBracket),
                        ) && *final(self) == *old(self)
                    } else if v == 0 {
                        r == Ok::<Action, SourceError>(Action::Continue) && final(self).program_counter
                            == pc + 1 && final(self).stack@ == old(self).stack@.drop_last()
                    } else {
                        r == Ok::<Action, SourceError>(Action::Continue) && final(self).program_counter
                            == old(self).stack@.last() + 1 && final(self).stack == old(self).stack
                    }
                } else if c == '!' && debug_mode && tape_marker_at(program@, pc) {
                    moved_on && final(self).tape == t && (r matches Ok(Action::Dump(text)) && text@
                        == dump_text(t).push('\n'))
                } else {
                    r == Ok::<Action, SourceError>(Action::Continue) && moved_on && final(self).tape
                        == t
                }
            },
    {
        let len = program.unicode_len();
        if self.program_counter >= len {
            return Ok(Action::Halt);
        }
        let pc = self.program_counter;
        let c = program.get_char(pc);
        let ghost cells = self.tape.materialized();
        let action = if c == '-' {
            self.tape.dec(1);
            Action::Continue
        } else if c == '+' {
            self.tape.inc(1);
            Action::Continue
        } else if c == '<' {
            match self.tape.move_left(1) {
                Err(e) => {
                    return Err(SourceError::Runtime(RuntimeError::Tape(e)));
                },
                Ok(()) => {},
            }
            Action::Continue
        } else if c == '>' {
            match self.tape.move_right(1) {
                Err(e) => {
                    return Err(SourceError::Runtime(RuntimeError::Tape(e)));
                },
                Ok(()) => {},
            }
            Action::Continue
        } else if c == ',' {
            Action::NeedInput
        } else if c == '.' {
            if numerical_mode {
                let mut out: Vec<char> = Vec::new();
                push_decimal(&mut out, self.tape.current_value);
                out.push('\n');
                Action::Text(string_from_chars(&out))
            } else {
                Action::Byte((self.tape.current_value % 256) as u8)
            }
        } else if c == '[' {
            match self.enter_loop(program) {
                Err(e) => {
                    return Err(SourceError::Loop(e));
                },
                Ok(()) => {},
            }
            proof {
                if self.program_counter != pc {
                    lemma_closing_bracket_within(program@, pc as int, pc as int);
                }
            }
            Action::Continue
        } else if c == ']' {
            match self.leave_loop() {
                Err(e) => {
                    return Err(SourceError::Loop(e));
                },
                Ok(()) => {},
            }
            proof {
                if old(self).tape.current_value != 0 {
                    assert(old(self).stack@[old(self).stack@.len() - 1] < len);
                }
                assert forall|i: int| 0 <= i < self.stack@.len() implies #[trigger] self.stack@[i]
                    < program@.len() by {
                    assert(self.stack@[i] == old(self).stack@[i]);
                }
            }
            Action::Continue
        } else if c == '!' && debug_mode && len - pc > 4 && program.get_char(pc + 1) == 'T'
            && program.get_char(pc + 2) == 'A' && program.get_char(pc + 3) == 'P' && program.get_char(
            pc + 4,
        ) == 'E' {
            let mut out: Vec<char> = vec!['!', 'T', 'A', 'P', 'E', ':', ' '];
            self.tape.push_rendering(&mut out);
            out.push('\n');
            assert(out@ =~= dump_text(self.tape).push('\n'));
            Action::Dump(string_from_chars(&out))
        } else {
            Action::Continue
        };
        self.program_counter = self.program_counter + 1;
        Ok(action)
    }

    /// Runs a `]`: where the current cell is zero, leaves the innermost loop
    /// entered; otherwise goes back to its `[`.
    pub fn leave_loop(&mut self) -> (r: Result<(), LoopError>)
        requires
            old(self).tape.wf(),
        ensures
            final(self).tape == old(self).tape,
            old(self).stack@.len() == 0 ==> r == Err::<(), LoopError>(LoopError::NoOpeningBracket)
                && final(self).program_counter == old(self).program_counter && final(self).stack
                == old(self).stack,
            old(self).stack@.len() > 0 && old(self).tape.current_value == 0 ==> r is Ok && final(self).program_counter == old(self).program_counter && final(self).stack@ == old(self).stack@.drop_last(),
            old(self).stack@.len() > 0 && old(self).tape.current_value != 0 ==> r is Ok && final(self).program_counter == old(self).stack@.last() && final(self).stack == old(self).stack,
    {
        if self.stack.len() == 0 {
            return Err(LoopError::NoOpeningBracket);
        }
        let top = self.stack[self.stack.len() - 1];
        if self.tape.current_value == 0 {
            self.stack.pop();
        } else {
            self.program_counter = top;
        }
        Ok(())
    }
}

/// The lexer leaves every loop target unset.
proof fn lemma_lexed_loops_unset(s: Seq<char>, i: int, line: int, col: int)
    ensures
        forall|k: int|
            0 <= k < lex(s, i, line, col).len() && #[trigger] is_begin(lex(s, i, line, col)[k])
                ==> lex(s, i, line, col)[k].op == Operation::BeginLoop(None),
    decreases s.len() - i,
{
    if 0 <= i < s.len() {
        let c = s[i];
        lemma_run_length_bounds(s, i, c);
        if c == '\r' {
            if i + 1 < s.len() && s[i + 1] == '\n' {
                lemma_lexed_loops_unset(s, i + 2, line + 1, 0);
            } else {
                lemma_lexed_loops_unset(s, i + 1, line + 1, 0);
            }
        } else if c == '\n' {
            lemma_lexed_loops_unset(s, i + 1, line + 1, 0);
        } else if groupable(c) {
            let k = run_length(s, i, c) as int;
            lemma_lexed_loops_unset(s, i + k, line, col + k);
        } else if single(c) {
            lemma_lexed_loops_unset(s, i + 1, line, col + 1);
        } else if tape_marker_at(s, i) {
            lemma_lexed_loops_unset(s, i + 5, line, col + 5);
        } else {
            lemma_lexed_loops_unset(s, i + 1, line, col + 1);
        }
        let r = lex(s, i, line, col);
        assert forall|k: int| 0 <= k < r.len() && #[trigger] is_begin(r[k]) implies r[k].op
            == Operation::BeginLoop(None) by {
            if c != '\r' && c != '\n' && (groupable(c) || single(c) || tape_marker_at(s, i)) && k > 0 {
                let rest = if groupable(c) {
                    lex(s, i + run_length(s, i, c) as int, line, col + run_length(s, i, c) as int)
                } else if single(c) {
                    lex(s, i + 1, line, col + 1)
                } else {
                    lex(s, i + 5, line, col + 5)
                };
                assert(r[k] == rest[k - 1]);
            }
        }
    }
}

proof fn lemma_uniform_run_length(s: Seq<char>, c: char, j: int)
    requires
        0 <= j <= s.len(),
        forall|i: int| 0 <= i < s.len() ==> s[i] == c,
    ensures
        run_length(s, j, c) == s.len() - j,
    decreases s.len() - j,
{
    if j < s.len() {
        lemma_uniform_run_length(s, c, j + 1);
    }
}

/// A source text made of one groupable character repeated `n` times
/// compiles to exactly one instruction, repeating that operation `n` times,
/// and has no loops to resolve.
pub proof fn lemma_run_compiles_to_one_instruction(s: Seq<char>, c: char)
    requires
        groupable(c),
        s.len() >= 1,
        forall|i: int| 0 <= i < s.len() ==> s[i] == c,
    ensures
        lexed(s) == seq![instruction_at(s.len() as int, op_of_char(c), 0, 0)],
        balanced(lexed(s)),
{
    lemma_uniform_run_length(s, c, 0);
    let k = s.len() as int;
    assert(lex(s, k, 0, k) == Seq::<Instruction>::empty());
    assert(lexed(s) =~= seq![instruction_at(k, op_of_char(c), 0, 0)]);
    let p = lexed(s);
    assert(open_loops(p, 0) == Seq::<usize>::empty());
    assert(open_loops(p, 1) == Seq::<usize>::empty());
}

proof fn lemma_closing_bracket_within(s: Seq<char>, start: int, i: int)
    requires
        0 <= i,
        s.len() <= usize::MAX,
        closing_bracket_from(s, start, i) is Ok,
    ensures
        closing_bracket_from(s, start, i)->Ok_0 < s.len(),
        closing_bracket_from(s, start, i)->Ok_0 >= i,
    decreases s.len() - i,
{
    if 0 <= i < s.len() && !(s[i] == ']' && bracket_depth(s, start, i + 1) == 0) {
        lemma_closing_bracket_within(s, start, i + 1);
    }
}

} // verus!
