//! Why the compiler's bracket check is a check on the source text: the
//! loops it finds balanced are exactly those whose brackets nest properly.
use vstd::prelude::*;
use super::instruction::Instruction;
use super::utils::{BracketCountMismatch, Position};
use super::{
    balanced, bracket_check, bracket_depth, bracket_scan, groupable, instruction_at, is_begin,
    is_end, lemma_run_length_bounds, lex, lexed, op_of_char, open_loops, run_length, single,
    tape_marker_at,
};

verus! {

/// The brackets of `s` are properly nested: no prefix closes more loops
/// than it opens, and the whole text closes all it opens.
pub open spec fn brackets_balanced(s: Seq<char>) -> bool {
    &&& forall|j: int| 0 <= j <= s.len() ==> #[trigger] bracket_depth(s, 0, j) >= 0
    &&& bracket_depth(s, 0, s.len() as int) == 0
}

/// +1 for a `BeginLoop`, -1 for an `EndLoop`, 0 for the rest.
pub open spec fn loop_step(x: Instruction) -> int {
    if is_begin(x) {
        1
    } else if is_end(x) {
        -1
    } else {
        0
    }
}

/// The number of `BeginLoop`s minus the number of `EndLoop`s among the first
/// `k` instructions of `p`.
pub open spec fn loop_depth(p: Seq<Instruction>, k: int) -> int
    decreases k,
{
    if k <= 0 {
        0
    } else {
        loop_depth(p, k - 1) + loop_step(p[k - 1])
    }
}

/// +1 for `[`, -1 for `]`, 0 for the rest.
pub open spec fn char_step(c: char) -> int {
    if c == '[' {
        1
    } else if c == ']' {
        -1
    } else {
        0
    }
}

proof fn lemma_loop_depth_front(x: Instruction, rest: Seq<Instruction>, k: int)
    requires
        1 <= k <= rest.len() + 1,
    ensures
        loop_depth(seq![x] + rest, k) == loop_step(x) + loop_depth(rest, k - 1),
    decreases k,
{
    let p = seq![x] + rest;
    assert(p[0] == x);
    assert(loop_depth(p, 0) == 0);
    assert(loop_depth(rest, 0) == 0);
    if k > 1 {
        lemma_loop_depth_front(x, rest, k - 1);
        assert(p[k - 1] == rest[k - 2]);
        assert(loop_depth(rest, k - 1) == loop_depth(rest, k - 2) + loop_step(rest[k - 2]));
    }
}

proof fn lemma_bracket_depth_front(s: Seq<char>, i: int, j: int)
    requires
        0 <= i < j <= s.len(),
    ensures
        bracket_depth(s, i, j) == char_step(s[i]) + bracket_depth(s, i + 1, j),
    decreases j - i,
{
    assert(bracket_depth(s, i, i) == 0);
    assert(bracket_depth(s, i + 1, i + 1) == 0);
    assert(bracket_depth(s, i, j) == bracket_depth(s, i, j - 1) + char_step(s[j - 1]));
    if j > i + 1 {
        assert(bracket_depth(s, i + 1, j) == bracket_depth(s, i + 1, j - 1) + char_step(s[j - 1]));
        lemma_bracket_depth_front(s, i, j - 1);
    }
}

/// Characters `i..i + m` of `s` hold no bracket: they leave the depth as it is.
proof fn lemma_no_brackets(s: Seq<char>, i: int, m: int, j: int)
    requires
        0 <= i,
        0 <= m,
        i + m <= s.len(),
        i <= j <= s.len(),
        forall|t: int| i <= t < i + m ==> #[trigger] char_step(s[t]) == 0,
    ensures
        j <= i + m ==> bracket_depth(s, i, j) == 0,
        j >= i + m ==> bracket_depth(s, i, j) == bracket_depth(s, i + m, j),
    decreases m,
{
    if m > 0 && j > i {
        lemma_bracket_depth_front(s, i, j);
        assert(char_step(s[i]) == 0);
        lemma_no_brackets(s, i + 1, m - 1, j);
    }
}

proof fn lemma_run_chars(s: Seq<char>, i: int, c: char, t: int)
    requires
        0 <= i <= t < i + run_length(s, i, c),
    ensures
        s[t] == c,
    decreases t - i,
{
    if t > i {
        lemma_run_chars(s, i + 1, c, t);
    }
}

/// The loop depths along the instructions lexed from index `i` on take the
/// same lowest bound, and end at the same value, as the bracket depths
/// along the characters from `i` on.
proof fn lemma_lex_depth(s: Seq<char>, i: int, line: int, col: int, c: int)
    requires
        0 <= i <= s.len(),
    ensures
        loop_depth(lex(s, i, line, col), lex(s, i, line, col).len() as int) == bracket_depth(
            s,
            i,
            s.len() as int,
        ),
        (forall|k: int|
            0 <= k <= lex(s, i, line, col).len() ==> #[trigger] loop_depth(lex(s, i, line, col), k)
                >= c) <==> (forall|j: int| i <= j <= s.len() ==> #[trigger] bracket_depth(s, i, j) >= c),
    decreases s.len() - i,
{
    let p = lex(s, i, line, col);
    if i == s.len() {
        assert forall|j: int| i <= j <= s.len() implies #[trigger] bracket_depth(s, i, j) == 0 by {}
        if forall|j: int| i <= j <= s.len() ==> #[trigger] bracket_depth(s, i, j) >= c {
            assert(bracket_depth(s, i, i) >= c);
        }
    } else {
        let ch = s[i];
        lemma_run_length_bounds(s, i, ch);
        // how many characters this step of the lexer takes, and what it yields
        let m: int = if ch == '\r' {
            if i + 1 < s.len() && s[i + 1] == '\n' {
                2
            } else {
                1
            }
        } else if ch == '\n' {
            1
        } else if groupable(ch) {
            run_length(s, i, ch) as int
        } else if single(ch) {
            1
        } else if tape_marker_at(s, i) {
            5
        } else {
            1
        };
        let (nline, ncol) = if ch == '\r' || ch == '\n' {
            (line + 1, 0)
        } else {
            (line, col + m)
        };
        let rest = lex(s, i + m, nline, ncol);
        let emits = ch != '\r' && ch != '\n' && (groupable(ch) || single(ch) || tape_marker_at(s, i));
        if emits {
            assert(p == seq![p[0]] + rest);
        } else {
            assert(p == rest);
        }
        if ch == '[' || ch == ']' {
            let d = char_step(ch);
            assert(loop_step(p[0]) == d);
            lemma_lex_depth(s, i + 1, nline, ncol, c - d);
            lemma_loop_depth_front(p[0], rest, p.len() as int);
            lemma_bracket_depth_front(s, i, s.len() as int);
            if forall|k: int| 0 <= k <= p.len() ==> #[trigger] loop_depth(p, k) >= c {
                assert(0 >= c) by {
                    assert(loop_depth(p, 0) >= c);
                }
                assert forall|k: int| 0 <= k <= rest.len() implies #[trigger] loop_depth(rest, k)
                    >= c - d by {
                    lemma_loop_depth_front(p[0], rest, k + 1);
                    assert(loop_depth(p, k + 1) >= c);
                }
                assert forall|j: int| i <= j <= s.len() implies #[trigger] bracket_depth(s, i, j)
                    >= c by {
                    if j > i {
                        lemma_bracket_depth_front(s, i, j);
                        assert(bracket_depth(s, i + 1, j) >= c - d);
                    }
                }
            }
            if forall|j: int| i <= j <= s.len() ==> #[trigger] bracket_depth(s, i, j) >= c {
                assert(0 >= c) by {
                    assert(bracket_depth(s, i, i) >= c);
                }
                assert forall|j: int| i + 1 <= j <= s.len() implies #[trigger] bracket_depth(
                    s,
                    i + 1,
                    j,
                ) >= c - d by {
                    lemma_bracket_depth_front(s, i, j);
                    assert(bracket_depth(s, i, j) >= c);
                }
                assert forall|k: int| 0 <= k <= p.len() implies #[trigger] loop_depth(p, k) >= c by {
                    if k > 0 {
                        lemma_loop_depth_front(p[0], rest, k);
                        assert(loop_depth(rest, k - 1) >= c - d);
                    }
                }
            }
        } else {
            assert forall|t: int| i <= t < i + m implies #[trigger] char_step(s[t]) == 0 by {
                if groupable(ch) {
                    lemma_run_chars(s, i, ch, t);
                }
            }
            lemma_lex_depth(s, i + m, nline, ncol, c);
            lemma_no_brackets(s, i, m, s.len() as int);
            if emits {
                assert(loop_step(p[0]) == 0);
                lemma_loop_depth_front(p[0], rest, p.len() as int);
            }
            if forall|k: int| 0 <= k <= p.len() ==> #[trigger] loop_depth(p, k) >= c {
                assert(0 >= c) by {
                    assert(loop_depth(p, 0) >= c);
                }
                assert forall|k: int| 0 <= k <= rest.len() implies #[trigger] loop_depth(rest, k)
                    >= c by {
                    if emits {
                        lemma_loop_depth_front(p[0], rest, k + 1);
                        assert(loop_depth(p, k + 1) >= c);
                    } else {
                        assert(loop_depth(p, k) >= c);
                    }
                }
                assert forall|j: int| i <= j <= s.len() implies #[trigger] bracket_depth(s, i, j)
                    >= c by {
                    lemma_no_brackets(s, i, m, j);
                    if j >= i + m {
                        assert(bracket_depth(s, i + m, j) >= c);
                    }
                }
            }
            if forall|j: int| i <= j <= s.len() ==> #[trigger] bracket_depth(s, i, j) >= c {
                assert(0 >= c) by {
                    assert(bracket_depth(s, i, i) >= c);
                }
                assert forall|j: int| i + m <= j <= s.len() implies #[trigger] bracket_depth(
                    s,
                    i + m,
                    j,
                ) >= c by {
                    lemma_no_brackets(s, i, m, j);
                    assert(bracket_depth(s, i, j) >= c);
                }
                assert forall|k: int| 0 <= k <= p.len() implies #[trigger] loop_depth(p, k) >= c by {
                    if emits && k > 0 {
                        lemma_loop_depth_front(p[0], rest, k);
                        assert(loop_depth(rest, k - 1) >= c);
                    } else if !emits {
                        assert(loop_depth(rest, k) >= c);
                    }
                }
            }
        }
    }
}

proof fn lemma_open_loops_follow_depth(p: Seq<Instruction>, k: int)
    requires
        0 <= k <= p.len(),
        forall|j: int| 0 <= j <= k ==> #[trigger] loop_depth(p, j) >= 0,
    ensures
        open_loops(p, k).len() == loop_depth(p, k),
    decreases k,
{
    if k > 0 {
        assert(loop_depth(p, k - 1) >= 0);
        assert(loop_depth(p, k) >= 0);
        lemma_open_loops_follow_depth(p, k - 1);
    }
}

proof fn lemma_balanced_open_loops_follow_depth(p: Seq<Instruction>, k: int)
    requires
        0 <= k <= p.len(),
        balanced(p),
    ensures
        open_loops(p, k).len() == loop_depth(p, k),
    decreases k,
{
    if k > 0 {
        lemma_balanced_open_loops_follow_depth(p, k - 1);
        if is_end(p[k - 1]) {
            assert(open_loops(p, k - 1).len() > 0);
        }
    }
}

/// Loops are balanced exactly where no prefix has a negative loop depth and
/// the whole has depth zero.
proof fn lemma_balanced_by_depth(p: Seq<Instruction>)
    ensures
        balanced(p) <==> (forall|k: int| 0 <= k <= p.len() ==> #[trigger] loop_depth(p, k) >= 0)
            && loop_depth(p, p.len() as int) == 0,
{
    if balanced(p) {
        assert forall|k: int| 0 <= k <= p.len() implies #[trigger] loop_depth(p, k) >= 0 by {
            lemma_balanced_open_loops_follow_depth(p, k);
        }
        lemma_balanced_open_loops_follow_depth(p, p.len() as int);
    }
    if (forall|k: int| 0 <= k <= p.len() ==> #[trigger] loop_depth(p, k) >= 0) && loop_depth(
        p,
        p.len() as int,
    ) == 0 {
        assert forall|e: int| 0 <= e < p.len() && #[trigger] is_end(p[e]) implies open_loops(
            p,
            e,
        ).len() > 0 by {
            lemma_open_loops_follow_depth(p, e);
            assert(loop_depth(p, e + 1) >= 0);
        }
        lemma_open_loops_follow_depth(p, p.len() as int);
    }
}

/// The compiler finds the loops balanced exactly where the brackets of the
/// source text are properly nested.
pub proof fn lemma_balanced_iff_source_brackets(s: Seq<char>)
    ensures
        balanced(lexed(s)) <==> brackets_balanced(s),
{
    lemma_balanced_by_depth(lexed(s));
    lemma_lex_depth(s, 0, 0, 0, 0);
}

/// Scanning the characters of `s` from index `i`, which stands at line
/// `line`, column `col`, with `d` loops open: the place of the first `]`
/// that finds no loop open, that is the first `]` at which the text read so
/// far closes more loops than it opens. Line endings are counted as the
/// compiler counts them.
pub open spec fn first_extra_closing(s: Seq<char>, i: int, d: int, line: int, col: int) -> Option<
    Position,
>
    decreases s.len() - i,
{
    if i < 0 || i >= s.len() {
        None
    } else if s[i] == '\r' {
        if i + 1 < s.len() && s[i + 1] == '\n' {
            first_extra_closing(s, i + 2, d, line + 1, 0)
        } else {
            first_extra_closing(s, i + 1, d, line + 1, 0)
        }
    } else if s[i] == '\n' {
        first_extra_closing(s, i + 1, d, line + 1, 0)
    } else if s[i] == ']' && d == 0 {
        Some(Position { line_number: line as usize, char_number: col as usize })
    } else {
        first_extra_closing(s, i + 1, d + char_step(s[i]), line, col + 1)
    }
}

/// The same scan over instructions: the place of the first `EndLoop` from
/// index `m` on that finds no loop open, `d` loops being open before `m`.
pub open spec fn first_extra_end(p: Seq<Instruction>, m: int, d: int) -> Option<Position>
    decreases p.len() - m,
{
    if m < 0 || m >= p.len() {
        None
    } else if is_end(p[m]) && d == 0 {
        Some(p[m].pos)
    } else {
        first_extra_end(p, m + 1, d + loop_step(p[m]))
    }
}

proof fn lemma_first_extra_end_front(x: Instruction, rest: Seq<Instruction>, m: int, d: int)
    requires
        0 <= m <= rest.len(),
    ensures
        first_extra_end(seq![x] + rest, m + 1, d) == first_extra_end(rest, m, d),
    decreases rest.len() - m,
{
    let p = seq![x] + rest;
    if m < rest.len() {
        assert(p[m + 1] == rest[m]);
        lemma_first_extra_end_front(x, rest, m + 1, d + loop_step(rest[m]));
    }
}

/// A character that is neither a bracket nor a line ending.
pub open spec fn plain_char(c: char) -> bool {
    char_step(c) == 0 && c != '\r' && c != '\n' && c != ']'
}

/// Characters `i..i + m` of `s` are neither brackets nor line endings: the
/// scan passes over them, one column each.
proof fn lemma_first_extra_closing_skip(s: Seq<char>, i: int, m: int, d: int, line: int, col: int)
    requires
        0 <= i,
        0 <= m,
        i + m <= s.len(),
        forall|t: int| i <= t < i + m ==> #[trigger] plain_char(s[t]),
    ensures
        first_extra_closing(s, i, d, line, col) == first_extra_closing(s, i + m, d, line, col + m),
    decreases m,
{
    if m > 0 {
        assert(plain_char(s[i]));
        lemma_first_extra_closing_skip(s, i + 1, m - 1, d, line, col + 1);
    }
}

/// Scanning the lexed instructions finds the extra `EndLoop` where scanning
/// the characters finds the extra `]`.
proof fn lemma_lex_first_extra(s: Seq<char>, i: int, line: int, col: int, d: int)
    requires
        0 <= i <= s.len(),
    ensures
        first_extra_end(lex(s, i, line, col), 0, d) == first_extra_closing(s, i, d, line, col),
    decreases s.len() - i,
{
    if i < s.len() {
        let p = lex(s, i, line, col);
        let ch = s[i];
        lemma_run_length_bounds(s, i, ch);
        if ch == '\r' {
            if i + 1 < s.len() && s[i + 1] == '\n' {
                lemma_lex_first_extra(s, i + 2, line + 1, 0, d);
            } else {
                lemma_lex_first_extra(s, i + 1, line + 1, 0, d);
            }
        } else if ch == '\n' {
            lemma_lex_first_extra(s, i + 1, line + 1, 0, d);
        } else if groupable(ch) {
            let k = run_length(s, i, ch) as int;
            let rest = lex(s, i + k, line, col + k);
            let x = instruction_at(k, op_of_char(ch), line, col);
            assert(p == seq![x] + rest);
            lemma_lex_first_extra(s, i + k, line, col + k, d);
            lemma_first_extra_end_front(x, rest, 0, d);
            assert forall|t: int| i <= t < i + k implies #[trigger] plain_char(s[t]) by {
                lemma_run_chars(s, i, ch, t);
                assert(s[t] == ch);
                assert(groupable(ch));
            }
            lemma_first_extra_closing_skip(s, i, k, d, line, col);
            assert(first_extra_end(p, 0, d) == first_extra_end(p, 1, d));
        } else if single(ch) {
            let rest = lex(s, i + 1, line, col + 1);
            let x = instruction_at(1, op_of_char(ch), line, col);
            assert(p == seq![x] + rest);
            lemma_lex_first_extra(s, i + 1, line, col + 1, d + char_step(ch));
            lemma_first_extra_end_front(x, rest, 0, d + char_step(ch));
            assert(loop_step(x) == char_step(ch));
        } else if tape_marker_at(s, i) {
            let rest = lex(s, i + 5, line, col + 5);
            let x = instruction_at(1, super::instruction::Operation::TapePrint, line, col);
            assert(p == seq![x] + rest);
            lemma_lex_first_extra(s, i + 5, line, col + 5, d);
            lemma_first_extra_end_front(x, rest, 0, d);
            assert forall|t: int| i <= t < i + 5 implies #[trigger] plain_char(s[t]) by {
                assert(t == i || t == i + 1 || t == i + 2 || t == i + 3 || t == i + 4);
            }
            lemma_first_extra_closing_skip(s, i, 5, d, line, col);
            assert(first_extra_end(p, 0, d) == first_extra_end(p, 1, d));
        } else {
            lemma_lex_first_extra(s, i + 1, line, col + 1, d);
        }
    }
}

/// Bracket checking reports an extra closing bracket exactly where the
/// instruction scan finds one.
proof fn lemma_bracket_scan_first_extra(p: Seq<Instruction>, m: int)
    requires
        0 <= m <= p.len(),
    ensures
        first_extra_end(p, m, open_loops(p, m).len() as int) matches Some(pos) ==> bracket_scan(
            p,
            m,
        ) == Err::<(), BracketCountMismatch>(BracketCountMismatch::MoreClosing(pos)),
        first_extra_end(p, m, open_loops(p, m).len() as int) is None ==> !(bracket_scan(
            p,
            m,
        ) matches Err(BracketCountMismatch::MoreClosing(_))),
    decreases p.len() - m,
{
    if m < p.len() {
        let d = open_loops(p, m).len() as int;
        if !(is_end(p[m]) && d == 0) {
            lemma_bracket_scan_first_extra(p, m + 1);
            assert(open_loops(p, m + 1).len() == d + loop_step(p[m]));
        }
    }
}

/// The first `]` of the source at which the text read so far closes more
/// loops than it opens is where the compiler reports an extra closing
/// bracket; where there is no such `]`, it reports none.
pub proof fn lemma_first_extra_closing_reported(s: Seq<char>)
    ensures
        first_extra_closing(s, 0, 0, 0, 0) matches Some(pos) ==> bracket_check(lexed(s)) == Err::<
            (),
            BracketCountMismatch,
        >(BracketCountMismatch::MoreClosing(pos)),
        first_extra_closing(s, 0, 0, 0, 0) is None ==> !(bracket_check(lexed(s)) matches Err(
            BracketCountMismatch::MoreClosing(_),
        )),
{
    lemma_lex_first_extra(s, 0, 0, 0, 0);
    lemma_bracket_scan_first_extra(lexed(s), 0);
}

/// Scanning the characters of `s` from index `i` (at line `line`, column
/// `col`) with `d` loops open: the place of the last `[` met with no loop
/// open, or `last` where there is none. Where the text closes no more than
/// it opens and leaves loops open, this `[` opens the outermost of them:
/// the first opening bracket without a partner.
pub open spec fn outermost_opening(
    s: Seq<char>,
    i: int,
    d: int,
    line: int,
    col: int,
    last: Option<Position>,
) -> Option<Position>
    decreases s.len() - i,
{
    if i < 0 || i >= s.len() {
        last
    } else if s[i] == '\r' {
        if i + 1 < s.len() && s[i + 1] == '\n' {
            outermost_opening(s, i + 2, d, line + 1, 0, last)
        } else {
            outermost_opening(s, i + 1, d, line + 1, 0, last)
        }
    } else if s[i] == '\n' {
        outermost_opening(s, i + 1, d, line + 1, 0, last)
    } else if s[i] == '[' && d == 0 {
        outermost_opening(
            s,
            i + 1,
            1,
            line,
            col + 1,
            Some(Position { line_number: line as usize, char_number: col as usize }),
        )
    } else {
        outermost_opening(s, i + 1, d + char_step(s[i]), line, col + 1, last)
    }
}

/// The same scan over instructions from index `m`.
pub open spec fn outermost_begin(p: Seq<Instruction>, m: int, d: int, last: Option<Position>) -> Option<
    Position,
>
    decreases p.len() - m,
{
    if m < 0 || m >= p.len() {
        last
    } else if is_begin(p[m]) && d == 0 {
        outermost_begin(p, m + 1, 1, Some(p[m].pos))
    } else {
        outermost_begin(p, m + 1, d + loop_step(p[m]), last)
    }
}

proof fn lemma_outermost_begin_front(
    x: Instruction,
    rest: Seq<Instruction>,
    m: int,
    d: int,
    last: Option<Position>,
)
    requires
        0 <= m <= rest.len(),
    ensures
        outermost_begin(seq![x] + rest, m + 1, d, last) == outermost_begin(rest, m, d, last),
    decreases rest.len() - m,
{
    let p = seq![x] + rest;
    if m < rest.len() {
        assert(p[m + 1] == rest[m]);
        if is_begin(rest[m]) && d == 0 {
            lemma_outermost_begin_front(x, rest, m + 1, 1, Some(rest[m].pos));
        } else {
            lemma_outermost_begin_front(x, rest, m + 1, d + loop_step(rest[m]), last);
        }
    }
}

proof fn lemma_outermost_opening_skip(
    s: Seq<char>,
    i: int,
    m: int,
    d: int,
    line: int,
    col: int,
    last: Option<Position>,
)
    requires
        0 <= i,
        0 <= m,
        i + m <= s.len(),
        forall|t: int| i <= t < i + m ==> #[trigger] plain_char(s[t]),
    ensures
        outermost_opening(s, i, d, line, col, last) == outermost_opening(
            s,
            i + m,
            d,
            line,
            col + m,
            last,
        ),
    decreases m,
{
    if m > 0 {
        assert(plain_char(s[i]));
        lemma_outermost_opening_skip(s, i + 1, m - 1, d, line, col + 1, last);
    }
}

proof fn lemma_lex_outermost(s: Seq<char>, i: int, line: int, col: int, d: int, last: Option<Position>)
    requires
        0 <= i <= s.len(),
    ensures
        outermost_begin(lex(s, i, line, col), 0, d, last) == outermost_opening(
            s,
            i,
            d,
            line,
            col,
            last,
        ),
    decreases s.len() - i,
{
    if i < s.len() {
        let p = lex(s, i, line, col);
        let ch = s[i];
        lemma_run_length_bounds(s, i, ch);
        if ch == '\r' {
            if i + 1 < s.len() && s[i + 1] == '\n' {
                lemma_lex_outermost(s, i + 2, line + 1, 0, d, last);
            } else {
                lemma_lex_outermost(s, i + 1, line + 1, 0, d, last);
            }
        } else if ch == '\n' {
            lemma_lex_outermost(s, i + 1, line + 1, 0, d, last);
        } else if groupable(ch) {
            let k = run_length(s, i, ch) as int;
            let rest = lex(s, i + k, line, col + k);
            let x = instruction_at(k, op_of_char(ch), line, col);
            assert(p == seq![x] + rest);
            lemma_lex_outermost(s, i + k, line, col + k, d, last);
            lemma_outermost_begin_front(x, rest, 0, d, last);
            assert forall|t: int| i <= t < i + k implies #[trigger] plain_char(s[t]) by {
                lemma_run_chars(s, i, ch, t);
            }
            lemma_outermost_opening_skip(s, i, k, d, line, col, last);
        } else if single(ch) {
            let rest = lex(s, i + 1, line, col + 1);
            let x = instruction_at(1, op_of_char(ch), line, col);
            assert(p == seq![x] + rest);
            if ch == '[' && d == 0 {
                let pos = Position { line_number: line as usize, char_number: col as usize };
                lemma_lex_outermost(s, i + 1, line, col + 1, 1, Some(pos));
                lemma_outermost_begin_front(x, rest, 0, 1, Some(pos));
            } else {
                lemma_lex_outermost(s, i + 1, line, col + 1, d + char_step(ch), last);
                lemma_outermost_begin_front(x, rest, 0, d + char_step(ch), last);
                assert(loop_step(x) == char_step(ch));
            }
        } else if tape_marker_at(s, i) {
            let rest = lex(s, i + 5, line, col + 5);
            let x = instruction_at(1, super::instruction::Operation::TapePrint, line, col);
            assert(p == seq![x] + rest);
            lemma_lex_outermost(s, i + 5, line, col + 5, d, last);
            lemma_outermost_begin_front(x, rest, 0, d, last);
            assert forall|t: int| i <= t < i + 5 implies #[trigger] plain_char(s[t]) by {
                assert(t == i || t == i + 1 || t == i + 2 || t == i + 3 || t == i + 4);
            }
            lemma_outermost_opening_skip(s, i, 5, d, line, col, last);
        } else {
            lemma_lex_outermost(s, i + 1, line, col + 1, d, last);
        }
    }
}

/// Where no `EndLoop` finds every loop closed, bracket checking reports the
/// outermost loop left open, as the instruction scan finds it.
proof fn lemma_bracket_scan_outermost(p: Seq<Instruction>, m: int, last: Option<Position>)
    requires
        0 <= m <= p.len(),
        p.len() <= usize::MAX,
        first_extra_end(p, m, open_loops(p, m).len() as int) is None,
        open_loops(p, m).len() > 0 ==> last == Some(p[open_loops(p, m)[0] as int].pos),
    ensures
        bracket_scan(p, m) == if open_loops(p, p.len() as int).len() > 0 {
            Err::<(), BracketCountMismatch>(
                BracketCountMismatch::MoreOpening(
                    outermost_begin(p, m, open_loops(p, m).len() as int, last)->0,
                ),
            )
        } else {
            Ok(())
        },
        open_loops(p, p.len() as int).len() > 0 ==> outermost_begin(
            p,
            m,
            open_loops(p, m).len() as int,
            last,
        ) is Some,
    decreases p.len() - m,
{
    let cur = open_loops(p, m);
    let d = cur.len() as int;
    if m < p.len() {
        let next = open_loops(p, m + 1);
        assert(!(is_end(p[m]) && d == 0));
        if is_begin(p[m]) && d == 0 {
            assert(next == cur.push(m as usize));
            assert(next[0] == m as usize);
            lemma_bracket_scan_outermost(p, m + 1, Some(p[m].pos));
        } else {
            if is_begin(p[m]) {
                assert(next == cur.push(m as usize));
                assert(next[0] == cur[0]);
            } else if is_end(p[m]) {
                assert(next == cur.drop_last());
                if next.len() > 0 {
                    assert(next[0] == cur[0]);
                }
            }
            assert(next.len() == d + loop_step(p[m]));
            lemma_bracket_scan_outermost(p, m + 1, last);
        }
    }
}

proof fn lemma_lex_len(s: Seq<char>, i: int, line: int, col: int)
    requires
        0 <= i <= s.len(),
    ensures
        lex(s, i, line, col).len() <= s.len() - i,
    decreases s.len() - i,
{
    if i < s.len() {
        let ch = s[i];
        lemma_run_length_bounds(s, i, ch);
        if ch == '\r' {
            if i + 1 < s.len() && s[i + 1] == '\n' {
                lemma_lex_len(s, i + 2, line + 1, 0);
            } else {
                lemma_lex_len(s, i + 1, line + 1, 0);
            }
        } else if ch == '\n' {
            lemma_lex_len(s, i + 1, line + 1, 0);
        } else if groupable(ch) {
            let k = run_length(s, i, ch) as int;
            lemma_lex_len(s, i + k, line, col + k);
        } else if single(ch) {
            lemma_lex_len(s, i + 1, line, col + 1);
        } else if tape_marker_at(s, i) {
            lemma_lex_len(s, i + 5, line, col + 5);
        } else {
            lemma_lex_len(s, i + 1, line, col + 1);
        }
    }
}

/// Where no `EndLoop` finds every loop closed, the loops left open at the
/// end follow the loop depth.
proof fn lemma_no_extra_end_depth(p: Seq<Instruction>, m: int)
    requires
        0 <= m <= p.len(),
        first_extra_end(p, m, open_loops(p, m).len() as int) is None,
    ensures
        open_loops(p, p.len() as int).len() == loop_depth(p, p.len() as int) - loop_depth(p, m)
            + open_loops(p, m).len(),
    decreases p.len() - m,
{
    if m < p.len() {
        assert(open_loops(p, m + 1).len() == open_loops(p, m).len() + loop_step(p[m]));
        lemma_no_extra_end_depth(p, m + 1);
    }
}

/// Where the source closes no more loops than it opens but leaves some
/// open, the compiler reports an extra opening bracket at the `[` that
/// opens the outermost loop left open.
pub proof fn lemma_outermost_opening_reported(s: Seq<char>)
    requires
        s.len() <= usize::MAX,
        first_extra_closing(s, 0, 0, 0, 0) is None,
        bracket_depth(s, 0, s.len() as int) > 0,
    ensures
        outermost_opening(s, 0, 0, 0, 0, None) is Some,
        bracket_check(lexed(s)) == Err::<(), BracketCountMismatch>(
            BracketCountMismatch::MoreOpening(outermost_opening(s, 0, 0, 0, 0, None)->0),
        ),
{
    let p = lexed(s);
    lemma_lex_first_extra(s, 0, 0, 0, 0);
    lemma_lex_outermost(s, 0, 0, 0, 0, None);
    lemma_lex_depth(s, 0, 0, 0, 0);
    lemma_no_extra_end_depth(p, 0);
    lemma_lex_len(s, 0, 0, 0);
    lemma_bracket_scan_outermost(p, 0, None);
}

} // verus!
