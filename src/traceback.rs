//! Finding the source line that a reported position points into.
use vstd::prelude::*;
use crate::text::{chars_of, string_from_chars};

verus! {

/// The lines of `s` from index `i` on, where the line under way so far
/// holds `cur`. `\r`, `\r\n` and `\n` each end a line, as in compiling.
pub open spec fn lines_from(s: Seq<char>, i: int, cur: Seq<char>) -> Seq<Seq<char>>
    decreases s.len() - i,
{
    if i < 0 || i >= s.len() {
        seq![cur]
    } else if s[i] == '\r' {
        seq![cur] + lines_from(
            s,
            if i + 1 < s.len() && s[i + 1] == '\n' {
                i + 2
            } else {
                i + 1
            },
            Seq::empty(),
        )
    } else if s[i] == '\n' {
        seq![cur] + lines_from(s, i + 1, Seq::empty())
    } else {
        lines_from(s, i + 1, cur.push(s[i]))
    }
}

/// The lines of `s`, without their line endings.
pub open spec fn source_lines(s: Seq<char>) -> Seq<Seq<char>> {
    lines_from(s, 0, Seq::empty())
}

proof fn lemma_lines_from_nonempty(s: Seq<char>, i: int, cur: Seq<char>)
    ensures
        lines_from(s, i, cur).len() >= 1,
    decreases s.len() - i,
{
    if 0 <= i < s.len() {
        if s[i] == '\r' {
            if i + 1 < s.len() && s[i + 1] == '\n' {
                lemma_lines_from_nonempty(s, i + 2, Seq::empty());
            } else {
                lemma_lines_from_nonempty(s, i + 1, Seq::empty());
            }
        } else if s[i] == '\n' {
            lemma_lines_from_nonempty(s, i + 1, Seq::empty());
        } else {
            lemma_lines_from_nonempty(s, i + 1, cur.push(s[i]));
        }
    }
}

/// Line `line_number` of `src` (counting from 0), where `src` has that many lines.
pub fn source_line(src: &str, line_number: usize) -> (r: Option<String>)
    ensures
        line_number < source_lines(src@).len() ==> r is Some && r->0@ == source_lines(
            src@,
        )[line_number as int],
        line_number >= source_lines(src@).len() ==> r is None,
{
    let s = chars_of(src);
    let mut cur: Vec<char> = Vec::new();
    let mut line: usize = 0;
    let mut i: usize = 0;
    let ghost done: Seq<Seq<char>> = Seq::empty();
    while i < s.len()
        invariant
            i <= s@.len(),
            s@ == src@,
            line <= i,
            line <= line_number,
            done.len() == line,
            source_lines(s@) == done + lines_from(s@, i as int, cur@),
        decreases s.len() - i,
    {
        let c = s[i];
        if c == '\r' || c == '\n' {
            proof {
                lemma_lines_from_nonempty(s@, i as int, cur@);
            }
            if line == line_number {
                assert(lines_from(s@, i as int, cur@)[0] == cur@);
                return Some(string_from_chars(&cur));
            }
            let next: usize = if c == '\r' && i + 1 < s.len() && s[i + 1] == '\n' {
                i + 2
            } else {
                i + 1
            };
            proof {
                assert(lines_from(s@, i as int, cur@) == seq![cur@] + lines_from(
                    s@,
                    next as int,
                    Seq::empty(),
                ));
                done = done.push(cur@);
                assert(source_lines(s@) =~= done + lines_from(s@, next as int, Seq::empty()));
            }
            cur = Vec::new();
            line = line + 1;
            i = next;
        } else {
            cur.push(c);
            i = i + 1;
        }
    }
    assert(lines_from(s@, i as int, cur@) == seq![cur@]);
    if line == line_number {
        Some(string_from_chars(&cur))
    } else {
        None
    }
}

} // verus!
