//! Source positions and the compile error.
use vstd::prelude::*;
use crate::text::{decimal, push_decimal, push_str, string_from_chars};

verus! {

/// An index into a program's instructions.
pub type Address = usize;

/// A place in source text. Both numbers start from 0.
#[derive(Debug, Clone, Copy, PartialEq, Eq, Structural)]
pub struct Position {
    pub line_number: usize,
    pub char_number: usize,
}

/// A bracket without a partner, and where it stands.
#[derive(Debug, Clone, Copy, PartialEq, Eq, Structural)]
pub enum BracketCountMismatch {
    /// An opening bracket that is never closed.
    MoreOpening(Position),
    /// A closing bracket with nothing open.
    MoreClosing(Position),
}

impl Position {
    /// How the position reads to a person, counting from 1.
    pub open spec fn text(&self) -> Seq<char> {
        "line "@ + decimal((self.line_number + 1) as nat) + ", char "@ + decimal(
            (self.char_number + 1) as nat,
        )
    }

    pub fn push_text(&self, out: &mut Vec<char>)
        requires
            self.line_number < usize::MAX,
            self.char_number < usize::MAX,
        ensures
            final(out)@ == old(out)@ + self.text(),
    {
        push_str(out, "line ");
        push_decimal(out, self.line_number + 1);
        push_str(out, ", char ");
        push_decimal(out, self.char_number + 1);
        assert(final(out)@ =~= old(out)@ + self.text());
    }

    /// The position as a person reads it: `line L, char C`, counting from 1.
    pub fn to_string(&self) -> (r: String)
        requires
            self.line_number < usize::MAX,
            self.char_number < usize::MAX,
        ensures
            r@ == self.text(),
    {
        let mut out: Vec<char> = Vec::new();
        self.push_text(&mut out);
        assert(out@ =~= self.text());
        string_from_chars(&out)
    }

    /// Whether `self` comes before `other` in the text.
    pub open spec fn before(&self, other: &Position) -> bool {
        self.line_number < other.line_number || (self.line_number == other.line_number
            && self.char_number < other.char_number)
    }
}

impl PartialOrd for Position {
    /// Orders positions as they come in the text: by line, then by character.
    fn partial_cmp(&self, other: &Position) -> (r: Option<core::cmp::Ordering>)
        ensures
            r == Some(position_order(*self, *other)),
    {
        if self.line_number == other.line_number {
            if self.char_number < other.char_number {
                Some(core::cmp::Ordering::Less)
            } else if self.char_number == other.char_number {
                Some(core::cmp::Ordering::Equal)
            } else {
                Some(core::cmp::Ordering::Greater)
            }
        } else if self.line_number < other.line_number {
            Some(core::cmp::Ordering::Less)
        } else {
            Some(core::cmp::Ordering::Greater)
        }
    }
}

/// How `a` and `b` are ordered in the text.
pub open spec fn position_order(a: Position, b: Position) -> core::cmp::Ordering {
    if a.before(&b) {
        core::cmp::Ordering::Less
    } else if a == b {
        core::cmp::Ordering::Equal
    } else {
        core::cmp::Ordering::Greater
    }
}

impl vstd::std_specs::cmp::PartialOrdSpecImpl for Position {
    open spec fn obeys_partial_cmp_spec() -> bool {
        true
    }

    open spec fn partial_cmp_spec(&self, other: &Position) -> Option<core::cmp::Ordering> {
        Some(position_order(*self, *other))
    }
}

impl BracketCountMismatch {
    /// The message that reports the mismatch.
    pub open spec fn text(&self) -> Seq<char> {
        match self {
            BracketCountMismatch::MoreOpening(pos) => "Bracket count mismatch! Extra opening bracket found at "@
                + pos.text(),
            BracketCountMismatch::MoreClosing(pos) => "Bracket count mismatch! Extra closing bracket found at "@
                + pos.text(),
        }
    }

    /// The message that reports the mismatch, naming the extra bracket and
    /// where it stands.
    pub fn to_string(&self) -> (r: String)
        requires
            match self {
                BracketCountMismatch::MoreOpening(pos) => pos.line_number < usize::MAX
                    && pos.char_number < usize::MAX,
                BracketCountMismatch::MoreClosing(pos) => pos.line_number < usize::MAX
                    && pos.char_number < usize::MAX,
            },
        ensures
            r@ == self.text(),
    {
        let mut out: Vec<char> = Vec::new();
        match self {
            BracketCountMismatch::MoreOpening(pos) => {
                push_str(&mut out, "Bracket count mismatch! Extra opening bracket found at ");
                pos.push_text(&mut out);
            },
            BracketCountMismatch::MoreClosing(pos) => {
                push_str(&mut out, "Bracket count mismatch! Extra closing bracket found at ");
                pos.push_text(&mut out);
            },
        }
        assert(out@ =~= self.text());
        string_from_chars(&out)
    }
}

} // verus!
