//! The interpreter's memory: a row of wrapping cells that starts at
//! position zero and grows to the right on demand.
use vstd::prelude::*;
use crate::text::{decimal, push_decimal, string_from_chars};

verus! {

/// Why a move along the tape was refused.
#[derive(Debug, Clone, Copy, PartialEq, Eq, Structural)]
pub enum TapeError {
    /// The move would have gone left of position zero.
    NegativePosition,
    /// The move would have gone right of the last addressable position.
    PastLastPosition,
}

/// The last position of a tape made by `Tape::new`: such a tape is
/// addressed by 16-bit positions.
pub const SHORT_TAPE_LAST_POSITION: usize = 65535;

/// A tape of cells. Every cell starts at zero; the cells from position zero
/// up to `furthest` are the materialized ones, and only those written so far
/// are stored in `cells` (the others read as zero).
#[derive(Debug)]
pub struct Tape {
    pub current_position: usize,
    /// Always equal to the cell at `current_position`.
    pub current_value: usize,
    /// Stored cells, a prefix of the materialized ones.
    pub cells: Vec<usize>,
    /// The furthest position materialized so far.
    pub furthest: usize,
    /// The largest position the tape can address.
    pub last_position: usize,
}

/// `s`, made `len` long by appending zero cells where it is shorter.
pub open spec fn grown(s: Seq<usize>, len: int) -> Seq<usize> {
    Seq::new(
        if len > s.len() { len as nat } else { s.len() },
        |i: int| if i < s.len() { s[i] } else { 0usize },
    )
}

/// `(v + n)` modulo the cell width.
pub open spec fn wrapping_add(v: usize, n: usize) -> usize {
    if v as int + n as int > usize::MAX as int {
        (v as int + n as int - usize::MAX as int - 1) as usize
    } else {
        (v + n) as usize
    }
}

/// `(v - n)` modulo the cell width.
pub open spec fn wrapping_sub(v: usize, n: usize) -> usize {
    if v >= n {
        (v - n) as usize
    } else {
        (v as int - n as int + usize::MAX as int + 1) as usize
    }
}

impl Tape {
    /// The value of the cell at position `i`.
    pub open spec fn cell(&self, i: int) -> usize {
        if 0 <= i < self.cells@.len() {
            self.cells@[i]
        } else {
            0
        }
    }

    /// The materialized cells, from position zero to `furthest`.
    pub open spec fn materialized(&self) -> Seq<usize> {
        Seq::new(self.furthest as nat + 1, |i: int| self.cell(i))
    }

    pub open spec fn wf(&self) -> bool {
        &&& self.cells@.len() <= self.furthest as int + 1
        &&& self.current_position <= self.furthest
        &&& self.furthest <= self.last_position
        &&& self.current_value == self.cell(self.current_position as int)
    }

    /// A tape of one zero cell whose positions are those of a `u16`.
    pub fn new() -> (r: Tape)
        ensures
            r.wf(),
            r.materialized() == seq![0usize],
            r.current_position == 0,
            r.last_position == SHORT_TAPE_LAST_POSITION,
    {
        Tape::with_last_position(SHORT_TAPE_LAST_POSITION)
    }

    /// A tape of one zero cell that can address positions up to `last_position`.
    pub fn with_last_position(last_position: usize) -> (r: Tape)
        ensures
            r.wf(),
            r.materialized() == seq![0usize],
            r.current_position == 0,
            r.last_position == last_position,
    {
        let r = Tape { current_position: 0, current_value: 0, cells: vec![0], furthest: 0, last_position };
        assert(r.materialized() =~= seq![0usize]);
        r
    }

    /// A tape holding `values` (at least one zero cell where it is empty),
    /// positioned on the first of them, able to address every `usize`.
    pub fn from_values(values: Vec<usize>) -> (r: Tape)
        ensures
            r == tape_of_values(values),
            r.wf(),
            r.materialized() == grown(values@, 1),
            r.current_position == 0,
            r.last_position == usize::MAX,
    {
        let furthest: usize = if values.len() == 0 { 0 } else { values.len() - 1 };
        let current_value: usize = if values.len() == 0 { 0 } else { values[0] };
        let r = Tape { current_position: 0, current_value, cells: values, furthest, last_position: usize::MAX };
        assert(r.materialized() =~= grown(r.cells@, 1));
        r
    }

    /// Writes `value` into the current cell.
    pub fn set_current_value(&mut self, value: usize)
        requires
            old(self).wf(),
        ensures
            final(self).wf(),
            final(self).materialized() == old(self).materialized().update(
                old(self).current_position as int,
                value,
            ),
            final(self).current_position == old(self).current_position,
            final(self).current_value == value,
            final(self).last_position == old(self).last_position,
    {
        let pos = self.current_position;
        while self.cells.len() <= pos
            invariant
                pos == self.current_position,
                self.wf(),
                self.materialized() == old(self).materialized(),
                self.current_value == old(self).current_value,
                self.current_position == old(self).current_position,
                self.last_position == old(self).last_position,
                self.furthest == old(self).furthest,
            decreases pos + 1 - self.cells@.len(),
        {
            let ghost before = self.materialized();
            self.cells.push(0);
            assert(self.materialized() =~= before);
        }
        let ghost before = self.materialized();
        self.cells.set(pos, value);
        self.current_value = value;
        assert(self.materialized() =~= before.update(pos as int, value));
    }

    /// Moves `n` cells to the right, materializing the cells reached.
    /// Refused, with the tape unchanged, where it would pass the last position.
    pub fn move_right(&mut self, n: usize) -> (r: Result<(), TapeError>)
        requires
            old(self).wf(),
        ensures
            final(self).wf(),
            final(self).last_position == old(self).last_position,
            n > old(self).last_position - old(self).current_position ==> {
                &&& r == Err::<(), TapeError>(TapeError::PastLastPosition)
                &&& *final(self) == *old(self)
            },
            n <= old(self).last_position - old(self).current_position ==> {
                &&& r is Ok
                &&& final(self).current_position == old(self).current_position + n
                &&& final(self).materialized() == grown(
                    old(self).materialized(),
                    old(self).current_position + n + 1,
                )
            },
    {
        if n > self.last_position - self.current_position {
            return Err(TapeError::PastLastPosition);
        }
        let ghost before = self.materialized();
        self.current_position = self.current_position + n;
        if self.current_position > self.furthest {
            self.furthest = self.current_position;
        }
        self.current_value = if self.current_position < self.cells.len() {
            self.cells[self.current_position]
        } else {
            0
        };
        assert(self.materialized() =~= grown(before, old(self).current_position + n + 1));
        Ok(())
    }

    /// Moves `n` cells to the left. Refused, with the tape unchanged, where
    /// it would go below position zero.
    pub fn move_left(&mut self, n: usize) -> (r: Result<(), TapeError>)
        requires
            old(self).wf(),
        ensures
            final(self).wf(),
            final(self).last_position == old(self).last_position,
            final(self).materialized() == old(self).materialized(),
            n > old(self).current_position ==> {
                &&& r == Err::<(), TapeError>(TapeError::NegativePosition)
                &&& *final(self) == *old(self)
            },
            n <= old(self).current_position ==> {
                &&& r is Ok
                &&& final(self).current_position == old(self).current_position - n
            },
    {
        if n > self.current_position {
            return Err(TapeError::NegativePosition);
        }
        self.current_position = self.current_position - n;
        self.current_value = if self.current_position < self.cells.len() {
            self.cells[self.current_position]
        } else {
            0
        };
        assert(self.materialized() =~= old(self).materialized());
        Ok(())
    }

    /// Adds `n` to the current cell, wrapping around.
    pub fn inc(&mut self, n: usize)
        requires
            old(self).wf(),
        ensures
            final(self).wf(),
            final(self).current_value == wrapping_add(old(self).current_value, n),
            final(self).materialized() == old(self).materialized().update(
                old(self).current_position as int,
                wrapping_add(old(self).current_value, n),
            ),
            final(self).current_position == old(self).current_position,
            final(self).last_position == old(self).last_position,
    {
        let v = self.current_value.wrapping_add(n);
        self.set_current_value(v);
    }

    /// Subtracts `n` from the current cell, wrapping around.
    pub fn dec(&mut self, n: usize)
        requires
            old(self).wf(),
        ensures
            final(self).wf(),
            final(self).current_value == wrapping_sub(old(self).current_value, n),
            final(self).materialized() == old(self).materialized().update(
                old(self).current_position as int,
                wrapping_sub(old(self).current_value, n),
            ),
            final(self).current_position == old(self).current_position,
            final(self).last_position == old(self).last_position,
    {
        let v = self.current_value.wrapping_sub(n);
        self.set_current_value(v);
    }

    /// First position of the rendered window: up to five cells before the
    /// current one, fewer where the window would otherwise run past the
    /// last materialized cell.
    pub open spec fn window_first(&self) -> int {
        let last = self.window_last();
        if last >= 9 { last - 9 } else { 0 }
    }

    /// Last position of the rendered window: ten cells from five before the
    /// current one, clamped to the materialized cells.
    pub open spec fn window_last(&self) -> int {
        let lo = if self.current_position >= 5 { self.current_position - 5 } else { 0 };
        if self.furthest - lo >= 9 { lo + 9 } else { self.furthest as int }
    }

    /// How the cell at `i` is written: its value, in brackets for the current cell.
    pub open spec fn cell_text(&self, i: int) -> Seq<char> {
        if i == self.current_position {
            seq!['['] + decimal(self.cell(i) as nat) + seq![']']
        } else {
            decimal(self.cell(i) as nat)
        }
    }

    /// The cells `first..=last`, written one after the other with a space between.
    pub open spec fn cells_text(&self, first: int, last: int) -> Seq<char>
        decreases last - first,
    {
        if last < first {
            Seq::empty()
        } else if last == first {
            self.cell_text(first)
        } else {
            self.cells_text(first, last - 1) + seq![' '] + self.cell_text(last)
        }
    }

    /// The whole rendering: the window of cells, preceded by `(k) ... ` where
    /// `k` cells are left out before it, and followed by ` ... (k)` where
    /// `k` materialized cells are left out after it.
    pub open spec fn rendered(&self) -> Seq<char> {
        let first = self.window_first();
        let last = self.window_last();
        let before = if first > 0 {
            seq!['('] + decimal(first as nat) + seq![')', ' ', '.', '.', '.', ' ']
        } else {
            Seq::empty()
        };
        let after = if last < self.furthest {
            seq![' ', '.', '.', '.', ' ', '('] + decimal((self.furthest - last) as nat) + seq![')']
        } else {
            Seq::empty()
        };
        before + self.cells_text(first, last) + after
    }

    fn push_cell_text(&self, out: &mut Vec<char>, i: usize)
        requires
            self.wf(),
        ensures
            final(out)@ == old(out)@ + self.cell_text(i as int),
    {
        let v: usize = if i < self.cells.len() { self.cells[i] } else { 0 };
        if i == self.current_position {
            out.push('[');
            push_decimal(out, v);
            out.push(']');
            assert(final(out)@ =~= old(out)@ + self.cell_text(i as int));
        } else {
            push_decimal(out, v);
        }
    }

    fn push_elided(out: &mut Vec<char>, k: usize, leading: bool)
        ensures
            leading ==> final(out)@ == old(out)@ + (seq!['('] + decimal(k as nat) + seq![
                ')',
                ' ',
                '.',
                '.',
                '.',
                ' ',
            ]),
            !leading ==> final(out)@ == old(out)@ + (seq![' ', '.', '.', '.', ' ', '(']
                + decimal(k as nat) + seq![')']),
    {
        if leading {
            out.push('(');
            push_decimal(out, k);
            out.push(')');
            out.push(' ');
            out.push('.');
            out.push('.');
            out.push('.');
            out.push(' ');
        } else {
            out.push(' ');
            out.push('.');
            out.push('.');
            out.push('.');
            out.push(' ');
            out.push('(');
            push_decimal(out, k);
            out.push(')');
        }
        assert(leading ==> final(out)@ =~= old(out)@ + (seq!['('] + decimal(k as nat) + seq![
            ')',
            ' ',
            '.',
            '.',
            '.',
            ' ',
        ]));
        assert(!leading ==> final(out)@ =~= old(out)@ + (seq![' ', '.', '.', '.', ' ', '(']
            + decimal(k as nat) + seq![')']));
    }

    /// Writes up to ten cells around the current one, the current one in
    /// brackets. Never changes the tape.
    pub fn to_string(&self) -> (r: String)
        requires
            self.wf(),
        ensures
            r@ == self.rendered(),
    {
        let mut out: Vec<char> = Vec::new();
        self.push_rendering(&mut out);
        assert(out@ =~= self.rendered());
        string_from_chars(&out)
    }

    /// Appends the rendering of the tape to `out`.
    pub fn push_rendering(&self, out: &mut Vec<char>)
        requires
            self.wf(),
        ensures
            final(out)@ == old(out)@ + self.rendered(),
    {
        let lo: usize = if self.current_position >= 5 { self.current_position - 5 } else { 0 };
        let last: usize = if self.furthest - lo >= 9 { lo + 9 } else { self.furthest };
        let first: usize = if last >= 9 { last - 9 } else { 0 };
        let ghost start = out@;
        if first > 0 {
            Tape::push_elided(out, first, true);
        }
        let ghost before = out@;
        let count: usize = last - first + 1;
        let mut k: usize = 0;
        while k < count
            invariant
                self.wf(),
                first == self.window_first(),
                last == self.window_last(),
                count == last - first + 1,
                k <= count,
                out@ == before + self.cells_text(first as int, first + k - 1),
            decreases count - k,
        {
            let i: usize = first + k;
            let ghost prev = out@;
            if k > 0 {
                out.push(' ');
            }
            self.push_cell_text(out, i);
            proof {
                if k > 0 {
                    assert(self.cells_text(first as int, i as int) == self.cells_text(
                        first as int,
                        i - 1,
                    ) + seq![' '] + self.cell_text(i as int));
                }
                assert(out@ =~= before + self.cells_text(first as int, i as int));
            }
            k = k + 1;
        }
        let ghost middle = out@;
        if last < self.furthest {
            Tape::push_elided(out, self.furthest - last, false);
        }
        assert(out@ =~= start + self.rendered());
    }
}


impl Default for Tape {
    /// A tape of one zero cell that can address every `usize` position.
    fn default() -> (r: Tape)
        ensures
            r.wf(),
            r.materialized() == seq![0usize],
            r.current_position == 0,
            r.last_position == usize::MAX,
    {
        Tape::with_last_position(usize::MAX)
    }
}

/// The tape that `Tape::from` makes of `values`.
pub open spec fn tape_of_values(values: Vec<usize>) -> Tape {
    Tape {
        current_position: 0,
        current_value: if values@.len() == 0 { 0 } else { values@[0] },
        furthest: if values@.len() == 0 { 0 } else { (values@.len() - 1) as usize },
        cells: values,
        last_position: usize::MAX,
    }
}

impl From<Vec<usize>> for Tape {
    fn from(values: Vec<usize>) -> (r: Tape)
        ensures
            r == tape_of_values(values),
            r.wf(),
            r.materialized() == grown(values@, 1),
    {
        Tape::from_values(values)
    }
}

impl vstd::std_specs::convert::FromSpecImpl<Vec<usize>> for Tape {
    open spec fn obeys_from_spec() -> bool {
        true
    }

    open spec fn from_spec(v: Vec<usize>) -> Tape {
        tape_of_values(v)
    }
}


/// Adding one and then `m` is adding `m + 1`, modulo the cell width.
pub proof fn lemma_wrapping_add_step(v: usize, m: usize)
    requires
        m < usize::MAX,
    ensures
        wrapping_add(wrapping_add(v, 1), m) == wrapping_add(v, (m + 1) as usize),
{
}

/// Subtracting one and then `m` is subtracting `m + 1`, modulo the cell width.
pub proof fn lemma_wrapping_sub_step(v: usize, m: usize)
    requires
        m < usize::MAX,
    ensures
        wrapping_sub(wrapping_sub(v, 1), m) == wrapping_sub(v, (m + 1) as usize),
{
}

/// The largest cell value plus one is zero, and zero minus one is the
/// largest cell value.
pub proof fn lemma_wrapping_at_the_ends()
    ensures
        wrapping_add(usize::MAX, 1) == 0,
        wrapping_sub(0, 1) == usize::MAX,
{
}

/// Moving right onto a cell never reached before materializes every cell up
/// to and including it, all of them zero, and keeps the cells reached before.
pub proof fn lemma_fresh_cell_is_zero(cells: Seq<usize>, position: int, n: int)
    requires
        0 <= position < cells.len(),
        0 <= n,
        position + n >= cells.len(),
    ensures
        grown(cells, position + n + 1).len() == position + n + 1,
        grown(cells, position + n + 1)[position + n] == 0,
        forall|j: int|
            cells.len() <= j <= position + n ==> #[trigger] grown(cells, position + n + 1)[j] == 0,
        forall|j: int| 0 <= j < cells.len() ==> #[trigger] grown(cells, position + n + 1)[j] == cells[j],
{
}

/// Moving `n` cells left and then `n` cells right comes back to the same
/// cells, the one left holding the value written there.
pub proof fn lemma_left_then_right_keeps_cells(cells: Seq<usize>, position: int, n: int)
    requires
        0 <= n <= position < cells.len(),
    ensures
        grown(cells, (position - n) + n + 1) == cells,
        grown(cells, (position - n) + n + 1)[position] == cells[position],
{
    assert(grown(cells, (position - n) + n + 1) =~= cells);
}

/// Growing to `a` and then to `b`, where `b` is at least `a`, is growing to `b`.
pub proof fn lemma_grown_twice(cells: Seq<usize>, a: int, b: int)
    requires
        a <= b,
    ensures
        grown(grown(cells, a), b) == grown(cells, b),
{
    assert(grown(grown(cells, a), b) =~= grown(cells, b));
}

/// Growing to a length the cells already have changes nothing.
pub proof fn lemma_grown_within(cells: Seq<usize>, a: int)
    requires
        a <= cells.len(),
    ensures
        grown(cells, a) == cells,
{
    assert(grown(cells, a) =~= cells);
}
} // verus!
