//! The execution engine. It runs a compiled program one instruction at a
//! time and hands every exchange with the outside (a byte to read, bytes to
//! write) to its caller, who owns the streams.
use vstd::prelude::*;
use crate::parser::instruction::{Instruction, Operation};
use crate::parser::{
    instruction_at, is_begin, is_end, lex, lexed, loop_target, op_of_char, resolution_of, run_length,
    target_of, Program,
};
use crate::tape::{
    grown, lemma_grown_twice, lemma_grown_within, lemma_wrapping_add_step, lemma_wrapping_sub_step,
    wrapping_add, wrapping_sub, Tape, TapeError,
};
use crate::text::{decimal, push_decimal, string_from_chars};

verus! {

/// How a cell is written to the output.
#[derive(Debug, Clone, Copy, PartialEq, Eq, Structural)]
pub enum OutputMode {
    /// As one raw byte: the cell's value modulo 256.
    Character,
    /// As the decimal writing of the cell's value.
    Numeric,
}

/// What a run has to stop for.
#[derive(Debug, Clone, Copy, PartialEq, Eq, Structural)]
pub enum RuntimeError {
    /// A move along the tape was refused.
    Tape(TapeError),
    /// Input was needed and none was left.
    InputExhausted,
}

/// What the caller has to do after one step.
#[derive(Debug, PartialEq, Eq)]
pub enum Action {
    /// Nothing; step again.
    Continue,
    /// Write this byte to the output.
    Byte(u8),
    /// Write this text to the output.
    Text(String),
    /// Write this tape dump to the output; failing to write it is harmless.
    Dump(String),
    /// The next instruction reads a byte: read one and hand it to `supply_input`.
    NeedInput,
    /// The program has run to its end.
    Halt,
}

/// The state of a run, as Verus sees it: the materialized cells, the
/// current position, the last addressable position, the next instruction
/// and the loops entered.
pub struct RunState {
    pub cells: Seq<usize>,
    pub position: int,
    pub last: int,
    pub pc: int,
    pub stack: Seq<usize>,
}

/// The state of a run of `program` on `tape`.
pub open spec fn state_of(tape: Tape, program: Program) -> RunState {
    RunState {
        cells: tape.materialized(),
        position: tape.current_position as int,
        last: tape.last_position as int,
        pc: program.pc as int,
        stack: program.stack@,
    }
}

/// The state after the instruction at `s.pc` of `p` has run, or the error
/// it stops with. A read of input is not covered: it waits for the input.
pub open spec fn next_state(p: Seq<Instruction>, s: RunState) -> Result<RunState, RuntimeError> {
    let ins = p[s.pc];
    let n = ins.n as int;
    let v = s.cells[s.position];
    let moved_on = RunState { pc: s.pc + 1, ..s };
    match ins.op {
        Operation::TapeLeft => if n > s.position {
            Err(RuntimeError::Tape(TapeError::NegativePosition))
        } else {
            Ok(RunState { position: s.position - n, ..moved_on })
        },
        Operation::TapeRight => if n > s.last - s.position {
            Err(RuntimeError::Tape(TapeError::PastLastPosition))
        } else {
            Ok(
                RunState {
                    cells: grown(s.cells, s.position + n + 1),
                    position: s.position + n,
                    ..moved_on
                },
            )
        },
        Operation::CellInc => Ok(
            RunState { cells: s.cells.update(s.position, wrapping_add(v, ins.n)), ..moved_on },
        ),
        Operation::CellDec => Ok(
            RunState { cells: s.cells.update(s.position, wrapping_sub(v, ins.n)), ..moved_on },
        ),
        Operation::CellWrite => Ok(s),
        Operation::BeginLoop(t) => if v == 0 {
            Ok(RunState { pc: t->0 + 1, ..s })
        } else {
            Ok(RunState { stack: s.stack.push(s.pc as usize), ..moved_on })
        },
        Operation::EndLoop => if v == 0 {
            Ok(RunState { stack: s.stack.drop_last(), ..moved_on })
        } else {
            Ok(RunState { pc: s.stack.last() + 1, ..s })
        },
        _ => Ok(moved_on),
    }
}

/// The state after at most `k` steps of `p` from `s`, stopping at the end
/// of the program or at the first error.
pub open spec fn run(p: Seq<Instruction>, s: RunState, k: nat) -> Result<RunState, RuntimeError>
    decreases k,
{
    if k == 0 || s.pc < 0 || s.pc >= p.len() {
        Ok(s)
    } else {
        match next_state(p, s) {
            Ok(t) => run(p, t, (k - 1) as nat),
            Err(e) => Err(e),
        }
    }
}

/// The text of a tape dump of `tape`.
pub open spec fn dump_text(tape: Tape) -> Seq<char> {
    seq!['!', 'T', 'A', 'P', 'E', ':', ' '] + tape.rendered()
}

/// An engine: the tape that runs share.
pub struct Interpreter {
    pub tape: Tape,
}

impl Interpreter {
    /// An engine with a fresh tape that can address every `usize` position.
    pub fn new() -> (r: Interpreter)
        ensures
            r.tape.wf(),
            r.tape.materialized() == seq![0usize],
            r.tape.current_position == 0,
            r.tape.last_position == usize::MAX,
    {
        Interpreter { tape: Tape::default() }
    }

    /// Runs the instruction at `program.pc`. At the end of the program,
    /// returns `Halt`; at a read of input, returns `NeedInput` and changes
    /// nothing; otherwise the state moves as `next_state` says, or nothing
    /// changes and the error is returned. What is to be written comes back
    /// in the action.
    pub fn step(&mut self, program: &mut Program, mode: OutputMode) -> (r: Result<
        Action,
        RuntimeError,
    >)
        requires
            old(self).tape.wf(),
            old(program).wf(),
            old(program).at_boundary(),
        ensures
            final(self).tape.wf(),
            final(program).wf(),
            final(program).at_boundary(),
            final(program).instructions == old(program).instructions,
            old(program).pc >= old(program).instructions@.len() ==> {
                &&& r == Ok::<Action, RuntimeError>(Action::Halt)
                &&& state_of(final(self).tape, *final(program)) == state_of(
                    old(self).tape,
                    *old(program),
                )
            },
            old(program).pc < old(program).instructions@.len() ==> {
                let ins = old(program).instructions@[old(program).pc as int];
                let before = state_of(old(self).tape, *old(program));
                let after = state_of(final(self).tape, *final(program));
                if ins.op == Operation::CellWrite {
                    r == Ok::<Action, RuntimeError>(Action::NeedInput) && after == before
                } else {
                    match next_state(old(program).instructions@, before) {
                        Ok(t) => after == t && match ins.op {
                            Operation::CellRead => match mode {
                                OutputMode::Character => r == Ok::<Action, RuntimeError>(
                                    Action::Byte((old(self).tape.current_value % 256) as u8),
                                ),
                                OutputMode::Numeric => r matches Ok(Action::Text(text)) && text@
                                    == decimal(old(self).tape.current_value as nat),
                            },
                            Operation::TapePrint => r matches Ok(Action::Dump(text)) && text@
                                == dump_text(old(self).tape),
                            _ => r == Ok::<Action, RuntimeError>(Action::Continue),
                        },
                        Err(e) => r == Err::<Action, RuntimeError>(e) && after == before,
                    }
                }
            },
    {
        if program.pc >= program.instructions.len() {
            return Ok(Action::Halt);
        }
        let ins = program.instructions[program.pc];
        let ghost before = state_of(self.tape, *program);
        let ghost p = program.instructions@;
        proof {
            assert(before.cells[before.position] == self.tape.current_value);
        }
        let action = match ins.op {
            Operation::TapeLeft => {
                match self.tape.move_left(ins.n) {
                    Err(e) => {
                        return Err(RuntimeError::Tape(e));
                    },
                    Ok(()) => {},
                }
                Action::Continue
            },
            Operation::TapeRight => {
                match self.tape.move_right(ins.n) {
                    Err(e) => {
                        return Err(RuntimeError::Tape(e));
                    },
                    Ok(()) => {},
                }
                Action::Continue
            },
            Operation::CellInc => {
                self.tape.inc(ins.n);
                Action::Continue
            },
            Operation::CellDec => {
                self.tape.dec(ins.n);
                Action::Continue
            },
            Operation::CellWrite => {
                return Ok(Action::NeedInput);
            },
            Operation::CellRead => {
                match mode {
                    OutputMode::Character => Action::Byte((self.tape.current_value % 256) as u8),
                    OutputMode::Numeric => {
                        let mut out: Vec<char> = Vec::new();
                        push_decimal(&mut out, self.tape.current_value);
                        assert(out@ =~= decimal(self.tape.current_value as nat));
                        Action::Text(string_from_chars(&out))
                    },
                }
            },
            Operation::TapePrint => {
                let mut out: Vec<char> = vec!['!', 'T', 'A', 'P', 'E', ':', ' '];
                self.tape.push_rendering(&mut out);
                assert(out@ =~= dump_text(self.tape));
                Action::Dump(string_from_chars(&out))
            },
            Operation::BeginLoop(_) => {
                program.begin_loop(self.tape.current_value);
                Action::Continue
            },
            Operation::EndLoop => {
                assert(is_end(p[program.pc as int]));
                program.end_loop(self.tape.current_value);
                Action::Continue
            },
        };
        program.inc_pc();
        proof {
            let after = state_of(self.tape, *program);
            assert(after.cells =~= next_state(p, before)->Ok_0.cells);
            assert(after.stack =~= next_state(p, before)->Ok_0.stack);
        }
        Ok(action)
    }

    /// Completes a read of input at `program.pc`: `Some(b)` goes into the
    /// current cell and the run moves on; `None` stops the run.
    pub fn supply_input(&mut self, program: &mut Program, input: Option<u8>) -> (r: Result<
        (),
        RuntimeError,
    >)
        requires
            old(self).tape.wf(),
            old(program).wf(),
            old(program).at_boundary(),
            old(program).pc < old(program).instructions@.len(),
            old(program).instructions@[old(program).pc as int].op == Operation::CellWrite,
        ensures
            final(self).tape.wf(),
            final(program).wf(),
            final(program).at_boundary(),
            final(program).instructions == old(program).instructions,
            ({
                let before = state_of(old(self).tape, *old(program));
                let after = state_of(final(self).tape, *final(program));
                match input {
                    None => r == Err::<(), RuntimeError>(RuntimeError::InputExhausted) && after
                        == before,
                    Some(b) => r is Ok && after == RunState {
                        cells: before.cells.update(before.position, b as usize),
                        pc: before.pc + 1,
                        ..before
                    },
                }
            }),
    {
        match input {
            None => Err(RuntimeError::InputExhausted),
            Some(b) => {
                self.tape.set_current_value(b as usize);
                program.inc_pc();
                Ok(())
            },
        }
    }
}

/// The operations that can be grouped.
pub open spec fn groupable_op(op: Operation) -> bool {
    op == Operation::TapeLeft || op == Operation::TapeRight || op == Operation::CellInc || op
        == Operation::CellDec
}

/// `s` after the groupable operation `op` has acted `m` times, `pc` aside.
pub open spec fn repeated(op: Operation, s: RunState, m: int) -> RunState {
    let v = s.cells[s.position];
    if op == Operation::TapeLeft {
        RunState { position: s.position - m, ..s }
    } else if op == Operation::TapeRight {
        RunState { cells: grown(s.cells, s.position + m + 1), position: s.position + m, ..s }
    } else if op == Operation::CellInc {
        RunState { cells: s.cells.update(s.position, wrapping_add(v, m as usize)), ..s }
    } else {
        RunState { cells: s.cells.update(s.position, wrapping_sub(v, m as usize)), ..s }
    }
}

/// `op` can act `m` times from `s` without leaving the tape.
pub open spec fn within_tape(op: Operation, s: RunState, m: int) -> bool {
    &&& 0 <= s.position < s.cells.len()
    &&& s.position <= s.last
    &&& op == Operation::TapeLeft ==> m <= s.position
    &&& op == Operation::TapeRight ==> m <= s.last - s.position
}

proof fn lemma_single_steps(u: Seq<Instruction>, op: Operation, t: RunState, m: int)
    requires
        groupable_op(op),
        0 <= m <= t.pc + m == u.len() <= usize::MAX,
        t.pc >= 0,
        forall|k: int| 0 <= k < u.len() ==> (#[trigger] u[k]).op == op && u[k].n == 1,
        within_tape(op, t, m),
    ensures
        run(u, t, m as nat) == Ok::<RunState, RuntimeError>(
            RunState { pc: u.len() as int, ..repeated(op, t, m) },
        ),
    decreases m,
{
    let v = t.cells[t.position];
    if m == 0 {
        lemma_grown_within(t.cells, t.position + 1);
        assert(t.cells.update(t.position, v) =~= t.cells);
        assert(wrapping_add(v, 0) == v);
        assert(wrapping_sub(v, 0) == v);
    } else {
        assert(u[t.pc].op == op && u[t.pc].n == 1);
        let t1 = next_state(u, t)->Ok_0;
        assert(next_state(u, t) is Ok);
        lemma_single_steps(u, op, t1, m - 1);
        if op == Operation::TapeRight {
            lemma_grown_twice(t.cells, t.position + 2, t.position + m + 1);
        } else if op == Operation::CellInc {
            lemma_wrapping_add_step(v, (m - 1) as usize);
            assert(t1.cells[t1.position] == wrapping_add(v, 1));
            assert(t1.cells.update(t1.position, wrapping_add(wrapping_add(v, 1), (m - 1) as usize))
                =~= t.cells.update(t.position, wrapping_add(v, m as usize)));
        } else if op == Operation::CellDec {
            lemma_wrapping_sub_step(v, (m - 1) as usize);
            assert(t1.cells[t1.position] == wrapping_sub(v, 1));
            assert(t1.cells.update(t1.position, wrapping_sub(wrapping_sub(v, 1), (m - 1) as usize))
                =~= t.cells.update(t.position, wrapping_sub(v, m as usize)));
        }
        assert(run(u, t, m as nat) == run(u, t1, (m - 1) as nat));
    }
}

/// One instruction that repeats a groupable operation `n` times leaves the
/// run in the same state (the next instruction aside) as `n` instructions
/// that do it once each, wherever the moves stay on the tape.
pub proof fn lemma_grouped_runs_like_single_steps(
    g: Seq<Instruction>,
    u: Seq<Instruction>,
    s: RunState,
)
    requires
        g.len() == 1,
        groupable_op(g[0].op),
        u.len() == g[0].n,
        forall|k: int| 0 <= k < u.len() ==> (#[trigger] u[k]).op == g[0].op && u[k].n == 1,
        s.pc == 0,
        within_tape(g[0].op, s, g[0].n as int),
    ensures
        (run(g, s, 1) is Ok),
        (run(u, s, g[0].n as nat) is Ok),
        run(g, s, 1)->Ok_0 == (RunState { pc: 1, ..run(u, s, g[0].n as nat)->Ok_0 }),
{
    let n = g[0].n as int;
    lemma_single_steps(u, g[0].op, s, n);
    let t = next_state(g, s)->Ok_0;
    assert(next_state(g, s) is Ok);
    assert(run(g, t, 0) == Ok::<RunState, RuntimeError>(t));
    assert(t == RunState { pc: 1, ..repeated(g[0].op, s, n) });
}

/// The three instructions of `[-]`: a loop around one decrement.
pub open spec fn is_clear_loop(p: Seq<Instruction>) -> bool {
    &&& p.len() == 3
    &&& p[0].op == Operation::BeginLoop(Some(2))
    &&& p[1].op == Operation::CellDec
    &&& p[1].n == 1
    &&& p[2].op == Operation::EndLoop
}

proof fn lemma_clear_loop_body(p: Seq<Instruction>, s: RunState, t: RunState, w: int)
    requires
        is_clear_loop(p),
        0 <= s.position < s.cells.len(),
        1 <= w <= usize::MAX,
        t == (RunState {
            cells: s.cells.update(s.position, w as usize),
            pc: 1,
            stack: s.stack.push(0),
            ..s
        }),
    ensures
        run(p, t, (2 * w) as nat) == Ok::<RunState, RuntimeError>(
            RunState { cells: s.cells.update(s.position, 0), pc: 3, ..s },
        ),
    decreases w,
{
    let t1 = next_state(p, t)->Ok_0;
    assert(t.cells[t.position] == w as usize);
    assert(t1.cells == s.cells.update(s.position, (w - 1) as usize)) by {
        assert(t1.cells =~= s.cells.update(s.position, (w - 1) as usize));
    }
    let t2 = next_state(p, t1)->Ok_0;
    assert(t1.cells[t1.position] == (w - 1) as usize);
    assert(run(p, t, (2 * w) as nat) == run(p, t1, (2 * w - 1) as nat));
    assert(run(p, t1, (2 * w - 1) as nat) == run(p, t2, (2 * w - 2) as nat));
    if w == 1 {
        assert(t2.stack =~= s.stack);
        assert(t2 =~= RunState { cells: s.cells.update(s.position, 0), pc: 3, ..s });
    } else {
        assert(t2 == RunState {
            cells: s.cells.update(s.position, (w - 1) as usize),
            pc: 1,
            stack: s.stack.push(0),
            ..s
        });
        lemma_clear_loop_body(p, s, t2, w - 1);
        assert(s.cells.update(s.position, (w - 1) as usize).update(s.position, 0) =~= s.cells.update(
            s.position,
            0,
        ));
    }
}

/// `[-]` run on a cell holding `v` ends, after `2 v + 1` steps, past its
/// last instruction with that cell at zero and nothing else changed.
pub proof fn lemma_clear_loop_zeroes_cell(p: Seq<Instruction>, s: RunState)
    requires
        is_clear_loop(p),
        0 <= s.position < s.cells.len(),
        s.pc == 0,
    ensures
        run(p, s, (2 * s.cells[s.position] + 1) as nat) == Ok::<RunState, RuntimeError>(
            RunState { cells: s.cells.update(s.position, 0), pc: 3, ..s },
        ),
{
    let v = s.cells[s.position];
    let t = next_state(p, s)->Ok_0;
    assert(run(p, s, (2 * v + 1) as nat) == run(p, t, (2 * v) as nat));
    if v == 0 {
        assert(s.cells.update(s.position, 0) =~= s.cells);
    } else {
        assert(s.cells.update(s.position, v) =~= s.cells);
        lemma_clear_loop_body(p, s, t, v as int);
    }
}

/// What `[-]` compiles to is the loop that `lemma_clear_loop_zeroes_cell`
/// speaks of.
pub proof fn lemma_clear_loop_compiles(p: Seq<Instruction>)
    requires
        resolution_of(lexed(seq!['[', '-', ']']), p),
    ensures
        is_clear_loop(p),
{
    let s = seq!['[', '-', ']'];
    assert(run_length(s, 3, '-') == 0);
    assert(run_length(s, 2, '-') == 0);
    assert(run_length(s, 1, '-') == 1);
    let q = lexed(s);
    assert(lex(s, 3, 0, 3) == Seq::<Instruction>::empty());
    assert(lex(s, 2, 0, 2) == seq![instruction_at(1, op_of_char(']'), 0, 2)]);
    assert(lex(s, 1, 0, 1) =~= seq![
        instruction_at(1, op_of_char('-'), 0, 1),
        instruction_at(1, op_of_char(']'), 0, 2),
    ]);
    assert(q =~= seq![
        instruction_at(1, op_of_char('['), 0, 0),
        instruction_at(1, op_of_char('-'), 0, 1),
        instruction_at(1, op_of_char(']'), 0, 2),
    ]);
    assert(p[0].n == q[0].n);
    assert(p[1].n == q[1].n);
    assert(p[2].n == q[2].n);
    assert(is_begin(p[0]));
    let t = target_of(p[0].op)->0 as int;
    assert(loop_target(p, 0, t));
    assert(t == 2);
}

} // verus!
