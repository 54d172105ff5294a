//! One compiled instruction.
use vstd::prelude::*;
use super::utils::{Address, Position};

verus! {

#[derive(Debug, Clone, Copy, PartialEq, Eq, Structural)]
pub enum Operation {
    TapeLeft,
    TapeRight,
    /// Shows the cells around the current one.
    TapePrint,
    CellInc,
    CellDec,
    /// Sends the current cell to the output.
    CellRead,
    /// Reads a byte of input into the current cell.
    CellWrite,
    /// Holds the address of the matching `EndLoop`, or `None` until it is set.
    BeginLoop(Option<Address>),
    EndLoop,
}

#[derive(Debug, Clone, Copy, PartialEq, Eq, Structural)]
pub struct Instruction {
    /// How many times the operation is repeated; 1 but for the four
    /// operations that can be grouped.
    pub n: usize,
    pub op: Operation,
    /// Where the first character of the instruction stands in the source.
    pub pos: Position,
}

impl Instruction {
    pub fn new(n: usize, op: Operation, pos: Position) -> (r: Instruction)
        ensures
            r == (Instruction { n, op, pos }),
    {
        Instruction { n, op, pos }
    }

    pub fn get_op(&self) -> (r: &Operation)
        ensures
            *r == self.op,
    {
        &self.op
    }

    pub fn get_n(&self) -> (r: usize)
        ensures
            r == self.n,
    {
        self.n
    }

    pub fn get_position(&self) -> (r: &Position)
        ensures
            *r == self.pos,
    {
        &self.pos
    }

    /// Sets the loop target of a `BeginLoop` whose target is not set yet.
    pub fn set_end_of_loop_address(&mut self, addr: Address)
        requires
            old(self).op == Operation::BeginLoop(None),
        ensures
            *final(self) == (Instruction { op: Operation::BeginLoop(Some(addr)), ..*old(self) }),
    {
        self.op = Operation::BeginLoop(Some(addr));
    }
}

} // verus!
