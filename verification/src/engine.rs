use vstd::prelude::*;

pub mod evaluator;

verus! {

/// An instruction of the matching machine. The machine reads the input line
/// at `sp` and runs the instruction at `pc`.
#[derive(Debug, Clone, Copy, PartialEq, Eq, Structural)]
pub enum Instruction {
    /// Consume one character equal to the given one.
    Char(char),
    /// The line matches.
    Match,
    /// Continue at the given address.
    Jump(usize),
    /// Try both addresses.
    Split(usize, usize),
}

} // verus!
