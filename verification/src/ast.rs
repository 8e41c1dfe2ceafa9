//! The instruction tree: the structural form of a validated program.

use vstd::prelude::*;

verus! {

/// One executable instruction. A `Loop` owns the ordered body that runs
/// while the cell under the pointer is nonzero.
#[derive(Debug, PartialEq, Eq)]
pub enum Instruction {
    /// Move the pointer one cell to the right, wrapping at the tape's end.
    MoveRight,
    /// Move the pointer one cell to the left, wrapping at the tape's start.
    MoveLeft,
    /// Add one to the cell under the pointer, wrapping modulo 256.
    Increment,
    /// Subtract one from the cell under the pointer, wrapping modulo 256.
    Decrement,
    /// Append the cell under the pointer to the output.
    Output,
    /// Read the next input byte into the cell under the pointer, if any
    /// input is left; otherwise leave the cell unchanged.
    Input,
    /// Repeat the body while the cell under the pointer is nonzero.
    Loop(Vec<Instruction>),
}

/// The mathematical form of an [`Instruction`], with loop bodies as `Seq`.
pub enum SpecInstr {
    MoveRight,
    MoveLeft,
    Increment,
    Decrement,
    Output,
    Input,
    Loop(Seq<SpecInstr>),
}

impl View for Instruction {
    type V = SpecInstr;

    open spec fn view(&self) -> SpecInstr
        decreases self,
    {
        match self {
            Instruction::MoveRight => SpecInstr::MoveRight,
            Instruction::MoveLeft => SpecInstr::MoveLeft,
            Instruction::Increment => SpecInstr::Increment,
            Instruction::Decrement => SpecInstr::Decrement,
            Instruction::Output => SpecInstr::Output,
            Instruction::Input => SpecInstr::Input,
            Instruction::Loop(body) => {
                proof {
                    // termination: the body's view sits below the vector
                    vstd::std_specs::vec::axiom_vec_decreases_to_view(*body);
                }
                SpecInstr::Loop(view_body(body@))
            },
        }
    }
}

/// The mathematical form of an instruction sequence, element for element.
pub open spec fn view_body(s: Seq<Instruction>) -> Seq<SpecInstr>
    decreases s,
{
    if s.len() == 0 {
        Seq::empty()
    } else {
        view_body(s.drop_last()).push(s.last()@)
    }
}

/// Number of nodes in one instruction, counting a `Loop` node itself and
/// every node of its body, recursively.
pub open spec fn instr_size(i: SpecInstr) -> nat
    decreases i,
{
    match i {
        SpecInstr::Loop(body) => 1 + seq_size(body),
        _ => 1,
    }
}

/// Number of nodes in an instruction sequence, counting loop bodies
/// recursively.
pub open spec fn seq_size(s: Seq<SpecInstr>) -> nat
    decreases s,
{
    if s.len() == 0 {
        0
    } else {
        seq_size(s.drop_last()) + instr_size(s.last())
    }
}

/// `view_body` keeps a sequence's length.
pub proof fn lemma_view_body_len(s: Seq<Instruction>)
    ensures
        view_body(s).len() == s.len(),
    decreases s.len(),
{
    if s.len() > 0 {
        lemma_view_body_len(s.drop_last());
        assert(view_body(s) == view_body(s.drop_last()).push(s.last()@));
        assert(s.drop_last().len() == s.len() - 1);
    }
}

/// `view_body` views a sequence element for element.
pub proof fn lemma_view_body_index(s: Seq<Instruction>, k: int)
    requires
        0 <= k < s.len(),
    ensures
        view_body(s).len() == s.len(),
        view_body(s)[k] == s[k]@,
    decreases s.len(),
{
    lemma_view_body_len(s);
    lemma_view_body_len(s.drop_last());
    assert(view_body(s) == view_body(s.drop_last()).push(s.last()@));
    if k < s.len() - 1 {
        lemma_view_body_index(s.drop_last(), k);
        assert(s.drop_last()[k] == s[k]);
        assert(view_body(s.drop_last()).push(s.last()@)[k] == view_body(s.drop_last())[k]);
    } else {
        assert(s.last() == s[k]);
        assert(view_body(s.drop_last()).push(s.last()@)[k] == s.last()@);
    }
}

/// A validated program: the ordered top-level instructions.
#[derive(Debug, PartialEq, Eq)]
pub struct Program {
    /// The top-level instruction sequence.
    pub instrs: Vec<Instruction>,
}

impl View for Program {
    type V = Seq<SpecInstr>;

    open spec fn view(&self) -> Seq<SpecInstr> {
        view_body(self.instrs@)
    }
}

/// A structural validation failure, detected while building a program.
#[derive(Clone, Copy, Debug, PartialEq, Eq, Structural)]
pub enum BuildError {
    /// A closing bracket with no open loop to close; holds the byte
    /// position of that bracket in the source.
    UnmatchedClosingBracket(usize),
    /// An opening bracket never closed by the end of the source; holds
    /// the byte position of the outermost such bracket.
    UnmatchedOpeningBracket(usize),
}

} // verus!
