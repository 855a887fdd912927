//! The instruction tree and its mathematical model.
use vstd::prelude::*;

verus! {

/// One node of a program. A loop owns its body, which is itself a program.
#[derive(Debug)]
pub enum Node {
    Left,
    Right,
    Increment,
    Decrement,
    Output,
    InputReplace,
    Loop(Vec<Node>),
}

/// The model of a `Node`: the same shape, with loop bodies as sequences.
pub enum Instr {
    Left,
    Right,
    Increment,
    Decrement,
    Output,
    InputReplace,
    Loop(Seq<Instr>),
}

impl Node {
    /// The model of this node.
    pub open spec fn view(self) -> Instr
        decreases self,
    {
        match self {
            Node::Left => Instr::Left,
            Node::Right => Instr::Right,
            Node::Increment => Instr::Increment,
            Node::Decrement => Instr::Decrement,
            Node::Output => Instr::Output,
            Node::InputReplace => Instr::InputReplace,
            Node::Loop(body) => Instr::Loop(view_program(body@)),
        }
    }
}

/// The model of a program: each node replaced by its model. The guard in
/// the closure lets Verus see that each node is smaller than the program.
pub open spec fn view_program(p: Seq<Node>) -> Seq<Instr>
    decreases p,
{
    Seq::new(p.len(), |i: int| if 0 <= i < p.len() { p[i].view() } else { Instr::Left })
}

/// The number of nodes in a program, counting the contents of loops at every depth.
pub open spec fn program_size(p: Seq<Instr>) -> nat
    decreases p,
{
    if p.len() == 0 {
        0
    } else {
        instr_size(p[0]) + program_size(p.drop_first())
    }
}

/// One for the node itself, plus the size of its body if it is a loop.
pub open spec fn instr_size(i: Instr) -> nat
    decreases i,
{
    match i {
        Instr::Loop(body) => 1 + program_size(body),
        _ => 1,
    }
}

} // verus!
