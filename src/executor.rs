//! Running an instruction tree over a circular byte tape.
use vstd::prelude::*;

use crate::instr::{Instr, Node, view_program};

verus! {

/// The number of cells on the tape.
pub const TAPE_SIZE: usize = 30000;

/// How a run ended.
#[derive(Debug, Clone, Copy, PartialEq, Eq, Structural)]
pub enum Status {
    /// Every instruction ran to its natural end.
    Finished,
    /// An input instruction was reached; nothing after it ran.
    Unsupported,
    /// A loop was still going when its share of the fuel ran out.
    OutOfFuel,
}

/// The state that a run reads and changes.
pub struct Machine {
    pub pointer: int,
    pub tape: Seq<u8>,
    /// Every byte emitted so far, in order.
    pub output: Seq<u8>,
}

impl Machine {
    /// The pointer addresses a cell of a tape of the configured length.
    pub open spec fn wf(self) -> bool {
        &&& self.tape.len() == TAPE_SIZE
        &&& 0 <= self.pointer < TAPE_SIZE
    }

    /// The cell that the pointer addresses.
    pub open spec fn cell(self) -> u8 {
        self.tape[self.pointer]
    }
}

/// The machine that a pointer, a tape and the bytes emitted so far make up.
pub open spec fn state_of(pointer: usize, tape: Seq<u8>, output: Seq<u8>) -> Machine {
    Machine { pointer: pointer as int, tape, output }
}

/// The effect of one instruction that is neither a loop nor input.
pub open spec fn step(i: Instr, m: Machine) -> Machine {
    match i {
        Instr::Left => Machine {
            pointer: if m.pointer == 0 { TAPE_SIZE - 1 } else { m.pointer - 1 },
            ..m
        },
        Instr::Right => Machine {
            pointer: if m.pointer == TAPE_SIZE - 1 { 0 } else { m.pointer + 1 },
            ..m
        },
        Instr::Increment => Machine {
            tape: m.tape.update(m.pointer, if m.cell() == 255 { 0 } else { (m.cell() + 1) as u8 }),
            ..m
        },
        Instr::Decrement => Machine {
            tape: m.tape.update(m.pointer, if m.cell() == 0 { 255 } else { (m.cell() - 1) as u8 }),
            ..m
        },
        Instr::Output => Machine { output: m.output.push(m.cell()), ..m },
        _ => m,
    }
}

/// Runs `p` from `m`. Each loop may start its body at most `fuel` times, and
/// each start leaves one less to the body and to the iterations after it.
pub open spec fn run(p: Seq<Instr>, m: Machine, fuel: nat) -> (Status, Machine)
    decreases fuel, p.len(),
{
    if p.len() == 0 {
        (Status::Finished, m)
    } else {
        match p[0] {
            Instr::InputReplace => (Status::Unsupported, m),
            Instr::Loop(body) => {
                if m.cell() == 0 {
                    run(p.drop_first(), m, fuel)
                } else if fuel == 0 {
                    (Status::OutOfFuel, m)
                } else {
                    let (st, m2) = run(body, m, (fuel - 1) as nat);
                    if st == Status::Finished {
                        run(p, m2, (fuel - 1) as nat)
                    } else {
                        (st, m2)
                    }
                }
            },
            i => run(p.drop_first(), step(i, m), fuel),
        }
    }
}

/// Runs a program against the tape, appending every byte it emits to
/// `output`. Stops at the first input instruction, leaving the rest unrun.
pub fn execute(
    program: &Vec<Node>,
    pointer: &mut usize,
    tape: &mut [u8; TAPE_SIZE],
    output: &mut Vec<u8>,
    fuel: u64,
) -> (r: Status)
    requires
        *old(pointer) < TAPE_SIZE,
    ensures
        *final(pointer) < TAPE_SIZE,
        (r, state_of(*final(pointer), final(tape)@, final(output)@)) == run(
            view_program(program@),
            state_of(*old(pointer), old(tape)@, old(output)@),
            fuel as nat,
        ),
    decreases fuel,
{
    let ghost p = view_program(program@);
    let ghost start = state_of(*old(pointer), old(tape)@, old(output)@);
    let mut f: u64 = fuel;
    let mut i: usize = 0;
    assert(p.skip(0) =~= p);
    while i < program.len()
        invariant
            0 <= i <= program.len(),
            f <= fuel,
            *pointer < TAPE_SIZE,
            tape@.len() == TAPE_SIZE,
            p == view_program(program@),
            start == state_of(*old(pointer), old(tape)@, old(output)@),
            run(p, start, fuel as nat) == run(
                p.skip(i as int),
                state_of(*pointer, tape@, output@),
                f as nat,
            ),
        decreases program.len() - i,
    {
        let ghost rest = p.skip(i as int);
        assert(rest.drop_first() =~= p.skip(i + 1));
        assert(rest[0] == program@[i as int]@);
        let at = *pointer;
        match &program[i] {
            Node::Left => {
                if at == 0 {
                    *pointer = TAPE_SIZE - 1;
                } else {
                    *pointer = at - 1;
                }
            },
            Node::Right => {
                if at == TAPE_SIZE - 1 {
                    *pointer = 0;
                } else {
                    *pointer = at + 1;
                }
            },
            Node::Increment => {
                if tape[at] == 255 {
                    tape[at] = 0;
                } else {
                    let v = tape[at] + 1;
                    tape[at] = v;
                }
            },
            Node::Decrement => {
                if tape[at] == 0 {
                    tape[at] = 255;
                } else {
                    let v = tape[at] - 1;
                    tape[at] = v;
                }
            },
            Node::Output => {
                output.push(tape[at]);
            },
            Node::InputReplace => {
                return Status::Unsupported;
            },
            Node::Loop(body) => {
                while tape[*pointer] != 0
                    invariant
                        f <= fuel,
                        *pointer < TAPE_SIZE,
                        tape@.len() == TAPE_SIZE,
                        rest.len() > 0,
                        p == view_program(program@),
                        start == state_of(*old(pointer), old(tape)@, old(output)@),
                        rest[0] == Instr::Loop(view_program(body@)),
                        rest.drop_first() == p.skip(i + 1),
                        run(p, start, fuel as nat) == run(
                            rest,
                            state_of(*pointer, tape@, output@),
                            f as nat,
                        ),
                    decreases f,
                {
                    let ghost m = state_of(*pointer, tape@, output@);
                    if f == 0 {
                        assert(run(rest, m, 0) == (Status::OutOfFuel, m));
                        return Status::OutOfFuel;
                    }
                    f = f - 1;
                    let st = execute(body, pointer, tape, output, f);
                    assert(run(rest, m, (f + 1) as nat) == {
                        let (st2, m2) = run(view_program(body@), m, f as nat);
                        if st2 == Status::Finished {
                            run(rest, m2, f as nat)
                        } else {
                            (st2, m2)
                        }
                    });
                    if st != Status::Finished {
                        return st;
                    }
                }
            },
        }
        i = i + 1;
    }
    assert(p.skip(i as int) =~= Seq::<Instr>::empty());
    Status::Finished
}

/// `n` copies of one instruction.
pub open spec fn repeat(i: Instr, n: nat) -> Seq<Instr> {
    Seq::new(n, |_j: int| i)
}

/// Moving right `k` times advances the pointer by `k` around the tape and
/// changes nothing else.
pub proof fn lemma_moves_right(m: Machine, k: nat, fuel: nat)
    requires
        m.wf(),
    ensures
        run(repeat(Instr::Right, k), m, fuel) == (
            Status::Finished,
            Machine { pointer: (m.pointer + k) % (TAPE_SIZE as int), ..m },
        ),
    decreases k,
{
    let p = repeat(Instr::Right, k);
    if k == 0 {
        assert(m.pointer % (TAPE_SIZE as int) == m.pointer);
    } else {
        assert(p.drop_first() =~= repeat(Instr::Right, (k - 1) as nat));
        let m1 = step(Instr::Right, m);
        lemma_moves_right(m1, (k - 1) as nat, fuel);
        assert((m1.pointer + k - 1) % (TAPE_SIZE as int) == (m.pointer + k) % (TAPE_SIZE as int));
        assert(Machine { pointer: (m.pointer + k) % (TAPE_SIZE as int), ..m } == Machine {
            pointer: (m1.pointer + k - 1) % (TAPE_SIZE as int),
            ..m1
        });
    }
}

/// Moving left `k` times moves the pointer back by `k` around the tape and
/// changes nothing else.
pub proof fn lemma_moves_left(m: Machine, k: nat, fuel: nat)
    requires
        m.wf(),
    ensures
        run(repeat(Instr::Left, k), m, fuel) == (
            Status::Finished,
            Machine { pointer: (m.pointer - k) % (TAPE_SIZE as int), ..m },
        ),
    decreases k,
{
    let p = repeat(Instr::Left, k);
    if k == 0 {
        assert(m.pointer % (TAPE_SIZE as int) == m.pointer);
    } else {
        assert(p.drop_first() =~= repeat(Instr::Left, (k - 1) as nat));
        let m1 = step(Instr::Left, m);
        lemma_moves_left(m1, (k - 1) as nat, fuel);
        assert((m1.pointer - (k - 1)) % (TAPE_SIZE as int) == (m.pointer - k) % (TAPE_SIZE as int));
        assert(Machine { pointer: (m.pointer - k) % (TAPE_SIZE as int), ..m } == Machine {
            pointer: (m1.pointer - (k - 1)) % (TAPE_SIZE as int),
            ..m1
        });
    }
}

/// A full turn of moves in either direction brings the pointer back to
/// where it was, whatever the tape holds.
pub proof fn lemma_full_turn(m: Machine, fuel: nat)
    requires
        m.wf(),
    ensures
        run(repeat(Instr::Right, TAPE_SIZE as nat), m, fuel) == (Status::Finished, m),
        run(repeat(Instr::Left, TAPE_SIZE as nat), m, fuel) == (Status::Finished, m),
{
    lemma_moves_right(m, TAPE_SIZE as nat, fuel);
    lemma_moves_left(m, TAPE_SIZE as nat, fuel);
    assert((m.pointer + TAPE_SIZE) % (TAPE_SIZE as int) == m.pointer);
    assert((m.pointer - TAPE_SIZE) % (TAPE_SIZE as int) == m.pointer);
    assert(Machine { pointer: m.pointer, ..m } == m);
}

/// `k` increments add `k` to the addressed cell modulo 256 and change
/// nothing else.
pub proof fn lemma_increments(m: Machine, k: nat, fuel: nat)
    requires
        m.wf(),
    ensures
        run(repeat(Instr::Increment, k), m, fuel) == (
            Status::Finished,
            Machine { tape: m.tape.update(m.pointer, ((m.cell() + k) % 256) as u8), ..m },
        ),
    decreases k,
{
    let p = repeat(Instr::Increment, k);
    if k == 0 {
        assert(m.tape.update(m.pointer, ((m.cell() + k) % 256) as u8) =~= m.tape);
    } else {
        assert(p.drop_first() =~= repeat(Instr::Increment, (k - 1) as nat));
        let m1 = step(Instr::Increment, m);
        lemma_increments(m1, (k - 1) as nat, fuel);
        assert((m1.cell() + k - 1) % 256 == (m.cell() + k) % 256);
        assert(m1.tape.update(m.pointer, ((m1.cell() + k - 1) % 256) as u8) =~= m.tape.update(
            m.pointer,
            ((m.cell() + k) % 256) as u8,
        ));
    }
}

/// `k` decrements subtract `k` from the addressed cell modulo 256 and change
/// nothing else.
pub proof fn lemma_decrements(m: Machine, k: nat, fuel: nat)
    requires
        m.wf(),
    ensures
        run(repeat(Instr::Decrement, k), m, fuel) == (
            Status::Finished,
            Machine { tape: m.tape.update(m.pointer, ((m.cell() - k) % 256) as u8), ..m },
        ),
    decreases k,
{
    let p = repeat(Instr::Decrement, k);
    if k == 0 {
        assert(m.tape.update(m.pointer, ((m.cell() - k) % 256) as u8) =~= m.tape);
    } else {
        assert(p.drop_first() =~= repeat(Instr::Decrement, (k - 1) as nat));
        let m1 = step(Instr::Decrement, m);
        lemma_decrements(m1, (k - 1) as nat, fuel);
        assert((m1.cell() - (k - 1)) % 256 == (m.cell() - k) % 256);
        assert(m1.tape.update(m.pointer, ((m1.cell() - (k - 1)) % 256) as u8) =~= m.tape.update(
            m.pointer,
            ((m.cell() - k) % 256) as u8,
        ));
    }
}

/// On a zero cell, 255 increments reach 255 and one more wraps it to 0;
/// one decrement wraps it to 255.
pub proof fn lemma_cell_wraps(m: Machine, fuel: nat)
    requires
        m.wf(),
        m.cell() == 0,
    ensures
        run(repeat(Instr::Increment, 255), m, fuel) == (
            Status::Finished,
            Machine { tape: m.tape.update(m.pointer, 255), ..m },
        ),
        run(repeat(Instr::Increment, 256), m, fuel) == (Status::Finished, m),
        run(repeat(Instr::Decrement, 1), m, fuel) == (
            Status::Finished,
            Machine { tape: m.tape.update(m.pointer, 255), ..m },
        ),
        run(repeat(Instr::Decrement, 256), m, fuel) == (Status::Finished, m),
{
    lemma_increments(m, 255, fuel);
    lemma_increments(m, 256, fuel);
    lemma_decrements(m, 1, fuel);
    lemma_decrements(m, 256, fuel);
    assert(m.tape.update(m.pointer, 0) =~= m.tape);
}

/// A loop entered on a zero cell runs its body not at all and leaves the
/// machine as it was.
pub proof fn lemma_loop_skipped(body: Seq<Instr>, m: Machine, fuel: nat)
    requires
        m.wf(),
        m.cell() == 0,
    ensures
        run(seq![Instr::Loop(body)], m, fuel) == (Status::Finished, m),
{
    assert(seq![Instr::Loop(body)].drop_first() =~= Seq::<Instr>::empty());
    assert(run(Seq::<Instr>::empty(), m, fuel) == (Status::Finished, m));
}

/// An input instruction ends the run on the spot: nothing after it runs, so
/// nothing after it is emitted.
pub proof fn lemma_input_stops(rest: Seq<Instr>, m: Machine, fuel: nat)
    ensures
        run(seq![Instr::InputReplace] + rest, m, fuel) == (Status::Unsupported, m),
{
}

} // verus!
