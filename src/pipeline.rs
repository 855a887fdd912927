//! Source text in, emitted bytes out: parsing and running on a fresh machine.
use vstd::prelude::*;

use crate::executor::{Machine, Status, TAPE_SIZE, execute, run, state_of};
use crate::instr::view_program;
use crate::parser::{ParseError, parse, parsed};

verus! {

/// A zeroed tape with the pointer on its first cell and nothing emitted.
pub open spec fn fresh_machine() -> Machine {
    Machine { pointer: 0, tape: Seq::new(TAPE_SIZE as nat, |_i: int| 0u8), output: Seq::empty() }
}

/// Parses `text` and runs it on a fresh machine. A text that does not parse
/// is never run. On success, gives how the run ended and every byte it
/// emitted, in order.
pub fn interpret(text: &str, fuel: u64) -> (r: Result<(Status, Vec<u8>), ParseError>)
    ensures
        match parsed(text@) {
            None => r == Err::<(Status, Vec<u8>), ParseError>(ParseError::UnclosedLoop),
            Some(p) => r matches Ok((st, out)) && {
                let (st2, m) = run(p, fresh_machine(), fuel as nat);
                st == st2 && out@ == m.output
            },
        },
{
    match parse(text) {
        Err(e) => Err(e),
        Ok(program) => {
            let mut pointer: usize = 0;
            let mut tape: [u8; TAPE_SIZE] = [0u8; TAPE_SIZE];
            let mut output: Vec<u8> = Vec::new();
            assert(tape@ =~= fresh_machine().tape);
            assert(output@ =~= fresh_machine().output);
            assert(state_of(pointer, tape@, output@) == fresh_machine());
            let st = execute(&program, &mut pointer, &mut tape, &mut output, fuel);
            Ok((st, output))
        },
    }
}

} // verus!
