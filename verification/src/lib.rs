//! An interpreter for a minimal tape-based instruction set: a token-filtering
//! lexer, a loop-resolving parser that emits run-length-collapsed instructions
//! with precomputed jump targets, and a tape-machine executor with dynamic
//! memory growth, wrapping arithmetic, and an extensible meta-command.
use vstd::prelude::*;

pub mod instruction;
pub mod interactive;
pub mod parser;
pub mod program;
pub mod term;

use crate::instruction::InstrView;
use crate::interactive::Interactive;
use crate::program::Program;

verus! {

/// The top-level entry points: a fresh interactive session here, with the
/// file-driven batch front end left to the surrounding program.
pub struct BrainRust;

impl BrainRust {
    /// A fresh interactive session: an empty program over a small zeroed
    /// tape, ready for lines to be parsed and appended.
    pub fn interactive() -> (r: Interactive)
        ensures
            r.program.wf(),
            r.program@.instructions == Seq::<InstrView>::empty(),
            r.program@.pointer == 0,
            r.program@.ip == 0,
            r.output@ == Seq::<u8>::empty(),
            r.inputs@ == Seq::<String>::empty(),
    {
        let empty: Vec<crate::instruction::Instruction> = Vec::new();
        proof {
            assert(crate::instruction::instrs_view(empty@) =~= Seq::<InstrView>::empty());
        }
        let program = Program::new(empty);
        Interactive::new(program)
    }
}

} // verus!
