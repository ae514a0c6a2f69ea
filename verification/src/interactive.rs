//! The state of an interactive session: a live program, the bytes it has
//! written so far, and the lines the user has entered. The terminal event
//! loop and rendering around it are outside collaborators; they extend the
//! program through [`crate::program::Program::append_instructions`] and
//! resume it with [`crate::program::Program::run`].
use vstd::prelude::*;

use crate::program::Program;

verus! {

/// A session: the machine, its accumulated output history, and the input
/// lines entered so far.
pub struct Interactive {
    pub program: Program,
    pub output: Vec<u8>,
    pub inputs: Vec<String>,
}

impl Interactive {
    /// A session over `program` with no output and no inputs yet.
    pub fn new(program: Program) -> (r: Self)
        ensures
            r.program == program,
            r.output@ == Seq::<u8>::empty(),
            r.inputs@ == Seq::<String>::empty(),
    {
        Interactive { program, output: Vec::new(), inputs: Vec::new() }
    }
}

} // verus!
