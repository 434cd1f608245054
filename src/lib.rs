//! An interpreter for Boolfuck, a language of single bits on an unbounded tape.
//!
//! Source text is compiled into instructions whose bracket pairs point at each
//! other, then run on a tape of bits with input and output packed into bytes.
pub mod bits;
pub mod program;
pub mod runtime;
pub mod tape;

pub use program::{Instruction, Program};
pub use runtime::Runtime;
pub use tape::Tape;

use vstd::prelude::*;
use program::{balanced, compiles_to, lemma_compile_unique};
use runtime::{halted, input_suffices, packs, start, steps};

verus! {

/// The compiled form of source text `s`.
pub open spec fn compiled(s: Seq<char>) -> Seq<Instruction> {
    choose|p: Seq<Instruction>| compiles_to(s, p)
}

/// A program that `compile` returns is the compiled form of its text.
pub proof fn lemma_compiled(s: Seq<char>, p: Seq<Instruction>)
    requires
        compiles_to(s, p),
    ensures
        compiled(s) == p,
{
    lemma_compile_unique(s, compiled(s), p);
}

/// Runs source text `code` on `input` and returns the bytes written.
pub fn boolfuck(code: &str, input: Vec<u8>) -> (r: Vec<u8>)
    requires
        balanced(code@),
        input_suffices(compiled(code@), input@, start()),
    ensures
        exists|n: nat|
            n <= u64::MAX && packs(r@, #[trigger] steps(compiled(code@), input@, start(), n).written)
                && (halted(compiled(code@), steps(compiled(code@), input@, start(), n))
                || n == u64::MAX),
{
    let program = Program::compile(code);
    proof {
        lemma_compiled(code@, program@);
    }
    let mut runtime = Runtime::new(program, input);
    runtime.run();
    runtime.into_output()
}

} // verus!
