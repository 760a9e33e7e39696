//! A verified core for running programs of the eight-instruction tape language.
//!
//! Source bytes are filtered into tokens ([`brainfuck_open_code`]). Tokens are fused and
//! linked into an intermediate representation ([`ir`]). Either form can be executed one
//! instruction at a time by an engine that leaves all input and output to its caller
//! ([`interpreter`], [`ir_interpreter`]), and the intermediate representation is lowered to
//! an abstract native routine ([`jit`]) that a code emitter follows instruction by
//! instruction.
//!
//! What is proved beyond the contracts of the single functions: fusion cannot be observed
//! ([`fusion`]), the two engines compute the same ([`equivalence`]), every intermediate
//! representation is well formed ([`layout`]), the branches of a lowered routine are the
//! jumps of its program ([`jit`]), and the routine computes what the node engine computes
//! ([`native`]). The theory of loop nesting that all of this rests on is in [`nesting`].

pub mod nesting;
pub mod tape;
pub mod error;
pub mod brainfuck_open_code;
pub mod ir;
pub mod fusion;
pub mod layout;
pub mod machine;
pub mod interpreter;
pub mod ir_interpreter;
pub mod jit;
pub mod native;
pub mod equivalence;

pub use brainfuck_open_code::{BrainfuckCode, OpenCode};
pub use error::UnbalancedLoopError;
pub use interpreter::Interpreter;
pub use ir::{BrainfuckCodeIR, IR};
pub use machine::{Action, Exit, Outcome};
pub use tape::Tape;
