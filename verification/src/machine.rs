//! What the execution engines have in common: the state between two instructions, what an
//! instruction asks of the outside world, and a run against a given input.

use crate::tape::TapeState;
use vstd::prelude::*;

verus! {

/// The state of an engine between two instructions.
pub struct Config {
    /// The index of the instruction to execute next.
    pub pc: nat,
    pub tape: TapeState,
}

impl Config {
    /// The state every run starts from.
    pub open spec fn initial() -> Config {
        Config { pc: 0, tape: TapeState::fresh() }
    }
}

/// What the instruction at hand asks of the outside world.
#[derive(Debug, PartialEq, Eq, Clone, Copy, Structural)]
pub enum Action {
    /// Nothing: the instruction works on the tape or the program counter alone.
    Continue,
    /// Write this byte.
    Output(u8),
    /// Read one byte and feed it to the engine.
    Input,
    /// Nothing more: the program has ended.
    Halt,
}

/// An engine as a pair of functions: what the next instruction asks for, and the state after
/// it. The byte handed to `next` is the one read, where the instruction reads.
pub struct Engine {
    pub action: spec_fn(Config) -> Action,
    pub next: spec_fn(Config, u8) -> Config,
}

/// A run in progress: the engine's state, how many input bytes it has read, and what it has
/// written.
pub struct Run {
    pub config: Config,
    pub consumed: nat,
    pub output: Seq<u8>,
}

impl Run {
    /// A run that starts in `config` and has read and written nothing.
    pub open spec fn starting(config: Config) -> Run {
        Run { config, consumed: 0, output: Seq::empty() }
    }
}

/// How a run stands.
#[derive(Debug, PartialEq, Eq, Clone, Copy, Structural)]
pub enum Exit {
    /// The program ran to its end.
    Completed,
    /// The program was stopped at the step limit and can go on.
    StepLimit,
    /// The program asked for a byte where the input had ended.
    IOError,
}

/// What a bounded run leaves behind.
#[derive(Debug, PartialEq, Eq)]
pub struct Outcome {
    /// The bytes written, in order.
    pub output: Vec<u8>,
    /// The number of input bytes read.
    pub consumed: usize,
    /// How the run stands.
    pub exit: Exit,
}

/// The run after one more instruction. A run that has ended, or that waits for input that
/// is not there, stays as it is.
pub open spec fn advance(e: Engine, input: Seq<u8>, r: Run) -> Run {
    match (e.action)(r.config) {
        Action::Halt => r,
        Action::Input => if r.consumed < input.len() {
            Run {
                config: (e.next)(r.config, input[r.consumed as int]),
                consumed: r.consumed + 1,
                output: r.output,
            }
        } else {
            r
        },
        Action::Output(byte) => Run {
            config: (e.next)(r.config, 0),
            consumed: r.consumed,
            output: r.output.push(byte),
        },
        Action::Continue => Run {
            config: (e.next)(r.config, 0),
            consumed: r.consumed,
            output: r.output,
        },
    }
}

/// The run after `fuel` more instructions.
pub open spec fn run(e: Engine, input: Seq<u8>, r: Run, fuel: nat) -> Run
    decreases fuel,
{
    if fuel == 0 {
        r
    } else {
        run(e, input, advance(e, input, r), (fuel - 1) as nat)
    }
}

/// How the run `r` stands.
pub open spec fn exit_of(e: Engine, input: Seq<u8>, r: Run) -> Exit {
    match (e.action)(r.config) {
        Action::Halt => Exit::Completed,
        Action::Input => if r.consumed < input.len() {
            Exit::StepLimit
        } else {
            Exit::IOError
        },
        _ => Exit::StepLimit,
    }
}

/// The run cannot go on: the program has ended or waits for input that is not there.
pub open spec fn stuck(e: Engine, input: Seq<u8>, r: Run) -> bool {
    exit_of(e, input, r) != Exit::StepLimit
}

/// A run that cannot go on stays as it is, whatever fuel it is given.
pub proof fn lemma_stuck_stays(e: Engine, input: Seq<u8>, r: Run, fuel: nat)
    requires
        stuck(e, input, r),
    ensures
        run(e, input, r, fuel) == r,
    decreases fuel,
{
    if fuel > 0 {
        lemma_stuck_stays(e, input, r, (fuel - 1) as nat);
    }
}

/// Running `a` instructions and a further `b` is running `a + b`.
pub proof fn lemma_run_split(e: Engine, input: Seq<u8>, r: Run, a: nat, b: nat)
    ensures
        run(e, input, run(e, input, r, a), b) == run(e, input, r, a + b),
    decreases a,
{
    if a > 0 {
        lemma_run_split(e, input, advance(e, input, r), (a - 1) as nat, b);
    }
}

/// Once a run cannot go on, more fuel changes nothing: a program has one result.
pub proof fn lemma_result_unique(e: Engine, input: Seq<u8>, r: Run, a: nat, b: nat)
    requires
        stuck(e, input, run(e, input, r, a)),
        a <= b,
    ensures
        run(e, input, r, b) == run(e, input, r, a),
{
    lemma_run_split(e, input, r, a, (b - a) as nat);
    lemma_stuck_stays(e, input, run(e, input, r, a), (b - a) as nat);
}

} // verus!
