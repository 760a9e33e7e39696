//! The engine that executes the intermediate representation node by node.

use crate::ir::{node_brackets, BrainfuckCodeIR, IR};
use crate::machine::{
    exit_of, lemma_stuck_stays, run, Action, Config, Engine, Exit, Outcome, Run,
};
use crate::tape::Tape;
use vstd::prelude::*;

verus! {

/// What the node at the program counter asks of the outside world.
pub open spec fn ir_action(nodes: Seq<IR>, c: Config) -> Action {
    if c.pc >= nodes.len() {
        Action::Halt
    } else {
        match nodes[c.pc as int] {
            IR::PUTCHAR => Action::Output(c.tape.current()),
            IR::GETCHAR => Action::Input,
            _ => Action::Continue,
        }
    }
}

/// The state after the node at the program counter; `incoming` is the byte read, where the
/// node reads one.
pub open spec fn ir_next(nodes: Seq<IR>, c: Config, incoming: u8) -> Config {
    match nodes[c.pc as int] {
        IR::SHR(x) => Config { pc: c.pc + 1, tape: c.tape.right(x as nat) },
        IR::SHL(x) => Config { pc: c.pc + 1, tape: c.tape.left(x as nat) },
        IR::ADD(x) => Config { pc: c.pc + 1, tape: c.tape.plus(x) },
        IR::SUB(x) => Config { pc: c.pc + 1, tape: c.tape.minus(x) },
        IR::PUTCHAR => Config { pc: c.pc + 1, tape: c.tape },
        IR::GETCHAR => Config { pc: c.pc + 1, tape: c.tape.store(incoming) },
        IR::JIZ(target) => Config {
            pc: if c.tape.current() == 0 {
                (target + 1) as nat
            } else {
                c.pc + 1
            },
            tape: c.tape,
        },
        IR::JNZ(target) => Config {
            pc: if c.tape.current() != 0 {
                (target + 1) as nat
            } else {
                c.pc + 1
            },
            tape: c.tape,
        },
    }
}

/// The node engine for a given program.
pub open spec fn ir_engine(nodes: Seq<IR>) -> Engine {
    Engine {
        action: |c: Config| ir_action(nodes, c),
        next: |c: Config, incoming: u8| ir_next(nodes, c, incoming),
    }
}

/// The engine that executes the intermediate representation.
#[derive(Debug)]
pub struct Interpreter {
    stack: Tape,
    pc: usize,
}

impl View for Interpreter {
    type V = Config;

    /// The engine's state: its program counter and its tape.
    closed spec fn view(&self) -> Config {
        Config { pc: self.pc as nat, tape: self.stack@ }
    }
}

impl Default for Interpreter {
    /// An engine at the start of a program, on a tape of one zero cell.
    fn default() -> (engine: Interpreter)
        ensures
            engine@ == Config::initial(),
    {
        Interpreter { stack: Tape::new(), pc: 0 }
    }
}

impl Interpreter {
    /// The index of the node to execute next.
    pub fn pc(&self) -> (pc: usize)
        ensures
            pc == self@.pc,
    {
        self.pc
    }

    /// The tape as it stands.
    pub fn tape(&self) -> (tape: &Tape)
        ensures
            tape@ == self@.tape,
    {
        &self.stack
    }

    /// What the node at hand asks of the outside world.
    pub fn action(&self, code: &BrainfuckCodeIR) -> (action: Action)
        ensures
            action == ir_action(code.nodes(), self@),
    {
        let instrs = code.instrs();
        if self.pc >= instrs.len() {
            Action::Halt
        } else {
            match instrs[self.pc] {
                IR::PUTCHAR => Action::Output(self.stack.get()),
                IR::GETCHAR => Action::Input,
                _ => Action::Continue,
            }
        }
    }

    /// Executes the node at hand and says what it asks of the caller. A node that reads is
    /// not executed: the caller reads a byte and hands it to [`Interpreter::feed`]. At the end
    /// of the program nothing changes.
    pub fn step(self, code: &BrainfuckCodeIR) -> (result: (Interpreter, Action))
        ensures
            result.1 == ir_action(code.nodes(), self@),
            result.0@ == match result.1 {
                Action::Halt | Action::Input => self@,
                _ => ir_next(code.nodes(), self@, 0),
            },
    {
        let instrs = code.instrs();
        let Interpreter { stack, pc } = self;
        if pc >= instrs.len() {
            return (Interpreter { stack, pc }, Action::Halt);
        }
        let ghost s = node_brackets(instrs@);
        match instrs[pc] {
            IR::SHR(x) => (Interpreter { stack: stack.move_right(x), pc: pc + 1 }, Action::Continue),
            IR::SHL(x) => (Interpreter { stack: stack.move_left(x), pc: pc + 1 }, Action::Continue),
            IR::ADD(x) => (Interpreter { stack: stack.increment(x), pc: pc + 1 }, Action::Continue),
            IR::SUB(x) => (Interpreter { stack: stack.decrement(x), pc: pc + 1 }, Action::Continue),
            IR::PUTCHAR => {
                let byte: u8 = stack.get();
                (Interpreter { stack, pc: pc + 1 }, Action::Output(byte))
            },
            IR::GETCHAR => (Interpreter { stack, pc }, Action::Input),
            IR::JIZ(target) => {
                assert(s.len() == instrs.len());
                let landing: usize = if stack.get() == 0 {
                    target + 1
                } else {
                    pc + 1
                };
                (Interpreter { stack, pc: landing }, Action::Continue)
            },
            IR::JNZ(target) => {
                assert(s.len() == instrs.len());
                let landing: usize = if stack.get() != 0 {
                    target + 1
                } else {
                    pc + 1
                };
                (Interpreter { stack, pc: landing }, Action::Continue)
            },
        }
    }

    /// Executes the reading node at hand with `byte` as the byte read. Where the node at hand
    /// does not read, nothing changes.
    pub fn feed(self, code: &BrainfuckCodeIR, byte: u8) -> (engine: Interpreter)
        ensures
            engine@ == if ir_action(code.nodes(), self@) == Action::Input {
                ir_next(code.nodes(), self@, byte)
            } else {
                self@
            },
    {
        let instrs = code.instrs();
        let Interpreter { stack, pc } = self;
        if pc < instrs.len() {
            match instrs[pc] {
                IR::GETCHAR => Interpreter { stack: stack.put(byte), pc: pc + 1 },
                _ => Interpreter { stack, pc },
            }
        } else {
            Interpreter { stack, pc }
        }
    }

    /// Runs the program against `input` for at most `limit` instructions, or until it ends
    /// or asks for a byte that `input` does not hold.
    pub fn run(self, code: &BrainfuckCodeIR, input: &Vec<u8>, limit: usize) -> (result: (
        Interpreter,
        Outcome,
    ))
        ensures
            ({
                let e = ir_engine(code.nodes());
                let end = run(e, input@, Run::starting(self@), limit as nat);
                &&& result.0@ == end.config
                &&& result.1.output@ == end.output
                &&& result.1.consumed == end.consumed
                &&& result.1.exit == exit_of(e, input@, end)
            }),
    {
        let ghost e = ir_engine(code.nodes());
        let ghost goal = run(e, input@, Run::starting(self@), limit as nat);
        let mut engine = self;
        let mut output: Vec<u8> = Vec::new();
        let mut consumed: usize = 0;
        let mut steps: usize = 0;
        let mut done: bool = false;
        while steps < limit && !done
            invariant
                steps <= limit,
                consumed <= input.len(),
                e == ir_engine(code.nodes()),
                goal == if done {
                    Run { config: engine@, consumed: consumed as nat, output: output@ }
                } else {
                    run(
                        e,
                        input@,
                        Run { config: engine@, consumed: consumed as nat, output: output@ },
                        (limit - steps) as nat,
                    )
                },
            decreases
                    limit - steps + if done {
                        0int
                    } else {
                        1int
                    },
        {
            let ghost here = Run { config: engine@, consumed: consumed as nat, output: output@ };
            let (next, action) = engine.step(code);
            engine = next;
            match action {
                Action::Halt => {
                    proof {
                        lemma_stuck_stays(e, input@, here, (limit - steps) as nat);
                    }
                    done = true;
                },
                Action::Input => {
                    if consumed < input.len() {
                        engine = engine.feed(code, input[consumed]);
                        consumed = consumed + 1;
                        steps = steps + 1;
                    } else {
                        proof {
                            lemma_stuck_stays(e, input@, here, (limit - steps) as nat);
                        }
                        done = true;
                    }
                },
                Action::Output(byte) => {
                    output.push(byte);
                    steps = steps + 1;
                },
                Action::Continue => {
                    steps = steps + 1;
                },
            }
        }
        let exit = match engine.action(code) {
            Action::Halt => Exit::Completed,
            Action::Input => if consumed < input.len() {
                Exit::StepLimit
            } else {
                Exit::IOError
            },
            _ => Exit::StepLimit,
        };
        (engine, Outcome { output, consumed, exit })
    }
}

} // verus!
