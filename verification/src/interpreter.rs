//! The engine that executes tokens one by one, looking loop jumps up in the jump table.

use crate::brainfuck_open_code::{token_brackets, BrainfuckCode, OpenCode};
use crate::machine::{
    exit_of, lemma_stuck_stays, run, Action, Config, Engine, Exit, Outcome, Run,
};
use crate::nesting::{lemma_closer_has_opener, lemma_opener_has_closer, partner, Bracket};
use crate::tape::Tape;
use vstd::prelude::*;

verus! {

/// What the token at the program counter asks of the outside world.
pub open spec fn token_action(tokens: Seq<OpenCode>, c: Config) -> Action {
    if c.pc >= tokens.len() {
        Action::Halt
    } else {
        match tokens[c.pc as int] {
            OpenCode::PUTCHAR => Action::Output(c.tape.current()),
            OpenCode::GETCHAR => Action::Input,
            _ => Action::Continue,
        }
    }
}

/// The state after the token at the program counter; `incoming` is the byte read, where the
/// token reads one.
pub open spec fn token_next(tokens: Seq<OpenCode>, c: Config, incoming: u8) -> Config {
    let past_partner = (partner(token_brackets(tokens), c.pc as int) + 1) as nat;
    match tokens[c.pc as int] {
        OpenCode::SHR => Config { pc: c.pc + 1, tape: c.tape.right(1) },
        OpenCode::SHL => Config { pc: c.pc + 1, tape: c.tape.left(1) },
        OpenCode::ADD => Config { pc: c.pc + 1, tape: c.tape.plus(1) },
        OpenCode::SUB => Config { pc: c.pc + 1, tape: c.tape.minus(1) },
        OpenCode::PUTCHAR => Config { pc: c.pc + 1, tape: c.tape },
        OpenCode::GETCHAR => Config { pc: c.pc + 1, tape: c.tape.store(incoming) },
        OpenCode::LB => Config {
            pc: if c.tape.current() == 0 {
                past_partner
            } else {
                c.pc + 1
            },
            tape: c.tape,
        },
        OpenCode::RB => Config {
            pc: if c.tape.current() != 0 {
                past_partner
            } else {
                c.pc + 1
            },
            tape: c.tape,
        },
    }
}

/// The token engine for a given program.
pub open spec fn token_engine(tokens: Seq<OpenCode>) -> Engine {
    Engine {
        action: |c: Config| token_action(tokens, c),
        next: |c: Config, incoming: u8| token_next(tokens, c, incoming),
    }
}

/// The engine that executes tokens directly.
#[derive(Debug)]
pub struct Interpreter {
    stack: Tape,
    pc: usize,
}

impl View for Interpreter {
    type V = Config;

    /// The engine's state: its program counter and its tape.
    closed spec fn view(&self) -> Config {
        Config { pc: self.pc as nat, tape: self.stack@ }
    }
}

/// The program counter after a jump from the bracket at `pc` past the other end of its loop.
fn past_partner(code: &BrainfuckCode, pc: usize) -> (landing: usize)
    requires
        pc < code.tokens().len(),
        code.tokens()[pc as int].bracket() != Bracket::Plain,
    ensures
        landing == partner(token_brackets(code.tokens()), pc as int) + 1,
{
    let target = code.target(pc);
    proof {
        let s = token_brackets(code.tokens());
        assert(s[pc as int] == code.tokens()[pc as int].bracket());
        if s[pc as int] == Bracket::Open {
            lemma_opener_has_closer(s, pc as int);
        } else {
            lemma_closer_has_opener(s, pc as int);
        }
    }
    match target {
        Some(t) => t + 1,
        None => vstd::pervasive::unreached(),
    }
}

impl Interpreter {
    /// An engine at the start of a program, on a tape of one zero cell.
    pub fn new() -> (engine: Interpreter)
        ensures
            engine@ == Config::initial(),
    {
        Interpreter { stack: Tape::new(), pc: 0 }
    }

    /// The index of the token to execute next.
    pub fn pc(&self) -> (pc: usize)
        ensures
            pc == self@.pc,
    {
        self.pc
    }

    /// The tape as it stands.
    pub fn tape(&self) -> (tape: &Tape)
        ensures
            tape@ == self@.tape,
    {
        &self.stack
    }

    /// What the token at hand asks of the outside world.
    pub fn action(&self, code: &BrainfuckCode) -> (action: Action)
        ensures
            action == token_action(code.tokens(), self@),
    {
        let instrs = code.instrs();
        if self.pc >= instrs.len() {
            Action::Halt
        } else {
            match instrs[self.pc] {
                OpenCode::PUTCHAR => Action::Output(self.stack.get()),
                OpenCode::GETCHAR => Action::Input,
                _ => Action::Continue,
            }
        }
    }

    /// Executes the token at hand and says what it asks of the caller. A token that reads is
    /// not executed: the caller reads a byte and hands it to [`Interpreter::feed`]. At the end
    /// of the program nothing changes.
    pub fn step(self, code: &BrainfuckCode) -> (result: (Interpreter, Action))
        ensures
            result.1 == token_action(code.tokens(), self@),
            result.0@ == match result.1 {
                Action::Halt | Action::Input => self@,
                _ => token_next(code.tokens(), self@, 0),
            },
    {
        let instrs = code.instrs();
        let Interpreter { stack, pc } = self;
        if pc >= instrs.len() {
            return (Interpreter { stack, pc }, Action::Halt);
        }
        match instrs[pc] {
            OpenCode::SHR => (Interpreter { stack: stack.move_right(1), pc: pc + 1 }, Action::Continue),
            OpenCode::SHL => (Interpreter { stack: stack.move_left(1), pc: pc + 1 }, Action::Continue),
            OpenCode::ADD => (Interpreter { stack: stack.increment(1), pc: pc + 1 }, Action::Continue),
            OpenCode::SUB => (Interpreter { stack: stack.decrement(1), pc: pc + 1 }, Action::Continue),
            OpenCode::PUTCHAR => {
                let byte: u8 = stack.get();
                (Interpreter { stack, pc: pc + 1 }, Action::Output(byte))
            },
            OpenCode::GETCHAR => (Interpreter { stack, pc }, Action::Input),
            OpenCode::LB => {
                let landing: usize = if stack.get() == 0 {
                    past_partner(code, pc)
                } else {
                    pc + 1
                };
                (Interpreter { stack, pc: landing }, Action::Continue)
            },
            OpenCode::RB => {
                let landing: usize = if stack.get() != 0 {
                    past_partner(code, pc)
                } else {
                    pc + 1
                };
                (Interpreter { stack, pc: landing }, Action::Continue)
            },
        }
    }

    /// Executes the reading token at hand with `byte` as the byte read. Where the token at
    /// hand does not read, nothing changes.
    pub fn feed(self, code: &BrainfuckCode, byte: u8) -> (engine: Interpreter)
        ensures
            engine@ == if token_action(code.tokens(), self@) == Action::Input {
                token_next(code.tokens(), self@, byte)
            } else {
                self@
            },
    {
        let instrs = code.instrs();
        let Interpreter { stack, pc } = self;
        if pc < instrs.len() {
            match instrs[pc] {
                OpenCode::GETCHAR => Interpreter { stack: stack.put(byte), pc: pc + 1 },
                _ => Interpreter { stack, pc },
            }
        } else {
            Interpreter { stack, pc }
        }
    }

    /// Runs the program against `input` for at most `limit` instructions, or until it ends
    /// or asks for a byte that `input` does not hold.
    pub fn run(self, code: &BrainfuckCode, input: &Vec<u8>, limit: usize) -> (result: (
        Interpreter,
        Outcome,
    ))
        ensures
            ({
                let e = token_engine(code.tokens());
                let end = run(e, input@, Run::starting(self@), limit as nat);
                &&& result.0@ == end.config
                &&& result.1.output@ == end.output
                &&& result.1.consumed == end.consumed
                &&& result.1.exit == exit_of(e, input@, end)
            }),
    {
        let ghost e = token_engine(code.tokens());
        let ghost goal = run(e, input@, Run::starting(self@), limit as nat);
        let mut engine = self;
        let mut output: Vec<u8> = Vec::new();
        let mut consumed: usize = 0;
        let mut steps: usize = 0;
        let mut done: bool = false;
        while steps < limit && !done
            invariant
                steps <= limit,
                consumed <= input.len(),
                e == token_engine(code.tokens()),
                goal == if done {
                    Run { config: engine@, consumed: consumed as nat, output: output@ }
                } else {
                    run(
                        e,
                        input@,
                        Run { config: engine@, consumed: consumed as nat, output: output@ },
                        (limit - steps) as nat,
                    )
                },
            decreases
                    limit - steps + if done {
                        0int
                    } else {
                        1int
                    },
        {
            let ghost here = Run { config: engine@, consumed: consumed as nat, output: output@ };
            let (next, action) = engine.step(code);
            engine = next;
            match action {
                Action::Halt => {
                    proof {
                        lemma_stuck_stays(e, input@, here, (limit - steps) as nat);
                    }
                    done = true;
                },
                Action::Input => {
                    if consumed < input.len() {
                        engine = engine.feed(code, input[consumed]);
                        consumed = consumed + 1;
                        steps = steps + 1;
                    } else {
                        proof {
                            lemma_stuck_stays(e, input@, here, (limit - steps) as nat);
                        }
                        done = true;
                    }
                },
                Action::Output(byte) => {
                    output.push(byte);
                    steps = steps + 1;
                },
                Action::Continue => {
                    steps = steps + 1;
                },
            }
        }
        let exit = match engine.action(code) {
            Action::Halt => Exit::Completed,
            Action::Input => if consumed < input.len() {
                Exit::StepLimit
            } else {
                Exit::IOError
            },
            _ => Exit::StepLimit,
        };
        (engine, Outcome { output, consumed, exit })
    }
}

} // verus!
