use brainfuck::brainfuck_open_code::tokenize;
use brainfuck::ir_interpreter::Interpreter as NodeInterpreter;
use brainfuck::{
    Action, BrainfuckCode, BrainfuckCodeIR, Exit, Interpreter, OpenCode, Tape,
    UnbalancedLoopError, IR,
};

const HELLO: &str = ">++++++++[<+++++++++>-]<.>++++[<+++++++>-]<+.+++++++..+++.>>++++++[<+++++++>-]<++.------------.>++++++[<+++++++++>-]<+.<.+++.------.--------.>>>++++[<++++++++>-]<+.[-]++++++++++.";

fn run_tokens(source: &str, input: &[u8], limit: usize) -> (Vec<u8>, Vec<u8>, usize, Exit) {
    let code = BrainfuckCode::from(source.as_bytes().to_vec()).unwrap();
    let (engine, outcome) = Interpreter::new().run(&code, &input.to_vec(), limit);
    (outcome.output, engine.tape().cells().clone(), engine.tape().pointer(), outcome.exit)
}

fn run_nodes(source: &str, input: &[u8], limit: usize) -> (Vec<u8>, Vec<u8>, usize, Exit) {
    let tokens = tokenize(&source.as_bytes().to_vec());
    let code = BrainfuckCodeIR::from(tokens).unwrap();
    let (engine, outcome) = NodeInterpreter::default().run(&code, &input.to_vec(), limit);
    (outcome.output, engine.tape().cells().clone(), engine.tape().pointer(), outcome.exit)
}

#[test]
fn filter_drops_every_other_byte() {
    let tokens = tokenize(&b"a+ b-\n> <x.,[y]z".to_vec());
    assert_eq!(
        tokens,
        vec![
            OpenCode::ADD,
            OpenCode::SUB,
            OpenCode::SHR,
            OpenCode::SHL,
            OpenCode::PUTCHAR,
            OpenCode::GETCHAR,
            OpenCode::LB,
            OpenCode::RB,
        ]
    );
    assert!(tokenize(&b"hello world\n".to_vec()).is_empty());
    assert!(tokenize(&Vec::new()).is_empty());
}

#[test]
fn every_byte_is_an_instruction_or_nothing() {
    let mut found = 0;
    for byte in 0u8..=255 {
        match OpenCode::parse(byte) {
            Some(token) => {
                found += 1;
                assert_eq!(token.code(), byte);
                assert_eq!(OpenCode::from(byte), token);
            }
            None => assert!(!b"><+-.,[]".contains(&byte)),
        }
    }
    assert_eq!(found, 8);
    assert_eq!(OpenCode::from(b'>'), OpenCode::SHR);
    assert_eq!(OpenCode::from(b'<'), OpenCode::SHL);
    assert_eq!(OpenCode::from(b'+'), OpenCode::ADD);
    assert_eq!(OpenCode::from(b'-'), OpenCode::SUB);
    assert_eq!(OpenCode::from(b'.'), OpenCode::PUTCHAR);
    assert_eq!(OpenCode::from(b','), OpenCode::GETCHAR);
    assert_eq!(OpenCode::from(b'['), OpenCode::LB);
    assert_eq!(OpenCode::from(b']'), OpenCode::RB);
}

#[test]
fn jump_table_pairs_nested_loops() {
    let code = BrainfuckCode::from(b"[[]]".to_vec()).unwrap();
    assert_eq!(code.instrs().len(), 4);
    let table = code.jtable();
    assert_eq!(table.len(), 4);
    assert_eq!(table[&0], 3);
    assert_eq!(table[&3], 0);
    assert_eq!(table[&1], 2);
    assert_eq!(table[&2], 1);
    assert_eq!(code.target(0), Some(3));
    assert_eq!(code.target(2), Some(1));
    assert_eq!(code.target(4), None);
}

#[test]
fn jump_table_skips_plain_tokens() {
    let code = BrainfuckCode::from(b"+[-]>[.,]".to_vec()).unwrap();
    let table = code.jtable();
    assert_eq!(table.len(), 4);
    assert_eq!(table[&1], 3);
    assert_eq!(table[&3], 1);
    assert_eq!(table[&5], 8);
    assert_eq!(table[&8], 5);
    assert_eq!(code.target(0), None);
    assert_eq!(code.into_instrs().len(), 9);
}

#[test]
fn nested_loops_yield_two_jump_pairs() {
    let ir = BrainfuckCodeIR::from(tokenize(&b"[[]]".to_vec())).unwrap();
    assert_eq!(ir.instrs(), &vec![IR::JIZ(3), IR::JIZ(2), IR::JNZ(1), IR::JNZ(0)]);
}

#[test]
fn unmatched_closer_is_rejected() {
    assert_eq!(
        BrainfuckCodeIR::from(tokenize(&b"[]]".to_vec())).err(),
        Some(UnbalancedLoopError::UnmatchedCloser)
    );
    assert_eq!(
        BrainfuckCode::from(b"[]]".to_vec()).err(),
        Some(UnbalancedLoopError::UnmatchedCloser)
    );
    assert_eq!(
        BrainfuckCodeIR::from(vec![OpenCode::RB, OpenCode::LB]).err(),
        Some(UnbalancedLoopError::UnmatchedCloser)
    );
}

#[test]
fn unterminated_opener_is_rejected() {
    assert_eq!(
        BrainfuckCodeIR::from(tokenize(&b"[[".to_vec())).err(),
        Some(UnbalancedLoopError::UnterminatedOpener)
    );
    assert_eq!(
        BrainfuckCode::from(b"[[".to_vec()).err(),
        Some(UnbalancedLoopError::UnterminatedOpener)
    );
    assert_eq!(
        BrainfuckCodeIR::from(tokenize(&b"+[>[-]".to_vec())).err(),
        Some(UnbalancedLoopError::UnterminatedOpener)
    );
}

#[test]
fn error_messages_name_the_bracket() {
    assert_eq!(
        UnbalancedLoopError::UnmatchedCloser.message(),
        "unbalanced loop: `]` without a matching `[`"
    );
    assert_eq!(
        UnbalancedLoopError::UnterminatedOpener.message(),
        "unbalanced loop: `[` without a matching `]`"
    );
}

#[test]
fn commentary_is_no_error() {
    let ir = BrainfuckCodeIR::from(tokenize(&b"add two: ++ done".to_vec())).unwrap();
    assert_eq!(ir.instrs(), &vec![IR::ADD(2)]);
    assert!(BrainfuckCodeIR::from(Vec::new()).unwrap().instrs().is_empty());
    assert!(BrainfuckCode::from(b"no code here".to_vec()).unwrap().instrs().is_empty());
}

#[test]
fn runs_of_equal_tokens_are_fused() {
    let ir = BrainfuckCodeIR::from(tokenize(&b"+++->>><<.,,[-]++".to_vec())).unwrap();
    assert_eq!(
        ir.into_instrs(),
        vec![
            IR::ADD(3),
            IR::SUB(1),
            IR::SHR(3),
            IR::SHL(2),
            IR::PUTCHAR,
            IR::GETCHAR,
            IR::GETCHAR,
            IR::JIZ(9),
            IR::SUB(1),
            IR::JNZ(7),
            IR::ADD(2),
        ]
    );
}

#[test]
fn arithmetic_counts_wrap_and_movement_counts_do_not() {
    let ir = BrainfuckCodeIR::from(vec![OpenCode::ADD; 256]).unwrap();
    assert_eq!(ir.instrs(), &vec![IR::ADD(0)]);
    let ir = BrainfuckCodeIR::from(vec![OpenCode::SUB; 258]).unwrap();
    assert_eq!(ir.instrs(), &vec![IR::SUB(2)]);
    let ir = BrainfuckCodeIR::from(vec![OpenCode::SHR; 300]).unwrap();
    assert_eq!(ir.instrs(), &vec![IR::SHR(300)]);
    let ir = BrainfuckCodeIR::from(vec![OpenCode::SHL; 70000]).unwrap();
    assert_eq!(ir.instrs(), &vec![IR::SHL(70000)]);
}

#[test]
fn fused_and_single_step_paths_agree_on_a_cell_at_250() {
    let ir = BrainfuckCodeIR::from(tokenize(&b",+++-.".to_vec())).unwrap();
    assert_eq!(ir.instrs(), &vec![IR::GETCHAR, IR::ADD(3), IR::SUB(1), IR::PUTCHAR]);
    let (single, single_tape, _, _) = run_tokens(",+++-.", &[250], 100);
    let (fused, fused_tape, _, _) = run_nodes(",+++-.", &[250], 100);
    assert_eq!(single, vec![252]);
    assert_eq!(fused, vec![252]);
    assert_eq!(single_tape, vec![252]);
    assert_eq!(fused_tape, vec![252]);

    let tape = Tape::new().put(250).increment(1).increment(1).increment(1).decrement(1);
    assert_eq!(tape.get(), 252);
    let tape = Tape::new().put(250).increment(3).decrement(1);
    assert_eq!(tape.get(), 252);
}

#[test]
fn fused_subtraction_applies_the_whole_count() {
    let (output, tape, _, exit) = run_nodes("-----.", &[], 100);
    assert_eq!(output, vec![251]);
    assert_eq!(tape, vec![251]);
    assert_eq!(exit, Exit::Completed);
    assert_eq!(run_tokens("-----.", &[], 100).0, vec![251]);
}

#[test]
fn increment_wraps_from_255_to_0() {
    assert_eq!(Tape::new().put(255).increment(1).get(), 0);
    assert_eq!(Tape::new().put(200).increment(100).get(), 44);
    assert_eq!(run_tokens(",+.", &[255], 10).0, vec![0]);
    assert_eq!(run_nodes(",+.", &[255], 10).0, vec![0]);
}

#[test]
fn decrement_wraps_from_0_to_255() {
    assert_eq!(Tape::new().decrement(1).get(), 255);
    assert_eq!(Tape::new().put(3).decrement(5).get(), 254);
    assert_eq!(run_tokens("-.", &[], 10).0, vec![255]);
    assert_eq!(run_nodes("-.", &[], 10).0, vec![255]);
}

#[test]
fn move_left_at_the_first_cell_stays_there() {
    let tape = Tape::new().move_left(1);
    assert_eq!(tape.pointer(), 0);
    assert_eq!(tape.cells(), &vec![0]);
    assert_eq!(Tape::new().move_right(2).move_left(5).pointer(), 0);
    assert_eq!(Tape::new().move_right(5).move_left(2).pointer(), 3);
    let (_, tape, pointer, exit) = run_tokens("<<<+", &[], 10);
    assert_eq!((tape, pointer, exit), (vec![1], 0, Exit::Completed));
    let (_, tape, pointer, exit) = run_nodes("<<<+", &[], 10);
    assert_eq!((tape, pointer, exit), (vec![1], 0, Exit::Completed));
}

#[test]
fn move_right_grows_the_tape_with_zero_cells() {
    let fresh = Tape::new();
    assert_eq!(fresh.cells(), &vec![0]);
    assert_eq!(fresh.pointer(), 0);
    let tape = fresh.put(7).move_right(1);
    assert_eq!(tape.cells(), &vec![7, 0]);
    assert_eq!(tape.pointer(), 1);
    assert_eq!(tape.get(), 0);
    let tape = tape.move_right(3);
    assert_eq!(tape.cells(), &vec![7, 0, 0, 0, 0]);
    assert_eq!(tape.pointer(), 4);
    let tape = tape.move_left(4).move_right(2);
    assert_eq!(tape.cells(), &vec![7, 0, 0, 0, 0]);
    assert_eq!(tape.pointer(), 2);
    let (_, tape, pointer, _) = run_tokens(">", &[], 10);
    assert_eq!((tape, pointer), (vec![0, 0], 1));
    let (_, tape, pointer, _) = run_nodes(">", &[], 10);
    assert_eq!((tape, pointer), (vec![0, 0], 1));
}

#[test]
fn hello_world_under_both_engines() {
    let (output, tape, pointer, exit) = run_tokens(HELLO, &[], 1_000_000);
    assert_eq!(output, b"Hello, World!\n".to_vec());
    assert_eq!(exit, Exit::Completed);
    let (fused_output, fused_tape, fused_pointer, fused_exit) = run_nodes(HELLO, &[], 1_000_000);
    assert_eq!(fused_output, b"Hello, World!\n".to_vec());
    assert_eq!(fused_exit, Exit::Completed);
    assert_eq!(fused_tape, tape);
    assert_eq!(fused_pointer, pointer);
}

#[test]
fn echo_reproduces_the_input_prefix() {
    let (output, _, _, exit) = run_tokens(",.,.,.", b"abcdef", 100);
    assert_eq!(output, b"abc".to_vec());
    assert_eq!(exit, Exit::Completed);
    let (output, _, _, exit) = run_nodes(",.,.,.", b"abcdef", 100);
    assert_eq!(output, b"abc".to_vec());
    assert_eq!(exit, Exit::Completed);
}

#[test]
fn reading_past_the_end_of_input_is_an_io_error() {
    let (output, tape, _, exit) = run_tokens(",.,.,.", b"ab", 100);
    assert_eq!(output, b"ab".to_vec());
    assert_eq!(exit, Exit::IOError);
    assert_eq!(tape, vec![b'b']);
    let (output, tape, _, exit) = run_nodes(",.,.,.", b"ab", 100);
    assert_eq!(output, b"ab".to_vec());
    assert_eq!(exit, Exit::IOError);
    assert_eq!(tape, vec![b'b']);

    let code = BrainfuckCode::from(b",".to_vec()).unwrap();
    let (_, outcome) = Interpreter::new().run(&code, &Vec::new(), 100);
    assert_eq!(outcome.exit, Exit::IOError);
    assert_eq!(outcome.consumed, 0);
    assert!(outcome.output.is_empty());
}

#[test]
fn a_run_stops_at_the_step_limit_and_resumes() {
    let code = BrainfuckCode::from(b"+[]".to_vec()).unwrap();
    let (engine, outcome) = Interpreter::new().run(&code, &Vec::new(), 50);
    assert_eq!(outcome.exit, Exit::StepLimit);
    let (_, outcome) = engine.run(&code, &Vec::new(), 50);
    assert_eq!(outcome.exit, Exit::StepLimit);

    let code = BrainfuckCode::from(b"+++.".to_vec()).unwrap();
    let (engine, outcome) = Interpreter::new().run(&code, &Vec::new(), 2);
    assert_eq!(outcome.exit, Exit::StepLimit);
    assert!(outcome.output.is_empty());
    assert_eq!(engine.pc(), 2);
    let (engine, outcome) = engine.run(&code, &Vec::new(), 2);
    assert_eq!(outcome.exit, Exit::Completed);
    assert_eq!(outcome.output, vec![3]);
    assert_eq!(engine.pc(), 4);

    let ir = BrainfuckCodeIR::from(tokenize(&b"+++.".to_vec())).unwrap();
    let (engine, outcome) = NodeInterpreter::default().run(&ir, &Vec::new(), 1);
    assert_eq!(outcome.exit, Exit::StepLimit);
    assert_eq!(engine.pc(), 1);
    assert_eq!(engine.tape().get(), 3);
    let (_, outcome) = engine.run(&ir, &Vec::new(), 0);
    assert_eq!(outcome.exit, Exit::StepLimit);
}

#[test]
fn stepping_leaves_input_and_output_to_the_caller() {
    let code = BrainfuckCode::from(b",+.".to_vec()).unwrap();
    let engine = Interpreter::new();
    assert_eq!(engine.action(&code), Action::Input);
    let (engine, action) = engine.step(&code);
    assert_eq!(action, Action::Input);
    assert_eq!(engine.pc(), 0);
    let engine = engine.feed(&code, 41);
    assert_eq!(engine.pc(), 1);
    assert_eq!(engine.tape().get(), 41);
    let engine = engine.feed(&code, 99);
    assert_eq!(engine.pc(), 1);
    assert_eq!(engine.tape().get(), 41);
    let (engine, action) = engine.step(&code);
    assert_eq!(action, Action::Continue);
    let (engine, action) = engine.step(&code);
    assert_eq!(action, Action::Output(42));
    let (engine, action) = engine.step(&code);
    assert_eq!(action, Action::Halt);
    assert_eq!(engine.pc(), 3);
}

#[test]
fn node_stepping_follows_resolved_jumps() {
    let ir = BrainfuckCodeIR::from(tokenize(&b"[+]++[-]".to_vec())).unwrap();
    assert_eq!(
        ir.instrs(),
        &vec![IR::JIZ(2), IR::ADD(1), IR::JNZ(0), IR::ADD(2), IR::JIZ(6), IR::SUB(1), IR::JNZ(4)]
    );
    let engine = NodeInterpreter::default();
    let (engine, action) = engine.step(&ir);
    assert_eq!(action, Action::Continue);
    assert_eq!(engine.pc(), 3);
    let (engine, _) = engine.step(&ir);
    assert_eq!(engine.tape().get(), 2);
    let (engine, _) = engine.step(&ir);
    assert_eq!(engine.pc(), 5);
    let (engine, _) = engine.step(&ir);
    let (engine, _) = engine.step(&ir);
    assert_eq!(engine.pc(), 5);
    let (engine, _) = engine.step(&ir);
    let (engine, _) = engine.step(&ir);
    assert_eq!(engine.pc(), 7);
    assert_eq!(engine.tape().get(), 0);
    assert_eq!(engine.action(&ir), Action::Halt);
    let engine = engine.feed(&ir, 5);
    assert_eq!(engine.tape().get(), 0);
}

#[test]
fn engines_agree_on_programs_with_loops_and_input() {
    let programs = [
        ",[.,]",
        ",>,<[->+<]>.",
        "++[>+++[>++<-]<-]>>.",
        ",[->++<]>.<<<.",
        "+[-]>>>+<<<<<<.>.",
        ">>>>++++[<+>-]<.[-]<<<<<+.",
    ];
    for program in programs {
        let single = run_tokens(program, &[3, 4, 0], 100_000);
        let fused = run_nodes(program, &[3, 4, 0], 100_000);
        assert_eq!(single, fused);
        assert_ne!(single.3, Exit::StepLimit);
    }
    assert_eq!(run_tokens(",>,<[->+<]>.", &[3, 4], 1000).0, vec![7]);
    assert_eq!(run_nodes("++[>+++[>++<-]<-]>>.", &[], 1000).0, vec![12]);
}

/// A small deterministic source of numbers for building programs.
struct Numbers(u64);

impl Numbers {
    fn next(&mut self, below: u64) -> u64 {
        self.0 = self.0.wrapping_mul(6364136223846793005).wrapping_add(1442695040888963407);
        (self.0 >> 33) % below
    }
}

fn build_program(numbers: &mut Numbers, length: usize) -> String {
    let mut program = String::new();
    let mut open = 0;
    while program.len() < length {
        match numbers.next(12) {
            0 | 1 => program.push('+'),
            2 | 3 => program.push('-'),
            4 | 5 => program.push('>'),
            6 => program.push('<'),
            7 => program.push('.'),
            8 => program.push(','),
            9 if open < 3 => {
                program.push_str("[-");
                open += 1;
            }
            10 if open > 0 => {
                program.push(']');
                open -= 1;
            }
            _ => program.push('+'),
        }
    }
    for _ in 0..open {
        program.push(']');
    }
    program
}

#[test]
fn engines_agree_on_many_built_programs() {
    let mut numbers = Numbers(2024);
    let input: Vec<u8> = (0..64).map(|n| (n * 37 % 251) as u8).collect();
    let mut ended = 0;
    for round in 0..300 {
        let program = build_program(&mut numbers, 10 + round % 50);
        let single = run_tokens(&program, &input, 20_000);
        if single.3 != Exit::StepLimit {
            ended += 1;
            assert_eq!(single, run_nodes(&program, &input, 20_000), "{}", program);
        }
    }
    assert!(ended > 100);
}

#[test]
fn fused_nodes_have_no_mergeable_neighbours() {
    let mut numbers = Numbers(7);
    for round in 0..100 {
        let program = build_program(&mut numbers, 20 + round);
        let ir = BrainfuckCodeIR::from(tokenize(&program.as_bytes().to_vec())).unwrap();
        let nodes = ir.instrs();
        for pair in nodes.windows(2) {
            let same = matches!(
                (pair[0], pair[1]),
                (IR::SHR(_), IR::SHR(_))
                    | (IR::SHL(_), IR::SHL(_))
                    | (IR::ADD(_), IR::ADD(_))
                    | (IR::SUB(_), IR::SUB(_))
            );
            assert!(!same, "{}", program);
        }
        for (index, node) in nodes.iter().enumerate() {
            match *node {
                IR::JIZ(target) => assert_eq!(nodes[target], IR::JNZ(index)),
                IR::JNZ(target) => assert_eq!(nodes[target], IR::JIZ(index)),
                _ => {}
            }
        }
    }
}
