use brainfuck::brainfuck_open_code::tokenize;
use brainfuck::jit::{lower, Native, Routine};
use brainfuck::{BrainfuckCode, BrainfuckCodeIR};

fn lowered(source: &str) -> Routine {
    lower(&BrainfuckCodeIR::from(tokenize(&source.as_bytes().to_vec())).unwrap())
}

#[test]
fn an_empty_program_lowers_to_entry_and_return() {
    let routine = lowered("");
    assert_eq!(routine.ops, vec![Native::Enter, Native::Leave]);
    assert_eq!(routine.labels, 0);
}

#[test]
fn every_node_lowers_to_one_instruction() {
    let routine = lowered(">>><<++++-.,");
    assert_eq!(
        routine.ops,
        vec![
            Native::Enter,
            Native::PointerAdd(3),
            Native::PointerSub(2),
            Native::CellAdd(4),
            Native::CellSub(1),
            Native::Output,
            Native::Input,
            Native::Leave,
        ]
    );
    assert_eq!(routine.labels, 0);
}

#[test]
fn a_loop_takes_two_fresh_labels() {
    let routine = lowered("+[-]");
    assert_eq!(
        routine,
        Routine {
            ops: vec![
                Native::Enter,
                Native::CellAdd(1),
                Native::LoopHead { entry: 0, exit: 1 },
                Native::CellSub(1),
                Native::LoopTail { entry: 0, exit: 1 },
                Native::Leave,
            ],
            labels: 2,
        }
    );
}

#[test]
fn nested_and_consecutive_loops_keep_their_own_labels() {
    let routine = lowered("[[]][][[][]]");
    assert_eq!(
        routine.ops,
        vec![
            Native::Enter,
            Native::LoopHead { entry: 0, exit: 1 },
            Native::LoopHead { entry: 2, exit: 3 },
            Native::LoopTail { entry: 2, exit: 3 },
            Native::LoopTail { entry: 0, exit: 1 },
            Native::LoopHead { entry: 4, exit: 5 },
            Native::LoopTail { entry: 4, exit: 5 },
            Native::LoopHead { entry: 6, exit: 7 },
            Native::LoopHead { entry: 8, exit: 9 },
            Native::LoopTail { entry: 8, exit: 9 },
            Native::LoopHead { entry: 10, exit: 11 },
            Native::LoopTail { entry: 10, exit: 11 },
            Native::LoopTail { entry: 6, exit: 7 },
            Native::Leave,
        ]
    );
    assert_eq!(routine.labels, 12);
}

#[test]
fn every_label_is_placed_once_and_branched_to_once() {
    let routine = lowered("+[>[-]+[<]>[[-]>]<<-]>[.[-]],[.,]");
    let mut placed = vec![0usize; routine.labels];
    let mut targeted = vec![0usize; routine.labels];
    let mut open: Vec<(usize, usize)> = Vec::new();
    for op in &routine.ops {
        match *op {
            Native::LoopHead { entry, exit } => {
                assert_eq!(exit, entry + 1);
                placed[entry] += 1;
                targeted[exit] += 1;
                open.push((entry, exit));
            }
            Native::LoopTail { entry, exit } => {
                assert_eq!(open.pop(), Some((entry, exit)));
                placed[exit] += 1;
                targeted[entry] += 1;
            }
            _ => {}
        }
    }
    assert!(open.is_empty());
    assert!(placed.iter().all(|&count| count == 1));
    assert!(targeted.iter().all(|&count| count == 1));
    assert_eq!(routine.ops.first(), Some(&Native::Enter));
    assert_eq!(routine.ops.last(), Some(&Native::Leave));
}

#[test]
fn the_tail_of_a_loop_carries_the_labels_of_the_head_its_jump_names() {
    let code = BrainfuckCodeIR::from(tokenize(&b"+[>+[-]<[->+<]>]".to_vec())).unwrap();
    let routine = lower(&code);
    let nodes = code.instrs();
    assert_eq!(routine.ops.len(), nodes.len() + 2);
    for (index, node) in nodes.iter().enumerate() {
        if let brainfuck::IR::JNZ(head) = *node {
            let tail = routine.ops[index + 1];
            let head = routine.ops[head + 1];
            match (head, tail) {
                (Native::LoopHead { entry, exit }, Native::LoopTail { entry: back, exit: out }) => {
                    assert_eq!((entry, exit), (back, out));
                }
                other => panic!("not a loop: {:?}", other),
            }
        }
    }
}

#[test]
fn tokens_of_a_token_program_build_the_same_nodes() {
    let source = b"++[>+<-]>.".to_vec();
    let code = BrainfuckCode::from(source.clone()).unwrap();
    assert_eq!(code.instrs(), &tokenize(&source));
    let through_code = BrainfuckCodeIR::from(code.into_instrs()).unwrap();
    let direct = BrainfuckCodeIR::from(tokenize(&source)).unwrap();
    assert_eq!(through_code.instrs(), direct.instrs());
    assert_eq!(lower(&through_code), lower(&direct));
}
