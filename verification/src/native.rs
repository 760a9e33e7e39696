//! What an abstract native routine computes, and that it computes what the node engine does.
//!
//! The routine is read here on the tape of the engines, which grows to the right without
//! bound and stops the pointer at its first cell. Machine code that keeps the tape in a
//! fixed row of memory does the same for as long as the pointer stays inside that row.

use crate::brainfuck_open_code::{token_brackets, OpenCode};
use crate::equivalence::lemma_tokens_follow_nodes;
use crate::interpreter::token_engine;
use crate::ir::{ir_of, well_formed_ir, IR};
use crate::ir_interpreter::{ir_action, ir_engine, ir_next};
use crate::jit::{
    branch_of, lemma_branch_lands, lemma_lowered_at, lower_node, lowered, places, Native,
};
use crate::layout::{lemma_ir_well_formed, lemma_nodes_balanced};
use crate::machine::{advance, exit_of, lemma_run_split, run, Action, Config, Engine, Run};
use crate::nesting::balanced;
use vstd::prelude::*;

verus! {

/// The position just past the instruction that places `label`.
pub open spec fn landing(ops: Seq<Native>, label: usize) -> nat {
    (choose|k: int| 0 <= k < ops.len() && places(ops[k], label)) as nat + 1
}

/// What the instruction at the program counter asks of the outside world.
pub open spec fn native_action(ops: Seq<Native>, c: Config) -> Action {
    if c.pc >= ops.len() {
        Action::Halt
    } else {
        match ops[c.pc as int] {
            Native::Output => Action::Output(c.tape.current()),
            Native::Input => Action::Input,
            Native::Leave => Action::Halt,
            _ => Action::Continue,
        }
    }
}

/// The state after the instruction at the program counter; `incoming` is the byte that the
/// host's input routine returned, where the instruction calls it.
pub open spec fn native_next(ops: Seq<Native>, c: Config, incoming: u8) -> Config {
    match ops[c.pc as int] {
        Native::Enter => Config { pc: c.pc + 1, tape: c.tape },
        Native::PointerAdd(n) => Config { pc: c.pc + 1, tape: c.tape.right(n as nat) },
        Native::PointerSub(n) => Config { pc: c.pc + 1, tape: c.tape.left(n as nat) },
        Native::CellAdd(n) => Config { pc: c.pc + 1, tape: c.tape.plus(n) },
        Native::CellSub(n) => Config { pc: c.pc + 1, tape: c.tape.minus(n) },
        Native::Output => Config { pc: c.pc + 1, tape: c.tape },
        Native::Input => Config { pc: c.pc + 1, tape: c.tape.store(incoming) },
        Native::LoopHead { entry, exit } => Config {
            pc: if c.tape.current() == 0 {
                landing(ops, exit)
            } else {
                c.pc + 1
            },
            tape: c.tape,
        },
        Native::LoopTail { entry, exit } => Config {
            pc: if c.tape.current() != 0 {
                landing(ops, entry)
            } else {
                c.pc + 1
            },
            tape: c.tape,
        },
        Native::Leave => c,
    }
}

/// A routine as an engine.
pub open spec fn native_engine(ops: Seq<Native>) -> Engine {
    Engine {
        action: |c: Config| native_action(ops, c),
        next: |c: Config, incoming: u8| native_next(ops, c, incoming),
    }
}

/// The state of the routine that stands for a state of the node engine: the routine is one
/// instruction ahead, for the binding of the pointer register.
pub open spec fn ahead(r: Run) -> Run {
    Run {
        config: Config { pc: r.config.pc + 1, tape: r.config.tape },
        consumed: r.consumed,
        output: r.output,
    }
}

/// The branch of a jump's instruction lands just past the instruction of the node that the
/// jump names.
proof fn lemma_landing(nodes: Seq<IR>, at: int)
    requires
        nodes.len() <= usize::MAX,
        well_formed_ir(nodes),
        0 <= at < nodes.len(),
        nodes[at] is JIZ || nodes[at] is JNZ,
    ensures
        branch_of(lower_node(nodes, at)) matches Some(label) && landing(lowered(nodes), label)
            == named(nodes[at]) + 2,
{
    let ops = lowered(nodes);
    let target = named(nodes[at]);
    lemma_lowered_at(nodes, at);
    lemma_branch_lands(nodes, at, target + 1);
    let label = branch_of(lower_node(nodes, at))->Some_0;
    assert forall|k: int| 0 <= k < ops.len() && places(ops[k], label) implies k == target + 1 by {
        lemma_branch_lands(nodes, at, k);
    }
}

/// The node that a jump names, for a jump; zero for any other node.
pub open spec fn named(node: IR) -> int {
    match node {
        IR::JIZ(target) => target as int,
        IR::JNZ(target) => target as int,
        _ => 0,
    }
}

/// One instruction does to the state of the routine what its node does to the state of the
/// node engine, given that a branch lands just past the instruction of the node named.
proof fn lemma_native_next(nodes: Seq<IR>, ops: Seq<Native>, c: Config, incoming: u8)
    requires
        c.pc < nodes.len(),
        c.pc + 1 < ops.len(),
        ops[c.pc as int + 1] == lower_node(nodes, c.pc as int),
        branch_of(ops[c.pc as int + 1]) matches Some(label) ==> landing(ops, label) == named(
            nodes[c.pc as int],
        ) + 2,
    ensures
        native_action(ops, Config { pc: c.pc + 1, tape: c.tape }) == ir_action(nodes, c),
        native_next(ops, Config { pc: c.pc + 1, tape: c.tape }, incoming) == (Config {
            pc: ir_next(nodes, c, incoming).pc + 1,
            tape: ir_next(nodes, c, incoming).tape,
        }),
{
}

/// One instruction of the routine does what the node it was lowered from does.
proof fn lemma_native_step(nodes: Seq<IR>, input: Seq<u8>, r: Run)
    requires
        nodes.len() <= usize::MAX,
        well_formed_ir(nodes),
    ensures
        exit_of(native_engine(lowered(nodes)), input, ahead(r)) == exit_of(
            ir_engine(nodes),
            input,
            r,
        ),
        advance(native_engine(lowered(nodes)), input, ahead(r)) == ahead(
            advance(ir_engine(nodes), input, r),
        ),
{
    let ops = lowered(nodes);
    let at = r.config.pc as int;
    if at < nodes.len() {
        lemma_lowered_at(nodes, at);
        if nodes[at] is JIZ || nodes[at] is JNZ {
            lemma_landing(nodes, at);
        }
        lemma_native_next(nodes, ops, r.config, 0);
        if r.consumed < input.len() {
            lemma_native_next(nodes, ops, r.config, input[r.consumed as int]);
        }
    } else if nodes.len() > 0 {
        lemma_lowered_at(nodes, 0);
    } else {
        assert(ops.len() == 2);
        assert(ops[1] == Native::Leave);
    }
}

/// The routine of a program computes what the node engine computes: after the binding of
/// the pointer register and `steps` further instructions it has left the tape, the input
/// and the output as the node engine has after `steps` instructions, it stands at the
/// instruction of the node that the node engine stands at, and the two runs stand in the
/// same way.
pub proof fn lemma_routine_follows_nodes(nodes: Seq<IR>, input: Seq<u8>, steps: nat)
    requires
        nodes.len() <= usize::MAX,
        well_formed_ir(nodes),
    ensures
        run(native_engine(lowered(nodes)), input, Run::starting(Config::initial()), steps + 1)
            == ahead(run(ir_engine(nodes), input, Run::starting(Config::initial()), steps)),
        exit_of(
            native_engine(lowered(nodes)),
            input,
            run(native_engine(lowered(nodes)), input, Run::starting(Config::initial()), steps + 1),
        ) == exit_of(
            ir_engine(nodes),
            input,
            run(ir_engine(nodes), input, Run::starting(Config::initial()), steps),
        ),
    decreases steps,
{
    reveal_with_fuel(run, 2);
    let ne = native_engine(lowered(nodes));
    let ie = ir_engine(nodes);
    let start = Run::starting(Config::initial());
    if steps == 0 {
        assert(lowered(nodes)[0] == Native::Enter);
        assert(run(ne, input, start, 1) == advance(ne, input, start));
    } else {
        let before = (steps - 1) as nat;
        lemma_routine_follows_nodes(nodes, input, before);
        let ri = run(ie, input, start, before);
        lemma_native_step(nodes, input, ri);
        lemma_run_split(ne, input, start, steps, 1);
        lemma_run_split(ie, input, start, before, 1);
        assert(run(ie, input, ri, 1) == advance(ie, input, ri));
        assert(run(ne, input, ahead(ri), 1) == advance(ne, input, ahead(ri)));
    }
    lemma_native_step(nodes, input, run(ie, input, start, steps));
}

/// All three ways of running a balanced program agree: whatever the node engine has done
/// after `steps` instructions, the routine lowered from the nodes has done after one
/// instruction more and the token engine after `count` instructions, with the same tape,
/// the same output, the same input position, and the same way of standing.
pub proof fn lemma_all_engines_agree(tokens: Seq<OpenCode>, input: Seq<u8>, steps: nat) -> (count:
    nat)
    requires
        tokens.len() <= usize::MAX,
        balanced(token_brackets(tokens)),
    ensures
        count >= steps,
        ({
            let te = token_engine(tokens);
            let ie = ir_engine(ir_of(tokens));
            let ne = native_engine(lowered(ir_of(tokens)));
            let rt = run(te, input, Run::starting(Config::initial()), count);
            let ri = run(ie, input, Run::starting(Config::initial()), steps);
            let rn = run(ne, input, Run::starting(Config::initial()), steps + 1);
            &&& rt.config.tape == ri.config.tape
            &&& rn.config.tape == ri.config.tape
            &&& rt.output == ri.output
            &&& rn.output == ri.output
            &&& rt.consumed == ri.consumed
            &&& rn.consumed == ri.consumed
            &&& exit_of(te, input, rt) == exit_of(ie, input, ri)
            &&& exit_of(ne, input, rn) == exit_of(ie, input, ri)
        }),
{
    lemma_ir_well_formed(tokens);
    lemma_nodes_balanced(tokens);
    lemma_routine_follows_nodes(ir_of(tokens), input, steps);
    lemma_tokens_follow_nodes(tokens, input, steps)
}

} // verus!
