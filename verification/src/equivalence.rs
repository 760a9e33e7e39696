//! The two engines are one: whatever the node engine does to the tape, the input and the
//! output in some number of instructions, the token engine does in no fewer, and the two
//! end in the same way.

use crate::brainfuck_open_code::{token_brackets, OpenCode};
use crate::interpreter::{token_action, token_engine, token_next};
use crate::ir::{fuse, ir_of, node_brackets};
use crate::ir_interpreter::{ir_action, ir_engine, ir_next};
use crate::layout::{
    joins, laid_out, lemma_layout, lemma_nodes_before_grows, lemma_pair_corresponds, lemma_run,
    node_for, node_of, nodes_before, run_end, streak,
};
use crate::machine::{
    advance, exit_of, lemma_result_unique, lemma_run_split, lemma_stuck_stays, run, stuck, Action,
    Config, Engine, Exit, Run,
};
use crate::nesting::{
    balanced, lemma_closer_has_opener, lemma_opener_has_closer, lemma_partner, partner,
};
use crate::tape::{
    lemma_left_left, lemma_minus_minus, lemma_neutral, lemma_plus_plus, lemma_right_right,
    TapeState,
};
use vstd::prelude::*;

verus! {

/// The tape after a run of `count` tokens equal to `token`.
pub open spec fn stride(token: OpenCode, tape: TapeState, count: nat) -> TapeState {
    match token {
        OpenCode::SHR => tape.right(count),
        OpenCode::SHL => tape.left(count),
        OpenCode::ADD => tape.plus((count % 256) as u8),
        OpenCode::SUB => tape.minus((count % 256) as u8),
        _ => tape,
    }
}

/// A token run and a node run stand at the same point of the same program: the token
/// engine is at the first token of the node that the node engine is at, and tape, input
/// position and output are the same.
pub open spec fn aligned(tokens: Seq<OpenCode>, rt: Run, ri: Run) -> bool {
    &&& rt.config.pc <= tokens.len()
    &&& !joins(tokens, rt.config.pc as int)
    &&& ri.config.pc == nodes_before(tokens, rt.config.pc as int)
    &&& rt.config.tape == ri.config.tape
    &&& rt.config.tape.wf()
    &&& rt.consumed == ri.consumed
    &&& rt.output == ri.output
}

/// A run of nothing leaves a tape as it is, whatever the token.
proof fn lemma_stride_none(token: OpenCode, tape: TapeState)
    requires
        tape.wf(),
    ensures
        stride(token, tape, 0) == tape,
{
    lemma_neutral(tape);
}

/// The token engine on a run of `count` equal movement or arithmetic tokens.
proof fn lemma_token_streak(tokens: Seq<OpenCode>, input: Seq<u8>, r: Run, count: nat)
    requires
        r.config.tape.wf(),
        r.config.pc + count <= tokens.len(),
        count > 0 ==> tokens[r.config.pc as int].fusable(),
        forall|m: int|
            r.config.pc <= m < r.config.pc + count ==> #[trigger] tokens[m]
                == tokens[r.config.pc as int],
    ensures
        run(token_engine(tokens), input, r, count) == (Run {
            config: Config {
                pc: r.config.pc + count,
                tape: stride(tokens[r.config.pc as int], r.config.tape, count),
            },
            consumed: r.consumed,
            output: r.output,
        }),
        stride(tokens[r.config.pc as int], r.config.tape, count).wf(),
    decreases count,
{
    let e = token_engine(tokens);
    let token = tokens[r.config.pc as int];
    let tape = r.config.tape;
    if count == 0 {
        lemma_stride_none(token, tape);
    } else {
        let r1 = advance(e, input, r);
        assert(token_action(tokens, r.config) == Action::Continue);
        assert(r1.config == token_next(tokens, r.config, 0));
        assert(run(e, input, r, count) == run(e, input, r1, (count - 1) as nat));
        let rest = (count - 1) as nat;
        match token {
            OpenCode::SHR => {
                lemma_right_right(tape, 1, rest);
            },
            OpenCode::SHL => {
                lemma_left_left(tape, 1, rest);
            },
            OpenCode::ADD => {
                lemma_plus_plus(tape, 1, (rest % 256) as u8);
                assert((1 + rest % 256) % 256 == count % 256);
            },
            OpenCode::SUB => {
                lemma_minus_minus(tape, 1, (rest % 256) as u8);
                assert((1 + rest % 256) % 256 == count % 256);
            },
            _ => {},
        }
        lemma_token_streak(tokens, input, r1, rest);
        if rest == 0 {
            lemma_stride_none(tokens[r1.config.pc as int], r1.config.tape);
            lemma_stride_none(token, r1.config.tape);
        }
        assert(stride(token, r1.config.tape, rest) == stride(token, tape, count));
    }
}

/// What the layout says of the node that begins at token `p`.
proof fn lemma_node_at(tokens: Seq<OpenCode>, p: int)
    requires
        tokens.len() <= usize::MAX,
        0 <= p < tokens.len(),
        !joins(tokens, p),
    ensures
        ({
            let q = nodes_before(tokens, p);
            let e = run_end(tokens, p);
            &&& laid_out(tokens, fuse(tokens))
            &&& ir_of(tokens).len() == fuse(tokens).len()
            &&& fuse(tokens).len() == nodes_before(tokens, tokens.len() as int)
            &&& 0 <= q < fuse(tokens).len()
            &&& p <= e < tokens.len()
            &&& 1 <= e - p + 1 <= usize::MAX
            &&& !joins(tokens, e + 1)
            &&& nodes_before(tokens, e + 1) == q + 1
            &&& forall|m: int| p <= m <= e ==> tokens[m] == tokens[p]
            &&& fuse(tokens)[q] == node_for(tokens[p], e - p + 1)
            &&& ir_of(tokens)[q] == fuse(tokens)[q].aimed_at(
                partner(node_brackets(fuse(tokens)), q) as usize,
            )
            &&& node_brackets(ir_of(tokens)) == node_brackets(fuse(tokens))
            &&& !tokens[p].fusable() ==> e == p
        }),
{
    lemma_layout(tokens);
    lemma_run(tokens, p);
    let e = run_end(tokens, p);
    assert(streak(tokens, p) == 1);
    assert(nodes_before(tokens, p + 1) == nodes_before(tokens, p) + 1);
    assert(node_of(tokens, e) == nodes_before(tokens, p));
    assert(node_of(tokens, p) == nodes_before(tokens, p));
    assert(node_brackets(ir_of(tokens)) =~= node_brackets(fuse(tokens)));
}

/// At the end of the program both engines have ended.
proof fn lemma_step_ended(tokens: Seq<OpenCode>, input: Seq<u8>, rt: Run, ri: Run)
    requires
        tokens.len() <= usize::MAX,
        aligned(tokens, rt, ri),
        rt.config.pc == tokens.len(),
    ensures
        exit_of(token_engine(tokens), input, rt) == Exit::Completed,
        exit_of(ir_engine(ir_of(tokens)), input, ri) == Exit::Completed,
        aligned(
            tokens,
            run(token_engine(tokens), input, rt, 1),
            advance(ir_engine(ir_of(tokens)), input, ri),
        ),
{
    lemma_layout(tokens);
    lemma_stuck_stays(token_engine(tokens), input, rt, 1);
}

/// One counted node does what the run of tokens it was fused from does.
proof fn lemma_step_fused(tokens: Seq<OpenCode>, input: Seq<u8>, rt: Run, ri: Run) -> (count: nat)
    requires
        tokens.len() <= usize::MAX,
        aligned(tokens, rt, ri),
        rt.config.pc < tokens.len(),
        tokens[rt.config.pc as int].fusable(),
    ensures
        count >= 1,
        exit_of(token_engine(tokens), input, rt) == Exit::StepLimit,
        exit_of(ir_engine(ir_of(tokens)), input, ri) == Exit::StepLimit,
        aligned(
            tokens,
            run(token_engine(tokens), input, rt, count),
            advance(ir_engine(ir_of(tokens)), input, ri),
        ),
{
    let p = rt.config.pc as int;
    let e = run_end(tokens, p);
    let count = (e - p + 1) as nat;
    lemma_node_at(tokens, p);
    lemma_token_streak(tokens, input, rt, count);
    let nodes = ir_of(tokens);
    let q = ri.config.pc as int;
    assert(nodes[q] == node_for(tokens[p], count as int));
    assert(ir_action(nodes, ri.config) == Action::Continue);
    assert(advance(ir_engine(nodes), input, ri).config == ir_next(nodes, ri.config, 0));
    count
}

/// A node that reads or writes does what its token does.
proof fn lemma_step_io(tokens: Seq<OpenCode>, input: Seq<u8>, rt: Run, ri: Run)
    requires
        tokens.len() <= usize::MAX,
        aligned(tokens, rt, ri),
        rt.config.pc < tokens.len(),
        tokens[rt.config.pc as int] == OpenCode::PUTCHAR || tokens[rt.config.pc as int]
            == OpenCode::GETCHAR,
    ensures
        exit_of(token_engine(tokens), input, rt) == exit_of(
            ir_engine(ir_of(tokens)),
            input,
            ri,
        ),
        aligned(
            tokens,
            run(token_engine(tokens), input, rt, 1),
            advance(ir_engine(ir_of(tokens)), input, ri),
        ),
{
    reveal_with_fuel(run, 2);
    let p = rt.config.pc as int;
    lemma_node_at(tokens, p);
    let nodes = ir_of(tokens);
    let q = ri.config.pc as int;
    assert(nodes[q] == node_for(tokens[p], 1));
    assert(run(token_engine(tokens), input, rt, 1) == advance(token_engine(tokens), input, rt));
}

/// A resolved jump lands where the jump table sends its token.
proof fn lemma_step_jump(tokens: Seq<OpenCode>, input: Seq<u8>, rt: Run, ri: Run)
    requires
        tokens.len() <= usize::MAX,
        balanced(token_brackets(tokens)),
        aligned(tokens, rt, ri),
        rt.config.pc < tokens.len(),
        tokens[rt.config.pc as int] == OpenCode::LB || tokens[rt.config.pc as int] == OpenCode::RB,
    ensures
        exit_of(token_engine(tokens), input, rt) == Exit::StepLimit,
        exit_of(ir_engine(ir_of(tokens)), input, ri) == Exit::StepLimit,
        aligned(
            tokens,
            run(token_engine(tokens), input, rt, 1),
            advance(ir_engine(ir_of(tokens)), input, ri),
        ),
{
    reveal_with_fuel(run, 2);
    let p = rt.config.pc as int;
    lemma_node_at(tokens, p);
    let nodes = ir_of(tokens);
    let skeleton = fuse(tokens);
    let tb = token_brackets(tokens);
    let nb = node_brackets(skeleton);
    let q = ri.config.pc as int;
    assert(tb[p] == tokens[p].bracket());
    assert(skeleton[q] == node_for(tokens[p], 1));
    let other = if tokens[p] == OpenCode::LB {
        let close = lemma_opener_has_closer(tb, p);
        lemma_pair_corresponds(tokens, skeleton, p, close);
        lemma_partner(nb, q, nodes_before(tokens, close));
        close
    } else {
        let open = lemma_closer_has_opener(tb, p);
        lemma_pair_corresponds(tokens, skeleton, open, p);
        lemma_partner(nb, nodes_before(tokens, open), q);
        open
    };
    assert(partner(tb, p) == other);
    assert(partner(nb, q) == nodes_before(tokens, other));
    assert(tb[other] == tokens[other].bracket());
    assert(!joins(tokens, other + 1));
    assert(!joins(tokens, p + 1));
    assert(nodes_before(tokens, other + 1) == nodes_before(tokens, other) + 1);
    assert(0 <= nodes_before(tokens, other) < skeleton.len());
    lemma_nodes_before_grows(tokens, 0, tokens.len() as int);
    assert(skeleton.len() <= usize::MAX);
    assert(nodes[q] == skeleton[q].aimed_at(nodes_before(tokens, other) as usize));
    assert(token_action(tokens, rt.config) == Action::Continue);
    assert(ir_action(nodes, ri.config) == Action::Continue);
    assert(run(token_engine(tokens), input, rt, 1) == advance(token_engine(tokens), input, rt));
    assert(advance(token_engine(tokens), input, rt).config == token_next(tokens, rt.config, 0));
    assert(advance(ir_engine(nodes), input, ri).config == ir_next(nodes, ri.config, 0));
    let after_t = token_next(tokens, rt.config, 0);
    let after_i = ir_next(nodes, ri.config, 0);
    assert(after_t.tape == after_i.tape);
    assert(after_t.pc == p + 1 || after_t.pc == other + 1);
    assert(after_t.pc == p + 1 ==> after_i.pc == q + 1);
    assert(after_t.pc == other + 1 ==> after_i.pc == nodes_before(tokens, other) + 1);
}

/// One instruction of the node engine is one or more instructions of the token engine.
pub proof fn lemma_step(tokens: Seq<OpenCode>, input: Seq<u8>, rt: Run, ri: Run) -> (count: nat)
    requires
        tokens.len() <= usize::MAX,
        balanced(token_brackets(tokens)),
        aligned(tokens, rt, ri),
    ensures
        count >= 1,
        exit_of(token_engine(tokens), input, rt) == exit_of(
            ir_engine(ir_of(tokens)),
            input,
            ri,
        ),
        aligned(
            tokens,
            run(token_engine(tokens), input, rt, count),
            advance(ir_engine(ir_of(tokens)), input, ri),
        ),
{
    if rt.config.pc == tokens.len() {
        lemma_step_ended(tokens, input, rt, ri);
        1
    } else {
        let token = tokens[rt.config.pc as int];
        if token.fusable() {
            lemma_step_fused(tokens, input, rt, ri)
        } else if token == OpenCode::PUTCHAR || token == OpenCode::GETCHAR {
            lemma_step_io(tokens, input, rt, ri);
            1
        } else {
            lemma_step_jump(tokens, input, rt, ri);
            1
        }
    }
}

/// After any number of node instructions, the token engine has caught up with the node
/// engine in no fewer instructions of its own.
pub proof fn lemma_runs_aligned(tokens: Seq<OpenCode>, input: Seq<u8>, steps: nat) -> (count: nat)
    requires
        tokens.len() <= usize::MAX,
        balanced(token_brackets(tokens)),
    ensures
        count >= steps,
        aligned(
            tokens,
            run(token_engine(tokens), input, Run::starting(Config::initial()), count),
            run(ir_engine(ir_of(tokens)), input, Run::starting(Config::initial()), steps),
        ),
    decreases steps,
{
    reveal_with_fuel(run, 2);
    let te = token_engine(tokens);
    let ie = ir_engine(ir_of(tokens));
    let start = Run::starting(Config::initial());
    if steps == 0 {
        0
    } else {
        let sofar = lemma_runs_aligned(tokens, input, (steps - 1) as nat);
        let rt = run(te, input, start, sofar);
        let ri = run(ie, input, start, (steps - 1) as nat);
        let more = lemma_step(tokens, input, rt, ri);
        lemma_run_split(te, input, start, sofar, more);
        lemma_run_split(ie, input, start, (steps - 1) as nat, 1);
        assert(run(ie, input, ri, 1) == advance(ie, input, ri));
        sofar + more
    }
}

/// Engine equivalence, from nodes to tokens: whatever the node engine has done to the tape,
/// the input and the output after `steps` instructions, the token engine has done after
/// `count` instructions, and the two runs stand in the same way: both completed, both out
/// of input, or both able to go on.
pub proof fn lemma_tokens_follow_nodes(tokens: Seq<OpenCode>, input: Seq<u8>, steps: nat) -> (count:
    nat)
    requires
        tokens.len() <= usize::MAX,
        balanced(token_brackets(tokens)),
    ensures
        count >= steps,
        ({
            let te = token_engine(tokens);
            let ie = ir_engine(ir_of(tokens));
            let rt = run(te, input, Run::starting(Config::initial()), count);
            let ri = run(ie, input, Run::starting(Config::initial()), steps);
            &&& rt.config.tape == ri.config.tape
            &&& rt.output == ri.output
            &&& rt.consumed == ri.consumed
            &&& exit_of(te, input, rt) == exit_of(ie, input, ri)
        }),
{
    let count = lemma_runs_aligned(tokens, input, steps);
    let rt = run(token_engine(tokens), input, Run::starting(Config::initial()), count);
    let ri = run(ir_engine(ir_of(tokens)), input, Run::starting(Config::initial()), steps);
    lemma_step(tokens, input, rt, ri);
    count
}

/// Engine equivalence, from tokens to nodes: where the token engine has ended after `steps`
/// instructions, or has run out of input, the node engine has done so after no more than
/// `steps` instructions of its own, with the same tape, the same output and the same number
/// of input bytes read.
pub proof fn lemma_nodes_follow_tokens(tokens: Seq<OpenCode>, input: Seq<u8>, steps: nat)
    requires
        tokens.len() <= usize::MAX,
        balanced(token_brackets(tokens)),
        stuck(
            token_engine(tokens),
            input,
            run(token_engine(tokens), input, Run::starting(Config::initial()), steps),
        ),
    ensures
        ({
            let te = token_engine(tokens);
            let ie = ir_engine(ir_of(tokens));
            let rt = run(te, input, Run::starting(Config::initial()), steps);
            let ri = run(ie, input, Run::starting(Config::initial()), steps);
            &&& rt.config.tape == ri.config.tape
            &&& rt.output == ri.output
            &&& rt.consumed == ri.consumed
            &&& exit_of(te, input, rt) == exit_of(ie, input, ri)
        }),
{
    let te = token_engine(tokens);
    let start = Run::starting(Config::initial());
    let count = lemma_runs_aligned(tokens, input, steps);
    lemma_result_unique(te, input, start, steps, count);
    let rt = run(te, input, start, steps);
    let ri = run(ir_engine(ir_of(tokens)), input, start, steps);
    lemma_step(tokens, input, rt, ri);
}

/// Engine equivalence: where a program ends, or runs out of input, under both engines, it
/// leaves the same tape, the same output and the same input position, and it ends in the
/// same way, however many instructions either engine was given.
pub proof fn lemma_same_result(tokens: Seq<OpenCode>, input: Seq<u8>, a: nat, b: nat)
    requires
        tokens.len() <= usize::MAX,
        balanced(token_brackets(tokens)),
        stuck(
            token_engine(tokens),
            input,
            run(token_engine(tokens), input, Run::starting(Config::initial()), a),
        ),
        stuck(
            ir_engine(ir_of(tokens)),
            input,
            run(ir_engine(ir_of(tokens)), input, Run::starting(Config::initial()), b),
        ),
    ensures
        ({
            let te = token_engine(tokens);
            let ie = ir_engine(ir_of(tokens));
            let rt = run(te, input, Run::starting(Config::initial()), a);
            let ri = run(ie, input, Run::starting(Config::initial()), b);
            &&& rt.config.tape == ri.config.tape
            &&& rt.output == ri.output
            &&& rt.consumed == ri.consumed
            &&& exit_of(te, input, rt) == exit_of(ie, input, ri)
        }),
{
    let ie = ir_engine(ir_of(tokens));
    let start = Run::starting(Config::initial());
    lemma_nodes_follow_tokens(tokens, input, a);
    if a <= b {
        lemma_result_unique(ie, input, start, a, b);
    } else {
        lemma_result_unique(ie, input, start, b, a);
    }
}

} // verus!
