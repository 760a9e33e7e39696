//! Fusion changes nothing that can be observed: replaying a token sequence one token at a
//! time leaves the same tape and the same output as replaying its fused nodes.

use crate::brainfuck_open_code::OpenCode;
use crate::ir::{absorb, fuse, ir_of, shapes, IR};
use crate::tape::{
    lemma_left_left, lemma_minus_minus, lemma_plus_plus, lemma_right_right, TapeState,
};
use vstd::prelude::*;

verus! {

/// What a replay has done so far: the tape, the number of input bytes read, the bytes
/// written, and whether it has asked for a byte where the input had ended.
pub struct Trace {
    pub tape: TapeState,
    pub consumed: nat,
    pub output: Seq<u8>,
    pub starved: bool,
}

impl Trace {
    /// The trace after reading one byte into the current cell, or the trace marked as out
    /// of input where no byte is left.
    pub open spec fn reading(self, input: Seq<u8>) -> Trace {
        if self.consumed < input.len() {
            Trace {
                tape: self.tape.store(input[self.consumed as int]),
                consumed: self.consumed + 1,
                output: self.output,
                starved: false,
            }
        } else {
            Trace { starved: true, ..self }
        }
    }

    /// The same trace on another tape.
    pub open spec fn on(self, tape: TapeState) -> Trace {
        Trace { tape, ..self }
    }
}

/// The trace after one token, taken by itself. A bracket decides where a program goes on
/// and leaves tape, input and output alone. A replay that has run out of input stays as it
/// is.
pub open spec fn token_effect(token: OpenCode, input: Seq<u8>, w: Trace) -> Trace {
    if w.starved {
        w
    } else {
        match token {
            OpenCode::SHR => w.on(w.tape.right(1)),
            OpenCode::SHL => w.on(w.tape.left(1)),
            OpenCode::ADD => w.on(w.tape.plus(1)),
            OpenCode::SUB => w.on(w.tape.minus(1)),
            OpenCode::PUTCHAR => Trace { output: w.output.push(w.tape.current()), ..w },
            OpenCode::GETCHAR => w.reading(input),
            OpenCode::LB => w,
            OpenCode::RB => w,
        }
    }
}

/// The trace after one node, taken by itself.
pub open spec fn node_effect(node: IR, input: Seq<u8>, w: Trace) -> Trace {
    if w.starved {
        w
    } else {
        match node {
            IR::SHR(x) => w.on(w.tape.right(x as nat)),
            IR::SHL(x) => w.on(w.tape.left(x as nat)),
            IR::ADD(x) => w.on(w.tape.plus(x)),
            IR::SUB(x) => w.on(w.tape.minus(x)),
            IR::PUTCHAR => Trace { output: w.output.push(w.tape.current()), ..w },
            IR::GETCHAR => w.reading(input),
            IR::JIZ(_) => w,
            IR::JNZ(_) => w,
        }
    }
}

/// The trace after every token of the sequence, in order.
pub open spec fn replay_tokens(tokens: Seq<OpenCode>, input: Seq<u8>, w: Trace) -> Trace
    decreases tokens.len(),
{
    if tokens.len() == 0 {
        w
    } else {
        token_effect(tokens.last(), input, replay_tokens(tokens.drop_last(), input, w))
    }
}

/// The trace after every node of the sequence, in order.
pub open spec fn replay_nodes(nodes: Seq<IR>, input: Seq<u8>, w: Trace) -> Trace
    decreases nodes.len(),
{
    if nodes.len() == 0 {
        w
    } else {
        node_effect(nodes.last(), input, replay_nodes(nodes.drop_last(), input, w))
    }
}

/// No movement count of a fused sequence exceeds the number of tokens it was fused from.
pub open spec fn counts_within(nodes: Seq<IR>, limit: nat) -> bool {
    forall|a: int|
        0 <= a < nodes.len() ==> match #[trigger] nodes[a] {
            IR::SHR(x) => x <= limit,
            IR::SHL(x) => x <= limit,
            _ => true,
        }
}

/// A replay keeps the pointer on the tape.
pub proof fn lemma_replay_nodes_wf(nodes: Seq<IR>, input: Seq<u8>, w: Trace)
    requires
        w.tape.wf(),
    ensures
        replay_nodes(nodes, input, w).tape.wf(),
    decreases nodes.len(),
{
    if nodes.len() > 0 {
        lemma_replay_nodes_wf(nodes.drop_last(), input, w);
    }
}

/// Jump targets play no part in a replay.
pub proof fn lemma_replay_ignores_targets(a: Seq<IR>, b: Seq<IR>, input: Seq<u8>, w: Trace)
    requires
        shapes(a) == shapes(b),
    ensures
        replay_nodes(a, input, w) == replay_nodes(b, input, w),
    decreases a.len(),
{
    assert(a.len() == shapes(a).len());
    assert(b.len() == shapes(b).len());
    if a.len() > 0 {
        assert(shapes(a)[a.len() - 1] == a.last().shape());
        assert(shapes(b)[b.len() - 1] == b.last().shape());
        assert(shapes(a.drop_last()) =~= shapes(a).drop_last());
        assert(shapes(b.drop_last()) =~= shapes(b).drop_last());
        lemma_replay_ignores_targets(a.drop_last(), b.drop_last(), input, w);
    }
}

/// Absorbing one more token into fused nodes has the effect of that token.
proof fn lemma_absorb_effect(nodes: Seq<IR>, token: OpenCode, input: Seq<u8>, w: Trace)
    requires
        w.tape.wf(),
        counts_within(nodes, (usize::MAX - 1) as nat),
    ensures
        replay_nodes(absorb(nodes, token), input, w) == token_effect(
            token,
            input,
            replay_nodes(nodes, input, w),
        ),
{
    let after = absorb(nodes, token);
    if after.len() == nodes.len() + 1 {
        assert(after.drop_last() =~= nodes);
    } else {
        let rest = nodes.drop_last();
        let w0 = replay_nodes(rest, input, w);
        assert(after.drop_last() =~= rest);
        lemma_replay_nodes_wf(rest, input, w);
        match nodes.last() {
            IR::SHR(x) => {
                lemma_right_right(w0.tape, x as nat, 1);
            },
            IR::SHL(x) => {
                lemma_left_left(w0.tape, x as nat, 1);
            },
            IR::ADD(x) => {
                lemma_plus_plus(w0.tape, x, 1);
            },
            IR::SUB(x) => {
                lemma_minus_minus(w0.tape, x, 1);
            },
            _ => {},
        }
    }
}

/// Fusion keeps movement counts within the number of tokens fused.
pub proof fn lemma_fuse_counts(tokens: Seq<OpenCode>)
    requires
        tokens.len() <= usize::MAX,
    ensures
        counts_within(fuse(tokens), tokens.len()),
    decreases tokens.len(),
{
    if tokens.len() > 0 {
        lemma_fuse_counts(tokens.drop_last());
        let nodes = fuse(tokens.drop_last());
        let after = fuse(tokens);
        assert forall|a: int| 0 <= a < after.len() implies match #[trigger] after[a] {
            IR::SHR(x) => x <= tokens.len(),
            IR::SHL(x) => x <= tokens.len(),
            _ => true,
        } by {
            if a < nodes.len() {
                assert(match nodes[a] {
                    IR::SHR(x) => x <= tokens.len() - 1,
                    IR::SHL(x) => x <= tokens.len() - 1,
                    _ => true,
                });
            }
        }
    }
}

/// Fusion transparency: replaying the tokens one by one and replaying their fused nodes
/// leave the same tape, the same input position and the same output.
pub proof fn lemma_fusion_transparent(tokens: Seq<OpenCode>, input: Seq<u8>, w: Trace)
    requires
        w.tape.wf(),
        tokens.len() <= usize::MAX,
    ensures
        replay_nodes(fuse(tokens), input, w) == replay_tokens(tokens, input, w),
        replay_nodes(ir_of(tokens), input, w) == replay_tokens(tokens, input, w),
    decreases tokens.len(),
{
    if tokens.len() > 0 {
        lemma_fusion_transparent(tokens.drop_last(), input, w);
        lemma_fuse_counts(tokens.drop_last());
        lemma_absorb_effect(fuse(tokens.drop_last()), tokens.last(), input, w);
    }
    assert(shapes(ir_of(tokens)) =~= shapes(fuse(tokens)));
    lemma_replay_ignores_targets(ir_of(tokens), fuse(tokens), input, w);
}

} // verus!
