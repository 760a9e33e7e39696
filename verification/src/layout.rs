//! Where the tokens of a program lie among its fused nodes.
//!
//! A token joins the one before it where both are the same movement or arithmetic
//! instruction. A run is a token that joins nothing together with all tokens that join it
//! in a row. Fusion makes one node of every run, in order, and so carries the loop
//! structure of the tokens over to the nodes.

use crate::brainfuck_open_code::{token_brackets, OpenCode};
use crate::ir::{compact, fuse, ir_of, node_brackets, well_formed_ir, IR};
use crate::nesting::{
    balanced, depth, is_pair, lemma_closer_has_opener, lemma_opener_has_closer,
};
use vstd::prelude::*;

verus! {

/// Token `p` continues the run of the token before it.
pub open spec fn joins(tokens: Seq<OpenCode>, p: int) -> bool {
    &&& 0 < p < tokens.len()
    &&& tokens[p].fusable()
    &&& tokens[p] == tokens[p - 1]
}

/// The number of runs that begin among the first `p` tokens.
pub open spec fn nodes_before(tokens: Seq<OpenCode>, p: int) -> int
    decreases p,
{
    if p <= 0 {
        0
    } else if joins(tokens, p - 1) {
        nodes_before(tokens, p - 1)
    } else {
        nodes_before(tokens, p - 1) + 1
    }
}

/// The index of the node that token `p` belongs to.
pub open spec fn node_of(tokens: Seq<OpenCode>, p: int) -> int {
    nodes_before(tokens, p + 1) - 1
}

/// The number of tokens of its run up to and including token `p`.
pub open spec fn streak(tokens: Seq<OpenCode>, p: int) -> int
    decreases p,
{
    if joins(tokens, p) {
        streak(tokens, p - 1) + 1
    } else {
        1
    }
}

/// The last token of the run that token `p` belongs to.
pub open spec fn run_end(tokens: Seq<OpenCode>, p: int) -> int
    decreases tokens.len() - p,
{
    if joins(tokens, p + 1) {
        run_end(tokens, p + 1)
    } else {
        p
    }
}

/// The node that a run of `count` tokens equal to `token` is fused into, its jump target
/// left open.
pub open spec fn node_for(token: OpenCode, count: int) -> IR {
    match token {
        OpenCode::SHR => IR::SHR(count as usize),
        OpenCode::SHL => IR::SHL(count as usize),
        OpenCode::ADD => IR::ADD((count % 256) as u8),
        OpenCode::SUB => IR::SUB((count % 256) as u8),
        OpenCode::PUTCHAR => IR::PUTCHAR,
        OpenCode::GETCHAR => IR::GETCHAR,
        OpenCode::LB => IR::JIZ(0),
        OpenCode::RB => IR::JNZ(0),
    }
}

/// The nodes are the runs of the tokens, in order: there are as many nodes as runs, every
/// token's node plays the token's part in loop nesting, and the node of a complete run is
/// the one that the run is fused into.
pub open spec fn laid_out(tokens: Seq<OpenCode>, nodes: Seq<IR>) -> bool {
    &&& nodes.len() == nodes_before(tokens, tokens.len() as int)
    &&& forall|p: int| 0 <= p < tokens.len() ==> 0 <= #[trigger] node_of(tokens, p) < nodes.len()
    &&& forall|p: int|
        0 <= p < tokens.len() ==> nodes[#[trigger] node_of(tokens, p)].bracket()
            == tokens[p].bracket()
    &&& forall|p: int|
        0 <= p < tokens.len() && !joins(tokens, p + 1) ==> nodes[#[trigger] node_of(tokens, p)]
            == node_for(tokens[p], streak(tokens, p))
}

/// A run has at least one token and no more tokens than the program up to its end.
pub proof fn lemma_streak_bounds(tokens: Seq<OpenCode>, p: int)
    requires
        0 <= p < tokens.len(),
    ensures
        1 <= streak(tokens, p) <= p + 1,
    decreases p,
{
    if joins(tokens, p) {
        lemma_streak_bounds(tokens, p - 1);
    }
}

/// The number of runs begun grows with the number of tokens, by at most one for each token.
pub proof fn lemma_nodes_before_grows(tokens: Seq<OpenCode>, a: int, b: int)
    requires
        0 <= a <= b,
    ensures
        0 <= nodes_before(tokens, a) <= nodes_before(tokens, b) <= nodes_before(tokens, a) + (b
            - a),
        nodes_before(tokens, a) <= a,
    decreases b,
{
    if a < b {
        lemma_nodes_before_grows(tokens, a, b - 1);
    } else if a > 0 {
        lemma_nodes_before_grows(tokens, a - 1, a - 1);
    }
}

/// Runs that lie before the last token are not changed by it.
proof fn lemma_layout_prefix(tokens: Seq<OpenCode>, p: int)
    requires
        0 <= p < tokens.len(),
    ensures
        nodes_before(tokens.drop_last(), p) == nodes_before(tokens, p),
        p < tokens.len() - 1 ==> joins(tokens.drop_last(), p) == joins(tokens, p),
        p < tokens.len() - 1 ==> streak(tokens.drop_last(), p) == streak(tokens, p),
    decreases p,
{
    if p > 0 {
        lemma_layout_prefix(tokens, p - 1);
    }
}

/// Fusion lays the runs of a token sequence out as nodes.
pub proof fn lemma_layout(tokens: Seq<OpenCode>)
    requires
        tokens.len() <= usize::MAX,
    ensures
        laid_out(tokens, fuse(tokens)),
    decreases tokens.len(),
{
    if tokens.len() > 0 {
        let prev = tokens.drop_last();
        let n = prev.len() as int;
        let token = tokens.last();
        let before = fuse(prev);
        let after = fuse(tokens);
        lemma_layout(prev);
        assert forall|p: int| 0 <= p <= n implies nodes_before(prev, p) == nodes_before(
            tokens,
            p,
        ) by {
            lemma_layout_prefix(tokens, p);
        }
        assert forall|p: int| 0 <= p < n implies joins(prev, p) == joins(tokens, p) && streak(
            prev,
            p,
        ) == streak(tokens, p) && node_of(prev, p) == node_of(tokens, p) by {
            lemma_layout_prefix(tokens, p);
        }
        lemma_nodes_before_grows(tokens, 0, n);
        if n > 0 {
            lemma_streak_bounds(prev, n - 1);
            assert(!joins(prev, n));
            assert(node_of(prev, n - 1) == before.len() - 1);
            assert(before.last() == node_for(prev[n - 1], streak(prev, n - 1)));
        }
        if joins(tokens, n) {
            let count = streak(prev, n - 1);
            assert(streak(tokens, n) == count + 1);
            assert(after == before.update(before.len() - 1, node_for(token, count + 1))) by {
                assert(((count % 256) + 1) % 256 == (count + 1) % 256);
            }
            assert(node_of(tokens, n) == after.len() - 1);
            assert forall|p: int| 0 <= p < tokens.len() implies 0 <= #[trigger] node_of(
                tokens,
                p,
            ) < after.len() && after[node_of(tokens, p)].bracket() == tokens[p].bracket() by {
                if p < n {
                    assert(0 <= node_of(prev, p) < before.len());
                    assert(before[node_of(prev, p)].bracket() == prev[p].bracket());
                }
            }
            assert forall|p: int|
                0 <= p < tokens.len() && !joins(tokens, p + 1) implies after[#[trigger] node_of(
                tokens,
                p,
            )] == node_for(tokens[p], streak(tokens, p)) by {
                if p < n {
                    assert(p < n - 1);
                    assert(!joins(prev, p + 1));
                    assert(before[node_of(prev, p)] == node_for(prev[p], streak(prev, p)));
                    lemma_nodes_before_grows(tokens, p + 2, n);
                    assert(node_of(tokens, p) < before.len() - 1);
                }
            }
        } else {
            assert(after == before.push(node_for(token, 1)));
            assert(streak(tokens, n) == 1);
            assert(node_of(tokens, n) == after.len() - 1);
            assert forall|p: int| 0 <= p < tokens.len() implies 0 <= #[trigger] node_of(
                tokens,
                p,
            ) < after.len() && after[node_of(tokens, p)].bracket() == tokens[p].bracket() by {
                if p < n {
                    assert(0 <= node_of(prev, p) < before.len());
                    assert(before[node_of(prev, p)].bracket() == prev[p].bracket());
                }
            }
            assert forall|p: int|
                0 <= p < tokens.len() && !joins(tokens, p + 1) implies after[#[trigger] node_of(
                tokens,
                p,
            )] == node_for(tokens[p], streak(tokens, p)) by {
                if p < n {
                    assert(0 <= node_of(prev, p) < before.len());
                    assert(!joins(prev, p + 1));
                    assert(before[node_of(prev, p)] == node_for(prev[p], streak(prev, p)));
                }
            }
        }
    }
}

/// What holds of the run that token `p` belongs to, from `p` to the run's end: all its
/// tokens are equal, all but the first join, and they share one node.
pub proof fn lemma_run(tokens: Seq<OpenCode>, p: int)
    requires
        0 <= p < tokens.len(),
    ensures
        p <= run_end(tokens, p) < tokens.len(),
        !joins(tokens, run_end(tokens, p) + 1),
        forall|m: int| p <= m <= run_end(tokens, p) ==> tokens[m] == tokens[p],
        nodes_before(tokens, run_end(tokens, p) + 1) == nodes_before(tokens, p + 1),
        streak(tokens, run_end(tokens, p)) == streak(tokens, p) + (run_end(tokens, p) - p),
    decreases tokens.len() - p,
{
    if joins(tokens, p + 1) {
        lemma_run(tokens, p + 1);
    }
}

/// The depth before a token is the depth before its node.
pub proof fn lemma_depth_corresponds(tokens: Seq<OpenCode>, nodes: Seq<IR>, p: int)
    requires
        laid_out(tokens, nodes),
        0 <= p <= tokens.len(),
    ensures
        0 <= nodes_before(tokens, p) <= nodes.len(),
        depth(node_brackets(nodes), nodes_before(tokens, p)) == depth(token_brackets(tokens), p),
    decreases p,
{
    lemma_nodes_before_grows(tokens, p, tokens.len() as int);
    if p > 0 {
        lemma_depth_corresponds(tokens, nodes, p - 1);
        assert(token_brackets(tokens)[p - 1] == tokens[p - 1].bracket());
        if !joins(tokens, p - 1) {
            let q = node_of(tokens, p - 1);
            assert(q == nodes_before(tokens, p - 1));
            assert(node_brackets(nodes)[q] == nodes[q].bracket());
        }
    }
}

/// Every node between the nodes of two tokens is the node of a token between them.
pub proof fn lemma_reach(tokens: Seq<OpenCode>, lo: int, hi: int, k: int) -> (m: int)
    requires
        0 <= lo <= hi,
        nodes_before(tokens, lo) < k <= nodes_before(tokens, hi),
    ensures
        lo < m <= hi,
        nodes_before(tokens, m) == k,
        m == hi || nodes_before(tokens, m + 1) > k,
    decreases hi - lo,
{
    if nodes_before(tokens, hi) == k {
        hi
    } else {
        lemma_reach(tokens, lo, hi - 1, k)
    }
}

/// The two ends of a loop of tokens are fused into the two ends of a loop of nodes.
pub proof fn lemma_pair_corresponds(tokens: Seq<OpenCode>, nodes: Seq<IR>, open: int, close: int)
    requires
        laid_out(tokens, nodes),
        is_pair(token_brackets(tokens), open, close),
    ensures
        is_pair(node_brackets(nodes), nodes_before(tokens, open), nodes_before(tokens, close)),
        nodes_before(tokens, open + 1) == nodes_before(tokens, open) + 1,
        nodes_before(tokens, close + 1) == nodes_before(tokens, close) + 1,
{
    let tb = token_brackets(tokens);
    let nb = node_brackets(nodes);
    let a = nodes_before(tokens, open);
    let b = nodes_before(tokens, close);
    assert(tb[open] == tokens[open].bracket());
    assert(tb[close] == tokens[close].bracket());
    assert(a == node_of(tokens, open));
    assert(b == node_of(tokens, close));
    assert(nb[a] == nodes[a].bracket());
    assert(nb[b] == nodes[b].bracket());
    lemma_nodes_before_grows(tokens, open + 1, close);
    lemma_depth_corresponds(tokens, nodes, open);
    lemma_depth_corresponds(tokens, nodes, close + 1);
    assert forall|k: int| a < k <= b implies #[trigger] depth(nb, k) > depth(nb, a) by {
        let m = lemma_reach(tokens, open, close, k);
        lemma_depth_corresponds(tokens, nodes, m);
        assert(depth(tb, m) > depth(tb, open));
    }
}

/// The nodes of a balanced token sequence are balanced.
pub proof fn lemma_nodes_balanced(tokens: Seq<OpenCode>)
    requires
        tokens.len() <= usize::MAX,
        balanced(token_brackets(tokens)),
    ensures
        balanced(node_brackets(fuse(tokens))),
        fuse(tokens).len() <= tokens.len(),
{
    let skeleton = fuse(tokens);
    let nb = node_brackets(skeleton);
    let tb = token_brackets(tokens);
    lemma_layout(tokens);
    lemma_nodes_before_grows(tokens, 0, tokens.len() as int);
    lemma_depth_corresponds(tokens, skeleton, tokens.len() as int);
    assert forall|k: int| 0 <= k <= nb.len() implies #[trigger] depth(nb, k) >= 0 by {
        if k > 0 {
            let m = lemma_reach(tokens, 0, tokens.len() as int, k);
            lemma_depth_corresponds(tokens, skeleton, m);
            assert(depth(tb, m) >= 0);
        }
    }
}

/// Fusion leaves no two neighbours that it could have combined.
pub proof fn lemma_fuse_compact(tokens: Seq<OpenCode>)
    requires
        tokens.len() <= usize::MAX,
    ensures
        compact(fuse(tokens)),
{
    let skeleton = fuse(tokens);
    lemma_layout(tokens);
    assert forall|a: int| 0 < a < skeleton.len() implies !(#[trigger] skeleton[a - 1]).mergeable(
        skeleton[a],
    ) by {
        let m = lemma_reach(tokens, 0, tokens.len() as int, a);
        lemma_nodes_before_grows(tokens, m, tokens.len() as int);
        assert(m < tokens.len());
        assert(!joins(tokens, m));
        lemma_nodes_before_grows(tokens, 0, 0);
        assert(m > 0);
        lemma_run(tokens, m);
        let e = run_end(tokens, m);
        assert(node_of(tokens, e) == a);
        assert(node_of(tokens, m - 1) == a - 1);
        assert(skeleton[a] == node_for(tokens[e], streak(tokens, e)));
        assert(skeleton[a - 1] == node_for(tokens[m - 1], streak(tokens, m - 1)));
    }
}

/// The intermediate representation of a balanced token sequence is well formed: its loops
/// are balanced, every jump names the other end of its own loop, and no two neighbours are
/// left to fuse.
pub proof fn lemma_ir_well_formed(tokens: Seq<OpenCode>)
    requires
        tokens.len() <= usize::MAX,
        balanced(token_brackets(tokens)),
    ensures
        well_formed_ir(ir_of(tokens)),
{
    let skeleton = fuse(tokens);
    let nodes = ir_of(tokens);
    let nb = node_brackets(skeleton);
    lemma_nodes_balanced(tokens);
    lemma_fuse_compact(tokens);
    assert(node_brackets(nodes) =~= nb);
    assert forall|a: int| 0 <= a < nodes.len() implies match #[trigger] nodes[a] {
        IR::JIZ(t) => is_pair(node_brackets(nodes), a, t as int),
        IR::JNZ(t) => is_pair(node_brackets(nodes), t as int, a),
        _ => true,
    } by {
        assert(nb[a] == skeleton[a].bracket());
        match nodes[a] {
            IR::JIZ(t) => {
                lemma_opener_has_closer(nb, a);
            },
            IR::JNZ(t) => {
                lemma_closer_has_opener(nb, a);
            },
            _ => {},
        }
    }
    assert forall|a: int| 0 < a < nodes.len() implies !(#[trigger] nodes[a - 1]).mergeable(
        nodes[a],
    ) by {
        assert(!skeleton[a - 1].mergeable(skeleton[a]));
    }
}

} // verus!
