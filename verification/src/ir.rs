//! The intermediate representation: runs of equal movement or arithmetic tokens fused into
//! counted nodes, and every loop end resolved to the index of its other end.

use crate::brainfuck_open_code::{token_brackets, OpenCode};
use crate::error::UnbalancedLoopError;
use crate::nesting::{
    balanced, depth, has_unmatched_closer, has_unterminated_opener, is_pair, lemma_closer_unique,
    lemma_depths_agree, lemma_opener_unique, lemma_pair_agrees, lemma_partner, lemma_trichotomy,
    never_negative, open_until, partner, pending, Bracket,
};
use vstd::prelude::*;

verus! {

/// One node of the intermediate representation.
#[derive(Debug, PartialEq, Eq, Clone, Copy, Structural)]
pub enum IR {
    /// Move the pointer right by the count.
    SHR(usize),
    /// Move the pointer left by the count, stopping at the first cell.
    SHL(usize),
    /// Add the count to the current cell, modulo 256.
    ADD(u8),
    /// Subtract the count from the current cell, modulo 256.
    SUB(u8),
    /// Write the current cell.
    PUTCHAR,
    /// Read a byte into the current cell.
    GETCHAR,
    /// Jump past the node at the target index if the current cell is zero.
    JIZ(usize),
    /// Jump past the node at the target index if the current cell is not zero.
    JNZ(usize),
}

impl IR {
    /// The part this node plays in loop nesting.
    pub open spec fn bracket(self) -> Bracket {
        match self {
            IR::JIZ(_) => Bracket::Open,
            IR::JNZ(_) => Bracket::Close,
            _ => Bracket::Plain,
        }
    }

    /// This node with its jump target, if it has one, replaced by `target`.
    pub open spec fn aimed_at(self, target: usize) -> IR {
        match self {
            IR::JIZ(_) => IR::JIZ(target),
            IR::JNZ(_) => IR::JNZ(target),
            _ => self,
        }
    }

    /// This node with its jump target, if it has one, left open.
    pub open spec fn shape(self) -> IR {
        self.aimed_at(0)
    }

    /// Two nodes that fusion would have combined had they stood side by side.
    pub open spec fn mergeable(self, next: IR) -> bool {
        ||| self is SHR && next is SHR
        ||| self is SHL && next is SHL
        ||| self is ADD && next is ADD
        ||| self is SUB && next is SUB
    }
}

/// The loop nesting structure of a node sequence.
pub open spec fn node_brackets(nodes: Seq<IR>) -> Seq<Bracket> {
    nodes.map_values(|n: IR| n.bracket())
}

/// The nodes with all jump targets left open.
pub open spec fn shapes(nodes: Seq<IR>) -> Seq<IR> {
    nodes.map_values(|n: IR| n.shape())
}

/// The last node, if there is one.
pub open spec fn last_of(nodes: Seq<IR>) -> Option<IR> {
    if nodes.len() > 0 {
        Some(nodes.last())
    } else {
        None
    }
}

/// The nodes after one more token: a movement or arithmetic token extends the count of the
/// last node if that node is of its kind, every other token appends a node of its own.
pub open spec fn absorb(nodes: Seq<IR>, token: OpenCode) -> Seq<IR> {
    let end = nodes.len() - 1;
    match token {
        OpenCode::SHR => match last_of(nodes) {
            Some(IR::SHR(x)) => nodes.update(end, IR::SHR((x + 1) as usize)),
            _ => nodes.push(IR::SHR(1)),
        },
        OpenCode::SHL => match last_of(nodes) {
            Some(IR::SHL(x)) => nodes.update(end, IR::SHL((x + 1) as usize)),
            _ => nodes.push(IR::SHL(1)),
        },
        OpenCode::ADD => match last_of(nodes) {
            Some(IR::ADD(x)) => nodes.update(end, IR::ADD(((x + 1) % 256) as u8)),
            _ => nodes.push(IR::ADD(1)),
        },
        OpenCode::SUB => match last_of(nodes) {
            Some(IR::SUB(x)) => nodes.update(end, IR::SUB(((x + 1) % 256) as u8)),
            _ => nodes.push(IR::SUB(1)),
        },
        OpenCode::PUTCHAR => nodes.push(IR::PUTCHAR),
        OpenCode::GETCHAR => nodes.push(IR::GETCHAR),
        OpenCode::LB => nodes.push(IR::JIZ(0)),
        OpenCode::RB => nodes.push(IR::JNZ(0)),
    }
}

/// The fused form of a token sequence, with all jump targets left open.
pub open spec fn fuse(tokens: Seq<OpenCode>) -> Seq<IR>
    decreases tokens.len(),
{
    if tokens.len() == 0 {
        Seq::empty()
    } else {
        absorb(fuse(tokens.drop_last()), tokens.last())
    }
}

/// The nodes with every jump aimed at the other end of its loop.
pub open spec fn link(nodes: Seq<IR>) -> Seq<IR> {
    Seq::new(
        nodes.len(),
        |i: int| nodes[i].aimed_at(partner(node_brackets(nodes), i) as usize),
    )
}

/// The intermediate representation of a token sequence.
pub open spec fn ir_of(tokens: Seq<OpenCode>) -> Seq<IR> {
    link(fuse(tokens))
}

/// Every jump names the other end of its own loop.
pub open spec fn resolved(nodes: Seq<IR>) -> bool {
    forall|a: int|
        0 <= a < nodes.len() ==> match #[trigger] nodes[a] {
            IR::JIZ(t) => is_pair(node_brackets(nodes), a, t as int),
            IR::JNZ(t) => is_pair(node_brackets(nodes), t as int, a),
            _ => true,
        }
}

/// No two neighbours could have been fused into one node.
pub open spec fn compact(nodes: Seq<IR>) -> bool {
    forall|a: int| 0 < a < nodes.len() ==> !(#[trigger] nodes[a - 1]).mergeable(nodes[a])
}

/// What holds of every intermediate representation: loops are balanced, jumps are resolved,
/// and nothing is left to fuse.
pub open spec fn well_formed_ir(nodes: Seq<IR>) -> bool {
    &&& balanced(node_brackets(nodes))
    &&& resolved(nodes)
    &&& compact(nodes)
}

/// In a well-formed program the two ends of a loop name each other: the jump that a jump
/// names is a jump of the other kind that names it back.
pub proof fn lemma_jumps_mutual(nodes: Seq<IR>, a: int)
    requires
        nodes.len() <= usize::MAX,
        well_formed_ir(nodes),
        0 <= a < nodes.len(),
    ensures
        nodes[a] matches IR::JIZ(t) ==> a < t < nodes.len() && nodes[t as int] == IR::JNZ(
            a as usize,
        ),
        nodes[a] matches IR::JNZ(t) ==> t < a && nodes[t as int] == IR::JIZ(a as usize),
{
    let s = node_brackets(nodes);
    match nodes[a] {
        IR::JIZ(t) => {
            assert(s[t as int] == nodes[t as int].bracket());
            match nodes[t as int] {
                IR::JNZ(back) => {
                    lemma_opener_unique(s, a, back as int, t as int);
                },
                _ => {},
            }
        },
        IR::JNZ(t) => {
            assert(s[t as int] == nodes[t as int].bracket());
            match nodes[t as int] {
                IR::JIZ(forth) => {
                    lemma_closer_unique(s, t as int, a, forth as int);
                },
                _ => {},
            }
        },
        _ => {},
    }
}

/// The jump at `a`, if there is one, is either waiting on the stack of open loops or names
/// the other end of its loop.
pub open spec fn settled(nodes: Seq<IR>, stack: Seq<usize>, a: int) -> bool {
    match nodes[a] {
        IR::JIZ(t) => pending(node_brackets(nodes), stack, a) || is_pair(
            node_brackets(nodes),
            a,
            t as int,
        ),
        IR::JNZ(t) => is_pair(node_brackets(nodes), t as int, a),
        _ => true,
    }
}

/// The state of loop resolution while nodes are being built: the stack holds exactly the
/// loops that are open, innermost last, and every other jump is resolved.
pub open spec fn linking(nodes: Seq<IR>, stack: Seq<usize>) -> bool {
    &&& never_negative(node_brackets(nodes))
    &&& stack.len() == depth(node_brackets(nodes), nodes.len() as int)
    &&& forall|d: int|
        0 <= d < stack.len() ==> open_until(
            node_brackets(nodes),
            #[trigger] stack[d] as int,
            d,
            nodes.len() as int,
        )
    &&& forall|a: int| 0 <= a < nodes.len() ==> #[trigger] settled(nodes, stack, a)
}

/// A jump that was settled stays settled when nodes are appended and the stack keeps the
/// entry it may be waiting on.
proof fn lemma_settled_later(
    nodes: Seq<IR>,
    stack: Seq<usize>,
    nodes2: Seq<IR>,
    stack2: Seq<usize>,
    a: int,
)
    requires
        0 <= a < nodes.len() <= nodes2.len(),
        settled(nodes, stack, a),
        nodes2[a] == nodes[a],
        forall|m: int| 0 <= m < nodes.len() ==> (#[trigger] nodes2[m]).bracket() == nodes[m].bracket(),
        pending(node_brackets(nodes), stack, a) ==> pending(node_brackets(nodes), stack2, a),
    ensures
        settled(nodes2, stack2, a),
{
    let s = node_brackets(nodes);
    let s2 = node_brackets(nodes2);
    lemma_depths_agree(s, s2, nodes.len() as int);
    match nodes[a] {
        IR::JIZ(t) => {
            if pending(s, stack, a) {
                assert(pending(s2, stack2, a));
            } else {
                lemma_pair_agrees(s, s2, a, t as int);
            }
        },
        IR::JNZ(t) => {
            lemma_pair_agrees(s, s2, t as int, a);
        },
        _ => {},
    }
}

/// Replacing the last node, which is no jump, by another that is no jump keeps the state of
/// loop resolution.
proof fn lemma_link_keep(nodes: Seq<IR>, stack: Seq<usize>, node: IR)
    requires
        linking(nodes, stack),
        nodes.len() > 0,
        nodes.last().bracket() == Bracket::Plain,
        node.bracket() == Bracket::Plain,
    ensures
        linking(nodes.update(nodes.len() - 1, node), stack),
{
    let nodes2 = nodes.update(nodes.len() - 1, node);
    assert(node_brackets(nodes2) =~= node_brackets(nodes));
    assert forall|a: int| 0 <= a < nodes2.len() implies #[trigger] settled(nodes2, stack, a) by {
        if a < nodes.len() - 1 {
            assert(settled(nodes, stack, a));
        }
    }
}

/// Appending a node that is no jump keeps the state of loop resolution.
proof fn lemma_link_plain(nodes: Seq<IR>, stack: Seq<usize>, node: IR)
    requires
        linking(nodes, stack),
        node.bracket() == Bracket::Plain,
    ensures
        linking(nodes.push(node), stack),
{
    let n = nodes.len() as int;
    let s = node_brackets(nodes);
    let nodes2 = nodes.push(node);
    let s2 = node_brackets(nodes2);
    lemma_depths_agree(s, s2, n);
    assert(depth(s2, n + 1) == depth(s2, n) + s2[n].weight());
    assert forall|d: int| 0 <= d < stack.len() implies open_until(
        s2,
        #[trigger] stack[d] as int,
        d,
        n + 1,
    ) by {
        assert(open_until(s, stack[d] as int, d, n));
    }
    assert forall|a: int| 0 <= a < nodes2.len() implies #[trigger] settled(nodes2, stack, a) by {
        if a < n {
            assert(settled(nodes, stack, a));
            lemma_settled_later(nodes, stack, nodes2, stack, a);
        }
    }
}

/// Appending a loop opener and pushing its index keeps the state of loop resolution.
proof fn lemma_link_open(nodes: Seq<IR>, stack: Seq<usize>)
    requires
        linking(nodes, stack),
        nodes.len() <= usize::MAX,
    ensures
        linking(nodes.push(IR::JIZ(0)), stack.push(nodes.len() as usize)),
{
    let n = nodes.len() as int;
    let s = node_brackets(nodes);
    let nodes2 = nodes.push(IR::JIZ(0));
    let stack2 = stack.push(n as usize);
    let s2 = node_brackets(nodes2);
    lemma_depths_agree(s, s2, n);
    assert(depth(s2, n + 1) == depth(s2, n) + s2[n].weight());
    assert forall|d: int| 0 <= d < stack2.len() implies open_until(
        s2,
        #[trigger] stack2[d] as int,
        d,
        n + 1,
    ) by {
        if d < stack.len() {
            assert(open_until(s, stack[d] as int, d, n));
        }
    }
    assert forall|a: int| 0 <= a < nodes2.len() implies #[trigger] settled(nodes2, stack2, a) by {
        if a < n {
            assert(settled(nodes, stack, a));
            lemma_settled_later(nodes, stack, nodes2, stack2, a);
        } else {
            assert(pending(s2, stack2, a));
        }
    }
}

/// Appending a loop closer that names the innermost open loop, and aiming that loop's opener
/// at the closer, keeps the state of loop resolution with the loop popped.
proof fn lemma_link_close(nodes: Seq<IR>, stack: Seq<usize>)
    requires
        linking(nodes, stack),
        stack.len() > 0,
        nodes.len() <= usize::MAX,
    ensures
        stack.last() < nodes.len(),
        nodes[stack.last() as int] is JIZ,
        linking(
            nodes.push(IR::JNZ(stack.last())).update(
                stack.last() as int,
                IR::JIZ(nodes.len() as usize),
            ),
            stack.drop_last(),
        ),
{
    let n = nodes.len() as int;
    let js = stack.last();
    let top = stack.len() - 1;
    let s = node_brackets(nodes);
    let pushed = nodes.push(IR::JNZ(js));
    let nodes2 = pushed.update(js as int, IR::JIZ(n as usize));
    let stack2 = stack.drop_last();
    let s2 = node_brackets(nodes2);
    assert(open_until(s, stack[top] as int, top, n));
    assert(s[js as int] == nodes[js as int].bracket());
    lemma_depths_agree(s, s2, n);
    assert(depth(s2, n + 1) == depth(s2, n) + s2[n].weight());
    assert(is_pair(s2, js as int, n));
    assert forall|d: int| 0 <= d < stack2.len() implies open_until(
        s2,
        #[trigger] stack2[d] as int,
        d,
        n + 1,
    ) by {
        assert(open_until(s, stack[d] as int, d, n));
    }
    assert forall|a: int| 0 <= a < nodes2.len() implies #[trigger] settled(nodes2, stack2, a) by {
        if a < n && a != js {
            assert(settled(nodes, stack, a));
            lemma_settled_later(nodes, stack, nodes2, stack2, a);
        }
    }
}

/// Once no loop is open, every jump is resolved and names its partner.
proof fn lemma_link_done(nodes: Seq<IR>)
    requires
        linking(nodes, Seq::<usize>::empty()),
    ensures
        resolved(nodes),
        link(shapes(nodes)) == nodes,
{
    let s = node_brackets(nodes);
    assert(node_brackets(shapes(nodes)) =~= s);
    assert forall|a: int| 0 <= a < nodes.len() implies match #[trigger] nodes[a] {
        IR::JIZ(t) => is_pair(s, a, t as int),
        IR::JNZ(t) => is_pair(s, t as int, a),
        _ => true,
    } && link(shapes(nodes))[a] == nodes[a] by {
        assert(settled(nodes, Seq::<usize>::empty(), a));
        match nodes[a] {
            IR::JIZ(t) => {
                lemma_partner(s, a, t as int);
            },
            IR::JNZ(t) => {
                lemma_partner(s, t as int, a);
            },
            _ => {},
        }
    }
    assert(link(shapes(nodes)) =~= nodes);
}

/// A program in its intermediate representation.
#[derive(Debug)]
pub struct BrainfuckCodeIR {
    instrs: Vec<IR>,
}

/// The last node of a vector, if it has one.
fn last_node(instrs: &Vec<IR>) -> (node: Option<IR>)
    ensures
        node == last_of(instrs@),
{
    if instrs.len() > 0 {
        Some(instrs[instrs.len() - 1])
    } else {
        None
    }
}

impl BrainfuckCodeIR {
    /// The nodes of the program.
    pub closed spec fn nodes(&self) -> Seq<IR> {
        self.instrs@
    }

    /// The program's loops are balanced, its jumps resolved, and its nodes fused.
    #[verifier::type_invariant]
    pub open spec fn well_formed(&self) -> bool {
        well_formed_ir(self.nodes())
    }

    /// Builds the intermediate representation of a token sequence: fuses runs of equal
    /// movement and arithmetic tokens and resolves the two ends of every loop to each other.
    /// Fails where the loops are not balanced.
    pub fn from(data: Vec<OpenCode>) -> (result: Result<BrainfuckCodeIR, UnbalancedLoopError>)
        ensures
            result is Ok <==> balanced(token_brackets(data@)),
            result == Err::<BrainfuckCodeIR, _>(UnbalancedLoopError::UnmatchedCloser)
                <==> has_unmatched_closer(token_brackets(data@)),
            result == Err::<BrainfuckCodeIR, _>(UnbalancedLoopError::UnterminatedOpener)
                <==> has_unterminated_opener(token_brackets(data@)),
            result matches Ok(ir) ==> ir.nodes() == ir_of(data@) && ir.well_formed(),
    {
        let ghost tb = token_brackets(data@);
        let mut instrs: Vec<IR> = Vec::new();
        let mut jstack: Vec<usize> = Vec::new();
        let mut i: usize = 0;
        while i < data.len()
            invariant
                i <= data.len(),
                tb == token_brackets(data@),
                instrs.len() <= i,
                shapes(instrs@) == fuse(data@.take(i as int)),
                forall|m: int| 0 <= m <= i ==> #[trigger] depth(tb, m) >= 0,
                jstack.len() == depth(tb, i as int),
                linking(instrs@, jstack@),
                compact(instrs@),
                forall|a: int|
                    0 <= a < instrs.len() ==> match #[trigger] instrs[a] {
                        IR::SHR(x) => x <= i,
                        IR::SHL(x) => x <= i,
                        _ => true,
                    },
            decreases data.len() - i,
        {
            let token: OpenCode = data[i];
            let ghost before = instrs@;
            let ghost stack = jstack@;
            let end: usize = instrs.len();
            proof {
                assert(data@.take(i + 1).drop_last() =~= data@.take(i as int));
                assert(fuse(data@.take(i + 1)) == absorb(shapes(before), token));
                assert(tb[i as int] == token.bracket());
                assert(depth(tb, i + 1) == depth(tb, i as int) + tb[i as int].weight());
                assert(last_of(shapes(before)) == match last_of(before) {
                    Some(node) => Some(node.shape()),
                    None => None,
                });
            }
            match token {
                OpenCode::SHR => match last_node(&instrs) {
                    Some(IR::SHR(x)) => {
                        instrs.set(end - 1, IR::SHR(x + 1));
                        proof {
                            lemma_link_keep(before, stack, IR::SHR((x + 1) as usize));
                        }
                    },
                    _ => {
                        instrs.push(IR::SHR(1));
                        proof {
                            lemma_link_plain(before, stack, IR::SHR(1));
                        }
                    },
                },
                OpenCode::SHL => match last_node(&instrs) {
                    Some(IR::SHL(x)) => {
                        instrs.set(end - 1, IR::SHL(x + 1));
                        proof {
                            lemma_link_keep(before, stack, IR::SHL((x + 1) as usize));
                        }
                    },
                    _ => {
                        instrs.push(IR::SHL(1));
                        proof {
                            lemma_link_plain(before, stack, IR::SHL(1));
                        }
                    },
                },
                OpenCode::ADD => match last_node(&instrs) {
                    Some(IR::ADD(x)) => {
                        let sum: u8 = x.wrapping_add(1);
                        instrs.set(end - 1, IR::ADD(sum));
                        proof {
                            lemma_link_keep(before, stack, IR::ADD(sum));
                        }
                    },
                    _ => {
                        instrs.push(IR::ADD(1));
                        proof {
                            lemma_link_plain(before, stack, IR::ADD(1));
                        }
                    },
                },
                OpenCode::SUB => match last_node(&instrs) {
                    Some(IR::SUB(x)) => {
                        let sum: u8 = x.wrapping_add(1);
                        instrs.set(end - 1, IR::SUB(sum));
                        proof {
                            lemma_link_keep(before, stack, IR::SUB(sum));
                        }
                    },
                    _ => {
                        instrs.push(IR::SUB(1));
                        proof {
                            lemma_link_plain(before, stack, IR::SUB(1));
                        }
                    },
                },
                OpenCode::PUTCHAR => {
                    instrs.push(IR::PUTCHAR);
                    proof {
                        lemma_link_plain(before, stack, IR::PUTCHAR);
                    }
                },
                OpenCode::GETCHAR => {
                    instrs.push(IR::GETCHAR);
                    proof {
                        lemma_link_plain(before, stack, IR::GETCHAR);
                    }
                },
                OpenCode::LB => {
                    instrs.push(IR::JIZ(0));
                    jstack.push(end);
                    proof {
                        lemma_link_open(before, stack);
                    }
                },
                OpenCode::RB => {
                    if jstack.len() == 0 {
                        proof {
                            assert(depth(tb, i + 1) < 0);
                            lemma_trichotomy(tb);
                        }
                        return Err(UnbalancedLoopError::UnmatchedCloser);
                    }
                    let js: usize = jstack[jstack.len() - 1];
                    jstack.pop();
                    proof {
                        lemma_link_close(before, stack);
                    }
                    instrs.push(IR::JNZ(js));
                    instrs.set(js, IR::JIZ(end));
                },
            }
            i = i + 1;
            assert(shapes(instrs@) =~= fuse(data@.take(i as int)));
        }
        proof {
            lemma_trichotomy(tb);
            assert(data@.take(data.len() as int) =~= data@);
        }
        if jstack.len() > 0 {
            assert(never_negative(tb));
            return Err(UnbalancedLoopError::UnterminatedOpener);
        }
        proof {
            assert(jstack@ =~= Seq::<usize>::empty());
            lemma_link_done(instrs@);
        }
        Ok(BrainfuckCodeIR { instrs })
    }

    /// The nodes of the program.
    pub fn instrs(&self) -> (instrs: &Vec<IR>)
        ensures
            instrs@ == self.nodes(),
            self.well_formed(),
    {
        proof {
            use_type_invariant(self);
        }
        &self.instrs
    }

    /// Gives up the program for its nodes.
    pub fn into_instrs(self) -> (instrs: Vec<IR>)
        ensures
            instrs@ == self.nodes(),
            well_formed_ir(instrs@),
    {
        proof {
            use_type_invariant(&self);
        }
        self.instrs
    }
}

} // verus!
