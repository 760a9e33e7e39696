//! Lowering of the intermediate representation to an abstract native routine.
//!
//! The routine keeps the tape pointer in one register from its first instruction to its
//! last. Every node becomes one instruction. The two ends of a loop are connected by a
//! pair of labels that is taken fresh at the loop's head, kept on a stack while the loop is
//! open, and popped at the loop's tail. A code emitter follows the routine instruction by
//! instruction and needs no knowledge of the program's structure.

use crate::ir::{node_brackets, well_formed_ir, BrainfuckCodeIR, IR};
use crate::nesting::{
    depth, is_pair, lemma_closer_unique, lemma_opener_unique, never_negative, open_until,
    Bracket,
};
use vstd::prelude::*;

verus! {

/// One instruction of the abstract native routine.
#[derive(Debug, PartialEq, Eq, Clone, Copy, Structural)]
pub enum Native {
    /// Bind the pointer register to the routine's first argument, the base of the tape.
    Enter,
    /// Add the count to the pointer register.
    PointerAdd(usize),
    /// Subtract the count from the pointer register.
    PointerSub(usize),
    /// Add the count to the byte that the pointer register addresses.
    CellAdd(u8),
    /// Subtract the count from the byte that the pointer register addresses.
    CellSub(u8),
    /// Call the host's output routine with the byte that the pointer register addresses.
    Output,
    /// Call the host's input routine and store its byte where the pointer register points.
    Input,
    /// Compare the current byte with zero, branch to `exit` if it is zero, and place `entry`
    /// here, before the loop body.
    LoopHead { entry: usize, exit: usize },
    /// Compare the current byte with zero, branch to `entry` if it is not zero, and place
    /// `exit` here, after the loop.
    LoopTail { entry: usize, exit: usize },
    /// Return to the caller.
    Leave,
}

/// An abstract native routine and the number of labels it uses. Its labels are the numbers
/// below `labels`.
#[derive(Debug, PartialEq, Eq)]
pub struct Routine {
    pub ops: Vec<Native>,
    pub labels: usize,
}

/// The number of loops that open before node `i`.
pub open spec fn loops_before(nodes: Seq<IR>, i: int) -> nat
    decreases i,
{
    if i <= 0 {
        0
    } else {
        loops_before(nodes, i - 1) + if nodes[i - 1] is JIZ {
            1nat
        } else {
            0nat
        }
    }
}

/// The entry label of the loop that opens at node `head`. Its exit label is the next number.
pub open spec fn entry_label(nodes: Seq<IR>, head: int) -> nat {
    2 * loops_before(nodes, head)
}

/// The instruction that node `i` is lowered to. A loop's tail carries the labels of the head
/// that its jump names.
pub open spec fn lower_node(nodes: Seq<IR>, i: int) -> Native {
    match nodes[i] {
        IR::SHR(x) => Native::PointerAdd(x),
        IR::SHL(x) => Native::PointerSub(x),
        IR::ADD(x) => Native::CellAdd(x),
        IR::SUB(x) => Native::CellSub(x),
        IR::PUTCHAR => Native::Output,
        IR::GETCHAR => Native::Input,
        IR::JIZ(_) => Native::LoopHead {
            entry: entry_label(nodes, i) as usize,
            exit: (entry_label(nodes, i) + 1) as usize,
        },
        IR::JNZ(head) => Native::LoopTail {
            entry: entry_label(nodes, head as int) as usize,
            exit: (entry_label(nodes, head as int) + 1) as usize,
        },
    }
}

/// The instructions that the first `k` nodes are lowered to.
pub open spec fn lowered_body(nodes: Seq<IR>, k: int) -> Seq<Native> {
    Seq::new(k as nat, |i: int| lower_node(nodes, i))
}

/// The whole routine of a program: the binding of the pointer register, one instruction for
/// each node, and the return.
pub open spec fn lowered(nodes: Seq<IR>) -> Seq<Native> {
    seq![Native::Enter] + lowered_body(nodes, nodes.len() as int) + seq![Native::Leave]
}

/// The label pair at `level` of the stack belongs to the loop that is open at that level.
pub open spec fn holds_labels_of(
    nodes: Seq<IR>,
    heads: Seq<int>,
    pairs: Seq<(usize, usize)>,
    level: int,
    k: int,
) -> bool {
    &&& open_until(node_brackets(nodes), heads[level], level, k)
    &&& pairs[level].0 == entry_label(nodes, heads[level])
    &&& pairs[level].1 == entry_label(nodes, heads[level]) + 1
}

/// Before node `k`, the stack holds the label pairs of exactly the loops that are open,
/// innermost last; `heads` names the nodes at which those loops open.
pub open spec fn label_stack(
    nodes: Seq<IR>,
    heads: Seq<int>,
    pairs: Seq<(usize, usize)>,
    k: int,
) -> bool {
    &&& heads.len() == pairs.len()
    &&& pairs.len() == depth(node_brackets(nodes), k)
    &&& forall|d: int| 0 <= d < heads.len() ==> #[trigger] holds_labels_of(nodes, heads, pairs, d, k)
}

/// A node that is no jump leaves the label stack as it is.
proof fn lemma_stack_plain(nodes: Seq<IR>, heads: Seq<int>, pairs: Seq<(usize, usize)>, k: int)
    requires
        0 <= k < nodes.len(),
        label_stack(nodes, heads, pairs, k),
        nodes[k].bracket() == Bracket::Plain,
    ensures
        label_stack(nodes, heads, pairs, k + 1),
{
    let s = node_brackets(nodes);
    assert(depth(s, k + 1) == depth(s, k) + s[k].weight());
    assert forall|d: int| 0 <= d < heads.len() implies #[trigger] holds_labels_of(
        nodes,
        heads,
        pairs,
        d,
        k + 1,
    ) by {
        assert(holds_labels_of(nodes, heads, pairs, d, k));
    }
}

/// A loop head pushes its fresh label pair.
proof fn lemma_stack_push(nodes: Seq<IR>, heads: Seq<int>, pairs: Seq<(usize, usize)>, k: int)
    requires
        0 <= k < nodes.len(),
        label_stack(nodes, heads, pairs, k),
        nodes[k] is JIZ,
        entry_label(nodes, k) + 1 <= usize::MAX,
    ensures
        label_stack(
            nodes,
            heads.push(k),
            pairs.push((entry_label(nodes, k) as usize, (entry_label(nodes, k) + 1) as usize)),
            k + 1,
        ),
{
    let s = node_brackets(nodes);
    let heads2 = heads.push(k);
    let pairs2 = pairs.push(
        (entry_label(nodes, k) as usize, (entry_label(nodes, k) + 1) as usize),
    );
    assert(depth(s, k + 1) == depth(s, k) + s[k].weight());
    assert forall|d: int| 0 <= d < heads2.len() implies #[trigger] holds_labels_of(
        nodes,
        heads2,
        pairs2,
        d,
        k + 1,
    ) by {
        if d < heads.len() {
            assert(holds_labels_of(nodes, heads, pairs, d, k));
        }
    }
}

/// A loop tail finds on top of the stack the label pair of the head that its jump names,
/// and pops it.
proof fn lemma_stack_pop(
    nodes: Seq<IR>,
    heads: Seq<int>,
    pairs: Seq<(usize, usize)>,
    k: int,
    head: int,
)
    requires
        0 <= k < nodes.len(),
        label_stack(nodes, heads, pairs, k),
        nodes[k] is JNZ,
        never_negative(node_brackets(nodes)),
        is_pair(node_brackets(nodes), head, k),
    ensures
        pairs.len() > 0,
        pairs.last().0 == entry_label(nodes, head),
        pairs.last().1 == entry_label(nodes, head) + 1,
        label_stack(nodes, heads.drop_last(), pairs.drop_last(), k + 1),
{
    let s = node_brackets(nodes);
    let top = pairs.len() - 1;
    assert(depth(s, k + 1) == depth(s, k) + s[k].weight());
    assert(depth(s, k) > depth(s, head));
    assert(holds_labels_of(nodes, heads, pairs, top, k));
    assert(is_pair(s, heads[top], k));
    lemma_opener_unique(s, heads[top], head, k);
    let heads2 = heads.drop_last();
    let pairs2 = pairs.drop_last();
    assert forall|d: int| 0 <= d < heads2.len() implies #[trigger] holds_labels_of(
        nodes,
        heads2,
        pairs2,
        d,
        k + 1,
    ) by {
        assert(holds_labels_of(nodes, heads, pairs, d, k));
    }
}

/// The number of loops opened grows with the number of nodes passed.
pub proof fn lemma_loops_grow(nodes: Seq<IR>, a: int, b: int)
    requires
        0 <= a <= b,
    ensures
        loops_before(nodes, a) <= loops_before(nodes, b),
    decreases b,
{
    if a < b {
        lemma_loops_grow(nodes, a, b - 1);
    }
}

/// Different loops have different labels, and the entry label of a loop is not its exit
/// label.
pub proof fn lemma_labels_distinct(nodes: Seq<IR>, first: int, second: int)
    requires
        0 <= first < second < nodes.len(),
        nodes[first] is JIZ,
        nodes[second] is JIZ,
    ensures
        entry_label(nodes, first) + 1 < entry_label(nodes, second),
{
    lemma_loops_grow(nodes, first + 1, second);
}

/// Every label of a routine is below the number of nodes it was lowered from, so that it
/// is a machine number.
pub proof fn lemma_labels_bounded(nodes: Seq<IR>, head: int)
    requires
        depth(node_brackets(nodes), nodes.len() as int) == 0,
        0 <= head < nodes.len(),
        nodes[head] is JIZ,
    ensures
        entry_label(nodes, head) + 1 < entry_label(nodes, nodes.len() as int) <= nodes.len(),
{
    lemma_loops_grow(nodes, head + 1, nodes.len() as int);
    lemma_loops_within(nodes, nodes.len() as int);
}

/// Twice the number of loops opened among the first `k` nodes is at most `k` and the
/// number of loops still open.
proof fn lemma_loops_within(nodes: Seq<IR>, k: int)
    requires
        0 <= k <= nodes.len(),
    ensures
        entry_label(nodes, k) <= k + depth(node_brackets(nodes), k),
    decreases k,
{
    if k > 0 {
        lemma_loops_within(nodes, k - 1);
        assert(node_brackets(nodes)[k - 1] == nodes[k - 1].bracket());
    }
}

/// The routine is the binding of the pointer register, the instruction of every node in
/// order, and the return.
pub proof fn lemma_lowered_at(nodes: Seq<IR>, i: int)
    requires
        0 <= i < nodes.len(),
    ensures
        lowered(nodes).len() == nodes.len() + 2,
        lowered(nodes)[0] == Native::Enter,
        lowered(nodes)[i + 1] == lower_node(nodes, i),
        lowered(nodes)[nodes.len() as int + 1] == Native::Leave,
{
    let body = lowered_body(nodes, nodes.len() as int);
    assert(body.len() == nodes.len());
    assert(body[i] == lower_node(nodes, i));
    let front = seq![Native::Enter] + body;
    assert(front.len() == nodes.len() + 1);
    assert(front[i + 1] == body[i]);
    assert(front[0] == Native::Enter);
    assert(lowered(nodes) == front + seq![Native::Leave]);
}

/// The stack discipline mirrors the loops of the program: the head and the tail of one loop
/// carry the same pair of labels, in the routine's instructions at their nodes' places.
pub proof fn lemma_labels_pair_up(nodes: Seq<IR>, head: int, tail: int)
    requires
        nodes.len() <= usize::MAX,
        well_formed_ir(nodes),
        is_pair(node_brackets(nodes), head, tail),
    ensures
        ({
            let entry = entry_label(nodes, head) as usize;
            let exit = (entry_label(nodes, head) + 1) as usize;
            &&& entry == entry_label(nodes, head)
            &&& exit == entry + 1
            &&& lowered(nodes)[head + 1] == (Native::LoopHead { entry, exit })
            &&& lowered(nodes)[tail + 1] == (Native::LoopTail { entry, exit })
        }),
{
    let s = node_brackets(nodes);
    assert(s[head] == nodes[head].bracket());
    assert(s[tail] == nodes[tail].bracket());
    lemma_labels_bounded(nodes, head);
    lemma_lowered_at(nodes, head);
    lemma_lowered_at(nodes, tail);
    match nodes[tail] {
        IR::JNZ(named) => {
            assert(is_pair(s, named as int, tail));
            lemma_opener_unique(s, head, named as int, tail);
        },
        _ => {},
    }
}

/// The instruction places `label`: the label stands for the position just past it.
pub open spec fn places(op: Native, label: usize) -> bool {
    match op {
        Native::LoopHead { entry, exit } => entry == label,
        Native::LoopTail { entry, exit } => exit == label,
        _ => false,
    }
}

/// The label that the instruction branches to, if it branches.
pub open spec fn branch_of(op: Native) -> Option<usize> {
    match op {
        Native::LoopHead { entry, exit } => Some(exit),
        Native::LoopTail { entry, exit } => Some(entry),
        _ => None,
    }
}

/// The branches of the routine are the jumps of the program: the instruction of a jump
/// branches to a label that is placed exactly once, by the instruction of the node that the
/// jump names, so that the branch lands just past that instruction as the jump lands just
/// past that node.
pub proof fn lemma_branch_lands(nodes: Seq<IR>, at: int, k: int)
    requires
        nodes.len() <= usize::MAX,
        well_formed_ir(nodes),
        0 <= at < nodes.len(),
        0 <= k < lowered(nodes).len(),
    ensures
        match nodes[at] {
            IR::JIZ(target) => branch_of(lowered(nodes)[at + 1]) matches Some(label) && (places(
                lowered(nodes)[k],
                label,
            ) <==> k == target + 1),
            IR::JNZ(target) => branch_of(lowered(nodes)[at + 1]) matches Some(label) && (places(
                lowered(nodes)[k],
                label,
            ) <==> k == target + 1),
            _ => branch_of(lowered(nodes)[at + 1]) is None,
        },
{
    let s = node_brackets(nodes);
    lemma_lowered_at(nodes, at);
    assert(s[at] == nodes[at].bracket());
    let (head, tail) = match nodes[at] {
        IR::JIZ(target) => (at, target as int),
        IR::JNZ(target) => (target as int, at),
        _ => (0, 0),
    };
    if nodes[at] is JIZ || nodes[at] is JNZ {
        assert(is_pair(s, head, tail));
        lemma_node_places(nodes, head, tail, at);
        if 0 < k <= nodes.len() {
            lemma_lowered_at(nodes, k - 1);
            lemma_node_places(nodes, head, tail, k - 1);
        }
    }
}

/// Of all instructions of a routine, only the head of a loop places the loop's entry label
/// and only its tail places the loop's exit label.
proof fn lemma_node_places(nodes: Seq<IR>, head: int, tail: int, j: int)
    requires
        nodes.len() <= usize::MAX,
        depth(node_brackets(nodes), nodes.len() as int) == 0,
        is_pair(node_brackets(nodes), head, tail),
        0 <= j < nodes.len(),
        nodes[j] matches IR::JNZ(named) ==> is_pair(node_brackets(nodes), named as int, j),
    ensures
        entry_label(nodes, head) + 1 <= usize::MAX,
        places(lower_node(nodes, j), entry_label(nodes, head) as usize) <==> j == head,
        places(lower_node(nodes, j), (entry_label(nodes, head) + 1) as usize) <==> j == tail,
        j == head ==> branch_of(lower_node(nodes, j)) == Some(
            (entry_label(nodes, head) + 1) as usize,
        ),
        j == tail ==> branch_of(lower_node(nodes, j)) == Some(entry_label(nodes, head) as usize),
        nodes[j].bracket() == Bracket::Plain ==> branch_of(lower_node(nodes, j)) is None,
{
    let s = node_brackets(nodes);
    assert(s[head] == nodes[head].bracket());
    assert(s[tail] == nodes[tail].bracket());
    assert(s[j] == nodes[j].bracket());
    lemma_labels_bounded(nodes, head);
    match nodes[j] {
        IR::JIZ(_) => {
            lemma_labels_bounded(nodes, j);
            if j < head {
                lemma_labels_distinct(nodes, j, head);
            } else if head < j {
                lemma_labels_distinct(nodes, head, j);
            }
        },
        IR::JNZ(named) => {
            assert(s[named as int] == nodes[named as int].bracket());
            lemma_labels_bounded(nodes, named as int);
            if named < head {
                lemma_labels_distinct(nodes, named as int, head);
            } else if head < named {
                lemma_labels_distinct(nodes, head, named as int);
            } else {
                lemma_closer_unique(s, head, tail, j);
            }
            if j == tail {
                lemma_opener_unique(s, head, named as int, tail);
            }
        },
        _ => {},
    }
}

/// Lowers a program to its abstract native routine.
pub fn lower(code: &BrainfuckCodeIR) -> (routine: Routine)
    ensures
        routine.ops@ == lowered(code.nodes()),
        routine.labels == entry_label(code.nodes(), code.nodes().len() as int),
{
    let instrs = code.instrs();
    let ghost nodes = instrs@;
    let mut ops: Vec<Native> = Vec::new();
    ops.push(Native::Enter);
    let mut lr_loop: Vec<(usize, usize)> = Vec::new();
    let ghost mut heads: Seq<int> = Seq::empty();
    let mut fresh: usize = 0;
    let mut i: usize = 0;
    while i < instrs.len()
        invariant
            i <= instrs.len(),
            nodes == instrs@,
            well_formed_ir(nodes),
            ops.len() == i + 1,
            ops[0] == Native::Enter,
            forall|k: int| 0 <= k < i ==> #[trigger] ops[k + 1] == lower_node(nodes, k),
            fresh == entry_label(nodes, i as int),
            label_stack(nodes, heads, lr_loop@, i as int),
        decreases instrs.len() - i,
    {
        let ghost before = lr_loop@;
        let op: Native = match instrs[i] {
            IR::SHR(x) => {
                proof {
                    lemma_stack_plain(nodes, heads, before, i as int);
                }
                Native::PointerAdd(x)
            },
            IR::SHL(x) => {
                proof {
                    lemma_stack_plain(nodes, heads, before, i as int);
                }
                Native::PointerSub(x)
            },
            IR::ADD(x) => {
                proof {
                    lemma_stack_plain(nodes, heads, before, i as int);
                }
                Native::CellAdd(x)
            },
            IR::SUB(x) => {
                proof {
                    lemma_stack_plain(nodes, heads, before, i as int);
                }
                Native::CellSub(x)
            },
            IR::PUTCHAR => {
                proof {
                    lemma_stack_plain(nodes, heads, before, i as int);
                }
                Native::Output
            },
            IR::GETCHAR => {
                proof {
                    lemma_stack_plain(nodes, heads, before, i as int);
                }
                Native::Input
            },
            IR::JIZ(_) => {
                proof {
                    lemma_labels_bounded(nodes, i as int);
                    lemma_stack_push(nodes, heads, before, i as int);
                    heads = heads.push(i as int);
                }
                let entry: usize = fresh;
                let exit: usize = fresh + 1;
                fresh = fresh + 2;
                lr_loop.push((entry, exit));
                Native::LoopHead { entry, exit }
            },
            IR::JNZ(head) => {
                proof {
                    lemma_stack_pop(nodes, heads, before, i as int, head as int);
                    heads = heads.drop_last();
                }
                let pair: (usize, usize) = lr_loop[lr_loop.len() - 1];
                lr_loop.pop();
                Native::LoopTail { entry: pair.0, exit: pair.1 }
            },
        };
        assert(op == lower_node(nodes, i as int));
        ops.push(op);
        i = i + 1;
    }
    ops.push(Native::Leave);
    proof {
        let whole = lowered(nodes);
        assert(whole.len() == nodes.len() + 2);
        assert forall|k: int| 0 <= k < whole.len() implies ops@[k] == whole[k] by {
            if 0 < k <= nodes.len() {
                assert(ops@[(k - 1) + 1] == lower_node(nodes, k - 1));
                assert(whole[k] == lowered_body(nodes, nodes.len() as int)[k - 1]);
            }
        }
        assert(ops@ =~= whole);
    }
    Routine { ops, labels: fresh }
}

} // verus!
