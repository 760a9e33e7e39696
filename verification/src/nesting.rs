//! The theory of loop nesting, shared by tokens and by the intermediate representation.
//!
//! A program is seen here as a sequence of [`Bracket`]s. Its nesting depth before
//! position `k` is the number of loops opened minus the number closed among the first `k`
//! positions. A loop is a pair of an opener and the first later closer that brings the
//! depth back to what it was before the opener.

use vstd::prelude::*;

verus! {

/// The part an instruction plays in loop nesting.
pub enum Bracket {
    /// Opens a loop.
    Open,
    /// Closes the innermost open loop.
    Close,
    /// Neither opens nor closes a loop.
    Plain,
}

impl Bracket {
    /// What the instruction contributes to the nesting depth.
    pub open spec fn weight(self) -> int {
        match self {
            Bracket::Open => 1,
            Bracket::Close => -1,
            Bracket::Plain => 0,
        }
    }
}

/// The nesting depth before position `k`: openers minus closers among `s[0..k]`.
pub open spec fn depth(s: Seq<Bracket>, k: int) -> int
    decreases k,
{
    if k <= 0 {
        0
    } else {
        depth(s, k - 1) + s[k - 1].weight()
    }
}

/// No prefix closes more loops than it opens.
pub open spec fn never_negative(s: Seq<Bracket>) -> bool {
    forall|k: int| 0 <= k <= s.len() ==> #[trigger] depth(s, k) >= 0
}

/// Some prefix closes a loop that was never opened.
pub open spec fn has_unmatched_closer(s: Seq<Bracket>) -> bool {
    exists|k: int| 0 <= k <= s.len() && #[trigger] depth(s, k) < 0
}

/// Every closer has an opener before it, but some opener is never closed.
pub open spec fn has_unterminated_opener(s: Seq<Bracket>) -> bool {
    never_negative(s) && depth(s, s.len() as int) > 0
}

/// Every loop that is opened is closed, and nothing else is closed.
pub open spec fn balanced(s: Seq<Bracket>) -> bool {
    never_negative(s) && depth(s, s.len() as int) == 0
}

/// Positions `open` and `close` delimit one loop: the closer is the first position after the
/// opener at which the depth returns to its value before the opener.
pub open spec fn is_pair(s: Seq<Bracket>, open: int, close: int) -> bool {
    &&& 0 <= open < close < s.len()
    &&& s[open] == Bracket::Open
    &&& s[close] == Bracket::Close
    &&& depth(s, close + 1) == depth(s, open)
    &&& forall|k: int| open < k <= close ==> #[trigger] depth(s, k) > depth(s, open)
}

/// The other end of the loop that position `i` belongs to.
pub open spec fn partner(s: Seq<Bracket>, i: int) -> int {
    if s[i] == Bracket::Open {
        choose|j: int| is_pair(s, i, j)
    } else {
        choose|j: int| is_pair(s, j, i)
    }
}

/// The opener at `open` sits at depth `level` and its loop is still open before position `k`.
pub open spec fn open_until(s: Seq<Bracket>, open: int, level: int, k: int) -> bool {
    &&& 0 <= open < k
    &&& s[open] == Bracket::Open
    &&& depth(s, open) == level
    &&& forall|m: int| open < m <= k ==> #[trigger] depth(s, m) > level
}

/// Position `a` is an opener that the stack of open loops still holds.
pub open spec fn pending(s: Seq<Bracket>, stack: Seq<usize>, a: int) -> bool {
    &&& s[a] == Bracket::Open
    &&& 0 <= depth(s, a) < stack.len()
    &&& stack[depth(s, a)] == a
}

/// Positions `a` and `b` are the two ends of one loop, `a` being either end.
pub open spec fn linked(s: Seq<Bracket>, a: int, b: int) -> bool {
    if s[a] == Bracket::Open {
        is_pair(s, a, b)
    } else {
        is_pair(s, b, a)
    }
}

/// Exactly one of three things holds of a program: it is balanced, it closes a loop it never
/// opened, or it leaves a loop open.
pub proof fn lemma_trichotomy(s: Seq<Bracket>)
    ensures
        balanced(s) || has_unmatched_closer(s) || has_unterminated_opener(s),
        !(balanced(s) && has_unmatched_closer(s)),
        !(balanced(s) && has_unterminated_opener(s)),
        !(has_unmatched_closer(s) && has_unterminated_opener(s)),
{
    if !never_negative(s) {
        let k = choose|k: int| 0 <= k <= s.len() && !(#[trigger] depth(s, k) >= 0);
        assert(depth(s, k) < 0);
    }
}

/// The depth before `k` depends only on the first `k` positions.
pub proof fn lemma_depth_agrees(a: Seq<Bracket>, b: Seq<Bracket>, k: int)
    requires
        0 <= k <= a.len(),
        k <= b.len(),
        forall|m: int| 0 <= m < k ==> a[m] == b[m],
    ensures
        depth(a, k) == depth(b, k),
    decreases k,
{
    if k > 0 {
        lemma_depth_agrees(a, b, k - 1);
    }
}

/// Two programs that agree on their first `n` positions have the same depths there.
pub proof fn lemma_depths_agree(a: Seq<Bracket>, b: Seq<Bracket>, n: int)
    requires
        0 <= n <= a.len(),
        n <= b.len(),
        forall|m: int| 0 <= m < n ==> a[m] == b[m],
    ensures
        forall|k: int|
            #![trigger depth(a, k)]
            #![trigger depth(b, k)]
            0 <= k <= n ==> depth(a, k) == depth(b, k),
{
    assert forall|k: int|
        #![trigger depth(a, k)]
        #![trigger depth(b, k)]
        0 <= k <= n implies depth(a, k) == depth(b, k) by {
        lemma_depth_agrees(a, b, k);
    }
}

/// A loop stays the same loop in every program that agrees up to its closer.
pub proof fn lemma_pair_agrees(a: Seq<Bracket>, b: Seq<Bracket>, open: int, close: int)
    requires
        is_pair(a, open, close),
        close < b.len(),
        forall|m: int| 0 <= m <= close ==> a[m] == b[m],
    ensures
        is_pair(b, open, close),
{
    lemma_depths_agree(a, b, close + 1);
}

/// An opener closes at one position only.
pub proof fn lemma_closer_unique(s: Seq<Bracket>, open: int, c1: int, c2: int)
    requires
        is_pair(s, open, c1),
        is_pair(s, open, c2),
    ensures
        c1 == c2,
{
    if c1 < c2 {
        assert(depth(s, c1 + 1) > depth(s, open));
    } else if c2 < c1 {
        assert(depth(s, c2 + 1) > depth(s, open));
    }
}

/// A closer closes one opener only.
pub proof fn lemma_opener_unique(s: Seq<Bracket>, o1: int, o2: int, close: int)
    requires
        is_pair(s, o1, close),
        is_pair(s, o2, close),
    ensures
        o1 == o2,
{
    if o1 < o2 {
        assert(depth(s, o2) > depth(s, o1));
    } else if o2 < o1 {
        assert(depth(s, o1) > depth(s, o2));
    }
}

/// Both ends of a loop name each other as partner.
pub proof fn lemma_partner(s: Seq<Bracket>, open: int, close: int)
    requires
        is_pair(s, open, close),
    ensures
        partner(s, open) == close,
        partner(s, close) == open,
{
    lemma_closer_unique(s, open, close, partner(s, open));
    lemma_opener_unique(s, open, partner(s, close), close);
}

/// Searching forward from an opener whose loop is still open at `k` finds its closer.
proof fn lemma_seek_closer(s: Seq<Bracket>, open: int, k: int) -> (close: int)
    requires
        0 <= open < k <= s.len(),
        s[open] == Bracket::Open,
        depth(s, s.len() as int) <= depth(s, open),
        forall|m: int| open < m <= k ==> #[trigger] depth(s, m) > depth(s, open),
    ensures
        is_pair(s, open, close),
    decreases s.len() - k,
{
    assert(depth(s, k) > depth(s, open));
    assert(k < s.len());
    assert(depth(s, k + 1) == depth(s, k) + s[k].weight());
    if depth(s, k + 1) == depth(s, open) {
        k
    } else {
        lemma_seek_closer(s, open, k + 1)
    }
}

/// Searching backward from a closer finds its opener.
proof fn lemma_seek_opener(s: Seq<Bracket>, close: int, k: int) -> (open: int)
    requires
        0 <= k < close < s.len(),
        s[close] == Bracket::Close,
        never_negative(s),
        forall|m: int| k < m <= close ==> #[trigger] depth(s, m) > depth(s, close + 1),
    ensures
        is_pair(s, open, close),
    decreases k,
{
    assert(depth(s, k + 1) > depth(s, close + 1));
    if depth(s, k) == depth(s, close + 1) {
        k
    } else {
        assert(depth(s, k) > depth(s, close + 1));
        assert(depth(s, close + 1) >= 0);
        assert(depth(s, 0) == 0);
        lemma_seek_opener(s, close, k - 1)
    }
}

/// In a program that leaves no loop open, every opener has its closer.
pub proof fn lemma_opener_has_closer(s: Seq<Bracket>, open: int) -> (close: int)
    requires
        never_negative(s),
        depth(s, s.len() as int) == 0,
        0 <= open < s.len(),
        s[open] == Bracket::Open,
    ensures
        is_pair(s, open, close),
        partner(s, open) == close,
{
    assert(depth(s, open) >= 0);
    assert(depth(s, open + 1) == depth(s, open) + 1);
    let close = lemma_seek_closer(s, open, open + 1);
    lemma_partner(s, open, close);
    close
}

/// In a program that never closes an unopened loop, every closer has its opener.
pub proof fn lemma_closer_has_opener(s: Seq<Bracket>, close: int) -> (open: int)
    requires
        never_negative(s),
        0 <= close < s.len(),
        s[close] == Bracket::Close,
    ensures
        is_pair(s, open, close),
        partner(s, close) == open,
{
    assert(depth(s, close + 1) == depth(s, close) - 1);
    assert(depth(s, close + 1) >= 0);
    assert(depth(s, 0) == 0);
    let open = lemma_seek_opener(s, close, close - 1);
    lemma_partner(s, open, close);
    open
}

} // verus!
