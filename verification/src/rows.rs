//! The expandable tree: which rows are visible.

use vstd::prelude::*;

use crate::scanner::{child_ok, holds, is_tree, parent_ok, visits, visits_below, Node, Tree};

verus! {

/// A node and its depth, as positions.
pub open spec fn row_views(v: Seq<(usize, usize)>) -> Seq<(int, int)> {
    Seq::new(v.len(), |i: int| (v[i].0 as int, v[i].1 as int))
}

/// The visible rows from node `i` at depth `d` on: the node, then, if it is
/// expanded, the rows of each child in turn.
pub open spec fn rows_from(n: Seq<Node>, expanded: Seq<bool>, i: int, d: int) -> Seq<(int, int)>
    decreases n.len() - i, 0int, 0int,
{
    if 0 <= i < n.len() {
        seq![(i, d)] + if expanded[i] {
            rows_of_kids(n, expanded, i, d, 0)
        } else {
            Seq::empty()
        }
    } else {
        Seq::empty()
    }
}

/// The visible rows of the children of node `i` from the `k`th on.
pub open spec fn rows_of_kids(n: Seq<Node>, expanded: Seq<bool>, i: int, d: int, k: int) -> Seq<(int, int)>
    decreases n.len() - i - 1, 1int, n[i].children@.len() - k,
    when 0 <= i < n.len()
{
    if k >= n[i].children@.len() {
        Seq::empty()
    } else {
        let c = n[i].children@[k] as int;
        (if i < c < n.len() {
            rows_from(n, expanded, c, d + 1)
        } else {
            Seq::empty()
        }) + rows_of_kids(n, expanded, i, d, k + 1)
    }
}

spec fn stack_rows(n: Seq<Node>, expanded: Seq<bool>, stack: Seq<(usize, usize)>) -> Seq<(int, int)>
    decreases stack.len(),
{
    if stack.len() == 0 {
        Seq::empty()
    } else {
        rows_from(n, expanded, stack.last().0 as int, stack.last().1 as int) + stack_rows(n, expanded, stack.drop_last())
    }
}

spec fn stack_visits(n: Seq<Node>, stack: Seq<(usize, usize)>) -> nat
    decreases stack.len(),
{
    if stack.len() == 0 {
        0
    } else {
        stack_visits(n, stack.drop_last()) + visits(n, stack.last().0 as int)
    }
}

/// What the children of node `i` from the `k`th on weigh.
spec fn visits_from(n: Seq<Node>, i: int, k: int) -> int {
    visits_below(n, i, n[i].children@.len() as int) - visits_below(n, i, k)
}

proof fn lemma_visits_grow(n: Seq<Node>, i: int, j: int, k: int)
    requires
        0 <= i < n.len(),
        0 <= j <= k,
    ensures
        visits_below(n, i, j) <= visits_below(n, i, k),
    decreases k,
{
    if j < k {
        lemma_visits_grow(n, i, j, k - 1);
    }
}

/// The visible rows of the tree: node and depth.
pub fn visible_rows(t: &Tree, expanded: &Vec<bool>) -> (r: Vec<(usize, usize)>)
    requires
        t.wf(),
        expanded@.len() == t.nodes@.len(),
    ensures
        row_views(r@) == rows_from(t.nodes@, expanded@, 0, 0),
        forall|k: int| 0 <= k < r@.len() ==> (#[trigger] r@[k]).0 < t.nodes@.len(),
{
    let ghost (n, ex) = (t.nodes@, expanded@);
    let ghost all = rows_from(n, ex, 0, 0);
    let mut out: Vec<(usize, usize)> = Vec::new();
    let mut stack: Vec<(usize, usize)> = vec![(0usize, 0usize)];
    proof {
        assert(stack@.drop_last() =~= Seq::empty());
        assert(stack_rows(n, ex, stack@.drop_last()) =~= Seq::empty());
        assert(stack@.last() == (0usize, 0usize));
        assert(stack_rows(n, ex, stack@) =~= all);
        assert(row_views(out@) =~= Seq::empty());
        assert(row_views(out@) + stack_rows(n, ex, stack@) =~= all);
    }
    while stack.len() > 0
        invariant
            t.wf(),
            n == t.nodes@,
            ex == expanded@,
            ex.len() == n.len(),
            forall|j: int| 0 <= j < stack@.len() ==> (#[trigger] stack@[j]).0 < n.len() && stack@[j].1 <= stack@[j].0,
            forall|k: int| 0 <= k < out@.len() ==> (#[trigger] out@[k]).0 < n.len(),
            row_views(out@) + stack_rows(n, ex, stack@) == all,
        decreases stack_visits(n, stack@),
    {
        let ghost before = stack@;
        let ghost had = row_views(out@);
        let (i, d): (usize, usize) = stack.pop().unwrap();
        let ghost tail = stack@;
        proof {
            assert((i, d) == before[before.len() - 1]);
            assert(tail =~= before.drop_last());
            assert forall|j: int| 0 <= j < tail.len() implies (#[trigger] tail[j]).0 < n.len() && tail[j].1 <= tail[j].0 by {
                assert(tail[j] == before[j]);
            }
        }
        let ghost out0 = out@;
        out.push((i, d));
        assert(row_views(out@) =~= had.push((i as int, d as int)));
        if expanded[i] {
            let kids: usize = t.nodes[i].children.len();
            let mut k: usize = kids;
            proof {
                assert(rows_of_kids(n, ex, i as int, d as int, kids as int) =~= Seq::empty());
                assert(Seq::<(int, int)>::empty() + stack_rows(n, ex, tail) =~= stack_rows(n, ex, tail));
            }
            while k > 0
                invariant
                    t.wf(),
                    n == t.nodes@,
                    ex == expanded@,
                    ex.len() == n.len(),
                    i < n.len(),
                    d <= i,
                    kids == n[i as int].children@.len(),
                    k <= kids,
                    forall|j: int| 0 <= j < stack@.len() ==> (#[trigger] stack@[j]).0 < n.len() && stack@[j].1 <= stack@[j].0,
                    stack_rows(n, ex, stack@) == rows_of_kids(n, ex, i as int, d as int, k as int) + stack_rows(n, ex, tail),
                    stack_visits(n, stack@) <= stack_visits(n, tail) + visits_from(n, i as int, k as int),
                decreases k,
            {
                k -= 1;
                proof {
                    assert(child_ok(n, i as int, k as int));
                }
                let ghost stack0 = stack@;
                let c: usize = t.nodes[i].children[k];
                stack.push((c, d + 1));
                proof {
                    assert(stack@.drop_last() =~= stack0);
                    assert(stack_rows(n, ex, stack@) =~= rows_of_kids(n, ex, i as int, d as int, k as int) + stack_rows(n, ex, tail));
                }
            }
        }
        proof {
            lemma_visits_grow(n, i as int, 0, n[i as int].children@.len() as int);
            assert(row_views(out@) + stack_rows(n, ex, stack@) =~= had + stack_rows(n, ex, before));
        }
    }
    assert(row_views(out@) + Seq::<(int, int)>::empty() =~= row_views(out@));
    out
}

/// Node `i` is expanded once every directory that holds `idx` is.
pub open spec fn opened(n: Seq<Node>, expanded: Seq<bool>, idx: int) -> Seq<bool> {
    Seq::new(expanded.len(), |i: int| expanded[i] || (i != idx && holds(n, i, idx)))
}

/// Expand every directory that holds node `idx`.
pub fn reveal_node(t: &Tree, expanded: &mut Vec<bool>, idx: usize)
    requires
        t.wf(),
        old(expanded)@.len() == t.nodes@.len(),
        idx < t.nodes@.len(),
    ensures
        final(expanded)@ == opened(t.nodes@, old(expanded)@, idx as int),
{
    let ghost n = t.nodes@;
    let ghost start = expanded@;
    let mut cur: usize = idx;
    proof {
        assert forall|i: int| 0 <= i < n.len() && holds(n, i, idx as int) implies i <= idx by {
            lemma_holds_below(n, i, idx as int);
        }
    }
    while cur > 0
        invariant
            t.wf(),
            n == t.nodes@,
            start.len() == n.len(),
            expanded@.len() == n.len(),
            idx < n.len(),
            cur <= idx,
            holds(n, cur as int, idx as int),
            forall|i: int|
                0 <= i < n.len() ==> #[trigger] expanded@[i] == (start[i] || (i != idx && i >= cur && holds(n, i, idx as int))),
        decreases cur,
    {
        assert(parent_ok(n, cur as int));
        let p: usize = match t.nodes[cur].parent {
            Some(p) => p,
            None => 0,
        };
        let ghost before = expanded@;
        expanded.set(p, true);
        proof {
            lemma_holds_up(n, p as int, cur as int, idx as int);
            assert forall|i: int| 0 <= i < n.len() implies #[trigger] expanded@[i] == (start[i] || (i != idx && i >= p && holds(
                n,
                i,
                idx as int,
            ))) by {
                assert(before[i] == (start[i] || (i != idx && i >= cur && holds(n, i, idx as int))));
                if p < i < cur && holds(n, i, idx as int) {
                    lemma_holds_chain(n, i, cur as int, idx as int);
                    lemma_holds_below(n, i, p as int);
                }
            }
        }
        cur = p;
    }
    assert(expanded@ =~= opened(n, start, idx as int));
}

/// Of two nodes that hold a third, the one that stands first holds the other.
pub proof fn lemma_holds_chain(n: Seq<Node>, a: int, b: int, idx: int)
    requires
        is_tree(n),
        0 <= idx < n.len(),
        holds(n, a, idx),
        holds(n, b, idx),
        a < b,
    ensures
        holds(n, a, b),
    decreases idx,
{
    if b != idx {
        assert(parent_ok(n, idx));
        let p = n[idx].parent->0 as int;
        if a == idx {
            lemma_holds_below(n, b, idx);
        }
        lemma_holds_chain(n, a, b, p);
    }
}

/// What holds a node that holds another holds that as well.
pub proof fn lemma_holds_up(n: Seq<Node>, p: int, cur: int, idx: int)
    requires
        is_tree(n),
        0 <= cur < n.len(),
        0 <= idx < n.len(),
        holds(n, cur, idx),
        n[cur].parent == Some(p as usize),
        0 <= p < cur,
    ensures
        holds(n, p, idx),
    decreases idx,
{
    if cur == idx {
        assert(holds(n, p, p));
    } else {
        if idx > 0 {
            assert(parent_ok(n, idx));
        }
        lemma_holds_up(n, p, cur, n[idx].parent->0 as int);
    }
}

/// A node holds nothing that stands before it.
pub proof fn lemma_holds_below(n: Seq<Node>, a: int, i: int)
    requires
        is_tree(n),
        0 <= i < n.len(),
        holds(n, a, i),
    ensures
        a <= i,
    decreases i,
{
    if a != i {
        assert(parent_ok(n, i));
        lemma_holds_below(n, a, n[i].parent->0 as int);
    }
}

/// A row that is folded stands alone; below one that is unfolded stand the rows
/// of all its children, one level deeper and in their order.
pub proof fn law_unfolded_rows_show_their_children(n: Seq<Node>, expanded: Seq<bool>, i: int, d: int, k: int, x: (int, int))
    requires
        0 <= i < n.len(),
        0 <= k < n[i].children@.len(),
        i < n[i].children@[k] < n.len(),
    ensures
        rows_from(n, expanded, i, d).len() > 0,
        rows_from(n, expanded, i, d)[0] == (i, d),
        !expanded[i] ==> rows_from(n, expanded, i, d) == seq![(i, d)],
        expanded[i] && rows_from(n, expanded, n[i].children@[k] as int, d + 1).contains(x) ==> rows_from(n, expanded, i, d).contains(x),
        expanded[i] ==> rows_from(n, expanded, i, d).contains((n[i].children@[k] as int, d + 1)),
{
    let kids = rows_of_kids(n, expanded, i, d, 0);
    let c = n[i].children@[k] as int;
    let own = rows_from(n, expanded, c, d + 1);
    if expanded[i] {
        assert(own[0] == (c, d + 1));
        assert(own.contains((c, d + 1)));
        lemma_kid_rows(n, expanded, i, d, 0, k, (c, d + 1));
        let v = choose|v: int| 0 <= v < kids.len() && kids[v] == (c, d + 1);
        assert((seq![(i, d)] + kids)[v + 1] == (c, d + 1));
        if own.contains(x) {
            lemma_kid_rows(n, expanded, i, d, 0, k, x);
            let w = choose|w: int| 0 <= w < kids.len() && kids[w] == x;
            assert((seq![(i, d)] + kids)[w + 1] == x);
        }
    } else {
        assert(seq![(i, d)] + Seq::<(int, int)>::empty() =~= seq![(i, d)]);
    }
}

proof fn lemma_kid_rows(n: Seq<Node>, expanded: Seq<bool>, i: int, d: int, from: int, k: int, x: (int, int))
    requires
        0 <= i < n.len(),
        0 <= from <= k < n[i].children@.len(),
        i < n[i].children@[k] < n.len(),
        rows_from(n, expanded, n[i].children@[k] as int, d + 1).contains(x),
    ensures
        rows_of_kids(n, expanded, i, d, from).contains(x),
    decreases k - from,
{
    let c = n[i].children@[from] as int;
    let a = if i < c < n.len() { rows_from(n, expanded, c, d + 1) } else { Seq::empty() };
    let b = rows_of_kids(n, expanded, i, d, from + 1);
    if from < k {
        lemma_kid_rows(n, expanded, i, d, from + 1, k, x);
        let w = choose|w: int| 0 <= w < b.len() && b[w] == x;
        assert((a + b)[a.len() + w] == x);
    } else {
        let w = choose|w: int| 0 <= w < a.len() && a[w] == x;
        assert((a + b)[w] == x);
    }
}

/// Showing a node unfolds every folder above it, and changes no other.
pub proof fn law_showing_a_node_unfolds_what_is_above(n: Seq<Node>, expanded: Seq<bool>, idx: int, a: int)
    requires
        0 <= a < expanded.len(),
    ensures
        opened(n, expanded, idx).len() == expanded.len(),
        a != idx && holds(n, a, idx) ==> opened(n, expanded, idx)[a],
        a == idx || !holds(n, a, idx) ==> opened(n, expanded, idx)[a] == expanded[a],
{
}

} // verus!
