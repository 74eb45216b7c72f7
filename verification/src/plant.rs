//! The arena of nodes: a built tree, laid out parents first.

use vstd::prelude::*;

use crate::path::copy_name;
use crate::order::total_of;
use crate::scan::{all_balanced, balanced, sizes, Tmp};
use crate::scanner::{child_ok, exact_name, is_tree, kids_once, parent_ok, Node};

verus! {

/// How many nodes a tree has.
pub open spec fn weight(t: Tmp) -> nat
    decreases t,
{
    1 + weights(t.children@)
}

pub open spec fn weights(list: Seq<Tmp>) -> nat
    decreases list,
{
    if list.len() == 0 {
        0
    } else {
        weights(list.drop_last()) + weight(list.last())
    }
}

/// Node `n` carries what `t` says of itself.
pub open spec fn carries(n: Node, t: Tmp) -> bool {
    &&& n.name@ == t.name@
    &&& n.raw is Some <==> t.raw is Some
    &&& n.exact() == exact_name(t.name@, t.raw)
    &&& n.kind == t.kind
    &&& n.size == t.size
    &&& n.files == t.files
    &&& n.markers == t.markers
    &&& n.unreadable == t.unreadable
}

/// Tree `t` is laid out from index `i` on, children behind their parent.
pub open spec fn planted(nodes: Seq<Node>, i: int, t: Tmp, parent: Option<usize>) -> bool
    decreases t,
{
    &&& 0 <= i
    &&& i + weight(t) <= nodes.len()
    &&& carries(nodes[i], t)
    &&& nodes[i].parent == parent
    &&& nodes[i].children@.len() == t.children@.len()
    &&& planted_all(nodes, nodes[i].children@, i + 1, t.children@, Some(i as usize))
}

/// The trees of `list` are laid out one behind the other from `at` on, at the
/// indices `kids`.
pub open spec fn planted_all(nodes: Seq<Node>, kids: Seq<usize>, at: int, list: Seq<Tmp>, parent: Option<usize>) -> bool
    decreases list,
{
    if list.len() == 0 {
        kids.len() == 0
    } else {
        let i = at + weights(list.drop_last());
        &&& kids.len() == list.len()
        &&& kids.last() == i
        &&& planted(nodes, i, list.last(), parent)
        &&& planted_all(nodes, kids.drop_last(), at, list.drop_last(), parent)
    }
}

proof fn lemma_weight_positive(list: Seq<Tmp>, k: int)
    requires
        0 <= k <= list.len(),
    ensures
        weights(list.take(k)) <= weights(list),
    decreases list.len(),
{
    if k < list.len() {
        assert(list.drop_last().take(k) =~= list.take(k));
        lemma_weight_positive(list.drop_last(), k);
    } else {
        assert(list.take(k) =~= list);
    }
}

/// A layout depends on its own nodes alone.
proof fn lemma_planted_frame(a: Seq<Node>, b: Seq<Node>, i: int, t: Tmp, parent: Option<usize>)
    requires
        planted(a, i, t, parent),
        i + weight(t) <= b.len(),
        forall|j: int| i <= j < i + weight(t) ==> a[j] == b[j],
    ensures
        planted(b, i, t, parent),
    decreases t,
{
    assert(a[i] == b[i]);
    lemma_planted_all_frame(a, b, a[i].children@, i + 1, t.children@, Some(i as usize));
}

proof fn lemma_planted_all_frame(
    a: Seq<Node>,
    b: Seq<Node>,
    kids: Seq<usize>,
    at: int,
    list: Seq<Tmp>,
    parent: Option<usize>,
)
    requires
        planted_all(a, kids, at, list, parent),
        0 <= at,
        at + weights(list) <= b.len(),
        forall|j: int| at <= j < at + weights(list) ==> a[j] == b[j],
    ensures
        planted_all(b, kids, at, list, parent),
    decreases list,
{
    if list.len() > 0 {
        let i = at + weights(list.drop_last());
        lemma_planted_frame(a, b, i, list.last(), parent);
        lemma_planted_all_frame(a, b, kids.drop_last(), at, list.drop_last(), parent);
    }
}

/// Lay a built tree out behind `nodes`: the node itself, then each child in
/// turn. Returns the index of the node.
pub fn flatten(t: &Tmp, parent: Option<usize>, nodes: &mut Vec<Node>) -> (r: usize)
    requires
        old(nodes)@.len() + weight(*t) <= usize::MAX,
    ensures
        r == old(nodes)@.len(),
        final(nodes)@.len() == old(nodes)@.len() + weight(*t),
        forall|j: int| 0 <= j < old(nodes)@.len() ==> final(nodes)@[j] == old(nodes)@[j],
        planted(final(nodes)@, r as int, *t, parent),
    decreases t,
{
    let idx: usize = nodes.len();
    let ghost start = nodes@;
    let raw = match &t.raw {
        Some(r) => Some(copy_name(r)),
        None => None,
    };
    let own = Node {
        name: t.name.clone(),
        raw,
        kind: t.kind,
        size: t.size,
        files: t.files,
        markers: t.markers,
        unreadable: t.unreadable,
        parent,
        children: Vec::new(),
    };
    nodes.push(own);
    let mut ids: Vec<usize> = Vec::new();
    let ghost list = t.children@;
    assert(list.take(0) =~= Seq::empty());
    for k in 0..t.children.len()
        invariant
            list == t.children@,
            idx == start.len(),
            start.len() + weight(*t) <= usize::MAX,
            weight(*t) == 1 + weights(list),
            nodes@.len() == idx + 1 + weights(list.take(k as int)),
            forall|j: int| 0 <= j < idx ==> nodes@[j] == start[j],
            nodes@[idx as int] == own,
            ids@.len() == k,
            planted_all(nodes@, ids@, idx + 1, list.take(k as int), Some(idx)),
    {
        let ghost before = nodes@;
        let ghost known = ids@;
        proof {
            lemma_weight_positive(list, k + 1);
            assert(list.take(k + 1).drop_last() =~= list.take(k as int));
            assert(list.take(k + 1).last() == list[k as int]);
        }
        let id = flatten(&t.children[k], Some(idx), nodes);
        ids.push(id);
        proof {
            lemma_planted_all_frame(before, nodes@, known, idx + 1, list.take(k as int), Some(idx));
            assert(ids@.drop_last() =~= known);
        }
    }
    assert(list.take(list.len() as int) =~= list);
    let ghost before = nodes@;
    nodes[idx].children = ids;
    proof {
        assert(forall|j: int| 0 <= j < before.len() && j != idx ==> nodes@[j] == before[j]);
        lemma_planted_all_frame(before, nodes@, ids@, idx + 1, list, Some(idx));
    }
    idx
}

/// What holds inside a layout: every node but the first has its parent in it.
spec fn rooted(nodes: Seq<Node>, lo: int, hi: int) -> bool {
    &&& forall|j: int| lo <= j < hi ==> #[trigger] kids_once(nodes, j)
    &&& forall|j: int, k: int| lo <= j < hi && 0 <= k < nodes[j].children@.len() ==> #[trigger] child_ok(nodes, j, k)
}

proof fn lemma_planted_tree(nodes: Seq<Node>, i: int, t: Tmp, parent: Option<usize>)
    requires
        planted(nodes, i, t, parent),
        nodes.len() <= usize::MAX,
    ensures
        rooted(nodes, i, i + weight(t)),
        forall|j: int| i < j < i + weight(t) ==> #[trigger] parent_ok(nodes, j),
    decreases t,
{
    let kids = nodes[i].children@;
    lemma_planted_all_tree(nodes, kids, i + 1, t.children@, Some(i as usize));
    assert forall|j: int| i < j < i + weight(t) implies #[trigger] parent_ok(nodes, j) by {
        if kids.contains(j as usize) {
            let k = choose|k: int| 0 <= k < kids.len() && kids[k] == j as usize;
            assert(nodes[kids[k] as int].parent == Some(i as usize));
        }
    }
    assert(kids_once(nodes, i));
    assert forall|k: int| 0 <= k < kids.len() implies #[trigger] child_ok(nodes, i, k) by {
        assert(i + 1 <= kids[k] < i + weight(t));
    }
}

proof fn lemma_planted_all_tree(nodes: Seq<Node>, kids: Seq<usize>, at: int, list: Seq<Tmp>, parent: Option<usize>)
    requires
        planted_all(nodes, kids, at, list, parent),
        0 <= at,
        at + weights(list) <= nodes.len() <= usize::MAX,
    ensures
        kids.no_duplicates(),
        kids.len() == list.len(),
        forall|k: int| 0 <= k < kids.len() ==> at <= #[trigger] kids[k] < at + weights(list) && nodes[kids[k] as int].parent == parent,
        rooted(nodes, at, at + weights(list)),
        forall|j: int| at <= j < at + weights(list) ==> #[trigger] parent_ok(nodes, j) || kids.contains(j as usize),
    decreases list,
{
    if list.len() > 0 {
        let i = at + weights(list.drop_last());
        let less = kids.drop_last();
        lemma_planted_tree(nodes, i, list.last(), parent);
        lemma_planted_all_tree(nodes, less, at, list.drop_last(), parent);
        assert forall|k: int| 0 <= k < kids.len() implies at <= #[trigger] kids[k] < at + weights(list)
            && nodes[kids[k] as int].parent == parent by {
            if k < less.len() {
                assert(less[k] == kids[k]);
            } else {
                assert(kids[k] == i);
                assert(weight(list.last()) >= 1);
                assert(planted(nodes, i, list.last(), parent));
                assert(nodes[i].parent == parent);
            }
        }
        assert(kids.no_duplicates()) by {
            assert forall|a: int, b: int| 0 <= a < kids.len() && 0 <= b < kids.len() && a != b implies kids[a] != kids[b] by {
                if a < less.len() {
                    assert(less[a] == kids[a]);
                }
                if b < less.len() {
                    assert(less[b] == kids[b]);
                }
            }
        }
        assert forall|j: int| at <= j < at + weights(list) implies #[trigger] parent_ok(nodes, j) || kids.contains(j as usize) by {
            if j == i {
                assert(kids[kids.len() - 1] == i as usize);
            } else if j < i {
                assert(parent_ok(nodes, j) || less.contains(j as usize));
                if less.contains(j as usize) {
                    let k = choose|k: int| 0 <= k < less.len() && less[k] == j as usize;
                    assert(kids[k] == j as usize);
                }
            }
        }
    }
}

/// The arena of a built tree is a tree.
pub proof fn lemma_planted_is_tree(nodes: Seq<Node>, t: Tmp)
    requires
        planted(nodes, 0, t, None),
        nodes.len() == weight(t),
        nodes.len() <= usize::MAX,
    ensures
        is_tree(nodes),
{
    lemma_planted_tree(nodes, 0, t, None);
}

/// The bytes of the children `kids`.
pub open spec fn kids_total(nodes: Seq<Node>, kids: Seq<usize>) -> nat
    decreases kids.len(),
{
    if kids.len() == 0 {
        0
    } else {
        kids_total(nodes, kids.drop_last()) + nodes[kids.last() as int].size as nat
    }
}

pub(crate) proof fn lemma_kids_total(nodes: Seq<Node>, kids: Seq<usize>, at: int, list: Seq<Tmp>, parent: Option<usize>)
    requires
        planted_all(nodes, kids, at, list, parent),
    ensures
        kids_total(nodes, kids) == total_of(sizes(list)),
    decreases list.len(),
{
    if list.len() > 0 {
        lemma_kids_total(nodes, kids.drop_last(), at, list.drop_last(), parent);
        let i = at + weights(list.drop_last());
        assert(planted(nodes, i, list.last(), parent));
        assert(carries(nodes[i], list.last()));
        assert(sizes(list).drop_last() =~= sizes(list.drop_last()));
        assert(sizes(list).last() == list.last().size as nat);
    } else {
        assert(sizes(list) =~= Seq::empty());
    }
}

/// In a laid out tree no node is smaller than its children together.
pub proof fn law_nothing_outweighs_its_directory(nodes: Seq<Node>, i: int, t: Tmp, parent: Option<usize>, j: int)
    requires
        planted(nodes, i, t, parent),
        balanced(t),
        i <= j < i + weight(t),
    ensures
        kids_total(nodes, nodes[j].children@) <= nodes[j].size,
    decreases t,
{
    if j == i {
        lemma_kids_total(nodes, nodes[i].children@, i + 1, t.children@, Some(i as usize));
    } else {
        lemma_outweighed(nodes, nodes[i].children@, i + 1, t.children@, Some(i as usize), j);
    }
}

proof fn lemma_outweighed(nodes: Seq<Node>, kids: Seq<usize>, at: int, list: Seq<Tmp>, parent: Option<usize>, j: int)
    requires
        planted_all(nodes, kids, at, list, parent),
        all_balanced(list),
        at <= j < at + weights(list),
    ensures
        kids_total(nodes, nodes[j].children@) <= nodes[j].size,
    decreases list,
{
    if list.len() > 0 {
        let i = at + weights(list.drop_last());
        if j >= i {
            law_nothing_outweighs_its_directory(nodes, i, list.last(), parent, j);
        } else {
            lemma_outweighed(nodes, kids.drop_last(), at, list.drop_last(), parent, j);
        }
    }
}

} // verus!
