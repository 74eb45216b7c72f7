//! What counting each file once leaves alone: a directory's own blocks.

use vstd::prelude::*;

use crate::links::{
    again, counted_once, discounted, holder, kid_of, kid_order, kids_sorted, lemma_holder_below, lemma_kid_listed,
    link_dir, node_sizes, reduced, settled, taken_off, touched,
};
use crate::order::{arranged, lemma_total_concat, lemma_total_rearranged, rearranges, total_of};
use crate::path::comps;
use crate::plant::kids_total;
use crate::scan::LinkView;
use crate::scanner::{child_ok, holds, is_tree, kids_once, lemma_descent, parent_ok, Node, NodeKind};

verus! {

/// The bytes of the nodes `kids`, with the sizes `s`.
pub open spec fn kids_sum(s: Seq<u64>, kids: Seq<usize>) -> nat
    decreases kids.len(),
{
    if kids.len() == 0 {
        0
    } else {
        kids_sum(s, kids.drop_last()) + s[kids.last() as int] as nat
    }
}

/// The node that counts the bytes of a link.
pub open spec fn held_by(nodes: Seq<Node>, root: Seq<u8>, l: LinkView) -> Option<int> {
    match link_dir(nodes, root, l.path) {
        Some(dir) => holder(nodes, dir, comps(l.path).last()),
        None => None,
    }
}

/// What each link adds to node `h`.
pub open spec fn shares(nodes: Seq<Node>, root: Seq<u8>, v: Seq<LinkView>, h: int) -> Seq<nat> {
    Seq::new(
        v.len(),
        |i: int|
            if held_by(nodes, root, v[i]) == Some(h) {
                v[i].size as nat
            } else {
                0
            },
    )
}

/// Every link that lies in the tree is counted in a node of its directory, and
/// no node counts less than its links together.
pub open spec fn bytes_held(nodes: Seq<Node>, root: Seq<u8>, v: Seq<LinkView>) -> bool {
    &&& forall|i: int|
        0 <= i < v.len() && link_dir(nodes, root, (#[trigger] v[i]).path) is Some ==> held_by(nodes, root, v[i]) is Some
    &&& forall|h: int| 0 <= h < nodes.len() ==> total_of(#[trigger] shares(nodes, root, v, h)) <= nodes[h].size
}

/// Only directories have children, and none is smaller than they are together.
pub open spec fn only_dirs_hold(nodes: Seq<Node>) -> bool {
    forall|i: int|
        0 <= i < nodes.len() ==> kids_total(nodes, (#[trigger] nodes[i]).children@) <= nodes[i].size && (
        nodes[i].children@.len() > 0 ==> nodes[i].kind == NodeKind::Dir)
}

/// No node is smaller than its children together, with the sizes `s`.
spec fn covers(nodes: Seq<Node>, s: Seq<u64>) -> bool {
    forall|i: int| 0 <= i < nodes.len() ==> kids_sum(s, (#[trigger] nodes[i]).children@) <= s[i]
}

proof fn lemma_sum_same(s: Seq<u64>, t: Seq<u64>, kids: Seq<usize>)
    requires
        forall|k: int| 0 <= k < kids.len() ==> t[(#[trigger] kids[k]) as int] == s[kids[k] as int],
    ensures
        kids_sum(t, kids) == kids_sum(s, kids),
    decreases kids.len(),
{
    if kids.len() > 0 {
        assert forall|k: int| 0 <= k < kids.drop_last().len() implies t[(#[trigger] kids.drop_last()[k]) as int]
            == s[kids.drop_last()[k] as int] by {
            assert(kids.drop_last()[k] == kids[k]);
        }
        lemma_sum_same(s, t, kids.drop_last());
        assert(kids[kids.len() - 1] == kids.last());
    }
}

proof fn lemma_sum_one(s: Seq<u64>, t: Seq<u64>, kids: Seq<usize>, k: int, d: u64)
    requires
        0 <= k < kids.len(),
        s[kids[k] as int] >= d,
        t[kids[k] as int] == s[kids[k] as int] - d,
        forall|j: int| 0 <= j < kids.len() && j != k ==> t[(#[trigger] kids[j]) as int] == s[kids[j] as int],
    ensures
        kids_sum(t, kids) == kids_sum(s, kids) - d,
    decreases kids.len(),
{
    let rest = kids.drop_last();
    if k < kids.len() - 1 {
        assert(rest[k] == kids[k]);
        assert forall|j: int| 0 <= j < rest.len() && j != k implies t[(#[trigger] rest[j]) as int] == s[rest[j] as int] by {
            assert(rest[j] == kids[j]);
        }
        lemma_sum_one(s, t, rest, k, d);
        assert(kids[kids.len() - 1] == kids.last());
    } else {
        assert forall|j: int| 0 <= j < rest.len() implies t[(#[trigger] rest[j]) as int] == s[rest[j] as int] by {
            assert(rest[j] == kids[j]);
        }
        lemma_sum_same(s, t, rest);
    }
}

proof fn lemma_sum_holds(s: Seq<u64>, kids: Seq<usize>, k: int)
    requires
        0 <= k < kids.len(),
    ensures
        s[kids[k] as int] <= kids_sum(s, kids),
    decreases kids.len(),
{
    if k < kids.len() - 1 {
        assert(kids.drop_last()[k] == kids[k]);
        lemma_sum_holds(s, kids.drop_last(), k);
    }
}

pub(crate) proof fn lemma_holds_up(nodes: Seq<Node>, a: int, i: int)
    requires
        is_tree(nodes),
        0 <= i < nodes.len(),
        holds(nodes, a, i),
    ensures
        0 <= a <= i,
        a > 0 ==> holds(nodes, nodes[a].parent->0 as int, i),
    decreases i,
{
    if i > 0 {
        assert(parent_ok(nodes, i));
    }
    if a != i {
        lemma_holds_up(nodes, a, nodes[i].parent->0 as int);
    } else if a > 0 {
        let p = nodes[i].parent->0 as int;
        assert(holds(nodes, p, p));
    }
}

/// Of two directories that hold a node, the outer one holds the inner one.
proof fn lemma_holds_nested(nodes: Seq<Node>, a: int, b: int, i: int)
    requires
        is_tree(nodes),
        0 <= i < nodes.len(),
        holds(nodes, a, i),
        holds(nodes, b, i),
        a <= b,
    ensures
        holds(nodes, a, b),
    decreases i,
{
    if i > 0 {
        assert(parent_ok(nodes, i));
    }
    lemma_holds_up(nodes, b, i);
    if b != i {
        lemma_holds_up(nodes, a, i);
        let p = nodes[i].parent->0 as int;
        lemma_holds_nested(nodes, a, b, p);
    }
}

/// A directory that holds a node has a child that holds it too.
proof fn lemma_next_holder(nodes: Seq<Node>, a: int, i: int) -> (k: int)
    requires
        is_tree(nodes),
        0 <= i < nodes.len(),
        holds(nodes, a, i),
        a != i,
    ensures
        0 <= a < nodes.len(),
        0 <= k < nodes[a].children@.len(),
        holds(nodes, nodes[a].children@[k] as int, i),
    decreases i,
{
    assert(i > 0);
    assert(parent_ok(nodes, i));
    let p = nodes[i].parent->0 as int;
    if a == p {
        let kids = nodes[p].children@;
        let k = choose|k: int| 0 <= k < kids.len() && kids[k] == i as usize;
        k
    } else {
        lemma_holds_up(nodes, a, p);
        let k = lemma_next_holder(nodes, a, p);
        k
    }
}

pub(crate) proof fn lemma_taken(nodes: Seq<Node>, s: Seq<u64>, i: int, d: u64, x: int)
    requires
        is_tree(nodes),
        s.len() == nodes.len(),
        0 <= i < nodes.len(),
        0 <= x < nodes.len(),
    ensures
        taken_off(nodes, s, i, d).len() == s.len(),
        taken_off(nodes, s, i, d)[x] == (if holds(nodes, x, i) {
            reduced(s[x], d)
        } else {
            s[x]
        }),
    decreases i,
{
    let t = s.update(i, reduced(s[i], d));
    if i > 0 {
        assert(parent_ok(nodes, i));
        let p = nodes[i].parent->0 as int;
        lemma_taken(nodes, t, p, d, x);
        if x == i && holds(nodes, i, p) {
            lemma_holds_up(nodes, i, p);
        }
    }
}

/// One link taken off: everything between it and the root loses its bytes, and
/// nothing else changes.
#[verifier::rlimit(30)]
proof fn lemma_one_off(nodes: Seq<Node>, root: Seq<u8>, s: Seq<u64>, l: LinkView, dir: int, h: int)
    requires
        is_tree(nodes),
        s.len() == nodes.len(),
        covers(nodes, s),
        link_dir(nodes, root, l.path) == Some(dir),
        held_by(nodes, root, l) == Some(h),
        0 <= h < nodes.len() ==> nodes[h].children@.len() == 0,
        0 <= h < nodes.len() ==> s[h] >= l.size,
    ensures
        0 <= h < nodes.len(),
        ({
            let t = discounted(nodes, root, s, l);
            &&& t.len() == s.len()
            &&& t[h] == s[h] - l.size
            &&& covers(nodes, t)
            &&& forall|x: int|
                0 <= x < nodes.len() && (#[trigger] nodes[x]).children@.len() > 0 ==> t[x] - kids_sum(
                    t,
                    nodes[x].children@,
                ) == s[x] - kids_sum(s, nodes[x].children@)
            &&& forall|x: int|
                0 <= x < nodes.len() && x != h && (#[trigger] nodes[x]).children@.len() == 0 ==> t[x] == s[x]
        }),
{
    let name = comps(l.path).last();
    let d = l.size;
    lemma_descent(nodes, 0, comps(l.path).drop_last().skip(comps(root).len() as int));
    lemma_holder_below(nodes, dir, name);
    let kids = nodes[dir].children@;
    lemma_kid_listed(nodes, kids, NodeKind::File, name);
    lemma_kid_listed(nodes, kids, NodeKind::Aggregate, name);
    let kh = choose|k: int| 0 <= k < kids.len() && #[trigger] kids[k] == h;
    assert(child_ok(nodes, dir, kh));
    let u = s.update(h, reduced(s[h], d));
    let t = discounted(nodes, root, s, l);
    assert(t == taken_off(nodes, u, dir, d));
    assert(!holds(nodes, h, dir)) by {
        if holds(nodes, h, dir) {
            lemma_holds_up(nodes, h, dir);
        }
    }
    assert forall|x: int| 0 <= x < nodes.len() implies #[trigger] t[x] == (if x == h {
        (s[h] - d) as u64
    } else if holds(nodes, x, dir) {
        reduced(s[x], d)
    } else {
        s[x]
    }) by {
        lemma_taken(nodes, u, dir, d, x);
    }
    lemma_taken(nodes, u, dir, d, h);
    assert forall|x: int| 0 <= x < nodes.len() && holds(nodes, x, dir) implies #[trigger] s[x] >= d by {
        lemma_enough(nodes, s, dir, h, kh, d, x);
    }
    assert forall|x: int| 0 <= x < nodes.len() && (#[trigger] nodes[x]).children@.len() > 0 implies t[x] - kids_sum(
        t,
        nodes[x].children@,
    ) == s[x] - kids_sum(s, nodes[x].children@) by {
        let own = nodes[x].children@;
        assert(kids_once(nodes, x));
        if holds(nodes, x, dir) {
            let k = if x == dir { kh } else { lemma_next_holder(nodes, x, dir) };
            assert(child_ok(nodes, x, k));
            let c = own[k] as int;
            assert(t[c] == s[c] - d) by {
                assert(s[c] >= d);
            }
            assert forall|j: int| 0 <= j < own.len() && j != k implies t[(#[trigger] own[j]) as int] == s[own[j] as int] by {
                assert(child_ok(nodes, x, j));
                let e = own[j] as int;
                assert(e != c);
                if e == h {
                    assert(nodes[h].parent == Some(dir as usize));
                    assert(x == dir);
                }
                if holds(nodes, e, dir) {
                    if x == dir {
                        lemma_holds_up(nodes, e, dir);
                    } else if e <= c {
                        lemma_holds_nested(nodes, e, c, dir);
                        lemma_holds_up(nodes, e, x);
                    } else {
                        lemma_holds_nested(nodes, c, e, dir);
                        lemma_holds_up(nodes, c, x);
                    }
                }
            }
            lemma_sum_one(s, t, own, k, d);
        } else {
            assert forall|j: int| 0 <= j < own.len() implies t[(#[trigger] own[j]) as int] == s[own[j] as int] by {
                assert(child_ok(nodes, x, j));
                let e = own[j] as int;
                if e == h {
                    assert(nodes[h].parent == Some(dir as usize));
                    assert(holds(nodes, dir, dir));
                }
                if holds(nodes, e, dir) {
                    lemma_holds_up(nodes, e, dir);
                }
            }
            lemma_sum_same(s, t, own);
        }
    }
    assert forall|x: int| 0 <= x < nodes.len() && x != h && (#[trigger] nodes[x]).children@.len() == 0 implies t[x] == s[x] by {
        if holds(nodes, x, dir) {
            if x == dir {
                assert(kids.len() > 0);
            } else {
                let k = lemma_next_holder(nodes, x, dir);
            }
        }
    }
    assert forall|x: int| 0 <= x < nodes.len() implies kids_sum(t, (#[trigger] nodes[x]).children@) <= t[x] by {
        assert(kids_sum(s, nodes[x].children@) <= s[x]);
        if nodes[x].children@.len() == 0 {
            assert(kids_sum(t, nodes[x].children@) == 0);
        }
    }
}

/// Whatever holds a link's node has at least its bytes.
proof fn lemma_enough(nodes: Seq<Node>, s: Seq<u64>, dir: int, h: int, kh: int, d: u64, x: int)
    requires
        is_tree(nodes),
        s.len() == nodes.len(),
        covers(nodes, s),
        0 <= dir < nodes.len(),
        0 <= kh < nodes[dir].children@.len(),
        nodes[dir].children@[kh] == h,
        s[h] >= d,
        0 <= x < nodes.len(),
        holds(nodes, x, dir),
    ensures
        s[x] >= d,
    decreases dir - x,
{
    lemma_holds_up(nodes, x, dir);
    let kids = nodes[x].children@;
    assert(kids_sum(s, kids) <= s[x]);
    if x == dir {
        lemma_sum_holds(s, kids, kh);
    } else {
        let k = lemma_next_holder(nodes, x, dir);
        assert(child_ok(nodes, x, k));
        lemma_holds_up(nodes, kids[k] as int, dir);
        lemma_enough(nodes, s, dir, h, kh, d, kids[k] as int);
        lemma_sum_holds(s, kids, k);
    }
}

proof fn lemma_node_sums(nodes: Seq<Node>, kids: Seq<usize>)
    requires
        forall|k: int| 0 <= k < kids.len() ==> (#[trigger] kids[k]) < nodes.len(),
    ensures
        kids_sum(node_sizes(nodes), kids) == kids_total(nodes, kids),
    decreases kids.len(),
{
    if kids.len() > 0 {
        assert forall|k: int| 0 <= k < kids.drop_last().len() implies (#[trigger] kids.drop_last()[k]) < nodes.len() by {
            assert(kids.drop_last()[k] == kids[k]);
        }
        lemma_node_sums(nodes, kids.drop_last());
        assert(kids[kids.len() - 1] < nodes.len());
    }
}

proof fn lemma_all_sums(nodes: Seq<Node>)
    requires
        is_tree(nodes),
    ensures
        forall|i: int|
            0 <= i < nodes.len() ==> kids_sum(node_sizes(nodes), (#[trigger] nodes[i]).children@) == kids_total(
                nodes,
                nodes[i].children@,
            ),
{
    assert forall|i: int| 0 <= i < nodes.len() implies kids_sum(node_sizes(nodes), (#[trigger] nodes[i]).children@)
        == kids_total(nodes, nodes[i].children@) by {
        let kids = nodes[i].children@;
        assert forall|k: int| 0 <= k < kids.len() implies (#[trigger] kids[k]) < nodes.len() by {
            assert(child_ok(nodes, i, k));
        }
        lemma_node_sums(nodes, kids);
    }
}

#[verifier::rlimit(30)]
proof fn lemma_settled_steps(nodes: Seq<Node>, root: Seq<u8>, v: Seq<LinkView>, o: Seq<usize>, k: int)
    requires
        is_tree(nodes),
        rearranges(o, v.len() as int),
        only_dirs_hold(nodes),
        bytes_held(nodes, root, v),
        0 <= k <= v.len(),
    ensures
        ({
            let a = node_sizes(nodes);
            let s = settled(nodes, root, a, v, o, k);
            let w = arranged(v, o);
            &&& s.len() == nodes.len()
            &&& covers(nodes, s)
            &&& forall|x: int|
                0 <= x < nodes.len() && (#[trigger] nodes[x]).children@.len() > 0 ==> s[x] - kids_sum(
                    s,
                    nodes[x].children@,
                ) == a[x] - kids_sum(a, nodes[x].children@)
            &&& forall|h: int|
                0 <= h < nodes.len() && (#[trigger] nodes[h]).children@.len() == 0 ==> s[h] + total_of(
                    shares(nodes, root, w, h).take(k),
                ) >= nodes[h].size
        }),
    decreases k,
{
    let a = node_sizes(nodes);
    let w = arranged(v, o);
    lemma_all_sums(nodes);
    if k == 0 {
        assert forall|h: int| 0 <= h < nodes.len() && (#[trigger] nodes[h]).children@.len() == 0 implies a[h] + total_of(
            shares(nodes, root, w, h).take(0),
        ) >= nodes[h].size by {}
        assert(covers(nodes, a)) by {
            assert forall|i: int| 0 <= i < nodes.len() implies kids_sum(a, (#[trigger] nodes[i]).children@) <= a[i] by {}
        }
    } else {
        lemma_settled_steps(nodes, root, v, o, k - 1);
        let s = settled(nodes, root, a, v, o, k - 1);
        let t = settled(nodes, root, a, v, o, k);
        let l = v[o[k - 1] as int];
        assert(w[k - 1] == l);
        assert forall|h: int| 0 <= h < nodes.len() implies total_of((#[trigger] shares(nodes, root, w, h)).take(k)) == total_of(
            shares(nodes, root, w, h).take(k - 1),
        ) + (if held_by(nodes, root, l) == Some(h) {
            l.size as nat
        } else {
            0
        }) by {
            let sh = shares(nodes, root, w, h);
            assert(sh.take(k).drop_last() =~= sh.take(k - 1));
            assert(sh.take(k).last() == sh[k - 1]);
        }
        if k > 1 && again(v, o, k - 1) && link_dir(nodes, root, l.path) is Some {
            let dir = link_dir(nodes, root, l.path)->0;
            assert(o[k - 1] < v.len());
            let h = held_by(nodes, root, l)->0;
            assert(held_by(nodes, root, v[o[k - 1] as int]) is Some);
            lemma_descent(nodes, 0, comps(l.path).drop_last().skip(comps(root).len() as int));
            lemma_holder_below(nodes, dir, comps(l.path).last());
            lemma_kind_of(nodes, nodes[dir].children@, NodeKind::File, comps(l.path).last());
            lemma_kind_of(nodes, nodes[dir].children@, NodeKind::Aggregate, comps(l.path).last());
            assert(nodes[h].kind != NodeKind::Dir);
            assert(nodes[h].children@.len() == 0);
            lemma_shares_rearranged(nodes, root, v, o, h);
            let sh = shares(nodes, root, w, h);
            assert(total_of(shares(nodes, root, v, h)) <= nodes[h].size);
            assert(sh =~= sh.take(k) + sh.skip(k));
            lemma_total_concat(sh.take(k), sh.skip(k));
            assert(total_of(sh.take(k)) <= total_of(sh));
            assert(s[h] >= l.size);
            lemma_one_off(nodes, root, s, l, dir, h);
            assert(t == discounted(nodes, root, s, l));
        } else {
            assert(t == s);
        }
    }
}

pub(crate) proof fn lemma_kind_of(nodes: Seq<Node>, kids: Seq<usize>, kind: NodeKind, name: Seq<u8>)
    ensures
        kid_of(nodes, kids, kind, name) matches Some(c) ==> nodes[c].kind == kind,
    decreases kids.len(),
{
    if kids.len() > 0 {
        lemma_kind_of(nodes, kids.skip(1), kind, name);
    }
}

pub(crate) proof fn lemma_shares_rearranged(nodes: Seq<Node>, root: Seq<u8>, v: Seq<LinkView>, o: Seq<usize>, h: int)
    requires
        rearranges(o, v.len() as int),
    ensures
        total_of(shares(nodes, root, arranged(v, o), h)) == total_of(shares(nodes, root, v, h)),
{
    let s = shares(nodes, root, v, h);
    lemma_total_rearranged(s, o);
    assert(shares(nodes, root, arranged(v, o), h) =~= Seq::new(o.len(), |i: int| s[o[i] as int]));
}

pub(crate) proof fn lemma_sum_rearranged(s: Seq<u64>, kids: Seq<usize>, p: Seq<usize>)
    requires
        rearranges(p, kids.len() as int),
    ensures
        kids_sum(s, arranged(kids, p)) == kids_sum(s, kids),
{
    let each = Seq::new(kids.len(), |i: int| s[kids[i] as int] as nat);
    lemma_total_rearranged(each, p);
    lemma_sum_is_total(s, kids);
    lemma_sum_is_total(s, arranged(kids, p));
    assert(Seq::new(p.len(), |i: int| each[p[i] as int]) =~= Seq::new(
        arranged(kids, p).len(),
        |i: int| s[arranged(kids, p)[i] as int] as nat,
    ));
}

proof fn lemma_sum_is_total(s: Seq<u64>, kids: Seq<usize>)
    ensures
        kids_sum(s, kids) == total_of(Seq::new(kids.len(), |i: int| s[kids[i] as int] as nat)),
    decreases kids.len(),
{
    if kids.len() > 0 {
        lemma_sum_is_total(s, kids.drop_last());
        let each = Seq::new(kids.len(), |i: int| s[kids[i] as int] as nat);
        assert(each.drop_last() =~= Seq::new(kids.drop_last().len(), |i: int| s[kids.drop_last()[i] as int] as nat));
    }
}

/// Counting each file once changes no directory's own share: where each link's
/// bytes are in a node of its directory, every directory is as much larger than
/// its children together as it was before.
pub proof fn law_own_blocks_stay(
    a: Seq<Node>,
    b: Seq<Node>,
    root: Seq<u8>,
    v: Seq<LinkView>,
    o: Seq<usize>,
    i: int,
)
    requires
        is_tree(a),
        rearranges(o, v.len() as int),
        only_dirs_hold(a),
        bytes_held(a, root, v),
        counted_once(a, b, root, v, o),
        0 <= i < a.len(),
        a[i].kind == NodeKind::Dir,
    ensures
        b[i].size - kids_total(b, b[i].children@) == a[i].size - kids_total(a, a[i].children@),
        a[i].children@.len() == 0 ==> b[i].size == a[i].size,
{
    let n = v.len() as int;
    let sa = node_sizes(a);
    let s = settled(a, root, sa, v, o, n);
    let kids = a[i].children@;
    lemma_settled_steps(a, root, v, o, n);
    lemma_all_sums(a);
    assert(node_sizes(b)[i] == s[i]);
    assert(b[i].children@.len() == kids.len() && kids_sum(s, b[i].children@) == kids_sum(s, kids)) by {
        if touched(a, root, v, o, n, i) {
            assert(kids_sorted(a, s, kids, b[i].children@));
            let p = choose|p: Seq<usize>| #[trigger] kid_order(a, s, kids, p) && b[i].children@ == arranged(kids, p);
            lemma_sum_rearranged(s, kids, p);
        } else {
            assert(b[i].children@ == kids);
        }
    }
    let own = b[i].children@;
    crate::links::lemma_still_tree(a, b, root, v, o);
    lemma_all_sums(b);
    assert(kids_sum(node_sizes(b), own) == kids_total(b, own));
    if kids.len() == 0 {
        lemma_unheld(a, root, v, o, n, i);
    }
}

/// A node that counts no link keeps its size unless it has children.
proof fn lemma_unheld(nodes: Seq<Node>, root: Seq<u8>, v: Seq<LinkView>, o: Seq<usize>, k: int, i: int)
    requires
        is_tree(nodes),
        0 <= k <= o.len(),
        0 <= i < nodes.len(),
        nodes[i].kind == NodeKind::Dir,
        nodes[i].children@.len() == 0,
        only_dirs_hold(nodes),
        bytes_held(nodes, root, v),
        rearranges(o, v.len() as int),
    ensures
        settled(nodes, root, node_sizes(nodes), v, o, k)[i] == nodes[i].size,
    decreases k,
{
    if k > 1 {
        lemma_unheld(nodes, root, v, o, k - 1, i);
        lemma_settled_steps(nodes, root, v, o, k - 1);
        let s = settled(nodes, root, node_sizes(nodes), v, o, k - 1);
        let l = v[o[k - 1] as int];
        if again(v, o, k - 1) && link_dir(nodes, root, l.path) is Some {
            let dir = link_dir(nodes, root, l.path)->0;
            assert(o[k - 1] < v.len());
            assert(held_by(nodes, root, v[o[k - 1] as int]) is Some);
            let h = held_by(nodes, root, l)->0;
            let name = comps(l.path).last();
            lemma_descent(nodes, 0, comps(l.path).drop_last().skip(comps(root).len() as int));
            lemma_holder_below(nodes, dir, name);
            lemma_kind_of(nodes, nodes[dir].children@, NodeKind::File, name);
            lemma_kind_of(nodes, nodes[dir].children@, NodeKind::Aggregate, name);
            lemma_kid_listed(nodes, nodes[dir].children@, NodeKind::File, name);
            lemma_kid_listed(nodes, nodes[dir].children@, NodeKind::Aggregate, name);
            let u = s.update(h, reduced(s[h], l.size));
            lemma_taken(nodes, u, dir, l.size, i);
            if holds(nodes, i, dir) && i != dir {
                let c = lemma_next_holder(nodes, i, dir);
            }
        }
    }
}

/// The children of node `i` stand by size, the largest first.
pub open spec fn by_size(n: Seq<Node>, i: int) -> bool {
    let kids = n[i].children@;
    forall|k: int, m: int|
        0 <= k < m < kids.len() ==> n[(#[trigger] kids[k]) as int].size >= n[(#[trigger] kids[m]) as int].size
}

/// A child of a directory that lost nothing keeps its size.
proof fn lemma_untouched(nodes: Seq<Node>, root: Seq<u8>, v: Seq<LinkView>, o: Seq<usize>, k: int, i: int, c: int)
    requires
        is_tree(nodes),
        0 <= i < nodes.len(),
        0 < c < nodes.len(),
        nodes[c].parent == Some(i as usize),
        !touched(nodes, root, v, o, k, i),
    ensures
        settled(nodes, root, node_sizes(nodes), v, o, k).len() == nodes.len(),
        settled(nodes, root, node_sizes(nodes), v, o, k)[c] == nodes[c].size,
    decreases k,
{
    if k > 1 {
        assert(!touched(nodes, root, v, o, k - 1, i)) by {
            if touched(nodes, root, v, o, k - 1, i) {
                let m = choose|m: int|
                    1 <= m < k - 1 && #[trigger] again(v, o, m) && (match link_dir(nodes, root, v[o[m] as int].path) {
                        Some(dir) => holds(nodes, i, dir),
                        None => false,
                    });
                assert(again(v, o, m));
            }
        }
        lemma_untouched(nodes, root, v, o, k - 1, i, c);
        let s = settled(nodes, root, node_sizes(nodes), v, o, k - 1);
        let l = v[o[k - 1] as int];
        if again(v, o, k - 1) && link_dir(nodes, root, l.path) is Some {
            let dir = link_dir(nodes, root, l.path)->0;
            let name = comps(l.path).last();
            let kids = nodes[dir].children@;
            lemma_descent(nodes, 0, comps(l.path).drop_last().skip(comps(root).len() as int));
            lemma_holder_below(nodes, dir, name);
            lemma_kid_listed(nodes, kids, NodeKind::File, name);
            lemma_kid_listed(nodes, kids, NodeKind::Aggregate, name);
            assert(!holds(nodes, i, dir));
            let u = match holder(nodes, dir, name) {
                Some(h) => s.update(h, reduced(s[h], l.size)),
                None => s,
            };
            if let Some(h) = holder(nodes, dir, name) {
                let kh = choose|x: int| 0 <= x < kids.len() && #[trigger] kids[x] == h;
                assert(child_ok(nodes, dir, kh));
                assert(h != c);
            }
            lemma_taken(nodes, u, dir, l.size, c);
            if holds(nodes, c, dir) {
                lemma_holds_up(nodes, c, dir);
            }
        }
    }
}

/// Where the children of every directory stand by size, they still do once each
/// file is counted once.
pub proof fn law_children_stay_sorted(a: Seq<Node>, b: Seq<Node>, root: Seq<u8>, v: Seq<LinkView>, o: Seq<usize>, i: int)
    requires
        is_tree(a),
        counted_once(a, b, root, v, o),
        0 <= i < a.len(),
        by_size(a, i),
    ensures
        by_size(b, i),
{
    let s = settled(a, root, node_sizes(a), v, o, v.len() as int);
    let kids = a[i].children@;
    let own = b[i].children@;
    crate::links::lemma_still_tree(a, b, root, v, o);
    assert forall|k: int, m: int| 0 <= k < m < own.len() implies b[(#[trigger] own[k]) as int].size >= b[(
    #[trigger] own[m]) as int].size by {
        assert(child_ok(b, i, k) && child_ok(b, i, m));
        assert(node_sizes(b)[own[k] as int] == s[own[k] as int]);
        assert(node_sizes(b)[own[m] as int] == s[own[m] as int]);
        if touched(a, root, v, o, v.len() as int, i) {
            assert(kids_sorted(a, s, kids, own));
            let p = choose|p: Seq<usize>| #[trigger] kid_order(a, s, kids, p) && own == arranged(kids, p);
            assert(own[k] == kids[p[k] as int] && own[m] == kids[p[m] as int]);
        } else {
            assert(own == kids);
            assert(child_ok(a, i, k) && child_ok(a, i, m));
            lemma_untouched(a, root, v, o, v.len() as int, i, own[k] as int);
            lemma_untouched(a, root, v, o, v.len() as int, i, own[m] as int);
        }
    }
}

} // verus!
