//! Whole scans: what the tree holds of the directories that were read.

use vstd::prelude::*;

use crate::blocks::{
    by_size, bytes_held, held_by, law_children_stay_sorted, law_own_blocks_stay, lemma_shares_rearranged,
    only_dirs_hold, shares,
};
use crate::links::{
    counted_once, kid_of, kid_order, kids_sorted, lemma_kid_listed, lemma_still_tree, link_dir, link_order, names_once,
    node_sizes, resized, settled, touched,
};
use crate::order::{arranged, lemma_total_concat, lemma_total_rearranged, rearranges, total_of};
use crate::path::{comps, join_bytes, lemma_join_comps, plain_name, root_comp};
use crate::plant::{
    carries, kids_total, lemma_kids_total, lemma_planted_is_tree, planted, planted_all, weight, weights,
};
use crate::scan::{
    child_order, counts, entry_leaf, fate, finished, folded, leaf_of, leaf_views, leaves, link_views, listed, sizes,
    small_bytes, small_count, sub_views, Entry, EntryKind, Fate, Leaf, LinkView, Tmp,
};
use crate::scanner::{
    child_ok, exact_name, is_named, is_tree, law_find_inverts_path_of, located, parent_ok, path_at, told_apart, Node,
    NodeKind, ScanOptions,
};

verus! {

/// A directory as it was read: its path, its own blocks, its entries (none
/// where it could not be read) and the subdirectories that a scan enters, in
/// the order of the listing.
pub struct Dir {
    pub path: Seq<u8>,
    pub own: u64,
    pub read: bool,
    pub list: Seq<Option<Entry>>,
    pub subs: Seq<Dir>,
}

/// The entries of a directory have plain names, each its own.
pub open spec fn plain_list(list: Seq<Option<Entry>>) -> bool {
    &&& forall|i: int| 0 <= i < list.len() && (#[trigger] list[i]) is Some ==> plain_name(list[i]->0.name@)
    &&& forall|i: int, j: int|
        0 <= i < j < list.len() && (#[trigger] list[i]) is Some && (#[trigger] list[j]) is Some ==> list[i]->0.name@
            != list[j]->0.name@
}

/// The subdirectories of `d`, and theirs in turn, are those that a scan enters.
pub open spec fn walked(d: Dir, opts: ScanOptions, dev: u64) -> bool
    decreases d,
{
    let views = sub_views(d.list, d.path, opts, dev);
    &&& !d.read ==> d.list.len() == 0
    &&& plain_list(d.list)
    &&& d.subs.len() == views.len()
    &&& forall|k: int|
        0 <= k < d.subs.len() ==> (#[trigger] d.subs[k]).path == views[k].path && d.subs[k].own == views[k].own && walked(
            d.subs[k],
            opts,
            dev,
        )
}

/// `t` is what a scan makes of `d`: the listing of the directory, finished with
/// what it makes of the subdirectories.
pub open spec fn scanned(t: Tmp, d: Dir, opts: ScanOptions, dev: u64) -> bool
    decreases d,
{
    if d.read {
        exists|node: Tmp, subs: Seq<Tmp>| #[trigger] made_of(t, d, opts, dev, node, subs) && forall|k: int|
            0 <= k < d.subs.len() ==> scanned(#[trigger] subs[k], d.subs[k], opts, dev)
    } else {
        t.kind == NodeKind::Dir && t.size == d.own && t.files == 0 && t.children@.len() == 0
    }
}

/// `t` is the listing `node` of directory `d`, finished with `subs`.
pub open spec fn made_of(t: Tmp, d: Dir, opts: ScanOptions, dev: u64, node: Tmp, subs: Seq<Tmp>) -> bool {
    let views = sub_views(d.list, d.path, opts, dev);
    &&& listed(node, d.own, d.list, d.path, opts, dev)
    &&& finished(node, subs, t)
    &&& subs.len() == views.len()
    &&& forall|k: int|
        0 <= k < subs.len() ==> (#[trigger] subs[k]).kind == NodeKind::Dir && exact_name(subs[k].name@, subs[k].raw)
            == views[k].exact
}

/// The further names of files that a scan of `d` comes by.
pub open spec fn links_in(d: Dir) -> Seq<LinkView>
    decreases d,
{
    link_views(d.list, d.path) + links_in_all(d.subs)
}

pub open spec fn links_in_all(list: Seq<Dir>) -> Seq<LinkView>
    decreases list,
{
    if list.len() == 0 {
        Seq::empty()
    } else {
        links_in_all(list.drop_last()) + links_in(list.last())
    }
}

/// A listing that is finished with its scanned subdirectories is a scan of the
/// directory, and so is the node of one that could not be read.
pub proof fn law_a_finished_listing_is_scanned(
    t: Tmp,
    d: Dir,
    opts: ScanOptions,
    dev: u64,
    node: Tmp,
    subs: Seq<Tmp>,
)
    requires
        d.read ==> listed(node, d.own, d.list, d.path, opts, dev) && finished(node, subs, t),
        d.read ==> subs.len() == d.subs.len() == sub_views(d.list, d.path, opts, dev).len(),
        d.read ==> forall|k: int|
            0 <= k < subs.len() ==> exact_name((#[trigger] subs[k]).name@, subs[k].raw) == sub_views(
                d.list,
                d.path,
                opts,
                dev,
            )[k].exact && scanned(subs[k], d.subs[k], opts, dev),
        !d.read ==> t.kind == NodeKind::Dir && t.size == d.own && t.files == 0 && t.children@.len() == 0,
    ensures
        scanned(t, d, opts, dev),
{
    if d.read {
        assert forall|k: int| 0 <= k < subs.len() implies (#[trigger] subs[k]).kind == NodeKind::Dir by {
            lemma_scanned_kind(subs[k], d.subs[k], opts, dev);
        }
        assert(made_of(t, d, opts, dev, node, subs));
    }
}

proof fn lemma_scanned_kind(t: Tmp, d: Dir, opts: ScanOptions, dev: u64)
    requires
        scanned(t, d, opts, dev),
    ensures
        t.kind == NodeKind::Dir,
{
}

// Listings.

spec fn leaf_for(e: Option<Entry>, f: Fate) -> Leaf {
    if f is Mount {
        entry_leaf(e->0, NodeKind::Mount, 0, 0)
    } else {
        entry_leaf(e->0, NodeKind::File, e->0.size as nat, 1)
    }
}

/// Leaf `m` stands for entry `x`.
spec fn leaf_at(list: Seq<Option<Entry>>, dir: Seq<u8>, opts: ScanOptions, dev: u64, m: int, x: int) -> bool {
    let f = fate(list[x], dir, opts, dev);
    &&& 0 <= x < list.len()
    &&& f is Mount || f is Large
    &&& leaves(list, dir, opts, dev)[m] == leaf_for(list[x], f)
}

proof fn lemma_leaf_at(list: Seq<Option<Entry>>, dir: Seq<u8>, opts: ScanOptions, dev: u64, m: int) -> (x: int)
    requires
        0 <= m < leaves(list, dir, opts, dev).len(),
    ensures
        leaf_at(list, dir, opts, dev, m, x),
    decreases list.len(),
{
    let rest = leaves(list.drop_last(), dir, opts, dev);
    if m < rest.len() {
        let x = lemma_leaf_at(list.drop_last(), dir, opts, dev, m);
        assert(list.drop_last()[x] == list[x]);
        x
    } else {
        list.len() - 1
    }
}

proof fn lemma_leaves_apart(list: Seq<Option<Entry>>, dir: Seq<u8>, opts: ScanOptions, dev: u64, m: int, n: int) -> (r: (int, int))
    requires
        0 <= m < n < leaves(list, dir, opts, dev).len(),
    ensures
        leaf_at(list, dir, opts, dev, m, r.0),
        leaf_at(list, dir, opts, dev, n, r.1),
        r.0 < r.1,
    decreases list.len(),
{
    let rest = leaves(list.drop_last(), dir, opts, dev);
    if n < rest.len() {
        let r = lemma_leaves_apart(list.drop_last(), dir, opts, dev, m, n);
        assert(list.drop_last()[r.0] == list[r.0]);
        assert(list.drop_last()[r.1] == list[r.1]);
        r
    } else {
        let x = lemma_leaf_at(list.drop_last(), dir, opts, dev, m);
        assert(list.drop_last()[x] == list[x]);
        (x, list.len() - 1)
    }
}

proof fn lemma_leaf_for(list: Seq<Option<Entry>>, dir: Seq<u8>, opts: ScanOptions, dev: u64, x: int) -> (m: int)
    requires
        0 <= x < list.len(),
        fate(list[x], dir, opts, dev) is Large,
    ensures
        0 <= m < leaves(list, dir, opts, dev).len(),
        leaf_at(list, dir, opts, dev, m, x),
    decreases list.len(),
{
    let rest = leaves(list.drop_last(), dir, opts, dev);
    if x < list.len() - 1 {
        assert(list.drop_last()[x] == list[x]);
        let m = lemma_leaf_for(list.drop_last(), dir, opts, dev, x);
        m
    } else {
        rest.len() as int
    }
}

/// Subdirectory `k` stands for entry `x`.
spec fn sub_at(list: Seq<Option<Entry>>, dir: Seq<u8>, opts: ScanOptions, dev: u64, k: int, x: int) -> bool {
    &&& 0 <= x < list.len()
    &&& fate(list[x], dir, opts, dev) is SubDir
    &&& sub_views(list, dir, opts, dev)[k].exact == list[x]->0.name@
    &&& sub_views(list, dir, opts, dev)[k].path == join_bytes(dir, list[x]->0.name@)
}

proof fn lemma_sub_at(list: Seq<Option<Entry>>, dir: Seq<u8>, opts: ScanOptions, dev: u64, k: int) -> (x: int)
    requires
        0 <= k < sub_views(list, dir, opts, dev).len(),
    ensures
        sub_at(list, dir, opts, dev, k, x),
    decreases list.len(),
{
    let rest = sub_views(list.drop_last(), dir, opts, dev);
    if k < rest.len() {
        let x = lemma_sub_at(list.drop_last(), dir, opts, dev, k);
        assert(list.drop_last()[x] == list[x]);
        x
    } else {
        list.len() - 1
    }
}

proof fn lemma_subs_apart(list: Seq<Option<Entry>>, dir: Seq<u8>, opts: ScanOptions, dev: u64, j: int, k: int) -> (r: (int, int))
    requires
        0 <= j < k < sub_views(list, dir, opts, dev).len(),
    ensures
        sub_at(list, dir, opts, dev, j, r.0),
        sub_at(list, dir, opts, dev, k, r.1),
        r.0 < r.1,
    decreases list.len(),
{
    let rest = sub_views(list.drop_last(), dir, opts, dev);
    if k < rest.len() {
        let r = lemma_subs_apart(list.drop_last(), dir, opts, dev, j, k);
        assert(list.drop_last()[r.0] == list[r.0]);
        assert(list.drop_last()[r.1] == list[r.1]);
        r
    } else {
        let x = lemma_sub_at(list.drop_last(), dir, opts, dev, j);
        assert(list.drop_last()[x] == list[x]);
        (x, list.len() - 1)
    }
}

// The children of one directory.

spec fn both(node: Tmp, subs: Seq<Tmp>) -> Seq<Tmp> {
    node.children@ + subs
}

spec fn exact_of(t: Tmp) -> Seq<u8> {
    exact_name(t.name@, t.raw)
}

/// What child `m` of a directory stands for: entry `x`, unless it is the node
/// of the small files.
spec fn stands_for(d: Dir, opts: ScanOptions, dev: u64, t: Tmp, x: int) -> bool {
    &&& 0 <= x < d.list.len()
    &&& d.list[x] is Some
    &&& exact_of(t) == d.list[x]->0.name@
    &&& match fate(d.list[x], d.path, opts, dev) {
        Fate::Mount => t.kind == NodeKind::Mount,
        Fate::Large => t.kind == NodeKind::File && t.size == d.list[x]->0.size,
        Fate::SubDir => t.kind == NodeKind::Dir,
        _ => false,
    }
}

proof fn lemma_child(t: Tmp, d: Dir, opts: ScanOptions, dev: u64, node: Tmp, subs: Seq<Tmp>, m: int) -> (x: int)
    requires
        made_of(t, d, opts, dev, node, subs),
        0 <= m < both(node, subs).len(),
    ensures
        ({
            let c = both(node, subs)[m];
            let l = leaves(d.list, d.path, opts, dev).len();
            &&& m != l || m >= node.children@.len() ==> stands_for(d, opts, dev, c, x)
            &&& m == l && m < node.children@.len() ==> c.kind == NodeKind::Aggregate && c.size == small_bytes(
                d.list,
                d.path,
                opts,
                dev,
            )
            &&& m < node.children@.len() ==> c.children@.len() == 0
            &&& l <= node.children@.len() <= l + 1
        }),
{
    let lv = leaves(d.list, d.path, opts, dev);
    let f = folded(small_bytes(d.list, d.path, opts, dev), small_count(d.list, d.path, opts, dev));
    assert(leaf_views(node.children@) == lv + f);
    assert(leaf_views(node.children@).len() == node.children@.len());
    if m < node.children@.len() {
        assert(leaf_of(node.children@[m]) == (lv + f)[m]);
        assert(both(node, subs)[m] == node.children@[m]);
        if m < lv.len() {
            let x = lemma_leaf_at(d.list, d.path, opts, dev, m);
            x
        } else {
            0
        }
    } else {
        let k = m - node.children@.len();
        assert(both(node, subs)[m] == subs[k]);
        let x = lemma_sub_at(d.list, d.path, opts, dev, k);
        x
    }
}

/// Two children that stand for entries have different names.
proof fn lemma_children_apart(t: Tmp, d: Dir, opts: ScanOptions, dev: u64, node: Tmp, subs: Seq<Tmp>, m: int, n: int)
    requires
        made_of(t, d, opts, dev, node, subs),
        plain_list(d.list),
        0 <= m < n < both(node, subs).len(),
        both(node, subs)[m].kind != NodeKind::Aggregate,
        both(node, subs)[n].kind != NodeKind::Aggregate,
    ensures
        exact_of(both(node, subs)[m]) != exact_of(both(node, subs)[n]),
{
    let lv = leaves(d.list, d.path, opts, dev);
    let f = folded(small_bytes(d.list, d.path, opts, dev), small_count(d.list, d.path, opts, dev));
    let kids = node.children@;
    assert(leaf_views(kids) == lv + f);
    assert(leaf_views(kids).len() == kids.len());
    let a = lemma_child(t, d, opts, dev, node, subs, m);
    let b = lemma_child(t, d, opts, dev, node, subs, n);
    if n < kids.len() {
        assert(leaf_of(kids[m]) == (lv + f)[m]);
        assert(leaf_of(kids[n]) == (lv + f)[n]);
        let r = lemma_leaves_apart(d.list, d.path, opts, dev, m, n);
        assert(d.list[r.0] is Some && d.list[r.1] is Some);
    } else if m >= kids.len() {
        assert(both(node, subs)[m] == subs[m - kids.len()]);
        assert(both(node, subs)[n] == subs[n - kids.len()]);
        let r = lemma_subs_apart(d.list, d.path, opts, dev, m - kids.len(), n - kids.len());
        assert(d.list[r.0] is Some && d.list[r.1] is Some);
    } else {
        assert(a != b) by {
            assert(both(node, subs)[n].kind == NodeKind::Dir) by {
                assert(both(node, subs)[n] == subs[n - kids.len()]);
            }
            assert(leaf_of(kids[m]) == (lv + f)[m]);
            let x = lemma_leaf_at(d.list, d.path, opts, dev, m);
        }
        assert(d.list[a] is Some && d.list[b] is Some);
    }
}

// Positions in the arena.

/// Child `k` of a laid out list lies at its own place.
proof fn lemma_kid_place(nodes: Seq<Node>, kids: Seq<usize>, at: int, list: Seq<Tmp>, parent: Option<usize>, k: int)
    requires
        planted_all(nodes, kids, at, list, parent),
        0 <= k < list.len(),
    ensures
        kids.len() == list.len(),
        kids[k] == at + weights(list.take(k)),
        planted(nodes, kids[k] as int, list[k], parent),
    decreases list.len(),
{
    if k < list.len() - 1 {
        lemma_kid_place(nodes, kids.drop_last(), at, list.drop_last(), parent, k);
        assert(list.drop_last().take(k) =~= list.take(k));
    } else {
        assert(list.take(k) =~= list.drop_last());
    }
}

proof fn lemma_weights_between(list: Seq<Tmp>, j: int, k: int)
    requires
        0 <= j < k <= list.len(),
    ensures
        weights(list.take(j)) + weight(list[j]) <= weights(list.take(k)),
    decreases k,
{
    assert(list.take(k).drop_last() =~= list.take(k - 1));
    assert(list.take(k).last() == list[k - 1]);
    if j < k - 1 {
        lemma_weights_between(list, j, k - 1);
    }
}

/// Which child's layout holds index `j`.
proof fn lemma_which_kid(list: Seq<Tmp>, at: int, j: int) -> (k: int)
    requires
        at <= j < at + weights(list),
    ensures
        0 <= k < list.len(),
        at + weights(list.take(k)) <= j < at + weights(list.take(k)) + weight(list[k]),
    decreases list.len(),
{
    let last = at + weights(list.drop_last());
    if j >= last {
        assert(list.take(list.len() - 1) =~= list.drop_last());
        list.len() - 1
    } else {
        let k = lemma_which_kid(list.drop_last(), at, j);
        assert(list.drop_last().take(k) =~= list.take(k));
        k
    }
}

/// What is known of node `j` and its children.
spec fn entries_ok(n: Seq<Node>, j: int) -> bool {
    let kids = n[j].children@;
    &&& kids.len() > 0 ==> n[j].kind == NodeKind::Dir
    &&& forall|k: int|
        0 <= k < kids.len() ==> if n[(#[trigger] kids[k]) as int].kind == NodeKind::Aggregate {
            n[kids[k] as int].children@.len() == 0
        } else {
            plain_name(n[kids[k] as int].exact())
        }
    &&& forall|k: int, m: int|
        0 <= k < m < kids.len() && n[(#[trigger] kids[k]) as int].kind != NodeKind::Aggregate && n[(
        #[trigger] kids[m]) as int].kind != NodeKind::Aggregate ==> n[kids[k] as int].exact() != n[kids[m] as int].exact()
}

/// The order in which a finished directory has its children.
spec fn child_places(t: Tmp, node: Tmp, subs: Seq<Tmp>) -> Seq<usize> {
    choose|o: Seq<usize>| #[trigger] child_order(both(node, subs), o) && t.children@ == arranged(both(node, subs), o)
}

proof fn lemma_child_places(t: Tmp, node: Tmp, subs: Seq<Tmp>)
    requires
        finished(node, subs, t),
    ensures
        rearranges(child_places(t, node, subs), both(node, subs).len() as int),
        t.children@ == arranged(both(node, subs), child_places(t, node, subs)),
        t.children@.len() == both(node, subs).len(),
{
}

proof fn lemma_entries_here(n: Seq<Node>, i: int, t: Tmp, d: Dir, opts: ScanOptions, dev: u64, parent: Option<usize>, node: Tmp, subs: Seq<Tmp>)
    requires
        planted(n, i, t, parent),
        made_of(t, d, opts, dev, node, subs),
        plain_list(d.list),
    ensures
        entries_ok(n, i),
{
    let kids = n[i].children@;
    let all = both(node, subs);
    let p = child_places(t, node, subs);
    lemma_child_places(t, node, subs);
    assert forall|k: int| 0 <= k < kids.len() implies if n[(#[trigger] kids[k]) as int].kind == NodeKind::Aggregate {
        n[kids[k] as int].children@.len() == 0
    } else {
        plain_name(n[kids[k] as int].exact())
    } by {
        lemma_kid_place(n, kids, i + 1, t.children@, Some(i as usize), k);
        assert(t.children@[k] == all[p[k] as int]);
        let x = lemma_child(t, d, opts, dev, node, subs, p[k] as int);
        assert(carries(n[kids[k] as int], t.children@[k]));
    }
    assert forall|k: int, m: int|
        0 <= k < m < kids.len() && n[(#[trigger] kids[k]) as int].kind != NodeKind::Aggregate && n[(
        #[trigger] kids[m]) as int].kind != NodeKind::Aggregate implies n[kids[k] as int].exact()
        != n[kids[m] as int].exact() by {
        lemma_kid_place(n, kids, i + 1, t.children@, Some(i as usize), k);
        lemma_kid_place(n, kids, i + 1, t.children@, Some(i as usize), m);
        assert(carries(n[kids[k] as int], t.children@[k]));
        assert(carries(n[kids[m] as int], t.children@[m]));
        assert(p[k] != p[m]);
        if p[k] < p[m] {
            lemma_children_apart(t, d, opts, dev, node, subs, p[k] as int, p[m] as int);
        } else {
            lemma_children_apart(t, d, opts, dev, node, subs, p[m] as int, p[k] as int);
        }
    }
}

/// The files of the children `kids`.
pub open spec fn kids_files(nodes: Seq<Node>, kids: Seq<usize>) -> nat
    decreases kids.len(),
{
    if kids.len() == 0 {
        0
    } else {
        kids_files(nodes, kids.drop_last()) + nodes[kids.last() as int].files as nat
    }
}

proof fn lemma_kids_files(nodes: Seq<Node>, kids: Seq<usize>, at: int, list: Seq<Tmp>, parent: Option<usize>)
    requires
        planted_all(nodes, kids, at, list, parent),
    ensures
        kids_files(nodes, kids) == total_of(counts(list)),
    decreases list.len(),
{
    if list.len() > 0 {
        lemma_kids_files(nodes, kids.drop_last(), at, list.drop_last(), parent);
        let i = at + weights(list.drop_last());
        assert(planted(nodes, i, list.last(), parent));
        assert(carries(nodes[i], list.last()));
        assert(counts(list).drop_last() =~= counts(list.drop_last()));
        assert(counts(list).last() == list.last().files as nat);
    } else {
        assert(counts(list) =~= Seq::empty());
    }
}

/// A directory is its own blocks and its children, before links are settled.
proof fn lemma_sum_here(n: Seq<Node>, i: int, t: Tmp, d: Dir, opts: ScanOptions, dev: u64, parent: Option<usize>)
    requires
        planted(n, i, t, parent),
        scanned(t, d, opts, dev),
    ensures
        n[i].kind == NodeKind::Dir,
        n[i].size == d.own + kids_total(n, n[i].children@),
        n[i].files == kids_files(n, n[i].children@),
{
    let kids = n[i].children@;
    assert(carries(n[i], t));
    lemma_kids_total(n, kids, i + 1, t.children@, Some(i as usize));
    lemma_kids_files(n, kids, i + 1, t.children@, Some(i as usize));
    if d.read {
        let (node, subs) = choose|node: Tmp, subs: Seq<Tmp>| #[trigger] made_of(t, d, opts, dev, node, subs) && forall|k: int|
            0 <= k < d.subs.len() ==> scanned(#[trigger] subs[k], d.subs[k], opts, dev);
        let all = both(node, subs);
        let p = child_places(t, node, subs);
        lemma_child_places(t, node, subs);
        lemma_total_rearranged(sizes(all), p);
        lemma_total_rearranged(counts(all), p);
        assert(sizes(t.children@) =~= Seq::new(p.len(), |x: int| sizes(all)[p[x] as int]));
        assert(counts(t.children@) =~= Seq::new(p.len(), |x: int| counts(all)[p[x] as int]));
        assert(sizes(all) =~= sizes(node.children@) + sizes(subs));
        assert(counts(all) =~= counts(node.children@) + counts(subs));
        lemma_total_concat(sizes(node.children@), sizes(subs));
        lemma_total_concat(counts(node.children@), counts(subs));
    } else {
        assert(sizes(t.children@) =~= Seq::empty());
        assert(counts(t.children@) =~= Seq::empty());
    }
}

proof fn lemma_sorted_here(n: Seq<Node>, i: int, t: Tmp, d: Dir, opts: ScanOptions, dev: u64, parent: Option<usize>, node: Tmp, subs: Seq<Tmp>)
    requires
        planted(n, i, t, parent),
        made_of(t, d, opts, dev, node, subs),
    ensures
        by_size(n, i),
{
    let kids = n[i].children@;
    let all = both(node, subs);
    let p = child_places(t, node, subs);
    lemma_child_places(t, node, subs);
    assert(child_order(all, p));
    assert forall|k: int, m: int| 0 <= k < m < kids.len() implies n[(#[trigger] kids[k]) as int].size >= n[(
    #[trigger] kids[m]) as int].size by {
        lemma_kid_place(n, kids, i + 1, t.children@, Some(i as usize), k);
        lemma_kid_place(n, kids, i + 1, t.children@, Some(i as usize), m);
        assert(carries(n[kids[k] as int], t.children@[k]));
        assert(carries(n[kids[m] as int], t.children@[m]));
        assert(t.children@[k] == all[p[k] as int] && t.children@[m] == all[p[m] as int]);
    }
}

/// The subtree at child `k`: a leaf, or a subdirectory.
proof fn lemma_below(n: Seq<Node>, i: int, t: Tmp, d: Dir, opts: ScanOptions, dev: u64, parent: Option<usize>, node: Tmp, subs: Seq<Tmp>, k: int) -> (q: int)
    requires
        planted(n, i, t, parent),
        made_of(t, d, opts, dev, node, subs),
        0 <= k < t.children@.len(),
    ensures
        0 <= n[i].children@[k] < n.len(),
        planted(n, n[i].children@[k] as int, t.children@[k], Some(i as usize)),
        q < subs.len(),
        q >= 0 ==> t.children@[k] == subs[q],
        q < 0 ==> t.children@[k].children@.len() == 0 && weight(t.children@[k]) == 1,
{
    let p = child_places(t, node, subs);
    lemma_child_places(t, node, subs);
    lemma_kid_place(n, n[i].children@, i + 1, t.children@, Some(i as usize), k);
    let m = p[k] as int;
    assert(t.children@[k] == both(node, subs)[m]);
    let x = lemma_child(t, d, opts, dev, node, subs, m);
    m - node.children@.len()
}

proof fn lemma_entries(n: Seq<Node>, i: int, t: Tmp, d: Dir, opts: ScanOptions, dev: u64, parent: Option<usize>, j: int)
    requires
        planted(n, i, t, parent),
        scanned(t, d, opts, dev),
        walked(d, opts, dev),
        i <= j < i + weight(t),
    ensures
        entries_ok(n, j),
        kids_total(n, n[j].children@) <= n[j].size,
        by_size(n, j),
    decreases d,
{
    if d.read {
        let (node, subs) = choose|node: Tmp, subs: Seq<Tmp>| #[trigger] made_of(t, d, opts, dev, node, subs) && forall|k: int|
            0 <= k < d.subs.len() ==> scanned(#[trigger] subs[k], d.subs[k], opts, dev);
        if j == i {
            lemma_entries_here(n, i, t, d, opts, dev, parent, node, subs);
            lemma_sum_here(n, i, t, d, opts, dev, parent);
            lemma_sorted_here(n, i, t, d, opts, dev, parent, node, subs);
        } else {
            let k = lemma_which_kid(t.children@, i + 1, j);
            let q = lemma_below(n, i, t, d, opts, dev, parent, node, subs, k);
            lemma_kid_place(n, n[i].children@, i + 1, t.children@, Some(i as usize), k);
            if q >= 0 {
                assert(scanned(subs[q], d.subs[q], opts, dev));
                lemma_entries(n, n[i].children@[k] as int, t.children@[k], d.subs[q], opts, dev, Some(i as usize), j);
            }
        }
    } else {
        assert(weight(t) == 1);
    }
}

/// The nodes of a scan have the names of the entries that they stand for: the
/// listings' names are plain and differ, so those of the tree do.
pub proof fn law_scanned_nodes_are_named(n: Seq<Node>, t: Tmp, d: Dir, opts: ScanOptions, dev: u64)
    requires
        walked(d, opts, dev),
        scanned(t, d, opts, dev),
        planted(n, 0, t, None),
        n.len() == weight(t),
        n.len() <= usize::MAX,
    ensures
        is_tree(n),
        is_named(n),
        only_dirs_hold(n),
        forall|j: int| 0 <= j < n.len() ==> #[trigger] by_size(n, j),
{
    lemma_planted_is_tree(n, t);
    assert forall|j: int| 0 <= j < n.len() implies #[trigger] entries_ok(n, j) by {
        lemma_entries(n, 0, t, d, opts, dev, None, j);
    }
    assert forall|j: int| 0 <= j < n.len() implies #[trigger] by_size(n, j) by {
        lemma_entries(n, 0, t, d, opts, dev, None, j);
    }
    assert forall|j: int| 0 <= j < n.len() implies kids_total(n, (#[trigger] n[j]).children@) <= n[j].size && (
    n[j].children@.len() > 0 ==> n[j].kind == NodeKind::Dir) by {
        lemma_entries(n, 0, t, d, opts, dev, None, j);
    }
    assert forall|i: int| 0 < i < n.len() && (#[trigger] n[i]).kind != NodeKind::Aggregate implies plain_name(
        n[i].exact(),
    ) by {
        let k = lemma_listed_at(n, i);
        assert(entries_ok(n, n[i].parent->0 as int));
    }
    assert forall|i: int, j: int| 0 < i < n.len() && 0 < j < n.len() && i != j implies #[trigger] told_apart(n, i, j) by {
        let a = lemma_listed_at(n, i);
        let b = lemma_listed_at(n, j);
        assert(entries_ok(n, n[i].parent->0 as int));
        if a < b {
        } else {
        }
    }
    assert forall|i: int| 0 <= i < n.len() && (#[trigger] n[i]).kind == NodeKind::Aggregate implies n[i].children@.len() == 0 by {
        if i > 0 {
            let k = lemma_listed_at(n, i);
            assert(entries_ok(n, n[i].parent->0 as int));
        } else {
            assert(carries(n[0], t));
            assert(entries_ok(n, 0));
        }
    }
}

proof fn lemma_listed_at(n: Seq<Node>, i: int) -> (k: int)
    requires
        is_tree(n),
        0 < i < n.len(),
    ensures
        n[i].parent is Some,
        0 <= n[i].parent->0 < i,
        0 <= k < n[n[i].parent->0 as int].children@.len(),
        n[n[i].parent->0 as int].children@[k] == i,
{
    assert(parent_ok(n, i));
    let kids = n[n[i].parent->0 as int].children@;
    choose|k: int| 0 <= k < kids.len() && kids[k] == i as usize
}

// Where the bytes of links are.

spec fn is_link(e: Option<Entry>) -> bool {
    e is Some && e->0.kind == EntryKind::Other && e->0.nlink > 1
}

spec fn link_of(dir: Seq<u8>, e: Entry) -> LinkView {
    LinkView { dev: e.dev, ino: e.ino, path: join_bytes(dir, e.name@), size: e.size }
}

spec fn fits_kid(nodes: Seq<Node>, c: int, kind: NodeKind, name: Seq<u8>) -> bool {
    nodes[c].kind == kind && (kind != NodeKind::File || nodes[c].exact() == name)
}

proof fn lemma_kid_found(nodes: Seq<Node>, kids: Seq<usize>, kind: NodeKind, name: Seq<u8>)
    ensures
        kid_of(nodes, kids, kind, name) matches Some(c) ==> fits_kid(nodes, c, kind, name) && exists|k: int|
            0 <= k < kids.len() && #[trigger] kids[k] == c,
        kid_of(nodes, kids, kind, name) is None ==> forall|k: int|
            0 <= k < kids.len() ==> !fits_kid(nodes, (#[trigger] kids[k]) as int, kind, name),
    decreases kids.len(),
{
    lemma_kid_listed(nodes, kids, kind, name);
    if kids.len() > 0 {
        let rest = kids.skip(1);
        lemma_kid_found(nodes, rest, kind, name);
        if kid_of(nodes, kids, kind, name) is None {
            assert forall|k: int| 0 <= k < kids.len() implies !fits_kid(nodes, (#[trigger] kids[k]) as int, kind, name) by {
                if k > 0 {
                    assert(rest[k - 1] == kids[k]);
                }
            }
        }
    }
}

/// Where child `m` of a directory, in the order of its listing, lies.
proof fn lemma_place_of(n: Seq<Node>, i: int, t: Tmp, parent: Option<usize>, node: Tmp, subs: Seq<Tmp>, m: int) -> (k: int)
    requires
        planted(n, i, t, parent),
        finished(node, subs, t),
        0 <= m < both(node, subs).len(),
    ensures
        0 <= k < n[i].children@.len() == t.children@.len(),
        t.children@[k] == both(node, subs)[m],
        child_places(t, node, subs)[k] == m,
        planted(n, n[i].children@[k] as int, t.children@[k], Some(i as usize)),
        carries(n[n[i].children@[k] as int], t.children@[k]),
        n[i].children@[k] == i + 1 + weights(t.children@.take(k)),
{
    let p = child_places(t, node, subs);
    lemma_child_places(t, node, subs);
    assert(t.children.len() == t.children@.len());
    assert(p.contains(m as usize));
    let k = choose|k: int| 0 <= k < p.len() && p[k] == m as usize;
    lemma_kid_place(n, n[i].children@, i + 1, t.children@, Some(i as usize), k);
    k
}

/// The node that counts a link lies in the directory that lists it.
#[verifier::rlimit(40)]
#[verifier::spinoff_prover]
proof fn lemma_link_spot(
    n: Seq<Node>,
    root: Seq<u8>,
    i: int,
    t: Tmp,
    d: Dir,
    opts: ScanOptions,
    dev: u64,
    parent: Option<usize>,
    node: Tmp,
    subs: Seq<Tmp>,
    x: int,
) -> (h: int)
    requires
        is_tree(n),
        is_named(n),
        root.len() > 0,
        planted(n, i, t, parent),
        made_of(t, d, opts, dev, node, subs),
        plain_list(d.list),
        path_at(n, root, i) == d.path,
        0 <= x < d.list.len(),
        is_link(d.list[x]),
    ensures
        link_dir(n, root, link_of(d.path, d.list[x]->0).path) == Some(i),
        held_by(n, root, link_of(d.path, d.list[x]->0)) == Some(h),
        0 < h < n.len(),
        exists|k: int| 0 <= k < n[i].children@.len() && #[trigger] n[i].children@[k] == h,
        n[h].children@.len() == 0,
        if fate(d.list[x], d.path, opts, dev) is Large {
            n[h].kind == NodeKind::File && n[h].exact() == d.list[x]->0.name@ && n[h].size == d.list[x]->0.size
        } else {
            fate(d.list[x], d.path, opts, dev) is Small && n[h].kind == NodeKind::Aggregate && n[h].size == small_bytes(
                d.list,
                d.path,
                opts,
                dev,
            )
        },
{
    let e = d.list[x]->0;
    let name = e.name@;
    let kids = n[i].children@;
    let all = both(node, subs);
    let l = link_of(d.path, e);
    let lv = leaves(d.list, d.path, opts, dev);
    assert(carries(n[i], t));
    lemma_join_comps(d.path, name);
    assert(comps(l.path).drop_last() =~= comps(d.path));
    assert(comps(l.path).last() == name);
    assert(name != root_comp()) by {
        if name == root_comp() {
            assert(name[0] == 47);
        }
    }
    law_find_inverts_path_of(n, root, i);
    assert(link_dir(n, root, l.path) == Some(i));
    lemma_kid_found(n, kids, NodeKind::File, name);
    lemma_kid_found(n, kids, NodeKind::Aggregate, name);
    // What a child of kind File or Aggregate stands for.
    assert forall|k: int| 0 <= k < kids.len() implies {
        let c = n[(#[trigger] kids[k]) as int];
        &&& c.kind == NodeKind::File && c.exact() == name ==> fate(d.list[x], d.path, opts, dev) is Large && c.size == e.size
            && c.children@.len() == 0
        &&& c.kind == NodeKind::Aggregate ==> c.size == small_bytes(d.list, d.path, opts, dev) && c.children@.len() == 0
    } by {
        let p = child_places(t, node, subs);
        lemma_child_places(t, node, subs);
        lemma_kid_place(n, kids, i + 1, t.children@, Some(i as usize), k);
        assert(carries(n[kids[k] as int], t.children@[k]));
        assert(t.children@[k] == all[p[k] as int]);
        let y = lemma_child(t, d, opts, dev, node, subs, p[k] as int);
        let c = n[kids[k] as int];
        if c.kind == NodeKind::File && c.exact() == name {
            assert(stands_for(d, opts, dev, all[p[k] as int], y));
            assert(d.list[x] is Some && d.list[y] is Some);
            assert(y == x);
        }
        assert(all[p[k] as int].kind == NodeKind::Dir ==> c.kind == NodeKind::Dir);
        if p[k] as int >= node.children@.len() {
            assert(all[p[k] as int] == subs[p[k] as int - node.children@.len()]);
        }
    }
    let h = if fate(d.list[x], d.path, opts, dev) is Large {
        let m = lemma_leaf_for(d.list, d.path, opts, dev, x);
        let f = folded(small_bytes(d.list, d.path, opts, dev), small_count(d.list, d.path, opts, dev));
        assert(leaf_views(node.children@) == lv + f);
        assert(leaf_views(node.children@).len() == node.children@.len());
        assert(leaf_of(node.children@[m]) == (lv + f)[m]);
        assert(all[m] == node.children@[m]);
        let k = lemma_place_of(n, i, t, parent, node, subs, m);
        assert(fits_kid(n, kids[k] as int, NodeKind::File, name));
        kid_of(n, kids, NodeKind::File, name)->0
    } else {
        assert(kid_of(n, kids, NodeKind::File, name) is None);
        lemma_some_small(d.list, d.path, opts, dev, x);
        let f = folded(small_bytes(d.list, d.path, opts, dev), small_count(d.list, d.path, opts, dev));
        assert(leaf_views(node.children@) == lv + f);
        assert(leaf_views(node.children@).len() == node.children@.len());
        let m = lv.len() as int;
        assert(leaf_of(node.children@[m]) == (lv + f)[m]);
        assert(all[m] == node.children@[m]);
        let k = lemma_place_of(n, i, t, parent, node, subs, m);
        assert(fits_kid(n, kids[k] as int, NodeKind::Aggregate, name));
        kid_of(n, kids, NodeKind::Aggregate, name)->0
    };
    let k = choose|k: int| 0 <= k < kids.len() && #[trigger] kids[k] == h;
    assert(child_ok(n, i, k));
    h
}

proof fn lemma_some_small(list: Seq<Option<Entry>>, dir: Seq<u8>, opts: ScanOptions, dev: u64, x: int)
    requires
        0 <= x < list.len(),
        fate(list[x], dir, opts, dev) is Small,
    ensures
        small_count(list, dir, opts, dev) > 0,
    decreases list.len(),
{
    if x < list.len() - 1 {
        assert(list.drop_last()[x] == list[x]);
        lemma_some_small(list.drop_last(), dir, opts, dev, x);
    }
}

proof fn lemma_shares_concat(n: Seq<Node>, root: Seq<u8>, a: Seq<LinkView>, b: Seq<LinkView>, h: int)
    ensures
        total_of(shares(n, root, a + b, h)) == total_of(shares(n, root, a, h)) + total_of(shares(n, root, b, h)),
{
    assert(shares(n, root, a + b, h) =~= shares(n, root, a, h) + shares(n, root, b, h));
    lemma_total_concat(shares(n, root, a, h), shares(n, root, b, h));
}

/// What the links among the first `q` entries of a directory add to node `h`.
#[verifier::rlimit(40)]
#[verifier::spinoff_prover]
proof fn lemma_own_shares(
    n: Seq<Node>,
    root: Seq<u8>,
    i: int,
    t: Tmp,
    d: Dir,
    opts: ScanOptions,
    dev: u64,
    parent: Option<usize>,
    node: Tmp,
    subs: Seq<Tmp>,
    h: int,
    q: int,
)
    requires
        is_tree(n),
        is_named(n),
        root.len() > 0,
        planted(n, i, t, parent),
        made_of(t, d, opts, dev, node, subs),
        plain_list(d.list),
        path_at(n, root, i) == d.path,
        0 <= q <= d.list.len(),
        0 <= h < n.len(),
    ensures
        ({
            let part = link_views(d.list.take(q), d.path);
            let tot = total_of(shares(n, root, part, h));
            &&& tot > 0 ==> n[h].children@.len() == 0 && exists|k: int|
                0 <= k < n[i].children@.len() && #[trigger] n[i].children@[k] == h
            &&& n[h].kind == NodeKind::Aggregate ==> tot <= small_bytes(d.list.take(q), d.path, opts, dev) && (tot > 0
                ==> n[h].size == small_bytes(d.list, d.path, opts, dev))
            &&& n[h].kind != NodeKind::Aggregate ==> tot <= n[h].size && (tot > 0 ==> exists|x: int|
                0 <= x < q && (#[trigger] d.list[x]) is Some && d.list[x]->0.name@ == n[h].exact())
            &&& forall|m: int|
                0 <= m < part.len() ==> link_dir(n, root, (#[trigger] part[m]).path) is Some && held_by(n, root, part[m]) is Some
        }),
    decreases q,
{
    let part = link_views(d.list.take(q), d.path);
    if q == 0 {
        assert(shares(n, root, part, h) =~= Seq::empty());
    } else {
        lemma_own_shares(n, root, i, t, d, opts, dev, parent, node, subs, h, q - 1);
        let x = q - 1;
        assert(d.list.take(q).drop_last() =~= d.list.take(x));
        assert(d.list.take(q).last() == d.list[x]);
        let rest = link_views(d.list.take(x), d.path);
        if is_link(d.list[x]) {
            let e = d.list[x]->0;
            let l = link_of(d.path, e);
            assert(part == rest.push(l));
            let g = lemma_link_spot(n, root, i, t, d, opts, dev, parent, node, subs, x);
            assert(shares(n, root, part, h).drop_last() =~= shares(n, root, rest, h));
            if g == h && n[h].kind != NodeKind::Aggregate && total_of(shares(n, root, rest, h)) > 0 {
                let y = choose|y: int|
                    0 <= y < x && (#[trigger] d.list[y]) is Some && d.list[y]->0.name@ == n[h].exact();
                assert(d.list[x] is Some);
                assert(false);
            }
            assert forall|m: int| 0 <= m < part.len() implies link_dir(n, root, (#[trigger] part[m]).path) is Some && held_by(
                n,
                root,
                part[m],
            ) is Some by {
                if m < rest.len() {
                    assert(part[m] == rest[m]);
                }
            }
            assert(d.list[x] is Some);
        } else {
            assert(part == rest);
        }
    }
}

/// Where subdirectory `r` lies.
proof fn lemma_sub_place(
    n: Seq<Node>,
    root: Seq<u8>,
    i: int,
    t: Tmp,
    d: Dir,
    opts: ScanOptions,
    dev: u64,
    parent: Option<usize>,
    node: Tmp,
    subs: Seq<Tmp>,
    r: int,
) -> (k: int)
    requires
        is_tree(n),
        planted(n, i, t, parent),
        made_of(t, d, opts, dev, node, subs),
        walked(d, opts, dev),
        path_at(n, root, i) == d.path,
        0 <= r < d.subs.len(),
    ensures
        0 <= k < n[i].children@.len() == t.children@.len(),
        child_places(t, node, subs)[k] == node.children@.len() + r,
        t.children@[k] == subs[r],
        n[i].children@[k] == i + 1 + weights(t.children@.take(k)),
        planted(n, n[i].children@[k] as int, subs[r], Some(i as usize)),
        path_at(n, root, n[i].children@[k] as int) == d.subs[r].path,
        i < n[i].children@[k],
        n[i].children@[k] + weight(subs[r]) <= i + weight(t),
{
    let m = node.children@.len() + r;
    let k = lemma_place_of(n, i, t, parent, node, subs, m);
    assert(both(node, subs)[m] == subs[r]);
    let c = n[i].children@[k] as int;
    assert(n[c].parent == Some(i as usize));
    let x = lemma_sub_at(d.list, d.path, opts, dev, r);
    assert(d.subs[r].path == sub_views(d.list, d.path, opts, dev)[r].path);
    assert(carries(n[c], subs[r]));
    assert(path_at(n, root, c) == join_bytes(path_at(n, root, i), n[c].exact()));
    assert(subs[r].kind == NodeKind::Dir);
    lemma_weights_between(t.children@, k, t.children@.len() as int);
    assert(t.children@.take(t.children@.len() as int) =~= t.children@);
    k
}

/// A child lies in the layout of its directory.
proof fn lemma_child_range(n: Seq<Node>, i: int, t: Tmp, parent: Option<usize>, k: int)
    requires
        planted(n, i, t, parent),
        0 <= k < t.children@.len(),
    ensures
        i < n[i].children@[k] < i + weight(t),
{
    lemma_kid_place(n, n[i].children@, i + 1, t.children@, Some(i as usize), k);
    lemma_weights_between(t.children@, k, t.children@.len() as int);
    assert(t.children@.take(t.children@.len() as int) =~= t.children@);
    assert(weight(t.children@[k]) >= 1);
}

/// A child of a directory does not lie below a subdirectory of it.
proof fn lemma_child_outside(
    n: Seq<Node>,
    root: Seq<u8>,
    i: int,
    t: Tmp,
    d: Dir,
    opts: ScanOptions,
    dev: u64,
    parent: Option<usize>,
    node: Tmp,
    subs: Seq<Tmp>,
    r: int,
    k: int,
)
    requires
        is_tree(n),
        planted(n, i, t, parent),
        made_of(t, d, opts, dev, node, subs),
        walked(d, opts, dev),
        path_at(n, root, i) == d.path,
        0 <= r < d.subs.len(),
        0 <= k < n[i].children@.len(),
    ensures
        !lies_in(n, i, t, node, subs, r, n[i].children@[k] as int),
{
    let h = n[i].children@[k] as int;
    if lies_in(n, i, t, node, subs, r, h) {
        let m = lemma_sub_place(n, root, i, t, d, opts, dev, parent, node, subs, r);
        lemma_lies_in(n, root, i, t, d, opts, dev, parent, node, subs, r, h, m);
        lemma_kid_place(n, n[i].children@, i + 1, t.children@, Some(i as usize), k);
        if k < m {
            lemma_weights_between(t.children@, k, m);
        } else if m < k {
            lemma_weights_between(t.children@, m, k);
        }
    }
}

/// What all links below a directory add to node `h`.
#[verifier::rlimit(40)]
#[verifier::spinoff_prover]
proof fn lemma_shares(
    n: Seq<Node>,
    root: Seq<u8>,
    i: int,
    t: Tmp,
    d: Dir,
    opts: ScanOptions,
    dev: u64,
    parent: Option<usize>,
    h: int,
)
    requires
        is_tree(n),
        is_named(n),
        root.len() > 0,
        planted(n, i, t, parent),
        scanned(t, d, opts, dev),
        walked(d, opts, dev),
        path_at(n, root, i) == d.path,
        0 <= h < n.len(),
    ensures
        total_of(shares(n, root, links_in(d), h)) <= n[h].size,
        total_of(shares(n, root, links_in(d), h)) > 0 ==> i < h < i + weight(t),
        forall|m: int|
            0 <= m < links_in(d).len() ==> link_dir(n, root, (#[trigger] links_in(d)[m]).path) is Some && held_by(
                n,
                root,
                links_in(d)[m],
            ) is Some,
    decreases d, d.subs.len() + 1,
{
    if d.read {
        let (node, subs) = choose|node: Tmp, subs: Seq<Tmp>| #[trigger] made_of(t, d, opts, dev, node, subs) && forall|k: int|
            0 <= k < d.subs.len() ==> scanned(#[trigger] subs[k], d.subs[k], opts, dev);
        let a = link_views(d.list, d.path);
        let b = links_in_all(d.subs);
        lemma_own_shares(n, root, i, t, d, opts, dev, parent, node, subs, h, d.list.len() as int);
        assert(d.list.take(d.list.len() as int) =~= d.list);
        lemma_sub_shares(n, root, i, t, d, opts, dev, parent, node, subs, h, d.subs.len() as int);
        assert(d.subs.take(d.subs.len() as int) =~= d.subs);
        lemma_shares_concat(n, root, a, b, h);
        if total_of(shares(n, root, a, h)) > 0 {
            let k = choose|k: int| 0 <= k < n[i].children@.len() && #[trigger] n[i].children@[k] == h;
            lemma_child_range(n, i, t, parent, k);
            if total_of(shares(n, root, b, h)) > 0 {
                let r = choose|r: int| 0 <= r < d.subs.len() && #[trigger] lies_in(n, i, t, node, subs, r, h);
                lemma_child_outside(n, root, i, t, d, opts, dev, parent, node, subs, r, k);
            }
        } else if total_of(shares(n, root, b, h)) > 0 {
            let r = choose|r: int| 0 <= r < d.subs.len() && #[trigger] lies_in(n, i, t, node, subs, r, h);
            let m = lemma_sub_place(n, root, i, t, d, opts, dev, parent, node, subs, r);
            lemma_lies_in(n, root, i, t, d, opts, dev, parent, node, subs, r, h, m);
        }
        assert forall|m: int| 0 <= m < links_in(d).len() implies link_dir(n, root, (#[trigger] links_in(d)[m]).path) is Some
            && held_by(n, root, links_in(d)[m]) is Some by {
            if m < a.len() {
                assert(links_in(d)[m] == a[m]);
            } else {
                assert(links_in(d)[m] == b[m - a.len()]);
            }
        }
    } else {
        assert(links_in(d) =~= Seq::empty());
        assert(shares(n, root, links_in(d), h) =~= Seq::empty());
    }
}

/// Node `h` lies below subdirectory `r`.
spec fn lies_in(n: Seq<Node>, i: int, t: Tmp, node: Tmp, subs: Seq<Tmp>, r: int, h: int) -> bool {
    exists|k: int|
        0 <= k < n[i].children@.len() && child_places(t, node, subs)[k] == node.children@.len() + r && (
        #[trigger] n[i].children@[k]) < h < n[i].children@[k] + weight(subs[r])
}

proof fn lemma_lies_in(
    n: Seq<Node>,
    root: Seq<u8>,
    i: int,
    t: Tmp,
    d: Dir,
    opts: ScanOptions,
    dev: u64,
    parent: Option<usize>,
    node: Tmp,
    subs: Seq<Tmp>,
    r: int,
    h: int,
    m: int,
)
    requires
        planted(n, i, t, parent),
        made_of(t, d, opts, dev, node, subs),
        lies_in(n, i, t, node, subs, r, h),
        0 <= m < n[i].children@.len(),
        child_places(t, node, subs)[m] == node.children@.len() + r,
    ensures
        n[i].children@[m] < h < n[i].children@[m] + weight(subs[r]),
{
    lemma_child_places(t, node, subs);
    let k = choose|k: int|
        0 <= k < n[i].children@.len() && child_places(t, node, subs)[k] == node.children@.len() + r && (
        #[trigger] n[i].children@[k]) < h < n[i].children@[k] + weight(subs[r]);
    assert(k == m);
}

#[verifier::rlimit(40)]
#[verifier::spinoff_prover]
proof fn lemma_sub_shares(
    n: Seq<Node>,
    root: Seq<u8>,
    i: int,
    t: Tmp,
    d: Dir,
    opts: ScanOptions,
    dev: u64,
    parent: Option<usize>,
    node: Tmp,
    subs: Seq<Tmp>,
    h: int,
    q: int,
)
    requires
        is_tree(n),
        is_named(n),
        root.len() > 0,
        planted(n, i, t, parent),
        made_of(t, d, opts, dev, node, subs),
        forall|k: int| 0 <= k < d.subs.len() ==> scanned(#[trigger] subs[k], d.subs[k], opts, dev),
        walked(d, opts, dev),
        path_at(n, root, i) == d.path,
        0 <= q <= d.subs.len(),
        0 <= h < n.len(),
    ensures
        ({
            let part = links_in_all(d.subs.take(q));
            let tot = total_of(shares(n, root, part, h));
            &&& tot <= n[h].size
            &&& tot > 0 ==> exists|r: int| 0 <= r < q && #[trigger] lies_in(n, i, t, node, subs, r, h)
            &&& forall|m: int|
                0 <= m < part.len() ==> link_dir(n, root, (#[trigger] part[m]).path) is Some && held_by(n, root, part[m]) is Some
        }),
    decreases d, q,
{
    let part = links_in_all(d.subs.take(q));
    if q == 0 {
        assert(part =~= Seq::empty());
        assert(shares(n, root, part, h) =~= Seq::empty());
    } else {
        lemma_sub_shares(n, root, i, t, d, opts, dev, parent, node, subs, h, q - 1);
        let r = q - 1;
        let rest = links_in_all(d.subs.take(r));
        let last = links_in(d.subs[r]);
        assert(d.subs.take(q).drop_last() =~= d.subs.take(r));
        assert(d.subs.take(q).last() == d.subs[r]);
        assert(part == rest + last);
        let k = lemma_sub_place(n, root, i, t, d, opts, dev, parent, node, subs, r);
        let c = n[i].children@[k] as int;
        assert(scanned(subs[r], d.subs[r], opts, dev));
        lemma_shares(n, root, c, subs[r], d.subs[r], opts, dev, Some(i as usize), h);
        lemma_shares_concat(n, root, rest, last, h);
        if total_of(shares(n, root, last, h)) > 0 {
            assert(lies_in(n, i, t, node, subs, r, h));
            if total_of(shares(n, root, rest, h)) > 0 {
                let y = choose|y: int| 0 <= y < r && #[trigger] lies_in(n, i, t, node, subs, y, h);
                let m = lemma_sub_place(n, root, i, t, d, opts, dev, parent, node, subs, y);
                lemma_lies_in(n, root, i, t, d, opts, dev, parent, node, subs, y, h, m);
                if k < m {
                    lemma_weights_between(t.children@, k, m);
                } else if m < k {
                    lemma_weights_between(t.children@, m, k);
                }
                assert(false);
            }
        }
        assert forall|m: int| 0 <= m < part.len() implies link_dir(n, root, (#[trigger] part[m]).path) is Some && held_by(
            n,
            root,
            part[m],
        ) is Some by {
            if m < rest.len() {
                assert(part[m] == rest[m]);
            } else {
                assert(part[m] == last[m - rest.len()]);
            }
        }
    }
}

/// Every further name of a file is found in the tree of the scan, and its bytes
/// are counted in a node of its directory; `p` is the order in which the scan
/// came by them.
pub proof fn law_links_are_held(
    n: Seq<Node>,
    root: Seq<u8>,
    t: Tmp,
    d: Dir,
    opts: ScanOptions,
    dev: u64,
    p: Seq<usize>,
)
    requires
        walked(d, opts, dev),
        scanned(t, d, opts, dev),
        planted(n, 0, t, None),
        n.len() == weight(t),
        n.len() <= usize::MAX,
        root.len() > 0,
        d.path == root,
        rearranges(p, links_in(d).len() as int),
    ensures
        bytes_held(n, root, arranged(links_in(d), p)),
        forall|m: int|
            0 <= m < p.len() ==> link_dir(n, root, (#[trigger] arranged(links_in(d), p)[m]).path) is Some,
{
    law_scanned_nodes_are_named(n, t, d, opts, dev);
    let l = links_in(d);
    let v = arranged(l, p);
    assert(path_at(n, root, 0) == root);
    assert forall|m: int| 0 <= m < v.len() implies link_dir(n, root, (#[trigger] v[m]).path) is Some && held_by(
        n,
        root,
        v[m],
    ) is Some by {
        lemma_shares(n, root, 0, t, d, opts, dev, None, 0);
        assert(v[m] == l[p[m] as int]);
    }
    assert forall|h: int| 0 <= h < n.len() implies total_of(#[trigger] shares(n, root, v, h)) <= n[h].size by {
        lemma_shares(n, root, 0, t, d, opts, dev, None, h);
        lemma_shares_rearranged(n, root, l, p, h);
    }
}

// No name is come by twice.

/// Link `m` of a listing stands for entry `x`.
spec fn link_at(list: Seq<Option<Entry>>, dir: Seq<u8>, m: int, x: int) -> bool {
    0 <= x < list.len() && is_link(list[x]) && link_views(list, dir)[m] == link_of(dir, list[x]->0)
}

proof fn lemma_link_at(list: Seq<Option<Entry>>, dir: Seq<u8>, m: int) -> (x: int)
    requires
        0 <= m < link_views(list, dir).len(),
    ensures
        link_at(list, dir, m, x),
    decreases list.len(),
{
    let rest = link_views(list.drop_last(), dir);
    if m < rest.len() {
        let x = lemma_link_at(list.drop_last(), dir, m);
        assert(list.drop_last()[x] == list[x]);
        x
    } else {
        list.len() - 1
    }
}

proof fn lemma_links_apart(list: Seq<Option<Entry>>, dir: Seq<u8>, a: int, b: int) -> (r: (int, int))
    requires
        0 <= a < b < link_views(list, dir).len(),
    ensures
        link_at(list, dir, a, r.0),
        link_at(list, dir, b, r.1),
        r.0 < r.1,
    decreases list.len(),
{
    let rest = link_views(list.drop_last(), dir);
    if b < rest.len() {
        let r = lemma_links_apart(list.drop_last(), dir, a, b);
        assert(list.drop_last()[r.0] == list[r.0]);
        assert(list.drop_last()[r.1] == list[r.1]);
        r
    } else {
        let x = lemma_link_at(list.drop_last(), dir, a);
        assert(list.drop_last()[x] == list[x]);
        (x, list.len() - 1)
    }
}

/// Which subdirectory a link comes from, and where it stands there.
proof fn lemma_which_sub(list: Seq<Dir>, m: int) -> (r: (int, int))
    requires
        0 <= m < links_in_all(list).len(),
    ensures
        0 <= r.0 < list.len(),
        0 <= r.1 < links_in(list[r.0]).len(),
        m == links_in_all(list.take(r.0)).len() + r.1,
        links_in_all(list)[m] == links_in(list[r.0])[r.1],
    decreases list.len(),
{
    let less = list.drop_last();
    let rest = links_in_all(less);
    if m < rest.len() {
        let r = lemma_which_sub(less, m);
        assert(less.take(r.0) =~= list.take(r.0));
        assert(less[r.0] == list[r.0]);
        r
    } else {
        assert(list.take(list.len() - 1) =~= less);
        (list.len() - 1, m - rest.len())
    }
}

/// The directory of a link lies in the layout of the directory that was read.
proof fn lemma_link_range(
    n: Seq<Node>,
    root: Seq<u8>,
    i: int,
    t: Tmp,
    d: Dir,
    opts: ScanOptions,
    dev: u64,
    parent: Option<usize>,
    m: int,
)
    requires
        is_tree(n),
        is_named(n),
        root.len() > 0,
        planted(n, i, t, parent),
        scanned(t, d, opts, dev),
        walked(d, opts, dev),
        path_at(n, root, i) == d.path,
        0 <= m < links_in(d).len(),
    ensures
        link_dir(n, root, links_in(d)[m].path) is Some,
        i <= link_dir(n, root, links_in(d)[m].path)->0 < i + weight(t),
        m < link_views(d.list, d.path).len() <==> link_dir(n, root, links_in(d)[m].path) == Some(i),
    decreases d,
{
    let a = link_views(d.list, d.path);
    assert(d.read) by {
        if !d.read {
            assert(links_in(d) =~= Seq::empty());
        }
    }
    let (node, subs) = choose|node: Tmp, subs: Seq<Tmp>| #[trigger] made_of(t, d, opts, dev, node, subs) && forall|k: int|
        0 <= k < d.subs.len() ==> scanned(#[trigger] subs[k], d.subs[k], opts, dev);
    if m < a.len() {
        let x = lemma_link_at(d.list, d.path, m);
        let h = lemma_link_spot(n, root, i, t, d, opts, dev, parent, node, subs, x);
        assert(links_in(d)[m] == a[m]);
    } else {
        let r = lemma_which_sub(d.subs, m - a.len());
        assert(links_in(d)[m] == links_in_all(d.subs)[m - a.len()]);
        let k = lemma_sub_place(n, root, i, t, d, opts, dev, parent, node, subs, r.0);
        assert(scanned(subs[r.0], d.subs[r.0], opts, dev));
        lemma_link_range(
            n,
            root,
            n[i].children@[k] as int,
            subs[r.0],
            d.subs[r.0],
            opts,
            dev,
            Some(i as usize),
            r.1,
        );
    }
}

#[verifier::rlimit(40)]
#[verifier::spinoff_prover]
proof fn lemma_paths_apart(
    n: Seq<Node>,
    root: Seq<u8>,
    i: int,
    t: Tmp,
    d: Dir,
    opts: ScanOptions,
    dev: u64,
    parent: Option<usize>,
    a: int,
    b: int,
)
    requires
        is_tree(n),
        is_named(n),
        root.len() > 0,
        planted(n, i, t, parent),
        scanned(t, d, opts, dev),
        walked(d, opts, dev),
        path_at(n, root, i) == d.path,
        0 <= a < links_in(d).len(),
        0 <= b < links_in(d).len(),
        a != b,
    ensures
        comps(links_in(d)[a].path) != comps(links_in(d)[b].path),
    decreases d,
{
    let own = link_views(d.list, d.path);
    let m = own.len() as int;
    lemma_link_range(n, root, i, t, d, opts, dev, parent, a);
    lemma_link_range(n, root, i, t, d, opts, dev, parent, b);
    if a < m && b < m {
        let r = if a < b {
            lemma_links_apart(d.list, d.path, a, b)
        } else {
            let q = lemma_links_apart(d.list, d.path, b, a);
            (q.1, q.0)
        };
        let (x, y) = (d.list[r.0]->0, d.list[r.1]->0);
        assert(links_in(d)[a] == own[a] && links_in(d)[b] == own[b]);
        assert(d.list[r.0] is Some && d.list[r.1] is Some);
        lemma_join_comps(d.path, x.name@);
        lemma_join_comps(d.path, y.name@);
        assert(comps(d.path).push(x.name@).last() == x.name@);
        assert(comps(d.path).push(y.name@).last() == y.name@);
        assert(x.name@ != y.name@) by {
            if r.0 < r.1 {
                assert(d.list[r.0]->0.name@ != d.list[r.1]->0.name@);
            } else {
                assert(d.list[r.1]->0.name@ != d.list[r.0]->0.name@);
            }
        }
    } else if a >= m && b >= m {
        assert(d.read);
        let (node, subs) = choose|node: Tmp, subs: Seq<Tmp>| #[trigger] made_of(t, d, opts, dev, node, subs) && forall|k: int|
            0 <= k < d.subs.len() ==> scanned(#[trigger] subs[k], d.subs[k], opts, dev);
        let q = lemma_which_sub(d.subs, a - m);
        let r = lemma_which_sub(d.subs, b - m);
        let j = lemma_sub_place(n, root, i, t, d, opts, dev, parent, node, subs, q.0);
        let k = lemma_sub_place(n, root, i, t, d, opts, dev, parent, node, subs, r.0);
        let (c, e) = (n[i].children@[j] as int, n[i].children@[k] as int);
        assert(scanned(subs[q.0], d.subs[q.0], opts, dev));
        assert(scanned(subs[r.0], d.subs[r.0], opts, dev));
        assert(links_in(d)[a] == links_in(d.subs[q.0])[q.1]);
        assert(links_in(d)[b] == links_in(d.subs[r.0])[r.1]);
        if q.0 == r.0 {
            lemma_paths_apart(n, root, c, subs[q.0], d.subs[q.0], opts, dev, Some(i as usize), q.1, r.1);
        } else {
            lemma_link_range(n, root, c, subs[q.0], d.subs[q.0], opts, dev, Some(i as usize), q.1);
            lemma_link_range(n, root, e, subs[r.0], d.subs[r.0], opts, dev, Some(i as usize), r.1);
            assert(j != k);
            if j < k {
                lemma_weights_between(t.children@, j, k);
            } else {
                lemma_weights_between(t.children@, k, j);
            }
        }
    }
}

/// A scan comes by every name of a file once.
pub proof fn law_scanned_links_are_named_once(n: Seq<Node>, root: Seq<u8>, t: Tmp, d: Dir, opts: ScanOptions, dev: u64)
    requires
        walked(d, opts, dev),
        scanned(t, d, opts, dev),
        planted(n, 0, t, None),
        n.len() == weight(t),
        n.len() <= usize::MAX,
        root.len() > 0,
        d.path == root,
    ensures
        names_once(links_in(d)),
{
    law_scanned_nodes_are_named(n, t, d, opts, dev);
    assert(path_at(n, root, 0) == root);
    let v = links_in(d);
    assert forall|i: int, j: int| 0 <= i < j < v.len() implies {
        let (a, b) = (#[trigger] v[i], #[trigger] v[j]);
        !(a.dev == b.dev && a.ino == b.ino && comps(a.path) == comps(b.path))
    } by {
        lemma_paths_apart(n, root, 0, t, d, opts, dev, None, i, j);
    }
}

/// Every directory of `d` has a node at its path in `b`: it is the directory's
/// own blocks and its children together, and has their files.
pub open spec fn adds_up(b: Seq<Node>, root: Seq<u8>, d: Dir) -> bool
    decreases d,
{
    &&& located(b, root, d.path) is Some
    &&& ({
        let x = b[located(b, root, d.path)->0];
        &&& x.kind == NodeKind::Dir
        &&& x.size == d.own + kids_total(b, x.children@)
        &&& x.files == kids_files(b, x.children@)
    })
    &&& forall|k: int| 0 <= k < d.subs.len() ==> adds_up(b, root, #[trigger] d.subs[k])
}

proof fn lemma_same_path(a: Seq<Node>, b: Seq<Node>, root: Seq<u8>, i: int)
    requires
        a.len() == b.len(),
        forall|j: int| 0 <= j < a.len() ==> #[trigger] resized(a, b, j),
        0 <= i < a.len(),
    ensures
        path_at(b, root, i) == path_at(a, root, i),
        b[i].exact() == a[i].exact(),
    decreases i,
{
    assert(resized(a, b, i));
    match a[i].parent {
        Some(p) if p < i => {
            lemma_same_path(a, b, root, p as int);
        },
        _ => {},
    }
}

proof fn lemma_files_is_total(n: Seq<Node>, kids: Seq<usize>)
    ensures
        kids_files(n, kids) == total_of(Seq::new(kids.len(), |k: int| n[kids[k] as int].files as nat)),
    decreases kids.len(),
{
    if kids.len() > 0 {
        lemma_files_is_total(n, kids.drop_last());
        let each = Seq::new(kids.len(), |k: int| n[kids[k] as int].files as nat);
        assert(each.drop_last() =~= Seq::new(kids.drop_last().len(), |k: int| n[kids.drop_last()[k] as int].files as nat));
    }
}

proof fn lemma_same_files(a: Seq<Node>, b: Seq<Node>, root: Seq<u8>, v: Seq<LinkView>, o: Seq<usize>, i: int)
    requires
        is_tree(a),
        counted_once(a, b, root, v, o),
        0 <= i < a.len(),
    ensures
        kids_files(b, b[i].children@) == kids_files(a, a[i].children@),
        b[i].children@.len() == a[i].children@.len(),
{
    let s = settled(a, root, node_sizes(a), v, o, v.len() as int);
    let kids = a[i].children@;
    let own = b[i].children@;
    let each = Seq::new(kids.len(), |k: int| a[kids[k] as int].files as nat);
    lemma_still_tree(a, b, root, v, o);
    lemma_files_is_total(a, kids);
    lemma_files_is_total(b, own);
    assert forall|k: int| 0 <= k < own.len() implies b[(#[trigger] own[k]) as int].files == a[own[k] as int].files by {
        assert(child_ok(b, i, k));
        assert(resized(a, b, own[k] as int));
    }
    if touched(a, root, v, o, v.len() as int, i) {
        assert(kids_sorted(a, s, kids, own));
        let p = choose|p: Seq<usize>| #[trigger] kid_order(a, s, kids, p) && own == arranged(kids, p);
        lemma_total_rearranged(each, p);
        assert(Seq::new(own.len(), |k: int| b[own[k] as int].files as nat) =~= Seq::new(
            p.len(),
            |k: int| each[p[k] as int],
        ));
    } else {
        assert(own == kids);
        assert(Seq::new(own.len(), |k: int| b[own[k] as int].files as nat) =~= each);
    }
}

/// Names survive the counting of links.
proof fn lemma_still_named(a: Seq<Node>, b: Seq<Node>, root: Seq<u8>, v: Seq<LinkView>, o: Seq<usize>)
    requires
        is_tree(a),
        is_named(a),
        counted_once(a, b, root, v, o),
    ensures
        is_tree(b),
        is_named(b),
{
    lemma_still_tree(a, b, root, v, o);
    assert forall|i: int| 0 < i < b.len() && (#[trigger] b[i]).kind != NodeKind::Aggregate implies plain_name(b[i].exact()) by {
        lemma_same_path(a, b, root, i);
        assert(resized(a, b, i));
        assert(a[i].kind != NodeKind::Aggregate);
    }
    assert forall|i: int, j: int| 0 < i < b.len() && 0 < j < b.len() && i != j implies #[trigger] told_apart(b, i, j) by {
        lemma_same_path(a, b, root, i);
        lemma_same_path(a, b, root, j);
        assert(resized(a, b, i) && resized(a, b, j));
        assert(told_apart(a, i, j));
    }
    assert forall|i: int| 0 <= i < b.len() && (#[trigger] b[i]).kind == NodeKind::Aggregate implies b[i].children@.len() == 0 by {
        assert(resized(a, b, i));
        assert(a[i].kind == NodeKind::Aggregate);
        lemma_same_files(a, b, root, v, o, i);
    }
}

#[verifier::rlimit(40)]
#[verifier::spinoff_prover]
proof fn lemma_adds_up(
    n: Seq<Node>,
    b: Seq<Node>,
    root: Seq<u8>,
    v: Seq<LinkView>,
    o: Seq<usize>,
    i: int,
    t: Tmp,
    d: Dir,
    opts: ScanOptions,
    dev: u64,
    parent: Option<usize>,
)
    requires
        is_tree(n),
        is_named(n),
        root.len() > 0,
        planted(n, i, t, parent),
        scanned(t, d, opts, dev),
        walked(d, opts, dev),
        path_at(n, root, i) == d.path,
        only_dirs_hold(n),
        rearranges(o, v.len() as int),
        bytes_held(n, root, v),
        counted_once(n, b, root, v, o),
    ensures
        adds_up(b, root, d),
    decreases d,
{
    lemma_still_named(n, b, root, v, o);
    lemma_same_path(n, b, root, i);
    assert(resized(n, b, i));
    lemma_sum_here(n, i, t, d, opts, dev, parent);
    law_find_inverts_path_of(b, root, i);
    law_own_blocks_stay(n, b, root, v, o, i);
    lemma_same_files(n, b, root, v, o, i);
    assert forall|k: int| 0 <= k < d.subs.len() implies adds_up(b, root, #[trigger] d.subs[k]) by {
        let (node, subs) = choose|node: Tmp, subs: Seq<Tmp>| #[trigger] made_of(t, d, opts, dev, node, subs) && forall|k: int|
            0 <= k < d.subs.len() ==> scanned(#[trigger] subs[k], d.subs[k], opts, dev);
        assert(d.read);
        assert(scanned(subs[k], d.subs[k], opts, dev));
        let m = lemma_sub_place(n, root, i, t, d, opts, dev, parent, node, subs, k);
        lemma_adds_up(
            n,
            b,
            root,
            v,
            o,
            n[i].children@[m] as int,
            subs[k],
            d.subs[k],
            opts,
            dev,
            Some(i as usize),
        );
    }
}

/// The tree of a finished scan, with each file counted once: its nodes are
/// named by what they stand for, every directory is its own blocks and its
/// children together and has their files, children stand by size, and nothing
/// but a directory has any. `n` is the tree as it was laid out, `p` the order
/// in which the scan came by further names of files.
pub proof fn law_every_directory_adds_up(
    n: Seq<Node>,
    b: Seq<Node>,
    root: Seq<u8>,
    t: Tmp,
    d: Dir,
    opts: ScanOptions,
    dev: u64,
    p: Seq<usize>,
    o: Seq<usize>,
)
    requires
        walked(d, opts, dev),
        scanned(t, d, opts, dev),
        d.path == root,
        root.len() > 0,
        planted(n, 0, t, None),
        n.len() == weight(t),
        n.len() <= usize::MAX,
        rearranges(p, links_in(d).len() as int),
        link_order(arranged(links_in(d), p), o),
        counted_once(n, b, root, arranged(links_in(d), p), o),
    ensures
        is_tree(b),
        is_named(b),
        adds_up(b, root, d),
        forall|i: int| 0 <= i < b.len() ==> #[trigger] by_size(b, i),
        forall|i: int| 0 <= i < b.len() && (#[trigger] b[i]).kind != NodeKind::Dir ==> b[i].children@.len() == 0,
{
    let v = arranged(links_in(d), p);
    law_scanned_nodes_are_named(n, t, d, opts, dev);
    law_links_are_held(n, root, t, d, opts, dev, p);
    lemma_still_named(n, b, root, v, o);
    assert(path_at(n, root, 0) == root);
    lemma_adds_up(n, b, root, v, o, 0, t, d, opts, dev, None);
    assert forall|i: int| 0 <= i < b.len() implies #[trigger] by_size(b, i) by {
        assert(by_size(n, i));
        law_children_stay_sorted(n, b, root, v, o, i);
    }
    assert forall|i: int| 0 <= i < b.len() && (#[trigger] b[i]).kind != NodeKind::Dir implies b[i].children@.len() == 0 by {
        assert(resized(n, b, i));
        assert(n[i].kind != NodeKind::Dir);
        lemma_same_files(n, b, root, v, o, i);
    }
}

/// In the tree of a finished scan, looking up the path of a node finds that
/// node again, whatever bytes its name has.
pub proof fn law_scanned_paths_are_found(
    n: Seq<Node>,
    b: Seq<Node>,
    root: Seq<u8>,
    t: Tmp,
    d: Dir,
    opts: ScanOptions,
    dev: u64,
    v: Seq<LinkView>,
    o: Seq<usize>,
    i: int,
)
    requires
        walked(d, opts, dev),
        scanned(t, d, opts, dev),
        root.len() > 0,
        planted(n, 0, t, None),
        n.len() == weight(t),
        n.len() <= usize::MAX,
        counted_once(n, b, root, v, o),
        0 <= i < b.len(),
        b[i].kind != NodeKind::Aggregate,
    ensures
        located(b, root, path_at(b, root, i)) == Some(i),
{
    law_scanned_nodes_are_named(n, t, d, opts, dev);
    lemma_still_named(n, b, root, v, o);
    law_find_inverts_path_of(b, root, i);
}

} // verus!
