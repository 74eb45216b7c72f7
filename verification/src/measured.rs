//! A walk of a directory and a scan of it come to the same.

use vstd::prelude::*;

use crate::links::{
    counted_once, extra_bytes, law_further_names_come_off_the_total, link_before, link_dir, link_order, node_sizes, resized,
};
use crate::listing::{
    law_links_are_held, law_scanned_nodes_are_named, links_in, links_in_all, made_of, scanned, walked, Dir,
};
use crate::order::{arranged, lemma_last_place, rearranges, total_of};
use crate::plant::{carries, planted, weight};
use crate::scan::{
    counts, fate, file_bytes, file_count, link_views, sizes, sub_views, Entry, EntryKind, LinkView, SubView, Tmp,
};
use crate::scanner::{Node, ScanOptions};
use crate::usage::{files_among, many_names, same_inode, usage_of, used_bytes, Visit};

verus! {

/// What a walk sees of an entry.
pub open spec fn visit_of(e: Entry) -> Visit {
    Visit {
        is_dir: e.kind == EntryKind::Dir,
        is_symlink: e.kind == EntryKind::Symlink,
        dev: e.dev,
        ino: e.ino,
        nlink: e.nlink,
        bytes: e.size,
    }
}

/// What a walk sees of a listing; it passes over what could not be read.
pub open spec fn entry_visits(list: Seq<Option<Entry>>) -> Seq<Visit>
    decreases list.len(),
{
    if list.len() == 0 {
        Seq::empty()
    } else {
        match list.last() {
            Some(e) => entry_visits(list.drop_last()).push(visit_of(e)),
            None => entry_visits(list.drop_last()),
        }
    }
}

/// What a walk below `d` comes by: its entries, then those of the directories
/// that it enters, one after the other.
pub open spec fn visits_in(d: Dir) -> Seq<Visit>
    decreases d,
{
    entry_visits(d.list) + visits_in_all(d.subs)
}

pub open spec fn visits_in_all(list: Seq<Dir>) -> Seq<Visit>
    decreases list,
{
    if list.len() == 0 {
        Seq::empty()
    } else {
        visits_in_all(list.drop_last()) + visits_in(list.last())
    }
}

/// Neither `d` nor a directory below it holds a virtual filesystem.
pub open spec fn no_virtual(d: Dir, opts: ScanOptions, dev: u64) -> bool
    decreases d,
{
    &&& forall|i: int| 0 <= i < d.list.len() ==> !(fate(#[trigger] d.list[i], d.path, opts, dev) is Skipped)
    &&& forall|k: int| 0 <= k < d.subs.len() ==> no_virtual(#[trigger] d.subs[k], opts, dev)
}

/// Two names of one file say the same of its size.
pub open spec fn sizes_agree(v: Seq<LinkView>) -> bool {
    forall|i: int, j: int|
        0 <= i < v.len() && 0 <= j < v.len() && one_file(#[trigger] v[i], #[trigger] v[j]) ==> v[i].size == v[j].size
}

pub open spec fn one_file(a: LinkView, b: LinkView) -> bool {
    a.dev == b.dev && a.ino == b.ino
}

// Each file once.

/// `v` names the file of `l`.
pub open spec fn file_known(v: Seq<LinkView>, l: LinkView) -> bool {
    exists|j: int| 0 <= j < v.len() && one_file(#[trigger] v[j], l)
}

/// The bytes of the files that `v` names, each once.
pub open spec fn bytes_once(v: Seq<LinkView>) -> nat
    decreases v.len(),
{
    if v.len() == 0 {
        0
    } else {
        bytes_once(v.drop_last()) + if file_known(v.drop_last(), v.last()) {
            0
        } else {
            v.last().size as nat
        }
    }
}

/// The bytes of the files that `v` names, once for each name.
pub open spec fn bytes_named(v: Seq<LinkView>) -> nat
    decreases v.len(),
{
    if v.len() == 0 {
        0
    } else {
        bytes_named(v.drop_last()) + v.last().size as nat
    }
}

proof fn lemma_every_concat(a: Seq<LinkView>, b: Seq<LinkView>)
    ensures
        bytes_named(a + b) == bytes_named(a) + bytes_named(b),
    decreases b.len(),
{
    if b.len() == 0 {
        assert(a + b =~= a);
    } else {
        lemma_every_concat(a, b.drop_last());
        assert((a + b).drop_last() =~= a + b.drop_last());
    }
}

spec fn known_besides(v: Seq<LinkView>, i: int) -> bool {
    exists|j: int| 0 <= j < v.len() && j != i && one_file(#[trigger] v[j], v[i])
}

proof fn lemma_known_push(v: Seq<LinkView>, y: LinkView, l: LinkView)
    ensures
        file_known(v.push(y), l) <==> file_known(v, l) || one_file(y, l),
{
    if file_known(v, l) {
        let j = choose|j: int| 0 <= j < v.len() && one_file(#[trigger] v[j], l);
        assert(v.push(y)[j] == v[j]);
    }
    assert(v.push(y)[v.len() as int] == y);
    if file_known(v.push(y), l) && !one_file(y, l) {
        let j = choose|j: int| 0 <= j < v.push(y).len() && one_file(#[trigger] v.push(y)[j], l);
        assert(v[j] == v.push(y)[j]);
    }
}

proof fn lemma_known_remove(v: Seq<LinkView>, i: int, l: LinkView)
    requires
        0 <= i < v.len(),
    ensures
        file_known(v, l) <==> file_known(v.remove(i), l) || one_file(v[i], l),
        known_besides(v, i) <==> file_known(v.remove(i), v[i]),
{
    let r = v.remove(i);
    assert forall|m: LinkView| file_known(r, m) <==> exists|j: int| 0 <= j < v.len() && j != i && one_file(#[trigger] v[j], m) by {
        if file_known(r, m) {
            let j = choose|j: int| 0 <= j < r.len() && one_file(#[trigger] r[j], m);
            let k = if j < i { j } else { j + 1 };
            assert(v[k] == r[j]);
        }
        if exists|j: int| 0 <= j < v.len() && j != i && one_file(#[trigger] v[j], m) {
            let j = choose|j: int| 0 <= j < v.len() && j != i && one_file(#[trigger] v[j], m);
            let k = if j < i { j } else { j - 1 };
            assert(r[k] == v[j]);
        }
    }
    if file_known(v, l) && !one_file(v[i], l) {
        let j = choose|j: int| 0 <= j < v.len() && one_file(#[trigger] v[j], l);
        assert(j != i);
    }
}

proof fn lemma_agree_less(v: Seq<LinkView>, i: int)
    requires
        sizes_agree(v),
        0 <= i < v.len(),
    ensures
        sizes_agree(v.remove(i)),
        sizes_agree(v.drop_last()),
{
    let r = v.remove(i);
    assert forall|a: int, b: int| 0 <= a < r.len() && 0 <= b < r.len() && one_file(#[trigger] r[a], #[trigger] r[b]) implies r[a].size
        == r[b].size by {
        let x = if a < i { a } else { a + 1 };
        let y = if b < i { b } else { b + 1 };
        assert(v[x] == r[a] && v[y] == r[b]);
    }
    let q = v.drop_last();
    assert forall|a: int, b: int| 0 <= a < q.len() && 0 <= b < q.len() && one_file(#[trigger] q[a], #[trigger] q[b]) implies q[a].size
        == q[b].size by {
        assert(v[a] == q[a] && v[b] == q[b]);
    }
}

/// One name more or less changes the bytes only where it is the only one.
#[verifier::rlimit(30)]
proof fn lemma_once_remove(v: Seq<LinkView>, i: int)
    requires
        sizes_agree(v),
        0 <= i < v.len(),
    ensures
        bytes_once(v) == bytes_once(v.remove(i)) + (if known_besides(v, i) {
            0
        } else {
            v[i].size as nat
        }),
        bytes_named(v) == bytes_named(v.remove(i)) + v[i].size,
    decreases v.len(),
{
    let m = v.drop_last();
    let y = v.last();
    assert(v =~= m.push(y));
    lemma_known_remove(v, i, y);
    if i == v.len() - 1 {
        assert(v.remove(i) =~= m);
    } else {
        lemma_agree_less(v, i);
        lemma_once_remove(m, i);
        assert(v.remove(i).drop_last() =~= m.remove(i));
        assert(v.remove(i) =~= m.remove(i).push(y));
        assert(m[i] == v[i]);
        lemma_known_remove(m, i, y);
        lemma_known_push(m.remove(i), y, v[i]);
        if one_file(v[i], y) {
            assert(v[i].size == v[v.len() - 1].size);
            // The inodes are the same, so what knows one knows the other.
            assert(file_known(m.remove(i), y) <==> file_known(m.remove(i), v[i])) by {
                if file_known(m.remove(i), y) {
                    let j = choose|j: int| 0 <= j < m.remove(i).len() && one_file(#[trigger] m.remove(i)[j], y);
                    assert(one_file(m.remove(i)[j], v[i]));
                }
                if file_known(m.remove(i), v[i]) {
                    let j = choose|j: int| 0 <= j < m.remove(i).len() && one_file(#[trigger] m.remove(i)[j], v[i]);
                    assert(one_file(m.remove(i)[j], y));
                }
            }
        }
    }
}

/// The order of the names does not matter.
proof fn lemma_once_rearranged(v: Seq<LinkView>, o: Seq<usize>)
    requires
        sizes_agree(v),
        rearranges(o, v.len() as int),
    ensures
        sizes_agree(arranged(v, o)),
        bytes_once(arranged(v, o)) == bytes_once(v),
        bytes_named(arranged(v, o)) == bytes_named(v),
    decreases v.len(),
{
    let w = arranged(v, o);
    assert forall|a: int, b: int| 0 <= a < w.len() && 0 <= b < w.len() && one_file(#[trigger] w[a], #[trigger] w[b]) implies w[a].size
        == w[b].size by {
        assert(w[a] == v[o[a] as int] && w[b] == v[o[b] as int]);
    }
    if v.len() > 0 {
        let n = v.len() - 1;
        let x = lemma_last_place(o, v.len() as int);
        let less = o.remove(x);
        let m = v.drop_last();
        lemma_agree_less(v, n);
        lemma_once_rearranged(m, less);
        assert forall|i: int| 0 <= i < less.len() implies #[trigger] arranged(m, less)[i] == w.remove(x)[i] by {
            assert(less[i] < n);
        }
        assert(arranged(m, less) =~= w.remove(x));
        lemma_once_remove(w, x);
        lemma_known_remove(w, x, v.last());
        assert(w[x] == v.last());
        assert(file_known(arranged(m, less), v.last()) <==> file_known(m, v.last())) by {
            let r = arranged(m, less);
            if file_known(r, v.last()) {
                let j = choose|j: int| 0 <= j < r.len() && one_file(#[trigger] r[j], v.last());
                assert(m[less[j] as int] == r[j]);
            }
            if file_known(m, v.last()) {
                let j = choose|j: int| 0 <= j < m.len() && one_file(#[trigger] m[j], v.last());
                assert(less.contains(j as usize));
                let y = choose|y: int| 0 <= y < less.len() && less[y] == j as usize;
                assert(r[y] == m[j]);
            }
        }
    }
}

/// In the order of links, a file that was named before was named just before.
proof fn lemma_sorted_known(v: Seq<LinkView>, o: Seq<usize>, k: int)
    requires
        link_order(v, o),
        0 <= k < o.len(),
    ensures
        file_known(arranged(v, o).take(k), arranged(v, o)[k]) <==> k >= 1 && one_file(arranged(v, o)[k - 1], arranged(v, o)[k]),
{
    let w = arranged(v, o);
    if k >= 1 && one_file(w[k - 1], w[k]) {
        assert(w.take(k)[k - 1] == w[k - 1]);
    }
    if file_known(w.take(k), w[k]) {
        let j = choose|j: int| 0 <= j < w.take(k).len() && one_file(#[trigger] w.take(k)[j], w[k]);
        assert(w.take(k)[j] == w[j]);
        assert(link_before(v, o[k - 1] as int, o[k] as int));
        if j < k - 1 {
            assert(link_before(v, o[j] as int, o[k - 1] as int));
        }
    }
}

/// What comes off as further names is what each file would count for too much.
proof fn lemma_extra(n: Seq<Node>, root: Seq<u8>, v: Seq<LinkView>, o: Seq<usize>, k: int)
    requires
        link_order(v, o),
        0 <= k <= o.len(),
        forall|m: int| 0 <= m < v.len() ==> link_dir(n, root, (#[trigger] v[m]).path) is Some,
    ensures
        bytes_named(arranged(v, o).take(k)) == bytes_once(arranged(v, o).take(k)) + extra_bytes(n, root, v, o, k),
    decreases k,
{
    let w = arranged(v, o);
    if k > 0 {
        lemma_extra(n, root, v, o, k - 1);
        lemma_sorted_known(v, o, k - 1);
        assert(w.take(k).drop_last() =~= w.take(k - 1));
        assert(w.take(k).last() == w[k - 1]);
        assert(w[k - 1] == v[o[k - 1] as int]);
        if k == 1 {
            assert(w.take(0) =~= Seq::empty());
        } else {
            assert(w[k - 2] == v[o[k - 2] as int]);
            assert(o[k - 1] < v.len());
        }
    }
}

// A walk.

/// The further names among the entries of a walk.
spec fn link_visits(list: Seq<Visit>) -> Seq<LinkView>
    decreases list.len(),
{
    if list.len() == 0 {
        Seq::empty()
    } else {
        let rest = link_visits(list.drop_last());
        let v = list.last();
        if many_names(v) {
            rest.push(LinkView { dev: v.dev, ino: v.ino, path: Seq::empty(), size: v.bytes })
        } else {
            rest
        }
    }
}

/// What the other entries use on device `dev`.
spec fn plain_bytes(list: Seq<Visit>, dev: u64) -> nat
    decreases list.len(),
{
    if list.len() == 0 {
        0
    } else {
        let v = list.last();
        plain_bytes(list.drop_last(), dev) + if many_names(v) || (v.is_dir && v.dev != dev) {
            0
        } else {
            v.bytes as nat
        }
    }
}

proof fn lemma_link_visits_known(list: Seq<Visit>, v: Visit)
    ensures
        file_known(link_visits(list), (LinkView { dev: v.dev, ino: v.ino, path: Seq::empty(), size: v.bytes })) <==> exists|j: int|
            0 <= j < list.len() && many_names(#[trigger] list[j]) && same_inode(list[j], v),
    decreases list.len(),
{
    let l = LinkView { dev: v.dev, ino: v.ino, path: Seq::empty(), size: v.bytes };
    if list.len() > 0 {
        let m = list.drop_last();
        lemma_link_visits_known(m, v);
        let y = list.last();
        let ly = LinkView { dev: y.dev, ino: y.ino, path: Seq::empty(), size: y.bytes };
        if many_names(y) {
            lemma_known_push(link_visits(m), ly, l);
        }
        if exists|j: int| 0 <= j < m.len() && many_names(#[trigger] m[j]) && same_inode(m[j], v) {
            let j = choose|j: int| 0 <= j < m.len() && many_names(#[trigger] m[j]) && same_inode(m[j], v);
            assert(list[j] == m[j]);
        }
        if many_names(y) && same_inode(y, v) {
            assert(list[list.len() - 1] == y);
        }
        if exists|j: int| 0 <= j < list.len() && many_names(#[trigger] list[j]) && same_inode(list[j], v) {
            let j = choose|j: int| 0 <= j < list.len() && many_names(#[trigger] list[j]) && same_inode(list[j], v);
            if j < m.len() {
                assert(m[j] == list[j]);
            }
        }
    }
}

proof fn lemma_used(list: Seq<Visit>, dev: u64, k: int)
    requires
        0 <= k <= list.len(),
    ensures
        used_bytes(list, dev, k) == plain_bytes(list.take(k), dev) + bytes_once(link_visits(list.take(k))),
    decreases k,
{
    if k > 0 {
        lemma_used(list, dev, k - 1);
        let m = list.take(k - 1);
        let v = list[k - 1];
        assert(list.take(k).drop_last() =~= m);
        assert(list.take(k).last() == v);
        lemma_link_visits_known(m, v);
        assert((exists|j: int| 0 <= j < m.len() && many_names(#[trigger] m[j]) && same_inode(m[j], v)) <==> (exists|j: int|
            0 <= j < k - 1 && many_names(#[trigger] list[j]) && same_inode(list[j], v))) by {
            if exists|j: int| 0 <= j < m.len() && many_names(#[trigger] m[j]) && same_inode(m[j], v) {
                let j = choose|j: int| 0 <= j < m.len() && many_names(#[trigger] m[j]) && same_inode(m[j], v);
                assert(list[j] == m[j]);
            }
            if exists|j: int| 0 <= j < k - 1 && many_names(#[trigger] list[j]) && same_inode(list[j], v) {
                let j = choose|j: int| 0 <= j < k - 1 && many_names(#[trigger] list[j]) && same_inode(list[j], v);
                assert(m[j] == list[j]);
            }
        }
        if many_names(v) {
            let l = LinkView { dev: v.dev, ino: v.ino, path: Seq::empty(), size: v.bytes };
            assert(link_visits(list.take(k)) == link_visits(m).push(l));
            assert(link_visits(m).push(l).drop_last() =~= link_visits(m));
        }
    } else {
        assert(list.take(0) =~= Seq::empty());
    }
}

proof fn lemma_walk_concat(a: Seq<Visit>, b: Seq<Visit>, dev: u64)
    ensures
        plain_bytes(a + b, dev) == plain_bytes(a, dev) + plain_bytes(b, dev),
        link_visits(a + b) == link_visits(a) + link_visits(b),
        files_among(a + b, (a + b).len() as int) == files_among(a, a.len() as int) + files_among(b, b.len() as int),
    decreases b.len(),
{
    if b.len() == 0 {
        assert(a + b =~= a);
        assert(link_visits(a) + link_visits(b) =~= link_visits(a));
    } else {
        let c = b.drop_last();
        lemma_walk_concat(a, c, dev);
        assert((a + b).drop_last() =~= a + c);
        assert((a + b).last() == b.last());
        assert(link_visits(a + b) =~= link_visits(a) + link_visits(b));
        lemma_files_prefix(a + b, a + c, (a + c).len() as int);
        lemma_files_prefix(b, c, c.len() as int);
    }
}

proof fn lemma_files_prefix(a: Seq<Visit>, b: Seq<Visit>, k: int)
    requires
        0 <= k <= a.len(),
        k <= b.len(),
        forall|j: int| 0 <= j < k ==> a[j] == b[j],
    ensures
        files_among(a, k) == files_among(b, k),
    decreases k,
{
    if k > 0 {
        lemma_files_prefix(a, b, k - 1);
    }
}

spec fn pathless(v: Seq<LinkView>) -> Seq<LinkView> {
    Seq::new(v.len(), |i: int| LinkView { path: Seq::empty(), ..v[i] })
}

proof fn lemma_pathless(v: Seq<LinkView>)
    ensures
        bytes_once(pathless(v)) == bytes_once(v),
        bytes_named(pathless(v)) == bytes_named(v),
    decreases v.len(),
{
    if v.len() > 0 {
        let m = v.drop_last();
        lemma_pathless(m);
        assert(pathless(v).drop_last() =~= pathless(m));
        assert(file_known(pathless(m), pathless(v).last()) <==> file_known(m, v.last())) by {
            if file_known(m, v.last()) {
                let j = choose|j: int| 0 <= j < m.len() && one_file(#[trigger] m[j], v.last());
                assert(one_file(pathless(m)[j], pathless(v).last()));
            }
            if file_known(pathless(m), pathless(v).last()) {
                let j = choose|j: int| 0 <= j < pathless(m).len() && one_file(#[trigger] pathless(m)[j], pathless(v).last());
                assert(one_file(m[j], v.last()));
            }
        }
    }
}

// The same directories, scanned and walked.

spec fn own_total(list: Seq<SubView>) -> nat
    decreases list.len(),
{
    if list.len() == 0 {
        0
    } else {
        own_total(list.drop_last()) + list.last().own as nat
    }
}

/// A listing counts the same in a scan and in a walk.
#[verifier::rlimit(30)]
proof fn lemma_listing_same(list: Seq<Option<Entry>>, dir: Seq<u8>, opts: ScanOptions, dev: u64)
    requires
        opts.one_file_system,
        forall|i: int| 0 <= i < list.len() ==> !(fate(#[trigger] list[i], dir, opts, dev) is Skipped),
    ensures
        file_bytes(list) + own_total(sub_views(list, dir, opts, dev)) == plain_bytes(entry_visits(list), dev) + bytes_named(
            link_views(list, dir),
        ),
        pathless(link_views(list, dir)) == link_visits(entry_visits(list)),
        files_among(entry_visits(list), entry_visits(list).len() as int) == file_count(list),
    decreases list.len(),
{
    if list.len() > 0 {
        let m = list.drop_last();
        assert forall|i: int| 0 <= i < m.len() implies !(fate(#[trigger] m[i], dir, opts, dev) is Skipped) by {
            assert(m[i] == list[i]);
        }
        lemma_listing_same(m, dir, opts, dev);
        let e = list.last();
        assert(!(fate(list[list.len() - 1], dir, opts, dev) is Skipped));
        let (lv, lm) = (link_views(list, dir), link_views(m, dir));
        let (ev, em) = (entry_visits(list), entry_visits(m));
        let (sv, sm) = (sub_views(list, dir, opts, dev), sub_views(m, dir, opts, dev));
        if e is Some {
            let x = e->0;
            assert(ev == em.push(visit_of(x)));
            assert(ev.drop_last() =~= em);
            lemma_files_prefix(ev, em, em.len() as int);
            if x.kind == EntryKind::Other && x.nlink > 1 {
                assert(lv.drop_last() =~= lm);
                assert(many_names(visit_of(x)));
                assert(pathless(lv) =~= pathless(lm).push(LinkView { dev: x.dev, ino: x.ino, path: Seq::empty(), size: x.size }));
            } else {
                assert(lv == lm);
                assert(!many_names(visit_of(x)));
            }
            if fate(e, dir, opts, dev) is SubDir {
                assert(sv.drop_last() =~= sm);
            } else {
                assert(sv == sm);
            }
        } else {
            assert(lv == lm && ev == em && sv == sm);
        }
    } else {
        assert(pathless(link_views(list, dir)) =~= link_visits(entry_visits(list)));
    }
}

/// All bytes below `d`, every name of a file counted.
pub open spec fn below_bytes(d: Dir) -> nat
    decreases d,
{
    file_bytes(d.list) + all_bytes(d.subs)
}

pub open spec fn all_bytes(list: Seq<Dir>) -> nat
    decreases list,
{
    if list.len() == 0 {
        0
    } else {
        all_bytes(list.drop_last()) + list.last().own as nat + below_bytes(list.last())
    }
}

/// All files below `d`, every name counted.
pub open spec fn below_files(d: Dir) -> nat
    decreases d,
{
    file_count(d.list) + all_files(d.subs)
}

pub open spec fn all_files(list: Seq<Dir>) -> nat
    decreases list,
{
    if list.len() == 0 {
        0
    } else {
        all_files(list.drop_last()) + below_files(list.last())
    }
}

/// The size and files of a scanned directory, before links are settled.
proof fn lemma_scanned_total(t: Tmp, d: Dir, opts: ScanOptions, dev: u64)
    requires
        walked(d, opts, dev),
        scanned(t, d, opts, dev),
    ensures
        t.size == d.own + below_bytes(d),
        t.files == below_files(d),
    decreases d, d.subs.len() + 1,
{
    if d.read {
        let (node, subs) = choose|node: Tmp, subs: Seq<Tmp>| #[trigger] made_of(t, d, opts, dev, node, subs) && forall|k: int|
            0 <= k < d.subs.len() ==> scanned(#[trigger] subs[k], d.subs[k], opts, dev);
        lemma_subs_total(subs, d, opts, dev, d.subs.len() as int);
        assert(subs.take(subs.len() as int) =~= subs);
        assert(d.subs.take(d.subs.len() as int) =~= d.subs);
    } else {
        assert(d.list.len() == 0);
        assert(sub_views(d.list, d.path, opts, dev).len() == 0);
    }
}

proof fn lemma_subs_total(subs: Seq<Tmp>, d: Dir, opts: ScanOptions, dev: u64, q: int)
    requires
        walked(d, opts, dev),
        subs.len() == d.subs.len(),
        forall|k: int| 0 <= k < d.subs.len() ==> scanned(#[trigger] subs[k], d.subs[k], opts, dev),
        0 <= q <= subs.len(),
    ensures
        total_of(sizes(subs.take(q))) == all_bytes(d.subs.take(q)),
        total_of(counts(subs.take(q))) == all_files(d.subs.take(q)),
    decreases d, q,
{
    if q > 0 {
        lemma_subs_total(subs, d, opts, dev, q - 1);
        assert(scanned(subs[q - 1], d.subs[q - 1], opts, dev));
        lemma_scanned_total(subs[q - 1], d.subs[q - 1], opts, dev);
        assert(sizes(subs.take(q)).drop_last() =~= sizes(subs.take(q - 1)));
        assert(counts(subs.take(q)).drop_last() =~= counts(subs.take(q - 1)));
        assert(d.subs.take(q).drop_last() =~= d.subs.take(q - 1));
        assert(d.subs.take(q).last() == d.subs[q - 1]);
    } else {
        assert(sizes(subs.take(0)) =~= Seq::empty());
        assert(counts(subs.take(0)) =~= Seq::empty());
    }
}

/// What lies below a directory counts the same in a scan and in a walk.
proof fn lemma_same_total(d: Dir, opts: ScanOptions, dev: u64)
    requires
        opts.one_file_system,
        walked(d, opts, dev),
        no_virtual(d, opts, dev),
    ensures
        below_bytes(d) == plain_bytes(visits_in(d), dev) + bytes_named(links_in(d)),
        below_files(d) == files_among(visits_in(d), visits_in(d).len() as int),
        pathless(links_in(d)) == link_visits(visits_in(d)),
    decreases d, d.subs.len() + 1,
{
    let views = sub_views(d.list, d.path, opts, dev);
    lemma_listing_same(d.list, d.path, opts, dev);
    lemma_same_subs(d, opts, dev, d.subs.len() as int);
    assert(d.subs.take(d.subs.len() as int) =~= d.subs);
    assert(views.take(d.subs.len() as int) =~= views);
    lemma_walk_concat(entry_visits(d.list), visits_in_all(d.subs), dev);
    lemma_every_concat(link_views(d.list, d.path), links_in_all(d.subs));
    assert(pathless(links_in(d)) =~= pathless(link_views(d.list, d.path)) + pathless(links_in_all(d.subs)));
}

proof fn lemma_same_subs(d: Dir, opts: ScanOptions, dev: u64, q: int)
    requires
        opts.one_file_system,
        walked(d, opts, dev),
        no_virtual(d, opts, dev),
        0 <= q <= d.subs.len(),
    ensures
        ({
            let part = d.subs.take(q);
            let views = sub_views(d.list, d.path, opts, dev).take(q);
            &&& all_bytes(part) == own_total(views) + plain_bytes(visits_in_all(part), dev) + bytes_named(links_in_all(part))
            &&& all_files(part) == files_among(visits_in_all(part), visits_in_all(part).len() as int)
            &&& pathless(links_in_all(part)) == link_visits(visits_in_all(part))
        }),
    decreases d, q,
{
    let part = d.subs.take(q);
    let views = sub_views(d.list, d.path, opts, dev).take(q);
    if q > 0 {
        let less = d.subs.take(q - 1);
        let x = d.subs[q - 1];
        lemma_same_subs(d, opts, dev, q - 1);
        assert(walked(x, opts, dev));
        assert(no_virtual(x, opts, dev));
        lemma_same_total(x, opts, dev);
        assert(part.drop_last() =~= less);
        assert(part.last() == x);
        assert(views.drop_last() =~= sub_views(d.list, d.path, opts, dev).take(q - 1));
        assert(views.last().own == x.own);
        lemma_walk_concat(visits_in_all(less), visits_in(x), dev);
        lemma_every_concat(links_in_all(less), links_in(x));
        assert(pathless(links_in_all(part)) =~= pathless(links_in_all(less)) + pathless(links_in(x)));
    } else {
        assert(pathless(links_in_all(part)) =~= Seq::empty());
    }
}

/// The root of a finished scan has the directory's own blocks and everything
/// below it, each file's bytes once whatever names it has, and every name is
/// counted as a file. None of this depends on which files get nodes of their
/// own. The names of one file agree in its size; `n` is the tree as it was laid
/// out, `p` the order in which the scan came by further names.
pub proof fn law_each_file_counts_once(
    n: Seq<Node>,
    b: Seq<Node>,
    root: Seq<u8>,
    t: Tmp,
    d: Dir,
    opts: ScanOptions,
    dev: u64,
    p: Seq<usize>,
    o: Seq<usize>,
)
    requires
        walked(d, opts, dev),
        sizes_agree(links_in(d)),
        scanned(t, d, opts, dev),
        d.path == root,
        root.len() > 0,
        planted(n, 0, t, None),
        n.len() == weight(t),
        n.len() <= usize::MAX,
        rearranges(p, links_in(d).len() as int),
        link_order(arranged(links_in(d), p), o),
        counted_once(n, b, root, arranged(links_in(d), p), o),
    ensures
        b[0].size + bytes_named(links_in(d)) == d.own + below_bytes(d) + bytes_once(links_in(d)),
        b[0].files == below_files(d),
{
    let l = links_in(d);
    let v = arranged(l, p);
    let w = arranged(v, o);
    let m = v.len() as int;
    law_scanned_nodes_are_named(n, t, d, opts, dev);
    law_links_are_held(n, root, t, d, opts, dev, p);
    law_further_names_come_off_the_total(n, root, node_sizes(n), v, o, m);
    lemma_scanned_total(t, d, opts, dev);
    lemma_once_rearranged(l, p);
    lemma_once_rearranged(v, o);
    lemma_extra(n, root, v, o, m);
    lemma_named_below(d);
    assert(w.take(m) =~= w);
    assert(carries(n[0], t));
    assert(resized(n, b, 0));
    assert(node_sizes(b)[0] == b[0].size);
}

/// The further names below a directory are among its files.
proof fn lemma_named_below(d: Dir)
    ensures
        bytes_named(links_in(d)) <= below_bytes(d),
    decreases d, d.subs.len() + 1,
{
    lemma_named_listing(d.list, d.path);
    lemma_named_subs(d, d.subs.len() as int);
    assert(d.subs.take(d.subs.len() as int) =~= d.subs);
    lemma_every_concat(link_views(d.list, d.path), links_in_all(d.subs));
}

proof fn lemma_named_subs(d: Dir, q: int)
    requires
        0 <= q <= d.subs.len(),
    ensures
        bytes_named(links_in_all(d.subs.take(q))) <= all_bytes(d.subs.take(q)),
    decreases d, q,
{
    if q > 0 {
        let part = d.subs.take(q);
        lemma_named_subs(d, q - 1);
        lemma_named_below(d.subs[q - 1]);
        assert(part.drop_last() =~= d.subs.take(q - 1));
        assert(part.last() == d.subs[q - 1]);
        lemma_every_concat(links_in_all(d.subs.take(q - 1)), links_in(d.subs[q - 1]));
    }
}

proof fn lemma_named_listing(list: Seq<Option<Entry>>, dir: Seq<u8>)
    ensures
        bytes_named(link_views(list, dir)) <= file_bytes(list),
    decreases list.len(),
{
    if list.len() > 0 {
        let m = list.drop_last();
        lemma_named_listing(m, dir);
        let v = link_views(list, dir);
        match list.last() {
            Some(e) if e.kind == EntryKind::Other && e.nlink > 1 => {
                assert(v.drop_last() =~= link_views(m, dir));
            },
            _ => {
                assert(v == link_views(m, dir));
            },
        }
    }
}

/// The disk usage of a directory and the root of a scan of it are the same:
/// own blocks included, each file's bytes once whatever names it has, every
/// name counted as a file. The directory holds no virtual filesystem, both
/// stay on its device, and the names of one file agree in its size. `own` is
/// what was found at the path, `n` the tree as it was laid out, `p` the order
/// in which the scan came by further names.
pub proof fn law_usage_is_the_scanned_total(
    n: Seq<Node>,
    b: Seq<Node>,
    root: Seq<u8>,
    t: Tmp,
    d: Dir,
    opts: ScanOptions,
    own: Visit,
    p: Seq<usize>,
    o: Seq<usize>,
)
    requires
        opts.one_file_system,
        own.is_dir,
        own.bytes == d.own,
        walked(d, opts, own.dev),
        no_virtual(d, opts, own.dev),
        sizes_agree(links_in(d)),
        scanned(t, d, opts, own.dev),
        d.path == root,
        root.len() > 0,
        planted(n, 0, t, None),
        n.len() == weight(t),
        n.len() <= usize::MAX,
        rearranges(p, links_in(d).len() as int),
        link_order(arranged(links_in(d), p), o),
        counted_once(n, b, root, arranged(links_in(d), p), o),
    ensures
        usage_of(Some(own), visits_in(d)) == (b[0].size as nat, b[0].files as nat),
{
    let visits = visits_in(d);
    law_each_file_counts_once(n, b, root, t, d, opts, own.dev, p, o);
    lemma_same_total(d, opts, own.dev);
    lemma_pathless(links_in(d));
    lemma_used(visits, own.dev, visits.len() as int);
    assert(visits.take(visits.len() as int) =~= visits);
}

// The order of a walk.

/// Two entries of a walk that lead to one file say the same of its size.
pub open spec fn visits_agree(list: Seq<Visit>) -> bool {
    forall|i: int, j: int|
        0 <= i < list.len() && 0 <= j < list.len() && many_names(#[trigger] list[i]) && many_names(#[trigger] list[j])
            && same_inode(list[i], list[j]) ==> list[i].bytes == list[j].bytes
}

spec fn as_link(v: Visit) -> LinkView {
    LinkView { dev: v.dev, ino: v.ino, path: Seq::empty(), size: v.bytes }
}

proof fn lemma_link_from(list: Seq<Visit>, a: int) -> (x: int)
    requires
        0 <= a < link_visits(list).len(),
    ensures
        0 <= x < list.len(),
        many_names(list[x]),
        link_visits(list)[a] == as_link(list[x]),
    decreases list.len(),
{
    let m = list.drop_last();
    if a < link_visits(m).len() {
        let x = lemma_link_from(m, a);
        assert(list[x] == m[x]);
        x
    } else {
        list.len() - 1
    }
}

proof fn lemma_links_agree(list: Seq<Visit>)
    requires
        visits_agree(list),
    ensures
        sizes_agree(link_visits(list)),
{
    let v = link_visits(list);
    assert forall|i: int, j: int| 0 <= i < v.len() && 0 <= j < v.len() && one_file(#[trigger] v[i], #[trigger] v[j]) implies v[i].size
        == v[j].size by {
        let x = lemma_link_from(list, i);
        let y = lemma_link_from(list, j);
        assert(same_inode(list[x], list[y]));
    }
}

/// A walk without one of its entries.
proof fn lemma_walk_remove(list: Seq<Visit>, i: int, dev: u64) -> (c: int)
    requires
        0 <= i < list.len(),
    ensures
        plain_bytes(list, dev) == plain_bytes(list.remove(i), dev) + plain_bytes(seq![list[i]], dev),
        files_among(list, list.len() as int) == files_among(list.remove(i), list.len() - 1) + files_among(seq![list[i]], 1),
        many_names(list[i]) ==> 0 <= c < link_visits(list).len() && link_visits(list)[c] == as_link(list[i])
            && link_visits(list.remove(i)) == link_visits(list).remove(c),
        !many_names(list[i]) ==> link_visits(list.remove(i)) == link_visits(list),
    decreases list.len(),
{
    let m = list.drop_last();
    let y = list.last();
    let one = seq![list[i]];
    assert(one.drop_last() =~= Seq::empty());
    assert(one.last() == list[i]);
    assert(plain_bytes(one.drop_last(), dev) == 0);
    assert(files_among(one, 1) == files_among(one, 0) + if list[i].is_dir { 0nat } else { 1 });
    lemma_files_prefix(list, m, m.len() as int);
    if i == list.len() - 1 {
        assert(list.remove(i) =~= m);
        let c = link_visits(m).len() as int;
        if many_names(y) {
            assert(link_visits(list) == link_visits(m).push(as_link(y)));
            assert(link_visits(list).remove(c) =~= link_visits(m));
        }
        c
    } else {
        let c = lemma_walk_remove(m, i, dev);
        let r = list.remove(i);
        assert(m[i] == list[i]);
        assert(r.drop_last() =~= m.remove(i));
        assert(r.last() == y);
        lemma_files_prefix(r, m.remove(i), m.len() - 1);
        if many_names(list[i]) && many_names(y) {
            assert(link_visits(list) == link_visits(m).push(as_link(y)));
            assert(link_visits(r) == link_visits(m.remove(i)).push(as_link(y)));
            assert(link_visits(list).remove(c) =~= link_visits(m).remove(c).push(as_link(y)));
        }
        c
    }
}

#[verifier::rlimit(30)]
proof fn lemma_walk_rearranged(list: Seq<Visit>, p: Seq<usize>, dev: u64)
    requires
        rearranges(p, list.len() as int),
        visits_agree(list),
    ensures
        plain_bytes(arranged(list, p), dev) == plain_bytes(list, dev),
        files_among(arranged(list, p), list.len() as int) == files_among(list, list.len() as int),
        bytes_once(link_visits(arranged(list, p))) == bytes_once(link_visits(list)),
        forall|l: LinkView| file_known(link_visits(arranged(list, p)), l) == file_known(link_visits(list), l),
    decreases list.len(),
{
    let w = arranged(list, p);
    if list.len() > 0 {
        let n = list.len() - 1;
        let x = lemma_last_place(p, list.len() as int);
        let less = p.remove(x);
        let m = list.drop_last();
        let y = list.last();
        assert forall|i: int, j: int|
            0 <= i < m.len() && 0 <= j < m.len() && many_names(#[trigger] m[i]) && many_names(#[trigger] m[j]) && same_inode(
                m[i],
                m[j],
            ) implies m[i].bytes == m[j].bytes by {
            assert(list[i] == m[i] && list[j] == m[j]);
        }
        assert forall|i: int, j: int|
            0 <= i < w.len() && 0 <= j < w.len() && many_names(#[trigger] w[i]) && many_names(#[trigger] w[j]) && same_inode(
                w[i],
                w[j],
            ) implies w[i].bytes == w[j].bytes by {
            assert(p[i] < list.len() && p[j] < list.len());
            assert(w[i] == list[p[i] as int] && w[j] == list[p[j] as int]);
        }
        lemma_walk_rearranged(m, less, dev);
        assert forall|i: int| 0 <= i < less.len() implies #[trigger] arranged(m, less)[i] == w.remove(x)[i] by {
            assert(less[i] < n);
        }
        assert(arranged(m, less) =~= w.remove(x));
        assert(w[x] == y);
        let c = lemma_walk_remove(w, x, dev);
        let e = lemma_walk_remove(list, n, dev);
        assert(list.remove(n) =~= m);
        lemma_links_agree(w);
        lemma_links_agree(list);
        let (a, b) = (link_visits(w), link_visits(list));
        if many_names(y) {
            lemma_once_remove(a, c);
            lemma_once_remove(b, e);
            lemma_known_remove(a, c, as_link(y));
            lemma_known_remove(b, e, as_link(y));
            assert forall|l: LinkView| file_known(a, l) == file_known(b, l) by {
                lemma_known_remove(a, c, l);
                lemma_known_remove(b, e, l);
                assert(file_known(a.remove(c), l) == file_known(b.remove(e), l));
            }
            assert(file_known(a.remove(c), as_link(y)) == file_known(b.remove(e), as_link(y)));
        }
    } else {
        assert(w =~= list);
    }
}

/// Whatever order a walk comes by its entries in, the disk usage is the same,
/// as long as the names of one file agree in its size.
pub proof fn law_the_order_of_a_walk_does_not_matter(own: Visit, list: Seq<Visit>, p: Seq<usize>)
    requires
        rearranges(p, list.len() as int),
        visits_agree(list),
    ensures
        usage_of(Some(own), arranged(list, p)) == usage_of(Some(own), list),
{
    let w = arranged(list, p);
    let n = list.len() as int;
    lemma_walk_rearranged(list, p, own.dev);
    lemma_used(list, own.dev, n);
    lemma_used(w, own.dev, n);
    assert(list.take(n) =~= list);
    assert(w.take(n) =~= w);
}

} // verus!
