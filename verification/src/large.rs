//! "Large items": every file or folder above a size you choose, ranked, with a
//! size histogram and a breakdown by kind.

use vstd::prelude::*;

use crate::classify::Kind;
use crate::marks::{marked_in, marked_state};
use crate::order::{arranged, lemma_ranked, rank, ranked, rearranges};
use crate::rules::kernels::lemma_push_contains;
use crate::scanner::{child_ok, holds, parent_ok, Node, NodeKind, Tree};
use crate::summary::{by_size, size_keys, sort_by_size};
use crate::text::{chars_of, contains, has, string_of, trim, trimmed};

verus! {

#[derive(Clone, Copy, Debug, PartialEq, Eq, Structural)]
pub enum Show {
    Both,
    Files,
    Folders,
}

/// The lower-case form of a text by the Unicode tables of the standard library.
pub uninterp spec fn folded(s: Seq<char>) -> Seq<char>;

/// `str::to_lowercase`: the lower-case form of a text, a function of the text
/// alone. Which characters it maps, and to what, is left to the standard library.
#[verifier::external_body]
fn fold(s: &str) -> (r: String)
    ensures
        r@ == folded(s@),
{
    s.to_lowercase()
}

/// Items of no size are never large.
pub open spec fn limit(min: u64) -> u64 {
    if min == 0 {
        1
    } else {
        min
    }
}

/// One of the first `k` children of node `i` is itself a folder over the limit.
pub open spec fn large_inside(n: Seq<Node>, i: int, min: u64, k: int) -> bool {
    exists|j: int|
        0 <= j < k && n[(#[trigger] n[i].children@[j]) as int].kind == NodeKind::Dir && n[n[i].children@[j] as int].size >= limit(min)
}

/// Node `i` is listed: big enough, of a kind that is shown, and with the needle
/// in its name. Folded small files and unentered mount points are not items.
pub open spec fn listed(n: Seq<Node>, i: int, min: u64, show: Show, innermost: bool, needle: Seq<char>) -> bool {
    &&& n[i].size >= limit(min)
    &&& match n[i].kind {
        NodeKind::File => show != Show::Folders,
        NodeKind::Dir => show != Show::Files && !(innermost && large_inside(n, i, min, n[i].children@.len() as int)),
        NodeKind::Aggregate => false,
        NodeKind::Mount => false,
    }
    &&& needle.len() == 0 || contains(folded(n[i].name@), needle)
}

/// What a name is searched for.
pub open spec fn needle_of(name: Seq<char>) -> Seq<char> {
    folded(trim(name))
}

/// The listed ones of the nodes below `k`. The scan root is not listed.
pub open spec fn listed_below(n: Seq<Node>, k: int, min: u64, show: Show, innermost: bool, needle: Seq<char>) -> Seq<usize>
    decreases k,
{
    if k <= 1 {
        Seq::empty()
    } else {
        let rest = listed_below(n, k - 1, min, show, innermost, needle);
        if listed(n, k - 1, min, show, innermost, needle) {
            rest.push((k - 1) as usize)
        } else {
            rest
        }
    }
}

fn is_listed(t: &Tree, i: usize, min: u64, show: Show, innermost: bool, needle: &String) -> (r: bool)
    requires
        t.wf(),
        0 < i < t.nodes@.len(),
    ensures
        r == listed(t.nodes@, i as int, min, show, innermost, needle@),
{
    let least: u64 = if min == 0 {
        1
    } else {
        min
    };
    if t.nodes[i].size < least {
        return false;
    }
    let shown = match t.nodes[i].kind {
        NodeKind::File => show != Show::Folders,
        NodeKind::Dir => {
            let mut inner = false;
            let kids: usize = t.nodes[i].children.len();
            for j in 0..kids
                invariant
                    t.wf(),
                    0 < i < t.nodes@.len(),
                    kids == t.nodes@[i as int].children@.len(),
                    least == limit(min),
                    inner == large_inside(t.nodes@, i as int, min, j as int),
            {
                proof {
                    assert(child_ok(t.nodes@, i as int, j as int));
                }
                let c: usize = t.nodes[i].children[j];
                if t.nodes[c].kind == NodeKind::Dir && t.nodes[c].size >= least {
                    inner = true;
                    assert(t.nodes@[i as int].children@[j as int] == c);
                    assert(large_inside(t.nodes@, i as int, min, j + 1));
                }
            }
            show != Show::Files && !(innermost && inner)
        },
        NodeKind::Aggregate => false,
        NodeKind::Mount => false,
    };
    let pattern = chars_of(needle.as_str());
    if !shown {
        return false;
    }
    if pattern.len() == 0 {
        return true;
    }
    let name = chars_of(fold(t.nodes[i].name.as_str()).as_str());
    has(&name, needle.as_str())
}

/// Nodes at least `min` bytes big whose name contains `name`, largest first.
pub fn large_items(t: &Tree, min: u64, show: Show, innermost: bool, name: &str) -> (r: Vec<usize>)
    requires
        t.wf(),
    ensures
        r@ == by_size(
            t.nodes@,
            listed_below(t.nodes@, t.nodes@.len() as int, min, show, innermost, needle_of(name@)),
        ),
{
    let trimmed_name = string_of(&trimmed(&chars_of(name)));
    items_matching(t, min, show, innermost, &fold(trimmed_name.as_str()))
}

/// Nodes at least `min` bytes big with the folded `needle` in their folded name,
/// largest first.
pub fn items_matching(t: &Tree, min: u64, show: Show, innermost: bool, needle: &String) -> (r: Vec<usize>)
    requires
        t.wf(),
    ensures
        r@ == by_size(t.nodes@, listed_below(t.nodes@, t.nodes@.len() as int, min, show, innermost, needle@)),
{
    let count: usize = t.nodes.len();
    let mut all: Vec<usize> = Vec::new();
    for i in 1..count
        invariant
            t.wf(),
            count == t.nodes@.len(),
            count >= 1,
            forall|j: int| 0 <= j < all@.len() ==> (#[trigger] all@[j]) < count,
            all@ == listed_below(t.nodes@, i as int, min, show, innermost, needle@),
    {
        if is_listed(t, i, min, show, innermost, needle) {
            all.push(i);
        }
    }
    sort_by_size(t, &all)
}

/// All items are nodes.
pub open spec fn nodes_of(n: Seq<Node>, items: Seq<usize>) -> bool {
    forall|i: int| 0 <= i < items.len() ==> (#[trigger] items[i]) < n.len()
}

/// The bytes of the items that `f` picks.
pub open spec fn picked_bytes(n: Seq<Node>, items: Seq<usize>, f: spec_fn(usize) -> bool) -> nat
    decreases items.len(),
{
    if items.len() == 0 {
        0
    } else {
        picked_bytes(n, items.drop_last(), f) + if f(items.last()) {
            n[items.last() as int].size as nat
        } else {
            0
        }
    }
}

/// The bytes of all items.
pub open spec fn item_bytes(n: Seq<Node>, items: Seq<usize>) -> nat {
    picked_bytes(n, items, |i: usize| true)
}

/// How many items `f` picks.
pub open spec fn picked_count(items: Seq<usize>, f: spec_fn(usize) -> bool) -> nat
    decreases items.len(),
{
    if items.len() == 0 {
        0
    } else {
        picked_count(items.drop_last(), f) + if f(items.last()) {
            1nat
        } else {
            0
        }
    }
}

proof fn lemma_picked(n: Seq<Node>, items: Seq<usize>, f: spec_fn(usize) -> bool, k: int)
    requires
        0 <= k <= items.len(),
    ensures
        picked_bytes(n, items.take(k), f) <= item_bytes(n, items),
        picked_count(items.take(k), f) <= k,
    decreases items.len() + k,
{
    if k < items.len() {
        assert(items.drop_last().take(k) =~= items.take(k));
        lemma_picked(n, items.drop_last(), f, k);
    } else if k > 0 {
        assert(items.take(k) =~= items);
        assert(items.drop_last().take(k - 1) =~= items.drop_last());
        lemma_picked(n, items.drop_last(), f, k - 1);
    } else {
        assert(items.take(k) =~= Seq::empty());
    }
}

/// The histogram bucket of a size, as a multiple of the threshold: 1–2×, 2–4×,
/// 4–8×, 8–16×, ≥16×.
pub open spec fn bucket_of(size: u64, min: u64) -> int {
    let m = limit(min) as int;
    if size < 2 * m {
        0
    } else if size < 4 * m {
        1
    } else if size < 8 * m {
        2
    } else if size < 16 * m {
        3
    } else {
        4
    }
}

/// The items of one bucket.
pub open spec fn in_bucket(n: Seq<Node>, min: u64, k: int) -> spec_fn(usize) -> bool {
    |i: usize| bucket_of(n[i as int].size, min) == k
}

fn bucket(size: u64, min: u64) -> (r: usize)
    ensures
        r == bucket_of(size, min),
        r <= 4,
{
    let m: u128 = if min == 0 {
        1
    } else {
        min as u128
    };
    let s: u128 = size as u128;
    if s < 2 * m {
        0
    } else if s < 4 * m {
        1
    } else if s < 8 * m {
        2
    } else if s < 16 * m {
        3
    } else {
        4
    }
}

fn bucket_sum(t: &Tree, items: &Vec<usize>, min: u64, k: usize) -> (r: (u64, usize))
    requires
        nodes_of(t.nodes@, items@),
        item_bytes(t.nodes@, items@) <= u64::MAX,
    ensures
        r.0 == picked_bytes(t.nodes@, items@, in_bucket(t.nodes@, min, k as int)),
        r.1 == picked_count(items@, in_bucket(t.nodes@, min, k as int)),
{
    let ghost f = in_bucket(t.nodes@, min, k as int);
    let mut bytes: u64 = 0;
    let mut count: usize = 0;
    for j in 0..items.len()
        invariant
            nodes_of(t.nodes@, items@),
            item_bytes(t.nodes@, items@) <= u64::MAX,
            f == in_bucket(t.nodes@, min, k as int),
            bytes == picked_bytes(t.nodes@, items@.take(j as int), f),
            count == picked_count(items@.take(j as int), f),
            count <= j,
    {
        proof {
            assert(items@.take(j + 1).drop_last() =~= items@.take(j as int));
            assert(items@.take(j + 1).last() == items@[j as int]);
            lemma_picked(t.nodes@, items@, f, j + 1);
        }
        let size: u64 = t.nodes[items[j]].size;
        if bucket(size, min) == k {
            bytes += size;
            count += 1;
        }
    }
    assert(items@.take(items@.len() as int) =~= items@);
    (bytes, count)
}

/// The histogram: bytes and number of the items in each bucket.
pub fn buckets(t: &Tree, items: &Vec<usize>, min: u64) -> (r: [(u64, usize); 5])
    requires
        nodes_of(t.nodes@, items@),
        item_bytes(t.nodes@, items@) <= u64::MAX,
    ensures
        forall|k: int|
            0 <= k < 5 ==> (#[trigger] r@[k]).0 == picked_bytes(t.nodes@, items@, in_bucket(t.nodes@, min, k)) && r@[k].1
                == picked_count(items@, in_bucket(t.nodes@, min, k)),
{
    [
        bucket_sum(t, items, min, 0),
        bucket_sum(t, items, min, 1),
        bucket_sum(t, items, min, 2),
        bucket_sum(t, items, min, 3),
        bucket_sum(t, items, min, 4),
    ]
}

/// Items that lie in no other item.
pub open spec fn outermost(n: Seq<Node>, items: Seq<usize>) -> spec_fn(usize) -> bool {
    |i: usize|
        match n[i as int].parent {
            Some(p) => !marked_in(n, items, p as int),
            None => true,
        }
}

/// The bytes of all items, those inside another item not counted again.
pub fn outermost_bytes(t: &Tree, items: &Vec<usize>) -> (r: u64)
    requires
        t.wf(),
        nodes_of(t.nodes@, items@),
        item_bytes(t.nodes@, items@) <= u64::MAX,
    ensures
        r == picked_bytes(t.nodes@, items@, outermost(t.nodes@, items@)),
{
    let ghost f = outermost(t.nodes@, items@);
    let mut bytes: u64 = 0;
    for j in 0..items.len()
        invariant
            t.wf(),
            nodes_of(t.nodes@, items@),
            item_bytes(t.nodes@, items@) <= u64::MAX,
            f == outermost(t.nodes@, items@),
            bytes == picked_bytes(t.nodes@, items@.take(j as int), f),
    {
        proof {
            assert(items@.take(j + 1).drop_last() =~= items@.take(j as int));
            assert(items@.take(j + 1).last() == items@[j as int]);
            lemma_picked(t.nodes@, items@, f, j + 1);
            if items@[j as int] > 0 {
                assert(parent_ok(t.nodes@, items@[j as int] as int));
            }
        }
        let i: usize = items[j];
        let inner = match t.nodes[i].parent {
            Some(p) => marked_state(t, items, p),
            None => false,
        };
        if !inner {
            bytes += t.nodes[i].size;
        }
    }
    assert(items@.take(items@.len() as int) =~= items@);
    bytes
}

/// The items that are files.
pub open spec fn is_file(n: Seq<Node>) -> spec_fn(usize) -> bool {
    |i: usize| n[i as int].kind == NodeKind::File
}

/// How many of the items are files.
pub fn file_count(t: &Tree, items: &Vec<usize>) -> (r: usize)
    requires
        nodes_of(t.nodes@, items@),
    ensures
        r == picked_count(items@, is_file(t.nodes@)),
{
    let ghost f = is_file(t.nodes@);
    let mut count: usize = 0;
    for j in 0..items.len()
        invariant
            nodes_of(t.nodes@, items@),
            f == is_file(t.nodes@),
            count == picked_count(items@.take(j as int), f),
            count <= j,
    {
        assert(items@.take(j + 1).drop_last() =~= items@.take(j as int));
        if t.nodes[items[j]].kind == NodeKind::File {
            count += 1;
        }
    }
    assert(items@.take(items@.len() as int) =~= items@);
    count
}

/// The kind of a node; nodes without one count as other.
pub open spec fn kind_of(kinds: Seq<Kind>, i: int) -> Kind {
    if 0 <= i < kinds.len() {
        kinds[i]
    } else {
        Kind::Other
    }
}

/// The kinds of the items, as they first come, each with its bytes.
pub open spec fn kind_tally(n: Seq<Node>, kinds: Seq<Kind>, items: Seq<usize>) -> Seq<(Kind, nat)>
    decreases items.len(),
{
    if items.len() == 0 {
        Seq::empty()
    } else {
        tallied(
            kind_tally(n, kinds, items.drop_last()),
            kind_of(kinds, items.last() as int),
            n[items.last() as int].size as nat,
            0,
        )
    }
}

/// `list` with `bytes` more for a kind, looked for from position `k` on.
pub open spec fn tallied(list: Seq<(Kind, nat)>, kind: Kind, bytes: nat, k: int) -> Seq<(Kind, nat)>
    decreases list.len() - k,
{
    if k < 0 || k >= list.len() {
        list.push((kind, bytes))
    } else if list[k].0 == kind {
        list.update(k, (kind, list[k].1 + bytes))
    } else {
        tallied(list, kind, bytes, k + 1)
    }
}

pub open spec fn tally_view(v: Seq<(Kind, u64)>) -> Seq<(Kind, nat)> {
    Seq::new(v.len(), |i: int| (v[i].0, v[i].1 as nat))
}

/// The keys by which kinds are listed, most bytes first.
pub open spec fn tally_keys(v: Seq<(Kind, nat)>) -> Seq<i128> {
    Seq::new(v.len(), |i: int| (0 - v[i].1) as i128)
}

/// Every kind of the tally has at most `max` bytes.
pub open spec fn tally_within(v: Seq<(Kind, nat)>, max: nat) -> bool {
    forall|i: int| 0 <= i < v.len() ==> (#[trigger] v[i]).1 <= max
}

proof fn lemma_tallied_within(list: Seq<(Kind, nat)>, kind: Kind, bytes: nat, k: int, max: nat)
    requires
        tally_within(list, max),
    ensures
        tally_within(tallied(list, kind, bytes, k), max + bytes),
    decreases list.len() - k,
{
    if 0 <= k < list.len() && list[k].0 != kind {
        lemma_tallied_within(list, kind, bytes, k + 1, max);
    }
}

proof fn lemma_tally_within(n: Seq<Node>, kinds: Seq<Kind>, items: Seq<usize>)
    ensures
        tally_within(kind_tally(n, kinds, items), item_bytes(n, items)),
    decreases items.len(),
{
    if items.len() > 0 {
        lemma_tally_within(n, kinds, items.drop_last());
        lemma_tallied_within(
            kind_tally(n, kinds, items.drop_last()),
            kind_of(kinds, items.last() as int),
            n[items.last() as int].size as nat,
            0,
            item_bytes(n, items.drop_last()),
        );
    }
}

/// The bytes of the items by kind, most bytes first.
pub fn by_kind(t: &Tree, kinds: &Vec<Kind>, items: &Vec<usize>) -> (r: Vec<(Kind, u64)>)
    requires
        nodes_of(t.nodes@, items@),
        item_bytes(t.nodes@, items@) <= u64::MAX,
    ensures
        tally_view(r@) == arranged(
            kind_tally(t.nodes@, kinds@, items@),
            ranked(tally_keys(kind_tally(t.nodes@, kinds@, items@))),
        ),
{
    let mut list: Vec<(Kind, u64)> = Vec::new();
    assert(tally_view(list@) =~= Seq::empty());
    for j in 0..items.len()
        invariant
            nodes_of(t.nodes@, items@),
            item_bytes(t.nodes@, items@) <= u64::MAX,
            tally_view(list@) == kind_tally(t.nodes@, kinds@, items@.take(j as int)),
    {
        let i: usize = items[j];
        let kind = if i < kinds.len() {
            kinds[i]
        } else {
            Kind::Other
        };
        let size: u64 = t.nodes[i].size;
        let ghost before = tally_view(list@);
        let ghost done = items@.take(j as int);
        proof {
            assert(items@.take(j + 1).drop_last() =~= done);
            assert(items@.take(j + 1).last() == i);
            lemma_picked(t.nodes@, items@, |i: usize| true, j + 1);
            lemma_tally_within(t.nodes@, kinds@, done);
        }
        let mut k: usize = 0;
        while k < list.len() && list[k].0 != kind
            invariant
                before == tally_view(list@),
                k <= list@.len(),
                tallied(before, kind, size as nat, 0) == tallied(before, kind, size as nat, k as int),
            decreases list@.len() - k,
        {
            k += 1;
        }
        if k < list.len() {
            assert(before[k as int].1 <= item_bytes(t.nodes@, done));
            let sum: u64 = list[k].1 + size;
            list.set(k, (kind, sum));
            assert(tally_view(list@) =~= before.update(k as int, (kind, sum as nat)));
        } else {
            list.push((kind, size));
            assert(tally_view(list@) =~= before.push((kind, size as nat)));
        }
    }
    assert(items@.take(items@.len() as int) =~= items@);
    let ghost all = tally_view(list@);
    let mut keys: Vec<i128> = Vec::new();
    for k in 0..list.len()
        invariant
            all == tally_view(list@),
            keys@ == tally_keys(all).take(k as int),
    {
        let key: i128 = 0 - list[k].1 as i128;
        keys.push(key);
        assert(keys@ =~= tally_keys(all).take(k + 1));
    }
    assert(keys@ =~= tally_keys(all));
    let o = rank(&keys);
    let mut out: Vec<(Kind, u64)> = Vec::new();
    assert(tally_view(out@) =~= arranged(all, o@).take(0));
    for k in 0..o.len()
        invariant
            all == tally_view(list@),
            rearranges(o@, list@.len() as int),
            tally_view(out@) == arranged(all, o@).take(k as int),
    {
        let ghost before = out@;
        out.push(list[o[k]]);
        assert(tally_view(out@) =~= tally_view(before).push(all[o@[k as int] as int]));
        assert(tally_view(out@) =~= arranged(all, o@).take(k + 1));
    }
    assert(tally_view(out@) =~= arranged(all, o@));
    out
}

proof fn lemma_listed(n: Seq<Node>, k: int, min: u64, show: Show, innermost: bool, needle: Seq<char>, j: int)
    requires
        k <= n.len() <= usize::MAX,
        0 <= j < listed_below(n, k, min, show, innermost, needle).len(),
    ensures
        ({
            let x = listed_below(n, k, min, show, innermost, needle)[j] as int;
            0 < x < k && listed(n, x, min, show, innermost, needle)
        }),
    decreases k,
{
    if k > 1 && j < listed_below(n, k - 1, min, show, innermost, needle).len() {
        lemma_listed(n, k - 1, min, show, innermost, needle, j);
    }
}

proof fn lemma_listed_len(n: Seq<Node>, k: int, min: u64, show: Show, innermost: bool, needle: Seq<char>)
    requires
        0 <= k,
    ensures
        listed_below(n, k, min, show, innermost, needle).len() <= k,
    decreases k,
{
    if k > 1 {
        lemma_listed_len(n, k - 1, min, show, innermost, needle);
    }
}

/// Every item of the list is at least as big as asked for, and none is the scan
/// root, a group of small files or a mount point that was not entered.
pub proof fn law_items_are_over_the_limit(n: Seq<Node>, min: u64, show: Show, innermost: bool, needle: Seq<char>, j: int)
    requires
        n.len() <= usize::MAX,
        0 <= j < by_size(n, listed_below(n, n.len() as int, min, show, innermost, needle)).len(),
    ensures
        ({
            let x = by_size(n, listed_below(n, n.len() as int, min, show, innermost, needle))[j] as int;
            &&& 0 < x < n.len()
            &&& n[x].size >= min
            &&& n[x].size > 0
            &&& n[x].kind == NodeKind::File || n[x].kind == NodeKind::Dir
        }),
{
    let list = listed_below(n, n.len() as int, min, show, innermost, needle);
    let o = ranked(size_keys(n, list));
    lemma_listed_len(n, n.len() as int, min, show, innermost, needle);
    lemma_ranked(size_keys(n, list));
    lemma_listed(n, n.len() as int, min, show, innermost, needle, o[j] as int);
}

/// Nested items are never counted twice: of two that are counted, neither lies
/// in the other.
pub proof fn law_counted_items_are_apart(n: Seq<Node>, items: Seq<usize>, a: int, b: int)
    requires
        0 <= a < items.len(),
        0 <= b < items.len(),
        items[a] != items[b],
        outermost(n, items)(items[b]),
    ensures
        !holds(n, items[a] as int, items[b] as int),
{
    let (i, j) = (items[a] as int, items[b] as int);
    if holds(n, i, j) {
        let p = n[j].parent->0 as int;
        assert(holds(n, i, p));
        assert(marked_in(n, items, p));
    }
}

/// What is listed: every node but the root that is at least as large as asked
/// for, of the sort asked for, and with the text asked for in its name; of the
/// folders, where asked, only those that hold no other large one.
pub proof fn law_large_items_are_listed(n: Seq<Node>, k: int, min: u64, show: Show, innermost: bool, needle: Seq<char>, i: usize)
    requires
        0 <= k <= n.len() <= usize::MAX,
    ensures
        listed_below(n, k, min, show, innermost, needle).contains(i) <==> 1 <= i < k && n[i as int].size > 0 && n[i as int].size >= min && (
        needle.len() == 0 || contains(folded(n[i as int].name@), needle)) && (n[i as int].kind == NodeKind::File && show != Show::Folders
            || n[i as int].kind == NodeKind::Dir && show != Show::Files && (innermost ==> forall|j: int|
            0 <= j < n[i as int].children@.len() ==> !(n[(#[trigger] n[i as int].children@[j]) as int].kind == NodeKind::Dir
                && n[n[i as int].children@[j] as int].size >= min && n[n[i as int].children@[j] as int].size > 0))),
    decreases k,
{
    if k > 1 {
        law_large_items_are_listed(n, k - 1, min, show, innermost, needle, i);
        lemma_push_contains(listed_below(n, k - 1, min, show, innermost, needle), (k - 1) as usize, i);
        let m = k - 1;
        let kids = n[m].children@;
        if large_inside(n, m, min, kids.len() as int) {
            let j = choose|j: int|
                0 <= j < kids.len() && n[(#[trigger] n[m].children@[j]) as int].kind == NodeKind::Dir && n[n[m].children@[j] as int].size
                    >= limit(min);
            assert(n[kids[j] as int].size >= min && n[kids[j] as int].size > 0);
        }
        assert(!large_inside(n, m, min, kids.len() as int) ==> forall|j: int|
            0 <= j < kids.len() ==> !(n[(#[trigger] n[m].children@[j]) as int].kind == NodeKind::Dir && n[n[m].children@[j] as int].size >= min
                && n[n[m].children@[j] as int].size > 0));
    }
}

/// Each item is counted once, with its bytes, where it belongs.
pub proof fn law_items_are_counted_once(n: Seq<Node>, items: Seq<usize>, f: spec_fn(usize) -> bool, i: int)
    requires
        0 <= i < items.len(),
    ensures
        f(items[i]) ==> picked_bytes(n, items, f) == picked_bytes(n, items.remove(i), f) + n[items[i] as int].size && picked_count(items, f)
            == picked_count(items.remove(i), f) + 1,
        !f(items[i]) ==> picked_bytes(n, items, f) == picked_bytes(n, items.remove(i), f) && picked_count(items, f) == picked_count(
            items.remove(i),
            f,
        ),
    decreases items.len(),
{
    if i < items.len() - 1 {
        law_items_are_counted_once(n, items.drop_last(), f, i);
        assert(items.remove(i).drop_last() =~= items.drop_last().remove(i));
        assert(items.remove(i).last() == items.last());
    } else {
        assert(items.remove(i) =~= items.drop_last());
    }
}

/// The bars of the histogram: each goes up to twice the one before, and the last
/// one has no end. Every item falls into exactly one.
pub proof fn law_each_bar_doubles(n: Seq<Node>, i: usize, min: u64)
    requires
        n[i as int].size >= min,
        n[i as int].size > 0,
    ensures
        ({
            let m = if min == 0 { 1int } else { min as int };
            let s = n[i as int].size;
            &&& in_bucket(n, min, 0)(i) <==> m <= s < 2 * m
            &&& in_bucket(n, min, 1)(i) <==> 2 * m <= s < 4 * m
            &&& in_bucket(n, min, 2)(i) <==> 4 * m <= s < 8 * m
            &&& in_bucket(n, min, 3)(i) <==> 8 * m <= s < 16 * m
            &&& in_bucket(n, min, 4)(i) <==> 16 * m <= s
        }),
{
}

/// An item counts towards the whole exactly if no folder above it is an item
/// too.
pub proof fn law_nested_items_count_once(n: Seq<Node>, items: Seq<usize>, i: usize, p: usize)
    ensures
        n[i as int].parent is None ==> outermost(n, items)(i),
        n[i as int].parent == Some(p) ==> (outermost(n, items)(i) <==> forall|k: int|
            0 <= k < items.len() ==> !holds(n, #[trigger] items[k] as int, p as int)),
        is_file(n)(i) <==> n[i as int].kind == NodeKind::File,
{
}

/// What a kind has in a tally.
pub open spec fn tally_of(list: Seq<(Kind, nat)>, kind: Kind) -> nat
    decreases list.len(),
{
    if list.len() == 0 {
        0
    } else {
        tally_of(list.drop_last(), kind) + if list.last().0 == kind { list.last().1 } else { 0 }
    }
}

proof fn lemma_tallied(list: Seq<(Kind, nat)>, kind: Kind, bytes: nat, k: int, other: Kind)
    requires
        0 <= k <= list.len(),
    ensures
        tally_of(tallied(list, kind, bytes, k), other) == tally_of(list, other) + if other == kind { bytes } else { 0 },
    decreases list.len() - k,
{
    if k < list.len() {
        if list[k].0 == kind {
            lemma_tally_update(list, k, bytes, other);
        } else {
            lemma_tallied(list, kind, bytes, k + 1, other);
        }
    } else {
        assert(list.push((kind, bytes)).drop_last() =~= list);
    }
}

proof fn lemma_tally_update(list: Seq<(Kind, nat)>, k: int, bytes: nat, other: Kind)
    requires
        0 <= k < list.len(),
    ensures
        tally_of(list.update(k, (list[k].0, list[k].1 + bytes)), other) == tally_of(list, other) + if other == list[k].0 { bytes } else { 0 },
    decreases list.len(),
{
    let x = (list[k].0, list[k].1 + bytes);
    if k < list.len() - 1 {
        assert(list.update(k, x).drop_last() =~= list.drop_last().update(k, x));
        lemma_tally_update(list.drop_last(), k, bytes, other);
    } else {
        assert(list.update(k, x).drop_last() =~= list.drop_last());
    }
}

/// The breakdown by kind: each kind has the bytes of the items of that kind.
pub proof fn law_kinds_have_the_bytes_of_their_items(n: Seq<Node>, kinds: Seq<Kind>, items: Seq<usize>, kind: Kind)
    ensures
        tally_of(kind_tally(n, kinds, items), kind) == picked_bytes(n, items, |i: usize| kind_of(kinds, i as int) == kind),
    decreases items.len(),
{
    if items.len() > 0 {
        let front = items.drop_last();
        law_kinds_have_the_bytes_of_their_items(n, kinds, front, kind);
        lemma_tallied(
            kind_tally(n, kinds, front),
            kind_of(kinds, items.last() as int),
            n[items.last() as int].size as nat,
            0,
            kind,
        );
    }
}

/// What is looked for in names is the text given, without white space around it
/// and in lower case.
pub proof fn law_names_are_searched_in_lower_case(name: Seq<char>)
    ensures
        needle_of(name) == folded(trim(name)),
{
}

} // verus!
