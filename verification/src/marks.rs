//! Nodes that the user marked for removal, and findings that are ticked.

use vstd::prelude::*;

use crate::cleanup::{check_markable, mark_refusal};
use crate::path::FsPath;
use crate::rows::lemma_holds_below;
use crate::rules::kernels::lemma_push_contains;
use crate::rules::{actionable, finding_views, knows_text, Finding, FindingView, Risk};
use crate::scanner::{holds, is_tree, parent_ok, path_at, Node, NodeKind, Tree};
use crate::text::texts;

verus! {

/// Node `anc` is a directory that holds node `idx`.
pub fn is_ancestor(t: &Tree, anc: usize, idx: usize) -> (r: bool)
    requires
        t.wf(),
        idx < t.nodes@.len(),
    ensures
        r == (anc != idx && holds(t.nodes@, anc as int, idx as int)),
{
    let ghost n = t.nodes@;
    let mut cur: usize = idx;
    while cur > 0
        invariant
            t.wf(),
            n == t.nodes@,
            cur <= idx < n.len(),
            (anc != idx && holds(n, anc as int, idx as int)) == (anc != cur && holds(n, anc as int, cur as int)),
        decreases cur,
    {
        assert(parent_ok(n, cur as int));
        let p: usize = match t.nodes[cur].parent {
            Some(p) => p,
            None => 0,
        };
        proof {
            if holds(n, anc as int, p as int) {
                lemma_holds_below(n, anc as int, p as int);
            }
        }
        if p == anc {
            return true;
        }
        cur = p;
    }
    false
}

/// Marked directly or through a marked directory.
pub open spec fn marked_in(n: Seq<Node>, m: Seq<usize>, idx: int) -> bool {
    exists|k: int| 0 <= k < m.len() && holds(n, #[trigger] m[k] as int, idx)
}

fn in_list(m: &Vec<usize>, idx: usize) -> (r: bool)
    ensures
        r == m@.contains(idx),
{
    for k in 0..m.len()
        invariant
            forall|j: int| 0 <= j < k ==> m@[j] != idx,
    {
        if m[k] == idx {
            return true;
        }
    }
    false
}

/// Is node `idx` marked, directly or through a marked directory?
pub fn marked_state(t: &Tree, m: &Vec<usize>, idx: usize) -> (r: bool)
    requires
        t.wf(),
        idx < t.nodes@.len(),
    ensures
        r == marked_in(t.nodes@, m@, idx as int),
{
    let ghost n = t.nodes@;
    for k in 0..m.len()
        invariant
            t.wf(),
            n == t.nodes@,
            idx < n.len(),
            forall|j: int| 0 <= j < k ==> !holds(n, #[trigger] m@[j] as int, idx as int),
    {
        if m[k] == idx || is_ancestor(t, m[k], idx) {
            assert(holds(n, m@[k as int] as int, idx as int));
            return true;
        }
    }
    false
}

/// Two marks do not lie in one another.
pub open spec fn side_by_side(n: Seq<Node>, a: int, b: int) -> bool {
    !holds(n, a, b) && !holds(n, b, a)
}

/// Marks: nodes of the tree in ascending order, none inside another.
pub open spec fn marks_ok(n: Seq<Node>, m: Seq<usize>) -> bool {
    &&& forall|k: int| 0 <= k < m.len() ==> (#[trigger] m[k]) < n.len()
    &&& forall|i: int, j: int| 0 <= i < j < m.len() ==> (#[trigger] m[i]) < (#[trigger] m[j])
    &&& forall|i: int, j: int| 0 <= i < j < m.len() ==> side_by_side(n, #[trigger] m[i] as int, #[trigger] m[j] as int)
}

/// `m` without `idx`.
pub open spec fn without_mark(m: Seq<usize>, idx: usize) -> Seq<usize>
    decreases m.len(),
{
    if m.len() == 0 {
        m
    } else if m.last() == idx {
        without_mark(m.drop_last(), idx)
    } else {
        without_mark(m.drop_last(), idx).push(m.last())
    }
}

/// `m` without what lies in directory `idx`.
pub open spec fn outside(n: Seq<Node>, m: Seq<usize>, idx: int) -> Seq<usize>
    decreases m.len(),
{
    if m.len() == 0 {
        m
    } else if m.last() != idx && holds(n, idx, m.last() as int) {
        outside(n, m.drop_last(), idx)
    } else {
        outside(n, m.drop_last(), idx).push(m.last())
    }
}

/// `m`, which is ascending, with `x` in its place.
pub open spec fn with_mark(m: Seq<usize>, x: usize) -> Seq<usize>
    decreases m.len(),
{
    if m.len() == 0 {
        seq![x]
    } else if m.last() < x {
        m.push(x)
    } else {
        with_mark(m.drop_last(), x).push(m.last())
    }
}

/// What marking or unmarking a node came to.
pub enum MarkOutcome {
    Unmarked,
    /// Grouped small files, mount points (and the scan root) cannot be marked.
    Grouped,
    /// It lies in a marked directory.
    Inside,
    /// Refused, and why.
    Refused(String),
    Marked,
}

pub enum MarkOutcomeView {
    Unmarked,
    Grouped,
    Inside,
    Refused(Seq<char>),
    Marked,
}

impl View for MarkOutcome {
    type V = MarkOutcomeView;

    open spec fn view(&self) -> MarkOutcomeView {
        match self {
            MarkOutcome::Unmarked => MarkOutcomeView::Unmarked,
            MarkOutcome::Grouped => MarkOutcomeView::Grouped,
            MarkOutcome::Inside => MarkOutcomeView::Inside,
            MarkOutcome::Refused(e) => MarkOutcomeView::Refused(e@),
            MarkOutcome::Marked => MarkOutcomeView::Marked,
        }
    }
}

/// What pressing the mark key on node `idx` comes to. With `not_root` the scan
/// root is refused before anything else is looked at.
pub open spec fn mark_outcome(
    n: Seq<Node>,
    root: Seq<u8>,
    home: Seq<u8>,
    m: Seq<usize>,
    idx: usize,
    not_root: bool,
) -> MarkOutcomeView {
    let kind = n[idx as int].kind;
    if m.contains(idx) {
        MarkOutcomeView::Unmarked
    } else if (not_root && idx == 0) || kind == NodeKind::Aggregate || kind == NodeKind::Mount {
        MarkOutcomeView::Grouped
    } else if marked_in(n, m, idx as int) {
        MarkOutcomeView::Inside
    } else {
        match mark_refusal(path_at(n, root, idx as int), root, home) {
            Some(e) => MarkOutcomeView::Refused(e),
            None => MarkOutcomeView::Marked,
        }
    }
}

/// The marks after it. Marking a directory absorbs marks already inside it.
pub open spec fn marks_after(n: Seq<Node>, m: Seq<usize>, idx: usize, outcome: MarkOutcomeView) -> Seq<usize> {
    match outcome {
        MarkOutcomeView::Unmarked => without_mark(m, idx),
        MarkOutcomeView::Marked => with_mark(outside(n, m, idx as int), idx),
        _ => m,
    }
}

pub(crate) proof fn lemma_without_mark(n: Seq<Node>, m: Seq<usize>, idx: usize)
    requires
        marks_ok(n, m),
    ensures
        marks_ok(n, without_mark(m, idx)),
        forall|k: int| 0 <= k < without_mark(m, idx).len() ==> m.contains(#[trigger] without_mark(m, idx)[k]),
        without_mark(m, idx).len() > 0 && m.len() > 0 ==> without_mark(m, idx).last() <= m.last(),
        forall|k: int| 0 <= k < without_mark(m, idx).len() ==> (#[trigger] without_mark(m, idx)[k]) != idx,
    decreases m.len(),
{
    if m.len() > 0 {
        let r = m.drop_last();
        lemma_marks_shorter(n, m);
        lemma_without_mark(n, r, idx);
        let w = without_mark(r, idx);
        lemma_sub_push(n, m, w);
    }
}

proof fn lemma_outside(n: Seq<Node>, m: Seq<usize>, idx: int)
    requires
        marks_ok(n, m),
    ensures
        marks_ok(n, outside(n, m, idx)),
        forall|k: int| 0 <= k < outside(n, m, idx).len() ==> m.contains(#[trigger] outside(n, m, idx)[k]),
        forall|k: int|
            0 <= k < outside(n, m, idx).len() ==> {
                let x = #[trigger] outside(n, m, idx)[k] as int;
                x == idx || !holds(n, idx, x)
            },
        outside(n, m, idx).len() > 0 && m.len() > 0 ==> outside(n, m, idx).last() <= m.last(),
    decreases m.len(),
{
    if m.len() > 0 {
        let r = m.drop_last();
        lemma_marks_shorter(n, m);
        lemma_outside(n, r, idx);
        let w = outside(n, r, idx);
        lemma_sub_push(n, m, w);
    }
}

proof fn lemma_marks_shorter(n: Seq<Node>, m: Seq<usize>)
    requires
        marks_ok(n, m),
        m.len() > 0,
    ensures
        marks_ok(n, m.drop_last()),
{
    let r = m.drop_last();
    assert forall|k: int| 0 <= k < r.len() implies (#[trigger] r[k]) < n.len() by {
        assert(r[k] == m[k]);
    }
    assert forall|i: int, j: int| 0 <= i < j < r.len() implies (#[trigger] r[i]) < (#[trigger] r[j]) && side_by_side(
        n,
        r[i] as int,
        r[j] as int,
    ) by {
        assert(r[i] == m[i] && r[j] == m[j]);
        assert(m[i] < m[j]);
    }
}

/// Some of the marks, and the last one behind them, are marks.
proof fn lemma_sub_push(n: Seq<Node>, m: Seq<usize>, w: Seq<usize>)
    requires
        marks_ok(n, m),
        m.len() > 0,
        marks_ok(n, w),
        forall|k: int| 0 <= k < w.len() ==> m.drop_last().contains(#[trigger] w[k]),
    ensures
        marks_ok(n, w.push(m.last())),
        forall|k: int| 0 <= k < w.len() ==> m.contains(#[trigger] w[k]),
        m.contains(m.last()),
        w.len() > 0 ==> w.last() < m.last(),
{
    let p = w.push(m.last());
    assert(m[m.len() - 1] == m.last());
    assert forall|k: int| 0 <= k < w.len() implies m.contains(#[trigger] w[k]) && w[k] < m.last() && side_by_side(
        n,
        w[k] as int,
        m.last() as int,
    ) by {
        let x = choose|x: int| 0 <= x < m.drop_last().len() && m.drop_last()[x] == w[k];
        assert(m[x] == w[k]);
        assert(m[x] < m[m.len() - 1]);
        assert(side_by_side(n, m[x] as int, m[m.len() - 1] as int));
    }
    assert forall|i: int, j: int| 0 <= i < j < p.len() implies (#[trigger] p[i]) < (#[trigger] p[j]) && side_by_side(
        n,
        p[i] as int,
        p[j] as int,
    ) by {
        if j < w.len() {
            assert(w[i] < w[j]);
        }
    }
    assert forall|k: int| 0 <= k < p.len() implies (#[trigger] p[k]) < n.len() by {
        if k < w.len() {
            assert(w[k] < n.len());
        } else {
            assert(m[m.len() - 1] < n.len());
        }
    }
}

proof fn lemma_with_mark(n: Seq<Node>, m: Seq<usize>, x: usize)
    requires
        marks_ok(n, m),
        x < n.len(),
        forall|k: int| 0 <= k < m.len() ==> (#[trigger] m[k]) != x && side_by_side(n, m[k] as int, x as int),
    ensures
        marks_ok(n, with_mark(m, x)),
        forall|k: int| 0 <= k < with_mark(m, x).len() ==> (#[trigger] with_mark(m, x)[k]) == x || m.contains(with_mark(m, x)[k]),
        with_mark(m, x).contains(x),
    decreases m.len(),
{
    let p = with_mark(m, x);
    if m.len() == 0 {
        assert(p[0] == x);
    } else if m.last() < x {
        assert(p[m.len() as int] == x);
        assert forall|i: int, j: int| 0 <= i < j < p.len() implies (#[trigger] p[i]) < (#[trigger] p[j]) && side_by_side(
            n,
            p[i] as int,
            p[j] as int,
        ) by {
            if j < m.len() {
                assert(m[i] < m[j]);
            } else {
                assert(m[i] != x);
                if i < m.len() - 1 {
                    assert(m[i] < m[m.len() - 1]);
                }
            }
        }
        assert forall|k: int| 0 <= k < p.len() implies (#[trigger] p[k]) < n.len() && (p[k] == x || m.contains(p[k])) by {
            if k < m.len() {
                assert(m[k] < n.len());
            }
        }
    } else {
        let r = m.drop_last();
        lemma_marks_shorter(n, m);
        assert forall|k: int| 0 <= k < r.len() implies (#[trigger] r[k]) != x && side_by_side(n, r[k] as int, x as int) by {
            assert(r[k] == m[k]);
        }
        lemma_with_mark(n, r, x);
        let w = with_mark(r, x);
        let last = m.last();
        assert(m[m.len() - 1] == last && last != x && side_by_side(n, last as int, x as int));
        assert forall|k: int| 0 <= k < w.len() implies (#[trigger] w[k]) < last && side_by_side(n, w[k] as int, last as int)
            && (w[k] == x || m.contains(w[k])) by {
            if w[k] != x {
                assert(r.contains(w[k]));
                let y = choose|y: int| 0 <= y < r.len() && r[y] == w[k];
                assert(m[y] == w[k]);
                assert(m[y] < m[m.len() - 1]);
                assert(side_by_side(n, m[y] as int, m[m.len() - 1] as int));
            }
        }
        assert forall|i: int, j: int| 0 <= i < j < p.len() implies (#[trigger] p[i]) < (#[trigger] p[j]) && side_by_side(
            n,
            p[i] as int,
            p[j] as int,
        ) by {
            if j < w.len() {
                assert(w[i] < w[j]);
                assert(side_by_side(n, w[i] as int, w[j] as int));
            }
        }
        assert forall|k: int| 0 <= k < p.len() implies (#[trigger] p[k]) < n.len() && (p[k] == x || m.contains(p[k])) by {
            if k < w.len() {
                assert(w[k] < n.len());
            } else {
                assert(m[m.len() - 1] < n.len());
            }
        }
        let z = choose|z: int| 0 <= z < w.len() && w[z] == x;
        assert(p[z] == x);
    }
}

/// Whatever is marked or unmarked, no mark ever lies inside another, so no byte
/// is removed (or counted) twice.
pub proof fn law_marks_are_never_nested(
    n: Seq<Node>,
    root: Seq<u8>,
    home: Seq<u8>,
    m: Seq<usize>,
    idx: usize,
    not_root: bool,
)
    requires
        is_tree(n),
        marks_ok(n, m),
        idx < n.len(),
    ensures
        marks_ok(n, marks_after(n, m, idx, mark_outcome(n, root, home, m, idx, not_root))),
{
    match mark_outcome(n, root, home, m, idx, not_root) {
        MarkOutcomeView::Unmarked => lemma_without_mark(n, m, idx),
        MarkOutcomeView::Marked => {
            lemma_outside(n, m, idx as int);
            let w = outside(n, m, idx as int);
            assert forall|k: int| 0 <= k < w.len() implies (#[trigger] w[k]) != idx && side_by_side(n, w[k] as int, idx as int) by {
                assert(m.contains(w[k]));
                let y = choose|y: int| 0 <= y < m.len() && m[y] == w[k];
                assert(!holds(n, m[y] as int, idx as int));
            }
            lemma_with_mark(n, w, idx);
        },
        _ => {},
    }
}

/// Every mark may be removed: a set of marks of which none is refused stays
/// one.
pub proof fn law_marks_are_markable(
    n: Seq<Node>,
    root: Seq<u8>,
    home: Seq<u8>,
    m: Seq<usize>,
    idx: usize,
    not_root: bool,
    k: int,
)
    requires
        is_tree(n),
        marks_ok(n, m),
        idx < n.len(),
        forall|j: int| 0 <= j < m.len() ==> mark_refusal(path_at(n, root, #[trigger] m[j] as int), root, home) is None,
        0 <= k < marks_after(n, m, idx, mark_outcome(n, root, home, m, idx, not_root)).len(),
    ensures
        mark_refusal(
            path_at(n, root, marks_after(n, m, idx, mark_outcome(n, root, home, m, idx, not_root))[k] as int),
            root,
            home,
        ) is None,
{
    let outcome = mark_outcome(n, root, home, m, idx, not_root);
    let after = marks_after(n, m, idx, outcome);
    match outcome {
        MarkOutcomeView::Unmarked => {
            lemma_without_mark(n, m, idx);
            let y = choose|y: int| 0 <= y < m.len() && m[y] == after[k];
            assert(mark_refusal(path_at(n, root, m[y] as int), root, home) is None);
        },
        MarkOutcomeView::Marked => {
            law_marks_are_never_nested(n, root, home, m, idx, not_root);
            lemma_outside(n, m, idx as int);
            let w = outside(n, m, idx as int);
            assert forall|k: int| 0 <= k < w.len() implies (#[trigger] w[k]) != idx && side_by_side(n, w[k] as int, idx as int) by {
                assert(m.contains(w[k]));
                let y = choose|y: int| 0 <= y < m.len() && m[y] == w[k];
                assert(!holds(n, m[y] as int, idx as int));
            }
            lemma_with_mark(n, w, idx);
            if after[k] != idx {
                assert(w.contains(after[k]));
                let z = choose|z: int| 0 <= z < w.len() && w[z] == after[k];
                assert(m.contains(w[z]));
                let y = choose|y: int| 0 <= y < m.len() && m[y] == after[k];
                assert(mark_refusal(path_at(n, root, m[y] as int), root, home) is None);
            }
        },
        _ => {
            assert(mark_refusal(path_at(n, root, m[k] as int), root, home) is None);
        },
    }
}

pub(crate) fn drop_mark(m: &Vec<usize>, idx: usize) -> (r: Vec<usize>)
    ensures
        r@ == without_mark(m@, idx),
{
    let mut out: Vec<usize> = Vec::new();
    for k in 0..m.len()
        invariant
            out@ == without_mark(m@.take(k as int), idx),
    {
        assert(m@.take(k + 1).drop_last() =~= m@.take(k as int));
        if m[k] != idx {
            out.push(m[k]);
        }
    }
    assert(m@.take(m@.len() as int) =~= m@);
    out
}

fn drop_inside(t: &Tree, m: &Vec<usize>, idx: usize) -> (r: Vec<usize>)
    requires
        t.wf(),
        forall|k: int| 0 <= k < m@.len() ==> (#[trigger] m@[k]) < t.nodes@.len(),
    ensures
        r@ == outside(t.nodes@, m@, idx as int),
{
    let mut out: Vec<usize> = Vec::new();
    for k in 0..m.len()
        invariant
            t.wf(),
            forall|k: int| 0 <= k < m@.len() ==> (#[trigger] m@[k]) < t.nodes@.len(),
            out@ == outside(t.nodes@, m@.take(k as int), idx as int),
    {
        assert(m@.take(k + 1).drop_last() =~= m@.take(k as int));
        if !is_ancestor(t, idx, m[k]) {
            out.push(m[k]);
        }
    }
    assert(m@.take(m@.len() as int) =~= m@);
    out
}

fn add_mark(m: Vec<usize>, x: usize) -> (r: Vec<usize>)
    ensures
        r@ == with_mark(m@, x),
    decreases m@.len(),
{
    let mut m = m;
    if m.len() == 0 {
        m.push(x);
        assert(m@ =~= seq![x]);
        return m;
    }
    let last: usize = m[m.len() - 1];
    if last < x {
        m.push(x);
        return m;
    }
    let ghost all = m@;
    m.pop();
    assert(m@ =~= all.drop_last());
    let mut r = add_mark(m, x);
    r.push(last);
    r
}

/// Mark node `idx`, or unmark it.
pub fn toggle_mark(t: &Tree, m: &mut Vec<usize>, idx: usize, home: &FsPath, not_root: bool) -> (r: MarkOutcome)
    requires
        t.wf(),
        idx < t.nodes@.len(),
        marks_ok(t.nodes@, old(m)@),
    ensures
        r@ == mark_outcome(t.nodes@, t.root_path@, home@, old(m)@, idx, not_root),
        final(m)@ == marks_after(t.nodes@, old(m)@, idx, r@),
        marks_ok(t.nodes@, final(m)@),
{
    proof {
        law_marks_are_never_nested(t.nodes@, t.root_path@, home@, m@, idx, not_root);
    }
    if in_list(m, idx) {
        *m = drop_mark(m, idx);
        return MarkOutcome::Unmarked;
    }
    let kind = t.nodes[idx].kind;
    if (not_root && idx == 0) || kind == NodeKind::Aggregate || kind == NodeKind::Mount {
        return MarkOutcome::Grouped;
    }
    if marked_state(t, m, idx) {
        return MarkOutcome::Inside;
    }
    let path = t.path_of(idx);
    match check_markable(&path, &t.root_path, home) {
        Err(e) => return MarkOutcome::Refused(e),
        Ok(()) => {},
    }
    let kept = drop_inside(t, m, idx);
    *m = add_mark(kept, idx);
    MarkOutcome::Marked
}

/// The bytes of the first `k` marks.
pub open spec fn mark_bytes(n: Seq<Node>, m: Seq<usize>, k: int) -> nat
    decreases k,
{
    if k <= 0 {
        0
    } else {
        mark_bytes(n, m, k - 1) + n[m[k - 1] as int].size as nat
    }
}

proof fn lemma_mark_bytes_grow(n: Seq<Node>, m: Seq<usize>, i: int, k: int)
    requires
        0 <= i <= k,
    ensures
        mark_bytes(n, m, i) <= mark_bytes(n, m, k),
    decreases k,
{
    if i < k {
        lemma_mark_bytes_grow(n, m, i, k - 1);
    }
}

/// The bytes of all marks.
pub fn marked_bytes(t: &Tree, m: &Vec<usize>) -> (r: u64)
    requires
        marks_ok(t.nodes@, m@),
        mark_bytes(t.nodes@, m@, m@.len() as int) <= u64::MAX,
    ensures
        r == mark_bytes(t.nodes@, m@, m@.len() as int),
{
    let mut sum: u64 = 0;
    for k in 0..m.len()
        invariant
            marks_ok(t.nodes@, m@),
            mark_bytes(t.nodes@, m@, m@.len() as int) <= u64::MAX,
            sum == mark_bytes(t.nodes@, m@, k as int),
    {
        proof {
            lemma_mark_bytes_grow(t.nodes@, m@, k + 1, m@.len() as int);
        }
        sum += t.nodes[m[k]].size;
    }
    sum
}

/// The exact paths of the marks, with their sizes.
pub fn marked_paths(t: &Tree, m: &Vec<usize>) -> (r: Vec<(FsPath, u64)>)
    requires
        t.wf(),
        marks_ok(t.nodes@, m@),
    ensures
        r@.len() == m@.len(),
        forall|k: int|
            0 <= k < m@.len() ==> (#[trigger] r@[k]).0@ == path_at(t.nodes@, t.root_path@, m@[k] as int) && r@[k].1
                == t.nodes@[m@[k] as int].size,
{
    let mut out: Vec<(FsPath, u64)> = Vec::new();
    for k in 0..m.len()
        invariant
            t.wf(),
            marks_ok(t.nodes@, m@),
            out@.len() == k,
            forall|j: int|
                0 <= j < k ==> (#[trigger] out@[j]).0@ == path_at(t.nodes@, t.root_path@, m@[j] as int) && out@[j].1
                    == t.nodes@[m@[j] as int].size,
    {
        assert(m@[k as int] < t.nodes@.len());
        out.push((t.path_of(m[k]), t.nodes[m[k]].size));
    }
    out
}

/// `list` without `id`.
pub open spec fn without_id(list: Seq<Seq<char>>, id: Seq<char>) -> Seq<Seq<char>>
    decreases list.len(),
{
    if list.len() == 0 {
        list
    } else if list.last() == id {
        without_id(list.drop_last(), id)
    } else {
        without_id(list.drop_last(), id).push(list.last())
    }
}

/// `list` with `id` ticked if it was not, and the other way round.
pub open spec fn flipped(list: Seq<Seq<char>>, id: Seq<char>) -> Seq<Seq<char>> {
    if list.contains(id) {
        without_id(list, id)
    } else {
        list.push(id)
    }
}

/// `list` with `id` ticked.
pub open spec fn ticked(list: Seq<Seq<char>>, id: Seq<char>) -> Seq<Seq<char>> {
    if list.contains(id) {
        list
    } else {
        list.push(id)
    }
}

pub fn untick(list: &Vec<String>, id: &String) -> (r: Vec<String>)
    ensures
        texts(r@) == without_id(texts(list@), id@),
{
    let ghost all = texts(list@);
    let mut out: Vec<String> = Vec::new();
    assert(texts(out@) =~= without_id(all.take(0), id@));
    for k in 0..list.len()
        invariant
            all == texts(list@),
            texts(out@) == without_id(all.take(k as int), id@),
    {
        proof {
            assert(all.take(k + 1).drop_last() =~= all.take(k as int));
            assert(all.take(k + 1).last() == list@[k as int]@);
        }
        if list[k] != *id {
            let ghost before = out@;
            let s = list[k].clone();
            out.push(s);
            assert(texts(out@) =~= texts(before).push(s@));
        }
    }
    assert(all.take(list@.len() as int) =~= all);
    out
}

pub fn tick(list: &mut Vec<String>, id: &String)
    ensures
        texts(final(list)@) == ticked(texts(old(list)@), id@),
{
    if !knows_text(list, id) {
        let ghost before = list@;
        let s = id.clone();
        list.push(s);
        assert(texts(list@) =~= texts(before).push(s@));
    }
}

pub fn flip(list: &mut Vec<String>, id: &String)
    ensures
        texts(final(list)@) == flipped(texts(old(list)@), id@),
{
    if knows_text(list, id) {
        *list = untick(list, id);
    } else {
        tick(list, id);
    }
}

/// The ticks once all findings of a tier (or all) that can be run are ticked.
pub open spec fn tier_ticked(list: Seq<Seq<char>>, findings: Seq<FindingView>, tier: Option<Risk>) -> Seq<Seq<char>>
    decreases findings.len(),
{
    if findings.len() == 0 {
        list
    } else {
        let rest = tier_ticked(list, findings.drop_last(), tier);
        let f = findings.last();
        if actionable(f.action, f.needs_root) && (tier is None || tier == Some(f.risk)) {
            ticked(rest, f.id)
        } else {
            rest
        }
    }
}

pub fn select_tier(list: &mut Vec<String>, findings: &Vec<Finding>, tier: Option<Risk>)
    ensures
        texts(final(list)@) == tier_ticked(texts(old(list)@), finding_views(findings@), tier),
{
    let ghost start = texts(list@);
    let ghost fv = finding_views(findings@);
    for i in 0..findings.len()
        invariant
            fv == finding_views(findings@),
            texts(list@) == tier_ticked(start, fv.take(i as int), tier),
    {
        let f = &findings[i];
        proof {
            assert(fv.take(i + 1).drop_last() =~= fv.take(i as int));
            assert(fv.take(i + 1).last() == f@);
        }
        let wanted = match tier {
            Some(r) => f.risk == r,
            None => true,
        };
        if f.is_actionable() && wanted {
            tick(list, &f.id);
        }
    }
    assert(fv.take(findings@.len() as int) =~= fv);
}

/// The ticked ones of the findings.
pub open spec fn ticked_findings(findings: Seq<FindingView>, list: Seq<Seq<char>>) -> Seq<FindingView>
    decreases findings.len(),
{
    if findings.len() == 0 {
        findings
    } else {
        let rest = ticked_findings(findings.drop_last(), list);
        if list.contains(findings.last().id) {
            rest.push(findings.last())
        } else {
            rest
        }
    }
}

pub fn checked_findings(findings: &Vec<Finding>, list: &Vec<String>) -> (r: Vec<Finding>)
    ensures
        finding_views(r@) == ticked_findings(finding_views(findings@), texts(list@)),
{
    let ghost fv = finding_views(findings@);
    let mut out: Vec<Finding> = Vec::new();
    assert(finding_views(out@) =~= ticked_findings(fv.take(0), texts(list@)));
    for i in 0..findings.len()
        invariant
            fv == finding_views(findings@),
            finding_views(out@) == ticked_findings(fv.take(i as int), texts(list@)),
    {
        let f = &findings[i];
        proof {
            assert(fv.take(i + 1).drop_last() =~= fv.take(i as int));
            assert(fv.take(i + 1).last() == f@);
        }
        if knows_text(list, &f.id) {
            let ghost before = out@;
            let c = f.clone();
            out.push(c);
            assert(finding_views(out@) =~= finding_views(before).push(f@));
        }
    }
    assert(fv.take(findings@.len() as int) =~= fv);
    out
}

/// The ticks that some finding still has.
pub open spec fn still_listed(list: Seq<Seq<char>>, findings: Seq<FindingView>) -> Seq<Seq<char>>
    decreases list.len(),
{
    if list.len() == 0 {
        list
    } else {
        let rest = still_listed(list.drop_last(), findings);
        if crate::rules::has_id(findings, list.last()) {
            rest.push(list.last())
        } else {
            rest
        }
    }
}

pub fn keep_listed(list: &Vec<String>, findings: &Vec<Finding>) -> (r: Vec<String>)
    ensures
        texts(r@) == still_listed(texts(list@), finding_views(findings@)),
{
    let ghost all = texts(list@);
    let ghost fv = finding_views(findings@);
    let mut out: Vec<String> = Vec::new();
    assert(texts(out@) =~= still_listed(all.take(0), fv));
    for k in 0..list.len()
        invariant
            all == texts(list@),
            fv == finding_views(findings@),
            texts(out@) == still_listed(all.take(k as int), fv),
    {
        proof {
            assert(all.take(k + 1).drop_last() =~= all.take(k as int));
            assert(all.take(k + 1).last() == list@[k as int]@);
        }
        if crate::rules::knows_id(findings, &list[k]) {
            let ghost before = out@;
            let s = list[k].clone();
            out.push(s);
            assert(texts(out@) =~= texts(before).push(s@));
        }
    }
    assert(all.take(list@.len() as int) =~= all);
    out
}

proof fn lemma_unmarked(m: Seq<usize>, idx: usize, x: usize)
    ensures
        without_mark(m, idx).contains(x) <==> m.contains(x) && x != idx,
    decreases m.len(),
{
    if m.len() > 0 {
        lemma_unmarked(m.drop_last(), idx, x);
        lemma_push_contains(without_mark(m.drop_last(), idx), m.last(), x);
        lemma_push_contains(m.drop_last(), m.last(), x);
        assert(m =~= m.drop_last().push(m.last()));
    }
}

proof fn lemma_left_outside(n: Seq<Node>, m: Seq<usize>, idx: int, x: usize)
    ensures
        outside(n, m, idx).contains(x) <==> m.contains(x) && (x == idx || !holds(n, idx, x as int)),
    decreases m.len(),
{
    if m.len() > 0 {
        lemma_left_outside(n, m.drop_last(), idx, x);
        lemma_push_contains(outside(n, m.drop_last(), idx), m.last(), x);
        lemma_push_contains(m.drop_last(), m.last(), x);
        assert(m =~= m.drop_last().push(m.last()));
    }
}

proof fn lemma_marked_too(m: Seq<usize>, x: usize, y: usize)
    ensures
        with_mark(m, x).contains(y) <==> m.contains(y) || y == x,
    decreases m.len(),
{
    if m.len() > 0 {
        lemma_marked_too(m.drop_last(), x, y);
        lemma_push_contains(with_mark(m.drop_last(), x), m.last(), y);
        lemma_push_contains(m.drop_last(), m.last(), y);
        lemma_push_contains(m, x, y);
        assert(m =~= m.drop_last().push(m.last()));
    } else {
        assert(with_mark(m, x)[0] == x);
    }
}

/// Toggling a mark sets it or takes it away. Marks inside a node that gets marked
/// go, since they are covered by it; every other mark stays as it is.
pub proof fn law_toggling_changes_one_mark(
    n: Seq<Node>,
    root: Seq<u8>,
    home: Seq<u8>,
    m: Seq<usize>,
    idx: usize,
    not_root: bool,
    x: usize,
)
    ensures
        ({
            let outcome = mark_outcome(n, root, home, m, idx, not_root);
            let after = marks_after(n, m, idx, outcome);
            &&& outcome is Unmarked ==> (after.contains(x) <==> m.contains(x) && x != idx)
            &&& outcome is Marked ==> (after.contains(x) <==> x == idx || m.contains(x) && !holds(n, idx as int, x as int))
            &&& !(outcome is Marked) && !(outcome is Unmarked) ==> after == m
        }),
{
    lemma_unmarked(m, idx, x);
    lemma_left_outside(n, m, idx as int, x);
    lemma_marked_too(outside(n, m, idx as int), idx, x);
}

/// What becomes of an attempt to mark: a marked node is unmarked; grouped files,
/// mounts and the root are not for marking; what lies in a marked folder is
/// marked with it; and all else is marked unless it may not be removed.
pub proof fn law_what_marking_does(n: Seq<Node>, root: Seq<u8>, home: Seq<u8>, m: Seq<usize>, idx: usize, not_root: bool)
    ensures
        ({
            let outcome = mark_outcome(n, root, home, m, idx, not_root);
            let kind = n[idx as int].kind;
            let fixed = kind == NodeKind::Aggregate || kind == NodeKind::Mount || not_root && idx == 0;
            let covered = exists|k: int| 0 <= k < m.len() && holds(n, #[trigger] m[k] as int, idx as int);
            let refused = mark_refusal(path_at(n, root, idx as int), root, home);
            &&& outcome is Unmarked <==> m.contains(idx)
            &&& outcome is Grouped <==> !m.contains(idx) && fixed
            &&& outcome is Inside <==> !m.contains(idx) && !fixed && covered
            &&& outcome is Marked <==> !m.contains(idx) && !fixed && !covered && refused is None
            &&& outcome matches MarkOutcomeView::Refused(e) ==> refused == Some(e)
        }),
{
}

/// The marked bytes add up, each mark counted once.
pub proof fn law_marked_bytes_add_up(n: Seq<Node>, m: Seq<usize>, i: int)
    requires
        0 <= i < m.len(),
    ensures
        mark_bytes(n, m, m.len() as int) == mark_bytes(n, m.remove(i), m.len() - 1) + n[m[i] as int].size,
{
    lemma_bytes_without(n, m, i, m.len() as int);
}

proof fn lemma_bytes_without(n: Seq<Node>, m: Seq<usize>, i: int, k: int)
    requires
        0 <= i < k <= m.len(),
    ensures
        mark_bytes(n, m, k) == mark_bytes(n, m.remove(i), k - 1) + n[m[i] as int].size,
    decreases k,
{
    if i < k - 1 {
        lemma_bytes_without(n, m, i, k - 1);
        assert(m.remove(i)[k - 2] == m[k - 1]);
    } else {
        lemma_bytes_before(n, m, m.remove(i), i);
    }
}

proof fn lemma_bytes_before(n: Seq<Node>, a: Seq<usize>, b: Seq<usize>, k: int)
    requires
        0 <= k <= a.len(),
        k <= b.len(),
        forall|j: int| 0 <= j < k ==> a[j] == b[j],
    ensures
        mark_bytes(n, a, k) == mark_bytes(n, b, k),
    decreases k,
{
    if k > 0 {
        lemma_bytes_before(n, a, b, k - 1);
    }
}

/// Ticking adds an id, unticking takes it away, flipping does whichever applies;
/// every other tick stays.
pub proof fn law_ticks_change_one_at_a_time(list: Seq<Seq<char>>, id: Seq<char>, x: Seq<char>)
    ensures
        without_id(list, id).contains(x) <==> list.contains(x) && x != id,
        ticked(list, id).contains(x) <==> list.contains(x) || x == id,
        x != id ==> (flipped(list, id).contains(x) <==> list.contains(x)),
        flipped(list, id).contains(id) <==> !list.contains(id),
    decreases list.len(),
{
    lemma_push_contains(list, id, x);
    lemma_push_contains(list, id, id);
    if list.len() > 0 {
        let front = list.drop_last();
        law_ticks_change_one_at_a_time(front, id, x);
        law_ticks_change_one_at_a_time(front, id, id);
        lemma_push_contains(without_id(front, id), list.last(), x);
        lemma_push_contains(without_id(front, id), list.last(), id);
        lemma_push_contains(front, list.last(), x);
        lemma_push_contains(front, list.last(), id);
        assert(list =~= front.push(list.last()));
    }
}

/// Ticking a tier ticks every finding of it that can be carried out, and nothing
/// else; what was ticked stays ticked.
pub proof fn law_a_tier_is_ticked_whole(list: Seq<Seq<char>>, findings: Seq<FindingView>, tier: Option<Risk>, x: Seq<char>)
    ensures
        tier_ticked(list, findings, tier).contains(x) <==> list.contains(x) || exists|i: int|
            #![trigger findings[i]]
            0 <= i < findings.len() && findings[i].id == x && actionable(findings[i].action, findings[i].needs_root) && (tier is None
                || findings[i].risk == tier->0),
    decreases findings.len(),
{
    if findings.len() > 0 {
        let front = findings.drop_last();
        let f = findings.last();
        law_a_tier_is_ticked_whole(list, front, tier, x);
        lemma_push_contains(tier_ticked(list, front, tier), f.id, x);
        assert(findings[findings.len() - 1] == f);
        assert forall|i: int| 0 <= i < front.len() implies #[trigger] front[i] == findings[i] by {}
        if exists|i: int|
            #![trigger findings[i]]
            0 <= i < findings.len() && findings[i].id == x && actionable(findings[i].action, findings[i].needs_root) && (tier is None
                || findings[i].risk == tier->0) {
            let i = choose|i: int|
                #![trigger findings[i]]
                0 <= i < findings.len() && findings[i].id == x && actionable(findings[i].action, findings[i].needs_root) && (tier is None
                    || findings[i].risk == tier->0);
            if i < front.len() {
                assert(front[i] == findings[i]);
            }
        }
    }
}

/// The findings that are carried out are those whose id is ticked.
pub proof fn law_ticked_findings_are_carried_out(findings: Seq<FindingView>, list: Seq<Seq<char>>, f: FindingView)
    ensures
        ticked_findings(findings, list).contains(f) <==> findings.contains(f) && list.contains(f.id),
    decreases findings.len(),
{
    if findings.len() > 0 {
        let front = findings.drop_last();
        law_ticked_findings_are_carried_out(front, list, f);
        lemma_push_contains(ticked_findings(front, list), findings.last(), f);
        lemma_push_contains(front, findings.last(), f);
        assert(findings =~= front.push(findings.last()));
    }
}

/// After an analysis, a tick stays exactly if its finding is still there.
pub proof fn law_ticks_stay_with_their_findings(list: Seq<Seq<char>>, findings: Seq<FindingView>, x: Seq<char>)
    ensures
        still_listed(list, findings).contains(x) <==> list.contains(x) && exists|i: int|
            0 <= i < findings.len() && (#[trigger] findings[i]).id == x,
    decreases list.len(),
{
    if list.len() > 0 {
        let front = list.drop_last();
        law_ticks_stay_with_their_findings(front, findings, x);
        lemma_push_contains(still_listed(front, findings), list.last(), x);
        lemma_push_contains(front, list.last(), x);
        assert(list =~= front.push(list.last()));
    }
}

} // verus!
