//! What is selected, expanded, marked and ticked: the state that both
//! front-ends share.

use vstd::prelude::*;

use crate::marks::{
    drop_mark, flip, flipped, is_ancestor, keep_listed, law_ticks_change_one_at_a_time, lemma_without_mark, mark_outcome, marks_after, marks_ok,
    still_listed, tier_ticked, toggle_mark, without_mark, MarkOutcome,
};
use crate::path::FsPath;
use crate::rows::{opened, reveal_node, row_views, rows_from, visible_rows};
use crate::rules::{
    accepted, actionable, finding_views, noted, sorted_from, CheckOutput, FindingView, Report, Risk,
};
use crate::scanner::{child_ok, holds, is_tree, located, parent_ok, Node, NodeKind, Tree};
use crate::text::texts;

verus! {

pub struct Nav {
    /// The selected node.
    pub sel: usize,
    /// The directory that the map shows.
    pub focus: usize,
    pub expanded: Vec<bool>,
    /// How many levels the map draws.
    pub map_depth: usize,
    /// Marked nodes.
    pub marked: Vec<usize>,
    /// Ids of ticked findings.
    pub checked: Vec<String>,
    pub prune_cursor: usize,
    pub report: Report,
}

#[verifier::ext_equal]
pub struct NavView {
    pub sel: int,
    pub focus: int,
    pub expanded: Seq<bool>,
    pub map_depth: int,
    pub marked: Seq<usize>,
    pub checked: Seq<Seq<char>>,
    pub prune_cursor: int,
    pub findings: Seq<FindingView>,
    pub notes: Seq<Seq<char>>,
}

impl View for Nav {
    type V = NavView;

    open spec fn view(&self) -> NavView {
        NavView {
            sel: self.sel as int,
            focus: self.focus as int,
            expanded: self.expanded@,
            map_depth: self.map_depth as int,
            marked: self.marked@,
            checked: texts(self.checked@),
            prune_cursor: self.prune_cursor as int,
            findings: self.report.list(),
            notes: texts(self.report.notes@),
        }
    }
}

/// The state speaks of nodes of the tree.
pub open spec fn nav_ok(v: NavView, n: Seq<Node>) -> bool {
    &&& 0 <= v.sel < n.len()
    &&& 0 <= v.focus < n.len()
    &&& v.expanded.len() == n.len()
    &&& marks_ok(n, v.marked)
}

pub open spec fn first_child(n: Seq<Node>) -> int {
    if n[0].children@.len() > 0 {
        n[0].children@[0] as int
    } else {
        0
    }
}

pub open spec fn parent_or_root(n: Seq<Node>, i: int) -> int {
    match n[i].parent {
        Some(p) => p as int,
        None => 0,
    }
}

/// The state for a tree that was just scanned.
pub open spec fn on_ready(v: NavView, n: Seq<Node>) -> NavView {
    NavView { sel: first_child(n), focus: 0, expanded: Seq::new(n.len(), |i: int| i == 0), ..v }
}

/// The map's focus a strict ancestor of the selection.
pub open spec fn on_sync(v: NavView, n: Seq<Node>) -> NavView {
    if v.sel == 0 {
        NavView { focus: 0, sel: first_child(n), ..v }
    } else if v.focus != v.sel && holds(n, v.focus, v.sel) {
        v
    } else {
        NavView { focus: parent_or_root(n, v.sel), ..v }
    }
}

/// Node `i` selected, with everything that holds it expanded and the focus a
/// strict ancestor of it.
pub open spec fn on_select(v: NavView, n: Seq<Node>, i: int) -> NavView {
    NavView {
        sel: i,
        expanded: opened(n, v.expanded, i),
        focus: if i != 0 && !(v.focus != i && holds(n, v.focus, i)) {
            parent_or_root(n, i)
        } else {
            v.focus
        },
        ..v
    }
}

/// A directory that can be zoomed into.
pub open spec fn has_children(n: Seq<Node>, i: int) -> bool {
    n[i].kind == NodeKind::Dir && n[i].children@.len() > 0
}

pub open spec fn on_zoom_in(v: NavView, n: Seq<Node>, i: int) -> NavView {
    if has_children(n, i) {
        NavView { focus: i, sel: n[i].children@[0] as int, ..v }
    } else {
        v
    }
}

pub open spec fn on_zoom_out(v: NavView, n: Seq<Node>) -> NavView {
    match n[v.focus].parent {
        Some(p) => NavView { sel: v.focus, focus: p as int, ..v },
        None => v,
    }
}

/// Index of the first of `kids` at or after `k` that is `i`, or the length.
pub open spec fn kid_place(kids: Seq<usize>, i: int, k: int) -> int
    decreases kids.len() - k,
{
    if k < 0 || k >= kids.len() || kids[k] == i {
        k
    } else {
        kid_place(kids, i, k + 1)
    }
}

/// The sibling behind node `i`; behind the last one comes the first.
pub open spec fn next_sibling(n: Seq<Node>, i: int) -> int {
    match n[i].parent {
        Some(p) => {
            let kids = n[p as int].children@;
            let k = kid_place(kids, i, 0);
            if k < kids.len() {
                kids[if k + 1 < kids.len() {
                    k + 1
                } else {
                    0
                }] as int
            } else {
                i
            }
        },
        None => i,
    }
}

/// Index of the first row at or after `k` that shows node `i`, or the number of
/// rows.
pub open spec fn row_place(rows: Seq<(int, int)>, i: int, k: int) -> int
    decreases rows.len() - k,
{
    if k < 0 || k >= rows.len() || rows[k].0 == i {
        k
    } else {
        row_place(rows, i, k + 1)
    }
}

/// The row that shows the selected node, else the first one.
pub open spec fn sel_row(v: NavView, n: Seq<Node>) -> int {
    let rows = rows_from(n, v.expanded, 0, 0);
    let k = row_place(rows, v.sel, 0);
    if k < rows.len() {
        k
    } else {
        0
    }
}

/// How far the selection moves in the list of rows.
#[derive(Clone, Copy, Debug, PartialEq, Eq, Structural)]
pub enum RowMove {
    Up(usize),
    Down(usize),
    First,
    Last,
}

/// The row that a move leads to.
pub open spec fn row_target(pos: int, last: int, m: RowMove) -> int {
    match m {
        RowMove::Up(k) => if pos > k {
            pos - k
        } else {
            0
        },
        RowMove::Down(k) => if pos + k < last {
            pos + k
        } else {
            last
        },
        RowMove::First => 0,
        RowMove::Last => last,
    }
}

pub open spec fn on_row_move(v: NavView, n: Seq<Node>, m: RowMove) -> NavView {
    let rows = rows_from(n, v.expanded, 0, 0);
    NavView { sel: rows[row_target(sel_row(v, n), rows.len() - 1, m)].0, ..v }
}

/// Expand the selected node, or go to its first child if it is expanded.
pub open spec fn on_open(v: NavView, n: Seq<Node>, select: bool) -> NavView {
    let kids = n[v.sel].children@;
    if kids.len() == 0 {
        v
    } else if !v.expanded[v.sel] {
        NavView { expanded: v.expanded.update(v.sel, true), ..v }
    } else if select {
        on_select(v, n, kids[0] as int)
    } else {
        NavView { sel: kids[0] as int, ..v }
    }
}

/// Collapse the selected node, or go to its parent.
pub open spec fn on_close(v: NavView, n: Seq<Node>, select: bool) -> NavView {
    if v.expanded[v.sel] && v.sel != 0 {
        NavView { expanded: v.expanded.update(v.sel, false), ..v }
    } else {
        match n[v.sel].parent {
            Some(p) => if select {
                on_select(v, n, p as int)
            } else {
                NavView { sel: p as int, ..v }
            },
            None => v,
        }
    }
}

/// Expand or collapse the selected node.
pub open spec fn on_flip(v: NavView, n: Seq<Node>) -> NavView {
    if n[v.sel].children@.len() == 0 {
        v
    } else {
        NavView { expanded: v.expanded.update(v.sel, !v.expanded[v.sel]), ..v }
    }
}

/// Show the selected node in the map.
pub open spec fn on_to_map(v: NavView, n: Seq<Node>) -> NavView {
    if has_children(n, v.sel) {
        NavView { focus: v.sel, sel: n[v.sel].children@[0] as int, ..v }
    } else {
        let f = parent_or_root(n, v.sel);
        NavView {
            focus: f,
            sel: if f == v.sel && n[v.sel].children@.len() > 0 {
                n[v.sel].children@[0] as int
            } else {
                v.sel
            },
            ..v
        }
    }
}

/// Tick finding `i`, or untick it, if it can be run.
pub open spec fn on_tick(v: NavView, i: int) -> NavView {
    if 0 <= i < v.findings.len() && actionable(v.findings[i].action, v.findings[i].needs_root) {
        NavView { checked: flipped(v.checked, v.findings[i].id), ..v }
    } else {
        v
    }
}

/// What ticking came to.
#[derive(Clone, Copy, Debug, PartialEq, Eq, Structural)]
pub enum TickOutcome {
    /// There is no such finding.
    Nothing,
    /// It is a manual step.
    Manual,
    Done,
}

pub open spec fn tick_outcome(v: NavView, i: int) -> TickOutcome {
    if !(0 <= i < v.findings.len()) {
        TickOutcome::Nothing
    } else if actionable(v.findings[i].action, v.findings[i].needs_root) {
        TickOutcome::Done
    } else {
        TickOutcome::Manual
    }
}

/// Index of the first finding at or after `k` with that id, or the number of
/// findings.
pub open spec fn id_place(list: Seq<FindingView>, id: Seq<char>, k: int) -> int
    decreases list.len() - k,
{
    if k < 0 || k >= list.len() || list[k].id == id {
        k
    } else {
        id_place(list, id, k + 1)
    }
}

/// Where the cursor of the prune list stands once the findings are `after`: on
/// the same finding, if it is still there.
pub open spec fn cursor_after(before: Seq<FindingView>, cursor: int, after: Seq<FindingView>) -> int {
    if 0 <= cursor < before.len() {
        let k = id_place(after, before[cursor].id, 0);
        if k < after.len() {
            k
        } else {
            0
        }
    } else {
        cursor
    }
}

/// The node of the first path of a finding that lies in the tree.
pub open spec fn finding_node(n: Seq<Node>, root: Seq<u8>, paths: Seq<Seq<u8>>) -> Option<int>
    decreases paths.len(),
{
    if paths.len() == 0 {
        None
    } else {
        match finding_node(n, root, paths.drop_last()) {
            Some(i) => Some(i),
            None => located(n, root, paths.last()),
        }
    }
}

impl Nav {
    pub fn new(map_depth: usize) -> (r: Nav)
        ensures
            r@ == (NavView {
                sel: 0,
                focus: 0,
                expanded: Seq::empty(),
                map_depth: map_depth as int,
                marked: Seq::empty(),
                checked: Seq::empty(),
                prune_cursor: 0,
                findings: Seq::empty(),
                notes: Seq::empty(),
            }),
    {
        let r = Nav {
            sel: 0,
            focus: 0,
            expanded: Vec::new(),
            map_depth,
            marked: Vec::new(),
            checked: Vec::new(),
            prune_cursor: 0,
            report: Report { findings: Vec::new(), notes: Vec::new() },
        };
        proof {
            assert(r.report.list() =~= Seq::empty());
            assert(texts(r.checked@) =~= Seq::empty());
            assert(texts(r.report.notes@) =~= Seq::empty());
            assert(r.expanded@ =~= Seq::empty());
        }
        r
    }

    /// A new tree was scanned.
    pub fn tree_ready(&mut self, t: &Tree)
        requires
            t.wf(),
            old(self)@.marked.len() == 0,
        ensures
            final(self)@ == on_ready(old(self)@, t.nodes@),
            nav_ok(final(self)@, t.nodes@),
    {
        let n: usize = t.nodes.len();
        let mut ex: Vec<bool> = Vec::new();
        for i in 0..n
            invariant
                ex@ == Seq::new(i as nat, |k: int| k == 0),
        {
            ex.push(i == 0);
            assert(ex@ =~= Seq::new((i + 1) as nat, |k: int| k == 0));
        }
        self.expanded = ex;
        self.focus = 0;
        self.sel = if t.nodes[0].children.len() > 0 {
            proof {
                assert(child_ok(t.nodes@, 0, 0));
            }
            t.nodes[0].children[0]
        } else {
            0
        };
        assert(self@ =~= on_ready(old(self)@, t.nodes@));
    }

    /// Findings of one group of rules arrived.
    pub fn findings_arrived(&mut self, out: CheckOutput)
        ensures
            sorted_from(accepted(old(self)@.findings, finding_views(out.findings@)), final(self)@.findings),
            final(self)@ == (NavView {
                findings: final(self)@.findings,
                prune_cursor: cursor_after(old(self)@.findings, old(self)@.prune_cursor, final(self)@.findings),
                checked: still_listed(old(self)@.checked, final(self)@.findings),
                notes: noted(old(self)@.notes, texts(out.notes@)),
                ..old(self)@
            }),
    {
        let ghost start = self@;
        let ghost more = texts(out.notes@);
        let cur: Option<String> = if self.prune_cursor < self.report.findings.len() {
            Some(self.report.findings[self.prune_cursor].id.clone())
        } else {
            None
        };
        self.report.merge(out);
        let ghost after = self.report.list();
        assert(after.len() == self.report.findings@.len());
        if let Some(id) = cur {
            let mut k: usize = 0;
            while k < self.report.findings.len()
                invariant_except_break
                    after == self.report.list(),
                    after.len() == self.report.findings@.len(),
                    k <= after.len(),
                    id_place(after, id@, 0) == id_place(after, id@, k as int),
                invariant
                    self.checked == old(self).checked,
                    self.sel == old(self).sel,
                    self.focus == old(self).focus,
                    self.expanded == old(self).expanded,
                    self.map_depth == old(self).map_depth,
                    self.marked == old(self).marked,
                    self.report.list() == after,
                    texts(self.report.notes@) == noted(start.notes, more),
                ensures
                    k == id_place(after, id@, 0),
                    k <= after.len(),
                decreases after.len() - k,
            {
                assert(after[k as int] == self.report.findings@[k as int]@);
                if self.report.findings[k].id == id {
                    break;
                }
                k += 1;
            }
            self.prune_cursor = if k < self.report.findings.len() {
                k
            } else {
                0
            };
        }
        self.checked = keep_listed(&self.checked, &self.report.findings);
        assert(self@ =~= (NavView {
            findings: after,
            prune_cursor: cursor_after(start.findings, start.prune_cursor, after),
            checked: still_listed(start.checked, after),
            notes: noted(start.notes, more),
            ..start
        }));
    }

    /// Make sure the map focus is a strict ancestor of the selection.
    pub fn sync_focus(&mut self, t: &Tree)
        requires
            t.wf(),
            nav_ok(old(self)@, t.nodes@),
        ensures
            final(self)@ == on_sync(old(self)@, t.nodes@),
            nav_ok(final(self)@, t.nodes@),
    {
        proof {
            if self.sel > 0 {
                assert(parent_ok(t.nodes@, self.sel as int));
            }
        }
        if self.sel == 0 {
            self.focus = 0;
            if t.nodes[0].children.len() > 0 {
                proof {
                    assert(child_ok(t.nodes@, 0, 0));
                }
                self.sel = t.nodes[0].children[0];
            }
            return;
        }
        if !is_ancestor(t, self.focus, self.sel) {
            self.focus = match t.nodes[self.sel].parent {
                Some(p) => p,
                None => 0,
            };
        }
    }

    /// Select node `idx`, wherever it is.
    pub fn select(&mut self, t: &Tree, idx: usize)
        requires
            t.wf(),
            nav_ok(old(self)@, t.nodes@),
            idx < t.nodes@.len(),
        ensures
            final(self)@ == on_select(old(self)@, t.nodes@, idx as int),
            nav_ok(final(self)@, t.nodes@),
    {
        proof {
            if idx > 0 {
                assert(parent_ok(t.nodes@, idx as int));
            }
        }
        self.sel = idx;
        reveal_node(t, &mut self.expanded, idx);
        if idx != 0 && !is_ancestor(t, self.focus, idx) {
            self.focus = match t.nodes[idx].parent {
                Some(p) => p,
                None => 0,
            };
        }
    }

    pub fn zoom_in(&mut self, t: &Tree, idx: usize)
        requires
            t.wf(),
            nav_ok(old(self)@, t.nodes@),
            idx < t.nodes@.len(),
        ensures
            final(self)@ == on_zoom_in(old(self)@, t.nodes@, idx as int),
            nav_ok(final(self)@, t.nodes@),
    {
        let n = &t.nodes[idx];
        if n.kind == NodeKind::Dir && n.children.len() > 0 {
            proof {
                assert(child_ok(t.nodes@, idx as int, 0));
            }
            self.focus = idx;
            self.sel = n.children[0];
        }
    }

    pub fn zoom_out(&mut self, t: &Tree)
        requires
            t.wf(),
            nav_ok(old(self)@, t.nodes@),
        ensures
            final(self)@ == on_zoom_out(old(self)@, t.nodes@),
            nav_ok(final(self)@, t.nodes@),
    {
        proof {
            if self.focus > 0 {
                assert(parent_ok(t.nodes@, self.focus as int));
            }
        }
        if let Some(p) = t.nodes[self.focus].parent {
            self.sel = self.focus;
            self.focus = p;
        }
    }

    pub fn next_sibling(&mut self, t: &Tree)
        requires
            t.wf(),
            nav_ok(old(self)@, t.nodes@),
        ensures
            final(self)@ == (NavView { sel: next_sibling(t.nodes@, old(self)@.sel), ..old(self)@ }),
            nav_ok(final(self)@, t.nodes@),
    {
        let ghost n = t.nodes@;
        proof {
            if self.sel > 0 {
                assert(parent_ok(n, self.sel as int));
            }
        }
        if let Some(p) = t.nodes[self.sel].parent {
            let sel: usize = self.sel;
            let kids = &t.nodes[p].children;
            let mut k: usize = 0;
            while k < kids.len()
                invariant_except_break
                    k <= kids@.len(),
                    kid_place(kids@, sel as int, 0) == kid_place(kids@, sel as int, k as int),
                ensures
                    k == kid_place(kids@, sel as int, 0),
                    k <= kids@.len(),
                decreases kids@.len() - k,
            {
                if kids[k] == sel {
                    break;
                }
                k += 1;
            }
            if k < kids.len() {
                let next: usize = if k + 1 < kids.len() {
                    k + 1
                } else {
                    0
                };
                proof {
                    assert(child_ok(n, p as int, next as int));
                }
                self.sel = kids[next];
            }
        }
    }

    /// Move the selection in the list of visible rows.
    pub fn row_move(&mut self, t: &Tree, m: RowMove)
        requires
            t.wf(),
            nav_ok(old(self)@, t.nodes@),
        ensures
            final(self)@ == on_row_move(old(self)@, t.nodes@, m),
            nav_ok(final(self)@, t.nodes@),
    {
        let rows = visible_rows(t, &self.expanded);
        let ghost rv = row_views(rows@);
        let sel: usize = self.sel;
        proof {
            assert(rv.len() == rows@.len());
            assert(rv[0] == (0int, 0int));
        }
        let mut k: usize = 0;
        while k < rows.len()
            invariant_except_break
                rv == row_views(rows@),
                k <= rows@.len(),
                row_place(rv, sel as int, 0) == row_place(rv, sel as int, k as int),
            ensures
                k == row_place(rv, sel as int, 0),
                k <= rows@.len(),
            decreases rows@.len() - k,
        {
            assert(rv[k as int].0 == rows@[k as int].0);
            if rows[k].0 == sel {
                break;
            }
            k += 1;
        }
        let pos: usize = if k < rows.len() {
            k
        } else {
            0
        };
        let last: usize = rows.len() - 1;
        let to: usize = match m {
            RowMove::Up(d) => if pos > d {
                pos - d
            } else {
                0
            },
            RowMove::Down(d) => if d < last - pos {
                pos + d
            } else {
                last
            },
            RowMove::First => 0,
            RowMove::Last => last,
        };
        assert(rv[to as int].0 == rows@[to as int].0);
        self.sel = rows[to].0;
    }

    pub fn open_row(&mut self, t: &Tree, select: bool)
        requires
            t.wf(),
            nav_ok(old(self)@, t.nodes@),
        ensures
            final(self)@ == on_open(old(self)@, t.nodes@, select),
            nav_ok(final(self)@, t.nodes@),
    {
        let sel: usize = self.sel;
        if t.nodes[sel].children.len() == 0 {
            return;
        }
        proof {
            assert(child_ok(t.nodes@, sel as int, 0));
        }
        if !self.expanded[sel] {
            self.expanded.set(sel, true);
        } else if select {
            self.select(t, t.nodes[sel].children[0]);
        } else {
            self.sel = t.nodes[sel].children[0];
        }
    }

    pub fn close_row(&mut self, t: &Tree, select: bool)
        requires
            t.wf(),
            nav_ok(old(self)@, t.nodes@),
        ensures
            final(self)@ == on_close(old(self)@, t.nodes@, select),
            nav_ok(final(self)@, t.nodes@),
    {
        let sel: usize = self.sel;
        if self.expanded[sel] && sel != 0 {
            self.expanded.set(sel, false);
            return;
        }
        proof {
            if sel > 0 {
                assert(parent_ok(t.nodes@, sel as int));
            }
        }
        if let Some(p) = t.nodes[sel].parent {
            if select {
                self.select(t, p);
            } else {
                self.sel = p;
            }
        }
    }

    pub fn flip_row(&mut self, t: &Tree)
        requires
            t.wf(),
            nav_ok(old(self)@, t.nodes@),
        ensures
            final(self)@ == on_flip(old(self)@, t.nodes@),
            nav_ok(final(self)@, t.nodes@),
    {
        let sel: usize = self.sel;
        if t.nodes[sel].children.len() > 0 {
            let now = self.expanded[sel];
            self.expanded.set(sel, !now);
        }
    }

    pub fn to_map(&mut self, t: &Tree)
        requires
            t.wf(),
            nav_ok(old(self)@, t.nodes@),
        ensures
            final(self)@ == on_to_map(old(self)@, t.nodes@),
            nav_ok(final(self)@, t.nodes@),
    {
        let sel: usize = self.sel;
        let n = &t.nodes[sel];
        proof {
            if sel > 0 {
                assert(parent_ok(t.nodes@, sel as int));
            }
            if n.children@.len() > 0 {
                assert(child_ok(t.nodes@, sel as int, 0));
            }
        }
        self.focus = if n.kind == NodeKind::Dir && n.children.len() > 0 {
            sel
        } else {
            match n.parent {
                Some(p) => p,
                None => 0,
            }
        };
        if self.focus == sel && n.children.len() > 0 {
            self.sel = n.children[0];
        }
    }

    /// Draw one level less or more in the map, within `1..=max`.
    pub fn change_depth(&mut self, more: bool, max: usize)
        requires
            1 <= old(self).map_depth <= max,
        ensures
            final(self)@ == (NavView {
                map_depth: if more {
                    if old(self)@.map_depth < max {
                        old(self)@.map_depth + 1
                    } else {
                        old(self)@.map_depth
                    }
                } else if old(self)@.map_depth > 1 {
                    old(self)@.map_depth - 1
                } else {
                    1
                },
                ..old(self)@
            }),
            1 <= final(self).map_depth <= max,
    {
        if more {
            if self.map_depth < max {
                self.map_depth = self.map_depth + 1;
            }
        } else if self.map_depth > 1 {
            self.map_depth = self.map_depth - 1;
        }
    }

    /// Mark the node `idx`, or unmark it.
    pub fn toggle_mark(&mut self, t: &Tree, idx: usize, home: &FsPath, not_root: bool) -> (r: MarkOutcome)
        requires
            t.wf(),
            nav_ok(old(self)@, t.nodes@),
            idx < t.nodes@.len(),
        ensures
            r@ == mark_outcome(t.nodes@, t.root_path@, home@, old(self)@.marked, idx, not_root),
            final(self)@ == (NavView { marked: marks_after(t.nodes@, old(self)@.marked, idx, r@), ..old(self)@ }),
            nav_ok(final(self)@, t.nodes@),
    {
        toggle_mark(t, &mut self.marked, idx, home, not_root)
    }

    /// Select node `i` and leave everything else as it is.
    pub fn pick(&mut self, i: usize)
        requires
            i < old(self)@.expanded.len(),
        ensures
            final(self)@ == (NavView { sel: i as int, ..old(self)@ }),
            forall|n: Seq<Node>| nav_ok(old(self)@, n) ==> #[trigger] nav_ok(final(self)@, n),
    {
        self.sel = i;
    }

    /// Expand row `i`, or collapse it.
    pub fn fold(&mut self, i: usize)
        requires
            i < old(self)@.expanded.len(),
        ensures
            final(self)@ == (NavView {
                expanded: old(self)@.expanded.update(i as int, !old(self)@.expanded[i as int]),
                ..old(self)@
            }),
            forall|n: Seq<Node>| nav_ok(old(self)@, n) ==> #[trigger] nav_ok(final(self)@, n),
    {
        let now = self.expanded[i];
        self.expanded.set(i, !now);
    }

    /// Take the mark off node `i`.
    pub fn unmark(&mut self, i: usize)
        ensures
            final(self)@ == (NavView { marked: without_mark(old(self)@.marked, i), ..old(self)@ }),
            forall|n: Seq<Node>| nav_ok(old(self)@, n) ==> #[trigger] nav_ok(final(self)@, n),
    {
        self.marked = drop_mark(&self.marked, i);
        assert forall|n: Seq<Node>| nav_ok(old(self)@, n) implies #[trigger] nav_ok(self@, n) by {
            lemma_without_mark(n, old(self)@.marked, i);
        }
    }

    /// Move the cursor to finding `i`.
    pub fn point(&mut self, i: usize)
        ensures
            final(self)@ == (NavView { prune_cursor: i as int, ..old(self)@ }),
    {
        self.prune_cursor = i;
    }

    /// Untick every finding.
    pub fn untick_all(&mut self)
        ensures
            final(self)@ == (NavView { checked: Seq::empty(), ..old(self)@ }),
    {
        self.checked = Vec::new();
        assert(texts(self.checked@) =~= Seq::empty());
    }

    /// Tick a finding, or untick it.
    pub fn toggle_finding(&mut self, i: usize) -> (r: TickOutcome)
        ensures
            r == tick_outcome(old(self)@, i as int),
            final(self)@ == on_tick(old(self)@, i as int),
    {
        assert(self@.findings.len() == self.report.findings@.len());
        if i >= self.report.findings.len() {
            return TickOutcome::Nothing;
        }
        assert(self@.findings[i as int] == self.report.findings@[i as int]@);
        if !self.report.findings[i].is_actionable() {
            return TickOutcome::Manual;
        }
        let id = self.report.findings[i].id.clone();
        flip(&mut self.checked, &id);
        TickOutcome::Done
    }

    /// Tick every finding of a tier (or of all) that can be run.
    pub fn select_tier(&mut self, tier: Option<Risk>)
        ensures
            final(self)@ == (NavView {
                checked: tier_ticked(old(self)@.checked, old(self)@.findings, tier),
                ..old(self)@
            }),
    {
        crate::marks::select_tier(&mut self.checked, &self.report.findings, tier);
    }

    /// The node of the finding under the cursor, if it lies in the tree.
    pub fn cursor_node(&self, t: &Tree) -> (r: Option<usize>)
        requires
            t.wf(),
        ensures
            ({
                let want = if self@.prune_cursor < self@.findings.len() {
                    finding_node(t.nodes@, t.root_path@, self@.findings[self@.prune_cursor].paths)
                } else {
                    None
                };
                match r {
                    Some(i) => want == Some(i as int) && i < t.nodes@.len(),
                    None => want is None,
                }
            }),
    {
        assert(self@.findings.len() == self.report.findings@.len());
        if self.prune_cursor >= self.report.findings.len() {
            return None;
        }
        let f = &self.report.findings[self.prune_cursor];
        assert(self@.findings[self.prune_cursor as int] == f@);
        let ghost paths = f@.paths;
        for k in 0..f.paths.len()
            invariant
                t.wf(),
                paths == f@.paths,
                self@.prune_cursor < self@.findings.len(),
                self@.findings[self@.prune_cursor] == f@,
                finding_node(t.nodes@, t.root_path@, paths.take(k as int)) is None,
        {
            proof {
                assert(paths.take(k + 1).drop_last() =~= paths.take(k as int));
                assert(paths.take(k + 1).last() == f.paths@[k as int]@);
            }
            if let Some(i) = t.find(&f.paths[k]) {
                proof {
                    lemma_finding_node(t.nodes@, t.root_path@, paths, k + 1);
                }
                return Some(i);
            }
        }
        assert(paths.take(f.paths@.len() as int) =~= paths);
        None
    }
}

proof fn lemma_finding_node(n: Seq<Node>, root: Seq<u8>, paths: Seq<Seq<u8>>, k: int)
    requires
        0 <= k <= paths.len(),
        finding_node(n, root, paths.take(k)) is Some,
    ensures
        finding_node(n, root, paths) == finding_node(n, root, paths.take(k)),
    decreases paths.len(),
{
    if k < paths.len() {
        assert(paths.drop_last().take(k) =~= paths.take(k));
        lemma_finding_node(n, root, paths.drop_last(), k);
    } else {
        assert(paths.take(k) =~= paths);
    }
}

/// Zooming out undoes zooming in: the map shows the folder above again, with the
/// folder that was left selected.
pub proof fn law_zooming_out_undoes_zooming_in(v: NavView, n: Seq<Node>, i: int, p: usize)
    requires
        n[i].kind == NodeKind::Dir,
        n[i].children@.len() > 0,
        n[i].parent == Some(p),
    ensures
        on_zoom_in(v, n, i).focus == i,
        on_zoom_in(v, n, i).sel == n[i].children@[0],
        on_zoom_out(on_zoom_in(v, n, i), n) == (NavView { focus: p as int, sel: i, ..v }),
        n[v.focus].parent is None ==> on_zoom_out(v, n) == v,
        n[v.sel].kind != NodeKind::Dir ==> on_zoom_in(v, n, v.sel) == v,
{
}

/// A selected node is in sight: every folder above it is unfolded, and the map
/// shows a folder that holds it. Nothing else changes.
pub proof fn law_a_selected_node_is_in_sight(v: NavView, n: Seq<Node>, i: int, a: int)
    requires
        is_tree(n),
        nav_ok(v, n),
        0 < i < n.len(),
        0 <= a < n.len(),
    ensures
        ({
            let w = on_select(v, n, i);
            &&& w.sel == i
            &&& a != i && holds(n, a, i) ==> w.expanded[a]
            &&& a == i || !holds(n, a, i) ==> w.expanded[a] == v.expanded[a]
            &&& w.focus != i && holds(n, w.focus, i)
            &&& v.focus != i && holds(n, v.focus, i) ==> w.focus == v.focus
            &&& w.marked == v.marked && w.checked == v.checked && w.findings == v.findings && w.map_depth == v.map_depth
        }),
{
    assert(parent_ok(n, i));
    let p = n[i].parent->0 as int;
    assert(holds(n, p, p));
    assert(holds(n, p, i));
}

proof fn lemma_kid_place(kids: Seq<usize>, i: int, k: int, at: int)
    requires
        0 <= at <= k < kids.len(),
        kids[k] == i,
        forall|j: int| at <= j < k ==> kids[j] != i,
    ensures
        kid_place(kids, i, at) == k,
    decreases k - at,
{
    if at < k {
        lemma_kid_place(kids, i, k, at + 1);
    }
}

/// The next sibling is the next child of the same folder, and the first one
/// behind the last.
pub proof fn law_siblings_go_round(n: Seq<Node>, i: int, p: usize, k: int)
    requires
        n[i].parent == Some(p),
        0 <= k < n[p as int].children@.len(),
        n[p as int].children@[k] == i,
        forall|j: int| 0 <= j < k ==> n[p as int].children@[j] != i,
    ensures
        k + 1 < n[p as int].children@.len() ==> next_sibling(n, i) == n[p as int].children@[k + 1],
        k + 1 == n[p as int].children@.len() ==> next_sibling(n, i) == n[p as int].children@[0],
{
    lemma_kid_place(n[p as int].children@, i, k, 0);
}

/// Moves between rows stop at the first and the last row.
pub proof fn law_moves_stop_at_the_ends(pos: int, last: int, k: usize)
    requires
        0 <= pos <= last,
    ensures
        row_target(pos, last, RowMove::Up(k)) == (if pos >= k { pos - k } else { 0 }),
        row_target(pos, last, RowMove::Down(k)) == (if pos + k <= last { pos + k } else { last }),
        row_target(pos, last, RowMove::First) == 0,
        row_target(pos, last, RowMove::Last) == last,
{
}

/// Opening a folded row unfolds it, and opening it again goes to its first child;
/// closing an unfolded row folds it, and closing it again goes to its parent.
pub proof fn law_rows_open_and_close(v: NavView, n: Seq<Node>, p: usize)
    requires
        0 <= v.sel < v.expanded.len(),
    ensures
        n[v.sel].children@.len() == 0 ==> on_open(v, n, false) == v && on_flip(v, n) == v,
        n[v.sel].children@.len() > 0 && !v.expanded[v.sel] ==> on_open(v, n, false) == (NavView {
            expanded: v.expanded.update(v.sel, true),
            ..v
        }),
        n[v.sel].children@.len() > 0 && v.expanded[v.sel] ==> on_open(v, n, false) == (NavView { sel: n[v.sel].children@[0] as int, ..v }),
        v.expanded[v.sel] && v.sel != 0 ==> on_close(v, n, false) == (NavView { expanded: v.expanded.update(v.sel, false), ..v }),
        (!v.expanded[v.sel] || v.sel == 0) && n[v.sel].parent == Some(p) ==> on_close(v, n, false) == (NavView { sel: p as int, ..v }),
        on_flip(on_flip(v, n), n) == v,
{
    let w = on_flip(v, n);
    assert(on_flip(w, n).expanded =~= v.expanded);
}

/// A finding can be ticked exactly if it can be carried out, and ticking it twice
/// changes nothing.
pub proof fn law_only_what_can_be_done_is_ticked(v: NavView, i: int, id: Seq<char>)
    requires
        0 <= i < v.findings.len(),
    ensures
        actionable(v.findings[i].action, v.findings[i].needs_root) ==> tick_outcome(v, i) is Done && (on_tick(v, i).checked.contains(
            v.findings[i].id,
        ) <==> !v.checked.contains(v.findings[i].id)),
        !actionable(v.findings[i].action, v.findings[i].needs_root) ==> tick_outcome(v, i) is Manual && on_tick(v, i) == v,
        id != v.findings[i].id ==> (on_tick(v, i).checked.contains(id) <==> v.checked.contains(id)),
        tick_outcome(v, v.findings.len() as int) is Nothing,
{
    law_ticks_change_one_at_a_time(v.checked, v.findings[i].id, id);
}

proof fn lemma_id_place(list: Seq<FindingView>, id: Seq<char>, k: int, at: int)
    requires
        0 <= at <= k < list.len(),
        list[k].id == id,
        forall|j: int| at <= j < k ==> (#[trigger] list[j]).id != id,
    ensures
        id_place(list, id, at) == k,
    decreases k - at,
{
    if at < k {
        assert(list[at].id != id);
        lemma_id_place(list, id, k, at + 1);
    }
}

/// The cursor stays on its finding when the list changes.
pub proof fn law_the_cursor_stays_on_its_finding(before: Seq<FindingView>, cursor: int, after: Seq<FindingView>, k: int)
    requires
        0 <= cursor < before.len(),
        0 <= k < after.len(),
        after[k].id == before[cursor].id,
        forall|j: int| 0 <= j < k ==> (#[trigger] after[j]).id != before[cursor].id,
    ensures
        cursor_after(before, cursor, after) == k,
{
    lemma_id_place(after, before[cursor].id, k, 0);
}

/// A finding is shown at the first of its paths that the tree has.
pub proof fn law_a_finding_is_shown_at_its_first_place(n: Seq<Node>, root: Seq<u8>, paths: Seq<Seq<u8>>, k: int)
    requires
        0 <= k < paths.len(),
        located(n, root, paths[k]) is Some,
        forall|j: int| 0 <= j < k ==> located(n, root, #[trigger] paths[j]) is None,
    ensures
        finding_node(n, root, paths) == located(n, root, paths[k]),
    decreases paths.len(),
{
    let front = paths.drop_last();
    if k < paths.len() - 1 {
        assert(front[k] == paths[k]);
        assert forall|j: int| 0 <= j < k implies located(n, root, #[trigger] front[j]) is None by {
            assert(front[j] == paths[j]);
        }
        law_a_finding_is_shown_at_its_first_place(n, root, front, k);
    } else {
        assert forall|j: int| 0 <= j < front.len() implies located(n, root, #[trigger] front[j]) is None by {
            assert(front[j] == paths[j]);
        }
        lemma_nowhere(n, root, front);
    }
}

proof fn lemma_nowhere(n: Seq<Node>, root: Seq<u8>, paths: Seq<Seq<u8>>)
    requires
        forall|j: int| 0 <= j < paths.len() ==> located(n, root, #[trigger] paths[j]) is None,
    ensures
        finding_node(n, root, paths) is None,
    decreases paths.len(),
{
    if paths.len() > 0 {
        let front = paths.drop_last();
        assert forall|j: int| 0 <= j < front.len() implies located(n, root, #[trigger] front[j]) is None by {
            assert(front[j] == paths[j]);
        }
        lemma_nowhere(n, root, front);
        assert(located(n, root, paths[paths.len() - 1]) is None);
    }
}

/// A new tree starts with its root on the map and unfolded, and the largest entry
/// selected.
pub proof fn law_a_new_tree_starts_at_its_root(v: NavView, n: Seq<Node>, i: int)
    requires
        0 <= i < n.len(),
    ensures
        on_ready(v, n).focus == 0,
        on_ready(v, n).expanded.len() == n.len(),
        on_ready(v, n).expanded[i] <==> i == 0,
        n[0].children@.len() > 0 ==> on_ready(v, n).sel == n[0].children@[0],
        n[0].children@.len() == 0 ==> on_ready(v, n).sel == 0,
{
}

/// Coming back to the map, it shows a folder that holds what is selected: the one
/// it showed, if that does, and else the folder the selection lies in.
pub proof fn law_the_map_shows_the_selection(v: NavView, n: Seq<Node>)
    requires
        is_tree(n),
        nav_ok(v, n),
    ensures
        v.sel != 0 ==> on_sync(v, n).sel == v.sel && on_sync(v, n).focus != v.sel && holds(n, on_sync(v, n).focus, v.sel),
        v.sel != 0 && v.focus != v.sel && holds(n, v.focus, v.sel) ==> on_sync(v, n) == v,
        v.sel == 0 ==> on_sync(v, n).focus == 0,
        on_sync(v, n).marked == v.marked && on_sync(v, n).checked == v.checked,
{
    if v.sel != 0 {
        assert(parent_ok(n, v.sel));
        let p = n[v.sel].parent->0 as int;
        assert(holds(n, p, p));
        assert(holds(n, p, v.sel));
    }
}

/// From the tree to the map: a folder is shown with its first entry selected, and
/// anything else in the folder that it lies in.
pub proof fn law_from_the_tree_to_the_map(v: NavView, n: Seq<Node>, p: usize)
    ensures
        n[v.sel].kind == NodeKind::Dir && n[v.sel].children@.len() > 0 ==> on_to_map(v, n) == (NavView {
            focus: v.sel,
            sel: n[v.sel].children@[0] as int,
            ..v
        }),
        n[v.sel].kind != NodeKind::Dir && n[v.sel].parent == Some(p) && p != v.sel ==> on_to_map(v, n) == (NavView { focus: p as int, ..v }),
{
}

} // verus!
