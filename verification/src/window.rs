//! The desktop front-end: what keys, clicks and dialogs do.

use vstd::prelude::*;

use crate::cleanup::RemoveMode;
use crate::job::{freed, gained, Summary};
use crate::marks::{
    checked_findings, law_ticked_findings_are_carried_out, mark_outcome, marked_paths, marks_after, ticked_findings, untick, without_id, MarkOutcome, MarkOutcomeView,
};
use crate::nav::{nav_ok, on_ready, on_row_move, on_select, on_tick, on_zoom_in, on_zoom_out, Nav, NavView, RowMove};
use crate::path::{lossy_text, FsPath};
use crate::rules::{FindingView, Report};
use crate::scanner::{child_ok, is_tree, parent_ok, path_at, Node, Tree};
use crate::screen::{child_towards, find_towards, mark_list, mark_views, opt_exec, opt_string, tree_ok, tree_view, ExecRequest, ExecView, TreeView};
use crate::text::{decimal, digits, texts};
use crate::util::{fmt_size, size_text};

verus! {

/// How the window is drawn.
#[derive(Clone, Copy, Debug, PartialEq, Eq, Structural)]
pub enum Renderer {
    Auto,
    Vulkan,
    Gl,
}

/// The views of the window, by the number key that leads to each.
#[derive(Clone, Copy, Debug, PartialEq, Eq, Structural)]
pub enum Page {
    Treemap,
    Sunburst,
    Tree,
    Prune,
    Large,
}

/// What the pointer is over in the sunburst.
#[derive(Clone, Copy, Debug, PartialEq, Eq, Structural)]
pub enum Hit {
    Hub,
    Seg(usize),
}

/// The keys pressed since the last frame.
#[derive(Clone, Copy, Debug)]
pub struct Keys {
    pub one: bool,
    pub two: bool,
    pub three: bool,
    pub four: bool,
    pub five: bool,
    pub c: bool,
    pub f5: bool,
    pub enter: bool,
    /// Backspace or Escape.
    pub back: bool,
    pub space: bool,
    pub x: bool,
    /// `[`
    pub fewer: bool,
    /// `]`
    pub more: bool,
    pub left: bool,
    pub right: bool,
    pub up: bool,
    pub down: bool,
    pub page_up: bool,
    pub page_down: bool,
}

pub struct Window {
    pub nav: Nav,
    pub page: Page,
    pub review_open: bool,
    pub about_open: bool,
    pub job_open: bool,
    pub remove_mode: RemoveMode,
    pub trash_ok: bool,
    pub no_exec: bool,
    pub home: FsPath,
    pub toast: Option<String>,
}

#[verifier::ext_equal]
pub struct WindowView {
    pub nav: NavView,
    pub page: Page,
    pub review_open: bool,
    pub about_open: bool,
    pub job_open: bool,
    pub remove_mode: RemoveMode,
    pub trash_ok: bool,
    pub no_exec: bool,
    pub home: Seq<u8>,
    pub toast: Option<Seq<char>>,
}

impl View for Window {
    type V = WindowView;

    open spec fn view(&self) -> WindowView {
        WindowView {
            nav: self.nav@,
            page: self.page,
            review_open: self.review_open,
            about_open: self.about_open,
            job_open: self.job_open,
            remove_mode: self.remove_mode,
            trash_ok: self.trash_ok,
            no_exec: self.no_exec,
            home: self.home@,
            toast: opt_string(self.toast),
        }
    }
}

/// The most levels that the treemap draws.
pub const MAX_LEVELS: usize = 6;

/// How many rows a page key moves.
pub const PAGE_ROWS: usize = 20;

/// The state fits the tree; without one nothing is marked.
pub open spec fn window_ok(v: WindowView, t: Option<TreeView>) -> bool {
    &&& 1 <= v.nav.map_depth <= MAX_LEVELS
    &&& match t {
        Some(t) => nav_ok(v.nav, t.nodes),
        None => v.nav.marked.len() == 0,
    }
}

pub open spec fn with_nav(v: WindowView, nav: NavView) -> WindowView {
    WindowView { nav, ..v }
}

pub open spec fn toasted(v: WindowView, msg: Seq<char>) -> WindowView {
    WindowView { toast: Some(msg), ..v }
}

/// Nothing is marked and nothing found: a scan begins.
pub open spec fn restarted(v: WindowView) -> WindowView {
    with_nav(v, NavView { marked: Seq::empty(), findings: Seq::empty(), notes: Seq::empty(), ..v.nav })
}

/// What is said about marking node `i`.
pub open spec fn mark_toast(n: Seq<Node>, root: Seq<u8>, i: int, outcome: MarkOutcomeView) -> Seq<char> {
    match outcome {
        MarkOutcomeView::Unmarked => "Unmarked "@ + n[i].name@,
        MarkOutcomeView::Grouped => "The scan root, grouped small files and mount points cannot be marked"@,
        MarkOutcomeView::Inside => "Already inside a marked directory — unmark that directory instead"@,
        MarkOutcomeView::Refused(e) => "Can't mark "@ + lossy_text(path_at(n, root, i)) + ": "@ + e,
        MarkOutcomeView::Marked => "Marked "@ + n[i].name@ + " · "@ + size_text(n[i].size),
    }
}

pub open spec fn marking(v: WindowView, t: TreeView, i: int) -> WindowView {
    let outcome = mark_outcome(t.nodes, t.root, v.home, v.nav.marked, i as usize, true);
    WindowView {
        nav: NavView { marked: marks_after(t.nodes, v.nav.marked, i as usize, outcome), ..v.nav },
        toast: Some(mark_toast(t.nodes, t.root, i, outcome)),
        ..v
    }
}

/// Zooming into node `i`; the node that is shown already stays as it is.
pub open spec fn zoomed_in(v: WindowView, t: TreeView, i: int) -> WindowView {
    if i == v.nav.focus {
        v
    } else {
        with_nav(v, on_zoom_in(v.nav, t.nodes, i))
    }
}

pub open spec fn zoomed_out(v: WindowView, t: TreeView) -> WindowView {
    with_nav(v, on_zoom_out(v.nav, t.nodes))
}

/// Where the wheel zooms to from node `i`: into the child of the focus that
/// holds it.
pub open spec fn wheel_target(n: Seq<Node>, focus: int, i: int) -> int {
    match child_towards(n, focus, i) {
        Some(c) => c,
        None => 0,
    }
}

pub open spec fn review_opened(v: WindowView) -> WindowView {
    if v.nav.checked.len() == 0 && v.nav.marked.len() == 0 {
        toasted(v, "Nothing selected — tick suggestions in Prune, or mark tiles with Space / right-click"@)
    } else {
        WindowView {
            remove_mode: if v.trash_ok {
                RemoveMode::Trash
            } else {
                RemoveMode::Permanent
            },
            review_open: true,
            ..v
        }
    }
}

pub open spec fn levels_changed(v: WindowView, more: bool) -> WindowView {
    let d = v.nav.map_depth;
    with_nav(
        v,
        NavView {
            map_depth: if more {
                if d < MAX_LEVELS {
                    d + 1
                } else {
                    d
                }
            } else if d > 1 {
                d - 1
            } else {
                1
            },
            ..v.nav
        },
    )
}

/// The page that the number keys lead to.
pub open spec fn page_asked(p: Page, k: Keys) -> Page {
    if k.five {
        Page::Large
    } else if k.four {
        Page::Prune
    } else if k.three {
        Page::Tree
    } else if k.two {
        Page::Sunburst
    } else if k.one {
        Page::Treemap
    } else {
        p
    }
}

pub open spec fn zoom_key(v: WindowView, t: TreeView, on: bool) -> WindowView {
    if on {
        zoomed_in(v, t, v.nav.sel)
    } else {
        v
    }
}

pub open spec fn back_key(v: WindowView, t: TreeView, on: bool) -> WindowView {
    if on {
        zoomed_out(v, t)
    } else {
        v
    }
}

pub open spec fn mark_key(v: WindowView, t: TreeView, on: bool) -> WindowView {
    if on {
        marking(v, t, v.nav.sel)
    } else {
        v
    }
}

pub open spec fn levels_key(v: WindowView, more: bool, on: bool) -> WindowView {
    if on {
        levels_changed(v, more)
    } else {
        v
    }
}

/// The keys of the treemap and the sunburst.
pub open spec fn map_keyed(v: WindowView, t: TreeView, k: Keys) -> WindowView {
    let zoomed = back_key(zoom_key(v, t, k.enter), t, k.back);
    levels_key(levels_key(mark_key(zoomed, t, k.space || k.x), false, k.fewer), true, k.more)
}

/// The row move that the keys of the tree ask for.
pub open spec fn rows_asked(k: Keys) -> Option<RowMove> {
    if k.page_down {
        Some(RowMove::Down(PAGE_ROWS))
    } else if k.page_up {
        Some(RowMove::Up(PAGE_ROWS))
    } else if k.down {
        Some(RowMove::Down(1))
    } else if k.up {
        Some(RowMove::Up(1))
    } else {
        None
    }
}

pub open spec fn rows_key(v: NavView, n: Seq<Node>, k: Keys) -> NavView {
    match rows_asked(k) {
        Some(m) => on_row_move(v, n, m),
        None => v,
    }
}

/// Open the selected node, or go to its first child.
pub open spec fn right_key(v: NavView, n: Seq<Node>, on: bool) -> NavView {
    let kids = n[v.sel].children@;
    if !on || kids.len() == 0 {
        v
    } else if v.expanded[v.sel] {
        on_select(v, n, kids[0] as int)
    } else {
        NavView { expanded: v.expanded.update(v.sel, true), ..v }
    }
}

/// Close the selected node, or go to the parent of node `i`.
pub open spec fn left_key(v: NavView, n: Seq<Node>, i: int, on: bool) -> NavView {
    if !on {
        v
    } else if v.expanded[v.sel] && v.sel != 0 {
        NavView { expanded: v.expanded.update(v.sel, false), ..v }
    } else {
        match n[i].parent {
            Some(p) => on_select(v, n, p as int),
            None => v,
        }
    }
}

/// Open or close the selected node, if node `i` has children.
pub open spec fn flip_key(v: NavView, n: Seq<Node>, i: int, on: bool) -> NavView {
    if on && n[i].children@.len() > 0 {
        NavView { expanded: v.expanded.update(v.sel, !v.expanded[v.sel]), ..v }
    } else {
        v
    }
}

/// The keys of the tree. The node that they speak of is the one selected once
/// the selection has moved.
pub open spec fn tree_keyed(v: WindowView, t: TreeView, k: Keys) -> WindowView {
    let n = t.nodes;
    let a = rows_key(v.nav, n, k);
    let b = left_key(right_key(a, n, k.right), n, a.sel, k.left);
    mark_key(with_nav(v, flip_key(b, n, a.sel, k.enter)), t, k.space || k.x)
}

/// The keys of the prune list.
pub open spec fn prune_keyed(v: NavView, k: Keys) -> NavView {
    let len = v.findings.len();
    if len == 0 {
        v
    } else {
        let a = if k.up && v.prune_cursor > 0 {
            NavView { prune_cursor: v.prune_cursor - 1, ..v }
        } else {
            v
        };
        let b = if k.down {
            NavView {
                prune_cursor: if a.prune_cursor + 1 < len - 1 {
                    a.prune_cursor + 1
                } else {
                    len - 1
                },
                ..a
            }
        } else {
            a
        };
        if k.space {
            on_tick(b, b.prune_cursor)
        } else {
            b
        }
    }
}

/// The keys that work on every page.
pub open spec fn commands_keyed(v: WindowView, k: Keys) -> WindowView {
    let a = WindowView { page: page_asked(v.page, k), ..v };
    if k.c {
        review_opened(a)
    } else {
        a
    }
}

/// The tile that the arrow keys lead to is selected.
pub open spec fn arrows_keyed(v: WindowView, k: Keys, moved: int) -> WindowView {
    if k.left || k.right || k.up || k.down {
        with_nav(v, NavView { sel: moved, ..v.nav })
    } else {
        v
    }
}

/// The keys of the page that is shown.
pub open spec fn page_keyed(v: WindowView, t: TreeView, k: Keys, moved: int) -> WindowView {
    match v.page {
        Page::Sunburst => map_keyed(v, t, k),
        Page::Treemap => map_keyed(arrows_keyed(v, k, moved), t, k),
        Page::Tree => tree_keyed(v, t, k),
        Page::Prune => with_nav(v, prune_keyed(v.nav, k)),
        Page::Large => v,
    }
}

/// What the pressed keys come to; the flag says that the tree is to be scanned
/// again. `moved` is the tile that the arrow keys lead to. Nothing happens while
/// a dialog is open or text is being typed.
pub open spec fn keyed(v: WindowView, t: Option<TreeView>, k: Keys, typing: bool, moved: int) -> (WindowView, bool) {
    if v.review_open || v.job_open || v.about_open || typing {
        (v, false)
    } else if k.f5 {
        (restarted(commands_keyed(v, k)), true)
    } else {
        match t {
            None => (commands_keyed(v, k), false),
            Some(t) => (page_keyed(commands_keyed(v, k), t, k, moved), false),
        }
    }
}

/// The trail from the root to a node.
pub open spec fn crumbs_to(n: Seq<Node>, i: int) -> Seq<int>
    decreases i,
{
    match n[i].parent {
        Some(p) => if p < i {
            crumbs_to(n, p as int).push(i)
        } else {
            seq![i]
        },
        None => seq![i],
    }
}

/// A click on a crumb: the map shows that node.
pub open spec fn crumb_clicked(v: WindowView, t: TreeView, i: int) -> WindowView {
    let s = if i == 0 {
        crate::nav::first_child(t.nodes)
    } else {
        i
    };
    WindowView {
        nav: NavView { focus: i, ..on_select(NavView { focus: i, ..v.nav }, t.nodes, s) },
        page: Page::Treemap,
        ..v
    }
}

/// What is said once a cleanup is over.
pub open spec fn finish_text(s: Summary, before: Option<u64>, after: Option<u64>) -> Seq<char> {
    "Cleanup finished: "@ + digits((s.ok + s.removed_marks) as nat) + " ok, "@ + digits(s.failed as nat) + " failed · "@ + size_text(
        gained(before, after),
    ) + " freed on disk"@
}

/// A confirmed review: what it asks for, and the window that follows the job;
/// nothing where nothing may be run.
pub open spec fn job_started(v: WindowView, t: Option<TreeView>) -> (WindowView, Option<ExecView>) {
    if v.no_exec {
        (v, None)
    } else {
        (
            WindowView { review_open: false, job_open: true, ..v },
            Some(
                ExecView {
                    findings: ticked_findings(v.nav.findings, v.nav.checked),
                    marks: mark_list(t, v.nav.marked),
                    mode: v.remove_mode,
                },
            ),
        )
    }
}

/// After a job nothing is ticked or marked, what it came to is told, and the
/// findings are looked for anew.
pub open spec fn job_finished(v: WindowView, s: Option<Summary>, before: Option<u64>, after: Option<u64>) -> WindowView {
    restarted(
        WindowView {
            nav: NavView { checked: Seq::empty(), ..v.nav },
            job_open: false,
            toast: match s {
                Some(s) => Some(finish_text(s, before, after)),
                None => v.toast,
            },
            ..v
        },
    )
}

impl Window {
    pub fn new(home: FsPath, no_exec: bool, trash_ok: bool) -> (r: Window)
        ensures
            window_ok(r@, None),
            r@.nav.map_depth == 3,
            r@.nav.checked.len() == 0,
            r@.nav.findings.len() == 0,
            r@.nav.notes.len() == 0,
            r@.nav.prune_cursor == 0,
            r@.page == Page::Treemap,
            !r@.review_open,
            !r@.about_open,
            !r@.job_open,
            r@.remove_mode == RemoveMode::Trash,
            r@.trash_ok == trash_ok,
            r@.no_exec == no_exec,
            r@.home == home@,
            r@.toast is None,
    {
        Window {
            nav: Nav::new(3),
            page: Page::Treemap,
            review_open: false,
            about_open: false,
            job_open: false,
            remove_mode: RemoveMode::Trash,
            trash_ok,
            no_exec,
            home,
            toast: None,
        }
    }

    fn say(&mut self, msg: String)
        ensures
            final(self)@ == toasted(old(self)@, msg@),
            final(self).nav == old(self).nav,
    {
        self.toast = Some(msg);
    }

    /// A scan begins: earlier marks and findings are gone.
    pub fn restart(&mut self)
        requires
            1 <= old(self)@.nav.map_depth <= MAX_LEVELS,
        ensures
            final(self)@ == restarted(old(self)@),
            window_ok(final(self)@, None),
    {
        self.nav.marked = Vec::new();
        self.nav.report = Report { findings: Vec::new(), notes: Vec::new() };
        proof {
            assert(self.nav.report.list() =~= Seq::empty());
            assert(texts(self.nav.report.notes@) =~= Seq::empty());
            assert(self@ =~= restarted(old(self)@));
        }
    }

    /// The rules are about to run again.
    pub fn reanalyze(&mut self)
        ensures
            final(self)@ == with_nav(old(self)@, NavView { findings: Seq::empty(), notes: Seq::empty(), ..old(self)@.nav }),
    {
        self.nav.report = Report { findings: Vec::new(), notes: Vec::new() };
        proof {
            assert(self.nav.report.list() =~= Seq::empty());
            assert(texts(self.nav.report.notes@) =~= Seq::empty());
            assert(self@ =~= with_nav(old(self)@, NavView { findings: Seq::empty(), notes: Seq::empty(), ..old(self)@.nav }));
        }
    }

    /// A tree was scanned.
    pub fn tree_ready(&mut self, t: &Tree)
        requires
            t.wf(),
            window_ok(old(self)@, None),
        ensures
            final(self)@ == with_nav(old(self)@, on_ready(old(self)@.nav, t.nodes@)),
            window_ok(final(self)@, tree_view(Some(t))),
    {
        self.nav.tree_ready(t);
        assert(self@ =~= with_nav(old(self)@, on_ready(old(self)@.nav, t.nodes@)));
    }

    /// Mark node `i`, or unmark it.
    pub fn toggle_mark(&mut self, t: &Tree, i: usize)
        requires
            t.wf(),
            i < t.nodes@.len(),
            window_ok(old(self)@, tree_view(Some(t))),
        ensures
            final(self)@ == marking(old(self)@, TreeView { nodes: t.nodes@, root: t.root_path@ }, i as int),
            window_ok(final(self)@, tree_view(Some(t))),
    {
        let outcome = self.nav.toggle_mark(t, i, &self.home, true);
        let msg = match &outcome {
            MarkOutcome::Unmarked => "Unmarked ".to_owned().concat(t.nodes[i].name.as_str()),
            MarkOutcome::Grouped => "The scan root, grouped small files and mount points cannot be marked".to_owned(),
            MarkOutcome::Inside => "Already inside a marked directory — unmark that directory instead".to_owned(),
            MarkOutcome::Refused(e) => "Can't mark ".to_owned().concat(t.path_of(i).display().as_str()).concat(": ").concat(e.as_str()),
            MarkOutcome::Marked => "Marked ".to_owned().concat(t.nodes[i].name.as_str()).concat(" · ").concat(fmt_size(t.nodes[i].size).as_str()),
        };
        self.say(msg);
        assert(self@ =~= marking(old(self)@, TreeView { nodes: t.nodes@, root: t.root_path@ }, i as int));
    }

    /// Select node `i`.
    pub fn select(&mut self, t: &Tree, i: usize)
        requires
            t.wf(),
            i < t.nodes@.len(),
            window_ok(old(self)@, tree_view(Some(t))),
        ensures
            final(self)@ == with_nav(old(self)@, on_select(old(self)@.nav, t.nodes@, i as int)),
            window_ok(final(self)@, tree_view(Some(t))),
    {
        self.nav.select(t, i);
        assert(self@ =~= with_nav(old(self)@, on_select(old(self)@.nav, t.nodes@, i as int)));
    }

    /// Zoom into node `i`.
    pub fn zoom_in(&mut self, t: &Tree, i: usize)
        requires
            t.wf(),
            i < t.nodes@.len(),
            window_ok(old(self)@, tree_view(Some(t))),
        ensures
            final(self)@ == zoomed_in(old(self)@, TreeView { nodes: t.nodes@, root: t.root_path@ }, i as int),
            window_ok(final(self)@, tree_view(Some(t))),
    {
        if i != self.nav.focus {
            self.nav.zoom_in(t, i);
        }
        assert(self@ =~= zoomed_in(old(self)@, TreeView { nodes: t.nodes@, root: t.root_path@ }, i as int));
    }

    pub fn zoom_out(&mut self, t: &Tree)
        requires
            t.wf(),
            window_ok(old(self)@, tree_view(Some(t))),
        ensures
            final(self)@ == zoomed_out(old(self)@, TreeView { nodes: t.nodes@, root: t.root_path@ }),
            window_ok(final(self)@, tree_view(Some(t))),
    {
        self.nav.zoom_out(t);
        assert(self@ =~= zoomed_out(old(self)@, TreeView { nodes: t.nodes@, root: t.root_path@ }));
    }

    /// The wheel was turned over node `i` of the treemap: zoom toward the
    /// pointer.
    pub fn wheel_in(&mut self, t: &Tree, i: usize)
        requires
            t.wf(),
            i < t.nodes@.len(),
            window_ok(old(self)@, tree_view(Some(t))),
        ensures
            final(self)@ == zoomed_in(
                old(self)@,
                TreeView { nodes: t.nodes@, root: t.root_path@ },
                wheel_target(t.nodes@, old(self)@.nav.focus, i as int),
            ),
            window_ok(final(self)@, tree_view(Some(t))),
    {
        match find_towards(t, self.nav.focus, i) {
            Some(c) => self.zoom_in(t, c),
            None => self.zoom_in(t, 0),
        }
    }

    /// A click in the sunburst: on the hub it zooms out, on a segment it selects.
    pub fn sunburst_click(&mut self, t: &Tree, hit: Option<Hit>)
        requires
            t.wf(),
            hit matches Some(Hit::Seg(i)) ==> i < t.nodes@.len(),
            window_ok(old(self)@, tree_view(Some(t))),
        ensures
            final(self)@ == (match hit {
                Some(Hit::Hub) => zoomed_out(old(self)@, TreeView { nodes: t.nodes@, root: t.root_path@ }),
                Some(Hit::Seg(i)) => with_nav(old(self)@, NavView { sel: i as int, ..old(self)@.nav }),
                None => old(self)@,
            }),
            window_ok(final(self)@, tree_view(Some(t))),
    {
        match hit {
            Some(Hit::Hub) => self.zoom_out(t),
            Some(Hit::Seg(i)) => {
                self.nav.sel = i;
                assert(self@ =~= with_nav(old(self)@, NavView { sel: i as int, ..old(self)@.nav }));
            },
            None => {},
        }
    }

    /// A crumb was clicked: the treemap shows that node.
    pub fn crumb(&mut self, t: &Tree, i: usize)
        requires
            t.wf(),
            i < t.nodes@.len(),
            window_ok(old(self)@, tree_view(Some(t))),
        ensures
            final(self)@ == crumb_clicked(old(self)@, TreeView { nodes: t.nodes@, root: t.root_path@ }, i as int),
            window_ok(final(self)@, tree_view(Some(t))),
    {
        self.nav.focus = i;
        let s: usize = if i == 0 {
            if t.nodes[0].children.len() > 0 {
                proof {
                    assert(child_ok(t.nodes@, 0, 0));
                }
                t.nodes[0].children[0]
            } else {
                0
            }
        } else {
            i
        };
        self.nav.select(t, s);
        self.nav.focus = i;
        self.page = Page::Treemap;
        assert(self@ =~= crumb_clicked(old(self)@, TreeView { nodes: t.nodes@, root: t.root_path@ }, i as int));
    }

    /// Open the review, if anything is ticked or marked.
    pub fn open_review(&mut self)
        ensures
            final(self)@ == review_opened(old(self)@),
            final(self).nav == old(self).nav,
    {
        assert(self@.nav.checked.len() == self.nav.checked@.len());
        if self.nav.checked.len() == 0 && self.nav.marked.len() == 0 {
            self.say("Nothing selected — tick suggestions in Prune, or mark tiles with Space / right-click".to_owned());
            return;
        }
        self.remove_mode = if self.trash_ok {
            RemoveMode::Trash
        } else {
            RemoveMode::Permanent
        };
        self.review_open = true;
    }

    /// Leave a finding out of the cleanup under review.
    pub fn leave_out(&mut self, id: &String)
        ensures
            final(self)@ == with_nav(
                old(self)@,
                NavView { checked: without_id(old(self)@.nav.checked, id@), ..old(self)@.nav },
            ),
    {
        self.nav.checked = untick(&self.nav.checked, id);
        assert(self@ =~= with_nav(old(self)@, NavView { checked: without_id(old(self)@.nav.checked, id@), ..old(self)@.nav }));
    }

    /// The review was confirmed: what is to be run, unless execution is
    /// disabled.
    pub fn start_job(&mut self, t: Option<&Tree>) -> (r: Option<ExecRequest>)
        requires
            tree_ok(t),
            window_ok(old(self)@, tree_view(t)),
        ensures
            (final(self)@, opt_exec(r)) == job_started(old(self)@, tree_view(t)),
            window_ok(final(self)@, tree_view(t)),
    {
        if self.no_exec {
            return None;
        }
        let findings = checked_findings(&self.nav.report.findings, &self.nav.checked);
        let marks: Vec<(FsPath, u64)> = match t {
            Some(t) => marked_paths(t, &self.nav.marked),
            None => Vec::new(),
        };
        assert(mark_views(marks@) =~= mark_list(tree_view(t), self@.nav.marked));
        self.review_open = false;
        self.job_open = true;
        Some(ExecRequest { findings, marks, mode: self.remove_mode })
    }

    /// The log of a cleanup was closed: tell what came of it and scan again.
    pub fn finish_job(&mut self, s: Option<&Summary>, before: Option<u64>, after: Option<u64>)
        requires
            1 <= old(self)@.nav.map_depth <= MAX_LEVELS,
            s matches Some(s) ==> s.ok + s.removed_marks <= usize::MAX,
        ensures
            final(self)@ == job_finished(
                old(self)@,
                match s {
                    Some(s) => Some(*s),
                    None => None,
                },
                before,
                after,
            ),
            window_ok(final(self)@, None),
    {
        self.job_open = false;
        if let Some(s) = s {
            let msg = "Cleanup finished: ".to_owned().concat(decimal((s.ok + s.removed_marks) as u64).as_str()).concat(" ok, ").concat(
                decimal(s.failed as u64).as_str(),
            ).concat(" failed · ").concat(fmt_size(freed(before, after)).as_str()).concat(" freed on disk");
            self.say(msg);
        }
        self.nav.checked = Vec::new();
        assert(texts(self.nav.checked@) =~= Seq::empty());
        self.restart();
    }

    /// Tick finding `i`, or untick it, if it can be run.
    pub fn toggle_finding(&mut self, i: usize)
        ensures
            final(self)@ == with_nav(old(self)@, on_tick(old(self)@.nav, i as int)),
    {
        self.nav.toggle_finding(i);
        assert(self@ =~= with_nav(old(self)@, on_tick(old(self)@.nav, i as int)));
    }

    fn press_mark(&mut self, t: &Tree, on: bool)
        requires
            t.wf(),
            window_ok(old(self)@, tree_view(Some(t))),
        ensures
            final(self)@ == mark_key(old(self)@, TreeView { nodes: t.nodes@, root: t.root_path@ }, on),
            window_ok(final(self)@, tree_view(Some(t))),
    {
        if on {
            self.toggle_mark(t, self.nav.sel);
        }
    }

    fn press_zoom(&mut self, t: &Tree, enter: bool, back: bool)
        requires
            t.wf(),
            window_ok(old(self)@, tree_view(Some(t))),
        ensures
            final(self)@ == back_key(
                zoom_key(old(self)@, TreeView { nodes: t.nodes@, root: t.root_path@ }, enter),
                TreeView { nodes: t.nodes@, root: t.root_path@ },
                back,
            ),
            window_ok(final(self)@, tree_view(Some(t))),
    {
        if enter {
            self.zoom_in(t, self.nav.sel);
        }
        if back {
            self.zoom_out(t);
        }
    }

    fn press_levels(&mut self, fewer: bool, more: bool)
        requires
            1 <= old(self)@.nav.map_depth <= MAX_LEVELS,
        ensures
            final(self)@ == levels_key(levels_key(old(self)@, false, fewer), true, more),
            1 <= final(self)@.nav.map_depth <= MAX_LEVELS,
    {
        if fewer {
            self.nav.change_depth(false, MAX_LEVELS);
        }
        assert(self@ =~= levels_key(old(self)@, false, fewer));
        let ghost mid = self@;
        if more {
            self.nav.change_depth(true, MAX_LEVELS);
        }
        assert(self@ =~= levels_key(mid, true, more));
    }

    fn map_keys(&mut self, t: &Tree, k: &Keys)
        requires
            t.wf(),
            window_ok(old(self)@, tree_view(Some(t))),
        ensures
            final(self)@ == map_keyed(old(self)@, TreeView { nodes: t.nodes@, root: t.root_path@ }, *k),
            window_ok(final(self)@, tree_view(Some(t))),
    {
        self.press_zoom(t, k.enter, k.back);
        self.press_mark(t, k.space || k.x);
        let ghost before = self@;
        self.press_levels(k.fewer, k.more);
        assert(self@.nav == (NavView { map_depth: self@.nav.map_depth, ..before.nav }));
    }

    fn press_rows(&mut self, t: &Tree, k: &Keys)
        requires
            t.wf(),
            window_ok(old(self)@, tree_view(Some(t))),
        ensures
            final(self)@ == with_nav(old(self)@, rows_key(old(self)@.nav, t.nodes@, *k)),
            window_ok(final(self)@, tree_view(Some(t))),
    {
        if k.page_down {
            self.nav.row_move(t, RowMove::Down(PAGE_ROWS));
        } else if k.page_up {
            self.nav.row_move(t, RowMove::Up(PAGE_ROWS));
        } else if k.down {
            self.nav.row_move(t, RowMove::Down(1));
        } else if k.up {
            self.nav.row_move(t, RowMove::Up(1));
        }
        assert(self@ =~= with_nav(old(self)@, rows_key(old(self)@.nav, t.nodes@, *k)));
    }

    fn press_right(&mut self, t: &Tree, on: bool)
        requires
            t.wf(),
            window_ok(old(self)@, tree_view(Some(t))),
        ensures
            final(self)@ == with_nav(old(self)@, right_key(old(self)@.nav, t.nodes@, on)),
            window_ok(final(self)@, tree_view(Some(t))),
    {
        let i: usize = self.nav.sel;
        if on && t.nodes[i].children.len() > 0 {
            if self.nav.expanded[i] {
                proof {
                    assert(child_ok(t.nodes@, i as int, 0));
                }
                self.nav.select(t, t.nodes[i].children[0]);
            } else {
                self.nav.expanded.set(i, true);
            }
        }
        assert(self@ =~= with_nav(old(self)@, right_key(old(self)@.nav, t.nodes@, on)));
    }

    fn press_left(&mut self, t: &Tree, i: usize, on: bool)
        requires
            t.wf(),
            i < t.nodes@.len(),
            window_ok(old(self)@, tree_view(Some(t))),
        ensures
            final(self)@ == with_nav(old(self)@, left_key(old(self)@.nav, t.nodes@, i as int, on)),
            window_ok(final(self)@, tree_view(Some(t))),
    {
        if on {
            let s: usize = self.nav.sel;
            if self.nav.expanded[s] && s != 0 {
                self.nav.expanded.set(s, false);
            } else if let Some(p) = t.nodes[i].parent {
                proof {
                    if i > 0 {
                        assert(parent_ok(t.nodes@, i as int));
                    }
                }
                self.nav.select(t, p);
            }
        }
        assert(self@ =~= with_nav(old(self)@, left_key(old(self)@.nav, t.nodes@, i as int, on)));
    }

    fn press_flip(&mut self, t: &Tree, i: usize, on: bool)
        requires
            t.wf(),
            i < t.nodes@.len(),
            window_ok(old(self)@, tree_view(Some(t))),
        ensures
            final(self)@ == with_nav(old(self)@, flip_key(old(self)@.nav, t.nodes@, i as int, on)),
            window_ok(final(self)@, tree_view(Some(t))),
    {
        if on && t.nodes[i].children.len() > 0 {
            let s: usize = self.nav.sel;
            let open = self.nav.expanded[s];
            self.nav.expanded.set(s, !open);
        }
        assert(self@ =~= with_nav(old(self)@, flip_key(old(self)@.nav, t.nodes@, i as int, on)));
    }

    fn tree_keys(&mut self, t: &Tree, k: &Keys)
        requires
            t.wf(),
            window_ok(old(self)@, tree_view(Some(t))),
        ensures
            final(self)@ == tree_keyed(old(self)@, TreeView { nodes: t.nodes@, root: t.root_path@ }, *k),
            window_ok(final(self)@, tree_view(Some(t))),
    {
        self.press_rows(t, k);
        let i: usize = self.nav.sel;
        self.press_right(t, k.right);
        self.press_left(t, i, k.left);
        self.press_flip(t, i, k.enter);
        self.press_mark(t, k.space || k.x);
    }

    fn prune_keys(&mut self, k: &Keys)
        ensures
            final(self)@ == with_nav(old(self)@, prune_keyed(old(self)@.nav, *k)),
    {
        let len: usize = self.nav.report.findings.len();
        assert(self@.nav.findings.len() == len);
        if len == 0 {
            return;
        }
        if k.up && self.nav.prune_cursor > 0 {
            self.nav.prune_cursor -= 1;
        }
        if k.down {
            let c: usize = self.nav.prune_cursor;
            self.nav.prune_cursor = if c < len - 1 {
                c + 1
            } else {
                len - 1
            };
        }
        if k.space {
            self.nav.toggle_finding(self.nav.prune_cursor);
        }
        assert(self@ =~= with_nav(old(self)@, prune_keyed(old(self)@.nav, *k)));
    }

    fn command_keys(&mut self, k: &Keys)
        ensures
            final(self)@ == commands_keyed(old(self)@, *k),
            final(self).nav == old(self).nav,
    {
        if k.five {
            self.page = Page::Large;
        } else if k.four {
            self.page = Page::Prune;
        } else if k.three {
            self.page = Page::Tree;
        } else if k.two {
            self.page = Page::Sunburst;
        } else if k.one {
            self.page = Page::Treemap;
        }
        if k.c {
            self.open_review();
        }
    }

    fn page_keys(&mut self, t: &Tree, k: &Keys, moved: usize)
        requires
            t.wf(),
            moved < t.nodes@.len(),
            window_ok(old(self)@, tree_view(Some(t))),
        ensures
            final(self)@ == page_keyed(old(self)@, TreeView { nodes: t.nodes@, root: t.root_path@ }, *k, moved as int),
            window_ok(final(self)@, tree_view(Some(t))),
    {
        match self.page {
            Page::Sunburst => self.map_keys(t, k),
            Page::Treemap => {
                if k.left || k.right || k.up || k.down {
                    self.nav.sel = moved;
                }
                assert(self@ =~= arrows_keyed(old(self)@, *k, moved as int));
                self.map_keys(t, k);
            },
            Page::Tree => self.tree_keys(t, k),
            Page::Prune => self.prune_keys(k),
            Page::Large => {},
        }
    }

    /// Keys were pressed. Says whether the tree is to be scanned again.
    pub fn keyboard(&mut self, t: Option<&Tree>, k: &Keys, typing: bool, moved: usize) -> (r: bool)
        requires
            tree_ok(t),
            window_ok(old(self)@, tree_view(t)),
            t matches Some(t) ==> moved < t.nodes@.len(),
        ensures
            (final(self)@, r) == keyed(old(self)@, tree_view(t), *k, typing, moved as int),
            window_ok(
                final(self)@,
                if r {
                    None
                } else {
                    tree_view(t)
                },
            ),
    {
        if self.review_open || self.job_open || self.about_open || typing {
            return false;
        }
        self.command_keys(k);
        if k.f5 {
            self.restart();
            return true;
        }
        if let Some(t) = t {
            self.page_keys(t, k, moved);
        }
        false
    }
}

/// The nodes from the root to node `i`.
pub fn crumbs(t: &Tree, i: usize) -> (r: Vec<usize>)
    requires
        t.wf(),
        i < t.nodes@.len(),
    ensures
        r@.len() == crumbs_to(t.nodes@, i as int).len(),
        forall|k: int| 0 <= k < r@.len() ==> #[trigger] r@[k] == crumbs_to(t.nodes@, i as int)[k],
        forall|k: int| 0 <= k < r@.len() ==> #[trigger] r@[k] < t.nodes@.len(),
    decreases i,
{
    proof {
        if i > 0 {
            assert(parent_ok(t.nodes@, i as int));
        }
    }
    match t.nodes[i].parent {
        Some(p) => {
            let mut out = crumbs(t, p);
            out.push(i);
            out
        },
        None => vec![i],
    }
}

/// Which of the arguments the program is started with again: all but those that
/// choose a renderer.
pub open spec fn kept_args(args: Seq<Seq<char>>) -> Seq<int> {
    kept_from(args, 0)
}

/// The indices of the kept arguments from `i` on.
pub open spec fn kept_from(args: Seq<Seq<char>>, i: int) -> Seq<int>
    decreases args.len() - i,
{
    if i < 0 || i >= args.len() {
        Seq::empty()
    } else if args[i] == "--renderer"@ {
        if i + 1 < args.len() {
            kept_from(args, i + 2)
        } else {
            Seq::empty()
        }
    } else if crate::text::starts(args[i], "--renderer="@) {
        kept_from(args, i + 1)
    } else {
        seq![i] + kept_from(args, i + 1)
    }
}

/// Indices of the arguments to keep when the program starts itself again with
/// another renderer.
pub fn args_to_keep(args: &Vec<String>) -> (r: Vec<usize>)
    ensures
        r@.len() == kept_args(texts(args@)).len(),
        forall|k: int| 0 <= k < r@.len() ==> #[trigger] r@[k] == kept_args(texts(args@))[k],
{
    let ghost all = texts(args@);
    let mut out: Vec<usize> = Vec::new();
    let mut i: usize = 0;
    while i < args.len()
        invariant
            all == texts(args@),
            out@.len() + kept_from(all, i as int).len() == kept_args(all).len(),
            forall|k: int| 0 <= k < out@.len() ==> #[trigger] out@[k] == kept_args(all)[k],
            forall|k: int|
                0 <= k < kept_from(all, i as int).len() ==> #[trigger] kept_from(all, i as int)[k] == kept_args(all)[out@.len() + k],
        decreases args.len() - i,
    {
        let v = crate::text::chars_of(args[i].as_str());
        if crate::text::same(args[i].as_str(), "--renderer") {
            if i + 1 >= args.len() {
                return out;
            }
            i += 2;
        } else if crate::text::starts_with(&v, "--renderer=") {
            i += 1;
        } else {
            let ghost rest = kept_from(all, i as int);
            assert(rest[0] == i);
            out.push(i);
            i += 1;
            proof {
                assert forall|k: int| 0 <= k < kept_from(all, i as int).len() implies #[trigger] kept_from(all, i as int)[k] == kept_args(all)[
                out@.len() + k] by {
                    assert(kept_from(all, i as int)[k] == rest[k + 1]);
                }
            }
        }
    }
    out
}

/// Is there a display server to open a window on?
pub fn display_available(wayland: bool, x11: bool) -> (r: bool)
    ensures
        r == (wayland || x11),
{
    wayland || x11
}

/// No key runs a cleanup: a key can only open the review of what is chosen.
pub proof fn law_no_key_runs_a_cleanup(v: WindowView, t: Option<TreeView>, k: Keys, typing: bool, moved: int)
    ensures
        keyed(v, t, k, typing, moved).0.job_open == v.job_open,
        keyed(v, t, k, typing, moved).0.review_open && !v.review_open ==> v.nav.checked.len() > 0 || v.nav.marked.len() > 0,
{
}

/// While a dialog is open or text is typed, keys change nothing.
pub proof fn law_dialogs_take_the_keys(v: WindowView, t: Option<TreeView>, k: Keys, typing: bool, moved: int)
    requires
        v.review_open || v.job_open || v.about_open || typing,
    ensures
        keyed(v, t, k, typing, moved) == (v, false),
{
}

/// A job is started with the ticked findings and the marked nodes, all of them and
/// in the way chosen; where nothing may be run, none is.
pub proof fn law_a_job_is_what_was_chosen(v: WindowView, t: TreeView, f: FindingView, i: int)
    ensures
        v.no_exec ==> job_started(v, Some(t)) == (v, None::<ExecView>),
        !v.no_exec ==> job_started(v, Some(t)).0 == (WindowView { review_open: false, job_open: true, ..v }),
        !v.no_exec ==> (job_started(v, Some(t)).1 matches Some(r) && {
            &&& r.mode == v.remove_mode
            &&& r.findings.contains(f) <==> v.nav.findings.contains(f) && v.nav.checked.contains(f.id)
            &&& r.marks.len() == v.nav.marked.len()
            &&& 0 <= i < v.nav.marked.len() ==> r.marks[i] == (
                path_at(t.nodes, t.root, v.nav.marked[i] as int),
                t.nodes[v.nav.marked[i] as int].size,
            )
        }),
{
    law_ticked_findings_are_carried_out(v.nav.findings, v.nav.checked, f);
}

/// A review opens exactly if something is ticked or marked, and goes into the
/// Trash unless there is none.
pub proof fn law_a_review_needs_something_chosen(v: WindowView)
    requires
        !v.review_open,
    ensures
        review_opened(v).review_open <==> v.nav.checked.len() > 0 || v.nav.marked.len() > 0,
        review_opened(v).review_open && v.trash_ok ==> review_opened(v).remove_mode == RemoveMode::Trash,
        review_opened(v).review_open && !v.trash_ok ==> review_opened(v).remove_mode == RemoveMode::Permanent,
        !review_opened(v).review_open ==> review_opened(v).toast == Some(
            "Nothing selected — tick suggestions in Prune, or mark tiles with Space / right-click"@,
        ),
        review_opened(v).nav == v.nav && review_opened(v).job_open == v.job_open,
{
}

/// The keys without any pressed.
pub open spec fn no_keys() -> Keys {
    Keys {
        one: false,
        two: false,
        three: false,
        four: false,
        five: false,
        c: false,
        f5: false,
        enter: false,
        back: false,
        space: false,
        x: false,
        fewer: false,
        more: false,
        left: false,
        right: false,
        up: false,
        down: false,
        page_up: false,
        page_down: false,
    }
}

/// The digits change the page, `C` reviews and F5 scans again.
pub proof fn law_keys_that_work_on_every_page(v: WindowView, t: Option<TreeView>, moved: int)
    requires
        !v.review_open && !v.job_open && !v.about_open,
    ensures
        keyed(v, t, Keys { one: true, ..no_keys() }, false, moved).0.page == Page::Treemap,
        keyed(v, t, Keys { two: true, ..no_keys() }, false, moved).0.page == Page::Sunburst,
        keyed(v, t, Keys { three: true, ..no_keys() }, false, moved).0.page == Page::Tree,
        keyed(v, t, Keys { four: true, ..no_keys() }, false, moved).0.page == Page::Prune,
        keyed(v, t, Keys { five: true, ..no_keys() }, false, moved).0.page == Page::Large,
        keyed(v, t, Keys { f5: true, ..no_keys() }, false, moved).1,
        keyed(v, t, Keys { f5: true, ..no_keys() }, false, moved).0.nav.marked.len() == 0,
        keyed(v, t, Keys { f5: true, ..no_keys() }, false, moved).0.nav.findings.len() == 0,
        t is None ==> keyed(v, t, Keys { c: true, ..no_keys() }, false, moved).0 == review_opened(v),
        !keyed(v, t, no_keys(), false, moved).1,
        keyed(v, t, no_keys(), false, moved).0 == v || v.page == Page::Tree,
{
}

/// The keys of the maps: Enter and Backspace zoom, Space and X mark, and the
/// brackets draw fewer or more levels, from one to six.
pub proof fn law_keys_of_the_maps(v: WindowView, t: TreeView)
    requires
        1 <= v.nav.map_depth <= 6,
    ensures
        map_keyed(v, t, Keys { enter: true, ..no_keys() }) == zoomed_in(v, t, v.nav.sel),
        map_keyed(v, t, Keys { back: true, ..no_keys() }) == zoomed_out(v, t),
        map_keyed(v, t, Keys { space: true, ..no_keys() }) == marking(v, t, v.nav.sel),
        map_keyed(v, t, Keys { x: true, ..no_keys() }) == marking(v, t, v.nav.sel),
        map_keyed(v, t, Keys { fewer: true, ..no_keys() }).nav.map_depth == (if v.nav.map_depth > 1 { v.nav.map_depth - 1 } else { 1 }),
        map_keyed(v, t, Keys { more: true, ..no_keys() }).nav.map_depth == (if v.nav.map_depth < 6 { v.nav.map_depth + 1 } else { 6 }),
        map_keyed(v, t, no_keys()) == v,
{
}

/// The keys of the suggestions: up and down move the cursor within the list, and
/// Space ticks what it is on.
pub proof fn law_keys_of_the_list(v: NavView)
    requires
        0 <= v.prune_cursor < v.findings.len(),
    ensures
        prune_keyed(v, Keys { up: true, ..no_keys() }).prune_cursor == (if v.prune_cursor > 0 { v.prune_cursor - 1 } else { 0 }),
        prune_keyed(v, Keys { down: true, ..no_keys() }).prune_cursor == (if v.prune_cursor + 1 < v.findings.len() {
            v.prune_cursor + 1
        } else {
            v.prune_cursor
        }),
        prune_keyed(v, Keys { space: true, ..no_keys() }) == on_tick(v, v.prune_cursor),
        prune_keyed(v, no_keys()) == v,
{
}

/// The keys of the tree move by one row, or by twenty.
pub proof fn law_rows_asked_for(k: Keys)
    ensures
        rows_asked(Keys { up: true, ..no_keys() }) == Some(RowMove::Up(1)),
        rows_asked(Keys { down: true, ..no_keys() }) == Some(RowMove::Down(1)),
        rows_asked(Keys { page_up: true, ..no_keys() }) == Some(RowMove::Up(20)),
        rows_asked(Keys { page_down: true, ..no_keys() }) == Some(RowMove::Down(20)),
        rows_asked(k) is None <==> !k.up && !k.down && !k.page_up && !k.page_down,
{
}

/// The crumbs lead from the root to the node, folder by folder.
pub proof fn law_crumbs_lead_from_the_root(n: Seq<Node>, i: int, k: int)
    requires
        is_tree(n),
        0 <= i < n.len(),
    ensures
        crumbs_to(n, i).len() > 0,
        crumbs_to(n, i)[0] == 0,
        crumbs_to(n, i).last() == i,
        0 < k < crumbs_to(n, i).len() ==> n[crumbs_to(n, i)[k]].parent == Some(crumbs_to(n, i)[k - 1] as usize),
        forall|j: int| 0 <= j < crumbs_to(n, i).len() ==> 0 <= #[trigger] crumbs_to(n, i)[j] < n.len(),
    decreases i,
{
    if i > 0 {
        assert(parent_ok(n, i));
        let p = n[i].parent->0 as int;
        law_crumbs_lead_from_the_root(n, p, k);
    }
}

/// Arguments are handed on but for the choice of a renderer, in either form.
pub proof fn law_the_renderer_is_not_handed_on(args: Seq<Seq<char>>, i: int)
    requires
        0 <= i < args.len(),
    ensures
        args[i] == "--renderer"@ && i + 1 < args.len() ==> kept_from(args, i) == kept_from(args, i + 2),
        args[i] == "--renderer"@ && i + 1 == args.len() ==> kept_from(args, i) == Seq::<int>::empty(),
        args[i] != "--renderer"@ && "--renderer="@.is_prefix_of(args[i]) ==> kept_from(args, i) == kept_from(args, i + 1),
        args[i] != "--renderer"@ && !"--renderer="@.is_prefix_of(args[i]) ==> kept_from(args, i) == seq![i] + kept_from(args, i + 1),
{
}

/// A finished job leaves no tick and no mark, closes its dialog and says how many
/// steps went well, how many failed and what was gained.
pub proof fn law_a_finished_job_is_told(v: WindowView, s: Summary, before: Option<u64>, after: Option<u64>)
    ensures
        ({
            let w = job_finished(v, Some(s), before, after);
            &&& w.nav.checked.len() == 0 && w.nav.marked.len() == 0 && w.nav.findings.len() == 0
            &&& !w.job_open
            &&& w.page == v.page && w.no_exec == v.no_exec && w.nav.sel == v.nav.sel
            &&& w.toast == Some(
                "Cleanup finished: "@ + digits((s.ok + s.removed_marks) as nat) + " ok, "@ + digits(s.failed as nat) + " failed · "@ + size_text(
                    gained(before, after),
                ) + " freed on disk"@,
            )
        }),
{
}

/// A crumb that is clicked shows its folder on the map.
pub proof fn law_a_crumb_shows_its_folder(v: WindowView, t: TreeView, i: int)
    ensures
        crumb_clicked(v, t, i).page == Page::Treemap,
        crumb_clicked(v, t, i).nav.focus == i,
        i != 0 ==> crumb_clicked(v, t, i).nav.sel == i,
        crumb_clicked(v, t, i).nav.marked == v.nav.marked && crumb_clicked(v, t, i).nav.checked == v.nav.checked,
{
}

} // verus!
