//! The terminal front-end: what keys, clicks and the mouse wheel do.

use vstd::prelude::*;

use crate::cleanup::RemoveMode;
use crate::marks::{
    checked_findings, law_a_tier_is_ticked_whole, law_ticked_findings_are_carried_out, law_ticks_change_one_at_a_time, mark_outcome,
    marked_paths, marks_after, ticked_findings, tier_ticked, untick, without_id,
    MarkOutcome, MarkOutcomeView,
};
use crate::nav::{
    finding_node, nav_ok, next_sibling, on_close, on_flip, on_open, on_row_move, on_sync, on_tick, on_to_map, on_zoom_in, on_zoom_out,
    tick_outcome, Nav, NavView, RowMove, TickOutcome,
};
use crate::path::{lossy_text, FsPath};
use crate::rows::{opened, reveal_node};
use crate::rules::{actionable, finding_views, Finding, FindingView, Report, Risk};
use crate::scanner::{holds, is_tree, parent_ok, path_at, Node, Tree};
use crate::text::texts;
use crate::util::{fmt_size, size_text};

verus! {

#[derive(Clone, Copy, Debug, PartialEq, Eq, Structural)]
pub enum Tab {
    /// The map.
    Tiles,
    Tree,
    Prune,
}

#[derive(Clone, Copy, Debug, PartialEq, Eq, Structural)]
pub enum Modal {
    Closed,
    Review,
    About,
}

#[derive(Clone, Copy, Debug, PartialEq, Eq, Structural)]
pub enum Btn {
    Toggle,
    AllSafe,
    Clear,
    Review,
    Reanalyze,
    Run,
    RunPermanent,
    Cancel,
}

/// What lies under the mouse pointer.
#[derive(Clone, Copy, Debug, PartialEq, Eq, Structural)]
pub enum Hit {
    Tab(Tab),
    About,
    Node(usize),
    Finding(usize),
    Button(Btn),
}

#[derive(Clone, Copy, Debug, PartialEq, Eq, Structural)]
pub enum Key {
    Char(char),
    Enter,
    Backspace,
    Esc,
    Tab,
    BackTab,
    Left,
    Right,
    Up,
    Down,
    PageUp,
    PageDown,
    Home,
    End,
    Other,
}

#[derive(Clone, Copy, Debug, PartialEq, Eq, Structural)]
pub enum Side {
    Left,
    Right,
    Up,
    Down,
}

/// What is left to do outside.
#[derive(Clone, Copy, Debug, PartialEq, Eq, Structural)]
pub enum Effect {
    Nothing,
    /// Scan the tree and run all rules.
    Rescan,
    /// Run the rules against the tree.
    Reanalyze,
    /// Move the selection between sibling tiles.
    Move(Side),
}

/// A confirmed cleanup.
pub struct ExecRequest {
    pub findings: Vec<Finding>,
    pub marks: Vec<(FsPath, u64)>,
    pub mode: RemoveMode,
}

#[verifier::ext_equal]
pub struct ExecView {
    pub findings: Seq<FindingView>,
    pub marks: Seq<(Seq<u8>, u64)>,
    pub mode: RemoveMode,
}

/// Marks as values.
pub open spec fn mark_views(v: Seq<(FsPath, u64)>) -> Seq<(Seq<u8>, u64)> {
    Seq::new(v.len(), |i: int| (v[i].0@, v[i].1))
}

impl View for ExecRequest {
    type V = ExecView;

    open spec fn view(&self) -> ExecView {
        ExecView { findings: finding_views(self.findings@), marks: mark_views(self.marks@), mode: self.mode }
    }
}

pub struct Screen {
    pub nav: Nav,
    pub tab: Tab,
    pub modal: Modal,
    /// A suggestion checked only because Review was opened on it: unchecked
    /// again if the review is cancelled.
    pub auto_checked: Option<String>,
    pub tree_page: usize,
    pub prune_page: usize,
    pub status: Option<String>,
    pub request: Option<ExecRequest>,
    pub trash_ok: bool,
    pub no_exec: bool,
    pub home: FsPath,
    pub quit: bool,
}

#[verifier::ext_equal]
pub struct ScreenView {
    pub nav: NavView,
    pub tab: Tab,
    pub modal: Modal,
    pub auto_checked: Option<Seq<char>>,
    pub tree_page: usize,
    pub prune_page: usize,
    pub status: Option<Seq<char>>,
    pub request: Option<ExecView>,
    pub trash_ok: bool,
    pub no_exec: bool,
    pub home: Seq<u8>,
    pub quit: bool,
}

pub open spec fn opt_string(o: Option<String>) -> Option<Seq<char>> {
    match o {
        Some(s) => Some(s@),
        None => None,
    }
}

pub open spec fn opt_exec(o: Option<ExecRequest>) -> Option<ExecView> {
    match o {
        Some(r) => Some(r@),
        None => None,
    }
}

impl View for Screen {
    type V = ScreenView;

    open spec fn view(&self) -> ScreenView {
        ScreenView {
            nav: self.nav@,
            tab: self.tab,
            modal: self.modal,
            auto_checked: opt_string(self.auto_checked),
            tree_page: self.tree_page,
            prune_page: self.prune_page,
            status: opt_string(self.status),
            request: opt_exec(self.request),
            trash_ok: self.trash_ok,
            no_exec: self.no_exec,
            home: self.home@,
            quit: self.quit,
        }
    }
}

/// A scanned tree as a value.
pub struct TreeView {
    pub nodes: Seq<Node>,
    pub root: Seq<u8>,
}

pub open spec fn tree_view(t: Option<&Tree>) -> Option<TreeView> {
    match t {
        Some(t) => Some(TreeView { nodes: t.nodes@, root: t.root_path@ }),
        None => None,
    }
}

pub open spec fn tree_ok(t: Option<&Tree>) -> bool {
    t matches Some(t) ==> t.wf()
}

/// The most levels that the map draws.
pub const MAX_DEPTH: usize = 4;

/// The state fits the tree; without one nothing is marked.
pub open spec fn screen_ok(v: ScreenView, t: Option<TreeView>) -> bool {
    &&& 1 <= v.nav.map_depth <= MAX_DEPTH
    &&& match t {
        Some(t) => nav_ok(v.nav, t.nodes),
        None => v.nav.marked.len() == 0,
    }
}

pub open spec fn with_nav(v: ScreenView, nav: NavView) -> ScreenView {
    ScreenView { nav, ..v }
}

pub open spec fn flash(v: ScreenView, msg: Seq<char>) -> ScreenView {
    ScreenView { status: Some(msg), ..v }
}

/// What is said about marking node `i`.
pub open spec fn mark_text(n: Seq<Node>, root: Seq<u8>, i: int, outcome: MarkOutcomeView) -> Seq<char> {
    match outcome {
        MarkOutcomeView::Unmarked => "Unmarked "@ + n[i].name@,
        MarkOutcomeView::Grouped => "Grouped small files and mount points cannot be marked"@,
        MarkOutcomeView::Inside => "Already inside a marked directory — unmark that directory instead"@,
        MarkOutcomeView::Refused(e) => "Cannot mark "@ + lossy_text(path_at(n, root, i)) + ": "@ + e,
        MarkOutcomeView::Marked => "Marked "@ + n[i].name@ + " ("@ + size_text(n[i].size) + ") — press c to review"@,
    }
}

pub open spec fn do_mark(v: ScreenView, t: TreeView) -> ScreenView {
    let i = v.nav.sel;
    let outcome = mark_outcome(t.nodes, t.root, v.home, v.nav.marked, i as usize, false);
    ScreenView {
        nav: NavView { marked: marks_after(t.nodes, v.nav.marked, i as usize, outcome), ..v.nav },
        status: Some(mark_text(t.nodes, t.root, i, outcome)),
        ..v
    }
}

pub open spec fn nothing_selected() -> Seq<char> {
    "Nothing selected — check items in Prune (Space) or mark tiles (Space/x)"@
}

pub open spec fn do_open_review(v: ScreenView) -> ScreenView {
    let c = v.nav.prune_cursor;
    if v.nav.checked.len() > 0 || v.nav.marked.len() > 0 {
        ScreenView { modal: Modal::Review, ..v }
    } else if v.tab == Tab::Prune && 0 <= c < v.nav.findings.len() && actionable(
        v.nav.findings[c].action,
        v.nav.findings[c].needs_root,
    ) {
        ScreenView {
            nav: NavView { checked: seq![v.nav.findings[c].id], ..v.nav },
            auto_checked: Some(v.nav.findings[c].id),
            modal: Modal::Review,
            ..v
        }
    } else {
        flash(v, nothing_selected())
    }
}

pub open spec fn do_cancel_review(v: ScreenView) -> ScreenView {
    ScreenView {
        nav: match v.auto_checked {
            Some(id) => NavView { checked: without_id(v.nav.checked, id), ..v.nav },
            None => v.nav,
        },
        auto_checked: None,
        modal: Modal::Closed,
        ..v
    }
}

/// The paths and sizes of the marks.
pub open spec fn mark_list(t: Option<TreeView>, m: Seq<usize>) -> Seq<(Seq<u8>, u64)> {
    match t {
        Some(t) => Seq::new(m.len(), |k: int| (path_at(t.nodes, t.root, m[k] as int), t.nodes[m[k] as int].size)),
        None => Seq::empty(),
    }
}

pub open spec fn do_confirm(v: ScreenView, t: Option<TreeView>, mode: RemoveMode) -> ScreenView {
    if v.no_exec {
        ScreenView { auto_checked: None, status: Some("Execution is disabled (--no-exec)"@), ..v }
    } else {
        ScreenView {
            auto_checked: None,
            modal: Modal::Closed,
            request: Some(
                ExecView {
                    findings: ticked_findings(v.nav.findings, v.nav.checked),
                    marks: mark_list(t, v.nav.marked),
                    mode,
                },
            ),
            ..v
        }
    }
}

/// Where marks go if nothing else is asked for.
pub open spec fn default_mode(v: ScreenView) -> RemoveMode {
    if v.trash_ok {
        RemoveMode::Trash
    } else {
        RemoveMode::Permanent
    }
}

/// Nothing is marked and nothing found: a scan begins.
pub open spec fn do_restart(v: ScreenView) -> ScreenView {
    with_nav(v, NavView { marked: Seq::empty(), findings: Seq::empty(), notes: Seq::empty(), ..v.nav })
}

pub open spec fn do_reanalyze(v: ScreenView, t: Option<TreeView>) -> (ScreenView, Effect) {
    match t {
        Some(_) => (with_nav(v, NavView { findings: Seq::empty(), notes: Seq::empty(), ..v.nav }), Effect::Reanalyze),
        None => (flash(v, "Still scanning — analysis will finish with the scan"@), Effect::Nothing),
    }
}

pub open spec fn do_set_tab(v: ScreenView, t: Option<TreeView>, tab: Tab) -> ScreenView {
    ScreenView {
        tab,
        nav: match t {
            Some(t) => match tab {
                Tab::Tiles => on_sync(v.nav, t.nodes),
                Tab::Tree => NavView { expanded: opened(t.nodes, v.nav.expanded, v.nav.sel), ..v.nav },
                Tab::Prune => v.nav,
            },
            None => v.nav,
        },
        ..v
    }
}

pub open spec fn depth_changed(v: ScreenView, more: bool) -> ScreenView {
    let d = v.nav.map_depth;
    with_nav(
        v,
        NavView {
            map_depth: if more {
                if d < MAX_DEPTH {
                    d + 1
                } else {
                    d
                }
            } else if d > 1 {
                d - 1
            } else {
                1
            },
            ..v.nav
        },
    )
}

pub open spec fn do_map_key(v: ScreenView, t: TreeView, k: Key) -> (ScreenView, Effect) {
    if k == Key::Left || k == Key::Char('h') {
        (v, Effect::Move(Side::Left))
    } else if k == Key::Right || k == Key::Char('l') {
        (v, Effect::Move(Side::Right))
    } else if k == Key::Up || k == Key::Char('k') {
        (v, Effect::Move(Side::Up))
    } else if k == Key::Down || k == Key::Char('j') {
        (v, Effect::Move(Side::Down))
    } else if k == Key::Tab {
        (with_nav(v, NavView { sel: next_sibling(t.nodes, v.nav.sel), ..v.nav }), Effect::Nothing)
    } else if k == Key::Enter {
        (with_nav(v, on_zoom_in(v.nav, t.nodes, v.nav.sel)), Effect::Nothing)
    } else if k == Key::Backspace || k == Key::Esc {
        (with_nav(v, on_zoom_out(v.nav, t.nodes)), Effect::Nothing)
    } else if k == Key::Char(' ') || k == Key::Char('x') {
        (do_mark(v, t), Effect::Nothing)
    } else if k == Key::Char('[') {
        (depth_changed(v, false), Effect::Nothing)
    } else if k == Key::Char(']') {
        (depth_changed(v, true), Effect::Nothing)
    } else if k == Key::Char('t') {
        (do_set_tab(v, Some(t), Tab::Tree), Effect::Nothing)
    } else {
        (v, Effect::Nothing)
    }
}

pub open spec fn do_tree_key(v: ScreenView, t: TreeView, k: Key) -> ScreenView {
    let n = t.nodes;
    if k == Key::Up || k == Key::Char('k') {
        with_nav(v, on_row_move(v.nav, n, RowMove::Up(1)))
    } else if k == Key::Down || k == Key::Char('j') {
        with_nav(v, on_row_move(v.nav, n, RowMove::Down(1)))
    } else if k == Key::PageUp {
        with_nav(v, on_row_move(v.nav, n, RowMove::Up(v.tree_page)))
    } else if k == Key::PageDown {
        with_nav(v, on_row_move(v.nav, n, RowMove::Down(v.tree_page)))
    } else if k == Key::Home || k == Key::Char('g') {
        with_nav(v, on_row_move(v.nav, n, RowMove::First))
    } else if k == Key::End || k == Key::Char('G') {
        with_nav(v, on_row_move(v.nav, n, RowMove::Last))
    } else if k == Key::Right || k == Key::Char('l') {
        with_nav(v, on_open(v.nav, n, false))
    } else if k == Key::Enter {
        with_nav(v, on_flip(v.nav, n))
    } else if k == Key::Left || k == Key::Char('h') || k == Key::Backspace {
        with_nav(v, on_close(v.nav, n, false))
    } else if k == Key::Char(' ') || k == Key::Char('x') {
        do_mark(v, t)
    } else if k == Key::Char('m') {
        ScreenView { nav: on_to_map(v.nav, n), tab: Tab::Tiles, ..v }
    } else {
        v
    }
}

pub open spec fn do_tick(v: ScreenView, i: int) -> ScreenView {
    let w = with_nav(v, on_tick(v.nav, i));
    if tick_outcome(v.nav, i) == TickOutcome::Manual {
        flash(w, "Manual step only — see the details for what to do"@)
    } else {
        w
    }
}

/// Show the finding under the cursor in the tree.
pub open spec fn do_show(v: ScreenView, t: Option<TreeView>) -> ScreenView {
    let c = v.nav.prune_cursor;
    match t {
        Some(t) => if c < v.nav.findings.len() {
            match finding_node(t.nodes, t.root, v.nav.findings[c].paths) {
                Some(i) => ScreenView {
                    nav: NavView { sel: i, expanded: opened(t.nodes, v.nav.expanded, i), ..v.nav },
                    tab: Tab::Tree,
                    ..v
                },
                None => flash(v, "That location is outside the scanned tree"@),
            }
        } else {
            v
        },
        None => v,
    }
}

/// The cursor of the prune list moved by `step`, within the list.
pub open spec fn cursor_moved(v: ScreenView, up: bool, step: int) -> ScreenView {
    let (c, last) = (v.nav.prune_cursor, v.nav.findings.len() - 1);
    with_nav(
        v,
        NavView {
            prune_cursor: if up {
                if c > step {
                    c - step
                } else {
                    0
                }
            } else if c + step < last {
                c + step
            } else {
                last
            },
            ..v.nav
        },
    )
}

pub open spec fn do_prune_key(v: ScreenView, t: Option<TreeView>, k: Key) -> (ScreenView, Effect) {
    let len = v.nav.findings.len();
    if len == 0 {
        if k == Key::Char('r') {
            do_reanalyze(v, t)
        } else {
            (v, Effect::Nothing)
        }
    } else if k == Key::Up || k == Key::Char('k') {
        (cursor_moved(v, true, 1), Effect::Nothing)
    } else if k == Key::Down || k == Key::Char('j') {
        (cursor_moved(v, false, 1), Effect::Nothing)
    } else if k == Key::PageUp {
        (cursor_moved(v, true, v.prune_page as int), Effect::Nothing)
    } else if k == Key::PageDown {
        (cursor_moved(v, false, v.prune_page as int), Effect::Nothing)
    } else if k == Key::Home || k == Key::Char('g') {
        (with_nav(v, NavView { prune_cursor: 0, ..v.nav }), Effect::Nothing)
    } else if k == Key::End || k == Key::Char('G') {
        (with_nav(v, NavView { prune_cursor: len - 1, ..v.nav }), Effect::Nothing)
    } else if k == Key::Char(' ') || k == Key::Char('x') {
        (do_tick(v, v.nav.prune_cursor), Effect::Nothing)
    } else if k == Key::Char('a') {
        (with_nav(v, NavView { checked: tier_ticked(v.nav.checked, v.nav.findings, Some(Risk::Safe)), ..v.nav }), Effect::Nothing)
    } else if k == Key::Char('A') {
        (with_nav(v, NavView { checked: tier_ticked(v.nav.checked, v.nav.findings, None), ..v.nav }), Effect::Nothing)
    } else if k == Key::Char('n') {
        (with_nav(v, NavView { checked: Seq::empty(), ..v.nav }), Effect::Nothing)
    } else if k == Key::Enter {
        (do_open_review(v), Effect::Nothing)
    } else if k == Key::Char('r') {
        do_reanalyze(v, t)
    } else if k == Key::Char('t') {
        (do_show(v, t), Effect::Nothing)
    } else {
        (v, Effect::Nothing)
    }
}

pub open spec fn do_review_key(v: ScreenView, t: Option<TreeView>, k: Key) -> ScreenView {
    if k == Key::Char('y') || k == Key::Enter {
        do_confirm(v, t, default_mode(v))
    } else if k == Key::Char('t') && v.trash_ok {
        do_confirm(v, t, RemoveMode::Trash)
    } else if k == Key::Char('p') {
        do_confirm(v, t, RemoveMode::Permanent)
    } else if k == Key::Char('!') {
        ScreenView {
            nav: NavView { marked: Seq::empty(), checked: Seq::empty(), ..v.nav },
            modal: Modal::Closed,
            status: Some("Unmarked everything"@),
            ..v
        }
    } else {
        do_cancel_review(v)
    }
}

/// The page that a key leads to.
pub open spec fn page_key(tab: Tab, k: Key) -> Option<Tab> {
    if k == Key::Char('1') {
        Some(Tab::Tiles)
    } else if k == Key::Char('2') {
        Some(Tab::Tree)
    } else if k == Key::Char('3') {
        Some(Tab::Prune)
    } else if k == Key::Tab && tab != Tab::Tiles {
        Some(
            if tab == Tab::Tree {
                Tab::Prune
            } else {
                Tab::Tiles
            },
        )
    } else if k == Key::BackTab {
        Some(
            match tab {
                Tab::Tiles => Tab::Prune,
                Tab::Tree => Tab::Tiles,
                Tab::Prune => Tab::Tree,
            },
        )
    } else {
        None
    }
}

fn page_for(tab: Tab, k: Key) -> (r: Option<Tab>)
    ensures
        r == page_key(tab, k),
{
    if k == Key::Char('1') {
        Some(Tab::Tiles)
    } else if k == Key::Char('2') {
        Some(Tab::Tree)
    } else if k == Key::Char('3') {
        Some(Tab::Prune)
    } else if k == Key::Tab && tab != Tab::Tiles {
        if tab == Tab::Tree {
            Some(Tab::Prune)
        } else {
            Some(Tab::Tiles)
        }
    } else if k == Key::BackTab {
        match tab {
            Tab::Tiles => Some(Tab::Prune),
            Tab::Tree => Some(Tab::Tiles),
            Tab::Prune => Some(Tab::Tree),
        }
    } else {
        None
    }
}

/// What a key press on the page itself comes to.
pub open spec fn do_tab_key(v: ScreenView, t: Option<TreeView>, k: Key) -> (ScreenView, Effect) {
    match v.tab {
        Tab::Tiles => match t {
            Some(t) => do_map_key(v, t, k),
            None => (v, Effect::Nothing),
        },
        Tab::Tree => match t {
            Some(t) => (do_tree_key(v, t, k), Effect::Nothing),
            None => (v, Effect::Nothing),
        },
        Tab::Prune => do_prune_key(v, t, k),
    }
}

/// What a key press comes to.
pub open spec fn do_key(v: ScreenView, t: Option<TreeView>, k: Key, ctrl: bool) -> (ScreenView, Effect) {
    if k == Key::Char('c') && ctrl {
        (ScreenView { quit: true, ..v }, Effect::Nothing)
    } else if v.modal == Modal::About {
        (ScreenView { modal: Modal::Closed, ..v }, Effect::Nothing)
    } else if v.modal == Modal::Review {
        (do_review_key(v, t, k), Effect::Nothing)
    } else if k == Key::Char('q') {
        (ScreenView { quit: true, ..v }, Effect::Nothing)
    } else if k == Key::Char('?') {
        (ScreenView { modal: Modal::About, ..v }, Effect::Nothing)
    } else if page_key(v.tab, k) is Some {
        (do_set_tab(v, t, page_key(v.tab, k)->0), Effect::Nothing)
    } else if k == Key::Char('R') {
        (flash(do_restart(v), "Rescanning…"@), Effect::Rescan)
    } else if k == Key::Char('c') {
        (do_open_review(v), Effect::Nothing)
    } else {
        do_tab_key(v, t, k)
    }
}

/// What a click on a hit comes to.
pub open spec fn do_hit(v: ScreenView, t: Option<TreeView>, h: Hit) -> (ScreenView, Effect) {
    match h {
        Hit::Tab(tab) => (do_set_tab(v, t, tab), Effect::Nothing),
        Hit::About => (ScreenView { modal: Modal::About, ..v }, Effect::Nothing),
        Hit::Node(i) => if v.nav.sel != i {
            (with_nav(v, NavView { sel: i as int, ..v.nav }), Effect::Nothing)
        } else {
            match t {
                Some(t) => if v.tab == Tab::Tiles {
                    (with_nav(v, on_zoom_in(v.nav, t.nodes, i as int)), Effect::Nothing)
                } else {
                    (do_tree_key(v, t, Key::Enter), Effect::Nothing)
                },
                None => (v, Effect::Nothing),
            }
        },
        Hit::Finding(i) => if v.tab != Tab::Prune {
            (ScreenView { nav: NavView { prune_cursor: i as int, ..v.nav }, tab: Tab::Prune, ..v }, Effect::Nothing)
        } else if v.nav.prune_cursor == i {
            (do_tick(v, i as int), Effect::Nothing)
        } else {
            (with_nav(v, NavView { prune_cursor: i as int, ..v.nav }), Effect::Nothing)
        },
        Hit::Button(b) => match b {
            Btn::Toggle => (do_tick(v, v.nav.prune_cursor), Effect::Nothing),
            Btn::AllSafe => (
                with_nav(v, NavView { checked: tier_ticked(v.nav.checked, v.nav.findings, Some(Risk::Safe)), ..v.nav }),
                Effect::Nothing,
            ),
            Btn::Clear => (with_nav(v, NavView { checked: Seq::empty(), marked: Seq::empty(), ..v.nav }), Effect::Nothing),
            Btn::Review => (do_open_review(v), Effect::Nothing),
            Btn::Reanalyze => do_reanalyze(v, t),
            Btn::Run => (do_confirm(v, t, default_mode(v)), Effect::Nothing),
            Btn::RunPermanent => (do_confirm(v, t, RemoveMode::Permanent), Effect::Nothing),
            Btn::Cancel => (do_cancel_review(v), Effect::Nothing),
        },
    }
}

/// What a left click comes to.
pub open spec fn do_click(v: ScreenView, t: Option<TreeView>, h: Option<Hit>) -> (ScreenView, Effect) {
    if v.modal == Modal::About {
        (ScreenView { modal: Modal::Closed, ..v }, Effect::Nothing)
    } else {
        match h {
            None => (v, Effect::Nothing),
            Some(h) => if v.modal == Modal::Review && !(h is Button) {
                (v, Effect::Nothing)
            } else {
                do_hit(v, t, h)
            },
        }
    }
}

/// The child of node `focus` that node `i` lies in (or is).
pub open spec fn child_towards(n: Seq<Node>, focus: int, i: int) -> Option<int>
    decreases i,
{
    match n[i].parent {
        Some(p) => if p == focus {
            Some(i)
        } else if p < i {
            child_towards(n, focus, p as int)
        } else {
            None
        },
        None => None,
    }
}

/// What turning the mouse wheel comes to. In the map it zooms: in toward the
/// pointer, out again.
pub open spec fn do_scroll(v: ScreenView, t: Option<TreeView>, h: Option<Hit>, up: bool) -> (ScreenView, Effect) {
    if v.modal != Modal::Closed {
        (v, Effect::Nothing)
    } else {
        match v.tab {
            Tab::Tiles => match t {
                Some(t) => if up {
                    match h {
                        Some(Hit::Node(i)) => match child_towards(t.nodes, v.nav.focus, i as int) {
                            Some(c) => (with_nav(v, on_zoom_in(v.nav, t.nodes, c)), Effect::Nothing),
                            None => (v, Effect::Nothing),
                        },
                        _ => (v, Effect::Nothing),
                    }
                } else {
                    (with_nav(v, on_zoom_out(v.nav, t.nodes)), Effect::Nothing)
                },
                None => (v, Effect::Nothing),
            },
            Tab::Tree => match t {
                Some(t) => {
                    let k = if up {
                        Key::Up
                    } else {
                        Key::Down
                    };
                    (do_tree_key(do_tree_key(do_tree_key(v, t, k), t, k), t, k), Effect::Nothing)
                },
                None => (v, Effect::Nothing),
            },
            Tab::Prune => {
                let k = if up {
                    Key::Up
                } else {
                    Key::Down
                };
                let (a, _) = do_prune_key(v, t, k);
                let (b, _) = do_prune_key(a, t, k);
                do_prune_key(b, t, k)
            },
        }
    }
}

impl Screen {
    pub fn new(home: FsPath, no_exec: bool, trash_ok: bool) -> (r: Screen)
        ensures
            screen_ok(r@, None),
            r@.tab == Tab::Tiles,
            r@.modal == Modal::Closed,
            r@.auto_checked is None,
            r@.tree_page == 10,
            r@.prune_page == 10,
            r@.nav.map_depth == 2,
            r@.nav.checked.len() == 0,
            r@.nav.findings.len() == 0,
            r@.nav.notes.len() == 0,
            r@.nav.prune_cursor == 0,
            r@.status is None,
            r@.request is None,
            r@.trash_ok == trash_ok,
            r@.no_exec == no_exec,
            r@.home == home@,
            !r@.quit,
    {
        Screen {
            nav: Nav::new(2),
            tab: Tab::Tiles,
            modal: Modal::Closed,
            auto_checked: None,
            tree_page: 10,
            prune_page: 10,
            status: None,
            request: None,
            trash_ok,
            no_exec,
            home,
            quit: false,
        }
    }

    fn say(&mut self, msg: String)
        ensures
            final(self)@ == flash(old(self)@, msg@),
            final(self).nav == old(self).nav,
    {
        self.status = Some(msg);
    }

    /// A scan begins: earlier marks and findings are gone.
    pub fn restart(&mut self)
        requires
            1 <= old(self)@.nav.map_depth <= MAX_DEPTH,
        ensures
            final(self)@ == do_restart(old(self)@),
            screen_ok(final(self)@, None),
    {
        self.nav.marked = Vec::new();
        self.nav.report = Report { findings: Vec::new(), notes: Vec::new() };
        proof {
            assert(self.nav.report.list() =~= Seq::empty());
            assert(texts(self.nav.report.notes@) =~= Seq::empty());
            assert(self@ =~= do_restart(old(self)@));
        }
    }

    /// Re-run the rules, if there is a tree.
    pub fn reanalyze(&mut self, t: Option<&Tree>) -> (r: Effect)
        requires
            screen_ok(old(self)@, tree_view(t)),
        ensures
            (final(self)@, r) == do_reanalyze(old(self)@, tree_view(t)),
            screen_ok(final(self)@, tree_view(t)),
    {
        if t.is_none() {
            self.say("Still scanning — analysis will finish with the scan".to_owned());
            return Effect::Nothing;
        }
        self.nav.report = Report { findings: Vec::new(), notes: Vec::new() };
        proof {
            assert(self.nav.report.list() =~= Seq::empty());
            assert(texts(self.nav.report.notes@) =~= Seq::empty());
            assert(self@ =~= do_reanalyze(old(self)@, tree_view(t)).0);
        }
        Effect::Reanalyze
    }

    fn toggle_mark(&mut self, t: &Tree)
        requires
            t.wf(),
            screen_ok(old(self)@, tree_view(Some(t))),
        ensures
            final(self)@ == do_mark(old(self)@, TreeView { nodes: t.nodes@, root: t.root_path@ }),
            screen_ok(final(self)@, tree_view(Some(t))),
    {
        let i: usize = self.nav.sel;
        let outcome = self.nav.toggle_mark(t, i, &self.home, false);
        let msg = match &outcome {
            MarkOutcome::Unmarked => "Unmarked ".to_owned().concat(t.nodes[i].name.as_str()),
            MarkOutcome::Grouped => "Grouped small files and mount points cannot be marked".to_owned(),
            MarkOutcome::Inside => "Already inside a marked directory — unmark that directory instead".to_owned(),
            MarkOutcome::Refused(e) => "Cannot mark ".to_owned().concat(t.path_of(i).display().as_str()).concat(": ").concat(e.as_str()),
            MarkOutcome::Marked => "Marked ".to_owned().concat(t.nodes[i].name.as_str()).concat(" (").concat(
                fmt_size(t.nodes[i].size).as_str(),
            ).concat(") — press c to review"),
        };
        self.say(msg);
        assert(self@ =~= do_mark(old(self)@, TreeView { nodes: t.nodes@, root: t.root_path@ }));
    }

    pub fn open_review(&mut self)
        ensures
            final(self)@ == do_open_review(old(self)@),
    {
        proof {
            assert(self@.nav.findings.len() == self.nav.report.findings@.len());
            assert(self@.nav.checked.len() == self.nav.checked@.len());
        }
        if self.nav.checked.len() > 0 || self.nav.marked.len() > 0 {
            self.modal = Modal::Review;
            return;
        }
        if self.tab == Tab::Prune && self.nav.prune_cursor < self.nav.report.findings.len() {
            let c: usize = self.nav.prune_cursor;
            assert(self@.nav.findings[c as int] == self.nav.report.findings@[c as int]@);
            if self.nav.report.findings[c].is_actionable() {
                let id = self.nav.report.findings[c].id.clone();
                self.nav.checked = vec![id.clone()];
                self.auto_checked = Some(id);
                self.modal = Modal::Review;
                proof {
                    assert(texts(self.nav.checked@) =~= seq![id@]);
                    assert(self@ =~= do_open_review(old(self)@));
                }
                return;
            }
        }
        self.say("Nothing selected — check items in Prune (Space) or mark tiles (Space/x)".to_owned());
    }

    pub fn cancel_review(&mut self)
        ensures
            final(self)@ == do_cancel_review(old(self)@),
    {
        if let Some(id) = &self.auto_checked {
            self.nav.checked = untick(&self.nav.checked, id);
        }
        self.auto_checked = None;
        self.modal = Modal::Closed;
        assert(self@ =~= do_cancel_review(old(self)@));
    }

    pub fn confirm_review(&mut self, t: Option<&Tree>, mode: RemoveMode)
        requires
            tree_ok(t),
            screen_ok(old(self)@, tree_view(t)),
        ensures
            final(self)@ == do_confirm(old(self)@, tree_view(t), mode),
            screen_ok(final(self)@, tree_view(t)),
    {
        self.auto_checked = None;
        if self.no_exec {
            self.say("Execution is disabled (--no-exec)".to_owned());
            return;
        }
        let findings = checked_findings(&self.nav.report.findings, &self.nav.checked);
        let marks: Vec<(FsPath, u64)> = match t {
            Some(t) => marked_paths(t, &self.nav.marked),
            None => Vec::new(),
        };
        assert(mark_views(marks@) =~= mark_list(tree_view(t), self@.nav.marked));
        self.modal = Modal::Closed;
        self.request = Some(ExecRequest { findings, marks, mode });
        assert(self@ =~= do_confirm(old(self)@, tree_view(t), mode));
    }

    pub fn set_tab(&mut self, t: Option<&Tree>, tab: Tab)
        requires
            tree_ok(t),
            screen_ok(old(self)@, tree_view(t)),
        ensures
            final(self)@ == do_set_tab(old(self)@, tree_view(t), tab),
            screen_ok(final(self)@, tree_view(t)),
    {
        self.tab = tab;
        if let Some(t) = t {
            match tab {
                Tab::Tiles => self.nav.sync_focus(t),
                Tab::Tree => {
                    let sel: usize = self.nav.sel;
                    reveal_node(t, &mut self.nav.expanded, sel);
                },
                Tab::Prune => {},
            }
        }
        assert(self@ =~= do_set_tab(old(self)@, tree_view(t), tab));
    }

    fn map_key(&mut self, t: &Tree, k: Key) -> (r: Effect)
        requires
            t.wf(),
            screen_ok(old(self)@, tree_view(Some(t))),
        ensures
            (final(self)@, r) == do_map_key(old(self)@, TreeView { nodes: t.nodes@, root: t.root_path@ }, k),
            screen_ok(final(self)@, tree_view(Some(t))),
    {
        if k == Key::Left || k == Key::Char('h') {
            return Effect::Move(Side::Left);
        }
        if k == Key::Right || k == Key::Char('l') {
            return Effect::Move(Side::Right);
        }
        if k == Key::Up || k == Key::Char('k') {
            return Effect::Move(Side::Up);
        }
        if k == Key::Down || k == Key::Char('j') {
            return Effect::Move(Side::Down);
        }
        if k == Key::Tab {
            self.nav.next_sibling(t);
        } else if k == Key::Enter {
            let sel: usize = self.nav.sel;
            self.nav.zoom_in(t, sel);
        } else if k == Key::Backspace || k == Key::Esc {
            self.nav.zoom_out(t);
        } else if k == Key::Char(' ') || k == Key::Char('x') {
            self.toggle_mark(t);
        } else if k == Key::Char('[') {
            self.nav.change_depth(false, MAX_DEPTH);
        } else if k == Key::Char(']') {
            self.nav.change_depth(true, MAX_DEPTH);
        } else if k == Key::Char('t') {
            self.set_tab(Some(t), Tab::Tree);
        }
        assert(self@ =~= do_map_key(old(self)@, TreeView { nodes: t.nodes@, root: t.root_path@ }, k).0);
        Effect::Nothing
    }

    fn tree_key(&mut self, t: &Tree, k: Key)
        requires
            t.wf(),
            screen_ok(old(self)@, tree_view(Some(t))),
        ensures
            final(self)@ == do_tree_key(old(self)@, TreeView { nodes: t.nodes@, root: t.root_path@ }, k),
            screen_ok(final(self)@, tree_view(Some(t))),
    {
        if k == Key::Up || k == Key::Char('k') {
            self.nav.row_move(t, RowMove::Up(1));
        } else if k == Key::Down || k == Key::Char('j') {
            self.nav.row_move(t, RowMove::Down(1));
        } else if k == Key::PageUp {
            self.nav.row_move(t, RowMove::Up(self.tree_page));
        } else if k == Key::PageDown {
            self.nav.row_move(t, RowMove::Down(self.tree_page));
        } else if k == Key::Home || k == Key::Char('g') {
            self.nav.row_move(t, RowMove::First);
        } else if k == Key::End || k == Key::Char('G') {
            self.nav.row_move(t, RowMove::Last);
        } else if k == Key::Right || k == Key::Char('l') {
            self.nav.open_row(t, false);
        } else if k == Key::Enter {
            self.nav.flip_row(t);
        } else if k == Key::Left || k == Key::Char('h') || k == Key::Backspace {
            self.nav.close_row(t, false);
        } else if k == Key::Char(' ') || k == Key::Char('x') {
            self.toggle_mark(t);
        } else if k == Key::Char('m') {
            self.nav.to_map(t);
            self.tab = Tab::Tiles;
        }
        assert(self@ =~= do_tree_key(old(self)@, TreeView { nodes: t.nodes@, root: t.root_path@ }, k));
    }

    fn toggle_finding(&mut self, i: usize)
        ensures
            final(self)@ == do_tick(old(self)@, i as int),
    {
        if self.nav.toggle_finding(i) == TickOutcome::Manual {
            self.say("Manual step only — see the details for what to do".to_owned());
        }
        assert(self@ =~= do_tick(old(self)@, i as int));
    }

    fn show_finding_in_tree(&mut self, t: Option<&Tree>)
        requires
            tree_ok(t),
            screen_ok(old(self)@, tree_view(t)),
        ensures
            final(self)@ == do_show(old(self)@, tree_view(t)),
            screen_ok(final(self)@, tree_view(t)),
    {
        assert(self@.nav.findings.len() == self.nav.report.findings@.len());
        if let Some(t) = t {
            if self.nav.prune_cursor < self.nav.report.findings.len() {
                match self.nav.cursor_node(t) {
                    Some(i) => {
                        self.nav.sel = i;
                        reveal_node(t, &mut self.nav.expanded, i);
                        self.tab = Tab::Tree;
                    },
                    None => self.say("That location is outside the scanned tree".to_owned()),
                }
            }
        }
        assert(self@ =~= do_show(old(self)@, tree_view(t)));
    }

    fn move_cursor(&mut self, up: bool, step: usize)
        requires
            old(self)@.nav.findings.len() > 0,
        ensures
            final(self)@ == cursor_moved(old(self)@, up, step as int),
    {
        assert(self@.nav.findings.len() == self.nav.report.findings@.len());
        let c: usize = self.nav.prune_cursor;
        let last: usize = self.nav.report.findings.len() - 1;
        self.nav.prune_cursor = if up {
            if c > step {
                c - step
            } else {
                0
            }
        } else if c < last && step < last - c {
            c + step
        } else {
            last
        };
        assert(self@ =~= cursor_moved(old(self)@, up, step as int));
    }

    #[verifier::rlimit(30)]
    fn prune_key(&mut self, t: Option<&Tree>, k: Key) -> (r: Effect)
        requires
            tree_ok(t),
            screen_ok(old(self)@, tree_view(t)),
        ensures
            (final(self)@, r) == do_prune_key(old(self)@, tree_view(t), k),
            screen_ok(final(self)@, tree_view(t)),
    {
        let len: usize = self.nav.report.findings.len();
        assert(self@.nav.findings.len() == len);
        if len == 0 {
            if k == Key::Char('r') {
                return self.reanalyze(t);
            }
            return Effect::Nothing;
        }
        if k == Key::Char('r') {
            return self.reanalyze(t);
        }
        if k == Key::Up || k == Key::Char('k') {
            self.move_cursor(true, 1);
        } else if k == Key::Down || k == Key::Char('j') {
            self.move_cursor(false, 1);
        } else if k == Key::PageUp {
            self.move_cursor(true, self.prune_page);
        } else if k == Key::PageDown {
            self.move_cursor(false, self.prune_page);
        } else if k == Key::Home || k == Key::Char('g') {
            self.nav.prune_cursor = 0;
        } else if k == Key::End || k == Key::Char('G') {
            self.nav.prune_cursor = len - 1;
        } else if k == Key::Char(' ') || k == Key::Char('x') {
            self.toggle_finding(self.nav.prune_cursor);
        } else if k == Key::Char('a') {
            self.nav.select_tier(Some(Risk::Safe));
        } else if k == Key::Char('A') {
            self.nav.select_tier(None);
        } else if k == Key::Char('n') {
            self.nav.checked = Vec::new();
            assert(texts(self.nav.checked@) =~= Seq::empty());
        } else if k == Key::Enter {
            self.open_review();
        } else if k == Key::Char('t') {
            self.show_finding_in_tree(t);
        }
        assert(self@ =~= do_prune_key(old(self)@, tree_view(t), k).0);
        Effect::Nothing
    }

    fn clear_all(&mut self)
        ensures
            final(self)@ == with_nav(old(self)@, NavView { marked: Seq::empty(), checked: Seq::empty(), ..old(self)@.nav }),
    {
        self.nav.marked = Vec::new();
        self.nav.checked = Vec::new();
        proof {
            assert(texts(self.nav.checked@) =~= Seq::empty());
            assert(self@ =~= with_nav(old(self)@, NavView { marked: Seq::empty(), checked: Seq::empty(), ..old(self)@.nav }));
        }
    }

    fn run_mode(&self) -> (r: RemoveMode)
        ensures
            r == default_mode(self@),
    {
        if self.trash_ok {
            RemoveMode::Trash
        } else {
            RemoveMode::Permanent
        }
    }

    fn review_key(&mut self, t: Option<&Tree>, k: Key)
        requires
            tree_ok(t),
            screen_ok(old(self)@, tree_view(t)),
        ensures
            final(self)@ == do_review_key(old(self)@, tree_view(t), k),
            screen_ok(final(self)@, tree_view(t)),
    {
        if k == Key::Char('y') || k == Key::Enter {
            let mode = self.run_mode();
            self.confirm_review(t, mode);
        } else if k == Key::Char('t') && self.trash_ok {
            self.confirm_review(t, RemoveMode::Trash);
        } else if k == Key::Char('p') {
            self.confirm_review(t, RemoveMode::Permanent);
        } else if k == Key::Char('!') {
            self.clear_all();
            self.modal = Modal::Closed;
            self.say("Unmarked everything".to_owned());
            assert(self@ =~= do_review_key(old(self)@, tree_view(t), k));
        } else {
            self.cancel_review();
        }
    }

    fn tab_key(&mut self, t: Option<&Tree>, k: Key) -> (r: Effect)
        requires
            tree_ok(t),
            screen_ok(old(self)@, tree_view(t)),
        ensures
            (final(self)@, r) == do_tab_key(old(self)@, tree_view(t), k),
            screen_ok(final(self)@, tree_view(t)),
            r != Effect::Rescan,
    {
        match self.tab {
            Tab::Tiles => match t {
                Some(t) => self.map_key(t, k),
                None => Effect::Nothing,
            },
            Tab::Tree => {
                if let Some(t) = t {
                    self.tree_key(t, k);
                }
                Effect::Nothing
            },
            Tab::Prune => self.prune_key(t, k),
        }
    }

    /// A key was pressed.
    #[verifier::rlimit(30)]
    pub fn on_key(&mut self, t: Option<&Tree>, k: Key, ctrl: bool) -> (r: Effect)
        requires
            tree_ok(t),
            screen_ok(old(self)@, tree_view(t)),
        ensures
            (final(self)@, r) == do_key(old(self)@, tree_view(t), k, ctrl),
            screen_ok(
                final(self)@,
                if r == Effect::Rescan {
                    None
                } else {
                    tree_view(t)
                },
            ),
    {
        if k == Key::Char('c') && ctrl {
            self.quit = true;
            return Effect::Nothing;
        }
        match self.modal {
            Modal::About => {
                self.modal = Modal::Closed;
                return Effect::Nothing;
            },
            Modal::Review => {
                self.review_key(t, k);
                return Effect::Nothing;
            },
            Modal::Closed => {},
        }
        if k == Key::Char('q') {
            self.quit = true;
        } else if k == Key::Char('?') {
            self.modal = Modal::About;
        } else if let Some(tab) = page_for(self.tab, k) {
            self.set_tab(t, tab);
        } else if k == Key::Char('R') {
            self.restart();
            self.say("Rescanning…".to_owned());
            return Effect::Rescan;
        } else if k == Key::Char('c') {
            self.open_review();
        } else {
            return self.tab_key(t, k);
        }
        Effect::Nothing
    }

    #[verifier::rlimit(30)]
    fn on_hit(&mut self, t: Option<&Tree>, h: Hit) -> (r: Effect)
        requires
            tree_ok(t),
            screen_ok(old(self)@, tree_view(t)),
            h matches Hit::Node(i) ==> (t matches Some(t) ==> i < t.nodes@.len()),
        ensures
            (final(self)@, r) == do_hit(old(self)@, tree_view(t), h),
            screen_ok(final(self)@, tree_view(t)),
    {
        match h {
            Hit::Tab(tab) => self.set_tab(t, tab),
            Hit::About => {
                self.modal = Modal::About;
            },
            Hit::Node(i) => {
                if self.nav.sel != i {
                    self.nav.sel = i;
                } else if let Some(t) = t {
                    if self.tab == Tab::Tiles {
                        self.nav.zoom_in(t, i);
                    } else {
                        self.tree_key(t, Key::Enter);
                    }
                }
            },
            Hit::Finding(i) => {
                if self.tab != Tab::Prune {
                    self.nav.prune_cursor = i;
                    self.tab = Tab::Prune;
                } else if self.nav.prune_cursor == i {
                    self.toggle_finding(i);
                } else {
                    self.nav.prune_cursor = i;
                }
            },
            Hit::Button(b) => match b {
                Btn::Toggle => self.toggle_finding(self.nav.prune_cursor),
                Btn::AllSafe => self.nav.select_tier(Some(Risk::Safe)),
                Btn::Clear => self.clear_all(),
                Btn::Review => self.open_review(),
                Btn::Reanalyze => return self.reanalyze(t),
                Btn::Run => {
                    let mode = self.run_mode();
                    self.confirm_review(t, mode);
                },
                Btn::RunPermanent => self.confirm_review(t, RemoveMode::Permanent),
                Btn::Cancel => self.cancel_review(),
            },
        }
        assert(self@ =~= do_hit(old(self)@, tree_view(t), h).0);
        Effect::Nothing
    }

    /// The left button was pressed on `h`.
    pub fn on_click(&mut self, t: Option<&Tree>, h: Option<Hit>) -> (r: Effect)
        requires
            tree_ok(t),
            screen_ok(old(self)@, tree_view(t)),
            h matches Some(Hit::Node(i)) ==> (t matches Some(t) ==> i < t.nodes@.len()),
        ensures
            (final(self)@, r) == do_click(old(self)@, tree_view(t), h),
            screen_ok(final(self)@, tree_view(t)),
    {
        if self.modal == Modal::About {
            self.modal = Modal::Closed;
            return Effect::Nothing;
        }
        match h {
            None => Effect::Nothing,
            Some(h) => {
                let button = match h {
                    Hit::Button(_) => true,
                    _ => false,
                };
                if self.modal == Modal::Review && !button {
                    return Effect::Nothing;
                }
                self.on_hit(t, h)
            },
        }
    }

    /// The mouse wheel was turned over `h`.
    pub fn on_scroll(&mut self, t: Option<&Tree>, h: Option<Hit>, up: bool) -> (r: Effect)
        requires
            tree_ok(t),
            screen_ok(old(self)@, tree_view(t)),
            h matches Some(Hit::Node(i)) ==> (t matches Some(t) ==> i < t.nodes@.len()),
        ensures
            (final(self)@, r) == do_scroll(old(self)@, tree_view(t), h, up),
            screen_ok(final(self)@, tree_view(t)),
    {
        if self.modal != Modal::Closed {
            return Effect::Nothing;
        }
        let k = if up {
            Key::Up
        } else {
            Key::Down
        };
        match self.tab {
            Tab::Tiles => {
                if let Some(t) = t {
                    if !up {
                        self.nav.zoom_out(t);
                    } else if let Some(Hit::Node(i)) = h {
                        if let Some(c) = find_towards(t, self.nav.focus, i) {
                            self.nav.zoom_in(t, c);
                        }
                    }
                }
                assert(self@ =~= do_scroll(old(self)@, tree_view(t), h, up).0);
                Effect::Nothing
            },
            Tab::Tree => {
                if let Some(t) = t {
                    self.tree_key(t, k);
                    self.tree_key(t, k);
                    self.tree_key(t, k);
                }
                Effect::Nothing
            },
            Tab::Prune => {
                self.prune_key(t, k);
                self.prune_key(t, k);
                self.prune_key(t, k)
            },
        }
    }

    /// A tree was scanned.
    pub fn tree_ready(&mut self, t: &Tree)
        requires
            t.wf(),
            screen_ok(old(self)@, None),
        ensures
            final(self)@ == with_nav(old(self)@, crate::nav::on_ready(old(self)@.nav, t.nodes@)),
            screen_ok(final(self)@, tree_view(Some(t))),
    {
        self.nav.tree_ready(t);
        assert(self@ =~= with_nav(old(self)@, crate::nav::on_ready(old(self)@.nav, t.nodes@)));
    }

    /// A cleanup is over: what was run is no longer ticked. If marked items went
    /// the numbers have to be read from the disk again.
    pub fn after_cleanup(&mut self, t: Option<&Tree>, done: &Vec<Finding>, removed: usize) -> (r: Effect)
        requires
            screen_ok(old(self)@, tree_view(t)),
        ensures
            (final(self)@, r) == do_after_cleanup(old(self)@, tree_view(t), finding_views(done@), removed as nat),
            screen_ok(
                final(self)@,
                if r == Effect::Rescan {
                    None
                } else {
                    tree_view(t)
                },
            ),
    {
        let ghost start = self@;
        let ghost dv = finding_views(done@);
        for i in 0..done.len()
            invariant
                dv == finding_views(done@),
                self@ == with_nav(start, NavView { checked: without_ids(start.nav.checked, dv.take(i as int)), ..start.nav }),
        {
            proof {
                assert(dv.take(i + 1).drop_last() =~= dv.take(i as int));
                assert(dv.take(i + 1).last() == done@[i as int]@);
            }
            self.nav.checked = untick(&self.nav.checked, &done[i].id);
            assert(self@ =~= with_nav(start, NavView { checked: without_ids(start.nav.checked, dv.take(i + 1)), ..start.nav }));
        }
        assert(dv.take(done@.len() as int) =~= dv);
        if removed > 0 {
            self.restart();
            self.say("Rescanning so the numbers match the disk…".to_owned());
            Effect::Rescan
        } else {
            let e = self.reanalyze(t);
            self.say("Re-analyzing…".to_owned());
            e
        }
    }
}

/// What the end of a cleanup comes to.
pub open spec fn do_after_cleanup(v: ScreenView, t: Option<TreeView>, done: Seq<FindingView>, removed: nat) -> (ScreenView, Effect) {
    let w = with_nav(v, NavView { checked: without_ids(v.nav.checked, done), ..v.nav });
    if removed > 0 {
        (flash(do_restart(w), "Rescanning so the numbers match the disk…"@), Effect::Rescan)
    } else {
        let (x, e) = do_reanalyze(w, t);
        (flash(x, "Re-analyzing…"@), e)
    }
}

/// `list` without the ids of the findings.
pub open spec fn without_ids(list: Seq<Seq<char>>, done: Seq<FindingView>) -> Seq<Seq<char>>
    decreases done.len(),
{
    if done.len() == 0 {
        list
    } else {
        without_id(without_ids(list, done.drop_last()), done.last().id)
    }
}

pub(crate) fn find_towards(t: &Tree, focus: usize, i: usize) -> (r: Option<usize>)
    requires
        t.wf(),
        i < t.nodes@.len(),
    ensures
        match r {
            Some(c) => child_towards(t.nodes@, focus as int, i as int) == Some(c as int) && c < t.nodes@.len(),
            None => child_towards(t.nodes@, focus as int, i as int) is None,
        },
{
    let ghost n = t.nodes@;
    let mut top: usize = i;
    loop
        invariant
            t.wf(),
            n == t.nodes@,
            top < n.len(),
            child_towards(n, focus as int, i as int) == child_towards(n, focus as int, top as int),
        decreases top,
    {
        proof {
            if top > 0 {
                assert(parent_ok(n, top as int));
            }
        }
        match t.nodes[top].parent {
            None => return None,
            Some(p) => {
                if p == focus {
                    return Some(top);
                }
                top = p;
            },
        }
    }
}

/// Nothing is ever run by a key press alone: only a confirmed review leads to a
/// cleanup, and not with execution disabled.
pub proof fn law_only_a_confirmed_review_runs(v: ScreenView, t: Option<TreeView>, k: Key, ctrl: bool)
    requires
        v.request is None,
        do_key(v, t, k, ctrl).0.request is Some,
    ensures
        v.modal == Modal::Review,
        !v.no_exec,
{
}

/// What runs is what was ticked and marked: nothing else.
pub proof fn law_what_runs_was_chosen(v: ScreenView, t: Option<TreeView>, k: Key, ctrl: bool)
    requires
        v.request is None,
        do_key(v, t, k, ctrl).0.request is Some,
    ensures
        ({
            let e = do_key(v, t, k, ctrl).0.request->0;
            &&& e.findings == ticked_findings(v.nav.findings, v.nav.checked)
            &&& e.marks == mark_list(t, v.nav.marked)
            &&& e.mode == RemoveMode::Trash ==> v.trash_ok
        }),
{
}

/// A click runs a cleanup only on a button that says so, not with execution
/// disabled, and then what was ticked and marked.
pub proof fn law_only_a_run_button_runs(v: ScreenView, t: Option<TreeView>, h: Option<Hit>)
    requires
        v.request is None,
        do_click(v, t, h).0.request is Some,
    ensures
        h == Some(Hit::Button(Btn::Run)) || h == Some(Hit::Button(Btn::RunPermanent)),
        !v.no_exec,
        ({
            let e = do_click(v, t, h).0.request->0;
            &&& e.findings == ticked_findings(v.nav.findings, v.nav.checked)
            &&& e.marks == mark_list(t, v.nav.marked)
            &&& e.mode == RemoveMode::Trash ==> v.trash_ok && h == Some(Hit::Button(Btn::Run))
        }),
{
}

/// The mouse wheel neither runs anything nor changes what is ticked or marked.
pub proof fn law_wheel_only_looks(v: ScreenView, t: Option<TreeView>, h: Option<Hit>, up: bool)
    ensures
        do_scroll(v, t, h, up).0.request == v.request,
        do_scroll(v, t, h, up).0.nav.checked == v.nav.checked,
        do_scroll(v, t, h, up).0.nav.marked == v.nav.marked,
{
}

/// A review opened on a finding that nobody ticked leaves no tick behind when
/// it is cancelled.
pub proof fn law_cancelled_review_leaves_no_tick(v: ScreenView)
    requires
        v.auto_checked is None,
        v.modal == Modal::Closed,
    ensures
        ({
            let w = do_open_review(v);
            w.modal == Modal::Review ==> do_cancel_review(w).nav.checked == v.nav.checked
        }),
{
    let w = do_open_review(v);
    if v.nav.checked.len() == 0 && v.nav.marked.len() == 0 && w.modal == Modal::Review {
        let id = w.auto_checked->0;
        assert(w.nav.checked =~= seq![id]);
        assert(seq![id].drop_last() =~= Seq::empty());
        assert(without_id(seq![id].drop_last(), id) =~= Seq::empty());
        assert(v.nav.checked =~= Seq::empty());
    }
}

/// What the keys of a review do: `y` and Enter carry it out, into the Trash where
/// there is one; `t` asks for the Trash, `p` for a permanent removal; `!` drops
/// every tick and mark; and any other key goes back.
pub proof fn law_review_keys(v: ScreenView, t: Option<TreeView>, k: Key)
    requires
        v.modal == Modal::Review,
    ensures
        ({
            let usual = if v.trash_ok { RemoveMode::Trash } else { RemoveMode::Permanent };
            let after = do_key(v, t, k, false).0;
            &&& k == Key::Char('y') || k == Key::Enter ==> after == do_confirm(v, t, usual)
            &&& k == Key::Char('t') && v.trash_ok ==> after == do_confirm(v, t, RemoveMode::Trash)
            &&& k == Key::Char('t') && !v.trash_ok ==> after.request == v.request && after.modal == Modal::Closed
            &&& k == Key::Char('p') ==> after == do_confirm(v, t, RemoveMode::Permanent)
            &&& k == Key::Char('!') ==> after.nav.marked.len() == 0 && after.nav.checked.len() == 0 && after.modal == Modal::Closed && after.request
                == v.request
            &&& k == Key::Esc || k == Key::Char('n') || k == Key::Char('q') || k == Key::Backspace ==> after == do_cancel_review(v)
        }),
{
}

/// A confirmed review asks for the ticked findings and the marked nodes, all of
/// them and in the way chosen; where nothing may be run it asks for nothing.
pub proof fn law_a_confirmed_review_asks_for_what_was_chosen(v: ScreenView, t: TreeView, mode: RemoveMode, f: FindingView, i: int)
    ensures
        v.no_exec ==> do_confirm(v, Some(t), mode).request == v.request && do_confirm(v, Some(t), mode).modal == v.modal,
        !v.no_exec ==> (do_confirm(v, Some(t), mode).request matches Some(r) && {
            &&& r.mode == mode
            &&& r.findings.contains(f) <==> v.nav.findings.contains(f) && v.nav.checked.contains(f.id)
            &&& r.marks.len() == v.nav.marked.len()
            &&& 0 <= i < v.nav.marked.len() ==> r.marks[i] == (
                path_at(t.nodes, t.root, v.nav.marked[i] as int),
                t.nodes[v.nav.marked[i] as int].size,
            )
        }),
{
    law_ticked_findings_are_carried_out(v.nav.findings, v.nav.checked, f);
}

/// A review opens as soon as something is ticked or marked; else, among the
/// suggestions, on the one under the cursor if it can be carried out; else not
/// at all.
pub proof fn law_when_a_review_opens(v: ScreenView)
    requires
        v.modal == Modal::Closed,
    ensures
        ({
            let after = do_open_review(v);
            let c = v.nav.prune_cursor;
            let chosen = v.nav.checked.len() > 0 || v.nav.marked.len() > 0;
            let pointed = v.tab == Tab::Prune && 0 <= c < v.nav.findings.len() && actionable(v.nav.findings[c].action, v.nav.findings[c].needs_root);
            &&& after.modal == Modal::Review <==> chosen || pointed
            &&& chosen ==> after.nav == v.nav
            &&& !chosen && pointed ==> after.nav.checked == seq![v.nav.findings[c].id] && after.auto_checked == Some(v.nav.findings[c].id)
            &&& !chosen && !pointed ==> after.nav == v.nav && after.status == Some(
                "Nothing selected — check items in Prune (Space) or mark tiles (Space/x)"@,
            )
            &&& after.request == v.request
        }),
{
}

/// The keys that work everywhere: the digits change the page, `?` tells about the
/// program, `R` scans again, `c` reviews, `q` and Ctrl-C leave.
pub proof fn law_keys_that_work_everywhere(v: ScreenView, t: Option<TreeView>)
    requires
        v.modal == Modal::Closed,
    ensures
        do_key(v, t, Key::Char('1'), false).0 == do_set_tab(v, t, Tab::Tiles),
        do_key(v, t, Key::Char('2'), false).0 == do_set_tab(v, t, Tab::Tree),
        do_key(v, t, Key::Char('3'), false).0 == do_set_tab(v, t, Tab::Prune),
        do_key(v, t, Key::Char('?'), false).0 == (ScreenView { modal: Modal::About, ..v }),
        do_key(v, t, Key::Char('c'), false).0 == do_open_review(v),
        do_key(v, t, Key::Char('q'), false).0 == (ScreenView { quit: true, ..v }),
        do_key(v, t, Key::Char('R'), false).1 == Effect::Rescan,
        do_key(v, t, Key::Char('R'), false).0.nav.marked.len() == 0,
        do_key(v, t, Key::Char('R'), false).0.nav.findings.len() == 0,
        do_set_tab(v, t, Tab::Tiles).tab == Tab::Tiles,
        do_set_tab(v, t, Tab::Tree).tab == Tab::Tree,
        do_set_tab(v, t, Tab::Prune).tab == Tab::Prune,
{
}

/// Ctrl-C leaves from anywhere, and any key closes the text about the program.
pub proof fn law_leaving(v: ScreenView, t: Option<TreeView>, k: Key)
    ensures
        do_key(v, t, Key::Char('c'), true).0 == (ScreenView { quit: true, ..v }),
        v.modal == Modal::About ==> do_key(v, t, k, false).0 == (ScreenView { modal: Modal::Closed, ..v }),
{
}

/// The keys of the suggestions: `a` ticks the safe ones, `A` all, `n` none, Space
/// the one under the cursor, Enter reviews, `r` analyses again.
pub proof fn law_keys_of_the_suggestions(v: ScreenView, t: Option<TreeView>, id: Seq<char>)
    requires
        v.modal == Modal::Closed,
        v.tab == Tab::Prune,
        v.nav.findings.len() > 0,
    ensures
        do_key(v, t, Key::Char('a'), false).0.nav.checked.contains(id) <==> v.nav.checked.contains(id) || exists|i: int|
            #![trigger v.nav.findings[i]]
            0 <= i < v.nav.findings.len() && v.nav.findings[i].id == id && actionable(v.nav.findings[i].action, v.nav.findings[i].needs_root)
                && v.nav.findings[i].risk == Risk::Safe,
        do_key(v, t, Key::Char('A'), false).0.nav.checked.contains(id) <==> v.nav.checked.contains(id) || exists|i: int|
            #![trigger v.nav.findings[i]]
            0 <= i < v.nav.findings.len() && v.nav.findings[i].id == id && actionable(v.nav.findings[i].action, v.nav.findings[i].needs_root),
        do_key(v, t, Key::Char('n'), false).0.nav.checked.len() == 0,
        do_key(v, t, Key::Char(' '), false).0 == do_tick(v, v.nav.prune_cursor),
        do_key(v, t, Key::Enter, false).0 == do_open_review(v),
        do_key(v, t, Key::Char('r'), false) == do_reanalyze(v, t),
        do_key(v, t, Key::Home, false).0.nav.prune_cursor == 0,
        do_key(v, t, Key::End, false).0.nav.prune_cursor == v.nav.findings.len() - 1,
{
    law_a_tier_is_ticked_whole(v.nav.checked, v.nav.findings, Some(Risk::Safe), id);
    law_a_tier_is_ticked_whole(v.nav.checked, v.nav.findings, None, id);
}

/// The cursor moves by the steps asked for, and stops at the first and the last
/// suggestion.
pub proof fn law_the_cursor_stops_at_the_ends(v: ScreenView, step: int)
    requires
        0 <= step,
        0 <= v.nav.prune_cursor < v.nav.findings.len(),
    ensures
        cursor_moved(v, true, step).nav.prune_cursor == (if v.nav.prune_cursor >= step { v.nav.prune_cursor - step } else { 0 }),
        cursor_moved(v, false, step).nav.prune_cursor == (if v.nav.prune_cursor + step < v.nav.findings.len() {
            v.nav.prune_cursor + step
        } else {
            v.nav.findings.len() - 1
        }),
{
}

/// The keys of the map: the arrows move, Enter and Backspace zoom, Space marks,
/// and the brackets draw fewer or more levels, from one to four.
pub proof fn law_keys_of_the_map(v: ScreenView, t: TreeView)
    requires
        v.modal == Modal::Closed,
        v.tab == Tab::Tiles,
        1 <= v.nav.map_depth <= 4,
    ensures
        do_key(v, Some(t), Key::Left, false) == (v, Effect::Move(Side::Left)),
        do_key(v, Some(t), Key::Right, false) == (v, Effect::Move(Side::Right)),
        do_key(v, Some(t), Key::Up, false) == (v, Effect::Move(Side::Up)),
        do_key(v, Some(t), Key::Down, false) == (v, Effect::Move(Side::Down)),
        do_key(v, Some(t), Key::Enter, false).0.nav == on_zoom_in(v.nav, t.nodes, v.nav.sel),
        do_key(v, Some(t), Key::Backspace, false).0.nav == on_zoom_out(v.nav, t.nodes),
        do_key(v, Some(t), Key::Char(' '), false).0 == do_mark(v, t),
        do_key(v, Some(t), Key::Char('['), false).0.nav.map_depth == (if v.nav.map_depth > 1 { v.nav.map_depth - 1 } else { 1 }),
        do_key(v, Some(t), Key::Char(']'), false).0.nav.map_depth == (if v.nav.map_depth < 4 { v.nav.map_depth + 1 } else { 4 }),
{
}

/// The keys of the tree: up and down go by one row, Right opens, Left closes,
/// Enter folds and unfolds, Space marks.
pub proof fn law_keys_of_the_tree(v: ScreenView, t: TreeView)
    requires
        v.modal == Modal::Closed,
        v.tab == Tab::Tree,
    ensures
        do_key(v, Some(t), Key::Up, false).0.nav == on_row_move(v.nav, t.nodes, RowMove::Up(1)),
        do_key(v, Some(t), Key::Down, false).0.nav == on_row_move(v.nav, t.nodes, RowMove::Down(1)),
        do_key(v, Some(t), Key::Home, false).0.nav == on_row_move(v.nav, t.nodes, RowMove::First),
        do_key(v, Some(t), Key::End, false).0.nav == on_row_move(v.nav, t.nodes, RowMove::Last),
        do_key(v, Some(t), Key::Right, false).0.nav == on_open(v.nav, t.nodes, false),
        do_key(v, Some(t), Key::Left, false).0.nav == on_close(v.nav, t.nodes, false),
        do_key(v, Some(t), Key::Enter, false).0.nav == on_flip(v.nav, t.nodes),
        do_key(v, Some(t), Key::Char(' '), false).0 == do_mark(v, t),
{
}

/// After a cleanup what was done is no longer ticked; what was removed asks for a
/// new scan, and anything else for a new analysis.
pub proof fn law_after_a_cleanup(v: ScreenView, t: TreeView, done: Seq<FindingView>, removed: nat, id: Seq<char>)
    ensures
        do_after_cleanup(v, Some(t), done, removed).0.nav.checked.contains(id) <==> v.nav.checked.contains(id) && forall|i: int|
            0 <= i < done.len() ==> (#[trigger] done[i]).id != id,
        removed > 0 ==> do_after_cleanup(v, Some(t), done, removed).1 == Effect::Rescan,
        removed == 0 ==> do_after_cleanup(v, Some(t), done, removed).1 == Effect::Reanalyze,
{
    lemma_without_ids(v.nav.checked, done, id);
}

proof fn lemma_without_ids(list: Seq<Seq<char>>, done: Seq<FindingView>, id: Seq<char>)
    ensures
        without_ids(list, done).contains(id) <==> list.contains(id) && forall|i: int| 0 <= i < done.len() ==> (#[trigger] done[i]).id != id,
    decreases done.len(),
{
    if done.len() > 0 {
        let front = done.drop_last();
        lemma_without_ids(list, front, id);
        law_ticks_change_one_at_a_time(without_ids(list, front), done.last().id, id);
        assert(done[done.len() - 1] == done.last());
        if without_ids(list, done).contains(id) {
            assert forall|i: int| 0 <= i < done.len() implies (#[trigger] done[i]).id != id by {
                if i < front.len() {
                    assert(front[i] == done[i]);
                }
            }
        }
        if forall|i: int| 0 <= i < done.len() ==> (#[trigger] done[i]).id != id {
            assert forall|i: int| 0 <= i < front.len() implies (#[trigger] front[i]).id != id by {
                assert(front[i] == done[i]);
            }
        }
    }
}

/// The wheel zooms into the child of the shown folder that holds what is pointed
/// at.
pub proof fn law_the_wheel_goes_towards_the_pointer(n: Seq<Node>, focus: int, i: int)
    requires
        is_tree(n),
        0 <= i < n.len(),
    ensures
        child_towards(n, focus, i) matches Some(c) ==> 0 <= c < n.len() && n[c].parent is Some && n[c].parent->0 == focus && holds(n, c, i),
        focus != i && holds(n, focus, i) ==> child_towards(n, focus, i) is Some,
    decreases i,
{
    if let Some(p) = n[i].parent {
        if i > 0 {
            assert(parent_ok(n, i));
        }
        if p != focus && p < i {
            law_the_wheel_goes_towards_the_pointer(n, focus, p as int);
            if let Some(c) = child_towards(n, focus, p as int) {
                assert(holds(n, c, i));
            }
        }
    }
}

} // verus!
