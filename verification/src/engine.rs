//! Background work shared by the front-ends: which results still count, and
//! which nodes of the tree the findings cover.

use vstd::prelude::*;

use crate::path::{comps, inside};
use crate::rules::{finding_views, CheckOutput, Finding, FindingView, Risk};
use crate::scanner::{
    holds, is_named, is_tree, law_find_inverts_path_of, law_found_node_has_the_path, lemma_trail_leads, located, parent_ok, path_at,
    trail, Node, NodeKind, Tree,
};
use crate::text::texts;

verus! {

/// Which runs of the scan and of the rules are the latest, and how many rule
/// groups (system checks, project artifacts) are still running.
pub struct Runs {
    pub scan: u64,
    pub rules: u64,
    pub pending: u8,
}

/// A new scan, with all rules.
pub open spec fn scan_started(r: Runs) -> Runs {
    Runs { scan: (r.scan + 1) as u64, rules: (r.rules + 1) as u64, pending: 2 }
}

/// A new run of the rules against the same tree.
pub open spec fn rules_started(r: Runs) -> Runs {
    Runs { rules: (r.rules + 1) as u64, pending: 2, ..r }
}

/// A rule group of `run` came to its end.
pub open spec fn group_done(r: Runs, run: u64) -> Runs {
    Runs {
        pending: if run == r.rules && r.pending > 0 {
            (r.pending - 1) as u8
        } else {
            r.pending
        },
        ..r
    }
}

impl Runs {
    pub fn new() -> (r: Self)
        ensures
            r == (Runs { scan: 0, rules: 0, pending: 0 }),
    {
        Runs { scan: 0, rules: 0, pending: 0 }
    }

    /// Scan the tree and run all rules. Results of earlier runs are discarded.
    pub fn start_scan(&mut self)
        requires
            old(self).scan < u64::MAX,
            old(self).rules < u64::MAX,
        ensures
            *final(self) == scan_started(*old(self)),
    {
        self.scan = self.scan + 1;
        self.rules = self.rules + 1;
        self.pending = 2;
    }

    /// Re-run the rules against an existing tree.
    pub fn reanalyze(&mut self)
        requires
            old(self).rules < u64::MAX,
        ensures
            *final(self) == rules_started(*old(self)),
    {
        self.rules = self.rules + 1;
        self.pending = 2;
    }

    /// Does a tree of this run count, or was it superseded?
    pub fn tree_counts(&self, run: u64) -> (r: bool)
        ensures
            r == (run == self.scan),
    {
        run == self.scan
    }

    /// Do findings of this run count? If so, one group less is running.
    pub fn rules_done(&mut self, run: u64) -> (r: bool)
        ensures
            r == (run == old(self).rules),
            *final(self) == group_done(*old(self), run),
    {
        if run != self.rules {
            return false;
        }
        if self.pending > 0 {
            self.pending = self.pending - 1;
        }
        true
    }
}

/// What happens to the runs.
pub enum Step {
    Scan,
    Reanalyze,
    Done(u64),
}

/// The runs after a series of steps.
pub open spec fn runs_after(r: Runs, steps: Seq<Step>) -> Runs
    decreases steps.len(),
{
    if steps.len() == 0 {
        r
    } else {
        let before = runs_after(r, steps.drop_last());
        match steps.last() {
            Step::Scan => scan_started(before),
            Step::Reanalyze => rules_started(before),
            Step::Done(run) => group_done(before, run),
        }
    }
}

/// Results of a run count only until the next one starts: whatever happens
/// afterwards, a tree counts no more once another scan was started, and findings
/// count no more once the rules were started again.
pub proof fn law_superseded_results_are_dropped(r: Runs, steps: Seq<Step>)
    requires
        r.scan + steps.len() <= u64::MAX,
        r.rules + steps.len() <= u64::MAX,
    ensures
        r.scan <= runs_after(r, steps).scan <= r.scan + steps.len(),
        r.rules <= runs_after(r, steps).rules <= r.rules + steps.len(),
        (exists|i: int| 0 <= i < steps.len() && #[trigger] steps[i] is Scan) ==> runs_after(r, steps).scan != r.scan,
        (exists|i: int| 0 <= i < steps.len() && !(#[trigger] steps[i] is Done)) ==> runs_after(r, steps).rules != r.rules,
    decreases steps.len(),
{
    if steps.len() > 0 {
        let rest = steps.drop_last();
        law_superseded_results_are_dropped(r, rest);
        if exists|i: int| 0 <= i < steps.len() && #[trigger] steps[i] is Scan {
            let i = choose|i: int| 0 <= i < steps.len() && #[trigger] steps[i] is Scan;
            if i < rest.len() {
                assert(rest[i] is Scan);
            }
        }
        if exists|i: int| 0 <= i < steps.len() && !(#[trigger] steps[i] is Done) {
            let i = choose|i: int| 0 <= i < steps.len() && !(#[trigger] steps[i] is Done);
            if i < rest.len() {
                assert(!(rest[i] is Done));
            }
        }
    }
}

/// The note for a run without root's rights.
pub open spec fn unprivileged() -> Seq<char> {
    "Running unprivileged: some system directories are unreadable, so system totals may be underestimated. Run with sudo for exact figures."@
}

/// All findings, one output after the other.
pub open spec fn all_findings(outs: Seq<CheckOutput>) -> Seq<FindingView>
    decreases outs.len(),
{
    if outs.len() == 0 {
        Seq::empty()
    } else {
        all_findings(outs.drop_last()) + finding_views(outs.last().findings@)
    }
}

/// All notes, one output after the other.
pub open spec fn all_notes(outs: Seq<CheckOutput>) -> Seq<Seq<char>>
    decreases outs.len(),
{
    if outs.len() == 0 {
        Seq::empty()
    } else {
        all_notes(outs.drop_last()) + texts(outs.last().notes@)
    }
}

/// The outputs of all checks as one.
pub fn combine_checks(outs: Vec<CheckOutput>, is_root: bool) -> (r: CheckOutput)
    ensures
        finding_views(r.findings@) == all_findings(outs@),
        texts(r.notes@) == all_notes(outs@) + if is_root {
            Seq::empty()
        } else {
            seq![unprivileged()]
        },
{
    let ghost all = outs@;
    let mut outs = outs;
    let mut rest: Vec<CheckOutput> = Vec::new();
    while outs.len() > 0
        invariant
            outs@ == all.take(outs@.len() as int),
            outs@.len() <= all.len(),
            rest@ == all.skip(outs@.len() as int).reverse(),
        decreases outs@.len(),
    {
        let ghost k = outs@.len() - 1;
        let x = outs.pop().unwrap();
        rest.push(x);
        assert(outs@ =~= all.take(k));
        assert(rest@ =~= all.skip(k).reverse());
    }
    let mut out = CheckOutput { findings: Vec::new(), notes: Vec::new() };
    proof {
        assert(rest@ =~= all.reverse());
        assert(finding_views(out.findings@) =~= Seq::empty());
        assert(texts(out.notes@) =~= Seq::empty());
        assert(all.take(0) =~= Seq::empty());
    }
    while rest.len() > 0
        invariant
            rest@.len() <= all.len(),
            rest@ == all.reverse().take(rest@.len() as int),
            finding_views(out.findings@) == all_findings(all.take(all.len() - rest@.len())),
            texts(out.notes@) == all_notes(all.take(all.len() - rest@.len())),
        decreases rest@.len(),
    {
        let ghost n = all.len() - rest@.len();
        let ghost (f0, n0) = (out.findings@, out.notes@);
        let mut x = rest.pop().unwrap();
        proof {
            assert(x == all[n]);
            assert(all.take(n + 1).drop_last() =~= all.take(n));
            assert(rest@ =~= all.reverse().take(rest@.len() as int));
        }
        let ghost (f1, n1) = (x.findings@, x.notes@);
        out.findings.append(&mut x.findings);
        out.notes.append(&mut x.notes);
        assert(finding_views(out.findings@) =~= finding_views(f0) + finding_views(f1));
        assert(texts(out.notes@) =~= texts(n0) + texts(n1));
    }
    assert(all.take(all.len() as int) =~= all);
    if !is_root {
        let ghost before = out.notes@;
        let s = "Running unprivileged: some system directories are unreadable, so system totals may be underestimated. Run with sudo for exact figures.".to_owned();
        out.notes.push(s);
        assert(texts(out.notes@) =~= texts(before) + seq![s@]);
    } else {
        assert(texts(out.notes@) =~= texts(out.notes@) + Seq::<Seq<char>>::empty());
    }
    out
}

/// Path `p` is that of node `i`.
pub open spec fn leads_to(nodes: Seq<Node>, root: Seq<u8>, p: Seq<u8>, i: int) -> bool {
    located(nodes, root, p) == Some(i)
}

/// One of the paths is that of node `i`.
pub open spec fn lists_node(nodes: Seq<Node>, root: Seq<u8>, paths: Seq<Seq<u8>>, i: int) -> bool {
    exists|k: int| 0 <= k < paths.len() && leads_to(nodes, root, #[trigger] paths[k], i)
}

/// The risk of the first finding that is exactly about node `i`.
pub open spec fn risk_at(nodes: Seq<Node>, root: Seq<u8>, list: Seq<FindingView>, i: int) -> Option<Risk>
    decreases list.len(),
{
    if list.len() == 0 {
        None
    } else {
        match risk_at(nodes, root, list.drop_last(), i) {
            Some(r) => Some(r),
            None => if lists_node(nodes, root, list.last().paths, i) {
                Some(list.last().risk)
            } else {
                None
            },
        }
    }
}

/// Node `i` is covered by a finding: one is about it or about a directory that
/// holds it.
pub open spec fn covered(nodes: Seq<Node>, root: Seq<u8>, list: Seq<FindingView>, i: int) -> bool {
    exists|a: int| 0 <= a < nodes.len() && risk_at(nodes, root, list, a) is Some && #[trigger] holds(nodes, a, i)
}

fn mark_paths(t: &Tree, f: &Finding, risks: &mut Vec<Option<Risk>>)
    requires
        t.wf(),
        old(risks)@.len() == t.nodes@.len(),
    ensures
        final(risks)@.len() == t.nodes@.len(),
        forall|i: int|
            0 <= i < t.nodes@.len() ==> #[trigger] final(risks)@[i] == (match old(risks)@[i] {
                Some(r) => Some(r),
                None => if lists_node(t.nodes@, t.root_path@, f@.paths, i) {
                    Some(f.risk)
                } else {
                    None
                },
            }),
{
    let ghost (n, root, paths) = (t.nodes@, t.root_path@, f@.paths);
    let ghost start = risks@;
    assert(paths.take(0) =~= Seq::empty());
    for k in 0..f.paths.len()
        invariant
            t.wf(),
            n == t.nodes@,
            root == t.root_path@,
            paths == f@.paths,
            start.len() == n.len(),
            risks@.len() == n.len(),
            forall|i: int|
                0 <= i < n.len() ==> #[trigger] risks@[i] == (match start[i] {
                    Some(r) => Some(r),
                    None => if lists_node(n, root, paths.take(k as int), i) {
                        Some(f.risk)
                    } else {
                        None
                    },
                }),
    {
        let ghost before = risks@;
        let found = t.find(&f.paths[k]);
        assert(paths[k as int] == f.paths@[k as int]@);
        if let Some(i) = found {
            if risks[i].is_none() {
                risks.set(i, Some(f.risk));
            }
        }
        proof {
            assert forall|i: int| 0 <= i < n.len() implies #[trigger] risks@[i] == (match start[i] {
                Some(r) => Some(r),
                None => if lists_node(n, root, paths.take(k + 1), i) {
                    Some(f.risk)
                } else {
                    None
                },
            }) by {
                assert(before[i] == (match start[i] {
                    Some(r) => Some(r),
                    None => if lists_node(n, root, paths.take(k as int), i) {
                        Some(f.risk)
                    } else {
                        None
                    },
                }));
                let (a, b) = (paths.take(k as int), paths.take(k + 1));
                if lists_node(n, root, a, i) {
                    let w = choose|w: int| 0 <= w < a.len() && leads_to(n, root, #[trigger] a[w], i);
                    assert(leads_to(n, root, b[w], i));
                }
                if lists_node(n, root, b, i) {
                    let w = choose|w: int| 0 <= w < b.len() && leads_to(n, root, #[trigger] b[w], i);
                    if w < k {
                        assert(leads_to(n, root, a[w], i));
                    }
                }
                if leads_to(n, root, paths[k as int], i) {
                    assert(leads_to(n, root, b[k as int], i));
                }
            }
        }
    }
    assert(paths.take(f.paths@.len() as int) =~= paths);
}

/// Which nodes can be had back (hatched) and, for those that are exactly a
/// finding, its risk. Only space covered by a finding is hatched: a name that
/// merely looks like a cache or build dir (kind colouring) is no promise that
/// it is safe.
pub fn overlays(t: &Tree, findings: &Vec<Finding>) -> (r: (Vec<bool>, Vec<Option<Risk>>))
    requires
        t.wf(),
    ensures
        r.0@.len() == t.nodes@.len(),
        r.1@.len() == t.nodes@.len(),
        forall|i: int|
            0 <= i < t.nodes@.len() ==> #[trigger] r.0@[i] == covered(t.nodes@, t.root_path@, finding_views(findings@), i),
        forall|i: int|
            0 <= i < t.nodes@.len() ==> #[trigger] r.1@[i] == risk_at(t.nodes@, t.root_path@, finding_views(findings@), i),
{
    let ghost (n, root, list) = (t.nodes@, t.root_path@, finding_views(findings@));
    let count: usize = t.nodes.len();
    let mut risks: Vec<Option<Risk>> = Vec::new();
    for i in 0..count
        invariant
            risks@.len() == i,
            forall|j: int| 0 <= j < i ==> #[trigger] risks@[j] is None,
    {
        risks.push(None);
    }
    for k in 0..findings.len()
        invariant
            t.wf(),
            n == t.nodes@,
            root == t.root_path@,
            list == finding_views(findings@),
            risks@.len() == n.len(),
            forall|i: int| 0 <= i < n.len() ==> #[trigger] risks@[i] == risk_at(n, root, list.take(k as int), i),
    {
        let ghost before = risks@;
        mark_paths(t, &findings[k], &mut risks);
        proof {
            assert(list.take(k + 1).drop_last() =~= list.take(k as int));
            assert(list.take(k + 1).last() == findings@[k as int]@);
            assert forall|i: int| 0 <= i < n.len() implies #[trigger] risks@[i] == risk_at(n, root, list.take(k + 1), i) by {
                assert(before[i] == risk_at(n, root, list.take(k as int), i));
            }
        }
    }
    assert(list.take(findings@.len() as int) =~= list);
    // Parents precede children in the arena: one pass propagates down.
    let mut reclaim: Vec<bool> = Vec::new();
    for i in 0..count
        invariant
            t.wf(),
            count == n.len(),
            n == t.nodes@,
            root == t.root_path@,
            risks@.len() == n.len(),
            forall|j: int| 0 <= j < n.len() ==> #[trigger] risks@[j] == risk_at(n, root, list, j),
            reclaim@.len() == i,
            forall|j: int| 0 <= j < i ==> #[trigger] reclaim@[j] == covered(n, root, list, j),
    {
        if i > 0 {
            assert(parent_ok(n, i as int));
        }
        let above = match t.nodes[i].parent {
            Some(p) => reclaim[p],
            None => false,
        };
        let own = risks[i].is_some();
        proof {
            lemma_covered(n, root, list, i as int);
        }
        reclaim.push(own || above);
    }
    (reclaim, risks)
}

proof fn lemma_covered(n: Seq<Node>, root: Seq<u8>, list: Seq<FindingView>, i: int)
    requires
        is_tree(n),
        0 <= i < n.len(),
    ensures
        covered(n, root, list, i) == (risk_at(n, root, list, i) is Some || match n[i].parent {
            Some(p) => covered(n, root, list, p as int),
            None => false,
        }),
{
    if i > 0 {
        assert(parent_ok(n, i));
    }
    if covered(n, root, list, i) {
        let a = choose|a: int| 0 <= a < n.len() && risk_at(n, root, list, a) is Some && #[trigger] holds(n, a, i);
        if a != i {
            let p = n[i].parent->0 as int;
            assert(holds(n, a, p));
        }
    }
    if risk_at(n, root, list, i) is Some {
        assert(holds(n, i, i));
    }
    if let Some(p) = n[i].parent {
        if covered(n, root, list, p as int) {
            let a = choose|a: int| 0 <= a < n.len() && risk_at(n, root, list, a) is Some && #[trigger] holds(n, a, p as int);
            assert(holds(n, a, i));
        }
    }
}

/// Without findings nothing is hatched.
pub proof fn law_no_findings_no_shading(nodes: Seq<Node>, root: Seq<u8>, i: int)
    ensures
        !covered(nodes, root, Seq::empty(), i),
{
}

/// A path of a finding that stands for a node of the tree holds path `p`.
pub open spec fn path_covers(nodes: Seq<Node>, root: Seq<u8>, list: Seq<FindingView>, p: Seq<u8>) -> bool {
    exists|k: int, m: int|
        0 <= k < list.len() && 0 <= m < list[k].paths.len() && located(nodes, root, #[trigger] list[k].paths[m]) is Some && inside(
            p,
            list[k].paths[m],
        )
}

/// Shading comes only from findings: a node is hatched exactly where its path
/// lies in one that a finding lists and that stands for a node of the tree.
pub proof fn law_shading_is_what_findings_list(nodes: Seq<Node>, root: Seq<u8>, list: Seq<FindingView>, i: int)
    requires
        is_tree(nodes),
        is_named(nodes),
        crate::path::absolute(root),
        0 <= i < nodes.len(),
        i == 0 || nodes[i].kind != NodeKind::Aggregate,
    ensures
        covered(nodes, root, list, i) == path_covers(nodes, root, list, path_at(nodes, root, i)),
{
    let p = path_at(nodes, root, i);
    lemma_trail_leads(nodes, root, i);
    if covered(nodes, root, list, i) {
        let a = choose|a: int|
            0 <= a < nodes.len() && risk_at(nodes, root, list, a) is Some && #[trigger] holds(nodes, a, i);
        lemma_risk_path(nodes, root, list, a);
        let (k, m) = choose|k: int, m: int|
            0 <= k < list.len() && 0 <= m < list[k].paths.len() && leads_to(nodes, root, #[trigger] list[k].paths[m], a);
        let q = list[k].paths[m];
        law_found_node_has_the_path(nodes, root, q);
        lemma_holds_trail(nodes, a, i);
        lemma_trail_leads(nodes, root, a);
        let n = comps(q).len() as int;
        assert(comps(p).subrange(0, n) =~= comps(q));
        assert(inside(p, q));
        assert(located(nodes, root, list[k].paths[m]) is Some);
    }
    if path_covers(nodes, root, list, p) {
        let (k, m) = choose|k: int, m: int|
            0 <= k < list.len() && 0 <= m < list[k].paths.len() && located(nodes, root, #[trigger] list[k].paths[m]) is Some
                && inside(p, list[k].paths[m]);
        let q = list[k].paths[m];
        law_found_node_has_the_path(nodes, root, q);
        let a = located(nodes, root, q)->0;
        let d = comps(q).len() - comps(root).len();
        assert(comps(root).is_prefix_of(comps(q)));
        let b = lemma_ancestor(nodes, i, d);
        lemma_trail_leads(nodes, root, b);
        law_find_inverts_path_of(nodes, root, b);
        assert(comps(path_at(nodes, root, b)) =~= comps(q));
        assert(a == b);
        assert(leads_to(nodes, root, list[k].paths[m], b));
        lemma_path_risk(nodes, root, list, k, m, b);
    }
}

proof fn lemma_risk_path(nodes: Seq<Node>, root: Seq<u8>, list: Seq<FindingView>, a: int)
    requires
        risk_at(nodes, root, list, a) is Some,
    ensures
        exists|k: int, m: int|
            0 <= k < list.len() && 0 <= m < list[k].paths.len() && leads_to(nodes, root, #[trigger] list[k].paths[m], a),
    decreases list.len(),
{
    if list.len() > 0 {
        let rest = list.drop_last();
        if risk_at(nodes, root, rest, a) is Some {
            lemma_risk_path(nodes, root, rest, a);
            let (k, m) = choose|k: int, m: int|
                0 <= k < rest.len() && 0 <= m < rest[k].paths.len() && leads_to(nodes, root, #[trigger] rest[k].paths[m], a);
            assert(list[k] == rest[k]);
            assert(leads_to(nodes, root, list[k].paths[m], a));
        } else {
            let paths = list.last().paths;
            let m = choose|m: int| 0 <= m < paths.len() && leads_to(nodes, root, #[trigger] paths[m], a);
            assert(leads_to(nodes, root, list[list.len() - 1].paths[m], a));
        }
    }
}

proof fn lemma_path_risk(nodes: Seq<Node>, root: Seq<u8>, list: Seq<FindingView>, k: int, m: int, a: int)
    requires
        0 <= k < list.len(),
        0 <= m < list[k].paths.len(),
        leads_to(nodes, root, list[k].paths[m], a),
    ensures
        risk_at(nodes, root, list, a) is Some,
    decreases list.len(),
{
    if k < list.len() - 1 {
        lemma_path_risk(nodes, root, list.drop_last(), k, m, a);
    } else {
        assert(lists_node(nodes, root, list.last().paths, a));
    }
}

/// The names on the way to a node begin with those on the way to one that
/// holds it.
proof fn lemma_holds_trail(nodes: Seq<Node>, a: int, i: int)
    requires
        is_tree(nodes),
        is_named(nodes),
        0 <= i < nodes.len(),
        i == 0 || nodes[i].kind != NodeKind::Aggregate,
        holds(nodes, a, i),
    ensures
        0 <= a < nodes.len(),
        a == 0 || nodes[a].kind != NodeKind::Aggregate,
        trail(nodes, a).len() <= trail(nodes, i).len(),
        trail(nodes, i).take(trail(nodes, a).len() as int) == trail(nodes, a),
    decreases i,
{
    if a == i {
        assert(trail(nodes, i).take(trail(nodes, i).len() as int) =~= trail(nodes, i));
    } else if i > 0 {
        assert(parent_ok(nodes, i));
        let p = nodes[i].parent->0 as int;
        assert(nodes[p].children@.contains(i as usize));
        lemma_holds_trail(nodes, a, p);
        assert(trail(nodes, i).take(trail(nodes, a).len() as int) =~= trail(nodes, p).take(trail(nodes, a).len() as int));
    }
}

/// The node `d` steps down the way to node `i`.
proof fn lemma_ancestor(nodes: Seq<Node>, i: int, d: int) -> (b: int)
    requires
        is_tree(nodes),
        is_named(nodes),
        0 <= i < nodes.len(),
        i == 0 || nodes[i].kind != NodeKind::Aggregate,
        0 <= d <= trail(nodes, i).len(),
    ensures
        0 <= b < nodes.len(),
        b == 0 || nodes[b].kind != NodeKind::Aggregate,
        holds(nodes, b, i),
        trail(nodes, b) == trail(nodes, i).take(d),
    decreases i,
{
    if d == trail(nodes, i).len() {
        assert(trail(nodes, i).take(d) =~= trail(nodes, i));
        i
    } else {
        assert(i > 0);
        assert(parent_ok(nodes, i));
        let p = nodes[i].parent->0 as int;
        assert(nodes[p].children@.contains(i as usize));
        let b = lemma_ancestor(nodes, p, d);
        assert(trail(nodes, i).take(d) =~= trail(nodes, p).take(d));
        b
    }
}

/// A group of rules that is done counts once, and only for the run that is under
/// way: both groups make the run complete.
pub proof fn law_a_run_is_complete_after_both_groups(r: Runs, run: u64)
    ensures
        rules_started(r).pending == 2,
        scan_started(r).pending == 2,
        run != r.rules ==> group_done(r, run) == r,
        r.pending > 0 ==> group_done(r, r.rules).pending == r.pending - 1,
        group_done(r, run).rules == r.rules && group_done(r, run).scan == r.scan,
        r.rules < u64::MAX ==> group_done(group_done(rules_started(r), (r.rules + 1) as u64), (r.rules + 1) as u64).pending == 0,
{
}

/// Every finding and every note of every check is in the report.
pub proof fn law_no_check_is_left_out(outs: Seq<CheckOutput>, i: int, f: FindingView, n: Seq<char>)
    requires
        0 <= i < outs.len(),
    ensures
        finding_views(outs[i].findings@).contains(f) ==> all_findings(outs).contains(f),
        texts(outs[i].notes@).contains(n) ==> all_notes(outs).contains(n),
    decreases outs.len(),
{
    let front = outs.drop_last();
    let (a, b) = (all_findings(front), finding_views(outs.last().findings@));
    let (c, d) = (all_notes(front), texts(outs.last().notes@));
    if i < outs.len() - 1 {
        law_no_check_is_left_out(front, i, f, n);
        if a.contains(f) {
            let w = choose|w: int| 0 <= w < a.len() && a[w] == f;
            assert((a + b)[w] == f);
        }
        if c.contains(n) {
            let w = choose|w: int| 0 <= w < c.len() && c[w] == n;
            assert((c + d)[w] == n);
        }
    } else {
        if b.contains(f) {
            let w = choose|w: int| 0 <= w < b.len() && b[w] == f;
            assert((a + b)[a.len() + w] == f);
        }
        if d.contains(n) {
            let w = choose|w: int| 0 <= w < d.len() && d[w] == n;
            assert((c + d)[c.len() + w] == n);
        }
    }
}

/// A node is shaded in the colour of the first finding that lists it.
pub proof fn law_the_first_finding_shades_a_node(nodes: Seq<Node>, root: Seq<u8>, list: Seq<FindingView>, i: int, k: int)
    requires
        0 <= k < list.len(),
        lists_node(nodes, root, list[k].paths, i),
        forall|j: int| 0 <= j < k ==> !lists_node(nodes, root, (#[trigger] list[j]).paths, i),
    ensures
        risk_at(nodes, root, list, i) == Some(list[k].risk),
    decreases list.len(),
{
    let front = list.drop_last();
    if k < list.len() - 1 {
        assert(front[k] == list[k]);
        assert forall|j: int| 0 <= j < k implies !lists_node(nodes, root, (#[trigger] front[j]).paths, i) by {
            assert(front[j] == list[j]);
        }
        law_the_first_finding_shades_a_node(nodes, root, front, i, k);
    } else {
        assert forall|j: int| 0 <= j < front.len() implies !lists_node(nodes, root, (#[trigger] front[j]).paths, i) by {
            assert(front[j] == list[j]);
        }
        lemma_unlisted(nodes, root, front, i);
    }
}

proof fn lemma_unlisted(nodes: Seq<Node>, root: Seq<u8>, list: Seq<FindingView>, i: int)
    requires
        forall|j: int| 0 <= j < list.len() ==> !lists_node(nodes, root, (#[trigger] list[j]).paths, i),
    ensures
        risk_at(nodes, root, list, i) is None,
    decreases list.len(),
{
    if list.len() > 0 {
        let front = list.drop_last();
        assert forall|j: int| 0 <= j < front.len() implies !lists_node(nodes, root, (#[trigger] front[j]).paths, i) by {
            assert(front[j] == list[j]);
        }
        lemma_unlisted(nodes, root, front, i);
        assert(!lists_node(nodes, root, list[list.len() - 1].paths, i));
    }
}

/// Unless it runs as root, the report says that totals may be too low.
pub proof fn law_a_run_without_root_says_so(outs: Vec<CheckOutput>, r: CheckOutput, root: CheckOutput)
    requires
        call_ensures(combine_checks, (outs, false), r),
        call_ensures(combine_checks, (outs, true), root),
    ensures
        finding_views(r.findings@) == all_findings(outs@),
        finding_views(root.findings@) == all_findings(outs@),
        texts(root.notes@) == all_notes(outs@),
        texts(r.notes@) == all_notes(outs@).push(
            "Running unprivileged: some system directories are unreadable, so system totals may be underestimated. Run with sudo for exact figures."@,
        ),
{
    let n = all_notes(outs@);
    assert(n + Seq::<Seq<char>>::empty() =~= n);
    assert(n + seq![unprivileged()] =~= n.push(unprivileged()));
}

} // verus!
