//! Recommendation engine: data model shared by all rule sets.

pub mod browsers;
pub mod dirs;
pub mod docker;
pub mod dpkg;
pub mod home;
pub mod kernels;
pub mod logs;
pub mod measure;
pub mod packages;
pub mod projects;
pub mod snaps;
pub mod tools;

use vstd::prelude::*;
use vstd::utf8::{decode_utf8_encode_utf8, encode_utf8, valid_utf8};

use crate::order::{arranged, sorted, Ranking};
use crate::path::{lossy_text, paths_view, FsPath};
use crate::text::{join, joined, law_joined_texts_follow_each_other, texts};
use crate::util::{law_quoted_word_is_the_text, quoted, shell_word, shq_path};

verus! {

/// Findings smaller than this are not worth showing.
pub const MIN_FINDING_BYTES: u64 = 1048576;

#[derive(Clone, Copy, Debug, PartialEq, Eq, PartialOrd, Ord, Hash, Structural)]
pub enum Risk {
    /// Pure caches: regenerated automatically, no data loss.
    Safe,
    /// System housekeeping: old logs, kernels, snap revisions.
    Moderate,
    /// Project build artifacts: rebuilding costs time.
    Caution,
}

/// The place of a tier in the list: the safest first.
pub open spec fn tier(r: Risk) -> int {
    match r {
        Risk::Safe => 0,
        Risk::Moderate => 1,
        Risk::Caution => 2,
    }
}

impl Risk {
    pub const ALL: [Risk; 3] = [Risk::Safe, Risk::Moderate, Risk::Caution];

    pub fn label(self) -> (r: &'static str)
        ensures
            r@ == (match self {
                Risk::Safe => "SAFE"@,
                Risk::Moderate => "MODERATE"@,
                Risk::Caution => "CAUTION"@,
            }),
    {
        match self {
            Risk::Safe => "SAFE",
            Risk::Moderate => "MODERATE",
            Risk::Caution => "CAUTION",
        }
    }

    fn rank(self) -> (r: u8)
        ensures
            r == tier(self),
    {
        match self {
            Risk::Safe => 0,
            Risk::Moderate => 1,
            Risk::Caution => 2,
        }
    }
}

/// What a cleanup would do. Nothing runs unless the user confirms it.
#[derive(Debug)]
pub enum Action {
    /// A shell command, shown verbatim to the user (may contain `sudo`).
    Shell { command: String },
    /// Delete these paths. With `keep_dir`, only the directories' contents go.
    Remove { paths: Vec<FsPath>, keep_dir: bool },
    /// Informational only; nothing to execute.
    Manual,
}

#[verifier::ext_equal]
pub enum ActionView {
    Shell { command: Seq<char> },
    Remove { paths: Seq<Seq<u8>>, keep_dir: bool },
    Manual,
}

impl View for Action {
    type V = ActionView;

    open spec fn view(&self) -> ActionView {
        match self {
            Action::Shell { command } => ActionView::Shell { command: command@ },
            Action::Remove { paths, keep_dir } => ActionView::Remove {
                paths: paths_view(paths@),
                keep_dir: *keep_dir,
            },
            Action::Manual => ActionView::Manual,
        }
    }
}

#[derive(Debug)]
pub struct Finding {
    /// Stable identifier (survives re-analysis, used for selection).
    pub id: String,
    pub category: String,
    pub title: String,
    pub risk: Risk,
    /// Bytes that the action is expected to free.
    pub bytes: u64,
    pub detail: String,
    /// Locations involved (for display and tree tagging).
    pub paths: Vec<FsPath>,
    pub action: Action,
    pub needs_root: bool,
}

#[verifier::ext_equal]
pub struct FindingView {
    pub id: Seq<char>,
    pub category: Seq<char>,
    pub title: Seq<char>,
    pub risk: Risk,
    pub bytes: u64,
    pub detail: Seq<char>,
    pub paths: Seq<Seq<u8>>,
    pub action: ActionView,
    pub needs_root: bool,
}

impl View for Finding {
    type V = FindingView;

    open spec fn view(&self) -> FindingView {
        FindingView {
            id: self.id@,
            category: self.category@,
            title: self.title@,
            risk: self.risk,
            bytes: self.bytes,
            detail: self.detail@,
            paths: paths_view(self.paths@),
            action: self.action@,
            needs_root: self.needs_root,
        }
    }
}

/// The views of a list of findings.
pub open spec fn finding_views(v: Seq<Finding>) -> Seq<FindingView> {
    Seq::new(v.len(), |i: int| v[i]@)
}

/// Copy of a list of paths.
pub fn copy_paths(v: &Vec<FsPath>) -> (r: Vec<FsPath>)
    ensures
        paths_view(r@) == paths_view(v@),
        r@.len() == v@.len(),
        forall|i: int| 0 <= i < v@.len() ==> #[trigger] r@[i]@ == v@[i]@,
{
    let mut out: Vec<FsPath> = Vec::new();
    for i in 0..v.len()
        invariant
            out@.len() == i,
            forall|j: int| 0 <= j < i ==> #[trigger] out@[j]@ == v@[j]@,
    {
        out.push(v[i].clone());
    }
    assert(paths_view(out@) =~= paths_view(v@));
    out
}

impl Clone for Action {
    fn clone(&self) -> (r: Self)
        ensures
            r@ == self@,
    {
        match self {
            Action::Shell { command } => Action::Shell { command: command.clone() },
            Action::Remove { paths, keep_dir } => Action::Remove { paths: copy_paths(paths), keep_dir: *keep_dir },
            Action::Manual => Action::Manual,
        }
    }
}

impl Clone for Finding {
    fn clone(&self) -> (r: Self)
        ensures
            r@ == self@,
    {
        Finding {
            id: self.id.clone(),
            category: self.category.clone(),
            title: self.title.clone(),
            risk: self.risk,
            bytes: self.bytes,
            detail: self.detail.clone(),
            paths: copy_paths(&self.paths),
            action: self.action.clone(),
            needs_root: self.needs_root,
        }
    }
}

/// Every path can be written as text.
pub open spec fn all_utf8(paths: Seq<Seq<u8>>) -> bool {
    forall|i: int| 0 <= i < paths.len() ==> valid_utf8(#[trigger] paths[i])
}

pub(crate) fn only_utf8(v: &Vec<FsPath>) -> (r: bool)
    ensures
        r == all_utf8(paths_view(v@)),
{
    for i in 0..v.len()
        invariant
            forall|j: int| 0 <= j < i ==> valid_utf8(#[trigger] paths_view(v@)[j]),
    {
        if v[i].to_str().is_none() {
            assert(!valid_utf8(paths_view(v@)[i as int]));
            return false;
        }
    }
    true
}

/// The shell words for a list of paths.
pub open spec fn path_words(paths: Seq<Seq<u8>>) -> Seq<Seq<char>> {
    Seq::new(paths.len(), |i: int| quoted(lossy_text(paths[i])))
}

pub(crate) fn quote_paths(v: &Vec<FsPath>) -> (r: Vec<String>)
    ensures
        texts(r@) == path_words(paths_view(v@)),
{
    let mut out: Vec<String> = Vec::new();
    for i in 0..v.len()
        invariant
            texts(out@) == path_words(paths_view(v@)).take(i as int),
    {
        let ghost before = out@;
        let w = shq_path(&v[i]);
        out.push(w);
        assert(texts(out@) =~= texts(before).push(w@));
        assert(texts(out@) =~= path_words(paths_view(v@)).take(i + 1));
    }
    assert(texts(out@) =~= path_words(paths_view(v@)));
    out
}

/// The commands that empty each of the given directories.
pub open spec fn emptying(paths: Seq<Seq<u8>>, sudo: Seq<char>) -> Seq<Seq<char>> {
    Seq::new(paths.len(), |i: int| sudo + "find "@ + quoted(lossy_text(paths[i])) + " -xdev -mindepth 1 -delete"@)
}

fn empty_commands(v: &Vec<FsPath>, sudo: &str) -> (r: Vec<String>)
    ensures
        texts(r@) == emptying(paths_view(v@), sudo@),
{
    let mut out: Vec<String> = Vec::new();
    for i in 0..v.len()
        invariant
            texts(out@) == emptying(paths_view(v@), sudo@).take(i as int),
    {
        let ghost before = out@;
        let w = sudo.to_owned().concat("find ").concat(shq_path(&v[i]).as_str()).concat(" -xdev -mindepth 1 -delete");
        out.push(w);
        assert(texts(out@) =~= texts(before).push(w@));
        assert(texts(out@) =~= emptying(paths_view(v@), sudo@).take(i + 1));
    }
    assert(texts(out@) =~= emptying(paths_view(v@), sudo@));
    out
}

/// The shell text of an action.
pub open spec fn command_of(a: ActionView, needs_root: bool) -> Seq<char> {
    let sudo = if needs_root { "sudo "@ } else { ""@ };
    match a {
        ActionView::Shell { command } => command,
        ActionView::Manual => "(no automatic command — see details)"@,
        ActionView::Remove { paths, keep_dir } => if !all_utf8(paths) {
            "(a path is not valid UTF-8 and has no exact shell form — it is removed in-process by this app)"@
        } else if keep_dir {
            join(emptying(paths, sudo), " && "@)
        } else {
            sudo + "rm -rf --one-file-system -- "@ + join(path_words(paths), " "@)
        },
    }
}

/// Can the app carry an action out? Root removals run as shell text, which
/// cannot name a path that is not valid UTF-8.
pub open spec fn actionable(a: ActionView, needs_root: bool) -> bool {
    match a {
        ActionView::Manual => false,
        ActionView::Remove { paths, .. } => !needs_root || all_utf8(paths),
        ActionView::Shell { .. } => true,
    }
}

impl Finding {
    /// Exact shell equivalent of the action, suitable for copy & paste.
    pub fn command_text(&self) -> (r: String)
        ensures
            r@ == command_of(self.action@, self.needs_root),
    {
        match &self.action {
            Action::Shell { command } => command.clone(),
            Action::Remove { paths, keep_dir } => {
                if !only_utf8(paths) {
                    // A lossy rendering would name a different (look-alike) path.
                    return "(a path is not valid UTF-8 and has no exact shell form — it is removed in-process by this app)".to_owned();
                }
                let sudo = if self.needs_root { "sudo " } else { "" };
                if *keep_dir {
                    joined(&empty_commands(paths, sudo), " && ")
                } else {
                    sudo.to_owned().concat("rm -rf --one-file-system -- ").concat(joined(&quote_paths(paths), " ").as_str())
                }
            },
            Action::Manual => "(no automatic command — see details)".to_owned(),
        }
    }

    pub fn is_actionable(&self) -> (r: bool)
        ensures
            r == actionable(self.action@, self.needs_root),
    {
        match &self.action {
            Action::Manual => false,
            Action::Remove { paths, .. } => !self.needs_root || only_utf8(paths),
            Action::Shell { .. } => true,
        }
    }
}

/// Output of one check.
pub struct CheckOutput {
    pub findings: Vec<Finding>,
    pub notes: Vec<String>,
}

impl Default for CheckOutput {
    fn default() -> (r: Self)
        ensures
            r.findings@.len() == 0,
            r.notes@.len() == 0,
    {
        CheckOutput { findings: Vec::new(), notes: Vec::new() }
    }
}

impl CheckOutput {
    pub fn one(f: Finding) -> (r: Self)
        ensures
            r.findings@ == seq![f],
            r.notes@.len() == 0,
    {
        let mut findings: Vec<Finding> = Vec::new();
        findings.push(f);
        assert(findings@ =~= seq![f]);
        Self { findings, notes: Vec::new() }
    }

    pub fn note(n: String) -> (r: Self)
        ensures
            r.findings@.len() == 0,
            r.notes@ == seq![n],
    {
        let mut notes: Vec<String> = Vec::new();
        notes.push(n);
        assert(notes@ =~= seq![n]);
        Self { findings: Vec::new(), notes }
    }

    pub fn extend(&mut self, other: CheckOutput)
        ensures
            final(self).findings@ == old(self).findings@ + other.findings@,
            final(self).notes@ == old(self).notes@ + other.notes@,
    {
        let mut other = other;
        self.findings.append(&mut other.findings);
        self.notes.append(&mut other.notes);
    }
}

pub struct Report {
    pub findings: Vec<Finding>,
    pub notes: Vec<String>,
}

impl Default for Report {
    fn default() -> (r: Self)
        ensures
            r.findings@.len() == 0,
            r.notes@.len() == 0,
    {
        Report { findings: Vec::new(), notes: Vec::new() }
    }
}

/// An id that `list` holds.
pub open spec fn has_id(list: Seq<FindingView>, id: Seq<char>) -> bool {
    exists|i: int| 0 <= i < list.len() && (#[trigger] list[i]).id == id
}

/// `list` with the findings of `new` that are large enough and whose id it
/// does not hold yet, in turn.
pub open spec fn accepted(list: Seq<FindingView>, new: Seq<FindingView>) -> Seq<FindingView>
    decreases new.len(),
{
    if new.len() == 0 {
        list
    } else {
        let so_far = accepted(list, new.drop_last());
        let f = new.last();
        if f.bytes < MIN_FINDING_BYTES || has_id(so_far, f.id) {
            so_far
        } else {
            so_far.push(f)
        }
    }
}

/// `list` with the notes of `new` that it does not hold yet, in turn.
pub open spec fn noted(list: Seq<Seq<char>>, new: Seq<Seq<char>>) -> Seq<Seq<char>>
    decreases new.len(),
{
    if new.len() == 0 {
        list
    } else {
        let so_far = noted(list, new.drop_last());
        if so_far.contains(new.last()) {
            so_far
        } else {
            so_far.push(new.last())
        }
    }
}

/// The order of the report: by tier, then the largest first, then as found.
pub open spec fn listed_before(list: Seq<FindingView>, i: int, j: int) -> bool {
    let (a, b) = (list[i], list[j]);
    ||| tier(a.risk) < tier(b.risk)
    ||| tier(a.risk) == tier(b.risk) && a.bytes > b.bytes
    ||| tier(a.risk) == tier(b.risk) && a.bytes == b.bytes && i < j
}

/// `o` lists the positions of `list` in the report's order.
pub open spec fn report_order(list: Seq<FindingView>, o: Seq<usize>) -> bool {
    &&& o.len() == list.len()
    &&& forall|i: int| 0 <= i < o.len() ==> (#[trigger] o[i]) < list.len()
    &&& forall|i: int, j: int| 0 <= i < j < o.len() ==> listed_before(list, #[trigger] o[i] as int, #[trigger] o[j] as int)
    &&& forall|k: usize| k < list.len() ==> #[trigger] o.contains(k)
}

/// `list` is `kept` in the report's order.
pub open spec fn sorted_from(kept: Seq<FindingView>, list: Seq<FindingView>) -> bool {
    exists|o: Seq<usize>| #[trigger] report_order(kept, o) && list == arranged(kept, o)
}

struct ByTier<'a> {
    list: &'a Vec<Finding>,
}

impl<'a> Ranking for ByTier<'a> {
    closed spec fn size(&self) -> nat {
        self.list@.len()
    }

    closed spec fn before(&self, i: int, j: int) -> bool {
        listed_before(finding_views(self.list@), i, j)
    }

    proof fn irreflexive(&self, i: int) {
    }

    proof fn transitive(&self, i: int, j: int, k: int) {
    }

    proof fn total(&self, i: int, j: int) {
    }

    fn precedes(&self, i: usize, j: usize) -> (r: bool) {
        let a = &self.list[i];
        let b = &self.list[j];
        let (ra, rb) = (a.risk.rank(), b.risk.rank());
        assert(finding_views(self.list@)[i as int] == a@);
        assert(finding_views(self.list@)[j as int] == b@);
        ra < rb || (ra == rb && (a.bytes > b.bytes || (a.bytes == b.bytes && i < j)))
    }
}

pub(crate) fn knows_id(list: &Vec<Finding>, id: &String) -> (r: bool)
    ensures
        r == has_id(finding_views(list@), id@),
{
    for i in 0..list.len()
        invariant
            forall|j: int| 0 <= j < i ==> (#[trigger] finding_views(list@)[j]).id != id@,
    {
        if list[i].id == *id {
            assert(finding_views(list@)[i as int].id == id@);
            return true;
        }
        assert(finding_views(list@)[i as int].id != id@);
    }
    false
}

pub(crate) fn knows_text(list: &Vec<String>, t: &String) -> (r: bool)
    ensures
        r == texts(list@).contains(t@),
{
    for i in 0..list.len()
        invariant
            forall|j: int| 0 <= j < i ==> texts(list@)[j] != t@,
    {
        if list[i] == *t {
            assert(texts(list@)[i as int] == t@);
            return true;
        }
        assert(texts(list@)[i as int] != t@);
    }
    false
}

/// All bytes of a list of findings.
pub open spec fn sum_bytes(list: Seq<FindingView>) -> nat
    decreases list.len(),
{
    if list.len() == 0 {
        0
    } else {
        sum_bytes(list.drop_last()) + list.last().bytes as nat
    }
}

/// All bytes of the findings of one tier.
pub open spec fn sum_tier(list: Seq<FindingView>, risk: Risk) -> nat
    decreases list.len(),
{
    if list.len() == 0 {
        0
    } else {
        sum_tier(list.drop_last(), risk) + if list.last().risk == risk {
            list.last().bytes as nat
        } else {
            0
        }
    }
}

proof fn lemma_tier_grows(list: Seq<FindingView>, risk: Risk, k: int)
    requires
        0 <= k <= list.len(),
    ensures
        sum_tier(list.take(k), risk) <= sum_tier(list, risk),
        sum_bytes(list.take(k)) <= sum_bytes(list),
    decreases list.len(),
{
    if k < list.len() {
        assert(list.drop_last().take(k) =~= list.take(k));
        lemma_tier_grows(list.drop_last(), risk, k);
    } else {
        assert(list.take(k) =~= list);
    }
}

impl Report {
    /// The findings as values.
    pub open spec fn list(&self) -> Seq<FindingView> {
        finding_views(self.findings@)
    }

    /// Take over the findings of one check: those of at least
    /// `MIN_FINDING_BYTES` whose id is new (the first one wins), and the notes
    /// that are new. The report is then sorted by tier and size.
    pub fn merge(&mut self, out: CheckOutput)
        ensures
            sorted_from(accepted(old(self).list(), finding_views(out.findings@)), final(self).list()),
            texts(final(self).notes@) == noted(texts(old(self).notes@), texts(out.notes@)),
    {
        let ghost start = self.list();
        let ghost new = finding_views(out.findings@);
        for i in 0..out.findings.len()
            invariant
                new == finding_views(out.findings@),
                self.list() == accepted(start, new.take(i as int)),
                self.notes@ == old(self).notes@,
        {
            let f = &out.findings[i];
            proof {
                assert(new.take(i + 1).drop_last() =~= new.take(i as int));
                assert(new.take(i + 1).last() == f@);
            }
            let ghost before = self.findings@;
            if f.bytes >= MIN_FINDING_BYTES && !knows_id(&self.findings, &f.id) {
                let c = f.clone();
                self.findings.push(c);
                assert(finding_views(self.findings@) =~= finding_views(before).push(f@));
            }
        }
        assert(new.take(new.len() as int) =~= new);
        let ghost kept = self.list();
        let ghost notes = texts(self.notes@);
        let ghost more = texts(out.notes@);
        for i in 0..out.notes.len()
            invariant
                more == texts(out.notes@),
                texts(self.notes@) == noted(notes, more.take(i as int)),
                self.list() == kept,
        {
            proof {
                assert(more.take(i + 1).drop_last() =~= more.take(i as int));
                assert(more.take(i + 1).last() == out.notes@[i as int]@);
            }
            let ghost before = self.notes@;
            if !knows_text(&self.notes, &out.notes[i]) {
                let n = out.notes[i].clone();
                self.notes.push(n);
                assert(texts(self.notes@) =~= texts(before).push(n@));
            }
        }
        assert(more.take(more.len() as int) =~= more);
        let ranking = ByTier { list: &self.findings };
        let o = sorted(&ranking, self.findings.len());
        assert(report_order(kept, o@));
        let mut list: Vec<Finding> = Vec::new();
        for i in 0..o.len()
            invariant
                report_order(kept, o@),
                self.list() == kept,
                finding_views(list@) == arranged(kept, o@).take(i as int),
        {
            let ghost before = list@;
            let f = self.findings[o[i]].clone();
            list.push(f);
            assert(kept[o@[i as int] as int] == self.findings@[o@[i as int] as int]@);
            assert(finding_views(list@) =~= finding_views(before).push(f@));
            assert(finding_views(list@) =~= arranged(kept, o@).take(i + 1));
        }
        assert(arranged(kept, o@).take(o@.len() as int) =~= arranged(kept, o@));
        self.findings = list;
    }

    pub fn total(&self, risk: Risk) -> (r: u64)
        requires
            sum_tier(self.list(), risk) <= u64::MAX,
        ensures
            r == sum_tier(self.list(), risk),
    {
        let mut sum: u64 = 0;
        for i in 0..self.findings.len()
            invariant
                sum == sum_tier(self.list().take(i as int), risk),
                sum_tier(self.list(), risk) <= u64::MAX,
        {
            proof {
                assert(self.list().take(i + 1).drop_last() =~= self.list().take(i as int));
                lemma_tier_grows(self.list(), risk, i + 1);
            }
            if self.findings[i].risk == risk {
                sum += self.findings[i].bytes;
            }
        }
        assert(self.list().take(self.findings@.len() as int) =~= self.list());
        sum
    }

    pub fn grand_total(&self) -> (r: u64)
        requires
            sum_bytes(self.list()) <= u64::MAX,
        ensures
            r == sum_bytes(self.list()),
    {
        let mut sum: u64 = 0;
        for i in 0..self.findings.len()
            invariant
                sum == sum_bytes(self.list().take(i as int)),
                sum_bytes(self.list()) <= u64::MAX,
        {
            proof {
                assert(self.list().take(i + 1).drop_last() =~= self.list().take(i as int));
                lemma_tier_grows(self.list(), Risk::Safe, i + 1);
            }
            sum += self.findings[i].bytes;
        }
        assert(self.list().take(self.findings@.len() as int) =~= self.list());
        sum
    }
}

/// No two findings share an id, and each frees enough to be worth it.
pub open spec fn distinct(list: Seq<FindingView>) -> bool {
    &&& forall|i: int, j: int| 0 <= i < j < list.len() ==> (#[trigger] list[i]).id != (#[trigger] list[j]).id
    &&& forall|i: int| 0 <= i < list.len() ==> (#[trigger] list[i]).bytes >= MIN_FINDING_BYTES
}

proof fn lemma_accepted_distinct(list: Seq<FindingView>, new: Seq<FindingView>)
    requires
        distinct(list),
    ensures
        distinct(accepted(list, new)),
    decreases new.len(),
{
    if new.len() > 0 {
        lemma_accepted_distinct(list, new.drop_last());
    }
}

/// A merged report holds each id once and nothing that frees too little, however
/// many checks report.
pub proof fn law_merge_keeps_ids_distinct(before: Seq<FindingView>, new: Seq<FindingView>, after: Seq<FindingView>)
    requires
        distinct(before),
        sorted_from(accepted(before, new), after),
    ensures
        distinct(after),
{
    let kept = accepted(before, new);
    lemma_accepted_distinct(before, new);
    let o = choose|o: Seq<usize>| #[trigger] report_order(kept, o) && after == arranged(kept, o);
    assert forall|i: int, j: int| 0 <= i < j < after.len() implies (#[trigger] after[i]).id != (#[trigger] after[j]).id by {
        assert(after[i] == kept[o[i] as int]);
        assert(after[j] == kept[o[j] as int]);
        assert(listed_before(kept, o[i] as int, o[j] as int));
        let (x, y) = (o[i] as int, o[j] as int);
        if x < y {
            assert(kept[x].id != kept[y].id);
        } else if y < x {
            assert(kept[y].id != kept[x].id);
        }
    }
    assert forall|i: int| 0 <= i < after.len() implies (#[trigger] after[i]).bytes >= MIN_FINDING_BYTES by {
        assert(after[i] == kept[o[i] as int]);
    }
}

proof fn lemma_all_known(list: Seq<FindingView>, new: Seq<FindingView>)
    requires
        forall|i: int| 0 <= i < new.len() ==> (#[trigger] new[i]).bytes < MIN_FINDING_BYTES || has_id(list, new[i].id),
    ensures
        accepted(list, new) == list,
    decreases new.len(),
{
    if new.len() > 0 {
        assert forall|i: int| 0 <= i < new.drop_last().len() implies (#[trigger] new.drop_last()[i]).bytes < MIN_FINDING_BYTES || has_id(
            list,
            new.drop_last()[i].id,
        ) by {
            assert(new.drop_last()[i] == new[i]);
        }
        lemma_all_known(list, new.drop_last());
        assert(new.last() == new[new.len() - 1]);
    }
}

proof fn lemma_accepted_known(list: Seq<FindingView>, new: Seq<FindingView>, i: int)
    requires
        0 <= i < new.len(),
        new[i].bytes >= MIN_FINDING_BYTES,
    ensures
        has_id(accepted(list, new), new[i].id),
    decreases new.len(),
{
    let before = accepted(list, new.drop_last());
    let all = accepted(list, new);
    if i < new.len() - 1 {
        lemma_accepted_known(list, new.drop_last(), i);
        let x = choose|x: int| 0 <= x < before.len() && (#[trigger] before[x]).id == new.drop_last()[i].id;
        assert(all[x] == before[x]);
    } else if has_id(before, new.last().id) {
    } else {
        assert(all[all.len() - 1].id == new[i].id);
    }
}

/// Merging the same findings again adds nothing.
pub proof fn law_merging_again_adds_nothing(before: Seq<FindingView>, new: Seq<FindingView>)
    ensures
        accepted(accepted(before, new), new) == accepted(before, new),
{
    let kept = accepted(before, new);
    assert forall|i: int| 0 <= i < new.len() implies (#[trigger] new[i]).bytes < MIN_FINDING_BYTES || has_id(kept, new[i].id) by {
        if new[i].bytes >= MIN_FINDING_BYTES {
            lemma_accepted_known(before, new, i);
        }
    }
    lemma_all_known(kept, new);
}

/// A shell command is never built from a lossy name: a removal that runs as a
/// command names each of its paths exactly, byte for byte.
pub proof fn law_commands_name_exact_paths(paths: Seq<Seq<u8>>, keep_dir: bool, i: int)
    requires
        actionable(ActionView::Remove { paths, keep_dir }, true),
        0 <= i < paths.len(),
    ensures
        shell_word(path_words(paths)[i], false) is Some,
        encode_utf8(shell_word(path_words(paths)[i], false)->0) == paths[i],
{
    assert(valid_utf8(paths[i]));
    law_quoted_word_is_the_text(lossy_text(paths[i]));
    decode_utf8_encode_utf8(paths[i]);
}

/// The totals of the tiers add up to the grand total.
pub proof fn law_tiers_add_up(list: Seq<FindingView>)
    ensures
        sum_tier(list, Risk::Safe) + sum_tier(list, Risk::Moderate) + sum_tier(list, Risk::Caution) == sum_bytes(list),
    decreases list.len(),
{
    if list.len() > 0 {
        law_tiers_add_up(list.drop_last());
    }
}

/// Shell command that runs `sudo rm -f` on an explicit list of files. Only
/// paths that are valid UTF-8: a lossy path would be another file.
pub fn sudo_rm_files(paths: &Vec<FsPath>) -> (r: String)
    requires
        all_utf8(paths_view(paths@)),
    ensures
        r@ == "sudo rm -f -- "@ + join(path_words(paths_view(paths@)), " "@),
{
    "sudo rm -f -- ".to_owned().concat(joined(&quote_paths(paths), " ").as_str())
}

/// A merge keeps the findings that are there, in their places, and adds those of
/// the new findings that are worth showing: from 1 MiB on, and under an id that
/// is not listed yet.
pub proof fn law_merge_takes_what_is_worth_showing(list: Seq<FindingView>, new: Seq<FindingView>, i: int)
    requires
        0 <= i < new.len(),
    ensures
        list.is_prefix_of(accepted(list, new)),
        new[i].bytes >= 1024 * 1024 ==> has_id(accepted(list, new), new[i].id),
        new[i].bytes >= 1024 * 1024 && !has_id(list, new[i].id) && !has_id(new.take(i), new[i].id) ==> accepted(list, new).contains(new[i]),
        forall|k: int|
            list.len() <= k < accepted(list, new).len() ==> new.contains(#[trigger] accepted(list, new)[k]) && accepted(list, new)[k].bytes >= 1024
                * 1024 && !has_id(list, accepted(list, new)[k].id),
    decreases new.len(),
{
    let front = new.drop_last();
    let so_far = accepted(list, front);
    let f = new.last();
    lemma_merged(list, front);
    lemma_merged(list, new);
    if i < new.len() - 1 {
        law_merge_takes_what_is_worth_showing(list, front, i);
        assert(new.take(i) =~= front.take(i));
        if has_id(so_far, new[i].id) {
            let k = choose|k: int| 0 <= k < so_far.len() && (#[trigger] so_far[k]).id == new[i].id;
            assert(accepted(list, new)[k] == so_far[k]);
        }
        if so_far.contains(new[i]) {
            let k = choose|k: int| 0 <= k < so_far.len() && so_far[k] == new[i];
            assert(accepted(list, new)[k] == so_far[k]);
        }
    } else {
        assert(new.take(i) =~= front);
        if has_id(so_far, f.id) {
            let k = choose|k: int| 0 <= k < so_far.len() && (#[trigger] so_far[k]).id == f.id;
            if k < list.len() {
                assert(list[k] == so_far[k]);
            } else {
                let m = choose|m: int| 0 <= m < front.len() && front[m] == so_far[k];
                assert(front[m].id == f.id);
            }
        } else if f.bytes >= MIN_FINDING_BYTES {
            assert(accepted(list, new)[so_far.len() as int] == f);
        }
    }
}

proof fn lemma_merged(list: Seq<FindingView>, new: Seq<FindingView>)
    ensures
        list.len() <= accepted(list, new).len(),
        forall|k: int| 0 <= k < list.len() ==> #[trigger] accepted(list, new)[k] == list[k],
        list.is_prefix_of(accepted(list, new)),
        forall|k: int|
            list.len() <= k < accepted(list, new).len() ==> new.contains(#[trigger] accepted(list, new)[k]) && accepted(list, new)[k].bytes >= 1024
                * 1024 && !has_id(list, accepted(list, new)[k].id),
    decreases new.len(),
{
    if new.len() > 0 {
        let front = new.drop_last();
        let so_far = accepted(list, front);
        lemma_merged(list, front);
        assert forall|k: int|
            list.len() <= k < accepted(list, new).len() implies new.contains(#[trigger] accepted(list, new)[k]) && accepted(list, new)[k].bytes
            >= 1024 * 1024 && !has_id(list, accepted(list, new)[k].id) by {
            if k < so_far.len() {
                assert(accepted(list, new)[k] == so_far[k]);
                let m = choose|m: int| 0 <= m < front.len() && front[m] == so_far[k];
                assert(new[m] == so_far[k]);
            } else {
                assert(new[new.len() - 1] == new.last());
                if has_id(list, new.last().id) {
                    let m = choose|m: int| 0 <= m < list.len() && (#[trigger] list[m]).id == new.last().id;
                    assert(so_far[m] == list[m]);
                }
            }
        }
    }
    assert(accepted(list, new).take(list.len() as int) =~= list);
}

/// A report lists the safe findings first, then the moderate ones, then those
/// that ask for caution; of one tier, the largest first.
pub proof fn law_reports_go_from_safe_to_caution(kept: Seq<FindingView>, after: Seq<FindingView>, i: int, j: int)
    requires
        sorted_from(kept, after),
        0 <= i < j < after.len(),
    ensures
        after[j].risk == Risk::Safe ==> after[i].risk == Risk::Safe,
        after[j].risk == Risk::Moderate ==> after[i].risk != Risk::Caution,
        after[i].risk == after[j].risk ==> after[i].bytes >= after[j].bytes,
{
    let o = choose|o: Seq<usize>| #[trigger] report_order(kept, o) && after == arranged(kept, o);
    assert(listed_before(kept, o[i] as int, o[j] as int));
}

/// Sorting a report keeps its findings.
pub proof fn law_reports_keep_their_findings(kept: Seq<FindingView>, after: Seq<FindingView>, f: FindingView)
    requires
        sorted_from(kept, after),
        kept.len() <= usize::MAX,
    ensures
        after.contains(f) <==> kept.contains(f),
        after.len() == kept.len(),
{
    let o = choose|o: Seq<usize>| #[trigger] report_order(kept, o) && after == arranged(kept, o);
    if kept.contains(f) {
        let k = choose|k: int| 0 <= k < kept.len() && kept[k] == f;
        assert(o.contains(k as usize));
        let w = choose|w: int| 0 <= w < o.len() && o[w] == k as usize;
        assert(after[w] == f);
    }
    if after.contains(f) {
        let w = choose|w: int| 0 <= w < after.len() && after[w] == f;
        assert(o[w] < kept.len());
        assert(kept[o[w] as int] == f);
    }
}

/// Every note is kept, and each is listed once.
pub proof fn law_notes_are_kept_once(list: Seq<Seq<char>>, new: Seq<Seq<char>>, n: Seq<char>)
    ensures
        noted(list, new).contains(n) <==> list.contains(n) || new.contains(n),
        list.no_duplicates() ==> noted(list, new).no_duplicates(),
        list.is_prefix_of(noted(list, new)),
    decreases new.len(),
{
    if new.len() > 0 {
        let front = new.drop_last();
        law_notes_are_kept_once(list, front, n);
        law_notes_are_kept_once(list, front, new.last());
        let so_far = noted(list, front);
        kernels::lemma_push_contains(so_far, new.last(), n);
        kernels::lemma_push_contains(front, new.last(), n);
        assert(new =~= front.push(new.last()));
        if !so_far.contains(new.last()) && list.no_duplicates() {
            assert forall|a: int, b: int| 0 <= a < b < so_far.push(new.last()).len() implies so_far.push(new.last())[a] != so_far.push(
                new.last(),
            )[b] by {
                assert(so_far.contains(so_far[a]));
            }
        }
        assert(noted(list, new).take(list.len() as int) =~= so_far.take(list.len() as int));
        assert(so_far.take(list.len() as int) =~= list);
    } else {
        assert(list.take(list.len() as int) =~= list);
    }
}

/// Totals add up, each finding counted once, in its own tier.
pub proof fn law_totals_count_each_finding_once(list: Seq<FindingView>, i: int, risk: Risk)
    requires
        0 <= i < list.len(),
    ensures
        sum_bytes(list) == sum_bytes(list.remove(i)) + list[i].bytes,
        list[i].risk == risk ==> sum_tier(list, risk) == sum_tier(list.remove(i), risk) + list[i].bytes,
        list[i].risk != risk ==> sum_tier(list, risk) == sum_tier(list.remove(i), risk),
    decreases list.len(),
{
    if i < list.len() - 1 {
        law_totals_count_each_finding_once(list.drop_last(), i, risk);
        assert(list.remove(i).drop_last() =~= list.drop_last().remove(i));
        assert(list.remove(i).last() == list.last());
    } else {
        assert(list.remove(i) =~= list.drop_last());
    }
}

/// The command shown is the command that runs: a shell action word for word, a
/// removal as `rm` that stays on one filesystem, an emptying as one `find` per
/// folder that spares the folder itself; `sudo` stands in front of each where
/// root is needed, and nowhere else.
pub proof fn law_commands_are_shown_as_they_run(command: Seq<char>, paths: Seq<Seq<u8>>, p: Seq<u8>, root: bool)
    requires
        all_utf8(paths),
        valid_utf8(p),
    ensures
        command_of(ActionView::Shell { command }, root) == command,
        command_of(ActionView::Remove { paths, keep_dir: false }, false) == "rm -rf --one-file-system -- "@ + join(path_words(paths), " "@),
        command_of(ActionView::Remove { paths, keep_dir: false }, true) == "sudo rm -rf --one-file-system -- "@ + join(
            path_words(paths),
            " "@,
        ),
        command_of(ActionView::Remove { paths: seq![p], keep_dir: true }, false) == "find "@ + quoted(lossy_text(p))
            + " -xdev -mindepth 1 -delete"@,
        command_of(ActionView::Remove { paths: seq![p], keep_dir: true }, true) == "sudo find "@ + quoted(lossy_text(p))
            + " -xdev -mindepth 1 -delete"@,
        paths.len() > 0 ==> command_of(ActionView::Remove { paths: paths.push(p), keep_dir: true }, root) == command_of(
            ActionView::Remove { paths, keep_dir: true },
            root,
        ) + " && "@ + command_of(ActionView::Remove { paths: seq![p], keep_dir: true }, root),
{
    reveal_strlit("");
    reveal_strlit("sudo ");
    reveal_strlit("find ");
    reveal_strlit("sudo find ");
    reveal_strlit("rm -rf --one-file-system -- ");
    reveal_strlit("sudo rm -rf --one-file-system -- ");
    assert(all_utf8(seq![p]));
    let sudo = if root { "sudo "@ } else { ""@ };
    let one = emptying(seq![p], sudo);
    assert(""@ + "rm -rf --one-file-system -- "@ =~= "rm -rf --one-file-system -- "@);
    assert("sudo "@ + "rm -rf --one-file-system -- "@ =~= "sudo rm -rf --one-file-system -- "@);
    assert(""@ + "find "@ =~= "find "@);
    assert("sudo "@ + "find "@ =~= "sudo find "@);
    lemma_join_one(emptying(seq![p], ""@), " && "@);
    lemma_join_one(emptying(seq![p], "sudo "@), " && "@);
    if paths.len() > 0 {
        assert(all_utf8(paths.push(p)));
        assert(emptying(paths.push(p), sudo) =~= emptying(paths, sudo).push(one[0]));
        law_joined_texts_follow_each_other(emptying(paths, sudo), one[0], " && "@);
    }
}

proof fn lemma_join_one(parts: Seq<Seq<char>>, sep: Seq<char>)
    requires
        parts.len() == 1,
    ensures
        join(parts, sep) == parts[0],
{
    law_joined_texts_follow_each_other(parts, parts[0], sep);
    assert(parts =~= seq![parts[0]]);
}

/// What can be carried out: every command, and every removal but one as root
/// whose path has no exact shell form.
pub proof fn law_what_can_be_carried_out(command: Seq<char>, paths: Seq<Seq<u8>>, keep_dir: bool, root: bool)
    ensures
        !actionable(ActionView::Manual, root),
        actionable(ActionView::Shell { command }, root),
        actionable(ActionView::Remove { paths, keep_dir }, false),
        actionable(ActionView::Remove { paths, keep_dir }, true) <==> forall|i: int| 0 <= i < paths.len() ==> valid_utf8(#[trigger] paths[i]),
{
}

/// The tiers by name.
pub proof fn law_tiers_have_names(safe: &'static str, moderate: &'static str, caution: &'static str)
    requires
        call_ensures(Risk::label, (Risk::Safe,), safe),
        call_ensures(Risk::label, (Risk::Moderate,), moderate),
        call_ensures(Risk::label, (Risk::Caution,), caution),
    ensures
        safe@ == "SAFE"@,
        moderate@ == "MODERATE"@,
        caution@ == "CAUTION"@,
{
}

} // verus!
