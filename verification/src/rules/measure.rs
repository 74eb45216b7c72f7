//! Shared pieces of the rules: measured paths, and findings about folders.

use vstd::prelude::*;

use crate::order::{
    arranged, lemma_arranged_among, lemma_lex_irreflexive, lemma_lex_total, lemma_lex_transitive, lemma_order_exists,
    law_rearranging_keeps_everything, lemma_order_rearranges, lex, rearranges, sorted, Ranking,
};
use crate::path::{
    comp_lt, comps, comps_precede, lemma_comp_lt, lossy_text, names_view, path_before, paths_view, FsPath,
};
use crate::rules::kernels::{found_bytes, found_paths};
use crate::rules::{all_utf8, copy_paths, finding_views, Action, ActionView, Finding, FindingView, Risk};
use crate::text::{chars_of, join, joined, texts};
use crate::util::{quoted, shq, shq_path, tilde, tilde_text};

verus! {

/// A file and its allocated bytes.
pub struct Measured {
    pub path: FsPath,
    pub bytes: u64,
}

/// A file and its bytes as values.
pub open spec fn measured_views(v: Seq<Measured>) -> Seq<(Seq<u8>, u64)> {
    Seq::new(v.len(), |i: int| (v[i].path@, v[i].bytes))
}

/// The paths of measured files.
pub open spec fn measured_paths(v: Seq<(Seq<u8>, u64)>) -> Seq<Seq<u8>> {
    Seq::new(v.len(), |i: int| v[i].0)
}

/// The bytes of measured files.
pub open spec fn measured_bytes(v: Seq<(Seq<u8>, u64)>) -> nat
    decreases v.len(),
{
    if v.len() == 0 {
        0
    } else {
        measured_bytes(v.drop_last()) + v.last().1 as nat
    }
}

pub(crate) proof fn lemma_measured_grows(v: Seq<(Seq<u8>, u64)>, k: int)
    requires
        0 <= k <= v.len(),
    ensures
        measured_bytes(v.take(k)) <= measured_bytes(v),
    decreases v.len(),
{
    if k < v.len() {
        assert(v.drop_last().take(k) =~= v.take(k));
        lemma_measured_grows(v.drop_last(), k);
    } else {
        assert(v.take(k) =~= v);
    }
}

/// The sum of the bytes of measured files.
pub(crate) fn sum_measured(v: &Vec<Measured>) -> (r: u64)
    requires
        measured_bytes(measured_views(v@)) <= u64::MAX,
    ensures
        r == measured_bytes(measured_views(v@)),
{
    let ghost mv = measured_views(v@);
    let mut sum: u64 = 0;
    for i in 0..v.len()
        invariant
            mv == measured_views(v@),
            measured_bytes(mv) <= u64::MAX,
            sum == measured_bytes(mv.take(i as int)),
    {
        proof {
            assert(mv.take(i + 1).drop_last() =~= mv.take(i as int));
            lemma_measured_grows(mv, i + 1);
        }
        sum += v[i].bytes;
    }
    assert(mv.take(v@.len() as int) =~= mv);
    sum
}

/// The order of paths in a list: by path, then by position.
pub open spec fn listed_earlier(v: Seq<Seq<u8>>, i: int, j: int) -> bool {
    path_before(v[i], v[j]) || (comps(v[i]) == comps(v[j]) && i < j)
}

/// `o` lists the positions of `v` by path.
pub open spec fn path_order(v: Seq<Seq<u8>>, o: Seq<usize>) -> bool {
    &&& rearranges(o, v.len() as int)
    &&& forall|i: int, j: int| 0 <= i < j < o.len() ==> listed_earlier(v, #[trigger] o[i] as int, #[trigger] o[j] as int)
}

/// `list` holds the paths of `v`, sorted.
pub open spec fn paths_sorted(v: Seq<Seq<u8>>, list: Seq<Seq<u8>>) -> bool {
    exists|o: Seq<usize>| #[trigger] path_order(v, o) && list == arranged(v, o)
}

/// The paths of `v` sorted.
pub open spec fn by_path(v: Seq<Seq<u8>>) -> Seq<Seq<u8>> {
    choose|list: Seq<Seq<u8>>| paths_sorted(v, list)
}

struct ByPath<'a> {
    list: &'a Vec<FsPath>,
    comps: &'a Vec<Vec<Vec<u8>>>,
}

impl<'a> ByPath<'a> {
    spec fn ok(&self) -> bool {
        self.comps@.len() == self.list@.len() && forall|i: int|
            0 <= i < self.list@.len() ==> names_view(#[trigger] self.comps@[i]@) == comps(self.list@[i]@)
    }
}

impl<'a> Ranking for ByPath<'a> {
    closed spec fn size(&self) -> nat {
        if self.ok() {
            self.list@.len()
        } else {
            0
        }
    }

    closed spec fn before(&self, i: int, j: int) -> bool {
        listed_earlier(paths_view(self.list@), i, j)
    }

    proof fn irreflexive(&self, i: int) {
        lemma_lex_irreflexive(comps(paths_view(self.list@)[i]), comp_lt());
    }

    proof fn transitive(&self, i: int, j: int, k: int) {
        let v = paths_view(self.list@);
        lemma_comp_lt();
        let (a, b, c) = (comps(v[i]), comps(v[j]), comps(v[k]));
        if lex(a, b, comp_lt()) && lex(b, c, comp_lt()) {
            lemma_lex_transitive(a, b, c, comp_lt());
        }
    }

    proof fn total(&self, i: int, j: int) {
        let v = paths_view(self.list@);
        lemma_comp_lt();
        if comps(v[i]) != comps(v[j]) {
            lemma_lex_total(comps(v[i]), comps(v[j]), comp_lt());
        }
    }

    fn precedes(&self, i: usize, j: usize) -> (r: bool) {
        assert(names_view(self.comps@[i as int]@) == comps(self.list@[i as int]@));
        assert(names_view(self.comps@[j as int]@) == comps(self.list@[j as int]@));
        if comps_precede(&self.comps[i], &self.comps[j]) {
            return true;
        }
        self.list[i].same(&self.list[j]) && i < j
    }
}

proof fn lemma_path_order_unique(v: Seq<Seq<u8>>, a: Seq<usize>, b: Seq<usize>, n: int)
    requires
        path_order(v, a),
        path_order(v, b),
        0 <= n <= v.len(),
    ensures
        a.take(n) == b.take(n),
    decreases n,
{
    lemma_comp_lt();
    if n > 0 {
        let k = n - 1;
        lemma_path_order_unique(v, a, b, k);
        assert(forall|i: int| 0 <= i < k ==> #[trigger] a[i] == a.take(k)[i]);
        assert(forall|i: int| 0 <= i < k ==> #[trigger] b[i] == b.take(k)[i]);
        if a[k] != b[k] {
            assert(b.contains(a[k]));
            let x = choose|x: int| 0 <= x < b.len() && b[x] == a[k];
            if x < k {
                assert(a[x] == b[x]);
                assert(a[x] == a[k]);
            }
            assert(x > k);
            assert(listed_earlier(v, b[k] as int, b[x] as int));
            assert(a.contains(b[k]));
            let y = choose|y: int| 0 <= y < a.len() && a[y] == b[k];
            if y < k {
                assert(a[y] == b[y]);
                assert(b[y] == b[k]);
            }
            assert(y > k);
            assert(listed_earlier(v, a[k] as int, a[y] as int));
            let (p, q) = (comps(v[a[k] as int]), comps(v[b[k] as int]));
            if lex(p, q, comp_lt()) && lex(q, p, comp_lt()) {
                lemma_lex_transitive(p, q, p, comp_lt());
            }
            lemma_lex_irreflexive(p, comp_lt());
            lemma_lex_irreflexive(q, comp_lt());
        }
        assert(a.take(n) =~= a.take(k).push(a[k]));
        assert(b.take(n) =~= b.take(k).push(b[k]));
    }
}

/// Sorting paths has one result only.
pub proof fn lemma_by_path(v: Seq<Seq<u8>>, o: Seq<usize>)
    requires
        path_order(v, o),
    ensures
        by_path(v) == arranged(v, o),
{
    assert(paths_sorted(v, arranged(v, o)));
    let list = by_path(v);
    assert(paths_sorted(v, list));
    let p = choose|p: Seq<usize>| #[trigger] path_order(v, p) && list == arranged(v, p);
    lemma_path_order_unique(v, o, p, v.len() as int);
    assert(o.take(v.len() as int) =~= o);
    assert(p.take(v.len() as int) =~= p);
}

/// Sorting paths brings none in.
pub proof fn lemma_by_path_among(v: Seq<Seq<u8>>, p: Seq<u8>)
    requires
        v.len() <= usize::MAX,
        by_path(v).contains(p),
    ensures
        v.contains(p),
{
    lemma_comp_lt();
    let before = |i: int, j: int| listed_earlier(v, i, j);
    assert forall|a: int, b: int, c: int| #[trigger] before(a, b) && #[trigger] before(b, c) implies before(a, c) by {
        let (x, y, z) = (comps(v[a]), comps(v[b]), comps(v[c]));
        if lex(x, y, comp_lt()) && lex(y, z, comp_lt()) {
            lemma_lex_transitive(x, y, z, comp_lt());
        }
    }
    assert forall|a: int, b: int| a != b implies #[trigger] before(a, b) || before(b, a) by {
        if comps(v[a]) != comps(v[b]) {
            lemma_lex_total(comps(v[a]), comps(v[b]), comp_lt());
        }
    }
    let o = lemma_order_exists(before, v.len());
    assert forall|i: int, j: int| 0 <= i < j < o.len() implies listed_earlier(v, #[trigger] o[i] as int, #[trigger] o[j] as int) by {
        assert(before(o[i] as int, o[j] as int));
    }
    assert(path_order(v, o));
    lemma_by_path(v, o);
    lemma_arranged_among(v, o, p);
}

/// The positions of `list` by path.
pub(crate) fn order_paths(list: &Vec<FsPath>) -> (r: Vec<usize>)
    ensures
        path_order(paths_view(list@), r@),
{
    let mut c: Vec<Vec<Vec<u8>>> = Vec::new();
    for i in 0..list.len()
        invariant
            c@.len() == i,
            forall|j: int| 0 <= j < i ==> names_view(#[trigger] c@[j]@) == comps(list@[j]@),
    {
        c.push(list[i].components());
    }
    let ranking = ByPath { list, comps: &c };
    let o = sorted(&ranking, list.len());
    proof {
        lemma_order_rearranges(&ranking, o@);
    }
    o
}

/// The paths of `list` sorted.
pub(crate) fn sort_paths(list: &Vec<FsPath>) -> (r: Vec<FsPath>)
    ensures
        paths_view(r@) == by_path(paths_view(list@)),
        r@.len() == list@.len(),
{
    let o = order_paths(list);
    let ghost v = paths_view(list@);
    let mut out: Vec<FsPath> = Vec::new();
    for k in 0..o.len()
        invariant
            v == paths_view(list@),
            path_order(v, o@),
            paths_view(out@) == arranged(v, o@).take(k as int),
    {
        let ghost before = out@;
        let p = list[o[k]].clone();
        out.push(p);
        assert(paths_view(out@) =~= paths_view(before).push(p@));
        assert(paths_view(out@) =~= arranged(v, o@).take(k + 1));
    }
    proof {
        lemma_by_path(v, o@);
        assert(arranged(v, o@).take(o@.len() as int) =~= arranged(v, o@));
        assert(paths_view(out@).len() == out@.len());
    }
    out
}

/// What was found of `list`: its paths and bytes.
pub(crate) fn keep_found(list: &Vec<FsPath>, sizes: &Vec<Option<u64>>) -> (r: (Vec<FsPath>, u64))
    requires
        sizes@.len() == list@.len(),
        found_bytes(sizes@, list@.len() as int) <= u64::MAX,
    ensures
        paths_view(r.0@) == found_paths(paths_view(list@), sizes@),
        r.1 == found_bytes(sizes@, list@.len() as int),
{
    let mut out: Vec<FsPath> = Vec::new();
    assert(paths_view(out@) =~= Seq::<Seq<u8>>::empty());
    let bytes = crate::rules::kernels::add_existing(list, sizes, &mut out, 0);
    assert(paths_view(out@) =~= found_paths(paths_view(list@), sizes@));
    (out, bytes)
}

/// How paths are shown to the user.
pub open spec fn shown(paths: Seq<Seq<u8>>, home: Seq<u8>) -> Seq<Seq<char>> {
    Seq::new(paths.len(), |i: int| tilde_text(paths[i], home))
}

pub(crate) fn show_paths(paths: &Vec<FsPath>, home: &FsPath) -> (r: Vec<String>)
    ensures
        texts(r@) == shown(paths_view(paths@), home@),
{
    let ghost want = shown(paths_view(paths@), home@);
    let mut out: Vec<String> = Vec::new();
    for i in 0..paths.len()
        invariant
            want == shown(paths_view(paths@), home@),
            texts(out@) == want.take(i as int),
    {
        let ghost before = out@;
        let t = tilde(&paths[i], home);
        out.push(t);
        assert(texts(out@) =~= texts(before).push(t@));
        assert(texts(out@) =~= want.take(i + 1));
    }
    assert(texts(out@) =~= want);
    out
}

/// What a finding about a group of folders says of itself.
pub struct Words {
    pub id: String,
    pub category: String,
    pub title: String,
    pub risk: Risk,
    pub detail: String,
}

#[verifier::ext_equal]
pub struct WordsView {
    pub id: Seq<char>,
    pub category: Seq<char>,
    pub title: Seq<char>,
    pub risk: Risk,
    pub detail: Seq<char>,
}

impl View for Words {
    type V = WordsView;

    open spec fn view(&self) -> WordsView {
        WordsView {
            id: self.id@,
            category: self.category@,
            title: self.title@,
            risk: self.risk,
            detail: self.detail@,
        }
    }
}

pub(crate) fn words(id: &str, category: &str, title: &str, risk: Risk, detail: &str) -> (r: Words)
    ensures
        r@ == (WordsView { id: id@, category: category@, title: title@, risk, detail: detail@ }),
{
    Words {
        id: id.to_owned(),
        category: category.to_owned(),
        title: title.to_owned(),
        risk,
        detail: detail.to_owned(),
    }
}

/// A finding that empties `dirs` (keeping the dirs), or runs `command` instead;
/// none where there is nothing to gain.
pub open spec fn contents_view(
    home: Seq<u8>,
    w: WordsView,
    dirs: Seq<Seq<u8>>,
    bytes: u64,
    command: Option<Seq<char>>,
) -> Option<FindingView> {
    if dirs.len() == 0 || bytes == 0 {
        None
    } else {
        Some(
            FindingView {
                id: w.id,
                category: w.category,
                title: w.title + " ("@ + join(shown(dirs, home), ", "@) + ")"@,
                risk: w.risk,
                bytes,
                detail: w.detail,
                paths: dirs,
                action: match command {
                    Some(c) => ActionView::Shell { command: c },
                    None => ActionView::Remove { paths: dirs, keep_dir: true },
                },
                needs_root: false,
            },
        )
    }
}

/// A cache rule empties the folders that it lists and keeps them, or leaves them
/// to the tool that owns them; it never needs root.
pub proof fn law_caches_keep_their_folders(
    home: Seq<u8>,
    w: WordsView,
    dirs: Seq<Seq<u8>>,
    bytes: u64,
    command: Option<Seq<char>>,
)
    ensures
        contents_view(home, w, dirs, bytes, command) matches Some(f) ==> f.paths == dirs && !f.needs_root && (f.action matches
            ActionView::Remove { paths, keep_dir } ==> keep_dir && paths == dirs),
{
}

/// The view of an optional finding.
pub open spec fn opt_finding(o: Option<Finding>) -> Option<FindingView> {
    match o {
        Some(f) => Some(f@),
        None => None,
    }
}

pub open spec fn opt_str(o: Option<String>) -> Option<Seq<char>> {
    match o {
        Some(s) => Some(s@),
        None => None,
    }
}

pub fn contents_finding(home: &FsPath, w: Words, dirs: Vec<FsPath>, bytes: u64, command: Option<String>) -> (r: Option<
    Finding,
>)
    ensures
        opt_finding(r) == contents_view(home@, w@, paths_view(dirs@), bytes, opt_str(command)),
{
    assert(paths_view(dirs@).len() == dirs@.len());
    if dirs.len() == 0 || bytes == 0 {
        return None;
    }
    let title = w.title.concat(" (").concat(joined(&show_paths(&dirs, home), ", ").as_str()).concat(")");
    let action = match command {
        Some(command) => Action::Shell { command },
        None => Action::Remove { paths: copy_paths(&dirs), keep_dir: true },
    };
    Some(
        Finding {
            id: w.id,
            category: w.category,
            title,
            risk: w.risk,
            bytes,
            detail: w.detail,
            paths: dirs,
            action,
            needs_root: false,
        },
    )
}

/// The finding as a manual step, for this reason.
pub open spec fn manual_view(f: FindingView, why: Seq<char>) -> FindingView {
    FindingView { detail: why + "\n\n"@ + f.detail, action: ActionView::Manual, ..f }
}

/// Turn a finding into a manual step (e.g. the owning app is running).
pub fn manual(f: Finding, why: &str) -> (r: Finding)
    ensures
        r@ == manual_view(f@, why@),
{
    Finding {
        id: f.id,
        category: f.category,
        title: f.title,
        risk: f.risk,
        bytes: f.bytes,
        detail: why.to_owned().concat("\n\n").concat(f.detail.as_str()),
        paths: f.paths,
        action: Action::Manual,
        needs_root: f.needs_root,
    }
}

/// A list of at most one finding.
pub open spec fn opt_seq(o: Option<FindingView>) -> Seq<FindingView> {
    match o {
        Some(f) => seq![f],
        None => Seq::empty(),
    }
}

pub(crate) fn push_opt(out: &mut Vec<Finding>, f: Option<Finding>)
    ensures
        finding_views(final(out)@) == finding_views(old(out)@) + opt_seq(opt_finding(f)),
{
    let ghost before = out@;
    match f {
        Some(x) => {
            out.push(x);
            assert(finding_views(out@) =~= finding_views(before) + seq![x@]);
        },
        None => {
            assert(finding_views(before) + Seq::<FindingView>::empty() =~= finding_views(before));
        },
    }
}

/// A text in which the characters that `find` takes for a pattern stand for
/// themselves.
pub open spec fn unglobbed(s: Seq<char>) -> Seq<char>
    decreases s.len(),
{
    if s.len() == 0 {
        Seq::empty()
    } else {
        let c = s.last();
        unglobbed(s.drop_last()) + if c == '*' || c == '?' || c == '[' || c == '\\' {
            seq!['\\', c]
        } else {
            seq![c]
        }
    }
}

fn unglob(s: &str) -> (r: String)
    ensures
        r@ == unglobbed(s@),
{
    let v = chars_of(s);
    let mut out = String::new();
    for i in 0..v.len()
        invariant
            out@ == unglobbed(v@.take(i as int)),
    {
        let ghost before = out@;
        assert(v@.take(i + 1).drop_last() =~= v@.take(i as int));
        let c = v[i];
        if c == '*' || c == '?' || c == '[' || c == '\\' {
            out.push('\\');
            out.push(c);
            assert(out@ =~= before + seq!['\\', c]);
        } else {
            out.push(c);
            assert(out@ =~= before + seq![c]);
        }
    }
    assert(v@.take(v@.len() as int) =~= v@);
    out
}

/// The only text that a pattern matches, if it holds no wildcard.
pub open spec fn glob_literal(p: Seq<char>) -> Option<Seq<char>>
    decreases p.len(),
{
    if p.len() == 0 {
        Some(Seq::empty())
    } else if p[0] == '\\' {
        if p.len() < 2 {
            None
        } else {
            match glob_literal(p.skip(2)) {
                Some(r) => Some(seq![p[1]] + r),
                None => None,
            }
        }
    } else if p[0] == '*' || p[0] == '?' || p[0] == '[' {
        None
    } else {
        match glob_literal(p.skip(1)) {
            Some(r) => Some(seq![p[0]] + r),
            None => None,
        }
    }
}

/// The pattern made for a path matches that path alone.
pub proof fn law_unglobbed_matches_itself(s: Seq<char>)
    ensures
        glob_literal(unglobbed(s)) == Some(s),
{
    lemma_unglobbed(s, Seq::empty());
    assert(unglobbed(s) + Seq::<char>::empty() =~= unglobbed(s));
    assert(s + Seq::<char>::empty() =~= s);
}

proof fn lemma_unglobbed(s: Seq<char>, tail: Seq<char>)
    requires
        glob_literal(tail) is Some,
    ensures
        glob_literal(unglobbed(s) + tail) == Some(s + glob_literal(tail)->0),
    decreases s.len(),
{
    let rest = glob_literal(tail)->0;
    if s.len() == 0 {
        assert(unglobbed(s) + tail =~= tail);
        assert(s + rest =~= rest);
    } else {
        let c = s.last();
        let mid = (if c == '*' || c == '?' || c == '[' || c == '\\' {
            seq!['\\', c]
        } else {
            seq![c]
        }) + tail;
        if c == '*' || c == '?' || c == '[' || c == '\\' {
            assert(mid.skip(2) =~= tail);
        } else {
            assert(mid.skip(1) =~= tail);
        }
        assert(glob_literal(mid) == Some(seq![c] + rest));
        lemma_unglobbed(s.drop_last(), mid);
        assert(unglobbed(s) + tail =~= unglobbed(s.drop_last()) + mid);
        assert(s.drop_last() + (seq![c] + rest) =~= s + rest);
    }
}

/// The tests by which `find` picks exactly the given files.
pub open spec fn path_tests(paths: Seq<Seq<u8>>) -> Seq<Seq<char>> {
    Seq::new(paths.len(), |i: int| "-path "@ + quoted(unglobbed(lossy_text(paths[i]))))
}

/// The command that deletes exactly the given files below `root`.
pub open spec fn delete_command(root: Seq<u8>, paths: Seq<Seq<u8>>) -> Seq<char> {
    "sudo find "@ + quoted(lossy_text(root)) + " -xdev -type f \\( "@ + join(path_tests(paths), " -o "@) + " \\) -delete"@
}

/// Shell command that deletes an explicit list of files below `root`. `find`
/// walks down from `root` itself and follows no symlink, so a folder swapped
/// for one cannot redirect the deletion. Only paths that are valid UTF-8: a
/// lossy path would be another file.
pub fn sudo_delete_files(root: &FsPath, paths: &Vec<FsPath>) -> (r: String)
    requires
        all_utf8(paths_view(paths@)),
    ensures
        r@ == delete_command(root@, paths_view(paths@)),
{
    let ghost want = path_tests(paths_view(paths@));
    let mut tests: Vec<String> = Vec::new();
    for i in 0..paths.len()
        invariant
            want == path_tests(paths_view(paths@)),
            texts(tests@) == want.take(i as int),
    {
        let ghost before = tests@;
        let t = "-path ".to_owned().concat(shq(unglob(paths[i].display().as_str()).as_str()).as_str());
        tests.push(t);
        assert(texts(tests@) =~= texts(before).push(t@));
        assert(texts(tests@) =~= want.take(i + 1));
    }
    assert(texts(tests@) =~= want);
    "sudo find ".to_owned().concat(shq_path(root).as_str()).concat(" -xdev -type f \\( ").concat(
        joined(&tests, " -o ").as_str(),
    ).concat(" \\) -delete")
}

/// How `by_path` comes about: an order of the positions.
proof fn lemma_path_order(v: Seq<Seq<u8>>) -> (o: Seq<usize>)
    requires
        v.len() <= usize::MAX,
    ensures
        path_order(v, o),
        by_path(v) == arranged(v, o),
{
    lemma_comp_lt();
    let before = |i: int, j: int| listed_earlier(v, i, j);
    assert forall|a: int, b: int, c: int| #[trigger] before(a, b) && #[trigger] before(b, c) implies before(a, c) by {
        let (x, y, z) = (comps(v[a]), comps(v[b]), comps(v[c]));
        if lex(x, y, comp_lt()) && lex(y, z, comp_lt()) {
            lemma_lex_transitive(x, y, z, comp_lt());
        }
    }
    assert forall|a: int, b: int| a != b implies #[trigger] before(a, b) || before(b, a) by {
        if comps(v[a]) != comps(v[b]) {
            lemma_lex_total(comps(v[a]), comps(v[b]), comp_lt());
        }
    }
    let o = lemma_order_exists(before, v.len());
    assert forall|i: int, j: int| 0 <= i < j < o.len() implies listed_earlier(v, #[trigger] o[i] as int, #[trigger] o[j] as int) by {
        assert(before(o[i] as int, o[j] as int));
    }
    assert(path_order(v, o));
    lemma_by_path(v, o);
    o
}

/// Sorted paths are the same paths, none left out and none brought in.
pub proof fn law_sorted_paths_are_the_same_paths(v: Seq<Seq<u8>>, p: Seq<u8>)
    requires
        v.len() <= usize::MAX,
    ensures
        by_path(v).contains(p) <==> v.contains(p),
        by_path(v).len() == v.len(),
{
    let o = lemma_path_order(v);
    law_rearranging_keeps_everything(v, o, p);
}

/// Sorted paths go up by their components, compared one after another.
pub proof fn law_sorted_paths_go_up(v: Seq<Seq<u8>>, i: int, j: int)
    requires
        v.len() <= usize::MAX,
        0 <= i < j < by_path(v).len(),
    ensures
        lex(comps(by_path(v)[i]), comps(by_path(v)[j]), comp_lt()) || comps(by_path(v)[i]) == comps(by_path(v)[j]),
{
    let o = lemma_path_order(v);
    assert(listed_earlier(v, o[i] as int, o[j] as int));
}

/// The bytes of measured files add up, each counted once.
pub proof fn law_measured_bytes_add_up(v: Seq<(Seq<u8>, u64)>, i: int)
    requires
        0 <= i < v.len(),
    ensures
        measured_bytes(v) == measured_bytes(v.remove(i)) + v[i].1,
        measured_paths(v)[i] == v[i].0,
        measured_paths(v).len() == v.len(),
    decreases v.len(),
{
    if i < v.len() - 1 {
        law_measured_bytes_add_up(v.drop_last(), i);
        assert(v.remove(i).drop_last() =~= v.drop_last().remove(i));
        assert(v.remove(i).last() == v.last());
    } else {
        assert(v.remove(i) =~= v.drop_last());
    }
}

/// Folders that use space give a finding, with all of them in it, the bytes
/// measured and the action owed: the command where there is one, else the
/// removal of what is in the folders.
pub proof fn law_folders_that_use_space_are_found(
    home: Seq<u8>,
    w: WordsView,
    dirs: Seq<Seq<u8>>,
    bytes: u64,
    command: Option<Seq<char>>,
)
    ensures
        contents_view(home, w, dirs, bytes, command) is Some <==> dirs.len() > 0 && bytes > 0,
        contents_view(home, w, dirs, bytes, command) matches Some(f) ==> {
            &&& f.bytes == bytes
            &&& f.id == w.id
            &&& f.category == w.category
            &&& f.risk == w.risk
            &&& f.detail == w.detail
            &&& w.title.is_prefix_of(f.title)
            &&& command matches Some(c) ==> f.action == ActionView::Shell { command: c }
            &&& command is None ==> f.action == ActionView::Remove { paths: dirs, keep_dir: true }
        },
{
}

/// A finding left to the user has no action any more, says why first, and keeps
/// the rest.
pub proof fn law_findings_left_to_the_user_act_on_nothing(f: FindingView, why: Seq<char>)
    ensures
        ({
            let m = manual_view(f, why);
            &&& m.action is Manual
            &&& m.detail == why + "\n\n"@ + f.detail
            &&& m.id == f.id && m.category == f.category && m.title == f.title && m.risk == f.risk
            &&& m.bytes == f.bytes && m.paths == f.paths && m.needs_root == f.needs_root
        }),
{
}

/// A root deletion asks `find` for regular files of this filesystem alone, and
/// for the paths given alone, each by a pattern that stands for itself.
pub proof fn law_root_deletions_name_exact_files(root: Seq<u8>, paths: Seq<Seq<u8>>)
    ensures
        delete_command(root, paths) == "sudo find "@ + quoted(lossy_text(root)) + " -xdev -type f \\( "@ + join(
            Seq::new(paths.len(), |i: int| "-path "@ + quoted(unglobbed(lossy_text(paths[i])))),
            " -o "@,
        ) + " \\) -delete"@,
{
    assert(path_tests(paths) =~= Seq::new(paths.len(), |i: int| "-path "@ + quoted(unglobbed(lossy_text(paths[i])))));
}

} // verus!
