//! Build artifacts of projects under the dev roots: Rust `target/`,
//! `node_modules/` and `__pycache__/`.

use vstd::prelude::*;
use vstd::utf8::{decode_utf8, encode_utf8, valid_utf8};

use crate::order::{arranged, lemma_ranked, rank, ranked, rearranges};
use crate::path::{comps, inside, join_bytes, leads, lossy_text, names_view, paths_view, same_path, utf8_lossy, FsPath};
use crate::rules::kernels::lemma_push_contains;
use crate::rules::{copy_paths, finding_views, Action, ActionView, CheckOutput, Finding, FindingView, Risk};
use crate::scanner::{
    child_ok, located, path_at, visits, visits_below, Node, NodeKind, Tree, CACHEDIR_TAG,
    CARGO_TOML, PACKAGE_JSON,
};
use crate::text::{chars_of, contains, decimal, digits, ends, ends_with, has, same, starts, starts_with, texts};
use crate::util::{quoted, shq, tilde, tilde_text};

verus! {

/// At most this many projects are listed one by one.
pub const MAX_PROJECT_FINDINGS: usize = 60;

/// The kind of an artifact.
#[derive(Clone, Copy, Debug, PartialEq, Eq, Structural)]
pub enum Artifact {
    Node,
    Rust,
    Pycache,
}

/// A directory that may be build output, and the directory it is in.
pub struct Candidate {
    pub kind: Artifact,
    pub path: FsPath,
    pub project: FsPath,
    pub bytes: u64,
}

#[verifier::ext_equal]
pub struct CandidateView {
    pub kind: Artifact,
    pub path: Seq<u8>,
    pub project: Seq<u8>,
    pub bytes: u64,
}

impl View for Candidate {
    type V = CandidateView;

    open spec fn view(&self) -> CandidateView {
        CandidateView { kind: self.kind, path: self.path@, project: self.project@, bytes: self.bytes }
    }
}

pub open spec fn candidate_views(v: Seq<Candidate>) -> Seq<CandidateView> {
    Seq::new(v.len(), |i: int| v[i]@)
}

/// What the walk does about a child.
#[derive(Clone, Copy, Debug, PartialEq, Eq, Structural)]
pub enum Step {
    Skip,
    Take(Artifact),
    Enter,
}

/// What the walk does about child `c` of node `i`. Hidden directories hold tool
/// and application data, not projects; a node_modules that isn't a project's
/// (e.g. a global `npm -g --prefix` install) is installed software.
pub open spec fn step_at(n: Seq<Node>, i: int, c: int, skip: Option<int>) -> Step {
    let name = n[c].name@;
    if n[c].kind != NodeKind::Dir || skip == Some(c) || starts(name, "."@) {
        Step::Skip
    } else if name == "node_modules"@ {
        if n[i].markers & PACKAGE_JSON != 0 {
            Step::Take(Artifact::Node)
        } else {
            Step::Skip
        }
    } else if name == "target"@ && (n[i].markers & CARGO_TOML != 0 || n[c].markers & CACHEDIR_TAG != 0) {
        Step::Take(Artifact::Rust)
    } else if name == "__pycache__"@ {
        Step::Take(Artifact::Pycache)
    } else {
        Step::Enter
    }
}

fn choose_step(t: &Tree, i: usize, c: usize, skip: Option<usize>) -> (r: Step)
    requires
        i < t.nodes@.len(),
        c < t.nodes@.len(),
    ensures
        r == step_at(t.nodes@, i as int, c as int, opt_index(skip)),
{
    let (node, child) = (&t.nodes[i], &t.nodes[c]);
    let skipped = match skip {
        Some(s) => s == c,
        None => false,
    };
    if child.kind != NodeKind::Dir || skipped || starts_with(&chars_of(child.name.as_str()), ".") {
        return Step::Skip;
    }
    let name = child.name.as_str();
    if same(name, "node_modules") {
        if node.markers & PACKAGE_JSON != 0 {
            Step::Take(Artifact::Node)
        } else {
            Step::Skip
        }
    } else if same(name, "target") && (node.markers & CARGO_TOML != 0 || child.markers & CACHEDIR_TAG != 0) {
        Step::Take(Artifact::Rust)
    } else if same(name, "__pycache__") {
        Step::Take(Artifact::Pycache)
    } else {
        Step::Enter
    }
}

pub open spec fn opt_index(o: Option<usize>) -> Option<int> {
    match o {
        Some(i) => Some(i as int),
        None => None,
    }
}

/// The candidates among the first `k` children of node `i`.
pub open spec fn taken_at(n: Seq<Node>, root: Seq<u8>, i: int, k: int, skip: Option<int>) -> Seq<CandidateView>
    decreases k,
{
    if k <= 0 {
        Seq::empty()
    } else {
        let rest = taken_at(n, root, i, k - 1, skip);
        let c = n[i].children@[k - 1] as int;
        match step_at(n, i, c, skip) {
            Step::Take(kind) => rest.push(
                CandidateView { kind, path: path_at(n, root, c), project: path_at(n, root, i), bytes: n[c].size },
            ),
            _ => rest,
        }
    }
}

/// The candidates below node `i`: its own first, then those of the children
/// entered, the last child first.
pub open spec fn found_below(n: Seq<Node>, root: Seq<u8>, i: int, skip: Option<int>) -> Seq<CandidateView>
    decreases n.len() - i, 0int, 0int,
{
    if 0 <= i < n.len() {
        taken_at(n, root, i, n[i].children@.len() as int, skip) + found_entered(n, root, i, n[i].children@.len() as int, skip)
    } else {
        Seq::empty()
    }
}

/// The candidates below those of the first `k` children that are entered.
pub open spec fn found_entered(n: Seq<Node>, root: Seq<u8>, i: int, k: int, skip: Option<int>) -> Seq<CandidateView>
    decreases n.len() - i - 1, 1int, k,
    when 0 <= i < n.len()
{
    if k <= 0 {
        Seq::empty()
    } else {
        let c = n[i].children@[k - 1] as int;
        (if i < c < n.len() && step_at(n, i, c, skip) == Step::Enter {
            found_below(n, root, c, skip)
        } else {
            Seq::empty()
        }) + found_entered(n, root, i, k - 1, skip)
    }
}

spec fn stack_visits(n: Seq<Node>, stack: Seq<usize>) -> nat
    decreases stack.len(),
{
    if stack.len() == 0 {
        0
    } else {
        stack_visits(n, stack.drop_last()) + visits(n, stack.last() as int)
    }
}

/// The candidates that a stack of nodes still leads to.
spec fn stack_finds(n: Seq<Node>, root: Seq<u8>, stack: Seq<usize>, skip: Option<int>) -> Seq<CandidateView>
    decreases stack.len(),
{
    if stack.len() == 0 {
        Seq::empty()
    } else {
        found_below(n, root, stack.last() as int, skip) + stack_finds(n, root, stack.drop_last(), skip)
    }
}

/// The candidates below node `start` of a scanned tree. `~/snap` holds per-snap
/// app data and is left out.
pub fn project_candidates(t: &Tree, start: usize, home: &FsPath) -> (r: Vec<Candidate>)
    requires
        t.wf(),
        start < t.nodes@.len(),
    ensures
        candidate_views(r@) == found_below(
            t.nodes@,
            t.root_path@,
            start as int,
            located(t.nodes@, t.root_path@, join_bytes(home@, encode_utf8("snap"@))),
        ),
{
    let skip = t.find(&home.join_str("snap"));
    let ghost (n, root, sk) = (t.nodes@, t.root_path@, opt_index(skip));
    let ghost all = found_below(n, root, start as int, sk);
    let mut out: Vec<Candidate> = Vec::new();
    let mut stack: Vec<usize> = vec![start];
    proof {
        assert(stack@.drop_last() =~= Seq::empty());
        assert(stack_finds(n, root, stack@.drop_last(), sk) =~= Seq::empty());
        assert(stack@.last() == start);
        assert(stack_finds(n, root, stack@, sk) =~= all);
        assert(candidate_views(out@) =~= Seq::empty());
        assert(candidate_views(out@) + stack_finds(n, root, stack@, sk) =~= all);
    }
    while stack.len() > 0
        invariant
            t.wf(),
            n == t.nodes@,
            root == t.root_path@,
            sk == opt_index(skip),
            forall|j: int| 0 <= j < stack@.len() ==> (#[trigger] stack@[j]) < n.len(),
            candidate_views(out@) + stack_finds(n, root, stack@, sk) == all,
        decreases stack_visits(n, stack@),
    {
        let ghost before = stack@;
        let ghost had = candidate_views(out@);
        let i: usize = stack.pop().unwrap();
        let ghost tail = stack@;
        proof {
            assert(i == before[before.len() - 1]);
            assert(tail =~= before.drop_last());
            assert forall|j: int| 0 <= j < tail.len() implies (#[trigger] tail[j]) < n.len() by {
                assert(tail[j] == before[j]);
            }
            assert(candidate_views(out@) + taken_at(n, root, i as int, 0, sk) =~= had);
            assert(found_entered(n, root, i as int, 0, sk) + stack_finds(n, root, tail, sk) =~= stack_finds(n, root, tail, sk));
        }
        let kids: usize = t.nodes[i].children.len();
        for k in 0..kids
            invariant
                t.wf(),
                n == t.nodes@,
                root == t.root_path@,
                sk == opt_index(skip),
                i < n.len(),
                kids == n[i as int].children@.len(),
                forall|j: int| 0 <= j < stack@.len() ==> (#[trigger] stack@[j]) < n.len(),
                candidate_views(out@) == had + taken_at(n, root, i as int, k as int, sk),
                stack_finds(n, root, stack@, sk) == found_entered(n, root, i as int, k as int, sk) + stack_finds(
                    n,
                    root,
                    tail,
                    sk,
                ),
                stack_visits(n, stack@) <= stack_visits(n, tail) + visits_below(n, i as int, k as int),
        {
            proof {
                assert(child_ok(n, i as int, k as int));
            }
            let c: usize = t.nodes[i].children[k];
            let ghost (out0, stack0) = (out@, stack@);
            match choose_step(t, i, c, skip) {
                Step::Skip => {},
                Step::Take(kind) => {
                    let x = Candidate { kind, path: t.path_of(c), project: t.path_of(i), bytes: t.nodes[c].size };
                    out.push(x);
                    assert(candidate_views(out@) =~= candidate_views(out0).push(x@));
                    assert(candidate_views(out@) =~= had + taken_at(n, root, i as int, k + 1, sk));
                },
                Step::Enter => {
                    stack.push(c);
                    proof {
                        assert(stack@.drop_last() =~= stack0);
                        assert(stack_finds(n, root, stack@, sk) =~= found_entered(n, root, i as int, k + 1, sk) + stack_finds(
                            n,
                            root,
                            tail,
                            sk,
                        ));
                    }
                },
            }
            proof {
                assert(Seq::<CandidateView>::empty() + found_entered(n, root, i as int, k as int, sk) =~= found_entered(
                    n,
                    root,
                    i as int,
                    k as int,
                    sk,
                ));
            }
        }
        proof {
            assert(candidate_views(out@) + stack_finds(n, root, stack@, sk) =~= had + stack_finds(n, root, before, sk));
        }
    }
    assert(candidate_views(out@) + Seq::<CandidateView>::empty() =~= candidate_views(out@));
    out
}

/// The node of a scanned tree to start at for a dev root, if the tree covers it.
pub fn dev_root_in(t: &Tree, root: &FsPath) -> (r: Option<usize>)
    requires
        t.wf(),
    ensures
        opt_index(r) == match located(t.nodes@, t.root_path@, root@) {
            Some(i) => if t.nodes@[i].kind == NodeKind::Dir {
                Some(i)
            } else {
                None
            },
            None => None,
        },
        r matches Some(i) ==> i < t.nodes@.len(),
{
    match t.find(root) {
        Some(i) => if t.nodes[i].kind == NodeKind::Dir {
            Some(i)
        } else {
            None
        },
        None => None,
    }
}

/// The lockfiles by which a package manager restores a `node_modules`.
pub open spec fn lock_names() -> Seq<Seq<char>> {
    seq!["package-lock.json"@, "npm-shrinkwrap.json"@, "yarn.lock"@, "pnpm-lock.yaml"@, "bun.lockb"@, "bun.lock"@]
}

/// What a package manager leaves in a `node_modules` that it installed.
pub open spec fn install_names() -> Seq<Seq<char>> {
    seq![".package-lock.json"@, ".yarn-integrity"@, ".modules.yaml"@, ".yarn-state.yml"@]
}

/// Where to look for signs that a `node_modules` can be restored: lockfiles in
/// its project, and install metadata in it.
pub fn restore_signs(project: &FsPath, node_modules: &FsPath) -> (r: Vec<FsPath>)
    ensures
        paths_view(r@) == Seq::new(6, |i: int| join_bytes(project@, encode_utf8(lock_names()[i]))) + Seq::new(
            4,
            |i: int| join_bytes(node_modules@, encode_utf8(install_names()[i])),
        ),
{
    let out: Vec<FsPath> = vec![
        project.join_str("package-lock.json"),
        project.join_str("npm-shrinkwrap.json"),
        project.join_str("yarn.lock"),
        project.join_str("pnpm-lock.yaml"),
        project.join_str("bun.lockb"),
        project.join_str("bun.lock"),
        node_modules.join_str(".package-lock.json"),
        node_modules.join_str(".yarn-integrity"),
        node_modules.join_str(".modules.yaml"),
        node_modules.join_str(".yarn-state.yml"),
    ];
    assert(paths_view(out@) =~= Seq::new(6, |i: int| join_bytes(project@, encode_utf8(lock_names()[i]))) + Seq::new(
        4,
        |i: int| join_bytes(node_modules@, encode_utf8(install_names()[i])),
    ));
    out
}

/// One of the names is that of an app archive.
pub open spec fn holds_asar(names: Seq<Seq<u8>>) -> bool {
    exists|i: int| 0 <= i < names.len() && ends(lossy_text(#[trigger] names[i]), ".asar"@)
}

/// A `node_modules` that a package manager can restore.
pub open spec fn restorable(project: Seq<u8>, around: Seq<Seq<u8>>, signs: Seq<bool>) -> bool {
    let s = lossy_text(project);
    &&& !contains(s, "/resources/app"@)
    &&& !ends(s, "/resources"@)
    &&& !holds_asar(around)
    &&& signs.contains(true)
}

/// A `node_modules` a package manager can restore: the project has a lockfile
/// (or the folder carries the package manager's install metadata), and it is
/// not the bundled code of an installed app (VS Code, Discord, Obsidian …
/// ship `resources/app/node_modules`, which nothing can reinstall). `around`
/// holds the names in the project's folder and in the one above it, `signs`
/// which of `restore_signs` is a file.
pub fn is_restorable_node_modules(project: &FsPath, around: &Vec<Vec<u8>>, signs: &Vec<bool>) -> (r: bool)
    ensures
        r == restorable(project@, names_view(around@), signs@),
{
    let s = chars_of(project.display().as_str());
    let bundled = has(&s, "/resources/app");
    if bundled || ends_with(&s, "/resources") {
        return false;
    }
    let ghost names = names_view(around@);
    for i in 0..around.len()
        invariant
            names == names_view(around@),
            forall|j: int| 0 <= j < i ==> !ends(lossy_text(#[trigger] names[j]), ".asar"@),
    {
        if ends_with(&chars_of(utf8_lossy(&around[i]).as_str()), ".asar") {
            assert(ends(lossy_text(names[i as int]), ".asar"@));
            return false;
        }
    }
    for i in 0..signs.len()
        invariant
            names == names_view(around@),
            s@ == lossy_text(project@),
            !contains(s@, "/resources/app"@),
            !ends(s@, "/resources"@),
            !holds_asar(names),
            forall|j: int| 0 <= j < i ==> !signs@[j],
    {
        if signs[i] {
            assert(signs@.contains(true));
            return true;
        }
    }
    false
}

/// The candidates that are build output: a `node_modules` only if it can be
/// restored.
pub open spec fn usable(list: Seq<CandidateView>, ok: Seq<bool>) -> Seq<CandidateView>
    decreases list.len(),
{
    if list.len() == 0 {
        Seq::empty()
    } else {
        let rest = usable(list.drop_last(), ok);
        if list.last().kind == Artifact::Node && !ok[list.len() - 1] {
            rest
        } else {
            rest.push(list.last())
        }
    }
}

/// `p` lies inside a directory of `list`.
pub open spec fn nested(list: Seq<CandidateView>, p: Seq<u8>) -> bool {
    exists|i: int| 0 <= i < list.len() && inside(p, (#[trigger] list[i]).path) && !same_path(p, list[i].path)
}

/// `list` holds this path.
pub open spec fn listed(list: Seq<CandidateView>, p: Seq<u8>) -> bool {
    exists|i: int| 0 <= i < list.len() && same_path(p, (#[trigger] list[i]).path)
}

/// Those of `list` that are (or are not) bytecode caches, each path once (and
/// none that was seen), and never a path inside another candidate.
pub open spec fn distinct(
    list: Seq<CandidateView>,
    all: Seq<CandidateView>,
    python: bool,
    seen: Seq<CandidateView>,
) -> Seq<CandidateView>
    decreases list.len(),
{
    if list.len() == 0 {
        Seq::empty()
    } else {
        let rest = distinct(list.drop_last(), all, python, seen);
        let x = list.last();
        if (x.kind == Artifact::Pycache) == python && !nested(all, x.path) && !listed(seen, x.path) && !listed(rest, x.path) {
            rest.push(x)
        } else {
            rest
        }
    }
}

/// The keys by which candidates are listed, largest first.
pub open spec fn size_keys(list: Seq<CandidateView>) -> Seq<i128> {
    Seq::new(list.len(), |i: int| (0 - list[i].bytes) as i128)
}

/// Largest first; of the same size, as they were found.
pub open spec fn largest_first(list: Seq<CandidateView>) -> Seq<CandidateView> {
    arranged(list, ranked(size_keys(list)))
}

/// The project artifacts to list, largest first.
pub open spec fn artifacts_of(all: Seq<CandidateView>) -> Seq<CandidateView> {
    largest_first(distinct(all, all, false, Seq::empty()))
}

/// The bytecode caches.
pub open spec fn pycache_of(all: Seq<CandidateView>) -> Seq<CandidateView> {
    distinct(all, all, true, distinct(all, all, false, Seq::empty()))
}

/// The finding about one project artifact.
pub open spec fn artifact_finding(home: Seq<u8>, c: CandidateView) -> FindingView {
    let shown = tilde_text(c.project, home);
    let manifest = join_bytes(c.project, encode_utf8("Cargo.toml"@));
    let rust = c.kind == Artifact::Rust;
    FindingView {
        id: (if rust {
            "rust"@
        } else {
            "node"@
        }) + ":"@ + lossy_text(c.path),
        category: if rust {
            "Rust"@
        } else {
            "Node"@
        },
        title: (if rust {
            "Cargo target/ in "@
        } else {
            "node_modules/ in "@
        }) + shown,
        risk: Risk::Caution,
        bytes: c.bytes,
        detail: if !rust {
            "Installed npm dependencies. Restored with `npm ci` / `npm install` (needs network, and may resolve newer versions without a lockfile)."@
        } else if valid_utf8(manifest) {
            "Build output of a Rust project. Rebuilt by the next `cargo build`.\nEquivalent: cargo clean --manifest-path "@ + quoted(
                decode_utf8(manifest),
            )
        } else {
            "Build output of a Rust project. Rebuilt by the next `cargo build`.\nEquivalent: `cargo clean` inside the project."@
        },
        paths: seq![c.path],
        action: ActionView::Remove { paths: seq![c.path], keep_dir: false },
        needs_root: false,
    }
}

fn artifact_saving(home: &FsPath, c: &Candidate) -> (f: Finding)
    ensures
        f@ == artifact_finding(home@, c@),
{
    let shown = tilde(&c.project, home);
    let rust = c.kind == Artifact::Rust;
    let (prefix, category, title) = if rust {
        ("rust", "Rust", "Cargo target/ in ")
    } else {
        ("node", "Node", "node_modules/ in ")
    };
    let detail = if !rust {
        "Installed npm dependencies. Restored with `npm ci` / `npm install` (needs network, and may resolve newer versions without a lockfile).".to_owned()
    } else {
        match c.project.join_str("Cargo.toml").to_str() {
            Some(m) => "Build output of a Rust project. Rebuilt by the next `cargo build`.\nEquivalent: cargo clean --manifest-path ".to_owned().concat(
                shq(m.as_str()).as_str(),
            ),
            None => "Build output of a Rust project. Rebuilt by the next `cargo build`.\nEquivalent: `cargo clean` inside the project.".to_owned(),
        }
    };
    let removed: Vec<FsPath> = vec![c.path.clone()];
    assert(paths_view(removed@) =~= seq![c.path@]);
    let f = Finding {
        id: prefix.to_owned().concat(":").concat(c.path.display().as_str()),
        category: category.to_owned(),
        title: title.to_owned().concat(shown.as_str()),
        risk: Risk::Caution,
        bytes: c.bytes,
        detail,
        paths: vec![c.path.clone()],
        action: Action::Remove { paths: removed, keep_dir: false },
        needs_root: false,
    };
    assert(paths_view(f.paths@) =~= seq![c.path@]);
    assert(f@ =~= artifact_finding(home@, c@));
    f
}

/// The findings about the first `k` artifacts.
pub open spec fn artifact_list(home: Seq<u8>, list: Seq<CandidateView>, k: int) -> Seq<FindingView> {
    Seq::new(k as nat, |i: int| artifact_finding(home, list[i]))
}

/// The finding about bytecode caches.
pub open spec fn pycache_found(list: Seq<CandidateView>) -> Seq<FindingView> {
    if list.len() == 0 {
        Seq::empty()
    } else {
        let paths = Seq::new(list.len(), |i: int| list[i].path);
        seq![
            FindingView {
                id: "pycache"@,
                category: "Python"@,
                title: "__pycache__ directories ("@ + digits(list.len()) + ")"@,
                risk: Risk::Safe,
                bytes: sum_candidates(list) as u64,
                detail: "Compiled Python bytecode (.pyc). Python regenerates it automatically the next time a module is imported."@,
                paths,
                action: ActionView::Remove { paths, keep_dir: false },
                needs_root: false,
            },
        ]
    }
}

/// The bytes of candidates.
pub open spec fn sum_candidates(list: Seq<CandidateView>) -> nat
    decreases list.len(),
{
    if list.len() == 0 {
        0
    } else {
        sum_candidates(list.drop_last()) + list.last().bytes as nat
    }
}

/// How many artifacts are listed one by one.
pub open spec fn shown_count(list: Seq<CandidateView>) -> int {
    if list.len() > MAX_PROJECT_FINDINGS {
        MAX_PROJECT_FINDINGS as int
    } else {
        list.len() as int
    }
}

/// Candidates with the components of their paths.
struct Parted {
    list: Vec<Candidate>,
    comps: Vec<Vec<Vec<u8>>>,
}

impl Parted {
    spec fn ok(&self) -> bool {
        self.comps@.len() == self.list@.len() && forall|i: int|
            0 <= i < self.list@.len() ==> names_view(#[trigger] self.comps@[i]@) == comps(self.list@[i].path@)
    }

    spec fn all(&self) -> Seq<CandidateView> {
        candidate_views(self.list@)
    }

    fn same_at(&self, i: usize, j: usize) -> (r: bool)
        requires
            self.ok(),
            i < self.list@.len(),
            j < self.list@.len(),
        ensures
            r == same_path(self.all()[i as int].path, self.all()[j as int].path),
    {
        let (a, b) = (&self.comps[i], &self.comps[j]);
        proof {
            assert(names_view(self.comps@[i as int]@) == comps(self.list@[i as int].path@));
            assert(names_view(self.comps@[j as int]@) == comps(self.list@[j as int].path@));
            assert(names_view(a@).len() == a@.len() && names_view(b@).len() == b@.len());
        }
        let r = a.len() == b.len() && leads(a, b);
        proof {
            if r {
                assert(names_view(a@) =~= names_view(b@));
            }
        }
        r
    }

    fn inside_at(&self, i: usize, j: usize) -> (r: bool)
        requires
            self.ok(),
            i < self.list@.len(),
            j < self.list@.len(),
        ensures
            r == inside(self.all()[i as int].path, self.all()[j as int].path),
    {
        proof {
            assert(names_view(self.comps@[i as int]@) == comps(self.list@[i as int].path@));
            assert(names_view(self.comps@[j as int]@) == comps(self.list@[j as int].path@));
        }
        leads(&self.comps[j], &self.comps[i])
    }

    fn nested_at(&self, i: usize) -> (r: bool)
        requires
            self.ok(),
            i < self.list@.len(),
        ensures
            r == nested(self.all(), self.all()[i as int].path),
    {
        let ghost all = self.all();
        let ghost p = all[i as int].path;
        for j in 0..self.list.len()
            invariant
                self.ok(),
                i < self.list@.len(),
                all == self.all(),
                p == all[i as int].path,
                forall|k: int| 0 <= k < j ==> !(inside(p, (#[trigger] all[k]).path) && !same_path(p, all[k].path)),
        {
            if self.inside_at(i, j) && !self.same_at(i, j) {
                assert(inside(p, all[j as int].path) && !same_path(p, all[j as int].path));
                return true;
            }
        }
        false
    }

    fn among(&self, picks: &Vec<usize>, i: usize) -> (r: bool)
        requires
            self.ok(),
            i < self.list@.len(),
            forall|k: int| 0 <= k < picks@.len() ==> (#[trigger] picks@[k]) < self.list@.len(),
        ensures
            r == listed(picked(self.all(), picks@), self.all()[i as int].path),
    {
        let ghost (all, some) = (self.all(), picked(self.all(), picks@));
        for k in 0..picks.len()
            invariant
                self.ok(),
                i < self.list@.len(),
                all == self.all(),
                some == picked(all, picks@),
                forall|k: int| 0 <= k < picks@.len() ==> (#[trigger] picks@[k]) < self.list@.len(),
                forall|j: int| 0 <= j < k ==> !same_path(all[i as int].path, (#[trigger] some[j]).path),
        {
            if self.same_at(i, picks[k]) {
                assert(same_path(all[i as int].path, some[k as int].path));
                return true;
            }
        }
        false
    }

    fn pick(&self, python: bool, seen: &Vec<usize>) -> (r: Vec<usize>)
        requires
            self.ok(),
            forall|k: int| 0 <= k < seen@.len() ==> (#[trigger] seen@[k]) < self.list@.len(),
        ensures
            picked(self.all(), r@) == distinct(self.all(), self.all(), python, picked(self.all(), seen@)),
            forall|k: int| 0 <= k < r@.len() ==> (#[trigger] r@[k]) < self.list@.len(),
    {
        let ghost all = self.all();
        let mut out: Vec<usize> = Vec::new();
        assert(picked(all, out@) =~= Seq::empty());
        for i in 0..self.list.len()
            invariant
                self.ok(),
                all == self.all(),
                forall|k: int| 0 <= k < seen@.len() ==> (#[trigger] seen@[k]) < self.list@.len(),
                forall|k: int| 0 <= k < out@.len() ==> (#[trigger] out@[k]) < self.list@.len(),
                picked(all, out@) == distinct(all.take(i as int), all, python, picked(all, seen@)),
        {
            proof {
                assert(all.take(i + 1).drop_last() =~= all.take(i as int));
                assert(all.take(i + 1).last() == all[i as int]);
            }
            if (self.list[i].kind == Artifact::Pycache) == python && !self.nested_at(i) && !self.among(seen, i) && !self.among(&out, i) {
                let ghost before = out@;
                out.push(i);
                assert(picked(all, out@) =~= picked(all, before).push(all[i as int]));
            }
        }
        assert(all.take(self.list@.len() as int) =~= all);
        out
    }
}

/// The candidates at some positions.
spec fn picked(all: Seq<CandidateView>, at: Seq<usize>) -> Seq<CandidateView> {
    Seq::new(at.len(), |i: int| all[at[i] as int])
}

fn keep_usable(found: Vec<Candidate>, ok: &Vec<bool>) -> (r: Parted)
    requires
        ok@.len() == found@.len(),
    ensures
        r.ok(),
        r.all() == usable(candidate_views(found@), ok@),
{
    let ghost fv = candidate_views(found@);
    let mut list: Vec<Candidate> = Vec::new();
    let mut cs: Vec<Vec<Vec<u8>>> = Vec::new();
    assert(candidate_views(list@) =~= Seq::empty());
    for i in 0..found.len()
        invariant
            fv == candidate_views(found@),
            ok@.len() == found@.len(),
            candidate_views(list@) == usable(fv.take(i as int), ok@),
            cs@.len() == list@.len(),
            forall|j: int| 0 <= j < list@.len() ==> names_view(#[trigger] cs@[j]@) == comps(list@[j].path@),
    {
        let c = &found[i];
        proof {
            assert(fv.take(i + 1).drop_last() =~= fv.take(i as int));
            assert(fv.take(i + 1).last() == c@);
        }
        if c.kind != Artifact::Node || ok[i] {
            let ghost before = list@;
            let x = Candidate { kind: c.kind, path: c.path.clone(), project: c.project.clone(), bytes: c.bytes };
            cs.push(x.path.components());
            list.push(x);
            assert(candidate_views(list@) =~= candidate_views(before).push(x@));
        }
    }
    assert(fv.take(found@.len() as int) =~= fv);
    Parted { list, comps: cs }
}

/// What is found of the artifacts `all`: one finding for each of the largest, and
/// one for all the bytecode.
pub open spec fn projects_found(home: Seq<u8>, all: Seq<CandidateView>) -> Seq<FindingView> {
    let list = artifacts_of(all);
    artifact_list(home, list, shown_count(list)) + pycache_found(pycache_of(all))
}

/// The note about the artifacts that are not listed.
pub open spec fn projects_noted(list: Seq<CandidateView>) -> Seq<Seq<char>> {
    if list.len() > MAX_PROJECT_FINDINGS {
        seq![digits((list.len() - MAX_PROJECT_FINDINGS) as nat) + " smaller project artifact directories were not listed."@]
    } else {
        Seq::empty()
    }
}

/// Project build artifacts: the candidates of all dev roots in the order they
/// were found, and for each `node_modules` whether it can be restored.
/// Overlapping dev roots (e.g. ~ and ~/src) reach the same directories more
/// than once: each path is kept once, and never a path inside another
/// candidate.
pub fn artifact_findings(found: Vec<Candidate>, ok: &Vec<bool>, home: &FsPath) -> (r: CheckOutput)
    requires
        ok@.len() == found@.len(),
        sum_candidates(candidate_views(found@)) <= u64::MAX,
    ensures
        finding_views(r.findings@) == projects_found(home@, usable(candidate_views(found@), ok@)),
        texts(r.notes@) == projects_noted(artifacts_of(usable(candidate_views(found@), ok@))),
{
    let ghost fv = candidate_views(found@);
    let parted = keep_usable(found, ok);
    let ghost all = parted.all();
    let none: Vec<usize> = Vec::new();
    assert(picked(all, none@) =~= Seq::empty());
    let arts = parted.pick(false, &none);
    let py = parted.pick(true, &arts);
    let ghost kept = picked(all, arts@);
    let mut keys: Vec<i128> = Vec::new();
    for i in 0..arts.len()
        invariant
            all == parted.all(),
            kept == picked(all, arts@),
            forall|k: int| 0 <= k < arts@.len() ==> (#[trigger] arts@[k]) < parted.list@.len(),
            keys@ == size_keys(kept).take(i as int),
    {
        let key: i128 = 0 - parted.list[arts[i]].bytes as i128;
        keys.push(key);
        assert(keys@ =~= size_keys(kept).take(i + 1));
    }
    assert(keys@ =~= size_keys(kept));
    let o = rank(&keys);
    let ghost list = largest_first(kept);
    let total: usize = arts.len();
    let shown: usize = if total > MAX_PROJECT_FINDINGS {
        MAX_PROJECT_FINDINGS
    } else {
        total
    };
    let mut findings: Vec<Finding> = Vec::new();
    assert(finding_views(findings@) =~= artifact_list(home@, list, 0));
    for k in 0..shown
        invariant
            all == parted.all(),
            kept == picked(all, arts@),
            list == arranged(kept, o@),
            rearranges(o@, arts@.len() as int),
            shown <= arts@.len(),
            forall|k: int| 0 <= k < arts@.len() ==> (#[trigger] arts@[k]) < parted.list@.len(),
            finding_views(findings@) == artifact_list(home@, list, k as int),
    {
        let ghost before = findings@;
        assert(o@[k as int] < arts@.len());
        let f = artifact_saving(home, &parted.list[arts[o[k]]]);
        findings.push(f);
        proof {
            assert(list[k as int] == kept[o@[k as int] as int]);
            assert(finding_views(findings@) =~= finding_views(before).push(f@));
            assert(finding_views(findings@) =~= artifact_list(home@, list, k + 1));
        }
    }
    let mut notes: Vec<String> = Vec::new();
    assert(texts(notes@) =~= Seq::empty());
    if total > MAX_PROJECT_FINDINGS {
        let s = decimal((total - MAX_PROJECT_FINDINGS) as u64).concat(" smaller project artifact directories were not listed.");
        notes.push(s);
        assert(texts(notes@) =~= seq![s@]);
    }
    let ghost pv = picked(all, py@);
    proof {
        lemma_distinct_sum(all, all, true, kept);
        lemma_usable_sum(fv, ok@);
        assert(pv.len() == py@.len());
        assert(finding_views(findings@) + Seq::<FindingView>::empty() =~= finding_views(findings@));
    }
    if py.len() > 0 {
        let ghost before = findings@;
        let f = pycache_saving(&parted, &py);
        findings.push(f);
        assert(finding_views(findings@) =~= finding_views(before) + pycache_found(pv));
    }
    CheckOutput { findings, notes }
}

fn pycache_saving(parted: &Parted, py: &Vec<usize>) -> (f: Finding)
    requires
        parted.ok(),
        py@.len() > 0,
        forall|k: int| 0 <= k < py@.len() ==> (#[trigger] py@[k]) < parted.list@.len(),
        sum_candidates(picked(parted.all(), py@)) <= u64::MAX,
    ensures
        seq![f@] == pycache_found(picked(parted.all(), py@)),
{
    let ghost pv = picked(parted.all(), py@);
    let ghost want = Seq::new(pv.len(), |i: int| pv[i].path);
    let mut paths: Vec<FsPath> = Vec::new();
    let mut bytes: u64 = 0;
    for i in 0..py.len()
        invariant
            pv == picked(parted.all(), py@),
            want == Seq::new(pv.len(), |i: int| pv[i].path),
            forall|k: int| 0 <= k < py@.len() ==> (#[trigger] py@[k]) < parted.list@.len(),
            sum_candidates(pv) <= u64::MAX,
            bytes == sum_candidates(pv.take(i as int)),
            paths_view(paths@) == want.take(i as int),
    {
        let c = &parted.list[py[i]];
        let ghost before = paths@;
        proof {
            assert(pv.take(i + 1).drop_last() =~= pv.take(i as int));
            lemma_candidates_grow(pv, i + 1);
        }
        bytes += c.bytes;
        let p = c.path.clone();
        paths.push(p);
        assert(paths_view(paths@) =~= paths_view(before).push(p@));
        assert(paths_view(paths@) =~= want.take(i + 1));
    }
    assert(pv.take(py@.len() as int) =~= pv);
    assert(paths_view(paths@) =~= want);
    let f = Finding {
        id: "pycache".to_owned(),
        category: "Python".to_owned(),
        title: "__pycache__ directories (".to_owned().concat(decimal(py.len() as u64).as_str()).concat(")"),
        risk: Risk::Safe,
        bytes,
        detail: "Compiled Python bytecode (.pyc). Python regenerates it automatically the next time a module is imported.".to_owned(),
        action: Action::Remove { paths: copy_paths(&paths), keep_dir: false },
        paths,
        needs_root: false,
    };
    assert(seq![f@] =~= pycache_found(pv));
    f
}

proof fn lemma_candidates_grow(list: Seq<CandidateView>, k: int)
    requires
        0 <= k <= list.len(),
    ensures
        sum_candidates(list.take(k)) <= sum_candidates(list),
    decreases list.len(),
{
    if k < list.len() {
        assert(list.drop_last().take(k) =~= list.take(k));
        lemma_candidates_grow(list.drop_last(), k);
    } else {
        assert(list.take(k) =~= list);
    }
}

proof fn lemma_distinct_sum(list: Seq<CandidateView>, all: Seq<CandidateView>, python: bool, seen: Seq<CandidateView>)
    ensures
        sum_candidates(distinct(list, all, python, seen)) <= sum_candidates(list),
    decreases list.len(),
{
    if list.len() > 0 {
        lemma_distinct_sum(list.drop_last(), all, python, seen);
        let rest = distinct(list.drop_last(), all, python, seen);
        assert(rest.push(list.last()).drop_last() =~= rest);
    }
}

proof fn lemma_usable_sum(list: Seq<CandidateView>, ok: Seq<bool>)
    ensures
        sum_candidates(usable(list, ok)) <= sum_candidates(list),
    decreases list.len(),
{
    if list.len() > 0 {
        lemma_usable_sum(list.drop_last(), ok);
        let rest = usable(list.drop_last(), ok);
        assert(rest.push(list.last()).drop_last() =~= rest);
    }
}

/// The directories that are listed, project artifacts and bytecode caches.
pub open spec fn listed_dirs(all: Seq<CandidateView>) -> Seq<CandidateView> {
    artifacts_of(all) + pycache_of(all)
}

/// No directory is listed twice, nor inside another that is listed, be they
/// project artifacts or bytecode caches: removing one never removes bytes that
/// another counts.
pub proof fn law_artifacts_are_apart(all: Seq<CandidateView>, i: int, j: int)
    requires
        all.len() <= usize::MAX,
        0 <= i < listed_dirs(all).len(),
        0 <= j < listed_dirs(all).len(),
        i != j,
    ensures
        !inside(listed_dirs(all)[i].path, listed_dirs(all)[j].path),
{
    let d = distinct(all, all, false, Seq::empty());
    let e = distinct(all, all, true, d);
    let o = ranked(size_keys(d));
    let m = artifacts_of(all).len() as int;
    lemma_distinct_len(all, all, false, Seq::empty());
    lemma_ranked(size_keys(d));
    lemma_apart(all, all, false, Seq::empty());
    lemma_apart(all, all, true, d);
    let (x, y) = (listed_dirs(all)[i], listed_dirs(all)[j]);
    if i < m {
        assert(x == d[o[i] as int]);
    } else {
        assert(x == e[i - m]);
    }
    if j < m {
        assert(y == d[o[j] as int]);
    } else {
        assert(y == e[j - m]);
    }
    assert(all.contains(y) && !nested(all, x.path));
    let w = choose|w: int| 0 <= w < all.len() && all[w] == y;
    if inside(x.path, all[w].path) {
        assert(same_path(x.path, y.path));
        if i < m && j < m {
            let (a, b) = (o[i] as int, o[j] as int);
            assert(o[i] != o[j]);
            if a < b {
                assert(!same_path(d[b].path, d[a].path));
            } else {
                assert(!same_path(d[a].path, d[b].path));
            }
        } else if i >= m && j >= m {
            let (a, b) = (i - m, j - m);
            if a < b {
                assert(!same_path(e[b].path, e[a].path));
            } else {
                assert(!same_path(e[a].path, e[b].path));
            }
        } else if i < m {
            assert(!listed(d, y.path));
            assert(d[o[i] as int] == x);
        } else {
            assert(!listed(d, x.path));
            assert(d[o[j] as int] == y);
        }
    }
}

proof fn lemma_distinct_len(list: Seq<CandidateView>, all: Seq<CandidateView>, python: bool, seen: Seq<CandidateView>)
    ensures
        distinct(list, all, python, seen).len() <= list.len(),
    decreases list.len(),
{
    if list.len() > 0 {
        lemma_distinct_len(list.drop_last(), all, python, seen);
    }
}

proof fn lemma_apart(list: Seq<CandidateView>, all: Seq<CandidateView>, python: bool, seen: Seq<CandidateView>)
    requires
        forall|k: int| 0 <= k < list.len() ==> all.contains(#[trigger] list[k]),
    ensures
        ({
            let d = distinct(list, all, python, seen);
            &&& forall|k: int|
                0 <= k < d.len() ==> all.contains(#[trigger] d[k]) && !nested(all, d[k].path) && !listed(seen, d[k].path)
            &&& forall|x: int, y: int| 0 <= x < y < d.len() ==> !same_path((#[trigger] d[y]).path, (#[trigger] d[x]).path)
        }),
    decreases list.len(),
{
    if list.len() > 0 {
        let r = list.drop_last();
        assert forall|k: int| 0 <= k < r.len() implies all.contains(#[trigger] r[k]) by {
            assert(list[k] == r[k]);
        }
        lemma_apart(r, all, python, seen);
        assert(all.contains(list[list.len() - 1]));
    }
}

proof fn lemma_usable(list: Seq<CandidateView>, ok: Seq<bool>, x: CandidateView)
    requires
        usable(list, ok).contains(x),
    ensures
        exists|k: int| 0 <= k < list.len() && (#[trigger] list[k]) == x && (x.kind == Artifact::Node ==> ok[k]),
    decreases list.len(),
{
    if list.len() > 0 {
        let front = list.drop_last();
        let rest = usable(front, ok);
        lemma_push_contains(rest, list.last(), x);
        if rest.contains(x) {
            lemma_usable(front, ok, x);
            let k = choose|k: int| 0 <= k < front.len() && (#[trigger] front[k]) == x && (x.kind == Artifact::Node ==> ok[k]);
            assert(list[k] == x);
        } else {
            assert(list[list.len() - 1] == x);
        }
    }
}

/// Whatever is listed is one of the candidates, and a `node_modules` only if it
/// can be restored.
pub proof fn law_only_candidates_are_listed(found: Seq<CandidateView>, ok: Seq<bool>, i: int)
    requires
        usable(found, ok).len() <= usize::MAX,
        0 <= i < listed_dirs(usable(found, ok)).len(),
    ensures
        ({
            let x = listed_dirs(usable(found, ok))[i];
            exists|k: int| 0 <= k < found.len() && (#[trigger] found[k]) == x && (x.kind == Artifact::Node ==> ok[k])
        }),
{
    let all = usable(found, ok);
    let d = distinct(all, all, false, Seq::empty());
    let e = distinct(all, all, true, d);
    let o = ranked(size_keys(d));
    let m = artifacts_of(all).len() as int;
    lemma_distinct_len(all, all, false, Seq::empty());
    lemma_ranked(size_keys(d));
    lemma_apart(all, all, false, Seq::empty());
    lemma_apart(all, all, true, d);
    let x = listed_dirs(all)[i];
    if i < m {
        assert(x == d[o[i] as int]);
    } else {
        assert(x == e[i - m]);
    }
    assert(all.contains(x));
    lemma_usable(found, ok, x);
}

/// `x` is child `c` of node `i`, taken as build output.
pub open spec fn taken(n: Seq<Node>, root: Seq<u8>, skip: Option<int>, i: int, c: int, x: CandidateView) -> bool {
    &&& step_at(n, i, c, skip) == Step::Take(x.kind)
    &&& x.path == path_at(n, root, c)
    &&& x.project == path_at(n, root, i)
    &&& x.bytes == n[c].size
}

proof fn lemma_taken_at(n: Seq<Node>, root: Seq<u8>, i: int, k: int, skip: Option<int>, x: CandidateView)
    requires
        k <= n[i].children@.len(),
        taken_at(n, root, i, k, skip).contains(x),
    ensures
        exists|j: int| 0 <= j < k && taken(n, root, skip, i, #[trigger] n[i].children@[j] as int, x),
    decreases k,
{
    if k > 0 {
        let rest = taken_at(n, root, i, k - 1, skip);
        let c = n[i].children@[k - 1] as int;
        if rest.contains(x) {
            lemma_taken_at(n, root, i, k - 1, skip, x);
        } else {
            if let Step::Take(kind) = step_at(n, i, c, skip) {
                lemma_push_contains(
                    rest,
                    CandidateView { kind, path: path_at(n, root, c), project: path_at(n, root, i), bytes: n[c].size },
                    x,
                );
            }
            assert(taken(n, root, skip, i, n[i].children@[k - 1] as int, x));
        }
    }
}

/// Every candidate is a directory of the tree that the walk takes as build
/// output of the directory it is in: none is hidden, a `node_modules` is next
/// to a package.json, and a `target` next to a Cargo.toml or tagged as a cache.
pub proof fn law_candidates_are_build_output(n: Seq<Node>, root: Seq<u8>, i: int, skip: Option<int>, x: CandidateView)
    requires
        0 <= i < n.len(),
        found_below(n, root, i, skip).contains(x),
    ensures
        exists|p: int, j: int|
            0 <= p < n.len() && 0 <= j < n[p].children@.len() && taken(n, root, skip, p, #[trigger] n[p].children@[j] as int, x),
    decreases n.len() - i, 0int, 0int,
{
    let k = n[i].children@.len() as int;
    let a = taken_at(n, root, i, k, skip);
    let b = found_entered(n, root, i, k, skip);
    let w = choose|w: int| 0 <= w < (a + b).len() && (a + b)[w] == x;
    if w < a.len() {
        assert(a[w] == x);
        lemma_taken_at(n, root, i, k, skip, x);
        let j = choose|j: int| 0 <= j < k && taken(n, root, skip, i, #[trigger] n[i].children@[j] as int, x);
        assert(taken(n, root, skip, i, n[i].children@[j] as int, x));
    } else {
        assert(b[w - a.len()] == x);
        lemma_entered_taken(n, root, i, k, skip, x);
    }
}

proof fn lemma_entered_taken(n: Seq<Node>, root: Seq<u8>, i: int, k: int, skip: Option<int>, x: CandidateView)
    requires
        0 <= i < n.len(),
        found_entered(n, root, i, k, skip).contains(x),
    ensures
        exists|p: int, j: int|
            0 <= p < n.len() && 0 <= j < n[p].children@.len() && taken(n, root, skip, p, #[trigger] n[p].children@[j] as int, x),
    decreases n.len() - i - 1, 1int, k,
{
    if k > 0 {
        let c = n[i].children@[k - 1] as int;
        let b = found_entered(n, root, i, k - 1, skip);
        if b.contains(x) {
            lemma_entered_taken(n, root, i, k - 1, skip, x);
        } else {
            let all = found_entered(n, root, i, k, skip);
            let a = found_below(n, root, c, skip);
            let w = choose|w: int| 0 <= w < all.len() && all[w] == x;
            if i < c < n.len() && step_at(n, i, c, skip) == Step::Enter {
                if w >= a.len() {
                    assert(b[w - a.len()] == x);
                }
                assert(a[w] == x);
                law_candidates_are_build_output(n, root, c, skip, x);
            } else {
                assert(b[w] == x);
            }
        }
    }
}

/// What is build output: a `target` of a Cargo project (or one that is tagged as
/// a cache), the `node_modules` of a package, and every `__pycache__`. Hidden
/// folders and the snaps' folder are not looked into, nor is build output; every
/// other folder is.
pub proof fn law_build_output_is_told_by_its_project(n: Seq<Node>, i: int, c: int, skip: Option<int>)
    ensures
        ({
            let folder = n[c].kind == NodeKind::Dir && skip != Some(c);
            let name = n[c].name@;
            let cargo = n[i].markers & CARGO_TOML != 0 || n[c].markers & CACHEDIR_TAG != 0;
            let step = step_at(n, i, c, skip);
            &&& step == Step::Take(Artifact::Rust) <==> folder && name == "target"@ && cargo
            &&& step == Step::Take(Artifact::Node) <==> folder && name == "node_modules"@ && n[i].markers & PACKAGE_JSON != 0
            &&& step == Step::Take(Artifact::Pycache) <==> folder && name == "__pycache__"@
            &&& step == Step::Enter <==> folder && !"."@.is_prefix_of(name) && name != "node_modules"@ && name != "__pycache__"@ && !(name
                == "target"@ && cargo)
        }),
{
    reveal_strlit(".");
    reveal_strlit("target");
    reveal_strlit("node_modules");
    reveal_strlit("__pycache__");
    let name = n[c].name@;
    assert(starts(name, "."@) == "."@.is_prefix_of(name));
    if starts(name, "."@) {
        assert(name.subrange(0, 1)[0] == '.');
        assert(name[0] == '.');
    }
    assert("target"@.len() != "node_modules"@.len());
    assert("target"@.len() != "__pycache__"@.len());
    assert("node_modules"@[0] != "__pycache__"@[0]);
}

proof fn lemma_taken_here(n: Seq<Node>, root: Seq<u8>, i: int, k: int, skip: Option<int>, j: int, kind: Artifact)
    requires
        0 <= j < k,
        step_at(n, i, n[i].children@[j] as int, skip) == Step::Take(kind),
    ensures
        taken_at(n, root, i, k, skip).contains(
            (CandidateView {
                kind,
                path: path_at(n, root, n[i].children@[j] as int),
                project: path_at(n, root, i),
                bytes: n[n[i].children@[j] as int].size,
            }),
        ),
    decreases k,
{
    let rest = taken_at(n, root, i, k - 1, skip);
    let c = n[i].children@[k - 1] as int;
    let w = n[i].children@[j] as int;
    let x = CandidateView { kind, path: path_at(n, root, w), project: path_at(n, root, i), bytes: n[w].size };
    if j < k - 1 {
        lemma_taken_here(n, root, i, k - 1, skip, j, kind);
        if let Step::Take(other) = step_at(n, i, c, skip) {
            let y = CandidateView { kind: other, path: path_at(n, root, c), project: path_at(n, root, i), bytes: n[c].size };
            lemma_push_contains(rest, y, x);
        }
    } else {
        lemma_push_contains(rest, x, x);
    }
}

proof fn lemma_entered_here(n: Seq<Node>, root: Seq<u8>, i: int, k: int, skip: Option<int>, j: int, x: CandidateView)
    requires
        0 <= i < n.len(),
        0 <= j < k,
        i < n[i].children@[j] < n.len(),
        step_at(n, i, n[i].children@[j] as int, skip) == Step::Enter,
        found_below(n, root, n[i].children@[j] as int, skip).contains(x),
    ensures
        found_entered(n, root, i, k, skip).contains(x),
    decreases k,
{
    let c = n[i].children@[k - 1] as int;
    let a = if i < c < n.len() && step_at(n, i, c, skip) == Step::Enter { found_below(n, root, c, skip) } else { Seq::empty() };
    let b = found_entered(n, root, i, k - 1, skip);
    if j < k - 1 {
        lemma_entered_here(n, root, i, k - 1, skip, j, x);
        let w = choose|w: int| 0 <= w < b.len() && b[w] == x;
        assert((a + b)[a.len() + w] == x);
    } else {
        let w = choose|w: int| 0 <= w < a.len() && a[w] == x;
        assert((a + b)[w] == x);
    }
}

/// No build output is overlooked: what stands in a folder is found there, with
/// the bytes it uses, and what is found in a folder that is looked into is found
/// from above as well.
pub proof fn law_no_build_output_is_overlooked(n: Seq<Node>, root: Seq<u8>, i: int, skip: Option<int>, j: int, x: CandidateView)
    requires
        0 <= i < n.len(),
        0 <= j < n[i].children@.len(),
        i < n[i].children@[j] < n.len(),
    ensures
        taken(n, root, skip, i, n[i].children@[j] as int, x) ==> found_below(n, root, i, skip).contains(x),
        step_at(n, i, n[i].children@[j] as int, skip) == Step::Enter && found_below(n, root, n[i].children@[j] as int, skip).contains(x)
            ==> found_below(n, root, i, skip).contains(x),
{
    let k = n[i].children@.len() as int;
    let c = n[i].children@[j] as int;
    let (a, b) = (taken_at(n, root, i, k, skip), found_entered(n, root, i, k, skip));
    if taken(n, root, skip, i, c, x) {
        lemma_taken_here(n, root, i, k, skip, j, x.kind);
        let w = choose|w: int| 0 <= w < a.len() && a[w] == x;
        assert((a + b)[w] == x);
    }
    if step_at(n, i, c, skip) == Step::Enter && found_below(n, root, c, skip).contains(x) {
        lemma_entered_here(n, root, i, k, skip, j, x);
        let w = choose|w: int| 0 <= w < b.len() && b[w] == x;
        assert((a + b)[a.len() + w] == x);
    }
}

/// Installed packages can be restored if a lock file or the installer's record is
/// there, and the folder is no part of a packed app.
pub proof fn law_what_can_be_restored(project: Seq<u8>, around: Seq<Seq<u8>>, signs: Seq<bool>)
    ensures
        restorable(project, around, signs) <==> (exists|i: int| 0 <= i < signs.len() && #[trigger] signs[i]) && !contains(
            lossy_text(project),
            "/resources/app"@,
        ) && !"/resources"@.is_suffix_of(lossy_text(project)) && forall|i: int|
            0 <= i < around.len() ==> !".asar"@.is_suffix_of(lossy_text(#[trigger] around[i])),
{
    if signs.contains(true) {
        let i = choose|i: int| 0 <= i < signs.len() && signs[i] == true;
        assert(signs[i]);
    }
    if exists|i: int| 0 <= i < signs.len() && #[trigger] signs[i] {
        let i = choose|i: int| 0 <= i < signs.len() && #[trigger] signs[i];
        assert(signs[i] == true);
        assert(signs.contains(true));
    }
    assert(ends(lossy_text(project), "/resources"@) == "/resources"@.is_suffix_of(lossy_text(project)));
    if holds_asar(around) {
        let i = choose|i: int| 0 <= i < around.len() && ends(lossy_text(#[trigger] around[i]), ".asar"@);
        assert(".asar"@.is_suffix_of(lossy_text(around[i])));
    } else {
        assert forall|i: int| 0 <= i < around.len() implies !".asar"@.is_suffix_of(lossy_text(#[trigger] around[i])) by {
            assert(!ends(lossy_text(around[i]), ".asar"@));
        }
    }
}

/// The lock files of the package managers, and the records that they leave.
pub proof fn law_lock_files_and_records()
    ensures
        lock_names().contains("package-lock.json"@),
        lock_names().contains("npm-shrinkwrap.json"@),
        lock_names().contains("yarn.lock"@),
        lock_names().contains("pnpm-lock.yaml"@),
        lock_names().contains("bun.lockb"@),
        lock_names().contains("bun.lock"@),
        lock_names().len() == 6,
        install_names().contains(".package-lock.json"@),
        install_names().contains(".yarn-integrity"@),
        install_names().contains(".modules.yaml"@),
        install_names().contains(".yarn-state.yml"@),
        install_names().len() == 4,
{
    let (l, m) = (lock_names(), install_names());
    assert(l.contains(l[0]) && l.contains(l[1]) && l.contains(l[2]) && l.contains(l[3]) && l.contains(l[4]) && l.contains(l[5]));
    assert(m.contains(m[0]) && m.contains(m[1]) && m.contains(m[2]) && m.contains(m[3]));
}

/// Everything that was found is used, but for installed packages that could not
/// be restored.
pub proof fn law_only_what_cannot_be_restored_is_left_out(list: Seq<CandidateView>, ok: Seq<bool>, i: int)
    requires
        0 <= i < list.len(),
    ensures
        list[i].kind != Artifact::Node || ok[i] ==> usable(list, ok).contains(list[i]),
        usable(list, ok).len() <= list.len(),
    decreases list.len(),
{
    let rest = usable(list.drop_last(), ok);
    lemma_push_contains(rest, list.last(), list[i]);
    lemma_usable_few(list, ok);
    if i < list.len() - 1 {
        law_only_what_cannot_be_restored_is_left_out(list.drop_last(), ok, i);
    }
}

proof fn lemma_usable_few(list: Seq<CandidateView>, ok: Seq<bool>)
    ensures
        usable(list, ok).len() <= list.len(),
    decreases list.len(),
{
    if list.len() > 0 {
        lemma_usable_few(list.drop_last(), ok);
    }
}

proof fn lemma_distinct_holds(list: Seq<CandidateView>, all: Seq<CandidateView>, python: bool, seen: Seq<CandidateView>, i: int)
    requires
        0 <= i < list.len(),
        (list[i].kind == Artifact::Pycache) == python,
        !nested(all, list[i].path),
        !listed(seen, list[i].path),
    ensures
        listed(distinct(list, all, python, seen), list[i].path),
    decreases list.len(),
{
    let rest = distinct(list.drop_last(), all, python, seen);
    let out = distinct(list, all, python, seen);
    if i < list.len() - 1 {
        lemma_distinct_holds(list.drop_last(), all, python, seen, i);
        let k = choose|k: int| 0 <= k < rest.len() && same_path(list[i].path, (#[trigger] rest[k]).path);
        assert(out[k] == rest[k]);
    } else if listed(rest, list[i].path) {
        let k = choose|k: int| 0 <= k < rest.len() && same_path(list[i].path, (#[trigger] rest[k]).path);
        assert(out[k] == rest[k]);
    } else {
        assert(out[rest.len() as int] == list[i]);
    }
}

/// Every piece of build output that lies in no other one is listed, the largest
/// first.
pub proof fn law_build_output_is_listed_by_size(all: Seq<CandidateView>, i: int, a: int, b: int)
    requires
        all.len() <= usize::MAX,
        0 <= i < all.len(),
        !nested(all, all[i].path),
        0 <= a < b < artifacts_of(all).len(),
    ensures
        all[i].kind != Artifact::Pycache ==> listed(artifacts_of(all), all[i].path),
        all[i].kind == Artifact::Pycache ==> listed(artifacts_of(all), all[i].path) || listed(pycache_of(all), all[i].path),
        artifacts_of(all)[a].bytes >= artifacts_of(all)[b].bytes,
{
    let d = distinct(all, all, false, Seq::empty());
    let keys = size_keys(d);
    let o = ranked(keys);
    lemma_distinct_len(all, all, false, Seq::empty());
    lemma_ranked(keys);
    if all[i].kind != Artifact::Pycache {
        lemma_distinct_holds(all, all, false, Seq::empty(), i);
    } else if !listed(d, all[i].path) {
        lemma_distinct_holds(all, all, true, d, i);
    }
    if listed(d, all[i].path) {
        let k = choose|k: int| 0 <= k < d.len() && same_path(all[i].path, (#[trigger] d[k]).path);
        assert(o.contains(k as usize));
        let w = choose|w: int| 0 <= w < o.len() && o[w] == k as usize;
        assert(artifacts_of(all)[w] == d[k]);
    }
    assert(keys[o[a] as int] <= keys[o[b] as int]);
}

/// The sixty largest pieces are findings of their own, and a note counts the
/// rest.
pub proof fn law_the_sixty_largest_are_listed(home: Seq<u8>, all: Seq<CandidateView>, i: int)
    requires
        0 <= i < artifacts_of(all).len(),
    ensures
        i < 60 ==> projects_found(home, all).contains(artifact_finding(home, artifacts_of(all)[i])),
        artifacts_of(all).len() <= 60 ==> projects_noted(artifacts_of(all)).len() == 0,
        artifacts_of(all).len() > 60 ==> projects_noted(artifacts_of(all)) == seq![
            digits((artifacts_of(all).len() - 60) as nat) + " smaller project artifact directories were not listed."@,
        ],
{
    let list = artifacts_of(all);
    let (a, b) = (artifact_list(home, list, shown_count(list)), pycache_found(pycache_of(all)));
    if i < 60 {
        assert((a + b)[i] == artifact_finding(home, list[i]));
    }
}

/// What a finding about build output says: that the folder goes as a whole, under
/// an id of its own, with the bytes it uses, and that rebuilding costs time.
pub proof fn law_build_output_is_removed_whole(home: Seq<u8>, c: CandidateView)
    ensures
        ({
            let f = artifact_finding(home, c);
            &&& f.paths == seq![c.path]
            &&& f.action == ActionView::Remove { paths: seq![c.path], keep_dir: false }
            &&& f.bytes == c.bytes
            &&& f.risk == Risk::Caution
            &&& !f.needs_root
            &&& c.kind == Artifact::Rust ==> f.category == "Rust"@ && f.id == "rust:"@ + lossy_text(c.path)
            &&& c.kind == Artifact::Node ==> f.category == "Node"@ && f.id == "node:"@ + lossy_text(c.path)
        }),
{
    reveal_strlit("rust");
    reveal_strlit("node");
    reveal_strlit(":");
    reveal_strlit("rust:");
    reveal_strlit("node:");
    assert("rust"@ + ":"@ =~= "rust:"@);
    assert("node"@ + ":"@ =~= "node:"@);
}

/// All bytecode goes in one finding, a safe one.
pub proof fn law_bytecode_is_one_finding(list: Seq<CandidateView>, i: int)
    requires
        0 <= i < list.len(),
    ensures
        pycache_found(list).len() == 1,
        pycache_found(list)[0].paths == Seq::new(list.len(), |k: int| list[k].path),
        pycache_found(list)[0].action == (ActionView::Remove { paths: pycache_found(list)[0].paths, keep_dir: false }),
        pycache_found(list)[0].risk == Risk::Safe,
        pycache_found(list)[0].bytes == sum_candidates(list) as u64,
        pycache_found(list)[0].id == "pycache"@,
        sum_candidates(list) == sum_candidates(list.remove(i)) + list[i].bytes,
    decreases list.len(),
{
    if i < list.len() - 1 {
        law_bytecode_is_one_finding(list.drop_last(), i);
        assert(list.remove(i).drop_last() =~= list.drop_last().remove(i));
        assert(list.remove(i).last() == list.last());
    } else {
        assert(list.remove(i) =~= list.drop_last());
    }
}

/// Snaps keep their own projects: their folder in the home folder is not looked
/// into.
pub proof fn law_snaps_are_not_looked_into(t: Tree, start: usize, home: FsPath, r: Vec<Candidate>, s: int)
    requires
        call_ensures(project_candidates, (&t, start, &home), r),
        located(t.nodes@, t.root_path@, join_bytes(home@, encode_utf8("snap"@))) == Some(s),
    ensures
        candidate_views(r@) == found_below(t.nodes@, t.root_path@, start as int, Some(s)),
{
}

/// The titles tell the project, and how many folders of bytecode there are.
pub proof fn law_project_titles(home: Seq<u8>, c: CandidateView, list: Seq<CandidateView>)
    ensures
        c.kind == Artifact::Rust ==> artifact_finding(home, c).title == "Cargo target/ in "@ + tilde_text(c.project, home),
        c.kind == Artifact::Node ==> artifact_finding(home, c).title == "node_modules/ in "@ + tilde_text(c.project, home),
        list.len() > 0 ==> pycache_found(list)[0].title == "__pycache__ directories ("@ + digits(list.len()) + ")"@,
{
}

} // verus!
