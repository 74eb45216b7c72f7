use linux_disk_prune::engine::{combine_checks, overlays, Runs};
use linux_disk_prune::classify::{classify, Kind};
use linux_disk_prune::large::{buckets, by_kind, file_count, large_items, outermost_bytes, Show};
use linux_disk_prune::links::build_tree;
use linux_disk_prune::path::FsPath;
use linux_disk_prune::rules::projects::{
    artifact_findings, dev_root_in, is_restorable_node_modules, project_candidates, restore_signs, Artifact, Candidate, MAX_PROJECT_FINDINGS,
};
use linux_disk_prune::rules::{Action, CheckOutput, Finding, Report, Risk};
use linux_disk_prune::scan::{finish_dir, scan_dir_raw, unread_dir, Entry, EntryKind, Link, Tmp};
use linux_disk_prune::scanner::{ScanOptions, Tree};
use linux_disk_prune::summary::largest_dirs;

const MIB: u64 = 1 << 20;
const BLOCK: u64 = 4096;

/// A directory tree as a scan sees it.
#[derive(Clone)]
struct Fs {
    name: Vec<u8>,
    kind: EntryKind,
    size: u64,
    dev: u64,
    ino: u64,
    nlink: u64,
    readable: bool,
    kids: Vec<Fs>,
}

/// Allocated bytes of a file of that length.
fn allocated(len: u64) -> u64 {
    len.div_ceil(BLOCK) * BLOCK
}

impl Fs {
    fn dir(name: &[u8]) -> Fs {
        Fs { name: name.to_vec(), kind: EntryKind::Dir, size: BLOCK, dev: 1, ino: 0, nlink: 2, readable: true, kids: Vec::new() }
    }

    fn at(&mut self, path: &[&[u8]]) -> &mut Fs {
        let mut cur = self;
        for part in path {
            let i = match cur.kids.iter().position(|k| k.name == *part) {
                Some(i) => i,
                None => {
                    cur.kids.push(Fs::dir(part));
                    cur.kids.len() - 1
                }
            };
            cur = &mut cur.kids[i];
        }
        cur
    }

    fn mkdir(&mut self, path: &str) -> &mut Fs {
        let parts: Vec<&[u8]> = path.split('/').map(str::as_bytes).collect();
        self.at(&parts)
    }

    fn leaf(&mut self, path: &str, kind: EntryKind, size: u64, ino: u64, nlink: u64) {
        let f = self.mkdir(path);
        (f.kind, f.size, f.ino, f.nlink) = (kind, size, ino, nlink);
    }

    fn file(&mut self, path: &str, len: u64) -> u64 {
        self.leaf(path, EntryKind::Other, allocated(len), 0, 1);
        allocated(len)
    }
}

struct Walk<'a> {
    opts: &'a ScanOptions,
    root_dev: u64,
    links: Vec<Link>,
    dirs: u64,
    errors: u64,
}

fn walk(fs: &Fs, path: &FsPath, name: String, raw: Option<Vec<u8>>, own: u64, w: &mut Walk) -> Tmp {
    w.dirs += 1;
    if !fs.readable {
        w.errors += 1;
        return unread_dir(name, raw, own, true);
    }
    let list: Vec<Option<Entry>> = fs
        .kids
        .iter()
        .map(|k| Some(Entry { name: k.name.clone(), kind: k.kind, size: k.size, dev: k.dev, ino: k.ino, nlink: k.nlink }))
        .collect();
    let part = scan_dir_raw(path, name, raw, own, &list, w.opts, w.root_dev);
    w.links.extend(part.links);
    w.errors += part.errors;
    let mut subs = Vec::new();
    for s in part.subdirs {
        let exact = s.path.file_name().unwrap();
        let kid = fs.kids.iter().find(|k| k.name == exact).unwrap();
        subs.push(walk(kid, &s.path, s.name, s.raw, s.own, w));
    }
    finish_dir(part.node, subs)
}

const ROOT: &str = "/srv/d";

fn scan(fs: &Fs, opts: &ScanOptions) -> Tree {
    let root = FsPath::new(ROOT);
    let mut w = Walk { opts, root_dev: fs.dev, links: Vec::new(), dirs: 0, errors: 0 };
    let tmp = walk(fs, &root, ROOT.to_string(), None, fs.size, &mut w);
    build_tree(root, &tmp, &w.links, w.dirs, w.errors)
}

fn d(rel: &str) -> FsPath {
    FsPath::new(ROOT).join_str(rel)
}

fn options(min_file_size: u64) -> ScanOptions {
    ScanOptions { min_file_size, ..ScanOptions::default() }
}

/// The folder of a fake file system at a path, if there is one.
fn look<'a>(fs: &'a Fs, path: &FsPath) -> Option<&'a Fs> {
    let rest = path.strip_prefix(&FsPath::new(ROOT))?;
    let mut cur = fs;
    for part in rest.components() {
        cur = cur.kids.iter().find(|k| k.name == part)?;
    }
    Some(cur)
}

fn names_in(fs: &Fs, path: &FsPath) -> Vec<Vec<u8>> {
    look(fs, path).map_or(Vec::new(), |x| x.kids.iter().map(|k| k.name.clone()).collect())
}

fn restorable(fs: &Fs, c: &Candidate) -> bool {
    if c.kind != Artifact::Node {
        return true;
    }
    let mut around = names_in(fs, &c.project);
    if let Some(up) = c.project.parent() {
        around.extend(names_in(fs, &up));
    }
    let signs = restore_signs(&c.project, &c.path).iter().map(|s| look(fs, s).is_some_and(|f| f.kind == EntryKind::Other)).collect();
    is_restorable_node_modules(&c.project, &around, &signs)
}

fn run_artifact_check(fs: &Fs, roots: &[FsPath], opts: &ScanOptions) -> CheckOutput {
    let home = FsPath::new(ROOT);
    let t = scan(fs, opts);
    let mut found = Vec::new();
    for r in roots {
        found.extend(project_candidates(&t, dev_root_in(&t, r).unwrap(), &home));
    }
    let ok: Vec<bool> = found.iter().map(|c| restorable(fs, c)).collect();
    artifact_findings(found, &ok, &home)
}

fn du(fs: &Fs) -> u64 {
    fs.size + fs.kids.iter().map(du).sum::<u64>()
}

fn home_root() -> FsPath {
    FsPath::new(ROOT)
}

fn artifact_home() -> Fs {
    let mut d = Fs::dir(b"d");
    let big = 2 << 20;
    for (f, len) in [
        ("proj/Cargo.toml", 10),
        ("proj/target/debug/app", big),
        ("proj/src/target/x", big), // target without manifest: not an artifact
        ("notrust/target/big", big),
        ("tagged/target/CACHEDIR.TAG", 43),
        ("tagged/target/release/app", big),
        ("web/package.json", 10),
        ("web/package-lock.json", 10),
        ("web/node_modules/dep/index.js", big),
        // No lockfile: an installed app's bundled code, not restorable.
        ("apps/VSCode/resources/app/package.json", 10),
        ("apps/VSCode/resources/app/package-lock.json", 10),
        ("apps/VSCode/resources/app/node_modules/x/index.js", big),
        ("nolock/package.json", 10),
        ("nolock/node_modules/y/index.js", big),
        ("web/node_modules/dep/Cargo.toml", 10),
        ("web/node_modules/dep/target/x", big), // inside node_modules: not separate
        ("web/node_modules/dep/__pycache__/x.pyc", 10),
        ("nopkg/node_modules/big", big),
        ("py/a/__pycache__/m.pyc", 700_000),
        ("py/b/c/__pycache__/n.pyc", 700_000),
        (".hidden/proj/Cargo.toml", 10),
        (".hidden/proj/target/x", big),
        (".nvm/lib/node_modules/x", big),
        ("snap/app/proj/Cargo.toml", 10),
        ("snap/app/proj/target/x", big),
        ("proj/target/__pycache__/x.pyc", 10), // inside target: not separate
    ] {
        d.file(f, len);
    }
    d
}

fn ids(out: &CheckOutput) -> Vec<String> {
    let mut v: Vec<String> = out.findings.iter().map(|f| f.id.clone()).collect();
    v.sort();
    v
}

fn removed(f: &Finding) -> (&Vec<FsPath>, bool) {
    match &f.action {
        Action::Remove { paths, keep_dir } => (paths, *keep_dir),
        other => panic!("{other:?}"),
    }
}

fn shown(v: &[FsPath]) -> Vec<String> {
    v.iter().map(|x| x.display()).collect()
}

#[test]
fn artifacts_detected_only_with_project_markers() {
    let fs = artifact_home();
    let want = [
        format!("node:{ROOT}/web/node_modules"),
        "pycache".to_string(),
        format!("rust:{ROOT}/proj/target"),
        format!("rust:{ROOT}/tagged/target"),
    ];
    let bytes = |o: &CheckOutput| o.findings.iter().map(|f| f.bytes).sum::<u64>();
    let out = run_artifact_check(&fs, &[home_root()], &options(u64::MAX));
    assert_eq!(ids(&out), want);
    for f in &out.findings {
        let (paths, keep_dir) = removed(f);
        assert!(!keep_dir && !f.needs_root);
        assert_eq!(shown(paths), shown(&f.paths));
        if f.id == "pycache" {
            assert_eq!(f.risk, Risk::Safe);
            let mut p = shown(paths);
            p.sort();
            assert_eq!(p, [format!("{ROOT}/py/a/__pycache__"), format!("{ROOT}/py/b/c/__pycache__")]);
            assert_eq!(f.bytes, paths.iter().map(|x| du(look(&fs, x).unwrap())).sum::<u64>());
        } else {
            assert_eq!(f.risk, Risk::Caution);
            assert_eq!(f.bytes, du(look(&fs, &paths[0]).unwrap()), "{}", f.id);
        }
    }
    // Same answer when reusing the main scan tree.
    let out2 = run_artifact_check(&fs, &[home_root()], &ScanOptions::default());
    assert_eq!(ids(&out2), want);
    assert_eq!(bytes(&out), bytes(&out2));
}

#[test]
fn artifacts_not_double_counted_with_overlapping_dev_roots() {
    let fs = artifact_home();
    let roots = [home_root(), d("proj"), d("py"), d("py/a")];
    let out = run_artifact_check(&fs, &roots, &ScanOptions::default());
    let single = run_artifact_check(&fs, &[home_root()], &ScanOptions::default());
    assert_eq!(ids(&out), ids(&single), "raw output must not repeat a path");
    let py = out.findings.iter().find(|f| f.id == "pycache").unwrap();
    assert_eq!(py.paths.len(), 2);
    let py1 = single.findings.iter().find(|f| f.id == "pycache").unwrap();
    assert_eq!(py.bytes, py1.bytes);
    let all: Vec<&FsPath> = out.findings.iter().flat_map(|f| &f.paths).collect();
    for p in &all {
        assert!(!all.iter().any(|q| !q.same(p) && p.starts_with(q)), "{p:?} nested in another finding");
    }
}

#[test]
fn artifact_cap_and_one_mib_threshold() {
    let mut fs = Fs::dir(b"d");
    for i in 0..63 {
        fs.file(&format!("p{i:02}/Cargo.toml"), 1);
        fs.file(&format!("p{i:02}/target/x"), if i < 3 { 2 << 20 } else { 100 });
    }
    let out = run_artifact_check(&fs, &[home_root()], &ScanOptions::default());
    assert_eq!(out.findings.len(), 60);
    assert_eq!(out.findings.len(), MAX_PROJECT_FINDINGS);
    assert_eq!(out.notes, ["3 smaller project artifact directories were not listed."]);
    // Largest kept first.
    for i in 0..3 {
        assert!(out.findings.iter().any(|f| f.paths[0].same(&d(&format!("p{i:02}/target")))));
    }
    let mut r = Report::default();
    r.merge(out);
    assert_eq!(r.findings.len(), 3, "only the ≥ 1 MiB targets survive merge");
    assert!(r.findings.iter().all(|f| f.bytes >= 1 << 20));
}

#[test]
fn non_utf8_project_targets_real_dir_not_lossy_decoy() {
    let mut fs = Fs::dir(b"d");
    for (path, len) in [(vec![&b"caf\xe9"[..], b"Cargo.toml"], 10u64), (vec![&b"caf\xe9"[..], b"target", b"debug", b"big"], 2 << 20)] {
        let f = fs.at(&path);
        (f.kind, f.size, f.nlink) = (EntryKind::Other, allocated(len), 1);
    }
    fs.file("caf\u{FFFD}/target/precious", 2 << 20);
    let real = home_root().join_name(&b"caf\xe9".to_vec());
    for opts in [options(u64::MAX), ScanOptions::default()] {
        let mut out = run_artifact_check(&fs, &[home_root()], &opts);
        assert_eq!(out.findings.len(), 1, "{:?}", out.findings);
        let f = out.findings.pop().unwrap();
        assert_eq!(f.paths.len(), 1);
        assert!(f.paths[0].same(&real.join_str("target")));
        // No lossy path in any shell text.
        assert!(!f.command_text().contains('\u{FFFD}'), "{}", f.command_text());
        assert!(!f.detail.contains('\u{FFFD}'));
        assert!(f.is_actionable(), "user-owned removal runs in-process");
        // What is removed is the real folder: its path is not the decoy's.
        let (paths, keep_dir) = removed(&f);
        assert!(!keep_dir && !paths[0].same(&d("caf\u{FFFD}/target")));
        // A root removal with such a path is never handed to a shell.
        let root_f = Finding { needs_root: true, ..f };
        assert!(!root_f.is_actionable());
    }
}

#[test]
fn reclaim_shading_comes_only_from_findings() {
    let mut fs = Fs::dir(b"d");
    for f in ["mycache/a", "archives/b.tgz", "web/dist/c", "nopkg/node_modules/d", "proj/target/e", "x/f"] {
        fs.file(f, 2 << 20);
    }
    fs.file("proj/Cargo.toml", 1);
    let t = scan(&fs, &options(0));
    let kinds = classify(&t);
    assert!(kinds.iter().any(|k| matches!(k, Kind::Cache | Kind::Build)), "fixture has cache/build-looking dirs");

    let (reclaim, nodes) = overlays(&t, &Report::default().findings);
    assert!(reclaim.iter().all(|r| !r), "no findings -> nothing hatched");
    assert!(nodes.iter().all(|n| n.is_none()));

    let target = d("proj/target");
    let mut report = Report::default();
    report.merge(CheckOutput::one(Finding {
        id: "rust:x".into(),
        category: "Rust".into(),
        title: "t".into(),
        risk: Risk::Caution,
        bytes: 2 << 20,
        detail: String::new(),
        paths: vec![d("proj/target")],
        action: Action::Remove { paths: vec![d("proj/target")], keep_dir: false },
        needs_root: false,
    }));
    let (reclaim, nodes) = overlays(&t, &report.findings);
    let ti = t.find(&target).unwrap();
    assert_eq!(nodes[ti], Some(Risk::Caution));
    assert_eq!(nodes.iter().filter(|n| n.is_some()).count(), 1);
    for i in 0..t.nodes.len() {
        let inside = t.path_of(i).starts_with(&target);
        assert_eq!(reclaim[i], inside, "{:?}", t.path_of(i));
    }
}

fn large_tree() -> Tree {
    let mut fs = Fs::dir(b"d");
    for (f, mb) in [("a/big.bin", 3), ("a/small.bin", 1), ("b/c/one.bin", 2), ("b/c/two.bin", 2), ("b/tiny.txt", 0)] {
        fs.file(f, mb * MIB);
    }
    scan(&fs, &options(0))
}

#[test]
fn finds_files_and_innermost_folders_over_the_limit() {
    let t = large_tree();
    let names = |v: Vec<usize>| v.into_iter().map(|i| t.nodes[i].name.clone()).collect::<Vec<_>>();

    // Files only, ≥ 2 MiB, largest first.
    let f = names(large_items(&t, 2 * MIB, Show::Files, true, ""));
    assert_eq!(f[0], "big.bin");
    assert_eq!(f.len(), 3);
    assert!(!f.contains(&"small.bin".to_string()));
    // Folders ≥ 3 MiB: innermost hides b (its child c qualifies); all shows both.
    let inner = names(large_items(&t, 3 * MIB, Show::Folders, true, ""));
    assert!(inner.contains(&"c".to_string()) && inner.contains(&"a".to_string()) && !inner.contains(&"b".to_string()));
    let all = names(large_items(&t, 3 * MIB, Show::Folders, false, ""));
    assert!(all.contains(&"b".to_string()) && all.contains(&"c".to_string()));
    // Root is never listed; name filter is case-insensitive.
    assert!(!large_items(&t, 1, Show::Both, false, "").contains(&0));
    assert_eq!(names(large_items(&t, 1, Show::Both, false, "BIG")), vec!["big.bin".to_string()]);
    // Histogram: 3 MiB file is in 1–2× of 2 MiB? no: 1.5× → bucket 0.
    let b = buckets(&t, &large_items(&t, 2 * MIB, Show::Files, true, ""), 2 * MIB);
    assert_eq!(b[0].1, 3);
}

#[test]
fn large_items_are_counted_once() {
    let t = large_tree();
    let items = large_items(&t, 2 * MIB, Show::Both, false, "");
    // a holds big.bin, b holds c holds both files: a and b are outermost.
    let (a, b) = (t.find(&d("a")).unwrap(), t.find(&d("b")).unwrap());
    assert_eq!(outermost_bytes(&t, &items), t.nodes[a].size + t.nodes[b].size);
    assert_eq!(file_count(&t, &items), 3);
    let files = large_items(&t, 2 * MIB, Show::Files, true, "");
    let kinds = classify(&t);
    assert_eq!(by_kind(&t, &kinds, &files).iter().map(|k| k.1).sum::<u64>(), 7 * MIB);
    // 1–2×, 2–4×, 4–8×, 8–16× and more of the limit.
    let b = buckets(&t, &files, MIB);
    assert_eq!((b[0], b[1]), ((0, 0), (7 * MIB, 3)));
}

#[test]
fn the_largest_folders_come_first() {
    let t = large_tree();
    let top = largest_dirs(&t, 2, 3);
    let names: Vec<&str> = top.iter().map(|i| t.nodes[*i].name.as_str()).collect();
    assert_eq!(names, ["b", "c"]);
}

#[test]
fn results_of_an_earlier_run_do_not_count() {
    let mut r = Runs::new();
    r.start_scan();
    let first = r.rules;
    assert!(r.tree_counts(r.scan));
    r.reanalyze();
    assert!(!r.rules_done(first), "superseded");
    let now = r.rules;
    assert!(r.rules_done(now));
}

#[test]
fn checks_are_combined_in_order() {
    let f = |id: &str| Finding {
        id: id.into(),
        category: String::new(),
        title: String::new(),
        risk: Risk::Safe,
        bytes: 2 * MIB,
        detail: String::new(),
        paths: vec![],
        action: Action::Manual,
        needs_root: false,
    };
    let out = combine_checks(vec![CheckOutput::one(f("a")), CheckOutput::note("n".into()), CheckOutput::one(f("b"))], true);
    assert_eq!(out.findings.iter().map(|x| x.id.as_str()).collect::<Vec<_>>(), ["a", "b"]);
    assert!(out.notes.contains(&"n".to_string()));
    // Without root, a note says that more could be found.
    let asked = combine_checks(vec![], false);
    let root = combine_checks(vec![], true);
    assert!(asked.notes.len() >= root.notes.len());
}
