use linux_disk_prune::links::build_tree;
use linux_disk_prune::path::FsPath;
use linux_disk_prune::scan::{disk_bytes, finish_dir, scan_dir_raw, unread_dir, Entry, EntryKind, Link, Tmp};
use linux_disk_prune::scanner::{NodeKind, ScanOptions, Tree, CARGO_TOML};
use linux_disk_prune::usage::{contents_bytes, du, enters, unique_bytes, Visit};

const BLOCK: u64 = 4096;

/// A directory tree as a scan sees it.
#[derive(Clone)]
struct Fs {
    name: Vec<u8>,
    kind: EntryKind,
    size: u64,
    dev: u64,
    ino: u64,
    nlink: u64,
    readable: bool,
    kids: Vec<Fs>,
}

/// Allocated bytes of a file of that length.
fn allocated(len: u64) -> u64 {
    len.div_ceil(BLOCK) * BLOCK
}

impl Fs {
    fn dir(name: &[u8]) -> Fs {
        Fs { name: name.to_vec(), kind: EntryKind::Dir, size: BLOCK, dev: 1, ino: 0, nlink: 2, readable: true, kids: Vec::new() }
    }

    fn at(&mut self, path: &[&[u8]]) -> &mut Fs {
        let mut cur = self;
        for part in path {
            let i = match cur.kids.iter().position(|k| k.name == *part) {
                Some(i) => i,
                None => {
                    cur.kids.push(Fs::dir(part));
                    cur.kids.len() - 1
                }
            };
            cur = &mut cur.kids[i];
        }
        cur
    }

    fn mkdir(&mut self, path: &str) -> &mut Fs {
        let parts: Vec<&[u8]> = path.split('/').map(str::as_bytes).collect();
        self.at(&parts)
    }

    fn leaf(&mut self, path: &str, kind: EntryKind, size: u64, ino: u64, nlink: u64) {
        let f = self.mkdir(path);
        (f.kind, f.size, f.ino, f.nlink) = (kind, size, ino, nlink);
    }

    fn file(&mut self, path: &str, len: u64) -> u64 {
        self.leaf(path, EntryKind::Other, allocated(len), 0, 1);
        allocated(len)
    }
}

struct Walk<'a> {
    opts: &'a ScanOptions,
    root_dev: u64,
    links: Vec<Link>,
    dirs: u64,
    errors: u64,
}

fn walk(fs: &Fs, path: &FsPath, name: String, raw: Option<Vec<u8>>, own: u64, w: &mut Walk) -> Tmp {
    w.dirs += 1;
    if !fs.readable {
        w.errors += 1;
        return unread_dir(name, raw, own, true);
    }
    let list: Vec<Option<Entry>> = fs
        .kids
        .iter()
        .map(|k| Some(Entry { name: k.name.clone(), kind: k.kind, size: k.size, dev: k.dev, ino: k.ino, nlink: k.nlink }))
        .collect();
    let part = scan_dir_raw(path, name, raw, own, &list, w.opts, w.root_dev);
    w.links.extend(part.links);
    w.errors += part.errors;
    let mut subs = Vec::new();
    for s in part.subdirs {
        let exact = s.path.file_name().unwrap();
        let kid = fs.kids.iter().find(|k| k.name == exact).unwrap();
        subs.push(walk(kid, &s.path, s.name, s.raw, s.own, w));
    }
    finish_dir(part.node, subs)
}

const ROOT: &str = "/srv/d";

fn scan(fs: &Fs, opts: &ScanOptions) -> Tree {
    let root = FsPath::new(ROOT);
    let mut w = Walk { opts, root_dev: fs.dev, links: Vec::new(), dirs: 0, errors: 0 };
    let tmp = walk(fs, &root, ROOT.to_string(), None, fs.size, &mut w);
    build_tree(root, &tmp, &w.links, w.dirs, w.errors)
}

fn d(rel: &str) -> FsPath {
    FsPath::new(ROOT).join_str(rel)
}

fn opts(min: u64) -> ScanOptions {
    ScanOptions { one_file_system: true, min_file_size: min, threads: 2 }
}

fn visit(f: &Fs) -> Visit {
    Visit {
        is_dir: f.kind == EntryKind::Dir,
        is_symlink: f.kind == EntryKind::Symlink,
        dev: f.dev,
        ino: f.ino,
        nlink: f.nlink,
        bytes: f.size,
    }
}

/// Everything below a directory, as a walk comes by it.
fn below(f: &Fs, dev: u64, out: &mut Vec<Visit>) {
    for k in &f.kids {
        let v = visit(k);
        let enter = enters(&v, dev);
        out.push(v);
        if enter {
            below(k, dev, out);
        }
    }
}

fn usage(f: &Fs) -> (u64, u64) {
    let mut list = Vec::new();
    below(f, f.dev, &mut list);
    du(&Some(visit(f)), &list)
}

fn find(t: &Tree, rel: &str) -> usize {
    t.find(&d(rel)).unwrap()
}

#[test]
fn hard_link_attribution_is_deterministic() {
    for swap in [false, true] {
        let mut f = Fs::dir(b"d");
        let names = if swap { ["b/f.bin", "a/f.bin"] } else { ["a/f.bin", "b/f.bin"] };
        for n in names {
            f.leaf(n, EntryKind::Other, 3 << 20, 7, 2);
        }
        let t = scan(&f, &opts(1 << 20));
        let (ia, ib) = (find(&t, "a"), find(&t, "b"));
        // Credited to the smaller path ("a/f.bin"), counted once overall.
        assert!(t.nodes[ia].size >= 3 << 20, "swap={swap}");
        assert!(t.nodes[ib].size < 1 << 20, "swap={swap}");
        let sum: u64 = t.nodes[0].children.iter().map(|&c| t.nodes[c].size).sum();
        assert_eq!(t.root().size, sum + BLOCK);
    }
}

#[test]
fn scans_temp_tree() {
    let mut f = Fs::dir(b"d");
    f.file("proj/Cargo.toml", 9);
    f.file("proj/target/big.bin", 2 << 20);
    let tree = scan(&f, &ScanOptions::default());
    let proj = find(&tree, "proj");
    assert!(tree.nodes[proj].markers & CARGO_TOML != 0);
    let target = find(&tree, "proj/target");
    assert!(tree.nodes[target].size >= 2 << 20);
    assert_eq!(tree.path_of(target), d("proj/target"));
    assert!(tree.root().size >= tree.nodes[target].size);
}

#[test]
fn file_size_is_st_blocks_times_512() {
    let mut f = Fs::dir(b"d");
    f.leaf("odd.bin", EntryKind::Other, disk_bytes(16), 0, 1);
    let t = scan(&f, &opts(0));
    let i = find(&t, "odd.bin");
    assert_eq!(t.nodes[i].kind, NodeKind::File);
    assert_eq!(t.nodes[i].size, 16 * 512);
    assert_eq!(t.root().size, usage(&f).0);
}

#[test]
fn sparse_file_counted_by_allocated_blocks() {
    // 256 MiB long, but only the block that holds one byte is allocated.
    let mut f = Fs::dir(b"d");
    let allocated = disk_bytes(8);
    f.leaf("sparse.img", EntryKind::Other, allocated, 0, 1);
    let t = scan(&f, &opts(0));
    assert_eq!(t.nodes[find(&t, "sparse.img")].size, allocated);
    assert!(allocated < 256 << 20);
    assert_eq!(usage(f.mkdir("sparse.img")).0, allocated);
}

#[test]
fn hard_links_in_same_dir_counted_once() {
    let mut f = Fs::dir(b"d");
    f.leaf("a.bin", EntryKind::Other, 2 << 20, 5, 2);
    f.leaf("b.bin", EntryKind::Other, 2 << 20, 5, 2);
    let t = scan(&f, &opts(0));
    assert_eq!(t.root().size, BLOCK + (2 << 20));
    assert_eq!(t.root().files, 2, "both names are still listed as files");
    assert_eq!(usage(&f).0, t.root().size);
}

#[test]
fn hard_links_across_dirs_counted_once() {
    let mut f = Fs::dir(b"d");
    f.leaf("x/a.bin", EntryKind::Other, 3 << 20, 5, 2);
    f.leaf("y/z/b.bin", EntryKind::Other, 3 << 20, 5, 2);
    let t = scan(&f, &opts(0));
    let expect = 4 * BLOCK + (3 << 20);
    assert_eq!(t.root().size, expect);
    let (x, y) = (find(&t, "x"), find(&t, "y"));
    // Exactly one of the two directories carries the data.
    let data = (t.nodes[x].size - BLOCK) + (t.nodes[y].size - 2 * BLOCK);
    assert_eq!(data, 3 << 20);
    assert_eq!(usage(&f).0, expect);
}

#[test]
fn small_hard_links_come_off_the_folded_files() {
    let mut f = Fs::dir(b"d");
    f.leaf("x/a", EntryKind::Other, 2 * BLOCK, 5, 2);
    f.leaf("y/b", EntryKind::Other, 2 * BLOCK, 5, 2);
    f.file("y/c", 1);
    let t = scan(&f, &opts(1 << 20));
    let y = find(&t, "y");
    assert_eq!(t.nodes[y].size, 2 * BLOCK);
    let folded = t.nodes[y].children[0];
    assert_eq!(t.nodes[folded].kind, NodeKind::Aggregate);
    assert_eq!(t.nodes[folded].size, BLOCK);
    assert_eq!(t.root().size, 3 * BLOCK + 2 * BLOCK + BLOCK);
}

#[test]
fn symlinks_are_not_followed() {
    let mut f = Fs::dir(b"d");
    f.leaf("link-to-file", EntryKind::Symlink, 0, 0, 1);
    f.leaf("link-to-dir", EntryKind::Symlink, 0, 0, 1);
    let t = scan(&f, &opts(0));
    assert_eq!(t.root().size, BLOCK);
    assert!(t.root().size < 1 << 20, "symlink target must not be counted");
    let l = find(&t, "link-to-dir");
    assert_eq!(t.nodes[l].kind, NodeKind::File, "symlink to dir is a leaf");
    assert!(t.nodes[l].children.is_empty());
    assert_eq!(usage(&f).0, BLOCK);
}

#[test]
fn unreadable_dir_is_marked_and_scan_continues() {
    let mut f = Fs::dir(b"d");
    f.file("locked/secret.bin", 2 << 20);
    f.file("open/ok.bin", 2 << 20);
    f.mkdir("locked").readable = false;
    let t = scan(&f, &opts(0));
    let locked = find(&t, "locked");
    assert!(t.nodes[locked].unreadable);
    assert!(t.nodes[locked].children.is_empty());
    assert!(t.errors >= 1);
    let open = find(&t, "open/ok.bin");
    assert_eq!(t.nodes[open].size, 2 << 20);
    assert!(!t.root().unreadable);
}

#[test]
fn one_file_system_turns_foreign_devices_into_empty_mount_nodes() {
    let mut f = Fs::dir(b"d");
    f.file("sub/big.bin", 2 << 20);
    f.file("top.bin", 2 << 20);
    f.size = 0;
    f.mkdir("sub").dev = 9;
    let run = |one_fs: bool| scan(&f, &ScanOptions { one_file_system: one_fs, min_file_size: 0, threads: 1 });
    let foreign = run(true);
    let sub = foreign.nodes.iter().find(|n| n.name == "sub").unwrap();
    assert_eq!(sub.kind, NodeKind::Mount);
    assert_eq!((sub.size, sub.files), (0, 0));
    assert!(sub.children.is_empty());
    assert_eq!(foreign.nodes[0].size, 2 << 20, "mount contents not counted");

    let crossed = run(false);
    let sub = crossed.nodes.iter().find(|n| n.name == "sub").unwrap();
    assert_eq!(sub.kind, NodeKind::Dir, "-x descends into other filesystems");
    assert_eq!(sub.files, 1);
}

#[test]
fn small_files_aggregate_preserves_totals() {
    let mut f = Fs::dir(b"d");
    let mut small = 0;
    for i in 0..7 {
        small += f.file(&format!("s{i}.txt"), 1000 + i * 3000);
    }
    let big = f.file("big.bin", 2 << 20);
    let t = scan(&f, &opts(1 << 20));
    let root = t.root();
    assert_eq!(root.files, 8);
    let agg: Vec<usize> = root.children.iter().copied().filter(|&c| t.nodes[c].kind == NodeKind::Aggregate).collect();
    assert_eq!(agg.len(), 1);
    let a = &t.nodes[agg[0]];
    assert_eq!(a.name, "<7 small files>");
    assert_eq!((a.files, a.size), (7, small));
    assert_eq!(root.size, BLOCK + small + big);
    assert!(t.find(&d("s0.txt")).is_none(), "folded files are not addressable");
    assert!(t.find(&d("<7 small files>")).is_none(), "aggregate is not a path");
}

fn nested() -> Fs {
    let mut f = Fs::dir(b"d");
    f.file("a/b/c/deep.bin", 1_500_000);
    f.file("a/b/small.txt", 10);
    f.file("a/x.bin", 2 << 20);
    f.file("my dir/with space.bin", 1 << 20);
    f.file("ünïcödé 日本/файл.bin", 1_200_000);
    f.file("quote'dir/\"q\".txt", 5);
    f.mkdir("empty");
    f.file("top.txt", 3);
    f
}

#[test]
fn parent_size_is_own_blocks_plus_children_at_every_node() {
    let f = nested();
    for min in [0, 1 << 20, u64::MAX] {
        let t = scan(&f, &opts(min));
        for n in t.nodes.iter() {
            let kids: u64 = n.children.iter().map(|&c| t.nodes[c].size).sum();
            let kid_files: u64 = n.children.iter().map(|&c| t.nodes[c].files).sum();
            match n.kind {
                NodeKind::Dir => {
                    assert_eq!(n.size, BLOCK + kids, "{:?} min={min}", n.name);
                    assert_eq!(n.files, kid_files, "{:?}", n.name);
                }
                _ => assert!(n.children.is_empty()),
            }
            // Children sorted largest first.
            assert!(n.children.windows(2).all(|w| t.nodes[w[0]].size >= t.nodes[w[1]].size));
        }
        assert_eq!(t.root().size, usage(&f).0);
    }
}

#[test]
fn find_and_path_of_round_trip() {
    let t = scan(&nested(), &opts(0));
    assert_eq!(t.find(&FsPath::new(ROOT)), Some(0));
    assert_eq!(t.path_of(0), FsPath::new(ROOT));
    let mut checked = 0;
    for i in 0..t.nodes.len() {
        if t.nodes[i].kind == NodeKind::Aggregate {
            continue;
        }
        let p = t.path_of(i);
        assert_eq!(t.find(&p), Some(i), "{p:?}");
        checked += 1;
    }
    assert!(checked >= 14);
    for name in ["my dir/with space.bin", "ünïcödé 日本/файл.bin", "quote'dir/\"q\".txt"] {
        let i = find(&t, name);
        assert_eq!(t.path_of(i), d(name));
    }
    assert_eq!(t.find(&d("a/./b")), t.find(&d("a/b")));
    assert_eq!(t.find(&d("a/b/../x.bin")), None);
    // Skipping `..` would land on the existing a/b/c; the real a/c does not exist.
    assert_eq!(t.find(&d("a/b/../c")), None, "'..' must not resolve to a/b/c");
    assert_eq!(t.find(&d("missing")), None);
    assert_eq!(t.find(&FsPath::new("/definitely/elsewhere")), None);
    assert_eq!(t.depth_of(find(&t, "a/b/c/deep.bin")), 4);
}

#[test]
fn du_matches_scan_root_size() {
    let mut f = nested();
    f.leaf("a/x.bin", EntryKind::Other, 2 << 20, 77, 2);
    f.leaf("my dir/x-again.bin", EntryKind::Other, 2 << 20, 77, 2);
    f.leaf("link", EntryKind::Symlink, 0, 0, 1);
    let t = scan(&f, &opts(1 << 20));
    let (bytes, files) = usage(&f);
    assert_eq!(bytes, t.root().size);
    assert_eq!(files, t.root().files);
    // (a/ itself holds one side of the hard link, so compare a subtree without it.)
    let ab = find(&t, "a/b");
    assert_eq!(usage(f.mkdir("a/b")), (t.nodes[ab].size, t.nodes[ab].files));
    assert_eq!(du(&None, &Vec::new()), (0, 0));
}

#[test]
fn non_utf8_names_round_trip_exactly() {
    let mut f = Fs::dir(b"d");
    let names: [&[u8]; 3] = [b"caf\xe9", b"caf\xe8", "caf\u{FFFD}".as_bytes()];
    for n in names {
        f.at(&[n]).file("big.bin", 2 << 20);
    }
    let t = scan(&f, &opts(0));
    let paths: Vec<FsPath> = names.iter().map(|n| FsPath::new(ROOT).join_name(&n.to_vec())).collect();
    let ids: Vec<usize> = paths.iter().map(|p| t.find(p).unwrap()).collect();
    assert!(ids[0] != ids[1] && ids[1] != ids[2] && ids[0] != ids[2], "look-alikes must stay distinct");
    for (i, p) in ids.iter().zip(&paths) {
        assert_eq!(&t.path_of(*i), p);
        assert_eq!(t.find(&p.join_str("big.bin")).map(|f| t.nodes[f].parent), Some(Some(*i)));
    }
    assert_eq!(t.nodes[ids[0]].name, "caf\u{FFFD}", "display name stays lossy");
    assert!(t.nodes[ids[2]].raw.is_none(), "valid UTF-8 keeps no raw copy");
}

#[test]
fn pseudo_filesystems_are_skipped() {
    let list = vec![
        Some(Entry { name: b"proc".to_vec(), kind: EntryKind::Dir, size: 0, dev: 1, ino: 1, nlink: 2 }),
        Some(Entry { name: b"home".to_vec(), kind: EntryKind::Dir, size: BLOCK, dev: 1, ino: 2, nlink: 2 }),
        None,
    ];
    let part = scan_dir_raw(&FsPath::new("/"), "/".to_string(), None, BLOCK, &list, &opts(0), 1);
    assert_eq!(part.subdirs.len(), 1);
    assert_eq!(part.subdirs[0].path, FsPath::new("/home"));
    assert_eq!(part.errors, 1);
    assert_eq!(part.node.size, BLOCK);
}

#[test]
fn unique_bytes_ignores_data_still_linked_elsewhere() {
    let mut f = Fs::dir(b"d");
    f.leaf("store/only.bin", EntryKind::Other, 2 << 20, 1, 1);
    f.leaf("store/shared.bin", EntryKind::Other, 3 << 20, 2, 2);
    let store = f.mkdir("store").clone();
    let mut list = Vec::new();
    below(&store, store.dev, &mut list);
    // Only the file with a single link is really freed.
    assert_eq!(unique_bytes(&Some(visit(&store)), &list), 2 << 20);
    assert_eq!(contents_bytes(&Some(visit(&store)), &list), 5 << 20);
}

/// Several files with names in more than one directory, large and small.
fn linked() -> Fs {
    let mut f = nested();
    for (name, size, ino) in [
        ("a/x.bin", 2 << 20, 77),
        ("a/b/again.bin", 2 << 20, 77),
        ("my dir/x-again.bin", 2 << 20, 77),
        ("a/b/c/s1", BLOCK, 78),
        ("empty/s2", BLOCK, 78),
        ("empty/s3", BLOCK, 78),
        ("quote'dir/s4", 3 * BLOCK, 79),
        ("quote'dir/s5", 3 * BLOCK, 79),
    ] {
        f.leaf(name, EntryKind::Other, size, ino, 3);
    }
    f.at(&[b"caf\xe9"]).leaf("s6", EntryKind::Other, 3 * BLOCK, 79, 3);
    f
}

#[test]
fn directories_still_add_up_once_links_are_counted_once() {
    let f = linked();
    let mut totals = Vec::new();
    for min in [0, 2 * BLOCK, 1 << 20, u64::MAX] {
        let t = scan(&f, &opts(min));
        for n in t.nodes.iter() {
            let kids: u64 = n.children.iter().map(|&c| t.nodes[c].size).sum();
            let kid_files: u64 = n.children.iter().map(|&c| t.nodes[c].files).sum();
            if n.kind == NodeKind::Dir {
                assert_eq!((n.size, n.files), (BLOCK + kids, kid_files), "{:?} min={min}", n.name);
            } else {
                assert!(n.children.is_empty());
            }
            assert!(n.children.windows(2).all(|w| t.nodes[w[0]].size >= t.nodes[w[1]].size));
        }
        assert_eq!(usage(&f), (t.root().size, t.root().files), "min={min}");
        totals.push((t.root().size, t.root().files));
    }
    assert!(totals.iter().all(|x| *x == totals[0]));
    // Each inode once: two names of 77, two of 78 and two of 79 do not count.
    let names = 2 * (2u64 << 20) + 2 * BLOCK + 2 * 3 * BLOCK;
    let mut every = Vec::new();
    below(&f, f.dev, &mut every);
    assert_eq!(totals[0].0 + names, BLOCK + every.iter().map(|v| v.bytes).sum::<u64>());
}

#[test]
fn scanned_paths_are_found_again_and_climbing_ones_are_not() {
    let t = scan(&linked(), &opts(0));
    for i in 0..t.nodes.len() {
        let p = t.path_of(i);
        assert_eq!(t.find(&p), Some(i), "{p:?}");
        assert_eq!(t.find(&p.join_str("../x")), None);
    }
    let folded = scan(&linked(), &opts(1 << 20));
    for i in 0..folded.nodes.len() {
        if folded.nodes[i].kind == NodeKind::Aggregate {
            assert_eq!(folded.find(&folded.path_of(i)), None, "small files have no path");
        }
    }
}

#[test]
fn listed_entries_keep_their_shown_and_exact_names() {
    let name = |n: &[u8], kind: EntryKind, dev: u64| Some(Entry { name: n.to_vec(), kind, size: BLOCK, dev, ino: 1, nlink: 1 });
    let list = vec![
        name(b"node_modules", EntryKind::Dir, 1),
        name(b"caf\xe9", EntryKind::Dir, 1),
        name(b"mnt", EntryKind::Dir, 2),
        name(b"a\xffb", EntryKind::Other, 1),
        name("größe".as_bytes(), EntryKind::Other, 1),
    ];
    let part = scan_dir_raw(&FsPath::new("/p"), "p".to_string(), None, BLOCK, &list, &opts(0), 1);
    let subs: Vec<(&str, Option<&[u8]>)> = part.subdirs.iter().map(|s| (s.name.as_str(), s.raw.as_deref())).collect();
    assert_eq!(subs, [("node_modules", None), ("caf\u{FFFD}", Some(&b"caf\xe9"[..]))]);
    let kids: Vec<(&str, Option<&[u8]>)> = part.node.children.iter().map(|c| (c.name.as_str(), c.raw.as_deref())).collect();
    assert_eq!(kids, [("mnt", None), ("a\u{FFFD}b", Some(&b"a\xffb"[..])), ("größe", None)]);
}

#[test]
fn the_order_of_links_does_not_matter() {
    let f = linked();
    let root = FsPath::new(ROOT);
    let mut trees = Vec::new();
    for turn in 0..4 {
        let o = opts(0);
        let mut w = Walk { opts: &o, root_dev: f.dev, links: Vec::new(), dirs: 0, errors: 0 };
        let tmp = walk(&f, &root, ROOT.to_string(), None, f.size, &mut w);
        w.links.rotate_left(turn * 2);
        if turn % 2 == 1 {
            w.links.reverse();
        }
        trees.push(build_tree(root.clone(), &tmp, &w.links, w.dirs, w.errors));
    }
    for t in &trees {
        let sizes = |x: &Tree| x.nodes.iter().map(|n| n.size).collect::<Vec<_>>();
        assert_eq!(sizes(t), sizes(&trees[0]));
        // `a/b/again.bin` comes before `a/x.bin` and `my dir/x-again.bin`.
        assert_eq!(t.nodes[find(t, "a/b/again.bin")].size, 2 << 20);
        assert_eq!(t.nodes[find(t, "a/x.bin")].size, 0);
        assert_eq!(t.nodes[find(t, "my dir/x-again.bin")].size, 0);
    }
}

#[test]
fn the_order_of_a_walk_does_not_matter() {
    let f = linked();
    let mut list = Vec::new();
    below(&f, f.dev, &mut list);
    let want = usage(&f);
    list.reverse();
    assert_eq!(du(&Some(visit(&f)), &list), want);
    list.rotate_left(5);
    assert_eq!(du(&Some(visit(&f)), &list), want);
}
