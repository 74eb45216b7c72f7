//! From directory listings to the size tree.

use vstd::prelude::*;
use vstd::utf8::{encode_utf8, encode_utf8_decode_utf8, valid_utf8};

use crate::order::{
    lemma_char_lt, lemma_lex_irreflexive, lemma_lex_total, lemma_lex_transitive,
    lemma_order_rearranges, lemma_total_concat, lemma_total_rearranged, rearranges, sorted,
    text_before, text_precedes, total_of, Ranking,
};
use crate::path::{comps, join_bytes, same_path, FsPath};
use crate::order::{arranged, char_lt, law_rearranging_keeps_everything, lex};
use crate::scanner::{
    exact_name, shown_name, split_name, NodeKind, ScanOptions, CACHEDIR_TAG, CARGO_TOML, PACKAGE_JSON,
};
use crate::text::{chars_of, decimal, digits};

verus! {

/// Allocated bytes of a file: its blocks of 512 bytes.
pub fn disk_bytes(blocks: u64) -> (r: u64)
    requires
        blocks * 512 <= u64::MAX,
    ensures
        r == blocks * 512,
{
    blocks * 512
}

#[derive(Clone, Copy, PartialEq, Eq, Debug, Structural)]
pub enum EntryKind {
    Dir,
    Symlink,
    Other,
}

/// A directory entry as it was read, not following symlinks.
pub struct Entry {
    pub name: Vec<u8>,
    pub kind: EntryKind,
    /// Allocated bytes.
    pub size: u64,
    pub dev: u64,
    pub ino: u64,
    pub nlink: u64,
}

/// A node while the tree is being built.
pub struct Tmp {
    pub name: String,
    pub raw: Option<Vec<u8>>,
    pub kind: NodeKind,
    pub size: u64,
    pub files: u64,
    pub markers: u8,
    pub unreadable: bool,
    pub children: Vec<Tmp>,
}

/// A subdirectory that is to be read next.
pub struct SubDir {
    pub path: FsPath,
    pub name: String,
    pub raw: Option<Vec<u8>>,
    /// The directory's own blocks.
    pub own: u64,
}

/// One name of a multiply-linked file.
pub struct Link {
    pub dev: u64,
    pub ino: u64,
    pub path: FsPath,
    pub size: u64,
}

/// What one directory's listing comes to.
pub struct DirPart {
    /// The directory, without its subdirectories.
    pub node: Tmp,
    pub subdirs: Vec<SubDir>,
    pub links: Vec<Link>,
    /// Entries that could not be read.
    pub errors: u64,
}

/// Pseudo filesystems that are never worth walking.
pub open spec fn virtual_dir(p: Seq<u8>) -> bool {
    same_path(p, encode_utf8("/proc"@)) || same_path(p, encode_utf8("/sys"@))
}

/// What becomes of a directory entry.
pub enum Fate {
    /// It could not be read.
    Error,
    /// A pseudo filesystem: left out.
    Skipped,
    /// The mount point of another filesystem.
    Mount,
    /// A directory to read.
    SubDir,
    /// A file with a node of its own.
    Large,
    /// A file that is folded together with others.
    Small,
}

pub open spec fn fate(e: Option<Entry>, dir: Seq<u8>, opts: ScanOptions, root_dev: u64) -> Fate {
    match e {
        None => Fate::Error,
        Some(e) => if e.kind == EntryKind::Dir {
            if virtual_dir(join_bytes(dir, e.name@)) {
                Fate::Skipped
            } else if opts.one_file_system && e.dev != root_dev {
                Fate::Mount
            } else {
                Fate::SubDir
            }
        } else if e.size >= opts.min_file_size {
            Fate::Large
        } else {
            Fate::Small
        },
    }
}

/// A leaf of the tree as a value: the name that is shown, whether another one
/// is kept beside it, and the exact name.
#[verifier::ext_equal]
pub struct Leaf {
    pub name: Seq<char>,
    pub raw: bool,
    pub exact: Seq<u8>,
    pub kind: NodeKind,
    pub size: nat,
    pub files: nat,
}

/// A subdirectory to read as a value: its path, names (as of a leaf) and own
/// bytes.
#[verifier::ext_equal]
pub struct SubView {
    pub path: Seq<u8>,
    pub name: Seq<char>,
    pub raw: bool,
    pub exact: Seq<u8>,
    pub own: u64,
}

#[verifier::ext_equal]
pub struct LinkView {
    pub dev: u64,
    pub ino: u64,
    pub path: Seq<u8>,
    pub size: u64,
}

/// The bytes and count of the files among `list` that are folded together.
pub open spec fn small_bytes(list: Seq<Option<Entry>>, dir: Seq<u8>, opts: ScanOptions, root_dev: u64) -> nat
    decreases list.len(),
{
    if list.len() == 0 {
        0
    } else {
        small_bytes(list.drop_last(), dir, opts, root_dev) + if fate(list.last(), dir, opts, root_dev) is Small {
            list.last()->0.size as nat
        } else {
            0
        }
    }
}

pub open spec fn small_count(list: Seq<Option<Entry>>, dir: Seq<u8>, opts: ScanOptions, root_dev: u64) -> nat
    decreases list.len(),
{
    if list.len() == 0 {
        0
    } else {
        small_count(list.drop_last(), dir, opts, root_dev) + if fate(list.last(), dir, opts, root_dev) is Small {
            1nat
        } else {
            0
        }
    }
}

/// The bytes of all files among `list`.
pub open spec fn file_bytes(list: Seq<Option<Entry>>) -> nat
    decreases list.len(),
{
    if list.len() == 0 {
        0
    } else {
        file_bytes(list.drop_last()) + match list.last() {
            Some(e) if e.kind != EntryKind::Dir => e.size as nat,
            _ => 0,
        }
    }
}

/// How many of `list` are files.
pub open spec fn file_count(list: Seq<Option<Entry>>) -> nat
    decreases list.len(),
{
    if list.len() == 0 {
        0
    } else {
        file_count(list.drop_last()) + match list.last() {
            Some(e) if e.kind != EntryKind::Dir => 1nat,
            _ => 0,
        }
    }
}

pub open spec fn error_count(list: Seq<Option<Entry>>) -> nat
    decreases list.len(),
{
    if list.len() == 0 {
        0
    } else {
        error_count(list.drop_last()) + if list.last() is None { 1nat } else { 0 }
    }
}

/// The leaf for an entry of a directory.
pub open spec fn entry_leaf(e: Entry, kind: NodeKind, size: nat, files: nat) -> Leaf {
    Leaf { name: shown_name(e.name@), raw: !valid_utf8(e.name@), exact: e.name@, kind, size, files }
}

/// The leaves for mount points and large files, in the order of the listing.
pub open spec fn leaves(list: Seq<Option<Entry>>, dir: Seq<u8>, opts: ScanOptions, root_dev: u64) -> Seq<Leaf>
    decreases list.len(),
{
    if list.len() == 0 {
        Seq::empty()
    } else {
        let rest = leaves(list.drop_last(), dir, opts, root_dev);
        let e = list.last();
        match fate(e, dir, opts, root_dev) {
            Fate::Mount => rest.push(entry_leaf(e->0, NodeKind::Mount, 0, 0)),
            Fate::Large => rest.push(entry_leaf(e->0, NodeKind::File, e->0.size as nat, 1)),
            _ => rest,
        }
    }
}

/// The leaf that the small files are folded into, if there are any.
pub open spec fn folded(bytes: nat, count: nat) -> Seq<Leaf> {
    if count > 0 {
        seq![
            Leaf {
                name: "<"@ + digits(count) + " small files>"@,
                raw: false,
                exact: encode_utf8("<"@ + digits(count) + " small files>"@),
                kind: NodeKind::Aggregate,
                size: bytes,
                files: count,
            },
        ]
    } else {
        Seq::empty()
    }
}

/// The subdirectories to read, in the order of the listing.
pub open spec fn sub_views(list: Seq<Option<Entry>>, dir: Seq<u8>, opts: ScanOptions, root_dev: u64) -> Seq<SubView>
    decreases list.len(),
{
    if list.len() == 0 {
        Seq::empty()
    } else {
        let rest = sub_views(list.drop_last(), dir, opts, root_dev);
        let e = list.last();
        if fate(e, dir, opts, root_dev) is SubDir {
            rest.push(
                SubView {
                    path: join_bytes(dir, e->0.name@),
                    name: shown_name(e->0.name@),
                    raw: !valid_utf8(e->0.name@),
                    exact: e->0.name@,
                    own: e->0.size,
                },
            )
        } else {
            rest
        }
    }
}

/// The names of multiply-linked files (never of symlinks).
pub open spec fn link_views(list: Seq<Option<Entry>>, dir: Seq<u8>) -> Seq<LinkView>
    decreases list.len(),
{
    if list.len() == 0 {
        Seq::empty()
    } else {
        let rest = link_views(list.drop_last(), dir);
        match list.last() {
            Some(e) if e.kind == EntryKind::Other && e.nlink > 1 => rest.push(
                LinkView { dev: e.dev, ino: e.ino, path: join_bytes(dir, e.name@), size: e.size },
            ),
            _ => rest,
        }
    }
}

/// The marker that a file name stands for.
pub open spec fn marker_of(name: Seq<u8>) -> u8 {
    if name == encode_utf8("Cargo.toml"@) {
        CARGO_TOML
    } else if name == encode_utf8("package.json"@) {
        PACKAGE_JSON
    } else if name == encode_utf8("CACHEDIR.TAG"@) {
        CACHEDIR_TAG
    } else {
        0
    }
}

/// The markers of the files among `list`.
pub open spec fn markers_in(list: Seq<Option<Entry>>) -> u8
    decreases list.len(),
{
    if list.len() == 0 {
        0
    } else {
        match list.last() {
            Some(e) if e.kind != EntryKind::Dir => markers_in(list.drop_last()) | marker_of(e.name@),
            _ => markers_in(list.drop_last()),
        }
    }
}

pub open spec fn leaf_of(t: Tmp) -> Leaf {
    Leaf {
        name: t.name@,
        raw: t.raw is Some,
        exact: exact_name(t.name@, t.raw),
        kind: t.kind,
        size: t.size as nat,
        files: t.files as nat,
    }
}

pub open spec fn leaf_views(v: Seq<Tmp>) -> Seq<Leaf> {
    Seq::new(v.len(), |i: int| leaf_of(v[i]))
}

pub open spec fn sub_dir(d: SubDir) -> SubView {
    SubView { path: d.path@, name: d.name@, raw: d.raw is Some, exact: exact_name(d.name@, d.raw), own: d.own }
}

pub open spec fn sub_dirs(v: Seq<SubDir>) -> Seq<SubView> {
    Seq::new(v.len(), |i: int| sub_dir(v[i]))
}

pub open spec fn link_list(v: Seq<Link>) -> Seq<LinkView> {
    Seq::new(v.len(), |i: int| LinkView { dev: v[i].dev, ino: v[i].ino, path: v[i].path@, size: v[i].size })
}

/// Nothing hangs below these nodes.
pub open spec fn bare(v: Seq<Tmp>) -> bool {
    forall|i: int| 0 <= i < v.len() ==> (#[trigger] v[i]).children@.len() == 0 && v[i].markers == 0 && !v[i].unreadable
}

/// The sizes of a list of nodes.
pub open spec fn sizes(v: Seq<Tmp>) -> Seq<nat> {
    Seq::new(v.len(), |i: int| v[i].size as nat)
}

/// The file counts of a list of nodes.
pub open spec fn counts(v: Seq<Tmp>) -> Seq<nat> {
    Seq::new(v.len(), |i: int| v[i].files as nat)
}

proof fn lemma_listing_grows(list: Seq<Option<Entry>>, dir: Seq<u8>, opts: ScanOptions, root_dev: u64, k: int)
    requires
        0 <= k <= list.len(),
    ensures
        file_bytes(list.take(k)) <= file_bytes(list),
        file_count(list.take(k)) <= k,
        error_count(list.take(k)) <= k,
        small_bytes(list.take(k), dir, opts, root_dev) <= file_bytes(list.take(k)),
        small_count(list.take(k), dir, opts, root_dev) <= file_count(list.take(k)),
    decreases list.len(), k,
{
    if k < list.len() {
        assert(list.drop_last().take(k) =~= list.take(k));
        lemma_listing_grows(list.drop_last(), dir, opts, root_dev, k);
    } else if k > 0 {
        assert(list.take(k) =~= list);
        assert(list.drop_last().take(k - 1) =~= list.drop_last());
        lemma_listing_grows(list.drop_last(), dir, opts, root_dev, k - 1);
    } else {
        assert(list.take(k) =~= list);
    }
}

fn marker_for(name: &Vec<u8>) -> (r: u8)
    ensures
        r == marker_of(name@),
{
    if crate::path::same_name(name, &crate::path::bytes_of("Cargo.toml")) {
        CARGO_TOML
    } else if crate::path::same_name(name, &crate::path::bytes_of("package.json")) {
        PACKAGE_JSON
    } else if crate::path::same_name(name, &crate::path::bytes_of("CACHEDIR.TAG")) {
        CACHEDIR_TAG
    } else {
        0
    }
}

fn leaf(name: String, raw: Option<Vec<u8>>, kind: NodeKind, size: u64, files: u64) -> (r: Tmp)
    ensures
        leaf_of(r) == (Leaf {
            name: name@,
            raw: raw is Some,
            exact: exact_name(name@, raw),
            kind,
            size: size as nat,
            files: files as nat,
        }),
        r.children@.len() == 0,
        r.markers == 0,
        !r.unreadable,
        r.size == size,
        r.files == files,
{
    Tmp { name, raw, kind, size, files, markers: 0, unreadable: false, children: Vec::new() }
}

/// No directory of the tree is smaller than what it holds.
pub open spec fn balanced(t: Tmp) -> bool
    decreases t,
{
    total_of(sizes(t.children@)) <= t.size && all_balanced(t.children@)
}

pub open spec fn all_balanced(list: Seq<Tmp>) -> bool
    decreases list,
{
    list.len() == 0 || (all_balanced(list.drop_last()) && balanced(list.last()))
}

pub(crate) proof fn lemma_one_balanced(list: Seq<Tmp>, i: int)
    requires
        all_balanced(list),
        0 <= i < list.len(),
    ensures
        balanced(list[i]),
    decreases list.len(),
{
    if i < list.len() - 1 {
        lemma_one_balanced(list.drop_last(), i);
    }
}

proof fn lemma_each_balanced(list: Seq<Tmp>)
    requires
        forall|i: int| 0 <= i < list.len() ==> balanced(#[trigger] list[i]),
    ensures
        all_balanced(list),
    decreases list.len(),
{
    if list.len() > 0 {
        assert forall|i: int| 0 <= i < list.drop_last().len() implies balanced(#[trigger] list.drop_last()[i]) by {
            assert(list.drop_last()[i] == list[i]);
        }
        lemma_each_balanced(list.drop_last());
    }
}

proof fn lemma_bare_balanced(list: Seq<Tmp>)
    requires
        bare(list),
    ensures
        all_balanced(list),
{
    assert forall|i: int| 0 <= i < list.len() implies balanced(#[trigger] list[i]) by {
        assert(sizes(list[i].children@) =~= Seq::empty());
    }
    lemma_each_balanced(list);
}

/// The node of a directory that was not read: the scan was cancelled, or it
/// cannot be read.
pub fn unread_dir(name: String, raw: Option<Vec<u8>>, own_size: u64, unreadable: bool) -> (r: Tmp)
    ensures
        leaf_of(r) == (Leaf {
            name: name@,
            raw: raw is Some,
            exact: exact_name(name@, raw),
            kind: NodeKind::Dir,
            size: own_size as nat,
            files: 0,
        }),
        r.children@.len() == 0,
        r.markers == 0,
        r.unreadable == unreadable,
        balanced(r),
{
    proof {
        assert(sizes(Seq::<Tmp>::empty()) =~= Seq::empty());
    }
    Tmp { name, raw, kind: NodeKind::Dir, size: own_size, files: 0, markers: 0, unreadable, children: Vec::new() }
}

/// `t` is the node of a directory that was read, before its subdirectories
/// are added: its files, mount points and own blocks.
pub open spec fn listed(
    t: Tmp,
    own_size: u64,
    list: Seq<Option<Entry>>,
    path: Seq<u8>,
    opts: ScanOptions,
    root_dev: u64,
) -> bool {
    &&& t.kind == NodeKind::Dir
    &&& t.size == own_size + file_bytes(list)
    &&& t.files == file_count(list)
    &&& t.markers == markers_in(list)
    &&& !t.unreadable
    &&& leaf_views(t.children@) == leaves(list, path, opts, root_dev) + folded(
        small_bytes(list, path, opts, root_dev),
        small_count(list, path, opts, root_dev),
    )
    &&& bare(t.children@)
    &&& t.size == own_size + total_of(sizes(t.children@))
    &&& t.files == total_of(counts(t.children@))
}

/// What the listing of directory `path` comes to. Mount points of other
/// filesystems become empty nodes (with `one_file_system`), large files nodes
/// of their own, and all smaller ones one node together. Every file's bytes
/// are counted in full here; `dedupe_hard_links` takes the extra copies off.
pub fn scan_dir_raw(
    path: &FsPath,
    name: String,
    raw: Option<Vec<u8>>,
    own_size: u64,
    list: &Vec<Option<Entry>>,
    opts: &ScanOptions,
    root_dev: u64,
) -> (r: DirPart)
    requires
        own_size + file_bytes(list@) <= u64::MAX,
    ensures
        r.node.name@ == name@,
        r.node.raw == raw,
        listed(r.node, own_size, list@, path@, *opts, root_dev),
        balanced(r.node),
        sub_dirs(r.subdirs@) == sub_views(list@, path@, *opts, root_dev),
        link_list(r.links@) == link_views(list@, path@),
        r.errors == error_count(list@),
{
    let mut children: Vec<Tmp> = Vec::new();
    let mut subdirs: Vec<SubDir> = Vec::new();
    let mut links: Vec<Link> = Vec::new();
    let mut errors: u64 = 0;
    let mut size: u64 = own_size;
    let mut files: u64 = 0;
    let mut markers: u8 = 0;
    let mut s_count: u64 = 0;
    let mut s_bytes: u64 = 0;
    let n: usize = list.len();
    proof {
        assert(leaf_views(children@) =~= leaves(list@.take(0), path@, *opts, root_dev));
        assert(sub_dirs(subdirs@) =~= sub_views(list@.take(0), path@, *opts, root_dev));
        assert(link_list(links@) =~= link_views(list@.take(0), path@));
        assert(sizes(children@) =~= Seq::empty());
        assert(counts(children@) =~= Seq::empty());
    }
    for i in 0..n
        invariant
            n == list@.len(),
            own_size + file_bytes(list@) <= u64::MAX,
            size == own_size + file_bytes(list@.take(i as int)),
            files == file_count(list@.take(i as int)),
            errors == error_count(list@.take(i as int)),
            markers == markers_in(list@.take(i as int)),
            s_count == small_count(list@.take(i as int), path@, *opts, root_dev),
            s_bytes == small_bytes(list@.take(i as int), path@, *opts, root_dev),
            files <= i,
            errors <= i,
            leaf_views(children@) == leaves(list@.take(i as int), path@, *opts, root_dev),
            sub_dirs(subdirs@) == sub_views(list@.take(i as int), path@, *opts, root_dev),
            link_list(links@) == link_views(list@.take(i as int), path@),
            bare(children@),
            size == own_size + s_bytes + total_of(sizes(children@)),
            files == s_count + total_of(counts(children@)),
    {
        proof {
            assert(list@.take(i + 1).drop_last() =~= list@.take(i as int));
            assert(list@.take(i + 1).last() == list@[i as int]);
            lemma_listing_grows(list@, path@, *opts, root_dev, i + 1);
            lemma_listing_grows(list@, path@, *opts, root_dev, i as int);
        }
        match &list[i] {
            None => {
                errors += 1;
            },
            Some(e) => {
                let full = path.join_name(&e.name);
                let (nm, rw) = split_name(crate::path::copy_name(&e.name));
                if e.kind == EntryKind::Dir {
                    if !full.is("/proc") && !full.is("/sys") {
                        if opts.one_file_system && e.dev != root_dev {
                            let ghost before = children@;
                            let t = leaf(nm, rw, NodeKind::Mount, 0, 0);
                            children.push(t);
                            proof {
                                assert(leaf_views(children@) =~= leaf_views(before).push(leaf_of(t)));
                                assert(sizes(children@).drop_last() =~= sizes(before));
                                assert(counts(children@).drop_last() =~= counts(before));
                            }
                        } else {
                            let ghost before = subdirs@;
                            let sd = SubDir { path: full, name: nm, raw: rw, own: e.size };
                            subdirs.push(sd);
                            assert(sub_dirs(subdirs@) =~= sub_dirs(before).push(sub_dir(sd)));
                        }
                    }
                } else {
                    if e.nlink > 1 && e.kind != EntryKind::Symlink {
                        let ghost before = links@;
                        let l = Link { dev: e.dev, ino: e.ino, path: full, size: e.size };
                        links.push(l);
                        assert(link_list(links@) =~= link_list(before).push(
                            LinkView { dev: l.dev, ino: l.ino, path: l.path@, size: l.size },
                        ));
                    }
                    markers = markers | marker_for(&e.name);
                    files += 1;
                    size += e.size;
                    if e.size >= opts.min_file_size {
                        let ghost before = children@;
                        let t = leaf(nm, rw, NodeKind::File, e.size, 1);
                        children.push(t);
                        proof {
                            assert(leaf_views(children@) =~= leaf_views(before).push(leaf_of(t)));
                            assert(sizes(children@).drop_last() =~= sizes(before));
                            assert(counts(children@).drop_last() =~= counts(before));
                        }
                    } else {
                        s_count += 1;
                        s_bytes += e.size;
                    }
                }
            },
        }
    }
    proof {
        assert(list@.take(n as int) =~= list@);
    }
    if s_count > 0 {
        let ghost before = children@;
        let label = "<".to_owned().concat(decimal(s_count).as_str()).concat(" small files>");
        let t = leaf(label, None, NodeKind::Aggregate, s_bytes, s_count);
        children.push(t);
        proof {
            assert(leaf_views(children@) =~= leaf_views(before).push(leaf_of(t)));
            assert(sizes(children@).drop_last() =~= sizes(before));
            assert(counts(children@).drop_last() =~= counts(before));
            assert(leaf_views(children@) =~= leaf_views(before) + folded(s_bytes as nat, s_count as nat));
        }
    } else {
        proof {
            lemma_no_small(list@, path@, *opts, root_dev);
            assert(leaf_views(children@) + Seq::<Leaf>::empty() =~= leaf_views(children@));
        }
    }
    proof {
        lemma_bare_balanced(children@);
    }
    let node = Tmp { name, raw, kind: NodeKind::Dir, size, files, markers, unreadable: false, children };
    DirPart { node, subdirs, links, errors }
}

proof fn lemma_no_small(list: Seq<Option<Entry>>, dir: Seq<u8>, opts: ScanOptions, root_dev: u64)
    requires
        small_count(list, dir, opts, root_dev) == 0,
    ensures
        small_bytes(list, dir, opts, root_dev) == 0,
    decreases list.len(),
{
    if list.len() > 0 {
        lemma_no_small(list.drop_last(), dir, opts, root_dev);
    }
}

/// The order of a directory's children: the largest first, then by name.
pub open spec fn child_before(sa: nat, na: Seq<char>, i: int, sb: nat, nb: Seq<char>, j: int) -> bool {
    ||| sa > sb
    ||| sa == sb && text_before(na, nb)
    ||| sa == sb && na == nb && i < j
}

/// `o` lists the positions of `v` in the order of children.
pub open spec fn child_order(v: Seq<Tmp>, o: Seq<usize>) -> bool {
    &&& rearranges(o, v.len() as int)
    &&& forall|i: int, j: int|
        0 <= i < j < o.len() ==> {
            let (a, b) = (#[trigger] o[i] as int, #[trigger] o[j] as int);
            child_before(v[a].size as nat, v[a].name@, a, v[b].size as nat, v[b].name@, b)
        }
}

/// `list` holds the nodes of `v` in the order of children.
pub open spec fn children_sorted(v: Seq<Tmp>, list: Seq<Tmp>) -> bool {
    exists|o: Seq<usize>| #[trigger] child_order(v, o) && list == arranged(v, o)
}

struct BySize<'a> {
    list: &'a Vec<Tmp>,
    names: &'a Vec<Vec<char>>,
}

impl<'a> BySize<'a> {
    spec fn ok(&self) -> bool {
        self.names@.len() == self.list@.len() && forall|i: int|
            0 <= i < self.list@.len() ==> #[trigger] self.names@[i]@ == self.list@[i].name@
    }
}

pub proof fn lemma_child_before_transitive(
    sa: nat, na: Seq<char>, i: int, sb: nat, nb: Seq<char>, j: int, sc: nat, nc: Seq<char>, k: int,
)
    requires
        child_before(sa, na, i, sb, nb, j),
        child_before(sb, nb, j, sc, nc, k),
    ensures
        child_before(sa, na, i, sc, nc, k),
{
    lemma_char_lt();
    if text_before(na, nb) && text_before(nb, nc) {
        lemma_lex_transitive(na, nb, nc, crate::order::char_lt());
    }
}

impl<'a> Ranking for BySize<'a> {
    closed spec fn size(&self) -> nat {
        if self.ok() {
            self.list@.len()
        } else {
            0
        }
    }

    closed spec fn before(&self, i: int, j: int) -> bool {
        child_before(
            self.list@[i].size as nat,
            self.list@[i].name@,
            i,
            self.list@[j].size as nat,
            self.list@[j].name@,
            j,
        )
    }

    proof fn irreflexive(&self, i: int) {
        lemma_lex_irreflexive(self.list@[i].name@, crate::order::char_lt());
    }

    proof fn transitive(&self, i: int, j: int, k: int) {
        let v = self.list@;
        lemma_child_before_transitive(
            v[i].size as nat, v[i].name@, i, v[j].size as nat, v[j].name@, j, v[k].size as nat, v[k].name@, k,
        );
    }

    proof fn total(&self, i: int, j: int) {
        lemma_char_lt();
        let v = self.list@;
        if v[i].name@ != v[j].name@ {
            lemma_lex_total(v[i].name@, v[j].name@, crate::order::char_lt());
        }
    }

    fn precedes(&self, i: usize, j: usize) -> (r: bool) {
        let (a, b) = (&self.list[i], &self.list[j]);
        if a.size != b.size {
            return a.size > b.size;
        }
        assert(self.names@[i as int]@ == a.name@);
        assert(self.names@[j as int]@ == b.name@);
        if text_precedes(&self.names[i], &self.names[j]) {
            return true;
        }
        a.name == b.name && i < j
    }
}

/// The nodes of `v` in the order of children.
fn sort_children(v: Vec<Tmp>) -> (r: Vec<Tmp>)
    ensures
        children_sorted(v@, r@),
        r@.len() == v@.len(),
        total_of(sizes(r@)) == total_of(sizes(v@)),
        total_of(counts(r@)) == total_of(counts(v@)),
{
    let mut names: Vec<Vec<char>> = Vec::new();
    for i in 0..v.len()
        invariant
            names@.len() == i,
            forall|j: int| 0 <= j < i ==> #[trigger] names@[j]@ == v@[j].name@,
    {
        names.push(chars_of(v[i].name.as_str()));
    }
    let ranking = BySize { list: &v, names: &names };
    let o = sorted(&ranking, v.len());
    proof {
        lemma_order_rearranges(&ranking, o@);
        assert(child_order(v@, o@));
        lemma_total_rearranged(sizes(v@), o@);
        lemma_total_rearranged(counts(v@), o@);
        assert(Seq::new(o@.len(), |i: int| sizes(v@)[o@[i] as int]) =~= sizes(arranged(v@, o@)));
        assert(Seq::new(o@.len(), |i: int| counts(v@)[o@[i] as int]) =~= counts(arranged(v@, o@)));
    }
    let ghost all = v@;
    let n: usize = v.len();
    let mut v = v;
    let mut slots: Vec<Option<Tmp>> = Vec::new();
    while v.len() > 0
        invariant
            slots@.len() + v@.len() == n,
            n == all.len(),
            forall|i: int| 0 <= i < v@.len() ==> v@[i] == all[i],
            forall|i: int| 0 <= i < slots@.len() ==> #[trigger] slots@[i] == Some(all[n - 1 - i]),
        decreases v@.len(),
    {
        let x = v.pop();
        slots.push(x);
    }
    let mut out: Vec<Tmp> = Vec::new();
    for k in 0..n
        invariant
            n == all.len(),
            o@.len() == n,
            rearranges(o@, n as int),
            slots@.len() == n,
            out@ == arranged(all, o@).take(k as int),
            forall|i: int| k <= i < n ==> slots@[n - 1 - #[trigger] o@[i]] == Some(all[o@[i] as int]),
    {
        let at: usize = n - 1 - o[k];
        assert(slots@[n - 1 - o@[k as int]] == Some(all[o@[k as int] as int]));
        let x = slots[at].take();
        match x {
            Some(t) => {
                out.push(t);
                assert(out@ =~= arranged(all, o@).take(k + 1));
            },
            None => {},
        }
        assert forall|i: int| k + 1 <= i < n implies slots@[n - 1 - #[trigger] o@[i]] == Some(all[o@[i] as int]) by {
            assert(o@[i] != o@[k as int]);
        }
    }
    assert(arranged(all, o@).take(n as int) =~= arranged(all, o@));
    out
}

proof fn lemma_sorted_balanced(a: Seq<Tmp>, b: Seq<Tmp>, list: Seq<Tmp>)
    requires
        all_balanced(a),
        all_balanced(b),
        children_sorted(a + b, list),
    ensures
        all_balanced(list),
{
    let v = a + b;
    let o = choose|o: Seq<usize>| #[trigger] child_order(v, o) && list == arranged(v, o);
    assert forall|i: int| 0 <= i < list.len() implies balanced(#[trigger] list[i]) by {
        let k = o[i] as int;
        assert(list[i] == v[k]);
        if k < a.len() {
            lemma_one_balanced(a, k);
        } else {
            lemma_one_balanced(b, k - a.len());
        }
    }
    lemma_each_balanced(list);
}

/// `r` is directory `node` together with its subdirectories `subs`.
pub open spec fn finished(node: Tmp, subs: Seq<Tmp>, r: Tmp) -> bool {
    &&& r.name@ == node.name@
    &&& r.raw == node.raw
    &&& r.kind == node.kind
    &&& r.markers == node.markers
    &&& r.unreadable == node.unreadable
    &&& r.size == node.size + total_of(sizes(subs))
    &&& r.files == node.files + total_of(counts(subs))
    &&& children_sorted(node.children@ + subs, r.children@)
}

/// A directory together with its subdirectories: their sizes and files are
/// added, and all children stand in order.
pub fn finish_dir(node: Tmp, subs: Vec<Tmp>) -> (r: Tmp)
    requires
        node.size + total_of(sizes(subs@)) <= u64::MAX,
        node.files + total_of(counts(subs@)) <= u64::MAX,
    ensures
        finished(node, subs@, r),
        total_of(sizes(r.children@)) == total_of(sizes(node.children@)) + total_of(sizes(subs@)),
        total_of(counts(r.children@)) == total_of(counts(node.children@)) + total_of(counts(subs@)),
        balanced(node) && all_balanced(subs@) ==> balanced(r),
{
    let ghost all = node.children@ + subs@;
    let ghost old_subs = subs@;
    let mut size: u64 = node.size;
    let mut files: u64 = node.files;
    for i in 0..subs.len()
        invariant
            size == node.size + total_of(sizes(subs@).take(i as int)),
            files == node.files + total_of(counts(subs@).take(i as int)),
            node.size + total_of(sizes(subs@)) <= u64::MAX,
            node.files + total_of(counts(subs@)) <= u64::MAX,
    {
        proof {
            assert(sizes(subs@).take(i + 1).drop_last() =~= sizes(subs@).take(i as int));
            assert(counts(subs@).take(i + 1).drop_last() =~= counts(subs@).take(i as int));
            assert(sizes(subs@) =~= sizes(subs@).take(i + 1) + sizes(subs@).skip(i + 1));
            assert(counts(subs@) =~= counts(subs@).take(i + 1) + counts(subs@).skip(i + 1));
            lemma_total_concat(sizes(subs@).take(i + 1), sizes(subs@).skip(i + 1));
            lemma_total_concat(counts(subs@).take(i + 1), counts(subs@).skip(i + 1));
        }
        size += subs[i].size;
        files += subs[i].files;
    }
    proof {
        assert(sizes(subs@).take(subs@.len() as int) =~= sizes(subs@));
        assert(counts(subs@).take(subs@.len() as int) =~= counts(subs@));
        assert(sizes(all) =~= sizes(node.children@) + sizes(subs@));
        assert(counts(all) =~= counts(node.children@) + counts(subs@));
        lemma_total_concat(sizes(node.children@), sizes(subs@));
        lemma_total_concat(counts(node.children@), counts(subs@));
    }
    let Tmp { name, raw, kind, size: _, files: _, markers, unreadable, children } = node;
    let mut kids = children;
    let mut subs = subs;
    kids.append(&mut subs);
    let children = sort_children(kids);
    proof {
        if balanced(node) && all_balanced(old_subs) {
            lemma_sorted_balanced(node.children@, old_subs, children@);
        }
    }
    Tmp { name, raw, kind, size, files, markers, unreadable, children }
}

/// An entry is a subdirectory to read exactly if it is a directory other than
/// /proc and /sys, and on the device of the scan or the scan crosses devices.
pub proof fn law_only_proc_and_sys_are_left_out(list: Seq<Option<Entry>>, dir: Seq<u8>, opts: ScanOptions, root_dev: u64, i: int)
    requires
        0 <= i < list.len(),
        list[i] is Some,
        list[i]->0.kind == EntryKind::Dir,
        opts.one_file_system ==> list[i]->0.dev == root_dev,
        comps(join_bytes(dir, list[i]->0.name@)) != comps(encode_utf8("/proc"@)),
        comps(join_bytes(dir, list[i]->0.name@)) != comps(encode_utf8("/sys"@)),
    ensures
        exists|j: int|
            0 <= j < sub_views(list, dir, opts, root_dev).len() && (#[trigger] sub_views(list, dir, opts, root_dev)[j]).path == join_bytes(
                dir,
                list[i]->0.name@,
            ) && sub_views(list, dir, opts, root_dev)[j].exact == list[i]->0.name@ && sub_views(list, dir, opts, root_dev)[j].own
                == list[i]->0.size,
    decreases list.len(),
{
    let all = sub_views(list, dir, opts, root_dev);
    let rest = sub_views(list.drop_last(), dir, opts, root_dev);
    if i < list.len() - 1 {
        law_only_proc_and_sys_are_left_out(list.drop_last(), dir, opts, root_dev, i);
        let j = choose|j: int|
            0 <= j < rest.len() && (#[trigger] rest[j]).path == join_bytes(dir, list[i]->0.name@) && rest[j].exact == list[i]->0.name@
                && rest[j].own == list[i]->0.size;
        assert(all[j] == rest[j]);
    } else {
        assert(all[rest.len() as int].path == join_bytes(dir, list[i]->0.name@));
    }
}

/// Whatever is to be read is a directory of the listing, with its path and its
/// own blocks, and is neither /proc nor /sys nor on another device than asked.
pub proof fn law_subdirectories_are_listed(list: Seq<Option<Entry>>, dir: Seq<u8>, opts: ScanOptions, root_dev: u64, j: int)
    requires
        0 <= j < sub_views(list, dir, opts, root_dev).len(),
    ensures
        ({
            let d = sub_views(list, dir, opts, root_dev)[j];
            exists|i: int|
                0 <= i < list.len() && (#[trigger] list[i]) is Some && list[i]->0.kind == EntryKind::Dir && d.exact == list[i]->0.name@
                    && d.path == join_bytes(dir, list[i]->0.name@) && d.own == list[i]->0.size && (opts.one_file_system
                    ==> list[i]->0.dev == root_dev)
        }),
        comps(sub_views(list, dir, opts, root_dev)[j].path) != comps(encode_utf8("/proc"@)),
        comps(sub_views(list, dir, opts, root_dev)[j].path) != comps(encode_utf8("/sys"@)),
    decreases list.len(),
{
    let rest = sub_views(list.drop_last(), dir, opts, root_dev);
    if j < rest.len() {
        law_subdirectories_are_listed(list.drop_last(), dir, opts, root_dev, j);
        let d = rest[j];
        let i = choose|i: int|
            0 <= i < list.drop_last().len() && (#[trigger] list.drop_last()[i]) is Some && list.drop_last()[i]->0.kind == EntryKind::Dir
                && d.exact == list.drop_last()[i]->0.name@ && d.path == join_bytes(dir, list.drop_last()[i]->0.name@) && d.own
                == list.drop_last()[i]->0.size && (opts.one_file_system ==> list.drop_last()[i]->0.dev == root_dev);
        assert(list[i] == list.drop_last()[i]);
    } else {
        assert(list[list.len() - 1] is Some);
    }
}

/// Every file of a directory, symlinks too, adds its allocated bytes and one to
/// the directory's size and count, wherever it stands in the listing; what is
/// no file adds nothing.
pub proof fn law_every_file_adds_its_bytes(list: Seq<Option<Entry>>, i: int)
    requires
        0 <= i < list.len(),
    ensures
        file_bytes(list) == file_bytes(list.remove(i)) + if list[i] is Some && list[i]->0.kind != EntryKind::Dir {
            list[i]->0.size as nat
        } else {
            0
        },
        file_count(list) == file_count(list.remove(i)) + if list[i] is Some && list[i]->0.kind != EntryKind::Dir {
            1nat
        } else {
            0
        },
        error_count(list) == error_count(list.remove(i)) + if list[i] is None { 1nat } else { 0 },
        file_bytes(Seq::empty()) == 0,
        file_count(Seq::empty()) == 0,
        error_count(Seq::empty()) == 0,
    decreases list.len(),
{
    if i < list.len() - 1 {
        law_every_file_adds_its_bytes(list.drop_last(), i);
        assert(list.remove(i).drop_last() =~= list.drop_last().remove(i));
        assert(list.remove(i).last() == list.last());
    } else {
        assert(list.remove(i) =~= list.drop_last());
    }
}

/// A file of at least the asked size is a node of its own, under its exact name
/// and with its bytes; a smaller one has none.
pub proof fn law_large_files_have_nodes(list: Seq<Option<Entry>>, dir: Seq<u8>, opts: ScanOptions, root_dev: u64, i: int)
    requires
        0 <= i < list.len(),
        list[i] is Some,
        list[i]->0.kind != EntryKind::Dir,
        list[i]->0.size >= opts.min_file_size,
    ensures
        leaves(list, dir, opts, root_dev).contains(
            (Leaf {
                name: shown_name(list[i]->0.name@),
                raw: !valid_utf8(list[i]->0.name@),
                exact: list[i]->0.name@,
                kind: NodeKind::File,
                size: list[i]->0.size as nat,
                files: 1,
            }),
        ),
    decreases list.len(),
{
    let all = leaves(list, dir, opts, root_dev);
    let rest = leaves(list.drop_last(), dir, opts, root_dev);
    let x = entry_leaf(list[i]->0, NodeKind::File, list[i]->0.size as nat, 1);
    if i < list.len() - 1 {
        law_large_files_have_nodes(list.drop_last(), dir, opts, root_dev, i);
        let j = choose|j: int| 0 <= j < rest.len() && rest[j] == x;
        assert(all[j] == x);
    } else {
        assert(all[rest.len() as int] == x);
    }
}

/// A directory on another device is an empty mount node, if the scan is to stay
/// on one: it is not read, and counts nothing.
pub proof fn law_other_devices_are_empty_mounts(list: Seq<Option<Entry>>, dir: Seq<u8>, opts: ScanOptions, root_dev: u64, i: int)
    requires
        0 <= i < list.len(),
        list[i] is Some,
        list[i]->0.kind == EntryKind::Dir,
        opts.one_file_system,
        list[i]->0.dev != root_dev,
        comps(join_bytes(dir, list[i]->0.name@)) != comps(encode_utf8("/proc"@)),
        comps(join_bytes(dir, list[i]->0.name@)) != comps(encode_utf8("/sys"@)),
    ensures
        leaves(list, dir, opts, root_dev).contains(
            (Leaf {
                name: shown_name(list[i]->0.name@),
                raw: !valid_utf8(list[i]->0.name@),
                exact: list[i]->0.name@,
                kind: NodeKind::Mount,
                size: 0,
                files: 0,
            }),
        ),
    decreases list.len(),
{
    let all = leaves(list, dir, opts, root_dev);
    let rest = leaves(list.drop_last(), dir, opts, root_dev);
    let x = entry_leaf(list[i]->0, NodeKind::Mount, 0, 0);
    if i < list.len() - 1 {
        law_other_devices_are_empty_mounts(list.drop_last(), dir, opts, root_dev, i);
        let j = choose|j: int| 0 <= j < rest.len() && rest[j] == x;
        assert(all[j] == x);
    } else {
        assert(all[rest.len() as int] == x);
    }
}

/// Every node made of a listing is a file of at least the asked size or the
/// mount point of another device, and is listed.
pub proof fn law_nodes_are_listed(list: Seq<Option<Entry>>, dir: Seq<u8>, opts: ScanOptions, root_dev: u64, j: int)
    requires
        0 <= j < leaves(list, dir, opts, root_dev).len(),
    ensures
        ({
            let x = leaves(list, dir, opts, root_dev)[j];
            exists|i: int|
                0 <= i < list.len() && (#[trigger] list[i]) is Some && x.exact == list[i]->0.name@ && (if list[i]->0.kind
                    == EntryKind::Dir {
                    x.kind == NodeKind::Mount && x.size == 0 && x.files == 0 && opts.one_file_system && list[i]->0.dev != root_dev
                } else {
                    x.kind == NodeKind::File && x.size == list[i]->0.size && x.files == 1 && x.size >= opts.min_file_size
                })
        }),
    decreases list.len(),
{
    let rest = leaves(list.drop_last(), dir, opts, root_dev);
    let x = leaves(list, dir, opts, root_dev)[j];
    if j < rest.len() {
        law_nodes_are_listed(list.drop_last(), dir, opts, root_dev, j);
        let f = list.drop_last();
        let i = choose|i: int|
            0 <= i < f.len() && (#[trigger] f[i]) is Some && x.exact == f[i]->0.name@ && (if f[i]->0.kind == EntryKind::Dir {
                x.kind == NodeKind::Mount && x.size == 0 && x.files == 0 && opts.one_file_system && f[i]->0.dev != root_dev
            } else {
                x.kind == NodeKind::File && x.size == f[i]->0.size && x.files == 1 && x.size >= opts.min_file_size
            });
        assert(list[i] == f[i]);
    } else {
        assert(list[list.len() - 1] is Some);
    }
}

/// The files below the asked size stand together in one node that says how many
/// they are and holds their bytes; a larger one adds nothing to it.
pub proof fn law_small_files_are_folded(list: Seq<Option<Entry>>, dir: Seq<u8>, opts: ScanOptions, root_dev: u64, i: int)
    requires
        0 <= i < list.len(),
    ensures
        ({
            let small = list[i] is Some && list[i]->0.kind != EntryKind::Dir && list[i]->0.size < opts.min_file_size;
            &&& small_bytes(list, dir, opts, root_dev) == small_bytes(list.remove(i), dir, opts, root_dev) + if small {
                list[i]->0.size as nat
            } else {
                0
            }
            &&& small_count(list, dir, opts, root_dev) == small_count(list.remove(i), dir, opts, root_dev) + if small {
                1nat
            } else {
                0
            }
        }),
        small_bytes(Seq::empty(), dir, opts, root_dev) == 0,
        small_count(Seq::empty(), dir, opts, root_dev) == 0,
        forall|bytes: nat, count: nat|
            count > 0 ==> #[trigger] folded(bytes, count) == seq![
                Leaf {
                    name: "<"@ + digits(count) + " small files>"@,
                    raw: false,
                    exact: encode_utf8("<"@ + digits(count) + " small files>"@),
                    kind: NodeKind::Aggregate,
                    size: bytes,
                    files: count,
                },
            ],
        forall|bytes: nat| #[trigger] folded(bytes, 0) == Seq::<Leaf>::empty(),
    decreases list.len(),
{
    if i < list.len() - 1 {
        law_small_files_are_folded(list.drop_last(), dir, opts, root_dev, i);
        assert(list.remove(i).drop_last() =~= list.drop_last().remove(i));
        assert(list.remove(i).last() == list.last());
    } else {
        assert(list.remove(i) =~= list.drop_last());
    }
}

/// A name of a file with several links is remembered exactly if it is that of a
/// file other than a symlink whose link count is above one.
pub proof fn law_links_are_remembered(list: Seq<Option<Entry>>, dir: Seq<u8>, l: LinkView)
    ensures
        link_views(list, dir).contains(l) <==> exists|i: int|
            0 <= i < list.len() && (#[trigger] list[i]) is Some && list[i]->0.kind == EntryKind::Other && list[i]->0.nlink > 1 && l.dev
                == list[i]->0.dev && l.ino == list[i]->0.ino && l.path == join_bytes(dir, list[i]->0.name@) && l.size == list[i]->0.size,
    decreases list.len(),
{
    let named = |v: Seq<Option<Entry>>, i: int|
        0 <= i < v.len() && v[i] is Some && v[i]->0.kind == EntryKind::Other && v[i]->0.nlink > 1 && l.dev == v[i]->0.dev && l.ino
            == v[i]->0.ino && l.path == join_bytes(dir, v[i]->0.name@) && l.size == v[i]->0.size;
    if list.len() > 0 {
        let front = list.drop_last();
        let rest = link_views(front, dir);
        let all = link_views(list, dir);
        law_links_are_remembered(front, dir, l);
        if all.contains(l) {
            let w = choose|w: int| 0 <= w < all.len() && all[w] == l;
            if w < rest.len() {
                assert(rest[w] == l);
                let i = choose|i: int|
                    0 <= i < front.len() && (#[trigger] front[i]) is Some && front[i]->0.kind == EntryKind::Other && front[i]->0.nlink > 1
                        && l.dev == front[i]->0.dev && l.ino == front[i]->0.ino && l.path == join_bytes(dir, front[i]->0.name@) && l.size
                        == front[i]->0.size;
                assert(list[i] == front[i]);
            } else {
                assert(list[list.len() - 1] is Some);
            }
        }
        if exists|i: int| #[trigger] named(list, i) {
            let i = choose|i: int| #[trigger] named(list, i);
            if i < list.len() - 1 {
                assert(front[i] == list[i]);
                let w = choose|w: int| 0 <= w < rest.len() && rest[w] == l;
                assert(all[w] == l);
            } else {
                assert(all[rest.len() as int] == l);
            }
        }
        assert forall|i: int|
            0 <= i < list.len() && (#[trigger] list[i]) is Some && list[i]->0.kind == EntryKind::Other && list[i]->0.nlink > 1 && l.dev
                == list[i]->0.dev && l.ino == list[i]->0.ino && l.path == join_bytes(dir, list[i]->0.name@) && l.size
                == list[i]->0.size implies all.contains(l) by {
            assert(named(list, i));
        }
    }
}

/// The markers of a directory are those of the files in it, by name: a
/// Cargo.toml, a package.json, a CACHEDIR.TAG.
pub proof fn law_markers_are_files_by_name(list: Seq<Option<Entry>>)
    ensures
        (markers_in(list) & CARGO_TOML != 0) <==> exists|i: int| 0 <= i < list.len() && file_named(#[trigger] list[i], "Cargo.toml"@),
        (markers_in(list) & PACKAGE_JSON != 0) <==> exists|i: int| 0 <= i < list.len() && file_named(#[trigger] list[i], "package.json"@),
        (markers_in(list) & CACHEDIR_TAG != 0) <==> exists|i: int| 0 <= i < list.len() && file_named(#[trigger] list[i], "CACHEDIR.TAG"@),
    decreases list.len(),
{
    if list.len() == 0 {
        assert(0u8 & CARGO_TOML == 0 && 0u8 & PACKAGE_JSON == 0 && 0u8 & CACHEDIR_TAG == 0) by (bit_vector);
    } else {
        let front = list.drop_last();
        law_markers_are_files_by_name(front);
        let (a, e) = (markers_in(front), list.last());
        let m = match e {
            Some(e) if e.kind != EntryKind::Dir => marker_of(e.name@),
            _ => 0,
        };
        lemma_literal_names_differ();
        assert(m == 0 || m == CARGO_TOML || m == PACKAGE_JSON || m == CACHEDIR_TAG);
        assert(a | 0 == a) by (bit_vector);
        assert(markers_in(list) == a | m);
        assert(((a | m) & CARGO_TOML != 0) == (a & CARGO_TOML != 0 || m == CARGO_TOML)) by (bit_vector)
            requires m == 0 || m == CARGO_TOML || m == PACKAGE_JSON || m == CACHEDIR_TAG;
        assert(((a | m) & PACKAGE_JSON != 0) == (a & PACKAGE_JSON != 0 || m == PACKAGE_JSON)) by (bit_vector)
            requires m == 0 || m == CARGO_TOML || m == PACKAGE_JSON || m == CACHEDIR_TAG;
        assert(((a | m) & CACHEDIR_TAG != 0) == (a & CACHEDIR_TAG != 0 || m == CACHEDIR_TAG)) by (bit_vector)
            requires m == 0 || m == CARGO_TOML || m == PACKAGE_JSON || m == CACHEDIR_TAG;
        assert forall|n: Seq<char>|
            (exists|i: int| 0 <= i < list.len() && #[trigger] file_named(list[i], n)) <==> ((exists|i: int|
                0 <= i < front.len() && #[trigger] file_named(front[i], n)) || file_named(e, n)) by {
            if exists|i: int| 0 <= i < front.len() && #[trigger] file_named(front[i], n) {
                let i = choose|i: int| 0 <= i < front.len() && #[trigger] file_named(front[i], n);
                assert(file_named(list[i], n));
            }
            assert(file_named(list[list.len() - 1], n) == file_named(e, n));
            if exists|i: int| 0 <= i < list.len() && #[trigger] file_named(list[i], n) {
                let i = choose|i: int| 0 <= i < list.len() && #[trigger] file_named(list[i], n);
                if i < front.len() {
                    assert(file_named(front[i], n));
                }
            }
        }
        assert(marker_is(e, m, "Cargo.toml"@, CARGO_TOML));
        assert(marker_is(e, m, "package.json"@, PACKAGE_JSON));
        assert(marker_is(e, m, "CACHEDIR.TAG"@, CACHEDIR_TAG));
    }
}

spec fn marker_is(e: Option<Entry>, m: u8, n: Seq<char>, bit: u8) -> bool {
    (m == bit) == file_named(e, n)
}

proof fn lemma_literal_names_differ()
    ensures
        encode_utf8("Cargo.toml"@) != encode_utf8("package.json"@),
        encode_utf8("Cargo.toml"@) != encode_utf8("CACHEDIR.TAG"@),
        encode_utf8("package.json"@) != encode_utf8("CACHEDIR.TAG"@),
{
    reveal_strlit("Cargo.toml");
    reveal_strlit("package.json");
    reveal_strlit("CACHEDIR.TAG");
    encode_utf8_decode_utf8("Cargo.toml"@);
    encode_utf8_decode_utf8("package.json"@);
    encode_utf8_decode_utf8("CACHEDIR.TAG"@);
    assert("Cargo.toml"@[1] == 'a' && "package.json"@[0] == 'p' && "CACHEDIR.TAG"@[1] == 'A');
    assert("Cargo.toml"@[0] == 'C' && "CACHEDIR.TAG"@[0] == 'C');
}

/// `e` is a file, no directory, with that name.
pub open spec fn file_named(e: Option<Entry>, n: Seq<char>) -> bool {
    e is Some && e->0.kind != EntryKind::Dir && e->0.name@ == encode_utf8(n)
}

/// A directory that is together with its subdirectories keeps its own part and
/// holds each of them whole: size and files are the sums, whatever the order.
pub proof fn law_subdirectories_add_up(node: Tmp, subs: Seq<Tmp>, r: Tmp, i: int)
    requires
        finished(node, subs, r),
        0 <= i < subs.len(),
    ensures
        r.size >= node.size + subs[i].size,
        r.files >= node.files + subs[i].files,
        r.children@.len() == node.children@.len() + subs.len(),
        r.children@.contains(subs[i]),
        subs.len() == 1 ==> r.size == node.size + subs[0].size && r.files == node.files + subs[0].files,
{
    lemma_total_at(sizes(subs), i);
    lemma_total_at(counts(subs), i);
    let v = node.children@ + subs;
    let o = choose|o: Seq<usize>| #[trigger] child_order(v, o) && r.children@ == arranged(v, o);
    let k = node.children@.len() + i;
    lemma_rearranged_holds(v, o, k);
    assert(v[k] == subs[i]);
    if subs.len() == 1 {
        reveal_with_fuel(total_of, 2);
    }
}

proof fn lemma_rearranged_holds(v: Seq<Tmp>, o: Seq<usize>, k: int)
    requires
        rearranges(o, v.len() as int),
        0 <= k < v.len(),
    ensures
        arranged(v, o).contains(v[k]),
{
    assert(v.len() <= usize::MAX + 1) by {
        if v.len() > usize::MAX + 1 {
            crate::order::lemma_pigeon(o, usize::MAX as int + 1);
        }
    }
    assert(o.contains(k as usize));
    let w = choose|w: int| 0 <= w < o.len() && o[w] == k as usize;
    assert(arranged(v, o)[w] == v[k]);
}

proof fn lemma_total_at(s: Seq<nat>, i: int)
    requires
        0 <= i < s.len(),
    ensures
        s[i] <= total_of(s),
    decreases s.len(),
{
    if i < s.len() - 1 {
        lemma_total_at(s.drop_last(), i);
    }
}

/// The nodes of a folder stand by size, the largest first, and those of one size
/// by name; none is lost.
pub proof fn law_children_stand_by_size(v: Seq<Tmp>, list: Seq<Tmp>, i: int, j: int, x: Tmp)
    requires
        v.len() <= usize::MAX,
        children_sorted(v, list),
        0 <= i < j < list.len(),
    ensures
        list.contains(x) <==> v.contains(x),
        list.len() == v.len(),
        list[i].size >= list[j].size,
        list[i].size == list[j].size ==> list[i].name@ == list[j].name@ || lex(list[i].name@, list[j].name@, char_lt()),
{
    let o = choose|o: Seq<usize>| #[trigger] child_order(v, o) && list == arranged(v, o);
    law_rearranging_keeps_everything(v, o, x);
    let (a, b) = (o[i] as int, o[j] as int);
    assert(child_before(v[a].size as nat, v[a].name@, a, v[b].size as nat, v[b].name@, b));
}

/// Sizes on disk are counted in blocks of 512 bytes.
pub proof fn law_blocks_have_512_bytes(blocks: u64, r: u64)
    requires
        call_ensures(disk_bytes, (blocks,), r),
    ensures
        r == blocks * 512,
{
}

} // verus!
