//! Decides what a cleanup may remove — only ever carried out after explicit
//! confirmation in the UI.

use vstd::prelude::*;
use vstd::utf8::encode_utf8;

use crate::path::{
    absolute, bytes_of, comps, inside, lossy_text, paths_view, root_comp, same_path, FsPath,
};
use crate::rules::kernels::lemma_push_contains;
use crate::text::{chars_of, law_parts_are_cut_at_separators, lines, lines_of, split, split_on, string_of, texts, views};
use crate::util::{fmt_size, size_text};

verus! {

/// Paths that must never be removed, whatever a rule says.
pub open spec fn protected_places() -> Seq<Seq<char>> {
    seq![
        "/"@, "/bin"@, "/boot"@, "/dev"@, "/etc"@, "/home"@, "/lib"@, "/lib64"@, "/opt"@, "/proc"@, "/root"@,
        "/run"@, "/sbin"@, "/snap"@, "/srv"@, "/sys"@, "/tmp"@, "/usr"@, "/var"@,
    ]
}

/// System trees that are owned by packages: never removed from the treemap,
/// even when permissions would allow it (use apt/snap/journalctl instead).
pub open spec fn system_trees() -> Seq<Seq<char>> {
    seq![
        "/usr"@, "/etc"@, "/boot"@, "/var/lib"@, "/bin"@, "/sbin"@, "/lib"@, "/lib32"@, "/lib64"@, "/snap"@,
        "/proc"@, "/sys"@, "/dev"@, "/run"@,
    ]
}

/// One of the protected places.
pub open spec fn protected(p: Seq<u8>) -> bool {
    exists|i: int| 0 <= i < protected_places().len() && same_path(p, encode_utf8(#[trigger] protected_places()[i]))
}

/// Inside one of the system trees.
pub open spec fn in_system_tree(p: Seq<u8>) -> bool {
    exists|i: int| 0 <= i < system_trees().len() && inside(p, encode_utf8(#[trigger] system_trees()[i]))
}

pub(crate) fn is_protected(p: &FsPath) -> (r: bool)
    ensures
        r == protected(p@),
{
    let list: Vec<&str> = vec![
        "/", "/bin", "/boot", "/dev", "/etc", "/home", "/lib", "/lib64", "/opt", "/proc", "/root",
        "/run", "/sbin", "/snap", "/srv", "/sys", "/tmp", "/usr", "/var",
    ];
    let ghost want = protected_places();
    assert(list@.len() == want.len());
    assert(forall|i: int| 0 <= i < want.len() ==> #[trigger] want[i] == list@[i]@);
    for i in 0..list.len()
        invariant
            want == protected_places(),
            list@.len() == want.len(),
            forall|j: int| 0 <= j < want.len() ==> #[trigger] want[j] == list@[j]@,
            forall|j: int| 0 <= j < i ==> !same_path(p@, encode_utf8(#[trigger] want[j])),
    {
        if p.is(list[i]) {
            assert(same_path(p@, encode_utf8(want[i as int])));
            return true;
        }
        assert(!same_path(p@, encode_utf8(want[i as int])));
    }
    false
}

fn is_in_system_tree(p: &FsPath) -> (r: bool)
    ensures
        r == in_system_tree(p@),
{
    let list: Vec<&str> = vec![
        "/usr", "/etc", "/boot", "/var/lib", "/bin", "/sbin", "/lib", "/lib32", "/lib64", "/snap",
        "/proc", "/sys", "/dev", "/run",
    ];
    let ghost want = system_trees();
    assert(list@.len() == want.len());
    assert(forall|i: int| 0 <= i < want.len() ==> #[trigger] want[i] == list@[i]@);
    for i in 0..list.len()
        invariant
            want == system_trees(),
            list@.len() == want.len(),
            forall|j: int| 0 <= j < want.len() ==> #[trigger] want[j] == list@[j]@,
            forall|j: int| 0 <= j < i ==> !inside(p@, encode_utf8(#[trigger] want[j])),
    {
        if p.starts_with(&FsPath::new(list[i])) {
            assert(inside(p@, encode_utf8(want[i as int])));
            return true;
        }
        assert(!inside(p@, encode_utf8(want[i as int])));
    }
    false
}

/// Why a path is not removed.
pub open spec fn refusal(p: Seq<u8>, home: Seq<u8>) -> Option<Seq<char>> {
    if !absolute(p) {
        Some("refusing relative path"@)
    } else if comps(p).contains(seq![46u8, 46u8]) {
        Some("refusing path containing '..'"@)
    } else if protected(p) || same_path(p, home) {
        Some("refusing protected path"@)
    } else if inside(home, p) {
        Some("refusing a folder that contains your home folder"@)
    } else if comps(p).len() < 3 {
        Some("refusing top-level path"@)
    } else {
        None
    }
}

/// Why a path that the user marked by hand is not removed.
pub open spec fn mark_refusal(p: Seq<u8>, scan_root: Seq<u8>, home: Seq<u8>) -> Option<Seq<char>> {
    match refusal(p, home) {
        Some(e) => Some(e),
        None => if !inside(p, scan_root) || same_path(p, scan_root) {
            Some("only paths inside the scanned root can be removed"@)
        } else if in_system_tree(p) {
            Some("system tree managed by packages — use the Prune tab / apt instead"@)
        } else {
            None
        },
    }
}

/// May `p` be removed at all?
pub fn check_removable(p: &FsPath, home: &FsPath) -> (r: Result<(), String>)
    ensures
        r is Ok <==> refusal(p@, home@) is None,
        r matches Err(e) ==> refusal(p@, home@) == Some(e@),
{
    if !p.is_absolute() {
        return Err("refusing relative path".to_owned());
    }
    if p.climbs() {
        return Err("refusing path containing '..'".to_owned());
    }
    if is_protected(p) || p.same(home) {
        return Err("refusing protected path".to_owned());
    }
    if home.starts_with(p) {
        return Err("refusing a folder that contains your home folder".to_owned());
    }
    let c = p.components();
    assert(crate::path::names_view(c@).len() == c@.len());
    if c.len() < 3 {
        return Err("refusing top-level path".to_owned());
    }
    Ok(())
}

/// Rules for paths the user marked by hand in the tree or treemap.
pub fn check_markable(p: &FsPath, scan_root: &FsPath, home: &FsPath) -> (r: Result<(), String>)
    ensures
        r is Ok <==> mark_refusal(p@, scan_root@, home@) is None,
        r matches Err(e) ==> mark_refusal(p@, scan_root@, home@) == Some(e@),
{
    match check_removable(p, home) {
        Err(e) => return Err(e),
        Ok(()) => {},
    }
    if !p.starts_with(scan_root) || p.same(scan_root) {
        return Err("only paths inside the scanned root can be removed".to_owned());
    }
    if is_in_system_tree(p) {
        return Err("system tree managed by packages — use the Prune tab / apt instead".to_owned());
    }
    Ok(())
}

/// Nothing that may be removed is, or contains, the home folder or the root
/// directory; none of it is a protected place, a direct child of the root, or
/// spelled with a `..`.
pub proof fn law_removable_is_harmless(p: Seq<u8>, home: Seq<u8>)
    requires
        refusal(p, home) is None,
    ensures
        absolute(p),
        !inside(home, p),
        !same_path(p, home),
        !protected(p),
        !comps(p).contains(seq![46u8, 46u8]),
        comps(p).len() >= 3,
        comps(p)[0] == root_comp(),
{
}

/// What may be marked may also be removed, and lies strictly inside the
/// scanned directory and outside the trees that packages own.
pub proof fn law_markable_is_removable(p: Seq<u8>, scan_root: Seq<u8>, home: Seq<u8>)
    requires
        mark_refusal(p, scan_root, home) is None,
    ensures
        refusal(p, home) is None,
        inside(p, scan_root),
        !inside(scan_root, p),
        !in_system_tree(p),
{
    if inside(scan_root, p) {
        let (a, b) = (comps(p), comps(scan_root));
        assert(a.len() == b.len());
        assert(b.subrange(0, a.len() as int) =~= b);
        assert(a =~= b);
    }
}

/// Three octal digits.
pub open spec fn octal(b: Seq<u8>) -> bool {
    b.len() == 3 && 48 <= b[0] <= 55 && 48 <= b[1] <= 55 && 48 <= b[2] <= 55
}

/// A mount point with the kernel's octal escapes (`\040`) decoded.
pub open spec fn unescaped(b: Seq<u8>) -> Seq<u8>
    decreases b.len(),
{
    if b.len() == 0 {
        Seq::empty()
    } else if b[0] == 92 && b.len() >= 4 && octal(b.subrange(1, 4)) {
        seq![(((b[1] - 48) * 64 + (b[2] - 48) * 8 + (b[3] - 48)) % 256) as u8] + unescaped(b.skip(4))
    } else {
        seq![b[0]] + unescaped(b.skip(1))
    }
}

/// The mount points that lines of a mount table name (in the fifth field).
pub open spec fn mount_points(list: Seq<Seq<char>>) -> Seq<Seq<u8>>
    decreases list.len(),
{
    if list.len() == 0 {
        Seq::empty()
    } else {
        let f = split(list.last(), ' ');
        let rest = mount_points(list.drop_last());
        if f.len() > 4 {
            rest.push(unescaped(encode_utf8(f[4])))
        } else {
            rest
        }
    }
}

/// Decode the octal escapes of a mount point.
pub fn unescape_mount(s: &str) -> (r: FsPath)
    ensures
        r@ == unescaped(encode_utf8(s@)),
{
    let b = bytes_of(s);
    let mut out: Vec<u8> = Vec::new();
    let mut i: usize = 0;
    assert(b@.skip(0) =~= b@);
    assert(out@ + unescaped(b@) =~= unescaped(b@));
    while i < b.len()
        invariant
            i <= b@.len(),
            out@ + unescaped(b@.skip(i as int)) == unescaped(b@),
        decreases b@.len() - i,
    {
        let ghost rest = b@.skip(i as int);
        let ghost before = out@;
        if b[i] == 92 && b.len() - i >= 4 && 48 <= b[i + 1] && b[i + 1] <= 55 && 48 <= b[i + 2] && b[i + 2] <= 55
            && 48 <= b[i + 3] && b[i + 3] <= 55 {
            assert(octal(rest.subrange(1, 4)));
            let n: u32 = (b[i + 1] - 48) as u32 * 64 + (b[i + 2] - 48) as u32 * 8 + (b[i + 3] - 48) as u32;
            let c: u8 = (n % 256) as u8;
            out.push(c);
            assert(rest.skip(4) =~= b@.skip(i + 4));
            assert(out@ + unescaped(b@.skip(i + 4)) =~= before + (seq![c] + unescaped(b@.skip(i + 4))));
            i += 4;
        } else {
            assert(!(rest[0] == 92 && rest.len() >= 4 && octal(rest.subrange(1, 4)))) by {
                if rest.len() >= 4 {
                    let o = rest.subrange(1, 4);
                    assert(o[0] == b@[i + 1] && o[1] == b@[i + 2] && o[2] == b@[i + 3]);
                }
            }
            out.push(b[i]);
            assert(rest.skip(1) =~= b@.skip(i + 1));
            assert(out@ + unescaped(b@.skip(i + 1)) =~= before + (seq![rest[0]] + unescaped(b@.skip(i + 1))));
            i += 1;
        }
    }
    assert(b@.skip(i as int) =~= Seq::empty());
    assert(out@ + Seq::<u8>::empty() =~= out@);
    FsPath::from_bytes(out)
}

/// Mount points from `/proc/self/mountinfo` text (5th field, with the kernel's
/// octal escapes such as `\040` for a space decoded).
pub fn parse_mountinfo(text: &str) -> (r: Vec<FsPath>)
    ensures
        paths_view(r@) == mount_points(lines(text@)),
{
    let l = lines_of(&chars_of(text));
    let mut out: Vec<FsPath> = Vec::new();
    assert(paths_view(out@) =~= Seq::empty());
    for i in 0..l.len()
        invariant
            paths_view(out@) == mount_points(views(l@).take(i as int)),
    {
        proof {
            assert(views(l@).take(i + 1).drop_last() =~= views(l@).take(i as int));
            assert(views(l@).take(i + 1).last() == l@[i as int]@);
        }
        let f = split_on(&l[i], ' ');
        assert(views(f@).len() == f@.len());
        let ghost before = out@;
        if f.len() > 4 {
            assert(views(f@)[4] == f@[4]@);
            let m = unescape_mount(string_of(&f[4]).as_str());
            out.push(m);
            assert(paths_view(out@) =~= paths_view(before).push(m@));
        }
    }
    assert(views(l@).take(l@.len() as int) =~= views(l@));
    out
}

/// `m` is mounted inside `p` (or is `p`, when the directory itself would go).
pub open spec fn mounted_in(m: Seq<u8>, p: Seq<u8>, include_self: bool) -> bool {
    inside(m, p) && (include_self || !same_path(m, p))
}

/// The first of the mount points that `p` contains (or is, when the directory
/// itself would go).
pub fn mounts_inside<'a>(p: &FsPath, mounts: &'a Vec<FsPath>, include_self: bool) -> (r: Option<&'a FsPath>)
    ensures
        r is None <==> forall|i: int| 0 <= i < mounts@.len() ==> !mounted_in(#[trigger] mounts@[i]@, p@, include_self),
        r matches Some(m) ==> exists|i: int|
            0 <= i < mounts@.len() && m@ == mounts@[i]@ && mounted_in(#[trigger] mounts@[i]@, p@, include_self) && (
            forall|j: int| 0 <= j < i ==> !mounted_in(#[trigger] mounts@[j]@, p@, include_self)),
{
    for i in 0..mounts.len()
        invariant
            forall|j: int| 0 <= j < i ==> !mounted_in(#[trigger] mounts@[j]@, p@, include_self),
    {
        if mounts[i].starts_with(p) && (include_self || !mounts[i].same(p)) {
            assert(mounted_in(mounts@[i as int]@, p@, include_self));
            return Some(&mounts[i]);
        }
    }
    None
}

/// What looking at a path (without following a symlink) shows.
pub enum Seen {
    Missing,
    /// It cannot be looked at, for this reason.
    Failed(String),
    Symlink,
    Dir,
    Other,
}

/// What is to be done with a path.
pub enum Removal {
    /// Nothing: it is gone already, or there is nothing to empty.
    Nothing,
    /// Refused, or impossible, for this reason.
    Refuse(String),
    /// Unlink the file (or symlink).
    Unlink,
    /// Delete what is in the directory, and the directory unless `keep_dir`.
    Clear { keep_dir: bool },
}

#[verifier::ext_equal]
pub enum RemovalView {
    Nothing,
    Refuse(Seq<char>),
    Unlink,
    Clear { keep_dir: bool },
}

impl View for Removal {
    type V = RemovalView;

    open spec fn view(&self) -> RemovalView {
        match self {
            Removal::Nothing => RemovalView::Nothing,
            Removal::Refuse(e) => RemovalView::Refuse(e@),
            Removal::Unlink => RemovalView::Unlink,
            Removal::Clear { keep_dir } => RemovalView::Clear { keep_dir: *keep_dir },
        }
    }
}

/// The first of `mounts` that is mounted in `p`.
pub open spec fn first_mount(mounts: Seq<Seq<u8>>, p: Seq<u8>, include_self: bool) -> Option<Seq<u8>>
    decreases mounts.len(),
{
    if mounts.len() == 0 {
        None
    } else if mounted_in(mounts[0], p, include_self) {
        Some(mounts[0])
    } else {
        first_mount(mounts.skip(1), p, include_self)
    }
}

proof fn lemma_first_mount(mounts: Seq<Seq<u8>>, p: Seq<u8>, include_self: bool, i: int)
    requires
        0 <= i <= mounts.len(),
        forall|j: int| 0 <= j < i ==> !mounted_in(mounts[j], p, include_self),
        i < mounts.len() ==> mounted_in(mounts[i], p, include_self),
    ensures
        first_mount(mounts, p, include_self) == (if i < mounts.len() {
            Some(mounts[i])
        } else {
            None
        }),
    decreases mounts.len(),
{
    if mounts.len() > 0 && i > 0 {
        assert(!mounted_in(mounts[0], p, include_self));
        assert forall|j: int| 0 <= j < i - 1 implies !mounted_in(mounts.skip(1)[j], p, include_self) by {
            assert(mounts.skip(1)[j] == mounts[j + 1]);
        }
        lemma_first_mount(mounts.skip(1), p, include_self, i - 1);
    }
}

/// Why a directory is not removed, given the mount table: something is mounted
/// in it.
pub open spec fn mount_refusal(p: Seq<u8>, keep_dir: bool, mounts: Seq<Seq<u8>>) -> Option<Seq<char>> {
    match first_mount(mounts, p, !keep_dir) {
        Some(m) => Some(
            "refusing: "@ + lossy_text(m) + " is a mounted filesystem inside "@ + lossy_text(p),
        ),
        None => None,
    }
}

/// May directory `p` (or only its contents with `keep_dir`) go? Not when a
/// mount point lies below it.
pub fn remove_dir_checked(p: &FsPath, keep_dir: bool, mounts: &Vec<FsPath>) -> (r: Result<(), String>)
    ensures
        r is Ok <==> mount_refusal(p@, keep_dir, paths_view(mounts@)) is None,
        r matches Err(e) ==> mount_refusal(p@, keep_dir, paths_view(mounts@)) == Some(e@),
{
    let ghost mv = paths_view(mounts@);
    assert(forall|i: int| 0 <= i < mv.len() ==> #[trigger] mv[i] == mounts@[i]@);
    match mounts_inside(p, mounts, !keep_dir) {
        Some(m) => {
            proof {
                let i = choose|i: int|
                    0 <= i < mounts@.len() && m@ == mounts@[i]@ && mounted_in(#[trigger] mounts@[i]@, p@, !keep_dir) && (
                    forall|j: int| 0 <= j < i ==> !mounted_in(#[trigger] mounts@[j]@, p@, !keep_dir));
                lemma_first_mount(mv, p@, !keep_dir, i);
            }
            Err("refusing: ".to_owned().concat(m.display().as_str()).concat(" is a mounted filesystem inside ").concat(p.display().as_str()))
        },
        None => {
            proof {
                lemma_first_mount(mv, p@, !keep_dir, mv.len() as int);
            }
            Ok(())
        },
    }
}

/// What is done with `p`: `canonical_parent` is its parent with every symlink
/// resolved, `mountinfo` the text of the mount table; each of them as far as it
/// could be read.
pub open spec fn removal_of(
    p: Seq<u8>,
    keep_dir: bool,
    home: Seq<u8>,
    seen: Seen,
    canonical_parent: Result<Seq<u8>, Seq<char>>,
    mountinfo: Result<Seq<char>, Seq<char>>,
) -> RemovalView {
    match refusal(p, home) {
        Some(e) => RemovalView::Refuse(e),
        None => match seen {
            Seen::Missing => RemovalView::Nothing,
            Seen::Failed(e) => RemovalView::Refuse(e@),
            _ => match canonical_parent {
                Err(e) => RemovalView::Refuse(e),
                Ok(c) => if comps(c) != comps(p).drop_last() {
                    RemovalView::Refuse(
                        "refusing: "@ + lossy_text(p) + " goes through a symlinked directory"@,
                    )
                } else if seen is Symlink && keep_dir {
                    RemovalView::Nothing
                } else if !(seen is Dir) {
                    RemovalView::Unlink
                } else {
                    match mountinfo {
                        Err(e) => RemovalView::Refuse(
                            "refusing: cannot read the mount table ("@ + e + ")"@,
                        ),
                        Ok(t) => match mount_refusal(p, keep_dir, mount_points(lines(t))) {
                            Some(e) => RemovalView::Refuse(e),
                            None => RemovalView::Clear { keep_dir },
                        },
                    }
                },
            },
        },
    }
}

/// Views of optional readings.
pub open spec fn path_reading(r: Result<FsPath, String>) -> Result<Seq<u8>, Seq<char>> {
    match r {
        Ok(p) => Ok(p@),
        Err(e) => Err(e@),
    }
}

pub open spec fn text_reading(r: Result<String, String>) -> Result<Seq<char>, Seq<char>> {
    match r {
        Ok(t) => Ok(t@),
        Err(e) => Err(e@),
    }
}

/// What to do with `p` (never following symlinks: a symlink is unlinked, not
/// its target). With `keep_dir`, a directory is emptied but kept.
///
/// The guards look at the literal path, so it is refused when a parent is a
/// symlink, which would make it point somewhere else entirely. Without the
/// mount table a bind mount of the same filesystem could not be told apart
/// from a folder: that is refused too.
pub fn remove_path(
    p: &FsPath,
    keep_dir: bool,
    home: &FsPath,
    seen: Seen,
    canonical_parent: Result<FsPath, String>,
    mountinfo: Result<String, String>,
) -> (r: Removal)
    ensures
        r@ == removal_of(p@, keep_dir, home@, seen, path_reading(canonical_parent), text_reading(mountinfo)),
{
    match check_removable(p, home) {
        Err(e) => return Removal::Refuse(e),
        Ok(()) => {},
    }
    let (link, dir) = match seen {
        Seen::Missing => return Removal::Nothing,
        Seen::Failed(e) => return Removal::Refuse(e),
        Seen::Symlink => (true, false),
        Seen::Dir => (false, true),
        Seen::Other => (false, false),
    };
    let canonical = match canonical_parent {
        Err(e) => return Removal::Refuse(e),
        Ok(c) => c,
    };
    let direct = match p.parent() {
        Some(parent) => canonical.same(&parent),
        None => {
            proof {
                crate::path::lemma_root_only(p@);
                assert(comps(p@).last() == comps(p@)[comps(p@).len() - 1]);
            }
            false
        },
    };
    if !direct {
        return Removal::Refuse("refusing: ".to_owned().concat(p.display().as_str()).concat(" goes through a symlinked directory"));
    }
    if keep_dir && link {
        // "Empty this folder" on a symlink: its contents live elsewhere.
        return Removal::Nothing;
    }
    if !dir {
        return Removal::Unlink;
    }
    match mountinfo {
        Err(e) => Removal::Refuse("refusing: cannot read the mount table (".to_owned().concat(e.as_str()).concat(")")),
        Ok(t) => match remove_dir_checked(p, keep_dir, &parse_mountinfo(t.as_str())) {
            Err(e) => Removal::Refuse(e),
            Ok(()) => Removal::Clear { keep_dir },
        },
    }
}

/// Whatever was seen: a path that the guards refuse is left alone, and a
/// directory goes only where the mount table shows nothing mounted in it and
/// no symlink leads to it.
pub proof fn law_removal_respects_guards(
    p: Seq<u8>,
    keep_dir: bool,
    home: Seq<u8>,
    seen: Seen,
    canonical_parent: Result<Seq<u8>, Seq<char>>,
    mountinfo: Result<Seq<char>, Seq<char>>,
)
    ensures
        ({
            let r = removal_of(p, keep_dir, home, seen, canonical_parent, mountinfo);
            &&& (r is Unlink || r is Clear) ==> refusal(p, home) is None && canonical_parent is Ok && comps(
                canonical_parent->Ok_0,
            ) == comps(p).drop_last()
            &&& r is Clear ==> seen is Dir && mountinfo is Ok && r->keep_dir == keep_dir && first_mount(
                mount_points(lines(mountinfo->Ok_0)),
                p,
                !keep_dir,
            ) is None
            &&& r is Unlink ==> !(seen is Dir)
        }),
{
}

/// A directory and the device it lives on.
pub struct DirOnDevice {
    pub path: FsPath,
    pub dev: u64,
}

/// All of `children` are on the device `dev`.
pub open spec fn on_device(children: Seq<DirOnDevice>, dev: u64) -> bool {
    forall|i: int| 0 <= i < children.len() ==> (#[trigger] children[i]).dev == dev
}

/// `p` is the first of `children` on another device than `dev`.
pub open spec fn first_foreign(children: Seq<DirOnDevice>, dev: u64, p: Seq<u8>) -> bool {
    exists|i: int|
        0 <= i < children.len() && (#[trigger] children[i]).dev != dev && p == children[i].path@ && on_device(children.take(i), dev)
}

/// The first of `children` on another device than `dev`.
pub fn foreign_device(children: &Vec<DirOnDevice>, dev: u64) -> (r: Option<FsPath>)
    ensures
        r is None <==> on_device(children@, dev),
        r matches Some(p) ==> first_foreign(children@, dev, p@),
{
    for i in 0..children.len()
        invariant
            on_device(children@.take(i as int), dev),
    {
        if children[i].dev != dev {
            return Some(children[i].path.clone());
        }
        assert(children@.take(i + 1) =~= children@.take(i as int).push(children@[i as int]));
    }
    assert(children@.take(children@.len() as int) =~= children@);
    None
}

/// A directory that was read: the directories in it, each with its device.
pub struct ReadDir {
    pub dir: Seq<u8>,
    pub children: Seq<(Seq<u8>, u64)>,
}

pub open spec fn devices(v: Seq<DirOnDevice>) -> Seq<(Seq<u8>, u64)> {
    Seq::new(v.len(), |i: int| (v[i].path@, v[i].dev))
}

pub open spec fn dir_paths(v: Seq<DirOnDevice>) -> Seq<Seq<u8>> {
    Seq::new(v.len(), |i: int| v[i].path@)
}

/// The walk below a directory that is to be removed, before anything is
/// deleted: a directory on another device than `dev` (a mount point that the
/// mount table did not list) stops it.
pub struct DeviceWalk {
    pub dev: u64,
    /// The directories left to read, the next one last.
    pub todo: Vec<FsPath>,
    /// Those that were read.
    pub read: Ghost<Seq<ReadDir>>,
}

impl DeviceWalk {
    pub open spec fn was_read(self, p: Seq<u8>) -> bool {
        exists|i: int| 0 <= i < self.read@.len() && (#[trigger] self.read@[i]).dir == p
    }

    /// `p` was read or is to be.
    pub open spec fn reached(self, p: Seq<u8>) -> bool {
        self.was_read(p) || paths_view(self.todo@).contains(p)
    }

    /// Every directory that was seen is on the one device and was read or is to
    /// be; so is the directory `root` where the walk began.
    pub open spec fn wf(self, root: Seq<u8>) -> bool {
        &&& self.reached(root)
        &&& forall|i: int, k: int|
            0 <= i < self.read@.len() && 0 <= k < self.read@[i].children.len() ==> (#[trigger] self.read@[i].children[k]).1 == self.dev
                && self.reached(self.read@[i].children[k].0)
    }

    /// A walk that begins in `dir`, which is on the device `dev`.
    pub fn begin(dir: &FsPath, dev: u64) -> (r: DeviceWalk)
        ensures
            r.dev == dev,
            paths_view(r.todo@) == seq![dir@],
            r.read@ == Seq::<ReadDir>::empty(),
            r.wf(dir@),
    {
        let mut todo: Vec<FsPath> = Vec::new();
        todo.push(dir.clone());
        assert(paths_view(todo@) =~= seq![dir@]);
        assert(paths_view(todo@)[0] == dir@);
        DeviceWalk { dev, todo, read: Ghost(Seq::empty()) }
    }

    /// The directory to read next; `None` when the walk is finished.
    pub fn next(&self) -> (r: Option<FsPath>)
        ensures
            r is None <==> self.todo@.len() == 0,
            r matches Some(p) ==> p@ == self.todo@.last()@,
    {
        if self.todo.len() == 0 {
            None
        } else {
            Some(self.todo[self.todo.len() - 1].clone())
        }
    }

    /// The directory that was next has been read: `children` are the
    /// directories in it. The first one on another device ends the walk with a
    /// refusal; otherwise all of them are to be read in turn.
    pub fn step(&mut self, children: &Vec<DirOnDevice>) -> (r: Option<FsPath>)
        requires
            old(self).todo@.len() > 0,
        ensures
            r is None <==> on_device(children@, old(self).dev),
            r matches Some(p) ==> first_foreign(children@, old(self).dev, p@) && *final(self) == *old(self),
            r is None ==> final(self).dev == old(self).dev && paths_view(final(self).todo@) == paths_view(
                old(self).todo@.drop_last(),
            ) + dir_paths(children@) && final(self).read@ == old(self).read@.push(
                (ReadDir { dir: old(self).todo@.last()@, children: devices(children@) }),
            ),
            forall|root: Seq<u8>| r is None && #[trigger] old(self).wf(root) ==> final(self).wf(root),
    {
        let r = foreign_device(children, self.dev);
        if r.is_some() {
            return r;
        }
        let ghost w = *self;
        let _ = self.todo.pop();
        let ghost left = paths_view(self.todo@);
        assert(left + dir_paths(children@.take(0)) =~= left);
        for i in 0..children.len()
            invariant
                self.dev == w.dev,
                self.read == w.read,
                paths_view(self.todo@) == left + dir_paths(children@.take(i as int)),
        {
            let ghost before = self.todo@;
            let p = children[i].path.clone();
            self.todo.push(p);
            assert(paths_view(self.todo@) =~= paths_view(before).push(p@));
            assert(dir_paths(children@.take(i + 1)) =~= dir_paths(children@.take(i as int)).push(p@));
            assert(paths_view(self.todo@) =~= left + dir_paths(children@.take(i + 1)));
        }
        assert(children@.take(children@.len() as int) =~= children@);
        self.read = Ghost(w.read@.push(ReadDir { dir: w.todo@.last()@, children: devices(children@) }));
        proof {
            lemma_step(w, *self, children@);
        }
        None
    }
}

proof fn lemma_step(a: DeviceWalk, b: DeviceWalk, children: Seq<DirOnDevice>)
    requires
        a.todo@.len() > 0,
        on_device(children, a.dev),
        b.dev == a.dev,
        paths_view(b.todo@) == paths_view(a.todo@.drop_last()) + dir_paths(children),
        b.read@ == a.read@.push((ReadDir { dir: a.todo@.last()@, children: devices(children) })),
    ensures
        forall|root: Seq<u8>| #[trigger] a.wf(root) ==> b.wf(root),
{
    let n = a.read@.len() as int;
    let (ta, tb) = (paths_view(a.todo@), paths_view(b.todo@));
    assert forall|p: Seq<u8>| #[trigger] a.reached(p) implies b.reached(p) by {
        if a.was_read(p) {
            let i = choose|i: int| 0 <= i < a.read@.len() && (#[trigger] a.read@[i]).dir == p;
            assert(b.read@[i].dir == p);
        } else {
            let w = choose|w: int| 0 <= w < ta.len() && ta[w] == p;
            if w == ta.len() - 1 {
                assert(b.read@[n].dir == p);
            } else {
                assert(tb[w] == p);
            }
        }
    }
    assert forall|root: Seq<u8>| #[trigger] a.wf(root) implies b.wf(root) by {
        assert forall|i: int, k: int| 0 <= i < b.read@.len() && 0 <= k < b.read@[i].children.len() implies (#[trigger] b.read@[i].children[k]).1
            == b.dev && b.reached(b.read@[i].children[k].0) by {
            if i < n {
                assert(b.read@[i] == a.read@[i]);
                assert(a.read@[i].children[k].1 == a.dev);
                assert(a.reached(a.read@[i].children[k].0));
            } else {
                assert(children[k].dev == a.dev);
                assert(tb[a.todo@.len() - 1 + k] == children[k].path@);
            }
        }
    }
}

/// A finished walk has read the directory it began in and, in turn, every
/// directory that it saw: each is on the one device.
pub proof fn law_finished_walk_saw_one_device(w: DeviceWalk, root: Seq<u8>)
    requires
        w.wf(root),
        w.todo@.len() == 0,
    ensures
        w.was_read(root),
        forall|i: int, k: int|
            0 <= i < w.read@.len() && 0 <= k < w.read@[i].children.len() ==> (#[trigger] w.read@[i].children[k]).1 == w.dev
                && w.was_read(w.read@[i].children[k].0),
{
    assert(paths_view(w.todo@).len() == 0);
    assert forall|i: int, k: int| 0 <= i < w.read@.len() && 0 <= k < w.read@[i].children.len() implies (#[trigger] w.read@[i].children[k]).1
        == w.dev && w.was_read(w.read@[i].children[k].0) by {
        assert(w.reached(w.read@[i].children[k].0));
    }
}

#[derive(Clone, Copy, Debug, PartialEq, Eq, Structural)]
pub enum RemoveMode {
    Trash,
    Permanent,
}

/// What removing `bytes` frees at once.
pub open spec fn freed_by(mode: RemoveMode, bytes: nat) -> nat {
    match mode {
        RemoveMode::Trash => 0,
        RemoveMode::Permanent => bytes,
    }
}

/// Disk space a successful removal gives back: trashed items still occupy
/// the disk until the Trash is emptied.
pub fn freed_bytes(mode: RemoveMode, size: u64) -> (r: u64)
    ensures
        r == freed_by(mode, size as nat),
{
    match mode {
        RemoveMode::Trash => 0,
        RemoveMode::Permanent => size,
    }
}

/// A path marked by hand, and what came of removing it.
pub struct Marked {
    pub path: FsPath,
    pub size: u64,
    /// `None` if it went, else why not.
    pub error: Option<String>,
}

/// How many of the marked paths went.
pub open spec fn removed_count(list: Seq<Marked>) -> nat
    decreases list.len(),
{
    if list.len() == 0 {
        0
    } else {
        removed_count(list.drop_last()) + if list.last().error is None { 1nat } else { 0 }
    }
}

/// The bytes of those that went.
pub open spec fn removed_bytes(list: Seq<Marked>) -> nat
    decreases list.len(),
{
    if list.len() == 0 {
        0
    } else {
        removed_bytes(list.drop_last()) + if list.last().error is None { list.last().size as nat } else { 0 }
    }
}

/// The log line about one marked path.
pub open spec fn mark_line(m: Marked, mode: RemoveMode) -> Seq<char> {
    match m.error {
        None => "✔ "@ + (match mode {
            RemoveMode::Trash => "trashed"@,
            RemoveMode::Permanent => "deleted"@,
        }) + " "@ + lossy_text(m.path@) + " ("@ + size_text(m.size) + ")"@,
        Some(e) => "✘ "@ + lossy_text(m.path@) + ": "@ + e@,
    }
}

proof fn lemma_removed_grows(list: Seq<Marked>, k: int)
    requires
        0 <= k <= list.len(),
    ensures
        removed_bytes(list.take(k)) <= removed_bytes(list),
        removed_count(list.take(k)) <= k,
    decreases list.len(), k,
{
    if k < list.len() {
        assert(list.drop_last().take(k) =~= list.take(k));
        lemma_removed_grows(list.drop_last(), k);
    } else if k > 0 {
        assert(list.take(k) =~= list);
        assert(list.drop_last() =~= list.drop_last().take(k - 1));
        lemma_removed_grows(list.drop_last(), k - 1);
    } else {
        assert(list.take(k) =~= list);
    }
}

/// What removing the marked paths came to: how many went, the bytes freed, and
/// a line about each. Trashed items free nothing until the Trash is emptied,
/// so they add no bytes.
pub fn remove_marked(list: &Vec<Marked>, mode: RemoveMode) -> (r: (usize, u64, Vec<String>))
    requires
        removed_bytes(list@) <= u64::MAX,
    ensures
        r.0 == removed_count(list@),
        r.1 == freed_by(mode, removed_bytes(list@)),
        texts(r.2@) == Seq::new(list@.len(), |i: int| mark_line(list@[i], mode)),
{
    let mut ok: usize = 0;
    let mut bytes: u64 = 0;
    let mut log: Vec<String> = Vec::new();
    let ghost want = Seq::new(list@.len(), |i: int| mark_line(list@[i], mode));
    for i in 0..list.len()
        invariant
            removed_bytes(list@) <= u64::MAX,
            want == Seq::new(list@.len(), |i: int| mark_line(list@[i], mode)),
            ok == removed_count(list@.take(i as int)),
            ok <= i,
            bytes == (match mode {
                RemoveMode::Trash => 0,
                RemoveMode::Permanent => removed_bytes(list@.take(i as int)),
            }),
            texts(log@) == want.take(i as int),
    {
        let m = &list[i];
        proof {
            assert(list@.take(i + 1).drop_last() =~= list@.take(i as int));
            lemma_removed_grows(list@, i + 1);
        }
        let line = match &m.error {
            None => {
                ok += 1;
                bytes += freed_bytes(mode, m.size);
                let verb = match mode {
                    RemoveMode::Trash => "trashed",
                    RemoveMode::Permanent => "deleted",
                };
                "✔ ".to_owned().concat(verb).concat(" ").concat(m.path.display().as_str()).concat(" (").concat(fmt_size(m.size).as_str()).concat(")")
            },
            Some(e) => "✘ ".to_owned().concat(m.path.display().as_str()).concat(": ").concat(e.as_str()),
        };
        let ghost before = log@;
        log.push(line);
        assert(texts(log@) =~= texts(before).push(line@));
        assert(texts(log@) =~= want.take(i + 1));
    }
    assert(list@.take(list@.len() as int) =~= list@);
    assert(want.take(list@.len() as int) =~= want);
    (ok, bytes, log)
}

/// The protected places, one by one: no other path is protected.
pub proof fn law_protected_places(p: Seq<u8>)
    ensures
        protected(p) <==> {
            ||| comps(p) == comps(encode_utf8("/"@))
            ||| comps(p) == comps(encode_utf8("/bin"@))
            ||| comps(p) == comps(encode_utf8("/boot"@))
            ||| comps(p) == comps(encode_utf8("/dev"@))
            ||| comps(p) == comps(encode_utf8("/etc"@))
            ||| comps(p) == comps(encode_utf8("/home"@))
            ||| comps(p) == comps(encode_utf8("/lib"@))
            ||| comps(p) == comps(encode_utf8("/lib64"@))
            ||| comps(p) == comps(encode_utf8("/opt"@))
            ||| comps(p) == comps(encode_utf8("/proc"@))
            ||| comps(p) == comps(encode_utf8("/root"@))
            ||| comps(p) == comps(encode_utf8("/run"@))
            ||| comps(p) == comps(encode_utf8("/sbin"@))
            ||| comps(p) == comps(encode_utf8("/snap"@))
            ||| comps(p) == comps(encode_utf8("/srv"@))
            ||| comps(p) == comps(encode_utf8("/sys"@))
            ||| comps(p) == comps(encode_utf8("/tmp"@))
            ||| comps(p) == comps(encode_utf8("/usr"@))
            ||| comps(p) == comps(encode_utf8("/var"@))
        },
{
    let l = protected_places();
    assert(l[0] == "/"@);
    assert(l[1] == "/bin"@);
    assert(l[2] == "/boot"@);
    assert(l[3] == "/dev"@);
    assert(l[4] == "/etc"@);
    assert(l[5] == "/home"@);
    assert(l[6] == "/lib"@);
    assert(l[7] == "/lib64"@);
    assert(l[8] == "/opt"@);
    assert(l[9] == "/proc"@);
    assert(l[10] == "/root"@);
    assert(l[11] == "/run"@);
    assert(l[12] == "/sbin"@);
    assert(l[13] == "/snap"@);
    assert(l[14] == "/srv"@);
    assert(l[15] == "/sys"@);
    assert(l[16] == "/tmp"@);
    assert(l[17] == "/usr"@);
    assert(l[18] == "/var"@);
    if protected(p) {
        let i = choose|i: int| 0 <= i < l.len() && same_path(p, encode_utf8(#[trigger] l[i]));
        assert(l.len() == 19);
        assert(same_path(p, encode_utf8(l[i])));
    }
}

/// The system trees, one by one: whatever lies in them is left to the package
/// manager, and nothing else is.
pub proof fn law_system_trees(p: Seq<u8>)
    ensures
        in_system_tree(p) <==> {
            ||| comps(encode_utf8("/usr"@)).is_prefix_of(comps(p))
            ||| comps(encode_utf8("/etc"@)).is_prefix_of(comps(p))
            ||| comps(encode_utf8("/boot"@)).is_prefix_of(comps(p))
            ||| comps(encode_utf8("/var/lib"@)).is_prefix_of(comps(p))
            ||| comps(encode_utf8("/bin"@)).is_prefix_of(comps(p))
            ||| comps(encode_utf8("/sbin"@)).is_prefix_of(comps(p))
            ||| comps(encode_utf8("/lib"@)).is_prefix_of(comps(p))
            ||| comps(encode_utf8("/lib32"@)).is_prefix_of(comps(p))
            ||| comps(encode_utf8("/lib64"@)).is_prefix_of(comps(p))
            ||| comps(encode_utf8("/snap"@)).is_prefix_of(comps(p))
            ||| comps(encode_utf8("/proc"@)).is_prefix_of(comps(p))
            ||| comps(encode_utf8("/sys"@)).is_prefix_of(comps(p))
            ||| comps(encode_utf8("/dev"@)).is_prefix_of(comps(p))
            ||| comps(encode_utf8("/run"@)).is_prefix_of(comps(p))
        },
{
    let l = system_trees();
    assert(l[0] == "/usr"@);
    assert(l[1] == "/etc"@);
    assert(l[2] == "/boot"@);
    assert(l[3] == "/var/lib"@);
    assert(l[4] == "/bin"@);
    assert(l[5] == "/sbin"@);
    assert(l[6] == "/lib"@);
    assert(l[7] == "/lib32"@);
    assert(l[8] == "/lib64"@);
    assert(l[9] == "/snap"@);
    assert(l[10] == "/proc"@);
    assert(l[11] == "/sys"@);
    assert(l[12] == "/dev"@);
    assert(l[13] == "/run"@);
    if in_system_tree(p) {
        let i = choose|i: int| 0 <= i < l.len() && inside(p, encode_utf8(#[trigger] l[i]));
        assert(l.len() == 14);
        assert(inside(p, encode_utf8(l[i])));
    }
}

/// What may be removed: exactly the absolute paths, at least two levels deep and
/// without a step upwards, that are not protected and do not hold the home
/// folder.
pub proof fn law_what_may_be_removed(p: Seq<u8>, home: Seq<u8>)
    ensures
        refusal(p, home) is None <==> p.len() > 0 && p[0] == 47 && comps(p).len() >= 3 && !comps(p).contains(seq![46u8, 46u8]) && !protected(p)
            && !comps(p).is_prefix_of(comps(home)),
{
    if comps(p) == comps(home) {
        assert(comps(home).take(comps(p).len() as int) =~= comps(p));
    }
}

/// What may be marked on the map: exactly what may be removed, lies inside what
/// was scanned, and is in no system tree.
pub proof fn law_what_may_be_marked(p: Seq<u8>, scan_root: Seq<u8>, home: Seq<u8>)
    ensures
        mark_refusal(p, scan_root, home) is None <==> refusal(p, home) is None && comps(scan_root).is_prefix_of(comps(p)) && comps(
            scan_root,
        ) != comps(p) && !in_system_tree(p),
{
}

/// Which reason is given for a refusal.
pub proof fn law_refusals_say_why(p: Seq<u8>, home: Seq<u8>)
    ensures
        !absolute(p) ==> refusal(p, home) == Some("refusing relative path"@),
        absolute(p) && comps(p).contains(seq![46u8, 46u8]) ==> refusal(p, home) == Some("refusing path containing '..'"@),
        absolute(p) && !comps(p).contains(seq![46u8, 46u8]) && (protected(p) || comps(p) == comps(home)) ==> refusal(p, home) == Some(
            "refusing protected path"@,
        ),
        absolute(p) && !comps(p).contains(seq![46u8, 46u8]) && !protected(p) && comps(p) != comps(home) && inside(home, p) ==> refusal(
            p,
            home,
        ) == Some("refusing a folder that contains your home folder"@),
        absolute(p) && !comps(p).contains(seq![46u8, 46u8]) && !protected(p) && comps(p) != comps(home) && !inside(home, p) && comps(p).len() < 3
            ==> refusal(p, home) == Some("refusing top-level path"@),
{
}

/// A removal that no guard speaks against is carried out: a directory is cleared
/// (and kept where asked), anything else is unlinked, and what is gone already
/// is left at that.
pub proof fn law_allowed_removals_are_carried_out(
    p: Seq<u8>,
    keep_dir: bool,
    home: Seq<u8>,
    seen: Seen,
    parent: Seq<u8>,
    table: Seq<char>,
)
    requires
        refusal(p, home) is None,
        comps(parent) == comps(p).drop_last(),
    ensures
        ({
            let r = removal_of(p, keep_dir, home, seen, Ok(parent), Ok(table));
            let mounts = mount_points(lines(table));
            let free = forall|i: int|
                0 <= i < mounts.len() ==> !comps(p).is_prefix_of(comps(#[trigger] mounts[i])) || keep_dir && comps(mounts[i]) == comps(p);
            &&& seen is Missing ==> r == RemovalView::Nothing
            &&& seen is Other ==> r == RemovalView::Unlink
            &&& seen is Symlink && !keep_dir ==> r == RemovalView::Unlink
            &&& seen is Symlink && keep_dir ==> r == RemovalView::Nothing
            &&& seen is Dir && free ==> r == RemovalView::Clear { keep_dir }
            &&& seen is Dir && !free ==> r is Refuse
        }),
{
    lemma_no_mount(mount_points(lines(table)), p, !keep_dir);
}

proof fn lemma_no_mount(mounts: Seq<Seq<u8>>, p: Seq<u8>, include_self: bool)
    ensures
        first_mount(mounts, p, include_self) is None <==> forall|i: int|
            0 <= i < mounts.len() ==> !comps(p).is_prefix_of(comps(#[trigger] mounts[i])) || !include_self && comps(mounts[i]) == comps(p),
    decreases mounts.len(),
{
    if mounts.len() > 0 {
        let rest = mounts.skip(1);
        lemma_no_mount(rest, p, include_self);
        if first_mount(mounts, p, include_self) is None {
            assert forall|i: int| 0 <= i < mounts.len() implies !comps(p).is_prefix_of(comps(#[trigger] mounts[i])) || !include_self && comps(
                mounts[i],
            ) == comps(p) by {
                if i > 0 {
                    assert(mounts[i] == rest[i - 1]);
                }
            }
        }
        if forall|i: int|
            0 <= i < mounts.len() ==> !comps(p).is_prefix_of(comps(#[trigger] mounts[i])) || !include_self && comps(mounts[i]) == comps(p) {
            assert(!mounted_in(mounts[0], p, include_self));
            assert forall|i: int| 0 <= i < rest.len() implies !comps(p).is_prefix_of(comps(#[trigger] rest[i])) || !include_self && comps(
                rest[i],
            ) == comps(p) by {
                assert(rest[i] == mounts[i + 1]);
            }
        }
    }
}

/// A path that goes through a link, that cannot be looked at, or that lies on an
/// unreadable mount table is refused.
pub proof fn law_doubtful_removals_are_refused(
    p: Seq<u8>,
    keep_dir: bool,
    home: Seq<u8>,
    seen: Seen,
    parent: Result<Seq<u8>, Seq<char>>,
    table: Result<Seq<char>, Seq<char>>,
)
    ensures
        ({
            let r = removal_of(p, keep_dir, home, seen, parent, table);
            &&& refusal(p, home) is Some ==> r == RemovalView::Refuse(refusal(p, home)->0)
            &&& seen is Failed ==> r is Refuse
            &&& !(seen is Missing) && parent is Err ==> r is Refuse
            &&& !(seen is Missing) && (parent matches Ok(c) && comps(c) != comps(p).drop_last()) ==> r is Refuse
            &&& seen is Dir && table is Err ==> r is Refuse
        }),
{
}

/// The mount point is the fifth field of a line of the mount table.
pub proof fn law_mount_points_are_the_fifth_field(
    list: Seq<Seq<char>>,
    i: int,
    a: Seq<char>,
    b: Seq<char>,
    c: Seq<char>,
    d: Seq<char>,
    m: Seq<char>,
    rest: Seq<char>,
)
    requires
        0 <= i < list.len(),
        !a.contains(' ') && !b.contains(' ') && !c.contains(' ') && !d.contains(' ') && !m.contains(' '),
        list[i] == a + seq![' '] + (b + seq![' '] + (c + seq![' '] + (d + seq![' '] + (m + seq![' '] + rest)))),
    ensures
        mount_points(list).contains(unescaped(encode_utf8(m))),
    decreases list.len(),
{
    let front = list.drop_last();
    let x = unescaped(encode_utf8(m));
    let f = split(list.last(), ' ');
    if i < list.len() - 1 {
        law_mount_points_are_the_fifth_field(front, i, a, b, c, d, m, rest);
        lemma_push_contains(mount_points(front), unescaped(encode_utf8(f[4])), x);
    } else {
        law_parts_are_cut_at_separators(m, ' ', rest);
        law_parts_are_cut_at_separators(d, ' ', m + seq![' '] + rest);
        law_parts_are_cut_at_separators(c, ' ', d + seq![' '] + (m + seq![' '] + rest));
        law_parts_are_cut_at_separators(b, ' ', c + seq![' '] + (d + seq![' '] + (m + seq![' '] + rest)));
        law_parts_are_cut_at_separators(a, ' ', b + seq![' '] + (c + seq![' '] + (d + seq![' '] + (m + seq![' '] + rest))));
        assert(f == seq![a] + (seq![b] + (seq![c] + (seq![d] + (seq![m] + split(rest, ' '))))));
        assert(f[4] == m);
        lemma_push_contains(mount_points(front), x, x);
    }
}

/// In the mount table a backslash and three octal digits stand for one byte;
/// every other byte stands for itself.
pub proof fn law_octal_escapes_stand_for_bytes(v: u8, b: u8, rest: Seq<u8>)
    requires
        b != 92,
    ensures
        unescaped(seq![92u8, (48 + v / 64) as u8, (48 + v / 8 % 8) as u8, (48 + v % 8) as u8] + rest) == seq![v] + unescaped(rest),
        unescaped(seq![b] + rest) == seq![b] + unescaped(rest),
        unescaped(Seq::empty()) == Seq::<u8>::empty(),
{
    let s = seq![92u8, (48 + v / 64) as u8, (48 + v / 8 % 8) as u8, (48 + v % 8) as u8] + rest;
    assert(s.skip(4) =~= rest);
    let o = s.subrange(1, 4);
    assert(o[0] == (48 + v / 64) as u8 && o[1] == (48 + v / 8 % 8) as u8 && o[2] == (48 + v % 8) as u8);
    assert((v / 64) * 64 + (v / 8 % 8) * 8 + v % 8 == v);
    assert((seq![b] + rest).skip(1) =~= rest);
}

/// What was removed is counted, with its bytes; what was not is not.
pub proof fn law_only_what_went_is_counted(list: Seq<Marked>, i: int)
    requires
        0 <= i < list.len(),
    ensures
        list[i].error is None ==> removed_count(list) == removed_count(list.remove(i)) + 1 && removed_bytes(list) == removed_bytes(
            list.remove(i),
        ) + list[i].size,
        list[i].error is Some ==> removed_count(list) == removed_count(list.remove(i)) && removed_bytes(list) == removed_bytes(
            list.remove(i),
        ),
    decreases list.len(),
{
    if i < list.len() - 1 {
        law_only_what_went_is_counted(list.drop_last(), i);
        assert(list.remove(i).drop_last() =~= list.drop_last().remove(i));
        assert(list.remove(i).last() == list.last());
    } else {
        assert(list.remove(i) =~= list.drop_last());
    }
}

/// Each outcome is told with its path, and a failure with its reason.
pub proof fn law_each_mark_is_told(m: Marked, mode: RemoveMode)
    ensures
        m.error matches Some(e) ==> mark_line(m, mode) == "✘ "@ + lossy_text(m.path@) + ": "@ + e@,
        m.error is None && mode is Trash ==> mark_line(m, mode) == "✔ "@ + "trashed"@ + " "@ + lossy_text(m.path@) + " ("@ + size_text(m.size)
            + ")"@,
        m.error is None && mode is Permanent ==> mark_line(m, mode) == "✔ "@ + "deleted"@ + " "@ + lossy_text(m.path@) + " ("@ + size_text(
            m.size,
        ) + ")"@,
{
}

/// Moving to the Trash frees nothing; deleting frees the bytes that went.
pub proof fn law_the_trash_frees_nothing(size: u64)
    ensures
        freed_by(RemoveMode::Trash, size as nat) == 0,
        freed_by(RemoveMode::Permanent, size as nat) == size,
{
}

} // verus!
