//! System locations, discovered at runtime from the tools that own them
//! instead of being assumed. Each falls back to the stock Ubuntu path when the
//! tool is missing or says nothing, so the app works on any Ubuntu 22.04+.

use vstd::prelude::*;
use vstd::utf8::{encode_utf8, is_ascii_chars_encode_utf8};

use crate::path::{absolute, copy_name, join_bytes, names_view, paths_view, same_path, FsPath};
use crate::rules::kernels::lemma_push_contains;
use crate::text::{
    chars_of, law_ascii_white_space, law_trim_takes_the_white_space_off, lemma_starts, lines, lines_of, slice, starts, string_of, strip_prefix, trim, trimmed, views,
};
use crate::util::{find_starting, first_starting};

verus! {

pub struct SysDirs {
    /// apt's cache dir (Dir::Cache), e.g. /var/cache/apt.
    pub apt_cache: FsPath,
    /// Where downloaded .debs go (Dir::Cache::archives).
    pub apt_archives: FsPath,
    /// dpkg's status database (Dir::State::status).
    pub dpkg_status: FsPath,
    /// Where snaps are mounted (SNAPD_MOUNT), /snap on Ubuntu.
    pub snap_mount: FsPath,
    /// snapd's state dir; holds snaps/ and cache/.
    pub snapd_state: FsPath,
    /// Journal storage: persistent and/or volatile.
    pub journals: Vec<FsPath>,
    /// apport's crash report dir.
    pub crash: FsPath,
    /// System-wide Flatpak installations.
    pub flatpak_system: Vec<FsPath>,
    pub boot: FsPath,
    pub modules: FsPath,
    pub usr_src: FsPath,
    pub usr_lib: FsPath,
    pub log: FsPath,
    pub coredump: FsPath,
}

/// `s` without the `c`s at its end.
pub open spec fn strip_end(s: Seq<char>, c: char) -> Seq<char>
    decreases s.len(),
{
    if s.len() > 0 && s.last() == c {
        strip_end(s.drop_last(), c)
    } else {
        s
    }
}

/// `s` without the `c`s at its start.
pub open spec fn strip_start(s: Seq<char>, c: char) -> Seq<char>
    decreases s.len(),
{
    if s.len() > 0 && s[0] == c {
        strip_start(s.skip(1), c)
    } else {
        s
    }
}

pub(crate) fn without_end(v: &Vec<char>, c: char) -> (r: Vec<char>)
    ensures
        r@ == strip_end(v@, c),
{
    let mut to: usize = v.len();
    assert(v@.take(to as int) =~= v@);
    while to > 0 && v[to - 1] == c
        invariant
            to <= v@.len(),
            strip_end(v@, c) == strip_end(v@.take(to as int), c),
        decreases to,
    {
        assert(v@.take(to as int).drop_last() =~= v@.take(to - 1));
        to -= 1;
    }
    let r = slice(v, 0, to);
    assert(r@ =~= v@.take(to as int));
    r
}

pub(crate) fn without_start(v: &Vec<char>, c: char) -> (r: Vec<char>)
    ensures
        r@ == strip_start(v@, c),
{
    let mut from: usize = 0;
    assert(v@.skip(0) =~= v@);
    while from < v.len() && v[from] == c
        invariant
            from <= v@.len(),
            strip_start(v@, c) == strip_start(v@.skip(from as int), c),
        decreases v@.len() - from,
    {
        assert(v@.skip(from as int).skip(1) =~= v@.skip(from + 1));
        from += 1;
    }
    let r = slice(v, from, v.len());
    assert(r@ =~= v@.skip(from as int));
    r
}

/// A value as `apt-config dump` writes it, without its semicolon and quotes.
pub open spec fn apt_unquoted(s: Seq<char>) -> Seq<char> {
    strip_end(strip_start(strip_end(trim(s), ';'), '"'), '"')
}

/// The value of `key` in the lines of a dump.
pub open spec fn apt_value(list: Seq<Seq<char>>, key: Seq<char>) -> Option<Seq<char>> {
    match first_starting(list, key.push(' ')) {
        Some(l) => Some(apt_unquoted(l.skip(key.len() + 1int))),
        None => None,
    }
}

/// A directory: what the dump says of it, or its default, below its parent.
pub open spec fn apt_dir(parent: Seq<u8>, value: Option<Seq<char>>, default: Seq<char>) -> Seq<u8> {
    match value {
        Some(v) if v.len() > 0 => join_bytes(parent, encode_utf8(v)),
        _ => join_bytes(parent, encode_utf8(default)),
    }
}

fn apt_get(list: &Vec<Vec<char>>, key: &str) -> (r: Option<String>)
    ensures
        r is Some <==> apt_value(views(list@), key@) is Some,
        r matches Some(v) ==> apt_value(views(list@), key@) == Some(v@),
{
    let mut k = key.to_owned();
    k.push(' ');
    match find_starting(list, k.as_str()) {
        Some(i) => {
            let ghost l = list@[i as int]@;
            match strip_prefix(&list[i], k.as_str()) {
                Some(rest) => {
                    let a = without_end(&trimmed(&rest), ';');
                    let b = without_end(&without_start(&a, '"'), '"');
                    Some(string_of(&b))
                },
                None => {
                    proof {
                        lemma_first_starting(views(list@), k@);
                    }
                    None
                },
            }
        },
        None => None,
    }
}

proof fn lemma_first_starting(list: Seq<Seq<char>>, prefix: Seq<char>)
    ensures
        first_starting(list, prefix) matches Some(l) ==> starts(l, prefix),
    decreases list.len(),
{
    if list.len() > 0 && !starts(list[0], prefix) {
        lemma_first_starting(list.skip(1), prefix);
    }
}

fn apt_join(parent: &FsPath, value: Option<String>, default: &str) -> (r: FsPath)
    ensures
        r@ == apt_dir(
            parent@,
            match value {
                Some(v) => Some(v@),
                None => None,
            },
            default@,
        ),
{
    match value {
        Some(v) => if v.as_str().is_empty() {
            parent.join_str(default)
        } else {
            parent.join_str(v.as_str())
        },
        None => parent.join_str(default),
    }
}

/// apt's directories: the cache, the archives in it, and dpkg's status file.
pub open spec fn apt_dirs(dump: Seq<char>) -> (Seq<u8>, Seq<u8>, Seq<u8>) {
    let l = lines(dump);
    let root = apt_dir(encode_utf8("/"@), apt_value(l, "Dir"@), "/"@);
    let cache = apt_dir(root, apt_value(l, "Dir::Cache"@), "var/cache/apt/"@);
    let archives = apt_dir(cache, apt_value(l, "Dir::Cache::archives"@), "archives/"@);
    let state = apt_dir(root, apt_value(l, "Dir::State"@), "var/lib/apt/"@);
    let status = apt_dir(state, apt_value(l, "Dir::State::status"@), "/var/lib/dpkg/status"@);
    (cache, archives, status)
}

/// Resolve apt's directory tree from `apt-config dump` output. apt joins
/// relative values onto their parent (Dir → Dir::Cache → Dir::Cache::archives).
pub fn parse_apt_config(dump: &str) -> (r: (FsPath, FsPath, FsPath))
    ensures
        (r.0@, r.1@, r.2@) == apt_dirs(dump@),
{
    let l = lines_of(&chars_of(dump));
    let root = apt_join(&FsPath::new("/"), apt_get(&l, "Dir"), "/");
    let cache = apt_join(&root, apt_get(&l, "Dir::Cache"), "var/cache/apt/");
    let archives = apt_join(&cache, apt_get(&l, "Dir::Cache::archives"), "archives/");
    let state = apt_join(&root, apt_get(&l, "Dir::State"), "var/lib/apt/");
    let status = apt_join(&state, apt_get(&l, "Dir::State::status"), "/var/lib/dpkg/status");
    (cache, archives, status)
}

/// The mount directory that `snap debug paths` names, if it is absolute.
pub open spec fn snap_mount_in(out: Seq<char>) -> Option<Seq<u8>> {
    match first_starting(lines(out), "SNAPD_MOUNT="@) {
        Some(l) => {
            let p = encode_utf8(trim(l.skip("SNAPD_MOUNT="@.len() as int)));
            if absolute(p) {
                Some(p)
            } else {
                None
            }
        },
        None => None,
    }
}

/// `snap debug paths` prints lines like SNAPD_MOUNT=/snap.
pub fn parse_snap_paths(out: &str) -> (r: Option<FsPath>)
    ensures
        r is Some <==> snap_mount_in(out@) is Some,
        r matches Some(p) ==> snap_mount_in(out@) == Some(p@),
{
    let l = lines_of(&chars_of(out));
    match find_starting(&l, "SNAPD_MOUNT=") {
        Some(i) => match strip_prefix(&l[i], "SNAPD_MOUNT=") {
            Some(rest) => {
                let p = FsPath::new(string_of(&trimmed(&rest)).as_str());
                if p.is_absolute() {
                    Some(p)
                } else {
                    None
                }
            },
            None => {
                proof {
                    lemma_first_starting(views(l@), "SNAPD_MOUNT="@);
                }
                None
            },
        },
        None => None,
    }
}

/// The lines that begin with a slash, as paths.
pub open spec fn absolute_lines(list: Seq<Seq<char>>) -> Seq<Seq<u8>>
    decreases list.len(),
{
    if list.len() == 0 {
        Seq::empty()
    } else {
        let t = trim(list.last());
        let rest = absolute_lines(list.drop_last());
        if t.len() > 0 && t[0] == '/' {
            rest.push(encode_utf8(t))
        } else {
            rest
        }
    }
}

/// `flatpak --installations` prints one path per line.
pub fn parse_flatpak_installations(out: &str) -> (r: Vec<FsPath>)
    ensures
        paths_view(r@) == absolute_lines(lines(out@)),
{
    let l = lines_of(&chars_of(out));
    let mut found: Vec<FsPath> = Vec::new();
    assert(paths_view(found@) =~= Seq::empty());
    for i in 0..l.len()
        invariant
            paths_view(found@) == absolute_lines(views(l@).take(i as int)),
    {
        let t = trimmed(&l[i]);
        proof {
            assert(views(l@).take(i + 1).drop_last() =~= views(l@).take(i as int));
            assert(views(l@).take(i + 1).last() == l@[i as int]@);
        }
        let ghost before = found@;
        if t.len() > 0 && t[0] == '/' {
            let p = FsPath::new(string_of(&t).as_str());
            found.push(p);
            assert(paths_view(found@) =~= paths_view(before).push(p@));
        }
    }
    assert(views(l@).take(l@.len() as int) =~= views(l@));
    found
}

/// A path, and whether it is what it was looked up as (a file, a directory).
pub struct Probed {
    pub path: FsPath,
    pub found: bool,
}

/// What the tools and the file system say about the system's directories.
pub struct Surroundings {
    /// Output of `apt-config dump`.
    pub apt_config: Option<String>,
    /// Output of `snap debug paths`.
    pub snap_paths: Option<String>,
    /// `/var/log/journal` and `/run/log/journal`: is it a directory?
    pub persistent_journal: bool,
    pub volatile_journal: bool,
    /// `APPORT_REPORT_DIR`.
    pub apport_dir: Option<FsPath>,
    /// Output of `flatpak --installations`.
    pub flatpak: Option<String>,
    /// Is `/var/lib/flatpak` a directory?
    pub flatpak_default: bool,
    /// `/lib/modules` with its symlinks resolved.
    pub modules: Option<FsPath>,
}

/// The view of an optional string.
pub open spec fn opt_view(o: Option<String>) -> Option<Seq<char>> {
    match o {
        Some(s) => Some(s@),
        None => None,
    }
}

/// The Flatpak installations: those listed, else the default one if it exists.
pub open spec fn flatpak_dirs(listed: Option<Seq<char>>, default: bool) -> Seq<Seq<u8>> {
    let l = match listed {
        Some(o) => absolute_lines(lines(o)),
        None => Seq::empty(),
    };
    if l.len() == 0 && default {
        seq![encode_utf8("/var/lib/flatpak"@)]
    } else {
        l
    }
}

impl SysDirs {
    /// Where everything is, given what the tools said.
    pub fn discover(s: &Surroundings) -> (r: SysDirs)
        ensures
            ({
                let (cache, archives, status) = apt_dirs(match s.apt_config {
                    Some(d) => d@,
                    None => Seq::empty(),
                });
                &&& r.apt_cache@ == cache
                &&& r.apt_archives@ == archives
                &&& r.dpkg_status@ == status
            }),
            r.snap_mount@ == (match s.snap_paths {
                Some(o) => match snap_mount_in(o@) {
                    Some(p) => p,
                    None => encode_utf8("/snap"@),
                },
                None => encode_utf8("/snap"@),
            }),
            r.snapd_state@ == encode_utf8("/var/lib/snapd"@),
            paths_view(r.journals@) == (if s.persistent_journal {
                seq![encode_utf8("/var/log/journal"@)]
            } else {
                Seq::empty()
            }) + (if s.volatile_journal {
                seq![encode_utf8("/run/log/journal"@)]
            } else {
                Seq::empty()
            }),
            r.crash@ == (match s.apport_dir {
                Some(p) if absolute(p@) => p@,
                _ => encode_utf8("/var/crash"@),
            }),
            paths_view(r.flatpak_system@) == flatpak_dirs(opt_view(s.flatpak), s.flatpak_default),
            r.boot@ == encode_utf8("/boot"@),
            r.modules@ == (match s.modules {
                Some(p) => p@,
                None => encode_utf8("/lib/modules"@),
            }),
            r.usr_src@ == encode_utf8("/usr/src"@),
            r.usr_lib@ == encode_utf8("/usr/lib"@),
            r.log@ == encode_utf8("/var/log"@),
            r.coredump@ == encode_utf8("/var/lib/systemd/coredump"@),
    {
        let (apt_cache, apt_archives, dpkg_status) = match &s.apt_config {
            Some(d) => parse_apt_config(d.as_str()),
            None => parse_apt_config(String::new().as_str()),
        };
        let snap_mount = match &s.snap_paths {
            Some(o) => match parse_snap_paths(o.as_str()) {
                Some(p) => p,
                None => FsPath::new("/snap"),
            },
            None => FsPath::new("/snap"),
        };
        let mut journals: Vec<FsPath> = Vec::new();
        if s.persistent_journal {
            journals.push(FsPath::new("/var/log/journal"));
        }
        if s.volatile_journal {
            journals.push(FsPath::new("/run/log/journal"));
        }
        assert(paths_view(journals@) =~= (if s.persistent_journal {
            seq![encode_utf8("/var/log/journal"@)]
        } else {
            Seq::empty()
        }) + (if s.volatile_journal {
            seq![encode_utf8("/run/log/journal"@)]
        } else {
            Seq::empty()
        }));
        let crash = match &s.apport_dir {
            Some(p) => if p.is_absolute() {
                p.clone()
            } else {
                FsPath::new("/var/crash")
            },
            None => FsPath::new("/var/crash"),
        };
        let mut flatpak_system: Vec<FsPath> = match &s.flatpak {
            Some(o) => parse_flatpak_installations(o.as_str()),
            None => Vec::new(),
        };
        assert(paths_view(flatpak_system@).len() == flatpak_system@.len());
        if flatpak_system.len() == 0 && s.flatpak_default {
            flatpak_system.push(FsPath::new("/var/lib/flatpak"));
        }
        assert(paths_view(flatpak_system@) =~= flatpak_dirs(opt_view(s.flatpak), s.flatpak_default));
        let modules = match &s.modules {
            Some(p) => p.clone(),
            None => FsPath::new("/lib/modules"),
        };
        SysDirs {
            apt_cache,
            apt_archives,
            dpkg_status,
            snap_mount,
            snapd_state: FsPath::new("/var/lib/snapd"),
            journals,
            crash,
            flatpak_system,
            boot: FsPath::new("/boot"),
            modules,
            usr_src: FsPath::new("/usr/src"),
            usr_lib: FsPath::new("/usr/lib"),
            log: FsPath::new("/var/log"),
            coredump: FsPath::new("/var/lib/systemd/coredump"),
        }
    }
}

/// The existing ones of a list of probed files, in order, without one that is
/// the same as the one kept before it.
pub open spec fn found_once(list: Seq<Probed>) -> Seq<Seq<u8>>
    decreases list.len(),
{
    if list.len() == 0 {
        Seq::empty()
    } else {
        let rest = found_once(list.drop_last());
        let p = list.last();
        if !p.found || (rest.len() > 0 && same_path(rest.last(), p.path@)) {
            rest
        } else {
            rest.push(p.path@)
        }
    }
}

fn add_found(out: &mut Vec<FsPath>, p: &Probed)
    ensures
        paths_view(final(out)@) == (if !p.found || (old(out)@.len() > 0 && same_path(old(out)@.last()@, p.path@)) {
            paths_view(old(out)@)
        } else {
            paths_view(old(out)@).push(p.path@)
        }),
{
    let ghost before = out@;
    if p.found && (out.len() == 0 || !out[out.len() - 1].same(&p.path)) {
        out.push(p.path.clone());
        assert(paths_view(out@) =~= paths_view(before).push(p.path@));
    }
}

/// Fonts to try: the files fontconfig resolved, then the given fallbacks, as
/// far as they exist.
pub fn find_font(resolved: &Vec<Probed>, fallbacks: &Vec<Probed>) -> (r: Vec<FsPath>)
    ensures
        paths_view(r@) == found_once(resolved@ + fallbacks@),
{
    let ghost all = resolved@ + fallbacks@;
    let mut out: Vec<FsPath> = Vec::new();
    assert(paths_view(out@) =~= found_once(all.take(0)));
    for i in 0..resolved.len()
        invariant
            all == resolved@ + fallbacks@,
            paths_view(out@) == found_once(all.take(i as int)),
    {
        proof {
            assert(all.take(i + 1).drop_last() =~= all.take(i as int));
            assert(all.take(i + 1).last() == resolved@[i as int]);
            if out@.len() > 0 {
                assert(paths_view(out@).last() == out@.last()@);
            }
            assert(paths_view(out@).len() == out@.len());
        }
        add_found(&mut out, &resolved[i]);
    }
    for i in 0..fallbacks.len()
        invariant
            all == resolved@ + fallbacks@,
            paths_view(out@) == found_once(all.take(resolved@.len() + i)),
    {
        proof {
            let k = resolved@.len() + i;
            assert(all.take(k + 1).drop_last() =~= all.take(k));
            assert(all.take(k + 1).last() == fallbacks@[i as int]);
            if out@.len() > 0 {
                assert(paths_view(out@).last() == out@.last()@);
            }
            assert(paths_view(out@).len() == out@.len());
        }
        add_found(&mut out, &fallbacks[i]);
    }
    assert(all.take((resolved@.len() + fallbacks@.len()) as int) =~= all);
    out
}

/// The pieces of a byte string between separators.
pub open spec fn split_bytes(b: Seq<u8>, sep: u8) -> Seq<Seq<u8>>
    decreases b.len(),
{
    if b.len() == 0 {
        seq![Seq::empty()]
    } else {
        let before = split_bytes(b.drop_last(), sep);
        if b.last() == sep {
            before.push(Seq::empty())
        } else {
            before.drop_last().push(before.last().push(b.last()))
        }
    }
}

/// Where a program may stand, by the value of `PATH`: its directories are
/// separated by colons.
pub fn program_places(path: &Vec<u8>, bin: &str) -> (r: Vec<FsPath>)
    ensures
        paths_view(r@) == Seq::new(
            split_bytes(path@, 58).len(),
            |i: int| join_bytes(split_bytes(path@, 58)[i], encode_utf8(bin@)),
        ),
{
    let mut dirs: Vec<Vec<u8>> = Vec::new();
    let mut cur: Vec<u8> = Vec::new();
    assert(names_view(dirs@).push(cur@) =~= split_bytes(path@.take(0), 58));
    for i in 0..path.len()
        invariant
            names_view(dirs@).push(cur@) == split_bytes(path@.take(i as int), 58),
    {
        let ghost before = names_view(dirs@).push(cur@);
        let ghost old_dirs = dirs@;
        let ghost piece = cur@;
        proof {
            assert(path@.take(i + 1).drop_last() =~= path@.take(i as int));
            assert(before.drop_last() =~= names_view(dirs@));
        }
        if path[i] == 58 {
            let mut next: Vec<u8> = Vec::new();
            std::mem::swap(&mut next, &mut cur);
            dirs.push(next);
            assert(names_view(dirs@) =~= names_view(old_dirs).push(piece));
            assert(cur@ =~= Seq::empty());
        } else {
            cur.push(path[i]);
        }
        assert(names_view(dirs@).push(cur@) =~= split_bytes(path@.take(i + 1), 58));
    }
    assert(path@.take(path@.len() as int) =~= path@);
    let ghost old_dirs = dirs@;
    let ghost piece = cur@;
    dirs.push(cur);
    assert(names_view(dirs@) =~= names_view(old_dirs).push(piece));
    let ghost pieces = split_bytes(path@, 58);
    let ghost want = Seq::new(pieces.len(), |i: int| join_bytes(pieces[i], encode_utf8(bin@)));
    let mut out: Vec<FsPath> = Vec::new();
    assert(paths_view(out@) =~= want.take(0));
    for i in 0..dirs.len()
        invariant
            names_view(dirs@) == pieces,
            want == Seq::new(pieces.len(), |i: int| join_bytes(pieces[i], encode_utf8(bin@))),
            paths_view(out@) == want.take(i as int),
    {
        let ghost before = out@;
        assert(pieces[i as int] == dirs@[i as int]@);
        let p = FsPath::from_bytes(copy_name(&dirs[i])).join_str(bin);
        out.push(p);
        assert(paths_view(out@) =~= paths_view(before).push(p@));
        assert(paths_view(out@) =~= want.take(i + 1));
    }
    assert(want.take(dirs@.len() as int) =~= want);
    out
}

/// The first of the places that holds a file.
pub open spec fn first_found(list: Seq<Probed>) -> Option<Seq<u8>>
    decreases list.len(),
{
    if list.len() == 0 {
        None
    } else if list[0].found {
        Some(list[0].path@)
    } else {
        first_found(list.skip(1))
    }
}

/// A program on PATH: the first of its places that holds a file.
pub fn which(places: &Vec<Probed>) -> (r: Option<FsPath>)
    ensures
        match r {
            Some(p) => first_found(places@) == Some(p@),
            None => first_found(places@) is None,
        },
{
    assert(places@.skip(0) =~= places@);
    for i in 0..places.len()
        invariant
            first_found(places@) == first_found(places@.skip(i as int)),
    {
        if places[i].found {
            return Some(places[i].path.clone());
        }
        assert(places@.skip(i as int).skip(1) =~= places@.skip(i + 1));
    }
    assert(places@.skip(places@.len() as int) =~= Seq::empty());
    None
}

/// Where apt keeps its files if it says nothing of its own, and that each part of
/// its configuration is followed.
pub proof fn law_apt_says_where_its_files_are(dump: Seq<char>, v: Seq<char>)
    requires
        v.len() > 0,
    ensures
        ({
            let l = lines(dump);
            let root = apt_dir(encode_utf8("/"@), apt_value(l, "Dir"@), "/"@);
            let state = apt_dir(root, apt_value(l, "Dir::State"@), "var/lib/apt/"@);
            let (cache, archives, status) = apt_dirs(dump);
            &&& apt_value(l, "Dir"@) is None ==> root == encode_utf8("/"@)
            &&& apt_value(l, "Dir::Cache"@) is None ==> cache == join_bytes(root, encode_utf8("var/cache/apt/"@))
            &&& apt_value(l, "Dir::Cache"@) == Some(v) ==> cache == join_bytes(root, encode_utf8(v))
            &&& apt_value(l, "Dir::Cache::archives"@) is None ==> archives == join_bytes(cache, encode_utf8("archives/"@))
            &&& apt_value(l, "Dir::Cache::archives"@) == Some(v) ==> archives == join_bytes(cache, encode_utf8(v))
            &&& apt_value(l, "Dir::State::status"@) is None ==> status == encode_utf8("/var/lib/dpkg/status"@)
            &&& apt_value(l, "Dir::State::status"@) == Some(v) ==> status == join_bytes(state, encode_utf8(v))
        }),
{
    lemma_absolute_text("/"@);
    lemma_absolute_text("/var/lib/dpkg/status"@);
}

proof fn lemma_absolute_text(t: Seq<char>)
    requires
        t == "/"@ || t == "/var/lib/dpkg/status"@,
    ensures
        absolute(encode_utf8(t)),
{
    reveal_strlit("/");
    reveal_strlit("/var/lib/dpkg/status");
    is_ascii_chars_encode_utf8(t);
}

proof fn lemma_first_line(list: Seq<Seq<char>>, prefix: Seq<char>, i: int)
    requires
        0 <= i < list.len(),
        starts(list[i], prefix),
        forall|j: int| 0 <= j < i ==> !starts(#[trigger] list[j], prefix),
    ensures
        first_starting(list, prefix) == Some(list[i]),
    decreases list.len(),
{
    if i > 0 {
        assert(!starts(list[0], prefix));
        let rest = list.skip(1);
        assert(rest[i - 1] == list[i]);
        assert forall|j: int| 0 <= j < i - 1 implies !starts(#[trigger] rest[j], prefix) by {
            assert(rest[j] == list[j + 1]);
        }
        lemma_first_line(rest, prefix, i - 1);
    }
}

/// The value of apt's setting is what stands in the first line that begins with
/// its name, without the quotes and the semicolon.
pub proof fn law_apt_values_are_unquoted(list: Seq<Seq<char>>, i: int, key: Seq<char>, v: Seq<char>)
    requires
        0 <= i < list.len(),
        list[i] == key + seq![' ', '"'] + v + seq!['"', ';'],
        forall|j: int| 0 <= j < i ==> !starts(#[trigger] list[j], key.push(' ')),
        v.len() > 0,
        v[0] != '"',
        v.last() != '"',
    ensures
        apt_value(list, key) == Some(v),
{
    let l = list[i];
    let k = key.push(' ');
    let rest = seq!['"'] + v + seq!['"', ';'];
    assert(l =~= k + rest);
    lemma_starts(k, rest);
    lemma_first_line(list, k, i);
    assert(l.skip(key.len() + 1int) =~= rest);
    law_ascii_white_space('"');
    law_ascii_white_space(';');
    law_trim_takes_the_white_space_off(Seq::empty(), rest, Seq::empty());
    assert(Seq::<char>::empty() + rest + Seq::<char>::empty() =~= rest);
    let a = seq!['"'] + v + seq!['"'];
    assert(rest.drop_last() =~= a);
    assert(a.last() == '"');
    assert(strip_end(rest, ';') == strip_end(a, ';'));
    assert(strip_end(a, ';') == a);
    assert(a.skip(1) =~= v + seq!['"']);
    assert(strip_start(a, '"') == strip_start(v + seq!['"'], '"'));
    assert((v + seq!['"'])[0] == v[0]);
    assert(strip_start(v + seq!['"'], '"') == v + seq!['"']);
    assert((v + seq!['"']).drop_last() =~= v);
    assert(strip_end(v + seq!['"'], '"') == strip_end(v, '"'));
    assert(strip_end(v, '"') == v);
}

/// The mount point of the snaps is what stands behind `SNAPD_MOUNT=`, if it is an
/// absolute path.
pub proof fn law_snaps_are_mounted_where_snapd_says(out: Seq<char>, i: int, v: Seq<char>)
    requires
        0 <= i < lines(out).len(),
        lines(out)[i] == "SNAPD_MOUNT="@ + v,
        forall|j: int| 0 <= j < i ==> !starts(#[trigger] lines(out)[j], "SNAPD_MOUNT="@),
    ensures
        absolute(encode_utf8(trim(v))) ==> snap_mount_in(out) == Some(encode_utf8(trim(v))),
        !absolute(encode_utf8(trim(v))) ==> snap_mount_in(out) is None,
{
    lemma_starts("SNAPD_MOUNT="@, v);
    lemma_first_line(lines(out), "SNAPD_MOUNT="@, i);
}

/// Every line with an absolute path is an installation.
pub proof fn law_installations_are_the_absolute_lines(list: Seq<Seq<char>>, i: int)
    requires
        0 <= i < list.len(),
    ensures
        trim(list[i]).len() > 0 && trim(list[i])[0] == '/' ==> absolute_lines(list).contains(encode_utf8(trim(list[i]))),
        absolute_lines(list).len() <= list.len(),
    decreases list.len(),
{
    let rest = absolute_lines(list.drop_last());
    lemma_push_contains(rest, encode_utf8(trim(list.last())), encode_utf8(trim(list[i])));
    lemma_lines_few(list);
    if i < list.len() - 1 {
        law_installations_are_the_absolute_lines(list.drop_last(), i);
    }
}

proof fn lemma_lines_few(list: Seq<Seq<char>>)
    ensures
        absolute_lines(list).len() <= list.len(),
    decreases list.len(),
{
    if list.len() > 0 {
        lemma_lines_few(list.drop_last());
    }
}

/// Without a listed installation, the usual one counts if it is there.
pub proof fn law_the_usual_installation_stands_in(out: Seq<char>)
    ensures
        absolute_lines(lines(out)).len() > 0 ==> flatpak_dirs(Some(out), true) == absolute_lines(lines(out)),
        absolute_lines(lines(out)).len() == 0 ==> flatpak_dirs(Some(out), true) == seq![encode_utf8("/var/lib/flatpak"@)],
        flatpak_dirs(None, true) == seq![encode_utf8("/var/lib/flatpak"@)],
        flatpak_dirs(None, false) == Seq::<Seq<u8>>::empty(),
        flatpak_dirs(Some(out), false) == absolute_lines(lines(out)),
{
}

/// A program is the first place of the search path that has it.
pub proof fn law_the_first_place_has_the_program(list: Seq<Probed>, i: int)
    requires
        0 <= i < list.len(),
        forall|j: int| 0 <= j < i ==> !(#[trigger] list[j]).found,
    ensures
        list[i].found ==> first_found(list) == Some(list[i].path@),
        (forall|j: int| 0 <= j < list.len() ==> !(#[trigger] list[j]).found) ==> first_found(list) is None,
    decreases list.len(),
{
    let rest = list.skip(1);
    if i > 0 {
        assert(!list[0].found);
        assert(rest[i - 1] == list[i]);
        assert forall|j: int| 0 <= j < i - 1 implies !(#[trigger] rest[j]).found by {
            assert(rest[j] == list[j + 1]);
        }
        if forall|j: int| 0 <= j < list.len() ==> !(#[trigger] list[j]).found {
            assert forall|j: int| 0 <= j < rest.len() implies !(#[trigger] rest[j]).found by {
                assert(rest[j] == list[j + 1]);
            }
        }
        law_the_first_place_has_the_program(rest, i - 1);
    } else if forall|j: int| 0 <= j < list.len() ==> !(#[trigger] list[j]).found {
        lemma_none_found(list);
    }
}

proof fn lemma_none_found(list: Seq<Probed>)
    requires
        forall|j: int| 0 <= j < list.len() ==> !(#[trigger] list[j]).found,
    ensures
        first_found(list) is None,
    decreases list.len(),
{
    if list.len() > 0 {
        assert(!list[0].found);
        let rest = list.skip(1);
        assert forall|j: int| 0 <= j < rest.len() implies !(#[trigger] rest[j]).found by {
            assert(rest[j] == list[j + 1]);
        }
        lemma_none_found(rest);
    }
}

/// The search path is cut at its separators, and at them alone.
pub proof fn law_search_paths_are_cut_at_separators(a: Seq<u8>, b: Seq<u8>, sep: u8)
    requires
        !b.contains(sep),
    ensures
        split_bytes(a + seq![sep] + b, sep) == split_bytes(a, sep).push(b),
        split_bytes(b, sep) == seq![b],
        split_bytes(a, sep).len() > 0,
    decreases b.len(),
{
    lemma_some_piece(a, sep);
    if b.len() == 0 {
        assert((a + seq![sep] + b).drop_last() =~= a);
        assert(b =~= Seq::empty());
    } else {
        let t = b.drop_last();
        assert(b.last() == b[b.len() - 1]);
        assert(b.contains(b[b.len() - 1]));
        assert(!t.contains(sep)) by {
            if t.contains(sep) {
                let k = choose|k: int| 0 <= k < t.len() && t[k] == sep;
                assert(b[k] == sep);
            }
        }
        law_search_paths_are_cut_at_separators(a, t, sep);
        let s = a + seq![sep] + b;
        assert(s.drop_last() =~= a + seq![sep] + t);
        assert(s.last() == b.last());
        assert(t.push(b.last()) =~= b);
        assert(split_bytes(a, sep).push(t).drop_last() =~= split_bytes(a, sep));
        assert(seq![t].drop_last() =~= Seq::empty());
        assert(Seq::<Seq<u8>>::empty().push(b) =~= seq![b]);
    }
}

proof fn lemma_some_piece(b: Seq<u8>, sep: u8)
    ensures
        split_bytes(b, sep).len() > 0,
    decreases b.len(),
{
    if b.len() > 0 {
        lemma_some_piece(b.drop_last(), sep);
    }
}

/// Where the system keeps things where nothing says otherwise, and what each tool
/// can say.
pub proof fn law_system_places(s: Surroundings, r: SysDirs)
    requires
        call_ensures(SysDirs::discover, (&s,), r),
    ensures
        s.snap_paths is None ==> r.snap_mount@ == encode_utf8("/snap"@),
        s.snap_paths matches Some(o) ==> (snap_mount_in(o@) matches Some(p) ==> r.snap_mount@ == p),
        r.snapd_state@ == encode_utf8("/var/lib/snapd"@),
        s.persistent_journal && s.volatile_journal ==> paths_view(r.journals@) == seq![
            encode_utf8("/var/log/journal"@),
            encode_utf8("/run/log/journal"@),
        ],
        s.persistent_journal && !s.volatile_journal ==> paths_view(r.journals@) == seq![encode_utf8("/var/log/journal"@)],
        !s.persistent_journal && s.volatile_journal ==> paths_view(r.journals@) == seq![encode_utf8("/run/log/journal"@)],
        s.apport_dir is None ==> r.crash@ == encode_utf8("/var/crash"@),
        s.apport_dir matches Some(p) ==> (absolute(p@) ==> r.crash@ == p@),
        r.boot@ == encode_utf8("/boot"@),
        s.modules is None ==> r.modules@ == encode_utf8("/lib/modules"@),
        s.modules matches Some(p) ==> r.modules@ == p@,
        r.usr_src@ == encode_utf8("/usr/src"@),
        r.usr_lib@ == encode_utf8("/usr/lib"@),
        r.log@ == encode_utf8("/var/log"@),
        r.coredump@ == encode_utf8("/var/lib/systemd/coredump"@),
        paths_view(r.flatpak_system@) == flatpak_dirs(opt_view(s.flatpak), s.flatpak_default),
        s.apt_config matches Some(d) ==> (r.apt_cache@, r.apt_archives@, r.dpkg_status@) == apt_dirs(d@),
{
    assert(seq![encode_utf8("/var/log/journal"@)] + seq![encode_utf8("/run/log/journal"@)] =~= seq![
        encode_utf8("/var/log/journal"@),
        encode_utf8("/run/log/journal"@),
    ]);
    assert(seq![encode_utf8("/var/log/journal"@)] + Seq::<Seq<u8>>::empty() =~= seq![encode_utf8("/var/log/journal"@)]);
    assert(Seq::<Seq<u8>>::empty() + seq![encode_utf8("/run/log/journal"@)] =~= seq![encode_utf8("/run/log/journal"@)]);
}

/// A program is looked for in each folder of the search path, which colons part.
pub proof fn law_programs_are_looked_for_in_every_folder(path: Vec<u8>, bin: &str, r: Vec<FsPath>, i: int)
    requires
        call_ensures(program_places, (&path, bin), r),
        0 <= i < split_bytes(path@, 58).len(),
    ensures
        r@.len() == split_bytes(path@, 58).len(),
        r@[i]@ == join_bytes(split_bytes(path@, 58)[i], encode_utf8(bin@)),
{
    assert(paths_view(r@).len() == r@.len());
    assert(paths_view(r@)[i] == r@[i]@);
}

} // verus!
