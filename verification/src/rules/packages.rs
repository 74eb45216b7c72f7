//! APT's package archives, orphaned packages, snapd's download cache and unused
//! Flatpak runtimes.

use vstd::prelude::*;
use vstd::utf8::{encode_utf8, valid_utf8};

use crate::names::{
    by_name, law_set_holds_the_list, law_sorted_names_are_the_same_names, lemma_by_name_among, lemma_set_of, set_of, sort_dedup, sort_names};
use crate::path::{join_bytes, lossy_text, paths_view, utf8_exact, utf8_lossy, FsPath};
use crate::rules::dpkg::{
    apt_sim_removals, find_field, last_field, sim_changes, sim_name, sim_package, stanza_list, stanza_name, stanzas, status_ends,
};
use crate::rules::kernels::{
    found_bytes, found_paths, leave_out, lemma_found_among, lemma_not_among, lemma_push_contains, not_among, quote_texts,
    text_words,
};
use crate::rules::logs::{paths_of, sorted_paths, LogEntry};
use crate::rules::measure::{
    by_path, keep_found, law_measured_bytes_add_up, law_sorted_paths_are_the_same_paths, manual, manual_view, measured_bytes, measured_paths, measured_views, sum_measured,
    Measured,
};
use crate::rules::{
    all_utf8, finding_views, knows_text, path_words, sudo_rm_files, Action, ActionView, CheckOutput, Finding, FindingView, Risk,
};
use crate::text::{
    chars_of, decimal, digits, ends, ends_with, is_digit, join, joined, law_ascii_white_space, law_digits_read_back,
    law_joined_texts_follow_each_other, law_parts_are_cut_at_separators, law_pieces_are_cut_at_texts,
    law_trim_takes_the_white_space_off, lemma_digits, lemma_ends, lemma_starts, lines, lines_of, number, parse_u64, split, split_by, split_on, split_on_str, stands_at, starts,
    starts_with, string_of, strip_prefix, texts, trim, trimmed, views,
};
use crate::util::{fmt_size, opt_text, quoted, size_text};

verus! {

/// The regular files of a listing whose (lossy) name ends in `suffix`.
pub open spec fn files_ending(dir: Seq<u8>, list: Seq<LogEntry>, suffix: Seq<char>) -> Seq<(Seq<u8>, u64)>
    decreases list.len(),
{
    if list.len() == 0 {
        Seq::empty()
    } else {
        let rest = files_ending(dir, list.drop_last(), suffix);
        let e = list.last();
        if e.is_file && ends(lossy_text(e.name@), suffix) {
            rest.push((join_bytes(dir, e.name@), e.bytes))
        } else {
            rest
        }
    }
}

/// How many regular files of a listing have a (lossy) name that ends in
/// `suffix`, and the extension `deb`.
pub open spec fn debs_ending(list: Seq<LogEntry>, suffix: Seq<char>) -> nat
    decreases list.len(),
{
    if list.len() == 0 {
        0
    } else {
        let e = list.last();
        debs_ending(list.drop_last(), suffix) + if e.is_file && ends(lossy_text(e.name@), suffix) && deb_name(e.name@) {
            1nat
        } else {
            0
        }
    }
}

/// A file name with the extension `deb`: `.deb` behind something.
pub open spec fn deb_name(n: Seq<u8>) -> bool {
    let k = n.len();
    k > 4 && n[k - 4] == 46 && n[k - 3] == 100 && n[k - 2] == 101 && n[k - 1] == 98
}

fn is_deb(n: &Vec<u8>) -> (r: bool)
    ensures
        r == deb_name(n@),
{
    let k: usize = n.len();
    k > 4 && n[k - 4] == 46u8 && n[k - 3] == 100u8 && n[k - 2] == 101u8 && n[k - 1] == 98u8
}

proof fn lemma_files_grow(dir: Seq<u8>, list: Seq<LogEntry>, suffix: Seq<char>)
    ensures
        debs_ending(list, suffix) <= files_ending(dir, list, suffix).len() <= list.len(),
    decreases list.len(),
{
    if list.len() > 0 {
        lemma_files_grow(dir, list.drop_last(), suffix);
    }
}

/// Add the regular files of a listing to `files`; counts those with the
/// extension `deb`.
fn list_files(files: &mut Vec<Measured>, dir: &FsPath, list: &Vec<LogEntry>, suffix: &str) -> (debs: usize)
    ensures
        measured_views(final(files)@) == measured_views(old(files)@) + files_ending(dir@, list@, suffix@),
        debs == debs_ending(list@, suffix@),
{
    let ghost start = measured_views(files@);
    let n: usize = list.len();
    let mut debs: usize = 0;
    assert(start + Seq::<(Seq<u8>, u64)>::empty() =~= start);
    assert(list@.take(0) =~= Seq::empty());
    for i in 0..n
        invariant
            n == list@.len(),
            debs <= i,
            debs == debs_ending(list@.take(i as int), suffix@),
            measured_views(files@) == start + files_ending(dir@, list@.take(i as int), suffix@),
    {
        let e = &list[i];
        assert(list@.take(i + 1).drop_last() =~= list@.take(i as int));
        if e.is_file && ends_with(&chars_of(utf8_lossy(&e.name).as_str()), suffix) {
            let ghost before = files@;
            let m = Measured { path: dir.join_name(&e.name), bytes: e.bytes };
            files.push(m);
            assert(measured_views(files@) =~= measured_views(before).push((m.path@, m.bytes)));
            assert(measured_views(files@) =~= start + files_ending(dir@, list@.take(i + 1), suffix@));
            if is_deb(&e.name) {
                debs += 1;
            }
        }
    }
    assert(list@.take(n as int) =~= list@);
    debs
}

/// What lies in APT's cache: the listings of its archives, of the partial
/// downloads below them, and of the cache directory itself.
pub struct AptListings {
    pub archives: Vec<LogEntry>,
    pub partial: Vec<LogEntry>,
    pub cache: Vec<LogEntry>,
}

/// The archives: packages, and partial downloads.
pub open spec fn apt_debs(archives: Seq<u8>, l: AptListings) -> Seq<(Seq<u8>, u64)> {
    files_ending(archives, l.archives@, ".deb"@) + files_ending(
        join_bytes(archives, encode_utf8("partial"@)),
        l.partial@,
        ""@,
    )
}

/// The package-list caches.
pub open spec fn apt_bins(apt: Seq<u8>, l: AptListings) -> Seq<(Seq<u8>, u64)> {
    files_ending(apt, l.cache@, ".bin"@)
}

pub open spec fn apt_finding(apt: Seq<u8>, archives: Seq<u8>, l: AptListings) -> FindingView {
    let (debs, bins) = (apt_debs(archives, l), apt_bins(apt, l));
    let count = debs_ending(l.archives@, ".deb"@) + debs_ending(l.partial@, ""@);
    FindingView {
        id: "apt-cache"@,
        category: "APT"@,
        title: "APT cache ("@ + digits(count) + " .deb archives, "@ + size_text(measured_bytes(debs) as u64) + ")"@,
        risk: Risk::Safe,
        bytes: measured_bytes(debs) as u64,
        detail: "Downloaded .deb packages are kept in /var/cache/apt/archives after installation. They are only needed to reinstall offline; apt downloads them again on demand."@
            + if measured_bytes(bins) > 0 {
            " apt-get clean also deletes the package-list caches (pkgcache.bin, srcpkgcache.bin), but apt rebuilds them on its next run, so they are not counted as savings."@
        } else {
            Seq::empty()
        },
        paths: measured_paths(debs + bins),
        action: ActionView::Shell { command: "sudo apt-get clean"@ },
        needs_root: true,
    }
}

/// What the APT cache check finds: the archives, if they use any space.
pub open spec fn apt_found(apt: Seq<u8>, archives: Seq<u8>, l: AptListings) -> Seq<FindingView> {
    if measured_bytes(apt_debs(archives, l)) == 0 {
        Seq::empty()
    } else {
        seq![apt_finding(apt, archives, l)]
    }
}

/// APT cache check. `apt` is Dir::Cache, `archives` is Dir::Cache::archives
/// (from apt-config). apt rebuilds pkgcache.bin/srcpkgcache.bin on its very
/// next run (even `apt-get -s`), so they are not lasting savings: only .debs
/// count.
pub fn apt_findings_at(apt: &FsPath, archives: &FsPath, l: &AptListings) -> (r: CheckOutput)
    requires
        measured_bytes(apt_debs(archives@, *l)) <= u64::MAX,
        measured_bytes(apt_bins(apt@, *l)) <= u64::MAX,
        l.archives@.len() + l.partial@.len() <= u64::MAX,
    ensures
        r.notes@.len() == 0,
        finding_views(r.findings@) == apt_found(apt@, archives@, *l),
{
    let mut debs: Vec<Measured> = Vec::new();
    let mut bins: Vec<Measured> = Vec::new();
    proof {
        assert(measured_views(debs@) =~= Seq::empty());
        lemma_files_grow(archives@, l.archives@, ".deb"@);
        lemma_files_grow(archives@, l.partial@, ""@);
    }
    let a = list_files(&mut debs, archives, &l.archives, ".deb");
    let b = list_files(&mut debs, &archives.join_str("partial"), &l.partial, "");
    list_files(&mut bins, apt, &l.cache, ".bin");
    proof {
        assert(measured_views(debs@) =~= apt_debs(archives@, *l));
        assert(measured_views(bins@) =~= apt_bins(apt@, *l));
    }
    let (deb_bytes, bin_bytes) = (sum_measured(&debs), sum_measured(&bins));
    if deb_bytes == 0 {
        let out = CheckOutput { findings: Vec::new(), notes: Vec::new() };
        assert(finding_views(out.findings@) =~= Seq::empty());
        return out;
    }
    let count: u64 = a as u64 + b as u64;
    let detail = "Downloaded .deb packages are kept in /var/cache/apt/archives after installation. They are only needed to reinstall offline; apt downloads them again on demand.".to_owned();
    let detail = if bin_bytes > 0 {
        detail.concat(
            " apt-get clean also deletes the package-list caches (pkgcache.bin, srcpkgcache.bin), but apt rebuilds them on its next run, so they are not counted as savings.",
        )
    } else {
        detail
    };
    let mut paths = paths_of(&debs);
    let mut more = paths_of(&bins);
    let ghost (p, q) = (paths@, more@);
    paths.append(&mut more);
    proof {
        assert(paths_view(paths@) =~= paths_view(p) + paths_view(q));
        assert(paths_view(paths@) =~= measured_paths(apt_debs(archives@, *l) + apt_bins(apt@, *l)));
    }
    let f = Finding {
        id: "apt-cache".to_owned(),
        category: "APT".to_owned(),
        title: "APT cache (".to_owned().concat(decimal(count).as_str()).concat(" .deb archives, ").concat(
            fmt_size(deb_bytes).as_str(),
        ).concat(")"),
        risk: Risk::Safe,
        bytes: deb_bytes,
        detail,
        paths,
        action: Action::Shell { command: "sudo apt-get clean".to_owned() },
        needs_root: true,
    };
    assert(f@ =~= apt_finding(apt@, archives@, *l));
    let out = CheckOutput::one(f);
    assert(finding_views(out.findings@) =~= seq![f@]);
    out
}

/// An entry of snapd's download cache.
pub struct CacheEntry {
    pub name: Vec<u8>,
    pub is_file: bool,
    pub nlink: u64,
    /// Allocated bytes.
    pub bytes: u64,
}

/// What reading snapd's download cache gave.
pub enum CacheListing {
    /// Readable only by root.
    Denied,
    Missing,
    Read(Vec<CacheEntry>),
}

/// The regular files that nothing else links to.
pub open spec fn orphans(dir: Seq<u8>, list: Seq<CacheEntry>) -> Seq<(Seq<u8>, u64)>
    decreases list.len(),
{
    if list.len() == 0 {
        Seq::empty()
    } else {
        let rest = orphans(dir, list.drop_last());
        let e = list.last();
        if e.is_file && e.nlink == 1 && valid_utf8(e.name@) && valid_utf8(join_bytes(dir, e.name@)) {
            rest.push((join_bytes(dir, e.name@), e.bytes))
        } else {
            rest
        }
    }
}

fn list_orphans(dir: &FsPath, list: &Vec<CacheEntry>) -> (files: Vec<Measured>)
    ensures
        measured_views(files@) == orphans(dir@, list@),
        all_utf8(measured_paths(measured_views(files@))),
{
    let mut files: Vec<Measured> = Vec::new();
    assert(measured_views(files@) =~= Seq::empty());
    for i in 0..list.len()
        invariant
            measured_views(files@) == orphans(dir@, list@.take(i as int)),
            forall|j: int| 0 <= j < files@.len() ==> valid_utf8((#[trigger] files@[j]).path@),
    {
        let e = &list[i];
        assert(list@.take(i + 1).drop_last() =~= list@.take(i as int));
        if e.is_file && e.nlink == 1 && utf8_exact(&e.name).is_some() {
            let p = dir.join_name(&e.name);
            if p.to_str().is_some() {
                let ghost before = files@;
                let m = Measured { path: p, bytes: e.bytes };
                files.push(m);
                assert(measured_views(files@) =~= measured_views(before).push((m.path@, m.bytes)));
            }
        }
    }
    assert(list@.take(list@.len() as int) =~= list@);
    assert forall|i: int| 0 <= i < files@.len() implies valid_utf8(#[trigger] measured_paths(measured_views(files@))[i]) by {
        assert(valid_utf8(files@[i].path@));
    }
    files
}

/// The note where snapd's download cache cannot be read.
pub open spec fn cache_denied() -> Seq<char> {
    "snapd's download cache (/var/lib/snapd/cache) is readable only by root: run with sudo to check it for orphaned snap files (often 1 GB or more)."@
}

/// What the check of snapd's download cache finds: one finding about all its
/// orphaned files.
pub open spec fn orphans_found(cache: Seq<u8>, list: Seq<CacheEntry>) -> Seq<FindingView> {
    let files = orphans(cache, list);
    let paths = by_path(measured_paths(files));
    if files.len() == 0 {
        Seq::empty()
    } else {
        seq![
            FindingView {
                id: "snapd-cache-orphans"@,
                category: "Snap"@,
                title: "Orphaned snapd download cache ("@ + digits(files.len()) + " files)"@,
                risk: Risk::Safe,
                bytes: measured_bytes(files) as u64,
                detail: "Downloaded snap files in /var/lib/snapd/cache that no installed revision uses any more (link count 1). Installed snaps are hard-linked here with link count 2 and are never listed."@,
                paths,
                action: ActionView::Shell { command: "sudo rm -f -- "@ + join(path_words(paths), " "@) },
                needs_root: true,
            },
        ]
    }
}

/// Files in snapd's download cache that no installed snap links to any more.
/// snapd keeps a few such entries around indefinitely.
pub fn snapd_orphan_findings(cache: &FsPath, listing: &CacheListing) -> (r: CheckOutput)
    requires
        listing matches CacheListing::Read(list) ==> measured_bytes(orphans(cache@, list@)) <= u64::MAX,
    ensures
        match listing {
            CacheListing::Denied => texts(r.notes@) == seq![cache_denied()] && r.findings@.len() == 0,
            CacheListing::Missing => r.notes@.len() == 0 && r.findings@.len() == 0,
            CacheListing::Read(list) => r.notes@.len() == 0 && finding_views(r.findings@) == orphans_found(cache@, list@),
        },
{
    let list = match listing {
        CacheListing::Denied => {
            let out = CheckOutput::note(
                "snapd's download cache (/var/lib/snapd/cache) is readable only by root: run with sudo to check it for orphaned snap files (often 1 GB or more).".to_owned(),
            );
            assert(texts(out.notes@) =~= seq![cache_denied()]);
            return out;
        },
        CacheListing::Missing => return CheckOutput { findings: Vec::new(), notes: Vec::new() },
        CacheListing::Read(list) => list,
    };
    let files = list_orphans(cache, list);
    assert(measured_views(files@).len() == files@.len());
    if files.len() == 0 {
        let out = CheckOutput { findings: Vec::new(), notes: Vec::new() };
        assert(finding_views(out.findings@) =~= Seq::empty());
        return out;
    }
    let bytes = sum_measured(&files);
    let paths = sorted_paths(&files);
    let f = Finding {
        id: "snapd-cache-orphans".to_owned(),
        category: "Snap".to_owned(),
        title: "Orphaned snapd download cache (".to_owned().concat(decimal(paths.len() as u64).as_str()).concat(" files)"),
        risk: Risk::Safe,
        bytes,
        detail: "Downloaded snap files in /var/lib/snapd/cache that no installed revision uses any more (link count 1). Installed snaps are hard-linked here with link count 2 and are never listed.".to_owned(),
        action: Action::Shell { command: sudo_rm_files(&paths) },
        paths,
        needs_root: true,
    };
    let out = CheckOutput::one(f);
    assert(finding_views(out.findings@) =~= seq![f@]);
    out
}

/// A package that the kernel rule handles (more carefully).
pub open spec fn kernel_package(p: Seq<char>) -> bool {
    ||| starts(p, "linux-image-"@)
    ||| starts(p, "linux-modules-"@)
    ||| starts(p, "linux-headers-"@)
    ||| starts(p, "linux-tools-"@)
    ||| starts(p, "linux-hwe-"@)
}

/// The package that a line of a dry run announces the removal of.
pub open spec fn sim_removal(l: Seq<char>) -> Option<Seq<char>> {
    if starts(l, "Remv "@) {
        sim_name(l.skip("Remv "@.len() as int))
    } else if starts(l, "Purg "@) {
        sim_name(l.skip("Purg "@.len() as int))
    } else {
        None
    }
}

/// The packages that a dry run removes, without kernels.
pub open spec fn orphaned(list: Seq<Seq<char>>) -> Seq<Seq<char>>
    decreases list.len(),
{
    if list.len() == 0 {
        Seq::empty()
    } else {
        let rest = orphaned(list.drop_last());
        match sim_removal(list.last()) {
            Some(n) => if kernel_package(n) {
                rest
            } else {
                rest.push(n)
            },
            None => rest,
        }
    }
}

fn is_kernel_package(p: &String) -> (r: bool)
    ensures
        r == kernel_package(p@),
{
    let v = chars_of(p.as_str());
    starts_with(&v, "linux-image-") || starts_with(&v, "linux-modules-") || starts_with(&v, "linux-headers-") || starts_with(
        &v,
        "linux-tools-",
    ) || starts_with(&v, "linux-hwe-")
}

/// `Remv`/`Purg` package names from `apt-get -s autoremove` output, each once;
/// kernels are handled by their own rule.
pub fn autoremove_candidates(sim: &str) -> (r: Vec<String>)
    ensures
        texts(r@) == set_of(false, orphaned(lines(sim@))),
{
    let ls = lines_of(&chars_of(sim));
    let mut found: Vec<String> = Vec::new();
    assert(texts(found@) =~= Seq::empty());
    for i in 0..ls.len()
        invariant
            texts(found@) == orphaned(views(ls@).take(i as int)),
    {
        proof {
            assert(views(ls@).take(i + 1).drop_last() =~= views(ls@).take(i as int));
            assert(views(ls@).take(i + 1).last() == ls@[i as int]@);
        }
        let n = match strip_prefix(&ls[i], "Remv ") {
            Some(rest) => sim_package(&rest),
            None => match strip_prefix(&ls[i], "Purg ") {
                Some(rest) => sim_package(&rest),
                None => None,
            },
        };
        if let Some(n) = n {
            if !is_kernel_package(&n) {
                let ghost before = found@;
                found.push(n);
                assert(texts(found@) =~= texts(before).push(n@));
            }
        }
    }
    assert(views(ls@).take(ls@.len() as int) =~= views(ls@));
    let r = sort_dedup(false, &found);
    proof {
        lemma_set_of(false, texts(found@), texts(r@));
    }
    r
}

/// The Installed-Size (KiB) that a stanza gives.
pub open spec fn stanza_size(b: Seq<char>) -> nat {
    match last_field(lines(b), "Installed-Size: "@) {
        Some(s) => match number(trim(s), u64::MAX as nat) {
            Some(n) => n,
            None => 0,
        },
        None => 0,
    }
}

/// The bytes of an installed package; the last stanza about it counts.
pub open spec fn size_in(blocks: Seq<Seq<char>>, n: Seq<char>) -> Option<nat>
    decreases blocks.len(),
{
    if blocks.len() == 0 {
        None
    } else {
        match size_in(blocks.skip(1), n) {
            Some(x) => Some(x),
            None => if stanza_name(blocks[0]) == Some(n) && status_ends(blocks[0], " installed"@) {
                Some(stanza_size(blocks[0]) * 1024)
            } else {
                None
            },
        }
    }
}

/// No size in the status database is too large to be counted in bytes.
pub open spec fn sizes_fit(blocks: Seq<Seq<char>>) -> bool {
    forall|i: int| 0 <= i < blocks.len() ==> stanza_size(#[trigger] blocks[i]) * 1024 <= u64::MAX
}

/// The entry for a package.
pub open spec fn size_at(list: Seq<(String, u64)>, n: Seq<char>) -> Option<nat>
    decreases list.len(),
{
    if list.len() == 0 {
        None
    } else if list.last().0@ == n {
        Some(list.last().1 as nat)
    } else {
        size_at(list.drop_last(), n)
    }
}

fn find_size(list: &Vec<(String, u64)>, n: &String) -> (r: Option<u64>)
    ensures
        r is Some <==> size_at(list@, n@) is Some,
        r matches Some(x) ==> size_at(list@, n@) == Some(x as nat),
{
    let mut i: usize = list.len();
    assert(list@.take(i as int) =~= list@);
    while i > 0
        invariant
            i <= list@.len(),
            size_at(list@, n@) == size_at(list@.take(i as int), n@),
        decreases i,
    {
        assert(list@.take(i as int).last() == list@[i - 1]);
        assert(list@.take(i as int).drop_last() =~= list@.take(i - 1));
        if list[i - 1].0 == *n {
            return Some(list[i - 1].1);
        }
        i -= 1;
    }
    None
}

fn size_in_stanza(ls: &Vec<Vec<char>>, Ghost(b): Ghost<Seq<char>>) -> (r: u64)
    requires
        views(ls@) == lines(b),
    ensures
        r == stanza_size(b),
{
    match find_field(ls, "Installed-Size: ") {
        Some(s) => match parse_u64(&trimmed(&s)) {
            Some(n) => n,
            None => 0,
        },
        None => 0,
    }
}

/// Installed-Size (in bytes) per package from dpkg's status file. No package
/// occurs twice.
pub fn installed_sizes(status: &str) -> (r: Vec<(String, u64)>)
    requires
        sizes_fit(stanzas(status@)),
    ensures
        forall|n: Seq<char>| #[trigger] size_at(r@, n) == size_in(stanzas(status@), n),
        forall|i: int, j: int| 0 <= i < j < r@.len() ==> (#[trigger] r@[i]).0@ != (#[trigger] r@[j]).0@,
{
    let bs = stanza_list(status);
    let ghost blocks = stanzas(status@);
    let mut out: Vec<(String, u64)> = Vec::new();
    let mut i: usize = bs.len();
    assert(blocks.len() == bs@.len());
    assert(blocks.skip(i as int) =~= Seq::empty());
    while i > 0
        invariant
            i <= bs@.len(),
            views(bs@) == blocks,
            sizes_fit(blocks),
            forall|n: Seq<char>| #[trigger] size_at(out@, n) == size_in(blocks.skip(i as int), n),
            forall|x: int| 0 <= x < out@.len() ==> size_at(out@, (#[trigger] out@[x]).0@) is Some,
            forall|x: int, y: int| 0 <= x < y < out@.len() ==> (#[trigger] out@[x]).0@ != (#[trigger] out@[y]).0@,
        decreases i,
    {
        let ghost now = blocks.skip(i as int);
        i -= 1;
        let ls = lines_of(&bs[i]);
        let ghost b = bs@[i as int]@;
        proof {
            assert(blocks[i as int] == b);
            assert(blocks.skip(i as int).skip(1) =~= now);
            assert(blocks.skip(i as int)[0] == b);
        }
        let installed = match find_field(&ls, "Status: ") {
            Some(s) => ends_with(&trimmed(&s), " installed"),
            None => false,
        };
        let name = match find_field(&ls, "Package: ") {
            Some(n) => Some(string_of(&trimmed(&n))),
            None => None,
        };
        let ghost before = out@;
        if let Some(n) = name {
            if installed && find_size(&out, &n).is_none() {
                let size = size_in_stanza(&ls, Ghost(b));
                out.push((n, size * 1024));
                assert(out@.drop_last() =~= before);
            }
        }
        assert forall|m: Seq<char>| #[trigger] size_at(out@, m) == size_in(blocks.skip(i as int), m) by {
            assert(size_at(before, m) == size_in(now, m));
        }
        assert forall|x: int| 0 <= x < out@.len() implies size_at(out@, (#[trigger] out@[x]).0@) is Some by {
            if x < before.len() {
                assert(size_at(before, before[x].0@) is Some);
            }
        }
    }
    assert(blocks.skip(0) =~= blocks);
    out
}

/// The bytes of packages that are installed.
pub open spec fn packages_bytes(pkgs: Seq<Seq<char>>, blocks: Seq<Seq<char>>) -> nat
    decreases pkgs.len(),
{
    if pkgs.len() == 0 {
        0
    } else {
        packages_bytes(pkgs.drop_last(), blocks) + match size_in(blocks, pkgs.last()) {
            Some(b) => b,
            None => 0,
        }
    }
}

/// Are all sizes in the status database, and the sum over the orphaned
/// packages, small enough to be counted in bytes?
pub fn autoremove_fits(sim: &str, status: &str) -> (r: bool)
    ensures
        r == (sizes_fit(stanzas(status@)) && packages_bytes(set_of(false, orphaned(lines(sim@))), stanzas(status@)) <= u64::MAX),
{
    let bs = stanza_list(status);
    let ghost blocks = stanzas(status@);
    assert(blocks.len() == bs@.len());
    for i in 0..bs.len()
        invariant
            views(bs@) == blocks,
            blocks == stanzas(status@),
            blocks.len() == bs@.len(),
            forall|j: int| 0 <= j < i ==> stanza_size(#[trigger] blocks[j]) * 1024 <= u64::MAX,
    {
        let ls = lines_of(&bs[i]);
        assert(blocks[i as int] == bs@[i as int]@);
        if size_in_stanza(&ls, Ghost(blocks[i as int])) > u64::MAX / 1024 {
            return false;
        }
    }
    let pkgs = autoremove_candidates(sim);
    sum_packages(&pkgs, &installed_sizes(status), Ghost(blocks)).is_some()
}

fn sum_packages(pkgs: &Vec<String>, sizes: &Vec<(String, u64)>, Ghost(blocks): Ghost<Seq<Seq<char>>>) -> (r: Option<u64>)
    requires
        forall|n: Seq<char>| #[trigger] size_at(sizes@, n) == size_in(blocks, n),
    ensures
        r is Some <==> packages_bytes(texts(pkgs@), blocks) <= u64::MAX,
        r matches Some(b) ==> b == packages_bytes(texts(pkgs@), blocks),
{
    let ghost list = texts(pkgs@);
    let mut sum: u64 = 0;
    for i in 0..pkgs.len()
        invariant
            list == texts(pkgs@),
            forall|n: Seq<char>| #[trigger] size_at(sizes@, n) == size_in(blocks, n),
            sum == packages_bytes(list.take(i as int), blocks),
    {
        proof {
            assert(list.take(i + 1).drop_last() =~= list.take(i as int));
            assert(list.take(i + 1).last() == pkgs@[i as int]@);
            assert(size_at(sizes@, pkgs@[i as int]@) == size_in(blocks, pkgs@[i as int]@));
        }
        if let Some(b) = find_size(sizes, &pkgs[i]) {
            if b > u64::MAX - sum {
                proof {
                    lemma_packages_grow(list, blocks, i + 1);
                }
                return None;
            }
            sum += b;
        }
    }
    assert(list.take(pkgs@.len() as int) =~= list);
    Some(sum)
}

proof fn lemma_packages_grow(list: Seq<Seq<char>>, blocks: Seq<Seq<char>>, k: int)
    requires
        0 <= k <= list.len(),
    ensures
        packages_bytes(list.take(k), blocks) <= packages_bytes(list, blocks),
    decreases list.len(),
{
    if k < list.len() {
        assert(list.drop_last().take(k) =~= list.take(k));
        lemma_packages_grow(list.drop_last(), blocks, k);
    } else {
        assert(list.take(k) =~= list);
    }
}

/// The finding about orphaned packages, before the purge was simulated.
pub open spec fn orphaned_finding(pkgs: Seq<Seq<char>>, bytes: u64) -> FindingView {
    FindingView {
        id: "apt-autoremove"@,
        category: "APT"@,
        title: "Orphaned packages ("@ + digits(pkgs.len()) + ")"@,
        risk: Risk::Moderate,
        bytes,
        detail: "Packages installed automatically as dependencies that no installed package needs any more (what `apt autoremove` reports). Old kernels are left to the kernel rule. Size from dpkg's Installed-Size.\nPackages: "@
            + join(pkgs, ", "@),
        paths: Seq::empty(),
        action: ActionView::Shell { command: "sudo apt-get -o DPkg::Lock::Timeout=120 purge -y "@ + join(text_words(pkgs), " "@) },
        needs_root: true,
    }
}

/// The same guard as for kernels: the purge must remove exactly this list.
pub open spec fn guarded(f: FindingView, pkgs: Seq<Seq<char>>, purge: Option<Seq<char>>) -> FindingView {
    match purge {
        Some(sim) => {
            let extra = not_among(sim_changes(lines(sim)), pkgs);
            if extra.len() > 0 {
                manual_view(
                    f,
                    "Purging these would also remove: "@ + join(extra, ", "@) + ". Review with `apt-get -s autoremove`."@,
                )
            } else {
                f
            }
        },
        None => manual_view(f, "Could not simulate the purge with apt-get; review with `apt-get -s autoremove`."@),
    }
}

/// What the check for orphaned packages finds, given what a dry run of
/// `apt autoremove` says, dpkg's status and a dry run of the purge.
pub open spec fn autoremove_found(sim: Seq<char>, status: Seq<char>, purge: Option<Seq<char>>) -> Seq<FindingView> {
    let pkgs = set_of(false, orphaned(lines(sim)));
    if pkgs.len() == 0 {
        Seq::empty()
    } else {
        seq![guarded(orphaned_finding(pkgs, packages_bytes(pkgs, stanzas(status)) as u64), pkgs, purge)]
    }
}

/// Packages installed only as dependencies that nothing needs any more.
/// `sim` is the output of a simulated autoremove, `purge` that of a simulated
/// purge of `autoremove_candidates(sim)`, if it could be had.
pub fn autoremove_findings(sim: &str, status: &str, purge: Option<&str>) -> (r: CheckOutput)
    requires
        sizes_fit(stanzas(status@)),
        packages_bytes(set_of(false, orphaned(lines(sim@))), stanzas(status@)) <= u64::MAX,
    ensures
        r.notes@.len() == 0,
        finding_views(r.findings@) == autoremove_found(sim@, status@, opt_text(purge)),
{
    let pkgs = autoremove_candidates(sim);
    let ghost names = texts(pkgs@);
    assert(names.len() == pkgs@.len());
    if pkgs.len() == 0 {
        let out = CheckOutput { findings: Vec::new(), notes: Vec::new() };
        assert(finding_views(out.findings@) =~= Seq::empty());
        return out;
    }
    let bytes: u64 = match sum_packages(&pkgs, &installed_sizes(status), Ghost(stanzas(status@))) {
        Some(b) => b,
        None => 0,
    };
    let f = Finding {
        id: "apt-autoremove".to_owned(),
        category: "APT".to_owned(),
        title: "Orphaned packages (".to_owned().concat(decimal(pkgs.len() as u64).as_str()).concat(")"),
        risk: Risk::Moderate,
        bytes,
        detail: "Packages installed automatically as dependencies that no installed package needs any more (what `apt autoremove` reports). Old kernels are left to the kernel rule. Size from dpkg's Installed-Size.\nPackages: ".to_owned().concat(
            joined(&pkgs, ", ").as_str(),
        ),
        paths: Vec::new(),
        action: Action::Shell {
            command: "sudo apt-get -o DPkg::Lock::Timeout=120 purge -y ".to_owned().concat(joined(&quote_texts(&pkgs), " ").as_str()),
        },
        needs_root: true,
    };
    assert(paths_view(f.paths@) =~= Seq::empty());
    assert(f@ =~= orphaned_finding(names, bytes));
    let f = match purge {
        Some(sim) => {
            let extra = leave_out(&apt_sim_removals(sim), &pkgs);
            assert(texts(extra@).len() == extra@.len());
            if extra.len() > 0 {
                let why = "Purging these would also remove: ".to_owned().concat(joined(&extra, ", ").as_str()).concat(
                    ". Review with `apt-get -s autoremove`.",
                );
                manual(f, why.as_str())
            } else {
                f
            }
        },
        None => manual(f, "Could not simulate the purge with apt-get; review with `apt-get -s autoremove`."),
    };
    let out = CheckOutput::one(f);
    assert(finding_views(out.findings@) =~= seq![f@]);
    out
}

/// A list is only purged as it stands: where a dry run would remove anything
/// else, or there was none, the finding is a manual step.
pub proof fn law_purge_removes_the_list_alone(f: FindingView, pkgs: Seq<Seq<char>>, purge: Option<Seq<char>>)
    requires
        guarded(f, pkgs, purge).action is Shell,
    ensures
        purge is Some,
        forall|n: Seq<char>| sim_changes(lines(purge->0)).contains(n) ==> pkgs.contains(n),
{
    let changes = sim_changes(lines(purge->0));
    assert(not_among(changes, pkgs).len() == 0);
    lemma_not_among(changes, pkgs);
}

/// The runtimes that installed apps use, from lines of "app-id\truntime-ref".
pub open spec fn used_runtimes(list: Seq<Seq<char>>) -> Seq<Seq<char>>
    decreases list.len(),
{
    if list.len() == 0 {
        Seq::empty()
    } else {
        let rest = used_runtimes(list.drop_last());
        let parts = split(list.last(), '\t');
        if parts.len() >= 2 && trim(parts[1]).len() > 0 {
            rest.push(trim(parts[1]))
        } else {
            rest
        }
    }
}

/// The first parts of the runtimes in use.
pub open spec fn runtime_ids(used: Seq<Seq<char>>) -> Seq<Seq<char>> {
    Seq::new(used.len(), |i: int| split(used[i], '/')[0])
}

/// A base runtime (id/arch/branch) that nothing uses. SDKs of used platforms
/// (builders) stay, and anything referenced.
pub open spec fn runtime_unused(r: Seq<char>, used: Seq<Seq<char>>) -> bool {
    let parts = split(r, '/');
    let id = parts[0];
    &&& parts.len() == 3
    &&& ends(id, ".Platform"@) || ends(id, ".Sdk"@)
    &&& !used.contains(r)
    &&& !(ends(id, ".Sdk"@) && runtime_ids(used).contains(join(split_by(id, ".Sdk"@), ".Platform"@)))
}

pub open spec fn unused_among(list: Seq<Seq<char>>, used: Seq<Seq<char>>) -> Seq<Seq<char>>
    decreases list.len(),
{
    if list.len() == 0 {
        Seq::empty()
    } else {
        let rest = unused_among(list.drop_last(), used);
        if runtime_unused(trim(list.last()), used) {
            rest.push(trim(list.last()))
        } else {
            rest
        }
    }
}

/// The refs of the runtimes that no app uses, in order: `apps` holds lines of
/// "app-id\truntime-ref", `runtimes` lines of "id/arch/branch".
pub open spec fn unused_refs(apps: Seq<char>, runtimes: Seq<char>) -> Seq<Seq<char>> {
    by_name(unused_among(lines(runtimes), used_runtimes(lines(apps))))
}

fn list_used(apps: &str) -> (r: Vec<String>)
    ensures
        texts(r@) == used_runtimes(lines(apps@)),
{
    let ls = lines_of(&chars_of(apps));
    let mut out: Vec<String> = Vec::new();
    assert(texts(out@) =~= Seq::empty());
    for i in 0..ls.len()
        invariant
            texts(out@) == used_runtimes(views(ls@).take(i as int)),
    {
        let parts = split_on(&ls[i], '\t');
        proof {
            assert(views(ls@).take(i + 1).drop_last() =~= views(ls@).take(i as int));
            assert(views(ls@).take(i + 1).last() == ls@[i as int]@);
            assert(views(parts@).len() == parts@.len());
        }
        if parts.len() >= 2 {
            assert(views(parts@)[1] == parts@[1]@);
            let t = trimmed(&parts[1]);
            if t.len() > 0 {
                let ghost before = out@;
                let s = string_of(&t);
                out.push(s);
                assert(texts(out@) =~= texts(before).push(s@));
            }
        }
    }
    assert(views(ls@).take(ls@.len() as int) =~= views(ls@));
    out
}

fn strings_of(parts: &Vec<Vec<char>>) -> (r: Vec<String>)
    ensures
        texts(r@) == views(parts@),
{
    let mut out: Vec<String> = Vec::new();
    for i in 0..parts.len()
        invariant
            texts(out@) == views(parts@).take(i as int),
    {
        let ghost before = out@;
        let s = string_of(&parts[i]);
        out.push(s);
        assert(texts(out@) =~= texts(before).push(s@));
        assert(texts(out@) =~= views(parts@).take(i + 1));
    }
    assert(texts(out@) =~= views(parts@));
    out
}

fn list_ids(used: &Vec<String>) -> (r: Vec<String>)
    ensures
        texts(r@) == runtime_ids(texts(used@)),
{
    let ghost want = runtime_ids(texts(used@));
    let mut out: Vec<String> = Vec::new();
    for i in 0..used.len()
        invariant
            want == runtime_ids(texts(used@)),
            texts(out@) == want.take(i as int),
    {
        let parts = split_on(&chars_of(used[i].as_str()), '/');
        assert(views(parts@)[0] == parts@[0]@);
        let ghost before = out@;
        let s = string_of(&parts[0]);
        out.push(s);
        assert(texts(out@) =~= texts(before).push(s@));
        assert(texts(out@) =~= want.take(i + 1));
    }
    assert(texts(out@) =~= want);
    out
}

fn is_unused(r: &Vec<char>, used: &Vec<String>, ids: &Vec<String>) -> (b: bool)
    requires
        texts(ids@) == runtime_ids(texts(used@)),
    ensures
        b == runtime_unused(r@, texts(used@)),
{
    let parts = split_on(r, '/');
    assert(views(parts@).len() == parts@.len());
    if parts.len() != 3 {
        return false;
    }
    assert(views(parts@)[0] == parts@[0]@);
    let id = &parts[0];
    let sdk = ends_with(id, ".Sdk");
    if !(ends_with(id, ".Platform") || sdk) || knows_text(used, &string_of(r)) {
        return false;
    }
    if !sdk {
        return true;
    }
    proof {
        reveal_strlit(".Sdk");
    }
    let platform = joined(&strings_of(&split_on_str(id, ".Sdk")), ".Platform");
    !knows_text(ids, &platform)
}

/// Unused Flatpak runtimes: runtimes (not extensions) that no installed app
/// uses. `apps` holds lines of "app-id\truntime-ref", `runtimes` lines of
/// "id/arch/branch".
pub fn flatpak_unused(apps: &str, runtimes: &str) -> (r: Vec<String>)
    ensures
        texts(r@) == unused_refs(apps@, runtimes@),
{
    let used = list_used(apps);
    let ids = list_ids(&used);
    let ls = lines_of(&chars_of(runtimes));
    let ghost u = texts(used@);
    let mut out: Vec<String> = Vec::new();
    assert(texts(out@) =~= Seq::empty());
    for i in 0..ls.len()
        invariant
            u == texts(used@),
            texts(ids@) == runtime_ids(u),
            texts(out@) == unused_among(views(ls@).take(i as int), u),
    {
        proof {
            assert(views(ls@).take(i + 1).drop_last() =~= views(ls@).take(i as int));
            assert(views(ls@).take(i + 1).last() == ls@[i as int]@);
        }
        let t = trimmed(&ls[i]);
        if is_unused(&t, &used, &ids) {
            let ghost before = out@;
            let s = string_of(&t);
            out.push(s);
            assert(texts(out@) =~= texts(before).push(s@));
        }
    }
    assert(views(ls@).take(ls@.len() as int) =~= views(ls@));
    sort_names(&out)
}

/// Where the runtime `name` lies in an installation.
pub open spec fn runtime_place(installation: Seq<u8>, name: Seq<char>) -> Seq<u8> {
    join_bytes(join_bytes(installation, encode_utf8("runtime"@)), encode_utf8(name))
}

/// Where runtimes lie, in each of the installations.
pub open spec fn runtime_places(refs: Seq<Seq<char>>, installations: Seq<Seq<u8>>) -> Seq<Seq<u8>>
    decreases refs.len(),
{
    if refs.len() == 0 {
        Seq::empty()
    } else {
        runtime_places(refs.drop_last(), installations) + Seq::new(
            installations.len(),
            |i: int| runtime_place(installations[i], refs.last()),
        )
    }
}

/// Where the given runtimes may lie.
pub fn flatpak_places(refs: &Vec<String>, installations: &Vec<FsPath>) -> (r: Vec<FsPath>)
    ensures
        paths_view(r@) == runtime_places(texts(refs@), paths_view(installations@)),
{
    let ghost list = texts(refs@);
    let ghost inst = paths_view(installations@);
    let mut out: Vec<FsPath> = Vec::new();
    assert(paths_view(out@) =~= Seq::empty());
    for i in 0..refs.len()
        invariant
            list == texts(refs@),
            inst == paths_view(installations@),
            paths_view(out@) == runtime_places(list.take(i as int), inst),
    {
        let ghost start = paths_view(out@);
        let ghost one = Seq::new(
            inst.len(),
            |k: int| join_bytes(join_bytes(inst[k], encode_utf8("runtime"@)), encode_utf8(list[i as int])),
        );
        proof {
            assert(list.take(i + 1).drop_last() =~= list.take(i as int));
            assert(start + one.take(0) =~= start);
        }
        for j in 0..installations.len()
            invariant
                i < refs@.len(),
                list == texts(refs@),
                inst == paths_view(installations@),
                one == Seq::new(
                    inst.len(),
                    |k: int| join_bytes(join_bytes(inst[k], encode_utf8("runtime"@)), encode_utf8(list[i as int])),
                ),
                paths_view(out@) == start + one.take(j as int),
        {
            let ghost before = out@;
            let p = installations[j].join_str("runtime").join_str(refs[i].as_str());
            out.push(p);
            assert(paths_view(out@) =~= paths_view(before).push(p@));
            assert(paths_view(out@) =~= start + one.take(j + 1));
        }
        assert(one.take(installations@.len() as int) =~= one);
        assert(paths_view(out@) =~= runtime_places(list.take(i + 1), inst));
    }
    assert(list.take(refs@.len() as int) =~= list);
    out
}

/// The finding about the unused runtimes `unused`: `sizes` are what each place
/// where one may lie holds alone, as far as it was found.
pub open spec fn flatpak_found(unused: Seq<Seq<char>>, installations: Seq<Seq<u8>>, sizes: Seq<Option<u64>>) -> Seq<FindingView> {
    let places = runtime_places(unused, installations);
    if unused.len() == 0 {
        Seq::empty()
    } else {
        seq![
            FindingView {
                id: "flatpak-unused"@,
                category: "Flatpak"@,
                title: "Unused Flatpak runtimes ("@ + digits(unused.len()) + ")"@,
                risk: Risk::Moderate,
                bytes: found_bytes(sizes, places.len() as int) as u64,
                detail: "Runtimes no installed Flatpak app uses (left behind after apps were removed or updated): "@ + join(
                    unused,
                    ", "@,
                ) + ". Estimate counts data only these runtimes hold; unused extensions removed along with them can add more."@,
                paths: found_paths(places, sizes),
                action: ActionView::Shell {
                    command: "sudo flatpak uninstall --system -y --noninteractive "@ + join(text_words(unused), " "@),
                },
                needs_root: true,
            },
        ]
    }
}

/// The finding about unused Flatpak runtimes, from what `flatpak list` prints of
/// the apps and the system's runtimes: `sizes` are what each place where an
/// unused one may lie (see `flatpak_places`) holds alone, where it is a folder.
pub fn flatpak_findings(apps: &str, runtimes: &str, installations: &Vec<FsPath>, sizes: &Vec<Option<u64>>) -> (r: CheckOutput)
    requires
        sizes@.len() == runtime_places(unused_refs(apps@, runtimes@), paths_view(installations@)).len(),
        found_bytes(sizes@, sizes@.len() as int) <= u64::MAX,
    ensures
        r.notes@.len() == 0,
        finding_views(r.findings@) == flatpak_found(unused_refs(apps@, runtimes@), paths_view(installations@), sizes@),
{
    let list = flatpak_unused(apps, runtimes);
    let unused = &list;
    assert(texts(unused@).len() == unused@.len());
    if unused.len() == 0 {
        let out = CheckOutput { findings: Vec::new(), notes: Vec::new() };
        assert(finding_views(out.findings@) =~= Seq::empty());
        return out;
    }
    let places = flatpak_places(unused, installations);
    assert(paths_view(places@).len() == places@.len());
    let (paths, bytes) = keep_found(&places, sizes);
    let f = Finding {
        id: "flatpak-unused".to_owned(),
        category: "Flatpak".to_owned(),
        title: "Unused Flatpak runtimes (".to_owned().concat(decimal(unused.len() as u64).as_str()).concat(")"),
        risk: Risk::Moderate,
        bytes,
        detail: "Runtimes no installed Flatpak app uses (left behind after apps were removed or updated): ".to_owned().concat(
            joined(unused, ", ").as_str(),
        ).concat(
            ". Estimate counts data only these runtimes hold; unused extensions removed along with them can add more.",
        ),
        paths,
        action: Action::Shell {
            command: "sudo flatpak uninstall --system -y --noninteractive ".to_owned().concat(
                joined(&quote_texts(unused), " ").as_str(),
            ),
        },
        needs_root: true,
    };
    let out = CheckOutput::one(f);
    assert(finding_views(out.findings@) =~= seq![f@]);
    out
}

proof fn lemma_unused_among(list: Seq<Seq<char>>, used: Seq<Seq<char>>, x: Seq<char>)
    ensures
        unused_among(list, used).len() <= list.len(),
        unused_among(list, used).contains(x) ==> runtime_unused(x, used),
    decreases list.len(),
{
    if list.len() > 0 {
        let rest = unused_among(list.drop_last(), used);
        lemma_unused_among(list.drop_last(), used, x);
        lemma_push_contains(rest, trim(list.last()), x);
    }
}

proof fn lemma_runtime_places(refs: Seq<Seq<char>>, installations: Seq<Seq<u8>>, p: Seq<u8>)
    requires
        runtime_places(refs, installations).contains(p),
    ensures
        exists|k: int, i: int|
            0 <= k < refs.len() && 0 <= i < installations.len() && p == #[trigger] runtime_place(installations[i], refs[k]),
    decreases refs.len(),
{
    if refs.len() > 0 {
        let front = refs.drop_last();
        let rest = runtime_places(front, installations);
        let all = runtime_places(refs, installations);
        let w = choose|w: int| 0 <= w < all.len() && all[w] == p;
        if w < rest.len() {
            assert(rest[w] == p);
            lemma_runtime_places(front, installations, p);
            let (k, i) = choose|k: int, i: int|
                0 <= k < front.len() && 0 <= i < installations.len() && p == #[trigger] runtime_place(installations[i], front[k]);
            assert(p == runtime_place(installations[i], refs[k]));
        } else {
            assert(p == runtime_place(installations[w - rest.len()], refs[refs.len() - 1]));
        }
    }
}

/// The command uninstalls unused runtimes only.
pub proof fn law_used_runtimes_stay(apps: Seq<char>, runtimes: Seq<char>, k: int)
    requires
        lines(runtimes).len() <= usize::MAX,
        0 <= k < unused_refs(apps, runtimes).len(),
    ensures
        runtime_unused(unused_refs(apps, runtimes)[k], used_runtimes(lines(apps))),
{
    let used = used_runtimes(lines(apps));
    let x = unused_refs(apps, runtimes)[k];
    lemma_unused_among(lines(runtimes), used, x);
    assert(unused_refs(apps, runtimes).contains(x));
    lemma_by_name_among(unused_among(lines(runtimes), used), x);
}

/// Whatever the finding names is where a runtime that no app uses lies in one of
/// the installations.
pub proof fn law_only_unused_runtimes_are_listed(
    apps: Seq<char>,
    runtimes: Seq<char>,
    installations: Seq<Seq<u8>>,
    sizes: Seq<Option<u64>>,
    p: Seq<u8>,
)
    requires
        lines(runtimes).len() <= usize::MAX,
        flatpak_found(unused_refs(apps, runtimes), installations, sizes).len() > 0,
        flatpak_found(unused_refs(apps, runtimes), installations, sizes)[0].paths.contains(p),
    ensures
        ({
            let refs = unused_refs(apps, runtimes);
            exists|k: int, i: int|
                0 <= k < refs.len() && 0 <= i < installations.len() && p == #[trigger] runtime_place(installations[i], refs[k])
                    && runtime_unused(refs[k], used_runtimes(lines(apps)))
        }),
{
    let refs = unused_refs(apps, runtimes);
    lemma_found_among(runtime_places(refs, installations), sizes, p);
    lemma_runtime_places(refs, installations, p);
    let (k, i) = choose|k: int, i: int|
        0 <= k < refs.len() && 0 <= i < installations.len() && p == #[trigger] runtime_place(installations[i], refs[k]);
    law_used_runtimes_stay(apps, runtimes, k);
    assert(p == runtime_place(installations[i], refs[k]));
}

proof fn lemma_file_taken(dir: Seq<u8>, list: Seq<LogEntry>, suffix: Seq<char>, i: int)
    requires
        0 <= i < list.len(),
        list[i].is_file,
        ends(lossy_text(list[i].name@), suffix),
    ensures
        files_ending(dir, list, suffix).contains((join_bytes(dir, list[i].name@), list[i].bytes)),
    decreases list.len(),
{
    let e = list.last();
    lemma_push_contains(
        files_ending(dir, list.drop_last(), suffix),
        (join_bytes(dir, e.name@), e.bytes),
        (join_bytes(dir, list[i].name@), list[i].bytes),
    );
    if i < list.len() - 1 {
        lemma_file_taken(dir, list.drop_last(), suffix, i);
    }
}

/// A file among measured ones: its bytes are counted and its path is listed.
proof fn lemma_file_counts(v: Seq<(Seq<u8>, u64)>, f: (Seq<u8>, u64))
    requires
        v.contains(f),
    ensures
        measured_bytes(v) >= f.1,
        measured_paths(v).contains(f.0),
        forall|w: Seq<(Seq<u8>, u64)>| #[trigger] measured_paths(v + w).contains(f.0),
{
    let k = choose|k: int| 0 <= k < v.len() && v[k] == f;
    law_measured_bytes_add_up(v, k);
    assert(measured_paths(v)[k] == f.0);
    assert forall|w: Seq<(Seq<u8>, u64)>| #[trigger] measured_paths(v + w).contains(f.0) by {
        assert(measured_paths(v + w)[k] == f.0);
    }
}

/// Every archive that APT keeps, and whatever it has half downloaded, is counted
/// and listed, and `apt-get clean` is what removes it.
pub proof fn law_apt_archives_are_found(apt: Seq<u8>, archives: Seq<u8>, l: AptListings, i: int, stem: Seq<char>)
    ensures
        0 <= i < l.archives@.len() && l.archives@[i].is_file && l.archives@[i].bytes > 0 && lossy_text(l.archives@[i].name@) == stem
            + ".deb"@ ==> apt_found(apt, archives, l).len() == 1 && apt_found(apt, archives, l)[0].paths.contains(
            join_bytes(archives, l.archives@[i].name@),
        ),
        0 <= i < l.partial@.len() && l.partial@[i].is_file && l.partial@[i].bytes > 0 ==> apt_found(apt, archives, l).len() == 1
            && apt_found(apt, archives, l)[0].paths.contains(
            join_bytes(join_bytes(archives, encode_utf8("partial"@)), l.partial@[i].name@),
        ),
        apt_found(apt, archives, l).len() <= 1,
        apt_found(apt, archives, l).len() == 1 ==> {
            let f = apt_found(apt, archives, l)[0];
            &&& f.id == "apt-cache"@ && f.category == "APT"@
            &&& f.risk == Risk::Safe
            &&& f.needs_root
            &&& f.action == ActionView::Shell { command: "sudo apt-get clean"@ }
            &&& f.bytes == (measured_bytes(files_ending(archives, l.archives@, ".deb"@)) + measured_bytes(
                files_ending(join_bytes(archives, encode_utf8("partial"@)), l.partial@, ""@),
            )) as u64
        },
{
    reveal_strlit("");
    let partial = join_bytes(archives, encode_utf8("partial"@));
    let (a, b) = (files_ending(archives, l.archives@, ".deb"@), files_ending(partial, l.partial@, ""@));
    let bins = apt_bins(apt, l);
    lemma_bytes_concat(a, b);
    lemma_ends(stem, ".deb"@);
    if 0 <= i < l.archives@.len() && l.archives@[i].is_file && l.archives@[i].bytes > 0 && lossy_text(l.archives@[i].name@) == stem
        + ".deb"@ {
        lemma_file_taken(archives, l.archives@, ".deb"@, i);
        let f = (join_bytes(archives, l.archives@[i].name@), l.archives@[i].bytes);
        lemma_file_counts(a, f);
        assert(measured_paths(a + (b + bins)).contains(f.0));
        assert(a + (b + bins) =~= (a + b) + bins);
    }
    if 0 <= i < l.partial@.len() && l.partial@[i].is_file && l.partial@[i].bytes > 0 {
        let n = lossy_text(l.partial@[i].name@);
        assert(n.subrange(n.len() as int, n.len() as int) =~= ""@);
        lemma_file_taken(partial, l.partial@, ""@, i);
        let f = (join_bytes(partial, l.partial@[i].name@), l.partial@[i].bytes);
        lemma_file_counts(b, f);
        let k = choose|k: int| 0 <= k < b.len() && b[k] == f;
        assert((a + b)[a.len() + k] == f);
        assert((a + b).contains(f));
        lemma_file_counts(a + b, f);
        assert(measured_paths((a + b) + bins).contains(f.0));
    }
}

proof fn lemma_bytes_concat(a: Seq<(Seq<u8>, u64)>, b: Seq<(Seq<u8>, u64)>)
    ensures
        measured_bytes(a + b) == measured_bytes(a) + measured_bytes(b),
    decreases b.len(),
{
    if b.len() > 0 {
        assert((a + b).drop_last() =~= a + b.drop_last());
        lemma_bytes_concat(a, b.drop_last());
    } else {
        assert(a + b =~= a);
    }
}

/// A downloaded snap is an orphan exactly if its link count is one: what an
/// installed revision is linked to stays.
pub proof fn law_orphans_have_one_link(dir: Seq<u8>, list: Seq<CacheEntry>, f: (Seq<u8>, u64))
    ensures
        orphans(dir, list).contains(f) <==> exists|i: int|
            #![trigger list[i]]
            0 <= i < list.len() && list[i].is_file && list[i].nlink == 1 && f == (join_bytes(dir, list[i].name@), list[i].bytes) && valid_utf8(
                list[i].name@,
            ) && valid_utf8(f.0),
        orphans(dir, list).len() <= list.len(),
    decreases list.len(),
{
    if list.len() > 0 {
        let front = list.drop_last();
        let e = list.last();
        law_orphans_have_one_link(dir, front, f);
        lemma_push_contains(orphans(dir, front), (join_bytes(dir, e.name@), e.bytes), f);
        if exists|i: int|
            #![trigger list[i]]
            0 <= i < list.len() && list[i].is_file && list[i].nlink == 1 && f == (join_bytes(dir, list[i].name@), list[i].bytes) && valid_utf8(
                list[i].name@,
            ) && valid_utf8(f.0) {
            let i = choose|i: int|
                #![trigger list[i]]
                0 <= i < list.len() && list[i].is_file && list[i].nlink == 1 && f == (join_bytes(dir, list[i].name@), list[i].bytes)
                    && valid_utf8(list[i].name@) && valid_utf8(f.0);
            if i < front.len() {
                assert(front[i] == list[i]);
            }
        }
        if orphans(dir, front).contains(f) {
            let i = choose|i: int|
                #![trigger front[i]]
                0 <= i < front.len() && front[i].is_file && front[i].nlink == 1 && f == (join_bytes(dir, front[i].name@), front[i].bytes)
                    && valid_utf8(front[i].name@) && valid_utf8(f.0);
            assert(list[i] == front[i]);
        } else if orphans(dir, list).contains(f) {
            assert(list[list.len() - 1] == e);
        }
    }
}

/// Every orphan is removed by the finding, file by file, and nothing else.
pub proof fn law_every_orphan_is_removed(cache: Seq<u8>, list: Seq<CacheEntry>, p: Seq<u8>)
    requires
        list.len() <= usize::MAX,
    ensures
        orphans_found(cache, list).len() <= 1,
        orphans_found(cache, list).len() == 1 <==> orphans(cache, list).len() > 0,
        orphans_found(cache, list).len() == 1 ==> {
            let f = orphans_found(cache, list)[0];
            &&& f.paths.contains(p) <==> measured_paths(orphans(cache, list)).contains(p)
            &&& f.action == ActionView::Shell { command: "sudo rm -f -- "@ + join(path_words(f.paths), " "@) }
            &&& f.risk == Risk::Safe
            &&& f.needs_root
            &&& f.bytes == measured_bytes(orphans(cache, list)) as u64
            &&& f.id == "snapd-cache-orphans"@ && f.category == "Snap"@
        },
{
    law_orphans_have_one_link(cache, list, (p, 0));
    law_sorted_paths_are_the_same_paths(measured_paths(orphans(cache, list)), p);
}

/// The packages of kernels, by their names' beginnings: they are left to the
/// kernel rule.
pub proof fn law_kernel_packages_are_told_by_name(p: Seq<char>)
    ensures
        kernel_package(p) <==> "linux-image-"@.is_prefix_of(p) || "linux-modules-"@.is_prefix_of(p) || "linux-headers-"@.is_prefix_of(p)
            || "linux-tools-"@.is_prefix_of(p) || "linux-hwe-"@.is_prefix_of(p),
{
}

/// A line of a dry run says that the package `n` goes.
pub open spec fn says_removed(l: Seq<char>, n: Seq<char>) -> bool {
    exists|rest: Seq<char>| (l == "Remv "@ + rest || l == "Purg "@ + rest) && #[trigger] sim_name(rest) == Some(n)
}

proof fn lemma_says_removed(l: Seq<char>, n: Seq<char>)
    ensures
        says_removed(l, n) <==> sim_removal(l) == Some(n),
{
    reveal_strlit("Remv ");
    reveal_strlit("Purg ");
    if says_removed(l, n) {
        let rest = choose|rest: Seq<char>| (l == "Remv "@ + rest || l == "Purg "@ + rest) && #[trigger] sim_name(rest) == Some(n);
        lemma_starts("Remv "@, rest);
        lemma_starts("Purg "@, rest);
        if l == "Purg "@ + rest {
            assert(l[0] == 'P');
            if starts(l, "Remv "@) {
                assert(l.subrange(0, 5)[0] == 'R');
            }
        }
    }
    if sim_removal(l) == Some(n) {
        let rest = l.skip(5);
        lemma_starts("Remv "@, rest);
        lemma_starts("Purg "@, rest);
        assert(sim_name(rest) == Some(n));
    }
}

/// The orphaned packages are those that the dry run would remove or purge, but
/// for the packages of kernels.
pub proof fn law_orphaned_packages_are_what_apt_would_remove(list: Seq<Seq<char>>, n: Seq<char>)
    ensures
        orphaned(list).contains(n) <==> !kernel_package(n) && exists|i: int| 0 <= i < list.len() && #[trigger] says_removed(list[i], n),
    decreases list.len(),
{
    if list.len() > 0 {
        let front = list.drop_last();
        law_orphaned_packages_are_what_apt_would_remove(front, n);
        lemma_says_removed(list.last(), n);
        if let Some(m) = sim_removal(list.last()) {
            lemma_push_contains(orphaned(front), m, n);
        }
        if exists|i: int| 0 <= i < list.len() && #[trigger] says_removed(list[i], n) {
            let i = choose|i: int| 0 <= i < list.len() && #[trigger] says_removed(list[i], n);
            if i < front.len() {
                assert(says_removed(front[i], n));
            }
        }
        if exists|i: int| 0 <= i < front.len() && #[trigger] says_removed(front[i], n) {
            let i = choose|i: int| 0 <= i < front.len() && #[trigger] says_removed(front[i], n);
            assert(says_removed(list[i], n));
        }
        if says_removed(list.last(), n) {
            assert(says_removed(list[list.len() - 1], n));
        }
    }
}

/// Orphaned packages are purged by name, all of them and no other, exactly if
/// the purge would change nothing else; else they are left to the user.
pub proof fn law_orphaned_packages_are_purged_by_name(sim: Seq<char>, status: Seq<char>, purge: Option<Seq<char>>, n: Seq<char>)
    ensures
        ({
            let found = autoremove_found(sim, status, purge);
            let pkgs = set_of(false, orphaned(lines(sim)));
            &&& pkgs.contains(n) <==> orphaned(lines(sim)).contains(n)
            &&& found.len() <= 1
            &&& found.len() == 1 <==> pkgs.len() > 0
            &&& found.len() == 1 ==> {
                let f = found[0];
                &&& f.id == "apt-autoremove"@ && f.category == "APT"@
                &&& f.risk == Risk::Moderate
                &&& f.needs_root
                &&& f.bytes == packages_bytes(pkgs, stanzas(status)) as u64
                &&& f.paths.len() == 0
                &&& f.action is Shell ==> f.action == ActionView::Shell {
                    command: "sudo apt-get -o DPkg::Lock::Timeout=120 purge -y "@ + join(
                        Seq::new(pkgs.len(), |i: int| quoted(pkgs[i])),
                        " "@,
                    ),
                }
                &&& f.action is Shell || f.action is Manual
                &&& f.action is Shell <==> purge is Some && forall|m: Seq<char>| #[trigger]
                    sim_changes(lines(purge->0)).contains(m) ==> pkgs.contains(m)
            }
        }),
{
    let list = orphaned(lines(sim));
    let pkgs = set_of(false, list);
    law_set_holds_the_list(false, list);
    assert(text_words(pkgs) =~= Seq::new(pkgs.len(), |i: int| quoted(pkgs[i])));
    if let Some(t) = purge {
        let changes = sim_changes(lines(t));
        lemma_not_among(changes, pkgs);
        if forall|m: Seq<char>| #[trigger] changes.contains(m) ==> pkgs.contains(m) {
            lemma_none_extra(changes, pkgs);
        }
    }
}

proof fn lemma_none_extra(list: Seq<Seq<char>>, known: Seq<Seq<char>>)
    requires
        forall|m: Seq<char>| #[trigger] list.contains(m) ==> known.contains(m),
    ensures
        not_among(list, known).len() == 0,
    decreases list.len(),
{
    if list.len() > 0 {
        let front = list.drop_last();
        assert(list.contains(list[list.len() - 1]));
        assert forall|m: Seq<char>| #[trigger] front.contains(m) implies known.contains(m) by {
            let k = choose|k: int| 0 <= k < front.len() && front[k] == m;
            assert(list[k] == m);
            assert(list.contains(m));
        }
        lemma_none_extra(front, known);
    }
}

/// Sizes of packages add up, each counted once.
pub proof fn law_package_sizes_add_up(pkgs: Seq<Seq<char>>, blocks: Seq<Seq<char>>, i: int)
    requires
        0 <= i < pkgs.len(),
    ensures
        size_in(blocks, pkgs[i]) matches Some(b) ==> packages_bytes(pkgs, blocks) == packages_bytes(pkgs.remove(i), blocks) + b,
        size_in(blocks, pkgs[i]) is None ==> packages_bytes(pkgs, blocks) == packages_bytes(pkgs.remove(i), blocks),
    decreases pkgs.len(),
{
    if i < pkgs.len() - 1 {
        law_package_sizes_add_up(pkgs.drop_last(), blocks, i);
        assert(pkgs.remove(i).drop_last() =~= pkgs.drop_last().remove(i));
        assert(pkgs.remove(i).last() == pkgs.last());
    } else {
        assert(pkgs.remove(i) =~= pkgs.drop_last());
    }
}

/// An installed package has the size that dpkg states for it, in KiB; one that
/// is not installed has none.
pub proof fn law_package_sizes_are_dpkgs(blocks: Seq<Seq<char>>, i: int, n: Seq<char>, k: int, kib: nat)
    requires
        0 <= i < blocks.len(),
        stanza_name(blocks[i]) == Some(n),
        forall|j: int| 0 <= j < blocks.len() && j != i ==> stanza_name(#[trigger] blocks[j]) != Some(n),
        0 <= k < lines(blocks[i]).len(),
        lines(blocks[i])[k] == "Installed-Size: "@ + digits(kib),
        forall|j: int| k < j < lines(blocks[i]).len() ==> !starts(#[trigger] lines(blocks[i])[j], "Installed-Size: "@),
        kib <= u64::MAX,
    ensures
        status_ends(blocks[i], " installed"@) ==> size_in(blocks, n) == Some(kib * 1024),
        !status_ends(blocks[i], " installed"@) ==> size_in(blocks, n) is None,
{
    let ls = lines(blocks[i]);
    lemma_starts("Installed-Size: "@, digits(kib));
    lemma_last_size(ls, "Installed-Size: "@, k);
    lemma_digits(kib);
    let d = digits(kib);
    assert(is_digit(d[0]) && is_digit(d[d.len() - 1]));
    law_ascii_white_space(d[0]);
    law_ascii_white_space(d.last());
    law_trim_takes_the_white_space_off(Seq::empty(), d, Seq::empty());
    assert(Seq::<char>::empty() + d + Seq::<char>::empty() =~= d);
    law_digits_read_back(kib, u64::MAX as nat);
    assert(stanza_size(blocks[i]) == kib);
    lemma_size_in(blocks, i, n);
}

proof fn lemma_last_size(list: Seq<Seq<char>>, key: Seq<char>, i: int)
    requires
        0 <= i < list.len(),
        starts(list[i], key),
        forall|j: int| i < j < list.len() ==> !starts(#[trigger] list[j], key),
    ensures
        last_field(list, key) == Some(list[i].skip(key.len() as int)),
    decreases list.len(),
{
    if i < list.len() - 1 {
        assert(!starts(list[list.len() - 1], key));
        assert forall|j: int| i < j < list.drop_last().len() implies !starts(#[trigger] list.drop_last()[j], key) by {
            assert(list.drop_last()[j] == list[j]);
        }
        lemma_last_size(list.drop_last(), key, i);
    }
}

proof fn lemma_size_in(blocks: Seq<Seq<char>>, i: int, n: Seq<char>)
    requires
        0 <= i < blocks.len(),
        stanza_name(blocks[i]) == Some(n),
        forall|j: int| 0 <= j < blocks.len() && j != i ==> stanza_name(#[trigger] blocks[j]) != Some(n),
    ensures
        status_ends(blocks[i], " installed"@) ==> size_in(blocks, n) == Some(stanza_size(blocks[i]) * 1024),
        !status_ends(blocks[i], " installed"@) ==> size_in(blocks, n) is None,
    decreases blocks.len(),
{
    let rest = blocks.skip(1);
    assert forall|j: int| 0 <= j < rest.len() && j != i - 1 implies stanza_name(#[trigger] rest[j]) != Some(n) by {
        assert(rest[j] == blocks[j + 1]);
    }
    if i > 0 {
        assert(rest[i - 1] == blocks[i]);
        lemma_size_in(rest, i - 1, n);
    } else {
        lemma_no_size(rest, n);
    }
}

proof fn lemma_no_size(blocks: Seq<Seq<char>>, n: Seq<char>)
    requires
        forall|j: int| 0 <= j < blocks.len() ==> stanza_name(#[trigger] blocks[j]) != Some(n),
    ensures
        size_in(blocks, n) is None,
    decreases blocks.len(),
{
    if blocks.len() > 0 {
        let rest = blocks.skip(1);
        assert forall|j: int| 0 <= j < rest.len() implies stanza_name(#[trigger] rest[j]) != Some(n) by {
            assert(rest[j] == blocks[j + 1]);
        }
        lemma_no_size(rest, n);
    }
}

/// The runtime in the second column of an app's line is in use.
pub proof fn law_apps_use_their_runtimes(list: Seq<Seq<char>>, i: int, app: Seq<char>, runtime: Seq<char>)
    requires
        0 <= i < list.len(),
        list[i] == app + seq!['\t'] + runtime,
        !app.contains('\t'),
        !runtime.contains('\t'),
        trim(runtime).len() > 0,
    ensures
        used_runtimes(list).contains(trim(runtime)),
    decreases list.len(),
{
    law_parts_are_cut_at_separators(app, '\t', runtime);
    law_parts_are_cut_at_separators(runtime, '\t', runtime);
    let front = list.drop_last();
    if i < list.len() - 1 {
        law_apps_use_their_runtimes(front, i, app, runtime);
        let parts = split(list.last(), '\t');
        lemma_push_contains(used_runtimes(front), trim(parts[1]), trim(runtime));
    } else {
        assert(split(list.last(), '\t') =~= seq![app, runtime]);
        lemma_push_contains(used_runtimes(front), trim(runtime), trim(runtime));
    }
}

/// Which runtimes are unused: a platform `<id>/<arch>/<branch>` that no app uses,
/// and an SDK that no app uses and whose platform no app uses either. Nothing
/// else is.
pub proof fn law_unused_runtimes(stem: Seq<char>, arch: Seq<char>, branch: Seq<char>, used: Seq<Seq<char>>)
    requires
        !stem.contains('/'),
        !arch.contains('/'),
        !branch.contains('/'),
        forall|k: int| 0 <= k < stem.len() ==> !#[trigger] stands_at(stem + ".Sdk"@, ".Sdk"@, k),
    ensures
        ({
            let tail = seq!['/'] + arch + seq!['/'] + branch;
            let (platform, sdk) = (stem + ".Platform"@ + tail, stem + ".Sdk"@ + tail);
            &&& runtime_unused(platform, used) <==> !used.contains(platform)
            &&& runtime_unused(sdk, used) <==> !used.contains(sdk) && forall|i: int|
                0 <= i < used.len() ==> split(#[trigger] used[i], '/')[0] != stem + ".Platform"@
            &&& runtime_unused(stem + tail, used) ==> ".Platform"@.is_suffix_of(stem) || ".Sdk"@.is_suffix_of(stem)
        }),
{
    reveal_strlit(".Platform");
    reveal_strlit(".Sdk");
    let tail = seq!['/'] + arch + seq!['/'] + branch;
    let (p, s) = (stem + ".Platform"@, stem + ".Sdk"@);
    lemma_three_parts(stem, arch, branch);
    assert(!p.contains('/'));
    assert(!s.contains('/'));
    lemma_three_parts(p, arch, branch);
    lemma_three_parts(s, arch, branch);
    lemma_ends(stem, ".Platform"@);
    lemma_ends(stem, ".Sdk"@);
    if ends(p, ".Sdk"@) {
        assert(p.last() == 'm');
        assert(p.subrange(p.len() - 4, p.len() as int)[3] == 'k');
    }
    // The platform of an SDK.
    assert(stem + ".Sdk"@ + Seq::<char>::empty() =~= s);
    law_pieces_are_cut_at_texts(stem, ".Sdk"@, Seq::empty());
    let none = Seq::<char>::empty();
    assert forall|k: int| !#[trigger] stands_at(none, ".Sdk"@, k) by {}
    lemma_whole(none, ".Sdk"@);
    assert(split_by(s, ".Sdk"@) =~= seq![stem, none]);
    assert(seq![stem].push(none) =~= seq![stem, none]);
    law_joined_texts_follow_each_other(seq![stem], none, ".Platform"@);
    law_joined_texts_follow_each_other(seq![stem], stem, ".Platform"@);
    assert(join(split_by(s, ".Sdk"@), ".Platform"@) =~= p);
    if runtime_ids(used).contains(p) {
        let i = choose|i: int| 0 <= i < runtime_ids(used).len() && runtime_ids(used)[i] == p;
        assert(split(used[i], '/')[0] == p);
    }
    if exists|i: int| 0 <= i < used.len() && split(#[trigger] used[i], '/')[0] == p {
        let i = choose|i: int| 0 <= i < used.len() && split(#[trigger] used[i], '/')[0] == p;
        assert(runtime_ids(used)[i] == p);
    }
}

proof fn lemma_whole(s: Seq<char>, p: Seq<char>)
    requires
        p.len() > 0,
        s.len() == 0,
    ensures
        split_by(s, p) == seq![s],
{
}

proof fn lemma_three_parts(id: Seq<char>, arch: Seq<char>, branch: Seq<char>)
    requires
        !id.contains('/'),
        !arch.contains('/'),
        !branch.contains('/'),
    ensures
        split(id + (seq!['/'] + arch + seq!['/'] + branch), '/') == seq![id, arch, branch],
{
    law_parts_are_cut_at_separators(id, '/', arch + seq!['/'] + branch);
    law_parts_are_cut_at_separators(arch, '/', branch);
    law_parts_are_cut_at_separators(branch, '/', branch);
    assert(id + seq!['/'] + (arch + seq!['/'] + branch) =~= id + (seq!['/'] + arch + seq!['/'] + branch));
    assert(seq![id] + (seq![arch] + seq![branch]) =~= seq![id, arch, branch]);
}

/// Every unused runtime is uninstalled, by name, and nothing else is.
pub proof fn law_every_unused_runtime_is_uninstalled(
    apps: Seq<char>,
    runtimes: Seq<char>,
    installations: Seq<Seq<u8>>,
    sizes: Seq<Option<u64>>,
    r: Seq<char>,
)
    requires
        lines(runtimes).len() <= usize::MAX,
    ensures
        ({
            let refs = unused_refs(apps, runtimes);
            let found = flatpak_found(refs, installations, sizes);
            &&& refs.contains(r) <==> runtime_unused(r, used_runtimes(lines(apps))) && exists|i: int|
                0 <= i < lines(runtimes).len() && r == trim(#[trigger] lines(runtimes)[i])
            &&& found.len() <= 1
            &&& found.len() == 1 <==> refs.len() > 0
            &&& found.len() == 1 ==> {
                let f = found[0];
                &&& f.id == "flatpak-unused"@ && f.category == "Flatpak"@
                &&& f.risk == Risk::Moderate
                &&& f.needs_root
                &&& f.action == ActionView::Shell {
                    command: "sudo flatpak uninstall --system -y --noninteractive "@ + join(
                        Seq::new(refs.len(), |i: int| quoted(refs[i])),
                        " "@,
                    ),
                }
            }
        }),
{
    let used = used_runtimes(lines(apps));
    let list = unused_among(lines(runtimes), used);
    let refs = unused_refs(apps, runtimes);
    lemma_unused_among(lines(runtimes), used, r);
    law_sorted_names_are_the_same_names(list, r);
    lemma_unused_listed(lines(runtimes), used, r);
    assert(text_words(refs) =~= Seq::new(refs.len(), |i: int| quoted(refs[i])));
}

proof fn lemma_unused_listed(list: Seq<Seq<char>>, used: Seq<Seq<char>>, r: Seq<char>)
    ensures
        unused_among(list, used).contains(r) <==> runtime_unused(r, used) && exists|i: int|
            0 <= i < list.len() && r == trim(#[trigger] list[i]),
    decreases list.len(),
{
    if list.len() > 0 {
        let front = list.drop_last();
        lemma_unused_listed(front, used, r);
        lemma_push_contains(unused_among(front, used), trim(list.last()), r);
        if exists|i: int| 0 <= i < list.len() && r == trim(#[trigger] list[i]) {
            let i = choose|i: int| 0 <= i < list.len() && r == trim(#[trigger] list[i]);
            if i < front.len() {
                assert(r == trim(front[i]));
            }
        }
        if exists|i: int| 0 <= i < front.len() && r == trim(#[trigger] front[i]) {
            let i = choose|i: int| 0 <= i < front.len() && r == trim(#[trigger] front[i]);
            assert(r == trim(list[i]));
        }
        if r == trim(list.last()) {
            assert(r == trim(list[list.len() - 1]));
        }
    }
}

/// A runtime lies in each installation under `runtime`, by its full name.
pub proof fn law_runtimes_lie_under_their_installation(refs: Seq<Seq<char>>, installations: Seq<Seq<u8>>, k: int, i: int)
    requires
        0 <= k < refs.len(),
        0 <= i < installations.len(),
    ensures
        runtime_places(refs, installations).contains(
            join_bytes(join_bytes(installations[i], encode_utf8("runtime"@)), encode_utf8(refs[k])),
        ),
        runtime_places(refs, installations).len() == refs.len() * installations.len(),
    decreases refs.len(),
{
    let front = refs.drop_last();
    let a = runtime_places(front, installations);
    let b = Seq::new(installations.len(), |j: int| runtime_place(installations[j], refs.last()));
    let p = runtime_place(installations[i], refs[k]);
    lemma_place_count(refs, installations);
    if k < refs.len() - 1 {
        law_runtimes_lie_under_their_installation(front, installations, k, i);
        let w = choose|w: int| 0 <= w < a.len() && a[w] == p;
        assert((a + b)[w] == p);
    } else {
        assert((a + b)[a.len() + i] == p);
    }
}

proof fn lemma_place_count(refs: Seq<Seq<char>>, installations: Seq<Seq<u8>>)
    ensures
        runtime_places(refs, installations).len() == refs.len() * installations.len(),
    decreases refs.len(),
{
    let n = installations.len();
    if refs.len() > 0 {
        lemma_place_count(refs.drop_last(), installations);
        let m = refs.len();
        assert((m - 1) * n + n == m * n) by (nonlinear_arith);
    } else {
        assert(0 * n == 0) by (nonlinear_arith);
    }
}

/// A cache that only root can read is told in a note; one that is not there is
/// left at that.
pub proof fn law_unreadable_caches_are_noted(cache: FsPath, denied: CheckOutput, missing: CheckOutput)
    requires
        call_ensures(snapd_orphan_findings, (&cache, &CacheListing::Denied), denied),
        call_ensures(snapd_orphan_findings, (&cache, &CacheListing::Missing), missing),
    ensures
        denied.findings@.len() == 0,
        texts(denied.notes@) == seq![
            "snapd's download cache (/var/lib/snapd/cache) is readable only by root: run with sudo to check it for orphaned snap files (often 1 GB or more)."@,
        ],
        missing.findings@.len() == 0 && missing.notes@.len() == 0,
{
}

/// A name with the extension `deb`.
pub open spec fn has_deb_extension(n: Seq<u8>) -> bool {
    n.len() > 4 && n.skip(n.len() - 4) == seq![46u8, 100u8, 101u8, 98u8]
}

/// The archives that a title counts are the files with the extension `deb`.
pub proof fn law_archives_are_counted(list: Seq<LogEntry>, suffix: Seq<char>, i: int)
    requires
        0 <= i < list.len(),
    ensures
        list[i].is_file && ends(lossy_text(list[i].name@), suffix) && has_deb_extension(list[i].name@) ==> debs_ending(list, suffix)
            == debs_ending(list.remove(i), suffix) + 1,
        !(list[i].is_file && ends(lossy_text(list[i].name@), suffix) && has_deb_extension(list[i].name@)) ==> debs_ending(list, suffix)
            == debs_ending(list.remove(i), suffix),
    decreases list.len(),
{
    lemma_deb_name(list[i].name@);
    if i < list.len() - 1 {
        law_archives_are_counted(list.drop_last(), suffix, i);
        assert(list.remove(i).drop_last() =~= list.drop_last().remove(i));
        assert(list.remove(i).last() == list.last());
    } else {
        assert(list.remove(i) =~= list.drop_last());
    }
}

proof fn lemma_deb_name(n: Seq<u8>)
    ensures
        deb_name(n) == has_deb_extension(n),
{
    if n.len() > 4 {
        let t = n.skip(n.len() - 4);
        assert(t[0] == n[n.len() - 4] && t[1] == n[n.len() - 3] && t[2] == n[n.len() - 2] && t[3] == n[n.len() - 1]);
        if deb_name(n) {
            assert(t =~= seq![46u8, 100u8, 101u8, 98u8]);
        }
    }
}

/// The titles tell how much a finding is about.
pub proof fn law_package_titles_count(
    apt: Seq<u8>,
    archives: Seq<u8>,
    l: AptListings,
    cache: Seq<u8>,
    list: Seq<CacheEntry>,
    pkgs: Seq<Seq<char>>,
    bytes: u64,
    installations: Seq<Seq<u8>>,
    sizes: Seq<Option<u64>>,
)
    ensures
        apt_finding(apt, archives, l).title == "APT cache ("@ + digits(
            debs_ending(l.archives@, ".deb"@) + debs_ending(l.partial@, ""@),
        ) + " .deb archives, "@ + size_text(measured_bytes(apt_debs(archives, l)) as u64) + ")"@,
        orphans_found(cache, list).len() > 0 ==> orphans_found(cache, list)[0].title == "Orphaned snapd download cache ("@ + digits(
            orphans(cache, list).len(),
        ) + " files)"@,
        orphaned_finding(pkgs, bytes).title == "Orphaned packages ("@ + digits(pkgs.len()) + ")"@,
        orphaned_finding(pkgs, bytes).bytes == bytes,
        pkgs.len() > 0 ==> flatpak_found(pkgs, installations, sizes)[0].title == "Unused Flatpak runtimes ("@ + digits(pkgs.len()) + ")"@,
        pkgs.len() > 0 ==> flatpak_found(pkgs, installations, sizes)[0].bytes == found_bytes(
            sizes,
            runtime_places(pkgs, installations).len() as int,
        ) as u64,
        pkgs.len() > 0 ==> flatpak_found(pkgs, installations, sizes)[0].paths == found_paths(runtime_places(pkgs, installations), sizes),
{
}

/// Package lists that apt rebuilds by itself are listed, but not counted.
pub proof fn law_rebuilt_lists_are_not_counted(apt: Seq<u8>, archives: Seq<u8>, l: AptListings)
    ensures
        apt_finding(apt, archives, l).bytes == measured_bytes(apt_debs(archives, l)) as u64,
        apt_finding(apt, archives, l).paths == measured_paths(apt_debs(archives, l) + files_ending(apt, l.cache@, ".bin"@)),
{
}

} // verus!
