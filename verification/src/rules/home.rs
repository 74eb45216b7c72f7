//! Trash on other drives, and what editors leave behind in the home folder.

use vstd::prelude::*;
use vstd::utf8::encode_utf8;

use crate::cleanup::{mount_points, parse_mountinfo};
use crate::json::{json_in, json_view, members_view, read_json, Json, JsonView};
use crate::names::{digit_from, find_digit, nums_precede, num_lt, lemma_num_lt, version, version_key};
use crate::order::{lemma_lex_irreflexive, lemma_lex_total, lemma_lex_transitive, lex, total_of};
use crate::path::{
    bytes_of, comp_lt, comps, comps_precede, inside, join_bytes, lemma_comp_lt, lemma_join_comps, lossy_text, names_view,
    paths_view, path_before, plain_name, same_path, utf8_lossy, FsPath,
};
use crate::rules::dirs::Dirs;
use crate::rules::kernels::{
    found_bytes, found_paths, law_found_is_what_has_a_size, lemma_found_among, lemma_push_contains,
};
use crate::rules::measure::{
    by_path, contents_finding, contents_view, keep_found, law_sorted_paths_are_the_same_paths, lemma_by_path_among, opt_seq, push_opt, sort_paths, words, WordsView,
};
use crate::rules::{copy_paths, finding_views, Action, ActionView, Finding, FindingView, Risk};
use crate::text::{chars_of, decimal, digit, digits, is_digit, law_digits_read_back, lines, slice, string_of};
use crate::util::{euid, euid_in, opt_text};

verus! {

/// Drives whose Trash is looked at: not the root file system (that of the home
/// folder is in the home folder), nor what is no drive.
pub open spec fn other_drive(m: Seq<u8>, snap: Seq<u8>) -> bool {
    &&& !same_path(m, encode_utf8("/"@))
    &&& !inside(m, encode_utf8("/proc"@))
    &&& !inside(m, encode_utf8("/sys"@))
    &&& !inside(m, encode_utf8("/dev"@))
    &&& !inside(m, encode_utf8("/run/user"@))
    &&& !inside(m, snap)
}

/// The Trash folders of a user on a drive.
pub open spec fn trash_on(m: Seq<u8>, uid: u32) -> Seq<Seq<u8>> {
    let a = join_bytes(m, encode_utf8(".Trash-"@ + digits(uid as nat)));
    let b = join_bytes(join_bytes(m, encode_utf8(".Trash"@)), encode_utf8(digits(uid as nat)));
    seq![
        join_bytes(a, encode_utf8("files"@)),
        join_bytes(a, encode_utf8("info"@)),
        join_bytes(b, encode_utf8("files"@)),
        join_bytes(b, encode_utf8("info"@)),
    ]
}

pub open spec fn trash_places(mounts: Seq<Seq<u8>>, uid: u32, snap: Seq<u8>) -> Seq<Seq<u8>>
    decreases mounts.len(),
{
    if mounts.len() == 0 {
        Seq::empty()
    } else {
        trash_places(mounts.drop_last(), uid, snap) + if other_drive(mounts.last(), snap) {
            trash_on(mounts.last(), uid)
        } else {
            Seq::empty()
        }
    }
}

/// `list` with each run of the same path reduced to the first of it.
pub open spec fn without_repeats(list: Seq<Seq<u8>>) -> Seq<Seq<u8>>
    decreases list.len(),
{
    if list.len() == 0 {
        Seq::empty()
    } else {
        let rest = without_repeats(list.drop_last());
        if list.len() > 1 && same_path(list[list.len() - 2], list.last()) {
            rest
        } else {
            rest.push(list.last())
        }
    }
}

/// The Trash folders that a user may have on other drives, sorted, each once.
pub open spec fn other_trash(mountinfo: Seq<char>, uid: u32, snap: Seq<u8>) -> Seq<Seq<u8>> {
    without_repeats(by_path(trash_places(mount_points(lines(mountinfo)), uid, snap)))
}

/// Trash folders that may be on other mounted drives (`<mount>/.Trash-<uid>`),
/// sorted, each once.
pub fn other_trash_places(mountinfo: &str, uid: u32, snap_mount: &FsPath) -> (r: Vec<FsPath>)
    ensures
        paths_view(r@) == other_trash(mountinfo@, uid, snap_mount@),
{
    let mounts = parse_mountinfo(mountinfo);
    let ghost mv = paths_view(mounts@);
    let id = decimal(uid as u64);
    let mut dirs: Vec<FsPath> = Vec::new();
    assert(paths_view(dirs@) =~= Seq::empty());
    for i in 0..mounts.len()
        invariant
            mv == paths_view(mounts@),
            id@ == digits(uid as nat),
            paths_view(dirs@) == trash_places(mv.take(i as int), uid, snap_mount@),
    {
        let m = &mounts[i];
        let ghost start = paths_view(dirs@);
        proof {
            assert(mv.take(i + 1).drop_last() =~= mv.take(i as int));
            assert(start + Seq::<Seq<u8>>::empty() =~= start);
        }
        if !(m.is("/") || m.starts_with(&FsPath::new("/proc")) || m.starts_with(&FsPath::new("/sys")) || m.starts_with(
            &FsPath::new("/dev"),
        ) || m.starts_with(&FsPath::new("/run/user")) || m.starts_with(snap_mount)) {
            let a = m.join_str(".Trash-".to_owned().concat(id.as_str()).as_str());
            let b = m.join_str(".Trash").join_str(id.as_str());
            dirs.push(a.join_str("files"));
            dirs.push(a.join_str("info"));
            dirs.push(b.join_str("files"));
            dirs.push(b.join_str("info"));
            assert(paths_view(dirs@) =~= start + trash_on(m@, uid));
        }
    }
    assert(mv.take(mounts@.len() as int) =~= mv);
    let sorted = sort_paths(&dirs);
    let ghost all = paths_view(sorted@);
    let mut out: Vec<FsPath> = Vec::new();
    assert(paths_view(out@) =~= Seq::empty());
    for i in 0..sorted.len()
        invariant
            all == paths_view(sorted@),
            paths_view(out@) == without_repeats(all.take(i as int)),
    {
        proof {
            assert(all.take(i + 1).drop_last() =~= all.take(i as int));
        }
        if i == 0 || !sorted[i - 1].same(&sorted[i]) {
            let ghost before = out@;
            let p = sorted[i].clone();
            out.push(p);
            assert(paths_view(out@) =~= paths_view(before).push(p@));
        }
    }
    assert(all.take(sorted@.len() as int) =~= all);
    out
}

pub open spec fn trash_words() -> WordsView {
    WordsView {
        id: "trash-other-drives"@,
        category: "User files"@,
        title: "Trash on other drives"@,
        risk: Risk::Moderate,
        detail: "Files you deleted from other drives (USB disks, second partitions) sit in that drive's own Trash. Emptying it is permanent."@,
    }
}

/// The finding about Trash on other drives, as far as it was found.
pub open spec fn other_trash_view(home: Seq<u8>, mountinfo: Seq<char>, uid: u32, snap: Seq<u8>, sizes: Seq<Option<u64>>) -> Option<
    FindingView,
> {
    let places = other_trash(mountinfo, uid, snap);
    contents_view(home, trash_words(), found_paths(places, sizes), found_bytes(sizes, places.len() as int) as u64, None)
}

/// The finding about Trash on other drives: `sizes` are the bytes in each place
/// where it may be (see `other_trash_places`) that is a folder.
pub fn other_trash_findings(home: &FsPath, mountinfo: &str, uid: u32, snap_mount: &FsPath, sizes: &Vec<Option<u64>>) -> (r: Vec<Finding>)
    requires
        sizes@.len() == other_trash(mountinfo@, uid, snap_mount@).len(),
        found_bytes(sizes@, sizes@.len() as int) <= u64::MAX,
    ensures
        finding_views(r@) == opt_seq(other_trash_view(home@, mountinfo@, uid, snap_mount@, sizes@)),
{
    let places = other_trash_places(mountinfo, uid, snap_mount);
    assert(paths_view(places@).len() == places@.len());
    let (dirs, bytes) = keep_found(&places, sizes);
    let w = words(
        "trash-other-drives",
        "User files",
        "Trash on other drives",
        Risk::Moderate,
        "Files you deleted from other drives (USB disks, second partitions) sit in that drive's own Trash. Emptying it is permanent.",
    );
    let mut out: Vec<Finding> = Vec::new();
    push_opt(&mut out, contents_finding(home, w, dirs, bytes, None));
    out
}

proof fn lemma_trash_places(mounts: Seq<Seq<u8>>, uid: u32, snap: Seq<u8>, p: Seq<u8>)
    requires
        trash_places(mounts, uid, snap).contains(p),
    ensures
        exists|i: int| 0 <= i < mounts.len() && other_drive(#[trigger] mounts[i], snap) && trash_on(mounts[i], uid).contains(p),
    decreases mounts.len(),
{
    if mounts.len() > 0 {
        let front = mounts.drop_last();
        let rest = trash_places(front, uid, snap);
        let all = trash_places(mounts, uid, snap);
        let w = choose|w: int| 0 <= w < all.len() && all[w] == p;
        if w < rest.len() {
            assert(rest[w] == p);
            lemma_trash_places(front, uid, snap, p);
            let i = choose|i: int|
                0 <= i < front.len() && other_drive(#[trigger] front[i], snap) && trash_on(front[i], uid).contains(p);
            assert(mounts[i] == front[i]);
        } else {
            assert(trash_on(mounts.last(), uid)[w - rest.len()] == p);
            assert(mounts[mounts.len() - 1] == mounts.last());
        }
    }
}

proof fn lemma_repeats_among(list: Seq<Seq<u8>>, p: Seq<u8>)
    requires
        without_repeats(list).contains(p),
    ensures
        list.contains(p),
    decreases list.len(),
{
    if list.len() > 0 {
        let rest = without_repeats(list.drop_last());
        lemma_push_contains(rest, list.last(), p);
        assert(list =~= list.drop_last().push(list.last()));
        lemma_push_contains(list.drop_last(), list.last(), p);
        if rest.contains(p) {
            lemma_repeats_among(list.drop_last(), p);
        }
    }
}

/// Whatever is emptied is a Trash folder of that user on a drive other than the
/// one of the home folder, and the folder itself stays.
pub proof fn law_only_trash_is_emptied(home: Seq<u8>, mountinfo: Seq<char>, uid: u32, snap: Seq<u8>, sizes: Seq<Option<u64>>, p: Seq<u8>)
    requires
        trash_places(mount_points(lines(mountinfo)), uid, snap).len() <= usize::MAX,
        other_trash_view(home, mountinfo, uid, snap, sizes) matches Some(f) && f.paths.contains(p),
    ensures
        ({
            let mounts = mount_points(lines(mountinfo));
            exists|i: int| 0 <= i < mounts.len() && other_drive(#[trigger] mounts[i], snap) && trash_on(mounts[i], uid).contains(p)
        }),
        other_trash_view(home, mountinfo, uid, snap, sizes) matches Some(f) && f.action == (ActionView::Remove {
            paths: f.paths,
            keep_dir: true,
        }),
{
    let all = trash_places(mount_points(lines(mountinfo)), uid, snap);
    lemma_found_among(other_trash(mountinfo, uid, snap), sizes, p);
    lemma_repeats_among(by_path(all), p);
    lemma_by_path_among(all, p);
    lemma_trash_places(mount_points(lines(mountinfo)), uid, snap, p);
}

/// Whose Trash it is: behind `sudo`, that of the user who ran it.
pub open spec fn trash_owner(root: bool, sudo_uid: Option<Seq<char>>, status: Option<Seq<char>>) -> u32 {
    let given = match sudo_uid {
        Some(u) => crate::text::number(u, u32::MAX as nat),
        None => None,
    };
    match given {
        Some(n) => if root {
            n as u32
        } else {
            euid_in(status)
        },
        None => euid_in(status),
    }
}

/// Whose Trash to look for: `sudo_uid` is SUDO_UID, `status` the text of
/// /proc/self/status.
pub fn trash_uid(root: bool, sudo_uid: Option<&str>, status: Option<&str>) -> (r: u32)
    ensures
        r == trash_owner(root, opt_text(sudo_uid), opt_text(status)),
{
    if let Some(u) = sudo_uid {
        if let Some(n) = crate::text::parse_u64(&chars_of(u)) {
            if root && n <= u32::MAX as u64 {
                return n as u32;
            }
        }
    }
    euid(status)
}

/// The names in `m` that are marked true and are a plain directory name:
/// nothing that could escape the folder they are in.
pub open spec fn marked_names(m: Seq<(Seq<char>, JsonView)>) -> Seq<Seq<char>>
    decreases m.len(),
{
    if m.len() == 0 {
        Seq::empty()
    } else {
        let rest = marked_names(m.drop_last());
        if m.last().1 == JsonView::Bool(true) && plain_name(encode_utf8(m.last().0)) {
            rest.push(m.last().0)
        } else {
            rest
        }
    }
}

/// The names that an `.obsolete` file marks.
pub open spec fn obsolete_names(j: JsonView) -> Seq<Seq<char>> {
    match j {
        JsonView::Object(m) => marked_names(m),
        _ => Seq::empty(),
    }
}

fn is_plain_name(n: &Vec<u8>) -> (r: bool)
    ensures
        r == plain_name(n@),
{
    for i in 0..n.len()
        invariant
            forall|j: int| 0 <= j < i ==> n@[j] != 47,
    {
        if n[i] == 47u8 {
            return false;
        }
    }
    let one = n.len() == 1 && n[0] == 46u8;
    let two = n.len() == 2 && n[0] == 46u8 && n[1] == 46u8;
    assert(one == (n@ =~= seq![46u8]));
    assert(two == (n@ =~= seq![46u8, 46u8]));
    n.len() > 0 && !one && !two
}

/// The names below a folder.
pub open spec fn below_root(root: Seq<u8>, names: Seq<Seq<char>>) -> Seq<Seq<u8>> {
    Seq::new(names.len(), |i: int| join_bytes(root, encode_utf8(names[i])))
}

/// The folders below `root` that the value of an `.obsolete` file marks.
pub fn obsolete_listed(root: &FsPath, marks: &Json) -> (r: Vec<FsPath>)
    ensures
        paths_view(r@) == by_path(below_root(root@, obsolete_names(marks@))),
{
    let mut out: Vec<FsPath> = Vec::new();
    assert(paths_view(out@) =~= below_root(root@, Seq::empty()));
    if let Json::Object(m) = marks {
        assert(members_view(m@.take(0)) =~= Seq::empty());
        for i in 0..m.len()
            invariant
                paths_view(out@) == below_root(root@, marked_names(members_view(m@.take(i as int)))),
        {
            proof {
                assert(m@.take(i + 1).drop_last() =~= m@.take(i as int));
                let (a, x) = (members_view(m@.take(i as int)), m@[i as int]);
                assert(a.push((x.0@, json_view(x.1))).drop_last() =~= a);
            }
            let on = match &m[i].1 {
                Json::Bool(b) => *b,
                _ => false,
            };
            if on && is_plain_name(&bytes_of(m[i].0.as_str())) {
                let ghost before = out@;
                let p = root.join_str(m[i].0.as_str());
                out.push(p);
                assert(paths_view(out@) =~= paths_view(before).push(p@));
                assert(paths_view(out@) =~= below_root(root@, marked_names(members_view(m@.take(i + 1)))));
            }
        }
        assert(m@.take(m@.len() as int) =~= m@);
    }
    sort_paths(&out)
}

/// The folders below `root` that its `.obsolete` file, a JSON object of
/// directory name and true, marks.
pub open spec fn obsolete_in(root: Seq<u8>, text: Seq<char>) -> Seq<Seq<u8>> {
    match json_in(encode_utf8(text)) {
        Ok(j) => by_path(below_root(root, obsolete_names(j))),
        Err(_) => Seq::empty(),
    }
}

/// Extension folders below `root` that the text of its `.obsolete` file marks.
pub fn obsolete_extensions(root: &FsPath, text: &str) -> (r: Vec<FsPath>)
    ensures
        paths_view(r@) == obsolete_in(root@, text@),
{
    match read_json(&bytes_of(text)) {
        Ok(j) => obsolete_listed(root, &j),
        Err(_) => {
            let out: Vec<FsPath> = Vec::new();
            assert(paths_view(out@) =~= Seq::empty());
            out
        },
    }
}

/// Whatever an `.obsolete` file says, a folder that it marks lies directly in
/// the folder with the extensions.
pub proof fn law_obsolete_folders_stay_inside(root: Seq<u8>, j: JsonView, i: int)
    requires
        0 <= i < obsolete_names(j).len(),
    ensures
        ({
            let p = below_root(root, obsolete_names(j))[i];
            comps(p) == comps(root).push(encode_utf8(obsolete_names(j)[i])) && inside(p, root)
        }),
{
    let n = encode_utf8(obsolete_names(j)[i]);
    if let JsonView::Object(m) = j {
        lemma_marked_plain(m, i);
    }
    lemma_join_comps(root, n);
    assert(comps(root).push(n).take(comps(root).len() as int) =~= comps(root));
}

proof fn lemma_marked_plain(m: Seq<(Seq<char>, JsonView)>, i: int)
    requires
        0 <= i < marked_names(m).len(),
    ensures
        plain_name(encode_utf8(marked_names(m)[i])),
    decreases m.len(),
{
    if m.len() > 0 {
        let rest = marked_names(m.drop_last());
        if i < rest.len() {
            lemma_marked_plain(m.drop_last(), i);
        }
    }
}

/// Where VS Code-family editors keep their extensions.
pub open spec fn extension_places(home: Seq<u8>) -> Seq<Seq<u8>> {
    seq![
        join_bytes(home, encode_utf8(".vscode/extensions"@)),
        join_bytes(home, encode_utf8(".vscode-oss/extensions"@)),
        join_bytes(home, encode_utf8(".cursor/extensions"@)),
        join_bytes(home, encode_utf8(".windsurf/extensions"@)),
        join_bytes(home, encode_utf8(".vscode-server/extensions"@)),
    ]
}

/// Where VS Code-family editors keep their extensions.
pub fn extension_roots(home: &FsPath) -> (r: Vec<FsPath>)
    ensures
        paths_view(r@) == extension_places(home@),
        r@.len() == 5,
{
    let out: Vec<FsPath> = vec![
        home.join_str(".vscode/extensions"),
        home.join_str(".vscode-oss/extensions"),
        home.join_str(".cursor/extensions"),
        home.join_str(".windsurf/extensions"),
        home.join_str(".vscode-server/extensions"),
    ];
    assert(paths_view(out@) =~= extension_places(home@));
    out
}

/// The folders that the `.obsolete` files of the first `k` roots mark; `None`
/// for a file that could not be read.
pub open spec fn marked_below(roots: Seq<Seq<u8>>, files: Seq<Option<String>>, k: int) -> Seq<Seq<u8>>
    decreases k,
{
    if k <= 0 {
        Seq::empty()
    } else {
        let rest = marked_below(roots, files, k - 1);
        match files[k - 1] {
            Some(text) => rest + obsolete_in(roots[k - 1], text@),
            None => rest,
        }
    }
}

/// The extension folders that the editors have marked: `files` are the texts of
/// the `.obsolete` files in `extension_roots`, as far as they could be read.
pub fn marked_extensions(home: &FsPath, files: &Vec<Option<String>>) -> (r: Vec<FsPath>)
    requires
        files@.len() == 5,
    ensures
        paths_view(r@) == marked_below(extension_places(home@), files@, 5),
{
    let roots = extension_roots(home);
    let ghost rv = paths_view(roots@);
    let mut out: Vec<FsPath> = Vec::new();
    assert(paths_view(out@) =~= Seq::empty());
    for i in 0..roots.len()
        invariant
            roots@.len() == 5,
            files@.len() == 5,
            rv == paths_view(roots@),
            paths_view(out@) == marked_below(rv, files@, i as int),
    {
        if let Some(text) = &files[i] {
            let ghost before = out@;
            let mut more = obsolete_extensions(&roots[i], text.as_str());
            let ghost own = paths_view(more@);
            out.append(&mut more);
            assert(paths_view(out@) =~= paths_view(before) + own);
        }
    }
    out
}

/// A finding that removes folders as a whole; none without a folder.
pub open spec fn removal_found(id: Seq<char>, title: Seq<char>, detail: Seq<char>, dirs: Seq<Seq<u8>>, bytes: u64) -> Seq<
    FindingView,
> {
    if dirs.len() == 0 {
        Seq::empty()
    } else {
        seq![
            FindingView {
                id,
                category: "Editor"@,
                title: title + " ("@ + digits(dirs.len()) + ")"@,
                risk: Risk::Safe,
                bytes,
                detail,
                paths: dirs,
                action: ActionView::Remove { paths: dirs, keep_dir: false },
                needs_root: false,
            },
        ]
    }
}

fn removal_findings(id: &str, title: &str, detail: &str, dirs: Vec<FsPath>, bytes: u64) -> (r: Vec<Finding>)
    ensures
        finding_views(r@) == removal_found(id@, title@, detail@, paths_view(dirs@), bytes),
{
    let mut out: Vec<Finding> = Vec::new();
    assert(paths_view(dirs@).len() == dirs@.len());
    if dirs.len() == 0 {
        assert(finding_views(out@) =~= Seq::empty());
        return out;
    }
    let f = Finding {
        id: id.to_owned(),
        category: "Editor".to_owned(),
        title: title.to_owned().concat(" (").concat(decimal(dirs.len() as u64).as_str()).concat(")"),
        risk: Risk::Safe,
        bytes,
        detail: detail.to_owned(),
        action: Action::Remove { paths: copy_paths(&dirs), keep_dir: false },
        paths: dirs,
        needs_root: false,
    };
    out.push(f);
    assert(finding_views(out@) =~= seq![f@]);
    out
}

/// The finding about obsolete extension versions, as far as they were found.
pub open spec fn obsolete_found(home: Seq<u8>, files: Seq<Option<String>>, sizes: Seq<Option<u64>>) -> Seq<FindingView> {
    let marked = marked_below(extension_places(home), files, 5);
    removal_found(
        "obsolete-extensions"@,
        "Obsolete editor extension versions"@,
        "Old extension versions the editor itself has marked obsolete (listed in extensions/.obsolete) after an update. The editor would delete them on a later start."@,
        found_paths(marked, sizes),
        found_bytes(sizes, marked.len() as int) as u64,
    )
}

/// Editor extension versions that VS Code-family editors have marked obsolete in
/// the `.obsolete` files with the texts `files`: `sizes` are the bytes of each
/// folder they mark (see `marked_extensions`) that is a real directory.
pub fn obsolete_extension_findings(home: &FsPath, files: &Vec<Option<String>>, sizes: &Vec<Option<u64>>) -> (r: Vec<Finding>)
    requires
        files@.len() == 5,
        sizes@.len() == marked_below(extension_places(home@), files@, 5).len(),
        found_bytes(sizes@, sizes@.len() as int) <= u64::MAX,
    ensures
        finding_views(r@) == obsolete_found(home@, files@, sizes@),
{
    let marked = marked_extensions(home, files);
    assert(paths_view(marked@).len() == marked@.len());
    let (dirs, bytes) = keep_found(&marked, sizes);
    removal_findings(
        "obsolete-extensions",
        "Obsolete editor extension versions",
        "Old extension versions the editor itself has marked obsolete (listed in extensions/.obsolete) after an update. The editor would delete them on a later start.",
        dirs,
        bytes,
    )
}

/// The names that the text of an `.obsolete` file marks.
pub open spec fn marks_of(text: Seq<char>) -> Seq<Seq<char>> {
    match json_in(encode_utf8(text)) {
        Ok(j) => obsolete_names(j),
        Err(_) => Seq::empty(),
    }
}

/// `p` lies directly in the extension folder `root` and has a name that the
/// text of its `.obsolete` file marks.
pub open spec fn marked_in(root: Seq<u8>, text: Seq<char>, p: Seq<u8>) -> bool {
    exists|n: int| 0 <= n < marks_of(text).len() && comps(p) == comps(root).push(encode_utf8(#[trigger] marks_of(text)[n]))
}

proof fn lemma_marked_below(roots: Seq<Seq<u8>>, files: Seq<Option<String>>, k: int, p: Seq<u8>)
    requires
        k <= files.len(),
        forall|i: int| 0 <= i < files.len() && (#[trigger] files[i]) is Some ==> marks_of(files[i]->0@).len() <= usize::MAX,
        marked_below(roots, files, k).contains(p),
    ensures
        exists|i: int| 0 <= i < k && (#[trigger] files[i]) is Some && marked_in(roots[i], files[i]->0@, p),
    decreases k,
{
    let rest = marked_below(roots, files, k - 1);
    let all = marked_below(roots, files, k);
    if rest.contains(p) {
        lemma_marked_below(roots, files, k - 1, p);
    } else {
        let text = files[k - 1]->0@;
        let own = obsolete_in(roots[k - 1], text);
        let w = choose|w: int| 0 <= w < all.len() && all[w] == p;
        if w < rest.len() {
            assert(rest[w] == p);
        }
        assert(own[w - rest.len()] == p);
        let j = json_in(encode_utf8(text))->Ok_0;
        let list = below_root(roots[k - 1], obsolete_names(j));
        lemma_by_path_among(list, p);
        let n = choose|n: int| 0 <= n < list.len() && list[n] == p;
        law_obsolete_folders_stay_inside(roots[k - 1], j, n);
        assert(comps(p) == comps(roots[k - 1]).push(encode_utf8(marks_of(text)[n])));
        assert(files[k - 1] is Some && marked_in(roots[k - 1], text, p));
    }
}

/// Whatever is removed lies directly in a folder where an editor keeps its
/// extensions, and the `.obsolete` file there marks it.
pub proof fn law_only_marked_extensions_are_removed(home: Seq<u8>, files: Seq<Option<String>>, sizes: Seq<Option<u64>>, p: Seq<u8>)
    requires
        files.len() == 5,
        forall|i: int| 0 <= i < files.len() && (#[trigger] files[i]) is Some ==> marks_of(files[i]->0@).len() <= usize::MAX,
        obsolete_found(home, files, sizes).len() > 0,
        obsolete_found(home, files, sizes)[0].paths.contains(p),
    ensures
        exists|i: int|
            0 <= i < files.len() && (#[trigger] files[i]) is Some && marked_in(extension_places(home)[i], files[i]->0@, p),
        obsolete_found(home, files, sizes).len() == 1,
        obsolete_found(home, files, sizes)[0].action == (ActionView::Remove {
            paths: obsolete_found(home, files, sizes)[0].paths,
            keep_dir: false,
        }),
{
    lemma_found_among(marked_below(extension_places(home), files, 5), sizes, p);
    lemma_marked_below(extension_places(home), files, 5, p);
}

/// Digits and dots only.
pub open spec fn dotted(s: Seq<char>) -> bool {
    forall|i: int| 0 <= i < s.len() ==> is_digit(#[trigger] s[i]) || s[i] == '.'
}

/// A folder name such as "PyCharmCE2023.1" as its product and version numbers.
pub open spec fn ide_version(name: Seq<char>) -> Option<(Seq<char>, Seq<u64>)> {
    let i = digit_from(name, true, 0);
    let (product, ver) = (name.take(i), name.skip(i));
    if 0 < i < name.len() && dotted(ver) && version(ver).len() > 0 {
        Some((product, version(ver)))
    } else {
        None
    }
}

/// Split "PyCharmCE2023.1" into ("PyCharmCE", [2023, 1]).
pub fn jetbrains_version(name: &str) -> (r: Option<(String, Vec<u64>)>)
    ensures
        r is Some <==> ide_version(name@) is Some,
        r matches Some(x) ==> ide_version(name@) == Some((x.0@, x.1@)),
{
    let v = chars_of(name);
    let i = find_digit(&v, true, 0);
    if i == 0 || i >= v.len() {
        return None;
    }
    let (product, ver) = (slice(&v, 0, i), slice(&v, i, v.len()));
    assert(product@ =~= name@.take(i as int));
    assert(ver@ =~= name@.skip(i as int));
    for j in 0..ver.len()
        invariant
            0 < i < v@.len(),
            v@ == name@,
            i == digit_from(name@, true, 0),
            ver@ == name@.skip(i as int),
            forall|k: int| 0 <= k < j ==> is_digit(#[trigger] ver@[k]) || ver@[k] == '.',
    {
        if !digit(ver[j]) && ver[j] != '.' {
            assert(!(is_digit(ver@[j as int]) || ver@[j as int] == '.'));
            assert(!dotted(ver@));
            return None;
        }
    }
    let key = version_key(string_of(&ver).as_str());
    if key.len() == 0 {
        return None;
    }
    Some((string_of(&product), key))
}

/// A cache folder of an IDE: its product and version, and where it is.
#[verifier::ext_equal]
pub struct IdeView {
    pub product: Seq<char>,
    pub version: Seq<u64>,
    pub path: Seq<u8>,
}

struct Ide {
    product: String,
    version: Vec<u64>,
    path: FsPath,
    comps: Vec<Vec<u8>>,
}

impl View for Ide {
    type V = IdeView;

    closed spec fn view(&self) -> IdeView {
        IdeView { product: self.product@, version: self.version@, path: self.path@ }
    }
}

spec fn ide_views(v: Seq<Ide>) -> Seq<IdeView> {
    Seq::new(v.len(), |i: int| v[i]@)
}

/// The IDE folders among the names in a folder.
pub open spec fn ides_in(root: Seq<u8>, names: Seq<Seq<u8>>) -> Seq<IdeView>
    decreases names.len(),
{
    if names.len() == 0 {
        Seq::empty()
    } else {
        let rest = ides_in(root, names.drop_last());
        match ide_version(lossy_text(names.last())) {
            Some(x) => rest.push(IdeView { product: x.0, version: x.1, path: join_bytes(root, names.last()) }),
            None => rest,
        }
    }
}

/// Folder `i` is of an older version than folder `j` of the same product.
pub open spec fn replaced_by(list: Seq<IdeView>, i: int, j: int) -> bool {
    &&& list[i].product == list[j].product
    &&& {
        ||| lex(list[i].version, list[j].version, num_lt())
        ||| list[i].version == list[j].version && path_before(list[i].path, list[j].path)
        ||| list[i].version == list[j].version && same_path(list[i].path, list[j].path) && i < j
    }
}

/// There is a newer folder of the same product.
pub open spec fn superseded(list: Seq<IdeView>, i: int) -> bool {
    exists|j: int| 0 <= j < list.len() && #[trigger] replaced_by(list, i, j)
}

/// The superseded ones among the first `n` folders.
pub open spec fn old_ides(list: Seq<IdeView>, n: int) -> Seq<Seq<u8>>
    decreases n,
{
    if n <= 0 {
        Seq::empty()
    } else {
        let rest = old_ides(list, n - 1);
        if superseded(list, n - 1) {
            rest.push(list[n - 1].path)
        } else {
            rest
        }
    }
}

/// The newest version of each IDE stays: for every folder there is one of the
/// same product that is at least as new and is not superseded.
pub proof fn law_newest_version_stays(list: Seq<IdeView>, i: int)
    requires
        0 <= i < list.len(),
    ensures
        exists|k: int|
            0 <= k < list.len() && !#[trigger] superseded(list, k) && (k == i || replaced_by(list, i, k)),
{
    let k = lemma_newest(list, i, list.len() as int);
    assert(!superseded(list, k));
}

proof fn lemma_newest(list: Seq<IdeView>, i: int, n: int) -> (k: int)
    requires
        0 <= i < list.len(),
        0 <= n <= list.len(),
    ensures
        0 <= k < list.len(),
        k == i || replaced_by(list, i, k),
        list[k].product == list[i].product,
        forall|j: int| 0 <= j < n ==> !#[trigger] replaced_by(list, k, j),
    decreases n,
{
    lemma_num_lt();
    lemma_comp_lt();
    if n == 0 {
        i
    } else {
        let k = lemma_newest(list, i, n - 1);
        if replaced_by(list, k, n - 1) {
            if k != i {
                lemma_replaced_transitive(list, i, k, n - 1);
            }
            assert forall|j: int| 0 <= j < n implies !#[trigger] replaced_by(list, n - 1, j) by {
                if replaced_by(list, n - 1, j) {
                    lemma_replaced_transitive(list, k, n - 1, j);
                    if j == n - 1 {
                        lemma_lex_irreflexive(list[j].version, num_lt());
                        lemma_lex_irreflexive(comps(list[j].path), comp_lt());
                    }
                }
            }
            n - 1
        } else {
            k
        }
    }
}

proof fn lemma_replaced_transitive(list: Seq<IdeView>, i: int, j: int, k: int)
    requires
        replaced_by(list, i, j),
        replaced_by(list, j, k),
    ensures
        replaced_by(list, i, k),
{
    lemma_num_lt();
    lemma_comp_lt();
    let (a, b, c) = (list[i], list[j], list[k]);
    if lex(a.version, b.version, num_lt()) && lex(b.version, c.version, num_lt()) {
        lemma_lex_transitive(a.version, b.version, c.version, num_lt());
    }
    if path_before(a.path, b.path) && path_before(b.path, c.path) {
        lemma_lex_transitive(comps(a.path), comps(b.path), comps(c.path), comp_lt());
    }
}

fn list_ides(root: &FsPath, names: &Vec<Vec<u8>>) -> (r: Vec<Ide>)
    ensures
        ide_views(r@) == ides_in(root@, names_view(names@)),
        forall|i: int| 0 <= i < r@.len() ==> names_view((#[trigger] r@[i]).comps@) == comps(r@[i].path@),
{
    let ghost all = names_view(names@);
    let mut out: Vec<Ide> = Vec::new();
    assert(ide_views(out@) =~= Seq::empty());
    for i in 0..names.len()
        invariant
            all == names_view(names@),
            ide_views(out@) == ides_in(root@, all.take(i as int)),
            forall|j: int| 0 <= j < out@.len() ==> names_view((#[trigger] out@[j]).comps@) == comps(out@[j].path@),
    {
        proof {
            assert(all.take(i + 1).drop_last() =~= all.take(i as int));
            assert(all.take(i + 1).last() == names@[i as int]@);
        }
        if let Some((product, version)) = jetbrains_version(utf8_lossy(&names[i]).as_str()) {
            let ghost before = out@;
            let path = root.join_name(&names[i]);
            let c = path.components();
            let ide = Ide { product, version, path, comps: c };
            out.push(ide);
            assert(ide_views(out@) =~= ide_views(before).push(ide@));
        }
    }
    assert(all.take(names@.len() as int) =~= all);
    out
}

fn is_replaced(list: &Vec<Ide>, i: usize, j: usize) -> (r: bool)
    requires
        i < list@.len(),
        j < list@.len(),
        forall|i: int| 0 <= i < list@.len() ==> names_view((#[trigger] list@[i]).comps@) == comps(list@[i].path@),
    ensures
        r == replaced_by(ide_views(list@), i as int, j as int),
{
    let (a, b) = (&list[i], &list[j]);
    proof {
        lemma_num_lt();
        assert(names_view(list@[i as int].comps@) == comps(a.path@));
        assert(names_view(list@[j as int].comps@) == comps(b.path@));
        lemma_lex_irreflexive(a.version@, num_lt());
        if a.version@ != b.version@ {
            lemma_lex_total(a.version@, b.version@, num_lt());
        }
    }
    if a.product != b.product {
        return false;
    }
    if nums_precede(&a.version, &b.version) {
        return true;
    }
    if nums_precede(&b.version, &a.version) {
        return false;
    }
    comps_precede(&a.comps, &b.comps) || (a.path.same(&b.path) && i < j)
}

/// The caches of JetBrains IDE versions superseded by a newer install of the
/// same IDE, among the names in `root`.
pub fn jetbrains_old(root: &FsPath, names: &Vec<Vec<u8>>) -> (r: Vec<FsPath>)
    ensures
        paths_view(r@) == superseded_in(root@, names_view(names@)),
{
    let list = list_ides(root, names);
    let ghost ides = ide_views(list@);
    let mut old: Vec<FsPath> = Vec::new();
    assert(paths_view(old@) =~= Seq::empty());
    for i in 0..list.len()
        invariant
            ides == ide_views(list@),
            forall|j: int| 0 <= j < list@.len() ==> names_view((#[trigger] list@[j]).comps@) == comps(list@[j].path@),
            paths_view(old@) == old_ides(ides, i as int),
    {
        let mut found = false;
        for j in 0..list.len()
            invariant
                i < list@.len(),
                ides == ide_views(list@),
                forall|j: int| 0 <= j < list@.len() ==> names_view((#[trigger] list@[j]).comps@) == comps(list@[j].path@),
                found == exists|k: int| 0 <= k < j && #[trigger] replaced_by(ides, i as int, k),
        {
            if is_replaced(&list, i, j) {
                assert(replaced_by(ides, i as int, j as int));
                found = true;
            }
        }
        assert(found == superseded(ides, i as int));
        if found {
            let ghost before = old@;
            let p = list[i].path.clone();
            old.push(p);
            assert(ides[i as int].path == p@);
            assert(paths_view(old@) =~= paths_view(before).push(p@));
        }
    }
    assert(ides.len() == list@.len());
    sort_paths(&old)
}

pub open spec fn as_nats(v: Seq<u64>) -> Seq<nat> {
    Seq::new(v.len(), |i: int| v[i] as nat)
}

fn sum_sizes(v: &Vec<u64>) -> (r: u64)
    requires
        total_of(as_nats(v@)) <= u64::MAX,
    ensures
        r == total_of(as_nats(v@)),
{
    let ghost s = as_nats(v@);
    let mut sum: u64 = 0;
    for i in 0..v.len()
        invariant
            s == as_nats(v@),
            total_of(s) <= u64::MAX,
            sum == total_of(s.take(i as int)),
    {
        proof {
            assert(s.take(i + 1).drop_last() =~= s.take(i as int));
            crate::order::lemma_total_concat(s.take(i + 1), s.skip(i + 1));
            assert(s.take(i + 1) + s.skip(i + 1) =~= s);
        }
        sum += v[i];
    }
    assert(s.take(v@.len() as int) =~= s);
    sum
}

/// The folder with the caches of the JetBrains IDEs.
pub fn jetbrains_root(d: &Dirs) -> (r: FsPath)
    ensures
        r@ == join_bytes(d.cache@, encode_utf8("JetBrains"@)),
{
    d.cache.join_str("JetBrains")
}

/// The superseded IDE folders among the names in `root`, sorted.
pub open spec fn superseded_in(root: Seq<u8>, names: Seq<Seq<u8>>) -> Seq<Seq<u8>> {
    let ides = ides_in(root, names);
    by_path(old_ides(ides, ides.len() as int))
}

/// The finding about caches of superseded IDE versions.
pub open spec fn jetbrains_found(root: Seq<u8>, names: Seq<Seq<u8>>, sizes: Seq<u64>) -> Seq<FindingView> {
    removal_found(
        "jetbrains-old-caches"@,
        "Caches of old JetBrains IDE versions"@,
        "Index and cache folders of IDE versions that a newer version of the same IDE has replaced. The current version's cache is kept."@,
        superseded_in(root, names),
        total_of(as_nats(sizes)) as u64,
    )
}

/// Caches of JetBrains IDE versions superseded by a newer install of the same
/// IDE: `names` are those in `jetbrains_root`, `sizes` the bytes of each folder
/// that is superseded (see `jetbrains_old`).
pub fn jetbrains_findings(d: &Dirs, names: &Vec<Vec<u8>>, sizes: &Vec<u64>) -> (r: Vec<Finding>)
    requires
        sizes@.len() == superseded_in(join_bytes(d.cache@, encode_utf8("JetBrains"@)), names_view(names@)).len(),
        total_of(as_nats(sizes@)) <= u64::MAX,
    ensures
        finding_views(r@) == jetbrains_found(join_bytes(d.cache@, encode_utf8("JetBrains"@)), names_view(names@), sizes@),
{
    let old = jetbrains_old(&jetbrains_root(d), names);
    let bytes = sum_sizes(sizes);
    removal_findings(
        "jetbrains-old-caches",
        "Caches of old JetBrains IDE versions",
        "Index and cache folders of IDE versions that a newer version of the same IDE has replaced. The current version's cache is kept.",
        old,
        bytes,
    )
}

proof fn lemma_ides_len(root: Seq<u8>, names: Seq<Seq<u8>>)
    ensures
        ides_in(root, names).len() <= names.len(),
    decreases names.len(),
{
    if names.len() > 0 {
        lemma_ides_len(root, names.drop_last());
    }
}

proof fn lemma_old_ides(list: Seq<IdeView>, n: int, p: Seq<u8>)
    requires
        0 <= n,
    ensures
        old_ides(list, n).len() <= n,
        old_ides(list, n).contains(p) ==> exists|i: int| 0 <= i < n && #[trigger] superseded(list, i) && list[i].path == p,
    decreases n,
{
    if n > 0 {
        lemma_old_ides(list, n - 1, p);
        lemma_push_contains(old_ides(list, n - 1), list[n - 1].path, p);
    }
}

/// Whatever is removed is the cache of an IDE version that is superseded by
/// another one installed; so the newest of each IDE stays.
pub proof fn law_only_superseded_versions_are_removed(root: Seq<u8>, names: Seq<Seq<u8>>, sizes: Seq<u64>, p: Seq<u8>)
    requires
        names.len() <= usize::MAX,
        jetbrains_found(root, names, sizes).len() > 0,
        jetbrains_found(root, names, sizes)[0].paths.contains(p),
    ensures
        ({
            let ides = ides_in(root, names);
            exists|i: int| 0 <= i < ides.len() && #[trigger] superseded(ides, i) && ides[i].path == p
        }),
        jetbrains_found(root, names, sizes).len() == 1,
        jetbrains_found(root, names, sizes)[0].action == (ActionView::Remove {
            paths: jetbrains_found(root, names, sizes)[0].paths,
            keep_dir: false,
        }),
{
    let ides = ides_in(root, names);
    lemma_ides_len(root, names);
    lemma_old_ides(ides, ides.len() as int, p);
    lemma_by_path_among(old_ides(ides, ides.len() as int), p);
}

/// The drives whose Trash is looked at: every mount but the root file system,
/// what lies under `/proc`, `/sys`, `/dev` and `/run/user`, and the mounted
/// snaps.
pub proof fn law_other_drives(m: Seq<u8>, snap: Seq<u8>)
    ensures
        !other_drive(m, snap) <==> comps(m) == comps(encode_utf8("/"@)) || inside(m, encode_utf8("/proc"@)) || inside(
            m,
            encode_utf8("/sys"@),
        ) || inside(m, encode_utf8("/dev"@)) || inside(m, encode_utf8("/run/user"@)) || inside(m, snap),
{
}

/// Where a drive keeps a user's Trash: `.Trash-<uid>` or `.Trash/<uid>`, the
/// files and their records.
pub proof fn law_trash_folders_of_a_drive(m: Seq<u8>, uid: u32)
    ensures
        ({
            let u = digits(uid as nat);
            let t = trash_on(m, uid);
            &&& t.len() == 4
            &&& t.contains(join_bytes(join_bytes(m, encode_utf8(".Trash-"@ + u)), encode_utf8("files"@)))
            &&& t.contains(join_bytes(join_bytes(m, encode_utf8(".Trash-"@ + u)), encode_utf8("info"@)))
            &&& t.contains(join_bytes(join_bytes(join_bytes(m, encode_utf8(".Trash"@)), encode_utf8(u)), encode_utf8("files"@)))
            &&& t.contains(join_bytes(join_bytes(join_bytes(m, encode_utf8(".Trash"@)), encode_utf8(u)), encode_utf8("info"@)))
        }),
{
    let t = trash_on(m, uid);
    assert(t.contains(t[0]) && t.contains(t[1]) && t.contains(t[2]) && t.contains(t[3]));
}

proof fn lemma_trash_taken(mounts: Seq<Seq<u8>>, uid: u32, snap: Seq<u8>, i: int, p: Seq<u8>)
    requires
        0 <= i < mounts.len(),
        other_drive(mounts[i], snap),
        trash_on(mounts[i], uid).contains(p),
    ensures
        trash_places(mounts, uid, snap).contains(p),
    decreases mounts.len(),
{
    let a = trash_places(mounts.drop_last(), uid, snap);
    let b = if other_drive(mounts.last(), snap) { trash_on(mounts.last(), uid) } else { Seq::empty() };
    if i < mounts.len() - 1 {
        lemma_trash_taken(mounts.drop_last(), uid, snap, i, p);
        let w = choose|w: int| 0 <= w < a.len() && a[w] == p;
        assert((a + b)[w] == p);
    } else {
        let w = choose|w: int| 0 <= w < b.len() && b[w] == p;
        assert((a + b)[a.len() + w] == p);
    }
}

proof fn lemma_repeats_hold(list: Seq<Seq<u8>>, i: int)
    requires
        0 <= i < list.len(),
    ensures
        exists|k: int| 0 <= k < without_repeats(list).len() && comps(#[trigger] without_repeats(list)[k]) == comps(list[i]),
    decreases list.len(),
{
    let front = list.drop_last();
    let rest = without_repeats(front);
    let all = without_repeats(list);
    if i < list.len() - 1 {
        lemma_repeats_hold(front, i);
        let k = choose|k: int| 0 <= k < rest.len() && comps(#[trigger] rest[k]) == comps(front[i]);
        assert(all[k] == rest[k]);
    } else if list.len() > 1 && same_path(list[list.len() - 2], list.last()) {
        lemma_repeats_hold(front, list.len() - 2);
        let k = choose|k: int| 0 <= k < rest.len() && comps(#[trigger] rest[k]) == comps(front[list.len() - 2]);
        assert(all[k] == rest[k]);
    } else {
        assert(all[rest.len() as int] == list.last());
    }
}

/// Every Trash folder of every other drive is looked at, each once.
pub proof fn law_every_trash_is_looked_at(mountinfo: Seq<char>, uid: u32, snap: Seq<u8>, i: int, p: Seq<u8>)
    requires
        trash_places(mount_points(lines(mountinfo)), uid, snap).len() <= usize::MAX,
        0 <= i < mount_points(lines(mountinfo)).len(),
        other_drive(mount_points(lines(mountinfo))[i], snap),
        trash_on(mount_points(lines(mountinfo))[i], uid).contains(p),
    ensures
        exists|k: int|
            0 <= k < other_trash(mountinfo, uid, snap).len() && comps(#[trigger] other_trash(mountinfo, uid, snap)[k]) == comps(p),
{
    let all = trash_places(mount_points(lines(mountinfo)), uid, snap);
    lemma_trash_taken(mount_points(lines(mountinfo)), uid, snap, i, p);
    law_sorted_paths_are_the_same_paths(all, p);
    let s = by_path(all);
    let w = choose|w: int| 0 <= w < s.len() && s[w] == p;
    lemma_repeats_hold(s, w);
    let places = other_trash(mountinfo, uid, snap);
    let k = choose|k: int| 0 <= k < without_repeats(s).len() && comps(#[trigger] without_repeats(s)[k]) == comps(s[w]);
    assert(comps(places[k]) == comps(p));
}

/// A Trash folder that holds something is emptied by the finding, which asks for
/// more care than a cache does.
pub proof fn law_full_trash_is_found(home: Seq<u8>, mountinfo: Seq<char>, uid: u32, snap: Seq<u8>, sizes: Seq<Option<u64>>, i: int)
    requires
        sizes.len() == other_trash(mountinfo, uid, snap).len(),
        found_bytes(sizes, sizes.len() as int) <= u64::MAX,
        0 <= i < sizes.len(),
        sizes[i] matches Some(n) && n > 0,
    ensures
        other_trash_view(home, mountinfo, uid, snap, sizes) matches Some(f) && {
            &&& f.paths.contains(other_trash(mountinfo, uid, snap)[i])
            &&& f.bytes == found_bytes(sizes, sizes.len() as int)
            &&& f.risk == Risk::Moderate
            &&& f.id == "trash-other-drives"@ && f.category == "User files"@
            &&& f.action == (ActionView::Remove { paths: f.paths, keep_dir: true })
        },
{
    law_found_is_what_has_a_size(other_trash(mountinfo, uid, snap), sizes, i);
}

/// Behind `sudo` it is the Trash of the user who ran it; else that of the user
/// the program runs as.
pub proof fn law_whose_trash_it_is(uid: u32, status: Option<Seq<char>>)
    ensures
        trash_owner(true, Some(digits(uid as nat)), status) == uid,
        trash_owner(false, Some(digits(uid as nat)), status) == euid_in(status),
        trash_owner(true, None, status) == euid_in(status),
        trash_owner(false, None, status) == euid_in(status),
{
    law_digits_read_back(uid as nat, u32::MAX as nat);
}

/// The editor's marks: exactly the members that are `true` and name a folder.
pub proof fn law_marks_are_the_true_members(m: Seq<(Seq<char>, JsonView)>, n: Seq<char>)
    ensures
        marked_names(m).contains(n) <==> plain_name(encode_utf8(n)) && m.contains((n, JsonView::Bool(true))),
    decreases m.len(),
{
    if m.len() > 0 {
        let front = m.drop_last();
        law_marks_are_the_true_members(front, n);
        lemma_push_contains(marked_names(front), m.last().0, n);
        lemma_push_contains(front, m.last(), (n, JsonView::Bool(true)));
        assert(m =~= front.push(m.last()));
    }
}

/// The editors whose extensions are looked at.
pub proof fn law_editors_keep_their_extensions_here(home: Seq<u8>)
    ensures
        extension_places(home) == seq![
            ".vscode/extensions"@,
            ".vscode-oss/extensions"@,
            ".cursor/extensions"@,
            ".windsurf/extensions"@,
            ".vscode-server/extensions"@,
        ].map_values(|t: Seq<char>| join_bytes(home, encode_utf8(t))),
{
    assert(extension_places(home) =~= seq![
        ".vscode/extensions"@,
        ".vscode-oss/extensions"@,
        ".cursor/extensions"@,
        ".windsurf/extensions"@,
        ".vscode-server/extensions"@,
    ].map_values(|t: Seq<char>| join_bytes(home, encode_utf8(t))));
}

/// Every extension that an editor has marked is listed.
pub proof fn law_every_marked_extension_is_listed(roots: Seq<Seq<u8>>, files: Seq<Option<String>>, k: int, i: int, n: Seq<char>)
    requires
        0 <= i < k,
        files[i] is Some,
        marks_of(files[i]->0@).contains(n),
        marks_of(files[i]->0@).len() <= usize::MAX,
    ensures
        marked_below(roots, files, k).contains(join_bytes(roots[i], encode_utf8(n))),
    decreases k,
{
    let rest = marked_below(roots, files, k - 1);
    let p = join_bytes(roots[i], encode_utf8(n));
    if i < k - 1 {
        law_every_marked_extension_is_listed(roots, files, k - 1, i, n);
        let w = choose|w: int| 0 <= w < rest.len() && rest[w] == p;
        if let Some(text) = files[k - 1] {
            assert((rest + obsolete_in(roots[k - 1], text@))[w] == p);
        }
    } else {
        let names = marks_of(files[i]->0@);
        let all = below_root(roots[i], names);
        let w = choose|w: int| 0 <= w < names.len() && names[w] == n;
        assert(all[w] == p);
        law_sorted_paths_are_the_same_paths(all, p);
        let more = obsolete_in(roots[i], files[i]->0@);
        assert(more == by_path(all));
        let v = choose|v: int| 0 <= v < more.len() && more[v] == p;
        assert((rest + more)[rest.len() + v] == p);
    }
}

/// A marked extension that is there is removed, folder and all.
pub proof fn law_marked_extensions_are_removed(home: Seq<u8>, files: Seq<Option<String>>, sizes: Seq<Option<u64>>, i: int)
    requires
        sizes.len() == marked_below(extension_places(home), files, 5).len(),
        0 <= i < sizes.len(),
        sizes[i] is Some,
    ensures
        ({
            let found = obsolete_found(home, files, sizes);
            &&& found.len() == 1
            &&& found[0].paths.contains(marked_below(extension_places(home), files, 5)[i])
            &&& found[0].bytes == found_bytes(sizes, sizes.len() as int) as u64
            &&& found[0].risk == Risk::Safe
            &&& found[0].id == "obsolete-extensions"@ && found[0].category == "Editor"@
            &&& found[0].action == (ActionView::Remove { paths: found[0].paths, keep_dir: false })
        }),
{
    law_found_is_what_has_a_size(marked_below(extension_places(home), files, 5), sizes, i);
}

/// The folder of an IDE: its product, which holds no digit, and its version, of
/// digits and dots alone.
pub proof fn law_ide_folders_are_product_and_version(product: Seq<char>, ver: Seq<char>)
    requires
        product.len() > 0,
        forall|i: int| 0 <= i < product.len() ==> !is_digit(#[trigger] product[i]),
        ver.len() > 0,
        is_digit(ver[0]),
    ensures
        dotted(ver) && version(ver).len() > 0 ==> ide_version(product + ver) == Some((product, version(ver))),
        !dotted(ver) ==> ide_version(product + ver) is None,
        ide_version(product) is None,
        ide_version(ver) is None,
{
    let name = product + ver;
    assert(name[product.len() as int] == ver[0]);
    assert forall|k: int| 0 <= k < product.len() implies !is_digit(#[trigger] name[k]) by {
        assert(name[k] == product[k]);
    }
    lemma_first_digit(name, 0, product.len() as int);
    lemma_first_digit(product, 0, product.len() as int);
    assert(name.take(product.len() as int) =~= product);
    assert(name.skip(product.len() as int) =~= ver);
}

proof fn lemma_first_digit(s: Seq<char>, i: int, k: int)
    requires
        0 <= i <= k <= s.len(),
        forall|j: int| i <= j < k ==> !is_digit(#[trigger] s[j]),
        k < s.len() ==> is_digit(s[k]),
    ensures
        digit_from(s, true, i) == k,
    decreases k - i,
{
    if i < k {
        assert(!is_digit(s[i]));
        lemma_first_digit(s, i + 1, k);
    }
}

proof fn lemma_ide_listed(root: Seq<u8>, names: Seq<Seq<u8>>, i: int, x: (Seq<char>, Seq<u64>))
    requires
        0 <= i < names.len(),
        ide_version(lossy_text(names[i])) == Some(x),
    ensures
        ides_in(root, names).contains((IdeView { product: x.0, version: x.1, path: join_bytes(root, names[i]) })),
    decreases names.len(),
{
    let v = IdeView { product: x.0, version: x.1, path: join_bytes(root, names[i]) };
    let rest = ides_in(root, names.drop_last());
    if i < names.len() - 1 {
        lemma_ide_listed(root, names.drop_last(), i, x);
        if let Some(y) = ide_version(lossy_text(names.last())) {
            lemma_push_contains(rest, IdeView { product: y.0, version: y.1, path: join_bytes(root, names.last()) }, v);
        }
    } else {
        lemma_push_contains(rest, v, v);
    }
}

proof fn lemma_old_listed(list: Seq<IdeView>, n: int, i: int)
    requires
        0 <= i < n <= list.len(),
        superseded(list, i),
    ensures
        old_ides(list, n).contains(list[i].path),
    decreases n,
{
    let rest = old_ides(list, n - 1);
    lemma_push_contains(rest, list[n - 1].path, list[i].path);
    if i < n - 1 {
        lemma_old_listed(list, n - 1, i);
    }
}

proof fn lemma_old_few(list: Seq<IdeView>, n: int)
    ensures
        n >= 0 ==> old_ides(list, n).len() <= n,
    decreases n,
{
    if n > 0 {
        lemma_old_few(list, n - 1);
    }
}

proof fn lemma_ides_few(root: Seq<u8>, names: Seq<Seq<u8>>)
    ensures
        ides_in(root, names).len() <= names.len(),
    decreases names.len(),
{
    if names.len() > 0 {
        lemma_ides_few(root, names.drop_last());
    }
}

/// The cache of a version is removed as soon as a newer version of the same IDE
/// is there: the numbers of the versions decide.
pub proof fn law_replaced_ide_versions_are_removed(root: Seq<u8>, names: Seq<Seq<u8>>, sizes: Seq<u64>, i: int, j: int)
    requires
        names.len() <= usize::MAX,
        0 <= i < names.len(),
        0 <= j < names.len(),
        ide_version(lossy_text(names[i])) matches Some(a) && (ide_version(lossy_text(names[j])) matches Some(b) && a.0 == b.0 && lex(
            a.1,
            b.1,
            num_lt(),
        )),
    ensures
        ({
            let found = jetbrains_found(root, names, sizes);
            &&& found.len() == 1
            &&& found[0].paths.contains(join_bytes(root, names[i]))
            &&& found[0].bytes == total_of(as_nats(sizes)) as u64
            &&& found[0].risk == Risk::Safe
            &&& found[0].id == "jetbrains-old-caches"@ && found[0].category == "Editor"@
            &&& found[0].action == (ActionView::Remove { paths: found[0].paths, keep_dir: false })
        }),
{
    let list = ides_in(root, names);
    let (a, b) = (ide_version(lossy_text(names[i]))->0, ide_version(lossy_text(names[j]))->0);
    lemma_ide_listed(root, names, i, a);
    lemma_ide_listed(root, names, j, b);
    let va = IdeView { product: a.0, version: a.1, path: join_bytes(root, names[i]) };
    let vb = IdeView { product: b.0, version: b.1, path: join_bytes(root, names[j]) };
    let p = choose|p: int| 0 <= p < list.len() && list[p] == va;
    let q = choose|q: int| 0 <= q < list.len() && list[q] == vb;
    assert(replaced_by(list, p, q));
    assert(superseded(list, p));
    let n = list.len() as int;
    lemma_old_listed(list, n, p);
    lemma_old_few(list, n);
    lemma_ides_few(root, names);
    law_sorted_paths_are_the_same_paths(old_ides(list, n), join_bytes(root, names[i]));
}

/// A version that no other one of the same IDE replaces stays.
pub proof fn law_a_version_is_replaced_by_a_newer_one_of_its_product(list: Seq<IdeView>, i: int, j: int)
    requires
        replaced_by(list, i, j),
    ensures
        list[i].product == list[j].product,
        lex(list[i].version, list[j].version, num_lt()) || list[i].version == list[j].version,
        i != j,
{
    lemma_num_lt();
    lemma_comp_lt();
    if i == j {
        lemma_lex_irreflexive(list[i].version, num_lt());
        lemma_lex_irreflexive(comps(list[i].path), comp_lt());
    }
}

/// JetBrains' caches are in a folder of the user's cache folder.
pub proof fn law_jetbrains_caches_are_here(d: Dirs, r: FsPath)
    requires
        call_ensures(jetbrains_root, (&d,), r),
    ensures
        r@ == join_bytes(d.cache@, encode_utf8("JetBrains"@)),
{
}

} // verus!
