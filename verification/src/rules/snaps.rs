//! Snap revisions that snapd keeps for rolling back.

use vstd::prelude::*;
use vstd::utf8::{encode_utf8, encode_utf8_decode_utf8, encode_utf8_valid_utf8};

use crate::path::{bytes_of, join_bytes, lossy_text, paths_view, same_name, utf8_lossy, FsPath};
use crate::order::total_of;
use crate::rules::kernels::{found_bytes, lemma_found_grows, lemma_push_contains};
use crate::rules::{finding_views, knows_text, Action, ActionView, CheckOutput, Finding, FindingView, Risk};
use crate::text::{
    all_digits, chars_of, contains, decimal, digit, law_digits_read_back, lemma_digit_char, lemma_digits, digits, is_digit, join, joined, lines, lines_of, number, only_digits, parse_u64, same,
    slice, split, split_on, string_of, texts, views, words, words_of,
};
use crate::util::{fmt_size, quoted, shq, size_text};

verus! {

/// Index of the first `n` in `cols` at or after `i`, or the length.
pub open spec fn column_from(cols: Seq<Seq<char>>, n: Seq<char>, i: int) -> int
    decreases cols.len() - i,
{
    if i < 0 || i >= cols.len() || cols[i] == n {
        i
    } else {
        column_from(cols, n, i + 1)
    }
}

fn column(cols: &Vec<Vec<char>>, n: &str) -> (r: usize)
    ensures
        r == column_from(views(cols@), n@, 0),
        r <= cols@.len(),
{
    let ghost all = views(cols@);
    let mut i: usize = 0;
    while i < cols.len()
        invariant
            i <= cols@.len(),
            all == views(cols@),
            column_from(all, n@, 0) == column_from(all, n@, i as int),
        decreases cols@.len() - i,
    {
        assert(all[i as int] == cols@[i as int]@);
        if same(string_of(&cols[i]).as_str(), n) {
            return i;
        }
        i += 1;
    }
    i
}

/// A snap's name: lower case letters, digits and dashes.
pub open spec fn snap_name_char(c: char) -> bool {
    'a' <= c && c <= 'z' || is_digit(c) || c == '-'
}

pub open spec fn snap_name(n: Seq<char>) -> bool {
    n.len() > 0 && forall|i: int| 0 <= i < n.len() ==> snap_name_char(#[trigger] n[i])
}

/// A revision: a number, with an `x` in front for one installed from a file.
pub open spec fn snap_revision(r: Seq<char>) -> bool {
    let d = if r.len() > 0 && r[0] == 'x' {
        r.skip(1)
    } else {
        r
    };
    d.len() > 0 && all_digits(d)
}

fn is_snap_name(n: &Vec<char>) -> (r: bool)
    ensures
        r == snap_name(n@),
{
    for i in 0..n.len()
        invariant
            forall|j: int| 0 <= j < i ==> snap_name_char(#[trigger] n@[j]),
    {
        let c: char = n[i];
        if !('a' <= c && c <= 'z' || digit(c) || c == '-') {
            assert(!snap_name_char(n@[i as int]));
            return false;
        }
    }
    n.len() > 0
}

fn is_snap_revision(r: &Vec<char>) -> (ok: bool)
    ensures
        ok == snap_revision(r@),
{
    let from: usize = if r.len() > 0 && r[0] == 'x' {
        1
    } else {
        0
    };
    let d = slice(r, from, r.len());
    assert(d@ =~= if r@.len() > 0 && r@[0] == 'x' {
        r@.skip(1)
    } else {
        r@
    });
    d.len() > 0 && only_digits(&d)
}

/// The columns of `snap list` that matter.
pub struct SnapColumns {
    pub count: usize,
    pub name: usize,
    pub rev: usize,
    pub notes: usize,
}

/// The columns that a header announces, if all are there.
pub open spec fn snap_columns(header: Seq<char>) -> Option<SnapColumns> {
    let cols = words(header);
    let (n, r, k) = (column_from(cols, "Name"@, 0), column_from(cols, "Rev"@, 0), column_from(cols, "Notes"@, 0));
    if n < cols.len() && r < cols.len() && k < cols.len() {
        Some(SnapColumns { count: cols.len() as usize, name: n as usize, rev: r as usize, notes: k as usize })
    } else {
        None
    }
}

/// The name and revision in a row that is marked `disabled`. Rows that don't
/// line up with the header are skipped.
pub open spec fn disabled_row(c: SnapColumns, l: Seq<char>) -> Option<(Seq<char>, Seq<char>)> {
    let t = words(l);
    if t.len() == c.count && split(t[c.notes as int], ',').contains("disabled"@) && snap_name(t[c.name as int]) && snap_revision(
        t[c.rev as int],
    ) {
        Some((t[c.name as int], t[c.rev as int]))
    } else {
        None
    }
}

pub open spec fn disabled_rows(c: SnapColumns, list: Seq<Seq<char>>) -> Seq<(Seq<char>, Seq<char>)>
    decreases list.len(),
{
    if list.len() == 0 {
        Seq::empty()
    } else {
        let rest = disabled_rows(c, list.drop_last());
        match disabled_row(c, list.last()) {
            Some(x) => rest.push(x),
            None => rest,
        }
    }
}

/// The disabled revisions in the output of `snap list --all`.
pub open spec fn disabled_in(list: Seq<char>) -> Seq<(Seq<char>, Seq<char>)> {
    let ls = lines(list);
    if ls.len() == 0 {
        Seq::empty()
    } else {
        match snap_columns(ls[0]) {
            Some(c) => disabled_rows(c, ls.skip(1)),
            None => Seq::empty(),
        }
    }
}

/// Pairs of texts as values.
pub open spec fn pairs_view(v: Seq<(String, String)>) -> Seq<(Seq<char>, Seq<char>)> {
    Seq::new(v.len(), |i: int| (v[i].0@, v[i].1@))
}

fn has_part(parts: &Vec<Vec<char>>, t: &str) -> (r: bool)
    ensures
        r == views(parts@).contains(t@),
{
    for i in 0..parts.len()
        invariant
            forall|j: int| 0 <= j < i ==> #[trigger] parts@[j]@ != t@,
    {
        if same(string_of(&parts[i]).as_str(), t) {
            assert(views(parts@)[i as int] == t@);
            return true;
        }
    }
    proof {
        if views(parts@).contains(t@) {
            let w = choose|w: int| 0 <= w < views(parts@).len() && views(parts@)[w] == t@;
            assert(parts@[w]@ == t@);
        }
    }
    false
}

fn read_row(c: &SnapColumns, l: &Vec<char>) -> (r: Option<(String, String)>)
    requires
        c.name < c.count,
        c.rev < c.count,
        c.notes < c.count,
    ensures
        r is Some <==> disabled_row(*c, l@) is Some,
        r matches Some(x) ==> disabled_row(*c, l@) == Some((x.0@, x.1@)),
{
    let t = words_of(l);
    assert(views(t@).len() == t@.len());
    if t.len() != c.count {
        return None;
    }
    proof {
        assert(views(t@)[c.notes as int] == t@[c.notes as int]@);
        assert(views(t@)[c.name as int] == t@[c.name as int]@);
        assert(views(t@)[c.rev as int] == t@[c.rev as int]@);
    }
    if !has_part(&split_on(&t[c.notes], ','), "disabled") {
        return None;
    }
    if is_snap_name(&t[c.name]) && is_snap_revision(&t[c.rev]) {
        Some((string_of(&t[c.name]), string_of(&t[c.rev])))
    } else {
        None
    }
}

/// (name, revision) of rows marked `disabled` in `snap list --all` output.
/// Rows that don't line up with the header are skipped.
pub fn disabled_snap_revisions(list: &str) -> (r: Vec<(String, String)>)
    ensures
        pairs_view(r@) == disabled_in(list@),
{
    let ls = lines_of(&chars_of(list));
    let ghost all = views(ls@);
    let mut out: Vec<(String, String)> = Vec::new();
    assert(pairs_view(out@) =~= Seq::empty());
    assert(all.len() == ls@.len());
    if ls.len() == 0 {
        return out;
    }
    assert(all[0] == ls@[0]@);
    let cols = words_of(&ls[0]);
    assert(views(cols@).len() == cols@.len());
    let (name, rev, notes) = (column(&cols, "Name"), column(&cols, "Rev"), column(&cols, "Notes"));
    if name >= cols.len() || rev >= cols.len() || notes >= cols.len() {
        return out;
    }
    let c = SnapColumns { count: cols.len(), name, rev, notes };
    let ghost rows = all.skip(1);
    assert(rows.take(0) =~= Seq::empty());
    for i in 1..ls.len()
        invariant
            all == views(ls@),
            rows == all.skip(1),
            1 <= ls@.len(),
            c.name < c.count,
            c.rev < c.count,
            c.notes < c.count,
            pairs_view(out@) == disabled_rows(c, rows.take(i - 1)),
    {
        proof {
            assert(rows.take(i as int).drop_last() =~= rows.take(i - 1));
            assert(rows.take(i as int).last() == ls@[i as int]@);
        }
        if let Some(x) = read_row(&c, &ls[i]) {
            let ghost before = out@;
            out.push(x);
            assert(pairs_view(out@) =~= pairs_view(before).push((x.0@, x.1@)));
        }
    }
    assert(rows.take(ls@.len() - 1) =~= rows);
    out
}

/// What to look at of a disabled revision: the link to the active revision,
/// the revision's file, and the folders that hold its data.
pub struct SnapLook {
    pub name: String,
    pub rev: String,
    pub link: FsPath,
    pub file: FsPath,
    pub data: Vec<FsPath>,
}

#[verifier::ext_equal]
pub struct SnapLookView {
    pub name: Seq<char>,
    pub rev: Seq<char>,
    pub link: Seq<u8>,
    pub file: Seq<u8>,
    pub data: Seq<Seq<u8>>,
}

impl View for SnapLook {
    type V = SnapLookView;

    open spec fn view(&self) -> SnapLookView {
        SnapLookView { name: self.name@, rev: self.rev@, link: self.link@, file: self.file@, data: paths_view(self.data@) }
    }
}

pub open spec fn look_views(v: Seq<SnapLook>) -> Seq<SnapLookView> {
    Seq::new(v.len(), |i: int| v[i]@)
}

/// Where a revision's data is, below each of the roots.
pub open spec fn data_places(roots: Seq<Seq<u8>>, name: Seq<char>, rev: Seq<char>) -> Seq<Seq<u8>> {
    Seq::new(roots.len(), |i: int| join_bytes(join_bytes(roots[i], encode_utf8(name)), encode_utf8(rev)))
}

pub open spec fn look_at(snaps: Seq<u8>, root: Seq<u8>, roots: Seq<Seq<u8>>, x: (Seq<char>, Seq<char>)) -> SnapLookView {
    SnapLookView {
        name: x.0,
        rev: x.1,
        link: join_bytes(join_bytes(root, encode_utf8(x.0)), encode_utf8("current"@)),
        file: join_bytes(snaps, encode_utf8(x.0 + "_"@ + x.1 + ".snap"@)),
        data: data_places(roots, x.0, x.1),
    }
}

fn data_paths(roots: &Vec<FsPath>, name: &str, rev: &str) -> (r: Vec<FsPath>)
    ensures
        paths_view(r@) == data_places(paths_view(roots@), name@, rev@),
{
    let ghost want = data_places(paths_view(roots@), name@, rev@);
    let mut out: Vec<FsPath> = Vec::new();
    for i in 0..roots.len()
        invariant
            want == data_places(paths_view(roots@), name@, rev@),
            paths_view(out@) == want.take(i as int),
    {
        let ghost before = out@;
        let p = roots[i].join_str(name).join_str(rev);
        out.push(p);
        assert(paths_view(out@) =~= paths_view(before).push(p@));
        assert(paths_view(out@) =~= want.take(i + 1));
    }
    assert(paths_view(out@) =~= want);
    out
}

/// What to look at for the disabled revisions that `list` reports.
pub open spec fn looks_in(snaps: Seq<u8>, root: Seq<u8>, list: Seq<char>, roots: Seq<Seq<u8>>) -> Seq<SnapLookView> {
    disabled_in(list).map_values(|x: (Seq<char>, Seq<char>)| look_at(snaps, root, roots, x))
}

/// What to look at for the revisions that `snap list --all` reports as
/// disabled. `data_roots` hold per-revision data (/var/snap/<name>/<rev>,
/// ~/snap/<name>/<rev>) that `snap remove --revision` deletes along with the
/// revision.
pub fn snap_looks(snaps_dir: &FsPath, snap_root: &FsPath, snap_list: &str, data_roots: &Vec<FsPath>) -> (r: Vec<SnapLook>)
    ensures
        look_views(r@) == looks_in(snaps_dir@, snap_root@, snap_list@, paths_view(data_roots@)),
{
    let revs = disabled_snap_revisions(snap_list);
    let ghost want = looks_in(snaps_dir@, snap_root@, snap_list@, paths_view(data_roots@));
    let mut out: Vec<SnapLook> = Vec::new();
    assert(pairs_view(revs@).len() == revs@.len());
    for i in 0..revs.len()
        invariant
            pairs_view(revs@) == disabled_in(snap_list@),
            want.len() == revs@.len(),
            want == looks_in(snaps_dir@, snap_root@, snap_list@, paths_view(data_roots@)),
            look_views(out@) == want.take(i as int),
    {
        let (name, rev) = (revs[i].0.as_str(), revs[i].1.as_str());
        let look = SnapLook {
            name: name.to_owned(),
            rev: rev.to_owned(),
            link: snap_root.join_str(name).join_str("current"),
            file: snaps_dir.join_str(name.to_owned().concat("_").concat(rev).concat(".snap").as_str()),
            data: data_paths(data_roots, name, rev),
        };
        let ghost before = out@;
        out.push(look);
        proof {
            assert(pairs_view(revs@)[i as int] == (name@, rev@));
            assert(look@ == want[i as int]);
            assert(look_views(out@) =~= look_views(before).push(look@));
            assert(look_views(out@) =~= want.take(i + 1));
        }
    }
    assert(look_views(out@) =~= want);
    out
}

/// The file of a revision.
pub struct SnapFile {
    /// Allocated bytes.
    pub bytes: u64,
    /// Link count. A second link lives in snapd's download cache.
    pub nlink: u64,
}

/// What was found of a revision.
pub struct SnapFacts {
    /// Where the link to the active revision points.
    pub current: Option<Vec<u8>>,
    /// The revision's file, if it is a regular file.
    pub file: Option<SnapFile>,
    /// The bytes of what the revision's file path leads to.
    pub followed: Option<u64>,
    /// For each folder with the revision's data, its size if it is a real
    /// directory.
    pub data: Vec<Option<u64>>,
}

/// What a disabled revision is to the active one.
pub enum SnapFate {
    /// It is the active one after all.
    Active,
    /// Newer: the user ran `snap revert`, and its data folder holds their most
    /// recent data.
    Newer,
    /// Superseded.
    Old,
}

pub open spec fn snap_fate(rev: Seq<char>, current: Option<Vec<u8>>) -> SnapFate {
    match current {
        None => SnapFate::Old,
        Some(c) => if c@ == encode_utf8(rev) {
            SnapFate::Active
        } else {
            match (number(rev, u64::MAX as nat), number(lossy_text(c@), u64::MAX as nat)) {
                (Some(r), Some(k)) => if r > k {
                    SnapFate::Newer
                } else {
                    SnapFate::Old
                },
                _ => SnapFate::Old,
            }
        },
    }
}

fn judge(rev: &str, current: &Option<Vec<u8>>) -> (r: SnapFate)
    ensures
        r == snap_fate(rev@, *current),
{
    match current {
        None => SnapFate::Old,
        Some(c) => {
            if same_name(c, &bytes_of(rev)) {
                return SnapFate::Active;
            }
            match (parse_u64(&chars_of(rev)), parse_u64(&chars_of(utf8_lossy(c).as_str()))) {
                (Some(r), Some(k)) => if r > k {
                    SnapFate::Newer
                } else {
                    SnapFate::Old
                },
                _ => SnapFate::Old,
            }
        },
    }
}

/// What the revisions looked at so far come to.
pub struct SnapTally {
    pub bytes: u64,
    pub immediate: u64,
    pub data: u64,
    pub data_dirs: Vec<String>,
    pub commands: Vec<String>,
    pub paths: Vec<FsPath>,
    pub names: Vec<String>,
    pub reverted: Vec<String>,
    pub reverted_bytes: u64,
}

#[verifier::ext_equal]
pub struct SnapTallyView {
    pub bytes: nat,
    pub immediate: nat,
    pub data: nat,
    pub data_dirs: Seq<Seq<char>>,
    pub commands: Seq<Seq<char>>,
    pub paths: Seq<Seq<u8>>,
    pub names: Seq<Seq<char>>,
    pub reverted: Seq<Seq<char>>,
    pub reverted_bytes: nat,
}

impl View for SnapTally {
    type V = SnapTallyView;

    open spec fn view(&self) -> SnapTallyView {
        SnapTallyView {
            bytes: self.bytes as nat,
            immediate: self.immediate as nat,
            data: self.data as nat,
            data_dirs: texts(self.data_dirs@),
            commands: texts(self.commands@),
            paths: paths_view(self.paths@),
            names: texts(self.names@),
            reverted: texts(self.reverted@),
            reverted_bytes: self.reverted_bytes as nat,
        }
    }
}

pub open spec fn nothing_tallied() -> SnapTallyView {
    SnapTallyView {
        bytes: 0,
        immediate: 0,
        data: 0,
        data_dirs: Seq::empty(),
        commands: Seq::empty(),
        paths: Seq::empty(),
        names: Seq::empty(),
        reverted: Seq::empty(),
        reverted_bytes: 0,
    }
}

/// The data folders of a revision that are worth naming.
pub open spec fn big_data(places: Seq<Seq<u8>>, sizes: Seq<Option<u64>>) -> Seq<Seq<char>>
    decreases sizes.len(),
{
    if sizes.len() == 0 {
        Seq::empty()
    } else {
        let rest = big_data(places, sizes.drop_last());
        match sizes.last() {
            Some(b) => if b >= 1_048_576 {
                rest.push(lossy_text(places[sizes.len() - 1]) + " ("@ + size_text(b) + ")"@)
            } else {
                rest
            },
            None => rest,
        }
    }
}

pub open spec fn removal_command(name: Seq<char>, rev: Seq<char>) -> Seq<char> {
    "sudo snap remove "@ + quoted(name) + " --revision="@ + quoted(rev)
}

/// The tally with one more revision.
pub open spec fn with_revision(t: SnapTallyView, l: SnapLookView, f: SnapFacts) -> SnapTallyView {
    match snap_fate(l.rev, f.current) {
        SnapFate::Active => t,
        SnapFate::Newer => SnapTallyView {
            reverted: t.reverted.push(l.name + " revision "@ + l.rev + " (active: "@ + lossy_text(f.current->0@) + ")"@),
            reverted_bytes: t.reverted_bytes + match f.followed {
                Some(b) => b as nat,
                None => 0,
            },
            ..t
        },
        SnapFate::Old => SnapTallyView {
            bytes: t.bytes + match f.file {
                Some(x) => x.bytes as nat,
                None => 0,
            },
            immediate: t.immediate + match f.file {
                Some(x) => if x.nlink <= 1 {
                    x.bytes as nat
                } else {
                    0
                },
                None => 0,
            },
            paths: match f.file {
                Some(_) => t.paths.push(l.file),
                None => t.paths,
            },
            data: t.data + found_bytes(f.data@, f.data@.len() as int),
            data_dirs: t.data_dirs + big_data(l.data, f.data@),
            commands: t.commands.push(removal_command(l.name, l.rev)),
            names: if t.names.contains(l.name) {
                t.names
            } else {
                t.names.push(l.name)
            },
            ..t
        },
    }
}

/// The tally of revisions.
pub open spec fn snap_tally(looks: Seq<SnapLookView>, facts: Seq<SnapFacts>) -> SnapTallyView
    decreases looks.len(),
{
    if looks.len() == 0 {
        nothing_tallied()
    } else {
        with_revision(snap_tally(looks.drop_last(), facts), looks.last(), facts[looks.len() - 1])
    }
}

/// All bytes that were found of a revision.
pub open spec fn fact_bytes(f: SnapFacts) -> nat {
    found_bytes(f.data@, f.data@.len() as int) + (match f.file {
        Some(x) => x.bytes as nat,
        None => 0,
    }) + match f.followed {
        Some(b) => b as nat,
        None => 0,
    }
}

/// All bytes that were found.
pub open spec fn facts_bytes(facts: Seq<SnapFacts>) -> nat
    decreases facts.len(),
{
    if facts.len() == 0 {
        0
    } else {
        facts_bytes(facts.drop_last()) + fact_bytes(facts.last())
    }
}

proof fn lemma_facts_grow(facts: Seq<SnapFacts>, k: int)
    requires
        0 <= k <= facts.len(),
    ensures
        facts_bytes(facts.take(k)) <= facts_bytes(facts),
    decreases facts.len(),
{
    if k < facts.len() {
        assert(facts.drop_last().take(k) =~= facts.take(k));
        lemma_facts_grow(facts.drop_last(), k);
    } else {
        assert(facts.take(k) =~= facts);
    }
}

fn add_data(t: &mut SnapTally, places: &Vec<FsPath>, sizes: &Vec<Option<u64>>)
    requires
        places@.len() == sizes@.len(),
        old(t).data + found_bytes(sizes@, sizes@.len() as int) <= u64::MAX,
    ensures
        final(t)@ == (SnapTallyView {
            data: old(t)@.data + found_bytes(sizes@, sizes@.len() as int),
            data_dirs: old(t)@.data_dirs + big_data(paths_view(places@), sizes@),
            ..old(t)@
        }),
{
    let ghost start = t@;
    assert(sizes@.take(0) =~= Seq::empty());
    assert(start.data_dirs + Seq::<Seq<char>>::empty() =~= start.data_dirs);
    for i in 0..sizes.len()
        invariant
            places@.len() == sizes@.len(),
            start.data + found_bytes(sizes@, sizes@.len() as int) <= u64::MAX,
            t@ == (SnapTallyView {
                data: start.data + found_bytes(sizes@, i as int),
                data_dirs: start.data_dirs + big_data(paths_view(places@), sizes@.take(i as int)),
                ..start
            }),
    {
        proof {
            assert(sizes@.take(i + 1).drop_last() =~= sizes@.take(i as int));
            lemma_found_grows(sizes@, i + 1, sizes@.len() as int);
        }
        if let Some(b) = sizes[i] {
            let ghost before = t@;
            t.data = t.data + b;
            if b >= 1_048_576 {
                let ghost dirs = t.data_dirs@;
                let s = places[i].display().concat(" (").concat(fmt_size(b).as_str()).concat(")");
                t.data_dirs.push(s);
                assert(texts(t.data_dirs@) =~= texts(dirs).push(s@));
                assert(t@.data_dirs =~= start.data_dirs + big_data(paths_view(places@), sizes@.take(i + 1)));
            }
        }
    }
    assert(sizes@.take(sizes@.len() as int) =~= sizes@);
}

fn add_revision(t: &mut SnapTally, l: &SnapLook, f: &SnapFacts)
    requires
        l.data@.len() == f.data@.len(),
        old(t).immediate <= old(t).bytes,
        old(t).bytes + old(t).data + old(t).reverted_bytes + fact_bytes(*f) <= u64::MAX,
    ensures
        final(t)@ == with_revision(old(t)@, l@, *f),
        final(t).immediate <= final(t).bytes,
        final(t).bytes + final(t).data + final(t).reverted_bytes <= old(t).bytes + old(t).data + old(t).reverted_bytes
            + fact_bytes(*f),
{
    let ghost start = t@;
    match judge(l.rev.as_str(), &f.current) {
        SnapFate::Active => {},
        SnapFate::Newer => {
            let cur = match &f.current {
                Some(c) => utf8_lossy(c),
                None => String::new(),
            };
            let ghost before = t.reverted@;
            let s = l.name.clone().concat(" revision ").concat(l.rev.as_str()).concat(" (active: ").concat(cur.as_str()).concat(")");
            t.reverted.push(s);
            assert(texts(t.reverted@) =~= texts(before).push(s@));
            if let Some(b) = f.followed {
                t.reverted_bytes = t.reverted_bytes + b;
            }
        },
        SnapFate::Old => {
            if let Some(x) = &f.file {
                t.bytes = t.bytes + x.bytes;
                if x.nlink <= 1 {
                    t.immediate = t.immediate + x.bytes;
                }
                let ghost before = t.paths@;
                let p = l.file.clone();
                t.paths.push(p);
                assert(paths_view(t.paths@) =~= paths_view(before).push(p@));
            }
            add_data(t, &l.data, &f.data);
            let ghost before = t.commands@;
            let c = "sudo snap remove ".to_owned().concat(shq(l.name.as_str()).as_str()).concat(" --revision=").concat(
                shq(l.rev.as_str()).as_str(),
            );
            t.commands.push(c);
            assert(texts(t.commands@) =~= texts(before).push(c@));
            if !knows_text(&t.names, &l.name) {
                let ghost before = t.names@;
                let n = l.name.clone();
                t.names.push(n);
                assert(texts(t.names@) =~= texts(before).push(n@));
            }
        },
    }
}

/// The finding about revisions newer than the active one.
pub open spec fn reverted_finding(t: SnapTallyView) -> FindingView {
    FindingView {
        id: "snap-reverted"@,
        category: "Snap"@,
        title: "Snap revisions newer than the active one ("@ + digits(t.reverted.len()) + ")"@,
        risk: Risk::Caution,
        bytes: t.reverted_bytes as u64,
        detail: join(t.reverted, ", "@)
            + ". These snaps were reverted to an older revision, so the disabled newer revision's data folder holds your most recent data. Only remove one once you are sure you don't want to go back to it: sudo snap remove <name> --revision=<rev>"@,
        paths: Seq::empty(),
        action: ActionView::Manual,
        needs_root: true,
    }
}

/// The data folders that go with the revisions, as they are named in a text.
pub open spec fn data_named(dirs: Seq<Seq<char>>) -> Seq<char> {
    if dirs.len() == 0 {
        Seq::empty()
    } else {
        ": "@ + join(dirs, ", "@)
    }
}

/// The finding about superseded revisions.
pub open spec fn revisions_finding(t: SnapTallyView) -> FindingView {
    FindingView {
        id: "snap-revisions"@,
        category: "Snap"@,
        title: "Disabled snap revisions ("@ + digits(t.commands.len()) + " in "@ + join(t.names, ", "@) + ")"@,
        risk: Risk::Moderate,
        bytes: (t.bytes + t.data) as u64,
        detail: "snapd keeps superseded revisions of every snap (refresh.retain, default 2-3) so it can roll back. Removing disabled revisions loses that rollback point and that revision's saved data"@
            + data_named(t.data_dirs) + ".\n"@ + size_text((t.immediate + t.data) as u64)
            + " comes back immediately. The rest ("@ + size_text((t.bytes - t.immediate) as u64)
            + ") is also held by snapd's download cache (/var/lib/snapd/cache): after this cleanup those cached copies show up as \"Orphaned snapd download cache\" on the next analysis (visible when run with sudo).\nTo keep fewer in future: sudo snap set system refresh.retain=2"@,
        paths: t.paths,
        // Independent removals: one failing must not skip the others.
        action: ActionView::Shell { command: join(t.commands, "; "@) },
        needs_root: true,
    }
}

/// The findings that a tally comes to.
pub open spec fn tally_findings(t: SnapTallyView) -> Seq<FindingView> {
    (if t.reverted.len() > 0 {
        seq![reverted_finding(t)]
    } else {
        Seq::empty()
    }) + if t.commands.len() > 0 {
        seq![revisions_finding(t)]
    } else {
        Seq::empty()
    }
}

fn show_tally(t: SnapTally) -> (r: CheckOutput)
    requires
        t.immediate <= t.bytes,
        t.bytes + t.data <= u64::MAX,
    ensures
        r.notes@.len() == 0,
        finding_views(r.findings@) == tally_findings(t@),
{
    let mut findings: Vec<Finding> = Vec::new();
    proof {
        assert(texts(t.reverted@).len() == t.reverted@.len());
        assert(texts(t.commands@).len() == t.commands@.len());
        assert(texts(t.data_dirs@).len() == t.data_dirs@.len());
        assert(finding_views(findings@) =~= Seq::empty());
    }
    if t.reverted.len() > 0 {
        let f = Finding {
            id: "snap-reverted".to_owned(),
            category: "Snap".to_owned(),
            title: "Snap revisions newer than the active one (".to_owned().concat(decimal(t.reverted.len() as u64).as_str()).concat(")"),
            risk: Risk::Caution,
            bytes: t.reverted_bytes,
            detail: joined(&t.reverted, ", ").concat(
                ". These snaps were reverted to an older revision, so the disabled newer revision's data folder holds your most recent data. Only remove one once you are sure you don't want to go back to it: sudo snap remove <name> --revision=<rev>",
            ),
            paths: Vec::new(),
            action: Action::Manual,
            needs_root: true,
        };
        assert(paths_view(f.paths@) =~= Seq::empty());
        findings.push(f);
        assert(finding_views(findings@) =~= seq![f@]);
        assert(f@ == reverted_finding(t@));
    }
    if t.commands.len() == 0 {
        assert(finding_views(findings@) =~= tally_findings(t@));
        return CheckOutput { findings, notes: Vec::new() };
    }
    let named = if t.data_dirs.len() == 0 {
        String::new()
    } else {
        ": ".to_owned().concat(joined(&t.data_dirs, ", ").as_str())
    };
    assert(named@ =~= data_named(t@.data_dirs));
    let f = Finding {
        id: "snap-revisions".to_owned(),
        category: "Snap".to_owned(),
        title: "Disabled snap revisions (".to_owned().concat(decimal(t.commands.len() as u64).as_str()).concat(" in ").concat(
            joined(&t.names, ", ").as_str(),
        ).concat(")"),
        risk: Risk::Moderate,
        bytes: t.bytes + t.data,
        detail: "snapd keeps superseded revisions of every snap (refresh.retain, default 2-3) so it can roll back. Removing disabled revisions loses that rollback point and that revision's saved data".to_owned().concat(
            named.as_str(),
        ).concat(".\n").concat(fmt_size(t.immediate + t.data).as_str()).concat(" comes back immediately. The rest (").concat(
            fmt_size(t.bytes - t.immediate).as_str(),
        ).concat(
            ") is also held by snapd's download cache (/var/lib/snapd/cache): after this cleanup those cached copies show up as \"Orphaned snapd download cache\" on the next analysis (visible when run with sudo).\nTo keep fewer in future: sudo snap set system refresh.retain=2",
        ),
        action: Action::Shell { command: joined(&t.commands, "; ") },
        paths: t.paths,
        needs_root: true,
    };
    let ghost before = findings@;
    findings.push(f);
    proof {
        assert(f@ == revisions_finding(t@));
        assert(finding_views(findings@) =~= finding_views(before).push(f@));
        assert(finding_views(findings@) =~= tally_findings(t@));
    }
    CheckOutput { findings, notes: Vec::new() }
}

/// Snap check: the revisions that `snap list --all` reports as disabled (see
/// `snap_looks`), and what was found of each.
pub fn snap_findings_ext(
    snaps_dir: &FsPath,
    snap_root: &FsPath,
    snap_list: &str,
    data_roots: &Vec<FsPath>,
    facts: &Vec<SnapFacts>,
) -> (r: CheckOutput)
    requires
        facts@.len() == disabled_in(snap_list@).len(),
        forall|i: int| 0 <= i < facts@.len() ==> (#[trigger] facts@[i]).data@.len() == data_roots@.len(),
        facts_bytes(facts@) <= u64::MAX,
    ensures
        r.notes@.len() == 0,
        finding_views(r.findings@) == tally_findings(
            snap_tally(looks_in(snaps_dir@, snap_root@, snap_list@, paths_view(data_roots@)), facts@),
        ),
{
    let looks = snap_looks(snaps_dir, snap_root, snap_list, data_roots);
    let ghost lv = look_views(looks@);
    proof {
        assert(lv.len() == looks@.len());
        assert forall|i: int| 0 <= i < looks@.len() implies (#[trigger] looks@[i]).data@.len() == facts@[i].data@.len() by {
            assert(lv[i] == looks@[i]@);
            assert(paths_view(looks@[i].data@).len() == paths_view(data_roots@).len());
        }
    }
    let mut t = SnapTally {
        bytes: 0,
        immediate: 0,
        data: 0,
        data_dirs: Vec::new(),
        commands: Vec::new(),
        paths: Vec::new(),
        names: Vec::new(),
        reverted: Vec::new(),
        reverted_bytes: 0,
    };
    assert(t@ =~= nothing_tallied());
    assert(facts@.take(0) =~= Seq::empty());
    for i in 0..looks.len()
        invariant
            lv == look_views(looks@),
            facts@.len() == looks@.len(),
            forall|i: int| 0 <= i < looks@.len() ==> (#[trigger] looks@[i]).data@.len() == facts@[i].data@.len(),
            facts_bytes(facts@) <= u64::MAX,
            t@ == snap_tally(lv.take(i as int), facts@),
            t.immediate <= t.bytes,
            t.bytes + t.data + t.reverted_bytes <= facts_bytes(facts@.take(i as int)),
    {
        proof {
            assert(lv.take(i + 1).drop_last() =~= lv.take(i as int));
            assert(lv.take(i + 1).last() == looks@[i as int]@);
            assert(facts@.take(i + 1).drop_last() =~= facts@.take(i as int));
            lemma_facts_grow(facts@, i + 1);
        }
        add_revision(&mut t, &looks[i], &facts[i]);
    }
    proof {
        assert(lv.take(looks@.len() as int) =~= lv);
        assert(facts@.take(facts@.len() as int) =~= facts@);
    }
    show_tally(t)
}

/// Only superseded revisions are ever removed: never the active one, nor one
/// that is newer than it.
pub proof fn law_only_superseded_revisions_go(looks: Seq<SnapLookView>, facts: Seq<SnapFacts>)
    requires
        looks.len() <= facts.len(),
    ensures
        forall|c: Seq<char>|
            #[trigger] snap_tally(looks, facts).commands.contains(c) ==> exists|i: int|
                0 <= i < looks.len() && c == removal_command((#[trigger] looks[i]).name, looks[i].rev) && snap_fate(
                    looks[i].rev,
                    facts[i].current,
                ) is Old,
    decreases looks.len(),
{
    if looks.len() > 0 {
        let rest = looks.drop_last();
        law_only_superseded_revisions_go(rest, facts);
        let n = looks.len() - 1;
        let t = snap_tally(rest, facts);
        assert forall|c: Seq<char>| #[trigger] snap_tally(looks, facts).commands.contains(c) implies exists|i: int|
            0 <= i < looks.len() && c == removal_command((#[trigger] looks[i]).name, looks[i].rev) && snap_fate(
                looks[i].rev,
                facts[i].current,
            ) is Old by {
            let cs = snap_tally(looks, facts).commands;
            let w = choose|w: int| 0 <= w < cs.len() && cs[w] == c;
            if w < t.commands.len() {
                assert(t.commands[w] == c);
                assert(t.commands.contains(c));
                let i = choose|i: int|
                    0 <= i < rest.len() && c == removal_command((#[trigger] rest[i]).name, rest[i].rev) && snap_fate(
                        rest[i].rev,
                        facts[i].current,
                    ) is Old;
                assert(looks[i] == rest[i]);
            } else {
                assert(c == removal_command(looks[n].name, looks[n].rev));
            }
        }
    }
}

/// Every command removes a revision that the list reports as disabled and that
/// the active one supersedes.
pub proof fn law_only_disabled_revisions_go(
    snaps: Seq<u8>,
    root: Seq<u8>,
    list: Seq<char>,
    roots: Seq<Seq<u8>>,
    facts: Seq<SnapFacts>,
    c: Seq<char>,
)
    requires
        facts.len() == disabled_in(list).len(),
        snap_tally(looks_in(snaps, root, list, roots), facts).commands.contains(c),
    ensures
        exists|i: int|
            0 <= i < disabled_in(list).len() && c == removal_command((#[trigger] disabled_in(list)[i]).0, disabled_in(list)[i].1)
                && snap_fate(disabled_in(list)[i].1, facts[i].current) is Old,
{
    let looks = looks_in(snaps, root, list, roots);
    law_only_superseded_revisions_go(looks, facts);
    let i = choose|i: int|
        0 <= i < looks.len() && c == removal_command((#[trigger] looks[i]).name, looks[i].rev) && snap_fate(
            looks[i].rev,
            facts[i].current,
        ) is Old;
    assert(looks[i] == look_at(snaps, root, roots, disabled_in(list)[i]));
}

/// No active revision, or one that is neither this nor an older number.
pub open spec fn is_superseded(rev: Seq<char>, current: Option<Vec<u8>>) -> bool {
    current matches Some(c) ==> c@ != encode_utf8(rev) && !(number(rev, u64::MAX as nat) is Some && number(lossy_text(c@), u64::MAX as nat) is Some
        && number(rev, u64::MAX as nat)->0 > number(lossy_text(c@), u64::MAX as nat)->0)
}

proof fn lemma_commands(looks: Seq<SnapLookView>, facts: Seq<SnapFacts>, c: Seq<char>)
    ensures
        snap_tally(looks, facts).commands.contains(c) <==> exists|i: int|
            0 <= i < looks.len() && is_superseded((#[trigger] looks[i]).rev, facts[i].current) && c == "sudo snap remove "@ + quoted(looks[i].name)
                + " --revision="@ + quoted(looks[i].rev),
    decreases looks.len(),
{
    if looks.len() > 0 {
        let front = looks.drop_last();
        let l = looks.last();
        let n = looks.len() - 1;
        lemma_commands(front, facts, c);
        let t = snap_tally(front, facts);
        lemma_push_contains(t.commands, "sudo snap remove "@ + quoted(l.name) + " --revision="@ + quoted(l.rev), c);
        if exists|i: int|
            0 <= i < front.len() && is_superseded((#[trigger] front[i]).rev, facts[i].current) && c == "sudo snap remove "@ + quoted(front[i].name)
                + " --revision="@ + quoted(front[i].rev) {
            let i = choose|i: int|
                0 <= i < front.len() && is_superseded((#[trigger] front[i]).rev, facts[i].current) && c == "sudo snap remove "@ + quoted(
                    front[i].name,
                ) + " --revision="@ + quoted(front[i].rev);
            assert(looks[i] == front[i]);
        }
        assert forall|i: int|
            0 <= i < looks.len() && is_superseded((#[trigger] looks[i]).rev, facts[i].current) && c == "sudo snap remove "@ + quoted(looks[i].name)
                + " --revision="@ + quoted(looks[i].rev) implies snap_tally(looks, facts).commands.contains(c) by {
            if i < n {
                assert(front[i] == looks[i]);
            }
        }
        assert(looks[n] == l);
    }
}

/// A command removes a revision exactly if the list reports it as disabled and it
/// is not the active one nor a higher number than that.
pub proof fn law_only_lower_revisions_are_removed(
    snaps: Seq<u8>,
    root: Seq<u8>,
    list: Seq<char>,
    roots: Seq<Seq<u8>>,
    facts: Seq<SnapFacts>,
    c: Seq<char>,
)
    requires
        facts.len() == disabled_in(list).len(),
    ensures
        snap_tally(looks_in(snaps, root, list, roots), facts).commands.contains(c) <==> exists|i: int|
            0 <= i < disabled_in(list).len() && c == "sudo snap remove "@ + quoted((#[trigger] disabled_in(list)[i]).0) + " --revision="@ + quoted(
                disabled_in(list)[i].1,
            ) && (facts[i].current matches Some(a) ==> a@ != encode_utf8(disabled_in(list)[i].1) && (number(
                disabled_in(list)[i].1,
                u64::MAX as nat,
            ) matches Some(r) ==> (number(lossy_text(a@), u64::MAX as nat) matches Some(k) ==> r <= k))),
{
    let looks = looks_in(snaps, root, list, roots);
    lemma_commands(looks, facts, c);
    let d = disabled_in(list);
    assert forall|i: int| 0 <= i < d.len() implies (#[trigger] looks[i]).name == d[i].0 && looks[i].rev == d[i].1 by {
        assert(looks[i] == look_at(snaps, root, roots, d[i]));
    }
    if snap_tally(looks, facts).commands.contains(c) {
        let i = choose|i: int|
            0 <= i < looks.len() && is_superseded((#[trigger] looks[i]).rev, facts[i].current) && c == "sudo snap remove "@ + quoted(looks[i].name)
                + " --revision="@ + quoted(looks[i].rev);
        assert(d[i].0 == looks[i].name);
    }
    assert forall|i: int|
        0 <= i < d.len() && c == "sudo snap remove "@ + quoted((#[trigger] d[i]).0) + " --revision="@ + quoted(d[i].1) && (facts[i].current matches Some(a)
            ==> a@ != encode_utf8(d[i].1) && (number(d[i].1, u64::MAX as nat) matches Some(r) ==> (number(lossy_text(a@), u64::MAX as nat) matches Some(
            k,
        ) ==> r <= k))) implies snap_tally(looks, facts).commands.contains(c) by {
        assert(looks[i].name == d[i].0);
    }
}

/// Of two revisions written as plain numbers, only the lower one is removed.
pub proof fn law_a_removed_number_is_below_the_active_one(rev: nat, active: nat, current: Vec<u8>)
    requires
        rev <= u64::MAX,
        active <= u64::MAX,
        current@ == encode_utf8(digits(active)),
    ensures
        is_superseded(digits(rev), Some(current)) <==> rev < active,
{
    law_digits_read_back(rev, u64::MAX as nat);
    law_digits_read_back(active, u64::MAX as nat);
    lossy_of_text(digits(active));
    encode_utf8_decode_utf8(digits(rev));
    encode_utf8_decode_utf8(digits(active));
    lemma_digits(rev);
    lemma_digits(active);
}

proof fn lossy_of_text(s: Seq<char>)
    ensures
        lossy_text(encode_utf8(s)) == s,
{
    encode_utf8_valid_utf8(s);
    encode_utf8_decode_utf8(s);
}

/// A revision with a higher number than the active one is named in a manual
/// step, with its snap and the active revision; nothing removes it.
pub proof fn law_newer_revisions_are_left_to_the_user(looks: Seq<SnapLookView>, facts: Seq<SnapFacts>, i: int)
    requires
        0 <= i < looks.len(),
        facts[i].current is Some,
        facts[i].current->0@ != encode_utf8(looks[i].rev),
        number(looks[i].rev, u64::MAX as nat) is Some,
        number(lossy_text(facts[i].current->0@), u64::MAX as nat) is Some,
        number(looks[i].rev, u64::MAX as nat)->0 > number(lossy_text(facts[i].current->0@), u64::MAX as nat)->0,
    ensures
        snap_tally(looks, facts).reverted.contains(
            looks[i].name + " revision "@ + looks[i].rev + " (active: "@ + lossy_text(facts[i].current->0@) + ")"@,
        ),
    decreases looks.len(),
{
    let front = looks.drop_last();
    let l = looks.last();
    let x = looks[i].name + " revision "@ + looks[i].rev + " (active: "@ + lossy_text(facts[i].current->0@) + ")"@;
    let t = snap_tally(front, facts).reverted;
    let all = snap_tally(looks, facts).reverted;
    if i < looks.len() - 1 {
        law_newer_revisions_are_left_to_the_user(front, facts, i);
        let w = choose|w: int| 0 <= w < t.len() && t[w] == x;
        assert(all[w] == x);
    } else {
        assert(all == t.push(x));
        lemma_push_contains(t, x, x);
    }
}

/// The findings of a tally: newer revisions are a manual step of the highest
/// caution, and the superseded ones go by their commands, one independent of
/// another.
pub proof fn law_tally_becomes_findings(t: SnapTallyView)
    ensures
        t.reverted.len() > 0 ==> tally_findings(t).len() > 0 && tally_findings(t)[0].id == "snap-reverted"@ && tally_findings(t)[0].risk
            == Risk::Caution && tally_findings(t)[0].action is Manual && tally_findings(t)[0].paths.len() == 0 && tally_findings(t)[0].bytes
            == t.reverted_bytes as u64 && contains(tally_findings(t)[0].detail, join(t.reverted, ", "@)),
        t.commands.len() > 0 ==> tally_findings(t).len() > 0 && tally_findings(t).last().id == "snap-revisions"@ && tally_findings(t).last().risk
            == Risk::Moderate && tally_findings(t).last().action == (ActionView::Shell { command: join(t.commands, "; "@) }) && tally_findings(
            t,
        ).last().needs_root && tally_findings(t).last().paths == t.paths && tally_findings(t).last().bytes == (t.bytes + t.data) as u64,
        t.reverted.len() == 0 && t.commands.len() == 0 ==> tally_findings(t).len() == 0,
        tally_findings(t).len() == (if t.reverted.len() > 0 { 1int } else { 0 }) + (if t.commands.len() > 0 { 1int } else { 0 }),
{
    if t.reverted.len() > 0 {
        let d = tally_findings(t)[0].detail;
        let j = join(t.reverted, ", "@);
        assert(d.subrange(0, 0int + j.len()) =~= j);
    }
}

/// The bytes of the superseded revisions are those of their files, and what
/// comes back at once those of the files with no second link; the data is that of
/// their folders. What is not superseded adds nothing.
pub proof fn law_tally_adds_up(looks: Seq<SnapLookView>, facts: Seq<SnapFacts>)
    requires
        looks.len() <= facts.len(),
    ensures
        snap_tally(looks, facts).bytes == total_of(
            Seq::new(
                looks.len(),
                |i: int|
                    if is_superseded(looks[i].rev, facts[i].current) && facts[i].file is Some {
                        facts[i].file->0.bytes as nat
                    } else {
                        0
                    },
            ),
        ),
        snap_tally(looks, facts).immediate == total_of(
            Seq::new(
                looks.len(),
                |i: int|
                    if is_superseded(looks[i].rev, facts[i].current) && facts[i].file is Some && facts[i].file->0.nlink <= 1 {
                        facts[i].file->0.bytes as nat
                    } else {
                        0
                    },
            ),
        ),
        snap_tally(looks, facts).data == total_of(
            Seq::new(
                looks.len(),
                |i: int|
                    if is_superseded(looks[i].rev, facts[i].current) {
                        found_bytes(facts[i].data@, facts[i].data@.len() as int)
                    } else {
                        0
                    },
            ),
        ),
    decreases looks.len(),
{
    let front = looks.drop_last();
    if looks.len() > 0 {
        law_tally_adds_up(front, facts);
        let g1 = |v: Seq<SnapLookView>, i: int|
            if is_superseded(v[i].rev, facts[i].current) && facts[i].file is Some { facts[i].file->0.bytes as nat } else { 0 };
        let g2 = |v: Seq<SnapLookView>, i: int|
            if is_superseded(v[i].rev, facts[i].current) && facts[i].file is Some && facts[i].file->0.nlink <= 1 {
                facts[i].file->0.bytes as nat
            } else {
                0
            };
        let g3 = |v: Seq<SnapLookView>, i: int|
            if is_superseded(v[i].rev, facts[i].current) { found_bytes(facts[i].data@, facts[i].data@.len() as int) } else { 0 };
        assert(Seq::new(looks.len(), |i: int| g1(looks, i)).drop_last() =~= Seq::new(front.len(), |i: int| g1(front, i)));
        assert(Seq::new(looks.len(), |i: int| g2(looks, i)).drop_last() =~= Seq::new(front.len(), |i: int| g2(front, i)));
        assert(Seq::new(looks.len(), |i: int| g3(looks, i)).drop_last() =~= Seq::new(front.len(), |i: int| g3(front, i)));
        assert(Seq::new(looks.len(), |i: int| g1(looks, i)) =~= Seq::new(
            looks.len(),
            |i: int|
                if is_superseded(looks[i].rev, facts[i].current) && facts[i].file is Some {
                    facts[i].file->0.bytes as nat
                } else {
                    0
                },
        ));
        assert(Seq::new(front.len(), |i: int| g1(front, i)) =~= Seq::new(
            front.len(),
            |i: int|
                if is_superseded(front[i].rev, facts[i].current) && facts[i].file is Some {
                    facts[i].file->0.bytes as nat
                } else {
                    0
                },
        ));
        assert(Seq::new(looks.len(), |i: int| g2(looks, i)) =~= Seq::new(
            looks.len(),
            |i: int|
                if is_superseded(looks[i].rev, facts[i].current) && facts[i].file is Some && facts[i].file->0.nlink <= 1 {
                    facts[i].file->0.bytes as nat
                } else {
                    0
                },
        ));
        assert(Seq::new(front.len(), |i: int| g2(front, i)) =~= Seq::new(
            front.len(),
            |i: int|
                if is_superseded(front[i].rev, facts[i].current) && facts[i].file is Some && facts[i].file->0.nlink <= 1 {
                    facts[i].file->0.bytes as nat
                } else {
                    0
                },
        ));
        assert(Seq::new(looks.len(), |i: int| g3(looks, i)) =~= Seq::new(
            looks.len(),
            |i: int|
                if is_superseded(looks[i].rev, facts[i].current) {
                    found_bytes(facts[i].data@, facts[i].data@.len() as int)
                } else {
                    0
                },
        ));
        assert(Seq::new(front.len(), |i: int| g3(front, i)) =~= Seq::new(
            front.len(),
            |i: int|
                if is_superseded(front[i].rev, facts[i].current) {
                    found_bytes(facts[i].data@, facts[i].data@.len() as int)
                } else {
                    0
                },
        ));
    }
}

/// A row is reported exactly if it has as many words as the header, the notes
/// column says `disabled` between commas, and name and revision are well formed.
pub proof fn law_disabled_rows_say_so(list: Seq<char>, n: Seq<char>, r: Seq<char>, a: int, b: int, c: int)
    requires
        lines(list).len() > 0,
        0 <= a < words(lines(list)[0]).len(),
        0 <= b < words(lines(list)[0]).len(),
        0 <= c < words(lines(list)[0]).len(),
        words(lines(list)[0]).len() <= usize::MAX,
        words(lines(list)[0])[a] == "Name"@,
        words(lines(list)[0])[b] == "Rev"@,
        words(lines(list)[0])[c] == "Notes"@,
        forall|i: int| 0 <= i < a ==> #[trigger] words(lines(list)[0])[i] != "Name"@,
        forall|i: int| 0 <= i < b ==> #[trigger] words(lines(list)[0])[i] != "Rev"@,
        forall|i: int| 0 <= i < c ==> #[trigger] words(lines(list)[0])[i] != "Notes"@,
    ensures
        disabled_in(list).contains((n, r)) <==> exists|i: int|
            1 <= i < lines(list).len() && words(#[trigger] lines(list)[i]).len() == words(lines(list)[0]).len() && words(lines(list)[i])[a] == n && words(
                lines(list)[i],
            )[b] == r && split(words(lines(list)[i])[c], ',').contains("disabled"@) && snap_name(n) && snap_revision(r),
{
    let ls = lines(list);
    let head = words(ls[0]);
    lemma_column(head, "Name"@, a, 0);
    lemma_column(head, "Rev"@, b, 0);
    lemma_column(head, "Notes"@, c, 0);
    let k = SnapColumns { count: head.len() as usize, name: a as usize, rev: b as usize, notes: c as usize };
    assert(snap_columns(ls[0]) == Some(k));
    let rows = ls.skip(1);
    lemma_disabled_rows(k, rows, (n, r));
    if disabled_in(list).contains((n, r)) {
        let i = choose|i: int| 0 <= i < rows.len() && disabled_row(k, #[trigger] rows[i]) == Some((n, r));
        assert(ls[i + 1] == rows[i]);
    }
    assert forall|i: int|
        1 <= i < ls.len() && words(#[trigger] ls[i]).len() == head.len() && words(ls[i])[a] == n && words(ls[i])[b] == r && split(
            words(ls[i])[c],
            ',',
        ).contains("disabled"@) && snap_name(n) && snap_revision(r) implies disabled_in(list).contains((n, r)) by {
        assert(rows[i - 1] == ls[i]);
        assert(disabled_row(k, rows[i - 1]) == Some((n, r)));
    }
}

proof fn lemma_column(cols: Seq<Seq<char>>, n: Seq<char>, a: int, i: int)
    requires
        0 <= i <= a < cols.len(),
        cols[a] == n,
        forall|j: int| 0 <= j < a ==> #[trigger] cols[j] != n,
    ensures
        column_from(cols, n, i) == a,
    decreases a - i,
{
    if i < a {
        lemma_column(cols, n, a, i + 1);
    }
}

proof fn lemma_disabled_rows(c: SnapColumns, list: Seq<Seq<char>>, x: (Seq<char>, Seq<char>))
    ensures
        disabled_rows(c, list).contains(x) <==> exists|i: int| 0 <= i < list.len() && disabled_row(c, #[trigger] list[i]) == Some(x),
    decreases list.len(),
{
    if list.len() > 0 {
        let front = list.drop_last();
        lemma_disabled_rows(c, front, x);
        if let Some(y) = disabled_row(c, list.last()) {
            lemma_push_contains(disabled_rows(c, front), y, x);
        }
        if exists|i: int| 0 <= i < front.len() && disabled_row(c, #[trigger] front[i]) == Some(x) {
            let i = choose|i: int| 0 <= i < front.len() && disabled_row(c, #[trigger] front[i]) == Some(x);
            assert(list[i] == front[i]);
        }
        assert forall|i: int| 0 <= i < list.len() && disabled_row(c, #[trigger] list[i]) == Some(x) implies disabled_rows(c, list).contains(x) by {
            if i < front.len() {
                assert(front[i] == list[i]);
            }
        }
        assert(list[list.len() - 1] == list.last());
    }
}

/// A snap's name is lower-case letters, digits and dashes; a revision is a number,
/// or one behind an `x`.
pub proof fn law_snap_names_and_revisions(n: Seq<char>, r: Seq<char>)
    ensures
        snap_name(n) <==> n.len() > 0 && forall|i: int|
            0 <= i < n.len() ==> 'a' <= #[trigger] n[i] <= 'z' || '0' <= n[i] <= '9' || n[i] == '-',
        r.len() > 0 && (forall|i: int| 0 <= i < r.len() ==> '0' <= #[trigger] r[i] <= '9') ==> snap_revision(r) && snap_revision(seq!['x'] + r),
        snap_revision(r) ==> r.len() > 0 && forall|i: int| 0 <= i < r.len() ==> '0' <= #[trigger] r[i] <= '9' || (i == 0 && r[0] == 'x' && r.len() > 1),
{
    if snap_name(n) {
        assert forall|i: int| 0 <= i < n.len() implies 'a' <= #[trigger] n[i] <= 'z' || '0' <= n[i] <= '9' || n[i] == '-' by {
            assert(snap_name_char(n[i]));
            lemma_digit_char(n[i]);
        }
    } else if n.len() > 0 {
        let i = choose|i: int| 0 <= i < n.len() && !snap_name_char(#[trigger] n[i]);
        lemma_digit_char(n[i]);
    }
    if r.len() > 0 && (forall|i: int| 0 <= i < r.len() ==> '0' <= #[trigger] r[i] <= '9') {
        assert forall|i: int| 0 <= i < r.len() implies is_digit(#[trigger] r[i]) by {
            lemma_digit_char(r[i]);
        }
        assert(r[0] != 'x');
        assert((seq!['x'] + r).skip(1) =~= r);
    }
    if snap_revision(r) {
        let d = if r[0] == 'x' { r.skip(1) } else { r };
        assert forall|i: int| 0 <= i < r.len() implies '0' <= #[trigger] r[i] <= '9' || (i == 0 && r[0] == 'x' && r.len() > 1) by {
            let k = if r[0] == 'x' { i - 1 } else { i };
            if k >= 0 {
                assert(is_digit(d[k]));
                lemma_digit_char(d[k]);
            }
        }
    }
}

/// Where a revision is looked for: its file among the downloaded snaps, the link
/// that says which revision is active, and its data in each of the data folders.
pub proof fn law_where_a_revision_is_looked_for(
    snaps: Seq<u8>,
    root: Seq<u8>,
    roots: Seq<Seq<u8>>,
    name: Seq<char>,
    rev: Seq<char>,
    i: int,
)
    ensures
        ({
            let l = look_at(snaps, root, roots, (name, rev));
            &&& l.name == name && l.rev == rev
            &&& l.link == join_bytes(join_bytes(root, encode_utf8(name)), encode_utf8("current"@))
            &&& l.file == join_bytes(snaps, encode_utf8(name + "_"@ + rev + ".snap"@))
            &&& l.data.len() == roots.len()
            &&& 0 <= i < roots.len() ==> l.data[i] == join_bytes(join_bytes(roots[i], encode_utf8(name)), encode_utf8(rev))
        }),
{
}

/// The files of the superseded revisions are listed, and no other.
pub proof fn law_files_of_superseded_revisions_are_listed(looks: Seq<SnapLookView>, facts: Seq<SnapFacts>, p: Seq<u8>)
    requires
        looks.len() <= facts.len(),
    ensures
        snap_tally(looks, facts).paths.contains(p) <==> exists|i: int|
            0 <= i < looks.len() && p == (#[trigger] looks[i]).file && facts[i].file is Some && is_superseded(looks[i].rev, facts[i].current),
    decreases looks.len(),
{
    if looks.len() > 0 {
        let front = looks.drop_last();
        let l = looks.last();
        let f = facts[looks.len() - 1];
        law_files_of_superseded_revisions_are_listed(front, facts, p);
        lemma_push_contains(snap_tally(front, facts).paths, l.file, p);
        assert(looks[looks.len() - 1] == l);
        assert(is_superseded(l.rev, f.current) <==> snap_fate(l.rev, f.current) == SnapFate::Old);
        if exists|i: int|
            0 <= i < looks.len() && p == (#[trigger] looks[i]).file && facts[i].file is Some && is_superseded(looks[i].rev, facts[i].current) {
            let i = choose|i: int|
                0 <= i < looks.len() && p == (#[trigger] looks[i]).file && facts[i].file is Some && is_superseded(
                    looks[i].rev,
                    facts[i].current,
                );
            if i < front.len() {
                assert(front[i] == looks[i]);
            }
        }
        if exists|i: int|
            0 <= i < front.len() && p == (#[trigger] front[i]).file && facts[i].file is Some && is_superseded(front[i].rev, facts[i].current) {
            let i = choose|i: int|
                0 <= i < front.len() && p == (#[trigger] front[i]).file && facts[i].file is Some && is_superseded(
                    front[i].rev,
                    facts[i].current,
                );
            assert(looks[i] == front[i]);
        }
    }
}

/// The titles tell how many revisions a finding is about, and of which snaps.
pub proof fn law_snap_titles_count_the_revisions(t: SnapTallyView)
    ensures
        revisions_finding(t).title == "Disabled snap revisions ("@ + digits(t.commands.len()) + " in "@ + join(t.names, ", "@) + ")"@,
        reverted_finding(t).title == "Snap revisions newer than the active one ("@ + digits(t.reverted.len()) + ")"@,
{
}

} // verus!
