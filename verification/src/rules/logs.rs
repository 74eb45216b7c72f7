//! The journal, rotated logs, crash reports and core dumps.

use vstd::prelude::*;
use vstd::utf8::{encode_utf8, is_ascii_chars_encode_utf8, valid_utf8};

use crate::order::{arranged, law_rearranging_keeps_everything, lemma_ranked, lemma_total_rearranged, rank, ranked, rearranges, total_of};
use crate::path::{
    comps, inside, join_bytes, lemma_join_comps, lossy_text, paths_view, plain_name, same_path, utf8_exact, utf8_lossy, FsPath,
};
use crate::rules::kernels::lemma_push_contains;
use crate::rules::measure::{
    by_path, delete_command, law_measured_bytes_add_up, law_sorted_paths_are_the_same_paths, lemma_by_path, lemma_by_path_among, measured_bytes, measured_paths, measured_views,
    order_paths, path_order, sudo_delete_files, sum_measured, Measured,
};
use crate::rules::{all_utf8, finding_views, Action, ActionView, CheckOutput, Finding, FindingView, Risk};
use crate::text::{
    after_last, all_digits, behind_last, chars_of, decimal, digits, ends, ends_with, contains,
    is_digit, lemma_digit_char, lemma_ends, only_digits, slice, starts, starts_with, value,
};
use crate::util::{fmt_size, quoted, shq_path, size_text};

verus! {

/// The number that two digits stand for.
pub open spec fn two_digits(s: Seq<char>, i: int) -> nat {
    value(s.subrange(i, i + 2))
}

/// A date stamp: YYYYMMDD or YYYYMMDDhhmmss of this century.
pub open spec fn date_stamp(ext: Seq<char>) -> bool {
    &&& ext.len() == 8 || ext.len() == 14
    &&& ext[0] == '2'
    &&& ext[1] == '0'
    &&& 1 <= two_digits(ext, 4) <= 12
    &&& 1 <= two_digits(ext, 6) <= 31
}

/// logrotate's names: `x.gz` / `x.xz`, or `x.N` with a small rotation number
/// (unless `x` itself ends in a number), or `x.log.<date stamp>`.
pub open spec fn rotated(name: Seq<char>) -> bool {
    ||| ends(name, ".gz"@)
    ||| ends(name, ".xz"@)
    ||| {
        let at = after_last(name, '.');
        let stem = name.take(at - 1);
        let ext = name.skip(at);
        let last = stem.skip(after_last(stem, '.'));
        &&& at > 0
        &&& all_digits(ext)
        &&& {
            ||| ends(stem, ".log"@) && date_stamp(ext)
            ||| 1 <= ext.len() <= 3 && !(last.len() > 0 && all_digits(last))
        }
    }
}

fn two_digit_value(v: &Vec<char>, i: usize) -> (r: u32)
    requires
        i + 2 <= v@.len(),
        all_digits(v@),
    ensures
        r == two_digits(v@, i as int),
{
    let n: usize = v.len();
    proof {
        let s = v@.subrange(i as int, i + 2);
        assert(s.drop_last() =~= seq![v@[i as int]]);
        assert(seq![v@[i as int]].drop_last() =~= Seq::empty());
        assert(value(Seq::<char>::empty()) == 0);
        assert(crate::text::is_digit(v@[i as int]));
        assert(crate::text::is_digit(v@[i + 1]));
        assert(seq![v@[i as int]].last() == v@[i as int]);
        assert(value(seq![v@[i as int]]) == v@[i as int] as u32 - 48);
    }
    let (a, b): (char, char) = (v[i], v[i + 1]);
    (a as u32 - 48) * 10 + (b as u32 - 48)
}

/// logrotate's names: `x.gz` / `x.xz`, or `x.N` with a
/// small rotation number. `mysql-bin.000002` (a live MySQL binlog) and
/// `10.0.0.5` (rsyslog's per-host file) are not rotations.
pub fn is_rotated_log(name: &str) -> (r: bool)
    ensures
        r == rotated(name@),
{
    let v = chars_of(name);
    if ends_with(&v, ".gz") || ends_with(&v, ".xz") {
        return true;
    }
    let at = behind_last(&v, '.');
    if at == 0 {
        return false;
    }
    let stem = slice(&v, 0, at - 1);
    let ext = slice(&v, at, v.len());
    proof {
        assert(stem@ =~= name@.take(at - 1));
        assert(ext@ =~= name@.skip(at as int));
    }
    if !only_digits(&ext) {
        return false;
    }
    // `x.log.20260914085904`: a date-stamped rotation (YYYYMMDD[hhmmss]).
    if ends_with(&stem, ".log") && (ext.len() == 8 || ext.len() == 14) && ext[0] == '2' && ext[1] == '0' {
        let month = two_digit_value(&ext, 4);
        let day = two_digit_value(&ext, 6);
        if 1 <= month && month <= 12 && 1 <= day && day <= 31 {
            return true;
        }
    }
    if ext.len() < 1 || ext.len() > 3 {
        return false;
    }
    let last = slice(&stem, behind_last(&stem, '.'), stem.len());
    assert(last@ =~= stem@.skip(after_last(stem@, '.')));
    !(last.len() > 0 && only_digits(&last))
}

/// A directory entry of the kind that log rules look at.
pub struct LogEntry {
    pub name: Vec<u8>,
    pub is_dir: bool,
    pub is_file: bool,
    /// Allocated bytes.
    pub bytes: u64,
}

/// What is found in one directory: directories to walk, and rotated logs.
pub struct LogStep {
    pub dirs: Vec<FsPath>,
    pub files: Vec<Measured>,
}

/// A `*.index` file marks numbered files that belong together (MySQL binlogs):
/// those are data, never rotated logs.
pub open spec fn has_index(list: Seq<LogEntry>) -> bool {
    exists|i: int| 0 <= i < list.len() && ends(lossy_text((#[trigger] list[i]).name@), ".index"@)
}

/// Left out: the journal (own rule), the install record, and apt's current
/// solver log, which is no rotation.
pub open spec fn log_skipped(root: Seq<u8>, p: Seq<u8>) -> bool {
    ||| same_path(p, join_bytes(root, encode_utf8("journal"@)))
    ||| same_path(p, join_bytes(root, encode_utf8("installer"@)))
    ||| same_path(p, join_bytes(root, encode_utf8("apt/eipp.log.xz"@)))
}

pub open spec fn log_dirs(root: Seq<u8>, dir: Seq<u8>, list: Seq<LogEntry>) -> Seq<Seq<u8>>
    decreases list.len(),
{
    if list.len() == 0 {
        Seq::empty()
    } else {
        let rest = log_dirs(root, dir, list.drop_last());
        let e = list.last();
        let p = join_bytes(dir, e.name@);
        if e.is_dir && !log_skipped(root, p) {
            rest.push(p)
        } else {
            rest
        }
    }
}

pub open spec fn log_files(root: Seq<u8>, dir: Seq<u8>, list: Seq<LogEntry>) -> Seq<(Seq<u8>, u64)>
    decreases list.len(),
{
    if list.len() == 0 {
        Seq::empty()
    } else {
        let rest = log_files(root, dir, list.drop_last());
        let e = list.last();
        let p = join_bytes(dir, e.name@);
        if !e.is_dir && e.is_file && !log_skipped(root, p) && rotated(lossy_text(e.name@)) {
            rest.push((p, e.bytes))
        } else {
            rest
        }
    }
}

fn finds_index(list: &Vec<LogEntry>) -> (r: bool)
    ensures
        r == has_index(list@),
{
    for i in 0..list.len()
        invariant
            forall|j: int| 0 <= j < i ==> !ends(lossy_text((#[trigger] list@[j]).name@), ".index"@),
    {
        if ends_with(&chars_of(utf8_lossy(&list[i].name).as_str()), ".index") {
            assert(ends(lossy_text(list@[i as int].name@), ".index"@));
            return true;
        }
    }
    false
}

/// One step of the walk for rotated logs below `root`: what the entries of
/// `dir` come to.
pub fn rotated_log_files(root: &FsPath, dir: &FsPath, list: &Vec<LogEntry>) -> (r: LogStep)
    ensures
        has_index(list@) ==> r.dirs@.len() == 0 && r.files@.len() == 0,
        !has_index(list@) ==> paths_view(r.dirs@) == log_dirs(root@, dir@, list@) && measured_views(r.files@)
            == log_files(root@, dir@, list@),
{
    let mut dirs: Vec<FsPath> = Vec::new();
    let mut files: Vec<Measured> = Vec::new();
    if finds_index(list) {
        return LogStep { dirs, files };
    }
    let (journal, installer, eipp) = (root.join_str("journal"), root.join_str("installer"), root.join_str("apt/eipp.log.xz"));
    proof {
        assert(paths_view(dirs@) =~= Seq::empty());
        assert(measured_views(files@) =~= Seq::empty());
    }
    for i in 0..list.len()
        invariant
            journal@ == join_bytes(root@, encode_utf8("journal"@)),
            installer@ == join_bytes(root@, encode_utf8("installer"@)),
            eipp@ == join_bytes(root@, encode_utf8("apt/eipp.log.xz"@)),
            paths_view(dirs@) == log_dirs(root@, dir@, list@.take(i as int)),
            measured_views(files@) == log_files(root@, dir@, list@.take(i as int)),
    {
        let e = &list[i];
        proof {
            assert(list@.take(i + 1).drop_last() =~= list@.take(i as int));
        }
        let p = dir.join_name(&e.name);
        if !p.same(&journal) && !p.same(&installer) && !p.same(&eipp) {
            let ghost (dirs0, files0) = (dirs@, files@);
            if e.is_dir {
                dirs.push(p);
                assert(paths_view(dirs@) =~= paths_view(dirs0).push(p@));
            } else if e.is_file && is_rotated_log(utf8_lossy(&e.name).as_str()) {
                let m = Measured { path: p, bytes: e.bytes };
                files.push(m);
                assert(measured_views(files@) =~= measured_views(files0).push((m.path@, m.bytes)));
            }
        }
    }
    assert(list@.take(list@.len() as int) =~= list@);
    LogStep { dirs, files }
}

/// A directory that was read on the walk for rotated logs.
pub struct LogRead {
    pub dir: Seq<u8>,
    pub list: Seq<LogEntry>,
}

/// The directories to walk in one that was read.
pub open spec fn dirs_at(root: Seq<u8>, r: LogRead) -> Seq<Seq<u8>> {
    if has_index(r.list) {
        Seq::empty()
    } else {
        log_dirs(root, r.dir, r.list)
    }
}

/// The rotated logs in a directory that was read.
pub open spec fn files_at(root: Seq<u8>, r: LogRead) -> Seq<(Seq<u8>, u64)> {
    if has_index(r.list) {
        Seq::empty()
    } else {
        log_files(root, r.dir, r.list)
    }
}

/// The rotated logs in the directories that were read.
pub open spec fn logs_read(root: Seq<u8>, read: Seq<LogRead>) -> Seq<(Seq<u8>, u64)>
    decreases read.len(),
{
    if read.len() == 0 {
        Seq::empty()
    } else {
        logs_read(root, read.drop_last()) + files_at(root, read.last())
    }
}

/// The walk for rotated logs below `root`.
pub struct LogWalk {
    pub root: FsPath,
    /// The directories left to read, the next one last.
    pub todo: Vec<FsPath>,
    /// The rotated logs found so far.
    pub files: Vec<Measured>,
    /// The directories that were read.
    pub read: Ghost<Seq<LogRead>>,
}

impl LogWalk {
    /// `p` is where the walk began, or was listed in one of the first `n`
    /// directories read.
    pub open spec fn listed(self, p: Seq<u8>, n: int) -> bool {
        p == self.root@ || exists|j: int| 0 <= j < n && dirs_at(self.root@, #[trigger] self.read@[j]).contains(p)
    }

    /// `p` was read or is to be.
    pub open spec fn reached(self, p: Seq<u8>) -> bool {
        ||| exists|j: int| 0 <= j < self.read@.len() && (#[trigger] self.read@[j]).dir == p
        ||| paths_view(self.todo@).contains(p)
    }

    /// The walk has found the rotated logs of what it has read; it reads only
    /// what it was led to, and leaves nothing of that out.
    pub open spec fn wf(self) -> bool {
        &&& measured_views(self.files@) == logs_read(self.root@, self.read@)
        &&& self.reached(self.root@)
        &&& forall|i: int| 0 <= i < self.read@.len() ==> self.listed((#[trigger] self.read@[i]).dir, i)
        &&& forall|i: int| 0 <= i < self.todo@.len() ==> self.listed((#[trigger] self.todo@[i])@, self.read@.len() as int)
        &&& forall|j: int, p: Seq<u8>|
            0 <= j < self.read@.len() && #[trigger] dirs_at(self.root@, self.read@[j]).contains(p) ==> self.reached(p)
    }

    pub fn begin(root: &FsPath) -> (r: LogWalk)
        ensures
            r.wf(),
            r.root@ == root@,
            paths_view(r.todo@) == seq![root@],
            r.read@ == Seq::<LogRead>::empty(),
    {
        let mut todo: Vec<FsPath> = Vec::new();
        todo.push(root.clone());
        let files: Vec<Measured> = Vec::new();
        assert(paths_view(todo@) =~= seq![root@]);
        assert(paths_view(todo@)[0] == root@);
        assert(measured_views(files@) =~= Seq::empty());
        LogWalk { root: root.clone(), todo, files, read: Ghost(Seq::empty()) }
    }

    /// The directory to read next; `None` when the walk is finished.
    pub fn next(&self) -> (r: Option<FsPath>)
        ensures
            r is None <==> self.todo@.len() == 0,
            r matches Some(p) ==> p@ == self.todo@.last()@,
    {
        if self.todo.len() == 0 {
            None
        } else {
            Some(self.todo[self.todo.len() - 1].clone())
        }
    }

    /// The directory that was next has been read: `list` holds its entries.
    pub fn step(&mut self, list: &Vec<LogEntry>)
        requires
            old(self).wf(),
            old(self).todo@.len() > 0,
        ensures
            final(self).wf(),
            final(self).root@ == old(self).root@,
            final(self).read@ == old(self).read@.push((LogRead { dir: old(self).todo@.last()@, list: list@ })),
            paths_view(final(self).todo@) == paths_view(old(self).todo@.drop_last()) + dirs_at(
                old(self).root@,
                (LogRead { dir: old(self).todo@.last()@, list: list@ }),
            ),
    {
        let ghost w = *self;
        let dir = self.todo[self.todo.len() - 1].clone();
        let ghost now = LogRead { dir: dir@, list: list@ };
        let mut found = rotated_log_files(&self.root, &dir, list);
        proof {
            if has_index(list@) {
                assert(paths_view(found.dirs@) =~= Seq::empty());
                assert(measured_views(found.files@) =~= Seq::empty());
            }
        }
        let ghost (dirs, files) = (paths_view(found.dirs@), measured_views(found.files@));
        let _ = self.todo.pop();
        self.todo.append(&mut found.dirs);
        self.files.append(&mut found.files);
        self.read = Ghost(w.read@.push(now));
        proof {
            assert(paths_view(self.todo@) =~= paths_view(w.todo@.drop_last()) + dirs);
            assert(measured_views(self.files@) =~= measured_views(w.files@) + files);
            assert(self.read@.drop_last() =~= w.read@);
            lemma_log_step(w, *self, now);
        }
    }
}

proof fn lemma_log_step(a: LogWalk, b: LogWalk, now: LogRead)
    requires
        a.wf(),
        a.todo@.len() > 0,
        now.dir == a.todo@.last()@,
        b.root@ == a.root@,
        b.read@ == a.read@.push(now),
        paths_view(b.todo@) == paths_view(a.todo@.drop_last()) + dirs_at(a.root@, now),
        measured_views(b.files@) == logs_read(b.root@, b.read@),
    ensures
        b.wf(),
{
    let n = a.read@.len() as int;
    let root = a.root@;
    let (ta, tb) = (paths_view(a.todo@), paths_view(b.todo@));
    assert forall|p: Seq<u8>| #[trigger] a.reached(p) implies b.reached(p) by {
        if exists|j: int| 0 <= j < a.read@.len() && (#[trigger] a.read@[j]).dir == p {
            let j = choose|j: int| 0 <= j < a.read@.len() && (#[trigger] a.read@[j]).dir == p;
            assert(b.read@[j].dir == p);
        } else {
            let w = choose|w: int| 0 <= w < ta.len() && ta[w] == p;
            if w == ta.len() - 1 {
                assert(b.read@[n].dir == p);
            } else {
                assert(tb[w] == p);
            }
        }
    }
    assert forall|p: Seq<u8>, k: int| k <= n && #[trigger] a.listed(p, k) implies b.listed(p, k) by {
        if p != root {
            let j = choose|j: int| 0 <= j < k && dirs_at(root, #[trigger] a.read@[j]).contains(p);
            assert(b.read@[j] == a.read@[j]);
        }
    }
    assert forall|i: int| 0 <= i < b.read@.len() implies b.listed((#[trigger] b.read@[i]).dir, i) by {
        if i < n {
            assert(b.read@[i] == a.read@[i]);
            assert(a.listed(a.read@[i].dir, i));
        } else {
            assert(a.listed(a.todo@[a.todo@.len() - 1]@, n));
        }
    }
    assert forall|i: int| 0 <= i < b.todo@.len() implies b.listed((#[trigger] b.todo@[i])@, b.read@.len() as int) by {
        let p = b.todo@[i]@;
        assert(tb.len() == b.todo@.len() && tb[i] == p);
        assert(b.read@[n] == now);
        if i < ta.len() - 1 {
            assert(p == a.todo@[i]@);
            assert(a.listed(p, n));
            assert(b.listed(p, n));
            if p != root {
                let j = choose|j: int| 0 <= j < n && dirs_at(root, #[trigger] b.read@[j]).contains(p);
                assert(dirs_at(root, b.read@[j]).contains(p));
            }
        } else {
            assert(dirs_at(root, now)[i - (ta.len() - 1)] == p);
            assert(dirs_at(root, b.read@[n]).contains(p));
        }
    }
    assert forall|j: int, p: Seq<u8>| 0 <= j < b.read@.len() && #[trigger] dirs_at(b.root@, b.read@[j]).contains(p) implies b.reached(p) by {
        if j < n {
            assert(dirs_at(root, a.read@[j]).contains(p));
            assert(a.reached(p));
        } else {
            let w = choose|w: int| 0 <= w < dirs_at(root, now).len() && dirs_at(root, now)[w] == p;
            assert(tb[ta.len() - 1 + w] == p);
        }
    }
    assert(a.reached(root));
}

/// The files that a shell command can name exactly (valid UTF-8).
pub open spec fn utf8_files(list: Seq<(Seq<u8>, u64)>) -> Seq<(Seq<u8>, u64)>
    decreases list.len(),
{
    if list.len() == 0 {
        Seq::empty()
    } else {
        let rest = utf8_files(list.drop_last());
        if valid_utf8(list.last().0) {
            rest.push(list.last())
        } else {
            rest
        }
    }
}

proof fn lemma_utf8_files(list: Seq<(Seq<u8>, u64)>)
    ensures
        forall|i: int| 0 <= i < utf8_files(list).len() ==> valid_utf8(#[trigger] utf8_files(list)[i].0),
        measured_bytes(utf8_files(list)) <= measured_bytes(list),
    decreases list.len(),
{
    if list.len() > 0 {
        lemma_utf8_files(list.drop_last());
        let rest = utf8_files(list.drop_last());
        if valid_utf8(list.last().0) {
            assert(rest.push(list.last()).drop_last() =~= rest);
        }
    }
}

/// Keep only paths a shell command can name exactly (valid UTF-8).
pub fn utf8_only(files: Vec<Measured>) -> (r: Vec<Measured>)
    ensures
        measured_views(r@) == utf8_files(measured_views(files@)),
{
    let ghost mv = measured_views(files@);
    let mut out: Vec<Measured> = Vec::new();
    assert(measured_views(out@) =~= Seq::empty());
    for i in 0..files.len()
        invariant
            mv == measured_views(files@),
            measured_views(out@) == utf8_files(mv.take(i as int)),
    {
        proof {
            assert(mv.take(i + 1).drop_last() =~= mv.take(i as int));
            assert(mv.take(i + 1).last() == (files@[i as int].path@, files@[i as int].bytes));
        }
        if files[i].path.to_str().is_some() {
            let ghost before = out@;
            let m = Measured { path: files[i].path.clone(), bytes: files[i].bytes };
            out.push(m);
            assert(measured_views(out@) =~= measured_views(before).push((m.path@, m.bytes)));
        }
    }
    assert(mv.take(files@.len() as int) =~= mv);
    out
}

/// The paths of measured files.
pub(crate) fn paths_of(files: &Vec<Measured>) -> (r: Vec<FsPath>)
    ensures
        paths_view(r@) == measured_paths(measured_views(files@)),
        r@.len() == files@.len(),
{
    let ghost want = measured_paths(measured_views(files@));
    let mut out: Vec<FsPath> = Vec::new();
    for i in 0..files.len()
        invariant
            want == measured_paths(measured_views(files@)),
            paths_view(out@) == want.take(i as int),
    {
        let ghost before = out@;
        let p = files[i].path.clone();
        out.push(p);
        assert(paths_view(out@) =~= paths_view(before).push(p@));
        assert(paths_view(out@) =~= want.take(i + 1));
    }
    proof {
        assert(paths_view(out@) =~= want);
        assert(paths_view(out@).len() == out@.len());
    }
    out
}

proof fn lemma_sorted_utf8(v: Seq<Seq<u8>>, o: Seq<usize>)
    requires
        path_order(v, o),
        all_utf8(v),
    ensures
        all_utf8(by_path(v)),
{
    lemma_by_path(v, o);
    assert forall|i: int| 0 <= i < arranged(v, o).len() implies valid_utf8(#[trigger] arranged(v, o)[i]) by {
        assert(valid_utf8(v[o[i] as int]));
    }
}

/// The finding about rotated logs, which deletes exactly the counted files.
pub open spec fn rotated_finding(root: Seq<u8>, files: Seq<(Seq<u8>, u64)>) -> FindingView {
    let paths = by_path(measured_paths(files));
    FindingView {
        id: "rotated-logs"@,
        category: "Logs"@,
        title: "Rotated logs in "@ + lossy_text(root) + " ("@ + digits(files.len()) + " files)"@,
        risk: Risk::Moderate,
        bytes: measured_bytes(files) as u64,
        detail: "Compressed or numbered log archives left behind by logrotate. Current logs are untouched; you lose older history only."@,
        paths,
        action: ActionView::Shell { command: delete_command(root, paths) },
        needs_root: true,
    }
}

/// The paths of measured files in order, as UTF-8 throughout.
pub(crate) fn sorted_paths(files: &Vec<Measured>) -> (r: Vec<FsPath>)
    requires
        all_utf8(measured_paths(measured_views(files@))),
    ensures
        paths_view(r@) == by_path(measured_paths(measured_views(files@))),
        all_utf8(paths_view(r@)),
        r@.len() == files@.len(),
{
    let list = paths_of(files);
    let o = order_paths(&list);
    proof {
        lemma_sorted_utf8(paths_view(list@), o@);
    }
    crate::rules::measure::sort_paths(&list)
}

/// The findings about the rotated logs `files` below `root`: those that a
/// command can name exactly.
pub open spec fn rotated_found(root: Seq<u8>, files: Seq<(Seq<u8>, u64)>) -> Seq<FindingView> {
    let kept = utf8_files(files);
    if measured_bytes(kept) == 0 {
        Seq::empty()
    } else {
        seq![rotated_finding(root, kept)]
    }
}

/// Rotated-log check: what the finished walk below a folder with logs has found.
pub fn rotated_log_findings(walk: LogWalk) -> (r: CheckOutput)
    requires
        walk.wf(),
        walk.todo@.len() == 0,
        measured_bytes(measured_views(walk.files@)) <= u64::MAX,
    ensures
        r.notes@.len() == 0,
        finding_views(r.findings@) == rotated_found(walk.root@, logs_read(walk.root@, walk.read@)),
{
    proof {
        lemma_utf8_files(measured_views(walk.files@));
    }
    let root = &walk.root;
    let files = utf8_only(walk.files);
    let ghost kept = measured_views(files@);
    let bytes = sum_measured(&files);
    if bytes == 0 {
        let out = CheckOutput { findings: Vec::new(), notes: Vec::new() };
        assert(finding_views(out.findings@) =~= Seq::empty());
        return out;
    }
    proof {
        assert(kept.len() == files@.len());
        assert forall|i: int| 0 <= i < measured_paths(kept).len() implies valid_utf8(#[trigger] measured_paths(kept)[i]) by {
            assert(valid_utf8(kept[i].0));
        }
    }
    let paths = sorted_paths(&files);
    let f = Finding {
        id: "rotated-logs".to_owned(),
        category: "Logs".to_owned(),
        title: "Rotated logs in ".to_owned().concat(root.display().as_str()).concat(" (").concat(decimal(paths.len() as u64).as_str()).concat(" files)"),
        risk: Risk::Moderate,
        bytes,
        detail: "Compressed or numbered log archives left behind by logrotate. Current logs are untouched; you lose older history only.".to_owned(),
        action: Action::Shell { command: sudo_delete_files(root, &paths) },
        paths,
        needs_root: true,
    };
    let out = CheckOutput::one(f);
    assert(finding_views(out.findings@) =~= seq![f@]);
    out
}

proof fn lemma_log_files(root: Seq<u8>, dir: Seq<u8>, list: Seq<LogEntry>, f: (Seq<u8>, u64))
    requires
        log_files(root, dir, list).contains(f),
    ensures
        exists|k: int| 0 <= k < list.len() && rotated_entry(root, dir, #[trigger] list[k], f.0),
    decreases list.len(),
{
    if list.len() > 0 {
        let front = list.drop_last();
        let rest = log_files(root, dir, front);
        let e = list.last();
        lemma_push_contains(rest, (join_bytes(dir, e.name@), e.bytes), f);
        if rest.contains(f) {
            lemma_log_files(root, dir, front, f);
            let k = choose|k: int| 0 <= k < front.len() && rotated_entry(root, dir, #[trigger] front[k], f.0);
            assert(list[k] == front[k]);
        } else {
            assert(rotated_entry(root, dir, list[list.len() - 1], f.0));
        }
    }
}

proof fn lemma_logs_read(root: Seq<u8>, read: Seq<LogRead>, f: (Seq<u8>, u64))
    requires
        logs_read(root, read).contains(f),
    ensures
        exists|j: int, k: int|
            0 <= j < read.len() && 0 <= k < read[j].list.len() && rotated_entry(root, read[j].dir, #[trigger] read[j].list[k], f.0),
    decreases read.len(),
{
    if read.len() > 0 {
        let front = read.drop_last();
        let rest = logs_read(root, front);
        let own = files_at(root, read.last());
        let w = choose|w: int| 0 <= w < (rest + own).len() && (rest + own)[w] == f;
        if w < rest.len() {
            assert(rest[w] == f);
            lemma_logs_read(root, front, f);
            let (j, k) = choose|j: int, k: int|
                0 <= j < front.len() && 0 <= k < front[j].list.len() && rotated_entry(
                    root,
                    front[j].dir,
                    #[trigger] front[j].list[k],
                    f.0,
                );
            assert(rotated_entry(root, read[j].dir, read[j].list[k], f.0));
        } else {
            assert(own[w - rest.len()] == f);
            let n = read.len() - 1;
            lemma_log_files(root, read[n].dir, read[n].list, f);
            let k = choose|k: int| 0 <= k < read[n].list.len() && rotated_entry(root, read[n].dir, #[trigger] read[n].list[k], f.0);
            assert(rotated_entry(root, read[n].dir, read[n].list[k], f.0));
        }
    }
}

proof fn lemma_utf8_among(list: Seq<(Seq<u8>, u64)>, f: (Seq<u8>, u64))
    ensures
        utf8_files(list).len() <= list.len(),
        utf8_files(list).contains(f) ==> list.contains(f),
    decreases list.len(),
{
    if list.len() > 0 {
        lemma_utf8_among(list.drop_last(), f);
        lemma_push_contains(utf8_files(list.drop_last()), list.last(), f);
        assert(list =~= list.drop_last().push(list.last()));
        lemma_push_contains(list.drop_last(), list.last(), f);
    }
}

proof fn lemma_log_dirs(root: Seq<u8>, dir: Seq<u8>, list: Seq<LogEntry>, p: Seq<u8>)
    requires
        log_dirs(root, dir, list).contains(p),
    ensures
        exists|k: int| 0 <= k < list.len() && p == join_bytes(dir, (#[trigger] list[k]).name@),
        !log_skipped(root, p),
    decreases list.len(),
{
    if list.len() > 0 {
        let front = list.drop_last();
        let rest = log_dirs(root, dir, front);
        lemma_push_contains(rest, join_bytes(dir, list.last().name@), p);
        if rest.contains(p) {
            lemma_log_dirs(root, dir, front, p);
            let k = choose|k: int| 0 <= k < front.len() && p == join_bytes(dir, (#[trigger] front[k]).name@);
            assert(list[k] == front[k]);
        } else {
            assert(p == join_bytes(dir, list[list.len() - 1].name@));
        }
    }
}

/// Below the folder with the logs, and not in the journal or the install record.
pub open spec fn among_logs(root: Seq<u8>, p: Seq<u8>) -> bool {
    &&& inside(p, root)
    &&& !inside(p, join_bytes(root, encode_utf8("journal"@)))
    &&& !inside(p, join_bytes(root, encode_utf8("installer"@)))
}

proof fn lemma_root_among(root: Seq<u8>)
    ensures
        among_logs(root, root),
{
    reveal_strlit("journal");
    reveal_strlit("installer");
    let (j, i) = ("journal"@, "installer"@);
    is_ascii_chars_encode_utf8(j);
    is_ascii_chars_encode_utf8(i);
    let (a, b) = (encode_utf8(j), encode_utf8(i));
    assert forall|k: int| 0 <= k < a.len() implies a[k] != 47 by {
        assert(j[k] as u8 == a[k] && j[k] != '/');
    }
    assert forall|k: int| 0 <= k < b.len() implies b[k] != 47 by {
        assert(i[k] as u8 == b[k] && i[k] != '/');
    }
    lemma_join_comps(root, a);
    lemma_join_comps(root, b);
    assert(comps(root).take(comps(root).len() as int) =~= comps(root));
}

proof fn lemma_join_outside(place: Seq<u8>, dir: Seq<u8>, name: Seq<u8>)
    requires
        !inside(dir, place),
        !same_path(join_bytes(dir, name), place),
        plain_name(name),
    ensures
        !inside(join_bytes(dir, name), place),
{
    lemma_join_comps(dir, name);
    let (c, d) = (comps(place), comps(dir));
    if c.is_prefix_of(d.push(name)) {
        if c.len() <= d.len() {
            assert(d.take(c.len() as int) =~= d.push(name).take(c.len() as int));
        } else {
            assert(d.push(name).take(c.len() as int) =~= d.push(name));
        }
    }
}

proof fn lemma_join_among(root: Seq<u8>, dir: Seq<u8>, name: Seq<u8>)
    requires
        among_logs(root, dir),
        plain_name(name),
        !log_skipped(root, join_bytes(dir, name)),
    ensures
        among_logs(root, join_bytes(dir, name)),
{
    lemma_join_comps(dir, name);
    let n = comps(root).len() as int;
    assert(comps(dir).push(name).take(n) =~= comps(dir).take(n));
    lemma_join_outside(join_bytes(root, encode_utf8("journal"@)), dir, name);
    lemma_join_outside(join_bytes(root, encode_utf8("installer"@)), dir, name);
}

proof fn lemma_read_among(walk: LogWalk, j: int)
    requires
        walk.wf(),
        forall|i: int, k: int|
            0 <= i < walk.read@.len() && 0 <= k < walk.read@[i].list.len() ==> plain_name((#[trigger] walk.read@[i].list[k]).name@),
        0 <= j < walk.read@.len(),
    ensures
        among_logs(walk.root@, walk.read@[j].dir),
    decreases j,
{
    let (root, p) = (walk.root@, walk.read@[j].dir);
    assert(walk.listed(p, j));
    if p == root {
        lemma_root_among(root);
    } else {
        let i = choose|i: int| 0 <= i < j && dirs_at(root, #[trigger] walk.read@[i]).contains(p);
        let r = walk.read@[i];
        lemma_read_among(walk, i);
        lemma_log_dirs(root, r.dir, r.list, p);
        let k = choose|k: int| 0 <= k < r.list.len() && p == join_bytes(r.dir, (#[trigger] r.list[k]).name@);
        assert(plain_name(walk.read@[i].list[k].name@));
        lemma_join_among(root, r.dir, r.list[k].name@);
    }
}

/// `p` is an entry of `dir` that is a rotated log and is not spared.
pub open spec fn rotated_entry(root: Seq<u8>, dir: Seq<u8>, e: LogEntry, p: Seq<u8>) -> bool {
    p == join_bytes(dir, e.name@) && e.is_file && !e.is_dir && rotated(lossy_text(e.name@)) && !log_skipped(root, p)
}

/// Whatever is deleted is a regular file that is named like a rotated log and was
/// listed in a directory on the walk. It lies below the folder with the logs,
/// and neither in the journal nor in the install record.
pub proof fn law_only_rotated_logs_are_deleted(walk: LogWalk, p: Seq<u8>)
    requires
        walk.wf(),
        forall|i: int, k: int|
            0 <= i < walk.read@.len() && 0 <= k < walk.read@[i].list.len() ==> plain_name((#[trigger] walk.read@[i].list[k]).name@),
        rotated_found(walk.root@, logs_read(walk.root@, walk.read@)).len() > 0,
        rotated_found(walk.root@, logs_read(walk.root@, walk.read@))[0].paths.contains(p),
    ensures
        exists|j: int, k: int|
            0 <= j < walk.read@.len() && 0 <= k < walk.read@[j].list.len() && rotated_entry(
                walk.root@,
                walk.read@[j].dir,
                #[trigger] walk.read@[j].list[k],
                p,
            ),
        among_logs(walk.root@, p),
{
    let root = walk.root@;
    let all = logs_read(root, walk.read@);
    let kept = utf8_files(all);
    let paths = measured_paths(kept);
    assert(walk.files.len() == all.len());
    lemma_utf8_among(all, all[0]);
    lemma_by_path_among(paths, p);
    let w = choose|w: int| 0 <= w < paths.len() && paths[w] == p;
    let f = kept[w];
    assert(kept.contains(f));
    lemma_utf8_among(all, f);
    lemma_logs_read(root, walk.read@, f);
    let (j, k) = choose|j: int, k: int|
        0 <= j < walk.read@.len() && 0 <= k < walk.read@[j].list.len() && rotated_entry(
            root,
            walk.read@[j].dir,
            #[trigger] walk.read@[j].list[k],
            f.0,
        );
    assert(f.0 == p);
    lemma_read_among(walk, j);
    lemma_join_among(root, walk.read@[j].dir, walk.read@[j].list[k].name@);
}

/// One of apport's own files.
pub open spec fn crash_name(n: Seq<char>) -> bool {
    &&& !starts(n, "."@)
    &&& ends(n, ".crash"@) || ends(n, ".upload"@) || ends(n, ".uploaded"@)
}

/// The regular files of a listing whose name is asked for and that a shell
/// command can name exactly.
pub open spec fn crash_files(dir: Seq<u8>, list: Seq<LogEntry>) -> Seq<(Seq<u8>, u64)>
    decreases list.len(),
{
    if list.len() == 0 {
        Seq::empty()
    } else {
        let rest = crash_files(dir, list.drop_last());
        let e = list.last();
        if e.is_file && crash_name(lossy_text(e.name@)) && valid_utf8(join_bytes(dir, e.name@)) {
            rest.push((join_bytes(dir, e.name@), e.bytes))
        } else {
            rest
        }
    }
}

/// The regular files of a listing with a name that is valid UTF-8.
pub open spec fn plain_files(dir: Seq<u8>, list: Seq<LogEntry>) -> Seq<(Seq<u8>, u64)>
    decreases list.len(),
{
    if list.len() == 0 {
        Seq::empty()
    } else {
        let rest = plain_files(dir, list.drop_last());
        let e = list.last();
        if e.is_file && valid_utf8(e.name@) && valid_utf8(join_bytes(dir, e.name@)) {
            rest.push((join_bytes(dir, e.name@), e.bytes))
        } else {
            rest
        }
    }
}

/// The bytes of all entries of a listing.
pub open spec fn listing_bytes(list: Seq<LogEntry>) -> nat
    decreases list.len(),
{
    if list.len() == 0 {
        0
    } else {
        listing_bytes(list.drop_last()) + list.last().bytes as nat
    }
}

proof fn lemma_crash_files(dir: Seq<u8>, list: Seq<LogEntry>)
    ensures
        all_utf8(measured_paths(crash_files(dir, list))),
        measured_bytes(crash_files(dir, list)) <= listing_bytes(list),
        all_utf8(measured_paths(plain_files(dir, list))),
        measured_bytes(plain_files(dir, list)) <= listing_bytes(list),
    decreases list.len(),
{
    if list.len() > 0 {
        lemma_crash_files(dir, list.drop_last());
        let e = list.last();
        let x = (join_bytes(dir, e.name@), e.bytes);
        let a = crash_files(dir, list.drop_last());
        let b = plain_files(dir, list.drop_last());
        assert(a.push(x).drop_last() =~= a);
        assert(b.push(x).drop_last() =~= b);
        assert(measured_paths(a.push(x)) =~= measured_paths(a).push(x.0));
        assert(measured_paths(b.push(x)) =~= measured_paths(b).push(x.0));
        if valid_utf8(x.0) {
            assert forall|i: int| 0 <= i < measured_paths(a.push(x)).len() implies valid_utf8(
                #[trigger] measured_paths(a.push(x))[i],
            ) by {
                if i < a.len() {
                    assert(measured_paths(a.push(x))[i] == measured_paths(a)[i]);
                }
            }
            assert forall|i: int| 0 <= i < measured_paths(b.push(x)).len() implies valid_utf8(
                #[trigger] measured_paths(b.push(x))[i],
            ) by {
                if i < b.len() {
                    assert(measured_paths(b.push(x))[i] == measured_paths(b)[i]);
                }
            }
        }
    }
}

/// What the crash check finds in the directory `dir` (a real one, no link): one
/// finding about all its crash files.
pub open spec fn crashes_found(dir: Seq<u8>, real_dir: bool, list: Seq<LogEntry>) -> Seq<FindingView> {
    let files = crash_files(dir, list);
    let paths = measured_paths(files);
    if !real_dir || files.len() == 0 {
        Seq::empty()
    } else {
        seq![
            FindingView {
                id: "crash"@,
                category: "Crash dumps"@,
                title: "Crash reports in "@ + lossy_text(dir) + " ("@ + digits(files.len()) + " files)"@,
                risk: Risk::Safe,
                bytes: measured_bytes(files) as u64,
                detail: "Core dumps and reports collected by apport. Once reported (or if you do not plan to), they serve no purpose."@,
                paths,
                action: ActionView::Shell { command: delete_command(dir, paths) },
                needs_root: true,
            },
        ]
    }
}

/// Crash-report check: the listing of apport's directory, if that is a real
/// directory (not a symlink). Only apport's own files count.
pub fn crash_findings(dir: &FsPath, real_dir: bool, list: &Vec<LogEntry>) -> (r: CheckOutput)
    requires
        listing_bytes(list@) <= u64::MAX,
    ensures
        r.notes@.len() == 0,
        finding_views(r.findings@) == crashes_found(dir@, real_dir, list@),
{
    let mut files: Vec<Measured> = Vec::new();
    assert(measured_views(files@) =~= Seq::empty());
    for i in 0..list.len()
        invariant
            measured_views(files@) == crash_files(dir@, list@.take(i as int)),
    {
        let e = &list[i];
        proof {
            assert(list@.take(i + 1).drop_last() =~= list@.take(i as int));
        }
        let n = chars_of(utf8_lossy(&e.name).as_str());
        if e.is_file && !starts_with(&n, ".") && (ends_with(&n, ".crash") || ends_with(&n, ".upload") || ends_with(&n, ".uploaded")) {
            let p = dir.join_name(&e.name);
            if p.to_str().is_some() {
                let ghost before = files@;
                let m = Measured { path: p, bytes: e.bytes };
                files.push(m);
                assert(measured_views(files@) =~= measured_views(before).push((m.path@, m.bytes)));
            }
        }
    }
    proof {
        assert(list@.take(list@.len() as int) =~= list@);
        lemma_crash_files(dir@, list@);
        assert(measured_views(files@).len() == files@.len());
    }
    if !real_dir || files.len() == 0 {
        let out = CheckOutput { findings: Vec::new(), notes: Vec::new() };
        assert(finding_views(out.findings@) =~= Seq::empty());
        return out;
    }
    let bytes = sum_measured(&files);
    let paths = paths_of(&files);
    let f = Finding {
        id: "crash".to_owned(),
        category: "Crash dumps".to_owned(),
        title: "Crash reports in ".to_owned().concat(dir.display().as_str()).concat(" (").concat(decimal(paths.len() as u64).as_str()).concat(" files)"),
        risk: Risk::Safe,
        bytes,
        detail: "Core dumps and reports collected by apport. Once reported (or if you do not plan to), they serve no purpose.".to_owned(),
        action: Action::Shell { command: sudo_delete_files(dir, &paths) },
        paths,
        needs_root: true,
    };
    let out = CheckOutput::one(f);
    assert(finding_views(out.findings@) =~= seq![f@]);
    out
}

/// What the core dump check finds in `dir`: one finding about all its files.
pub open spec fn coredumps_found(dir: Seq<u8>, list: Seq<LogEntry>) -> Seq<FindingView> {
    let files = plain_files(dir, list);
    let paths = by_path(measured_paths(files));
    if files.len() == 0 {
        Seq::empty()
    } else {
        seq![
            FindingView {
                id: "coredumps"@,
                category: "Crash dumps"@,
                title: "systemd core dumps ("@ + digits(files.len()) + " files)"@,
                risk: Risk::Safe,
                bytes: measured_bytes(files) as u64,
                detail: "Memory images of crashed programs kept by systemd-coredump for debugging."@,
                paths,
                action: ActionView::Shell { command: delete_command(dir, paths) },
                needs_root: true,
            },
        ]
    }
}

/// systemd-coredump's stored core dumps: the listing of its directory.
pub fn coredump_findings(dir: &FsPath, list: &Vec<LogEntry>) -> (r: CheckOutput)
    requires
        listing_bytes(list@) <= u64::MAX,
    ensures
        r.notes@.len() == 0,
        finding_views(r.findings@) == coredumps_found(dir@, list@),
{
    let files = list_plain(dir, list);
    proof {
        lemma_crash_files(dir@, list@);
        assert(measured_views(files@).len() == files@.len());
    }
    if files.len() == 0 {
        let out = CheckOutput { findings: Vec::new(), notes: Vec::new() };
        assert(finding_views(out.findings@) =~= Seq::empty());
        return out;
    }
    let bytes = sum_measured(&files);
    let paths = sorted_paths(&files);
    let f = Finding {
        id: "coredumps".to_owned(),
        category: "Crash dumps".to_owned(),
        title: "systemd core dumps (".to_owned().concat(decimal(paths.len() as u64).as_str()).concat(" files)"),
        risk: Risk::Safe,
        bytes,
        detail: "Memory images of crashed programs kept by systemd-coredump for debugging.".to_owned(),
        action: Action::Shell { command: sudo_delete_files(dir, &paths) },
        paths,
        needs_root: true,
    };
    let out = CheckOutput::one(f);
    assert(finding_views(out.findings@) =~= seq![f@]);
    out
}

fn list_plain(dir: &FsPath, list: &Vec<LogEntry>) -> (files: Vec<Measured>)
    ensures
        measured_views(files@) == plain_files(dir@, list@),
{
    let mut files: Vec<Measured> = Vec::new();
    assert(measured_views(files@) =~= Seq::empty());
    for i in 0..list.len()
        invariant
            measured_views(files@) == plain_files(dir@, list@.take(i as int)),
    {
        let e = &list[i];
        proof {
            assert(list@.take(i + 1).drop_last() =~= list@.take(i as int));
        }
        if e.is_file && utf8_exact(&e.name).is_some() {
            let p = dir.join_name(&e.name);
            if p.to_str().is_some() {
                let ghost before = files@;
                let m = Measured { path: p, bytes: e.bytes };
                files.push(m);
                assert(measured_views(files@) =~= measured_views(before).push((m.path@, m.bytes)));
            }
        }
    }
    assert(list@.take(list@.len() as int) =~= list@);
    files
}

/// A file of the journal's store.
pub struct JournalFile {
    /// Archived (`…@….journal[~]`), so that a vacuum may remove it.
    pub archived: bool,
    /// When it was last modified: seconds since 1970, and nanoseconds.
    pub secs: i64,
    pub nanos: u32,
    pub bytes: u64,
}

/// Whether a file of this name is a journal file, and if so, an archived one.
pub open spec fn journal_kind(name: Seq<char>) -> Option<bool> {
    if ends(name, ".journal"@) || ends(name, ".journal~"@) {
        Some(name.contains('@'))
    } else {
        None
    }
}

/// Is the file of this name a journal file, and an archived one?
pub fn journal_file(name: &Vec<u8>) -> (r: Option<bool>)
    ensures
        r == journal_kind(lossy_text(name@)),
{
    let v = chars_of(utf8_lossy(name).as_str());
    if !(ends_with(&v, ".journal") || ends_with(&v, ".journal~")) {
        return None;
    }
    for i in 0..v.len()
        invariant
            v@ == lossy_text(name@),
            ends(v@, ".journal"@) || ends(v@, ".journal~"@),
            forall|j: int| 0 <= j < i ==> v@[j] != '@',
    {
        if v[i] == '@' {
            assert(v@.contains('@'));
            return Some(true);
        }
    }
    Some(false)
}

/// When a file was last modified, in nanoseconds.
pub open spec fn modified(f: JournalFile) -> i128 {
    (f.secs * 1_000_000_000 + f.nanos) as i128
}

pub open spec fn modified_times(files: Seq<JournalFile>) -> Seq<i128> {
    Seq::new(files.len(), |i: int| modified(files[i]))
}

/// The bytes of journal files.
pub open spec fn journal_bytes(files: Seq<JournalFile>) -> nat
    decreases files.len(),
{
    if files.len() == 0 {
        0
    } else {
        journal_bytes(files.drop_last()) + files.last().bytes as nat
    }
}

/// The bytes of the archived ones among them.
pub open spec fn archived_bytes(files: Seq<JournalFile>) -> nat
    decreases files.len(),
{
    if files.len() == 0 {
        0
    } else {
        archived_bytes(files.drop_last()) + if files.last().archived {
            files.last().bytes as nat
        } else {
            0
        }
    }
}

/// What a vacuum frees that walks `files`, removing archived ones, until at
/// most `keep` of `total` bytes is left.
pub open spec fn vacuumed(files: Seq<JournalFile>, total: int, keep: int) -> nat
    decreases files.len(),
{
    if files.len() == 0 {
        0
    } else {
        let freed = vacuumed(files.drop_last(), total, keep);
        if files.last().archived && total - freed > keep {
            freed + files.last().bytes as nat
        } else {
            freed
        }
    }
}

/// What `journalctl --vacuum-size=<keep>` frees: whole archived files, oldest
/// first, until all journal files together use at most `keep`.
pub open spec fn vacuum_frees(files: Seq<JournalFile>, keep: u64) -> nat {
    vacuumed(arranged(files, ranked(modified_times(files))), journal_bytes(files) as int, keep as int)
}

/// A vacuum stops as soon as at most `keep` is left: it removes the archived
/// files among the first few, was above `keep` before each of them, and has
/// reached `keep` unless it ran out of archived files.
pub proof fn law_vacuum_stops_in_time(files: Seq<JournalFile>, total: int, keep: int)
    ensures
        ({
            let freed = vacuumed(files, total, keep);
            &&& freed <= archived_bytes(files)
            &&& total - freed <= keep || freed == archived_bytes(files)
            &&& exists|k: int|
                0 <= k <= files.len() && freed == archived_bytes(#[trigger] files.take(k)) && forall|j: int|
                    0 <= j < k ==> total - archived_bytes(#[trigger] files.take(j)) > keep
        }),
    decreases files.len(),
{
    if files.len() == 0 {
        assert(files.take(0) =~= files);
    } else {
        let rest = files.drop_last();
        law_vacuum_stops_in_time(rest, total, keep);
        let freed = vacuumed(rest, total, keep);
        let k = choose|k: int|
            0 <= k <= rest.len() && freed == archived_bytes(#[trigger] rest.take(k)) && forall|j: int|
                0 <= j < k ==> total - archived_bytes(#[trigger] rest.take(j)) > keep;
        let n = files.len() as int;
        assert forall|j: int| 0 <= j < n implies #[trigger] files.take(j) == rest.take(j) by {
            assert(files.take(j) =~= rest.take(j));
        }
        if total - freed > keep {
            assert(freed == archived_bytes(rest));
            assert(files.take(n) =~= files);
            assert forall|j: int| 0 <= j < n implies total - archived_bytes(#[trigger] files.take(j)) > keep by {
                lemma_archived_grows(rest, j);
                assert(files.take(j) == rest.take(j));
            }
            assert(vacuumed(files, total, keep) == archived_bytes(files.take(n)));
        } else {
            assert(files.take(k) == rest.take(k));
        }
    }
}

proof fn lemma_archived_grows(files: Seq<JournalFile>, k: int)
    requires
        0 <= k <= files.len(),
    ensures
        archived_bytes(files.take(k)) <= archived_bytes(files),
    decreases files.len(),
{
    if k < files.len() {
        assert(files.drop_last().take(k) =~= files.take(k));
        lemma_archived_grows(files.drop_last(), k);
    } else {
        assert(files.take(k) =~= files);
    }
}

proof fn lemma_journal_grows(files: Seq<JournalFile>, k: int)
    requires
        0 <= k <= files.len(),
    ensures
        journal_bytes(files.take(k)) <= journal_bytes(files),
    decreases files.len(),
{
    if k < files.len() {
        assert(files.drop_last().take(k) =~= files.take(k));
        lemma_journal_grows(files.drop_last(), k);
    } else {
        assert(files.take(k) =~= files);
    }
}

proof fn lemma_vacuumed_bounded(files: Seq<JournalFile>, total: int, keep: int)
    ensures
        vacuumed(files, total, keep) <= journal_bytes(files),
    decreases files.len(),
{
    if files.len() > 0 {
        lemma_vacuumed_bounded(files.drop_last(), total, keep);
    }
}

proof fn lemma_journal_sum(files: Seq<JournalFile>)
    ensures
        journal_bytes(files) == total_of(Seq::new(files.len(), |i: int| files[i].bytes as nat)),
    decreases files.len(),
{
    let s = Seq::new(files.len(), |i: int| files[i].bytes as nat);
    if files.len() > 0 {
        let r = files.drop_last();
        lemma_journal_sum(r);
        assert(s.drop_last() =~= Seq::new(r.len(), |i: int| r[i].bytes as nat));
    }
}

/// What a vacuum down to `keep` bytes frees. None when there are no readable
/// journal files.
pub fn journal_vacuum_bytes(files: &Vec<JournalFile>, keep: u64) -> (r: Option<u64>)
    requires
        journal_bytes(files@) <= u64::MAX,
    ensures
        r is None <==> files@.len() == 0,
        r matches Some(n) ==> n == vacuum_frees(files@, keep),
{
    if files.len() == 0 {
        return None;
    }
    let mut times: Vec<i128> = Vec::new();
    let mut total: u64 = 0;
    for i in 0..files.len()
        invariant
            journal_bytes(files@) <= u64::MAX,
            total == journal_bytes(files@.take(i as int)),
            times@ == modified_times(files@).take(i as int),
    {
        proof {
            assert(files@.take(i + 1).drop_last() =~= files@.take(i as int));
            lemma_journal_grows(files@, i + 1);
        }
        let ghost before = times@;
        let at: i128 = files[i].secs as i128 * 1_000_000_000 + files[i].nanos as i128;
        times.push(at);
        total += files[i].bytes;
        assert(times@ =~= modified_times(files@).take(i + 1));
    }
    assert(files@.take(files@.len() as int) =~= files@);
    assert(times@ =~= modified_times(files@));
    let o = rank(&times);
    let ghost walk = arranged(files@, o@);
    proof {
        lemma_journal_sum(walk);
        lemma_journal_sum(files@);
        let s = Seq::new(files@.len(), |i: int| files@[i].bytes as nat);
        lemma_total_rearranged(s, o@);
        assert(Seq::new(o@.len(), |i: int| s[o@[i] as int]) =~= Seq::new(walk.len(), |i: int| walk[i].bytes as nat));
    }
    let mut freed: u64 = 0;
    for k in 0..o.len()
        invariant
            rearranges(o@, files@.len() as int),
            walk == arranged(files@, o@),
            journal_bytes(walk) == total,
            freed == vacuumed(walk.take(k as int), total as int, keep as int),
            freed <= total,
    {
        let f = &files[o[k]];
        proof {
            assert(walk.take(k + 1).drop_last() =~= walk.take(k as int));
            lemma_vacuumed_bounded(walk.take(k + 1), total as int, keep as int);
            lemma_journal_grows(walk, k + 1);
        }
        if f.archived && total - freed > keep {
            freed += f.bytes;
        }
    }
    assert(walk.take(o@.len() as int) =~= walk);
    Some(freed)
}

/// A size as journalctl takes it: in MiB where it is a whole number of them,
/// else in KiB.
pub open spec fn keep_arg(keep: u64) -> Seq<char> {
    if keep % 1_048_576 == 0 {
        digits((keep / 1_048_576) as nat) + "M"@
    } else {
        digits((keep / 1024) as nat) + "K"@
    }
}

/// The finding about the journal, if a vacuum frees anything.
pub open spec fn journal_finding(dir: Seq<u8>, size: u64, keep: u64, frees: u64) -> FindingView {
    let mb = digits((keep / 1_048_576) as nat);
    FindingView {
        id: "journal"@,
        category: "Logs"@,
        title: "systemd journal is "@ + size_text(size) + " (keep "@ + size_text(keep) + ")"@,
        risk: Risk::Moderate,
        bytes: frees,
        detail: "Persistent journal logs in /var/log/journal. Vacuuming deletes the oldest archived journal files until "@ + mb
            + " MiB remain. To cap it permanently, set SystemMaxUse="@ + mb + "M in /etc/systemd/journald.conf."@,
        paths: seq![dir],
        action: ActionView::Shell {
            command: "sudo journalctl --directory="@ + quoted(lossy_text(dir)) + " --vacuum-size="@ + keep_arg(keep),
        },
        needs_root: true,
    }
}

/// What the journal check finds: the finding about the store, where it uses more
/// than `keep` and a vacuum frees something.
pub open spec fn journal_found(dir: Seq<u8>, is_dir: bool, size: u64, files: Seq<JournalFile>, keep: u64) -> Seq<FindingView> {
    let frees = if files.len() == 0 {
        (size - keep) as nat
    } else {
        vacuum_frees(files, keep)
    };
    if !is_dir || size <= keep || frees == 0 {
        Seq::empty()
    } else {
        seq![journal_finding(dir, size, keep, frees as u64)]
    }
}

/// Journal check: the store at `dir` (if it is a directory) uses `size` bytes
/// on disk and holds `files`. Without readable files, what is above `keep` is
/// a close lower bound of what a vacuum frees.
pub fn journal_findings(dir: &FsPath, is_dir: bool, size: u64, files: &Vec<JournalFile>, keep: u64) -> (r: CheckOutput)
    requires
        journal_bytes(files@) <= u64::MAX,
    ensures
        r.notes@.len() == 0,
        finding_views(r.findings@) == journal_found(dir@, is_dir, size, files@, keep),
{
    let empty = CheckOutput { findings: Vec::new(), notes: Vec::new() };
    assert(finding_views(empty.findings@) =~= Seq::empty());
    if !is_dir || size <= keep {
        return empty;
    }
    let reclaim: u64 = match journal_vacuum_bytes(files, keep) {
        Some(n) => n,
        None => size - keep,
    };
    if reclaim == 0 {
        return empty;
    }
    let mb = decimal(keep / 1_048_576);
    // journalctl takes K/M/G: say exactly the keep size that was measured.
    let arg = if keep % 1_048_576 == 0 {
        decimal(keep / 1_048_576).concat("M")
    } else {
        decimal(keep / 1024).concat("K")
    };
    let f = Finding {
        id: "journal".to_owned(),
        category: "Logs".to_owned(),
        title: "systemd journal is ".to_owned().concat(fmt_size(size).as_str()).concat(" (keep ").concat(fmt_size(keep).as_str()).concat(")"),
        risk: Risk::Moderate,
        bytes: reclaim,
        detail: "Persistent journal logs in /var/log/journal. Vacuuming deletes the oldest archived journal files until ".to_owned().concat(
            mb.as_str(),
        ).concat(" MiB remain. To cap it permanently, set SystemMaxUse=").concat(mb.as_str()).concat("M in /etc/systemd/journald.conf."),
        paths: vec![dir.clone()],
        // --directory: vacuum exactly the store that was measured.
        action: Action::Shell {
            command: "sudo journalctl --directory=".to_owned().concat(shq_path(dir).as_str()).concat(" --vacuum-size=").concat(arg.as_str()),
        },
        needs_root: true,
    };
    assert(paths_view(f.paths@) =~= seq![dir@]);
    let out = CheckOutput::one(f);
    assert(finding_views(out.findings@) =~= seq![f@]);
    out
}

proof fn lemma_after_last(a: Seq<char>, b: Seq<char>, c: char)
    requires
        !b.contains(c),
    ensures
        after_last(a + seq![c] + b, c) == a.len() + 1,
        after_last(b, c) == 0,
    decreases b.len(),
{
    let s = a + seq![c] + b;
    if b.len() > 0 {
        let t = b.drop_last();
        assert(s.drop_last() =~= a + seq![c] + t);
        assert(b[b.len() - 1] == b.last());
        assert(!t.contains(c)) by {
            if t.contains(c) {
                let k = choose|k: int| 0 <= k < t.len() && t[k] == c;
                assert(b[k] == c);
            }
        }
        lemma_after_last(a, t, c);
    }
}

/// The last dotted part of a name is a number.
pub open spec fn ends_in_a_number(stem: Seq<char>) -> bool {
    exists|k: int|
        0 <= k < stem.len() && (k == 0 || stem[k - 1] == '.') && #[trigger] all_digits(stem.skip(k))
}

/// A date YYYYMMDD, digit by digit.
pub open spec fn dated(e: Seq<char>) -> bool {
    &&& e[0] == '2' && e[1] == '0'
    &&& e[4] == '0' && e[5] != '0' || e[4] == '1' && '0' <= e[5] <= '2'
    &&& e[6] == '0' && e[7] != '0' || e[6] == '1' || e[6] == '2' || e[6] == '3' && '0' <= e[7] <= '1'
}

proof fn lemma_two_digits(e: Seq<char>, i: int)
    requires
        0 <= i <= e.len() - 2,
        all_digits(e),
    ensures
        two_digits(e, i) == 10 * (e[i] as u32 - 48) + (e[i + 1] as u32 - 48),
        48 <= e[i] as u32 <= 57,
        48 <= e[i + 1] as u32 <= 57,
{
    let t = e.subrange(i, i + 2);
    assert(is_digit(e[i]) && is_digit(e[i + 1]));
    reveal_with_fuel(value, 3);
    assert(t.drop_last().last() == e[i]);
    assert(t.last() == e[i + 1]);
    assert(t.drop_last().drop_last().len() == 0);
}

proof fn lemma_last_part(stem: Seq<char>)
    ensures
        0 <= after_last(stem, '.') <= stem.len(),
        after_last(stem, '.') > 0 ==> stem[after_last(stem, '.') - 1] == '.',
        forall|k: int| after_last(stem, '.') <= k < stem.len() ==> stem[k] != '.',
    decreases stem.len(),
{
    if stem.len() > 0 && stem.last() != '.' {
        lemma_last_part(stem.drop_last());
        assert forall|k: int| after_last(stem, '.') <= k < stem.len() implies stem[k] != '.' by {
            if k < stem.len() - 1 {
                assert(stem.drop_last()[k] == stem[k]);
            }
        }
    }
}

/// What counts as a rotated log: every compressed file, every `<name>.<n>` with
/// a number of one to three digits whose name does not end in a number itself,
/// and every `<name>.log.<date>`, whatever the name; nothing else, so never a
/// log that is written to.
pub proof fn law_rotated_names(stem: Seq<char>, ext: Seq<char>)
    requires
        !ext.contains('.'),
    ensures
        rotated(stem + ".gz"@),
        rotated(stem + ".xz"@),
        !rotated(ext),
        rotated(stem + seq!['.'] + ext) <==> {
            ||| ext == "gz"@
            ||| ext == "xz"@
            ||| all_digits(ext) && 1 <= ext.len() <= 3 && !ends_in_a_number(stem)
            ||| all_digits(ext) && (ext.len() == 8 || ext.len() == 14) && dated(ext) && ".log"@.is_suffix_of(stem)
        },
{
    reveal_strlit(".gz");
    reveal_strlit(".xz");
    reveal_strlit("gz");
    reveal_strlit("xz");
    lemma_ends(stem, ".gz"@);
    lemma_ends(stem, ".xz"@);
    let name = stem + seq!['.'] + ext;
    lemma_after_last(stem, ext, '.');
    let at = after_last(name, '.');
    assert(name.take(at - 1) =~= stem);
    assert(name.skip(at) =~= ext);
    // The two suffixes.
    if ends(ext, ".gz"@) {
        assert(ext.subrange(ext.len() - 3, ext.len() as int)[0] == '.');
        assert(ext[ext.len() - 3] == '.');
    }
    if ends(ext, ".xz"@) {
        assert(ext.subrange(ext.len() - 3, ext.len() as int)[0] == '.');
        assert(ext[ext.len() - 3] == '.');
    }
    assert(".gz"@ =~= seq!['.'] + "gz"@);
    assert(".xz"@ =~= seq!['.'] + "xz"@);
    lemma_compressed(stem, ext, "gz"@, ".gz"@);
    lemma_compressed(stem, ext, "xz"@, ".xz"@);
    // A stem that ends in a number.
    lemma_last_part(stem);
    let m = after_last(stem, '.');
    let last = stem.skip(m);
    if last.len() > 0 && all_digits(last) {
        assert(ends_in_a_number(stem));
    }
    if ends_in_a_number(stem) {
        let k = choose|k: int|
            0 <= k < stem.len() && (k == 0 || stem[k - 1] == '.') && #[trigger] all_digits(stem.skip(k));
        if k < m {
            assert(stem.skip(k)[m - 1 - k] == '.');
            assert(is_digit(stem.skip(k)[m - 1 - k]));
        }
        assert(k == m);
    }
    if all_digits(ext) && (ext.len() == 8 || ext.len() == 14) {
        lemma_dated(ext);
    }
    assert(ends(stem, ".log"@) == ".log"@.is_suffix_of(stem));
}

proof fn lemma_dated(e: Seq<char>)
    requires
        all_digits(e),
        e.len() == 8 || e.len() == 14,
    ensures
        date_stamp(e) == dated(e),
{
    lemma_two_digits(e, 4);
    lemma_two_digits(e, 6);
    lemma_digit_char(e[4]);
    lemma_digit_char(e[5]);
    lemma_digit_char(e[6]);
    lemma_digit_char(e[7]);
    assert(e[4] == '0' <==> e[4] as u32 == 48);
    assert(e[6] == '0' <==> e[6] as u32 == 48);
}

proof fn lemma_compressed(stem: Seq<char>, ext: Seq<char>, kind: Seq<char>, suffix: Seq<char>)
    requires
        !ext.contains('.'),
        kind.len() == 2,
        suffix == seq!['.'] + kind,
        !kind.contains('.'),
    ensures
        ends(stem + seq!['.'] + ext, suffix) <==> ext == kind,
{
    let name = stem + seq!['.'] + ext;
    if ext == kind {
        assert(name.subrange(name.len() - 3, name.len() as int) =~= suffix);
    }
    if ends(name, suffix) {
        let tail = name.subrange(name.len() - 3, name.len() as int);
        assert(tail == suffix);
        assert(tail[0] == '.' && tail[1] == kind[0] && tail[2] == kind[1]);
        if ext.len() < 2 {
            assert(kind.contains(kind[0]) && kind.contains(kind[1]));
            assert(name[name.len() - 1 - ext.len()] == '.');
        } else if ext.len() > 2 {
            assert(ext[ext.len() - 3] == tail[0]);
        }
        assert(ext =~= kind);
    }
}

/// The walk keeps out of the journal and of the installer's logs, and leaves
/// apt's solver log alone: of everything else, every folder is walked into.
pub proof fn law_log_walk_leaves_three_places_alone(root: Seq<u8>, p: Seq<u8>)
    ensures
        log_skipped(root, p) <==> {
            ||| comps(p) == comps(join_bytes(root, encode_utf8("journal"@)))
            ||| comps(p) == comps(join_bytes(root, encode_utf8("installer"@)))
            ||| comps(p) == comps(join_bytes(root, encode_utf8("apt/eipp.log.xz"@)))
        },
{
}

/// A listing is left alone as a whole exactly where a file of it is an index.
pub proof fn law_indexed_folders_are_left_alone(list: Seq<LogEntry>, root: Seq<u8>, dir: Seq<u8>, i: int, stem: Seq<char>)
    requires
        0 <= i < list.len(),
        lossy_text(list[i].name@) == stem + ".index"@,
    ensures
        files_at(root, LogRead { dir, list }) == Seq::<(Seq<u8>, u64)>::empty(),
        dirs_at(root, LogRead { dir, list }) == Seq::<Seq<u8>>::empty(),
{
    lemma_ends(stem, ".index"@);
    assert(has_index(list));
}

/// In a folder without an index, every folder is walked into and every rotated
/// log is taken, with its bytes, but for the places left alone.
pub proof fn law_folders_are_read_whole(root: Seq<u8>, dir: Seq<u8>, list: Seq<LogEntry>, i: int)
    requires
        0 <= i < list.len(),
        !log_skipped(root, join_bytes(dir, list[i].name@)),
    ensures
        list[i].is_dir ==> log_dirs(root, dir, list).contains(join_bytes(dir, list[i].name@)),
        list[i].is_file && !list[i].is_dir && rotated(lossy_text(list[i].name@)) ==> log_files(root, dir, list).contains(
            (join_bytes(dir, list[i].name@), list[i].bytes),
        ),
    decreases list.len(),
{
    let front = list.drop_last();
    let e = list.last();
    let (p, f) = (join_bytes(dir, list[i].name@), (join_bytes(dir, list[i].name@), list[i].bytes));
    lemma_push_contains(log_dirs(root, dir, front), join_bytes(dir, e.name@), p);
    lemma_push_contains(log_files(root, dir, front), (join_bytes(dir, e.name@), e.bytes), f);
    if i < list.len() - 1 {
        law_folders_are_read_whole(root, dir, front, i);
    }
}

proof fn lemma_logs_read_hold(root: Seq<u8>, read: Seq<LogRead>, j: int, f: (Seq<u8>, u64))
    requires
        0 <= j < read.len(),
        files_at(root, read[j]).contains(f),
    ensures
        logs_read(root, read).contains(f),
    decreases read.len(),
{
    let (a, b) = (logs_read(root, read.drop_last()), files_at(root, read.last()));
    if j < read.len() - 1 {
        lemma_logs_read_hold(root, read.drop_last(), j, f);
        let w = choose|w: int| 0 <= w < a.len() && a[w] == f;
        assert((a + b)[w] == f);
    } else {
        let w = choose|w: int| 0 <= w < b.len() && b[w] == f;
        assert((a + b)[a.len() + w] == f);
    }
}

proof fn lemma_utf8_hold(list: Seq<(Seq<u8>, u64)>, f: (Seq<u8>, u64))
    requires
        list.contains(f),
        valid_utf8(f.0),
    ensures
        utf8_files(list).contains(f),
    decreases list.len(),
{
    let rest = utf8_files(list.drop_last());
    lemma_push_contains(rest, list.last(), f);
    lemma_push_contains(list.drop_last(), list.last(), f);
    assert(list =~= list.drop_last().push(list.last()));
    if list.last() != f {
        lemma_utf8_hold(list.drop_last(), f);
    }
}

proof fn lemma_holds_bytes(v: Seq<(Seq<u8>, u64)>, i: int)
    requires
        0 <= i < v.len(),
    ensures
        measured_bytes(v) >= v[i].1,
        measured_paths(v).contains(v[i].0),
{
    law_measured_bytes_add_up(v, i);
    assert(measured_paths(v)[i] == v[i].0);
}

/// Every rotated log that the walk came upon is deleted by the finding, which
/// says so: a moderate one that runs as root.
pub proof fn law_every_rotated_log_is_found(walk: LogWalk, j: int, k: int)
    requires
        walk.wf(),
        0 <= j < walk.read@.len(),
        !has_index(walk.read@[j].list),
        0 <= k < walk.read@[j].list.len(),
        walk.read@[j].list[k].is_file,
        !walk.read@[j].list[k].is_dir,
        walk.read@[j].list[k].bytes > 0,
        rotated(lossy_text(walk.read@[j].list[k].name@)),
        !log_skipped(walk.root@, join_bytes(walk.read@[j].dir, walk.read@[j].list[k].name@)),
        valid_utf8(join_bytes(walk.read@[j].dir, walk.read@[j].list[k].name@)),
    ensures
        ({
            let found = rotated_found(walk.root@, logs_read(walk.root@, walk.read@));
            &&& found.len() == 1
            &&& found[0].paths.contains(join_bytes(walk.read@[j].dir, walk.read@[j].list[k].name@))
            &&& found[0].action == ActionView::Shell { command: delete_command(walk.root@, found[0].paths) }
            &&& found[0].risk == Risk::Moderate
            &&& found[0].needs_root
            &&& found[0].id == "rotated-logs"@ && found[0].category == "Logs"@
        }),
{
    let root = walk.root@;
    let all = logs_read(root, walk.read@);
    let r = walk.read@[j];
    let f = (join_bytes(r.dir, r.list[k].name@), r.list[k].bytes);
    law_folders_are_read_whole(root, r.dir, r.list, k);
    lemma_logs_read_hold(root, walk.read@, j, f);
    lemma_utf8_hold(all, f);
    let kept = utf8_files(all);
    let w = choose|w: int| 0 <= w < kept.len() && kept[w] == f;
    lemma_holds_bytes(kept, w);
    lemma_utf8_among(all, f);
    assert(walk.files.len() == all.len());
    lemma_kept_few(all);
    law_sorted_paths_are_the_same_paths(measured_paths(kept), f.0);
}

proof fn lemma_kept_few(list: Seq<(Seq<u8>, u64)>)
    ensures
        utf8_files(list).len() <= list.len(),
    decreases list.len(),
{
    if list.len() > 0 {
        lemma_kept_few(list.drop_last());
    }
}

/// Every crash report, upload marker and uploaded marker of a real crash folder
/// is in the finding, and no other file; hidden files are left alone.
pub proof fn law_crash_files_are_found(dir: Seq<u8>, list: Seq<LogEntry>, i: int, stem: Seq<char>, c: char)
    requires
        0 <= i < list.len(),
        list[i].is_file,
        valid_utf8(join_bytes(dir, list[i].name@)),
        c != '.',
        lossy_text(list[i].name@) == seq![c] + stem + ".crash"@ || lossy_text(list[i].name@) == seq![c] + stem + ".upload"@
            || lossy_text(list[i].name@) == seq![c] + stem + ".uploaded"@,
    ensures
        ({
            let found = crashes_found(dir, true, list);
            &&& found.len() == 1
            &&& found[0].paths.contains(join_bytes(dir, list[i].name@))
            &&& found[0].bytes == measured_bytes(crash_files(dir, list)) as u64
            &&& found[0].risk == Risk::Safe
            &&& found[0].needs_root
            &&& found[0].action == ActionView::Shell { command: delete_command(dir, found[0].paths) }
            &&& found[0].id == "crash"@ && found[0].category == "Crash dumps"@
        }),
        crashes_found(dir, false, list).len() == 0,
{
    reveal_strlit(".");
    lemma_ends(seq![c] + stem, ".crash"@);
    lemma_ends(seq![c] + stem, ".upload"@);
    lemma_ends(seq![c] + stem, ".uploaded"@);
    let n = lossy_text(list[i].name@);
    assert(n[0] == c);
    if starts(n, "."@) {
        assert(n.subrange(0, 1)[0] == '.');
    }
    lemma_crash_taken(dir, list, i);
    let files = crash_files(dir, list);
    let w = choose|w: int| 0 <= w < files.len() && files[w] == (join_bytes(dir, list[i].name@), list[i].bytes);
    lemma_holds_bytes(files, w);
}

proof fn lemma_crash_taken(dir: Seq<u8>, list: Seq<LogEntry>, i: int)
    requires
        0 <= i < list.len(),
        list[i].is_file,
        crash_name(lossy_text(list[i].name@)),
        valid_utf8(join_bytes(dir, list[i].name@)),
    ensures
        crash_files(dir, list).contains((join_bytes(dir, list[i].name@), list[i].bytes)),
    decreases list.len(),
{
    let e = list.last();
    lemma_push_contains(
        crash_files(dir, list.drop_last()),
        (join_bytes(dir, e.name@), e.bytes),
        (join_bytes(dir, list[i].name@), list[i].bytes),
    );
    if i < list.len() - 1 {
        lemma_crash_taken(dir, list.drop_last(), i);
    }
}

/// What is removed as a crash report is a file whose name says so.
pub proof fn law_only_crash_files_are_removed(dir: Seq<u8>, list: Seq<LogEntry>, f: (Seq<u8>, u64))
    requires
        crash_files(dir, list).contains(f),
    ensures
        exists|i: int|
            #![trigger list[i]]
            0 <= i < list.len() && list[i].is_file && f == (join_bytes(dir, list[i].name@), list[i].bytes) && !"."@.is_prefix_of(
                lossy_text(list[i].name@),
            ) && (".crash"@.is_suffix_of(lossy_text(list[i].name@)) || ".upload"@.is_suffix_of(lossy_text(list[i].name@))
                || ".uploaded"@.is_suffix_of(lossy_text(list[i].name@))),
    decreases list.len(),
{
    let e = list.last();
    let g = (join_bytes(dir, e.name@), e.bytes);
    lemma_push_contains(crash_files(dir, list.drop_last()), g, f);
    if crash_files(dir, list.drop_last()).contains(f) {
        law_only_crash_files_are_removed(dir, list.drop_last(), f);
        let i = choose|i: int|
            #![trigger list.drop_last()[i]]
            0 <= i < list.drop_last().len() && list.drop_last()[i].is_file && f == (
                join_bytes(dir, list.drop_last()[i].name@),
                list.drop_last()[i].bytes,
            ) && !"."@.is_prefix_of(lossy_text(list.drop_last()[i].name@)) && (".crash"@.is_suffix_of(
                lossy_text(list.drop_last()[i].name@),
            ) || ".upload"@.is_suffix_of(lossy_text(list.drop_last()[i].name@)) || ".uploaded"@.is_suffix_of(
                lossy_text(list.drop_last()[i].name@),
            ));
        assert(list[i] == list.drop_last()[i]);
    } else {
        assert(list[list.len() - 1] == e);
    }
}

/// Every core dump is in the finding, and nothing but what is listed.
pub proof fn law_core_dumps_are_found(dir: Seq<u8>, list: Seq<LogEntry>, i: int)
    requires
        list.len() <= usize::MAX,
        0 <= i < list.len(),
        list[i].is_file,
        valid_utf8(list[i].name@),
        valid_utf8(join_bytes(dir, list[i].name@)),
    ensures
        ({
            let found = coredumps_found(dir, list);
            &&& found.len() == 1
            &&& found[0].paths.contains(join_bytes(dir, list[i].name@))
            &&& found[0].bytes == measured_bytes(plain_files(dir, list)) as u64
            &&& found[0].risk == Risk::Safe
            &&& found[0].needs_root
            &&& found[0].action == ActionView::Shell { command: delete_command(dir, found[0].paths) }
            &&& found[0].id == "coredumps"@ && found[0].category == "Crash dumps"@
        }),
{
    lemma_core_taken(dir, list, i);
    let files = plain_files(dir, list);
    let w = choose|w: int| 0 <= w < files.len() && files[w] == (join_bytes(dir, list[i].name@), list[i].bytes);
    lemma_holds_bytes(files, w);
    law_sorted_paths_are_the_same_paths(measured_paths(files), files[w].0);
}

proof fn lemma_core_taken(dir: Seq<u8>, list: Seq<LogEntry>, i: int)
    requires
        0 <= i < list.len(),
        list[i].is_file,
        valid_utf8(list[i].name@),
        valid_utf8(join_bytes(dir, list[i].name@)),
    ensures
        plain_files(dir, list).contains((join_bytes(dir, list[i].name@), list[i].bytes)),
        plain_files(dir, list).len() <= list.len(),
    decreases list.len(),
{
    let e = list.last();
    lemma_push_contains(
        plain_files(dir, list.drop_last()),
        (join_bytes(dir, e.name@), e.bytes),
        (join_bytes(dir, list[i].name@), list[i].bytes),
    );
    lemma_plain_few(dir, list);
    if i < list.len() - 1 {
        lemma_core_taken(dir, list.drop_last(), i);
    }
}

proof fn lemma_plain_few(dir: Seq<u8>, list: Seq<LogEntry>)
    ensures
        plain_files(dir, list).len() <= list.len(),
    decreases list.len(),
{
    if list.len() > 0 {
        lemma_plain_few(dir, list.drop_last());
    }
}

/// Journal files end in `.journal` or `.journal~`; those with an `@` in the name
/// are archived.
pub proof fn law_journal_files_are_told_by_name(stem: Seq<char>)
    ensures
        journal_kind(stem + ".journal"@) == Some((stem + ".journal"@).contains('@')),
        journal_kind(stem + ".journal~"@) == Some((stem + ".journal~"@).contains('@')),
        journal_kind(stem) is Some <==> ".journal"@.is_suffix_of(stem) || ".journal~"@.is_suffix_of(stem),
{
    lemma_ends(stem, ".journal"@);
    lemma_ends(stem, ".journal~"@);
}

/// A vacuum goes through the journal files from the oldest to the newest, all of
/// them, whether it may remove them or not.
pub proof fn law_vacuum_goes_from_the_oldest(files: Seq<JournalFile>, i: int, j: int, f: JournalFile)
    requires
        files.len() <= usize::MAX,
        0 <= i < j < files.len(),
    ensures
        ({
            let walk = arranged(files, ranked(modified_times(files)));
            &&& walk.len() == files.len()
            &&& walk.contains(f) <==> files.contains(f)
            &&& walk[i].secs * 1_000_000_000 + walk[i].nanos <= walk[j].secs * 1_000_000_000 + walk[j].nanos
        }),
{
    let times = modified_times(files);
    lemma_ranked(times);
    let o = ranked(times);
    law_rearranging_keeps_everything(files, o, f);
    assert(times[o[i] as int] <= times[o[j] as int]);
    lemma_moment(files[o[i] as int]);
    lemma_moment(files[o[j] as int]);
}

proof fn lemma_moment(f: JournalFile)
    ensures
        modified(f) == f.secs * 1_000_000_000 + f.nanos,
{
}

/// The bytes of the journal add up, and so do those of its archived files.
pub proof fn law_journal_bytes_add_up(files: Seq<JournalFile>, i: int)
    requires
        0 <= i < files.len(),
    ensures
        journal_bytes(files) == journal_bytes(files.remove(i)) + files[i].bytes,
        files[i].archived ==> archived_bytes(files) == archived_bytes(files.remove(i)) + files[i].bytes,
        !files[i].archived ==> archived_bytes(files) == archived_bytes(files.remove(i)),
    decreases files.len(),
{
    if i < files.len() - 1 {
        law_journal_bytes_add_up(files.drop_last(), i);
        assert(files.remove(i).drop_last() =~= files.drop_last().remove(i));
        assert(files.remove(i).last() == files.last());
    } else {
        assert(files.remove(i) =~= files.drop_last());
    }
}

/// A journal above its limit is found wherever a vacuum frees something, and the
/// command vacuums the very store that was measured down to that limit. One
/// within its limit is left alone.
pub proof fn law_a_journal_above_its_limit_is_found(dir: Seq<u8>, size: u64, files: Seq<JournalFile>, mb: u64)
    requires
        mb * 1_048_576 <= u64::MAX,
    ensures
        ({
            let keep = (mb * 1_048_576) as u64;
            let found = journal_found(dir, true, size, files, keep);
            &&& size <= keep ==> found.len() == 0
            &&& size > keep && files.len() == 0 ==> found.len() == 1 && found[0].bytes == size - keep
            &&& size > keep && files.len() > 0 ==> (found.len() == 1 <==> vacuum_frees(files, keep) > 0)
            &&& size > keep && files.len() > 0 && found.len() == 1 ==> found[0].bytes == vacuum_frees(files, keep) as u64
            &&& found.len() <= 1
            &&& found.len() == 1 ==> {
                &&& found[0].id == "journal"@ && found[0].category == "Logs"@
                &&& found[0].risk == Risk::Moderate
                &&& found[0].needs_root
                &&& found[0].paths == seq![dir]
                &&& found[0].action == ActionView::Shell {
                    command: "sudo journalctl --directory="@ + quoted(lossy_text(dir)) + " --vacuum-size="@ + (digits(mb as nat) + "M"@),
                }
            }
            &&& journal_found(dir, false, size, files, keep).len() == 0
        }),
{
    assert((mb * 1_048_576) % 1_048_576 == 0 && (mb * 1_048_576) / 1_048_576 == mb);
}

/// A limit that is no whole number of MiB is handed over in KiB.
pub proof fn law_odd_limits_are_given_in_kib(keep: u64)
    ensures
        keep % 1_048_576 != 0 ==> keep_arg(keep) == digits((keep / 1024) as nat) + "K"@,
        keep % 1_048_576 == 0 ==> keep_arg(keep) == digits((keep / 1_048_576) as nat) + "M"@,
{
}

/// The titles tell how many files a finding is about, and where they are.
pub proof fn law_log_titles_count_the_files(root: Seq<u8>, files: Seq<(Seq<u8>, u64)>, dir: Seq<u8>, list: Seq<LogEntry>)
    ensures
        rotated_finding(root, files).title == "Rotated logs in "@ + lossy_text(root) + " ("@ + digits(files.len()) + " files)"@,
        rotated_finding(root, files).bytes == measured_bytes(files) as u64,
        crashes_found(dir, true, list).len() > 0 ==> crashes_found(dir, true, list)[0].title == "Crash reports in "@ + lossy_text(dir) + " ("@
            + digits(crash_files(dir, list).len()) + " files)"@,
        coredumps_found(dir, list).len() > 0 ==> coredumps_found(dir, list)[0].title == "systemd core dumps ("@ + digits(
            plain_files(dir, list).len(),
        ) + " files)"@,
{
}

/// The journal's finding tells what the store uses and what is kept of it.
pub proof fn law_the_journal_title_tells_what_is_kept(dir: Seq<u8>, size: u64, keep: u64, frees: u64)
    ensures
        journal_finding(dir, size, keep, frees).title == "systemd journal is "@ + size_text(size) + " (keep "@ + size_text(keep) + ")"@,
        journal_finding(dir, size, keep, frees).bytes == frees,
{
}

/// The bytes of a listing add up, each entry counted once.
pub proof fn law_listing_bytes_add_up(list: Seq<LogEntry>, i: int)
    requires
        0 <= i < list.len(),
    ensures
        listing_bytes(list) == listing_bytes(list.remove(i)) + list[i].bytes,
    decreases list.len(),
{
    if i < list.len() - 1 {
        law_listing_bytes_add_up(list.drop_last(), i);
        assert(list.remove(i).drop_last() =~= list.drop_last().remove(i));
        assert(list.remove(i).last() == list.last());
    } else {
        assert(list.remove(i) =~= list.drop_last());
    }
}

} // verus!
