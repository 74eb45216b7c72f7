//! What the panels, lists and dialogs say.

use vstd::prelude::*;

use crate::classify::Kind;
use crate::order::{rank, ranked, stable_order};
use crate::path::{paths_view, FsPath};
use crate::rules::{command_of, finding_views, sum_bytes, Finding, FindingView, Report, Risk};
use crate::scanner::{Node, Tree};
use crate::screen::mark_views;
use crate::summary::{cut_text, shown_command};
use crate::text::{chars_of, decimal, digits, lines, lines_of, slice, string_of, texts, views};
use crate::util::{fmt_count, fmt_size, grouped, size_text, tilde, tilde_text};

verus! {

/// How a piece of text is coloured.
#[derive(Clone, Copy, Debug, PartialEq, Eq, Structural)]
pub enum Tone {
    Plain,
    Strong,
    Dim,
    Faint,
    Accent,
    Amber,
    Danger,
    Good,
    Warn,
    /// The colour of a tier.
    Tier(Risk),
    /// A badge in the colour of a tier.
    Badge(Risk),
    /// The colour of a kind of data.
    Kind(Kind),
}

/// A line: pieces of text, each with its tone.
pub type Pieces = Vec<(Tone, String)>;

pub open spec fn pieces_view(v: Seq<(Tone, String)>) -> Seq<(Tone, Seq<char>)> {
    Seq::new(v.len(), |i: int| (v[i].0, v[i].1@))
}

pub open spec fn page_view(v: Seq<Pieces>) -> Seq<Seq<(Tone, Seq<char>)>> {
    Seq::new(v.len(), |i: int| pieces_view(v[i]@))
}

fn one(tone: Tone, text: String) -> (r: Pieces)
    ensures
        pieces_view(r@) == seq![(tone, text@)],
{
    let mut out: Pieces = Vec::new();
    out.push((tone, text));
    assert(pieces_view(out@) =~= seq![(tone, text@)]);
    out
}

fn two(a: Tone, s: String, b: Tone, t: String) -> (r: Pieces)
    ensures
        pieces_view(r@) == seq![(a, s@), (b, t@)],
{
    let mut out: Pieces = Vec::new();
    out.push((a, s));
    out.push((b, t));
    assert(pieces_view(out@) =~= seq![(a, s@), (b, t@)]);
    out
}

fn three(a: Tone, s: String, b: Tone, t: String, c: Tone, u: String) -> (r: Pieces)
    ensures
        pieces_view(r@) == seq![(a, s@), (b, t@), (c, u@)],
{
    let mut out: Pieces = Vec::new();
    out.push((a, s));
    out.push((b, t));
    out.push((c, u));
    assert(pieces_view(out@) =~= seq![(a, s@), (b, t@), (c, u@)]);
    out
}

fn append(page: &mut Vec<Pieces>, line: Pieces)
    ensures
        page_view(final(page)@) == page_view(old(page)@).push(pieces_view(line@)),
{
    page.push(line);
    assert(page_view(page@) =~= page_view(old(page)@).push(pieces_view(line@)));
}

/// `n` blanks.
pub open spec fn blanks(n: int) -> Seq<char> {
    Seq::new(
        if n > 0 {
            n as nat
        } else {
            0
        },
        |i: int| ' ',
    )
}

fn spaces(n: usize) -> (r: Vec<char>)
    ensures
        r@ == blanks(n as int),
{
    let mut out: Vec<char> = Vec::new();
    for i in 0..n
        invariant
            out@ == blanks(i as int),
    {
        out.push(' ');
        assert(out@ =~= blanks(i + 1));
    }
    out
}

/// The text at the right end of a column of `w` characters.
pub fn pad_left(s: &str, w: usize) -> (r: String)
    ensures
        r@ == blanks(w - s@.len()) + s@,
{
    let v = chars_of(s);
    let n: usize = if v.len() < w {
        w - v.len()
    } else {
        0
    };
    assert(blanks(n as int) =~= blanks(w - s@.len()));
    string_of(&spaces(n)).concat(s)
}

/// The text at the left end of a column of `w` characters.
pub fn pad_right(s: &str, w: usize) -> (r: String)
    ensures
        r@ == s@ + blanks(w - s@.len()),
{
    let v = chars_of(s);
    let n: usize = if v.len() < w {
        w - v.len()
    } else {
        0
    };
    assert(blanks(n as int) =~= blanks(w - s@.len()));
    s.to_owned().concat(string_of(&spaces(n)).as_str())
}

/// At most `max` characters of a text; an ellipsis stands for what is left out.
pub open spec fn shortened(s: Seq<char>, max: int) -> Seq<char> {
    if s.len() <= max {
        s
    } else if max <= 0 {
        Seq::empty()
    } else {
        s.take(max - 1).push('…')
    }
}

pub fn truncate(s: &str, max: usize) -> (r: String)
    ensures
        r@ == shortened(s@, max as int),
{
    let v = chars_of(s);
    if v.len() <= max {
        return s.to_owned();
    }
    if max == 0 {
        let none: Vec<char> = Vec::new();
        return string_of(&none);
    }
    let mut out = slice(&v, 0, max - 1);
    out.push('…');
    assert(out@ =~= shortened(s@, max as int));
    string_of(&out)
}

/// A text that is too long starts with an ellipsis, so that its end stays
/// visible.
pub open spec fn shortened_left(s: Seq<char>, max: int) -> Seq<char> {
    if s.len() <= max {
        s
    } else if max <= 0 {
        seq!['…']
    } else {
        seq!['…'] + s.skip(s.len() - max + 1)
    }
}

/// Truncate from the left, keeping the end of a path visible.
pub fn truncate_left(s: &str, max: usize) -> (r: String)
    ensures
        r@ == shortened_left(s@, max as int),
{
    let v = chars_of(s);
    if v.len() <= max {
        return s.to_owned();
    }
    let mut out: Vec<char> = Vec::new();
    out.push('…');
    if max > 0 {
        let from: usize = v.len() - max + 1;
        let mut i: usize = from;
        assert(out@ =~= seq!['…'] + v@.subrange(from as int, from as int));
        while i < v.len()
            invariant
                from <= i <= v@.len(),
                out@ == seq!['…'] + v@.subrange(from as int, i as int),
            decreases v@.len() - i,
        {
            out.push(v[i]);
            i += 1;
            assert(out@ =~= seq!['…'] + v@.subrange(from as int, i as int));
        }
        assert(v@.subrange(from as int, v@.len() as int) =~= v@.skip(from as int));
    }
    assert(out@ =~= shortened_left(s@, max as int));
    string_of(&out)
}

/// Shortened text never takes more room than it is given.
pub proof fn law_shortened_text_fits(s: Seq<char>, max: int)
    requires
        max > 0,
    ensures
        shortened(s, max).len() <= max,
        shortened_left(s, max).len() <= max,
{
}

/// The keys by which findings are ranked, most bytes first.
pub open spec fn byte_keys(list: Seq<FindingView>) -> Seq<i128> {
    Seq::new(list.len(), |i: int| (0 - list[i].bytes) as i128)
}

/// The findings by what they free, largest first.
pub fn top_savings(findings: &Vec<Finding>) -> (r: Vec<usize>)
    ensures
        r@ == ranked(byte_keys(finding_views(findings@))),
        stable_order(byte_keys(finding_views(findings@)), r@),
{
    let ghost fv = finding_views(findings@);
    let mut keys: Vec<i128> = Vec::new();
    for i in 0..findings.len()
        invariant
            fv == finding_views(findings@),
            keys@ == byte_keys(fv).take(i as int),
    {
        let key: i128 = 0 - findings[i].bytes as i128;
        keys.push(key);
        assert(keys@ =~= byte_keys(fv).take(i + 1));
    }
    assert(keys@ =~= byte_keys(fv));
    rank(&keys)
}

/// How many findings are of a tier.
pub open spec fn count_tier(list: Seq<FindingView>, risk: Risk) -> nat
    decreases list.len(),
{
    if list.len() == 0 {
        0
    } else {
        count_tier(list.drop_last(), risk) + if list.last().risk == risk {
            1nat
        } else {
            0
        }
    }
}

pub fn tier_count(findings: &Vec<Finding>, risk: Risk) -> (r: usize)
    ensures
        r == count_tier(finding_views(findings@), risk),
        r <= findings@.len(),
{
    let ghost fv = finding_views(findings@);
    let mut n: usize = 0;
    for i in 0..findings.len()
        invariant
            fv == finding_views(findings@),
            n == count_tier(fv.take(i as int), risk),
            n <= i,
    {
        assert(fv.take(i + 1).drop_last() =~= fv.take(i as int));
        if findings[i].risk == risk {
            n += 1;
        }
    }
    assert(fv.take(findings@.len() as int) =~= fv);
    n
}

/// Free space once what is marked and ticked is gone; never more than the disk
/// holds.
pub fn disk_after(avail: u64, marked: u64, ticked: u64, total: u64) -> (r: u64)
    ensures
        r == (if avail + marked + ticked < total {
            avail + marked + ticked
        } else {
            total as int
        }),
{
    let sum: u128 = avail as u128 + marked as u128 + ticked as u128;
    if sum < total as u128 {
        sum as u64
    } else {
        total
    }
}

/// The bytes of all findings.
pub fn findings_bytes(findings: &Vec<Finding>) -> (r: u64)
    requires
        sum_bytes(finding_views(findings@)) <= u64::MAX,
    ensures
        r == sum_bytes(finding_views(findings@)),
{
    let ghost fv = finding_views(findings@);
    let mut sum: u64 = 0;
    for i in 0..findings.len()
        invariant
            fv == finding_views(findings@),
            sum_bytes(fv) <= u64::MAX,
            sum == sum_bytes(fv.take(i as int)),
    {
        proof {
            assert(fv.take(i + 1).drop_last() =~= fv.take(i as int));
            lemma_sum_grows(fv, i + 1);
        }
        sum += findings[i].bytes;
    }
    assert(fv.take(findings@.len() as int) =~= fv);
    sum
}

proof fn lemma_sum_grows(list: Seq<FindingView>, k: int)
    requires
        0 <= k <= list.len(),
    ensures
        sum_bytes(list.take(k)) <= sum_bytes(list),
    decreases list.len() - k,
{
    if k < list.len() {
        assert(list.take(k + 1).drop_last() =~= list.take(k));
        lemma_sum_grows(list, k + 1);
    } else {
        assert(list.take(k) =~= list);
    }
}

/// A row of the prune list.
pub enum PruneRow {
    Header(Risk),
    Item(usize),
    Note(String),
}

#[verifier::ext_equal]
pub enum PruneRowView {
    Header(Risk),
    Item(int),
    Note(Seq<char>),
}

impl View for PruneRow {
    type V = PruneRowView;

    open spec fn view(&self) -> PruneRowView {
        match self {
            PruneRow::Header(r) => PruneRowView::Header(*r),
            PruneRow::Item(i) => PruneRowView::Item(*i as int),
            PruneRow::Note(s) => PruneRowView::Note(s@),
        }
    }
}

pub open spec fn prune_views(v: Seq<PruneRow>) -> Seq<PruneRowView> {
    Seq::new(v.len(), |i: int| v[i]@)
}

/// The items of a tier among the first `k` findings, under a header if there
/// are any.
pub open spec fn tier_rows(list: Seq<FindingView>, risk: Risk, k: int) -> Seq<PruneRowView>
    decreases k,
{
    if k <= 0 {
        Seq::empty()
    } else {
        let before = tier_rows(list, risk, k - 1);
        if list[k - 1].risk != risk {
            before
        } else if before.len() == 0 {
            seq![PruneRowView::Header(risk), PruneRowView::Item(k - 1)]
        } else {
            before.push(PruneRowView::Item(k - 1))
        }
    }
}

/// The rows of the prune list.
pub open spec fn prune_list(list: Seq<FindingView>, notes: Seq<Seq<char>>, pending: u8, spinner: Seq<char>) -> Seq<PruneRowView> {
    let n = list.len() as int;
    let busy = if pending > 0 {
        seq![PruneRowView::Note(spinner + " analyzing… ("@ + digits(pending as nat) + " check groups running)"@)]
    } else {
        Seq::empty()
    };
    let tidy = if n == 0 && pending == 0 {
        seq![PruneRowView::Note("Nothing significant to reclaim — this system is tidy."@)]
    } else {
        Seq::empty()
    };
    busy + tier_rows(list, Risk::Safe, n) + tier_rows(list, Risk::Moderate, n) + tier_rows(list, Risk::Caution, n) + tidy + Seq::new(
        notes.len(),
        |i: int| PruneRowView::Note("note: "@ + notes[i]),
    )
}

fn add_tier(out: &mut Vec<PruneRow>, findings: &Vec<Finding>, risk: Risk)
    ensures
        prune_views(final(out)@) == prune_views(old(out)@) + tier_rows(
            finding_views(findings@),
            risk,
            findings@.len() as int,
        ),
{
    let ghost fv = finding_views(findings@);
    let ghost start = prune_views(out@);
    let mut any = false;
    assert(start + tier_rows(fv, risk, 0) =~= start);
    for i in 0..findings.len()
        invariant
            fv == finding_views(findings@),
            prune_views(out@) == start + tier_rows(fv, risk, i as int),
            any == (tier_rows(fv, risk, i as int).len() > 0),
    {
        let ghost before = prune_views(out@);
        if findings[i].risk == risk {
            if !any {
                out.push(PruneRow::Header(risk));
                assert(prune_views(out@) =~= before.push(PruneRowView::Header(risk)));
                any = true;
            }
            let ghost mid = prune_views(out@);
            out.push(PruneRow::Item(i));
            assert(prune_views(out@) =~= mid.push(PruneRowView::Item(i as int)));
        }
        assert(prune_views(out@) =~= start + tier_rows(fv, risk, i + 1));
    }
}

/// The rows of the prune list: tier headers, findings and notes. `pending` rule
/// groups are still running.
pub fn prune_rows(report: &Report, pending: u8, spinner: &str) -> (r: Vec<PruneRow>)
    ensures
        prune_views(r@) == prune_list(report.list(), texts(report.notes@), pending, spinner@),
{
    let mut out: Vec<PruneRow> = Vec::new();
    let ghost notes = texts(report.notes@);
    let ghost n = report.list().len() as int;
    assert(prune_views(out@) =~= Seq::empty());
    if pending > 0 {
        out.push(
            PruneRow::Note(
                spinner.to_owned().concat(" analyzing… (").concat(decimal(pending as u64).as_str()).concat(" check groups running)"),
            ),
        );
    }
    let ghost busy = prune_views(out@);
    assert(busy =~= (if pending > 0 {
        seq![PruneRowView::Note(spinner@ + " analyzing… ("@ + digits(pending as nat) + " check groups running)"@)]
    } else {
        Seq::empty()
    }));
    add_tier(&mut out, &report.findings, Risk::Safe);
    add_tier(&mut out, &report.findings, Risk::Moderate);
    add_tier(&mut out, &report.findings, Risk::Caution);
    let ghost tiers = prune_views(out@);
    if report.findings.len() == 0 && pending == 0 {
        out.push(PruneRow::Note("Nothing significant to reclaim — this system is tidy.".to_owned()));
        assert(prune_views(out@) =~= tiers + seq![PruneRowView::Note("Nothing significant to reclaim — this system is tidy."@)]);
    } else {
        assert(tiers + Seq::<PruneRowView>::empty() =~= tiers);
    }
    let ghost start = prune_views(out@);
    let ghost told = Seq::new(notes.len(), |i: int| PruneRowView::Note("note: "@ + notes[i]));
    assert(start + told.take(0) =~= start);
    for i in 0..report.notes.len()
        invariant
            notes == texts(report.notes@),
            told == Seq::new(notes.len(), |i: int| PruneRowView::Note("note: "@ + notes[i])),
            prune_views(out@) == start + told.take(i as int),
    {
        let ghost before = prune_views(out@);
        let row = PruneRow::Note("note: ".to_owned().concat(report.notes[i].as_str()));
        out.push(row);
        assert(prune_views(out@) =~= before.push(row@));
        assert(prune_views(out@) =~= start + told.take(i + 1));
    }
    assert(told.take(report.notes@.len() as int) =~= told);
    out
}

/// The first row shown in a list of `h` rows so that row `pos` of `len` is among
/// them.
pub open spec fn scrolled(offset: int, pos: int, h: int, len: int) -> int {
    let o = if pos < offset {
        pos
    } else if pos >= offset + h {
        pos + 1 - h
    } else {
        offset
    };
    let most = if len > h {
        len - h
    } else {
        0
    };
    if o < most {
        o
    } else {
        most
    }
}

/// Scroll a list of `len` rows, `h` of them visible, to row `pos`.
pub fn scroll_to(offset: usize, pos: usize, h: usize, len: usize) -> (r: usize)
    requires
        pos < len,
    ensures
        r == scrolled(offset as int, pos as int, h as int, len as int),
{
    let o: usize = if pos < offset {
        pos
    } else if pos - offset >= h {
        pos - h + 1
    } else {
        offset
    };
    let most: usize = if len > h {
        len - h
    } else {
        0
    };
    if o < most {
        o
    } else {
        most
    }
}

/// A row that the list is scrolled to is among the rows shown.
pub proof fn law_scrolled_row_is_shown(offset: int, pos: int, h: int, len: int)
    requires
        0 <= offset,
        0 <= pos < len,
        0 < h,
    ensures
        scrolled(offset, pos, h, len) <= pos < scrolled(offset, pos, h, len) + h,
{
}

/// The first row shown in the prune list; scrolling up keeps the row above the
/// cursor in sight.
pub fn scroll_prune(offset: usize, pos: usize, h: usize) -> (r: usize)
    requires
        pos < usize::MAX,
    ensures
        r == (if pos < offset {
            if pos > 0 {
                pos - 1
            } else {
                0
            }
        } else if pos >= offset + h {
            pos + 1 - h
        } else {
            offset as int
        }),
{
    if pos < offset {
        if pos > 0 {
            pos - 1
        } else {
            0
        }
    } else if pos - offset >= h {
        pos + 1 - h
    } else {
        offset
    }
}

/// The label of the prune tab: what can be freed safely, once something is
/// found.
pub fn prune_label(plain: &str, findings: usize, safe: u64) -> (r: String)
    ensures
        r@ == (if findings == 0 {
            plain@
        } else {
            plain@ + " · "@ + size_text(safe) + " safe"@
        }),
{
    if findings == 0 {
        plain.to_owned()
    } else {
        plain.to_owned().concat(" · ").concat(fmt_size(safe).as_str()).concat(" safe")
    }
}

/// A count with its digits in groups.
pub open spec fn count_text(n: u64) -> Seq<char> {
    grouped(digits(n as nat), digits(n as nat).len() as int)
}

/// What is said of a scanned tree; `secs` is how long it took.
pub open spec fn tree_told(size: u64, files: u64, dirs: u64, errors: u64, secs: Seq<char>) -> Seq<char> {
    size_text(size) + " · "@ + count_text(files) + " files · "@ + count_text(dirs) + " dirs · "@ + secs + (if errors > 0 {
        " · "@ + count_text(errors) + " unreadable"@
    } else {
        ""@
    })
}

pub fn tree_text(t: &Tree, secs: &str) -> (r: String)
    requires
        t.wf(),
    ensures
        r@ == tree_told(t.nodes@[0].size, t.nodes@[0].files, t.dirs, t.errors, secs@),
{
    let tail = if t.errors > 0 {
        " · ".to_owned().concat(fmt_count(t.errors).as_str()).concat(" unreadable")
    } else {
        "".to_owned()
    };
    fmt_size(t.nodes[0].size).concat(" · ").concat(fmt_count(t.nodes[0].files).as_str()).concat(" files · ").concat(
        fmt_count(t.dirs).as_str(),
    ).concat(" dirs · ").concat(secs).concat(tail.as_str())
}

/// What is said of one ticked finding under review.
pub open spec fn reviewed(f: FindingView, width: int) -> Seq<Seq<(Tone, Seq<char>)>> {
    seq![
        seq![
            (Tone::Tier(f.risk), "● "@),
            (Tone::Strong, blanks(10 - size_text(f.bytes).len()) + size_text(f.bytes) + "  "@),
            (Tone::Plain, f.title),
        ],
        seq![(Tone::Amber, "    $ "@ + shortened(command_of(f.action, f.needs_root), width))],
    ]
}

pub open spec fn all_reviewed(list: Seq<FindingView>, width: int) -> Seq<Seq<(Tone, Seq<char>)>>
    decreases list.len(),
{
    if list.len() == 0 {
        Seq::empty()
    } else {
        all_reviewed(list.drop_last(), width) + reviewed(list.last(), width)
    }
}

/// What is said of one marked path under review.
pub open spec fn marked_line(p: Seq<u8>, size: u64, home: Seq<u8>) -> Seq<(Tone, Seq<char>)> {
    seq![
        (Tone::Danger, "✖ "@),
        (Tone::Strong, blanks(10 - size_text(size).len()) + size_text(size) + "  "@),
        (Tone::Plain, tilde_text(p, home)),
    ]
}

/// The findings under review.
pub open spec fn review_findings(list: Seq<FindingView>, width: int) -> Seq<Seq<(Tone, Seq<char>)>> {
    if list.len() == 0 {
        Seq::empty()
    } else {
        (seq![seq![(Tone::Accent, "RECOMMENDED CLEANUPS ("@ + digits(list.len()) + ")"@)]] + all_reviewed(list, width)).push(
            seq![(Tone::Plain, ""@)],
        )
    }
}

/// The marks under review.
pub open spec fn review_marks(marks: Seq<(Seq<u8>, u64)>, trash_ok: bool, home: Seq<u8>) -> Seq<Seq<(Tone, Seq<char>)>> {
    let how = if trash_ok {
        "moved to the trash (t) or deleted permanently (p)"@
    } else {
        "deleted permanently"@
    };
    if marks.len() == 0 {
        Seq::empty()
    } else {
        (seq![seq![(Tone::Danger, "MARKED IN THE TREEMAP ("@ + digits(marks.len()) + ") — "@ + how)]] + Seq::new(
            marks.len(),
            |i: int| marked_line(marks[i].0, marks[i].1, home),
        )).push(seq![(Tone::Plain, ""@)])
    }
}

/// The bytes of all marks.
pub open spec fn marks_sum(marks: Seq<(Seq<u8>, u64)>) -> nat
    decreases marks.len(),
{
    if marks.len() == 0 {
        0
    } else {
        marks_sum(marks.drop_last()) + marks.last().1 as nat
    }
}

pub open spec fn any_root(list: Seq<FindingView>) -> bool {
    exists|i: int| 0 <= i < list.len() && (#[trigger] list[i]).needs_root
}

/// The last lines of the review.
pub open spec fn review_end(total: u64, sudo: bool, no_exec: bool) -> Seq<Seq<(Tone, Seq<char>)>> {
    let first = seq![seq![(Tone::Dim, "Total to free: "@), (Tone::Good, size_text(total))]];
    let second = if sudo {
        first.push(seq![(Tone::Warn, "sudo will ask for your password in the terminal."@)])
    } else {
        first
    };
    if no_exec {
        second.push(seq![(Tone::Danger, "Execution is disabled (--no-exec). Copy the commands above instead."@)])
    } else {
        second
    }
}

fn needs_root(findings: &Vec<Finding>) -> (r: bool)
    ensures
        r == any_root(finding_views(findings@)),
{
    for i in 0..findings.len()
        invariant
            forall|j: int| 0 <= j < i ==> !(#[trigger] finding_views(findings@)[j]).needs_root,
    {
        if findings[i].needs_root {
            assert(finding_views(findings@)[i as int].needs_root);
            return true;
        }
    }
    false
}

fn add_findings(out: &mut Vec<Pieces>, findings: &Vec<Finding>, width: usize)
    ensures
        page_view(final(out)@) == page_view(old(out)@) + review_findings(finding_views(findings@), width as int),
{
    let ghost fv = finding_views(findings@);
    let ghost start = page_view(out@);
    if findings.len() == 0 {
        assert(start + Seq::<Seq<(Tone, Seq<char>)>>::empty() =~= start);
        return;
    }
    append(
        out,
        one(Tone::Accent, "RECOMMENDED CLEANUPS (".to_owned().concat(decimal(findings.len() as u64).as_str()).concat(")")),
    );
    let ghost head = seq![seq![(Tone::Accent, "RECOMMENDED CLEANUPS ("@ + digits(fv.len()) + ")"@)]];
    assert(page_view(out@) =~= start + (head + all_reviewed(fv.take(0), width as int)));
    for i in 0..findings.len()
        invariant
            fv == finding_views(findings@),
            page_view(out@) == start + (head + all_reviewed(fv.take(i as int), width as int)),
    {
        let f = &findings[i];
        let ghost before = page_view(out@);
        proof {
            assert(fv.take(i + 1).drop_last() =~= fv.take(i as int));
            assert(fv.take(i + 1).last() == f@);
        }
        append(
            out,
            three(
                Tone::Tier(f.risk),
                "● ".to_owned(),
                Tone::Strong,
                pad_left(fmt_size(f.bytes).as_str(), 10).concat("  "),
                Tone::Plain,
                f.title.clone(),
            ),
        );
        append(out, one(Tone::Amber, "    $ ".to_owned().concat(truncate(f.command_text().as_str(), width).as_str())));
        assert(page_view(out@) =~= before + reviewed(f@, width as int));
        assert(page_view(out@) =~= start + (head + all_reviewed(fv.take(i + 1), width as int)));
    }
    assert(fv.take(findings@.len() as int) =~= fv);
    append(out, one(Tone::Plain, "".to_owned()));
    assert(page_view(out@) =~= start + review_findings(fv, width as int));
}

fn add_marks(out: &mut Vec<Pieces>, marks: &Vec<(FsPath, u64)>, trash_ok: bool, home: &FsPath)
    ensures
        page_view(final(out)@) == page_view(old(out)@) + review_marks(mark_views(marks@), trash_ok, home@),
{
    let ghost mv = mark_views(marks@);
    let ghost start = page_view(out@);
    if marks.len() == 0 {
        assert(start + Seq::<Seq<(Tone, Seq<char>)>>::empty() =~= start);
        return;
    }
    let how = if trash_ok {
        "moved to the trash (t) or deleted permanently (p)"
    } else {
        "deleted permanently"
    };
    append(
        out,
        one(
            Tone::Danger,
            "MARKED IN THE TREEMAP (".to_owned().concat(decimal(marks.len() as u64).as_str()).concat(") — ").concat(how),
        ),
    );
    let ghost head = seq![seq![(Tone::Danger, "MARKED IN THE TREEMAP ("@ + digits(mv.len()) + ") — "@ + how@)]];
    let ghost told = Seq::new(mv.len(), |i: int| marked_line(mv[i].0, mv[i].1, home@));
    assert(page_view(out@) =~= start + (head + told.take(0)));
    for i in 0..marks.len()
        invariant
            mv == mark_views(marks@),
            told == Seq::new(mv.len(), |i: int| marked_line(mv[i].0, mv[i].1, home@)),
            page_view(out@) == start + (head + told.take(i as int)),
    {
        let ghost before = page_view(out@);
        append(
            out,
            three(
                Tone::Danger,
                "✖ ".to_owned(),
                Tone::Strong,
                pad_left(fmt_size(marks[i].1).as_str(), 10).concat("  "),
                Tone::Plain,
                tilde(&marks[i].0, home),
            ),
        );
        assert(page_view(out@) =~= before.push(told[i as int]));
        assert(page_view(out@) =~= start + (head + told.take(i + 1)));
    }
    assert(told.take(marks@.len() as int) =~= told);
    append(out, one(Tone::Plain, "".to_owned()));
    assert(page_view(out@) =~= start + review_marks(mv, trash_ok, home@));
}

proof fn lemma_marks_sum(marks: Seq<(Seq<u8>, u64)>, k: int)
    requires
        0 <= k <= marks.len(),
    ensures
        marks_sum(marks.take(k)) <= marks_sum(marks),
    decreases marks.len() - k,
{
    if k < marks.len() {
        assert(marks.take(k + 1).drop_last() =~= marks.take(k));
        lemma_marks_sum(marks, k + 1);
    } else {
        assert(marks.take(k) =~= marks);
    }
}

/// What a cleanup of these findings and marks is expected to free.
pub fn total_to_free(findings: &Vec<Finding>, marks: &Vec<(FsPath, u64)>) -> (r: u64)
    requires
        sum_bytes(finding_views(findings@)) + marks_sum(mark_views(marks@)) <= u64::MAX,
    ensures
        r == sum_bytes(finding_views(findings@)) + marks_sum(mark_views(marks@)),
{
    let mut sum: u64 = findings_bytes(findings);
    let ghost mv = mark_views(marks@);
    let ghost base = sum;
    for i in 0..marks.len()
        invariant
            mv == mark_views(marks@),
            base + marks_sum(mv) <= u64::MAX,
            sum == base + marks_sum(mv.take(i as int)),
    {
        proof {
            assert(mv.take(i + 1).drop_last() =~= mv.take(i as int));
            lemma_marks_sum(mv, i + 1);
        }
        sum += marks[i].1;
    }
    assert(mv.take(marks@.len() as int) =~= mv);
    sum
}

/// The review in the terminal: what was ticked, what was marked, and what both
/// are expected to free.
pub fn review_lines(
    findings: &Vec<Finding>,
    marks: &Vec<(FsPath, u64)>,
    home: &FsPath,
    is_root: bool,
    trash_ok: bool,
    no_exec: bool,
    width: usize,
) -> (r: Vec<Pieces>)
    requires
        sum_bytes(finding_views(findings@)) + marks_sum(mark_views(marks@)) <= u64::MAX,
    ensures
        page_view(r@) == review_findings(finding_views(findings@), width as int) + review_marks(mark_views(marks@), trash_ok, home@)
            + review_end(
            (sum_bytes(finding_views(findings@)) + marks_sum(mark_views(marks@))) as u64,
            any_root(finding_views(findings@)) && !is_root,
            no_exec,
        ),
{
    let mut out: Vec<Pieces> = Vec::new();
    assert(page_view(out@) =~= Seq::empty());
    add_findings(&mut out, findings, width);
    add_marks(&mut out, marks, trash_ok, home);
    let ghost start = page_view(out@);
    let total: u64 = total_to_free(findings, marks);
    append(&mut out, two(Tone::Dim, "Total to free: ".to_owned(), Tone::Good, fmt_size(total)));
    let sudo = needs_root(findings) && !is_root;
    if sudo {
        append(&mut out, one(Tone::Warn, "sudo will ask for your password in the terminal.".to_owned()));
    }
    if no_exec {
        append(&mut out, one(Tone::Danger, "Execution is disabled (--no-exec). Copy the commands above instead.".to_owned()));
    }
    assert(page_view(out@) =~= start + review_end(total, sudo, no_exec));
    assert(page_view(out@) =~= review_findings(finding_views(findings@), width as int) + review_marks(
        mark_views(marks@),
        trash_ok,
        home@,
    ) + review_end(total, sudo, no_exec));
    out
}

/// How many bytes of a command the details show.
pub const DETAIL_BYTES: usize = 600;

/// How many paths the details list.
pub const DETAIL_PATHS: usize = 12;

/// The details of a finding.
pub open spec fn detailed(f: FindingView, home: Seq<u8>) -> Seq<Seq<(Tone, Seq<char>)>> {
    let head = seq![
        seq![(Tone::Strong, f.title)],
        seq![(Tone::Plain, ""@)],
        seq![
            (Tone::Badge(f.risk), " "@ + risk_label(f.risk) + " "@),
            (Tone::Dim, "  "@ + f.category + "  "@),
            (Tone::Tier(f.risk), "frees ~"@ + size_text(f.bytes)),
            (
                Tone::Dim,
                if f.needs_root {
                    "  · needs root"@
                } else {
                    "  · no root needed"@
                },
            ),
        ],
        seq![(Tone::Plain, ""@)],
    ];
    let body = Seq::new(lines(f.detail).len(), |i: int| seq![(Tone::Plain, lines(f.detail)[i])]);
    let command = seq![
        seq![(Tone::Plain, ""@)],
        seq![(Tone::Accent, "COMMAND"@)],
        seq![(Tone::Dim, "$ "@), (Tone::Amber, cut_text(command_of(f.action, f.needs_root), DETAIL_BYTES as int, " …"@))],
    ];
    head + body + command + path_details(f.paths, home)
}

pub open spec fn risk_label(r: Risk) -> Seq<char> {
    match r {
        Risk::Safe => "SAFE"@,
        Risk::Moderate => "MODERATE"@,
        Risk::Caution => "CAUTION"@,
    }
}

/// The paths of a finding, as far as they are listed.
pub open spec fn path_details(paths: Seq<Seq<u8>>, home: Seq<u8>) -> Seq<Seq<(Tone, Seq<char>)>> {
    let n = if paths.len() < DETAIL_PATHS {
        paths.len()
    } else {
        DETAIL_PATHS as nat
    };
    if paths.len() == 0 {
        Seq::empty()
    } else {
        let listed = seq![seq![(Tone::Plain, ""@)], seq![(Tone::Accent, "PATHS ("@ + digits(paths.len()) + ")"@)]] + Seq::new(
            n,
            |i: int| seq![(Tone::Dim, "  "@ + tilde_text(paths[i], home))],
        );
        if paths.len() > DETAIL_PATHS {
            listed.push(seq![(Tone::Faint, "  … and "@ + digits((paths.len() - DETAIL_PATHS) as nat) + " more"@)])
        } else {
            listed
        }
    }
}

fn add_paths(out: &mut Vec<Pieces>, paths: &Vec<FsPath>, home: &FsPath)
    ensures
        page_view(final(out)@) == page_view(old(out)@) + path_details(paths_view(paths@), home@),
{
    let ghost pv = paths_view(paths@);
    let ghost start = page_view(out@);
    if paths.len() == 0 {
        assert(start + Seq::<Seq<(Tone, Seq<char>)>>::empty() =~= start);
        return;
    }
    append(out, one(Tone::Plain, "".to_owned()));
    append(out, one(Tone::Accent, "PATHS (".to_owned().concat(decimal(paths.len() as u64).as_str()).concat(")")));
    let n: usize = if paths.len() < DETAIL_PATHS {
        paths.len()
    } else {
        DETAIL_PATHS
    };
    let ghost head = seq![seq![(Tone::Plain, ""@)], seq![(Tone::Accent, "PATHS ("@ + digits(pv.len()) + ")"@)]];
    let ghost told = Seq::new(n as nat, |i: int| seq![(Tone::Dim, "  "@ + tilde_text(pv[i], home@))]);
    assert(page_view(out@) =~= start + (head + told.take(0)));
    for i in 0..n
        invariant
            n <= paths@.len(),
            pv == paths_view(paths@),
            told == Seq::new(n as nat, |i: int| seq![(Tone::Dim, "  "@ + tilde_text(pv[i], home@))]),
            page_view(out@) == start + (head + told.take(i as int)),
    {
        let ghost before = page_view(out@);
        append(out, one(Tone::Dim, "  ".to_owned().concat(tilde(&paths[i], home).as_str())));
        assert(page_view(out@) =~= before.push(told[i as int]));
        assert(page_view(out@) =~= start + (head + told.take(i + 1)));
    }
    assert(told.take(n as int) =~= told);
    if paths.len() > DETAIL_PATHS {
        append(
            out,
            one(Tone::Faint, "  … and ".to_owned().concat(decimal((paths.len() - DETAIL_PATHS) as u64).as_str()).concat(" more")),
        );
    }
    assert(page_view(out@) =~= start + path_details(pv, home@));
}

/// The details of a finding in the terminal.
pub fn detail_lines(f: &Finding, home: &FsPath) -> (r: Vec<Pieces>)
    ensures
        page_view(r@) == detailed(f@, home@),
{
    let mut out: Vec<Pieces> = Vec::new();
    append(&mut out, one(Tone::Strong, f.title.clone()));
    append(&mut out, one(Tone::Plain, "".to_owned()));
    let mut about = three(
        Tone::Badge(f.risk),
        " ".to_owned().concat(f.risk.label()).concat(" "),
        Tone::Dim,
        "  ".to_owned().concat(f.category.as_str()).concat("  "),
        Tone::Tier(f.risk),
        "frees ~".to_owned().concat(fmt_size(f.bytes).as_str()),
    );
    let ghost abouts = pieces_view(about@);
    let root = if f.needs_root {
        "  · needs root"
    } else {
        "  · no root needed"
    };
    about.push((Tone::Dim, root.to_owned()));
    assert(pieces_view(about@) =~= abouts.push((Tone::Dim, root@)));
    append(&mut out, about);
    append(&mut out, one(Tone::Plain, "".to_owned()));
    let ghost head = page_view(out@);
    let text = lines_of(&chars_of(f.detail.as_str()));
    let ghost told = Seq::new(lines(f.detail@).len(), |i: int| seq![(Tone::Plain, lines(f.detail@)[i])]);
    assert(head + told.take(0) =~= head);
    for i in 0..text.len()
        invariant
            views(text@) == lines(f.detail@),
            told == Seq::new(lines(f.detail@).len(), |i: int| seq![(Tone::Plain, lines(f.detail@)[i])]),
            page_view(out@) == head + told.take(i as int),
    {
        let ghost before = page_view(out@);
        assert(views(text@)[i as int] == text@[i as int]@);
        append(&mut out, one(Tone::Plain, string_of(&text[i])));
        assert(page_view(out@) =~= before.push(told[i as int]));
        assert(page_view(out@) =~= head + told.take(i + 1));
    }
    assert(told.take(text@.len() as int) =~= told);
    let ghost body = page_view(out@);
    append(&mut out, one(Tone::Plain, "".to_owned()));
    append(&mut out, one(Tone::Accent, "COMMAND".to_owned()));
    append(
        &mut out,
        two(Tone::Dim, "$ ".to_owned(), Tone::Amber, shown_command(f.command_text().as_str(), DETAIL_BYTES, " …")),
    );
    let ghost command = seq![
        seq![(Tone::Plain, ""@)],
        seq![(Tone::Accent, "COMMAND"@)],
        seq![(Tone::Dim, "$ "@), (Tone::Amber, cut_text(command_of(f@.action, f@.needs_root), DETAIL_BYTES as int, " …"@))],
    ];
    assert(page_view(out@) =~= body + command);
    add_paths(&mut out, &f.paths, home);
    proof {
        let want = seq![
            seq![(Tone::Strong, f@.title)],
            seq![(Tone::Plain, ""@)],
            seq![
                (Tone::Badge(f@.risk), " "@ + risk_label(f@.risk) + " "@),
                (Tone::Dim, "  "@ + f@.category + "  "@),
                (Tone::Tier(f@.risk), "frees ~"@ + size_text(f@.bytes)),
                (
                    Tone::Dim,
                    if f@.needs_root {
                        "  · needs root"@
                    } else {
                        "  · no root needed"@
                    },
                ),
            ],
            seq![(Tone::Plain, ""@)],
        ];
        assert(head[2] =~= want[2]);
        assert(head =~= want);
        assert(page_view(out@) =~= detailed(f@, home@));
    }
    out
}

/// What the side panel says of the selected node; `share` is its part of the
/// scan.
pub open spec fn selection_told(
    n: Node,
    kind: Kind,
    label: Seq<char>,
    share: Seq<char>,
    reclaim: bool,
    path: Seq<char>,
    risk: Option<Risk>,
    width: int,
) -> Seq<Seq<(Tone, Seq<char>)>> {
    let entries = if n.children@.len() == 0 {
        ""@
    } else {
        " · "@ + digits(n.children@.len()) + " entries"@
    };
    let first = seq![
        seq![(Tone::Strong, shortened(n.name@, width))],
        seq![(Tone::Amber, size_text(n.size)), (Tone::Dim, "  "@ + share + " of scan"@)],
        seq![(Tone::Dim, count_text(n.files) + " files"@ + entries)],
        seq![
            (Tone::Kind(kind), "■ "@),
            (Tone::Plain, label),
            (
                Tone::Good,
                if reclaim {
                    "  ╱╱ can be had back"@
                } else {
                    ""@
                },
            ),
        ],
        seq![(Tone::Faint, shortened_left(path, width))],
    ];
    match risk {
        Some(r) => first.push(seq![(Tone::Tier(r), "♻ "@ + risk_label(r) + " cleanup suggestion — see Prune"@)]),
        None => first,
    }
}

/// What the side panel says of node `i`.
pub fn selection_lines(
    t: &Tree,
    i: usize,
    kind: Kind,
    share: &str,
    reclaim: bool,
    risk: Option<Risk>,
    home: &FsPath,
    width: usize,
) -> (r: Vec<Pieces>)
    requires
        t.wf(),
        i < t.nodes@.len(),
    ensures
        page_view(r@) == selection_told(
            t.nodes@[i as int],
            kind,
            crate::classify::kind_label(kind),
            share@,
            reclaim,
            tilde_text(crate::scanner::path_at(t.nodes@, t.root_path@, i as int), home@),
            risk,
            width as int,
        ),
{
    let n = &t.nodes[i];
    let mut out: Vec<Pieces> = Vec::new();
    append(&mut out, one(Tone::Strong, truncate(n.name.as_str(), width)));
    append(
        &mut out,
        two(Tone::Amber, fmt_size(n.size), Tone::Dim, "  ".to_owned().concat(share).concat(" of scan")),
    );
    let entries = if n.children.len() == 0 {
        "".to_owned()
    } else {
        " · ".to_owned().concat(decimal(n.children.len() as u64).as_str()).concat(" entries")
    };
    append(&mut out, one(Tone::Dim, fmt_count(n.files).concat(" files").concat(entries.as_str())));
    let back = if reclaim {
        "  ╱╱ can be had back"
    } else {
        ""
    };
    append(
        &mut out,
        three(Tone::Kind(kind), "■ ".to_owned(), Tone::Plain, kind.label().to_owned(), Tone::Good, back.to_owned()),
    );
    append(&mut out, one(Tone::Faint, truncate_left(tilde(&t.path_of(i), home).as_str(), width)));
    if let Some(r) = risk {
        append(
            &mut out,
            one(Tone::Tier(r), "♻ ".to_owned().concat(r.label()).concat(" cleanup suggestion — see Prune")),
        );
    }
    assert(page_view(out@) =~= selection_told(
        t.nodes@[i as int],
        kind,
        crate::classify::kind_label(kind),
        share@,
        reclaim,
        tilde_text(crate::scanner::path_at(t.nodes@, t.root_path@, i as int), home@),
        risk,
        width as int,
    ));
    out
}

/// A row of the largest suggestions.
pub open spec fn saving_told(f: FindingView, ticked: bool, width: int) -> Seq<(Tone, Seq<char>)> {
    seq![
        (
            Tone::Tier(f.risk),
            if ticked {
                "✔ "@
            } else {
                "● "@
            },
        ),
        (Tone::Strong, blanks(9 - size_text(f.bytes).len()) + size_text(f.bytes) + " "@),
        (Tone::Dim, shortened(f.title, width)),
    ]
}

pub fn saving_line(f: &Finding, ticked: bool, width: usize) -> (r: Pieces)
    ensures
        pieces_view(r@) == saving_told(f@, ticked, width as int),
{
    let check = if ticked {
        "✔ "
    } else {
        "● "
    };
    three(
        Tone::Tier(f.risk),
        check.to_owned(),
        Tone::Strong,
        pad_left(fmt_size(f.bytes).as_str(), 9).concat(" "),
        Tone::Dim,
        truncate(f.title.as_str(), width),
    )
}

/// A row of the marked items.
pub open spec fn mark_told(p: Seq<u8>, size: u64, home: Seq<u8>, width: int) -> Seq<(Tone, Seq<char>)> {
    seq![
        (Tone::Danger, "✖ "@),
        (Tone::Plain, blanks(9 - size_text(size).len()) + size_text(size) + " "@),
        (Tone::Dim, shortened_left(tilde_text(p, home), width)),
    ]
}

pub fn mark_row(p: &FsPath, size: u64, home: &FsPath, width: usize) -> (r: Pieces)
    ensures
        pieces_view(r@) == mark_told(p@, size, home@, width as int),
{
    three(
        Tone::Danger,
        "✖ ".to_owned(),
        Tone::Plain,
        pad_left(fmt_size(size).as_str(), 9).concat(" "),
        Tone::Dim,
        truncate_left(tilde(p, home).as_str(), width),
    )
}

/// What the disk panel says: free space now, and after what is marked and
/// ticked is gone.
pub open spec fn disk_told(avail: u64, after: u64, gain: u64) -> Seq<Seq<(Tone, Seq<char>)>> {
    seq![
        seq![(Tone::Dim, "free now   "@), (Tone::Strong, size_text(avail))],
        seq![
            (Tone::Dim, "after      "@),
            (Tone::Good, size_text(after)),
            (
                Tone::Good,
                if gain > 0 {
                    "  +"@ + size_text(gain)
                } else {
                    ""@
                },
            ),
        ],
    ]
}

pub fn disk_lines(avail: u64, after: u64, gain: u64) -> (r: Vec<Pieces>)
    ensures
        page_view(r@) == disk_told(avail, after, gain),
{
    let mut out: Vec<Pieces> = Vec::new();
    append(&mut out, two(Tone::Dim, "free now   ".to_owned(), Tone::Strong, fmt_size(avail)));
    let more = if gain > 0 {
        "  +".to_owned().concat(fmt_size(gain).as_str())
    } else {
        "".to_owned()
    };
    append(&mut out, three(Tone::Dim, "after      ".to_owned(), Tone::Good, fmt_size(after), Tone::Good, more));
    assert(page_view(out@) =~= disk_told(avail, after, gain));
    out
}

/// A text that fits is shown whole; a longer one loses its end, or its beginning,
/// and an ellipsis stands in its place.
pub proof fn law_shortened_text_keeps_its_beginning_or_end(s: Seq<char>, max: int)
    requires
        max > 0,
    ensures
        s.len() <= max ==> shortened(s, max) == s && shortened_left(s, max) == s,
        s.len() > max ==> shortened(s, max) == s.take(max - 1) + seq!['…'],
        s.len() > max ==> shortened_left(s, max) == seq!['…'] + s.skip(s.len() - (max - 1)),
{
    if s.len() > max {
        assert(s.take(max - 1).push('…') =~= s.take(max - 1) + seq!['…']);
    }
}

/// Each finding counts once, in its own tier, and each mark with its bytes.
pub proof fn law_tiers_and_marks_are_counted(list: Seq<FindingView>, risk: Risk, i: int, marks: Seq<(Seq<u8>, u64)>, k: int)
    requires
        0 <= i < list.len(),
        0 <= k < marks.len(),
    ensures
        list[i].risk == risk ==> count_tier(list, risk) == count_tier(list.remove(i), risk) + 1,
        list[i].risk != risk ==> count_tier(list, risk) == count_tier(list.remove(i), risk),
        marks_sum(marks) == marks_sum(marks.remove(k)) + marks[k].1,
    decreases list.len() + marks.len(),
{
    lemma_tier_count(list, risk, i);
    lemma_sum_without(marks, k);
}

proof fn lemma_tier_count(list: Seq<FindingView>, risk: Risk, i: int)
    requires
        0 <= i < list.len(),
    ensures
        list[i].risk == risk ==> count_tier(list, risk) == count_tier(list.remove(i), risk) + 1,
        list[i].risk != risk ==> count_tier(list, risk) == count_tier(list.remove(i), risk),
    decreases list.len(),
{
    if i < list.len() - 1 {
        lemma_tier_count(list.drop_last(), risk, i);
        assert(list.remove(i).drop_last() =~= list.drop_last().remove(i));
        assert(list.remove(i).last() == list.last());
    } else {
        assert(list.remove(i) =~= list.drop_last());
    }
}

proof fn lemma_sum_without(marks: Seq<(Seq<u8>, u64)>, k: int)
    requires
        0 <= k < marks.len(),
    ensures
        marks_sum(marks) == marks_sum(marks.remove(k)) + marks[k].1,
    decreases marks.len(),
{
    if k < marks.len() - 1 {
        lemma_sum_without(marks.drop_last(), k);
        assert(marks.remove(k).drop_last() =~= marks.drop_last().remove(k));
        assert(marks.remove(k).last() == marks.last());
    } else {
        assert(marks.remove(k) =~= marks.drop_last());
    }
}

/// Every finding has its row in the list, under the header of its tier.
pub proof fn law_every_finding_has_its_row(list: Seq<FindingView>, k: int, i: int)
    requires
        0 <= i < k <= list.len(),
    ensures
        tier_rows(list, list[i].risk, k).contains(PruneRowView::Item(i)),
        tier_rows(list, list[i].risk, k)[0] == PruneRowView::Header(list[i].risk),
        tier_rows(list, list[i].risk, k).len() > 0,
    decreases k,
{
    let risk = list[i].risk;
    let before = tier_rows(list, risk, k - 1);
    if i < k - 1 {
        law_every_finding_has_its_row(list, k - 1, i);
        let w = choose|w: int| 0 <= w < before.len() && before[w] == PruneRowView::Item(i);
        assert(tier_rows(list, risk, k)[w] == PruneRowView::Item(i));
    } else {
        lemma_rows_begin(list, risk, k - 1);
        let all = tier_rows(list, risk, k);
        assert(all[all.len() - 1] == PruneRowView::Item(i));
    }
}

proof fn lemma_rows_begin(list: Seq<FindingView>, risk: Risk, k: int)
    ensures
        tier_rows(list, risk, k).len() > 0 ==> tier_rows(list, risk, k)[0] == PruneRowView::Header(risk),
    decreases k,
{
    if k > 0 {
        lemma_rows_begin(list, risk, k - 1);
    }
}

/// A review shows every ticked finding with its command, and every mark with its
/// path.
pub proof fn law_a_review_shows_everything(
    list: Seq<FindingView>,
    width: int,
    i: int,
    marks: Seq<(Seq<u8>, u64)>,
    trash_ok: bool,
    home: Seq<u8>,
    k: int,
)
    requires
        0 <= i < list.len(),
        0 <= k < marks.len(),
    ensures
        review_findings(list, width).contains(seq![(Tone::Amber, "    $ "@ + shortened(command_of(list[i].action, list[i].needs_root), width))]),
        review_marks(marks, trash_ok, home).contains(
            seq![
                (Tone::Danger, "✖ "@),
                (Tone::Strong, blanks(10 - size_text(marks[k].1).len()) + size_text(marks[k].1) + "  "@),
                (Tone::Plain, tilde_text(marks[k].0, home)),
            ],
        ),
{
    lemma_reviewed(list, width, i);
    let all = all_reviewed(list, width);
    let line = seq![(Tone::Amber, "    $ "@ + shortened(command_of(list[i].action, list[i].needs_root), width))];
    let w = choose|w: int| 0 <= w < all.len() && all[w] == line;
    assert(review_findings(list, width)[w + 1] == line);
    assert(review_marks(marks, trash_ok, home)[k + 1] == marked_line(marks[k].0, marks[k].1, home));
}

proof fn lemma_reviewed(list: Seq<FindingView>, width: int, i: int)
    requires
        0 <= i < list.len(),
    ensures
        all_reviewed(list, width).contains(seq![(Tone::Amber, "    $ "@ + shortened(command_of(list[i].action, list[i].needs_root), width))]),
    decreases list.len(),
{
    let (a, b) = (all_reviewed(list.drop_last(), width), reviewed(list.last(), width));
    let line = seq![(Tone::Amber, "    $ "@ + shortened(command_of(list[i].action, list[i].needs_root), width))];
    if i < list.len() - 1 {
        lemma_reviewed(list.drop_last(), width, i);
        let w = choose|w: int| 0 <= w < a.len() && a[w] == line;
        assert((a + b)[w] == line);
    } else {
        assert((a + b)[a.len() as int + 1] == line);
    }
}

/// The savings are ranked by their bytes, the largest first.
pub proof fn law_savings_are_ranked_by_bytes(list: Seq<FindingView>, o: Seq<usize>, i: int, j: int)
    requires
        stable_order(byte_keys(list), o),
        0 <= i < j < list.len(),
    ensures
        list[o[i] as int].bytes >= list[o[j] as int].bytes,
        o.len() == list.len(),
{
    let keys = byte_keys(list);
    assert(keys[o[i] as int] <= keys[o[j] as int]);
}

/// What will be free afterwards is what is free now and what goes, and never more
/// than the disk holds.
pub proof fn law_what_will_be_free(total: u64, avail: u64, marked: u64, ticked: u64, r: u64)
    requires
        call_ensures(disk_after, (avail, marked, ticked, total), r),
    ensures
        avail + marked + ticked <= total ==> r == avail + marked + ticked,
        avail + marked + ticked > total ==> r == total,
{
}

/// The list shows every finding and every note; while checks run it says how many
/// groups are left, and a system with nothing to reclaim is told so.
pub proof fn law_the_list_shows_everything(list: Seq<FindingView>, notes: Seq<Seq<char>>, pending: u8, spinner: Seq<char>, i: int, k: int)
    ensures
        0 <= i < list.len() ==> prune_list(list, notes, pending, spinner).contains(PruneRowView::Item(i)),
        0 <= k < notes.len() ==> prune_list(list, notes, pending, spinner).contains(PruneRowView::Note("note: "@ + notes[k])),
        pending > 0 ==> prune_list(list, notes, pending, spinner)[0] == PruneRowView::Note(
            spinner + " analyzing… ("@ + digits(pending as nat) + " check groups running)"@,
        ),
        list.len() == 0 && pending == 0 ==> prune_list(list, notes, pending, spinner)[0] == PruneRowView::Note(
            "Nothing significant to reclaim — this system is tidy."@,
        ),
{
    let n = list.len() as int;
    let all = prune_list(list, notes, pending, spinner);
    let busy = if pending > 0 {
        seq![PruneRowView::Note(spinner + " analyzing… ("@ + digits(pending as nat) + " check groups running)"@)]
    } else {
        Seq::empty()
    };
    let tidy = if n == 0 && pending == 0 {
        seq![PruneRowView::Note("Nothing significant to reclaim — this system is tidy."@)]
    } else {
        Seq::empty()
    };
    let (a, b, c) = (tier_rows(list, Risk::Safe, n), tier_rows(list, Risk::Moderate, n), tier_rows(list, Risk::Caution, n));
    let told = Seq::new(notes.len(), |m: int| PruneRowView::Note("note: "@ + notes[m]));
    assert(all == busy + a + b + c + tidy + told);
    if 0 <= i < list.len() {
        law_every_finding_has_its_row(list, n, i);
        let own = tier_rows(list, list[i].risk, n);
        let w = choose|w: int| 0 <= w < own.len() && own[w] == PruneRowView::Item(i);
        match list[i].risk {
            Risk::Safe => {
                assert(all[busy.len() as int + w] == own[w]);
            },
            Risk::Moderate => {
                assert(all[busy.len() as int + a.len() + w] == own[w]);
            },
            Risk::Caution => {
                assert(all[busy.len() as int + a.len() + b.len() + w] == own[w]);
            },
        }
    }
    if 0 <= k < notes.len() {
        assert(all[busy.len() as int + a.len() + b.len() + c.len() + tidy.len() + k] == told[k]);
    }
}

/// The review ends with what it would free, says when a password will be asked
/// for, and says when nothing can be run.
pub proof fn law_a_review_ends_with_its_total(total: u64)
    ensures
        review_end(total, false, false) == seq![seq![(Tone::Dim, "Total to free: "@), (Tone::Good, size_text(total))]],
        review_end(total, true, false) == seq![
            seq![(Tone::Dim, "Total to free: "@), (Tone::Good, size_text(total))],
            seq![(Tone::Warn, "sudo will ask for your password in the terminal."@)],
        ],
        review_end(total, true, true).last() == seq![
            (Tone::Danger, "Execution is disabled (--no-exec). Copy the commands above instead."@),
        ],
{
    assert(review_end(total, true, false) =~= seq![
        seq![(Tone::Dim, "Total to free: "@), (Tone::Good, size_text(total))],
        seq![(Tone::Warn, "sudo will ask for your password in the terminal."@)],
    ]);
}

} // verus!
