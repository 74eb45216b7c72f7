//! The printed report.

use vstd::prelude::*;
use vstd::utf8::encode_utf8;

use crate::panels::{blanks, count_text, pad_left, pad_right, risk_label};
use crate::path::FsPath;
use crate::rules::{command_of, finding_views, sum_bytes, sum_tier, Finding, FindingView, Report, Risk};
use crate::scanner::{path_at, Node, Tree};
use crate::summary::{cut_text, shown_command};
use crate::text::texts;
use crate::util::{fmt_count, fmt_size, size_text, tilde, tilde_text};

verus! {

/// How many bytes of a command the report shows.
pub const REPORT_BYTES: usize = 300;

pub open spec fn in_bold(s: Seq<char>) -> Seq<char> {
    "\x1b[1m"@ + s + "\x1b[0m"@
}

fn bold(s: &str) -> (r: String)
    ensures
        r@ == in_bold(s@),
{
    "\x1b[1m".to_owned().concat(s).concat("\x1b[0m")
}

pub open spec fn tier_colour(r: Risk) -> Seq<char> {
    match r {
        Risk::Safe => "\x1b[1;32m"@,
        Risk::Moderate => "\x1b[1;33m"@,
        Risk::Caution => "\x1b[1;31m"@,
    }
}

fn colour(r: Risk) -> (s: &'static str)
    ensures
        s@ == tier_colour(r),
{
    match r {
        Risk::Safe => "\x1b[1;32m",
        Risk::Moderate => "\x1b[1;33m",
        Risk::Caution => "\x1b[1;31m",
    }
}

fn append(out: &mut Vec<String>, line: String)
    ensures
        texts(final(out)@) == texts(old(out)@).push(line@),
{
    out.push(line);
    assert(texts(out@) =~= texts(old(out)@).push(line@));
}

/// A text in a column of `w` characters, at its right end.
pub open spec fn right_in(s: Seq<char>, w: int) -> Seq<char> {
    blanks(w - s.len()) + s
}

/// A text in a column of `w` characters, at its left end.
pub open spec fn left_in(s: Seq<char>, w: int) -> Seq<char> {
    s + blanks(w - s.len())
}

/// A large directory in the report: the node, its share of the scan in percent
/// and the bar that shows it.
pub struct DirShare {
    pub node: usize,
    pub percent: String,
    pub bar: String,
}

/// The line about a large directory.
pub open spec fn dir_line(nodes: Seq<Node>, root: Seq<u8>, home: Seq<u8>, d: DirShare) -> Seq<char> {
    "  "@ + right_in(size_text(nodes[d.node as int].size), 11) + "  "@ + right_in(d.percent@, 5) + "%  \x1b[36m"@ + left_in(d.bar@, 20)
        + "\x1b[0m "@ + tilde_text(path_at(nodes, root, d.node as int), home)
}

/// The line about the scan.
pub open spec fn scan_line(root: Seq<u8>, size: u64, files: u64, dirs: u64, errors: u64, secs: Seq<char>) -> Seq<char> {
    "Scanned "@ + crate::path::lossy_text(root) + ": "@ + in_bold(size_text(size)) + " in "@ + count_text(files) + " files, "@ + count_text(
        dirs,
    ) + " dirs ("@ + secs + (if errors > 0 {
        ", "@ + count_text(errors) + " unreadable"@
    } else {
        ""@
    }) + ")"@
}

/// What the report says of the tree.
pub open spec fn tree_part(
    nodes: Seq<Node>,
    root: Seq<u8>,
    dirs: u64,
    errors: u64,
    secs: Seq<char>,
    largest: Seq<DirShare>,
    home: Seq<u8>,
) -> Seq<Seq<char>> {
    seq![scan_line(root, nodes[0].size, nodes[0].files, dirs, errors, secs), "\n"@ + in_bold("LARGEST DIRECTORIES"@)] + Seq::new(
        largest.len(),
        |i: int| dir_line(nodes, root, home, largest[i]),
    )
}

/// The lines of the report about the scanned tree; `secs` is how long the scan
/// took.
pub fn tree_lines(t: &Tree, secs: &str, largest: &Vec<DirShare>, home: &FsPath) -> (r: Vec<String>)
    requires
        t.wf(),
        forall|i: int| 0 <= i < largest@.len() ==> (#[trigger] largest@[i]).node < t.nodes@.len(),
    ensures
        texts(r@) == tree_part(t.nodes@, t.root_path@, t.dirs, t.errors, secs@, largest@, home@),
{
    let mut out: Vec<String> = Vec::new();
    assert(texts(out@) =~= Seq::empty());
    let tail = if t.errors > 0 {
        ", ".to_owned().concat(fmt_count(t.errors).as_str()).concat(" unreadable")
    } else {
        "".to_owned()
    };
    append(
        &mut out,
        "Scanned ".to_owned().concat(t.root_path.display().as_str()).concat(": ").concat(
            bold(fmt_size(t.nodes[0].size).as_str()).as_str(),
        ).concat(" in ").concat(fmt_count(t.nodes[0].files).as_str()).concat(" files, ").concat(fmt_count(t.dirs).as_str()).concat(
            " dirs (",
        ).concat(secs).concat(tail.as_str()).concat(")"),
    );
    append(&mut out, "\n".to_owned().concat(bold("LARGEST DIRECTORIES").as_str()));
    let ghost head = texts(out@);
    let ghost told = Seq::new(largest@.len(), |i: int| dir_line(t.nodes@, t.root_path@, home@, largest@[i]));
    assert(head + told.take(0) =~= head);
    for i in 0..largest.len()
        invariant
            t.wf(),
            forall|i: int| 0 <= i < largest@.len() ==> (#[trigger] largest@[i]).node < t.nodes@.len(),
            told == Seq::new(largest@.len(), |i: int| dir_line(t.nodes@, t.root_path@, home@, largest@[i])),
            texts(out@) == head + told.take(i as int),
    {
        let d = &largest[i];
        let ghost before = texts(out@);
        append(
            &mut out,
            "  ".to_owned().concat(pad_left(fmt_size(t.nodes[d.node].size).as_str(), 11).as_str()).concat("  ").concat(
                pad_left(d.percent.as_str(), 5).as_str(),
            ).concat("%  \x1b[36m").concat(pad_right(d.bar.as_str(), 20).as_str()).concat("\x1b[0m ").concat(
                tilde(&t.path_of(d.node), home).as_str(),
            ),
        );
        assert(texts(out@) =~= before.push(told[i as int]));
        assert(texts(out@) =~= head + told.take(i + 1));
    }
    assert(told.take(largest@.len() as int) =~= told);
    assert(texts(out@) =~= tree_part(t.nodes@, t.root_path@, t.dirs, t.errors, secs@, largest@, home@));
    out
}

/// The line of a tier in the overview.
pub open spec fn tier_line(list: Seq<FindingView>, r: Risk) -> Seq<char> {
    "  "@ + tier_colour(r) + left_in(risk_label(r), 9) + "\x1b[0m "@ + right_in(size_text(sum_tier(list, r) as u64), 11)
}

/// The overview of what can be had back.
pub open spec fn overview(list: Seq<FindingView>) -> Seq<Seq<char>> {
    seq![
        "\n"@ + in_bold("RECLAIMABLE SPACE"@),
        tier_line(list, Risk::Safe),
        tier_line(list, Risk::Moderate),
        tier_line(list, Risk::Caution),
        "  "@ + left_in("TOTAL"@, 9) + " "@ + right_in(in_bold(size_text(sum_bytes(list) as u64)), 11),
    ]
}

/// The two lines about a finding.
pub open spec fn finding_part(f: FindingView) -> Seq<Seq<char>> {
    seq![
        "  "@ + right_in(size_text(f.bytes), 11) + "  "@ + in_bold(f.title),
        "               \x1b[33m$ "@ + cut_text(command_of(f.action, f.needs_root), REPORT_BYTES as int, " …"@) + "\x1b[0m"@,
    ]
}

/// The findings of a tier among the first `k`, under a heading if there are any.
pub open spec fn tier_part(list: Seq<FindingView>, r: Risk, k: int) -> Seq<Seq<char>>
    decreases k,
{
    if k <= 0 {
        Seq::empty()
    } else {
        let before = tier_part(list, r, k - 1);
        if list[k - 1].risk != r {
            before
        } else if before.len() == 0 {
            seq!["\n"@ + tier_colour(r) + "── "@ + risk_label(r) + " ──\x1b[0m"@] + finding_part(list[k - 1])
        } else {
            before + finding_part(list[k - 1])
        }
    }
}

/// What the report says of the findings: the overview, the tiers, the notes, and
/// last that nothing was deleted and how to go on.
pub open spec fn findings_part(list: Seq<FindingView>, notes: Seq<Seq<char>>) -> Seq<Seq<char>> {
    let n = list.len() as int;
    overview(list) + tier_part(list, Risk::Safe, n) + tier_part(list, Risk::Moderate, n) + tier_part(list, Risk::Caution, n) + Seq::new(
        notes.len(),
        |i: int| "\n\x1b[2mnote: "@ + notes[i] + "\x1b[0m"@,
    ) + seq![
        "\nNothing was deleted. Run the commands above yourself, or start the interactive mode (without --summary) to select and clean items."@,
    ]
}

fn add_tier(out: &mut Vec<String>, findings: &Vec<Finding>, r: Risk)
    ensures
        texts(final(out)@) == texts(old(out)@) + tier_part(finding_views(findings@), r, findings@.len() as int),
{
    let ghost fv = finding_views(findings@);
    let ghost start = texts(out@);
    let mut any = false;
    assert(start + tier_part(fv, r, 0) =~= start);
    for i in 0..findings.len()
        invariant
            fv == finding_views(findings@),
            texts(out@) == start + tier_part(fv, r, i as int),
            any == (tier_part(fv, r, i as int).len() > 0),
    {
        let f = &findings[i];
        let ghost before = texts(out@);
        if f.risk == r {
            if !any {
                append(out, "\n".to_owned().concat(colour(r)).concat("── ").concat(r.label()).concat(" ──\x1b[0m"));
                any = true;
            }
            let ghost mid = texts(out@);
            append(
                out,
                "  ".to_owned().concat(pad_left(fmt_size(f.bytes).as_str(), 11).as_str()).concat("  ").concat(bold(f.title.as_str()).as_str()),
            );
            append(
                out,
                "               \x1b[33m$ ".to_owned().concat(shown_command(f.command_text().as_str(), REPORT_BYTES, " …").as_str()).concat(
                    "\x1b[0m",
                ),
            );
            assert(texts(out@) =~= mid + finding_part(f@));
        }
        assert(texts(out@) =~= start + tier_part(fv, r, i + 1));
    }
}

proof fn lemma_tier_fits(list: Seq<FindingView>, r: Risk)
    ensures
        sum_tier(list, r) <= sum_bytes(list),
    decreases list.len(),
{
    if list.len() > 0 {
        lemma_tier_fits(list.drop_last(), r);
    }
}

fn tier_text(report: &Report, r: Risk) -> (s: String)
    requires
        sum_bytes(report.list()) <= u64::MAX,
    ensures
        s@ == tier_line(report.list(), r),
{
    proof {
        lemma_tier_fits(report.list(), r);
    }
    "  ".to_owned().concat(colour(r)).concat(pad_right(r.label(), 9).as_str()).concat("\x1b[0m ").concat(
        pad_left(fmt_size(report.total(r)).as_str(), 11).as_str(),
    )
}

/// The lines of the report about what can be had back.
pub fn findings_lines(report: &Report) -> (r: Vec<String>)
    requires
        sum_bytes(report.list()) <= u64::MAX,
    ensures
        texts(r@) == findings_part(report.list(), texts(report.notes@)),
{
    let ghost list = report.list();
    let ghost notes = texts(report.notes@);
    let mut out: Vec<String> = Vec::new();
    append(&mut out, "\n".to_owned().concat(bold("RECLAIMABLE SPACE").as_str()));
    append(&mut out, tier_text(report, Risk::Safe));
    append(&mut out, tier_text(report, Risk::Moderate));
    append(&mut out, tier_text(report, Risk::Caution));
    append(
        &mut out,
        "  ".to_owned().concat(pad_right("TOTAL", 9).as_str()).concat(" ").concat(
            pad_left(bold(fmt_size(report.grand_total()).as_str()).as_str(), 11).as_str(),
        ),
    );
    assert(texts(out@) =~= overview(list));
    add_tier(&mut out, &report.findings, Risk::Safe);
    add_tier(&mut out, &report.findings, Risk::Moderate);
    add_tier(&mut out, &report.findings, Risk::Caution);
    let ghost start = texts(out@);
    let ghost told = Seq::new(notes.len(), |i: int| "\n\x1b[2mnote: "@ + notes[i] + "\x1b[0m"@);
    assert(start + told.take(0) =~= start);
    for i in 0..report.notes.len()
        invariant
            notes == texts(report.notes@),
            told == Seq::new(notes.len(), |i: int| "\n\x1b[2mnote: "@ + notes[i] + "\x1b[0m"@),
            texts(out@) == start + told.take(i as int),
    {
        let ghost before = texts(out@);
        append(&mut out, "\n\x1b[2mnote: ".to_owned().concat(report.notes[i].as_str()).concat("\x1b[0m"));
        assert(texts(out@) =~= before.push(told[i as int]));
        assert(texts(out@) =~= start + told.take(i + 1));
    }
    assert(told.take(report.notes@.len() as int) =~= told);
    append(
        &mut out,
        "\nNothing was deleted. Run the commands above yourself, or start the interactive mode (without --summary) to select and clean items.".to_owned(),
    );
    assert(texts(out@) =~= findings_part(list, notes));
    out
}

proof fn lemma_tier_part(list: Seq<FindingView>, r: Risk, k: int, i: int)
    requires
        0 <= i < k <= list.len(),
        list[i].risk == r,
    ensures
        tier_part(list, r, k).contains(finding_part(list[i])[0]),
        tier_part(list, r, k).contains(finding_part(list[i])[1]),
    decreases k,
{
    let all = tier_part(list, r, k);
    let before = tier_part(list, r, k - 1);
    let part = finding_part(list[k - 1]);
    if i < k - 1 {
        lemma_tier_part(list, r, k - 1, i);
        let x = choose|x: int| 0 <= x < before.len() && before[x] == finding_part(list[i])[0];
        let y = choose|y: int| 0 <= y < before.len() && before[y] == finding_part(list[i])[1];
        assert(all[x] == before[x]);
        assert(all[y] == before[y]);
    } else if before.len() == 0 {
        assert(all[1] == part[0]);
        assert(all[2] == part[1]);
    } else {
        assert(all[before.len() as int] == part[0]);
        assert(all[before.len() as int + 1] == part[1]);
    }
}

/// The report tells every finding with its command: none is left out.
pub proof fn law_report_tells_every_finding(list: Seq<FindingView>, notes: Seq<Seq<char>>, i: int)
    requires
        0 <= i < list.len(),
    ensures
        findings_part(list, notes).contains(finding_part(list[i])[0]),
        findings_part(list, notes).contains(finding_part(list[i])[1]),
{
    let n = list.len() as int;
    let part = finding_part(list[i]);
    lemma_tier_part(list, list[i].risk, n, i);
    let a = overview(list);
    let s = tier_part(list, Risk::Safe, n);
    let m = tier_part(list, Risk::Moderate, n);
    let c = tier_part(list, Risk::Caution, n);
    let tier = tier_part(list, list[i].risk, n);
    let all = findings_part(list, notes);
    let x = choose|x: int| 0 <= x < tier.len() && tier[x] == part[0];
    let y = choose|y: int| 0 <= y < tier.len() && tier[y] == part[1];
    let base = match list[i].risk {
        Risk::Safe => a.len() as int,
        Risk::Moderate => a.len() + s.len() as int,
        Risk::Caution => a.len() + s.len() + m.len() as int,
    };
    assert(all[base + x] == part[0]);
    assert(all[base + y] == part[1]);
}

/// A finding is told with its size, its title and the command that carries it
/// out, which is cut only from 300 bytes on.
pub proof fn law_findings_are_told_with_their_command(f: FindingView)
    requires
        encode_utf8(command_of(f.action, f.needs_root)).len() <= 300,
    ensures
        finding_part(f).len() == 2,
        finding_part(f)[0] == "  "@ + right_in(size_text(f.bytes), 11) + "  "@ + in_bold(f.title),
        finding_part(f)[1] == "               \x1b[33m$ "@ + command_of(f.action, f.needs_root) + "\x1b[0m"@,
{
}

/// The overview tells what each tier and all of them together would free, and the
/// report ends by saying that nothing was deleted.
pub proof fn law_the_overview_tells_the_tiers(list: Seq<FindingView>, notes: Seq<Seq<char>>, k: int)
    ensures
        overview(list).len() == 5,
        overview(list)[1] == "  "@ + "\x1b[1;32m"@ + left_in(risk_label(Risk::Safe), 9) + "\x1b[0m "@ + right_in(
            size_text(sum_tier(list, Risk::Safe) as u64),
            11,
        ),
        overview(list)[2] == "  "@ + "\x1b[1;33m"@ + left_in(risk_label(Risk::Moderate), 9) + "\x1b[0m "@ + right_in(
            size_text(sum_tier(list, Risk::Moderate) as u64),
            11,
        ),
        overview(list)[3] == "  "@ + "\x1b[1;31m"@ + left_in(risk_label(Risk::Caution), 9) + "\x1b[0m "@ + right_in(
            size_text(sum_tier(list, Risk::Caution) as u64),
            11,
        ),
        overview(list)[4] == "  "@ + left_in("TOTAL"@, 9) + " "@ + right_in(in_bold(size_text(sum_bytes(list) as u64)), 11),
        0 <= k < notes.len() ==> findings_part(list, notes).contains("\n\x1b[2mnote: "@ + notes[k] + "\x1b[0m"@),
        findings_part(list, notes).last()
            == "\nNothing was deleted. Run the commands above yourself, or start the interactive mode (without --summary) to select and clean items."@,
{
    let n = list.len() as int;
    let a = overview(list) + tier_part(list, Risk::Safe, n) + tier_part(list, Risk::Moderate, n) + tier_part(list, Risk::Caution, n);
    let b = Seq::new(notes.len(), |i: int| "\n\x1b[2mnote: "@ + notes[i] + "\x1b[0m"@);
    if 0 <= k < notes.len() {
        assert(findings_part(list, notes)[a.len() + k] == b[k]);
    }
}

/// A column is filled up with blanks on the side it is aligned away from.
pub proof fn law_columns_are_filled_with_blanks(s: Seq<char>, w: int)
    requires
        s.len() <= w,
    ensures
        right_in(s, w).len() == w,
        left_in(s, w).len() == w,
        s.is_suffix_of(right_in(s, w)),
        s.is_prefix_of(left_in(s, w)),
{
    let (r, l) = (right_in(s, w), left_in(s, w));
    assert(r.subrange(r.len() - s.len(), r.len() as int) =~= s);
    assert(l.subrange(0, s.len() as int) =~= s);
}

/// The report begins with what was scanned: its size, its files and folders, and
/// how many could not be read, if any.
pub proof fn law_the_report_tells_what_was_scanned(root: Seq<u8>, size: u64, files: u64, dirs: u64, errors: u64, secs: Seq<char>)
    ensures
        errors == 0 ==> scan_line(root, size, files, dirs, errors, secs) == "Scanned "@ + crate::path::lossy_text(root) + ": "@ + in_bold(
            size_text(size),
        ) + " in "@ + count_text(files) + " files, "@ + count_text(dirs) + " dirs ("@ + secs + ""@ + ")"@,
        errors > 0 ==> scan_line(root, size, files, dirs, errors, secs) == "Scanned "@ + crate::path::lossy_text(root) + ": "@ + in_bold(
            size_text(size),
        ) + " in "@ + count_text(files) + " files, "@ + count_text(dirs) + " dirs ("@ + secs + (", "@ + count_text(errors)
            + " unreadable"@) + ")"@,
{
}

} // verus!
