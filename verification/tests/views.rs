use linux_disk_prune::about::{terminal_credits, terminal_keys, window_credits, window_keys};
use linux_disk_prune::classify::{by_dir_name, by_extension, classify, Kind};
use linux_disk_prune::cleanup::RemoveMode;
use linux_disk_prune::job::Summary;
use linux_disk_prune::links::build_tree;
use linux_disk_prune::marks::{checked_findings, keep_listed, marked_bytes, marked_paths, marked_state, toggle_mark, MarkOutcome};
use linux_disk_prune::panels::{
    detail_lines, disk_after, disk_lines, mark_row, pad_left, pad_right, prune_label, prune_rows, review_lines, saving_line, scroll_prune, scroll_to, selection_lines,
    tier_count, top_savings, total_to_free, tree_text, truncate, truncate_left, Pieces, PruneRow, Tone,
};
use linux_disk_prune::path::FsPath;
use linux_disk_prune::report::{findings_lines, tree_lines, DirShare};
use linux_disk_prune::rows::{reveal_node, visible_rows};
use linux_disk_prune::rules::{Action, CheckOutput, Finding, Report, Risk};
use linux_disk_prune::scan::{finish_dir, scan_dir_raw, unread_dir, Entry, EntryKind, Link, Tmp};
use linux_disk_prune::scanner::{ScanOptions, Tree, CARGO_TOML};
use linux_disk_prune::screen::{Btn, Effect, Hit, Key, Modal, Screen, Side, Tab};
use linux_disk_prune::summary::{journal_target, shown_command};
use linux_disk_prune::usage::{auto_threads, block_device_dir, disk_of, fewer_threads, is_rotational};
use linux_disk_prune::window::{args_to_keep, crumbs, display_available, Hit as Ring, Keys, Page, Window};

const MIB: u64 = 1 << 20;
const BLOCK: u64 = 4096;

/// A directory tree as a scan sees it.
#[derive(Clone)]
struct Fs {
    name: Vec<u8>,
    kind: EntryKind,
    size: u64,
    dev: u64,
    ino: u64,
    nlink: u64,
    readable: bool,
    kids: Vec<Fs>,
}

/// Allocated bytes of a file of that length.
fn allocated(len: u64) -> u64 {
    len.div_ceil(BLOCK) * BLOCK
}

impl Fs {
    fn dir(name: &[u8]) -> Fs {
        Fs { name: name.to_vec(), kind: EntryKind::Dir, size: BLOCK, dev: 1, ino: 0, nlink: 2, readable: true, kids: Vec::new() }
    }

    fn at(&mut self, path: &[&[u8]]) -> &mut Fs {
        let mut cur = self;
        for part in path {
            let i = match cur.kids.iter().position(|k| k.name == *part) {
                Some(i) => i,
                None => {
                    cur.kids.push(Fs::dir(part));
                    cur.kids.len() - 1
                }
            };
            cur = &mut cur.kids[i];
        }
        cur
    }

    fn mkdir(&mut self, path: &str) -> &mut Fs {
        let parts: Vec<&[u8]> = path.split('/').map(str::as_bytes).collect();
        self.at(&parts)
    }

    fn leaf(&mut self, path: &str, kind: EntryKind, size: u64, ino: u64, nlink: u64) {
        let f = self.mkdir(path);
        (f.kind, f.size, f.ino, f.nlink) = (kind, size, ino, nlink);
    }

    fn file(&mut self, path: &str, len: u64) -> u64 {
        self.leaf(path, EntryKind::Other, allocated(len), 0, 1);
        allocated(len)
    }
}

struct Walk<'a> {
    opts: &'a ScanOptions,
    root_dev: u64,
    links: Vec<Link>,
    dirs: u64,
    errors: u64,
}

fn walk(fs: &Fs, path: &FsPath, name: String, raw: Option<Vec<u8>>, own: u64, w: &mut Walk) -> Tmp {
    w.dirs += 1;
    if !fs.readable {
        w.errors += 1;
        return unread_dir(name, raw, own, true);
    }
    let list: Vec<Option<Entry>> = fs
        .kids
        .iter()
        .map(|k| Some(Entry { name: k.name.clone(), kind: k.kind, size: k.size, dev: k.dev, ino: k.ino, nlink: k.nlink }))
        .collect();
    let part = scan_dir_raw(path, name, raw, own, &list, w.opts, w.root_dev);
    w.links.extend(part.links);
    w.errors += part.errors;
    let mut subs = Vec::new();
    for s in part.subdirs {
        let exact = s.path.file_name().unwrap();
        let kid = fs.kids.iter().find(|k| k.name == exact).unwrap();
        subs.push(walk(kid, &s.path, s.name, s.raw, s.own, w));
    }
    finish_dir(part.node, subs)
}

const ROOT: &str = "/srv/d";

fn scan(fs: &Fs, opts: &ScanOptions) -> Tree {
    let root = FsPath::new(ROOT);
    let mut w = Walk { opts, root_dev: fs.dev, links: Vec::new(), dirs: 0, errors: 0 };
    let tmp = walk(fs, &root, ROOT.to_string(), None, fs.size, &mut w);
    build_tree(root, &tmp, &w.links, w.dirs, w.errors)
}

fn d(rel: &str) -> FsPath {
    FsPath::new(ROOT).join_str(rel)
}

/// `a` (with `a/x` and `a/y`), `b` and a file.
fn tree() -> Tree {
    let mut fs = Fs::dir(b"d");
    for (f, mb) in [("a/x/1.bin", 8), ("a/y/2.bin", 4), ("b/3.bin", 2), ("file.iso", 1)] {
        fs.file(f, mb * MIB);
    }
    scan(&fs, &ScanOptions { min_file_size: 0, ..ScanOptions::default() })
}

fn node(t: &Tree, rel: &str) -> usize {
    t.find(&d(rel)).unwrap()
}

fn home() -> FsPath {
    FsPath::new("/home/u")
}

fn finding(id: &str, risk: Risk, bytes: u64, rel: &str) -> Finding {
    let paths = || vec![d(rel)];
    Finding {
        id: id.into(),
        category: "Cat".into(),
        title: format!("Title {id}"),
        risk,
        bytes,
        detail: "What it is.".into(),
        paths: paths(),
        action: Action::Remove { paths: paths(), keep_dir: false },
        needs_root: false,
    }
}

fn manual_step(id: &str) -> Finding {
    Finding { action: Action::Manual, ..finding(id, Risk::Caution, 3 * MIB, "b") }
}

fn arrived() -> CheckOutput {
    CheckOutput {
        findings: vec![
            finding("safe", Risk::Safe, 2 * MIB, "a/x"),
            finding("mod", Risk::Moderate, 4 * MIB, "a/y"),
            manual_step("man"),
        ],
        notes: vec!["a note".into()],
    }
}

fn text(p: &Pieces) -> String {
    p.iter().map(|x| x.1.as_str()).collect()
}

fn all_text(lines: &[Pieces]) -> String {
    lines.iter().map(|l| text(l) + "\n").collect()
}

fn screen(t: &Tree) -> Screen {
    let mut s = Screen::new(home(), false, true);
    s.tree_ready(t);
    s.nav.findings_arrived(arrived());
    s
}

#[test]
fn rows_follow_what_is_expanded() {
    let t = tree();
    let mut open = vec![false; t.nodes.len()];
    assert_eq!(visible_rows(&t, &open), vec![(0, 0)]);
    reveal_node(&t, &mut open, node(&t, "a/x/1.bin"));
    let rows = visible_rows(&t, &open);
    assert!(rows.contains(&(node(&t, "a/x/1.bin"), 3)));
    assert!(rows.contains(&(node(&t, "a/y"), 2)) && !rows.iter().any(|r| r.0 == node(&t, "a/y/2.bin")));
    assert_eq!(rows[0], (0, 0));
}

#[test]
fn marks_are_never_nested_and_respect_the_guards() {
    let t = tree();
    let mut m = Vec::new();
    let (a, x) = (node(&t, "a"), node(&t, "a/x"));
    assert!(matches!(toggle_mark(&t, &mut m, x, &home(), false), MarkOutcome::Marked));
    assert!(matches!(toggle_mark(&t, &mut m, a, &home(), false), MarkOutcome::Marked));
    assert_eq!(m, [a], "the mark of a folder takes those inside it over");
    assert!(marked_state(&t, &m, x));
    assert!(matches!(toggle_mark(&t, &mut m, x, &home(), false), MarkOutcome::Inside));
    assert_eq!(marked_bytes(&t, &m), t.nodes[a].size);
    assert!(marked_paths(&t, &m)[0].0.same(&d("a")));
    assert!(matches!(toggle_mark(&t, &mut m, a, &home(), false), MarkOutcome::Unmarked));
    assert!(m.is_empty());
    assert!(matches!(toggle_mark(&t, &mut m, 0, &home(), false), MarkOutcome::Refused(_)));
    assert!(m.is_empty());
}

#[test]
fn ticks_stay_with_findings_that_are_still_there() {
    let list = vec!["safe".to_string(), "gone".to_string()];
    let found = arrived().findings;
    assert_eq!(keep_listed(&list, &found), ["safe"]);
    let ticked = checked_findings(&found, &list);
    assert_eq!(ticked.len(), 1);
    assert_eq!(ticked[0].id, "safe");
}

#[test]
fn nothing_runs_before_the_review_is_confirmed() {
    let t = tree();
    let mut s = screen(&t);
    s.on_key(Some(&t), Key::Char('3'), false);
    assert_eq!(s.tab, Tab::Prune);
    s.on_key(Some(&t), Key::Char('a'), false);
    assert_eq!(s.nav.checked, ["safe"]);
    s.on_key(Some(&t), Key::Char('c'), false);
    assert_eq!(s.modal, Modal::Review);
    assert!(s.request.is_none());
    s.on_key(Some(&t), Key::Esc, false);
    assert_eq!(s.modal, Modal::Closed);
    assert!(s.request.is_none());
    assert_eq!(s.nav.checked, ["safe"], "what the user ticked stays ticked");
    s.on_click(Some(&t), Some(Hit::Button(Btn::Review)));
    s.on_key(Some(&t), Key::Char('y'), false);
    let r = s.request.take().unwrap();
    assert_eq!(r.findings.iter().map(|f| f.id.as_str()).collect::<Vec<_>>(), ["safe"]);
    assert!(r.marks.is_empty() && r.mode == RemoveMode::Trash);
}

#[test]
fn a_click_runs_only_on_a_run_button() {
    let t = tree();
    let mut s = screen(&t);
    s.nav.select_tier(Some(Risk::Safe));
    s.on_click(Some(&t), Some(Hit::Button(Btn::Review)));
    s.on_click(Some(&t), Some(Hit::Node(0)));
    s.on_scroll(Some(&t), None, true);
    assert!(s.request.is_none() && s.modal == Modal::Review);
    s.on_click(Some(&t), Some(Hit::Button(Btn::RunPermanent)));
    let r = s.request.take().unwrap();
    assert_eq!(r.findings.len(), 1);
    assert!(r.mode == RemoveMode::Permanent);
}

#[test]
fn a_cancelled_review_of_the_row_under_the_cursor_leaves_no_tick() {
    let t = tree();
    let mut s = screen(&t);
    s.set_tab(Some(&t), Tab::Prune);
    s.on_key(Some(&t), Key::Enter, false);
    assert_eq!((s.modal, s.nav.checked.len()), (Modal::Review, 1));
    s.on_key(Some(&t), Key::Char('n'), false);
    assert!(s.nav.checked.is_empty() && s.modal == Modal::Closed);
    // The last one is a manual step: there is nothing to run.
    s.on_key(Some(&t), Key::End, false);
    s.on_key(Some(&t), Key::Char(' '), false);
    assert!(s.nav.checked.is_empty());
    assert!(s.status.as_ref().unwrap().starts_with("Manual step only"));
    s.on_key(Some(&t), Key::Enter, false);
    assert_eq!(s.modal, Modal::Closed);
}

#[test]
fn execution_can_be_disabled() {
    let t = tree();
    let mut s = Screen::new(home(), true, false);
    s.tree_ready(&t);
    s.nav.findings_arrived(arrived());
    s.nav.select_tier(None);
    assert_eq!(s.nav.checked.len(), 2);
    s.open_review();
    s.on_key(Some(&t), Key::Enter, false);
    assert!(s.request.is_none());
    assert_eq!(s.status.as_deref(), Some("Execution is disabled (--no-exec)"));
}

#[test]
fn keys_move_in_the_map_and_the_tree() {
    let t = tree();
    let mut s = screen(&t);
    assert!(matches!(s.on_key(Some(&t), Key::Left, false), Effect::Move(Side::Left)));
    s.nav.select(&t, node(&t, "a"));
    s.on_key(Some(&t), Key::Enter, false);
    assert_eq!(s.nav.focus, node(&t, "a"));
    s.on_key(Some(&t), Key::Backspace, false);
    assert_eq!(s.nav.focus, 0);
    s.on_key(Some(&t), Key::Char('2'), false);
    s.on_key(Some(&t), Key::Char('g'), false);
    assert_eq!(s.nav.sel, 0);
    s.on_key(Some(&t), Key::Down, false);
    assert_ne!(s.nav.sel, 0);
    assert!(matches!(s.on_key(Some(&t), Key::Char('R'), false), Effect::Rescan));
    assert!(s.nav.report.findings.is_empty() && s.nav.marked.is_empty());
    s.on_key(None, Key::Char('c'), true);
    assert!(s.quit);
}

#[test]
fn after_a_cleanup_marked_items_make_a_rescan() {
    let t = tree();
    let mut s = screen(&t);
    s.nav.select_tier(None);
    let done = arrived().findings;
    assert!(matches!(s.after_cleanup(Some(&t), &done, 0), Effect::Reanalyze));
    assert!(s.nav.checked.is_empty());
    assert!(matches!(s.after_cleanup(Some(&t), &vec![], 2), Effect::Rescan));
}

fn no_keys() -> Keys {
    Keys {
        one: false,
        two: false,
        three: false,
        four: false,
        five: false,
        c: false,
        f5: false,
        enter: false,
        back: false,
        space: false,
        x: false,
        fewer: false,
        more: false,
        left: false,
        right: false,
        up: false,
        down: false,
        page_up: false,
        page_down: false,
    }
}

fn window(t: &Tree) -> Window {
    let mut w = Window::new(home(), false, true);
    w.tree_ready(t);
    w.nav.findings_arrived(arrived());
    w
}

#[test]
fn notes_arrive_once_and_go_with_a_new_analysis() {
    let t = tree();
    let mut w = window(&t);
    w.nav.findings_arrived(CheckOutput { findings: vec![], notes: vec!["a note".into(), "another".into()] });
    assert_eq!(w.nav.report.notes, ["a note", "another"]);
    w.select(&t, 0);
    assert_eq!(w.nav.report.notes.len(), 2);
    w.reanalyze();
    assert!(w.nav.report.notes.is_empty() && w.nav.report.findings.is_empty());
    w.nav.findings_arrived(arrived());
    w.restart();
    assert!(w.nav.report.notes.is_empty());
    let mut s = screen(&t);
    assert_eq!(s.nav.report.notes, ["a note"]);
    s.reanalyze(Some(&t));
    assert!(s.nav.report.notes.is_empty());
    s.nav.findings_arrived(arrived());
    s.restart();
    assert!(s.nav.report.notes.is_empty());
}

#[test]
fn rows_marks_and_ticks_change_one_at_a_time() {
    let t = tree();
    let mut w = window(&t);
    let (sel, open) = (w.nav.sel, w.nav.expanded.clone());
    w.nav.fold(1);
    assert_eq!(w.nav.expanded[1], !open[1]);
    w.nav.fold(1);
    assert_eq!(w.nav.expanded, open);
    w.nav.pick(0);
    assert_eq!(w.nav.sel, 0);
    w.nav.pick(sel);
    w.nav.marked = vec![1, 3];
    w.nav.unmark(2);
    assert_eq!(w.nav.marked, [1, 3]);
    w.nav.unmark(1);
    assert_eq!(w.nav.marked, [3]);
    w.nav.point(1);
    assert_eq!(w.nav.prune_cursor, 1);
    w.nav.select_tier(None);
    assert!(!w.nav.checked.is_empty());
    w.nav.untick_all();
    assert!(w.nav.checked.is_empty());
}

#[test]
fn window_keys_switch_pages_unless_text_is_typed_or_a_dialog_is_open() {
    let t = tree();
    let mut w = window(&t);
    w.keyboard(Some(&t), &Keys { five: true, ..no_keys() }, true, 0);
    assert!(w.page == Page::Treemap);
    w.keyboard(Some(&t), &Keys { five: true, ..no_keys() }, false, 0);
    assert!(w.page == Page::Large);
    assert!(w.keyboard(Some(&t), &Keys { f5: true, ..no_keys() }, false, 0));
    w.about_open = true;
    w.keyboard(Some(&t), &Keys { one: true, ..no_keys() }, false, 0);
    assert!(w.page == Page::Large);
}

#[test]
fn window_runs_what_was_reviewed() {
    let t = tree();
    let mut w = window(&t);
    w.open_review();
    assert!(!w.review_open, "nothing is ticked or marked");
    w.toggle_finding(0);
    w.toggle_mark(&t, node(&t, "b"));
    w.open_review();
    assert!(w.review_open);
    let r = w.start_job(Some(&t)).unwrap();
    assert_eq!((r.findings.len(), r.marks.len()), (1, 1));
    assert!(w.job_open && !w.review_open);
    w.finish_job(Some(&Summary { ok: 1, failed: 0, removed_marks: 1 }), Some(0), Some(MIB));
    assert!(!w.job_open && w.toast.as_ref().unwrap().contains("1.0 MiB"));
    let mut off = Window::new(home(), true, true);
    off.tree_ready(&t);
    assert!(off.start_job(Some(&t)).is_none());
}

#[test]
fn the_pointer_moves_the_maps() {
    let t = tree();
    let (a, x) = (node(&t, "a"), node(&t, "a/x"));
    let mut w = window(&t);
    w.wheel_in(&t, x);
    assert_eq!(w.nav.focus, a, "the wheel goes into the folder on the way to the tile");
    w.sunburst_click(&t, Some(Ring::Seg(x)));
    assert_eq!((w.nav.focus, w.nav.sel), (a, x));
    w.sunburst_click(&t, Some(Ring::Hub));
    assert_eq!((w.nav.focus, w.nav.sel), (0, a));
    w.page = Page::Tree;
    w.crumb(&t, a);
    assert!(w.page == Page::Treemap && w.nav.focus == a && w.nav.sel == a);
    w.zoom_out(&t);
    w.zoom_in(&t, node(&t, "file.iso"));
    assert_eq!(w.nav.focus, 0, "a file cannot be entered");
    w.toggle_finding(0);
    w.leave_out(&"safe".to_string());
    assert!(w.nav.checked.is_empty());
    let mut s = screen(&t);
    s.on_scroll(Some(&t), Some(Hit::Node(x)), true);
    assert_eq!(s.nav.focus, a);
    s.on_scroll(Some(&t), None, false);
    assert_eq!(s.nav.focus, 0);
}

#[test]
fn crumbs_lead_from_the_root() {
    let t = tree();
    let x = node(&t, "a/x");
    assert_eq!(crumbs(&t, x), [0, node(&t, "a"), x]);
    let args: Vec<String> = ["prog", "--renderer", "vulkan", "-x", "--renderer=gl", "/p"].iter().map(|s| s.to_string()).collect();
    let kept: Vec<&str> = args_to_keep(&args).iter().map(|i| args[*i].as_str()).collect();
    assert!(!kept.contains(&"vulkan") && !kept.contains(&"--renderer=gl") && kept.contains(&"/p"));
    assert!(display_available(true, false) && display_available(false, true) && !display_available(false, false));
}

#[test]
fn texts_are_cut_and_padded_to_their_column() {
    assert_eq!(truncate("abcdef", 4), "abc…");
    assert_eq!(truncate("abcd", 4), "abcd");
    assert_eq!(truncate_left("abcdef", 4), "…def");
    assert_eq!(pad_left("7", 3), "  7");
    assert_eq!(pad_right("7", 3), "7  ");
    assert_eq!(pad_left("long", 2), "long");
    assert_eq!(shown_command("short", 300, "…"), "short");
}

#[test]
fn scrolling_keeps_the_row_in_sight() {
    assert_eq!(scroll_to(0, 5, 3, 10), 3);
    assert_eq!(scroll_to(8, 2, 3, 10), 2);
    assert_eq!(scroll_to(9, 9, 5, 10), 5);
    for pos in 0..12 {
        let o = scroll_prune(4, pos, 5);
        assert!(o <= pos && pos < o + 5);
    }
}

#[test]
fn savings_and_totals() {
    let found = arrived().findings;
    assert_eq!(top_savings(&found)[0], 1);
    assert_eq!(tier_count(&found, Risk::Caution), 1);
    assert_eq!(disk_after(10, 5, 5, 18), 18);
    assert_eq!(disk_after(10, 1, 2, 18), 13);
    let marks = vec![(d("b"), 2 * MIB)];
    assert_eq!(total_to_free(&found, &marks), 11 * MIB);
    assert!(prune_label("Prune", 3, 2 * MIB).contains("2.0 MiB"));
    assert!(!prune_label("Prune", 0, 0).contains("MiB"));
}

#[test]
fn prune_rows_group_findings_by_tier() {
    let mut r = Report::default();
    r.merge(arrived());
    let rows = prune_rows(&r, 0, "*");
    assert!(matches!(rows[0], PruneRow::Header(Risk::Safe)) && matches!(rows[1], PruneRow::Item(0)));
    assert_eq!(rows.iter().filter(|x| matches!(x, PruneRow::Item(_))).count(), 3);
    assert!(rows.iter().any(|x| matches!(x, PruneRow::Note(n) if n.contains("a note"))));
    let busy = prune_rows(&Report::default(), 2, "*");
    assert!(busy.iter().any(|x| matches!(x, PruneRow::Note(n) if n.contains('*'))));
}

#[test]
fn panels_say_what_is_selected_and_reviewed() {
    let t = tree();
    let x = node(&t, "a/x");
    let sel = all_text(&selection_lines(&t, x, Kind::Other, "50.0%", true, Some(Risk::Safe), &home(), 60));
    assert!(sel.contains("8.0 MiB") && sel.contains("50.0%"));
    let f = &arrived().findings[0];
    assert!(all_text(&detail_lines(f, &home())).contains("What it is."));
    assert!(text(&mark_row(&d("b"), 2 * MIB, &home(), 60)).contains("2.0 MiB"));
    let review = review_lines(&arrived().findings, &vec![(d("b"), 2 * MIB)], &home(), false, true, false, 80);
    let all = all_text(&review);
    assert!(all.contains("Title safe") && all.contains("/srv/d/b") && all.contains("11.0 MiB"));
    assert!(review.iter().flatten().any(|p| matches!(p.0, Tone::Tier(Risk::Safe) | Tone::Badge(Risk::Safe))));
    assert!(tree_text(&t, "0.1").contains("15"));
    assert_eq!(text(&saving_line(f, true, 10)), "✔   2.0 MiB Title safe");
    assert_eq!(all_text(&disk_lines(MIB, 3 * MIB, 2 * MIB)), "free now   1.0 MiB\nafter      3.0 MiB  +2.0 MiB\n");
}

#[test]
fn the_printed_report_tells_sizes_and_findings() {
    let t = tree();
    let a = node(&t, "a");
    let lines = tree_lines(&t, "0.1", &vec![DirShare { node: a, percent: " 80.0%".into(), bar: "####".into() }], &home());
    let all = lines.join("\n");
    assert!(all.contains("####") && all.contains(" 80.0%") && all.contains("/srv/d/a"));
    let mut r = Report::default();
    r.merge(arrived());
    let lines = findings_lines(&r);
    assert_eq!(
        lines.last().unwrap(),
        "\nNothing was deleted. Run the commands above yourself, or start the interactive mode (without --summary) to select and clean items."
    );
    let all = lines.join("\n");
    assert!(all.contains("Title safe") && all.contains("Title mod") && all.contains("Title man") && all.contains("a note"));
}

#[test]
fn kinds_come_from_names_and_markers() {
    assert_eq!(by_extension("movie.MKV"), Some(Kind::Media));
    assert_eq!(by_extension("noext"), None);
    assert_eq!(by_dir_name("target", 0, CARGO_TOML), Some(Kind::Build));
    assert_eq!(by_dir_name(".git", 0, 0), Some(Kind::Git));
    let mut fs = Fs::dir(b"d");
    fs.file("repo/.git/objects/pack/p.mkv", MIB);
    let t = scan(&fs, &ScanOptions { min_file_size: 0, ..ScanOptions::default() });
    let k = classify(&t);
    assert_eq!(k[node(&t, "repo/.git/objects/pack/p.mkv")], Kind::Git, "what is in a repository is part of it");
    assert_eq!(Kind::Git.label(), "git");
}

#[test]
fn threads_and_disks() {
    assert_eq!(block_device_dir(0x801), "/sys/dev/block/8:1");
    assert!(is_rotational(Some("1\n")) && !is_rotational(Some("0\n")) && !is_rotational(None));
    assert_eq!((auto_threads(8, false), auto_threads(8, true)), (16, 4));
    assert_eq!((auto_threads(1, false), auto_threads(1, true)), (4, 1));
    assert_eq!(auto_threads(64, false), 32);
    assert_eq!((fewer_threads(8), fewer_threads(1)), (Some(4), None));
    let mounts: Vec<FsPath> = ["/", "/home", "/home/u/disk"].iter().map(|m| FsPath::new(m)).collect();
    assert_eq!(disk_of(&mounts, &FsPath::new("/home/u/x")), Some(1));
    assert_eq!(disk_of(&mounts, &FsPath::new("/home/u/disk/y")), Some(2));
    assert_eq!(disk_of(&mounts, &FsPath::new("/homework")), Some(0));
    assert_eq!(disk_of(&vec![], &FsPath::new("/x")), None);
}

#[test]
fn the_journal_is_never_vacuumed_to_nothing() {
    assert_eq!(journal_target(0), MIB);
    assert_eq!(journal_target(100 * MIB), 100 * MIB);
    assert_eq!(journal_target(100 * MIB + 5), 100 * MIB + 5);
}

#[test]
fn about_boxes_name_the_credits_and_every_key() {
    assert!(window_credits().starts_with("The treemap — colour for the kind of data") && window_credits().contains("all follow disktree."));
    assert_eq!(terminal_credits().len(), 3);
    assert!(terminal_credits()[2].ends_with("measuring follow disktree."));
    let window = window_keys();
    assert_eq!(window[0], ("1  2  3  4  5", "Treemap · Sunburst · Tree · Prune · Large items"));
    assert!(window.contains(&("Scroll", "zoom toward the pointer, and back out")) && window.contains(&("F5", "rescan")));
    let terminal = terminal_keys();
    assert_eq!(terminal.len(), 9);
    assert!(terminal.contains(&("a  n", "prune: select all SAFE / clear selection")));
}
