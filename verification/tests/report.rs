use linux_disk_prune::path::FsPath;
use linux_disk_prune::rules::{sudo_rm_files, Action, CheckOutput, Finding, Report, Risk};

const MIB: u64 = 1 << 20;

fn f(id: &str, risk: Risk, bytes: u64) -> Finding {
    Finding {
        id: id.into(),
        category: "c".into(),
        title: id.into(),
        risk,
        bytes,
        detail: String::new(),
        paths: Vec::new(),
        action: Action::Manual,
        needs_root: false,
    }
}

fn p(s: &str) -> FsPath {
    FsPath::new(s)
}

fn ids(r: &Report) -> Vec<&str> {
    r.findings.iter().map(|f| f.id.as_str()).collect()
}

#[test]
fn merge_dedupes_ids_first_wins() {
    let mut r = Report::default();
    r.merge(CheckOutput { findings: vec![f("a", Risk::Safe, 5 * MIB), f("a", Risk::Caution, 9 * MIB)], notes: vec![] });
    r.merge(CheckOutput::one(f("a", Risk::Moderate, 7 * MIB)));
    assert_eq!(r.findings.len(), 1);
    assert_eq!((r.findings[0].risk, r.findings[0].bytes), (Risk::Safe, 5 * MIB));
}

#[test]
fn merge_drops_findings_below_one_mib() {
    let mut r = Report::default();
    r.merge(CheckOutput {
        findings: vec![f("tiny", Risk::Safe, MIB - 1), f("exact", Risk::Safe, MIB), f("zero", Risk::Safe, 0)],
        notes: vec![],
    });
    assert_eq!(ids(&r), ["exact"]);
    // A dropped finding does not reserve its id.
    r.merge(CheckOutput::one(f("tiny", Risk::Safe, 2 * MIB)));
    assert!(r.findings.iter().any(|f| f.id == "tiny"));
}

#[test]
fn merge_sorts_by_risk_then_size_desc() {
    let mut r = Report::default();
    r.merge(CheckOutput {
        findings: vec![f("c1", Risk::Caution, 100 * MIB), f("s1", Risk::Safe, 2 * MIB), f("m1", Risk::Moderate, 3 * MIB)],
        notes: vec![],
    });
    r.merge(CheckOutput { findings: vec![f("s2", Risk::Safe, 50 * MIB), f("m2", Risk::Moderate, 30 * MIB)], notes: vec![] });
    assert_eq!(ids(&r), ["s2", "s1", "m2", "m1", "c1"]);
}

#[test]
fn totals_per_tier() {
    let mut r = Report::default();
    r.merge(CheckOutput {
        findings: vec![
            f("s1", Risk::Safe, 2 * MIB),
            f("s2", Risk::Safe, 3 * MIB),
            f("m1", Risk::Moderate, 7 * MIB),
            f("c1", Risk::Caution, 11 * MIB),
            f("dropped", Risk::Caution, 10),
            f("s1", Risk::Safe, 1000 * MIB),
        ],
        notes: vec!["n".into(), "n".into()],
    });
    assert_eq!(r.total(Risk::Safe), 5 * MIB);
    assert_eq!(r.total(Risk::Moderate), 7 * MIB);
    assert_eq!(r.total(Risk::Caution), 11 * MIB);
    assert_eq!(r.grand_total(), 23 * MIB);
    assert_eq!(Risk::ALL.iter().map(|&k| r.total(k)).sum::<u64>(), r.grand_total());
    assert_eq!(r.notes, ["n"]);
}

#[test]
fn merging_the_same_check_again_changes_nothing() {
    let check = || CheckOutput { findings: vec![f("a", Risk::Safe, 5 * MIB), f("b", Risk::Caution, 9 * MIB)], notes: vec!["n".into()] };
    let mut r = Report::default();
    r.merge(check());
    r.merge(check());
    assert_eq!(ids(&r), ["a", "b"]);
    assert_eq!(r.notes, ["n"]);
}

#[test]
fn outputs_of_checks_are_joined() {
    let mut a = CheckOutput::note("first".to_string());
    a.extend(CheckOutput::one(f("x", Risk::Safe, MIB)));
    a.extend(CheckOutput::note("second".to_string()));
    assert_eq!(a.findings.len(), 1);
    assert_eq!(a.notes, ["first", "second"]);
    assert_eq!(Risk::Moderate.label(), "MODERATE");
}

// ------------------------------------------------------------ command safety

const HOSTILE: [&str; 16] = [
    "a b",
    "it's",
    "q\"uote",
    "$(touch PWNED1)",
    "`touch PWNED2`",
    "new\nline",
    "-rf",
    "semi;touch PWNED3",
    "and&&touch PWNED4",
    "star*",
    "~tilde",
    "glob[1]",
    "back\\slash",
    "tab\there",
    "dollar$HOME",
    "ünïcödé 日本",
];

fn remove_finding(paths: &[FsPath], keep_dir: bool, needs_root: bool) -> Finding {
    Finding {
        action: Action::Remove { paths: paths.to_vec(), keep_dir },
        paths: paths.to_vec(),
        needs_root,
        ..f("rm", Risk::Safe, MIB)
    }
}

fn hostile() -> Vec<FsPath> {
    HOSTILE.iter().map(|n| p("/t").join_str(n)).collect()
}

/// The words that `sh` makes of a command made of plain and quoted words.
fn argv(cmd: &str) -> Vec<String> {
    let mut out = Vec::new();
    let mut cur: Option<String> = None;
    let mut quoted = false;
    let mut it = cmd.chars();
    while let Some(c) = it.next() {
        if quoted {
            if c == '\'' {
                quoted = false;
            } else {
                cur.get_or_insert_with(String::new).push(c);
            }
        } else if c == '\'' {
            quoted = true;
            cur.get_or_insert_with(String::new);
        } else if c == '\\' {
            let next = it.next().expect("escaped character");
            cur.get_or_insert_with(String::new).push(next);
        } else if c == ' ' {
            out.extend(cur.take());
        } else {
            let plain = c.is_ascii_alphanumeric() || "/._-+:=@%,&".contains(c);
            assert!(plain, "unquoted {c:?} in {cmd}");
            cur.get_or_insert_with(String::new).push(c);
        }
    }
    assert!(!quoted, "open quote in {cmd}");
    out.extend(cur.take());
    out
}

fn texts(paths: &[FsPath]) -> Vec<String> {
    paths.iter().map(|p| p.display()).collect()
}

#[test]
fn rm_command_quotes_hostile_paths() {
    for needs_root in [false, true] {
        let cmd = remove_finding(&hostile(), false, needs_root).command_text();
        assert_eq!(cmd.starts_with("sudo "), needs_root);
        let words = argv(cmd.strip_prefix("sudo ").unwrap_or(&cmd));
        assert_eq!(words[..4], ["rm", "-rf", "--one-file-system", "--"]);
        assert_eq!(words[4..], texts(&hostile()));
    }
}

#[test]
fn keep_dir_command_empties_hostile_dirs_but_keeps_them() {
    let dirs = hostile();
    let words = argv(&remove_finding(&dirs, true, true).command_text());
    let mut want = Vec::new();
    for (i, d) in texts(&dirs).into_iter().enumerate() {
        if i > 0 {
            want.push("&&".to_string());
        }
        want.extend(["sudo".to_string(), "find".to_string(), d]);
        want.extend(["-xdev", "-mindepth", "1", "-delete"].map(String::from));
    }
    assert_eq!(words, want);
}

#[test]
fn sudo_rm_files_quotes_hostile_paths() {
    let cmd = sudo_rm_files(&hostile());
    assert!(cmd.starts_with("sudo rm -f -- "));
    assert_eq!(argv(&cmd)[4..], texts(&hostile()));
}

#[test]
fn generated_commands_pass_exact_argv() {
    let paths: Vec<FsPath> = HOSTILE.iter().map(|n| p("/d").join_str(n)).collect();
    let got = argv(&sudo_rm_files(&paths));
    assert_eq!(got[4..], texts(&paths));
}

#[test]
fn manual_findings_are_not_actionable() {
    let m = f("m", Risk::Safe, MIB);
    assert!(!m.is_actionable());
    assert!(m.command_text().starts_with('('));
    let s = Finding { action: Action::Shell { command: "true".into() }, ..f("s", Risk::Safe, MIB) };
    assert!(s.is_actionable());
    assert_eq!(s.command_text(), "true");
}

#[test]
fn no_command_is_built_from_a_lossy_name() {
    let bad = FsPath::from_bytes(b"/t/caf\xe9".to_vec());
    let user = remove_finding(&[bad.clone()], false, false);
    assert!(user.is_actionable(), "removed in-process");
    assert!(user.command_text().starts_with("(a path is not valid UTF-8"));
    assert!(!remove_finding(&[p("/t/ok"), bad], false, true).is_actionable());
}
