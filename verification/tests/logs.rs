use linux_disk_prune::path::FsPath;
use linux_disk_prune::rules::logs::{
    coredump_findings, crash_findings, is_rotated_log, journal_file, journal_findings, journal_vacuum_bytes,
    rotated_log_findings, utf8_only, JournalFile, LogEntry, LogWalk,
};
use linux_disk_prune::rules::{Action, Finding, Risk};

const MIB: u64 = 1 << 20;

/// Names that try to break out of shell quoting.
const HOSTILE: &[&str] = &[
    "a b",
    "it's",
    "q\"uote",
    "$(touch PWNED1)",
    "`touch PWNED2`",
    "new\nline",
    "-rf",
    "semi;touch PWNED3",
    "and&&touch PWNED4",
    "star*",
    "~tilde",
    "glob[1]",
    "back\\slash",
    "tab\there",
    "dollar$HOME",
    "ünïcödé 日本",
];

fn p(s: &str) -> FsPath {
    FsPath::new(s)
}

fn shell_cmd(f: &Finding) -> &str {
    match &f.action {
        Action::Shell { command } => command,
        other => panic!("expected a shell action, got {other:?}"),
    }
}

/// The words of a command, as a shell reads them.
fn words(cmd: &str) -> Vec<String> {
    let (mut out, mut cur, mut any, mut quoted, mut escaped) = (Vec::new(), String::new(), false, false, false);
    for c in cmd.chars() {
        if quoted {
            if c == '\'' {
                quoted = false;
            } else {
                cur.push(c);
            }
        } else if escaped {
            cur.push(c);
            escaped = false;
        } else {
            match c {
                '\'' => (quoted, any) = (true, true),
                '\\' => (escaped, any) = (true, true),
                ' ' => {
                    if any {
                        out.push(std::mem::take(&mut cur));
                    }
                    any = false;
                }
                c => {
                    assert!(c.is_ascii_alphanumeric() || "/._-+:=@%,".contains(c), "unquoted {c:?} in {cmd}");
                    cur.push(c);
                    any = true;
                }
            }
        }
    }
    if any {
        out.push(cur);
    }
    out
}

/// The one path that a pattern of `find -path` matches: every special
/// character in it is behind a backslash.
fn the_match(pattern: &str) -> String {
    let mut out = String::new();
    let mut it = pattern.chars();
    while let Some(c) = it.next() {
        match c {
            '\\' => out.push(it.next().unwrap()),
            '*' | '?' | '[' => panic!("pattern in {pattern:?}"),
            c => out.push(c),
        }
    }
    out
}

/// The files that a `sudo find … -delete` command deletes.
fn deleted(cmd: &str, root: &str) -> Vec<String> {
    let w = words(cmd);
    assert_eq!(w[..7], ["sudo", "find", root, "-xdev", "-type", "f", "("]);
    assert_eq!(w[w.len() - 2..], [")", "-delete"]);
    let tests = &w[7..w.len() - 2];
    let mut out = Vec::new();
    for (i, t) in tests.chunks(3).enumerate() {
        assert_eq!(t[0], "-path");
        out.push(the_match(&t[1]));
        if i + 1 < tests.len().div_ceil(3) {
            assert_eq!(t[2], "-o");
        }
    }
    out
}

fn entry(name: &[u8], is_dir: bool, is_file: bool, bytes: u64) -> LogEntry {
    LogEntry { name: name.to_vec(), is_dir, is_file, bytes }
}

fn file(name: &str) -> LogEntry {
    entry(name.as_bytes(), false, true, 4096)
}

fn sorted(mut v: Vec<String>) -> Vec<String> {
    v.sort();
    v
}

fn shown(f: &Finding) -> Vec<String> {
    sorted(f.paths.iter().map(|x| x.display()).collect())
}

#[test]
fn rotated() {
    assert!(is_rotated_log("syslog.1"));
    assert!(is_rotated_log("kern.log.2.gz"));
    assert!(!is_rotated_log("syslog"));
    assert!(!is_rotated_log("auth.log"));
}

const LOG_NAMES: &[(&str, bool)] = &[
    ("syslog.1", true),
    ("kern.log.2.gz", true),
    ("dmesg.0", true),
    ("foo.log", false),
    ("x.10", true),
    ("app.1.log", false),
    ("weird..1", true),
    (".hidden.1", true),
    ("file.gz", true),
    ("file.xz", true),
    ("file.bz2", false),
    ("2024-01-01.log", false),
    ("syslog", false),
    ("auth.log", false),
    ("1", false),
    ("trailing.", false),
    (".1", true),
    ("x.1a", false),
    ("x.GZ", false),
    ("apt.log.12.xz", true),
    ("sysstat.07", true),
    ("dpkg.log.1 ", false),
    ("space name.3", true),
    ("uni-ünï.4", true),
    ("mysql-bin.000002", false), // live MySQL binlog
    ("10.0.0.5", false),         // rsyslog per-host file
    ("syslog.1234", false),
    ("vncserver-x11.log.20260914085904", true),
    ("xrdp.log.20260914", true),
    ("app.log.99999999", false),
    ("mysql-bin.20260914", false), // not a .log stem
];

#[test]
fn rotated_log_predicate_table() {
    for (name, want) in LOG_NAMES {
        assert_eq!(is_rotated_log(name), *want, "{name:?}");
    }
}

const LOG: &str = "/srv/r/log";

/// The entries of a folder of the fake /var/log.
fn log_listing(rel: &str) -> Vec<LogEntry> {
    let dir = |n: &str| entry(n.as_bytes(), true, false, 4096);
    let mut v: Vec<LogEntry> = match rel {
        "" => ["apt", "cups", "journal", "installer", "dir.1"].iter().map(|n| dir(n)).collect(),
        "cups" => return vec![dir("deep")],
        "journal" => vec![dir("abc")],
        "installer" => vec![dir("x")],
        "dir.1" => return Vec::new(),
        _ => Vec::new(),
    };
    v.extend(LOG_NAMES.iter().map(|(n, _)| file(n)));
    if rel.is_empty() {
        v.extend(HOSTILE.iter().map(|n| file(&format!("{n}.1"))));
        v.push(entry(b"caf\xe9.log.1", false, true, 4096));
        // Symlinks are neither folders nor regular files.
        v.push(entry(b"link.1", false, false, 0));
        v.push(entry(b"link.gz", false, false, 0));
    }
    if rel == "apt" {
        v.push(file("eipp.log.xz"));
    }
    v
}

fn walk_logs() -> LogWalk {
    let mut walk = LogWalk::begin(&p(LOG));
    while let Some(dir) = walk.next() {
        let rel = dir.strip_prefix(&p(LOG)).unwrap().display();
        walk.step(&log_listing(&rel));
    }
    walk
}

#[test]
fn rotated_log_command_deletes_exactly_the_counted_files() {
    let counted = utf8_only(walk_logs().files);
    for m in &counted {
        let name = String::from_utf8(m.path.file_name().unwrap()).unwrap();
        assert!(is_rotated_log(&name));
        for skip in ["journal", "installer"] {
            assert!(!m.path.starts_with(&p(LOG).join_str(skip)), "{:?}", m.path);
        }
    }
    let per_dir = LOG_NAMES.iter().filter(|n| n.1).count();
    assert_eq!(counted.len(), 3 * per_dir + HOSTILE.len());
    let names: Vec<String> = counted.iter().map(|m| m.path.display()).collect();
    assert!(!names.contains(&format!("{LOG}/apt/eipp.log.xz")));
    // The name that is no valid UTF-8 is found, but no command can name it.
    assert_eq!(walk_logs().files.len(), counted.len() + 1);

    let bytes: u64 = counted.iter().map(|m| m.bytes).sum();
    let out = rotated_log_findings(walk_logs());
    let f = &out.findings[0];
    assert_eq!(shown(f), sorted(names.clone()));
    assert_eq!(f.bytes, bytes);
    assert!(shell_cmd(f).starts_with("sudo find "));
    assert_eq!(sorted(deleted(shell_cmd(f), LOG)), sorted(names));
    // A folder of indexed logs is left to whatever keeps the index.
    let mut walk = LogWalk::begin(&p(LOG));
    walk.step(&vec![entry(b"binlog.000001", false, true, 4096), entry(b"syslog.1", false, true, 4096), entry(b"binlog.index", false, true, 64)]);
    assert_eq!(walk.next(), None);
    assert!(rotated_log_findings(walk).findings.is_empty());
}

#[test]
fn crash_command_removes_exactly_listed_reports() {
    let dir = p("/srv/r/crash");
    let mut list = vec![entry(b"_usr_bin_foo.1000.crash", false, true, 8192)];
    list.extend(HOSTILE.iter().map(|n| file(&format!("{n}.crash"))));
    let targets: Vec<String> = list.iter().map(|e| dir.join_name(&e.name).display()).collect();
    list.push(file(".lock"));
    list.push(entry(b"sub", true, false, 4096)); // not a regular file directly inside
    let out = crash_findings(&dir, true, &list);
    let f = &out.findings[0];
    assert_eq!(f.risk, Risk::Safe);
    assert_eq!(f.paths.len(), targets.len());
    assert_eq!(sorted(deleted(shell_cmd(f), "/srv/r/crash")), sorted(targets));
    assert!(crash_findings(&p("/srv/r/empty-nope"), true, &vec![]).findings.is_empty());
    // Only apport's files, and never through a symlinked directory.
    let docs = vec![file("thesis.pdf"), file("notes.txt")];
    assert!(crash_findings(&p("/srv/r/docs"), true, &docs).findings.is_empty());
    assert!(crash_findings(&p("/srv/r/linked"), false, &vec![file("x.crash")]).findings.is_empty());
}

#[test]
fn stored_core_dumps_are_the_regular_files() {
    let dir = p("/var/lib/systemd/coredump");
    let list = vec![entry(b"core.a.0.zst", false, true, 8192), entry(b"core.dir", true, false, 4096)];
    let out = coredump_findings(&dir, &list);
    let f = &out.findings[0];
    assert_eq!(shown(f), ["/var/lib/systemd/coredump/core.a.0.zst"]);
    assert_eq!(f.bytes, 8192);
    assert_eq!(deleted(shell_cmd(f), "/var/lib/systemd/coredump"), shown(f));
    assert!(coredump_findings(&dir, &vec![]).findings.is_empty());
}

fn journal(archived: bool, secs: i64, bytes: u64) -> JournalFile {
    JournalFile { archived, secs, nanos: 0, bytes }
}

#[test]
fn journal_vacuum_removes_whole_archived_files_oldest_first() {
    assert_eq!(journal_file(&b"system@0001-old.journal".to_vec()), Some(true));
    assert_eq!(journal_file(&b"system.journal".to_vec()), Some(false));
    assert_eq!(journal_file(&b"user-1000@5.journal~".to_vec()), Some(true));
    assert_eq!(journal_file(&b"unknown.bin".to_vec()), None);
    let (o, n) = (3 * MIB, 2 * MIB);
    let files = vec![journal(true, 2_000, n), journal(false, 3_000, MIB), journal(true, 1_000, o)];
    let dir = p("/srv/r/journal");
    let size = 6 * MIB + 8192;
    // keep 4 MiB of 6: only the oldest archived file has to go (whole file).
    let out = journal_findings(&dir, true, size, &files, 4 << 20);
    let f = &out.findings[0];
    assert_eq!(f.bytes, o);
    assert_eq!(shell_cmd(f), "sudo journalctl --directory=/srv/r/journal --vacuum-size=4M");
    // keep 1 MiB: both archived files go, the active one never does.
    assert_eq!(journal_findings(&dir, true, size, &files, 1 << 20).findings[0].bytes, o + n);
    // Already under the keep size: nothing.
    assert!(journal_findings(&dir, true, size, &files, 64 << 20).findings.is_empty());
    assert!(journal_findings(&p("/srv/r/nope"), false, 0, &vec![], 0).findings.is_empty());
}

#[test]
fn journal_falls_back_to_size_minus_keep_without_readable_files() {
    let size = 3 * MIB + 8192;
    assert_eq!(journal_vacuum_bytes(&vec![], 1 << 20), None);
    let out = journal_findings(&p("/srv/r/journal"), true, size, &vec![], 1 << 20);
    assert_eq!(out.findings[0].bytes, size - (1 << 20));
}
