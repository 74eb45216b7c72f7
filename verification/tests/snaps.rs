use linux_disk_prune::path::FsPath;
use linux_disk_prune::rules::snaps::{disabled_snap_revisions, snap_findings_ext, snap_looks, SnapFacts, SnapFile};
use linux_disk_prune::rules::{Action, CheckOutput, Finding, Risk};
use linux_disk_prune::util::{fmt_size, shq};

const MIB: u64 = 1 << 20;

const SNAP_LIST: &str = "\
Name            Version          Rev    Tracking         Publisher            Notes
blender         4.2.1            7740   latest/stable    blenderfoundation**  classic
code            1.92             165    latest/stable    vscode✓              disabled,classic
code            1.93             166    latest/stable    vscode✓              classic
core22          20240111         1122   latest/stable    canonical✓           base,disabled
core22          20240408         1380   latest/stable    canonical✓           base
firefox         128.0-2          4539   latest/stable/…  mozilla✓             disabled
firefox         129.0-1          4630   latest/stable/…  mozilla✓             -
local-app       0.1              x1     -                -                    disabled
broken row with too many columns here  1  disabled
";

fn shell_cmd(f: &Finding) -> &str {
    match &f.action {
        Action::Shell { command } => command,
        other => panic!("expected a shell action, got {other:?}"),
    }
}

/// What lies on a disk: snap files with their bytes and links, the revision
/// each `current` leads to, and folders with their bytes.
#[derive(Default)]
struct Disk {
    files: Vec<(String, u64, u64)>,
    current: Vec<(String, String)>,
    dirs: Vec<(String, u64)>,
}

fn p(s: &str) -> FsPath {
    FsPath::new(s)
}

impl Disk {
    fn findings(&self, list: &str, data_roots: &[&str]) -> CheckOutput {
        let roots: Vec<FsPath> = data_roots.iter().map(|r| p(r)).collect();
        let looks = snap_looks(&p("/d/snaps"), &p("/d/snap"), list, &roots);
        let facts = looks
            .iter()
            .map(|l| {
                let file = self.files.iter().find(|f| p("/d/snaps").join_str(&f.0).same(&l.file));
                SnapFacts {
                    current: self
                        .current
                        .iter()
                        .find(|c| p("/d/snap").join_str(&c.0).join_str("current").same(&l.link))
                        .map(|c| c.1.as_bytes().to_vec()),
                    file: file.map(|f| SnapFile { bytes: f.1, nlink: f.2 }),
                    followed: file.map(|f| f.1),
                    data: l.data.iter().map(|x| self.dirs.iter().find(|d| p(&d.0).same(x)).map(|d| d.1)).collect(),
                }
            })
            .collect();
        snap_findings_ext(&p("/d/snaps"), &p("/d/snap"), list, &roots, &facts)
    }
}

fn snap_fixture() -> Disk {
    let file = |n: &str| (format!("{n}.snap"), 4096, 1);
    Disk {
        files: ["blender_7740", "blender_7803", "code_165", "code_166", "core22_1122", "core22_1380", "firefox_4539", "firefox_4630"]
            .iter()
            .map(|n| file(n))
            .collect(),
        current: [("blender", "7740"), ("code", "166"), ("core22", "1380"), ("firefox", "4630")]
            .iter()
            .map(|(a, b)| (a.to_string(), b.to_string()))
            .collect(),
        dirs: Vec::new(),
    }
}

#[test]
fn snap_list_parser_reads_disabled_rows_only() {
    let got = disabled_snap_revisions(SNAP_LIST);
    let want: Vec<(String, String)> = [("code", "165"), ("core22", "1122"), ("firefox", "4539"), ("local-app", "x1")]
        .iter()
        .map(|(a, b)| (a.to_string(), b.to_string()))
        .collect();
    assert_eq!(got, want);
    assert!(disabled_snap_revisions("").is_empty());
    assert!(disabled_snap_revisions("error: cannot communicate with server\n").is_empty());
}

#[test]
fn snap_proposes_only_listed_disabled_revisions() {
    let d = snap_fixture();
    let out = d.findings(SNAP_LIST, &[]);
    assert_eq!(out.findings.len(), 1);
    let f = &out.findings[0];
    let mut files: Vec<String> = f.paths.iter().map(|x| String::from_utf8(x.file_name().unwrap()).unwrap()).collect();
    files.sort();
    // blender_7803 is a pending (pre-downloaded) revision: not installed, not disabled.
    assert_eq!(files, ["code_165.snap", "core22_1122.snap", "firefox_4539.snap"]);
    assert_eq!(f.bytes, 3 * 4096);
    assert!(f.detail.contains("/var/lib/snapd/cache"));
    let cmd = shell_cmd(f);
    assert!(!cmd.contains("&&"), "removals must be independent: {cmd}");
    let calls: Vec<&str> = cmd.split("; ").collect();
    assert_eq!(
        calls,
        [
            "sudo snap remove code --revision=165",
            "sudo snap remove core22 --revision=1122",
            "sudo snap remove firefox --revision=4539",
            "sudo snap remove local-app --revision=x1",
        ]
    );
}

#[test]
fn snap_one_failing_removal_does_not_skip_the_rest() {
    let out = snap_fixture().findings(SNAP_LIST, &[]);
    // Separated by `;` alone, so each runs whatever the one before it returned.
    let cmd = shell_cmd(&out.findings[0]);
    assert_eq!(cmd.matches("sudo snap remove ").count(), 4, "{cmd}");
    assert_eq!(cmd.matches(';').count(), 3);
    assert!(!cmd.contains('&') && !cmd.contains('|') && !cmd.contains("set -e"));
}

#[test]
fn snap_current_revision_never_proposed_even_if_listed_disabled() {
    let list = "Name Version Rev Tracking Publisher Notes\ncode 1.93 166 latest/stable vscode disabled\n";
    assert!(snap_fixture().findings(list, &[]).findings.is_empty());
}

#[test]
fn snap_revision_newer_than_active_is_only_a_manual_step() {
    // blender was reverted to 7740; the disabled 7803 holds the newest data.
    let list = "Name Version Rev Tracking Publisher Notes\n\
                blender 4.2 7803 latest/stable blenderfdn disabled\n\
                code 1.92 165 latest/stable vscode disabled\n";
    let out = snap_fixture().findings(list, &[]);
    let normal = out.findings.iter().find(|f| f.id == "snap-revisions").unwrap();
    assert_eq!(shell_cmd(normal), "sudo snap remove code --revision=165");
    let rev = out.findings.iter().find(|f| f.id == "snap-reverted").unwrap();
    assert!(!rev.is_actionable() && rev.risk == Risk::Caution && rev.detail.contains("blender revision 7803"));
}

#[test]
fn snap_without_list_output_proposes_nothing() {
    assert!(snap_fixture().findings("", &[]).findings.is_empty());
}

#[test]
fn snap_hostile_names_are_rejected() {
    let list = "Name Version Rev Tracking Publisher Notes\n\
                $(touch${IFS}PWNED1) 1 1 - - disabled\n\
                ok 1 `touch${IFS}PWNED2` - - disabled\n\
                good;touch${IFS}PWNED3 1 1 - - disabled\n";
    assert!(disabled_snap_revisions(list).is_empty());
    assert!(Disk::default().findings(list, &[]).findings.is_empty());
    // Names that pass are shell-safe and still quoted through shq.
    assert_eq!(shq("gnome-42-2204"), "gnome-42-2204");
}

#[test]
fn snap_reports_immediate_space_and_revision_data() {
    let d = Disk {
        files: vec![
            ("firefox_4539.snap".into(), 3 * MIB, 1),
            ("code_165.snap".into(), 2 * MIB, 2), // snapd's cache links to it
            ("core22_1122.snap".into(), MIB, 1),
        ],
        current: [("firefox", "4630"), ("code", "166"), ("core22", "1380")].iter().map(|(a, b)| (a.to_string(), b.to_string())).collect(),
        dirs: vec![("/d/vardata/firefox/4539".into(), 2 * MIB + 4096)],
    };
    let out = d.findings(SNAP_LIST, &["/d/vardata"]);
    let f = &out.findings[0];
    assert_eq!(f.bytes, 3 * MIB + 2 * MIB + MIB + (2 * MIB + 4096));
    // The detail names the per-revision data that removal deletes, and
    // separates what comes back now from what snapd's cache still holds.
    assert!(f.detail.contains("vardata/firefox/4539"), "{}", f.detail);
    assert!(f.detail.contains(&fmt_size(2 * MIB)), "{}", f.detail);
}
