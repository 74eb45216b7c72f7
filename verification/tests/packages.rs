use linux_disk_prune::path::FsPath;
use linux_disk_prune::rules::logs::LogEntry;
use linux_disk_prune::rules::packages::{
    apt_findings_at, autoremove_candidates, autoremove_findings, autoremove_fits, flatpak_findings, flatpak_places, flatpak_unused,
    installed_sizes, snapd_orphan_findings, AptListings, CacheEntry, CacheListing,
};
use linux_disk_prune::rules::{Action, CheckOutput, Finding};

const MIB: u64 = 1 << 20;

fn p(s: &str) -> FsPath {
    FsPath::new(s)
}

fn shell_cmd(f: &Finding) -> &str {
    match &f.action {
        Action::Shell { command } => command,
        other => panic!("expected a shell action, got {other:?}"),
    }
}

fn file(name: &str, bytes: u64) -> LogEntry {
    LogEntry { name: name.as_bytes().to_vec(), is_dir: false, is_file: true, bytes }
}

fn folder(name: &str) -> LogEntry {
    LogEntry { name: name.as_bytes().to_vec(), is_dir: true, is_file: false, bytes: 4096 }
}

fn shown(f: &Finding) -> Vec<String> {
    f.paths.iter().map(|x| x.display()).collect()
}

fn apt(archives: Vec<LogEntry>, partial: Vec<LogEntry>, cache: Vec<LogEntry>) -> CheckOutput {
    apt_findings_at(&p("/d/apt"), &p("/d/apt/archives"), &AptListings { archives, partial, cache })
}

#[test]
fn apt_counts_debs_and_partial_not_rebuilt_package_lists() {
    let out = apt(
        vec![file("a_1.0_amd64.deb", 2 * MIB), file("lock", 0), folder("partial")],
        vec![file("b_2.0_amd64.deb.part", MIB)],
        vec![folder("archives"), file("pkgcache.bin", MIB), file("srcpkgcache.bin", MIB), file("other.txt", MIB)],
    );
    let f = &out.findings[0];
    // pkgcache.bin/srcpkgcache.bin come straight back on the next apt run:
    // only the .deb archives and partial downloads are lasting savings.
    assert_eq!(f.bytes, 3 * MIB);
    assert_eq!(shell_cmd(f), "sudo apt-get clean");
    assert!(f.title.contains("1 .deb"));
    // paths are exactly the counted files, and the text mentions both kinds.
    let mut paths = shown(f);
    paths.sort();
    let mut want = vec!["/d/apt/archives/a_1.0_amd64.deb", "/d/apt/archives/partial/b_2.0_amd64.deb.part", "/d/apt/pkgcache.bin", "/d/apt/srcpkgcache.bin"];
    want.sort();
    assert_eq!(paths, want);
    assert!(f.detail.contains(".deb") && f.detail.contains("pkgcache.bin"));
    // Only package-list caches: nothing lasting to reclaim, so no finding.
    assert!(apt(vec![], vec![], vec![file("pkgcache.bin", 2 * MIB)]).findings.is_empty());
    assert!(apt(vec![], vec![], vec![]).findings.is_empty());
}

fn cached(name: &str, nlink: u64) -> CacheEntry {
    CacheEntry { name: name.as_bytes().to_vec(), is_file: true, nlink, bytes: 2 * MIB }
}

#[test]
fn snapd_orphans_only_single_link_files() {
    let cache = p("/d/cache");
    let list = CacheListing::Read(vec![cached("aaa", 1), cached("bbb", 2)]);
    let out = snapd_orphan_findings(&cache, &list);
    let f = &out.findings[0];
    assert_eq!(shown(f), ["/d/cache/aaa"]);
    assert_eq!(f.bytes, 2 * MIB);
    assert!(f.needs_root && f.command_text().contains("sudo rm -f --"));
    assert!(snapd_orphan_findings(&p("/d/nope"), &CacheListing::Missing).findings.is_empty());
    // A cache that cannot be listed is noted, not guessed at.
    let denied = snapd_orphan_findings(&cache, &CacheListing::Denied);
    assert!(denied.findings.is_empty() && denied.notes.len() == 1);
}

#[test]
fn autoremove_excludes_kernels_and_refuses_collateral_removals() {
    let sim = "Remv libfoo1 [1.0]\nRemv linux-image-6.8.0-100-generic [x]\nPurg python3-bar:amd64 [2]\nInst x\n";
    assert_eq!(autoremove_candidates(sim), vec!["libfoo1".to_string(), "python3-bar".to_string()]);
    let status = "Package: libfoo1\nStatus: install ok installed\nInstalled-Size: 2048\n\nPackage: python3-bar\nStatus: install ok installed\nInstalled-Size: 1024\n";
    assert!(autoremove_fits(sim, status));
    let out = autoremove_findings(sim, status, Some("Remv libfoo1 [1]\nRemv python3-bar [2]\n"));
    let f = &out.findings[0];
    assert_eq!(f.bytes, 3 * 1024 * 1024);
    assert!(f.is_actionable() && f.command_text().contains("purge -y libfoo1 python3-bar"));
    let out = autoremove_findings(sim, status, Some("Remv libfoo1 [1]\nRemv ubuntu-desktop [2]\n"));
    let f = &out.findings[0];
    assert!(!f.is_actionable() && f.detail.contains("ubuntu-desktop"));
    assert!(autoremove_findings("", status, Some("Remv libfoo1 [1]\nRemv python3-bar [2]\n")).findings.is_empty());
    // Without a dry run nothing is purged unchecked.
    assert!(!autoremove_findings(sim, status, None).findings[0].is_actionable());
}

#[test]
fn package_sizes_are_kilobytes_and_must_fit() {
    let status = "Package: c\nStatus: install ok installed\nInstalled-Size: 18446744073709551615\n";
    assert!(!autoremove_fits("Remv c [1]\n", status));
    let status = "Package: a\nStatus: install ok installed\nInstalled-Size: 3\n\nPackage: b\nStatus: deinstall ok config-files\nInstalled-Size: 9\n";
    assert_eq!(installed_sizes(status), vec![("a".to_string(), 3072)]);
}

#[test]
fn flatpak_unused_runtimes_only_unreferenced_bases() {
    let apps = "org.app.One\torg.gnome.Platform/x86_64/45\norg.app.Two\torg.freedesktop.Platform/x86_64/23.08\n";
    let runtimes = "org.gnome.Platform/x86_64/45\norg.gnome.Platform/x86_64/44\norg.freedesktop.Platform/x86_64/23.08\n\
                    org.freedesktop.Platform.GL.default/x86_64/23.08\norg.gnome.Sdk/x86_64/45\norg.kde.Platform/x86_64/5.15\n";
    let unused = flatpak_unused(apps, runtimes);
    assert_eq!(unused, vec!["org.gnome.Platform/x86_64/44".to_string(), "org.kde.Platform/x86_64/5.15".to_string()]);
    let installations = vec![p("/var/lib/flatpak"), p("/home/u/.local/share/flatpak")];
    let places = flatpak_places(&unused, &installations);
    assert_eq!(places.len(), 4);
    let sizes = places.iter().map(|x| if x.starts_with(&p("/var/lib/flatpak")) { Some(MIB) } else { None }).collect();
    let out = flatpak_findings(apps, runtimes, &installations, &sizes);
    assert_eq!(out.findings[0].bytes, 2 * MIB);
    assert_eq!(out.findings[0].paths.len(), 2);
    assert_eq!(
        out.findings[0].command_text(),
        "sudo flatpak uninstall --system -y --noninteractive org.gnome.Platform/x86_64/44 org.kde.Platform/x86_64/5.15"
    );
}
