use linux_disk_prune::path::FsPath;
use linux_disk_prune::sysdirs::{parse_apt_config, parse_flatpak_installations, parse_snap_paths};

fn p(s: &str) -> FsPath {
    FsPath::new(s)
}

#[test]
fn apt_defaults_and_overrides() {
    let stock = "Dir \"/\";\nDir::Cache \"var/cache/apt\";\nDir::Cache::archives \"archives/\";\nDir::State \"var/lib/apt\";\nDir::State::status \"/var/lib/dpkg/status\";\n";
    assert_eq!(
        parse_apt_config(stock),
        (p("/var/cache/apt"), p("/var/cache/apt/archives/"), p("/var/lib/dpkg/status"))
    );
    // Relocated cache and absolute archives.
    let moved = "Dir \"/\";\nDir::Cache \"/srv/aptcache/\";\nDir::Cache::archives \"/mnt/debs\";\n";
    let (c, a, s) = parse_apt_config(moved);
    assert_eq!((c, a, s), (p("/srv/aptcache/"), p("/mnt/debs"), p("/var/lib/dpkg/status")));
    // Chroot-style Dir prefix.
    let chroot = "Dir \"/target/\";\nDir::Cache \"var/cache/apt/\";\n";
    assert_eq!(parse_apt_config(chroot).1, p("/target/var/cache/apt/archives/"));
    // Nothing known: stock layout.
    assert_eq!(parse_apt_config("").0, p("/var/cache/apt/"));
}

#[test]
fn snap_and_flatpak_parsers() {
    let snap = "SNAPD_MOUNT=/snap\nSNAPD_BIN=/snap/bin\nSNAPD_LIBEXEC=/usr/lib/snapd\n";
    assert_eq!(parse_snap_paths(snap), Some(p("/snap")));
    assert_eq!(parse_snap_paths("SNAPD_MOUNT=/var/lib/snapd/snap\n"), Some(p("/var/lib/snapd/snap")));
    assert_eq!(parse_snap_paths("garbage"), None);
    assert_eq!(
        parse_flatpak_installations("/var/lib/flatpak\n/opt/flatpak\n\nwarning: x\n"),
        vec![p("/var/lib/flatpak"), p("/opt/flatpak")]
    );
}
