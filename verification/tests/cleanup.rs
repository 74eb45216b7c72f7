use linux_disk_prune::cleanup::{
    check_markable, check_removable, foreign_device, freed_bytes, mounts_inside, parse_mountinfo, remove_dir_checked, remove_marked,
    remove_path, unescape_mount, DeviceWalk, DirOnDevice, Marked, Removal, RemoveMode, Seen,
};
use linux_disk_prune::path::FsPath;

fn p(s: &str) -> FsPath {
    FsPath::new(s)
}

#[test]
fn never_removes_a_folder_containing_home() {
    let home = p("/mnt/data/users/u");
    assert!(check_removable(&p("/mnt/data/users"), &home).is_err());
    assert!(check_removable(&p("/mnt/data"), &home).is_err());
    assert!(check_removable(&p("/mnt/data/users/u/.cache/x"), &home).is_ok());
}

#[test]
fn mark_rules() {
    let home = p("/home/u");
    let root = p("/");
    assert!(check_markable(&p("/usr/share/foo"), &root, &home).is_err());
    assert!(check_markable(&p("/var/lib/docker"), &root, &home).is_err());
    assert!(check_markable(&p("/home/u/Downloads/x.iso"), &root, &home).is_ok());
    assert!(check_markable(&p("/home/u/x"), &p("/home/u/src"), &home).is_err());
}

#[test]
fn guards() {
    let home = p("/home/u");
    assert!(check_removable(&p("/"), &home).is_err());
    assert!(check_removable(&p("/usr"), &home).is_err());
    assert!(check_removable(&p("/home/u"), &home).is_err());
    assert!(check_removable(&p("/home/u/../x"), &home).is_err());
    assert!(check_removable(&p("relative/x"), &home).is_err());
    assert!(check_removable(&p("/home/u/.cache/pip"), &home).is_ok());
}

#[test]
fn removable_refuses_root_system_dirs_home_and_odd_paths() {
    let home = p("/home/u");
    for s in [
        "/", "/usr", "/usr/", "/etc", "/boot", "/var", "/home", "/tmp", "/snap", "/root", "/opt", "/lib64", "/proc", "/sys",
        "/dev", "/run", "/srv", "/bin", "/sbin", "/lib", "/home/u", "/home/u/", "/home/u/.", "/data", "/mnt", "//usr",
        "/home/u/../x", "/home/u/a/../../..", "relative/x", "./x", "", "~/x",
    ] {
        assert!(check_removable(&p(s), &home).is_err(), "{s:?} must be refused");
    }
    for s in ["/home/u/.cache/pip", "/home/u/x", "/var/log/syslog.1", "/mnt/data/x"] {
        assert!(check_removable(&p(s), &home).is_ok(), "{s:?}");
    }
}

#[test]
fn markable_refuses_scan_root_outside_and_system_trees() {
    let home = p("/home/u");
    let root = p("/");
    for s in [
        "/usr/lib/x", "/etc/fstab", "/boot/grub", "/var/lib/dpkg", "/var/lib/docker/x", "/snap/core/1", "/lib/modules/6.8",
        "/lib32/x", "/lib64/x", "/bin/x", "/sbin/x", "/proc/1", "/sys/kernel", "/dev/shm/x", "/run/user/1000/x",
    ] {
        assert!(check_markable(&p(s), &root, &home).is_err(), "{s:?} must be refused");
    }
    let src = p("/home/u/src");
    assert!(check_markable(&src, &src, &home).is_err(), "scan root itself");
    assert!(check_markable(&p("/home/u/src2/x"), &src, &home).is_err(), "sibling prefix");
    assert!(check_markable(&p("/home/u/other"), &src, &home).is_err(), "outside root");
    assert!(check_markable(&p("/home/u/src/../other"), &src, &home).is_err(), "'..' escape");
    assert!(check_markable(&p("/home/u"), &root, &home).is_err(), "$HOME");
    assert!(check_markable(&p("/home/u/src/proj/target"), &src, &home).is_ok());
    assert!(check_markable(&p("/var/log/big.log"), &root, &home).is_ok());
}

fn nobody() -> FsPath {
    p("/home/nobody")
}

fn removal(path: &str, keep_dir: bool, seen: Seen, parent: &str, mounts: &str) -> Removal {
    remove_path(&p(path), keep_dir, &nobody(), seen, Ok(p(parent)), Ok(mounts.to_string()))
}

#[test]
fn remove_path_deletes_symlink_to_dir_not_target() {
    // Only the link goes, never the target.
    assert!(matches!(removal("/srv/d/link", false, Seen::Symlink, "/srv/d", ""), Removal::Unlink));
    // keep_dir on a symlink: the contents live elsewhere, nothing is done.
    assert!(matches!(removal("/srv/d/link", true, Seen::Symlink, "/srv/d", ""), Removal::Nothing));
}

#[test]
fn remove_path_keep_dir_empties_but_keeps_dir() {
    assert!(matches!(removal("/srv/d/cache", true, Seen::Dir, "/srv/d", ""), Removal::Clear { keep_dir: true }));
    assert!(matches!(removal("/srv/d/cache", false, Seen::Dir, "/srv/d", ""), Removal::Clear { keep_dir: false }));
    // Missing paths are not an error (already clean).
    assert!(matches!(removal("/srv/d/gone", true, Seen::Missing, "/srv/d", ""), Removal::Nothing));
}

#[test]
fn remove_path_refuses_home_and_protected() {
    for keep_dir in [false, true] {
        let r = remove_path(&p("/srv/d/h"), keep_dir, &p("/srv/d/h"), Seen::Dir, Ok(p("/srv/d")), Ok(String::new()));
        assert!(matches!(r, Removal::Refuse(_)));
    }
    assert!(matches!(removal("/usr", true, Seen::Dir, "/", ""), Removal::Refuse(_)));
    assert!(matches!(removal("relative", false, Seen::Dir, "", ""), Removal::Refuse(_)));
}

#[test]
fn remove_marked_permanent_deletes_and_reports_bytes() {
    let (sa, sb) = (2u64 << 20, 1u64 << 20);
    let refused = match removal("/usr", false, Seen::Dir, "/", "") {
        Removal::Refuse(e) => e,
        _ => panic!("/usr must be refused"),
    };
    let marks = vec![
        Marked { path: p("/srv/d/a.bin"), size: sa, error: None },
        Marked { path: p("/srv/d/dir"), size: sb, error: None },
        Marked { path: p("/usr"), size: 999, error: Some(refused) },
    ];
    let (n, bytes, log) = remove_marked(&marks, RemoveMode::Permanent);
    assert_eq!((n, bytes), (2, sa + sb));
    assert_eq!(log.iter().filter(|l| l.starts_with('✔')).count(), 2);
    assert_eq!(log.iter().filter(|l| l.starts_with('✘')).count(), 1);
    assert_eq!(log[0], "✔ deleted /srv/d/a.bin (2.0 MiB)");
    // Trashed items still occupy the disk.
    let (n, bytes, log) = remove_marked(&marks, RemoveMode::Trash);
    assert_eq!((n, bytes), (2, 0));
    assert_eq!(log[1], "✔ trashed /srv/d/dir (1.0 MiB)");
}

#[test]
fn trash_frees_no_bytes() {
    assert_eq!(freed_bytes(RemoveMode::Trash, 123), 0);
    assert_eq!(freed_bytes(RemoveMode::Permanent, 123), 123);
}

const MOUNTINFO: &str = "\
22 1 259:2 / / rw,relatime shared:1 - ext4 /dev/nvme0n1p2 rw,errors=remount-ro
23 22 0:21 / /proc rw,nosuid,nodev,noexec,relatime shared:12 - proc proc rw
61 22 259:1 / /boot/efi rw,relatime shared:31 - vfat /dev/nvme0n1p1 rw
90 22 8:17 / /home/u/My\\040Drive rw,relatime shared:40 - ext4 /dev/sdb1 rw
91 22 8:18 / /home/u/tab\\011and\\134slash rw,relatime shared:41 - ext4 /dev/sdb2 rw
92 22 8:19 / /home/u/caf\\351 rw,relatime shared:42 - ext4 /dev/sdb3 rw
";

#[test]
fn mountinfo_parser_decodes_escapes() {
    let m = parse_mountinfo(MOUNTINFO);
    assert_eq!(m.len(), 6);
    assert_eq!(m[0], p("/"));
    assert_eq!(m[2], p("/boot/efi"));
    assert_eq!(m[3], p("/home/u/My Drive"));
    assert_eq!(m[4], p("/home/u/tab\tand\\slash"));
    assert_eq!(m[5].bytes, b"/home/u/caf\xe9");
    assert_eq!(unescape_mount("/a\\04"), p("/a\\04"), "incomplete escape kept literally");
    assert!(parse_mountinfo("").is_empty());
}

#[test]
fn mounts_inside_is_strict_for_keep_dir() {
    let m = parse_mountinfo(MOUNTINFO);
    assert_eq!(mounts_inside(&p("/home/u"), &m, false), Some(&m[3]));
    assert_eq!(mounts_inside(&p("/home/u/My Drive"), &m, false), None, "emptying a mount's own contents");
    assert_eq!(mounts_inside(&p("/home/u/My Drive"), &m, true), Some(&m[3]));
    assert_eq!(mounts_inside(&p("/home/u/My"), &m, true), None, "component-wise prefix");
    assert_eq!(mounts_inside(&p("/srv/data"), &m, true), None);
}

#[test]
fn removal_refuses_dir_with_mount_point_below() {
    let mounts = vec![p("/"), p("/srv/d/tree/mnt")];
    for keep_dir in [false, true] {
        let e = remove_dir_checked(&p("/srv/d/tree"), keep_dir, &mounts).unwrap_err();
        assert!(e.contains("mounted filesystem"), "{e}");
    }
}

#[test]
fn removal_never_crosses_into_another_device() {
    let dirs = |dev: u64| vec![
        DirOnDevice { path: p("/srv/d/tree/a"), dev: 7 },
        DirOnDevice { path: p("/srv/d/tree/zz-foreign"), dev },
    ];
    assert_eq!(foreign_device(&dirs(6), 7), Some(p("/srv/d/tree/zz-foreign")));
    assert_eq!(foreign_device(&dirs(7), 7), None);
    // The walk stops at the mount point, with nothing read behind it.
    let mut walk = DeviceWalk::begin(&p("/srv/d/tree"), 7);
    assert_eq!(walk.next(), Some(p("/srv/d/tree")));
    assert_eq!(walk.step(&dirs(6)), Some(p("/srv/d/tree/zz-foreign")));
}

#[test]
fn walk_before_a_removal_reads_every_directory() {
    let below = |d: &FsPath| -> Vec<DirOnDevice> {
        let list: &[&str] = match d.display().as_str() {
            "/srv/d/tree" => &["/srv/d/tree/a", "/srv/d/tree/b"],
            "/srv/d/tree/a" => &["/srv/d/tree/a/x"],
            _ => &[],
        };
        list.iter().map(|s| DirOnDevice { path: p(s), dev: 7 }).collect()
    };
    let mut walk = DeviceWalk::begin(&p("/srv/d/tree"), 7);
    let mut read = Vec::new();
    while let Some(d) = walk.next() {
        assert_eq!(walk.step(&below(&d)), None);
        read.push(d.display());
    }
    assert_eq!(read, ["/srv/d/tree", "/srv/d/tree/b", "/srv/d/tree/a", "/srv/d/tree/a/x"]);
    // A mount point deep below stops it just as well.
    let mut walk = DeviceWalk::begin(&p("/srv/d/tree"), 7);
    let mut refused = None;
    while let Some(d) = walk.next() {
        let mut list = below(&d);
        if d.is("/srv/d/tree/a") {
            list[0].dev = 9;
        }
        refused = walk.step(&list);
        if refused.is_some() {
            break;
        }
    }
    assert_eq!(refused, Some(p("/srv/d/tree/a/x")));
}

#[test]
fn removal_refuses_symlinked_parent_component() {
    for keep_dir in [false, true] {
        for (path, parent) in [
            ("/srv/d/alias/dir/victim.bin", "/srv/d/real/dir"),
            ("/srv/d/alias/dir", "/srv/d/real"),
            ("/srv/d/alias/dir2", "/srv/d/real"),
        ] {
            match removal(path, keep_dir, Seen::Dir, parent, "") {
                Removal::Refuse(e) => assert!(e.contains("symlink"), "{e}"),
                _ => panic!("{path} must be refused"),
            }
        }
    }
    // The symlink itself (parent is real) is removable, and only the link goes.
    assert!(matches!(removal("/srv/d/alias", false, Seen::Symlink, "/srv/d", ""), Removal::Unlink));
}

#[test]
fn removal_needs_the_mount_table_and_a_readable_path() {
    let unread = remove_path(&p("/srv/d/x"), false, &nobody(), Seen::Dir, Ok(p("/srv/d")), Err("denied".to_string()));
    match unread {
        Removal::Refuse(e) => assert_eq!(e, "refusing: cannot read the mount table (denied)"),
        _ => panic!("refused without the mount table"),
    }
    let failed = removal("/srv/d/x", false, Seen::Failed("io error".to_string()), "/srv/d", "");
    assert!(matches!(failed, Removal::Refuse(e) if e == "io error"));
    let orphan = remove_path(&p("/srv/d/x"), false, &nobody(), Seen::Other, Err("gone".to_string()), Ok(String::new()));
    assert!(matches!(orphan, Removal::Refuse(e) if e == "gone"));
    assert!(matches!(removal("/srv/d/x", true, Seen::Other, "/srv/d", ""), Removal::Unlink));
}
