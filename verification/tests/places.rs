use linux_disk_prune::path::FsPath;
use linux_disk_prune::rules::browsers::{app_look, chromium_lock, firefox_locks, flatpak_app_cache, flatpak_app_root};
use linux_disk_prune::rules::tools::conda_bases;
use linux_disk_prune::sysdirs::{find_font, program_places, which, Probed, Surroundings, SysDirs};
use linux_disk_prune::usage::{unique_bytes, unique_ostree_bytes, Visit};

fn p(s: &str) -> FsPath {
    FsPath::new(s)
}

fn probed(s: &str, found: bool) -> Probed {
    Probed { path: p(s), found }
}

fn nothing_known() -> Surroundings {
    Surroundings {
        apt_config: None,
        snap_paths: None,
        persistent_journal: false,
        volatile_journal: false,
        apport_dir: None,
        flatpak: None,
        flatpak_default: false,
        modules: None,
    }
}

#[test]
fn system_places_have_defaults() {
    let s = SysDirs::discover(&nothing_known());
    assert_eq!((s.apt_cache, s.apt_archives), (p("/var/cache/apt/"), p("/var/cache/apt/archives/")));
    assert_eq!((s.snap_mount, s.snapd_state, s.crash), (p("/snap"), p("/var/lib/snapd"), p("/var/crash")));
    assert!(s.journals.is_empty() && s.flatpak_system.is_empty());
}

#[test]
fn system_places_are_discovered() {
    let s = SysDirs::discover(&Surroundings {
        apt_config: Some("Dir::Cache \"/srv/apt/\";\n".to_string()),
        snap_paths: Some("SNAPD_MOUNT=/var/lib/snapd/snap\n".to_string()),
        persistent_journal: true,
        volatile_journal: true,
        apport_dir: Some(p("/srv/crash")),
        flatpak: Some("/opt/flatpak\n".to_string()),
        ..nothing_known()
    });
    assert_eq!(s.apt_cache, p("/srv/apt/"));
    assert_eq!(s.snap_mount, p("/var/lib/snapd/snap"));
    assert_eq!(s.journals, vec![p("/var/log/journal"), p("/run/log/journal")]);
    assert_eq!(s.crash, p("/srv/crash"));
    assert_eq!(s.flatpak_system, vec![p("/opt/flatpak")]);
}

#[test]
fn programs_are_found_on_the_path() {
    let places = program_places(&b"/usr/local/bin:/usr/bin".to_vec(), "pkexec");
    assert_eq!(places, vec![p("/usr/local/bin/pkexec"), p("/usr/bin/pkexec")]);
    assert_eq!(which(&vec![probed("/usr/local/bin/pkexec", false), probed("/usr/bin/pkexec", true)]), Some(p("/usr/bin/pkexec")));
    assert_eq!(which(&vec![probed("/usr/bin/pkexec", false)]), None);
    let fonts = find_font(&vec![probed("/f/a.ttf", true)], &vec![probed("/f/a.ttf", true), probed("/f/none.ttf", false), probed("/f/b.ttf", true)]);
    assert_eq!(fonts, vec![p("/f/a.ttf"), p("/f/b.ttf")]);
}

#[test]
fn caches_and_locks_of_apps_are_looked_for_in_their_folders() {
    assert_eq!(chromium_lock(&p("/h/.config/chromium")), p("/h/.config/chromium/SingletonLock"));
    assert_eq!(firefox_locks(&p("/h/.mozilla/firefox"), &vec![b"x.default".to_vec()]), vec![p("/h/.mozilla/firefox/x.default/lock")]);
    assert_eq!(flatpak_app_root(&p("/h")), p("/h/.var/app"));
    assert_eq!(flatpak_app_cache(&p("/h"), &b"org.app".to_vec()), p("/h/.var/app/org.app/cache"));
    let look = app_look(&p("/h/.config"), &b"Slack".to_vec());
    assert_eq!(look.caches[0], p("/h/.config/Slack/Cache"));
    assert_eq!(look.index, vec![p("/h/.config/Slack/Cache/index"), p("/h/.config/Slack/Cache/Cache_Data/index")]);
    assert_eq!(look.singleton, p("/h/.config/Slack/SingletonLock"));
    assert!(conda_bases().contains(&"miniconda3"));
}

#[test]
fn data_that_something_else_links_to_is_not_counted() {
    let file = |ino: u64, nlink: u64, bytes: u64| Visit { is_dir: false, is_symlink: false, dev: 1, ino, nlink, bytes };
    let own = Some(Visit { is_dir: true, is_symlink: false, dev: 1, ino: 1, nlink: 2, bytes: 4096 });
    let below = vec![file(2, 1, 8192), file(3, 2, 4096), file(4, 3, 12288)];
    assert_eq!(unique_bytes(&own, &below), 8192);
    // A deployment shares each file with the repository: two names are its own.
    assert_eq!(unique_ostree_bytes(&below), 8192 + 4096);
}
