use linux_disk_prune::path::FsPath;
use linux_disk_prune::rules::browsers::{
    browser_findings, chromium_folders, chromium_like, electron_findings, firefox_folders, firefox_like, BrowserReading, ConfigApp, FlatpakApp,
};
use linux_disk_prune::rules::dirs::{has_lock, is_in_use, lock_is_stale, Dirs, Env, Lock};
use linux_disk_prune::rules::home::{
    extension_roots, jetbrains_findings, jetbrains_old, jetbrains_root, jetbrains_version, marked_extensions, obsolete_extension_findings,
    obsolete_extensions,
    other_trash_findings, other_trash_places, trash_uid,
};
use linux_disk_prune::rules::measure::{contents_finding, manual, Words};
use linux_disk_prune::rules::tools::{leave_to_user, tool_cache_findings, tool_dirs, user_cache_findings, user_caches, Conda, Installed, ToolReadings};
use linux_disk_prune::rules::{Action, Finding, Report, Risk};

const HOME: &str = "/srv/home";
const MIB: u64 = 1 << 20;

fn p(s: &str) -> FsPath {
    FsPath::new(s)
}

fn h(rel: &str) -> FsPath {
    p(HOME).join_str(rel)
}

fn no_env() -> Env {
    Env {
        xdg_cache_home: None,
        xdg_config_home: None,
        xdg_data_home: None,
        cargo_home: None,
        pip_cache_dir: None,
        npm_config_cache: None,
        uv_cache_dir: None,
        gocache: None,
        gomodcache: None,
        gopath: None,
    }
}

fn dirs() -> Dirs {
    Dirs::from_env(&p(HOME), false, &no_env())
}

fn shown(paths: &[FsPath]) -> Vec<String> {
    paths.iter().map(|x| x.display()).collect()
}

fn in_home(rel: &[&str]) -> Vec<String> {
    rel.iter().map(|r| h(r).display()).collect()
}

fn removed_paths(f: &Finding) -> Vec<String> {
    match &f.action {
        Action::Remove { paths, .. } => shown(paths),
        _ => Vec::new(),
    }
}

/// Folders that exist in the test's home, and the bytes inside each.
type Tree<'a> = &'a [(&'a str, u64)];

fn size_of(tree: Tree, path: &FsPath) -> Option<u64> {
    tree.iter().find(|(rel, _)| h(rel).same(path)).map(|(_, b)| *b)
}

/// The names directly below a folder of the test's home.
fn listing(tree: Tree, dir: &FsPath) -> Option<Vec<Vec<u8>>> {
    let prefix = format!("{}/", dir.display());
    let mut out: Vec<Vec<u8>> = Vec::new();
    for (rel, _) in tree {
        let full = h(rel).display();
        if let Some(rest) = full.strip_prefix(&prefix) {
            let name = rest.split('/').next().unwrap().as_bytes().to_vec();
            if !out.contains(&name) {
                out.push(name);
            }
        }
    }
    if out.is_empty() {
        None
    } else {
        Some(out)
    }
}

fn browsers(tree: Tree, running: &[&str], apps: &[(&str, u64)], commands: &[&str]) -> Vec<Finding> {
    let d = dirs();
    let read = |id: &str, names: Vec<Vec<u8>>, folders: Vec<FsPath>| BrowserReading {
        names,
        sizes: folders.iter().map(|x| size_of(tree, x)).collect(),
        running: running.contains(&id),
    };
    let chromium = chromium_like(&d)
        .iter()
        .map(|b| {
            let names = listing(tree, &b.cache_root).unwrap_or_default();
            let folders = chromium_folders(&b.cache_root, &names);
            read(b.id, names, folders)
        })
        .collect();
    let firefox = firefox_like(&d)
        .iter()
        .map(|b| {
            let names = listing(tree, &b.cache_root).unwrap_or_default();
            let folders = firefox_folders(&b.cache_root, &names);
            read(b.id, names, folders)
        })
        .collect();
    let apps = apps.iter().map(|(n, b)| FlatpakApp { name: n.as_bytes().to_vec(), bytes: Some(*b) }).collect();
    let commands = commands.iter().map(|c| c.to_string()).collect();
    browser_findings(&d, &chromium, &firefox, &apps, &commands)
}

fn find(list: Vec<Finding>, id: &str) -> Finding {
    list.into_iter().find(|f| f.id == id).unwrap()
}

#[test]
fn stale_locks_from_crashed_apps_are_ignored() {
    let me: u32 = 4242;
    let pids = vec![1, me];
    // Live process on this host / Firefox-style: held.
    assert!(!lock_is_stale(&format!("myhost-{me}"), "myhost", &pids));
    assert!(!lock_is_stale(&format!("127.0.1.1:+{me}"), "myhost", &pids));
    // Dead pid: stale.
    assert!(lock_is_stale("myhost-999999999", "myhost", &pids));
    assert!(lock_is_stale("127.0.1.1:+999999999", "myhost", &pids));
    // Other host or unparsable: can't tell, so held.
    assert!(!lock_is_stale("otherhost-999999999", "myhost", &pids));
    assert!(!lock_is_stale("myhost-abc", "myhost", &pids));
    assert!(!lock_is_stale("whatever", "", &pids));
    // A real stale lock is not "running".
    assert!(!has_lock(&Lock::Target("myhost-999999999".into()), "myhost", &pids));
    assert!(has_lock(&Lock::Target("-999999999".into()), "", &pids));
    assert!(has_lock(&Lock::Target(format!("myhost-{me}")), "myhost", &pids));
    // A lock that is no symlink can't be judged; none at all holds nothing.
    assert!(has_lock(&Lock::Unreadable, "myhost", &pids));
    assert!(!has_lock(&Lock::Absent, "myhost", &pids));
}

#[test]
fn chrome_cache_only_cache_children_and_blocked_while_running() {
    let tree: Tree = &[
        (".cache/google-chrome/Default/Cache", 2 * MIB),
        (".cache/google-chrome/Default/Code Cache", MIB),
        (".cache/google-chrome/Default/Other", MIB),
        (".config/google-chrome/Default", MIB),
    ];
    let f = find(browsers(tree, &[], &[], &[]), "chrome-cache");
    assert_eq!(f.risk, Risk::Safe);
    let paths = removed_paths(&f);
    assert_eq!(paths, in_home(&[".cache/google-chrome/Default/Cache", ".cache/google-chrome/Default/Code Cache"]));
    assert_eq!(f.bytes, 3 * MIB);
    assert!(matches!(f.action, Action::Remove { keep_dir: true, .. }));
    assert!(f.paths.iter().all(|x| !x.starts_with(&h(".config"))), "profile data untouched");
    // Running browser (SingletonLock symlink) → manual step only.
    let held = has_lock(&Lock::Target("host-1234".into()), "myhost", &vec![]);
    assert!(held);
    let f = find(browsers(tree, &["chrome-cache"], &[], &[]), "chrome-cache");
    assert!(matches!(f.action, Action::Manual) && f.detail.contains("running"));
}

#[test]
fn firefox_cache2_only_and_lock_blocks() {
    let tree: Tree = &[
        (".cache/mozilla/firefox/abc.default/cache2", 2 * MIB),
        (".cache/mozilla/firefox/abc.default/startupCache", MIB),
        (".mozilla/firefox/abc.default", 0),
    ];
    let f = find(browsers(tree, &[], &[], &[]), "firefox-cache");
    assert_eq!(removed_paths(&f), in_home(&[".cache/mozilla/firefox/abc.default/cache2"]));
    assert!(has_lock(&Lock::Target("127.0.0.1:+77".into()), "myhost", &vec![77]));
    let f = find(browsers(tree, &["firefox-cache"], &[], &[]), "firefox-cache");
    assert!(matches!(f.action, Action::Manual));
}

#[test]
fn flatpak_app_cache_skips_running_apps() {
    let apps = [("org.a.App", 2 * MIB), ("org.b.Busy", 2 * MIB)];
    let f = find(browsers(&[], &[], &apps, &["bwrap --args org.b.Busy"]), "flatpak-app-cache");
    assert_eq!(removed_paths(&f), in_home(&[".var/app/org.a.App/cache"]));
    assert_eq!(f.bytes, 2 * MIB);
    assert!(f.detail.contains("org.b.Busy"));
}

fn config_app(name: &str, is_chromium: bool, sizes: [Option<u64>; 4], singleton: Lock) -> ConfigApp {
    ConfigApp { name: name.as_bytes().to_vec(), is_dir: true, is_chromium, sizes: sizes.to_vec(), singleton, code_lock: Lock::Absent }
}

#[test]
fn electron_caches_only_for_real_chromium_caches_and_idle_apps() {
    let apps = vec![
        // A running app is skipped.
        config_app("Chat", true, [Some(2 * MIB), None, None, None], Lock::Target("host-1".into())),
        // A real Electron app: Cache/index marks a Chromium disk cache.
        config_app("Editor", true, [Some(2 * MIB + 4096), None, Some(MIB), None], Lock::Absent),
        // A folder merely named Cache (no index): not an Electron cache.
        config_app("SomeTool", false, [Some(2 * MIB), None, None, None], Lock::Absent),
        // Browsers have a rule of their own.
        config_app("google-chrome", true, [Some(9 * MIB), None, None, None], Lock::Absent),
    ];
    let f = electron_findings(&dirs(), &apps, "myhost", &vec![1]).pop().unwrap();
    assert_eq!(removed_paths(&f), in_home(&[".config/Editor/Cache", ".config/Editor/GPUCache"]));
    assert_eq!(f.bytes, 3 * MIB + 4096);
    assert!(f.detail.contains("Chat"));
}

#[test]
fn browser_profiles_keep_all_but_their_cache_folders() {
    let tree: Tree = &[
        (".cache/google-chrome/Default/Cache", MIB),
        (".cache/google-chrome/Default/Login Data", MIB),
        (".cache/google-chrome/Profile 1/GPUCache", MIB),
        (".cache/google-chrome/Profile 1/cache2", MIB),
        (".config/google-chrome/Default/Cache", MIB),
        (".cache/mozilla/firefox/abc.default/cache2", MIB),
        (".cache/mozilla/firefox/abc.default/Cache", MIB),
        (".mozilla/firefox/abc.default/cache2", MIB),
    ];
    let list = browsers(tree, &[], &[("org.app.One", MIB)], &[]);
    let emptied: Vec<String> = list.iter().flat_map(removed_paths).collect();
    assert_eq!(
        emptied,
        in_home(&[
            ".cache/google-chrome/Default/Cache",
            ".cache/google-chrome/Profile 1/GPUCache",
            ".cache/mozilla/firefox/abc.default/cache2",
            ".var/app/org.app.One/cache",
        ])
    );
}

#[test]
fn obsolete_extensions_are_read_from_every_editor() {
    let files: Vec<Option<String>> =
        vec![None, Some(r#"{"b.old-1": true, "a.old-1": true}"#.into()), Some("not json".into()), Some(r#"{"c.old-1": true}"#.into()), None];
    let marked = marked_extensions(&p(HOME), &files);
    let want = [".vscode-oss/extensions/a.old-1", ".vscode-oss/extensions/b.old-1", ".windsurf/extensions/c.old-1"];
    assert_eq!(shown(&marked), in_home(&want));
    let f = obsolete_extension_findings(&p(HOME), &files, &vec![Some(MIB), None, Some(2 * MIB)]).pop().unwrap();
    assert_eq!(removed_paths(&f), in_home(&[want[0], want[2]]));
    assert_eq!(f.bytes, 3 * MIB);
    let none: Vec<Option<String>> = vec![None, None, None, None, None];
    assert!(obsolete_extension_findings(&p(HOME), &none, &vec![]).is_empty());
}

#[test]
fn obsolete_extensions_only_listed_plain_dirs() {
    let root = h(".vscode/extensions");
    let text = r#"{"pub.old-1.0.0": true, "pub.new-2.0.0": false, "../../outside": true, "a/b": true, "..": true, "missing-9": true}"#;
    // Only the first of the roots has an `.obsolete` file.
    let files = vec![Some(text.to_string()), None, None, None, None];
    let marked = marked_extensions(&p(HOME), &files);
    let sizes: Vec<Option<u64>> = marked.iter().map(|x| size_of(&[(".vscode/extensions/pub.old-1.0.0", 2 * MIB)], x)).collect();
    // What escapes the folder, or holds a slash, is not even looked at.
    assert!(marked.iter().all(|x| x.parent().unwrap().same(&root)));
    let f = obsolete_extension_findings(&p(HOME), &files, &sizes).pop().unwrap();
    assert_eq!(shown(&f.paths), vec![root.join_str("pub.old-1.0.0").display()]);
    assert!(matches!(f.action, Action::Remove { keep_dir: false, .. }));
    // Malformed JSON: nothing.
    assert!(obsolete_extensions(&root, "not json").is_empty());
    assert!(obsolete_extensions(&root, r#"["pub.old-1.0.0"]"#).is_empty());
    assert!(extension_roots(&p(HOME)).iter().any(|x| x.same(&root)));
}

#[test]
fn jetbrains_keeps_newest_version_of_each_ide() {
    assert_eq!(jetbrains_version("PyCharmCE2023.1"), Some(("PyCharmCE".into(), vec![2023, 1])));
    assert_eq!(jetbrains_version("IntelliJIdea2024.3"), Some(("IntelliJIdea".into(), vec![2024, 3])));
    assert_eq!(jetbrains_version("remote-dev"), None);
    let root = h(".cache/JetBrains");
    let names = ["PyCharmCE2023.1", "PyCharmCE2024.10", "PyCharmCE2024.9", "GoLand2024.1"].iter().map(|n| n.as_bytes().to_vec()).collect();
    let sizes = vec![MIB; jetbrains_old(&root, &names).len()];
    let f = jetbrains_findings(&dirs(), &names, &sizes).pop().unwrap();
    // 2024.10 > 2024.9 numerically; the only GoLand version is kept.
    assert_eq!(removed_paths(&f), in_home(&[".cache/JetBrains/PyCharmCE2023.1", ".cache/JetBrains/PyCharmCE2024.9"]));
    assert_eq!(f.bytes, 2 * MIB);
    assert!(jetbrains_findings(&dirs(), &vec![], &vec![]).is_empty());
    assert_eq!(jetbrains_root(&dirs()).display(), root.display());
}

#[test]
fn trash_on_other_drives_from_mountinfo() {
    let mi = "36 25 8:17 / /media/usb rw - ext4 /dev/sdb1 rw\n22 1 8:2 / / rw - ext4 /dev/sda2 rw\n";
    let places = other_trash_places(mi, 1000, &p("/snap"));
    assert!(places.iter().any(|x| x.is("/media/usb/.Trash-1000/files")));
    let sizes: Vec<Option<u64>> = places
        .iter()
        .map(|x| {
            if x.is("/media/usb/.Trash-1000/files") {
                Some(2 * MIB)
            } else if x.is("/media/usb/.Trash-1000/info") {
                Some(4096)
            } else {
                None
            }
        })
        .collect();
    let f = other_trash_findings(&p(HOME), mi, 1000, &p("/snap"), &sizes).pop().unwrap();
    assert_eq!(removed_paths(&f), vec!["/media/usb/.Trash-1000/files", "/media/usb/.Trash-1000/info"]);
    assert_eq!((f.risk, f.bytes), (Risk::Moderate, 2 * MIB + 4096));
}

#[test]
fn trash_of_the_user_behind_sudo() {
    assert_eq!(trash_uid(true, Some("1000"), Some("Uid:\t0\t0\t0\t0\n")), 1000);
    assert_eq!(trash_uid(false, Some("1000"), Some("Uid:\t1\t7\t1\t1\n")), 7);
    assert_eq!(trash_uid(true, None, Some("Uid:\t0\t0\t0\t0\n")), 0);
}

fn readings() -> ToolReadings {
    ToolReadings {
        uv: Some(2 * MIB),
        poetry: None,
        selenium: None,
        playwright: None,
        mesa: None,
        mesa_db: None,
        npx: Some(2 * MIB),
        yarn: None,
        pnpm: None,
        go_build: None,
        go_mod: Some(2 * MIB),
        gradle_caches: None,
        gradle_dists: None,
        conda: Vec::<Conda>::new(),
        huggingface: Some(2 * MIB),
        tracker: None,
    }
}

#[test]
fn tool_caches_use_owning_tool_and_respect_running_or_missing_tools() {
    assert_eq!(tool_dirs(&dirs()).npx.display(), h(".npm/_npx").display());
    let all = Installed { uv: true, pnpm: true, go: true, tracker3: true };
    let none = Installed { uv: false, pnpm: false, go: false, tracker3: false };
    let by = |list: &Vec<Finding>, id: &str| list.iter().position(|x| x.id == id).unwrap();
    let f = tool_cache_findings(&dirs(), &readings(), &vec![], &all);
    assert_eq!(f[by(&f, "uv-cache")].command_text(), "uv cache clean");
    assert!(f[by(&f, "npx-cache")].is_actionable());
    let hf = &f[by(&f, "huggingface-hub")];
    assert!(!hf.is_actionable() && hf.risk == Risk::Caution);
    let busy = vec![format!("node {HOME}/.npm/_npx/abc/node_modules/.bin/srv")];
    let f2 = tool_cache_findings(&dirs(), &readings(), &busy, &none);
    assert!(!f2[by(&f2, "npx-cache")].is_actionable(), "npx program running");
    assert!(!f2[by(&f2, "go-mod-cache")].is_actionable(), "go not installed → manual");
    assert!(matches!(f2[by(&f2, "uv-cache")].action, Action::Remove { keep_dir: true, .. }), "no uv → remove contents");
}

#[test]
fn conda_packages_are_cleaned_by_conda_or_left_to_the_user() {
    let all = Installed { uv: true, pnpm: true, go: true, tracker3: true };
    for program in [true, false] {
        let m = ToolReadings { conda: vec![Conda { base: "miniconda3", pkgs: Some(2 * MIB), program }], ..readings() };
        let f = tool_cache_findings(&dirs(), &m, &vec![], &all);
        let c = f.iter().find(|x| x.id == "conda-pkgs:miniconda3").unwrap();
        assert_eq!(c.is_actionable(), program);
        if program {
            assert_eq!(c.command_text(), format!("{HOME}/miniconda3/bin/conda clean -a -y"));
        } else {
            assert!(matches!(c.action, Action::Manual));
            assert!(c.detail.starts_with("bin/conda is missing there; run `conda clean -a` where it is installed.\n\n"));
        }
    }
    // No command is built from a name that cannot be written exactly.
    let elsewhere = Dirs::from_env(&FsPath::from_bytes(b"/home/caf\xe9".to_vec()), false, &no_env());
    let m = ToolReadings { conda: vec![Conda { base: "miniconda3", pkgs: Some(2 * MIB), program: true }], ..readings() };
    let f = tool_cache_findings(&elsewhere, &m, &vec![], &all);
    assert!(!f.iter().find(|x| x.id == "conda-pkgs:miniconda3").unwrap().is_actionable());
}

#[test]
fn tools_are_not_run_as_root_against_the_users_caches() {
    let all = Installed { uv: true, pnpm: true, go: true, tracker3: true };
    let found = || tool_cache_findings(&dirs(), &readings(), &vec![], &all);
    let by = |list: &Vec<Finding>, id: &str| list.iter().position(|x| x.id == id).unwrap();
    let own = leave_to_user(found(), false);
    assert_eq!(own[by(&own, "uv-cache")].command_text(), "uv cache clean");
    let root = leave_to_user(found(), true);
    assert_eq!(root.len(), own.len());
    let uv = &root[by(&root, "uv-cache")];
    assert!(!uv.is_actionable() && uv.detail.contains("Run it as yourself: uv cache clean\n\n"));
    assert!(root[by(&root, "npx-cache")].is_actionable(), "emptying a folder needs no tool");
}

#[test]
fn dirs_honour_xdg_cargo_pip_npm_overrides() {
    let env = Env {
        xdg_cache_home: Some(p("/data/cache")),
        cargo_home: Some(p("/opt/cargo")),
        pip_cache_dir: Some(p("/data/pip")),
        npm_config_cache: Some(p("relative/npm")), // ignored: not absolute
        ..no_env()
    };
    let d = Dirs::from_env(&p("/home/x"), false, &env);
    assert!(d.cache.is("/data/cache"));
    assert!(d.cargo.is("/opt/cargo"));
    assert!(d.data.is("/home/x/.local/share"));
    assert!(d.pip_cache().is("/data/pip"));
    assert!(d.npm_cache().is("/home/x/.npm"));
    // Under sudo the environment is root's: ignored.
    let r = Dirs::from_env(&p("/home/x"), true, &env);
    assert!(r.cache.is("/home/x/.cache"));
    assert!(r.cargo.is("/home/x/.cargo"));
}

#[test]
fn dirs_ignore_environment_when_running_as_root() {
    let env = Env { xdg_cache_home: Some(p("/data/cache")), pip_cache_dir: Some(p("/data/pip")), ..no_env() };
    let d = Dirs::from_env(&p("/home/x"), true, &env);
    assert!(d.cache.is("/home/x/.cache"));
    assert!(d.cargo.is("/home/x/.cargo"));
    assert!(d.pip_cache().is("/home/x/.cache/pip"));
    assert!(d.npm_cache().is("/home/x/.npm"));
}

fn check_user_caches(tree: Tree) -> Vec<Finding> {
    let sizes = user_caches(&dirs()).iter().map(|g| g.dirs.iter().map(|x| size_of(tree, x)).collect()).collect();
    user_cache_findings(&dirs(), &sizes)
}

#[test]
fn user_caches_target_only_their_own_dirs() {
    let tree: Tree = &[
        (".cache/thumbnails", MIB + 4096),
        (".cache/pip/http", MIB),
        (".cargo/registry/cache", MIB + 4096),
        (".cargo/registry/src", MIB + 8192),
        (".cargo/git/checkouts", MIB + 4096),
        (".npm/_cacache", MIB + 4096),
        (".local/share/Trash/files", MIB),
        (".local/share/Trash/info", MIB),
        // Neighbours that must never be touched:
        (".cache/other", MIB),
        (".cargo/registry/index", MIB),
        (".cargo/bin", MIB),
        (".npm/_logs", MIB),
        (".local/share/Trash/expunged", MIB),
    ];
    let out = check_user_caches(tree);
    let expect: Vec<(&str, Risk, Vec<&str>)> = vec![
        ("thumbnails", Risk::Safe, vec![".cache/thumbnails"]),
        ("pip-cache", Risk::Safe, vec![".cache/pip/http"]),
        ("cargo-registry", Risk::Moderate, vec![".cargo/registry/cache", ".cargo/registry/src"]),
        ("cargo-git", Risk::Safe, vec![".cargo/git/checkouts"]),
        ("npm-cache", Risk::Safe, vec![".npm/_cacache"]),
        ("trash", Risk::Moderate, vec![".local/share/Trash/files", ".local/share/Trash/info"]),
    ];
    assert_eq!(out.len(), expect.len());
    for (id, risk, rel) in expect {
        let f = out.iter().find(|f| f.id == id).unwrap();
        assert_eq!(f.risk, risk, "{id}");
        assert_eq!(shown(&f.paths), in_home(&rel), "{id}");
        assert!(matches!(f.action, Action::Remove { keep_dir: true, .. }), "{id}");
        assert_eq!(removed_paths(f), in_home(&rel));
        // The dirs are kept, so only their contents are reclaimable.
        let contents: u64 = rel.iter().map(|r| size_of(tree, &h(r)).unwrap()).sum();
        assert_eq!(f.bytes, contents, "{id}");
    }
    // Nothing left to reclaim -> no findings (except empty-dir blocks).
    let emptied: Vec<(&str, u64)> = tree.iter().map(|(r, _)| (*r, 0)).collect();
    let mut r = Report::default();
    for f in check_user_caches(&emptied) {
        r.merge(linux_disk_prune::rules::CheckOutput::one(f));
    }
    assert!(r.findings.is_empty());
}

#[test]
fn user_caches_absent_dirs_produce_nothing() {
    assert!(check_user_caches(&[]).is_empty());
}

fn words() -> Words {
    Words { id: "x".into(), category: "c".into(), title: "t".into(), risk: Risk::Safe, detail: "d".into() }
}

#[test]
fn a_blocked_finding_becomes_a_manual_step() {
    let f = contents_finding(&p(HOME), words(), vec![h(".cache/x")], 5, None).unwrap();
    assert!(!f.needs_root && matches!(f.action, Action::Remove { keep_dir: true, .. }));
    let m = manual(f, "It runs.");
    assert!(matches!(m.action, Action::Manual) && m.detail.contains("It runs.") && m.detail.contains('d'));
    assert!(contents_finding(&p(HOME), words(), vec![], 5, None).is_none());
    let f = contents_finding(&p(HOME), words(), vec![h(".cache/x")], 5, Some("x clean".into())).unwrap();
    assert_eq!(f.command_text(), "x clean");
}

#[test]
fn programs_are_in_use_by_their_command_line() {
    let commands = vec!["/usr/bin/app --flag".to_string()];
    assert!(is_in_use(&commands, "bin/app"));
    assert!(!is_in_use(&commands, "bin/other"));
    assert!(!is_in_use(&vec![], ""));
}
