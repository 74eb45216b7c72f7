//! Browser, Flatpak and Electron caches. Profiles, logins and history are
//! never touched.

use vstd::prelude::*;
use vstd::utf8::{encode_utf8, is_ascii_chars, is_ascii_chars_encode_utf8};

use crate::classify::{is_one_of, one_of, strs};
use crate::order::{
    byte_lt, bytes_precede, lemma_byte_lt, lemma_lex_irreflexive, lemma_lex_total, lemma_lex_transitive, lemma_total_rearranged, lex, sorted,
    total_of, Ranking,
};
use crate::path::{
    comps, inside, join_bytes, lemma_join_comps, lossy_text, names_view, paths_view, plain_name, utf8_lossy, FsPath,
};
use crate::rules::dirs::{has_lock, held, in_use, is_in_use, Dirs, Lock};
use crate::rules::kernels::{
    found_bytes, found_paths, law_found_is_what_has_a_size, lemma_found_among, lemma_push_contains,
};
use crate::rules::measure::{
    by_path, contents_finding, contents_view, keep_found, law_sorted_paths_are_the_same_paths, lemma_by_path_among, manual, manual_view, opt_finding, opt_seq,
    push_opt, sort_paths, words, WordsView,
};
use crate::rules::{finding_views, ActionView, Finding, FindingView, Risk};
use crate::text::{join, joined, texts};

verus! {

/// A browser: where its cache and its profiles are.
pub struct Browser {
    pub id: &'static str,
    pub name: &'static str,
    pub cache_root: FsPath,
    pub profile_root: FsPath,
}

/// A browser as a value: id, name, cache root, profile root.
pub open spec fn browser_view(b: Browser) -> (Seq<char>, Seq<char>, Seq<u8>, Seq<u8>) {
    (b.id@, b.name@, b.cache_root@, b.profile_root@)
}

pub open spec fn browser_views(v: Seq<Browser>) -> Seq<(Seq<char>, Seq<char>, Seq<u8>, Seq<u8>)> {
    Seq::new(v.len(), |i: int| browser_view(v[i]))
}

fn browser(id: &'static str, name: &'static str, cache_root: FsPath, profile_root: FsPath) -> (r: Browser)
    ensures
        browser_view(r) == (id@, name@, cache_root@, profile_root@),
{
    Browser { id, name, cache_root, profile_root }
}

/// The browsers that are looked at: the Chromium family, or Firefox.
pub open spec fn browsers_of(d: Dirs, chromium: bool) -> Seq<(Seq<char>, Seq<char>, Seq<u8>, Seq<u8>)> {
    if chromium {
        seq![
            (
                "chrome-cache"@,
                "Google Chrome"@,
                join_bytes(d.cache@, encode_utf8("google-chrome"@)),
                join_bytes(d.config@, encode_utf8("google-chrome"@)),
            ),
            (
                "chromium-cache"@,
                "Chromium"@,
                join_bytes(d.cache@, encode_utf8("chromium"@)),
                join_bytes(d.config@, encode_utf8("chromium"@)),
            ),
            (
                "chromium-snap-cache"@,
                "Chromium (snap)"@,
                join_bytes(d.home@, encode_utf8("snap/chromium/common/.cache/chromium"@)),
                join_bytes(d.home@, encode_utf8("snap/chromium/common/chromium"@)),
            ),
            (
                "brave-cache"@,
                "Brave"@,
                join_bytes(d.cache@, encode_utf8("BraveSoftware/Brave-Browser"@)),
                join_bytes(d.config@, encode_utf8("BraveSoftware/Brave-Browser"@)),
            ),
            (
                "edge-cache"@,
                "Microsoft Edge"@,
                join_bytes(d.cache@, encode_utf8("microsoft-edge"@)),
                join_bytes(d.config@, encode_utf8("microsoft-edge"@)),
            ),
        ]
    } else {
        seq![
            (
                "firefox-cache"@,
                "Firefox"@,
                join_bytes(d.cache@, encode_utf8("mozilla/firefox"@)),
                join_bytes(d.home@, encode_utf8(".mozilla/firefox"@)),
            ),
            (
                "firefox-snap-cache"@,
                "Firefox (snap)"@,
                join_bytes(d.home@, encode_utf8("snap/firefox/common/.cache/mozilla/firefox"@)),
                join_bytes(d.home@, encode_utf8("snap/firefox/common/.mozilla/firefox"@)),
            ),
        ]
    }
}

/// The Chromium-family browsers.
pub fn chromium_like(d: &Dirs) -> (r: Vec<Browser>)
    ensures
        browser_views(r@) == browsers_of(*d, true),
{
    let mut v: Vec<Browser> = Vec::new();
    v.push(browser("chrome-cache", "Google Chrome", d.cache.join_str("google-chrome"), d.config.join_str("google-chrome")));
    v.push(browser("chromium-cache", "Chromium", d.cache.join_str("chromium"), d.config.join_str("chromium")));
    v.push(browser(
        "chromium-snap-cache",
        "Chromium (snap)",
        d.home.join_str("snap/chromium/common/.cache/chromium"),
        d.home.join_str("snap/chromium/common/chromium"),
    ));
    v.push(browser(
        "brave-cache",
        "Brave",
        d.cache.join_str("BraveSoftware/Brave-Browser"),
        d.config.join_str("BraveSoftware/Brave-Browser"),
    ));
    v.push(browser("edge-cache", "Microsoft Edge", d.cache.join_str("microsoft-edge"), d.config.join_str("microsoft-edge")));
    assert(browser_views(v@) =~= browsers_of(*d, true));
    v
}

/// Firefox (deb and snap).
pub fn firefox_like(d: &Dirs) -> (r: Vec<Browser>)
    ensures
        browser_views(r@) == browsers_of(*d, false),
{
    let mut v: Vec<Browser> = Vec::new();
    v.push(browser("firefox-cache", "Firefox", d.cache.join_str("mozilla/firefox"), d.home.join_str(".mozilla/firefox")));
    v.push(browser(
        "firefox-snap-cache",
        "Firefox (snap)",
        d.home.join_str("snap/firefox/common/.cache/mozilla/firefox"),
        d.home.join_str("snap/firefox/common/.mozilla/firefox"),
    ));
    assert(browser_views(v@) =~= browsers_of(*d, false));
    v
}

/// The folders in a profile that hold nothing but cached data.
pub open spec fn cache_names(chromium: bool) -> Seq<Seq<char>> {
    if chromium {
        seq!["Cache"@, "Code Cache"@, "GPUCache"@]
    } else {
        seq!["cache2"@]
    }
}

/// The cache folder `sub` of the profile `name` below a browser's cache.
pub open spec fn profile_cache(root: Seq<u8>, name: Seq<u8>, sub: Seq<char>) -> Seq<u8> {
    join_bytes(join_bytes(root, name), encode_utf8(sub))
}

/// The cache folders of the profiles named `names` below a browser's cache.
pub open spec fn profile_caches(root: Seq<u8>, names: Seq<Seq<u8>>, subs: Seq<Seq<char>>) -> Seq<Seq<u8>>
    decreases names.len(),
{
    if names.len() == 0 {
        Seq::empty()
    } else {
        profile_caches(root, names.drop_last(), subs) + Seq::new(
            subs.len(),
            |i: int| profile_cache(root, names.last(), subs[i]),
        )
    }
}

fn cache_folders(root: &FsPath, names: &Vec<Vec<u8>>, subs: &Vec<&'static str>) -> (r: Vec<FsPath>)
    ensures
        paths_view(r@) == profile_caches(root@, names_view(names@), strs(subs@)),
{
    let ghost nv = names_view(names@);
    let ghost sv = strs(subs@);
    let mut out: Vec<FsPath> = Vec::new();
    assert(paths_view(out@) =~= Seq::empty());
    for i in 0..names.len()
        invariant
            nv == names_view(names@),
            sv == strs(subs@),
            paths_view(out@) == profile_caches(root@, nv.take(i as int), sv),
    {
        let dir = root.join_name(&names[i]);
        let ghost start = paths_view(out@);
        let ghost more = Seq::new(sv.len(), |k: int| join_bytes(dir@, encode_utf8(sv[k])));
        proof {
            assert(nv.take(i + 1).drop_last() =~= nv.take(i as int));
            assert(nv.take(i + 1).last() == names@[i as int]@);
            assert(start + more.take(0) =~= start);
        }
        for k in 0..subs.len()
            invariant
                sv == strs(subs@),
                more == Seq::new(sv.len(), |k: int| join_bytes(dir@, encode_utf8(sv[k]))),
                paths_view(out@) == start + more.take(k as int),
        {
            let ghost before = out@;
            let p = dir.join_str(subs[k]);
            out.push(p);
            assert(paths_view(out@) =~= paths_view(before).push(p@));
            assert(paths_view(out@) =~= start + more.take(k + 1));
        }
        assert(more.take(subs@.len() as int) =~= more);
    }
    assert(nv.take(names@.len() as int) =~= nv);
    out
}

/// The folders that a Chromium-family browser caches in:
/// <cache>/<browser>/<profile>/{Cache,Code Cache,GPUCache}.
pub fn chromium_folders(root: &FsPath, names: &Vec<Vec<u8>>) -> (r: Vec<FsPath>)
    ensures
        paths_view(r@) == profile_caches(root@, names_view(names@), cache_names(true)),
{
    let subs: Vec<&'static str> = vec!["Cache", "Code Cache", "GPUCache"];
    assert(strs(subs@) =~= cache_names(true));
    cache_folders(root, names, &subs)
}

/// The folders that Firefox caches in: <cache>/mozilla/firefox/<profile>/cache2.
pub fn firefox_folders(root: &FsPath, names: &Vec<Vec<u8>>) -> (r: Vec<FsPath>)
    ensures
        paths_view(r@) == profile_caches(root@, names_view(names@), cache_names(false)),
{
    let subs: Vec<&'static str> = vec!["cache2"];
    assert(strs(subs@) =~= cache_names(false));
    cache_folders(root, names, &subs)
}

/// The lock that a Chromium-family browser holds in its profile folder.
pub fn chromium_lock(profile_root: &FsPath) -> (r: FsPath)
    ensures
        r@ == join_bytes(profile_root@, encode_utf8("SingletonLock"@)),
{
    profile_root.join_str("SingletonLock")
}

/// The locks that Firefox holds, one in each profile.
pub fn firefox_locks(profile_root: &FsPath, names: &Vec<Vec<u8>>) -> (r: Vec<FsPath>)
    ensures
        paths_view(r@) == profile_caches(profile_root@, names_view(names@), seq!["lock"@]),
{
    let subs: Vec<&'static str> = vec!["lock"];
    assert(strs(subs@) =~= seq!["lock"@]);
    cache_folders(profile_root, names, &subs)
}

/// What a browser's cache finding says of itself.
pub open spec fn browser_words(id: Seq<char>, name: Seq<char>, chromium: bool) -> WordsView {
    WordsView {
        id,
        category: "Browser"@,
        title: name + " disk cache"@,
        risk: Risk::Safe,
        detail: if chromium {
            name
                + "'s disk cache (web pages, images, compiled scripts). The browser rebuilds it while you browse. Bookmarks, passwords, history and cookies are stored elsewhere and are not touched."@
        } else {
            name
                + "'s disk cache. Firefox rebuilds it while you browse; profiles and bookmarks are not touched."@
        },
    }
}

/// What was read about a browser's cache.
pub struct BrowserReading {
    /// The names in the browser's cache: its profiles, and whatever else is there.
    pub names: Vec<Vec<u8>>,
    /// Bytes inside each of the folders that the browser may cache in, if it is
    /// a directory.
    pub sizes: Vec<Option<u64>>,
    pub running: bool,
}

/// The folders that browser `b` may cache in.
pub open spec fn browser_dirs(b: (Seq<char>, Seq<char>, Seq<u8>, Seq<u8>), chromium: bool, r: BrowserReading) -> Seq<Seq<u8>> {
    profile_caches(b.2, names_view(r.names@), cache_names(chromium))
}

/// Each folder of browser `b` was looked at, and the sizes add up.
pub open spec fn reading_fits(b: (Seq<char>, Seq<char>, Seq<u8>, Seq<u8>), chromium: bool, r: BrowserReading) -> bool {
    let n = browser_dirs(b, chromium, r).len();
    r.sizes@.len() == n && found_bytes(r.sizes@, n as int) <= u64::MAX
}

/// The finding about a browser's cache folders, as far as they were found; a
/// manual step while the browser is running.
pub open spec fn browser_finding_view(
    home: Seq<u8>,
    b: (Seq<char>, Seq<char>, Seq<u8>, Seq<u8>),
    chromium: bool,
    r: BrowserReading,
) -> Option<FindingView> {
    let dirs = browser_dirs(b, chromium, r);
    match contents_view(
        home,
        browser_words(b.0, b.1, chromium),
        by_path(found_paths(dirs, r.sizes@)),
        found_bytes(r.sizes@, dirs.len() as int) as u64,
        None,
    ) {
        Some(f) => Some(
            if r.running {
                manual_view(f, b.1 + " is running: close it first, then Re-analyze."@)
            } else {
                f
            },
        ),
        None => None,
    }
}

/// The finding about a browser's cache.
pub fn browser_finding(home: &FsPath, b: &Browser, chromium: bool, reading: &BrowserReading) -> (r: Option<Finding>)
    requires
        reading_fits(browser_view(*b), chromium, *reading),
    ensures
        opt_finding(r) == browser_finding_view(home@, browser_view(*b), chromium, *reading),
{
    let dirs = if chromium {
        chromium_folders(&b.cache_root, &reading.names)
    } else {
        firefox_folders(&b.cache_root, &reading.names)
    };
    assert(paths_view(dirs@) == browser_dirs(browser_view(*b), chromium, *reading));
    assert(paths_view(dirs@).len() == dirs@.len());
    let (found, bytes) = keep_found(&dirs, &reading.sizes);
    let list = sort_paths(&found);
    let detail = if chromium {
        b.name.to_owned().concat(
            "'s disk cache (web pages, images, compiled scripts). The browser rebuilds it while you browse. Bookmarks, passwords, history and cookies are stored elsewhere and are not touched.",
        )
    } else {
        b.name.to_owned().concat(
            "'s disk cache. Firefox rebuilds it while you browse; profiles and bookmarks are not touched.",
        )
    };
    let w = words(b.id, "Browser", b.name.to_owned().concat(" disk cache").as_str(), Risk::Safe, detail.as_str());
    match contents_finding(home, w, list, bytes, None) {
        Some(f) => if reading.running {
            Some(manual(f, b.name.to_owned().concat(" is running: close it first, then Re-analyze.").as_str()))
        } else {
            Some(f)
        },
        None => None,
    }
}

/// A Flatpak app's folder in ~/.var/app: its name, and the bytes in its cache
/// if that is a directory.
pub struct FlatpakApp {
    pub name: Vec<u8>,
    pub bytes: Option<u64>,
}

/// The cache of the Flatpak app `name`: ~/.var/app/<name>/cache.
pub open spec fn app_cache(home: Seq<u8>, name: Seq<u8>) -> Seq<u8> {
    join_bytes(join_bytes(join_bytes(home, encode_utf8(".var/app"@)), name), encode_utf8("cache"@))
}

/// The app has a cache, and no running process names it.
pub open spec fn idle_app(a: FlatpakApp, commands: Seq<Seq<char>>) -> bool {
    a.bytes is Some && !in_use(commands, lossy_text(a.name@))
}

/// The caches of the apps that no running process names, and their bytes.
pub open spec fn idle_caches(home: Seq<u8>, apps: Seq<FlatpakApp>, commands: Seq<Seq<char>>) -> Seq<Seq<u8>>
    decreases apps.len(),
{
    if apps.len() == 0 {
        Seq::empty()
    } else {
        let rest = idle_caches(home, apps.drop_last(), commands);
        let a = apps.last();
        if idle_app(a, commands) {
            rest.push(app_cache(home, a.name@))
        } else {
            rest
        }
    }
}

pub open spec fn idle_bytes(apps: Seq<FlatpakApp>, commands: Seq<Seq<char>>) -> nat
    decreases apps.len(),
{
    if apps.len() == 0 {
        0
    } else {
        let a = apps.last();
        idle_bytes(apps.drop_last(), commands) + if idle_app(a, commands) {
            a.bytes->0 as nat
        } else {
            0
        }
    }
}

/// The apps with a cache that are running.
pub open spec fn busy_apps(apps: Seq<FlatpakApp>, commands: Seq<Seq<char>>) -> Seq<Seq<char>>
    decreases apps.len(),
{
    if apps.len() == 0 {
        Seq::empty()
    } else {
        let rest = busy_apps(apps.drop_last(), commands);
        let a = apps.last();
        if a.bytes is Some && in_use(commands, lossy_text(a.name@)) {
            rest.push(lossy_text(a.name@))
        } else {
            rest
        }
    }
}

proof fn lemma_idle_grows(apps: Seq<FlatpakApp>, commands: Seq<Seq<char>>, k: int)
    requires
        0 <= k <= apps.len(),
    ensures
        idle_bytes(apps.take(k), commands) <= idle_bytes(apps, commands),
    decreases apps.len(),
{
    if k < apps.len() {
        assert(apps.drop_last().take(k) =~= apps.take(k));
        lemma_idle_grows(apps.drop_last(), commands, k);
    } else {
        assert(apps.take(k) =~= apps);
    }
}

/// A detail that also names what was skipped.
pub open spec fn with_skipped(detail: Seq<char>, busy: Seq<Seq<char>>) -> Seq<char> {
    if busy.len() == 0 {
        detail
    } else {
        detail + "\nSkipped because running: "@ + join(busy, ", "@) + "."@
    }
}

fn add_skipped(detail: &str, busy: &Vec<String>) -> (r: String)
    ensures
        r@ == with_skipped(detail@, texts(busy@)),
{
    assert(texts(busy@).len() == busy@.len());
    if busy.len() == 0 {
        detail.to_owned()
    } else {
        detail.to_owned().concat("\nSkipped because running: ").concat(joined(busy, ", ").as_str()).concat(".")
    }
}

/// The finding about the Flatpak apps' caches.
pub open spec fn flatpak_app_view(home: Seq<u8>, apps: Seq<FlatpakApp>, commands: Seq<Seq<char>>) -> Option<FindingView> {
    contents_view(
        home,
        (WordsView {
            id: "flatpak-app-cache"@,
            category: "Browser"@,
            title: "Flatpak app caches"@,
            risk: Risk::Safe,
            detail: with_skipped(
                "Caches of Flatpak apps (their private ~/.cache). Apps rebuild them on demand."@,
                busy_apps(apps, commands),
            ),
        }),
        by_path(idle_caches(home, apps, commands)),
        idle_bytes(apps, commands) as u64,
        None,
    )
}

/// Flatpak apps keep their XDG cache in ~/.var/app/<id>/cache. Apps whose name
/// occurs in a running process's command line are skipped.
pub fn flatpak_app_finding(home: &FsPath, apps: &Vec<FlatpakApp>, commands: &Vec<String>) -> (r: Option<Finding>)
    requires
        idle_bytes(apps@, texts(commands@)) <= u64::MAX,
    ensures
        opt_finding(r) == flatpak_app_view(home@, apps@, texts(commands@)),
{
    let ghost cmds = texts(commands@);
    let mut idle: Vec<FsPath> = Vec::new();
    let mut busy: Vec<String> = Vec::new();
    let mut bytes: u64 = 0;
    proof {
        assert(paths_view(idle@) =~= Seq::empty());
        assert(texts(busy@) =~= Seq::empty());
    }
    for i in 0..apps.len()
        invariant
            cmds == texts(commands@),
            idle_bytes(apps@, cmds) <= u64::MAX,
            paths_view(idle@) == idle_caches(home@, apps@.take(i as int), cmds),
            texts(busy@) == busy_apps(apps@.take(i as int), cmds),
            bytes == idle_bytes(apps@.take(i as int), cmds),
    {
        let a = &apps[i];
        proof {
            assert(apps@.take(i + 1).drop_last() =~= apps@.take(i as int));
            lemma_idle_grows(apps@, cmds, i + 1);
        }
        if let Some(b) = a.bytes {
            let ghost (idle0, busy0) = (idle@, busy@);
            let n = utf8_lossy(&a.name);
            if is_in_use(commands, n.as_str()) {
                busy.push(n);
                assert(texts(busy@) =~= texts(busy0).push(n@));
            } else {
                let p = flatpak_app_cache(home, &a.name);
                idle.push(p);
                assert(paths_view(idle@) =~= paths_view(idle0).push(p@));
                bytes += b;
            }
        }
    }
    assert(apps@.take(apps@.len() as int) =~= apps@);
    let detail = add_skipped(
        "Caches of Flatpak apps (their private ~/.cache). Apps rebuild them on demand.",
        &busy,
    );
    let w = words("flatpak-app-cache", "Browser", "Flatpak app caches", Risk::Safe, detail.as_str());
    contents_finding(home, w, sort_paths(&idle), bytes, None)
}

/// Where Flatpak apps keep their data, below the home.
pub fn flatpak_app_root(home: &FsPath) -> (r: FsPath)
    ensures
        r@ == join_bytes(home@, encode_utf8(".var/app"@)),
{
    home.join_str(".var/app")
}

/// The cache of the Flatpak app `name`.
pub fn flatpak_app_cache(home: &FsPath, name: &Vec<u8>) -> (r: FsPath)
    ensures
        r@ == app_cache(home@, name@),
{
    flatpak_app_root(home).join_name(name).join_str("cache")
}

/// A folder of an app in ~/.config.
pub struct ConfigApp {
    pub name: Vec<u8>,
    pub is_dir: bool,
    /// Its `Cache` holds the index of a Chromium disk cache (`index` or
    /// `Cache_Data/index`).
    pub is_chromium: bool,
    /// Bytes inside `Cache`, `Code Cache`, `GPUCache` and `CachedData`, each if
    /// it is a directory.
    pub sizes: Vec<Option<u64>>,
    pub singleton: Lock,
    pub code_lock: Lock,
}

/// The browsers, which have rules of their own.
pub open spec fn own_rules() -> Seq<Seq<char>> {
    seq!["google-chrome"@, "chromium"@, "BraveSoftware"@, "microsoft-edge"@]
}

/// The cache folders of an Electron app.
pub open spec fn electron_dirs(config: Seq<u8>, name: Seq<u8>) -> Seq<Seq<u8>> {
    let app = join_bytes(config, name);
    seq![
        join_bytes(app, encode_utf8("Cache"@)),
        join_bytes(app, encode_utf8("Code Cache"@)),
        join_bytes(app, encode_utf8("GPUCache"@)),
        join_bytes(app, encode_utf8("CachedData"@)),
    ]
}

/// Where to look at a folder in ~/.config.
pub struct AppLook {
    /// Its cache folders.
    pub caches: Vec<FsPath>,
    /// One of these exists if they are Chromium disk caches.
    pub index: Vec<FsPath>,
    pub singleton: FsPath,
    pub code_lock: FsPath,
}

/// Where to look at the folder `name` in ~/.config.
pub fn app_look(config: &FsPath, name: &Vec<u8>) -> (r: AppLook)
    ensures
        paths_view(r.caches@) == electron_dirs(config@, name@),
        paths_view(r.index@) == seq![
            join_bytes(electron_dirs(config@, name@)[0], encode_utf8("index"@)),
            join_bytes(electron_dirs(config@, name@)[0], encode_utf8("Cache_Data/index"@)),
        ],
        r.singleton@ == join_bytes(join_bytes(config@, name@), encode_utf8("SingletonLock"@)),
        r.code_lock@ == join_bytes(join_bytes(config@, name@), encode_utf8("code.lock"@)),
{
    let app = config.join_name(name);
    let cache = app.join_str("Cache");
    let index: Vec<FsPath> = vec![cache.join_str("index"), cache.join_str("Cache_Data/index")];
    let caches: Vec<FsPath> = vec![
        cache,
        app.join_str("Code Cache"),
        app.join_str("GPUCache"),
        app.join_str("CachedData"),
    ];
    proof {
        assert(paths_view(caches@) =~= electron_dirs(config@, name@));
        assert(paths_view(index@) =~= seq![
            join_bytes(electron_dirs(config@, name@)[0], encode_utf8("index"@)),
            join_bytes(electron_dirs(config@, name@)[0], encode_utf8("Cache_Data/index"@)),
        ]);
    }
    AppLook { caches, index, singleton: app.join_str("SingletonLock"), code_lock: app.join_str("code.lock") }
}

/// An Electron app other than the browsers.
pub open spec fn electron_app(a: ConfigApp) -> bool {
    a.is_dir && a.is_chromium && !one_of(lossy_text(a.name@), own_rules())
}

pub open spec fn app_running(a: ConfigApp, host: Seq<char>, pids: Seq<u32>) -> bool {
    held(a.singleton, host, pids) || held(a.code_lock, host, pids)
}

/// The order of the apps: by the bytes of their names, then by position.
pub open spec fn app_before(apps: Seq<ConfigApp>, i: int, j: int) -> bool {
    lex(apps[i].name@, apps[j].name@, byte_lt()) || (apps[i].name@ == apps[j].name@ && i < j)
}

pub open spec fn app_order(apps: Seq<ConfigApp>, o: Seq<usize>) -> bool {
    &&& crate::order::rearranges(o, apps.len() as int)
    &&& forall|i: int, j: int| 0 <= i < j < o.len() ==> app_before(apps, #[trigger] o[i] as int, #[trigger] o[j] as int)
}

/// The folders of the idle apps among the first `k` in order.
pub open spec fn electron_idle(apps: Seq<ConfigApp>, o: Seq<usize>, config: Seq<u8>, host: Seq<char>, pids: Seq<u32>, k: int) -> Seq<
    Seq<u8>,
>
    decreases k,
{
    if k <= 0 {
        Seq::empty()
    } else {
        let rest = electron_idle(apps, o, config, host, pids, k - 1);
        let a = apps[o[k - 1] as int];
        if electron_app(a) && !app_running(a, host, pids) {
            rest + found_paths(electron_dirs(config, a.name@), a.sizes@)
        } else {
            rest
        }
    }
}

pub open spec fn electron_bytes(apps: Seq<ConfigApp>, o: Seq<usize>, host: Seq<char>, pids: Seq<u32>, k: int) -> nat
    decreases k,
{
    if k <= 0 {
        0
    } else {
        let a = apps[o[k - 1] as int];
        electron_bytes(apps, o, host, pids, k - 1) + if electron_app(a) && !app_running(a, host, pids) {
            found_bytes(a.sizes@, 4)
        } else {
            0
        }
    }
}

pub open spec fn electron_busy(apps: Seq<ConfigApp>, o: Seq<usize>, host: Seq<char>, pids: Seq<u32>, k: int) -> Seq<Seq<char>>
    decreases k,
{
    if k <= 0 {
        Seq::empty()
    } else {
        let rest = electron_busy(apps, o, host, pids, k - 1);
        let a = apps[o[k - 1] as int];
        if electron_app(a) && app_running(a, host, pids) {
            rest.push(lossy_text(a.name@))
        } else {
            rest
        }
    }
}

/// The bytes in the cache folders of each app.
pub open spec fn app_sizes(apps: Seq<ConfigApp>) -> Seq<nat> {
    Seq::new(apps.len(), |i: int| found_bytes(apps[i].sizes@, 4))
}

proof fn lemma_electron_bound(apps: Seq<ConfigApp>, o: Seq<usize>, host: Seq<char>, pids: Seq<u32>, k: int)
    requires
        0 <= k <= o.len(),
        forall|i: int| 0 <= i < o.len() ==> (#[trigger] o[i]) < apps.len(),
    ensures
        electron_bytes(apps, o, host, pids, k) <= total_of(Seq::new(k as nat, |i: int| app_sizes(apps)[o[i] as int])),
    decreases k,
{
    let s = Seq::new(k as nat, |i: int| app_sizes(apps)[o[i] as int]);
    if k > 0 {
        lemma_electron_bound(apps, o, host, pids, k - 1);
        assert(s.drop_last() =~= Seq::new((k - 1) as nat, |i: int| app_sizes(apps)[o[i] as int]));
    }
}

struct ByAppName<'a> {
    apps: &'a Vec<ConfigApp>,
}

impl<'a> Ranking for ByAppName<'a> {
    closed spec fn size(&self) -> nat {
        self.apps@.len()
    }

    closed spec fn before(&self, i: int, j: int) -> bool {
        app_before(self.apps@, i, j)
    }

    proof fn irreflexive(&self, i: int) {
        lemma_lex_irreflexive(self.apps@[i].name@, byte_lt());
    }

    proof fn transitive(&self, i: int, j: int, k: int) {
        lemma_byte_lt();
        let (a, b, c) = (self.apps@[i].name@, self.apps@[j].name@, self.apps@[k].name@);
        if lex(a, b, byte_lt()) && lex(b, c, byte_lt()) {
            lemma_lex_transitive(a, b, c, byte_lt());
        }
    }

    proof fn total(&self, i: int, j: int) {
        lemma_byte_lt();
        let (a, b) = (self.apps@[i].name@, self.apps@[j].name@);
        if a != b {
            lemma_lex_total(a, b, byte_lt());
        }
    }

    fn precedes(&self, i: usize, j: usize) -> (r: bool) {
        bytes_precede(&self.apps[i].name, &self.apps[j].name) || (crate::path::same_name(
            &self.apps[i].name,
            &self.apps[j].name,
        ) && i < j)
    }
}

/// The finding about the Electron apps, taken in the order `o`.
pub open spec fn electron_view(
    home: Seq<u8>,
    config: Seq<u8>,
    apps: Seq<ConfigApp>,
    o: Seq<usize>,
    host: Seq<char>,
    pids: Seq<u32>,
) -> Option<FindingView> {
    let n = apps.len() as int;
    contents_view(
        home,
        (WordsView {
            id: "electron-cache"@,
            category: "App cache"@,
            title: "Electron app caches"@,
            risk: Risk::Safe,
            detail: with_skipped(
                "HTTP, script and GPU caches of Electron apps (editors, chat apps, …). Only the Cache, Code Cache, GPUCache and CachedData folders are emptied; settings, logins and local storage are kept. Apps rebuild them on the next start."@,
                electron_busy(apps, o, host, pids, n),
            ),
        }),
        electron_idle(apps, o, config, host, pids, n),
        electron_bytes(apps, o, host, pids, n) as u64,
        None,
    )
}

/// Electron / Chromium-embedding apps in ~/.config (VS Code, Cursor, Slack,
/// Discord, …): only their HTTP / code / GPU cache children, and only when
/// they really are Chromium disk caches. Running apps are skipped.
pub fn electron_findings(d: &Dirs, apps: &Vec<ConfigApp>, host: &str, pids: &Vec<u32>) -> (r: Vec<Finding>)
    requires
        forall|i: int| 0 <= i < apps@.len() ==> (#[trigger] apps@[i]).sizes@.len() == 4,
        total_of(app_sizes(apps@)) <= u64::MAX,
    ensures
        exists|o: Seq<usize>| #[trigger]
            app_order(apps@, o) && finding_views(r@) == opt_seq(
                electron_view(d.home@, d.config@, apps@, o, host@, pids@),
            ),
{
    let skip: Vec<&'static str> = vec!["google-chrome", "chromium", "BraveSoftware", "microsoft-edge"];
    assert(strs(skip@) =~= own_rules());
    let ranking = ByAppName { apps };
    let o = sorted(&ranking, apps.len());
    proof {
        crate::order::lemma_order_rearranges(&ranking, o@);
        assert(app_order(apps@, o@));
        lemma_electron_bound(apps@, o@, host@, pids@, o@.len() as int);
        lemma_total_rearranged(app_sizes(apps@), o@);
    }
    let n: usize = apps.len();
    let mut idle: Vec<FsPath> = Vec::new();
    let mut busy: Vec<String> = Vec::new();
    let mut bytes: u64 = 0;
    proof {
        assert(paths_view(idle@) =~= Seq::empty());
        assert(texts(busy@) =~= Seq::empty());
    }
    for k in 0..n
        invariant
            n == apps@.len(),
            o@.len() == n,
            app_order(apps@, o@),
            strs(skip@) == own_rules(),
            forall|i: int| 0 <= i < apps@.len() ==> (#[trigger] apps@[i]).sizes@.len() == 4,
            electron_bytes(apps@, o@, host@, pids@, n as int) <= u64::MAX,
            paths_view(idle@) == electron_idle(apps@, o@, d.config@, host@, pids@, k as int),
            texts(busy@) == electron_busy(apps@, o@, host@, pids@, k as int),
            bytes == electron_bytes(apps@, o@, host@, pids@, k as int),
    {
        let a = &apps[o[k]];
        proof {
            lemma_electron_grows(apps@, o@, host@, pids@, k + 1, n as int);
            assert(apps@[o@[k as int] as int].sizes@.len() == 4);
        }
        let name = utf8_lossy(&a.name);
        if a.is_dir && a.is_chromium && !is_one_of(name.as_str(), &skip) {
            let ghost (idle0, busy0) = (idle@, busy@);
            if has_lock(&a.singleton, host, pids) || has_lock(&a.code_lock, host, pids) {
                busy.push(name);
                assert(texts(busy@) =~= texts(busy0).push(name@));
            } else {
                let app = d.config.join_name(&a.name);
                let mut list: Vec<FsPath> = Vec::new();
                list.push(app.join_str("Cache"));
                list.push(app.join_str("Code Cache"));
                list.push(app.join_str("GPUCache"));
                list.push(app.join_str("CachedData"));
                assert(paths_view(list@) =~= electron_dirs(d.config@, a.name@));
                bytes = crate::rules::kernels::add_existing(&list, &a.sizes, &mut idle, bytes);
            }
        }
    }
    let detail = add_skipped(
        "HTTP, script and GPU caches of Electron apps (editors, chat apps, …). Only the Cache, Code Cache, GPUCache and CachedData folders are emptied; settings, logins and local storage are kept. Apps rebuild them on the next start.",
        &busy,
    );
    let w = words("electron-cache", "App cache", "Electron app caches", Risk::Safe, detail.as_str());
    let f = contents_finding(&d.home, w, idle, bytes, None);
    let mut out: Vec<Finding> = Vec::new();
    assert(finding_views(out@) =~= Seq::empty());
    push_opt(&mut out, f);
    assert(finding_views(out@) =~= opt_seq(electron_view(d.home@, d.config@, apps@, o@, host@, pids@)));
    out
}

proof fn lemma_electron_grows(apps: Seq<ConfigApp>, o: Seq<usize>, host: Seq<char>, pids: Seq<u32>, k: int, n: int)
    requires
        0 <= k <= n,
    ensures
        electron_bytes(apps, o, host, pids, k) <= electron_bytes(apps, o, host, pids, n),
    decreases n,
{
    if k < n {
        lemma_electron_grows(apps, o, host, pids, k, n - 1);
    }
}

/// The findings about the first `k` browsers.
pub open spec fn browsers_found(
    home: Seq<u8>,
    list: Seq<(Seq<char>, Seq<char>, Seq<u8>, Seq<u8>)>,
    chromium: bool,
    readings: Seq<BrowserReading>,
    k: int,
) -> Seq<FindingView>
    decreases k,
{
    if k <= 0 {
        Seq::empty()
    } else {
        browsers_found(home, list, chromium, readings, k - 1) + opt_seq(
            browser_finding_view(home, list[k - 1], chromium, readings[k - 1]),
        )
    }
}

/// There is a reading for each browser, and each fits.
pub open spec fn readings_fit(
    list: Seq<(Seq<char>, Seq<char>, Seq<u8>, Seq<u8>)>,
    chromium: bool,
    readings: Seq<BrowserReading>,
) -> bool {
    &&& readings.len() == list.len()
    &&& forall|i: int| 0 <= i < readings.len() ==> reading_fits(list[i], chromium, #[trigger] readings[i])
}

fn add_browsers(out: &mut Vec<Finding>, home: &FsPath, list: &Vec<Browser>, chromium: bool, readings: &Vec<BrowserReading>)
    requires
        readings_fit(browser_views(list@), chromium, readings@),
    ensures
        finding_views(final(out)@) == finding_views(old(out)@) + browsers_found(
            home@,
            browser_views(list@),
            chromium,
            readings@,
            list@.len() as int,
        ),
{
    let ghost bv = browser_views(list@);
    let ghost start = finding_views(out@);
    assert(start + Seq::<FindingView>::empty() =~= start);
    for i in 0..list.len()
        invariant
            bv == browser_views(list@),
            readings_fit(bv, chromium, readings@),
            finding_views(out@) == start + browsers_found(home@, bv, chromium, readings@, i as int),
    {
        assert(reading_fits(bv[i as int], chromium, readings@[i as int]));
        let f = browser_finding(home, &list[i], chromium, &readings[i]);
        push_opt(out, f);
        assert(finding_views(out@) =~= start + browsers_found(home@, bv, chromium, readings@, i + 1));
    }
}

/// Disk caches of the browsers: Chromium-family ones first, then Firefox, each
/// with what was read about it; then those of the Flatpak apps. Profiles,
/// cookies and history live elsewhere and are never touched.
pub fn browser_findings(
    d: &Dirs,
    chromium: &Vec<BrowserReading>,
    firefox: &Vec<BrowserReading>,
    apps: &Vec<FlatpakApp>,
    commands: &Vec<String>,
) -> (r: Vec<Finding>)
    requires
        readings_fit(browsers_of(*d, true), true, chromium@),
        readings_fit(browsers_of(*d, false), false, firefox@),
        idle_bytes(apps@, texts(commands@)) <= u64::MAX,
    ensures
        finding_views(r@) == browsers_found(d.home@, browsers_of(*d, true), true, chromium@, chromium@.len() as int)
            + browsers_found(d.home@, browsers_of(*d, false), false, firefox@, firefox@.len() as int) + opt_seq(
            flatpak_app_view(d.home@, apps@, texts(commands@)),
        ),
{
    let mut out: Vec<Finding> = Vec::new();
    assert(finding_views(out@) =~= Seq::empty());
    let list = chromium_like(d);
    assert(browser_views(list@).len() == list@.len());
    add_browsers(&mut out, &d.home, &list, true, chromium);
    assert(finding_views(out@) =~= browsers_found(d.home@, browsers_of(*d, true), true, chromium@, chromium@.len() as int));
    let list = firefox_like(d);
    assert(browser_views(list@).len() == list@.len());
    add_browsers(&mut out, &d.home, &list, false, firefox);
    let f = flatpak_app_finding(&d.home, apps, commands);
    push_opt(&mut out, f);
    out
}

/// The cache of a running browser is never removed by the app.
pub proof fn law_running_browser_is_left_alone(
    home: Seq<u8>,
    b: (Seq<char>, Seq<char>, Seq<u8>, Seq<u8>),
    chromium: bool,
    r: BrowserReading,
)
    requires
        r.running,
    ensures
        browser_finding_view(home, b, chromium, r) matches Some(f) ==> !crate::rules::actionable(f.action, f.needs_root),
{
}

/// `p` is a cache folder of one of the profiles that were listed for browser `b`.
pub open spec fn in_a_profile(b: (Seq<char>, Seq<char>, Seq<u8>, Seq<u8>), chromium: bool, r: BrowserReading, p: Seq<u8>) -> bool {
    exists|n: int, k: int|
        0 <= n < r.names@.len() && 0 <= k < cache_names(chromium).len() && p == #[trigger] profile_cache(
            b.2,
            r.names@[n]@,
            cache_names(chromium)[k],
        )
}

proof fn lemma_profile_caches(root: Seq<u8>, names: Seq<Seq<u8>>, subs: Seq<Seq<char>>, p: Seq<u8>)
    requires
        profile_caches(root, names, subs).contains(p),
    ensures
        exists|n: int, k: int| 0 <= n < names.len() && 0 <= k < subs.len() && p == #[trigger] profile_cache(root, names[n], subs[k]),
    decreases names.len(),
{
    if names.len() > 0 {
        let front = names.drop_last();
        let rest = profile_caches(root, front, subs);
        let all = profile_caches(root, names, subs);
        let w = choose|w: int| 0 <= w < all.len() && all[w] == p;
        if w < rest.len() {
            assert(rest[w] == p);
            lemma_profile_caches(root, front, subs, p);
            let (n, k) = choose|n: int, k: int|
                0 <= n < front.len() && 0 <= k < subs.len() && p == #[trigger] profile_cache(root, front[n], subs[k]);
            assert(p == profile_cache(root, names[n], subs[k]));
        } else {
            assert(p == profile_cache(root, names[names.len() - 1], subs[w - rest.len()]));
        }
    }
}

/// Whatever the finding about a browser names is a cache folder of one of its
/// profiles, and nothing but what it names is emptied; the folder itself stays.
pub proof fn law_only_cache_folders_are_emptied(
    home: Seq<u8>,
    b: (Seq<char>, Seq<char>, Seq<u8>, Seq<u8>),
    chromium: bool,
    r: BrowserReading,
    p: Seq<u8>,
)
    requires
        reading_fits(b, chromium, r),
        browser_finding_view(home, b, chromium, r) matches Some(f) && f.paths.contains(p),
    ensures
        in_a_profile(b, chromium, r, p),
        browser_finding_view(home, b, chromium, r) matches Some(f) && (f.action is Manual || f.action == (ActionView::Remove {
            paths: f.paths,
            keep_dir: true,
        })),
{
    let dirs = browser_dirs(b, chromium, r);
    let found = found_paths(dirs, r.sizes@);
    lemma_found_among(dirs, r.sizes@, p);
    assert(r.sizes.len() == dirs.len());
    lemma_by_path_among(found, p);
    lemma_profile_caches(b.2, names_view(r.names@), cache_names(chromium), p);
    let names = names_view(r.names@);
    let (n, k) = choose|n: int, k: int|
        0 <= n < names.len() && 0 <= k < cache_names(chromium).len() && p == #[trigger] profile_cache(
            b.2,
            names[n],
            cache_names(chromium)[k],
        );
    assert(p == profile_cache(b.2, r.names@[n]@, cache_names(chromium)[k]));
}

proof fn lemma_cache_names(chromium: bool, k: int)
    requires
        0 <= k < cache_names(chromium).len(),
    ensures
        plain_name(encode_utf8(cache_names(chromium)[k])),
{
    reveal_strlit("Cache");
    reveal_strlit("Code Cache");
    reveal_strlit("GPUCache");
    reveal_strlit("cache2");
    let s = cache_names(chromium)[k];
    assert(is_ascii_chars(s));
    is_ascii_chars_encode_utf8(s);
    let e = encode_utf8(s);
    assert(e.len() == s.len() && s.len() > 2);
    assert forall|i: int| 0 <= i < e.len() implies e[i] != 47 by {
        assert(s[i] as u8 == e[i]);
        assert(s[i] != '/');
    }
}

/// What a profile keeps beside its cache folders (bookmarks, logins, cookies,
/// history) is in none of the folders that are emptied, be it the same profile
/// or another.
pub proof fn law_profile_data_stays(root: Seq<u8>, chromium: bool, name: Seq<u8>, k: int, other: Seq<u8>, data: Seq<u8>, q: Seq<u8>)
    requires
        0 <= k < cache_names(chromium).len(),
        plain_name(name),
        plain_name(other),
        plain_name(data),
        forall|i: int| 0 <= i < cache_names(chromium).len() ==> data != encode_utf8(#[trigger] cache_names(chromium)[i]),
        inside(q, join_bytes(join_bytes(root, other), data)),
    ensures
        !inside(q, profile_cache(root, name, cache_names(chromium)[k])),
{
    let sub = encode_utf8(cache_names(chromium)[k]);
    let n = comps(root).len() as int;
    lemma_cache_names(chromium, k);
    lemma_join_comps(root, name);
    lemma_join_comps(join_bytes(root, name), sub);
    lemma_join_comps(root, other);
    lemma_join_comps(join_bytes(root, other), data);
    let a = comps(join_bytes(join_bytes(root, other), data));
    let b = comps(profile_cache(root, name, cache_names(chromium)[k]));
    assert(a[n + 1] == data && b[n + 1] == sub);
    if inside(q, profile_cache(root, name, cache_names(chromium)[k])) {
        assert(comps(q).take(a.len() as int)[n + 1] == data);
        assert(comps(q).take(b.len() as int)[n + 1] == sub);
    }
}

/// Where a browser keeps its profiles outside its cache, nothing of them is in
/// a folder that is emptied.
pub proof fn law_profiles_lie_apart(root: Seq<u8>, profiles: Seq<u8>, chromium: bool, name: Seq<u8>, k: int, q: Seq<u8>)
    requires
        0 <= k < cache_names(chromium).len(),
        plain_name(name),
        !inside(root, profiles),
        !inside(profiles, root),
        inside(q, profiles),
    ensures
        !inside(q, profile_cache(root, name, cache_names(chromium)[k])),
{
    let sub = encode_utf8(cache_names(chromium)[k]);
    lemma_cache_names(chromium, k);
    lemma_join_comps(root, name);
    lemma_join_comps(join_bytes(root, name), sub);
    let (r, p, c) = (comps(root), comps(profiles), comps(profile_cache(root, name, cache_names(chromium)[k])));
    if inside(q, profile_cache(root, name, cache_names(chromium)[k])) {
        let t = comps(q);
        assert forall|i: int| 0 <= i < r.len() implies r[i] == t[i] by {
            assert(c[i] == r[i]);
            assert(t.take(c.len() as int)[i] == c[i]);
        }
        assert forall|i: int| 0 <= i < p.len() implies p[i] == t[i] by {
            assert(t.take(p.len() as int)[i] == p[i]);
        }
        if r.len() <= p.len() {
            assert(p.take(r.len() as int) =~= r);
        } else {
            assert(r.take(p.len() as int) =~= p);
        }
    }
}

/// Whatever is emptied of an Electron app belongs to one that is not running.
pub proof fn law_running_apps_are_skipped(
    apps: Seq<ConfigApp>,
    o: Seq<usize>,
    config: Seq<u8>,
    host: Seq<char>,
    pids: Seq<u32>,
    k: int,
    p: Seq<u8>,
)
    requires
        electron_idle(apps, o, config, host, pids, k).contains(p),
    ensures
        exists|i: int|
            0 <= i < k && electron_app(apps[#[trigger] o[i] as int]) && !app_running(apps[o[i] as int], host, pids) && found_paths(
                electron_dirs(config, apps[o[i] as int].name@),
                apps[o[i] as int].sizes@,
            ).contains(p),
    decreases k,
{
    let rest = electron_idle(apps, o, config, host, pids, k - 1);
    if k > 0 {
        if rest.contains(p) {
            law_running_apps_are_skipped(apps, o, config, host, pids, k - 1, p);
        } else {
            let a = apps[o[k - 1] as int];
            let own = found_paths(electron_dirs(config, a.name@), a.sizes@);
            let all = electron_idle(apps, o, config, host, pids, k);
            let w = choose|w: int| 0 <= w < all.len() && all[w] == p;
            if w < rest.len() {
                assert(rest[w] == p);
            } else {
                assert(own[w - rest.len()] == p);
            }
        }
    }
}

/// Whatever is emptied of a Flatpak app is its cache folder, and belongs to one
/// that no process names.
pub proof fn law_running_flatpak_apps_are_skipped(home: Seq<u8>, apps: Seq<FlatpakApp>, commands: Seq<Seq<char>>, p: Seq<u8>)
    requires
        apps.len() <= usize::MAX,
        flatpak_app_view(home, apps, commands) matches Some(f) && f.paths.contains(p),
    ensures
        exists|i: int| 0 <= i < apps.len() && app_cache(home, (#[trigger] apps[i]).name@) == p && idle_app(apps[i], commands),
        flatpak_app_view(home, apps, commands) matches Some(f) && f.action == (ActionView::Remove { paths: f.paths, keep_dir: true }),
{
    lemma_idle_len(home, apps, commands);
    lemma_by_path_among(idle_caches(home, apps, commands), p);
    lemma_idle_caches(home, apps, commands, p);
}

proof fn lemma_idle_len(home: Seq<u8>, apps: Seq<FlatpakApp>, commands: Seq<Seq<char>>)
    ensures
        idle_caches(home, apps, commands).len() <= apps.len(),
    decreases apps.len(),
{
    if apps.len() > 0 {
        lemma_idle_len(home, apps.drop_last(), commands);
    }
}

proof fn lemma_idle_caches(home: Seq<u8>, apps: Seq<FlatpakApp>, commands: Seq<Seq<char>>, p: Seq<u8>)
    requires
        idle_caches(home, apps, commands).contains(p),
    ensures
        exists|i: int| 0 <= i < apps.len() && app_cache(home, (#[trigger] apps[i]).name@) == p && idle_app(apps[i], commands),
    decreases apps.len(),
{
    if apps.len() > 0 {
        let rest = idle_caches(home, apps.drop_last(), commands);
        if rest.contains(p) {
            lemma_idle_caches(home, apps.drop_last(), commands, p);
            let i = choose|i: int|
                0 <= i < apps.drop_last().len() && app_cache(home, (#[trigger] apps.drop_last()[i]).name@) == p && idle_app(
                    apps.drop_last()[i],
                    commands,
                );
            assert(app_cache(home, apps[i].name@) == p);
        } else {
            let all = idle_caches(home, apps, commands);
            let w = choose|w: int| 0 <= w < all.len() && all[w] == p;
            if w < rest.len() {
                assert(rest[w] == p);
            }
            assert(app_cache(home, apps[apps.len() - 1].name@) == p);
        }
    }
}

/// Where each browser keeps its caches: under the user's cache folder, or in the
/// snap's own one.
pub proof fn law_browsers_keep_their_caches_here(d: Dirs)
    ensures
        ({
            let (c, f) = (browsers_of(d, true), browsers_of(d, false));
            &&& c.len() == 5 && f.len() == 2
            &&& c[0].2 == join_bytes(d.cache@, encode_utf8("google-chrome"@))
            &&& c[1].2 == join_bytes(d.cache@, encode_utf8("chromium"@))
            &&& c[2].2 == join_bytes(d.home@, encode_utf8("snap/chromium/common/.cache/chromium"@))
            &&& c[3].2 == join_bytes(d.cache@, encode_utf8("BraveSoftware/Brave-Browser"@))
            &&& c[4].2 == join_bytes(d.cache@, encode_utf8("microsoft-edge"@))
            &&& f[0].2 == join_bytes(d.cache@, encode_utf8("mozilla/firefox"@))
            &&& f[1].2 == join_bytes(d.home@, encode_utf8("snap/firefox/common/.cache/mozilla/firefox"@))
        }),
{
}

/// Where each browser keeps its profiles, in which a lock says that it runs.
pub proof fn law_browsers_keep_their_profiles_here(d: Dirs)
    ensures
        ({
            let (c, f) = (browsers_of(d, true), browsers_of(d, false));
            &&& c[0].3 == join_bytes(d.config@, encode_utf8("google-chrome"@))
            &&& c[1].3 == join_bytes(d.config@, encode_utf8("chromium"@))
            &&& c[2].3 == join_bytes(d.home@, encode_utf8("snap/chromium/common/chromium"@))
            &&& c[3].3 == join_bytes(d.config@, encode_utf8("BraveSoftware/Brave-Browser"@))
            &&& c[4].3 == join_bytes(d.config@, encode_utf8("microsoft-edge"@))
            &&& f[0].3 == join_bytes(d.home@, encode_utf8(".mozilla/firefox"@))
            &&& f[1].3 == join_bytes(d.home@, encode_utf8("snap/firefox/common/.mozilla/firefox"@))
        }),
{
}

proof fn lemma_profile_holds(root: Seq<u8>, names: Seq<Seq<u8>>, subs: Seq<Seq<char>>, n: int, k: int)
    requires
        0 <= n < names.len(),
        0 <= k < subs.len(),
    ensures
        profile_caches(root, names, subs).contains(join_bytes(join_bytes(root, names[n]), encode_utf8(subs[k]))),
    decreases names.len(),
{
    let a = profile_caches(root, names.drop_last(), subs);
    let b = Seq::new(subs.len(), |i: int| profile_cache(root, names.last(), subs[i]));
    let p = profile_cache(root, names[n], subs[k]);
    if n < names.len() - 1 {
        lemma_profile_holds(root, names.drop_last(), subs, n, k);
        let w = choose|w: int| 0 <= w < a.len() && a[w] == p;
        assert((a + b)[w] == p);
    } else {
        assert((a + b)[a.len() + k] == p);
    }
}

proof fn lemma_cache_count(root: Seq<u8>, names: Seq<Seq<u8>>, subs: Seq<Seq<char>>)
    ensures
        profile_caches(root, names, subs).len() == names.len() * subs.len(),
    decreases names.len(),
{
    let (m, k) = (names.len(), subs.len());
    if names.len() > 0 {
        lemma_cache_count(root, names.drop_last(), subs);
        assert((m - 1) * k + k == m * k) by (nonlinear_arith);
    } else {
        assert(0 * k == 0) by (nonlinear_arith);
    }
}

/// In every profile, a Chromium caches in three folders and a Firefox in one.
pub proof fn law_every_profile_has_its_cache_folders(root: Seq<u8>, names: Seq<Seq<u8>>, n: int)
    requires
        0 <= n < names.len(),
    ensures
        ({
            let (c, f) = (profile_caches(root, names, cache_names(true)), profile_caches(root, names, cache_names(false)));
            &&& c.contains(join_bytes(join_bytes(root, names[n]), encode_utf8("Cache"@)))
            &&& c.contains(join_bytes(join_bytes(root, names[n]), encode_utf8("Code Cache"@)))
            &&& c.contains(join_bytes(join_bytes(root, names[n]), encode_utf8("GPUCache"@)))
            &&& c.len() == 3 * names.len()
            &&& f.contains(join_bytes(join_bytes(root, names[n]), encode_utf8("cache2"@)))
            &&& f.len() == names.len()
        }),
{
    lemma_profile_holds(root, names, cache_names(true), n, 0);
    lemma_profile_holds(root, names, cache_names(true), n, 1);
    lemma_profile_holds(root, names, cache_names(true), n, 2);
    lemma_profile_holds(root, names, cache_names(false), n, 0);
    lemma_cache_count(root, names, cache_names(true));
    lemma_cache_count(root, names, cache_names(false));
    assert(names.len() * 3 == 3 * names.len() && names.len() * 1 == names.len());
}

/// Every cache folder of a browser that uses space is in the browser's finding.
/// It is emptied, not removed, and only while the browser does not run.
pub proof fn law_every_browser_cache_is_found(
    home: Seq<u8>,
    b: (Seq<char>, Seq<char>, Seq<u8>, Seq<u8>),
    chromium: bool,
    r: BrowserReading,
    i: int,
)
    requires
        reading_fits(b, chromium, r),
        browser_dirs(b, chromium, r).len() <= usize::MAX,
        0 <= i < r.sizes@.len(),
        r.sizes@[i] matches Some(n) && n > 0,
    ensures
        browser_finding_view(home, b, chromium, r) matches Some(f) && {
            &&& f.paths.contains(browser_dirs(b, chromium, r)[i])
            &&& f.bytes == found_bytes(r.sizes@, r.sizes@.len() as int)
            &&& f.id == b.0 && f.category == "Browser"@
            &&& f.risk == Risk::Safe
            &&& !f.needs_root
            &&& r.running ==> f.action is Manual
            &&& !r.running ==> f.action == (ActionView::Remove { paths: f.paths, keep_dir: true })
        },
{
    let dirs = browser_dirs(b, chromium, r);
    law_found_is_what_has_a_size(dirs, r.sizes@, i);
    let found = found_paths(dirs, r.sizes@);
    lemma_found_few(dirs, r.sizes@);
    law_sorted_paths_are_the_same_paths(found, dirs[i]);
    assert(by_path(found).contains(dirs[i]));
    assert(by_path(found).len() > 0);
}

proof fn lemma_found_few(list: Seq<Seq<u8>>, sizes: Seq<Option<u64>>)
    ensures
        found_paths(list, sizes).len() <= list.len(),
    decreases list.len(),
{
    if list.len() > 0 {
        lemma_found_few(list.drop_last(), sizes);
    }
}

/// The cache of every Flatpak app that does not run is in the finding, with its
/// bytes; an app that runs is named instead.
pub proof fn law_idle_flatpak_caches_are_found(home: Seq<u8>, apps: Seq<FlatpakApp>, commands: Seq<Seq<char>>, i: int)
    requires
        apps.len() <= usize::MAX,
        idle_bytes(apps, commands) <= u64::MAX,
        0 <= i < apps.len(),
        apps[i].bytes is Some,
    ensures
        !in_use(commands, lossy_text(apps[i].name@)) && apps[i].bytes->0 > 0 ==> (flatpak_app_view(home, apps, commands) matches Some(f) && {
            &&& f.paths.contains(
                join_bytes(join_bytes(join_bytes(home, encode_utf8(".var/app"@)), apps[i].name@), encode_utf8("cache"@)),
            )
            &&& f.bytes == idle_bytes(apps, commands)
            &&& f.risk == Risk::Safe
            &&& f.id == "flatpak-app-cache"@
            &&& f.action == (ActionView::Remove { paths: f.paths, keep_dir: true })
        }),
        !in_use(commands, lossy_text(apps[i].name@)) ==> idle_bytes(apps, commands) == idle_bytes(apps.remove(i), commands)
            + apps[i].bytes->0,
        in_use(commands, lossy_text(apps[i].name@)) ==> idle_bytes(apps, commands) == idle_bytes(apps.remove(i), commands) && busy_apps(
            apps,
            commands,
        ).contains(lossy_text(apps[i].name@)),
{
    lemma_idle_app(home, apps, commands, i);
    if !in_use(commands, lossy_text(apps[i].name@)) && apps[i].bytes->0 > 0 {
        let list = idle_caches(home, apps, commands);
        law_sorted_paths_are_the_same_paths(list, app_cache(home, apps[i].name@));
        assert(by_path(list).contains(app_cache(home, apps[i].name@)));
        assert(by_path(list).len() > 0);
    }
}

proof fn lemma_idle_app(home: Seq<u8>, apps: Seq<FlatpakApp>, commands: Seq<Seq<char>>, i: int)
    requires
        0 <= i < apps.len(),
        apps[i].bytes is Some,
    ensures
        idle_caches(home, apps, commands).len() <= apps.len(),
        !in_use(commands, lossy_text(apps[i].name@)) ==> idle_caches(home, apps, commands).contains(app_cache(home, apps[i].name@)),
        !in_use(commands, lossy_text(apps[i].name@)) ==> idle_bytes(apps, commands) == idle_bytes(apps.remove(i), commands)
            + apps[i].bytes->0,
        in_use(commands, lossy_text(apps[i].name@)) ==> idle_bytes(apps, commands) == idle_bytes(apps.remove(i), commands) && busy_apps(
            apps,
            commands,
        ).contains(lossy_text(apps[i].name@)),
    decreases apps.len(),
{
    let front = apps.drop_last();
    let a = apps.last();
    lemma_push_contains(idle_caches(home, front, commands), app_cache(home, a.name@), app_cache(home, apps[i].name@));
    lemma_push_contains(busy_apps(front, commands), lossy_text(a.name@), lossy_text(apps[i].name@));
    lemma_idle_few(home, front, commands);
    if i < apps.len() - 1 {
        lemma_idle_app(home, front, commands, i);
        assert(apps.remove(i).drop_last() =~= front.remove(i));
        assert(apps.remove(i).last() == a);
    } else {
        assert(apps.remove(i) =~= front);
    }
}

proof fn lemma_idle_few(home: Seq<u8>, apps: Seq<FlatpakApp>, commands: Seq<Seq<char>>)
    ensures
        idle_caches(home, apps, commands).len() <= apps.len(),
    decreases apps.len(),
{
    if apps.len() > 0 {
        lemma_idle_few(home, apps.drop_last(), commands);
    }
}

/// The four folders that an Electron app caches in.
pub proof fn law_electron_apps_cache_in_four_folders(config: Seq<u8>, name: Seq<u8>)
    ensures
        electron_dirs(config, name) == seq![
            join_bytes(join_bytes(config, name), encode_utf8("Cache"@)),
            join_bytes(join_bytes(config, name), encode_utf8("Code Cache"@)),
            join_bytes(join_bytes(config, name), encode_utf8("GPUCache"@)),
            join_bytes(join_bytes(config, name), encode_utf8("CachedData"@)),
        ],
{
}

/// Every folder with a Chromium disk cache in it is an Electron app, but for the
/// four browsers that have rules of their own.
pub proof fn law_electron_apps(a: ConfigApp)
    ensures
        electron_app(a) <==> a.is_dir && a.is_chromium && lossy_text(a.name@) != "google-chrome"@ && lossy_text(a.name@) != "chromium"@
            && lossy_text(a.name@) != "BraveSoftware"@ && lossy_text(a.name@) != "microsoft-edge"@,
{
    let n = lossy_text(a.name@);
    let l = own_rules();
    assert(l[0] == "google-chrome"@ && l[1] == "chromium"@ && l[2] == "BraveSoftware"@ && l[3] == "microsoft-edge"@);
    if one_of(n, l) {
        let i = choose|i: int| 0 <= i < l.len() && #[trigger] l[i] == n;
        assert(i == 0 || i == 1 || i == 2 || i == 3);
    }
    assert(l.contains(l[0]) && l.contains(l[1]) && l.contains(l[2]) && l.contains(l[3]));
}

/// An app runs if one of its two locks is held.
pub proof fn law_apps_run_while_a_lock_is_held(a: ConfigApp, host: Seq<char>, pids: Seq<u32>)
    ensures
        held(a.singleton, host, pids) ==> app_running(a, host, pids),
        held(a.code_lock, host, pids) ==> app_running(a, host, pids),
        !held(a.singleton, host, pids) && !held(a.code_lock, host, pids) ==> !app_running(a, host, pids),
{
}

/// Every cache folder of every Electron app that does not run is in the finding,
/// where it uses space.
pub proof fn law_idle_electron_caches_are_found(
    home: Seq<u8>,
    config: Seq<u8>,
    apps: Seq<ConfigApp>,
    o: Seq<usize>,
    host: Seq<char>,
    pids: Seq<u32>,
    i: int,
    k: int,
)
    requires
        apps.len() <= usize::MAX,
        app_order(apps, o),
        0 <= i < apps.len(),
        0 <= k < 4,
        apps[i].sizes@.len() == 4,
        electron_bytes(apps, o, host, pids, apps.len() as int) <= u64::MAX,
        electron_app(apps[i]),
        !app_running(apps[i], host, pids),
        apps[i].sizes@[k] matches Some(n) && n > 0,
    ensures
        electron_view(home, config, apps, o, host, pids) matches Some(f) && {
            &&& f.paths.contains(electron_dirs(config, apps[i].name@)[k])
            &&& f.bytes == electron_bytes(apps, o, host, pids, apps.len() as int)
            &&& f.risk == Risk::Safe
            &&& f.id == "electron-cache"@
            &&& f.action == (ActionView::Remove { paths: f.paths, keep_dir: true })
        },
{
    assert(o.contains(i as usize));
    let w = choose|w: int| 0 <= w < o.len() && o[w] == i as usize;
    law_found_is_what_has_a_size(electron_dirs(config, apps[i].name@), apps[i].sizes@, k);
    lemma_electron_taken(config, apps, o, host, pids, apps.len() as int, w, electron_dirs(config, apps[i].name@)[k]);
}

proof fn lemma_electron_taken(
    config: Seq<u8>,
    apps: Seq<ConfigApp>,
    o: Seq<usize>,
    host: Seq<char>,
    pids: Seq<u32>,
    n: int,
    w: int,
    p: Seq<u8>,
)
    requires
        0 <= w < n,
        electron_app(apps[o[w] as int]),
        !app_running(apps[o[w] as int], host, pids),
        found_paths(electron_dirs(config, apps[o[w] as int].name@), apps[o[w] as int].sizes@).contains(p),
    ensures
        electron_idle(apps, o, config, host, pids, n).contains(p),
        electron_bytes(apps, o, host, pids, n) >= found_bytes(apps[o[w] as int].sizes@, 4),
    decreases n,
{
    let rest = electron_idle(apps, o, config, host, pids, n - 1);
    let a = apps[o[n - 1] as int];
    let more = found_paths(electron_dirs(config, a.name@), a.sizes@);
    if w < n - 1 {
        lemma_electron_taken(config, apps, o, host, pids, n - 1, w, p);
        let k = choose|k: int| 0 <= k < rest.len() && rest[k] == p;
        assert((rest + more)[k] == p);
    } else {
        let k = choose|k: int| 0 <= k < more.len() && more[k] == p;
        assert((rest + more)[rest.len() + k] == p);
    }
}

/// A Chromium that runs holds `SingletonLock` in its profiles' folder, a Firefox
/// `lock` in each profile.
pub proof fn law_running_browsers_hold_locks(root: FsPath, names: Vec<Vec<u8>>, lock: FsPath, locks: Vec<FsPath>, n: int)
    requires
        call_ensures(chromium_lock, (&root,), lock),
        call_ensures(firefox_locks, (&root, &names), locks),
        0 <= n < names@.len(),
    ensures
        lock@ == join_bytes(root@, encode_utf8("SingletonLock"@)),
        paths_view(locks@).contains(join_bytes(join_bytes(root@, names@[n]@), encode_utf8("lock"@))),
        locks@.len() == names@.len(),
{
    lemma_profile_holds(root@, names_view(names@), seq!["lock"@], n, 0);
    lemma_cache_count(root@, names_view(names@), seq!["lock"@]);
    assert(names@.len() * 1 == names@.len());
    assert(paths_view(locks@).len() == locks@.len());
}

/// What is looked at of an app: its caches, the index that tells a Chromium disk
/// cache, and its two locks.
pub proof fn law_what_is_looked_at_of_an_app(config: FsPath, name: Vec<u8>, r: AppLook)
    requires
        call_ensures(app_look, (&config, &name), r),
    ensures
        ({
            let app = join_bytes(config@, name@);
            let cache = join_bytes(app, encode_utf8("Cache"@));
            &&& paths_view(r.caches@) == electron_dirs(config@, name@)
            &&& paths_view(r.index@) == seq![join_bytes(cache, encode_utf8("index"@)), join_bytes(cache, encode_utf8("Cache_Data/index"@))]
            &&& r.singleton@ == join_bytes(app, encode_utf8("SingletonLock"@))
            &&& r.code_lock@ == join_bytes(app, encode_utf8("code.lock"@))
        }),
{
}

/// Flatpak apps live under `.var/app` in the home folder.
pub proof fn law_flatpak_apps_live_here(home: FsPath, r: FsPath)
    requires
        call_ensures(flatpak_app_root, (&home,), r),
    ensures
        r@ == join_bytes(home@, encode_utf8(".var/app"@)),
{
}

/// The finding of every browser is among the findings, and no other.
pub proof fn law_every_browser_is_looked_at(
    home: Seq<u8>,
    list: Seq<(Seq<char>, Seq<char>, Seq<u8>, Seq<u8>)>,
    chromium: bool,
    readings: Seq<BrowserReading>,
    k: int,
    f: FindingView,
)
    requires
        0 <= k <= list.len(),
    ensures
        browsers_found(home, list, chromium, readings, k).contains(f) <==> exists|i: int|
            0 <= i < k && browser_finding_view(home, #[trigger] list[i], chromium, readings[i]) == Some(f),
    decreases k,
{
    if k > 0 {
        law_every_browser_is_looked_at(home, list, chromium, readings, k - 1, f);
        let o = browser_finding_view(home, list[k - 1], chromium, readings[k - 1]);
        let (a, b) = (browsers_found(home, list, chromium, readings, k - 1), opt_seq(o));
        if a.contains(f) {
            let w = choose|w: int| 0 <= w < a.len() && a[w] == f;
            assert((a + b)[w] == f);
        }
        if o == Some(f) {
            assert((a + b)[a.len() as int] == f);
        }
        if (a + b).contains(f) {
            let w = choose|w: int| 0 <= w < (a + b).len() && (a + b)[w] == f;
            if w < a.len() {
                assert(a[w] == f);
            }
        }
    }
}

} // verus!
