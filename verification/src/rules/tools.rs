//! Caches of language tooling and of the desktop, each via its own clean
//! command when it has one.

use vstd::prelude::*;
use vstd::utf8::{encode_utf8, valid_utf8};

use crate::classify::strs;
use crate::path::{join_bytes, lossy_text, paths_view, FsPath};
use crate::rules::dirs::{in_use, is_in_use, opt_path, or_else, Dirs};
use crate::rules::kernels::{found_bytes, found_paths, law_found_is_what_has_a_size, lemma_found_among};
use crate::rules::measure::{
    contents_finding, contents_view, keep_found, manual, manual_view, opt_finding, opt_seq, opt_str, push_opt, words,
    Words, WordsView,
};
use crate::rules::{finding_views, Action, ActionView, Finding, FindingView, Risk};
use crate::text::texts;
use crate::util::{quoted, shq_path};

verus! {

/// Where the caches of language tools are.
pub struct ToolDirs {
    pub uv: FsPath,
    pub poetry: FsPath,
    pub selenium: FsPath,
    pub playwright: FsPath,
    pub mesa: FsPath,
    pub mesa_db: FsPath,
    pub npx: FsPath,
    pub yarn: FsPath,
    pub pnpm: FsPath,
    pub go_build: FsPath,
    pub go_mod: FsPath,
    pub gradle_caches: FsPath,
    pub gradle_dists: FsPath,
    pub huggingface: FsPath,
    pub tracker: FsPath,
}

pub open spec fn under(dir: Seq<u8>, rel: Seq<char>) -> Seq<u8> {
    join_bytes(dir, encode_utf8(rel))
}

/// Where the caches of language tools are, as values.
#[verifier::ext_equal]
pub struct ToolPlaces {
    pub uv: Seq<u8>,
    pub poetry: Seq<u8>,
    pub selenium: Seq<u8>,
    pub playwright: Seq<u8>,
    pub mesa: Seq<u8>,
    pub mesa_db: Seq<u8>,
    pub npx: Seq<u8>,
    pub yarn: Seq<u8>,
    pub pnpm: Seq<u8>,
    pub go_build: Seq<u8>,
    pub go_mod: Seq<u8>,
    pub gradle_caches: Seq<u8>,
    pub gradle_dists: Seq<u8>,
    pub huggingface: Seq<u8>,
    pub tracker: Seq<u8>,
}

impl View for ToolDirs {
    type V = ToolPlaces;

    open spec fn view(&self) -> ToolPlaces {
        ToolPlaces {
            uv: self.uv@,
            poetry: self.poetry@,
            selenium: self.selenium@,
            playwright: self.playwright@,
            mesa: self.mesa@,
            mesa_db: self.mesa_db@,
            npx: self.npx@,
            yarn: self.yarn@,
            pnpm: self.pnpm@,
            go_build: self.go_build@,
            go_mod: self.go_mod@,
            gradle_caches: self.gradle_caches@,
            gradle_dists: self.gradle_dists@,
            huggingface: self.huggingface@,
            tracker: self.tracker@,
        }
    }
}

/// Where the caches of language tools are for the given folders of a user.
pub open spec fn tool_places(d: Dirs) -> ToolPlaces {
    ToolPlaces {
        uv: d.uv@,
        poetry: under(d.cache@, "pypoetry/cache"@),
        selenium: under(d.cache@, "selenium"@),
        playwright: under(d.cache@, "ms-playwright"@),
        mesa: under(d.cache@, "mesa_shader_cache"@),
        mesa_db: under(d.cache@, "mesa_shader_cache_db"@),
        npx: under(or_else(opt_path(d.npm), under(d.home@, ".npm"@)), "_npx"@),
        yarn: under(d.cache@, "yarn"@),
        pnpm: under(d.data@, "pnpm/store"@),
        go_build: d.go_build@,
        go_mod: d.go_mod@,
        gradle_caches: under(d.home@, ".gradle/caches"@),
        gradle_dists: under(d.home@, ".gradle/wrapper/dists"@),
        huggingface: under(d.cache@, "huggingface/hub"@),
        tracker: under(d.cache@, "tracker3"@),
    }
}

pub fn tool_dirs(d: &Dirs) -> (r: ToolDirs)
    ensures
        r@ == tool_places(*d),
{
    ToolDirs {
        uv: d.uv.clone(),
        poetry: d.cache.join_str("pypoetry/cache"),
        selenium: d.cache.join_str("selenium"),
        playwright: d.cache.join_str("ms-playwright"),
        mesa: d.cache.join_str("mesa_shader_cache"),
        mesa_db: d.cache.join_str("mesa_shader_cache_db"),
        npx: d.npm_cache().join_str("_npx"),
        yarn: d.cache.join_str("yarn"),
        pnpm: d.data.join_str("pnpm/store"),
        go_build: d.go_build.clone(),
        go_mod: d.go_mod.clone(),
        gradle_caches: d.home.join_str(".gradle/caches"),
        gradle_dists: d.home.join_str(".gradle/wrapper/dists"),
        huggingface: d.cache.join_str("huggingface/hub"),
        tracker: d.cache.join_str("tracker3"),
    }
}

/// A Conda installation: its folder in the home, its package cache and its
/// program, and what was read of them.
pub struct Conda {
    pub base: &'static str,
    /// Bytes in the package cache that nothing else links to, if it is a
    /// directory.
    pub pkgs: Option<u64>,
    /// `bin/conda` is a file.
    pub program: bool,
}

/// The folders in the home that Conda is installed in.
pub fn conda_bases() -> (r: Vec<&'static str>)
    ensures
        strs(r@) == seq!["anaconda3"@, "miniconda3"@, "miniforge3"@, ".conda"@],
{
    let out: Vec<&'static str> = vec!["anaconda3", "miniconda3", "miniforge3", ".conda"];
    assert(strs(out@) =~= seq!["anaconda3"@, "miniconda3"@, "miniforge3"@, ".conda"@]);
    out
}

/// What was read of the caches: bytes inside each that is a directory (of uv's
/// and pnpm's, only what nothing else links to).
pub struct ToolReadings {
    pub uv: Option<u64>,
    pub poetry: Option<u64>,
    pub selenium: Option<u64>,
    pub playwright: Option<u64>,
    pub mesa: Option<u64>,
    pub mesa_db: Option<u64>,
    pub npx: Option<u64>,
    pub yarn: Option<u64>,
    pub pnpm: Option<u64>,
    pub go_build: Option<u64>,
    pub go_mod: Option<u64>,
    pub gradle_caches: Option<u64>,
    pub gradle_dists: Option<u64>,
    pub conda: Vec<Conda>,
    pub huggingface: Option<u64>,
    pub tracker: Option<u64>,
}

/// Programs that are on PATH.
pub struct Installed {
    pub uv: bool,
    pub pnpm: bool,
    pub go: bool,
    pub tracker3: bool,
}

pub open spec fn size_or_zero(o: Option<u64>) -> u64 {
    match o {
        Some(b) => b,
        None => 0,
    }
}

/// The finding about one folder.
pub open spec fn one_folder(home: Seq<u8>, w: WordsView, p: Seq<u8>, size: Option<u64>, command: Option<Seq<char>>) -> Option<
    FindingView,
> {
    contents_view(
        home,
        w,
        if size is Some {
            seq![p]
        } else {
            Seq::empty()
        },
        size_or_zero(size),
        command,
    )
}

fn one(home: &FsPath, w: Words, p: &FsPath, size: Option<u64>, command: Option<String>) -> (r: Option<Finding>)
    ensures
        opt_finding(r) == one_folder(home@, w@, p@, size, opt_str(command)),
{
    let mut dirs: Vec<FsPath> = Vec::new();
    let mut bytes: u64 = 0;
    if let Some(b) = size {
        dirs.push(p.clone());
        bytes = b;
        assert(paths_view(dirs@) =~= seq![p@]);
    } else {
        assert(paths_view(dirs@) =~= Seq::empty());
    }
    contents_finding(home, w, dirs, bytes, command)
}

/// The finding about two folders together.
pub open spec fn two_folders(home: Seq<u8>, w: WordsView, p: Seq<u8>, a: Option<u64>, q: Seq<u8>, b: Option<u64>) -> Option<
    FindingView,
> {
    contents_view(
        home,
        w,
        found_paths(seq![p, q], seq![a, b]),
        (size_or_zero(a) + size_or_zero(b)) as u64,
        None,
    )
}

fn two(home: &FsPath, w: Words, p: &FsPath, a: Option<u64>, q: &FsPath, b: Option<u64>) -> (r: Option<Finding>)
    requires
        size_or_zero(a) + size_or_zero(b) <= u64::MAX,
    ensures
        opt_finding(r) == two_folders(home@, w@, p@, a, q@, b),
{
    let mut list: Vec<FsPath> = Vec::new();
    list.push(p.clone());
    list.push(q.clone());
    let mut sizes: Vec<Option<u64>> = Vec::new();
    sizes.push(a);
    sizes.push(b);
    proof {
        assert(paths_view(list@) =~= seq![p@, q@]);
        assert(sizes@ =~= seq![a, b]);
        reveal_with_fuel(found_bytes, 3);
        assert(found_bytes(sizes@, 2) == size_or_zero(a) + size_or_zero(b));
    }
    let (dirs, bytes) = keep_found(&list, &sizes);
    contents_finding(home, w, dirs, bytes, None)
}

/// A finding, or the same as a manual step.
pub open spec fn unless(o: Option<FindingView>, ok: bool, why: Seq<char>) -> Option<FindingView> {
    match o {
        Some(f) => Some(
            if ok {
                f
            } else {
                manual_view(f, why)
            },
        ),
        None => None,
    }
}

fn unless_manual(o: Option<Finding>, ok: bool, why: &str) -> (r: Option<Finding>)
    ensures
        opt_finding(r) == unless(opt_finding(o), ok, why@),
{
    match o {
        Some(f) => if ok {
            Some(f)
        } else {
            Some(manual(f, why))
        },
        None => None,
    }
}

pub open spec fn tool_words(id: Seq<char>, category: Seq<char>, title: Seq<char>, risk: Risk, detail: Seq<char>) -> WordsView {
    WordsView { id, category, title, risk, detail }
}

/// The finding about a Conda package cache.
pub open spec fn conda_view(home: Seq<u8>, c: Conda) -> Option<FindingView> {
    let dir = under(home, c.base@);
    let conda = under(dir, "bin/conda"@);
    unless(
        one_folder(
            home,
            tool_words(
                "conda-pkgs:"@ + c.base@,
                "Python"@,
                "Conda package cache"@,
                Risk::Safe,
                "Package tarballs and unpacked packages no environment still links to."@,
            ),
            under(dir, "pkgs"@),
            c.pkgs,
            Some(quoted(lossy_text(conda)) + " clean -a -y"@),
        ),
        c.program && valid_utf8(conda),
        if c.program {
            "The path of bin/conda is not valid UTF-8 and has no exact shell form; run `conda clean -a` yourself."@
        } else {
            "bin/conda is missing there; run `conda clean -a` where it is installed."@
        },
    )
}

pub open spec fn conda_found(home: Seq<u8>, list: Seq<Conda>) -> Seq<FindingView>
    decreases list.len(),
{
    if list.len() == 0 {
        Seq::empty()
    } else {
        conda_found(home, list.drop_last()) + opt_seq(conda_view(home, list.last()))
    }
}

fn conda_finding(home: &FsPath, c: &Conda) -> (r: Option<Finding>)
    ensures
        opt_finding(r) == conda_view(home@, *c),
{
    let dir = home.join_str(c.base);
    let conda = dir.join_str("bin/conda");
    let command = shq_path(&conda).concat(" clean -a -y");
    let w = words(
        "conda-pkgs:".to_owned().concat(c.base).as_str(),
        "Python",
        "Conda package cache",
        Risk::Safe,
        "Package tarballs and unpacked packages no environment still links to.",
    );
    unless_manual(
        one(home, w, &dir.join_str("pkgs"), c.pkgs, Some(command)),
        c.program && conda.to_str().is_some(),
        if c.program {
            "The path of bin/conda is not valid UTF-8 and has no exact shell form; run `conda clean -a` yourself."
        } else {
            "bin/conda is missing there; run `conda clean -a` where it is installed."
        },
    )
}

pub open spec fn some_if(b: bool, s: Seq<char>) -> Option<Seq<char>> {
    if b {
        Some(s)
    } else {
        None
    }
}

fn when(b: bool, s: &str) -> (r: Option<String>)
    ensures
        opt_str(r) == some_if(b, s@),
{
    if b {
        Some(s.to_owned())
    } else {
        None
    }
}

/// What is found of uv.
pub open spec fn uv_cache_view(h: Seq<u8>, t: ToolPlaces, m: ToolReadings, have: Installed) -> Option<FindingView> {
    one_folder(
        h,
        tool_words(
            "uv-cache"@,
            "Python"@,
            "uv cache"@,
            Risk::Safe,
            "Wheels and sources cached by uv. Virtualenvs hard-link from it, so only data that no environment still uses is counted. Equivalent: uv cache clean"@,
        ),
        t.uv,
        m.uv,
        some_if(have.uv, "uv cache clean"@),
    )
}

/// What is found of Poetry.
pub open spec fn poetry_cache_view(h: Seq<u8>, t: ToolPlaces, m: ToolReadings) -> Option<FindingView> {
    one_folder(
        h,
        tool_words(
            "poetry-cache"@,
            "Python"@,
            "Poetry cache"@,
            Risk::Safe,
            "Package archives cached by Poetry; re-downloaded on demand."@,
        ),
        t.poetry,
        m.poetry,
        None,
    )
}

/// What is found of Selenium.
pub open spec fn selenium_cache_view(h: Seq<u8>, t: ToolPlaces, m: ToolReadings) -> Option<FindingView> {
    one_folder(
        h,
        tool_words(
            "selenium-cache"@,
            "Testing"@,
            "Selenium browsers & drivers"@,
            Risk::Safe,
            "Selenium browsers & drivers"@
                + " downloaded by the test tooling; fetched again on the next run (needs network)."@,
        ),
        t.selenium,
        m.selenium,
        None,
    )
}

/// What is found of Playwright.
pub open spec fn playwright_cache_view(h: Seq<u8>, t: ToolPlaces, m: ToolReadings) -> Option<FindingView> {
    one_folder(
        h,
        tool_words(
            "playwright-cache"@,
            "Testing"@,
            "Playwright browsers"@,
            Risk::Safe,
            "Playwright browsers"@
                + " downloaded by the test tooling; fetched again on the next run (needs network)."@,
        ),
        t.playwright,
        m.playwright,
        None,
    )
}

/// What is found of the GPU's shaders.
pub open spec fn mesa_shader_cache_view(h: Seq<u8>, t: ToolPlaces, m: ToolReadings) -> Option<FindingView> {
    two_folders(
        h,
        tool_words(
            "mesa-shader-cache"@,
            "Graphics"@,
            "GPU shader cache"@,
            Risk::Safe,
            "Compiled GPU shaders; games and apps recompile them (a brief stutter the first time)."@,
        ),
        t.mesa,
        m.mesa,
        t.mesa_db,
        m.mesa_db,
    )
}

/// The Python, testing and graphics caches.
pub open spec fn first_tools(h: Seq<u8>, t: ToolPlaces, m: ToolReadings, have: Installed) -> Seq<FindingView> {
    opt_seq(uv_cache_view(h, t, m, have)) + opt_seq(poetry_cache_view(h, t, m))
        + opt_seq(selenium_cache_view(h, t, m)) + opt_seq(playwright_cache_view(h, t, m))
        + opt_seq(mesa_shader_cache_view(h, t, m))
}

/// What is found of npx.
pub open spec fn npx_cache_view(h: Seq<u8>, t: ToolPlaces, m: ToolReadings, commands: Seq<Seq<char>>) -> Option<FindingView> {
    unless(
        one_folder(
            h,
            tool_words(
                "npx-cache"@,
                "Node"@,
                "npx package cache"@,
                Risk::Safe,
                "Packages fetched by `npx`; downloaded again when next used."@,
            ),
            t.npx,
            m.npx,
            None,
        ),
        !in_use(commands, "/_npx/"@),
        "An npx-launched program is running from this cache: stop it first."@,
    )
}

/// What is found of Yarn.
pub open spec fn yarn_cache_view(h: Seq<u8>, t: ToolPlaces, m: ToolReadings) -> Option<FindingView> {
    one_folder(
        h,
        tool_words(
            "yarn-cache"@,
            "Node"@,
            "Yarn cache"@,
            Risk::Safe,
            "Yarn's package cache. Equivalent: yarn cache clean"@,
        ),
        t.yarn,
        m.yarn,
        None,
    )
}

/// What is found of pnpm.
pub open spec fn pnpm_store_view(h: Seq<u8>, t: ToolPlaces, m: ToolReadings, have: Installed) -> Option<FindingView> {
    unless(
        one_folder(
            h,
            tool_words(
                "pnpm-store"@,
                "Node"@,
                "pnpm store (unreferenced)"@,
                Risk::Safe,
                "Packages in the pnpm store that no project links to any more."@,
            ),
            t.pnpm,
            m.pnpm,
            Some("pnpm store prune"@),
        ),
        have.pnpm,
        "pnpm is not on PATH; run `pnpm store prune` where it is installed."@,
    )
}

/// The Node caches.
pub open spec fn node_tools(h: Seq<u8>, t: ToolPlaces, m: ToolReadings, have: Installed, commands: Seq<Seq<char>>) -> Seq<
    FindingView,
> {
    opt_seq(npx_cache_view(h, t, m, commands)) + opt_seq(yarn_cache_view(h, t, m))
        + opt_seq(pnpm_store_view(h, t, m, have))
}

/// What is found of Go's builds.
pub open spec fn go_build_cache_view(h: Seq<u8>, t: ToolPlaces, m: ToolReadings, have: Installed) -> Option<FindingView> {
    one_folder(
        h,
        tool_words(
            "go-build-cache"@,
            "Go"@,
            "Go build cache"@,
            Risk::Safe,
            "Compiled Go packages; rebuilt as needed. Equivalent: go clean -cache"@,
        ),
        t.go_build,
        m.go_build,
        some_if(have.go, "go clean -cache"@),
    )
}

/// What is found of Go's modules.
pub open spec fn go_mod_cache_view(h: Seq<u8>, t: ToolPlaces, m: ToolReadings, have: Installed) -> Option<FindingView> {
    unless(
        one_folder(
            h,
            tool_words(
                "go-mod-cache"@,
                "Go"@,
                "Go module cache"@,
                Risk::Moderate,
                "Downloaded Go modules; re-downloaded by the next build (needs network). The files are read-only, so only `go clean -modcache` can remove them."@,
            ),
            t.go_mod,
            m.go_mod,
            Some("go clean -modcache"@),
        ),
        have.go,
        "go is not on PATH; run `go clean -modcache` where it is installed."@,
    )
}

/// What is found of Gradle.
pub open spec fn gradle_cache_view(h: Seq<u8>, t: ToolPlaces, m: ToolReadings) -> Option<FindingView> {
    two_folders(
        h,
        tool_words(
            "gradle-cache"@,
            "Java"@,
            "Gradle caches"@,
            Risk::Moderate,
            "Downloaded dependencies and Gradle distributions; the next build fetches them again."@,
        ),
        t.gradle_caches,
        m.gradle_caches,
        t.gradle_dists,
        m.gradle_dists,
    )
}

/// The Go and Java caches.
pub open spec fn compiled_tools(h: Seq<u8>, t: ToolPlaces, m: ToolReadings, have: Installed) -> Seq<FindingView> {
    opt_seq(go_build_cache_view(h, t, m, have)) + opt_seq(go_mod_cache_view(h, t, m, have))
        + opt_seq(gradle_cache_view(h, t, m))
}

/// What is found of Hugging Face.
pub open spec fn huggingface_hub_view(h: Seq<u8>, t: ToolPlaces, m: ToolReadings) -> Option<FindingView> {
    unless(
        one_folder(
            h,
            tool_words(
                "huggingface-hub"@,
                "AI models"@,
                "Hugging Face model cache"@,
                Risk::Caution,
                "Downloaded models and datasets. Public models can be downloaded again, but gated or private ones may not be. Pick what to delete interactively with `huggingface-cli delete-cache`."@,
            ),
            t.huggingface,
            m.huggingface,
            None,
        ),
        false,
        "Review models individually: `huggingface-cli delete-cache`."@,
    )
}

/// What is found of GNOME's search.
pub open spec fn tracker3_view(h: Seq<u8>, t: ToolPlaces, m: ToolReadings, have: Installed) -> Option<FindingView> {
    unless(
        one_folder(
            h,
            tool_words(
                "tracker3"@,
                "Desktop"@,
                "GNOME search index (tracker3)"@,
                Risk::Moderate,
                "The file-search index; GNOME rebuilds it in the background (uses CPU for a while)."@,
            ),
            t.tracker,
            m.tracker,
            Some("tracker3 reset -s -r"@),
        ),
        have.tracker3,
        "tracker3 is not installed here."@,
    )
}

/// The model cache and the search index.
pub open spec fn last_tools(h: Seq<u8>, t: ToolPlaces, m: ToolReadings, have: Installed) -> Seq<FindingView> {
    opt_seq(huggingface_hub_view(h, t, m)) + opt_seq(tracker3_view(h, t, m, have))
}

fn add_first(out: &mut Vec<Finding>, home: &FsPath, t: &ToolDirs, m: &ToolReadings, have: &Installed)
    requires
        size_or_zero(m.mesa) + size_or_zero(m.mesa_db) <= u64::MAX,
    ensures
        finding_views(final(out)@) == finding_views(old(out)@) + first_tools(home@, t@, *m, *have),
{
    let ghost start = finding_views(out@);
    // uv links its cache into virtualenvs: count only what nothing else holds.
    push_opt(out, one(home, words("uv-cache", "Python", "uv cache", Risk::Safe,
        "Wheels and sources cached by uv. Virtualenvs hard-link from it, so only data that no environment still uses is counted. Equivalent: uv cache clean"),
        &t.uv, m.uv, when(have.uv, "uv cache clean")));
    push_opt(out, one(home, words("poetry-cache", "Python", "Poetry cache", Risk::Safe,
        "Package archives cached by Poetry; re-downloaded on demand."), &t.poetry, m.poetry, None));
    push_opt(out, one(home, words("selenium-cache", "Testing", "Selenium browsers & drivers", Risk::Safe,
        "Selenium browsers & drivers".to_owned().concat(" downloaded by the test tooling; fetched again on the next run (needs network).").as_str()),
        &t.selenium, m.selenium, None));
    push_opt(out, one(home, words("playwright-cache", "Testing", "Playwright browsers", Risk::Safe,
        "Playwright browsers".to_owned().concat(" downloaded by the test tooling; fetched again on the next run (needs network).").as_str()),
        &t.playwright, m.playwright, None));
    push_opt(out, two(home, words("mesa-shader-cache", "Graphics", "GPU shader cache", Risk::Safe,
        "Compiled GPU shaders; games and apps recompile them (a brief stutter the first time)."),
        &t.mesa, m.mesa, &t.mesa_db, m.mesa_db));
    assert(finding_views(out@) =~= start + first_tools(home@, t@, *m, *have));
}

fn add_node(out: &mut Vec<Finding>, home: &FsPath, t: &ToolDirs, m: &ToolReadings, commands: &Vec<String>, have: &Installed)
    ensures
        finding_views(final(out)@) == finding_views(old(out)@) + node_tools(home@, t@, *m, *have, texts(commands@)),
{
    let ghost start = finding_views(out@);
    // npm's npx cache: in use while an npx-launched tool (e.g. an MCP server) runs.
    let npx = one(home, words("npx-cache", "Node", "npx package cache", Risk::Safe,
        "Packages fetched by `npx`; downloaded again when next used."), &t.npx, m.npx, None);
    push_opt(out, unless_manual(npx, !is_in_use(commands, "/_npx/"), "An npx-launched program is running from this cache: stop it first."));
    push_opt(out, one(home, words("yarn-cache", "Node", "Yarn cache", Risk::Safe,
        "Yarn's package cache. Equivalent: yarn cache clean"), &t.yarn, m.yarn, None));
    // pnpm projects hard-link into the store: only `pnpm store prune` is safe.
    let pnpm = one(home, words("pnpm-store", "Node", "pnpm store (unreferenced)", Risk::Safe,
        "Packages in the pnpm store that no project links to any more."), &t.pnpm, m.pnpm, Some("pnpm store prune".to_owned()));
    push_opt(out, unless_manual(pnpm, have.pnpm, "pnpm is not on PATH; run `pnpm store prune` where it is installed."));
    assert(finding_views(out@) =~= start + node_tools(home@, t@, *m, *have, texts(commands@)));
}

fn add_compiled(out: &mut Vec<Finding>, home: &FsPath, t: &ToolDirs, m: &ToolReadings, have: &Installed)
    requires
        size_or_zero(m.gradle_caches) + size_or_zero(m.gradle_dists) <= u64::MAX,
    ensures
        finding_views(final(out)@) == finding_views(old(out)@) + compiled_tools(home@, t@, *m, *have),
{
    let ghost start = finding_views(out@);
    // Go: build cache is pure cache; the module cache is read-only on disk.
    push_opt(out, one(home, words("go-build-cache", "Go", "Go build cache", Risk::Safe,
        "Compiled Go packages; rebuilt as needed. Equivalent: go clean -cache"), &t.go_build, m.go_build, when(have.go, "go clean -cache")));
    let go_mod = one(home, words("go-mod-cache", "Go", "Go module cache", Risk::Moderate,
        "Downloaded Go modules; re-downloaded by the next build (needs network). The files are read-only, so only `go clean -modcache` can remove them."),
        &t.go_mod, m.go_mod, Some("go clean -modcache".to_owned()));
    push_opt(out, unless_manual(go_mod, have.go, "go is not on PATH; run `go clean -modcache` where it is installed."));
    // Gradle downloads and wrapper distributions.
    push_opt(out, two(home, words("gradle-cache", "Java", "Gradle caches", Risk::Moderate,
        "Downloaded dependencies and Gradle distributions; the next build fetches them again."),
        &t.gradle_caches, m.gradle_caches, &t.gradle_dists, m.gradle_dists));
    assert(finding_views(out@) =~= start + compiled_tools(home@, t@, *m, *have));
}

/// Conda package caches (hard-linked into environments).
fn add_conda(out: &mut Vec<Finding>, home: &FsPath, list: &Vec<Conda>)
    ensures
        finding_views(final(out)@) == finding_views(old(out)@) + conda_found(home@, list@),
{
    let ghost start = finding_views(out@);
    assert(start + conda_found(home@, list@.take(0)) =~= start);
    for i in 0..list.len()
        invariant
            finding_views(out@) == start + conda_found(home@, list@.take(i as int)),
    {
        proof {
            assert(list@.take(i + 1).drop_last() =~= list@.take(i as int));
        }
        push_opt(out, conda_finding(home, &list[i]));
        assert(finding_views(out@) =~= start + conda_found(home@, list@.take(i + 1)));
    }
    assert(list@.take(list@.len() as int) =~= list@);
}

fn add_last(out: &mut Vec<Finding>, home: &FsPath, t: &ToolDirs, m: &ToolReadings, have: &Installed)
    ensures
        finding_views(final(out)@) == finding_views(old(out)@) + last_tools(home@, t@, *m, *have),
{
    let ghost start = finding_views(out@);
    // Hugging Face models: may be large, gated or the only copy of a fine-tune.
    let hf = one(home, words("huggingface-hub", "AI models", "Hugging Face model cache", Risk::Caution,
        "Downloaded models and datasets. Public models can be downloaded again, but gated or private ones may not be. Pick what to delete interactively with `huggingface-cli delete-cache`."),
        &t.huggingface, m.huggingface, None);
    push_opt(out, unless_manual(hf, false, "Review models individually: `huggingface-cli delete-cache`."));
    // GNOME search index.
    let tracker = one(home, words("tracker3", "Desktop", "GNOME search index (tracker3)", Risk::Moderate,
        "The file-search index; GNOME rebuilds it in the background (uses CPU for a while)."),
        &t.tracker, m.tracker, Some("tracker3 reset -s -r".to_owned()));
    push_opt(out, unless_manual(tracker, have.tracker3, "tracker3 is not installed here."));
    assert(finding_views(out@) =~= start + last_tools(home@, t@, *m, *have));
}

/// The findings about the caches of language tooling.
pub open spec fn tools_found(d: Dirs, m: ToolReadings, have: Installed, commands: Seq<Seq<char>>) -> Seq<FindingView> {
    let t = tool_places(d);
    first_tools(d.home@, t, m, have) + node_tools(d.home@, t, m, have, commands) + compiled_tools(d.home@, t, m, have) + conda_found(
        d.home@,
        m.conda@,
    ) + last_tools(d.home@, t, m, have)
}

/// Caches of language tooling, each via its own clean command when installed.
/// A missing tool, or a program running from its cache, makes a manual step. `m`
/// is what was read of the places in `tool_dirs`.
pub fn tool_cache_findings(
    d: &Dirs,
    m: &ToolReadings,
    commands: &Vec<String>,
    have: &Installed,
) -> (r: Vec<Finding>)
    requires
        size_or_zero(m.mesa) + size_or_zero(m.mesa_db) <= u64::MAX,
        size_or_zero(m.gradle_caches) + size_or_zero(m.gradle_dists) <= u64::MAX,
    ensures
        finding_views(r@) == tools_found(*d, *m, *have, texts(commands@)),
{
    let home = &d.home;
    let dirs = tool_dirs(d);
    let t = &dirs;
    let mut out: Vec<Finding> = Vec::new();
    assert(finding_views(out@) =~= Seq::empty());
    add_first(&mut out, home, t, m, have);
    assert(finding_views(out@) =~= first_tools(home@, t@, *m, *have));
    add_node(&mut out, home, t, m, commands, have);
    add_compiled(&mut out, home, t, m, have);
    add_conda(&mut out, home, &m.conda);
    add_last(&mut out, home, t, m, have);
    out
}

/// A finding as it stands under sudo: what would run a tool as root against the
/// user's caches is left to the user.
pub open spec fn as_seen_by_root(f: FindingView) -> FindingView {
    match f.action {
        ActionView::Shell { command } => manual_view(
            f,
            "Started with sudo: tools are not run as root against your caches. Run it as yourself: "@ + command,
        ),
        _ => f,
    }
}

/// The findings as they stand under sudo, or without.
pub open spec fn left_to_user(list: Seq<FindingView>, is_root: bool) -> Seq<FindingView> {
    if is_root {
        Seq::new(list.len(), |i: int| as_seen_by_root(list[i]))
    } else {
        list
    }
}

/// Under sudo, a finding that would run a tool becomes a manual step.
pub fn leave_to_user(findings: Vec<Finding>, is_root: bool) -> (r: Vec<Finding>)
    ensures
        finding_views(r@) == left_to_user(finding_views(findings@), is_root),
{
    if !is_root {
        return findings;
    }
    let ghost all = findings@;
    let ghost want = left_to_user(finding_views(all), true);
    let mut todo = findings;
    let mut back: Vec<Finding> = Vec::new();
    while todo.len() > 0
        invariant
            todo@ == all.take(todo@.len() as int),
            todo@.len() <= all.len(),
            back@ == all.skip(todo@.len() as int).reverse(),
        decreases todo@.len(),
    {
        let ghost k = todo@.len() - 1;
        let f = todo.pop().unwrap();
        back.push(f);
        assert(todo@ =~= all.take(k));
        assert(back@ =~= all.skip(k).reverse());
    }
    let mut out: Vec<Finding> = Vec::new();
    proof {
        assert(back@ =~= all.reverse());
        assert(finding_views(out@) =~= want.take(0));
    }
    while back.len() > 0
        invariant
            want == left_to_user(finding_views(all), true),
            back@.len() <= all.len(),
            back@ == all.reverse().take(back@.len() as int),
            finding_views(out@) == want.take(all.len() - back@.len()),
        decreases back@.len(),
    {
        let ghost n = all.len() - back@.len();
        let ghost before = out@;
        let f = back.pop().unwrap();
        proof {
            assert(f == all[n]);
            assert(back@ =~= all.reverse().take(back@.len() as int));
            assert(want[n] == as_seen_by_root(finding_views(all)[n]));
        }
        let why = match &f.action {
            Action::Shell { command } => Some(
                "Started with sudo: tools are not run as root against your caches. Run it as yourself: ".to_owned().concat(
                    command.as_str(),
                ),
            ),
            _ => None,
        };
        let g = match why {
            Some(w) => manual(f, w.as_str()),
            None => f,
        };
        assert(g@ =~= want[n]);
        out.push(g);
        assert(finding_views(out@) =~= finding_views(before).push(g@));
        assert(finding_views(out@) =~= want.take(n + 1));
    }
    assert(want.take(all.len() as int) =~= want);
    out
}

/// Under sudo no tool is run against the user's caches; without it nothing
/// changes.
pub proof fn law_no_tool_runs_as_root(list: Seq<FindingView>, i: int)
    requires
        0 <= i < list.len(),
    ensures
        left_to_user(list, true).len() == list.len(),
        !(left_to_user(list, true)[i].action is Shell),
        !(list[i].action is Shell) ==> left_to_user(list, true)[i] == list[i],
        left_to_user(list, false) == list,
{
}

/// A group of cache folders in the home: what the finding says, and where they
/// are.
pub struct CacheGroup {
    pub words: Words,
    pub dirs: Vec<FsPath>,
    /// Count only data that nothing outside links to.
    pub unique: bool,
}

#[verifier::ext_equal]
pub struct GroupView {
    pub words: WordsView,
    pub dirs: Seq<Seq<u8>>,
    pub unique: bool,
}

pub open spec fn group_views(v: Seq<CacheGroup>) -> Seq<GroupView> {
    Seq::new(v.len(), |i: int| GroupView { words: v[i].words@, dirs: paths_view(v[i].dirs@), unique: v[i].unique })
}

/// Per-user caches: thumbnails, pip, cargo, npm, trash.
pub open spec fn user_groups(d: Dirs) -> Seq<GroupView> {
    let pip = or_else(opt_path(d.pip), under(d.cache@, "pip"@));
    let npm = or_else(opt_path(d.npm), under(d.home@, ".npm"@));
    seq![
        GroupView {
            words: tool_words(
                "thumbnails"@,
                "User cache"@,
                "Thumbnail cache"@,
                Risk::Safe,
                "Image previews generated by the file manager; regenerated when needed."@,
            ),
            dirs: seq![under(d.cache@, "thumbnails"@)],
            unique: false,
        },
        GroupView {
            words: tool_words(
                "pip-cache"@,
                "Python"@,
                "pip download cache"@,
                Risk::Safe,
                "Wheels and HTTP responses cached by pip. Equivalent: pip cache purge"@,
            ),
            dirs: seq![
                under(pip, "http"@),
                under(pip, "http-v2"@),
                under(pip, "wheels"@),
                under(pip, "selfcheck"@),
            ],
            unique: false,
        },
        GroupView {
            words: tool_words(
                "cargo-registry"@,
                "Rust"@,
                "Cargo registry cache"@,
                Risk::Moderate,
                "Downloaded .crate archives and their extracted sources. Cargo re-downloads what a build needs, so offline builds (--offline, vendored CI caches) break until you are online again. Do not clear it while a cargo build is running."@,
            ),
            dirs: seq![under(d.cargo@, "registry/cache"@), under(d.cargo@, "registry/src"@)],
            unique: false,
        },
        GroupView {
            words: tool_words(
                "cargo-git"@,
                "Rust"@,
                "Cargo git checkouts"@,
                Risk::Safe,
                "Checkouts of git dependencies; re-created from the git db on the next build."@,
            ),
            dirs: seq![under(d.cargo@, "git/checkouts"@)],
            unique: true,
        },
        GroupView {
            words: tool_words(
                "npm-cache"@,
                "Node"@,
                "npm cache"@,
                Risk::Safe,
                "npm's content-addressable package cache. Equivalent: npm cache clean --force"@,
            ),
            dirs: seq![under(npm, "_cacache"@)],
            unique: false,
        },
        GroupView {
            words: tool_words(
                "trash"@,
                "User files"@,
                "Desktop Trash"@,
                Risk::Moderate,
                "Files you moved to the Trash. Emptying it is permanent — have a look first."@,
            ),
            dirs: seq![under(d.data@, "Trash/files"@), under(d.data@, "Trash/info"@)],
            unique: false,
        },
    ]
}

/// The per-user caches to measure. pip's own sub-folders only (what `pip cache
/// purge` clears), so a PIP_CACHE_DIR shared with other data is never emptied
/// wholesale. Cargo's git checkouts hard-link pack files from git/db: only data
/// nothing else links to comes back.
pub fn user_caches(d: &Dirs) -> (r: Vec<CacheGroup>)
    ensures
        group_views(r@) == user_groups(*d),
{
    let pip = d.pip_cache();
    let npm = d.npm_cache();
    let mut out: Vec<CacheGroup> = Vec::new();
    out.push(CacheGroup {
        words: words("thumbnails", "User cache", "Thumbnail cache", Risk::Safe,
            "Image previews generated by the file manager; regenerated when needed."),
        dirs: vec![d.cache.join_str("thumbnails")],
        unique: false,
    });
    out.push(CacheGroup {
        words: words("pip-cache", "Python", "pip download cache", Risk::Safe,
            "Wheels and HTTP responses cached by pip. Equivalent: pip cache purge"),
        dirs: vec![pip.join_str("http"), pip.join_str("http-v2"), pip.join_str("wheels"), pip.join_str("selfcheck")],
        unique: false,
    });
    out.push(CacheGroup {
        words: words("cargo-registry", "Rust", "Cargo registry cache", Risk::Moderate,
            "Downloaded .crate archives and their extracted sources. Cargo re-downloads what a build needs, so offline builds (--offline, vendored CI caches) break until you are online again. Do not clear it while a cargo build is running."),
        dirs: vec![d.cargo.join_str("registry/cache"), d.cargo.join_str("registry/src")],
        unique: false,
    });
    out.push(CacheGroup {
        words: words("cargo-git", "Rust", "Cargo git checkouts", Risk::Safe,
            "Checkouts of git dependencies; re-created from the git db on the next build."),
        dirs: vec![d.cargo.join_str("git/checkouts")],
        unique: true,
    });
    out.push(CacheGroup {
        words: words("npm-cache", "Node", "npm cache", Risk::Safe,
            "npm's content-addressable package cache. Equivalent: npm cache clean --force"),
        dirs: vec![npm.join_str("_cacache")],
        unique: false,
    });
    out.push(CacheGroup {
        words: words("trash", "User files", "Desktop Trash", Risk::Moderate,
            "Files you moved to the Trash. Emptying it is permanent — have a look first."),
        dirs: vec![d.data.join_str("Trash/files"), d.data.join_str("Trash/info")],
        unique: false,
    });
    proof {
        let want = user_groups(*d);
        assert(paths_view(out@[0].dirs@) =~= want[0].dirs);
        assert(paths_view(out@[1].dirs@) =~= want[1].dirs);
        assert(paths_view(out@[2].dirs@) =~= want[2].dirs);
        assert(paths_view(out@[3].dirs@) =~= want[3].dirs);
        assert(paths_view(out@[4].dirs@) =~= want[4].dirs);
        assert(paths_view(out@[5].dirs@) =~= want[5].dirs);
        assert(group_views(out@) =~= want);
    }
    out
}

/// The finding about a group of caches, as far as its folders were found.
pub open spec fn group_found(home: Seq<u8>, g: GroupView, sizes: Seq<Option<u64>>) -> Option<FindingView> {
    contents_view(home, g.words, found_paths(g.dirs, sizes), found_bytes(sizes, g.dirs.len() as int) as u64, None)
}

/// The finding about a group of caches: the folders of it that are real
/// directories. They themselves are kept (only their contents go), so their own
/// blocks are not reclaimable and not in `sizes`.
pub fn cache_dir_finding(home: &FsPath, group: CacheGroup, sizes: &Vec<Option<u64>>) -> (r: Option<Finding>)
    requires
        sizes@.len() == group.dirs@.len(),
        found_bytes(sizes@, group.dirs@.len() as int) <= u64::MAX,
    ensures
        opt_finding(r) == group_found(
            home@,
            (GroupView { words: group.words@, dirs: paths_view(group.dirs@), unique: group.unique }),
            sizes@,
        ),
{
    assert(paths_view(group.dirs@).len() == group.dirs@.len());
    let (dirs, bytes) = keep_found(&group.dirs, sizes);
    contents_finding(home, group.words, dirs, bytes, None)
}

/// The findings about the first `k` groups of caches.
pub open spec fn groups_found(home: Seq<u8>, groups: Seq<GroupView>, sizes: Seq<Vec<Option<u64>>>, k: int) -> Seq<FindingView>
    decreases k,
{
    if k <= 0 {
        Seq::empty()
    } else {
        groups_found(home, groups, sizes, k - 1) + opt_seq(group_found(home, groups[k - 1], sizes[k - 1]@))
    }
}

/// Every folder of every group was looked at, and the sizes add up.
pub open spec fn group_sizes_fit(groups: Seq<GroupView>, sizes: Seq<Vec<Option<u64>>>) -> bool {
    &&& sizes.len() == groups.len()
    &&& forall|i: int|
        0 <= i < sizes.len() ==> (#[trigger] sizes[i])@.len() == groups[i].dirs.len() && found_bytes(
            sizes[i]@,
            sizes[i]@.len() as int,
        ) <= u64::MAX
}

/// The findings about the per-user caches: `sizes` are what each folder of each
/// group (see `user_caches`) holds, if it is a real directory.
pub fn user_cache_findings(d: &Dirs, sizes: &Vec<Vec<Option<u64>>>) -> (r: Vec<Finding>)
    requires
        group_sizes_fit(user_groups(*d), sizes@),
    ensures
        finding_views(r@) == groups_found(d.home@, user_groups(*d), sizes@, sizes@.len() as int),
{
    let mut groups = user_caches(d);
    let ghost gv = group_views(groups@);
    let mut out: Vec<Finding> = Vec::new();
    assert(finding_views(out@) =~= Seq::empty());
    let n: usize = groups.len();
    assert(gv.len() == n);
    for i in 0..n
        invariant
            n == gv.len(),
            groups@.len() == n - i,
            gv == user_groups(*d),
            group_sizes_fit(gv, sizes@),
            group_views(groups@) == gv.skip(i as int),
            finding_views(out@) == groups_found(d.home@, gv, sizes@, i as int),
    {
        let ghost before = group_views(groups@);
        let g = groups.remove(0);
        proof {
            assert(gv.skip(i as int)[0] == gv[i as int]);
            assert(group_views(groups@) =~= before.skip(1));
            assert(before.skip(1) =~= gv.skip(i + 1));
            assert(group_views(groups@) =~= gv.skip(i + 1));
            assert(paths_view(g.dirs@).len() == g.dirs@.len());
            assert(sizes@[i as int]@.len() == gv[i as int].dirs.len());
        }
        push_opt(&mut out, cache_dir_finding(&d.home, g, &sizes[i]));
    }
    out
}

/// Whatever is emptied of a group is one of its own folders, and the folder
/// itself stays.
pub proof fn law_only_own_folders_are_emptied(home: Seq<u8>, g: GroupView, sizes: Seq<Option<u64>>, p: Seq<u8>)
    requires
        group_found(home, g, sizes) matches Some(f) && f.paths.contains(p),
    ensures
        g.dirs.contains(p),
        group_found(home, g, sizes) matches Some(f) && f.action == (ActionView::Remove { paths: f.paths, keep_dir: true }),
{
    lemma_found_among(g.dirs, sizes, p);
}

/// A finding is there, and says this of a cache.
pub open spec fn says(o: Option<FindingView>, id: Seq<char>, risk: Risk, paths: Seq<Seq<u8>>, bytes: u64, action: ActionView) -> bool {
    o matches Some(f) && f.id == id && f.risk == risk && f.paths == paths && f.bytes == bytes && f.action == action && !f.needs_root
}

/// What is in this one folder goes, and the folder stays.
pub open spec fn emptied(p: Seq<u8>) -> ActionView {
    ActionView::Remove { paths: seq![p], keep_dir: true }
}

pub open spec fn runs(command: Seq<char>) -> ActionView {
    ActionView::Shell { command }
}

/// Where the tools keep their caches.
pub proof fn law_tools_keep_their_caches_here(d: Dirs)
    ensures
        ({
            let t = tool_places(d);
            let npm = or_else(opt_path(d.npm), join_bytes(d.home@, encode_utf8(".npm"@)));
            &&& t.uv == d.uv@ && t.go_build == d.go_build@ && t.go_mod == d.go_mod@
            &&& t.poetry == join_bytes(d.cache@, encode_utf8("pypoetry/cache"@))
            &&& t.selenium == join_bytes(d.cache@, encode_utf8("selenium"@))
            &&& t.playwright == join_bytes(d.cache@, encode_utf8("ms-playwright"@))
            &&& t.mesa == join_bytes(d.cache@, encode_utf8("mesa_shader_cache"@))
            &&& t.mesa_db == join_bytes(d.cache@, encode_utf8("mesa_shader_cache_db"@))
            &&& t.npx == join_bytes(npm, encode_utf8("_npx"@))
            &&& t.yarn == join_bytes(d.cache@, encode_utf8("yarn"@))
            &&& t.pnpm == join_bytes(d.data@, encode_utf8("pnpm/store"@))
            &&& t.gradle_caches == join_bytes(d.home@, encode_utf8(".gradle/caches"@))
            &&& t.gradle_dists == join_bytes(d.home@, encode_utf8(".gradle/wrapper/dists"@))
            &&& t.huggingface == join_bytes(d.cache@, encode_utf8("huggingface/hub"@))
            &&& t.tracker == join_bytes(d.cache@, encode_utf8("tracker3"@))
        }),
{
}

/// Caches of the Python and test tools that use space are found: uv clears its
/// own where it is installed, the others are emptied.
pub proof fn law_python_and_test_caches(h: Seq<u8>, t: ToolPlaces, m: ToolReadings, have: Installed, n: u64)
    requires
        n > 0,
    ensures
        m.uv == Some(n) ==> says(
            uv_cache_view(h, t, m, have),
            "uv-cache"@,
            Risk::Safe,
            seq![t.uv],
            n,
            if have.uv { runs("uv cache clean"@) } else { emptied(t.uv) },
        ),
        m.poetry == Some(n) ==> says(poetry_cache_view(h, t, m), "poetry-cache"@, Risk::Safe, seq![t.poetry], n, emptied(t.poetry)),
        m.selenium == Some(n) ==> says(
            selenium_cache_view(h, t, m),
            "selenium-cache"@,
            Risk::Safe,
            seq![t.selenium],
            n,
            emptied(t.selenium),
        ),
        m.playwright == Some(n) ==> says(
            playwright_cache_view(h, t, m),
            "playwright-cache"@,
            Risk::Safe,
            seq![t.playwright],
            n,
            emptied(t.playwright),
        ),
{
}

/// Caches of the Node tools that use space are found: npx's is emptied unless a
/// program runs from it, Yarn's is emptied, and pnpm prunes its own store where
/// it is installed.
pub proof fn law_node_caches(h: Seq<u8>, t: ToolPlaces, m: ToolReadings, have: Installed, commands: Seq<Seq<char>>, n: u64)
    requires
        n > 0,
    ensures
        m.npx == Some(n) ==> says(
            npx_cache_view(h, t, m, commands),
            "npx-cache"@,
            Risk::Safe,
            seq![t.npx],
            n,
            if in_use(commands, "/_npx/"@) { ActionView::Manual } else { emptied(t.npx) },
        ),
        m.yarn == Some(n) ==> says(yarn_cache_view(h, t, m), "yarn-cache"@, Risk::Safe, seq![t.yarn], n, emptied(t.yarn)),
        m.pnpm == Some(n) ==> says(
            pnpm_store_view(h, t, m, have),
            "pnpm-store"@,
            Risk::Safe,
            seq![t.pnpm],
            n,
            if have.pnpm { runs("pnpm store prune"@) } else { ActionView::Manual },
        ),
{
}

/// Caches of the Go tools that use space are found: Go cleans both where it is
/// installed; without it the builds are emptied and the modules, which are
/// read-only, left to the user.
pub proof fn law_go_caches(h: Seq<u8>, t: ToolPlaces, m: ToolReadings, have: Installed, n: u64)
    requires
        n > 0,
    ensures
        m.go_build == Some(n) ==> says(
            go_build_cache_view(h, t, m, have),
            "go-build-cache"@,
            Risk::Safe,
            seq![t.go_build],
            n,
            if have.go { runs("go clean -cache"@) } else { emptied(t.go_build) },
        ),
        m.go_mod == Some(n) ==> says(
            go_mod_cache_view(h, t, m, have),
            "go-mod-cache"@,
            Risk::Moderate,
            seq![t.go_mod],
            n,
            if have.go { runs("go clean -modcache"@) } else { ActionView::Manual },
        ),
{
}

/// Models are always left to the user; the search index is reset by its own
/// tool, where that is installed.
pub proof fn law_models_and_the_search_index(h: Seq<u8>, t: ToolPlaces, m: ToolReadings, have: Installed, n: u64)
    requires
        n > 0,
    ensures
        m.huggingface == Some(n) ==> says(
            huggingface_hub_view(h, t, m),
            "huggingface-hub"@,
            Risk::Caution,
            seq![t.huggingface],
            n,
            ActionView::Manual,
        ),
        m.tracker == Some(n) ==> says(
            tracker3_view(h, t, m, have),
            "tracker3"@,
            Risk::Moderate,
            seq![t.tracker],
            n,
            if have.tracker3 { runs("tracker3 reset -s -r"@) } else { ActionView::Manual },
        ),
{
}

/// The two folders of the shader cache, and of Gradle, are found together, each
/// as far as it is there, and emptied.
pub proof fn law_shaders_and_gradle(h: Seq<u8>, t: ToolPlaces, m: ToolReadings, a: u64, b: u64)
    requires
        a > 0,
        a + b <= u64::MAX,
    ensures
        m.mesa == Some(a) && m.mesa_db == Some(b) ==> says(
            mesa_shader_cache_view(h, t, m),
            "mesa-shader-cache"@,
            Risk::Safe,
            seq![t.mesa, t.mesa_db],
            (a + b) as u64,
            ActionView::Remove { paths: seq![t.mesa, t.mesa_db], keep_dir: true },
        ),
        m.mesa == Some(a) && m.mesa_db is None ==> says(
            mesa_shader_cache_view(h, t, m),
            "mesa-shader-cache"@,
            Risk::Safe,
            seq![t.mesa],
            a,
            emptied(t.mesa),
        ),
        m.mesa is None && m.mesa_db == Some(a) ==> says(
            mesa_shader_cache_view(h, t, m),
            "mesa-shader-cache"@,
            Risk::Safe,
            seq![t.mesa_db],
            a,
            emptied(t.mesa_db),
        ),
        m.gradle_caches == Some(a) && m.gradle_dists == Some(b) ==> says(
            gradle_cache_view(h, t, m),
            "gradle-cache"@,
            Risk::Moderate,
            seq![t.gradle_caches, t.gradle_dists],
            (a + b) as u64,
            ActionView::Remove { paths: seq![t.gradle_caches, t.gradle_dists], keep_dir: true },
        ),
        m.gradle_caches == Some(a) && m.gradle_dists is None ==> says(
            gradle_cache_view(h, t, m),
            "gradle-cache"@,
            Risk::Moderate,
            seq![t.gradle_caches],
            a,
            emptied(t.gradle_caches),
        ),
        m.gradle_caches is None && m.gradle_dists == Some(a) ==> says(
            gradle_cache_view(h, t, m),
            "gradle-cache"@,
            Risk::Moderate,
            seq![t.gradle_dists],
            a,
            emptied(t.gradle_dists),
        ),
{
    lemma_two_found(t.mesa, m.mesa, t.mesa_db, m.mesa_db);
    lemma_two_found(t.gradle_caches, m.gradle_caches, t.gradle_dists, m.gradle_dists);
}

proof fn lemma_two_found(p: Seq<u8>, a: Option<u64>, q: Seq<u8>, b: Option<u64>)
    ensures
        found_paths(seq![p, q], seq![a, b]) == (if a is Some { seq![p] } else { Seq::empty() }) + (if b is Some {
            seq![q]
        } else {
            Seq::empty()
        }),
        a is Some && b is Some ==> found_paths(seq![p, q], seq![a, b]) == seq![p, q],
        a is Some && b is None ==> found_paths(seq![p, q], seq![a, b]) == seq![p],
        a is None && b is Some ==> found_paths(seq![p, q], seq![a, b]) == seq![q],
{
    reveal_with_fuel(found_paths, 3);
    let sizes = seq![a, b];
    assert(seq![p, q].drop_last() =~= seq![p]);
    assert(seq![p].drop_last() =~= Seq::empty());
    assert(found_paths(seq![p], sizes) =~= if a is Some { seq![p] } else { Seq::<Seq<u8>>::empty() });
    assert(found_paths(seq![p, q], sizes) =~= (if a is Some { seq![p] } else { Seq::<Seq<u8>>::empty() }) + (if b is Some {
        seq![q]
    } else {
        Seq::<Seq<u8>>::empty()
    }));
}

/// Conda cleans its own package cache, with the program that stands beside it;
/// where that is missing it is left to the user.
pub proof fn law_conda_caches(h: Seq<u8>, c: Conda, n: u64)
    requires
        n > 0,
        c.pkgs == Some(n),
    ensures
        ({
            let dir = join_bytes(h, encode_utf8(c.base@));
            let conda = join_bytes(dir, encode_utf8("bin/conda"@));
            says(
                conda_view(h, c),
                "conda-pkgs:"@ + c.base@,
                Risk::Safe,
                seq![join_bytes(dir, encode_utf8("pkgs"@))],
                n,
                if c.program && valid_utf8(conda) {
                    runs(quoted(lossy_text(conda)) + " clean -a -y"@)
                } else {
                    ActionView::Manual
                },
            )
        }),
{
}

/// A cache that is not there, or that uses no space, is not found.
pub proof fn law_empty_caches_are_not_found(
    h: Seq<u8>,
    t: ToolPlaces,
    m: ToolReadings,
    have: Installed,
    commands: Seq<Seq<char>>,
    c: Conda,
)
    ensures
        size_or_zero(m.uv) == 0 ==> uv_cache_view(h, t, m, have) is None,
        size_or_zero(m.poetry) == 0 ==> poetry_cache_view(h, t, m) is None,
        size_or_zero(m.selenium) == 0 ==> selenium_cache_view(h, t, m) is None,
        size_or_zero(m.playwright) == 0 ==> playwright_cache_view(h, t, m) is None,
        size_or_zero(m.npx) == 0 ==> npx_cache_view(h, t, m, commands) is None,
        size_or_zero(m.yarn) == 0 ==> yarn_cache_view(h, t, m) is None,
        size_or_zero(m.pnpm) == 0 ==> pnpm_store_view(h, t, m, have) is None,
        size_or_zero(m.go_build) == 0 ==> go_build_cache_view(h, t, m, have) is None,
        size_or_zero(m.go_mod) == 0 ==> go_mod_cache_view(h, t, m, have) is None,
        size_or_zero(m.huggingface) == 0 ==> huggingface_hub_view(h, t, m) is None,
        size_or_zero(m.tracker) == 0 ==> tracker3_view(h, t, m, have) is None,
        size_or_zero(c.pkgs) == 0 ==> conda_view(h, c) is None,
        size_or_zero(m.mesa) + size_or_zero(m.mesa_db) == 0 ==> mesa_shader_cache_view(h, t, m) is None,
        size_or_zero(m.gradle_caches) + size_or_zero(m.gradle_dists) == 0 ==> gradle_cache_view(h, t, m) is None,
{
}

proof fn lemma_sum_holds(a: Seq<FindingView>, b: Seq<FindingView>, x: FindingView)
    ensures
        (a + b).contains(x) <==> a.contains(x) || b.contains(x),
{
    if a.contains(x) {
        let k = choose|k: int| 0 <= k < a.len() && a[k] == x;
        assert((a + b)[k] == x);
    }
    if b.contains(x) {
        let k = choose|k: int| 0 <= k < b.len() && b[k] == x;
        assert((a + b)[a.len() + k] == x);
    }
    if (a + b).contains(x) {
        let k = choose|k: int| 0 <= k < (a + b).len() && (a + b)[k] == x;
        if k < a.len() {
            assert(a[k] == x);
        } else {
            assert(b[k - a.len()] == x);
        }
    }
}

proof fn lemma_one_holds(o: Option<FindingView>, x: FindingView)
    ensures
        opt_seq(o).contains(x) <==> o == Some(x),
{
    if o == Some(x) {
        assert(opt_seq(o)[0] == x);
    }
}

proof fn lemma_conda_holds(h: Seq<u8>, list: Seq<Conda>, x: FindingView)
    ensures
        conda_found(h, list).contains(x) <==> exists|i: int| 0 <= i < list.len() && conda_view(h, #[trigger] list[i]) == Some(x),
    decreases list.len(),
{
    if list.len() > 0 {
        let front = list.drop_last();
        lemma_conda_holds(h, front, x);
        lemma_one_holds(conda_view(h, list.last()), x);
        lemma_sum_holds(conda_found(h, front), opt_seq(conda_view(h, list.last())), x);
        if conda_found(h, list).contains(x) {
            if conda_found(h, front).contains(x) {
                let i = choose|i: int| 0 <= i < front.len() && conda_view(h, #[trigger] front[i]) == Some(x);
                assert(list[i] == front[i]);
            } else {
                assert(conda_view(h, list[list.len() - 1]) == Some(x));
            }
        }
        if exists|i: int| 0 <= i < list.len() && conda_view(h, #[trigger] list[i]) == Some(x) {
            let i = choose|i: int| 0 <= i < list.len() && conda_view(h, #[trigger] list[i]) == Some(x);
            if i < front.len() {
                assert(front[i] == list[i]);
            }
        }
    }
}

/// The findings about tools are those of the single tools, none left out.
pub proof fn law_every_tool_is_looked_at(d: Dirs, m: ToolReadings, have: Installed, commands: Seq<Seq<char>>, x: FindingView)
    ensures
        tools_found(d, m, have, commands).contains(x) <==> ({
            let (h, t) = (d.home@, tool_places(d));
            ||| uv_cache_view(h, t, m, have) == Some(x)
            ||| poetry_cache_view(h, t, m) == Some(x)
            ||| selenium_cache_view(h, t, m) == Some(x)
            ||| playwright_cache_view(h, t, m) == Some(x)
            ||| mesa_shader_cache_view(h, t, m) == Some(x)
            ||| npx_cache_view(h, t, m, commands) == Some(x)
            ||| yarn_cache_view(h, t, m) == Some(x)
            ||| pnpm_store_view(h, t, m, have) == Some(x)
            ||| go_build_cache_view(h, t, m, have) == Some(x)
            ||| go_mod_cache_view(h, t, m, have) == Some(x)
            ||| gradle_cache_view(h, t, m) == Some(x)
            ||| exists|i: int| 0 <= i < m.conda@.len() && conda_view(h, #[trigger] m.conda@[i]) == Some(x)
            ||| huggingface_hub_view(h, t, m) == Some(x)
            ||| tracker3_view(h, t, m, have) == Some(x)
        }),
{
    let (h, t) = (d.home@, tool_places(d));
    let (a, b, c) = (first_tools(h, t, m, have), node_tools(h, t, m, have, commands), compiled_tools(h, t, m, have));
    let (e, f) = (conda_found(h, m.conda@), last_tools(h, t, m, have));
    lemma_sum_holds(a, b, x);
    lemma_sum_holds(a + b, c, x);
    lemma_sum_holds(a + b + c, e, x);
    lemma_sum_holds(a + b + c + e, f, x);
    lemma_conda_holds(h, m.conda@, x);
    lemma_first_hold(h, t, m, have, x);
    lemma_node_hold(h, t, m, have, commands, x);
    lemma_compiled_hold(h, t, m, have, x);
    let (y, z) = (huggingface_hub_view(h, t, m), tracker3_view(h, t, m, have));
    lemma_one_holds(y, x);
    lemma_one_holds(z, x);
    lemma_sum_holds(opt_seq(y), opt_seq(z), x);
}

proof fn lemma_first_hold(h: Seq<u8>, t: ToolPlaces, m: ToolReadings, have: Installed, x: FindingView)
    ensures
        first_tools(h, t, m, have).contains(x) <==> uv_cache_view(h, t, m, have) == Some(x) || poetry_cache_view(h, t, m) == Some(x)
            || selenium_cache_view(h, t, m) == Some(x) || playwright_cache_view(h, t, m) == Some(x) || mesa_shader_cache_view(h, t, m)
            == Some(x),
{
    let (a, b, c) = (uv_cache_view(h, t, m, have), poetry_cache_view(h, t, m), selenium_cache_view(h, t, m));
    let (d, e) = (playwright_cache_view(h, t, m), mesa_shader_cache_view(h, t, m));
    lemma_one_holds(a, x);
    lemma_one_holds(b, x);
    lemma_one_holds(c, x);
    lemma_one_holds(d, x);
    lemma_one_holds(e, x);
    lemma_sum_holds(opt_seq(a), opt_seq(b), x);
    lemma_sum_holds(opt_seq(a) + opt_seq(b), opt_seq(c), x);
    lemma_sum_holds(opt_seq(a) + opt_seq(b) + opt_seq(c), opt_seq(d), x);
    lemma_sum_holds(opt_seq(a) + opt_seq(b) + opt_seq(c) + opt_seq(d), opt_seq(e), x);
}

proof fn lemma_node_hold(h: Seq<u8>, t: ToolPlaces, m: ToolReadings, have: Installed, commands: Seq<Seq<char>>, x: FindingView)
    ensures
        node_tools(h, t, m, have, commands).contains(x) <==> npx_cache_view(h, t, m, commands) == Some(x) || yarn_cache_view(h, t, m)
            == Some(x) || pnpm_store_view(h, t, m, have) == Some(x),
{
    let (a, b, c) = (npx_cache_view(h, t, m, commands), yarn_cache_view(h, t, m), pnpm_store_view(h, t, m, have));
    lemma_one_holds(a, x);
    lemma_one_holds(b, x);
    lemma_one_holds(c, x);
    lemma_sum_holds(opt_seq(a), opt_seq(b), x);
    lemma_sum_holds(opt_seq(a) + opt_seq(b), opt_seq(c), x);
}

proof fn lemma_compiled_hold(h: Seq<u8>, t: ToolPlaces, m: ToolReadings, have: Installed, x: FindingView)
    ensures
        compiled_tools(h, t, m, have).contains(x) <==> go_build_cache_view(h, t, m, have) == Some(x) || go_mod_cache_view(h, t, m, have)
            == Some(x) || gradle_cache_view(h, t, m) == Some(x),
{
    let (a, b, c) = (go_build_cache_view(h, t, m, have), go_mod_cache_view(h, t, m, have), gradle_cache_view(h, t, m));
    lemma_one_holds(a, x);
    lemma_one_holds(b, x);
    lemma_one_holds(c, x);
    lemma_sum_holds(opt_seq(a), opt_seq(b), x);
    lemma_sum_holds(opt_seq(a) + opt_seq(b), opt_seq(c), x);
}

/// The user's caches that are emptied, where they are, and how safe that is.
pub proof fn law_user_caches(d: Dirs)
    ensures
        ({
            let g = user_groups(d);
            let pip = or_else(opt_path(d.pip), join_bytes(d.cache@, encode_utf8("pip"@)));
            let npm = or_else(opt_path(d.npm), join_bytes(d.home@, encode_utf8(".npm"@)));
            &&& g.len() == 6
            &&& g[0].words.id == "thumbnails"@ && g[0].words.risk == Risk::Safe
            &&& g[0].dirs == seq![join_bytes(d.cache@, encode_utf8("thumbnails"@))]
            &&& g[1].words.id == "pip-cache"@ && g[1].words.risk == Risk::Safe
            &&& g[1].dirs == seq!["http"@, "http-v2"@, "wheels"@, "selfcheck"@].map_values(|s: Seq<char>| join_bytes(pip, encode_utf8(s)))
            &&& g[2].words.id == "cargo-registry"@ && g[2].words.risk == Risk::Moderate
            &&& g[2].dirs == seq!["registry/cache"@, "registry/src"@].map_values(|s: Seq<char>| join_bytes(d.cargo@, encode_utf8(s)))
            &&& g[3].words.id == "cargo-git"@ && g[3].words.risk == Risk::Safe
            &&& g[3].dirs == seq![join_bytes(d.cargo@, encode_utf8("git/checkouts"@))]
            &&& g[4].words.id == "npm-cache"@ && g[4].words.risk == Risk::Safe
            &&& g[4].dirs == seq![join_bytes(npm, encode_utf8("_cacache"@))]
            &&& g[5].words.id == "trash"@ && g[5].words.risk == Risk::Moderate
            &&& g[5].dirs == seq!["Trash/files"@, "Trash/info"@].map_values(|s: Seq<char>| join_bytes(d.data@, encode_utf8(s)))
            &&& forall|i: int| 0 <= i < 6 ==> ((#[trigger] g[i]).unique <==> i == 3)
        }),
{
    let g = user_groups(d);
    let pip = or_else(opt_path(d.pip), join_bytes(d.cache@, encode_utf8("pip"@)));
    assert(g[1].dirs =~= seq!["http"@, "http-v2"@, "wheels"@, "selfcheck"@].map_values(|s: Seq<char>| join_bytes(pip, encode_utf8(s))));
    assert(g[2].dirs =~= seq!["registry/cache"@, "registry/src"@].map_values(|s: Seq<char>| join_bytes(d.cargo@, encode_utf8(s))));
    assert(g[5].dirs =~= seq!["Trash/files"@, "Trash/info"@].map_values(|s: Seq<char>| join_bytes(d.data@, encode_utf8(s))));
}

/// A group of folders gives a finding as soon as one of them uses space: every
/// folder that is there is in it, and is emptied.
pub proof fn law_user_caches_are_found(
    home: Seq<u8>,
    groups: Seq<GroupView>,
    sizes: Seq<Vec<Option<u64>>>,
    k: int,
    i: int,
    j: int,
)
    requires
        group_sizes_fit(groups, sizes),
        0 <= i < k <= sizes.len(),
        0 <= j < sizes[i]@.len(),
        sizes[i]@[j] matches Some(n) && n > 0,
    ensures
        group_found(home, groups[i], sizes[i]@) matches Some(f) && {
            &&& groups_found(home, groups, sizes, k).contains(f)
            &&& f.paths.contains(groups[i].dirs[j])
            &&& f.id == groups[i].words.id && f.risk == groups[i].words.risk
            &&& f.bytes == found_bytes(sizes[i]@, sizes[i]@.len() as int)
            &&& f.action == (ActionView::Remove { paths: f.paths, keep_dir: true })
        },
    decreases k,
{
    let g = groups[i];
    law_found_is_what_has_a_size(g.dirs, sizes[i]@, j);
    let f = group_found(home, g, sizes[i]@)->0;
    let (a, b) = (groups_found(home, groups, sizes, k - 1), opt_seq(group_found(home, groups[k - 1], sizes[k - 1]@)));
    lemma_sum_holds(a, b, f);
    lemma_one_holds(group_found(home, groups[k - 1], sizes[k - 1]@), f);
    if i < k - 1 {
        law_user_caches_are_found(home, groups, sizes, k - 1, i, j);
    }
}

/// Started with sudo, a tool's own command is shown to the user instead of run;
/// what empties folders is unchanged.
pub proof fn law_root_shows_the_command(f: FindingView, command: Seq<char>)
    ensures
        f.action == (ActionView::Shell { command }) ==> as_seen_by_root(f).action is Manual && as_seen_by_root(f).detail
            == "Started with sudo: tools are not run as root against your caches. Run it as yourself: "@ + command + "\n\n"@ + f.detail,
        !(f.action is Shell) ==> as_seen_by_root(f) == f,
{
}

/// Where Conda is looked for, below the home folder.
pub proof fn law_conda_is_looked_for_here(r: Vec<&'static str>)
    requires
        call_ensures(conda_bases, (), r),
    ensures
        strs(r@) == seq!["anaconda3"@, "miniconda3"@, "miniforge3"@, ".conda"@],
{
}

} // verus!
