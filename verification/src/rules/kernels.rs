//! Old, inactive kernels.

use vstd::prelude::*;
use vstd::utf8::{decode_utf8, encode_utf8, encode_utf8_decode_utf8, valid_utf8};

use crate::names::{
    law_set_holds_the_list, lemma_name_order, lemma_set_of, lemma_set_of_same, name_before, num_lt, older_version,
    set_of, sort_dedup, version,
};
use crate::order::lex;
use crate::path::{
    comps, inside, join_bytes, lemma_join_comps, lossy_text, named, paths_view, plain_name, utf8_exact, FsPath,
};
use crate::rules::dpkg::{
    apt_sim_removals, image_releases, installed_kernel_images, installed_packages, kernel_live, kernel_version_live,
    law_images_are_the_image_packages, law_records_are_of_the_kernels, lemma_listed_live, listed_once, lookup, names_ending, names_of_versions, package_states, rc_kernel_packages,
    sim_changes, stanzas, state_of,
};
use crate::rules::{
    finding_views, knows_text, Action, ActionView, CheckOutput, Finding, FindingView, Risk,
};
use crate::text::{
    alpha, chars_of, copy_texts, decimal, digit, digits, ends, is_alpha, is_digit, join, joined,
    lemma_digit_char, lemma_ends, lemma_starts, lines, same, slice, starts, starts_with, string_of, strip_prefix, strip_suffix, texts,
};
use crate::util::{quoted, shq, shq_path};

verus! {

/// Where the flavour of a kernel release begins: at the first `-` followed by
/// a letter.
pub open spec fn flavour_at(s: Seq<char>, i: int) -> int
    decreases s.len() - i,
{
    if i >= s.len() {
        s.len() as int
    } else if s[i] == '-' && i + 1 < s.len() && is_alpha(s[i + 1]) {
        i
    } else {
        flavour_at(s, i + 1)
    }
}

/// Numeric ABI part of a kernel release.
pub open spec fn base_of(s: Seq<char>) -> Seq<char> {
    s.take(flavour_at(s, 0))
}

/// Numeric ABI part of a kernel release: `6.8.0-100-generic` -> `6.8.0-100`,
/// `6.8.0-100-generic-64k` -> `6.8.0-100`. The flavour starts at the first
/// `-` followed by a letter.
pub fn kernel_base(ver: &str) -> (r: String)
    ensures
        r@ == base_of(ver@),
{
    let v = chars_of(ver);
    let mut i: usize = 0;
    while i < v.len() && !(v[i] == '-' && i + 1 < v.len() && alpha(v[i + 1]))
        invariant
            i <= v@.len(),
            flavour_at(v@, 0) == flavour_at(v@, i as int),
        decreases v@.len() - i,
    {
        i += 1;
    }
    let b = slice(&v, 0, i);
    assert(b@ =~= base_of(ver@));
    string_of(&b)
}

/// What stands in `pkg` before `-` and `t`, if it ends so.
pub open spec fn before_token(pkg: Seq<char>, t: Seq<char>) -> Option<Seq<char>> {
    let p = pkg.take(pkg.len() - t.len());
    if ends(pkg, t) && p.len() > 0 && p.last() == '-' {
        Some(p.drop_last())
    } else {
        None
    }
}

fn token_suffix(pkg: &Vec<char>, t: &str) -> (r: Option<Vec<char>>)
    ensures
        r is Some <==> before_token(pkg@, t@) is Some,
        r matches Some(p) ==> before_token(pkg@, t@) == Some(p@),
{
    match strip_suffix(pkg, t) {
        Some(p) => if p.len() > 0 && p[p.len() - 1] == '-' {
            let q = slice(&p, 0, p.len() - 1);
            assert(q@ =~= p@.drop_last());
            Some(q)
        } else {
            None
        },
        None => None,
    }
}

/// A series such as `6.8`: digits and dots.
pub open spec fn is_series(s: Seq<char>) -> bool {
    s.len() > 0 && forall|i: int| 0 <= i < s.len() ==> is_digit(#[trigger] s[i]) || s[i] == '.'
}

fn check_series(s: &Vec<char>) -> (r: bool)
    ensures
        r == is_series(s@),
{
    for i in 0..s.len()
        invariant
            forall|j: int| 0 <= j < i ==> is_digit(#[trigger] s@[j]) || s@[j] == '.',
    {
        if !(digit(s[i]) || s[i] == '.') {
            assert(!(is_digit(s@[i as int]) || s@[i as int] == '.'));
            return false;
        }
    }
    s.len() > 0
}

/// `p` is `linux-hwe-<series>-headers` or `linux-hwe-<series>-tools`.
pub open spec fn hwe_family(p: Seq<char>) -> bool {
    starts(p, "linux-hwe-"@) && {
        let h = p.skip("linux-hwe-"@.len() as int);
        if ends(h, "-headers"@) {
            is_series(h.take(h.len() - "-headers"@.len()))
        } else {
            ends(h, "-tools"@) && is_series(h.take(h.len() - "-tools"@.len()))
        }
    }
}

/// Package `pkg` belongs to kernel `ver` with the given base.
pub open spec fn pkg_of_kernel(pkg: Seq<char>, ver: Seq<char>, base: Seq<char>, base_shared: bool) -> bool {
    &&& starts(pkg, "linux-"@)
    &&& (before_token(pkg, ver) is Some || (!base_shared && match before_token(pkg, base) {
        Some(p) => p == "linux-headers"@ || p == "linux-tools"@ || hwe_family(p),
        None => false,
    }))
}

/// Does dpkg package `pkg` belong to kernel `ver`? Flavoured packages end in
/// the full release (`linux-image-6.8.0-100-generic`); the flavour-less
/// `linux-headers-<base>`, `linux-tools-<base>`, `linux-hwe-*-headers-<base>`
/// and `linux-hwe-*-tools-<base>` only count when no kept kernel shares that
/// base. Matches are on whole `-` tokens, so `6.8.0-10` never matches `6.8.0-100`.
pub fn kernel_pkg_matches(pkg: &str, ver: &str, base: &str, base_shared: bool) -> (r: bool)
    ensures
        r == pkg_of_kernel(pkg@, ver@, base@, base_shared),
{
    let p = chars_of(pkg);
    if !starts_with(&p, "linux-") {
        return false;
    }
    if token_suffix(&p, ver).is_some() {
        return true;
    }
    if base_shared {
        return false;
    }
    match token_suffix(&p, base) {
        Some(q) => {
            let t = string_of(&q);
            if same(t.as_str(), "linux-headers") || same(t.as_str(), "linux-tools") {
                return true;
            }
            match strip_prefix(&q, "linux-hwe-") {
                Some(h) => match strip_suffix(&h, "-headers") {
                    Some(series) => check_series(&series),
                    None => match strip_suffix(&h, "-tools") {
                        Some(series) => check_series(&series),
                        None => false,
                    },
                },
                None => false,
            }
        },
        None => false,
    }
}

/// Where kernel files live.
pub struct KernelRoots {
    pub boot: FsPath,
    pub modules: FsPath,
    pub usr_src: FsPath,
    pub usr_lib: FsPath,
}

/// Names found where kernel files live (those that are valid UTF-8; others can
/// not be a kernel release we can act on).
pub struct KernelNames {
    /// Regular files in `boot`.
    pub boot: Vec<String>,
    pub modules: Vec<String>,
    pub usr_src: Vec<String>,
    pub usr_lib: Vec<String>,
}

/// A kernel that is not kept: what may belong to it.
pub struct OldKernel {
    pub ver: String,
    /// Files in `boot`.
    pub files: Vec<FsPath>,
    pub dirs: Vec<FsPath>,
    pub packages: Vec<String>,
}

#[verifier::ext_equal]
pub struct OldView {
    pub ver: Seq<char>,
    pub files: Seq<Seq<u8>>,
    pub dirs: Seq<Seq<u8>>,
    pub packages: Seq<Seq<char>>,
}

impl View for OldKernel {
    type V = OldView;

    open spec fn view(&self) -> OldView {
        OldView {
            ver: self.ver@,
            files: paths_view(self.files@),
            dirs: paths_view(self.dirs@),
            packages: texts(self.packages@),
        }
    }
}

pub open spec fn old_views(v: Seq<OldKernel>) -> Seq<OldView> {
    Seq::new(v.len(), |i: int| v[i]@)
}

/// The kernels that may go.
pub struct KernelPlan {
    /// The newest installed kernel.
    pub newest: String,
    pub old: Vec<OldKernel>,
}

/// The installed kernels, the newest last.
pub open spec fn installed_images(status: Seq<char>) -> Seq<Seq<char>> {
    set_of(true, image_releases(names_ending(stanzas(status), " installed"@)))
}

/// Kept: the running kernel and the two newest installed ones, the set that
/// Ubuntu's autoremove protects.
pub open spec fn kept(images: Seq<Seq<char>>, running: Seq<char>, v: Seq<char>) -> bool {
    ||| v == running
    ||| images.len() >= 1 && v == images[images.len() - 1]
    ||| images.len() >= 2 && v == images[images.len() - 2]
}

/// A kept kernel has this base.
pub open spec fn base_kept(images: Seq<Seq<char>>, running: Seq<char>, base: Seq<char>) -> bool {
    ||| base == base_of(running)
    ||| images.len() >= 1 && base == base_of(images[images.len() - 1])
    ||| images.len() >= 2 && base == base_of(images[images.len() - 2])
}

/// The releases of the kernel images among the files in `boot`.
pub open spec fn boot_releases(list: Seq<Seq<char>>) -> Seq<Seq<char>>
    decreases list.len(),
{
    if list.len() == 0 {
        Seq::empty()
    } else {
        let rest = boot_releases(list.drop_last());
        if starts(list.last(), "vmlinuz-"@) {
            rest.push(list.last().skip("vmlinuz-"@.len() as int))
        } else {
            rest
        }
    }
}

/// A full release: `6.8.0-100-generic`, not a flavour alone.
pub open spec fn is_release(v: Seq<char>) -> bool {
    v.len() > 0 && is_digit(v[0])
}

fn looks_like_release(v: &str) -> (r: bool)
    ensures
        r == is_release(v@),
{
    let c = chars_of(v);
    c.len() > 0 && digit(c[0])
}

/// The names in `list` that are full releases.
pub open spec fn release_names(list: Seq<Seq<char>>) -> Seq<Seq<char>>
    decreases list.len(),
{
    if list.len() == 0 {
        Seq::empty()
    } else {
        let rest = release_names(list.drop_last());
        if is_release(list.last()) {
            rest.push(list.last())
        } else {
            rest
        }
    }
}

fn full_releases(names: &Vec<String>) -> (r: Vec<String>)
    ensures
        texts(r@) == release_names(texts(names@)),
{
    let ghost list = texts(names@);
    let mut out: Vec<String> = Vec::new();
    assert(texts(out@) =~= Seq::empty());
    for i in 0..names.len()
        invariant
            list == texts(names@),
            texts(out@) == release_names(list.take(i as int)),
    {
        proof {
            assert(list.take(i + 1).drop_last() =~= list.take(i as int));
            assert(list.take(i + 1).last() == names@[i as int]@);
        }
        if looks_like_release(names[i].as_str()) {
            let ghost before = out@;
            let s = names[i].clone();
            out.push(s);
            assert(texts(out@) =~= texts(before).push(s@));
        }
    }
    assert(list.take(names@.len() as int) =~= list);
    out
}

proof fn lemma_release_names(list: Seq<Seq<char>>, v: Seq<char>)
    ensures
        release_names(list).contains(v) <==> is_release(v) && list.contains(v),
    decreases list.len(),
{
    if list.len() > 0 {
        let rest = release_names(list.drop_last());
        lemma_release_names(list.drop_last(), v);
        assert(list =~= list.drop_last().push(list.last()));
        lemma_push_contains(list.drop_last(), list.last(), v);
        lemma_push_contains(rest, list.last(), v);
    }
}

/// A kernel that something on this machine is named after: an installed image,
/// a kernel in `boot` whatever it is called, or a module directory that is
/// named after a full release.
pub open spec fn known_version(images: Seq<Seq<char>>, names: KernelNames, v: Seq<char>) -> bool {
    ||| images.contains(v)
    ||| boot_releases(texts(names.boot@)).contains(v)
    ||| is_release(v) && texts(names.modules@).contains(v)
}

/// Package `pkg` belongs to release `v`, alone or together with others of the
/// same base.
pub open spec fn belongs(pkg: Seq<char>, v: Seq<char>) -> bool {
    pkg_of_kernel(pkg, v, base_of(v), false)
}

/// Package `pkg` belongs to a kernel that is kept.
pub open spec fn of_kept(images: Seq<Seq<char>>, running: Seq<char>, pkg: Seq<char>) -> bool {
    ||| belongs(pkg, running)
    ||| images.len() >= 1 && belongs(pkg, images[images.len() - 1])
    ||| images.len() >= 2 && belongs(pkg, images[images.len() - 2])
}

/// The packages of `list` that belong to no kept kernel.
pub open spec fn spared(images: Seq<Seq<char>>, running: Seq<char>, list: Seq<Seq<char>>) -> Seq<Seq<char>>
    decreases list.len(),
{
    if list.len() == 0 {
        Seq::empty()
    } else {
        let rest = spared(images, running, list.drop_last());
        if of_kept(images, running, list.last()) {
            rest
        } else {
            rest.push(list.last())
        }
    }
}

proof fn lemma_spared(images: Seq<Seq<char>>, running: Seq<char>, list: Seq<Seq<char>>, p: Seq<char>)
    ensures
        spared(images, running, list).contains(p) <==> list.contains(p) && !of_kept(images, running, p),
    decreases list.len(),
{
    if list.len() > 0 {
        let rest = spared(images, running, list.drop_last());
        lemma_spared(images, running, list.drop_last(), p);
        assert(list =~= list.drop_last().push(list.last()));
        lemma_push_contains(list.drop_last(), list.last(), p);
        lemma_push_contains(rest, list.last(), p);
    }
}

/// The kernels that are kept.
struct Kept {
    running: String,
    newest: String,
    second: String,
}

impl Kept {
    /// They are those of the installed `images` and the running one.
    spec fn among(self, images: Seq<Seq<char>>, running: Seq<char>) -> bool {
        &&& self.running@ == running
        &&& self.newest@ == (if images.len() >= 1 {
            images[images.len() - 1]
        } else {
            running
        })
        &&& self.second@ == (if images.len() >= 2 {
            images[images.len() - 2]
        } else {
            self.newest@
        })
    }

    fn owns(&self, pkg: &str, Ghost(images): Ghost<Seq<Seq<char>>>) -> (r: bool)
        requires
            self.among(images, self.running@),
        ensures
            r == of_kept(images, self.running@, pkg@),
    {
        owned_by(pkg, self.running.as_str()) || owned_by(pkg, self.newest.as_str()) || owned_by(pkg, self.second.as_str())
    }

    fn spare(&self, list: &Vec<String>, Ghost(images): Ghost<Seq<Seq<char>>>) -> (r: Vec<String>)
        requires
            self.among(images, self.running@),
        ensures
            texts(r@) == spared(images, self.running@, texts(list@)),
    {
        let ghost all = texts(list@);
        let mut out: Vec<String> = Vec::new();
        assert(texts(out@) =~= Seq::empty());
        for i in 0..list.len()
            invariant
                self.among(images, self.running@),
                all == texts(list@),
                texts(out@) == spared(images, self.running@, all.take(i as int)),
        {
            proof {
                assert(all.take(i + 1).drop_last() =~= all.take(i as int));
                assert(all.take(i + 1).last() == list@[i as int]@);
            }
            if !self.owns(list[i].as_str(), Ghost(images)) {
                let ghost before = out@;
                let s = list[i].clone();
                out.push(s);
                assert(texts(out@) =~= texts(before).push(s@));
            }
        }
        assert(all.take(list@.len() as int) =~= all);
        out
    }
}

fn owned_by(pkg: &str, v: &str) -> (r: bool)
    ensures
        r == belongs(pkg@, v@),
{
    let base = kernel_base(v);
    kernel_pkg_matches(pkg, v, base.as_str(), false)
}

/// The installed kernels and those of them, with the running one, that are
/// kept.
fn kept_kernels(packages: &Vec<String>, running: &str, status: &str) -> (r: (Vec<String>, Kept))
    requires
        texts(packages@) == names_ending(stanzas(status@), " installed"@),
    ensures
        texts(r.0@) == installed_images(status@),
        r.1.among(installed_images(status@), running@),
{
    let found = installed_kernel_images(packages);
    let images = sort_dedup(true, &found);
    let ghost installed = names_ending(stanzas(status@), " installed"@);
    let ghost im = texts(images@);
    proof {
        lemma_set_of_same(true, texts(found@), image_releases(installed), im);
        assert(im.len() == images@.len());
    }
    let n: usize = images.len();
    let newest = if n >= 1 { images[n - 1].clone() } else { running.to_owned() };
    let second = if n >= 2 { images[n - 2].clone() } else { newest.clone() };
    assert(n >= 1 ==> newest@ == im[n - 1]);
    assert(n >= 2 ==> second@ == im[n - 2]);
    (images, Kept { running: running.to_owned(), newest, second })
}

/// The files of kernel `ver` in `boot`.
pub open spec fn boot_paths(boot: Seq<u8>, ver: Seq<char>) -> Seq<Seq<u8>> {
    seq![
        join_bytes(boot, encode_utf8("vmlinuz"@ + "-"@ + ver)),
        join_bytes(boot, encode_utf8("initrd.img"@ + "-"@ + ver)),
        join_bytes(boot, encode_utf8("System.map"@ + "-"@ + ver)),
        join_bytes(boot, encode_utf8("config"@ + "-"@ + ver)),
    ]
}

/// `n` is `linux-hwe-…-<kind>-<base>`.
pub open spec fn flavourless(n: Seq<char>, kind: Seq<char>, base: Seq<char>) -> bool {
    let tail = "-"@ + kind + "-"@ + base;
    ends(n, tail) && starts(n.take(n.len() - tail.len()), "linux-hwe-"@)
}

/// The directories of that kind among `list`.
pub open spec fn flavourless_dirs(dir: Seq<u8>, list: Seq<Seq<char>>, kind: Seq<char>, base: Seq<char>) -> Seq<Seq<u8>>
    decreases list.len(),
{
    if list.len() == 0 {
        Seq::empty()
    } else {
        let rest = flavourless_dirs(dir, list.drop_last(), kind, base);
        if flavourless(list.last(), kind, base) {
            rest.push(join_bytes(dir, encode_utf8(list.last())))
        } else {
            rest
        }
    }
}

/// The directories that may belong to kernel `ver`; those without a flavour
/// only where no kept kernel shares the base.
pub open spec fn dir_paths(roots: KernelRoots, names: KernelNames, ver: Seq<char>, base_shared: bool) -> Seq<Seq<u8>> {
    let base = base_of(ver);
    let own = seq![
        join_bytes(roots.modules@, encode_utf8(ver)),
        join_bytes(roots.usr_src@, encode_utf8("linux-headers-"@ + ver)),
        join_bytes(roots.usr_lib@, encode_utf8("linux-tools-"@ + ver)),
        join_bytes(join_bytes(roots.usr_lib@, encode_utf8("linux-tools"@)), encode_utf8(ver)),
    ];
    if !base_shared && base != ver {
        own.push(join_bytes(roots.usr_src@, encode_utf8("linux-headers-"@ + base))).push(
            join_bytes(roots.usr_lib@, encode_utf8("linux-tools-"@ + base)),
        ) + flavourless_dirs(roots.usr_src@, texts(names.usr_src@), "headers"@, base) + flavourless_dirs(
            roots.usr_lib@,
            texts(names.usr_lib@),
            "tools"@,
            base,
        )
    } else {
        own
    }
}

/// The packages of kernel `ver` among `list`.
pub open spec fn packages_of(list: Seq<Seq<char>>, ver: Seq<char>, base_shared: bool) -> Seq<Seq<char>>
    decreases list.len(),
{
    if list.len() == 0 {
        Seq::empty()
    } else {
        let rest = packages_of(list.drop_last(), ver, base_shared);
        if pkg_of_kernel(list.last(), ver, base_of(ver), base_shared) {
            rest.push(list.last())
        } else {
            rest
        }
    }
}

/// What is looked at for old kernel `ver`.
pub open spec fn old_kernel(
    roots: KernelRoots,
    names: KernelNames,
    installed: Seq<Seq<char>>,
    images: Seq<Seq<char>>,
    running: Seq<char>,
    ver: Seq<char>,
) -> OldView {
    let shared = base_kept(images, running, base_of(ver));
    OldView {
        ver,
        files: boot_paths(roots.boot@, ver),
        dirs: dir_paths(roots, names, ver, shared),
        packages: spared(images, running, packages_of(installed, ver, shared)),
    }
}

/// `old` lists every known kernel that is not kept, the oldest first.
pub open spec fn plan_of(
    roots: KernelRoots,
    names: KernelNames,
    status: Seq<char>,
    running: Seq<char>,
    old: Seq<OldView>,
) -> bool {
    let installed = names_ending(stanzas(status), " installed"@);
    let images = installed_images(status);
    &&& forall|i: int, j: int| 0 <= i < j < old.len() ==> name_before(true, (#[trigger] old[i]).ver, (#[trigger] old[j]).ver)
    &&& forall|v: Seq<char>|
        (exists|i: int| 0 <= i < old.len() && #[trigger] old[i].ver == v) <==> (#[trigger] known_version(images, names, v)
            && !kept(images, running, v))
    &&& forall|i: int|
        0 <= i < old.len() ==> #[trigger] old[i] == old_kernel(roots, names, installed, images, running, old[i].ver)
}

fn boot_versions(names: &Vec<String>) -> (r: Vec<String>)
    ensures
        texts(r@) == boot_releases(texts(names@)),
{
    let ghost list = texts(names@);
    let mut out: Vec<String> = Vec::new();
    assert(texts(out@) =~= Seq::empty());
    for i in 0..names.len()
        invariant
            list == texts(names@),
            texts(out@) == boot_releases(list.take(i as int)),
    {
        proof {
            assert(list.take(i + 1).drop_last() =~= list.take(i as int));
            assert(list.take(i + 1).last() == names@[i as int]@);
        }
        if let Some(v) = strip_prefix(&chars_of(names[i].as_str()), "vmlinuz-") {
            let ghost before = out@;
            let s = string_of(&v);
            out.push(s);
            assert(texts(out@) =~= texts(before).push(s@));
        }
    }
    assert(list.take(names@.len() as int) =~= list);
    out
}

fn is_flavourless(n: &str, kind: &str, base: &str) -> (r: bool)
    ensures
        r == flavourless(n@, kind@, base@),
{
    let tail = "-".to_owned().concat(kind).concat("-").concat(base);
    match strip_suffix(&chars_of(n), tail.as_str()) {
        Some(p) => starts_with(&p, "linux-hwe-"),
        None => false,
    }
}

fn add_flavourless(out: &mut Vec<FsPath>, dir: &FsPath, names: &Vec<String>, kind: &str, base: &str)
    ensures
        paths_view(final(out)@) == paths_view(old(out)@) + flavourless_dirs(dir@, texts(names@), kind@, base@),
{
    let ghost list = texts(names@);
    let ghost start = paths_view(out@);
    assert(start + flavourless_dirs(dir@, list.take(0), kind@, base@) =~= start);
    for i in 0..names.len()
        invariant
            list == texts(names@),
            paths_view(out@) == start + flavourless_dirs(dir@, list.take(i as int), kind@, base@),
    {
        proof {
            assert(list.take(i + 1).drop_last() =~= list.take(i as int));
            assert(list.take(i + 1).last() == names@[i as int]@);
        }
        if is_flavourless(names[i].as_str(), kind, base) {
            let ghost before = out@;
            let p = dir.join_str(names[i].as_str());
            out.push(p);
            assert(paths_view(out@) =~= paths_view(before).push(p@));
            assert(paths_view(out@) =~= start + flavourless_dirs(dir@, list.take(i + 1), kind@, base@));
        }
    }
    assert(list.take(names@.len() as int) =~= list);
}

fn kernel_packages(list: &Vec<String>, ver: &str, base: &str, base_shared: bool) -> (r: Vec<String>)
    requires
        base@ == base_of(ver@),
    ensures
        texts(r@) == packages_of(texts(list@), ver@, base_shared),
{
    let ghost all = texts(list@);
    let mut out: Vec<String> = Vec::new();
    assert(texts(out@) =~= Seq::empty());
    for i in 0..list.len()
        invariant
            base@ == base_of(ver@),
            all == texts(list@),
            texts(out@) == packages_of(all.take(i as int), ver@, base_shared),
    {
        proof {
            assert(all.take(i + 1).drop_last() =~= all.take(i as int));
            assert(all.take(i + 1).last() == list@[i as int]@);
        }
        if kernel_pkg_matches(list[i].as_str(), ver, base, base_shared) {
            let ghost before = out@;
            let s = list[i].clone();
            out.push(s);
            assert(texts(out@) =~= texts(before).push(s@));
        }
    }
    assert(all.take(list@.len() as int) =~= all);
    out
}

fn look_at(
    roots: &KernelRoots,
    names: &KernelNames,
    packages: &Vec<String>,
    ver: &str,
    kept: &Kept,
    Ghost(images): Ghost<Seq<Seq<char>>>,
) -> (r: OldKernel)
    requires
        kept.among(images, kept.running@),
    ensures
        r@ == old_kernel(*roots, *names, texts(packages@), images, kept.running@, ver@),
{
    let base = kernel_base(ver);
    let base_shared = base == kernel_base(kept.running.as_str()) || base == kernel_base(kept.newest.as_str()) || base
        == kernel_base(kept.second.as_str());
    assert(base_shared == base_kept(images, kept.running@, base_of(ver@)));
    let mut files: Vec<FsPath> = Vec::new();
    files.push(roots.boot.join_str("vmlinuz".to_owned().concat("-").concat(ver).as_str()));
    files.push(roots.boot.join_str("initrd.img".to_owned().concat("-").concat(ver).as_str()));
    files.push(roots.boot.join_str("System.map".to_owned().concat("-").concat(ver).as_str()));
    files.push(roots.boot.join_str("config".to_owned().concat("-").concat(ver).as_str()));
    assert(paths_view(files@) =~= boot_paths(roots.boot@, ver@));
    let mut dirs: Vec<FsPath> = Vec::new();
    dirs.push(roots.modules.join_str(ver));
    dirs.push(roots.usr_src.join_str("linux-headers-".to_owned().concat(ver).as_str()));
    dirs.push(roots.usr_lib.join_str("linux-tools-".to_owned().concat(ver).as_str()));
    dirs.push(roots.usr_lib.join_str("linux-tools").join_str(ver));
    let ghost own = paths_view(dirs@);
    if !base_shared && !same(base.as_str(), ver) {
        dirs.push(roots.usr_src.join_str("linux-headers-".to_owned().concat(base.as_str()).as_str()));
        dirs.push(roots.usr_lib.join_str("linux-tools-".to_owned().concat(base.as_str()).as_str()));
        add_flavourless(&mut dirs, &roots.usr_src, &names.usr_src, "headers", base.as_str());
        add_flavourless(&mut dirs, &roots.usr_lib, &names.usr_lib, "tools", base.as_str());
    }
    assert(paths_view(dirs@) =~= dir_paths(*roots, *names, ver@, base_shared));
    let packages = kept.spare(&kernel_packages(packages, ver, base.as_str(), base_shared), Ghost(images));
    OldKernel { ver: ver.to_owned(), files, dirs, packages }
}

/// The kernels that are neither running nor one of the two newest installed,
/// with what may belong to them. `None` where the package database names no
/// kernel or the running one is unknown: then nothing can be judged safely.
pub fn kernel_plan(roots: &KernelRoots, running: &str, status: &str, names: &KernelNames) -> (r: Option<KernelPlan>)
    ensures
        r is None <==> installed_images(status@).len() == 0 || running@.len() == 0,
        r matches Some(p) ==> p.newest@ == installed_images(status@).last() && plan_of(
            *roots,
            *names,
            status@,
            running@,
            old_views(p.old@),
        ),
{
    let packages = installed_packages(status);
    let (images, stay) = kept_kernels(&packages, running, status);
    let ghost installed = names_ending(stanzas(status@), " installed"@);
    let ghost im = texts(images@);
    assert(im.len() == images@.len());
    if images.len() == 0 || running.is_empty() {
        return None;
    }
    let mut boot = boot_versions(&names.boot);
    let mut all = copy_texts(&images);
    let mut modules = full_releases(&names.modules);
    all.append(&mut boot);
    all.append(&mut modules);
    let ghost every = texts(all@);
    assert(every =~= im + boot_releases(texts(names.boot@)) + release_names(texts(names.modules@)));
    let mut rest: Vec<String> = Vec::new();
    for i in 0..all.len()
        invariant
            every == texts(all@),
            im.len() >= 1,
            stay.among(im, running@),
            forall|v: Seq<char>|
                #[trigger] texts(rest@).contains(v) <==> (every.take(i as int).contains(v) && !kept(im, running@, v)),
    {
        let ghost before = rest@;
        let keep = all[i] == stay.running || all[i] == stay.newest || all[i] == stay.second;
        let ghost v = all@[i as int]@;
        assert(keep == kept(im, running@, v));
        assert(every.take(i + 1) =~= every.take(i as int).push(v));
        if !keep {
            let s = all[i].clone();
            rest.push(s);
            assert(texts(rest@) =~= texts(before).push(v));
        }
        proof {
            assert forall|w: Seq<char>|
                #[trigger] texts(rest@).contains(w) <==> (every.take(i + 1).contains(w) && !kept(im, running@, w)) by {
                lemma_push_contains(every.take(i as int), v, w);
                lemma_push_contains(texts(before), v, w);
                assert(texts(before).contains(w) <==> (every.take(i as int).contains(w) && !kept(im, running@, w)));
            }
        }
    }
    assert(every.take(all@.len() as int) =~= every);
    let vers = sort_dedup(true, &rest);
    let ghost vs = texts(vers@);
    let mut old: Vec<OldKernel> = Vec::new();
    for i in 0..vers.len()
        invariant
            vs == texts(vers@),
            im.len() >= 1,
            stay.among(im, running@),
            texts(packages@) == installed,
            old@.len() == i,
            forall|j: int|
                0 <= j < i ==> #[trigger] old@[j]@ == old_kernel(*roots, *names, installed, im, running@, vs[j]),
    {
        old.push(look_at(roots, names, &packages, vers[i].as_str(), &stay, Ghost(im)));
    }
    proof {
        let ov = old_views(old@);
        assert forall|i: int| 0 <= i < ov.len() implies #[trigger] ov[i] == old_kernel(
            *roots,
            *names,
            installed,
            im,
            running@,
            ov[i].ver,
        ) && ov[i].ver == vs[i] by {
            assert(ov[i] == old@[i]@);
        }
        assert(im == installed_images(status@));
        assert forall|v: Seq<char>|
            (exists|i: int| 0 <= i < ov.len() && #[trigger] ov[i].ver == v) <==> (#[trigger] known_version(im, *names, v)
                && !kept(im, running@, v)) by {
            assert(vs.contains(v) <==> texts(rest@).contains(v));
            lemma_concat_contains(im, boot_releases(texts(names.boot@)), release_names(texts(names.modules@)), v);
            lemma_release_names(texts(names.modules@), v);
            if vs.contains(v) {
                let w = choose|w: int| 0 <= w < vs.len() && vs[w] == v;
                assert(ov[w].ver == v);
            }
            if exists|i: int| 0 <= i < ov.len() && #[trigger] ov[i].ver == v {
                let w = choose|i: int| 0 <= i < ov.len() && #[trigger] ov[i].ver == v;
                assert(vs[w] == v);
            }
        }
        assert forall|i: int, j: int| 0 <= i < j < ov.len() implies name_before(
            true,
            (#[trigger] ov[i]).ver,
            (#[trigger] ov[j]).ver,
        ) by {
            assert(ov[i].ver == vs[i] && ov[j].ver == vs[j]);
        }
    }
    Some(KernelPlan { newest: stay.newest, old })
}

pub proof fn lemma_push_contains<T>(s: Seq<T>, x: T, v: T)
    ensures
        s.push(x).contains(v) <==> s.contains(v) || v == x,
{
    if s.contains(v) {
        let w = choose|w: int| 0 <= w < s.len() && s[w] == v;
        assert(s.push(x)[w] == v);
    }
    assert(s.push(x)[s.len() as int] == x);
    if s.push(x).contains(v) && v != x {
        let w = choose|w: int| 0 <= w < s.push(x).len() && s.push(x)[w] == v;
        assert(s[w] == v);
    }
}

proof fn lemma_concat_contains(a: Seq<Seq<char>>, b: Seq<Seq<char>>, c: Seq<Seq<char>>, v: Seq<char>)
    ensures
        (a + b + c).contains(v) <==> a.contains(v) || b.contains(v) || c.contains(v),
{
    let s = a + b + c;
    if a.contains(v) {
        let w = choose|w: int| 0 <= w < a.len() && a[w] == v;
        assert(s[w] == v);
    }
    if b.contains(v) {
        let w = choose|w: int| 0 <= w < b.len() && b[w] == v;
        assert(s[a.len() + w] == v);
    }
    if c.contains(v) {
        let w = choose|w: int| 0 <= w < c.len() && c[w] == v;
        assert(s[a.len() + b.len() + w] == v);
    }
    if s.contains(v) {
        let w = choose|w: int| 0 <= w < s.len() && s[w] == v;
        if w < a.len() {
            assert(a[w] == v);
        } else if w < a.len() + b.len() {
            assert(b[w - a.len()] == v);
        } else {
            assert(c[w - a.len() - b.len()] == v);
        }
    }
}

/// Nothing that is kept is ever among the old kernels.
pub proof fn law_kept_kernels_are_never_listed(
    roots: KernelRoots,
    names: KernelNames,
    status: Seq<char>,
    running: Seq<char>,
    old: Seq<OldView>,
    i: int,
)
    requires
        plan_of(roots, names, status, running, old),
        0 <= i < old.len(),
    ensures
        old[i].ver != running,
        installed_images(status).len() >= 1 ==> old[i].ver != installed_images(status).last(),
        installed_images(status).len() >= 2 ==> old[i].ver != installed_images(status)[installed_images(status).len() - 2],
{
    let images = installed_images(status);
    let v = old[i].ver;
    let known = known_version(images, names, v);
    assert(old[i].ver == v);
    assert((exists|j: int| 0 <= j < old.len() && #[trigger] old[j].ver == v) <==> (known && !kept(images, running, v)));
}

/// No package that would be purged with an old kernel belongs to a kept one,
/// neither by its full release nor by a base that it shares.
pub proof fn law_kept_packages_are_never_purged(
    roots: KernelRoots,
    names: KernelNames,
    status: Seq<char>,
    running: Seq<char>,
    old: Seq<OldView>,
    i: int,
    k: Seq<char>,
    p: Seq<char>,
)
    requires
        plan_of(roots, names, status, running, old),
        0 <= i < old.len(),
        kept(installed_images(status), running, k),
        old[i].packages.contains(p),
    ensures
        !belongs(p, k),
        p != "linux-image-"@ + k,
{
    let images = installed_images(status);
    let list = packages_of(
        names_ending(stanzas(status), " installed"@),
        old[i].ver,
        base_kept(images, running, base_of(old[i].ver)),
    );
    assert(old[i] == old_kernel(
        roots,
        names,
        names_ending(stanzas(status), " installed"@),
        images,
        running,
        old[i].ver,
    ));
    lemma_spared(images, running, list, p);
    if p == "linux-image-"@ + k {
        lemma_own_package("linux-image-", k);
    }
}

/// No removed package whose record is purged with the leftover directories
/// belongs to a kept kernel.
pub proof fn law_kept_records_are_never_purged(
    paths: Seq<Seq<u8>>,
    running: Seq<char>,
    status: Seq<char>,
    k: Seq<char>,
    p: Seq<char>,
)
    requires
        kept(installed_images(status), running, k),
        leftover_records(paths, running, status).contains(p),
    ensures
        !belongs(p, k),
{
    lemma_spared(
        installed_images(status),
        running,
        set_of(false, names_of_versions(names_ending(stanzas(status), "config-files"@), leaf_texts(paths))),
        p,
    );
}

/// A kernel image package belongs to its release.
proof fn lemma_own_package(prefix: &str, k: Seq<char>)
    requires
        prefix@ == "linux-image-"@,
    ensures
        belongs(prefix@ + k, k),
{
    reveal_strlit("linux-image-");
    reveal_strlit("linux-");
    let pkg = prefix@ + k;
    assert(pkg.take(6) =~= "linux-"@);
    assert(pkg.skip(pkg.len() - k.len()) =~= k);
    assert(pkg.take(pkg.len() - k.len()) =~= prefix@);
}

/// What is done about old kernels leaves every kept one alone: no finding is
/// about a kept kernel, and a command that one of them runs purges only
/// packages of the old kernel that belong to no kept one.
pub proof fn law_findings_leave_kept_kernels_alone(
    roots: KernelRoots,
    names: KernelNames,
    status: Seq<char>,
    running: Seq<char>,
    newest: Seq<char>,
    old: Seq<OldView>,
    facts: Seq<KernelFacts>,
    n: int,
    j: int,
    k: Seq<char>,
)
    requires
        plan_of(roots, names, status, running, old),
        0 <= n <= old.len(),
        0 <= j < kernels_found(old, facts, roots.modules@, running, newest, status, n).len(),
        kept(installed_images(status), running, k),
    ensures
        ({
            let f = kernels_found(old, facts, roots.modules@, running, newest, status, n)[j];
            &&& f.id != "kernel:"@ + k
            &&& f.action is Manual || exists|i: int| #![trigger old[i]]
                0 <= i < old.len() && f.action == (ActionView::Shell {
                    command: "sudo apt-get -o DPkg::Lock::Timeout=120 purge -y "@ + join(
                        text_words(old[i].packages),
                        " "@,
                    ),
                }) && forall|p: Seq<char>| #[trigger] old[i].packages.contains(p) ==> !belongs(p, k)
        }),
    decreases n,
{
    let rest = kernels_found(old, facts, roots.modules@, running, newest, status, n - 1);
    if j < rest.len() {
        law_findings_leave_kept_kernels_alone(roots, names, status, running, newest, old, facts, n - 1, j, k);
    } else {
        let i = n - 1;
        let images = installed_images(status);
        let f = kernels_found(old, facts, roots.modules@, running, newest, status, n)[j];
        law_kept_kernels_are_never_listed(roots, names, status, running, old, i);
        assert(f.id == "kernel:"@ + old[i].ver);
        if f.id == "kernel:"@ + k {
            assert(f.id.skip("kernel:"@.len() as int) =~= k);
            assert(f.id.skip("kernel:"@.len() as int) =~= old[i].ver);
        }
        assert forall|p: Seq<char>| #[trigger] old[i].packages.contains(p) implies !belongs(p, k) by {
            law_kept_packages_are_never_purged(roots, names, status, running, old, i, k, p);
        }
    }
}

/// `p` is a path that is looked at for old kernel `k`.
pub open spec fn looked_at(k: OldView, p: Seq<u8>) -> bool {
    k.files.contains(p) || k.dirs.contains(p)
}

/// What is deleted as a leftover was found of an old kernel that is not kept.
pub proof fn law_leftovers_are_of_old_kernels(
    roots: KernelRoots,
    names: KernelNames,
    status: Seq<char>,
    running: Seq<char>,
    newest: Seq<char>,
    old: Seq<OldView>,
    facts: Seq<KernelFacts>,
    n: int,
    p: Seq<u8>,
)
    requires
        plan_of(roots, names, status, running, old),
        0 <= n <= old.len(),
        leftover_paths(old, facts, roots.modules@, running, newest, status, n).contains(p),
    ensures
        inside(p, roots.modules@),
        exists|i: int| 0 <= i < n && #[trigger] looked_at(old[i], p) && !kept(installed_images(status), running, old[i].ver),
    decreases n,
{
    let rest = leftover_paths(old, facts, roots.modules@, running, newest, status, n - 1);
    if n > 0 {
        if rest.contains(p) {
            law_leftovers_are_of_old_kernels(roots, names, status, running, newest, old, facts, n - 1, p);
            let i = choose|i: int|
                0 <= i < n - 1 && #[trigger] looked_at(old[i], p) && !kept(installed_images(status), running, old[i].ver);
            assert(looked_at(old[i], p));
        } else {
            let (o, f) = (old[n - 1], facts[n - 1]);
            let (a, b) = (found_paths(o.files, f.files@), found_paths(o.dirs, f.dirs@));
            let all = leftover_paths(old, facts, roots.modules@, running, newest, status, n);
            let w = choose|w: int| 0 <= w < all.len() && all[w] == p;
            if w < rest.len() {
                assert(rest[w] == p);
            }
            let paths = a + b;
            assert(paths[w - rest.len()] == p);
            if w - rest.len() < a.len() {
                assert(a[w - rest.len()] == p);
            } else {
                assert(b[w - rest.len() - a.len()] == p);
            }
            lemma_found_among(o.files, f.files@, p);
            lemma_found_among(o.dirs, f.dirs@, p);
            law_kept_kernels_are_never_listed(roots, names, status, running, old, n - 1);
            assert(looked_at(old[n - 1], p));
        }
    }
}

/// The module directories of two kernels are apart: to delete that of one never
/// deletes anything of the other.
pub proof fn law_module_directories_are_apart(modules: Seq<u8>, ver: Seq<char>, k: Seq<char>)
    requires
        ver != k,
        plain_name(encode_utf8(ver)),
        plain_name(encode_utf8(k)),
    ensures
        !inside(join_bytes(modules, encode_utf8(k)), join_bytes(modules, encode_utf8(ver))),
{
    let (a, b) = (encode_utf8(ver), encode_utf8(k));
    lemma_join_comps(modules, a);
    lemma_join_comps(modules, b);
    let (p, q) = (join_bytes(modules, a), join_bytes(modules, b));
    if inside(q, p) {
        let n = comps(p).len() as int;
        assert(comps(q).subrange(0, n)[n - 1] == comps(p)[n - 1]);
        assert(a == b);
        encode_utf8_decode_utf8(ver);
        encode_utf8_decode_utf8(k);
    }
}

/// What was found was looked for.
pub proof fn lemma_found_among(list: Seq<Seq<u8>>, sizes: Seq<Option<u64>>, p: Seq<u8>)
    ensures
        found_paths(list, sizes).contains(p) ==> list.contains(p),
        found_paths(list, sizes).len() <= list.len(),
    decreases list.len(),
{
    if list.len() > 0 {
        let rest = found_paths(list.drop_last(), sizes);
        lemma_found_among(list.drop_last(), sizes, p);
        lemma_push_contains(rest, list.last(), p);
        assert(list =~= list.drop_last().push(list.last()));
        lemma_push_contains(list.drop_last(), list.last(), p);
    }
}

/// While a kept kernel shares the base of an old one, only packages that carry
/// the full release of the old one are purged with it.
pub proof fn law_shared_packages_stay(list: Seq<Seq<char>>, ver: Seq<char>, i: int)
    requires
        0 <= i < packages_of(list, ver, true).len(),
    ensures
        before_token(packages_of(list, ver, true)[i], ver) is Some,
        list.contains(packages_of(list, ver, true)[i]),
    decreases list.len(),
{
    let rest = packages_of(list.drop_last(), ver, true);
    if i < rest.len() {
        law_shared_packages_stay(list.drop_last(), ver, i);
        let p = rest[i];
        let w = choose|w: int| 0 <= w < list.drop_last().len() && list.drop_last()[w] == p;
        assert(list[w] == p);
    } else {
        assert(list[list.len() - 1] == list.last());
    }
}

/// What was found of an old kernel.
pub struct KernelFacts {
    /// Allocated bytes of each of its files that exists.
    pub files: Vec<Option<u64>>,
    /// Bytes below each of its directories that is a real one.
    pub dirs: Vec<Option<u64>>,
    /// Output of `apt-get -s purge` of its packages, if that could be run.
    pub simulated: Option<String>,
}

/// The paths of `list` that were found.
pub open spec fn found_paths(list: Seq<Seq<u8>>, sizes: Seq<Option<u64>>) -> Seq<Seq<u8>>
    decreases list.len(),
{
    if list.len() == 0 {
        Seq::empty()
    } else {
        let rest = found_paths(list.drop_last(), sizes);
        if sizes[list.len() - 1] is Some {
            rest.push(list.last())
        } else {
            rest
        }
    }
}

/// The bytes of the first `n` that were found.
pub open spec fn found_bytes(sizes: Seq<Option<u64>>, n: int) -> nat
    decreases n,
{
    if n <= 0 {
        0
    } else {
        found_bytes(sizes, n - 1) + match sizes[n - 1] {
            Some(b) => b as nat,
            None => 0,
        }
    }
}

pub open spec fn all_inside(paths: Seq<Seq<u8>>, dir: Seq<u8>) -> bool {
    forall|i: int| 0 <= i < paths.len() ==> inside(#[trigger] paths[i], dir)
}

/// The names in `list` that `known` does not hold.
pub open spec fn not_among(list: Seq<Seq<char>>, known: Seq<Seq<char>>) -> Seq<Seq<char>>
    decreases list.len(),
{
    if list.len() == 0 {
        Seq::empty()
    } else {
        let rest = not_among(list.drop_last(), known);
        if known.contains(list.last()) {
            rest
        } else {
            rest.push(list.last())
        }
    }
}

pub(crate) proof fn lemma_not_among(list: Seq<Seq<char>>, known: Seq<Seq<char>>)
    ensures
        not_among(list, known).len() == 0 ==> forall|n: Seq<char>| list.contains(n) ==> known.contains(n),
    decreases list.len(),
{
    if list.len() > 0 && not_among(list, known).len() == 0 {
        lemma_not_among(list.drop_last(), known);
        assert forall|n: Seq<char>| list.contains(n) implies known.contains(n) by {
            let w = choose|w: int| 0 <= w < list.len() && list[w] == n;
            if w < list.len() - 1 {
                assert(list.drop_last()[w] == n);
                assert(list.drop_last().contains(n));
            }
        }
    }
}

/// The shell words for a list of texts.
pub open spec fn text_words(list: Seq<Seq<char>>) -> Seq<Seq<char>> {
    Seq::new(list.len(), |i: int| quoted(list[i]))
}

pub(crate) fn quote_texts(v: &Vec<String>) -> (r: Vec<String>)
    ensures
        texts(r@) == text_words(texts(v@)),
{
    let mut out: Vec<String> = Vec::new();
    for i in 0..v.len()
        invariant
            texts(out@) == text_words(texts(v@)).take(i as int),
    {
        let ghost before = out@;
        let w = shq(v[i].as_str());
        out.push(w);
        assert(texts(out@) =~= texts(before).push(w@));
        assert(texts(out@) =~= text_words(texts(v@)).take(i + 1));
    }
    assert(texts(out@) =~= text_words(texts(v@)));
    out
}

/// What is done about a kernel with packages, given what a dry run of purging
/// them would change beyond them.
pub open spec fn purge_action(pkgs: Seq<Seq<char>>, simulated: Option<Seq<char>>) -> ActionView {
    match simulated {
        Some(sim) if set_of(false, not_among(sim_changes(lines(sim)), pkgs)).len() == 0 => ActionView::Shell {
            command: "sudo apt-get -o DPkg::Lock::Timeout=120 purge -y "@ + join(text_words(pkgs), " "@),
        },
        _ => ActionView::Manual,
    }
}

pub open spec fn purge_detail(
    ver: Seq<char>,
    running: Seq<char>,
    newest: Seq<char>,
    pkgs: Seq<Seq<char>>,
    simulated: Option<Seq<char>>,
) -> Seq<char> {
    match simulated {
        None => "Kernel "@ + ver
            + " is not in use, but `apt-get -s purge` could not verify what purging its packages would remove. Review it with:\n  apt-get -s purge "@
            + join(pkgs, " "@),
        Some(sim) => {
            let extra = set_of(false, not_among(sim_changes(lines(sim)), pkgs));
            if extra.len() > 0 {
                "Kernel "@ + ver + " is not in use, but purging its packages would also change "@ + join(extra, ", "@)
                    + " (e.g. remove the kernel metapackage that keeps future kernel updates coming). Not done automatically; review with:\n  apt-get -s purge "@
                    + join(pkgs, " "@)
            } else {
                "Kernel "@ + ver + " is neither the running kernel ("@ + running
                    + ") nor one of the two newest installed ones (newest: "@ + newest
                    + "), which Ubuntu keeps as fallbacks. Purging exactly its packages removes the image, initrd, modules, headers and tools and updates GRUB; a dry run (apt-get -s) confirmed nothing else is removed."@
            }
        },
    }
}

/// What becomes of an old kernel.
pub enum KernelFate {
    /// There is nothing of it, or it must not be touched.
    Nothing,
    /// Only a module directory is left of it.
    Leftover,
    Found(FindingView),
}

pub open spec fn kernel_fate(
    k: OldView,
    f: KernelFacts,
    modules: Seq<u8>,
    running: Seq<char>,
    newest: Seq<char>,
    status: Seq<char>,
) -> KernelFate {
    let paths = found_paths(k.files, f.files@) + found_paths(k.dirs, f.dirs@);
    let bytes = (found_bytes(f.files@, k.files.len() as int) + found_bytes(f.dirs@, k.dirs.len() as int)) as u64;
    let sim = match f.simulated {
        Some(s) => Some(s@),
        None => None,
    };
    let finding = FindingView {
        id: "kernel:"@ + k.ver,
        category: "Kernels"@,
        title: "Inactive kernel "@ + k.ver,
        risk: Risk::Moderate,
        bytes,
        detail: purge_detail(k.ver, running, newest, k.packages, sim),
        paths,
        action: purge_action(k.packages, sim),
        needs_root: true,
    };
    if k.packages.len() > 0 {
        KernelFate::Found(finding)
    } else if paths.len() == 0 {
        KernelFate::Nothing
    } else if all_inside(paths, modules) {
        if !kernel_live(stanzas(status), k.ver) && lex(version(k.ver), version(newest), num_lt()) {
            KernelFate::Leftover
        } else {
            // Being installed right now, or newer than every installed image.
            KernelFate::Nothing
        }
    } else {
        KernelFate::Found(
            FindingView {
                detail: "Kernel "@ + k.ver
                    + " files were found but no matching dpkg package; it was probably installed by hand. Remove it the same way it was installed."@,
                action: ActionView::Manual,
                ..finding
            },
        )
    }
}

/// The findings about the first `n` old kernels.
pub open spec fn kernels_found(
    old: Seq<OldView>,
    facts: Seq<KernelFacts>,
    modules: Seq<u8>,
    running: Seq<char>,
    newest: Seq<char>,
    status: Seq<char>,
    n: int,
) -> Seq<FindingView>
    decreases n,
{
    if n <= 0 {
        Seq::empty()
    } else {
        let rest = kernels_found(old, facts, modules, running, newest, status, n - 1);
        match kernel_fate(old[n - 1], facts[n - 1], modules, running, newest, status) {
            KernelFate::Found(f) => rest.push(f),
            _ => rest,
        }
    }
}

/// The leftover paths of the first `n` old kernels.
pub open spec fn leftover_paths(
    old: Seq<OldView>,
    facts: Seq<KernelFacts>,
    modules: Seq<u8>,
    running: Seq<char>,
    newest: Seq<char>,
    status: Seq<char>,
    n: int,
) -> Seq<Seq<u8>>
    decreases n,
{
    if n <= 0 {
        Seq::empty()
    } else {
        let rest = leftover_paths(old, facts, modules, running, newest, status, n - 1);
        let (k, f) = (old[n - 1], facts[n - 1]);
        if kernel_fate(k, f, modules, running, newest, status) is Leftover {
            rest + (found_paths(k.files, f.files@) + found_paths(k.dirs, f.dirs@))
        } else {
            rest
        }
    }
}

/// The bytes below those paths.
pub open spec fn leftover_bytes(
    old: Seq<OldView>,
    facts: Seq<KernelFacts>,
    modules: Seq<u8>,
    running: Seq<char>,
    newest: Seq<char>,
    status: Seq<char>,
    n: int,
) -> nat
    decreases n,
{
    if n <= 0 {
        0
    } else {
        let rest = leftover_bytes(old, facts, modules, running, newest, status, n - 1);
        let (k, f) = (old[n - 1], facts[n - 1]);
        if kernel_fate(k, f, modules, running, newest, status) is Leftover {
            rest + found_bytes(f.files@, k.files.len() as int) + found_bytes(f.dirs@, k.dirs.len() as int)
        } else {
            rest
        }
    }
}

/// The name of a path as text, empty where it has none.
pub open spec fn leaf_text(p: Seq<u8>) -> Option<Seq<char>> {
    if named(p) && valid_utf8(comps(p).last()) {
        Some(decode_utf8(comps(p).last()))
    } else {
        None
    }
}

/// The names of the paths that have one.
pub open spec fn leaf_texts(paths: Seq<Seq<u8>>) -> Seq<Seq<char>>
    decreases paths.len(),
{
    if paths.len() == 0 {
        Seq::empty()
    } else {
        let rest = leaf_texts(paths.drop_last());
        match leaf_text(paths.last()) {
            Some(t) => rest.push(t),
            None => rest,
        }
    }
}

/// Root command removing a leftover module dir, re-checking right before
/// deleting that no kernel of that version appeared in the meantime.
pub open spec fn leftover_command(ver: Seq<char>, dir: Seq<u8>) -> Seq<char> {
    "sudo sh -c 'if [ -e \"/boot/vmlinuz-$1\" ] || dpkg-query -W -f=\"\\${Status}\\n\" \"linux-*-$1\" 2>/dev/null | grep -Evq \"(config-files|not-installed)$\"; then echo \"kept $2: kernel $1 is installed now\"; else rm -rf --one-file-system -- \"$2\"; fi' _ "@
        + quoted(ver) + " "@ + quoted(lossy_text(dir))
}

pub fn leftover_rm_command(ver: &str, dir: &FsPath) -> (r: String)
    ensures
        r@ == leftover_command(ver@, dir@),
{
    "sudo sh -c 'if [ -e \"/boot/vmlinuz-$1\" ] || dpkg-query -W -f=\"\\${Status}\\n\" \"linux-*-$1\" 2>/dev/null | grep -Evq \"(config-files|not-installed)$\"; then echo \"kept $2: kernel $1 is installed now\"; else rm -rf --one-file-system -- \"$2\"; fi' _ ".to_owned().concat(
        shq(ver).as_str(),
    ).concat(" ").concat(shq_path(dir).as_str())
}

pub open spec fn leftover_commands(paths: Seq<Seq<u8>>) -> Seq<Seq<char>> {
    Seq::new(
        paths.len(),
        |i: int|
            leftover_command(
                match leaf_text(paths[i]) {
                    Some(t) => t,
                    None => Seq::empty(),
                },
                paths[i],
            ),
    )
}

/// The removed packages of the given leftover directories that dpkg still has
/// a record of, without those of a kept kernel.
pub open spec fn leftover_records(paths: Seq<Seq<u8>>, running: Seq<char>, status: Seq<char>) -> Seq<Seq<char>> {
    spared(
        installed_images(status),
        running,
        set_of(false, names_of_versions(names_ending(stanzas(status), "config-files"@), leaf_texts(paths))),
    )
}

/// The finding about all leftover module directories.
pub open spec fn leftover_finding(paths: Seq<Seq<u8>>, bytes: nat, running: Seq<char>, status: Seq<char>) -> FindingView {
    let rc = leftover_records(paths, running, status);
    FindingView {
        id: "kernel-leftovers"@,
        category: "Kernels"@,
        title: "Leftover module dirs of "@ + digits(paths.len()) + " removed kernels"@,
        risk: Risk::Moderate,
        bytes: bytes as u64,
        detail: "Directories under /lib/modules whose kernel packages are already removed; they hold files generated after install (DKMS modules, modules.* indexes) that apt does not track."@
            + if rc.len() == 0 {
            ""@
        } else {
            " First purges the "@ + digits(rc.len())
                + " leftover dpkg records (removed, config kept) of those kernels so the package database stays consistent."@
        },
        paths,
        action: ActionView::Shell {
            command: if rc.len() == 0 {
                join(leftover_commands(paths), "; "@)
            } else {
                "sudo dpkg --purge "@ + join(text_words(rc), " "@) + "; "@ + join(leftover_commands(paths), "; "@)
            },
        },
        needs_root: true,
    }
}

fn file_leaf(p: &FsPath) -> (r: Option<String>)
    ensures
        r is Some <==> leaf_text(p@) is Some,
        r matches Some(t) ==> leaf_text(p@) == Some(t@),
{
    match p.file_name() {
        Some(n) => utf8_exact(&n),
        None => None,
    }
}

fn leftover_report(paths: Vec<FsPath>, bytes: u64, running: &str, status: &str) -> (r: Finding)
    ensures
        r@ == leftover_finding(paths_view(paths@), bytes as nat, running@, status@),
{
    let ghost pv = paths_view(paths@);
    let mut vers: Vec<String> = Vec::new();
    let mut cmds: Vec<String> = Vec::new();
    assert(texts(vers@) =~= leaf_texts(pv.take(0)));
    for i in 0..paths.len()
        invariant
            pv == paths_view(paths@),
            texts(vers@) == leaf_texts(pv.take(i as int)),
            texts(cmds@) == leftover_commands(pv).take(i as int),
    {
        proof {
            assert(pv.take(i + 1).drop_last() =~= pv.take(i as int));
            assert(pv.take(i + 1).last() == paths@[i as int]@);
        }
        let ghost (before, known) = (cmds@, vers@);
        let leaf = file_leaf(&paths[i]);
        let c = match &leaf {
            Some(t) => leftover_rm_command(t.as_str(), &paths[i]),
            None => leftover_rm_command(String::new().as_str(), &paths[i]),
        };
        cmds.push(c);
        assert(texts(cmds@) =~= texts(before).push(c@));
        assert(texts(cmds@) =~= leftover_commands(pv).take(i + 1));
        if let Some(t) = leaf {
            vers.push(t);
            assert(texts(vers@) =~= texts(known).push(t@));
        }
    }
    proof {
        assert(pv.take(paths@.len() as int) =~= pv);
        assert(leftover_commands(pv).take(paths@.len() as int) =~= leftover_commands(pv));
    }
    // Kernels removed without --purge leave dpkg records ("rc": config
    // files) that still own these dirs: purge them first so dpkg's
    // database stays consistent, then remove whatever is left.
    let all = rc_kernel_packages(status, &vers);
    let (_, kept) = kept_kernels(&installed_packages(status), running, status);
    let rc = kept.spare(&all, Ghost(installed_images(status@)));
    proof {
        lemma_set_of(
            false,
            names_of_versions(names_ending(stanzas(status@), "config-files"@), leaf_texts(pv)),
            texts(all@),
        );
        assert(texts(rc@).len() == rc@.len());
    }
    let last = joined(&cmds, "; ");
    let base = "Directories under /lib/modules whose kernel packages are already removed; they hold files generated after install (DKMS modules, modules.* indexes) that apt does not track.".to_owned();
    let (command, detail) = if rc.len() == 0 {
        (last, base.concat(""))
    } else {
        let more = " First purges the ".to_owned().concat(decimal(rc.len() as u64).as_str()).concat(
            " leftover dpkg records (removed, config kept) of those kernels so the package database stays consistent.",
        );
        (
            "sudo dpkg --purge ".to_owned().concat(joined(&quote_texts(&rc), " ").as_str()).concat("; ").concat(last.as_str()),
            base.concat(more.as_str()),
        )
    };
    Finding {
        id: "kernel-leftovers".to_owned(),
        category: "Kernels".to_owned(),
        title: "Leftover module dirs of ".to_owned().concat(decimal(paths.len() as u64).as_str()).concat(" removed kernels"),
        risk: Risk::Moderate,
        bytes,
        detail,
        action: Action::Shell { command },
        paths,
        needs_root: true,
    }
}

proof fn lemma_found_prefix(list: Seq<Seq<u8>>, sizes: Seq<Option<u64>>, k: int)
    requires
        0 <= k < list.len(),
    ensures
        found_paths(list.take(k + 1), sizes) == (if sizes[k] is Some {
            found_paths(list.take(k), sizes).push(list[k])
        } else {
            found_paths(list.take(k), sizes)
        }),
        found_paths(list.take(k), sizes).len() <= k,
    decreases k,
{
    assert(list.take(k + 1).drop_last() =~= list.take(k));
    assert(list.take(k + 1).last() == list[k]);
    if k > 0 {
        lemma_found_prefix(list, sizes, k - 1);
    }
}

pub(crate) proof fn lemma_found_grows(sizes: Seq<Option<u64>>, k: int, n: int)
    requires
        0 <= k <= n,
    ensures
        found_bytes(sizes, k) <= found_bytes(sizes, n),
    decreases n,
{
    if k < n {
        lemma_found_grows(sizes, k, n - 1);
    }
}

/// Add what was found of `list` to `paths`, and its bytes to `bytes`.
pub(crate) fn add_existing(list: &Vec<FsPath>, sizes: &Vec<Option<u64>>, paths: &mut Vec<FsPath>, bytes: u64) -> (r: u64)
    requires
        sizes@.len() == list@.len(),
        bytes + found_bytes(sizes@, list@.len() as int) <= u64::MAX,
    ensures
        paths_view(final(paths)@) == paths_view(old(paths)@) + found_paths(paths_view(list@), sizes@),
        r == bytes + found_bytes(sizes@, list@.len() as int),
{
    let ghost lv = paths_view(list@);
    let ghost start = paths_view(paths@);
    let mut sum: u64 = bytes;
    assert(start + found_paths(lv.take(0), sizes@) =~= start);
    for i in 0..list.len()
        invariant
            lv == paths_view(list@),
            sizes@.len() == list@.len(),
            bytes + found_bytes(sizes@, list@.len() as int) <= u64::MAX,
            sum == bytes + found_bytes(sizes@, i as int),
            paths_view(paths@) == start + found_paths(lv.take(i as int), sizes@),
    {
        proof {
            lemma_found_prefix(lv, sizes@, i as int);
            lemma_found_grows(sizes@, i + 1, list@.len() as int);
        }
        if let Some(b) = sizes[i] {
            let ghost before = paths@;
            let p = list[i].clone();
            paths.push(p);
            assert(paths_view(paths@) =~= paths_view(before).push(p@));
            assert(paths_view(paths@) =~= start + found_paths(lv.take(i + 1), sizes@));
            sum += b;
        }
    }
    assert(lv.take(list@.len() as int) =~= lv);
    sum
}

fn only_inside(paths: &Vec<FsPath>, dir: &FsPath) -> (r: bool)
    ensures
        r == all_inside(paths_view(paths@), dir@),
{
    for i in 0..paths.len()
        invariant
            forall|j: int| 0 <= j < i ==> inside(#[trigger] paths_view(paths@)[j], dir@),
    {
        if !paths[i].starts_with(dir) {
            assert(!inside(paths_view(paths@)[i as int], dir@));
            return false;
        }
    }
    true
}

pub(crate) fn leave_out(removed: &Vec<String>, pkgs: &Vec<String>) -> (found: Vec<String>)
    ensures
        texts(found@) == not_among(texts(removed@), texts(pkgs@)),
{
    let ghost list = texts(removed@);
    let mut found: Vec<String> = Vec::new();
    assert(texts(found@) =~= Seq::empty());
    for i in 0..removed.len()
        invariant
            list == texts(removed@),
            texts(found@) == not_among(list.take(i as int), texts(pkgs@)),
    {
        proof {
            assert(list.take(i + 1).drop_last() =~= list.take(i as int));
            assert(list.take(i + 1).last() == removed@[i as int]@);
        }
        if !knows_text(pkgs, &removed[i]) {
            let ghost before = found@;
            let s = removed[i].clone();
            found.push(s);
            assert(texts(found@) =~= texts(before).push(s@));
        }
    }
    assert(list.take(removed@.len() as int) =~= list);
    found
}

fn unexpected(removed: &Vec<String>, pkgs: &Vec<String>) -> (r: Vec<String>)
    ensures
        texts(r@) == set_of(false, not_among(texts(removed@), texts(pkgs@))),
{
    let found = leave_out(removed, pkgs);
    let r = sort_dedup(false, &found);
    proof {
        lemma_set_of(false, texts(found@), texts(r@));
    }
    r
}

/// The action and the explanation for a kernel with packages.
fn judge_purge(ver: &str, running: &str, newest: &str, pkgs: &Vec<String>, simulated: &Option<String>) -> (r: (Action, String))
    ensures
        r.0@ == purge_action(
            texts(pkgs@),
            match simulated {
                Some(s) => Some(s@),
                None => None,
            },
        ),
        r.1@ == purge_detail(
            ver@,
            running@,
            newest@,
            texts(pkgs@),
            match simulated {
                Some(s) => Some(s@),
                None => None,
            },
        ),
{
    match simulated {
        None => (
            Action::Manual,
            "Kernel ".to_owned().concat(ver).concat(
                " is not in use, but `apt-get -s purge` could not verify what purging its packages would remove. Review it with:\n  apt-get -s purge ",
            ).concat(joined(pkgs, " ").as_str()),
        ),
        Some(sim) => {
            let extra = unexpected(&apt_sim_removals(sim.as_str()), pkgs);
            assert(texts(extra@).len() == extra@.len());
            if extra.len() > 0 {
                (
                    Action::Manual,
                    "Kernel ".to_owned().concat(ver).concat(
                        " is not in use, but purging its packages would also change ",
                    ).concat(joined(&extra, ", ").as_str()).concat(
                        " (e.g. remove the kernel metapackage that keeps future kernel updates coming). Not done automatically; review with:\n  apt-get -s purge ",
                    ).concat(joined(pkgs, " ").as_str()),
                )
            } else {
                (
                    Action::Shell {
                        command: "sudo apt-get -o DPkg::Lock::Timeout=120 purge -y ".to_owned().concat(
                            joined(&quote_texts(pkgs), " ").as_str(),
                        ),
                    },
                    "Kernel ".to_owned().concat(ver).concat(" is neither the running kernel (").concat(running).concat(
                        ") nor one of the two newest installed ones (newest: ",
                    ).concat(newest).concat(
                        "), which Ubuntu keeps as fallbacks. Purging exactly its packages removes the image, initrd, modules, headers and tools and updates GRUB; a dry run (apt-get -s) confirmed nothing else is removed.",
                    ),
                )
            }
        },
    }
}

/// There is a reading for every path of an old kernel, and their sizes fit.
pub open spec fn facts_fit(old: Seq<OldView>, facts: Seq<KernelFacts>) -> bool {
    &&& facts.len() == old.len()
    &&& forall|i: int|
        0 <= i < old.len() ==> (#[trigger] facts[i]).files@.len() == old[i].files.len() && facts[i].dirs@.len()
            == old[i].dirs.len() && found_bytes(facts[i].files@, old[i].files.len() as int) + found_bytes(
            facts[i].dirs@,
            old[i].dirs.len() as int,
        ) <= u64::MAX
}

proof fn lemma_leftover_grows(
    old: Seq<OldView>,
    facts: Seq<KernelFacts>,
    modules: Seq<u8>,
    running: Seq<char>,
    newest: Seq<char>,
    status: Seq<char>,
    k: int,
    n: int,
)
    requires
        0 <= k <= n,
    ensures
        leftover_bytes(old, facts, modules, running, newest, status, k) <= leftover_bytes(
            old,
            facts,
            modules,
            running,
            newest,
            status,
            n,
        ),
    decreases n,
{
    if k < n {
        lemma_leftover_grows(old, facts, modules, running, newest, status, k, n - 1);
    }
}

/// Kernel check: what to do about each old kernel, given what was found of it,
/// the running release, the contents of dpkg's status database and a dry run
/// of purging its packages.
pub fn kernel_findings(
    plan: &KernelPlan,
    facts: &Vec<KernelFacts>,
    modules: &FsPath,
    running: &str,
    status: &str,
) -> (r: CheckOutput)
    requires
        facts_fit(old_views(plan.old@), facts@),
        leftover_bytes(
            old_views(plan.old@),
            facts@,
            modules@,
            running@,
            plan.newest@,
            status@,
            plan.old@.len() as int,
        ) <= u64::MAX,
    ensures
        r.notes@.len() == 0,
        ({
            let old = old_views(plan.old@);
            let n = plan.old@.len() as int;
            let left = leftover_paths(old, facts@, modules@, running@, plan.newest@, status@, n);
            let bytes = leftover_bytes(old, facts@, modules@, running@, plan.newest@, status@, n);
            finding_views(r.findings@) == kernels_found(old, facts@, modules@, running@, plan.newest@, status@, n) + (
            if left.len() == 0 {
                Seq::empty()
            } else {
                seq![leftover_finding(left, bytes, running@, status@)]
            })
        }),
{
    let states = package_states(status);
    let newest = plan.newest.as_str();
    let ghost old = old_views(plan.old@);
    let mut out: Vec<Finding> = Vec::new();
    let mut left: Vec<FsPath> = Vec::new();
    let mut left_bytes: u64 = 0;
    proof {
        assert(finding_views(out@) =~= Seq::empty());
        assert(paths_view(left@) =~= Seq::empty());
    }
    for i in 0..plan.old.len()
        invariant
            old == old_views(plan.old@),
            newest@ == plan.newest@,
            facts_fit(old, facts@),
            listed_once(states@),
            forall|n: Seq<char>| #[trigger] lookup(states@, n) == state_of(stanzas(status@), n),
            leftover_bytes(old, facts@, modules@, running@, newest@, status@, plan.old@.len() as int) <= u64::MAX,
            finding_views(out@) == kernels_found(old, facts@, modules@, running@, newest@, status@, i as int),
            paths_view(left@) == leftover_paths(old, facts@, modules@, running@, newest@, status@, i as int),
            left_bytes == leftover_bytes(old, facts@, modules@, running@, newest@, status@, i as int),
    {
        let k = &plan.old[i];
        let f = &facts[i];
        let ghost fate = kernel_fate(k@, *f, modules@, running@, newest@, status@);
        assert(old[i as int] == k@);
        assert(facts@[i as int].files@.len() == old[i as int].files.len());
        let mut paths: Vec<FsPath> = Vec::new();
        assert(paths_view(paths@) =~= Seq::empty());
        let b1 = add_existing(&k.files, &f.files, &mut paths, 0);
        let bytes = add_existing(&k.dirs, &f.dirs, &mut paths, b1);
        let ghost pv = found_paths(k@.files, f.files@) + found_paths(k@.dirs, f.dirs@);
        proof {
            assert(paths_view(paths@) =~= pv);
            assert(paths_view(paths@).len() == paths@.len());
            assert(texts(k.packages@).len() == k.packages@.len());
            lemma_listed_live(states@, stanzas(status@), k.ver@);
            lemma_leftover_grows(old, facts@, modules@, running@, newest@, status@, i + 1, plan.old@.len() as int);
        }
        let ver = k.ver.as_str();
        let mut found: Option<(Action, String)> = None;
        if k.packages.len() > 0 {
            found = Some(judge_purge(ver, running, newest, &k.packages, &f.simulated));
        } else if paths.len() > 0 {
            if only_inside(&paths, modules) {
                if !kernel_version_live(&states, ver) && older_version(ver, newest) {
                    assert(fate is Leftover);
                    let ghost before = left@;
                    left.append(&mut paths);
                    assert(paths_view(left@) =~= paths_view(before) + pv);
                    left_bytes += bytes;
                }
            } else {
                found = Some(
                    (
                        Action::Manual,
                        "Kernel ".to_owned().concat(ver).concat(
                            " files were found but no matching dpkg package; it was probably installed by hand. Remove it the same way it was installed.",
                        ),
                    ),
                );
            }
        }
        if let Some((action, detail)) = found {
            let ghost before = out@;
            let finding = Finding {
                id: "kernel:".to_owned().concat(ver),
                category: "Kernels".to_owned(),
                title: "Inactive kernel ".to_owned().concat(ver),
                risk: Risk::Moderate,
                bytes,
                detail,
                paths,
                action,
                needs_root: true,
            };
            out.push(finding);
            assert(finding_views(out@) =~= finding_views(before).push(finding@));
            assert(fate == KernelFate::Found(finding@));
        }
    }
    assert(paths_view(left@).len() == left@.len());
    if left.len() > 0 {
        let ghost before = out@;
        let f = leftover_report(left, left_bytes, running, status);
        out.push(f);
        assert(finding_views(out@) =~= finding_views(before) + seq![f@]);
    } else {
        assert(finding_views(out@) + Seq::<FindingView>::empty() =~= finding_views(out@));
    }
    CheckOutput { findings: out, notes: Vec::new() }
}

/// A kernel's packages are purged only where a dry run shows that nothing else
/// changes; otherwise the finding is a manual step.
pub proof fn law_kernel_purge_changes_its_packages_alone(pkgs: Seq<Seq<char>>, simulated: Option<Seq<char>>)
    requires
        !(purge_action(pkgs, simulated) is Manual),
    ensures
        simulated is Some,
        forall|n: Seq<char>| sim_changes(lines(simulated->0)).contains(n) ==> pkgs.contains(n),
{
    let changes = sim_changes(lines(simulated->0));
    let extra = not_among(changes, pkgs);
    law_set_holds_the_list(false, extra);
    if extra.len() > 0 {
        assert(extra.contains(extra[0]));
        assert(set_of(false, extra).contains(extra[0]));
    }
    lemma_not_among(changes, pkgs);
}

/// What is swept up as a leftover belongs to a kernel that no package is being
/// installed or removed for and that is older than the newest installed one.
pub proof fn law_leftovers_are_of_dead_older_kernels(
    old: Seq<OldView>,
    facts: Seq<KernelFacts>,
    modules: Seq<u8>,
    running: Seq<char>,
    newest: Seq<char>,
    status: Seq<char>,
    n: int,
    p: Seq<u8>,
)
    requires
        leftover_paths(old, facts, modules, running, newest, status, n).contains(p),
    ensures
        exists|i: int|
            0 <= i < n && #[trigger] is_leftover(old[i], status, newest) && (found_paths(old[i].files, facts[i].files@) + found_paths(
                old[i].dirs,
                facts[i].dirs@,
            )).contains(p),
    decreases n,
{
    if n > 0 {
        let rest = leftover_paths(old, facts, modules, running, newest, status, n - 1);
        let (k, f) = (old[n - 1], facts[n - 1]);
        let own = found_paths(k.files, f.files@) + found_paths(k.dirs, f.dirs@);
        let all = leftover_paths(old, facts, modules, running, newest, status, n);
        let w = choose|w: int| 0 <= w < all.len() && all[w] == p;
        if w < rest.len() {
            assert(rest[w] == p);
            law_leftovers_are_of_dead_older_kernels(old, facts, modules, running, newest, status, n - 1, p);
        } else {
            assert(own[w - rest.len()] == p);
            assert(is_leftover(old[n - 1], status, newest));
        }
    }
}

/// No package speaks of the kernel and it is older than the newest one.
pub open spec fn is_leftover(k: OldView, status: Seq<char>, newest: Seq<char>) -> bool {
    k.packages.len() == 0 && !kernel_live(stanzas(status), k.ver) && lex(version(k.ver), version(newest), num_lt())
}

/// What was found of a list is exactly what has a size, and its bytes are the
/// sizes, each once.
pub proof fn law_found_is_what_has_a_size(list: Seq<Seq<u8>>, sizes: Seq<Option<u64>>, i: int)
    requires
        0 <= i < list.len(),
        list.len() == sizes.len(),
    ensures
        sizes[i] is Some ==> found_paths(list, sizes).contains(list[i]),
        forall|p: Seq<u8>| #[trigger]
            found_paths(list, sizes).contains(p) ==> exists|k: int| 0 <= k < list.len() && list[k] == p && (#[trigger] sizes[k]) is Some,
        found_bytes(sizes, sizes.len() as int) == found_bytes(sizes.update(i, None), sizes.len() as int) + match sizes[i] {
            Some(b) => b as nat,
            None => 0,
        },
        (forall|k: int| 0 <= k < sizes.len() ==> (#[trigger] sizes[k]) is None) ==> found_bytes(sizes, sizes.len() as int) == 0,
{
    if sizes[i] is Some {
        lemma_found_at(list, sizes, i);
    }
    lemma_found_update(sizes, i, sizes.len() as int);
    assert forall|p: Seq<u8>| #[trigger] found_paths(list, sizes).contains(p) implies exists|k: int|
        0 <= k < list.len() && list[k] == p && (#[trigger] sizes[k]) is Some by {
        lemma_found_where(list, sizes, p);
    }
    if forall|k: int| 0 <= k < sizes.len() ==> (#[trigger] sizes[k]) is None {
        lemma_found_none(sizes, sizes.len() as int);
    }
}

proof fn lemma_found_at(list: Seq<Seq<u8>>, sizes: Seq<Option<u64>>, i: int)
    requires
        0 <= i < list.len(),
        sizes[i] is Some,
    ensures
        found_paths(list, sizes).contains(list[i]),
    decreases list.len(),
{
    let rest = found_paths(list.drop_last(), sizes);
    lemma_push_contains(rest, list.last(), list[i]);
    if i < list.len() - 1 {
        lemma_found_at(list.drop_last(), sizes, i);
    }
}

proof fn lemma_found_where(list: Seq<Seq<u8>>, sizes: Seq<Option<u64>>, p: Seq<u8>)
    requires
        found_paths(list, sizes).contains(p),
    ensures
        exists|k: int| 0 <= k < list.len() && list[k] == p && (#[trigger] sizes[k]) is Some,
    decreases list.len(),
{
    if list.len() > 0 {
        let rest = found_paths(list.drop_last(), sizes);
        lemma_push_contains(rest, list.last(), p);
        if rest.contains(p) {
            lemma_found_where(list.drop_last(), sizes, p);
            let k = choose|k: int| 0 <= k < list.drop_last().len() && list.drop_last()[k] == p && (#[trigger] sizes[k]) is Some;
            assert(list[k] == p);
        } else {
            assert(sizes[list.len() - 1] is Some);
        }
    }
}

proof fn lemma_found_update(sizes: Seq<Option<u64>>, i: int, n: int)
    requires
        0 <= i < sizes.len(),
        n <= sizes.len(),
    ensures
        found_bytes(sizes, n) == found_bytes(sizes.update(i, None), n) + match sizes[i] {
            Some(b) => if i < n { b as nat } else { 0 },
            None => 0,
        },
    decreases n,
{
    if n > 0 {
        lemma_found_update(sizes, i, n - 1);
    }
}

proof fn lemma_found_none(sizes: Seq<Option<u64>>, n: int)
    requires
        n <= sizes.len(),
        forall|k: int| 0 <= k < sizes.len() ==> (#[trigger] sizes[k]) is None,
    ensures
        found_bytes(sizes, n) == 0,
    decreases n,
{
    if n > 0 {
        lemma_found_none(sizes, n - 1);
        assert(sizes[n - 1] is None);
    }
}

/// A kernel is installed exactly if the status database has an image package of
/// it as installed, signed or unsigned and of whatever flavour.
pub proof fn law_installed_kernels_have_an_image_package(status: Seq<char>, v: Seq<char>)
    ensures
        ({
            let installed = names_ending(stanzas(status), " installed"@);
            installed_images(status).contains(v) <==> (installed.contains("linux-image-"@ + v) || installed.contains(
                "linux-image-unsigned-"@ + v,
            )) && v.len() > 0 && '0' <= v[0] <= '9' && !"-dbgsym"@.is_suffix_of(v)
        }),
        forall|i: int, j: int|
            0 <= i < j < installed_images(status).len() ==> name_before(
                true,
                #[trigger] installed_images(status)[i],
                #[trigger] installed_images(status)[j],
            ),
{
    let list = image_releases(names_ending(stanzas(status), " installed"@));
    law_images_are_the_image_packages(names_ending(stanzas(status), " installed"@), v);
    law_set_holds_the_list(true, list);
    assert(installed_images(status) == set_of(true, list));
}

/// Every installed kernel that is not running is listed as old if two other
/// installed ones are newer.
pub proof fn law_all_but_the_two_newest_are_old(
    roots: KernelRoots,
    names: KernelNames,
    status: Seq<char>,
    running: Seq<char>,
    old: Seq<OldView>,
    v: Seq<char>,
    a: Seq<char>,
    b: Seq<char>,
)
    requires
        plan_of(roots, names, status, running, old),
        installed_images(status).contains(v),
        installed_images(status).contains(a),
        installed_images(status).contains(b),
        a != b,
        name_before(true, v, a),
        name_before(true, v, b),
        v != running,
    ensures
        exists|i: int| 0 <= i < old.len() && #[trigger] old[i].ver == v,
{
    let im = installed_images(status);
    law_installed_kernels_have_an_image_package(status, v);
    lemma_name_order(true);
    let lt = |a: Seq<char>, b: Seq<char>| name_before(true, a, b);
    let x = choose|x: int| 0 <= x < im.len() && im[x] == v;
    let y = choose|y: int| 0 <= y < im.len() && im[y] == a;
    let z = choose|z: int| 0 <= z < im.len() && im[z] == b;
    assert(x < y) by {
        if y < x {
            assert(lt(a, v) && lt(v, a));
            assert(lt(v, v));
        }
        assert(!lt(v, v));
    }
    assert(x < z) by {
        if z < x {
            assert(lt(b, v) && lt(v, b));
            assert(lt(v, v));
        }
        assert(!lt(v, v));
    }
    assert(x <= im.len() - 3);
    assert(lt(im[x], im[im.len() - 1]) && lt(im[x], im[im.len() - 2]));
    assert(!lt(v, v));
    assert(known_version(im, names, v) && !kept(im, running, v));
}

/// An old kernel that is installed has two newer installed ones beside it, and
/// is not running.
pub proof fn law_old_kernels_leave_two_newer_ones(
    roots: KernelRoots,
    names: KernelNames,
    status: Seq<char>,
    running: Seq<char>,
    old: Seq<OldView>,
    i: int,
)
    requires
        plan_of(roots, names, status, running, old),
        0 <= i < old.len(),
        installed_images(status).contains(old[i].ver),
    ensures
        old[i].ver != running,
        exists|a: Seq<char>, b: Seq<char>|
            a != b && installed_images(status).contains(a) && installed_images(status).contains(b) && #[trigger] name_before(
                true,
                old[i].ver,
                a,
            ) && #[trigger] name_before(true, old[i].ver, b),
{
    let im = installed_images(status);
    let v = old[i].ver;
    law_installed_kernels_have_an_image_package(status, v);
    lemma_name_order(true);
    let lt = |a: Seq<char>, b: Seq<char>| name_before(true, a, b);
    let x = choose|x: int| 0 <= x < im.len() && im[x] == v;
    assert(exists|k: int| 0 <= k < old.len() && #[trigger] old[k].ver == v) by {
        assert(old[i].ver == v);
    }
    let known = known_version(im, names, v);
    assert(known && !kept(im, running, v));
    let (a, b) = (im[im.len() - 1], im[im.len() - 2]);
    assert(im.len() >= 3 && x < im.len() - 2);
    assert(lt(b, a));
    assert(!lt(a, a));
    assert(im.contains(a) && im.contains(b));
    assert(name_before(true, v, a) && name_before(true, v, b));
}

/// Every kernel in /boot and every module directory with a release for a name is
/// judged, and nothing else is: what is listed is an installed image, a
/// `vmlinuz-…` in /boot, or a module directory whose name begins with a digit.
pub proof fn law_known_kernels_come_from_images_boot_and_modules(images: Seq<Seq<char>>, names: KernelNames, v: Seq<char>)
    ensures
        known_version(images, names, v) <==> images.contains(v) || texts(names.boot@).contains("vmlinuz-"@ + v) || (texts(
            names.modules@,
        ).contains(v) && v.len() > 0 && '0' <= v[0] <= '9'),
{
    lemma_boot_releases(texts(names.boot@), v);
    if v.len() > 0 {
        lemma_digit_char(v[0]);
    }
}

proof fn lemma_boot_releases(list: Seq<Seq<char>>, v: Seq<char>)
    ensures
        boot_releases(list).contains(v) <==> list.contains("vmlinuz-"@ + v),
    decreases list.len(),
{
    if list.len() > 0 {
        let front = list.drop_last();
        let x = list.last();
        let p = "vmlinuz-"@;
        lemma_boot_releases(front, v);
        assert(list =~= front.push(x));
        lemma_push_contains(front, x, p + v);
        lemma_push_contains(boot_releases(front), x.skip(p.len() as int), v);
        lemma_starts(p, v);
    }
}

/// The base of a release is all before its flavour: before the first dash that a
/// letter follows.
pub proof fn law_base_is_all_before_the_flavour(s: Seq<char>)
    ensures
        base_of(s).is_prefix_of(s),
        base_of(s).len() < s.len() ==> s[base_of(s).len() as int] == '-' && base_of(s).len() + 1 < s.len() && is_alpha(
            s[base_of(s).len() as int + 1],
        ),
        forall|i: int| 0 <= i < base_of(s).len() && i + 1 < s.len() ==> !(#[trigger] s[i] == '-' && is_alpha(s[i + 1])),
{
    lemma_flavour_at(s, 0);
    assert(base_of(s) =~= s.subrange(0, base_of(s).len() as int));
}

proof fn lemma_flavour_at(s: Seq<char>, i: int)
    requires
        0 <= i <= s.len(),
    ensures
        i <= flavour_at(s, i) <= s.len(),
        flavour_at(s, i) < s.len() ==> s[flavour_at(s, i)] == '-' && flavour_at(s, i) + 1 < s.len() && is_alpha(s[flavour_at(s, i) + 1]),
        forall|j: int| i <= j < flavour_at(s, i) && j + 1 < s.len() ==> !(#[trigger] s[j] == '-' && is_alpha(s[j + 1])),
    decreases s.len() - i,
{
    if i < s.len() && !(s[i] == '-' && i + 1 < s.len() && is_alpha(s[i + 1])) {
        lemma_flavour_at(s, i + 1);
    }
}

/// A series such as `6.8`.
pub open spec fn dotted_number(n: Seq<char>) -> bool {
    n.len() > 0 && forall|i: int| 0 <= i < n.len() ==> '0' <= #[trigger] n[i] <= '9' || n[i] == '.'
}

/// A package belongs to a kernel exactly if it is a `linux-…-<release>`, or,
/// where no kept kernel shares the base, the headers or tools of the base alone.
pub proof fn law_packages_carry_the_release_or_the_base(pkg: Seq<char>, ver: Seq<char>, base: Seq<char>, shared: bool)
    ensures
        pkg_of_kernel(pkg, ver, base, shared) <==> "linux-"@.is_prefix_of(pkg) && (("-"@ + ver).is_suffix_of(pkg) || (!shared && (pkg
            == "linux-headers-"@ + base || pkg == "linux-tools-"@ + base || exists|n: Seq<char>| #[trigger]
            dotted_number(n) && (pkg == hwe_name(n, "headers"@, base) || pkg == hwe_name(n, "tools"@, base))))),
{
    lemma_token(pkg, ver);
    assert(starts(pkg, "linux-"@) == "linux-"@.is_prefix_of(pkg)) by {
        if "linux-"@.is_prefix_of(pkg) {
            assert(pkg.subrange(0, "linux-"@.len() as int) =~= "linux-"@);
        }
    }
    lemma_base_package(pkg, base);
}

proof fn lemma_base_package(pkg: Seq<char>, base: Seq<char>)
    ensures
        (match before_token(pkg, base) {
            Some(p) => p == "linux-headers"@ || p == "linux-tools"@ || hwe_family(p),
            None => false,
        }) <==> (pkg == "linux-headers-"@ + base || pkg == "linux-tools-"@ + base || exists|n: Seq<char>| #[trigger]
            dotted_number(n) && (pkg == hwe_name(n, "headers"@, base) || pkg == hwe_name(n, "tools"@, base))),
{
    lemma_token(pkg, base);
    reveal_strlit("-");
    reveal_strlit("linux-headers");
    reveal_strlit("linux-headers-");
    reveal_strlit("linux-tools");
    reveal_strlit("linux-tools-");
    let (h, t, d) = ("linux-headers"@, "linux-tools"@, "-"@ + base);
    assert(h + "-"@ =~= "linux-headers-"@);
    assert(t + "-"@ =~= "linux-tools-"@);
    assert(h + d =~= "linux-headers-"@ + base);
    assert(t + d =~= "linux-tools-"@ + base);
    if let Some(p) = before_token(pkg, base) {
        assert(pkg == p + d);
        lemma_hwe_family(p);
        if hwe_family(p) {
            let n = choose|n: Seq<char>| #[trigger] dotted_number(n) && (p == hwe_part(n, "headers"@) || p == hwe_part(n, "tools"@));
            assert(dotted_number(n) && (pkg == hwe_name(n, "headers"@, base) || pkg == hwe_name(n, "tools"@, base)));
        }
    }
    if exists|n: Seq<char>| #[trigger] dotted_number(n) && (pkg == hwe_name(n, "headers"@, base) || pkg == hwe_name(n, "tools"@, base)) {
        let n = choose|n: Seq<char>| #[trigger]
            dotted_number(n) && (pkg == hwe_name(n, "headers"@, base) || pkg == hwe_name(n, "tools"@, base));
        let p = if pkg == hwe_name(n, "headers"@, base) { hwe_part(n, "headers"@) } else { hwe_part(n, "tools"@) };
        assert(pkg == p + d);
        assert(before_token(pkg, base) == Some(p));
        lemma_hwe_family(p);
        assert(dotted_number(n));
    }
}

/// The hardware-enablement packages of a series: `linux-hwe-<series>-<kind>`.
pub open spec fn hwe_part(series: Seq<char>, kind: Seq<char>) -> Seq<char> {
    "linux-hwe-"@ + series + ("-"@ + kind)
}

pub open spec fn hwe_name(series: Seq<char>, kind: Seq<char>, base: Seq<char>) -> Seq<char> {
    hwe_part(series, kind) + ("-"@ + base)
}

proof fn lemma_token(pkg: Seq<char>, t: Seq<char>)
    ensures
        before_token(pkg, t) is Some <==> ("-"@ + t).is_suffix_of(pkg),
        before_token(pkg, t) matches Some(p) ==> pkg == p + ("-"@ + t),
        forall|q: Seq<char>| pkg == #[trigger] (q + ("-"@ + t)) ==> before_token(pkg, t) == Some(q),
{
    reveal_strlit("-");
    let d = "-"@ + t;
    assert(d.len() == t.len() + 1 && d[0] == '-');
    if d.is_suffix_of(pkg) {
        let k = pkg.len() - d.len();
        assert(pkg.subrange(k, pkg.len() as int) =~= d);
        assert(pkg[k] == d[0]) by {
            assert(pkg.subrange(k, pkg.len() as int)[0] == d[0]);
        }
        assert(pkg.subrange(pkg.len() - t.len(), pkg.len() as int) =~= t) by {
            assert forall|i: int| 0 <= i < t.len() implies pkg[pkg.len() - t.len() + i] == t[i] by {
                assert(pkg.subrange(k, pkg.len() as int)[i + 1] == d[i + 1]);
            }
        }
    }
    if let Some(p) = before_token(pkg, t) {
        assert(pkg =~= p + d) by {
            lemma_ends(p, t);
            assert(pkg == pkg.take(pkg.len() - t.len()) + t);
            assert(pkg.take(pkg.len() - t.len()) =~= p.push('-'));
        }
        lemma_ends(p, d);
        assert(pkg.subrange(pkg.len() - d.len(), pkg.len() as int) =~= d);
    }
    assert forall|q: Seq<char>| pkg == #[trigger] (q + d) implies before_token(pkg, t) == Some(q) by {
        lemma_ends(q, d);
        assert(pkg.subrange(pkg.len() - d.len(), pkg.len() as int) =~= d);
        let p = before_token(pkg, t)->0;
        assert(d.is_suffix_of(pkg));
        assert(before_token(pkg, t) is Some);
        assert(p =~= q);
    }
}

proof fn lemma_series(n: Seq<char>)
    ensures
        is_series(n) == dotted_number(n),
{
    if is_series(n) {
        assert forall|i: int| 0 <= i < n.len() implies '0' <= #[trigger] n[i] <= '9' || n[i] == '.' by {
            lemma_digit_char(n[i]);
        }
    } else if n.len() > 0 {
        let i = choose|i: int| 0 <= i < n.len() && !(is_digit(#[trigger] n[i]) || n[i] == '.');
        lemma_digit_char(n[i]);
    }
}

proof fn lemma_hwe_family(p: Seq<char>)
    ensures
        hwe_family(p) <==> exists|n: Seq<char>| #[trigger] dotted_number(n) && (p == hwe_part(n, "headers"@) || p == hwe_part(n, "tools"@)),
{
    let (a, x, y) = ("linux-hwe-"@, "-headers"@, "-tools"@);
    reveal_strlit("-");
    reveal_strlit("headers");
    reveal_strlit("tools");
    reveal_strlit("-headers");
    reveal_strlit("-tools");
    assert("-"@ + "headers"@ =~= x);
    assert("-"@ + "tools"@ =~= y);
    if hwe_family(p) {
        let h = p.skip(a.len() as int);
        lemma_starts(a, h);
        lemma_ends(h, x);
        lemma_ends(h, y);
        if ends(h, x) {
            let n = h.take(h.len() - x.len());
            lemma_series(n);
            assert(p =~= hwe_part(n, "headers"@));
            assert(dotted_number(n));
        } else {
            let n = h.take(h.len() - y.len());
            lemma_series(n);
            assert(p =~= hwe_part(n, "tools"@));
            assert(dotted_number(n));
        }
    }
    if exists|n: Seq<char>| #[trigger] dotted_number(n) && (p == hwe_part(n, "headers"@) || p == hwe_part(n, "tools"@)) {
        let n = choose|n: Seq<char>| #[trigger] dotted_number(n) && (p == hwe_part(n, "headers"@) || p == hwe_part(n, "tools"@));
        lemma_series(n);
        let k = if p == hwe_part(n, "headers"@) { x } else { y };
        let h = n + k;
        assert(p =~= a + h);
        lemma_starts(a, h);
        lemma_ends(n, k);
        assert(p.skip(a.len() as int) == h);
        if k == y {
            if ends(h, x) {
                assert(h.subrange(h.len() - x.len(), h.len() as int)[x.len() - 2] == x[x.len() - 2]);
                assert(h[h.len() - 2] == 'l' && x[x.len() - 2] == 'r');
            }
        }
    }
}

/// What is purged with an old kernel is exactly its installed packages, but for
/// those that a kept kernel needs.
pub proof fn law_old_kernel_packages(
    roots: KernelRoots,
    names: KernelNames,
    status: Seq<char>,
    running: Seq<char>,
    old: Seq<OldView>,
    i: int,
    p: Seq<char>,
)
    requires
        plan_of(roots, names, status, running, old),
        0 <= i < old.len(),
    ensures
        ({
            let im = installed_images(status);
            let ver = old[i].ver;
            old[i].packages.contains(p) <==> names_ending(stanzas(status), " installed"@).contains(p) && pkg_of_kernel(
                p,
                ver,
                base_of(ver),
                base_of(ver) == base_of(running) || (im.len() >= 1 && base_of(ver) == base_of(im[im.len() - 1])) || (im.len() >= 2
                    && base_of(ver) == base_of(im[im.len() - 2])),
            ) && !belongs(p, running) && (im.len() >= 1 ==> !belongs(p, im[im.len() - 1])) && (im.len() >= 2 ==> !belongs(
                p,
                im[im.len() - 2],
            ))
        }),
{
    let im = installed_images(status);
    let installed = names_ending(stanzas(status), " installed"@);
    let shared = base_kept(im, running, base_of(old[i].ver));
    assert(old[i] == old_kernel(roots, names, installed, im, running, old[i].ver));
    lemma_packages_of(installed, old[i].ver, shared, p);
    lemma_spared(im, running, packages_of(installed, old[i].ver, shared), p);
}

proof fn lemma_packages_of(list: Seq<Seq<char>>, ver: Seq<char>, shared: bool, p: Seq<char>)
    ensures
        packages_of(list, ver, shared).contains(p) <==> list.contains(p) && pkg_of_kernel(p, ver, base_of(ver), shared),
    decreases list.len(),
{
    if list.len() > 0 {
        let front = list.drop_last();
        lemma_packages_of(front, ver, shared, p);
        assert(list =~= front.push(list.last()));
        lemma_push_contains(front, list.last(), p);
        lemma_push_contains(packages_of(front, ver, shared), list.last(), p);
    }
}

/// What is looked at of an old kernel: its four files in /boot, and its modules,
/// headers and tools, under the full release.
pub proof fn law_old_kernel_places(
    roots: KernelRoots,
    names: KernelNames,
    status: Seq<char>,
    running: Seq<char>,
    old: Seq<OldView>,
    i: int,
)
    requires
        plan_of(roots, names, status, running, old),
        0 <= i < old.len(),
    ensures
        old[i].files == seq![
            join_bytes(roots.boot@, encode_utf8("vmlinuz-"@ + old[i].ver)),
            join_bytes(roots.boot@, encode_utf8("initrd.img-"@ + old[i].ver)),
            join_bytes(roots.boot@, encode_utf8("System.map-"@ + old[i].ver)),
            join_bytes(roots.boot@, encode_utf8("config-"@ + old[i].ver)),
        ],
        old[i].dirs.len() >= 4,
        old[i].dirs[0] == join_bytes(roots.modules@, encode_utf8(old[i].ver)),
        old[i].dirs[1] == join_bytes(roots.usr_src@, encode_utf8("linux-headers-"@ + old[i].ver)),
        old[i].dirs[2] == join_bytes(roots.usr_lib@, encode_utf8("linux-tools-"@ + old[i].ver)),
        old[i].dirs[3] == join_bytes(join_bytes(roots.usr_lib@, encode_utf8("linux-tools"@)), encode_utf8(old[i].ver)),
{
    let im = installed_images(status);
    let installed = names_ending(stanzas(status), " installed"@);
    assert(old[i] == old_kernel(roots, names, installed, im, running, old[i].ver));
    reveal_strlit("-");
    reveal_strlit("vmlinuz");
    reveal_strlit("vmlinuz-");
    reveal_strlit("initrd.img");
    reveal_strlit("initrd.img-");
    reveal_strlit("System.map");
    reveal_strlit("System.map-");
    reveal_strlit("config");
    reveal_strlit("config-");
    assert("vmlinuz"@ + "-"@ =~= "vmlinuz-"@);
    assert("initrd.img"@ + "-"@ =~= "initrd.img-"@);
    assert("System.map"@ + "-"@ =~= "System.map-"@);
    assert("config"@ + "-"@ =~= "config-"@);
}

/// Where a dry run changes none but a kernel's own packages, these are purged by
/// name; where it changes anything else, or there was none, nothing runs.
pub proof fn law_purge_names_exactly_the_packages(pkgs: Seq<Seq<char>>, simulated: Option<Seq<char>>)
    ensures
        simulated is Some && (forall|n: Seq<char>| #[trigger] sim_changes(lines(simulated->0)).contains(n) ==> pkgs.contains(n))
            ==> purge_action(pkgs, simulated) == (ActionView::Shell {
            command: "sudo apt-get -o DPkg::Lock::Timeout=120 purge -y "@ + join(pkgs.map_values(|p: Seq<char>| quoted(p)), " "@),
        }),
        simulated is None ==> purge_action(pkgs, simulated) is Manual,
        (simulated is Some && exists|n: Seq<char>| #[trigger] sim_changes(lines(simulated->0)).contains(n) && !pkgs.contains(n))
            ==> purge_action(pkgs, simulated) is Manual,
{
    if let Some(sim) = simulated {
        let changes = sim_changes(lines(sim));
        let extra = not_among(changes, pkgs);
        law_set_holds_the_list(false, extra);
        lemma_not_among(changes, pkgs);
        assert(text_words(pkgs) =~= pkgs.map_values(|p: Seq<char>| quoted(p)));
        if forall|n: Seq<char>| #[trigger] changes.contains(n) ==> pkgs.contains(n) {
            if set_of(false, extra).len() > 0 {
                let x = set_of(false, extra)[0];
                assert(set_of(false, extra).contains(x));
                lemma_not_among_holds(changes, pkgs, x);
            }
        }
        if exists|n: Seq<char>| #[trigger] changes.contains(n) && !pkgs.contains(n) {
            let n = choose|n: Seq<char>| #[trigger] changes.contains(n) && !pkgs.contains(n);
            lemma_not_among_holds(changes, pkgs, n);
            assert(set_of(false, extra).contains(n));
        }
    }
}

proof fn lemma_not_among_holds(list: Seq<Seq<char>>, known: Seq<Seq<char>>, n: Seq<char>)
    ensures
        not_among(list, known).contains(n) <==> list.contains(n) && !known.contains(n),
    decreases list.len(),
{
    if list.len() > 0 {
        let front = list.drop_last();
        lemma_not_among_holds(front, known, n);
        assert(list =~= front.push(list.last()));
        lemma_push_contains(front, list.last(), n);
        lemma_push_contains(not_among(front, known), list.last(), n);
    }
}

/// Every old kernel with packages of its own gives a finding that purges them;
/// one without, of which more than modules is left, gives a manual step.
pub proof fn law_old_kernels_give_findings(
    old: Seq<OldView>,
    facts: Seq<KernelFacts>,
    modules: Seq<u8>,
    running: Seq<char>,
    newest: Seq<char>,
    status: Seq<char>,
    n: int,
    i: int,
)
    requires
        0 <= i < n,
    ensures
        ({
            let paths = found_paths(old[i].files, facts[i].files@) + found_paths(old[i].dirs, facts[i].dirs@);
            let sim = match facts[i].simulated {
                Some(s) => Some(s@),
                None => None,
            };
            (old[i].packages.len() > 0 || exists|k: int| 0 <= k < paths.len() && !inside(#[trigger] paths[k], modules)) ==> exists|j: int|
                0 <= j < kernels_found(old, facts, modules, running, newest, status, n).len() && {
                    let f = #[trigger] kernels_found(old, facts, modules, running, newest, status, n)[j];
                    &&& f.id == "kernel:"@ + old[i].ver
                    &&& f.title == "Inactive kernel "@ + old[i].ver
                    &&& f.risk == Risk::Moderate
                    &&& f.needs_root
                    &&& f.paths == paths
                    &&& f.bytes == (found_bytes(facts[i].files@, old[i].files.len() as int) + found_bytes(
                        facts[i].dirs@,
                        old[i].dirs.len() as int,
                    )) as u64
                    &&& f.action == (if old[i].packages.len() > 0 {
                        purge_action(old[i].packages, sim)
                    } else {
                        ActionView::Manual
                    })
                }
        }),
    decreases n,
{
    let all = kernels_found(old, facts, modules, running, newest, status, n);
    let rest = kernels_found(old, facts, modules, running, newest, status, n - 1);
    let paths = found_paths(old[i].files, facts[i].files@) + found_paths(old[i].dirs, facts[i].dirs@);
    if old[i].packages.len() > 0 || exists|k: int| 0 <= k < paths.len() && !inside(#[trigger] paths[k], modules) {
        if i < n - 1 {
            law_old_kernels_give_findings(old, facts, modules, running, newest, status, n - 1, i);
            let sim = match facts[i].simulated {
                Some(s) => Some(s@),
                None => None,
            };
            let j = choose|j: int|
                0 <= j < rest.len() && {
                    let f = #[trigger] rest[j];
                    &&& f.id == "kernel:"@ + old[i].ver
                    &&& f.title == "Inactive kernel "@ + old[i].ver
                    &&& f.risk == Risk::Moderate
                    &&& f.needs_root
                    &&& f.paths == paths
                    &&& f.bytes == (found_bytes(facts[i].files@, old[i].files.len() as int) + found_bytes(
                        facts[i].dirs@,
                        old[i].dirs.len() as int,
                    )) as u64
                    &&& f.action == (if old[i].packages.len() > 0 {
                        purge_action(old[i].packages, sim)
                    } else {
                        ActionView::Manual
                    })
                };
            assert(all[j] == rest[j]);
        } else {
            assert(all[rest.len() as int].id == "kernel:"@ + old[i].ver);
        }
    }
}

/// A kernel of which only module directories are left is swept up, if no package
/// speaks of it any more and it is older than the newest installed one.
pub proof fn law_module_leftovers_are_swept_up(
    old: Seq<OldView>,
    facts: Seq<KernelFacts>,
    modules: Seq<u8>,
    running: Seq<char>,
    newest: Seq<char>,
    status: Seq<char>,
    n: int,
    i: int,
    p: Seq<u8>,
)
    requires
        0 <= i < n,
        old[i].packages.len() == 0,
        forall|q: Seq<u8>| #[trigger]
            (found_paths(old[i].files, facts[i].files@) + found_paths(old[i].dirs, facts[i].dirs@)).contains(q) ==> inside(q, modules),
        (found_paths(old[i].files, facts[i].files@) + found_paths(old[i].dirs, facts[i].dirs@)).contains(p),
        !kernel_live(stanzas(status), old[i].ver),
        lex(version(old[i].ver), version(newest), num_lt()),
    ensures
        leftover_paths(old, facts, modules, running, newest, status, n).contains(p),
    decreases n,
{
    let all = leftover_paths(old, facts, modules, running, newest, status, n);
    let rest = leftover_paths(old, facts, modules, running, newest, status, n - 1);
    if i < n - 1 {
        law_module_leftovers_are_swept_up(old, facts, modules, running, newest, status, n - 1, i, p);
        let w = choose|w: int| 0 <= w < rest.len() && rest[w] == p;
        assert(all[w] == p);
    } else {
        let own = found_paths(old[i].files, facts[i].files@) + found_paths(old[i].dirs, facts[i].dirs@);
        assert forall|k: int| 0 <= k < own.len() implies inside(#[trigger] own[k], modules) by {
            assert(own.contains(own[k]));
        }
        let w = choose|w: int| 0 <= w < own.len() && own[w] == p;
        assert(all[rest.len() + w] == p);
    }
}

/// Leftovers are removed one by one by a command that looks once more, right
/// before, whether the kernel is installed again; the records of removed
/// packages are purged first, by name.
pub proof fn law_leftovers_are_rechecked(paths: Seq<Seq<u8>>, bytes: nat, running: Seq<char>, status: Seq<char>)
    ensures
        ({
            let f = leftover_finding(paths, bytes, running, status);
            let rc = leftover_records(paths, running, status);
            let removals = join(leftover_commands(paths), "; "@);
            &&& f.paths == paths
            &&& f.risk == Risk::Moderate
            &&& f.needs_root
            &&& f.action == (ActionView::Shell {
                command: if rc.len() == 0 {
                    removals
                } else {
                    "sudo dpkg --purge "@ + join(rc.map_values(|p: Seq<char>| quoted(p)), " "@) + "; "@ + removals
                },
            })
        }),
        leftover_commands(paths).len() == paths.len(),
        forall|i: int|
            0 <= i < paths.len() && leaf_text(paths[i]) is Some ==> #[trigger] leftover_commands(paths)[i]
                == "sudo sh -c 'if [ -e \"/boot/vmlinuz-$1\" ] || dpkg-query -W -f=\"\\${Status}\\n\" \"linux-*-$1\" 2>/dev/null | grep -Evq \"(config-files|not-installed)$\"; then echo \"kept $2: kernel $1 is installed now\"; else rm -rf --one-file-system -- \"$2\"; fi' _ "@
                + quoted(leaf_text(paths[i])->0) + " "@ + quoted(lossy_text(paths[i])),
{
    let rc = leftover_records(paths, running, status);
    assert(text_words(rc) =~= rc.map_values(|p: Seq<char>| quoted(p)));
}

/// The records that are purged with leftovers are those of removed packages of
/// just these kernels, and never of a kept one.
pub proof fn law_leftover_records_are_of_these_kernels(paths: Seq<Seq<u8>>, running: Seq<char>, status: Seq<char>, n: Seq<char>)
    ensures
        leftover_records(paths, running, status).contains(n) <==> names_ending(stanzas(status), "config-files"@).contains(n) && "linux-"@.is_prefix_of(
            n,
        ) && (exists|i: int| 0 <= i < leaf_texts(paths).len() && ("-"@ + #[trigger] leaf_texts(paths)[i]).is_suffix_of(n)) && !of_kept(
            installed_images(status),
            running,
            n,
        ),
{
    let list = names_of_versions(names_ending(stanzas(status), "config-files"@), leaf_texts(paths));
    law_records_are_of_the_kernels(names_ending(stanzas(status), "config-files"@), leaf_texts(paths), n);
    law_set_holds_the_list(false, list);
    lemma_spared(installed_images(status), running, set_of(false, list), n);
}

/// The findings about kernels are one for each old kernel that has anything, and
/// one about what is left over, if anything is.
pub proof fn law_kernel_findings_are_complete(
    plan: KernelPlan,
    facts: Vec<KernelFacts>,
    modules: FsPath,
    running: &str,
    status: &str,
    r: CheckOutput,
    j: int,
)
    requires
        call_ensures(kernel_findings, (&plan, &facts, &modules, running, status), r),
    ensures
        ({
            let old = old_views(plan.old@);
            let n = plan.old@.len() as int;
            let found = kernels_found(old, facts@, modules@, running@, plan.newest@, status@, n);
            let left = leftover_paths(old, facts@, modules@, running@, plan.newest@, status@, n);
            let bytes = leftover_bytes(old, facts@, modules@, running@, plan.newest@, status@, n);
            let all = finding_views(r.findings@);
            &&& 0 <= j < found.len() ==> all[j] == found[j]
            &&& left.len() > 0 ==> all.len() == found.len() + 1 && all.last() == leftover_finding(left, bytes, running@, status@)
            &&& left.len() == 0 ==> all == found
        }),
{
    let old = old_views(plan.old@);
    let n = plan.old@.len() as int;
    let found = kernels_found(old, facts@, modules@, running@, plan.newest@, status@, n);
    assert(found + Seq::<FindingView>::empty() =~= found);
}

/// There is a plan as soon as a kernel is installed and one runs, and it keeps the
/// newest installed one.
pub proof fn law_there_is_a_plan(roots: KernelRoots, names: KernelNames, status: &str, running: &str, r: Option<KernelPlan>)
    requires
        call_ensures(kernel_plan, (&roots, running, status, &names), r),
    ensures
        r is Some <==> installed_images(status@).len() > 0 && running@.len() > 0,
        r matches Some(p) ==> p.newest@ == installed_images(status@).last(),
{
}

} // verus!
