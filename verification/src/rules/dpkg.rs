//! What dpkg and apt say about packages: the status database and dry runs.

use vstd::prelude::*;

use crate::names::{lemma_name_order, name_before, sort_dedup, sorted_set};
use crate::rules::kernels::lemma_push_contains;
use crate::text::{
    chars_of, digit, lemma_digit_char, lemma_ends, lemma_starts, same, ends, ends_with, is_digit, lines, lines_of, split, split_by, split_on,
    split_on_str, starts, starts_with, string_of, strip_prefix, texts, trim, trimmed, views, words,
    words_of,
};

verus! {

/// The rest of the last line that begins with `key`.
pub open spec fn last_field(list: Seq<Seq<char>>, key: Seq<char>) -> Option<Seq<char>>
    decreases list.len(),
{
    if list.len() == 0 {
        None
    } else if starts(list.last(), key) {
        Some(list.last().skip(key.len() as int))
    } else {
        last_field(list.drop_last(), key)
    }
}

pub(crate) fn find_field(list: &Vec<Vec<char>>, key: &str) -> (r: Option<Vec<char>>)
    ensures
        r is Some <==> last_field(views(list@), key@) is Some,
        r matches Some(x) ==> last_field(views(list@), key@) == Some(x@),
{
    let mut i: usize = list.len();
    assert(views(list@).take(i as int) =~= views(list@));
    while i > 0
        invariant
            i <= list@.len(),
            last_field(views(list@), key@) == last_field(views(list@).take(i as int), key@),
        decreases i,
    {
        assert(views(list@).take(i as int).last() == list@[i - 1]@);
        assert(views(list@).take(i as int).drop_last() =~= views(list@).take(i - 1));
        match strip_prefix(&list[i - 1], key) {
            Some(x) => return Some(x),
            None => {},
        }
        i -= 1;
    }
    None
}

/// The stanzas of a status database: blocks between empty lines.
pub open spec fn stanzas(status: Seq<char>) -> Seq<Seq<char>> {
    split_by(status, "\n\n"@)
}

pub(crate) fn stanza_list(status: &str) -> (r: Vec<Vec<char>>)
    ensures
        views(r@) == stanzas(status@),
{
    proof {
        reveal_strlit("\n\n");
    }
    split_on_str(&chars_of(status), "\n\n")
}

/// The package that a stanza is about.
pub open spec fn stanza_name(b: Seq<char>) -> Option<Seq<char>> {
    match last_field(lines(b), "Package: "@) {
        Some(n) => Some(trim(n)),
        None => None,
    }
}

/// The status line of a stanza.
pub open spec fn stanza_status(b: Seq<char>) -> Option<Seq<char>> {
    last_field(lines(b), "Status: "@)
}

/// The stanza's status, without white space around it, ends so.
pub open spec fn status_ends(b: Seq<char>, p: Seq<char>) -> bool {
    match stanza_status(b) {
        Some(s) => ends(trim(s), p),
        None => false,
    }
}

fn name_in(ls: &Vec<Vec<char>>, Ghost(b): Ghost<Seq<char>>) -> (r: Option<String>)
    requires
        views(ls@) == lines(b),
    ensures
        r is Some <==> stanza_name(b) is Some,
        r matches Some(n) ==> stanza_name(b) == Some(n@),
{
    match find_field(ls, "Package: ") {
        Some(n) => Some(string_of(&trimmed(&n))),
        None => None,
    }
}

/// The names of the packages whose status ends so.
pub open spec fn names_ending(blocks: Seq<Seq<char>>, p: Seq<char>) -> Seq<Seq<char>>
    decreases blocks.len(),
{
    if blocks.len() == 0 {
        Seq::empty()
    } else {
        let rest = names_ending(blocks.drop_last(), p);
        match stanza_name(blocks.last()) {
            Some(n) if status_ends(blocks.last(), p) => rest.push(n),
            _ => rest,
        }
    }
}

fn list_ending(status: &str, p: &str) -> (r: Vec<String>)
    ensures
        texts(r@) == names_ending(stanzas(status@), p@),
{
    let bs = stanza_list(status);
    let mut out: Vec<String> = Vec::new();
    assert(texts(out@) =~= Seq::empty());
    for i in 0..bs.len()
        invariant
            texts(out@) == names_ending(views(bs@).take(i as int), p@),
    {
        let ls = lines_of(&bs[i]);
        let ghost b = bs@[i as int]@;
        proof {
            assert(views(bs@).take(i + 1).drop_last() =~= views(bs@).take(i as int));
            assert(views(bs@).take(i + 1).last() == b);
        }
        let fits = match find_field(&ls, "Status: ") {
            Some(s) => ends_with(&trimmed(&s), p),
            None => false,
        };
        if let Some(n) = name_in(&ls, Ghost(b)) {
            if fits {
                let ghost before = out@;
                out.push(n);
                assert(texts(out@) =~= texts(before).push(n@));
            }
        }
    }
    assert(views(bs@).take(bs@.len() as int) =~= views(bs@));
    out
}

/// Names of installed packages according to a dpkg status database.
pub fn installed_packages(status: &str) -> (r: Vec<String>)
    ensures
        texts(r@) == names_ending(stanzas(status@), " installed"@),
{
    list_ending(status, " installed")
}

/// dpkg's word for the state of a stanza's package.
pub open spec fn stanza_state(b: Seq<char>) -> Option<Seq<char>> {
    match stanza_status(b) {
        Some(s) if words(s).len() > 0 => Some(words(s).last()),
        _ => None,
    }
}

/// The state of package `n`: the last stanza about it that names one decides.
pub open spec fn state_of(blocks: Seq<Seq<char>>, n: Seq<char>) -> Option<Seq<char>>
    decreases blocks.len(),
{
    if blocks.len() == 0 {
        None
    } else if stanza_name(blocks.last()) == Some(n) && stanza_state(blocks.last()) is Some {
        stanza_state(blocks.last())
    } else {
        state_of(blocks.drop_last(), n)
    }
}

/// What a list of packages and states says about package `n`.
pub open spec fn lookup(list: Seq<(String, String)>, n: Seq<char>) -> Option<Seq<char>>
    decreases list.len(),
{
    if list.len() == 0 {
        None
    } else if list.last().0@ == n {
        Some(list.last().1@)
    } else {
        lookup(list.drop_last(), n)
    }
}

/// No package is listed twice.
pub open spec fn listed_once(list: Seq<(String, String)>) -> bool {
    forall|i: int, j: int| 0 <= i < j < list.len() ==> (#[trigger] list[i]).0@ != (#[trigger] list[j]).0@
}

proof fn lemma_lookup_entry(list: Seq<(String, String)>, i: int)
    requires
        listed_once(list),
        0 <= i < list.len(),
    ensures
        lookup(list, list[i].0@) == Some(list[i].1@),
    decreases list.len(),
{
    if i < list.len() - 1 {
        assert(list[i].0@ != list[list.len() - 1].0@);
        lemma_lookup_entry(list.drop_last(), i);
        assert(list.drop_last()[i] == list[i]);
    }
}

proof fn lemma_lookup_found(list: Seq<(String, String)>, n: Seq<char>)
    ensures
        lookup(list, n) is Some ==> exists|i: int| 0 <= i < list.len() && (#[trigger] list[i]).0@ == n && lookup(list, n) == Some(list[i].1@),
    decreases list.len(),
{
    if list.len() > 0 {
        if list.last().0@ == n {
            assert(list[list.len() - 1].0@ == n);
        } else {
            lemma_lookup_found(list.drop_last(), n);
            if lookup(list, n) is Some {
                let d = list.drop_last();
                let i = choose|i: int| 0 <= i < d.len() && (#[trigger] d[i]).0@ == n && lookup(d, n) == Some(d[i].1@);
                assert(list[i].0@ == n);
            }
        }
    }
}

fn has_name(list: &Vec<(String, String)>, n: &String) -> (r: bool)
    ensures
        r == (exists|i: int| 0 <= i < list@.len() && (#[trigger] list@[i]).0@ == n@),
{
    for i in 0..list.len()
        invariant
            forall|j: int| 0 <= j < i ==> (#[trigger] list@[j]).0@ != n@,
    {
        if list[i].0 == *n {
            assert(list@[i as int].0@ == n@);
            return true;
        }
    }
    false
}

/// dpkg state of every package: name → last word of `Status:` (`installed`,
/// `unpacked`, `half-configured`, `config-files`, …).
pub fn package_states(status: &str) -> (r: Vec<(String, String)>)
    ensures
        listed_once(r@),
        forall|n: Seq<char>| #[trigger] lookup(r@, n) == state_of(stanzas(status@), n),
{
    let bs = stanza_list(status);
    let ghost blocks = views(bs@);
    let mut out: Vec<(String, String)> = Vec::new();
    let mut i: usize = bs.len();
    assert(blocks.take(i as int) =~= blocks);
    while i > 0
        invariant
            i <= bs@.len(),
            blocks == views(bs@),
            listed_once(out@),
            forall|n: Seq<char>|
                state_of(blocks, n) == (if lookup(out@, n) is Some {
                    #[trigger] lookup(out@, n)
                } else {
                    state_of(blocks.take(i as int), n)
                }),
        decreases i,
    {
        i -= 1;
        let ls = lines_of(&bs[i]);
        let ghost b = bs@[i as int]@;
        let ghost before = out@;
        proof {
            assert(blocks.take(i + 1).drop_last() =~= blocks.take(i as int));
            assert(blocks.take(i + 1).last() == b);
        }
        let state = match find_field(&ls, "Status: ") {
            Some(s) => {
                let w = words_of(&s);
                assert(views(w@).len() == w@.len());
                if w.len() > 0 {
                    assert(views(w@).last() == w@[w@.len() - 1]@);
                    Some(string_of(&w[w.len() - 1]))
                } else {
                    None
                }
            },
            None => None,
        };
        if let Some(n) = name_in(&ls, Ghost(b)) {
            if let Some(st) = state {
                let known = has_name(&out, &n);
                proof {
                    lemma_lookup_found(out@, n@);
                    if known {
                        let x = choose|x: int| 0 <= x < out@.len() && (#[trigger] out@[x]).0@ == n@;
                        lemma_lookup_entry(out@, x);
                    }
                }
                if !known {
                    out.push((n, st));
                    proof {
                        assert(out@.drop_last() =~= before);
                        assert forall|m: Seq<char>| state_of(blocks, m) == (if lookup(out@, m) is Some {
                            #[trigger] lookup(out@, m)
                        } else {
                            state_of(blocks.take(i as int), m)
                        }) by {
                            assert(lookup(out@, m) == if m == n@ { Some(st@) } else { lookup(before, m) });
                            if m == n@ {
                                assert(lookup(before, m) is None);
                                assert(state_of(blocks, m) == state_of(blocks.take(i + 1), m));
                            }
                        }
                    }
                }
            }
        }
        proof {
            assert forall|m: Seq<char>| state_of(blocks, m) == (if lookup(out@, m) is Some {
                #[trigger] lookup(out@, m)
            } else {
                state_of(blocks.take(i as int), m)
            }) by {
                assert(lookup(before, m) is Some || state_of(blocks, m) == state_of(blocks.take(i + 1), m));
            }
        }
    }
    proof {
        assert(blocks.take(0) =~= Seq::empty());
    }
    out
}

/// Package `p` is (part of) kernel `ver` and dpkg has not removed it.
pub open spec fn live_package(p: Seq<char>, state: Seq<char>, ver: Seq<char>) -> bool {
    &&& starts(p, "linux-"@)
    &&& ends(p, "-"@ + ver)
    &&& state != "config-files"@
    &&& state != "not-installed"@
}

/// Some package of kernel `ver` is in a state other than removed.
pub open spec fn kernel_live(blocks: Seq<Seq<char>>, ver: Seq<char>) -> bool {
    exists|p: Seq<char>| (#[trigger] state_of(blocks, p)) is Some && live_package(p, state_of(blocks, p)->0, ver)
}

/// The same, read off a list of packages and states.
pub open spec fn listed_live(list: Seq<(String, String)>, ver: Seq<char>) -> bool {
    exists|i: int| 0 <= i < list.len() && live_package((#[trigger] list[i]).0@, list[i].1@, ver)
}

/// Does dpkg know kernel `ver` in any state other than removed? True while a
/// kernel is being installed (e.g. `unpacked` during an unattended upgrade).
pub fn kernel_version_live(states: &Vec<(String, String)>, ver: &str) -> (r: bool)
    ensures
        r == listed_live(states@, ver@),
{
    let suffix = "-".to_owned().concat(ver);
    for i in 0..states.len()
        invariant
            suffix@ == "-"@ + ver@,
            forall|j: int| 0 <= j < i ==> !live_package((#[trigger] states@[j]).0@, states@[j].1@, ver@),
    {
        let (p, st) = &states[i];
        let v = chars_of(p.as_str());
        if starts_with(&v, "linux-") && ends_with(&v, suffix.as_str()) && !same(st.as_str(), "config-files")
            && !same(st.as_str(), "not-installed") {
            assert(live_package(states@[i as int].0@, states@[i as int].1@, ver@));
            return true;
        }
    }
    false
}

/// A list of all packages and their states answers for the database.
pub proof fn lemma_listed_live(list: Seq<(String, String)>, blocks: Seq<Seq<char>>, ver: Seq<char>)
    requires
        listed_once(list),
        forall|n: Seq<char>| #[trigger] lookup(list, n) == state_of(blocks, n),
    ensures
        listed_live(list, ver) == kernel_live(blocks, ver),
{
    if listed_live(list, ver) {
        let i = choose|i: int| 0 <= i < list.len() && live_package((#[trigger] list[i]).0@, list[i].1@, ver);
        lemma_lookup_entry(list, i);
        assert(state_of(blocks, list[i].0@) == lookup(list, list[i].0@));
    }
    if kernel_live(blocks, ver) {
        let p = choose|p: Seq<char>|
            (#[trigger] state_of(blocks, p)) is Some && live_package(p, state_of(blocks, p)->0, ver);
        assert(lookup(list, p) == state_of(blocks, p));
        lemma_lookup_found(list, p);
    }
}

/// The package that a line of a dry run is about.
pub open spec fn sim_name(rest: Seq<char>) -> Option<Seq<char>> {
    if words(rest).len() > 0 {
        Some(split(words(rest)[0], ':')[0])
    } else {
        None
    }
}

/// The change that a line of a dry run announces.
pub open spec fn sim_change(l: Seq<char>) -> Option<Seq<char>> {
    if starts(l, "Remv "@) {
        sim_name(l.skip("Remv "@.len() as int))
    } else if starts(l, "Purg "@) {
        sim_name(l.skip("Purg "@.len() as int))
    } else if starts(l, "Inst "@) {
        match sim_name(l.skip("Inst "@.len() as int)) {
            Some(n) => Some(n + " (install)"@),
            None => None,
        }
    } else {
        None
    }
}

/// The changes that the lines of a dry run announce, in order.
pub open spec fn sim_changes(list: Seq<Seq<char>>) -> Seq<Seq<char>>
    decreases list.len(),
{
    if list.len() == 0 {
        Seq::empty()
    } else {
        let rest = sim_changes(list.drop_last());
        match sim_change(list.last()) {
            Some(n) => rest.push(n),
            None => rest,
        }
    }
}

pub(crate) fn sim_package(rest: &Vec<char>) -> (r: Option<String>)
    ensures
        r is Some <==> sim_name(rest@) is Some,
        r matches Some(n) ==> sim_name(rest@) == Some(n@),
{
    let w = words_of(rest);
    assert(views(w@).len() == w@.len());
    if w.len() == 0 {
        return None;
    }
    assert(views(w@)[0] == w@[0]@);
    let parts = split_on(&w[0], ':');
    assert(views(parts@)[0] == parts@[0]@);
    Some(string_of(&parts[0]))
}

/// Packages an `apt-get -s` run would change: its `Remv` / `Purg` lines, plus
/// any `Inst` line as "<pkg> (install)" — removing something should never
/// pull in a replacement unnoticed.
pub fn apt_sim_removals(sim: &str) -> (r: Vec<String>)
    ensures
        texts(r@) == sim_changes(lines(sim@)),
{
    let ls = lines_of(&chars_of(sim));
    let mut out: Vec<String> = Vec::new();
    assert(texts(out@) =~= Seq::empty());
    for i in 0..ls.len()
        invariant
            texts(out@) == sim_changes(views(ls@).take(i as int)),
    {
        proof {
            assert(views(ls@).take(i + 1).drop_last() =~= views(ls@).take(i as int));
            assert(views(ls@).take(i + 1).last() == ls@[i as int]@);
        }
        let n = match strip_prefix(&ls[i], "Remv ") {
            Some(rest) => sim_package(&rest),
            None => match strip_prefix(&ls[i], "Purg ") {
                Some(rest) => sim_package(&rest),
                None => match strip_prefix(&ls[i], "Inst ") {
                    Some(rest) => match sim_package(&rest) {
                        Some(n) => Some(n.concat(" (install)")),
                        None => None,
                    },
                    None => None,
                },
            },
        };
        if let Some(n) = n {
            let ghost before = out@;
            out.push(n);
            assert(texts(out@) =~= texts(before).push(n@));
        }
    }
    assert(views(ls@).take(ls@.len() as int) =~= views(ls@));
    out
}

/// The kernel release that an image package is for, if it is one (signed or
/// unsigned; debug-symbol packages are not kernels).
pub open spec fn image_release(p: Seq<char>) -> Option<Seq<char>> {
    let v = if starts(p, "linux-image-unsigned-"@) {
        Some(p.skip("linux-image-unsigned-"@.len() as int))
    } else if starts(p, "linux-image-"@) {
        Some(p.skip("linux-image-"@.len() as int))
    } else {
        None
    };
    match v {
        Some(v) if v.len() > 0 && is_digit(v[0]) && !ends(v, "-dbgsym"@) => Some(v),
        _ => None,
    }
}

/// The releases of the image packages among `list`.
pub open spec fn image_releases(list: Seq<Seq<char>>) -> Seq<Seq<char>>
    decreases list.len(),
{
    if list.len() == 0 {
        Seq::empty()
    } else {
        let rest = image_releases(list.drop_last());
        match image_release(list.last()) {
            Some(v) => rest.push(v),
            None => rest,
        }
    }
}

/// Kernel releases with an installed `linux-image-<release>` package, once
/// each.
pub fn installed_kernel_images(packages: &Vec<String>) -> (r: Vec<String>)
    ensures
        sorted_set(false, image_releases(texts(packages@)), texts(r@)),
{
    let ghost list = texts(packages@);
    let mut found: Vec<String> = Vec::new();
    assert(texts(found@) =~= Seq::empty());
    for i in 0..packages.len()
        invariant
            list == texts(packages@),
            texts(found@) == image_releases(list.take(i as int)),
    {
        let p = chars_of(packages[i].as_str());
        proof {
            assert(list.take(i + 1).drop_last() =~= list.take(i as int));
            assert(list.take(i + 1).last() == p@);
        }
        let v = match strip_prefix(&p, "linux-image-unsigned-") {
            Some(v) => Some(v),
            None => strip_prefix(&p, "linux-image-"),
        };
        if let Some(v) = v {
            if v.len() > 0 && digit(v[0]) && !ends_with(&v, "-dbgsym") {
                let ghost before = found@;
                let s = string_of(&v);
                found.push(s);
                assert(texts(found@) =~= texts(before).push(s@));
            }
        }
    }
    assert(list.take(packages@.len() as int) =~= list);
    sort_dedup(false, &found)
}

/// One of the kernel versions is that of package `n`.
pub open spec fn of_version(n: Seq<char>, versions: Seq<Seq<char>>) -> bool {
    starts(n, "linux-"@) && exists|i: int| 0 <= i < versions.len() && ends(n, "-"@ + #[trigger] versions[i])
}

/// The names in `list` that belong to one of the kernel versions.
pub open spec fn names_of_versions(list: Seq<Seq<char>>, versions: Seq<Seq<char>>) -> Seq<Seq<char>>
    decreases list.len(),
{
    if list.len() == 0 {
        Seq::empty()
    } else {
        let rest = names_of_versions(list.drop_last(), versions);
        if of_version(list.last(), versions) {
            rest.push(list.last())
        } else {
            rest
        }
    }
}

fn is_of_version(n: &String, versions: &Vec<String>) -> (r: bool)
    ensures
        r == of_version(n@, texts(versions@)),
{
    let v = chars_of(n.as_str());
    if !starts_with(&v, "linux-") {
        return false;
    }
    for i in 0..versions.len()
        invariant
            v@ == n@,
            starts(n@, "linux-"@),
            forall|j: int| 0 <= j < i ==> !ends(n@, "-"@ + #[trigger] texts(versions@)[j]),
    {
        let suffix = "-".to_owned().concat(versions[i].as_str());
        if ends_with(&v, suffix.as_str()) {
            assert(ends(n@, "-"@ + texts(versions@)[i as int]));
            return true;
        }
    }
    false
}

/// Packages in dpkg "rc" state (removed, config files kept) belonging to the
/// given kernel versions.
pub fn rc_kernel_packages(status: &str, versions: &Vec<String>) -> (r: Vec<String>)
    ensures
        sorted_set(
            false,
            names_of_versions(names_ending(stanzas(status@), "config-files"@), texts(versions@)),
            texts(r@),
        ),
{
    let rc = list_ending(status, "config-files");
    let ghost list = texts(rc@);
    let mut found: Vec<String> = Vec::new();
    assert(texts(found@) =~= Seq::empty());
    for i in 0..rc.len()
        invariant
            list == texts(rc@),
            texts(found@) == names_of_versions(list.take(i as int), texts(versions@)),
    {
        proof {
            assert(list.take(i + 1).drop_last() =~= list.take(i as int));
            assert(list.take(i + 1).last() == rc@[i as int]@);
        }
        if is_of_version(&rc[i], versions) {
            let ghost before = found@;
            let s = rc[i].clone();
            found.push(s);
            assert(texts(found@) =~= texts(before).push(s@));
        }
    }
    assert(list.take(rc@.len() as int) =~= list);
    sort_dedup(false, &found)
}

/// The release that an image package is for: `linux-image-<release>` or
/// `linux-image-unsigned-<release>`, whatever its flavour, where the release
/// begins with a digit and is no debug-symbol package.
proof fn lemma_image_release(p: Seq<char>, v: Seq<char>)
    ensures
        image_release(p) == Some(v) <==> (p == "linux-image-"@ + v || p == "linux-image-unsigned-"@ + v) && v.len() > 0 && '0' <= v[0] <= '9'
            && !"-dbgsym"@.is_suffix_of(v),
{
    let (a, b) = ("linux-image-unsigned-"@, "linux-image-"@);
    reveal_strlit("linux-image-unsigned-");
    reveal_strlit("linux-image-");
    lemma_starts(a, v);
    lemma_starts(b, v);
    assert(ends(v, "-dbgsym"@) == "-dbgsym"@.is_suffix_of(v)) by {
        if "-dbgsym"@.is_suffix_of(v) {
            assert(v.subrange(v.len() - "-dbgsym"@.len(), v.len() as int) =~= "-dbgsym"@);
        }
    }
    if p == b + v && v.len() > 0 && '0' <= v[0] <= '9' {
        if starts(p, a) {
            assert(p[12] == v[0]);
            assert(p.subrange(0, a.len() as int)[12] == 'u');
        }
    }
    assert(a.len() == 21 && b.len() == 12 && a[12] == 'u');
    if v.len() > 0 {
        lemma_digit_char(v[0]);
    }
    if p == a + v {
        assert(starts(p, a));
        assert(p.skip(a.len() as int) == v);
    } else if p == b + v && v.len() > 0 && '0' <= v[0] <= '9' {
        assert(!starts(p, a));
        assert(starts(p, b));
        assert(p.skip(b.len() as int) == v);
    }
    if image_release(p) == Some(v) {
        if starts(p, a) {
            assert(p == a + p.skip(a.len() as int));
        } else {
            assert(p == b + p.skip(b.len() as int));
        }
    }
}

/// The installed images are exactly the releases that an image package among
/// the packages is for, signed or unsigned and of whatever flavour; debug
/// symbols are no image, nor is a metapackage such as `linux-image-generic`.
pub proof fn law_images_are_the_image_packages(list: Seq<Seq<char>>, v: Seq<char>)
    ensures
        image_releases(list).contains(v) <==> (list.contains("linux-image-"@ + v) || list.contains("linux-image-unsigned-"@ + v)) && v.len() > 0
            && '0' <= v[0] <= '9' && !"-dbgsym"@.is_suffix_of(v),
    decreases list.len(),
{
    if list.len() > 0 {
        let front = list.drop_last();
        let x = list.last();
        law_images_are_the_image_packages(front, v);
        assert(list =~= front.push(x));
        lemma_push_contains(front, x, "linux-image-"@ + v);
        lemma_push_contains(front, x, "linux-image-unsigned-"@ + v);
        lemma_image_release(x, v);
        if let Some(w) = image_release(x) {
            lemma_push_contains(image_releases(front), w, v);
        }
    }
}

/// The list of installed kernels is that of the image packages, each once.
pub proof fn law_installed_images_are_the_image_packages(packages: Seq<Seq<char>>, r: Seq<Seq<char>>, v: Seq<char>)
    requires
        sorted_set(false, image_releases(packages), r),
    ensures
        r.contains(v) <==> (packages.contains("linux-image-"@ + v) || packages.contains("linux-image-unsigned-"@ + v)) && v.len() > 0 && '0' <= v[0]
            <= '9' && !"-dbgsym"@.is_suffix_of(v),
        r.no_duplicates(),
{
    law_images_are_the_image_packages(packages, v);
    lemma_name_order(false);
    let lt = |a: Seq<char>, b: Seq<char>| name_before(false, a, b);
    assert forall|i: int, j: int| 0 <= i < j < r.len() implies r[i] != r[j] by {
        assert(name_before(false, r[i], r[j]));
        assert(!lt(r[i], r[i]));
    }
}

/// A package is among those in a state exactly if some stanza names it and has
/// a status line that ends so.
pub proof fn law_packages_in_a_state(blocks: Seq<Seq<char>>, p: Seq<char>, n: Seq<char>)
    ensures
        names_ending(blocks, p).contains(n) <==> exists|i: int|
            0 <= i < blocks.len() && stanza_name(#[trigger] blocks[i]) == Some(n) && stanza_status(blocks[i]) is Some && p.is_suffix_of(
                trim(stanza_status(blocks[i])->0),
            ),
    decreases blocks.len(),
{
    if blocks.len() > 0 {
        let front = blocks.drop_last();
        let b = blocks.last();
        law_packages_in_a_state(front, p, n);
        if let Some(s) = stanza_status(b) {
            let t = trim(s);
            if p.is_suffix_of(t) {
                assert(t.subrange(t.len() - p.len(), t.len() as int) =~= p);
            }
        }
        if let Some(m) = stanza_name(b) {
            lemma_push_contains(names_ending(front, p), m, n);
        }
        let ok = |x: Seq<char>| stanza_name(x) == Some(n) && stanza_status(x) is Some && p.is_suffix_of(trim(stanza_status(x)->0));
        if exists|i: int| 0 <= i < front.len() && ok(#[trigger] front[i]) {
            let i = choose|i: int| 0 <= i < front.len() && ok(#[trigger] front[i]);
            assert(ok(blocks[i]));
        }
        if exists|i: int| 0 <= i < blocks.len() && ok(#[trigger] blocks[i]) {
            let i = choose|i: int| 0 <= i < blocks.len() && ok(#[trigger] blocks[i]);
            if i < front.len() {
                assert(ok(front[i]));
            }
        }
        assert(blocks[blocks.len() - 1] == b);
    }
}

proof fn lemma_last_field(list: Seq<Seq<char>>, key: Seq<char>, i: int)
    requires
        0 <= i < list.len(),
        forall|j: int| i < j < list.len() ==> !starts(#[trigger] list[j], key),
    ensures
        starts(list[i], key) ==> last_field(list, key) == Some(list[i].skip(key.len() as int)),
    decreases list.len(),
{
    if i < list.len() - 1 {
        assert(!starts(list[list.len() - 1], key));
        assert forall|j: int| i < j < list.drop_last().len() implies !starts(#[trigger] list.drop_last()[j], key) by {
            assert(list.drop_last()[j] == list[j]);
        }
        lemma_last_field(list.drop_last(), key, i);
    }
}

/// A stanza is about the package that its (last) `Package: ` line names, and has
/// the status of its (last) `Status: ` line.
pub proof fn law_stanzas_name_their_package(b: Seq<char>, i: int, n: Seq<char>)
    requires
        0 <= i < lines(b).len(),
    ensures
        lines(b)[i] == "Package: "@ + n && (forall|j: int| i < j < lines(b).len() ==> !starts(#[trigger] lines(b)[j], "Package: "@))
            ==> stanza_name(b) == Some(trim(n)),
        lines(b)[i] == "Status: "@ + n && (forall|j: int| i < j < lines(b).len() ==> !starts(#[trigger] lines(b)[j], "Status: "@))
            ==> stanza_status(b) == Some(n),
{
    lemma_starts("Package: "@, n);
    lemma_starts("Status: "@, n);
    if forall|j: int| i < j < lines(b).len() ==> !starts(#[trigger] lines(b)[j], "Package: "@) {
        lemma_last_field(lines(b), "Package: "@, i);
    }
    if forall|j: int| i < j < lines(b).len() ==> !starts(#[trigger] lines(b)[j], "Status: "@) {
        lemma_last_field(lines(b), "Status: "@, i);
    }
}

/// Stanzas are the blocks between empty lines.
pub proof fn law_empty_lines_part_stanzas(a: Seq<char>, b: Seq<char>)
    requires
        forall|i: int| 0 <= i < a.len() ==> !(#[trigger] a[i] == '\n'),
    ensures
        stanzas(a + "\n\n"@ + b) == seq![a] + stanzas(b),
        stanzas(a) == seq![a],
{
    reveal_strlit("\n\n");
    let p = "\n\n"@;
    let s = a + p + b;
    assert(p.len() == 2 && p[0] == '\n' && p[1] == '\n');
    assert(s.subrange(a.len() as int, a.len() as int + 2) =~= p);
    lemma_blank_line(s, a.len() as int, 0);
    assert(s.take(a.len() as int) =~= a);
    assert(s.skip(a.len() as int + 2) =~= b);
    lemma_blank_line(a, a.len() as int, 0);
}

proof fn lemma_blank_line(s: Seq<char>, k: int, i: int)
    requires
        0 <= i <= k <= s.len(),
        forall|j: int| 0 <= j < k ==> !(#[trigger] s[j] == '\n'),
        k == s.len() || (k + 2 <= s.len() && s.subrange(k, k + 2) == "\n\n"@),
    ensures
        crate::text::sub_from(s, "\n\n"@, i) == k,
    decreases k - i,
{
    reveal_strlit("\n\n");
    if i < k {
        if i + 2 <= s.len() && s.subrange(i, i + 2) == "\n\n"@ {
            assert(s.subrange(i, i + 2)[0] == '\n');
        }
        lemma_blank_line(s, k, i + 1);
    }
}

/// A package is in the state that the last stanza which names it and a state
/// gives: the last word of that stanza's status.
pub proof fn law_last_stanza_decides(blocks: Seq<Seq<char>>, n: Seq<char>, i: int)
    requires
        0 <= i < blocks.len(),
        stanza_name(blocks[i]) == Some(n),
        stanza_status(blocks[i]) is Some,
        words(stanza_status(blocks[i])->0).len() > 0,
        forall|j: int| i < j < blocks.len() ==> stanza_name(#[trigger] blocks[j]) != Some(n),
    ensures
        state_of(blocks, n) == Some(words(stanza_status(blocks[i])->0).last()),
    decreases blocks.len(),
{
    if i < blocks.len() - 1 {
        let front = blocks.drop_last();
        assert(stanza_name(blocks[blocks.len() - 1]) != Some(n));
        assert forall|j: int| i < j < front.len() implies stanza_name(#[trigger] front[j]) != Some(n) by {
            assert(front[j] == blocks[j]);
        }
        law_last_stanza_decides(front, n, i);
    }
}

/// A kernel is live while dpkg has some `linux-…-<release>` package of it in any
/// state but `config-files` and `not-installed`.
pub proof fn law_live_kernels_have_live_packages(blocks: Seq<Seq<char>>, ver: Seq<char>)
    ensures
        kernel_live(blocks, ver) <==> exists|p: Seq<char>|
            (#[trigger] state_of(blocks, p)) is Some && "linux-"@.is_prefix_of(p) && ("-"@ + ver).is_suffix_of(p) && state_of(blocks, p)->0
                != "config-files"@ && state_of(blocks, p)->0 != "not-installed"@,
{
    assert forall|p: Seq<char>| starts(p, "linux-"@) == #[trigger] "linux-"@.is_prefix_of(p) by {
        if "linux-"@.is_prefix_of(p) {
            assert(p.subrange(0, "linux-"@.len() as int) =~= "linux-"@);
        }
    }
    let t = "-"@ + ver;
    assert forall|p: Seq<char>| ends(p, t) == #[trigger] t.is_suffix_of(p) by {
        if t.is_suffix_of(p) {
            assert(p.subrange(p.len() - t.len(), p.len() as int) =~= t);
        }
    }
    if kernel_live(blocks, ver) {
        let p = choose|p: Seq<char>| (#[trigger] state_of(blocks, p)) is Some && live_package(p, state_of(blocks, p)->0, ver);
        assert("linux-"@.is_prefix_of(p) && t.is_suffix_of(p));
    }
    if exists|p: Seq<char>|
        (#[trigger] state_of(blocks, p)) is Some && "linux-"@.is_prefix_of(p) && t.is_suffix_of(p) && state_of(blocks, p)->0
            != "config-files"@ && state_of(blocks, p)->0 != "not-installed"@ {
        let p = choose|p: Seq<char>|
            (#[trigger] state_of(blocks, p)) is Some && "linux-"@.is_prefix_of(p) && t.is_suffix_of(p) && state_of(blocks, p)->0
                != "config-files"@ && state_of(blocks, p)->0 != "not-installed"@;
        assert(live_package(p, state_of(blocks, p)->0, ver));
    }
}

/// A dry run changes a package exactly if a line says so: `Remv` and `Purg` name
/// one that goes, `Inst` one that would come; the name ends at an architecture.
pub proof fn law_dry_run_lines_are_changes(list: Seq<Seq<char>>, n: Seq<char>)
    ensures
        sim_changes(list).contains(n) <==> exists|i: int| 0 <= i < list.len() && announces(#[trigger] list[i], n),
    decreases list.len(),
{
    if list.len() > 0 {
        let front = list.drop_last();
        let l = list.last();
        law_dry_run_lines_are_changes(front, n);
        lemma_announces(l, n);
        if let Some(m) = sim_change(l) {
            lemma_push_contains(sim_changes(front), m, n);
        }
        if exists|i: int| 0 <= i < front.len() && announces(#[trigger] front[i], n) {
            let i = choose|i: int| 0 <= i < front.len() && announces(#[trigger] front[i], n);
            assert(announces(list[i], n));
        }
        if exists|i: int| 0 <= i < list.len() && announces(#[trigger] list[i], n) {
            let i = choose|i: int| 0 <= i < list.len() && announces(#[trigger] list[i], n);
            if i < front.len() {
                assert(announces(front[i], n));
            }
        }
        assert(list[list.len() - 1] == l);
    }
}

/// The first word of `rest`, up to a colon.
pub open spec fn first_package(rest: Seq<char>, n: Seq<char>) -> bool {
    words(rest).len() > 0 && n == split(words(rest)[0], ':')[0]
}

/// A line that goes on with `rest` and announces the change `n`.
pub open spec fn announces_in(l: Seq<char>, rest: Seq<char>, n: Seq<char>) -> bool {
    ||| (l == "Remv "@ + rest || l == "Purg "@ + rest) && first_package(rest, n)
    ||| l == "Inst "@ + rest && exists|m: Seq<char>| n == m + " (install)"@ && #[trigger] first_package(rest, m)
}

/// A line of a dry run that announces the change `n`.
pub open spec fn announces(l: Seq<char>, n: Seq<char>) -> bool {
    exists|rest: Seq<char>| #[trigger] announces_in(l, rest, n)
}

proof fn lemma_announces(l: Seq<char>, n: Seq<char>)
    ensures
        announces(l, n) <==> sim_change(l) == Some(n),
{
    reveal_strlit("Remv ");
    reveal_strlit("Purg ");
    reveal_strlit("Inst ");
    let (a, b, c, t) = ("Remv "@, "Purg "@, "Inst "@, " (install)"@);
    assert(a[0] == 'R' && b[0] == 'P' && c[0] == 'I');
    if starts(l, a) {
        assert(l.subrange(0, a.len() as int)[0] == 'R');
    }
    if starts(l, b) {
        assert(l.subrange(0, b.len() as int)[0] == 'P');
    }
    if starts(l, c) {
        assert(l.subrange(0, c.len() as int)[0] == 'I');
    }
    if announces(l, n) {
        let rest = choose|rest: Seq<char>| #[trigger] announces_in(l, rest, n);
        lemma_starts(a, rest);
        lemma_starts(b, rest);
        lemma_starts(c, rest);
    }
    if sim_change(l) == Some(n) {
        let rest = l.skip(5);
        lemma_starts(a, rest);
        lemma_starts(b, rest);
        lemma_starts(c, rest);
        if starts(l, a) || starts(l, b) {
            assert(first_package(rest, n));
        } else {
            let m = split(words(rest)[0], ':')[0];
            assert(first_package(rest, m));
        }
        assert(announces_in(l, rest, n));
    }
}

/// A removed package's record belongs to one of the kernels exactly if its name
/// begins with `linux-` and ends with that kernel's release behind a dash.
pub proof fn law_records_are_of_the_kernels(list: Seq<Seq<char>>, versions: Seq<Seq<char>>, n: Seq<char>)
    ensures
        names_of_versions(list, versions).contains(n) <==> list.contains(n) && "linux-"@.is_prefix_of(n) && exists|i: int|
            0 <= i < versions.len() && ("-"@ + #[trigger] versions[i]).is_suffix_of(n),
    decreases list.len(),
{
    if list.len() > 0 {
        let front = list.drop_last();
        let x = list.last();
        law_records_are_of_the_kernels(front, versions, n);
        assert(list =~= front.push(x));
        lemma_push_contains(front, x, n);
        lemma_push_contains(names_of_versions(front, versions), x, n);
        if "linux-"@.is_prefix_of(n) {
            assert(n.subrange(0, "linux-"@.len() as int) =~= "linux-"@);
        }
        assert forall|i: int| 0 <= i < versions.len() implies ends(n, "-"@ + #[trigger] versions[i]) == ("-"@ + versions[i]).is_suffix_of(n) by {
            let t = "-"@ + versions[i];
            if t.is_suffix_of(n) {
                assert(n.subrange(n.len() - t.len(), n.len() as int) =~= t);
            }
        }
        if x == n && of_version(n, versions) {
            let i = choose|i: int| 0 <= i < versions.len() && ends(n, "-"@ + #[trigger] versions[i]);
            assert(("-"@ + versions[i]).is_suffix_of(n));
        }
    }
}

/// The installed packages are those whose status ends in `installed`.
pub proof fn law_installed_packages_say_so(status: &str, r: Vec<String>)
    requires
        call_ensures(installed_packages, (status,), r),
    ensures
        texts(r@) == names_ending(stanzas(status@), " installed"@),
{
}

} // verus!
