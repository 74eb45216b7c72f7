//! Where per-user caches live, and whether their apps are running.

use vstd::prelude::*;
use vstd::utf8::encode_utf8;

use crate::cleanup::{is_protected, protected};
use crate::path::{absolute, inside, join_bytes, FsPath};
use crate::text::{
    chars_of, contains, digits, has, is_digit, law_digits_read_back, lemma_digits, lemma_starts, number, parse_u64, slice, starts, strip_prefix, texts,
};

verus! {

/// Environment variables that move a cache.
pub struct Env {
    pub xdg_cache_home: Option<FsPath>,
    pub xdg_config_home: Option<FsPath>,
    pub xdg_data_home: Option<FsPath>,
    pub cargo_home: Option<FsPath>,
    pub pip_cache_dir: Option<FsPath>,
    pub npm_config_cache: Option<FsPath>,
    pub uv_cache_dir: Option<FsPath>,
    pub gocache: Option<FsPath>,
    pub gomodcache: Option<FsPath>,
    pub gopath: Option<FsPath>,
}

/// Where per-user caches live, honouring the usual overrides.
#[derive(Debug)]
pub struct Dirs {
    pub home: FsPath,
    pub cache: FsPath,
    pub config: FsPath,
    pub data: FsPath,
    pub cargo: FsPath,
    pub pip: Option<FsPath>,
    pub npm: Option<FsPath>,
    pub uv: FsPath,
    pub go_build: FsPath,
    pub go_mod: FsPath,
}

/// The view of an optional path.
pub open spec fn opt_path(o: Option<FsPath>) -> Option<Seq<u8>> {
    match o {
        Some(p) => Some(p@),
        None => None,
    }
}

/// An override that names a cache: absolute, and neither the home, one of its
/// parents nor a system directory.
pub open spec fn plausible(p: Seq<u8>, home: Seq<u8>) -> bool {
    absolute(p) && !inside(home, p) && !protected(p)
}

/// The override as far as it is trusted. Under sudo the environment belongs to
/// root, not to the scanned home.
pub open spec fn trusted(o: Option<FsPath>, home: Seq<u8>, is_root: bool) -> Option<Seq<u8>> {
    match o {
        Some(p) if !is_root && plausible(p@, home) => Some(p@),
        _ => None,
    }
}

pub open spec fn or_else(o: Option<Seq<u8>>, p: Seq<u8>) -> Seq<u8> {
    match o {
        Some(x) => x,
        None => p,
    }
}

fn var(o: &Option<FsPath>, home: &FsPath, is_root: bool) -> (r: Option<FsPath>)
    ensures
        opt_path(r) == trusted(*o, home@, is_root),
{
    match o {
        Some(p) => if !is_root && p.is_absolute() && !home.starts_with(p) && !is_protected(p) {
            Some(p.clone())
        } else {
            None
        },
        None => None,
    }
}

fn var_or(o: &Option<FsPath>, home: &FsPath, is_root: bool, default: FsPath) -> (r: FsPath)
    ensures
        r@ == or_else(trusted(*o, home@, is_root), default@),
{
    match var(o, home, is_root) {
        Some(p) => p,
        None => default,
    }
}

impl Dirs {
    /// The caches of the user at `home`. Overrides that could be much more than
    /// a cache are ignored, and all of them when running as root.
    pub fn from_env(home: &FsPath, is_root: bool, env: &Env) -> (r: Dirs)
        ensures
            r.home@ == home@,
            r.cache@ == or_else(trusted(env.xdg_cache_home, home@, is_root), join_bytes(home@, encode_utf8(".cache"@))),
            r.config@ == or_else(
                trusted(env.xdg_config_home, home@, is_root),
                join_bytes(home@, encode_utf8(".config"@)),
            ),
            r.data@ == or_else(
                trusted(env.xdg_data_home, home@, is_root),
                join_bytes(home@, encode_utf8(".local/share"@)),
            ),
            r.cargo@ == or_else(trusted(env.cargo_home, home@, is_root), join_bytes(home@, encode_utf8(".cargo"@))),
            opt_path(r.pip) == trusted(env.pip_cache_dir, home@, is_root),
            opt_path(r.npm) == trusted(env.npm_config_cache, home@, is_root),
            r.uv@ == or_else(trusted(env.uv_cache_dir, home@, is_root), join_bytes(r.cache@, encode_utf8("uv"@))),
            r.go_build@ == or_else(trusted(env.gocache, home@, is_root), join_bytes(r.cache@, encode_utf8("go-build"@))),
            r.go_mod@ == or_else(
                trusted(env.gomodcache, home@, is_root),
                join_bytes(
                    or_else(trusted(env.gopath, home@, is_root), join_bytes(home@, encode_utf8("go"@))),
                    encode_utf8("pkg/mod"@),
                ),
            ),
    {
        let cache = var_or(&env.xdg_cache_home, home, is_root, home.join_str(".cache"));
        let uv = var_or(&env.uv_cache_dir, home, is_root, cache.join_str("uv"));
        let go_build = var_or(&env.gocache, home, is_root, cache.join_str("go-build"));
        let gopath = var_or(&env.gopath, home, is_root, home.join_str("go"));
        Dirs {
            cache,
            config: var_or(&env.xdg_config_home, home, is_root, home.join_str(".config")),
            data: var_or(&env.xdg_data_home, home, is_root, home.join_str(".local/share")),
            cargo: var_or(&env.cargo_home, home, is_root, home.join_str(".cargo")),
            pip: var(&env.pip_cache_dir, home, is_root),
            npm: var(&env.npm_config_cache, home, is_root),
            uv,
            go_build,
            go_mod: var_or(&env.gomodcache, home, is_root, gopath.join_str("pkg/mod")),
            home: home.clone(),
        }
    }

    /// pip's cache: PIP_CACHE_DIR, else <cache>/pip.
    pub fn pip_cache(&self) -> (r: FsPath)
        ensures
            r@ == or_else(opt_path(self.pip), join_bytes(self.cache@, encode_utf8("pip"@))),
    {
        match &self.pip {
            Some(p) => p.clone(),
            None => self.cache.join_str("pip"),
        }
    }

    /// npm's cache root: npm_config_cache, else ~/.npm.
    pub fn npm_cache(&self) -> (r: FsPath)
        ensures
            r@ == or_else(opt_path(self.npm), join_bytes(self.home@, encode_utf8(".npm"@))),
    {
        match &self.npm {
            Some(p) => p.clone(),
            None => self.home.join_str(".npm"),
        }
    }
}

/// No override moves a cache to the home, to a folder that contains it, or to
/// a system directory; and none does anything under sudo.
pub proof fn law_overrides_are_harmless(o: Option<FsPath>, home: Seq<u8>, is_root: bool)
    ensures
        is_root ==> trusted(o, home, is_root) is None,
        trusted(o, home, is_root) matches Some(p) ==> absolute(p) && !inside(home, p) && !protected(p),
{
}

/// What looking at a lock shows. Chromium/Electron hold a `SingletonLock`
/// symlink in their profile dir while running; Firefox a `lock` symlink in each
/// profile.
pub enum Lock {
    Absent,
    /// It is there, but where it points cannot be read.
    Unreadable,
    /// It points here.
    Target(String),
}

/// Index of the last `:+`, or -1.
pub open spec fn last_plus(s: Seq<char>) -> int
    decreases s.len(),
{
    if s.len() < 2 {
        -1
    } else if s[s.len() - 2] == ':' && s[s.len() - 1] == '+' {
        s.len() - 2
    } else {
        last_plus(s.drop_last())
    }
}

/// The digits that name the process in a lock's target. Chromium:
/// `<hostname>-<pid>`. Firefox: `<ip>:+<pid>` (always local).
pub open spec fn lock_process(target: Seq<char>, host: Seq<char>) -> Option<Seq<char>> {
    if last_plus(target) >= 0 {
        Some(target.skip(last_plus(target) + 2))
    } else if host.len() > 0 && starts(target, host + "-"@) {
        Some(target.skip((host + "-"@).len() as int))
    } else {
        None
    }
}

/// The lock was left behind by a process that no longer exists.
pub open spec fn stale(target: Seq<char>, host: Seq<char>, pids: Seq<u32>) -> bool {
    match lock_process(target, host) {
        Some(p) => match number(p, u32::MAX as nat) {
            Some(n) => n > 0 && !pids.contains(n as u32),
            None => false,
        },
        None => false,
    }
}

fn find_plus(v: &Vec<char>) -> (r: Option<usize>)
    ensures
        r is Some <==> last_plus(v@) >= 0,
        r matches Some(i) ==> i == last_plus(v@) && i + 2 <= v@.len(),
{
    let mut n: usize = v.len();
    assert(v@.take(n as int) =~= v@);
    while n >= 2
        invariant
            n <= v@.len(),
            last_plus(v@) == last_plus(v@.take(n as int)),
        decreases n,
    {
        if v[n - 2] == ':' && v[n - 1] == '+' {
            return Some(n - 2);
        }
        assert(v@.take(n as int).drop_last() =~= v@.take(n - 1));
        n -= 1;
    }
    None
}

fn knows_pid(pids: &Vec<u32>, pid: u32) -> (r: bool)
    ensures
        r == pids@.contains(pid),
{
    for i in 0..pids.len()
        invariant
            forall|j: int| 0 <= j < i ==> pids@[j] != pid,
    {
        if pids[i] == pid {
            assert(pids@[i as int] == pid);
            return true;
        }
    }
    false
}

/// Does a lock name a process that no longer exists? `pids` are the running
/// ones. Anything we can't verify (another host, no process number) counts as
/// held.
pub fn lock_is_stale(target: &str, host: &str, pids: &Vec<u32>) -> (r: bool)
    ensures
        r == stale(target@, host@, pids@),
{
    let t = chars_of(target);
    let n: usize = t.len();
    let pid = match find_plus(&t) {
        Some(i) => {
            let p = slice(&t, i + 2, n);
            assert(p@ =~= target@.skip(i + 2));
            p
        },
        None => {
            if host.is_empty() {
                return false;
            }
            let prefix = host.to_owned().concat("-");
            match strip_prefix(&t, prefix.as_str()) {
                Some(p) => p,
                None => return false,
            }
        },
    };
    match parse_u64(&pid) {
        Some(n) => n > 0 && n <= u32::MAX as u64 && !knows_pid(pids, n as u32),
        None => false,
    }
}

/// The app that holds this lock is running.
pub open spec fn held(l: Lock, host: Seq<char>, pids: Seq<u32>) -> bool {
    match l {
        Lock::Absent => false,
        Lock::Unreadable => true,
        Lock::Target(t) => !stale(t@, host, pids),
    }
}

/// Is the app that holds this lock running? A lock left behind by a crash names
/// a process that no longer exists and is ignored.
pub fn has_lock(l: &Lock, host: &str, pids: &Vec<u32>) -> (r: bool)
    ensures
        r == held(*l, host@, pids@),
{
    match l {
        Lock::Absent => false,
        Lock::Unreadable => true,
        Lock::Target(t) => !lock_is_stale(t.as_str(), host, pids),
    }
}

/// Some command line contains `what`.
pub open spec fn in_use(commands: Seq<Seq<char>>, what: Seq<char>) -> bool {
    exists|i: int| 0 <= i < commands.len() && contains(#[trigger] commands[i], what)
}

/// Does the command line of a running process contain `what`?
pub fn is_in_use(commands: &Vec<String>, what: &str) -> (r: bool)
    ensures
        r == in_use(texts(commands@), what@),
{
    for i in 0..commands.len()
        invariant
            forall|j: int| 0 <= j < i ==> !contains(#[trigger] texts(commands@)[j], what@),
    {
        if has(&chars_of(commands[i].as_str()), what) {
            assert(contains(texts(commands@)[i as int], what@));
            return true;
        }
        assert(!contains(texts(commands@)[i as int], what@));
    }
    false
}

/// An override is followed exactly if the program does not run as root and the
/// place is an absolute path that neither holds the home folder nor is one of
/// the protected places.
pub proof fn law_plausible_overrides_are_followed(p: FsPath, home: Seq<u8>, is_root: bool, other: Seq<u8>)
    ensures
        or_else(trusted(Some(p), home, is_root), other) == (if !is_root && absolute(p@) && !inside(home, p@) && !protected(p@) {
            p@
        } else {
            other
        }),
        or_else(trusted(None, home, is_root), other) == other,
{
}

proof fn lemma_no_plus(s: Seq<char>)
    requires
        !s.contains('+'),
    ensures
        last_plus(s) == -1,
    decreases s.len(),
{
    if s.len() >= 2 {
        assert(s[s.len() - 1] != '+');
        assert(!s.drop_last().contains('+')) by {
            if s.drop_last().contains('+') {
                let k = choose|k: int| 0 <= k < s.drop_last().len() && s.drop_last()[k] == '+';
                assert(s[k] == '+');
            }
        }
        lemma_no_plus(s.drop_last());
    }
}

proof fn lemma_plus(a: Seq<char>, b: Seq<char>)
    requires
        !b.contains('+'),
    ensures
        last_plus(a + seq![':', '+'] + b) == a.len(),
    decreases b.len(),
{
    let s = a + seq![':', '+'] + b;
    if b.len() > 0 {
        assert(b[b.len() - 1] != '+');
        assert(s.last() == b.last());
        assert(s.drop_last() =~= a + seq![':', '+'] + b.drop_last());
        assert(!b.drop_last().contains('+')) by {
            if b.drop_last().contains('+') {
                let k = choose|k: int| 0 <= k < b.drop_last().len() && b.drop_last()[k] == '+';
                assert(b[k] == '+');
            }
        }
        lemma_plus(a, b.drop_last());
    }
}

/// A lock names the process that took it, as `<host>-<process>` or
/// `<address>:+<process>`, and is held exactly while that process runs.
pub proof fn law_locks_are_held_while_their_process_runs(host: Seq<char>, address: Seq<char>, pid: u32, pids: Seq<u32>)
    requires
        host.len() > 0,
        !host.contains('+'),
        pid > 0,
    ensures
        stale(host + "-"@ + digits(pid as nat), host, pids) <==> !pids.contains(pid),
        stale(address + ":+"@ + digits(pid as nat), host, pids) <==> !pids.contains(pid),
{
    reveal_strlit("-");
    reveal_strlit(":+");
    let d = digits(pid as nat);
    lemma_digits(pid as nat);
    law_digits_read_back(pid as nat, u32::MAX as nat);
    assert(!d.contains('+')) by {
        if d.contains('+') {
            let k = choose|k: int| 0 <= k < d.len() && d[k] == '+';
            assert(is_digit(d[k]));
        }
    }
    let t = host + "-"@ + d;
    assert(!t.contains('+')) by {
        if t.contains('+') {
            let k = choose|k: int| 0 <= k < t.len() && t[k] == '+';
            if k < host.len() {
                assert(host[k] == '+');
            } else if k > host.len() {
                assert(d[k - host.len() - 1] == '+');
            }
        }
    }
    lemma_no_plus(t);
    lemma_starts(host + "-"@, d);
    assert(":+"@ =~= seq![':', '+']);
    lemma_plus(address, d);
    let u = address + ":+"@ + d;
    assert(u.skip(address.len() as int + 2) =~= d);
}

/// A lock that is not there is not held; one that cannot be read, or that names
/// no process of this machine, counts as held.
pub proof fn law_doubtful_locks_are_held(t: String, host: Seq<char>, pids: Seq<u32>)
    ensures
        !held(Lock::Absent, host, pids),
        held(Lock::Unreadable, host, pids),
        !t@.contains('+') && !(host + "-"@).is_prefix_of(t@) ==> held(Lock::Target(t), host, pids),
        held(Lock::Target(t), host, pids) <==> !stale(t@, host, pids),
{
    if !t@.contains('+') {
        lemma_no_plus(t@);
    }
}

/// Something is in use as soon as one running command line holds it anywhere.
pub proof fn law_in_use_means_in_a_command_line(commands: Seq<Seq<char>>, i: int, before: Seq<char>, what: Seq<char>, behind: Seq<char>)
    requires
        0 <= i < commands.len(),
        commands[i] == before + what + behind,
    ensures
        in_use(commands, what),
        in_use(Seq::empty(), what) == false,
{
    assert(commands[i].subrange(before.len() as int, before.len() as int + what.len()) =~= what);
    assert(contains(commands[i], what));
}

/// Without an override, the caches are at their usual places below the home
/// folder.
pub proof fn law_usual_places(home: FsPath, env: Env, r: Dirs)
    requires
        call_ensures(Dirs::from_env, (&home, true, &env), r),
    ensures
        r.home@ == home@,
        r.cache@ == join_bytes(home@, encode_utf8(".cache"@)),
        r.config@ == join_bytes(home@, encode_utf8(".config"@)),
        r.data@ == join_bytes(home@, encode_utf8(".local/share"@)),
        r.cargo@ == join_bytes(home@, encode_utf8(".cargo"@)),
        r.pip is None,
        r.npm is None,
        r.uv@ == join_bytes(join_bytes(home@, encode_utf8(".cache"@)), encode_utf8("uv"@)),
        r.go_build@ == join_bytes(join_bytes(home@, encode_utf8(".cache"@)), encode_utf8("go-build"@)),
        r.go_mod@ == join_bytes(join_bytes(home@, encode_utf8("go"@)), encode_utf8("pkg/mod"@)),
{
}

/// Each override moves its own cache.
pub proof fn law_overrides_move_their_cache(home: FsPath, env: Env, p: FsPath, r: Dirs)
    requires
        plausible(p@, home@),
        call_ensures(Dirs::from_env, (&home, false, &env), r),
    ensures
        env.xdg_cache_home == Some(p) ==> r.cache@ == p@,
        env.xdg_config_home == Some(p) ==> r.config@ == p@,
        env.xdg_data_home == Some(p) ==> r.data@ == p@,
        env.cargo_home == Some(p) ==> r.cargo@ == p@,
        env.pip_cache_dir == Some(p) ==> opt_path(r.pip) == Some(p@),
        env.npm_config_cache == Some(p) ==> opt_path(r.npm) == Some(p@),
        env.uv_cache_dir == Some(p) ==> r.uv@ == p@,
        env.gocache == Some(p) ==> r.go_build@ == p@,
        env.gomodcache == Some(p) ==> r.go_mod@ == p@,
        env.gomodcache is None && env.gopath == Some(p) ==> r.go_mod@ == join_bytes(p@, encode_utf8("pkg/mod"@)),
{
}

/// Where pip and npm keep their caches.
pub proof fn law_pip_and_npm(d: Dirs, pip: FsPath, npm: FsPath)
    requires
        call_ensures(Dirs::pip_cache, (&d,), pip),
        call_ensures(Dirs::npm_cache, (&d,), npm),
    ensures
        d.pip is None ==> pip@ == join_bytes(d.cache@, encode_utf8("pip"@)),
        d.npm is None ==> npm@ == join_bytes(d.home@, encode_utf8(".npm"@)),
        d.pip matches Some(p) ==> pip@ == p@,
        d.npm matches Some(p) ==> npm@ == p@,
{
}

} // verus!
