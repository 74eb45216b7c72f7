//! Disk usage without a tree, and how many threads a scan uses.

use vstd::prelude::*;

use crate::order::{keyed_before, rank, stable_order};
use crate::path::{inside, paths_view, FsPath};
use crate::text::{chars_of, decimal, digits, same, string_of, trim, trimmed};
use crate::util::opt_text;

verus! {

/// An entry that a walk came by. The walk follows no symlink.
pub struct Visit {
    pub is_dir: bool,
    pub is_symlink: bool,
    pub dev: u64,
    pub ino: u64,
    pub nlink: u64,
    /// Allocated bytes.
    pub bytes: u64,
}

/// A directory that a walk on device `dev` enters.
pub fn enters(v: &Visit, dev: u64) -> (r: bool)
    ensures
        r == (v.is_dir && v.dev == dev),
{
    v.is_dir && v.dev == dev
}

/// A file that other names may lead to as well.
pub open spec fn many_names(v: Visit) -> bool {
    !v.is_dir && v.nlink > 1 && !v.is_symlink
}

pub open spec fn same_inode(a: Visit, b: Visit) -> bool {
    a.dev == b.dev && a.ino == b.ino
}

/// Entry `k` is a further name of a file that was counted.
pub open spec fn seen_before(list: Seq<Visit>, k: int) -> bool {
    many_names(list[k]) && exists|j: int| 0 <= j < k && many_names(#[trigger] list[j]) && same_inode(list[j], list[k])
}

/// What the first `k` entries use: directories of device `dev`, and every file
/// once.
pub open spec fn used_bytes(list: Seq<Visit>, dev: u64, k: int) -> nat
    decreases k,
{
    if k <= 0 {
        0
    } else {
        let v = list[k - 1];
        used_bytes(list, dev, k - 1) + if (v.is_dir && v.dev != dev) || seen_before(list, k - 1) {
            0
        } else {
            v.bytes as nat
        }
    }
}

/// How many of the first `k` entries are no directories.
pub open spec fn files_among(list: Seq<Visit>, k: int) -> nat
    decreases k,
{
    if k <= 0 {
        0
    } else {
        files_among(list, k - 1) + if list[k - 1].is_dir {
            0nat
        } else {
            1
        }
    }
}

/// The bytes of the first `k` entries.
pub open spec fn visit_bytes(list: Seq<Visit>, k: int) -> nat
    decreases k,
{
    if k <= 0 {
        0
    } else {
        visit_bytes(list, k - 1) + list[k - 1].bytes as nat
    }
}

proof fn lemma_visits_grow(list: Seq<Visit>, i: int, n: int)
    requires
        0 <= i <= n,
    ensures
        visit_bytes(list, i) <= visit_bytes(list, n),
    decreases n,
{
    if i < n {
        lemma_visits_grow(list, i, n - 1);
    }
}

/// One number for a device and inode.
spec fn inode_key(v: Visit) -> int {
    (v.dev - 9223372036854775808) * 18446744073709551616 + v.ino
}

/// The positions in `at` are those of files with many names, in order.
spec fn lists_links(list: Seq<Visit>, at: Seq<usize>, n: int) -> bool {
    &&& forall|i: int| 0 <= i < at.len() ==> (#[trigger] at[i]) < n && many_names(list[at[i] as int])
    &&& forall|i: int, j: int| 0 <= i < j < at.len() ==> (#[trigger] at[i]) < (#[trigger] at[j])
    &&& forall|k: int| 0 <= k < n && many_names(#[trigger] list[k]) ==> at.contains(k as usize)
}

/// `keys` are the inode keys of the files at `at`.
spec fn keys_of(list: Seq<Visit>, at: Seq<usize>, keys: Seq<i128>) -> bool {
    keys.len() == at.len() && forall|i: int| 0 <= i < at.len() ==> (#[trigger] keys[i]) == inode_key(list[at[i] as int])
}

proof fn lemma_seen(list: Seq<Visit>, at: Seq<usize>, keys: Seq<i128>, o: Seq<usize>, p: int)
    requires
        list.len() <= usize::MAX,
        lists_links(list, at, list.len() as int),
        keys_of(list, at, keys),
        stable_order(keys, o),
        0 <= p < o.len(),
    ensures
        seen_before(list, at[o[p] as int] as int) <==> (p > 0 && keys[o[p - 1] as int] == keys[o[p] as int]),
{
    let b = o[p] as int;
    assert(o[p] < at.len());
    let k = at[b] as int;
    assert(many_names(list[k]));
    if p > 0 && keys[o[p - 1] as int] == keys[o[p] as int] {
        let a = o[p - 1] as int;
        assert(keyed_before(keys, a, b));
        assert(o[p - 1] < at.len());
        let j = at[a] as int;
        assert(at[a] < at[b]);
        assert(keys[a] == inode_key(list[j]) && keys[b] == inode_key(list[k]));
        assert(many_names(list[j]) && same_inode(list[j], list[k]));
    }
    if seen_before(list, k) {
        let j = choose|j: int| 0 <= j < k && many_names(#[trigger] list[j]) && same_inode(list[j], list[k]);
        assert(at.contains(j as usize));
        let a = choose|a: int| 0 <= a < at.len() && at[a] == j as usize;
        assert(keys[a] == inode_key(list[j]) && keys[b] == inode_key(list[k]));
        if a > b {
            assert(at[b] < at[a]);
        }
        assert(a < b);
        assert(o.contains(a as usize));
        let q = choose|q: int| 0 <= q < o.len() && o[q] == a as usize;
        if q > p {
            assert(keyed_before(keys, o[p] as int, o[q] as int));
        }
        assert(q < p);
        let m = o[p - 1] as int;
        assert(keyed_before(keys, m, b));
        if q < p - 1 {
            assert(keyed_before(keys, o[q] as int, m));
        }
    }
}

/// For each entry, whether it is a further name of a file that was counted.
fn mark_seen(list: &Vec<Visit>) -> (r: Vec<bool>)
    ensures
        r@.len() == list@.len(),
        forall|k: int| 0 <= k < list@.len() ==> #[trigger] r@[k] == seen_before(list@, k),
{
    let n: usize = list.len();
    let mut seen: Vec<bool> = Vec::new();
    let mut at: Vec<usize> = Vec::new();
    let mut keys: Vec<i128> = Vec::new();
    for k in 0..n
        invariant
            n == list@.len(),
            seen@.len() == k,
            forall|j: int| 0 <= j < k ==> !#[trigger] seen@[j],
            lists_links(list@, at@, k as int),
            keys_of(list@, at@, keys@),
    {
        seen.push(false);
        let v = &list[k];
        let ghost before = at@;
        if !v.is_dir && v.nlink > 1 && !v.is_symlink {
            let key: i128 = (v.dev as i128 - 9223372036854775808) * 18446744073709551616 + v.ino as i128;
            at.push(k);
            keys.push(key);
            proof {
                assert forall|j: int| 0 <= j < k + 1 && many_names(#[trigger] list@[j]) implies at@.contains(j as usize) by {
                    if j < k {
                        assert(before.contains(j as usize));
                        let w = choose|w: int| 0 <= w < before.len() && before[w] == j as usize;
                        assert(at@[w] == j as usize);
                    } else {
                        assert(at@[before.len() as int] == k);
                    }
                }
            }
        }
    }
    let o = rank(&keys);
    for p in 0..o.len()
        invariant
            n == list@.len(),
            seen@.len() == n,
            lists_links(list@, at@, n as int),
            keys_of(list@, at@, keys@),
            stable_order(keys@, o@),
            forall|k: int| 0 <= k < n && !many_names(#[trigger] list@[k]) ==> !seen@[k],
            forall|q: int|
                #![trigger o@[q]]
                0 <= q < p ==> seen@[at@[o@[q] as int] as int] == seen_before(list@, at@[o@[q] as int] as int),
            forall|q: int| #![trigger o@[q]] p <= q < o@.len() ==> !seen@[at@[o@[q] as int] as int],
    {
        proof {
            lemma_seen(list@, at@, keys@, o@, p as int);
            assert(o@[p as int] < at@.len());
        }
        if p > 0 {
            assert(o@[p - 1] < at@.len());
        }
        if p > 0 && keys[o[p - 1]] == keys[o[p]] {
            let ghost before = seen@;
            let x: usize = at[o[p]];
            seen.set(x, true);
            proof {
                assert forall|q: int| #![trigger o@[q]] 0 <= q < o@.len() && q != p implies at@[o@[q] as int] != x by {
                    assert(o@[q] != o@[p as int]);
                    let (a, b) = (o@[q] as int, o@[p as int] as int);
                    assert(o@[q] < at@.len());
                    if a < b {
                        assert(at@[a] < at@[b]);
                    } else {
                        assert(at@[b] < at@[a]);
                    }
                }
                assert(many_names(list@[x as int]));
            }
        }
    }
    proof {
        assert forall|k: int| 0 <= k < n implies #[trigger] seen@[k] == seen_before(list@, k) by {
            if many_names(list@[k]) {
                assert(at@.contains(k as usize));
                let a = choose|a: int| 0 <= a < at@.len() && at@[a] == k as usize;
                assert(o@.contains(a as usize));
                let q = choose|q: int| 0 <= q < o@.len() && o@[q] == a as usize;
                assert(seen@[at@[o@[q] as int] as int] == seen_before(list@, at@[o@[q] as int] as int));
            }
        }
    }
    seen
}

/// What the entries below a directory of device `dev` use, and how many of them
/// are files.
fn use_below(list: &Vec<Visit>, dev: u64) -> (r: (u64, u64))
    requires
        visit_bytes(list@, list@.len() as int) <= u64::MAX,
    ensures
        r.0 == used_bytes(list@, dev, list@.len() as int),
        r.1 == files_among(list@, list@.len() as int),
        r.0 <= visit_bytes(list@, list@.len() as int),
{
    let seen = mark_seen(list);
    let n: usize = list.len();
    let mut bytes: u64 = 0;
    let mut files: u64 = 0;
    for i in 0..n
        invariant
            n == list@.len(),
            seen@.len() == n,
            forall|k: int| 0 <= k < n ==> #[trigger] seen@[k] == seen_before(list@, k),
            visit_bytes(list@, n as int) <= u64::MAX,
            bytes == used_bytes(list@, dev, i as int),
            bytes <= visit_bytes(list@, i as int),
            files == files_among(list@, i as int),
            files <= i,
    {
        let v = &list[i];
        proof {
            lemma_visits_grow(list@, i + 1, n as int);
        }
        if !((v.is_dir && v.dev != dev) || seen[i]) {
            bytes += v.bytes;
        }
        if !v.is_dir {
            files += 1;
        }
    }
    (bytes, files)
}

/// Total disk usage of a path: what was found at it (nothing if it is missing),
/// and what a walk below it came by. The directory's own blocks count, hard
/// links count once, other filesystems do not.
pub open spec fn usage_of(own: Option<Visit>, below: Seq<Visit>) -> (nat, nat) {
    match own {
        None => (0, 0),
        Some(d) => if d.is_dir {
            (d.bytes as nat + used_bytes(below, d.dev, below.len() as int), files_among(below, below.len() as int))
        } else {
            (d.bytes as nat, 1)
        },
    }
}

/// All bytes that a walk came by.
pub open spec fn walked_bytes(own: Option<Visit>, below: Seq<Visit>) -> nat {
    visit_bytes(below, below.len() as int) + match own {
        Some(d) => d.bytes as nat,
        None => 0,
    }
}

/// Total disk usage of a path (no tree kept), measured like a scan. Returns
/// (bytes, files).
pub fn du(own: &Option<Visit>, below: &Vec<Visit>) -> (r: (u64, u64))
    requires
        walked_bytes(*own, below@) <= u64::MAX,
    ensures
        (r.0 as nat, r.1 as nat) == usage_of(*own, below@),
{
    match own {
        None => (0, 0),
        Some(d) => {
            if !d.is_dir {
                return (d.bytes, 1);
            }
            let (b, f) = use_below(below, d.dev);
            (d.bytes + b, f)
        },
    }
}

/// Bytes inside a path, without its own block (the directory is kept).
pub fn contents_bytes(own: &Option<Visit>, below: &Vec<Visit>) -> (r: u64)
    requires
        walked_bytes(*own, below@) <= u64::MAX,
    ensures
        r == usage_of(*own, below@).0 - (match *own {
            Some(d) => d.bytes as nat,
            None => 0,
        }),
{
    match own {
        Some(d) => du(own, below).0 - d.bytes,
        None => 0,
    }
}

/// What deleting the first `k` entries frees that have at most `links` names:
/// directories (those of device `dev` alone, if one is given), and files that
/// nothing else holds.
pub open spec fn freed_bytes(list: Seq<Visit>, dev: Option<u64>, links: u64, k: int) -> nat
    decreases k,
{
    if k <= 0 {
        0
    } else {
        let v = list[k - 1];
        let counts = if v.is_dir {
            dev is None || dev == Some(v.dev)
        } else {
            v.nlink <= links || (dev is Some && v.is_symlink)
        };
        freed_bytes(list, dev, links, k - 1) + if counts {
            v.bytes as nat
        } else {
            0
        }
    }
}

fn sum_freed(list: &Vec<Visit>, dev: Option<u64>, links: u64) -> (r: u64)
    requires
        visit_bytes(list@, list@.len() as int) <= u64::MAX,
    ensures
        r == freed_bytes(list@, dev, links, list@.len() as int),
{
    let n: usize = list.len();
    let mut bytes: u64 = 0;
    for i in 0..n
        invariant
            n == list@.len(),
            visit_bytes(list@, n as int) <= u64::MAX,
            bytes == freed_bytes(list@, dev, links, i as int),
            bytes <= visit_bytes(list@, i as int),
    {
        let v = &list[i];
        proof {
            lemma_visits_grow(list@, i + 1, n as int);
        }
        let counts = match dev {
            Some(d) => if v.is_dir {
                v.dev == d
            } else {
                v.nlink <= links || v.is_symlink
            },
            None => v.is_dir || v.nlink <= links,
        };
        if counts {
            bytes += v.bytes;
        }
    }
    bytes
}

/// Bytes that deleting everything inside a directory would actually free: files
/// still hard-linked elsewhere (uv/pnpm/conda link their stores into
/// environments) keep their data, so only files with a single link count.
pub fn unique_bytes(own: &Option<Visit>, below: &Vec<Visit>) -> (r: u64)
    requires
        visit_bytes(below@, below@.len() as int) <= u64::MAX,
    ensures
        r == (match *own {
            Some(d) if d.is_dir => freed_bytes(below@, Some(d.dev), 1, below@.len() as int),
            _ => 0,
        }),
{
    match own {
        Some(d) => if d.is_dir {
            sum_freed(below, Some(d.dev), 1)
        } else {
            0
        },
        None => 0,
    }
}

/// Bytes of files in a Flatpak deployment that only it and the OSTree repo
/// hold (link count 2): what uninstall + repo prune gives back.
pub fn unique_ostree_bytes(below: &Vec<Visit>) -> (r: u64)
    requires
        visit_bytes(below@, below@.len() as int) <= u64::MAX,
    ensures
        r == freed_bytes(below@, None, 2, below@.len() as int),
{
    sum_freed(below, None, 2)
}

/// A file's data is counted once, however many names lead to it: with all other
/// names of it in the list, one more adds nothing.
pub proof fn law_hard_links_count_once(list: Seq<Visit>, v: Visit, dev: u64, j: int)
    requires
        0 <= j < list.len(),
        many_names(v),
        many_names(list[j]),
        same_inode(list[j], v),
    ensures
        used_bytes(list.push(v), dev, list.len() as int + 1) == used_bytes(list, dev, list.len() as int),
{
    let n = list.len() as int;
    let longer = list.push(v);
    lemma_used_prefix(list, v, dev, n);
    assert(longer[j] == list[j]);
    assert(seen_before(longer, n));
}

proof fn lemma_used_prefix(list: Seq<Visit>, v: Visit, dev: u64, k: int)
    requires
        0 <= k <= list.len(),
    ensures
        used_bytes(list.push(v), dev, k) == used_bytes(list, dev, k),
    decreases k,
{
    if k > 0 {
        lemma_used_prefix(list, v, dev, k - 1);
        let longer = list.push(v);
        assert(longer[k - 1] == list[k - 1]);
        if seen_before(longer, k - 1) {
            let j = choose|j: int| 0 <= j < k - 1 && many_names(#[trigger] longer[j]) && same_inode(longer[j], longer[k - 1]);
            assert(longer[j] == list[j]);
            assert(many_names(list[j]) && same_inode(list[j], list[k - 1]));
        }
        if seen_before(list, k - 1) {
            let j = choose|j: int| 0 <= j < k - 1 && many_names(#[trigger] list[j]) && same_inode(list[j], list[k - 1]);
            assert(longer[j] == list[j]);
            assert(many_names(longer[j]) && same_inode(longer[j], longer[k - 1]));
        }
    }
}

/// Where sysfs describes the block device `dev`: /sys/dev/block/MAJ:MIN.
pub fn block_device_dir(dev: u64) -> (r: String)
    ensures
        ({
            let major = ((dev >> 8u64) & 0xfff) | ((dev >> 32u64) & !0xfffu64);
            let minor = (dev & 0xff) | ((dev >> 12u64) & !0xffu64);
            r@ == "/sys/dev/block/"@ + digits(major as nat) + ":"@ + digits(minor as nat)
        }),
{
    let major: u64 = ((dev >> 8u64) & 0xfff) | ((dev >> 32u64) & !0xfffu64);
    let minor: u64 = (dev & 0xff) | ((dev >> 12u64) & !0xffu64);
    "/sys/dev/block/".to_owned().concat(decimal(major).as_str()).concat(":").concat(decimal(minor).as_str())
}

/// Is a block device a spinning disk, by the text of its queue/rotational?
/// Unknown devices count as SSD.
pub fn is_rotational(rotational: Option<&str>) -> (r: bool)
    ensures
        r == (match opt_text(rotational) {
            Some(t) => trim(t) == "1"@,
            None => false,
        }),
{
    match rotational {
        Some(t) => same(string_of(&trimmed(&chars_of(t))).as_str(), "1"),
        None => false,
    }
}

/// Scanner threads for a machine with `cpus` processors. Directory scanning is
/// bound by metadata I/O latency, not CPU: NVMe/SSD queues reward more requests
/// in flight than there are cores, while a spinning disk thrashes its head with
/// too many.
pub fn auto_threads(cpus: usize, rotational: bool) -> (r: usize)
    ensures
        rotational ==> r == (if cpus < 4 {
            cpus as int
        } else {
            4
        }),
        !rotational ==> r == (if 2 * cpus < 4 {
            4
        } else if 2 * cpus > 32 {
            32
        } else {
            2 * cpus
        }),
{
    if rotational {
        if cpus < 4 {
            cpus
        } else {
            4
        }
    } else if cpus < 2 {
        4
    } else if cpus > 16 {
        32
    } else {
        cpus * 2
    }
}

/// How many threads to ask for after the system could not give `n`.
pub fn fewer_threads(n: usize) -> (r: Option<usize>)
    ensures
        r == (if n > 1 {
            Some((n / 2) as usize)
        } else {
            None
        }),
{
    if n > 1 {
        Some(n / 2)
    } else {
        None
    }
}

/// Of the first `k` mount points, the longest that `root` lies in; of several
/// equally long ones the last.
pub open spec fn mount_of(mounts: Seq<Seq<u8>>, root: Seq<u8>, k: int) -> Option<int>
    decreases k,
{
    if k <= 0 {
        None
    } else {
        let before = mount_of(mounts, root, k - 1);
        if !inside(root, mounts[k - 1]) {
            before
        } else {
            match before {
                Some(b) => if mounts[k - 1].len() >= mounts[b].len() {
                    Some(k - 1)
                } else {
                    before
                },
                None => Some(k - 1),
            }
        }
    }
}

/// Which of the mounted disks holds `root`.
pub fn disk_of(mounts: &Vec<FsPath>, root: &FsPath) -> (r: Option<usize>)
    ensures
        match r {
            Some(i) => mount_of(paths_view(mounts@), root@, mounts@.len() as int) == Some(i as int),
            None => mount_of(paths_view(mounts@), root@, mounts@.len() as int) is None,
        },
{
    let ghost mv = paths_view(mounts@);
    let mut best: Option<usize> = None;
    for i in 0..mounts.len()
        invariant
            mv == paths_view(mounts@),
            match best {
                Some(b) => mount_of(mv, root@, i as int) == Some(b as int) && b < i,
                None => mount_of(mv, root@, i as int) is None,
            },
    {
        assert(mv[i as int] == mounts@[i as int]@);
        if root.starts_with(&mounts[i]) {
            let longer = match best {
                Some(b) => {
                    assert(mv[b as int] == mounts@[b as int]@);
                    mounts[i].bytes.len() >= mounts[b].bytes.len()
                },
                None => true,
            };
            if longer {
                best = Some(i);
            }
        }
    }
    best
}

proof fn lemma_same_usage(a: Seq<Visit>, b: Seq<Visit>, dev: u64, k: int)
    requires
        0 <= k <= a.len(),
        k <= b.len(),
        forall|j: int| 0 <= j < k ==> a[j] == b[j],
    ensures
        used_bytes(a, dev, k) == used_bytes(b, dev, k),
        files_among(a, k) == files_among(b, k),
        visit_bytes(a, k) == visit_bytes(b, k),
    decreases k,
{
    if k > 0 {
        lemma_same_usage(a, b, dev, k - 1);
        assert(a[k - 1] == b[k - 1]);
        if seen_before(a, k - 1) {
            let j = choose|j: int| 0 <= j < k - 1 && many_names(#[trigger] a[j]) && same_inode(a[j], a[k - 1]);
            assert(b[j] == a[j]);
        }
        if seen_before(b, k - 1) {
            let j = choose|j: int| 0 <= j < k - 1 && many_names(#[trigger] b[j]) && same_inode(b[j], b[k - 1]);
            assert(a[j] == b[j]);
        }
    }
}

/// Everything that is visited is counted with its bytes, but for folders of other
/// devices and further names of a file that was counted before.
pub proof fn law_everything_else_is_counted(list: Seq<Visit>, v: Visit, dev: u64)
    ensures
        ({
            let n = list.len() as int;
            let known = !v.is_dir && !v.is_symlink && v.nlink > 1 && exists|j: int|
                0 <= j < n && !(#[trigger] list[j]).is_dir && !list[j].is_symlink && list[j].nlink > 1 && list[j].dev == v.dev && list[j].ino
                    == v.ino;
            let left = v.is_dir && v.dev != dev || known;
            &&& left ==> used_bytes(list.push(v), dev, n + 1) == used_bytes(list, dev, n)
            &&& !left ==> used_bytes(list.push(v), dev, n + 1) == used_bytes(list, dev, n) + v.bytes
            &&& v.is_dir ==> files_among(list.push(v), n + 1) == files_among(list, n)
            &&& !v.is_dir ==> files_among(list.push(v), n + 1) == files_among(list, n) + 1
            &&& visit_bytes(list.push(v), n + 1) == visit_bytes(list, n) + v.bytes
        }),
{
    let n = list.len() as int;
    let all = list.push(v);
    lemma_same_usage(all, list, dev, n);
    if seen_before(all, n) {
        let j = choose|j: int| 0 <= j < n && many_names(#[trigger] all[j]) && same_inode(all[j], all[n]);
        assert(list[j] == all[j]);
    }
    if exists|j: int|
        0 <= j < n && !(#[trigger] list[j]).is_dir && !list[j].is_symlink && list[j].nlink > 1 && list[j].dev == v.dev && list[j].ino == v.ino {
        let j = choose|j: int|
            0 <= j < n && !(#[trigger] list[j]).is_dir && !list[j].is_symlink && list[j].nlink > 1 && list[j].dev == v.dev && list[j].ino
                == v.ino;
        assert(all[j] == list[j]);
        assert(many_names(all[j]) && same_inode(all[j], v));
    }
}

/// A folder uses its own bytes and those of what is below; anything else uses its
/// own, and is one file; what is not there uses nothing.
pub proof fn law_usage_of_a_place(d: Visit, below: Seq<Visit>)
    ensures
        usage_of(None, below) == (0nat, 0nat),
        !d.is_dir ==> usage_of(Some(d), below) == (d.bytes as nat, 1nat),
        d.is_dir ==> usage_of(Some(d), below) == (
            d.bytes as nat + used_bytes(below, d.dev, below.len() as int),
            files_among(below, below.len() as int),
        ),
{
}

/// What a removal frees: folders of the device, links of their own, and files
/// with no more names than go with it.
pub proof fn law_shared_files_free_nothing(list: Seq<Visit>, v: Visit, dev: u64, links: u64)
    ensures
        ({
            let n = list.len() as int;
            let one = freed_bytes(list.push(v), Some(dev), links, n + 1);
            let any = freed_bytes(list.push(v), None, links, n + 1);
            &&& v.is_dir && v.dev != dev ==> one == freed_bytes(list, Some(dev), links, n)
            &&& v.is_dir && v.dev == dev ==> one == freed_bytes(list, Some(dev), links, n) + v.bytes
            &&& !v.is_dir && v.nlink <= links ==> one == freed_bytes(list, Some(dev), links, n) + v.bytes
            &&& !v.is_dir && v.is_symlink ==> one == freed_bytes(list, Some(dev), links, n) + v.bytes
            &&& !v.is_dir && !v.is_symlink && v.nlink > links ==> one == freed_bytes(list, Some(dev), links, n)
            &&& v.is_dir || v.nlink <= links ==> any == freed_bytes(list, None, links, n) + v.bytes
            &&& !v.is_dir && v.nlink > links ==> any == freed_bytes(list, None, links, n)
        }),
{
    lemma_freed_prefix(list.push(v), list, Some(dev), links, list.len() as int);
    lemma_freed_prefix(list.push(v), list, None, links, list.len() as int);
}

proof fn lemma_freed_prefix(a: Seq<Visit>, b: Seq<Visit>, dev: Option<u64>, links: u64, k: int)
    requires
        0 <= k <= a.len(),
        k <= b.len(),
        forall|j: int| 0 <= j < k ==> a[j] == b[j],
    ensures
        freed_bytes(a, dev, links, k) == freed_bytes(b, dev, links, k),
    decreases k,
{
    if k > 0 {
        lemma_freed_prefix(a, b, dev, links, k - 1);
    }
}

/// A place is on the innermost mount that holds it: none that holds it has a
/// longer path, nor one as long that is mounted later.
pub proof fn law_a_place_is_on_its_innermost_mount(mounts: Seq<Seq<u8>>, root: Seq<u8>, k: int, j: int)
    requires
        0 <= j < k <= mounts.len(),
        inside(root, mounts[j]),
    ensures
        mount_of(mounts, root, k) matches Some(i) && 0 <= i < k && inside(root, mounts[i]) && mounts[i].len() >= mounts[j].len() && (
        mounts[i].len() == mounts[j].len() ==> i >= j),
    decreases k,
{
    if j < k - 1 {
        law_a_place_is_on_its_innermost_mount(mounts, root, k - 1, j);
    } else {
        lemma_mount_of(mounts, root, k - 1);
    }
}

proof fn lemma_mount_of(mounts: Seq<Seq<u8>>, root: Seq<u8>, k: int)
    requires
        k <= mounts.len(),
    ensures
        mount_of(mounts, root, k) matches Some(i) ==> 0 <= i < k && inside(root, mounts[i]),
    decreases k,
{
    if k > 0 {
        lemma_mount_of(mounts, root, k - 1);
    }
}

/// As many threads as suit the disk: at most four for one that turns, and else two
/// for each processor, from four to thirty-two.
pub proof fn law_threads_suit_the_disk(cpus: usize, turning: usize, still: usize)
    requires
        call_ensures(auto_threads, (cpus, true), turning),
        call_ensures(auto_threads, (cpus, false), still),
    ensures
        turning <= 4 && turning <= cpus,
        cpus >= 4 ==> turning == 4,
        cpus < 4 ==> turning == cpus,
        4 <= still <= 32,
        2 <= cpus <= 16 ==> still == 2 * cpus,
{
}

/// A walk enters the folders of its own device and nothing else.
pub proof fn law_walks_stay_on_their_device(v: Visit, dev: u64, r: bool)
    requires
        call_ensures(enters, (&v, dev), r),
    ensures
        r ==> v.is_dir && v.dev == dev,
        v.is_dir && v.dev == dev ==> r,
{
}

/// What is in a folder is all that it uses but its own blocks; what is not there
/// uses nothing.
pub proof fn law_contents_leave_the_folder_out(d: Visit, below: Vec<Visit>, r: u64, none: u64)
    requires
        d.is_dir,
        call_ensures(contents_bytes, (&Some(d), &below), r),
        call_ensures(contents_bytes, (&None::<Visit>, &below), none),
    ensures
        r == used_bytes(below@, d.dev, below@.len() as int),
        none == 0,
{
}

/// What a folder holds alone: the folders below it, and the files with no other
/// name.
pub proof fn law_unique_bytes_have_one_name(d: Visit, below: Vec<Visit>, r: u64)
    requires
        d.is_dir,
        call_ensures(unique_bytes, (&Some(d), &below), r),
    ensures
        r == freed_bytes(below@, Some(d.dev), 1, below@.len() as int),
{
}

/// In an object store a file that is checked out nowhere else has two names.
pub proof fn law_stored_objects_have_two_names(below: Vec<Visit>, r: u64)
    requires
        call_ensures(unique_ostree_bytes, (&below,), r),
    ensures
        r == freed_bytes(below@, None, 2, below@.len() as int),
{
}

/// The kernel says of a block device whether it turns: a one says that it does.
pub proof fn law_turning_disks_say_one(text: &str, r: bool, none: bool)
    requires
        call_ensures(is_rotational, (Some(text),), r),
        call_ensures(is_rotational, (None::<&str>,), none),
    ensures
        r <==> trim(text@) == "1"@,
        !none,
{
}

/// Where threads are short, half of them are tried, down to one.
pub proof fn law_fewer_threads_are_half(n: usize, r: Option<usize>)
    requires
        call_ensures(fewer_threads, (n,), r),
    ensures
        n <= 1 <==> r is None,
        r matches Some(m) ==> 2 * m <= n < 2 * m + 2 && m >= 1,
{
}

/// A block device is found under the two numbers that its device number is made
/// of.
pub proof fn law_devices_are_found_by_their_numbers(major: u64, minor: u64, dev: u64, r: String)
    requires
        major < 4096,
        minor < 256,
        dev == major * 256 + minor,
        call_ensures(block_device_dir, (dev,), r),
    ensures
        r@ == "/sys/dev/block/"@ + digits(major as nat) + ":"@ + digits(minor as nat),
{
    assert(((dev >> 8u64) & 0xfff) | ((dev >> 32u64) & !0xfffu64) == major && (dev & 0xff) | ((dev >> 12u64) & !0xffu64) == minor) by (bit_vector)
        requires
            major < 4096,
            minor < 256,
            dev == major * 256 + minor,
    ;
}

} // verus!
