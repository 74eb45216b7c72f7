//! What the printed report is made of.

use vstd::prelude::*;
use vstd::utf8::encode_utf8;

use crate::order::{arranged, law_rearranging_keeps_everything, lemma_ranked, rank, ranked, rearranges};
use crate::path::bytes_of;
use crate::rules::kernels::lemma_push_contains;
use crate::scanner::{depth_at, Node, NodeKind, Tree};
use crate::text::{chars_of, slice, string_of};

verus! {

/// The directories up to `depth` below the root, among the first `k` nodes.
pub open spec fn shallow_dirs(nodes: Seq<Node>, depth: int, k: int) -> Seq<usize>
    decreases k,
{
    if k <= 1 {
        Seq::empty()
    } else {
        let rest = shallow_dirs(nodes, depth, k - 1);
        if nodes[k - 1].kind == NodeKind::Dir && depth_at(nodes, k - 1) <= depth {
            rest.push((k - 1) as usize)
        } else {
            rest
        }
    }
}

/// The keys by which nodes are listed, largest first.
pub open spec fn size_keys(nodes: Seq<Node>, list: Seq<usize>) -> Seq<i128> {
    Seq::new(list.len(), |i: int| (0 - nodes[list[i] as int].size) as i128)
}

/// Nodes, largest first; of the same size, as they were listed.
pub open spec fn by_size(nodes: Seq<Node>, list: Seq<usize>) -> Seq<usize> {
    arranged(list, ranked(size_keys(nodes, list)))
}

/// The first `n` of a list.
pub open spec fn first_of(list: Seq<usize>, n: int) -> Seq<usize> {
    if n < list.len() {
        list.take(n)
    } else {
        list
    }
}

/// Sort nodes largest first.
pub(crate) fn sort_by_size(t: &Tree, list: &Vec<usize>) -> (r: Vec<usize>)
    requires
        forall|i: int| 0 <= i < list@.len() ==> (#[trigger] list@[i]) < t.nodes@.len(),
    ensures
        r@ == by_size(t.nodes@, list@),
        r@.len() == list@.len(),
{
    let mut keys: Vec<i128> = Vec::new();
    for i in 0..list.len()
        invariant
            forall|i: int| 0 <= i < list@.len() ==> (#[trigger] list@[i]) < t.nodes@.len(),
            keys@ == size_keys(t.nodes@, list@).take(i as int),
    {
        let key: i128 = 0 - t.nodes[list[i]].size as i128;
        keys.push(key);
        assert(keys@ =~= size_keys(t.nodes@, list@).take(i + 1));
    }
    assert(keys@ =~= size_keys(t.nodes@, list@));
    let o = rank(&keys);
    let mut out: Vec<usize> = Vec::new();
    for k in 0..o.len()
        invariant
            rearranges(o@, list@.len() as int),
            out@ == arranged(list@, o@).take(k as int),
    {
        out.push(list[o[k]]);
        assert(out@ =~= arranged(list@, o@).take(k + 1));
    }
    assert(out@ =~= arranged(list@, o@));
    out
}

/// Largest directories up to `max_depth` below the root.
pub fn largest_dirs(t: &Tree, n: usize, max_depth: usize) -> (r: Vec<usize>)
    requires
        t.wf(),
    ensures
        r@ == first_of(by_size(t.nodes@, shallow_dirs(t.nodes@, max_depth as int, t.nodes@.len() as int)), n as int),
{
    let count: usize = t.nodes.len();
    let mut all: Vec<usize> = Vec::new();
    for i in 1..count
        invariant
            t.wf(),
            count == t.nodes@.len(),
            count >= 1,
            forall|j: int| 0 <= j < all@.len() ==> (#[trigger] all@[j]) < count,
            all@ == shallow_dirs(t.nodes@, max_depth as int, i as int),
    {
        if t.nodes[i].kind == NodeKind::Dir && t.depth_of(i) <= max_depth {
            all.push(i);
        }
    }
    let mut list = sort_by_size(t, &all);
    if n < list.len() {
        list.truncate(n);
        assert(list@ =~= by_size(t.nodes@, all@).take(n as int));
    }
    list
}

/// The most characters, at most `k`, of `s` that fit in `max` bytes of UTF-8.
pub open spec fn fitting(s: Seq<char>, max: int, k: int) -> int
    decreases k,
{
    if k <= 0 || encode_utf8(s.take(k)).len() <= max {
        k
    } else {
        fitting(s, max, k - 1)
    }
}

proof fn lemma_encoded_len(s: Seq<char>)
    ensures
        encode_utf8(s).len() >= s.len(),
    decreases s.len(),
{
    if s.len() > 0 {
        lemma_encoded_len(s.drop_first());
    }
}

/// More than `max` characters never fit in `max` bytes.
proof fn lemma_fitting(s: Seq<char>, max: int, k: int)
    requires
        0 <= max <= k <= s.len(),
    ensures
        fitting(s, max, k) == fitting(s, max, max),
    decreases k,
{
    if k > max {
        lemma_encoded_len(s.take(k));
        lemma_fitting(s, max, k - 1);
    }
}

/// A text cut to `max` bytes, between two characters, with `tail` behind it; a
/// shorter one as it is.
pub open spec fn cut_text(s: Seq<char>, max: int, tail: Seq<char>) -> Seq<char> {
    if encode_utf8(s).len() > max {
        s.take(fitting(s, max, s.len() as int)) + tail
    } else {
        s
    }
}

/// A command as it is shown: a long one is cut.
pub fn shown_command(cmd: &str, max: usize, tail: &str) -> (r: String)
    ensures
        r@ == cut_text(cmd@, max as int, tail@),
{
    if bytes_of(cmd).len() <= max {
        return cmd.to_owned();
    }
    let v = chars_of(cmd);
    let mut k: usize = v.len();
    if k > max {
        k = max;
        proof {
            lemma_fitting(cmd@, max as int, cmd@.len() as int);
        }
    }
    while k > 0
        invariant_except_break
            v@ == cmd@,
            k <= v@.len(),
            fitting(cmd@, max as int, cmd@.len() as int) == fitting(cmd@, max as int, k as int),
        ensures
            v@ == cmd@,
            k <= v@.len(),
            fitting(cmd@, max as int, cmd@.len() as int) == k,
        decreases k,
    {
        let head = slice(&v, 0, k);
        assert(head@ =~= cmd@.take(k as int));
        if bytes_of(string_of(&head).as_str()).len() <= max {
            break;
        }
        k -= 1;
    }
    let head = slice(&v, 0, k);
    assert(head@ =~= cmd@.take(k as int));
    string_of(&head).concat(tail)
}

/// How much journal to keep: journalctl takes whole MiB; never ask it to vacuum
/// down to 0.
pub fn journal_target(asked: u64) -> (r: u64)
    ensures
        r == (if asked > 1_048_576 {
            asked
        } else {
            1_048_576
        }),
{
    if asked > 1_048_576 {
        asked
    } else {
        1_048_576
    }
}

/// Sorted by size, the nodes are the same ones, the largest first.
pub proof fn law_largest_nodes_come_first(nodes: Seq<Node>, list: Seq<usize>, x: usize, i: int, j: int)
    requires
        list.len() <= usize::MAX,
        0 <= i < j < by_size(nodes, list).len(),
    ensures
        by_size(nodes, list).contains(x) <==> list.contains(x),
        by_size(nodes, list).len() == list.len(),
        nodes[by_size(nodes, list)[i] as int].size >= nodes[by_size(nodes, list)[j] as int].size,
{
    let keys = size_keys(nodes, list);
    lemma_ranked(keys);
    let o = ranked(keys);
    law_rearranging_keeps_everything(list, o, x);
    assert(keys[o[i] as int] <= keys[o[j] as int]);
}

/// The folders of the report: every folder but the root that lies no deeper than
/// asked for.
pub proof fn law_shallow_folders_are_listed(nodes: Seq<Node>, depth: int, k: int, i: usize)
    requires
        0 <= k <= nodes.len() <= usize::MAX,
    ensures
        shallow_dirs(nodes, depth, k).contains(i) <==> 1 <= i < k && nodes[i as int].kind == NodeKind::Dir && depth_at(nodes, i as int) <= depth,
    decreases k,
{
    if k > 1 {
        law_shallow_folders_are_listed(nodes, depth, k - 1, i);
        lemma_push_contains(shallow_dirs(nodes, depth, k - 1), (k - 1) as usize, i);
    }
}

/// The first of a list: as many as asked for, or all of them.
pub proof fn law_the_first_are_taken(list: Seq<usize>, n: int, i: int)
    requires
        0 <= n,
    ensures
        first_of(list, n).len() == (if n < list.len() { n } else { list.len() as int }),
        0 <= i < n && i < list.len() ==> first_of(list, n)[i] == list[i],
{
}

/// A command that fits is shown whole; a longer one is cut to the longest
/// beginning that fits, and the tail says so.
pub proof fn law_long_commands_are_cut(s: Seq<char>, max: int, tail: Seq<char>, k: int)
    requires
        0 <= max,
    ensures
        encode_utf8(s).len() <= max ==> cut_text(s, max, tail) == s,
        encode_utf8(s).len() > max ==> exists|m: int|
            0 <= m <= s.len() && cut_text(s, max, tail) == #[trigger] s.take(m) + tail && (m == 0 || encode_utf8(s.take(m)).len() <= max) && (m
                < k <= s.len() ==> encode_utf8(s.take(k)).len() > max),
{
    if encode_utf8(s).len() > max {
        lemma_longest_fit(s, max, s.len() as int, k);
        let m = fitting(s, max, s.len() as int);
        assert(cut_text(s, max, tail) == s.take(m) + tail);
    }
}

proof fn lemma_longest_fit(s: Seq<char>, max: int, n: int, k: int)
    requires
        0 <= n <= s.len(),
    ensures
        0 <= fitting(s, max, n) <= n,
        fitting(s, max, n) == 0 || encode_utf8(s.take(fitting(s, max, n))).len() <= max,
        fitting(s, max, n) < k <= n ==> encode_utf8(s.take(k)).len() > max,
    decreases n,
{
    if n > 0 && encode_utf8(s.take(n)).len() > max {
        lemma_longest_fit(s, max, n - 1, k);
    }
}

/// The journal is asked to keep what the user says, and at least 1 MiB.
pub proof fn law_the_journal_keeps_a_mebibyte(asked: u64, r: u64)
    requires
        call_ensures(journal_target, (asked,), r),
    ensures
        asked >= 1024 * 1024 ==> r == asked,
        asked < 1024 * 1024 ==> r == 1024 * 1024,
{
}

} // verus!
