//! Sorting by an order on positions.

use vstd::prelude::*;

verus! {

/// A strict total order on the positions `0..size`.
pub trait Ranking: Sized {
    spec fn size(&self) -> nat;

    /// Does position `i` come before position `j`?
    spec fn before(&self, i: int, j: int) -> bool;

    proof fn irreflexive(&self, i: int)
        ensures
            !self.before(i, i),
    ;

    proof fn transitive(&self, i: int, j: int, k: int)
        requires
            self.before(i, j),
            self.before(j, k),
        ensures
            self.before(i, k),
    ;

    proof fn total(&self, i: int, j: int)
        requires
            0 <= i < self.size(),
            0 <= j < self.size(),
            i != j,
        ensures
            self.before(i, j) || self.before(j, i),
    ;

    fn precedes(&self, i: usize, j: usize) -> (r: bool)
        requires
            i < self.size(),
            j < self.size(),
        ensures
            r == self.before(i as int, j as int),
    ;
}

/// `o` lists ascending positions of `r`.
pub open spec fn ascending<R: Ranking>(r: &R, o: Seq<usize>) -> bool {
    forall|i: int, j: int| 0 <= i < j < o.len() ==> r.before(#[trigger] o[i] as int, #[trigger] o[j] as int)
}

/// `o` lists every position of `r` once, in order.
pub open spec fn is_order<R: Ranking>(r: &R, o: Seq<usize>) -> bool {
    &&& o.len() == r.size()
    &&& ascending(r, o)
    &&& forall|i: int| 0 <= i < o.len() ==> (#[trigger] o[i]) < r.size()
    &&& forall|k: usize| k < r.size() ==> #[trigger] o.contains(k)
}

/// `o` lists exactly the positions `lo..hi`.
spec fn covers(o: Seq<usize>, lo: int, hi: int) -> bool {
    &&& o.len() == hi - lo
    &&& forall|i: int| 0 <= i < o.len() ==> lo <= #[trigger] o[i] < hi
    &&& forall|k: usize| lo <= k < hi ==> #[trigger] o.contains(k)
}

fn merge<R: Ranking>(r: &R, a: &Vec<usize>, b: &Vec<usize>, Ghost(lo): Ghost<int>, Ghost(mid): Ghost<int>, Ghost(hi): Ghost<int>) -> (out: Vec<usize>)
    requires
        0 <= lo <= mid <= hi <= r.size(),
        covers(a@, lo, mid),
        covers(b@, mid, hi),
        ascending(r, a@),
        ascending(r, b@),
    ensures
        covers(out@, lo, hi),
        ascending(r, out@),
{
    let mut out: Vec<usize> = Vec::new();
    let mut i: usize = 0;
    let mut j: usize = 0;
    while i < a.len() || j < b.len()
        invariant
            0 <= lo <= mid <= hi <= r.size(),
            covers(a@, lo, mid),
            covers(b@, mid, hi),
            ascending(r, a@),
            ascending(r, b@),
            i <= a@.len(),
            j <= b@.len(),
            out@.len() == i + j,
            ascending(r, out@),
            forall|x: int| 0 <= x < out@.len() ==> lo <= #[trigger] out@[x] < hi,
            forall|x: int, y: int| 0 <= x < out@.len() && i <= y < a@.len() ==> r.before(#[trigger] out@[x] as int, #[trigger] a@[y] as int),
            forall|x: int, y: int| 0 <= x < out@.len() && j <= y < b@.len() ==> r.before(#[trigger] out@[x] as int, #[trigger] b@[y] as int),
            forall|x: int| 0 <= x < i ==> out@.contains(#[trigger] a@[x]),
            forall|x: int| 0 <= x < j ==> out@.contains(#[trigger] b@[x]),
        decreases a@.len() - i + b@.len() - j,
    {
        let from_a = if i >= a.len() {
            false
        } else if j >= b.len() {
            true
        } else {
            r.precedes(a[i], b[j])
        };
        let ghost before = out@;
        let next = if from_a { a[i] } else { b[j] };
        proof {
            if i < a@.len() && j < b@.len() && !from_a {
                r.total(a@[i as int] as int, b@[j as int] as int);
            }
            assert forall|y: int| i <= y < a@.len() && !(from_a && y == i) implies r.before(next as int, #[trigger] a@[y] as int) by {
                if from_a {
                    assert(r.before(a@[i as int] as int, a@[y] as int));
                } else {
                    assert(r.before(next as int, a@[i as int] as int));
                    if y > i {
                        assert(r.before(a@[i as int] as int, a@[y] as int));
                        r.transitive(next as int, a@[i as int] as int, a@[y] as int);
                    }
                }
            }
            assert forall|y: int| j <= y < b@.len() && (from_a || y != j) implies r.before(next as int, #[trigger] b@[y] as int) by {
                if !from_a {
                    assert(r.before(b@[j as int] as int, b@[y] as int));
                } else {
                    assert(r.before(next as int, b@[j as int] as int));
                    if y > j {
                        assert(r.before(b@[j as int] as int, b@[y] as int));
                        r.transitive(next as int, b@[j as int] as int, b@[y] as int);
                    }
                }
            }
        }
        out.push(next);
        proof {
            assert(forall|x: int| 0 <= x < before.len() ==> #[trigger] out@[x] == before[x]);
            assert(out@[before.len() as int] == next);
            assert forall|k: usize| before.contains(k) implies out@.contains(k) by {
                let w = choose|w: int| 0 <= w < before.len() && before[w] == k;
                assert(out@[w] == k);
            }
            assert(out@.contains(next));
        }
        if from_a {
            i += 1;
        } else {
            j += 1;
        }
    }
    proof {
        assert forall|k: usize| lo <= k < hi implies #[trigger] out@.contains(k) by {
            if k < mid {
                assert(a@.contains(k));
                let w = choose|w: int| 0 <= w < a@.len() && a@[w] == k;
                assert(out@.contains(a@[w]));
            } else {
                assert(b@.contains(k));
                let w = choose|w: int| 0 <= w < b@.len() && b@[w] == k;
                assert(out@.contains(b@[w]));
            }
        }
    }
    out
}

fn sort_range<R: Ranking>(r: &R, lo: usize, hi: usize) -> (out: Vec<usize>)
    requires
        lo <= hi <= r.size(),
    ensures
        covers(out@, lo as int, hi as int),
        ascending(r, out@),
    decreases hi - lo,
{
    if hi - lo <= 1 {
        let mut out: Vec<usize> = Vec::new();
        if lo < hi {
            out.push(lo);
            assert(out@[0] == lo);
        }
        return out;
    }
    let mid: usize = lo + (hi - lo) / 2;
    let a = sort_range(r, lo, mid);
    let b = sort_range(r, mid, hi);
    merge(r, &a, &b, Ghost(lo as int), Ghost(mid as int), Ghost(hi as int))
}

/// All positions of `r` in order.
pub fn sorted<R: Ranking>(r: &R, n: usize) -> (out: Vec<usize>)
    requires
        n == r.size(),
    ensures
        is_order(r, out@),
{
    sort_range(r, 0, n)
}

/// A position occurs once in an order.
pub proof fn lemma_order_injective<R: Ranking>(r: &R, o: Seq<usize>, i: int, j: int)
    requires
        ascending(r, o),
        0 <= i < o.len(),
        0 <= j < o.len(),
        o[i] == o[j],
    ensures
        i == j,
{
    r.irreflexive(o[i] as int);
    if i < j {
        assert(r.before(o[i] as int, o[j] as int));
    } else if j < i {
        assert(r.before(o[j] as int, o[i] as int));
    }
}

/// There is one order only.
pub proof fn law_order_is_unique<R: Ranking>(r: &R, a: Seq<usize>, b: Seq<usize>)
    requires
        is_order(r, a),
        is_order(r, b),
    ensures
        a == b,
{
    lemma_same_prefix(r, a, b, a.len() as int);
    assert(a.take(a.len() as int) =~= a);
    assert(b.take(a.len() as int) =~= b);
}

proof fn lemma_same_prefix<R: Ranking>(r: &R, a: Seq<usize>, b: Seq<usize>, n: int)
    requires
        is_order(r, a),
        is_order(r, b),
        0 <= n <= a.len(),
    ensures
        a.take(n) == b.take(n),
    decreases n,
{
    if n > 0 {
        lemma_same_prefix(r, a, b, n - 1);
        let k = n - 1;
        assert(forall|i: int| 0 <= i < k ==> a.take(k)[i] == b.take(k)[i]);
        assert(forall|i: int| 0 <= i < k ==> #[trigger] a[i] == a.take(k)[i]);
        assert(forall|i: int| 0 <= i < k ==> #[trigger] b[i] == b.take(k)[i]);
        if a[k] != b[k] {
            assert(b.contains(a[k]));
            let x = choose|x: int| 0 <= x < b.len() && b[x] == a[k];
            if x < k {
                assert(a[x] == b[x]);
                lemma_order_injective(r, a, x, k);
            }
            assert(x > k);
            assert(r.before(b[k] as int, a[k] as int));
            assert(a.contains(b[k]));
            let y = choose|y: int| 0 <= y < a.len() && a[y] == b[k];
            if y < k {
                assert(a[y] == b[y]);
                lemma_order_injective(r, b, y, k);
            }
            assert(y > k);
            assert(r.before(a[k] as int, b[k] as int));
            r.transitive(a[k] as int, b[k] as int, a[k] as int);
            r.irreflexive(a[k] as int);
        }
        assert(a.take(n) =~= a.take(k).push(a[k]));
        assert(b.take(n) =~= b.take(k).push(b[k]));
    }
}

/// `lt` orders every two different values one way.
pub open spec fn strict_total<T>(lt: spec_fn(T, T) -> bool) -> bool {
    &&& forall|x: T| !#[trigger] lt(x, x)
    &&& forall|x: T, y: T, z: T| #[trigger] lt(x, y) && #[trigger] lt(y, z) ==> lt(x, z)
    &&& forall|x: T, y: T| x != y ==> #[trigger] lt(x, y) || lt(y, x)
}

/// Lexicographic order: by the first place where two sequences differ; a
/// prefix comes first.
pub open spec fn lex<T>(a: Seq<T>, b: Seq<T>, lt: spec_fn(T, T) -> bool) -> bool
    decreases a.len(),
{
    if b.len() == 0 {
        false
    } else if a.len() == 0 {
        true
    } else if a[0] == b[0] {
        lex(a.skip(1), b.skip(1), lt)
    } else {
        lt(a[0], b[0])
    }
}

pub proof fn lemma_lex_irreflexive<T>(a: Seq<T>, lt: spec_fn(T, T) -> bool)
    ensures
        !lex(a, a, lt),
    decreases a.len(),
{
    if a.len() > 0 {
        lemma_lex_irreflexive(a.skip(1), lt);
    }
}

pub proof fn lemma_lex_transitive<T>(a: Seq<T>, b: Seq<T>, c: Seq<T>, lt: spec_fn(T, T) -> bool)
    requires
        strict_total(lt),
        lex(a, b, lt),
        lex(b, c, lt),
    ensures
        lex(a, c, lt),
    decreases a.len(),
{
    if a.len() > 0 {
        if a[0] == b[0] && b[0] == c[0] {
            lemma_lex_transitive(a.skip(1), b.skip(1), c.skip(1), lt);
        } else if a[0] != b[0] && b[0] != c[0] {
            assert(lt(a[0], b[0]) && lt(b[0], c[0]));
            assert(lt(a[0], c[0]));
            if a[0] == c[0] {
                assert(!lt(a[0], a[0]));
            }
        }
    }
}

pub proof fn lemma_lex_total<T>(a: Seq<T>, b: Seq<T>, lt: spec_fn(T, T) -> bool)
    requires
        strict_total(lt),
        a != b,
    ensures
        lex(a, b, lt) || lex(b, a, lt),
    decreases a.len(),
{
    if a.len() > 0 && b.len() > 0 {
        if a[0] == b[0] {
            if a.skip(1) == b.skip(1) {
                assert(a =~= seq![a[0]] + a.skip(1));
                assert(b =~= seq![b[0]] + b.skip(1));
            }
            lemma_lex_total(a.skip(1), b.skip(1), lt);
        } else {
            assert(lt(a[0], b[0]) || lt(b[0], a[0]));
        }
    } else if a.len() == 0 && b.len() == 0 {
        assert(a =~= b);
    }
}

/// The order of characters by code point.
pub open spec fn char_lt() -> spec_fn(char, char) -> bool {
    |x: char, y: char| (x as int) < (y as int)
}

/// The order of byte values.
pub open spec fn byte_lt() -> spec_fn(u8, u8) -> bool {
    |x: u8, y: u8| x < y
}

pub proof fn lemma_char_lt()
    ensures
        strict_total(char_lt()),
{
    let lt = char_lt();
    assert forall|x: char, y: char| x != y implies #[trigger] lt(x, y) || lt(y, x) by {
        assert(x as int != y as int);
    }
}

pub proof fn lemma_byte_lt()
    ensures
        strict_total(byte_lt()),
{
}

/// Does text `a` come before text `b`?
pub open spec fn text_before(a: Seq<char>, b: Seq<char>) -> bool {
    lex(a, b, char_lt())
}

pub fn text_precedes(a: &Vec<char>, b: &Vec<char>) -> (r: bool)
    ensures
        r == text_before(a@, b@),
{
    let mut i: usize = 0;
    assert(a@.skip(0) =~= a@ && b@.skip(0) =~= b@);
    loop
        invariant
            i <= a@.len(),
            i <= b@.len(),
            text_before(a@, b@) == text_before(a@.skip(i as int), b@.skip(i as int)),
        decreases a@.len() - i,
    {
        if i >= b.len() {
            return false;
        }
        if i >= a.len() {
            return true;
        }
        let (x, y): (char, char) = (a[i], b[i]);
        if x != y {
            return x < y;
        }
        assert(a@.skip(i as int).skip(1) =~= a@.skip(i + 1));
        assert(b@.skip(i as int).skip(1) =~= b@.skip(i + 1));
        i += 1;
    }
}

pub fn bytes_precede(a: &Vec<u8>, b: &Vec<u8>) -> (r: bool)
    ensures
        r == lex(a@, b@, byte_lt()),
{
    let mut i: usize = 0;
    assert(a@.skip(0) =~= a@ && b@.skip(0) =~= b@);
    loop
        invariant
            i <= a@.len(),
            i <= b@.len(),
            lex(a@, b@, byte_lt()) == lex(a@.skip(i as int), b@.skip(i as int), byte_lt()),
        decreases a@.len() - i,
    {
        if i >= b.len() {
            return false;
        }
        if i >= a.len() {
            return true;
        }
        if a[i] != b[i] {
            return a[i] < b[i];
        }
        assert(a@.skip(i as int).skip(1) =~= a@.skip(i + 1));
        assert(b@.skip(i as int).skip(1) =~= b@.skip(i + 1));
        i += 1;
    }
}

/// The sum of a list of numbers.
pub open spec fn total_of(s: Seq<nat>) -> nat
    decreases s.len(),
{
    if s.len() == 0 {
        0
    } else {
        total_of(s.drop_last()) + s.last()
    }
}

pub proof fn lemma_total_remove(s: Seq<nat>, k: int)
    requires
        0 <= k < s.len(),
    ensures
        total_of(s.remove(k)) + s[k] == total_of(s),
    decreases s.len(),
{
    if k < s.len() - 1 {
        lemma_total_remove(s.drop_last(), k);
        assert(s.remove(k).drop_last() =~= s.drop_last().remove(k));
    } else {
        assert(s.remove(k) =~= s.drop_last());
    }
}

pub proof fn lemma_total_concat(a: Seq<nat>, b: Seq<nat>)
    ensures
        total_of(a + b) == total_of(a) + total_of(b),
    decreases b.len(),
{
    if b.len() == 0 {
        assert(a + b =~= a);
    } else {
        lemma_total_concat(a, b.drop_last());
        assert((a + b).drop_last() =~= a + b.drop_last());
    }
}

/// `o` lists each of `0..n` once.
pub open spec fn rearranges(o: Seq<usize>, n: int) -> bool {
    &&& o.len() == n
    &&& o.no_duplicates()
    &&& forall|i: int| 0 <= i < o.len() ==> (#[trigger] o[i]) < n
    &&& forall|k: usize| k < n ==> #[trigger] o.contains(k)
}

/// Where a rearrangement has the last position; without it, it rearranges the
/// others.
pub proof fn lemma_last_place(o: Seq<usize>, n: int) -> (w: int)
    requires
        rearranges(o, n),
        n > 0,
    ensures
        n - 1 <= usize::MAX,
        0 <= w < o.len(),
        o[w] == n - 1,
        rearranges(o.remove(w), n - 1),
{
    let last = n - 1;
    assert(last <= usize::MAX) by {
        if last > usize::MAX {
            lemma_pigeon(o, usize::MAX as int + 1);
        }
    }
    assert(o.contains(last as usize));
    let w = choose|w: int| 0 <= w < o.len() && o[w] == last as usize;
    let p = o.remove(w);
    assert forall|i: int| 0 <= i < p.len() implies (#[trigger] p[i]) < last by {
        let j = if i < w { i } else { i + 1 };
        assert(p[i] == o[j]);
        assert(o[j] < n);
        assert(o[j] != o[w]);
    }
    assert forall|k: usize| k < last implies #[trigger] p.contains(k) by {
        assert(o.contains(k));
        let j = choose|j: int| 0 <= j < o.len() && o[j] == k;
        assert(j != w);
        let i = if j < w { j } else { j - 1 };
        assert(p[i] == k);
    }
    assert(p.no_duplicates()) by {
        assert forall|i: int, j: int| 0 <= i < p.len() && 0 <= j < p.len() && i != j implies p[i] != p[j] by {
            let a = if i < w { i } else { i + 1 };
            let b = if j < w { j } else { j + 1 };
            assert(p[i] == o[a] && p[j] == o[b]);
        }
    }
    w
}

/// Rearranging numbers keeps their sum.
pub proof fn lemma_total_rearranged(s: Seq<nat>, o: Seq<usize>)
    requires
        rearranges(o, s.len() as int),
    ensures
        total_of(Seq::new(o.len(), |i: int| s[o[i] as int])) == total_of(s),
    decreases s.len(),
{
    let t = Seq::new(o.len(), |i: int| s[o[i] as int]);
    if s.len() > 0 {
        let w = lemma_last_place(o, s.len() as int);
        let p = o.remove(w);
        lemma_total_rearranged(s.drop_last(), p);
        let u = Seq::new(p.len(), |i: int| s.drop_last()[p[i] as int]);
        assert forall|i: int| 0 <= i < u.len() implies #[trigger] t.remove(w)[i] == u[i] by {
            assert(p[i] < s.len() - 1);
        }
        assert(t.remove(w) =~= u);
        lemma_total_remove(t, w);
    } else {
        assert(t =~= s);
    }
}

/// No list of distinct positions below `m` is longer than `m`.
pub proof fn lemma_pigeon(o: Seq<usize>, m: int)
    requires
        o.no_duplicates(),
        forall|i: int| 0 <= i < o.len() ==> (#[trigger] o[i]) < m,
        m >= 0,
    ensures
        o.len() <= m,
    decreases m,
{
    if o.len() > 0 {
        assert(o[0] < m);
        if o.contains((m - 1) as usize) {
            let w = choose|w: int| 0 <= w < o.len() && o[w] == (m - 1) as usize;
            let p = o.remove(w);
            assert forall|i: int| 0 <= i < p.len() implies (#[trigger] p[i]) < m - 1 by {
                let j = if i < w { i } else { i + 1 };
                assert(p[i] == o[j]);
                assert(o[j] < m);
                assert(o[j] != o[w]);
            }
            assert forall|i: int, j: int| 0 <= i < p.len() && 0 <= j < p.len() && i != j implies p[i] != p[j] by {
                let a = if i < w { i } else { i + 1 };
                let b = if j < w { j } else { j + 1 };
                assert(p[i] == o[a] && p[j] == o[b]);
            }
            lemma_pigeon(p, m - 1);
        } else {
            assert forall|i: int| 0 <= i < o.len() implies (#[trigger] o[i]) < m - 1 by {
                assert(o[i] < m);
                assert(o.contains(o[i]));
            }
            lemma_pigeon(o, m - 1);
        }
    }
}

/// An order lists each position once.
pub proof fn lemma_order_rearranges<R: Ranking>(r: &R, o: Seq<usize>)
    requires
        is_order(r, o),
    ensures
        rearranges(o, r.size() as int),
{
    assert forall|i: int, j: int| 0 <= i < o.len() && 0 <= j < o.len() && i != j implies o[i] != o[j] by {
        if o[i] == o[j] {
            lemma_order_injective(r, o, i, j);
        }
    }
}

/// Position `i` comes before `j`: by its key, then as listed.
pub open spec fn keyed_before(keys: Seq<i128>, i: int, j: int) -> bool {
    keys[i] < keys[j] || (keys[i] == keys[j] && i < j)
}

/// `o` lists all positions by their keys, equal keys as they were listed.
pub open spec fn stable_order(keys: Seq<i128>, o: Seq<usize>) -> bool {
    &&& rearranges(o, keys.len() as int)
    &&& forall|i: int, j: int| 0 <= i < j < o.len() ==> keyed_before(keys, #[trigger] o[i] as int, #[trigger] o[j] as int)
}

/// All positions by their keys.
pub open spec fn ranked(keys: Seq<i128>) -> Seq<usize> {
    choose|o: Seq<usize>| stable_order(keys, o)
}

proof fn lemma_stable_prefix(keys: Seq<i128>, a: Seq<usize>, b: Seq<usize>, n: int)
    requires
        stable_order(keys, a),
        stable_order(keys, b),
        0 <= n <= keys.len(),
    ensures
        a.take(n) == b.take(n),
    decreases n,
{
    if n > 0 {
        let k = n - 1;
        lemma_stable_prefix(keys, a, b, k);
        assert(forall|i: int| 0 <= i < k ==> #[trigger] a[i] == a.take(k)[i]);
        assert(forall|i: int| 0 <= i < k ==> #[trigger] b[i] == b.take(k)[i]);
        if a[k] != b[k] {
            assert(b.contains(a[k]));
            let x = choose|x: int| 0 <= x < b.len() && b[x] == a[k];
            if x < k {
                assert(a[x] == b[x]);
            }
            assert(keyed_before(keys, b[k] as int, b[x] as int));
            assert(a.contains(b[k]));
            let y = choose|y: int| 0 <= y < a.len() && a[y] == b[k];
            if y < k {
                assert(a[y] == b[y]);
            }
            assert(keyed_before(keys, a[k] as int, a[y] as int));
        }
        assert(a.take(n) =~= a.take(k).push(a[k]));
        assert(b.take(n) =~= b.take(k).push(b[k]));
    }
}

/// A stable sort has one result only.
pub proof fn law_stable_order_is_unique(keys: Seq<i128>, o: Seq<usize>)
    requires
        stable_order(keys, o),
    ensures
        ranked(keys) == o,
{
    lemma_stable_prefix(keys, ranked(keys), o, keys.len() as int);
    assert(ranked(keys).take(keys.len() as int) =~= ranked(keys));
    assert(o.take(keys.len() as int) =~= o);
}

/// Where `x` belongs in the ascending positions `p`, looking from place `k` on.
proof fn lemma_place(before: spec_fn(int, int) -> bool, p: Seq<usize>, x: int, k: int) -> (w: int)
    requires
        0 <= k <= p.len(),
        forall|i: int| 0 <= i < k ==> before(#[trigger] p[i] as int, x),
        forall|i: int| 0 <= i < p.len() ==> before(#[trigger] p[i] as int, x) || before(x, p[i] as int),
        forall|i: int, j: int| 0 <= i < j < p.len() ==> before(#[trigger] p[i] as int, #[trigger] p[j] as int),
        forall|a: int, b: int, c: int| #[trigger] before(a, b) && #[trigger] before(b, c) ==> before(a, c),
    ensures
        k <= w <= p.len(),
        forall|i: int| 0 <= i < w ==> before(#[trigger] p[i] as int, x),
        forall|i: int| w <= i < p.len() ==> before(x, #[trigger] p[i] as int),
    decreases p.len() - k,
{
    if k == p.len() {
        k
    } else if before(x, p[k] as int) {
        assert forall|i: int| k <= i < p.len() implies before(x, #[trigger] p[i] as int) by {
            if i > k {
                assert(before(p[k] as int, p[i] as int));
            }
        }
        k
    } else {
        lemma_place(before, p, x, k + 1)
    }
}

/// Positions under a total order can be listed in that order.
pub proof fn lemma_order_exists(before: spec_fn(int, int) -> bool, n: nat) -> (o: Seq<usize>)
    requires
        n <= usize::MAX,
        forall|a: int, b: int, c: int| #[trigger] before(a, b) && #[trigger] before(b, c) ==> before(a, c),
        forall|a: int, b: int| a != b ==> #[trigger] before(a, b) || before(b, a),
    ensures
        rearranges(o, n as int),
        forall|i: int, j: int| 0 <= i < j < o.len() ==> before(#[trigger] o[i] as int, #[trigger] o[j] as int),
    decreases n,
{
    if n == 0 {
        Seq::empty()
    } else {
        let x = (n - 1) as usize;
        let p = lemma_order_exists(before, (n - 1) as nat);
        assert forall|i: int| 0 <= i < p.len() implies before(#[trigger] p[i] as int, x as int) || before(x as int, p[i] as int) by {
            assert(p[i] < x);
        }
        let w = lemma_place(before, p, x as int, 0);
        let o = p.insert(w, x);
        assert forall|i: int| 0 <= i < o.len() implies (#[trigger] o[i]) < n by {
            if i != w {
                assert(o[i] == p[if i < w { i } else { i - 1 }]);
            }
        }
        assert forall|k: usize| k < n implies #[trigger] o.contains(k) by {
            if k == x {
                assert(o[w] == k);
            } else {
                assert(p.contains(k));
                let j = choose|j: int| 0 <= j < p.len() && p[j] == k;
                assert(o[if j < w { j } else { j + 1 }] == k);
            }
        }
        assert forall|i: int, j: int| 0 <= i < j < o.len() implies before(#[trigger] o[i] as int, #[trigger] o[j] as int) && o[i] != o[j] by {
            let (a, b) = (if i < w { i } else { i - 1 }, if j < w { j } else { j - 1 });
            if i == w {
                assert(o[j] == p[b] && p[b] < x);
            } else if j == w {
                assert(o[i] == p[a] && p[a] < x);
            } else {
                assert(o[i] == p[a] && o[j] == p[b]);
            }
        }
        assert(o.no_duplicates());
        o
    }
}

/// There is an order of every list of keys, and `ranked` is it.
pub proof fn lemma_ranked(keys: Seq<i128>)
    requires
        keys.len() <= usize::MAX,
    ensures
        stable_order(keys, ranked(keys)),
{
    let before = |i: int, j: int| keyed_before(keys, i, j);
    let o = lemma_order_exists(before, keys.len());
    assert forall|i: int, j: int| 0 <= i < j < o.len() implies keyed_before(keys, #[trigger] o[i] as int, #[trigger] o[j] as int) by {
        assert(before(o[i] as int, o[j] as int));
    }
    assert(stable_order(keys, o));
    law_stable_order_is_unique(keys, o);
}

struct ByKey<'a> {
    keys: &'a Vec<i128>,
}

impl<'a> Ranking for ByKey<'a> {
    closed spec fn size(&self) -> nat {
        self.keys@.len()
    }

    closed spec fn before(&self, i: int, j: int) -> bool {
        keyed_before(self.keys@, i, j)
    }

    proof fn irreflexive(&self, i: int) {
    }

    proof fn transitive(&self, i: int, j: int, k: int) {
    }

    proof fn total(&self, i: int, j: int) {
    }

    fn precedes(&self, i: usize, j: usize) -> (r: bool) {
        self.keys[i] < self.keys[j] || (self.keys[i] == self.keys[j] && i < j)
    }
}

/// Sort positions by their keys; equal keys stay as they were listed.
pub fn rank(keys: &Vec<i128>) -> (o: Vec<usize>)
    ensures
        stable_order(keys@, o@),
        o@ == ranked(keys@),
{
    let ranking = ByKey { keys };
    let o = sorted(&ranking, keys.len());
    proof {
        lemma_order_rearranges(&ranking, o@);
        assert(stable_order(keys@, o@));
        law_stable_order_is_unique(keys@, o@);
    }
    o
}

/// Position `i` of `v` comes before `j`: by what stands there, then as listed.
pub open spec fn placed_before<T>(v: Seq<T>, lt: spec_fn(T, T) -> bool, i: int, j: int) -> bool {
    lt(v[i], v[j]) || (v[i] == v[j] && i < j)
}

/// `o` lists all positions of `v` in order.
pub open spec fn sorts<T>(v: Seq<T>, lt: spec_fn(T, T) -> bool, o: Seq<usize>) -> bool {
    &&& rearranges(o, v.len() as int)
    &&& forall|i: int, j: int| 0 <= i < j < o.len() ==> placed_before(v, lt, #[trigger] o[i] as int, #[trigger] o[j] as int)
}

/// All positions of `v` in order.
pub open spec fn sorting<T>(v: Seq<T>, lt: spec_fn(T, T) -> bool) -> Seq<usize> {
    choose|o: Seq<usize>| sorts(v, lt, o)
}

proof fn lemma_sorts_prefix<T>(v: Seq<T>, lt: spec_fn(T, T) -> bool, a: Seq<usize>, b: Seq<usize>, n: int)
    requires
        strict_total(lt),
        sorts(v, lt, a),
        sorts(v, lt, b),
        0 <= n <= v.len(),
    ensures
        a.take(n) == b.take(n),
    decreases n,
{
    if n > 0 {
        let k = n - 1;
        lemma_sorts_prefix(v, lt, a, b, k);
        assert(forall|i: int| 0 <= i < k ==> #[trigger] a[i] == a.take(k)[i]);
        assert(forall|i: int| 0 <= i < k ==> #[trigger] b[i] == b.take(k)[i]);
        if a[k] != b[k] {
            assert(b.contains(a[k]));
            let x = choose|x: int| 0 <= x < b.len() && b[x] == a[k];
            if x < k {
                assert(a[x] == b[x]);
            }
            assert(placed_before(v, lt, b[k] as int, b[x] as int));
            assert(a.contains(b[k]));
            let y = choose|y: int| 0 <= y < a.len() && a[y] == b[k];
            if y < k {
                assert(a[y] == b[y]);
            }
            assert(placed_before(v, lt, a[k] as int, a[y] as int));
            let (p, q) = (v[a[k] as int], v[b[k] as int]);
            assert(!lt(p, p) && !lt(q, q));
            if lt(p, q) && lt(q, p) {
                assert(lt(p, p));
            }
        }
        assert(a.take(n) =~= a.take(k).push(a[k]));
        assert(b.take(n) =~= b.take(k).push(b[k]));
    }
}

/// Sorting by a total order has one result only.
pub proof fn law_sorting_is_unique<T>(v: Seq<T>, lt: spec_fn(T, T) -> bool, o: Seq<usize>)
    requires
        strict_total(lt),
        sorts(v, lt, o),
    ensures
        sorting(v, lt) == o,
{
    lemma_sorts_prefix(v, lt, sorting(v, lt), o, v.len() as int);
    assert(sorting(v, lt).take(v.len() as int) =~= sorting(v, lt));
    assert(o.take(v.len() as int) =~= o);
}

/// `list` in the order `o`.
pub open spec fn arranged<T>(list: Seq<T>, o: Seq<usize>) -> Seq<T> {
    Seq::new(o.len(), |i: int| list[o[i] as int])
}

/// Rearranging brings nothing in.
pub proof fn lemma_arranged_among<T>(list: Seq<T>, o: Seq<usize>, x: T)
    requires
        rearranges(o, list.len() as int),
        arranged(list, o).contains(x),
    ensures
        list.contains(x),
{
    let w = choose|w: int| 0 <= w < arranged(list, o).len() && arranged(list, o)[w] == x;
    assert(o[w] < list.len());
    assert(list[o[w] as int] == x);
}

/// Rearranging leaves nothing out and brings nothing in.
pub proof fn law_rearranging_keeps_everything<T>(list: Seq<T>, o: Seq<usize>, x: T)
    requires
        list.len() <= usize::MAX,
        rearranges(o, list.len() as int),
    ensures
        arranged(list, o).contains(x) <==> list.contains(x),
        arranged(list, o).len() == list.len(),
{
    if arranged(list, o).contains(x) {
        lemma_arranged_among(list, o, x);
    }
    if list.contains(x) {
        let k = choose|k: int| 0 <= k < list.len() && list[k] == x;
        assert(o.contains(k as usize));
        let w = choose|w: int| 0 <= w < o.len() && o[w] == k as usize;
        assert(arranged(list, o)[w] == x);
    }
}

} // verus!
