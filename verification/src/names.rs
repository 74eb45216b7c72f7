//! Lists of names as sorted sets: by text, or by the numbers in a version.

use vstd::prelude::*;

use crate::order::{
    arranged, char_lt, law_rearranging_keeps_everything, law_sorting_is_unique, lemma_arranged_among, lemma_char_lt, lemma_lex_irreflexive, lemma_lex_total, lemma_lex_transitive,
    lemma_order_exists, lemma_order_rearranges, lex, placed_before, rearranges, sorted, sorting, sorts, strict_total, text_before, text_precedes,
    Ranking,
};
use crate::text::{chars_of, digit, digits, is_digit, lemma_digits, parse_u64, slice, texts, value};

verus! {

/// First index at or after `i` whose character is (or is not) a digit.
pub open spec fn digit_from(s: Seq<char>, want: bool, i: int) -> int
    decreases s.len() - i,
{
    if i >= s.len() {
        s.len() as int
    } else if is_digit(s[i]) == want {
        i
    } else {
        digit_from(s, want, i + 1)
    }
}

proof fn lemma_digit_shift(s: Seq<char>, want: bool, at: int, i: int)
    requires
        0 <= at <= i <= s.len(),
    ensures
        digit_from(s.skip(at), want, i - at) == digit_from(s, want, i) - at,
        i <= digit_from(s, want, i) <= s.len(),
        forall|j: int| i <= j < digit_from(s, want, i) ==> is_digit(#[trigger] s[j]) != want,
        digit_from(s, want, i) < s.len() ==> is_digit(s[digit_from(s, want, i)]) == want,
    decreases s.len() - i,
{
    if i < s.len() && is_digit(s[i]) != want {
        lemma_digit_shift(s, want, at, i + 1);
    }
}

/// The numbers in a version string such as `6.8.0-138-generic`, in order; a
/// number that does not fit in 64 bits is left out.
pub open spec fn version(s: Seq<char>) -> Seq<u64>
    decreases s.len(),
{
    let i = digit_from(s, true, 0);
    let j = digit_from(s, false, i);
    if i < 0 || i >= s.len() || j <= i || j > s.len() {
        Seq::empty()
    } else {
        let rest = version(s.skip(j));
        if value(s.subrange(i, j)) <= u64::MAX {
            seq![value(s.subrange(i, j)) as u64] + rest
        } else {
            rest
        }
    }
}

pub(crate) fn find_digit(v: &Vec<char>, want: bool, from: usize) -> (r: usize)
    requires
        from <= v@.len(),
    ensures
        r == digit_from(v@, want, from as int),
        from <= r <= v@.len(),
{
    let mut i: usize = from;
    while i < v.len()
        invariant
            from <= i <= v@.len(),
            digit_from(v@, want, from as int) == digit_from(v@, want, i as int),
        decreases v@.len() - i,
    {
        if digit(v[i]) == want {
            return i;
        }
        i += 1;
    }
    i
}

/// Numeric sort key for version strings such as `6.8.0-138-generic`.
pub fn version_key(s: &str) -> (r: Vec<u64>)
    ensures
        r@ == version(s@),
{
    let v = chars_of(s);
    let mut out: Vec<u64> = Vec::new();
    let mut at: usize = 0;
    assert(v@.skip(0) =~= v@);
    loop
        invariant
            v@ == s@,
            at <= v@.len(),
            out@ + version(v@.skip(at as int)) == version(v@),
        decreases v@.len() - at,
    {
        let ghost rest = v@.skip(at as int);
        let i = find_digit(&v, true, at);
        proof {
            lemma_digit_shift(v@, true, at as int, at as int);
        }
        if i >= v.len() {
            assert(out@ + Seq::<u64>::empty() =~= out@);
            return out;
        }
        let j = find_digit(&v, false, i);
        proof {
            lemma_digit_shift(v@, false, at as int, i as int);
        }
        let run = slice(&v, i, j);
        proof {
            assert(run@ =~= rest.subrange(i - at, j - at));
            assert(rest.skip(j - at) =~= v@.skip(j as int));
            assert(j > i);
            assert forall|x: int| 0 <= x < run@.len() implies is_digit(#[trigger] run@[x]) by {
                assert(run@[x] == v@[i + x]);
            }
            assert(run@[0] != '+') by {
                assert(is_digit(run@[0]));
            }
        }
        let ghost before = out@;
        match parse_u64(&run) {
            Some(n) => {
                out.push(n);
                assert(out@ + version(v@.skip(j as int)) =~= before + (seq![n] + version(v@.skip(j as int))));
            },
            None => {},
        }
        at = j;
    }
}

/// The order of numbers.
pub open spec fn num_lt() -> spec_fn(u64, u64) -> bool {
    |x: u64, y: u64| x < y
}

pub proof fn lemma_num_lt()
    ensures
        strict_total(num_lt()),
{
}

/// The order of names: by the numbers in them first (if asked for), then by
/// text.
pub open spec fn name_before(by_version: bool, a: Seq<char>, b: Seq<char>) -> bool {
    if by_version && version(a) != version(b) {
        lex(version(a), version(b), num_lt())
    } else {
        text_before(a, b)
    }
}

pub proof fn lemma_name_order(by_version: bool)
    ensures
        strict_total(|a: Seq<char>, b: Seq<char>| name_before(by_version, a, b)),
{
    lemma_char_lt();
    lemma_num_lt();
    let lt = |a: Seq<char>, b: Seq<char>| name_before(by_version, a, b);
    assert forall|x: Seq<char>| !#[trigger] lt(x, x) by {
        lemma_lex_irreflexive(x, char_lt());
    }
    assert forall|x: Seq<char>, y: Seq<char>, z: Seq<char>| #[trigger] lt(x, y) && #[trigger] lt(y, z) implies lt(x, z) by {
        if by_version {
            let (a, b, c) = (version(x), version(y), version(z));
            if a != b && b != c {
                lemma_lex_transitive(a, b, c, num_lt());
                lemma_lex_irreflexive(a, num_lt());
            } else if a == b && b == c {
                lemma_lex_transitive(x, y, z, char_lt());
            }
        } else {
            lemma_lex_transitive(x, y, z, char_lt());
        }
    }
    assert forall|x: Seq<char>, y: Seq<char>| x != y implies #[trigger] lt(x, y) || lt(y, x) by {
        if by_version && version(x) != version(y) {
            lemma_lex_total(version(x), version(y), num_lt());
        } else {
            lemma_lex_total(x, y, char_lt());
        }
    }
}

pub(crate) fn nums_precede(a: &Vec<u64>, b: &Vec<u64>) -> (r: bool)
    ensures
        r == lex(a@, b@, num_lt()),
{
    let mut i: usize = 0;
    assert(a@.skip(0) =~= a@ && b@.skip(0) =~= b@);
    loop
        invariant
            i <= a@.len(),
            i <= b@.len(),
            lex(a@, b@, num_lt()) == lex(a@.skip(i as int), b@.skip(i as int), num_lt()),
        decreases a@.len() - i,
    {
        if i >= b.len() {
            return false;
        }
        if i >= a.len() {
            return true;
        }
        if a[i] != b[i] {
            return a[i] < b[i];
        }
        assert(a@.skip(i as int).skip(1) =~= a@.skip(i + 1));
        assert(b@.skip(i as int).skip(1) =~= b@.skip(i + 1));
        i += 1;
    }
}

/// Does version `a` come before version `b`, by their numbers alone?
pub fn older_version(a: &str, b: &str) -> (r: bool)
    ensures
        r == lex(version(a@), version(b@), num_lt()),
{
    nums_precede(&version_key(a), &version_key(b))
}

/// Does name `a` come before name `b`?
pub fn name_precedes(by_version: bool, a: &str, b: &str) -> (r: bool)
    ensures
        r == name_before(by_version, a@, b@),
{
    if by_version {
        let (x, y) = (version_key(a), version_key(b));
        proof {
            lemma_num_lt();
            lemma_lex_irreflexive(x@, num_lt());
            if x@ != y@ {
                lemma_lex_total(x@, y@, num_lt());
            }
        }
        if nums_precede(&x, &y) {
            return true;
        }
        if nums_precede(&y, &x) {
            proof {
                if lex(x@, y@, num_lt()) {
                    lemma_lex_transitive(x@, y@, x@, num_lt());
                }
            }
            return false;
        }
    }
    text_precedes(&chars_of(a), &chars_of(b))
}

struct ByName<'a> {
    list: &'a Vec<String>,
    by_version: bool,
}

impl<'a> Ranking for ByName<'a> {
    closed spec fn size(&self) -> nat {
        self.list@.len()
    }

    closed spec fn before(&self, i: int, j: int) -> bool {
        let (a, b) = (self.list@[i]@, self.list@[j]@);
        name_before(self.by_version, a, b) || (a == b && i < j)
    }

    proof fn irreflexive(&self, i: int) {
        lemma_name_order(self.by_version);
        let lt = |a: Seq<char>, b: Seq<char>| name_before(self.by_version, a, b);
        assert(!lt(self.list@[i]@, self.list@[i]@));
    }

    proof fn transitive(&self, i: int, j: int, k: int) {
        lemma_name_order(self.by_version);
        let lt = |a: Seq<char>, b: Seq<char>| name_before(self.by_version, a, b);
        let (a, b, c) = (self.list@[i]@, self.list@[j]@, self.list@[k]@);
        if a != b && b != c {
            assert(lt(a, b) && lt(b, c));
            assert(lt(a, c));
        } else {
            assert(!lt(a, a));
            assert(!lt(b, b));
        }
    }

    proof fn total(&self, i: int, j: int) {
        lemma_name_order(self.by_version);
        let lt = |a: Seq<char>, b: Seq<char>| name_before(self.by_version, a, b);
        let (a, b) = (self.list@[i]@, self.list@[j]@);
        if a != b {
            assert(lt(a, b) || lt(b, a));
        }
    }

    fn precedes(&self, i: usize, j: usize) -> (r: bool) {
        if self.list[i] == self.list[j] {
            proof {
                lemma_name_order(self.by_version);
                let lt = |a: Seq<char>, b: Seq<char>| name_before(self.by_version, a, b);
                assert(!lt(self.list@[i as int]@, self.list@[i as int]@));
            }
            return i < j;
        }
        name_precedes(self.by_version, self.list[i].as_str(), self.list[j].as_str())
    }
}

/// `s` is sorted and holds nothing twice.
pub open spec fn rising(by_version: bool, s: Seq<Seq<char>>) -> bool {
    forall|i: int, j: int| 0 <= i < j < s.len() ==> name_before(by_version, #[trigger] s[i], #[trigger] s[j])
}

/// `s` is the sorted set of the names in `list`.
pub open spec fn sorted_set(by_version: bool, list: Seq<Seq<char>>, s: Seq<Seq<char>>) -> bool {
    &&& rising(by_version, s)
    &&& forall|n: Seq<char>| #[trigger] s.contains(n) <==> list.contains(n)
}

/// Each name of `list` once, in order.
pub fn sort_dedup(by_version: bool, list: &Vec<String>) -> (r: Vec<String>)
    ensures
        sorted_set(by_version, texts(list@), texts(r@)),
{
    let ranking = ByName { list, by_version };
    let o = sorted(&ranking, list.len());
    let ghost all = texts(list@);
    proof {
        lemma_order_rearranges(&ranking, o@);
        lemma_name_order(by_version);
    }
    let ghost lt = |a: Seq<char>, b: Seq<char>| name_before(by_version, a, b);
    let mut out: Vec<String> = Vec::new();
    for k in 0..o.len()
        invariant
            all == texts(list@),
            lt == (|a: Seq<char>, b: Seq<char>| name_before(by_version, a, b)),
            strict_total(lt),
            rearranges(o@, list@.len() as int),
            forall|i: int, j: int|
                0 <= i < j < o@.len() ==> {
                    let (a, b) = (#[trigger] o@[i] as int, #[trigger] o@[j] as int);
                    name_before(by_version, all[a], all[b]) || all[a] == all[b]
                },
            rising(by_version, texts(out@)),
            k == 0 ==> out@.len() == 0,
            k > 0 ==> out@.len() > 0 && texts(out@).last() == all[o@[k - 1] as int],
            forall|n: Seq<char>|
                #[trigger] texts(out@).contains(n) ==> all.contains(n),
            forall|i: int| 0 <= i < k ==> texts(out@).contains(all[#[trigger] o@[i] as int]),
    {
        let at: usize = o[k];
        let ghost before = out@;
        let ghost cur = all[at as int];
        if out.len() == 0 || out[out.len() - 1] != list[at] {
            proof {
                if out@.len() > 0 {
                    assert(texts(out@).last() == out@.last()@);
                    assert(o@[k - 1] < list@.len());
                    assert(lt(texts(out@).last(), cur));
                }
            }
            let c = list[at].clone();
            out.push(c);
            proof {
                assert(texts(out@) =~= texts(before).push(cur));
                let t = texts(before);
                assert forall|i: int, j: int| 0 <= i < j < texts(out@).len() implies name_before(
                    by_version,
                    #[trigger] texts(out@)[i],
                    #[trigger] texts(out@)[j],
                ) by {
                    if j == t.len() {
                        if i < t.len() - 1 {
                            assert(name_before(by_version, t[i], t[t.len() - 1]));
                            assert(lt(t[i], t.last()));
                            assert(lt(t[i], cur));
                        }
                    } else {
                        assert(name_before(by_version, t[i], t[j]));
                    }
                }
                assert forall|n: Seq<char>| #[trigger] texts(out@).contains(n) implies all.contains(n) by {
                    let w = choose|w: int| 0 <= w < texts(out@).len() && texts(out@)[w] == n;
                    if w < t.len() {
                        assert(t[w] == n);
                        assert(t.contains(n));
                    } else {
                        assert(all[at as int] == n);
                    }
                }
                assert forall|i: int| 0 <= i < k + 1 implies texts(out@).contains(all[#[trigger] o@[i] as int]) by {
                    if i < k {
                        assert(t.contains(all[o@[i] as int]));
                        let w = choose|w: int| 0 <= w < t.len() && t[w] == all[o@[i] as int];
                        assert(texts(out@)[w] == t[w]);
                    } else {
                        assert(texts(out@)[t.len() as int] == cur);
                    }
                }
            }
        } else {
            proof {
                assert(texts(out@).last() == out@.last()@);
                assert(texts(out@)[out@.len() - 1] == cur);
            }
        }
    }
    proof {
        assert forall|n: Seq<char>| all.contains(n) implies #[trigger] texts(out@).contains(n) by {
            let w = choose|w: int| 0 <= w < all.len() && all[w] == n;
            assert(list@.len() == all.len());
            if w > usize::MAX {
                crate::order::lemma_pigeon(o@, usize::MAX as int + 1);
            }
            assert(o@.contains(w as usize));
            let x = choose|x: int| 0 <= x < o@.len() && o@[x] == w as usize;
            assert(texts(out@).contains(all[o@[x] as int]));
        }
    }
    out
}

/// There is only one sorted set of the names in a list.
pub proof fn law_sorted_set_is_unique(by_version: bool, list: Seq<Seq<char>>, a: Seq<Seq<char>>, b: Seq<Seq<char>>)
    requires
        sorted_set(by_version, list, a),
        sorted_set(by_version, list, b),
    ensures
        a == b,
{
    lemma_rising_prefix(by_version, list, a, b, a.len() as int);
    lemma_rising_prefix(by_version, list, b, a, b.len() as int);
    assert(a.take(a.len() as int) =~= a);
    assert(b.take(b.len() as int) =~= b);
}

proof fn lemma_rising_prefix(by_version: bool, list: Seq<Seq<char>>, a: Seq<Seq<char>>, b: Seq<Seq<char>>, n: int)
    requires
        sorted_set(by_version, list, a),
        sorted_set(by_version, list, b),
        0 <= n <= a.len(),
    ensures
        n <= b.len(),
        a.take(n) == b.take(n),
    decreases n,
{
    lemma_name_order(by_version);
    let lt = |x: Seq<char>, y: Seq<char>| name_before(by_version, x, y);
    if n > 0 {
        let k = n - 1;
        lemma_rising_prefix(by_version, list, a, b, k);
        assert(forall|i: int| 0 <= i < k ==> a.take(k)[i] == b.take(k)[i]);
        assert(forall|i: int| 0 <= i < k ==> #[trigger] a[i] == a.take(k)[i]);
        assert(forall|i: int| 0 <= i < k ==> #[trigger] b[i] == b.take(k)[i]);
        assert(a.contains(a[k]));
        assert(list.contains(a[k]));
        assert(b.contains(a[k]));
        let x = choose|x: int| 0 <= x < b.len() && b[x] == a[k];
        if x < k {
            assert(a[x] == a[k]);
            assert(lt(a[x], a[k]));
            assert(!lt(a[k], a[k]));
        }
        if x > k {
            assert(lt(b[k], b[x]));
            assert(b.contains(b[k]));
            assert(list.contains(b[k]));
            assert(a.contains(b[k]));
            let y = choose|y: int| 0 <= y < a.len() && a[y] == b[k];
            if y < k {
                assert(b[y] == b[k]);
                assert(lt(b[y], b[k]));
                assert(!lt(b[k], b[k]));
            } else if y == k {
                assert(!lt(b[k], b[k]));
            } else {
                assert(lt(a[k], a[y]));
                assert(lt(a[k], a[k]));
                assert(!lt(a[k], a[k]));
            }
        }
        assert(a.take(n) =~= a.take(k).push(a[k]));
        assert(b.take(n) =~= b.take(k).push(b[k]));
    }
}

/// The sorted set of the names in `list`.
pub open spec fn set_of(by_version: bool, list: Seq<Seq<char>>) -> Seq<Seq<char>> {
    choose|s: Seq<Seq<char>>| sorted_set(by_version, list, s)
}

/// The first position at or after `i` of `s` whose name comes behind `n`.
spec fn name_place(by_version: bool, s: Seq<Seq<char>>, n: Seq<char>, i: int) -> int
    decreases s.len() - i,
{
    if i < 0 || i >= s.len() || name_before(by_version, n, s[i]) {
        i
    } else {
        name_place(by_version, s, n, i + 1)
    }
}

proof fn lemma_name_place(by_version: bool, s: Seq<Seq<char>>, n: Seq<char>, i: int)
    requires
        0 <= i <= s.len(),
    ensures
        i <= name_place(by_version, s, n, i) <= s.len(),
        forall|j: int| i <= j < name_place(by_version, s, n, i) ==> !name_before(by_version, n, #[trigger] s[j]),
        name_place(by_version, s, n, i) < s.len() ==> name_before(by_version, n, s[name_place(by_version, s, n, i)]),
    decreases s.len() - i,
{
    if i < s.len() && !name_before(by_version, n, s[i]) {
        lemma_name_place(by_version, s, n, i + 1);
    }
}

proof fn lemma_set_exists(by_version: bool, list: Seq<Seq<char>>) -> (r: Seq<Seq<char>>)
    ensures
        sorted_set(by_version, list, r),
    decreases list.len(),
{
    if list.len() == 0 {
        Seq::empty()
    } else {
        let s = lemma_set_exists(by_version, list.drop_last());
        let n = list.last();
        assert forall|x: Seq<char>| #[trigger] list.contains(x) <==> (x == n || list.drop_last().contains(x)) by {
            if list.contains(x) {
                let w = choose|w: int| 0 <= w < list.len() && list[w] == x;
                if w < list.len() - 1 {
                    assert(list.drop_last()[w] == x);
                }
            }
            if list.drop_last().contains(x) {
                let w = choose|w: int| 0 <= w < list.drop_last().len() && list.drop_last()[w] == x;
                assert(list[w] == x);
            }
            if x == n {
                assert(list[list.len() - 1] == x);
            }
        }
        if s.contains(n) {
            s
        } else {
            lemma_name_order(by_version);
            let lt = |x: Seq<char>, y: Seq<char>| name_before(by_version, x, y);
            lemma_name_place(by_version, s, n, 0);
            let p = name_place(by_version, s, n, 0);
            let r = s.insert(p, n);
            assert forall|i: int, j: int| 0 <= i < j < r.len() implies name_before(by_version, #[trigger] r[i], #[trigger] r[j]) by {
                if i != p && j != p {
                    let x = if i < p {
                        i
                    } else {
                        i - 1
                    };
                    let y = if j < p {
                        j
                    } else {
                        j - 1
                    };
                    assert(name_before(by_version, s[x], s[y]));
                } else if j == p {
                    assert(!lt(n, s[i]));
                    assert(s[i] != n) by {
                        if s[i] == n {
                            assert(s.contains(n));
                        }
                    }
                    assert(lt(s[i], n) || lt(n, s[i]));
                } else {
                    assert(lt(n, s[p]));
                    if j - 1 > p {
                        assert(lt(s[p], s[j - 1]));
                    }
                }
            }
            assert forall|x: Seq<char>| #[trigger] r.contains(x) <==> list.contains(x) by {
                if r.contains(x) {
                    let w = choose|w: int| 0 <= w < r.len() && r[w] == x;
                    if w < p {
                        assert(s[w] == x);
                        assert(s.contains(x));
                    } else if w > p {
                        assert(s[w - 1] == x);
                        assert(s.contains(x));
                    }
                    assert(list.contains(x));
                }
                if list.contains(x) {
                    if x == n {
                        assert(r[p] == x);
                    } else {
                        assert(s.contains(x));
                        let w = choose|w: int| 0 <= w < s.len() && s[w] == x;
                        if w < p {
                            assert(r[w] == x);
                        } else {
                            assert(r[w + 1] == x);
                        }
                    }
                }
            }
            r
        }
    }
}

/// `set_of` holds the names of the list and nothing else.
pub proof fn law_set_holds_the_list(by_version: bool, list: Seq<Seq<char>>)
    ensures
        sorted_set(by_version, list, set_of(by_version, list)),
{
    let s = lemma_set_exists(by_version, list);
    lemma_set_of(by_version, list, s);
}

pub proof fn lemma_set_of(by_version: bool, list: Seq<Seq<char>>, s: Seq<Seq<char>>)
    requires
        sorted_set(by_version, list, s),
    ensures
        set_of(by_version, list) == s,
{
    law_sorted_set_is_unique(by_version, list, s, set_of(by_version, list));
}

/// Lists with the same names have the same sorted set.
pub proof fn lemma_set_of_same(by_version: bool, a: Seq<Seq<char>>, b: Seq<Seq<char>>, s: Seq<Seq<char>>)
    requires
        sorted_set(by_version, a, s),
        forall|n: Seq<char>| #[trigger] a.contains(n) <==> b.contains(n),
    ensures
        set_of(by_version, b) == s,
{
    assert(sorted_set(by_version, b, s));
    lemma_set_of(by_version, b, s);
}

/// The order of names by their text.
pub open spec fn name_lt() -> spec_fn(Seq<char>, Seq<char>) -> bool {
    |a: Seq<char>, b: Seq<char>| name_before(false, a, b)
}

/// The names of `list` in order, each as often as it occurs.
pub open spec fn by_name(list: Seq<Seq<char>>) -> Seq<Seq<char>> {
    arranged(list, sorting(list, name_lt()))
}

/// Sorting names brings none in.
pub proof fn lemma_by_name_among(list: Seq<Seq<char>>, x: Seq<char>)
    requires
        list.len() <= usize::MAX,
        by_name(list).contains(x),
    ensures
        list.contains(x),
{
    lemma_name_order(false);
    assert(strict_total(name_lt()));
    let before = |i: int, j: int| placed_before(list, name_lt(), i, j);
    assert forall|a: int, b: int| a != b implies #[trigger] before(a, b) || before(b, a) by {
        if list[a] != list[b] {
            assert(name_lt()(list[a], list[b]) || name_lt()(list[b], list[a]));
        }
    }
    let o = lemma_order_exists(before, list.len());
    assert forall|i: int, j: int| 0 <= i < j < o.len() implies placed_before(
        list,
        name_lt(),
        #[trigger] o[i] as int,
        #[trigger] o[j] as int,
    ) by {
        assert(before(o[i] as int, o[j] as int));
    }
    assert(sorts(list, name_lt(), o));
    law_sorting_is_unique(list, name_lt(), o);
    lemma_arranged_among(list, o, x);
}

/// Sort names by their text.
pub fn sort_names(list: &Vec<String>) -> (r: Vec<String>)
    ensures
        texts(r@) == by_name(texts(list@)),
        r@.len() == list@.len(),
{
    let ranking = ByName { list, by_version: false };
    let o = sorted(&ranking, list.len());
    let ghost all = texts(list@);
    proof {
        lemma_order_rearranges(&ranking, o@);
        lemma_name_order(false);
        assert(strict_total(name_lt()));
        assert(sorts(all, name_lt(), o@)) by {
            assert forall|i: int, j: int| 0 <= i < j < o@.len() implies placed_before(
                all,
                name_lt(),
                #[trigger] o@[i] as int,
                #[trigger] o@[j] as int,
            ) by {
                assert(ranking.before(o@[i] as int, o@[j] as int));
            }
        }
        law_sorting_is_unique(all, name_lt(), o@);
    }
    let mut out: Vec<String> = Vec::new();
    for k in 0..o.len()
        invariant
            all == texts(list@),
            rearranges(o@, list@.len() as int),
            texts(out@) == arranged(all, o@).take(k as int),
    {
        let ghost before = out@;
        let t = list[o[k]].clone();
        out.push(t);
        assert(texts(out@) =~= texts(before).push(t@));
        assert(texts(out@) =~= arranged(all, o@).take(k + 1));
    }
    proof {
        assert(arranged(all, o@).take(o@.len() as int) =~= arranged(all, o@));
        assert(texts(out@).len() == out@.len());
    }
    out
}

/// Sorted names are the same names, none left out and none brought in.
pub proof fn law_sorted_names_are_the_same_names(list: Seq<Seq<char>>, x: Seq<char>)
    requires
        list.len() <= usize::MAX,
    ensures
        by_name(list).contains(x) <==> list.contains(x),
        by_name(list).len() == list.len(),
{
    lemma_name_order(false);
    assert(strict_total(name_lt()));
    let before = |i: int, j: int| placed_before(list, name_lt(), i, j);
    assert forall|a: int, b: int| a != b implies #[trigger] before(a, b) || before(b, a) by {
        if list[a] != list[b] {
            assert(name_lt()(list[a], list[b]) || name_lt()(list[b], list[a]));
        }
    }
    let o = lemma_order_exists(before, list.len());
    assert forall|i: int, j: int| 0 <= i < j < o.len() implies placed_before(
        list,
        name_lt(),
        #[trigger] o[i] as int,
        #[trigger] o[j] as int,
    ) by {
        assert(before(o[i] as int, o[j] as int));
    }
    assert(sorts(list, name_lt(), o));
    law_sorting_is_unique(list, name_lt(), o);
    law_rearranging_keeps_everything(list, o, x);
}

proof fn lemma_digit_at(s: Seq<char>, want: bool, i: int, k: int)
    requires
        0 <= i <= k <= s.len(),
        forall|j: int| i <= j < k ==> is_digit(#[trigger] s[j]) != want,
        k < s.len() ==> is_digit(s[k]) == want,
    ensures
        digit_from(s, want, i) == k,
    decreases k - i,
{
    if i < k {
        assert(is_digit(s[i]) != want);
        lemma_digit_at(s, want, i + 1, k);
    }
}

/// The numbers of a version are read from left to right, as numbers: whatever
/// stands before, between and behind them is skipped.
pub proof fn law_versions_are_numbers(lead: Seq<char>, n: u64, rest: Seq<char>)
    requires
        forall|i: int| 0 <= i < lead.len() ==> !is_digit(#[trigger] lead[i]),
        rest.len() > 0 ==> !is_digit(rest[0]),
    ensures
        version(lead + digits(n as nat) + rest) == seq![n] + version(rest),
        version(lead) == Seq::<u64>::empty(),
{
    let d = digits(n as nat);
    let s = lead + d + rest;
    lemma_digits(n as nat);
    let (i, j) = (lead.len() as int, lead.len() as int + d.len());
    assert(is_digit(d[0]));
    assert(s[i] == d[0]);
    assert forall|k: int| 0 <= k < i implies is_digit(#[trigger] s[k]) != true by {
        assert(s[k] == lead[k]);
    }
    lemma_digit_at(s, true, 0, i);
    assert forall|k: int| i <= k < j implies is_digit(#[trigger] s[k]) != false by {
        assert(s[k] == d[k - i]);
    }
    if j < s.len() {
        assert(s[j] == rest[0]);
    }
    lemma_digit_at(s, false, i, j);
    assert(s.subrange(i, j) =~= d);
    assert(s.skip(j) =~= rest);
    lemma_digit_at(lead, true, 0, lead.len() as int);
}

/// Names are ordered by version first where asked: the first number that
/// differs decides, by its value; the text decides only between equal versions.
pub proof fn law_versions_decide_before_texts(a: Seq<char>, b: Seq<char>, k: int)
    ensures
        0 <= k < version(a).len() && k < version(b).len() && version(a).take(k) == version(b).take(k) && version(a)[k] < version(b)[k]
            ==> name_before(true, a, b) && !name_before(true, b, a),
        version(a).len() < version(b).len() && version(a) == version(b).take(version(a).len() as int) ==> name_before(true, a, b)
            && !name_before(true, b, a),
        version(a) == version(b) ==> name_before(true, a, b) == text_before(a, b),
        name_before(false, a, b) == text_before(a, b),
{
    let (x, y) = (version(a), version(b));
    lemma_num_lt();
    if 0 <= k < x.len() && k < y.len() && x.take(k) == y.take(k) && x[k] < y[k] {
        assert(num_lt()(x[k], y[k]));
        lemma_lex_at(x, y, k);
        if lex(y, x, num_lt()) {
            lemma_lex_transitive(x, y, x, num_lt());
            lemma_lex_irreflexive(x, num_lt());
        }
    }
    if x.len() < y.len() && x == y.take(x.len() as int) {
        lemma_lex_shorter(x, y);
        if lex(y, x, num_lt()) {
            lemma_lex_transitive(x, y, x, num_lt());
            lemma_lex_irreflexive(x, num_lt());
        }
    }
}

proof fn lemma_lex_at(x: Seq<u64>, y: Seq<u64>, k: int)
    requires
        0 <= k < x.len(),
        k < y.len(),
        x.take(k) == y.take(k),
        x[k] < y[k],
    ensures
        lex(x, y, num_lt()),
    decreases x.len(),
{
    if k > 0 {
        assert(x.take(k)[0] == x[0]);
        assert(y.take(k)[0] == y[0]);
        assert(x.skip(1).take(k - 1) =~= x.take(k).skip(1));
        assert(y.skip(1).take(k - 1) =~= y.take(k).skip(1));
        assert(x.skip(1)[k - 1] == x[k]);
        assert(y.skip(1)[k - 1] == y[k]);
        lemma_lex_at(x.skip(1), y.skip(1), k - 1);
        assert(x[0] == y[0]);
    } else {
        assert(num_lt()(x[0], y[0]));
    }
}

proof fn lemma_lex_shorter(x: Seq<u64>, y: Seq<u64>)
    requires
        x.len() < y.len(),
        x == y.take(x.len() as int),
    ensures
        lex(x, y, num_lt()),
    decreases x.len(),
{
    if x.len() > 0 {
        assert(x[0] == y[0]);
        assert(x.skip(1) =~= y.skip(1).take(x.len() - 1));
        lemma_lex_shorter(x.skip(1), y.skip(1));
    }
}

} // verus!
