//! Text as sequences of characters: conversion, trimming, splitting, numbers.

use vstd::prelude::*;

verus! {

/// `String::push` appends exactly the given character.
pub assume_specification[ String::push ](s: &mut String, c: char)
    ensures
        final(s)@ == old(s)@.push(c),
;

/// The characters of a text, in order.
pub fn chars_of(s: &str) -> (r: Vec<char>)
    ensures
        r@ == s@,
{
    let mut out: Vec<char> = Vec::new();
    for c in it: s.chars()
        invariant
            out@ == s@.take(it.index() as int),
            it.seq() == s@,
    {
        out.push(c);
        assert(out@ =~= s@.take(it.index() as int + 1));
    }
    assert(out@ =~= s@);
    out
}

/// The text made of the given characters.
pub fn string_of(v: &Vec<char>) -> (r: String)
    ensures
        r@ == v@,
{
    let mut out = String::new();
    for i in 0..v.len()
        invariant
            out@ == v@.take(i as int),
    {
        out.push(v[i]);
        assert(out@ =~= v@.take(i + 1));
    }
    assert(out@ =~= v@);
    out
}

/// The text views of a list of character lists.
pub open spec fn views(v: Seq<Vec<char>>) -> Seq<Seq<char>> {
    Seq::new(v.len(), |i: int| v[i]@)
}

/// The text views of a list of strings.
pub open spec fn texts(v: Seq<String>) -> Seq<Seq<char>> {
    Seq::new(v.len(), |i: int| v[i]@)
}

/// Do two texts hold the same characters?
pub fn same(a: &str, b: &str) -> (r: bool)
    ensures
        r == (a@ == b@),
{
    a.to_owned() == b.to_owned()
}

/// Characters `from..to` of a text.
pub fn slice(v: &Vec<char>, from: usize, to: usize) -> (r: Vec<char>)
    requires
        from <= to <= v@.len(),
    ensures
        r@ == v@.subrange(from as int, to as int),
{
    let mut out: Vec<char> = Vec::new();
    for i in from..to
        invariant
            from <= to <= v@.len(),
            out@ == v@.subrange(from as int, i as int),
    {
        out.push(v[i]);
        assert(out@ =~= v@.subrange(from as int, i + 1));
    }
    out
}

/// Do characters starting at `at` spell `t`?
pub fn spells(v: &Vec<char>, at: usize, t: &Vec<char>) -> (r: bool)
    requires
        at <= v@.len(),
    ensures
        r == (at + t@.len() <= v@.len() && v@.subrange(at as int, at + t@.len()) == t@),
{
    if t.len() > v.len() - at {
        return false;
    }
    let n: usize = v.len();
    for i in 0..t.len()
        invariant
            n == v@.len(),
            at + t@.len() <= n,
            v@.subrange(at as int, at + i) == t@.take(i as int),
    {
        if v[at + i] != t[i] {
            assert(v@.subrange(at as int, at + t@.len())[i as int] != t@[i as int]);
            return false;
        }
        assert(v@.subrange(at as int, at + i + 1) =~= t@.take(i + 1));
    }
    assert(t@.take(t@.len() as int) =~= t@);
    true
}

/// `s` begins with `p`.
pub open spec fn starts(s: Seq<char>, p: Seq<char>) -> bool {
    p.len() <= s.len() && s.subrange(0, p.len() as int) == p
}

/// `s` ends with `p`.
pub open spec fn ends(s: Seq<char>, p: Seq<char>) -> bool {
    p.len() <= s.len() && s.subrange(s.len() - p.len(), s.len() as int) == p
}

/// `p` occurs somewhere in `s`.
pub open spec fn contains(s: Seq<char>, p: Seq<char>) -> bool {
    exists|i: int| 0 <= i && i + p.len() <= s.len() && #[trigger] s.subrange(i, i + p.len()) == p
}

pub fn starts_with(v: &Vec<char>, p: &str) -> (r: bool)
    ensures
        r == starts(v@, p@),
{
    let t = chars_of(p);
    spells(v, 0, &t)
}

pub fn ends_with(v: &Vec<char>, p: &str) -> (r: bool)
    ensures
        r == ends(v@, p@),
{
    let t = chars_of(p);
    if t.len() > v.len() {
        return false;
    }
    spells(v, v.len() - t.len(), &t)
}

pub fn has(v: &Vec<char>, p: &str) -> (r: bool)
    ensures
        r == contains(v@, p@),
{
    let t = chars_of(p);
    if t.len() > v.len() {
        return false;
    }
    let last: usize = v.len() - t.len();
    let mut i: usize = 0;
    while i <= last
        invariant
            t@ == p@,
            last + t@.len() == v@.len(),
            i <= last + 1,
            forall|j: int| 0 <= j < i ==> #[trigger] v@.subrange(j, j + t@.len()) != t@,
        decreases last + 1 - i,
    {
        if spells(v, i, &t) {
            assert(v@.subrange(i as int, i + p@.len()) == p@);
            return true;
        }
        if i == last {
            return false;
        }
        i += 1;
    }
    false
}

/// The rest of `v` behind the prefix `p`.
pub fn strip_prefix(v: &Vec<char>, p: &str) -> (r: Option<Vec<char>>)
    ensures
        r is Some <==> starts(v@, p@),
        r matches Some(x) ==> x@ == v@.skip(p@.len() as int),
{
    let t = chars_of(p);
    if spells(v, 0, &t) {
        let x = slice(v, t.len(), v.len());
        assert(x@ =~= v@.skip(p@.len() as int));
        Some(x)
    } else {
        None
    }
}

/// What stands before the suffix `p`.
pub fn strip_suffix(v: &Vec<char>, p: &str) -> (r: Option<Vec<char>>)
    ensures
        r is Some <==> ends(v@, p@),
        r matches Some(x) ==> x@ == v@.take(v@.len() - p@.len()),
{
    let t = chars_of(p);
    if t.len() <= v.len() && spells(v, v.len() - t.len(), &t) {
        let x = slice(v, 0, v.len() - t.len());
        assert(x@ =~= v@.take(v@.len() - p@.len()));
        Some(x)
    } else {
        None
    }
}

/// Index of the first `c` at or after `i`, or the length.
pub open spec fn index_from(s: Seq<char>, c: char, i: int) -> int
    decreases s.len() - i,
{
    if i >= s.len() {
        s.len() as int
    } else if s[i] == c {
        i
    } else {
        index_from(s, c, i + 1)
    }
}

pub proof fn lemma_index_from(s: Seq<char>, c: char, i: int)
    requires
        0 <= i <= s.len(),
    ensures
        i <= index_from(s, c, i) <= s.len(),
        forall|j: int| i <= j < index_from(s, c, i) ==> s[j] != c,
        index_from(s, c, i) < s.len() ==> s[index_from(s, c, i)] == c,
    decreases s.len() - i,
{
    if i < s.len() && s[i] != c {
        lemma_index_from(s, c, i + 1);
    }
}

pub fn find_char(v: &Vec<char>, c: char, from: usize) -> (r: usize)
    requires
        from <= v@.len(),
    ensures
        r == index_from(v@, c, from as int),
        from <= r <= v@.len(),
{
    let mut i: usize = from;
    while i < v.len()
        invariant
            from <= i <= v@.len(),
            index_from(v@, c, from as int) == index_from(v@, c, i as int),
        decreases v@.len() - i,
    {
        if v[i] == c {
            return i;
        }
        i += 1;
    }
    i
}

/// Index just behind the last `c`, or 0 where there is none.
pub open spec fn after_last(s: Seq<char>, c: char) -> int
    decreases s.len(),
{
    if s.len() == 0 {
        0
    } else if s.last() == c {
        s.len() as int
    } else {
        after_last(s.drop_last(), c)
    }
}

pub fn behind_last(v: &Vec<char>, c: char) -> (r: usize)
    ensures
        r == after_last(v@, c),
        r <= v@.len(),
        r > 0 ==> v@[r - 1] == c,
{
    let mut i: usize = v.len();
    assert(v@.take(i as int) =~= v@);
    while i > 0
        invariant
            i <= v@.len(),
            after_last(v@, c) == after_last(v@.take(i as int), c),
        decreases i,
    {
        if v[i - 1] == c {
            return i;
        }
        assert(v@.take(i as int).drop_last() =~= v@.take(i - 1));
        i -= 1;
    }
    0
}

/// The pieces between the occurrences of `d`.
pub open spec fn split(s: Seq<char>, d: char) -> Seq<Seq<char>>
    decreases s.len(),
{
    let k = index_from(s, d, 0);
    if k < 0 || k >= s.len() {
        seq![s]
    } else {
        seq![s.take(k)] + split(s.skip(k + 1), d)
    }
}

pub fn split_on(v: &Vec<char>, d: char) -> (r: Vec<Vec<char>>)
    ensures
        views(r@) == split(v@, d),
        r@.len() >= 1,
{
    let mut out: Vec<Vec<char>> = Vec::new();
    let mut at: usize = 0;
    assert(v@.skip(0) =~= v@);
    loop
        invariant
            at <= v@.len(),
            views(out@) + split(v@.skip(at as int), d) == split(v@, d),
        decreases v@.len() + 1 - at,
    {
        let ghost rest = v@.skip(at as int);
        let k = find_char(v, d, at);
        proof {
            lemma_index_shift(v@, d, at as int, at as int);
            lemma_index_from(v@, d, at as int);
        }
        let piece = slice(v, at, k);
        let ghost before = out@;
        out.push(piece);
        assert(views(out@) =~= views(before).push(piece@));
        if k >= v.len() {
            assert(piece@ =~= rest);
            assert(views(out@) =~= views(before) + seq![rest]);
            return out;
        }
        assert(piece@ =~= rest.take(k - at));
        assert(rest.skip(k - at + 1) =~= v@.skip(k + 1));
        assert(views(out@) + split(v@.skip(k + 1), d) =~= views(before) + (seq![piece@] + split(v@.skip(k + 1), d)));
        at = k + 1;
    }
}

/// Searching in a suffix gives the shifted index.
pub proof fn lemma_index_shift(s: Seq<char>, c: char, at: int, i: int)
    requires
        0 <= at <= i <= s.len(),
    ensures
        index_from(s.skip(at), c, i - at) == index_from(s, c, i) - at,
    decreases s.len() - i,
{
    if i < s.len() && s[i] != c {
        lemma_index_shift(s, c, at, i + 1);
    }
}

/// A line without the carriage return that ended it.
pub open spec fn uncr(s: Seq<char>) -> Seq<char> {
    if s.len() > 0 && s.last() == '\r' {
        s.drop_last()
    } else {
        s
    }
}

/// The lines of a text: each ends at a line feed (with or without a carriage
/// return before it) or at the end of the text.
pub open spec fn lines(s: Seq<char>) -> Seq<Seq<char>>
    decreases s.len(),
{
    let k = index_from(s, '\n', 0);
    if s.len() == 0 {
        Seq::empty()
    } else if k < 0 || k >= s.len() {
        seq![s]
    } else {
        seq![uncr(s.take(k))] + lines(s.skip(k + 1))
    }
}

pub fn lines_of(v: &Vec<char>) -> (r: Vec<Vec<char>>)
    ensures
        views(r@) == lines(v@),
{
    let mut out: Vec<Vec<char>> = Vec::new();
    let mut at: usize = 0;
    assert(v@.skip(0) =~= v@);
    while at < v.len()
        invariant
            at <= v@.len(),
            views(out@) + lines(v@.skip(at as int)) == lines(v@),
        decreases v@.len() - at,
    {
        let ghost rest = v@.skip(at as int);
        let k = find_char(v, '\n', at);
        proof {
            lemma_index_shift(v@, '\n', at as int, at as int);
            lemma_index_from(v@, '\n', at as int);
        }
        let ghost before = out@;
        if k >= v.len() {
            let piece = slice(v, at, k);
            assert(piece@ =~= rest);
            out.push(piece);
            assert(views(out@) =~= views(before) + seq![rest]);
            return out;
        }
        let end = if k > at && v[k - 1] == '\r' { k - 1 } else { k };
        let piece = slice(v, at, end);
        assert(rest.take(k - at) =~= v@.subrange(at as int, k as int));
        assert(piece@ =~= uncr(rest.take(k - at)));
        out.push(piece);
        assert(views(out@) =~= views(before).push(piece@));
        assert(rest.skip(k - at + 1) =~= v@.skip(k + 1));
        assert(views(out@) + lines(v@.skip(k + 1)) =~= views(before) + (seq![piece@] + lines(v@.skip(k + 1))));
        at = k + 1;
    }
    assert(v@.skip(at as int) =~= Seq::empty());
    assert(views(out@) + Seq::<Seq<char>>::empty() =~= views(out@));
    out
}

/// Unicode white space.
pub open spec fn is_space(c: char) -> bool {
    let n = c as u32;
    ||| 9 <= n <= 13
    ||| n == 0x20
    ||| n == 0x85
    ||| n == 0xa0
    ||| n == 0x1680
    ||| 0x2000 <= n <= 0x200a
    ||| n == 0x2028
    ||| n == 0x2029
    ||| n == 0x202f
    ||| n == 0x205f
    ||| n == 0x3000
}

pub fn space(c: char) -> (r: bool)
    ensures
        r == is_space(c),
{
    let n: u32 = c as u32;
    (9 <= n && n <= 13) || n == 0x20 || n == 0x85 || n == 0xa0 || n == 0x1680 || (0x2000 <= n && n <= 0x200a)
        || n == 0x2028 || n == 0x2029 || n == 0x202f || n == 0x205f || n == 0x3000
}

/// First index at or after `i` whose character is (or is not) white space.
pub open spec fn space_from(s: Seq<char>, want: bool, i: int) -> int
    decreases s.len() - i,
{
    if i >= s.len() {
        s.len() as int
    } else if is_space(s[i]) == want {
        i
    } else {
        space_from(s, want, i + 1)
    }
}

pub fn find_space(v: &Vec<char>, want: bool, from: usize) -> (r: usize)
    requires
        from <= v@.len(),
    ensures
        r == space_from(v@, want, from as int),
        from <= r <= v@.len(),
        r < v@.len() ==> is_space(v@[r as int]) == want,
        forall|j: int| from <= j < r ==> is_space(#[trigger] v@[j]) != want,
{
    let mut i: usize = from;
    while i < v.len()
        invariant
            from <= i <= v@.len(),
            space_from(v@, want, from as int) == space_from(v@, want, i as int),
            forall|j: int| from <= j < i ==> is_space(#[trigger] v@[j]) != want,
        decreases v@.len() - i,
    {
        if space(v[i]) == want {
            return i;
        }
        i += 1;
    }
    i
}

pub proof fn lemma_space_shift(s: Seq<char>, want: bool, at: int, i: int)
    requires
        0 <= at <= i <= s.len(),
    ensures
        space_from(s.skip(at), want, i - at) == space_from(s, want, i) - at,
        i <= space_from(s, want, i) <= s.len(),
    decreases s.len() - i,
{
    if i < s.len() && is_space(s[i]) != want {
        lemma_space_shift(s, want, at, i + 1);
    }
}

/// The text without leading white space.
pub open spec fn trim_start(s: Seq<char>) -> Seq<char> {
    s.skip(space_from(s, false, 0))
}

/// The text without trailing white space.
pub open spec fn trim_end(s: Seq<char>) -> Seq<char>
    decreases s.len(),
{
    if s.len() > 0 && is_space(s.last()) {
        trim_end(s.drop_last())
    } else {
        s
    }
}

/// The text without white space around it.
pub open spec fn trim(s: Seq<char>) -> Seq<char> {
    trim_end(trim_start(s))
}

pub fn trimmed(v: &Vec<char>) -> (r: Vec<char>)
    ensures
        r@ == trim(v@),
{
    let from = find_space(v, false, 0);
    let mut to: usize = v.len();
    assert(v@.subrange(from as int, to as int) =~= trim_start(v@));
    while from < to && space(v[to - 1])
        invariant
            from <= to <= v@.len(),
            trim(v@) == trim_end(v@.subrange(from as int, to as int)),
        decreases to,
    {
        assert(v@.subrange(from as int, to as int).drop_last() =~= v@.subrange(from as int, to - 1));
        to -= 1;
    }
    slice(v, from, to)
}

/// The words of a text: its maximal runs without white space.
pub open spec fn words(s: Seq<char>) -> Seq<Seq<char>>
    decreases s.len(),
{
    let i = space_from(s, false, 0);
    if i < 0 || i >= s.len() {
        Seq::empty()
    } else {
        let j = space_from(s, true, i);
        if j <= i || j > s.len() {
            Seq::empty()
        } else {
            seq![s.subrange(i, j)] + words(s.skip(j))
        }
    }
}

pub fn words_of(v: &Vec<char>) -> (r: Vec<Vec<char>>)
    ensures
        views(r@) == words(v@),
{
    let mut out: Vec<Vec<char>> = Vec::new();
    let mut at: usize = 0;
    assert(v@.skip(0) =~= v@);
    loop
        invariant
            at <= v@.len(),
            views(out@) + words(v@.skip(at as int)) == words(v@),
        decreases v@.len() - at,
    {
        let ghost rest = v@.skip(at as int);
        let i = find_space(v, false, at);
        proof {
            lemma_space_shift(v@, false, at as int, at as int);
        }
        if i >= v.len() {
            assert(views(out@) + Seq::<Seq<char>>::empty() =~= views(out@));
            return out;
        }
        let j = find_space(v, true, i);
        proof {
            lemma_space_shift(v@, true, at as int, i as int);
            assert(j > i);
        }
        let piece = slice(v, i, j);
        assert(piece@ =~= rest.subrange(i - at, j - at));
        let ghost before = out@;
        out.push(piece);
        assert(views(out@) =~= views(before).push(piece@));
        assert(rest.skip(j - at) =~= v@.skip(j as int));
        assert(views(out@) + words(v@.skip(j as int)) =~= views(before) + (seq![piece@] + words(v@.skip(j as int))));
        at = j;
    }
}


/// Lower case of an ASCII letter; any other character stays.
pub open spec fn lower(c: char) -> char {
    if 65 <= c as u32 <= 90 {
        ((c as u32 + 32) as u8) as char
    } else {
        c
    }
}

/// Upper case of an ASCII letter; any other character stays.
pub open spec fn upper(c: char) -> char {
    if 97 <= c as u32 <= 122 {
        ((c as u32 - 32) as u8) as char
    } else {
        c
    }
}

/// The text with its ASCII letters in lower case.
pub open spec fn lowercase(s: Seq<char>) -> Seq<char> {
    Seq::new(s.len(), |i: int| lower(s[i]))
}

/// The text with its ASCII letters in upper case.
pub open spec fn uppercase(s: Seq<char>) -> Seq<char> {
    Seq::new(s.len(), |i: int| upper(s[i]))
}

pub fn to_lower(v: &Vec<char>) -> (r: Vec<char>)
    ensures
        r@ == lowercase(v@),
{
    let mut out: Vec<char> = Vec::new();
    for i in 0..v.len()
        invariant
            out@ == lowercase(v@).take(i as int),
    {
        let c = v[i];
        let n: u32 = c as u32;
        if 65 <= n && n <= 90 {
            out.push((n + 32) as u8 as char);
        } else {
            out.push(c);
        }
        assert(out@ =~= lowercase(v@).take(i + 1));
    }
    assert(out@ =~= lowercase(v@));
    out
}

pub fn to_upper(v: &Vec<char>) -> (r: Vec<char>)
    ensures
        r@ == uppercase(v@),
{
    let mut out: Vec<char> = Vec::new();
    for i in 0..v.len()
        invariant
            out@ == uppercase(v@).take(i as int),
    {
        let c = v[i];
        let n: u32 = c as u32;
        if 97 <= n && n <= 122 {
            out.push((n - 32) as u8 as char);
        } else {
            out.push(c);
        }
        assert(out@ =~= uppercase(v@).take(i + 1));
    }
    assert(out@ =~= uppercase(v@));
    out
}

pub open spec fn is_digit(c: char) -> bool {
    48 <= c as u32 <= 57
}

pub open spec fn is_alpha(c: char) -> bool {
    65 <= c as u32 <= 90 || 97 <= c as u32 <= 122
}

pub fn digit(c: char) -> (r: bool)
    ensures
        r == is_digit(c),
{
    let n: u32 = c as u32;
    48 <= n && n <= 57
}

pub fn alpha(c: char) -> (r: bool)
    ensures
        r == is_alpha(c),
{
    let n: u32 = c as u32;
    (65 <= n && n <= 90) || (97 <= n && n <= 122)
}

/// Only decimal digits (also true of no character at all).
pub open spec fn all_digits(s: Seq<char>) -> bool {
    forall|i: int| 0 <= i < s.len() ==> is_digit(#[trigger] s[i])
}

pub fn only_digits(v: &Vec<char>) -> (r: bool)
    ensures
        r == all_digits(v@),
{
    for i in 0..v.len()
        invariant
            forall|j: int| 0 <= j < i ==> is_digit(#[trigger] v@[j]),
    {
        if !digit(v[i]) {
            assert(!is_digit(v@[i as int]));
            return false;
        }
    }
    true
}

/// The number that a row of decimal digits stands for.
pub open spec fn value(s: Seq<char>) -> nat
    decreases s.len(),
{
    if s.len() == 0 {
        0
    } else {
        (value(s.drop_last()) * 10 + (s.last() as u32 - 48)) as nat
    }
}

/// What a decimal number without a sign (or with a plus sign) stands for, as
/// far as it is one and at most `max`.
pub open spec fn number(s: Seq<char>, max: nat) -> Option<nat> {
    let t = if s.len() > 0 && s[0] == '+' { s.skip(1) } else { s };
    if t.len() > 0 && all_digits(t) && value(t) <= max {
        Some(value(t))
    } else {
        None
    }
}

pub proof fn lemma_value_grows(s: Seq<char>, k: int)
    requires
        0 <= k <= s.len(),
        all_digits(s),
    ensures
        value(s.take(k)) <= value(s),
    decreases s.len(),
{
    if k < s.len() {
        assert(s.drop_last().take(k) =~= s.take(k));
        assert(is_digit(s[s.len() - 1]));
        lemma_value_grows(s.drop_last(), k);
    } else {
        assert(s.take(k) =~= s);
    }
}

pub fn parse_u64(v: &Vec<char>) -> (r: Option<u64>)
    ensures
        r is Some <==> number(v@, u64::MAX as nat) is Some,
        r matches Some(n) ==> number(v@, u64::MAX as nat) == Some(n as nat),
{
    let from: usize = if v.len() > 0 && v[0] == '+' { 1 } else { 0 };
    let t = slice(v, from, v.len());
    assert(t@ =~= if v@.len() > 0 && v@[0] == '+' { v@.skip(1) } else { v@ });
    if t.len() == 0 || !only_digits(&t) {
        return None;
    }
    let mut n: u64 = 0;
    for i in 0..t.len()
        invariant
            n == value(t@.take(i as int)),
            all_digits(t@),
            t@.len() > 0,
            t@ == (if v@.len() > 0 && v@[0] == '+' { v@.skip(1) } else { v@ }),
    {
        let d: u64 = (t[i] as u32 - 48) as u64;
        proof {
            assert(t@.take(i + 1).drop_last() =~= t@.take(i as int));
            lemma_value_grows(t@, i + 1);
        }
        if n > (u64::MAX - d) / 10 {
            return None;
        }
        n = n * 10 + d;
    }
    assert(t@.take(t@.len() as int) =~= t@);
    Some(n)
}

/// The decimal digits of a number.
pub open spec fn digits(n: nat) -> Seq<char>
    decreases n,
{
    if n < 10 {
        seq![((48 + n) as u8) as char]
    } else {
        digits(n / 10).push(((48 + n % 10) as u8) as char)
    }
}

pub fn decimal_chars(n: u64) -> (r: Vec<char>)
    ensures
        r@ == digits(n as nat),
        r@.len() > 0,
    decreases n,
{
    if n < 10 {
        let mut out: Vec<char> = Vec::new();
        out.push((48 + n) as u8 as char);
        assert(out@ =~= digits(n as nat));
        out
    } else {
        let mut out = decimal_chars(n / 10);
        out.push((48 + n % 10) as u8 as char);
        out
    }
}

/// A number in decimal digits.
pub fn decimal(n: u64) -> (r: String)
    ensures
        r@ == digits(n as nat),
{
    string_of(&decimal_chars(n))
}

/// The digits of a number are read back as that number.
pub proof fn law_digits_read_back(n: nat, max: nat)
    requires
        n <= max,
    ensures
        number(digits(n), max) == Some(n),
{
    lemma_digits(n);
    assert(is_digit(digits(n)[0]));
}

pub proof fn lemma_digits(n: nat)
    ensures
        digits(n).len() > 0,
        all_digits(digits(n)),
        value(digits(n)) == n,
    decreases n,
{
    if n < 10 {
        let c = ((48 + n) as u8) as char;
        assert(c as u32 == 48 + n);
        assert(digits(n).drop_last() =~= Seq::<char>::empty());
        assert(value(Seq::<char>::empty()) == 0);
    } else {
        lemma_digits(n / 10);
        let c = ((48 + n % 10) as u8) as char;
        assert(c as u32 == 48 + n % 10);
        assert(digits(n).drop_last() =~= digits(n / 10));
    }
}

/// The parts with `sep` between them.
pub open spec fn join(parts: Seq<Seq<char>>, sep: Seq<char>) -> Seq<char>
    decreases parts.len(),
{
    if parts.len() == 0 {
        Seq::empty()
    } else if parts.len() == 1 {
        parts[0]
    } else {
        join(parts.drop_last(), sep) + sep + parts.last()
    }
}

pub fn joined(parts: &Vec<String>, sep: &str) -> (r: String)
    ensures
        r@ == join(texts(parts@), sep@),
{
    let mut out = String::new();
    for i in 0..parts.len()
        invariant
            out@ == join(texts(parts@).take(i as int), sep@),
    {
        if i > 0 {
            out.append(sep);
        }
        out.append(parts[i].as_str());
        proof {
            let t = texts(parts@).take(i + 1);
            assert(t.drop_last() =~= texts(parts@).take(i as int));
            assert(t.last() == parts@[i as int]@);
            if i == 0 {
                assert(out@ =~= t[0]);
            } else {
                assert(out@ =~= join(t, sep@));
            }
        }
    }
    assert(texts(parts@).take(parts@.len() as int) =~= texts(parts@));
    out
}

/// Index of the first occurrence of `p` at or after `i`, or the length.
pub open spec fn sub_from(s: Seq<char>, p: Seq<char>, i: int) -> int
    decreases s.len() - i,
{
    if i >= s.len() {
        s.len() as int
    } else if i + p.len() <= s.len() && s.subrange(i, i + p.len()) == p {
        i
    } else {
        sub_from(s, p, i + 1)
    }
}

pub proof fn lemma_sub_shift(s: Seq<char>, p: Seq<char>, at: int, i: int)
    requires
        0 <= at <= i <= s.len(),
    ensures
        sub_from(s.skip(at), p, i - at) == sub_from(s, p, i) - at,
        i <= sub_from(s, p, i) <= s.len(),
        sub_from(s, p, i) < s.len() ==> sub_from(s, p, i) + p.len() <= s.len(),
    decreases s.len() - i,
{
    if i < s.len() {
        if i + p.len() <= s.len() {
            assert(s.skip(at).subrange(i - at, i - at + p.len()) =~= s.subrange(i, i + p.len()));
        }
        lemma_sub_shift(s, p, at, i + 1);
    }
}

/// The pieces between the occurrences of `p` (which is not empty), found from
/// left to right.
pub open spec fn split_by(s: Seq<char>, p: Seq<char>) -> Seq<Seq<char>>
    decreases s.len(),
{
    let k = sub_from(s, p, 0);
    if p.len() == 0 || k < 0 || k >= s.len() || k + p.len() > s.len() {
        seq![s]
    } else {
        seq![s.take(k)] + split_by(s.skip(k + p.len()), p)
    }
}

pub fn find_sub(v: &Vec<char>, p: &Vec<char>, from: usize) -> (r: usize)
    requires
        from <= v@.len(),
    ensures
        r == sub_from(v@, p@, from as int),
        from <= r <= v@.len(),
{
    let mut i: usize = from;
    while i < v.len()
        invariant
            from <= i <= v@.len(),
            sub_from(v@, p@, from as int) == sub_from(v@, p@, i as int),
        decreases v@.len() - i,
    {
        if spells(v, i, p) {
            return i;
        }
        i += 1;
    }
    i
}

pub fn split_on_str(v: &Vec<char>, p: &str) -> (r: Vec<Vec<char>>)
    requires
        p@.len() > 0,
    ensures
        views(r@) == split_by(v@, p@),
{
    let t = chars_of(p);
    let mut out: Vec<Vec<char>> = Vec::new();
    let mut at: usize = 0;
    assert(v@.skip(0) =~= v@);
    loop
        invariant
            t@ == p@,
            p@.len() > 0,
            at <= v@.len(),
            views(out@) + split_by(v@.skip(at as int), p@) == split_by(v@, p@),
        decreases v@.len() + 1 - at,
    {
        let ghost rest = v@.skip(at as int);
        let k = find_sub(v, &t, at);
        proof {
            lemma_sub_shift(v@, t@, at as int, at as int);
        }
        let ghost before = out@;
        if k >= v.len() {
            let piece = slice(v, at, v.len());
            assert(piece@ =~= rest);
            out.push(piece);
            assert(views(out@) =~= views(before) + seq![rest]);
            return out;
        }
        let piece = slice(v, at, k);
        out.push(piece);
        assert(views(out@) =~= views(before).push(piece@));
        assert(piece@ =~= rest.take(k - at));
        let next: usize = k + t.len();
        assert(rest.skip(k - at + p@.len()) =~= v@.skip(next as int));
        assert(views(out@) + split_by(v@.skip(next as int), p@) =~= views(before) + (seq![piece@] + split_by(
            v@.skip(next as int),
            p@,
        )));
        at = next;
    }
}

/// Copy of a list of strings.
pub fn copy_texts(v: &Vec<String>) -> (r: Vec<String>)
    ensures
        texts(r@) == texts(v@),
        r@.len() == v@.len(),
{
    let mut out: Vec<String> = Vec::new();
    for i in 0..v.len()
        invariant
            texts(out@) == texts(v@).take(i as int),
    {
        let ghost before = out@;
        let c = v[i].clone();
        out.push(c);
        assert(texts(out@) =~= texts(before).push(c@));
        assert(texts(out@) =~= texts(v@).take(i + 1));
    }
    assert(texts(out@) =~= texts(v@));
    assert(texts(out@).len() == out@.len());
    out
}

/// A text begins so exactly if something follows that completes it.
pub proof fn lemma_starts(p: Seq<char>, x: Seq<char>)
    ensures
        starts(p + x, p),
        (p + x).skip(p.len() as int) == x,
        forall|s: Seq<char>| #[trigger] starts(s, p) ==> s == p + s.skip(p.len() as int),
{
    assert((p + x).subrange(0, p.len() as int) =~= p);
    assert((p + x).skip(p.len() as int) =~= x);
    assert forall|s: Seq<char>| #[trigger] starts(s, p) implies s == p + s.skip(p.len() as int) by {
        assert(s =~= s.subrange(0, p.len() as int) + s.skip(p.len() as int));
    }
}

/// A text ends so exactly if something precedes that completes it.
pub proof fn lemma_ends(x: Seq<char>, p: Seq<char>)
    ensures
        ends(x + p, p),
        (x + p).take(x.len() as int) == x,
        forall|s: Seq<char>| #[trigger] ends(s, p) ==> s == s.take(s.len() - p.len()) + p,
{
    assert((x + p).subrange(x.len() as int, (x + p).len() as int) =~= p);
    assert((x + p).take(x.len() as int) =~= x);
    assert forall|s: Seq<char>| #[trigger] ends(s, p) implies s == s.take(s.len() - p.len()) + p by {
        assert(s =~= s.take(s.len() - p.len()) + s.subrange(s.len() - p.len(), s.len() as int));
    }
}

/// A line end cuts a text in two: the lines before it are those of what stands
/// before, and the lines behind it those of what stands behind. A carriage
/// return before the line end belongs to it.
pub proof fn law_lines_are_cut_at_line_ends(a: Seq<char>, b: Seq<char>)
    requires
        !a.contains('\n'),
    ensures
        lines(a + seq!['\n'] + b) == seq![if a.len() > 0 && a.last() == '\r' { a.drop_last() } else { a }] + lines(b),
        a.len() > 0 ==> lines(a) == seq![a],
        lines(Seq::<char>::empty()) == Seq::<Seq<char>>::empty(),
{
    let s = a + seq!['\n'] + b;
    lemma_index_from(s, '\n', 0);
    lemma_index_from(a, '\n', 0);
    let k = index_from(s, '\n', 0);
    assert(s[a.len() as int] == '\n');
    assert(k <= a.len());
    if k < a.len() {
        assert(s[k] == a[k]);
        assert(a.contains(a[k]));
    }
    assert(s.take(k) =~= a);
    assert(s.skip(k + 1) =~= b);
    let m = index_from(a, '\n', 0);
    if m < a.len() {
        assert(a.contains(a[m]));
    }
}

/// A separator cuts a text in two.
pub proof fn law_parts_are_cut_at_separators(a: Seq<char>, d: char, b: Seq<char>)
    requires
        !a.contains(d),
    ensures
        split(a + seq![d] + b, d) == seq![a] + split(b, d),
        split(a, d) == seq![a],
{
    let s = a + seq![d] + b;
    lemma_index_from(s, d, 0);
    lemma_index_from(a, d, 0);
    let k = index_from(s, d, 0);
    assert(s[a.len() as int] == d);
    if k < a.len() {
        assert(s[k] == a[k]);
        assert(a.contains(a[k]));
    }
    assert(s.take(k) =~= a);
    assert(s.skip(k + 1) =~= b);
    let m = index_from(a, d, 0);
    if m < a.len() {
        assert(a.contains(a[m]));
    }
}

proof fn lemma_space_from(s: Seq<char>, want: bool, i: int)
    requires
        0 <= i <= s.len(),
    ensures
        i <= space_from(s, want, i) <= s.len(),
        forall|j: int| i <= j < space_from(s, want, i) ==> is_space(#[trigger] s[j]) != want,
        space_from(s, want, i) < s.len() ==> is_space(s[space_from(s, want, i)]) == want,
    decreases s.len() - i,
{
    if i < s.len() && is_space(s[i]) != want {
        lemma_space_from(s, want, i + 1);
    }
}

/// A word is what stands between white space: it is the first one of a text
/// that begins with white space and the word and goes on with a blank.
pub proof fn law_words_stand_between_blanks(lead: Seq<char>, w: Seq<char>, rest: Seq<char>)
    requires
        forall|i: int| 0 <= i < lead.len() ==> is_space(#[trigger] lead[i]),
        w.len() > 0,
        forall|i: int| 0 <= i < w.len() ==> !is_space(#[trigger] w[i]),
        rest.len() > 0 ==> is_space(rest[0]),
    ensures
        words(lead + w + rest) == seq![w] + words(rest),
        forall|t: Seq<char>| (forall|i: int| 0 <= i < t.len() ==> is_space(#[trigger] t[i])) ==> #[trigger] words(t) == Seq::<Seq<char>>::empty(),
{
    let s = lead + w + rest;
    let n = lead.len() as int;
    lemma_space_from(s, false, 0);
    let i = space_from(s, false, 0);
    assert(s[n] == w[0]);
    assert(i == n) by {
        if i < n {
            assert(s[i] == lead[i]);
        }
        if i > n {
            assert(is_space(s[n]) != false);
        }
    }
    lemma_space_from(s, true, i);
    let j = space_from(s, true, i);
    assert(j == n + w.len()) by {
        if j < n + w.len() {
            assert(s[j] == w[j - n]);
        }
        if j > n + w.len() {
            assert(s[n + w.len()] == rest[0]);
        }
    }
    assert(s.subrange(i, j) =~= w);
    assert(s.skip(j) =~= rest);
    assert forall|t: Seq<char>| (forall|i: int| 0 <= i < t.len() ==> is_space(#[trigger] t[i])) implies #[trigger] words(t) == Seq::<
        Seq<char>,
    >::empty() by {
        lemma_space_from(t, false, 0);
        let k = space_from(t, false, 0);
        if k < t.len() {
            assert(is_space(t[k]));
        }
    }
}

proof fn lemma_trim_end(s: Seq<char>, tail: Seq<char>)
    requires
        s.len() == 0 || !is_space(s.last()),
        forall|i: int| 0 <= i < tail.len() ==> is_space(#[trigger] tail[i]),
    ensures
        trim_end(s + tail) == s,
    decreases tail.len(),
{
    if tail.len() == 0 {
        assert(s + tail =~= s);
    } else {
        assert((s + tail).drop_last() =~= s + tail.drop_last());
        assert((s + tail).last() == tail[tail.len() - 1]);
        lemma_trim_end(s, tail.drop_last());
    }
}

/// Trimming takes the white space off both ends, and nothing else.
pub proof fn law_trim_takes_the_white_space_off(lead: Seq<char>, s: Seq<char>, tail: Seq<char>)
    requires
        forall|i: int| 0 <= i < lead.len() ==> is_space(#[trigger] lead[i]),
        forall|i: int| 0 <= i < tail.len() ==> is_space(#[trigger] tail[i]),
        s.len() > 0,
        !is_space(s[0]),
        !is_space(s.last()),
    ensures
        trim(lead + s + tail) == s,
{
    let t = lead + s + tail;
    let n = lead.len() as int;
    lemma_space_from(t, false, 0);
    let i = space_from(t, false, 0);
    assert(t[n] == s[0]);
    assert(i == n) by {
        if i < n {
            assert(t[i] == lead[i]);
        }
        if i > n {
            assert(is_space(t[n]) != false);
        }
    }
    assert(t.skip(n) =~= s + tail);
    lemma_trim_end(s, tail);
}

/// Joined texts: one is itself, and each further one comes behind a separator.
pub proof fn law_joined_texts_follow_each_other(parts: Seq<Seq<char>>, x: Seq<char>, sep: Seq<char>)
    requires
        parts.len() > 0,
    ensures
        join(parts.push(x), sep) == join(parts, sep) + sep + x,
        join(seq![x], sep) == x,
        join(Seq::<Seq<char>>::empty(), sep) == Seq::<char>::empty(),
{
    assert(parts.push(x).drop_last() =~= parts);
}

pub proof fn lemma_digit_char(c: char)
    ensures
        is_digit(c) == ('0' <= c <= '9'),
        is_alpha(c) == ('a' <= c <= 'z' || 'A' <= c <= 'Z'),
{
}

/// Of the ASCII characters, white space is the blank, the tab, and the line and
/// page ends.
pub proof fn law_ascii_white_space(c: char)
    requires
        (c as u32) < 128,
    ensures
        is_space(c) <==> c == ' ' || c == '\t' || c == '\n' || c == '\r' || c as u32 == 11 || c as u32 == 12,
        is_digit(c) <==> '0' <= c <= '9',
        is_alpha(c) <==> 'a' <= c <= 'z' || 'A' <= c <= 'Z',
{
}

/// `p` stands at position `k` of `s`.
pub open spec fn stands_at(s: Seq<char>, p: Seq<char>, k: int) -> bool {
    0 <= k && k + p.len() <= s.len() && s.subrange(k, k + p.len()) == p
}

proof fn lemma_sub_from(s: Seq<char>, p: Seq<char>, i: int)
    requires
        0 <= i <= s.len(),
        p.len() > 0,
    ensures
        i <= sub_from(s, p, i) <= s.len(),
        sub_from(s, p, i) < s.len() ==> stands_at(s, p, sub_from(s, p, i)),
        forall|k: int| i <= k < sub_from(s, p, i) ==> !#[trigger] stands_at(s, p, k),
    decreases s.len() - i,
{
    if i < s.len() {
        lemma_sub_from(s, p, i + 1);
    }
}

/// A text is cut at each place where another one stands: what is before the
/// first place is the first piece, and the pieces of the rest follow.
pub proof fn law_pieces_are_cut_at_texts(a: Seq<char>, p: Seq<char>, b: Seq<char>)
    requires
        p.len() > 0,
        forall|k: int| 0 <= k < a.len() ==> !#[trigger] stands_at(a + p + b, p, k),
    ensures
        split_by(a + p + b, p) == seq![a] + split_by(b, p),
        (forall|k: int| !#[trigger] stands_at(a, p, k)) ==> split_by(a, p) == seq![a],
{
    let s = a + p + b;
    lemma_sub_from(s, p, 0);
    lemma_sub_from(a, p, 0);
    assert(s.subrange(a.len() as int, a.len() as int + p.len()) =~= p);
    assert(stands_at(s, p, a.len() as int));
    let k = sub_from(s, p, 0);
    assert(k == a.len());
    assert(s.take(k) =~= a);
    assert(s.skip(k + p.len()) =~= b);
}

/// Case is changed of the ASCII letters, and of nothing else.
pub proof fn law_case_is_that_of_ascii_letters(c: char)
    ensures
        'A' <= c <= 'Z' ==> lower(c) as u32 == c as u32 + 32,
        !('A' <= c <= 'Z') ==> lower(c) == c,
        'a' <= c <= 'z' ==> upper(c) as u32 == c as u32 - 32,
        !('a' <= c <= 'z') ==> upper(c) == c,
{
}

} // verus!
