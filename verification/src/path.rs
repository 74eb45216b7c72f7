//! File system paths as raw bytes, read component by component.

use vstd::prelude::*;
use vstd::utf8::{decode_utf8, encode_utf8, valid_utf8};

use crate::order::{
    byte_lt, bytes_precede, lemma_byte_lt, lemma_lex_irreflexive, lemma_lex_total, lemma_lex_transitive, lex, strict_total,
};

verus! {

/// A Unix path: any bytes, separated by slashes.
#[derive(Debug)]
pub struct FsPath {
    pub bytes: Vec<u8>,
}

impl View for FsPath {
    type V = Seq<u8>;

    open spec fn view(&self) -> Seq<u8> {
        self.bytes@
    }
}

/// The text that stands for bytes that are not well-formed UTF-8: each ill-formed
/// part is replaced by U+FFFD.
pub uninterp spec fn patched_text(bytes: Seq<u8>) -> Seq<char>;

/// The text that a byte string is shown as.
pub open spec fn lossy_text(bytes: Seq<u8>) -> Seq<char> {
    if valid_utf8(bytes) {
        decode_utf8(bytes)
    } else {
        patched_text(bytes)
    }
}

/// `String::from_utf8_lossy`: well-formed UTF-8 is decoded as it stands. What
/// stands for ill-formed bytes is only named, not spelled out.
#[verifier::external_body]
pub(crate) fn utf8_lossy(bytes: &Vec<u8>) -> (r: String)
    ensures
        valid_utf8(bytes@) ==> r@ == decode_utf8(bytes@),
        !valid_utf8(bytes@) ==> r@ == patched_text(bytes@),
{
    String::from_utf8_lossy(bytes).into_owned()
}

/// `std::str::from_utf8`: succeeds on well-formed UTF-8 alone, and gives the
/// text that the bytes encode.
#[verifier::external_body]
pub(crate) fn utf8_exact(bytes: &Vec<u8>) -> (r: Option<String>)
    ensures
        r is Some <==> valid_utf8(bytes@),
        r matches Some(s) ==> s@ == decode_utf8(bytes@),
{
    std::str::from_utf8(bytes).ok().map(String::from)
}

/// The bytes of a list of names.
pub open spec fn names_view(v: Seq<Vec<u8>>) -> Seq<Seq<u8>> {
    Seq::new(v.len(), |i: int| v[i]@)
}

/// The bytes of a list of paths.
pub open spec fn paths_view(v: Seq<FsPath>) -> Seq<Seq<u8>> {
    Seq::new(v.len(), |i: int| v[i]@)
}

/// Index of the first slash at or after `i`, or the length.
pub open spec fn slash_from(b: Seq<u8>, i: int) -> int
    decreases b.len() - i,
{
    if i >= b.len() {
        b.len() as int
    } else if b[i] == 47 {
        i
    } else {
        slash_from(b, i + 1)
    }
}

pub proof fn lemma_slash_from(b: Seq<u8>, i: int)
    requires
        0 <= i <= b.len(),
    ensures
        i <= slash_from(b, i) <= b.len(),
        forall|j: int| i <= j < slash_from(b, i) ==> b[j] != 47,
        slash_from(b, i) < b.len() ==> b[slash_from(b, i)] == 47,
    decreases b.len() - i,
{
    if i < b.len() && b[i] != 47 {
        lemma_slash_from(b, i + 1);
    }
}

proof fn lemma_slash_shift(b: Seq<u8>, at: int, i: int)
    requires
        0 <= at <= i <= b.len(),
    ensures
        slash_from(b.skip(at), i - at) == slash_from(b, i) - at,
    decreases b.len() - i,
{
    if i < b.len() && b[i] != 47 {
        lemma_slash_shift(b, at, i + 1);
    }
}

/// Does the piece between two slashes name a component? Empty pieces do not,
/// and `.` does so only at the start of a relative path.
pub open spec fn counts(piece: Seq<u8>, first: bool) -> bool {
    piece.len() > 0 && (first || piece != seq![46u8])
}

/// The named components of a path, or of what follows a slash in one.
pub open spec fn names(b: Seq<u8>, first: bool) -> Seq<Seq<u8>>
    decreases b.len(),
{
    if b.len() == 0 {
        Seq::empty()
    } else {
        let k = slash_from(b, 0);
        let head = if counts(b.take(k), first) {
            seq![b.take(k)]
        } else {
            Seq::empty()
        };
        if k < 0 || k >= b.len() {
            head
        } else {
            head + names(b.skip(k + 1), false)
        }
    }
}

pub open spec fn absolute(b: Seq<u8>) -> bool {
    b.len() > 0 && b[0] == 47
}

/// What the root directory stands for in a list of components.
pub open spec fn root_comp() -> Seq<u8> {
    seq![47u8]
}

/// The components of a path: the root (if it is absolute), then the names.
pub open spec fn comps(b: Seq<u8>) -> Seq<Seq<u8>> {
    if absolute(b) {
        seq![root_comp()] + names(b, true)
    } else {
        names(b, true)
    }
}

/// `base` holds `p`, or is it: component by component.
pub open spec fn inside(p: Seq<u8>, base: Seq<u8>) -> bool {
    comps(base).is_prefix_of(comps(p))
}

/// The same place, however it is spelled.
pub open spec fn same_path(a: Seq<u8>, b: Seq<u8>) -> bool {
    comps(a) == comps(b)
}

/// `base` extended by `rel`; an absolute `rel` takes its place.
pub open spec fn join_bytes(base: Seq<u8>, rel: Seq<u8>) -> Seq<u8> {
    if absolute(rel) {
        rel
    } else if base.len() > 0 && base.last() != 47 {
        base.push(47u8) + rel
    } else {
        base + rel
    }
}

/// A single name as directories list it.
pub open spec fn plain_name(n: Seq<u8>) -> bool {
    &&& n.len() > 0
    &&& n != seq![46u8]
    &&& n != seq![46u8, 46u8]
    &&& forall|i: int| 0 <= i < n.len() ==> n[i] != 47
}

fn same_bytes(a: &Vec<u8>, b: &Vec<u8>) -> (r: bool)
    ensures
        r == (a@ == b@),
{
    if a.len() != b.len() {
        return false;
    }
    for i in 0..a.len()
        invariant
            a@.len() == b@.len(),
            a@.take(i as int) == b@.take(i as int),
    {
        if a[i] != b[i] {
            assert(a@[i as int] != b@[i as int]);
            return false;
        }
        assert(a@.take(i + 1) =~= b@.take(i + 1));
    }
    assert(a@.take(a@.len() as int) =~= a@);
    assert(b@.take(b@.len() as int) =~= b@);
    true
}

/// Are two names the same bytes?
pub fn same_name(a: &Vec<u8>, b: &Vec<u8>) -> (r: bool)
    ensures
        r == (a@ == b@),
{
    same_bytes(a, b)
}

/// Copy of a name.
pub fn copy_name(v: &Vec<u8>) -> (r: Vec<u8>)
    ensures
        r@ == v@,
{
    byte_range(v, 0, v.len())
}

fn byte_range(v: &Vec<u8>, from: usize, to: usize) -> (r: Vec<u8>)
    requires
        from <= to <= v@.len(),
    ensures
        r@ == v@.subrange(from as int, to as int),
{
    let mut out: Vec<u8> = Vec::new();
    for i in from..to
        invariant
            from <= to <= v@.len(),
            out@ == v@.subrange(from as int, i as int),
    {
        out.push(v[i]);
        assert(out@ =~= v@.subrange(from as int, i + 1));
    }
    out
}

/// The bytes of a text.
pub fn bytes_of(s: &str) -> (r: Vec<u8>)
    ensures
        r@ == encode_utf8(s@),
{
    let b = s.as_bytes();
    let mut out: Vec<u8> = Vec::new();
    for i in 0..b.len()
        invariant
            out@ == b@.take(i as int),
    {
        out.push(b[i]);
        assert(out@ =~= b@.take(i + 1));
    }
    assert(out@ =~= b@);
    out
}

impl Clone for FsPath {
    fn clone(&self) -> (r: Self)
        ensures
            r@ == self@,
    {
        FsPath { bytes: copy_name(&self.bytes) }
    }
}

impl FsPath {
    /// The path that a text spells.
    pub fn new(s: &str) -> (r: FsPath)
        ensures
            r@ == encode_utf8(s@),
    {
        FsPath { bytes: bytes_of(s) }
    }

    pub fn from_bytes(bytes: Vec<u8>) -> (r: FsPath)
        ensures
            r@ == bytes@,
    {
        FsPath { bytes }
    }

    /// The path as text, if it is well-formed UTF-8.
    pub fn to_str(&self) -> (r: Option<String>)
        ensures
            r is Some <==> valid_utf8(self@),
            r matches Some(s) ==> s@ == decode_utf8(self@),
    {
        utf8_exact(&self.bytes)
    }

    /// The path for display.
    pub fn display(&self) -> (r: String)
        ensures
            r@ == lossy_text(self@),
            valid_utf8(self@) ==> r@ == decode_utf8(self@),
    {
        utf8_lossy(&self.bytes)
    }

    pub fn is_absolute(&self) -> (r: bool)
        ensures
            r == absolute(self@),
    {
        self.bytes.len() > 0 && self.bytes[0] == 47
    }

    /// The components in order.
    pub fn components(&self) -> (r: Vec<Vec<u8>>)
        ensures
            names_view(r@) == comps(self@),
    {
        let b = &self.bytes;
        let mut out: Vec<Vec<u8>> = Vec::new();
        if self.is_absolute() {
            let mut root: Vec<u8> = Vec::new();
            root.push(47u8);
            assert(root@ =~= root_comp());
            out.push(root);
            assert(names_view(out@) =~= seq![root_comp()]);
        }
        let ghost lead = names_view(out@);
        let mut at: usize = 0;
        assert(b@.skip(0) =~= b@);
        assert(lead + names(b@, true) =~= comps(self@));
        while at < b.len()
            invariant
                at <= b@.len(),
                names_view(out@) + names(b@.skip(at as int), at == 0) == comps(self@),
                b@ == self@,
            decreases b@.len() - at,
        {
            let ghost rest = b@.skip(at as int);
            let mut k: usize = at;
            while k < b.len() && b[k] != 47
                invariant
                    at <= k <= b@.len(),
                    slash_from(b@, at as int) == slash_from(b@, k as int),
                decreases b@.len() - k,
            {
                k += 1;
            }
            proof {
                lemma_slash_shift(b@, at as int, at as int);
            }
            let ghost before = out@;
            assert(rest.take(k - at) =~= b@.subrange(at as int, k as int));
            let dot = k - at == 1 && b[at] == 46;
            assert(dot == (rest.take(k - at) == seq![46u8])) by {
                if dot {
                    assert(rest.take(k - at) =~= seq![46u8]);
                }
            }
            let keep = k > at && (at == 0 || !dot);
            if keep {
                out.push(byte_range(b, at, k));
                assert(names_view(out@) =~= names_view(before) + seq![rest.take(k - at)]);
            } else {
                assert(names_view(out@) =~= names_view(before) + Seq::<Seq<u8>>::empty());
            }
            if k >= b.len() {
                return out;
            }
            assert(rest.skip(k - at + 1) =~= b@.skip(k + 1));
            proof {
                let head = if counts(rest.take(k - at), at == 0) { seq![rest.take(k - at)] } else { Seq::empty() };
                assert(names(rest, at == 0) == head + names(b@.skip(k + 1), false));
                assert(names_view(out@) + names(b@.skip(k + 1), false) =~= names_view(before) + (head + names(b@.skip(k + 1), false)));
            }
            at = k + 1;
        }
        assert(names_view(out@) + Seq::<Seq<u8>>::empty() =~= names_view(out@));
        out
    }

    /// Is this the same place as `other`?
    pub fn same(&self, other: &FsPath) -> (r: bool)
        ensures
            r == same_path(self@, other@),
    {
        let a = self.components();
        let b = other.components();
        proof {
            let (x, y) = (names_view(a@), names_view(b@));
            assert(x.subrange(0, x.len() as int) =~= x);
        }
        a.len() == b.len() && leads(&b, &a)
    }

    /// Is this the place that `s` spells?
    pub fn is(&self, s: &str) -> (r: bool)
        ensures
            r == same_path(self@, encode_utf8(s@)),
    {
        self.same(&FsPath::new(s))
    }

    /// Is this `base`, or inside it?
    pub fn starts_with(&self, base: &FsPath) -> (r: bool)
        ensures
            r == inside(self@, base@),
    {
        leads(&base.components(), &self.components())
    }

    /// Does a `..` occur in the path?
    pub fn climbs(&self) -> (r: bool)
        ensures
            r == comps(self@).contains(seq![46u8, 46u8]),
    {
        let c = self.components();
        for i in 0..c.len()
            invariant
                names_view(c@) == comps(self@),
                forall|j: int| 0 <= j < i ==> comps(self@)[j] != seq![46u8, 46u8],
        {
            let n = &c[i];
            if n.len() == 2 && n[0] == 46 && n[1] == 46 {
                assert(n@ =~= seq![46u8, 46u8]);
                assert(comps(self@)[i as int] == n@);
                return true;
            }
            assert(comps(self@)[i as int] == n@);
        }
        false
    }

    /// This path extended by another.
    pub fn join(&self, rel: &FsPath) -> (r: FsPath)
        ensures
            r@ == join_bytes(self@, rel@),
    {
        self.join_name(&rel.bytes)
    }

    /// This path extended by a name.
    pub fn join_name(&self, rel: &Vec<u8>) -> (r: FsPath)
        ensures
            r@ == join_bytes(self@, rel@),
    {
        if rel.len() > 0 && rel[0] == 47 {
            return FsPath { bytes: copy_name(rel) };
        }
        let mut out = copy_name(&self.bytes);
        if out.len() > 0 && out[out.len() - 1] != 47 {
            out.push(47u8);
        }
        let ghost base = out@;
        for i in 0..rel.len()
            invariant
                out@ == base + rel@.take(i as int),
        {
            out.push(rel[i]);
            assert(out@ =~= base + rel@.take(i + 1));
        }
        assert(rel@.take(rel@.len() as int) =~= rel@);
        FsPath { bytes: out }
    }

    /// This path extended by the path that a text spells.
    pub fn join_str(&self, rel: &str) -> (r: FsPath)
        ensures
            r@ == join_bytes(self@, encode_utf8(rel@)),
    {
        self.join_name(&bytes_of(rel))
    }

    /// The last component, unless it is the root, `.` or `..`.
    pub fn file_name(&self) -> (r: Option<Vec<u8>>)
        ensures
            r is Some <==> named(self@),
            r matches Some(n) ==> n@ == comps(self@).last(),
    {
        let mut c = self.components();
        if c.len() == 0 {
            return None;
        }
        let n = copy_name(&c[c.len() - 1]);
        proof {
            assert(names_view(c@).last() == n@);
            assert(n@ =~= root_comp() <==> (n@.len() == 1 && n@[0] == 47));
            assert(n@ =~= seq![46u8] <==> (n@.len() == 1 && n@[0] == 46));
            assert(n@ =~= seq![46u8, 46u8] <==> (n@.len() == 2 && n@[0] == 46 && n@[1] == 46));
        }
        if n.len() == 1 && (n[0] == 46 || n[0] == 47) {
            return None;
        }
        if n.len() == 2 && n[0] == 46 && n[1] == 46 {
            return None;
        }
        Some(n)
    }

    /// The path without its last component.
    pub fn parent(&self) -> (r: Option<FsPath>)
        ensures
            r is Some <==> comps(self@).len() > 0 && comps(self@).last() != root_comp(),
            r matches Some(p) ==> comps(p@) == comps(self@).drop_last(),
    {
        let c = self.components();
        proof {
            lemma_root_only(self@);
        }
        if c.len() == 0 || (c.len() == 1 && self.is_absolute()) {
            return None;
        }
        proof {
            let l = names_view(c@).last();
            assert(l == comps(self@)[comps(self@).len() - 1]);
        }
        let start: usize = if self.is_absolute() { 1 } else { 0 };
        let mut out = FsPath { bytes: Vec::new() };
        if start == 1 {
            out.bytes.push(47u8);
            assert(out@ =~= seq![47u8]);
            proof { lemma_root_path(); }
        } else {
            assert(comps(out@) =~= Seq::empty());
        }
        assert(comps(out@) =~= comps(self@).take(start as int));
        assert forall|j: int| start <= j < c@.len() implies #[trigger] c@[j]@ == names(self@, true)[j - start] by {
            assert(names_view(c@)[j] == c@[j]@);
            assert(comps(self@)[j] == names(self@, true)[j - start]);
        }
        assert(names_view(c@).len() == c@.len());
        for i in start..(c.len() - 1)
            invariant
                names_view(c@) == comps(self@),
                start == (if absolute(self@) { 1int } else { 0int }),
                c@.len() >= 1,
                c@.len() == names(self@, true).len() + start,
                forall|j: int| start <= j < c@.len() ==> #[trigger] c@[j]@ == names(self@, true)[j - start],
                start <= i <= c@.len() - 1,
                comps(out@) == comps(self@).take(i as int),
                i > 0 ==> out@.len() > 0,
                i == 0 ==> out@.len() == 0,
        {
            proof {
                assert(comps(self@)[i as int] == c@[i as int]@);
                lemma_names_fit(self@, true, i - start);
                lemma_join_comps(out@, c@[i as int]@);
                assert(comps(self@).take(i as int).push(c@[i as int]@) =~= comps(self@).take(i + 1));
            }
            out = out.join_name(&c[i]);
        }
        assert(comps(self@).take(c@.len() - 1) =~= comps(self@).drop_last());
        Some(out)
    }
}

/// The path ends in a name of its own.
pub open spec fn named(b: Seq<u8>) -> bool {
    let c = comps(b);
    c.len() > 0 && c.last() != root_comp() && c.last() != seq![46u8] && c.last() != seq![46u8, 46u8]
}

proof fn lemma_root_path()
    ensures
        comps(seq![47u8]) == seq![root_comp()],
{
    let b = seq![47u8];
    lemma_slash_unique(b, 0);
    assert(b.take(0) =~= Seq::empty());
    assert(b.skip(1) =~= Seq::empty());
    assert(names(b.skip(1), false) =~= Seq::empty());
    assert(names(b, true) =~= Seq::empty());
    assert(comps(b) =~= seq![root_comp()]);
}

/// The root occurs only as the first component of an absolute path.
pub proof fn lemma_root_only(b: Seq<u8>)
    ensures
        forall|i: int| 0 <= i < comps(b).len() ==> (#[trigger] comps(b)[i] == root_comp() <==> (i == 0 && absolute(b))),
{
    assert forall|i: int| 0 <= i < comps(b).len() implies (#[trigger] comps(b)[i] == root_comp() <==> (i == 0
        && absolute(b))) by {
        let start: int = if absolute(b) { 1 } else { 0 };
        if i >= start {
            lemma_names_fit(b, true, i - start);
            assert(comps(b)[i] == names(b, true)[i - start]);
            if comps(b)[i] == root_comp() {
                assert(comps(b)[i][0] == 47);
            }
        }
    }
}

/// Two pieces of a path with a slash between them hold the names of both.
pub proof fn lemma_names_concat(b: Seq<u8>, t: Seq<u8>, first: bool)
    ensures
        names(b.push(47u8) + t, first) == names(b, first) + names(t, false),
    decreases b.len(),
{
    let c = b.push(47u8) + t;
    lemma_slash_from(b, 0);
    lemma_slash_from(c, 0);
    let k = slash_from(b, 0);
    lemma_slash_unique(c, k);
    assert(c[k] == 47);
    assert(c.take(k) =~= b.take(k));
    let head = if counts(b.take(k), first) { seq![b.take(k)] } else { Seq::empty() };
    if k < b.len() {
        assert(c.skip(k + 1) =~= b.skip(k + 1).push(47u8) + t);
        lemma_names_concat(b.skip(k + 1), t, false);
        assert(names(c, first) == head + (names(b.skip(k + 1), false) + names(t, false)));
        assert(names(c, first) =~= names(b, first) + names(t, false));
    } else {
        assert(c.skip(k + 1) =~= t);
        assert(b.take(k) =~= b);
        if b.len() == 0 {
            assert(head =~= Seq::empty());
            assert(names(c, first) =~= names(t, false));
        }
        assert(names(c, first) =~= names(b, first) + names(t, false));
    }
}

proof fn lemma_slash_unique(b: Seq<u8>, k: int)
    requires
        0 <= k < b.len(),
        b[k] == 47,
        forall|j: int| 0 <= j < k ==> b[j] != 47,
    ensures
        slash_from(b, 0) == k,
{
    lemma_slash_from(b, 0);
}

/// A piece that can stand as a component behind `b`.
pub open spec fn fits(b: Seq<u8>, n: Seq<u8>) -> bool {
    &&& n.len() > 0
    &&& b.len() > 0 ==> n != seq![46u8]
    &&& forall|i: int| 0 <= i < n.len() ==> n[i] != 47
}

/// Joining a name to a path adds that one component.
pub proof fn lemma_join_comps(b: Seq<u8>, n: Seq<u8>)
    requires
        fits(b, n),
    ensures
        comps(join_bytes(b, n)) == comps(b).push(n),
        absolute(join_bytes(b, n)) == absolute(b),
        join_bytes(b, n).len() > 0,
{
    let first = b.len() == 0;
    lemma_slash_from(n, 0);
    assert(slash_from(n, 0) == n.len());
    assert(n.take(n.len() as int) =~= n);
    assert(names(n, first) =~= seq![n]);
    if b.len() == 0 {
        assert(b + n =~= n);
        assert(comps(b).push(n) =~= seq![n]);
    } else if b.last() != 47 {
        lemma_names_concat(b, n, true);
        assert(comps(join_bytes(b, n)) =~= comps(b).push(n));
    } else {
        let h = b.drop_last();
        assert(h.push(47u8) =~= b);
        assert(h.push(47u8) + Seq::<u8>::empty() =~= b);
        lemma_names_concat(h, n, true);
        lemma_names_concat(h, Seq::empty(), true);
        assert(names(Seq::<u8>::empty(), false) =~= Seq::empty());
        assert(names(h, true) + Seq::<Seq<u8>>::empty() =~= names(h, true));
        assert(names(b, true) == names(h, true));
        assert(comps(join_bytes(b, n)) =~= comps(b).push(n));
    }
}

/// Every named component is a non-empty piece without a slash, and `.` is one
/// only at the start of a relative path.
pub proof fn lemma_names_fit(b: Seq<u8>, first: bool, i: int)
    requires
        0 <= i < names(b, first).len(),
    ensures
        names(b, first)[i].len() > 0,
        forall|j: int| 0 <= j < names(b, first)[i].len() ==> names(b, first)[i][j] != 47,
        names(b, first)[i] == seq![46u8] ==> i == 0 && first && !absolute(b),
    decreases b.len(),
{
    lemma_slash_from(b, 0);
    let k = slash_from(b, 0);
    let head = if counts(b.take(k), first) { seq![b.take(k)] } else { Seq::empty() };
    if i < head.len() {
        assert(names(b, first)[i] == b.take(k));
    } else if k < b.len() {
        assert(names(b, first)[i] == names(b.skip(k + 1), false)[i - head.len()]);
        lemma_names_fit(b.skip(k + 1), false, i - head.len());
    }
}

/// Is `a` a prefix of `b`?
pub(crate) fn leads(a: &Vec<Vec<u8>>, b: &Vec<Vec<u8>>) -> (r: bool)
    ensures
        r == names_view(a@).is_prefix_of(names_view(b@)),
{
    if a.len() > b.len() {
        return false;
    }
    for i in 0..a.len()
        invariant
            a@.len() <= b@.len(),
            forall|j: int| 0 <= j < i ==> names_view(a@)[j] == names_view(b@)[j],
    {
        if !same_bytes(&a[i], &b[i]) {
            assert(names_view(a@)[i as int] != names_view(b@)[i as int]);
            assert(names_view(b@).subrange(0, a@.len() as int)[i as int] == names_view(b@)[i as int]);
            return false;
        }
    }
    assert(names_view(a@) =~= names_view(b@).subrange(0, a@.len() as int));
    true
}

/// What is left of a path behind its first `n` names.
pub open spec fn behind(b: Seq<u8>, first: bool, n: nat) -> Seq<u8>
    decreases b.len(),
{
    let k = slash_from(b, 0);
    if n == 0 || b.len() == 0 {
        b
    } else if k < 0 || k >= b.len() {
        Seq::empty()
    } else {
        behind(b.skip(k + 1), false, if counts(b.take(k), first) { (n - 1) as nat } else { n })
    }
}

/// A remainder without the slashes and dots at its start that name nothing.
pub open spec fn trim_left(b: Seq<u8>) -> Seq<u8>
    decreases b.len(),
{
    let k = slash_from(b, 0);
    if b.len() == 0 || counts(b.take(k), false) {
        b
    } else if k < 0 || k >= b.len() {
        Seq::empty()
    } else {
        trim_left(b.skip(k + 1))
    }
}

/// Index just behind the last slash, or 0.
pub open spec fn after_slash(b: Seq<u8>) -> int
    decreases b.len(),
{
    if b.len() == 0 || b.last() == 47 {
        b.len() as int
    } else {
        after_slash(b.drop_last())
    }
}

/// A remainder without the slashes and dots at its end that name nothing.
pub open spec fn trim_right(b: Seq<u8>) -> Seq<u8>
    decreases b.len(),
{
    let j = after_slash(b);
    if b.len() == 0 || counts(b.skip(j), false) {
        b
    } else if j <= 0 || j > b.len() {
        Seq::empty()
    } else {
        trim_right(b.take(j - 1))
    }
}

/// The spelling of a path below the first `n` of its components: from the next
/// name to the last one, as it stands between them.
pub open spec fn below(b: Seq<u8>, n: nat) -> Seq<u8> {
    if n == 0 {
        let lead: int = if absolute(b) || (b.len() > 0 && b[0] == 46 && (b.len() == 1 || b[1] == 47)) { 1 } else { 0 };
        b.take(lead) + trim_right(b.skip(lead))
    } else if absolute(b) {
        trim_right(trim_left(behind(b, true, (n - 1) as nat)))
    } else {
        trim_right(trim_left(behind(b, true, n)))
    }
}

fn find_slash(b: &Vec<u8>, from: usize) -> (r: usize)
    requires
        from <= b@.len(),
    ensures
        r == slash_from(b@, from as int),
        r == from + slash_from(b@.skip(from as int), 0),
        from <= r <= b@.len(),
{
    let mut k: usize = from;
    while k < b.len() && b[k] != 47
        invariant
            from <= k <= b@.len(),
            slash_from(b@, from as int) == slash_from(b@, k as int),
        decreases b@.len() - k,
    {
        k += 1;
    }
    proof {
        lemma_slash_shift(b@, from as int, from as int);
    }
    k
}

/// Does the piece `from..to` name a component?
fn piece_counts(b: &Vec<u8>, from: usize, to: usize, first: bool) -> (r: bool)
    requires
        from <= to <= b@.len(),
    ensures
        r == counts(b@.subrange(from as int, to as int), first),
{
    let ghost p = b@.subrange(from as int, to as int);
    assert(p =~= seq![46u8] <==> (p.len() == 1 && p[0] == 46));
    to > from && (first || !(to - from == 1 && b[from] == 46))
}

fn skip_names(b: &Vec<u8>, n: usize) -> (r: usize)
    ensures
        r <= b@.len(),
        b@.skip(r as int) == behind(b@, true, n as nat),
{
    let mut at: usize = 0;
    let mut left: usize = n;
    assert(b@.skip(0) =~= b@);
    while left > 0 && at < b.len()
        invariant
            at <= b@.len(),
            behind(b@, true, n as nat) == behind(b@.skip(at as int), at == 0, left as nat),
        decreases b@.len() - at,
    {
        let k = find_slash(b, at);
        let named = piece_counts(b, at, k, at == 0);
        let ghost rest = b@.skip(at as int);
        assert(rest.take(k - at) =~= b@.subrange(at as int, k as int));
        if k >= b.len() {
            assert(b@.skip(b@.len() as int) =~= Seq::empty());
            return b.len();
        }
        assert(rest.skip(k - at + 1) =~= b@.skip(k + 1));
        at = k + 1;
        if named {
            left -= 1;
        }
    }
    at
}

fn left_edge(b: &Vec<u8>, from: usize) -> (r: usize)
    requires
        from <= b@.len(),
    ensures
        from <= r <= b@.len(),
        b@.skip(r as int) == trim_left(b@.skip(from as int)),
{
    let mut at: usize = from;
    while at < b.len()
        invariant
            from <= at <= b@.len(),
            trim_left(b@.skip(from as int)) == trim_left(b@.skip(at as int)),
        decreases b@.len() - at,
    {
        let k = find_slash(b, at);
        let ghost rest = b@.skip(at as int);
        assert(rest.take(k - at) =~= b@.subrange(at as int, k as int));
        if piece_counts(b, at, k, false) {
            return at;
        }
        if k >= b.len() {
            assert(b@.skip(b@.len() as int) =~= Seq::empty());
            return b.len();
        }
        assert(rest.skip(k - at + 1) =~= b@.skip(k + 1));
        at = k + 1;
    }
    at
}

fn right_edge(b: &Vec<u8>, from: usize) -> (r: usize)
    requires
        from <= b@.len(),
    ensures
        from <= r <= b@.len(),
        b@.subrange(from as int, r as int) == trim_right(b@.skip(from as int)),
{
    let mut to: usize = b.len();
    assert(b@.subrange(from as int, to as int) =~= b@.skip(from as int));
    while to > from
        invariant
            from <= to <= b@.len(),
            trim_right(b@.skip(from as int)) == trim_right(b@.subrange(from as int, to as int)),
        decreases to - from,
    {
        let ghost part = b@.subrange(from as int, to as int);
        let mut j: usize = to;
        assert(b@.subrange(from as int, j as int) =~= part);
        while j > from && b[j - 1] != 47
            invariant
                from <= j <= to <= b@.len(),
                after_slash(part) == after_slash(b@.subrange(from as int, j as int)),
            decreases j,
        {
            assert(b@.subrange(from as int, j as int).drop_last() =~= b@.subrange(from as int, j - 1));
            j -= 1;
        }
        assert(after_slash(part) == j - from);
        assert(part.skip(j - from) =~= b@.subrange(j as int, to as int));
        if piece_counts(b, j, to, false) {
            return to;
        }
        if j == from {
            assert(b@.subrange(from as int, from as int) =~= Seq::empty());
            return from;
        }
        assert(part.take(j - from - 1) =~= b@.subrange(from as int, j - 1));
        to = j - 1;
    }
    to
}

impl FsPath {
    /// What follows `base` in this path, if it is inside `base`.
    pub fn strip_prefix(&self, base: &FsPath) -> (r: Option<FsPath>)
        ensures
            r is Some <==> inside(self@, base@),
            r matches Some(x) ==> x@ == below(self@, comps(base@).len()),
    {
        let c = base.components();
        assert(names_view(c@).len() == c@.len());
        if !leads(&c, &self.components()) {
            return None;
        }
        let b = &self.bytes;
        let n: usize = c.len();
        if n == 0 {
            let lead: usize = if b.len() > 0 && (b[0] == 47 || (b[0] == 46 && (b.len() == 1 || b[1] == 47))) { 1 } else { 0 };
            let to = right_edge(b, lead);
            let out = byte_range(b, 0, to);
            assert(out@ =~= b@.take(lead as int) + b@.subrange(lead as int, to as int));
            return Some(FsPath { bytes: out });
        }
        let from = skip_names(b, if self.is_absolute() { n - 1 } else { n });
        let from2 = left_edge(b, from);
        let to = right_edge(b, from2);
        Some(FsPath { bytes: byte_range(b, from2, to) })
    }
}

impl PartialEq for FsPath {
    fn eq(&self, other: &Self) -> (r: bool)
    {
        self.same(other)
    }
}

impl vstd::std_specs::cmp::PartialEqSpecImpl for FsPath {
    open spec fn obeys_eq_spec() -> bool {
        true
    }

    open spec fn eq_spec(&self, other: &Self) -> bool {
        same_path(self@, other@)
    }
}

/// The kind of a component: the root, `.`, `..`, or a name.
pub open spec fn comp_kind(c: Seq<u8>) -> int {
    if c == root_comp() {
        0
    } else if c == seq![46u8] {
        1
    } else if c == seq![46u8, 46u8] {
        2
    } else {
        3
    }
}

/// The order of components: by kind, names by their bytes.
pub open spec fn comp_lt() -> spec_fn(Seq<u8>, Seq<u8>) -> bool {
    |x: Seq<u8>, y: Seq<u8>|
        comp_kind(x) < comp_kind(y) || (comp_kind(x) == 3 && comp_kind(y) == 3 && lex(x, y, byte_lt()))
}

/// The order of paths: component by component.
pub open spec fn path_before(a: Seq<u8>, b: Seq<u8>) -> bool {
    lex(comps(a), comps(b), comp_lt())
}

pub proof fn lemma_comp_lt()
    ensures
        strict_total(comp_lt()),
{
    let lt = comp_lt();
    lemma_byte_lt();
    assert forall|x: Seq<u8>| !#[trigger] lt(x, x) by {
        lemma_lex_irreflexive(x, byte_lt());
    }
    assert forall|x: Seq<u8>, y: Seq<u8>, z: Seq<u8>| #[trigger] lt(x, y) && #[trigger] lt(y, z) implies lt(x, z) by {
        if comp_kind(x) == 3 && comp_kind(z) == 3 {
            lemma_lex_transitive(x, y, z, byte_lt());
        }
    }
    assert forall|x: Seq<u8>, y: Seq<u8>| x != y implies #[trigger] lt(x, y) || lt(y, x) by {
        if comp_kind(x) == 3 && comp_kind(y) == 3 {
            lemma_lex_total(x, y, byte_lt());
        }
    }
}

fn kind_of(c: &Vec<u8>) -> (r: u8)
    ensures
        r == comp_kind(c@),
{
    proof {
        assert(c@ =~= seq![46u8] <==> (c@.len() == 1 && c@[0] == 46));
        assert(c@ =~= root_comp() <==> (c@.len() == 1 && c@[0] == 47));
        assert(c@ =~= seq![46u8, 46u8] <==> (c@.len() == 2 && c@[0] == 46 && c@[1] == 46));
    }
    if c.len() == 1 && c[0] == 47 {
        0
    } else if c.len() == 1 && c[0] == 46 {
        1
    } else if c.len() == 2 && c[0] == 46 && c[1] == 46 {
        2
    } else {
        3
    }
}

/// Does the path with components `a` come before the one with components `b`?
pub(crate) fn comps_precede(a: &Vec<Vec<u8>>, b: &Vec<Vec<u8>>) -> (r: bool)
    ensures
        r == lex(names_view(a@), names_view(b@), comp_lt()),
{
    let ghost (x, y) = (names_view(a@), names_view(b@));
    let mut i: usize = 0;
    assert(x.skip(0) =~= x && y.skip(0) =~= y);
    loop
        invariant
            x == names_view(a@),
            y == names_view(b@),
            i <= a@.len(),
            i <= b@.len(),
            lex(x, y, comp_lt()) == lex(x.skip(i as int), y.skip(i as int), comp_lt()),
        decreases a@.len() - i,
    {
        if i >= b.len() {
            return false;
        }
        if i >= a.len() {
            return true;
        }
        assert(x.skip(i as int)[0] == a@[i as int]@);
        assert(y.skip(i as int)[0] == b@[i as int]@);
        if !same_bytes(&a[i], &b[i]) {
            let (ka, kb) = (kind_of(&a[i]), kind_of(&b[i]));
            return ka < kb || (ka == 3 && kb == 3 && bytes_precede(&a[i], &b[i]));
        }
        assert(x.skip(i as int).skip(1) =~= x.skip(i + 1));
        assert(y.skip(i as int).skip(1) =~= y.skip(i + 1));
        i += 1;
    }
}

/// A path is read at its slashes: a name counts as it stands, and repeated
/// slashes and single dots behind the beginning count for nothing.
pub proof fn law_paths_are_read_at_slashes(n: Seq<u8>, rest: Seq<u8>, first: bool)
    requires
        forall|i: int| 0 <= i < n.len() ==> n[i] != 47,
    ensures
        n.len() > 0 && (first || n != seq![46u8]) ==> names(n.push(47u8) + rest, first) == seq![n] + names(rest, false) && names(n, first) == seq![n],
        n.len() == 0 || (!first && n == seq![46u8]) ==> names(n.push(47u8) + rest, first) == names(rest, false) && names(n, first) == Seq::<
            Seq<u8>,
        >::empty(),
{
    let s = n.push(47u8) + rest;
    lemma_slash_from(s, 0);
    lemma_slash_from(n, 0);
    assert(s[n.len() as int] == 47);
    let k = slash_from(s, 0);
    if k < n.len() {
        assert(s[k] == n[k]);
    }
    assert(k == n.len());
    assert(s.take(k) =~= n);
    assert(s.skip(k + 1) =~= rest);
    let m = slash_from(n, 0);
    if m < n.len() {
        assert(n[m] == 47);
    }
    assert(n.take(n.len() as int) =~= n);
    assert(Seq::<Seq<u8>>::empty() + names(rest, false) =~= names(rest, false));
}

/// What is joined to a folder lies in it, one step down, and does not hold it; an
/// absolute path takes the folder's place.
pub proof fn law_joined_paths_lie_inside(base: Seq<u8>, n: Seq<u8>, rel: Seq<u8>)
    requires
        plain_name(n),
        absolute(rel),
    ensures
        inside(join_bytes(base, n), base),
        !inside(base, join_bytes(base, n)),
        comps(join_bytes(base, n)).len() == comps(base).len() + 1,
        comps(join_bytes(base, n)).last() == n,
        join_bytes(base, rel) == rel,
{
    lemma_join_comps(base, n);
    assert(comps(base).push(n).take(comps(base).len() as int) =~= comps(base));
}

/// Paths lie in each other by whole components.
pub proof fn law_inside_is_by_components(p: Seq<u8>, base: Seq<u8>, other: Seq<u8>)
    ensures
        inside(p, p),
        inside(p, base) && inside(base, other) ==> inside(p, other),
        inside(p, base) && inside(base, p) ==> same_path(p, base),
        inside(p, base) <==> comps(base).len() <= comps(p).len() && comps(p).take(comps(base).len() as int) == comps(base),
{
    assert(comps(p).take(comps(p).len() as int) =~= comps(p));
    if inside(p, base) && inside(base, other) {
        assert(comps(p).take(comps(other).len() as int) =~= comps(base).take(comps(other).len() as int));
    }
    if inside(p, base) && inside(base, p) {
        assert(comps(p) =~= comps(base));
    }
}

} // verus!
