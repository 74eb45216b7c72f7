//! Hard links: each multiply-linked file is counted once.

use vstd::prelude::*;

use crate::order::{
    arranged, char_lt, law_rearranging_keeps_everything, lemma_char_lt, lemma_lex_irreflexive, lemma_lex_total, lemma_lex_transitive,
    lemma_order_rearranges, lex, rearranges, sorted, text_precedes, Ranking,
};
use crate::path::{
    comp_lt, comps, comps_precede, lemma_comp_lt, named, names_view, path_before, same_name, FsPath,
};
use crate::plant::{flatten, lemma_planted_is_tree, planted, weight};
use crate::scan::{child_before, lemma_child_before_transitive, link_list, Link, LinkView, Tmp};
use crate::scanner::{
    child_ok, holds, is_tree, kids_once, lemma_descent, located_at, parent_ok, Node, NodeKind, Tree,
};
use crate::text::chars_of;

verus! {

/// The order of links: by file (device and inode), then by path.
pub open spec fn link_before(v: Seq<LinkView>, i: int, j: int) -> bool {
    let (a, b) = (v[i], v[j]);
    ||| a.dev < b.dev
    ||| a.dev == b.dev && a.ino < b.ino
    ||| a.dev == b.dev && a.ino == b.ino && path_before(a.path, b.path)
    ||| a.dev == b.dev && a.ino == b.ino && comps(a.path) == comps(b.path) && i < j
}

/// `o` lists the positions of `v` in the order of links.
pub open spec fn link_order(v: Seq<LinkView>, o: Seq<usize>) -> bool {
    &&& rearranges(o, v.len() as int)
    &&& forall|i: int, j: int| 0 <= i < j < o.len() ==> link_before(v, #[trigger] o[i] as int, #[trigger] o[j] as int)
}

/// `a` minus `b`, but not below zero.
pub open spec fn reduced(a: u64, b: u64) -> u64 {
    if a >= b {
        (a - b) as u64
    } else {
        0
    }
}

/// `s` with `d` taken off node `i` and every directory that holds it.
pub open spec fn taken_off(nodes: Seq<Node>, s: Seq<u64>, i: int, d: u64) -> Seq<u64>
    decreases i,
{
    let t = s.update(i, reduced(s[i], d));
    match nodes[i].parent {
        Some(p) if p < i => taken_off(nodes, t, p as int, d),
        _ => t,
    }
}

/// The first of `kids` that is of the given kind (and has the name, if it is a
/// file that is looked for).
pub open spec fn kid_of(nodes: Seq<Node>, kids: Seq<usize>, kind: NodeKind, name: Seq<u8>) -> Option<int>
    decreases kids.len(),
{
    if kids.len() == 0 {
        None
    } else {
        let c = nodes[kids[0] as int];
        if c.kind == kind && (kind != NodeKind::File || c.exact() == name) {
            Some(kids[0] as int)
        } else {
            kid_of(nodes, kids.skip(1), kind, name)
        }
    }
}

/// The node that counts the bytes of the file `name` in directory `dir`: its
/// own, or the one that the small files are folded into.
pub open spec fn holder(nodes: Seq<Node>, dir: int, name: Seq<u8>) -> Option<int> {
    match kid_of(nodes, nodes[dir].children@, NodeKind::File, name) {
        Some(c) => Some(c),
        None => kid_of(nodes, nodes[dir].children@, NodeKind::Aggregate, name),
    }
}

/// The directory of a link, if it is in the tree.
pub open spec fn link_dir(nodes: Seq<Node>, root: Seq<u8>, path: Seq<u8>) -> Option<int> {
    if named(path) {
        located_at(nodes, comps(root), comps(path).drop_last())
    } else {
        None
    }
}

/// The sizes once a further name of a counted file is taken off.
pub open spec fn discounted(nodes: Seq<Node>, root: Seq<u8>, s: Seq<u64>, l: LinkView) -> Seq<u64> {
    match link_dir(nodes, root, l.path) {
        Some(dir) => {
            let t = match holder(nodes, dir, comps(l.path).last()) {
                Some(h) => s.update(h, reduced(s[h], l.size)),
                None => s,
            };
            taken_off(nodes, t, dir, l.size)
        },
        None => s,
    }
}

/// Position `k` of the sorted links is a further name of the file before it.
pub open spec fn again(v: Seq<LinkView>, o: Seq<usize>, k: int) -> bool {
    let (a, b) = (v[o[k - 1] as int], v[o[k] as int]);
    k >= 1 && a.dev == b.dev && a.ino == b.ino && b.size != 0
}

/// The sizes once every further name among the first `k` links is taken off.
pub open spec fn settled(nodes: Seq<Node>, root: Seq<u8>, s: Seq<u64>, v: Seq<LinkView>, o: Seq<usize>, k: int) -> Seq<u64>
    decreases k,
{
    if k <= 1 {
        s
    } else {
        let t = settled(nodes, root, s, v, o, k - 1);
        if again(v, o, k - 1) {
            discounted(nodes, root, t, v[o[k - 1] as int])
        } else {
            t
        }
    }
}

/// Node `i` is a directory whose size was reduced by the first `k` links.
pub open spec fn touched(nodes: Seq<Node>, root: Seq<u8>, v: Seq<LinkView>, o: Seq<usize>, k: int, i: int) -> bool {
    exists|m: int|
        1 <= m < k && #[trigger] again(v, o, m) && (match link_dir(nodes, root, v[o[m] as int].path) {
            Some(dir) => holds(nodes, i, dir),
            None => false,
        })
}

struct ByFile<'a> {
    list: &'a Vec<Link>,
    paths: &'a Vec<Vec<Vec<u8>>>,
}

impl<'a> ByFile<'a> {
    spec fn ok(&self) -> bool {
        self.paths@.len() == self.list@.len() && forall|i: int|
            0 <= i < self.list@.len() ==> names_view(#[trigger] self.paths@[i]@) == comps(self.list@[i].path@)
    }
}

impl<'a> Ranking for ByFile<'a> {
    closed spec fn size(&self) -> nat {
        if self.ok() {
            self.list@.len()
        } else {
            0
        }
    }

    closed spec fn before(&self, i: int, j: int) -> bool {
        link_before(link_list(self.list@), i, j)
    }

    proof fn irreflexive(&self, i: int) {
        lemma_lex_irreflexive(comps(link_list(self.list@)[i].path), comp_lt());
    }

    proof fn transitive(&self, i: int, j: int, k: int) {
        let v = link_list(self.list@);
        lemma_comp_lt();
        let (a, b, c) = (comps(v[i].path), comps(v[j].path), comps(v[k].path));
        if lex(a, b, comp_lt()) && lex(b, c, comp_lt()) {
            lemma_lex_transitive(a, b, c, comp_lt());
        }
    }

    proof fn total(&self, i: int, j: int) {
        let v = link_list(self.list@);
        lemma_comp_lt();
        if comps(v[i].path) != comps(v[j].path) {
            lemma_lex_total(comps(v[i].path), comps(v[j].path), comp_lt());
        }
    }

    fn precedes(&self, i: usize, j: usize) -> (r: bool) {
        let (a, b) = (&self.list[i], &self.list[j]);
        if a.dev != b.dev {
            return a.dev < b.dev;
        }
        if a.ino != b.ino {
            return a.ino < b.ino;
        }
        assert(names_view(self.paths@[i as int]@) == comps(a.path@));
        assert(names_view(self.paths@[j as int]@) == comps(b.path@));
        if comps_precede(&self.paths[i], &self.paths[j]) {
            return true;
        }
        a.path.same(&b.path) && i < j
    }
}

fn first_kid(nodes: &Vec<Node>, kids: &Vec<usize>, kind: NodeKind, name: &Vec<u8>) -> (r: Option<usize>)
    requires
        forall|k: int| 0 <= k < kids@.len() ==> (#[trigger] kids@[k]) < nodes@.len(),
    ensures
        r is Some <==> kid_of(nodes@, kids@, kind, name@) is Some,
        r matches Some(c) ==> c < nodes@.len() && kid_of(nodes@, kids@, kind, name@) == Some(c as int),
{
    assert(kids@.skip(0) =~= kids@);
    for k in 0..kids.len()
        invariant
            forall|k: int| 0 <= k < kids@.len() ==> (#[trigger] kids@[k]) < nodes@.len(),
            kid_of(nodes@, kids@, kind, name@) == kid_of(nodes@, kids@.skip(k as int), kind, name@),
    {
        let c = kids[k];
        assert(kids@.skip(k as int).skip(1) =~= kids@.skip(k + 1));
        assert(kids@.skip(k as int)[0] == c);
        let n = &nodes[c];
        if n.kind == kind && (kind != NodeKind::File || same_name(&n.os_name(), name)) {
            return Some(c);
        }
    }
    None
}

fn reduce(s: &mut Vec<u64>, i: usize, d: u64)
    requires
        i < old(s)@.len(),
    ensures
        final(s)@ == old(s)@.update(i as int, reduced(old(s)@[i as int], d)),
{
    let x = s[i];
    s.set(i, if x >= d { x - d } else { 0 });
}

/// Take `d` off node `dir` and every directory above it, and mark them.
fn take_off(t: &Tree, s: &mut Vec<u64>, marks: &mut Vec<bool>, dir: usize, d: u64)
    requires
        t.wf(),
        dir < t.nodes@.len(),
        old(s)@.len() == t.nodes@.len(),
        old(marks)@.len() == t.nodes@.len(),
    ensures
        final(s)@ == taken_off(t.nodes@, old(s)@, dir as int, d),
        final(s)@.len() == old(s)@.len(),
        final(marks)@.len() == old(marks)@.len(),
        forall|i: int|
            0 <= i < t.nodes@.len() ==> #[trigger] final(marks)@[i] == (old(marks)@[i] || holds(t.nodes@, i, dir as int)),
{
    let mut c: usize = dir;
    let ghost before = marks@;
    loop
        invariant
            t.wf(),
            c < t.nodes@.len(),
            dir < t.nodes@.len(),
            s@.len() == t.nodes@.len(),
            marks@.len() == t.nodes@.len(),
            before.len() == marks@.len(),
            old(s)@.len() == t.nodes@.len(),
            taken_off(t.nodes@, s@, c as int, d) == taken_off(t.nodes@, old(s)@, dir as int, d),
            forall|i: int|
                0 <= i < t.nodes@.len() ==> (#[trigger] marks@[i] || holds(t.nodes@, i, c as int)) == (before[i] || holds(
                    t.nodes@,
                    i,
                    dir as int,
                )),
            old(marks)@ == before,
        decreases c,
    {
        reduce(s, c, d);
        let ghost last = marks@;
        marks.set(c, true);
        proof {
            if c > 0 {
                assert(parent_ok(t.nodes@, c as int));
            }
        }
        match t.nodes[c].parent {
            Some(p) => {
                assert forall|i: int| 0 <= i < t.nodes@.len() implies (#[trigger] marks@[i] || holds(t.nodes@, i, p as int)) == (
                before[i] || holds(t.nodes@, i, dir as int)) by {
                    assert((last[i] || holds(t.nodes@, i, c as int)) == (before[i] || holds(t.nodes@, i, dir as int)));
                    assert(marks@[i] == (last[i] || i == c));
                    assert(holds(t.nodes@, i, c as int) == (i == c || holds(t.nodes@, i, p as int)));
                }
                c = p;
            },
            None => {
                assert forall|i: int| 0 <= i < t.nodes@.len() implies #[trigger] marks@[i] == (before[i] || holds(
                    t.nodes@,
                    i,
                    dir as int,
                )) by {
                    assert((last[i] || holds(t.nodes@, i, c as int)) == (before[i] || holds(t.nodes@, i, dir as int)));
                    assert(marks@[i] == (last[i] || i == c));
                    assert(holds(t.nodes@, i, c as int) == (i == c));
                }
                return;
            },
        }
    }
}

/// The order of a directory's children by the given sizes, then by name.
pub open spec fn kid_before(nodes: Seq<Node>, s: Seq<u64>, kids: Seq<usize>, i: int, j: int) -> bool {
    let (a, b) = (kids[i] as int, kids[j] as int);
    child_before(s[a] as nat, nodes[a].name@, i, s[b] as nat, nodes[b].name@, j)
}

/// `list` holds `kids` in that order.
pub open spec fn kids_sorted(nodes: Seq<Node>, s: Seq<u64>, kids: Seq<usize>, list: Seq<usize>) -> bool {
    exists|o: Seq<usize>| #[trigger] kid_order(nodes, s, kids, o) && list == arranged(kids, o)
}

pub open spec fn kid_order(nodes: Seq<Node>, s: Seq<u64>, kids: Seq<usize>, o: Seq<usize>) -> bool {
    &&& rearranges(o, kids.len() as int)
    &&& forall|i: int, j: int|
        0 <= i < j < o.len() ==> kid_before(nodes, s, kids, #[trigger] o[i] as int, #[trigger] o[j] as int)
}

struct Kids<'a> {
    nodes: &'a Vec<Node>,
    s: &'a Vec<u64>,
    kids: &'a Vec<usize>,
    names: &'a Vec<Vec<char>>,
}

impl<'a> Kids<'a> {
    spec fn ok(&self) -> bool {
        &&& self.names@.len() == self.kids@.len()
        &&& self.s@.len() == self.nodes@.len()
        &&& forall|k: int| 0 <= k < self.kids@.len() ==> (#[trigger] self.kids@[k]) < self.nodes@.len()
        &&& forall|k: int|
            0 <= k < self.kids@.len() ==> #[trigger] self.names@[k]@ == self.nodes@[self.kids@[k] as int].name@
    }
}

impl<'a> Ranking for Kids<'a> {
    closed spec fn size(&self) -> nat {
        if self.ok() {
            self.kids@.len()
        } else {
            0
        }
    }

    closed spec fn before(&self, i: int, j: int) -> bool {
        kid_before(self.nodes@, self.s@, self.kids@, i, j)
    }

    proof fn irreflexive(&self, i: int) {
        lemma_lex_irreflexive(self.nodes@[self.kids@[i] as int].name@, crate::order::char_lt());
    }

    proof fn transitive(&self, i: int, j: int, k: int) {
        let (n, s) = (self.nodes@, self.s@);
        let (a, b, c) = (self.kids@[i] as int, self.kids@[j] as int, self.kids@[k] as int);
        lemma_child_before_transitive(
            s[a] as nat, n[a].name@, i, s[b] as nat, n[b].name@, j, s[c] as nat, n[c].name@, k,
        );
    }

    proof fn total(&self, i: int, j: int) {
        lemma_char_lt();
        let n = self.nodes@;
        let (a, b) = (self.kids@[i] as int, self.kids@[j] as int);
        if n[a].name@ != n[b].name@ {
            lemma_lex_total(n[a].name@, n[b].name@, crate::order::char_lt());
        }
    }

    fn precedes(&self, i: usize, j: usize) -> (r: bool) {
        assert(self.kids@[i as int] < self.nodes@.len());
        assert(self.kids@[j as int] < self.nodes@.len());
        assert(self.names@[i as int]@ == self.nodes@[self.kids@[i as int] as int].name@);
        assert(self.names@[j as int]@ == self.nodes@[self.kids@[j as int] as int].name@);
        let (a, b) = (self.kids[i], self.kids[j]);
        if self.s[a] != self.s[b] {
            return self.s[a] > self.s[b];
        }
        if text_precedes(&self.names[i], &self.names[j]) {
            return true;
        }
        self.nodes[a].name == self.nodes[b].name && i < j
    }
}

fn sort_kids(nodes: &Vec<Node>, s: &Vec<u64>, kids: &Vec<usize>) -> (r: Vec<usize>)
    requires
        s@.len() == nodes@.len(),
        forall|k: int| 0 <= k < kids@.len() ==> (#[trigger] kids@[k]) < nodes@.len(),
    ensures
        kids_sorted(nodes@, s@, kids@, r@),
{
    let mut names: Vec<Vec<char>> = Vec::new();
    for k in 0..kids.len()
        invariant
            forall|k: int| 0 <= k < kids@.len() ==> (#[trigger] kids@[k]) < nodes@.len(),
            names@.len() == k,
            forall|j: int| 0 <= j < k ==> #[trigger] names@[j]@ == nodes@[kids@[j] as int].name@,
    {
        assert(kids@[k as int] < nodes@.len());
        names.push(chars_of(nodes[kids[k]].name.as_str()));
    }
    let ranking = Kids { nodes, s, kids, names: &names };
    let o = sorted(&ranking, kids.len());
    proof {
        lemma_order_rearranges(&ranking, o@);
        assert(kid_order(nodes@, s@, kids@, o@));
    }
    let mut out: Vec<usize> = Vec::new();
    for k in 0..o.len()
        invariant
            rearranges(o@, kids@.len() as int),
            out@ == arranged(kids@, o@).take(k as int),
    {
        out.push(kids[o[k]]);
        assert(out@ =~= arranged(kids@, o@).take(k + 1));
    }
    assert(out@ =~= arranged(kids@, o@));
    out
}

/// The nodes of `b` are those of `a` but for their sizes and the order of their
/// children.
pub open spec fn resized(a: Seq<Node>, b: Seq<Node>, i: int) -> bool {
    &&& b[i].name@ == a[i].name@
    &&& b[i].raw == a[i].raw
    &&& b[i].kind == a[i].kind
    &&& b[i].files == a[i].files
    &&& b[i].markers == a[i].markers
    &&& b[i].unreadable == a[i].unreadable
    &&& b[i].parent == a[i].parent
}

/// The sizes of the nodes.
pub open spec fn node_sizes(n: Seq<Node>) -> Seq<u64> {
    Seq::new(n.len(), |i: int| n[i].size)
}

/// What counting each file once makes of the nodes, with the links in the order
/// `o`: the reduced sizes, and the children of every directory that lost bytes
/// sorted anew.
pub open spec fn counted_once(a: Seq<Node>, b: Seq<Node>, root: Seq<u8>, v: Seq<LinkView>, o: Seq<usize>) -> bool {
    let s = settled(a, root, node_sizes(a), v, o, v.len() as int);
    &&& b.len() == a.len()
    &&& node_sizes(b) == s
    &&& forall|i: int| 0 <= i < a.len() ==> #[trigger] resized(a, b, i)
    &&& forall|i: int|
        0 <= i < a.len() ==> if touched(a, root, v, o, v.len() as int, i) {
            kids_sorted(a, s, a[i].children@, #[trigger] b[i].children@)
        } else {
            b[i].children@ == a[i].children@
        }
}

/// Count each multiply-linked inode once, crediting it to its
/// lexicographically smallest path. Deciding after the scan (instead of
/// "first thread to see it wins") makes per-directory sizes reproducible.
pub fn dedupe_hard_links(t: &mut Tree, links: &Vec<Link>)
    requires
        old(t).wf(),
    ensures
        final(t).wf(),
        final(t).root_path@ == old(t).root_path@,
        final(t).dirs == old(t).dirs,
        final(t).errors == old(t).errors,
        exists|o: Seq<usize>| #[trigger]
            link_order(link_list(links@), o) && counted_once(
                old(t).nodes@,
                final(t).nodes@,
                old(t).root_path@,
                link_list(links@),
                o,
            ),
{
    let ghost v = link_list(links@);
    let ghost a = t.nodes@;
    let ghost root = t.root_path@;
    let mut paths: Vec<Vec<Vec<u8>>> = Vec::new();
    for i in 0..links.len()
        invariant
            paths@.len() == i,
            forall|j: int| 0 <= j < i ==> names_view(#[trigger] paths@[j]@) == comps(links@[j].path@),
    {
        paths.push(links[i].path.components());
    }
    let ranking = ByFile { list: links, paths: &paths };
    let o = sorted(&ranking, links.len());
    proof {
        lemma_order_rearranges(&ranking, o@);
        assert(link_order(v, o@));
    }
    let n: usize = t.nodes.len();
    let mut s: Vec<u64> = Vec::new();
    let mut marks: Vec<bool> = Vec::new();
    for i in 0..n
        invariant
            n == t.nodes@.len(),
            s@ == node_sizes(t.nodes@).take(i as int),
            marks@.len() == i,
            forall|j: int| 0 <= j < i ==> !#[trigger] marks@[j],
    {
        s.push(t.nodes[i].size);
        marks.push(false);
        assert(s@ =~= node_sizes(t.nodes@).take(i + 1));
    }
    assert(s@ =~= node_sizes(a));
    let m: usize = o.len();
    let mut k: usize = if m > 0 { 1 } else { 0 };
    while k < m
        invariant
            t.wf(),
            t.nodes@ == a,
            t.root_path@ == root,
            v == link_list(links@),
            n == a.len(),
            m == o@.len(),
            m == v.len(),
            m == links@.len(),
            k <= m,
            m > 0 ==> k >= 1,
            rearranges(o@, m as int),
            s@.len() == n,
            marks@.len() == n,
            s@ == settled(a, root, node_sizes(a), v, o@, k as int),
            forall|i: int| 0 <= i < n ==> #[trigger] marks@[i] == touched(a, root, v, o@, k as int, i),
        decreases m - k,
    {
        let l = &links[o[k]];
        let prev = &links[o[k - 1]];
        let ghost lv = v[o@[k as int] as int];
        let ghost was = marks@;
        if l.dev == prev.dev && l.ino == prev.ino && l.size != 0 {
            assert(again(v, o@, k as int));
            match l.path.file_name() {
                Some(name) => match l.path.parent() {
                    Some(p) => match t.find(&p) {
                        Some(dir) => {
                            assert(link_dir(a, root, lv.path) == Some(dir as int));
                            assert forall|x: int| 0 <= x < a[dir as int].children@.len() implies (#[trigger] a[dir as int].children@[x]) < a.len() by {
                                assert(child_ok(a, dir as int, x));
                            }
                            let h = match first_kid(&t.nodes, &t.nodes[dir].children, NodeKind::File, &name) {
                                Some(h) => Some(h),
                                None => first_kid(&t.nodes, &t.nodes[dir].children, NodeKind::Aggregate, &name),
                            };
                            if let Some(h) = h {
                                reduce(&mut s, h, l.size);
                            }
                            take_off(t, &mut s, &mut marks, dir, l.size);
                        },
                        None => {
                            assert(link_dir(a, root, lv.path) is None);
                        },
                    },
                    None => {
                        assert(false);
                    },
                },
                None => {
                    assert(link_dir(a, root, lv.path) is None);
                },
            }
        } else {
            assert(!again(v, o@, k as int));
        }
        proof {
            let was_k = k as int;
            assert forall|i: int| 0 <= i < n implies #[trigger] marks@[i] == touched(a, root, v, o@, was_k + 1, i) by {
                let hit = again(v, o@, was_k) && (match link_dir(a, root, v[o@[was_k] as int].path) {
                    Some(dir) => holds(a, i, dir),
                    None => false,
                });
                assert(marks@[i] == (was[i] || hit));
                if was[i] {
                    let x = choose|x: int|
                        1 <= x < was_k && #[trigger] again(v, o@, x) && (match link_dir(a, root, v[o@[x] as int].path) {
                            Some(dir) => holds(a, i, dir),
                            None => false,
                        });
                    assert(again(v, o@, x));
                }
                if touched(a, root, v, o@, was_k + 1, i) {
                    let x = choose|x: int|
                        1 <= x < was_k + 1 && #[trigger] again(v, o@, x) && (match link_dir(a, root, v[o@[x] as int].path) {
                            Some(dir) => holds(a, i, dir),
                            None => false,
                        });
                    if x < was_k {
                        assert(touched(a, root, v, o@, was_k, i));
                    }
                }
            }
        }
        k += 1;
    }
    proof {
        if m == 0 {
            assert(s@ == settled(a, root, node_sizes(a), v, o@, m as int));
        }
    }
    let ghost fin = s@;
    // Sizes changed: restore largest-first order where it matters.
    let mut kids: Vec<Vec<usize>> = Vec::new();
    for i in 0..n
        invariant
            t.wf(),
            t.nodes@ == a,
            n == a.len(),
            s@.len() == n,
            s@ == fin,
            marks@.len() == n,
            kids@.len() == i,
            forall|j: int|
                0 <= j < i ==> if marks@[j] {
                    kids_sorted(a, fin, a[j].children@, #[trigger] kids@[j]@)
                } else {
                    kids@[j]@ == a[j].children@
                },
    {
        assert forall|x: int| 0 <= x < a[i as int].children@.len() implies (#[trigger] a[i as int].children@[x]) < a.len() by {
            assert(child_ok(a, i as int, x));
        }
        if marks[i] {
            kids.push(sort_kids(&t.nodes, &s, &t.nodes[i].children));
        } else {
            let c = t.nodes[i].children.clone();
            assert(c@ =~= a[i as int].children@);
            kids.push(c);
        }
    }
    let mut i: usize = n;
    while i > 0
        invariant
            i <= n,
            n == a.len(),
            t.nodes@.len() == n,
            s@.len() == n,
            s@ == fin,
            kids@.len() == i,
            t.root_path@ == root,
            t.dirs == old(t).dirs,
            t.errors == old(t).errors,
            forall|j: int| 0 <= j < i ==> #[trigger] t.nodes@[j] == a[j],
            forall|j: int| 0 <= j < n ==> #[trigger] resized(a, t.nodes@, j),
            forall|j: int| i <= j < n ==> (#[trigger] t.nodes@[j]).size == fin[j],
            forall|j: int|
                0 <= j < i ==> if marks@[j] {
                    kids_sorted(a, fin, a[j].children@, #[trigger] kids@[j]@)
                } else {
                    kids@[j]@ == a[j].children@
                },
            forall|j: int|
                i <= j < n ==> if marks@[j] {
                    kids_sorted(a, fin, a[j].children@, #[trigger] t.nodes@[j].children@)
                } else {
                    t.nodes@[j].children@ == a[j].children@
                },
        decreases i,
    {
        i -= 1;
        let ghost before = t.nodes@;
        match kids.pop() {
            Some(list) => {
                t.nodes[i].children = list;
                t.nodes[i].size = s[i];
                proof {
                    assert(forall|j: int| 0 <= j < n && j != i ==> t.nodes@[j] == before[j]);
                    assert forall|j: int| 0 <= j < n implies #[trigger] resized(a, t.nodes@, j) by {
                        assert(resized(a, before, j));
                    }
                }
            },
            None => {},
        }
    }
    proof {
        assert(node_sizes(t.nodes@) =~= fin);
        assert(counted_once(a, t.nodes@, root, v, o@));
        lemma_still_tree(a, t.nodes@, root, v, o@);
    }
}

pub(crate) proof fn lemma_still_tree(a: Seq<Node>, b: Seq<Node>, root: Seq<u8>, v: Seq<LinkView>, o: Seq<usize>)
    requires
        is_tree(a),
        counted_once(a, b, root, v, o),
    ensures
        is_tree(b),
{
    let s = settled(a, root, node_sizes(a), v, o, v.len() as int);
    assert forall|i: int| 0 <= i < a.len() implies #[trigger] kids_once(b, i) && (forall|c: usize| #[trigger]
        b[i].children@.contains(c) <==> a[i].children@.contains(c)) && b[i].children@.len() == a[i].children@.len() by {
        assert(kids_once(a, i));
        if touched(a, root, v, o, v.len() as int, i) {
            assert(kids_sorted(a, s, a[i].children@, b[i].children@));
            let p = choose|p: Seq<usize>| #[trigger] kid_order(a, s, a[i].children@, p) && b[i].children@ == arranged(a[i].children@, p);
            lemma_arranged_same(a[i].children@, p);
        } else {
            assert(b[i].children@ == a[i].children@);
        }
    }
    assert(resized(a, b, 0));
    assert forall|i: int| 0 < i < b.len() implies #[trigger] parent_ok(b, i) by {
        assert(parent_ok(a, i));
        assert(resized(a, b, i));
        let p = a[i].parent->0 as int;
        assert(kids_once(b, p));
        assert(b[p].children@.contains(i as usize));
    }
    assert forall|i: int, k: int| 0 <= i < b.len() && 0 <= k < b[i].children@.len() implies #[trigger] child_ok(b, i, k) by {
        assert(kids_once(b, i));
        let c = b[i].children@[k];
        assert(b[i].children@.contains(c));
        let w = choose|w: int| 0 <= w < a[i].children@.len() && a[i].children@[w] == c;
        assert(child_ok(a, i, w));
        assert(resized(a, b, c as int));
    }
}

proof fn lemma_arranged_same(list: Seq<usize>, o: Seq<usize>)
    requires
        rearranges(o, list.len() as int),
        list.no_duplicates(),
    ensures
        arranged(list, o).no_duplicates(),
        forall|c: usize| #[trigger] arranged(list, o).contains(c) <==> list.contains(c),
{
    let r = arranged(list, o);
    assert forall|c: usize| #[trigger] r.contains(c) <==> list.contains(c) by {
        if r.contains(c) {
            let w = choose|w: int| 0 <= w < r.len() && r[w] == c;
            assert(list[o[w] as int] == c);
        }
        if list.contains(c) {
            let w = choose|w: int| 0 <= w < list.len() && list[w] == c;
            if w > usize::MAX {
                lemma_list_short(list, o);
            }
            assert(o.contains(w as usize));
            let x = choose|x: int| 0 <= x < o.len() && o[x] == w as usize;
            assert(r[x] == c);
        }
    }
    assert forall|i: int, j: int| 0 <= i < r.len() && 0 <= j < r.len() && i != j implies r[i] != r[j] by {
        assert(o[i] != o[j]);
    }
}

proof fn lemma_list_short(list: Seq<usize>, o: Seq<usize>)
    requires
        rearranges(o, list.len() as int),
    ensures
        list.len() <= usize::MAX + 1,
{
    if list.len() > usize::MAX + 1 {
        crate::order::lemma_pigeon(o, usize::MAX as int + 1);
    }
}

/// The tree of a finished scan of `root`: what was built, laid out, with each
/// multiply-linked file counted once.
pub fn build_tree(root: FsPath, built: &Tmp, links: &Vec<Link>, dirs: u64, errors: u64) -> (r: Tree)
    requires
        weight(*built) <= usize::MAX,
    ensures
        r.wf(),
        r.root_path@ == root@,
        r.dirs == dirs,
        r.errors == errors,
        exists|n: Seq<Node>, o: Seq<usize>|
            planted(n, 0, *built, None) && n.len() == weight(*built) && #[trigger] link_order(link_list(links@), o)
                && #[trigger] counted_once(n, r.nodes@, root@, link_list(links@), o),
{
    let mut nodes: Vec<Node> = Vec::new();
    flatten(built, None, &mut nodes);
    proof {
        lemma_planted_is_tree(nodes@, *built);
    }
    let ghost n = nodes@;
    let mut t = Tree { root_path: root, nodes, dirs, errors };
    dedupe_hard_links(&mut t, links);
    proof {
        let o = choose|o: Seq<usize>| #[trigger]
            link_order(link_list(links@), o) && counted_once(n, t.nodes@, root@, link_list(links@), o);
        assert(planted(n, 0, *built, None) && link_order(link_list(links@), o) && counted_once(
            n,
            t.nodes@,
            root@,
            link_list(links@),
            o,
        ));
    }
    t
}

/// The bytes of the further names among the first `k` links, as far as they lie
/// in the tree.
pub open spec fn extra_bytes(nodes: Seq<Node>, root: Seq<u8>, v: Seq<LinkView>, o: Seq<usize>, k: int) -> nat
    decreases k,
{
    if k <= 1 {
        0
    } else {
        let l = v[o[k - 1] as int];
        extra_bytes(nodes, root, v, o, k - 1) + if again(v, o, k - 1) && link_dir(nodes, root, l.path) is Some {
            l.size as nat
        } else {
            0
        }
    }
}

proof fn lemma_off_the_root(nodes: Seq<Node>, s: Seq<u64>, i: int, d: u64)
    requires
        is_tree(nodes),
        s.len() == nodes.len(),
        0 <= i < nodes.len(),
    ensures
        taken_off(nodes, s, i, d).len() == s.len(),
        taken_off(nodes, s, i, d)[0] == reduced(s[0], d),
    decreases i,
{
    if i > 0 {
        assert(parent_ok(nodes, i));
        let p = nodes[i].parent->0 as int;
        lemma_off_the_root(nodes, s.update(i, reduced(s[i], d)), p, d);
    }
}

pub(crate) proof fn lemma_kid_listed(nodes: Seq<Node>, kids: Seq<usize>, kind: NodeKind, name: Seq<u8>)
    ensures
        kid_of(nodes, kids, kind, name) matches Some(c) ==> exists|k: int| 0 <= k < kids.len() && #[trigger] kids[k] == c,
    decreases kids.len(),
{
    if kids.len() > 0 {
        let rest = kids.skip(1);
        lemma_kid_listed(nodes, rest, kind, name);
        if let Some(c) = kid_of(nodes, rest, kind, name) {
            let k = choose|k: int| 0 <= k < rest.len() && #[trigger] rest[k] == c;
            assert(kids[k + 1] == c);
        }
        assert(kids[0] == kids[0]);
    }
}

pub(crate) proof fn lemma_holder_below(nodes: Seq<Node>, dir: int, name: Seq<u8>)
    requires
        is_tree(nodes),
        0 <= dir < nodes.len(),
    ensures
        holder(nodes, dir, name) matches Some(h) ==> 0 < h < nodes.len(),
{
    let kids = nodes[dir].children@;
    lemma_kid_listed(nodes, kids, NodeKind::File, name);
    lemma_kid_listed(nodes, kids, NodeKind::Aggregate, name);
    if let Some(h) = holder(nodes, dir, name) {
        let k = choose|k: int| 0 <= k < kids.len() && #[trigger] kids[k] == h;
        assert(child_ok(nodes, dir, k));
    }
}

/// However many names a file has, its data is in the total once: the bytes of
/// every further name come off the root.
pub proof fn law_further_names_come_off_the_total(
    nodes: Seq<Node>,
    root: Seq<u8>,
    s: Seq<u64>,
    v: Seq<LinkView>,
    o: Seq<usize>,
    k: int,
)
    requires
        is_tree(nodes),
        s.len() == nodes.len(),
        k <= o.len(),
    ensures
        settled(nodes, root, s, v, o, k).len() == nodes.len(),
        settled(nodes, root, s, v, o, k)[0] == (if s[0] >= extra_bytes(nodes, root, v, o, k) {
            s[0] - extra_bytes(nodes, root, v, o, k)
        } else {
            0
        }),
    decreases k,
{
    if k > 1 {
        law_further_names_come_off_the_total(nodes, root, s, v, o, k - 1);
        let before = settled(nodes, root, s, v, o, k - 1);
        let l = v[o[k - 1] as int];
        if again(v, o, k - 1) {
            if let Some(dir) = link_dir(nodes, root, l.path) {
                lemma_descent(nodes, 0, comps(l.path).drop_last().skip(comps(root).len() as int));
                lemma_holder_below(nodes, dir, comps(l.path).last());
                let t = match holder(nodes, dir, comps(l.path).last()) {
                    Some(h) => before.update(h, reduced(before[h], l.size)),
                    None => before,
                };
                lemma_off_the_root(nodes, t, dir, l.size);
            }
        }
    }
}

proof fn lemma_link_before_once(v: Seq<LinkView>, i: int, j: int)
    ensures
        !(link_before(v, i, j) && link_before(v, j, i)),
{
    let (a, b) = (comps(v[i].path), comps(v[j].path));
    lemma_comp_lt();
    lemma_lex_irreflexive(a, comp_lt());
    if lex(a, b, comp_lt()) && lex(b, a, comp_lt()) {
        lemma_lex_transitive(a, b, a, comp_lt());
    }
}

/// There is one order of links only.
proof fn lemma_link_order_prefix(v: Seq<LinkView>, a: Seq<usize>, b: Seq<usize>, n: int)
    requires
        link_order(v, a),
        link_order(v, b),
        0 <= n <= v.len(),
    ensures
        a.take(n) == b.take(n),
    decreases n,
{
    if n > 0 {
        let k = n - 1;
        lemma_link_order_prefix(v, a, b, k);
        assert(forall|i: int| 0 <= i < k ==> #[trigger] a[i] == a.take(k)[i]);
        assert(forall|i: int| 0 <= i < k ==> #[trigger] b[i] == b.take(k)[i]);
        if a[k] != b[k] {
            assert(b.contains(a[k]));
            let x = choose|x: int| 0 <= x < b.len() && b[x] == a[k];
            if x < k {
                assert(a[x] == b[x]);
            }
            assert(link_before(v, b[k] as int, b[x] as int));
            assert(a.contains(b[k]));
            let y = choose|y: int| 0 <= y < a.len() && a[y] == b[k];
            if y < k {
                assert(a[y] == b[y]);
            }
            assert(link_before(v, a[k] as int, a[y] as int));
            lemma_link_before_once(v, a[k] as int, b[k] as int);
        }
        assert(a.take(n) =~= a.take(k).push(a[k]));
        assert(b.take(n) =~= b.take(k).push(b[k]));
    }
}

/// No name of a file is listed twice.
pub open spec fn names_once(v: Seq<LinkView>) -> bool {
    forall|i: int, j: int|
        0 <= i < j < v.len() ==> {
            let (a, b) = (#[trigger] v[i], #[trigger] v[j]);
            !(a.dev == b.dev && a.ino == b.ino && comps(a.path) == comps(b.path))
        }
}

proof fn lemma_settled_same(
    nodes: Seq<Node>,
    root: Seq<u8>,
    s: Seq<u64>,
    v: Seq<LinkView>,
    o: Seq<usize>,
    w: Seq<LinkView>,
    p: Seq<usize>,
    k: int,
)
    requires
        forall|i: int| 0 <= i < k ==> v[(#[trigger] o[i]) as int] == w[p[i] as int],
    ensures
        settled(nodes, root, s, v, o, k) == settled(nodes, root, s, w, p, k),
    decreases k,
{
    if k > 1 {
        lemma_settled_same(nodes, root, s, v, o, w, p, k - 1);
        assert(v[o[k - 1] as int] == w[p[k - 1] as int]);
        assert(v[o[k - 2] as int] == w[p[k - 2] as int]);
    }
}

/// Sizes are reproducible: whatever order `q` the names of files were come by
/// in, every node ends up with the same size.
pub proof fn law_sizes_do_not_depend_on_the_order_of_links(
    nodes: Seq<Node>,
    root: Seq<u8>,
    s: Seq<u64>,
    v: Seq<LinkView>,
    o: Seq<usize>,
    q: Seq<usize>,
    p: Seq<usize>,
)
    requires
        names_once(v),
        link_order(v, o),
        rearranges(q, v.len() as int),
        link_order(arranged(v, q), p),
    ensures
        settled(nodes, root, s, v, o, v.len() as int) == settled(nodes, root, s, arranged(v, q), p, v.len() as int),
{
    let w = arranged(v, q);
    let n = v.len() as int;
    let c = Seq::new(n as nat, |k: int| q[p[k] as int]);
    assert forall|i: int, j: int| 0 <= i < j < c.len() implies c[i] != c[j] && link_before(
        v,
        #[trigger] c[i] as int,
        #[trigger] c[j] as int,
    ) by {
        let (a, b) = (p[i] as int, p[j] as int);
        assert(p[i] < n && p[j] < n && p[i] != p[j]);
        assert(link_before(w, a, b));
        assert(w[a] == v[q[a] as int] && w[b] == v[q[b] as int]);
        assert(q[a] != q[b] && q[a] < n && q[b] < n);
        if q[a] < q[b] {
            assert(v[q[a] as int] == w[a] && v[q[b] as int] == w[b]);
        } else {
            assert(v[q[b] as int] == w[b] && v[q[a] as int] == w[a]);
        }
    }
    assert(rearranges(c, n)) by {
        assert forall|i: int| 0 <= i < c.len() implies (#[trigger] c[i]) < n by {
            assert(p[i] < n);
            assert(q[p[i] as int] < n);
        }
        assert forall|k: usize| k < n implies #[trigger] c.contains(k) by {
            assert(q.contains(k));
            let x = choose|x: int| 0 <= x < q.len() && q[x] == k;
            lemma_list_short(q, p);
            assert(p.contains(x as usize));
            let y = choose|y: int| 0 <= y < p.len() && p[y] == x as usize;
            assert(c[y] == k);
        }
        assert forall|i: int, j: int| 0 <= i < c.len() && 0 <= j < c.len() && i != j implies c[i] != c[j] by {
            if i < j {
                assert(link_before(v, c[i] as int, c[j] as int));
            } else {
                assert(link_before(v, c[j] as int, c[i] as int));
            }
        }
    }
    lemma_link_order_prefix(v, o, c, n);
    assert(o.take(n) =~= o);
    assert(c.take(n) =~= c);
    assert forall|i: int| 0 <= i < n implies v[(#[trigger] o[i]) as int] == w[p[i] as int] by {
        assert(o[i] == c[i]);
        assert(p[i] < n);
    }
    lemma_settled_same(nodes, root, s, v, o, w, p, n);
}

/// A file is credited to its smallest path: the one name of it that is never
/// taken off comes before every other.
pub proof fn law_the_smallest_path_is_credited(v: Seq<LinkView>, o: Seq<usize>, k: int, j: int)
    requires
        names_once(v),
        link_order(v, o),
        0 <= k < o.len(),
        0 <= j < o.len(),
        k != j,
        v[o[k] as int].dev == v[o[j] as int].dev,
        v[o[k] as int].ino == v[o[j] as int].ino,
        k > 0 ==> v[o[k - 1] as int].dev != v[o[k] as int].dev || v[o[k - 1] as int].ino != v[o[k] as int].ino,
    ensures
        path_before(v[o[k] as int].path, v[o[j] as int].path),
        v[o[j] as int].size != 0 ==> again(v, o, j),
{
    assert(o[k] != o[j] && o[k] < v.len() && o[j] < v.len());
    let (a, b) = (o[k] as int, o[j] as int);
    assert(comps(v[a].path) != comps(v[b].path)) by {
        if a < b {
            assert(v[a] == v[a] && v[b] == v[b]);
        }
    }
    if j < k {
        assert(link_before(v, o[j] as int, o[k - 1] as int) || j == k - 1);
        assert(link_before(v, o[k - 1] as int, o[k] as int));
    } else {
        assert(link_before(v, a, b));
        if j > k + 1 {
            assert(link_before(v, a, o[j - 1] as int));
            assert(link_before(v, o[j - 1] as int, b));
        }
    }
}

/// A further name comes off the folder it stands in and every folder above, and
/// off nothing else; nothing drops below zero.
pub proof fn law_further_names_come_off_every_folder_above(nodes: Seq<Node>, s: Seq<u64>, i: int, d: u64, x: int)
    requires
        0 <= i < nodes.len(),
        s.len() == nodes.len(),
        0 <= x < nodes.len(),
    ensures
        taken_off(nodes, s, i, d).len() == s.len(),
        holds(nodes, x, i) && s[x] >= d ==> taken_off(nodes, s, i, d)[x] == s[x] - d,
        holds(nodes, x, i) && s[x] < d ==> taken_off(nodes, s, i, d)[x] == 0,
        !holds(nodes, x, i) ==> taken_off(nodes, s, i, d)[x] == s[x],
    decreases i,
{
    let t = s.update(i, reduced(s[i], d));
    if let Some(p) = nodes[i].parent {
        if p < i {
            law_further_names_come_off_every_folder_above(nodes, t, p as int, d, x);
            if holds(nodes, x, p as int) {
                lemma_above(nodes, x, p as int);
                assert(x != i);
            }
        }
    }
}

proof fn lemma_above(nodes: Seq<Node>, a: int, i: int)
    requires
        holds(nodes, a, i),
        i >= 0,
    ensures
        a <= i,
    decreases i,
{
    if a != i {
        lemma_above(nodes, a, nodes[i].parent->0 as int);
    }
}

/// A name is a further one exactly if the name before it is of the same file, and
/// there are bytes to take off.
pub proof fn law_further_names(v: Seq<LinkView>, o: Seq<usize>, k: int)
    requires
        1 <= k < o.len(),
    ensures
        again(v, o, k) <==> v[o[k] as int].dev == v[o[k - 1] as int].dev && v[o[k] as int].ino == v[o[k - 1] as int].ino && v[o[k] as int].size
            > 0,
{
}

/// The bytes of a further name come off the file's own node, by name, or else off
/// the small files it was grouped with.
pub proof fn law_a_name_has_its_node(nodes: Seq<Node>, kids: Seq<usize>, kind: NodeKind, name: Seq<u8>, j: int)
    requires
        0 <= j < kids.len(),
        nodes[kids[j] as int].kind == kind,
        kind == NodeKind::File ==> nodes[kids[j] as int].exact() == name,
    ensures
        kid_of(nodes, kids, kind, name) matches Some(c) && nodes[c].kind == kind && (kind == NodeKind::File ==> nodes[c].exact() == name)
            && kids.contains(c as usize),
    decreases kids.len(),
{
    let rest = kids.skip(1);
    let c = nodes[kids[0] as int];
    if c.kind == kind && (kind != NodeKind::File || c.exact() == name) {
        assert(kids.contains(kids[0]));
    } else {
        assert(rest[j - 1] == kids[j]);
        law_a_name_has_its_node(nodes, rest, kind, name, j - 1);
        let x = kid_of(nodes, rest, kind, name)->0 as usize;
        let w = choose|w: int| 0 <= w < rest.len() && rest[w] == x;
        assert(kids[w + 1] == x);
    }
}

/// After links are settled, the folders that lost bytes list their children by
/// size again, the largest first, and equal ones by name.
pub proof fn law_settled_folders_are_sorted_again(nodes: Seq<Node>, s: Seq<u64>, kids: Seq<usize>, list: Seq<usize>, i: int, j: int, x: usize)
    requires
        kids.len() <= usize::MAX,
        kids_sorted(nodes, s, kids, list),
        0 <= i < j < list.len(),
    ensures
        list.contains(x) <==> kids.contains(x),
        s[list[i] as int] >= s[list[j] as int],
        s[list[i] as int] == s[list[j] as int] ==> nodes[list[i] as int].name@ == nodes[list[j] as int].name@ || lex(
            nodes[list[i] as int].name@,
            nodes[list[j] as int].name@,
            char_lt(),
        ),
{
    let o = choose|o: Seq<usize>| #[trigger] kid_order(nodes, s, kids, o) && list == arranged(kids, o);
    law_rearranging_keeps_everything(kids, o, x);
    assert(kid_before(nodes, s, kids, o[i] as int, o[j] as int));
}

} // verus!
