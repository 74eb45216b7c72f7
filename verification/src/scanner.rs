//! The size tree of a scan.
//!
//! Every directory is read with a single `readdir` pass and its subdirectories
//! are read in turn. Sizes are real disk usage (`st_blocks * 512`), hard links
//! are counted once, and by default the scan never crosses into other mounted
//! filesystems.
//!
//! To keep memory bounded on multi-million-file trees, files smaller than
//! `min_file_size` are folded into a single `<N small files>` node per directory.

use vstd::prelude::*;
use vstd::utf8::{decode_utf8, decode_utf8_encode_utf8, encode_utf8, valid_utf8};

use crate::path::{
    bytes_of, comps, copy_name, inside, join_bytes, lemma_join_comps, lossy_text, names_view, plain_name, root_comp,
    same_name, utf8_exact, utf8_lossy, FsPath,
};

verus! {

/// Marker files recorded per directory (used to recognise project roots).
pub const CARGO_TOML: u8 = 1;

pub const PACKAGE_JSON: u8 = 2;

pub const CACHEDIR_TAG: u8 = 4;

#[derive(Clone, Copy, Debug)]
pub struct ScanOptions {
    pub one_file_system: bool,
    pub min_file_size: u64,
    /// 0 = one thread per CPU.
    pub threads: usize,
}

impl Default for ScanOptions {
    fn default() -> (r: Self)
        ensures
            r.one_file_system,
            r.min_file_size == 1048576,
            r.threads == 0,
    {
        Self { one_file_system: true, min_file_size: 1048576, threads: 0 }
    }
}

#[derive(Clone, Copy, PartialEq, Eq, Debug, Structural)]
pub enum NodeKind {
    Dir,
    File,
    /// Several small files folded together.
    Aggregate,
    /// A mount point of another filesystem that was not entered.
    Mount,
}

#[derive(Debug)]
pub struct Node {
    /// Display name (lossy for names that are not valid UTF-8).
    pub name: String,
    /// The exact on-disk name when it is not valid UTF-8 (`name` is lossy then).
    pub raw: Option<Vec<u8>>,
    pub kind: NodeKind,
    pub size: u64,
    pub files: u64,
    pub markers: u8,
    pub unreadable: bool,
    pub parent: Option<usize>,
    /// Sorted by size, largest first.
    pub children: Vec<usize>,
}

/// Arena-allocated result of a scan. Node 0 is the root.
pub struct Tree {
    pub root_path: FsPath,
    pub nodes: Vec<Node>,
    pub dirs: u64,
    pub errors: u64,
}

/// The exact file name that a display name and a raw name stand for.
pub open spec fn exact_name(name: Seq<char>, raw: Option<Vec<u8>>) -> Seq<u8> {
    match raw {
        Some(r) => r@,
        None => encode_utf8(name),
    }
}

impl Node {
    pub open spec fn exact(&self) -> Seq<u8> {
        exact_name(self.name@, self.raw)
    }

    /// Exact file name as on disk; use this, never `name`, to build paths.
    pub fn os_name(&self) -> (r: Vec<u8>)
        ensures
            r@ == self.exact(),
    {
        match &self.raw {
            Some(r) => copy_name(r),
            None => bytes_of(self.name.as_str()),
        }
    }
}

/// The name that is shown for a directory entry.
pub open spec fn shown_name(os: Seq<u8>) -> Seq<char> {
    if valid_utf8(os) {
        decode_utf8(os)
    } else {
        lossy_text(os)
    }
}

/// Split a file name into (display name, exact name if not valid UTF-8).
pub fn split_name(os: Vec<u8>) -> (r: (String, Option<Vec<u8>>))
    ensures
        r.0@ == shown_name(os@),
        r.1 is None <==> valid_utf8(os@),
        exact_name(r.0@, r.1) == os@,
{
    match utf8_exact(&os) {
        Some(s) => {
            proof {
                decode_utf8_encode_utf8(os@);
            }
            (s, None)
        },
        None => (utf8_lossy(&os), Some(os)),
    }
}

/// The node among `kids` that stands for the directory entry `name`.
pub open spec fn entry_named(nodes: Seq<Node>, kids: Seq<usize>, name: Seq<u8>) -> Option<int>
    decreases kids.len(),
{
    if kids.len() == 0 {
        None
    } else {
        let c = nodes[kids[0] as int];
        if c.kind != NodeKind::Aggregate && c.exact() == name {
            Some(kids[0] as int)
        } else {
            entry_named(nodes, kids.skip(1), name)
        }
    }
}

/// Where a list of path components leads from node `i`.
pub open spec fn descend(nodes: Seq<Node>, i: int, path: Seq<Seq<u8>>) -> Option<int>
    decreases path.len(),
{
    if path.len() == 0 {
        Some(i)
    } else if path[0] == seq![46u8] {
        descend(nodes, i, path.skip(1))
    } else if path[0] == seq![46u8, 46u8] || path[0] == root_comp() {
        None
    } else {
        match entry_named(nodes, nodes[i].children@, path[0]) {
            Some(c) => descend(nodes, c, path.skip(1)),
            None => None,
        }
    }
}

/// Where the components `path` lead, if they begin with those of the root.
pub open spec fn located_at(nodes: Seq<Node>, root: Seq<Seq<u8>>, path: Seq<Seq<u8>>) -> Option<int> {
    if root.is_prefix_of(path) {
        descend(nodes, 0, path.skip(root.len() as int))
    } else {
        None
    }
}

/// The node for `path` below the root, if it lies in the tree.
pub open spec fn located(nodes: Seq<Node>, root: Seq<u8>, path: Seq<u8>) -> Option<int> {
    located_at(nodes, comps(root), comps(path))
}

/// The path of node `i`.
pub open spec fn path_at(nodes: Seq<Node>, root: Seq<u8>, i: int) -> Seq<u8>
    decreases i,
{
    match nodes[i].parent {
        Some(p) if p < i => join_bytes(path_at(nodes, root, p as int), nodes[i].exact()),
        _ => root,
    }
}

/// How far node `i` is from the root.
pub open spec fn depth_at(nodes: Seq<Node>, i: int) -> nat
    decreases i,
{
    match nodes[i].parent {
        Some(p) if p < i => depth_at(nodes, p as int) + 1,
        _ => 0,
    }
}

/// `a` is `i` or one of the directories that hold it.
pub open spec fn holds(nodes: Seq<Node>, a: int, i: int) -> bool
    decreases i,
{
    a == i || match nodes[i].parent {
        Some(p) if p < i => holds(nodes, a, p as int),
        _ => false,
    }
}

/// Node `i` has a parent that stands before it and lists it as a child.
pub open spec fn parent_ok(n: Seq<Node>, i: int) -> bool {
    match n[i].parent {
        Some(p) => p < i && n[p as int].children@.contains(i as usize),
        None => false,
    }
}

/// Child `k` of node `i` stands behind it and has it as its parent.
pub open spec fn child_ok(n: Seq<Node>, i: int, k: int) -> bool {
    let c = n[i].children@[k];
    i < c < n.len() && n[c as int].parent == Some(i as usize)
}

/// No child of node `i` is listed twice.
pub open spec fn kids_once(n: Seq<Node>, i: int) -> bool {
    n[i].children@.no_duplicates()
}

/// The arena is a tree: every node but the first one has a parent that stands
/// before it and lists it as a child, once.
pub open spec fn is_tree(n: Seq<Node>) -> bool {
    &&& 0 < n.len() <= usize::MAX
    &&& n[0].parent is None
    &&& forall|i: int| 0 < i < n.len() ==> #[trigger] parent_ok(n, i)
    &&& forall|i: int, k: int| 0 <= i < n.len() && 0 <= k < n[i].children@.len() ==> #[trigger] child_ok(n, i, k)
    &&& forall|i: int| 0 <= i < n.len() ==> #[trigger] kids_once(n, i)
}

/// Two entries of one directory have different names.
pub open spec fn told_apart(n: Seq<Node>, i: int, j: int) -> bool {
    n[i].parent == n[j].parent && n[i].kind != NodeKind::Aggregate && n[j].kind != NodeKind::Aggregate ==> n[i].exact()
        != n[j].exact()
}

/// Nodes that stand for directory entries have the names of entries, and no
/// two of one directory have the same.
pub open spec fn is_named(n: Seq<Node>) -> bool {
    &&& forall|i: int| 0 < i < n.len() && (#[trigger] n[i]).kind != NodeKind::Aggregate ==> plain_name(n[i].exact())
    &&& forall|i: int, j: int| 0 < i < n.len() && 0 < j < n.len() && i != j ==> #[trigger] told_apart(n, i, j)
    &&& forall|i: int| 0 <= i < n.len() && (#[trigger] n[i]).kind == NodeKind::Aggregate ==> n[i].children@.len() == 0
}

proof fn lemma_entry_named(nodes: Seq<Node>, kids: Seq<usize>, name: Seq<u8>)
    ensures
        entry_named(nodes, kids, name) matches Some(c) ==> exists|k: int|
            0 <= k < kids.len() && kids[k] == c && nodes[c].kind != NodeKind::Aggregate && nodes[c].exact() == name,
    decreases kids.len(),
{
    if kids.len() > 0 {
        let c = nodes[kids[0] as int];
        if c.kind != NodeKind::Aggregate && c.exact() == name {
            assert(kids[0] == entry_named(nodes, kids, name)->0);
        } else {
            lemma_entry_named(nodes, kids.skip(1), name);
            if entry_named(nodes, kids.skip(1), name) is Some {
                let c = entry_named(nodes, kids.skip(1), name)->0;
                let k = choose|k: int|
                    0 <= k < kids.skip(1).len() && kids.skip(1)[k] == c && nodes[c].kind != NodeKind::Aggregate
                        && nodes[c].exact() == name;
                assert(kids[k + 1] == c);
            }
        }
    }
}

/// A descent ends at a node of the tree.
pub(crate) proof fn lemma_descent(nodes: Seq<Node>, i: int, path: Seq<Seq<u8>>)
    requires
        is_tree(nodes),
        0 <= i < nodes.len(),
    ensures
        descend(nodes, i, path) matches Some(j) ==> 0 <= j < nodes.len(),
    decreases path.len(),
{
    if path.len() > 0 {
        if path[0] == seq![46u8] {
            lemma_descent(nodes, i, path.skip(1));
        } else {
            let kids = nodes[i].children@;
            lemma_entry_named(nodes, kids, path[0]);
            if let Some(c) = entry_named(nodes, kids, path[0]) {
                let k = choose|k: int|
                    0 <= k < kids.len() && kids[k] == c && nodes[c].kind != NodeKind::Aggregate && nodes[c].exact() == path[0];
                assert(child_ok(nodes, i, k));
                lemma_descent(nodes, c, path.skip(1));
            }
        }
    }
}

impl Tree {
    pub open spec fn wf(&self) -> bool {
        is_tree(self.nodes@)
    }

    pub fn root(&self) -> (r: &Node)
        requires
            self.wf(),
        ensures
            *r == self.nodes@[0],
    {
        &self.nodes[0]
    }

    pub fn path_of(&self, idx: usize) -> (r: FsPath)
        requires
            self.wf(),
            idx < self.nodes@.len(),
        ensures
            r@ == path_at(self.nodes@, self.root_path@, idx as int),
        decreases idx,
    {
        proof {
            if idx > 0 {
                assert(parent_ok(self.nodes@, idx as int));
            }
        }
        match self.nodes[idx].parent {
            Some(p) => {
                let up = self.path_of(p);
                up.join_name(&self.nodes[idx].os_name())
            },
            None => self.root_path.clone(),
        }
    }

    fn child_named(&self, idx: usize, name: &Vec<u8>) -> (r: Option<usize>)
        requires
            self.wf(),
            idx < self.nodes@.len(),
        ensures
            r is Some <==> entry_named(self.nodes@, self.nodes@[idx as int].children@, name@) is Some,
            r matches Some(c) ==> c < self.nodes@.len() && entry_named(
                self.nodes@,
                self.nodes@[idx as int].children@,
                name@,
            ) == Some(c as int),
    {
        let kids = &self.nodes[idx].children;
        assert(kids@.skip(0) =~= kids@);
        for k in 0..kids.len()
            invariant
                self.wf(),
                idx < self.nodes@.len(),
                kids@ == self.nodes@[idx as int].children@,
                entry_named(self.nodes@, kids@, name@) == entry_named(self.nodes@, kids@.skip(k as int), name@),
        {
            let c = kids[k];
            assert(child_ok(self.nodes@, idx as int, k as int));
            assert(kids@.skip(k as int).skip(1) =~= kids@.skip(k + 1));
            assert(kids@.skip(k as int)[0] == c);
            let n = &self.nodes[c];
            if n.kind != NodeKind::Aggregate && same_name(&n.os_name(), name) {
                return Some(c);
            }
        }
        None
    }

    /// Locate the node for `path` (directory, large file or mount point), if it
    /// lies inside the scanned tree.
    pub fn find(&self, path: &FsPath) -> (r: Option<usize>)
        requires
            self.wf(),
        ensures
            r is Some <==> located(self.nodes@, self.root_path@, path@) is Some,
            r matches Some(i) ==> i < self.nodes@.len() && located(self.nodes@, self.root_path@, path@) == Some(i as int),
    {
        if !path.starts_with(&self.root_path) {
            return None;
        }
        let c = path.components();
        let base = self.root_path.components();
        let start: usize = base.len();
        assert(names_view(base@).len() == base@.len());
        assert(names_view(c@).len() == c@.len());
        let ghost all = comps(path@);
        let mut idx: usize = 0;
        for k in start..c.len()
            invariant
                self.wf(),
                names_view(c@) == all,
                all == comps(path@),
                start == comps(self.root_path@).len(),
                inside(path@, self.root_path@),
                idx < self.nodes@.len(),
                located(self.nodes@, self.root_path@, path@) == descend(self.nodes@, idx as int, all.skip(k as int)),
        {
            let name = &c[k];
            proof {
                assert(all.skip(k as int).skip(1) =~= all.skip(k + 1));
                assert(all.skip(k as int)[0] == all[k as int]);
                assert(all[k as int] == name@);
                assert(name@ =~= seq![46u8] <==> (name@.len() == 1 && name@[0] == 46));
                assert(name@ =~= root_comp() <==> (name@.len() == 1 && name@[0] == 47));
                assert(name@ =~= seq![46u8, 46u8] <==> (name@.len() == 2 && name@[0] == 46 && name@[1] == 46));
            }
            // `..` would silently resolve to the wrong node.
            if (name.len() == 2 && name[0] == 46 && name[1] == 46) || (name.len() == 1 && name[0] == 47) {
                return None;
            }
            if !(name.len() == 1 && name[0] == 46) {
                // Exact byte comparison: a lossy match could pick a look-alike
                // sibling (`caf\xe9` vs a real `caf\u{FFFD}`).
                match self.child_named(idx, name) {
                    Some(child) => {
                        idx = child;
                    },
                    None => return None,
                }
            }
        }
        assert(all.skip(c@.len() as int) =~= Seq::empty());
        Some(idx)
    }

    pub fn depth_of(&self, idx: usize) -> (r: usize)
        requires
            self.wf(),
            idx < self.nodes@.len(),
        ensures
            r == depth_at(self.nodes@, idx as int),
            r <= idx,
    {
        let mut d: usize = 0;
        let mut i: usize = idx;
        loop
            invariant
                self.wf(),
                i < self.nodes@.len(),
                d + i <= idx,
                d + depth_at(self.nodes@, i as int) == depth_at(self.nodes@, idx as int),
            decreases i,
        {
            proof {
                if i > 0 {
                    assert(parent_ok(self.nodes@, i as int));
                }
            }
            match self.nodes[i].parent {
                Some(p) => {
                    d += 1;
                    i = p;
                },
                None => return d,
            }
        }
    }
}

/// The names from the root down to node `i`.
pub open spec fn trail(nodes: Seq<Node>, i: int) -> Seq<Seq<u8>>
    decreases i,
{
    match nodes[i].parent {
        Some(p) if p < i => trail(nodes, p as int).push(nodes[i].exact()),
        _ => Seq::empty(),
    }
}

proof fn lemma_unique_entry(nodes: Seq<Node>, kids: Seq<usize>, name: Seq<u8>, i: int)
    requires
        0 <= i <= usize::MAX,
        kids.contains(i as usize),
        nodes[i].kind != NodeKind::Aggregate,
        nodes[i].exact() == name,
        forall|k: int|
            0 <= k < kids.len() && kids[k] != i && nodes[#[trigger] kids[k] as int].kind != NodeKind::Aggregate
                ==> nodes[kids[k] as int].exact() != name,
    ensures
        entry_named(nodes, kids, name) == Some(i),
    decreases kids.len(),
{
    let w = choose|w: int| 0 <= w < kids.len() && kids[w] == i as usize;
    if kids[0] != i {
        assert(kids.skip(1)[w - 1] == i as usize);
        assert forall|k: int|
            0 <= k < kids.skip(1).len() && kids.skip(1)[k] != i && nodes[#[trigger] kids.skip(1)[k] as int].kind
                != NodeKind::Aggregate implies nodes[kids.skip(1)[k] as int].exact() != name by {
            assert(kids.skip(1)[k] == kids[k + 1]);
        }
        lemma_unique_entry(nodes, kids.skip(1), name, i);
    }
}

proof fn lemma_child_entry(nodes: Seq<Node>, i: int)
    requires
        is_tree(nodes),
        is_named(nodes),
        0 < i < nodes.len(),
        nodes[i].kind != NodeKind::Aggregate,
    ensures
        nodes[i].parent is Some,
        entry_named(nodes, nodes[nodes[i].parent->0 as int].children@, nodes[i].exact()) == Some(i),
        nodes[nodes[i].parent->0 as int].kind != NodeKind::Aggregate,
{
    assert(parent_ok(nodes, i));
    let p = nodes[i].parent->0 as int;
    let kids = nodes[p].children@;
    let name = nodes[i].exact();
    assert forall|k: int|
        0 <= k < kids.len() && kids[k] != i && nodes[#[trigger] kids[k] as int].kind
            != NodeKind::Aggregate implies nodes[kids[k] as int].exact() != name by {
        assert(child_ok(nodes, p, k));
        assert(told_apart(nodes, i, kids[k] as int));
    }
    lemma_unique_entry(nodes, kids, name, i);
    let w = choose|w: int| 0 <= w < kids.len() && kids[w] == i as usize;
    assert(kids.len() > 0);
}

proof fn lemma_descend_push(nodes: Seq<Node>, j: int, path: Seq<Seq<u8>>, name: Seq<u8>)
    ensures
        descend(nodes, j, path.push(name)) == (match descend(nodes, j, path) {
            Some(i) => descend(nodes, i, seq![name]),
            None => None,
        }),
    decreases path.len(),
{
    let q = path.push(name);
    if path.len() == 0 {
        assert(q =~= seq![name]);
    } else {
        assert(q[0] == path[0]);
        assert(q.skip(1) =~= path.skip(1).push(name));
        if path[0] == seq![46u8] {
            lemma_descend_push(nodes, j, path.skip(1), name);
        } else if path[0] != seq![46u8, 46u8] && path[0] != root_comp() {
            match entry_named(nodes, nodes[j].children@, path[0]) {
                Some(c) => {
                    lemma_descend_push(nodes, c, path.skip(1), name);
                },
                None => {},
            }
        }
    }
}

pub(crate) proof fn lemma_trail_leads(nodes: Seq<Node>, root: Seq<u8>, i: int)
    requires
        is_tree(nodes),
        is_named(nodes),
        0 <= i < nodes.len(),
        i > 0 ==> nodes[i].kind != NodeKind::Aggregate,
        root.len() > 0,
    ensures
        descend(nodes, 0, trail(nodes, i)) == Some(i),
        comps(path_at(nodes, root, i)) == comps(root) + trail(nodes, i),
        path_at(nodes, root, i).len() > 0,
    decreases i,
{
    if i > 0 {
        assert(parent_ok(nodes, i));
        let p = nodes[i].parent->0 as int;
        let name = nodes[i].exact();
        lemma_child_entry(nodes, i);
        lemma_trail_leads(nodes, root, p);
        assert(plain_name(name));
        lemma_join_comps(path_at(nodes, root, p), name);
        assert(comps(path_at(nodes, root, i)) =~= comps(root) + trail(nodes, i));
        lemma_descend_push(nodes, 0, trail(nodes, p), name);
        assert(name != root_comp()) by {
            if name == root_comp() {
                assert(name[0] == 47);
            }
        }
        assert(seq![name].skip(1) =~= Seq::empty());
        assert(seq![name][0] == name);
        assert(descend(nodes, i, seq![name].skip(1)) == Some(i));
        assert(descend(nodes, p, seq![name]) == Some(i));
    } else {
        assert(comps(root) + Seq::<Seq<u8>>::empty() =~= comps(root));
    }
}

/// Looking up the path of a node finds that node again.
pub proof fn law_find_inverts_path_of(nodes: Seq<Node>, root: Seq<u8>, i: int)
    requires
        is_tree(nodes),
        is_named(nodes),
        root.len() > 0,
        0 <= i < nodes.len(),
        i == 0 || nodes[i].kind != NodeKind::Aggregate,
    ensures
        located(nodes, root, path_at(nodes, root, i)) == Some(i),
{
    lemma_trail_leads(nodes, root, i);
    let c = comps(path_at(nodes, root, i));
    let n = comps(root).len() as int;
    assert(c.subrange(0, n) =~= comps(root));
    assert(c.skip(n) =~= trail(nodes, i));
}

proof fn lemma_descend_trail(nodes: Seq<Node>, j: int, path: Seq<Seq<u8>>)
    requires
        is_tree(nodes),
        0 <= j < nodes.len(),
        forall|k: int| 0 <= k < path.len() ==> #[trigger] path[k] != seq![46u8],
    ensures
        descend(nodes, j, path) matches Some(i) ==> 0 <= i < nodes.len() && trail(nodes, i) == trail(nodes, j) + path
            && (path.len() > 0 ==> i > 0 && nodes[i].kind != NodeKind::Aggregate),
    decreases path.len(),
{
    if path.len() == 0 {
        assert(trail(nodes, j) + path =~= trail(nodes, j));
    } else if path[0] != seq![46u8, 46u8] && path[0] != root_comp() {
        let kids = nodes[j].children@;
        lemma_entry_named(nodes, kids, path[0]);
        match entry_named(nodes, kids, path[0]) {
            Some(c) => {
                let k = choose|k: int|
                    0 <= k < kids.len() && kids[k] == c && nodes[c].kind != NodeKind::Aggregate && nodes[c].exact()
                        == path[0];
                assert(child_ok(nodes, j, k));
                assert forall|m: int| 0 <= m < path.skip(1).len() implies #[trigger] path.skip(1)[m] != seq![46u8] by {
                    assert(path.skip(1)[m] == path[m + 1]);
                }
                lemma_descend_trail(nodes, c, path.skip(1));
                assert(trail(nodes, c) == trail(nodes, j).push(path[0]));
                assert(trail(nodes, j).push(path[0]) + path.skip(1) =~= trail(nodes, j) + path);
            },
            None => {},
        }
    }
}

/// A node that is found for a path is the one at that path: no other spelling
/// of a name leads to it.
pub proof fn law_found_node_has_the_path(nodes: Seq<Node>, root: Seq<u8>, path: Seq<u8>)
    requires
        is_tree(nodes),
        is_named(nodes),
        crate::path::absolute(root),
    ensures
        located(nodes, root, path) matches Some(i) ==> 0 <= i < nodes.len() && comps(path_at(nodes, root, i)) == comps(path),
{
    if located(nodes, root, path) is Some {
        let i = located(nodes, root, path)->0;
        let n = comps(root).len() as int;
        let rest = comps(path).skip(n);
        assert(comps(root)[0] == root_comp());
        assert(comps(path).subrange(0, n)[0] == comps(path)[0]);
        crate::path::lemma_root_only(path);
        assert(crate::path::absolute(path));
        assert forall|k: int| 0 <= k < rest.len() implies #[trigger] rest[k] != seq![46u8] by {
            crate::path::lemma_names_fit(path, true, n + k - 1);
            assert(rest[k] == comps(path)[n + k]);
            assert(comps(path)[n + k] == crate::path::names(path, true)[n + k - 1]);
        }
        lemma_descend_trail(nodes, 0, rest);
        assert(trail(nodes, 0) =~= Seq::empty());
        assert(trail(nodes, i) =~= rest);
        lemma_trail_leads(nodes, root, i);
        assert(comps(root) + rest =~= comps(path)) by {
            assert(comps(path) =~= comps(path).subrange(0, n) + rest);
        }
    }
}

proof fn lemma_descend_entry(nodes: Seq<Node>, j: int, path: Seq<Seq<u8>>)
    ensures
        descend(nodes, j, path) matches Some(i) ==> i == j || nodes[i].kind != NodeKind::Aggregate,
        path.contains(seq![46u8, 46u8]) ==> descend(nodes, j, path) is None,
    decreases path.len(),
{
    if path.len() > 0 {
        let up = seq![46u8, 46u8];
        assert(up.len() == 2 && seq![46u8].len() == 1 && root_comp().len() == 1);
        if path.contains(up) && path[0] != up {
            let w = choose|w: int| 0 <= w < path.len() && path[w] == up;
            assert(path.skip(1)[w - 1] == up);
        }
        if path[0] == seq![46u8] {
            lemma_descend_entry(nodes, j, path.skip(1));
        } else if path[0] != up && path[0] != root_comp() {
            lemma_entry_named(nodes, nodes[j].children@, path[0]);
            if let Some(c) = entry_named(nodes, nodes[j].children@, path[0]) {
                lemma_descend_entry(nodes, c, path.skip(1));
            }
        }
    }
}

/// The node that small files are folded into is never found, for it stands for
/// no path.
pub proof fn law_small_files_are_never_found(nodes: Seq<Node>, root: Seq<u8>, path: Seq<u8>)
    ensures
        located(nodes, root, path) matches Some(i) ==> i == 0 || nodes[i].kind != NodeKind::Aggregate,
{
    lemma_descend_entry(nodes, 0, comps(path).skip(comps(root).len() as int));
}

/// A path that climbs is never found: `..` would lead to the wrong node.
pub proof fn law_climbing_paths_are_never_found(nodes: Seq<Node>, root: Seq<u8>, path: Seq<u8>)
    requires
        !comps(root).contains(seq![46u8, 46u8]),
        comps(path).contains(seq![46u8, 46u8]),
    ensures
        located(nodes, root, path) is None,
{
    let n = comps(root).len() as int;
    let rest = comps(path).skip(n);
    if comps(root).is_prefix_of(comps(path)) {
        let w = choose|w: int| 0 <= w < comps(path).len() && comps(path)[w] == seq![46u8, 46u8];
        if w < n {
            assert(comps(path).subrange(0, n)[w] == comps(root)[w]);
        } else {
            assert(rest[w - n] == seq![46u8, 46u8]);
        }
        lemma_descend_entry(nodes, 0, rest);
    }
}

/// How many nodes a walk from node `i` visits at most.
pub open spec fn visits(n: Seq<Node>, i: int) -> nat
    decreases n.len() - i, 0int, 0int,
{
    if 0 <= i < n.len() {
        1 + visits_below(n, i, n[i].children@.len() as int)
    } else {
        0
    }
}

pub open spec fn visits_below(n: Seq<Node>, i: int, k: int) -> nat
    decreases n.len() - i - 1, 1int, k,
    when 0 <= i < n.len()
{
    if k <= 0 {
        0
    } else {
        let c = n[i].children@[k - 1] as int;
        visits_below(n, i, k - 1) + if i < c < n.len() {
            visits(n, c)
        } else {
            0
        }
    }
}

} // verus!
