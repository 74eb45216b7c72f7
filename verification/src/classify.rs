//! Classifies tree nodes by the *kind* of data they hold, for treemap colours
//! (an idea borrowed from disktree), and flags space that can be had back.

use vstd::prelude::*;
use vstd::utf8::encode_utf8;

use crate::path::same_path;
use crate::scanner::{
    is_tree, parent_ok, Node, NodeKind, Tree, CACHEDIR_TAG, CARGO_TOML, PACKAGE_JSON,
};
use crate::text::{after_last, behind_last, chars_of, contains, has, lowercase, same, slice, string_of, to_lower};

verus! {

#[derive(Clone, Copy, Debug, PartialEq, Eq, Hash, Structural)]
pub enum Kind {
    Code,
    Git,
    Build,
    Cache,
    Toolchain,
    Media,
    Documents,
    Containers,
    Logs,
    System,
    Other,
}

/// What a kind of data is called.
pub open spec fn kind_label(k: Kind) -> Seq<char> {
    match k {
        Kind::Code => "code"@,
        Kind::Git => "git"@,
        Kind::Build => "build output"@,
        Kind::Cache => "caches"@,
        Kind::Toolchain => "toolchains"@,
        Kind::Media => "media"@,
        Kind::Documents => "documents"@,
        Kind::Containers => "VMs & containers"@,
        Kind::Logs => "logs"@,
        Kind::System => "system"@,
        Kind::Other => "other"@,
    }
}

impl Kind {
    pub const LEGEND: [Kind; 10] = [
        Kind::Code,
        Kind::Git,
        Kind::Build,
        Kind::Cache,
        Kind::Toolchain,
        Kind::Media,
        Kind::Documents,
        Kind::Containers,
        Kind::Logs,
        Kind::System,
    ];

    pub fn label(self) -> (r: &'static str)
        ensures
            r@ == kind_label(self),
    {
        match self {
            Kind::Code => "code",
            Kind::Git => "git",
            Kind::Build => "build output",
            Kind::Cache => "caches",
            Kind::Toolchain => "toolchains",
            Kind::Media => "media",
            Kind::Documents => "documents",
            Kind::Containers => "VMs & containers",
            Kind::Logs => "logs",
            Kind::System => "system",
            Kind::Other => "other",
        }
    }

    /// Base colour (r, g, b), muted; the UI lightens it with depth.
    pub fn rgb(self) -> (r: (u8, u8, u8))
        ensures
            r == (match self {
                Kind::Code => (70u8, 130u8, 200u8),
                Kind::Git => (196u8, 110u8, 80u8),
                Kind::Build => (150u8, 105u8, 190u8),
                Kind::Cache => (95u8, 165u8, 95u8),
                Kind::Toolchain => (60u8, 150u8, 150u8),
                Kind::Media => (190u8, 90u8, 150u8),
                Kind::Documents => (120u8, 135u8, 185u8),
                Kind::Containers => (60u8, 165u8, 200u8),
                Kind::Logs => (170u8, 145u8, 95u8),
                Kind::System => (95u8, 102u8, 125u8),
                Kind::Other => (105u8, 110u8, 120u8),
            }),
    {
        match self {
            Kind::Code => (70, 130, 200),
            Kind::Git => (196, 110, 80),
            Kind::Build => (150, 105, 190),
            Kind::Cache => (95, 165, 95),
            Kind::Toolchain => (60, 150, 150),
            Kind::Media => (190, 90, 150),
            Kind::Documents => (120, 135, 185),
            Kind::Containers => (60, 165, 200),
            Kind::Logs => (170, 145, 95),
            Kind::System => (95, 102, 125),
            Kind::Other => (105, 110, 120),
        }
    }
}

/// A text is one of a list.
pub open spec fn one_of(t: Seq<char>, list: Seq<Seq<char>>) -> bool {
    exists|i: int| 0 <= i < list.len() && t == #[trigger] list[i]
}

pub open spec fn strs(v: Seq<&'static str>) -> Seq<Seq<char>> {
    Seq::new(v.len(), |i: int| v[i]@)
}

/// Is `t` one of `list`?
pub fn is_one_of(t: &str, list: &Vec<&'static str>) -> (r: bool)
    ensures
        r == one_of(t@, strs(list@)),
{
    for i in 0..list.len()
        invariant
            forall|j: int| 0 <= j < i ==> t@ != #[trigger] strs(list@)[j],
    {
        if same(t, list[i]) {
            assert(t@ == strs(list@)[i as int]);
            return true;
        }
        assert(t@ != strs(list@)[i as int]);
    }
    false
}

pub open spec fn media_names() -> Seq<Seq<char>> {
    seq![
        "jpg"@, "jpeg"@, "png"@, "gif"@, "webp"@, "heic"@, "raw"@, "cr2"@, "nef"@, "mp4"@, "mkv"@, "mov"@, "avi"@,
        "webm"@, "mp3"@, "flac"@, "wav"@, "ogg"@, "m4a"@, "svg"@, "psd"@,
    ]
}

pub open spec fn document_names() -> Seq<Seq<char>> {
    seq![
        "pdf"@, "doc"@, "docx"@, "odt"@, "xls"@, "xlsx"@, "ods"@, "ppt"@, "pptx"@, "odp"@, "txt"@, "md"@, "epub"@,
    ]
}

pub open spec fn image_names() -> Seq<Seq<char>> {
    seq!["iso"@, "img"@, "qcow2"@, "vdi"@, "vmdk"@, "vhd"@, "vhdx"@, "ova"@]
}

pub open spec fn package_names() -> Seq<Seq<char>> {
    seq!["deb"@, "snap"@, "whl"@, "crate"@, "tgz"@]
}

pub open spec fn source_names() -> Seq<Seq<char>> {
    seq!["rs"@, "py"@, "js"@, "ts"@, "go"@, "c"@, "cpp"@, "h"@, "java"@, "rb"@]
}

/// The extension of a file name in lower case: what follows its last dot.
pub open spec fn extension(name: Seq<char>) -> Option<Seq<char>> {
    if after_last(name, '.') > 0 {
        Some(lowercase(name.skip(after_last(name, '.'))))
    } else {
        None
    }
}

/// The kind of data that the name of a file stands for.
pub open spec fn kind_by_extension(name: Seq<char>) -> Option<Kind> {
    match extension(name) {
        None => None,
        Some(ext) => if one_of(ext, media_names()) {
            Some(Kind::Media)
        } else if one_of(ext, document_names()) {
            Some(Kind::Documents)
        } else if one_of(ext, image_names()) {
            Some(Kind::Containers)
        } else if ext == "log"@ || ext == "journal"@ || (ext == "gz"@ && contains(name, "log"@)) {
            Some(Kind::Logs)
        } else if one_of(ext, package_names()) {
            Some(Kind::Cache)
        } else if one_of(ext, source_names()) {
            Some(Kind::Code)
        } else {
            None
        },
    }
}

/// The kind of a file, by the extension of its name.
pub fn by_extension(name: &str) -> (r: Option<Kind>)
    ensures
        r == kind_by_extension(name@),
{
    let v = chars_of(name);
    let at = behind_last(&v, '.');
    if at == 0 {
        return None;
    }
    let tail = slice(&v, at, v.len());
    assert(tail@ =~= name@.skip(at as int));
    let ext = string_of(&to_lower(&tail));
    let e = ext.as_str();
    let media: Vec<&'static str> = vec![
        "jpg", "jpeg", "png", "gif", "webp", "heic", "raw", "cr2", "nef", "mp4", "mkv", "mov", "avi",
        "webm", "mp3", "flac", "wav", "ogg", "m4a", "svg", "psd",
    ];
    assert(strs(media@) =~= media_names());
    if is_one_of(e, &media) {
        return Some(Kind::Media);
    }
    let documents: Vec<&'static str> = vec![
        "pdf", "doc", "docx", "odt", "xls", "xlsx", "ods", "ppt", "pptx", "odp", "txt", "md", "epub",
    ];
    assert(strs(documents@) =~= document_names());
    if is_one_of(e, &documents) {
        return Some(Kind::Documents);
    }
    let images: Vec<&'static str> = vec!["iso", "img", "qcow2", "vdi", "vmdk", "vhd", "vhdx", "ova"];
    assert(strs(images@) =~= image_names());
    if is_one_of(e, &images) {
        return Some(Kind::Containers);
    }
    if same(e, "log") || same(e, "journal") || (same(e, "gz") && has(&v, "log")) {
        return Some(Kind::Logs);
    }
    let packages: Vec<&'static str> = vec!["deb", "snap", "whl", "crate", "tgz"];
    assert(strs(packages@) =~= package_names());
    if is_one_of(e, &packages) {
        return Some(Kind::Cache);
    }
    let sources: Vec<&'static str> = vec!["rs", "py", "js", "ts", "go", "c", "cpp", "h", "java", "rb"];
    assert(strs(sources@) =~= source_names());
    if is_one_of(e, &sources) {
        return Some(Kind::Code);
    }
    None
}

pub open spec fn build_dirs() -> Seq<Seq<char>> {
    seq![
        "node_modules"@, "__pycache__"@, ".pytest_cache"@, ".mypy_cache"@, ".next"@, ".gradle"@, ".tox"@,
        "cmake-build-debug"@,
    ]
}

pub open spec fn output_dirs() -> Seq<Seq<char>> {
    seq!["build"@, "dist"@, "out"@]
}

pub open spec fn cache_dirs() -> Seq<Seq<char>> {
    seq![".cache"@, "cache"@, "caches"@, "_cacache"@, "thumbnails"@, ".npm"@, "archives"@]
}

pub open spec fn tool_dirs() -> Seq<Seq<char>> {
    seq![
        ".rustup"@, ".cargo"@, ".nvm"@, ".pyenv"@, ".sdkman"@, "go"@, ".vscode-server"@, ".local"@, "snap"@, "flatpak"@,
        "opt"@,
    ]
}

pub open spec fn media_dirs() -> Seq<Seq<char>> {
    seq!["pictures"@, "videos"@, "music"@, "photos"@, "movies"@]
}

pub open spec fn document_dirs() -> Seq<Seq<char>> {
    seq!["documents"@, "desktop"@, "downloads"@, "templates"@, "public"@]
}

pub open spec fn container_dirs() -> Seq<Seq<char>> {
    seq!["docker"@, "containers"@, "virtualbox vms"@, "libvirt"@, "lxd"@, ".docker"@]
}

pub open spec fn log_dirs() -> Seq<Seq<char>> {
    seq!["log"@, "logs"@, "journal"@, "crash"@]
}

pub open spec fn code_dirs() -> Seq<Seq<char>> {
    seq!["src"@, "projects"@, "code"@, "repos"@, "workspace"@, "dev"@, "git"@]
}

/// The kind of data that the name of a directory stands for, given the markers
/// in it and in its parent.
pub open spec fn kind_by_dir(name: Seq<char>, markers: u8, parent_markers: u8) -> Option<Kind> {
    let n = lowercase(name);
    if n == ".git"@ {
        Some(Kind::Git)
    } else if one_of(n, build_dirs()) {
        Some(Kind::Build)
    } else if n == "target"@ && (parent_markers & CARGO_TOML != 0 || markers & CACHEDIR_TAG != 0) {
        Some(Kind::Build)
    } else if one_of(n, output_dirs()) && parent_markers & (CARGO_TOML | PACKAGE_JSON) != 0 {
        Some(Kind::Build)
    } else if one_of(n, cache_dirs()) {
        Some(Kind::Cache)
    } else if one_of(n, tool_dirs()) {
        Some(Kind::Toolchain)
    } else if one_of(n, media_dirs()) {
        Some(Kind::Media)
    } else if one_of(n, document_dirs()) {
        Some(Kind::Documents)
    } else if one_of(n, container_dirs()) {
        Some(Kind::Containers)
    } else if one_of(n, log_dirs()) {
        Some(Kind::Logs)
    } else if one_of(n, code_dirs()) {
        Some(Kind::Code)
    } else if markers & (CARGO_TOML | PACKAGE_JSON) != 0 {
        Some(Kind::Code)
    } else if contains(n, "cache"@) {
        Some(Kind::Cache)
    } else {
        None
    }
}

/// The kind of a directory, by its name and the markers in it and its parent.
pub fn by_dir_name(name: &str, markers: u8, parent_markers: u8) -> (r: Option<Kind>)
    ensures
        r == kind_by_dir(name@, markers, parent_markers),
{
    let low = to_lower(&chars_of(name));
    let lower = string_of(&low);
    let n = lower.as_str();
    if same(n, ".git") {
        return Some(Kind::Git);
    }
    let build: Vec<&'static str> = vec![
        "node_modules", "__pycache__", ".pytest_cache", ".mypy_cache", ".next", ".gradle", ".tox", "cmake-build-debug",
    ];
    assert(strs(build@) =~= build_dirs());
    if is_one_of(n, &build) {
        return Some(Kind::Build);
    }
    if same(n, "target") && (parent_markers & CARGO_TOML != 0 || markers & CACHEDIR_TAG != 0) {
        return Some(Kind::Build);
    }
    let output: Vec<&'static str> = vec!["build", "dist", "out"];
    assert(strs(output@) =~= output_dirs());
    if is_one_of(n, &output) && parent_markers & (CARGO_TOML | PACKAGE_JSON) != 0 {
        return Some(Kind::Build);
    }
    let cache: Vec<&'static str> = vec![".cache", "cache", "caches", "_cacache", "thumbnails", ".npm", "archives"];
    assert(strs(cache@) =~= cache_dirs());
    if is_one_of(n, &cache) {
        return Some(Kind::Cache);
    }
    let tools: Vec<&'static str> = vec![
        ".rustup", ".cargo", ".nvm", ".pyenv", ".sdkman", "go", ".vscode-server", ".local", "snap", "flatpak", "opt",
    ];
    assert(strs(tools@) =~= tool_dirs());
    if is_one_of(n, &tools) {
        return Some(Kind::Toolchain);
    }
    let media: Vec<&'static str> = vec!["pictures", "videos", "music", "photos", "movies"];
    assert(strs(media@) =~= media_dirs());
    if is_one_of(n, &media) {
        return Some(Kind::Media);
    }
    let documents: Vec<&'static str> = vec!["documents", "desktop", "downloads", "templates", "public"];
    assert(strs(documents@) =~= document_dirs());
    if is_one_of(n, &documents) {
        return Some(Kind::Documents);
    }
    let containers: Vec<&'static str> = vec!["docker", "containers", "virtualbox vms", "libvirt", "lxd", ".docker"];
    assert(strs(containers@) =~= container_dirs());
    if is_one_of(n, &containers) {
        return Some(Kind::Containers);
    }
    let logs: Vec<&'static str> = vec!["log", "logs", "journal", "crash"];
    assert(strs(logs@) =~= log_dirs());
    if is_one_of(n, &logs) {
        return Some(Kind::Logs);
    }
    let code: Vec<&'static str> = vec!["src", "projects", "code", "repos", "workspace", "dev", "git"];
    assert(strs(code@) =~= code_dirs());
    if is_one_of(n, &code) {
        return Some(Kind::Code);
    }
    if markers & (CARGO_TOML | PACKAGE_JSON) != 0 {
        return Some(Kind::Code);
    }
    if has(&low, "cache") {
        return Some(Kind::Cache);
    }
    None
}

pub open spec fn system_dirs() -> Seq<Seq<char>> {
    seq!["usr"@, "lib"@, "lib32"@, "lib64"@, "bin"@, "sbin"@, "boot"@, "etc"@]
}

/// What node `i` is by itself; directly below `/`, the system directories are
/// known by name.
pub open spec fn own_kind(nodes: Seq<Node>, root: Seq<u8>, i: int) -> Option<Kind> {
    let n = nodes[i];
    match n.kind {
        NodeKind::Dir => if n.parent == Some(0usize) && same_path(root, encode_utf8("/"@)) && one_of(
            n.name@,
            system_dirs(),
        ) {
            Some(Kind::System)
        } else {
            kind_by_dir(
                n.name@,
                n.markers,
                match n.parent {
                    Some(p) => nodes[p as int].markers,
                    None => 0,
                },
            )
        },
        NodeKind::File => kind_by_extension(n.name@),
        _ => None,
    }
}

/// Build output, caches and repositories colour everything inside them.
pub open spec fn sticky(k: Kind) -> bool {
    k == Kind::Build || k == Kind::Cache || k == Kind::Git
}

/// The kind of node `i`: its own where it has one, unless it lies in something
/// sticky; a node without a kind of its own has its parent's.
pub open spec fn kind_at(nodes: Seq<Node>, root: Seq<u8>, i: int) -> Kind
    decreases i,
{
    let inherited = match nodes[i].parent {
        Some(p) if p < i => kind_at(nodes, root, p as int),
        _ => Kind::Other,
    };
    match own_kind(nodes, root, i) {
        Some(k) => if sticky(k) || !sticky(inherited) {
            k
        } else {
            inherited
        },
        None => inherited,
    }
}

fn is_sticky(k: Kind) -> (r: bool)
    ensures
        r == sticky(k),
{
    k == Kind::Build || k == Kind::Cache || k == Kind::Git
}

/// Kind of every node; unclassified nodes inherit their parent's kind.
pub fn classify(t: &Tree) -> (r: Vec<Kind>)
    requires
        t.wf(),
    ensures
        r@.len() == t.nodes@.len(),
        forall|i: int| 0 <= i < r@.len() ==> #[trigger] r@[i] == kind_at(t.nodes@, t.root_path@, i),
{
    let at_root = t.root_path.is("/");
    let system: Vec<&'static str> = vec!["usr", "lib", "lib32", "lib64", "bin", "sbin", "boot", "etc"];
    assert(strs(system@) =~= system_dirs());
    let mut kinds: Vec<Kind> = Vec::new();
    for i in 0..t.nodes.len()
        invariant
            t.wf(),
            at_root == same_path(t.root_path@, encode_utf8("/"@)),
            strs(system@) == system_dirs(),
            kinds@.len() == i,
            forall|j: int| 0 <= j < i ==> #[trigger] kinds@[j] == kind_at(t.nodes@, t.root_path@, j),
    {
        let n = &t.nodes[i];
        proof {
            if i > 0 {
                assert(parent_ok(t.nodes@, i as int));
            }
        }
        // Parents always precede children in the arena, so `inherited` is final.
        let (inherited, parent_markers) = match n.parent {
            Some(p) => (kinds[p], t.nodes[p].markers),
            None => (Kind::Other, 0u8),
        };
        let top = match n.parent {
            Some(p) => p == 0,
            None => false,
        };
        let own = match n.kind {
            NodeKind::Dir => if top && at_root && is_one_of(n.name.as_str(), &system) {
                Some(Kind::System)
            } else {
                by_dir_name(n.name.as_str(), n.markers, parent_markers)
            },
            NodeKind::File => by_extension(n.name.as_str()),
            _ => None,
        };
        // Build/cache/git override whatever is above; others only refine "Other"
        // or System/Toolchain containers.
        let kind = match own {
            Some(k) => if is_sticky(k) || !is_sticky(inherited) {
                k
            } else {
                inherited
            },
            None => inherited,
        };
        kinds.push(kind);
    }
    kinds
}

/// Whatever lies in build output, a cache or a repository is of one of these
/// kinds too.
pub proof fn law_sticky_kinds_reach_down(nodes: Seq<Node>, root: Seq<u8>, a: int, i: int)
    requires
        is_tree(nodes),
        0 <= i < nodes.len(),
        crate::scanner::holds(nodes, a, i),
        sticky(kind_at(nodes, root, a)),
    ensures
        sticky(kind_at(nodes, root, i)),
    decreases i,
{
    if a != i {
        assert(parent_ok(nodes, i));
        law_sticky_kinds_reach_down(nodes, root, a, nodes[i].parent->0 as int);
    }
}

/// Pictures, films and sound, by extension.
pub proof fn law_media_extensions(t: Seq<char>)
    ensures
        one_of(t, media_names()) <==> (t == "jpg"@ || t == "jpeg"@ || t == "png"@ || t == "gif"@ || t == "webp"@ || t == "heic"@ || t == "raw"@
            || t == "cr2"@ || t == "nef"@ || t == "mp4"@ || t == "mkv"@ || t == "mov"@ || t == "avi"@ || t == "webm"@
            || t == "mp3"@ || t == "flac"@ || t == "wav"@ || t == "ogg"@ || t == "m4a"@ || t == "svg"@ || t == "psd"@),
{
    let l = media_names();
    assert(l[0] == "jpg"@);
    assert(l[1] == "jpeg"@);
    assert(l[2] == "png"@);
    assert(l[3] == "gif"@);
    assert(l[4] == "webp"@);
    assert(l[5] == "heic"@);
    assert(l[6] == "raw"@);
    assert(l[7] == "cr2"@);
    assert(l[8] == "nef"@);
    assert(l[9] == "mp4"@);
    assert(l[10] == "mkv"@);
    assert(l[11] == "mov"@);
    assert(l[12] == "avi"@);
    assert(l[13] == "webm"@);
    assert(l[14] == "mp3"@);
    assert(l[15] == "flac"@);
    assert(l[16] == "wav"@);
    assert(l[17] == "ogg"@);
    assert(l[18] == "m4a"@);
    assert(l[19] == "svg"@);
    assert(l[20] == "psd"@);
    assert(l.len() == 21);
    if one_of(t, l) {
        let i = choose|i: int| 0 <= i < l.len() && t == #[trigger] l[i];
        assert(t == l[i]);
    }
}

/// Documents, by extension.
pub proof fn law_document_extensions(t: Seq<char>)
    ensures
        one_of(t, document_names()) <==> (t == "pdf"@ || t == "doc"@ || t == "docx"@ || t == "odt"@ || t == "xls"@ || t == "xlsx"@ || t == "ods"@
            || t == "ppt"@ || t == "pptx"@ || t == "odp"@ || t == "txt"@ || t == "md"@ || t == "epub"@),
{
    let l = document_names();
    assert(l[0] == "pdf"@);
    assert(l[1] == "doc"@);
    assert(l[2] == "docx"@);
    assert(l[3] == "odt"@);
    assert(l[4] == "xls"@);
    assert(l[5] == "xlsx"@);
    assert(l[6] == "ods"@);
    assert(l[7] == "ppt"@);
    assert(l[8] == "pptx"@);
    assert(l[9] == "odp"@);
    assert(l[10] == "txt"@);
    assert(l[11] == "md"@);
    assert(l[12] == "epub"@);
    assert(l.len() == 13);
    if one_of(t, l) {
        let i = choose|i: int| 0 <= i < l.len() && t == #[trigger] l[i];
        assert(t == l[i]);
    }
}

/// Disk images, by extension.
pub proof fn law_disk_image_extensions(t: Seq<char>)
    ensures
        one_of(t, image_names()) <==> (t == "iso"@ || t == "img"@ || t == "qcow2"@ || t == "vdi"@ || t == "vmdk"@ || t == "vhd"@ || t == "vhdx"@
            || t == "ova"@),
{
    let l = image_names();
    assert(l[0] == "iso"@);
    assert(l[1] == "img"@);
    assert(l[2] == "qcow2"@);
    assert(l[3] == "vdi"@);
    assert(l[4] == "vmdk"@);
    assert(l[5] == "vhd"@);
    assert(l[6] == "vhdx"@);
    assert(l[7] == "ova"@);
    assert(l.len() == 8);
    if one_of(t, l) {
        let i = choose|i: int| 0 <= i < l.len() && t == #[trigger] l[i];
        assert(t == l[i]);
    }
}

/// Downloaded packages, by extension.
pub proof fn law_package_extensions(t: Seq<char>)
    ensures
        one_of(t, package_names()) <==> (t == "deb"@ || t == "snap"@ || t == "whl"@ || t == "crate"@ || t == "tgz"@),
{
    let l = package_names();
    assert(l[0] == "deb"@);
    assert(l[1] == "snap"@);
    assert(l[2] == "whl"@);
    assert(l[3] == "crate"@);
    assert(l[4] == "tgz"@);
    assert(l.len() == 5);
    if one_of(t, l) {
        let i = choose|i: int| 0 <= i < l.len() && t == #[trigger] l[i];
        assert(t == l[i]);
    }
}

/// Source code, by extension.
pub proof fn law_source_extensions(t: Seq<char>)
    ensures
        one_of(t, source_names()) <==> (t == "rs"@ || t == "py"@ || t == "js"@ || t == "ts"@ || t == "go"@ || t == "c"@ || t == "cpp"@ || t == "h"@
            || t == "java"@ || t == "rb"@),
{
    let l = source_names();
    assert(l[0] == "rs"@);
    assert(l[1] == "py"@);
    assert(l[2] == "js"@);
    assert(l[3] == "ts"@);
    assert(l[4] == "go"@);
    assert(l[5] == "c"@);
    assert(l[6] == "cpp"@);
    assert(l[7] == "h"@);
    assert(l[8] == "java"@);
    assert(l[9] == "rb"@);
    assert(l.len() == 10);
    if one_of(t, l) {
        let i = choose|i: int| 0 <= i < l.len() && t == #[trigger] l[i];
        assert(t == l[i]);
    }
}

/// Folders that hold build output, by name.
pub proof fn law_build_folders(t: Seq<char>)
    ensures
        one_of(t, build_dirs()) <==> (t == "node_modules"@ || t == "__pycache__"@ || t == ".pytest_cache"@ || t == ".mypy_cache"@ || t == ".next"@
            || t == ".gradle"@ || t == ".tox"@ || t == "cmake-build-debug"@),
{
    let l = build_dirs();
    assert(l[0] == "node_modules"@);
    assert(l[1] == "__pycache__"@);
    assert(l[2] == ".pytest_cache"@);
    assert(l[3] == ".mypy_cache"@);
    assert(l[4] == ".next"@);
    assert(l[5] == ".gradle"@);
    assert(l[6] == ".tox"@);
    assert(l[7] == "cmake-build-debug"@);
    assert(l.len() == 8);
    if one_of(t, l) {
        let i = choose|i: int| 0 <= i < l.len() && t == #[trigger] l[i];
        assert(t == l[i]);
    }
}

/// Folders that hold build output if they stand in a project.
pub proof fn law_output_folders(t: Seq<char>)
    ensures
        one_of(t, output_dirs()) <==> (t == "build"@ || t == "dist"@ || t == "out"@),
{
    let l = output_dirs();
    assert(l[0] == "build"@);
    assert(l[1] == "dist"@);
    assert(l[2] == "out"@);
    assert(l.len() == 3);
    if one_of(t, l) {
        let i = choose|i: int| 0 <= i < l.len() && t == #[trigger] l[i];
        assert(t == l[i]);
    }
}

/// Folders that hold caches, by name.
pub proof fn law_cache_folders(t: Seq<char>)
    ensures
        one_of(t, cache_dirs()) <==> (t == ".cache"@ || t == "cache"@ || t == "caches"@ || t == "_cacache"@ || t == "thumbnails"@ || t == ".npm"@
            || t == "archives"@),
{
    let l = cache_dirs();
    assert(l[0] == ".cache"@);
    assert(l[1] == "cache"@);
    assert(l[2] == "caches"@);
    assert(l[3] == "_cacache"@);
    assert(l[4] == "thumbnails"@);
    assert(l[5] == ".npm"@);
    assert(l[6] == "archives"@);
    assert(l.len() == 7);
    if one_of(t, l) {
        let i = choose|i: int| 0 <= i < l.len() && t == #[trigger] l[i];
        assert(t == l[i]);
    }
}

/// Folders that hold toolchains, by name.
pub proof fn law_toolchain_folders(t: Seq<char>)
    ensures
        one_of(t, tool_dirs()) <==> (t == ".rustup"@ || t == ".cargo"@ || t == ".nvm"@ || t == ".pyenv"@ || t == ".sdkman"@ || t == "go"@
            || t == ".vscode-server"@ || t == ".local"@ || t == "snap"@ || t == "flatpak"@ || t == "opt"@),
{
    let l = tool_dirs();
    assert(l[0] == ".rustup"@);
    assert(l[1] == ".cargo"@);
    assert(l[2] == ".nvm"@);
    assert(l[3] == ".pyenv"@);
    assert(l[4] == ".sdkman"@);
    assert(l[5] == "go"@);
    assert(l[6] == ".vscode-server"@);
    assert(l[7] == ".local"@);
    assert(l[8] == "snap"@);
    assert(l[9] == "flatpak"@);
    assert(l[10] == "opt"@);
    assert(l.len() == 11);
    if one_of(t, l) {
        let i = choose|i: int| 0 <= i < l.len() && t == #[trigger] l[i];
        assert(t == l[i]);
    }
}

/// Folders that hold media, by name.
pub proof fn law_media_folders(t: Seq<char>)
    ensures
        one_of(t, media_dirs()) <==> (t == "pictures"@ || t == "videos"@ || t == "music"@ || t == "photos"@ || t == "movies"@),
{
    let l = media_dirs();
    assert(l[0] == "pictures"@);
    assert(l[1] == "videos"@);
    assert(l[2] == "music"@);
    assert(l[3] == "photos"@);
    assert(l[4] == "movies"@);
    assert(l.len() == 5);
    if one_of(t, l) {
        let i = choose|i: int| 0 <= i < l.len() && t == #[trigger] l[i];
        assert(t == l[i]);
    }
}

/// Folders that hold documents, by name.
pub proof fn law_document_folders(t: Seq<char>)
    ensures
        one_of(t, document_dirs()) <==> (t == "documents"@ || t == "desktop"@ || t == "downloads"@ || t == "templates"@ || t == "public"@),
{
    let l = document_dirs();
    assert(l[0] == "documents"@);
    assert(l[1] == "desktop"@);
    assert(l[2] == "downloads"@);
    assert(l[3] == "templates"@);
    assert(l[4] == "public"@);
    assert(l.len() == 5);
    if one_of(t, l) {
        let i = choose|i: int| 0 <= i < l.len() && t == #[trigger] l[i];
        assert(t == l[i]);
    }
}

/// Folders that hold containers and virtual machines, by name.
pub proof fn law_container_folders(t: Seq<char>)
    ensures
        one_of(t, container_dirs()) <==> (t == "docker"@ || t == "containers"@ || t == "virtualbox vms"@ || t == "libvirt"@ || t == "lxd"@
            || t == ".docker"@),
{
    let l = container_dirs();
    assert(l[0] == "docker"@);
    assert(l[1] == "containers"@);
    assert(l[2] == "virtualbox vms"@);
    assert(l[3] == "libvirt"@);
    assert(l[4] == "lxd"@);
    assert(l[5] == ".docker"@);
    assert(l.len() == 6);
    if one_of(t, l) {
        let i = choose|i: int| 0 <= i < l.len() && t == #[trigger] l[i];
        assert(t == l[i]);
    }
}

/// Folders that hold logs, by name.
pub proof fn law_log_folders(t: Seq<char>)
    ensures
        one_of(t, log_dirs()) <==> (t == "log"@ || t == "logs"@ || t == "journal"@ || t == "crash"@),
{
    let l = log_dirs();
    assert(l[0] == "log"@);
    assert(l[1] == "logs"@);
    assert(l[2] == "journal"@);
    assert(l[3] == "crash"@);
    assert(l.len() == 4);
    if one_of(t, l) {
        let i = choose|i: int| 0 <= i < l.len() && t == #[trigger] l[i];
        assert(t == l[i]);
    }
}

/// Folders that hold code, by name.
pub proof fn law_code_folders(t: Seq<char>)
    ensures
        one_of(t, code_dirs()) <==> (t == "src"@ || t == "projects"@ || t == "code"@ || t == "repos"@ || t == "workspace"@ || t == "dev"@
            || t == "git"@),
{
    let l = code_dirs();
    assert(l[0] == "src"@);
    assert(l[1] == "projects"@);
    assert(l[2] == "code"@);
    assert(l[3] == "repos"@);
    assert(l[4] == "workspace"@);
    assert(l[5] == "dev"@);
    assert(l[6] == "git"@);
    assert(l.len() == 7);
    if one_of(t, l) {
        let i = choose|i: int| 0 <= i < l.len() && t == #[trigger] l[i];
        assert(t == l[i]);
    }
}

/// Folders of the system, by name.
pub proof fn law_system_folders(t: Seq<char>)
    ensures
        one_of(t, system_dirs()) <==> (t == "usr"@ || t == "lib"@ || t == "lib32"@ || t == "lib64"@ || t == "bin"@ || t == "sbin"@ || t == "boot"@
            || t == "etc"@),
{
    let l = system_dirs();
    assert(l[0] == "usr"@);
    assert(l[1] == "lib"@);
    assert(l[2] == "lib32"@);
    assert(l[3] == "lib64"@);
    assert(l[4] == "bin"@);
    assert(l[5] == "sbin"@);
    assert(l[6] == "boot"@);
    assert(l[7] == "etc"@);
    assert(l.len() == 8);
    if one_of(t, l) {
        let i = choose|i: int| 0 <= i < l.len() && t == #[trigger] l[i];
        assert(t == l[i]);
    }
}

/// The kind of a file comes from what stands behind the last dot of its name, in
/// lower case: the first list that holds it decides, and a name without a dot
/// says nothing.
pub proof fn law_files_are_told_by_extension(stem: Seq<char>, ext: Seq<char>)
    requires
        !ext.contains('.'),
    ensures
        ({
            let name = stem + seq!['.'] + ext;
            let e = lowercase(ext);
            let k = kind_by_extension(name);
            let log = e == "log"@ || e == "journal"@ || e == "gz"@ && contains(name, "log"@);
            &&& one_of(e, media_names()) ==> k == Some(Kind::Media)
            &&& one_of(e, document_names()) && !one_of(e, media_names()) ==> k == Some(Kind::Documents)
            &&& one_of(e, image_names()) && !one_of(e, media_names()) && !one_of(e, document_names()) ==> k == Some(Kind::Containers)
            &&& log && !one_of(e, media_names()) && !one_of(e, document_names()) && !one_of(e, image_names()) ==> k == Some(Kind::Logs)
            &&& k == Some(Kind::Media) ==> one_of(e, media_names())
            &&& k == Some(Kind::Documents) ==> one_of(e, document_names())
            &&& k == Some(Kind::Containers) ==> one_of(e, image_names())
            &&& k == Some(Kind::Logs) ==> log
            &&& k == Some(Kind::Cache) ==> one_of(e, package_names())
            &&& k == Some(Kind::Code) ==> one_of(e, source_names())
            &&& k is None ==> !one_of(e, media_names()) && !one_of(e, document_names()) && !one_of(e, image_names()) && !log && !one_of(
                e,
                package_names(),
            ) && !one_of(e, source_names())
            &&& kind_by_extension(ext) is None
        }),
{
    lemma_extension(stem, ext);
    let name = stem + seq!['.'] + ext;
    assert(name.skip(stem.len() as int + 1) =~= ext);
}

proof fn lemma_extension(a: Seq<char>, b: Seq<char>)
    requires
        !b.contains('.'),
    ensures
        after_last(a + seq!['.'] + b, '.') == a.len() + 1,
        after_last(b, '.') == 0,
    decreases b.len(),
{
    let s = a + seq!['.'] + b;
    if b.len() > 0 {
        let t = b.drop_last();
        assert(s.drop_last() =~= a + seq!['.'] + t);
        assert(b[b.len() - 1] == b.last());
        assert(!t.contains('.')) by {
            if t.contains('.') {
                let k = choose|k: int| 0 <= k < t.len() && t[k] == '.';
                assert(b[k] == '.');
            }
        }
        lemma_extension(a, t);
    }
}

/// The kind of a folder comes from its name, in lower case: the first list that
/// holds it decides; `target` and the output folders count as build output only
/// in a project; a project is code, and a name with `cache` in it a cache.
pub proof fn law_folders_are_told_by_name(name: Seq<char>, markers: u8, parent: u8)
    ensures
        ({
            let n = lowercase(name);
            let k = kind_by_dir(name, markers, parent);
            let build = one_of(n, build_dirs()) || n == "target"@ && (parent & CARGO_TOML != 0 || markers & CACHEDIR_TAG != 0) || one_of(
                n,
                output_dirs(),
            ) && parent & (CARGO_TOML | PACKAGE_JSON) != 0;
            let named = build || n == ".git"@;
            &&& n == ".git"@ <==> k == Some(Kind::Git)
            &&& k == Some(Kind::Build) <==> build && n != ".git"@
            &&& !named && one_of(n, cache_dirs()) ==> k == Some(Kind::Cache)
            &&& k == Some(Kind::Cache) ==> one_of(n, cache_dirs()) || contains(n, "cache"@)
            &&& !named && !one_of(n, cache_dirs()) ==> (k == Some(Kind::Toolchain) <==> one_of(n, tool_dirs()))
            &&& k == Some(Kind::Media) ==> one_of(n, media_dirs())
            &&& k == Some(Kind::Documents) ==> one_of(n, document_dirs())
            &&& k == Some(Kind::Containers) ==> one_of(n, container_dirs())
            &&& k == Some(Kind::Logs) ==> one_of(n, log_dirs())
            &&& k == Some(Kind::Code) ==> one_of(n, code_dirs()) || markers & (CARGO_TOML | PACKAGE_JSON) != 0
            &&& k is None ==> !named && !one_of(n, cache_dirs()) && !one_of(n, tool_dirs()) && !one_of(n, media_dirs()) && !one_of(
                n,
                document_dirs(),
            ) && !one_of(n, container_dirs()) && !one_of(n, log_dirs()) && !one_of(n, code_dirs()) && markers & (CARGO_TOML | PACKAGE_JSON) == 0
                && !contains(n, "cache"@)
            &&& k != Some(Kind::System) && k != Some(Kind::Other)
        }),
{
}

/// A node has the kind that it shows itself, unless it lies in build output, a
/// cache or a repository: those keep what is in them, but for build output,
/// caches and repositories inside. A node that shows none has its folder's.
pub proof fn law_kinds_pass_down(nodes: Seq<Node>, root: Seq<u8>, i: int, p: usize)
    requires
        nodes[i].parent == Some(p),
        p < i,
    ensures
        ({
            let (own, up, k) = (own_kind(nodes, root, i), kind_at(nodes, root, p as int), kind_at(nodes, root, i));
            let kept = up == Kind::Build || up == Kind::Cache || up == Kind::Git;
            &&& own is None ==> k == up
            &&& own is Some && !kept ==> k == own->0
            &&& own == Some(Kind::Build) || own == Some(Kind::Cache) || own == Some(Kind::Git) ==> k == own->0
            &&& own is Some && kept && own->0 != Kind::Build && own->0 != Kind::Cache && own->0 != Kind::Git ==> k == up
        }),
{
}

/// The folders of the system count as such right below the root of a scan of the
/// whole system, and nowhere else.
pub proof fn law_system_folders_stand_at_the_top(nodes: Seq<Node>, root: Seq<u8>, i: int)
    ensures
        own_kind(nodes, root, i) == Some(Kind::System) <==> nodes[i].kind == NodeKind::Dir && nodes[i].parent == Some(0usize) && same_path(
            root,
            encode_utf8("/"@),
        ) && one_of(nodes[i].name@, system_dirs()),
{
    if nodes[i].kind == NodeKind::File {
        assert(kind_by_extension(nodes[i].name@) != Some(Kind::System));
    }
}

} // verus!
