//! Dangling Docker images and unused builder cache.

use vstd::prelude::*;
use vstd::utf8::encode_utf8;

use crate::json::{json_in, json_view, list_view, members_view, read_json, Json, JsonView};
use crate::path::{join_bytes, lossy_text, paths_view, utf8_lossy, FsPath};
use crate::rules::{finding_views, Action, ActionView, CheckOutput, Finding, FindingView, Risk};
use crate::text::{
    chars_of, contains, decimal, digits, has, lemma_starts, lines, lines_of, lowercase, same, slice, split, split_on, starts, string_of,
    strip_prefix, texts, to_lower, trim, trimmed, views,
};
use crate::util::{opt_text, quoted, shq};

verus! {

/// The sockets that the Docker Engine may listen on.
pub open spec fn socket_places(runtime_dir: Option<Seq<char>>) -> Seq<Seq<u8>> {
    seq![encode_utf8("/var/run/docker.sock"@)] + match runtime_dir {
        Some(rt) => seq![join_bytes(encode_utf8(rt), encode_utf8("docker.sock"@))],
        None => Seq::empty(),
    }
}

/// The sockets that the Docker Engine may listen on, given XDG_RUNTIME_DIR.
pub fn docker_candidates(runtime_dir: Option<&str>) -> (r: Vec<FsPath>)
    ensures
        paths_view(r@) == socket_places(opt_text(runtime_dir)),
{
    let mut out: Vec<FsPath> = vec![FsPath::new("/var/run/docker.sock")];
    if let Some(rt) = runtime_dir {
        out.push(FsPath::new(rt).join_str("docker.sock"));
    }
    assert(paths_view(out@) =~= socket_places(opt_text(runtime_dir)));
    out
}

/// The first candidate that exists.
pub open spec fn first_existing(list: Seq<Seq<u8>>, exists: Seq<bool>) -> Option<Seq<u8>>
    decreases list.len(),
{
    if list.len() == 0 {
        None
    } else if exists[0] {
        Some(list[0])
    } else {
        first_existing(list.skip(1), exists.skip(1))
    }
}

/// The socket to use: that of DOCKER_HOST if it is set (none if it is no unix
/// socket), else the first candidate that exists.
pub fn docker_socket(host: Option<&str>, candidates: &Vec<FsPath>, exists: &Vec<bool>) -> (r: Option<FsPath>)
    requires
        candidates@.len() == exists@.len(),
    ensures
        ({
            let want = match opt_text(host) {
                Some(h) => if starts(h, "unix://"@) {
                    Some(encode_utf8(h.skip("unix://"@.len() as int)))
                } else {
                    None
                },
                None => first_existing(paths_view(candidates@), exists@),
            };
            match r {
                Some(p) => want == Some(p@),
                None => want is None,
            }
        }),
{
    if let Some(h) = host {
        return match strip_prefix(&chars_of(h), "unix://") {
            Some(rest) => Some(FsPath::new(string_of(&rest).as_str())),
            None => None,
        };
    }
    let ghost all = paths_view(candidates@);
    assert(all.skip(0) =~= all && exists@.skip(0) =~= exists@);
    for i in 0..candidates.len()
        invariant
            host is None,
            candidates@.len() == exists@.len(),
            all == paths_view(candidates@),
            first_existing(all, exists@) == first_existing(all.skip(i as int), exists@.skip(i as int)),
    {
        assert(all.skip(i as int).skip(1) =~= all.skip(i + 1));
        assert(exists@.skip(i as int).skip(1) =~= exists@.skip(i + 1));
        if exists[i] {
            return Some(candidates[i].clone());
        }
    }
    None
}

/// First index at or after `i` where `pat` stands in `b`, or the length of `b`.
pub open spec fn bytes_from(b: Seq<u8>, pat: Seq<u8>, i: int) -> int
    decreases b.len() - i,
{
    if i < 0 || i >= b.len() || i + pat.len() > b.len() {
        b.len() as int
    } else if b.subrange(i, i + pat.len()) == pat {
        i
    } else {
        bytes_from(b, pat, i + 1)
    }
}

proof fn lemma_bytes_from(b: Seq<u8>, pat: Seq<u8>, i: int)
    requires
        0 <= i <= b.len(),
    ensures
        i <= bytes_from(b, pat, i) <= b.len(),
        pat.len() > 0 && bytes_from(b, pat, i) < b.len() ==> bytes_from(b, pat, i) + pat.len() <= b.len(),
    decreases b.len() - i,
{
    if i + pat.len() <= b.len() && b.subrange(i, i + pat.len()) != pat && i < b.len() {
        lemma_bytes_from(b, pat, i + 1);
    }
}

fn stands_at(b: &Vec<u8>, pat: &Vec<u8>, i: usize) -> (r: bool)
    requires
        i + pat@.len() <= b@.len(),
    ensures
        r == (b@.subrange(i as int, i + pat@.len()) == pat@),
{
    let (n, m): (usize, usize) = (pat.len(), b.len());
    for j in 0..n
        invariant
            n == pat@.len(),
            m == b@.len(),
            i + n <= m,
            forall|k: int| 0 <= k < j ==> b@[i + k] == #[trigger] pat@[k],
    {
        if b[i + j] != pat[j] {
            assert(b@.subrange(i as int, i + n)[j as int] != pat@[j as int]);
            return false;
        }
    }
    assert(b@.subrange(i as int, i + n) =~= pat@);
    true
}

fn find_bytes(b: &Vec<u8>, pat: &Vec<u8>, from: usize) -> (r: usize)
    requires
        from <= b@.len(),
        pat@.len() > 0,
    ensures
        r == bytes_from(b@, pat@, from as int),
        from <= r <= b@.len(),
        r < b@.len() ==> r + pat@.len() <= b@.len(),
{
    proof {
        lemma_bytes_from(b@, pat@, from as int);
    }
    let n: usize = b.len();
    let mut i: usize = from;
    while i < n && pat.len() <= n - i
        invariant
            n == b@.len(),
            from <= i <= n,
            pat@.len() > 0,
            bytes_from(b@, pat@, from as int) == bytes_from(b@, pat@, i as int),
            bytes_from(b@, pat@, from as int) < n ==> bytes_from(b@, pat@, from as int) + pat@.len() <= n,
        decreases n - i,
    {
        if stands_at(b, pat, i) {
            return i;
        }
        i += 1;
    }
    n
}

/// The value of a hexadecimal digit.
pub open spec fn hex_digit(c: char) -> Option<nat> {
    if '0' <= c && c <= '9' {
        Some((c as u32 - 48) as nat)
    } else if 'a' <= c && c <= 'f' {
        Some((c as u32 - 87) as nat)
    } else if 'A' <= c && c <= 'F' {
        Some((c as u32 - 55) as nat)
    } else {
        None
    }
}

/// The number that hexadecimal digits stand for, if all are digits.
pub open spec fn hex_value(s: Seq<char>) -> Option<nat>
    decreases s.len(),
{
    if s.len() == 0 {
        Some(0)
    } else {
        match (hex_value(s.drop_last()), hex_digit(s.last())) {
            (Some(v), Some(d)) => Some(v * 16 + d),
            _ => None,
        }
    }
}

/// A hexadecimal number (a plus sign may stand in front), as far as it fits.
pub open spec fn hex_number(s: Seq<char>) -> Option<nat> {
    let t = if s.len() > 0 && s[0] == '+' {
        s.skip(1)
    } else {
        s
    };
    match hex_value(t) {
        Some(v) => if t.len() > 0 && v <= usize::MAX {
            Some(v)
        } else {
            None
        },
        None => None,
    }
}

proof fn lemma_hex_grows(s: Seq<char>, k: int)
    requires
        0 <= k <= s.len(),
        hex_value(s) is Some,
    ensures
        hex_value(s.take(k)) is Some,
        hex_value(s.take(k))->0 <= hex_value(s)->0,
    decreases s.len(),
{
    if k < s.len() {
        assert(s.drop_last().take(k) =~= s.take(k));
        lemma_hex_grows(s.drop_last(), k);
    } else {
        assert(s.take(k) =~= s);
    }
}

fn read_hex(v: &Vec<char>) -> (r: Option<usize>)
    ensures
        r is Some <==> hex_number(v@) is Some,
        r matches Some(n) ==> hex_number(v@) == Some(n as nat),
{
    let from: usize = if v.len() > 0 && v[0] == '+' {
        1
    } else {
        0
    };
    let t = slice(v, from, v.len());
    assert(t@ =~= if v@.len() > 0 && v@[0] == '+' {
        v@.skip(1)
    } else {
        v@
    });
    if t.len() == 0 {
        return None;
    }
    let mut n: usize = 0;
    for i in 0..t.len()
        invariant
            t@.len() > 0,
            t@ == (if v@.len() > 0 && v@[0] == '+' {
                v@.skip(1)
            } else {
                v@
            }),
            hex_value(t@.take(i as int)) == Some(n as nat),
    {
        let c: char = t[i];
        proof {
            assert(t@.take(i + 1).drop_last() =~= t@.take(i as int));
            if hex_value(t@) is Some {
                lemma_hex_grows(t@, i + 1);
            }
        }
        let d: usize = if '0' <= c && c <= '9' {
            (c as u32 - 48) as usize
        } else if 'a' <= c && c <= 'f' {
            (c as u32 - 87) as usize
        } else if 'A' <= c && c <= 'F' {
            (c as u32 - 55) as usize
        } else {
            return None;
        };
        if n > (usize::MAX - d) / 16 {
            return None;
        }
        n = n * 16 + d;
    }
    assert(t@.take(t@.len() as int) =~= t@);
    Some(n)
}

/// The end of a line in HTTP.
pub open spec fn crlf() -> Seq<u8> {
    seq![13u8, 10u8]
}

/// The length that a chunk's first line announces; nothing behind a `;` counts.
pub open spec fn chunk_len(line: Seq<u8>) -> nat {
    match hex_number(trim(split(lossy_text(line), ';')[0])) {
        Some(n) => n,
        None => 0,
    }
}

/// The data in a chunked body, up to the end, an empty chunk or one that is not
/// there in full.
pub open spec fn dechunked(b: Seq<u8>) -> Seq<u8>
    decreases b.len(),
{
    let nl = bytes_from(b, crlf(), 0);
    let len = chunk_len(b.take(nl)) as int;
    if nl < 0 || nl >= b.len() || len == 0 || b.len() < nl + 2 + len {
        Seq::empty()
    } else {
        b.subrange(nl + 2, nl + 2 + len) + dechunked(
            if nl + 4 + len <= b.len() {
                b.skip(nl + 4 + len)
            } else {
                Seq::empty()
            },
        )
    }
}

fn piece(b: &Vec<u8>, from: usize, to: usize) -> (r: Vec<u8>)
    requires
        from <= to <= b@.len(),
    ensures
        r@ == b@.subrange(from as int, to as int),
{
    let mut out: Vec<u8> = Vec::new();
    for i in from..to
        invariant
            from <= to <= b@.len(),
            out@ == b@.subrange(from as int, i as int),
    {
        out.push(b[i]);
        assert(out@ =~= b@.subrange(from as int, i + 1));
    }
    out
}

fn length_in(line: &Vec<u8>) -> (r: usize)
    ensures
        r == chunk_len(line@),
{
    let parts = split_on(&chars_of(utf8_lossy(line).as_str()), ';');
    assert(views(parts@)[0] == parts@[0]@);
    match read_hex(&trimmed(&parts[0])) {
        Some(n) => n,
        None => 0,
    }
}

/// The data in a chunked body.
pub fn dechunk(body: &Vec<u8>) -> (r: Vec<u8>)
    ensures
        r@ == dechunked(body@),
{
    let nlpat: Vec<u8> = vec![13u8, 10u8];
    assert(nlpat@ =~= crlf());
    let n: usize = body.len();
    let mut out: Vec<u8> = Vec::new();
    let mut at: usize = 0;
    assert(body@.skip(0) =~= body@);
    assert(out@ + dechunked(body@) =~= dechunked(body@));
    loop
        invariant_except_break
            nlpat@ == crlf(),
            n == body@.len(),
            at <= n,
            out@ + dechunked(body@.skip(at as int)) == dechunked(body@),
        ensures
            out@ == dechunked(body@),
        decreases n - at,
    {
        let rest = piece(body, at, n);
        assert(rest@ =~= body@.skip(at as int));
        let nl = find_bytes(&rest, &nlpat, 0);
        if nl >= rest.len() {
            assert(out@ + Seq::<u8>::empty() =~= out@);
            break;
        }
        let line = piece(&rest, 0, nl);
        assert(line@ =~= rest@.take(nl as int));
        let len = length_in(&line);
        if len == 0 || rest.len() - (nl + 2) < len {
            assert(out@ + Seq::<u8>::empty() =~= out@);
            break;
        }
        let mut data = piece(&rest, nl + 2, nl + 2 + len);
        let ghost before = out@;
        let ghost chunk = data@;
        out.append(&mut data);
        let used: usize = if rest.len() - (nl + 2 + len) >= 2 {
            nl + 4 + len
        } else {
            rest.len()
        };
        proof {
            let tail = body@.skip(at + used);
            assert(tail =~= if nl + 4 + len <= rest@.len() {
                rest@.skip(nl + 4 + len)
            } else {
                Seq::empty()
            });
            assert(dechunked(rest@) == chunk + dechunked(tail));
            assert(out@ + dechunked(tail) =~= before + (chunk + dechunked(tail)));
        }
        at += used;
    }
    out
}

/// The first line of a text, empty if there is none.
pub open spec fn first_line(s: Seq<char>) -> Seq<char> {
    if lines(s).len() > 0 {
        lines(s)[0]
    } else {
        Seq::empty()
    }
}

/// The end of the head of an HTTP reply.
pub open spec fn head_end() -> Seq<u8> {
    seq![13u8, 10u8, 13u8, 10u8]
}

/// The body of an HTTP reply, or what is wrong with it.
pub open spec fn reply_body(raw: Seq<u8>) -> Result<Seq<u8>, Seq<char>> {
    let at = bytes_from(raw, head_end(), 0);
    if at >= raw.len() {
        Err("malformed HTTP response"@)
    } else {
        let head = lowercase(lossy_text(raw.take(at)));
        let body = raw.skip(at + 4);
        if !contains(first_line(head), " 200"@) {
            Err(first_line(head))
        } else if contains(head, "transfer-encoding: chunked"@) {
            Ok(dechunked(body))
        } else {
            Ok(body)
        }
    }
}

/// The body of an HTTP reply.
pub fn docker_body(raw: &Vec<u8>) -> (r: Result<Vec<u8>, String>)
    ensures
        match r {
            Ok(b) => reply_body(raw@) == Ok::<Seq<u8>, Seq<char>>(b@),
            Err(e) => reply_body(raw@) == Err::<Seq<u8>, Seq<char>>(e@),
        },
{
    let pat: Vec<u8> = vec![13u8, 10u8, 13u8, 10u8];
    assert(pat@ =~= head_end());
    let at = find_bytes(raw, &pat, 0);
    if at >= raw.len() {
        return Err("malformed HTTP response".to_owned());
    }
    let top = piece(raw, 0, at);
    assert(top@ =~= raw@.take(at as int));
    let head = to_lower(&chars_of(utf8_lossy(&top).as_str()));
    let ls = lines_of(&head);
    assert(views(ls@).len() == ls@.len());
    let first: Vec<char> = if ls.len() > 0 {
        assert(views(ls@)[0] == ls@[0]@);
        slice(&ls[0], 0, ls[0].len())
    } else {
        Vec::new()
    };
    assert(first@ =~= first_line(head@));
    let good = has(&first, " 200");
    if !good {
        return Err(string_of(&first));
    }
    let body = piece(raw, at + 4, raw.len());
    assert(body@ =~= raw@.skip(at + 4));
    if has(&head, "transfer-encoding: chunked") {
        Ok(dechunk(&body))
    } else {
        Ok(body)
    }
}

/// The request for `path` that is sent to the Docker Engine.
pub fn docker_request(path: &str) -> (r: String)
    ensures
        r@ == "GET "@ + path@ + " HTTP/1.0\r\nHost: docker\r\n\r\n"@,
{
    "GET ".to_owned().concat(path).concat(" HTTP/1.0\r\nHost: docker\r\n\r\n")
}

/// The value in a reply of the Docker Engine, or what is wrong with it.
pub open spec fn reply_json(raw: Seq<u8>) -> Result<JsonView, Seq<char>> {
    match reply_body(raw) {
        Ok(b) => json_in(b),
        Err(e) => Err(e),
    }
}

/// The value in a reply of the Docker Engine.
pub fn docker_reply(raw: &Vec<u8>) -> (r: Result<Json, String>)
    ensures
        match r {
            Ok(j) => reply_json(raw@) == Ok::<JsonView, Seq<char>>(j@),
            Err(e) => reply_json(raw@) == Err::<JsonView, Seq<char>>(e@),
        },
{
    match docker_body(raw) {
        Ok(b) => read_json(&b),
        Err(e) => Err(e),
    }
}

/// The member of that name.
pub open spec fn member_of(m: Seq<(Seq<char>, JsonView)>, key: Seq<char>) -> JsonView
    decreases m.len(),
{
    if m.len() == 0 {
        JsonView::Null
    } else if m.last().0 == key {
        m.last().1
    } else {
        member_of(m.drop_last(), key)
    }
}

/// The member of that name; null where there is none.
pub open spec fn at_key(j: JsonView, key: Seq<char>) -> JsonView {
    match j {
        JsonView::Object(m) => member_of(m, key),
        _ => JsonView::Null,
    }
}

/// The items of a list; none of anything else.
pub open spec fn items_of(j: JsonView) -> Seq<JsonView> {
    match j {
        JsonView::List(v) => v,
        _ => Seq::empty(),
    }
}

pub open spec fn int_or(j: JsonView, other: i64) -> i64 {
    match j {
        JsonView::Number(Some(n)) => n,
        _ => other,
    }
}

pub open spec fn bool_or(j: JsonView, other: bool) -> bool {
    match j {
        JsonView::Bool(b) => b,
        _ => other,
    }
}

fn key_in<'a>(j: &'a Json, key: &str) -> (r: &'a Json)
    ensures
        r@ == at_key(j@, key@),
{
    if let Json::Object(m) = j {
        let mut i: usize = m.len();
        assert(m@.take(i as int) =~= m@);
        while i > 0
            invariant
                i <= m@.len(),
                j@ == JsonView::Object(members_view(m@)),
                member_of(members_view(m@), key@) == member_of(members_view(m@.take(i as int)), key@),
            decreases i,
        {
            proof {
                assert(m@.take(i as int).drop_last() =~= m@.take(i - 1));
                let (a, x) = (members_view(m@.take(i - 1)), m@[i - 1]);
                assert(a.push((x.0@, json_view(x.1))).drop_last() =~= a);
            }
            if same(m[i - 1].0.as_str(), key) {
                return &m[i - 1].1;
            }
            i -= 1;
        }
    }
    &Json::Null
}

fn int_in(j: &Json, other: i64) -> (r: i64)
    ensures
        r == int_or(j@, other),
{
    match j {
        Json::Number(Some(n)) => *n,
        _ => other,
    }
}

fn bool_in(j: &Json, other: bool) -> (r: bool)
    ensures
        r == bool_or(j@, other),
{
    match j {
        Json::Bool(b) => *b,
        _ => other,
    }
}

/// The tag of an image that has none.
pub open spec fn no_tag(j: JsonView) -> bool {
    j matches JsonView::Text(s) && s == "<none>:<none>"@
}

pub open spec fn no_tags(tags: Seq<JsonView>) -> bool {
    forall|i: int| 0 <= i < tags.len() ==> no_tag(#[trigger] tags[i])
}

/// No tag refers to the image.
pub open spec fn dangling(img: JsonView) -> bool {
    match at_key(img, "RepoTags"@) {
        JsonView::List(tags) => no_tags(tags),
        _ => true,
    }
}

/// An unused dangling image: what `docker image prune -f` deletes.
pub open spec fn prunable(img: JsonView) -> bool {
    dangling(img) && int_or(at_key(img, "Containers"@), 0) <= 0
}

/// What deleting an image gives back: all but layers shared with others.
pub open spec fn image_gain(img: JsonView) -> nat {
    let size = int_or(at_key(img, "Size"@), 0) as int;
    let shared = int_or(at_key(img, "SharedSize"@), 0) as int;
    let kept = if shared > 0 {
        shared
    } else {
        0
    };
    if size > kept {
        (size - kept) as nat
    } else {
        0
    }
}

pub open spec fn image_bytes(list: Seq<JsonView>) -> nat
    decreases list.len(),
{
    if list.len() == 0 {
        0
    } else {
        image_bytes(list.drop_last()) + if prunable(list.last()) {
            image_gain(list.last())
        } else {
            0
        }
    }
}

pub open spec fn image_count(list: Seq<JsonView>) -> nat
    decreases list.len(),
{
    if list.len() == 0 {
        0
    } else {
        image_count(list.drop_last()) + if prunable(list.last()) {
            1nat
        } else {
            0
        }
    }
}

/// What deleting a record of the builder cache gives back; nothing if it is in
/// use or shared.
pub open spec fn record_gain(c: JsonView) -> nat {
    let size = int_or(at_key(c, "Size"@), 0);
    if !bool_or(at_key(c, "InUse"@), true) && !bool_or(at_key(c, "Shared"@), true) && size > 0 {
        size as nat
    } else {
        0
    }
}

pub open spec fn record_bytes(list: Seq<JsonView>) -> nat
    decreases list.len(),
{
    if list.len() == 0 {
        0
    } else {
        record_bytes(list.drop_last()) + record_gain(list.last())
    }
}

/// The images and cache records of a `/system/df` response.
pub open spec fn images_in(df: JsonView) -> Seq<JsonView> {
    items_of(at_key(df, "Images"@))
}

pub open spec fn records_in(df: JsonView) -> Seq<JsonView> {
    items_of(at_key(df, "BuildCache"@))
}

/// The sums of a response can be counted.
pub open spec fn df_fits(df: JsonView) -> bool {
    image_bytes(images_in(df)) <= u64::MAX && record_bytes(records_in(df)) <= u64::MAX
}

fn is_dangling(img: &Json) -> (r: bool)
    ensures
        r == dangling(img@),
{
    let tags = key_in(img, "RepoTags");
    if let Json::List(v) = tags {
        let ghost all = list_view(v@);
        let mut i: usize = v.len();
        assert(v@.take(i as int) =~= v@);
        proof {
            lemma_list_len(v@);
        }
        while i > 0
            invariant
                i <= v@.len(),
                all == list_view(v@),
                all.len() == v@.len(),
                at_key(img@, "RepoTags"@) == JsonView::List(all),
                forall|k: int| i <= k < all.len() ==> no_tag(#[trigger] all[k]),
            decreases i,
        {
            i -= 1;
            proof {
                lemma_list_item(v@, i as int);
            }
            let ok = match &v[i] {
                Json::Text(s) => same(s.as_str(), "<none>:<none>"),
                _ => false,
            };
            if !ok {
                assert(!no_tag(all[i as int]));
                assert(!no_tags(all));
                return false;
            }
        }
    }
    true
}

proof fn lemma_list_len(v: Seq<Json>)
    ensures
        list_view(v).len() == v.len(),
    decreases v.len(),
{
    if v.len() > 0 {
        lemma_list_len(v.drop_last());
    }
}

proof fn lemma_list_item(v: Seq<Json>, i: int)
    requires
        0 <= i < v.len(),
    ensures
        list_view(v)[i] == json_view(v[i]),
    decreases v.len(),
{
    lemma_list_len(v.drop_last());
    if i < v.len() - 1 {
        lemma_list_item(v.drop_last(), i);
    }
}

/// Sum of image gains, and how many images; None if the sum does not fit.
fn sum_images(v: &Vec<Json>) -> (r: Option<(u64, usize)>)
    ensures
        r is Some <==> image_bytes(list_view(v@)) <= u64::MAX,
        r matches Some(x) ==> x.0 == image_bytes(list_view(v@)) && x.1 == image_count(list_view(v@)),
{
    let n: usize = v.len();
    let mut bytes: u64 = 0;
    let mut count: usize = 0;
    for i in 0..n
        invariant
            n == v@.len(),
            count <= i,
            bytes == image_bytes(list_view(v@.take(i as int))),
            count == image_count(list_view(v@.take(i as int))),
    {
        let img = &v[i];
        proof {
            assert(v@.take(i + 1).drop_last() =~= v@.take(i as int));
            let a = list_view(v@.take(i as int));
            assert(a.push(json_view(*img)).drop_last() =~= a);
        }
        if is_dangling(img) && int_in(key_in(img, "Containers"), 0) <= 0 {
            let size = int_in(key_in(img, "Size"), 0);
            let shared = int_in(key_in(img, "SharedSize"), 0);
            let kept: i64 = if shared > 0 {
                shared
            } else {
                0
            };
            let gain: u64 = if size > kept {
                (size - kept) as u64
            } else {
                0
            };
            if gain > u64::MAX - bytes {
                proof {
                    lemma_images_grow(v@, i + 1);
                }
                return None;
            }
            bytes += gain;
            count += 1;
        }
    }
    assert(v@.take(n as int) =~= v@);
    Some((bytes, count))
}

proof fn lemma_images_grow(v: Seq<Json>, k: int)
    requires
        0 <= k <= v.len(),
    ensures
        image_bytes(list_view(v.take(k))) <= image_bytes(list_view(v)),
    decreases v.len(),
{
    if k < v.len() {
        let a = list_view(v.drop_last());
        assert(a.push(json_view(v.last())).drop_last() =~= a);
        assert(v.drop_last().take(k) =~= v.take(k));
        lemma_images_grow(v.drop_last(), k);
    } else {
        assert(v.take(k) =~= v);
    }
}

fn sum_records(v: &Vec<Json>) -> (r: Option<u64>)
    ensures
        r is Some <==> record_bytes(list_view(v@)) <= u64::MAX,
        r matches Some(x) ==> x == record_bytes(list_view(v@)),
{
    let n: usize = v.len();
    let mut bytes: u64 = 0;
    for i in 0..n
        invariant
            n == v@.len(),
            bytes == record_bytes(list_view(v@.take(i as int))),
    {
        let c = &v[i];
        proof {
            assert(v@.take(i + 1).drop_last() =~= v@.take(i as int));
            let a = list_view(v@.take(i as int));
            assert(a.push(json_view(*c)).drop_last() =~= a);
        }
        if !bool_in(key_in(c, "InUse"), true) && !bool_in(key_in(c, "Shared"), true) {
            let size = int_in(key_in(c, "Size"), 0);
            if size > 0 {
                if size as u64 > u64::MAX - bytes {
                    proof {
                        lemma_records_grow(v@, i + 1);
                    }
                    return None;
                }
                bytes += size as u64;
            }
        }
    }
    assert(v@.take(n as int) =~= v@);
    Some(bytes)
}

proof fn lemma_records_grow(v: Seq<Json>, k: int)
    requires
        0 <= k <= v.len(),
    ensures
        record_bytes(list_view(v.take(k))) <= record_bytes(list_view(v)),
    decreases v.len(),
{
    if k < v.len() {
        let a = list_view(v.drop_last());
        assert(a.push(json_view(v.last())).drop_last() =~= a);
        assert(v.drop_last().take(k) =~= v.take(k));
        lemma_records_grow(v.drop_last(), k);
    } else {
        assert(v.take(k) =~= v);
    }
}

fn measure(df: &Json) -> (r: Option<(u64, usize, u64)>)
    ensures
        r is Some <==> df_fits(df@),
        r matches Some(x) ==> x.0 == image_bytes(images_in(df@)) && x.1 == image_count(images_in(df@)) && x.2 == record_bytes(
            records_in(df@),
        ),
{
    let images = match key_in(df, "Images") {
        Json::List(v) => sum_images(v),
        _ => Some((0, 0)),
    };
    let records = match key_in(df, "BuildCache") {
        Json::List(v) => sum_records(v),
        _ => Some(0),
    };
    match (images, records) {
        (Some((bytes, count)), Some(build)) => Some((bytes, count, build)),
        _ => None,
    }
}

/// Can the sums of a `/system/df` response be counted?
pub fn docker_fits(df: &Json) -> (r: bool)
    ensures
        r == df_fits(df@),
{
    measure(df).is_some()
}

/// From a `/system/df` response: (dangling image bytes, dangling image count,
/// builder cache bytes). Only what `docker image prune -f` / `docker builder
/// prune -f` actually delete is counted: unused dangling images minus layers
/// shared with other images, and cache records neither in use nor shared.
pub fn docker_reclaimable(df: &Json) -> (r: (u64, usize, u64))
    requires
        df_fits(df@),
    ensures
        r.0 == image_bytes(images_in(df@)),
        r.1 == image_count(images_in(df@)),
        r.2 == record_bytes(records_in(df@)),
{
    match measure(df) {
        Some(x) => x,
        None => (0, 0, 0),
    }
}

/// The finding about what a `docker` command gives back. `-H`: the daemon that
/// was measured, not the CLI's current context.
pub open spec fn docker_finding(
    sock: Seq<u8>,
    id: Seq<char>,
    title: Seq<char>,
    bytes: u64,
    detail: Seq<char>,
    prune: Seq<char>,
) -> FindingView {
    FindingView {
        id,
        category: "Docker"@,
        title,
        risk: Risk::Safe,
        bytes,
        detail,
        paths: Seq::empty(),
        action: ActionView::Shell { command: "docker -H "@ + quoted("unix://"@ + lossy_text(sock)) + prune },
        needs_root: false,
    }
}

fn docker_saving(sock: &FsPath, id: &str, title: String, bytes: u64, detail: &str, prune: &str) -> (f: Finding)
    ensures
        f@ == docker_finding(sock@, id@, title@, bytes, detail@, prune@),
{
    let f = Finding {
        id: id.to_owned(),
        category: "Docker".to_owned(),
        title,
        risk: Risk::Safe,
        bytes,
        detail: detail.to_owned(),
        paths: Vec::new(),
        action: Action::Shell {
            command: "docker -H ".to_owned().concat(
                shq("unix://".to_owned().concat(sock.display().as_str()).as_str()).as_str(),
            ).concat(prune),
        },
        needs_root: false,
    };
    assert(paths_view(f.paths@) =~= Seq::empty());
    f
}

/// The findings from a `/system/df` response.
pub open spec fn docker_found(sock: Seq<u8>, df: JsonView) -> Seq<FindingView> {
    let count = image_count(images_in(df));
    let build = record_bytes(records_in(df));
    (if count > 0 {
        seq![
            docker_finding(
                sock,
                "docker-dangling"@,
                "Dangling Docker images ("@ + digits(count) + ")"@,
                image_bytes(images_in(df)) as u64,
                "Untagged image layers no longer referenced by any tag or container, usually left over from rebuilding images."@,
                " image prune -f"@,
            ),
        ]
    } else {
        Seq::empty()
    }) + if build > 0 {
        seq![
            docker_finding(
                sock,
                "docker-builder"@,
                "Docker builder cache"@,
                build as u64,
                "BuildKit layer cache not used by a running build. Future builds are slower until the cache is warm again."@,
                " builder prune -f"@,
            ),
        ]
    } else {
        Seq::empty()
    }
}

/// The note where the daemon did not answer.
pub open spec fn docker_note(sock: Seq<u8>, e: Seq<char>) -> Seq<char> {
    "Docker socket "@ + lossy_text(sock) + " is not accessible ("@ + e
        + "). Add yourself to the docker group or run with sudo to include Docker images and build cache."@
}

/// Docker check: what the daemon at `sock` answered to `/system/df`.
pub fn docker_findings(sock: &FsPath, df: &Result<Json, String>) -> (r: CheckOutput)
    requires
        df matches Ok(j) ==> df_fits(j@),
    ensures
        match df {
            Ok(j) => r.notes@.len() == 0 && finding_views(r.findings@) == docker_found(sock@, j@),
            Err(e) => r.findings@.len() == 0 && texts(r.notes@) == seq![docker_note(sock@, e@)],
        },
{
    let df = match df {
        Ok(v) => v,
        Err(e) => {
            let out = CheckOutput::note(
                "Docker socket ".to_owned().concat(sock.display().as_str()).concat(" is not accessible (").concat(e.as_str()).concat(
                    "). Add yourself to the docker group or run with sudo to include Docker images and build cache.",
                ),
            );
            assert(texts(out.notes@) =~= seq![docker_note(sock@, e@)]);
            return out;
        },
    };
    let (img_bytes, img_count, build) = docker_reclaimable(df);
    let mut findings: Vec<Finding> = Vec::new();
    assert(finding_views(findings@) =~= Seq::empty());
    if img_count > 0 {
        let f = docker_saving(
            sock,
            "docker-dangling",
            "Dangling Docker images (".to_owned().concat(decimal(img_count as u64).as_str()).concat(")"),
            img_bytes,
            "Untagged image layers no longer referenced by any tag or container, usually left over from rebuilding images.",
            " image prune -f",
        );
        findings.push(f);
        assert(finding_views(findings@) =~= seq![f@]);
    }
    if build > 0 {
        let ghost before = findings@;
        let f = docker_saving(
            sock,
            "docker-builder",
            "Docker builder cache".to_owned(),
            build,
            "BuildKit layer cache not used by a running build. Future builds are slower until the cache is warm again.",
            " builder prune -f",
        );
        findings.push(f);
        assert(finding_views(findings@) =~= finding_views(before).push(f@));
    }
    assert(finding_views(findings@) =~= docker_found(sock@, df@));
    CheckOutput { findings, notes: Vec::new() }
}

/// Every command of the Docker check prunes dangling images or the builder cache
/// through the measured socket: never containers, networks or volumes.
pub proof fn law_docker_prunes_images_and_builder_cache_alone(sock: Seq<u8>, df: JsonView, i: int)
    requires
        0 <= i < docker_found(sock, df).len(),
    ensures
        ({
            let f = docker_found(sock, df)[i];
            let host = "docker -H "@ + quoted("unix://"@ + lossy_text(sock));
            &&& f.risk == Risk::Safe && !f.needs_root && f.paths.len() == 0
            &&& (f.id == "docker-dangling"@ && f.action == (ActionView::Shell { command: host + " image prune -f"@ }) && f.bytes == image_bytes(
                images_in(df),
            ) as u64) || (f.id == "docker-builder"@ && f.action == (ActionView::Shell { command: host + " builder prune -f"@ }) && f.bytes
                == record_bytes(records_in(df)) as u64)
        }),
        docker_found(sock, df).len() <= 2,
{
}

/// An image that no tag names and no container uses.
pub open spec fn untagged_and_unused(img: JsonView) -> bool {
    &&& at_key(img, "RepoTags"@) matches JsonView::List(tags) ==> forall|t: int|
        0 <= t < tags.len() ==> #[trigger] tags[t] == JsonView::Text("<none>:<none>"@)
    &&& at_key(img, "Containers"@) matches JsonView::Number(Some(n)) ==> n <= 0
}

/// What an image holds alone: its size less what it shares.
pub open spec fn held_alone(img: JsonView) -> nat {
    match (at_key(img, "Size"@), at_key(img, "SharedSize"@)) {
        (JsonView::Number(Some(s)), JsonView::Number(Some(h))) if h > 0 => if s > h { (s - h) as nat } else { 0 },
        (JsonView::Number(Some(s)), _) => if s > 0 { s as nat } else { 0 },
        _ => 0,
    }
}

/// The dangling images are counted, and with what each holds alone: exactly
/// those without a tag that no container uses.
pub proof fn law_dangling_images_are_counted(list: Seq<JsonView>, i: int)
    requires
        0 <= i < list.len(),
    ensures
        image_count(list) == image_count(list.remove(i)) + if untagged_and_unused(list[i]) { 1nat } else { 0 },
        image_bytes(list) == image_bytes(list.remove(i)) + if untagged_and_unused(list[i]) { held_alone(list[i]) } else { 0 },
        image_count(Seq::empty()) == 0 && image_bytes(Seq::empty()) == 0,
    decreases list.len(),
{
    if i < list.len() - 1 {
        law_dangling_images_are_counted(list.drop_last(), i);
        assert(list.remove(i).drop_last() =~= list.drop_last().remove(i));
        assert(list.remove(i).last() == list.last());
    } else {
        assert(list.remove(i) =~= list.drop_last());
        let img = list[i];
        assert(prunable(img) == untagged_and_unused(img)) by {
            if let JsonView::List(tags) = at_key(img, "RepoTags"@) {
                if no_tags(tags) {
                    assert forall|t: int| 0 <= t < tags.len() implies #[trigger] tags[t] == JsonView::Text("<none>:<none>"@) by {
                        assert(no_tag(tags[t]));
                    }
                }
            }
        }
        assert(image_gain(img) == held_alone(img));
    }
}

/// The builder cache counts exactly the records that say of themselves that they
/// are neither in use nor shared, each with its size.
pub proof fn law_idle_unshared_records_are_counted(list: Seq<JsonView>, i: int)
    requires
        0 <= i < list.len(),
    ensures
        record_bytes(list) == record_bytes(list.remove(i)) + (if at_key(list[i], "InUse"@) == JsonView::Bool(false) && at_key(
            list[i],
            "Shared"@,
        ) == JsonView::Bool(false) {
            match at_key(list[i], "Size"@) {
                JsonView::Number(Some(n)) => if n > 0 { n as nat } else { 0 },
                _ => 0,
            }
        } else {
            0
        }),
        record_bytes(Seq::empty()) == 0,
    decreases list.len(),
{
    if i < list.len() - 1 {
        law_idle_unshared_records_are_counted(list.drop_last(), i);
        assert(list.remove(i).drop_last() =~= list.drop_last().remove(i));
        assert(list.remove(i).last() == list.last());
    } else {
        assert(list.remove(i) =~= list.drop_last());
    }
}

/// The images and records of a reply are its `Images` and `BuildCache` lists, and
/// any dangling image or reclaimable record gives its finding.
pub proof fn law_dangling_images_are_found(sock: Seq<u8>, df: JsonView)
    ensures
        at_key(df, "Images"@) matches JsonView::List(v) ==> images_in(df) == v,
        at_key(df, "BuildCache"@) matches JsonView::List(v) ==> records_in(df) == v,
        (exists|i: int| 0 <= i < images_in(df).len() && untagged_and_unused(#[trigger] images_in(df)[i])) ==> docker_found(sock, df).len() > 0
            && docker_found(sock, df)[0].id == "docker-dangling"@,
        record_bytes(records_in(df)) > 0 ==> docker_found(sock, df).len() > 0 && docker_found(sock, df).last().id == "docker-builder"@,
{
    if exists|i: int| 0 <= i < images_in(df).len() && untagged_and_unused(#[trigger] images_in(df)[i]) {
        let i = choose|i: int| 0 <= i < images_in(df).len() && untagged_and_unused(#[trigger] images_in(df)[i]);
        law_dangling_images_are_counted(images_in(df), i);
    }
}

/// A member of an object is the last one with that key; what has no such member
/// has nothing there.
pub proof fn law_members_are_found_by_key(m: Seq<(Seq<char>, JsonView)>, i: int)
    requires
        0 <= i < m.len(),
        forall|j: int| i < j < m.len() ==> (#[trigger] m[j]).0 != m[i].0,
    ensures
        at_key(JsonView::Object(m), m[i].0) == m[i].1,
    decreases m.len(),
{
    if i < m.len() - 1 {
        let front = m.drop_last();
        assert(m[m.len() - 1].0 != m[i].0);
        assert forall|j: int| i < j < front.len() implies (#[trigger] front[j]).0 != front[i].0 by {
            assert(front[j] == m[j]);
        }
        law_members_are_found_by_key(front, i);
    }
}

/// The sockets that may be there are the system's, then the user's own; the first
/// that exists is used.
pub proof fn law_first_socket_is_used(rt: Seq<char>, list: Seq<Seq<u8>>, present: Seq<bool>, i: int)
    requires
        list.len() == present.len(),
        0 <= i < list.len(),
        present[i],
        forall|j: int| 0 <= j < i ==> !#[trigger] present[j],
    ensures
        first_existing(list, present) == Some(list[i]),
        socket_places(None) == seq![encode_utf8("/var/run/docker.sock"@)],
        socket_places(Some(rt)) == seq![
            encode_utf8("/var/run/docker.sock"@),
            join_bytes(encode_utf8(rt), encode_utf8("docker.sock"@)),
        ],
    decreases i,
{
    assert(socket_places(None) =~= seq![encode_utf8("/var/run/docker.sock"@)]);
    assert(socket_places(Some(rt)) =~= seq![
        encode_utf8("/var/run/docker.sock"@),
        join_bytes(encode_utf8(rt), encode_utf8("docker.sock"@)),
    ]);
    if i > 0 {
        assert(!present[0]);
        assert forall|j: int| 0 <= j < i - 1 implies !#[trigger] present.skip(1)[j] by {
            assert(!present[j + 1]);
        }
        law_first_socket_is_used(rt, list.skip(1), present.skip(1), i - 1);
    }
}

/// `pat` stands at place `j` of `b`.
pub open spec fn found_at(b: Seq<u8>, pat: Seq<u8>, j: int) -> bool {
    0 <= j && j + pat.len() <= b.len() && b.subrange(j, j + pat.len()) == pat
}

proof fn lemma_bytes_at(b: Seq<u8>, pat: Seq<u8>, k: int, i: int)
    requires
        0 <= i <= k < b.len(),
        found_at(b, pat, k),
        forall|j: int| 0 <= j < k ==> !#[trigger] found_at(b, pat, j),
    ensures
        bytes_from(b, pat, i) == k,
    decreases k - i,
{
    if i < k {
        assert(!found_at(b, pat, i));
        lemma_bytes_at(b, pat, k, i + 1);
    }
}

/// The body of a reply is what stands behind the first empty line of it, if its
/// status line says 200; otherwise that line is the error.
pub proof fn law_body_stands_behind_the_head(raw: Seq<u8>, empty_line: Seq<u8>, k: int)
    requires
        empty_line == seq![13u8, 10u8, 13u8, 10u8],
        found_at(raw, empty_line, k),
        forall|j: int| 0 <= j < k ==> !#[trigger] found_at(raw, empty_line, j),
    ensures
        ({
            let head = lowercase(lossy_text(raw.take(k)));
            let first = if lines(head).len() > 0 { lines(head)[0] } else { Seq::empty() };
            reply_body(raw) == (if !contains(first, " 200"@) {
                Err::<Seq<u8>, Seq<char>>(first)
            } else if contains(head, "transfer-encoding: chunked"@) {
                Ok(dechunked(raw.skip(k + 4)))
            } else {
                Ok(raw.skip(k + 4))
            })
        }),
{
    lemma_bytes_at(raw, empty_line, k, 0);
    assert(head_end() =~= empty_line);
}

/// A chunked body is its chunks one behind another, each behind a line with its
/// length, up to one of length zero.
pub proof fn law_chunks_follow_each_other(line: Seq<u8>, chunk: Seq<u8>, rest: Seq<u8>)
    requires
        forall|i: int| 0 <= i < line.len() ==> #[trigger] line[i] != 13,
        chunk_len(line) == chunk.len(),
    ensures
        chunk.len() > 0 ==> dechunked(line + seq![13u8, 10u8] + chunk + seq![13u8, 10u8] + rest) == chunk + dechunked(rest),
        chunk.len() == 0 ==> dechunked(line + seq![13u8, 10u8] + rest) == Seq::<u8>::empty(),
{
    let nl = line.len() as int;
    let b = line + seq![13u8, 10u8] + chunk + seq![13u8, 10u8] + rest;
    let c = line + seq![13u8, 10u8] + rest;
    assert(crlf().len() == 2);
    assert(b.subrange(nl, nl + 2) =~= crlf());
    assert(c.subrange(nl, nl + 2) =~= crlf());
    assert forall|j: int| 0 <= j < nl implies !#[trigger] found_at(b, crlf(), j) by {
        assert(b.subrange(j, j + 2)[0] == line[j]);
    }
    assert forall|j: int| 0 <= j < nl implies !#[trigger] found_at(c, crlf(), j) by {
        assert(c.subrange(j, j + 2)[0] == line[j]);
    }
    lemma_bytes_at(b, crlf(), nl, 0);
    lemma_bytes_at(c, crlf(), nl, 0);
    assert(b.take(nl) =~= line);
    assert(c.take(nl) =~= line);
    if chunk.len() > 0 {
        let n = chunk.len() as int;
        assert(b.subrange(nl + 2, nl + 2 + n) =~= chunk);
        assert(b.skip(nl + 4 + n) =~= rest);
    }
}

/// Docker is asked over its own socket, and only ever for what it can tell.
pub proof fn law_docker_is_only_asked(path: &str, r: String)
    requires
        call_ensures(docker_request, (path,), r),
    ensures
        r@ == "GET "@ + path@ + " HTTP/1.0\r\nHost: docker\r\n\r\n"@,
{
}

/// A socket that the user names is used if it is a local one, and no other
/// instead.
pub proof fn law_a_named_socket_is_used(host: &str, candidates: Vec<FsPath>, exist: Vec<bool>, r: Option<FsPath>, p: Seq<char>)
    requires
        call_ensures(docker_socket, (Some(host), &candidates, &exist), r),
    ensures
        host@ == "unix://"@ + p ==> (r matches Some(s) && s@ == encode_utf8(p)),
        !"unix://"@.is_prefix_of(host@) ==> r is None,
{
    lemma_starts("unix://"@, p);
}

/// The length of a chunk is written in hexadecimal digits, of either case.
pub proof fn law_chunk_lengths_are_hexadecimal(s: Seq<char>, c: char)
    ensures
        '0' <= c <= '9' ==> hex_digit(c) == Some((c as u32 - '0' as u32) as nat),
        'a' <= c <= 'f' ==> hex_digit(c) == Some((10 + (c as u32 - 'a' as u32)) as nat),
        'A' <= c <= 'F' ==> hex_digit(c) == Some((10 + (c as u32 - 'A' as u32)) as nat),
        hex_digit(c) is Some ==> '0' <= c <= '9' || 'a' <= c <= 'f' || 'A' <= c <= 'F',
        hex_value(Seq::empty()) == Some(0nat),
        hex_value(s) is Some && hex_digit(c) is Some ==> hex_value(s.push(c)) == Some(16 * hex_value(s)->0 + hex_digit(c)->0),
        hex_value(s) is None || hex_digit(c) is None ==> hex_value(s.push(c)) is None,
{
    assert(s.push(c).drop_last() =~= s);
}

} // verus!
