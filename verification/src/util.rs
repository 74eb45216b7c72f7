//! Small shared helpers: size formatting, shell quoting, user detection.

use vstd::prelude::*;
use vstd::utf8::encode_utf8;

use crate::decimal::{digits_of, finer, lemma_nearest_large, nearest, pow10, scaled, twice, P53, P64, P66};
use crate::path::{below, comps, inside, lossy_text, FsPath};
use crate::sysdirs::{strip_end, without_end};
use crate::text::{
    all_digits, alpha, chars_of, decimal_chars, digit, digits, find_char, index_from, is_alpha,
    is_digit, is_space, law_ascii_white_space, law_digits_read_back, law_trim_takes_the_white_space_off, lemma_digit_char, lemma_digits,
    lemma_index_from, lines, lines_of, number, only_digits, parse_u64, same, slice, split,
    split_on, starts, starts_with, string_of, to_upper, trim, trimmed, uppercase, value, views,
    words, words_of,
};

verus! {

/// The text that a number of bytes is shown as, in binary (IEC) units.
pub uninterp spec fn size_text(bytes: u64) -> Seq<char>;

/// `ByteSize::b(bytes).display().iec()`, written out. Below one KiB that is the
/// number itself and ` B`; how larger numbers are rounded is only named.
#[verifier::external_body]
fn iec_text(bytes: u64) -> (r: String)
    ensures
        r@ == size_text(bytes),
        bytes < 1024 ==> r@ == digits(bytes as nat) + " B"@,
{
    bytesize::ByteSize::b(bytes).display().iec().to_string()
}

/// Human readable size using binary (IEC) units, e.g. `4.8 GiB`.
pub fn fmt_size(bytes: u64) -> (r: String)
    ensures
        r@ == size_text(bytes),
        bytes < 1024 ==> r@ == digits(bytes as nat) + " B"@,
{
    iec_text(bytes)
}

/// Index behind the letter that ends an escape sequence, or the length.
pub open spec fn escape_end(s: Seq<char>, i: int) -> int
    decreases s.len() - i,
{
    if i >= s.len() {
        s.len() as int
    } else if is_alpha(s[i]) {
        i + 1
    } else {
        escape_end(s, i + 1)
    }
}

pub proof fn lemma_escape_end(s: Seq<char>, i: int)
    requires
        0 <= i <= s.len(),
    ensures
        i <= escape_end(s, i) <= s.len(),
        i < s.len() ==> i < escape_end(s, i),
    decreases s.len() - i,
{
    if i < s.len() && !is_alpha(s[i]) {
        lemma_escape_end(s, i + 1);
    }
}

/// From `i` on: everything but the escape sequences, each of which runs from
/// ESC and `[` to the next ASCII letter.
pub open spec fn plain_from(s: Seq<char>, i: int) -> Seq<char>
    decreases s.len() - i,
{
    if i < 0 || i >= s.len() {
        Seq::empty()
    } else if s[i] == '\x1b' && i + 1 < s.len() && s[i + 1] == '[' {
        let e = escape_end(s, i + 1);
        if e <= i || e > s.len() {
            Seq::empty()
        } else {
            plain_from(s, e)
        }
    } else {
        seq![s[i]] + plain_from(s, i + 1)
    }
}

/// Remove ANSI colour sequences (`ESC [ … m`).
pub fn strip_ansi(s: &str) -> (r: String)
    ensures
        r@ == plain_from(s@, 0),
{
    let v = chars_of(s);
    let mut out = String::new();
    let mut i: usize = 0;
    assert(out@ + plain_from(v@, 0) =~= plain_from(v@, 0));
    while i < v.len()
        invariant
            i <= v@.len(),
            out@ + plain_from(v@, i as int) == plain_from(v@, 0),
        decreases v@.len() - i,
    {
        if v[i] == '\x1b' && i + 1 < v.len() && v[i + 1] == '[' {
            let from: usize = i + 1;
            let mut e: usize = from;
            while e < v.len() && !alpha(v[e])
                invariant
                    from <= e <= v@.len(),
                    escape_end(v@, from as int) == escape_end(v@, e as int),
                decreases v@.len() - e,
            {
                e += 1;
            }
            proof {
                lemma_escape_end(v@, from as int);
            }
            i = if e < v.len() { e + 1 } else { e };
        } else {
            let ghost before = out@;
            out.push(v[i]);
            assert(out@ + plain_from(v@, i + 1) =~= before + (seq![v@[i as int]] + plain_from(v@, i + 1)));
            i += 1;
        }
    }
    assert(out@ + plain_from(v@, i as int) =~= out@);
    out
}

/// A text without an escape character keeps every character.
pub proof fn law_text_without_escapes_is_kept(s: Seq<char>)
    requires
        !s.contains('\x1b'),
    ensures
        plain_from(s, 0) == s,
{
    lemma_plain_tail(s, 0);
    assert(s.skip(0) =~= s);
}

proof fn lemma_plain_tail(s: Seq<char>, i: int)
    requires
        0 <= i <= s.len(),
        !s.contains('\x1b'),
    ensures
        plain_from(s, i) == s.skip(i),
    decreases s.len() - i,
{
    if i < s.len() {
        assert(s.contains(s[i]));
        lemma_plain_tail(s, i + 1);
        assert(seq![s[i]] + s.skip(i + 1) =~= s.skip(i));
    } else {
        assert(s.skip(i) =~= Seq::empty());
    }
}

/// Characters that the shell takes as they are.
pub open spec fn shell_safe(c: char) -> bool {
    is_alpha(c) || is_digit(c) || c == '/' || c == '.' || c == '_' || c == '-' || c == '+' || c == ':' || c == '='
        || c == '@' || c == '%' || c == ','
}

pub open spec fn all_safe(s: Seq<char>) -> bool {
    forall|i: int| 0 <= i < s.len() ==> shell_safe(#[trigger] s[i])
}

/// The text with each single quote closed, escaped and opened again.
pub open spec fn escaped(s: Seq<char>) -> Seq<char>
    decreases s.len(),
{
    if s.len() == 0 {
        Seq::empty()
    } else {
        escaped(s.drop_last()) + if s.last() == '\'' { seq!['\'', '\\', '\'', '\''] } else { seq![s.last()] }
    }
}

/// The shell word for a text: as it stands where every character is safe,
/// otherwise in single quotes.
pub open spec fn quoted(s: Seq<char>) -> Seq<char> {
    if s.len() > 0 && all_safe(s) {
        s
    } else {
        seq!['\''] + escaped(s) + seq!['\'']
    }
}

fn safe_char(c: char) -> (r: bool)
    ensures
        r == shell_safe(c),
{
    alpha(c) || digit(c) || c == '/' || c == '.' || c == '_' || c == '-' || c == '+' || c == ':' || c == '=' || c == '@'
        || c == '%' || c == ','
}

/// Quote a string for POSIX `sh` if needed.
pub fn shq(s: &str) -> (r: String)
    ensures
        r@ == quoted(s@),
{
    let v = chars_of(s);
    let mut safe = v.len() > 0;
    for i in 0..v.len()
        invariant
            safe == (v@.len() > 0 && forall|j: int| 0 <= j < i ==> shell_safe(#[trigger] v@[j])),
    {
        safe = safe && safe_char(v[i]);
    }
    if safe {
        return s.to_owned();
    }
    let mut out = String::new();
    out.push('\'');
    for i in 0..v.len()
        invariant
            out@ == seq!['\''] + escaped(v@.take(i as int)),
    {
        let ghost before = out@;
        assert(v@.take(i + 1).drop_last() =~= v@.take(i as int));
        if v[i] == '\'' {
            out.push('\'');
            out.push('\\');
            out.push('\'');
            out.push('\'');
            assert(out@ =~= before + seq!['\'', '\\', '\'', '\'']);
        } else {
            out.push(v[i]);
            assert(out@ =~= before + seq![v@[i as int]]);
        }
        assert(out@ =~= seq!['\''] + escaped(v@.take(i + 1)));
    }
    assert(v@.take(v@.len() as int) =~= v@);
    out.push('\'');
    assert(out@ =~= quoted(s@));
    out
}

/// What the shell makes of a word: inside single quotes every character stands
/// for itself; outside, a backslash takes the next one literally and only safe
/// characters stand unquoted. `None` where the word would not end as one.
pub open spec fn shell_word(t: Seq<char>, inside_quotes: bool) -> Option<Seq<char>>
    decreases t.len(),
{
    if t.len() == 0 {
        if inside_quotes {
            None
        } else {
            Some(Seq::empty())
        }
    } else if inside_quotes {
        if t[0] == '\'' {
            shell_word(t.skip(1), false)
        } else {
            match shell_word(t.skip(1), true) {
                Some(r) => Some(seq![t[0]] + r),
                None => None,
            }
        }
    } else if t[0] == '\'' {
        shell_word(t.skip(1), true)
    } else if t[0] == '\\' && t.len() > 1 {
        match shell_word(t.skip(2), false) {
            Some(r) => Some(seq![t[1]] + r),
            None => None,
        }
    } else if shell_safe(t[0]) {
        match shell_word(t.skip(1), false) {
            Some(r) => Some(seq![t[0]] + r),
            None => None,
        }
    } else {
        None
    }
}

/// Quoting a text gives one shell word, and that word is the text again.
pub proof fn law_quoted_word_is_the_text(s: Seq<char>)
    ensures
        quoted(s).len() > 0,
        shell_word(quoted(s), false) == Some(s),
{
    if s.len() > 0 && all_safe(s) {
        lemma_safe_word(s);
    } else {
        let tail = seq!['\''];
        lemma_escaped_word(s, tail);
        assert(tail.skip(1) =~= Seq::empty());
        assert(shell_word(tail.skip(1), false) == Some(Seq::<char>::empty()));
        assert(shell_word(tail, true) == Some(Seq::<char>::empty()));
        assert(s + Seq::<char>::empty() =~= s);
        let q = quoted(s);
        assert(q.skip(1) =~= escaped(s) + tail);
        assert(q[0] == '\'');
    }
}

proof fn lemma_safe_word(s: Seq<char>)
    requires
        all_safe(s),
    ensures
        shell_word(s, false) == Some(s),
    decreases s.len(),
{
    if s.len() > 0 {
        assert(shell_safe(s[0]));
        assert(all_safe(s.skip(1)));
        lemma_safe_word(s.skip(1));
        assert(seq![s[0]] + s.skip(1) =~= s);
    }
}

proof fn lemma_escaped_word(s: Seq<char>, tail: Seq<char>)
    requires
        shell_word(tail, true) is Some,
    ensures
        shell_word(escaped(s) + tail, true) == Some(s + shell_word(tail, true)->0),
    decreases s.len(),
{
    let rest = shell_word(tail, true)->0;
    if s.len() == 0 {
        assert(escaped(s) + tail =~= tail);
        assert(s + rest =~= rest);
    } else if s.last() == '\'' {
        let mid = seq!['\'', '\\', '\'', '\''] + tail;
        assert(mid.skip(1)[0] == '\\');
        assert(mid.skip(1).skip(2) =~= seq!['\''] + tail);
        assert((seq!['\''] + tail).skip(1) =~= tail);
        assert(shell_word(seq!['\''] + tail, false) == Some(rest));
        assert(shell_word(mid.skip(1), false) == Some(seq!['\''] + rest));
        assert(shell_word(mid, true) == Some(seq!['\''] + rest));
        lemma_escaped_word(s.drop_last(), mid);
        assert(escaped(s) + tail =~= escaped(s.drop_last()) + mid);
        assert(s.drop_last() + (seq!['\''] + rest) =~= s + rest);
    } else {
        let mid = seq![s.last()] + tail;
        assert(mid.skip(1) =~= tail);
        assert(shell_word(mid, true) == Some(seq![s.last()] + rest));
        lemma_escaped_word(s.drop_last(), mid);
        assert(escaped(s) + tail =~= escaped(s.drop_last()) + mid);
        assert(s.drop_last() + (seq![s.last()] + rest) =~= s + rest);
    }
}

/// Quote a path for POSIX `sh` if needed.
pub fn shq_path(p: &FsPath) -> (r: String)
    ensures
        r@ == quoted(lossy_text(p@)),
{
    shq(p.display().as_str())
}

/// How a path is shown to the user whose home is `home`.
pub open spec fn tilde_text(p: Seq<u8>, home: Seq<u8>) -> Seq<char> {
    if !inside(p, home) {
        lossy_text(p)
    } else if below(p, comps(home).len()).len() == 0 {
        "~"@
    } else {
        "~/"@ + lossy_text(below(p, comps(home).len()))
    }
}

/// Replace the home directory prefix with `~` for display.
pub fn tilde(p: &FsPath, home: &FsPath) -> (r: String)
    ensures
        r@ == tilde_text(p@, home@),
{
    match p.strip_prefix(home) {
        Some(rest) => {
            if rest.bytes.len() == 0 {
                "~".to_owned()
            } else {
                "~/".to_owned().concat(rest.display().as_str())
            }
        },
        None => p.display(),
    }
}

/// The first of `list` that begins with `prefix`.
pub open spec fn first_starting(list: Seq<Seq<char>>, prefix: Seq<char>) -> Option<Seq<char>>
    decreases list.len(),
{
    if list.len() == 0 {
        None
    } else if starts(list[0], prefix) {
        Some(list[0])
    } else {
        first_starting(list.skip(1), prefix)
    }
}

pub fn find_starting(list: &Vec<Vec<char>>, prefix: &str) -> (r: Option<usize>)
    ensures
        r is Some <==> first_starting(views(list@), prefix@) is Some,
        r matches Some(i) ==> i < list@.len() && first_starting(views(list@), prefix@) == Some(list@[i as int]@),
{
    assert(views(list@).skip(0) =~= views(list@));
    for i in 0..list.len()
        invariant
            first_starting(views(list@), prefix@) == first_starting(views(list@).skip(i as int), prefix@),
    {
        assert(views(list@).skip(i as int).skip(1) =~= views(list@).skip(i + 1));
        assert(views(list@).skip(i as int)[0] == list@[i as int]@);
        if starts_with(&list[i], prefix) {
            return Some(i);
        }
    }
    None
}

/// The effective user that `/proc/self/status` names, `u32::MAX` where it
/// names none.
pub open spec fn euid_in(status: Option<Seq<char>>) -> u32 {
    match status {
        None => u32::MAX,
        Some(s) => match first_starting(lines(s), "Uid:"@) {
            None => u32::MAX,
            Some(l) => if words(l).len() <= 2 {
                u32::MAX
            } else {
                match number(words(l)[2], u32::MAX as nat) {
                    Some(n) => n as u32,
                    None => u32::MAX,
                }
            },
        },
    }
}

/// The view of an optional text.
pub open spec fn opt_text(o: Option<&str>) -> Option<Seq<char>> {
    match o {
        Some(s) => Some(s@),
        None => None,
    }
}

/// Effective UID, out of the text of `/proc/self/status`.
pub fn euid(status: Option<&str>) -> (r: u32)
    ensures
        r == euid_in(opt_text(status)),
{
    match status {
        None => u32::MAX,
        Some(s) => {
            let ls = lines_of(&chars_of(s));
            match find_starting(&ls, "Uid:") {
                None => u32::MAX,
                Some(i) => {
                    let w = words_of(&ls[i]);
                    assert(views(w@).len() == w@.len());
                    if w.len() <= 2 {
                        return u32::MAX;
                    }
                    assert(views(w@)[2] == w@[2]@);
                    match parse_u64(&w[2]) {
                        Some(n) => if n <= u32::MAX as u64 {
                            n as u32
                        } else {
                            u32::MAX
                        },
                        None => u32::MAX,
                    }
                },
            }
        },
    }
}

/// Does the process run as root?
pub fn is_root(status: Option<&str>) -> (r: bool)
    ensures
        r == (euid_in(opt_text(status)) == 0),
{
    euid(status) == 0
}

/// The home of `user` in the lines of a passwd file, from line `i` on.
pub open spec fn home_in_passwd(list: Seq<Seq<char>>, user: Seq<char>) -> Option<Seq<char>>
    decreases list.len(),
{
    if list.len() == 0 {
        None
    } else {
        let f = split(list[0], ':');
        if f.len() >= 6 && f[0] == user {
            Some(f[5])
        } else {
            home_in_passwd(list.skip(1), user)
        }
    }
}

/// The home directory of the user who is really at the keyboard.
pub open spec fn real_home(
    root: bool,
    sudo_user: Option<Seq<char>>,
    passwd: Option<Seq<char>>,
    home: Option<Seq<u8>>,
) -> Seq<u8> {
    let own = match home {
        Some(h) => h,
        None => encode_utf8("/root"@),
    };
    match (sudo_user, passwd) {
        (Some(u), Some(p)) => match home_in_passwd(lines(p), u) {
            Some(h) if root => encode_utf8(h),
            _ => own,
        },
        _ => own,
    }
}

fn passwd_home(list: &Vec<Vec<char>>, user: &str) -> (r: Option<String>)
    ensures
        r is Some <==> home_in_passwd(views(list@), user@) is Some,
        r matches Some(h) ==> home_in_passwd(views(list@), user@) == Some(h@),
{
    assert(views(list@).skip(0) =~= views(list@));
    for i in 0..list.len()
        invariant
            home_in_passwd(views(list@), user@) == home_in_passwd(views(list@).skip(i as int), user@),
    {
        assert(views(list@).skip(i as int).skip(1) =~= views(list@).skip(i + 1));
        assert(views(list@).skip(i as int)[0] == list@[i as int]@);
        let f = split_on(&list[i], ':');
        assert(views(f@).len() == f@.len());
        if f.len() >= 6 {
            assert(views(f@)[0] == f@[0]@ && views(f@)[5] == f@[5]@);
            if same(string_of(&f[0]).as_str(), user) {
                return Some(string_of(&f[5]));
            }
        }
    }
    None
}

/// Home directory of the *real* user. When launched through `sudo` (so that
/// `SUDO_USER` is set), this is the invoking user's home out of `/etc/passwd`,
/// not root's; otherwise `$HOME`, and `/root` without one.
pub fn real_user_home(root: bool, sudo_user: Option<&str>, passwd: Option<&str>, home: Option<FsPath>) -> (r: FsPath)
    ensures
        r@ == real_home(
            root,
            opt_text(sudo_user),
            opt_text(passwd),
            match home {
                Some(h) => Some(h@),
                None => None,
            },
        ),
{
    if root {
        if let Some(user) = sudo_user {
            if let Some(text) = passwd {
                let ls = lines_of(&chars_of(text));
                if let Some(h) = passwd_home(&ls, user) {
                    return FsPath::new(h.as_str());
                }
            }
        }
    }
    match home {
        Some(h) => h,
        None => FsPath::new("/root"),
    }
}

/// Kernel release of the running kernel, out of `/proc/sys/kernel/osrelease`.
pub fn running_kernel(osrelease: Option<&str>) -> (r: String)
    ensures
        r@ == (match osrelease {
            Some(s) => trim(s@),
            None => Seq::empty(),
        }),
{
    match osrelease {
        Some(s) => string_of(&trimmed(&chars_of(s))),
        None => String::new(),
    }
}

/// The first `i` digits of `d`, with a comma before every group of three that
/// ends at the end of `d`.
pub open spec fn grouped(d: Seq<char>, i: int) -> Seq<char>
    decreases i,
{
    if i <= 0 {
        Seq::empty()
    } else {
        let j = i - 1;
        if j > 0 && (d.len() - j) % 3 == 0 {
            grouped(d, j).push(',').push(d[j])
        } else {
            grouped(d, j).push(d[j])
        }
    }
}

/// Thousands separator for counts.
pub fn fmt_count(n: u64) -> (r: String)
    ensures
        r@ == grouped(digits(n as nat), digits(n as nat).len() as int),
{
    let s = decimal_chars(n);
    let mut out = String::new();
    for i in 0..s.len()
        invariant
            out@ == grouped(s@, i as int),
    {
        if i > 0 && (s.len() - i) % 3 == 0 {
            out.push(',');
        }
        out.push(s[i]);
    }
    out
}

/// The characters that are no commas.
pub open spec fn no_commas(s: Seq<char>) -> Seq<char>
    decreases s.len(),
{
    if s.len() == 0 {
        Seq::empty()
    } else if s.last() == ',' {
        no_commas(s.drop_last())
    } else {
        no_commas(s.drop_last()).push(s.last())
    }
}

/// Without its commas a shown count is the number's digits.
pub proof fn law_count_shows_the_digits(n: nat)
    ensures
        no_commas(grouped(digits(n), digits(n).len() as int)) == digits(n),
{
    lemma_digits(n);
    assert forall|i: int| 0 <= i < digits(n).len() implies #[trigger] digits(n)[i] != ',' by {
        assert(is_digit(digits(n)[i]));
    }
    lemma_no_commas(digits(n), digits(n).len() as int);
    assert(digits(n).take(digits(n).len() as int) =~= digits(n));
}

proof fn lemma_no_commas(d: Seq<char>, i: int)
    requires
        0 <= i <= d.len(),
        forall|j: int| 0 <= j < d.len() ==> #[trigger] d[j] != ',',
    ensures
        no_commas(grouped(d, i)) == d.take(i),
    decreases i,
{
    if i > 0 {
        let j = i - 1;
        lemma_no_commas(d, j);
        let g = grouped(d, j);
        assert(d.take(i) =~= d.take(j).push(d[j]));
        assert(g.push(',').drop_last() =~= g);
        assert(no_commas(g.push(',')) == no_commas(g));
        assert(g.push(',').push(d[j]).drop_last() =~= g.push(','));
        assert(g.push(d[j]).drop_last() =~= g);
    } else {
        assert(d.take(i) =~= Seq::empty());
    }
}

/// The text of a string in Rust's notation, in quotes.
pub uninterp spec fn debug_text(s: Seq<char>) -> Seq<char>;

/// `format!("{s:?}")`: how `str`'s `Debug` writes a text.
#[verifier::external_body]
fn debugged(s: &str) -> (r: String)
    ensures
        r@ == debug_text(s@),
{
    format!("{s:?}")
}

/// Where the number at the start of a text ends.
pub open spec fn number_end(s: Seq<char>, i: int) -> int
    decreases s.len() - i,
{
    if i < 0 || i >= s.len() || !(is_digit(s[i]) || s[i] == '.') {
        i
    } else {
        number_end(s, i + 1)
    }
}

/// A decimal number: digits with at most one point among or around them, as a
/// fraction.
pub open spec fn fraction(num: Seq<char>) -> Option<(nat, nat)> {
    let at = index_from(num, '.', 0);
    let whole = num.take(at);
    let frac = if at < num.len() {
        num.skip(at + 1)
    } else {
        Seq::empty()
    };
    if all_digits(whole) && all_digits(frac) && whole.len() + frac.len() > 0 {
        Some((value(whole) * pow10(frac.len()) + value(frac), pow10(frac.len())))
    } else {
        None
    }
}

/// The text without `IB` at its end, however often.
pub open spec fn without_ib(s: Seq<char>) -> Seq<char>
    decreases s.len(),
{
    if s.len() >= 2 && s[s.len() - 2] == 'I' && s[s.len() - 1] == 'B' {
        without_ib(s.take(s.len() - 2))
    } else {
        s
    }
}

/// The power of two that a unit stands for (binary multiples).
pub open spec fn unit_power(unit: Seq<char>) -> Option<nat> {
    let u = strip_end(without_ib(uppercase(trim(unit))), 'B');
    if u.len() == 0 {
        Some(0)
    } else if u == seq!['K'] {
        Some(10)
    } else if u == seq!['M'] {
        Some(20)
    } else if u == seq!['G'] {
        Some(30)
    } else if u == seq!['T'] {
        Some(40)
    } else {
        None
    }
}

/// What a size such as `500M` or `1.5G` stands for, rounded as a double
/// precision number is; 2^64 itself stands for the largest number.
pub open spec fn size_in(s: Seq<char>) -> Result<u64, Seq<char>> {
    let t = trim(s);
    let k = number_end(t, 0);
    match fraction(t.take(k)) {
        None => Err("invalid size: "@ + s),
        Some(x) => match unit_power(t.skip(k)) {
            None => Err("unknown size unit in "@ + debug_text(s) + " (use K, M, G or T)"@),
            Some(p) => {
                let bytes = nearest(x.0 * twice(p), x.1);
                if bytes > P64 {
                    Err("size too large: "@ + s)
                } else if bytes == P64 {
                    Ok(u64::MAX)
                } else {
                    Ok(bytes as u64)
                }
            },
        },
    }
}

fn trim_ib(v: &Vec<char>) -> (r: Vec<char>)
    ensures
        r@ == without_ib(v@),
{
    let mut to: usize = v.len();
    assert(v@.take(to as int) =~= v@);
    while to >= 2 && v[to - 2] == 'I' && v[to - 1] == 'B'
        invariant
            to <= v@.len(),
            without_ib(v@) == without_ib(v@.take(to as int)),
        decreases to,
    {
        assert(v@.take(to as int).take(to - 2) =~= v@.take(to - 2));
        to -= 2;
    }
    let r = slice(v, 0, to);
    assert(r@ =~= v@.take(to as int));
    r
}

fn read_unit(unit: &Vec<char>) -> (r: Option<u32>)
    ensures
        r is Some <==> unit_power(unit@) is Some,
        r matches Some(p) ==> unit_power(unit@) == Some(p as nat) && p <= 40,
{
    let u = without_end(&trim_ib(&to_upper(&trimmed(unit))), 'B');
    if u.len() == 0 {
        return Some(0);
    }
    if u.len() > 1 {
        return None;
    }
    let c: char = u[0];
    proof {
        assert(u@ =~= seq![c]);
        assert(seq![c][0] == c && seq!['K'][0] == 'K' && seq!['M'][0] == 'M' && seq!['G'][0] == 'G' && seq!['T'][0] == 'T');
    }
    if c == 'K' {
        Some(10)
    } else if c == 'M' {
        Some(20)
    } else if c == 'G' {
        Some(30)
    } else if c == 'T' {
        Some(40)
    } else {
        None
    }
}

/// The whole number that digits stand for, if it is below 2^66.
fn read_whole(v: &Vec<char>) -> (r: Option<u128>)
    requires
        all_digits(v@),
    ensures
        r is Some <==> value(v@) < P66,
        r matches Some(n) ==> n == value(v@),
{
    let mut n: u128 = 0;
    for i in 0..v.len()
        invariant
            all_digits(v@),
            n == value(v@.take(i as int)),
            n < P66,
    {
        assert(is_digit(v@[i as int]));
        let d: u128 = (v[i] as u32 - 48) as u128;
        proof {
            assert(v@.take(i + 1).drop_last() =~= v@.take(i as int));
            crate::text::lemma_value_grows(v@, i + 1);
        }
        n = n * 10 + d;
        if n >= P66 {
            return None;
        }
    }
    assert(v@.take(v@.len() as int) =~= v@);
    Some(n)
}

/// Parse sizes such as `500M`, `1.5G`, `200MiB`, `4096` (binary multiples).
pub fn parse_size(s: &str) -> (r: Result<u64, String>)
    ensures
        match r {
            Ok(n) => size_in(s@) == Ok::<u64, Seq<char>>(n),
            Err(e) => size_in(s@) == Err::<u64, Seq<char>>(e@),
        },
{
    let t = trimmed(&chars_of(s));
    let mut k: usize = 0;
    while k < t.len() && (digit(t[k]) || t[k] == '.')
        invariant
            k <= t@.len(),
            number_end(t@, 0) == number_end(t@, k as int),
        decreases t@.len() - k,
    {
        k += 1;
    }
    let (num, unit) = (slice(&t, 0, k), slice(&t, k, t.len()));
    assert(num@ =~= t@.take(k as int));
    assert(unit@ =~= t@.skip(k as int));
    let at = find_char(&num, '.', 0);
    let whole = slice(&num, 0, at);
    let frac = if at < num.len() {
        slice(&num, at + 1, num.len())
    } else {
        Vec::new()
    };
    assert(whole@ =~= num@.take(at as int));
    assert(frac@ =~= if at < num@.len() {
        num@.skip(at + 1)
    } else {
        Seq::empty()
    });
    if !only_digits(&whole) || !only_digits(&frac) || (whole.len() == 0 && frac.len() == 0) {
        return Err("invalid size: ".to_owned().concat(s));
    }
    let p = match read_unit(&unit) {
        Some(p) => p,
        None => return Err("unknown size unit in ".to_owned().concat(debugged(s).as_str()).concat(" (use K, M, G or T)")),
    };
    let ghost d = pow10(frac@.len());
    let ghost n = value(whole@) * d + value(frac@);
    let w = match read_whole(&whole) {
        Some(w) => w,
        None => {
            proof {
                lemma_pow10(frac@.len());
                lemma_twice(p as nat);
                let (v, f, m) = (value(whole@), value(frac@), twice(p as nat));
                assert((v * d + f) * m >= P66 * d) by (nonlinear_arith)
                    requires
                        v >= P66,
                        m >= 1,
                        d >= 1,
                        f >= 0,
                ;
                lemma_nearest_large(n * m, d);
            }
            return Err("size too large: ".to_owned().concat(s));
        },
    };
    let bytes = scaled(w, digits_of(&frac), p);
    if bytes > P64 {
        return Err("size too large: ".to_owned().concat(s));
    }
    if bytes == P64 {
        return Ok(u64::MAX);
    }
    Ok(bytes as u64)
}

proof fn lemma_pow10(n: nat)
    ensures
        pow10(n) >= 1,
    decreases n,
{
    if n > 0 {
        lemma_pow10((n - 1) as nat);
    }
}

proof fn lemma_twice(n: nat)
    ensures
        twice(n) >= 1,
    decreases n,
{
    if n > 0 {
        lemma_twice((n - 1) as nat);
    }
}

/// The characters that need no quotes: letters, digits and a few signs that no
/// shell reads as anything else.
pub proof fn law_unquoted_characters(c: char)
    ensures
        shell_safe(c) <==> 'a' <= c <= 'z' || 'A' <= c <= 'Z' || '0' <= c <= '9' || c == '/' || c == '.' || c == '_' || c == '-' || c == '+'
            || c == ':' || c == '=' || c == '@' || c == '%' || c == ',',
        shell_safe(c) ==> c != ' ' && c != '$' && c != '`' && c != '"' && c != '\'' && c != '\\' && c != ';' && c != '&' && c != '|' && c != '*'
            && c != '?' && c != '<' && c != '>' && c != '(' && c != ')' && c != '~' && c != '#' && c != '!' && c != '\n',
{
    lemma_digit_char(c);
}

/// A path in the home folder is shown with a tilde, any other one in full.
pub proof fn law_tildes_stand_for_the_home_folder(p: Seq<u8>, home: Seq<u8>)
    ensures
        !inside(p, home) ==> tilde_text(p, home) == lossy_text(p),
        inside(p, home) ==> "~"@.is_prefix_of(tilde_text(p, home)),
{
    reveal_strlit("~");
    reveal_strlit("~/");
    let t = tilde_text(p, home);
    if inside(p, home) {
        assert(t[0] == '~');
        assert(t.take(1) =~= "~"@);
    }
}

proof fn lemma_same_groups(d: Seq<char>, e: Seq<char>, i: int)
    requires
        0 <= i <= d.len(),
        i <= e.len(),
        forall|j: int| 0 <= j < i ==> d[j] == e[j],
        d.len() == e.len() + 3,
    ensures
        grouped(d, i) == grouped(e, i),
    decreases i,
{
    if i > 0 {
        lemma_same_groups(d, e, i - 1);
        let j = i - 1;
        assert((d.len() - j) % 3 == (e.len() - j) % 3);
    }
}

/// A count is shown in groups of three digits from the right, with a comma
/// between them.
pub proof fn law_digits_are_grouped_by_threes(d: Seq<char>)
    ensures
        d.len() <= 3 ==> grouped(d, d.len() as int) == d,
        d.len() > 3 ==> grouped(d, d.len() as int) == grouped(d.take(d.len() - 3), d.len() - 3) + seq![','] + d.skip(d.len() - 3),
{
    let n = d.len() as int;
    if n <= 3 {
        lemma_short_group(d, n);
        assert(d.take(n) =~= d);
    } else {
        let e = d.take(n - 3);
        lemma_same_groups(d, e, n - 3);
        let g = grouped(d, n - 3);
        assert(grouped(d, n - 2) == g.push(',').push(d[n - 3]));
        assert((d.len() - (n - 2)) % 3 == 2);
        assert(grouped(d, n - 1) == g.push(',').push(d[n - 3]).push(d[n - 2]));
        assert((d.len() - (n - 1)) % 3 == 1);
        assert(grouped(d, n) == g.push(',').push(d[n - 3]).push(d[n - 2]).push(d[n - 1]));
        assert(grouped(d, n) =~= g + seq![','] + d.skip(n - 3));
    }
}

proof fn lemma_short_group(d: Seq<char>, i: int)
    requires
        0 <= i <= d.len() <= 3,
    ensures
        grouped(d, i) == d.take(i),
    decreases i,
{
    if i > 0 {
        lemma_short_group(d, i - 1);
        assert(d.take(i - 1).push(d[i - 1]) =~= d.take(i));
    } else {
        assert(d.take(0) =~= Seq::empty());
    }
}

proof fn lemma_letter_end(s: Seq<char>, i: int, k: int)
    requires
        0 <= i <= k < s.len(),
        is_alpha(s[k]),
        forall|j: int| i <= j < k ==> !is_alpha(#[trigger] s[j]),
    ensures
        escape_end(s, i) == k + 1,
    decreases k - i,
{
    if i < k {
        assert(!is_alpha(s[i]));
        lemma_letter_end(s, i + 1, k);
    }
}

proof fn lemma_plain_shift(s: Seq<char>, at: int, i: int)
    requires
        0 <= at <= i <= s.len(),
    ensures
        plain_from(s, i) == plain_from(s.skip(at), i - at),
    decreases s.len() - i,
{
    let t = s.skip(at);
    if i < s.len() {
        assert(t[i - at] == s[i]);
        if s[i] == '\x1b' && i + 1 < s.len() && s[i + 1] == '[' {
            assert(t[i - at + 1] == s[i + 1]);
            lemma_end_shift(s, at, i + 1);
            lemma_escape_end(s, i + 1);
            lemma_plain_shift(s, at, escape_end(s, i + 1));
        } else {
            lemma_plain_shift(s, at, i + 1);
        }
    }
}

proof fn lemma_end_shift(s: Seq<char>, at: int, i: int)
    requires
        0 <= at <= i <= s.len(),
    ensures
        escape_end(s.skip(at), i - at) == escape_end(s, i) - at,
    decreases s.len() - i,
{
    if i < s.len() {
        assert(s.skip(at)[i - at] == s[i]);
        lemma_end_shift(s, at, i + 1);
    }
}

/// A colour code (an escape, a bracket, and what follows up to a letter) is taken
/// out of a text, and what stands behind it is read on.
pub proof fn law_colour_codes_are_taken_out(body: Seq<char>, letter: char, rest: Seq<char>)
    requires
        is_alpha(letter),
        forall|i: int| 0 <= i < body.len() ==> !is_alpha(#[trigger] body[i]),
    ensures
        plain_from(seq!['\x1b', '['] + body + seq![letter] + rest, 0) == plain_from(rest, 0),
{
    let s = seq!['\x1b', '['] + body + seq![letter] + rest;
    let k = body.len() as int + 2;
    assert(s[0] == '\x1b' && s[1] == '[' && s[k] == letter);
    assert forall|j: int| 1 <= j < k implies !is_alpha(#[trigger] s[j]) by {
        if j >= 2 {
            assert(s[j] == body[j - 2]);
        }
    }
    lemma_letter_end(s, 1, k);
    lemma_plain_shift(s, k + 1, k + 1);
    assert(s.skip(k + 1) =~= rest);
}

/// The effective user is the second number behind `Uid:`.
pub proof fn law_the_effective_user(s: Seq<char>, i: int, n: u32)
    requires
        0 <= i < lines(s).len(),
        starts(lines(s)[i], "Uid:"@),
        forall|j: int| 0 <= j < i ==> !starts(#[trigger] lines(s)[j], "Uid:"@),
        words(lines(s)[i]).len() > 2,
        words(lines(s)[i])[2] == digits(n as nat),
    ensures
        euid_in(Some(s)) == n,
        euid_in(None) == u32::MAX,
{
    lemma_first_of_lines(lines(s), "Uid:"@, i);
    law_digits_read_back(n as nat, u32::MAX as nat);
}

proof fn lemma_first_of_lines(list: Seq<Seq<char>>, prefix: Seq<char>, i: int)
    requires
        0 <= i < list.len(),
        starts(list[i], prefix),
        forall|j: int| 0 <= j < i ==> !starts(#[trigger] list[j], prefix),
    ensures
        first_starting(list, prefix) == Some(list[i]),
    decreases list.len(),
{
    if i > 0 {
        assert(!starts(list[0], prefix));
        let rest = list.skip(1);
        assert(rest[i - 1] == list[i]);
        assert forall|j: int| 0 <= j < i - 1 implies !starts(#[trigger] rest[j], prefix) by {
            assert(rest[j] == list[j + 1]);
        }
        lemma_first_of_lines(rest, prefix, i - 1);
    }
}

/// The home folder is that of the user who ran sudo, where there is one; else the
/// program's own, and without one root's.
pub proof fn law_whose_home_it_is(user: Seq<char>, passwd: Seq<char>, own: Seq<u8>, h: Seq<char>)
    ensures
        home_in_passwd(lines(passwd), user) == Some(h) ==> real_home(true, Some(user), Some(passwd), Some(own)) == encode_utf8(h),
        home_in_passwd(lines(passwd), user) is None ==> real_home(true, Some(user), Some(passwd), Some(own)) == own,
        real_home(false, Some(user), Some(passwd), Some(own)) == own,
        real_home(true, None, Some(passwd), Some(own)) == own,
        real_home(true, Some(user), None, Some(own)) == own,
        real_home(false, None, None, None) == encode_utf8("/root"@),
{
}

/// A user's home is the sixth field of the first line that names the user.
pub proof fn law_homes_are_the_sixth_field(list: Seq<Seq<char>>, i: int, user: Seq<char>)
    requires
        0 <= i < list.len(),
        split(list[i], ':').len() >= 6,
        split(list[i], ':')[0] == user,
        forall|j: int| 0 <= j < i ==> split(#[trigger] list[j], ':')[0] != user,
    ensures
        home_in_passwd(list, user) == Some(split(list[i], ':')[5]),
    decreases list.len(),
{
    if i > 0 {
        assert(split(list[0], ':')[0] != user);
        let rest = list.skip(1);
        assert(rest[i - 1] == list[i]);
        assert forall|j: int| 0 <= j < i - 1 implies split(#[trigger] rest[j], ':')[0] != user by {
            assert(rest[j] == list[j + 1]);
        }
        law_homes_are_the_sixth_field(rest, i - 1, user);
    }
}

proof fn lemma_number_end(s: Seq<char>, i: int, k: int)
    requires
        0 <= i <= k <= s.len(),
        forall|j: int| i <= j < k ==> is_digit(#[trigger] s[j]),
        k < s.len() ==> !is_digit(s[k]) && s[k] != '.',
    ensures
        number_end(s, i) == k,
    decreases k - i,
{
    if i < k {
        assert(is_digit(s[i]));
        lemma_number_end(s, i + 1, k);
    }
}

/// A size is a number and a unit: without one bytes, and with K, M, G or T (in
/// either case) so many times 1024. Up to 2^53 it is read exactly.
pub proof fn law_sizes_are_read_in_powers_of_1024(n: nat, unit: Seq<char>, power: nat)
    requires
        unit == Seq::<char>::empty() && power == 1 || (unit == seq!['K'] || unit == seq!['k']) && power == 1024 || (unit == seq!['M'] || unit
            == seq!['m']) && power == 1048576 || (unit == seq!['G'] || unit == seq!['g']) && power == 1073741824 || (unit == seq!['T'] || unit
            == seq!['t']) && power == 1099511627776,
        n * power < 9007199254740992,
    ensures
        size_in(digits(n) + unit) == Ok::<u64, Seq<char>>((n * power) as u64),
{
    let d = digits(n);
    let s = d + unit;
    lemma_digits(n);
    assert(is_digit(d[0]) && is_digit(d[d.len() - 1]));
    law_ascii_white_space(d[0]);
    law_ascii_white_space(d.last());
    assert(s[0] == d[0]);
    if unit.len() > 0 {
        law_ascii_white_space(unit[0]);
        assert(s.last() == unit[0]);
    } else {
        assert(s =~= d);
    }
    law_trim_takes_the_white_space_off(Seq::empty(), s, Seq::empty());
    assert(Seq::<char>::empty() + s + Seq::<char>::empty() =~= s);
    let k = d.len() as int;
    assert forall|j: int| 0 <= j < k implies is_digit(#[trigger] s[j]) by {
        assert(s[j] == d[j]);
    }
    if unit.len() > 0 {
        assert(s[k] == unit[0]);
        lemma_digit_char(unit[0]);
    }
    lemma_number_end(s, 0, k);
    assert(s.take(k) =~= d);
    assert(s.skip(k) =~= unit);
    lemma_whole_number(n);
    lemma_unit(unit);
    lemma_powers();
    let x = n * power;
    lemma_exact(x);
}

proof fn lemma_whole_number(n: nat)
    ensures
        fraction(digits(n)) == Some((n, 1nat)),
{
    let d = digits(n);
    lemma_digits(n);
    lemma_index_from(d, '.', 0);
    let at = index_from(d, '.', 0);
    if at < d.len() {
        assert(is_digit(d[at]));
    }
    assert(d.take(at) =~= d);
    let none = Seq::<char>::empty();
    assert(all_digits(none));
    assert(value(none) == 0);
    assert(pow10(0) == 1);
    assert(n * 1 + 0 == n);
}

proof fn lemma_unit(unit: Seq<char>)
    requires
        unit.len() == 0 || unit.len() == 1,
    ensures
        unit.len() == 0 ==> unit_power(unit) == Some(0nat),
        unit == seq!['K'] || unit == seq!['k'] ==> unit_power(unit) == Some(10nat),
        unit == seq!['M'] || unit == seq!['m'] ==> unit_power(unit) == Some(20nat),
        unit == seq!['G'] || unit == seq!['g'] ==> unit_power(unit) == Some(30nat),
        unit == seq!['T'] || unit == seq!['t'] ==> unit_power(unit) == Some(40nat),
{
    if unit.len() == 1 && (is_alpha(unit[0])) {
        let none = Seq::<char>::empty();
        lemma_letters_are_no_space(unit[0]);
        law_trim_takes_the_white_space_off(none, unit, none);
        assert(none + unit + none =~= unit);
    } else if unit.len() == 0 {
        assert(trim(unit).len() == 0) by {
            lemma_trim_none(unit);
        }
    }
    let u = uppercase(trim(unit));
    if unit == seq!['K'] || unit == seq!['k'] {
        assert(u =~= seq!['K']);
    }
    if unit == seq!['M'] || unit == seq!['m'] {
        assert(u =~= seq!['M']);
    }
    if unit == seq!['G'] || unit == seq!['g'] {
        assert(u =~= seq!['G']);
    }
    if unit == seq!['T'] || unit == seq!['t'] {
        assert(u =~= seq!['T']);
    }
}

proof fn lemma_letters_are_no_space(c: char)
    requires
        is_alpha(c),
    ensures
        !is_space(c),
{
    law_ascii_white_space(c);
}

proof fn lemma_trim_none(s: Seq<char>)
    requires
        s.len() == 0,
    ensures
        trim(s).len() == 0,
{
}

proof fn lemma_powers()
    ensures
        twice(0) == 1,
        twice(10) == 1024,
        twice(20) == 1048576,
        twice(30) == 1073741824,
        twice(40) == 1099511627776,
{
    reveal_with_fuel(twice, 11);
    assert(twice(10) == 1024);
    assert(twice(20) == 1024 * twice(10));
    assert(twice(30) == 1024 * twice(20));
    assert(twice(40) == 1024 * twice(30));
}

proof fn lemma_exact(x: nat)
    requires
        x < 9007199254740992,
    ensures
        nearest(x, 1) == x,
{
    lemma_finer(x, 1);
    let u = finer(x, 1);
    assert(x / 1 == x);
    assert((x * u) / 1 == x * u && (x * u) % 1 == 0);
    assert((x * u) / u == x) by (nonlinear_arith)
        requires
            u > 0,
    ;
}

proof fn lemma_finer(q: nat, u: nat)
    requires
        u > 0,
    ensures
        finer(q, u) > 0,
    decreases 2 * P53 - u,
{
    if u < P53 && 2 * (q * u) < P53 {
        lemma_finer(q, 2 * u);
    }
}

/// The kernel that runs is what the system says, without the line end.
pub proof fn law_the_running_kernel(text: &str, r: String, none: String)
    requires
        call_ensures(running_kernel, (Some(text),), r),
        call_ensures(running_kernel, (None::<&str>,), none),
    ensures
        r@ == trim(text@),
        none@.len() == 0,
{
}

/// Root is the user with the number zero.
pub proof fn law_root_is_user_zero(text: &str, r: bool)
    requires
        call_ensures(is_root, (Some(text),), r),
    ensures
        r <==> euid_in(Some(text@)) == 0,
{
}

/// A fraction that comes to a whole number of bytes is read as that number.
pub proof fn law_whole_quotients_are_exact(n: nat, d: nat, q: nat)
    requires
        d > 0,
        n == q * d,
        q < 9007199254740992,
    ensures
        nearest(n, d) == q,
{
    lemma_finer(q, 1);
    let u = finer(q, 1);
    assert(n / d == q) by (nonlinear_arith)
        requires
            d > 0,
            n == q * d,
    ;
    assert((n * u) / d == q * u && (n * u) % d == 0) by (nonlinear_arith)
        requires
            d > 0,
            n == q * d,
    {
        assert(n * u == (q * u) * d);
    }
    assert((q * u) / u == q) by (nonlinear_arith)
        requires
            u > 0,
    ;
}

} // verus!
