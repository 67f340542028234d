//! The per-screenshot metadata sidecar: its text, and the in-place extension
//! of its `interval_seconds` when the screen has not changed.

use vstd::prelude::*;
use crate::text::{
    chars_of, dec, digit_char, is_digit, is_ws, lemma_dec_digits, lemma_parse_dec, lemma_trim_dec, parse_u64,
    parse_u64_in, push_char, push_chars, push_dec, push_str, skip_ws, skip_ws_back, trim, trim_end, trim_start,
};

verus! {

/// Why the interval of a sidecar could not be extended.
#[derive(Debug, PartialEq, Eq, Structural)]
pub enum BumpError {
    /// An `interval_seconds` line without `=` after the key.
    Malformed,
    /// An `interval_seconds` line whose value is not a `u64`.
    BadNumber,
    /// No `interval_seconds` line at all.
    NotFound,
}

/// The lines of `s` as `str::lines` yields them, with `cur` the text of the
/// line begun so far: split at `\n`, a `\r` right before the `\n` dropped,
/// and no empty last line after a final `\n`.
pub open spec fn lines_from(s: Seq<char>, cur: Seq<char>) -> Seq<Seq<char>>
    decreases s.len(),
{
    if s.len() == 0 {
        if cur.len() == 0 {
            seq![]
        } else {
            seq![cur]
        }
    } else if s[0] == '\n' {
        seq![strip_cr(cur)] + lines_from(s.drop_first(), seq![])
    } else {
        lines_from(s.drop_first(), cur.push(s[0]))
    }
}

pub open spec fn strip_cr(s: Seq<char>) -> Seq<char> {
    if s.len() > 0 && s.last() == '\r' {
        s.drop_last()
    } else {
        s
    }
}

pub open spec fn lines(s: Seq<char>) -> Seq<Seq<char>> {
    lines_from(s, seq![])
}

/// The lines joined with `\n` in between (`[..].join("\n")`).
pub open spec fn join_lines(ls: Seq<Seq<char>>) -> Seq<char>
    decreases ls.len(),
{
    if ls.len() == 0 {
        seq![]
    } else if ls.len() == 1 {
        ls[0]
    } else {
        join_lines(ls.drop_last()) + seq!['\n'] + ls.last()
    }
}

pub open spec fn interval_key() -> Seq<char> {
    seq!['i', 'n', 't', 'e', 'r', 'v', 'a', 'l', '_', 's', 'e', 'c', 'o', 'n', 'd', 's']
}

/// `interval_seconds = <v>`.
pub open spec fn interval_line(v: nat) -> Seq<char> {
    interval_key() + seq![' ', '=', ' '] + dec(v)
}

/// What a line says of the interval: nothing (`None`) when it does not start
/// with `interval_seconds`; otherwise the value after `=`, or why there is none.
pub open spec fn line_interval(line: Seq<char>) -> Option<Result<u64, BumpError>> {
    if line.len() >= 16 && line.take(16) == interval_key() {
        let t = trim_start(line.skip(16));
        if t.len() > 0 && t[0] == '=' {
            match parse_u64(trim(t.skip(1))) {
                Some(v) => Some(Ok(v)),
                None => Some(Err(BumpError::BadNumber)),
            }
        } else {
            Some(Err(BumpError::Malformed))
        }
    } else {
        None
    }
}

/// The outcome of rewriting the lines front to back.
pub enum BumpSpec {
    /// `cur + add` overflowed on an interval line before any error.
    Overflow,
    Failed(BumpError),
    /// The rewritten lines and the last new total, if any line held one.
    Done(Seq<Seq<char>>, Option<u64>),
}

/// Each interval line replaced by one holding its value plus `add`; the
/// first malformed line, or the first overflow, ends the rewrite.
pub open spec fn bump_lines(ls: Seq<Seq<char>>, add: u64) -> BumpSpec
    decreases ls.len(),
{
    if ls.len() == 0 {
        BumpSpec::Done(seq![], None)
    } else {
        match line_interval(ls[0]) {
            None => prepend_line(ls[0], None, bump_lines(ls.drop_first(), add)),
            Some(Err(e)) => BumpSpec::Failed(e),
            Some(Ok(v)) => if v + add > u64::MAX {
                BumpSpec::Overflow
            } else {
                prepend_line(
                    interval_line((v + add) as nat),
                    Some((v + add) as u64),
                    bump_lines(ls.drop_first(), add),
                )
            },
        }
    }
}

/// `r` with `line` put in front; the total of `r` wins over `t`.
pub open spec fn prepend_line(line: Seq<char>, t: Option<u64>, r: BumpSpec) -> BumpSpec {
    prepend_lines(seq![line], t, r)
}

pub open spec fn prepend_lines(front: Seq<Seq<char>>, t: Option<u64>, r: BumpSpec) -> BumpSpec {
    match r {
        BumpSpec::Done(out, t2) => BumpSpec::Done(front + out, if t2 is Some { t2 } else { t }),
        other => other,
    }
}

/// Whether extending the sidecar `raw` by `add` seconds would overflow `u64`.
pub open spec fn bump_overflows(raw: Seq<char>, add: u64) -> bool {
    bump_lines(lines(raw), add) is Overflow
}

/// The new text of the sidecar and the new total, or why there is none
/// (meaningful where `bump_overflows` does not hold).
pub open spec fn bumped(raw: Seq<char>, add: u64) -> Result<(Seq<char>, u64), BumpError> {
    match bump_lines(lines(raw), add) {
        BumpSpec::Done(out, Some(t)) => Ok((join_lines(out) + seq!['\n'], t)),
        BumpSpec::Done(_, None) => Err(BumpError::NotFound),
        BumpSpec::Failed(e) => Err(e),
        BumpSpec::Overflow => Err(BumpError::NotFound),
    }
}

/// The texts of a sequence of lines.
pub open spec fn views(v: Seq<Vec<char>>) -> Seq<Seq<char>> {
    v.map_values(|l: Vec<char>| l@)
}

/// The lines of `s` (`str::lines`).
pub fn split_lines(s: &Vec<char>) -> (r: Vec<Vec<char>>)
    ensures
        views(r@) == lines(s@),
{
    let mut out: Vec<Vec<char>> = Vec::new();
    let mut cur: Vec<char> = Vec::new();
    let mut i: usize = 0;
    assert(s@.skip(0) =~= s@);
    assert(views(out@) =~= Seq::<Seq<char>>::empty());
    while i < s.len()
        invariant
            i <= s.len(),
            lines(s@) == views(out@) + lines_from(s@.skip(i as int), cur@),
        decreases s.len() - i,
    {
        let ghost rest = s@.skip(i as int);
        assert(rest.drop_first() =~= s@.skip(i + 1));
        if s[i] == '\n' {
            let ghost old_out = views(out@);
            let ghost c0 = cur@;
            if cur.len() > 0 && cur[cur.len() - 1] == '\r' {
                cur.pop();
            }
            assert(cur@ =~= strip_cr(c0));
            out.push(cur);
            cur = Vec::new();
            assert(views(out@) =~= old_out.push(strip_cr(c0)));
            assert(lines_from(rest, c0) == seq![strip_cr(c0)] + lines_from(rest.drop_first(), seq![]));
            assert(lines(s@) =~= views(out@) + lines_from(s@.skip(i + 1), cur@));
        } else {
            cur.push(s[i]);
        }
        assert(lines(s@) =~= views(out@) + lines_from(s@.skip(i + 1), cur@));
        i = i + 1;
    }
    assert(s@.skip(i as int) =~= Seq::<char>::empty());
    if cur.len() > 0 {
        let ghost old_out = views(out@);
        out.push(cur);
        assert(views(out@) =~= old_out.push(cur@));
    }
    assert(lines(s@) =~= views(out@));
    out
}

fn key_chars() -> (k: Vec<char>)
    ensures
        k@ == interval_key(),
{
    let k = vec!['i', 'n', 't', 'e', 'r', 'v', 'a', 'l', '_', 's', 'e', 'c', 'o', 'n', 'd', 's'];
    assert(k@ =~= interval_key());
    k
}

/// Exec counterpart of `line_interval`.
pub fn line_interval_of(line: &Vec<char>) -> (r: Option<Result<u64, BumpError>>)
    ensures
        r == line_interval(line@),
{
    let key = key_chars();
    let n = line.len();
    if n < 16 {
        return None;
    }
    let mut i: usize = 0;
    while i < 16
        invariant
            i <= 16 <= n == line.len(),
            key@ == interval_key(),
            line@.take(i as int) == key@.take(i as int),
        decreases 16 - i,
    {
        if line[i] != key[i] {
            assert(line@.take(16)[i as int] != interval_key()[i as int]);
            return None;
        }
        assert(line@.take(i + 1) =~= line@.take(i as int).push(line[i as int]));
        assert(key@.take(i + 1) =~= key@.take(i as int).push(key[i as int]));
        i = i + 1;
    }
    assert(key@.take(16) =~= key@);
    assert(line@.skip(16) =~= line@.subrange(16, n as int));
    let k = skip_ws(line, 16, n);
    if k < n && line[k] == '=' {
        let a = skip_ws(line, k + 1, n);
        let b = skip_ws_back(line, a, n);
        proof {
            let t = trim_start(line@.skip(16));
            assert(t == line@.subrange(k as int, n as int));
            assert(t.skip(1) =~= line@.subrange(k + 1, n as int));
        }
        match parse_u64_in(line, a, b) {
            Some(v) => Some(Ok(v)),
            None => Some(Err(BumpError::BadNumber)),
        }
    } else {
        Some(Err(BumpError::Malformed))
    }
}

/// The rewritten lines keep the rest of the rewrite as it would come.
proof fn lemma_bump_step(ls: Seq<Seq<char>>, i: int, add: u64)
    requires
        0 <= i < ls.len(),
    ensures
        bump_lines(ls.skip(i), add) == (match line_interval(ls[i]) {
            None => prepend_line(ls[i], None, bump_lines(ls.skip(i + 1), add)),
            Some(Err(e)) => BumpSpec::Failed(e),
            Some(Ok(v)) => if v + add > u64::MAX {
                BumpSpec::Overflow
            } else {
                prepend_line(
                    interval_line((v + add) as nat),
                    Some((v + add) as u64),
                    bump_lines(ls.skip(i + 1), add),
                )
            },
        }),
{
    assert(ls.skip(i).drop_first() =~= ls.skip(i + 1));
    assert(ls.skip(i)[0] == ls[i]);
}

proof fn lemma_prepend_assoc(a: Seq<Seq<char>>, t: Option<u64>, x: Seq<char>, tx: Option<u64>, r: BumpSpec)
    requires
        tx is None || tx is Some,
    ensures
        prepend_lines(a, t, prepend_line(x, tx, r)) == prepend_lines(
            a.push(x),
            if tx is Some { tx } else { t },
            r,
        ),
{
    match r {
        BumpSpec::Done(out, t2) => {
            assert(a + (seq![x] + out) =~= a.push(x) + out);
        },
        _ => {},
    }
}

/// Appends `interval_seconds = <v>` to `out`.
fn push_interval_line(out: &mut Vec<Vec<char>>, v: u64)
    ensures
        views(final(out)@) == views(old(out)@).push(interval_line(v as nat)),
{
    let mut line = key_chars();
    line.push(' ');
    line.push('=');
    line.push(' ');
    let mut s = String::new();
    push_dec(&mut s, v);
    let digits = chars_of(s.as_str());
    let mut j: usize = 0;
    let ghost base = line@;
    while j < digits.len()
        invariant
            j <= digits.len(),
            digits@ == dec(v as nat),
            line@ == base + digits@.take(j as int),
        decreases digits.len() - j,
    {
        line.push(digits[j]);
        assert(digits@.take(j + 1) =~= digits@.take(j as int).push(digits[j as int]));
        j = j + 1;
    }
    assert(digits@.take(j as int) =~= digits@);
    assert(line@ =~= interval_line(v as nat));
    let ghost before = views(out@);
    out.push(line);
    assert(views(out@) =~= before.push(interval_line(v as nat)));
}

/// The lines joined by `\n`, with a final `\n`.
fn join_with_newlines(ls: &Vec<Vec<char>>) -> (r: String)
    ensures
        r@ == join_lines(views(ls@)) + seq!['\n'],
{
    let mut out = String::new();
    let mut j: usize = 0;
    while j < ls.len()
        invariant
            j <= ls.len(),
            out@ == join_lines(views(ls@).take(j as int)),
        decreases ls.len() - j,
    {
        let ghost vs = views(ls@);
        assert(vs.take(j + 1).drop_last() =~= vs.take(j as int));
        if j > 0 {
            push_char(&mut out, '\n');
        }
        push_chars(&mut out, &ls[j]);
        proof {
            if j == 0 {
                assert(out@ =~= vs.take(1)[0]);
            } else {
                assert(out@ =~= join_lines(vs.take(j as int)) + seq!['\n'] + vs.take(j + 1).last());
            }
        }
        j = j + 1;
    }
    assert(views(ls@).take(j as int) =~= views(ls@));
    push_char(&mut out, '\n');
    out
}

/// The text of a sidecar with every `interval_seconds` extended by `add`
/// seconds, and the new total of its last such line; `None` where the sum
/// overflows `u64` before any malformed line.
pub fn bump_sidecar_text(raw: &str, add: u64) -> (r: Option<Result<(String, u64), BumpError>>)
    ensures
        r is None <==> bump_overflows(raw@, add),
        match r {
            Some(Ok((text, total))) => bumped(raw@, add) == Ok::<(Seq<char>, u64), BumpError>(
                (text@, total),
            ),
            Some(Err(e)) => bumped(raw@, add) == Err::<(Seq<char>, u64), BumpError>(e),
            None => true,
        },
{
    let chars = chars_of(raw);
    let ls = split_lines(&chars);
    let ghost all = views(ls@);
    let mut out: Vec<Vec<char>> = Vec::new();
    let mut total: Option<u64> = None;
    let mut i: usize = 0;
    assert(all.skip(0) =~= all);
    assert(prepend_lines(views(out@), total, bump_lines(all, add)) == bump_lines(all, add)) by {
        assert(views(out@) =~= Seq::<Seq<char>>::empty());
        match bump_lines(all, add) {
            BumpSpec::Done(o, t) => {
                assert(Seq::<Seq<char>>::empty() + o =~= o);
            },
            _ => {},
        }
    }
    while i < ls.len()
        invariant
            i <= ls.len(),
            all == views(ls@),
            all == lines(raw@),
            bump_lines(all, add) == prepend_lines(views(out@), total, bump_lines(all.skip(i as int), add)),
        decreases ls.len() - i,
    {
        proof {
            lemma_bump_step(all, i as int, add);
        }
        let ghost before = views(out@);
        match line_interval_of(&ls[i]) {
            None => {
                let line = ls[i].clone();
                proof {
                    lemma_prepend_assoc(before, total, all[i as int], None, bump_lines(all.skip(i + 1), add));
                }
                out.push(line);
                assert(views(out@) =~= before.push(all[i as int]));
            },
            Some(Err(e)) => {
                return Some(Err(e));
            },
            Some(Ok(v)) => {
                if v > u64::MAX - add {
                    return None;
                }
                let t = v + add;
                proof {
                    lemma_prepend_assoc(
                        before,
                        total,
                        interval_line(t as nat),
                        Some(t),
                        bump_lines(all.skip(i + 1), add),
                    );
                }
                push_interval_line(&mut out, t);
                total = Some(t);
            },
        }
        i = i + 1;
    }
    assert(all.skip(i as int) =~= Seq::<Seq<char>>::empty());
    assert(views(out@) + Seq::<Seq<char>>::empty() =~= views(out@));
    match total {
        None => Some(Err(BumpError::NotFound)),
        Some(t) => Some(Ok((join_with_newlines(&out), t))),
    }
}

/// Uppercase hexadecimal digit of `d` (`0..16`).
pub open spec fn hex_char(d: int) -> char {
    if d < 10 {
        digit_char(d)
    } else {
        ((55 + d) as u32) as char
    }
}

/// `\uXXXX` with the four uppercase hex digits of `u`.
pub open spec fn unicode_escape(u: int) -> Seq<char> {
    seq![
        '\\',
        'u',
        hex_char((u / 4096) % 16),
        hex_char((u / 256) % 16),
        hex_char((u / 16) % 16),
        hex_char(u % 16),
    ]
}

/// How one character of a TOML basic string is written.
pub open spec fn escape_char(c: char) -> Seq<char> {
    if c == '"' {
        seq!['\\', '"']
    } else if c == '\\' {
        seq!['\\', '\\']
    } else if c == '\n' {
        seq!['\\', 'n']
    } else if c == '\r' {
        seq!['\\', 'r']
    } else if c == '\t' {
        seq!['\\', 't']
    } else if (c as u32) < 0x20 || (c as u32) == 0x7F {
        unicode_escape(c as u32 as int)
    } else {
        seq![c]
    }
}

/// `s` with each character written as `escape_char` does.
pub open spec fn toml_escaped(s: Seq<char>) -> Seq<char>
    decreases s.len(),
{
    if s.len() == 0 {
        seq![]
    } else {
        toml_escaped(s.drop_last()) + escape_char(s.last())
    }
}

fn hex_digit(d: u32) -> (c: char)
    requires
        d < 16,
    ensures
        c == hex_char(d as int),
{
    if d < 10 {
        let b: u8 = 48u8 + (d as u8);
        b as char
    } else {
        let b: u8 = 55u8 + (d as u8);
        b as char
    }
}

/// Minimal TOML-basic-string escape: backslash, double-quote and the
/// control characters that TOML basic strings must not hold raw.
pub fn toml_escape(s: &str) -> (r: String)
    ensures
        r@ == toml_escaped(s@),
{
    let cs = chars_of(s);
    let mut out = String::new();
    let mut i: usize = 0;
    while i < cs.len()
        invariant
            i <= cs.len(),
            cs@ == s@,
            out@ == toml_escaped(cs@.take(i as int)),
        decreases cs.len() - i,
    {
        let c = cs[i];
        let ghost before = out@;
        if c == '"' {
            push_char(&mut out, '\\');
            push_char(&mut out, '"');
        } else if c == '\\' {
            push_char(&mut out, '\\');
            push_char(&mut out, '\\');
        } else if c == '\n' {
            push_char(&mut out, '\\');
            push_char(&mut out, 'n');
        } else if c == '\r' {
            push_char(&mut out, '\\');
            push_char(&mut out, 'r');
        } else if c == '\t' {
            push_char(&mut out, '\\');
            push_char(&mut out, 't');
        } else if (c as u32) < 0x20 || (c as u32) == 0x7F {
            let u = c as u32;
            push_char(&mut out, '\\');
            push_char(&mut out, 'u');
            push_char(&mut out, hex_digit((u / 4096) % 16));
            push_char(&mut out, hex_digit((u / 256) % 16));
            push_char(&mut out, hex_digit((u / 16) % 16));
            push_char(&mut out, hex_digit(u % 16));
        } else {
            push_char(&mut out, c);
        }
        assert(cs@.take(i + 1).drop_last() =~= cs@.take(i as int));
        assert(out@ =~= before + escape_char(c));
        i = i + 1;
    }
    assert(cs@.take(i as int) =~= cs@);
    out
}

/// `key = "value"` and a newline.
pub open spec fn quoted_line(key: Seq<char>, value: Seq<char>) -> Seq<char> {
    key + seq![' ', '=', ' ', '"'] + value + seq!['"', '\n']
}

pub open spec fn optional_line(key: Seq<char>, value: Option<Seq<char>>) -> Seq<char> {
    match value {
        Some(v) => quoted_line(key, toml_escaped(v)),
        None => seq![],
    }
}

pub open spec fn key_captured_at() -> Seq<char> {
    seq!['c', 'a', 'p', 't', 'u', 'r', 'e', 'd', '_', 'a', 't']
}

pub open spec fn key_hostname() -> Seq<char> {
    seq!['h', 'o', 's', 't', 'n', 'a', 'm', 'e']
}

pub open spec fn key_window_title() -> Seq<char> {
    seq!['w', 'i', 'n', 'd', 'o', 'w', '_', 't', 'i', 't', 'l', 'e']
}

pub open spec fn key_window_class() -> Seq<char> {
    seq!['w', 'i', 'n', 'd', 'o', 'w', '_', 'c', 'l', 'a', 's', 's']
}

/// The sidecar of a screenshot: capture time as given, the interval in
/// effect, the hostname, and the active window's title and class when known.
pub open spec fn sidecar_body(
    captured_at: Seq<char>,
    interval_seconds: nat,
    hostname: Seq<char>,
    title: Option<Seq<char>>,
    class: Option<Seq<char>>,
) -> Seq<char> {
    quoted_line(key_captured_at(), captured_at) + interval_line(interval_seconds) + seq!['\n']
        + quoted_line(key_hostname(), toml_escaped(hostname)) + optional_line(
        key_window_title(),
        title,
    ) + optional_line(key_window_class(), class)
}

pub open spec fn opt_view(o: Option<&str>) -> Option<Seq<char>> {
    match o {
        Some(s) => Some(s@),
        None => None,
    }
}

fn push_quoted_line(out: &mut String, key: &str, value: &str)
    ensures
        final(out)@ == old(out)@ + quoted_line(key@, value@),
{
    let ghost before = out@;
    push_str(out, key);
    push_char(out, ' ');
    push_char(out, '=');
    push_char(out, ' ');
    push_char(out, '"');
    push_str(out, value);
    push_char(out, '"');
    push_char(out, '\n');
    assert(out@ =~= before + quoted_line(key@, value@));
}

/// The text of the sidecar written beside each screenshot.
pub fn sidecar_text(
    captured_at: &str,
    interval_seconds: u64,
    hostname: &str,
    title: Option<&str>,
    class: Option<&str>,
) -> (r: String)
    ensures
        r@ == sidecar_body(
            captured_at@,
            interval_seconds as nat,
            hostname@,
            opt_view(title),
            opt_view(class),
        ),
{
    proof {
        reveal_strlit("captured_at");
        reveal_strlit("interval_seconds");
        reveal_strlit("hostname");
        reveal_strlit("window_title");
        reveal_strlit("window_class");
    }
    let mut out = String::new();
    push_quoted_line(&mut out, "captured_at", captured_at);
    let ghost a = out@;
    push_str(&mut out, "interval_seconds");
    push_char(&mut out, ' ');
    push_char(&mut out, '=');
    push_char(&mut out, ' ');
    push_dec(&mut out, interval_seconds);
    push_char(&mut out, '\n');
    assert(out@ =~= a + interval_line(interval_seconds as nat) + seq!['\n']);
    let host = toml_escape(hostname);
    push_quoted_line(&mut out, "hostname", host.as_str());
    let ghost b = out@;
    match title {
        Some(t) => {
            let e = toml_escape(t);
            push_quoted_line(&mut out, "window_title", e.as_str());
        },
        None => {},
    }
    assert(out@ =~= b + optional_line(key_window_title(), opt_view(title)));
    let ghost c = out@;
    match class {
        Some(k) => {
            let e = toml_escape(k);
            push_quoted_line(&mut out, "window_class", e.as_str());
        },
        None => {},
    }
    assert(out@ =~= c + optional_line(key_window_class(), opt_view(class)));
    assert("captured_at"@ =~= key_captured_at());
    assert("hostname"@ =~= key_hostname());
    assert(out@ =~= sidecar_body(
        captured_at@,
        interval_seconds as nat,
        hostname@,
        opt_view(title),
        opt_view(class),
    ));
    out
}


/// Whether `s` holds no line break.
pub open spec fn no_newline(s: Seq<char>) -> bool {
    forall|i: int| 0 <= i < s.len() ==> s[i] != '\n'
}

/// Each line followed by `\n`.
pub open spec fn unlines(ls: Seq<Seq<char>>) -> Seq<char>
    decreases ls.len(),
{
    if ls.len() == 0 {
        seq![]
    } else {
        ls[0] + seq!['\n'] + unlines(ls.drop_first())
    }
}

/// A line that `str::lines` gives back as it is.
pub open spec fn plain_line(l: Seq<char>) -> bool {
    no_newline(l) && strip_cr(l) == l
}

proof fn lemma_lines_from_line(l: Seq<char>, rest: Seq<char>, cur: Seq<char>)
    requires
        no_newline(l),
    ensures
        lines_from(l + seq!['\n'] + rest, cur) == seq![strip_cr(cur + l)] + lines_from(rest, seq![]),
    decreases l.len(),
{
    let s = l + seq!['\n'] + rest;
    if l.len() == 0 {
        assert(s.drop_first() =~= rest);
        assert(cur + l =~= cur);
    } else {
        assert(s[0] == l[0]);
        assert(s.drop_first() =~= l.drop_first() + seq!['\n'] + rest);
        assert(cur.push(l[0]) + l.drop_first() =~= cur + l);
        lemma_lines_from_line(l.drop_first(), rest, cur.push(l[0]));
    }
}

proof fn lemma_lines_unlines(ls: Seq<Seq<char>>)
    requires
        forall|i: int| 0 <= i < ls.len() ==> #[trigger] plain_line(ls[i]),
    ensures
        lines(unlines(ls)) == ls,
    decreases ls.len(),
{
    if ls.len() > 0 {
        assert(plain_line(ls[0]));
        assert forall|i: int| 0 <= i < ls.drop_first().len() implies #[trigger] plain_line(
            ls.drop_first()[i],
        ) by {
            assert(plain_line(ls[i + 1]));
        }
        lemma_lines_unlines(ls.drop_first());
        lemma_lines_from_line(ls[0], unlines(ls.drop_first()), seq![]);
        assert(Seq::<char>::empty() + ls[0] =~= ls[0]);
        assert(seq![ls[0]] + ls.drop_first() =~= ls);
    }
}

proof fn lemma_unlines_push(ls: Seq<Seq<char>>, x: Seq<char>)
    ensures
        unlines(ls.push(x)) == unlines(ls) + x + seq!['\n'],
    decreases ls.len(),
{
    if ls.len() == 0 {
        assert(ls.push(x).drop_first() =~= Seq::<Seq<char>>::empty());
        assert(unlines(ls.push(x).drop_first()) =~= Seq::<char>::empty());
        assert(ls.push(x)[0] == x);
        assert(unlines(ls.push(x)) =~= x + seq!['\n']);
        assert(unlines(ls) + x + seq!['\n'] =~= x + seq!['\n']);
    } else {
        assert(ls.push(x).drop_first() =~= ls.drop_first().push(x));
        lemma_unlines_push(ls.drop_first(), x);
        assert(ls.push(x)[0] == ls[0]);
        assert(unlines(ls.push(x)) =~= unlines(ls) + x + seq!['\n']);
    }
}

proof fn lemma_join_unlines(ls: Seq<Seq<char>>)
    requires
        ls.len() >= 1,
    ensures
        join_lines(ls) + seq!['\n'] == unlines(ls),
    decreases ls.len(),
{
    if ls.len() == 1 {
        lemma_unlines_one(ls[0]);
        assert(seq![ls[0]] =~= ls);
    } else {
        lemma_join_unlines(ls.drop_last());
        lemma_unlines_push(ls.drop_last(), ls.last());
        assert(ls.drop_last().push(ls.last()) =~= ls);
        assert(join_lines(ls) + seq!['\n'] =~= join_lines(ls.drop_last()) + seq!['\n'] + ls.last()
            + seq!['\n']);
    }
}

proof fn lemma_escape_char_no_newline(c: char)
    ensures
        no_newline(escape_char(c)),
{
    let u = c as u32 as int;
    if !(c == '"' || c == '\\' || c == '\n' || c == '\r' || c == '\t') && ((c as u32) < 0x20 || (c as u32)
        == 0x7F) {
        let e = unicode_escape(u);
        assert forall|i: int| 0 <= i < e.len() implies e[i] != '\n' by {
            if i >= 2 {
                let d = if i == 2 {
                    (u / 4096) % 16
                } else if i == 3 {
                    (u / 256) % 16
                } else if i == 4 {
                    (u / 16) % 16
                } else {
                    u % 16
                };
                assert(e[i] == hex_char(d));
                assert(0 <= d < 16);
                if d < 10 {
                    assert(digit_char(d) as u32 == 48 + d);
                } else {
                    assert(hex_char(d) as u32 == 55 + d);
                }
            }
        }
    }
}

proof fn lemma_escaped_no_newline(s: Seq<char>)
    ensures
        no_newline(toml_escaped(s)),
    decreases s.len(),
{
    if s.len() > 0 {
        lemma_escaped_no_newline(s.drop_last());
        lemma_escape_char_no_newline(s.last());
        let a = toml_escaped(s.drop_last());
        let b = escape_char(s.last());
        assert forall|i: int| 0 <= i < (a + b).len() implies (a + b)[i] != '\n' by {
            if i >= a.len() {
                assert((a + b)[i] == b[i - a.len()]);
            }
        }
    }
}

/// `key = "value"` without its line break.
pub open spec fn quoted(key: Seq<char>, value: Seq<char>) -> Seq<char> {
    key + seq![' ', '=', ' ', '"'] + value + seq!['"']
}

proof fn lemma_quoted_plain(key: Seq<char>, value: Seq<char>)
    requires
        no_newline(key),
        no_newline(value),
        key.len() > 0,
        key[0] != 'i',
    ensures
        plain_line(quoted(key, value)),
        line_interval(quoted(key, value)) is None,
        quoted_line(key, value) == quoted(key, value) + seq!['\n'],
{
    let q = quoted(key, value);
    assert forall|i: int| 0 <= i < q.len() implies q[i] != '\n' by {
        if i < key.len() {
            assert(q[i] == key[i]);
        } else if key.len() + 4 <= i < key.len() + 4 + value.len() {
            assert(q[i] == value[i - key.len() - 4]);
        }
    }
    assert(q.last() == '"');
    if q.len() >= 16 {
        assert(q.take(16)[0] == key[0]);
        assert(q.take(16) != interval_key());
    }
    assert(quoted_line(key, value) =~= q + seq!['\n']);
}

proof fn lemma_interval_line_plain(v: u64)
    ensures
        plain_line(interval_line(v as nat)),
        line_interval(interval_line(v as nat)) == Some(Ok::<u64, BumpError>(v)),
{
    let d = dec(v as nat);
    let l = interval_line(v as nat);
    lemma_dec_digits(v as nat);
    lemma_trim_dec(v as nat);
    lemma_parse_dec(v);
    assert forall|i: int| 0 <= i < l.len() implies l[i] != '\n' by {
        if i >= 19 {
            assert(l[i] == d[i - 19]);
            assert(is_digit(d[i - 19]));
        }
    }
    assert(l.last() == d.last());
    assert(l.take(16) =~= interval_key());
    let after = l.skip(16);
    assert(after =~= seq![' ', '=', ' '] + d);
    assert(after.drop_first() =~= seq!['=', ' '] + d);
    assert(is_ws(after[0]));
    assert(!is_ws(after.drop_first()[0]));
    let t = trim_start(after);
    assert(trim_start(after.drop_first()) == after.drop_first());
    assert(t == after.drop_first());
    assert(t.skip(1) =~= seq![' '] + d);
    assert((seq![' '] + d).drop_first() =~= d);
    assert(is_ws((seq![' '] + d)[0]));
    assert(trim_start(t.skip(1)) == trim_start(d));
}

/// The lines of a sidecar, each without its line break.
pub open spec fn sidecar_lines(
    captured_at: Seq<char>,
    interval_seconds: nat,
    hostname: Seq<char>,
    title: Option<Seq<char>>,
    class: Option<Seq<char>>,
) -> Seq<Seq<char>> {
    seq![quoted(key_captured_at(), captured_at), interval_line(interval_seconds)] + sidecar_tail(
        hostname,
        title,
        class,
    )
}

proof fn lemma_unlines_append(a: Seq<Seq<char>>, b: Seq<Seq<char>>)
    ensures
        unlines(a + b) == unlines(a) + unlines(b),
    decreases b.len(),
{
    if b.len() == 0 {
        assert(a + b =~= a);
        assert(unlines(a) + unlines(b) =~= unlines(a));
    } else {
        lemma_unlines_append(a, b.drop_last());
        lemma_unlines_push(a + b.drop_last(), b.last());
        lemma_unlines_push(b.drop_last(), b.last());
        assert((a + b.drop_last()).push(b.last()) =~= a + b);
        assert(b.drop_last().push(b.last()) =~= b);
    }
}

proof fn lemma_bump_plain(ls: Seq<Seq<char>>, add: u64)
    requires
        forall|i: int| 0 <= i < ls.len() ==> line_interval(#[trigger] ls[i]) is None,
    ensures
        bump_lines(ls, add) == BumpSpec::Done(ls, None),
    decreases ls.len(),
{
    if ls.len() > 0 {
        assert(line_interval(ls[0]) is None);
        assert forall|i: int| 0 <= i < ls.drop_first().len() implies line_interval(
            #[trigger] ls.drop_first()[i],
        ) is None by {
            assert(line_interval(ls[i + 1]) is None);
        }
        lemma_bump_plain(ls.drop_first(), add);
        assert(bump_lines(ls, add) == prepend_line(ls[0], None, bump_lines(ls.drop_first(), add)));
        assert(seq![ls[0]] + ls.drop_first() =~= ls);
    } else {
        assert(ls =~= Seq::<Seq<char>>::empty());
    }
}

proof fn lemma_sidecar_lines(
    captured_at: Seq<char>,
    n: u64,
    hostname: Seq<char>,
    title: Option<Seq<char>>,
    class: Option<Seq<char>>,
)
    requires
        no_newline(captured_at),
    ensures
        forall|i: int|
            0 <= i < sidecar_lines(captured_at, n as nat, hostname, title, class).len()
                ==> #[trigger] plain_line(
                sidecar_lines(captured_at, n as nat, hostname, title, class)[i],
            ),
        forall|i: int|
            0 <= i < sidecar_tail(hostname, title, class).len() ==> line_interval(
                #[trigger] sidecar_tail(hostname, title, class)[i],
            ) is None,
        sidecar_body(captured_at, n as nat, hostname, title, class) == unlines(
            sidecar_lines(captured_at, n as nat, hostname, title, class),
        ),
{
    let ls = sidecar_lines(captured_at, n as nat, hostname, title, class);
    let head = quoted(key_captured_at(), captured_at);
    let tail = sidecar_tail(hostname, title, class);
    lemma_escaped_no_newline(hostname);
    lemma_quoted_plain(key_captured_at(), captured_at);
    lemma_quoted_plain(key_hostname(), toml_escaped(hostname));
    lemma_interval_line_plain(n);
    match title {
        Some(t) => {
            lemma_escaped_no_newline(t);
            lemma_quoted_plain(key_window_title(), toml_escaped(t));
        },
        None => {},
    }
    match class {
        Some(k) => {
            lemma_escaped_no_newline(k);
            lemma_quoted_plain(key_window_class(), toml_escaped(k));
        },
        None => {},
    }
    assert forall|i: int| 0 <= i < tail.len() implies line_interval(#[trigger] tail[i]) is None
        && plain_line(tail[i]) by {
        if i > 0 {
            match title {
                Some(t) => {
                    if i == 2 {
                        assert(class is Some);
                    }
                },
                None => {},
            }
        }
    }
    assert forall|i: int| 0 <= i < ls.len() implies #[trigger] plain_line(ls[i]) by {
        if i >= 2 {
            assert(ls[i] == tail[i - 2]);
        }
    }
    let front = seq![head, interval_line(n as nat)];
    lemma_unlines_append(front, tail);
    assert(front.drop_first() =~= seq![interval_line(n as nat)]);
    lemma_unlines_one(interval_line(n as nat));
    assert(unlines(front) =~= quoted_line(key_captured_at(), captured_at) + interval_line(n as nat)
        + seq!['\n']);
    lemma_tail_unlines(hostname, title, class);
    assert(sidecar_body(captured_at, n as nat, hostname, title, class) =~= unlines(ls));
}

/// Extending the interval of a sidecar as `sidecar_text` writes it gives the
/// sidecar of the same shot with the longer interval, and its new total; the
/// extension overflows exactly when the sum leaves `u64`. This holds for a
/// capture time without a line break (an RFC 3339 time has none).
pub proof fn lemma_bump_sidecar(
    captured_at: Seq<char>,
    interval_seconds: u64,
    hostname: Seq<char>,
    title: Option<Seq<char>>,
    class: Option<Seq<char>>,
    add: u64,
)
    requires
        no_newline(captured_at),
    ensures
        bump_overflows(
            sidecar_body(captured_at, interval_seconds as nat, hostname, title, class),
            add,
        ) <==> interval_seconds + add > u64::MAX,
        interval_seconds + add <= u64::MAX ==> bumped(
            sidecar_body(captured_at, interval_seconds as nat, hostname, title, class),
            add,
        ) == Ok::<(Seq<char>, u64), BumpError>(
            (
                sidecar_body(
                    captured_at,
                    (interval_seconds + add) as nat,
                    hostname,
                    title,
                    class,
                ),
                (interval_seconds + add) as u64,
            ),
        ),
{
    let n = interval_seconds;
    let ls = sidecar_lines(captured_at, n as nat, hostname, title, class);
    let head = quoted(key_captured_at(), captured_at);
    let tail = sidecar_tail(hostname, title, class);
    lemma_sidecar_lines(captured_at, n, hostname, title, class);
    lemma_quoted_plain(key_captured_at(), captured_at);
    lemma_interval_line_plain(n);
    lemma_lines_unlines(ls);
    lemma_bump_plain(tail, add);
    assert(ls.drop_first().drop_first() =~= tail);
    assert(ls[0] == head);
    assert(ls.drop_first()[0] == interval_line(n as nat));
    assert(bump_lines(ls, add) == prepend_line(head, None, bump_lines(ls.drop_first(), add)));
    if n + add <= u64::MAX {
        let m = (n + add) as u64;
        let ls2 = sidecar_lines(captured_at, m as nat, hostname, title, class);
        assert(ls2 =~= seq![head, interval_line(m as nat)] + tail);
        assert(bump_lines(ls.drop_first(), add) == BumpSpec::Done(
            seq![interval_line(m as nat)] + tail,
            Some(m),
        ));
        assert(seq![head] + (seq![interval_line(m as nat)] + tail) =~= ls2);
        assert(bump_lines(ls, add) == BumpSpec::Done(ls2, Some(m)));
        lemma_sidecar_lines(captured_at, m, hostname, title, class);
        lemma_join_unlines(ls2);
    } else {
        assert(bump_lines(ls.drop_first(), add) is Overflow);
    }
}

/// The hostname and window lines of a sidecar.
pub open spec fn sidecar_tail(hostname: Seq<char>, title: Option<Seq<char>>, class: Option<Seq<char>>) -> Seq<
    Seq<char>,
> {
    seq![quoted(key_hostname(), toml_escaped(hostname))] + match title {
        Some(t) => seq![quoted(key_window_title(), toml_escaped(t))],
        None => seq![],
    } + match class {
        Some(k) => seq![quoted(key_window_class(), toml_escaped(k))],
        None => seq![],
    }
}

proof fn lemma_tail_unlines(hostname: Seq<char>, title: Option<Seq<char>>, class: Option<Seq<char>>)
    ensures
        unlines(sidecar_tail(hostname, title, class)) == quoted_line(
            key_hostname(),
            toml_escaped(hostname),
        ) + optional_line(key_window_title(), title) + optional_line(key_window_class(), class),
{
    let h = seq![quoted(key_hostname(), toml_escaped(hostname))];
    let t: Seq<Seq<char>> = match title {
        Some(x) => seq![quoted(key_window_title(), toml_escaped(x))],
        None => seq![],
    };
    let k: Seq<Seq<char>> = match class {
        Some(x) => seq![quoted(key_window_class(), toml_escaped(x))],
        None => seq![],
    };
    lemma_unlines_append(h + t, k);
    lemma_unlines_append(h, t);
    lemma_unlines_one(quoted(key_hostname(), toml_escaped(hostname)));
    assert(quoted_line(key_hostname(), toml_escaped(hostname)) =~= quoted(
        key_hostname(),
        toml_escaped(hostname),
    ) + seq!['\n']);
    match title {
        Some(x) => {
            lemma_unlines_one(quoted(key_window_title(), toml_escaped(x)));
            assert(optional_line(key_window_title(), title) =~= quoted(
                key_window_title(),
                toml_escaped(x),
            ) + seq!['\n']);
        },
        None => {
            assert(unlines(t) =~= Seq::<char>::empty());
        },
    }
    match class {
        Some(x) => {
            lemma_unlines_one(quoted(key_window_class(), toml_escaped(x)));
            assert(optional_line(key_window_class(), class) =~= quoted(
                key_window_class(),
                toml_escaped(x),
            ) + seq!['\n']);
        },
        None => {
            assert(unlines(k) =~= Seq::<char>::empty());
        },
    }
    assert(unlines(sidecar_tail(hostname, title, class)) =~= quoted_line(
        key_hostname(),
        toml_escaped(hostname),
    ) + optional_line(key_window_title(), title) + optional_line(key_window_class(), class));
}

proof fn lemma_unlines_one(l: Seq<char>)
    ensures
        unlines(seq![l]) == l + seq!['\n'],
{
    assert(seq![l].drop_first() =~= Seq::<Seq<char>>::empty());
    assert(unlines(seq![l].drop_first()) =~= Seq::<char>::empty());
    assert(unlines(seq![l]) =~= l + seq!['\n']);
}


/// The value of a hexadecimal digit, either case.
pub open spec fn hex_value(c: char) -> Option<int> {
    let u = c as u32 as int;
    if 48 <= u <= 57 {
        Some(u - 48)
    } else if 65 <= u <= 70 {
        Some(u - 55)
    } else if 97 <= u <= 102 {
        Some(u - 87)
    } else {
        None
    }
}

/// The value of the hexadecimal digits `s`, if they all are such digits.
pub open spec fn hex_number(s: Seq<char>) -> Option<int>
    decreases s.len(),
{
    if s.len() == 0 {
        Some(0)
    } else {
        match (hex_number(s.drop_last()), hex_value(s.last())) {
            (Some(a), Some(b)) => Some(a * 16 + b),
            _ => None,
        }
    }
}

/// A control character that a TOML basic string must not hold unescaped.
pub open spec fn raw_forbidden(c: char) -> bool {
    let u = c as u32;
    u <= 0x08 || (0x0A <= u && u <= 0x1F) || u == 0x7F
}

/// Whether `v` is a Unicode scalar value.
pub open spec fn scalar(v: int) -> bool {
    (0 <= v && v < 0xD800) || (0xE000 <= v && v <= 0x10FFFF)
}

/// The character of a one-letter escape of TOML basic strings.
pub open spec fn short_escape(e: char) -> Option<char> {
    if e == '"' {
        Some('"')
    } else if e == '\\' {
        Some('\\')
    } else if e == 'n' {
        Some('\n')
    } else if e == 'r' {
        Some('\r')
    } else if e == 't' {
        Some('\t')
    } else if e == 'b' {
        Some(0x08u32 as char)
    } else if e == 'f' {
        Some(0x0Cu32 as char)
    } else {
        None
    }
}

pub open spec fn prepend_char(c: char, r: Option<Seq<char>>) -> Option<Seq<char>> {
    match r {
        Some(t) => Some(seq![c] + t),
        None => None,
    }
}

/// The text that the body `s` of a TOML basic string (between its quotes)
/// stands for, by TOML's rules: the escapes `\" \\ \n \r \t \b \f`,
/// `\uXXXX` and `\UXXXXXXXX` of a scalar value; `None` for an unknown or
/// cut escape, a raw quote, or a raw control character other than tab.
pub open spec fn toml_unescape(s: Seq<char>) -> Option<Seq<char>>
    decreases s.len(),
{
    if s.len() == 0 {
        Some(seq![])
    } else if s[0] == '\\' {
        if s.len() < 2 {
            None
        } else {
            match short_escape(s[1]) {
                Some(c) => prepend_char(c, toml_unescape(s.skip(2))),
                None => {
                    let n: int = if s[1] == 'u' {
                        4
                    } else if s[1] == 'U' {
                        8
                    } else {
                        0
                    };
                    if n > 0 && s.len() >= 2 + n {
                        match hex_number(s.subrange(2, 2 + n)) {
                            Some(v) => if scalar(v) {
                                prepend_char((v as u32) as char, toml_unescape(s.skip(2 + n)))
                            } else {
                                None
                            },
                            None => None,
                        }
                    } else {
                        None
                    }
                },
            }
        }
    } else if s[0] == '"' || raw_forbidden(s[0]) {
        None
    } else {
        prepend_char(s[0], toml_unescape(s.skip(1)))
    }
}

proof fn lemma_escaped_front(s: Seq<char>)
    requires
        s.len() > 0,
    ensures
        toml_escaped(s) == escape_char(s[0]) + toml_escaped(s.drop_first()),
    decreases s.len(),
{
    if s.len() == 1 {
        assert(s.drop_last() =~= Seq::<char>::empty());
        assert(s.drop_first() =~= Seq::<char>::empty());
        assert(toml_escaped(s.drop_first()) =~= Seq::<char>::empty());
        assert(toml_escaped(s) =~= escape_char(s[0]) + toml_escaped(s.drop_first()));
    } else {
        lemma_escaped_front(s.drop_last());
        assert(s.drop_last().drop_first() =~= s.drop_first().drop_last());
        assert(s.drop_first().last() == s.last());
        assert(s.drop_last()[0] == s[0]);
        assert(toml_escaped(s) =~= escape_char(s[0]) + toml_escaped(s.drop_first()));
    }
}

proof fn lemma_hex_char_value(d: int)
    requires
        0 <= d < 16,
    ensures
        hex_value(hex_char(d)) == Some(d),
{
    if d < 10 {
        assert(digit_char(d) as u32 == 48 + d);
    } else {
        assert(hex_char(d) as u32 == 55 + d);
    }
}

proof fn lemma_unescape_char(c: char, rest: Seq<char>)
    ensures
        toml_unescape(escape_char(c) + rest) == prepend_char(c, toml_unescape(rest)),
{
    let e = escape_char(c);
    let s = e + rest;
    if c == '"' || c == '\\' || c == '\n' || c == '\r' || c == '\t' {
        assert(s.skip(2) =~= rest);
        assert(s[0] == '\\');
    } else if (c as u32) < 0x20 || (c as u32) == 0x7F {
        let u = c as u32 as int;
        lemma_hex_char_value((u / 4096) % 16);
        lemma_hex_char_value((u / 256) % 16);
        lemma_hex_char_value((u / 16) % 16);
        lemma_hex_char_value(u % 16);
        let h = s.subrange(2, 6);
        assert(h =~= seq![hex_char((u / 4096) % 16), hex_char((u / 256) % 16), hex_char((u / 16) % 16), hex_char(u % 16)]);
        assert(h.drop_last().drop_last().drop_last().drop_last() =~= Seq::<char>::empty());
        assert(h.drop_last().drop_last().drop_last() =~= seq![hex_char((u / 4096) % 16)]);
        assert(h.drop_last().drop_last() =~= seq![hex_char((u / 4096) % 16), hex_char((u / 256) % 16)]);
        assert(h.drop_last() =~= seq![hex_char((u / 4096) % 16), hex_char((u / 256) % 16), hex_char((u / 16) % 16)]);
        assert((u / 4096) % 16 == 0 && (u / 256) % 16 == 0 && (u / 16) % 16 == u / 16);
        assert(hex_number(h.drop_last().drop_last().drop_last().drop_last()) == Some(0int));
        assert(hex_number(h.drop_last().drop_last().drop_last()) == Some(0int));
        assert(hex_number(h.drop_last().drop_last()) == Some(0int));
        assert(hex_number(h.drop_last()) == Some(u / 16));
        assert(hex_number(h) == Some(u));
        assert(s.skip(6) =~= rest);
        assert(s[0] == '\\' && s[1] == 'u');
        assert(short_escape('u') is None);
        assert(((u as u32) as char) == c);
    } else {
        assert(s.skip(1) =~= rest);
        assert(s[0] == c);
    }
}

/// Escaping is undone by TOML: the body that `toml_escape` writes reads back,
/// by the rules of TOML basic strings, as the text escaped, for every text.
pub proof fn lemma_toml_escape_round_trip(s: Seq<char>)
    ensures
        toml_unescape(toml_escaped(s)) == Some(s),
    decreases s.len(),
{
    if s.len() == 0 {
        assert(toml_escaped(s) =~= Seq::<char>::empty());
    } else {
        lemma_escaped_front(s);
        lemma_toml_escape_round_trip(s.drop_first());
        lemma_unescape_char(s[0], toml_escaped(s.drop_first()));
        assert(seq![s[0]] + s.drop_first() =~= s);
    }
}


/// Whether `s` holds no control character (below U+0020, or U+007F).
pub open spec fn no_control(s: Seq<char>) -> bool {
    forall|i: int| 0 <= i < s.len() ==> 0x20 <= (#[trigger] s[i] as u32) && (s[i] as u32) != 0x7F
}

proof fn lemma_escape_char_no_control(c: char)
    ensures
        no_control(escape_char(c)),
{
    let u = c as u32 as int;
    let e = escape_char(c);
    if !(c == '"' || c == '\\' || c == '\n' || c == '\r' || c == '\t') && ((c as u32) < 0x20 || (c as u32)
        == 0x7F) {
        assert forall|i: int| 0 <= i < e.len() implies 0x20 <= (#[trigger] e[i] as u32) && (e[i] as u32)
            != 0x7F by {
            if i >= 2 {
                let d = if i == 2 {
                    (u / 4096) % 16
                } else if i == 3 {
                    (u / 256) % 16
                } else if i == 4 {
                    (u / 16) % 16
                } else {
                    u % 16
                };
                assert(e[i] == hex_char(d));
                assert(0 <= d < 16);
                if d < 10 {
                    assert(digit_char(d) as u32 == 48 + d);
                } else {
                    assert(hex_char(d) as u32 == 55 + d);
                }
            }
        }
    }
}

/// The escaped text holds no control character: each one is written as an
/// escape, so the text may stand raw inside a TOML basic string.
pub proof fn lemma_escaped_no_control(s: Seq<char>)
    ensures
        no_control(toml_escaped(s)),
    decreases s.len(),
{
    if s.len() > 0 {
        lemma_escaped_no_control(s.drop_last());
        lemma_escape_char_no_control(s.last());
        let a = toml_escaped(s.drop_last());
        let b = escape_char(s.last());
        assert forall|i: int| 0 <= i < (a + b).len() implies 0x20 <= (#[trigger] (a + b)[i] as u32) && ((a
            + b)[i] as u32) != 0x7F by {
            if i >= a.len() {
                assert((a + b)[i] == b[i - a.len()]);
            } else {
                assert((a + b)[i] == a[i]);
            }
        }
    }
}

} // verus!
