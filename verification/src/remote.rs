//! Remote scanning: `bfiles -p 'user@host:/path'` runs bfiles on the remote
//! machine over ssh and streams back a small summary. This module holds the
//! text side of that: recognizing remote paths, quoting for the remote
//! shell, building the remote command line, and the line protocol in both
//! directions.
//!
//! The remote side (`bfiles --serve`) emits:
//!
//! ```text
//! bfiles-serve 1
//! P <items>              repeated while scanning; drives the local spinner
//! D <items> <millis>     scan finished
//! W <unreadable-count>   only when directories could not be read
//! S <note>               skipped-directory notes, preformatted
//! T <total-bytes>
//! G <bytes> <label>      one per group, followed by its child rows
//! R <bytes> <relative-path>
//! OK
//! ```
//!
//! Labels have backslashes and newlines escaped so every record is one line.

use vstd::prelude::*;

use crate::layout::{byte_len, lemma_byte_len_at_least};
use crate::cli::{Config, EngineType};
use crate::text::{chars_of, decimal, extend_chars, push_decimal, string_of};

verus! {

/// First line the serving side prints.
pub const PROTOCOL_HEADER: &'static str = "bfiles-serve 1";

/// Where a remote scan goes: the ssh destination and the path there.
#[derive(Debug, PartialEq, Eq)]
pub struct RemoteTarget {
    pub destination: String,
    pub path: String,
}

/// Position of the first `c` in `s`.
pub open spec fn find_char(s: Seq<char>, c: char) -> Option<int>
    decreases s.len(),
{
    if s.len() == 0 {
        None
    } else if s[0] == c {
        Some(0)
    } else {
        match find_char(s.drop_first(), c) {
            Some(i) => Some(i + 1),
            None => None,
        }
    }
}

/// `str::split_once(c)`: the text before and after the first `c`.
pub open spec fn split_once(s: Seq<char>, c: char) -> Option<(Seq<char>, Seq<char>)> {
    match find_char(s, c) {
        Some(i) => Some((s.take(i), s.skip(i + 1))),
        None => None,
    }
}

/// Recognizes scp-style remote paths, `host:/path` or `user@host:/path`:
/// split at the first `:`, both sides non-empty, and the part before it
/// neither a single byte (a Windows drive letter like `C:`) nor holding a
/// `/` or `\`.
pub open spec fn remote_target_spec(raw: Seq<char>) -> Option<(Seq<char>, Seq<char>)> {
    match split_once(raw, ':') {
        Some((d, p)) => if d.len() == 0 || p.len() == 0 || byte_len(d) == 1 || d.contains('/')
            || d.contains('\\') {
            None
        } else {
            Some((d, p))
        },
        None => None,
    }
}

/// How one character is written in a protocol label.
pub open spec fn escape_char(c: char) -> Seq<char> {
    if c == '\\' {
        seq!['\\', '\\']
    } else if c == '\n' {
        seq!['\\', 'n']
    } else {
        seq![c]
    }
}

/// A label with backslashes doubled and newlines written as `\n`.
pub open spec fn escape_spec(s: Seq<char>) -> Seq<char>
    decreases s.len(),
{
    if s.len() == 0 {
        Seq::empty()
    } else {
        escape_spec(s.drop_last()) + escape_char(s.last())
    }
}

/// Reads a protocol label back: `\n` is a newline, `\` followed by any
/// other character is that character, and a lone trailing `\` stays.
pub open spec fn unescape_spec(s: Seq<char>) -> Seq<char>
    decreases s.len(),
{
    if s.len() == 0 {
        Seq::empty()
    } else if s[0] != '\\' {
        seq![s[0]] + unescape_spec(s.drop_first())
    } else if s.len() == 1 {
        seq!['\\']
    } else if s[1] == 'n' {
        seq!['\n'] + unescape_spec(s.skip(2))
    } else {
        seq![s[1]] + unescape_spec(s.skip(2))
    }
}

/// How one character is written inside single quotes for a POSIX shell.
pub open spec fn quote_char(c: char) -> Seq<char> {
    if c == '\'' {
        seq!['\'', '\\', '\'', '\'']
    } else {
        seq![c]
    }
}

/// The inside of a single-quoted shell word.
pub open spec fn quote_body(s: Seq<char>) -> Seq<char>
    decreases s.len(),
{
    if s.len() == 0 {
        Seq::empty()
    } else {
        quote_body(s.drop_last()) + quote_char(s.last())
    }
}

/// `value` as one single-quoted shell word.
pub open spec fn shell_quote_spec(s: Seq<char>) -> Seq<char> {
    seq!['\''] + quote_body(s) + seq!['\'']
}

/// Where the first `c` in `s` is.
pub fn find_char_exec(s: &[char], c: char) -> (r: Option<usize>)
    ensures
        match find_char(s@, c) {
            Some(i) => r == Some(i as usize),
            None => r is None,
        },
        r matches Some(i) ==> find_char(s@, c) == Some(i as int),
{
    let mut i: usize = 0;
    while i < s.len()
        invariant
            i <= s@.len(),
            forall|j: int| 0 <= j < i ==> s@[j] != c,
        decreases s@.len() - i,
    {
        if s[i] == c {
            proof {
                lemma_find_char_at(s@, c, i as int);
            }
            return Some(i);
        }
        i = i + 1;
    }
    proof {
        lemma_find_char_none(s@, c);
    }
    None
}

/// `find_char` finds the first occurrence.
pub proof fn lemma_find_char_at(s: Seq<char>, c: char, i: int)
    requires
        0 <= i < s.len(),
        s[i] == c,
        forall|j: int| 0 <= j < i ==> s[j] != c,
    ensures
        find_char(s, c) == Some(i),
    decreases i,
{
    if i > 0 {
        lemma_find_char_at(s.drop_first(), c, i - 1);
    }
}

/// `find_char` finds nothing where there is nothing.
pub proof fn lemma_find_char_none(s: Seq<char>, c: char)
    requires
        forall|j: int| 0 <= j < s.len() ==> s[j] != c,
    ensures
        find_char(s, c) is None,
    decreases s.len(),
{
    if s.len() > 0 {
        lemma_find_char_none(s.drop_first(), c);
    }
}

/// `find_char` gives a position holding `c` with no `c` before it.
pub proof fn lemma_find_char_some(s: Seq<char>, c: char)
    ensures
        match find_char(s, c) {
            Some(i) => 0 <= i < s.len() && s[i] == c && forall|j: int| 0 <= j < i ==> s[j] != c,
            None => forall|j: int| 0 <= j < s.len() ==> s[j] != c,
        },
    decreases s.len(),
{
    if s.len() > 0 && s[0] != c {
        lemma_find_char_some(s.drop_first(), c);
        match find_char(s.drop_first(), c) {
            Some(i) => {
                assert forall|j: int| 0 <= j < i + 1 implies s[j] != c by {
                    if j > 0 {
                        assert(s[j] == s.drop_first()[j - 1]);
                    }
                }
            },
            None => {
                assert forall|j: int| 0 <= j < s.len() implies s[j] != c by {
                    if j > 0 {
                        assert(s[j] == s.drop_first()[j - 1]);
                    }
                }
            },
        }
    }
}

/// Does `s` hold `c`?
fn contains_char(s: &[char], c: char) -> (r: bool)
    ensures
        r == s@.contains(c),
{
    let mut i: usize = 0;
    while i < s.len()
        invariant
            i <= s@.len(),
            forall|j: int| 0 <= j < i ==> s@[j] != c,
        decreases s@.len() - i,
    {
        if s[i] == c {
            return true;
        }
        i = i + 1;
    }
    false
}

/// Detects scp-style remote paths, `host:/path` or `user@host:/path`.
/// Anything with a slash before the colon is local, as are single-letter
/// prefixes (Windows drive letters like `C:\`).
pub fn parse_remote_path(raw: &str) -> (target: Option<RemoteTarget>)
    ensures
        match remote_target_spec(raw@) {
            Some((d, p)) => target matches Some(t) && t.destination@ == d && t.path@ == p,
            None => target is None,
        },
{
    let chars = chars_of(raw);
    proof {
        lemma_find_char_some(raw@, ':');
    }
    let colon = match find_char_exec(chars.as_slice(), ':') {
        Some(i) => i,
        None => {
            return None;
        },
    };
    let n = chars.len();
    assert(find_char(raw@, ':') == Some(colon as int));
    assert(colon < n);
    let dest_chars = vstd::slice::slice_subrange(chars.as_slice(), 0, colon);
    let path_chars = vstd::slice::slice_subrange(chars.as_slice(), colon + 1, chars.len());
    assert(dest_chars@ =~= raw@.take(colon as int));
    assert(path_chars@ =~= raw@.skip(colon + 1));
    if dest_chars.len() == 0 || path_chars.len() == 0 {
        return None;
    }
    proof {
        lemma_byte_len_one(dest_chars@);
    }
    let single_byte = dest_chars.len() == 1 && (dest_chars[0] as u32) < 128;
    if single_byte || contains_char(dest_chars, '/') || contains_char(
        dest_chars,
        '\\',
    ) {
        return None;
    }
    let mut dv: Vec<char> = Vec::new();
    extend_chars(&mut dv, dest_chars);
    let destination = string_of(&dv);
    assert(dv@ =~= dest_chars@);
    let mut pv: Vec<char> = Vec::new();
    extend_chars(&mut pv, path_chars);
    assert(pv@ =~= path_chars@);
    Some(RemoteTarget { destination, path: string_of(&pv) })
}

/// Every character takes at least one byte; exactly one for ASCII.
proof fn lemma_byte_len_one(s: Seq<char>)
    ensures
        byte_len(s) == 1 <==> (s.len() == 1 && (s[0] as u32) < 128),
{
    lemma_byte_len_at_least(s);
    if s.len() >= 1 {
        lemma_byte_len_at_least(s.drop_first());
        assert(vstd::utf8::encode_utf8(s) == vstd::utf8::encode_scalar(s[0] as u32)
            + vstd::utf8::encode_utf8(s.drop_first()));
    }
}

/// Escapes a label so that it fits on one protocol line.
pub fn escape(label: &str) -> (escaped: String)
    ensures
        escaped@ == escape_spec(label@),
{
    let chars = chars_of(label);
    string_of(&escape_chars(&chars))
}

/// `escape` on characters.
pub fn escape_chars(chars: &Vec<char>) -> (escaped: Vec<char>)
    ensures
        escaped@ == escape_spec(chars@),
{
    let mut out: Vec<char> = Vec::new();
    let mut i: usize = 0;
    while i < chars.len()
        invariant
            i <= chars@.len(),
            out@ == escape_spec(chars@.take(i as int)),
        decreases chars@.len() - i,
    {
        let c = chars[i];
        if c == '\\' {
            out.push('\\');
            out.push('\\');
        } else if c == '\n' {
            out.push('\\');
            out.push('n');
        } else {
            out.push(c);
        }
        i = i + 1;
        assert(chars@.take(i as int).drop_last() =~= chars@.take(i - 1));
        assert(out@ =~= escape_spec(chars@.take(i as int)));
    }
    assert(chars@.take(i as int) =~= chars@);
    out
}

/// Reads an escaped label back.
pub fn unescape(label: &str) -> (text: String)
    ensures
        text@ == unescape_spec(label@),
{
    let chars = chars_of(label);
    string_of(&unescape_chars(chars.as_slice()))
}

/// `unescape` on characters.
pub fn unescape_chars(chars: &[char]) -> (text: Vec<char>)
    ensures
        text@ == unescape_spec(chars@),
{
    let mut out: Vec<char> = Vec::new();
    let mut i: usize = 0;
    proof {
        assert(chars@.skip(0) =~= chars@);
    }
    while i < chars.len()
        invariant
            i <= chars@.len(),
            unescape_spec(chars@) == out@ + unescape_spec(chars@.skip(i as int)),
        decreases chars@.len() - i,
    {
        let c = chars[i];
        let ghost rest = chars@.skip(i as int);
        if c != '\\' {
            out.push(c);
            i = i + 1;
            assert(rest.drop_first() =~= chars@.skip(i as int));
        } else if i + 1 == chars.len() {
            out.push('\\');
            i = i + 1;
            assert(chars@.skip(i as int) =~= Seq::<char>::empty());
        } else {
            let next = chars[i + 1];
            if next == 'n' {
                out.push('\n');
            } else {
                out.push(next);
            }
            i = i + 2;
            assert(rest.skip(2) =~= chars@.skip(i as int));
        }
    }
    assert(chars@.skip(i as int) =~= Seq::<char>::empty());
    assert(out@ =~= unescape_spec(chars@));
    out
}

/// Quotes `value` as one word for a POSIX shell.
pub fn shell_quote(value: &str) -> (quoted: String)
    ensures
        quoted@ == shell_quote_spec(value@),
{
    let chars = chars_of(value);
    let mut body: Vec<char> = Vec::new();
    let mut i: usize = 0;
    while i < chars.len()
        invariant
            chars@ == value@,
            i <= chars@.len(),
            body@ == quote_body(chars@.take(i as int)),
        decreases chars@.len() - i,
    {
        let c = chars[i];
        if c == '\'' {
            body.push('\'');
            body.push('\\');
            body.push('\'');
            body.push('\'');
        } else {
            body.push(c);
        }
        i = i + 1;
        assert(chars@.take(i as int).drop_last() =~= chars@.take(i - 1));
        assert(body@ =~= quote_body(chars@.take(i as int)));
    }
    assert(chars@.take(i as int) =~= chars@);
    let mut out: Vec<char> = Vec::new();
    out.push('\'');
    extend_chars(&mut out, body.as_slice());
    out.push('\'');
    assert(out@ =~= shell_quote_spec(value@));
    string_of(&out)
}

/// Words joined with one space between them.
pub open spec fn join_words(words: Seq<Seq<char>>) -> Seq<char>
    decreases words.len(),
{
    if words.len() == 0 {
        Seq::empty()
    } else if words.len() == 1 {
        words[0]
    } else {
        join_words(words.drop_last()) + seq![' '] + words.last()
    }
}

/// `--exclude` and the quoted path, for each excluded directory.
pub open spec fn exclude_words(excludes: Seq<Seq<char>>) -> Seq<Seq<char>>
    decreases excludes.len(),
{
    if excludes.len() == 0 {
        Seq::empty()
    } else {
        exclude_words(excludes.drop_last()) + seq![
            "--exclude"@,
            shell_quote_spec(excludes.last()),
        ]
    }
}

/// The words of the command run on the remote host: `bfiles --serve`, the
/// quoted path and `-t`, then `-d` only with a depth limit, `-e rayon` only
/// for that engine, `--include-cloud` only when set, and each exclude.
pub open spec fn remote_words(
    path: Seq<char>,
    top_n: usize,
    max_depth: usize,
    engine: EngineType,
    include_cloud: bool,
    excludes: Seq<Seq<char>>,
) -> Seq<Seq<char>> {
    seq!["bfiles"@, "--serve"@, "-p"@, shell_quote_spec(path), "-t"@, decimal(top_n as nat)]
        + (if max_depth != usize::MAX {
        seq!["-d"@, decimal(max_depth as nat)]
    } else {
        Seq::empty()
    }) + (if engine == EngineType::Rayon {
        seq!["-e"@, "rayon"@]
    } else {
        Seq::empty()
    }) + (if include_cloud {
        seq!["--include-cloud"@]
    } else {
        Seq::empty()
    }) + exclude_words(excludes)
}

fn push_word(words: &mut Vec<Vec<char>>, word: Vec<char>)
    ensures
        final(words).deep_view() == old(words).deep_view().push(word@),
{
    let ghost w = word@;
    assert(word.deep_view() =~= w);
    words.push(word);
    assert(words.deep_view() =~= old(words).deep_view().push(w));
}

fn decimal_chars(n: u64) -> (v: Vec<char>)
    ensures
        v@ == decimal(n as nat),
{
    let mut v: Vec<char> = Vec::new();
    push_decimal(&mut v, n);
    assert(v@ =~= decimal(n as nat));
    v
}

/// The command line run on the remote host over ssh.
pub fn remote_command(target: &RemoteTarget, config: &Config) -> (command: String)
    ensures
        command@ == join_words(
            remote_words(
                target.path@,
                config.top_n,
                config.max_depth,
                config.engine,
                config.include_cloud,
                config.exclude@.map_values(|e: String| e@),
            ),
        ),
{
    let ghost ex = config.exclude@.map_values(|e: String| e@);
    let mut words: Vec<Vec<char>> = Vec::new();
    push_word(&mut words, chars_of("bfiles"));
    push_word(&mut words, chars_of("--serve"));
    push_word(&mut words, chars_of("-p"));
    push_word(&mut words, chars_of(shell_quote(target.path.as_str()).as_str()));
    push_word(&mut words, chars_of("-t"));
    push_word(&mut words, decimal_chars(config.top_n as u64));
    if config.max_depth != usize::MAX {
        push_word(&mut words, chars_of("-d"));
        push_word(&mut words, decimal_chars(config.max_depth as u64));
    }
    if let EngineType::Rayon = config.engine {
        push_word(&mut words, chars_of("-e"));
        push_word(&mut words, chars_of("rayon"));
    }
    if config.include_cloud {
        push_word(&mut words, chars_of("--include-cloud"));
    }
    let ghost head = words.deep_view();
    let mut i: usize = 0;
    while i < config.exclude.len()
        invariant
            ex == config.exclude@.map_values(|e: String| e@),
            i <= config.exclude@.len(),
            words.deep_view() == head + exclude_words(ex.take(i as int)),
        decreases config.exclude@.len() - i,
    {
        push_word(&mut words, chars_of("--exclude"));
        push_word(&mut words, chars_of(shell_quote(config.exclude[i].as_str()).as_str()));
        i = i + 1;
        assert(ex.take(i as int).drop_last() =~= ex.take(i - 1));
        assert(words.deep_view() =~= head + exclude_words(ex.take(i as int)));
    }
    assert(ex.take(i as int) =~= ex);
    assert(words.deep_view() =~= remote_words(
        target.path@,
        config.top_n,
        config.max_depth,
        config.engine,
        config.include_cloud,
        ex,
    ));
    let ghost wv = words.deep_view();
    let mut out: Vec<char> = Vec::new();
    let mut k: usize = 0;
    while k < words.len()
        invariant
            wv == words.deep_view(),
            k <= words@.len(),
            out@ == join_words(wv.take(k as int)),
        decreases words@.len() - k,
    {
        assert(wv[k as int] =~= words@[k as int]@);
        assert(wv.take(k + 1).drop_last() =~= wv.take(k as int));
        if k > 0 {
            out.push(' ');
        } else {
            assert(wv.take(0) =~= Seq::<Seq<char>>::empty());
        }
        extend_chars(&mut out, words[k].as_slice());
        k = k + 1;
    }
    assert(wv.take(k as int) =~= wv);
    string_of(&out)
}

/// Escaping distributes over concatenation.
pub proof fn lemma_escape_append(a: Seq<char>, b: Seq<char>)
    ensures
        escape_spec(a + b) == escape_spec(a) + escape_spec(b),
    decreases b.len(),
{
    if b.len() == 0 {
        assert(a + b =~= a);
        assert(escape_spec(a) + escape_spec(b) =~= escape_spec(a));
    } else {
        lemma_escape_append(a, b.drop_last());
        assert((a + b).drop_last() =~= a + b.drop_last());
        assert(escape_spec(a) + escape_spec(b) =~= escape_spec(a) + escape_spec(b.drop_last())
            + escape_char(b.last()));
    }
}

/// An escaped label holds no newline.
pub proof fn lemma_escape_no_newline(s: Seq<char>)
    ensures
        !escape_spec(s).contains('\n'),
    decreases s.len(),
{
    if s.len() > 0 {
        lemma_escape_no_newline(s.drop_last());
        let e = escape_spec(s);
        let p = escape_spec(s.drop_last());
        assert forall|j: int| 0 <= j < e.len() implies e[j] != '\n' by {
            if j >= p.len() {
                assert(e[j] == escape_char(s.last())[j - p.len()]);
            } else {
                assert(e[j] == p[j]);
            }
        }
    }
}

/// Reading an escaped label gives back the label.
pub proof fn lemma_unescape_escape(s: Seq<char>)
    ensures
        unescape_spec(escape_spec(s)) == s,
    decreases s.len(),
{
    if s.len() > 0 {
        let c = s[0];
        let rest = s.drop_first();
        lemma_unescape_escape(rest);
        assert(s =~= seq![c] + rest);
        lemma_escape_append(seq![c], rest);
        assert(seq![c].drop_last() =~= Seq::<char>::empty());
        assert(escape_spec(Seq::<char>::empty()) == Seq::<char>::empty());
        assert(seq![c].last() == c);
        assert(escape_spec(seq![c]) =~= escape_char(c));
        let e = escape_char(c) + escape_spec(rest);
        if c == '\\' || c == '\n' {
            assert(e.skip(2) =~= escape_spec(rest));
        } else {
            assert(e.drop_first() =~= escape_spec(rest));
        }
    }
}

/// What a POSIX shell reads from a word written only with single-quoted
/// parts (taken literally up to the closing quote) and backslash-escaped
/// characters; `None` for any other word (an unclosed quote, a lone
/// backslash, or a character outside quotes).
pub open spec fn sh_word(s: Seq<char>) -> Option<Seq<char>>
    decreases s.len(),
{
    if s.len() == 0 {
        Some(Seq::empty())
    } else if s[0] == '\'' {
        match find_char(s.drop_first(), '\'') {
            Some(i) => if 0 <= i < s.len() - 1 {
                match sh_word(s.drop_first().skip(i + 1)) {
                    Some(r) => Some(s.drop_first().take(i) + r),
                    None => None,
                }
            } else {
                None
            },
            None => None,
        }
    } else if s[0] == '\\' && s.len() >= 2 {
        match sh_word(s.skip(2)) {
            Some(r) => Some(seq![s[1]] + r),
            None => None,
        }
    } else {
        None
    }
}

/// Quoting text without single quotes leaves it as it is.
pub proof fn lemma_quote_body_plain(s: Seq<char>)
    requires
        forall|j: int| 0 <= j < s.len() ==> s[j] != '\'',
    ensures
        quote_body(s) == s,
    decreases s.len(),
{
    if s.len() > 0 {
        lemma_quote_body_plain(s.drop_last());
        assert(s.drop_last() + seq![s.last()] =~= s);
    }
}

/// Quoting works piece by piece.
pub proof fn lemma_quote_body_append(a: Seq<char>, b: Seq<char>)
    ensures
        quote_body(a + b) == quote_body(a) + quote_body(b),
    decreases b.len(),
{
    if b.len() == 0 {
        assert(a + b =~= a);
        assert(quote_body(a) + quote_body(b) =~= quote_body(a));
    } else {
        lemma_quote_body_append(a, b.drop_last());
        assert((a + b).drop_last() =~= a + b.drop_last());
        assert((a + b).last() == b.last());
        assert(quote_body(a) + quote_body(b) =~= quote_body(a) + quote_body(b.drop_last())
            + quote_char(b.last()));
    }
}

/// A POSIX shell reads the quoted word back as the text that was quoted: what
/// `shell_quote` puts on the remote command line reaches the remote
/// program unchanged.
pub proof fn lemma_shell_quote_reads_back(v: Seq<char>)
    ensures
        sh_word(shell_quote_spec(v)) == Some(v),
    decreases v.len(),
{
    let q = '\'';
    lemma_find_char_some(v, q);
    let w = shell_quote_spec(v);
    assert(w[0] == q);
    match find_char(v, q) {
        None => {
            lemma_quote_body_plain(v);
            let t = w.drop_first();
            assert(t =~= v + seq![q]);
            assert forall|j: int| 0 <= j < v.len() implies t[j] != q by {
                assert(t[j] == v[j]);
            }
            lemma_find_char_at(t, q, v.len() as int);
            assert(t.skip(v.len() as int + 1) =~= Seq::<char>::empty());
            assert(t.take(v.len() as int) =~= v);
            assert(sh_word(Seq::<char>::empty()) == Some(Seq::<char>::empty()));
            assert(v + Seq::<char>::empty() =~= v);
            assert(sh_word(w) == Some(t.take(v.len() as int) + Seq::<char>::empty()));
        },
        Some(i) => {
            let a = v.take(i);
            let b = v.skip(i + 1);
            assert(v =~= a + seq![q] + b);
            assert forall|j: int| 0 <= j < a.len() implies a[j] != q by {}
            lemma_quote_body_plain(a);
            lemma_quote_body_append(a + seq![q], b);
            lemma_quote_body_append(a, seq![q]);
            assert(seq![q].drop_last() =~= Seq::<char>::empty());
            assert(seq![q].last() == q);
            assert(quote_body(Seq::<char>::empty()) =~= Seq::<char>::empty());
            assert(quote_body(seq![q]) =~= quote_char(q));
            let tail = seq!['\\', q] + shell_quote_spec(b);
            assert(w =~= seq![q] + a + seq![q] + tail);
            let t = w.drop_first();
            assert(t =~= a + seq![q] + tail);
            assert forall|j: int| 0 <= j < a.len() implies t[j] != q by {
                assert(t[j] == a[j]);
            }
            lemma_find_char_at(t, q, a.len() as int);
            assert(t.take(a.len() as int) =~= a);
            assert(t.skip(a.len() as int + 1) =~= tail);
            lemma_shell_quote_reads_back(b);
            assert(tail.skip(2) =~= shell_quote_spec(b));
            assert(tail[0] == '\\' && tail[1] == q);
            assert(sh_word(tail) == Some(seq![q] + b));
            assert(sh_word(w) == Some(t.take(a.len() as int) + sh_word(tail).unwrap()));
            assert(a + (seq![q] + b) =~= v);
        },
    }
}

/// A signed number as `i32::to_string` writes it.
pub open spec fn signed_decimal(c: i32) -> Seq<char> {
    if c < 0 {
        seq!['-'] + decimal((-c) as nat)
    } else {
        decimal(c as nat)
    }
}

/// Why a remote scan that did not finish failed: where it ran, and how the
/// remote command ended (its exit code, or `killed` without one).
pub open spec fn unfinished_message(destination: Seq<char>, exit_code: Option<i32>) -> Seq<char> {
    "remote scan on '"@ + destination + "' ended before finishing (exit: "@ + match exit_code {
        Some(c) => signed_decimal(c),
        None => "killed"@,
    } + ")"@
}

/// What became of a remote scan once its command has exited: done when the
/// report was closed by `OK`, otherwise the error to show.
pub fn remote_outcome(destination: &str, complete: bool, exit_code: Option<i32>) -> (r: Result<
    (),
    String,
>)
    ensures
        complete ==> r == Ok::<(), String>(()),
        !complete ==> (r matches Err(m) && m@ == unfinished_message(destination@, exit_code)),
{
    if complete {
        return Ok(());
    }
    let mut v = chars_of("remote scan on '");
    extend_chars(&mut v, chars_of(destination).as_slice());
    extend_chars(&mut v, chars_of("' ended before finishing (exit: ").as_slice());
    let ghost before = v@;
    match exit_code {
        Some(c) => {
            if c < 0 {
                v.push('-');
                let magnitude: u64 = (0i64 - c as i64) as u64;
                push_decimal(&mut v, magnitude);
            } else {
                push_decimal(&mut v, c as u64);
            }
            assert(v@ =~= before + signed_decimal(c));
        },
        None => {
            extend_chars(&mut v, chars_of("killed").as_slice());
        },
    }
    extend_chars(&mut v, chars_of(")").as_slice());
    assert(v@ =~= unfinished_message(destination@, exit_code));
    Err(string_of(&v))
}

} // verus!
