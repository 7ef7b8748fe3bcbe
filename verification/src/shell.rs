//! What a POSIX shell on the remote host makes of the command line that a
//! remote scan sends over ssh: the words it splits it into.

use vstd::prelude::*;

use crate::cli::EngineType;
use crate::remote::{
    exclude_words, find_char, join_words, lemma_find_char_at, lemma_find_char_some,
    lemma_quote_body_append, lemma_quote_body_plain, quote_body, quote_char, remote_words,
    shell_quote_spec,
};
use crate::roundtrip::lemma_decimal;
use crate::text::{decimal, is_digit};

verus! {

/// A character a POSIX shell takes as itself outside quotes and that never
/// ends a word: ASCII letters, digits and `-`.
pub open spec fn sh_plain(c: char) -> bool {
    ('a' <= c && c <= 'z') || ('A' <= c && c <= 'Z') || ('0' <= c && c <= '9') || c == '-'
}

/// The word read so far (empty before its first character).
pub open spec fn so_far(cur: Option<Seq<char>>) -> Seq<char> {
    match cur {
        Some(w) => w,
        None => Seq::empty(),
    }
}

/// The words read, with the current one closed.
pub open spec fn closed(cur: Option<Seq<char>>, done: Seq<Seq<char>>) -> Seq<Seq<char>> {
    match cur {
        Some(w) => done.push(w),
        None => done,
    }
}

/// How a POSIX shell splits `s` into words, having read the words `done`
/// and, when `cur` is `Some`, part of the next one: spaces separate words,
/// single quotes keep what they enclose as it is, a backslash keeps the
/// character after it, and plain characters stand for themselves; `None`
/// for an unclosed quote or any other character outside quotes.
pub open spec fn sh_read(s: Seq<char>, cur: Option<Seq<char>>, done: Seq<Seq<char>>) -> Option<
    Seq<Seq<char>>,
>
    decreases s.len(),
{
    if s.len() == 0 {
        Some(closed(cur, done))
    } else if s[0] == ' ' {
        sh_read(s.drop_first(), None, closed(cur, done))
    } else if s[0] == '\'' {
        match find_char(s.drop_first(), '\'') {
            Some(i) => if 0 <= i < s.len() - 1 {
                sh_read(
                    s.drop_first().skip(i + 1),
                    Some(so_far(cur) + s.drop_first().take(i)),
                    done,
                )
            } else {
                None
            },
            None => None,
        }
    } else if s[0] == '\\' && s.len() >= 2 {
        sh_read(s.skip(2), Some(so_far(cur).push(s[1])), done)
    } else if sh_plain(s[0]) {
        sh_read(s.drop_first(), Some(so_far(cur).push(s[0])), done)
    } else {
        None
    }
}

/// `w` is how the word `r` is written: as itself when it is plain, or
/// single-quoted.
pub open spec fn written_as(w: Seq<char>, r: Seq<char>) -> bool {
    (w == r && r.len() > 0 && forall|j: int| 0 <= j < r.len() ==> sh_plain(#[trigger] r[j]))
        || w == shell_quote_spec(r)
}

/// Each of `ws` is how the matching word of `rs` is written.
pub open spec fn all_written(ws: Seq<Seq<char>>, rs: Seq<Seq<char>>) -> bool {
    ws.len() == rs.len() && forall|i: int| 0 <= i < ws.len() ==> written_as(#[trigger] ws[i], rs[i])
}

/// A plain word is read character by character into the current word.
proof fn lemma_read_plain(w: Seq<char>, rest: Seq<char>, cur: Option<Seq<char>>, done: Seq<Seq<char>>)
    requires
        w.len() > 0,
        forall|j: int| 0 <= j < w.len() ==> sh_plain(#[trigger] w[j]),
    ensures
        sh_read(w + rest, cur, done) == sh_read(rest, Some(so_far(cur) + w), done),
    decreases w.len(),
{
    let s = w + rest;
    let c = w[0];
    assert(sh_plain(c));
    assert(s[0] == c);
    assert(s.drop_first() =~= w.drop_first() + rest);
    let next = Some(so_far(cur).push(c));
    if w.len() == 1 {
        assert(w.drop_first() + rest =~= rest);
        assert(so_far(cur).push(c) =~= so_far(cur) + w);
    } else {
        let w1 = w.drop_first();
        assert forall|j: int| 0 <= j < w1.len() implies sh_plain(#[trigger] w1[j]) by {
            assert(w1[j] == w[j + 1]);
        }
        lemma_read_plain(w1, rest, next, done);
        assert(so_far(next) + w1 =~= so_far(cur) + w);
    }
}

/// A single-quoted word without quotes inside is read in one step.
proof fn lemma_read_quoted_plain(
    v: Seq<char>,
    rest: Seq<char>,
    cur: Option<Seq<char>>,
    done: Seq<Seq<char>>,
)
    requires
        forall|j: int| 0 <= j < v.len() ==> v[j] != '\'',
    ensures
        sh_read(shell_quote_spec(v) + rest, cur, done) == sh_read(
            rest,
            Some(so_far(cur) + v),
            done,
        ),
{
    let q = '\'';
    lemma_quote_body_plain(v);
    let s = shell_quote_spec(v) + rest;
    assert(s =~= seq![q] + v + seq![q] + rest);
    assert(s[0] == q);
    let t = s.drop_first();
    assert(t =~= v + seq![q] + rest);
    assert forall|j: int| 0 <= j < v.len() implies t[j] != q by {
        assert(t[j] == v[j]);
    }
    lemma_find_char_at(t, q, v.len() as int);
    assert(t.take(v.len() as int) =~= v);
    assert(t.skip(v.len() as int + 1) =~= rest);
}

/// How a single-quoted word that holds a quote is written: the part before
/// the quote, closed, an escaped quote, and the rest quoted again.
proof fn lemma_quote_split(v: Seq<char>, i: int)
    requires
        0 <= i < v.len(),
        v[i] == '\'',
        forall|j: int| 0 <= j < i ==> v[j] != '\'',
    ensures
        shell_quote_spec(v) == seq!['\''] + v.take(i) + seq!['\'', '\\', '\''] + shell_quote_spec(
            v.skip(i + 1),
        ),
{
    let q = '\'';
    let a = v.take(i);
    let b = v.skip(i + 1);
    assert(v =~= a + seq![q] + b);
    assert forall|j: int| 0 <= j < a.len() implies a[j] != q by {}
    lemma_quote_body_plain(a);
    lemma_quote_body_append(a + seq![q], b);
    lemma_quote_body_append(a, seq![q]);
    assert(seq![q].drop_last() =~= Seq::<char>::empty());
    assert(seq![q].last() == q);
    assert(quote_body(Seq::<char>::empty()) =~= Seq::<char>::empty());
    assert(quote_body(seq![q]) =~= quote_char(q));
    assert(shell_quote_spec(v) =~= seq![q] + a + seq![q, '\\', q] + shell_quote_spec(b));
}

/// A single-quoted word is read back as the text that was quoted.
#[verifier::rlimit(40)]
proof fn lemma_read_quoted(v: Seq<char>, rest: Seq<char>, cur: Option<Seq<char>>, done: Seq<Seq<char>>)
    ensures
        sh_read(shell_quote_spec(v) + rest, cur, done) == sh_read(
            rest,
            Some(so_far(cur) + v),
            done,
        ),
    decreases v.len(),
{
    let q = '\'';
    lemma_find_char_some(v, q);
    match find_char(v, q) {
        None => {
            lemma_read_quoted_plain(v, rest, cur, done);
        },
        Some(i) => {
            let a = v.take(i);
            let b = v.skip(i + 1);
            lemma_quote_split(v, i);
            let tail = seq!['\\', q] + shell_quote_spec(b) + rest;
            let s = shell_quote_spec(v) + rest;
            assert(s =~= seq![q] + a + seq![q] + tail);
            lemma_read_quoted_plain(a, tail, cur, done);
            assert(shell_quote_spec(a) =~= seq![q] + a + seq![q]) by {
                lemma_quote_body_plain(a);
            }
            assert(s =~= shell_quote_spec(a) + tail);
            let cur1 = Some(so_far(cur) + a);
            assert(tail[0] == '\\' && tail[1] == q && tail.len() >= 2);
            assert(tail.skip(2) =~= shell_quote_spec(b) + rest);
            let cur2 = Some(so_far(cur1).push(q));
            assert(sh_read(tail, cur1, done) == sh_read(shell_quote_spec(b) + rest, cur2, done));
            lemma_read_quoted(b, rest, cur2, done);
            assert(v =~= a + seq![q] + b);
            assert(so_far(cur2) + b =~= so_far(cur) + v);
        },
    }
}

/// Words joined with spaces, from the front.
proof fn lemma_join_front(ws: Seq<Seq<char>>)
    requires
        ws.len() >= 2,
    ensures
        join_words(ws) == ws[0] + seq![' '] + join_words(ws.drop_first()),
    decreases ws.len(),
{
    let init = ws.drop_last();
    let rest = ws.drop_first();
    assert(join_words(ws) == join_words(init) + seq![' '] + ws.last());
    if ws.len() > 2 {
        lemma_join_front(init);
        assert(init.drop_first() =~= rest.drop_last());
        assert(rest.last() == ws.last());
        assert(init[0] == ws[0]);
        assert(join_words(rest) == join_words(rest.drop_last()) + seq![' '] + rest.last());
        assert(join_words(ws) =~= ws[0] + seq![' '] + join_words(rest));
    } else {
        assert(init.len() == 1 && init[0] == ws[0]);
        assert(join_words(init) == ws[0]);
        assert(rest.len() == 1 && rest[0] == ws[1]);
        assert(join_words(rest) == ws[1]);
        assert(ws.last() == ws[1]);
    }
}

/// A shell reads words, written one after the other with a space between
/// them, back as the words they stand for.
pub proof fn lemma_read_words(ws: Seq<Seq<char>>, rs: Seq<Seq<char>>, done: Seq<Seq<char>>)
    requires
        all_written(ws, rs),
    ensures
        sh_read(join_words(ws), None, done) == Some(done + rs),
    decreases ws.len(),
{
    if ws.len() == 0 {
        assert(done + rs =~= done);
    } else {
        let w = ws[0];
        let r = rs[0];
        assert(written_as(w, r));
        let tail: Seq<char> = if ws.len() == 1 {
            Seq::empty()
        } else {
            seq![' '] + join_words(ws.drop_first())
        };
        if ws.len() == 1 {
            assert(join_words(ws) =~= w + tail);
        } else {
            lemma_join_front(ws);
            assert(join_words(ws) =~= w + tail);
        }
        if w == shell_quote_spec(r) {
            lemma_read_quoted(r, tail, None, done);
        } else {
            lemma_read_plain(w, tail, None, done);
        }
        assert(so_far(None) + r =~= r);
        if ws.len() == 1 {
            assert(done + rs =~= done.push(r));
        } else {
            let ws1 = ws.drop_first();
            let rs1 = rs.drop_first();
            assert forall|i: int| 0 <= i < ws1.len() implies written_as(#[trigger] ws1[i], rs1[i]) by {
                assert(ws1[i] == ws[i + 1] && rs1[i] == rs[i + 1]);
            }
            assert(tail[0] == ' ');
            assert(tail.drop_first() =~= join_words(ws1));
            lemma_read_words(ws1, rs1, done.push(r));
            assert(done.push(r) + rs1 =~= done + rs);
        }
    }
}

/// What each `--exclude` brings the remote program: the flag and the path.
pub open spec fn exclude_args(excludes: Seq<Seq<char>>) -> Seq<Seq<char>>
    decreases excludes.len(),
{
    if excludes.len() == 0 {
        Seq::empty()
    } else {
        exclude_args(excludes.drop_last()) + seq!["--exclude"@, excludes.last()]
    }
}

/// The arguments the remote program receives: `bfiles --serve -p` and the
/// path, `-t` and the number of groups, `-d` and the depth limit when there
/// is one, `-e rayon` for that engine, `--include-cloud` when set, and
/// `--exclude` with each excluded path, every path exactly as given.
pub open spec fn remote_args(
    path: Seq<char>,
    top_n: usize,
    max_depth: usize,
    engine: EngineType,
    include_cloud: bool,
    excludes: Seq<Seq<char>>,
) -> Seq<Seq<char>> {
    seq!["bfiles"@, "--serve"@, "-p"@, path, "-t"@, decimal(top_n as nat)] + (if max_depth
        != usize::MAX {
        seq!["-d"@, decimal(max_depth as nat)]
    } else {
        Seq::empty()
    }) + (if engine == EngineType::Rayon {
        seq!["-e"@, "rayon"@]
    } else {
        Seq::empty()
    }) + (if include_cloud {
        seq!["--include-cloud"@]
    } else {
        Seq::empty()
    }) + exclude_args(excludes)
}

/// Pairs written one after the other stay paired.
proof fn lemma_all_written_append(
    w1: Seq<Seq<char>>,
    r1: Seq<Seq<char>>,
    w2: Seq<Seq<char>>,
    r2: Seq<Seq<char>>,
)
    requires
        all_written(w1, r1),
        all_written(w2, r2),
    ensures
        all_written(w1 + w2, r1 + r2),
{
    assert forall|i: int| 0 <= i < (w1 + w2).len() implies written_as(
        #[trigger] (w1 + w2)[i],
        (r1 + r2)[i],
    ) by {
        if i < w1.len() {
            assert((w1 + w2)[i] == w1[i] && (r1 + r2)[i] == r1[i]);
        } else {
            assert((w1 + w2)[i] == w2[i - w1.len()] && (r1 + r2)[i] == r2[i - w1.len()]);
        }
    }
}

/// A word of plain characters is written as itself.
proof fn lemma_plain_word(w: Seq<char>)
    requires
        w.len() > 0,
        forall|j: int| 0 <= j < w.len() ==> sh_plain(#[trigger] w[j]),
    ensures
        all_written(seq![w], seq![w]),
{
    assert(written_as(seq![w][0], seq![w][0]));
}

/// A number is written as itself.
proof fn lemma_decimal_word(n: nat)
    ensures
        all_written(seq![decimal(n)], seq![decimal(n)]),
{
    lemma_decimal(n);
    let d = decimal(n);
    assert forall|j: int| 0 <= j < d.len() implies sh_plain(#[trigger] d[j]) by {
        assert(is_digit(d[j]));
    }
    lemma_plain_word(d);
}

/// The flags of the remote command are plain words.
proof fn lemma_flag_words()
    ensures
        all_written(seq!["bfiles"@], seq!["bfiles"@]),
        all_written(seq!["--serve"@], seq!["--serve"@]),
        all_written(seq!["-p"@], seq!["-p"@]),
        all_written(seq!["-t"@], seq!["-t"@]),
        all_written(seq!["-d"@], seq!["-d"@]),
        all_written(seq!["-e"@], seq!["-e"@]),
        all_written(seq!["rayon"@], seq!["rayon"@]),
        all_written(seq!["--include-cloud"@], seq!["--include-cloud"@]),
        all_written(seq!["--exclude"@], seq!["--exclude"@]),
{
    reveal_strlit("bfiles");
    reveal_strlit("--serve");
    reveal_strlit("-p");
    reveal_strlit("-t");
    reveal_strlit("-d");
    reveal_strlit("-e");
    reveal_strlit("rayon");
    reveal_strlit("--include-cloud");
    reveal_strlit("--exclude");
    lemma_plain_word("bfiles"@);
    lemma_plain_word("--serve"@);
    lemma_plain_word("-p"@);
    lemma_plain_word("-t"@);
    lemma_plain_word("-d"@);
    lemma_plain_word("-e"@);
    lemma_plain_word("rayon"@);
    lemma_plain_word("--include-cloud"@);
    lemma_plain_word("--exclude"@);
}

/// A quoted path is written as the quoted text.
proof fn lemma_quoted_word(v: Seq<char>)
    ensures
        all_written(seq![shell_quote_spec(v)], seq![v]),
{
    assert(written_as(seq![shell_quote_spec(v)][0], seq![v][0]));
}

/// The `--exclude` words are written forms of the excluded paths.
proof fn lemma_exclude_words(excludes: Seq<Seq<char>>)
    ensures
        all_written(exclude_words(excludes), exclude_args(excludes)),
    decreases excludes.len(),
{
    if excludes.len() > 0 {
        lemma_exclude_words(excludes.drop_last());
        lemma_flag_words();
        lemma_quoted_word(excludes.last());
        lemma_all_written_append(
            seq!["--exclude"@],
            seq!["--exclude"@],
            seq![shell_quote_spec(excludes.last())],
            seq![excludes.last()],
        );
        assert(seq!["--exclude"@] + seq![shell_quote_spec(excludes.last())] =~= seq![
            "--exclude"@,
            shell_quote_spec(excludes.last()),
        ]);
        assert(seq!["--exclude"@] + seq![excludes.last()] =~= seq![
            "--exclude"@,
            excludes.last(),
        ]);
        lemma_all_written_append(
            exclude_words(excludes.drop_last()),
            exclude_args(excludes.drop_last()),
            seq!["--exclude"@, shell_quote_spec(excludes.last())],
            seq!["--exclude"@, excludes.last()],
        );
    } else {
        assert(all_written(Seq::empty(), Seq::empty()));
    }
}

/// A POSIX shell on the remote host splits the remote command into exactly
/// the arguments that the scan asks for, the path and every excluded path
/// as given, whatever characters they hold.
pub proof fn lemma_remote_command_reads_back(
    path: Seq<char>,
    top_n: usize,
    max_depth: usize,
    engine: EngineType,
    include_cloud: bool,
    excludes: Seq<Seq<char>>,
)
    ensures
        sh_read(
            join_words(remote_words(path, top_n, max_depth, engine, include_cloud, excludes)),
            None,
            Seq::empty(),
        ) == Some(remote_args(path, top_n, max_depth, engine, include_cloud, excludes)),
{
    lemma_flag_words();
    lemma_quoted_word(path);
    lemma_decimal_word(top_n as nat);
    lemma_decimal_word(max_depth as nat);
    lemma_exclude_words(excludes);
    let ws0 = seq!["bfiles"@, "--serve"@, "-p"@, shell_quote_spec(path), "-t"@, decimal(top_n as nat)];
    let rs0 = seq!["bfiles"@, "--serve"@, "-p"@, path, "-t"@, decimal(top_n as nat)];
    assert(all_written(ws0, rs0)) by {
        assert forall|i: int| 0 <= i < ws0.len() implies written_as(#[trigger] ws0[i], rs0[i]) by {
            if i == 0 {
                assert(written_as(seq!["bfiles"@][0], seq!["bfiles"@][0]));
            } else if i == 1 {
                assert(written_as(seq!["--serve"@][0], seq!["--serve"@][0]));
            } else if i == 2 {
                assert(written_as(seq!["-p"@][0], seq!["-p"@][0]));
            } else if i == 3 {
                assert(written_as(seq![shell_quote_spec(path)][0], seq![path][0]));
            } else if i == 4 {
                assert(written_as(seq!["-t"@][0], seq!["-t"@][0]));
            } else {
                assert(written_as(seq![decimal(top_n as nat)][0], seq![decimal(top_n as nat)][0]));
            }
        }
    }
    let wd: Seq<Seq<char>> = if max_depth != usize::MAX {
        seq!["-d"@, decimal(max_depth as nat)]
    } else {
        Seq::empty()
    };
    assert(all_written(wd, wd)) by {
        if max_depth != usize::MAX {
            assert(written_as(seq!["-d"@][0], seq!["-d"@][0]));
            assert(written_as(
                seq![decimal(max_depth as nat)][0],
                seq![decimal(max_depth as nat)][0],
            ));
            assert forall|i: int| 0 <= i < wd.len() implies written_as(#[trigger] wd[i], wd[i]) by {
                if i == 0 {
                } else {
                }
            }
        }
    }
    let we: Seq<Seq<char>> = if engine == EngineType::Rayon {
        seq!["-e"@, "rayon"@]
    } else {
        Seq::empty()
    };
    assert(all_written(we, we)) by {
        if engine == EngineType::Rayon {
            assert(written_as(seq!["-e"@][0], seq!["-e"@][0]));
            assert(written_as(seq!["rayon"@][0], seq!["rayon"@][0]));
        }
    }
    let wc: Seq<Seq<char>> = if include_cloud {
        seq!["--include-cloud"@]
    } else {
        Seq::empty()
    };
    assert(all_written(wc, wc)) by {
        if include_cloud {
            assert(written_as(seq!["--include-cloud"@][0], seq!["--include-cloud"@][0]));
        }
    }
    lemma_all_written_append(ws0, rs0, wd, wd);
    lemma_all_written_append(ws0 + wd, rs0 + wd, we, we);
    lemma_all_written_append(ws0 + wd + we, rs0 + wd + we, wc, wc);
    lemma_all_written_append(
        ws0 + wd + we + wc,
        rs0 + wd + we + wc,
        exclude_words(excludes),
        exclude_args(excludes),
    );
    lemma_read_words(
        ws0 + wd + we + wc + exclude_words(excludes),
        rs0 + wd + we + wc + exclude_args(excludes),
        Seq::empty(),
    );
    assert(Seq::<Seq<char>>::empty() + (rs0 + wd + we + wc + exclude_args(excludes)) =~= rs0 + wd
        + we + wc + exclude_args(excludes));
}

} // verus!
