//! What the client reads back of what the serving side wrote.

use vstd::prelude::*;

use crate::protocol::{
    apply_line, consume, empty_report, first_word, header_chars, lines_of, note_records,
    number_or_zero, read_lines_spec, record, record_label, record_size, report_lines, row_record,
    group_records, groups_records, second_word, strip_cr, tag_and_rest, terminated,
    lemma_terminated_append, ReportSpec, ServeLine,
};
use crate::remote::{
    escape_char, escape_spec, find_char, lemma_escape_no_newline, lemma_find_char_at,
    lemma_find_char_none, lemma_find_char_some, lemma_unescape_escape, split_once, unescape_spec,
};
use crate::summary::{GroupSpec, RowSpec, SummarySpec};
use crate::text::{
    decimal, digit_char, digits_value, is_digit, parse_u64_spec, strip_plus, utf8_lossy,
};

verus! {

/// Decimal notation is a non-empty string of digits worth its number.
pub proof fn lemma_decimal(n: nat)
    ensures
        decimal(n).len() >= 1,
        forall|i: int| 0 <= i < decimal(n).len() ==> is_digit(#[trigger] decimal(n)[i]),
        digits_value(decimal(n)) == n,
    decreases n,
{
    if n >= 10 {
        lemma_decimal(n / 10);
        let d = decimal(n);
        assert(d.drop_last() =~= decimal(n / 10));
        assert(d.last() == digit_char((n % 10) as int));
        assert((digit_char((n % 10) as int) as int) == 48 + n % 10);
        assert(digits_value(d) == digits_value(decimal(n / 10)) * 10 + (n % 10));
        assert((n / 10) * 10 + n % 10 == n);
    } else {
        let d = decimal(n);
        assert((digit_char(n as int) as int) == 48 + n);
        assert(d.drop_last() =~= Seq::<char>::empty());
        assert(digits_value(Seq::<char>::empty()) == 0);
        assert(digits_value(d) == digits_value(d.drop_last()) * 10 + ((d.last() as int) - 48));
    }
}

/// `u64::from_str` reads back what `u64::to_string` wrote.
pub proof fn lemma_parse_decimal(n: u64)
    ensures
        parse_u64_spec(decimal(n as nat)) == Some(n),
{
    lemma_decimal(n as nat);
    let d = decimal(n as nat);
    assert(is_digit(d[0]));
    assert(strip_plus(d) == d);
}

/// A decimal holds no space, newline or carriage return.
pub proof fn lemma_decimal_plain(n: nat)
    ensures
        !decimal(n).contains(' '),
        !decimal(n).contains('\n'),
        decimal(n).last() != '\r',
        decimal(n).len() >= 1,
{
    lemma_decimal(n);
    let d = decimal(n);
    assert forall|i: int| 0 <= i < d.len() implies d[i] != ' ' && d[i] != '\n' && d[i]
        != '\r' by {
        assert(is_digit(d[i]));
    }
}

/// Splitting at the first space of `a + " " + b` when `a` holds none.
pub proof fn lemma_split_first_space(a: Seq<char>, b: Seq<char>)
    requires
        !a.contains(' '),
    ensures
        split_once(a + seq![' '] + b, ' ') == Some((a, b)),
{
    let s = a + seq![' '] + b;
    assert forall|j: int| 0 <= j < a.len() implies s[j] != ' ' by {
        assert(s[j] == a[j]);
    }
    lemma_find_char_at(s, ' ', a.len() as int);
    assert(s.take(a.len() as int) =~= a);
    assert(s.skip(a.len() as int + 1) =~= b);
}

/// No space anywhere: no split.
pub proof fn lemma_split_no_space(a: Seq<char>)
    requires
        !a.contains(' '),
    ensures
        split_once(a, ' ') is None,
{
    assert forall|j: int| 0 <= j < a.len() implies a[j] != ' ' by {
        assert(a.contains(a[j]));
    }
    lemma_find_char_none(a, ' ');
}

/// The tag and the rest of a record.
pub proof fn lemma_record_parts(tag: Seq<char>, rest: Seq<char>)
    requires
        !tag.contains(' '),
    ensures
        tag_and_rest(record(tag, rest)) == (tag, rest),
{
    lemma_split_first_space(tag, rest);
}

/// Size and label of a `G`/`R` record body.
pub proof fn lemma_record_body(n: u64, label: Seq<char>)
    ensures
        record_size(decimal(n as nat) + seq![' '] + escape_spec(label)) == n,
        unescape_spec(record_label(decimal(n as nat) + seq![' '] + escape_spec(label))) == label,
{
    lemma_decimal_plain(n as nat);
    lemma_split_first_space(decimal(n as nat), escape_spec(label));
    lemma_parse_decimal(n);
    lemma_unescape_escape(label);
}

/// Items and duration of a `D` record body.
pub proof fn lemma_done_body(items: u64, ms: u64)
    ensures
        number_or_zero(first_word(decimal(items as nat) + seq![' '] + decimal(ms as nat))) == items,
        second_word(decimal(items as nat) + seq![' '] + decimal(ms as nat)) matches Some(w)
            && number_or_zero(w) == ms,
{
    lemma_decimal_plain(items as nat);
    lemma_decimal_plain(ms as nat);
    lemma_split_first_space(decimal(items as nat), decimal(ms as nat));
    lemma_split_no_space(decimal(ms as nat));
    lemma_parse_decimal(items);
    lemma_parse_decimal(ms);
}

/// A line that `lines_of` gives back unchanged: no newline, and no
/// carriage return at its end.
pub open spec fn plain_line(l: Seq<char>) -> bool {
    !l.contains('\n') && !(l.len() > 0 && l.last() == '\r')
}

/// Text that does not end in a carriage return.
pub open spec fn no_trailing_cr(s: Seq<char>) -> bool {
    !(s.len() > 0 && s.last() == '\r')
}

/// The `P` records of progress counts.
pub open spec fn progress_lines(ps: Seq<u64>) -> Seq<Seq<char>> {
    ps.map_values(|n: u64| record(seq!['P'], decimal(n as nat)))
}

/// A name or path whose shown text encodes back to its bytes (as valid
/// UTF-8 does) and does not end in a carriage return: it is read back as
/// it was sent, since the stream carries the shown text.
pub open spec fn label_survives(b: Seq<u8>) -> bool {
    vstd::utf8::encode_utf8(utf8_lossy(b)) == b && no_trailing_cr(utf8_lossy(b))
}

/// Every group name and child path of these groups survives the stream.
pub open spec fn group_labels_survive(gs: Seq<GroupSpec>) -> bool {
    forall|g: int|
        0 <= g < gs.len() ==> label_survives(#[trigger] gs[g].root) && forall|c: int|
            0 <= c < gs[g].children.len() ==> label_survives(#[trigger] gs[g].children[c].path)
}

/// Every label of a report survives the stream: no note ends in a
/// carriage return (a line read from the stream drops a `\r` before its
/// `\n`), and every group name and child path survives.
pub open spec fn labels_survive(r: ReportSpec) -> bool {
    &&& forall|i: int| 0 <= i < r.notes.len() ==> no_trailing_cr(#[trigger] r.notes[i])
    &&& group_labels_survive(r.summary.groups)
}

/// Everything the serving side sends: the header, progress counts, and
/// the final report.
pub open spec fn serve_stream(r: ReportSpec, progress: Seq<u64>) -> Seq<char> {
    terminated(
        seq![header_chars()] + progress_lines(progress) + report_lines(
            r.items,
            r.duration_ms as nat,
            r.unreadable,
            r.notes,
            r.summary,
        ),
    )
}

proof fn lemma_terminated_cons(l: Seq<char>, rest: Seq<Seq<char>>)
    ensures
        terminated(seq![l] + rest) == l + seq!['\n'] + terminated(rest),
{
    lemma_terminated_append(seq![l], rest);
    assert(seq![l].drop_last() =~= Seq::<Seq<char>>::empty());
    assert(terminated(Seq::<Seq<char>>::empty()) == Seq::<char>::empty());
    assert(terminated(seq![l]) =~= l + seq!['\n']);
}

/// Reading back terminated plain lines gives the lines.
pub proof fn lemma_lines_of_terminated(ls: Seq<Seq<char>>)
    requires
        forall|i: int| 0 <= i < ls.len() ==> plain_line(#[trigger] ls[i]),
    ensures
        lines_of(terminated(ls)) == ls,
    decreases ls.len(),
{
    if ls.len() == 0 {
        assert(terminated(ls) == Seq::<char>::empty());
        assert(lines_of(Seq::<char>::empty()) =~= ls);
    } else {
        let l = ls[0];
        let rest = ls.drop_first();
        assert(ls =~= seq![l] + rest);
        assert forall|i: int| 0 <= i < rest.len() implies plain_line(#[trigger] rest[i]) by {
            assert(rest[i] == ls[i + 1]);
        }
        lemma_lines_of_terminated(rest);
        lemma_terminated_cons(l, rest);
        let t = terminated(rest);
        let s = l + seq!['\n'] + t;
        assert(plain_line(l));
        assert forall|j: int| 0 <= j < l.len() implies s[j] != '\n' by {
            assert(s[j] == l[j]);
            assert(l.contains(l[j]));
        }
        lemma_find_char_at(s, '\n', l.len() as int);
        assert(s.take(l.len() as int) =~= l);
        assert(s.skip(l.len() as int + 1) =~= t);
        assert(strip_cr(l) == l);
        assert(lines_of(s) =~= seq![l] + rest);
    }
}

/// `plain_line` of a concatenation.
proof fn lemma_plain_concat(a: Seq<char>, b: Seq<char>)
    requires
        !a.contains('\n'),
        !b.contains('\n'),
        b.len() > 0 ==> b.last() != '\r',
        b.len() == 0 ==> plain_line(a),
    ensures
        plain_line(a + b),
{
    let s = a + b;
    assert forall|j: int| 0 <= j < s.len() implies s[j] != '\n' by {
        if j < a.len() {
            assert(s[j] == a[j]);
            assert(a.contains(a[j]));
        } else {
            assert(s[j] == b[j - a.len()]);
            assert(b.contains(b[j - a.len()]));
        }
    }
    if b.len() == 0 {
        assert(s =~= a);
    } else {
        assert(s.last() == b.last());
    }
}

/// An escaped label that does not end in `\r` makes a plain line tail.
proof fn lemma_escape_tail(label: Seq<char>)
    requires
        no_trailing_cr(label),
    ensures
        !escape_spec(label).contains('\n'),
        escape_spec(label).len() > 0 ==> escape_spec(label).last() != '\r',
{
    lemma_escape_no_newline(label);
    if label.len() > 0 {
        let c = label.last();
        assert(escape_spec(label) == escape_spec(label.drop_last()) + escape_char(c));
        assert(escape_spec(label).last() == escape_char(c).last());
    }
}

proof fn lemma_tag_plain(t: char, body: Seq<char>)
    requires
        t != '\n' && t != '\r',
        !body.contains('\n'),
        body.len() > 0 ==> body.last() != '\r',
    ensures
        plain_line(record(seq![t], body)),
{
    assert(!seq![t, ' '].contains('\n')) by {
        assert forall|j: int| 0 <= j < 2 implies seq![t, ' '][j] != '\n' by {}
    }
    assert(plain_line(seq![t, ' ']));
    assert(record(seq![t], body) =~= seq![t, ' '] + body);
    lemma_plain_concat(seq![t, ' '], body);
}

/// Decimal, space, escaped label: no newline, no final `\r`.
proof fn lemma_body_plain(n: u64, label: Seq<char>)
    requires
        no_trailing_cr(label),
    ensures
        !(decimal(n as nat) + seq![' '] + escape_spec(label)).contains('\n'),
        (decimal(n as nat) + seq![' '] + escape_spec(label)).last() != '\r',
        (decimal(n as nat) + seq![' '] + escape_spec(label)).len() > 0,
{
    lemma_decimal_plain(n as nat);
    lemma_escape_tail(label);
    let a = decimal(n as nat) + seq![' '];
    assert(!a.contains('\n')) by {
        assert forall|j: int| 0 <= j < a.len() implies a[j] != '\n' by {
            if j < decimal(n as nat).len() {
                assert(decimal(n as nat).contains(a[j]));
            }
        }
    }
    assert(plain_line(a));
    lemma_plain_concat(a, escape_spec(label));
}

/// Two decimals with a space between them: no newline, no final `\r`.
proof fn lemma_pair_plain(a: nat, b: nat)
    ensures
        !(decimal(a) + seq![' '] + decimal(b)).contains('\n'),
        (decimal(a) + seq![' '] + decimal(b)).last() != '\r',
        (decimal(a) + seq![' '] + decimal(b)).len() > 0,
{
    lemma_decimal_plain(a);
    lemma_decimal_plain(b);
    let x = decimal(a) + seq![' '];
    assert(!x.contains('\n')) by {
        assert forall|j: int| 0 <= j < x.len() implies x[j] != '\n' by {
            if j < decimal(a).len() {
                assert(decimal(a).contains(x[j]));
            }
        }
    }
    assert(plain_line(x));
    lemma_plain_concat(x, decimal(b));
}

/// Every line of the stream is plain.
proof fn lemma_stream_plain(r: ReportSpec, progress: Seq<u64>)
    requires
        labels_survive(r),
    ensures
        forall|i: int|
            0 <= i < (seq![header_chars()] + progress_lines(progress) + report_lines(
                r.items,
                r.duration_ms as nat,
                r.unreadable,
                r.notes,
                r.summary,
            )).len() ==> plain_line(
                #[trigger] (seq![header_chars()] + progress_lines(progress) + report_lines(
                    r.items,
                    r.duration_ms as nat,
                    r.unreadable,
                    r.notes,
                    r.summary,
                ))[i],
            ),
{
    let rl = report_lines(r.items, r.duration_ms as nat, r.unreadable, r.notes, r.summary);
    let all = seq![header_chars()] + progress_lines(progress) + rl;
    reveal_strlit("bfiles-serve 1");
    let h = header_chars();
    assert(h =~= seq!['b', 'f', 'i', 'l', 'e', 's', '-', 's', 'e', 'r', 'v', 'e', ' ', '1']);
    assert(plain_line(h)) by {
        assert forall|j: int| 0 <= j < h.len() implies h[j] != '\n' by {}
    }
    assert forall|i: int| 0 <= i < progress.len() implies plain_line(
        #[trigger] progress_lines(progress)[i],
    ) by {
        lemma_decimal_plain(progress[i] as nat);
        lemma_tag_plain('P', decimal(progress[i] as nat));
    }
    // the records of the report
    let d = record(seq!['D'], decimal(r.items as nat) + seq![' '] + decimal(r.duration_ms as nat));
    lemma_pair_plain(r.items as nat, r.duration_ms as nat);
    lemma_tag_plain('D', decimal(r.items as nat) + seq![' '] + decimal(r.duration_ms as nat));
    let w: Seq<Seq<char>> = if r.unreadable > 0 {
        seq![record(seq!['W'], decimal(r.unreadable as nat))]
    } else {
        Seq::empty()
    };
    lemma_decimal_plain(r.unreadable as nat);
    lemma_tag_plain('W', decimal(r.unreadable as nat));
    let ns = note_records(r.notes);
    assert forall|i: int| 0 <= i < ns.len() implies plain_line(#[trigger] ns[i]) by {
        lemma_escape_tail(r.notes[i]);
        lemma_tag_plain('S', escape_spec(r.notes[i]));
    }
    let t = record(seq!['T'], decimal(r.summary.total as nat));
    lemma_decimal_plain(r.summary.total as nat);
    lemma_tag_plain('T', decimal(r.summary.total as nat));
    let gr = groups_records(r.summary.groups);
    lemma_groups_records_plain(r.summary.groups);
    let ok = seq!['O', 'K'];
    assert(plain_line(ok)) by {
        assert forall|j: int| 0 <= j < 2 implies ok[j] != '\n' by {}
    }
    assert(rl =~= seq![d] + w + ns + seq![t] + gr + seq![ok]);
    assert forall|i: int| 0 <= i < all.len() implies plain_line(#[trigger] all[i]) by {
        if i == 0 {
        } else if i < 1 + progress.len() {
            assert(all[i] == progress_lines(progress)[i - 1]);
        } else {
            let k = i - 1 - progress.len();
            assert(all[i] == rl[k]);
            if k == 0 {
            } else if k < 1 + w.len() {
                assert(rl[k] == w[k - 1]);
            } else if k < 1 + w.len() + ns.len() {
                assert(rl[k] == ns[k - 1 - w.len()]);
            } else if k == 1 + w.len() + ns.len() {
            } else if k < 2 + w.len() + ns.len() + gr.len() {
                assert(rl[k] == gr[k - 2 - w.len() - ns.len()]);
            } else {
            }
        }
    }
}

/// Every record of the groups is plain.
proof fn lemma_groups_records_plain(gs: Seq<GroupSpec>)
    requires
        group_labels_survive(gs),
    ensures
        forall|i: int|
            0 <= i < groups_records(gs).len() ==> plain_line(#[trigger] groups_records(gs)[i]),
    decreases gs.len(),
{
    if gs.len() > 0 {
        let init = gs.drop_last();
        let g = gs.last();
        assert(group_labels_survive(init)) by {
            assert forall|k: int| 0 <= k < init.len() implies #[trigger] init[k] == gs[k] by {}
        }
        lemma_groups_records_plain(init);
        assert(g == gs[gs.len() - 1]);
        let one = group_records(g);
        lemma_body_plain(g.total, utf8_lossy(g.root));
        lemma_tag_plain('G', decimal(g.total as nat) + seq![' '] + escape_spec(utf8_lossy(g.root)));
        assert forall|i: int| 0 <= i < one.len() implies plain_line(#[trigger] one[i]) by {
            if i > 0 {
                let c = g.children[i - 1];
                assert(label_survives(gs[gs.len() - 1].children[i - 1].path));
                assert(one[i] == row_record(c));
                lemma_body_plain(c.size, utf8_lossy(c.path));
                lemma_tag_plain(
                    'R',
                    decimal(c.size as nat) + seq![' '] + escape_spec(utf8_lossy(c.path)),
                );
            }
        }
        let all = groups_records(gs);
        assert(all == groups_records(init) + one);
        assert forall|i: int| 0 <= i < all.len() implies plain_line(#[trigger] all[i]) by {
            if i < groups_records(init).len() {
                assert(all[i] == groups_records(init)[i]);
            } else {
                assert(all[i] == one[i - groups_records(init).len()]);
            }
        }
    }
}

/// The tag of a one-letter record.
proof fn lemma_record_tag(t: char, body: Seq<char>)
    requires
        t != ' ',
    ensures
        tag_and_rest(record(seq![t], body)) == (seq![t], body),
{
    assert(!seq![t].contains(' ')) by {
        assert forall|j: int| 0 <= j < 1 implies seq![t][j] != ' ' by {}
    }
    lemma_record_parts(seq![t], body);
}

/// A line that the reader records and moves past.
proof fn lemma_consume_step(r: ReportSpec, p: Seq<u64>, l: Seq<char>, rest: Seq<Seq<char>>)
    requires
        apply_line(r, l).1 == ServeLine::Recorded,
    ensures
        consume(r, p, seq![l] + rest) == consume(apply_line(r, l).0, p, rest),
{
    let ls = seq![l] + rest;
    assert(ls[0] == l);
    assert(ls.drop_first() =~= rest);
}

/// Progress records add their counts and leave the report alone.
proof fn lemma_consume_progress(r: ReportSpec, p: Seq<u64>, ps: Seq<u64>, rest: Seq<Seq<char>>)
    ensures
        consume(r, p, progress_lines(ps) + rest) == consume(r, p + ps, rest),
    decreases ps.len(),
{
    if ps.len() == 0 {
        assert(progress_lines(ps) + rest =~= rest);
        assert(p + ps =~= p);
    } else {
        let n = ps[0];
        let l = record(seq!['P'], decimal(n as nat));
        let ls = progress_lines(ps) + rest;
        lemma_record_tag('P', decimal(n as nat));
        lemma_parse_decimal(n);
        assert(ls[0] == l);
        assert(apply_line(r, l) == (r, ServeLine::Progress(n)));
        assert(ls.drop_first() =~= progress_lines(ps.drop_first()) + rest);
        lemma_consume_progress(r, p.push(n), ps.drop_first(), rest);
        assert(p.push(n) + ps.drop_first() =~= p + ps);
    }
}

/// Note records add their notes, in order.
proof fn lemma_consume_notes(r: ReportSpec, p: Seq<u64>, ns: Seq<Seq<char>>, rest: Seq<Seq<char>>)
    ensures
        consume(r, p, note_records(ns) + rest) == consume(
            ReportSpec { notes: r.notes + ns, ..r },
            p,
            rest,
        ),
    decreases ns.len(),
{
    if ns.len() == 0 {
        assert(note_records(ns) + rest =~= rest);
        assert(r.notes + ns =~= r.notes);
        assert(ReportSpec { notes: r.notes + ns, ..r } =~~= r);
    } else {
        let n = ns[0];
        let l = record(seq!['S'], escape_spec(n));
        lemma_record_tag('S', escape_spec(n));
        lemma_unescape_escape(n);
        assert(seq!['S'][0] != seq!['P'][0] && seq!['S'][0] != seq!['D'][0] && seq!['S'][0]
            != seq!['W'][0]);
        let r1 = ReportSpec { notes: r.notes.push(n), ..r };
        assert(apply_line(r, l) == (r1, ServeLine::Recorded));
        assert(note_records(ns) + rest =~= seq![l] + (note_records(ns.drop_first()) + rest));
        lemma_consume_step(r, p, l, note_records(ns.drop_first()) + rest);
        lemma_consume_notes(r1, p, ns.drop_first(), rest);
        assert(r1.notes + ns.drop_first() =~= r.notes + ns);
    }
}

/// The report with `cs` added to the children of its last group.
pub open spec fn extend_last(r: ReportSpec, cs: Seq<RowSpec>) -> ReportSpec {
    let last = r.summary.groups.last();
    ReportSpec {
        summary: SummarySpec {
            total: r.summary.total,
            groups: r.summary.groups.drop_last().push(
                GroupSpec { root: last.root, total: last.total, children: last.children + cs },
            ),
        },
        ..r
    }
}

/// The report with `gs` added after its groups.
pub open spec fn extend_groups(r: ReportSpec, gs: Seq<GroupSpec>) -> ReportSpec {
    ReportSpec {
        summary: SummarySpec { total: r.summary.total, groups: r.summary.groups + gs },
        ..r
    }
}

/// Row records add children to the last group, in order.
proof fn lemma_consume_rows(r: ReportSpec, p: Seq<u64>, cs: Seq<RowSpec>, rest: Seq<Seq<char>>)
    requires
        r.summary.groups.len() > 0,
        forall|i: int| 0 <= i < cs.len() ==> label_survives(#[trigger] cs[i].path),
    ensures
        consume(r, p, cs.map_values(|c: RowSpec| row_record(c)) + rest) == consume(
            extend_last(r, cs),
            p,
            rest,
        ),
    decreases cs.len(),
{
    let last = r.summary.groups.last();
    if cs.len() == 0 {
        assert(cs.map_values(|c: RowSpec| row_record(c)) + rest =~= rest);
        assert(last.children + cs =~= last.children);
        assert(r.summary.groups.drop_last().push(last) =~= r.summary.groups);
        assert(extend_last(r, cs) =~~= r);
    } else {
        let c = cs[0];
        let body = decimal(c.size as nat) + seq![' '] + escape_spec(utf8_lossy(c.path));
        let l = record(seq!['R'], body);
        lemma_record_tag('R', body);
        lemma_record_body(c.size, utf8_lossy(c.path));
        assert(label_survives(cs[0].path));
        assert forall|i: int| 0 <= i < cs.drop_first().len() implies label_survives(
            #[trigger] cs.drop_first()[i].path,
        ) by {
            assert(cs.drop_first()[i] == cs[i + 1]);
        }
        assert(seq!['R'][0] != seq!['P'][0] && seq!['R'][0] != seq!['D'][0] && seq!['R'][0]
            != seq!['W'][0] && seq!['R'][0] != seq!['S'][0] && seq!['R'][0] != seq!['T'][0]
            && seq!['R'][0] != seq!['G'][0]);
        let r1 = extend_last(r, seq![c]);
        assert(last.children + seq![c] =~= last.children.push(c));
        assert(apply_line(r, l) =~~= (r1, ServeLine::Recorded));
        assert(cs.map_values(|x: RowSpec| row_record(x)) + rest =~= seq![l] + (
        cs.drop_first().map_values(|x: RowSpec| row_record(x)) + rest));
        lemma_consume_step(r, p, l, cs.drop_first().map_values(|x: RowSpec| row_record(x)) + rest);
        lemma_consume_rows(r1, p, cs.drop_first(), rest);
        assert(r1.summary.groups.drop_last() =~= r.summary.groups.drop_last());
        assert(last.children + seq![c] + cs.drop_first() =~= last.children + cs);
        assert(extend_last(r1, cs.drop_first()) =~~= extend_last(r, cs));
    }
}

/// A group's records add that group.
proof fn lemma_consume_group(r: ReportSpec, p: Seq<u64>, g: GroupSpec, rest: Seq<Seq<char>>)
    requires
        label_survives(g.root),
        forall|i: int| 0 <= i < g.children.len() ==> label_survives(#[trigger] g.children[i].path),
    ensures
        consume(r, p, group_records(g) + rest) == consume(extend_groups(r, seq![g]), p, rest),
{
    let body = decimal(g.total as nat) + seq![' '] + escape_spec(utf8_lossy(g.root));
    let l = record(seq!['G'], body);
    lemma_record_tag('G', body);
    lemma_record_body(g.total, utf8_lossy(g.root));
    assert(seq!['G'][0] != seq!['P'][0] && seq!['G'][0] != seq!['D'][0] && seq!['G'][0]
        != seq!['W'][0] && seq!['G'][0] != seq!['S'][0] && seq!['G'][0] != seq!['T'][0]);
    let head = GroupSpec { root: g.root, total: g.total, children: Seq::empty() };
    let r1 = extend_groups(r, seq![head]);
    assert(r.summary.groups + seq![head] =~= r.summary.groups.push(head));
    assert(apply_line(r, l) =~~= (r1, ServeLine::Recorded));
    let rows = g.children.map_values(|c: RowSpec| row_record(c));
    assert(group_records(g) + rest =~= seq![l] + (rows + rest));
    lemma_consume_step(r, p, l, rows + rest);
    lemma_consume_rows(r1, p, g.children, rest);
    assert(r1.summary.groups.drop_last() =~= r.summary.groups);
    assert(Seq::<RowSpec>::empty() + g.children =~= g.children);
    assert(r1.summary.groups.last() == head);
    assert(extend_last(r1, g.children).summary.groups =~= r.summary.groups + seq![g]);
    assert(extend_last(r1, g.children) =~~= extend_groups(r, seq![g]));
}

/// Group records add their groups, in order.
proof fn lemma_consume_groups(r: ReportSpec, p: Seq<u64>, gs: Seq<GroupSpec>, rest: Seq<Seq<char>>)
    requires
        group_labels_survive(gs),
    ensures
        consume(r, p, groups_records(gs) + rest) == consume(extend_groups(r, gs), p, rest),
    decreases gs.len(),
{
    if gs.len() == 0 {
        assert(groups_records(gs) + rest =~= rest);
        assert(r.summary.groups + gs =~= r.summary.groups);
        assert(extend_groups(r, gs) =~~= r);
    } else {
        let init = gs.drop_last();
        let g = gs.last();
        assert(group_labels_survive(init)) by {
            assert forall|k: int| 0 <= k < init.len() implies #[trigger] init[k] == gs[k] by {}
        }
        assert(g == gs[gs.len() - 1]);
        assert(groups_records(gs) + rest =~= groups_records(init) + (group_records(g) + rest));
        lemma_consume_groups(r, p, init, group_records(g) + rest);
        let r1 = extend_groups(r, init);
        lemma_consume_group(r1, p, g, rest);
        assert(r.summary.groups + init + seq![g] =~= r.summary.groups + gs);
        assert(extend_groups(r1, seq![g]) =~~= extend_groups(r, gs));
    }
}

/// Reading back what the serving side sent gives its report, closed by
/// `OK`, and the progress counts it sent before it, in order. Labels whose
/// shown text ends in a carriage return are left out, since reading a line
/// drops a `\r` before its `\n`; so are names and paths whose shown text
/// does not encode back to their bytes, since the stream carries that text.
pub proof fn lemma_serve_round_trip(r: ReportSpec, progress: Seq<u64>)
    requires
        r.complete,
        labels_survive(r),
    ensures
        read_lines_spec(lines_of(serve_stream(r, progress))) == Some((r, progress)),
{
    let rl = report_lines(r.items, r.duration_ms as nat, r.unreadable, r.notes, r.summary);
    let ls = seq![header_chars()] + progress_lines(progress) + rl;
    lemma_stream_plain(r, progress);
    lemma_lines_of_terminated(ls);
    assert(ls[0] == header_chars());
    assert(ls.drop_first() =~= progress_lines(progress) + rl);
    let e = empty_report();
    lemma_consume_progress(e, Seq::empty(), progress, rl);
    assert(Seq::<u64>::empty() + progress =~= progress);
    // `D`: items and duration
    let dbody = decimal(r.items as nat) + seq![' '] + decimal(r.duration_ms as nat);
    let d = record(seq!['D'], dbody);
    let w: Seq<Seq<char>> = if r.unreadable > 0 {
        seq![record(seq!['W'], decimal(r.unreadable as nat))]
    } else {
        Seq::empty()
    };
    let ns = note_records(r.notes);
    let t = record(seq!['T'], decimal(r.summary.total as nat));
    let gr = groups_records(r.summary.groups);
    let ok = seq!['O', 'K'];
    let after_w = ns + (seq![t] + (gr + seq![ok]));
    assert(rl =~= seq![d] + (w + after_w));
    lemma_record_tag('D', dbody);
    lemma_done_body(r.items, r.duration_ms);
    assert(seq!['D'][0] != seq!['P'][0]);
    let r1 = ReportSpec { items: r.items, duration_ms: r.duration_ms, ..e };
    assert(apply_line(e, d) == (r1, ServeLine::Recorded));
    lemma_consume_step(e, progress, d, w + after_w);
    // `W`: only when directories could not be read
    let r2 = ReportSpec { unreadable: r.unreadable, ..r1 };
    if r.unreadable > 0 {
        let wl = record(seq!['W'], decimal(r.unreadable as nat));
        lemma_record_tag('W', decimal(r.unreadable as nat));
        lemma_parse_decimal(r.unreadable);
        assert(seq!['W'][0] != seq!['P'][0] && seq!['W'][0] != seq!['D'][0]);
        assert(apply_line(r1, wl) == (r2, ServeLine::Recorded));
        assert(w + after_w =~= seq![wl] + after_w);
        lemma_consume_step(r1, progress, wl, after_w);
    } else {
        assert(w + after_w =~= after_w);
        assert(r2 == r1);
    }
    // `S`: the notes, in order
    lemma_consume_notes(r2, progress, r.notes, seq![t] + (gr + seq![ok]));
    let r3 = ReportSpec { notes: r2.notes + r.notes, ..r2 };
    assert(r2.notes + r.notes =~= r.notes);
    // `T`: the total
    lemma_record_tag('T', decimal(r.summary.total as nat));
    lemma_parse_decimal(r.summary.total);
    assert(seq!['T'][0] != seq!['P'][0] && seq!['T'][0] != seq!['D'][0] && seq!['T'][0]
        != seq!['W'][0] && seq!['T'][0] != seq!['S'][0]);
    let r4 = ReportSpec {
        summary: SummarySpec { total: r.summary.total, groups: r3.summary.groups },
        ..r3
    };
    assert(apply_line(r3, t) == (r4, ServeLine::Recorded));
    lemma_consume_step(r3, progress, t, gr + seq![ok]);
    // `G` and `R`: the groups and their rows
    lemma_consume_groups(r4, progress, r.summary.groups, seq![ok]);
    let r5 = extend_groups(r4, r.summary.groups);
    assert(r4.summary.groups + r.summary.groups =~= r.summary.groups);
    // `OK` closes the report
    lemma_split_no_space(ok);
    assert(!ok.contains(' ')) by {
        assert forall|j: int| 0 <= j < 2 implies ok[j] != ' ' by {}
    }
    lemma_split_no_space(ok);
    assert(tag_and_rest(ok) == (ok, Seq::<char>::empty()));
    assert(ok.len() != seq!['P'].len());
    assert(ok[0] != seq!['D'][0] && ok[0] != seq!['W'][0] && ok[0] != seq!['S'][0] && ok[0]
        != seq!['T'][0] && ok[0] != seq!['G'][0] && ok[0] != seq!['R'][0]);
    let r6 = ReportSpec { complete: true, ..r5 };
    assert(apply_line(r5, ok) == (r6, ServeLine::Finished));
    assert(seq![ok][0] == ok);
    assert(consume(r5, progress, seq![ok]) == (r6, progress));
    assert(r6 =~~= r);
}

/// A line whose tag the reader does not know (one of a newer protocol
/// revision) changes nothing: reading goes on as if it were not there.
pub proof fn lemma_unknown_tags_ignored(
    r: ReportSpec,
    p: Seq<u64>,
    l: Seq<char>,
    rest: Seq<Seq<char>>,
)
    requires
        !(seq![seq!['P'], seq!['D'], seq!['W'], seq!['S'], seq!['T'], seq!['G'], seq!['R'], seq![
            'O',
            'K',
        ]].contains(tag_and_rest(l).0)),
    ensures
        consume(r, p, seq![l] + rest) == consume(r, p, rest),
{
    let known = seq![seq!['P'], seq!['D'], seq!['W'], seq!['S'], seq!['T'], seq!['G'], seq!['R'], seq![
        'O',
        'K',
    ]];
    let tag = tag_and_rest(l).0;
    assert(tag != known[0] && tag != known[1] && tag != known[2] && tag != known[3]);
    assert(tag != known[4] && tag != known[5] && tag != known[6] && tag != known[7]);
    assert(apply_line(r, l) == (r, ServeLine::Recorded));
    lemma_consume_step(r, p, l, rest);
}

/// A line whose tag is `OK`.
pub open spec fn is_ok_line(l: Seq<char>) -> bool {
    tag_and_rest(l).0 == seq!['O', 'K']
}

/// One line finishes the report exactly when its tag is `OK`; no other
/// line closes it.
proof fn lemma_apply_finished(r: ReportSpec, l: Seq<char>)
    ensures
        (apply_line(r, l).1 == ServeLine::Finished) == is_ok_line(l),
        apply_line(r, l).0.complete == (r.complete || is_ok_line(l)),
{
    let tag = tag_and_rest(l).0;
    if is_ok_line(l) {
        assert(tag.len() == 2);
        assert(tag != seq!['P'] && tag != seq!['D'] && tag != seq!['W'] && tag != seq!['S']);
        assert(tag != seq!['T'] && tag != seq!['G'] && tag != seq!['R']);
    }
}

/// Lines after an `OK` change nothing: what is read of `ls` is what is read
/// of it cut right after any line tagged `OK`.
pub proof fn lemma_reading_stops_at_ok(r: ReportSpec, p: Seq<u64>, ls: Seq<Seq<char>>, k: int)
    requires
        0 <= k < ls.len(),
        is_ok_line(ls[k]),
    ensures
        consume(r, p, ls) == consume(r, p, ls.take(k + 1)),
    decreases ls.len(),
{
    let t = ls.take(k + 1);
    assert(t[0] == ls[0]);
    lemma_apply_finished(r, ls[0]);
    if !is_ok_line(ls[0]) {
        assert(k > 0);
        assert(t.drop_first() =~= ls.drop_first().take(k));
        assert(ls.drop_first()[k - 1] == ls[k]);
        let step = apply_line(r, ls[0]);
        match step.1 {
            ServeLine::Progress(n) => {
                lemma_reading_stops_at_ok(step.0, p.push(n), ls.drop_first(), k - 1);
            },
            _ => {
                lemma_reading_stops_at_ok(step.0, p, ls.drop_first(), k - 1);
            },
        }
    }
}

/// The report read is complete exactly when it already was or a line
/// tagged `OK` was read.
pub proof fn lemma_complete_iff_ok(r: ReportSpec, p: Seq<u64>, ls: Seq<Seq<char>>)
    ensures
        consume(r, p, ls).0.complete == (r.complete || exists|k: int|
            0 <= k < ls.len() && is_ok_line(#[trigger] ls[k])),
    decreases ls.len(),
{
    if ls.len() > 0 {
        lemma_apply_finished(r, ls[0]);
        let step = apply_line(r, ls[0]);
        let rest = ls.drop_first();
        if is_ok_line(ls[0]) {
            assert(is_ok_line(ls[0]));
        } else {
            match step.1 {
                ServeLine::Progress(n) => {
                    lemma_complete_iff_ok(step.0, p.push(n), rest);
                },
                _ => {
                    lemma_complete_iff_ok(step.0, p, rest);
                },
            }
            if exists|k: int| 0 <= k < ls.len() && is_ok_line(#[trigger] ls[k]) {
                let k = choose|k: int| 0 <= k < ls.len() && is_ok_line(#[trigger] ls[k]);
                assert(k > 0);
                assert(rest[k - 1] == ls[k]);
            }
            if exists|k: int| 0 <= k < rest.len() && is_ok_line(#[trigger] rest[k]) {
                let k = choose|k: int| 0 <= k < rest.len() && is_ok_line(#[trigger] rest[k]);
                assert(ls[k + 1] == rest[k]);
            }
        }
    }
}

/// Reading a whole answer: it is complete exactly when a line after the
/// header is tagged `OK`, and lines after such a line change nothing.
pub proof fn lemma_read_stops_at_ok(lines: Seq<Seq<char>>, k: int)
    requires
        lines.len() > 0,
        lines[0] == header_chars(),
    ensures
        read_lines_spec(lines) matches Some((r, p)) && r.complete == exists|j: int|
            1 <= j < lines.len() && is_ok_line(#[trigger] lines[j]),
        1 <= k < lines.len() && is_ok_line(lines[k]) ==> read_lines_spec(lines) == read_lines_spec(
            lines.take(k + 1),
        ),
{
    let rest = lines.drop_first();
    lemma_complete_iff_ok(empty_report(), Seq::empty(), rest);
    if exists|j: int| 1 <= j < lines.len() && is_ok_line(#[trigger] lines[j]) {
        let j = choose|j: int| 1 <= j < lines.len() && is_ok_line(#[trigger] lines[j]);
        assert(rest[j - 1] == lines[j]);
    }
    if exists|j: int| 0 <= j < rest.len() && is_ok_line(#[trigger] rest[j]) {
        let j = choose|j: int| 0 <= j < rest.len() && is_ok_line(#[trigger] rest[j]);
        assert(lines[j + 1] == rest[j]);
    }
    if 1 <= k < lines.len() && is_ok_line(lines[k]) {
        let cut = lines.take(k + 1);
        assert(cut[0] == lines[0]);
        assert(cut.drop_first() =~= rest.take(k));
        assert(rest[k - 1] == lines[k]);
        lemma_reading_stops_at_ok(empty_report(), Seq::empty(), rest, k - 1);
    }
}

/// Text made of whole lines (empty, or ending in a newline) splits into
/// its own lines before those of whatever follows it.
proof fn lemma_lines_of_append(a: Seq<char>, b: Seq<char>)
    requires
        a.len() == 0 || a.last() == '\n',
    ensures
        lines_of(a + b) == lines_of(a) + lines_of(b),
    decreases a.len(),
{
    if a.len() == 0 {
        assert(a + b =~= b);
        assert(lines_of(a) + lines_of(b) =~= lines_of(b));
    } else {
        lemma_find_char_some(a, '\n');
        let i = find_char(a, '\n').unwrap();
        let s = a + b;
        assert forall|j: int| 0 <= j < i implies s[j] != '\n' by {
            assert(s[j] == a[j]);
        }
        assert(s[i] == a[i]);
        lemma_find_char_at(s, '\n', i);
        assert(s.take(i) =~= a.take(i));
        let a2 = a.skip(i + 1);
        assert(s.skip(i + 1) =~= a2 + b);
        if a2.len() > 0 {
            assert(a2.last() == a.last());
        }
        lemma_lines_of_append(a2, b);
        assert(lines_of(s) == seq![strip_cr(a.take(i))] + lines_of(a2 + b));
        assert(lines_of(a) == seq![strip_cr(a.take(i))] + lines_of(a2));
        assert(lines_of(s) =~= lines_of(a) + lines_of(b));
    }
}

/// Reading a served text stops at an `OK` line: whatever follows the line
/// that carries it (after its newline) changes neither the report nor the
/// progress counts read.
pub proof fn lemma_text_read_stops_at_ok(a: Seq<char>, b: Seq<char>, k: int)
    requires
        a.len() > 0,
        a.last() == '\n',
        1 <= k < lines_of(a).len(),
        is_ok_line(lines_of(a)[k]),
    ensures
        read_lines_spec(lines_of(a + b)) == read_lines_spec(lines_of(a)),
{
    let la = lines_of(a);
    let lb = lines_of(b);
    lemma_lines_of_append(a, b);
    let l = la + lb;
    assert(l[0] == la[0]);
    assert(l[k] == la[k]);
    assert(l.drop_first() =~= la.drop_first() + lb);
    if la[0] == header_chars() {
        lemma_reading_stops_at_ok(empty_report(), Seq::empty(), l.drop_first(), k - 1);
        lemma_reading_stops_at_ok(empty_report(), Seq::empty(), la.drop_first(), k - 1);
        assert(l.drop_first().take(k) =~= la.drop_first().take(k));
    }
}

} // verus!
