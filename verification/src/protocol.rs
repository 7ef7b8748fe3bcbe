//! The line protocol of remote scans: what the serving side writes after
//! its scan, and how the client reads it back, line by line.

use vstd::prelude::*;

use crate::remote::{
    escape_chars, escape_spec, find_char, find_char_exec, lemma_find_char_at, lemma_find_char_none,
    lemma_find_char_some, split_once, unescape_chars, unescape_spec, PROTOCOL_HEADER,
};
use crate::cli::str_equal;
use vstd::string::StringExecFns;
use crate::summary::{
    DirectoryGroup, DirectoryRow, GroupSpec, RowSpec, SummarySpec, TreeSummary,
};
use crate::text::{
    chars_of, decimal, extend_chars, lossy_text, parse_u64, parse_u64_spec, push_decimal,
    push_decimal_u128, string_of, utf8_lossy,
};

verus! {

/// Everything a serving side reports.
#[derive(Debug)]
pub struct ServeReport {
    pub items: u64,
    pub duration_ms: u64,
    pub unreadable: u64,
    pub notes: Vec<String>,
    pub summary: TreeSummary,
    /// The closing `OK` was seen.
    pub complete: bool,
}

/// Model of a `ServeReport`.
#[verifier::ext_equal]
pub struct ReportSpec {
    pub items: u64,
    pub duration_ms: u64,
    pub unreadable: u64,
    pub notes: Seq<Seq<char>>,
    pub summary: SummarySpec,
    pub complete: bool,
}

impl View for ServeReport {
    type V = ReportSpec;

    open spec fn view(&self) -> ReportSpec {
        ReportSpec {
            items: self.items,
            duration_ms: self.duration_ms,
            unreadable: self.unreadable,
            notes: self.notes@.map_values(|n: String| n@),
            summary: self.summary@,
            complete: self.complete,
        }
    }
}

/// What one line of the protocol did.
#[derive(Debug, Clone, Copy, PartialEq, Eq)]
pub enum ServeLine {
    /// A progress count, for the spinner.
    Progress(u64),
    /// Recorded into the report, or ignored.
    Recorded,
    /// The closing `OK`: the report is complete.
    Finished,
    /// The first line was not the protocol header.
    NotServe,
}

/// Why a remote answer could not be read.
#[derive(Debug, Clone, Copy, PartialEq, Eq)]
pub enum ServeError {
    /// The remote did not answer with a bfiles scan.
    NotServe,
}

/// The report before any line was read.
pub open spec fn empty_report() -> ReportSpec {
    ReportSpec {
        items: 0,
        duration_ms: 0,
        unreadable: 0,
        notes: Seq::empty(),
        summary: SummarySpec { total: 0, groups: Seq::empty() },
        complete: false,
    }
}

/// A line's tag and the rest: split at the first space, or all tag.
pub open spec fn tag_and_rest(line: Seq<char>) -> (Seq<char>, Seq<char>) {
    match split_once(line, ' ') {
        Some(p) => p,
        None => (line, Seq::empty()),
    }
}

/// A number field, 0 when it does not parse.
pub open spec fn number_or_zero(s: Seq<char>) -> u64 {
    match parse_u64_spec(s) {
        Some(n) => n,
        None => 0,
    }
}

/// The text before the first space (all of it when there is none).
pub open spec fn first_word(s: Seq<char>) -> Seq<char> {
    match split_once(s, ' ') {
        Some((a, b)) => a,
        None => s,
    }
}

/// The text between the first and the second space (or the end), if there
/// is a first space.
pub open spec fn second_word(s: Seq<char>) -> Option<Seq<char>> {
    match split_once(s, ' ') {
        Some((a, b)) => Some(first_word(b)),
        None => None,
    }
}

/// Size of a `G`/`R` record: the number before the first space, 0 when
/// there is no space or it does not parse.
pub open spec fn record_size(rest: Seq<char>) -> u64 {
    match split_once(rest, ' ') {
        Some((a, b)) => number_or_zero(a),
        None => 0,
    }
}

/// Label of a `G`/`R` record: the text after the first space (all of it
/// when there is none).
pub open spec fn record_label(rest: Seq<char>) -> Seq<char> {
    match split_once(rest, ' ') {
        Some((a, b)) => b,
        None => rest,
    }
}

/// What one line after the header does to the report.
pub open spec fn apply_line(r: ReportSpec, line: Seq<char>) -> (ReportSpec, ServeLine) {
    let tag = tag_and_rest(line).0;
    let rest = tag_and_rest(line).1;
    if tag == seq!['P'] {
        match parse_u64_spec(rest) {
            Some(n) => (r, ServeLine::Progress(n)),
            None => (r, ServeLine::Recorded),
        }
    } else if tag == seq!['D'] {
        (
            ReportSpec {
                items: number_or_zero(first_word(rest)),
                duration_ms: match second_word(rest) {
                    Some(w) => number_or_zero(w),
                    None => 0,
                },
                ..r
            },
            ServeLine::Recorded,
        )
    } else if tag == seq!['W'] {
        (ReportSpec { unreadable: number_or_zero(rest), ..r }, ServeLine::Recorded)
    } else if tag == seq!['S'] {
        (ReportSpec { notes: r.notes.push(unescape_spec(rest)), ..r }, ServeLine::Recorded)
    } else if tag == seq!['T'] {
        (
            ReportSpec {
                summary: SummarySpec { total: number_or_zero(rest), groups: r.summary.groups },
                ..r
            },
            ServeLine::Recorded,
        )
    } else if tag == seq!['G'] {
        let g = GroupSpec {
            root: vstd::utf8::encode_utf8(unescape_spec(record_label(rest))),
            total: record_size(rest),
            children: Seq::empty(),
        };
        (
            ReportSpec {
                summary: SummarySpec { total: r.summary.total, groups: r.summary.groups.push(g) },
                ..r
            },
            ServeLine::Recorded,
        )
    } else if tag == seq!['R'] {
        if r.summary.groups.len() > 0 {
            let last = r.summary.groups.last();
            let row = RowSpec {
                path: vstd::utf8::encode_utf8(unescape_spec(record_label(rest))),
                size: record_size(rest),
            };
            let g = GroupSpec { root: last.root, total: last.total, children: last.children.push(row) };
            (
                ReportSpec {
                    summary: SummarySpec {
                        total: r.summary.total,
                        groups: r.summary.groups.drop_last().push(g),
                    },
                    ..r
                },
                ServeLine::Recorded,
            )
        } else {
            (r, ServeLine::Recorded)
        }
    } else if tag == seq!['O', 'K'] {
        (ReportSpec { complete: true, ..r }, ServeLine::Finished)
    } else {
        (r, ServeLine::Recorded)
    }
}

/// Reads the lines after the header until `OK` (or the end): the report
/// and the progress counts seen on the way.
pub open spec fn consume(r: ReportSpec, progress: Seq<u64>, lines: Seq<Seq<char>>) -> (
    ReportSpec,
    Seq<u64>,
)
    decreases lines.len(),
{
    if lines.len() == 0 {
        (r, progress)
    } else {
        let step = apply_line(r, lines[0]);
        match step.1 {
            ServeLine::Finished => (step.0, progress),
            ServeLine::Progress(n) => consume(step.0, progress.push(n), lines.drop_first()),
            _ => consume(step.0, progress, lines.drop_first()),
        }
    }
}

/// Characters of `PROTOCOL_HEADER`.
pub open spec fn header_chars() -> Seq<char> {
    "bfiles-serve 1"@
}

/// A whole answer: `None` unless the first line is the header.
pub open spec fn read_lines_spec(lines: Seq<Seq<char>>) -> Option<(ReportSpec, Seq<u64>)> {
    if lines.len() == 0 || lines[0] != header_chars() {
        None
    } else {
        Some(consume(empty_report(), Seq::empty(), lines.drop_first()))
    }
}

/// A line with one trailing carriage return removed.
pub open spec fn strip_cr(l: Seq<char>) -> Seq<char> {
    if l.len() > 0 && l.last() == '\r' {
        l.drop_last()
    } else {
        l
    }
}

/// `BufRead::lines`: split after each `\n`, dropping the `\n` and a `\r`
/// just before it; a last piece without `\n` is kept as is.
pub open spec fn lines_of(s: Seq<char>) -> Seq<Seq<char>>
    decreases s.len(),
{
    if s.len() == 0 {
        Seq::empty()
    } else {
        match find_char(s, '\n') {
            Some(i) => if 0 <= i < s.len() {
                seq![strip_cr(s.take(i))] + lines_of(s.skip(i + 1))
            } else {
                seq![s]
            },
            None => seq![s],
        }
    }
}

/// The part of `s` before position `i` and the part after it.
fn split_at_char<'a>(s: &'a [char], i: usize) -> (parts: (&'a [char], &'a [char]))
    requires
        i < s@.len(),
    ensures
        parts.0@ == s@.take(i as int),
        parts.1@ == s@.skip(i + 1),
{
    let n = s.len();
    assert(i < n);
    let a = vstd::slice::slice_subrange(s, 0, i);
    let b = vstd::slice::slice_subrange(s, i + 1, n);
    assert(a@ =~= s@.take(i as int));
    assert(b@ =~= s@.skip(i + 1));
    (a, b)
}

/// `split_once(' ')` on characters.
fn split_space<'a>(s: &'a [char]) -> (parts: Option<(&'a [char], &'a [char])>)
    ensures
        match split_once(s@, ' ') {
            Some((a, b)) => parts matches Some(p) && p.0@ == a && p.1@ == b,
            None => parts is None,
        },
{
    proof {
        lemma_find_char_some(s@, ' ');
    }
    match find_char_exec(s, ' ') {
        Some(i) => {
            assert(find_char(s@, ' ') == Some(i as int));
            let parts = split_at_char(s, i);
            assert(split_once(s@, ' ') == Some((s@.take(i as int), s@.skip(i + 1))));
            Some(parts)
        },
        None => None,
    }
}

fn number_or_zero_exec(s: &[char]) -> (n: u64)
    ensures
        n == number_or_zero(s@),
{
    match parse_u64(s) {
        Some(n) => n,
        None => 0,
    }
}

fn first_word_exec<'a>(s: &'a [char]) -> (w: &'a [char])
    ensures
        w@ == first_word(s@),
{
    match split_space(s) {
        Some((a, _)) => a,
        None => s,
    }
}

fn record_parts<'a>(rest: &'a [char]) -> (parts: (u64, &'a [char]))
    ensures
        parts.0 == record_size(rest@),
        parts.1@ == record_label(rest@),
{
    match split_space(rest) {
        Some((a, b)) => (number_or_zero_exec(a), b),
        None => (0, rest),
    }
}

impl ServeReport {
    /// The report before any line was read.
    pub fn new() -> (r: ServeReport)
        ensures
            r@ == empty_report(),
    {
        let r = ServeReport {
            items: 0,
            duration_ms: 0,
            unreadable: 0,
            notes: Vec::new(),
            summary: TreeSummary { total_size: 0, groups: Vec::new() },
            complete: false,
        };
        assert(r@ =~= empty_report());
        r
    }

    /// Applies one line that follows the header.
    pub fn apply(&mut self, line: &[char]) -> (outcome: ServeLine)
        ensures
            (final(self)@, outcome) == apply_line(old(self)@, line@),
    {
        let (tag, rest): (&[char], &[char]) = match split_space(line) {
            Some(p) => p,
            None => (line, &[]),
        };
        assert(tag@ == tag_and_rest(line@).0);
        assert(rest@ =~= tag_and_rest(line@).1);
        if tag.len() == 1 && tag[0] == 'P' {
            assert(tag@ =~= seq!['P']);
            match parse_u64(rest) {
                Some(n) => ServeLine::Progress(n),
                None => ServeLine::Recorded,
            }
        } else if tag.len() == 1 && tag[0] == 'D' {
            assert(tag@ =~= seq!['D']);
            self.items = number_or_zero_exec(first_word_exec(rest));
            self.duration_ms = match split_space(rest) {
                Some((_, b)) => number_or_zero_exec(first_word_exec(b)),
                None => 0,
            };
            assert(self@ =~= apply_line(old(self)@, line@).0);
            ServeLine::Recorded
        } else if tag.len() == 1 && tag[0] == 'W' {
            assert(tag@ =~= seq!['W']);
            self.unreadable = number_or_zero_exec(rest);
            assert(self@ =~= apply_line(old(self)@, line@).0);
            ServeLine::Recorded
        } else if tag.len() == 1 && tag[0] == 'S' {
            assert(tag@ =~= seq!['S']);
            let note = string_of(&unescape_chars(rest));
            self.notes.push(note);
            assert(self@.notes =~= old(self)@.notes.push(unescape_spec(rest@)));
            assert(self@ =~= apply_line(old(self)@, line@).0);
            ServeLine::Recorded
        } else if tag.len() == 1 && tag[0] == 'T' {
            assert(tag@ =~= seq!['T']);
            self.summary.total_size = number_or_zero_exec(rest);
            assert(self@ =~= apply_line(old(self)@, line@).0);
            ServeLine::Recorded
        } else if tag.len() == 1 && tag[0] == 'G' {
            assert(tag@ =~= seq!['G']);
            let (size, label) = record_parts(rest);
            let group = DirectoryGroup {
                root: encoded(&unescape_chars(label)),
                total_size: size,
                children: Vec::new(),
            };
            let ghost gs = group@;
            self.summary.groups.push(group);
            assert(gs =~= GroupSpec {
                root: vstd::utf8::encode_utf8(unescape_spec(record_label(rest@))),
                total: record_size(rest@),
                children: Seq::empty(),
            });
            assert(self@.summary.groups =~= old(self)@.summary.groups.push(gs));
            assert(self@ =~= apply_line(old(self)@, line@).0);
            ServeLine::Recorded
        } else if tag.len() == 1 && tag[0] == 'R' {
            assert(tag@ =~= seq!['R']);
            let (size, label) = record_parts(rest);
            match self.summary.groups.pop() {
                Some(mut group) => {
                    let ghost before = group@;
                    let row = DirectoryRow { relative_path: encoded(&unescape_chars(label)), size };
                    let ghost rs = row@;
                    group.children.push(row);
                    let ghost gs = group@;
                    assert(gs.children =~= before.children.push(rs));
                    self.summary.groups.push(group);
                    assert(self@.summary.groups =~= old(self)@.summary.groups.drop_last().push(gs));
                    assert(self@ =~= apply_line(old(self)@, line@).0);
                },
                None => {
                    assert(self@ =~= old(self)@);
                },
            }
            ServeLine::Recorded
        } else if tag.len() == 2 && tag[0] == 'O' && tag[1] == 'K' {
            assert(tag@ =~= seq!['O', 'K']);
            self.complete = true;
            assert(self@ =~= apply_line(old(self)@, line@).0);
            ServeLine::Finished
        } else {
            assert(tag@ != seq!['P'] && tag@ != seq!['D'] && tag@ != seq!['W'] && tag@ != seq!['S']);
            assert(tag@ != seq!['T'] && tag@ != seq!['G'] && tag@ != seq!['R'] && tag@ != seq![
                'O',
                'K',
            ]);
            ServeLine::Recorded
        }
    }
}

/// Follows the protocol one line at a time: first the header, then records
/// until `OK`. The caller reads the lines and acts on each outcome.
pub struct ServeReader {
    pub report: ServeReport,
    /// The header has been seen.
    pub started: bool,
}

impl ServeReader {
    /// A reader waiting for the header.
    pub fn new() -> (reader: ServeReader)
        ensures
            reader.report@ == empty_report(),
            !reader.started,
    {
        ServeReader { report: ServeReport::new(), started: false }
    }

    /// Takes the next line. Before the header, a line that is not the
    /// header gives `NotServe`; after it, see `apply_line`.
    pub fn feed(&mut self, line: &str) -> (outcome: ServeLine)
        ensures
            !old(self).started && line@ == header_chars() ==> final(self).started
                && final(self).report@ == old(self).report@ && outcome == ServeLine::Recorded,
            !old(self).started && line@ != header_chars() ==> !final(self).started
                && final(self).report@ == old(self).report@ && outcome == ServeLine::NotServe,
            old(self).started ==> final(self).started && (final(self).report@, outcome)
                == apply_line(old(self).report@, line@),
    {
        if !self.started {
            if str_equal(line, PROTOCOL_HEADER) {
                self.started = true;
                ServeLine::Recorded
            } else {
                ServeLine::NotServe
            }
        } else {
            let chars = chars_of(line);
            self.report.apply(chars.as_slice())
        }
    }
}

/// `BufRead::lines` on characters.
fn split_lines(s: &Vec<char>) -> (lines: Vec<Vec<char>>)
    ensures
        lines.deep_view() == lines_of(s@),
{
    let mut out: Vec<Vec<char>> = Vec::new();
    let mut start: usize = 0;
    let mut i: usize = 0;
    proof {
        assert(s@.skip(0) =~= s@);
    }
    while i < s.len()
        invariant
            start <= i <= s@.len(),
            lines_of(s@) == out.deep_view() + lines_of(s@.skip(start as int)),
            forall|j: int| start <= j < i ==> s@[j] != '\n',
        decreases s@.len() - i,
    {
        if s[i] == '\n' {
            let ghost t = s@.skip(start as int);
            proof {
                assert forall|j: int| 0 <= j < i - start implies t[j] != '\n' by {
                    assert(t[j] == s@[start + j]);
                }
                lemma_find_char_at(t, '\n', i - start);
                assert(t.skip(i - start + 1) =~= s@.skip(i + 1));
                assert(t.take(i - start) =~= s@.subrange(start as int, i as int));
            }
            let mut line: Vec<char> = Vec::new();
            extend_chars(&mut line, vstd::slice::slice_subrange(s.as_slice(), start, i));
            if line.len() > 0 && line[line.len() - 1] == '\r' {
                line.pop();
            }
            assert(line@ =~= strip_cr(s@.subrange(start as int, i as int)));
            let ghost before = out.deep_view();
            let ghost lv = line@;
            assert(line.deep_view() =~= lv);
            out.push(line);
            assert(out.deep_view() =~= before.push(lv));
            start = i + 1;
        }
        i = i + 1;
    }
    let ghost t = s@.skip(start as int);
    proof {
        assert forall|j: int| 0 <= j < t.len() implies t[j] != '\n' by {
            assert(t[j] == s@[start + j]);
        }
        lemma_find_char_none(t, '\n');
    }
    if start < s.len() {
        let mut line: Vec<char> = Vec::new();
        extend_chars(&mut line, vstd::slice::slice_subrange(s.as_slice(), start, s.len()));
        assert(line@ =~= t);
        let ghost before = out.deep_view();
        assert(line.deep_view() =~= t);
        out.push(line);
        assert(out.deep_view() =~= before.push(t));
    } else {
        assert(t =~= Seq::<char>::empty());
        assert(out.deep_view() + Seq::<Seq<char>>::empty() =~= out.deep_view());
    }
    out
}

impl ServeError {
    /// What to tell the user.
    pub fn message(&self) -> (text: String)
        ensures
            text@ == "remote did not answer with a bfiles scan.\nMake sure bfiles is installed and up to date on the remote host:\ncurl -fsSL https://raw.githubusercontent.com/johnkesko/bfiles/master/install.sh | sh"@,
    {
        match self {
            ServeError::NotServe => String::from_str(
                "remote did not answer with a bfiles scan.\nMake sure bfiles is installed and up to date on the remote host:\ncurl -fsSL https://raw.githubusercontent.com/johnkesko/bfiles/master/install.sh | sh",
            ),
        }
    }
}

/// Reads a whole answer: the report up to `OK` (or the end of the text)
/// and the progress counts seen on the way; an error unless the first line
/// is the protocol header.
pub fn read_serve_report(text: &str) -> (result: Result<(ServeReport, Vec<u64>), ServeError>)
    ensures
        match read_lines_spec(lines_of(text@)) {
            Some((r, p)) => result matches Ok((report, progress)) && report@ == r && progress@
                == p,
            None => result == Err::<(ServeReport, Vec<u64>), ServeError>(ServeError::NotServe),
        },
{
    let chars = chars_of(text);
    let lines = split_lines(&chars);
    let ghost lv = lines.deep_view();
    if lines.len() == 0 {
        return Err(ServeError::NotServe);
    }
    let header = chars_of(PROTOCOL_HEADER);
    assert(header@ == header_chars());
    assert(lv[0] =~= lines@[0]@);
    if !crate::cli::chars_equal(lines[0].as_slice(), header.as_slice()) {
        return Err(ServeError::NotServe);
    }
    let mut report = ServeReport::new();
    let mut progress: Vec<u64> = Vec::new();
    let mut k: usize = 1;
    proof {
        assert(lv.drop_first().skip(0) =~= lv.drop_first());
    }
    while k < lines.len()
        invariant_except_break
            consume(empty_report(), Seq::empty(), lv.drop_first()) == consume(
                report@,
                progress@,
                lv.skip(k as int),
            ),
        invariant
            lv == lines.deep_view(),
            1 <= k <= lines@.len(),
        ensures
            consume(empty_report(), Seq::empty(), lv.drop_first()) == (report@, progress@),
        decreases lines@.len() - k,
    {
        assert(lv[k as int] =~= lines@[k as int]@);
        assert(lv.skip(k as int)[0] == lv[k as int]);
        assert(lv.skip(k as int).drop_first() =~= lv.skip(k + 1));
        match report.apply(lines[k].as_slice()) {
            ServeLine::Progress(n) => {
                progress.push(n);
            },
            ServeLine::Finished => {
                break ;
            },
            _ => {},
        }
        k = k + 1;
        if k == lines.len() {
            assert(lv.skip(k as int) =~= Seq::<Seq<char>>::empty());
        }
    }
    proof {
        if k == lines.len() {
            assert(lv.skip(k as int) =~= Seq::<Seq<char>>::empty());
        }
    }
    Ok((report, progress))
}

/// One record: a tag, a space, and the rest.
pub open spec fn record(tag: Seq<char>, rest: Seq<char>) -> Seq<char> {
    tag + seq![' '] + rest
}

/// The `S` records of the notes.
pub open spec fn note_records(notes: Seq<Seq<char>>) -> Seq<Seq<char>> {
    notes.map_values(|n: Seq<char>| record(seq!['S'], escape_spec(n)))
}

/// The `R` record of a listed child.
pub open spec fn row_record(c: RowSpec) -> Seq<char> {
    record(seq!['R'], decimal(c.size as nat) + seq![' '] + escape_spec(utf8_lossy(c.path)))
}

/// The `G` record of a group and the `R` records of its children.
pub open spec fn group_records(g: GroupSpec) -> Seq<Seq<char>> {
    seq![record(seq!['G'], decimal(g.total as nat) + seq![' '] + escape_spec(utf8_lossy(g.root)))]
        + g.children.map_values(|c: RowSpec| row_record(c))
}

/// The records of all groups, in order.
pub open spec fn groups_records(gs: Seq<GroupSpec>) -> Seq<Seq<char>>
    decreases gs.len(),
{
    if gs.len() == 0 {
        Seq::empty()
    } else {
        groups_records(gs.drop_last()) + group_records(gs.last())
    }
}

/// What the serving side writes once its scan is done: `D`, `W` only when
/// directories could not be read, one `S` per note, `T`, the groups, `OK`.
pub open spec fn report_lines(
    items: u64,
    duration_ms: nat,
    unreadable: u64,
    notes: Seq<Seq<char>>,
    summary: SummarySpec,
) -> Seq<Seq<char>> {
    seq![record(seq!['D'], decimal(items as nat) + seq![' '] + decimal(duration_ms))] + (
    if unreadable > 0 {
        seq![record(seq!['W'], decimal(unreadable as nat))]
    } else {
        Seq::empty()
    }) + note_records(notes) + seq![record(seq!['T'], decimal(summary.total as nat))]
        + groups_records(summary.groups) + seq![seq!['O', 'K']]
}

/// Lines, each followed by `\n`.
pub open spec fn terminated(lines: Seq<Seq<char>>) -> Seq<char>
    decreases lines.len(),
{
    if lines.len() == 0 {
        Seq::empty()
    } else {
        terminated(lines.drop_last()) + lines.last() + seq!['\n']
    }
}

/// Appends `tag`, a space and `rest`, then `\n`.
fn push_record(out: &mut Vec<char>, tag: char, rest: &Vec<char>)
    ensures
        final(out)@ == old(out)@ + record(seq![tag], rest@) + seq!['\n'],
{
    out.push(tag);
    out.push(' ');
    extend_chars(out, rest.as_slice());
    out.push('\n');
    assert(final(out)@ =~= old(out)@ + record(seq![tag], rest@) + seq!['\n']);
}

/// `n`, a space, and the escaped text of `label`.
fn number_then_label(n: u64, label: &Vec<u8>) -> (v: Vec<char>)
    ensures
        v@ == decimal(n as nat) + seq![' '] + escape_spec(utf8_lossy(label@)),
{
    let mut v: Vec<char> = Vec::new();
    push_decimal(&mut v, n);
    v.push(' ');
    let text = lossy_text(label.as_slice());
    let e = escape_chars(&chars_of(text.as_str()));
    extend_chars(&mut v, e.as_slice());
    assert(v@ =~= decimal(n as nat) + seq![' '] + escape_spec(utf8_lossy(label@)));
    v
}

/// The UTF-8 encoding of `text`.
fn encoded(text: &Vec<char>) -> (b: Vec<u8>)
    ensures
        b@ == vstd::utf8::encode_utf8(text@),
{
    let s = string_of(text);
    vstd::slice::slice_to_vec(s.as_str().as_bytes())
}

/// Appending one more terminated line.
proof fn lemma_terminated_push(lines: Seq<Seq<char>>, l: Seq<char>)
    ensures
        terminated(lines.push(l)) == terminated(lines) + l + seq!['\n'],
{
    assert(lines.push(l).drop_last() =~= lines);
}

/// Terminating a concatenation.
pub proof fn lemma_terminated_append(a: Seq<Seq<char>>, b: Seq<Seq<char>>)
    ensures
        terminated(a + b) == terminated(a) + terminated(b),
    decreases b.len(),
{
    if b.len() == 0 {
        assert(a + b =~= a);
        assert(terminated(a) + terminated(b) =~= terminated(a));
    } else {
        lemma_terminated_append(a, b.drop_last());
        assert((a + b).drop_last() =~= a + b.drop_last());
        assert(terminated(a) + terminated(b) =~= terminated(a) + terminated(b.drop_last())
            + b.last() + seq!['\n']);
    }
}

/// The progress line the serving side writes while it scans.
pub fn progress_text(items: u64) -> (text: String)
    ensures
        text@ == terminated(seq![record(seq!['P'], decimal(items as nat))]),
{
    let mut out: Vec<char> = Vec::new();
    let mut n: Vec<char> = Vec::new();
    push_decimal(&mut n, items);
    push_record(&mut out, 'P', &n);
    proof {
        let l = record(seq!['P'], decimal(items as nat));
        lemma_terminated_push(Seq::empty(), l);
        assert(Seq::<Seq<char>>::empty().push(l) =~= seq![l]);
        assert(terminated(Seq::<Seq<char>>::empty()) =~= Seq::<char>::empty());
        assert(n@ =~= decimal(items as nat));
        assert(out@ =~= terminated(seq![l]));
    }
    string_of(&out)
}

/// The text the serving side writes once its scan is done.
pub fn serve_report_text(
    items: u64,
    duration_ms: u128,
    unreadable: u64,
    notes: &Vec<String>,
    summary: &TreeSummary,
) -> (text: String)
    ensures
        text@ == terminated(
            report_lines(
                items,
                duration_ms as nat,
                unreadable,
                notes@.map_values(|n: String| n@),
                summary@,
            ),
        ),
{
    let ghost nv = notes@.map_values(|n: String| n@);
    let ghost sv = summary@;
    let mut out: Vec<char> = Vec::new();
    let mut d: Vec<char> = Vec::new();
    push_decimal(&mut d, items);
    d.push(' ');
    push_decimal_u128(&mut d, duration_ms);
    push_record(&mut out, 'D', &d);
    let ghost first = seq![record(seq!['D'], decimal(items as nat) + seq![' '] + decimal(duration_ms as nat))];
    proof {
        assert(d@ =~= decimal(items as nat) + seq![' '] + decimal(duration_ms as nat));
        lemma_terminated_push(Seq::empty(), first[0]);
        assert(Seq::<Seq<char>>::empty().push(first[0]) =~= first);
    }
    let ghost mut done: Seq<Seq<char>> = first;
    if unreadable > 0 {
        let mut w: Vec<char> = Vec::new();
        push_decimal(&mut w, unreadable);
        push_record(&mut out, 'W', &w);
        proof {
            assert(w@ =~= decimal(unreadable as nat));
            lemma_terminated_push(done, record(seq!['W'], decimal(unreadable as nat)));
            done = done.push(record(seq!['W'], decimal(unreadable as nat)));
        }
    }
    assert(done =~= first + (if unreadable > 0 {
        seq![record(seq!['W'], decimal(unreadable as nat))]
    } else {
        Seq::empty()
    }));
    let ghost before_notes = done;
    let mut i: usize = 0;
    while i < notes.len()
        invariant
            nv == notes@.map_values(|n: String| n@),
            i <= notes@.len(),
            done == before_notes + note_records(nv.take(i as int)),
            out@ == terminated(done),
        decreases notes@.len() - i,
    {
        let e = escape_chars(&chars_of(notes[i].as_str()));
        push_record(&mut out, 'S', &e);
        proof {
            let r = record(seq!['S'], escape_spec(nv[i as int]));
            lemma_terminated_push(done, r);
            done = done.push(r);
            assert(note_records(nv.take(i + 1)) =~= note_records(nv.take(i as int)).push(r));
        }
        i = i + 1;
    }
    assert(nv.take(i as int) =~= nv);
    let mut t: Vec<char> = Vec::new();
    push_decimal(&mut t, summary.total_size);
    push_record(&mut out, 'T', &t);
    proof {
        assert(t@ =~= decimal(summary.total_size as nat));
        lemma_terminated_push(done, record(seq!['T'], decimal(summary.total_size as nat)));
        done = done.push(record(seq!['T'], decimal(summary.total_size as nat)));
    }
    let ghost before_groups = done;
    let ghost gv = summary@.groups;
    let mut g: usize = 0;
    while g < summary.groups.len()
        invariant
            gv == summary@.groups,
            g <= summary.groups@.len(),
            done == before_groups + groups_records(gv.take(g as int)),
            out@ == terminated(done),
        decreases summary.groups@.len() - g,
    {
        let group = &summary.groups[g];
        let gl = number_then_label(group.total_size, &group.root);
        push_record(&mut out, 'G', &gl);
        let ghost gs = group@;
        proof {
            let r = record(
                seq!['G'],
                decimal(gs.total as nat) + seq![' '] + escape_spec(utf8_lossy(gs.root)),
            );
            lemma_terminated_push(done, r);
            done = done.push(r);
        }
        let ghost mid = done;
        let mut c: usize = 0;
        while c < group.children.len()
            invariant
                gs == group@,
                c <= group.children@.len(),
                done == mid + gs.children.take(c as int).map_values(|x: RowSpec| row_record(x)),
                out@ == terminated(done),
            decreases group.children@.len() - c,
        {
            let child = &group.children[c];
            let cl = number_then_label(child.size, &child.relative_path);
            push_record(&mut out, 'R', &cl);
            proof {
                assert(gs.children[c as int] == child@);
                let r = row_record(child@);
                lemma_terminated_push(done, r);
                done = done.push(r);
                assert(gs.children.take(c + 1).map_values(|x: RowSpec| row_record(x)) =~= gs.children.take(
                    c as int,
                ).map_values(|x: RowSpec| row_record(x)).push(r));
            }
            c = c + 1;
        }
        proof {
            assert(gs.children.take(c as int) =~= gs.children);
            assert(gv.take(g + 1).drop_last() =~= gv.take(g as int));
            assert(gv.take(g + 1).last() == gs);
            assert(done =~= before_groups + groups_records(gv.take(g + 1)));
        }
        g = g + 1;
    }
    assert(gv.take(g as int) =~= gv);
    let ok = chars_of("OK");
    proof {
        reveal_strlit("OK");
    }
    extend_chars(&mut out, ok.as_slice());
    out.push('\n');
    proof {
        lemma_terminated_push(done, seq!['O', 'K']);
        assert(ok@ =~= seq!['O', 'K']);
        done = done.push(seq!['O', 'K']);
        assert(out@ =~= terminated(done));
        assert(done =~= report_lines(items, duration_ms as nat, unreadable, nv, sv));
    }
    string_of(&out)
}

} // verus!
