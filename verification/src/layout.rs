//! Text layout of a summary: a two-column table of labels and sizes.

use vstd::prelude::*;

use crate::size::{format_size, size_text, SizeUnits};
use crate::summary::{DirectoryGroup, GroupSpec, RowSpec, SummarySpec, TreeSummary};
use crate::text::{chars_of, extend_chars, lossy_text, string_of, utf8_lossy};
use vstd::string::StrSliceExecFns;
use vstd::string::StringExecFns;

verus! {

/// Length in bytes of the UTF-8 encoding of `s` (what `str::len` returns).
pub open spec fn byte_len(s: Seq<char>) -> int {
    vstd::utf8::encode_utf8(s).len() as int
}

/// `"- "` followed by a child's path: how a listed descendant is labelled.
pub open spec fn child_label(path: Seq<char>) -> Seq<char> {
    seq!['-', ' '] + path
}

/// `n` spaces (none when `n <= 0`).
pub open spec fn spaces(n: int) -> Seq<char> {
    Seq::new(if n > 0 { n as nat } else { 0 }, |i: int| ' ')
}

/// `s` left-aligned in a field of `w` characters.
pub open spec fn pad_right(s: Seq<char>, w: int) -> Seq<char> {
    s + spaces(w - s.len())
}

/// `s` right-aligned in a field of `w` characters.
pub open spec fn pad_left(s: Seq<char>, w: int) -> Seq<char> {
    spaces(w - s.len()) + s
}

/// Larger of two integers.
pub open spec fn max_int(a: int, b: int) -> int {
    if a >= b {
        a
    } else {
        b
    }
}

/// Widest byte length among the child labels of `rows`.
pub open spec fn rows_label_width(rows: Seq<RowSpec>) -> int
    decreases rows.len(),
{
    if rows.len() == 0 {
        0
    } else {
        max_int(rows_label_width(rows.drop_last()), byte_len(child_label(utf8_lossy(rows.last().path))))
    }
}

/// Widest byte length among group names and child labels.
pub open spec fn column_width(groups: Seq<GroupSpec>) -> int
    decreases groups.len(),
{
    if groups.len() == 0 {
        0
    } else {
        max_int(
            column_width(groups.drop_last()),
            max_int(byte_len(utf8_lossy(groups.last().root)), rows_label_width(groups.last().children)),
        )
    }
}

/// Widest size text among `rows`.
pub open spec fn rows_size_width(rows: Seq<RowSpec>, units: SizeUnits) -> int
    decreases rows.len(),
{
    if rows.len() == 0 {
        0
    } else {
        max_int(rows_size_width(rows.drop_last(), units), size_text(rows.last().size, units).len() as int)
    }
}

/// Widest size text among groups and their children.
pub open spec fn size_width(groups: Seq<GroupSpec>, units: SizeUnits) -> int
    decreases groups.len(),
{
    if groups.len() == 0 {
        0
    } else {
        max_int(
            size_width(groups.drop_last(), units),
            max_int(
                size_text(groups.last().total, units).len() as int,
                rows_size_width(groups.last().children, units),
            ),
        )
    }
}

/// One table row: the label left-aligned in `path_width`, a space, the size
/// right-aligned in `size_width`.
pub open spec fn row_text(
    label: Seq<char>,
    size: u64,
    path_width: int,
    size_width: int,
    units: SizeUnits,
) -> Seq<char> {
    pad_right(label, path_width) + seq![' '] + pad_left(size_text(size, units), size_width)
}

/// The lines of one group: its own row, then one row per child.
pub open spec fn group_lines(g: GroupSpec, pw: int, sw: int, units: SizeUnits) -> Seq<Seq<char>> {
    seq![row_text(utf8_lossy(g.root), g.total, pw, sw, units)] + g.children.map_values(
        |r: RowSpec| row_text(child_label(utf8_lossy(r.path)), r.size, pw, sw, units),
    )
}

/// The lines of the groups, with an empty line between consecutive groups.
pub open spec fn groups_lines(groups: Seq<GroupSpec>, pw: int, sw: int, units: SizeUnits) -> Seq<
    Seq<char>,
>
    decreases groups.len(),
{
    if groups.len() == 0 {
        Seq::empty()
    } else if groups.len() == 1 {
        group_lines(groups[0], pw, sw, units)
    } else {
        groups_lines(groups.drop_last(), pw, sw, units) + seq![Seq::<char>::empty()] + group_lines(
            groups.last(),
            pw,
            sw,
            units,
        )
    }
}

/// Characters of `"Total"`.
pub open spec fn total_label() -> Seq<char> {
    seq!['T', 'o', 't', 'a', 'l']
}

/// Lines joined with `'\n'` between them.
pub open spec fn join_lines(lines: Seq<Seq<char>>) -> Seq<char>
    decreases lines.len(),
{
    if lines.len() == 0 {
        Seq::empty()
    } else if lines.len() == 1 {
        lines[0]
    } else {
        join_lines(lines.drop_last()) + seq!['\n'] + lines.last()
    }
}

/// The whole table: the groups, an empty line, and the total row; the
/// label column is as wide as the widest label (at least `"Total"`), the
/// size column as wide as the widest size text.
pub open spec fn tree_output(summary: SummarySpec, units: SizeUnits) -> Seq<char> {
    join_lines(tree_output_lines(summary, units))
}

/// The lines of the whole table, before they are joined.
pub open spec fn tree_output_lines(summary: SummarySpec, units: SizeUnits) -> Seq<Seq<char>> {
    let pw = max_int(column_width(summary.groups), 5);
    let sw = max_int(size_width(summary.groups, units), size_text(summary.total, units).len() as int);
    groups_lines(summary.groups, pw, sw, units) + seq![
        Seq::<char>::empty(),
        row_text(total_label(), summary.total, pw, sw, units),
    ]
}

/// Widest size text among groups and their children.
pub fn calculate_size_width(groups: &[DirectoryGroup], units: SizeUnits) -> (width: usize)
    ensures
        width == size_width(groups@.map_values(|g: DirectoryGroup| g@), units),
{
    let ghost gv = groups@.map_values(|g: DirectoryGroup| g@);
    let mut width: usize = 0;
    let mut i: usize = 0;
    while i < groups.len()
        invariant
            gv == groups@.map_values(|g: DirectoryGroup| g@),
            i <= groups@.len(),
            width == size_width(gv.take(i as int), units),
        decreases groups@.len() - i,
    {
        let group = &groups[i];
        proof {
            assert(gv.take(i + 1).drop_last() =~= gv.take(i as int));
            assert(gv.take(i + 1).last() == group@);
        }
        let mut rw: usize = 0;
        let mut j: usize = 0;
        let ghost rv = group@.children;
        while j < group.children.len()
            invariant
                rv == group@.children,
                rv.len() == group.children@.len(),
                forall|k: int| 0 <= k < rv.len() ==> #[trigger] rv[k] == group.children@[k]@,
                j <= rv.len(),
                rw == rows_size_width(rv.take(j as int), units),
            decreases rv.len() - j,
        {
            let child = &group.children[j];
            proof {
                assert(rv.take(j + 1).drop_last() =~= rv.take(j as int));
            }
            let l = format_size(child.size, units).as_str().unicode_len();
            rw = max_usize(rw, l);
            j = j + 1;
        }
        assert(rv.take(j as int) =~= rv);
        let own = format_size(group.total_size, units).as_str().unicode_len();
        width = max_usize(width, max_usize(own, rw));
        i = i + 1;
    }
    assert(gv.take(i as int) =~= gv);
    width
}

/// Appends `n` spaces (none when `n <= 0`).
fn push_spaces(out: &mut Vec<char>, n: usize)
    ensures
        final(out)@ == old(out)@ + spaces(n as int),
{
    let mut k: usize = 0;
    while k < n
        invariant
            k <= n,
            out@ == old(out)@ + spaces(k as int),
        decreases n - k,
    {
        out.push(' ');
        k = k + 1;
        assert(old(out)@ + spaces(k as int) =~= (old(out)@ + spaces(k - 1)).push(' '));
    }
}

/// `row_text` as characters.
fn row_chars(label: &Vec<char>, size: u64, path_width: usize, size_width: usize, units: SizeUnits) -> (row: Vec<char>)
    ensures
        row@ == row_text(label@, size, path_width as int, size_width as int, units),
{
    let mut out: Vec<char> = Vec::new();
    extend_chars(&mut out, label.as_slice());
    let pad = if path_width > label.len() { path_width - label.len() } else { 0 };
    push_spaces(&mut out, pad);
    out.push(' ');
    let size_str = chars_of(format_size(size, units).as_str());
    let pad2 = if size_width > size_str.len() { size_width - size_str.len() } else { 0 };
    push_spaces(&mut out, pad2);
    extend_chars(&mut out, size_str.as_slice());
    assert(spaces(pad as int) =~= spaces(path_width - label@.len()));
    assert(spaces(pad2 as int) =~= spaces(size_width - size_str@.len()));
    assert(out@ =~= row_text(label@, size, path_width as int, size_width as int, units));
    out
}

/// One table row: `label` left-aligned in `path_width` characters, a
/// space, and the size right-aligned in `size_width` characters.
pub fn format_row(label: &str, size: u64, path_width: usize, size_width: usize, units: SizeUnits) -> (row: String)
    ensures
        row@ == row_text(label@, size, path_width as int, size_width as int, units),
{
    let chars = chars_of(label);
    string_of(&row_chars(&chars, size, path_width, size_width, units))
}

/// `"- "` followed by the text of `path`.
fn child_label_chars(path: &Vec<u8>) -> (label: Vec<char>)
    ensures
        label@ == child_label(utf8_lossy(path@)),
{
    let mut out: Vec<char> = Vec::new();
    out.push('-');
    out.push(' ');
    let text = lossy_text(path.as_slice());
    let p = chars_of(text.as_str());
    extend_chars(&mut out, p.as_slice());
    assert(out@ =~= child_label(utf8_lossy(path@)));
    out
}

/// The text of `bytes` and the length in bytes of its UTF-8 encoding.
fn shown_text(bytes: &Vec<u8>) -> (r: (Vec<char>, usize))
    ensures
        r.0@ == utf8_lossy(bytes@),
        r.1 == byte_len(utf8_lossy(bytes@)),
{
    let text = lossy_text(bytes.as_slice());
    let len = text.as_str().as_bytes().len();
    (chars_of(text.as_str()), len)
}

/// Lines joined with `'\n'` between them.
fn join_line_chars(lines: &Vec<Vec<char>>) -> (text: Vec<char>)
    ensures
        text@ == join_lines(lines.deep_view()),
{
    let ghost lv = lines.deep_view();
    let mut out: Vec<char> = Vec::new();
    let mut i: usize = 0;
    while i < lines.len()
        invariant
            lv == lines.deep_view(),
            i <= lines@.len(),
            out@ == join_lines(lv.take(i as int)),
        decreases lines@.len() - i,
    {
        assert(lv[i as int] =~= lines@[i as int]@);
        assert(lv.take(i + 1).drop_last() =~= lv.take(i as int));
        if i > 0 {
            out.push('\n');
        } else {
            assert(lv.take(0) =~= Seq::<Seq<char>>::empty());
        }
        extend_chars(&mut out, lines[i].as_slice());
        i = i + 1;
    }
    assert(lv.take(i as int) =~= lv);
    out
}

/// Appends one line.
fn push_line(lines: &mut Vec<Vec<char>>, line: Vec<char>)
    ensures
        final(lines).deep_view() == old(lines).deep_view().push(line@),
{
    let ghost l = line@;
    assert(line.deep_view() =~= l);
    lines.push(line);
    assert(lines.deep_view() =~= old(lines).deep_view().push(l));
}

/// The table of a summary: one row per group and per listed child, an
/// empty line between groups, then an empty line and the `Total` row.
/// Names and paths are shown as the text of their bytes, each invalid
/// UTF-8 sequence replaced by U+FFFD.
pub fn format_tree_output(summary: &TreeSummary, units: SizeUnits) -> (text: String)
    ensures
        text@ == tree_output(summary@, units),
{
    let groups = summary.groups.as_slice();
    let ghost gv = summary@.groups;
    assert(groups@.map_values(|g: DirectoryGroup| g@) =~= gv);
    let path_width = max_usize(calculate_column_width(groups), 5);
    let size_width = max_usize(
        calculate_size_width(groups, units),
        format_size(summary.total_size, units).as_str().unicode_len(),
    );
    let mut lines: Vec<Vec<char>> = Vec::new();
    let mut index: usize = 0;
    while index < groups.len()
        invariant
            gv == summary@.groups,
            gv =~= groups@.map_values(|g: DirectoryGroup| g@),
            index <= groups@.len(),
            lines.deep_view() == groups_lines(
                gv.take(index as int),
                path_width as int,
                size_width as int,
                units,
            ),
        decreases groups@.len() - index,
    {
        let group = &groups[index];
        let ghost before = lines.deep_view();
        let ghost gl = group_lines(group@, path_width as int, size_width as int, units);
        if index > 0 {
            push_line(&mut lines, Vec::new());
        }
        let ghost mid = lines.deep_view();
        let (root, _) = shown_text(&group.root);
        push_line(&mut lines, row_chars(&root, group.total_size, path_width, size_width, units));
        assert(gl.take(1) =~= seq![gl[0]]);
        let mut j: usize = 0;
        while j < group.children.len()
            invariant
                j <= group.children@.len(),
                lines.deep_view() == mid + gl.take(j + 1),
                gl == group_lines(group@, path_width as int, size_width as int, units),
                gl.len() == group.children@.len() + 1,
            decreases group.children@.len() - j,
        {
            let child = &group.children[j];
            let label = child_label_chars(&child.relative_path);
            assert(group@.children[j as int] == child@);
            assert(gl[j + 1] == row_text(
                child_label(utf8_lossy(child.relative_path@)),
                child.size,
                path_width as int,
                size_width as int,
                units,
            ));
            push_line(&mut lines, row_chars(&label, child.size, path_width, size_width, units));
            j = j + 1;
            assert(gl.take(j + 1) =~= gl.take(j as int).push(gl[j as int]));
            assert(lines.deep_view() =~= mid + gl.take(j + 1));
        }
        assert(gl.take(j + 1) =~= gl);
        index = index + 1;
        proof {
            let t = gv.take(index as int);
            assert(t.drop_last() =~= gv.take(index - 1));
            assert(t.last() == group@);
            if index == 1 {
                assert(before =~= Seq::<Seq<char>>::empty());
                assert(lines.deep_view() =~= groups_lines(t, path_width as int, size_width as int, units));
            } else {
                assert(lines.deep_view() =~= groups_lines(t, path_width as int, size_width as int, units));
            }
        }
    }
    assert(gv.take(index as int) =~= gv);
    let ghost gl_all = lines.deep_view();
    push_line(&mut lines, Vec::new());
    let total_chars = chars_of("Total");
    proof {
        reveal_strlit("Total");
    }
    assert(total_chars@ =~= total_label());
    push_line(&mut lines, row_chars(&total_chars, summary.total_size, path_width, size_width, units));
    assert(lines.deep_view() =~= gl_all + seq![
        Seq::<char>::empty(),
        row_text(total_label(), summary.total_size, path_width as int, size_width as int, units),
    ]);
    string_of(&join_line_chars(&lines))
}

/// Widest byte length among the group names.
pub open spec fn roots_width(groups: Seq<GroupSpec>) -> int
    decreases groups.len(),
{
    if groups.len() == 0 {
        0
    } else {
        max_int(roots_width(groups.drop_last()), byte_len(utf8_lossy(groups.last().root)))
    }
}

/// Widest size text among the group totals.
pub open spec fn totals_width(groups: Seq<GroupSpec>, units: SizeUnits) -> int
    decreases groups.len(),
{
    if groups.len() == 0 {
        0
    } else {
        max_int(totals_width(groups.drop_last(), units), size_text(groups.last().total, units).len() as int)
    }
}

/// One row of the summary table: the label left-aligned in `pw`, three
/// spaces, the size text right-aligned in `sw`.
pub open spec fn table_row(label: Seq<char>, size: Seq<char>, pw: int, sw: int) -> Seq<char> {
    pad_right(label, pw) + seq![' ', ' ', ' '] + pad_left(size, sw)
}

/// The compact table: a `Folder`/`Size` header, one row per group, and the
/// `Total` row; the label column is as wide as the widest group name (at
/// least `Folder`), the size column as wide as the widest size (at least
/// `Size`).
pub open spec fn summary_table(summary: SummarySpec, units: SizeUnits) -> Seq<char> {
    join_lines(summary_table_lines(summary, units))
}

/// The lines of the compact table, before they are joined.
pub open spec fn summary_table_lines(summary: SummarySpec, units: SizeUnits) -> Seq<Seq<char>> {
    let pw = max_int(roots_width(summary.groups), 6);
    let sw = max_int(
        max_int(totals_width(summary.groups, units), size_text(summary.total, units).len() as int),
        4,
    );
    seq![table_row("Folder"@, "Size"@, pw, sw)] + summary.groups.map_values(
        |g: GroupSpec| table_row(utf8_lossy(g.root), size_text(g.total, units), pw, sw),
    ) + seq![table_row(total_label(), size_text(summary.total, units), pw, sw)]
}

/// `table_row` as characters.
fn table_row_chars(label: &Vec<char>, size: &Vec<char>, pw: usize, sw: usize) -> (row: Vec<char>)
    ensures
        row@ == table_row(label@, size@, pw as int, sw as int),
{
    let mut out: Vec<char> = Vec::new();
    extend_chars(&mut out, label.as_slice());
    let pad = if pw > label.len() { pw - label.len() } else { 0 };
    push_spaces(&mut out, pad);
    out.push(' ');
    out.push(' ');
    out.push(' ');
    let pad2 = if sw > size.len() { sw - size.len() } else { 0 };
    push_spaces(&mut out, pad2);
    extend_chars(&mut out, size.as_slice());
    assert(spaces(pad as int) =~= spaces(pw - label@.len()));
    assert(spaces(pad2 as int) =~= spaces(sw - size@.len()));
    assert(out@ =~= table_row(label@, size@, pw as int, sw as int));
    out
}

/// The compact table of a summary: a `Folder`/`Size` header, one row per
/// group, and the `Total` row.
pub fn format_summary_table(summary: &TreeSummary, units: SizeUnits) -> (text: String)
    ensures
        text@ == summary_table(summary@, units),
{
    let groups = summary.groups.as_slice();
    let ghost gv = summary@.groups;
    let mut pw: usize = 6;
    let mut sw: usize = max_usize(format_size(summary.total_size, units).as_str().unicode_len(), 4);
    let mut i: usize = 0;
    while i < groups.len()
        invariant
            gv == summary@.groups,
            gv =~= groups@.map_values(|g: DirectoryGroup| g@),
            i <= groups@.len(),
            pw == max_int(roots_width(gv.take(i as int)), 6),
            sw == max_int(
                max_int(
                    totals_width(gv.take(i as int), units),
                    size_text(summary.total_size, units).len() as int,
                ),
                4,
            ),
        decreases groups@.len() - i,
    {
        let group = &groups[i];
        proof {
            assert(gv.take(i + 1).drop_last() =~= gv.take(i as int));
            assert(gv.take(i + 1).last() == group@);
        }
        let (_, root_len) = shown_text(&group.root);
        proof {
            assert(gv[i as int] == group@);
            assert(root_len == byte_len(utf8_lossy(group@.root)));
            let a = roots_width(gv.take(i as int));
            assert(max_int(max_int(a, 6), root_len as int) == max_int(max_int(a, root_len as int), 6));
        }
        pw = max_usize(pw, root_len);
        sw = max_usize(sw, format_size(group.total_size, units).as_str().unicode_len());
        i = i + 1;
    }
    assert(gv.take(i as int) =~= gv);
    let mut lines: Vec<Vec<char>> = Vec::new();
    let folder = chars_of("Folder");
    let size_head = chars_of("Size");
    push_line(&mut lines, table_row_chars(&folder, &size_head, pw, sw));
    let ghost head = lines.deep_view();
    let mut j: usize = 0;
    while j < groups.len()
        invariant
            gv == summary@.groups,
            gv =~= groups@.map_values(|g: DirectoryGroup| g@),
            j <= groups@.len(),
            lines.deep_view() == head + gv.take(j as int).map_values(
                |g: GroupSpec| table_row(utf8_lossy(g.root), size_text(g.total, units), pw as int, sw as int),
            ),
        decreases groups@.len() - j,
    {
        let group = &groups[j];
        let (root, _) = shown_text(&group.root);
        let size = chars_of(format_size(group.total_size, units).as_str());
        push_line(&mut lines, table_row_chars(&root, &size, pw, sw));
        proof {
            assert(gv[j as int] == group@);
            assert(gv.take(j + 1).map_values(
                |g: GroupSpec| table_row(utf8_lossy(g.root), size_text(g.total, units), pw as int, sw as int),
            ) =~= gv.take(j as int).map_values(
                |g: GroupSpec| table_row(utf8_lossy(g.root), size_text(g.total, units), pw as int, sw as int),
            ).push(table_row(utf8_lossy(group@.root), size_text(group@.total, units), pw as int, sw as int)));
        }
        j = j + 1;
    }
    assert(gv.take(j as int) =~= gv);
    let total = chars_of("Total");
    proof {
        reveal_strlit("Total");
    }
    assert(total@ =~= total_label());
    let total_size = chars_of(format_size(summary.total_size, units).as_str());
    let ghost before_total = lines.deep_view();
    push_line(&mut lines, table_row_chars(&total, &total_size, pw, sw));
    assert(lines.deep_view() =~= seq![table_row("Folder"@, "Size"@, pw as int, sw as int)]
        + gv.map_values(
        |g: GroupSpec| table_row(utf8_lossy(g.root), size_text(g.total, units), pw as int, sw as int),
    ) + seq![table_row(total_label(), size_text(summary.total_size, units), pw as int, sw as int)]);
    string_of(&join_line_chars(&lines))
}

/// What is shown of a local scan: its compact table, or a line saying
/// that there was no directory to show.
pub fn table_display(summary: &TreeSummary, units: SizeUnits) -> (text: String)
    ensures
        text@ == (if summary@.groups.len() == 0 {
            "No child directories found."@
        } else {
            summary_table(summary@, units)
        }),
{
    if summary.groups.len() == 0 {
        String::from_str("No child directories found.")
    } else {
        format_summary_table(summary, units)
    }
}

/// What is shown of a summary: its table, or a line saying that there was
/// no directory to show.
pub fn summary_display(summary: &TreeSummary, units: SizeUnits) -> (text: String)
    ensures
        text@ == (if summary@.groups.len() == 0 {
            "No child directories found."@
        } else {
            tree_output(summary@, units)
        }),
{
    if summary.groups.len() == 0 {
        String::from_str("No child directories found.")
    } else {
        format_tree_output(summary, units)
    }
}

/// Every character takes at least one byte.
pub proof fn lemma_byte_len_at_least(s: Seq<char>)
    ensures
        byte_len(s) >= s.len(),
    decreases s.len(),
{
    if s.len() > 0 {
        lemma_byte_len_at_least(s.drop_first());
    }
}

/// A row whose label and size text fit their columns is exactly as long
/// as the two columns and the space between them.
proof fn lemma_row_text_len(label: Seq<char>, size: u64, pw: int, sw: int, units: SizeUnits)
    requires
        label.len() <= pw,
        size_text(size, units).len() <= sw,
    ensures
        row_text(label, size, pw, sw, units).len() == pw + 1 + sw,
{
}

/// A compact-table row whose label and size text fit their columns is
/// exactly as long as the two columns and the three spaces between them.
proof fn lemma_table_row_len(label: Seq<char>, size: Seq<char>, pw: int, sw: int)
    requires
        label.len() <= pw,
        size.len() <= sw,
    ensures
        table_row(label, size, pw, sw).len() == pw + 3 + sw,
{
}

/// The size width of some rows covers the size text of each of them.
pub proof fn lemma_rows_size_width_covers(rows: Seq<RowSpec>, units: SizeUnits)
    ensures
        forall|c: int|
            0 <= c < rows.len() ==> size_text(#[trigger] rows[c].size, units).len()
                <= rows_size_width(rows, units),
    decreases rows.len(),
{
    if rows.len() > 0 {
        lemma_rows_size_width_covers(rows.drop_last(), units);
        assert forall|c: int| 0 <= c < rows.len() implies size_text(#[trigger] rows[c].size, units).len()
            <= rows_size_width(rows, units) by {
            if c < rows.len() - 1 {
                assert(rows[c] == rows.drop_last()[c]);
            }
        }
    }
}

/// The size column of the detailed table is at least as wide as the size
/// text of every group total and of every listed child.
pub proof fn lemma_size_width_covers(groups: Seq<GroupSpec>, units: SizeUnits)
    ensures
        forall|g: int|
            0 <= g < groups.len() ==> size_text((#[trigger] groups[g]).total, units).len()
                <= size_width(groups, units) && forall|c: int|
                0 <= c < groups[g].children.len() ==> size_text(
                    (#[trigger] groups[g].children[c]).size,
                    units,
                ).len() <= size_width(groups, units),
    decreases groups.len(),
{
    if groups.len() > 0 {
        let init = groups.drop_last();
        lemma_size_width_covers(init, units);
        lemma_rows_size_width_covers(groups.last().children, units);
        assert forall|g: int| 0 <= g < groups.len() implies size_text((#[trigger] groups[g]).total, units).len()
            <= size_width(groups, units) && forall|c: int|
            0 <= c < groups[g].children.len() ==> size_text(
                (#[trigger] groups[g].children[c]).size,
                units,
            ).len() <= size_width(groups, units) by {
            if g < groups.len() - 1 {
                assert(groups[g] == init[g]);
            }
        }
    }
}

/// The label width of some rows covers the byte length of each child label.
proof fn lemma_rows_label_width_covers(rows: Seq<RowSpec>)
    ensures
        forall|c: int|
            0 <= c < rows.len() ==> byte_len(child_label(utf8_lossy((#[trigger] rows[c]).path)))
                <= rows_label_width(rows),
    decreases rows.len(),
{
    if rows.len() > 0 {
        lemma_rows_label_width_covers(rows.drop_last());
        assert forall|c: int| 0 <= c < rows.len() implies byte_len(
            child_label(utf8_lossy((#[trigger] rows[c]).path)),
        ) <= rows_label_width(rows) by {
            if c < rows.len() - 1 {
                assert(rows[c] == rows.drop_last()[c]);
            }
        }
    }
}

/// The label column of the detailed table is at least as wide, in bytes,
/// as every group name and every child label.
pub proof fn lemma_column_width_covers(groups: Seq<GroupSpec>)
    ensures
        forall|g: int|
            0 <= g < groups.len() ==> byte_len(utf8_lossy((#[trigger] groups[g]).root)) <= column_width(
                groups,
            ) && forall|c: int|
                0 <= c < groups[g].children.len() ==> byte_len(
                    child_label(utf8_lossy((#[trigger] groups[g].children[c]).path)),
                ) <= column_width(groups),
    decreases groups.len(),
{
    if groups.len() > 0 {
        let init = groups.drop_last();
        lemma_column_width_covers(init);
        lemma_rows_label_width_covers(groups.last().children);
        assert forall|g: int| 0 <= g < groups.len() implies byte_len(
            utf8_lossy((#[trigger] groups[g]).root),
        ) <= column_width(groups) && forall|c: int|
            0 <= c < groups[g].children.len() ==> byte_len(
                child_label(utf8_lossy((#[trigger] groups[g].children[c]).path)),
            ) <= column_width(groups) by {
            if g < groups.len() - 1 {
                assert(groups[g] == init[g]);
            }
        }
    }
}

/// Each line of one group is a full row: its label and size fit.
proof fn lemma_group_lines_len(g: GroupSpec, pw: int, sw: int, units: SizeUnits)
    requires
        utf8_lossy(g.root).len() <= pw,
        size_text(g.total, units).len() <= sw,
        forall|c: int|
            0 <= c < g.children.len() ==> child_label(utf8_lossy((#[trigger] g.children[c]).path)).len()
                <= pw && size_text(g.children[c].size, units).len() <= sw,
    ensures
        forall|i: int|
            0 <= i < group_lines(g, pw, sw, units).len() ==> (#[trigger] group_lines(
                g,
                pw,
                sw,
                units,
            )[i]).len() == pw + 1 + sw,
{
    let gl = group_lines(g, pw, sw, units);
    assert forall|i: int| 0 <= i < gl.len() implies (#[trigger] gl[i]).len() == pw + 1 + sw by {
        if i == 0 {
            lemma_row_text_len(utf8_lossy(g.root), g.total, pw, sw, units);
        } else {
            let c = g.children[i - 1];
            assert(gl[i] == row_text(child_label(utf8_lossy(c.path)), c.size, pw, sw, units));
            lemma_row_text_len(child_label(utf8_lossy(c.path)), c.size, pw, sw, units);
        }
    }
}

/// The groups' lines are full rows and the blank lines between groups.
proof fn lemma_groups_lines_len(gs: Seq<GroupSpec>, pw: int, sw: int, units: SizeUnits)
    requires
        forall|g: int| 0 <= g < gs.len() ==> utf8_lossy((#[trigger] gs[g]).root).len() <= pw,
        forall|g: int| 0 <= g < gs.len() ==> size_text((#[trigger] gs[g]).total, units).len() <= sw,
        forall|g: int, c: int|
            0 <= g < gs.len() && 0 <= c < gs[g].children.len() ==> child_label(
                utf8_lossy((#[trigger] gs[g].children[c]).path),
            ).len() <= pw && size_text(gs[g].children[c].size, units).len() <= sw,
    ensures
        forall|i: int|
            0 <= i < groups_lines(gs, pw, sw, units).len() ==> (#[trigger] groups_lines(
                gs,
                pw,
                sw,
                units,
            )[i]).len() == 0 || groups_lines(gs, pw, sw, units)[i].len() == pw + 1 + sw,
    decreases gs.len(),
{
    if gs.len() > 0 {
        let g = gs.last();
        assert(g == gs[gs.len() - 1]);
        assert forall|c: int| 0 <= c < g.children.len() implies child_label(
            utf8_lossy((#[trigger] g.children[c]).path),
        ).len() <= pw && size_text(g.children[c].size, units).len() <= sw by {
            assert(g.children[c] == gs[gs.len() - 1].children[c]);
        }
        lemma_group_lines_len(g, pw, sw, units);
        let gl = group_lines(g, pw, sw, units);
        if gs.len() == 1 {
            assert(gs[0] == g);
        } else {
            let init = gs.drop_last();
            assert forall|k: int| 0 <= k < init.len() implies #[trigger] init[k] == gs[k] by {}
            lemma_groups_lines_len(init, pw, sw, units);
            let head = groups_lines(init, pw, sw, units);
            let all = groups_lines(gs, pw, sw, units);
            assert(all == head + seq![Seq::<char>::empty()] + gl);
            assert forall|i: int| 0 <= i < all.len() implies (#[trigger] all[i]).len() == 0
                || all[i].len() == pw + 1 + sw by {
                if i < head.len() {
                    assert(all[i] == head[i]);
                } else if i > head.len() {
                    assert(all[i] == gl[i - head.len() - 1]);
                }
            }
        }
    }
}

/// The detailed table is aligned: every line that is not a blank separator
/// is exactly as long as the `Total` row, so the labels fill one
/// left-aligned column and the sizes one right-aligned column, each as wide
/// as its widest entry (group names, `"- "`-prefixed child paths and
/// `Total`; group totals, child sizes and the total).
pub proof fn lemma_tree_output_aligned(summary: SummarySpec, units: SizeUnits)
    ensures
        tree_output(summary, units) == join_lines(tree_output_lines(summary, units)),
        forall|i: int|
            0 <= i < tree_output_lines(summary, units).len() ==> (#[trigger] tree_output_lines(
                summary,
                units,
            )[i]).len() == 0 || tree_output_lines(summary, units)[i].len() == tree_output_lines(
                summary,
                units,
            ).last().len(),
{
    let gs = summary.groups;
    let pw = max_int(column_width(gs), 5);
    let sw = max_int(size_width(gs, units), size_text(summary.total, units).len() as int);
    lemma_size_width_covers(gs, units);
    lemma_column_width_covers(gs);
    assert forall|g: int| 0 <= g < gs.len() implies utf8_lossy((#[trigger] gs[g]).root).len() <= pw by {
        lemma_byte_len_at_least(utf8_lossy(gs[g].root));
    }
    assert forall|g: int| 0 <= g < gs.len() implies size_text((#[trigger] gs[g]).total, units).len()
        <= sw by {}
    assert forall|g: int, c: int|
        0 <= g < gs.len() && 0 <= c < gs[g].children.len() implies child_label(
        utf8_lossy((#[trigger] gs[g].children[c]).path),
    ).len() <= pw && size_text(gs[g].children[c].size, units).len() <= sw by {
        lemma_byte_len_at_least(child_label(utf8_lossy(gs[g].children[c].path)));
    }
    lemma_groups_lines_len(gs, pw, sw, units);
    reveal_strlit("Total");
    lemma_row_text_len(total_label(), summary.total, pw, sw, units);
    let head = groups_lines(gs, pw, sw, units);
    let lines = tree_output_lines(summary, units);
    assert(lines.last().len() == pw + 1 + sw);
    assert forall|i: int| 0 <= i < lines.len() implies (#[trigger] lines[i]).len() == 0
        || lines[i].len() == lines.last().len() by {
        if i < head.len() {
            assert(lines[i] == head[i]);
        }
    }
}

/// The totals width covers the size text of every group total.
pub proof fn lemma_totals_width_covers(groups: Seq<GroupSpec>, units: SizeUnits)
    ensures
        forall|g: int|
            0 <= g < groups.len() ==> size_text((#[trigger] groups[g]).total, units).len()
                <= totals_width(groups, units),
    decreases groups.len(),
{
    if groups.len() > 0 {
        lemma_totals_width_covers(groups.drop_last(), units);
        assert forall|g: int| 0 <= g < groups.len() implies size_text((#[trigger] groups[g]).total, units).len()
            <= totals_width(groups, units) by {
            if g < groups.len() - 1 {
                assert(groups[g] == groups.drop_last()[g]);
            }
        }
    }
}

/// The roots width covers the byte length of every group name.
proof fn lemma_roots_width_covers(groups: Seq<GroupSpec>)
    ensures
        forall|g: int|
            0 <= g < groups.len() ==> byte_len(utf8_lossy((#[trigger] groups[g]).root)) <= roots_width(
                groups,
            ),
    decreases groups.len(),
{
    if groups.len() > 0 {
        lemma_roots_width_covers(groups.drop_last());
        assert forall|g: int| 0 <= g < groups.len() implies byte_len(utf8_lossy((#[trigger] groups[g]).root))
            <= roots_width(groups) by {
            if g < groups.len() - 1 {
                assert(groups[g] == groups.drop_last()[g]);
            }
        }
    }
}

/// The compact table is aligned: all its lines (header, one per group,
/// `Total`) have the same length, so the sizes sit right-aligned in one
/// column as wide as the widest of `Size`, the group totals and the total.
pub proof fn lemma_summary_table_aligned(summary: SummarySpec, units: SizeUnits)
    ensures
        summary_table(summary, units) == join_lines(summary_table_lines(summary, units)),
        forall|i: int|
            0 <= i < summary_table_lines(summary, units).len() ==> (#[trigger] summary_table_lines(
                summary,
                units,
            )[i]).len() == summary_table_lines(summary, units)[0].len(),
{
    let gs = summary.groups;
    let pw = max_int(roots_width(gs), 6);
    let sw = max_int(
        max_int(totals_width(gs, units), size_text(summary.total, units).len() as int),
        4,
    );
    lemma_totals_width_covers(gs, units);
    lemma_roots_width_covers(gs);
    reveal_strlit("Folder");
    reveal_strlit("Size");
    lemma_table_row_len("Folder"@, "Size"@, pw, sw);
    lemma_table_row_len(total_label(), size_text(summary.total, units), pw, sw);
    let lines = summary_table_lines(summary, units);
    let mid = gs.map_values(
        |g: GroupSpec| table_row(utf8_lossy(g.root), size_text(g.total, units), pw, sw),
    );
    assert(lines == seq![table_row("Folder"@, "Size"@, pw, sw)] + mid + seq![
        table_row(total_label(), size_text(summary.total, units), pw, sw),
    ]);
    assert forall|i: int| 0 <= i < lines.len() implies (#[trigger] lines[i]).len() == pw + 3 + sw by {
        if 1 <= i <= gs.len() {
            let g = gs[i - 1];
            assert(lines[i] == mid[i - 1]);
            lemma_byte_len_at_least(utf8_lossy(g.root));
            lemma_table_row_len(utf8_lossy(g.root), size_text(g.total, units), pw, sw);
        }
    }
}

fn max_usize(a: usize, b: usize) -> (m: usize)
    ensures
        m == max_int(a as int, b as int),
{
    if a >= b {
        a
    } else {
        b
    }
}

/// Widest byte length among group names and `"- "`-prefixed child paths.
pub fn calculate_column_width(groups: &[DirectoryGroup]) -> (width: usize)
    ensures
        width == column_width(groups@.map_values(|g: DirectoryGroup| g@)),
{
    let ghost gv = groups@.map_values(|g: DirectoryGroup| g@);
    let mut width: usize = 0;
    let mut i: usize = 0;
    while i < groups.len()
        invariant
            gv == groups@.map_values(|g: DirectoryGroup| g@),
            i <= groups@.len(),
            width == column_width(gv.take(i as int)),
        decreases groups@.len() - i,
    {
        let group = &groups[i];
        proof {
            assert(gv.take(i + 1).drop_last() =~= gv.take(i as int));
            assert(gv.take(i + 1).last() == group@);
        }
        let mut rw: usize = 0;
        let mut j: usize = 0;
        let ghost rv = group@.children;
        while j < group.children.len()
            invariant
                rv == group@.children,
                rv.len() == group.children@.len(),
                forall|k: int| 0 <= k < rv.len() ==> #[trigger] rv[k] == group.children@[k]@,
                j <= rv.len(),
                rw == rows_label_width(rv.take(j as int)),
            decreases rv.len() - j,
        {
            let child = &group.children[j];
            proof {
                assert(rv.take(j + 1).drop_last() =~= rv.take(j as int));
            }
            let label = string_of(&child_label_chars(&child.relative_path));
            let l = label.as_str().as_bytes().len();
            rw = max_usize(rw, l);
            j = j + 1;
        }
        assert(rv.take(j as int) =~= rv);
        let (_, root_len) = shown_text(&group.root);
        width = max_usize(width, max_usize(root_len, rw));
        i = i + 1;
    }
    assert(gv.take(i as int) =~= gv);
    width
}

} // verus!
