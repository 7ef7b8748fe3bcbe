//! The display summary of a scanned tree: one group per directory directly
//! under the root, each listing its largest descendants, plus a
//! pseudo-group for the files that sit directly in the root.

use vstd::prelude::*;

use crate::ranking::{
    bytes_less, bytes_lt, components_less, components_lt, first_n, insert_ranked,
    lemma_first_n_keeps_largest, lemma_first_n_sorted, lemma_rank_all_contains,
    lemma_mapped_sub_multiset, lemma_rank_all_len, lemma_rank_all_no_duplicates,
    lemma_rank_all_sorted, orders_by_size, rank_all, sizes_descending,
};
use crate::tree::{
    anchor, children_total, components, lemma_anchor, parents_wf, relative_path, total, DirTree,
    NO_PARENT, ROOT,
};

verus! {

/// How many of its largest descendants each group lists by default.
pub const DEFAULT_CHILDREN_PER_GROUP: usize = 5;

/// Label for the pseudo-group holding files that sit directly in the scanned root.
pub const ROOT_FILES_LABEL: &'static str = "(files)";

/// One listed descendant of a group.
#[derive(Debug, PartialEq, Eq)]
pub struct DirectoryRow {
    /// Path of the descendant below the group's directory, as raw bytes.
    pub relative_path: Vec<u8>,
    pub size: u64,
}

/// One directory directly under the root (or the root's loose files).
#[derive(Debug, PartialEq, Eq)]
pub struct DirectoryGroup {
    /// Name of the directory (raw bytes), or `ROOT_FILES_LABEL`.
    pub root: Vec<u8>,
    pub total_size: u64,
    pub children: Vec<DirectoryRow>,
}

/// What is shown of a scan.
#[derive(Debug, PartialEq, Eq)]
pub struct TreeSummary {
    /// Size of everything under the scanned root, independent of `top_n` truncation.
    pub total_size: u64,
    pub groups: Vec<DirectoryGroup>,
}

/// Model of a `DirectoryRow`.
#[verifier::ext_equal]
pub struct RowSpec {
    pub path: Seq<u8>,
    pub size: u64,
}

/// Model of a `DirectoryGroup`.
#[verifier::ext_equal]
pub struct GroupSpec {
    pub root: Seq<u8>,
    pub total: u64,
    pub children: Seq<RowSpec>,
}

/// Model of a `TreeSummary`.
#[verifier::ext_equal]
pub struct SummarySpec {
    pub total: u64,
    pub groups: Seq<GroupSpec>,
}

impl View for DirectoryRow {
    type V = RowSpec;

    open spec fn view(&self) -> RowSpec {
        RowSpec { path: self.relative_path@, size: self.size }
    }
}

impl View for DirectoryGroup {
    type V = GroupSpec;

    open spec fn view(&self) -> GroupSpec {
        GroupSpec {
            root: self.root@,
            total: self.total_size,
            children: self.children@.map_values(|r: DirectoryRow| r@),
        }
    }
}

impl View for TreeSummary {
    type V = SummarySpec;

    open spec fn view(&self) -> SummarySpec {
        SummarySpec {
            total: self.total_size,
            groups: self.groups@.map_values(|g: DirectoryGroup| g@),
        }
    }
}

/// Rows (size, id) come largest first, ties by lower id.
pub open spec fn row_order() -> spec_fn((u64, u32), (u64, u32)) -> bool {
    |a: (u64, u32), b: (u64, u32)| a.0 > b.0 || (a.0 == b.0 && a.1 < b.1)
}

/// Listed descendants come largest first, ties by relative path
/// (compared component by component).
pub open spec fn child_order(parents: Seq<u32>, names: Seq<Seq<u8>>) -> spec_fn(
    (u64, u32),
    (u64, u32),
) -> bool {
    |a: (u64, u32), b: (u64, u32)|
        a.0 > b.0 || (a.0 == b.0 && components_lt(
            components(parents, names, a.1 as int),
            components(parents, names, b.1 as int),
        ))
}

/// Bytes of `ROOT_FILES_LABEL`.
pub open spec fn files_label_bytes() -> Seq<u8> {
    seq![40u8, 102u8, 105u8, 108u8, 101u8, 115u8, 41u8]
}

/// Name a group candidate is ordered by: its directory's name, or the
/// pseudo-group's label for any id past the last node.
pub open spec fn group_name(names: Seq<Seq<u8>>, i: u32) -> Seq<u8> {
    if i >= names.len() {
        files_label_bytes()
    } else {
        names[i as int]
    }
}

/// Groups (total, id) come largest first, ties by name.
pub open spec fn group_order(names: Seq<Seq<u8>>) -> spec_fn((u64, u32), (u64, u32)) -> bool {
    |a: (u64, u32), b: (u64, u32)|
        a.0 > b.0 || (a.0 == b.0 && bytes_lt(group_name(names, a.1), group_name(names, b.1)))
}

/// (size, id) of the nodes `j < m` that lie strictly below the child `a` of the root, by id.
pub open spec fn descendant_rows(parents: Seq<u32>, sizes: Seq<u64>, a: int, m: int) -> Seq<
    (u64, u32),
>
    decreases m,
{
    if m <= 1 {
        Seq::empty()
    } else {
        let prev = descendant_rows(parents, sizes, a, m - 1);
        if m - 1 != a && anchor(parents, m - 1) == a {
            prev.push((sizes[m - 1], (m - 1) as u32))
        } else {
            prev
        }
    }
}

/// Children of the root with id below `m`, by id.
pub open spec fn top_level(parents: Seq<u32>, m: int) -> Seq<u32>
    decreases m,
{
    if m <= 1 {
        Seq::empty()
    } else if parents[m - 1] == 0 {
        top_level(parents, m - 1).push((m - 1) as u32)
    } else {
        top_level(parents, m - 1)
    }
}

/// Size of the files directly in the root: the root's size less the sizes
/// of its children, floored at zero.
pub open spec fn root_files(parents: Seq<u32>, sizes: Seq<u64>) -> int {
    let d = children_total(parents, sizes, 0, 1, parents.len() as int);
    if sizes[0] >= d {
        sizes[0] - d
    } else {
        0
    }
}

/// Group candidates in creation order: the root's children by id, then the
/// loose-files pseudo-group (id = node count) when it is not empty.
pub open spec fn group_candidates(parents: Seq<u32>, sizes: Seq<u64>) -> Seq<(u64, u32)> {
    top_level(parents, parents.len() as int).map_values(|a: u32| (sizes[a as int], a)) + (if root_files(
        parents,
        sizes,
    ) > 0 {
        seq![(root_files(parents, sizes) as u64, parents.len() as u32)]
    } else {
        Seq::empty()
    })
}

/// The descendants listed under the root's child `a`: the `limit` largest
/// (ties by id), then ordered for display.
pub open spec fn chosen_children(
    parents: Seq<u32>,
    names: Seq<Seq<u8>>,
    sizes: Seq<u64>,
    a: int,
    limit: int,
) -> Seq<(u64, u32)> {
    rank_all(
        first_n(rank_all(descendant_rows(parents, sizes, a, parents.len() as int), row_order()), limit),
        child_order(parents, names),
    )
}

/// The row shown for node `r.1` of size `r.0`.
pub open spec fn row_spec(parents: Seq<u32>, names: Seq<Seq<u8>>, r: (u64, u32)) -> RowSpec {
    RowSpec { path: relative_path(parents, names, r.1 as int), size: r.0 }
}

/// The group shown for candidate `c`.
pub open spec fn group_spec(
    parents: Seq<u32>,
    names: Seq<Seq<u8>>,
    sizes: Seq<u64>,
    limit: int,
    c: (u64, u32),
) -> GroupSpec {
    if c.1 >= parents.len() {
        GroupSpec { root: files_label_bytes(), total: c.0, children: Seq::empty() }
    } else {
        GroupSpec {
            root: names[c.1 as int],
            total: c.0,
            children: chosen_children(parents, names, sizes, c.1 as int, limit).map_values(
                |r: (u64, u32)| row_spec(parents, names, r),
            ),
        }
    }
}

/// The candidates that become groups: the `top_n` first, largest first,
/// ties by name.
pub open spec fn kept_groups(parents: Seq<u32>, names: Seq<Seq<u8>>, sizes: Seq<u64>, top_n: int) -> Seq<
    (u64, u32),
> {
    first_n(rank_all(group_candidates(parents, sizes), group_order(names)), top_n)
}

/// The summary of a tree: the root's size, whatever `top_n` is, and the
/// `top_n` first groups (none when `top_n == 0`), largest first, ties by
/// name.
pub open spec fn summary_spec(
    parents: Seq<u32>,
    names: Seq<Seq<u8>>,
    sizes: Seq<u64>,
    top_n: int,
    limit: int,
) -> SummarySpec {
    SummarySpec {
        total: sizes[0],
        groups: kept_groups(parents, names, sizes, top_n).map_values(
            |c: (u64, u32)| group_spec(parents, names, sizes, limit, c),
        ),
    }
}

/// Every memoized entry is either unset or the node's depth-one ancestor.
pub open spec fn memo_ok(parents: Seq<u32>, memo: Seq<u32>) -> bool {
    &&& memo.len() == parents.len()
    &&& forall|j: int|
        1 <= j < memo.len() ==> #[trigger] memo[j] == NO_PARENT || memo[j] == anchor(parents, j)
}

/// Depth-1 ancestor of `id`, memoized. Iterative so pathologically deep
/// trees cannot overflow the stack.
fn anchor_of(tree: &DirTree, id: u32, memo: &mut Vec<u32>) -> (a: u32)
    requires
        tree.wf(),
        0 < id < tree.node_count(),
        memo_ok(tree.parents_view(), old(memo)@),
    ensures
        a == anchor(tree.parents_view(), id as int),
        final(memo)@[id as int] == a,
        memo_ok(tree.parents_view(), final(memo)@),
{
    let ghost pv = tree.parents_view();
    let mut chain: Vec<u32> = Vec::new();
    let mut current = id;
    let mut result: u32 = 0;
    loop
        invariant_except_break
            0 < current < tree.node_count(),
            anchor(pv, current as int) == anchor(pv, id as int),
        invariant
            tree.wf(),
            pv == tree.parents_view(),
            0 < id < tree.node_count(),
            memo_ok(pv, memo@),
            forall|k: int|
                0 <= k < chain@.len() ==> 0 < #[trigger] chain@[k] < tree.node_count() && anchor(
                    pv,
                    chain@[k] as int,
                ) == anchor(pv, id as int),
        ensures
            result == anchor(pv, id as int),
        decreases current,
    {
        proof {
            lemma_anchor(pv, current as int);
        }
        let m = memo[current as usize];
        if m != NO_PARENT {
            result = m;
            break ;
        }
        let parent = match tree.parent(current) {
            Some(p) => p,
            None => current,
        };
        if parent == ROOT {
            result = current;
            break ;
        }
        chain.push(current);
        current = parent;
    }
    proof {
        lemma_anchor(pv, id as int);
    }
    memo.set(id as usize, result);
    let mut k: usize = 0;
    while k < chain.len()
        invariant
            tree.wf(),
            pv == tree.parents_view(),
            memo_ok(pv, memo@),
            result == anchor(pv, id as int),
            0 < id < tree.node_count(),
            memo@[id as int] == result,
            result < tree.node_count(),
            forall|j: int|
                0 <= j < chain@.len() ==> 0 < #[trigger] chain@[j] < tree.node_count() && anchor(
                    pv,
                    chain@[j] as int,
                ) == anchor(pv, id as int),
        decreases chain@.len() - k,
    {
        memo.set(chain[k] as usize, result);
        k = k + 1;
    }
    result
}

/// Nothing lies below `a` among the ids before `a + 1`.
proof fn lemma_descendant_rows_empty(parents: Seq<u32>, sizes: Seq<u64>, a: int, m: int)
    requires
        crate::tree::parents_wf(parents),
        1 <= a < parents.len(),
        m <= a + 1,
    ensures
        descendant_rows(parents, sizes, a, m) == Seq::<(u64, u32)>::empty(),
    decreases m,
{
    if m > 1 {
        lemma_descendant_rows_empty(parents, sizes, a, m - 1);
        if m - 1 != a {
            lemma_anchor(parents, m - 1);
        }
    }
}

/// The ids listed in `descendant_rows` are nodes below `m`.
proof fn lemma_descendant_rows_ids(parents: Seq<u32>, sizes: Seq<u64>, a: int, m: int)
    requires
        m <= parents.len() <= u32::MAX,
    ensures
        forall|i: int|
            0 <= i < descendant_rows(parents, sizes, a, m).len() ==> 1 <= (
            #[trigger] descendant_rows(parents, sizes, a, m)[i]).1 < m,
    decreases m,
{
    if m > 1 {
        lemma_descendant_rows_ids(parents, sizes, a, m - 1);
        let prev = descendant_rows(parents, sizes, a, m - 1);
        let cur = descendant_rows(parents, sizes, a, m);
        assert forall|i: int| 0 <= i < cur.len() implies 1 <= (#[trigger] cur[i]).1 < m by {
            if i < prev.len() {
                assert(cur[i] == prev[i]);
            }
        }
    }
}

/// The ids listed in `top_level` are children of the root below `m`.
proof fn lemma_top_level_ids(parents: Seq<u32>, m: int)
    requires
        m <= parents.len() <= u32::MAX,
    ensures
        forall|i: int|
            0 <= i < top_level(parents, m).len() ==> 1 <= #[trigger] top_level(parents, m)[i] < m
                && parents[top_level(parents, m)[i] as int] == 0,
        top_level(parents, m).len() <= if m < 0 { 0 } else { m },
    decreases m,
{
    if m > 1 {
        lemma_top_level_ids(parents, m - 1);
    }
}

fn row_before(a: (u64, u32), b: (u64, u32)) -> (r: bool)
    ensures
        r == (row_order())(a, b),
{
    a.0 > b.0 || (a.0 == b.0 && a.1 < b.1)
}

/// Inserts `x` into rows already in `row_order`, keeping the first `k`.
fn insert_row(list: &mut Vec<(u64, u32)>, x: (u64, u32), k: usize)
    ensures
        final(list)@ == first_n(insert_ranked(old(list)@, x, row_order()), k as int),
{
    let mut p: usize = 0;
    while p < list.len() && !row_before(x, list[p])
        invariant
            p <= list@.len(),
            list@ == old(list)@,
            forall|j: int| 0 <= j < p ==> !(row_order())(x, #[trigger] list@[j]),
        decreases list@.len() - p,
    {
        p = p + 1;
    }
    proof {
        crate::ranking::lemma_insert_at(list@, x, row_order(), p as int);
    }
    list.insert(p, x);
    if list.len() > k {
        list.truncate(k);
    }
}

/// Name a group candidate is ordered by (see `group_name`).
fn group_name_of<'a>(tree: &'a DirTree, files: &'a [u8], i: u32) -> (r: &'a [u8])
    requires
        tree.wf(),
        files@ == files_label_bytes(),
    ensures
        r@ == group_name(tree.names_view(), i),
{
    if i as usize >= tree.len() {
        files
    } else {
        tree.name(i)
    }
}

fn group_before(tree: &DirTree, files: &[u8], a: (u64, u32), b: (u64, u32)) -> (r: bool)
    requires
        tree.wf(),
        files@ == files_label_bytes(),
    ensures
        r == (group_order(tree.names_view()))(a, b),
{
    if a.0 != b.0 {
        a.0 > b.0
    } else {
        bytes_less(group_name_of(tree, files, a.1), group_name_of(tree, files, b.1))
    }
}

/// Inserts candidate `x` into candidates already in `group_order`, keeping the first `k`.
fn insert_group(tree: &DirTree, files: &[u8], list: &mut Vec<(u64, u32)>, x: (u64, u32), k: usize)
    requires
        tree.wf(),
        files@ == files_label_bytes(),
    ensures
        final(list)@ == first_n(
            insert_ranked(old(list)@, x, group_order(tree.names_view())),
            k as int,
        ),
{
    let mut p: usize = 0;
    while p < list.len() && !group_before(tree, files, x, list[p])
        invariant
            tree.wf(),
            files@ == files_label_bytes(),
            p <= list@.len(),
            list@ == old(list)@,
            forall|j: int|
                0 <= j < p ==> !(group_order(tree.names_view()))(x, #[trigger] list@[j]),
        decreases list@.len() - p,
    {
        p = p + 1;
    }
    proof {
        crate::ranking::lemma_insert_at(list@, x, group_order(tree.names_view()), p as int);
    }
    list.insert(p, x);
    if list.len() > k {
        list.truncate(k);
    }
}

fn child_before(tree: &DirTree, a: (u64, u32), b: (u64, u32)) -> (r: bool)
    requires
        tree.wf(),
        a.1 < tree.node_count(),
        b.1 < tree.node_count(),
    ensures
        r == (child_order(tree.parents_view(), tree.names_view()))(a, b),
{
    if a.0 != b.0 {
        a.0 > b.0
    } else {
        components_less(&tree.components_of(a.1), &tree.components_of(b.1))
    }
}

/// Orders listed rows for display (largest first, ties by relative path).
fn order_children(tree: &DirTree, rows: &Vec<(u64, u32)>) -> (ordered: Vec<(u64, u32)>)
    requires
        tree.wf(),
        forall|i: int| 0 <= i < rows@.len() ==> (#[trigger] rows@[i]).1 < tree.node_count(),
    ensures
        ordered@ == rank_all(rows@, child_order(tree.parents_view(), tree.names_view())),
{
    let ghost co = child_order(tree.parents_view(), tree.names_view());
    let ghost n = tree.node_count();
    let ghost small = |r: (u64, u32)| (r.1 as int) < n;
    let mut out: Vec<(u64, u32)> = Vec::new();
    let mut i: usize = 0;
    while i < rows.len()
        invariant
            tree.wf(),
            n == tree.node_count(),
            co == child_order(tree.parents_view(), tree.names_view()),
            small == (|r: (u64, u32)| (r.1 as int) < n),
            i <= rows@.len(),
            forall|j: int| 0 <= j < rows@.len() ==> (#[trigger] rows@[j]).1 < n,
            out@ == rank_all(rows@.take(i as int), co),
        decreases rows@.len() - i,
    {
        let x = rows[i];
        proof {
            let pre = rows@.take(i as int);
            assert forall|j: int| 0 <= j < pre.len() implies small(#[trigger] pre[j]) by {
                assert(pre[j] == rows@[j]);
            }
            crate::ranking::lemma_rank_all_preserves(pre, co, small);
            assert(rows@.take(i + 1).drop_last() =~= pre);
        }
        let mut p: usize = 0;
        while p < out.len() && !child_before(tree, x, out[p])
            invariant
                tree.wf(),
                n == tree.node_count(),
                co == child_order(tree.parents_view(), tree.names_view()),
                x.1 < n,
                forall|j: int| 0 <= j < out@.len() ==> (#[trigger] out@[j]).1 < n,
                p <= out@.len(),
                forall|j: int| 0 <= j < p ==> !co(x, #[trigger] out@[j]),
            decreases out@.len() - p,
        {
            p = p + 1;
        }
        proof {
            crate::ranking::lemma_insert_at(out@, x, co, p as int);
        }
        out.insert(p, x);
        i = i + 1;
    }
    assert(rows@.take(i as int) =~= rows@);
    out
}

/// Build the display summary: one group per directory directly under the
/// root, each listing its `child_limit` largest descendants, plus a
/// pseudo-group for loose files; the `top_n` largest groups are kept.
pub fn summarize_tree(tree: &DirTree, top_n: usize, child_limit: usize) -> (summary: TreeSummary)
    requires
        tree.wf(),
        children_total(tree.parents_view(), tree.sizes_view(), 0, 1, tree.node_count())
            <= u64::MAX,
    ensures
        summary@ == summary_spec(
            tree.parents_view(),
            tree.names_view(),
            tree.sizes_view(),
            top_n as int,
            child_limit as int,
        ),
{
    let total_size = tree.size(ROOT);
    if top_n == 0 {
        let summary = TreeSummary { total_size, groups: Vec::new() };
        let ghost kept = kept_groups(tree.parents_view(), tree.names_view(), tree.sizes_view(), 0);
        assert(kept.len() == 0);
        assert(summary@.groups =~= kept.map_values(
            |c: (u64, u32)| group_spec(
                tree.parents_view(),
                tree.names_view(),
                tree.sizes_view(),
                child_limit as int,
                c,
            ),
        ));
        return summary;
    }
    let ghost pv = tree.parents_view();
    let ghost nv = tree.names_view();
    let ghost sv = tree.sizes_view();
    let n = tree.len();
    let mut memo: Vec<u32> = Vec::new();
    let mut slot: Vec<usize> = Vec::new();
    let mut i: usize = 0;
    while i < n
        invariant
            i <= n,
            memo@.len() == i,
            slot@.len() == i,
            forall|j: int| 0 <= j < i ==> #[trigger] memo@[j] == NO_PARENT,
        decreases n - i,
    {
        memo.push(NO_PARENT);
        slot.push(0);
        i = i + 1;
    }
    // Anchor id -> deeper descendants as (size, id), keeping the largest only.
    let mut anchors: Vec<u32> = Vec::new();
    let mut tops: Vec<Vec<(u64, u32)>> = Vec::new();
    let mut direct_children_total: u64 = 0;
    let mut id: usize = 1;
    while id < n
        invariant
            tree.wf(),
            pv == tree.parents_view(),
            nv == tree.names_view(),
            sv == tree.sizes_view(),
            n == tree.node_count(),
            children_total(pv, sv, 0, 1, n as int) <= u64::MAX,
            1 <= id <= n,
            memo_ok(pv, memo@),
            slot@.len() == n,
            anchors@ == top_level(pv, id as int),
            tops@.len() == anchors@.len(),
            forall|j: int|
                1 <= j < id && pv[j] == 0 ==> #[trigger] slot@[j] < anchors@.len() && anchors@[slot@[j]
                    as int] == j,
            forall|u: int| 0 <= u < anchors@.len() ==> slot@[#[trigger] anchors@[u] as int] == u,
            forall|t: int|
                0 <= t < anchors@.len() ==> (#[trigger] tops@[t])@ == first_n(
                    rank_all(descendant_rows(pv, sv, anchors@[t] as int, id as int), row_order()),
                    child_limit as int,
                ),
            direct_children_total == children_total(pv, sv, 0, 1, id as int),
        decreases n - id,
    {
        let a = anchor_of(tree, id as u32, &mut memo);
        proof {
            lemma_anchor(pv, id as int);
            crate::tree::lemma_children_total_extend(pv, sv, 0, 1, id as int);
            crate::tree::lemma_children_total_mono(pv, sv, 0, 1, id + 1, n as int);
            lemma_top_level_ids(pv, id as int);
        }
        let ghost before_tops = tops@;
        if a as usize == id {
            slot.set(id, anchors.len());
            anchors.push(a);
            tops.push(Vec::new());
            direct_children_total = direct_children_total + tree.size(a);
            proof {
                lemma_descendant_rows_empty(pv, sv, id as int, id + 1);
                assert forall|t: int| 0 <= t < anchors@.len() implies (#[trigger] tops@[t])@
                    == first_n(
                    rank_all(descendant_rows(pv, sv, anchors@[t] as int, id + 1), row_order()),
                    child_limit as int,
                ) by {
                    if t < anchors@.len() - 1 {
                        assert(tops@[t] == before_tops[t]);
                    } else {
                        assert(rank_all(Seq::<(u64, u32)>::empty(), row_order()) =~= Seq::<
                            (u64, u32),
                        >::empty());
                    }
                }
            }
        } else {
            let t = slot[a as usize];
            let row = (tree.size(id as u32), id as u32);
            insert_row(&mut tops[t], row, child_limit);
            proof {
                let dr = descendant_rows(pv, sv, a as int, id as int);
                assert(descendant_rows(pv, sv, a as int, id + 1) == dr.push(row));
                crate::ranking::lemma_rank_push_first_n(dr, row, row_order(), child_limit as int);
                assert forall|u: int| 0 <= u < anchors@.len() implies (#[trigger] tops@[u])@
                    == first_n(
                    rank_all(descendant_rows(pv, sv, anchors@[u] as int, id + 1), row_order()),
                    child_limit as int,
                ) by {
                    if u != t {
                        assert(tops@[u] == before_tops[u]);
                        assert(slot@[anchors@[u] as int] == u);
                        assert(anchors@[u] != a);
                    }
                }
            }
        }
        id = id + 1;
    }
    proof {
        lemma_top_level_ids(pv, n as int);
    }
    // Largest groups first; only `top_n` of them are kept.
    let files = files_label_byte_vec();
    let ghost go = group_order(nv);
    let ghost gc = top_level(pv, n as int).map_values(|a: u32| (sv[a as int], a));
    let mut cands: Vec<(u64, u32)> = Vec::new();
    let mut t: usize = 0;
    while t < anchors.len()
        invariant
            tree.wf(),
            nv == tree.names_view(),
            sv == tree.sizes_view(),
            n == tree.node_count(),
            files@ == files_label_bytes(),
            go == group_order(nv),
            anchors@ == top_level(pv, n as int),
            gc == top_level(pv, n as int).map_values(|a: u32| (sv[a as int], a)),
            forall|j: int| 0 <= j < anchors@.len() ==> (#[trigger] anchors@[j]) < n,
            t <= anchors@.len(),
            cands@ == first_n(rank_all(gc.take(t as int), go), top_n as int),
        decreases anchors@.len() - t,
    {
        let a = anchors[t];
        let c = (tree.size(a), a);
        proof {
            assert(gc.take(t + 1) =~= gc.take(t as int).push(c));
            crate::ranking::lemma_rank_push_first_n(gc.take(t as int), c, go, top_n as int);
        }
        insert_group(tree, files.as_slice(), &mut cands, c, top_n);
        t = t + 1;
    }
    assert(gc.take(t as int) =~= gc);
    // Files sitting directly in the scanned root belong to no child directory;
    // surface them as their own pseudo-group instead of dropping them.
    let root_files_size = total_size.saturating_sub(direct_children_total);
    if root_files_size > 0 {
        let c = (root_files_size, n as u32);
        proof {
            crate::ranking::lemma_rank_push_first_n(gc, c, go, top_n as int);
            assert(group_candidates(pv, sv) =~= gc.push(c));
        }
        insert_group(tree, files.as_slice(), &mut cands, c, top_n);
    } else {
        assert(group_candidates(pv, sv) =~= gc);
    }
    let ghost chosen = first_n(rank_all(group_candidates(pv, sv), go), top_n as int);
    assert(cands@ == chosen);
    proof {
        let ok = |c: (u64, u32)| (c.1 as int) >= n || (1 <= c.1 < n && pv[c.1 as int] == 0);
        let cs = group_candidates(pv, sv);
        assert forall|j: int| 0 <= j < cs.len() implies ok(#[trigger] cs[j]) by {
            if j < gc.len() {
                assert(cs[j] == gc[j]);
            }
        }
        crate::ranking::lemma_rank_all_preserves(cs, go, ok);
        assert forall|j: int| 0 <= j < chosen.len() implies ok(#[trigger] chosen[j]) by {
            assert(chosen[j] == rank_all(cs, go)[j]);
        }
    }
    let mut groups: Vec<DirectoryGroup> = Vec::new();
    let mut g: usize = 0;
    while g < cands.len()
        invariant
            tree.wf(),
            pv == tree.parents_view(),
            nv == tree.names_view(),
            sv == tree.sizes_view(),
            n == tree.node_count(),
            cands@ == chosen,
            forall|j: int|
                0 <= j < chosen.len() ==> ((#[trigger] chosen[j]).1 as int) >= n || (1
                    <= chosen[j].1 < n && pv[chosen[j].1 as int] == 0),
            slot@.len() == n,
            anchors@ == top_level(pv, n as int),
            tops@.len() == anchors@.len(),
            forall|j: int|
                1 <= j < n && pv[j] == 0 ==> #[trigger] slot@[j] < anchors@.len() && anchors@[slot@[j]
                    as int] == j,
            forall|u: int|
                0 <= u < anchors@.len() ==> (#[trigger] tops@[u])@ == first_n(
                    rank_all(descendant_rows(pv, sv, anchors@[u] as int, n as int), row_order()),
                    child_limit as int,
                ),
            g <= cands@.len(),
            groups@.map_values(|x: DirectoryGroup| x@) == chosen.take(g as int).map_values(
                |c: (u64, u32)| group_spec(pv, nv, sv, child_limit as int, c),
            ),
        decreases cands@.len() - g,
    {
        let c = cands[g];
        let group = if c.1 as usize >= n {
            let group = DirectoryGroup {
                root: files_label_byte_vec(),
                total_size: c.0,
                children: Vec::new(),
            };
            assert(group@ =~= group_spec(pv, nv, sv, child_limit as int, c));
            group
        } else {
            let a = c.1;
            let u = slot[a as usize];
            let ghost dr = descendant_rows(pv, sv, a as int, n as int);
            proof {
                lemma_descendant_rows_ids(pv, sv, a as int, n as int);
                let small = |r: (u64, u32)| (r.1 as int) < n;
                assert forall|j: int| 0 <= j < dr.len() implies small(#[trigger] dr[j]) by {}
                crate::ranking::lemma_rank_all_preserves(dr, row_order(), small);
                let top = first_n(rank_all(dr, row_order()), child_limit as int);
                assert forall|j: int| 0 <= j < top.len() implies small(#[trigger] top[j]) by {
                    assert(top[j] == rank_all(dr, row_order())[j]);
                }
                assert(tops@[u as int]@ == top);
            }
            let ordered = order_children(tree, &tops[u]);
            let ghost co = child_order(pv, nv);
            proof {
                let small = |r: (u64, u32)| (r.1 as int) < n;
                crate::ranking::lemma_rank_all_preserves(tops@[u as int]@, co, small);
            }
            let mut children: Vec<DirectoryRow> = Vec::new();
            let mut k: usize = 0;
            while k < ordered.len()
                invariant
                    tree.wf(),
                    pv == tree.parents_view(),
                    nv == tree.names_view(),
                    n == tree.node_count(),
                    forall|j: int| 0 <= j < ordered@.len() ==> (#[trigger] ordered@[j]).1 < n,
                    k <= ordered@.len(),
                    children@.map_values(|r: DirectoryRow| r@) == ordered@.take(k as int).map_values(
                        |r: (u64, u32)| row_spec(pv, nv, r),
                    ),
                decreases ordered@.len() - k,
            {
                let r = ordered[k];
                let path = tree.relative_path_of(r.1);
                let row = DirectoryRow { relative_path: path, size: r.0 };
                let ghost before = children@;
                assert(row@ == row_spec(pv, nv, r));
                children.push(row);
                k = k + 1;
                assert(children@.map_values(|r: DirectoryRow| r@) =~= before.map_values(
                    |r: DirectoryRow| r@,
                ).push(row_spec(pv, nv, r)));
                assert(ordered@.take(k as int) =~= ordered@.take(k - 1).push(r));
                assert(children@.map_values(|r: DirectoryRow| r@) =~= ordered@.take(
                    k as int,
                ).map_values(|r: (u64, u32)| row_spec(pv, nv, r)));
            }
            assert(ordered@.take(k as int) =~= ordered@);
            let group = DirectoryGroup {
                root: vstd::slice::slice_to_vec(tree.name(a)),
                total_size: c.0,
                children,
            };
            assert(group@ =~= group_spec(pv, nv, sv, child_limit as int, c));
            group
        };
        let ghost before = groups@;
        let ghost gs = group_spec(pv, nv, sv, child_limit as int, c);
        assert(group@ == gs);
        groups.push(group);
        g = g + 1;
        assert(groups@.map_values(|x: DirectoryGroup| x@) =~= before.map_values(
            |x: DirectoryGroup| x@,
        ).push(gs));
        assert(chosen.take(g as int) =~= chosen.take(g - 1).push(c));
        assert(groups@.map_values(|x: DirectoryGroup| x@) =~= chosen.take(g as int).map_values(
            |c: (u64, u32)| group_spec(pv, nv, sv, child_limit as int, c),
        ));
    }
    assert(chosen.take(g as int) =~= chosen);
    let summary = TreeSummary { total_size, groups };
    assert(summary@ =~= summary_spec(pv, nv, sv, top_n as int, child_limit as int));
    summary
}

/// `ROOT_FILES_LABEL` as bytes.
fn files_label_byte_vec() -> (v: Vec<u8>)
    ensures
        v@ == files_label_bytes(),
{
    let mut v: Vec<u8> = Vec::new();
    v.push(40u8);
    v.push(102u8);
    v.push(105u8);
    v.push(108u8);
    v.push(101u8);
    v.push(115u8);
    v.push(41u8);
    assert(v@ =~= files_label_bytes());
    v
}

/// The groups of a summary come largest first, and so do the descendants
/// listed under each group.
pub proof fn lemma_summary_largest_first(
    parents: Seq<u32>,
    names: Seq<Seq<u8>>,
    sizes: Seq<u64>,
    top_n: int,
    limit: int,
)
    requires
        0 <= top_n,
        0 <= limit,
    ensures
        forall|i: int, j: int|
            0 <= i < j < summary_spec(parents, names, sizes, top_n, limit).groups.len() ==> (
            #[trigger] summary_spec(parents, names, sizes, top_n, limit).groups[i]).total
                >= (#[trigger] summary_spec(parents, names, sizes, top_n, limit).groups[j]).total,
        forall|g: int, i: int, j: int|
            0 <= g < summary_spec(parents, names, sizes, top_n, limit).groups.len() && 0 <= i < j
                < summary_spec(parents, names, sizes, top_n, limit).groups[g].children.len() ==> (
            #[trigger] summary_spec(parents, names, sizes, top_n, limit).groups[g].children[i]).size
                >= (#[trigger] summary_spec(
                parents,
                names,
                sizes,
                top_n,
                limit,
            ).groups[g].children[j]).size,
{
    if top_n != 0 {
        let go = group_order(names);
        let ro = row_order();
        let co = child_order(parents, names);
        assert(orders_by_size(go));
        assert(orders_by_size(ro));
        assert(orders_by_size(co));
        let cands = group_candidates(parents, sizes);
        lemma_rank_all_sorted(cands, go);
        lemma_first_n_sorted(rank_all(cands, go), top_n);
        let cs = kept_groups(parents, names, sizes, top_n);
        let gs = summary_spec(parents, names, sizes, top_n, limit).groups;
        assert(gs == cs.map_values(|c: (u64, u32)| group_spec(parents, names, sizes, limit, c)));
        assert forall|i: int, j: int| 0 <= i < j < gs.len() implies (#[trigger] gs[i]).total
            >= (#[trigger] gs[j]).total by {
            assert(gs[i].total == cs[i].0);
            assert(gs[j].total == cs[j].0);
        }
        assert forall|g: int, i: int, j: int|
            0 <= g < gs.len() && 0 <= i < j < gs[g].children.len() implies (
            #[trigger] gs[g].children[i]).size >= (#[trigger] gs[g].children[j]).size by {
            let c = cs[g];
            assert(gs[g] == group_spec(parents, names, sizes, limit, c));
            if c.1 < parents.len() {
                let rows = descendant_rows(parents, sizes, c.1 as int, parents.len() as int);
                let chosen = chosen_children(parents, names, sizes, c.1 as int, limit);
                lemma_rank_all_sorted(first_n(rank_all(rows, ro), limit), co);
                assert(sizes_descending(chosen));
                assert(gs[g].children[i].size == chosen[i].0);
                assert(gs[g].children[j].size == chosen[j].0);
            }
        }
    }
}

/// A group that is not kept is no larger than any kept one: a candidate
/// (a directory under the root, or the root's loose files) left out of the
/// kept groups has a total no larger than each kept group's, and then
/// `top_n` groups are kept.
pub proof fn lemma_kept_groups_are_largest(
    parents: Seq<u32>,
    names: Seq<Seq<u8>>,
    sizes: Seq<u64>,
    top_n: int,
    c: (u64, u32),
)
    requires
        0 <= top_n,
        group_candidates(parents, sizes).contains(c),
        !kept_groups(parents, names, sizes, top_n).contains(c),
    ensures
        kept_groups(parents, names, sizes, top_n).len() == top_n,
        forall|k: int|
            0 <= k < kept_groups(parents, names, sizes, top_n).len() ==> (
            #[trigger] kept_groups(parents, names, sizes, top_n)[k]).0 >= c.0,
{
    let go = group_order(names);
    assert(orders_by_size(go));
    let cands = group_candidates(parents, sizes);
    lemma_rank_all_sorted(cands, go);
    lemma_rank_all_contains(cands, go, c);
    lemma_first_n_keeps_largest(rank_all(cands, go), top_n, c);
}

/// Node `d` is among the descendants of `a` that are ranked.
proof fn lemma_descendant_rows_contains(parents: Seq<u32>, sizes: Seq<u64>, a: int, m: int, d: int)
    requires
        1 <= d < m,
        d != a,
        anchor(parents, d) == a,
    ensures
        descendant_rows(parents, sizes, a, m).contains((sizes[d], d as u32)),
    decreases m,
{
    let rows = descendant_rows(parents, sizes, a, m);
    if d == m - 1 {
        assert(rows.last() == (sizes[d], d as u32));
        assert(rows[rows.len() - 1] == (sizes[d], d as u32));
    } else {
        lemma_descendant_rows_contains(parents, sizes, a, m - 1, d);
        let prev = descendant_rows(parents, sizes, a, m - 1);
        let i = choose|i: int| 0 <= i < prev.len() && prev[i] == (sizes[d], d as u32);
        assert(rows[i] == prev[i]);
    }
}

/// Each group lists its largest descendants: a descendant `d` of the
/// root's child `a` that is not listed is no larger than any listed one,
/// and then `limit` descendants are listed.
pub proof fn lemma_listed_descendants_are_largest(
    parents: Seq<u32>,
    names: Seq<Seq<u8>>,
    sizes: Seq<u64>,
    a: int,
    limit: int,
    d: int,
)
    requires
        parents_wf(parents),
        0 <= limit,
        1 <= d < parents.len(),
        d != a,
        anchor(parents, d) == a,
        forall|k: int|
            0 <= k < chosen_children(parents, names, sizes, a, limit).len() ==> (
            #[trigger] chosen_children(parents, names, sizes, a, limit)[k]).1 != d,
    ensures
        chosen_children(parents, names, sizes, a, limit).len() == limit,
        forall|k: int|
            0 <= k < chosen_children(parents, names, sizes, a, limit).len() ==> (
            #[trigger] chosen_children(parents, names, sizes, a, limit)[k]).0 >= sizes[d],
{
    let ro = row_order();
    let co = child_order(parents, names);
    assert(orders_by_size(ro));
    let rows = descendant_rows(parents, sizes, a, parents.len() as int);
    let y = (sizes[d], d as u32);
    lemma_descendant_rows_contains(parents, sizes, a, parents.len() as int, d);
    let ranked = rank_all(rows, ro);
    lemma_rank_all_sorted(rows, ro);
    lemma_rank_all_contains(rows, ro, y);
    let top = first_n(ranked, limit);
    let chosen = chosen_children(parents, names, sizes, a, limit);
    assert(chosen == rank_all(top, co));
    lemma_rank_all_contains(top, co, y);
    if chosen.contains(y) {
        let k = choose|k: int| 0 <= k < chosen.len() && chosen[k] == y;
        assert(chosen[k].1 != d);
        assert(false);
    }
    lemma_first_n_keeps_largest(ranked, limit, y);
    lemma_rank_all_len(top, co);
    assert forall|k: int| 0 <= k < chosen.len() implies (#[trigger] chosen[k]).0 >= sizes[d] by {
        assert(chosen.contains(chosen[k]));
        lemma_rank_all_contains(top, co, chosen[k]);
        let i = choose|i: int| 0 <= i < top.len() && top[i] == chosen[k];
        assert(top[i].0 >= y.0);
    }
}

/// The summary's total covers everything under the root, whatever the
/// number of groups shown: after the sizes are folded into the root, it is
/// the sum of every directory's own size.
pub proof fn lemma_summary_total_covers_everything(
    parents: Seq<u32>,
    names: Seq<Seq<u8>>,
    own: Seq<u64>,
    folded: Seq<u64>,
    top_n: int,
    limit: int,
)
    requires
        folded.len() >= 1,
        folded[0] == total(own),
    ensures
        summary_spec(parents, names, folded, top_n, limit).total == total(own),
{
}

/// At most `top_n` groups are shown, and each lists at most `limit`
/// descendants.
pub proof fn lemma_summary_within_limits(
    parents: Seq<u32>,
    names: Seq<Seq<u8>>,
    sizes: Seq<u64>,
    top_n: int,
    limit: int,
)
    requires
        0 <= top_n,
        0 <= limit,
    ensures
        summary_spec(parents, names, sizes, top_n, limit).groups.len() <= top_n,
        forall|g: int|
            0 <= g < summary_spec(parents, names, sizes, top_n, limit).groups.len() ==> (
            #[trigger] summary_spec(parents, names, sizes, top_n, limit).groups[g]).children.len()
                <= limit,
{
    if top_n != 0 {
        let cs = kept_groups(parents, names, sizes, top_n);
        let gs = summary_spec(parents, names, sizes, top_n, limit).groups;
        assert forall|g: int| 0 <= g < gs.len() implies (#[trigger] gs[g]).children.len()
            <= limit by {
            let c = cs[g];
            assert(gs[g] == group_spec(parents, names, sizes, limit, c));
            if c.1 < parents.len() {
                let rows = descendant_rows(parents, sizes, c.1 as int, parents.len() as int);
                let top = first_n(rank_all(rows, row_order()), limit);
                lemma_rank_all_len(top, child_order(parents, names));
            }
        }
    }
}

/// The rows ranked under a group are distinct: each names another node.
proof fn lemma_descendant_rows_distinct(parents: Seq<u32>, sizes: Seq<u64>, a: int, m: int)
    requires
        m <= parents.len() <= u32::MAX,
    ensures
        descendant_rows(parents, sizes, a, m).no_duplicates(),
    decreases m,
{
    if m > 1 {
        lemma_descendant_rows_distinct(parents, sizes, a, m - 1);
        lemma_descendant_rows_ids(parents, sizes, a, m - 1);
        let prev = descendant_rows(parents, sizes, a, m - 1);
        let cur = descendant_rows(parents, sizes, a, m);
        if m - 1 != a && anchor(parents, m - 1) == a {
            let x = (sizes[m - 1], (m - 1) as u32);
            assert(cur == prev.push(x));
            assert forall|i: int, j: int|
                0 <= i < cur.len() && 0 <= j < cur.len() && i != j implies cur[i] != cur[j] by {
                if i < prev.len() && j < prev.len() {
                    assert(cur[i] == prev[i] && cur[j] == prev[j]);
                } else if i < prev.len() {
                    assert(cur[i] == prev[i]);
                    assert(prev[i].1 < m - 1);
                } else {
                    assert(cur[j] == prev[j]);
                    assert(prev[j].1 < m - 1);
                }
            }
        }
    }
}

/// Raising `top_n` by one only adds a group at the end: the groups shown
/// before are shown again, in the same places.
pub proof fn lemma_more_groups_extend(
    parents: Seq<u32>,
    names: Seq<Seq<u8>>,
    sizes: Seq<u64>,
    top_n: int,
    limit: int,
)
    requires
        0 <= top_n,
    ensures
        summary_spec(parents, names, sizes, top_n, limit).groups.len() <= summary_spec(
            parents,
            names,
            sizes,
            top_n + 1,
            limit,
        ).groups.len(),
        forall|i: int|
            0 <= i < summary_spec(parents, names, sizes, top_n, limit).groups.len() ==> (
            #[trigger] summary_spec(parents, names, sizes, top_n, limit).groups[i])
                == summary_spec(parents, names, sizes, top_n + 1, limit).groups[i],
{
    let l = rank_all(group_candidates(parents, sizes), group_order(names));
    let a = kept_groups(parents, names, sizes, top_n);
    let b = kept_groups(parents, names, sizes, top_n + 1);
    assert forall|i: int| 0 <= i < a.len() implies a[i] == b[i] && i < b.len() by {
        assert(a[i] == l[i]);
        assert(b[i] == l[i]);
    }
}

/// Raising `child_limit` by one keeps every group (same name and total, in
/// the same place) and every child listed under it.
pub proof fn lemma_more_children_extend(
    parents: Seq<u32>,
    names: Seq<Seq<u8>>,
    sizes: Seq<u64>,
    top_n: int,
    limit: int,
)
    requires
        parents_wf(parents),
        0 <= top_n,
        0 <= limit,
    ensures
        summary_spec(parents, names, sizes, top_n, limit).groups.len() == summary_spec(
            parents,
            names,
            sizes,
            top_n,
            limit + 1,
        ).groups.len(),
        forall|g: int|
            0 <= g < summary_spec(parents, names, sizes, top_n, limit).groups.len() ==> (
            #[trigger] summary_spec(parents, names, sizes, top_n, limit).groups[g]).children.to_multiset().subset_of(
                summary_spec(parents, names, sizes, top_n, limit + 1).groups[g].children.to_multiset(),
            ),
        forall|g: int|
            0 <= g < summary_spec(parents, names, sizes, top_n, limit).groups.len() ==> (
            #[trigger] summary_spec(parents, names, sizes, top_n, limit).groups[g]).root
                == summary_spec(parents, names, sizes, top_n, limit + 1).groups[g].root
                && summary_spec(parents, names, sizes, top_n, limit).groups[g].total
                == summary_spec(parents, names, sizes, top_n, limit + 1).groups[g].total,
        forall|g: int, i: int|
            0 <= g < summary_spec(parents, names, sizes, top_n, limit).groups.len() && 0 <= i
                < summary_spec(parents, names, sizes, top_n, limit).groups[g].children.len()
                ==> summary_spec(parents, names, sizes, top_n, limit + 1).groups[g].children.contains(
                #[trigger] summary_spec(parents, names, sizes, top_n, limit).groups[g].children[i],
            ),
{
    let cs = kept_groups(parents, names, sizes, top_n);
    let ga = summary_spec(parents, names, sizes, top_n, limit).groups;
    let gb = summary_spec(parents, names, sizes, top_n, limit + 1).groups;
    assert forall|g: int, i: int| 0 <= g < ga.len() && 0 <= i < ga[g].children.len() implies gb[
        g
    ].children.contains(#[trigger] ga[g].children[i]) by {
        let c = cs[g];
        assert(ga[g] == group_spec(parents, names, sizes, limit, c));
        assert(gb[g] == group_spec(parents, names, sizes, limit + 1, c));
        if c.1 < parents.len() {
            let co = child_order(parents, names);
            let ranked = rank_all(
                descendant_rows(parents, sizes, c.1 as int, parents.len() as int),
                row_order(),
            );
            let top_a = first_n(ranked, limit);
            let top_b = first_n(ranked, limit + 1);
            let ca = chosen_children(parents, names, sizes, c.1 as int, limit);
            let cb = chosen_children(parents, names, sizes, c.1 as int, limit + 1);
            let x = ca[i];
            assert(ca.contains(x));
            lemma_rank_all_contains(top_a, co, x);
            let p = choose|p: int| 0 <= p < top_a.len() && top_a[p] == x;
            assert(top_a[p] == ranked[p]);
            assert(top_b[p] == ranked[p]);
            assert(top_b.contains(x));
            lemma_rank_all_contains(top_b, co, x);
            let q = choose|q: int| 0 <= q < cb.len() && cb[q] == x;
            assert(gb[g].children[q] == ga[g].children[i]);
        }
    }
    assert forall|g: int| 0 <= g < ga.len() implies (#[trigger] ga[g]).children.to_multiset().subset_of(
        gb[g].children.to_multiset(),
    ) by {
        let c = cs[g];
        assert(ga[g] == group_spec(parents, names, sizes, limit, c));
        assert(gb[g] == group_spec(parents, names, sizes, limit + 1, c));
        if c.1 < parents.len() {
            let co = child_order(parents, names);
            let rows = descendant_rows(parents, sizes, c.1 as int, parents.len() as int);
            let ranked = rank_all(rows, row_order());
            let top_a = first_n(ranked, limit);
            let top_b = first_n(ranked, limit + 1);
            let ca = chosen_children(parents, names, sizes, c.1 as int, limit);
            let cb = chosen_children(parents, names, sizes, c.1 as int, limit + 1);
            lemma_descendant_rows_distinct(parents, sizes, c.1 as int, parents.len() as int);
            lemma_rank_all_no_duplicates(rows, row_order());
            assert(top_a.no_duplicates()) by {
                assert forall|p: int, q: int|
                    0 <= p < top_a.len() && 0 <= q < top_a.len() && p != q implies top_a[p]
                    != top_a[q] by {
                    assert(top_a[p] == ranked[p] && top_a[q] == ranked[q]);
                }
            }
            lemma_rank_all_no_duplicates(top_a, co);
            assert forall|i: int| 0 <= i < ca.len() implies cb.contains(#[trigger] ca[i]) by {
                let x = ca[i];
                assert(ca.contains(x));
                lemma_rank_all_contains(top_a, co, x);
                let p = choose|p: int| 0 <= p < top_a.len() && top_a[p] == x;
                assert(top_a[p] == ranked[p]);
                assert(top_b[p] == ranked[p]);
                assert(top_b.contains(x));
                lemma_rank_all_contains(top_b, co, x);
            }
            let f = |r: (u64, u32)| row_spec(parents, names, r);
            lemma_mapped_sub_multiset(ca, cb, f);
            assert(ga[g].children =~= ca.map_values(f));
            assert(gb[g].children =~= cb.map_values(f));
        } else {
            assert(ga[g].children =~= Seq::<RowSpec>::empty());
            assert(ga[g].children.to_multiset() =~= vstd::multiset::Multiset::<RowSpec>::empty()) by {
                vstd::seq_lib::to_multiset_len(ga[g].children);
                broadcast use vstd::multiset::group_multiset_axioms;
            }
            broadcast use vstd::multiset::group_multiset_axioms;
        }
    }
}

} // verus!
