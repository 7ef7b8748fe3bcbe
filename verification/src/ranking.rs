//! Ordering helpers: stable ordering by a "comes before" relation,
//! keeping only the first `k`, and lexicographic comparison of byte strings.

use vstd::prelude::*;

verus! {

/// Inserts `x` in front of the first element that it comes before, so that
/// elements it does not come before (ties included) stay ahead of it.
pub open spec fn insert_ranked<T>(l: Seq<T>, x: T, before: spec_fn(T, T) -> bool) -> Seq<T>
    decreases l.len(),
{
    if l.len() == 0 {
        seq![x]
    } else if before(x, l[0]) {
        seq![x] + l
    } else {
        seq![l[0]] + insert_ranked(l.drop_first(), x, before)
    }
}

/// `s` ordered by `before`, stably: elements that tie keep their relative
/// order (this is what a stable sort with that comparator produces).
pub open spec fn rank_all<T>(s: Seq<T>, before: spec_fn(T, T) -> bool) -> Seq<T>
    decreases s.len(),
{
    if s.len() == 0 {
        Seq::empty()
    } else {
        insert_ranked(rank_all(s.drop_last(), before), s.last(), before)
    }
}

/// The first `k` elements of `s` (all of them when there are fewer), as
/// `Vec::truncate` leaves them.
pub open spec fn first_n<T>(s: Seq<T>, k: int) -> Seq<T> {
    if k < s.len() {
        s.take(k)
    } else {
        s
    }
}

/// Lexicographic order on byte strings (as `[u8]`'s `Ord`): `a < b`.
pub open spec fn bytes_lt(a: Seq<u8>, b: Seq<u8>) -> bool
    decreases a.len(),
{
    if a.len() == 0 {
        b.len() > 0
    } else if b.len() == 0 {
        false
    } else if a[0] != b[0] {
        a[0] < b[0]
    } else {
        bytes_lt(a.drop_first(), b.drop_first())
    }
}

/// Lexicographic order on sequences of byte strings, each compared by `bytes_lt`.
pub open spec fn components_lt(a: Seq<Seq<u8>>, b: Seq<Seq<u8>>) -> bool
    decreases a.len(),
{
    if a.len() == 0 {
        b.len() > 0
    } else if b.len() == 0 {
        false
    } else if a[0] != b[0] {
        bytes_lt(a[0], b[0])
    } else {
        components_lt(a.drop_first(), b.drop_first())
    }
}

/// Inserting and then keeping `k` only depends on the first `k` elements.
pub proof fn lemma_insert_first_n<T>(l: Seq<T>, x: T, before: spec_fn(T, T) -> bool, k: int)
    requires
        0 <= k,
    ensures
        first_n(insert_ranked(l, x, before), k) == first_n(
            insert_ranked(first_n(l, k), x, before),
            k,
        ),
    decreases l.len(),
{
    lemma_insert_len(l, x, before);
    lemma_insert_len(first_n(l, k), x, before);
    if k >= l.len() {
        assert(first_n(l, k) =~= l);
    } else if k == 0 {
        assert(first_n(insert_ranked(l, x, before), k) =~= Seq::<T>::empty());
        assert(first_n(insert_ranked(first_n(l, k), x, before), k) =~= Seq::<T>::empty());
    } else {
        let lk = first_n(l, k);
        assert(lk == l.take(k));
        assert(lk.len() > 0 && lk[0] == l[0]);
        if before(x, l[0]) {
            assert(first_n(seq![x] + l, k) =~= first_n(seq![x] + lk, k));
        } else {
            let rest = l.drop_first();
            assert(lk.drop_first() =~= first_n(rest, k - 1));
            lemma_insert_first_n(rest, x, before, k - 1);
            let a = insert_ranked(rest, x, before);
            let b = insert_ranked(first_n(rest, k - 1), x, before);
            lemma_insert_len(rest, x, before);
            lemma_insert_len(first_n(rest, k - 1), x, before);
            assert(first_n(seq![l[0]] + a, k) =~= seq![l[0]] + first_n(a, k - 1));
            assert(first_n(seq![l[0]] + b, k) =~= seq![l[0]] + first_n(b, k - 1));
        }
    }
}

/// Inserting one element makes the sequence one longer.
pub proof fn lemma_insert_len<T>(l: Seq<T>, x: T, before: spec_fn(T, T) -> bool)
    ensures
        insert_ranked(l, x, before).len() == l.len() + 1,
    decreases l.len(),
{
    if l.len() > 0 && !before(x, l[0]) {
        lemma_insert_len(l.drop_first(), x, before);
    }
}

/// Ordering keeps the number of elements.
pub proof fn lemma_rank_all_len<T>(s: Seq<T>, before: spec_fn(T, T) -> bool)
    ensures
        rank_all(s, before).len() == s.len(),
    decreases s.len(),
{
    if s.len() > 0 {
        lemma_rank_all_len(s.drop_last(), before);
        lemma_insert_len(rank_all(s.drop_last(), before), s.last(), before);
    }
}

/// Extending the input by one element, when only the first `k` are kept.
pub proof fn lemma_rank_push_first_n<T>(s: Seq<T>, x: T, before: spec_fn(T, T) -> bool, k: int)
    requires
        0 <= k,
    ensures
        first_n(rank_all(s.push(x), before), k) == first_n(
            insert_ranked(first_n(rank_all(s, before), k), x, before),
            k,
        ),
{
    assert(s.push(x).drop_last() =~= s);
    lemma_insert_first_n(rank_all(s, before), x, before, k);
}

/// Where `insert_ranked` puts `x`: the first position whose element `x` comes before.
pub proof fn lemma_insert_at<T>(l: Seq<T>, x: T, before: spec_fn(T, T) -> bool, p: int)
    requires
        0 <= p <= l.len(),
        forall|j: int| 0 <= j < p ==> !before(x, #[trigger] l[j]),
        p < l.len() ==> before(x, l[p]),
    ensures
        insert_ranked(l, x, before) == l.insert(p, x),
    decreases l.len(),
{
    if l.len() == 0 {
        assert(l.insert(p, x) =~= seq![x]);
    } else if p == 0 {
        assert(l.insert(p, x) =~= seq![x] + l);
    } else {
        let rest = l.drop_first();
        assert forall|j: int| 0 <= j < p - 1 implies !before(x, #[trigger] rest[j]) by {
            assert(rest[j] == l[j + 1]);
        }
        lemma_insert_at(rest, x, before, p - 1);
        assert(l.insert(p, x) =~= seq![l[0]] + rest.insert(p - 1, x));
    }
}

/// Keeping a property of every element through `insert_ranked`.
pub proof fn lemma_insert_preserves<T>(
    l: Seq<T>,
    x: T,
    before: spec_fn(T, T) -> bool,
    pred: spec_fn(T) -> bool,
)
    requires
        forall|i: int| 0 <= i < l.len() ==> pred(#[trigger] l[i]),
        pred(x),
    ensures
        forall|i: int|
            0 <= i < insert_ranked(l, x, before).len() ==> pred(
                #[trigger] insert_ranked(l, x, before)[i],
            ),
    decreases l.len(),
{
    if l.len() > 0 && !before(x, l[0]) {
        let rest = l.drop_first();
        assert forall|i: int| 0 <= i < rest.len() implies pred(#[trigger] rest[i]) by {
            assert(rest[i] == l[i + 1]);
        }
        lemma_insert_preserves(rest, x, before, pred);
        let r = insert_ranked(rest, x, before);
        assert forall|i: int| 0 <= i < insert_ranked(l, x, before).len() implies pred(
            #[trigger] insert_ranked(l, x, before)[i],
        ) by {
            if i > 0 {
                assert(insert_ranked(l, x, before)[i] == r[i - 1]);
            }
        }
    }
}

/// Keeping a property of every element through `rank_all`.
pub proof fn lemma_rank_all_preserves<T>(
    s: Seq<T>,
    before: spec_fn(T, T) -> bool,
    pred: spec_fn(T) -> bool,
)
    requires
        forall|i: int| 0 <= i < s.len() ==> pred(#[trigger] s[i]),
    ensures
        forall|i: int|
            0 <= i < rank_all(s, before).len() ==> pred(#[trigger] rank_all(s, before)[i]),
    decreases s.len(),
{
    if s.len() > 0 {
        let init = s.drop_last();
        assert forall|i: int| 0 <= i < init.len() implies pred(#[trigger] init[i]) by {
            assert(init[i] == s[i]);
        }
        lemma_rank_all_preserves(init, before, pred);
        lemma_insert_preserves(rank_all(init, before), s.last(), before, pred);
    }
}

/// `before` puts larger sizes (the first field) first: an element that
/// comes before another is at least as large, one that does not is at most
/// as large.
pub open spec fn orders_by_size(before: spec_fn((u64, u32), (u64, u32)) -> bool) -> bool {
    forall|a: (u64, u32), b: (u64, u32)|
        (#[trigger] before(a, b) ==> a.0 >= b.0) && (!before(a, b) ==> a.0 <= b.0)
}

/// Sizes (the first field) never grow along `l`.
pub open spec fn sizes_descending(l: Seq<(u64, u32)>) -> bool {
    forall|i: int, j: int| 0 <= i < j < l.len() ==> l[i].0 >= l[j].0
}

/// Inserting into a list ordered largest first keeps it so.
pub proof fn lemma_insert_sorted(
    l: Seq<(u64, u32)>,
    x: (u64, u32),
    before: spec_fn((u64, u32), (u64, u32)) -> bool,
)
    requires
        orders_by_size(before),
        sizes_descending(l),
    ensures
        sizes_descending(insert_ranked(l, x, before)),
    decreases l.len(),
{
    if l.len() == 0 {
    } else if before(x, l[0]) {
        let r = seq![x] + l;
        assert forall|i: int, j: int| 0 <= i < j < r.len() implies r[i].0 >= r[j].0 by {
            if i == 0 {
                assert(r[j] == l[j - 1]);
            } else {
                assert(r[i] == l[i - 1] && r[j] == l[j - 1]);
            }
        }
    } else {
        let head = l[0];
        let rest = l.drop_first();
        assert(sizes_descending(rest)) by {
            assert forall|i: int, j: int| 0 <= i < j < rest.len() implies rest[i].0 >= rest[j].0 by {
                assert(rest[i] == l[i + 1] && rest[j] == l[j + 1]);
            }
        }
        lemma_insert_sorted(rest, x, before);
        let small = |e: (u64, u32)| e.0 <= head.0;
        assert forall|i: int| 0 <= i < rest.len() implies small(#[trigger] rest[i]) by {
            assert(rest[i] == l[i + 1]);
        }
        lemma_insert_preserves(rest, x, before, small);
        let ins = insert_ranked(rest, x, before);
        let r = seq![head] + ins;
        assert(insert_ranked(l, x, before) == r);
        assert forall|i: int, j: int| 0 <= i < j < r.len() implies r[i].0 >= r[j].0 by {
            assert(r[j] == ins[j - 1]);
            if i == 0 {
                assert(small(ins[j - 1]));
            } else {
                assert(r[i] == ins[i - 1]);
            }
        }
    }
}

/// Ordering by a relation that puts larger sizes first gives a list
/// ordered largest first.
pub proof fn lemma_rank_all_sorted(s: Seq<(u64, u32)>, before: spec_fn((u64, u32), (u64, u32)) -> bool)
    requires
        orders_by_size(before),
    ensures
        sizes_descending(rank_all(s, before)),
    decreases s.len(),
{
    if s.len() > 0 {
        lemma_rank_all_sorted(s.drop_last(), before);
        lemma_insert_sorted(rank_all(s.drop_last(), before), s.last(), before);
    }
}

/// Keeping the first `k` of a list ordered largest first keeps it so.
pub proof fn lemma_first_n_sorted(l: Seq<(u64, u32)>, k: int)
    requires
        0 <= k,
        sizes_descending(l),
    ensures
        sizes_descending(first_n(l, k)),
{
    if k < l.len() {
        let t = l.take(k);
        assert forall|i: int, j: int| 0 <= i < j < t.len() implies t[i].0 >= t[j].0 by {
            assert(t[i] == l[i] && t[j] == l[j]);
        }
    }
}

/// Inserting adds exactly the inserted element.
pub proof fn lemma_insert_contains<T>(l: Seq<T>, x: T, before: spec_fn(T, T) -> bool, y: T)
    ensures
        insert_ranked(l, x, before).contains(y) <==> (l.contains(y) || y == x),
    decreases l.len(),
{
    let r = insert_ranked(l, x, before);
    if l.len() == 0 {
        assert(r[0] == x);
    } else if before(x, l[0]) {
        assert(r == seq![x] + l);
        if l.contains(y) {
            let i = choose|i: int| 0 <= i < l.len() && l[i] == y;
            assert(r[i + 1] == y);
        }
        if r.contains(y) {
            let i = choose|i: int| 0 <= i < r.len() && r[i] == y;
            if i > 0 {
                assert(l[i - 1] == y);
            }
        }
        assert(r[0] == x);
    } else {
        let rest = l.drop_first();
        lemma_insert_contains(rest, x, before, y);
        let ins = insert_ranked(rest, x, before);
        assert(r == seq![l[0]] + ins);
        if l.contains(y) {
            let i = choose|i: int| 0 <= i < l.len() && l[i] == y;
            if i == 0 {
                assert(r[0] == y);
            } else {
                assert(rest[i - 1] == y);
                let k = choose|k: int| 0 <= k < ins.len() && ins[k] == y;
                assert(r[k + 1] == y);
            }
        }
        if y == x {
            assert(ins.contains(y));
            let k = choose|k: int| 0 <= k < ins.len() && ins[k] == y;
            assert(r[k + 1] == y);
        }
        if r.contains(y) {
            let i = choose|i: int| 0 <= i < r.len() && r[i] == y;
            if i == 0 {
                assert(l[0] == y);
            } else {
                assert(ins[i - 1] == y);
                if rest.contains(y) {
                    let k = choose|k: int| 0 <= k < rest.len() && rest[k] == y;
                    assert(l[k + 1] == y);
                }
            }
        }
    }
}

/// Ordering neither adds nor drops elements.
pub proof fn lemma_rank_all_contains<T>(s: Seq<T>, before: spec_fn(T, T) -> bool, y: T)
    ensures
        rank_all(s, before).contains(y) <==> s.contains(y),
    decreases s.len(),
{
    if s.len() > 0 {
        let init = s.drop_last();
        lemma_rank_all_contains(init, before, y);
        lemma_insert_contains(rank_all(init, before), s.last(), before, y);
        if s.contains(y) {
            let i = choose|i: int| 0 <= i < s.len() && s[i] == y;
            if i < s.len() - 1 {
                assert(init[i] == y);
            }
        }
        if init.contains(y) {
            let i = choose|i: int| 0 <= i < init.len() && init[i] == y;
            assert(s[i] == y);
        }
        assert(s[s.len() - 1] == s.last());
    }
}

/// An element that a list ordered largest first does not keep among its
/// first `k` is no larger than any element kept, and then `k` are kept.
pub proof fn lemma_first_n_keeps_largest(l: Seq<(u64, u32)>, k: int, y: (u64, u32))
    requires
        0 <= k,
        sizes_descending(l),
        l.contains(y),
        !first_n(l, k).contains(y),
    ensures
        first_n(l, k).len() == k,
        forall|i: int| 0 <= i < first_n(l, k).len() ==> (#[trigger] first_n(l, k)[i]).0 >= y.0,
{
    let p = choose|p: int| 0 <= p < l.len() && l[p] == y;
    if k >= l.len() {
        assert(first_n(l, k) == l);
        assert(false);
    }
    let t = l.take(k);
    if p < k {
        assert(t[p] == y);
        assert(false);
    }
    assert forall|i: int| 0 <= i < t.len() implies (#[trigger] t[i]).0 >= y.0 by {
        assert(t[i] == l[i]);
    }
}

/// Inserting an element that is not there yet keeps the elements distinct.
pub proof fn lemma_insert_no_duplicates<T>(l: Seq<T>, x: T, before: spec_fn(T, T) -> bool)
    requires
        l.no_duplicates(),
        !l.contains(x),
    ensures
        insert_ranked(l, x, before).no_duplicates(),
    decreases l.len(),
{
    let r = insert_ranked(l, x, before);
    if l.len() == 0 {
    } else if before(x, l[0]) {
        assert(r == seq![x] + l);
        assert forall|i: int, j: int| 0 <= i < r.len() && 0 <= j < r.len() && i != j implies r[i]
            != r[j] by {
            if i > 0 && j > 0 {
                assert(r[i] == l[i - 1] && r[j] == l[j - 1]);
            } else if i == 0 {
                assert(r[j] == l[j - 1]);
                assert(l.contains(l[j - 1]));
            } else {
                assert(r[i] == l[i - 1]);
                assert(l.contains(l[i - 1]));
            }
        }
    } else {
        let rest = l.drop_first();
        assert(rest.no_duplicates()) by {
            assert forall|i: int, j: int|
                0 <= i < rest.len() && 0 <= j < rest.len() && i != j implies rest[i] != rest[j] by {
                assert(rest[i] == l[i + 1] && rest[j] == l[j + 1]);
            }
        }
        assert(!rest.contains(x)) by {
            if rest.contains(x) {
                let k = choose|k: int| 0 <= k < rest.len() && rest[k] == x;
                assert(l[k + 1] == x);
            }
        }
        lemma_insert_no_duplicates(rest, x, before);
        let ins = insert_ranked(rest, x, before);
        assert(r == seq![l[0]] + ins);
        assert(!ins.contains(l[0])) by {
            lemma_insert_contains(rest, x, before, l[0]);
            if rest.contains(l[0]) {
                let k = choose|k: int| 0 <= k < rest.len() && rest[k] == l[0];
                assert(l[k + 1] == l[0]);
            }
            assert(l.contains(l[0]));
        }
        assert forall|i: int, j: int| 0 <= i < r.len() && 0 <= j < r.len() && i != j implies r[i]
            != r[j] by {
            if i > 0 && j > 0 {
                assert(r[i] == ins[i - 1] && r[j] == ins[j - 1]);
            } else if i == 0 {
                assert(r[j] == ins[j - 1]);
                assert(ins.contains(ins[j - 1]));
            } else {
                assert(r[i] == ins[i - 1]);
                assert(ins.contains(ins[i - 1]));
            }
        }
    }
}

/// Ordering distinct elements keeps them distinct.
pub proof fn lemma_rank_all_no_duplicates<T>(s: Seq<T>, before: spec_fn(T, T) -> bool)
    requires
        s.no_duplicates(),
    ensures
        rank_all(s, before).no_duplicates(),
    decreases s.len(),
{
    if s.len() > 0 {
        let init = s.drop_last();
        assert(init.no_duplicates()) by {
            assert forall|i: int, j: int|
                0 <= i < init.len() && 0 <= j < init.len() && i != j implies init[i] != init[j] by {
                assert(init[i] == s[i] && init[j] == s[j]);
            }
        }
        lemma_rank_all_no_duplicates(init, before);
        lemma_rank_all_contains(init, before, s.last());
        assert(!init.contains(s.last())) by {
            if init.contains(s.last()) {
                let k = choose|k: int| 0 <= k < init.len() && init[k] == s.last();
                assert(s[k] == s[s.len() - 1]);
            }
        }
        lemma_insert_no_duplicates(rank_all(init, before), s.last(), before);
    }
}

/// Distinct elements that all occur in `b` map to a part of what `b` maps
/// to, counted with multiplicity.
pub proof fn lemma_mapped_sub_multiset<T, U>(a: Seq<T>, b: Seq<T>, f: spec_fn(T) -> U)
    requires
        a.no_duplicates(),
        forall|i: int| 0 <= i < a.len() ==> b.contains(#[trigger] a[i]),
    ensures
        a.map_values(f).to_multiset().subset_of(b.map_values(f).to_multiset()),
    decreases a.len(),
{
    broadcast use vstd::multiset::group_multiset_axioms;
    broadcast use vstd::seq_lib::to_multiset_build;
    broadcast use vstd::seq_lib::to_multiset_remove;

    if a.len() == 0 {
        assert(a.map_values(f) =~= Seq::<U>::empty());
        assert(a.map_values(f).to_multiset() =~= vstd::multiset::Multiset::<U>::empty()) by {
            vstd::seq_lib::to_multiset_len(a.map_values(f));
            assert(a.map_values(f).to_multiset().len() == 0);
        }
    } else {
        let x = a.last();
        let a1 = a.drop_last();
        let j = choose|j: int| 0 <= j < b.len() && b[j] == x;
        let b1 = b.remove(j);
        assert(a1.no_duplicates()) by {
            assert forall|p: int, q: int|
                0 <= p < a1.len() && 0 <= q < a1.len() && p != q implies a1[p] != a1[q] by {
                assert(a1[p] == a[p] && a1[q] == a[q]);
            }
        }
        assert forall|i: int| 0 <= i < a1.len() implies b1.contains(#[trigger] a1[i]) by {
            assert(a1[i] == a[i]);
            assert(a[i] != x) by {
                assert(x == a[a.len() - 1]);
            }
            assert(b.contains(a[i]));
            let k = choose|k: int| 0 <= k < b.len() && b[k] == a[i];
            assert(k != j);
            if k < j {
                assert(b1[k] == b[k]);
            } else {
                assert(b1[k - 1] == b[k]);
            }
        }
        lemma_mapped_sub_multiset(a1, b1, f);
        let ma = a.map_values(f);
        let mb = b.map_values(f);
        assert(ma =~= a1.map_values(f).push(f(x)));
        assert(mb.remove(j) =~= b1.map_values(f));
        assert(mb[j] == f(x));
        let big = mb.to_multiset();
        let small = b1.map_values(f).to_multiset();
        assert(small == big.remove(f(x)));
        assert(mb.contains(f(x)));
        vstd::seq_lib::to_multiset_contains(mb, f(x));
        assert(big.count(f(x)) > 0);
        assert forall|v: U| ma.to_multiset().count(v) <= big.count(v) by {
            assert(ma.to_multiset() == a1.map_values(f).to_multiset().insert(f(x)));
        }
    }
}

/// Exec counterpart of `bytes_lt`.
pub fn bytes_less(a: &[u8], b: &[u8]) -> (lt: bool)
    ensures
        lt == bytes_lt(a@, b@),
{
    let mut i: usize = 0;
    proof {
        assert(a@.skip(0) =~= a@);
        assert(b@.skip(0) =~= b@);
    }
    while i < a.len() && i < b.len()
        invariant
            i <= a@.len(),
            i <= b@.len(),
            bytes_lt(a@, b@) == bytes_lt(a@.skip(i as int), b@.skip(i as int)),
        decreases a@.len() - i,
    {
        if a[i] != b[i] {
            return a[i] < b[i];
        }
        assert(a@.skip(i as int).drop_first() =~= a@.skip(i + 1));
        assert(b@.skip(i as int).drop_first() =~= b@.skip(i + 1));
        i = i + 1;
    }
    i == a.len() && i < b.len()
}

/// Exec counterpart of `components_lt`.
pub fn components_less(a: &Vec<Vec<u8>>, b: &Vec<Vec<u8>>) -> (lt: bool)
    ensures
        lt == components_lt(a.deep_view(), b.deep_view()),
{
    let ghost da = a.deep_view();
    let ghost db = b.deep_view();
    let mut i: usize = 0;
    proof {
        assert(da.skip(0) =~= da);
        assert(db.skip(0) =~= db);
    }
    while i < a.len() && i < b.len()
        invariant
            da == a.deep_view(),
            db == b.deep_view(),
            i <= a@.len(),
            i <= b@.len(),
            components_lt(da, db) == components_lt(da.skip(i as int), db.skip(i as int)),
        decreases a@.len() - i,
    {
        assert(da[i as int] == a@[i as int]@);
        assert(db[i as int] == b@[i as int]@);
        if !crate::tree::bytes_equal(a[i].as_slice(), b[i].as_slice()) {
            return bytes_less(a[i].as_slice(), b[i].as_slice());
        }
        assert(da.skip(i as int).drop_first() =~= da.skip(i + 1));
        assert(db.skip(i as int).drop_first() =~= db.skip(i + 1));
        i = i + 1;
    }
    i == a.len() && i < b.len()
}

} // verus!
