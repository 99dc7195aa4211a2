use vstd::prelude::*;
use crate::dataset::DataSet;
use crate::gain::{class_count_of, count_of, label_sum_of, selected};
use crate::split_finder::{is_sorted_view, lists_row, pair_lt};

verus! {

/// Sum of `f` over the entries of `idx`.
pub open spec fn sum_over(idx: Seq<int>, f: spec_fn(int) -> int) -> int
    decreases idx.len(),
{
    if idx.len() == 0 {
        0
    } else {
        sum_over(idx.drop_last(), f) + f(idx.last())
    }
}

/// Sum of `f` over 0, 1, ..., m - 1.
pub open spec fn range_sum(f: spec_fn(int) -> int, m: int) -> int
    decreases m,
{
    if m <= 0 {
        0
    } else {
        range_sum(f, m - 1) + f(m - 1)
    }
}

/// Some entry of `idx` is `i`.
pub open spec fn has_index(idx: Seq<int>, i: int) -> bool {
    exists|j: int| 0 <= j < idx.len() && idx[j] == i
}

/// `idx` lists 0, 1, ..., m - 1, each once, in some order.
pub open spec fn is_index_perm(idx: Seq<int>, m: int) -> bool {
    &&& idx.len() == m
    &&& forall|j: int| 0 <= j < idx.len() ==> 0 <= #[trigger] idx[j] < m
    &&& forall|a: int, b: int| 0 <= a < idx.len() && 0 <= b < idx.len() && a != b ==> #[trigger] idx[a] != #[trigger] idx[b]
    &&& forall|i: int| 0 <= i < m ==> #[trigger] has_index(idx, i)
}

proof fn lemma_sum_remove(idx: Seq<int>, f: spec_fn(int) -> int, q: int)
    requires
        0 <= q < idx.len(),
    ensures
        sum_over(idx, f) == sum_over(idx.remove(q), f) + f(idx[q]),
    decreases idx.len(),
{
    if q == idx.len() - 1 {
        assert(idx.remove(q) =~= idx.drop_last());
    } else {
        let s = idx.drop_last();
        lemma_sum_remove(s, f, q);
        assert(idx.remove(q).drop_last() =~= s.remove(q));
        assert(idx.remove(q).last() == idx.last());
    }
}

/// A sum over a reordering of 0..m equals the sum over 0..m.
pub proof fn lemma_perm_sum(idx: Seq<int>, f: spec_fn(int) -> int, m: int)
    requires
        m >= 0,
        is_index_perm(idx, m),
    ensures
        sum_over(idx, f) == range_sum(f, m),
    decreases m,
{
    if m > 0 {
        assert(has_index(idx, m - 1));
        let q = choose|j: int| 0 <= j < idx.len() && idx[j] == m - 1;
        let r = idx.remove(q);
        lemma_sum_remove(idx, f, q);
        assert forall|j: int| 0 <= j < r.len() implies 0 <= #[trigger] r[j] < m - 1 by {
            if j < q {
                assert(r[j] == idx[j]);
            } else {
                assert(r[j] == idx[j + 1]);
            }
        }
        assert forall|a: int, b: int|
            0 <= a < r.len() && 0 <= b < r.len() && a != b implies #[trigger] r[a] != #[trigger] r[b] by {
            let a2 = if a < q { a } else { a + 1 };
            let b2 = if b < q { b } else { b + 1 };
            assert(r[a] == idx[a2] && r[b] == idx[b2]);
        }
        assert forall|i: int| 0 <= i < m - 1 implies #[trigger] has_index(r, i) by {
            assert(has_index(idx, i));
            let j = choose|j: int| 0 <= j < idx.len() && idx[j] == i;
            if j < q {
                assert(r[j] == i);
            } else {
                assert(j != q);
                assert(r[j - 1] == i);
            }
        }
        lemma_perm_sum(r, f, m - 1);
    }
}

/// When `g` agrees with `w` on the first `p` entries and is zero on the rest,
/// the sum of `g` is the sum of `w` over the first `p` entries.
pub proof fn lemma_sum_prefix(idx: Seq<int>, g: spec_fn(int) -> int, w: spec_fn(int) -> int, p: int)
    requires
        0 <= p <= idx.len(),
        forall|j: int| 0 <= j < p ==> g(#[trigger] idx[j]) == w(idx[j]),
        forall|j: int| p <= j < idx.len() ==> g(#[trigger] idx[j]) == 0,
    ensures
        sum_over(idx, g) == sum_over(idx.subrange(0, p), w),
    decreases idx.len(),
{
    if idx.len() > 0 {
        if p == idx.len() {
            lemma_sum_prefix(idx.drop_last(), g, w, p - 1);
            assert(idx.drop_last().subrange(0, p - 1) =~= idx.subrange(0, p).drop_last());
            assert(idx.drop_last() =~= idx.subrange(0, p).drop_last());
            assert(idx.subrange(0, p) =~= idx);
        } else {
            lemma_sum_prefix(idx.drop_last(), g, w, p);
            assert(idx.drop_last().subrange(0, p) =~= idx.subrange(0, p));
        }
    }
}

/// 1 for a selected row, else 0.
pub open spec fn sel_count_fn(d: DataSet, column: int, threshold: int, whole: bool) -> spec_fn(int) -> int {
    |i: int| if selected(d, column, threshold, whole, i) { 1int } else { 0int }
}

/// The label of a selected row, else 0.
pub open spec fn sel_label_fn(d: DataSet, column: int, threshold: int, whole: bool) -> spec_fn(int) -> int {
    |i: int| if selected(d, column, threshold, whole, i) { d.labels@[i] as int } else { 0int }
}

/// 1 for a selected row of class `k`, else 0.
pub open spec fn sel_class_fn(d: DataSet, column: int, threshold: int, whole: bool, k: int) -> spec_fn(int) -> int {
    |i: int| if selected(d, column, threshold, whole, i) && d.labels@[i] == k { 1int } else { 0int }
}

pub open spec fn one_fn() -> spec_fn(int) -> int {
    |i: int| 1int
}

pub open spec fn label_fn(d: DataSet) -> spec_fn(int) -> int {
    |i: int| d.labels@[i] as int
}

pub open spec fn class_fn(d: DataSet, k: int) -> spec_fn(int) -> int {
    |i: int| if d.labels@[i] == k { 1int } else { 0int }
}

/// The row indices of a sorted view, in its order.
pub open spec fn view_indices(sv: Seq<(i32, i32)>) -> Seq<int> {
    Seq::new(sv.len(), |j: int| sv[j].1 as int)
}

/// Count, label sum and class counts are sums over the rows.
pub proof fn lemma_counts_are_range_sums(d: DataSet, column: int, threshold: int, whole: bool, k: int, m: int)
    ensures
        count_of(d, column, threshold, whole, m) == range_sum(sel_count_fn(d, column, threshold, whole), m),
        label_sum_of(d, column, threshold, whole, m) == range_sum(sel_label_fn(d, column, threshold, whole), m),
        class_count_of(d, column, threshold, whole, k, m) == range_sum(
            sel_class_fn(d, column, threshold, whole, k),
            m,
        ),
    decreases m,
{
    if m > 0 {
        lemma_counts_are_range_sums(d, column, threshold, whole, k, m - 1);
    }
}

proof fn lemma_sum_ones(s: Seq<int>)
    ensures
        sum_over(s, one_fn()) == s.len(),
    decreases s.len(),
{
    if s.len() > 0 {
        lemma_sum_ones(s.drop_last());
    }
}

/// The row indices of a sorted view reorder 0..n.
pub proof fn lemma_view_indices_perm(sv: Seq<(i32, i32)>, features: Seq<Vec<i32>>, column: int)
    requires
        is_sorted_view(sv, features, column),
    ensures
        is_index_perm(view_indices(sv), features.len() as int),
{
    let idx = view_indices(sv);
    assert forall|i: int| 0 <= i < features.len() implies #[trigger] has_index(idx, i) by {
        assert(lists_row(sv, i));
        let j = choose|j: int| 0 <= j < sv.len() && (#[trigger] sv[j]).1 == i;
        assert(idx[j] == i);
    }
    assert forall|a: int, b: int| 0 <= a < idx.len() && 0 <= b < idx.len() && a != b implies #[trigger] idx[a]
        != #[trigger] idx[b] by {
        assert(sv[a].1 != sv[b].1);
    }
}

/// Splitting at the value of entry p - 1 of a sorted view, where the next
/// entry has a larger value (or there is none), sends exactly the first p
/// entries of the view left.
pub proof fn lemma_boundary_stats(d: DataSet, column: int, sv: Seq<(i32, i32)>, p: int, k: int)
    requires
        d.features@.len() == d.labels@.len(),
        is_sorted_view(sv, d.features@, column),
        0 < p <= sv.len(),
        p == sv.len() || sv[p - 1].0 < sv[p].0,
    ensures
        count_of(d, column, sv[p - 1].0 as int, false, d.row_count() as int) == p,
        label_sum_of(d, column, sv[p - 1].0 as int, false, d.row_count() as int) == sum_over(
            view_indices(sv).subrange(0, p),
            label_fn(d),
        ),
        class_count_of(d, column, sv[p - 1].0 as int, false, k, d.row_count() as int) == sum_over(
            view_indices(sv).subrange(0, p),
            class_fn(d, k),
        ),
{
    let t = sv[p - 1].0 as int;
    let n = d.row_count() as int;
    let idx = view_indices(sv);
    lemma_view_indices_perm(sv, d.features@, column);
    lemma_counts_are_range_sums(d, column, t, false, k, n);
    lemma_perm_sum(idx, sel_count_fn(d, column, t, false), n);
    lemma_perm_sum(idx, sel_label_fn(d, column, t, false), n);
    lemma_perm_sum(idx, sel_class_fn(d, column, t, false, k), n);
    assert forall|j: int| 0 <= j < p implies selected(d, column, t, false, #[trigger] idx[j]) by {
        assert(sv[j].0 == d.value(idx[j], column));
        if j < p - 1 {
            assert(pair_lt(sv[j], sv[p - 1]));
        }
    }
    assert forall|j: int| p <= j < idx.len() implies !selected(d, column, t, false, #[trigger] idx[j]) by {
        assert(sv[j].0 == d.value(idx[j], column));
        if j > p {
            assert(pair_lt(sv[p], sv[j]));
        }
    }
    lemma_sum_prefix(idx, sel_count_fn(d, column, t, false), one_fn(), p);
    lemma_sum_prefix(idx, sel_label_fn(d, column, t, false), label_fn(d), p);
    lemma_sum_prefix(idx, sel_class_fn(d, column, t, false, k), class_fn(d, k), p);
    lemma_sum_ones(idx.subrange(0, p));
}

} // verus!
