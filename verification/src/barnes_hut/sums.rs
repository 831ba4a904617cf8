use vstd::prelude::*;

verus! {

/// The sum of `f` over the entries of `ids`, each entry counted as often as
/// it occurs.
pub open spec fn seq_sum(ids: Seq<usize>, f: spec_fn(usize) -> int) -> int
    decreases ids.len(),
{
    if ids.len() == 0 {
        0
    } else {
        seq_sum(ids.drop_last(), f) + f(ids.last())
    }
}

/// The sum of `f` over the indices `0, 1, .., n - 1`.
pub open spec fn range_sum(n: nat, f: spec_fn(usize) -> int) -> int
    decreases n,
{
    if n == 0 {
        0
    } else {
        range_sum((n - 1) as nat, f) + f((n - 1) as usize)
    }
}

/// Appending one entry adds its term.
pub proof fn lemma_seq_sum_push(ids: Seq<usize>, id: usize, f: spec_fn(usize) -> int)
    ensures
        seq_sum(ids.push(id), f) == seq_sum(ids, f) + f(id),
{
    assert(ids.push(id).drop_last() =~= ids);
}

/// A prefix that is one entry longer adds that entry's term.
pub proof fn lemma_seq_sum_take_succ(ids: Seq<usize>, k: int, f: spec_fn(usize) -> int)
    requires
        0 <= k < ids.len(),
    ensures
        seq_sum(ids.take(k + 1), f) == seq_sum(ids.take(k), f) + f(ids[k]),
{
    assert(ids.take(k + 1).drop_last() =~= ids.take(k));
}

/// A sum without negative terms is not negative.
pub proof fn lemma_seq_sum_nonneg(ids: Seq<usize>, f: spec_fn(usize) -> int)
    requires
        forall|j: int| 0 <= j < ids.len() ==> 0 <= #[trigger] f(ids[j]),
    ensures
        0 <= seq_sum(ids, f),
    decreases ids.len(),
{
    if ids.len() > 0 {
        let front = ids.drop_last();
        assert forall|j: int| 0 <= j < front.len() implies 0 <= #[trigger] f(front[j]) by {
            assert(front[j] == ids[j]);
        }
        lemma_seq_sum_nonneg(front, f);
    }
}

/// Where no term is negative, a prefix sums to at most the whole.
pub proof fn lemma_seq_sum_prefix_le(ids: Seq<usize>, k: int, f: spec_fn(usize) -> int)
    requires
        0 <= k <= ids.len(),
        forall|j: int| 0 <= j < ids.len() ==> 0 <= #[trigger] f(ids[j]),
    ensures
        0 <= seq_sum(ids.take(k), f) <= seq_sum(ids, f),
    decreases ids.len() - k,
{
    let head = ids.take(k);
    assert forall|j: int| 0 <= j < head.len() implies 0 <= #[trigger] f(head[j]) by {
        assert(head[j] == ids[j]);
    }
    lemma_seq_sum_nonneg(head, f);
    if k == ids.len() {
        assert(head =~= ids);
    } else {
        lemma_seq_sum_prefix_le(ids, k + 1, f);
        lemma_seq_sum_take_succ(ids, k, f);
    }
}

/// Where each term of `f` lies between `lo` and `hi` times the term of a
/// weight `g`, the sum of `f` lies between `lo` and `hi` times the sum of `g`.
pub proof fn lemma_seq_sum_weighted(
    ids: Seq<usize>,
    f: spec_fn(usize) -> int,
    g: spec_fn(usize) -> int,
    lo: int,
    hi: int,
)
    requires
        forall|k: int|
            0 <= k < ids.len() ==> lo * g(ids[k]) <= #[trigger] f(ids[k]) <= hi * g(ids[k]),
    ensures
        lo * seq_sum(ids, g) <= seq_sum(ids, f) <= hi * seq_sum(ids, g),
    decreases ids.len(),
{
    if ids.len() > 0 {
        let front = ids.drop_last();
        let last = ids.last();
        assert forall|k: int| 0 <= k < front.len() implies lo * g(front[k]) <= #[trigger] f(
            front[k],
        ) <= hi * g(front[k]) by {
            assert(front[k] == ids[k]);
        }
        lemma_seq_sum_weighted(front, f, g, lo, hi);
        let a = seq_sum(front, g);
        let b = g(last);
        assert(lo * (a + b) == lo * a + lo * b) by (nonlinear_arith);
        assert(hi * (a + b) == hi * a + hi * b) by (nonlinear_arith);
    }
}

/// Extending the range by one index adds that index's term.
pub proof fn lemma_range_sum_succ(n: nat, f: spec_fn(usize) -> int)
    requires
        n < usize::MAX,
    ensures
        range_sum(n + 1, f) == range_sum(n, f) + f(n as usize),
{
    assert((n + 1 - 1) as nat == n);
}

/// A sum of `n` terms that all lie in `[lo, hi]` lies in `[n * lo, n * hi]`.
pub proof fn lemma_range_sum_bounds(n: nat, f: spec_fn(usize) -> int, lo: int, hi: int)
    requires
        forall|id: usize| id < n ==> lo <= #[trigger] f(id) <= hi,
        n <= usize::MAX,
    ensures
        n * lo <= range_sum(n, f) <= n * hi,
    decreases n,
{
    if n > 0 {
        let m = (n - 1) as nat;
        lemma_range_sum_bounds(m, f, lo, hi);
        assert(n * lo == m * lo + lo) by (nonlinear_arith)
            requires
                m + 1 == n,
        ;
        assert(n * hi == m * hi + hi) by (nonlinear_arith)
            requires
                m + 1 == n,
        ;
    } else {
        assert(n * lo == 0 && n * hi == 0) by (nonlinear_arith)
            requires
                n == 0,
        ;
    }
}

/// Where `f` vanishes wherever a weight `g` without negative values does, the
/// sum of `f` vanishes if the sum of `g` does.
pub proof fn lemma_seq_sum_vanishes(
    ids: Seq<usize>,
    f: spec_fn(usize) -> int,
    g: spec_fn(usize) -> int,
)
    requires
        forall|id: usize| 0 <= #[trigger] g(id),
        forall|id: usize| g(id) == 0 ==> #[trigger] f(id) == 0,
        seq_sum(ids, g) == 0,
    ensures
        seq_sum(ids, f) == 0,
    decreases ids.len(),
{
    if ids.len() > 0 {
        lemma_seq_sum_nonneg(ids.drop_last(), g);
        lemma_seq_sum_vanishes(ids.drop_last(), f, g);
    }
}

/// Where `f` vanishes on every entry but `source`, the sum of `f` is the
/// term of `source` as often as `source` occurs.
pub proof fn lemma_seq_sum_supported(ids: Seq<usize>, f: spec_fn(usize) -> int, source: usize)
    requires
        forall|k: int| 0 <= k < ids.len() && ids[k] != source ==> #[trigger] f(ids[k]) == 0,
    ensures
        seq_sum(ids, f) == ids.to_multiset().count(source) * f(source),
    decreases ids.len(),
{
    if ids.len() == 0 {
        vstd::seq_lib::to_multiset_len(ids);
    } else {
        let front = ids.drop_last();
        let last = ids.last();
        assert forall|k: int| 0 <= k < front.len() && front[k] != source implies #[trigger] f(
            front[k],
        ) == 0 by {
            assert(front[k] == ids[k]);
        }
        lemma_seq_sum_supported(front, f, source);
        assert(ids =~= front.push(last));
        vstd::seq_lib::to_multiset_build(front, last);
        let before = front.to_multiset().count(source);
        if last == source {
            assert((before + 1) * f(source) == before * f(source) + f(source))
                by (nonlinear_arith);
        } else {
            assert(ids.to_multiset().count(source) == before);
        }
    }
}

} // verus!
