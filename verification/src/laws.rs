//! The laws of the accumulator and of the selection.
//!
//! These public proof functions state, over the accumulator's view, the
//! guarantees that hold after every processed interaction: the cooccurrence
//! matrix is symmetric and nonnegative, each row sum equals the sum of its
//! row, the row sums add up to the total cooccurrence mass, and the two
//! downsampling caps hold. A final law states that with pairwise distinct
//! scores the selection keeps exactly the best-scoring candidates.

use vstd::prelude::*;

use crate::accum::{Accumulator, steps, interaction_step, counters_frozen,
    lemma_empty_batch_keeps_state};
use crate::model::{occ, cooc_one, wocc_one, pairs_one, coocs, wocc, pairs, ind,
    lemma_coocs_sym, lemma_coocs_nonneg};
use crate::sparse::{row_val, row_total, row_keys_below};
use crate::rescore::{has_id, score_of, ids_distinct, keys_except, lemma_score_at};

verus! {

/// The sum of `f` over `0 <= k < n`.
pub open spec fn sum_range(n: int, f: spec_fn(int) -> int) -> int
    decreases n,
{
    if n <= 0 {
        0
    } else {
        sum_range(n - 1, f) + f(n - 1)
    }
}

pub proof fn lemma_sum_range_zero(n: int, f: spec_fn(int) -> int)
    requires
        forall|k: int| 0 <= k < n ==> #[trigger] f(k) == 0,
    ensures
        sum_range(n, f) == 0,
    decreases n,
{
    if n > 0 {
        lemma_sum_range_zero(n - 1, f);
    }
}

pub proof fn lemma_sum_range_split(n: int, f: spec_fn(int) -> int, g: spec_fn(int) -> int, h: spec_fn(int) -> int)
    requires
        forall|k: int| 0 <= k < n ==> #[trigger] h(k) == f(k) + g(k),
    ensures
        sum_range(n, h) == sum_range(n, f) + sum_range(n, g),
    decreases n,
{
    if n > 0 {
        lemma_sum_range_split(n - 1, f, g, h);
    }
}

pub proof fn lemma_sum_range_single(n: int, f: spec_fn(int) -> int, k0: int)
    requires
        0 <= k0 < n,
        forall|k: int| 0 <= k < n && k != k0 ==> #[trigger] f(k) == 0,
    ensures
        sum_range(n, f) == f(k0),
    decreases n,
{
    if k0 == n - 1 {
        lemma_sum_range_zero(n - 1, f);
    } else {
        lemma_sum_range_single(n - 1, f, k0);
    }
}

pub proof fn lemma_sum_range_scale(n: int, f: spec_fn(int) -> int, c: int, g: spec_fn(int) -> int)
    requires
        forall|k: int| 0 <= k < n ==> #[trigger] g(k) == f(k) * c,
    ensures
        sum_range(n, g) == sum_range(n, f) * c,
    decreases n,
{
    if n <= 0 {
        assert(sum_range(n, f) * c == 0) by (nonlinear_arith)
            requires
                sum_range(n, f) == 0,
        ;
    } else {
        lemma_sum_range_scale(n - 1, f, c, g);
        assert((sum_range(n - 1, f) + f(n - 1)) * c == sum_range(n - 1, f) * c + f(n - 1) * c)
            by (nonlinear_arith);
    }
}

/// The stored counts of a row add up to its row value summed over all item
/// ids.
pub proof fn lemma_row_total_as_sum(s: Seq<(u32, i64)>, nitems: int)
    requires
        row_keys_below(s, nitems),
    ensures
        row_total(s) == sum_range(nitems, |y: int| row_val(s, y)),
    decreases s.len(),
{
    let fs = |y: int| row_val(s, y);
    if s.len() == 0 {
        assert(forall|y: int| 0 <= y < nitems ==> #[trigger] fs(y) == 0);
        lemma_sum_range_zero(nitems, fs);
    } else {
        let dl = s.drop_last();
        assert(forall|j: int| 0 <= j < dl.len() ==> dl[j] == (#[trigger] s[j]));
        lemma_row_total_as_sum(dl, nitems);
        let fdl = |y: int| row_val(dl, y);
        let fone = |y: int|
            if s.last().0 as int == y {
                s.last().1 as int
            } else {
                0
            };
        assert(forall|y: int| 0 <= y < nitems ==> #[trigger] fs(y) == fdl(y) + fone(y));
        lemma_sum_range_split(nitems, fdl, fone, fs);
        assert(s[s.len() - 1].0 < nitems);
        assert(forall|y: int| 0 <= y < nitems && y != s.last().0 as int ==> #[trigger] fone(y)
            == 0);
        lemma_sum_range_single(nitems, fone, s.last().0 as int);
    }
}

/// A history's occurrence counts, summed over all item ids, give its length.
pub proof fn lemma_sum_occ(h: Seq<u32>, nitems: int)
    requires
        forall|t: int| 0 <= t < h.len() ==> (#[trigger] h[t]) < nitems,
    ensures
        sum_range(nitems, |v: int| occ(h, v)) == h.len(),
    decreases h.len(),
{
    let fh = |v: int| occ(h, v);
    if h.len() == 0 {
        assert(forall|v: int| 0 <= v < nitems ==> #[trigger] fh(v) == 0);
        lemma_sum_range_zero(nitems, fh);
    } else {
        let dl = h.drop_last();
        assert(forall|t: int| 0 <= t < dl.len() ==> dl[t] == (#[trigger] h[t]));
        lemma_sum_occ(dl, nitems);
        let fdl = |v: int| occ(dl, v);
        let fone = |v: int| ind(h.last() as int == v);
        assert(forall|v: int| 0 <= v < nitems ==> #[trigger] fh(v) == fdl(v) + fone(v));
        lemma_sum_range_split(nitems, fdl, fone, fh);
        assert(h[h.len() - 1] < nitems);
        assert(forall|v: int| 0 <= v < nitems && v != h.last() as int ==> #[trigger] fone(v) == 0);
        lemma_sum_range_single(nitems, fone, h.last() as int);
        assert(fone(h.last() as int) == 1);
    }
}

/// One history's cooccurrence counts against a fixed item, summed over all
/// item ids, give that item's cooccurrence mass in the history.
pub proof fn lemma_sum_cooc_one(h: Seq<u32>, x: int, nitems: int)
    requires
        forall|t: int| 0 <= t < h.len() ==> (#[trigger] h[t]) < nitems,
        0 <= x < nitems,
    ensures
        sum_range(nitems, |y: int| cooc_one(h, x, y)) == wocc_one(h, x),
{
    let f = |y: int| cooc_one(h, x, y);
    let g = |y: int| occ(h, x) * occ(h, y);
    let d = |y: int|
        if x == y {
            occ(h, x)
        } else {
            0
        };
    assert(forall|y: int| 0 <= y < nitems ==> #[trigger] f(y) + d(y) == g(y));
    lemma_sum_range_split(nitems, f, d, g);
    let focc = |y: int| occ(h, y);
    assert(forall|y: int| 0 <= y < nitems ==> #[trigger] g(y) == focc(y) * occ(h, x)) by {
        assert forall|y: int| 0 <= y < nitems implies #[trigger] g(y) == focc(y) * occ(h, x) by {
            assert(occ(h, x) * occ(h, y) == occ(h, y) * occ(h, x)) by (nonlinear_arith);
        }
    }
    lemma_sum_range_scale(nitems, focc, occ(h, x), g);
    lemma_sum_occ(h, nitems);
    assert(forall|y: int| 0 <= y < nitems && y != x ==> #[trigger] d(y) == 0);
    lemma_sum_range_single(nitems, d, x);
    assert(sum_range(nitems, g) == h.len() * occ(h, x)) by (nonlinear_arith)
        requires
            sum_range(nitems, g) == sum_range(nitems, focc) * occ(h, x),
            sum_range(nitems, focc) == h.len(),
    ;
    assert(h.len() * occ(h, x) - occ(h, x) == occ(h, x) * (h.len() - 1)) by (nonlinear_arith);
}

/// The cooccurrence counts of a row, summed over all item ids, give the
/// item's row mass.
pub proof fn lemma_sum_coocs(hs: Seq<Seq<u32>>, x: int, nitems: int)
    requires
        forall|w: int, t: int|
            0 <= w < hs.len() && 0 <= t < hs[w].len() ==> (#[trigger] hs[w][t]) < nitems,
        0 <= x < nitems,
    ensures
        sum_range(nitems, |y: int| coocs(hs, x, y)) == wocc(hs, x),
    decreases hs.len(),
{
    let f = |y: int| coocs(hs, x, y);
    if hs.len() == 0 {
        assert(forall|y: int| 0 <= y < nitems ==> #[trigger] f(y) == 0);
        lemma_sum_range_zero(nitems, f);
    } else {
        let dl = hs.drop_last();
        let h = hs.last();
        assert(forall|w: int| 0 <= w < dl.len() ==> dl[w] == (#[trigger] hs[w]));
        assert forall|w: int, t: int|
            0 <= w < dl.len() && 0 <= t < dl[w].len() implies (#[trigger] dl[w][t]) < nitems by {
            assert(hs[w][t] == dl[w][t]);
        }
        lemma_sum_coocs(dl, x, nitems);
        assert(forall|t: int| 0 <= t < h.len() ==> (#[trigger] h[t]) < nitems) by {
            assert(forall|t: int|
                0 <= t < h.len() ==> (#[trigger] h[t]) == hs[hs.len() - 1][t]);
        }
        lemma_sum_cooc_one(h, x, nitems);
        let fdl = |y: int| coocs(dl, x, y);
        let fone = |y: int| cooc_one(h, x, y);
        assert(forall|y: int| 0 <= y < nitems ==> #[trigger] f(y) == fdl(y) + fone(y));
        lemma_sum_range_split(nitems, fdl, fone, f);
    }
}

/// The row masses of all items add up to the total cooccurrence mass.
pub proof fn lemma_sum_wocc(hs: Seq<Seq<u32>>, nitems: int)
    requires
        forall|w: int, t: int|
            0 <= w < hs.len() && 0 <= t < hs[w].len() ==> (#[trigger] hs[w][t]) < nitems,
    ensures
        sum_range(nitems, |x: int| wocc(hs, x)) == pairs(hs),
    decreases hs.len(),
{
    let f = |x: int| wocc(hs, x);
    if hs.len() == 0 {
        assert(forall|x: int| 0 <= x < nitems ==> #[trigger] f(x) == 0);
        lemma_sum_range_zero(nitems, f);
    } else {
        let dl = hs.drop_last();
        let h = hs.last();
        assert(forall|w: int| 0 <= w < dl.len() ==> dl[w] == (#[trigger] hs[w]));
        assert forall|w: int, t: int|
            0 <= w < dl.len() && 0 <= t < dl[w].len() implies (#[trigger] dl[w][t]) < nitems by {
            assert(hs[w][t] == dl[w][t]);
        }
        lemma_sum_wocc(dl, nitems);
        assert(forall|t: int| 0 <= t < h.len() ==> (#[trigger] h[t]) < nitems) by {
            assert(forall|t: int|
                0 <= t < h.len() ==> (#[trigger] h[t]) == hs[hs.len() - 1][t]);
        }
        let fdl = |x: int| wocc(dl, x);
        let fone = |x: int| wocc_one(h, x);
        assert(forall|x: int| 0 <= x < nitems ==> #[trigger] f(x) == fdl(x) + fone(x));
        lemma_sum_range_split(nitems, fdl, fone, f);
        let focc = |x: int| occ(h, x);
        assert(forall|x: int| 0 <= x < nitems ==> #[trigger] fone(x) == focc(x) * (h.len() - 1));
        lemma_sum_range_scale(nitems, focc, h.len() - 1, fone);
        lemma_sum_occ(h, nitems);
        assert(sum_range(nitems, fone) == pairs_one(h)) by (nonlinear_arith)
            requires
                sum_range(nitems, fone) == sum_range(nitems, focc) * (h.len() - 1),
                sum_range(nitems, focc) == h.len(),
                pairs_one(h) == h.len() * (h.len() - 1),
        ;
    }
}

/// After any number of processed interactions, the cooccurrence matrix is
/// symmetric off and on the diagonal, and every cell is nonnegative.
pub proof fn lemma_matrix_symmetry(acc: Accumulator, x: int, y: int)
    requires
        acc.wf(),
        0 <= x < acc.items(),
        0 <= y < acc.items(),
    ensures
        acc.cell(x, y) == acc.cell(y, x),
        acc.cell(x, y) >= 0,
{
    lemma_coocs_sym(acc.hs(), x, y);
    lemma_coocs_nonneg(acc.hs(), x, y);
}

/// After any number of processed interactions, the stored row sum of an item
/// equals the sum of its row's cells.
pub proof fn lemma_row_sum_identity(acc: Accumulator, x: int)
    requires
        acc.wf(),
        0 <= x < acc.items(),
    ensures
        acc.row_sums_v()[x] as int == row_total(acc.cmatv()[x]),
{
    let row = acc.cmatv()[x];
    let nitems = acc.items();
    lemma_row_total_as_sum(row, nitems);
    let fr = |y: int| row_val(row, y);
    let fc = |y: int| coocs(acc.hs(), x, y);
    assert(forall|y: int| 0 <= y < nitems ==> #[trigger] fr(y) == fc(y)) by {
        assert(forall|y: int|
            0 <= y < nitems ==> row_val(acc.cmatv()[x], y) == coocs(acc.hs(), x, y));
    }
    lemma_sum_range_split(nitems, fc, |y: int| 0int, fr);
    lemma_sum_range_zero(nitems, |y: int| 0int);
    lemma_sum_coocs(acc.hs(), x, nitems);
}

/// After any number of processed interactions, the row sums of all items add
/// up to the total cooccurrence mass.
pub proof fn lemma_total_identity(acc: Accumulator)
    requires
        acc.wf(),
    ensures
        sum_range(acc.items(), |x: int| acc.row_sums_v()[x] as int) == acc.n_cooc_v(),
{
    let nitems = acc.items();
    let fr = |x: int| acc.row_sums_v()[x] as int;
    let fw = |x: int| wocc(acc.hs(), x);
    assert(forall|x: int| 0 <= x < nitems ==> #[trigger] fr(x) == fw(x) + 0);
    lemma_sum_range_split(nitems, fw, |x: int| 0int, fr);
    lemma_sum_range_zero(nitems, |x: int| 0int);
    lemma_sum_wocc(acc.hs(), nitems);
}

/// The admitted interaction count of every item stays at or under `f_max`.
pub proof fn lemma_item_count_cap(acc: Accumulator, x: int)
    requires
        acc.wf(),
        0 <= x < acc.items(),
    ensures
        acc.item_counts_v()[x] as int <= acc.fmax_v(),
{
}

/// The sampled history of every user stays at or under `k_max` entries.
pub proof fn lemma_history_cap(acc: Accumulator, u: int)
    requires
        acc.wf(),
        0 <= u < acc.users(),
    ensures
        acc.hs()[u].len() <= acc.kmax_v(),
{
}

/// With pairwise distinct scores, every candidate that the selection keeps
/// scores strictly higher than every candidate it drops: the selection keeps
/// exactly the best-scoring candidates.
pub proof fn lemma_selection_keeps_best(scored: Seq<(u32, u64)>, r: Seq<u32>, j: int, t: int)
    requires
        ids_distinct(scored),
        forall|j1: int, j2: int|
            0 <= j1 < j2 < scored.len() ==> (#[trigger] scored[j1]).1 != (#[trigger] scored[j2]).1,
        forall|t1: int| 0 <= t1 < r.len() ==> has_id(scored, (#[trigger] r[t1]) as int),
        forall|jj: int, tt: int|
            #![trigger scored[jj], r[tt]]
            0 <= jj < scored.len() && 0 <= tt < r.len() && !(exists|t2: int|
                0 <= t2 < r.len() && (#[trigger] r[t2]) == scored[jj].0) ==> scored[jj].1 as int
                <= score_of(scored, r[tt] as int),
        0 <= j < scored.len(),
        0 <= t < r.len(),
        !(exists|t2: int| 0 <= t2 < r.len() && (#[trigger] r[t2]) == scored[j].0),
    ensures
        (scored[j].1 as int) < score_of(scored, r[t] as int),
{
    let jt = choose|jj: int| 0 <= jj < scored.len() && (#[trigger] scored[jj]).0 as int == r[t] as int;
    lemma_score_at(scored, jt);
    assert(score_of(scored, r[t] as int) == scored[jt].1 as int);
    assert(jt != j);
    if jt < j {
        assert(scored[jt].1 != scored[j].1);
    } else {
        assert(scored[j].1 != scored[jt].1);
    }
    assert(scored[j].1 <= scored[jt].1);
}


/// The rescorer never indicates an item for itself: the candidate list of a
/// row leaves the item out, and the selection only keeps candidates.
pub proof fn lemma_diagonal_exclusion(
    row: Seq<(u32, i64)>,
    item: u32,
    scored: Seq<(u32, u64)>,
    r: Seq<u32>,
    t: int,
)
    requires
        crate::sparse::row_distinct(row),
        forall|j: int| 0 <= j < scored.len() ==> (#[trigger] scored[j]).0 != item,
        forall|t1: int| 0 <= t1 < r.len() ==> has_id(scored, (#[trigger] r[t1]) as int),
        0 <= t < r.len(),
    ensures
        forall|t1: int|
            0 <= t1 < crate::rescore::keys_except(row, item).len() ==> (
            #[trigger] crate::rescore::keys_except(row, item)[t1]) != item,
        r[t] != item,
{
    crate::rescore::lemma_keys_except_distinct(row, item);
    let j = choose|jj: int| 0 <= jj < scored.len() && (#[trigger] scored[jj]).0 as int == r[t] as int;
    assert(scored[j].0 != item);
}


/// An empty interaction batch leaves a fresh accumulator's rows empty, so
/// every rescore plan keeps the empty candidate set: empty input yields one
/// empty indicator set per item.
pub proof fn lemma_empty_input_empty_indicators(a: Accumulator, b: Accumulator, item: u32)
    requires
        steps(a, b, Seq::<(u32, u32)>::empty()),
        (item as int) < a.items(),
        a.cmatv()[item as int].len() == 0,
    ensures
        b.cmatv()[item as int].len() == 0,
        keys_except(b.cmatv()[item as int], item) == Seq::<u32>::empty(),
{
    lemma_empty_batch_keeps_state(a, b);
    assert(keys_except(b.cmatv()[item as int], item) =~= Seq::<u32>::empty());
}


/// Along any batch of interactions, a user's sampled-history counter never
/// decreases: admissions raise it by one and the other branches keep it, so
/// once it reaches `k_max` it stays there.
pub proof fn lemma_kept_monotone(a: Accumulator, b: Accumulator, xs: Seq<(u32, u32)>, u: int)
    requires
        a.wf(),
        steps(a, b, xs),
        forall|j: int|
            0 <= j < xs.len() ==> ((#[trigger] xs[j]).0 as int) < a.users() && (xs[j].1 as int)
                < a.items(),
        0 <= u < a.users(),
    ensures
        b.wf(),
        crate::accum::same_config(a, b),
        a.user_kepts_v()[u] <= b.user_kepts_v()[u],
        b.user_kepts_v()[u] as int <= a.kmax_v(),
    decreases xs.len(),
{
    if xs.len() == 0 {
        assert(b == a);
    } else {
        let m = choose|m: Accumulator|
            steps(a, m, xs.drop_last()) && #[trigger] interaction_step(
                m,
                b,
                xs.last().0 as int,
                xs.last().1 as int,
            );
        assert(forall|j: int|
            0 <= j < xs.drop_last().len() ==> xs.drop_last()[j] == (#[trigger] xs[j]));
        lemma_kept_monotone(a, m, xs.drop_last(), u);
        assert(m.wf());
        assert(xs.last() == xs[xs.len() - 1]);
        let user = xs.last().0 as int;
        let item = xs.last().1 as int;
        if m.item_counts_v()[item] as int >= m.fmax_v() {
            assert(b.user_kepts_v() == m.user_kepts_v());
            assert(a.user_kepts_v()[u] <= b.user_kepts_v()[u]);
        } else if (m.user_kepts_v()[user] as int) < m.kmax_v() {
            assert(b.user_kepts_v() == m.user_kepts_v().update(
                user,
                (m.user_kepts_v()[user] + 1) as u32,
            ));
            assert(m.user_kepts_v()[user] as int + 1 <= m.kmax_v());
            assert(0 <= user < m.user_kepts_v().len());
            if u == user {
                assert(b.user_kepts_v()[u] as int == m.user_kepts_v()[u] as int + 1);
            } else {
                assert(b.user_kepts_v()[u] == m.user_kepts_v()[u]);
            }
            assert(a.user_kepts_v()[u] <= b.user_kepts_v()[u]);
        } else {
            assert(counters_frozen(m, b) || (exists|r: int|
                0 <= r < m.hs()[user].len() && #[trigger] crate::accum::replaced_step(
                    m,
                    b,
                    user,
                    item,
                    r,
                )));
            if counters_frozen(m, b) {
                assert(b.user_kepts_v() == m.user_kepts_v());
            } else {
                let r = choose|r: int|
                    0 <= r < m.hs()[user].len() && #[trigger] crate::accum::replaced_step(
                        m,
                        b,
                        user,
                        item,
                        r,
                    );
                assert(b.user_kepts_v() == m.user_kepts_v());
            }
            assert(a.user_kepts_v()[u] <= b.user_kepts_v()[u]);
        }
    }
}

} // verus!
