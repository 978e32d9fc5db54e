//! Mathematical model of the downsampled cooccurrence state.
//!
//! The accumulator's counters are all determined by the current sampled
//! histories: `occ` counts how often an item occurs in one history, and the
//! per-history quantities are summed over all users. Two items cooccur once
//! for every ordered pair of distinct positions holding them in the same
//! history, which gives the closed forms below in terms of occurrence counts.

use vstd::prelude::*;

verus! {

/// 1 if the condition holds, else 0.
pub open spec fn ind(b: bool) -> int {
    if b {
        1
    } else {
        0
    }
}

/// Number of positions of `h` holding the item `v`.
pub open spec fn occ(h: Seq<u32>, v: int) -> int
    decreases h.len(),
{
    if h.len() == 0 {
        0
    } else {
        occ(h.drop_last(), v) + ind(h.last() as int == v)
    }
}

/// Ordered pairs of distinct positions of `h` holding `x` and `y`.
pub open spec fn cooc_one(h: Seq<u32>, x: int, y: int) -> int {
    occ(h, x) * occ(h, y) - if x == y {
        occ(h, x)
    } else {
        0
    }
}

/// Cooccurrence mass of item `x` within one history: each of its occurrences
/// pairs with every other position.
pub open spec fn wocc_one(h: Seq<u32>, x: int) -> int {
    occ(h, x) * (h.len() - 1)
}

/// Ordered pairs of distinct positions of `h`.
pub open spec fn pairs_one(h: Seq<u32>) -> int {
    h.len() * (h.len() - 1)
}

/// Total occurrences of item `x` over all histories.
pub open spec fn tocc(hs: Seq<Seq<u32>>, x: int) -> int
    decreases hs.len(),
{
    if hs.len() == 0 {
        0
    } else {
        tocc(hs.drop_last(), x) + occ(hs.last(), x)
    }
}

/// Cooccurrence count of the item pair `(x, y)` over all histories.
pub open spec fn coocs(hs: Seq<Seq<u32>>, x: int, y: int) -> int
    decreases hs.len(),
{
    if hs.len() == 0 {
        0
    } else {
        coocs(hs.drop_last(), x, y) + cooc_one(hs.last(), x, y)
    }
}

/// Row sum of item `x` over all histories.
pub open spec fn wocc(hs: Seq<Seq<u32>>, x: int) -> int
    decreases hs.len(),
{
    if hs.len() == 0 {
        0
    } else {
        wocc(hs.drop_last(), x) + wocc_one(hs.last(), x)
    }
}

/// Total cooccurrence mass over all histories.
pub open spec fn pairs(hs: Seq<Seq<u32>>) -> int
    decreases hs.len(),
{
    if hs.len() == 0 {
        0
    } else {
        pairs(hs.drop_last()) + pairs_one(hs.last())
    }
}

pub proof fn lemma_occ_bounds(h: Seq<u32>, v: int)
    ensures
        0 <= occ(h, v) <= h.len(),
    decreases h.len(),
{
    if h.len() > 0 {
        lemma_occ_bounds(h.drop_last(), v);
    }
}

/// Two distinct items cannot together fill more than the whole history.
pub proof fn lemma_occ_two(h: Seq<u32>, x: int, y: int)
    requires
        x != y,
    ensures
        occ(h, x) + occ(h, y) <= h.len(),
    decreases h.len(),
{
    if h.len() > 0 {
        lemma_occ_two(h.drop_last(), x, y);
    }
}

pub proof fn lemma_occ_push(h: Seq<u32>, a: u32, v: int)
    ensures
        occ(h.push(a), v) == occ(h, v) + ind(a as int == v),
{
    assert(h.push(a).drop_last() =~= h);
}

pub proof fn lemma_occ_update(h: Seq<u32>, r: int, a: u32, v: int)
    requires
        0 <= r < h.len(),
    ensures
        occ(h.update(r, a), v) == occ(h, v) + ind(a as int == v) - ind(h[r] as int == v),
    decreases h.len(),
{
    if r == h.len() - 1 {
        assert(h.update(r, a).drop_last() =~= h.drop_last());
    } else {
        assert(h.update(r, a).drop_last() =~= h.drop_last().update(r, a));
        lemma_occ_update(h.drop_last(), r, a, v);
    }
}

pub proof fn lemma_occ_take_step(h: Seq<u32>, t: int, v: int)
    requires
        0 <= t < h.len(),
    ensures
        occ(h.take(t + 1), v) == occ(h.take(t), v) + ind(h[t] as int == v),
{
    assert(h.take(t + 1).drop_last() =~= h.take(t));
}

/// An item occurs in `h` exactly when some position holds it.
pub proof fn lemma_occ_positive(h: Seq<u32>, v: int)
    ensures
        (occ(h, v) >= 1) <==> (exists|j: int| 0 <= j < h.len() && h[j] as int == v),
    decreases h.len(),
{
    lemma_occ_bounds(h, v);
    if h.len() > 0 {
        lemma_occ_positive(h.drop_last(), v);
        lemma_occ_bounds(h.drop_last(), v);
        if h.last() as int == v {
            assert(h[h.len() - 1] as int == v);
        } else {
            if exists|j: int| 0 <= j < h.len() && h[j] as int == v {
                let j = choose|j: int| 0 <= j < h.len() && h[j] as int == v;
                if j < h.len() - 1 {
                    assert(h.drop_last()[j] as int == v);
                }
            }
        }
    }
}

/// A position of `h` witnesses an occurrence.
pub proof fn lemma_occ_at(h: Seq<u32>, j: int)
    requires
        0 <= j < h.len(),
    ensures
        occ(h, h[j] as int) >= 1,
{
    lemma_occ_positive(h, h[j] as int);
}

/// Appending one item to one history shifts each cooccurrence count by the
/// occurrences of the partner item.
pub proof fn lemma_cooc_one_push(h: Seq<u32>, a: u32, x: int, y: int)
    ensures
        cooc_one(h.push(a), x, y) == cooc_one(h, x, y) + ind(x == a as int) * occ(h, y) + ind(
            y == a as int,
        ) * occ(h, x),
{
    lemma_occ_push(h, a, x);
    lemma_occ_push(h, a, y);
    let ox = occ(h, x);
    let oy = occ(h, y);
    let dx = ind(x == a as int);
    let dy = ind(y == a as int);
    assert((ox + dx) * (oy + dy) == ox * oy + dx * oy + dy * ox + dx * dy) by (nonlinear_arith);
    assert(dx * dy == ind(x == y) * dx);
}

/// Replacing the item at one position of one history shifts each
/// cooccurrence count by the occurrences of the partners, counted without
/// the replaced position.
pub proof fn lemma_cooc_one_update(h: Seq<u32>, r: int, a: u32, x: int, y: int)
    requires
        0 <= r < h.len(),
    ensures
        cooc_one(h.update(r, a), x, y) == cooc_one(h, x, y) + (ind(x == a as int) - ind(
            x == h[r] as int,
        )) * (occ(h, y) - ind(y == h[r] as int)) + (ind(y == a as int) - ind(y == h[r] as int)) * (
        occ(h, x) - ind(x == h[r] as int)),
{
    let p = h[r] as int;
    lemma_occ_update(h, r, a, x);
    lemma_occ_update(h, r, a, y);
    lemma_occ_at(h, r);
    let ox = occ(h, x);
    let oy = occ(h, y);
    let dx = ind(x == a as int) - ind(x == p);
    let dy = ind(y == a as int) - ind(y == p);
    let px = ind(x == p);
    let py = ind(y == p);
    assert((ox + dx) * (oy + dy) == ox * oy + dx * oy + dy * ox + dx * dy) by (nonlinear_arith);
    assert(dx * (oy - py) + dy * (ox - px) == dx * oy + dy * ox - dx * py - dy * px)
        by (nonlinear_arith);
    assert(dx * dy - ind(x == y) * dx == -(dx * py) - dy * px) by {
        if x == a as int {
            if x == p {
                if y == a as int {
                    if y == p {
                        assert(dx * dy - ind(x == y) * dx == -(dx * py) - dy * px) by (nonlinear_arith)
                            requires
                                dx == 0,
                                dy == 0,
                                px == 1,
                                py == 1,
                                ind(x == y) == 1,
                        ;
                    } else {
                        assert(a as int == p); assert(y == p);
                        assert(dx * dy - ind(x == y) * dx == -(dx * py) - dy * px);
                    }
                } else {
                    if y == p {
                        assert(a as int == p); assert(y == a as int);
                        assert(dx * dy - ind(x == y) * dx == -(dx * py) - dy * px);
                    } else {
                        assert(dx * dy - ind(x == y) * dx == -(dx * py) - dy * px) by (nonlinear_arith)
                            requires
                                dx == 0,
                                dy == 0,
                                px == 1,
                                py == 0,
                                ind(x == y) == 0,
                        ;
                    }
                }
            } else {
                if y == a as int {
                    if y == p {
                        assert(a as int == p); assert(x == p);
                        assert(dx * dy - ind(x == y) * dx == -(dx * py) - dy * px);
                    } else {
                        assert(dx * dy - ind(x == y) * dx == -(dx * py) - dy * px) by (nonlinear_arith)
                            requires
                                dx == 1,
                                dy == 1,
                                px == 0,
                                py == 0,
                                ind(x == y) == 1,
                        ;
                    }
                } else {
                    if y == p {
                        assert(dx * dy - ind(x == y) * dx == -(dx * py) - dy * px) by (nonlinear_arith)
                            requires
                                dx == 1,
                                dy == -1,
                                px == 0,
                                py == 1,
                                ind(x == y) == 0,
                        ;
                    } else {
                        assert(dx * dy - ind(x == y) * dx == -(dx * py) - dy * px) by (nonlinear_arith)
                            requires
                                dx == 1,
                                dy == 0,
                                px == 0,
                                py == 0,
                                ind(x == y) == 0,
                        ;
                    }
                }
            }
        } else {
            if x == p {
                if y == a as int {
                    if y == p {
                        assert(a as int == p); assert(x == a as int);
                        assert(dx * dy - ind(x == y) * dx == -(dx * py) - dy * px);
                    } else {
                        assert(dx * dy - ind(x == y) * dx == -(dx * py) - dy * px) by (nonlinear_arith)
                            requires
                                dx == -1,
                                dy == 1,
                                px == 1,
                                py == 0,
                                ind(x == y) == 0,
                        ;
                    }
                } else {
                    if y == p {
                        assert(dx * dy - ind(x == y) * dx == -(dx * py) - dy * px) by (nonlinear_arith)
                            requires
                                dx == -1,
                                dy == -1,
                                px == 1,
                                py == 1,
                                ind(x == y) == 1,
                        ;
                    } else {
                        assert(dx * dy - ind(x == y) * dx == -(dx * py) - dy * px) by (nonlinear_arith)
                            requires
                                dx == -1,
                                dy == 0,
                                px == 1,
                                py == 0,
                                ind(x == y) == 0,
                        ;
                    }
                }
            } else {
                if y == a as int {
                    if y == p {
                        assert(dx * dy - ind(x == y) * dx == -(dx * py) - dy * px) by (nonlinear_arith)
                            requires
                                dx == 0,
                                dy == 0,
                                px == 0,
                                py == 1,
                                ind(x == y) == 0,
                        ;
                    } else {
                        assert(dx * dy - ind(x == y) * dx == -(dx * py) - dy * px) by (nonlinear_arith)
                            requires
                                dx == 0,
                                dy == 1,
                                px == 0,
                                py == 0,
                                ind(x == y) == 0,
                        ;
                    }
                } else {
                    if y == p {
                        assert(dx * dy - ind(x == y) * dx == -(dx * py) - dy * px) by (nonlinear_arith)
                            requires
                                dx == 0,
                                dy == -1,
                                px == 0,
                                py == 1,
                                ind(x == y) == 0,
                        ;
                    } else {
                        assert(dx * dy - ind(x == y) * dx == -(dx * py) - dy * px) by (nonlinear_arith)
                            requires
                                dx == 0,
                                dy == 0,
                                px == 0,
                                py == 0,
                        ;
                    }
                }
            }
        }
    }
}

pub proof fn lemma_wocc_one_push(h: Seq<u32>, a: u32, x: int)
    ensures
        wocc_one(h.push(a), x) == wocc_one(h, x) + occ(h, x) + ind(x == a as int) * (
        h.len() as int),
{
    lemma_occ_push(h, a, x);
    let ox = occ(h, x);
    let dx = ind(x == a as int);
    let m = h.len() as int;
    assert((ox + dx) * (m + 1 - 1) == ox * (m - 1) + ox + dx * m) by (nonlinear_arith);
}

pub proof fn lemma_wocc_one_update(h: Seq<u32>, r: int, a: u32, x: int)
    requires
        0 <= r < h.len(),
    ensures
        wocc_one(h.update(r, a), x) == wocc_one(h, x) + (ind(x == a as int) - ind(
            x == h[r] as int,
        )) * (h.len() - 1),
{
    lemma_occ_update(h, r, a, x);
    let ox = occ(h, x);
    let dx = ind(x == a as int) - ind(x == h[r] as int);
    let m = h.len() as int;
    assert((ox + dx) * (m - 1) == ox * (m - 1) + dx * (m - 1)) by (nonlinear_arith);
}

pub proof fn lemma_pairs_one_push(h: Seq<u32>, a: u32)
    ensures
        pairs_one(h.push(a)) == pairs_one(h) + 2 * h.len(),
{
    let m = h.len() as int;
    assert((m + 1) * (m + 1 - 1) == m * (m - 1) + 2 * m) by (nonlinear_arith);
}

/// Summed quantities change by the difference on the one updated history.
pub proof fn lemma_tocc_update(hs: Seq<Seq<u32>>, u: int, h2: Seq<u32>, x: int)
    requires
        0 <= u < hs.len(),
    ensures
        tocc(hs.update(u, h2), x) == tocc(hs, x) - occ(hs[u], x) + occ(h2, x),
    decreases hs.len(),
{
    if u == hs.len() - 1 {
        assert(hs.update(u, h2).drop_last() =~= hs.drop_last());
    } else {
        assert(hs.update(u, h2).drop_last() =~= hs.drop_last().update(u, h2));
        lemma_tocc_update(hs.drop_last(), u, h2, x);
    }
}

pub proof fn lemma_coocs_update(hs: Seq<Seq<u32>>, u: int, h2: Seq<u32>, x: int, y: int)
    requires
        0 <= u < hs.len(),
    ensures
        coocs(hs.update(u, h2), x, y) == coocs(hs, x, y) - cooc_one(hs[u], x, y) + cooc_one(
            h2,
            x,
            y,
        ),
    decreases hs.len(),
{
    if u == hs.len() - 1 {
        assert(hs.update(u, h2).drop_last() =~= hs.drop_last());
    } else {
        assert(hs.update(u, h2).drop_last() =~= hs.drop_last().update(u, h2));
        lemma_coocs_update(hs.drop_last(), u, h2, x, y);
    }
}

pub proof fn lemma_wocc_update(hs: Seq<Seq<u32>>, u: int, h2: Seq<u32>, x: int)
    requires
        0 <= u < hs.len(),
    ensures
        wocc(hs.update(u, h2), x) == wocc(hs, x) - wocc_one(hs[u], x) + wocc_one(h2, x),
    decreases hs.len(),
{
    if u == hs.len() - 1 {
        assert(hs.update(u, h2).drop_last() =~= hs.drop_last());
    } else {
        assert(hs.update(u, h2).drop_last() =~= hs.drop_last().update(u, h2));
        lemma_wocc_update(hs.drop_last(), u, h2, x);
    }
}

pub proof fn lemma_pairs_update(hs: Seq<Seq<u32>>, u: int, h2: Seq<u32>)
    requires
        0 <= u < hs.len(),
    ensures
        pairs(hs.update(u, h2)) == pairs(hs) - pairs_one(hs[u]) + pairs_one(h2),
    decreases hs.len(),
{
    if u == hs.len() - 1 {
        assert(hs.update(u, h2).drop_last() =~= hs.drop_last());
    } else {
        assert(hs.update(u, h2).drop_last() =~= hs.drop_last().update(u, h2));
        lemma_pairs_update(hs.drop_last(), u, h2);
    }
}

pub proof fn lemma_cooc_one_nonneg(h: Seq<u32>, x: int, y: int)
    ensures
        cooc_one(h, x, y) >= 0,
{
    lemma_occ_bounds(h, x);
    lemma_occ_bounds(h, y);
    let ox = occ(h, x);
    let oy = occ(h, y);
    if x == y {
        assert(ox * (ox - 1) >= 0) by (nonlinear_arith)
            requires
                ox >= 0,
        ;
        assert(ox * oy - ox == ox * (ox - 1)) by (nonlinear_arith)
            requires
                ox == oy,
        ;
    } else {
        assert(ox * oy >= 0) by (nonlinear_arith)
            requires
                ox >= 0 && oy >= 0,
        ;
    }
}

pub proof fn lemma_coocs_nonneg(hs: Seq<Seq<u32>>, x: int, y: int)
    ensures
        coocs(hs, x, y) >= 0,
    decreases hs.len(),
{
    if hs.len() > 0 {
        lemma_coocs_nonneg(hs.drop_last(), x, y);
        lemma_cooc_one_nonneg(hs.last(), x, y);
    }
}

pub proof fn lemma_coocs_sym(hs: Seq<Seq<u32>>, x: int, y: int)
    ensures
        coocs(hs, x, y) == coocs(hs, y, x),
    decreases hs.len(),
{
    if hs.len() > 0 {
        lemma_coocs_sym(hs.drop_last(), x, y);
    }
}

pub proof fn lemma_tocc_nonneg(hs: Seq<Seq<u32>>, x: int)
    ensures
        tocc(hs, x) >= 0,
    decreases hs.len(),
{
    if hs.len() > 0 {
        lemma_tocc_nonneg(hs.drop_last(), x);
        lemma_occ_bounds(hs.last(), x);
    }
}

pub proof fn lemma_wocc_one_nonneg(h: Seq<u32>, x: int)
    ensures
        wocc_one(h, x) >= 0,
{
    lemma_occ_bounds(h, x);
    let ox = occ(h, x);
    let m = h.len() as int;
    if m == 0 {
        assert(ox == 0);
        assert(ox * (m - 1) == 0) by (nonlinear_arith)
            requires
                ox == 0,
        ;
    } else {
        assert(ox * (m - 1) >= 0) by (nonlinear_arith)
            requires
                ox >= 0 && m >= 1,
        ;
    }
}

pub proof fn lemma_wocc_nonneg(hs: Seq<Seq<u32>>, x: int)
    ensures
        wocc(hs, x) >= 0,
    decreases hs.len(),
{
    if hs.len() > 0 {
        lemma_wocc_nonneg(hs.drop_last(), x);
        lemma_wocc_one_nonneg(hs.last(), x);
    }
}

/// One history's contribution is a lower bound on the summed row mass.
pub proof fn lemma_wocc_lower(hs: Seq<Seq<u32>>, u: int, x: int)
    requires
        0 <= u < hs.len(),
    ensures
        wocc(hs, x) >= wocc_one(hs[u], x),
    decreases hs.len(),
{
    lemma_wocc_one_nonneg(hs.last(), x);
    if u == hs.len() - 1 {
        lemma_wocc_nonneg(hs.drop_last(), x);
    } else {
        lemma_wocc_lower(hs.drop_last(), u, x);
    }
}

pub proof fn lemma_tocc_lower(hs: Seq<Seq<u32>>, u: int, x: int)
    requires
        0 <= u < hs.len(),
    ensures
        tocc(hs, x) >= occ(hs[u], x),
    decreases hs.len(),
{
    lemma_occ_bounds(hs.last(), x);
    if u == hs.len() - 1 {
        lemma_tocc_nonneg(hs.drop_last(), x);
    } else {
        lemma_tocc_lower(hs.drop_last(), u, x);
    }
}

/// The cooccurrence count of a pair is capped by the total occurrences of
/// either item times the longest history.
pub proof fn lemma_coocs_le_tocc(hs: Seq<Seq<u32>>, x: int, y: int, k: int)
    requires
        forall|w: int| 0 <= w < hs.len() ==> #[trigger] hs[w].len() <= k,
    ensures
        coocs(hs, x, y) <= tocc(hs, x) * k,
    decreases hs.len(),
{
    if hs.len() == 0 {
        assert(tocc(hs, x) * k == 0) by (nonlinear_arith)
            requires
                tocc(hs, x) == 0,
        ;
    } else {
        let dl = hs.drop_last();
        let h = hs.last();
        assert(forall|w: int| 0 <= w < dl.len() ==> #[trigger] dl[w].len() <= k) by {
            assert(forall|w: int| 0 <= w < dl.len() ==> dl[w] == hs[w]);
        }
        lemma_coocs_le_tocc(dl, x, y, k);
        lemma_occ_bounds(h, x);
        lemma_occ_bounds(h, y);
        assert(h.len() <= k);
        let ox = occ(h, x);
        let oy = occ(h, y);
        lemma_cooc_one_nonneg(h, x, y);
        assert(cooc_one(h, x, y) <= ox * k) by (nonlinear_arith)
            requires
                0 <= ox,
                0 <= oy <= k,
                cooc_one(h, x, y) >= 0,
                cooc_one(h, x, y) <= ox * oy,
        ;
        assert(tocc(dl, x) * k + ox * k == (tocc(dl, x) + ox) * k) by (nonlinear_arith);
    }
}

/// For distinct items the pair count is capped by the row mass.
pub proof fn lemma_coocs_le_wocc(hs: Seq<Seq<u32>>, x: int, y: int)
    requires
        x != y,
    ensures
        coocs(hs, x, y) <= wocc(hs, x),
    decreases hs.len(),
{
    if hs.len() > 0 {
        let h = hs.last();
        lemma_coocs_le_wocc(hs.drop_last(), x, y);
        lemma_occ_two(h, x, y);
        lemma_occ_bounds(h, x);
        lemma_occ_bounds(h, y);
        let ox = occ(h, x);
        let oy = occ(h, y);
        let m = h.len() as int;
        assert(ox * oy <= ox * (m - 1)) by (nonlinear_arith)
            requires
                0 <= ox,
                0 <= oy,
                ox + oy <= m,
                (ox == 0 || oy <= m - 1),
        ;
    }
}

/// Row mass is capped by the item's total occurrences times the history cap.
pub proof fn lemma_wocc_le_tocc(hs: Seq<Seq<u32>>, x: int, k: int)
    requires
        forall|w: int| 0 <= w < hs.len() ==> #[trigger] hs[w].len() <= k,
        k >= 0,
    ensures
        wocc(hs, x) <= tocc(hs, x) * k,
    decreases hs.len(),
{
    if hs.len() == 0 {
        assert(tocc(hs, x) * k == 0) by (nonlinear_arith)
            requires
                tocc(hs, x) == 0,
        ;
    } else {
        let dl = hs.drop_last();
        let h = hs.last();
        assert(forall|w: int| 0 <= w < dl.len() ==> #[trigger] dl[w].len() <= k) by {
            assert(forall|w: int| 0 <= w < dl.len() ==> dl[w] == hs[w]);
        }
        lemma_wocc_le_tocc(dl, x, k);
        lemma_occ_bounds(h, x);
        let ox = occ(h, x);
        let m = h.len() as int;
        assert(ox * (m - 1) <= ox * k) by (nonlinear_arith)
            requires
                0 <= ox,
                m - 1 <= k,
        ;
        assert(tocc(dl, x) * k + ox * k == (tocc(dl, x) + ox) * k) by (nonlinear_arith);
    }
}

/// All histories empty means every summed quantity is zero.
pub proof fn lemma_sums_empty(hs: Seq<Seq<u32>>, x: int, y: int)
    requires
        forall|w: int| 0 <= w < hs.len() ==> #[trigger] hs[w].len() == 0,
    ensures
        tocc(hs, x) == 0,
        coocs(hs, x, y) == 0,
        wocc(hs, x) == 0,
        pairs(hs) == 0,
    decreases hs.len(),
{
    if hs.len() > 0 {
        let dl = hs.drop_last();
        assert(forall|w: int| 0 <= w < dl.len() ==> #[trigger] dl[w].len() == 0) by {
            assert(forall|w: int| 0 <= w < dl.len() ==> dl[w] == hs[w]);
        }
        lemma_sums_empty(dl, x, y);
        assert(hs.last().len() == 0);
    }
}


/// The set of items occurring in a history.
pub open spec fn elems(h: Seq<u32>) -> Set<int> {
    Set::new(|x: int| exists|j: int| 0 <= j < h.len() && h[j] as int == x)
}

pub proof fn lemma_elems_take_step(h: Seq<u32>, t: int)
    requires
        0 <= t < h.len(),
    ensures
        elems(h.take(t + 1)) == elems(h.take(t)).insert(h[t] as int),
{
    let a = elems(h.take(t + 1));
    let b = elems(h.take(t)).insert(h[t] as int);
    assert forall|x: int| a.contains(x) implies b.contains(x) by {
        let j = choose|j: int| 0 <= j < h.take(t + 1).len() && #[trigger] h.take(t + 1)[j] as int == x;
        if j < t {
            assert(h.take(t)[j] as int == x);
        }
    }
    assert forall|x: int| b.contains(x) implies a.contains(x) by {
        if elems(h.take(t)).contains(x) {
            let j = choose|j: int| 0 <= j < h.take(t).len() && #[trigger] h.take(t)[j] as int == x;
            assert(h.take(t + 1)[j] as int == x);
        } else {
            assert(h.take(t + 1)[t] as int == x);
        }
    }
    assert(a =~= b);
}


/// Multiplying by an indicator selects the value or zero.
pub proof fn lemma_ind_mul(b: bool, v: int)
    ensures
        ind(b) * v == if b {
            v
        } else {
            0int
        },
{
    if b {
        assert(ind(b) == 1);
        assert(1 * v == v) by (nonlinear_arith);
    } else {
        assert(ind(b) == 0);
        assert(0 * v == 0) by (nonlinear_arith);
    }
}


/// A product of a sign in `[-1, 1]` and a value in `[-1, k]` stays within
/// `[-(k + 1), k + 1]`.
pub proof fn lemma_mul_bound(d: int, v: int, k: int)
    requires
        -1 <= d <= 1,
        -1 <= v <= k,
        0 <= k,
    ensures
        -(k + 1) <= d * v <= k + 1,
{
    assert(-(k + 1) <= d * v <= k + 1) by (nonlinear_arith)
        requires
            -1 <= d <= 1,
            -1 <= v <= k,
            0 <= k,
    ;
}

} // verus!
