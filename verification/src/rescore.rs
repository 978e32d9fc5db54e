//! Rescoring: contingency tables and bounded top-k selection.
//!
//! For each dirty item, the row of the cooccurrence matrix is turned into
//! indicators. A row with at most `n` keys is kept as it is, minus the item
//! itself. A larger row needs a score per candidate: `contingency` produces
//! the 2-by-2 table for one candidate, the caller scores the tables, and
//! `select_top` keeps the `n` best-scoring candidates, where an incumbent is
//! only displaced by a strictly greater score.

use vstd::prelude::*;

use crate::accum::Accumulator;
use crate::model::{wocc, pairs, tocc, lemma_coocs_nonneg, lemma_coocs_sym,
    lemma_coocs_le_wocc, lemma_coocs_le_tocc, lemma_wocc_nonneg, lemma_occ_two, lemma_occ_bounds,
    lemma_wocc_one_nonneg};
use crate::sparse::{row_has_key, row_distinct};

verus! {

/// The keys of a row in storage order, the item itself left out.
pub open spec fn keys_except(s: Seq<(u32, i64)>, item: u32) -> Seq<u32>
    decreases s.len(),
{
    if s.len() == 0 {
        Seq::empty()
    } else if s.last().0 == item {
        keys_except(s.drop_last(), item)
    } else {
        keys_except(s.drop_last(), item).push(s.last().0)
    }
}

pub proof fn lemma_keys_except_len(s: Seq<(u32, i64)>, item: u32)
    ensures
        keys_except(s, item).len() <= s.len(),
    decreases s.len(),
{
    if s.len() > 0 {
        lemma_keys_except_len(s.drop_last(), item);
    }
}

/// A key survives the filter exactly when the row holds it and it is not the
/// item itself.
pub proof fn lemma_keys_except_members(s: Seq<(u32, i64)>, item: u32, k: int)
    ensures
        (exists|t: int| 0 <= t < keys_except(s, item).len() && (#[trigger] keys_except(s, item)[t])
            as int == k) <==> (row_has_key(s, k) && k != item as int),
    decreases s.len(),
{
    let ks = keys_except(s, item);
    if s.len() == 0 {
        assert(!row_has_key(s, k));
    } else {
        let dl = s.drop_last();
        lemma_keys_except_members(dl, item, k);
        assert(forall|j: int| 0 <= j < dl.len() ==> dl[j] == (#[trigger] s[j]));
        let kdl = keys_except(dl, item);
        if exists|t: int| 0 <= t < ks.len() && (#[trigger] ks[t]) as int == k {
            let t = choose|t: int| 0 <= t < ks.len() && (#[trigger] ks[t]) as int == k;
            if s.last().0 != item && t == ks.len() - 1 {
                assert(s[s.len() - 1].0 as int == k || row_has_key(dl, k));
            } else {
                assert(kdl[t] as int == k);
                let j = choose|j: int| 0 <= j < dl.len() && (#[trigger] dl[j]).0 as int == k;
                assert(s[j].0 as int == k);
            }
        }
        if row_has_key(s, k) && k != item as int {
            let j = choose|j: int| 0 <= j < s.len() && (#[trigger] s[j]).0 as int == k;
            if j < s.len() - 1 {
                assert(dl[j].0 as int == k);
                let t = choose|t: int| 0 <= t < kdl.len() && (#[trigger] kdl[t]) as int == k;
                if s.last().0 == item {
                    assert(ks[t] as int == k);
                } else {
                    assert(ks[t] as int == k);
                }
            } else {
                assert(s.last().0 as int == k);
                assert(ks[ks.len() - 1] as int == k);
            }
        }
    }
}

pub proof fn lemma_keys_except_distinct(s: Seq<(u32, i64)>, item: u32)
    requires
        row_distinct(s),
    ensures
        forall|t1: int, t2: int|
            0 <= t1 < t2 < keys_except(s, item).len() ==> (#[trigger] keys_except(s, item)[t1]) != (
            #[trigger] keys_except(s, item)[t2]),
        forall|t: int|
            0 <= t < keys_except(s, item).len() ==> (#[trigger] keys_except(s, item)[t]) != item,
        forall|t: int|
            0 <= t < keys_except(s, item).len() ==> row_has_key(
                s,
                (#[trigger] keys_except(s, item)[t]) as int,
            ),
    decreases s.len(),
{
    if s.len() > 0 {
        let dl = s.drop_last();
        assert(forall|j: int| 0 <= j < dl.len() ==> dl[j] == (#[trigger] s[j]));
        lemma_keys_except_distinct(dl, item);
        let kdl = keys_except(dl, item);
        assert forall|t: int| 0 <= t < kdl.len() implies row_has_key(
            s,
            (#[trigger] kdl[t]) as int,
        ) by {
            let j = choose|j: int| 0 <= j < dl.len() && (#[trigger] dl[j]).0 as int == kdl[t] as int;
            assert(s[j].0 as int == kdl[t] as int);
        }
        if s.last().0 != item {
            assert forall|t: int| 0 <= t < kdl.len() implies (#[trigger] kdl[t]) != s.last().0 by {
                let j = choose|j: int|
                    0 <= j < dl.len() && (#[trigger] dl[j]).0 as int == kdl[t] as int;
            }
        }
    }
}

/// What the rescorer decides for one item: keep the whole row (minus the
/// item itself), or score these candidates first.
pub enum RescorePlan {
    Keep(Vec<u32>),
    Score(Vec<u32>),
}

/// Decides how the row of `item` is turned into indicators: a row with at
/// most `n` keys is kept as it is (minus the diagonal), a larger row hands
/// its candidates out for scoring.
pub fn rescore_plan(acc: &Accumulator, item: u32, n: usize) -> (plan: RescorePlan)
    requires
        acc.wf(),
        (item as int) < acc.items(),
        n >= 1,
    ensures
        ({
            let row = acc.cmatv()[item as int];
            match plan {
                RescorePlan::Keep(v) => row.len() <= n && v@ == keys_except(row, item),
                RescorePlan::Score(v) => row.len() > n && v@ == keys_except(row, item),
            }
        }),
{
    let ghost row = acc.cmatv()[item as int];
    let sz = acc.row_size(item);
    let mut v: Vec<u32> = Vec::new();
    let mut idx: usize = 0;
    while idx < sz
        invariant
            acc.wf(),
            (item as int) < acc.items(),
            row == acc.cmatv()[item as int],
            sz == row.len(),
            0 <= idx <= sz,
            v@ == keys_except(row.take(idx as int), item),
        decreases sz - idx,
    {
        let e = acc.row_entry(item, idx);
        proof {
            assert(row.take(idx as int + 1).drop_last() =~= row.take(idx as int));
            assert(row.take(idx as int + 1).last() == row[idx as int]);
        }
        if e.0 != item {
            v.push(e.0);
        }
        idx += 1;
    }
    proof {
        assert(row.take(sz as int) =~= row);
    }
    if sz <= n {
        RescorePlan::Keep(v)
    } else {
        RescorePlan::Score(v)
    }
}

/// The 2-by-2 contingency table of `item` against `other`: cooccurrences of
/// both, of each alone, and the remaining mass.
pub fn contingency(acc: &Accumulator, item: u32, other: u32) -> (k: (u64, u64, u64, u64))
    requires
        acc.wf(),
        (item as int) < acc.items(),
        (other as int) < acc.items(),
        item != other,
        acc.n_cooc_v() as int + acc.fmax_v() * acc.kmax_v() <= u64::MAX,
    ensures
        k.0 as int == acc.cell(item as int, other as int),
        k.1 as int == acc.row_sums_v()[item as int] - k.0 as int,
        k.2 as int == acc.row_sums_v()[other as int] - k.0 as int,
        k.3 as int == acc.n_cooc_v() + k.0 as int - k.1 as int - k.2 as int,
    {
    proof {
        let hs0 = acc.hs();
        lemma_coocs_nonneg(hs0, item as int, other as int);
        lemma_coocs_le_wocc(hs0, item as int, other as int);
        lemma_coocs_sym(hs0, item as int, other as int);
        lemma_coocs_le_wocc(hs0, other as int, item as int);
        lemma_pairs_lower(hs0, item as int, other as int);
        lemma_wocc_nonneg(hs0, item as int);
        lemma_wocc_nonneg(hs0, other as int);
        assert(forall|w: int| 0 <= w < hs0.len() ==> (#[trigger] hs0[w]).len() <= acc.kmax_v());
        lemma_coocs_le_tocc(hs0, item as int, other as int, acc.kmax_v());
        assert(acc.item_counts_v()[item as int] as int == tocc(hs0, item as int));
        assert(tocc(hs0, item as int) <= acc.fmax_v());
        assert(tocc(hs0, item as int) * acc.kmax_v() <= acc.fmax_v() * acc.kmax_v())
            by (nonlinear_arith)
            requires
                tocc(hs0, item as int) <= acc.fmax_v(),
                acc.kmax_v() >= 0,
        ;
    }
    let c = acc.cooc_count(item, other);
    let k11 = c as u64;
    let k12 = acc.row_sum_of(item) - k11;
    let k21 = acc.row_sum_of(other) - k11;
    let k22 = acc.n_cooc() - k12 - k21 + k11;
    (k11, k12, k21, k22)
}

/// For two distinct items, their row masses together never exceed the total
/// cooccurrence mass.
pub proof fn lemma_pairs_lower(hs: Seq<Seq<u32>>, x: int, y: int)
    requires
        x != y,
    ensures
        wocc(hs, x) + wocc(hs, y) <= pairs(hs),
    decreases hs.len(),
{
    if hs.len() > 0 {
        let h = hs.last();
        lemma_pairs_lower(hs.drop_last(), x, y);
        lemma_occ_two(h, x, y);
        lemma_occ_bounds(h, x);
        lemma_occ_bounds(h, y);
        let ox = occ_of(h, x);
        let oy = occ_of(h, y);
        let m = h.len() as int;
        lemma_wocc_one_nonneg(h, x);
        lemma_wocc_one_nonneg(h, y);
        if m >= 1 {
            assert(ox * (m - 1) + oy * (m - 1) <= m * (m - 1)) by (nonlinear_arith)
                requires
                    ox + oy <= m,
                    m >= 1,
            ;
        }
    }
}

/// Helper naming for occurrence counts, to keep the lemma above readable.
pub open spec fn occ_of(h: Seq<u32>, v: int) -> int {
    crate::model::occ(h, v)
}

/// Whether some entry of `s` carries the id `k`.
pub open spec fn has_id(s: Seq<(u32, u64)>, k: int) -> bool {
    exists|j: int| 0 <= j < s.len() && (#[trigger] s[j]).0 as int == k
}

/// The score stored for id `k`, summed over all entries holding it.
pub open spec fn score_of(s: Seq<(u32, u64)>, k: int) -> int
    decreases s.len(),
{
    if s.len() == 0 {
        0
    } else {
        score_of(s.drop_last(), k) + if s.last().0 as int == k {
            s.last().1 as int
        } else {
            0
        }
    }
}

pub open spec fn ids_distinct(s: Seq<(u32, u64)>) -> bool {
    forall|j1: int, j2: int| 0 <= j1 < j2 < s.len() ==> (#[trigger] s[j1]).0 != (#[trigger] s[j2]).0
}

pub proof fn lemma_score_absent(s: Seq<(u32, u64)>, k: int)
    requires
        !has_id(s, k),
    ensures
        score_of(s, k) == 0,
    decreases s.len(),
{
    if s.len() > 0 {
        assert(forall|j: int|
            0 <= j < s.drop_last().len() ==> s.drop_last()[j] == (#[trigger] s[j]));
        lemma_score_absent(s.drop_last(), k);
        assert(s[s.len() - 1].0 as int != k);
    }
}

/// With distinct ids, the stored score at a matching position is the score
/// of that id.
pub proof fn lemma_score_at(s: Seq<(u32, u64)>, j: int)
    requires
        ids_distinct(s),
        0 <= j < s.len(),
    ensures
        score_of(s, s[j].0 as int) == s[j].1 as int,
    decreases s.len(),
{
    let k = s[j].0 as int;
    if j == s.len() - 1 {
        assert(!has_id(s.drop_last(), k)) by {
            assert(forall|t: int|
                0 <= t < s.drop_last().len() ==> s.drop_last()[t] == (#[trigger] s[t]));
        }
        lemma_score_absent(s.drop_last(), k);
    } else {
        assert(forall|t: int|
            0 <= t < s.drop_last().len() ==> s.drop_last()[t] == (#[trigger] s[t]));
        lemma_score_at(s.drop_last(), j);
        assert(s.last().0 as int != k);
    }
}

/// Keeps the ids of the up-to-`n` best-scoring entries of `scored`. An entry
/// enters while there is room; afterwards it displaces the current minimum
/// only with a strictly greater score, so equal scores never displace an
/// incumbent. Every id kept scores at least as high as every id dropped.
pub fn select_top(scored: &Vec<(u32, u64)>, n: usize) -> (r: Vec<u32>)
    requires
        n >= 1,
        ids_distinct(scored@),
    ensures
        r@.len() == if scored@.len() < n {
            scored@.len() as int
        } else {
            n as int
        },
        forall|t1: int, t2: int| 0 <= t1 < t2 < r@.len() ==> (#[trigger] r@[t1]) != (
        #[trigger] r@[t2]),
        forall|t: int| 0 <= t < r@.len() ==> has_id(scored@, (#[trigger] r@[t]) as int),
        forall|j: int, t: int|
            #![trigger scored@[j], r@[t]]
            0 <= j < scored@.len() && 0 <= t < r@.len() && !(exists|t2: int|
                0 <= t2 < r@.len() && (#[trigger] r@[t2]) == scored@[j].0) ==> scored@[j].1 as int
                <= score_of(scored@, r@[t] as int),
{
    let total = scored.len();
    let mut kept: Vec<(u32, u64)> = Vec::new();
    let mut i: usize = 0;
    while i < total
        invariant
            n >= 1,
            ids_distinct(scored@),
            total == scored@.len(),
            0 <= i <= total,
            kept@.len() == if i < n {
                i as int
            } else {
                n as int
            },
            forall|t: int|
                0 <= t < kept@.len() ==> exists|j: int|
                    0 <= j < i && (#[trigger] kept@[t]) == scored@[j],
            i <= n ==> (forall|t: int| 0 <= t < kept@.len() ==> (#[trigger] kept@[t]) == scored@[t]),
            forall|t1: int, t2: int|
                0 <= t1 < t2 < kept@.len() ==> (#[trigger] kept@[t1]).0 != (#[trigger] kept@[t2]).0,
            forall|j: int, t: int|
                #![trigger scored@[j], kept@[t]]
                0 <= j < i && 0 <= t < kept@.len() && !(exists|t2: int|
                    0 <= t2 < kept@.len() && (#[trigger] kept@[t2]).0 == scored@[j].0) ==> scored@[j].1
                    <= kept@[t].1,
        decreases total - i,
    {
        let e = scored[i];
        if kept.len() < n {
            proof {
                assert forall|t: int| 0 <= t < kept@.len() implies (#[trigger] kept@[t]).0 != e.0
                    by {
                    let j = choose|j: int| 0 <= j < i && (#[trigger] kept@[t]) == scored@[j];
                    assert(scored@[j].0 != scored@[i as int].0);
                }
            }
            kept.push(e);
            proof {
                assert(kept@[kept@.len() - 1] == scored@[i as int]);
                assert forall|j: int, t: int|
                    #![trigger scored@[j], kept@[t]]
                    0 <= j < i + 1 && 0 <= t < kept@.len() && !(exists|t2: int|
                        0 <= t2 < kept@.len() && (#[trigger] kept@[t2]).0 == scored@[j].0) implies
                    scored@[j].1 <= kept@[t].1 by {
                    assert(kept@[j] == scored@[j]);
                    assert(kept@[j].0 == scored@[j].0);
                }
            }
        } else {
            let mut mi: usize = 0;
            let mut w: usize = 1;
            while w < kept.len()
                invariant
                    0 <= mi < w <= kept@.len(),
                    forall|t: int| 0 <= t < w ==> (#[trigger] kept@[t]).1 >= kept@[mi as int].1,
                decreases kept@.len() - w,
            {
                if kept[w].1 < kept[mi].1 {
                    mi = w;
                }
                w += 1;
            }
            if e.1 > kept[mi].1 {
                proof {
                    assert forall|t: int| 0 <= t < kept@.len() implies (#[trigger] kept@[t]).0
                        != e.0 by {
                        let j = choose|j: int| 0 <= j < i && (#[trigger] kept@[t]) == scored@[j];
                        assert(scored@[j].0 != scored@[i as int].0);
                    }
                }
                let ghost old_kept = kept@;
                kept.set(mi, e);
                proof {
                    assert(kept@[mi as int] == scored@[i as int]);
                    assert forall|t: int| 0 <= t < kept@.len() implies exists|j: int|
                        0 <= j < i + 1 && (#[trigger] kept@[t]) == scored@[j] by {
                        if t == mi {
                            assert(kept@[t] == scored@[i as int]);
                        } else {
                            assert(kept@[t] == old_kept[t]);
                            let j = choose|j: int| 0 <= j < i && (#[trigger] old_kept[t]) == scored@[j];
                            assert(kept@[t] == scored@[j]);
                        }
                    }
                    assert forall|j: int, t: int|
                        #![trigger scored@[j], kept@[t]]
                        0 <= j < i + 1 && 0 <= t < kept@.len() && !(exists|t2: int|
                            0 <= t2 < kept@.len() && (#[trigger] kept@[t2]).0 == scored@[j].0)
                        implies scored@[j].1 <= kept@[t].1 by {
                        if j == i as int {
                            assert(kept@[mi as int].0 == scored@[j].0);
                        } else {
                            if exists|t2: int|
                                0 <= t2 < old_kept.len() && (#[trigger] old_kept[t2]).0
                                    == scored@[j].0 {
                                let t2 = choose|t2: int|
                                    0 <= t2 < old_kept.len() && (#[trigger] old_kept[t2]).0
                                        == scored@[j].0;
                                if t2 == mi {
                                    let jm = choose|jj: int|
                                        0 <= jj < i && (#[trigger] old_kept[mi as int])
                                            == scored@[jj];
                                    if jm < j {
                                        assert(scored@[jm].0 != scored@[j].0);
                                    } else if j < jm {
                                        assert(scored@[j].0 != scored@[jm].0);
                                    }
                                    assert(jm == j);
                                    assert(scored@[j].1 == old_kept[mi as int].1);
                                    assert(old_kept[t].1 >= old_kept[mi as int].1);
                                    if t == mi {
                                        assert(kept@[t] == scored@[i as int]);
                                    } else {
                                        assert(kept@[t] == old_kept[t]);
                                    }
                                } else {
                                    assert(kept@[t2] == old_kept[t2]);
                                    assert(kept@[t2].0 == scored@[j].0);
                                }
                            } else {
                                assert(scored@[j].1 <= old_kept[mi as int].1);
                                if t == mi {
                                    assert(kept@[t] == scored@[i as int]);
                                } else {
                                    assert(kept@[t] == old_kept[t]);
                                    assert(scored@[j].1 <= old_kept[t].1);
                                }
                            }
                        }
                    }
                }
            } else {
                proof {
                    assert forall|j: int, t: int|
                        #![trigger scored@[j], kept@[t]]
                        0 <= j < i + 1 && 0 <= t < kept@.len() && !(exists|t2: int|
                            0 <= t2 < kept@.len() && (#[trigger] kept@[t2]).0 == scored@[j].0)
                        implies scored@[j].1 <= kept@[t].1 by {
                        if j == i as int {
                            assert(scored@[j].1 <= kept@[mi as int].1);
                            assert(kept@[t].1 >= kept@[mi as int].1);
                        }
                    }
                }
            }
        }
        i += 1;
    }
    proof {
        if total < n {
            assert(kept@.len() == total as int);
        }
    }
    let mut r: Vec<u32> = Vec::new();
    let mut t: usize = 0;
    while t < kept.len()
        invariant
            0 <= t <= kept@.len(),
            r@.len() == t as int,
            forall|t1: int| 0 <= t1 < t ==> (#[trigger] r@[t1]) == kept@[t1].0,
        decreases kept@.len() - t,
    {
        r.push(kept[t].0);
        t += 1;
    }
    proof {
        assert forall|t1: int| 0 <= t1 < r@.len() implies has_id(
            scored@,
            (#[trigger] r@[t1]) as int,
        ) by {
            let j = choose|j: int| 0 <= j < total && (#[trigger] kept@[t1]) == scored@[j];
            assert(scored@[j].0 as int == r@[t1] as int);
        }
        assert forall|j: int, t1: int|
            #![trigger scored@[j], r@[t1]]
            0 <= j < scored@.len() && 0 <= t1 < r@.len() && !(exists|t2: int|
                0 <= t2 < r@.len() && (#[trigger] r@[t2]) == scored@[j].0) implies scored@[j].1 as int
                <= score_of(scored@, r@[t1] as int) by {
            assert(!(exists|t2: int|
                0 <= t2 < kept@.len() && (#[trigger] kept@[t2]).0 == scored@[j].0)) by {
                if exists|t2: int| 0 <= t2 < kept@.len() && (#[trigger] kept@[t2]).0 == scored@[j].0 {
                    let t2 = choose|t2: int|
                        0 <= t2 < kept@.len() && (#[trigger] kept@[t2]).0 == scored@[j].0;
                    assert(r@[t2] == scored@[j].0);
                }
            }
            assert(scored@[j].1 <= kept@[t1].1);
            let jk = choose|jj: int| 0 <= jj < total && (#[trigger] kept@[t1]) == scored@[jj];
            lemma_score_at(scored@, jk);
            assert(score_of(scored@, r@[t1] as int) == kept@[t1].1 as int);
        }
    }
    r
}

} // verus!
