//! Sparse signed counter rows.
//!
//! A row of the cooccurrence matrix maps item ids to signed 64-bit counts.
//! It is stored as a vector of key/value pairs with pairwise distinct keys;
//! absent keys stand for a count of zero. Entries are kept once touched,
//! even when their count returns to zero, so the row length counts the keys
//! ever touched.

use vstd::prelude::*;

verus! {

/// The count stored for key `k`, summed over all entries holding it.
pub open spec fn row_val(s: Seq<(u32, i64)>, k: int) -> int
    decreases s.len(),
{
    if s.len() == 0 {
        0
    } else {
        row_val(s.drop_last(), k) + if s.last().0 as int == k {
            s.last().1 as int
        } else {
            0
        }
    }
}

/// Sum of all counts stored in the row.
pub open spec fn row_total(s: Seq<(u32, i64)>) -> int
    decreases s.len(),
{
    if s.len() == 0 {
        0
    } else {
        row_total(s.drop_last()) + s.last().1 as int
    }
}

pub open spec fn row_distinct(s: Seq<(u32, i64)>) -> bool {
    forall|j1: int, j2: int| 0 <= j1 < j2 < s.len() ==> (#[trigger] s[j1]).0 != (#[trigger] s[j2]).0
}

pub open spec fn row_keys_below(s: Seq<(u32, i64)>, n: int) -> bool {
    forall|j: int| 0 <= j < s.len() ==> (#[trigger] s[j]).0 < n
}

pub open spec fn row_has_key(s: Seq<(u32, i64)>, k: int) -> bool {
    exists|j: int| 0 <= j < s.len() && (#[trigger] s[j]).0 as int == k
}

pub proof fn lemma_row_val_absent(s: Seq<(u32, i64)>, k: int)
    requires
        !row_has_key(s, k),
    ensures
        row_val(s, k) == 0,
    decreases s.len(),
{
    if s.len() > 0 {
        assert(forall|j: int|
            0 <= j < s.drop_last().len() ==> s.drop_last()[j] == (#[trigger] s[j]));
        lemma_row_val_absent(s.drop_last(), k);
        assert(s[s.len() - 1].0 as int != k);
    }
}

/// With distinct keys, the stored value at a matching position is the row
/// value for that key.
pub proof fn lemma_row_val_at(s: Seq<(u32, i64)>, j: int)
    requires
        row_distinct(s),
        0 <= j < s.len(),
    ensures
        row_val(s, s[j].0 as int) == s[j].1 as int,
    decreases s.len(),
{
    let k = s[j].0 as int;
    if j == s.len() - 1 {
        assert(!row_has_key(s.drop_last(), k)) by {
            assert(forall|t: int|
                0 <= t < s.drop_last().len() ==> s.drop_last()[t] == (#[trigger] s[t]));
        }
        lemma_row_val_absent(s.drop_last(), k);
    } else {
        assert(forall|t: int|
            0 <= t < s.drop_last().len() ==> s.drop_last()[t] == (#[trigger] s[t]));
        lemma_row_val_at(s.drop_last(), j);
        assert(s.last().0 as int != k);
    }
}

/// Overwriting the value at one position shifts the row value of its key and
/// the row total by the difference, and no other key.
pub proof fn lemma_row_update(s: Seq<(u32, i64)>, j: int, e: (u32, i64), k: int)
    requires
        0 <= j < s.len(),
        e.0 == s[j].0,
    ensures
        row_val(s.update(j, e), k) == row_val(s, k) + if e.0 as int == k {
            e.1 - s[j].1
        } else {
            0int
        },
        row_total(s.update(j, e)) == row_total(s) + e.1 - s[j].1,
    decreases s.len(),
{
    if j == s.len() - 1 {
        assert(s.update(j, e).drop_last() =~= s.drop_last());
    } else {
        assert(s.update(j, e).drop_last() =~= s.drop_last().update(j, e));
        lemma_row_update(s.drop_last(), j, e, k);
    }
}

/// One row of the sparse cooccurrence matrix.
pub struct SparseRow {
    entries: Vec<(u32, i64)>,
}

impl View for SparseRow {
    type V = Seq<(u32, i64)>;

    closed spec fn view(&self) -> Seq<(u32, i64)> {
        self.entries@
    }
}

impl SparseRow {
    pub fn empty() -> (r: SparseRow)
        ensures
            r@ == Seq::<(u32, i64)>::empty(),
    {
        SparseRow { entries: Vec::new() }
    }

    pub fn size(&self) -> (r: usize)
        ensures
            r == self@.len(),
    {
        self.entries.len()
    }

    pub fn entry_at(&self, idx: usize) -> (r: (u32, i64))
        requires
            idx < self@.len(),
        ensures
            r == self@[idx as int],
    {
        self.entries[idx]
    }

    /// The count stored for `key`, zero when the key is absent.
    pub fn value_of(&self, key: u32) -> (r: i64)
        requires
            row_distinct(self@),
        ensures
            r as int == row_val(self@, key as int),
    {
        let n = self.entries.len();
        let mut idx: usize = 0;
        while idx < n
            invariant
                row_distinct(self@),
                n == self@.len(),
                0 <= idx <= n,
                forall|t: int| 0 <= t < idx ==> (#[trigger] self@[t]).0 != key,
            decreases n - idx,
        {
            if self.entries[idx].0 == key {
                proof {
                    lemma_row_val_at(self@, idx as int);
                }
                return self.entries[idx].1;
            }
            idx += 1;
        }
        proof {
            assert(!row_has_key(self@, key as int));
            lemma_row_val_absent(self@, key as int);
        }
        0
    }

    /// Adds `delta` to the count of `key`, inserting the key when absent.
    pub fn add_to(&mut self, key: u32, delta: i64)
        requires
            row_distinct(old(self)@),
            i64::MIN <= row_val(old(self)@, key as int) + delta <= i64::MAX,
        ensures
            row_distinct(final(self)@),
            forall|k: int|
                row_val(final(self)@, k) == row_val(old(self)@, k) + if k == key as int {
                    delta as int
                } else {
                    0int
                },
            row_total(final(self)@) == row_total(old(self)@) + delta,
            forall|k: int|
                row_has_key(final(self)@, k) <==> row_has_key(old(self)@, k) || k == key as int,
            old(self)@.len() <= final(self)@.len() <= old(self)@.len() + 1,
            forall|n: int|
                row_keys_below(old(self)@, n) && (key as int) < n ==> row_keys_below(
                    final(self)@,
                    n,
                ),
    {
        let n = self.entries.len();
        let mut idx: usize = 0;
        while idx < n
            invariant
                row_distinct(self@),
                *self == *old(self),
                n == self@.len(),
                0 <= idx <= n,
                i64::MIN <= row_val(self@, key as int) + delta <= i64::MAX,
                forall|t: int| 0 <= t < idx ==> (#[trigger] self@[t]).0 != key,
            decreases n - idx,
        {
            if self.entries[idx].0 == key {
                let v = self.entries[idx].1;
                proof {
                    lemma_row_val_at(self@, idx as int);
                }
                let e = (key, v + delta);
                proof {
                    assert forall|k: int|
                        row_val(self@.update(idx as int, e), k) == row_val(self@, k) + (if k
                            == key as int {
                            delta as int
                        } else {
                            0int
                        }) by {
                        lemma_row_update(self@, idx as int, e, k);
                    }
                    lemma_row_update(self@, idx as int, e, 0);
                    assert forall|k: int|
                        row_has_key(self@.update(idx as int, e), k) <==> row_has_key(self@, k) || k
                            == key as int by {
                        if row_has_key(self@, k) {
                            let j = choose|j: int|
                                0 <= j < self@.len() && (#[trigger] self@[j]).0 as int == k;
                            assert(self@.update(idx as int, e)[j].0 as int == k);
                        }
                        if row_has_key(self@.update(idx as int, e), k) {
                            let j = choose|j: int|
                                0 <= j < self@.len() && (#[trigger] self@.update(
                                    idx as int,
                                    e,
                                )[j]).0 as int == k;
                            if j != idx {
                                assert(self@[j].0 as int == k);
                            }
                        }
                    }
                }
                self.entries.set(idx, e);
                return ;
            }
            idx += 1;
        }
        proof {
            assert(!row_has_key(self@, key as int));
            lemma_row_val_absent(self@, key as int);
        }
        let ghost s0 = self@;
        self.entries.push((key, delta));
        proof {
            assert(self@.drop_last() =~= s0);
            assert forall|k: int|
                row_val(self@, k) == row_val(s0, k) + (if k == key as int {
                    delta as int
                } else {
                    0int
                }) by {}
            assert forall|k: int| row_has_key(self@, k) <==> row_has_key(s0, k) || k == key as int
                by {
                if row_has_key(s0, k) {
                    let j = choose|j: int| 0 <= j < s0.len() && (#[trigger] s0[j]).0 as int == k;
                    assert(self@[j].0 as int == k);
                }
                if row_has_key(self@, k) {
                    let j = choose|j: int|
                        0 <= j < self@.len() && (#[trigger] self@[j]).0 as int == k;
                    if j < s0.len() {
                        assert(s0[j].0 as int == k);
                    }
                }
            }
            assert(row_distinct(self@)) by {
                assert(forall|t: int| 0 <= t < s0.len() ==> self@[t] == (#[trigger] s0[t]));
            }
        }
    }
}

} // verus!
