//! The downsampled cooccurrence accumulator.
//!
//! The accumulator consumes a stream of `(user, item)` interaction pairs and
//! maintains per-user sampled histories (capacity `k_max`, reservoir
//! replacement thereafter), per-item admitted interaction counts (hard cap
//! `f_max`), the sparse symmetric cooccurrence matrix, its row sums, the
//! total cooccurrence mass, and the set of items whose row changed.
//!
//! Well-formedness ties every counter to the current histories: the cell
//! `(x, y)` holds `coocs(hs, x, y)`, the row sum of `x` holds `wocc(hs, x)`,
//! the admitted count of `x` holds `tocc(hs, x)`, and the total mass holds
//! `pairs(hs)`. The matrix is therefore symmetric and nonnegative, row sums
//! match their rows, and the caps hold after every step.

use vstd::prelude::*;
use rand::rngs::StdRng;

use crate::model::{
    occ,
    wocc_one,
    pairs_one,
    tocc,
    coocs,
    wocc,
    pairs,
    ind,
    elems,
    lemma_occ_bounds,
    lemma_occ_push,
    lemma_occ_take_step,
    lemma_occ_update,
    lemma_occ_at,
    lemma_cooc_one_push,
    lemma_cooc_one_update,
    lemma_wocc_one_push,
    lemma_wocc_one_update,
    lemma_pairs_one_push,
    lemma_tocc_update,
    lemma_coocs_update,
    lemma_wocc_update,
    lemma_pairs_update,
    lemma_coocs_nonneg,
    lemma_coocs_le_tocc,
    lemma_wocc_le_tocc,
    lemma_wocc_lower,
    lemma_tocc_lower,
    lemma_wocc_nonneg,
    lemma_sums_empty,
    lemma_elems_take_step,
    lemma_ind_mul,
    lemma_mul_bound,
};
use crate::sparse::{SparseRow, row_val, row_total, row_distinct, row_keys_below};
use crate::rng::{rng_from_seed, draw_below};
use crate::util::new_dense_vector;

verus! {

/// Capacity budget for one row's cooccurrence mass: `f_max * k_max` must
/// stay under it so that signed 64-bit cells cannot overflow.
pub const MAX_COOC_MASS: u64 = 0x4000_0000_0000_0000;

/// The configuration parameters are kept.
pub open spec fn same_config(a: Accumulator, b: Accumulator) -> bool {
    &&& b.users() == a.users()
    &&& b.items() == a.items()
    &&& b.fmax_v() == a.fmax_v()
    &&& b.kmax_v() == a.kmax_v()
}

/// All counters except the per-user interaction totals are kept.
pub open spec fn counters_frozen(a: Accumulator, b: Accumulator) -> bool {
    &&& b.hs() == a.hs()
    &&& b.cmatv() == a.cmatv()
    &&& b.row_sums_v() == a.row_sums_v()
    &&& b.item_counts_v() == a.item_counts_v()
    &&& b.user_kepts_v() == a.user_kepts_v()
    &&& b.n_cooc_v() == a.n_cooc_v()
    &&& b.dirty_v() == a.dirty_v()
}

/// The admission branch: the item is appended to the user's history, the
/// user and item counters grow by one, the total mass grows by two per
/// prior history entry, and the history plus the item become dirty.
pub open spec fn admitted_step(a: Accumulator, b: Accumulator, user: int, item: int) -> bool {
    let h = a.hs()[user];
    &&& b.hs() == a.hs().update(user, h.push(item as u32))
    &&& b.user_kepts_v() == a.user_kepts_v().update(
        user,
        (a.user_kepts_v()[user] + 1) as u32,
    )
    &&& b.item_counts_v() == a.item_counts_v().update(
        item,
        (a.item_counts_v()[item] + 1) as u32,
    )
    &&& b.n_cooc_v() == a.n_cooc_v() + 2 * h.len()
    &&& b.dirty_v() == a.dirty_v().union(elems(h)).insert(item)
}

/// The reservoir replacement branch with draw `r`: the item replaces the
/// history entry at `r`, whose item hands one admitted interaction over to
/// the new one; the total mass is kept, and the history plus the item
/// become dirty.
pub open spec fn replaced_step(a: Accumulator, b: Accumulator, user: int, item: int, r: int) -> bool {
    let h = a.hs()[user];
    let p = h[r] as int;
    &&& b.hs() == a.hs().update(user, h.update(r, item as u32))
    &&& b.user_kepts_v() == a.user_kepts_v()
    &&& b.item_counts_v().len() == a.item_counts_v().len()
    &&& forall|x: int|
        0 <= x < a.items() ==> (#[trigger] b.item_counts_v()[x]) as int == a.item_counts_v()[x]
            + ind(x == item) - ind(x == p)
    &&& b.n_cooc_v() == a.n_cooc_v()
    &&& b.dirty_v() == a.dirty_v().union(elems(h)).insert(item)
}

/// Transfers the dirty bookkeeping between two states with the same dirty
/// fields.
proof fn lemma_repr_transfer(a: Accumulator, b: Accumulator)
    requires
        a.dirty_repr_ok(),
        b.dirty_flags@ == a.dirty_flags@,
        b.dirty_list@ == a.dirty_list@,
        b.num_items == a.num_items,
    ensures
        b.dirty_repr_ok(),
{
    assert forall|x: int|
        0 <= x < b.num_items && b.dirty_flags@[x] implies exists|j: int|
        0 <= j < b.dirty_list@.len() && (#[trigger] b.dirty_list@[j]) as int == x by {
        assert(a.dirty_flags@[x]);
        let j = choose|j: int|
            0 <= j < a.dirty_list@.len() && (#[trigger] a.dirty_list@[j]) as int == x;
        assert(b.dirty_list@[j] as int == x);
    }
}

/// Transfers well-formedness between two states that differ only in the
/// generator.
proof fn lemma_wf_transfer(a: Accumulator, b: Accumulator)
    requires
        a.wf(),
        b.num_users == a.num_users,
        b.num_items == a.num_items,
        b.f_max == a.f_max,
        b.k_max == a.k_max,
        b.user_total == a.user_total,
        b.user_kept == a.user_kept,
        b.item_count == a.item_count,
        b.histories == a.histories,
        b.c == a.c,
        b.row_sums == a.row_sums,
        b.n_cooc == a.n_cooc,
        b.dirty_flags == a.dirty_flags,
        b.dirty_list == a.dirty_list,
    ensures
        b.wf(),
        same_config(a, b),
        b.hs() == a.hs(),
        b.cmatv() == a.cmatv(),
        b.row_sums_v() == a.row_sums_v(),
        b.item_counts_v() == a.item_counts_v(),
        b.user_totals_v() == a.user_totals_v(),
        b.user_kepts_v() == a.user_kepts_v(),
        b.n_cooc_v() == a.n_cooc_v(),
        b.dirty_v() == a.dirty_v(),
        b.dirty_list_v() == a.dirty_list_v(),
{
    assert(b.hs() =~= a.hs());
    assert(b.cmatv() =~= a.cmatv());
    assert(b.dirty_v() =~= a.dirty_v());
    lemma_repr_transfer(a, b);
    assert forall|u: int|
        0 <= u < b.users() implies (#[trigger] b.user_kepts_v()[u]) as int <= b.kmax_v() by {
        assert(b.user_kepts_v()[u] == a.user_kepts_v()[u]);
    }
    assert forall|u: int|
        0 <= u < b.users() implies (#[trigger] b.hs()[u]).len() == b.user_kepts_v()[u] as int by {
        assert(b.hs()[u] == a.hs()[u]);
        assert(b.user_kepts_v()[u] == a.user_kepts_v()[u]);
    }
    assert forall|u: int, t: int|
        0 <= u < b.users() && 0 <= t < b.hs()[u].len() implies (#[trigger] b.hs()[u][t])
            < b.items() by {
        assert(b.hs()[u] == a.hs()[u]);
        assert(a.hs()[u][t] == b.hs()[u][t]);
    }
    assert forall|x: int|
        0 <= x < b.items() implies (#[trigger] b.item_counts_v()[x]) as int == tocc(b.hs(), x) && (
        b.item_counts_v()[x] as int) <= b.fmax_v() by {
        assert(b.item_counts_v()[x] == a.item_counts_v()[x]);
        assert(tocc(b.hs(), x) == tocc(a.hs(), x));
    }
    assert forall|x: int| 0 <= x < b.items() implies row_distinct(#[trigger] b.cmatv()[x]) by {
        assert(b.cmatv()[x] == a.cmatv()[x]);
    }
    assert forall|x: int|
        0 <= x < b.items() implies row_keys_below(#[trigger] b.cmatv()[x], b.items()) by {
        assert(b.cmatv()[x] == a.cmatv()[x]);
    }
    assert forall|x: int, y: int|
        0 <= x < b.items() && 0 <= y < b.items() implies #[trigger] row_val(b.cmatv()[x], y)
            == coocs(b.hs(), x, y) by {
        assert(b.cmatv()[x] == a.cmatv()[x]);
        assert(row_val(b.cmatv()[x], y) == row_val(a.cmatv()[x], y));
        assert(coocs(b.hs(), x, y) == coocs(a.hs(), x, y));
    }
    assert forall|x: int|
        0 <= x < b.items() implies (#[trigger] b.row_sums_v()[x]) as int == wocc(b.hs(), x) by {
        assert(b.row_sums_v()[x] == a.row_sums_v()[x]);
        assert(wocc(b.hs(), x) == wocc(a.hs(), x));
    }
    assert(pairs(b.hs()) == pairs(a.hs()));
    assert forall|j: int|
        0 <= j < b.dirty_list_v().len() implies ((#[trigger] b.dirty_list_v()[j]) as int)
            < b.items() && b.dirty_v().contains(b.dirty_list_v()[j] as int) by {
        assert(b.dirty_list_v()[j] == a.dirty_list_v()[j]);
    }
    assert forall|j1: int, j2: int|
        0 <= j1 < j2 < b.dirty_list_v().len() implies (#[trigger] b.dirty_list_v()[j1]) != (
        #[trigger] b.dirty_list_v()[j2]) by {
        assert(b.dirty_list_v()[j1] == a.dirty_list_v()[j1]);
        assert(b.dirty_list_v()[j2] == a.dirty_list_v()[j2]);
    }
    assert forall|x: int|
        b.dirty_v().contains(x) implies exists|j: int|
        0 <= j < b.dirty_list_v().len() && (#[trigger] b.dirty_list_v()[j]) as int == x by {
        assert(a.dirty_v().contains(x));
        let j = choose|j: int|
            0 <= j < a.dirty_list_v().len() && (#[trigger] a.dirty_list_v()[j]) as int == x;
        assert(b.dirty_list_v()[j] as int == x);
    }
}

/// The effect of consuming one `(user, item)` interaction: the user's raw
/// total grows by one, and the counters either freeze (the item is at its
/// frequency cap, or the reservoir draw selected no sample), admit the item
/// to the user's history, or replace the history entry at some drawn
/// position.
pub open spec fn interaction_step(a: Accumulator, b: Accumulator, user: int, item: int) -> bool {
    &&& same_config(a, b)
    &&& (a.wf() ==> b.wf())
    &&& b.user_totals_v() == a.user_totals_v().update(
        user,
        (a.user_totals_v()[user] + 1) as u64,
    )
    &&& b.n_cooc_v() <= a.n_cooc_v() + 2 * a.kmax_v()
    &&& if a.item_counts_v()[item] as int >= a.fmax_v() {
        counters_frozen(a, b)
    } else if (a.user_kepts_v()[user] as int) < a.kmax_v() {
        admitted_step(a, b, user, item)
    } else {
        counters_frozen(a, b) || (exists|r: int|
            0 <= r < a.hs()[user].len() && #[trigger] replaced_step(a, b, user, item, r))
    }
}

/// The batch relation: `b` follows from `a` by consuming the interactions
/// of `xs` one by one, in order. An empty batch keeps the state.
pub open spec fn steps(a: Accumulator, b: Accumulator, xs: Seq<(u32, u32)>) -> bool
    decreases xs.len(),
{
    if xs.len() == 0 {
        b == a
    } else {
        exists|m: Accumulator|
            steps(a, m, xs.drop_last()) && #[trigger] interaction_step(
                m,
                b,
                xs.last().0 as int,
                xs.last().1 as int,
            )
    }
}

/// An empty batch keeps the whole state.
pub proof fn lemma_empty_batch_keeps_state(a: Accumulator, b: Accumulator)
    requires
        steps(a, b, Seq::<(u32, u32)>::empty()),
    ensures
        b == a,
{
}

/// Extends a batch relation by one consumed interaction.
pub proof fn lemma_steps_snoc(
    a: Accumulator,
    m: Accumulator,
    b: Accumulator,
    xs: Seq<(u32, u32)>,
    p: (u32, u32),
)
    requires
        steps(a, m, xs),
        interaction_step(m, b, p.0 as int, p.1 as int),
    ensures
        steps(a, b, xs.push(p)),
{
    let xs1 = xs.push(p);
    assert(xs1.drop_last() =~= xs);
    assert(xs1.last() == p);
    assert(steps(a, m, xs1.drop_last()) && interaction_step(
        m,
        b,
        xs1.last().0 as int,
        xs1.last().1 as int,
    ));
}

/// How many of the interaction pairs name the user `u`.
pub open spec fn count_user(s: Seq<(u32, u32)>, u: int) -> int
    decreases s.len(),
{
    if s.len() == 0 {
        0
    } else {
        count_user(s.drop_last(), u) + ind(s.last().0 as int == u)
    }
}

pub proof fn lemma_count_user_bounds(s: Seq<(u32, u32)>, u: int)
    ensures
        0 <= count_user(s, u) <= s.len(),
    decreases s.len(),
{
    if s.len() > 0 {
        lemma_count_user_bounds(s.drop_last(), u);
    }
}

pub proof fn lemma_count_user_take_step(s: Seq<(u32, u32)>, i: int, u: int)
    requires
        0 <= i < s.len(),
    ensures
        count_user(s.take(i + 1), u) == count_user(s.take(i), u) + ind(s[i].0 as int == u),
{
    assert(s.take(i + 1).drop_last() =~= s.take(i));
}

/// Streaming accumulator of downsampled cooccurrence counts.
pub struct Accumulator {
    num_users: usize,
    num_items: usize,
    f_max: u32,
    k_max: u32,
    user_total: Vec<u64>,
    user_kept: Vec<u32>,
    item_count: Vec<u32>,
    histories: Vec<Vec<u32>>,
    c: Vec<SparseRow>,
    row_sums: Vec<u64>,
    n_cooc: u64,
    dirty_flags: Vec<bool>,
    dirty_list: Vec<u32>,
    rng: StdRng,
}

impl Accumulator {
    pub closed spec fn users(&self) -> int {
        self.num_users as int
    }

    pub closed spec fn items(&self) -> int {
        self.num_items as int
    }

    pub closed spec fn fmax_v(&self) -> int {
        self.f_max as int
    }

    pub closed spec fn kmax_v(&self) -> int {
        self.k_max as int
    }

    /// The sampled histories, one per user.
    pub closed spec fn hs(&self) -> Seq<Seq<u32>> {
        Seq::new(self.histories@.len(), |u: int| self.histories@[u]@)
    }

    /// The rows of the cooccurrence matrix.
    pub closed spec fn cmatv(&self) -> Seq<Seq<(u32, i64)>> {
        Seq::new(self.c@.len(), |i: int| self.c@[i]@)
    }

    /// The cooccurrence count of the cell `(x, y)`.
    pub open spec fn cell(&self, x: int, y: int) -> int {
        row_val(self.cmatv()[x], y)
    }

    pub closed spec fn row_sums_v(&self) -> Seq<u64> {
        self.row_sums@
    }

    pub closed spec fn item_counts_v(&self) -> Seq<u32> {
        self.item_count@
    }

    pub closed spec fn user_totals_v(&self) -> Seq<u64> {
        self.user_total@
    }

    pub closed spec fn user_kepts_v(&self) -> Seq<u32> {
        self.user_kept@
    }

    pub closed spec fn n_cooc_v(&self) -> u64 {
        self.n_cooc
    }

    /// The set of items whose row changed since the start of the pass.
    pub closed spec fn dirty_v(&self) -> Set<int> {
        Set::new(|x: int| 0 <= x < self.dirty_flags@.len() && self.dirty_flags@[x])
    }

    pub closed spec fn dirty_list_v(&self) -> Seq<u32> {
        self.dirty_list@
    }

    /// The dirty flags and the dirty list name the same set of items.
    pub closed spec fn dirty_repr_ok(&self) -> bool {
        &&& self.dirty_flags@.len() == self.num_items
        &&& forall|j1: int, j2: int|
            0 <= j1 < j2 < self.dirty_list@.len() ==> (#[trigger] self.dirty_list@[j1]) != (
            #[trigger] self.dirty_list@[j2])
        &&& forall|j: int|
            0 <= j < self.dirty_list@.len() ==> (#[trigger] self.dirty_list@[j]) < self.num_items
                && self.dirty_flags@[self.dirty_list@[j] as int]
        &&& forall|x: int|
            0 <= x < self.num_items && self.dirty_flags@[x] ==> exists|j: int|
                0 <= j < self.dirty_list@.len() && (#[trigger] self.dirty_list@[j]) as int == x
    }

    /// Every counter agrees with the current histories.
    pub open spec fn wf(&self) -> bool {
        &&& 0 <= self.fmax_v() <= u32::MAX
        &&& 0 <= self.kmax_v() <= u32::MAX
        &&& 0 <= self.users()
        &&& 0 <= self.items()
        &&& self.fmax_v() * self.kmax_v() <= MAX_COOC_MASS as int
        &&& self.user_totals_v().len() == self.users()
        &&& self.user_kepts_v().len() == self.users()
        &&& self.hs().len() == self.users()
        &&& self.item_counts_v().len() == self.items()
        &&& self.cmatv().len() == self.items()
        &&& self.row_sums_v().len() == self.items()
        &&& forall|u: int|
            0 <= u < self.users() ==> (#[trigger] self.user_kepts_v()[u]) as int <= self.kmax_v()
        &&& forall|u: int|
            0 <= u < self.users() ==> (#[trigger] self.hs()[u]).len()
                == self.user_kepts_v()[u] as int
        &&& forall|u: int, t: int|
            0 <= u < self.users() && 0 <= t < self.hs()[u].len() ==> (
            #[trigger] self.hs()[u][t]) < self.items()
        &&& forall|x: int|
            0 <= x < self.items() ==> (#[trigger] self.item_counts_v()[x]) as int == tocc(
                self.hs(),
                x,
            )
        &&& forall|x: int|
            0 <= x < self.items() ==> (#[trigger] self.item_counts_v()[x]) as int <= self.fmax_v()
        &&& forall|x: int| 0 <= x < self.items() ==> row_distinct(#[trigger] self.cmatv()[x])
        &&& forall|x: int|
            0 <= x < self.items() ==> row_keys_below(#[trigger] self.cmatv()[x], self.items())
        &&& forall|x: int, y: int|
            0 <= x < self.items() && 0 <= y < self.items() ==> #[trigger] row_val(
                self.cmatv()[x],
                y,
            ) == coocs(self.hs(), x, y)
        &&& forall|x: int|
            0 <= x < self.items() ==> (#[trigger] self.row_sums_v()[x]) as int == wocc(
                self.hs(),
                x,
            )
        &&& self.n_cooc_v() as int == pairs(self.hs())
        &&& self.dirty_repr_ok()
        &&& forall|j: int|
            0 <= j < self.dirty_list_v().len() ==> ((#[trigger] self.dirty_list_v()[j]) as int) < self.items() && self.dirty_v().contains(self.dirty_list_v()[j] as int)
        &&& forall|j1: int, j2: int|
            0 <= j1 < j2 < self.dirty_list_v().len() ==> (#[trigger] self.dirty_list_v()[j1]) != (
            #[trigger] self.dirty_list_v()[j2])
        &&& forall|x: int|
            self.dirty_v().contains(x) ==> exists|j: int|
                0 <= j < self.dirty_list_v().len() && (#[trigger] self.dirty_list_v()[j]) as int
                    == x
    }

    /// A fresh accumulator: empty histories, all counters zero.
    pub fn new(num_users: usize, num_items: usize, f_max: u32, k_max: u32, seed: u64) -> (acc:
        Accumulator)
        requires
            f_max as int * k_max as int <= MAX_COOC_MASS as int,
        ensures
            acc.wf(),
            acc.users() == num_users,
            acc.items() == num_items,
            acc.fmax_v() == f_max,
            acc.kmax_v() == k_max,
            forall|u: int| 0 <= u < num_users ==> (#[trigger] acc.hs()[u]).len() == 0,
            forall|u: int| 0 <= u < num_users ==> (#[trigger] acc.user_totals_v()[u]) == 0,
            forall|x: int| 0 <= x < num_items ==> (#[trigger] acc.item_counts_v()[x]) == 0,
            forall|x: int| 0 <= x < num_items ==> (#[trigger] acc.row_sums_v()[x]) == 0,
            forall|x: int| 0 <= x < num_items ==> (#[trigger] acc.cmatv()[x]).len() == 0,
            acc.n_cooc_v() == 0,
            acc.dirty_v() == Set::<int>::empty(),
            acc.dirty_list_v().len() == 0,
    {
        let mut user_total: Vec<u64> = Vec::new();
        let mut user_kept: Vec<u32> = Vec::new();
        let mut histories: Vec<Vec<u32>> = Vec::new();
        while user_total.len() < num_users
            invariant
                user_total@.len() <= num_users,
                user_kept@.len() == user_total@.len(),
                histories@.len() == user_total@.len(),
                forall|u: int| 0 <= u < user_total@.len() ==> (#[trigger] user_total@[u]) == 0,
                forall|u: int| 0 <= u < user_kept@.len() ==> (#[trigger] user_kept@[u]) == 0,
                forall|u: int| 0 <= u < histories@.len() ==> (#[trigger] histories@[u])@.len() == 0,
            decreases num_users - user_total@.len(),
        {
            user_total.push(0);
            user_kept.push(0);
            histories.push(Vec::new());
        }
        let item_count = new_dense_vector(num_items);
        let mut c: Vec<SparseRow> = Vec::new();
        let mut row_sums: Vec<u64> = Vec::new();
        let mut dirty_flags: Vec<bool> = Vec::new();
        while c.len() < num_items
            invariant
                c@.len() <= num_items,
                row_sums@.len() == c@.len(),
                dirty_flags@.len() == c@.len(),
                forall|x: int| 0 <= x < c@.len() ==> (#[trigger] c@[x])@.len() == 0,
                forall|x: int| 0 <= x < row_sums@.len() ==> (#[trigger] row_sums@[x]) == 0,
                forall|x: int| 0 <= x < dirty_flags@.len() ==> !(#[trigger] dirty_flags@[x]),
            decreases num_items - c@.len(),
        {
            c.push(SparseRow::empty());
            row_sums.push(0);
            dirty_flags.push(false);
        }
        let acc = Accumulator {
            num_users,
            num_items,
            f_max,
            k_max,
            user_total,
            user_kept,
            item_count,
            histories,
            c,
            row_sums,
            n_cooc: 0,
            dirty_flags,
            dirty_list: Vec::new(),
            rng: rng_from_seed(seed),
        };
        proof {
            let hs0 = acc.hs();
            assert(forall|w: int| 0 <= w < hs0.len() ==> (#[trigger] hs0[w]).len() == 0);
            assert forall|x: int|
                0 <= x < num_items implies (#[trigger] acc.item_counts_v()[x]) as int == tocc(
                hs0,
                x,
            ) by {
                lemma_sums_empty(hs0, x, 0);
            }
            assert forall|x: int|
                0 <= x < num_items implies (#[trigger] acc.row_sums_v()[x]) as int == wocc(
                hs0,
                x,
            ) by {
                lemma_sums_empty(hs0, x, 0);
            }
            assert forall|x: int, y: int|
                0 <= x < num_items && 0 <= y < num_items implies #[trigger] row_val(
                acc.cmatv()[x],
                y,
            ) == coocs(hs0, x, y) by {
                lemma_sums_empty(hs0, x, y);
                assert(acc.cmatv()[x].len() == 0);
            }
            assert(pairs(hs0) == 0) by {
                lemma_sums_empty(hs0, 0, 0);
            }
            assert(acc.dirty_v() =~= Set::<int>::empty());
        }
        acc
    }

    /// Adds `x` to the dirty set; every other part of the state is kept.
    fn mark_dirty(&mut self, x: u32)
        requires
            old(self).dirty_repr_ok(),
            (x as int) < old(self).items(),
            forall|j: int|
                0 <= j < old(self).dirty_list_v().len() ==> ((
                #[trigger] old(self).dirty_list_v()[j]) as int) < old(self).items() && old(self).dirty_v().contains(old(self).dirty_list_v()[j] as int),
            forall|j1: int, j2: int|
                0 <= j1 < j2 < old(self).dirty_list_v().len() ==> (
                #[trigger] old(self).dirty_list_v()[j1]) != (
                #[trigger] old(self).dirty_list_v()[j2]),
            forall|xx: int|
                old(self).dirty_v().contains(xx) ==> exists|j: int|
                    0 <= j < old(self).dirty_list_v().len() && (
                    #[trigger] old(self).dirty_list_v()[j]) as int == xx,
        ensures
            final(self).dirty_repr_ok(),
            final(self).dirty_v() == old(self).dirty_v().insert(x as int),
            forall|j: int|
                0 <= j < final(self).dirty_list_v().len() ==> ((
                #[trigger] final(self).dirty_list_v()[j]) as int) < final(self).items() && final(self).dirty_v().contains(final(self).dirty_list_v()[j] as int),
            forall|j1: int, j2: int|
                0 <= j1 < j2 < final(self).dirty_list_v().len() ==> (
                #[trigger] final(self).dirty_list_v()[j1]) != (
                #[trigger] final(self).dirty_list_v()[j2]),
            forall|xx: int|
                final(self).dirty_v().contains(xx) ==> exists|j: int|
                    0 <= j < final(self).dirty_list_v().len() && (
                    #[trigger] final(self).dirty_list_v()[j]) as int == xx,
            final(self).users() == old(self).users(),
            final(self).items() == old(self).items(),
            final(self).fmax_v() == old(self).fmax_v(),
            final(self).kmax_v() == old(self).kmax_v(),
            final(self).hs() == old(self).hs(),
            final(self).cmatv() == old(self).cmatv(),
            final(self).row_sums_v() == old(self).row_sums_v(),
            final(self).item_counts_v() == old(self).item_counts_v(),
            final(self).user_totals_v() == old(self).user_totals_v(),
            final(self).user_kepts_v() == old(self).user_kepts_v(),
            final(self).n_cooc_v() == old(self).n_cooc_v(),
            final(self).rng == old(self).rng,
    {
        let xi = x as usize;
        if !self.dirty_flags[xi] {
            self.dirty_flags.set(xi, true);
            self.dirty_list.push(x);
            proof {
                assert(final(self).dirty_v() =~= old(self).dirty_v().insert(x as int));
                assert forall|xx: int| final(self).dirty_v().contains(xx) implies exists|j: int|
                    0 <= j < final(self).dirty_list_v().len() && (
                    #[trigger] final(self).dirty_list_v()[j]) as int == xx by {
                    if xx == x as int {
                        assert(final(self).dirty_list_v()[final(self).dirty_list_v().len()
                            - 1] as int == xx);
                    } else {
                        let j = choose|j: int|
                            0 <= j < old(self).dirty_list_v().len() && (
                            #[trigger] old(self).dirty_list_v()[j]) as int == xx;
                        assert(final(self).dirty_list_v()[j] as int == xx);
                    }
                }
                assert forall|xx: int|
                    0 <= xx < self.num_items && self.dirty_flags@[xx] implies exists|j: int|
                    0 <= j < self.dirty_list@.len() && (#[trigger] self.dirty_list@[j]) as int
                        == xx by {
                    assert(final(self).dirty_v().contains(xx));
                    let j = choose|j: int|
                        0 <= j < final(self).dirty_list_v().len() && (
                        #[trigger] final(self).dirty_list_v()[j]) as int == xx;
                    assert(self.dirty_list@[j] as int == xx);
                }
            }
        } else {
            proof {
                assert(final(self).dirty_v() =~= old(self).dirty_v().insert(x as int));
            }
        }
    }

    /// Adds `delta` to the cell `(x, y)`; every other row is kept.
    #[verifier::rlimit(60)]
    fn bump_cell(&mut self, x: u32, y: u32, delta: i64)
        requires
            (x as int) < old(self).items(),
            (y as int) < old(self).items(),
            old(self).cmatv().len() == old(self).items(),
            forall|a: int|
                0 <= a < old(self).items() ==> row_distinct(#[trigger] old(self).cmatv()[a]),
            forall|a: int|
                0 <= a < old(self).items() ==> row_keys_below(
                    #[trigger] old(self).cmatv()[a],
                    old(self).items(),
                ),
            i64::MIN <= row_val(old(self).cmatv()[x as int], y as int) + delta <= i64::MAX,
        ensures
            final(self).cmatv().len() == old(self).cmatv().len(),
            forall|a: int|
                0 <= a < final(self).items() ==> row_distinct(#[trigger] final(self).cmatv()[a]),
            forall|a: int|
                0 <= a < final(self).items() ==> row_keys_below(
                    #[trigger] final(self).cmatv()[a],
                    final(self).items(),
                ),
            forall|a: int, b: int|
                0 <= a < final(self).items() ==> #[trigger] row_val(final(self).cmatv()[a], b)
                    == row_val(old(self).cmatv()[a], b) + if a == x as int && b == y as int {
                    delta as int
                } else {
                    0int
                },
            forall|a: int|
                0 <= a < final(self).items() && a != x as int ==> (#[trigger] final(self).cmatv()[a])
                    == old(self).cmatv()[a],
            final(self).cmatv()[x as int].len() <= old(self).cmatv()[x as int].len() + 1,
            row_total(final(self).cmatv()[x as int]) == row_total(old(self).cmatv()[x as int])
                + delta,
            final(self).users() == old(self).users(),
            final(self).items() == old(self).items(),
            final(self).fmax_v() == old(self).fmax_v(),
            final(self).kmax_v() == old(self).kmax_v(),
            final(self).hs() == old(self).hs(),
            final(self).row_sums_v() == old(self).row_sums_v(),
            final(self).item_counts_v() == old(self).item_counts_v(),
            final(self).user_totals_v() == old(self).user_totals_v(),
            final(self).user_kepts_v() == old(self).user_kepts_v(),
            final(self).n_cooc_v() == old(self).n_cooc_v(),
            final(self).dirty_v() == old(self).dirty_v(),
            final(self).dirty_list_v() == old(self).dirty_list_v(),
            old(self).dirty_repr_ok() ==> final(self).dirty_repr_ok(),
            final(self).rng == old(self).rng,
    {
        let row = &mut self.c[x as usize];
        row.add_to(y, delta);
        proof {
            assert forall|a: int|
                0 <= a < final(self).items() && a != x as int implies (#[trigger] final(self).cmatv()[a]) == old(self).cmatv()[a] by {}
            assert(final(self).dirty_v() =~= old(self).dirty_v());
            assert(final(self).hs() =~= old(self).hs());
            assert(final(self).row_sums_v() =~= old(self).row_sums_v());
            assert(final(self).item_counts_v() =~= old(self).item_counts_v());
            assert(final(self).user_totals_v() =~= old(self).user_totals_v());
            assert(final(self).user_kepts_v() =~= old(self).user_kepts_v());
            assert(final(self).dirty_list_v() =~= old(self).dirty_list_v());
        }
    }


    /// Adds `delta` to one row sum; every other part of the state is kept.
    #[verifier::rlimit(60)]
    fn bump_row_sum(&mut self, x: usize, delta: u64)
        requires
            (x as int) < old(self).row_sums_v().len(),
            old(self).row_sums_v()[x as int] + delta <= u64::MAX,
        ensures
            final(self).row_sums_v() == old(self).row_sums_v().update(
                x as int,
                (old(self).row_sums_v()[x as int] + delta) as u64,
            ),
            final(self).users() == old(self).users(),
            final(self).items() == old(self).items(),
            final(self).fmax_v() == old(self).fmax_v(),
            final(self).kmax_v() == old(self).kmax_v(),
            final(self).hs() == old(self).hs(),
            final(self).cmatv() == old(self).cmatv(),
            final(self).item_counts_v() == old(self).item_counts_v(),
            final(self).user_totals_v() == old(self).user_totals_v(),
            final(self).user_kepts_v() == old(self).user_kepts_v(),
            final(self).n_cooc_v() == old(self).n_cooc_v(),
            final(self).dirty_v() == old(self).dirty_v(),
            final(self).dirty_list_v() == old(self).dirty_list_v(),
            old(self).dirty_repr_ok() ==> final(self).dirty_repr_ok(),
    {
        let v = self.row_sums[x];
        self.row_sums.set(x, v + delta);
        proof {
            assert(final(self).hs() =~= old(self).hs());
            assert(final(self).cmatv() =~= old(self).cmatv());
            assert(final(self).dirty_v() =~= old(self).dirty_v());
            if old(self).dirty_repr_ok() {
                lemma_repr_transfer(*old(self), *final(self));
            }
        }
    }

    /// Subtracts `delta` from one row sum; every other part is kept.
    #[verifier::rlimit(60)]
    fn drop_row_sum(&mut self, x: usize, delta: u64)
        requires
            (x as int) < old(self).row_sums_v().len(),
            delta <= old(self).row_sums_v()[x as int],
        ensures
            final(self).row_sums_v() == old(self).row_sums_v().update(
                x as int,
                (old(self).row_sums_v()[x as int] - delta) as u64,
            ),
            final(self).users() == old(self).users(),
            final(self).items() == old(self).items(),
            final(self).fmax_v() == old(self).fmax_v(),
            final(self).kmax_v() == old(self).kmax_v(),
            final(self).hs() == old(self).hs(),
            final(self).cmatv() == old(self).cmatv(),
            final(self).item_counts_v() == old(self).item_counts_v(),
            final(self).user_totals_v() == old(self).user_totals_v(),
            final(self).user_kepts_v() == old(self).user_kepts_v(),
            final(self).n_cooc_v() == old(self).n_cooc_v(),
            final(self).dirty_v() == old(self).dirty_v(),
            final(self).dirty_list_v() == old(self).dirty_list_v(),
            old(self).dirty_repr_ok() ==> final(self).dirty_repr_ok(),
    {
        let v = self.row_sums[x];
        self.row_sums.set(x, v - delta);
        proof {
            assert(final(self).hs() =~= old(self).hs());
            assert(final(self).cmatv() =~= old(self).cmatv());
            assert(final(self).dirty_v() =~= old(self).dirty_v());
            if old(self).dirty_repr_ok() {
                lemma_repr_transfer(*old(self), *final(self));
            }
        }
    }

    /// Sets one sampled-history counter; every other part is kept.
    #[verifier::rlimit(60)]
    fn set_kept_at(&mut self, u: usize, v: u32)
        requires
            (u as int) < old(self).user_kepts_v().len(),
        ensures
            final(self).user_kepts_v() == old(self).user_kepts_v().update(u as int, v),
            final(self).users() == old(self).users(),
            final(self).items() == old(self).items(),
            final(self).fmax_v() == old(self).fmax_v(),
            final(self).kmax_v() == old(self).kmax_v(),
            final(self).hs() == old(self).hs(),
            final(self).cmatv() == old(self).cmatv(),
            final(self).row_sums_v() == old(self).row_sums_v(),
            final(self).item_counts_v() == old(self).item_counts_v(),
            final(self).user_totals_v() == old(self).user_totals_v(),
            final(self).n_cooc_v() == old(self).n_cooc_v(),
            final(self).dirty_v() == old(self).dirty_v(),
            final(self).dirty_list_v() == old(self).dirty_list_v(),
            old(self).dirty_repr_ok() ==> final(self).dirty_repr_ok(),
    {
        self.user_kept.set(u, v);
        proof {
            assert(final(self).hs() =~= old(self).hs());
            assert(final(self).cmatv() =~= old(self).cmatv());
            assert(final(self).dirty_v() =~= old(self).dirty_v());
            if old(self).dirty_repr_ok() {
                lemma_repr_transfer(*old(self), *final(self));
            }
        }
    }

    /// Sets one admitted-interaction counter; every other part is kept.
    #[verifier::rlimit(60)]
    fn set_item_count_at(&mut self, i: usize, v: u32)
        requires
            (i as int) < old(self).item_counts_v().len(),
        ensures
            final(self).item_counts_v() == old(self).item_counts_v().update(i as int, v),
            final(self).users() == old(self).users(),
            final(self).items() == old(self).items(),
            final(self).fmax_v() == old(self).fmax_v(),
            final(self).kmax_v() == old(self).kmax_v(),
            final(self).hs() == old(self).hs(),
            final(self).cmatv() == old(self).cmatv(),
            final(self).row_sums_v() == old(self).row_sums_v(),
            final(self).user_totals_v() == old(self).user_totals_v(),
            final(self).user_kepts_v() == old(self).user_kepts_v(),
            final(self).n_cooc_v() == old(self).n_cooc_v(),
            final(self).dirty_v() == old(self).dirty_v(),
            final(self).dirty_list_v() == old(self).dirty_list_v(),
            old(self).dirty_repr_ok() ==> final(self).dirty_repr_ok(),
    {
        self.item_count.set(i, v);
        proof {
            assert(final(self).hs() =~= old(self).hs());
            assert(final(self).cmatv() =~= old(self).cmatv());
            assert(final(self).dirty_v() =~= old(self).dirty_v());
            if old(self).dirty_repr_ok() {
                lemma_repr_transfer(*old(self), *final(self));
            }
        }
    }

    /// Sets one per-user interaction total; every other part is kept.
    #[verifier::rlimit(60)]
    fn set_user_total_at(&mut self, u: usize, v: u64)
        requires
            (u as int) < old(self).user_totals_v().len(),
        ensures
            final(self).user_totals_v() == old(self).user_totals_v().update(u as int, v),
            final(self).users() == old(self).users(),
            final(self).items() == old(self).items(),
            final(self).fmax_v() == old(self).fmax_v(),
            final(self).kmax_v() == old(self).kmax_v(),
            final(self).hs() == old(self).hs(),
            final(self).cmatv() == old(self).cmatv(),
            final(self).row_sums_v() == old(self).row_sums_v(),
            final(self).item_counts_v() == old(self).item_counts_v(),
            final(self).user_kepts_v() == old(self).user_kepts_v(),
            final(self).n_cooc_v() == old(self).n_cooc_v(),
            final(self).dirty_v() == old(self).dirty_v(),
            final(self).dirty_list_v() == old(self).dirty_list_v(),
            old(self).dirty_repr_ok() ==> final(self).dirty_repr_ok(),
    {
        self.user_total.set(u, v);
        proof {
            assert(final(self).hs() =~= old(self).hs());
            assert(final(self).cmatv() =~= old(self).cmatv());
            assert(final(self).dirty_v() =~= old(self).dirty_v());
            if old(self).dirty_repr_ok() {
                lemma_repr_transfer(*old(self), *final(self));
            }
        }
    }

    /// Sets the total cooccurrence mass; every other part is kept.
    #[verifier::rlimit(60)]
    fn set_n_cooc_val(&mut self, v: u64)
        ensures
            final(self).n_cooc_v() == v,
            final(self).users() == old(self).users(),
            final(self).items() == old(self).items(),
            final(self).fmax_v() == old(self).fmax_v(),
            final(self).kmax_v() == old(self).kmax_v(),
            final(self).hs() == old(self).hs(),
            final(self).cmatv() == old(self).cmatv(),
            final(self).row_sums_v() == old(self).row_sums_v(),
            final(self).item_counts_v() == old(self).item_counts_v(),
            final(self).user_totals_v() == old(self).user_totals_v(),
            final(self).user_kepts_v() == old(self).user_kepts_v(),
            final(self).dirty_v() == old(self).dirty_v(),
            final(self).dirty_list_v() == old(self).dirty_list_v(),
            old(self).dirty_repr_ok() ==> final(self).dirty_repr_ok(),
    {
        self.n_cooc = v;
        proof {
            assert(final(self).hs() =~= old(self).hs());
            assert(final(self).cmatv() =~= old(self).cmatv());
            assert(final(self).dirty_v() =~= old(self).dirty_v());
            if old(self).dirty_repr_ok() {
                lemma_repr_transfer(*old(self), *final(self));
            }
        }
    }

    /// Appends an item to one user's history; every other part is kept.
    #[verifier::rlimit(60)]
    fn push_history_at(&mut self, u: usize, it: u32)
        requires
            (u as int) < old(self).hs().len(),
            old(self).hs()[u as int].len() < usize::MAX,
        ensures
            final(self).hs() == old(self).hs().update(
                u as int,
                old(self).hs()[u as int].push(it),
            ),
            final(self).users() == old(self).users(),
            final(self).items() == old(self).items(),
            final(self).fmax_v() == old(self).fmax_v(),
            final(self).kmax_v() == old(self).kmax_v(),
            final(self).cmatv() == old(self).cmatv(),
            final(self).row_sums_v() == old(self).row_sums_v(),
            final(self).item_counts_v() == old(self).item_counts_v(),
            final(self).user_totals_v() == old(self).user_totals_v(),
            final(self).user_kepts_v() == old(self).user_kepts_v(),
            final(self).n_cooc_v() == old(self).n_cooc_v(),
            final(self).dirty_v() == old(self).dirty_v(),
            final(self).dirty_list_v() == old(self).dirty_list_v(),
            old(self).dirty_repr_ok() ==> final(self).dirty_repr_ok(),
    {
        let hrow = &mut self.histories[u];
        hrow.push(it);
        proof {
            assert(final(self).hs() =~= old(self).hs().update(
                u as int,
                old(self).hs()[u as int].push(it),
            ));
        }
        proof {
            assert(final(self).cmatv() =~= old(self).cmatv());
            assert(final(self).dirty_v() =~= old(self).dirty_v());
            if old(self).dirty_repr_ok() {
                lemma_repr_transfer(*old(self), *final(self));
            }
        }
    }

    /// Overwrites one position of one user's history; every other part is
    /// kept.
    #[verifier::rlimit(60)]
    fn set_history_at(&mut self, u: usize, r: usize, it: u32)
        requires
            (u as int) < old(self).hs().len(),
            (r as int) < old(self).hs()[u as int].len(),
        ensures
            final(self).hs() == old(self).hs().update(
                u as int,
                old(self).hs()[u as int].update(r as int, it),
            ),
            final(self).users() == old(self).users(),
            final(self).items() == old(self).items(),
            final(self).fmax_v() == old(self).fmax_v(),
            final(self).kmax_v() == old(self).kmax_v(),
            final(self).cmatv() == old(self).cmatv(),
            final(self).row_sums_v() == old(self).row_sums_v(),
            final(self).item_counts_v() == old(self).item_counts_v(),
            final(self).user_totals_v() == old(self).user_totals_v(),
            final(self).user_kepts_v() == old(self).user_kepts_v(),
            final(self).n_cooc_v() == old(self).n_cooc_v(),
            final(self).dirty_v() == old(self).dirty_v(),
            final(self).dirty_list_v() == old(self).dirty_list_v(),
            old(self).dirty_repr_ok() ==> final(self).dirty_repr_ok(),
    {
        let hrow = &mut self.histories[u];
        hrow.set(r, it);
        proof {
            assert(final(self).hs() =~= old(self).hs().update(
                u as int,
                old(self).hs()[u as int].update(r as int, it),
            ));
        }
        proof {
            assert(final(self).cmatv() =~= old(self).cmatv());
            assert(final(self).dirty_v() =~= old(self).dirty_v());
            if old(self).dirty_repr_ok() {
                lemma_repr_transfer(*old(self), *final(self));
            }
        }
    }


    /// The admission branch of one interaction: marks the user's history and
    /// the item dirty, pairs the item with every history entry, then appends
    /// it and updates the counters.
    #[verifier::rlimit(60)]
    fn record_admission(&mut self, user: u32, item: u32)
        requires
            old(self).wf(),
            (user as int) < old(self).users(),
            (item as int) < old(self).items(),
            (old(self).item_counts_v()[item as int] as int) < old(self).fmax_v(),
            (old(self).user_kepts_v()[user as int] as int) < old(self).kmax_v(),
            old(self).n_cooc_v() as int + 2 * old(self).kmax_v() <= u64::MAX,
        ensures
            final(self).wf(),
            same_config(*old(self), *final(self)),
            final(self).user_totals_v() == old(self).user_totals_v(),
            admitted_step(*old(self), *final(self), user as int, item as int),
    {
        let ghost a = *old(self);
        let ghost hs0 = a.hs();
        let ghost h = hs0[user as int];
        let uidx = user as usize;
        let iidx = item as usize;
        let m = self.histories[uidx].len();
        proof {
            assert(m == h.len());
            assert(m < a.kmax_v());
            assert(forall|w: int| 0 <= w < hs0.len() ==> (#[trigger] hs0[w]).len() <= a.kmax_v());
            assert forall|x: int, y: int|
                0 <= x < a.items() && 0 <= y < a.items() implies 0 <= #[trigger] coocs(hs0, x, y)
                    <= a.fmax_v() * a.kmax_v() by {
                lemma_coocs_nonneg(hs0, x, y);
                lemma_coocs_le_tocc(hs0, x, y, a.kmax_v());
                assert(a.item_counts_v()[x] as int == tocc(hs0, x));
                assert(tocc(hs0, x) <= a.fmax_v());
                assert(tocc(hs0, x) * a.kmax_v() <= a.fmax_v() * a.kmax_v()) by (nonlinear_arith)
                    requires
                        tocc(hs0, x) <= a.fmax_v(),
                        a.kmax_v() >= 0,
                ;
            }
            assert forall|x: int|
                0 <= x < a.items() implies 0 <= #[trigger] wocc(hs0, x) <= a.fmax_v() * a.kmax_v()
                by {
                lemma_wocc_nonneg(hs0, x);
                lemma_wocc_le_tocc(hs0, x, a.kmax_v());
                assert(a.item_counts_v()[x] as int == tocc(hs0, x));
                assert(tocc(hs0, x) <= a.fmax_v());
                assert(tocc(hs0, x) * a.kmax_v() <= a.fmax_v() * a.kmax_v()) by (nonlinear_arith)
                    requires
                        tocc(hs0, x) <= a.fmax_v(),
                        a.kmax_v() >= 0,
                ;
            }
            assert(elems(h.take(0)) =~= Set::<int>::empty());
            assert(self.dirty_v() =~= a.dirty_v().union(elems(h.take(0))));
        }
        let mut t: usize = 0;
        while t < m
            invariant
                a.wf(),
                (user as int) < a.users(),
                (item as int) < a.items(),
                hs0 == a.hs(),
                h == hs0[user as int],
                m == h.len(),
                0 <= t <= m,
                uidx == user as usize,
                same_config(a, *self),
                self.hs() == hs0,
                self.cmatv() == a.cmatv(),
                self.row_sums_v() == a.row_sums_v(),
                self.item_counts_v() == a.item_counts_v(),
                self.user_totals_v() == a.user_totals_v(),
                self.user_kepts_v() == a.user_kepts_v(),
                self.n_cooc_v() == a.n_cooc_v(),
                self.dirty_repr_ok(),
                self.dirty_v() == a.dirty_v().union(elems(h.take(t as int))),
                forall|j: int|
                    0 <= j < self.dirty_list_v().len() ==> ((#[trigger] self.dirty_list_v()[j]) as int)
                        < self.items() && self.dirty_v().contains(self.dirty_list_v()[j] as int),
                forall|j1: int, j2: int|
                    0 <= j1 < j2 < self.dirty_list_v().len() ==> (#[trigger] self.dirty_list_v()[j1])
                        != (#[trigger] self.dirty_list_v()[j2]),
                forall|x: int|
                    self.dirty_v().contains(x) ==> exists|j: int|
                        0 <= j < self.dirty_list_v().len() && (#[trigger] self.dirty_list_v()[j]) as int
                            == x,
            decreases m - t,
        {
            let j = self.histories[uidx][t];
            proof {
                assert(self.hs()[user as int][t as int] == j);
                assert((j as int) < a.items());
            }
            self.mark_dirty(j);
            proof {
                lemma_elems_take_step(h, t as int);
                assert(self.dirty_v() =~= a.dirty_v().union(elems(h.take(t as int + 1))));
            }
            t += 1;
        }
        proof {
            assert(h.take(m as int) =~= h);
        }
        self.mark_dirty(item);
        let ghost d1 = self.dirty_v();
        let ghost dl1 = self.dirty_list_v();
        proof {
            assert(d1 =~= a.dirty_v().union(elems(h)).insert(item as int));
        }
        t = 0;
        while t < m
            invariant
                a.wf(),
                (user as int) < a.users(),
                (item as int) < a.items(),
                (a.item_counts_v()[item as int] as int) < a.fmax_v(),
                (a.user_kepts_v()[user as int] as int) < a.kmax_v(),
                hs0 == a.hs(),
                h == hs0[user as int],
                m == h.len(),
                m < a.kmax_v(),
                0 <= t <= m,
                uidx == user as usize,
                a.fmax_v() * a.kmax_v() <= MAX_COOC_MASS as int,
                forall|x: int, y: int|
                    0 <= x < a.items() && 0 <= y < a.items() ==> 0 <= #[trigger] coocs(hs0, x, y)
                        <= a.fmax_v() * a.kmax_v(),
                forall|x: int|
                    0 <= x < a.items() ==> 0 <= #[trigger] wocc(hs0, x) <= a.fmax_v() * a.kmax_v(),
                same_config(a, *self),
                self.hs() == hs0,
                self.user_totals_v() == a.user_totals_v(),
                self.user_kepts_v() == a.user_kepts_v(),
                self.item_counts_v() == a.item_counts_v(),
                self.n_cooc_v() == a.n_cooc_v(),
                self.cmatv().len() == a.items(),
                self.row_sums_v().len() == a.items(),
                forall|x: int| 0 <= x < a.items() ==> row_distinct(#[trigger] self.cmatv()[x]),
                forall|x: int|
                    0 <= x < a.items() ==> row_keys_below(#[trigger] self.cmatv()[x], a.items()),
                forall|x: int, y: int|
                    0 <= x < a.items() && 0 <= y < a.items() ==> #[trigger] row_val(
                        self.cmatv()[x],
                        y,
                    ) == coocs(hs0, x, y) + ind(x == item as int) * occ(h.take(t as int), y) + ind(
                        y == item as int,
                    ) * occ(h.take(t as int), x),
                forall|x: int|
                    0 <= x < a.items() ==> (#[trigger] self.row_sums_v()[x]) as int == wocc(hs0, x)
                        + occ(h.take(t as int), x),
                self.dirty_repr_ok(),
                self.dirty_v() == d1,
                self.dirty_list_v() == dl1,
            decreases m - t,
        {
            let j = self.histories[uidx][t];
            proof {
                assert(self.hs()[user as int][t as int] == j);
                assert((j as int) < a.items());
                let ti = t as int;
                lemma_occ_bounds(h.take(ti), item as int);
                lemma_occ_bounds(h.take(ti), j as int);
                lemma_ind_mul(item as int == item as int, occ(h.take(ti), j as int));
                lemma_ind_mul(j as int == item as int, occ(h.take(ti), item as int));
                lemma_ind_mul(item as int == j as int, occ(h.take(ti), item as int));
                lemma_ind_mul(j as int == j as int, occ(h.take(ti), j as int));
                assert(0 <= coocs(hs0, item as int, j as int) <= a.fmax_v() * a.kmax_v());
                assert(0 <= coocs(hs0, j as int, item as int) <= a.fmax_v() * a.kmax_v());
                assert(0 <= row_val(self.cmatv()[item as int], j as int) <= a.fmax_v() * a.kmax_v()
                    + 2 * a.kmax_v());
            }
            self.bump_cell(item, j, 1);
            proof {
                assert(0 <= row_val(self.cmatv()[j as int], item as int) <= a.fmax_v() * a.kmax_v()
                    + 2 * a.kmax_v() + 1);
            }
            self.bump_cell(j, item, 1);
            proof {
                lemma_occ_bounds(h.take(t as int), j as int);
                assert(self.row_sums_v()[j as int] + 1 <= u64::MAX);
            }
            self.bump_row_sum(j as usize, 1);
            proof {
                let tn = t as int + 1;
                assert forall|x: int, y: int|
                    0 <= x < a.items() && 0 <= y < a.items() implies #[trigger] row_val(
                        self.cmatv()[x],
                        y,
                    ) == coocs(hs0, x, y) + ind(x == item as int) * occ(h.take(tn), y) + ind(
                        y == item as int,
                    ) * occ(h.take(tn), x) by {
                    lemma_occ_take_step(h, t as int, x);
                    lemma_occ_take_step(h, t as int, y);
                    let ox = occ(h.take(t as int), x);
                    let oy = occ(h.take(t as int), y);
                    lemma_ind_mul(x == item as int, oy);
                    lemma_ind_mul(y == item as int, ox);
                    lemma_ind_mul(x == item as int, occ(h.take(tn), y));
                    lemma_ind_mul(y == item as int, occ(h.take(tn), x));
                }
                assert forall|x: int|
                    0 <= x < a.items() implies (#[trigger] self.row_sums_v()[x]) as int == wocc(
                        hs0,
                        x,
                    ) + occ(h.take(tn), x) by {
                    lemma_occ_take_step(h, t as int, x);
                }
            }
            t += 1;
        }
        proof {
            assert(h.take(m as int) =~= h);
        }
        let kept = self.user_kept[uidx];
        self.set_kept_at(uidx, kept + 1);
        let ic = self.item_count[iidx];
        self.set_item_count_at(iidx, ic + 1);
        proof {
            lemma_occ_bounds(h, item as int);
            assert(self.row_sums_v()[item as int] as int == wocc(hs0, item as int) + occ(
                h,
                item as int,
            ));
        }
        self.bump_row_sum(iidx, m as u64);
        let nc = self.n_cooc();
        self.set_n_cooc_val(nc + 2 * (m as u64));
        self.push_history_at(uidx, item);
        proof {
            let h2 = h.push(item);
            let hs1 = hs0.update(user as int, h2);
            assert(self.hs() == hs1);
            assert forall|x: int|
                0 <= x < a.items() implies (#[trigger] self.item_counts_v()[x]) as int == tocc(
                    hs1,
                    x,
                ) && (self.item_counts_v()[x] as int) <= a.fmax_v() by {
                lemma_tocc_update(hs0, user as int, h2, x);
                lemma_occ_push(h, item, x);
                assert(a.item_counts_v()[x] as int == tocc(hs0, x));
            }
            assert forall|x: int, y: int|
                0 <= x < a.items() && 0 <= y < a.items() implies #[trigger] row_val(
                    self.cmatv()[x],
                    y,
                ) == coocs(hs1, x, y) by {
                lemma_coocs_update(hs0, user as int, h2, x, y);
                lemma_cooc_one_push(h, item, x, y);
                lemma_ind_mul(x == item as int, occ(h, y));
                lemma_ind_mul(y == item as int, occ(h, x));
            }
            assert forall|x: int|
                0 <= x < a.items() implies (#[trigger] self.row_sums_v()[x]) as int == wocc(hs1, x)
                by {
                lemma_wocc_update(hs0, user as int, h2, x);
                lemma_wocc_one_push(h, item, x);
                lemma_ind_mul(x == item as int, h.len() as int);
            }
            lemma_pairs_update(hs0, user as int, h2);
            lemma_pairs_one_push(h, item);
            assert(self.dirty_v() == a.dirty_v().union(elems(h)).insert(item as int));
            assert forall|u: int|
                0 <= u < a.users() implies (#[trigger] self.hs()[u]).len()
                    == self.user_kepts_v()[u] as int by {}
            assert forall|u: int, tt: int|
                0 <= u < a.users() && 0 <= tt < self.hs()[u].len() implies (
                #[trigger] self.hs()[u][tt]) < self.items() by {
                if u == user as int && tt == m as int {
                } else {
                }
            }
        }
    }

    /// The total cooccurrence mass accumulated so far.
    pub fn n_cooc(&self) -> (r: u64)
        ensures
            r == self.n_cooc_v(),
    {
        self.n_cooc
    }

    /// The reservoir replacement branch of one interaction: marks the
    /// history and the item dirty, swaps the item in for the entry at the
    /// drawn position `r`, and moves that entry's cooccurrences over.
    #[verifier::rlimit(90)]
    fn replace_at(&mut self, user: u32, item: u32, r: usize)
        requires
            old(self).wf(),
            (user as int) < old(self).users(),
            (item as int) < old(self).items(),
            (old(self).item_counts_v()[item as int] as int) < old(self).fmax_v(),
            (r as int) < old(self).hs()[user as int].len(),
        ensures
            final(self).wf(),
            same_config(*old(self), *final(self)),
            final(self).user_totals_v() == old(self).user_totals_v(),
            replaced_step(*old(self), *final(self), user as int, item as int, r as int),
    {
        let ghost a = *old(self);
        let ghost hs0 = a.hs();
        let ghost h = hs0[user as int];
        let uidx = user as usize;
        let iidx = item as usize;
        let m = self.histories[uidx].len();
        let p = self.histories[uidx][r];
        proof {
            assert(m == h.len());
            assert(m <= a.kmax_v());
            assert(p == h[r as int]);
            assert((p as int) < a.items());
            assert(forall|w: int| 0 <= w < hs0.len() ==> (#[trigger] hs0[w]).len() <= a.kmax_v());
            assert forall|x: int, y: int|
                0 <= x < a.items() && 0 <= y < a.items() implies 0 <= #[trigger] coocs(hs0, x, y)
                    <= a.fmax_v() * a.kmax_v() by {
                lemma_coocs_nonneg(hs0, x, y);
                lemma_coocs_le_tocc(hs0, x, y, a.kmax_v());
                assert(a.item_counts_v()[x] as int == tocc(hs0, x));
                assert(tocc(hs0, x) <= a.fmax_v());
                assert(tocc(hs0, x) * a.kmax_v() <= a.fmax_v() * a.kmax_v()) by (nonlinear_arith)
                    requires
                        tocc(hs0, x) <= a.fmax_v(),
                        a.kmax_v() >= 0,
                ;
            }
            assert forall|x: int|
                0 <= x < a.items() implies 0 <= #[trigger] wocc(hs0, x) <= a.fmax_v() * a.kmax_v()
                by {
                lemma_wocc_nonneg(hs0, x);
                lemma_wocc_le_tocc(hs0, x, a.kmax_v());
                assert(a.item_counts_v()[x] as int == tocc(hs0, x));
                assert(tocc(hs0, x) <= a.fmax_v());
                assert(tocc(hs0, x) * a.kmax_v() <= a.fmax_v() * a.kmax_v()) by (nonlinear_arith)
                    requires
                        tocc(hs0, x) <= a.fmax_v(),
                        a.kmax_v() >= 0,
                ;
            }
            assert(elems(h.take(0)) =~= Set::<int>::empty());
            assert(self.dirty_v() =~= a.dirty_v().union(elems(h.take(0))));
        }
        let mut t: usize = 0;
        while t < m
            invariant
                a.wf(),
                (user as int) < a.users(),
                (item as int) < a.items(),
                hs0 == a.hs(),
                h == hs0[user as int],
                m == h.len(),
                0 <= t <= m,
                uidx == user as usize,
                same_config(a, *self),
                self.hs() == hs0,
                self.cmatv() == a.cmatv(),
                self.row_sums_v() == a.row_sums_v(),
                self.item_counts_v() == a.item_counts_v(),
                self.user_totals_v() == a.user_totals_v(),
                self.user_kepts_v() == a.user_kepts_v(),
                self.n_cooc_v() == a.n_cooc_v(),
                self.dirty_repr_ok(),
                self.dirty_v() == a.dirty_v().union(elems(h.take(t as int))),
                forall|j: int|
                    0 <= j < self.dirty_list_v().len() ==> ((#[trigger] self.dirty_list_v()[j]) as int)
                        < self.items() && self.dirty_v().contains(self.dirty_list_v()[j] as int),
                forall|j1: int, j2: int|
                    0 <= j1 < j2 < self.dirty_list_v().len() ==> (#[trigger] self.dirty_list_v()[j1])
                        != (#[trigger] self.dirty_list_v()[j2]),
                forall|x: int|
                    self.dirty_v().contains(x) ==> exists|j: int|
                        0 <= j < self.dirty_list_v().len() && (#[trigger] self.dirty_list_v()[j]) as int
                            == x,
            decreases m - t,
        {
            let j = self.histories[uidx][t];
            proof {
                assert(self.hs()[user as int][t as int] == j);
                assert((j as int) < a.items());
            }
            self.mark_dirty(j);
            proof {
                lemma_elems_take_step(h, t as int);
                assert(self.dirty_v() =~= a.dirty_v().union(elems(h.take(t as int + 1))));
            }
            t += 1;
        }
        proof {
            assert(h.take(m as int) =~= h);
        }
        self.mark_dirty(item);
        let ghost d1 = self.dirty_v();
        let ghost dl1 = self.dirty_list_v();
        proof {
            assert(d1 =~= a.dirty_v().union(elems(h)).insert(item as int));
            assert(h.take(0) =~= Seq::<u32>::empty());
            assert forall|x: int, y: int|
                0 <= x < a.items() && 0 <= y < a.items() implies #[trigger] row_val(
                    self.cmatv()[x],
                    y,
                ) == coocs(hs0, x, y) + (ind(x == item as int) - ind(x == p as int)) * (occ(
                    h.take(0),
                    y,
                ) - ind(0int > r as int && y == p as int)) + (ind(y == item as int) - ind(
                    y == p as int,
                )) * (occ(h.take(0), x) - ind(0int > r as int && x == p as int)) by {
                assert(occ(h.take(0), y) == 0);
                assert(occ(h.take(0), x) == 0);
                let dx = ind(x == item as int) - ind(x == p as int);
                let dy = ind(y == item as int) - ind(y == p as int);
                assert(dx * 0 == 0) by (nonlinear_arith);
                assert(dy * 0 == 0) by (nonlinear_arith);
            }
        }
        t = 0;
        while t < m
            invariant
                a.wf(),
                (user as int) < a.users(),
                (item as int) < a.items(),
                (a.item_counts_v()[item as int] as int) < a.fmax_v(),
                hs0 == a.hs(),
                h == hs0[user as int],
                m == h.len(),
                m <= a.kmax_v(),
                (r as int) < m,
                p == h[r as int],
                (p as int) < a.items(),
                0 <= t <= m,
                uidx == user as usize,
                a.fmax_v() * a.kmax_v() <= MAX_COOC_MASS as int,
                forall|x: int, y: int|
                    0 <= x < a.items() && 0 <= y < a.items() ==> 0 <= #[trigger] coocs(hs0, x, y)
                        <= a.fmax_v() * a.kmax_v(),
                forall|x: int|
                    0 <= x < a.items() ==> 0 <= #[trigger] wocc(hs0, x) <= a.fmax_v() * a.kmax_v(),
                same_config(a, *self),
                self.hs() == hs0,
                self.user_totals_v() == a.user_totals_v(),
                self.user_kepts_v() == a.user_kepts_v(),
                self.item_counts_v() == a.item_counts_v(),
                self.n_cooc_v() == a.n_cooc_v(),
                self.cmatv().len() == a.items(),
                self.row_sums_v() == a.row_sums_v(),
                forall|x: int| 0 <= x < a.items() ==> row_distinct(#[trigger] self.cmatv()[x]),
                forall|x: int|
                    0 <= x < a.items() ==> row_keys_below(#[trigger] self.cmatv()[x], a.items()),
                forall|x: int, y: int|
                    0 <= x < a.items() && 0 <= y < a.items() ==> #[trigger] row_val(
                        self.cmatv()[x],
                        y,
                    ) == coocs(hs0, x, y) + (ind(x == item as int) - ind(x == p as int)) * (occ(
                        h.take(t as int),
                        y,
                    ) - ind(t as int > r as int && y == p as int)) + (ind(y == item as int) - ind(
                        y == p as int,
                    )) * (occ(h.take(t as int), x) - ind(t as int > r as int && x == p as int)),
                self.dirty_repr_ok(),
                self.dirty_v() == d1,
                self.dirty_list_v() == dl1,
            decreases m - t,
        {
            let j = self.histories[uidx][t];
            proof {
                assert(self.hs()[user as int][t as int] == j);
                assert((j as int) < a.items());
            }
            if t != r {
                proof {
                    let ti = t as int;
                    assert forall|x: int, y: int|
                        0 <= x < a.items() && 0 <= y < a.items() implies -(a.fmax_v() * a.kmax_v()
                            + 2 * (a.kmax_v() + 1)) <= #[trigger] row_val(self.cmatv()[x], y) <= a.fmax_v()
                            * a.kmax_v() + 2 * (a.kmax_v() + 1) by {
                        lemma_occ_bounds(h.take(ti), x);
                        lemma_occ_bounds(h.take(ti), y);
                        lemma_mul_bound(
                            ind(x == item as int) - ind(x == p as int),
                            occ(h.take(ti), y) - ind(ti > r as int && y == p as int),
                            a.kmax_v(),
                        );
                        lemma_mul_bound(
                            ind(y == item as int) - ind(y == p as int),
                            occ(h.take(ti), x) - ind(ti > r as int && x == p as int),
                            a.kmax_v(),
                        );
                    }
                }
                self.bump_cell(item, j, 1);
                self.bump_cell(j, item, 1);
                self.bump_cell(p, j, -1);
                self.bump_cell(j, p, -1);
                proof {
                    let ti = t as int;
                    let tn = t as int + 1;
                    assert forall|x: int, y: int|
                        0 <= x < a.items() && 0 <= y < a.items() implies #[trigger] row_val(
                            self.cmatv()[x],
                            y,
                        ) == coocs(hs0, x, y) + (ind(x == item as int) - ind(x == p as int)) * (occ(
                            h.take(tn),
                            y,
                        ) - ind(tn > r as int && y == p as int)) + (ind(y == item as int) - ind(
                            y == p as int,
                        )) * (occ(h.take(tn), x) - ind(tn > r as int && x == p as int)) by {
                        lemma_occ_take_step(h, ti, x);
                        lemma_occ_take_step(h, ti, y);
                        let dx = ind(x == item as int) - ind(x == p as int);
                        let dy = ind(y == item as int) - ind(y == p as int);
                        let ox = occ(h.take(ti), x) - ind(ti > r as int && x == p as int);
                        let oy = occ(h.take(ti), y) - ind(ti > r as int && y == p as int);
                        assert(occ(h.take(tn), y) - ind(tn > r as int && y == p as int) == oy + ind(
                            h[ti] as int == y,
                        ));
                        assert(occ(h.take(tn), x) - ind(tn > r as int && x == p as int) == ox + ind(
                            h[ti] as int == x,
                        ));
                        assert(dx * (oy + ind(h[ti] as int == y)) == dx * oy + dx * ind(
                            h[ti] as int == y,
                        )) by (nonlinear_arith);
                        assert(dy * (ox + ind(h[ti] as int == x)) == dy * ox + dy * ind(
                            h[ti] as int == x,
                        )) by (nonlinear_arith);
                        lemma_ind_mul(x == item as int, ind(j as int == y));
                        lemma_ind_mul(x == p as int, ind(j as int == y));
                        lemma_ind_mul(y == item as int, ind(j as int == x));
                        lemma_ind_mul(y == p as int, ind(j as int == x));
                    }
                }
            } else {
                proof {
                    let ti = t as int;
                    let tn = t as int + 1;
                    assert forall|x: int, y: int|
                        0 <= x < a.items() && 0 <= y < a.items() implies #[trigger] row_val(
                            self.cmatv()[x],
                            y,
                        ) == coocs(hs0, x, y) + (ind(x == item as int) - ind(x == p as int)) * (occ(
                            h.take(tn),
                            y,
                        ) - ind(tn > r as int && y == p as int)) + (ind(y == item as int) - ind(
                            y == p as int,
                        )) * (occ(h.take(tn), x) - ind(tn > r as int && x == p as int)) by {
                        lemma_occ_take_step(h, ti, x);
                        lemma_occ_take_step(h, ti, y);
                        assert(occ(h.take(tn), y) - ind(tn > r as int && y == p as int) == occ(
                            h.take(ti),
                            y,
                        ) - ind(ti > r as int && y == p as int));
                        assert(occ(h.take(tn), x) - ind(tn > r as int && x == p as int) == occ(
                            h.take(ti),
                            x,
                        ) - ind(ti > r as int && x == p as int));
                    }
                }
            }
            t += 1;
        }
        proof {
            assert(h.take(m as int) =~= h);
            lemma_wocc_lower(hs0, user as int, p as int);
            lemma_occ_at(h, r as int);
            assert(wocc_one(h, p as int) >= (m - 1)) by (nonlinear_arith)
                requires
                    occ(h, p as int) >= 1,
                    wocc_one(h, p as int) == occ(h, p as int) * (h.len() - 1),
                    h.len() == m,
                    m >= 1,
            ;
            lemma_tocc_lower(hs0, user as int, p as int);
            assert(a.item_counts_v()[p as int] as int >= 1);
            assert(self.row_sums_v()[item as int] as int <= a.fmax_v() * a.kmax_v());
        }
        self.bump_row_sum(iidx, (m - 1) as u64);
        self.drop_row_sum(p as usize, (m - 1) as u64);
        let ic = self.item_count[iidx];
        self.set_item_count_at(iidx, ic + 1);
        let icp = self.item_count[p as usize];
        self.set_item_count_at(p as usize, icp - 1);
        self.set_history_at(uidx, r, item);
        proof {
            let h2 = h.update(r as int, item);
            let hs1 = hs0.update(user as int, h2);
            assert(self.hs() == hs1);
            assert forall|x: int|
                0 <= x < a.items() implies (#[trigger] self.item_counts_v()[x]) as int == tocc(
                    hs1,
                    x,
                ) && (self.item_counts_v()[x] as int) <= a.fmax_v() && self.item_counts_v()[x] as int
                    == a.item_counts_v()[x] + ind(x == item as int) - ind(x == p as int) by {
                lemma_tocc_update(hs0, user as int, h2, x);
                lemma_occ_update(h, r as int, item, x);
                assert(a.item_counts_v()[x] as int == tocc(hs0, x));
            }
            assert forall|x: int, y: int|
                0 <= x < a.items() && 0 <= y < a.items() implies #[trigger] row_val(
                    self.cmatv()[x],
                    y,
                ) == coocs(hs1, x, y) by {
                lemma_coocs_update(hs0, user as int, h2, x, y);
                lemma_cooc_one_update(h, r as int, item, x, y);
                assert(occ(h.take(m as int), y) == occ(h, y));
                assert(occ(h.take(m as int), x) == occ(h, x));
            }
            assert forall|x: int|
                0 <= x < a.items() implies (#[trigger] self.row_sums_v()[x]) as int == wocc(hs1, x)
                by {
                lemma_wocc_update(hs0, user as int, h2, x);
                lemma_wocc_one_update(h, r as int, item, x);
                lemma_ind_mul(x == item as int, m - 1);
                lemma_ind_mul(x == p as int, m - 1);
                assert((ind(x == item as int) - ind(x == p as int)) * (h.len() - 1) == ind(
                    x == item as int,
                ) * (m - 1) - ind(x == p as int) * (m - 1)) by (nonlinear_arith)
                    requires
                        h.len() == m,
                ;
            }
            lemma_pairs_update(hs0, user as int, h2);
            assert(pairs_one(h2) == pairs_one(h));
            assert(self.dirty_v() == a.dirty_v().union(elems(h)).insert(item as int));
            assert forall|u: int|
                0 <= u < a.users() implies (#[trigger] self.hs()[u]).len()
                    == self.user_kepts_v()[u] as int by {}
            assert forall|u: int, tt: int|
                0 <= u < a.users() && 0 <= tt < self.hs()[u].len() implies (
                #[trigger] self.hs()[u][tt]) < self.items() by {
                if u == user as int && tt == r as int {
                } else {
                }
            }
        }
    }

    /// Consumes one `(user, item)` interaction: counts it for the user,
    /// discards it when the item is at its frequency cap, and otherwise
    /// either admits it to the user's history or draws a reservoir position
    /// to replace.
    #[verifier::rlimit(90)]
    #[verifier::spinoff_prover]
    pub fn process(&mut self, user: u32, item: u32)
        requires
            old(self).wf(),
            (user as int) < old(self).users(),
            (item as int) < old(self).items(),
            old(self).user_totals_v()[user as int] < u64::MAX,
            old(self).n_cooc_v() as int + 2 * old(self).kmax_v() <= u64::MAX,
        ensures
            final(self).wf(),
            same_config(*old(self), *final(self)),
            final(self).user_totals_v() == old(self).user_totals_v().update(
                user as int,
                (old(self).user_totals_v()[user as int] + 1) as u64,
            ),
            final(self).n_cooc_v() <= old(self).n_cooc_v() + 2 * old(self).kmax_v(),
            ({
                let a = *old(self);
                let b = *final(self);
                if a.item_counts_v()[item as int] as int >= a.fmax_v() {
                    counters_frozen(a, b)
                } else if (a.user_kepts_v()[user as int] as int) < a.kmax_v() {
                    admitted_step(a, b, user as int, item as int)
                } else {
                    counters_frozen(a, b) || (exists|r: int|
                        0 <= r < a.hs()[user as int].len() && #[trigger] replaced_step(
                            a,
                            b,
                            user as int,
                            item as int,
                            r,
                        ))
                }
            }),
    {
        let ghost a = *old(self);
        let uidx = user as usize;
        let iidx = item as usize;
        let ut = self.user_total[uidx];
        self.set_user_total_at(uidx, ut + 1);
        proof {
            assert(self.wf());
        }
        if self.item_count[iidx] >= self.f_max {
            return ;
        }
        if self.user_kept[uidx] < self.k_max {
            self.record_admission(user, item);
        } else {
            let ghost s1 = *self;
            let r = draw_below(&mut self.rng, ut + 1);
            proof {
                assert(self.hs() =~= s1.hs());
                assert(self.cmatv() =~= s1.cmatv());
                lemma_wf_transfer(s1, *self);
            }
            let ghost s2 = *self;
            let m = self.histories[uidx].len();
            proof {
                assert(m == a.hs()[user as int].len());
            }
            if r < m as u64 {
                self.replace_at(user, item, r as usize);
                proof {
                    let b = *self;
                    let rr = r as int;
                    assert(replaced_step(s2, b, user as int, item as int, rr));
                    assert(s2.hs() == a.hs());
                    assert(s2.hs()[user as int] == a.hs()[user as int]);
                    assert(replaced_step(a, b, user as int, item as int, rr));
                    assert(0 <= rr && rr < a.hs()[user as int].len());
                    assert(exists|q: int|
                        0 <= q < a.hs()[user as int].len() && #[trigger] replaced_step(
                            a,
                            b,
                            user as int,
                            item as int,
                            q,
                        ));
                }
            } else {
                proof {
                    let b = *self;
                    assert(counters_frozen(a, b));
                }
            }
        }
    }

    /// Feeds a batch of interactions through the accumulator, in order. The
    /// outcome is reproducible: it depends only on the prior state (with the
    /// seed its generator was built from), the input sequence, and the
    /// parameters.
    pub fn accumulate(&mut self, interactions: &Vec<(u32, u32)>)
        requires
            old(self).wf(),
            forall|j: int|
                0 <= j < interactions@.len() ==> ((#[trigger] interactions@[j]).0 as int) < old(
                    self,
                ).users() && (interactions@[j].1 as int) < old(self).items(),
            forall|u: int|
                0 <= u < old(self).users() ==> (#[trigger] old(self).user_totals_v()[u]) as int
                    + interactions@.len() <= u64::MAX,
            old(self).n_cooc_v() as int + 2 * old(self).kmax_v() * (interactions@.len() as int + 1)
                <= u64::MAX,
        ensures
            final(self).wf(),
            same_config(*old(self), *final(self)),
            steps(*old(self), *final(self), interactions@),
            final(self).n_cooc_v() as int <= old(self).n_cooc_v() + 2 * old(self).kmax_v()
                * interactions@.len(),
            final(self).user_totals_v().len() == old(self).user_totals_v().len(),
            forall|u: int|
                0 <= u < old(self).users() ==> (#[trigger] final(self).user_totals_v()[u]) as int
                    == old(self).user_totals_v()[u] + count_user(interactions@, u),
    {
        let ghost a = *old(self);
        let n = interactions.len();
        let mut i: usize = 0;
        proof {
            assert(interactions@.take(0) =~= Seq::<(u32, u32)>::empty());
        }
        while i < n
            invariant
                a.wf(),
                self.wf(),
                same_config(a, *self),
                n == interactions@.len(),
                0 <= i <= n,
                forall|j: int|
                    0 <= j < interactions@.len() ==> ((#[trigger] interactions@[j]).0 as int)
                        < a.users() && (interactions@[j].1 as int) < a.items(),
                forall|u: int|
                    0 <= u < a.users() ==> (#[trigger] a.user_totals_v()[u]) as int
                        + interactions@.len() <= u64::MAX,
                a.n_cooc_v() as int + 2 * a.kmax_v() * (interactions@.len() as int + 1)
                    <= u64::MAX,
                self.user_totals_v().len() == a.users(),
                forall|u: int|
                    0 <= u < a.users() ==> (#[trigger] self.user_totals_v()[u]) as int
                        == a.user_totals_v()[u] + count_user(interactions@.take(i as int), u),
                self.n_cooc_v() as int <= a.n_cooc_v() + 2 * a.kmax_v() * (i as int),
                steps(a, *self, interactions@.take(i as int)),
            decreases n - i,
        {
            let ghost m = *self;
            let (user, item) = interactions[i];
            proof {
                assert(interactions@[i as int].0 == user);
                lemma_count_user_bounds(interactions@.take(i as int), user as int);
                assert(self.user_totals_v()[user as int] < u64::MAX);
                assert(2 * a.kmax_v() * (i as int) + 2 * a.kmax_v() == 2 * a.kmax_v() * (i as int
                    + 1)) by (nonlinear_arith);
                assert(2 * a.kmax_v() * (i as int + 1) <= 2 * a.kmax_v() * (interactions@.len() as int
                    + 1)) by (nonlinear_arith)
                    requires
                        a.kmax_v() >= 0,
                        i as int + 1 <= interactions@.len() as int + 1,
                ;
            }
            self.process(user, item);
            proof {
                assert forall|u: int|
                    0 <= u < a.users() implies (#[trigger] self.user_totals_v()[u]) as int
                        == a.user_totals_v()[u] + count_user(
                    interactions@.take(i as int + 1),
                    u,
                ) by {
                    lemma_count_user_take_step(interactions@, i as int, u);
                }
                assert(interaction_step(m, *self, user as int, item as int));
                lemma_steps_snoc(a, m, *self, interactions@.take(i as int), (user, item));
                assert(interactions@.take(i as int).push((user, item)) =~= interactions@.take(
                    i as int + 1,
                ));
                assert(steps(a, *self, interactions@.take(i as int + 1)));
            }
            i += 1;
        }
        proof {
            assert(interactions@.take(n as int) =~= interactions@);
            assert(steps(a, *self, interactions@));
        }
    }

    pub fn num_users(&self) -> (r: usize)
        ensures
            r as int == self.users(),
    {
        self.num_users
    }

    pub fn num_items(&self) -> (r: usize)
        ensures
            r as int == self.items(),
    {
        self.num_items
    }

    pub fn f_max(&self) -> (r: u32)
        ensures
            r as int == self.fmax_v(),
    {
        self.f_max
    }

    pub fn k_max(&self) -> (r: u32)
        ensures
            r as int == self.kmax_v(),
    {
        self.k_max
    }

    /// Raw number of interactions seen for `user`.
    pub fn user_total_of(&self, user: u32) -> (r: u64)
        requires
            (user as int) < self.users(),
            self.user_totals_v().len() == self.users(),
        ensures
            r == self.user_totals_v()[user as int],
    {
        self.user_total[user as usize]
    }

    /// Number of interactions admitted into the sampled history of `user`.
    pub fn user_kept_of(&self, user: u32) -> (r: u32)
        requires
            self.wf(),
            (user as int) < self.users(),
        ensures
            r == self.user_kepts_v()[user as int],
    {
        self.user_kept[user as usize]
    }

    /// Number of interactions admitted for `item`, capped at `f_max`.
    pub fn item_count_of(&self, item: u32) -> (r: u32)
        requires
            self.wf(),
            (item as int) < self.items(),
        ensures
            r == self.item_counts_v()[item as int],
    {
        self.item_count[item as usize]
    }

    /// Row sum of the cooccurrence matrix at `item`.
    pub fn row_sum_of(&self, item: u32) -> (r: u64)
        requires
            self.wf(),
            (item as int) < self.items(),
        ensures
            r == self.row_sums_v()[item as int],
    {
        self.row_sums[item as usize]
    }

    pub fn history_len(&self, user: u32) -> (r: usize)
        requires
            self.wf(),
            (user as int) < self.users(),
        ensures
            r == self.hs()[user as int].len(),
    {
        self.histories[user as usize].len()
    }

    pub fn history_at(&self, user: u32, idx: usize) -> (r: u32)
        requires
            self.wf(),
            (user as int) < self.users(),
            (idx as int) < self.hs()[user as int].len(),
        ensures
            r == self.hs()[user as int][idx as int],
    {
        self.histories[user as usize][idx]
    }

    /// The cooccurrence count of the pair `(x, y)`; zero when the pair was
    /// never seen together.
    pub fn cooc_count(&self, x: u32, y: u32) -> (r: i64)
        requires
            self.wf(),
            (x as int) < self.items(),
            (y as int) < self.items(),
        ensures
            r as int == self.cell(x as int, y as int),
            r as int == coocs(self.hs(), x as int, y as int),
    {
        proof {
            assert(self.cmatv()[x as int] == self.c@[x as int]@);
        }
        self.c[x as usize].value_of(y)
    }

    /// The number of keys ever touched in the row of `item`.
    pub fn row_size(&self, item: u32) -> (r: usize)
        requires
            self.wf(),
            (item as int) < self.items(),
        ensures
            r == self.cmatv()[item as int].len(),
    {
        self.c[item as usize].size()
    }

    /// The stored entry at position `idx` of the row of `item`.
    pub fn row_entry(&self, item: u32, idx: usize) -> (r: (u32, i64))
        requires
            self.wf(),
            (item as int) < self.items(),
            (idx as int) < self.cmatv()[item as int].len(),
        ensures
            r == self.cmatv()[item as int][idx as int],
    {
        self.c[item as usize].entry_at(idx)
    }

    /// The items whose rows changed, in first-touch order, each once.
    pub fn dirty_items(&self) -> (r: Vec<u32>)
        requires
            self.wf(),
        ensures
            r@ == self.dirty_list_v(),
            forall|j: int|
                0 <= j < r@.len() ==> ((#[trigger] r@[j]) as int) < self.items()
                    && self.dirty_v().contains(r@[j] as int),
            forall|j1: int, j2: int| 0 <= j1 < j2 < r@.len() ==> r@[j1] != r@[j2],
            forall|x: int|
                self.dirty_v().contains(x) ==> exists|j: int|
                    0 <= j < r@.len() && (#[trigger] r@[j]) as int == x,
    {
        let n = self.dirty_list.len();
        let mut r: Vec<u32> = Vec::new();
        let mut j: usize = 0;
        while j < n
            invariant
                n == self.dirty_list@.len(),
                0 <= j <= n,
                r@ == self.dirty_list@.take(j as int),
            decreases n - j,
        {
            r.push(self.dirty_list[j]);
            proof {
                assert(r@ =~= self.dirty_list@.take(j as int + 1));
            }
            j += 1;
        }
        proof {
            assert(self.dirty_list@.take(n as int) =~= self.dirty_list@);
        }
        r
    }
}

} // verus!
