//! The EigenTrust fixed-point solver: canonicalization of entry lists,
//! the convergence and flat-tail checkers, the power iteration itself,
//! and the distrust discount step.

use vstd::prelude::*;
use crate::entry::Entry;
use crate::entry::lookup;
use crate::entry::sorted_strict;
use crate::entry::values_of;
use crate::entry::lemma_values_of_len;
use crate::fbits::ONE_BITS;
use crate::fbits::POS_ZERO;
use crate::fbits::TWO_BITS;
use crate::fbits::f64_key;
use crate::fbits::is_nan_bits;
use crate::fbits::is_zero_bits;
use crate::fbits::le_bits;
use crate::fbits::exec_is_nan;
use crate::fbits::exec_is_zero;
use crate::fbits::exec_le;
use crate::util::fold_rel;
use crate::vector::Vector;
use crate::vector::copy_entries;
use crate::vector::norm2_rel;
use crate::vector::combined_rel;
use crate::vector::merge_pairs;
use crate::vector::scaled_rel;
use crate::vector::mul_at;
use crate::matrix::CSRMatrix;
use crate::matrix::spec_transpose;
use crate::errors::SparseError;

verus! {

/// How a canonicalized entry list arises: every value is divided by the
/// common sum through the division closure; indices and order are kept.
pub open spec fn divided_rel<F: Fn(u64, u64) -> u64>(
    f: F,
    total: u64,
    inp: Seq<Entry>,
    out: Seq<Entry>,
) -> bool
    decreases inp.len(),
{
    if inp.len() == 0 {
        out.len() == 0
    } else {
        exists|r: u64|
            #[trigger] call_ensures(f, (inp.last().value, total), r) && out.len() > 0
                && out.last() == (Entry { index: inp.last().index, value: r }) && divided_rel(
                f,
                total,
                inp.drop_last(),
                out.drop_last(),
            )
    }
}

/// Divided lists keep their length, indices and order.
pub proof fn lemma_divided_shape<F: Fn(u64, u64) -> u64>(
    f: F,
    total: u64,
    inp: Seq<Entry>,
    out: Seq<Entry>,
)
    requires
        divided_rel(f, total, inp, out),
    ensures
        out.len() == inp.len(),
        forall|i: int| 0 <= i < inp.len() ==> (#[trigger] out[i]).index == inp[i].index,
    decreases inp.len(),
{
    if inp.len() > 0 {
        let x = inp.last().value;
        let r = choose|r: u64|
            #[trigger] call_ensures(f, (x, total), r) && out.len() > 0 && out.last() == (Entry {
                index: inp.last().index,
                value: r,
            }) && divided_rel(f, total, inp.drop_last(), out.drop_last());
        lemma_divided_shape(f, total, inp.drop_last(), out.drop_last());
        assert forall|i: int| 0 <= i < inp.len() implies (#[trigger] out[i]).index
            == inp[i].index by {
            if i < inp.len() - 1 {
                assert(out.drop_last()[i] == out[i]);
                assert(inp.drop_last()[i] == inp[i]);
            }
        }
    }
}

/// Scale entries in place so that their values sum to one: the plain sum
/// of the values is computed first, and each value is then divided by
/// it.  A zero sum is refused and changes nothing.
pub fn canonicalize<FA: Fn(u64, u64) -> u64, FD: Fn(u64, u64) -> u64>(
    entries: &mut Vec<Entry>,
    add_op: &FA,
    div_op: &FD,
) -> (res: Result<(), SparseError>)
    requires
        forall|x: u64, y: u64| #[trigger] call_requires(*add_op, (x, y)),
        forall|x: u64, y: u64| #[trigger] call_requires(*div_op, (x, y)),
    ensures
        match res {
            Ok(()) => (sorted_strict(old(entries)@) ==> sorted_strict(final(entries)@))
                && exists|total: u64|
                #[trigger] fold_rel(*add_op, POS_ZERO, values_of(old(entries)@), total)
                    && !is_zero_bits(total) && divided_rel(
                    *div_op,
                    total,
                    old(entries)@,
                    final(entries)@,
                ),
            Err(e) => e == SparseError::ZeroSumVector && final(entries)@ == old(entries)@
                && exists|total: u64|
                #[trigger] fold_rel(*add_op, POS_ZERO, values_of(old(entries)@), total)
                    && is_zero_bits(total),
        },
{
    let mut acc: u64 = POS_ZERO;
    let mut k: usize = 0;
    while k < entries.len()
        invariant
            forall|x: u64, y: u64| #[trigger] call_requires(*add_op, (x, y)),
            0 <= k <= entries@.len(),
            entries@ == old(entries)@,
            fold_rel(*add_op, POS_ZERO, values_of(entries@.take(k as int)), acc),
        decreases entries@.len() - k,
    {
        let ghost pre = entries@.take(k as int);
        let ghost prev_acc = acc;
        let e = entries[k];
        acc = add_op(acc, e.value);
        proof {
            assert(entries@.take(k + 1).drop_last() =~= pre);
            assert(entries@.take(k + 1).last() == e);
            let vnew = values_of(entries@.take(k + 1));
            lemma_values_of_len(entries@.take(k + 1));
            assert(vnew.drop_last() =~= values_of(pre));
            assert(vnew.last() == e.value);
            assert(fold_rel(*add_op, POS_ZERO, vnew.drop_last(), prev_acc));
            assert(call_ensures(*add_op, (prev_acc, vnew.last()), acc));
        }
        k += 1;
    }
    proof {
        assert(entries@.take(entries@.len() as int) =~= entries@);
    }
    if exec_is_zero(acc) {
        return Err(SparseError::ZeroSumVector);
    }
    let total = acc;
    let mut out: Vec<Entry> = Vec::new();
    let mut j: usize = 0;
    while j < entries.len()
        invariant
            forall|x: u64, y: u64| #[trigger] call_requires(*div_op, (x, y)),
            0 <= j <= entries@.len(),
            entries@ == old(entries)@,
            divided_rel(*div_op, total, entries@.take(j as int), out@),
        decreases entries@.len() - j,
    {
        let ghost pre_in = entries@.take(j as int);
        let ghost pre_out = out@;
        let e = entries[j];
        let r = div_op(e.value, total);
        out.push(Entry { index: e.index, value: r });
        proof {
            assert(entries@.take(j + 1).drop_last() =~= pre_in);
            assert(entries@.take(j + 1).last() == e);
            assert(out@.drop_last() =~= pre_out);
        }
        j += 1;
    }
    proof {
        assert(entries@.take(entries@.len() as int) =~= entries@);
        lemma_divided_shape(*div_op, total, entries@, out@);
    }
    *entries = out;
    Ok(())
}

/// The delta the convergence protocol measures between two iterates:
/// the Euclidean norm (compensated, then rooted) of their sparse
/// difference, which is exactly `+0.0` when the difference is empty.
pub open spec fn delta_rel<
    FM: Fn(u64, u64) -> u64,
    FA: Fn(u64, u64) -> u64,
    FS: Fn(u64, u64) -> u64,
    FQ: Fn(u64) -> u64,
>(
    mul_op: FM,
    add_op: FA,
    sub_op: FS,
    sqrt_op: FQ,
    prev: Seq<Entry>,
    t: Seq<Entry>,
    d: u64,
) -> bool {
    exists|diff: Seq<Entry>|
        #[trigger] combined_rel(sub_op, merge_pairs(t, prev), diff) && (if diff.len() == 0 {
            d == POS_ZERO
        } else {
            norm2_rel(mul_op, add_op, sub_op, sqrt_op, diff, d)
        })
}

/// Tracks successive iterates and the Euclidean norm of their
/// difference, against a fixed threshold.
pub struct ConvergenceChecker {
    pub iter: usize,
    pub t: Vector,
    pub d: u64,
    pub e: u64,
}

impl ConvergenceChecker {
    /// A fresh checker on the initial iterate: the recorded delta starts
    /// at twice the threshold, a sentinel that cannot count as
    /// converged before the first real update.
    pub fn new<FM: Fn(u64, u64) -> u64>(t0: &Vector, e: u64, mul_op: &FM) -> (c:
        ConvergenceChecker)
        requires
            forall|x: u64, y: u64| #[trigger] call_requires(*mul_op, (x, y)),
        ensures
            c.iter == 0,
            c.t.dim == t0.dim,
            c.t.entries@ == t0.entries@,
            c.e == e,
            call_ensures(*mul_op, (TWO_BITS, e), c.d),
    {
        let d = mul_op(TWO_BITS, e);
        ConvergenceChecker {
            iter: 0,
            t: Vector { dim: t0.dim, entries: copy_entries(&t0.entries) },
            d,
            e,
        }
    }

    /// Absorb the next iterate: the recorded delta becomes the norm of
    /// the difference between it and the previous iterate, which it
    /// replaces.  Fails, changing nothing, exactly when the dimensions
    /// disagree.
    pub fn update<
        FM: Fn(u64, u64) -> u64,
        FA: Fn(u64, u64) -> u64,
        FS: Fn(u64, u64) -> u64,
        FQ: Fn(u64) -> u64,
    >(&mut self, t: &Vector, mul_op: &FM, add_op: &FA, sub_op: &FS, sqrt_op: &FQ) -> (res: Result<
        (),
        SparseError,
    >)
        requires
            t.wf(),
            old(self).t.wf(),
            old(self).iter < usize::MAX,
            forall|x: u64, y: u64| #[trigger] call_requires(*mul_op, (x, y)),
            forall|x: u64, y: u64| #[trigger] call_requires(*add_op, (x, y)),
            forall|x: u64, y: u64| #[trigger] call_requires(*sub_op, (x, y)),
            forall|x: u64| #[trigger] call_requires(*sqrt_op, (x,)),
        ensures
            match res {
                Ok(()) => {
                    &&& t.dim == old(self).t.dim
                    &&& final(self).t.dim == t.dim
                    &&& final(self).t.entries@ == t.entries@
                    &&& final(self).t.wf()
                    &&& final(self).e == old(self).e
                    &&& final(self).iter == old(self).iter + 1
                    &&& delta_rel(
                        *mul_op,
                        *add_op,
                        *sub_op,
                        *sqrt_op,
                        old(self).t.entries@,
                        t.entries@,
                        final(self).d,
                    )
                },
                Err(e) => e == SparseError::DimensionMismatch && t.dim != old(self).t.dim
                    && *final(self) == *old(self),
            },
    {
        let mut td = Vector { dim: 0, entries: Vec::new() };
        match td.sub_vec(t, &self.t, sub_op) {
            Ok(()) => {},
            Err(e) => {
                return Err(e);
            },
        }
        let d = td.norm2(mul_op, add_op, sub_op, sqrt_op);
        self.t.assign(t);
        self.d = d;
        self.iter = self.iter + 1;
        Ok(())
    }

    /// Whether the recorded delta is at or below the threshold, in the
    /// floating-point order.
    pub fn converged(&self) -> (r: bool)
        ensures
            r == le_bits(self.d, self.e),
    {
        exec_le(self.d, self.e)
    }

    /// The recorded delta.
    pub fn delta(&self) -> (r: u64)
        ensures
            r == self.d,
    {
        self.d
    }
}

/// The running statistics of the flat-tail detector.
pub struct FlatTailStats {
    pub length: usize,
    pub threshold: usize,
    pub delta_norm: u64,
    pub ranking: Vec<usize>,
}

/// Tracks the peer ranking induced by successive iterates and how long
/// it has stayed unchanged.
pub struct FlatTailChecker {
    pub length: usize,
    pub num_leaders: usize,
    pub stats: FlatTailStats,
}

/// The ranking order on entries: descending by stored value in the
/// floating-point key order, ties broken by ascending peer index.  The
/// key order makes the comparison total and deterministic on every bit
/// pattern.
pub open spec fn rank_leq(a: Entry, b: Entry) -> bool {
    f64_key(a.value) > f64_key(b.value) || (f64_key(a.value) == f64_key(b.value) && a.index
        <= b.index)
}

pub open spec fn rank_sorted(s: Seq<Entry>) -> bool {
    forall|i: int, j: int| 0 <= i < j < s.len() ==> rank_leq(s[i], s[j])
}

/// The indices of an entry list, in order.
pub open spec fn indices_seq(s: Seq<Entry>) -> Seq<usize>
    decreases s.len(),
{
    if s.len() == 0 {
        Seq::empty()
    } else {
        indices_seq(s.drop_last()).push(s.last().index)
    }
}

/// Strictly before in the ranking order: a larger key, or an equal key
/// with a smaller index.
fn rank_before(a: &Entry, b: &Entry) -> (r: bool)
    ensures
        r == !rank_leq(*b, *a),
{
    let ka_neg = a.value & crate::fbits::SIGN_MASK != 0;
    let kb_neg = b.value & crate::fbits::SIGN_MASK != 0;
    let ka_mag = a.value & crate::fbits::MAG_MASK;
    let kb_mag = b.value & crate::fbits::MAG_MASK;
    let keys_equal: bool = if ka_mag == 0 && kb_mag == 0 {
        true
    } else {
        ka_neg == kb_neg && ka_mag == kb_mag
    };
    if keys_equal {
        a.index < b.index
    } else if ka_neg != kb_neg {
        !ka_neg
    } else if ka_neg {
        ka_mag < kb_mag
    } else {
        ka_mag > kb_mag
    }
}

/// The ranking an iterate induces: its entries reordered into the
/// ranking order, projected to their peer indices.
pub open spec fn ranking_rel(t: Seq<Entry>, rk: Seq<usize>) -> bool {
    exists|sorted: Seq<Entry>|
        #[trigger] rank_witness(sorted) && sorted.to_multiset() == t.to_multiset() && rank_sorted(
            sorted,
        ) && rk == indices_seq(sorted)
}

/// One flat-tail step: the iterate's ranking either equals the stored
/// one and extends the run, or replaces it and resets the run to zero.
pub open spec fn flat_transition(
    t: Seq<Entry>,
    rk0: Seq<usize>,
    run0: nat,
    rk1: Seq<usize>,
    run1: nat,
) -> bool {
    exists|rk: Seq<usize>|
        #[trigger] ranking_rel(t, rk) && (if rk == rk0 {
            rk1 == rk0 && run1 == run0 + 1
        } else {
            rk1 == rk && run1 == 0
        })
}

impl FlatTailChecker {
    /// A fresh detector requiring the given run length, over the given
    /// number of peers.
    pub fn new(length: usize, num_leaders: usize) -> (c: FlatTailChecker)
        ensures
            c.length == length,
            c.num_leaders == num_leaders,
            c.stats.length == 0,
            c.stats.threshold == 1,
            c.stats.delta_norm == ONE_BITS,
            c.stats.ranking@.len() == 0,
    {
        FlatTailChecker {
            length,
            num_leaders,
            stats: FlatTailStats {
                length: 0,
                threshold: 1,
                delta_norm: ONE_BITS,
                ranking: Vec::new(),
            },
        }
    }

    /// Absorb an iterate: its induced ranking (indices in descending
    /// value order, ties by ascending index) either extends the current
    /// run or starts a new one, recording the best threshold seen.
    pub fn update(&mut self, t: &Vector, d: u64)
        requires
            old(self).stats.length < usize::MAX,
        ensures
            final(self).length == old(self).length,
            final(self).num_leaders == old(self).num_leaders,
            flat_transition(
                t.entries@,
                old(self).stats.ranking@,
                old(self).stats.length as nat,
                final(self).stats.ranking@,
                final(self).stats.length as nat,
            ),
            final(self).stats.length > 0 ==> final(self).stats.length == old(self).stats.length
                + 1 && final(self).stats.ranking@ == old(self).stats.ranking@
                && final(self).stats.threshold == old(self).stats.threshold
                && final(self).stats.delta_norm == old(self).stats.delta_norm,
            final(self).stats.length == 0 ==> final(self).stats.delta_norm == d
                && final(self).stats.threshold == (if old(self).stats.length > 0
                && old(self).stats.threshold <= old(self).stats.length {
                (old(self).stats.length + 1) as usize
            } else {
                old(self).stats.threshold
            }),
    {
        let mut entries = copy_entries(&t.entries);
        rank_sort(&mut entries);
        let mut ranking: Vec<usize> = Vec::new();
        let mut k: usize = 0;
        while k < entries.len()
            invariant
                0 <= k <= entries@.len(),
                ranking@ == indices_seq(entries@.take(k as int)),
            decreases entries@.len() - k,
        {
            let ghost pre = entries@.take(k as int);
            let e = entries[k];
            ranking.push(e.index);
            proof {
                assert(entries@.take(k + 1).drop_last() =~= pre);
                assert(entries@.take(k + 1).last() == e);
                assert(ranking@.drop_last() =~= indices_seq(pre));
                assert(ranking@ =~= indices_seq(entries@.take(k + 1)));
            }
            k += 1;
        }
        proof {
            assert(entries@.take(entries@.len() as int) =~= entries@);
            assert(rank_witness(entries@));
        }
        proof {
            assert(ranking_rel(t.entries@, ranking@));
        }
        let same = vec_usize_eq(&ranking, &self.stats.ranking);
        if same {
            self.stats.length = self.stats.length + 1;
        } else {
            if self.stats.length > 0 && self.stats.threshold <= self.stats.length {
                self.stats.threshold = self.stats.length + 1;
            }
            self.stats.length = 0;
            self.stats.delta_norm = d;
            self.stats.ranking = ranking;
        }
        proof {
            assert(flat_transition(
                t.entries@,
                old(self).stats.ranking@,
                old(self).stats.length as nat,
                self.stats.ranking@,
                self.stats.length as nat,
            ));
        }
    }

    /// Whether the current run of identical rankings has reached the
    /// required length.
    pub fn reached(&self) -> (r: bool)
        ensures
            r == (self.stats.length >= self.length),
    {
        self.stats.length >= self.length
    }
}

/// A marker that carries the sorted permutation witnessing one ranking.
pub open spec fn rank_witness(sorted: Seq<Entry>) -> bool {
    true
}

/// Whether two index lists hold the same indices in the same order.
fn vec_usize_eq(a: &Vec<usize>, b: &Vec<usize>) -> (r: bool)
    ensures
        r == (a@ =~= b@),
{
    if a.len() != b.len() {
        return false;
    }
    let mut k: usize = 0;
    while k < a.len()
        invariant
            0 <= k <= a@.len(),
            a@.len() == b@.len(),
            forall|i: int| 0 <= i < k ==> a@[i] == b@[i],
        decreases a@.len() - k,
    {
        if a[k] != b[k] {
            return false;
        }
        k += 1;
    }
    proof {
        assert(a@ =~= b@);
    }
    true
}

/// Sort entries in place into the ranking order: descending by stored
/// value in the floating-point key order, ties broken by ascending
/// index.  This is the order of the flat-tail detector and of the
/// ranked output handed back to callers.
pub fn rank_sort(entries: &mut Vec<Entry>)
    ensures
        rank_sorted(final(entries)@),
        final(entries)@.to_multiset() == old(entries)@.to_multiset(),
{
    let n = entries.len();
    let mut i: usize = 1;
    while i < n
        invariant
            1 <= i <= n || n == 0,
            n == entries.len(),
            entries@.to_multiset() == old(entries)@.to_multiset(),
            forall|a: int, b: int| 0 <= a < b < i ==> rank_leq(entries@[a], entries@[b]),
        decreases n - i,
    {
        let mut j: usize = i;
        while j > 0 && rank_before(&entries[j], &entries[j - 1])
            invariant
                0 <= j <= i < n,
                n == entries.len(),
                entries@.to_multiset() == old(entries)@.to_multiset(),
                forall|a: int, b: int|
                    0 <= a < b <= i && b != j ==> rank_leq(entries@[a], entries@[b]),
            decreases j,
        {
            let prev = entries[j - 1];
            let cur = entries[j];
            let ghost pre = entries@;
            entries[j - 1] = cur;
            entries[j] = prev;
            proof {
                crate::entry::lemma_swap_preserves_multiset(pre, j - 1, j as int);
            }
            j -= 1;
        }
        proof {
            assert forall|a: int, b: int|
                0 <= a < b <= i implies rank_leq(entries@[a], entries@[b]) by {
                if b == j && a < j - 1 {
                    assert(rank_leq(entries@[a], entries@[j - 1]));
                }
            }
        }
        i += 1;
    }
}

/// The outcome of scaling by a factor: a zero factor empties the list
/// outright; any other factor multiplies through the closure.
pub open spec fn scale_outcome<F: Fn(u64, u64) -> u64>(
    f: F,
    a: u64,
    inp: Seq<Entry>,
    out: Seq<Entry>,
) -> bool {
    if is_zero_bits(a) {
        out.len() == 0
    } else {
        scaled_rel(f, a, inp, out)
    }
}

/// One step of the power iteration: multiply the current iterate by the
/// transposed matrix, damp the product, and add the teleportation term.
pub open spec fn power_step<
    FM: Fn(u64, u64) -> u64,
    FA: Fn(u64, u64) -> u64,
    FS: Fn(u64, u64) -> u64,
>(
    mul_op: FM,
    add_op: FA,
    sub_op: FS,
    ct_rows: Seq<Seq<Entry>>,
    ap: Seq<Entry>,
    one_minus_a: u64,
    t: Seq<Entry>,
    t_next: Seq<Entry>,
) -> bool {
    exists|prod: Seq<Entry>, scaled: Seq<Entry>|
        #[trigger] step_witness(prod, scaled) && sorted_strict(prod) && (forall|r: usize|
            #[trigger] mul_at(mul_op, add_op, sub_op, ct_rows, t, prod, r)) && scale_outcome(
            mul_op,
            one_minus_a,
            prod,
            scaled,
        ) && combined_rel(add_op, merge_pairs(scaled, ap), t_next)
}

/// A marker that carries the two intermediate vectors of one step.
pub open spec fn step_witness(prod: Seq<Entry>, scaled: Seq<Entry>) -> bool {
    true
}

/// The iterate reached from the seed after some number of power steps.
pub open spec fn power_iterates<
    FM: Fn(u64, u64) -> u64,
    FA: Fn(u64, u64) -> u64,
    FS: Fn(u64, u64) -> u64,
>(
    mul_op: FM,
    add_op: FA,
    sub_op: FS,
    ct_rows: Seq<Seq<Entry>>,
    ap: Seq<Entry>,
    one_minus_a: u64,
    t0: Seq<Entry>,
    k: nat,
    t: Seq<Entry>,
) -> bool
    decreases k,
{
    if k == 0 {
        t == t0
    } else {
        exists|mid: Seq<Entry>|
            power_iterates(mul_op, add_op, sub_op, ct_rows, ap, one_minus_a, t0, (k - 1) as nat, mid)
                && #[trigger] power_step(mul_op, add_op, sub_op, ct_rows, ap, one_minus_a, mid, t)
    }
}

/// The first checked index and the required flat-tail length, both
/// given by `min_iterations` (default 1).
pub open spec fn min_iters_of(min_iterations: Option<usize>) -> nat {
    match min_iterations {
        Some(m) => m as nat,
        None => 1,
    }
}

/// The iteration budget: `max_iterations`, or every representable
/// iteration when none is given.
pub open spec fn max_iters_of(max_iterations: Option<usize>) -> nat {
    match max_iterations {
        Some(m) => m as nat,
        None => usize::MAX as nat,
    }
}

/// A marker that carries the witnesses of one failed check.
pub open spec fn check_witness(prev0: Seq<Entry>, rk0: Seq<usize>, run0: nat, d: u64) -> bool {
    true
}

/// The checker pair's state after `c` checks, every one of which
/// failed.  The first check happens at iterate `min_l` of the power
/// sequence and later checks at each following iterate; every check
/// measures the delta against the previously checked iterate (the seed
/// before any check), feeds the flat-tail detector, and fails the
/// joint condition of a delta at or below the threshold together with
/// a ranking run of at least `min_l`.  `prev`, `rk` and `run` are the
/// last checked iterate, the stored ranking and the run length.
pub open spec fn failed_checks<
    FM: Fn(u64, u64) -> u64,
    FA: Fn(u64, u64) -> u64,
    FS: Fn(u64, u64) -> u64,
    FQ: Fn(u64) -> u64,
>(
    mul_op: FM,
    add_op: FA,
    sub_op: FS,
    sqrt_op: FQ,
    ct_rows: Seq<Seq<Entry>>,
    ap: Seq<Entry>,
    one_minus_a: u64,
    t0: Seq<Entry>,
    e: u64,
    min_l: nat,
    c: nat,
    prev: Seq<Entry>,
    rk: Seq<usize>,
    run: nat,
) -> bool
    decreases c,
{
    if c == 0 {
        prev == t0 && rk == Seq::<usize>::empty() && run == 0
    } else {
        exists|prev0: Seq<Entry>, rk0: Seq<usize>, run0: nat, d: u64|
            #[trigger] check_witness(prev0, rk0, run0, d) && failed_checks(
                mul_op,
                add_op,
                sub_op,
                sqrt_op,
                ct_rows,
                ap,
                one_minus_a,
                t0,
                e,
                min_l,
                (c - 1) as nat,
                prev0,
                rk0,
                run0,
            ) && power_iterates(
                mul_op,
                add_op,
                sub_op,
                ct_rows,
                ap,
                one_minus_a,
                t0,
                (min_l + c - 1) as nat,
                prev,
            ) && delta_rel(mul_op, add_op, sub_op, sqrt_op, prev0, prev, d) && flat_transition(
                prev,
                rk0,
                run0,
                rk,
                run,
            ) && !(le_bits(d, e) && run >= min_l)
    }
}

/// A marker that carries the arithmetic witnesses of one whole solve.
pub open spec fn run_witness(one_minus_a: u64, ap: Seq<Entry>) -> bool {
    true
}

/// A marker that carries the witnesses of the accepting check.
pub open spec fn accept_witness(
    c: nat,
    prev: Seq<Entry>,
    rk0: Seq<usize>,
    run0: nat,
    d: u64,
    rk1: Seq<usize>,
    run1: nat,
) -> bool {
    true
}

/// What a successful solve returns.  The damping `1 - a` and the
/// teleportation term `a * p` are actual closure outputs; some number
/// `c` of checks failed, each against the previously checked iterate
/// of the power sequence `t_0 = p`, `t_{j+1} = (1-a)(Cᵗ·t_j) + a·p`;
/// and the result is the very next checked iterate, `t_{min_l + c}` —
/// the first whose delta against its predecessor came out at or below
/// the threshold while its ranking run reached the required length.
pub open spec fn compute_accepts<
    FM: Fn(u64, u64) -> u64,
    FA: Fn(u64, u64) -> u64,
    FS: Fn(u64, u64) -> u64,
    FQ: Fn(u64) -> u64,
>(
    mul_op: FM,
    add_op: FA,
    sub_op: FS,
    sqrt_op: FQ,
    c_rows: Seq<Seq<Entry>>,
    minor: usize,
    p: Seq<Entry>,
    a: u64,
    e: u64,
    min_l: nat,
    t: Seq<Entry>,
) -> bool {
    exists|one_minus_a: u64, ap: Seq<Entry>|
        #[trigger] run_witness(one_minus_a, ap) && call_ensures(sub_op, (ONE_BITS, a), one_minus_a)
            && !is_nan_bits(one_minus_a) && scale_outcome(mul_op, a, p, ap) && exists|
            c: nat,
            prev: Seq<Entry>,
            rk0: Seq<usize>,
            run0: nat,
            d: u64,
            rk1: Seq<usize>,
            run1: nat,
        |
            #[trigger] accept_witness(c, prev, rk0, run0, d, rk1, run1) && failed_checks(
                mul_op,
                add_op,
                sub_op,
                sqrt_op,
                spec_transpose(c_rows, minor),
                ap,
                one_minus_a,
                p,
                e,
                min_l,
                c,
                prev,
                rk0,
                run0,
            ) && power_iterates(
                mul_op,
                add_op,
                sub_op,
                spec_transpose(c_rows, minor),
                ap,
                one_minus_a,
                p,
                min_l + c,
                t,
            ) && delta_rel(mul_op, add_op, sub_op, sqrt_op, prev, t, d) && le_bits(d, e)
            && flat_transition(t, rk0, run0, rk1, run1) && run1 >= min_l
}

/// A marker that carries the witnesses of an exhausted budget.
pub open spec fn exhaust_witness(
    t_final: Seq<Entry>,
    prev: Seq<Entry>,
    rk: Seq<usize>,
    run: nat,
) -> bool {
    true
}

/// What `NonConvergence` means: the full budget of power steps was
/// performed, and every check inside the budget failed the joint
/// convergence and flat-tail condition.
pub open spec fn compute_exhausted<
    FM: Fn(u64, u64) -> u64,
    FA: Fn(u64, u64) -> u64,
    FS: Fn(u64, u64) -> u64,
    FQ: Fn(u64) -> u64,
>(
    mul_op: FM,
    add_op: FA,
    sub_op: FS,
    sqrt_op: FQ,
    c_rows: Seq<Seq<Entry>>,
    minor: usize,
    p: Seq<Entry>,
    a: u64,
    e: u64,
    min_l: nat,
    max_l: nat,
) -> bool {
    exists|one_minus_a: u64, ap: Seq<Entry>|
        #[trigger] run_witness(one_minus_a, ap) && call_ensures(sub_op, (ONE_BITS, a), one_minus_a)
            && !is_nan_bits(one_minus_a) && scale_outcome(mul_op, a, p, ap) && exists|
            t_final: Seq<Entry>,
            prev: Seq<Entry>,
            rk: Seq<usize>,
            run: nat,
        |
            #[trigger] exhaust_witness(t_final, prev, rk, run) && power_iterates(
                mul_op,
                add_op,
                sub_op,
                spec_transpose(c_rows, minor),
                ap,
                one_minus_a,
                p,
                max_l,
                t_final,
            ) && failed_checks(
                mul_op,
                add_op,
                sub_op,
                sqrt_op,
                spec_transpose(c_rows, minor),
                ap,
                one_minus_a,
                p,
                e,
                min_l,
                (if max_l > min_l {
                    (max_l - min_l) as nat
                } else {
                    0
                }),
                prev,
                rk,
                run,
            )
}

/// The EigenTrust power iteration.  The damping factor must not be NaN,
/// the trust matrix must be square and nonempty, and the pretrust
/// vector's dimension must match; each violation is reported as its own
/// error kind, checked in that order.  On success the returned vector
/// is the first checked iterate of the damped recurrence
/// `t = (1 - a) * (Cᵗ · t) + a * p` whose convergence delta against the
/// previously checked iterate came out at or below the threshold while
/// its ranking run was long enough (`compute_accepts`); exhausting the
/// iteration budget with every check failing is the only road to
/// `NonConvergence` (`compute_exhausted`).
pub fn compute<
    FM: Fn(u64, u64) -> u64,
    FA: Fn(u64, u64) -> u64,
    FS: Fn(u64, u64) -> u64,
    FQ: Fn(u64) -> u64,
>(
    c: &CSRMatrix,
    p: &Vector,
    a: u64,
    e: u64,
    max_iterations: Option<usize>,
    min_iterations: Option<usize>,
    mul_op: &FM,
    add_op: &FA,
    sub_op: &FS,
    sqrt_op: &FQ,
) -> (res: Result<Vector, SparseError>)
    requires
        c.cs_matrix.wf(),
        p.wf(),
        forall|x: u64, y: u64| #[trigger] call_requires(*mul_op, (x, y)),
        forall|x: u64, y: u64| #[trigger] call_requires(*add_op, (x, y)),
        forall|x: u64, y: u64| #[trigger] call_requires(*sub_op, (x, y)),
        forall|x: u64| #[trigger] call_requires(*sqrt_op, (x,)),
    ensures
        is_nan_bits(a) ==> res == Err::<Vector, SparseError>(SparseError::InvalidParameter),
        !is_nan_bits(a) && c.cs_matrix.major_dim == 0 ==> res == Err::<Vector, SparseError>(
            SparseError::EmptyInput,
        ),
        !is_nan_bits(a) && c.cs_matrix.major_dim > 0 && (c.cs_matrix.major_dim
            != c.cs_matrix.minor_dim || p.dim != c.cs_matrix.major_dim) ==> res == Err::<
            Vector,
            SparseError,
        >(SparseError::DimensionMismatch),
        match res {
            Ok(t) => {
                &&& !is_nan_bits(a)
                &&& c.cs_matrix.major_dim > 0
                &&& c.cs_matrix.major_dim == c.cs_matrix.minor_dim
                &&& p.dim == c.cs_matrix.major_dim
                &&& t.wf()
                &&& t.dim == p.dim
                &&& compute_accepts(
                    *mul_op,
                    *add_op,
                    *sub_op,
                    *sqrt_op,
                    c.cs_matrix.rows(),
                    c.cs_matrix.minor_dim,
                    p.entries@,
                    a,
                    e,
                    min_iters_of(min_iterations),
                    t.entries@,
                )
            },
            Err(err) => {
                ||| (err == SparseError::InvalidParameter && (is_nan_bits(a) || exists|r: u64|
                    #[trigger] call_ensures(*sub_op, (ONE_BITS, a), r) && is_nan_bits(r)))
                ||| (err == SparseError::EmptyInput && c.cs_matrix.major_dim == 0)
                ||| (err == SparseError::DimensionMismatch && (c.cs_matrix.major_dim
                    != c.cs_matrix.minor_dim || p.dim != c.cs_matrix.major_dim))
                ||| (err == SparseError::NonConvergence && compute_exhausted(
                    *mul_op,
                    *add_op,
                    *sub_op,
                    *sqrt_op,
                    c.cs_matrix.rows(),
                    c.cs_matrix.minor_dim,
                    p.entries@,
                    a,
                    e,
                    min_iters_of(min_iterations),
                    max_iters_of(max_iterations),
                ))
            },
        },
{
    if exec_is_nan(a) {
        return Err(SparseError::InvalidParameter);
    }
    let (n, minor) = c.dims();
    if n == 0 {
        return Err(SparseError::EmptyInput);
    }
    if minor != n || p.dim != n {
        return Err(SparseError::DimensionMismatch);
    }
    let one_minus_a = sub_op(ONE_BITS, a);
    if exec_is_nan(one_minus_a) {
        return Err(SparseError::InvalidParameter);
    }
    let ct = match c.transpose() {
        Ok(m) => m,
        Err(err) => {
            proof {
                assert(false);
            }
            return Err(err);
        },
    };
    proof {
        assert(ct.cs_matrix.rows() =~= spec_transpose(c.cs_matrix.rows(), minor));
    }
    let ghost ct_rows = ct.cs_matrix.rows();
    let mut ap = Vector { dim: 0, entries: Vec::new() };
    match ap.scale_vec(a, p, mul_op) {
        Ok(()) => {},
        Err(_) => {
            proof {
                assert(false);
            }
            return Err(SparseError::InvalidParameter);
        },
    }
    let ghost apv: Seq<Entry> = ap.entries@;
    let mut t1 = Vector { dim: p.dim, entries: copy_entries(&p.entries) };
    let mut conv = ConvergenceChecker::new(&t1, e, mul_op);
    let min_iters = match min_iterations {
        Some(m) => m,
        None => 1,
    };
    let mut flat = FlatTailChecker::new(min_iters, n);
    let max_iters = match max_iterations {
        Some(m) => m,
        None => usize::MAX,
    };
    let ghost mut checks: nat = 0;
    proof {
        assert(flat.stats.ranking@ =~= Seq::<usize>::empty());
    }
    let mut iter: usize = 0;
    while iter < max_iters
        invariant
            c.cs_matrix.wf(),
            p.wf(),
            forall|x: u64, y: u64| #[trigger] call_requires(*mul_op, (x, y)),
            forall|x: u64, y: u64| #[trigger] call_requires(*add_op, (x, y)),
            forall|x: u64, y: u64| #[trigger] call_requires(*sub_op, (x, y)),
            forall|x: u64| #[trigger] call_requires(*sqrt_op, (x,)),
            n == c.cs_matrix.major_dim,
            n == c.cs_matrix.minor_dim,
            n == minor,
            n > 0,
            p.dim == n,
            ct.cs_matrix.wf(),
            ct.cs_matrix.major_dim == n,
            ct.cs_matrix.minor_dim == n,
            ct_rows == ct.cs_matrix.rows(),
            ct_rows == spec_transpose(c.cs_matrix.rows(), minor),
            call_ensures(*sub_op, (ONE_BITS, a), one_minus_a),
            !is_nan_bits(one_minus_a),
            !is_nan_bits(a),
            apv == ap.entries@,
            ap.wf(),
            ap.dim == n,
            scale_outcome(*mul_op, a, p.entries@, apv),
            t1.wf(),
            t1.dim == n,
            conv.t.wf(),
            conv.t.dim == n,
            conv.e == e,
            conv.iter <= iter,
            flat.stats.length <= iter,
            flat.length == min_iters,
            min_iters as nat == min_iters_of(min_iterations),
            max_iters as nat == max_iters_of(max_iterations),
            0 <= iter <= max_iters,
            checks == (if iter > min_iters {
                (iter - min_iters) as nat
            } else {
                0
            }),
            power_iterates(
                *mul_op,
                *add_op,
                *sub_op,
                ct_rows,
                apv,
                one_minus_a,
                p.entries@,
                iter as nat,
                t1.entries@,
            ),
            failed_checks(
                *mul_op,
                *add_op,
                *sub_op,
                *sqrt_op,
                ct_rows,
                apv,
                one_minus_a,
                p.entries@,
                e,
                min_iters as nat,
                checks,
                conv.t.entries@,
                flat.stats.ranking@,
                flat.stats.length as nat,
            ),
        decreases max_iters - iter,
    {
        if iter >= min_iters {
            let ghost prev_checked = conv.t.entries@;
            let ghost rk0 = flat.stats.ranking@;
            let ghost run0 = flat.stats.length as nat;
            match conv.update(&t1, mul_op, add_op, sub_op, sqrt_op) {
                Ok(()) => {},
                Err(_) => {
                    proof {
                        assert(false);
                    }
                    return Err(SparseError::DimensionMismatch);
                },
            }
            flat.update(&t1, conv.delta());
            proof {
                assert(iter as nat == min_iters as nat + checks);
            }
            if conv.converged() && flat.reached() {
                proof {
                    assert(le_bits(conv.d, e));
                    assert(flat.stats.length >= min_iters);
                    assert(accept_witness(
                        checks,
                        prev_checked,
                        rk0,
                        run0,
                        conv.d,
                        flat.stats.ranking@,
                        flat.stats.length as nat,
                    ));
                    assert(run_witness(one_minus_a, apv));
                    assert(compute_accepts(
                        *mul_op,
                        *add_op,
                        *sub_op,
                        *sqrt_op,
                        c.cs_matrix.rows(),
                        c.cs_matrix.minor_dim,
                        p.entries@,
                        a,
                        e,
                        min_iters_of(min_iterations),
                        t1.entries@,
                    ));
                }
                return Ok(t1);
            }
            proof {
                assert(check_witness(prev_checked, rk0, run0, conv.d));
                assert(!(le_bits(conv.d, e) && flat.stats.length as nat >= min_iters as nat));
                assert(failed_checks(
                    *mul_op,
                    *add_op,
                    *sub_op,
                    *sqrt_op,
                    ct_rows,
                    apv,
                    one_minus_a,
                    p.entries@,
                    e,
                    min_iters as nat,
                    checks + 1,
                    t1.entries@,
                    flat.stats.ranking@,
                    flat.stats.length as nat,
                ));
                checks = checks + 1;
            }
        }
        let mut prod = Vector { dim: 0, entries: Vec::new() };
        match prod.mul_vec(&ct, &t1, mul_op, add_op, sub_op) {
            Ok(()) => {},
            Err(_) => {
                proof {
                    assert(false);
                }
                return Err(SparseError::DimensionMismatch);
            },
        }
        let mut scaled = Vector { dim: 0, entries: Vec::new() };
        match scaled.scale_vec(one_minus_a, &prod, mul_op) {
            Ok(()) => {},
            Err(_) => {
                proof {
                    assert(false);
                }
                return Err(SparseError::InvalidParameter);
            },
        }
        let mut next = Vector { dim: 0, entries: Vec::new() };
        match next.add_vec(&scaled, &ap, add_op) {
            Ok(()) => {},
            Err(_) => {
                proof {
                    assert(false);
                }
                return Err(SparseError::DimensionMismatch);
            },
        }
        proof {
            assert(step_witness(prod.entries@, scaled.entries@));
            assert(power_step(
                *mul_op,
                *add_op,
                *sub_op,
                ct_rows,
                apv,
                one_minus_a,
                t1.entries@,
                next.entries@,
            ));
        }
        t1 = next;
        proof {
            assert(power_iterates(
                *mul_op,
                *add_op,
                *sub_op,
                ct_rows,
                apv,
                one_minus_a,
                p.entries@,
                (iter + 1) as nat,
                t1.entries@,
            ));
        }
        iter += 1;
    }
    proof {
        assert(exhaust_witness(
            t1.entries@,
            conv.t.entries@,
            flat.stats.ranking@,
            flat.stats.length as nat,
        ));
        assert(run_witness(one_minus_a, apv));
        assert(compute_exhausted(
            *mul_op,
            *add_op,
            *sub_op,
            *sqrt_op,
            c.cs_matrix.rows(),
            c.cs_matrix.minor_dim,
            p.entries@,
            a,
            e,
            min_iters_of(min_iterations),
            max_iters_of(max_iterations),
        ));
    }
    Err(SparseError::NonConvergence)
}

/// The discount protocol: walking the distrusters in ascending order,
/// each one that holds trust in the original vector has its distrust
/// row scaled by that original trust value and subtracted from the
/// running vector.
pub open spec fn discount_rel<
    FM: Fn(u64, u64) -> u64,
    FA: Fn(u64, u64) -> u64,
    FS: Fn(u64, u64) -> u64,
>(
    mul_op: FM,
    add_op: FA,
    sub_op: FS,
    t_orig: Seq<Entry>,
    rows: Seq<Seq<Entry>>,
    t_in: Seq<Entry>,
    t_out: Seq<Entry>,
) -> bool
    decreases rows.len(),
{
    if rows.len() == 0 {
        t_out == t_in
    } else {
        match lookup(t_orig, (rows.len() - 1) as usize) {
            Some(v) => exists|mid: Seq<Entry>, scaled: Seq<Entry>|
                #[trigger] step_witness(mid, scaled) && discount_rel(
                    mul_op,
                    add_op,
                    sub_op,
                    t_orig,
                    rows.drop_last(),
                    t_in,
                    mid,
                ) && scale_outcome(mul_op, v, rows.last(), scaled) && combined_rel(
                    sub_op,
                    merge_pairs(mid, scaled),
                    t_out,
                ),
            None => discount_rel(mul_op, add_op, sub_op, t_orig, rows.drop_last(), t_in, t_out),
        }
    }
}

/// Subtract distrust-weighted corrections from the trust vector in one
/// coordinated pass: every distruster the vector trusts contributes its
/// distrust row, scaled by that trust, negatively.  A NaN trust value is
/// refused as `InvalidParameter`; a distrust matrix whose column
/// dimension disagrees with the vector is refused as
/// `DimensionMismatch` once a distruster would apply.
pub fn discount_trust_vector<
    FM: Fn(u64, u64) -> u64,
    FA: Fn(u64, u64) -> u64,
    FS: Fn(u64, u64) -> u64,
>(
    t: &mut Vector,
    discounts: &CSRMatrix,
    mul_op: &FM,
    add_op: &FA,
    sub_op: &FS,
) -> (res: Result<(), SparseError>)
    requires
        old(t).wf(),
        discounts.cs_matrix.wf(),
        forall|x: u64, y: u64| #[trigger] call_requires(*mul_op, (x, y)),
        forall|x: u64, y: u64| #[trigger] call_requires(*add_op, (x, y)),
        forall|x: u64, y: u64| #[trigger] call_requires(*sub_op, (x, y)),
    ensures
        match res {
            Ok(()) => {
                &&& final(t).wf()
                &&& final(t).dim == old(t).dim
                &&& discount_rel(
                    *mul_op,
                    *add_op,
                    *sub_op,
                    old(t).entries@,
                    discounts.cs_matrix.rows(),
                    old(t).entries@,
                    final(t).entries@,
                )
            },
            Err(e) => {
                ||| (e == SparseError::InvalidParameter && exists|r: usize|
                    r < discounts.cs_matrix.entries@.len() && #[trigger] lookup(
                        old(t).entries@,
                        r,
                    ) is Some && is_nan_bits(lookup(old(t).entries@, r).unwrap()))
                ||| (e == SparseError::DimensionMismatch && discounts.cs_matrix.minor_dim != old(
                    t,
                ).dim)
            },
        },
        (discounts.cs_matrix.minor_dim == old(t).dim && forall|r: usize|
            r < discounts.cs_matrix.entries@.len() && #[trigger] lookup(old(t).entries@, r)
                is Some ==> !is_nan_bits(lookup(old(t).entries@, r).unwrap())) ==> res is Ok,
{
    let t_orig = copy_entries(&t.entries);
    let ghost orig = t.entries@;
    let mut r: usize = 0;
    let n = discounts.cs_matrix.entries.len();
    while r < n
        invariant
            t.wf(),
            discounts.cs_matrix.wf(),
            forall|x: u64, y: u64| #[trigger] call_requires(*mul_op, (x, y)),
            forall|x: u64, y: u64| #[trigger] call_requires(*add_op, (x, y)),
            forall|x: u64, y: u64| #[trigger] call_requires(*sub_op, (x, y)),
            0 <= r <= n,
            n == discounts.cs_matrix.entries@.len(),
            t_orig@ == orig,
            orig == old(t).entries@,
            t.dim == old(t).dim,
            discount_rel(
                *mul_op,
                *add_op,
                *sub_op,
                orig,
                discounts.cs_matrix.rows().take(r as int),
                orig,
                t.entries@,
            ),
        decreases n - r,
    {
        let ghost rows_pre = discounts.cs_matrix.rows().take(r as int);
        let ghost t_pre = t.entries@;
        match crate::matrix::row_lookup(&t_orig, r) {
            Some(v) => {
                if exec_is_nan(v) {
                    return Err(SparseError::InvalidParameter);
                }
                let row_vec = discounts.row_vector(r);
                let mut scaled = Vector { dim: 0, entries: Vec::new() };
                match scaled.scale_vec(v, &row_vec, mul_op) {
                    Ok(()) => {},
                    Err(_) => {
                        proof {
                            assert(false);
                        }
                        return Err(SparseError::InvalidParameter);
                    },
                }
                let t2 = Vector { dim: t.dim, entries: copy_entries(&t.entries) };
                match t.sub_vec(&t2, &scaled, sub_op) {
                    Ok(()) => {},
                    Err(_) => {
                        return Err(SparseError::DimensionMismatch);
                    },
                }
                proof {
                    assert(step_witness(t_pre, scaled.entries@));
                    assert(scale_outcome(
                        *mul_op,
                        v,
                        discounts.cs_matrix.entries@[r as int]@,
                        scaled.entries@,
                    ));
                    assert(combined_rel(
                        *sub_op,
                        merge_pairs(t_pre, scaled.entries@),
                        t.entries@,
                    ));
                    let rows_new = discounts.cs_matrix.rows().take(r + 1);
                    assert(rows_new.drop_last() =~= rows_pre);
                    assert(rows_new.last() == discounts.cs_matrix.entries@[r as int]@);
                    assert(discount_rel(
                        *mul_op,
                        *add_op,
                        *sub_op,
                        orig,
                        rows_new,
                        orig,
                        t.entries@,
                    ));
                }
            },
            None => {
                proof {
                    let rows_new = discounts.cs_matrix.rows().take(r + 1);
                    assert(rows_new.drop_last() =~= rows_pre);
                    assert(rows_new.last() == discounts.cs_matrix.entries@[r as int]@);
                }
            },
        }
        r += 1;
    }
    proof {
        assert(discounts.cs_matrix.rows().take(n as int) =~= discounts.cs_matrix.rows());
    }
    Ok(())
}

} // verus!
