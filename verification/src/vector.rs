//! Sparse vectors: an ordered-by-index, duplicate-free list of entries
//! together with a declared dimension, and the merge-scan arithmetic on
//! them.
//!
//! Scalar values are IEEE 754 bit patterns; the arithmetic on them is
//! supplied by the caller as closures over bit patterns, and every
//! contract states exactly which closure outputs end up where.

use vstd::prelude::*;
use crate::entry::Entry;
use crate::entry::contains_index;
use crate::entry::indices_below;
use crate::entry::lookup;
use crate::entry::sorted_by_index;
use crate::entry::sorted_strict;
use crate::entry::sort_entries_by_index;
use crate::fbits::POS_ZERO;
use crate::fbits::is_nan_bits;
use crate::fbits::is_zero_bits;
use crate::fbits::exec_is_nan;
use crate::fbits::exec_is_zero;
use crate::errors::SparseError;

verus! {

/// A sparse vector: a declared dimension and the list of its nonzero
/// positions in strictly ascending index order.
#[derive(Clone, Debug)]
pub struct Vector {
    pub dim: usize,
    pub entries: Vec<Entry>,
}

impl Vector {
    /// The invariant of a well-formed sparse vector: entries strictly
    /// ascending by index, every index below the declared dimension.
    pub open spec fn wf(self) -> bool {
        sorted_strict(self.entries@) && indices_below(self.entries@, self.dim as nat)
    }

    /// The value this vector stores at an index, if any.
    pub open spec fn at(self, idx: usize) -> Option<u64> {
        lookup(self.entries@, idx)
    }

    /// Build a vector from a raw entry list, sorting it by index.  The
    /// entries are rearranged, never changed: the multiset of entries is
    /// preserved.  Duplicate indices are the caller's responsibility;
    /// a list of distinct in-range indices gives a well-formed vector.
    pub fn new(dim: usize, entries: Vec<Entry>) -> (v: Vector)
        ensures
            v.dim == dim,
            sorted_by_index(v.entries@),
            v.entries@.to_multiset() == entries@.to_multiset(),
            ((forall|i: int, j: int|
                0 <= i < j < entries@.len() ==> entries@[i].index != entries@[j].index)
                && indices_below(entries@, dim as nat)) ==> v.wf(),
    {
        let ghost raw = entries@;
        let mut vector = Vector { dim, entries };
        sort_entries_by_index(&mut vector.entries);
        proof {
            if (forall|i: int, j: int| 0 <= i < j < raw.len() ==> raw[i].index != raw[j].index)
                && indices_below(raw, dim as nat) {
                crate::entry::lemma_rearranged_strict(vector.entries@, raw, dim as nat);
            }
        }
        vector
    }

    /// The number of stored entries.
    pub fn nnz(&self) -> (n: usize)
        ensures
            n == self.entries@.len(),
    {
        self.entries.len()
    }

    /// Replace this vector wholesale by a copy of another.
    pub fn assign(&mut self, other: &Vector)
        ensures
            final(self).dim == other.dim,
            final(self).entries@ == other.entries@,
    {
        self.dim = other.dim;
        self.entries = copy_entries(&other.entries);
    }

    /// Change the declared dimension.  Shrinking discards the entries at
    /// indices no longer inside; growing keeps every entry.
    pub fn set_dim(&mut self, dim: usize)
        ensures
            final(self).dim == dim,
            dim < old(self).dim ==> final(self).entries@ == restrict_below(
                old(self).entries@,
                dim as nat,
            ),
            dim >= old(self).dim ==> final(self).entries@ == old(self).entries@,
            old(self).wf() ==> final(self).wf(),
    {
        if dim < self.dim {
            let mut kept: Vec<Entry> = Vec::new();
            let mut k: usize = 0;
            while k < self.entries.len()
                invariant
                    0 <= k <= self.entries.len(),
                    kept@ == restrict_below(self.entries@.take(k as int), dim as nat),
                decreases self.entries.len() - k,
            {
                let ghost pre = self.entries@.take(k as int);
                let e = self.entries[k];
                if e.index < dim {
                    kept.push(e);
                }
                proof {
                    assert(self.entries@.take(k + 1).drop_last() =~= pre);
                }
                k += 1;
            }
            proof {
                assert(self.entries@.take(self.entries@.len() as int) =~= self.entries@);
                if old(self).wf() {
                    lemma_restrict_below_sorted(self.entries@, dim as nat);
                }
            }
            self.entries = kept;
        }
        self.dim = dim;
    }
}

impl PartialEq for Vector {
    /// Two vectors are equal when their dimensions and entry lists agree.
    fn eq(&self, other: &Vector) -> (r: bool) {
        if self.dim != other.dim || self.entries.len() != other.entries.len() {
            return false;
        }
        let mut k: usize = 0;
        while k < self.entries.len()
            invariant
                0 <= k <= self.entries@.len(),
                self.entries@.len() == other.entries@.len(),
                self.dim == other.dim,
                forall|i: int| 0 <= i < k ==> self.entries@[i] == other.entries@[i],
            decreases self.entries@.len() - k,
        {
            if self.entries[k] != other.entries[k] {
                return false;
            }
            k += 1;
        }
        proof {
            assert(self.entries@ =~= other.entries@);
        }
        true
    }
}

impl vstd::std_specs::cmp::PartialEqSpecImpl for Vector {
    open spec fn obeys_eq_spec() -> bool {
        true
    }

    open spec fn eq_spec(&self, other: &Vector) -> bool {
        self.dim == other.dim && self.entries@ == other.entries@
    }
}

/// The subsequence of entries whose index lies below the bound, in order.
pub open spec fn restrict_below(s: Seq<Entry>, dim: nat) -> Seq<Entry>
    decreases s.len(),
{
    if s.len() == 0 {
        Seq::empty()
    } else if s.last().index < dim {
        restrict_below(s.drop_last(), dim).push(s.last())
    } else {
        restrict_below(s.drop_last(), dim)
    }
}

/// Restriction preserves sortedness and bounds the surviving indices.
pub proof fn lemma_restrict_below_sorted(s: Seq<Entry>, dim: nat)
    requires
        sorted_strict(s),
    ensures
        sorted_strict(restrict_below(s, dim)),
        indices_below(restrict_below(s, dim), dim),
    decreases s.len(),
{
    if s.len() > 0 {
        lemma_restrict_below_sorted(s.drop_last(), dim);
        lemma_restrict_below_le_last(s, dim);
    }
}

/// Every element of the restriction comes from the sequence, so is
/// bounded by the last element of a sorted sequence.
proof fn lemma_restrict_below_le_last(s: Seq<Entry>, dim: nat)
    requires
        sorted_strict(s),
        s.len() > 0,
    ensures
        forall|i: int|
            0 <= i < restrict_below(s.drop_last(), dim).len()
                ==> #[trigger] restrict_below(s.drop_last(), dim)[i].index < s.last().index,
    decreases s.len(),
{
    let r = restrict_below(s.drop_last(), dim);
    lemma_restrict_below_members(s.drop_last(), dim);
    assert forall|i: int| 0 <= i < r.len() implies #[trigger] r[i].index < s.last().index by {
        let j = choose|j: int| 0 <= j < s.drop_last().len() && s.drop_last()[j] == r[i];
        assert(s[j] == s.drop_last()[j]);
    }
}

/// Each element of the restriction occurs in the original sequence.
proof fn lemma_restrict_below_members(s: Seq<Entry>, dim: nat)
    ensures
        forall|i: int|
            0 <= i < restrict_below(s, dim).len()
                ==> exists|j: int|
                    0 <= j < s.len() && s[j] == #[trigger] restrict_below(s, dim)[i],
    decreases s.len(),
{
    if s.len() > 0 {
        lemma_restrict_below_members(s.drop_last(), dim);
        let r = restrict_below(s, dim);
        assert forall|i: int| 0 <= i < r.len() implies exists|j: int|
            0 <= j < s.len() && s[j] == #[trigger] r[i] by {
            if s.last().index < dim && i == r.len() - 1 {
                assert(s[s.len() - 1] == r[i]);
            } else {
                let rd = restrict_below(s.drop_last(), dim);
                assert(rd[i] == r[i]);
                let j = choose|j: int| 0 <= j < s.drop_last().len() && s.drop_last()[j] == rd[i];
                assert(s[j] == rd[i]);
            }
        }
    }
}

/// When every index is already below the bound, restriction keeps the
/// whole sequence.
pub proof fn lemma_restrict_below_all(s: Seq<Entry>, dim: nat, bound: nat)
    requires
        indices_below(s, dim),
        dim <= bound,
    ensures
        restrict_below(s, bound) == s,
    decreases s.len(),
{
    if s.len() > 0 {
        lemma_restrict_below_all(s.drop_last(), dim, bound);
        assert(restrict_below(s, bound) =~= s);
    } else {
        assert(restrict_below(s, bound) =~= s);
    }
}

/// One position of the structural merge of two sorted entry lists: the
/// index, and the value each side stores there, if any.
pub type MergedPair = (usize, Option<u64>, Option<u64>);

/// The structural merge of two strictly sorted entry lists: one pair per
/// index occurring on either side, in ascending index order, carrying the
/// value each side stores at that index.
pub open spec fn merge_pairs(s1: Seq<Entry>, s2: Seq<Entry>) -> Seq<MergedPair>
    decreases s1.len() + s2.len(),
{
    if s1.len() == 0 && s2.len() == 0 {
        Seq::empty()
    } else if s2.len() == 0 || (s1.len() > 0 && s1.last().index > s2.last().index) {
        merge_pairs(s1.drop_last(), s2).push(
            (s1.last().index, Some(s1.last().value), None),
        )
    } else if s1.len() == 0 || s2.last().index > s1.last().index {
        merge_pairs(s1, s2.drop_last()).push(
            (s2.last().index, None, Some(s2.last().value)),
        )
    } else {
        merge_pairs(s1.drop_last(), s2.drop_last()).push(
            (s1.last().index, Some(s1.last().value), Some(s2.last().value)),
        )
    }
}

/// The pair recorded for an index, if any (the analogue of `lookup`).
pub open spec fn pair_lookup(pairs: Seq<MergedPair>, idx: usize) -> Option<(Option<u64>, Option<
    u64,
>)>
    decreases pairs.len(),
{
    if pairs.len() == 0 {
        None
    } else if pairs.last().0 == idx {
        Some((pairs.last().1, pairs.last().2))
    } else {
        pair_lookup(pairs.drop_last(), idx)
    }
}

/// Pair indices are strictly ascending.
pub open spec fn pairs_sorted(pairs: Seq<MergedPair>) -> bool {
    forall|i: int, j: int| 0 <= i < j < pairs.len() ==> pairs[i].0 < pairs[j].0
}

/// Every pair carries a value on at least one side, and takes its index
/// from one of the merged lists.
pub open spec fn pairs_from(pairs: Seq<MergedPair>, s1: Seq<Entry>, s2: Seq<Entry>) -> bool {
    forall|j: int|
        0 <= j < pairs.len()
            ==> ((#[trigger] pairs[j]).1 is Some || pairs[j].2 is Some) && (contains_index(
            s1,
            pairs[j].0,
        ) || contains_index(s2, pairs[j].0))
}

/// On sorted inputs the merge is sorted and draws its indices from the
/// inputs.
pub proof fn lemma_merge_pairs_sorted(s1: Seq<Entry>, s2: Seq<Entry>)
    requires
        sorted_strict(s1),
        sorted_strict(s2),
    ensures
        pairs_sorted(merge_pairs(s1, s2)),
        pairs_from(merge_pairs(s1, s2), s1, s2),
        forall|j: int|
            0 <= j < merge_pairs(s1, s2).len()
                ==> (s1.len() > 0 && #[trigger] merge_pairs(s1, s2)[j].0 <= s1.last().index) || (
                s2.len() > 0 && merge_pairs(s1, s2)[j].0 <= s2.last().index),
    decreases s1.len() + s2.len(),
{
    let pairs = merge_pairs(s1, s2);
    if s1.len() == 0 && s2.len() == 0 {
    } else if s2.len() == 0 || (s1.len() > 0 && s1.last().index > s2.last().index) {
        lemma_merge_pairs_sorted(s1.drop_last(), s2);
        assert forall|j: int| 0 <= j < pairs.len() - 1 implies (contains_index(
            s1,
            #[trigger] pairs[j].0,
        ) || contains_index(s2, pairs[j].0)) && pairs[j].0 < s1.last().index by {
            let prev = merge_pairs(s1.drop_last(), s2);
            assert(pairs[j] == prev[j]);
            if contains_index(s1.drop_last(), prev[j].0) {
                let i = choose|i: int|
                    0 <= i < s1.drop_last().len() && s1.drop_last()[i].index == prev[j].0;
                assert(s1[i].index == prev[j].0);
            }
        }
        assert(contains_index(s1, pairs.last().0)) by {
            assert(s1[s1.len() - 1].index == pairs.last().0);
        }
    } else if s1.len() == 0 || s2.last().index > s1.last().index {
        lemma_merge_pairs_sorted(s1, s2.drop_last());
        assert forall|j: int| 0 <= j < pairs.len() - 1 implies (contains_index(
            s1,
            #[trigger] pairs[j].0,
        ) || contains_index(s2, pairs[j].0)) && pairs[j].0 < s2.last().index by {
            let prev = merge_pairs(s1, s2.drop_last());
            assert(pairs[j] == prev[j]);
            if contains_index(s2.drop_last(), prev[j].0) {
                let i = choose|i: int|
                    0 <= i < s2.drop_last().len() && s2.drop_last()[i].index == prev[j].0;
                assert(s2[i].index == prev[j].0);
            }
        }
        assert(contains_index(s2, pairs.last().0)) by {
            assert(s2[s2.len() - 1].index == pairs.last().0);
        }
    } else {
        lemma_merge_pairs_sorted(s1.drop_last(), s2.drop_last());
        assert forall|j: int| 0 <= j < pairs.len() - 1 implies (contains_index(
            s1,
            #[trigger] pairs[j].0,
        ) || contains_index(s2, pairs[j].0)) && pairs[j].0 < s1.last().index by {
            let prev = merge_pairs(s1.drop_last(), s2.drop_last());
            assert(pairs[j] == prev[j]);
            if contains_index(s1.drop_last(), prev[j].0) {
                let i = choose|i: int|
                    0 <= i < s1.drop_last().len() && s1.drop_last()[i].index == prev[j].0;
                assert(s1[i].index == prev[j].0);
            }
            if contains_index(s2.drop_last(), prev[j].0) {
                let i = choose|i: int|
                    0 <= i < s2.drop_last().len() && s2.drop_last()[i].index == prev[j].0;
                assert(s2[i].index == prev[j].0);
            }
        }
        assert(contains_index(s1, pairs.last().0)) by {
            assert(s1[s1.len() - 1].index == pairs.last().0);
        }
    }
}

/// `lookup` misses every index above the last of a sorted sequence.
pub proof fn lemma_lookup_none_above(s: Seq<Entry>, idx: usize)
    requires
        sorted_strict(s),
        s.len() == 0 || s.last().index < idx,
    ensures
        lookup(s, idx) is None,
    decreases s.len(),
{
    if s.len() > 0 {
        lemma_lookup_none_above(s.drop_last(), idx);
    }
}

/// The merge records, at every index, exactly the values the two sides
/// store there.
pub proof fn lemma_merge_pairs_lookup(s1: Seq<Entry>, s2: Seq<Entry>, idx: usize)
    requires
        sorted_strict(s1),
        sorted_strict(s2),
    ensures
        pair_lookup(merge_pairs(s1, s2), idx) == (if lookup(s1, idx) is Some || lookup(s2, idx)
            is Some {
            Some((lookup(s1, idx), lookup(s2, idx)))
        } else {
            None::<(Option<u64>, Option<u64>)>
        }),
    decreases s1.len() + s2.len(),
{
    if s1.len() == 0 && s2.len() == 0 {
    } else if s2.len() == 0 || (s1.len() > 0 && s1.last().index > s2.last().index) {
        let prev = merge_pairs(s1.drop_last(), s2);
        assert(merge_pairs(s1, s2).drop_last() =~= prev);
        if s1.last().index == idx {
            lemma_lookup_none_above(s2, idx);
        } else {
            lemma_merge_pairs_lookup(s1.drop_last(), s2, idx);
        }
    } else if s1.len() == 0 || s2.last().index > s1.last().index {
        let prev = merge_pairs(s1, s2.drop_last());
        assert(merge_pairs(s1, s2).drop_last() =~= prev);
        if s2.last().index == idx {
            lemma_lookup_none_above(s1, idx);
        } else {
            lemma_merge_pairs_lookup(s1, s2.drop_last(), idx);
        }
    } else {
        let prev = merge_pairs(s1.drop_last(), s2.drop_last());
        assert(merge_pairs(s1, s2).drop_last() =~= prev);
        if s1.last().index != idx {
            lemma_merge_pairs_lookup(s1.drop_last(), s2.drop_last(), idx);
        }
    }
}

/// Compute the structural merge of the entry lists of two sorted vectors.
fn merge_entry_pairs(a: &Vec<Entry>, b: &Vec<Entry>) -> (out: Vec<MergedPair>)
    requires
        sorted_strict(a@),
        sorted_strict(b@),
    ensures
        out@ == merge_pairs(a@, b@),
{
    let mut out: Vec<MergedPair> = Vec::new();
    let mut i1: usize = 0;
    let mut i2: usize = 0;
    while i1 < a.len() || i2 < b.len()
        invariant
            sorted_strict(a@),
            sorted_strict(b@),
            0 <= i1 <= a@.len(),
            0 <= i2 <= b@.len(),
            out@ == merge_pairs(a@.take(i1 as int), b@.take(i2 as int)),
            i1 > 0 && i2 < b@.len() ==> a@[i1 - 1].index < b@[i2 as int].index,
            i2 > 0 && i1 < a@.len() ==> b@[i2 - 1].index < a@[i1 as int].index,
        decreases a@.len() + b@.len() - i1 - i2,
    {
        let ghost p1 = a@.take(i1 as int);
        let ghost p2 = b@.take(i2 as int);
        if i2 >= b.len() || (i1 < a.len() && a[i1].index < b[i2].index) {
            let e = a[i1];
            out.push((e.index, Some(e.value), None));
            proof {
                assert(a@.take(i1 + 1).drop_last() =~= p1);
                assert(a@.take(i1 + 1).last() == e);
            }
            i1 += 1;
        } else if i1 >= a.len() || b[i2].index < a[i1].index {
            let e = b[i2];
            out.push((e.index, None, Some(e.value)));
            proof {
                assert(b@.take(i2 + 1).drop_last() =~= p2);
                assert(b@.take(i2 + 1).last() == e);
            }
            i2 += 1;
        } else {
            let e1 = a[i1];
            let e2 = b[i2];
            out.push((e1.index, Some(e1.value), Some(e2.value)));
            proof {
                assert(a@.take(i1 + 1).drop_last() =~= p1);
                assert(b@.take(i2 + 1).drop_last() =~= p2);
                assert(a@.take(i1 + 1).last() == e1);
                assert(b@.take(i2 + 1).last() == e2);
            }
            i1 += 1;
            i2 += 1;
        }
    }
    proof {
        assert(a@.take(a@.len() as int) =~= a@);
        assert(b@.take(b@.len() as int) =~= b@);
    }
    out
}

/// How an output entry list arises from a merge and a combining closure:
/// walking the pairs in order, a value present on the left alone passes
/// through unchanged; one present on the right alone is combined with
/// `+0.0`; one present on both sides is combined, and the entry is
/// dropped when the combination cancelled to a zero.
pub open spec fn combined_rel<F: Fn(u64, u64) -> u64>(
    f: F,
    pairs: Seq<MergedPair>,
    out: Seq<Entry>,
) -> bool
    decreases pairs.len(), 0int,
{
    if pairs.len() == 0 {
        out.len() == 0
    } else {
        let p = pairs.last();
        let rest = pairs.drop_last();
        match (p.1, p.2) {
            (Some(x), Some(y)) => exists|r: u64|
                #[trigger] call_ensures(f, (x, y), r) && combined_step(f, rest, out, p.0, r, true),
            (Some(x), None) => out.len() > 0 && out.last() == (Entry { index: p.0, value: x })
                && combined_rel(f, rest, out.drop_last()),
            (None, Some(y)) => exists|r: u64|
                #[trigger] call_ensures(f, (POS_ZERO, y), r) && combined_step(
                    f,
                    rest,
                    out,
                    p.0,
                    r,
                    false,
                ),
            (None, None) => false,
        }
    }
}

/// One step of `combined_rel`: the combination `r` is appended, unless
/// dropping of cancelled zeroes applies and `r` is a zero.
pub open spec fn combined_step<F: Fn(u64, u64) -> u64>(
    f: F,
    rest: Seq<MergedPair>,
    out: Seq<Entry>,
    idx: usize,
    r: u64,
    allow_drop: bool,
) -> bool
    decreases rest.len(), 1int,
{
    if allow_drop && is_zero_bits(r) {
        combined_rel(f, rest, out)
    } else {
        out.len() > 0 && out.last() == (Entry { index: idx, value: r }) && combined_rel(
            f,
            rest,
            out.drop_last(),
        )
    }
}

/// Every output entry of a combination takes its index from some pair.
proof fn lemma_combined_from<F: Fn(u64, u64) -> u64>(f: F, pairs: Seq<MergedPair>, out: Seq<Entry>)
    requires
        combined_rel(f, pairs, out),
    ensures
        forall|k: int|
            0 <= k < out.len() ==> exists|j: int|
                0 <= j < pairs.len() && (#[trigger] out[k]).index == pairs[j].0,
    decreases pairs.len(),
{
    if pairs.len() > 0 {
        let p = pairs.last();
        let rest = pairs.drop_last();
        assert forall|k: int| 0 <= k < out.len() implies exists|j: int|
            0 <= j < pairs.len() && (#[trigger] out[k]).index == pairs[j].0 by {
            if p.1 is Some && p.2 is Some {
                let x = p.1.unwrap();
                let y = p.2.unwrap();
                assert(exists|r: u64|
                    #[trigger] call_ensures(f, (x, y), r) && combined_step(f, rest, out, p.0, r, true));
                let r = choose|r: u64|
                    #[trigger] call_ensures(f, (x, y), r) && combined_step(f, rest, out, p.0, r, true);
                if is_zero_bits(r) {
                    lemma_combined_from(f, rest, out);
                    let j = choose|j: int| 0 <= j < rest.len() && out[k].index == rest[j].0;
                    assert(pairs[j] == rest[j]);
                } else {
                    if k == out.len() - 1 {
                        assert(out[k].index == pairs[pairs.len() - 1].0);
                    } else {
                        lemma_combined_from(f, rest, out.drop_last());
                        assert(out.drop_last()[k] == out[k]);
                        let j = choose|j: int| 0 <= j < rest.len() && out[k].index == rest[j].0;
                        assert(pairs[j] == rest[j]);
                    }
                }
            } else if p.1 is Some {
                if k == out.len() - 1 {
                    assert(out[k].index == pairs[pairs.len() - 1].0);
                } else {
                    lemma_combined_from(f, rest, out.drop_last());
                    assert(out.drop_last()[k] == out[k]);
                    let j = choose|j: int| 0 <= j < rest.len() && out[k].index == rest[j].0;
                    assert(pairs[j] == rest[j]);
                }
            } else if p.2 is Some {
                let y = p.2.unwrap();
                assert(exists|r: u64|
                    #[trigger] call_ensures(f, (POS_ZERO, y), r) && combined_step(f, rest, out, p.0, r, false));
                if k == out.len() - 1 {
                    assert(out[k].index == pairs[pairs.len() - 1].0);
                } else {
                    lemma_combined_from(f, rest, out.drop_last());
                    assert(out.drop_last()[k] == out[k]);
                    let j = choose|j: int| 0 <= j < rest.len() && out[k].index == rest[j].0;
                    assert(pairs[j] == rest[j]);
                }
            }
        }
    }
}

/// A combination of a sorted merge is itself strictly sorted, and stays
/// below the last pair index.
proof fn lemma_combined_sorted<F: Fn(u64, u64) -> u64>(
    f: F,
    pairs: Seq<MergedPair>,
    out: Seq<Entry>,
)
    requires
        combined_rel(f, pairs, out),
        pairs_sorted(pairs),
    ensures
        sorted_strict(out),
        out.len() > 0 ==> pairs.len() > 0 && out.last().index <= pairs.last().0,
    decreases pairs.len(), 0int,
{
    if pairs.len() > 0 {
        let p = pairs.last();
        let rest = pairs.drop_last();
        assert(forall|i: int| 0 <= i < rest.len() ==> rest[i] == pairs[i]);
        if p.1 is Some && p.2 is Some {
            let x = p.1.unwrap();
            let y = p.2.unwrap();
            assert(exists|r: u64|
                #[trigger] call_ensures(f, (x, y), r) && combined_step(f, rest, out, p.0, r, true));
            let r = choose|r: u64|
                #[trigger] call_ensures(f, (x, y), r) && combined_step(f, rest, out, p.0, r, true);
            if is_zero_bits(r) {
                lemma_combined_sorted(f, rest, out);
                if out.len() > 0 {
                    assert(rest.last() == pairs[pairs.len() - 2]);
                }
            } else {
                lemma_combined_push(f, rest, out, p.0, r);
            }
        } else if p.1 is Some {
            lemma_combined_push(f, rest, out, p.0, p.1.unwrap());
        } else if p.2 is Some {
            let y = p.2.unwrap();
            assert(exists|r: u64|
                #[trigger] call_ensures(f, (POS_ZERO, y), r) && combined_step(f, rest, out, p.0, r, false));
            let r = choose|r: u64|
                #[trigger] call_ensures(f, (POS_ZERO, y), r) && combined_step(f, rest, out, p.0, r, false);
            lemma_combined_push(f, rest, out, p.0, r);
        }
    }
}

/// Sortedness of a combination that ends by appending an entry.
proof fn lemma_combined_push<F: Fn(u64, u64) -> u64>(
    f: F,
    rest: Seq<MergedPair>,
    out: Seq<Entry>,
    idx: usize,
    r: u64,
)
    requires
        pairs_sorted(rest.push((idx, None, None))),
        out.len() > 0,
        out.last() == (Entry { index: idx, value: r }),
        combined_rel(f, rest, out.drop_last()),
    ensures
        sorted_strict(out),
        out.last().index <= idx,
    decreases rest.len(), 1int,
{
    let full = rest.push((idx, None, None));
    assert(pairs_sorted(rest)) by {
        assert(forall|i: int| 0 <= i < rest.len() ==> rest[i] == full[i]);
    }
    lemma_combined_sorted(f, rest, out.drop_last());
    lemma_combined_from(f, rest, out.drop_last());
    assert forall|i: int, j: int| 0 <= i < j < out.len() implies out[i].index < out[j].index by {
        if j < out.len() - 1 {
            assert(out.drop_last()[i] == out[i]);
            assert(out.drop_last()[j] == out[j]);
        } else {
            assert(out.drop_last()[i] == out[i]);
            let jj = choose|jj: int|
                0 <= jj < rest.len() && out.drop_last()[i].index == rest[jj].0;
            assert(full[jj] == rest[jj]);
            assert(full.last().0 == idx);
        }
    }
}

/// What a combination stores at each index, stated over `lookup`.
proof fn lemma_combined_lookup<F: Fn(u64, u64) -> u64>(
    f: F,
    pairs: Seq<MergedPair>,
    out: Seq<Entry>,
    idx: usize,
)
    requires
        combined_rel(f, pairs, out),
        pairs_sorted(pairs),
    ensures
        match pair_lookup(pairs, idx) {
            None => lookup(out, idx) is None,
            Some((Some(x), Some(y))) => exists|r: u64|
                #[trigger] call_ensures(f, (x, y), r) && lookup(out, idx) == (if is_zero_bits(r) {
                    None::<u64>
                } else {
                    Some(r)
                }),
            Some((Some(x), None)) => lookup(out, idx) == Some(x),
            Some((None, Some(y))) => exists|r: u64|
                #[trigger] call_ensures(f, (POS_ZERO, y), r) && lookup(out, idx) == Some(r),
            Some((None, None)) => false,
        },
    decreases pairs.len(),
{
    if pairs.len() == 0 {
    } else {
        let p = pairs.last();
        let rest = pairs.drop_last();
        assert(forall|i: int| 0 <= i < rest.len() ==> rest[i] == pairs[i]);
        lemma_combined_sorted(f, pairs, out);
        if p.1 is Some && p.2 is Some {
            let x = p.1.unwrap();
            let y = p.2.unwrap();
            assert(exists|r: u64|
                #[trigger] call_ensures(f, (x, y), r) && combined_step(f, rest, out, p.0, r, true));
            let r = choose|r: u64|
                #[trigger] call_ensures(f, (x, y), r) && combined_step(f, rest, out, p.0, r, true);
            if is_zero_bits(r) {
                if idx == p.0 {
                    lemma_combined_sorted(f, rest, out);
                    lemma_combined_from(f, rest, out);
                    if out.len() > 0 {
                        let jj = choose|jj: int|
                            0 <= jj < rest.len() && out.last().index == rest[jj].0;
                    }
                    lemma_lookup_none_above(out, idx);
                    assert(lookup(out, idx) is None);
                } else {
                    lemma_combined_lookup(f, rest, out, idx);
                }
            } else {
                if idx == p.0 {
                    assert(lookup(out, idx) == Some(r));
                } else {
                    lemma_combined_lookup(f, rest, out.drop_last(), idx);
                }
            }
        } else if p.1 is Some {
            let x = p.1.unwrap();
            if idx == p.0 {
                assert(lookup(out, idx) == Some(x));
            } else {
                lemma_combined_lookup(f, rest, out.drop_last(), idx);
            }
        } else if p.2 is Some {
            let y = p.2.unwrap();
            assert(exists|r: u64|
                #[trigger] call_ensures(f, (POS_ZERO, y), r) && combined_step(f, rest, out, p.0, r, false));
            let r = choose|r: u64|
                #[trigger] call_ensures(f, (POS_ZERO, y), r) && combined_step(f, rest, out, p.0, r, false);
            if idx == p.0 {
                assert(lookup(out, idx) == Some(r));
            } else {
                lemma_combined_lookup(f, rest, out.drop_last(), idx);
            }
        }
    }
}

/// What a merge-combination stores at every index: values on one side
/// pass through (combined with `+0.0` when only the right side has one),
/// values on both sides are combined, and combinations that cancelled to
/// a zero are dropped.
pub open spec fn merged_at<F: Fn(u64, u64) -> u64>(
    f: F,
    s1: Seq<Entry>,
    s2: Seq<Entry>,
    out: Seq<Entry>,
    idx: usize,
) -> bool {
    match (lookup(s1, idx), lookup(s2, idx)) {
        (Some(x), Some(y)) => exists|r: u64|
            #[trigger] call_ensures(f, (x, y), r) && lookup(out, idx) == (if is_zero_bits(r) {
                None::<u64>
            } else {
                Some(r)
            }),
        (Some(x), None) => lookup(out, idx) == Some(x),
        (None, Some(y)) => exists|r: u64|
            #[trigger] call_ensures(f, (POS_ZERO, y), r) && lookup(out, idx) == Some(r),
        (None, None) => lookup(out, idx) is None,
    }
}

/// See `merged_at`: the pointwise account holds at every index.
pub open spec fn merged_pointwise<F: Fn(u64, u64) -> u64>(
    f: F,
    s1: Seq<Entry>,
    s2: Seq<Entry>,
    out: Seq<Entry>,
) -> bool {
    forall|idx: usize| #[trigger] merged_at(f, s1, s2, out, idx)
}

/// Apply the combining closure along a structural merge.
fn apply_merge<F: Fn(u64, u64) -> u64>(pairs: &Vec<MergedPair>, op: &F) -> (out: Vec<Entry>)
    requires
        forall|x: u64, y: u64| #[trigger] call_requires(*op, (x, y)),
        forall|j: int|
            0 <= j < pairs@.len() ==> (#[trigger] pairs@[j]).1 is Some || pairs@[j].2 is Some,
    ensures
        combined_rel(*op, pairs@, out@),
{
    let mut out: Vec<Entry> = Vec::new();
    let mut k: usize = 0;
    while k < pairs.len()
        invariant
            forall|x: u64, y: u64| #[trigger] call_requires(*op, (x, y)),
            forall|j: int|
                0 <= j < pairs@.len() ==> (#[trigger] pairs@[j]).1 is Some || pairs@[j].2 is Some,
            0 <= k <= pairs@.len(),
            combined_rel(*op, pairs@.take(k as int), out@),
        decreases pairs@.len() - k,
    {
        let p = pairs[k];
        let ghost prevp = pairs@.take(k as int);
        let ghost prevo = out@;
        proof {
            assert(pairs@.take(k + 1).drop_last() =~= prevp);
            assert(pairs@.take(k + 1).last() == p);
        }
        match (p.1, p.2) {
            (Some(x), Some(y)) => {
                let r = op(x, y);
                if !crate::fbits::exec_is_zero(r) {
                    out.push(Entry { index: p.0, value: r });
                    proof {
                        assert(out@.drop_last() =~= prevo);
                    }
                }
                proof {
                    assert(combined_step(*op, prevp, out@, p.0, r, true));
                }
            },
            (Some(x), None) => {
                out.push(Entry { index: p.0, value: x });
                proof {
                    assert(out@.drop_last() =~= prevo);
                }
            },
            (None, Some(y)) => {
                let r = op(crate::fbits::POS_ZERO, y);
                out.push(Entry { index: p.0, value: r });
                proof {
                    assert(out@.drop_last() =~= prevo);
                    assert(combined_step(*op, prevp, out@, p.0, r, false));
                }
            },
            (None, None) => {
                proof {
                    assert(false);
                }
            },
        }
        k += 1;
    }
    proof {
        assert(pairs@.take(pairs@.len() as int) =~= pairs@);
    }
    out
}

impl Vector {
    /// The merge-scan at the heart of addition and subtraction: combine
    /// two sorted vectors position by position with the given closure,
    /// storing the outcome in `self`.  Fails, changing nothing, exactly
    /// when the declared dimensions disagree.
    fn binary_operation<F: Fn(u64, u64) -> u64>(
        &mut self,
        v1: &Vector,
        v2: &Vector,
        op: &F,
    ) -> (res: Result<(), SparseError>)
        requires
            v1.wf(),
            v2.wf(),
            forall|x: u64, y: u64| #[trigger] call_requires(*op, (x, y)),
        ensures
            match res {
                Ok(()) => v1.dim == v2.dim && final(self).dim == v1.dim && final(self).wf()
                    && combined_rel(*op, merge_pairs(v1.entries@, v2.entries@), final(self).entries@)
                    && merged_pointwise(*op, v1.entries@, v2.entries@, final(self).entries@),
                Err(e) => e == SparseError::DimensionMismatch && v1.dim != v2.dim && *final(self)
                    == *old(self),
            },
    {
        if v1.dim != v2.dim {
            return Err(SparseError::DimensionMismatch);
        }
        let ghost s1 = v1.entries@;
        let ghost s2 = v2.entries@;
        let pairs = merge_entry_pairs(&v1.entries, &v2.entries);
        proof {
            lemma_merge_pairs_sorted(s1, s2);
        }
        let entries = apply_merge(&pairs, op);
        proof {
            lemma_combined_sorted(*op, pairs@, entries@);
            lemma_combined_from(*op, pairs@, entries@);
            assert forall|k: int| 0 <= k < entries@.len() implies (#[trigger] entries@[k]).index
                < v1.dim by {
                let j = choose|j: int| 0 <= j < pairs@.len() && entries@[k].index == pairs@[j].0;
                if contains_index(s1, pairs@[j].0) {
                    let i = choose|i: int| 0 <= i < s1.len() && s1[i].index == pairs@[j].0;
                } else {
                    let i = choose|i: int| 0 <= i < s2.len() && s2[i].index == pairs@[j].0;
                }
            }
            assert forall|idx: usize| #[trigger] merged_at(*op, s1, s2, entries@, idx) by {
                lemma_merge_pairs_lookup(s1, s2, idx);
                lemma_combined_lookup(*op, pairs@, entries@, idx);
            }
        }
        self.dim = v1.dim;
        self.entries = entries;
        Ok(())
    }

    /// `self = v1 + v2`, computed as a linear merge-scan with the given
    /// bitwise addition closure.  Fails, changing nothing, exactly when
    /// the dimensions disagree.
    pub fn add_vec<F: Fn(u64, u64) -> u64>(
        &mut self,
        v1: &Vector,
        v2: &Vector,
        op: &F,
    ) -> (res: Result<(), SparseError>)
        requires
            v1.wf(),
            v2.wf(),
            forall|x: u64, y: u64| #[trigger] call_requires(*op, (x, y)),
        ensures
            match res {
                Ok(()) => v1.dim == v2.dim && final(self).dim == v1.dim && final(self).wf()
                    && combined_rel(*op, merge_pairs(v1.entries@, v2.entries@), final(self).entries@)
                    && merged_pointwise(*op, v1.entries@, v2.entries@, final(self).entries@),
                Err(e) => e == SparseError::DimensionMismatch && v1.dim != v2.dim && *final(self)
                    == *old(self),
            },
    {
        self.binary_operation(v1, v2, op)
    }

    /// `self = v1 - v2`, computed as a linear merge-scan with the given
    /// bitwise subtraction closure.  Fails, changing nothing, exactly
    /// when the dimensions disagree.
    pub fn sub_vec<F: Fn(u64, u64) -> u64>(
        &mut self,
        v1: &Vector,
        v2: &Vector,
        op: &F,
    ) -> (res: Result<(), SparseError>)
        requires
            v1.wf(),
            v2.wf(),
            forall|x: u64, y: u64| #[trigger] call_requires(*op, (x, y)),
        ensures
            match res {
                Ok(()) => v1.dim == v2.dim && final(self).dim == v1.dim && final(self).wf()
                    && combined_rel(*op, merge_pairs(v1.entries@, v2.entries@), final(self).entries@)
                    && merged_pointwise(*op, v1.entries@, v2.entries@, final(self).entries@),
                Err(e) => e == SparseError::DimensionMismatch && v1.dim != v2.dim && *final(self)
                    == *old(self),
            },
    {
        self.binary_operation(v1, v2, op)
    }
}

/// How a scaled entry list arises from the input: each value is passed
/// to the multiplication closure together with the factor, and entries
/// whose product is a zero are dropped.
pub open spec fn scaled_rel<F: Fn(u64, u64) -> u64>(
    f: F,
    a: u64,
    s: Seq<Entry>,
    out: Seq<Entry>,
) -> bool
    decreases s.len(), 0int,
{
    if s.len() == 0 {
        out.len() == 0
    } else {
        exists|r: u64|
            #[trigger] call_ensures(f, (s.last().value, a), r) && scaled_step(
                f,
                a,
                s.drop_last(),
                out,
                s.last().index,
                r,
            )
    }
}

/// One step of `scaled_rel`: append the product, or drop a zero product.
pub open spec fn scaled_step<F: Fn(u64, u64) -> u64>(
    f: F,
    a: u64,
    rest: Seq<Entry>,
    out: Seq<Entry>,
    idx: usize,
    r: u64,
) -> bool
    decreases rest.len(), 1int,
{
    if is_zero_bits(r) {
        scaled_rel(f, a, rest, out)
    } else {
        out.len() > 0 && out.last() == (Entry { index: idx, value: r }) && scaled_rel(
            f,
            a,
            rest,
            out.drop_last(),
        )
    }
}

/// What a scaling stores at an index.
pub open spec fn scaled_at<F: Fn(u64, u64) -> u64>(
    f: F,
    a: u64,
    s: Seq<Entry>,
    out: Seq<Entry>,
    idx: usize,
) -> bool {
    match lookup(s, idx) {
        Some(x) => exists|r: u64|
            #[trigger] call_ensures(f, (x, a), r) && lookup(out, idx) == (if is_zero_bits(r) {
                None::<u64>
            } else {
                Some(r)
            }),
        None => lookup(out, idx) is None,
    }
}

/// Every output entry of a scaling takes its index from the input.
proof fn lemma_scaled_from<F: Fn(u64, u64) -> u64>(f: F, a: u64, s: Seq<Entry>, out: Seq<Entry>)
    requires
        scaled_rel(f, a, s, out),
    ensures
        forall|k: int|
            0 <= k < out.len() ==> exists|j: int|
                0 <= j < s.len() && (#[trigger] out[k]).index == s[j].index,
    decreases s.len(),
{
    if s.len() > 0 {
        let x = s.last().value;
        assert(exists|r: u64|
            #[trigger] call_ensures(f, (x, a), r) && scaled_step(f, a, s.drop_last(), out, s.last().index, r));
        let r = choose|r: u64|
            #[trigger] call_ensures(f, (x, a), r) && scaled_step(f, a, s.drop_last(), out, s.last().index, r);
        assert forall|k: int| 0 <= k < out.len() implies exists|j: int|
            0 <= j < s.len() && (#[trigger] out[k]).index == s[j].index by {
            if is_zero_bits(r) {
                lemma_scaled_from(f, a, s.drop_last(), out);
                let j = choose|j: int| 0 <= j < s.drop_last().len() && out[k].index == s.drop_last()[j].index;
                assert(s[j] == s.drop_last()[j]);
            } else {
                if k == out.len() - 1 {
                    assert(out[k].index == s[s.len() - 1].index);
                } else {
                    lemma_scaled_from(f, a, s.drop_last(), out.drop_last());
                    assert(out.drop_last()[k] == out[k]);
                    let j = choose|j: int| 0 <= j < s.drop_last().len() && out[k].index == s.drop_last()[j].index;
                    assert(s[j] == s.drop_last()[j]);
                }
            }
        }
    }
}

/// A scaling of a sorted entry list is itself strictly sorted, below the
/// last input index.
proof fn lemma_scaled_sorted<F: Fn(u64, u64) -> u64>(f: F, a: u64, s: Seq<Entry>, out: Seq<Entry>)
    requires
        scaled_rel(f, a, s, out),
        sorted_strict(s),
    ensures
        sorted_strict(out),
        out.len() > 0 ==> s.len() > 0 && out.last().index <= s.last().index,
    decreases s.len(),
{
    if s.len() > 0 {
        let x = s.last().value;
        assert(exists|r: u64|
            #[trigger] call_ensures(f, (x, a), r) && scaled_step(f, a, s.drop_last(), out, s.last().index, r));
        let r = choose|r: u64|
            #[trigger] call_ensures(f, (x, a), r) && scaled_step(f, a, s.drop_last(), out, s.last().index, r);
        if is_zero_bits(r) {
            lemma_scaled_sorted(f, a, s.drop_last(), out);
        } else {
            lemma_scaled_sorted(f, a, s.drop_last(), out.drop_last());
            lemma_scaled_from(f, a, s.drop_last(), out.drop_last());
            assert forall|i: int, j: int| 0 <= i < j < out.len() implies out[i].index
                < out[j].index by {
                if j < out.len() - 1 {
                    assert(out.drop_last()[i] == out[i]);
                    assert(out.drop_last()[j] == out[j]);
                } else {
                    assert(out.drop_last()[i] == out[i]);
                    let jj = choose|jj: int|
                        0 <= jj < s.drop_last().len() && out.drop_last()[i].index == s.drop_last()[jj].index;
                    assert(s[jj] == s.drop_last()[jj]);
                }
            }
        }
    }
}

/// What a scaling stores at each index, stated over `lookup`.
proof fn lemma_scaled_lookup<F: Fn(u64, u64) -> u64>(
    f: F,
    a: u64,
    s: Seq<Entry>,
    out: Seq<Entry>,
    idx: usize,
)
    requires
        scaled_rel(f, a, s, out),
        sorted_strict(s),
    ensures
        scaled_at(f, a, s, out, idx),
    decreases s.len(),
{
    if s.len() == 0 {
    } else {
        let x = s.last().value;
        assert(exists|r: u64|
            #[trigger] call_ensures(f, (x, a), r) && scaled_step(f, a, s.drop_last(), out, s.last().index, r));
        let r = choose|r: u64|
            #[trigger] call_ensures(f, (x, a), r) && scaled_step(f, a, s.drop_last(), out, s.last().index, r);
        if is_zero_bits(r) {
            if idx == s.last().index {
                lemma_scaled_sorted(f, a, s.drop_last(), out);
                lemma_scaled_from(f, a, s.drop_last(), out);
                if out.len() > 0 {
                    let jj = choose|jj: int|
                        0 <= jj < s.drop_last().len() && out.last().index == s.drop_last()[jj].index;
                    assert(s[jj] == s.drop_last()[jj]);
                }
                lemma_lookup_none_above(out, idx);
            } else {
                lemma_scaled_lookup(f, a, s.drop_last(), out, idx);
            }
        } else {
            if idx == s.last().index {
                assert(lookup(out, idx) == Some(r));
            } else {
                lemma_scaled_lookup(f, a, s.drop_last(), out.drop_last(), idx);
            }
        }
    }
}

impl Vector {
    /// `self = a * v1`, applying the multiplication closure to every
    /// entry and dropping products that are zeroes.  A NaN factor is
    /// rejected with `InvalidParameter` and changes nothing; a zero
    /// factor empties the vector outright, keeping the dimension.
    pub fn scale_vec<F: Fn(u64, u64) -> u64>(
        &mut self,
        a: u64,
        v1: &Vector,
        op: &F,
    ) -> (res: Result<(), SparseError>)
        requires
            v1.wf(),
            forall|x: u64, y: u64| #[trigger] call_requires(*op, (x, y)),
        ensures
            match res {
                Ok(()) => {
                    &&& !is_nan_bits(a)
                    &&& final(self).dim == v1.dim
                    &&& final(self).wf()
                    &&& is_zero_bits(a) ==> final(self).entries@.len() == 0
                    &&& !is_zero_bits(a) ==> scaled_rel(*op, a, v1.entries@, final(self).entries@)
                        && (forall|idx: usize| #[trigger] scaled_at(
                        *op,
                        a,
                        v1.entries@,
                        final(self).entries@,
                        idx,
                    ))
                },
                Err(e) => e == SparseError::InvalidParameter && is_nan_bits(a) && *final(self)
                    == *old(self),
            },
    {
        if exec_is_nan(a) {
            return Err(SparseError::InvalidParameter);
        }
        if exec_is_zero(a) {
            self.dim = v1.dim;
            self.entries = Vec::new();
            return Ok(());
        }
        let mut out: Vec<Entry> = Vec::new();
        let mut k: usize = 0;
        while k < v1.entries.len()
            invariant
                forall|x: u64, y: u64| #[trigger] call_requires(*op, (x, y)),
                0 <= k <= v1.entries@.len(),
                scaled_rel(*op, a, v1.entries@.take(k as int), out@),
            decreases v1.entries@.len() - k,
        {
            let ghost prev_in = v1.entries@.take(k as int);
            let ghost prev_out = out@;
            let e = v1.entries[k];
            let r = op(e.value, a);
            if !exec_is_zero(r) {
                out.push(Entry { index: e.index, value: r });
                proof {
                    assert(out@.drop_last() =~= prev_out);
                }
            }
            proof {
                assert(v1.entries@.take(k + 1).drop_last() =~= prev_in);
                assert(v1.entries@.take(k + 1).last() == e);
                assert(scaled_step(*op, a, prev_in, out@, e.index, r));
            }
            k += 1;
        }
        proof {
            assert(v1.entries@.take(v1.entries@.len() as int) =~= v1.entries@);
            lemma_scaled_sorted(*op, a, v1.entries@, out@);
            lemma_scaled_from(*op, a, v1.entries@, out@);
            assert forall|k2: int| 0 <= k2 < out@.len() implies (#[trigger] out@[k2]).index
                < v1.dim by {
                let j = choose|j: int| 0 <= j < v1.entries@.len() && out@[k2].index == v1.entries@[j].index;
            }
            assert forall|idx: usize| #[trigger] scaled_at(*op, a, v1.entries@, out@, idx) by {
                lemma_scaled_lookup(*op, a, v1.entries@, out@, idx);
            }
        }
        self.dim = v1.dim;
        self.entries = out;
        Ok(())
    }

    /// The plain (uncompensated) sum of the stored values, folded left
    /// to right through the addition closure from `+0.0`.
    pub fn sum<F: Fn(u64, u64) -> u64>(&self, add_op: &F) -> (r: u64)
        requires
            forall|x: u64, y: u64| #[trigger] call_requires(*add_op, (x, y)),
        ensures
            crate::util::fold_rel(*add_op, POS_ZERO, crate::entry::values_of(self.entries@), r),
    {
        let mut acc: u64 = crate::fbits::POS_ZERO;
        let mut k: usize = 0;
        while k < self.entries.len()
            invariant
                forall|x: u64, y: u64| #[trigger] call_requires(*add_op, (x, y)),
                0 <= k <= self.entries@.len(),
                crate::util::fold_rel(
                    *add_op,
                    POS_ZERO,
                    crate::entry::values_of(self.entries@.take(k as int)),
                    acc,
                ),
            decreases self.entries@.len() - k,
        {
            let ghost prev_in = self.entries@.take(k as int);
            let ghost prev_acc = acc;
            let e = self.entries[k];
            acc = add_op(acc, e.value);
            proof {
                assert(self.entries@.take(k + 1).drop_last() =~= prev_in);
                assert(self.entries@.take(k + 1).last() == e);
                assert(crate::entry::values_of(self.entries@.take(k + 1)).last() == e.value);
                assert(crate::entry::values_of(self.entries@.take(k + 1)).drop_last()
                    =~= crate::entry::values_of(prev_in));
                let ghost vnew = crate::entry::values_of(self.entries@.take(k + 1));
                crate::entry::lemma_values_of_len(self.entries@.take(k + 1));
                assert(crate::util::fold_rel(*add_op, POS_ZERO, vnew.drop_last(), prev_acc));
                assert(call_ensures(*add_op, (prev_acc, vnew.last()), acc));
                assert(crate::util::fold_rel(*add_op, POS_ZERO, vnew, acc));
            }
            k += 1;
        }
        proof {
            assert(self.entries@.take(self.entries@.len() as int) =~= self.entries@);
        }
        acc
    }
}

/// The compensated summation of the squares of the stored values: the
/// KBN state reached from `(+0.0, +0.0)` by absorbing each square, where
/// each square is an actual output of the multiplication closure on the
/// value with itself.
pub open spec fn sq_kbn_fold<
    FM: Fn(u64, u64) -> u64,
    FA: Fn(u64, u64) -> u64,
    FS: Fn(u64, u64) -> u64,
>(mul_op: FM, add_op: FA, sub_op: FS, s: Seq<Entry>, st: (u64, u64)) -> bool
    decreases s.len(),
{
    if s.len() == 0 {
        st == (POS_ZERO, POS_ZERO)
    } else {
        exists|prev: (u64, u64), q: u64|
            dot_step_trigger(prev, q) && sq_kbn_fold(mul_op, add_op, sub_op, s.drop_last(), prev)
                && call_ensures(mul_op, (s.last().value, s.last().value), q)
                && crate::util::kbn_step_rel(add_op, sub_op, prev, q, st)
    }
}

/// A marker that carries the two witnesses of one summation step; it is
/// the matching handle for the quantifiers of `sq_kbn_fold` and
/// `dot_fold`.
pub open spec fn dot_step_trigger(prev: (u64, u64), q: u64) -> bool {
    true
}

/// The Euclidean norm protocol: square and KBN-sum the values, close the
/// summation, and take the square root.
pub open spec fn norm2_rel<
    FM: Fn(u64, u64) -> u64,
    FA: Fn(u64, u64) -> u64,
    FS: Fn(u64, u64) -> u64,
    FQ: Fn(u64) -> u64,
>(mul_op: FM, add_op: FA, sub_op: FS, sqrt_op: FQ, s: Seq<Entry>, r: u64) -> bool {
    exists|a: u64, c: u64, tot: u64|
        sq_kbn_fold(mul_op, add_op, sub_op, s, (a, c)) && #[trigger] call_ensures(
            add_op,
            (a, c),
            tot,
        ) && call_ensures(sqrt_op, (tot,), r)
}

/// The dot-product fold along a structural merge: indices present on
/// both sides contribute the product of their values to a compensated
/// sum; one-sided indices contribute nothing.
pub open spec fn dot_fold<
    FM: Fn(u64, u64) -> u64,
    FA: Fn(u64, u64) -> u64,
    FS: Fn(u64, u64) -> u64,
>(mul_op: FM, add_op: FA, sub_op: FS, pairs: Seq<MergedPair>, st: (u64, u64)) -> bool
    decreases pairs.len(),
{
    if pairs.len() == 0 {
        st == (POS_ZERO, POS_ZERO)
    } else if pairs.last().1 is Some && pairs.last().2 is Some {
        exists|prev: (u64, u64), q: u64|
            dot_step_trigger(prev, q) && dot_fold(mul_op, add_op, sub_op, pairs.drop_last(), prev)
                && call_ensures(mul_op, (pairs.last().1.unwrap(), pairs.last().2.unwrap()), q)
                && crate::util::kbn_step_rel(add_op, sub_op, prev, q, st)
    } else {
        dot_fold(mul_op, add_op, sub_op, pairs.drop_last(), st)
    }
}

/// The inner-product protocol: fold the overlap products through the
/// compensated sum and close the summation.
pub open spec fn dot_rel<
    FM: Fn(u64, u64) -> u64,
    FA: Fn(u64, u64) -> u64,
    FS: Fn(u64, u64) -> u64,
>(mul_op: FM, add_op: FA, sub_op: FS, s1: Seq<Entry>, s2: Seq<Entry>, r: u64) -> bool {
    exists|a: u64, c: u64|
        dot_fold(mul_op, add_op, sub_op, merge_pairs(s1, s2), (a, c)) && #[trigger] call_ensures(
            add_op,
            (a, c),
            r,
        )
}

impl Vector {
    /// The Euclidean norm of the stored values: their squares are summed
    /// with Kahan-Babushka-Neumaier compensation and the square root of
    /// the compensated total is returned.
    pub fn norm2<
        FM: Fn(u64, u64) -> u64,
        FA: Fn(u64, u64) -> u64,
        FS: Fn(u64, u64) -> u64,
        FQ: Fn(u64) -> u64,
    >(&self, mul_op: &FM, add_op: &FA, sub_op: &FS, sqrt_op: &FQ) -> (r: u64)
        requires
            forall|x: u64, y: u64| #[trigger] call_requires(*mul_op, (x, y)),
            forall|x: u64, y: u64| #[trigger] call_requires(*add_op, (x, y)),
            forall|x: u64, y: u64| #[trigger] call_requires(*sub_op, (x, y)),
            forall|x: u64| #[trigger] call_requires(*sqrt_op, (x,)),
        ensures
            self.entries@.len() > 0 ==> norm2_rel(
                *mul_op,
                *add_op,
                *sub_op,
                *sqrt_op,
                self.entries@,
                r,
            ),
            self.entries@.len() == 0 ==> r == POS_ZERO,
    {
        if self.entries.is_empty() {
            // an empty vector's norm is exactly zero: summing no squares
            // gives +0.0 and its square root is +0.0 again
            return crate::fbits::POS_ZERO;
        }
        let mut summer = crate::util::KBNSummer::new();
        let mut k: usize = 0;
        while k < self.entries.len()
            invariant
                forall|x: u64, y: u64| #[trigger] call_requires(*mul_op, (x, y)),
                forall|x: u64, y: u64| #[trigger] call_requires(*add_op, (x, y)),
                forall|x: u64, y: u64| #[trigger] call_requires(*sub_op, (x, y)),
                forall|x: u64| #[trigger] call_requires(*sqrt_op, (x,)),
                0 <= k <= self.entries@.len(),
                sq_kbn_fold(
                    *mul_op,
                    *add_op,
                    *sub_op,
                    self.entries@.take(k as int),
                    (summer.sum, summer.compensation),
                ),
            decreases self.entries@.len() - k,
        {
            let ghost prev_in = self.entries@.take(k as int);
            let ghost prev_st = (summer.sum, summer.compensation);
            let e = self.entries[k];
            let q = mul_op(e.value, e.value);
            summer.add(q, add_op, sub_op);
            proof {
                assert(self.entries@.take(k + 1).drop_last() =~= prev_in);
                assert(self.entries@.take(k + 1).last() == e);
                assert(dot_step_trigger(prev_st, q));
                assert(crate::util::kbn_step_rel(
                    *add_op,
                    *sub_op,
                    prev_st,
                    q,
                    (summer.sum, summer.compensation),
                ));
            }
            k += 1;
        }
        proof {
            assert(self.entries@.take(self.entries@.len() as int) =~= self.entries@);
        }
        let tot = summer.sum(add_op);
        let r = sqrt_op(tot);
        proof {
            assert(sq_kbn_fold(
                *mul_op,
                *add_op,
                *sub_op,
                self.entries@,
                (summer.sum, summer.compensation),
            ));
            assert(call_ensures(*add_op, (summer.sum, summer.compensation), tot));
            assert(call_ensures(*sqrt_op, (tot,), r));
        }
        r
    }
}

/// The inner product of two sorted vectors: only overlapping indices
/// contribute, each the product of the two stored values, summed with
/// compensation in ascending index order.
pub fn vec_dot<
    FM: Fn(u64, u64) -> u64,
    FA: Fn(u64, u64) -> u64,
    FS: Fn(u64, u64) -> u64,
>(v1: &Vector, v2: &Vector, mul_op: &FM, add_op: &FA, sub_op: &FS) -> (r: u64)
    requires
        sorted_strict(v1.entries@),
        sorted_strict(v2.entries@),
        forall|x: u64, y: u64| #[trigger] call_requires(*mul_op, (x, y)),
        forall|x: u64, y: u64| #[trigger] call_requires(*add_op, (x, y)),
        forall|x: u64, y: u64| #[trigger] call_requires(*sub_op, (x, y)),
    ensures
        dot_rel(*mul_op, *add_op, *sub_op, v1.entries@, v2.entries@, r),
{
    let a = &v1.entries;
    let b = &v2.entries;
    let mut summer = crate::util::KBNSummer::new();
    let mut i1: usize = 0;
    let mut i2: usize = 0;
    while i1 < a.len() || i2 < b.len()
        invariant
            forall|x: u64, y: u64| #[trigger] call_requires(*mul_op, (x, y)),
            forall|x: u64, y: u64| #[trigger] call_requires(*add_op, (x, y)),
            forall|x: u64, y: u64| #[trigger] call_requires(*sub_op, (x, y)),
            sorted_strict(a@),
            sorted_strict(b@),
            0 <= i1 <= a@.len(),
            0 <= i2 <= b@.len(),
            dot_fold(
                *mul_op,
                *add_op,
                *sub_op,
                merge_pairs(a@.take(i1 as int), b@.take(i2 as int)),
                (summer.sum, summer.compensation),
            ),
            i1 > 0 && i2 < b@.len() ==> a@[i1 - 1].index < b@[i2 as int].index,
            i2 > 0 && i1 < a@.len() ==> b@[i2 - 1].index < a@[i1 as int].index,
        decreases a@.len() + b@.len() - i1 - i2,
    {
        let ghost p1 = a@.take(i1 as int);
        let ghost p2 = b@.take(i2 as int);
        let ghost pairs_pre = merge_pairs(p1, p2);
        if i2 >= b.len() || (i1 < a.len() && a[i1].index < b[i2].index) {
            proof {
                assert(a@.take(i1 + 1).drop_last() =~= p1);
                assert(a@.take(i1 + 1).last() == a@[i1 as int]);
                assert(merge_pairs(a@.take(i1 + 1), p2).drop_last() =~= pairs_pre);
            }
            i1 += 1;
        } else if i1 >= a.len() || b[i2].index < a[i1].index {
            proof {
                assert(b@.take(i2 + 1).drop_last() =~= p2);
                assert(b@.take(i2 + 1).last() == b@[i2 as int]);
                assert(merge_pairs(p1, b@.take(i2 + 1)).drop_last() =~= pairs_pre);
            }
            i2 += 1;
        } else {
            let e1 = a[i1];
            let e2 = b[i2];
            let ghost prev_st = (summer.sum, summer.compensation);
            let q = mul_op(e1.value, e2.value);
            summer.add(q, add_op, sub_op);
            proof {
                assert(a@.take(i1 + 1).drop_last() =~= p1);
                assert(b@.take(i2 + 1).drop_last() =~= p2);
                assert(a@.take(i1 + 1).last() == e1);
                assert(b@.take(i2 + 1).last() == e2);
                assert(merge_pairs(a@.take(i1 + 1), b@.take(i2 + 1)).drop_last() =~= pairs_pre);
                assert(dot_step_trigger(prev_st, q));
                assert(crate::util::kbn_step_rel(
                    *add_op,
                    *sub_op,
                    prev_st,
                    q,
                    (summer.sum, summer.compensation),
                ));
            }
            i1 += 1;
            i2 += 1;
        }
    }
    proof {
        assert(a@.take(a@.len() as int) =~= a@);
        assert(b@.take(b@.len() as int) =~= b@);
    }
    let r = summer.sum(add_op);
    r
}

/// What the matrix-vector product stores for each output row: the dot
/// product of that matrix row with the vector, with zero products
/// omitted, and nothing outside the row range.
pub open spec fn mul_at<
    FM: Fn(u64, u64) -> u64,
    FA: Fn(u64, u64) -> u64,
    FS: Fn(u64, u64) -> u64,
>(
    mul_op: FM,
    add_op: FA,
    sub_op: FS,
    rows: Seq<Seq<Entry>>,
    v: Seq<Entry>,
    out: Seq<Entry>,
    r: usize,
) -> bool {
    if r < rows.len() {
        exists|p: u64|
            #[trigger] dot_rel(mul_op, add_op, sub_op, rows[r as int], v, p) && lookup(out, r) == (
            if is_zero_bits(p) {
                None::<u64>
            } else {
                Some(p)
            })
    } else {
        lookup(out, r) is None
    }
}

impl Vector {
    /// `self = m * v1`: each output row gets the dot product of the
    /// corresponding matrix row with `v1`, zero products omitted, in
    /// ascending row order.  Fails, changing nothing, exactly when the
    /// matrix is not square or its dimension disagrees with `v1`.
    pub fn mul_vec<
        FM: Fn(u64, u64) -> u64,
        FA: Fn(u64, u64) -> u64,
        FS: Fn(u64, u64) -> u64,
    >(
        &mut self,
        m: &crate::matrix::CSRMatrix,
        v1: &Vector,
        mul_op: &FM,
        add_op: &FA,
        sub_op: &FS,
    ) -> (res: Result<(), SparseError>)
        requires
            m.cs_matrix.wf(),
            v1.wf(),
            forall|x: u64, y: u64| #[trigger] call_requires(*mul_op, (x, y)),
            forall|x: u64, y: u64| #[trigger] call_requires(*add_op, (x, y)),
            forall|x: u64, y: u64| #[trigger] call_requires(*sub_op, (x, y)),
        ensures
            match res {
                Ok(()) => {
                    &&& m.cs_matrix.major_dim == m.cs_matrix.minor_dim
                    &&& m.cs_matrix.major_dim == v1.dim
                    &&& final(self).dim == v1.dim
                    &&& final(self).wf()
                    &&& forall|r: usize| #[trigger] mul_at(
                        *mul_op,
                        *add_op,
                        *sub_op,
                        m.cs_matrix.rows(),
                        v1.entries@,
                        final(self).entries@,
                        r,
                    )
                },
                Err(e) => e == SparseError::DimensionMismatch && (m.cs_matrix.major_dim
                    != m.cs_matrix.minor_dim || m.cs_matrix.major_dim != v1.dim) && *final(self)
                    == *old(self),
            },
    {
        let dim = match m.cs_matrix.dim() {
            Ok(d) => d,
            Err(e) => {
                return Err(e);
            },
        };
        if dim != v1.dim {
            return Err(SparseError::DimensionMismatch);
        }
        let ghost rows = m.cs_matrix.rows();
        let mut out: Vec<Entry> = Vec::new();
        let mut r: usize = 0;
        while r < dim
            invariant
                m.cs_matrix.wf(),
                v1.wf(),
                forall|x: u64, y: u64| #[trigger] call_requires(*mul_op, (x, y)),
                forall|x: u64, y: u64| #[trigger] call_requires(*add_op, (x, y)),
                forall|x: u64, y: u64| #[trigger] call_requires(*sub_op, (x, y)),
                rows == m.cs_matrix.rows(),
                dim == m.cs_matrix.major_dim,
                dim == m.cs_matrix.minor_dim,
                dim == v1.dim,
                0 <= r <= dim,
                sorted_strict(out@),
                indices_below(out@, r as nat),
                forall|rr: usize|
                    rr < r ==> #[trigger] mul_at(
                        *mul_op,
                        *add_op,
                        *sub_op,
                        rows,
                        v1.entries@,
                        out@,
                        rr,
                    ),
            decreases dim - r,
        {
            let rv = m.row_vector(r);
            let product = vec_dot(&rv, v1, mul_op, add_op, sub_op);
            let ghost pre = out@;
            if !crate::fbits::exec_is_zero(product) {
                out.push(Entry { index: r, value: product });
                proof {
                    assert(out@.drop_last() =~= pre);
                }
            }
            proof {
                assert(dot_rel(*mul_op, *add_op, *sub_op, rows[r as int], v1.entries@, product));
                if is_zero_bits(product) {
                    lemma_lookup_none_above(out@, r);
                }
                assert(lookup(out@, r) == (if is_zero_bits(product) {
                    None::<u64>
                } else {
                    Some(product)
                }));
                assert forall|rr: usize| rr < r + 1 implies #[trigger] mul_at(
                    *mul_op,
                    *add_op,
                    *sub_op,
                    rows,
                    v1.entries@,
                    out@,
                    rr,
                ) by {
                    if rr < r {
                        assert(mul_at(*mul_op, *add_op, *sub_op, rows, v1.entries@, pre, rr));
                        assert(lookup(out@, rr) == lookup(pre, rr));
                    }
                }
            }
            r += 1;
        }
        proof {
            assert forall|rr: usize| rr >= dim implies lookup(out@, rr) is None by {
                lemma_lookup_none_above(out@, rr);
            }
        }
        self.dim = dim;
        self.entries = out;
        Ok(())
    }
}

/// The closure computes a function: equal arguments give equal results.
pub open spec fn deterministic2<F: Fn(u64, u64) -> u64>(f: F) -> bool {
    forall|x: u64, y: u64, r1: u64, r2: u64|
        #![trigger call_ensures(f, (x, y), r1), call_ensures(f, (x, y), r2)]
        call_ensures(f, (x, y), r1) && call_ensures(f, (x, y), r2) ==> r1 == r2
}

/// The closure's outcomes do not depend on argument order.
pub open spec fn commutative2<F: Fn(u64, u64) -> u64>(f: F) -> bool {
    forall|x: u64, y: u64, r: u64|
        #[trigger] call_ensures(f, (x, y), r) ==> call_ensures(f, (y, x), r)
}

/// The merge with its sides exchanged.
pub open spec fn flip_pairs(ps: Seq<MergedPair>) -> Seq<MergedPair>
    decreases ps.len(),
{
    if ps.len() == 0 {
        Seq::empty()
    } else {
        flip_pairs(ps.drop_last()).push((ps.last().0, ps.last().2, ps.last().1))
    }
}

/// Merging in the opposite order flips each pair.
proof fn lemma_merge_pairs_flip(s1: Seq<Entry>, s2: Seq<Entry>)
    ensures
        merge_pairs(s2, s1) == flip_pairs(merge_pairs(s1, s2)),
    decreases s1.len() + s2.len(),
{
    if s1.len() == 0 && s2.len() == 0 {
        assert(merge_pairs(s2, s1) =~= flip_pairs(merge_pairs(s1, s2)));
    } else if s2.len() == 0 || (s1.len() > 0 && s1.last().index > s2.last().index) {
        lemma_merge_pairs_flip(s1.drop_last(), s2);
        assert(merge_pairs(s1, s2).drop_last() =~= merge_pairs(s1.drop_last(), s2));
        assert(merge_pairs(s2, s1) =~= flip_pairs(merge_pairs(s1, s2)));
    } else if s1.len() == 0 || s2.last().index > s1.last().index {
        lemma_merge_pairs_flip(s1, s2.drop_last());
        assert(merge_pairs(s1, s2).drop_last() =~= merge_pairs(s1, s2.drop_last()));
        assert(merge_pairs(s2, s1) =~= flip_pairs(merge_pairs(s1, s2)));
    } else {
        lemma_merge_pairs_flip(s1.drop_last(), s2.drop_last());
        assert(merge_pairs(s1, s2).drop_last() =~= merge_pairs(s1.drop_last(), s2.drop_last()));
        assert(merge_pairs(s2, s1) =~= flip_pairs(merge_pairs(s1, s2)));
    }
}

/// A compensated step is a function of its inputs when the closures are.
proof fn lemma_kbn_step_det<FA: Fn(u64, u64) -> u64, FS: Fn(u64, u64) -> u64>(
    add_op: FA,
    sub_op: FS,
    s0: (u64, u64),
    x: u64,
    s1: (u64, u64),
    s1b: (u64, u64),
)
    requires
        deterministic2(add_op),
        deterministic2(sub_op),
        crate::util::kbn_step_rel(add_op, sub_op, s0, x, s1),
        crate::util::kbn_step_rel(add_op, sub_op, s0, x, s1b),
    ensures
        s1 == s1b,
{
    let more = crate::util::kbn_more(s0.0, x);
    let less = crate::util::kbn_less(s0.0, x);
    let t = choose|t: u64|
        #[trigger] call_ensures(add_op, (s0.0, x), t) && s1.0 == t && exists|tr: u64|
            #[trigger] call_ensures(sub_op, (t, more), tr) && exists|e: u64|
                #[trigger] call_ensures(sub_op, (less, tr), e) && call_ensures(
                    add_op,
                    (s0.1, e),
                    s1.1,
                );
    let tb = choose|t2: u64|
        #[trigger] call_ensures(add_op, (s0.0, x), t2) && s1b.0 == t2 && exists|tr: u64|
            #[trigger] call_ensures(sub_op, (t2, more), tr) && exists|e: u64|
                #[trigger] call_ensures(sub_op, (less, tr), e) && call_ensures(
                    add_op,
                    (s0.1, e),
                    s1b.1,
                );
    assert(t == tb);
    let tr = choose|tr: u64|
        #[trigger] call_ensures(sub_op, (t, more), tr) && exists|e: u64|
            #[trigger] call_ensures(sub_op, (less, tr), e) && call_ensures(
                add_op,
                (s0.1, e),
                s1.1,
            );
    let trb = choose|tr2: u64|
        #[trigger] call_ensures(sub_op, (t, more), tr2) && exists|e: u64|
            #[trigger] call_ensures(sub_op, (less, tr2), e) && call_ensures(
                add_op,
                (s0.1, e),
                s1b.1,
            );
    assert(tr == trb);
    let e = choose|e: u64|
        #[trigger] call_ensures(sub_op, (less, tr), e) && call_ensures(add_op, (s0.1, e), s1.1);
    let eb = choose|e2: u64|
        #[trigger] call_ensures(sub_op, (less, tr), e2) && call_ensures(add_op, (s0.1, e2), s1b.1);
    assert(e == eb);
    assert(s1.1 == s1b.1);
}

/// The dot fold over the flipped merge reaches the same state when the
/// multiplication commutes and all closures compute functions.
proof fn lemma_dot_fold_flip_det<
    FM: Fn(u64, u64) -> u64,
    FA: Fn(u64, u64) -> u64,
    FS: Fn(u64, u64) -> u64,
>(
    mul_op: FM,
    add_op: FA,
    sub_op: FS,
    pairs: Seq<MergedPair>,
    st: (u64, u64),
    stb: (u64, u64),
)
    requires
        commutative2(mul_op),
        deterministic2(mul_op),
        deterministic2(add_op),
        deterministic2(sub_op),
        dot_fold(mul_op, add_op, sub_op, pairs, st),
        dot_fold(mul_op, add_op, sub_op, flip_pairs(pairs), stb),
    ensures
        st == stb,
    decreases pairs.len(),
{
    let fl = flip_pairs(pairs);
    if pairs.len() == 0 {
    } else {
        assert(fl.drop_last() =~= flip_pairs(pairs.drop_last()));
        assert(fl.last() == (pairs.last().0, pairs.last().2, pairs.last().1));
        let p = pairs.last();
        if p.1 is Some && p.2 is Some {
            let x = p.1.unwrap();
            let y = p.2.unwrap();
            let (prev, q) = choose|prev: (u64, u64), q: u64|
                #[trigger] dot_step_trigger(prev, q) && dot_fold(
                    mul_op,
                    add_op,
                    sub_op,
                    pairs.drop_last(),
                    prev,
                ) && call_ensures(mul_op, (x, y), q) && crate::util::kbn_step_rel(
                    add_op,
                    sub_op,
                    prev,
                    q,
                    st,
                );
            let (prevb, qb) = choose|prevb: (u64, u64), qb: u64|
                #[trigger] dot_step_trigger(prevb, qb) && dot_fold(
                    mul_op,
                    add_op,
                    sub_op,
                    fl.drop_last(),
                    prevb,
                ) && call_ensures(mul_op, (y, x), qb) && crate::util::kbn_step_rel(
                    add_op,
                    sub_op,
                    prevb,
                    qb,
                    stb,
                );
            assert(call_ensures(mul_op, (x, y), qb));
            assert(q == qb);
            lemma_dot_fold_flip_det(mul_op, add_op, sub_op, pairs.drop_last(), prev, prevb);
            lemma_kbn_step_det(add_op, sub_op, prev, q, st, stb);
        } else {
            lemma_dot_fold_flip_det(mul_op, add_op, sub_op, pairs.drop_last(), st, stb);
        }
    }
}

/// Dot-product symmetry: with a commutative multiplication and closures
/// that compute functions, the inner product of two sorted vectors does
/// not depend on the order of its arguments — the overlap is walked in
/// the same index order either way, each product commutes, and the
/// compensated summation is a function of that product sequence.
pub proof fn lemma_dot_symmetry<
    FM: Fn(u64, u64) -> u64,
    FA: Fn(u64, u64) -> u64,
    FS: Fn(u64, u64) -> u64,
>(
    mul_op: FM,
    add_op: FA,
    sub_op: FS,
    s1: Seq<Entry>,
    s2: Seq<Entry>,
    r1: u64,
    r2: u64,
)
    requires
        commutative2(mul_op),
        deterministic2(mul_op),
        deterministic2(add_op),
        deterministic2(sub_op),
        dot_rel(mul_op, add_op, sub_op, s1, s2, r1),
        dot_rel(mul_op, add_op, sub_op, s2, s1, r2),
    ensures
        r1 == r2,
{
    let (a1, c1) = choose|a: u64, c: u64|
        dot_fold(mul_op, add_op, sub_op, merge_pairs(s1, s2), (a, c)) && #[trigger] call_ensures(
            add_op,
            (a, c),
            r1,
        );
    let (a2, c2) = choose|a: u64, c: u64|
        dot_fold(mul_op, add_op, sub_op, merge_pairs(s2, s1), (a, c)) && #[trigger] call_ensures(
            add_op,
            (a, c),
            r2,
        );
    lemma_merge_pairs_flip(s1, s2);
    lemma_dot_fold_flip_det(mul_op, add_op, sub_op, merge_pairs(s1, s2), (a1, c1), (a2, c2));
}

/// A fresh copy of an entry list.
pub fn copy_entries(entries: &Vec<Entry>) -> (r: Vec<Entry>)
    ensures
        r@ == entries@,
{
    let mut out: Vec<Entry> = Vec::new();
    let mut k: usize = 0;
    while k < entries.len()
        invariant
            0 <= k <= entries.len(),
            out@ == entries@.take(k as int),
        decreases entries.len() - k,
    {
        out.push(entries[k]);
        proof {
            assert(out@ =~= entries@.take(k + 1));
        }
        k += 1;
    }
    proof {
        assert(out@ =~= entries@);
    }
    out
}

} // verus!
