//! Preprocessing of local-trust matrices: row canonicalization (each row
//! rescaled to sum to one, with the pretrust vector standing in for
//! zero-sum rows) and distrust extraction (negative entries split off,
//! as absolute values, into a matrix of their own).

use vstd::prelude::*;
use crate::entry::Entry;
use crate::entry::indices_below;
use crate::entry::sorted_strict;
use crate::entry::values_of;
use crate::fbits::POS_ZERO;
use crate::fbits::f64_key;
use crate::fbits::is_nan_bits;
use crate::fbits::is_zero_bits;
use crate::fbits::neg_bits;
use crate::util::fold_rel;
use crate::vector::Vector;
use crate::vector::copy_entries;
use crate::matrix::CSRMatrix;
use crate::solver::divided_rel;
use crate::errors::SparseError;

verus! {

/// Non-negative in the floating-point order: not NaN and not below zero.
pub open spec fn ge_zero_bits(v: u64) -> bool {
    !is_nan_bits(v) && f64_key(v) >= 0
}

/// Keep the entries passing the filter, each transformed by the given
/// index-preserving map, in order.
pub open spec fn sieve(
    s: Seq<Entry>,
    keep: spec_fn(Entry) -> bool,
    f: spec_fn(Entry) -> Entry,
) -> Seq<Entry>
    decreases s.len(),
{
    if s.len() == 0 {
        Seq::empty()
    } else if keep(s.last()) {
        sieve(s.drop_last(), keep, f).push(f(s.last()))
    } else {
        sieve(s.drop_last(), keep, f)
    }
}

/// Every sieved entry's index occurs in the input.
pub proof fn lemma_sieve_members(s: Seq<Entry>, keep: spec_fn(Entry) -> bool, f: spec_fn(Entry) -> Entry)
    requires
        forall|e: Entry| (#[trigger] f(e)).index == e.index,
    ensures
        forall|k: int|
            0 <= k < sieve(s, keep, f).len() ==> exists|j: int|
                0 <= j < s.len() && s[j].index == (#[trigger] sieve(s, keep, f)[k]).index,
    decreases s.len(),
{
    if s.len() > 0 {
        lemma_sieve_members(s.drop_last(), keep, f);
        let out = sieve(s, keep, f);
        let prev = sieve(s.drop_last(), keep, f);
        assert forall|k: int| 0 <= k < out.len() implies exists|j: int|
            0 <= j < s.len() && s[j].index == (#[trigger] out[k]).index by {
            if keep(s.last()) && k == out.len() - 1 {
                assert(s[s.len() - 1].index == out[k].index);
            } else {
                assert(out[k] == prev[k]);
                let j = choose|j: int|
                    0 <= j < s.drop_last().len() && s.drop_last()[j].index == prev[k].index;
                assert(s[j].index == prev[k].index);
            }
        }
    }
}

/// Sieving a sorted row leaves it sorted, with its indices intact.
pub proof fn lemma_sieve_sorted(s: Seq<Entry>, keep: spec_fn(Entry) -> bool, f: spec_fn(Entry) -> Entry, dim: nat)
    requires
        sorted_strict(s),
        indices_below(s, dim),
        forall|e: Entry| (#[trigger] f(e)).index == e.index,
    ensures
        sorted_strict(sieve(s, keep, f)),
        indices_below(sieve(s, keep, f), dim),
    decreases s.len(),
{
    if s.len() > 0 {
        lemma_sieve_sorted(s.drop_last(), keep, f, dim);
        lemma_sieve_members(s.drop_last(), keep, f);
        let out = sieve(s, keep, f);
        let prev = sieve(s.drop_last(), keep, f);
        if keep(s.last()) {
            assert(out.drop_last() =~= prev);
            assert forall|a: int, b: int| 0 <= a < b < out.len() implies out[a].index
                < out[b].index by {
                assert(out[a] == prev[a]);
                if b < out.len() - 1 {
                    assert(out[b] == prev[b]);
                } else {
                    let j = choose|j: int|
                        0 <= j < s.drop_last().len() && s.drop_last()[j].index == prev[a].index;
                    assert(s[j].index == prev[a].index);
                    assert(out[b] == f(s.last()));
                }
            }
            assert(indices_below(out, dim)) by {
                assert(f(s.last()).index == s.last().index);
            }
        }
    }
}

/// The trust that stays after extraction: the non-negative entries.
pub open spec fn nonneg_part(s: Seq<Entry>) -> Seq<Entry> {
    sieve(s, |e: Entry| ge_zero_bits(e.value), |e: Entry| e)
}

/// The distrust extracted from a row: the negative entries, negated.
pub open spec fn distrust_part(s: Seq<Entry>) -> Seq<Entry> {
    sieve(
        s,
        |e: Entry| !ge_zero_bits(e.value),
        |e: Entry| Entry { index: e.index, value: neg_bits(e.value) },
    )
}

/// Whether a row was canonicalized against the given pretrust fallback:
/// its plain value sum was computed; a zero sum replaced the row by the
/// fallback (or left it alone without one), any other sum divided every
/// value.
pub open spec fn canonical_row_at<FA: Fn(u64, u64) -> u64, FD: Fn(u64, u64) -> u64>(
    add_op: FA,
    div_op: FD,
    pre: Option<Seq<Entry>>,
    old_row: Seq<Entry>,
    new_row: Seq<Entry>,
) -> bool {
    exists|total: u64|
        #[trigger] fold_rel(add_op, POS_ZERO, values_of(old_row), total) && (if is_zero_bits(
            total,
        ) {
            match pre {
                Some(pe) => new_row == pe,
                None => new_row == old_row,
            }
        } else {
            divided_rel(div_op, total, old_row, new_row)
        })
}

/// Canonicalize every row of a local-trust matrix: each row is rescaled
/// to sum to one, and rows that sum to zero are replaced in full by the
/// pretrust entries (or kept when no pretrust is given).  A pretrust
/// vector with more stored entries than the matrix has rows is refused.
pub fn canonicalize_local_trust<FA: Fn(u64, u64) -> u64, FD: Fn(u64, u64) -> u64>(
    local_trust: &mut CSRMatrix,
    pre_trust: Option<Vector>,
    add_op: &FA,
    div_op: &FD,
) -> (res: Result<(), SparseError>)
    requires
        forall|x: u64, y: u64| #[trigger] call_requires(*add_op, (x, y)),
        forall|x: u64, y: u64| #[trigger] call_requires(*div_op, (x, y)),
        old(local_trust).cs_matrix.entries@.len() == old(local_trust).cs_matrix.major_dim,
    ensures
        match res {
            Ok(()) => {
                &&& final(local_trust).cs_matrix.major_dim == old(local_trust).cs_matrix.major_dim
                &&& final(local_trust).cs_matrix.minor_dim == old(local_trust).cs_matrix.minor_dim
                &&& final(local_trust).cs_matrix.entries@.len() == old(
                    local_trust,
                ).cs_matrix.entries@.len()
                &&& forall|i: int|
                    0 <= i < old(local_trust).cs_matrix.entries@.len()
                        ==> canonical_row_at(
                        *add_op,
                        *div_op,
                        (match pre_trust {
                            Some(v) => Some(v.entries@),
                            None => None,
                        }),
                        old(local_trust).cs_matrix.entries@[i]@,
                        (#[trigger] final(local_trust).cs_matrix.entries@[i])@,
                    )
                &&& (match pre_trust {
                    Some(v) => v.entries@.len() <= old(local_trust).cs_matrix.major_dim,
                    None => true,
                })
            },
            Err(e) => {
                &&& e == SparseError::DimensionMismatch
                &&& *final(local_trust) == *old(local_trust)
                &&& (match pre_trust {
                    Some(v) => v.entries@.len() > old(local_trust).cs_matrix.major_dim,
                    None => false,
                })
            },
        },
{
    let n = local_trust.dims().0;
    match &pre_trust {
        Some(pre_trust_vec) => {
            if pre_trust_vec.entries.len() > n {
                return Err(SparseError::DimensionMismatch);
            }
        },
        None => {},
    }
    let ghost old_rows = local_trust.cs_matrix.entries@;
    let ghost pre_spec: Option<Seq<Entry>> = match &pre_trust {
        Some(v) => Some(v.entries@),
        None => None,
    };
    let mut i: usize = 0;
    while i < n
        invariant
            forall|x: u64, y: u64| #[trigger] call_requires(*add_op, (x, y)),
            forall|x: u64, y: u64| #[trigger] call_requires(*div_op, (x, y)),
            0 <= i <= n,
            n == local_trust.cs_matrix.major_dim,
            local_trust.cs_matrix.major_dim == old(local_trust).cs_matrix.major_dim,
            local_trust.cs_matrix.minor_dim == old(local_trust).cs_matrix.minor_dim,
            local_trust.cs_matrix.entries@.len() == old_rows.len(),
            old_rows == old(local_trust).cs_matrix.entries@,
            old_rows.len() == n,
            pre_spec == (match pre_trust {
                Some(v) => Some(v.entries@),
                None => None,
            }),
            forall|k: int|
                0 <= k < i ==> canonical_row_at(
                    *add_op,
                    *div_op,
                    pre_spec,
                    old_rows[k]@,
                    (#[trigger] local_trust.cs_matrix.entries@[k])@,
                ),
            forall|k: int|
                i <= k < n ==> #[trigger] local_trust.cs_matrix.entries@[k] == old_rows[k],
        decreases n - i,
    {
        let mut row_entries = copy_entries(&local_trust.cs_matrix.entries[i]);
        let ghost old_row = old_rows[i as int]@;
        match crate::solver::canonicalize(&mut row_entries, add_op, div_op) {
            Ok(()) => {
                let dim = local_trust.cs_matrix.minor_dim;
                local_trust.set_row_vector(i, Vector { dim, entries: row_entries });
                proof {
                    assert(canonical_row_at(
                        *add_op,
                        *div_op,
                        pre_spec,
                        old_row,
                        local_trust.cs_matrix.entries@[i as int]@,
                    ));
                }
            },
            Err(_) => {
                match &pre_trust {
                    Some(pre_trust_vec) => {
                        let dim = local_trust.cs_matrix.minor_dim;
                        let replacement = copy_entries(&pre_trust_vec.entries);
                        local_trust.set_row_vector(i, Vector { dim, entries: replacement });
                    },
                    None => {},
                }
                proof {
                    assert(canonical_row_at(
                        *add_op,
                        *div_op,
                        pre_spec,
                        old_row,
                        local_trust.cs_matrix.entries@[i as int]@,
                    ));
                }
            },
        }
        i += 1;
    }
    Ok(())
}

/// Split the negative entries out of a local-trust matrix: each row
/// keeps its non-negative entries, and a distrust matrix of the same
/// shape collects the dropped entries with their signs flipped.
pub fn extract_distrust(local_trust: &mut CSRMatrix) -> (res: Result<CSRMatrix, SparseError>)
    requires
        old(local_trust).cs_matrix.entries@.len() == old(local_trust).cs_matrix.major_dim,
    ensures
        match res {
            Ok(distrust) => {
                &&& final(local_trust).cs_matrix.major_dim == old(local_trust).cs_matrix.major_dim
                &&& final(local_trust).cs_matrix.minor_dim == old(local_trust).cs_matrix.minor_dim
                &&& final(local_trust).cs_matrix.entries@.len() == old(
                    local_trust,
                ).cs_matrix.entries@.len()
                &&& distrust.cs_matrix.major_dim == old(local_trust).cs_matrix.major_dim
                &&& distrust.cs_matrix.minor_dim == old(local_trust).cs_matrix.major_dim
                &&& distrust.cs_matrix.entries@.len() == old(local_trust).cs_matrix.major_dim
                &&& forall|i: int|
                    0 <= i < old(local_trust).cs_matrix.entries@.len()
                        ==> (#[trigger] final(local_trust).cs_matrix.entries@[i])@ == nonneg_part(
                        old(local_trust).cs_matrix.entries@[i]@,
                    )
                &&& forall|i: int|
                    0 <= i < old(local_trust).cs_matrix.entries@.len()
                        ==> (#[trigger] distrust.cs_matrix.entries@[i])@ == distrust_part(
                        old(local_trust).cs_matrix.entries@[i]@,
                    )
                &&& old(local_trust).cs_matrix.wf() ==> final(local_trust).cs_matrix.wf()
            },
            Err(_) => false,
        },
{
    let n = local_trust.dims().0;
    let ghost old_rows = local_trust.cs_matrix.entries@;
    let empty_triples: Vec<(usize, usize, u64)> = Vec::new();
    let mut distrust = CSRMatrix::new(n, n, empty_triples);
    let mut i: usize = 0;
    while i < n
        invariant
            0 <= i <= n,
            n == local_trust.cs_matrix.major_dim,
            local_trust.cs_matrix.major_dim == old(local_trust).cs_matrix.major_dim,
            local_trust.cs_matrix.minor_dim == old(local_trust).cs_matrix.minor_dim,
            local_trust.cs_matrix.entries@.len() == old_rows.len(),
            old_rows == old(local_trust).cs_matrix.entries@,
            old_rows.len() == n,
            distrust.cs_matrix.major_dim == n,
            distrust.cs_matrix.minor_dim == n,
            distrust.cs_matrix.entries@.len() == n,
            forall|k: int|
                0 <= k < i ==> (#[trigger] local_trust.cs_matrix.entries@[k])@ == nonneg_part(
                    old_rows[k]@,
                ),
            forall|k: int|
                0 <= k < i ==> (#[trigger] distrust.cs_matrix.entries@[k])@ == distrust_part(
                    old_rows[k]@,
                ),
            forall|k: int|
                i <= k < n ==> #[trigger] local_trust.cs_matrix.entries@[k] == old_rows[k],
        decreases n - i,
    {
        let row = &local_trust.cs_matrix.entries[i];
        let ghost old_row = old_rows[i as int]@;
        let mut kept: Vec<Entry> = Vec::new();
        let mut dropped: Vec<Entry> = Vec::new();
        let mut k: usize = 0;
        while k < row.len()
            invariant
                0 <= k <= row@.len(),
                row@ == old_row,
                kept@ == nonneg_part(row@.take(k as int)),
                dropped@ == distrust_part(row@.take(k as int)),
            decreases row@.len() - k,
        {
            let ghost pre = row@.take(k as int);
            let e = row[k];
            if ge_zero_exec(e.value) {
                kept.push(e);
            } else {
                dropped.push(Entry { index: e.index, value: crate::fbits::exec_neg(e.value) });
            }
            proof {
                assert(row@.take(k + 1).drop_last() =~= pre);
                assert(row@.take(k + 1).last() == e);
            }
            k += 1;
        }
        proof {
            assert(row@.take(row@.len() as int) =~= row@);
        }
        let dim = local_trust.cs_matrix.minor_dim;
        local_trust.set_row_vector(i, Vector { dim, entries: kept });
        distrust.set_row_vector(i, Vector { dim: n, entries: dropped });
        i += 1;
    }
    proof {
        if old(local_trust).cs_matrix.wf() {
            assert forall|i2: int| 0 <= i2 < local_trust.cs_matrix.entries@.len() implies
                sorted_strict((#[trigger] local_trust.cs_matrix.entries@[i2])@) && indices_below(
                local_trust.cs_matrix.entries@[i2]@,
                local_trust.cs_matrix.minor_dim as nat,
            ) by {
                lemma_sieve_sorted(
                    old_rows[i2]@,
                    |e: Entry| ge_zero_bits(e.value),
                    |e: Entry| e,
                    local_trust.cs_matrix.minor_dim as nat,
                );
            }
        }
    }
    Ok(distrust)
}

/// Non-negative in the floating-point order.
fn ge_zero_exec(v: u64) -> (r: bool)
    ensures
        r == ge_zero_bits(v),
{
    !crate::fbits::exec_is_nan(v) && (v & crate::fbits::SIGN_MASK == 0 || v
        & crate::fbits::MAG_MASK == 0)
}

} // verus!
