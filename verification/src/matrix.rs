//! Row-compressed sparse matrices: a row-major list of sorted entry
//! rows, with transposition, structural union, and dimension surgery.

use vstd::prelude::*;
use crate::entry::Entry;
use crate::entry::indices_below;
use crate::entry::lookup;
use crate::entry::sorted_by_index;
use crate::entry::sorted_strict;
use crate::entry::sort_entries_by_index;
use crate::fbits::is_zero_bits;
use crate::vector::Vector;
use crate::vector::copy_entries;
use crate::vector::restrict_below;
use crate::vector::lemma_restrict_below_sorted;
use crate::vector::lemma_restrict_below_all;
use crate::errors::SparseError;

verus! {

/// A compressed sparse matrix: `major_dim` rows of entries, each sorted
/// strictly by column index below `minor_dim`.
#[derive(Clone, Debug)]
pub struct CSMatrix {
    pub major_dim: usize,
    pub minor_dim: usize,
    pub entries: Vec<Vec<Entry>>,
}

impl CSMatrix {
    /// The rows as a sequence of entry sequences.
    pub open spec fn rows(self) -> Seq<Seq<Entry>> {
        Seq::new(self.entries@.len() as nat, |i: int| self.entries@[i]@)
    }

    /// The invariant of a well-formed matrix: one entry row per major
    /// index, each strictly sorted with all column indices inside the
    /// minor dimension.
    pub open spec fn wf(self) -> bool {
        &&& self.entries@.len() == self.major_dim
        &&& forall|i: int|
            0 <= i < self.entries@.len() ==> sorted_strict((#[trigger] self.entries@[i])@)
                && indices_below(self.entries@[i]@, self.minor_dim as nat)
    }

    /// The empty matrix.
    pub fn new() -> (m: CSMatrix)
        ensures
            m.major_dim == 0,
            m.minor_dim == 0,
            m.entries@.len() == 0,
            m.wf(),
    {
        CSMatrix { major_dim: 0, minor_dim: 0, entries: Vec::new() }
    }

    /// Empty the matrix in place.
    pub fn reset(&mut self)
        ensures
            final(self).major_dim == 0,
            final(self).minor_dim == 0,
            final(self).entries@.len() == 0,
            final(self).wf(),
    {
        self.major_dim = 0;
        self.minor_dim = 0;
        self.entries.clear();
    }

    /// The dimension of a square matrix; a non-square matrix is refused.
    pub fn dim(&self) -> (r: Result<usize, SparseError>)
        ensures
            match r {
                Ok(d) => self.major_dim == self.minor_dim && d == self.major_dim,
                Err(e) => e == SparseError::DimensionMismatch && self.major_dim
                    != self.minor_dim,
            },
    {
        if self.major_dim != self.minor_dim {
            return Err(SparseError::DimensionMismatch);
        }
        Ok(self.major_dim)
    }

    /// Set the number of rows: rows beyond the new count are dropped,
    /// new rows start empty.
    pub fn set_major_dim(&mut self, dim: usize)
        ensures
            final(self).major_dim == dim,
            final(self).minor_dim == old(self).minor_dim,
            final(self).entries@.len() == dim,
            forall|i: int|
                0 <= i < dim && i < old(self).entries@.len() ==> final(self).entries@[i]
                    == old(self).entries@[i],
            forall|i: int|
                old(self).entries@.len() <= i < dim ==> (#[trigger] final(self).entries@[i])@.len()
                    == 0,
            old(self).wf() ==> final(self).wf(),
    {
        if dim < self.entries.len() {
            self.entries.truncate(dim);
        } else {
            while self.entries.len() < dim
                invariant
                    old(self).entries@.len() <= self.entries@.len() <= dim,
                    forall|i: int|
                        0 <= i < old(self).entries@.len() ==> self.entries@[i] == old(
                            self,
                        ).entries@[i],
                    forall|i: int|
                        old(self).entries@.len() <= i < self.entries@.len() ==> (
                        #[trigger] self.entries@[i])@.len() == 0,
                    self.major_dim == old(self).major_dim,
                    self.minor_dim == old(self).minor_dim,
                decreases dim - self.entries.len(),
            {
                let empty_row: Vec<Entry> = Vec::new();
                self.entries.push(empty_row);
            }
        }
        self.major_dim = dim;
    }

    /// Set the number of columns: entries at column indices no longer
    /// inside are dropped from every row.
    pub fn set_minor_dim(&mut self, dim: usize)
        ensures
            final(self).major_dim == old(self).major_dim,
            final(self).minor_dim == dim,
            final(self).entries@.len() == old(self).entries@.len(),
            forall|i: int|
                0 <= i < old(self).entries@.len() ==> (#[trigger] final(self).entries@[i])@
                    == restrict_below(old(self).entries@[i]@, dim as nat),
            old(self).wf() ==> final(self).wf(),
    {
        let mut out: Vec<Vec<Entry>> = Vec::new();
        let mut i: usize = 0;
        while i < self.entries.len()
            invariant
                0 <= i <= self.entries@.len(),
                out@.len() == i,
                forall|k: int|
                    0 <= k < i ==> (#[trigger] out@[k])@ == restrict_below(
                        self.entries@[k]@,
                        dim as nat,
                    ),
            decreases self.entries@.len() - i,
        {
            let row = &self.entries[i];
            let mut kept: Vec<Entry> = Vec::new();
            let mut k: usize = 0;
            while k < row.len()
                invariant
                    0 <= k <= row@.len(),
                    kept@ == restrict_below(row@.take(k as int), dim as nat),
                decreases row@.len() - k,
            {
                let ghost pre = row@.take(k as int);
                let e = row[k];
                if e.index < dim {
                    kept.push(e);
                }
                proof {
                    assert(row@.take(k + 1).drop_last() =~= pre);
                }
                k += 1;
            }
            proof {
                assert(row@.take(row@.len() as int) =~= row@);
            }
            out.push(kept);
            i += 1;
        }
        proof {
            if old(self).wf() {
                assert forall|i2: int| 0 <= i2 < out@.len() implies sorted_strict(
                    (#[trigger] out@[i2])@,
                ) && indices_below(out@[i2]@, dim as nat) by {
                    lemma_restrict_below_sorted(self.entries@[i2]@, dim as nat);
                }
            }
        }
        self.entries = out;
        self.minor_dim = dim;
    }

    /// The total number of stored entries.
    pub fn nnz(&self) -> (n: usize)
        requires
            total_nnz(self.entries@) <= usize::MAX,
        ensures
            n == total_nnz(self.entries@),
    {
        let mut n: usize = 0;
        let mut i: usize = 0;
        while i < self.entries.len()
            invariant
                0 <= i <= self.entries@.len(),
                n == total_nnz(self.entries@.take(i as int)),
                total_nnz(self.entries@) <= usize::MAX,
            decreases self.entries@.len() - i,
        {
            proof {
                assert(self.entries@.take(i + 1).drop_last() =~= self.entries@.take(i as int));
                lemma_total_nnz_prefix(self.entries@, i + 1);
            }
            n = n + self.entries[i].len();
            i += 1;
        }
        proof {
            assert(self.entries@.take(self.entries@.len() as int) =~= self.entries@);
        }
        n
    }
}

/// The total entry count over a list of rows.
pub open spec fn total_nnz(rows: Seq<Vec<Entry>>) -> int
    decreases rows.len(),
{
    if rows.len() == 0 {
        0
    } else {
        total_nnz(rows.drop_last()) + rows.last()@.len()
    }
}

/// Entry counts over a prefix never exceed the whole.
proof fn lemma_total_nnz_prefix(rows: Seq<Vec<Entry>>, k: int)
    requires
        0 <= k <= rows.len(),
    ensures
        total_nnz(rows.take(k)) <= total_nnz(rows),
        total_nnz(rows.take(k)) >= 0,
    decreases rows.len() - k, rows.len(),
{
    if k == rows.len() {
        assert(rows.take(k) =~= rows);
        lemma_total_nnz_nonneg(rows);
    } else {
        lemma_total_nnz_prefix(rows, k + 1);
        lemma_total_nnz_nonneg(rows.take(k));
        assert(rows.take(k + 1).drop_last() =~= rows.take(k));
        assert(total_nnz(rows.take(k + 1)) == total_nnz(rows.take(k)) + rows[k]@.len());
    }
}

/// Entry counts are never negative.
proof fn lemma_total_nnz_nonneg(rows: Seq<Vec<Entry>>)
    ensures
        total_nnz(rows) >= 0,
    decreases rows.len(),
{
    if rows.len() > 0 {
        lemma_total_nnz_nonneg(rows.drop_last());
    }
}

/// The structural union of two sorted entry rows: indices present in
/// both take the second row's value; one-sided indices pass through.
pub open spec fn merge_overwrite(s1: Seq<Entry>, s2: Seq<Entry>) -> Seq<Entry>
    decreases s1.len() + s2.len(),
{
    if s1.len() == 0 && s2.len() == 0 {
        Seq::empty()
    } else if s2.len() == 0 || (s1.len() > 0 && s1.last().index > s2.last().index) {
        merge_overwrite(s1.drop_last(), s2).push(s1.last())
    } else if s1.len() == 0 || s2.last().index > s1.last().index {
        merge_overwrite(s1, s2.drop_last()).push(s2.last())
    } else {
        merge_overwrite(s1.drop_last(), s2.drop_last()).push(s2.last())
    }
}

/// What the union stores at each index, and that it stays sorted.
pub proof fn lemma_merge_overwrite(s1: Seq<Entry>, s2: Seq<Entry>, idx: usize)
    requires
        sorted_strict(s1),
        sorted_strict(s2),
    ensures
        lookup(merge_overwrite(s1, s2), idx) == (if lookup(s2, idx) is Some {
            lookup(s2, idx)
        } else {
            lookup(s1, idx)
        }),
    decreases s1.len() + s2.len(),
{
    let out = merge_overwrite(s1, s2);
    if s1.len() == 0 && s2.len() == 0 {
    } else if s2.len() == 0 || (s1.len() > 0 && s1.last().index > s2.last().index) {
        assert(out.drop_last() =~= merge_overwrite(s1.drop_last(), s2));
        if s1.last().index == idx {
            crate::vector::lemma_lookup_none_above(s2, idx);
        } else {
            lemma_merge_overwrite(s1.drop_last(), s2, idx);
        }
    } else if s1.len() == 0 || s2.last().index > s1.last().index {
        assert(out.drop_last() =~= merge_overwrite(s1, s2.drop_last()));
        if s2.last().index == idx {
            crate::vector::lemma_lookup_none_above(s1, idx);
        } else {
            lemma_merge_overwrite(s1, s2.drop_last(), idx);
        }
    } else {
        assert(out.drop_last() =~= merge_overwrite(s1.drop_last(), s2.drop_last()));
        if s1.last().index != idx {
            lemma_merge_overwrite(s1.drop_last(), s2.drop_last(), idx);
        }
    }
}

/// The union of sorted rows is sorted, with indices drawn from the two
/// sides and bounded by the larger last index.
pub proof fn lemma_merge_overwrite_sorted(s1: Seq<Entry>, s2: Seq<Entry>)
    requires
        sorted_strict(s1),
        sorted_strict(s2),
    ensures
        sorted_strict(merge_overwrite(s1, s2)),
        forall|k: int|
            0 <= k < merge_overwrite(s1, s2).len()
                ==> crate::entry::contains_index(s1, (#[trigger] merge_overwrite(s1, s2)[k]).index)
                || crate::entry::contains_index(s2, merge_overwrite(s1, s2)[k].index),
        forall|k: int|
            0 <= k < merge_overwrite(s1, s2).len()
                ==> (s1.len() > 0 && (#[trigger] merge_overwrite(s1, s2)[k]).index
                <= s1.last().index) || (s2.len() > 0 && merge_overwrite(s1, s2)[k].index
                <= s2.last().index),
    decreases s1.len() + s2.len(),
{
    let out = merge_overwrite(s1, s2);
    if s1.len() == 0 && s2.len() == 0 {
    } else if s2.len() == 0 || (s1.len() > 0 && s1.last().index > s2.last().index) {
        let prev = merge_overwrite(s1.drop_last(), s2);
        assert(out.drop_last() =~= prev);
        lemma_merge_overwrite_sorted(s1.drop_last(), s2);
        assert forall|k: int| 0 <= k < out.len() - 1 implies (crate::entry::contains_index(
            s1,
            (#[trigger] out[k]).index,
        ) || crate::entry::contains_index(s2, out[k].index)) && out[k].index
            < s1.last().index by {
            assert(out[k] == prev[k]);
            if crate::entry::contains_index(s1.drop_last(), prev[k].index) {
                let i = choose|i: int|
                    0 <= i < s1.drop_last().len() && s1.drop_last()[i].index == prev[k].index;
                assert(s1[i].index == prev[k].index);
            }
        }
        assert(crate::entry::contains_index(s1, out.last().index)) by {
            assert(s1[s1.len() - 1].index == out.last().index);
        }
    } else if s1.len() == 0 || s2.last().index > s1.last().index {
        let prev = merge_overwrite(s1, s2.drop_last());
        assert(out.drop_last() =~= prev);
        lemma_merge_overwrite_sorted(s1, s2.drop_last());
        assert forall|k: int| 0 <= k < out.len() - 1 implies (crate::entry::contains_index(
            s1,
            (#[trigger] out[k]).index,
        ) || crate::entry::contains_index(s2, out[k].index)) && out[k].index
            < s2.last().index by {
            assert(out[k] == prev[k]);
            if crate::entry::contains_index(s2.drop_last(), prev[k].index) {
                let i = choose|i: int|
                    0 <= i < s2.drop_last().len() && s2.drop_last()[i].index == prev[k].index;
                assert(s2[i].index == prev[k].index);
            }
        }
        assert(crate::entry::contains_index(s2, out.last().index)) by {
            assert(s2[s2.len() - 1].index == out.last().index);
        }
    } else {
        let prev = merge_overwrite(s1.drop_last(), s2.drop_last());
        assert(out.drop_last() =~= prev);
        lemma_merge_overwrite_sorted(s1.drop_last(), s2.drop_last());
        assert forall|k: int| 0 <= k < out.len() - 1 implies (crate::entry::contains_index(
            s1,
            (#[trigger] out[k]).index,
        ) || crate::entry::contains_index(s2, out[k].index)) && out[k].index
            < s2.last().index by {
            assert(out[k] == prev[k]);
            if crate::entry::contains_index(s1.drop_last(), prev[k].index) {
                let i = choose|i: int|
                    0 <= i < s1.drop_last().len() && s1.drop_last()[i].index == prev[k].index;
                assert(s1[i].index == prev[k].index);
            }
            if crate::entry::contains_index(s2.drop_last(), prev[k].index) {
                let i = choose|i: int|
                    0 <= i < s2.drop_last().len() && s2.drop_last()[i].index == prev[k].index;
                assert(s2[i].index == prev[k].index);
            }
        }
        assert(crate::entry::contains_index(s2, out.last().index)) by {
            assert(s2[s2.len() - 1].index == out.last().index);
        }
    }
}

/// Merge two sorted rows, the second side's values winning on indices
/// present in both.
fn merge_span(s1: &Vec<Entry>, s2: &Vec<Entry>) -> (out: Vec<Entry>)
    requires
        sorted_strict(s1@),
        sorted_strict(s2@),
    ensures
        out@ == merge_overwrite(s1@, s2@),
{
    let mut out: Vec<Entry> = Vec::new();
    let mut i1: usize = 0;
    let mut i2: usize = 0;
    while i1 < s1.len() || i2 < s2.len()
        invariant
            sorted_strict(s1@),
            sorted_strict(s2@),
            0 <= i1 <= s1@.len(),
            0 <= i2 <= s2@.len(),
            out@ == merge_overwrite(s1@.take(i1 as int), s2@.take(i2 as int)),
            i1 > 0 && i2 < s2@.len() ==> s1@[i1 - 1].index < s2@[i2 as int].index,
            i2 > 0 && i1 < s1@.len() ==> s2@[i2 - 1].index < s1@[i1 as int].index,
        decreases s1@.len() + s2@.len() - i1 - i2,
    {
        let ghost p1 = s1@.take(i1 as int);
        let ghost p2 = s2@.take(i2 as int);
        if i2 >= s2.len() || (i1 < s1.len() && s1[i1].index < s2[i2].index) {
            out.push(s1[i1]);
            proof {
                assert(s1@.take(i1 + 1).drop_last() =~= p1);
                assert(s1@.take(i1 + 1).last() == s1@[i1 as int]);
            }
            i1 += 1;
        } else if i1 >= s1.len() || s2[i2].index < s1[i1].index {
            out.push(s2[i2]);
            proof {
                assert(s2@.take(i2 + 1).drop_last() =~= p2);
                assert(s2@.take(i2 + 1).last() == s2@[i2 as int]);
            }
            i2 += 1;
        } else {
            out.push(s2[i2]);
            proof {
                assert(s1@.take(i1 + 1).drop_last() =~= p1);
                assert(s2@.take(i2 + 1).drop_last() =~= p2);
                assert(s1@.take(i1 + 1).last() == s1@[i1 as int]);
                assert(s2@.take(i2 + 1).last() == s2@[i2 as int]);
            }
            i1 += 1;
            i2 += 1;
        }
    }
    proof {
        assert(s1@.take(s1@.len() as int) =~= s1@);
        assert(s2@.take(s2@.len() as int) =~= s2@);
    }
    out
}

/// One output row of the transpose: for each input row holding the
/// column, one entry carrying that row's index and the stored value, in
/// ascending row order.
pub open spec fn transposed_row(rows: Seq<Seq<Entry>>, c: usize) -> Seq<Entry>
    decreases rows.len(),
{
    if rows.len() == 0 {
        Seq::empty()
    } else {
        let prefix = transposed_row(rows.drop_last(), c);
        match lookup(rows.last(), c) {
            Some(v) => prefix.push(Entry { index: (rows.len() - 1) as usize, value: v }),
            None => prefix,
        }
    }
}

/// A transposed row is strictly sorted and its indices name input rows.
pub proof fn lemma_transposed_row_wf(rows: Seq<Seq<Entry>>, c: usize)
    requires
        rows.len() <= usize::MAX,
    ensures
        sorted_strict(transposed_row(rows, c)),
        indices_below(transposed_row(rows, c), rows.len()),
    decreases rows.len(),
{
    if rows.len() > 0 {
        lemma_transposed_row_wf(rows.drop_last(), c);
        let prefix = transposed_row(rows.drop_last(), c);
        let t = transposed_row(rows, c);
        match lookup(rows.last(), c) {
            Some(v) => {
                assert(t.drop_last() =~= prefix);
                assert(t.last() == (Entry { index: (rows.len() - 1) as usize, value: v }));
                assert forall|a: int, b: int| 0 <= a < b < t.len() implies t[a].index
                    < t[b].index by {
                    assert(t[a] == prefix[a]);
                    if b < t.len() - 1 {
                        assert(t[b] == prefix[b]);
                    } else {
                        assert(prefix[a].index < rows.drop_last().len());
                        assert(t[b] == t.last());
                    }
                }
            },
            None => {},
        }
    }
}

/// What a transposed row stores: exactly the input's value at the
/// flipped coordinates.
pub proof fn lemma_transposed_row_lookup(rows: Seq<Seq<Entry>>, c: usize, r: usize)
    requires
        rows.len() <= usize::MAX,
    ensures
        lookup(transposed_row(rows, c), r) == (if r < rows.len() {
            lookup(rows[r as int], c)
        } else {
            None::<u64>
        }),
    decreases rows.len(),
{
    lemma_transposed_row_wf(rows, c);
    if rows.len() > 0 {
        let t = transposed_row(rows, c);
        let prefix = transposed_row(rows.drop_last(), c);
        lemma_transposed_row_wf(rows.drop_last(), c);
        if r == rows.len() - 1 {
            match lookup(rows.last(), c) {
                Some(v) => {
                    assert(t.last() == (Entry { index: r, value: v }));
                    assert(lookup(t, r) == Some(v));
                },
                None => {
                    assert(t == prefix);
                    if prefix.len() > 0 {
                        assert(prefix.last().index < rows.drop_last().len());
                    }
                    crate::vector::lemma_lookup_none_above(prefix, r);
                },
            }
        } else {
            lemma_transposed_row_lookup(rows.drop_last(), c, r);
            if r < rows.len() - 1 {
                assert(rows.drop_last()[r as int] == rows[r as int]);
            }
            match lookup(rows.last(), c) {
                Some(v) => {
                    assert(t.drop_last() =~= prefix);
                    assert(t.last().index == rows.len() - 1);
                    assert(lookup(t, r) == lookup(prefix, r));
                },
                None => {
                    assert(t == prefix);
                },
            }
        }
    }
}

/// Find the value a sorted row stores at a column.
pub fn row_lookup(row: &Vec<Entry>, idx: usize) -> (r: Option<u64>)
    ensures
        r == lookup(row@, idx),
{
    let mut found: Option<u64> = None;
    let mut k: usize = 0;
    while k < row.len()
        invariant
            0 <= k <= row@.len(),
            found == lookup(row@.take(k as int), idx),
        decreases row@.len() - k,
    {
        let ghost pre = row@.take(k as int);
        let e = row[k];
        if e.index == idx {
            found = Some(e.value);
        }
        proof {
            assert(row@.take(k + 1).drop_last() =~= pre);
            assert(row@.take(k + 1).last() == e);
        }
        k += 1;
    }
    proof {
        assert(row@.take(row@.len() as int) =~= row@);
    }
    found
}

impl CSMatrix {
    /// The transpose: rows and columns swapped.  Output row `c` lists,
    /// in ascending row order, every input row that stores column `c`,
    /// with the stored value moved unchanged.
    pub fn transpose(&self) -> (r: Result<CSMatrix, SparseError>)
        requires
            self.wf(),
        ensures
            match r {
                Ok(t) => {
                    &&& t.major_dim == self.minor_dim
                    &&& t.minor_dim == self.major_dim
                    &&& t.wf()
                    &&& forall|c: int|
                        0 <= c < self.minor_dim ==> (#[trigger] t.entries@[c])@ == transposed_row(
                            self.rows(),
                            c as usize,
                        )
                },
                Err(_) => false,
            },
    {
        let mut out: Vec<Vec<Entry>> = Vec::new();
        let mut c: usize = 0;
        while c < self.minor_dim
            invariant
                self.wf(),
                0 <= c <= self.minor_dim,
                out@.len() == c,
                forall|cc: int|
                    0 <= cc < c ==> (#[trigger] out@[cc])@ == transposed_row(
                        self.rows(),
                        cc as usize,
                    ),
            decreases self.minor_dim - c,
        {
            let mut orow: Vec<Entry> = Vec::new();
            let mut i: usize = 0;
            while i < self.entries.len()
                invariant
                    self.wf(),
                    c < self.minor_dim,
                    0 <= i <= self.entries@.len(),
                    orow@ == transposed_row(self.rows().take(i as int), c),
                decreases self.entries@.len() - i,
            {
                let ghost pre = self.rows().take(i as int);
                match row_lookup(&self.entries[i], c) {
                    Some(v) => {
                        orow.push(Entry { index: i, value: v });
                    },
                    None => {},
                }
                proof {
                    assert(self.rows().take(i + 1).drop_last() =~= pre);
                    assert(self.rows().take(i + 1).last() == self.entries@[i as int]@);
                }
                i += 1;
            }
            proof {
                assert(self.rows().take(self.entries@.len() as int) =~= self.rows());
                lemma_transposed_row_wf(self.rows(), c);
            }
            out.push(orow);
            c += 1;
        }
        proof {
            assert forall|cc: int| 0 <= cc < out@.len() implies sorted_strict(
                (#[trigger] out@[cc])@,
            ) && indices_below(out@[cc]@, self.major_dim as nat) by {
                lemma_transposed_row_wf(self.rows(), cc as usize);
            }
        }
        Ok(CSMatrix { major_dim: self.minor_dim, minor_dim: self.major_dim, entries: out })
    }

    /// Structural union with another matrix, enlarging the dimensions to
    /// cover both; on a row/column present in both, the other matrix's
    /// value wins.  The other matrix is emptied.
    pub fn merge(&mut self, other: &mut CSMatrix)
        requires
            old(self).wf(),
            old(other).wf(),
        ensures
            final(self).wf(),
            final(self).major_dim == if old(self).major_dim >= old(other).major_dim {
                old(self).major_dim
            } else {
                old(other).major_dim
            },
            final(self).minor_dim == if old(self).minor_dim >= old(other).minor_dim {
                old(self).minor_dim
            } else {
                old(other).minor_dim
            },
            forall|i: int|
                0 <= i < old(other).major_dim ==> (#[trigger] final(self).entries@[i])@
                    == merge_overwrite(
                    (if i < old(self).major_dim {
                        old(self).entries@[i]@
                    } else {
                        Seq::empty()
                    }),
                    old(other).entries@[i]@,
                ),
            forall|i: int|
                old(other).major_dim <= i < final(self).major_dim
                    ==> (#[trigger] final(self).entries@[i])@ == (if i < old(self).major_dim {
                    old(self).entries@[i]@
                } else {
                    Seq::empty()
                }),
            final(other).major_dim == 0 && final(other).minor_dim == 0,
            final(other).entries@.len() == 0,
    {
        let new_major = if self.major_dim >= other.major_dim {
            self.major_dim
        } else {
            other.major_dim
        };
        let new_minor = if self.minor_dim >= other.minor_dim {
            self.minor_dim
        } else {
            other.minor_dim
        };
        self.set_major_dim(new_major);
        self.set_minor_dim(new_minor);
        proof {
            assert forall|i: int| 0 <= i < old(self).major_dim implies (
            #[trigger] self.entries@[i])@ == old(self).entries@[i]@ by {
                lemma_restrict_below_all(
                    old(self).entries@[i]@,
                    old(self).minor_dim as nat,
                    new_minor as nat,
                );
            }
            assert forall|i: int| old(self).major_dim <= i < new_major implies (
            #[trigger] self.entries@[i])@ == Seq::<Entry>::empty() by {
                assert(self.entries@[i]@ =~= Seq::<Entry>::empty());
            }
        }
        let ghost mid = self.entries@;
        let mut i: usize = 0;
        while i < other.entries.len()
            invariant
                self.wf(),
                other.wf(),
                other.entries@ == old(other).entries@,
                other.major_dim == old(other).major_dim,
                other.minor_dim == old(other).minor_dim,
                self.major_dim == new_major,
                self.minor_dim == new_minor,
                old(other).major_dim <= new_major,
                old(other).minor_dim <= new_minor,
                self.entries@.len() == new_major,
                other.entries@.len() == old(other).major_dim,
                0 <= i <= other.entries@.len(),
                mid.len() == new_major,
                forall|k: int|
                    0 <= k < i ==> (#[trigger] self.entries@[k])@ == merge_overwrite(
                        mid[k]@,
                        other.entries@[k]@,
                    ),
                forall|k: int| i <= k < new_major ==> #[trigger] self.entries@[k] == mid[k],
            decreases other.entries@.len() - i,
        {
            let merged = merge_span(&self.entries[i], &other.entries[i]);
            proof {
                lemma_merge_overwrite_sorted(self.entries@[i as int]@, other.entries@[i as int]@);
                assert forall|k: int|
                    0 <= k < merge_overwrite(
                        self.entries@[i as int]@,
                        other.entries@[i as int]@,
                    ).len() implies (#[trigger] merge_overwrite(
                    self.entries@[i as int]@,
                    other.entries@[i as int]@,
                )[k]).index < new_minor by {
                    let m = merge_overwrite(self.entries@[i as int]@, other.entries@[i as int]@);
                    if crate::entry::contains_index(self.entries@[i as int]@, m[k].index) {
                        let j = choose|j: int|
                            0 <= j < self.entries@[i as int]@.len()
                                && self.entries@[i as int]@[j].index == m[k].index;
                    } else {
                        let j = choose|j: int|
                            0 <= j < other.entries@[i as int]@.len()
                                && other.entries@[i as int]@[j].index == m[k].index;
                    }
                }
            }
            self.entries[i] = merged;
            i += 1;
        }
        other.reset();
    }
}

/// The entries destined for one row of a row-compressed matrix: the
/// nonzero triples naming that row, in input order, as column entries.
pub open spec fn csr_row_raw(ts: Seq<(usize, usize, u64)>, r: usize) -> Seq<Entry>
    decreases ts.len(),
{
    if ts.len() == 0 {
        Seq::empty()
    } else {
        let prefix = csr_row_raw(ts.drop_last(), r);
        if ts.last().0 == r && !is_zero_bits(ts.last().2) {
            prefix.push(Entry { index: ts.last().1, value: ts.last().2 })
        } else {
            prefix
        }
    }
}

/// Every collected entry takes its column and value from a nonzero
/// triple naming the row.
proof fn lemma_csr_row_raw_members(ts: Seq<(usize, usize, u64)>, r: usize)
    ensures
        forall|k: int|
            0 <= k < csr_row_raw(ts, r).len() ==> exists|j: int|
                0 <= j < ts.len() && ts[j].0 == r && ts[j].1 == (#[trigger] csr_row_raw(
                    ts,
                    r,
                )[k]).index,
    decreases ts.len(),
{
    if ts.len() > 0 {
        lemma_csr_row_raw_members(ts.drop_last(), r);
        let out = csr_row_raw(ts, r);
        let prev = csr_row_raw(ts.drop_last(), r);
        assert forall|k: int| 0 <= k < out.len() implies exists|j: int|
            0 <= j < ts.len() && ts[j].0 == r && ts[j].1 == (#[trigger] out[k]).index by {
            if ts.last().0 == r && !is_zero_bits(ts.last().2) && k == out.len() - 1 {
                assert(ts[ts.len() - 1].0 == r && ts[ts.len() - 1].1 == out[k].index);
            } else {
                assert(out[k] == prev[k]);
                let j = choose|j: int|
                    0 <= j < ts.drop_last().len() && ts.drop_last()[j].0 == r
                        && ts.drop_last()[j].1 == prev[k].index;
                assert(ts[j].0 == r && ts[j].1 == prev[k].index);
            }
        }
    }
}

/// Triples with pairwise distinct coordinates give each row pairwise
/// distinct column indices, bounded by any bound the triples obey.
proof fn lemma_csr_row_raw_distinct(ts: Seq<(usize, usize, u64)>, r: usize, cols: nat)
    requires
        forall|a: int, b: int|
            0 <= a < b < ts.len() ==> !((#[trigger] ts[a]).0 == (#[trigger] ts[b]).0 && ts[a].1
                == ts[b].1),
        forall|j: int| 0 <= j < ts.len() ==> (#[trigger] ts[j]).1 < cols,
    ensures
        forall|i: int, j: int|
            0 <= i < j < csr_row_raw(ts, r).len() ==> (#[trigger] csr_row_raw(ts, r)[i]).index != (
            #[trigger] csr_row_raw(ts, r)[j]).index,
        indices_below(csr_row_raw(ts, r), cols),
    decreases ts.len(),
{
    lemma_csr_row_raw_members(ts, r);
    let out = csr_row_raw(ts, r);
    assert forall|i: int, j: int| 0 <= i < j < out.len() implies (#[trigger] out[i]).index != (
    #[trigger] out[j]).index by {
        if out[i].index == out[j].index {
            lemma_csr_row_raw_inj(ts, r, i, j);
        }
    }
    assert forall|k: int| 0 <= k < out.len() implies (#[trigger] out[k]).index < cols by {
        let j = choose|j: int| 0 <= j < ts.len() && ts[j].0 == r && ts[j].1 == out[k].index;
    }
}

/// Two positions of a collected row never share a column when the
/// triples have pairwise distinct coordinates.
proof fn lemma_csr_row_raw_inj(ts: Seq<(usize, usize, u64)>, r: usize, i: int, j: int)
    requires
        forall|a: int, b: int|
            0 <= a < b < ts.len() ==> !((#[trigger] ts[a]).0 == (#[trigger] ts[b]).0 && ts[a].1
                == ts[b].1),
        0 <= i < j < csr_row_raw(ts, r).len(),
    ensures
        csr_row_raw(ts, r)[i].index != csr_row_raw(ts, r)[j].index,
    decreases ts.len(),
{
    let out = csr_row_raw(ts, r);
    let prev = csr_row_raw(ts.drop_last(), r);
    if ts.last().0 == r && !is_zero_bits(ts.last().2) && j == out.len() - 1 {
        lemma_csr_row_raw_members(ts.drop_last(), r);
        assert(out[i] == prev[i]);
        let a = choose|a: int|
            0 <= a < ts.drop_last().len() && ts.drop_last()[a].0 == r && ts.drop_last()[a].1
                == prev[i].index;
        assert(ts[a].0 == r && ts[a].1 == prev[i].index);
        assert(!(ts[a].0 == ts[ts.len() - 1].0 && ts[a].1 == ts[ts.len() - 1].1));
    } else {
        assert(out[i] == prev[i] && out[j] == prev[j]);
        lemma_csr_row_raw_inj(ts.drop_last(), r, i, j);
    }
}

/// A row-compressed sparse matrix.
#[derive(Clone, Debug)]
pub struct CSRMatrix {
    pub cs_matrix: CSMatrix,
}

impl CSRMatrix {
    /// Assemble a matrix from coordinate triples.  Zero-valued triples
    /// are dropped; each row collects its triples and is sorted by
    /// column.  Every triple must name a row inside the row count.
    pub fn new(rows: usize, cols: usize, entries: Vec<(usize, usize, u64)>) -> (m: CSRMatrix)
        requires
            forall|j: int| 0 <= j < entries@.len() ==> (#[trigger] entries@[j]).0 < rows,
        ensures
            m.cs_matrix.major_dim == rows,
            m.cs_matrix.minor_dim == cols,
            m.cs_matrix.entries@.len() == rows,
            forall|r: int|
                0 <= r < rows ==> sorted_by_index((#[trigger] m.cs_matrix.entries@[r])@)
                    && (m.cs_matrix.entries@[r])@.to_multiset() == csr_row_raw(
                    entries@,
                    r as usize,
                ).to_multiset(),
            ((forall|a: int, b: int|
                0 <= a < b < entries@.len() ==> !((#[trigger] entries@[a]).0 == (
                #[trigger] entries@[b]).0 && entries@[a].1 == entries@[b].1)) && (forall|j: int|
                0 <= j < entries@.len() ==> (#[trigger] entries@[j]).1 < cols))
                ==> m.cs_matrix.wf(),
    {
        let mut matrix_entries: Vec<Vec<Entry>> = Vec::new();
        let mut r: usize = 0;
        while r < rows
            invariant
                0 <= r <= rows,
                matrix_entries@.len() == r,
                forall|k: int|
                    0 <= k < r ==> sorted_by_index((#[trigger] matrix_entries@[k])@)
                        && (matrix_entries@[k])@.to_multiset() == csr_row_raw(
                        entries@,
                        k as usize,
                    ).to_multiset(),
            decreases rows - r,
        {
            let mut row: Vec<Entry> = Vec::new();
            let mut j: usize = 0;
            while j < entries.len()
                invariant
                    0 <= j <= entries@.len(),
                    row@ == csr_row_raw(entries@.take(j as int), r),
                decreases entries@.len() - j,
            {
                let ghost pre = entries@.take(j as int);
                let t = entries[j];
                if t.0 == r && !crate::fbits::exec_is_zero(t.2) {
                    row.push(Entry { index: t.1, value: t.2 });
                }
                proof {
                    assert(entries@.take(j + 1).drop_last() =~= pre);
                    assert(entries@.take(j + 1).last() == t);
                }
                j += 1;
            }
            proof {
                assert(entries@.take(entries@.len() as int) =~= entries@);
            }
            sort_entries_by_index(&mut row);
            matrix_entries.push(row);
            r += 1;
        }
        proof {
            if (forall|a: int, b: int|
                0 <= a < b < entries@.len() ==> !((#[trigger] entries@[a]).0 == (
                #[trigger] entries@[b]).0 && entries@[a].1 == entries@[b].1)) && (forall|j: int|
                0 <= j < entries@.len() ==> (#[trigger] entries@[j]).1 < cols) {
                assert forall|k: int| 0 <= k < matrix_entries@.len() implies sorted_strict(
                    (#[trigger] matrix_entries@[k])@,
                ) && indices_below(matrix_entries@[k]@, cols as nat) by {
                    lemma_csr_row_raw_distinct(entries@, k as usize, cols as nat);
                    crate::entry::lemma_rearranged_strict(
                        matrix_entries@[k]@,
                        csr_row_raw(entries@, k as usize),
                        cols as nat,
                    );
                }
            }
        }
        CSRMatrix {
            cs_matrix: CSMatrix { major_dim: rows, minor_dim: cols, entries: matrix_entries },
        }
    }

    /// The (row, column) dimensions.
    pub fn dims(&self) -> (d: (usize, usize))
        ensures
            d.0 == self.cs_matrix.major_dim,
            d.1 == self.cs_matrix.minor_dim,
    {
        (self.cs_matrix.major_dim, self.cs_matrix.minor_dim)
    }

    /// Resize to the given row and column counts.
    pub fn set_dim(&mut self, rows: usize, cols: usize)
        ensures
            final(self).cs_matrix.major_dim == rows,
            final(self).cs_matrix.minor_dim == cols,
            final(self).cs_matrix.entries@.len() == rows,
            forall|i: int|
                0 <= i < rows ==> (#[trigger] final(self).cs_matrix.entries@[i])@
                    == restrict_below(
                    (if i < old(self).cs_matrix.entries@.len() {
                        old(self).cs_matrix.entries@[i]@
                    } else {
                        Seq::empty()
                    }),
                    cols as nat,
                ),
            old(self).cs_matrix.wf() ==> final(self).cs_matrix.wf(),
    {
        self.cs_matrix.set_major_dim(rows);
        self.cs_matrix.set_minor_dim(cols);
        proof {
            assert forall|i: int| 0 <= i < rows && i >= old(self).cs_matrix.entries@.len() implies (
            #[trigger] self.cs_matrix.entries@[i])@ == restrict_below(
                Seq::empty(),
                cols as nat,
            ) by {
                assert(restrict_below(Seq::<Entry>::empty(), cols as nat) =~= Seq::<
                    Entry,
                >::empty());
            }
        }
    }

    /// The given row, materialized as a sparse vector of the column
    /// dimension.
    pub fn row_vector(&self, index: usize) -> (v: Vector)
        requires
            index < self.cs_matrix.entries@.len(),
        ensures
            v.dim == self.cs_matrix.minor_dim,
            v.entries@ == self.cs_matrix.entries@[index as int]@,
            self.cs_matrix.wf() ==> v.wf(),
    {
        Vector {
            dim: self.cs_matrix.minor_dim,
            entries: copy_entries(&self.cs_matrix.entries[index]),
        }
    }

    /// Replace the given row with the vector's entries.
    pub fn set_row_vector(&mut self, index: usize, vector: Vector)
        requires
            index < old(self).cs_matrix.entries@.len(),
        ensures
            final(self).cs_matrix.major_dim == old(self).cs_matrix.major_dim,
            final(self).cs_matrix.minor_dim == old(self).cs_matrix.minor_dim,
            final(self).cs_matrix.entries@ == old(self).cs_matrix.entries@.update(
                index as int,
                vector.entries,
            ),
    {
        self.cs_matrix.entries[index] = vector.entries;
    }

    /// The transpose, as a row-compressed matrix.
    pub fn transpose(&self) -> (r: Result<CSRMatrix, SparseError>)
        requires
            self.cs_matrix.wf(),
        ensures
            match r {
                Ok(t) => {
                    &&& t.cs_matrix.major_dim == self.cs_matrix.minor_dim
                    &&& t.cs_matrix.minor_dim == self.cs_matrix.major_dim
                    &&& t.cs_matrix.wf()
                    &&& forall|c: int|
                        0 <= c < self.cs_matrix.minor_dim
                            ==> (#[trigger] t.cs_matrix.entries@[c])@ == transposed_row(
                            self.cs_matrix.rows(),
                            c as usize,
                        )
                },
                Err(_) => false,
            },
    {
        let transposed = self.cs_matrix.transpose()?;
        Ok(CSRMatrix { cs_matrix: transposed })
    }

    /// Reinterpret as column-compressed, swapping the declared axes; the
    /// stored spans move over unchanged.
    pub fn transpose_to_csc(&self) -> (r: CSCMatrix)
        ensures
            r.cs_matrix.major_dim == self.cs_matrix.minor_dim,
            r.cs_matrix.minor_dim == self.cs_matrix.major_dim,
            r.cs_matrix.entries@.len() == self.cs_matrix.entries@.len(),
            forall|i: int|
                0 <= i < self.cs_matrix.entries@.len() ==> (#[trigger] r.cs_matrix.entries@[i])@
                    == self.cs_matrix.entries@[i]@,
    {
        CSCMatrix {
            cs_matrix: CSMatrix {
                major_dim: self.cs_matrix.minor_dim,
                minor_dim: self.cs_matrix.major_dim,
                entries: copy_rows(&self.cs_matrix.entries),
            },
        }
    }
}

/// A column-compressed sparse matrix: the compressed axis is columns.
#[derive(Clone, Debug)]
pub struct CSCMatrix {
    pub cs_matrix: CSMatrix,
}

impl CSCMatrix {
    /// The (row, column) dimensions; the compressed axis is the second.
    pub fn dims(&self) -> (d: (usize, usize))
        ensures
            d.0 == self.cs_matrix.minor_dim,
            d.1 == self.cs_matrix.major_dim,
    {
        (self.cs_matrix.minor_dim, self.cs_matrix.major_dim)
    }

    /// Resize to the given row and column counts.
    pub fn set_dim(&mut self, rows: usize, cols: usize)
        ensures
            final(self).cs_matrix.major_dim == cols,
            final(self).cs_matrix.minor_dim == rows,
            final(self).cs_matrix.entries@.len() == cols,
            old(self).cs_matrix.wf() ==> final(self).cs_matrix.wf(),
    {
        self.cs_matrix.set_major_dim(cols);
        self.cs_matrix.set_minor_dim(rows);
    }

    /// The given column, materialized as a sparse vector of the row
    /// dimension.
    pub fn column_vector(&self, index: usize) -> (v: Vector)
        requires
            index < self.cs_matrix.entries@.len(),
        ensures
            v.dim == self.cs_matrix.minor_dim,
            v.entries@ == self.cs_matrix.entries@[index as int]@,
            self.cs_matrix.wf() ==> v.wf(),
    {
        Vector {
            dim: self.cs_matrix.minor_dim,
            entries: copy_entries(&self.cs_matrix.entries[index]),
        }
    }

    /// The transpose, as a column-compressed matrix.
    pub fn transpose(&self) -> (r: Result<CSCMatrix, SparseError>)
        requires
            self.cs_matrix.wf(),
        ensures
            match r {
                Ok(t) => {
                    &&& t.cs_matrix.major_dim == self.cs_matrix.minor_dim
                    &&& t.cs_matrix.minor_dim == self.cs_matrix.major_dim
                    &&& t.cs_matrix.wf()
                    &&& forall|c: int|
                        0 <= c < self.cs_matrix.minor_dim
                            ==> (#[trigger] t.cs_matrix.entries@[c])@ == transposed_row(
                            self.cs_matrix.rows(),
                            c as usize,
                        )
                },
                Err(_) => false,
            },
    {
        let transposed = self.cs_matrix.transpose()?;
        Ok(CSCMatrix { cs_matrix: transposed })
    }

    /// Reinterpret as row-compressed, swapping the declared axes; the
    /// stored spans move over unchanged.
    pub fn transpose_to_csr(&self) -> (r: CSRMatrix)
        ensures
            r.cs_matrix.major_dim == self.cs_matrix.minor_dim,
            r.cs_matrix.minor_dim == self.cs_matrix.major_dim,
            r.cs_matrix.entries@.len() == self.cs_matrix.entries@.len(),
            forall|i: int|
                0 <= i < self.cs_matrix.entries@.len() ==> (#[trigger] r.cs_matrix.entries@[i])@
                    == self.cs_matrix.entries@[i]@,
    {
        CSRMatrix {
            cs_matrix: CSMatrix {
                major_dim: self.cs_matrix.minor_dim,
                minor_dim: self.cs_matrix.major_dim,
                entries: copy_rows(&self.cs_matrix.entries),
            },
        }
    }
}

/// Assemble a row-compressed matrix from coordinate triples.
pub fn create_csr_matrix(rows: usize, cols: usize, entries: Vec<(usize, usize, u64)>) -> (m:
    CSRMatrix)
    requires
        forall|j: int| 0 <= j < entries@.len() ==> (#[trigger] entries@[j]).0 < rows,
    ensures
        m.cs_matrix.major_dim == rows,
        m.cs_matrix.minor_dim == cols,
        m.cs_matrix.entries@.len() == rows,
        forall|r: int|
            0 <= r < rows ==> sorted_by_index((#[trigger] m.cs_matrix.entries@[r])@)
                && (m.cs_matrix.entries@[r])@.to_multiset() == csr_row_raw(
                entries@,
                r as usize,
            ).to_multiset(),
        ((forall|a: int, b: int|
            0 <= a < b < entries@.len() ==> !((#[trigger] entries@[a]).0 == (
            #[trigger] entries@[b]).0 && entries@[a].1 == entries@[b].1)) && (forall|j: int|
            0 <= j < entries@.len() ==> (#[trigger] entries@[j]).1 < cols)) ==> m.cs_matrix.wf(),
{
    CSRMatrix::new(rows, cols, entries)
}

/// The transpose of a row-compressed matrix.
pub fn transpose_csr_matrix(matrix: &CSRMatrix) -> (r: Result<CSRMatrix, SparseError>)
    requires
        matrix.cs_matrix.wf(),
    ensures
        match r {
            Ok(t) => {
                &&& t.cs_matrix.major_dim == matrix.cs_matrix.minor_dim
                &&& t.cs_matrix.minor_dim == matrix.cs_matrix.major_dim
                &&& t.cs_matrix.wf()
                &&& forall|c: int|
                    0 <= c < matrix.cs_matrix.minor_dim
                        ==> (#[trigger] t.cs_matrix.entries@[c])@ == transposed_row(
                        matrix.cs_matrix.rows(),
                        c as usize,
                    )
            },
            Err(_) => false,
        },
{
    matrix.transpose()
}

/// Reinterpret a row-compressed matrix as column-compressed.
pub fn transpose_to_csc(matrix: &CSRMatrix) -> (r: CSCMatrix)
    ensures
        r.cs_matrix.major_dim == matrix.cs_matrix.minor_dim,
        r.cs_matrix.minor_dim == matrix.cs_matrix.major_dim,
        r.cs_matrix.entries@.len() == matrix.cs_matrix.entries@.len(),
        forall|i: int|
            0 <= i < matrix.cs_matrix.entries@.len() ==> (#[trigger] r.cs_matrix.entries@[i])@
                == matrix.cs_matrix.entries@[i]@,
{
    matrix.transpose_to_csc()
}

/// A fresh copy of a row list.
fn copy_rows(rows: &Vec<Vec<Entry>>) -> (r: Vec<Vec<Entry>>)
    ensures
        r@.len() == rows@.len(),
        forall|i: int| 0 <= i < rows@.len() ==> (#[trigger] r@[i])@ == rows@[i]@,
{
    let mut out: Vec<Vec<Entry>> = Vec::new();
    let mut i: usize = 0;
    while i < rows.len()
        invariant
            0 <= i <= rows@.len(),
            out@.len() == i,
            forall|k: int| 0 <= k < i ==> (#[trigger] out@[k])@ == rows@[k]@,
        decreases rows@.len() - i,
    {
        out.push(copy_entries(&rows[i]));
        i += 1;
    }
    out
}

/// Two strictly sorted entry lists that store the same value at every
/// index are the same list.
pub proof fn lemma_lookup_ext(s1: Seq<Entry>, s2: Seq<Entry>)
    requires
        sorted_strict(s1),
        sorted_strict(s2),
        forall|idx: usize| #[trigger] lookup(s1, idx) == lookup(s2, idx),
    ensures
        s1 == s2,
    decreases s1.len() + s2.len(),
{
    if s1.len() == 0 && s2.len() == 0 {
        assert(s1 =~= s2);
    } else if s1.len() == 0 {
        assert(lookup(s2, s2.last().index) == Some(s2.last().value));
        assert(lookup(s1, s2.last().index) is None);
    } else if s2.len() == 0 {
        assert(lookup(s1, s1.last().index) == Some(s1.last().value));
        assert(lookup(s2, s1.last().index) is None);
    } else {
        let i1 = s1.last().index;
        let i2 = s2.last().index;
        if i1 < i2 {
            assert(lookup(s2, i2) == Some(s2.last().value));
            crate::vector::lemma_lookup_none_above(s1, i2);
        } else if i2 < i1 {
            assert(lookup(s1, i1) == Some(s1.last().value));
            crate::vector::lemma_lookup_none_above(s2, i1);
        } else {
            assert(lookup(s1, i1) == Some(s1.last().value));
            assert(lookup(s2, i1) == Some(s2.last().value));
            assert(s1.last() == s2.last());
            assert forall|idx: usize| #[trigger] lookup(s1.drop_last(), idx) == lookup(
                s2.drop_last(),
                idx,
            ) by {
                if idx == i1 {
                    if s1.drop_last().len() > 0 {
                        assert(s1.drop_last().last().index < i1);
                    }
                    crate::vector::lemma_lookup_none_above(s1.drop_last(), idx);
                    if s2.drop_last().len() > 0 {
                        assert(s2.drop_last().last().index < i1);
                    }
                    crate::vector::lemma_lookup_none_above(s2.drop_last(), idx);
                } else {
                    assert(lookup(s1, idx) == lookup(s1.drop_last(), idx));
                    assert(lookup(s2, idx) == lookup(s2.drop_last(), idx));
                }
            }
            lemma_lookup_ext(s1.drop_last(), s2.drop_last());
            assert(s1.len() == s2.len());
            assert forall|i: int| 0 <= i < s1.len() implies s1[i] == s2[i] by {
                if i < s1.len() - 1 {
                    assert(s1[i] == s1.drop_last()[i]);
                    assert(s2[i] == s2.drop_last()[i]);
                }
            }
            assert(s1 =~= s2);
        }
    }
}

/// The whole transpose at the specification level: one transposed row
/// per column.
pub open spec fn spec_transpose(rows: Seq<Seq<Entry>>, minor: usize) -> Seq<Seq<Entry>> {
    Seq::new(minor as nat, |c: int| transposed_row(rows, c as usize))
}

/// Transposing twice gives back the original matrix: row for row, the
/// double transpose of any well-formed row list is the row list itself.
pub proof fn lemma_transpose_involution(rows: Seq<Seq<Entry>>, minor: usize)
    requires
        rows.len() <= usize::MAX,
        forall|i: int|
            0 <= i < rows.len() ==> sorted_strict(#[trigger] rows[i]) && indices_below(
                rows[i],
                minor as nat,
            ),
    ensures
        forall|r: int|
            0 <= r < rows.len() ==> #[trigger] transposed_row(
                spec_transpose(rows, minor),
                r as usize,
            ) == rows[r],
{
    let t1 = spec_transpose(rows, minor);
    assert forall|r: int| 0 <= r < rows.len() implies #[trigger] transposed_row(t1, r as usize)
        == rows[r] by {
        let back = transposed_row(t1, r as usize);
        assert forall|c: int| 0 <= c < t1.len() implies sorted_strict(#[trigger] t1[c])
            && indices_below(t1[c], rows.len()) by {
            lemma_transposed_row_wf(rows, c as usize);
        }
        lemma_transposed_row_wf(t1, r as usize);
        assert forall|idx: usize| #[trigger] lookup(back, idx) == lookup(rows[r], idx) by {
            lemma_transposed_row_lookup(t1, r as usize, idx);
            if idx < minor {
                assert(t1[idx as int] == transposed_row(rows, idx));
                lemma_transposed_row_lookup(rows, idx, r as usize);
            } else {
                if rows[r].len() > 0 {
                    assert(rows[r].last().index < minor);
                }
                crate::vector::lemma_lookup_none_above(rows[r], idx);
            }
        }
        lemma_lookup_ext(back, rows[r]);
    }
}

/// Transpose involution on whole matrices: a matrix carried through two
/// transpositions comes back with its dimensions and every row exactly
/// as they were.
pub proof fn lemma_transpose_involution_matrix(m: CSMatrix, t: CSMatrix, tt: CSMatrix)
    requires
        m.wf(),
        t.major_dim == m.minor_dim,
        t.minor_dim == m.major_dim,
        t.wf(),
        forall|c: int|
            0 <= c < m.minor_dim ==> (#[trigger] t.entries@[c])@ == transposed_row(
                m.rows(),
                c as usize,
            ),
        tt.major_dim == t.minor_dim,
        tt.minor_dim == t.major_dim,
        tt.wf(),
        forall|c: int|
            0 <= c < t.minor_dim ==> (#[trigger] tt.entries@[c])@ == transposed_row(
                t.rows(),
                c as usize,
            ),
    ensures
        tt.major_dim == m.major_dim,
        tt.minor_dim == m.minor_dim,
        tt.entries@.len() == m.entries@.len(),
        forall|i: int|
            0 <= i < m.entries@.len() ==> (#[trigger] tt.entries@[i])@ == m.entries@[i]@,
{
    assert(t.rows() =~= spec_transpose(m.rows(), m.minor_dim));
    lemma_transpose_involution(m.rows(), m.minor_dim);
    assert forall|i: int| 0 <= i < m.entries@.len() implies (#[trigger] tt.entries@[i])@
        == m.entries@[i]@ by {
        assert(tt.entries@[i]@ == transposed_row(t.rows(), i as usize));
        assert(transposed_row(spec_transpose(m.rows(), m.minor_dim), i as usize)
            == m.rows()[i]);
    }
}

impl PartialEq for CSMatrix {
    /// Two matrices are equal when their dimensions and rows agree.
    fn eq(&self, other: &CSMatrix) -> (r: bool) {
        if self.major_dim != other.major_dim || self.minor_dim != other.minor_dim
            || self.entries.len() != other.entries.len() {
            return false;
        }
        let mut i: usize = 0;
        while i < self.entries.len()
            invariant
                0 <= i <= self.entries@.len(),
                self.entries@.len() == other.entries@.len(),
                self.major_dim == other.major_dim,
                self.minor_dim == other.minor_dim,
                forall|k: int| 0 <= k < i ==> (#[trigger] self.entries@[k])@ == other.entries@[k]@,
            decreases self.entries@.len() - i,
        {
            let a = &self.entries[i];
            let b = &other.entries[i];
            if a.len() != b.len() {
                return false;
            }
            let mut k: usize = 0;
            while k < a.len()
                invariant
                    0 <= k <= a@.len(),
                    a@.len() == b@.len(),
                    0 <= i < self.entries@.len(),
                    self.entries@.len() == other.entries@.len(),
                    a@ == self.entries@[i as int]@,
                    b@ == other.entries@[i as int]@,
                    forall|j: int| 0 <= j < k ==> a@[j] == b@[j],
                decreases a@.len() - k,
            {
                if a[k] != b[k] {
                    return false;
                }
                k += 1;
            }
            proof {
                assert(a@ =~= b@);
            }
            i += 1;
        }
        true
    }
}

impl vstd::std_specs::cmp::PartialEqSpecImpl for CSMatrix {
    open spec fn obeys_eq_spec() -> bool {
        true
    }

    open spec fn eq_spec(&self, other: &CSMatrix) -> bool {
        &&& self.major_dim == other.major_dim
        &&& self.minor_dim == other.minor_dim
        &&& self.entries@.len() == other.entries@.len()
        &&& forall|k: int|
            0 <= k < self.entries@.len() ==> (#[trigger] self.entries@[k])@
                == other.entries@[k]@
    }
}

impl PartialEq for CSRMatrix {
    /// Row-compressed matrices compare by their underlying matrices.
    fn eq(&self, other: &CSRMatrix) -> (r: bool) {
        self.cs_matrix == other.cs_matrix
    }
}

impl vstd::std_specs::cmp::PartialEqSpecImpl for CSRMatrix {
    open spec fn obeys_eq_spec() -> bool {
        true
    }

    open spec fn eq_spec(&self, other: &CSRMatrix) -> bool {
        &&& self.cs_matrix.major_dim == other.cs_matrix.major_dim
        &&& self.cs_matrix.minor_dim == other.cs_matrix.minor_dim
        &&& self.cs_matrix.entries@.len() == other.cs_matrix.entries@.len()
        &&& forall|k: int|
            0 <= k < self.cs_matrix.entries@.len() ==> (#[trigger] self.cs_matrix.entries@[k])@
                == other.cs_matrix.entries@[k]@
    }
}

impl PartialEq for CSCMatrix {
    /// Column-compressed matrices compare by their underlying matrices.
    fn eq(&self, other: &CSCMatrix) -> (r: bool) {
        self.cs_matrix == other.cs_matrix
    }
}

impl vstd::std_specs::cmp::PartialEqSpecImpl for CSCMatrix {
    open spec fn obeys_eq_spec() -> bool {
        true
    }

    open spec fn eq_spec(&self, other: &CSCMatrix) -> bool {
        &&& self.cs_matrix.major_dim == other.cs_matrix.major_dim
        &&& self.cs_matrix.minor_dim == other.cs_matrix.minor_dim
        &&& self.cs_matrix.entries@.len() == other.cs_matrix.entries@.len()
        &&& forall|k: int|
            0 <= k < self.cs_matrix.entries@.len() ==> (#[trigger] self.cs_matrix.entries@[k])@
                == other.cs_matrix.entries@[k]@
    }
}

} // verus!
