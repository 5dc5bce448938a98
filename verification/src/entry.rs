//! The atomic units of sparse storage: a single `(index, value)` pair for
//! vectors and matrix rows, a `(row, column, value)` triple for assembly,
//! and the verified sorts that put raw entry lists into canonical order.

use vstd::prelude::*;
use crate::fbits::f64_key;

verus! {

/// One nonzero of a sparse vector or matrix row.  The value is the raw
/// IEEE 754 binary64 bit pattern of the stored scalar.
#[derive(Clone, Copy, Debug, PartialEq, Eq, Structural)]
pub struct Entry {
    pub index: usize,
    pub value: u64,
}

impl Entry {
    pub fn new(index: usize, value: u64) -> (e: Entry)
        ensures
            e == (Entry { index, value }),
    {
        Entry { index, value }
    }
}

/// One coordinate-form triple used when assembling a matrix.
#[derive(Clone, Copy, Debug, PartialEq, Eq, Structural)]
pub struct CooEntry {
    pub row: usize,
    pub column: usize,
    pub value: u64,
}

impl CooEntry {
    pub fn new(row: usize, column: usize, value: u64) -> (e: CooEntry)
        ensures
            e == (CooEntry { row, column, value }),
    {
        CooEntry { row, column, value }
    }
}

/// Entries are in ascending index order (duplicates allowed).
pub open spec fn sorted_by_index(s: Seq<Entry>) -> bool {
    forall|i: int, j: int| 0 <= i < j < s.len() ==> s[i].index <= s[j].index
}

/// Entries are in strictly ascending index order: sorted with no
/// duplicate indices.  This is the invariant of well-formed sparse rows.
pub open spec fn sorted_strict(s: Seq<Entry>) -> bool {
    forall|i: int, j: int| 0 <= i < j < s.len() ==> s[i].index < s[j].index
}

/// Entries are in ascending order of stored value, in the floating-point
/// order on non-NaN bit patterns.
pub open spec fn sorted_by_value(s: Seq<Entry>) -> bool {
    forall|i: int, j: int|
        0 <= i < j < s.len() ==> f64_key(s[i].value) <= f64_key(s[j].value)
}

/// Every index is below the given bound.
pub open spec fn indices_below(s: Seq<Entry>, dim: nat) -> bool {
    forall|i: int| 0 <= i < s.len() ==> s[i].index < dim
}

/// Some entry carries this index.
pub open spec fn contains_index(s: Seq<Entry>, idx: usize) -> bool {
    exists|i: int| 0 <= i < s.len() && s[i].index == idx
}

/// The value stored at an index: the value of the last entry carrying the
/// index, or `None` when no entry does.  On strictly sorted sequences the
/// carrying entry is unique.
pub open spec fn lookup(s: Seq<Entry>, idx: usize) -> Option<u64>
    decreases s.len(),
{
    if s.len() == 0 {
        None
    } else if s.last().index == idx {
        Some(s.last().value)
    } else {
        lookup(s.drop_last(), idx)
    }
}

/// The stored values of an entry list, in order.
pub open spec fn values_of(s: Seq<Entry>) -> Seq<u64>
    decreases s.len(),
{
    if s.len() == 0 {
        Seq::empty()
    } else {
        values_of(s.drop_last()).push(s.last().value)
    }
}

/// The values list has one value per entry.
pub proof fn lemma_values_of_len(s: Seq<Entry>)
    ensures
        values_of(s).len() == s.len(),
    decreases s.len(),
{
    if s.len() > 0 {
        lemma_values_of_len(s.drop_last());
    }
}

/// Distinct indices survive rearrangement: a sequence that is sorted by
/// index and holds the same entries as one with pairwise distinct
/// indices is strictly sorted, with its indices inside any bound the
/// originals obey.
pub proof fn lemma_rearranged_strict(s: Seq<Entry>, t: Seq<Entry>, dim: nat)
    requires
        sorted_by_index(s),
        s.to_multiset() == t.to_multiset(),
        forall|i: int, j: int| 0 <= i < j < t.len() ==> t[i].index != t[j].index,
        indices_below(t, dim),
    ensures
        sorted_strict(s),
        indices_below(s, dim),
{
    broadcast use vstd::seq_lib::group_to_multiset_ensures;

    assert(t.no_duplicates()) by {
        assert forall|i: int, j: int|
            0 <= i < t.len() && 0 <= j < t.len() && i != j implies t[i] != t[j] by {
            if i < j {
                assert(t[i].index != t[j].index);
            } else {
                assert(t[j].index != t[i].index);
            }
        }
    }
    t.lemma_multiset_has_no_duplicates();
    s.lemma_multiset_has_no_duplicates_conv();
    assert forall|i: int| 0 <= i < s.len() implies t.contains(#[trigger] s[i]) by {
        assert(s.contains(s[i]));
        assert(s.to_multiset().count(s[i]) > 0);
        assert(t.to_multiset().count(s[i]) > 0);
    }
    assert forall|i: int| 0 <= i < s.len() implies (#[trigger] s[i]).index < dim by {
        let j = choose|j: int| 0 <= j < t.len() && t[j] == s[i];
    }
    assert forall|i: int, j: int| 0 <= i < j < s.len() implies s[i].index < s[j].index by {
        if s[i].index == s[j].index {
            assert(s[i] != s[j]);
            let a = choose|a: int| 0 <= a < t.len() && t[a] == s[i];
            let b = choose|b: int| 0 <= b < t.len() && t[b] == s[j];
            if a < b {
                assert(t[a].index != t[b].index);
            } else {
                assert(t[b].index != t[a].index);
            }
        }
    }
}

/// Swapping two positions of a sequence leaves its multiset unchanged.
pub proof fn lemma_swap_preserves_multiset<A>(s: Seq<A>, i: int, j: int)
    requires
        0 <= i < s.len(),
        0 <= j < s.len(),
        i != j,
    ensures
        s.update(i, s[j]).update(j, s[i]).to_multiset() == s.to_multiset(),
{
    broadcast use vstd::seq_lib::group_to_multiset_ensures;

    let s1 = s.update(i, s[j]);
    assert(s1[j] == s[j]);
    assert(s1.update(j, s[i]).to_multiset() =~= s.to_multiset()) by {
        assert(s1.to_multiset() == s.to_multiset().insert(s[j]).remove(s[i]));
        assert(s1.update(j, s[i]).to_multiset() == s1.to_multiset().insert(s[i]).remove(s1[j]));
        assert(s.to_multiset().contains(s[i]));
    }
}

/// Sort entries in place into ascending index order.  The result is a
/// rearrangement: the multiset of entries is unchanged.
pub fn sort_entries_by_index(entries: &mut Vec<Entry>)
    ensures
        sorted_by_index(final(entries)@),
        final(entries)@.to_multiset() == old(entries)@.to_multiset(),
{
    let n = entries.len();
    let mut i: usize = 1;
    while i < n
        invariant
            1 <= i <= n || n == 0,
            n == entries.len(),
            entries@.to_multiset() == old(entries)@.to_multiset(),
            forall|a: int, b: int| 0 <= a < b < i ==> entries@[a].index <= entries@[b].index,
        decreases n - i,
    {
        let mut j: usize = i;
        while j > 0 && entries[j - 1].index > entries[j].index
            invariant
                0 <= j <= i < n,
                n == entries.len(),
                entries@.to_multiset() == old(entries)@.to_multiset(),
                forall|a: int, b: int|
                    0 <= a < b <= i && b != j ==> entries@[a].index <= entries@[b].index,
            decreases j,
        {
            let prev = entries[j - 1];
            let cur = entries[j];
            let ghost pre = entries@;
            entries[j - 1] = cur;
            entries[j] = prev;
            proof {
                lemma_swap_preserves_multiset(pre, j - 1, j as int);
            }
            j -= 1;
        }
        i += 1;
    }
}

/// Sort entries in place into ascending order of stored value, in the
/// floating-point order.  No value may be NaN, since NaN has no place in
/// that order.  The result is a rearrangement of the input.
pub fn sort_entries_by_value(entries: &mut Vec<Entry>)
    requires
        forall|i: int|
            0 <= i < old(entries)@.len() ==> !crate::fbits::is_nan_bits(old(entries)@[i].value),
    ensures
        sorted_by_value(final(entries)@),
        final(entries)@.to_multiset() == old(entries)@.to_multiset(),
{
    let n = entries.len();
    let mut i: usize = 1;
    while i < n
        invariant
            1 <= i <= n || n == 0,
            n == entries.len(),
            entries@.to_multiset() == old(entries)@.to_multiset(),
            forall|a: int|
                0 <= a < n ==> !crate::fbits::is_nan_bits(entries@[a].value),
            forall|a: int, b: int|
                0 <= a < b < i ==> f64_key(entries@[a].value) <= f64_key(entries@[b].value),
        decreases n - i,
    {
        let mut j: usize = i;
        while j > 0 && crate::fbits::exec_lt(entries[j].value, entries[j - 1].value)
            invariant
                0 <= j <= i < n,
                n == entries.len(),
                entries@.to_multiset() == old(entries)@.to_multiset(),
                forall|a: int|
                    0 <= a < n ==> !crate::fbits::is_nan_bits(entries@[a].value),
                forall|a: int, b: int|
                    0 <= a < b <= i && b != j
                        ==> f64_key(entries@[a].value) <= f64_key(entries@[b].value),
            decreases j,
        {
            let prev = entries[j - 1];
            let cur = entries[j];
            let ghost pre = entries@;
            entries[j - 1] = cur;
            entries[j] = prev;
            proof {
                lemma_swap_preserves_multiset(pre, j - 1, j as int);
            }
            j -= 1;
        }
        i += 1;
    }
}

/// Row-major order on coordinate triples: by row, then by column.
pub open spec fn row_major_leq(a: CooEntry, b: CooEntry) -> bool {
    a.row < b.row || (a.row == b.row && a.column <= b.column)
}

/// Column-major order on coordinate triples: by column, then by row.
pub open spec fn col_major_leq(a: CooEntry, b: CooEntry) -> bool {
    a.column < b.column || (a.column == b.column && a.row <= b.row)
}

pub open spec fn sorted_row_major(s: Seq<CooEntry>) -> bool {
    forall|i: int, j: int| 0 <= i < j < s.len() ==> row_major_leq(s[i], s[j])
}

pub open spec fn sorted_col_major(s: Seq<CooEntry>) -> bool {
    forall|i: int, j: int| 0 <= i < j < s.len() ==> col_major_leq(s[i], s[j])
}

/// Coordinate triples held in row-major order, ready for row-compressed
/// assembly.
pub struct CSREntriesSort(pub Vec<CooEntry>);

impl CSREntriesSort {
    /// Sort the triples into row-major order.
    pub fn new(entries: Vec<CooEntry>) -> (r: Self)
        ensures
            sorted_row_major(r.0@),
            r.0@.to_multiset() == entries@.to_multiset(),
    {
        let mut sorted_entries = entries;
        let n = sorted_entries.len();
        let mut i: usize = 1;
        while i < n
            invariant
                1 <= i <= n || n == 0,
                n == sorted_entries.len(),
                sorted_entries@.to_multiset() == entries@.to_multiset(),
                forall|a: int, b: int|
                    0 <= a < b < i ==> row_major_leq(sorted_entries@[a], sorted_entries@[b]),
            decreases n - i,
        {
            let mut j: usize = i;
            while j > 0 && !row_major_le(&sorted_entries[j - 1], &sorted_entries[j])
                invariant
                    0 <= j <= i < n,
                    n == sorted_entries.len(),
                    sorted_entries@.to_multiset() == entries@.to_multiset(),
                    forall|a: int, b: int|
                        0 <= a < b <= i && b != j
                            ==> row_major_leq(sorted_entries@[a], sorted_entries@[b]),
                decreases j,
            {
                let prev = sorted_entries[j - 1];
                let cur = sorted_entries[j];
                let ghost pre = sorted_entries@;
                sorted_entries[j - 1] = cur;
                sorted_entries[j] = prev;
                proof {
                    lemma_swap_preserves_multiset(pre, j - 1, j as int);
                }
                j -= 1;
            }
            proof {
                assert forall|a: int, b: int|
                    0 <= a < b <= i implies row_major_leq(sorted_entries@[a], sorted_entries@[b]) by {
                    if b == j && a < j - 1 {
                        assert(row_major_leq(sorted_entries@[a], sorted_entries@[j - 1]));
                    }
                }
            }
            i += 1;
        }
        CSREntriesSort(sorted_entries)
    }

    /// The sorted triples, as a fresh list.
    pub fn entries(&self) -> (r: Vec<CooEntry>)
        ensures
            r@ == self.0@,
    {
        copy_coo_entries(&self.0)
    }
}

/// Coordinate triples held in column-major order, ready for
/// column-compressed assembly.
pub struct CSCEntriesSort(pub Vec<CooEntry>);

impl CSCEntriesSort {
    /// Sort the triples into column-major order.
    pub fn new(entries: Vec<CooEntry>) -> (r: Self)
        ensures
            sorted_col_major(r.0@),
            r.0@.to_multiset() == entries@.to_multiset(),
    {
        let mut sorted_entries = entries;
        let n = sorted_entries.len();
        let mut i: usize = 1;
        while i < n
            invariant
                1 <= i <= n || n == 0,
                n == sorted_entries.len(),
                sorted_entries@.to_multiset() == entries@.to_multiset(),
                forall|a: int, b: int|
                    0 <= a < b < i ==> col_major_leq(sorted_entries@[a], sorted_entries@[b]),
            decreases n - i,
        {
            let mut j: usize = i;
            while j > 0 && !col_major_le(&sorted_entries[j - 1], &sorted_entries[j])
                invariant
                    0 <= j <= i < n,
                    n == sorted_entries.len(),
                    sorted_entries@.to_multiset() == entries@.to_multiset(),
                    forall|a: int, b: int|
                        0 <= a < b <= i && b != j
                            ==> col_major_leq(sorted_entries@[a], sorted_entries@[b]),
                decreases j,
            {
                let prev = sorted_entries[j - 1];
                let cur = sorted_entries[j];
                let ghost pre = sorted_entries@;
                sorted_entries[j - 1] = cur;
                sorted_entries[j] = prev;
                proof {
                    lemma_swap_preserves_multiset(pre, j - 1, j as int);
                }
                j -= 1;
            }
            proof {
                assert forall|a: int, b: int|
                    0 <= a < b <= i implies col_major_leq(sorted_entries@[a], sorted_entries@[b]) by {
                    if b == j && a < j - 1 {
                        assert(col_major_leq(sorted_entries@[a], sorted_entries@[j - 1]));
                    }
                }
            }
            i += 1;
        }
        CSCEntriesSort(sorted_entries)
    }

    /// The sorted triples, as a fresh list.
    pub fn entries(&self) -> (r: Vec<CooEntry>)
        ensures
            r@ == self.0@,
    {
        copy_coo_entries(&self.0)
    }
}

/// Whether `a` comes no later than `b` in row-major order.
fn row_major_le(a: &CooEntry, b: &CooEntry) -> (r: bool)
    ensures
        r == row_major_leq(*a, *b),
{
    a.row < b.row || (a.row == b.row && a.column <= b.column)
}

/// Whether `a` comes no later than `b` in column-major order.
fn col_major_le(a: &CooEntry, b: &CooEntry) -> (r: bool)
    ensures
        r == col_major_leq(*a, *b),
{
    a.column < b.column || (a.column == b.column && a.row <= b.row)
}

/// A fresh copy of a triple list.
fn copy_coo_entries(entries: &Vec<CooEntry>) -> (r: Vec<CooEntry>)
    ensures
        r@ == entries@,
{
    let mut out: Vec<CooEntry> = Vec::new();
    let mut k: usize = 0;
    while k < entries.len()
        invariant
            0 <= k <= entries.len(),
            out@ == entries@.take(k as int),
        decreases entries.len() - k,
    {
        out.push(entries[k]);
        proof {
            assert(out@ =~= entries@.take(k + 1));
        }
        k += 1;
    }
    proof {
        assert(out@ =~= entries@);
    }
    out
}

} // verus!
