//! Small helpers: list utilities and the compensated summation state
//! machine used by the norm and dot-product computations.

use vstd::prelude::*;
use crate::fbits::POS_ZERO;
use crate::fbits::abs_lt_bits;
use crate::fbits::exec_abs_lt;

verus! {

/// `None` for an empty list, the list itself otherwise.
pub fn nil_if_empty<T>(slice: Vec<T>) -> (r: Option<Vec<T>>)
    ensures
        match r {
            None => slice@.len() == 0,
            Some(v) => v@ == slice@ && slice@.len() > 0,
        },
{
    if slice.is_empty() {
        None
    } else {
        Some(slice)
    }
}

/// The elements for which the predicate answered true, in order.  Each
/// kept element was passed to the predicate, which returned true for it;
/// each dropped element got the answer false.
pub fn filter<T: Copy, F: Fn(&T) -> bool>(slice: Vec<T>, pred: F) -> (r: Vec<T>)
    requires
        forall|x: T| #[trigger] call_requires(pred, (&x,)),
    ensures
        filtered_rel(pred, slice@, r@),
{
    let mut out: Vec<T> = Vec::new();
    let mut k: usize = 0;
    while k < slice.len()
        invariant
            forall|x: T| #[trigger] call_requires(pred, (&x,)),
            0 <= k <= slice@.len(),
            filtered_rel(pred, slice@.take(k as int), out@),
        decreases slice@.len() - k,
    {
        let ghost prev_in = slice@.take(k as int);
        let ghost prev_out = out@;
        let x = slice[k];
        let keep = pred(&x);
        if keep {
            out.push(x);
            proof {
                assert(out@.drop_last() =~= prev_out);
            }
        }
        proof {
            assert(slice@.take(k + 1).drop_last() =~= prev_in);
            assert(slice@.take(k + 1).last() == x);
        }
        k += 1;
    }
    proof {
        assert(slice@.take(slice@.len() as int) =~= slice@);
    }
    out
}

/// How a kept list arises from the input: walking the input in order,
/// each element is kept or dropped according to an answer the predicate
/// actually gave for it.
pub open spec fn filtered_rel<T, F: Fn(&T) -> bool>(pred: F, input: Seq<T>, out: Seq<T>) -> bool
    decreases input.len(),
{
    if input.len() == 0 {
        out.len() == 0
    } else {
        exists|b: bool|
            #[trigger] call_ensures(pred, (&input.last(),), b) && (if b {
                out.len() > 0 && out.last() == input.last() && filtered_rel(
                    pred,
                    input.drop_last(),
                    out.drop_last(),
                )
            } else {
                filtered_rel(pred, input.drop_last(), out)
            })
    }
}

/// The plain left fold of a value sequence under the given binary
/// closure, starting from `init`: each intermediate accumulator is an
/// actual output of the closure on the previous accumulator and the next
/// value.
pub open spec fn fold_rel<F: Fn(u64, u64) -> u64>(
    f: F,
    init: u64,
    vals: Seq<u64>,
    out: u64,
) -> bool
    decreases vals.len(),
{
    if vals.len() == 0 {
        out == init
    } else {
        exists|m: u64|
            fold_rel(f, init, vals.drop_last(), m) && #[trigger] call_ensures(
                f,
                (m, vals.last()),
                out,
            )
    }
}

/// Compensated (Kahan-Babushka-Neumaier) summation state: the running
/// sum and the running compensation, as binary64 bit patterns.
pub struct KBNSummer {
    pub sum: u64,
    pub compensation: u64,
}

/// The larger-magnitude of a running sum and an incoming value.
pub open spec fn kbn_more(s: u64, x: u64) -> u64 {
    if abs_lt_bits(s, x) {
        x
    } else {
        s
    }
}

/// The smaller-magnitude of a running sum and an incoming value.
pub open spec fn kbn_less(s: u64, x: u64) -> u64 {
    if abs_lt_bits(s, x) {
        s
    } else {
        x
    }
}

/// One compensated-summation step with the given addition and
/// subtraction closures, from state `s0` absorbing `x` to state `s1`:
/// the sum becomes `s0.sum + x`, and the compensation grows by the
/// recovered truncation error `less - ((s0.sum + x) - more)`, where
/// `more`/`less` order the two addends by magnitude.
pub open spec fn kbn_step_rel<FA: Fn(u64, u64) -> u64, FS: Fn(u64, u64) -> u64>(
    add_op: FA,
    sub_op: FS,
    s0: (u64, u64),
    x: u64,
    s1: (u64, u64),
) -> bool {
    let more = kbn_more(s0.0, x);
    let less = kbn_less(s0.0, x);
    exists|t: u64|
        #[trigger] call_ensures(add_op, (s0.0, x), t) && s1.0 == t && exists|tr: u64|
            #[trigger] call_ensures(sub_op, (t, more), tr) && exists|e: u64|
                #[trigger] call_ensures(sub_op, (less, tr), e) && call_ensures(
                    add_op,
                    (s0.1, e),
                    s1.1,
                )
}

/// The compensated summation of a value sequence: the state reached from
/// `(+0.0, +0.0)` by absorbing each value in order.
pub open spec fn kbn_fold_rel<FA: Fn(u64, u64) -> u64, FS: Fn(u64, u64) -> u64>(
    add_op: FA,
    sub_op: FS,
    vals: Seq<u64>,
    st: (u64, u64),
) -> bool
    decreases vals.len(),
{
    if vals.len() == 0 {
        st == (POS_ZERO, POS_ZERO)
    } else {
        exists|prev: (u64, u64)|
            kbn_fold_rel(add_op, sub_op, vals.drop_last(), prev) && #[trigger] kbn_step_rel(
                add_op,
                sub_op,
                prev,
                vals.last(),
                st,
            )
    }
}

impl KBNSummer {
    /// A fresh summer: sum and compensation both `+0.0`.
    pub fn new() -> (s: KBNSummer)
        ensures
            s.sum == POS_ZERO,
            s.compensation == POS_ZERO,
    {
        KBNSummer { sum: POS_ZERO, compensation: POS_ZERO }
    }

    /// Absorb one value, performing exactly one compensated step.
    pub fn add<FA: Fn(u64, u64) -> u64, FS: Fn(u64, u64) -> u64>(
        &mut self,
        value: u64,
        add_op: &FA,
        sub_op: &FS,
    )
        requires
            forall|x: u64, y: u64| #[trigger] call_requires(*add_op, (x, y)),
            forall|x: u64, y: u64| #[trigger] call_requires(*sub_op, (x, y)),
        ensures
            kbn_step_rel(
                *add_op,
                *sub_op,
                (old(self).sum, old(self).compensation),
                value,
                (final(self).sum, final(self).compensation),
            ),
    {
        let more: u64;
        let less: u64;
        if exec_abs_lt(self.sum, value) {
            more = value;
            less = self.sum;
        } else {
            more = self.sum;
            less = value;
        }
        let t = add_op(self.sum, value);
        let tr = sub_op(t, more);
        let e = sub_op(less, tr);
        self.compensation = add_op(self.compensation, e);
        self.sum = t;
        proof {
            let s0 = (old(self).sum, old(self).compensation);
            let s1 = (self.sum, self.compensation);
            assert(more == kbn_more(s0.0, value) && less == kbn_less(s0.0, value));
            assert(call_ensures(*add_op, (s0.0, value), t));
            assert(call_ensures(*sub_op, (t, kbn_more(s0.0, value)), tr));
            assert(call_ensures(*sub_op, (kbn_less(s0.0, value), tr), e));
            assert(call_ensures(*add_op, (s0.1, e), s1.1));
            assert(kbn_step_rel(*add_op, *sub_op, s0, value, s1));
        }
    }

    /// The compensated total: the sum plus the compensation.
    pub fn sum<FA: Fn(u64, u64) -> u64>(&self, add_op: &FA) -> (r: u64)
        requires
            forall|x: u64, y: u64| #[trigger] call_requires(*add_op, (x, y)),
        ensures
            call_ensures(*add_op, (self.sum, self.compensation), r),
    {
        add_op(self.sum, self.compensation)
    }
}

} // verus!
