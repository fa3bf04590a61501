//! Element buffers and the elementwise primitives on them.
use vstd::prelude::*;
use crate::ratio::{ratio_add, Ratio};
use crate::shape::TensorError;

verus! {

/// Every element of the buffer is a well-formed fraction.
pub open spec fn all_wf(s: Seq<Ratio>) -> bool {
    forall|i: int| 0 <= i < s.len() ==> s[i].wf()
}

/// The elementwise sums of two buffers of one length can all be held.
pub open spec fn sums_fit(x: Seq<Ratio>, y: Seq<Ratio>) -> bool {
    forall|i: int| 0 <= i < x.len() ==> ratio_add(x[i], y[i]) is Some
}

/// The elementwise sum of two buffers, where it can be held.
pub open spec fn elementwise_sum(x: Seq<Ratio>, y: Seq<Ratio>) -> Seq<Ratio> {
    Seq::new(x.len(), |i: int| ratio_add(x[i], y[i])->0)
}

/// A copy of a buffer.
pub fn copy_buffer(v: &Vec<Ratio>) -> (r: Vec<Ratio>)
    ensures
        r@ == v@,
{
    let mut r: Vec<Ratio> = Vec::new();
    let mut i: usize = 0;
    while i < v.len()
        invariant
            i <= v@.len(),
            r@ == v@.subrange(0, i as int),
        decreases v@.len() - i,
    {
        r.push(v[i]);
        i = i + 1;
    }
    r
}

/// A buffer of `n` copies of `v`.
pub fn filled(n: usize, v: Ratio) -> (r: Vec<Ratio>)
    ensures
        r@ == Seq::new(n as nat, |i: int| v),
{
    let mut r: Vec<Ratio> = Vec::new();
    let mut i: usize = 0;
    while i < n
        invariant
            i <= n,
            r@ == Seq::new(i as nat, |k: int| v),
        decreases n - i,
    {
        r.push(v);
        i = i + 1;
        assert(r@ =~= Seq::new(i as nat, |k: int| v));
    }
    r
}

/// Adds `src` into `dst` element by element; where a sum cannot be held,
/// `dst` is left as it was and the call fails.
pub fn add_assign(dst: &mut Vec<Ratio>, src: &Vec<Ratio>) -> (r: Result<(), TensorError>)
    requires
        old(dst)@.len() == src@.len(),
        all_wf(old(dst)@),
        all_wf(src@),
    ensures
        r is Ok <==> sums_fit(old(dst)@, src@),
        r is Ok ==> final(dst)@ == elementwise_sum(old(dst)@, src@),
        r is Err ==> final(dst)@ == old(dst)@,
        r is Err ==> r == Err::<(), TensorError>(TensorError::Overflow),
        all_wf(final(dst)@),
{
    let mut out: Vec<Ratio> = Vec::new();
    let mut i: usize = 0;
    while i < src.len()
        invariant
            dst@.len() == src@.len(),
            all_wf(dst@),
            all_wf(src@),
            i <= src@.len(),
            out@.len() == i,
            forall|k: int| 0 <= k < i ==> ratio_add(dst@[k], src@[k]) is Some,
            forall|k: int| 0 <= k < i ==> out@[k] == ratio_add(dst@[k], src@[k])->0 && out@[k].wf(),
        decreases src@.len() - i,
    {
        match dst[i].checked_add(&src[i]) {
            Some(s) => {
                out.push(s);
            },
            None => {
                return Err(TensorError::Overflow);
            },
        }
        i = i + 1;
    }
    assert(out@ =~= elementwise_sum(dst@, src@));
    *dst = out;
    Ok(())
}

} // verus!
