//! Whole-buffer sum and mean, with their backward steps.
use vstd::prelude::*;
use crate::ratio::{ratio_add, ratio_mul, ratio_of, zero_ratio, Ratio};
use crate::buffer::{add_assign, all_wf, elementwise_sum, filled, sums_fit};
use crate::shape::TensorError;

verus! {

/// The sum of a sequence, added from the front; `None` where a partial sum
/// cannot be held.
pub open spec fn sum_of(s: Seq<Ratio>) -> Option<Ratio>
    decreases s.len(),
{
    if s.len() == 0 {
        Some(zero_ratio())
    } else {
        match sum_of(s.drop_last()) {
            Some(p) => ratio_add(p, s.last()),
            None => None,
        }
    }
}

/// The arithmetic mean: the sum with its denominator multiplied by the count.
pub open spec fn mean_of(s: Seq<Ratio>) -> Option<Ratio> {
    match sum_of(s) {
        Some(t) => ratio_of(t.num as int, t.den * s.len()),
        None => None,
    }
}

/// The derivative of the mean with respect to each element: `1 / n`.
pub open spec fn mean_derivative(n: int) -> Ratio {
    Ratio { num: 1, den: n as i64 }
}

/// What each element receives from upstream gradient `g` through the mean.
pub open spec fn mean_grad_share(g: Ratio, n: int) -> Option<Ratio> {
    ratio_mul(g, mean_derivative(n))
}

/// The sum of all elements.
pub fn sum_forward(data: &Vec<Ratio>) -> (r: Result<Ratio, TensorError>)
    requires
        all_wf(data@),
    ensures
        r is Ok <==> sum_of(data@) is Some,
        r matches Ok(t) ==> Some(t) == sum_of(data@) && t.wf(),
        r is Err ==> r == Err::<Ratio, TensorError>(TensorError::Overflow),
{
    let mut acc = Ratio::zero();
    let mut i: usize = 0;
    while i < data.len()
        invariant
            all_wf(data@),
            i <= data@.len(),
            Some(acc) == sum_of(data@.subrange(0, i as int)),
            acc.wf(),
        decreases data@.len() - i,
    {
        assert(data@.subrange(0, i + 1).drop_last() =~= data@.subrange(0, i as int));
        match acc.checked_add(&data[i]) {
            Some(s) => {
                acc = s;
            },
            None => {
                proof {
                    lemma_sum_none_extends(data@, i as int + 1);
                }
                return Err(TensorError::Overflow);
            },
        }
        i = i + 1;
    }
    assert(data@.subrange(0, data@.len() as int) =~= data@);
    Ok(acc)
}

/// A sum that cannot be held over a prefix cannot be held over the whole.
proof fn lemma_sum_none_extends(s: Seq<Ratio>, k: int)
    requires
        0 <= k <= s.len(),
        sum_of(s.subrange(0, k)) is None,
    ensures
        sum_of(s) is None,
    decreases s.len() - k,
{
    if k < s.len() {
        assert(s.subrange(0, k + 1).drop_last() =~= s.subrange(0, k));
        lemma_sum_none_extends(s, k + 1);
    } else {
        assert(s.subrange(0, k) =~= s);
    }
}

/// The arithmetic mean of all elements.
pub fn mean_forward(data: &Vec<Ratio>) -> (r: Result<Ratio, TensorError>)
    requires
        all_wf(data@),
        data@.len() >= 1,
    ensures
        r is Ok <==> mean_of(data@) is Some,
        r matches Ok(t) ==> Some(t) == mean_of(data@) && t.wf(),
        r is Ok ==> data@.len() <= i64::MAX,
        r is Err ==> r == Err::<Ratio, TensorError>(TensorError::Overflow),
{
    let total = sum_forward(data)?;
    let n = data.len();
    if n as u128 > i64::MAX as u128 {
        assert(data@.len() > i64::MAX);
        assert(total.den * data@.len() > i64::MAX) by (nonlinear_arith)
            requires total.den >= 1, data@.len() > i64::MAX;
        return Err(TensorError::Overflow);
    }
    match total.checked_mul(&Ratio::new(1, n as i64)) {
        Some(m) => {
            assert(total.num * 1 == total.num);
            Ok(m)
        },
        None => Err(TensorError::Overflow),
    }
}

/// The backward step of the sum: every element receives `g`.
pub fn sum_backward(grad_inp: &mut Vec<Ratio>, g: Ratio) -> (r: Result<(), TensorError>)
    requires
        all_wf(old(grad_inp)@),
        g.wf(),
    ensures
        r is Ok <==> sums_fit(old(grad_inp)@, Seq::new(old(grad_inp)@.len(), |i: int| g)),
        r is Ok ==> final(grad_inp)@ == elementwise_sum(old(grad_inp)@, Seq::new(old(grad_inp)@.len(), |i: int| g)),
        r is Err ==> final(grad_inp)@ == old(grad_inp)@ && r == Err::<(), TensorError>(TensorError::Overflow),
        all_wf(final(grad_inp)@),
{
    let share = filled(grad_inp.len(), g);
    add_assign(grad_inp, &share)
}

/// The backward step of the mean: every element receives `g / n`, `n` being
/// the number of elements.
pub fn mean_backward(grad_inp: &mut Vec<Ratio>, g: Ratio) -> (r: Result<(), TensorError>)
    requires
        all_wf(old(grad_inp)@),
        g.wf(),
        old(grad_inp)@.len() >= 1,
        old(grad_inp)@.len() <= i64::MAX,
    ensures
        r is Ok <==> ({
            let n = old(grad_inp)@.len() as int;
            &&& mean_grad_share(g, n) is Some
            &&& sums_fit(old(grad_inp)@, Seq::new(n as nat, |i: int| mean_grad_share(g, n)->0))
        }),
        r is Ok ==> final(grad_inp)@ == elementwise_sum(old(grad_inp)@, Seq::new(old(grad_inp)@.len(), |i: int| mean_grad_share(g, old(grad_inp)@.len() as int)->0)),
        r is Err ==> final(grad_inp)@ == old(grad_inp)@ && r == Err::<(), TensorError>(TensorError::Overflow),
        all_wf(final(grad_inp)@),
{
    let n = grad_inp.len();
    let derivative = Ratio::new(1, n as i64);
    match g.checked_mul(&derivative) {
        Some(d) => {
            let share = filled(n, d);
            add_assign(grad_inp, &share)
        },
        None => Err(TensorError::Overflow),
    }
}

} // verus!
