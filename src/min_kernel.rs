//! Min-reduction on buffers. The input is viewed as `outer` blocks of `n`
//! rows of `inner` elements; the axis of the `n` rows is reduced, so output
//! element `o * inner + i` is the minimum of the group of input elements
//! `o * (n * inner) + j * inner + i` for `j < n`.
use vstd::prelude::*;
use vstd::arithmetic::div_mod::lemma_fundamental_div_mod_converse;
use crate::ratio::{less_than, same_value, zero_ratio, infinity_ratio, lemma_below_infinity, lemma_le_trans, Ratio};
use crate::buffer::{add_assign, all_wf, elementwise_sum, sums_fit};
use crate::shape::TensorError;

verus! {

/// The input position of element `j` of group `(o, i)`.
pub open spec fn group_index(o: int, j: int, i: int, n: int, inner: int) -> int {
    o * (n * inner) + j * inner + i
}

/// The group of input elements that output element `(o, i)` reduces.
pub open spec fn group(inp: Seq<Ratio>, n: int, inner: int, o: int, i: int) -> Seq<Ratio> {
    Seq::new(n as nat, |j: int| inp[group_index(o, j, i, n, inner)])
}

/// The minimum of a sequence, scanning from the front and keeping the first
/// of equal values; the infinity value where it is empty.
pub open spec fn min_of(s: Seq<Ratio>) -> Ratio
    decreases s.len(),
{
    if s.len() == 0 {
        infinity_ratio()
    } else {
        let m = min_of(s.drop_last());
        if less_than(s.last(), m) {
            s.last()
        } else {
            m
        }
    }
}

/// The output of the reduction.
pub open spec fn min_reduce_rows(inp: Seq<Ratio>, outer: int, n: int, inner: int) -> Seq<Ratio> {
    Seq::new((outer * inner) as nat, |r: int| min_of(group(inp, n, inner, r / inner, r % inner)))
}

/// The output position that input position `k` is reduced into.
pub open spec fn reduced_position(k: int, n: int, inner: int) -> int {
    (k / (n * inner)) * inner + (k % (n * inner)) % inner
}

/// What input position `k` receives in the backward step: the whole upstream
/// gradient of its output where it equals that output (every tied minimum
/// gets it), nothing otherwise.
pub open spec fn min_grad_entry(inp: Seq<Ratio>, out: Seq<Ratio>, grad_out: Seq<Ratio>, n: int, inner: int, k: int) -> Ratio {
    let r = reduced_position(k, n, inner);
    if same_value(inp[k], out[r]) {
        grad_out[r]
    } else {
        zero_ratio()
    }
}

pub open spec fn min_grad_shares(inp: Seq<Ratio>, out: Seq<Ratio>, grad_out: Seq<Ratio>, n: int, inner: int) -> Seq<Ratio> {
    Seq::new(inp.len(), |k: int| min_grad_entry(inp, out, grad_out, n, inner, k))
}

/// Group positions are in range and decompose back into `(o, j, i)`.
proof fn lemma_group_index(o: int, j: int, i: int, outer: int, n: int, inner: int)
    requires
        0 <= o < outer,
        0 <= j < n,
        0 <= i < inner,
    ensures
        0 <= j * inner + i < n * inner,
        0 <= group_index(o, j, i, n, inner) < outer * (n * inner),
        group_index(o, j, i, n, inner) / (n * inner) == o,
        group_index(o, j, i, n, inner) % (n * inner) == j * inner + i,
        (j * inner + i) % inner == i,
        reduced_position(group_index(o, j, i, n, inner), n, inner) == o * inner + i,
        0 <= o * inner + i < outer * inner,
        n * inner <= outer * (n * inner),
{
    assert(0 <= j * inner && j * inner + inner <= n * inner) by (nonlinear_arith)
        requires 0 <= j < n, 0 < inner;
    assert(0 <= o * (n * inner) && o * (n * inner) + n * inner <= outer * (n * inner)) by (nonlinear_arith)
        requires 0 <= o < outer, 0 < n * inner;
    assert(0 <= o * inner && o * inner + inner <= outer * inner) by (nonlinear_arith)
        requires 0 <= o < outer, 0 < inner;
    assert(n * inner <= outer * (n * inner)) by (nonlinear_arith)
        requires 0 <= o < outer, 0 < n * inner;
    lemma_fundamental_div_mod_converse(j * inner + i, inner, j, i);
    lemma_fundamental_div_mod_converse(group_index(o, j, i, n, inner), n * inner, o, j * inner + i);
}

/// `outer * inner` fits where `outer * (n * inner)` does and `n >= 1`.
proof fn lemma_output_fits(outer: int, n: int, inner: int)
    requires
        0 <= outer,
        1 <= n,
        0 <= inner,
    ensures
        outer * inner <= outer * (n * inner),
{
    assert(outer * inner <= outer * (n * inner)) by (nonlinear_arith)
        requires 0 <= outer, 1 <= n, 0 <= inner;
}

/// The minimum of every group, each scanned from an infinity-initialised
/// accumulator in row order.
pub fn min_forward(inp: &Vec<Ratio>, outer: usize, n: usize, inner: usize) -> (out: Vec<Ratio>)
    requires
        inp@.len() == outer * (n * inner),
        outer * (n * inner) <= usize::MAX,
        1 <= n,
    ensures
        out@ == min_reduce_rows(inp@, outer as int, n as int, inner as int),
        all_wf(inp@) ==> all_wf(out@),
{
    proof {
        lemma_output_fits(outer as int, n as int, inner as int);
    }
    let mut out: Vec<Ratio> = Vec::new();
    let mut o: usize = 0;
    while o < outer
        invariant
            inp@.len() == outer * (n * inner),
            outer * (n * inner) <= usize::MAX,
            outer * inner <= usize::MAX,
            o <= outer,
            1 <= n,
            out@.len() == o * inner,
            forall|r: int| 0 <= r < out@.len() ==> out@[r] == min_of(group(inp@, n as int, inner as int, r / inner as int, r % inner as int)),
            all_wf(inp@) ==> all_wf(out@),
        decreases outer - o,
    {
        let mut i: usize = 0;
        while i < inner
            invariant
                inp@.len() == outer * (n * inner),
                outer * (n * inner) <= usize::MAX,
                outer * inner <= usize::MAX,
                o < outer,
                1 <= n,
                i <= inner,
                out@.len() == o * inner + i,
                forall|r: int| 0 <= r < out@.len() ==> out@[r] == min_of(group(inp@, n as int, inner as int, r / inner as int, r % inner as int)),
                all_wf(inp@) ==> all_wf(out@),
            decreases inner - i,
        {
            let ghost g = group(inp@, n as int, inner as int, o as int, i as int);
            let mut acc = Ratio::infinity();
            let mut j: usize = 0;
            while j < n
                invariant
                    inp@.len() == outer * (n * inner),
                    outer * (n * inner) <= usize::MAX,
                    o < outer,
                    i < inner,
                    j <= n,
                    g == group(inp@, n as int, inner as int, o as int, i as int),
                    acc == min_of(g.subrange(0, j as int)),
                    all_wf(inp@) ==> acc.wf(),
                decreases n - j,
            {
                proof {
                    lemma_group_index(o as int, j as int, i as int, outer as int, n as int, inner as int);
                    assert(g.subrange(0, j + 1).drop_last() =~= g.subrange(0, j as int));
                }
                let pos = o * (n * inner) + j * inner + i;
                if inp[pos].less_than(&acc) {
                    acc = inp[pos];
                }
                j = j + 1;
            }
            proof {
                lemma_group_index(o as int, 0, i as int, outer as int, n as int, inner as int);
                assert(g.subrange(0, n as int) =~= g);
                lemma_fundamental_div_mod_converse(o * inner + i, inner as int, o as int, i as int);
            }
            out.push(acc);
            i = i + 1;
        }
        proof {
            assert((o + 1) * inner == o * inner + inner) by (nonlinear_arith);
        }
        o = o + 1;
    }
    assert(out@ =~= min_reduce_rows(inp@, outer as int, n as int, inner as int));
    out
}

/// The backward step: every input element that equals the minimum of its
/// group receives the upstream gradient of that group, added to what it
/// holds; where a sum cannot be held the call fails and `grad_inp` is kept.
pub fn min_backward(
    inp: &Vec<Ratio>,
    grad_inp: &mut Vec<Ratio>,
    out: &Vec<Ratio>,
    grad_out: &Vec<Ratio>,
    outer: usize,
    n: usize,
    inner: usize,
) -> (r: Result<(), TensorError>)
    requires
        inp@.len() == outer * (n * inner),
        old(grad_inp)@.len() == inp@.len(),
        out@.len() == outer * inner,
        grad_out@.len() == outer * inner,
        outer * (n * inner) <= usize::MAX,
        1 <= n,
        all_wf(old(grad_inp)@),
        all_wf(grad_out@),
    ensures
        r is Ok <==> sums_fit(old(grad_inp)@, min_grad_shares(inp@, out@, grad_out@, n as int, inner as int)),
        r is Ok ==> final(grad_inp)@ == elementwise_sum(old(grad_inp)@, min_grad_shares(inp@, out@, grad_out@, n as int, inner as int)),
        r is Err ==> final(grad_inp)@ == old(grad_inp)@ && r == Err::<(), TensorError>(TensorError::Overflow),
        all_wf(final(grad_inp)@),
{
    proof {
        lemma_output_fits(outer as int, n as int, inner as int);
    }
    let ghost want = min_grad_shares(inp@, out@, grad_out@, n as int, inner as int);
    let mut share: Vec<Ratio> = Vec::new();
    let mut o: usize = 0;
    while o < outer
        invariant
            inp@.len() == outer * (n * inner),
            out@.len() == outer * inner,
            grad_out@.len() == outer * inner,
            outer * (n * inner) <= usize::MAX,
            outer * inner <= usize::MAX,
            all_wf(grad_out@),
            want == min_grad_shares(inp@, out@, grad_out@, n as int, inner as int),
            o <= outer,
            1 <= n,
            share@.len() == o * (n * inner),
            forall|k: int| 0 <= k < share@.len() ==> share@[k] == want[k] && share@[k].wf(),
        decreases outer - o,
    {
        let mut j: usize = 0;
        while j < n
            invariant
                inp@.len() == outer * (n * inner),
                out@.len() == outer * inner,
                grad_out@.len() == outer * inner,
                outer * (n * inner) <= usize::MAX,
                outer * inner <= usize::MAX,
                all_wf(grad_out@),
                want == min_grad_shares(inp@, out@, grad_out@, n as int, inner as int),
                o < outer,
                j <= n,
                share@.len() == o * (n * inner) + j * inner,
                forall|k: int| 0 <= k < share@.len() ==> share@[k] == want[k] && share@[k].wf(),
            decreases n - j,
        {
            let mut i: usize = 0;
            while i < inner
                invariant
                    inp@.len() == outer * (n * inner),
                    out@.len() == outer * inner,
                    grad_out@.len() == outer * inner,
                    outer * (n * inner) <= usize::MAX,
                    outer * inner <= usize::MAX,
                    all_wf(grad_out@),
                    want == min_grad_shares(inp@, out@, grad_out@, n as int, inner as int),
                    o < outer,
                    j < n,
                    i <= inner,
                    share@.len() == o * (n * inner) + j * inner + i,
                    forall|k: int| 0 <= k < share@.len() ==> share@[k] == want[k] && share@[k].wf(),
                decreases inner - i,
            {
                proof {
                    lemma_group_index(o as int, j as int, i as int, outer as int, n as int, inner as int);
                }
                let k = o * (n * inner) + j * inner + i;
                let r = o * inner + i;
                if inp[k].same_value(&out[r]) {
                    share.push(grad_out[r]);
                } else {
                    share.push(Ratio::zero());
                }
                i = i + 1;
            }
            proof {
                assert((j + 1) * inner == j * inner + inner) by (nonlinear_arith);
            }
            j = j + 1;
        }
        proof {
            assert(n * inner == n * inner + 0);
            assert((o + 1) * (n * inner) == o * (n * inner) + n * inner) by (nonlinear_arith);
        }
        o = o + 1;
    }
    assert(share@ =~= want);
    add_assign(grad_inp, &share)
}

/// The minimum of a non-empty sequence is one of its elements and no
/// element is smaller.
pub proof fn lemma_min_of(s: Seq<Ratio>)
    requires
        all_wf(s),
        s.len() > 0,
    ensures
        exists|j: int| 0 <= j < s.len() && min_of(s) == s[j],
        forall|j: int| 0 <= j < s.len() ==> !less_than(s[j], min_of(s)),
    decreases s.len(),
{
    let last = s.last();
    assert(last.wf());
    if s.len() == 1 {
        assert(s.drop_last().len() == 0);
        assert(min_of(s.drop_last()) == infinity_ratio());
        lemma_below_infinity(last);
        assert(min_of(s) == last);
        assert(min_of(s) == s[0]);
    } else {
        let p = s.drop_last();
        lemma_min_of(p);
        let m = min_of(p);
        let jm = choose|j: int| 0 <= j < p.len() && m == p[j];
        assert(m.wf());
        if less_than(last, m) {
            assert forall|j: int| 0 <= j < s.len() implies !less_than(s[j], min_of(s)) by {
                if j < s.len() - 1 {
                    assert(s[j] == p[j]);
                    lemma_le_trans(last, m, s[j]);
                }
            }
            assert(min_of(s) == s[s.len() - 1]);
        } else {
            assert forall|j: int| 0 <= j < s.len() implies !less_than(s[j], min_of(s)) by {
                if j < s.len() - 1 {
                    assert(s[j] == p[j]);
                }
            }
            assert(min_of(s) == s[jm]);
        }
    }
}

/// Ties in a min-reduction: where two elements of a group are equal and no
/// element is smaller, both receive the whole upstream gradient of the group
/// (it is not split between them), and a strictly larger element receives
/// zero.
pub proof fn min_tie_law(
    inp: Seq<Ratio>,
    grad_out: Seq<Ratio>,
    outer: int,
    n: int,
    inner: int,
    o: int,
    i: int,
    j1: int,
    j2: int,
    j3: int,
)
    requires
        all_wf(inp),
        inp.len() == outer * (n * inner),
        grad_out.len() == outer * inner,
        0 <= o < outer,
        0 <= i < inner,
        0 <= j1 < n,
        0 <= j2 < n,
        0 <= j3 < n,
        group(inp, n, inner, o, i)[j1] == group(inp, n, inner, o, i)[j2],
        forall|j: int| 0 <= j < n ==> !less_than(#[trigger] group(inp, n, inner, o, i)[j], group(inp, n, inner, o, i)[j1]),
        less_than(group(inp, n, inner, o, i)[j1], group(inp, n, inner, o, i)[j3]),
    ensures
        ({
            let shares = min_grad_shares(inp, min_reduce_rows(inp, outer, n, inner), grad_out, n, inner);
            &&& shares[group_index(o, j1, i, n, inner)] == grad_out[o * inner + i]
            &&& shares[group_index(o, j2, i, n, inner)] == grad_out[o * inner + i]
            &&& shares[group_index(o, j3, i, n, inner)] == zero_ratio()
        }),
{
    let g = group(inp, n, inner, o, i);
    lemma_group_index(o, j1, i, outer, n, inner);
    lemma_group_index(o, j2, i, outer, n, inner);
    lemma_group_index(o, j3, i, outer, n, inner);
    let r = o * inner + i;
    lemma_fundamental_div_mod_converse(r, inner, o, i);
    let out = min_reduce_rows(inp, outer, n, inner);
    assert(out[r] == min_of(g));
    assert forall|j: int| 0 <= j < g.len() implies (#[trigger] g[j]).wf() by {
        lemma_group_index(o, j, i, outer, n, inner);
    }
    lemma_min_of(g);
    let m = min_of(g);
    let jm = choose|j: int| 0 <= j < g.len() && m == g[j];
    assert(!less_than(g[jm], g[j1]));
    assert(!less_than(g[j1], m));
    assert(same_value(g[j1], m));
    if same_value(g[j3], m) {
        lemma_le_trans(g[j3], m, g[j1]);
    }
    assert(inp[group_index(o, j1, i, n, inner)] == g[j1]);
    assert(inp[group_index(o, j2, i, n, inner)] == g[j2]);
    assert(inp[group_index(o, j3, i, n, inner)] == g[j3]);
}

} // verus!
