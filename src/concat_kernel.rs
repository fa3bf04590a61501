//! Concatenation on buffers: a buffer of `outer` rows is joined, row by row,
//! from a row of `ra` elements of `a` followed by a row of `rb` elements of `b`.
use vstd::prelude::*;
use vstd::arithmetic::div_mod::{lemma_fundamental_div_mod, lemma_fundamental_div_mod_converse, lemma_mod_bound};
use vstd::arithmetic::mul::{lemma_mul_inequality, lemma_mul_is_distributive_add};
use crate::ratio::Ratio;
use crate::buffer::all_wf;

verus! {

/// Element `k` of the concatenation of `a` and `b`, rows of `ra` and `rb`.
pub open spec fn concat_entry(a: Seq<Ratio>, b: Seq<Ratio>, ra: int, rb: int, k: int) -> Ratio {
    let o = k / (ra + rb);
    let j = k % (ra + rb);
    if j < ra {
        a[o * ra + j]
    } else {
        b[o * rb + (j - ra)]
    }
}

/// The concatenation of `outer` rows of `a` (`ra` each) with rows of `b`.
pub open spec fn concat_rows(a: Seq<Ratio>, b: Seq<Ratio>, outer: int, ra: int, rb: int) -> Seq<Ratio> {
    Seq::new((outer * (ra + rb)) as nat, |k: int| concat_entry(a, b, ra, rb, k))
}

/// The part of a gradient of the concatenation that belongs to `a`.
pub open spec fn split_left(g: Seq<Ratio>, outer: int, ra: int, rb: int) -> Seq<Ratio> {
    Seq::new((outer * ra) as nat, |i: int| g[(i / ra) * (ra + rb) + i % ra])
}

/// The part of a gradient of the concatenation that belongs to `b`.
pub open spec fn split_right(g: Seq<Ratio>, outer: int, ra: int, rb: int) -> Seq<Ratio> {
    Seq::new((outer * rb) as nat, |i: int| g[(i / rb) * (ra + rb) + ra + i % rb])
}

/// `o * w + j < outer * w` where `o < outer`, `j < w`.
proof fn lemma_row_index(o: int, j: int, outer: int, w: int)
    requires
        0 <= o < outer,
        0 <= j < w,
    ensures
        0 <= o * w + j < outer * w,
        (o * w + j) / w == o,
        (o * w + j) % w == j,
{
    assert(0 <= o * w && o * w + w <= outer * w) by (nonlinear_arith)
        requires 0 <= o < outer, 0 <= w;
    lemma_fundamental_div_mod_converse(o * w + j, w, o, j);
}

/// The rows of each operand fit where the joined rows do.
proof fn lemma_parts_fit(outer: int, ra: int, rb: int)
    requires
        0 <= outer,
        0 <= ra,
        0 <= rb,
        outer * (ra + rb) <= usize::MAX,
    ensures
        outer * ra <= usize::MAX,
        outer * rb <= usize::MAX,
        outer * ra + outer * rb == outer * (ra + rb),
{
    assert(outer * ra <= outer * (ra + rb) && outer * rb <= outer * (ra + rb)
        && outer * ra + outer * rb == outer * (ra + rb)) by (nonlinear_arith)
        requires 0 <= outer, 0 <= ra, 0 <= rb;
}

/// Joins `a` and `b` row by row.
pub fn concat_forward(a: &Vec<Ratio>, b: &Vec<Ratio>, outer: usize, ra: usize, rb: usize) -> (c: Vec<Ratio>)
    requires
        a@.len() == outer * ra,
        b@.len() == outer * rb,
        outer * (ra + rb) <= usize::MAX,
    ensures
        c@ == concat_rows(a@, b@, outer as int, ra as int, rb as int),
        all_wf(a@) && all_wf(b@) ==> all_wf(c@),
{
    let ghost w = ra + rb;
    proof {
        lemma_parts_fit(outer as int, ra as int, rb as int);
    }
    let mut c: Vec<Ratio> = Vec::new();
    let mut o: usize = 0;
    let mut base_a: usize = 0;
    let mut base_b: usize = 0;
    while o < outer
        invariant
            a@.len() == outer * ra,
            b@.len() == outer * rb,
            outer * (ra + rb) <= usize::MAX,
            outer * ra <= usize::MAX,
            outer * rb <= usize::MAX,
            w == ra + rb,
            o <= outer,
            base_a == o * ra,
            base_b == o * rb,
            c@.len() == o * w,
            forall|k: int| 0 <= k < c@.len() ==> c@[k] == concat_entry(a@, b@, ra as int, rb as int, k),
            all_wf(a@) && all_wf(b@) ==> all_wf(c@),
        decreases outer - o,
    {
        proof {
            lemma_mul_inequality(o as int + 1, outer as int, ra as int);
            lemma_mul_inequality(o as int + 1, outer as int, rb as int);
            lemma_mul_inequality(o as int + 1, outer as int, w);
            lemma_mul_is_distributive_add(ra as int, o as int, 1);
            lemma_mul_is_distributive_add(rb as int, o as int, 1);
            lemma_mul_is_distributive_add(w, o as int, 1);
        }
        let mut j: usize = 0;
        while j < ra
            invariant
                a@.len() == outer * ra,
                outer * ra <= usize::MAX,
                w == ra + rb,
                o < outer,
                base_a == o * ra,
                base_a + ra <= a@.len(),
                j <= ra,
                c@.len() == o * w + j,
                forall|k: int| 0 <= k < c@.len() ==> c@[k] == concat_entry(a@, b@, ra as int, rb as int, k),
                all_wf(a@) && all_wf(b@) ==> all_wf(c@),
            decreases ra - j,
        {
            proof {
                lemma_row_index(o as int, j as int, outer as int, w);
            }
            c.push(a[base_a + j]);
            j = j + 1;
        }
        let mut j: usize = 0;
        while j < rb
            invariant
                b@.len() == outer * rb,
                outer * rb <= usize::MAX,
                w == ra + rb,
                o < outer,
                base_b == o * rb,
                base_b + rb <= b@.len(),
                j <= rb,
                c@.len() == o * w + ra + j,
                forall|k: int| 0 <= k < c@.len() ==> c@[k] == concat_entry(a@, b@, ra as int, rb as int, k),
                all_wf(a@) && all_wf(b@) ==> all_wf(c@),
            decreases rb - j,
        {
            proof {
                lemma_row_index(o as int, ra + j as int, outer as int, w);
            }
            c.push(b[base_b + j]);
            j = j + 1;
        }
        o = o + 1;
        base_a = base_a + ra;
        base_b = base_b + rb;
    }
    assert(c@ =~= concat_rows(a@, b@, outer as int, ra as int, rb as int));
    c
}

/// Splits a gradient of the concatenation at the boundary used by
/// `concat_forward`: the first part belongs to `a`, the second to `b`.
pub fn concat_split(g: &Vec<Ratio>, outer: usize, ra: usize, rb: usize) -> (r: (Vec<Ratio>, Vec<Ratio>))
    requires
        g@.len() == outer * (ra + rb),
        outer * (ra + rb) <= usize::MAX,
        all_wf(g@),
    ensures
        r.0@ == split_left(g@, outer as int, ra as int, rb as int),
        r.1@ == split_right(g@, outer as int, ra as int, rb as int),
        all_wf(r.0@),
        all_wf(r.1@),
{
    let ghost w = ra + rb;
    let mut left: Vec<Ratio> = Vec::new();
    let mut right: Vec<Ratio> = Vec::new();
    let mut o: usize = 0;
    let mut base: usize = 0;
    while o < outer
        invariant
            g@.len() == outer * w,
            outer * w <= usize::MAX,
            all_wf(g@),
            all_wf(left@),
            all_wf(right@),
            w == ra + rb,
            o <= outer,
            base == o * w,
            left@.len() == o * ra,
            right@.len() == o * rb,
            forall|i: int| 0 <= i < left@.len() ==> left@[i] == g@[(i / ra as int) * w + i % ra as int],
            forall|i: int| 0 <= i < right@.len() ==> right@[i] == g@[(i / rb as int) * w + ra + i % rb as int],
        decreases outer - o,
    {
        proof {
            lemma_mul_inequality(o as int + 1, outer as int, w);
            assert((o + 1) * w == o * w + w && (o + 1) * ra == o * ra + ra && (o + 1) * rb == o * rb + rb)
                by (nonlinear_arith);
        }
        let mut j: usize = 0;
        while j < ra
            invariant
                g@.len() == outer * w,
                outer * w <= usize::MAX,
                all_wf(g@),
                all_wf(left@),
                all_wf(right@),
                w == ra + rb,
                o < outer,
                base == o * w,
                base + w <= g@.len(),
                j <= ra,
                left@.len() == o * ra + j,
                forall|i: int| 0 <= i < left@.len() ==> left@[i] == g@[(i / ra as int) * w + i % ra as int],
            decreases ra - j,
        {
            proof {
                lemma_fundamental_div_mod_converse(o * ra + j, ra as int, o as int, j as int);
            }
            left.push(g[base + j]);
            j = j + 1;
        }
        let mut j: usize = 0;
        while j < rb
            invariant
                g@.len() == outer * w,
                outer * w <= usize::MAX,
                all_wf(g@),
                all_wf(left@),
                all_wf(right@),
                w == ra + rb,
                o < outer,
                base == o * w,
                base + w <= g@.len(),
                j <= rb,
                right@.len() == o * rb + j,
                forall|i: int| 0 <= i < right@.len() ==> right@[i] == g@[(i / rb as int) * w + ra + i % rb as int],
            decreases rb - j,
        {
            proof {
                lemma_fundamental_div_mod_converse(o * rb + j, rb as int, o as int, j as int);
            }
            right.push(g[base + ra + j]);
            j = j + 1;
        }
        o = o + 1;
        base = base + ra + rb;
    }
    assert(left@ =~= split_left(g@, outer as int, ra as int, rb as int));
    assert(right@ =~= split_right(g@, outer as int, ra as int, rb as int));
    (left, right)
}

/// Concatenation's backward step is a lossless partition: joining the two
/// parts of a gradient gives back the gradient, and splitting a joined buffer
/// gives back its operands.
pub proof fn concat_partition_law(g: Seq<Ratio>, a: Seq<Ratio>, b: Seq<Ratio>, outer: int, ra: int, rb: int)
    requires
        0 <= outer,
        0 <= ra,
        0 <= rb,
        g.len() == outer * (ra + rb),
        a.len() == outer * ra,
        b.len() == outer * rb,
    ensures
        concat_rows(split_left(g, outer, ra, rb), split_right(g, outer, ra, rb), outer, ra, rb) == g,
        split_left(concat_rows(a, b, outer, ra, rb), outer, ra, rb) == a,
        split_right(concat_rows(a, b, outer, ra, rb), outer, ra, rb) == b,
{
    let w = ra + rb;
    let l = split_left(g, outer, ra, rb);
    let r = split_right(g, outer, ra, rb);
    assert forall|k: int| 0 <= k < outer * w implies #[trigger] concat_entry(l, r, ra, rb, k) == g[k] by {
        lemma_fundamental_div_mod(k, w);
        lemma_mod_bound(k, w);
        let o = k / w;
        let j = k % w;
        assert(0 <= o < outer) by (nonlinear_arith)
            requires k == w * o + j, 0 <= j < w, 0 <= k < outer * w;
        if j < ra {
            lemma_row_index(o, j, outer, ra);
        } else {
            lemma_row_index(o, j - ra, outer, rb);
        }
    }
    assert(concat_rows(l, r, outer, ra, rb) =~= g);
    let c = concat_rows(a, b, outer, ra, rb);
    assert forall|i: int| 0 <= i < outer * ra implies #[trigger] split_left(c, outer, ra, rb)[i] == a[i] by {
        assert(ra > 0) by (nonlinear_arith)
            requires 0 <= i < outer * ra, 0 <= outer;
        lemma_fundamental_div_mod(i, ra);
        lemma_mod_bound(i, ra);
        let o = i / ra;
        let j = i % ra;
        assert(0 <= o < outer) by (nonlinear_arith)
            requires i == ra * o + j, 0 <= j < ra, 0 <= i < outer * ra;
        lemma_row_index(o, j, outer, w);
    }
    assert(split_left(c, outer, ra, rb) =~= a);
    assert forall|i: int| 0 <= i < outer * rb implies #[trigger] split_right(c, outer, ra, rb)[i] == b[i] by {
        assert(rb > 0) by (nonlinear_arith)
            requires 0 <= i < outer * rb, 0 <= outer;
        lemma_fundamental_div_mod(i, rb);
        lemma_mod_bound(i, rb);
        let o = i / rb;
        let j = i % rb;
        assert(0 <= o < outer) by (nonlinear_arith)
            requires i == rb * o + j, 0 <= j < rb, 0 <= i < outer * rb;
        lemma_row_index(o, ra + j, outer, w);
    }
    assert(split_right(c, outer, ra, rb) =~= b);
}

} // verus!
