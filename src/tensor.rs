//! Tensors, the device that names them, and the kernel contract of
//! concatenation.
use vstd::prelude::*;
use crate::ratio::{one_ratio, Ratio};
use crate::buffer::{add_assign, all_wf, copy_buffer, elementwise_sum, filled, sums_fit};
use crate::shape::{
    all_positive, concat_compatible, concat_dims, concat_shape_law, concat_shape_result, concat_shapes,
    inner_dims, lemma_split_at_axis, mismatch_at, num_elements, outer_dims, split_at_axis, Axis, Shape,
    TensorError,
};
use crate::concat_kernel::{concat_forward, concat_rows, concat_split, split_left, split_right};
use crate::tape::{replay, BackwardOp, GhostTensor, Gradients, Tape};
use crate::min_kernel::{min_forward, min_reduce_rows};
use crate::mean_kernel::{mean_forward, mean_of, sum_forward, sum_of};
use crate::shape::lemma_num_elements_append;

verus! {

/// The reference device: it hands out tensor identities in increasing order.
#[derive(Debug)]
pub struct Cpu {
    pub next_id: u64,
}

/// A tensor: its shape, its elements in row-major order, its identity and
/// its tape.
#[derive(Debug)]
pub struct Tensor {
    pub shape: Shape,
    pub data: Vec<Ratio>,
    pub id: u64,
    pub tape: Tape,
}

impl Tensor {
    /// Positive dimensions whose product is the number of elements, every
    /// element well formed, and every recorded step consistent.
    pub open spec fn wf(&self) -> bool {
        &&& all_positive(self.shape@)
        &&& self.data@.len() == num_elements(self.shape@)
        &&& all_wf(self.data@)
        &&& self.tape.wf()
    }

    /// The identity and element count of this tensor.
    pub fn ghost(&self) -> (r: GhostTensor)
        ensures
            r.id == self.id,
            r.len == self.data@.len(),
    {
        GhostTensor { id: self.id, len: self.data.len() }
    }

    /// A copy that shares this tensor's identity and starts a new tape:
    /// what follows from it is recorded.
    pub fn trace(&self) -> (r: Tensor)
        requires
            self.wf(),
        ensures
            r.wf(),
            r.shape@ == self.shape@,
            r.data@ == self.data@,
            r.id == self.id,
            r.tape is Tracing,
            r.tape.ops().len() == 0,
    {
        Tensor { shape: copy_shape(&self.shape), data: copy_buffer(&self.data), id: self.id, tape: Tape::Tracing(Vec::new()) }
    }

    /// A copy that shares this tensor's identity, without a tape.
    pub fn duplicate(&self) -> (r: Tensor)
        requires
            self.wf(),
        ensures
            r.wf(),
            r.shape@ == self.shape@,
            r.data@ == self.data@,
            r.id == self.id,
            r.tape is NoTape,
    {
        Tensor { shape: copy_shape(&self.shape), data: copy_buffer(&self.data), id: self.id, tape: Tape::NoTape }
    }

    /// Takes the tape off the tensor.
    pub fn split_tape(self) -> (r: (Tensor, Tape))
        ensures
            r.0.shape@ == self.shape@,
            r.0.data@ == self.data@,
            r.0.id == self.id,
            r.0.tape is NoTape,
            r.1 == self.tape,
    {
        let Tensor { shape, data, id, tape } = self;
        (Tensor { shape, data, id, tape: Tape::NoTape }, tape)
    }

    /// Puts a tape on the tensor, in place of the one it had.
    pub fn put_tape(self, tape: Tape) -> (r: Tensor)
        ensures
            r.shape@ == self.shape@,
            r.data@ == self.data@,
            r.id == self.id,
            r.tape == tape,
    {
        let Tensor { shape, data, id, tape: _ } = self;
        Tensor { shape, data, id, tape }
    }
}

fn copy_shape(s: &Shape) -> (r: Shape)
    ensures
        r@ == s@,
{
    let mut dims: Vec<usize> = Vec::new();
    let mut i: usize = 0;
    while i < s.dims.len()
        invariant
            i <= s@.len(),
            dims@ == s@.subrange(0, i as int),
        decreases s@.len() - i,
    {
        dims.push(s.dims[i]);
        i = i + 1;
    }
    Shape { dims }
}

/// The store that a backward pass from `root` starts with: ones for the root.
pub open spec fn seeded(root: GhostTensor) -> Map<u64, Seq<Ratio>> {
    Map::empty().insert(root.id, Seq::new(root.len as nat, |i: int| one_ratio()))
}

/// Runs the backward pass from `root`: its gradient is seeded with ones,
/// then the recorded steps run newest first.
pub fn backward(dev: &Cpu, root: Tensor) -> (r: Result<Gradients, TensorError>)
    requires
        root.wf(),
    ensures
        match replay(seeded(GhostTensor { id: root.id, len: root.data@.len() as usize }), root.tape.ops()) {
            Ok(m) => r matches Ok(g) && g.wf() && g@ == m,
            Err(e) => r == Err::<Gradients, TensorError>(e),
        },
{
    let ghost_root = root.ghost();
    let mut store = Gradients::new();
    store.alloc_for(&ghost_root);
    let ones = filled(ghost_root.len, Ratio::one());
    assert(store@ == Map::<u64, Seq<Ratio>>::empty().insert(root.id, Seq::new(ghost_root.len as nat, |i: int| crate::ratio::zero_ratio())));
    store.replace(root.id, ones);
    assert(store@ =~= seeded(ghost_root));
    match root.tape {
        Tape::NoTape => {
            assert(root.tape.ops() == Seq::<BackwardOp>::empty());
            Ok(store)
        },
        Tape::Tracing(ops) => {
            crate::tape::replay_ops(dev, &mut store, &ops)?;
            Ok(store)
        },
    }
}

/// The number of elements before axis `ax`, taken as rows.
pub open spec fn axis_outer(dims: Seq<usize>, ax: int) -> int {
    num_elements(outer_dims(dims, ax)) as int
}

/// The number of elements after axis `ax`.
pub open spec fn axis_inner(dims: Seq<usize>, ax: int) -> int {
    num_elements(inner_dims(dims, ax)) as int
}

/// Shapes that agree off axis `ax` agree before and after it, also with the
/// shape of their concatenation.
proof fn lemma_compatible_parts(a: Seq<usize>, b: Seq<usize>, ax: int)
    requires
        a.len() == b.len(),
        0 <= ax < a.len(),
        concat_compatible(a, b, ax),
    ensures
        outer_dims(a, ax) == outer_dims(b, ax),
        inner_dims(a, ax) == inner_dims(b, ax),
        outer_dims(concat_dims(a, b, ax), ax) == outer_dims(a, ax),
        inner_dims(concat_dims(a, b, ax), ax) == inner_dims(a, ax),
{
    assert forall|i: int| 0 <= i < a.len() && i != ax implies a[i] == b[i] by {
        assert(!mismatch_at(a, b, ax, i));
    }
    assert(outer_dims(a, ax) =~= outer_dims(b, ax));
    assert(inner_dims(a, ax) =~= inner_dims(b, ax));
    assert(outer_dims(concat_dims(a, b, ax), ax) =~= outer_dims(a, ax));
    assert(inner_dims(concat_dims(a, b, ax), ax) =~= inner_dims(a, ax));
}

/// The forward and backward kernels of concatenation on one device. The
/// operands are laid out as `outer` rows of `ra` and `rb` elements.
pub trait ConcatAlongKernel {
    /// Joins `a` and `b` row by row.
    fn forward(&self, outer: usize, ra: usize, rb: usize, a: &Vec<Ratio>, b: &Vec<Ratio>) -> (c: Vec<Ratio>)
        requires
            a@.len() == outer * ra,
            b@.len() == outer * rb,
            outer * (ra + rb) <= usize::MAX,
        ensures
            c@ == concat_rows(a@, b@, outer as int, ra as int, rb as int),
            all_wf(a@) && all_wf(b@) ==> all_wf(c@),
    ;

    /// Splits `grad_out` at the boundary of `forward` and adds each part into
    /// the gradient of its operand.
    fn backward(
        &self,
        outer: usize,
        ra: usize,
        rb: usize,
        grad_a: &mut Vec<Ratio>,
        grad_b: &mut Vec<Ratio>,
        grad_out: &Vec<Ratio>,
    ) -> (r: Result<(), TensorError>)
        requires
            old(grad_a)@.len() == outer * ra,
            old(grad_b)@.len() == outer * rb,
            grad_out@.len() == outer * (ra + rb),
            outer * (ra + rb) <= usize::MAX,
            all_wf(old(grad_a)@),
            all_wf(old(grad_b)@),
            all_wf(grad_out@),
        ensures
            r is Ok <==> sums_fit(old(grad_a)@, split_left(grad_out@, outer as int, ra as int, rb as int))
                && sums_fit(old(grad_b)@, split_right(grad_out@, outer as int, ra as int, rb as int)),
            r is Ok ==> final(grad_a)@ == elementwise_sum(old(grad_a)@, split_left(grad_out@, outer as int, ra as int, rb as int))
                && final(grad_b)@ == elementwise_sum(old(grad_b)@, split_right(grad_out@, outer as int, ra as int, rb as int)),
            r is Err ==> r == Err::<(), TensorError>(TensorError::Overflow),
            all_wf(final(grad_a)@),
            all_wf(final(grad_b)@),
    ;
}

impl ConcatAlongKernel for Cpu {
    fn forward(&self, outer: usize, ra: usize, rb: usize, a: &Vec<Ratio>, b: &Vec<Ratio>) -> (c: Vec<Ratio>) {
        concat_forward(a, b, outer, ra, rb)
    }

    fn backward(
        &self,
        outer: usize,
        ra: usize,
        rb: usize,
        grad_a: &mut Vec<Ratio>,
        grad_b: &mut Vec<Ratio>,
        grad_out: &Vec<Ratio>,
    ) -> (r: Result<(), TensorError>) {
        let (left, right) = concat_split(grad_out, outer, ra, rb);
        let mut new_b = copy_buffer(grad_b);
        add_assign(&mut new_b, &right)?;
        add_assign(grad_a, &left)?;
        *grad_b = new_b;
        Ok(())
    }
}

impl Cpu {
    /// A device whose first identity is zero.
    pub fn new() -> (r: Cpu)
        ensures
            r.next_id == 0,
    {
        Cpu { next_id: 0 }
    }

    /// A new identity; fails once all are spent.
    pub fn fresh_id(&mut self) -> (r: Result<u64, TensorError>)
        ensures
            old(self).next_id < u64::MAX ==> r == Ok::<u64, TensorError>(old(self).next_id) && final(self).next_id == old(self).next_id + 1,
            old(self).next_id == u64::MAX ==> r == Err::<u64, TensorError>(TensorError::Overflow) && final(self).next_id == old(self).next_id,
    {
        if self.next_id == u64::MAX {
            Err(TensorError::Overflow)
        } else {
            let id = self.next_id;
            self.next_id = self.next_id + 1;
            Ok(id)
        }
    }

    /// A tensor of the given shape and row-major elements, without a tape.
    pub fn tensor(&mut self, dims: Vec<usize>, data: Vec<Ratio>) -> (r: Result<Tensor, TensorError>)
        requires
            all_positive(dims@),
            data@.len() == num_elements(dims@),
            all_wf(data@),
        ensures
            r is Ok <==> old(self).next_id < u64::MAX,
            r is Err ==> r == Err::<Tensor, TensorError>(TensorError::Overflow),
            r matches Ok(t) ==> t.wf() && t.shape@ == dims@ && t.data@ == data@ && t.id == old(self).next_id
                && t.tape is NoTape,
    {
        let id = self.fresh_id()?;
        Ok(Tensor { shape: Shape { dims }, data, id, tape: Tape::NoTape })
    }

    /// Fallibly concatenates two tensors along axis `ax`. Their tapes are
    /// joined, left first, and the step is recorded where either is traced.
    pub fn try_concat_along(&mut self, lhs: Tensor, rhs: Tensor, ax: Axis) -> (r: Result<Tensor, TensorError>)
        requires
            lhs.wf(),
            rhs.wf(),
            lhs.shape@.len() == rhs.shape@.len(),
            ax.0 < lhs.shape@.len(),
        ensures
            r is Ok <==> concat_shape_result(lhs.shape@, rhs.shape@, ax.0 as int) is Ok
                && lhs.data@.len() + rhs.data@.len() <= usize::MAX && old(self).next_id < u64::MAX,
            concat_shape_result(lhs.shape@, rhs.shape@, ax.0 as int) matches Err(e) ==> r == Err::<Tensor, TensorError>(e),
            concat_shape_result(lhs.shape@, rhs.shape@, ax.0 as int) is Ok && r is Err ==> r == Err::<Tensor, TensorError>(TensorError::Overflow),
            r matches Ok(t) ==> ({
                let a = lhs.shape@;
                let b = rhs.shape@;
                let k = ax.0 as int;
                let outer = axis_outer(a, k);
                let ra = a[k] * axis_inner(a, k);
                let rb = b[k] * axis_inner(a, k);
                &&& t.wf()
                &&& t.shape@ == concat_dims(a, b, k)
                &&& t.data@ == concat_rows(lhs.data@, rhs.data@, outer, ra, rb)
                &&& t.id == old(self).next_id
                &&& (t.tape is Tracing <==> (lhs.tape is Tracing || rhs.tape is Tracing))
                &&& t.tape is Tracing ==> t.tape.ops() == (lhs.tape.ops() + rhs.tape.ops()).push(BackwardOp::Concat {
                    a: GhostTensor { id: lhs.id, len: lhs.data@.len() as usize },
                    b: GhostTensor { id: rhs.id, len: rhs.data@.len() as usize },
                    out: GhostTensor { id: t.id, len: t.data@.len() as usize },
                    outer: outer as usize,
                    ra: ra as usize,
                    rb: rb as usize,
                })
                &&& t.tape is NoTape ==> t.tape.ops().len() == 0
            }),
    {
        let k = ax.0;
        proof {
            concat_shape_law(lhs.shape@, rhs.shape@, k as int);
        }
        let out_shape = concat_shapes(&lhs.shape.dims, &rhs.shape.dims, k)?;
        assert(out_shape@ == concat_dims(lhs.shape@, rhs.shape@, k as int));
        proof {
            lemma_compatible_parts(lhs.shape@, rhs.shape@, k as int);
        }
        let la = lhs.data.len();
        let lb = rhs.data.len();
        if la > usize::MAX - lb {
            return Err(TensorError::Overflow);
        }
        let (outer, ka, inner) = split_at_axis(&lhs.shape.dims, k, la);
        let (_, kb, _) = split_at_axis(&rhs.shape.dims, k, lb);
        proof {
            assert(ka * inner <= outer * (ka * inner)) by (nonlinear_arith)
                requires outer >= 1, ka * inner >= 0;
            assert(kb * inner <= outer * (kb * inner)) by (nonlinear_arith)
                requires outer >= 1, kb * inner >= 0;
        }
        let ra = ka * inner;
        let rb = kb * inner;
        proof {
            assert(outer * (ra + rb) == outer * ra + outer * rb) by (nonlinear_arith);
            assert((ka + kb) * inner == ra + rb) by (nonlinear_arith)
                requires ra == ka * inner, rb == kb * inner;
            lemma_split_at_axis(out_shape@, k as int);
            assert(out_shape@[k as int] == ka + kb);
            lemma_positive_concat(lhs.shape@, rhs.shape@, k as int);
        }
        let data = self.forward(outer, ra, rb, &lhs.data, &rhs.data);
        let id = self.fresh_id()?;
        let out_len = data.len();
        let a_ghost = lhs.ghost();
        let b_ghost = rhs.ghost();
        let (_, ltape) = lhs.split_tape();
        let (_, rtape) = rhs.split_tape();
        let mut tape = ltape.merge(rtape);
        let op = BackwardOp::Concat {
            a: a_ghost,
            b: b_ghost,
            out: GhostTensor { id, len: out_len },
            outer,
            ra,
            rb,
        };
        let ghost merged = tape.ops();
        tape.add_backward_op(op);
        proof {
            assert forall|i: int| 0 <= i < tape.ops().len() implies #[trigger] tape.ops()[i].wf() by {
                if i < merged.len() {
                    if i < lhs.tape.ops().len() {
                        assert(merged[i] == lhs.tape.ops()[i]);
                    } else {
                        assert(merged[i] == rhs.tape.ops()[i - lhs.tape.ops().len()]);
                    }
                }
            }
        }
        Ok(Tensor { shape: out_shape, data, id, tape })
    }

    /// Concatenates two tensors along axis `ax`, where that succeeds.
    pub fn concat_along(&mut self, lhs: Tensor, rhs: Tensor, ax: Axis) -> (r: Tensor)
        requires
            lhs.wf(),
            rhs.wf(),
            lhs.shape@.len() == rhs.shape@.len(),
            ax.0 < lhs.shape@.len(),
            concat_shape_result(lhs.shape@, rhs.shape@, ax.0 as int) is Ok,
            lhs.data@.len() + rhs.data@.len() <= usize::MAX,
            old(self).next_id < u64::MAX,
        ensures
            r.wf(),
            r.shape@ == concat_dims(lhs.shape@, rhs.shape@, ax.0 as int),
            r.data@ == concat_rows(lhs.data@, rhs.data@, axis_outer(lhs.shape@, ax.0 as int),
                lhs.shape@[ax.0 as int] * axis_inner(lhs.shape@, ax.0 as int),
                rhs.shape@[ax.0 as int] * axis_inner(lhs.shape@, ax.0 as int)),
            r.id == old(self).next_id,
    {
        self.try_concat_along(lhs, rhs, ax).unwrap()
    }
}

/// The concatenation of shapes of positive dimensions has positive dimensions.
proof fn lemma_positive_concat(a: Seq<usize>, b: Seq<usize>, ax: int)
    requires
        a.len() == b.len(),
        0 <= ax < a.len(),
        all_positive(a),
        all_positive(b),
        a[ax] + b[ax] <= usize::MAX,
    ensures
        all_positive(concat_dims(a, b, ax)),
{
    assert forall|i: int| 0 <= i < a.len() implies #[trigger] concat_dims(a, b, ax)[i] >= 1 by {
        if i == ax {
            assert(b[ax] >= 1);
        }
    }
}

/// The shape left when axis `ax` is reduced away has the count before it
/// times the count after it.
proof fn lemma_remove_axis(dims: Seq<usize>, ax: int)
    requires
        0 <= ax < dims.len(),
        all_positive(dims),
    ensures
        num_elements(dims.remove(ax)) == num_elements(outer_dims(dims, ax)) * num_elements(inner_dims(dims, ax)),
        all_positive(dims.remove(ax)),
{
    assert(dims.remove(ax) =~= outer_dims(dims, ax) + inner_dims(dims, ax));
    lemma_num_elements_append(outer_dims(dims, ax), inner_dims(dims, ax));
    assert forall|i: int| 0 <= i < dims.remove(ax).len() implies #[trigger] dims.remove(ax)[i] >= 1 by {
        if i < ax {
            assert(dims.remove(ax)[i] == dims[i]);
        } else {
            assert(dims.remove(ax)[i] == dims[i + 1]);
        }
    }
}

/// `op` is the min-reduction step with these operands and this layout.
pub open spec fn is_min_step(
    op: BackwardOp,
    inp: GhostTensor,
    out: GhostTensor,
    inp_values: Seq<Ratio>,
    out_values: Seq<Ratio>,
    outer: int,
    n: int,
    inner: int,
) -> bool {
    match op {
        BackwardOp::MinReduce { inp: i, out: o, inp_data, out_data, outer: so, n: sn, inner: si } => {
            &&& i == inp
            &&& o == out
            &&& inp_data@ == inp_values
            &&& out_data@ == out_values
            &&& so == outer
            &&& sn == n
            &&& si == inner
        },
        _ => false,
    }
}

/// `o` is the minimum of `t` along `ax`, named `id`, with its tape.
pub open spec fn min_along_result(t: Tensor, ax: Axis, id: u64, o: Tensor) -> bool {
    let k = ax.0 as int;
    let outer = axis_outer(t.shape@, k);
    let n = t.shape@[k] as int;
    let inner = axis_inner(t.shape@, k);
    &&& o.wf()
    &&& o.shape@ == t.shape@.remove(k)
    &&& o.data@ == min_reduce_rows(t.data@, outer, n, inner)
    &&& o.id == id
    &&& (o.tape is Tracing <==> t.tape is Tracing)
    &&& t.tape is NoTape ==> o.tape.ops().len() == 0
    &&& t.tape is Tracing ==> o.tape.ops().drop_last() == t.tape.ops() && o.tape.ops().len() == t.tape.ops().len() + 1
        && is_min_step(o.tape.ops().last(), GhostTensor { id: t.id, len: t.data@.len() as usize },
            GhostTensor { id: o.id, len: o.data@.len() as usize }, t.data@, o.data@, outer, n, inner)
}

/// Without a tape, the same forward computation run twice gives the same
/// shape and elements, and records no step either time.
pub proof fn no_tape_law(t1: Tensor, t2: Tensor, ax: Axis, id1: u64, id2: u64, o1: Tensor, o2: Tensor)
    requires
        t1.shape@ == t2.shape@,
        t1.data@ == t2.data@,
        t1.tape is NoTape,
        t2.tape is NoTape,
        ax.0 < t1.shape@.len(),
        min_along_result(t1, ax, id1, o1),
        min_along_result(t2, ax, id2, o2),
    ensures
        o1.shape@ == o2.shape@,
        o1.data@ == o2.data@,
        o1.tape is NoTape,
        o2.tape is NoTape,
        o1.tape.ops().len() == 0,
        o2.tape.ops().len() == 0,
{
}

/// The tape of a result of one operand, with `op` recorded where it is traced.
pub open spec fn recorded(before: Tape, after: Tape, op: BackwardOp) -> bool {
    &&& (after is Tracing <==> before is Tracing)
    &&& before is Tracing ==> after.ops() == before.ops().push(op)
    &&& before is NoTape ==> after.ops().len() == 0
}

impl Cpu {
    /// The minimum along axis `ax`, which the result no longer has. Each
    /// group is scanned in row order from an infinity-initialised accumulator.
    pub fn try_min_along(&mut self, t: Tensor, ax: Axis) -> (r: Result<Tensor, TensorError>)
        requires
            t.wf(),
            ax.0 < t.shape@.len(),
        ensures
            r is Ok <==> old(self).next_id < u64::MAX,
            r is Err ==> r == Err::<Tensor, TensorError>(TensorError::Overflow),
            r matches Ok(o) ==> min_along_result(t, ax, old(self).next_id, o),
    {
        let k = ax.0;
        let len = t.data.len();
        let (outer, n, inner) = split_at_axis(&t.shape.dims, k, len);
        proof {
            lemma_remove_axis(t.shape@, k as int);
            assert(outer * inner <= outer * (n * inner)) by (nonlinear_arith)
                requires outer >= 1, n >= 1, inner >= 1;
        }
        let data = min_forward(&t.data, outer, n, inner);
        let id = self.fresh_id()?;
        let mut dims = copy_shape(&t.shape).dims;
        dims.remove(k);
        let op = BackwardOp::MinReduce {
            inp: t.ghost(),
            out: GhostTensor { id, len: data.len() },
            inp_data: copy_buffer(&t.data),
            out_data: copy_buffer(&data),
            outer,
            n,
            inner,
        };
        let (_, mut tape) = t.split_tape();
        let ghost before = tape;
        tape.add_backward_op(op);
        proof {
            assert forall|i: int| 0 <= i < tape.ops().len() implies #[trigger] tape.ops()[i].wf() by {
                if i < before.ops().len() {
                    assert(tape.ops()[i] == before.ops()[i]);
                }
            }
            if before is Tracing {
                assert(tape.ops().drop_last() =~= before.ops());
            }
        }
        Ok(Tensor { shape: Shape { dims }, data, id, tape })
    }

    /// The sum of all elements, as a tensor of no dimensions.
    pub fn try_sum(&mut self, t: Tensor) -> (r: Result<Tensor, TensorError>)
        requires
            t.wf(),
        ensures
            r is Ok <==> sum_of(t.data@) is Some && old(self).next_id < u64::MAX,
            r is Err ==> r == Err::<Tensor, TensorError>(TensorError::Overflow),
            r matches Ok(o) ==> ({
                &&& o.wf()
                &&& o.shape@.len() == 0
                &&& o.data@ == seq![sum_of(t.data@)->0]
                &&& o.id == old(self).next_id
                &&& recorded(t.tape, o.tape, BackwardOp::Sum {
                    inp: GhostTensor { id: t.id, len: t.data@.len() as usize },
                    out: GhostTensor { id: o.id, len: 1 },
                })
            }),
    {
        let total = sum_forward(&t.data)?;
        let id = self.fresh_id()?;
        let op = BackwardOp::Sum { inp: t.ghost(), out: GhostTensor { id, len: 1 } };
        let (_, mut tape) = t.split_tape();
        let ghost before = tape;
        tape.add_backward_op(op);
        proof {
            assert forall|i: int| 0 <= i < tape.ops().len() implies #[trigger] tape.ops()[i].wf() by {
                if i < before.ops().len() {
                    assert(tape.ops()[i] == before.ops()[i]);
                }
            }
        }
        let data = vec![total];
        assert(data@ =~= seq![total]);
        assert(num_elements(Seq::<usize>::empty()) == 1);
        Ok(Tensor { shape: Shape { dims: Vec::new() }, data, id, tape })
    }
}

/// The arithmetic mean of all elements of a tensor.
pub trait HasMeanMethod: Sized {
    spec fn mean_pre(&self) -> bool;

    /// `r` is the outcome of taking the mean of `self` on a device whose next
    /// identity was `next_id`.
    spec fn mean_post(&self, next_id: u64, r: Result<Tensor, TensorError>) -> bool;

    /// The mean of all elements, as a tensor of no dimensions; the backward
    /// step gives every element the upstream gradient divided by the count.
    fn mean(self, dev: &mut Cpu) -> (r: Result<Tensor, TensorError>)
        requires
            self.mean_pre(),
        ensures
            self.mean_post(old(dev).next_id, r),
    ;
}

impl HasMeanMethod for Tensor {
    open spec fn mean_pre(&self) -> bool {
        self.wf()
    }

    open spec fn mean_post(&self, next_id: u64, r: Result<Tensor, TensorError>) -> bool {
        &&& r is Ok <==> mean_of(self.data@) is Some && next_id < u64::MAX
        &&& r is Err ==> r == Err::<Tensor, TensorError>(TensorError::Overflow)
        &&& r matches Ok(o) ==> ({
            &&& o.wf()
            &&& o.shape@.len() == 0
            &&& o.data@ == seq![mean_of(self.data@)->0]
            &&& o.id == next_id
            &&& recorded(self.tape, o.tape, BackwardOp::Mean {
                inp: GhostTensor { id: self.id, len: self.data@.len() as usize },
                out: GhostTensor { id: o.id, len: 1 },
            })
        })
    }

    fn mean(self, dev: &mut Cpu) -> (r: Result<Tensor, TensorError>) {
        proof {
            crate::shape::lemma_num_elements_positive(self.shape@);
        }
        let m = mean_forward(&self.data)?;
        let id = dev.fresh_id()?;
        let op = BackwardOp::Mean { inp: self.ghost(), out: GhostTensor { id, len: 1 } };
        let (_, mut tape) = self.split_tape();
        let ghost before = tape;
        tape.add_backward_op(op);
        proof {
            assert forall|i: int| 0 <= i < tape.ops().len() implies #[trigger] tape.ops()[i].wf() by {
                if i < before.ops().len() {
                    assert(tape.ops()[i] == before.ops()[i]);
                }
            }
        }
        let data = vec![m];
        assert(data@ =~= seq![m]);
        assert(num_elements(Seq::<usize>::empty()) == 1);
        Ok(Tensor { shape: Shape { dims: Vec::new() }, data, id, tape })
    }
}

} // verus!
