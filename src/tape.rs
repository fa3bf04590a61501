//! The tape of recorded backward steps and the gradient store they fill.
use vstd::prelude::*;
use crate::ratio::{zero_ratio, Ratio};
use crate::buffer::{add_assign, all_wf, copy_buffer, elementwise_sum, filled, sums_fit};
use crate::tensor::{ConcatAlongKernel, Cpu};
use crate::shape::TensorError;
use crate::concat_kernel::{concat_split, split_left, split_right};
use crate::min_kernel::{min_backward, min_grad_shares};
use crate::mean_kernel::{mean_backward, mean_grad_share, sum_backward};

verus! {

/// A tensor's identity and element count, without its data: the key of its
/// gradient in the store.
#[derive(Clone, Copy, Debug, PartialEq, Eq, Structural)]
pub struct GhostTensor {
    pub id: u64,
    pub len: usize,
}

/// One recorded backward step, holding what it needs of the forward pass.
#[derive(Debug)]
pub enum BackwardOp {
    /// `out` is `a` and `b` joined in `outer` rows of `ra` and `rb` elements.
    Concat { a: GhostTensor, b: GhostTensor, out: GhostTensor, outer: usize, ra: usize, rb: usize },
    /// `out` is the min-reduction of `inp` viewed as `outer` blocks of `n`
    /// rows of `inner`; the values of both are kept for the tie test.
    MinReduce {
        inp: GhostTensor,
        out: GhostTensor,
        inp_data: Vec<Ratio>,
        out_data: Vec<Ratio>,
        outer: usize,
        n: usize,
        inner: usize,
    },
    /// `out` is the sum of all elements of `inp`.
    Sum { inp: GhostTensor, out: GhostTensor },
    /// `out` is the mean of all elements of `inp`.
    Mean { inp: GhostTensor, out: GhostTensor },
}

impl BackwardOp {
    /// The recorded sizes agree with each other.
    pub open spec fn wf(&self) -> bool {
        match *self {
            BackwardOp::Concat { a, b, out, outer, ra, rb } => {
                &&& outer * (ra + rb) <= usize::MAX
                &&& a.len == outer * ra
                &&& b.len == outer * rb
                &&& out.len == outer * (ra + rb)
            },
            BackwardOp::MinReduce { inp, out, inp_data, out_data, outer, n, inner } => {
                &&& n >= 1
                &&& outer * (n * inner) <= usize::MAX
                &&& inp.len == outer * (n * inner)
                &&& inp_data@.len() == inp.len
                &&& out.len == outer * inner
                &&& out_data@.len() == out.len
            },
            BackwardOp::Sum { inp, out } => out.len == 1,
            BackwardOp::Mean { inp, out } => out.len == 1 && 1 <= inp.len <= i64::MAX,
        }
    }

    /// Whether the step names the identity `id`.
    pub open spec fn mentions(&self, id: u64) -> bool {
        match *self {
            BackwardOp::Concat { a, b, out, .. } => a.id == id || b.id == id || out.id == id,
            BackwardOp::MinReduce { inp, out, .. } => inp.id == id || out.id == id,
            BackwardOp::Sum { inp, out } => inp.id == id || out.id == id,
            BackwardOp::Mean { inp, out } => inp.id == id || out.id == id,
        }
    }
}

/// Whether a tensor's operations are recorded.
#[derive(Debug)]
pub enum Tape {
    NoTape,
    /// The recorded steps, oldest first.
    Tracing(Vec<BackwardOp>),
}

impl Tape {
    /// The recorded steps; none without a tape.
    pub open spec fn ops(&self) -> Seq<BackwardOp> {
        match self {
            Tape::NoTape => Seq::empty(),
            Tape::Tracing(v) => v@,
        }
    }

    pub open spec fn wf(&self) -> bool {
        forall|k: int| 0 <= k < self.ops().len() ==> #[trigger] self.ops()[k].wf()
    }

    /// The tape of a result of two operands: two tapes are joined, left steps
    /// first; a tape joined with no tape stays as it is.
    pub fn merge(self, other: Tape) -> (r: Tape)
        ensures
            r.ops() == self.ops() + other.ops(),
            r is Tracing <==> (self is Tracing || other is Tracing),
    {
        match (self, other) {
            (Tape::NoTape, Tape::NoTape) => {
                assert(Seq::<BackwardOp>::empty() + Seq::empty() =~= Seq::empty());
                Tape::NoTape
            },
            (Tape::Tracing(l), Tape::NoTape) => {
                assert(l@ + Seq::empty() =~= l@);
                Tape::Tracing(l)
            },
            (Tape::NoTape, Tape::Tracing(r)) => {
                assert(Seq::empty() + r@ =~= r@);
                Tape::Tracing(r)
            },
            (Tape::Tracing(mut l), Tape::Tracing(mut r)) => {
                l.append(&mut r);
                Tape::Tracing(l)
            },
        }
    }

    /// Records a step; without a tape nothing is recorded.
    pub fn add_backward_op(&mut self, op: BackwardOp)
        ensures
            *old(self) is Tracing ==> final(self).ops() == old(self).ops().push(op),
            *old(self) is NoTape ==> final(self).ops().len() == 0,
            *final(self) is Tracing <==> *old(self) is Tracing,
    {
        match self {
            Tape::NoTape => {},
            Tape::Tracing(v) => {
                v.push(op);
            },
        }
    }
}

/// The store with an entry for `g`: a zero buffer where it had none.
pub open spec fn with_entry(m: Map<u64, Seq<Ratio>>, g: GhostTensor) -> Map<u64, Seq<Ratio>> {
    if m.contains_key(g.id) {
        m
    } else {
        m.insert(g.id, Seq::new(g.len as nat, |i: int| zero_ratio()))
    }
}

/// The entry for `g` has the length of `g`.
pub open spec fn fits_ghost(m: Map<u64, Seq<Ratio>>, g: GhostTensor) -> bool {
    m[g.id].len() == g.len
}

/// The failure for an entry whose length is not that of `g`.
pub open spec fn length_error(m: Map<u64, Seq<Ratio>>, g: GhostTensor) -> TensorError {
    TensorError::ShapeMismatch { left: m[g.id].len() as usize, right: g.len }
}

/// Adds `share` into the entry for `id`, never overwriting it.
pub open spec fn accumulate(m: Map<u64, Seq<Ratio>>, id: u64, share: Seq<Ratio>) -> Result<Map<u64, Seq<Ratio>>, TensorError> {
    if sums_fit(m[id], share) {
        Ok(m.insert(id, elementwise_sum(m[id], share)))
    } else {
        Err(TensorError::Overflow)
    }
}

/// The effect of one backward step on the store.
pub open spec fn step(m: Map<u64, Seq<Ratio>>, op: BackwardOp) -> Result<Map<u64, Seq<Ratio>>, TensorError> {
    match op {
        BackwardOp::Concat { a, b, out, outer, ra, rb } => {
            let m1 = with_entry(with_entry(with_entry(m, a), b), out);
            if !fits_ghost(m1, a) {
                Err(length_error(m1, a))
            } else if !fits_ghost(m1, b) {
                Err(length_error(m1, b))
            } else if !fits_ghost(m1, out) {
                Err(length_error(m1, out))
            } else {
                let g = m1[out.id];
                match accumulate(m1, a.id, split_left(g, outer as int, ra as int, rb as int)) {
                    Ok(m2) => accumulate(m2, b.id, split_right(g, outer as int, ra as int, rb as int)),
                    Err(e) => Err(e),
                }
            }
        },
        BackwardOp::MinReduce { inp, out, inp_data, out_data, outer, n, inner } => {
            let m1 = with_entry(with_entry(m, inp), out);
            if !fits_ghost(m1, inp) {
                Err(length_error(m1, inp))
            } else if !fits_ghost(m1, out) {
                Err(length_error(m1, out))
            } else {
                accumulate(m1, inp.id, min_grad_shares(inp_data@, out_data@, m1[out.id], n as int, inner as int))
            }
        },
        BackwardOp::Sum { inp, out } => {
            let m1 = with_entry(with_entry(m, inp), out);
            if !fits_ghost(m1, inp) {
                Err(length_error(m1, inp))
            } else if !fits_ghost(m1, out) {
                Err(length_error(m1, out))
            } else {
                accumulate(m1, inp.id, Seq::new(inp.len as nat, |i: int| m1[out.id][0]))
            }
        },
        BackwardOp::Mean { inp, out } => {
            let m1 = with_entry(with_entry(m, inp), out);
            if !fits_ghost(m1, inp) {
                Err(length_error(m1, inp))
            } else if !fits_ghost(m1, out) {
                Err(length_error(m1, out))
            } else {
                match mean_grad_share(m1[out.id][0], inp.len as int) {
                    Some(d) => accumulate(m1, inp.id, Seq::new(inp.len as nat, |i: int| d)),
                    None => Err(TensorError::Overflow),
                }
            }
        },
    }
}

/// The backward pass over recorded steps: the newest step runs first.
pub open spec fn replay(m: Map<u64, Seq<Ratio>>, ops: Seq<BackwardOp>) -> Result<Map<u64, Seq<Ratio>>, TensorError>
    decreases ops.len(),
{
    if ops.len() == 0 {
        Ok(m)
    } else {
        match step(m, ops.last()) {
            Ok(m2) => replay(m2, ops.drop_last()),
            Err(e) => Err(e),
        }
    }
}

/// One gradient of the store.
#[derive(Debug)]
pub struct GradEntry {
    pub id: u64,
    pub grad: Vec<Ratio>,
}

/// A map from tensor identity to accumulated gradient.
pub struct Gradients {
    entries: Vec<GradEntry>,
    contents: Ghost<Map<u64, Seq<Ratio>>>,
}

impl View for Gradients {
    type V = Map<u64, Seq<Ratio>>;

    closed spec fn view(&self) -> Map<u64, Seq<Ratio>> {
        self.contents@
    }
}

/// Every gradient of the store is made of well-formed fractions.
pub open spec fn store_wf(m: Map<u64, Seq<Ratio>>) -> bool {
    forall|id: u64| m.contains_key(id) ==> all_wf(#[trigger] m[id])
}

impl Gradients {
    pub closed spec fn wf(&self) -> bool {
        &&& forall|i: int, j: int| 0 <= i < j < self.entries@.len() ==> self.entries@[i].id != self.entries@[j].id
        &&& forall|i: int| 0 <= i < self.entries@.len() ==> self.contents@.contains_key(#[trigger] self.entries@[i].id)
            && self.contents@[self.entries@[i].id] == self.entries@[i].grad@
        &&& forall|id: u64| self.contents@.contains_key(id) ==> exists|i: int| 0 <= i < self.entries@.len() && #[trigger] self.entries@[i].id == id
        &&& store_wf(self.contents@)
    }

    /// An empty store.
    pub fn new() -> (r: Gradients)
        ensures
            r.wf(),
            r@ == Map::<u64, Seq<Ratio>>::empty(),
    {
        Gradients { entries: Vec::new(), contents: Ghost(Map::empty()) }
    }

    fn find(&self, id: u64) -> (r: Option<usize>)
        requires
            self.wf(),
        ensures
            r matches Some(i) ==> i < self.entries@.len() && self.entries@[i as int].id == id,
            r is None <==> !self@.contains_key(id),
    {
        let mut i: usize = 0;
        while i < self.entries.len()
            invariant
                self.wf(),
                i <= self.entries@.len(),
                forall|k: int| 0 <= k < i ==> self.entries@[k].id != id,
            decreases self.entries@.len() - i,
        {
            if self.entries[i].id == id {
                return Some(i);
            }
            i = i + 1;
        }
        None
    }

    /// The gradient held for the tensor of `ghost`, if any.
    pub fn get(&self, ghost: &GhostTensor) -> (r: Option<&Vec<Ratio>>)
        requires
            self.wf(),
        ensures
            r is None <==> !self@.contains_key(ghost.id),
            r matches Some(v) ==> v@ == self@[ghost.id],
    {
        match self.find(ghost.id) {
            Some(i) => Some(&self.entries[i].grad),
            None => None,
        }
    }

    /// Gives the tensor of `g` a zero gradient where it has none.
    pub fn alloc_for(&mut self, g: &GhostTensor)
        requires
            old(self).wf(),
        ensures
            final(self).wf(),
            final(self)@ == with_entry(old(self)@, *g),
    {
        if self.find(g.id).is_none() {
            let zeros = filled(g.len, Ratio::zero());
            let ghost m = self.contents@.insert(g.id, zeros@);
            self.entries.push(GradEntry { id: g.id, grad: zeros });
            self.contents = Ghost(m);
            assert forall|id: u64| self.contents@.contains_key(id) implies exists|i: int|
                0 <= i < self.entries@.len() && #[trigger] self.entries@[i].id == id by {
                if id == g.id {
                    assert(self.entries@[self.entries@.len() - 1].id == id);
                } else {
                    assert(old(self).contents@.contains_key(id));
                    let i = choose|i: int| 0 <= i < old(self).entries@.len() && #[trigger] old(self).entries@[i].id == id;
                    assert(self.entries@[i].id == id);
                }
            }
        }
    }

    /// A copy of the gradient of `id`.
    fn gradient_copy(&self, id: u64) -> (r: Vec<Ratio>)
        requires
            self.wf(),
            self@.contains_key(id),
        ensures
            r@ == self@[id],
    {
        let i = self.find(id).unwrap();
        copy_buffer(&self.entries[i].grad)
    }

    /// Replaces the gradient of `id`.
    pub(crate) fn replace(&mut self, id: u64, v: Vec<Ratio>)
        requires
            old(self).wf(),
            old(self)@.contains_key(id),
            all_wf(v@),
        ensures
            final(self).wf(),
            final(self)@ == old(self)@.insert(id, v@),
    {
        let i = self.find(id).unwrap();
        let ghost m = self.contents@.insert(id, v@);
        self.entries.set(i, GradEntry { id, grad: v });
        self.contents = Ghost(m);
        assert forall|x: u64| self.contents@.contains_key(x) implies exists|k: int|
            0 <= k < self.entries@.len() && #[trigger] self.entries@[k].id == x by {
            assert(old(self).contents@.contains_key(x));
            let k = choose|k: int| 0 <= k < old(self).entries@.len() && #[trigger] old(self).entries@[k].id == x;
            assert(self.entries@[k].id == x);
        }
    }

    /// Checks that the entry for `g` has the length of `g`.
    fn check_length(&self, g: &GhostTensor) -> (r: Result<(), TensorError>)
        requires
            self.wf(),
            self@.contains_key(g.id),
        ensures
            r is Ok <==> fits_ghost(self@, *g),
            r matches Err(e) ==> e == length_error(self@, *g),
    {
        let i = self.find(g.id).unwrap();
        let len = self.entries[i].grad.len();
        if len == g.len {
            Ok(())
        } else {
            Err(TensorError::ShapeMismatch { left: len, right: g.len })
        }
    }
}

/// Runs one backward step on the store.
pub fn apply_op(dev: &Cpu, store: &mut Gradients, op: &BackwardOp) -> (r: Result<(), TensorError>)
    requires
        old(store).wf(),
        op.wf(),
    ensures
        final(store).wf(),
        match step(old(store)@, *op) {
            Ok(m) => r is Ok && final(store)@ == m,
            Err(e) => r == Err::<(), TensorError>(e),
        },
{
    match op {
        BackwardOp::Concat { a, b, out, outer, ra, rb } => {
            store.alloc_for(a);
            store.alloc_for(b);
            store.alloc_for(out);
            store.check_length(a)?;
            store.check_length(b)?;
            store.check_length(out)?;
            let g = store.gradient_copy(out.id);
            if a.id != b.id {
                let mut ga = store.gradient_copy(a.id);
                let mut gb = store.gradient_copy(b.id);
                dev.backward(*outer, *ra, *rb, &mut ga, &mut gb, &g)?;
                store.replace(a.id, ga);
                store.replace(b.id, gb);
            } else {
                // One tensor on both sides: its two parts are added in turn.
                let (left, right) = concat_split(&g, *outer, *ra, *rb);
                let mut ga = store.gradient_copy(a.id);
                add_assign(&mut ga, &left)?;
                add_assign(&mut ga, &right)?;
                store.replace(a.id, ga);
            }
            Ok(())
        },
        BackwardOp::MinReduce { inp, out, inp_data, out_data, outer, n, inner } => {
            store.alloc_for(inp);
            store.alloc_for(out);
            store.check_length(inp)?;
            store.check_length(out)?;
            let g = store.gradient_copy(out.id);
            let mut gi = store.gradient_copy(inp.id);
            min_backward(inp_data, &mut gi, out_data, &g, *outer, *n, *inner)?;
            store.replace(inp.id, gi);
            Ok(())
        },
        BackwardOp::Sum { inp, out } => {
            store.alloc_for(inp);
            store.alloc_for(out);
            store.check_length(inp)?;
            store.check_length(out)?;
            let g = store.gradient_copy(out.id);
            let mut gi = store.gradient_copy(inp.id);
            sum_backward(&mut gi, g[0])?;
            store.replace(inp.id, gi);
            Ok(())
        },
        BackwardOp::Mean { inp, out } => {
            store.alloc_for(inp);
            store.alloc_for(out);
            store.check_length(inp)?;
            store.check_length(out)?;
            let g = store.gradient_copy(out.id);
            let mut gi = store.gradient_copy(inp.id);
            mean_backward(&mut gi, g[0])?;
            store.replace(inp.id, gi);
            Ok(())
        },
    }
}

/// Runs the recorded steps newest first on a store seeded with `seed`.
pub fn replay_ops(dev: &Cpu, store: &mut Gradients, ops: &Vec<BackwardOp>) -> (r: Result<(), TensorError>)
    requires
        old(store).wf(),
        forall|k: int| 0 <= k < ops@.len() ==> #[trigger] ops@[k].wf(),
    ensures
        final(store).wf(),
        match replay(old(store)@, ops@) {
            Ok(m) => r is Ok && final(store)@ == m,
            Err(e) => r == Err::<(), TensorError>(e),
        },
{
    let mut k: usize = ops.len();
    assert(ops@.subrange(0, k as int) =~= ops@);
    while k > 0
        invariant
            store.wf(),
            k <= ops@.len(),
            forall|i: int| 0 <= i < ops@.len() ==> #[trigger] ops@[i].wf(),
            replay(old(store)@, ops@) == replay(store@, ops@.subrange(0, k as int)),
        decreases k,
    {
        let ghost before = store@;
        let ghost prefix = ops@.subrange(0, k as int);
        assert(prefix.last() == ops@[k - 1]);
        assert(prefix.drop_last() =~= ops@.subrange(0, k - 1));
        apply_op(dev, store, &ops[k - 1])?;
        k = k - 1;
    }
    assert(ops@.subrange(0, 0) =~= Seq::<BackwardOp>::empty());
    Ok(())
}

/// A step leaves the entry of every identity it does not name as it was.
proof fn lemma_step_frame(m: Map<u64, Seq<Ratio>>, op: BackwardOp, id: u64)
    requires
        !op.mentions(id),
        step(m, op) is Ok,
    ensures
        step(m, op)->Ok_0.contains_key(id) == m.contains_key(id),
        m.contains_key(id) ==> step(m, op)->Ok_0[id] == m[id],
{
}

/// The steps do not name the identity `id`.
pub open spec fn unnamed(ops: Seq<BackwardOp>, id: u64) -> bool {
    forall|k: int| 0 <= k < ops.len() ==> !(#[trigger] ops[k]).mentions(id)
}

/// Detaching: a tensor that no recorded step names, such as one computed
/// without a tape, gets no gradient from the backward pass, and a gradient it
/// already had is left as it was.
pub proof fn detach_law(m: Map<u64, Seq<Ratio>>, ops: Seq<BackwardOp>, id: u64)
    requires
        unnamed(ops, id),
        replay(m, ops) is Ok,
    ensures
        replay(m, ops)->Ok_0.contains_key(id) == m.contains_key(id),
        m.contains_key(id) ==> replay(m, ops)->Ok_0[id] == m[id],
    decreases ops.len(),
{
    if ops.len() > 0 {
        assert(!ops[ops.len() - 1].mentions(id));
        lemma_step_frame(m, ops.last(), id);
        let m2 = step(m, ops.last())->Ok_0;
        assert(unnamed(ops.drop_last(), id)) by {
            assert forall|k: int| 0 <= k < ops.drop_last().len() implies !(#[trigger] ops.drop_last()[k]).mentions(id) by {
                assert(ops.drop_last()[k] == ops[k]);
            }
        }
        detach_law(m2, ops.drop_last(), id);
    }
}

/// A zero buffer for `g`.
pub open spec fn zeros_for(g: GhostTensor) -> Seq<Ratio> {
    Seq::new(g.len as nat, |i: int| zero_ratio())
}

/// Fan-out: where a tensor `x` feeds both a sum and a mean, the backward pass
/// over the two steps leaves in its entry the sum of both shares added to
/// what it had (zero where it had nothing); neither overwrites the other.
pub proof fn fan_out_law(m: Map<u64, Seq<Ratio>>, x: GhostTensor, y1: GhostTensor, y2: GhostTensor)
    requires
        x.id != y1.id,
        x.id != y2.id,
        y1.id != y2.id,
        replay(m, seq![BackwardOp::Sum { inp: x, out: y1 }, BackwardOp::Mean { inp: x, out: y2 }]) is Ok,
    ensures
        ({
            let before = if m.contains_key(x.id) { m[x.id] } else { zeros_for(x) };
            let after_mean = with_entry(with_entry(m, x), y2);
            let mean_share = mean_grad_share(after_mean[y2.id][0], x.len as int)->0;
            let m_mid = after_mean.insert(x.id, elementwise_sum(before, Seq::new(x.len as nat, |i: int| mean_share)));
            let sum_share = with_entry(m_mid, y1)[y1.id][0];
            replay(m, seq![BackwardOp::Sum { inp: x, out: y1 }, BackwardOp::Mean { inp: x, out: y2 }])->Ok_0[x.id]
                == elementwise_sum(
                    elementwise_sum(before, Seq::new(x.len as nat, |i: int| mean_share)),
                    Seq::new(x.len as nat, |i: int| sum_share),
                )
        }),
{
    let ops = seq![BackwardOp::Sum { inp: x, out: y1 }, BackwardOp::Mean { inp: x, out: y2 }];
    assert(ops.last() == BackwardOp::Mean { inp: x, out: y2 });
    assert(ops.drop_last() =~= seq![BackwardOp::Sum { inp: x, out: y1 }]);
    let m_mid = step(m, ops.last())->Ok_0;
    let rest = seq![BackwardOp::Sum { inp: x, out: y1 }];
    assert(rest.drop_last() =~= Seq::<BackwardOp>::empty());
    assert(replay(m, ops) == replay(m_mid, rest));
    assert(rest.last() == BackwardOp::Sum { inp: x, out: y1 });
    if step(m_mid, rest.last()) is Ok {
        let m_end = step(m_mid, rest.last())->Ok_0;
        assert(replay(m_end, rest.drop_last()) == Ok::<Map<u64, Seq<Ratio>>, TensorError>(m_end));
    }
}

} // verus!
