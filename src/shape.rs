//! Shapes, axis selectors and the concatenation rule on shapes.
use vstd::prelude::*;

verus! {

/// The failures of this library.
#[derive(Clone, Copy, Debug, PartialEq, Eq, Structural)]
pub enum TensorError {
    /// Two shapes disagree on an axis where they must agree.
    ShapeMismatch { left: usize, right: usize },
    /// A value, size or identity does not fit in its machine type.
    Overflow,
}

/// An axis selector: the index of one dimension.
#[derive(Clone, Copy, Debug, PartialEq, Eq, Structural)]
pub struct Axis(pub usize);

/// An ordered list of dimension sizes.
#[derive(Clone, Debug)]
pub struct Shape {
    pub dims: Vec<usize>,
}

impl View for Shape {
    type V = Seq<usize>;

    open spec fn view(&self) -> Seq<usize> {
        self.dims@
    }
}

impl Shape {
    /// The number of dimensions.
    pub fn num_dims(&self) -> (r: usize)
        ensures
            r == self@.len(),
    {
        self.dims.len()
    }

    /// The size of axis `i`.
    pub fn dim(&self, i: usize) -> (r: usize)
        requires
            i < self@.len(),
        ensures
            r == self@[i as int],
    {
        self.dims[i]
    }

    /// The number of elements, where it fits in `usize`.
    pub fn num_elements(&self) -> (r: Option<usize>)
        ensures
            r matches Some(n) ==> n == num_elements(self@),
            r is None ==> num_elements(self@) > usize::MAX,
    {
        let mut z: usize = 0;
        while z < self.dims.len()
            invariant
                z <= self@.len(),
                forall|j: int| 0 <= j < z ==> self@[j] != 0,
            decreases self@.len() - z,
        {
            if self.dims[z] == 0 {
                proof {
                    lemma_zero_dim(self@, z as int);
                }
                return Some(0);
            }
            z = z + 1;
        }
        let mut count: usize = 1;
        let mut i: usize = 0;
        while i < self.dims.len()
            invariant
                i <= self@.len(),
                count == num_elements(self@.subrange(0, i as int)),
                forall|j: int| 0 <= j < self@.len() ==> self@[j] != 0,
            decreases self@.len() - i,
        {
            proof {
                assert(self@.subrange(0, i + 1).drop_last() =~= self@.subrange(0, i as int));
            }
            match count.checked_mul(self.dims[i]) {
                Some(c) => {
                    count = c;
                },
                None => {
                    proof {
                        lemma_prefix_count_bound(self@, i as int + 1);
                    }
                    return None;
                },
            }
            i = i + 1;
        }
        assert(self@.subrange(0, self@.len() as int) =~= self@);
        Some(count)
    }
}

/// A zero dimension makes the count zero.
proof fn lemma_zero_dim(s: Seq<usize>, z: int)
    requires
        0 <= z < s.len(),
        s[z] == 0,
    ensures
        num_elements(s) == 0,
    decreases s.len(),
{
    if z < s.len() - 1 {
        assert(s.drop_last()[z] == 0);
        lemma_zero_dim(s.drop_last(), z);
        assert(num_elements(s) == num_elements(s.drop_last()) * (s.last() as nat));
    } else {
        assert(s.last() == 0);
        assert(num_elements(s) == num_elements(s.drop_last()) * 0);
    }
}

/// Where the count of a prefix exceeds `usize::MAX`, so does the whole count,
/// unless a later dimension is zero.
proof fn lemma_prefix_count_bound(s: Seq<usize>, k: int)
    requires
        0 <= k <= s.len(),
        num_elements(s.subrange(0, k)) > usize::MAX,
    ensures
        num_elements(s) > usize::MAX || exists|j: int| k <= j < s.len() && s[j] == 0,
    decreases s.len() - k,
{
    if k < s.len() {
        assert(s.subrange(0, k + 1).drop_last() =~= s.subrange(0, k));
        if s[k] == 0 {
        } else {
            let p = num_elements(s.subrange(0, k)) as int;
            let d = s[k] as int;
            assert(p * d >= p) by (nonlinear_arith)
                requires d >= 1, p >= 0;
            lemma_prefix_count_bound(s, k + 1);
        }
    } else {
        assert(s.subrange(0, k) =~= s);
    }
}

/// The number of elements of a tensor with the given dimensions.
pub open spec fn num_elements(dims: Seq<usize>) -> nat
    decreases dims.len(),
{
    if dims.len() == 0 {
        1
    } else {
        num_elements(dims.drop_last()) * (dims.last() as nat)
    }
}

/// Every dimension is at least one.
pub open spec fn all_positive(dims: Seq<usize>) -> bool {
    forall|i: int| 0 <= i < dims.len() ==> dims[i] >= 1
}

/// The two shapes must agree on axis `i`, and do not.
pub open spec fn mismatch_at(a: Seq<usize>, b: Seq<usize>, ax: int, i: int) -> bool {
    0 <= i < a.len() && i != ax && a[i] != b[i]
}

/// The shapes agree everywhere but on axis `ax`.
pub open spec fn concat_compatible(a: Seq<usize>, b: Seq<usize>, ax: int) -> bool {
    forall|i: int| !mismatch_at(a, b, ax, i)
}

/// The shape of the concatenation: `a` with `a[ax] + b[ax]` on axis `ax`.
pub open spec fn concat_dims(a: Seq<usize>, b: Seq<usize>, ax: int) -> Seq<usize> {
    a.update(ax, (a[ax] + b[ax]) as usize)
}

/// The outcome of concatenating shape `a` with shape `b` along `ax`, looking
/// at the axes from `i` on: the first axis on which they disagree is reported,
/// with both sizes.
pub open spec fn concat_shape_from(a: Seq<usize>, b: Seq<usize>, ax: int, i: int) -> Result<Seq<usize>, TensorError>
    decreases a.len() - i,
{
    if i < 0 || i >= a.len() {
        if a[ax] + b[ax] > usize::MAX {
            Err(TensorError::Overflow)
        } else {
            Ok(concat_dims(a, b, ax))
        }
    } else if mismatch_at(a, b, ax, i) {
        Err(TensorError::ShapeMismatch { left: a[i], right: b[i] })
    } else {
        concat_shape_from(a, b, ax, i + 1)
    }
}

/// The outcome of concatenating shape `a` with shape `b` along `ax`.
pub open spec fn concat_shape_result(a: Seq<usize>, b: Seq<usize>, ax: int) -> Result<Seq<usize>, TensorError> {
    concat_shape_from(a, b, ax, 0)
}

proof fn lemma_concat_shape_from(a: Seq<usize>, b: Seq<usize>, ax: int, i: int)
    requires
        0 <= i <= a.len(),
    ensures
        (forall|k: int| i <= k ==> !mismatch_at(a, b, ax, k)) ==> concat_shape_from(a, b, ax, i) == concat_shape_from(a, b, ax, a.len() as int),
        (exists|k: int| i <= k && mismatch_at(a, b, ax, k)) ==> exists|k: int| i <= k && mismatch_at(a, b, ax, k)
            && concat_shape_from(a, b, ax, i) == Err::<Seq<usize>, TensorError>(TensorError::ShapeMismatch { left: a[k], right: b[k] }),
    decreases a.len() - i,
{
    if i < a.len() {
        lemma_concat_shape_from(a, b, ax, i + 1);
        if !mismatch_at(a, b, ax, i) {
            if exists|k: int| i <= k && mismatch_at(a, b, ax, k) {
                let k = choose|k: int| i <= k && mismatch_at(a, b, ax, k);
                assert(i + 1 <= k);
            }
        }
    }
}

/// Joining shapes along an axis: where the shapes agree on every other axis
/// and the joined size fits, the result is `a` with `a[ax] + b[ax]` on axis
/// `ax`; where they disagree somewhere, the call fails and reports the two
/// sizes of an axis on which they disagree.
pub proof fn concat_shape_law(a: Seq<usize>, b: Seq<usize>, ax: int)
    requires
        a.len() == b.len(),
        0 <= ax < a.len(),
    ensures
        concat_compatible(a, b, ax) && a[ax] + b[ax] <= usize::MAX ==> concat_shape_result(a, b, ax) == Ok::<Seq<usize>, TensorError>(concat_dims(a, b, ax)),
        concat_compatible(a, b, ax) && a[ax] + b[ax] <= usize::MAX ==> concat_dims(a, b, ax)[ax] == a[ax] + b[ax]
            && forall|i: int| 0 <= i < a.len() && i != ax ==> concat_dims(a, b, ax)[i] == a[i] && concat_dims(a, b, ax)[i] == b[i],
        concat_shape_result(a, b, ax) is Ok ==> concat_compatible(a, b, ax) && a[ax] + b[ax] <= usize::MAX,
        !concat_compatible(a, b, ax) ==> exists|i: int| mismatch_at(a, b, ax, i)
            && concat_shape_result(a, b, ax) == Err::<Seq<usize>, TensorError>(TensorError::ShapeMismatch { left: a[i], right: b[i] }),
{
    lemma_concat_shape_from(a, b, ax, 0);
    if !concat_compatible(a, b, ax) {
        let k = choose|k: int| mismatch_at(a, b, ax, k);
        assert(0 <= k);
    } else {
        assert forall|i: int| 0 <= i < a.len() && i != ax implies a[i] == b[i] by {
            assert(!mismatch_at(a, b, ax, i));
        }
    }
}

/// Concatenation along an axis.
pub trait TryConcatAlong<Ax>: Sized {
    type Output;
    type Error;

    /// What the types of the operands guarantee by construction (equal rank, an
    /// axis in range).
    spec fn concat_pre(&self, ax: Ax) -> bool;

    /// The operands can be joined along `ax`.
    spec fn concat_ok(&self, ax: Ax) -> bool;

    /// `r` is the outcome of joining the operands along `ax`.
    spec fn concat_post(&self, ax: Ax, r: Result<Self::Output, Self::Error>) -> bool;

    /// Concatenates self along the given axis.
    fn concat_along(self, ax: Ax) -> (r: Self::Output)
        requires
            self.concat_pre(ax),
            self.concat_ok(ax),
        ensures
            self.concat_post(ax, Ok(r)),
    ;

    /// Fallibly concatenates self along the given axis.
    fn try_concat_along(self, ax: Ax) -> (r: Result<Self::Output, Self::Error>)
        requires
            self.concat_pre(ax),
        ensures
            self.concat_post(ax, r),
            r is Ok <==> self.concat_ok(ax),
    ;
}

impl TryConcatAlong<Axis> for (Shape, Shape) {
    type Output = Shape;
    type Error = TensorError;

    open spec fn concat_pre(&self, ax: Axis) -> bool {
        self.0@.len() == self.1@.len() && ax.0 < self.0@.len()
    }

    open spec fn concat_ok(&self, ax: Axis) -> bool {
        concat_shape_result(self.0@, self.1@, ax.0 as int) is Ok
    }

    open spec fn concat_post(&self, ax: Axis, r: Result<Shape, TensorError>) -> bool {
        match (r, concat_shape_result(self.0@, self.1@, ax.0 as int)) {
            (Ok(s), Ok(d)) => s@ == d,
            (Err(e), Err(f)) => e == f,
            _ => false,
        }
    }

    fn concat_along(self, ax: Axis) -> (r: Shape) {
        let r = self.try_concat_along(ax);
        r.unwrap()
    }

    fn try_concat_along(self, ax: Axis) -> (r: Result<Shape, TensorError>) {
        let (lhs, rhs) = self;
        concat_shapes(&lhs.dims, &rhs.dims, ax.0)
    }
}

/// Joins two dimension lists along axis `ax`.
pub fn concat_shapes(a: &Vec<usize>, b: &Vec<usize>, ax: usize) -> (r: Result<Shape, TensorError>)
    requires
        a@.len() == b@.len(),
        ax < a@.len(),
    ensures
        match (r, concat_shape_result(a@, b@, ax as int)) {
            (Ok(s), Ok(d)) => s@ == d,
            (Err(e), Err(f)) => e == f,
            _ => false,
        },
{
    let mut i: usize = 0;
    while i < a.len()
        invariant
            a@.len() == b@.len(),
            i <= a@.len(),
            ax < a@.len(),
            concat_shape_from(a@, b@, ax as int, 0) == concat_shape_from(a@, b@, ax as int, i as int),
        decreases a@.len() - i,
    {
        if i != ax && a[i] != b[i] {
            return Err(TensorError::ShapeMismatch { left: a[i], right: b[i] });
        }
        i = i + 1;
    }
    if a[ax] > usize::MAX - b[ax] {
        return Err(TensorError::Overflow);
    }
    let mut dims = a.clone();
    dims.set(ax, a[ax] + b[ax]);
    assert(dims@ == concat_dims(a@, b@, ax as int));
    Ok(Shape { dims })
}

/// The element count of joined dimension lists is the product of theirs.
pub proof fn lemma_num_elements_append(s: Seq<usize>, t: Seq<usize>)
    ensures
        num_elements(s + t) == num_elements(s) * num_elements(t),
    decreases t.len(),
{
    if t.len() == 0 {
        assert(s + t =~= s);
        assert(num_elements(t) == 1);
        assert(num_elements(s) * 1 == num_elements(s));
    } else {
        lemma_num_elements_append(s, t.drop_last());
        assert((s + t).drop_last() =~= s + t.drop_last());
        assert((s + t).last() == t.last());
        assert(num_elements(s + t) == num_elements(s + t.drop_last()) * (t.last() as nat));
        let a = num_elements(s) as int;
        let b = num_elements(t.drop_last()) as int;
        let c = t.last() as int;
        assert(a * b * c == a * (b * c)) by (nonlinear_arith);
        assert(num_elements(t) == b * c);
    }
}

/// A count of positive dimensions is at least one.
pub proof fn lemma_num_elements_positive(s: Seq<usize>)
    requires
        all_positive(s),
    ensures
        num_elements(s) >= 1,
    decreases s.len(),
{
    if s.len() > 0 {
        lemma_num_elements_positive(s.drop_last());
        let a = num_elements(s.drop_last()) as int;
        let c = s.last() as int;
        assert(a * c >= 1) by (nonlinear_arith)
            requires a >= 1, c >= 1;
    }
}

/// The dimensions before axis `ax`.
pub open spec fn outer_dims(dims: Seq<usize>, ax: int) -> Seq<usize> {
    dims.subrange(0, ax)
}

/// The dimensions after axis `ax`.
pub open spec fn inner_dims(dims: Seq<usize>, ax: int) -> Seq<usize> {
    dims.subrange(ax + 1, dims.len() as int)
}

/// The element count splits around axis `ax` into the count before it, its
/// size, and the count after it.
pub proof fn lemma_split_at_axis(dims: Seq<usize>, ax: int)
    requires
        0 <= ax < dims.len(),
    ensures
        num_elements(dims) == num_elements(outer_dims(dims, ax)) * (dims[ax] * num_elements(inner_dims(dims, ax))),
{
    let o = outer_dims(dims, ax);
    let i = inner_dims(dims, ax);
    assert(dims =~= o + (seq![dims[ax]] + i));
    lemma_num_elements_append(o, seq![dims[ax]] + i);
    lemma_num_elements_append(seq![dims[ax]], i);
    assert(seq![dims[ax]].drop_last() =~= Seq::<usize>::empty());
    assert(num_elements(Seq::<usize>::empty()) == 1);
    assert(seq![dims[ax]].last() == dims[ax]);
    assert(num_elements(seq![dims[ax]]) == num_elements(seq![dims[ax]].drop_last()) * (dims[ax] as nat));
    assert(num_elements(seq![dims[ax]]) == dims[ax]);
}

/// The count before axis `ax`, its size and the count after it, where every
/// dimension is positive and their product is `total`.
pub fn split_at_axis(dims: &Vec<usize>, ax: usize, total: usize) -> (r: (usize, usize, usize))
    requires
        ax < dims@.len(),
        all_positive(dims@),
        num_elements(dims@) == total,
    ensures
        r.0 == num_elements(outer_dims(dims@, ax as int)),
        r.1 == dims@[ax as int],
        r.2 == num_elements(inner_dims(dims@, ax as int)),
        r.0 * (r.1 * r.2) == total,
        r.0 >= 1 && r.1 >= 1 && r.2 >= 1,
{
    proof {
        lemma_split_at_axis(dims@, ax as int);
        lemma_num_elements_positive(outer_dims(dims@, ax as int));
        lemma_num_elements_positive(inner_dims(dims@, ax as int));
    }
    let ghost o = num_elements(outer_dims(dims@, ax as int)) as int;
    let ghost m = dims@[ax as int] as int;
    let ghost n = num_elements(inner_dims(dims@, ax as int)) as int;
    assert(o <= total && n <= total) by (nonlinear_arith)
        requires o * (m * n) == total, o >= 1, m >= 1, n >= 1;
    let mut outer: usize = 1;
    let mut i: usize = 0;
    while i < ax
        invariant
            ax < dims@.len(),
            all_positive(dims@),
            i <= ax,
            outer == num_elements(dims@.subrange(0, i as int)),
            o == num_elements(outer_dims(dims@, ax as int)),
            o <= total,
        decreases ax - i,
    {
        proof {
            assert(dims@.subrange(0, i + 1).drop_last() =~= dims@.subrange(0, i as int));
            lemma_num_elements_append(dims@.subrange(0, i + 1), dims@.subrange(i + 1, ax as int));
            assert(dims@.subrange(0, i + 1) + dims@.subrange(i + 1, ax as int) =~= outer_dims(dims@, ax as int));
            let t = dims@.subrange(i + 1, ax as int);
            assert(all_positive(t));
            lemma_num_elements_positive(t);
            let p = num_elements(dims@.subrange(0, i + 1)) as int;
            let q = num_elements(t) as int;
            assert(p <= p * q) by (nonlinear_arith)
                requires q >= 1, p >= 0;
        }
        outer = outer * dims[i];
        i = i + 1;
    }
    let len = dims.len();
    let mut inner: usize = 1;
    let mut j: usize = ax + 1;
    while j < dims.len()
        invariant
            ax < dims@.len(),
            all_positive(dims@),
            ax + 1 <= j <= dims@.len(),
            inner == num_elements(dims@.subrange(ax + 1, j as int)),
            n == num_elements(inner_dims(dims@, ax as int)),
            n <= total,
        decreases dims@.len() - j,
    {
        proof {
            assert(dims@.subrange(ax + 1, j + 1).drop_last() =~= dims@.subrange(ax + 1, j as int));
            lemma_num_elements_append(dims@.subrange(ax + 1, j + 1), dims@.subrange(j + 1, dims@.len() as int));
            assert(dims@.subrange(ax + 1, j + 1) + dims@.subrange(j + 1, dims@.len() as int) =~= inner_dims(dims@, ax as int));
            let t = dims@.subrange(j + 1, dims@.len() as int);
            assert(all_positive(t));
            lemma_num_elements_positive(t);
            let p = num_elements(dims@.subrange(ax + 1, j + 1)) as int;
            let q = num_elements(t) as int;
            assert(p <= p * q) by (nonlinear_arith)
                requires q >= 1, p >= 0;
        }
        inner = inner * dims[j];
        j = j + 1;
    }
    assert(dims@.subrange(0, ax as int) =~= outer_dims(dims@, ax as int));
    assert(dims@.subrange(ax + 1, dims@.len() as int) =~= inner_dims(dims@, ax as int));
    (outer, dims[ax], inner)
}

} // verus!
