use stag::{backward, Axis, Cpu, Ratio, Shape, Tensor, TensorError, TryConcatAlong};

fn r(n: i64, d: i64) -> Ratio {
    Ratio::new(n, d)
}

/// Distinct, deterministic values for a tensor of `len` elements.
fn values(len: usize, seed: i64) -> Vec<Ratio> {
    (0..len as i64).map(|i| r((i * 7 + seed) % 11 - 5, (i % 3) + 1)).collect()
}

fn make(dev: &mut Cpu, dims: Vec<usize>, seed: i64) -> Tensor {
    let len: usize = dims.iter().product();
    dev.tensor(dims, values(len, seed)).unwrap()
}

/// Concatenates a traced copy of `a` with a copy of `b`, sums, runs backward,
/// and compares with each operand summed alone.
fn check_grads(dev: &mut Cpu, a: &Tensor, b: &Tensor, c: Tensor) {
    let total = dev.try_sum(c).unwrap();
    let concat_grads = backward(dev, total).unwrap();
    let a_total = dev.try_sum(a.trace()).unwrap();
    let a_grads = backward(dev, a_total).unwrap();
    let b_total = dev.try_sum(b.trace()).unwrap();
    let b_grads = backward(dev, b_total).unwrap();
    assert_eq!(concat_grads.get(&a.ghost()), a_grads.get(&a.ghost()));
    assert_eq!(concat_grads.get(&b.ghost()), b_grads.get(&b.ghost()));
}

#[test]
fn test_concat_ax_0() {
    let mut dev = Cpu::new();
    let a = make(&mut dev, vec![2, 3, 4], 1);
    let b = make(&mut dev, vec![3, 3, 4], 2);
    let c = dev.try_concat_along(a.trace(), b.duplicate(), Axis(0)).unwrap();
    assert_eq!(c.shape.dims, vec![5, 3, 4]);
    let block = 12;
    assert_eq!(c.data[0..block], a.data[0..block]);
    assert_eq!(c.data[block..2 * block], a.data[block..2 * block]);
    assert_eq!(c.data[2 * block..3 * block], b.data[0..block]);
    assert_eq!(c.data[3 * block..4 * block], b.data[block..2 * block]);
    assert_eq!(c.data[4 * block..5 * block], b.data[2 * block..3 * block]);
    check_grads(&mut dev, &a, &b, c);
}

#[test]
fn test_concat_ax_1() {
    let mut dev = Cpu::new();
    let a = make(&mut dev, vec![2, 2, 4], 3);
    let b = make(&mut dev, vec![2, 3, 4], 4);
    let c = dev.try_concat_along(a.trace(), b.duplicate(), Axis(1)).unwrap();
    assert_eq!(c.shape.dims, vec![2, 5, 4]);
    for i in 0..2 {
        let ci = |j: usize| &c.data[(i * 5 + j) * 4..(i * 5 + j + 1) * 4];
        let ai = |j: usize| &a.data[(i * 2 + j) * 4..(i * 2 + j + 1) * 4];
        let bi = |j: usize| &b.data[(i * 3 + j) * 4..(i * 3 + j + 1) * 4];
        assert_eq!(ci(0), ai(0));
        assert_eq!(ci(1), ai(1));
        assert_eq!(ci(2), bi(0));
        assert_eq!(ci(3), bi(1));
        assert_eq!(ci(4), bi(2));
    }
    check_grads(&mut dev, &a, &b, c);
}

#[test]
fn test_concat_ax_2() {
    let mut dev = Cpu::new();
    let a = make(&mut dev, vec![2, 3, 2], 5);
    let b = make(&mut dev, vec![2, 3, 3], 6);
    let c = dev.try_concat_along(a.trace(), b.duplicate(), Axis(2)).unwrap();
    assert_eq!(c.shape.dims, vec![2, 3, 5]);
    for i in 0..2 {
        for j in 0..3 {
            let row = i * 3 + j;
            assert_eq!(c.data[row * 5], a.data[row * 2]);
            assert_eq!(c.data[row * 5 + 1], a.data[row * 2 + 1]);
            assert_eq!(c.data[row * 5 + 2], b.data[row * 3]);
            assert_eq!(c.data[row * 5 + 3], b.data[row * 3 + 1]);
            assert_eq!(c.data[row * 5 + 4], b.data[row * 3 + 2]);
        }
    }
    check_grads(&mut dev, &a, &b, c);
}

fn shape(dims: Vec<usize>) -> Shape {
    Shape { dims }
}

#[test]
fn test_concat_shape() {
    let out = (shape(vec![5, 5]), shape(vec![3, 5])).concat_along(Axis(0));
    assert_eq!(out.dims, vec![8, 5]);
    let out = (shape(vec![5, 5]), shape(vec![3, 5])).try_concat_along(Axis(0)).unwrap();
    assert_eq!(out.dims, vec![8, 5]);
    let out = (shape(vec![2, 5]), shape(vec![2, 3])).concat_along(Axis(1));
    assert_eq!(out.dims, vec![2, 8]);
}

#[test]
fn concat_shape_mismatch_reports_sizes() {
    let out = (shape(vec![5, 10]), shape(vec![3, 7])).try_concat_along(Axis(0));
    assert_eq!(out.unwrap_err(), TensorError::ShapeMismatch { left: 10, right: 7 });
}

#[test]
fn concat_shape_first_mismatch_is_reported() {
    let out = (shape(vec![1, 4, 6, 2]), shape(vec![1, 9, 5, 3])).try_concat_along(Axis(3));
    assert_eq!(out.unwrap_err(), TensorError::ShapeMismatch { left: 4, right: 9 });
}

#[test]
fn concat_shape_size_overflow() {
    let out = (shape(vec![usize::MAX, 1]), shape(vec![1, 1])).try_concat_along(Axis(0));
    assert_eq!(out.unwrap_err(), TensorError::Overflow);
}

#[test]
fn concat_tensors_mismatch() {
    let mut dev = Cpu::new();
    let a = make(&mut dev, vec![2, 3], 1);
    let b = make(&mut dev, vec![2, 4], 2);
    let out = dev.try_concat_along(a, b, Axis(0));
    assert_eq!(out.unwrap_err(), TensorError::ShapeMismatch { left: 3, right: 4 });
}

#[test]
fn concat_gradient_is_split_not_copied() {
    // The gradient of the concatenation is scaled by the mean, then split.
    let mut dev = Cpu::new();
    let a = dev.tensor(vec![1], vec![r(4, 1)]).unwrap();
    let b = dev.tensor(vec![2], vec![r(1, 1), r(2, 1)]).unwrap();
    let c = dev.try_concat_along(a.trace(), b.trace(), Axis(0)).unwrap();
    let m = stag::HasMeanMethod::mean(c, &mut dev).unwrap();
    let grads = backward(&dev, m).unwrap();
    assert_eq!(grads.get(&a.ghost()).unwrap(), &vec![r(1, 3)]);
    assert_eq!(grads.get(&b.ghost()).unwrap(), &vec![r(1, 3), r(1, 3)]);
}

#[test]
fn shape_counts_and_lookup() {
    let s = shape(vec![4, 2, 3]);
    assert_eq!(s.num_dims(), 3);
    assert_eq!(s.dim(1), 2);
    assert_eq!(s.num_elements(), Some(24));
    assert_eq!(shape(vec![]).num_elements(), Some(1));
    assert_eq!(shape(vec![usize::MAX, 2, 0]).num_elements(), Some(0));
    assert_eq!(shape(vec![usize::MAX, 2]).num_elements(), None);
}
