use stag::{backward, Cpu, HasMeanMethod, Ratio, TensorError};

fn as_f32(r: &Ratio) -> f32 {
    r.num as f32 / r.den as f32
}

fn ints(v: &[i64]) -> Vec<Ratio> {
    v.iter().map(|&x| Ratio::from_int(x)).collect()
}

#[test]
fn test_mean_0d() {
    let mut dev = Cpu::new();
    let t = dev.tensor(vec![], ints(&[3])).unwrap();
    let r = t.trace().mean(&mut dev).unwrap();
    assert_eq!(as_f32(&r.data[0]), 3.0);
    let gradients = backward(&dev, r).unwrap();
    let g = gradients.get(&t.ghost()).unwrap();
    assert_eq!(as_f32(&g[0]), 1.0);
}

#[test]
fn test_mean_1d() {
    let mut dev = Cpu::new();
    let t = dev.tensor(vec![3], ints(&[1, 2, 3])).unwrap();
    let r = t.trace().mean(&mut dev).unwrap();
    assert_eq!(as_f32(&r.data[0]), 2.0);
    let gradients = backward(&dev, r).unwrap();
    let g: Vec<f32> = gradients.get(&t.ghost()).unwrap().iter().map(as_f32).collect();
    assert_eq!(g, vec![1.0 / 3.0; 3]);
}

#[test]
fn test_mean_2d() {
    let mut dev = Cpu::new();
    let t = dev.tensor(vec![2, 3], ints(&[1, 2, 3, 4, 5, 6])).unwrap();
    let r = t.trace().mean(&mut dev).unwrap();
    assert_eq!(as_f32(&r.data[0]), 3.5);
    let gradients = backward(&dev, r).unwrap();
    let g: Vec<f32> = gradients.get(&t.ghost()).unwrap().iter().map(as_f32).collect();
    assert_eq!(g, vec![1.0 / 6.0; 6]);
}

#[test]
fn test_mean_3d() {
    let mut dev = Cpu::new();
    let t = dev.tensor(vec![4, 2, 3], vec![Ratio::one(); 24]).unwrap();
    let r = t.trace().mean(&mut dev).unwrap();
    assert_eq!(as_f32(&r.data[0]), 1.0);
    let gradients = backward(&dev, r).unwrap();
    let g: Vec<f32> = gradients.get(&t.ghost()).unwrap().iter().map(as_f32).collect();
    assert_eq!(g, vec![1.0 / 24.0; 24]);
}

#[test]
fn mean_exact_values() {
    let mut dev = Cpu::new();
    let t = dev.tensor(vec![3], ints(&[1, 2, 3])).unwrap();
    let r = t.trace().mean(&mut dev).unwrap();
    assert_eq!(r.data, vec![Ratio::new(6, 3)]);
    assert!(r.shape.dims.is_empty());
    let gradients = backward(&dev, r).unwrap();
    assert_eq!(gradients.get(&t.ghost()).unwrap(), &vec![Ratio::new(1, 3); 3]);
}

#[test]
fn mean_of_fractions() {
    let mut dev = Cpu::new();
    let t = dev.tensor(vec![2], vec![Ratio::new(1, 2), Ratio::new(1, 3)]).unwrap();
    let r = t.mean(&mut dev).unwrap();
    // 1/2 + 1/3 = 5/6, over two elements: 5/12.
    assert_eq!(r.data, vec![Ratio::new(5, 12)]);
}

#[test]
fn mean_overflow_is_reported() {
    let mut dev = Cpu::new();
    let t = dev.tensor(vec![2], ints(&[i64::MAX, 1])).unwrap();
    assert_eq!(t.mean(&mut dev).unwrap_err(), TensorError::Overflow);
}

#[test]
fn sum_value_and_gradient() {
    let mut dev = Cpu::new();
    let t = dev.tensor(vec![2, 2], ints(&[1, -2, 3, 4])).unwrap();
    let s = dev.try_sum(t.trace()).unwrap();
    assert_eq!(s.data, vec![Ratio::from_int(6)]);
    let gradients = backward(&dev, s).unwrap();
    assert_eq!(gradients.get(&t.ghost()).unwrap(), &vec![Ratio::one(); 4]);
}
