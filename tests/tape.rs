use stag::{backward, Axis, ConcatAlongKernel, Cpu, Ratio, Tape};

fn ints(v: &[i64]) -> Vec<Ratio> {
    v.iter().map(|&x| Ratio::from_int(x)).collect()
}

#[test]
fn min_ties_all_receive_full_gradient() {
    let mut dev = Cpu::new();
    let t = dev.tensor(vec![3], ints(&[1, 1, 2])).unwrap();
    let m = dev.try_min_along(t.trace(), Axis(0)).unwrap();
    assert_eq!(m.data, ints(&[1]));
    assert!(m.shape.dims.is_empty());
    let grads = backward(&dev, m).unwrap();
    assert_eq!(grads.get(&t.ghost()).unwrap(), &ints(&[1, 1, 0]));
}

#[test]
fn min_ties_by_value_not_by_form() {
    let mut dev = Cpu::new();
    let t = dev.tensor(vec![3], vec![Ratio::new(1, 2), Ratio::new(3, 1), Ratio::new(2, 4)]).unwrap();
    let m = dev.try_min_along(t.trace(), Axis(0)).unwrap();
    assert_eq!(m.data, vec![Ratio::new(1, 2)]);
    let grads = backward(&dev, m).unwrap();
    assert_eq!(grads.get(&t.ghost()).unwrap(), &ints(&[1, 0, 1]));
}

#[test]
fn min_along_each_axis() {
    let mut dev = Cpu::new();
    let t = dev.tensor(vec![2, 3], ints(&[4, 1, 6, 2, 5, 0])).unwrap();
    let cols = dev.try_min_along(t.duplicate(), Axis(0)).unwrap();
    assert_eq!(cols.shape.dims, vec![3]);
    assert_eq!(cols.data, ints(&[2, 1, 0]));
    let rows = dev.try_min_along(t.duplicate(), Axis(1)).unwrap();
    assert_eq!(rows.shape.dims, vec![2]);
    assert_eq!(rows.data, ints(&[1, 0]));
}

#[test]
fn fan_out_accumulates() {
    let mut dev = Cpu::new();
    let x = dev.tensor(vec![2, 2], ints(&[1, 2, 3, 4])).unwrap();
    let x_traced = x.trace();
    let x_again = x_traced.duplicate();
    let cols = dev.try_min_along(x_traced, Axis(0)).unwrap();
    let (cols, tape) = cols.split_tape();
    let rows = dev.try_min_along(x_again.put_tape(tape), Axis(1)).unwrap();
    let both = dev.try_concat_along(cols, rows, Axis(0)).unwrap();
    let total = dev.try_sum(both).unwrap();
    let grads = backward(&dev, total).unwrap();
    // Column minima 1 and 2, row minima 1 and 3: the first element feeds both.
    assert_eq!(grads.get(&x.ghost()).unwrap(), &ints(&[2, 1, 1, 0]));
}

#[test]
fn detached_lineage_gets_no_gradient() {
    let mut dev = Cpu::new();
    let a = dev.tensor(vec![2], ints(&[1, 2])).unwrap();
    let b0 = dev.tensor(vec![2, 2], ints(&[5, 6, 7, 8])).unwrap();
    let b = dev.try_min_along(b0.duplicate(), Axis(1)).unwrap();
    assert!(matches!(b.tape, Tape::NoTape));
    let c = dev.try_concat_along(a.trace(), b, Axis(0)).unwrap();
    let s = dev.try_sum(c).unwrap();
    let grads = backward(&dev, s).unwrap();
    assert_eq!(grads.get(&a.ghost()).unwrap(), &ints(&[1, 1]));
    assert!(grads.get(&b0.ghost()).is_none());
}

#[test]
fn no_tape_is_repeatable_and_records_nothing() {
    let mut dev = Cpu::new();
    let t = dev.tensor(vec![2, 3], ints(&[3, 1, 4, 1, 5, 9])).unwrap();
    let first = dev.try_min_along(t.duplicate(), Axis(0)).unwrap();
    let second = dev.try_min_along(t.duplicate(), Axis(0)).unwrap();
    assert_eq!(first.data, second.data);
    assert!(matches!(first.tape, Tape::NoTape));
    assert!(matches!(second.tape, Tape::NoTape));
    let s = dev.try_sum(t.duplicate()).unwrap();
    assert!(matches!(s.tape, Tape::NoTape));
}

#[test]
fn tape_merge_keeps_left_then_right() {
    let mut dev = Cpu::new();
    let a = dev.tensor(vec![1], ints(&[1])).unwrap();
    let b = dev.tensor(vec![1], ints(&[2])).unwrap();
    let sa = dev.try_sum(a.trace()).unwrap();
    let sb = dev.try_sum(b.trace()).unwrap();
    let (_, ta) = sa.split_tape();
    let (_, tb) = sb.split_tape();
    match ta.merge(tb) {
        Tape::Tracing(ops) => {
            assert_eq!(ops.len(), 2);
            assert!(matches!(ops[0], stag::BackwardOp::Sum { inp, .. } if inp.id == a.id));
            assert!(matches!(ops[1], stag::BackwardOp::Sum { inp, .. } if inp.id == b.id));
        }
        Tape::NoTape => panic!("merged tape lost its steps"),
    }
}

#[test]
fn ids_are_handed_out_in_order() {
    let mut dev = Cpu::new();
    let a = dev.tensor(vec![1], ints(&[1])).unwrap();
    let b = dev.tensor(vec![1], ints(&[1])).unwrap();
    assert_eq!(a.id, 0);
    assert_eq!(b.id, 1);
    dev.next_id = u64::MAX;
    assert!(dev.tensor(vec![1], ints(&[1])).is_err());
}

#[test]
fn backward_without_tape_seeds_the_root() {
    let mut dev = Cpu::new();
    let t = dev.tensor(vec![2], ints(&[1, 2])).unwrap();
    let root = t.duplicate();
    let grads = backward(&dev, root).unwrap();
    assert_eq!(grads.get(&t.ghost()).unwrap(), &ints(&[1, 1]));
}

#[test]
fn one_tensor_on_both_sides_of_a_concatenation() {
    let mut dev = Cpu::new();
    let x = dev.tensor(vec![2], ints(&[3, 4])).unwrap();
    let traced = x.trace();
    let plain = traced.duplicate();
    let c = dev.try_concat_along(traced, plain, Axis(0)).unwrap();
    assert_eq!(c.data, ints(&[3, 4, 3, 4]));
    let s = dev.try_sum(c).unwrap();
    let grads = backward(&dev, s).unwrap();
    assert_eq!(grads.get(&x.ghost()).unwrap(), &ints(&[2, 2]));
}

#[test]
fn concat_kernel_on_buffers() {
    let dev = Cpu::new();
    // Two rows: [1 2 | 5] and [3 4 | 6].
    let c = dev.forward(2, 2, 1, &ints(&[1, 2, 3, 4]), &ints(&[5, 6]));
    assert_eq!(c, ints(&[1, 2, 5, 3, 4, 6]));
    let mut ga = ints(&[1, 1, 1, 1]);
    let mut gb = ints(&[0, 0]);
    dev.backward(2, 2, 1, &mut ga, &mut gb, &ints(&[10, 20, 30, 40, 50, 60])).unwrap();
    assert_eq!(ga, ints(&[11, 21, 41, 51]));
    assert_eq!(gb, ints(&[30, 60]));
}
