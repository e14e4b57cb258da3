use xry::graph::{Xry, XryGrad};
use xry::ratio::{BinOp, Ratio};
use xry::tensor::{Strategy, Tensor, XryError};

fn tensor(shape: Vec<usize>, nums: &[i64]) -> Tensor {
    Tensor::new(shape, nums.iter().map(|n| Ratio::from_int(*n)).collect()).unwrap()
}

fn as_f64(r: &Ratio) -> f64 {
    r.num as f64 / r.den as f64
}

fn close(t: &Tensor, expected: &[f64]) -> bool {
    t.data.len() == expected.len()
        && t.data.iter().zip(expected).all(|(x, e)| (as_f64(x) - e).abs() < 1e-9)
}

#[test]
fn shape_is_kept_by_every_operation() {
    let mut g = XryGrad::new();
    let a = Xry::new(&mut g, tensor(vec![2, 3], &[1, 2, 3, 4, 5, 6]));
    let b = Xry::new(&mut g, tensor(vec![2, 3], &[6, 5, 4, 3, 2, 1]));
    for r in [
        a.add(&b, &mut g).unwrap(),
        a.sub(&b, &mut g).unwrap(),
        a.mul(&b, &mut g).unwrap(),
        a.div(&b, &mut g).unwrap(),
    ] {
        assert_eq!(r.value(&g).unwrap().shape, vec![2, 3]);
    }
}

#[test]
fn mismatched_shapes_are_rejected() {
    let mut g = XryGrad::new();
    let a = Xry::new(&mut g, tensor(vec![2, 3], &[1, 2, 3, 4, 5, 6]));
    let b = Xry::new(&mut g, tensor(vec![3, 2], &[1, 2, 3, 4, 5, 6]));
    let n = g.nodes.len();
    assert_eq!(a.add(&b, &mut g), Err(XryError::ShapeMismatch));
    assert_eq!(a.div(&b, &mut g), Err(XryError::ShapeMismatch));
    assert_eq!(g.nodes.len(), n);
}

#[test]
fn elementwise_values() {
    let mut g = XryGrad::new();
    let a = Xry::new(&mut g, tensor(vec![3], &[1, -2, 7]));
    let b = Xry::new(&mut g, tensor(vec![3], &[2, 4, -7]));
    let s = a.add(&b, &mut g).unwrap();
    let d = a.sub(&b, &mut g).unwrap();
    let m = a.mul(&b, &mut g).unwrap();
    let q = a.div(&b, &mut g).unwrap();
    assert!(close(s.value(&g).unwrap(), &[3.0, 2.0, 0.0]));
    assert!(close(d.value(&g).unwrap(), &[-1.0, -6.0, 14.0]));
    assert!(close(m.value(&g).unwrap(), &[2.0, -8.0, -49.0]));
    assert!(close(q.value(&g).unwrap(), &[0.5, -0.5, -1.0]));
    assert_eq!(q.value(&g).unwrap().data[2], Ratio { num: -7, den: 7 });
}

#[test]
fn division_by_zero_fails_every_time() {
    let mut g = XryGrad::new();
    let a = Xry::new(&mut g, tensor(vec![2], &[1, 2]));
    let b = Xry::new(&mut g, tensor(vec![2], &[3, 0]));
    assert_eq!(a.div(&b, &mut g), Err(XryError::DivisionByZero));
    assert_eq!(a.div(&b, &mut g), Err(XryError::DivisionByZero));
    assert!(b.div(&a, &mut g).is_ok());
}

#[test]
fn overflow_is_reported() {
    let mut g = XryGrad::new();
    let a = Xry::new(&mut g, tensor(vec![1], &[i64::MAX]));
    let b = Xry::new(&mut g, tensor(vec![1], &[2]));
    assert_eq!(a.mul(&b, &mut g), Err(XryError::Overflow));
    assert_eq!(a.add(&a, &mut g), Err(XryError::Overflow));
}

#[test]
fn unknown_handle_is_reported() {
    let mut g = XryGrad::new();
    let a = Xry::new(&mut g, tensor(vec![1], &[1]));
    let stray = Xry { id: 5, strategy: Strategy::Sequential };
    assert_eq!(a.add(&stray, &mut g), Err(XryError::UnknownNode));
    assert_eq!(stray.backward(&mut g, None), Err(XryError::UnknownNode));
}

#[test]
fn strategies_agree() {
    let a = tensor(vec![2, 3], &[1, 2, 3, 4, 5, 6]);
    let b = tensor(vec![2, 3], &[7, -8, 9, 10, 11, -12]);
    for op in [BinOp::Add, BinOp::Sub, BinOp::Mul, BinOp::Div] {
        let s = a.elementwise(Strategy::Sequential, op, &b).unwrap();
        for other in [Strategy::Partitioned(0), Strategy::Partitioned(4), Strategy::Compiled] {
            let t = a.elementwise(other, op, &b).unwrap();
            assert_eq!(s.data, t.data);
            assert_eq!(s.shape, t.shape);
        }
    }
}

#[test]
fn add_gradient_with_default_seed() {
    let mut g = XryGrad::new();
    let a = Xry::new(&mut g, tensor(vec![2], &[1, 2]));
    let b = Xry::new(&mut g, tensor(vec![2], &[3, 4]));
    let c = a.add(&b, &mut g).unwrap();
    c.backward(&mut g, None).unwrap();
    assert!(close(a.grad(&g).unwrap(), &[1.0, 1.0]));
    assert!(close(b.grad(&g).unwrap(), &[1.0, 1.0]));
    assert!(close(c.grad(&g).unwrap(), &[1.0, 1.0]));
}

#[test]
fn sub_gradient_negates_the_right_operand() {
    let mut g = XryGrad::new();
    let a = Xry::new(&mut g, tensor(vec![2], &[1, 2]));
    let b = Xry::new(&mut g, tensor(vec![2], &[3, 4]));
    let c = a.sub(&b, &mut g).unwrap();
    c.backward(&mut g, Some(tensor(vec![2], &[2, 3]))).unwrap();
    assert!(close(a.grad(&g).unwrap(), &[2.0, 3.0]));
    assert!(close(b.grad(&g).unwrap(), &[-2.0, -3.0]));
}

#[test]
fn diamond_gradients_reach_every_leaf() {
    let mut g = XryGrad::new();
    let a = Xry::new(&mut g, tensor(vec![1], &[2]));
    let b = Xry::new(&mut g, tensor(vec![1], &[3]));
    let c = Xry::new(&mut g, tensor(vec![1], &[4]));
    let p = a.mul(&b, &mut g).unwrap();
    let q = b.div(&c, &mut g).unwrap();
    let r = p.add(&q, &mut g).unwrap();
    r.backward(&mut g, None).unwrap();
    assert!(close(a.grad(&g).unwrap(), &[3.0]));
    assert!(close(b.grad(&g).unwrap(), &[2.25]));
    assert!(close(c.grad(&g).unwrap(), &[-0.1875]));
}

#[test]
fn shared_leaf_sums_both_paths() {
    let mut g = XryGrad::new();
    let x = Xry::new(&mut g, tensor(vec![2], &[3, 5]));
    let y = Xry::new(&mut g, tensor(vec![2], &[2, 7]));
    let p = x.mul(&y, &mut g).unwrap();
    let q = x.add(&y, &mut g).unwrap();
    let r = p.add(&q, &mut g).unwrap();
    r.backward(&mut g, None).unwrap();
    // d(xy + x + y)/dx = y + 1, and d/dy = x + 1
    assert!(close(x.grad(&g).unwrap(), &[3.0, 8.0]));
    assert!(close(y.grad(&g).unwrap(), &[4.0, 6.0]));
}

#[test]
fn square_of_a_leaf() {
    let mut g = XryGrad::new();
    let x = Xry::new(&mut g, tensor(vec![1], &[5]));
    let r = x.mul(&x, &mut g).unwrap();
    r.backward(&mut g, None).unwrap();
    assert!(close(x.grad(&g).unwrap(), &[10.0]));
}

#[test]
fn second_pass_starts_from_zero() {
    let mut g = XryGrad::new();
    let a = Xry::new(&mut g, tensor(vec![1], &[1]));
    let b = Xry::new(&mut g, tensor(vec![1], &[2]));
    let c = a.add(&b, &mut g).unwrap();
    c.backward(&mut g, None).unwrap();
    c.backward(&mut g, None).unwrap();
    assert!(close(a.grad(&g).unwrap(), &[1.0]));
}

#[test]
fn unreached_nodes_keep_their_gradient() {
    let mut g = XryGrad::new();
    let a = Xry::new(&mut g, tensor(vec![1], &[1]));
    let b = Xry::new(&mut g, tensor(vec![1], &[2]));
    let c = Xry::new(&mut g, tensor(vec![1], &[3]));
    let ab = a.add(&b, &mut g).unwrap();
    let bc = b.mul(&c, &mut g).unwrap();
    bc.backward(&mut g, None).unwrap();
    ab.backward(&mut g, None).unwrap();
    assert!(close(c.grad(&g).unwrap(), &[2.0]));
    assert!(close(b.grad(&g).unwrap(), &[1.0]));
}

#[test]
fn seed_of_wrong_shape_is_rejected() {
    let mut g = XryGrad::new();
    let a = Xry::new(&mut g, tensor(vec![2], &[1, 2]));
    let b = Xry::new(&mut g, tensor(vec![2], &[3, 4]));
    let c = a.add(&b, &mut g).unwrap();
    assert_eq!(c.backward(&mut g, Some(tensor(vec![1], &[1]))), Err(XryError::ShapeMismatch));
}

#[test]
fn tensor_construction_checks_shape() {
    assert!(Tensor::new(vec![2, 2], vec![Ratio::one(); 4]).is_ok());
    assert_eq!(Tensor::new(vec![2, 2], vec![Ratio::one(); 3]).unwrap_err(), XryError::ShapeMismatch);
    assert_eq!(Tensor::new(vec![0], vec![]).unwrap_err(), XryError::ShapeMismatch);
    assert_eq!(
        Tensor::new(vec![1], vec![Ratio { num: 1, den: 0 }]).unwrap_err(),
        XryError::ShapeMismatch
    );
    assert_eq!(Tensor::filled(vec![usize::MAX, 2], Ratio::zero()).unwrap_err(), XryError::ShapeMismatch);
    assert_eq!(Tensor::filled(vec![2, 3], Ratio::zero()).unwrap().data.len(), 6);
}

#[test]
fn rational_arithmetic_is_exact() {
    let half = Ratio::new(1, 2);
    let third = Ratio::new(1, 3);
    assert_eq!(half.apply(BinOp::Add, &third), Some(Ratio { num: 5, den: 6 }));
    assert_eq!(half.apply(BinOp::Sub, &third), Some(Ratio { num: 1, den: 6 }));
    assert_eq!(half.apply(BinOp::Mul, &third), Some(Ratio { num: 1, den: 6 }));
    assert_eq!(half.apply(BinOp::Div, &Ratio::new(-1, 3)), Some(Ratio { num: -3, den: 2 }));
    assert_eq!(half.apply(BinOp::Div, &Ratio::zero()), None);
    assert_eq!(Ratio::from_int(i64::MIN).neg(), None);
}
