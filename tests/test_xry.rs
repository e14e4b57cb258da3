use xry::graph::{Xry, XryGrad};
use xry::ratio::Ratio;
use xry::tensor::{Strategy, Tensor};

fn filled(rows: usize, cols: usize, v: i64) -> Tensor {
    Tensor::filled(vec![rows, cols], Ratio::from_int(v)).unwrap()
}

fn as_f64(r: &Ratio) -> f64 {
    r.num as f64 / r.den as f64
}

fn values(t: &Tensor) -> Vec<f64> {
    t.data.iter().map(as_f64).collect()
}

fn all_equal(t: &Tensor, v: f64) -> bool {
    values(t).iter().all(|x| (x - v).abs() < 1e-9)
}

fn sum_diff(t: &Tensor, v: f64) -> f64 {
    values(t).iter().map(|x| x - v).sum::<f64>()
}

#[test]
fn test_xry_creation() {
    let mut g = XryGrad::new();
    let xry = Xry::new(&mut g, filled(2, 2, 1));
    let v = xry.value(&g).unwrap();
    assert_eq!(v.shape, vec![2, 2]);
    assert!(all_equal(v, 1.0));
}

#[test]
fn test_xry_addition() {
    let mut g = XryGrad::new();
    let xry1 = Xry::new(&mut g, filled(2, 2, 1));
    let xry2 = Xry::new(&mut g, filled(2, 2, 2));
    let result = xry1.add(&xry2, &mut g).unwrap();
    assert!(all_equal(result.value(&g).unwrap(), 3.0));
}

#[test]
fn test_xry_subtraction() {
    let mut g = XryGrad::new();
    let xry1 = Xry::new(&mut g, filled(2, 2, 5));
    let xry2 = Xry::new(&mut g, filled(2, 2, 2));
    let result = xry1.sub(&xry2, &mut g).unwrap();
    assert!(all_equal(result.value(&g).unwrap(), 3.0));
}

#[test]
fn test_xry_multiplication() {
    let mut g = XryGrad::new();
    let xry1 = Xry::new(&mut g, filled(2, 2, 2));
    let xry2 = Xry::new(&mut g, filled(2, 2, 3));
    let result = xry1.mul(&xry2, &mut g).unwrap();
    assert!(all_equal(result.value(&g).unwrap(), 6.0));
}

#[test]
fn test_xry_division() {
    let mut g = XryGrad::new();
    let xry1 = Xry::new(&mut g, filled(2, 2, 6));
    let xry2 = Xry::new(&mut g, filled(2, 2, 2));
    let result = xry1.div(&xry2, &mut g).unwrap();
    assert!(all_equal(result.value(&g).unwrap(), 3.0));
}

#[test]
fn test_automatic_differentiation() {
    let mut g = XryGrad::new();
    let xry1 = Xry::new(&mut g, filled(2, 2, 1));
    let xry2 = Xry::new(&mut g, filled(2, 2, 2));
    let result = xry1.add(&xry2, &mut g).unwrap();
    result.backward(&mut g, Some(filled(2, 2, 1))).unwrap();
    assert!(all_equal(xry1.grad(&g).unwrap(), 1.0));
    assert!(all_equal(xry2.grad(&g).unwrap(), 1.0));
}

#[test]
fn test_jit_compilation() {
    let mut g = XryGrad::new();
    let xry1 = Xry::new(&mut g, filled(100, 100, 1));
    let xry2 = Xry::new(&mut g, filled(100, 100, 2));
    let result = xry1.add(&xry2, &mut g).unwrap();
    let mut compiled = xry1;
    compiled.enable_jit();
    let jit_result = compiled.add(&xry2, &mut g).unwrap();
    assert_eq!(jit_result.strategy, Strategy::Compiled);
    assert_eq!(result.value(&g).unwrap().data, jit_result.value(&g).unwrap().data);
}

#[test]
fn test_parallelism() {
    let mut g = XryGrad::new();
    let xry1 = Xry::new(&mut g, filled(1000, 1000, 1));
    let xry2 = Xry::new(&mut g, filled(1000, 1000, 2));
    let result = xry1.add(&xry2, &mut g).unwrap();
    let parallel = Xry { id: xry1.id, strategy: Strategy::Partitioned(4096) };
    let parallel_result = parallel.add(&xry2, &mut g).unwrap();
    assert_eq!(result.value(&g).unwrap().data, parallel_result.value(&g).unwrap().data);
}

#[test]
fn test_complex_automatic_differentiation() {
    let mut g = XryGrad::new();
    let xry1 = Xry::new(&mut g, filled(2, 2, 2));
    let xry2 = Xry::new(&mut g, filled(2, 2, 3));
    let xry3 = Xry::new(&mut g, filled(2, 2, 4));
    let p = xry1.mul(&xry2, &mut g).unwrap();
    let q = xry2.div(&xry3, &mut g).unwrap();
    let result = p.add(&q, &mut g).unwrap();
    result.backward(&mut g, Some(filled(2, 2, 1))).unwrap();
    assert!(sum_diff(xry1.grad(&g).unwrap(), 3.0).abs() < 1e-6);
    assert!(sum_diff(xry2.grad(&g).unwrap(), 2.25).abs() < 1e-6);
    assert!(sum_diff(xry3.grad(&g).unwrap(), -0.1875).abs() < 1e-6);
}
