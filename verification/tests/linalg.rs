use rml::rawtensor::RawTensor;

fn lin(start: f64, end: f64, n: usize) -> RawTensor<f64> {
    let data: Vec<f64> = if n == 1 {
        vec![start]
    } else {
        (0..n).map(|i| start + i as f64 * (end - start) / (n - 1) as f64).collect()
    };
    RawTensor::from_vec(&[n], data)
}

fn dot(a: &RawTensor<f64>, b: &RawTensor<f64>) -> RawTensor<f64> {
    a.dot(b, 0.0, |acc, x, y| acc + x * y)
}

fn matmul(a: &RawTensor<f64>, b: &RawTensor<f64>) -> RawTensor<f64> {
    a.matmul(b, 0.0, |acc, x, y| acc + x * y)
}

#[test]
fn linalg_dot_standard() {
    let a = lin(1.0, 4.0, 4);
    let b = lin(1.0, 4.0, 4);
    let c = dot(&a, &b);
    assert_eq!(*c.shape(), [0usize; 0]);
    assert_eq!(*c.contiguous_data(), [30.0]);
}

#[test]
fn dot_non_contiguous() {
    let a = RawTensor::from_slice(&[4], &[1.0, 2.0, 3.0, 4.0]);
    let b = RawTensor::from_scalar(2.0).expand(&[4]);
    assert!(!b.is_contiguous());
    assert_eq!(*dot(&a, &b).contiguous_data(), [20.0]);
}

#[test]
fn matmul_id() {
    let a = RawTensor::from_slice(&[2, 2], &[1.0, 2.0, 3.0, 4.0]);
    let b = RawTensor::from_slice(&[2, 2], &[1.0, 0.0, 0.0, 1.0]);
    let c = matmul(&a, &b);
    assert_eq!(*c.shape(), [2, 2]);
    assert_eq!(*c.contiguous_data(), [1.0, 2.0, 3.0, 4.0]);
}

#[test]
fn linalg_matmul_values() {
    let a = RawTensor::from_slice(&[2, 2], &[1.0, 2.0, 3.0, 4.0]);
    let b = RawTensor::from_slice(&[2, 2], &[2.0, 0.0, 1.0, 3.0]);
    let c = matmul(&a, &b);
    assert_eq!(*c.shape(), [2, 2]);
    assert_eq!(*c.contiguous_data(), [4.0, 6.0, 10.0, 12.0]);
}

#[test]
fn matmul_5x10_10x7() {
    let a = lin(1.0, 50.0, 50).reshape(&[5, 10]);
    let b = RawTensor::full(&[10, 7], 1.0);
    let c = matmul(&a, &b);
    assert_eq!(*c.shape(), [5, 7]);
    let expected: Vec<f64> = [55.0, 155.0, 255.0, 355.0, 455.0]
        .iter()
        .flat_map(|&v| std::iter::repeat_n(v, 7))
        .collect();
    assert_eq!(*c.contiguous_data(), *expected);
}

#[test]
fn matmul_transposed_arg() {
    let a = lin(1.0, 6.0, 6).reshape(&[2, 3]);
    let b = lin(1.0, 6.0, 6).reshape(&[2, 3]).transpose(&[1, 0]);
    assert!(!b.is_contiguous());
    let c = matmul(&a, &b);
    assert_eq!(*c.shape(), [2, 2]);
    assert_eq!(*c.contiguous_data(), [14.0, 32.0, 32.0, 77.0]);
}

#[test]
fn matmul_dot_standard() {
    let a = RawTensor::from_slice(&[4], &[1.0, 2.0, 3.0, 4.0]);
    let b = RawTensor::from_slice(&[4], &[1.0, 2.0, 3.0, 4.0]);
    let c = dot(&a, &b);
    assert_eq!(c.iter()[0], 30.0);
}

#[test]
fn matmul_2x2() {
    let a = RawTensor::from_slice(&[2, 2], &[1.0, 2.0, 3.0, 4.0]);
    let b = RawTensor::from_slice(&[2, 2], &[1.0, 0.0, 0.0, 1.0]);
    let c = matmul(&a, &b);
    assert_eq!(c.data(), &[1.0, 2.0, 3.0, 4.0]);
}

#[test]
fn matmul_output_shape() {
    let a = RawTensor::from_slice(&[2, 3], &[1.0; 6]);
    let b = RawTensor::from_slice(&[3, 4], &[1.0; 12]);
    let c = matmul(&a, &b);
    assert_eq!(c.shape(), &[2, 4]);
}

#[test]
fn matmul_matmul_values() {
    let a = RawTensor::from_slice(&[2, 2], &[1.0, 2.0, 3.0, 4.0]);
    let b = RawTensor::from_slice(&[2, 2], &[2.0, 0.0, 1.0, 3.0]);
    let c = matmul(&a, &b);
    assert_eq!(c.data(), &[4.0, 6.0, 10.0, 12.0]);
}

#[test]
fn matmul_integer_ring() {
    // the same loops over exact integers: [[1, 2, 3], [4, 5, 6]] x [[1, 0], [0, 1], [1, 1]]
    let a = RawTensor::from_slice(&[2, 3], &[1i64, 2, 3, 4, 5, 6]);
    let b = RawTensor::from_slice(&[3, 2], &[1i64, 0, 0, 1, 1, 1]);
    let c = a.matmul(&b, 0, |acc, x, y| acc + x * y);
    assert_eq!(*c.shape(), [2, 2]);
    assert_eq!(*c.contiguous_data(), [4, 5, 10, 11]);
    // the order of accumulation: each step sees the previous accumulator
    let v = RawTensor::from_slice(&[3], &[1i64, 2, 3]);
    let w = RawTensor::from_slice(&[3], &[1i64, 1, 1]);
    let trace = v.dot(&w, 0, |acc, x, _| acc * 10 + x);
    assert_eq!(trace.iter(), vec![123]);
}
