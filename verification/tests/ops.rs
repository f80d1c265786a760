use rml::broadcasting::{are_dimensions_compatible, get_broadcast_index, get_broadcast_shape};
use rml::grad::{expand_reduced_axes, transpose_inverse_perm};
use rml::graph::{topo_sort, GraphNode};
use rml::iter::LogicalIndices;
use rml::rawtensor::RawTensor;

fn linspace(start: f64, end: f64, n: usize) -> Vec<f64> {
    if n == 1 {
        return vec![start];
    }
    (0..n).map(|i| start + i as f64 * (end - start) / (n - 1) as f64).collect()
}

fn lin(start: f64, end: f64, n: usize) -> RawTensor<f64> {
    RawTensor::from_vec(&[n], linspace(start, end, n))
}

fn zeros(shape: &[usize]) -> RawTensor<f64> {
    RawTensor::full(shape, 0.0)
}

fn ones(shape: &[usize]) -> RawTensor<f64> {
    RawTensor::full(shape, 1.0)
}

fn add(a: &RawTensor<f64>, b: &RawTensor<f64>) -> RawTensor<f64> {
    a.elementwise_op(b, |x, y| x + y)
}

fn sub(a: &RawTensor<f64>, b: &RawTensor<f64>) -> RawTensor<f64> {
    a.elementwise_op(b, |x, y| x - y)
}

fn mul(a: &RawTensor<f64>, b: &RawTensor<f64>) -> RawTensor<f64> {
    a.elementwise_op(b, |x, y| x * y)
}

fn div(a: &RawTensor<f64>, b: &RawTensor<f64>) -> RawTensor<f64> {
    a.elementwise_op(b, |x, y| x / y)
}

fn sum(data: &[f64], step: usize, n: usize) -> f64 {
    if step == 0 {
        return data[0] * n as f64;
    }
    data.iter().step_by(step).take(n).sum()
}

fn mean(data: &[f64], step: usize, n: usize) -> f64 {
    if n == 0 {
        return f64::NAN;
    }
    sum(data, step, n) / n as f64
}

fn var(data: &[f64], step: usize, n: usize) -> f64 {
    if n == 0 {
        return f64::NAN;
    }
    if step == 0 {
        return 0.0;
    }
    let mut mean: f64 = 0.0;
    let mut var: f64 = 0.0;
    for (i, x) in data.iter().step_by(step).take(n).enumerate() {
        let delta = x - mean;
        mean += delta / (i + 1) as f64;
        var += delta * (x - mean);
    }
    var / n as f64
}

fn softmax(data: &[f64], step: usize, n: usize) -> Vec<f64> {
    if step == 0 {
        return vec![1.0 / n as f64; n];
    }
    let max: f64 = data.iter().step_by(step).take(n).copied().fold(f64::NEG_INFINITY, f64::max);
    let exps: Vec<f64> = data.iter().step_by(step).take(n).map(|&x| f64::exp(x - max)).collect();
    let s: f64 = exps.iter().sum();
    exps.iter().map(|e| e / s).collect()
}

fn approx_eq_all(a: &[f64], b: &[f64]) -> bool {
    a.len() == b.len() && a.iter().zip(b).all(|(x, y)| (x - y).abs() < 1e-4)
}

// --- broadcasting on flat data ---

#[test]
fn get_broadcast_shape_matches_rules() {
    assert!(are_dimensions_compatible(1, 4));
    assert!(!are_dimensions_compatible(2, 3));
    assert_eq!(get_broadcast_shape(&[1, 2, 3], &[5, 2, 1]), vec![5, 2, 3]);
    assert_eq!(get_broadcast_shape(&[2, 3], &[5, 2, 1]), vec![5, 2, 3]);
}

#[test]
fn get_broadcast_index_row_and_column() {
    // [3] broadcast to [2, 3]: the row repeats
    let idx: Vec<usize> = (0..6).map(|i| get_broadcast_index(i, &[3], &[2, 3])).collect();
    assert_eq!(idx, vec![0, 1, 2, 0, 1, 2]);
    // [2, 1] broadcast to [2, 3]: the column repeats
    let idx: Vec<usize> = (0..6).map(|i| get_broadcast_index(i, &[2, 1], &[2, 3])).collect();
    assert_eq!(idx, vec![0, 0, 0, 1, 1, 1]);
    // same shape: identity
    let idx: Vec<usize> = (0..6).map(|i| get_broadcast_index(i, &[2, 3], &[2, 3])).collect();
    assert_eq!(idx, vec![0, 1, 2, 3, 4, 5]);
}

// --- logical iteration ---

#[test]
fn logical_indices_transposed_order() {
    let mut it = LogicalIndices::new(vec![3, 2], vec![1, 3]);
    let mut got = Vec::new();
    while let Some(p) = it.next() {
        got.push(p);
    }
    assert_eq!(got, vec![0, 3, 1, 4, 2, 5]);
    assert_eq!(it.next(), None);
}

#[test]
fn logical_indices_zero_dim_and_scalar() {
    let mut it = LogicalIndices::new(vec![2, 0], vec![1, 1]);
    assert_eq!(it.next(), None);
    let mut it = LogicalIndices::new(vec![], vec![]);
    assert_eq!(it.next(), Some(0));
    assert_eq!(it.next(), None);
}

#[test]
fn logical_indices_expanded_repeats() {
    let mut it = LogicalIndices::new(vec![2, 3], vec![0, 1]);
    let mut got = Vec::new();
    while let Some(p) = it.next() {
        got.push(p);
    }
    assert_eq!(got, vec![0, 1, 2, 0, 1, 2]);
}

// --- constructors ---

#[test]
fn identity_diagonal_and_off_diagonal() {
    let t = RawTensor::identity(3, 0.0, 1.0);
    assert_eq!(t.shape(), &[3, 3]);
    for i in 0..3 {
        for j in 0..3 {
            let expected = if i == j { 1.0 } else { 0.0 };
            assert_eq!(t.get(&[i, j]), Some(expected));
        }
    }
}

#[test]
fn from_slice_shape_and_data() {
    let t = RawTensor::from_slice(&[2, 3], &[1.0, 2.0, 3.0, 4.0, 5.0, 6.0]);
    assert_eq!(*t.shape(), [2, 3]);
    assert_eq!(*t.contiguous_data(), [1.0, 2.0, 3.0, 4.0, 5.0, 6.0]);
}

#[test]
fn from_scalar_is_0d() {
    let t = RawTensor::from_scalar(7.0);
    assert_eq!(*t.shape(), []);
    assert_eq!(t.ndim(), 0);
    assert_eq!(*t.contiguous_data(), [7.0]);
}

#[test]
fn full_fills_value() {
    let t = RawTensor::full(&[2, 3], 7.0);
    assert_eq!(*t.shape(), [2, 3]);
    assert!(t.iter().iter().all(|&x| x == 7.0));
    assert_eq!(t.len(), 6);
    assert!(!t.is_empty());
}

#[test]
fn from_box_moves_data() {
    let t = RawTensor::from_box(&[2, 2], vec![1.0, 2.0, 3.0, 4.0].into_boxed_slice());
    assert_eq!(*t.data(), [1.0, 2.0, 3.0, 4.0]);
    assert_eq!(*t.strides(), [2, 1]);
}

#[test]
fn iter_indexed_positions() {
    let t = lin(1.0, 6.0, 6).reshape(&[2, 3]).transpose(&[1, 0]);
    let got = t.iter_indexed();
    assert_eq!(got, vec![(0, 1.0), (3, 4.0), (1, 2.0), (4, 5.0), (2, 3.0), (5, 6.0)]);
}

// --- unary ---

#[test]
fn map_on_transposed() {
    let t = lin(1.0, 6.0, 6).reshape(&[2, 3]);
    let tt = t.transpose(&[1, 0]);
    let r = tt.map(|x| x * 2.0);
    assert_eq!(*r.shape(), [3, 2]);
    assert_eq!(*r.strides(), [1, 3]);
    assert_eq!(*r.contiguous_data(), [2.0, 8.0, 4.0, 10.0, 6.0, 12.0]);
}

#[test]
fn map_on_transposed_and_expanded() {
    let t = lin(1.0, 6.0, 6).reshape(&[2, 3]);
    let tt = t.transpose(&[1, 0]);
    let te = tt.expand(&[3, 3, 2]);
    let r = te.map(|x| x * 2.0);
    assert_eq!(*r.shape(), [3, 3, 2]);
    assert_eq!(
        *r.contiguous_data(),
        [2.0, 8.0, 4.0, 10.0, 6.0, 12.0, 2.0, 8.0, 4.0, 10.0, 6.0, 12.0, 2.0, 8.0, 4.0, 10.0, 6.0, 12.0]
    );
}

// --- binary ---

#[test]
fn binary_basic_ops() {
    let a = lin(1.0, 4.0, 4);
    let b = RawTensor::from_slice(&[4], &[4.0, 3.0, 2.0, 1.0]);
    assert_eq!(*add(&a, &b).contiguous_data(), [5.0, 5.0, 5.0, 5.0]);
    assert_eq!(*sub(&b, &a).contiguous_data(), [3.0, 1.0, -1.0, -3.0]);
    assert_eq!(*mul(&a, &b).contiguous_data(), [4.0, 6.0, 6.0, 4.0]);
    let c = RawTensor::from_slice(&[4], &[8.0, 6.0, 4.0, 2.0]);
    let d = RawTensor::from_slice(&[4], &[2.0, 3.0, 2.0, 1.0]);
    assert_eq!(*div(&c, &d).contiguous_data(), [4.0, 2.0, 2.0, 2.0]);
}

#[test]
fn non_contiguous_add() {
    let raw1 = lin(1.0, 6.0, 6).reshape(&[2, 3]);
    let a = raw1.transpose(&[1, 0]);
    let a = a.map(|x| x * 2.0).transpose(&[1, 0]);
    let a = a.map(|x| -x);

    let raw2 = lin(2.0, 12.0, 6).reshape(&[2, 3]);
    let raw2_t = raw2.transpose(&[1, 0]);
    let b = raw2_t.transpose(&[1, 0]);

    assert_eq!(*add(&a, &b).shape(), [2, 3]);
    assert_eq!(*add(&a, &b).strides(), [3, 1]);
    assert_eq!(*add(&a, &b).contiguous_data(), [0.0; 6]);
}

#[test]
fn broadcast_row_to_matrix() {
    let a = lin(1.0, 3.0, 3).reshape(&[1, 3]);
    let b = lin(10.0, 60.0, 6).reshape(&[2, 3]);
    assert_eq!(*add(&a, &b).contiguous_data(), [11.0, 22.0, 33.0, 41.0, 52.0, 63.0]);
}

#[test]
fn broadcast_col_times_row() {
    let a = lin(1.0, 3.0, 3).reshape(&[3, 1]);
    let b = lin(4.0, 6.0, 3).reshape(&[1, 3]);
    assert_eq!(
        *mul(&a, &b).contiguous_data(),
        [4.0, 5.0, 6.0, 8.0, 10.0, 12.0, 12.0, 15.0, 18.0]
    );
}

#[test]
fn non_contiguous_broadcast_add() {
    let raw = lin(1.0, 6.0, 6).reshape(&[2, 3]);
    let a = raw.transpose(&[1, 0]);
    let b = RawTensor::from_slice(&[1, 2], &[10.0, 20.0]);
    assert_eq!(*add(&a, &b).contiguous_data(), [11.0, 24.0, 12.0, 25.0, 13.0, 26.0]);
}

#[test]
fn expand_add() {
    let a = RawTensor::from_slice(&[3], &[1.0, 2.0, 3.0]).expand(&[4, 3]);
    let b = lin(0.0, 11.0, 12).reshape(&[4, 3]);
    assert_eq!(
        *add(&a, &b).contiguous_data(),
        [1.0, 3.0, 5.0, 4.0, 6.0, 8.0, 7.0, 9.0, 11.0, 10.0, 12.0, 14.0]
    );
}

#[test]
fn transpose_expand_broadcast_add() {
    let raw = lin(1.0, 6.0, 6).reshape(&[2, 3]);
    let a = raw.transpose(&[1, 0]).expand(&[4, 3, 2]);
    let b = lin(10.0, 40.0, 4).reshape(&[4, 1, 1]);
    let result = add(&a, &b);
    assert_eq!(*result.shape(), [4, 3, 2]);
    assert_eq!(
        *result.contiguous_data(),
        [
            11.0, 14.0, 12.0, 15.0, 13.0, 16.0, 21.0, 24.0, 22.0, 25.0, 23.0, 26.0, 31.0, 34.0, 32.0,
            35.0, 33.0, 36.0, 41.0, 44.0, 42.0, 45.0, 43.0, 46.0,
        ]
    );
}

#[test]
fn transpose_broadcast_mul_add_chain() {
    let raw = lin(1.0, 6.0, 6).reshape(&[2, 3]);
    let a = raw.transpose(&[1, 0]);
    let col = RawTensor::from_slice(&[3, 1], &[1.0, 2.0, 3.0]);
    let row = RawTensor::from_slice(&[1, 2], &[10.0, 100.0]);
    let result = add(&mul(&a, &col), &row);
    assert_eq!(*result.shape(), [3, 2]);
    assert_eq!(*result.contiguous_data(), [11.0, 104.0, 14.0, 110.0, 19.0, 118.0]);
}

// --- reductions ---

#[test]
fn basic_axis() {
    let a = lin(1.0, 6.0, 6).reshape(&[2, 3]);
    let b = a.reduce_axis(0, sum);
    assert_eq!(*b.contiguous_data(), [5.0, 7.0, 9.0]);
    let c = a.reduce_axis(0, mean);
    assert_eq!(*c.contiguous_data(), [2.5, 3.5, 4.5]);
    let d = a.reduce_axis(0, var);
    assert_eq!(*d.contiguous_data(), [2.25; 3]);
    let e = a.reduce_axis(0, |d, s, n| f64::sqrt(var(d, s, n)));
    assert_eq!(*e.contiguous_data(), [1.5; 3]);
}

#[test]
fn reduce_axis_1() {
    let a = RawTensor::from_slice(&[1, 3], &[2.0, 4.0, 6.0]);
    let b = a.reduce_axis(1, var);
    assert_eq!(*b.shape(), [1]);
    assert_eq!(*b.contiguous_data(), [8.0 / 3.0]);
}

#[test]
fn reduce_axis_3d() {
    let a = lin(0.0, 23.0, 24).reshape(&[2, 3, 4]);
    let b = a.reduce_axis(1, sum);
    assert_eq!(*b.shape(), [2, 4]);
    assert_eq!(*b.contiguous_data(), [12.0, 15.0, 18.0, 21.0, 48.0, 51.0, 54.0, 57.0]);
}

#[test]
fn reduce_transposed() {
    let a = lin(1.0, 6.0, 6).reshape(&[2, 3]);
    let c = a.transpose(&[1, 0]).reduce_axis(0, sum);
    assert_eq!(*c.shape(), [2]);
    assert_eq!(*c.contiguous_data(), [6.0, 15.0]);
}

#[test]
fn reduce_expanded() {
    let a = lin(1.0, 6.0, 6).reshape(&[2, 3]);
    let c = a.expand(&[5, 2, 3]).reduce_axis(0, sum);
    assert_eq!(*c.shape(), [2, 3]);
    assert_eq!(*c.contiguous_data(), [5.0, 10.0, 15.0, 20.0, 25.0, 30.0]);
}

#[test]
fn unsqueeze_expand_reduce() {
    let a = lin(1.0, 6.0, 6).reshape(&[2, 3]);
    let b = a.unsqueeze(1).expand(&[2, 5, 3]).reduce_axis(1, sum);
    assert_eq!(*b.contiguous_data(), [5.0, 10.0, 15.0, 20.0, 25.0, 30.0]);
    let c = b.transpose(&[1, 0]).reduce_axis(1, sum);
    assert_eq!(*c.contiguous_data(), [25.0, 35.0, 45.0]);
}

#[test]
fn expand_transpose_reduce() {
    let a = lin(1.0, 12.0, 12).reshape(&[3, 4]);
    let b = a.unsqueeze(2).expand(&[3, 4, 2]).reduce_axis(2, sum);
    assert_eq!(
        *b.contiguous_data(),
        [2.0, 4.0, 6.0, 8.0, 10.0, 12.0, 14.0, 16.0, 18.0, 20.0, 22.0, 24.0]
    );
    let c = b.transpose(&[1, 0]).reduce_axis(1, mean);
    assert_eq!(*c.contiguous_data(), [10.0, 12.0, 14.0, 16.0]);
}

// --- normalizations ---

#[test]
fn softmax_uniform() {
    assert_eq!(*RawTensor::full(&[4], 5.0).normalize_axis(0, softmax).contiguous_data(), [1.0 / 4.0; 4]);
    assert_eq!(*zeros(&[2, 3]).normalize_axis(1, softmax).contiguous_data(), [1.0 / 3.0; 6]);
}

#[test]
fn softmax_values() {
    let input = [-1.0, -4.0, 0.0, 1.0, -2.0];
    let s = RawTensor::from_slice(&[5], &input).normalize_axis(0, softmax);
    assert!(approx_eq_all(&s.contiguous_data(), &[0.086768, 0.00432, 0.23586, 0.641133, 0.03192]));
}

#[test]
fn softmax_transposed() {
    let a = lin(0.0, 5.0, 6).reshape(&[2, 3]);
    let t = a.transpose(&[1, 0]);
    let b = t.normalize_axis(1, softmax);
    assert_eq!(*b.shape(), [3, 2]);
    assert_eq!(*b.strides(), [1, 3]);
    let e3 = 3.0f64.exp();
    let lo = 1.0 / (1.0 + e3);
    let hi = e3 / (1.0 + e3);
    assert!(approx_eq_all(&b.contiguous_data(), &[lo, hi, lo, hi, lo, hi]));
}

#[test]
fn softmax_expanded_axis() {
    let a = lin(1.0, 3.0, 3).reshape(&[1, 3]).expand(&[4, 3]);
    let s = a.normalize_axis(0, softmax);
    assert_eq!(*s.shape(), [4, 3]);
    assert_eq!(*s.contiguous_data(), [0.25; 12]);
}

#[test]
fn softmax_transpose_expand() {
    let a = RawTensor::from_slice(&[2, 1], &[0.0, 2.0f64.ln()]);
    let e = a.transpose(&[1, 0]).expand(&[3, 2]);
    let s = e.normalize_axis(1, softmax);
    let t = s.map(|x| x * 3.0);
    assert_eq!(*t.shape(), [3, 2]);
    assert_eq!(*t.contiguous_data(), [1.0, 2.0, 1.0, 2.0, 1.0, 2.0]);
}

// --- in-place accumulation ---

#[test]
fn accumulate_basic_ops() {
    let mut grad = zeros(&[3]);
    let g = lin(1.0, 3.0, 3).map(|gv| gv * 2.0);
    assert!(grad.elementwise_op_inplace(&g, |acc, v| acc + v));
    assert_eq!(*grad.contiguous_data(), [2.0, 4.0, 6.0]);

    let mut grad = zeros(&[3]);
    let g = div(&ones(&[3]), &RawTensor::from_slice(&[3], &[2.0, 4.0, 8.0]));
    assert!(grad.elementwise_op_inplace(&g, |acc, v| acc + v));
    assert_eq!(*grad.contiguous_data(), [0.5, 0.25, 0.125]);
}

#[test]
fn accumulate_into_broadcast_sums() {
    // the gradient of a [3] tensor expanded to [2, 3] sums the rows
    let mut grad = zeros(&[3]);
    let g = lin(1.0, 6.0, 6).reshape(&[2, 3]);
    assert!(grad.elementwise_op_inplace(&g, |acc, v| acc + v));
    assert_eq!(*grad.shape(), [3]);
    assert_eq!(*grad.contiguous_data(), [5.0, 7.0, 9.0]);
}

#[test]
fn accumulate_3_transpose_expand() {
    let a = lin(1.0, 6.0, 6).reshape(&[2, 3]).transpose(&[1, 0]);
    let b = RawTensor::from_slice(&[1, 2], &[1.0, 2.0]).expand(&[3, 2]);
    let g = ones(&[3, 2]);
    let mut grad = zeros(&[3, 2]);
    let contrib = mul(&mul(&g, &a), &b);
    assert!(grad.elementwise_op_inplace(&contrib, |acc, v| acc + v));
    assert_eq!(*grad.contiguous_data(), [1.0, 8.0, 2.0, 10.0, 3.0, 12.0]);
    assert!(grad.elementwise_op_inplace(&contrib, |acc, v| acc + v));
    assert_eq!(*grad.contiguous_data(), [2.0, 16.0, 4.0, 20.0, 6.0, 24.0]);
}

// --- backpropagation helpers ---

#[test]
fn expand_reduced_axes_cases() {
    assert_eq!(expand_reduced_axes(&[2, 4, 3], &[3]), vec![1, 0]);
    assert_eq!(expand_reduced_axes(&[2, 4, 3], &[1, 1, 3]), vec![1, 0]);
    assert_eq!(expand_reduced_axes(&[2, 4, 3], &[1, 3]), vec![1, 0]);
    assert_eq!(expand_reduced_axes(&[2, 3], &[2, 3]), Vec::<usize>::new());
    assert_eq!(expand_reduced_axes(&[5, 2, 3], &[2, 1]), vec![2, 0]);
}

#[test]
fn transpose_inverse_perm_cases() {
    // a: shape [2, 3, 4] strides [12, 4, 1]; out = a.transpose([2, 0, 1])
    let p = transpose_inverse_perm(&[2, 3, 4], &[12, 4, 1], &[4, 2, 3], &[1, 12, 4]).unwrap();
    assert_eq!(p, vec![1, 2, 0]);
    // tied shape and stride: dimensions of size 1 with equal strides
    let p = transpose_inverse_perm(&[1, 1, 4], &[4, 4, 1], &[1, 1, 4], &[4, 4, 1]).unwrap();
    assert_eq!(p, vec![0, 1, 2]);
    assert!(transpose_inverse_perm(&[2], &[1], &[3], &[1]).is_none());
}

#[test]
fn topo_sort_diamond() {
    // 0: x (requires grad), 1: y (no grad), 2 = x * x, 3 = x * 2, 4 = 2 + 3, 5 = y + 1
    let nodes = vec![
        GraphNode { inputs: vec![], tracks_grad: true },
        GraphNode { inputs: vec![], tracks_grad: false },
        GraphNode { inputs: vec![0, 0], tracks_grad: true },
        GraphNode { inputs: vec![0], tracks_grad: true },
        GraphNode { inputs: vec![2, 3, 1], tracks_grad: true },
        GraphNode { inputs: vec![1], tracks_grad: false },
    ];
    assert_eq!(topo_sort(&nodes, 4), vec![0, 2, 3, 4]);
    assert_eq!(topo_sort(&nodes, 5), Vec::<usize>::new());
    assert_eq!(topo_sort(&nodes, 3), vec![0, 3]);
}

// --- more normalizations ---

#[test]
fn softmax_lns() {
    let input = [0.0f64, 2.0f64.ln(), 3.0f64.ln()];
    let s = RawTensor::from_slice(&[3], &input).normalize_axis(0, softmax);
    assert_eq!(*s.contiguous_data(), [1.0 / 6.0, 1.0 / 3.0, 0.5]);
}

#[test]
fn softmax_big_values() {
    let b = RawTensor::from_slice(&[3], &[1000.0, 1001.0, 1002.0]).normalize_axis(0, softmax);
    let data = b.contiguous_data();
    assert!((data.iter().sum::<f64>() - 1.0).abs() < 1e-9);
    assert!(data.iter().all(|&x| x.is_finite() && x > 0.0));
}

#[test]
fn softmax_small_values() {
    let s = RawTensor::from_slice(&[3], &[-1000.0, -1001.0, -1002.0]).normalize_axis(0, softmax);
    let data = s.contiguous_data();
    assert!((data.iter().sum::<f64>() - 1.0).abs() < 1e-9);
    assert!(data.iter().all(|&x| x.is_finite() && (0.0..1.0).contains(&x)));
}

fn approx_eq(a: f64, b: f64) -> bool {
    (a - b).abs() < 1e-6
}

#[test]
fn softmax_sums_to_one() {
    let a = RawTensor::from_slice(&[4], &[1.0, 2.0, 3.0, 4.0]);
    let b = a.normalize_axis(0, softmax);
    let s: f64 = b.data().iter().sum();
    assert!(approx_eq(s, 1.0));
}

#[test]
fn softmax_2d_rows_sum_to_one() {
    let a = RawTensor::from_slice(&[2, 3], &[1.0, 2.0, 3.0, 1.0, 2.0, 3.0]);
    let b = a.normalize_axis(1, softmax);
    let row0: f64 = b.data()[0..3].iter().sum();
    let row1: f64 = b.data()[3..6].iter().sum();
    assert!(approx_eq(row0, 1.0));
    assert!(approx_eq(row1, 1.0));
}

#[test]
fn softmax_uniform_on_equal_inputs() {
    let a = RawTensor::from_slice(&[4], &[5.0, 5.0, 5.0, 5.0]);
    let b = a.normalize_axis(0, softmax);
    assert!(b.data().iter().all(|&x| approx_eq(x, 0.25)));
}

#[test]
fn softmax_large_values_stable() {
    let a = RawTensor::from_slice(&[3], &[1000.0, 1001.0, 1002.0]);
    let b = a.normalize_axis(0, softmax);
    let s: f64 = b.data().iter().sum();
    assert!(approx_eq(s, 1.0));
    assert!(b.data().iter().all(|&x| x.is_finite() && x > 0.0));
}

// --- scalar and unary arithmetic through map ---

#[test]
fn scalar_basic_ops() {
    let t = RawTensor::from_slice(&[4], &[1.0, 2.0, 4.0, 8.0]);
    assert_eq!(*t.map(|x| x + 10.0).contiguous_data(), [11.0, 12.0, 14.0, 18.0]);
    assert_eq!(*t.map(|x| 10.0 + x).contiguous_data(), [11.0, 12.0, 14.0, 18.0]);
    assert_eq!(*t.map(|x| x - 1.0).contiguous_data(), [0.0, 1.0, 3.0, 7.0]);
    assert_eq!(*t.map(|x| 10.0 - x).contiguous_data(), [9.0, 8.0, 6.0, 2.0]);
    assert_eq!(*t.map(|x| x * 2.0).contiguous_data(), [2.0, 4.0, 8.0, 16.0]);
    assert_eq!(*t.map(|x| 2.0 * x).contiguous_data(), [2.0, 4.0, 8.0, 16.0]);
    assert_eq!(*t.map(|x| x / 2.0).contiguous_data(), [0.5, 1.0, 2.0, 4.0]);
    assert_eq!(*t.map(|x| 8.0 / x).contiguous_data(), [8.0, 4.0, 2.0, 1.0]);
}

#[test]
fn scalar_assign_ops() {
    let mut t = RawTensor::from_slice(&[4], &[1.0, 2.0, 4.0, 8.0]);
    t = t.map(|x| x + 1.0);
    assert_eq!(*t.contiguous_data(), [2.0, 3.0, 5.0, 9.0]);
    t = t.map(|x| x - 1.0);
    assert_eq!(*t.contiguous_data(), [1.0, 2.0, 4.0, 8.0]);
    t = t.map(|x| x * 2.0);
    assert_eq!(*t.contiguous_data(), [2.0, 4.0, 8.0, 16.0]);
    t = t.map(|x| x / 2.0);
    assert_eq!(*t.contiguous_data(), [1.0, 2.0, 4.0, 8.0]);
}

#[test]
fn unary_basic_ops() {
    let close = |a: &[f64], b: &[f64]| a.len() == b.len() && a.iter().zip(b).all(|(x, y)| (x - y).abs() < 1e-9);
    assert_eq!(*RawTensor::from_slice(&[4], &[0.0, 1.0, 4.0, 9.0]).map(f64::sqrt).contiguous_data(), [0.0, 1.0, 2.0, 3.0]);
    assert_eq!(*RawTensor::from_slice(&[5], &[-3.0, -1.0, 0.0, 1.0, 3.0]).map(f64::abs).contiguous_data(), [3.0, 1.0, 0.0, 1.0, 3.0]);
    assert_eq!(
        *RawTensor::from_slice(&[5], &[-2.0, -1.0, 0.0, 1.0, 2.0]).map(|x: f64| x.max(0.0)).contiguous_data(),
        [0.0, 0.0, 0.0, 1.0, 2.0]
    );
    assert_eq!(*RawTensor::from_slice(&[4], &[1.0, -2.0, 0.0, 3.0]).map(|x| -x).contiguous_data(), [-1.0, 2.0, 0.0, -3.0]);

    let t = RawTensor::from_slice(&[4], &[-1.0, 0.0, 1.0, 2.0]);
    assert!(close(&t.map(f64::exp).contiguous_data(), &[-1.0, 0.0, 1.0, 2.0].map(f64::exp)));
    assert!(close(&t.map(f64::tanh).contiguous_data(), &[-1.0, 0.0, 1.0, 2.0].map(f64::tanh)));

    let ln_in = [0.5, 1.0, 2.0, 10.0];
    assert!(close(&RawTensor::from_slice(&[4], &ln_in).map(f64::ln).contiguous_data(), &ln_in.map(f64::ln)));

    let sig_in = [-2.0, 0.0, 1.0, 2.0];
    let sig = |x: f64| 1.0 / ((-x).exp() + 1.0);
    assert!(close(&RawTensor::from_slice(&[4], &sig_in).map(sig).contiguous_data(), &sig_in.map(sig)));
}

// --- more binary ---

#[test]
fn binary_assign_ops() {
    let a = RawTensor::from_slice(&[3], &[6.0, 4.0, 2.0]);
    let b = RawTensor::full(&[3], 2.0);
    let mut t = lin(1.0, 3.0, 3);
    t = add(&t, &a);
    assert_eq!(*t.contiguous_data(), [7.0, 6.0, 5.0]);
    t = sub(&t, &b);
    assert_eq!(*t.contiguous_data(), [5.0, 4.0, 3.0]);
    t = mul(&t, &b);
    assert_eq!(*t.contiguous_data(), [10.0, 8.0, 6.0]);
    t = div(&t, &b);
    assert_eq!(*t.contiguous_data(), [5.0, 4.0, 3.0]);
}

#[test]
fn non_contiguous_mul_sub() {
    let raw = lin(1.0, 9.0, 9).reshape(&[3, 3]);
    let raw_t = raw.transpose(&[1, 0]);
    let a_scaled = raw_t.map(|x| x * 3.0);
    let a = a_scaled.map(|x| x + 1.0);
    let raw_scaled = raw.map(|x| x * 2.0);
    let b = raw_scaled.map(|x| x - 1.0);
    assert_eq!(*mul(&a, &b).contiguous_data(), [4.0, 39.0, 110.0, 49.0, 144.0, 275.0, 130.0, 285.0, 476.0]);
}

// --- more constructors ---

#[test]
fn zeros_shape_and_data() {
    let t = zeros(&[2, 3]);
    assert_eq!(*t.shape(), [2, 3]);
    assert!(t.iter().into_iter().all(|x| x == 0.0));
}

#[test]
fn ones_shape_and_data() {
    let t = ones(&[2, 3]);
    assert_eq!(*t.shape(), [2, 3]);
    assert!(t.iter().into_iter().all(|x| x == 1.0));
}

#[test]
fn constructors_contiguous_on_transposed() {
    let t = lin(1.0, 6.0, 6).reshape(&[2, 3]).transpose(&[1, 0]);
    assert!(!t.is_contiguous());
    let c = t.contiguous();
    assert!(c.is_contiguous());
    assert_eq!(*c.shape(), [3, 2]);
    assert_eq!(*c.strides(), [2, 1]);
    assert_eq!(*c.contiguous_data(), [1.0, 4.0, 2.0, 5.0, 3.0, 6.0]);
}

#[test]
fn constructors_contiguous_on_expanded() {
    let t = RawTensor::from_slice(&[3], &[1.0, 2.0, 3.0]).expand(&[4, 3]);
    assert!(!t.is_contiguous());
    let c = t.contiguous();
    assert!(c.is_contiguous());
    assert_eq!(*c.shape(), [4, 3]);
    assert_eq!(*c.strides(), [3, 1]);
    assert_eq!(*c.contiguous_data(), [1.0, 2.0, 3.0, 1.0, 2.0, 3.0, 1.0, 2.0, 3.0, 1.0, 2.0, 3.0]);
}

// --- more accumulation ---

#[test]
fn accumulate_3_basic() {
    let g = ones(&[3]);
    let a = RawTensor::from_slice(&[3], &[6.0, 4.0, 9.0]);
    let b = RawTensor::from_slice(&[3], &[2.0, 2.0, 3.0]);
    let mut grad = zeros(&[3]);
    let contrib = div(&mul(&g, &a.map(|x| -x)), &mul(&b, &b));
    assert!(grad.elementwise_op_inplace(&contrib, |acc, v| acc + v));
    assert_eq!(*grad.contiguous_data(), [-1.5, -1.0, -1.0]);
    assert!(grad.elementwise_op_inplace(&contrib, |acc, v| acc + v));
    assert_eq!(*grad.contiguous_data(), [-3.0, -2.0, -2.0]);
}

#[test]
fn accumulate_3_broadcast() {
    let g = ones(&[1, 3]);
    let a = lin(1.0, 3.0, 3).reshape(&[3, 1]);
    let b = lin(1.0, 3.0, 3).reshape(&[1, 3]);
    let mut grad = zeros(&[3, 3]);
    let contrib = mul(&mul(&g, &a), &b);
    assert!(grad.elementwise_op_inplace(&contrib, |acc, v| acc + v));
    assert_eq!(*grad.contiguous_data(), [1.0, 2.0, 3.0, 2.0, 4.0, 6.0, 3.0, 6.0, 9.0]);
}

// --- laws on concrete values ---

#[test]
fn expand_gradient_sums_back_to_input_shape() {
    // a [4, 1] tensor expanded to [2, 4, 3]: summing the gradient over the axes found
    // (dropping new leading axes, keeping the others with size 1) gives back [4, 1]
    let out_shape = [2, 4, 3];
    let a_shape = [4, 1];
    let axes = expand_reduced_axes(&out_shape, &a_shape);
    assert_eq!(axes, vec![2, 0]);
    let extra = out_shape.len() - a_shape.len();
    let mut g = ones(&out_shape);
    for axis in axes {
        let summed = g.reduce_axis(axis, sum);
        g = if axis < extra { summed } else { summed.unsqueeze(axis) };
    }
    assert_eq!(*g.shape(), a_shape);
    assert_eq!(*g.contiguous_data(), [6.0, 6.0, 6.0, 6.0]);
}

#[test]
fn transpose_inverse_of_a_transpose_is_found() {
    let a = lin(1.0, 24.0, 24).reshape(&[2, 3, 4]);
    let t = a.transpose(&[1, 2, 0]);
    let p = transpose_inverse_perm(a.shape(), a.strides(), t.shape(), t.strides()).unwrap();
    assert_eq!(p, vec![2, 0, 1]);
    let back = t.transpose(&p);
    assert_eq!(*back.shape(), [2, 3, 4]);
    assert_eq!(*back.strides(), *a.strides());
}

#[test]
fn row_major_lanes_start_at_outer_and_inner_offsets() {
    // data[i] == i, so each lane's first element is its start position
    let data: Vec<i64> = (0..24).collect();
    let t = RawTensor::from_vec(&[2, 3, 4], data);
    let starts = t.reduce_axis(1, |d: &[i64], step: usize, n: usize| {
        assert_eq!((step, n), (4, 3));
        d[0]
    });
    let expected: Vec<i64> = (0..8).map(|k| (k / 4) * 12 + k % 4).collect();
    assert_eq!(starts.iter(), expected);
}

#[test]
fn reduce_keeps_layout_of_transposed() {
    let a = lin(1.0, 6.0, 6).reshape(&[2, 3]).transpose(&[1, 0]);
    let b = a.reduce_axis(1, sum);
    assert_eq!(*b.shape(), [3]);
    assert_eq!(*b.strides(), [1]);
    assert_eq!(b.data(), &[5.0, 7.0, 9.0]);
    let c = a.reduce_axis(0, sum);
    assert_eq!(*c.shape(), [2]);
    assert_eq!(*c.strides(), [1]);
    assert_eq!(c.data(), &[6.0, 15.0]);
}

#[test]
fn reduce_over_expanded_axis_keeps_buffer() {
    let a = RawTensor::from_slice(&[3], &[1.0, 2.0, 3.0]).expand(&[4, 3]);
    let b = a.reduce_axis(0, sum);
    assert_eq!(*b.shape(), [3]);
    assert_eq!(*b.strides(), [1]);
    assert_eq!(b.data(), &[4.0, 8.0, 12.0]);
    // the strides of the kept axes are those of the input, divided where larger than the step
    let t = lin(0.0, 23.0, 24).reshape(&[2, 3, 4]);
    let r = t.reduce_axis(1, sum);
    assert_eq!(*r.strides(), [4, 1]);
    assert_eq!(r.data().len(), 8);
}

#[test]
fn broadcast_index_with_zero_output_dimensions() {
    // nothing read: the index is 0 whatever the output shape
    assert_eq!(get_broadcast_index(5, &[1, 1], &[0, 3]), 0);
    assert_eq!(get_broadcast_index(7, &[], &[0, 2, 0]), 0);
    // a dimension right of the zero is still read
    assert_eq!(get_broadcast_index(4, &[3], &[0, 3]), 1);
}

#[test]
fn normalize_shared_positions_keep_the_last_lane() {
    // both lanes of axis 1 read and write the same three positions; the second lane's
    // values stay
    let a = RawTensor::from_slice(&[1, 3], &[1i64, 2, 3]).expand(&[2, 3]);
    let calls = std::cell::Cell::new(0i64);
    let r = a.normalize_axis(1, |_d: &[i64], _step: usize, n: usize| {
        calls.set(calls.get() + 1);
        vec![calls.get(); n]
    });
    assert_eq!(calls.get(), 2);
    assert_eq!(r.data(), &[2, 2, 2]);
}

#[test]
fn contiguous_data_shares_only_a_logical_layout() {
    // row-major but for a unit dimension's stride: the data is shared
    let t = RawTensor::full(&[2, 3], 1.0).unsqueeze(1).transpose(&[1, 0, 2]);
    assert_eq!(*t.strides(), [3, 3, 1]);
    assert!(std::rc::Rc::ptr_eq(&t.contiguous_data(), &t.contiguous_data()));
    // transposed: a fresh copy in logical order
    let u = lin(1.0, 6.0, 6).reshape(&[2, 3]).transpose(&[1, 0]);
    assert!(!std::rc::Rc::ptr_eq(&u.contiguous_data(), &u.contiguous_data()));
    assert_eq!(*u.contiguous_data(), [1.0, 4.0, 2.0, 5.0, 3.0, 6.0]);
}
