use rml::rawtensor::RawTensor;
use rml::rawtensor::accumulate::{apply_inplace_updates, update_lanes};

fn lin(start: f64, end: f64, n: usize) -> RawTensor<f64> {
    let data: Vec<f64> = if n == 1 {
        vec![start]
    } else {
        (0..n).map(|i| start + i as f64 * (end - start) / (n - 1) as f64).collect()
    };
    RawTensor::from_vec(&[n], data)
}

fn zeros(shape: &[usize]) -> RawTensor<f64> {
    RawTensor::full(shape, 0.0)
}

fn ones(shape: &[usize]) -> RawTensor<f64> {
    RawTensor::full(shape, 1.0)
}

fn softmax(data: &[f64], step: usize, n: usize) -> Vec<f64> {
    if step == 0 {
        return vec![1.0 / n as f64; n];
    }
    let max: f64 = data.iter().step_by(step).take(n).copied().fold(f64::NEG_INFINITY, f64::max);
    let exps: Vec<f64> = data.iter().step_by(step).take(n).map(|&x| f64::exp(x - max)).collect();
    let s: f64 = exps.iter().sum();
    exps.iter().map(|e| e / s).collect()
}

fn softmax_axis(t: &RawTensor<f64>, axis: usize) -> RawTensor<f64> {
    t.normalize_axis(axis, softmax)
}

// the lane update of the softmax gradient: cur[i] + y_i * (g_i - sum_j g_j * y_j)
fn softmax_backprop(out_grad: &[f64], out_raw: &[f64], cur: &[f64], gs: usize, os: usize, n: usize) -> Vec<f64> {
    if os == 0 {
        let mut sum: f64 = 0.0;
        for j in 0..n {
            sum += out_grad[j * gs];
        }
        return (0..n).map(|i| cur[i] + (-sum * out_raw[0] * out_raw[0] + out_grad[i * gs] * out_raw[0])).collect();
    }
    let mut sum: f64 = 0.0;
    for (j, y) in out_raw.iter().step_by(os).take(n).enumerate() {
        sum += out_grad[j * gs] * y;
    }
    out_raw
        .iter()
        .step_by(os)
        .take(n)
        .enumerate()
        .map(|(i, x)| cur[i] + (-sum * x + out_grad[i * gs] * x))
        .collect()
}

fn accumulate_softmax_grad(grad: &mut RawTensor<f64>, g: &RawTensor<f64>, b: &RawTensor<f64>, axis: usize) {
    assert!(grad.accumulate_lanes(g, b, axis, softmax_backprop));
}

fn approx_eq_all(a: &[f64], b: &[f64]) -> bool {
    a.len() == b.len() && a.iter().zip(b).all(|(x, y)| (x - y).abs() < 1e-4)
}

#[test]
fn accumulate_softmax_zero_grad() {
    let a = lin(1.0, 6.0, 6).map(f64::ln);
    let b = softmax_axis(&a, 0);
    let g = ones(&[6]);
    let mut grad = ones(&[6]);
    accumulate_softmax_grad(&mut grad, &g, &b, 0);
    assert!(approx_eq_all(&grad.contiguous_data(), &[1.0; 6]));
}

#[test]
fn accumulate_softmax_transposed_zero_grad() {
    let a = lin(1.0, 9.0, 9).map(f64::ln).reshape(&[3, 3]).transpose(&[1, 0]);
    let b = softmax_axis(&a, 0);
    let g = ones(&[3, 3]);
    let mut grad = ones(&[3, 3]);
    accumulate_softmax_grad(&mut grad, &g, &b, 0);
    assert!(approx_eq_all(&grad.contiguous_data(), &[1.0; 9]));
}

#[test]
fn accumulate_softmax_transposed_expanded_zero_grad() {
    let a = lin(1.0, 9.0, 12).map(f64::ln).reshape(&[3, 4]).transpose(&[1, 0]).expand(&[2, 4, 3]);
    let b = softmax_axis(&a, 1);
    let g = ones(&[24]).reshape(&[2, 4, 3]);
    let mut grad = ones(&[24]).reshape(&[2, 4, 3]);
    accumulate_softmax_grad(&mut grad, &g, &b, 1);
    assert!(approx_eq_all(&grad.contiguous_data(), &[1.0; 24]));
}

#[test]
fn accumulate_softmax_dense_grad() {
    let a = RawTensor::from_slice(&[3], &[0.0, 2.0f64.ln(), 3.0f64.ln()]);
    let b = softmax_axis(&a, 0);
    let g = RawTensor::from_slice(&[3], &[1.0, 2.0, 3.0]);
    let mut grad = zeros(&[3]);
    accumulate_softmax_grad(&mut grad, &g, &b, 0);
    assert!(approx_eq_all(&grad.contiguous_data(), &[-2.0 / 9.0, -1.0 / 9.0, 1.0 / 3.0]));
}

#[test]
fn accumulate_softmax_singleton_axis() {
    let a = RawTensor::from_slice(&[3, 1], &[2.0, -5.0, 100.0]);
    let b = softmax_axis(&a, 1);
    let g = RawTensor::from_slice(&[3, 1], &[7.0, -2.0, 42.0]);
    let mut grad = RawTensor::from_slice(&[3, 1], &[1.0, 2.0, 3.0]);
    accumulate_softmax_grad(&mut grad, &g, &b, 1);
    assert!(approx_eq_all(&grad.contiguous_data(), &[1.0, 2.0, 3.0]));
}

#[test]
fn accumulate_softmax_ties() {
    let a = RawTensor::from_slice(&[3], &[5.0, 5.0, 5.0]);
    let b = softmax_axis(&a, 0);
    let g = RawTensor::from_slice(&[3], &[1.0, 2.0, 3.0]);
    let mut grad = zeros(&[3]);
    accumulate_softmax_grad(&mut grad, &g, &b, 0);
    assert!(approx_eq_all(&grad.contiguous_data(), &[-1.0 / 3.0, 0.0, 1.0 / 3.0]));
}

#[test]
fn accumulate_softmax_numerically_extreme() {
    let shift_up = RawTensor::from_slice(&[3], &[1e6, 1e6 + 2.0f64.ln(), 1e6 + 3.0f64.ln()]);
    let b_up = softmax_axis(&shift_up, 0);
    let g = RawTensor::from_slice(&[3], &[1.0, 2.0, 3.0]);
    let mut grad_up = zeros(&[3]);
    accumulate_softmax_grad(&mut grad_up, &g, &b_up, 0);
    assert!(approx_eq_all(&grad_up.contiguous_data(), &[-2.0 / 9.0, -1.0 / 9.0, 1.0 / 3.0]));

    let shift_down = RawTensor::from_slice(&[3], &[-1e6, -1e6 + 2.0f64.ln(), -1e6 + 3.0f64.ln()]);
    let b_down = softmax_axis(&shift_down, 0);
    let mut grad_down = zeros(&[3]);
    accumulate_softmax_grad(&mut grad_down, &g, &b_down, 0);
    assert!(approx_eq_all(&grad_down.contiguous_data(), &[-2.0 / 9.0, -1.0 / 9.0, 1.0 / 3.0]));
}

#[test]
fn accumulate_softmax_unsqueeze_expand_transpose_batched() {
    let a = RawTensor::from_slice(&[3], &[0.0, 2.0f64.ln(), 3.0f64.ln()])
        .unsqueeze(0)
        .expand(&[2, 3])
        .transpose(&[1, 0]);
    let b = softmax_axis(&a, 0);
    let g = RawTensor::from_slice(&[3, 2], &[1.0, 0.0, 2.0, 0.0, 3.0, 6.0]);
    let mut grad = zeros(&[3, 2]);
    accumulate_softmax_grad(&mut grad, &g, &b, 0);
    assert!(approx_eq_all(&grad.contiguous_data(), &[-2.0 / 9.0, -0.5, -1.0 / 9.0, -1.0, 1.0 / 3.0, 1.5]));
}

#[test]
fn accumulate_softmax_expanded_axis() {
    let a = RawTensor::from_slice(&[1], &[5.0]).expand(&[4]);
    let b = softmax_axis(&a, 0);
    let g = RawTensor::from_slice(&[4], &[1.0, 2.0, 3.0, 4.0]);
    let mut grad = zeros(&[4]);
    accumulate_softmax_grad(&mut grad, &g, &b, 0);
    assert!(approx_eq_all(&grad.contiguous_data(), &[-0.375, -0.125, 0.125, 0.375]));
}

#[test]
fn accumulate_softmax_expanded_axis_batched() {
    let a = RawTensor::from_slice(&[2, 1], &[5.0, 9.0]).expand(&[2, 4]);
    let b = softmax_axis(&a, 1);
    let g = RawTensor::from_slice(&[2, 4], &[1.0, 2.0, 3.0, 4.0, 10.0, 20.0, 30.0, 40.0]);
    let mut grad = zeros(&[2, 4]);
    accumulate_softmax_grad(&mut grad, &g, &b, 1);
    assert!(approx_eq_all(&grad.contiguous_data(), &[-0.375, -0.125, 0.125, 0.375, -3.75, -1.25, 1.25, 3.75]));
}

#[test]
fn accumulate_softmax_transposed_expanded() {
    let a = RawTensor::from_slice(&[3, 2], &[0.0, 0.0, 2.0f64.ln(), 0.0, 3.0f64.ln(), 0.0])
        .transpose(&[1, 0])
        .expand(&[2, 2, 3]);
    let b = softmax_axis(&a, 2);
    let g = RawTensor::from_slice(&[2, 2, 3], &[1.0, 0.0, 0.0, 0.0, 1.0, 0.0, 1.0, 0.0, 0.0, 0.0, 1.0, 0.0]);
    let mut grad = zeros(&[2, 2, 3]);
    accumulate_softmax_grad(&mut grad, &g, &b, 2);
    assert!(approx_eq_all(
        &grad.contiguous_data(),
        &[
            5.0 / 36.0, -1.0 / 18.0, -1.0 / 12.0, -1.0 / 9.0, 2.0 / 9.0, -1.0 / 9.0,
            5.0 / 36.0, -1.0 / 18.0, -1.0 / 12.0, -1.0 / 9.0, 2.0 / 9.0, -1.0 / 9.0
        ]
    ));
}

#[test]
fn accumulate_softmax_transposed_squeeze() {
    let a = RawTensor::from_slice(&[3, 1, 2], &[0.0, 0.0, 2.0f64.ln(), 0.0, 3.0f64.ln(), 0.0])
        .transpose(&[2, 1, 0])
        .squeeze(1);
    let b = softmax_axis(&a, 1);
    let g = RawTensor::from_slice(&[2, 3], &[1.0, 0.0, 0.0, 0.0, 1.0, 0.0]);
    let mut grad = zeros(&[2, 3]);
    accumulate_softmax_grad(&mut grad, &g, &b, 1);
    assert!(approx_eq_all(
        &grad.contiguous_data(),
        &[5.0 / 36.0, -1.0 / 18.0, -1.0 / 12.0, -1.0 / 9.0, 2.0 / 9.0, -1.0 / 9.0]
    ));
}

#[test]
fn accumulate_softmax_transposed_squeeze_expanded_accumulates() {
    let a = RawTensor::from_slice(&[3, 1, 2], &[0.0, 0.0, 2.0f64.ln(), 0.0, 3.0f64.ln(), 0.0])
        .transpose(&[2, 1, 0])
        .squeeze(1)
        .expand(&[2, 2, 3]);
    let b = softmax_axis(&a, 2);
    let g = RawTensor::from_slice(&[2, 2, 3], &[1.0, 0.0, 0.0, 0.0, 1.0, 0.0, 1.0, 0.0, 0.0, 0.0, 1.0, 0.0]);
    let mut grad = zeros(&[2, 2, 3]);
    accumulate_softmax_grad(&mut grad, &g, &b, 2);
    accumulate_softmax_grad(&mut grad, &g, &b, 2);
    assert!(approx_eq_all(
        &grad.contiguous_data(),
        &[
            5.0 / 18.0, -1.0 / 9.0, -1.0 / 6.0, -2.0 / 9.0, 4.0 / 9.0, -2.0 / 9.0,
            5.0 / 18.0, -1.0 / 9.0, -1.0 / 6.0, -2.0 / 9.0, 4.0 / 9.0, -2.0 / 9.0
        ]
    ));
}

#[test]
fn accumulate_lanes_each_lane_once() {
    // integer lanes along axis 0 of a [2, 3] tensor: each lane gets its own sum added once
    let out = RawTensor::from_slice(&[2, 3], &[1i64, 2, 3, 4, 5, 6]);
    let g = RawTensor::from_slice(&[2, 3], &[10i64, 20, 30, 40, 50, 60]);
    let mut acc = RawTensor::full(&[2, 3], 0i64);
    let done = acc.accumulate_lanes(&g, &out, 0, |gl: &[i64], ol: &[i64], cur: &[i64], gs: usize, os: usize, n: usize| {
        (0..n).map(|i| cur[i] + gl[i * gs] * ol[i * os]).collect::<Vec<i64>>()
    });
    assert!(done);
    assert_eq!(*acc.contiguous_data(), [10, 40, 90, 160, 250, 360]);
}

#[test]
fn accumulate_lanes_on_unit_dimension_strides() {
    // [1, 2, 3] laid out with strides [3, 3, 1]: row-major but for the unit dimension
    let mut acc = RawTensor::full(&[2, 3], 0i64).unsqueeze(1).transpose(&[1, 0, 2]);
    assert_eq!(*acc.strides(), [3, 3, 1]);
    let out = RawTensor::from_slice(&[1, 2, 3], &[1i64, 2, 3, 4, 5, 6]);
    let g = RawTensor::from_slice(&[1, 2, 3], &[10i64, 20, 30, 40, 50, 60]);
    let done = acc.accumulate_lanes(&g, &out, 2, |gl: &[i64], ol: &[i64], cur: &[i64], gs: usize, os: usize, n: usize| {
        (0..n).map(|i| cur[i] + gl[i * gs] * ol[i * os]).collect::<Vec<i64>>()
    });
    assert!(done);
    assert_eq!(*acc.strides(), [3, 3, 1]);
    assert_eq!(*acc.contiguous_data(), [10, 40, 90, 160, 250, 360]);
}

#[test]
fn accumulate_lanes_on_shared_data_changes_nothing() {
    let out = RawTensor::from_slice(&[2, 3], &[1i64, 2, 3, 4, 5, 6]);
    let g = RawTensor::from_slice(&[2, 3], &[10i64, 20, 30, 40, 50, 60]);
    let mut acc = RawTensor::full(&[2, 3], 7i64);
    let other_holder = acc.clone();
    let done = acc.accumulate_lanes(&g, &out, 0, |gl: &[i64], ol: &[i64], cur: &[i64], gs: usize, os: usize, n: usize| {
        (0..n).map(|i| cur[i] + gl[i * gs] * ol[i * os]).collect::<Vec<i64>>()
    });
    assert!(!done);
    assert_eq!(*acc.shape(), [2, 3]);
    assert_eq!(*acc.contiguous_data(), [7, 7, 7, 7, 7, 7]);
    assert_eq!(*other_holder.contiguous_data(), [7, 7, 7, 7, 7, 7]);
    // once the other holder is gone, the update goes through
    drop(other_holder);
    let done = acc.accumulate_lanes(&g, &out, 0, |gl: &[i64], ol: &[i64], cur: &[i64], gs: usize, os: usize, n: usize| {
        (0..n).map(|i| cur[i] + gl[i * gs] * ol[i * os]).collect::<Vec<i64>>()
    });
    assert!(done);
    assert_eq!(*acc.contiguous_data(), [17, 47, 97, 167, 257, 367]);
}

#[test]
fn elementwise_op_inplace_on_shared_data_changes_nothing() {
    let mut grad = RawTensor::from_slice(&[3], &[1i64, 2, 3]);
    let view = grad.expand(&[2, 3]);
    let contrib = RawTensor::from_slice(&[3], &[10i64, 20, 30]);
    assert!(!grad.elementwise_op_inplace(&contrib, |acc, v| acc + v));
    assert_eq!(*grad.contiguous_data(), [1, 2, 3]);
    assert_eq!(*view.contiguous_data(), [1, 2, 3, 1, 2, 3]);
    drop(view);
    assert!(grad.elementwise_op_inplace(&contrib, |acc, v| acc + v));
    assert_eq!(*grad.contiguous_data(), [11, 22, 33]);
}

#[test]
fn apply_inplace_updates_sums_over_broadcast_positions() {
    // data laid out as a [3] tensor, broadcast against a [2, 3] contribution
    let contrib = RawTensor::from_slice(&[2, 3], &[1i64, 2, 3, 4, 5, 6]);
    let r = apply_inplace_updates(vec![100i64, 200, 300], &[3], &[1], &contrib, |acc: i64, v: i64| acc + v);
    assert_eq!(r, vec![105, 207, 309]);
    // a transposed layout: the data [a, b, c, d] read with strides [1, 2]
    let contrib = RawTensor::from_slice(&[2, 2], &[1i64, 2, 3, 4]);
    let r = apply_inplace_updates(vec![0i64, 0, 0, 0], &[2, 2], &[1, 2], &contrib, |acc: i64, v: i64| acc + 10 * v);
    assert_eq!(r, vec![10, 30, 20, 40]);
}

#[test]
fn update_lanes_writes_each_lane() {
    let out = RawTensor::from_slice(&[2, 3], &[1i64, 2, 3, 4, 5, 6]);
    let g = RawTensor::from_slice(&[2, 3], &[10i64, 20, 30, 40, 50, 60]);
    let r = update_lanes(vec![1i64; 6], &g, &out, 1, |gl: &[i64], ol: &[i64], cur: &[i64], gs: usize, os: usize, n: usize| {
        let s: i64 = (0..n).map(|i| gl[i * gs] * ol[i * os]).sum();
        (0..n).map(|i| cur[i] + s).collect::<Vec<i64>>()
    });
    // lane sums: 10 + 40 + 90 = 140 and 160 + 250 + 360 = 770
    assert_eq!(r, vec![141, 141, 141, 771, 771, 771]);
}
