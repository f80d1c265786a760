use rml::rawtensor::RawTensor;
use rml::rawtensor::structure::expanded_strides;
use rml::shape::{are_dimensions_broadcastable, broadcast_shape, strides_contiguous};
use std::rc::Rc;

fn linspace(start: f64, end: f64, n: usize) -> Vec<f64> {
    if n == 1 {
        return vec![start];
    }
    (0..n).map(|i| start + i as f64 * (end - start) / (n - 1) as f64).collect()
}

fn lin(start: f64, end: f64, n: usize) -> RawTensor<f64> {
    RawTensor::from_vec(&[n], linspace(start, end, n))
}

fn zeros(shape: &[usize]) -> RawTensor<f64> {
    RawTensor::full(shape, 0.0)
}

#[test]
fn are_dimensions_broadcastable_test() {
    assert!(are_dimensions_broadcastable(1, 4));
    assert!(are_dimensions_broadcastable(5, 1));
    assert!(are_dimensions_broadcastable(1, 1));
    assert!(are_dimensions_broadcastable(3, 3));
    assert!(!are_dimensions_broadcastable(2, 3));
}

#[test]
fn strides_contiguous_test() {
    assert_eq!(*strides_contiguous(&[]), []);
    assert_eq!(*strides_contiguous(&[5]), [1]);
    assert_eq!(*strides_contiguous(&[3, 4]), [4, 1]);
    assert_eq!(*strides_contiguous(&[2, 3, 4]), [12, 4, 1]);
}

#[test]
fn broadcast_rules() {
    assert_eq!(*broadcast_shape(&[5, 4], &[5, 4]).unwrap(), [5, 4]);
    assert_eq!(*broadcast_shape(&[1, 2, 3], &[5, 2, 1]).unwrap(), [5, 2, 3]);
    assert_eq!(*broadcast_shape(&[2, 3], &[5, 2, 1]).unwrap(), [5, 2, 3]);
    assert_eq!(*broadcast_shape(&[5, 2, 3], &[5, 2, 1]).unwrap(), [5, 2, 3]);
    assert!(broadcast_shape(&[5, 4], &[5, 3]).is_none());
    assert!(broadcast_shape(&[2, 4], &[2, 2]).is_none());
    assert!(broadcast_shape(&[1, 2, 3], &[5, 2]).is_none());
}

#[test]
fn is_contiguous_rules() {
    assert!(zeros(&[2, 3]).is_contiguous());
    assert!(!zeros(&[2, 3]).transpose(&[1, 0]).is_contiguous());
    assert!(zeros(&[2, 3]).transpose(&[1, 0]).transpose(&[1, 0]).is_contiguous());
    assert!(!zeros(&[2, 3]).expand(&[5, 2, 3]).is_contiguous());
    assert!(zeros(&[2, 3]).unsqueeze(2).is_contiguous());
    assert!(zeros(&[2, 3]).unsqueeze(2).squeeze(2).is_contiguous());
}

#[test]
fn expanded_strides_test() {
    let t = zeros(&[3]);
    assert_eq!(*expanded_strides(&t, &[2, 3]).unwrap(), [0, 1]);
    let t = zeros(&[1, 4]);
    assert_eq!(*expanded_strides(&t, &[3, 2, 4]).unwrap(), [0, 0, 1]);
    let t = zeros(&[3]);
    assert!(expanded_strides(&t, &[3, 2]).is_none());
    let t = zeros(&[1, 2, 2]);
    assert!(expanded_strides(&t, &[3, 2, 4]).is_none());
}

#[test]
fn correct_contiguous_data() {
    let t = lin(1.0, 6.0, 6).reshape(&[2, 3]);
    assert_eq!(*t.contiguous_data(), [1.0, 2.0, 3.0, 4.0, 5.0, 6.0]);

    let t = t.transpose(&[1, 0]);
    assert_eq!(*t.contiguous_data(), [1.0, 4.0, 2.0, 5.0, 3.0, 6.0]);

    let t = t.unsqueeze(2);
    assert_eq!(*t.contiguous_data(), [1.0, 4.0, 2.0, 5.0, 3.0, 6.0]);

    let t = t.squeeze(2);
    assert_eq!(*t.contiguous_data(), [1.0, 4.0, 2.0, 5.0, 3.0, 6.0]);

    let t = t.expand(&[3, 3, 2]);
    assert_eq!(
        *t.contiguous_data(),
        [1.0, 4.0, 2.0, 5.0, 3.0, 6.0, 1.0, 4.0, 2.0, 5.0, 3.0, 6.0, 1.0, 4.0, 2.0, 5.0, 3.0, 6.0]
    );
}

#[test]
fn correct_contiguous_data_rc() {
    let t = lin(1.0, 6.0, 6).reshape(&[2, 3]);
    let s = t.transpose(&[1, 0]);
    assert_ne!(Rc::as_ptr(&t.contiguous_data()), Rc::as_ptr(&s.contiguous_data()));
    let u = s.transpose(&[1, 0]);
    assert_eq!(Rc::as_ptr(&t.contiguous_data()), Rc::as_ptr(&u.contiguous_data()));
}

#[test]
fn reshape_basic() {
    let t = lin(1.0, 6.0, 6);
    let r = t.reshape(&[2, 3]);
    assert_eq!(*r.shape(), [2, 3]);
    assert_eq!(*r.strides(), [3, 1]);
    assert_eq!(*r.contiguous_data(), [1.0, 2.0, 3.0, 4.0, 5.0, 6.0]);
}

#[test]
fn reshape_0d_to_1d() {
    let t = RawTensor::from_scalar(5.0);
    let r = t.reshape(&[1]);
    assert_eq!(*r.shape(), [1]);
    assert_eq!(*r.contiguous_data(), [5.0]);
}

#[test]
fn reshape_on_double_transposed() {
    let t = zeros(&[2, 3]).transpose(&[1, 0]).transpose(&[1, 0]);
    let s = t.reshape(&[6]);
    assert_eq!(*s.shape(), [6]);
    assert_eq!(*s.strides(), [1]);
}

#[test]
fn transpose_shape_and_strides() {
    let t = zeros(&[2, 3, 4]);
    let tt = t.transpose(&[2, 0, 1]);
    assert_eq!(*tt.shape(), [4, 2, 3]);
    assert_eq!(*tt.strides(), [1, 12, 4]);
}

#[test]
fn transpose_logical_values() {
    let t = lin(1.0, 6.0, 6).reshape(&[2, 3]);
    let tt = t.transpose(&[1, 0]);
    for i in 0..2 {
        for j in 0..3 {
            assert_eq!(t.index(&[i, j]), tt.index(&[j, i]));
        }
    }
}

#[test]
fn expand_broadcast_strides_and_shape() {
    let t = RawTensor::from_slice(&[3], &[1.0, 2.0, 3.0]);
    let e = t.expand(&[2, 3]);
    assert_eq!(*e.shape(), [2, 3]);
    assert_eq!(*e.strides(), [0, 1]);
}

#[test]
fn expand_logical_values_repeated() {
    let t = RawTensor::from_slice(&[3], &[1.0, 2.0, 3.0]);
    assert_eq!(*t.expand(&[2, 3]).contiguous_data(), [1.0, 2.0, 3.0, 1.0, 2.0, 3.0]);
}

#[test]
fn expand_0d_scalar_to_1d() {
    let t = RawTensor::from_scalar(5.0);
    assert_eq!(*t.expand(&[3]).contiguous_data(), [5.0, 5.0, 5.0]);
}

#[test]
fn squeeze_axis_removes_dim_and_strides() {
    let t = lin(1.0, 6.0, 6).reshape(&[2, 1, 3]);
    let s = t.squeeze(1);
    assert_eq!(*s.shape(), [2, 3]);
    assert_eq!(*s.strides(), [3, 1]);
}

#[test]
fn squeeze_axis_preserves_logical_values() {
    let t = lin(1.0, 6.0, 6).reshape(&[2, 1, 3]);
    let s = t.squeeze(1);
    assert_eq!(*s.shape(), [2, 3]);
    assert_eq!(*s.strides(), [3, 1]);
    assert_eq!(*s.contiguous_data(), [1.0, 2.0, 3.0, 4.0, 5.0, 6.0]);
}

#[test]
fn unsqueeze_inserts_at_front_mid_end() {
    let t = zeros(&[3, 4]);
    assert_eq!(*t.unsqueeze(0).shape(), [1, 3, 4]);
    assert_eq!(*t.unsqueeze(1).shape(), [3, 1, 4]);
    assert_eq!(*t.unsqueeze(2).shape(), [3, 4, 1]);
}

#[test]
fn unsqueeze_preserves_logical_values() {
    let t = RawTensor::from_slice(&[3], &[1.0, 2.0, 3.0]);
    let s = t.unsqueeze(1);
    assert_eq!(*s.contiguous_data(), [1.0, 2.0, 3.0]);
}

#[test]
fn index_basic() {
    let t = lin(1.0, 6.0, 6).reshape(&[2, 3]);
    for i in 0..2 {
        for j in 0..3 {
            assert_eq!(t.index(&[i, j]), (1 + i * 3 + j) as f64);
        }
    }
}

#[test]
fn index_on_transposed() {
    let t = lin(1.0, 6.0, 6).reshape(&[2, 3]);
    let tt = t.transpose(&[1, 0]);
    for i in 0..2 {
        for j in 0..3 {
            assert_eq!(tt.index(&[j, i]), (1 + i * 3 + j) as f64);
        }
    }
}

#[test]
fn index_on_expand() {
    let t = lin(1.0, 3.0, 3);
    let te = t.expand(&[2, 3]);
    for i in 0..2 {
        for j in 0..3 {
            assert_eq!(te.index(&[i, j]), (1 + j) as f64);
        }
    }
}

#[test]
fn get_valid_index() {
    let t = lin(1.0, 6.0, 6).reshape(&[2, 3]);
    assert_eq!(t.get(&[1, 2]), Some(6.0));
}

#[test]
fn get_out_of_bounds_returns_none() {
    let t = zeros(&[2, 3]);
    assert!(t.get(&[5, 0]).is_none());
}

#[test]
fn get_wrong_ndim_returns_none() {
    let t = zeros(&[2, 3]);
    assert!(t.get(&[0]).is_none());
}

#[test]
fn get_0d_tensor() {
    let t = RawTensor::from_scalar(42.0);
    assert_eq!(t.get(&[]), Some(42.0));
}

#[test]
fn structure_contiguous_on_transposed() {
    let t = lin(1.0, 6.0, 6).reshape(&[2, 3]).transpose(&[1, 0]);
    assert!(!t.is_contiguous());
    let c = t.contiguous();
    assert!(c.is_contiguous());
    assert_eq!(*c.shape(), [3, 2]);
    assert_eq!(*c.strides(), [2, 1]);
    assert_eq!(*c.contiguous_data(), [1.0, 4.0, 2.0, 5.0, 3.0, 6.0]);
}

#[test]
fn structure_contiguous_on_expanded() {
    let t = RawTensor::from_slice(&[3], &[1.0, 2.0, 3.0]).expand(&[4, 3]);
    assert!(!t.is_contiguous());
    let c = t.contiguous();
    assert!(c.is_contiguous());
    assert_eq!(*c.shape(), [4, 3]);
    assert_eq!(*c.strides(), [3, 1]);
    assert_eq!(
        *c.contiguous_data(),
        [1.0, 2.0, 3.0, 1.0, 2.0, 3.0, 1.0, 2.0, 3.0, 1.0, 2.0, 3.0]
    );
}
