//! The total order over double bit patterns, and the operations' behaviour
//! on the values floats cannot order by themselves.

use ml_functions::array::Arr;
use ml_functions::order::{code_le, nan_code, sort_key};
use ml_functions::reduce::{lane_last_argmax, maxf};
use ml_functions::sorting::{lane_stable_argsort, sortf};

fn arr(shape: &[usize], vals: &[f64]) -> Arr {
    let data: Vec<u64> = vals.iter().map(|v| v.to_bits()).collect();
    Arr::from_parts(shape.to_vec(), data).unwrap()
}

#[test]
fn keys_order_numeric_values() {
    let seq = [
        f64::NEG_INFINITY,
        -1.0e300,
        -2.5,
        -0.0,
        0.0,
        1.0e-300,
        2.5,
        1.0e300,
        f64::INFINITY,
    ];
    for w in seq.windows(2) {
        assert!(sort_key(w[0].to_bits()) <= sort_key(w[1].to_bits()));
        assert!(code_le(w[0].to_bits(), w[1].to_bits()));
    }
    assert!(sort_key((-2.5f64).to_bits()) < sort_key(2.5f64.to_bits()));
}

#[test]
fn nan_is_greatest_and_all_nans_tie() {
    let nan = f64::NAN.to_bits();
    let neg_nan = (-f64::NAN).to_bits();
    assert!(nan_code(nan));
    assert!(nan_code(neg_nan));
    assert!(!nan_code(f64::INFINITY.to_bits()));
    assert_eq!(sort_key(nan), u64::MAX);
    assert_eq!(sort_key(nan), sort_key(neg_nan));
    assert!(sort_key(f64::INFINITY.to_bits()) < sort_key(nan));
}

#[test]
fn zeroes_tie_and_stability_keeps_their_order() {
    assert_eq!(sort_key(0.0f64.to_bits()), sort_key((-0.0f64).to_bits()));
    // A stable sort must keep the original order of the tied zeroes.
    let lane: Vec<u64> = vec![0.0f64.to_bits(), (-0.0f64).to_bits()];
    assert_eq!(lane_stable_argsort(&lane), vec![0, 1]);
    let a = arr(&[2], &[-0.0, 0.0]);
    let sorted = sortf(&a, 0).unwrap();
    assert_eq!(sorted.data()[0], (-0.0f64).to_bits());
    assert_eq!(sorted.data()[1], 0.0f64.to_bits());
}

#[test]
fn max_of_tied_keys_takes_the_last_occurrence() {
    let lane: Vec<u64> = vec![(-0.0f64).to_bits(), 0.0f64.to_bits()];
    assert_eq!(lane_last_argmax(&lane), 1);
    let a = arr(&[2], &[0.0, -0.0]);
    let m = maxf(&a, 0).unwrap();
    assert_eq!(m.data()[0], (-0.0f64).to_bits());
}

#[test]
fn sorting_places_nan_last() {
    let a = arr(&[4], &[f64::NAN, 1.0, f64::NEG_INFINITY, -3.5]);
    let sorted = sortf(&a, 0).unwrap();
    let vals: Vec<f64> = sorted.data().iter().map(|b| f64::from_bits(*b)).collect();
    assert_eq!(vals[0], f64::NEG_INFINITY);
    assert_eq!(vals[1], -3.5);
    assert_eq!(vals[2], 1.0);
    assert!(vals[3].is_nan());
}

#[test]
fn from_parts_checks_the_element_count() {
    assert!(Arr::from_parts(vec![2, 3], vec![0u64; 5]).is_none());
    assert!(Arr::from_parts(vec![2, 3], vec![0u64; 6]).is_some());
    assert!(Arr::from_parts(vec![2, 0, 3], Vec::new()).is_some());
    assert!(Arr::from_parts(vec![2, 0, 3], vec![0u64; 1]).is_none());
    // The empty shape holds exactly one element.
    assert!(Arr::from_parts(Vec::new(), vec![0u64; 1]).is_some());
    assert!(Arr::from_parts(Vec::new(), Vec::new()).is_none());
}
