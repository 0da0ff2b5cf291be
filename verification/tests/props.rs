//! Property scenarios: the elementwise and softmax compositions a host
//! layer builds from the library, and the cross-consistency of the
//! order-based operations.

use ml_functions::array::{lane_of, Arr, OpError};
use ml_functions::reduce::{argmaxf, maxf, maxf_keep_dims};
use ml_functions::sorting::{argsortf, sortf};

fn arr(shape: &[usize], vals: &[f64]) -> Arr {
    let data: Vec<u64> = vals.iter().map(|v| v.to_bits()).collect();
    Arr::from_parts(shape.to_vec(), data).unwrap()
}

fn floats(a: &Arr) -> Vec<f64> {
    a.data().iter().map(|b| f64::from_bits(*b)).collect()
}

/// Elementwise map, rebuilt through the library's constructor.
fn map_arr(a: &Arr, f: impl Fn(f64) -> f64) -> Arr {
    let data: Vec<u64> = a
        .data()
        .iter()
        .map(|b| f(f64::from_bits(*b)).to_bits())
        .collect();
    Arr::from_parts(a.shape().clone(), data).unwrap()
}

fn exp_arr(a: &Arr) -> Arr {
    map_arr(a, f64::exp)
}

fn sigmoid_arr(a: &Arr) -> Arr {
    map_arr(a, |v| 1.0 / (1.0 + (-v).exp()))
}

/// The stabilised softmax pipeline: keep-dims max and broadcast pairing
/// from the library, then shift, exponentiate, lane-sum and divide on the
/// flat data.
fn softmax_arr(a: &Arr, axis: usize) -> Result<Arr, OpError> {
    let max = maxf_keep_dims(a, axis)?;
    let vals: Vec<f64> = floats(a);
    let maxes: Vec<f64> = floats(&max);
    let shifted: Vec<f64> = vals
        .iter()
        .enumerate()
        .map(|(t, v)| (v - maxes[lane_of(a, axis, t)]).exp())
        .collect();
    let mut sums: Vec<f64> = vec![0.0; maxes.len()];
    for (t, e) in shifted.iter().enumerate() {
        sums[lane_of(a, axis, t)] += e;
    }
    let out: Vec<u64> = shifted
        .iter()
        .enumerate()
        .map(|(t, e)| (e / sums[lane_of(a, axis, t)]).to_bits())
        .collect();
    Ok(Arr::from_parts(a.shape().clone(), out).unwrap())
}

fn assert_close(got: &[f64], want: &[f64], eps: f64) {
    assert_eq!(got.len(), want.len());
    for (g, w) in got.iter().zip(want.iter()) {
        assert!((g - w).abs() < eps, "{} !~ {}", g, w);
    }
}

#[test]
fn exp_of_zeros_is_all_ones() {
    let a = arr(&[2, 3], &[0.0; 6]);
    let e = exp_arr(&a);
    assert_eq!(e.shape(), &vec![2usize, 3]);
    assert_eq!(floats(&e), vec![1.0; 6]);
}

#[test]
fn sigmoid_of_zeros_is_all_halves() {
    let a = arr(&[2, 2], &[0.0; 4]);
    let s = sigmoid_arr(&a);
    assert_eq!(s.shape(), &vec![2usize, 2]);
    assert_eq!(floats(&s), vec![0.5; 4]);
}

#[test]
fn test_sigmoid() {
    let a = arr(&[2, 2], &[1.456, 2.89105, -2.567, 4.567]);
    let s = sigmoid_arr(&a);
    assert_close(
        &floats(&s),
        &[
            0.8109201227128108,
            0.9474022289590442,
            0.07129267889980415,
            0.9897177429395645,
        ],
        1e-12,
    );
}

#[test]
fn test_softmax() {
    let a = arr(&[2, 2], &[-0.5, 0.4, 0.7, -0.056]);
    assert_close(
        &floats(&softmax_arr(&a, 1).unwrap()),
        &[
            0.289050497374996,
            0.710949502625004,
            0.680484661216602,
            0.319515338783398,
        ],
        1e-12,
    );

    assert_close(
        &floats(&softmax_arr(&a, 0).unwrap()),
        &[
            0.23147521650098232,
            0.6120648370660614,
            0.7685247834990175,
            0.38793516293393854,
        ],
        1e-12,
    );

    let a = arr(&[2, 3], &[-4.555556, 1.23, 0.5554, 3.2222, -4.5, 1.2222]);

    assert_close(
        &floats(&softmax_arr(&a, 0).unwrap()),
        &[
            4.187_758_005_322_77e-4,
            9.967_634_321_521_631e-1,
            3.392_137_442_228_439e-1,
            9.995_812_241_994_679e-1,
            3.236_567_847_836_840_8e-3,
            6.607_862_557_771_561e-1,
        ],
        1e-12,
    );

    assert_close(
        &floats(&softmax_arr(&a, 1).unwrap()),
        &[
            2.030_902_973_957_209_4e-3,
            6.611_868_706_577_003e-1,
            3.367_822_263_683_425e-1,
            8.804_536_200_855_482e-1,
            3.899_398_634_731_386e-4,
            1.191_564_400_509_786_5e-1,
        ],
        1e-12,
    );
}

#[test]
fn softmax_lanes_sum_to_one() {
    let a = arr(&[2, 3], &[25.6, 56.4, 35.6, -45.5, 35.5, 25.8]);
    for axis in 0..2 {
        let s = softmax_arr(&a, axis).unwrap();
        let vals = floats(&s);
        let shape = a.shape();
        let (rows, cols) = (shape[0], shape[1]);
        if axis == 0 {
            for c in 0..cols {
                let sum: f64 = (0..rows).map(|r| vals[r * cols + c]).sum();
                assert!((sum - 1.0).abs() < 1e-9);
            }
        } else {
            for r in 0..rows {
                let sum: f64 = (0..cols).map(|c| vals[r * cols + c]).sum();
                assert!((sum - 1.0).abs() < 1e-9);
            }
        }
    }
}

#[test]
fn softmax_is_shift_invariant() {
    let base = [0.25, -1.5, 3.75, 0.5, 2.25, -0.125];
    let a = arr(&[2, 3], &base);
    let shifted_vals: Vec<f64> = base.iter().map(|v| v + 7.5).collect();
    let b = arr(&[2, 3], &shifted_vals);
    for axis in 0..2 {
        let sa = floats(&softmax_arr(&a, axis).unwrap());
        let sb = floats(&softmax_arr(&b, axis).unwrap());
        assert_close(&sa, &sb, 1e-12);
    }
}

#[test]
fn argsort_permutation_reproduces_sort() {
    // Duplicates included, so the stable tie-break matters.
    let a = arr(&[2, 4], &[2.5, -1.0, 2.5, 0.0, 4.0, 4.0, -4.0, 4.0]);
    for axis in 0..2 {
        let sorted = sortf(&a, axis).unwrap();
        let perm = argsortf(&a, axis).unwrap();
        let shape = a.shape().clone();
        let inner: usize = shape[axis + 1..].iter().product();
        let la = shape[axis];
        let lanes: usize = a.data().len() / la;
        for lane in 0..lanes {
            let (o, i) = (lane / inner, lane % inner);
            for j in 0..la {
                let t = (o * la + j) * inner + i;
                let p = perm.data()[t] as usize;
                let src = (o * la + p) * inner + i;
                assert_eq!(sorted.data()[t], a.data()[src]);
            }
        }
    }
}

#[test]
fn argmax_indexes_the_max() {
    // Ties: the last of the equal maxima must be selected by both.
    let a = arr(&[2, 3], &[7.0, 7.0, 1.0, -2.0, -8.0, -2.0]);
    for axis in 0..2 {
        let max = maxf(&a, axis).unwrap();
        let am = argmaxf(&a, axis).unwrap();
        let shape = a.shape().clone();
        let inner: usize = shape[axis + 1..].iter().product();
        let la = shape[axis];
        let lanes = max.data().len();
        for lane in 0..lanes {
            let (o, i) = (lane / inner, lane % inner);
            let j = am.data()[lane] as usize;
            let t = (o * la + j) * inner + i;
            assert_eq!(a.data()[t], max.data()[lane]);
        }
    }
    // Last-occurrence tie-break, explicitly.
    let row = arr(&[3], &[7.0, 7.0, 1.0]);
    assert_eq!(argmaxf(&row, 0).unwrap().data()[0], 1);
}

#[test]
fn sort_keeps_exactly_the_elements() {
    let a = arr(&[1, 5], &[2.5, -1.0, 2.5, 0.0, -7.25]);
    let sorted = sortf(&a, 1).unwrap();
    let mut want = a.data().clone();
    let mut got = sorted.data().clone();
    // Compare as multisets by sorting the raw words.
    want.sort();
    got.sort();
    assert_eq!(want, got);
}

#[test]
fn sort_sends_the_argmax_position_last() {
    // The tie-break of the stable sort agrees with that of argmax: the
    // final entry of every argsorted lane is the lane's argmax.
    let a = arr(&[2, 3], &[7.0, 7.0, 5.0, -1.0, 3.0, 3.0]);
    for axis in 0..2 {
        let perm = argsortf(&a, axis).unwrap();
        let am = argmaxf(&a, axis).unwrap();
        let shape = a.shape().clone();
        let inner: usize = shape[axis + 1..].iter().product();
        let la = shape[axis];
        for lane in 0..am.data().len() {
            let (o, i) = (lane / inner, lane % inner);
            let last = perm.data()[(o * la + (la - 1)) * inner + i];
            assert_eq!(last, am.data()[lane]);
        }
    }
}

#[test]
fn empty_lane_reductions_fail() {
    let a = arr(&[2, 0], &[]);
    assert!(matches!(maxf(&a, 1), Err(OpError::EmptyLane)));
    assert!(matches!(argmaxf(&a, 1), Err(OpError::EmptyLane)));
    assert!(matches!(maxf_keep_dims(&a, 1), Err(OpError::EmptyLane)));
    assert!(matches!(softmax_arr(&a, 1), Err(OpError::EmptyLane)));
    // The same shape reduced along its inhabited axis has no lanes at all,
    // so it succeeds with an empty result.
    let m = maxf(&a, 0).unwrap();
    assert_eq!(m.shape(), &vec![0usize]);
    assert_eq!(m.data().len(), 0);
}

#[test]
fn invalid_axis_is_reported() {
    let a = arr(&[2, 2], &[1.0, 2.0, 3.0, 4.0]);
    assert!(matches!(maxf(&a, 2), Err(OpError::InvalidAxis)));
    assert!(matches!(argmaxf(&a, 5), Err(OpError::InvalidAxis)));
    assert!(matches!(sortf(&a, 2), Err(OpError::InvalidAxis)));
    assert!(matches!(argsortf(&a, 2), Err(OpError::InvalidAxis)));
}
