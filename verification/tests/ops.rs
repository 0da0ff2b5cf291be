use ml_functions::array::Arr;
use ml_functions::reduce::{argmaxf, argmaxf_keep_dims, maxf, maxf_keep_dims};
use ml_functions::sorting::{argsortf, sortf};

fn arr(shape: &[usize], vals: &[f64]) -> Arr {
    let data: Vec<u64> = vals.iter().map(|v| v.to_bits()).collect();
    Arr::from_parts(shape.to_vec(), data).unwrap()
}

fn floats(a: &Arr) -> Vec<f64> {
    a.data().iter().map(|b| f64::from_bits(*b)).collect()
}

fn indices(a: &Arr) -> Vec<u64> {
    a.data().clone()
}

#[test]
fn test_maxf() {
    let a = arr(&[2, 3], &[2.2, 4.4, 1.5, 2.4, 0.0, 0.0]);

    let max = maxf(&a, 1).unwrap();

    assert_eq!(max.shape(), &vec![2usize]);

    assert_eq!(floats(&max)[0], 4.4);
    assert_eq!(floats(&max)[1], 2.4);
}

#[test]
fn test_maxf_keep_dims() {
    let a = arr(&[2, 3], &[2.2, 4.4, 1.5, 2.4, 0.0, 0.0]);

    let max = maxf_keep_dims(&a, 1).unwrap();

    assert_eq!(max.shape(), &vec![2usize, 1]);

    assert_eq!(floats(&max), vec![4.4, 2.4]);
}

#[test]
fn test_argmaxf() {
    let a = arr(&[3, 3], &[3.4, 2.4, 10.4, 4.5, -1.5, 2.6, 2.4, 1.8, 8.9]);

    assert_eq!(indices(&argmaxf(&a, 0).unwrap()), vec![1, 0, 0]);
    assert_eq!(indices(&argmaxf(&a, 1).unwrap()), vec![2, 0, 2]);
}

#[test]
fn test_argmaxf_keep_dims() {
    let a = arr(&[3, 3], &[3.4, 2.4, 10.4, 4.5, -1.5, 2.6, 2.4, 1.8, 8.9]);

    let by_rows = argmaxf_keep_dims(&a, 0).unwrap();
    assert_eq!(by_rows.shape(), &vec![1usize, 3]);
    assert_eq!(indices(&by_rows), vec![1, 0, 0]);

    let by_cols = argmaxf_keep_dims(&a, 1).unwrap();
    assert_eq!(by_cols.shape(), &vec![3usize, 1]);
    assert_eq!(indices(&by_cols), vec![2, 0, 2]);
}

#[test]
fn test_sortf() {
    let a = arr(&[2, 3], &[25.6, 56.4, 35.6, -45.5, 35.5, 25.8]);

    let by_cols = sortf(&a, 0).unwrap();
    assert_eq!(by_cols.shape(), &vec![2usize, 3]);
    assert_eq!(floats(&by_cols), vec![-45.5, 35.5, 25.8, 25.6, 56.4, 35.6]);

    let by_rows = sortf(&a, 1).unwrap();
    assert_eq!(by_rows.shape(), &vec![2usize, 3]);
    assert_eq!(floats(&by_rows), vec![25.6, 35.6, 56.4, -45.5, 25.8, 35.5]);
}

#[test]
fn test_argsortf() {
    let a = arr(&[2, 3], &[25.6, 56.4, 35.6, -45.5, 35.5, 25.8]);

    assert_eq!(indices(&argsortf(&a, 0).unwrap()), vec![1, 1, 1, 0, 0, 0]);

    assert_eq!(indices(&argsortf(&a, 1).unwrap()), vec![0, 2, 1, 0, 2, 1]);
}
