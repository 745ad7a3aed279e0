use deet::vec_ops::{add_n, add_n_inplace, dedup};

#[test]
fn test_add_n() {
    assert_eq!(add_n(vec![1], 2), vec![3]);
}

#[test]
fn test_add_n_inplace() {
    let mut v = vec![1];
    add_n_inplace(&mut v, 2);
    assert_eq!(v, vec![3]);
}

#[test]
fn test_dedup() {
    let mut v = vec![3, 1, 0, 1, 4, 4];
    dedup(&mut v);
    assert_eq!(v, vec![3, 1, 0, 4]);
}

#[test]
fn add_n_negative_and_empty() {
    assert_eq!(add_n(vec![-5, 0, 7], -3), vec![-8, -3, 4]);
    assert_eq!(add_n(Vec::new(), 9), Vec::<i32>::new());
}

#[test]
fn dedup_empty_and_all_equal() {
    let mut v: Vec<i32> = Vec::new();
    dedup(&mut v);
    assert!(v.is_empty());
    let mut w = vec![2, 2, 2];
    dedup(&mut w);
    assert_eq!(w, vec![2]);
}
