use deet::grid::{lcs, Grid};

#[test]
fn test_lcs() {
    let mut expected = Grid::new(5, 4);
    expected.set(1, 1, 1).unwrap();
    expected.set(1, 2, 1).unwrap();
    expected.set(1, 3, 1).unwrap();
    expected.set(2, 1, 1).unwrap();
    expected.set(2, 2, 1).unwrap();
    expected.set(2, 3, 2).unwrap();
    expected.set(3, 1, 1).unwrap();
    expected.set(3, 2, 1).unwrap();
    expected.set(3, 3, 2).unwrap();
    expected.set(4, 1, 1).unwrap();
    expected.set(4, 2, 2).unwrap();
    expected.set(4, 3, 2).unwrap();

    println!("Expected:");
    let result = lcs(
        &"abcd".chars().map(|c| c.to_string()).collect(),
        &"adb".chars().map(|c| c.to_string()).collect(),
    );
    println!("Got:");
    assert_eq!(result.size(), expected.size());
    for row in 0..expected.size().0 {
        for col in 0..expected.size().1 {
            assert_eq!(result.get(row, col), expected.get(row, col));
        }
    }
}

#[test]
fn grid_rejects_cells_outside() {
    let mut g = Grid::new(2, 3);
    assert_eq!(g.size(), (2, 3));
    assert_eq!(g.get(1, 2), Some(0));
    assert_eq!(g.get(2, 0), None);
    assert_eq!(g.get(0, 3), None);
    assert!(g.set(2, 0, 7).is_err());
    assert!(g.set(1, 2, 7).is_ok());
    assert_eq!(g.get(1, 2), Some(7));
    assert_eq!(g.get(1, 1), Some(0));
}

#[test]
fn lcs_of_empty_and_identical_sequences() {
    let none: Vec<String> = Vec::new();
    let abc: Vec<String> = vec!["a".to_string(), "b".to_string(), "c".to_string()];
    let t = lcs(&none, &abc);
    assert_eq!(t.size(), (1, 4));
    assert_eq!(t.get(0, 3), Some(0));
    let t = lcs(&abc, &abc);
    assert_eq!(t.get(3, 3), Some(3));
    assert_eq!(t.get(2, 3), Some(2));
}
