use resin::channels::clustering::{flip, pack};

#[test]
fn test_packing() {
    let bins = vec![0, 1, 20, 3, 4, 4, 4, 8, 10];
    let packed = pack(&bins);
    assert_eq!(packed, vec![0, 1, 6, 2, 3, 3, 3, 4, 5]);
}

#[test]
fn pack_of_example_and_empty() {
    assert_eq!(pack(&[0, 2, 2, 3, 5]), vec![0, 1, 1, 2, 3]);
    assert_eq!(pack(&[]), Vec::<usize>::new());
    assert_eq!(pack(&[9, 9, 9]), vec![0, 0, 0]);
}

#[test]
fn flip_of_example() {
    assert_eq!(flip(&[0, 2, 2, 3, 5]), vec![5, 3, 3, 2, 0]);
    assert_eq!(flip(&[4]), vec![0]);
}

#[test]
fn pack_then_flip() {
    assert_eq!(flip(&pack(&[10, 30, 20, 10])), vec![2, 0, 1, 2]);
}
