use resin::utility::power_set;

#[test]
fn power_set_lists_subsets_by_size() {
    let items = ['a', 'b', 'c'];
    let ps = power_set(&items);
    let got: Vec<String> = ps.iter().map(|s| s.iter().copied().collect()).collect();
    assert_eq!(got, vec!["", "a", "b", "c", "ab", "ac", "bc", "abc"]);
    assert_eq!(power_set::<u8>(&[]).len(), 1);
}

#[test]
fn power_set_has_two_to_the_n_subsets() {
    for n in 0..7usize {
        let items: Vec<usize> = (0..n).collect();
        assert_eq!(power_set(&items).len(), 1 << n);
    }
}
