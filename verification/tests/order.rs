use markstore::order::{order_by_text, order_desc};

#[test]
fn keys_are_ordered_stably() {
    assert_eq!(order_desc(&vec![3, 1, 3, 2, -5, 3]), vec![0, 2, 5, 3, 1, 4]);
    assert!(order_desc(&Vec::new()).is_empty());
    assert_eq!(order_desc(&vec![7]), vec![0]);
}

#[test]
fn texts_are_ordered_stably() {
    let words: Vec<Vec<char>> =
        ["b", "a", "", "ab", "a", "é"].iter().map(|w| w.chars().collect()).collect();
    assert_eq!(order_by_text(&words), vec![2, 1, 4, 3, 0, 5]);
}

#[test]
fn long_lists_are_ordered() {
    let keys: Vec<i128> = (0..1000).map(|i| (i * 37 % 101) as i128).collect();
    let order = order_desc(&keys);
    let mut expected: Vec<usize> = (0..1000).collect();
    expected.sort_by(|a, b| keys[*b].cmp(&keys[*a]));
    assert_eq!(order, expected);
}
