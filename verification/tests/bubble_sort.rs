use dsalgo::algoritms::sorting::bubble_sort::bubble_sort;

#[test]
fn test_bubble_sort() {
    let list = vec![3, 1, 4, 1, 5];
    let result = bubble_sort(&list);
    assert_eq!(result, [1, 1, 3, 4, 5]);
}
