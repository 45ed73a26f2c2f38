use hiking_routes::vector_operations::{
    binary_search, bubble_sort, linear_search, merge_sort, reverse_copy, reverse_in_place,
};

#[test]
fn bubble_sort_sorts_in_place() {
    let mut v = vec![5, 1, 4, 2, 8, 1];
    bubble_sort(&mut v);
    assert_eq!(v, vec![1, 1, 2, 4, 5, 8]);
    let mut e: Vec<u32> = vec![];
    bubble_sort(&mut e);
    assert!(e.is_empty());
}

#[test]
fn merge_sort_returns_sorted_copy() {
    let v = vec![9, 3, 7, 3, 0, 12, 1];
    assert_eq!(merge_sort(&v), vec![0, 1, 3, 3, 7, 9, 12]);
    assert_eq!(v, vec![9, 3, 7, 3, 0, 12, 1]);
    assert_eq!(merge_sort(&[]), Vec::<u32>::new());
}

#[test]
fn reversals() {
    let mut v = vec![1, 2, 3, 4];
    reverse_in_place(&mut v);
    assert_eq!(v, vec![4, 3, 2, 1]);
    let mut odd = vec![1, 2, 3];
    reverse_in_place(&mut odd);
    assert_eq!(odd, vec![3, 2, 1]);
    let mut empty: Vec<u32> = vec![];
    reverse_in_place(&mut empty);
    assert!(empty.is_empty());
    assert_eq!(reverse_copy(&[7, 8, 9]), vec![9, 8, 7]);
}

#[test]
fn searches() {
    let v = vec![4, 2, 7, 2];
    assert_eq!(linear_search(&v, &2), Some(1));
    assert_eq!(linear_search(&v, &5), None);
    let s = vec![1, 3, 5, 7, 9, 11];
    assert_eq!(binary_search(&s, &7), Some(3));
    assert_eq!(binary_search(&s, &1), Some(0));
    assert_eq!(binary_search(&s, &4), None);
    assert_eq!(binary_search(&[], &4), None);
}
