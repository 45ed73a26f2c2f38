use hiking_routes::iterators::{
    bounded_absolute_values, first_n_even, square_whole_numbers, sum_of_squares, Fibonacci,
};

#[test]
fn sum_of_squares_adds_squares() {
    assert_eq!(sum_of_squares(&[1, 2, 3]), 14);
    assert_eq!(sum_of_squares(&[]), 0);
}

#[test]
fn bounded_absolute_values_drops_large() {
    assert_eq!(bounded_absolute_values(&[-5, 100, -101, 7, i32::MIN]), vec![5, 100, 7]);
}

#[test]
fn first_n_even_takes_leading_count() {
    assert_eq!(first_n_even(&[2, 1, 4, 3, 6, 8]), Some(vec![4, 6]));
    assert_eq!(first_n_even(&[5, 2, 3]), Some(vec![2]));
    assert_eq!(first_n_even(&[]), None);
}

#[test]
fn squares_of_whole_numbers() {
    assert_eq!(square_whole_numbers(6), vec![0, 1, 4, 9, 16, 25]);
    assert_eq!(*square_whole_numbers(65536).last().unwrap(), 65535 * 65535);
}

#[test]
fn fibonacci_sequence() {
    let mut f = Fibonacci::default();
    let first: Vec<Option<u32>> = (0..8).map(|_| f.next()).collect();
    assert_eq!(first, vec![Some(0), Some(1), Some(1), Some(2), Some(3), Some(5), Some(8), Some(13)]);
    let mut g = Fibonacci::new();
    let mut last = None;
    for _ in 0..48 {
        last = g.next();
    }
    assert_eq!(last, Some(2971215073));
    assert_eq!(g.next(), None);
}
