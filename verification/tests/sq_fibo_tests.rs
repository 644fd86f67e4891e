use stark_from_zero::sq_fibo::{evaluate_sq_fibo, reverse_in_place};

#[test]
fn sq_fibo_no_modulo() {
    let mut results = vec![];
    evaluate_sq_fibo(1, 3, i128::MAX, &mut results, 0, 6);
    assert_eq!(results, vec![1, 3, 10, 109, 11981, 143556242]);
}

#[test]
fn sq_fibo_mini() {
    let mut results = vec![];
    evaluate_sq_fibo(1, 3, 7, &mut results, 0, 6);
    assert_eq!(results, vec![1, 3, 3, 4, 4, 4]);
}

#[test]
fn sq_fibo_full() {
    let mut results = vec![];
    evaluate_sq_fibo(1, 3141592, 3221225473, &mut results, 0, 1023);
    assert_eq!(results.len(), 1023);
    assert_eq!(results[1022], 2338775057);
}

#[test]
fn sq_fibo_of_few_elements() {
    let mut results = vec![];
    evaluate_sq_fibo(1, 3, 7, &mut results, 0, 2);
    assert_eq!(results, vec![1, 3]);
    let mut short = vec![];
    evaluate_sq_fibo(1, 3, 7, &mut short, 0, 0);
    assert_eq!(short, vec![1, 3]);
}

#[test]
fn reverse_in_place_turns_the_order() {
    let mut v = vec![1, 2, 3, 4, 5];
    reverse_in_place(&mut v);
    assert_eq!(v, vec![5, 4, 3, 2, 1]);
    let mut even = vec![1, 2];
    reverse_in_place(&mut even);
    assert_eq!(even, vec![2, 1]);
    let mut empty: Vec<i128> = vec![];
    reverse_in_place(&mut empty);
    assert!(empty.is_empty());
}
