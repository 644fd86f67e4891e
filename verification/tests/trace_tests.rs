use stark_from_zero::finite_field::FiniteField;
use stark_from_zero::trace::fibonacci::generate_fibonacci_trace;
use stark_from_zero::trace::Trace;

#[test]
fn test_trace_creation() {
    let trace_data = vec![vec![1, 2, 3], vec![4, 5, 6], vec![7, 8, 9]];
    let trace = Trace::new(trace_data);

    assert_eq!(trace.num_rows(), 3);
    assert_eq!(trace.num_columns(), 3);
    assert_eq!(trace.get(0, 0), Some(1));
    assert_eq!(trace.get(1, 2), Some(6));
}

#[test]
fn test_fibonacci_trace() {
    let trace = generate_fibonacci_trace(5, 1, 1);

    assert_eq!(trace.get(0, 2), Some(1));
    assert_eq!(trace.get(1, 2), Some(1));
    assert_eq!(trace.get(2, 2), Some(2));
    assert_eq!(trace.get(3, 2), Some(3));
    assert_eq!(trace.get(4, 2), Some(5));
}

#[test]
fn fibonacci_rows_hold_the_two_values_before() {
    let trace = generate_fibonacci_trace(8, 1, 1);
    assert_eq!(trace.num_rows(), 8);
    assert_eq!(trace.num_columns(), 3);
    assert_eq!(trace.get_row(0), Some(&vec![0, 1, 1]));
    assert_eq!(trace.get_row(1), Some(&vec![1, 1, 1]));
    assert_eq!(trace.get_row(2), Some(&vec![1, 1, 2]));
    assert_eq!(trace.get_row(7), Some(&vec![8, 13, 21]));
    assert_eq!(trace.get_row(8), None);
    assert_eq!(trace.get_column(2), vec![1, 1, 2, 3, 5, 8, 13, 21]);
}

#[test]
fn trace_lookups_out_of_range_find_nothing() {
    let trace = Trace::new(vec![vec![1, 2], vec![3, 4]]);
    assert_eq!(trace.get(2, 0), None);
    assert_eq!(trace.get(0, 2), None);
    assert_eq!(trace.get(1, 1), Some(4));
    assert!(trace.get_row(2).is_none());
    assert_eq!(trace.get_column(0), vec![1, 3]);
}

#[test]
fn trace_values_are_taken_into_the_field() {
    let trace = Trace::new(vec![vec![1, -2], vec![7, 12]]);
    let f = FiniteField::new(5);
    let elements = trace.to_finite_field_elements(f);
    assert_eq!(elements.len(), 2);
    assert_eq!(elements[0][0].value, 1);
    assert_eq!(elements[0][1].value, 3);
    assert_eq!(elements[1][0].value, 2);
    assert_eq!(elements[1][1].value, 2);
    assert_eq!(elements[1][1].field.prime, 5);
}

#[test]
fn trace_from_a_step_function() {
    let trace = Trace::from_computation(4, 2, |step, prev| {
        vec![prev[1], prev[0] + prev[1] + step as i128]
    });
    assert_eq!(trace.num_rows(), 4);
    assert_eq!(trace.num_columns(), 2);
    // The first row is computed from a row of zeros.
    assert_eq!(trace.get_row(0), Some(&vec![0, 0]));
    assert_eq!(trace.get_row(1), Some(&vec![0, 1]));
    assert_eq!(trace.get_row(2), Some(&vec![1, 3]));
    assert_eq!(trace.get_row(3), Some(&vec![3, 7]));
}
