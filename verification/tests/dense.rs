use tensor4all_core::dense::{extract_thin_qr, leading_columns, leading_rows, transpose};

#[test]
fn leading_columns_of_a_two_by_three_matrix() {
    let data = vec![1, 2, 3, 4, 5, 6];
    assert_eq!(leading_columns(&data, 2, 3, 2), vec![1, 2, 4, 5]);
    assert_eq!(leading_columns(&data, 2, 3, 1), vec![1, 4]);
    assert_eq!(leading_columns(&data, 2, 3, 3), data);
    assert_eq!(leading_columns(&data, 2, 3, 0), Vec::<i32>::new());
    assert_eq!(leading_columns(&data, 3, 2, 1), vec![1, 3, 5]);
}

#[test]
fn leading_rows_of_a_three_by_two_matrix() {
    let data = vec![1.0, 2.0, 3.0, 4.0, 5.0, 6.0];
    assert_eq!(leading_rows(&data, 2, 2), vec![1.0, 2.0, 3.0, 4.0]);
    assert_eq!(leading_rows(&data, 2, 3), data);
    assert_eq!(leading_rows(&data, 2, 0), Vec::<f64>::new());
    assert_eq!(leading_rows(&data, 3, 1), vec![1.0, 2.0, 3.0]);
}

#[test]
fn transpose_of_a_two_by_three_matrix() {
    let data = vec![1, 2, 3, 4, 5, 6];
    assert_eq!(transpose(&data, 2, 3), vec![1, 4, 2, 5, 3, 6]);
    assert_eq!(transpose(&data, 3, 2), vec![1, 3, 5, 2, 4, 6]);
    assert_eq!(transpose(&data, 1, 6), data);
    assert_eq!(transpose(&data, 6, 1), data);
}

#[test]
fn transpose_twice_gives_the_matrix_back() {
    let data: Vec<u32> = (0..12).collect();
    assert_eq!(transpose(&transpose(&data, 3, 4), 4, 3), data);
}

#[test]
fn matrices_without_entries() {
    let none: Vec<u8> = Vec::new();
    assert_eq!(transpose(&none, 0, 5), none);
    assert_eq!(transpose(&none, 5, 0), none);
    assert_eq!(leading_columns(&none, 0, 4, 2), none);
    assert_eq!(leading_rows(&none, 4, 0), none);
}

#[test]
fn thin_factors_of_a_tall_matrix() {
    // m = 3, n = 2, k = 2
    let q_full = vec![11, 12, 13, 21, 22, 23, 31, 32, 33];
    let r_full = vec![1, 2, 0, 3, 0, 0];
    let (q, r) = extract_thin_qr(&q_full, &r_full, 3, 2, 2);
    assert_eq!(q, vec![11, 12, 21, 22, 31, 32]);
    assert_eq!(r, vec![1, 2, 0, 3]);
}

#[test]
fn thin_factors_of_a_wide_matrix_are_the_full_ones() {
    // m = 2, n = 3, k = 2
    let q_full = vec![1.5, 2.5, 3.5, 4.5];
    let r_full = vec![1.0, 2.0, 3.0, 0.0, 4.0, 5.0];
    let (q, r) = extract_thin_qr(&q_full, &r_full, 2, 3, 2);
    assert_eq!(q, q_full);
    assert_eq!(r, r_full);
}
