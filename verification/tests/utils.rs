use kodolaselmelet::errors::DecodeError;
use kodolaselmelet::mat_utils::{append_identity_matrix, extract_last_n_cols, gaussian_eliminate};
use kodolaselmelet::vec_utils::{list_possible_errors, vec_mat_mul};

#[test]
fn gaussian_eliminate_reduces_to_identity() {
    let mut mat = vec![vec![2, 1], vec![1, 1]];
    let result = gaussian_eliminate(&mut mat, 3);
    assert!(result.is_ok());
    assert_eq!(mat, vec![vec![1, 0], vec![0, 1]]);
}

#[test]
fn gaussian_eliminate_keeps_systematic_matrix() {
    let mut mat = vec![vec![1, 0, 2], vec![0, 1, 1]];
    let result = gaussian_eliminate(&mut mat, 3);
    assert!(result.is_ok());
    assert_eq!(mat, vec![vec![1, 0, 2], vec![0, 1, 1]]);
}

#[test]
fn gaussian_eliminate_normalizes_entries() {
    let mut mat = vec![vec![3, -1, 7], vec![0, 1, 1]];
    let result = gaussian_eliminate(&mut mat, 2);
    assert!(result.is_ok());
    assert_eq!(mat, vec![vec![1, 0, 0], vec![0, 1, 1]]);
}

#[test]
fn gaussian_eliminate_rejects_rank_deficiency() {
    let mut mat = vec![vec![1, 1], vec![1, 1]];
    let result = gaussian_eliminate(&mut mat, 2);
    assert!(matches!(result.unwrap_err(), DecodeError::SingularMatrix));
}

#[test]
fn gaussian_eliminate_rejects_composite_modulus_pivot() {
    let mut mat = vec![vec![2, 1]];
    let result = gaussian_eliminate(&mut mat, 4);
    assert!(matches!(result.unwrap_err(), DecodeError::NoInverseFound));
}

#[test]
fn gaussian_eliminate_rejects_wide_rank() {
    // more rows than columns can never reach full row rank
    let mut mat = vec![vec![1, 0], vec![0, 1], vec![1, 1]];
    let result = gaussian_eliminate(&mut mat, 2);
    assert!(matches!(result.unwrap_err(), DecodeError::SingularMatrix));
}

#[test]
fn extract_last_n_cols_takes_trailing_block() {
    let mat = vec![vec![1, 2, 3], vec![4, 5, 6]];
    assert_eq!(extract_last_n_cols(&mat, 1), vec![vec![2, 3], vec![5, 6]]);
    assert_eq!(extract_last_n_cols(&mat, 0), mat);
    let empty_rows: Vec<Vec<i64>> = vec![vec![], vec![]];
    assert_eq!(extract_last_n_cols(&mat, 5), empty_rows);
}

#[test]
fn append_identity_matrix_adds_square_block() {
    let mut mat = vec![vec![1, 2]];
    append_identity_matrix(&mut mat);
    assert_eq!(mat, vec![vec![1, 2], vec![1, 0], vec![0, 1]]);
}

#[test]
fn vec_mat_mul_reduces_into_field_range() {
    let mat = vec![vec![1, 0], vec![0, 1]];
    assert_eq!(vec_mat_mul(&vec![1, 2], &mat, 3), vec![1, 2]);
    let mixed = vec![vec![1, 1], vec![1, 0]];
    assert_eq!(vec_mat_mul(&vec![-1, 4], &mixed, 3), vec![0, 2]);
}

#[test]
fn list_possible_errors_enumerates_weight_class() {
    let mut found = list_possible_errors(2, 1, 3);
    found.sort();
    let mut expected = vec![vec![0, 1], vec![0, 2], vec![1, 0], vec![2, 0]];
    expected.sort();
    assert_eq!(found, expected);
}

#[test]
fn list_possible_errors_binary_pairs() {
    let mut found = list_possible_errors(3, 2, 2);
    found.sort();
    let mut expected = vec![vec![0, 1, 1], vec![1, 0, 1], vec![1, 1, 0]];
    expected.sort();
    assert_eq!(found, expected);
}

#[test]
fn list_possible_errors_edge_classes() {
    assert_eq!(list_possible_errors(2, 3, 2), Vec::<Vec<i64>>::new());
    let empty_vector: Vec<Vec<i64>> = vec![vec![]];
    assert_eq!(list_possible_errors(0, 0, 5), empty_vector);
    let zero_weight = list_possible_errors(3, 0, 7);
    assert_eq!(zero_weight, vec![vec![0, 0, 0]]);
}

#[test]
fn list_possible_errors_has_no_duplicates() {
    let found = list_possible_errors(4, 2, 3);
    // C(4,2) position choices with 2*2 nonzero value choices each
    assert_eq!(found.len(), 24);
    for i in 0..found.len() {
        for j in (i + 1)..found.len() {
            assert_ne!(found[i], found[j]);
        }
    }
}
