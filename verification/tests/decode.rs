use kodolaselmelet::decode::{golay_generator_matrix, syndrome_decoder};
use kodolaselmelet::errors::DecodeError;

fn generator_matrix_1() -> Vec<Vec<i64>> {
    vec![
        vec![1, 1, 0, 1, 0, 1],
        vec![0, 1, 0, 1, 1, 1],
        vec![1, 1, 1, 1, 0, 1],
        vec![1, 0, 1, 1, 1, 0],
    ]
}

fn generator_matrix_2() -> Vec<Vec<i64>> {
    vec![vec![1, 0, 1, 2], vec![0, 1, 1, 1]]
}

fn generator_matrix_3() -> Vec<Vec<i64>> {
    vec![vec![1, 0, 0, 1, 0], vec![0, 1, 0, 1, 1], vec![0, 0, 1, 1, 0]]
}


#[test]
fn invalid_input_dimensions() {
    let result = syndrome_decoder(&vec![2, 0, 2, 0, 2, 1, 0], &generator_matrix_1(), 2);
    assert!(result.is_err());
    let error = result.unwrap_err();
    assert!(matches!(error, DecodeError::InvalidGenerator));
}

#[test]
fn non_gauss_eliminated_matrix_success_2_finite_field_one_error_bit() {
    let result = syndrome_decoder(&vec![2, 0, 2, 0, 2, 1], &generator_matrix_1(), 2);
    assert!(result.is_ok());
    let (decoded_msg, errors) = result.unwrap();
    assert_eq!(decoded_msg, vec![0, 0, 0, 0]);
    assert_eq!(errors, vec![0, 0, 0, 0, 0, 1]);
}

#[test]
fn gauss_eliminated_matrix_success_3_finite_field_no_error_bits() {
    let result = syndrome_decoder(&vec![2, 1, 0, 2], &generator_matrix_2(), 3);
    assert!(result.is_ok());
    let (decoded_msg, errors) = result.unwrap();
    assert_eq!(decoded_msg, vec![2, 1]);
    assert_eq!(errors.len(), 0);
}

#[test]
fn gauss_eliminated_matrix_error_2_finite_field_3_closest_codewords() {
    let result = syndrome_decoder(&vec![0, 1, 0, 0, 1], &generator_matrix_3(), 2);
    assert!(result.is_err());
    let error = result.unwrap_err();
    let results = match error {
        DecodeError::AmbiguousDecoding(results) => results,
        other => panic!("expected AmbiguousDecoding, got {:?}", other),
    };

    let expected_closest_codewords = vec![
        vec![1, 0, 0, 0, 0],
        vec![0, 0, 0, 1, 0],
        vec![0, 0, 1, 0, 0],
    ];

    assert_eq!(results.len(), expected_closest_codewords.len());
    assert!(results.iter().all(|item| expected_closest_codewords.contains(item)));
}

#[test]
fn gauss_eliminated_matrix_success_2_finite_field_one_error_bits() {
    let result = syndrome_decoder(&vec![1, 0, 0, 0, 1], &generator_matrix_3(), 2);
    assert!(result.is_ok());
    let (decoded_msg, errors) = result.unwrap();
    assert_eq!(decoded_msg, vec![1, 1, 0]);
    assert_eq!(errors, vec![0, 1, 0, 0, 0]);
}

#[test]
fn golay_two_error_bits() {
    let result = syndrome_decoder(
        &vec![1, 1, 0, 0, 0, 0, 0, 0, 0, 0, 1, 0, 1, 1, 0, 1, 1, 0, 1, 1, 1, 0, 0, 0],
        &golay_generator_matrix(),
        2,
    );
    assert!(result.is_ok());
    let (decoded_msg, errors) = result.unwrap();
    assert_eq!(decoded_msg, vec![0, 0, 0, 0, 0, 0, 0, 0, 0, 0, 1, 0]);
    assert_eq!(
        errors,
        vec![1, 1, 0, 0, 0, 0, 0, 0, 0, 0, 0, 0, 0, 0, 0, 0, 0, 0, 0, 0, 0, 0, 0, 0]
    );
}

#[test]
fn golay_three_error_bits() {
    let result = syndrome_decoder(
        &vec![1, 1, 1, 0, 0, 0, 0, 0, 0, 0, 1, 0, 1, 1, 0, 1, 1, 0, 1, 1, 1, 0, 0, 0],
        &golay_generator_matrix(),
        2,
    );
    assert!(result.is_ok());
    let (decoded_msg, errors) = result.unwrap();
    assert_eq!(decoded_msg, vec![0, 0, 0, 0, 0, 0, 0, 0, 0, 0, 1, 0]);
    assert_eq!(
        errors,
        vec![1, 1, 1, 0, 0, 0, 0, 0, 0, 0, 0, 0, 0, 0, 0, 0, 0, 0, 0, 0, 0, 0, 0, 0]
    );
}

#[test]
fn golay_four_error_bits_should_fail() {
    let result = syndrome_decoder(
        &vec![1, 1, 1, 1, 0, 0, 0, 0, 0, 0, 1, 0, 1, 1, 0, 1, 1, 0, 1, 1, 1, 0, 0, 0],
        &golay_generator_matrix(),
        2,
    );
    assert!(result.is_err());
    let error = result.unwrap_err();
    let results = match error {
        DecodeError::AmbiguousDecoding(results) => results,
        other => panic!("expected AmbiguousDecoding, got {:?}", other),
    };

    let expected_closest_codewords = vec![
        vec![0, 0, 0, 0, 0, 0, 1, 0, 0, 0, 0, 0, 0, 0, 1, 1, 0, 0, 0, 0, 1, 0, 0, 0],
        vec![0, 0, 0, 0, 0, 1, 0, 0, 1, 0, 0, 0, 1, 0, 0, 0, 0, 0, 0, 1, 0, 0, 0, 0],
        vec![0, 0, 0, 0, 0, 0, 0, 1, 0, 1, 1, 0, 0, 0, 0, 0, 1, 0, 0, 0, 0, 0, 0, 0],
        vec![0, 0, 0, 0, 1, 0, 0, 0, 0, 0, 0, 0, 0, 0, 0, 0, 0, 1, 0, 0, 0, 1, 0, 1],
        vec![0, 0, 0, 0, 0, 0, 0, 0, 0, 0, 0, 1, 0, 1, 0, 0, 0, 0, 1, 0, 0, 0, 1, 0],
        vec![1, 1, 1, 1, 0, 0, 0, 0, 0, 0, 0, 0, 0, 0, 0, 0, 0, 0, 0, 0, 0, 0, 0, 0],
    ];

    assert_eq!(results.len(), expected_closest_codewords.len());
    assert!(results.iter().all(|item| expected_closest_codewords.contains(item)));
}

#[test]
fn golay_codeword_round_trip() {
    // row 10 of the generator is itself a codeword of the message with
    // only bit 10 set; with no errors added it decodes on the fast path
    let generator = golay_generator_matrix();
    let received = generator[10].clone();
    let result = syndrome_decoder(&received, &generator, 2);
    let (decoded_msg, errors) = result.unwrap();
    assert_eq!(decoded_msg, vec![0, 0, 0, 0, 0, 0, 0, 0, 0, 0, 1, 0]);
    assert_eq!(errors.len(), 0);
}

#[test]
fn empty_received_word_is_invalid_input() {
    let result = syndrome_decoder(&vec![], &generator_matrix_1(), 2);
    assert!(matches!(result.unwrap_err(), DecodeError::InvalidInput));
}

#[test]
fn empty_generator_is_invalid() {
    let result = syndrome_decoder(&vec![1, 0, 1], &vec![], 2);
    assert!(matches!(result.unwrap_err(), DecodeError::InvalidGenerator));
}

#[test]
fn rank_deficient_generator_is_singular() {
    let generator = vec![vec![1, 1], vec![1, 1]];
    let result = syndrome_decoder(&vec![1, 0], &generator, 2);
    assert!(matches!(result.unwrap_err(), DecodeError::SingularMatrix));
}

#[test]
fn composite_modulus_has_no_inverse() {
    let generator = vec![vec![2, 1]];
    let result = syndrome_decoder(&vec![0, 1], &generator, 4);
    assert!(matches!(result.unwrap_err(), DecodeError::NoInverseFound));
}

#[test]
fn zero_syndrome_returns_raw_prefix() {
    // a full-rank square generator leaves an empty parity check, so every
    // word is a codeword and the raw prefix comes back untouched
    let generator = vec![vec![1, 0], vec![0, 1]];
    let result = syndrome_decoder(&vec![5, 7], &generator, 2);
    let (decoded_msg, errors) = result.unwrap();
    assert_eq!(decoded_msg, vec![5, 7]);
    assert_eq!(errors.len(), 0);
}

#[test]
fn codeword_round_trip_without_errors() {
    // message (1, 2) against the systematic generator [[1,0,1,2],[0,1,1,1]]
    // over Z_3 encodes to (1, 2, 0, 1); decoding it recovers the message
    let result = syndrome_decoder(&vec![1, 2, 0, 1], &generator_matrix_2(), 3);
    let (decoded_msg, errors) = result.unwrap();
    assert_eq!(decoded_msg, vec![1, 2]);
    assert_eq!(errors.len(), 0);
}

#[test]
fn bounded_error_corrected_exactly() {
    // the same codeword (1, 2, 0, 1) with a single error at position 3
    let result = syndrome_decoder(&vec![1, 2, 0, 2], &generator_matrix_2(), 3);
    let (decoded_msg, errors) = result.unwrap();
    assert_eq!(decoded_msg, vec![1, 2]);
    assert_eq!(errors, vec![0, 0, 0, 1]);
}

#[test]
fn unreduced_received_word_is_normalized() {
    // received entries outside [0, p) are reduced before the search
    let result = syndrome_decoder(&vec![-1, 0, 0, 0, 1], &generator_matrix_3(), 2);
    let (decoded_msg, errors) = result.unwrap();
    assert_eq!(decoded_msg, vec![1, 1, 0]);
    assert_eq!(errors, vec![0, 1, 0, 0, 0]);
}

#[test]
fn repeated_calls_agree() {
    let received = vec![0, 1, 0, 0, 1];
    let first = syndrome_decoder(&received, &generator_matrix_3(), 2);
    let second = syndrome_decoder(&received, &generator_matrix_3(), 2);
    match (first, second) {
        (
            Err(DecodeError::AmbiguousDecoding(a)),
            Err(DecodeError::AmbiguousDecoding(b)),
        ) => assert_eq!(a, b),
        other => panic!("expected two ambiguous results, got {:?}", other),
    }
    let first_ok = syndrome_decoder(&vec![2, 0, 2, 0, 2, 1], &generator_matrix_1(), 2).unwrap();
    let second_ok = syndrome_decoder(&vec![2, 0, 2, 0, 2, 1], &generator_matrix_1(), 2).unwrap();
    assert_eq!(first_ok, second_ok);
}
