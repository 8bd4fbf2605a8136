use zopfli::katajainen::{length_limited_code_lengths, CodeLengthError};

#[test]
fn test_from_paper_3() {
    let input = [1, 1, 5, 7, 10, 14];
    let output = length_limited_code_lengths(&input, 3);
    let answer = vec![3, 3, 3, 3, 2, 2];
    assert_eq!(output, Ok(answer));
}

#[test]
fn test_from_paper_4() {
    let input = [1, 1, 5, 7, 10, 14];
    let output = length_limited_code_lengths(&input, 4);
    let answer = vec![4, 4, 3, 2, 2, 2];
    assert_eq!(output, Ok(answer));
}

#[test]
fn max_bits_7() {
    let input = [252, 0, 1, 6, 9, 10, 6, 3, 2, 0, 0, 0, 0, 0, 0, 0, 0, 0, 0];
    let output = length_limited_code_lengths(&input, 7);
    let answer = vec![1, 0, 6, 4, 3, 3, 3, 5, 6, 0, 0, 0, 0, 0, 0, 0, 0, 0, 0];
    assert_eq!(output, Ok(answer));
}

#[test]
fn max_bits_15() {
    let input = [
        0, 0, 0, 0, 0, 0, 18, 0, 6, 0, 12, 2, 14, 9, 27, 15, 23, 15, 17, 8, 1, 0, 0, 0, 0, 0, 0, 0,
        0, 0, 0, 0,
    ];
    let output = length_limited_code_lengths(&input, 15);
    let answer = vec![
        0, 0, 0, 0, 0, 0, 3, 0, 5, 0, 4, 6, 4, 4, 3, 4, 3, 3, 3, 4, 6, 0, 0, 0, 0, 0, 0, 0, 0, 0,
        0, 0,
    ];
    assert_eq!(output, Ok(answer));
}

#[test]
fn no_frequencies() {
    let input = [0, 0, 0, 0, 0];
    let output = length_limited_code_lengths(&input, 7);
    let answer = vec![0, 0, 0, 0, 0];
    assert_eq!(output, Ok(answer));
}

#[test]
fn only_one_frequency() {
    let input = [0, 10, 0];
    let output = length_limited_code_lengths(&input, 7);
    let answer = vec![0, 1, 0];
    assert_eq!(output, Ok(answer));
}

#[test]
fn only_two_frequencies() {
    let input = [0, 0, 0, 0, 252, 0, 3, 0, 0, 0, 0, 0, 0, 0, 0, 0, 0];
    let output = length_limited_code_lengths(&input, 7);
    let answer = vec![0, 0, 0, 0, 1, 0, 1, 0, 0, 0, 0, 0, 0, 0, 0, 0, 0];
    assert_eq!(output, Ok(answer));
}

#[test]
fn too_few_bits_for_five_symbols() {
    let input = [3, 1, 4, 1, 5];
    assert_eq!(length_limited_code_lengths(&input, 2), Err(CodeLengthError::TooFewBits));
}

#[test]
fn four_symbols_fill_two_bits() {
    let input = [1, 100, 1, 1];
    assert_eq!(length_limited_code_lengths(&input, 2), Ok(vec![2, 2, 2, 2]));
}

#[test]
fn equal_weights_keep_alphabet_order() {
    // Three equal weights: the last in the alphabet is the heaviest leaf and
    // gets the short code.
    let input = [4, 4, 4];
    assert_eq!(length_limited_code_lengths(&input, 8), Ok(vec![2, 2, 1]));
}
