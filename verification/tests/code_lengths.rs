use zopfli::code_lengths::weights_fit_checked;
use zopfli::katajainen::{length_limited_code_lengths, CodeLengthError};

fn lengths(frequencies: &[usize], max_bits: usize) -> Vec<u32> {
    assert!(weights_fit_checked(frequencies, max_bits));
    match length_limited_code_lengths(frequencies, max_bits) {
        Ok(lengths) => lengths,
        Err(_) => panic!("too few bits"),
    }
}

// 2^bits times the Kraft sum of the symbols in use.
fn kraft(frequencies: &[usize], lengths: &[u32], bits: u32) -> u64 {
    let mut sum = 0u64;
    for i in 0..frequencies.len() {
        if frequencies[i] != 0 {
            sum += 1u64 << (bits - lengths[i]);
        }
    }
    sum
}

fn cost(frequencies: &[usize], lengths: &[u32]) -> usize {
    let mut sum = 0;
    for i in 0..frequencies.len() {
        sum += frequencies[i] * lengths[i] as usize;
    }
    sum
}

// The cost of the cheapest prefix code of at most `bits` bits, by trying
// every choice of lengths.
fn cheapest(frequencies: &[usize], bits: u32) -> Option<usize> {
    let used: Vec<usize> = (0..frequencies.len()).filter(|&i| frequencies[i] != 0).collect();
    let mut choice = vec![1u32; used.len()];
    let mut best = None;
    loop {
        let mut width = 0u64;
        let mut sum = 0;
        for (place, &symbol) in used.iter().enumerate() {
            width += 1u64 << (bits - choice[place]);
            sum += frequencies[symbol] * choice[place] as usize;
        }
        if width <= 1u64 << bits {
            best = match best {
                Some(least) if least <= sum => Some(least),
                _ => Some(sum),
            };
        }
        let mut place = 0;
        while place < choice.len() && choice[place] == bits {
            choice[place] = 1;
            place += 1;
        }
        if place == choice.len() {
            return best;
        }
        choice[place] += 1;
    }
}

#[test]
fn all_zero_frequencies_give_all_zero_lengths() {
    for n in 0..6 {
        let input = vec![0usize; n];
        for max_bits in [0, 1, 7, 15] {
            assert_eq!(length_limited_code_lengths(&input, max_bits), Ok(vec![0u32; n]));
        }
    }
}

#[test]
fn a_single_symbol_gets_one_bit() {
    for k in 0..5 {
        let mut input = vec![0usize; 5];
        input[k] = 3 + k;
        let mut answer = vec![0u32; 5];
        answer[k] = 1;
        assert_eq!(length_limited_code_lengths(&input, 7), Ok(answer));
    }
}

#[test]
fn a_single_symbol_gets_one_bit_even_with_no_bits_allowed() {
    assert_eq!(length_limited_code_lengths(&[0, 0, 9], 0), Ok(vec![0, 0, 1]));
}

#[test]
fn two_symbols_get_one_bit_each() {
    for j in 0..4 {
        for k in j + 1..5 {
            let mut input = vec![0usize; 5];
            input[j] = 1;
            input[k] = 1000;
            let mut answer = vec![0u32; 5];
            answer[j] = 1;
            answer[k] = 1;
            assert_eq!(length_limited_code_lengths(&input, 1), Ok(answer.clone()));
            assert_eq!(length_limited_code_lengths(&input, 9), Ok(answer));
        }
    }
}

#[test]
fn two_symbols_need_a_bit() {
    assert_eq!(length_limited_code_lengths(&[4, 0, 4], 0), Err(CodeLengthError::TooFewBits));
}

#[test]
fn too_few_bits_exactly_beyond_two_to_the_bits() {
    let four = [1usize, 2, 3, 4];
    let five = [1usize, 2, 3, 4, 5];
    assert_eq!(length_limited_code_lengths(&four, 1), Err(CodeLengthError::TooFewBits));
    assert_eq!(length_limited_code_lengths(&four, 2), Ok(vec![2, 2, 2, 2]));
    assert_eq!(length_limited_code_lengths(&five, 2), Err(CodeLengthError::TooFewBits));
    assert_eq!(length_limited_code_lengths(&five, 3), Ok(vec![3, 3, 2, 2, 2]));
}

#[test]
fn lengths_are_zero_exactly_for_unused_symbols_and_within_the_limit() {
    let input = [5usize, 0, 1, 1, 0, 40, 2, 0, 9, 13, 1, 0];
    for max_bits in 3..9 {
        let output = lengths(&input, max_bits);
        assert_eq!(output.len(), input.len());
        for i in 0..input.len() {
            assert_eq!(output[i] == 0, input[i] == 0);
            assert!(output[i] as usize <= max_bits);
        }
    }
}

#[test]
fn codes_are_complete() {
    let input = [252usize, 0, 1, 6, 9, 10, 6, 3, 2, 0, 0, 0, 0, 0, 0, 0, 0, 0, 0];
    for max_bits in 3..16 {
        let output = lengths(&input, max_bits);
        assert_eq!(kraft(&input, &output, 16), 1 << 16);
    }
    assert_eq!(kraft(&[0, 7, 0], &lengths(&[0, 7, 0], 4), 4), 8);
}

#[test]
fn unlimited_lengths_are_huffman_lengths() {
    // 1 + 1 = 2, 2 + 2 = 4, 4 + 4 = 8, 8 + 8 = 16: a chain of merges.
    assert_eq!(lengths(&[1, 1, 2, 4, 8], 15), vec![4, 4, 3, 2, 1]);
    assert_eq!(lengths(&[8, 4, 2, 1, 1], 15), vec![1, 2, 3, 4, 4]);
}

#[test]
fn limited_cost_from_the_paper() {
    let input = [1usize, 1, 5, 7, 10, 14];
    assert_eq!(cost(&input, &lengths(&input, 3)), 3 + 3 + 15 + 21 + 20 + 28);
    assert_eq!(cost(&input, &lengths(&input, 4)), 4 + 4 + 15 + 14 + 20 + 28);
}

#[test]
fn no_prefix_code_is_cheaper() {
    let alphabets: [&[usize]; 7] = [
        &[1, 1, 5, 7, 10, 14],
        &[3, 3, 3, 3, 3],
        &[1, 2, 4, 8, 16],
        &[100, 1, 1, 1],
        &[7, 0, 7, 0, 7],
        &[2, 9],
        &[1, 1, 1, 1, 1, 1],
    ];
    for input in alphabets {
        let used = input.iter().filter(|&&f| f != 0).count();
        for max_bits in 1..6u32 {
            if 1usize << max_bits < used {
                assert_eq!(
                    length_limited_code_lengths(input, max_bits as usize),
                    Err(CodeLengthError::TooFewBits)
                );
            } else {
                let output = lengths(input, max_bits as usize);
                assert_eq!(Some(cost(input, &output)), cheapest(input, max_bits));
            }
        }
    }
}

#[test]
fn same_input_same_lengths() {
    let input = [0usize, 18, 6, 12, 2, 14, 9, 27, 15, 23, 15, 17, 8, 1];
    assert_eq!(length_limited_code_lengths(&input, 5), length_limited_code_lengths(&input, 5));
    assert_eq!(length_limited_code_lengths(&input, 2), length_limited_code_lengths(&input, 2));
}

#[test]
fn weights_fit_is_checked() {
    assert!(weights_fit_checked(&[1, 2, 3, 4], 15));
    assert!(weights_fit_checked(&[usize::MAX, usize::MAX], 15));
    assert!(weights_fit_checked(&[usize::MAX / 2, 1, 1], 1));
    assert!(weights_fit_checked(&[usize::MAX / 2, 1, 1], 2));
    assert!(!weights_fit_checked(&[usize::MAX / 2, 1, 1, 1], 3));
    assert!(!weights_fit_checked(&[usize::MAX, 1, 1], 2));
    assert!(weights_fit_checked(&[usize::MAX / 4, 1, 1, 1, 1], 4));
    assert!(!weights_fit_checked(&[usize::MAX / 2, usize::MAX / 2, 2, 0], 3));
}
