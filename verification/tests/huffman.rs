//! Codes and compressed quad trees.

use qwt::codes::{craft_wm_codes, PrefixCode};
use qwt::huffman::{huffman_lens, symbol_frequencies};
use qwt::order::sort_by_frequency;
use qwt::quadwt::huffqwt::huffman_codes_from_frequencies;
use qwt::{HQWT256, HQWT512};

#[test]
fn lengths_of_minimum_redundancy_codes() {
    // bits: 1, 2, 3, 4, 4; pairs of bits: three symbols beside the two rarest
    let frequencies = vec![8usize, 4, 2, 1, 1];
    assert_eq!(huffman_lens(&frequencies, 1), Some(vec![1, 2, 3, 4, 4]));
    assert_eq!(huffman_lens(&frequencies, 2), Some(vec![1, 1, 1, 2, 2]));
    // symbols that do not occur have no code
    assert_eq!(huffman_lens(&vec![0, 3, 0, 5], 1), Some(vec![0, 1, 0, 1]));
    assert_eq!(huffman_lens(&vec![0, 0], 1), Some(vec![0, 0]));
    assert_eq!(huffman_lens(&vec![], 2), Some(vec![]));
}

#[test]
fn frequencies_are_counted() {
    assert_eq!(
        symbol_frequencies(&[1u8, 0, 1, 3], 4),
        Some(vec![1, 2, 0, 1])
    );
    assert_eq!(symbol_frequencies(&[1u8, 0, 1, 4], 4), None);
}

fn digits(code: &PrefixCode) -> Vec<u32> {
    (0..code.len / 2)
        .map(|l| (code.content >> (code.len - 2 * (l + 1))) & 3)
        .collect()
}

#[test]
fn codes_for_wavelet_matrices() {
    let frequencies: Vec<usize> = vec![100, 0, 40, 17, 9, 4, 2, 1, 1, 1];
    let codes = huffman_codes_from_frequencies(&frequencies).unwrap();
    assert_eq!(codes.len(), frequencies.len());
    assert_eq!(codes[1].len, 0);
    for (a, code) in codes.iter().enumerate() {
        assert_eq!(code.len > 0, frequencies[a] > 0);
        for (b, other) in codes.iter().enumerate() {
            if a == b || code.len == 0 || other.len == 0 {
                continue;
            }
            let (x, y) = (digits(code), digits(other));
            // no code is the beginning of another
            assert!(!y.starts_with(&x));
            // codes that go on are ordered before codes that end, from the
            // last common digit backwards
            if x.len() < y.len() {
                let ends: Vec<u32> = x.iter().rev().copied().collect();
                let goes_on: Vec<u32> = y[..x.len()].iter().rev().copied().collect();
                assert!(goes_on < ends);
            }
        }
    }
}

#[test]
fn lengths_that_admit_no_code() {
    assert!(craft_wm_codes(&vec![1, 1, 1], 1).is_none());
    assert!(craft_wm_codes(&vec![1, 1, 1], 2).is_some());
    assert!(craft_wm_codes(&vec![33], 1).is_none());
    assert!(craft_wm_codes(&vec![17], 2).is_none());
    let codes = craft_wm_codes(&vec![1, 2, 2, 0], 1).unwrap();
    let lens: Vec<u32> = codes.iter().map(|code| code.len).collect();
    assert_eq!(lens, [1, 2, 2, 0]);
}

#[test]
fn compressed_trees_answer_queries() {
    let mut data: Vec<u32> = Vec::new();
    for i in 0..4_000u32 {
        data.push(match i % 16 {
            0..=7 => 3,
            8..=11 => 70,
            12..=13 => i % 5,
            14 => 200 + i % 40,
            _ => 1_000,
        });
    }
    let tree = HQWT256::from(data.clone()).unwrap();
    let wide = HQWT512::from(data.clone()).unwrap();
    assert_eq!(tree.len(), data.len());
    assert!(!tree.is_empty());
    assert_eq!(tree.iter().collect(), data);
    assert_eq!(tree.n_levels(), wide.n_levels());
    for i in (0..data.len()).step_by(7) {
        let symbol = data[i];
        let rank = data[..i].iter().filter(|&&other| other == symbol).count();
        assert_eq!(tree.get(i), Some(symbol));
        assert_eq!(tree.get_unchecked(i), symbol);
        assert_eq!(wide.get(i), Some(symbol));
        assert_eq!(tree.rank(symbol, i), Some(rank));
        assert_eq!(tree.rank_unchecked(symbol, i), rank);
        assert_eq!(wide.rank(symbol, i), Some(rank));
        assert_eq!(tree.select(symbol, rank), Some(i));
        assert_eq!(tree.select_unchecked(symbol, rank), i);
        assert_eq!(wide.select(symbol, rank), Some(i));
    }
    assert_eq!(tree.get(data.len()), None);
    assert_eq!(tree.rank(999, 10), None);
    assert_eq!(tree.rank(5_000, 10), None);
    assert_eq!(tree.rank(3, data.len() + 1), None);
    assert_eq!(tree.select(999, 0), None);
    assert_eq!(tree.select(3, data.len()), None);
    // the common symbol has a code of one pair of bits
    assert_eq!(tree.codes_encode()[3].len, 2);
    assert_eq!(tree.lens()[0], data.len());
}

#[test]
fn compressed_trees_of_few_symbols() {
    let tree = HQWT256::from(vec![5u8; 300]).unwrap();
    assert_eq!(tree.n_levels(), 1);
    assert_eq!(tree.rank(5, 300), Some(300));
    assert_eq!(tree.select(5, 299), Some(299));
    let tree = HQWT256::<u8>::default();
    assert!(tree.is_empty());
    assert_eq!(tree.get(0), None);
    assert_eq!(tree.rank(0, 0), None);
}

#[test]
fn codes_are_handed_out_from_the_largest() {
    let code = |content: u32, len: u32| PrefixCode { content, len };
    assert_eq!(
        craft_wm_codes(&vec![2, 0, 1, 2], 1),
        Some(vec![code(1, 2), code(0, 0), code(1, 1), code(0, 2)])
    );
    assert_eq!(
        craft_wm_codes(&vec![1, 2, 1, 1, 2], 2),
        Some(vec![code(3, 2), code(3, 4), code(2, 2), code(1, 2), code(2, 4)])
    );
    // too many codes of one digit, and a code that no word holds
    assert_eq!(craft_wm_codes(&vec![1, 1, 1], 1), None);
    assert_eq!(craft_wm_codes(&vec![17], 2), None);
    assert_eq!(craft_wm_codes(&vec![], 2), Some(vec![]));
}

#[test]
fn rarer_symbols_come_first() {
    assert_eq!(sort_by_frequency(&vec![3, 1, 3, 1, 2], &vec![0, 1, 2, 3, 4]), vec![1, 3, 4, 0, 2]);
    assert_eq!(sort_by_frequency(&vec![5, 4], &vec![]), Vec::<usize>::new());
    // of equally frequent symbols the smaller have the longer codes
    assert_eq!(huffman_lens(&vec![1, 1, 1, 1, 1], 2), Some(vec![2, 2, 1, 1, 1]));
    assert_eq!(huffman_lens(&vec![1, 1, 1], 1), Some(vec![2, 2, 1]));
}
