//! Binary wavelet trees.

use qwt::binwt::PositionBound::{Excluded, Included, Unbounded};
use qwt::binwt::WaveletTreeParts;
use qwt::bitvector::{BitVector, BitVectorMut, RSWide};
use qwt::codes::PrefixCode;
use qwt::{HWT, WT};

const DATA: [u8; 8] = [1, 0, 1, 0, 255, 4, 5, 3];

#[test]
fn lengths_and_levels() {
    let mut data = vec![1u8, 0, 1, 0, 2, 4, 5, 3];
    let wt = WT::new(&mut data);
    assert_eq!(wt.len(), 8);
    assert!(!wt.is_empty());
    assert!(WT::<u8>::default().is_empty());
    assert_eq!(WT::<u8>::from(vec![]).rank(0, 0), None);
    assert_eq!(HWT::<u8>::from(vec![]).unwrap().rank(0, 0), None);
    assert_eq!(WT::<u8>::default().n_levels(), 0);
    assert_eq!(WT::from(DATA.to_vec()).n_levels(), 8);
    assert_eq!(HWT::from(DATA.to_vec()).unwrap().n_levels(), 3);
}

#[test]
fn iterating_from_both_ends() {
    let data: Vec<u8> = (0..10u8).cycle().take(100).collect();
    for forward in [
        WT::from(data.clone()).iter().collect(),
        HWT::from(data.clone()).unwrap().iter().collect(),
        WT::from(data.clone()).into_vec(),
        HWT::from(data.clone()).unwrap().into_vec(),
    ] {
        assert_eq!(forward, data);
    }
    let wt = WT::from(data.clone());
    let mut it = wt.iter();
    let mut backward = Vec::new();
    while let Some(symbol) = it.next_back() {
        backward.push(symbol);
    }
    backward.reverse();
    assert_eq!(backward, data);

    let wt = WT::from(vec![7u8, 8, 9]);
    let mut it = wt.iter();
    assert_eq!(it.next(), Some(7));
    assert_eq!(it.next_back(), Some(9));
    assert_eq!(it.next(), Some(8));
    assert_eq!(it.next(), None);
    assert_eq!(it.next_back(), None);
}

#[test]
fn queries_match_the_sequence() {
    let data: Vec<u16> = (0..3_000u32).map(|i| ((i * i + 7 * i) % 301) as u16).collect();
    let wt = WT::from(data.clone());
    let hwt = HWT::from(data.clone()).unwrap();
    assert_eq!(wt.get(data.len()), None);
    assert_eq!(hwt.get(data.len()), None);
    for (i, &symbol) in data.iter().enumerate() {
        assert_eq!(wt.get(i), Some(symbol));
        assert_eq!(hwt.get(i), Some(symbol));
        let rank = data[..i].iter().filter(|&&other| other == symbol).count();
        assert_eq!(wt.rank(symbol, i), Some(rank));
        assert_eq!(hwt.rank(symbol, i), Some(rank));
        // selecting what was counted gives the position back
        assert_eq!(wt.select(symbol, rank), Some(i));
        assert_eq!(hwt.select(symbol, rank), Some(i));
    }
    let missing = (0..301u16).find(|symbol| !data.contains(symbol)).unwrap();
    assert_eq!(wt.rank(missing, data.len()), Some(0));
    assert_eq!(wt.select(missing, 0), None);
    assert_eq!(hwt.rank(missing, data.len()), None);
    assert_eq!(hwt.select(missing, 0), None);
    assert_eq!(wt.rank(5_000, 1), None);
    assert_eq!(wt.rank(0, data.len() + 1), None);
    assert_eq!(hwt.rank(0, data.len() + 1), None);
    assert_eq!(wt.select(0, data.len()), None);
}

#[test]
fn trees_of_one_symbol() {
    let zeros = vec![0u32; 1_000];
    let wt = WT::from(zeros.clone());
    let hwt = HWT::from(zeros).unwrap();
    assert_eq!(wt.n_levels(), 1);
    assert_eq!(hwt.n_levels(), 1);
    assert_eq!(wt.rank(0, 1_000), Some(1_000));
    assert_eq!(hwt.rank(0, 1_000), Some(1_000));
    assert_eq!(hwt.select(0, 999), Some(999));
    assert_eq!(hwt.select(0, 1_000), None);
}

#[test]
fn large_symbols() {
    let data = vec![u64::MAX, 0, 1 << 40, u64::MAX - 1, 1 << 40];
    let wt = WT::from(data.clone());
    assert_eq!(wt.n_levels(), 64);
    for (i, &symbol) in data.iter().enumerate() {
        assert_eq!(wt.get(i), Some(symbol));
    }
    assert_eq!(wt.rank(1 << 40, 5), Some(2));
    assert_eq!(wt.select(1 << 40, 1), Some(4));
}

#[test]
fn codes_are_as_short_as_can_be() {
    // frequencies 8, 4, 2, 1, 1 need 8 + 2 * 4 + 3 * 2 + 4 * 2 bits
    let mut data = Vec::new();
    for (symbol, times) in [(0u8, 8), (1, 4), (2, 2), (3, 1), (4, 1)] {
        data.extend(vec![symbol; times]);
    }
    let parts = HWT::from(data.clone()).unwrap().into_parts();
    let bits: usize = parts.lens.iter().sum();
    assert_eq!(bits, 8 + 2 * 4 + 3 * 2 + 4 * 2);
    let codes = parts.codes_encode.unwrap();
    let lens: Vec<u32> = codes.iter().map(|code| code.len).collect();
    assert_eq!(lens, [1, 2, 3, 4, 4]);
}

#[test]
fn given_code_lengths() {
    let data = vec![0u8, 1, 2, 0, 1, 0];
    let tree = HWT::from_code_lengths(&mut data.clone(), &vec![1, 2, 2]).unwrap();
    assert_eq!(tree.into_vec(), data);
    // no prefix code has three words of one bit
    assert!(HWT::from_code_lengths(&mut data.clone(), &vec![1, 1, 1]).is_none());
    // a symbol has no code
    assert!(HWT::from_code_lengths(&mut data.clone(), &vec![1, 1, 0]).is_none());
    assert!(HWT::from_code_lengths(&mut data.clone(), &vec![1, 1]).is_none());
    assert!(HWT::from_code_lengths(&mut data.clone(), &vec![1, 33, 33]).is_none());
}

#[test]
fn occurrences_in_ranges() {
    let data: [u8; 9] = [1, 0, 1, 0, 3, 4, 5, 3, 7];
    let wt = WT::from(data.to_vec());
    let hwt = HWT::from(data.to_vec()).unwrap();

    assert!(wt.occs_range(0..10).is_none());
    assert!(wt.occs_range(std::ops::Range { start: 5, end: 4 }).is_none());
    assert!(wt.occs_range_bounds(Excluded(usize::MAX), Unbounded).is_none());
    assert!(wt.occs_range_bounds(Unbounded, Included(usize::MAX)).is_none());
    assert_eq!(wt.occs_range(9..9).unwrap().collect(), []);
    assert_eq!(
        wt.occs_range_bounds(Unbounded, Unbounded).unwrap().collect(),
        [(0, 2), (1, 2), (3, 2), (4, 1), (5, 1), (7, 1)]
    );
    assert_eq!(
        wt.occs_range_bounds(Included(3), Unbounded).unwrap().collect(),
        [(0, 1), (3, 2), (4, 1), (5, 1), (7, 1)]
    );
    assert_eq!(
        wt.occs_range_bounds(Excluded(2), Included(6)).unwrap().collect(),
        [(0, 1), (3, 1), (4, 1), (5, 1)]
    );
    let mut it = wt.occs_range(4..7).unwrap();
    assert_eq!(it.next(), Some((3, 1)));
    assert_eq!(it.next(), Some((4, 1)));
    assert_eq!(it.next(), Some((5, 1)));
    assert_eq!(it.next(), None);

    for start in 0..=data.len() {
        for end in start..=data.len() {
            let plain = wt.occs_range(start..end).unwrap().collect();
            let mut compressed = hwt.occs_range(start..end).unwrap().collect();
            compressed.sort();
            assert_eq!(plain, compressed);
            let total: usize = plain.iter().map(|(_, count)| count).sum();
            assert_eq!(total, end - start);
            for (symbol, count) in plain {
                let before = wt.rank(symbol, start).unwrap();
                assert_eq!(count, wt.rank(symbol, end).unwrap() - before);
            }
        }
    }
}

fn bits(bits: &[bool]) -> RSWide {
    let mut bv = BitVectorMut::new();
    for &bit in bits {
        bv.push(bit);
    }
    RSWide::from(BitVector::from(bv))
}

fn plain() -> WaveletTreeParts<u8, RSWide> {
    WT::from(vec![1u8, 0, 2, 3, 1]).into_parts()
}

/// Codes 1, 01 and 00 for the symbols 0, 1 and 2 of the sequence 0, 1, 2, 0.
fn compressed() -> WaveletTreeParts<u8, RSWide> {
    HWT::from(vec![0u8, 1, 2, 0]).unwrap().into_parts()
}

fn refused_plain(parts: WaveletTreeParts<u8, RSWide>) -> &'static str {
    WT::from_parts(parts).unwrap_err()
}

fn refused(parts: WaveletTreeParts<u8, RSWide>) -> &'static str {
    HWT::from_parts(parts).unwrap_err()
}

#[test]
fn parts_of_trees_are_accepted_again() {
    let data = vec![1u8, 0, 2, 3, 1];
    let tree = WT::from(data.clone());
    let again = WT::from_parts(tree.clone().into_parts()).unwrap();
    assert_eq!(again, tree);
    assert_eq!(again.into_vec(), data);

    let tree = HWT::from(data.clone()).unwrap();
    let again = HWT::from_parts(tree.clone().into_parts()).unwrap();
    assert_eq!(again, tree);
    assert_eq!(again.parts().n, 5);
    assert_eq!(again.into_vec(), data);

    let empty = WT::<u8>::default();
    assert_eq!(WT::from_parts(empty.clone().into_parts()), Ok(empty));
}

#[test]
fn codes_longer_than_the_symbols_are_not_accepted_again() {
    // weights 1, 1, 2, 4 and so on give a code of ten bits
    let mut data = vec![10u8];
    for symbol in 0..10 {
        data.extend(vec![symbol as u8; 1 << symbol]);
    }
    let tree = HWT::from(data).unwrap();
    assert_eq!(tree.n_levels(), 10);
    assert_eq!(
        refused(tree.into_parts()),
        "wavelet-tree level count exceeds the symbol type width"
    );
}

#[test]
fn wrong_levels_are_refused() {
    let mut parts = plain();
    parts.lens.pop();
    assert_eq!(
        refused_plain(parts),
        "wavelet-tree level metadata has inconsistent lengths"
    );

    let mut parts = WT::<u8>::default().into_parts();
    parts.sigma = Some(3);
    assert_eq!(
        refused_plain(parts),
        "empty wavelet tree contains non-empty metadata"
    );

    let mut parts = plain();
    for _ in 0..7 {
        parts.bvs.push(bits(&[false; 5]));
        parts.lens.push(5);
    }
    parts.n_levels = 9;
    assert_eq!(
        refused_plain(parts),
        "wavelet-tree level count exceeds the symbol type width"
    );

    let wide: WaveletTreeParts<u64, RSWide> = WaveletTreeParts {
        n: 1,
        n_levels: 33,
        sigma: None,
        codes_encode: None,
        codes_decode: None,
        bvs: vec![bits(&[true]); 33],
        lens: vec![1; 33],
    };
    assert_eq!(
        HWT::from_parts(wide).unwrap_err(),
        "compressed wavelet-tree code exceeds 32 bits"
    );

    let mut parts = plain();
    parts.lens[1] = 6;
    assert_eq!(
        refused_plain(parts),
        "wavelet-tree level exceeds the sequence length"
    );

    let mut parts = plain();
    parts.lens[1] = 4;
    assert_eq!(
        refused_plain(parts),
        "wavelet-tree level length disagrees with its bitvector"
    );

    let mut parts = plain();
    parts.lens[1] = 4;
    parts.bvs[1] = bits(&[true; 4]);
    assert_eq!(
        refused_plain(parts),
        "plain wavelet-tree levels must match the sequence length"
    );

    let mut parts = compressed();
    parts.bvs[0] = bits(&[true]);
    parts.lens[0] = 1;
    assert_eq!(
        refused(parts),
        "compressed wavelet-tree level lengths must be non-increasing"
    );

    let mut parts = compressed();
    parts.bvs[0] = bits(&[true; 3]);
    parts.lens[0] = 3;
    assert_eq!(
        refused(parts),
        "compressed wavelet-tree first level must match the sequence length"
    );
}

#[test]
fn wrong_tables_are_refused() {
    let mut parts = compressed();
    parts.sigma = Some(2);
    assert_eq!(
        refused(parts),
        "compressed wavelet tree must not contain plain sigma metadata"
    );

    let mut parts = compressed();
    parts.codes_encode = None;
    assert_eq!(
        refused(parts),
        "compressed wavelet tree is missing its encoder"
    );

    let mut parts = compressed();
    parts.codes_decode = None;
    assert_eq!(
        refused(parts),
        "compressed wavelet tree is missing its decoder"
    );

    let mut parts = compressed();
    parts.codes_decode.as_mut().unwrap().pop();
    assert_eq!(
        refused(parts),
        "compressed wavelet-tree decoder has the wrong depth"
    );

    let mut parts = compressed();
    parts.codes_decode.as_mut().unwrap()[2].reverse();
    assert_eq!(
        refused(parts),
        "compressed wavelet-tree decoder rows must be strictly sorted"
    );

    let mut parts = compressed();
    parts.codes_encode.as_mut().unwrap()[0] = PrefixCode { content: 2, len: 1 };
    assert_eq!(
        refused(parts),
        "compressed wavelet-tree encoder contains an invalid code"
    );

    let mut parts = compressed();
    parts.codes_encode.as_mut().unwrap().swap(1, 2);
    assert_eq!(
        refused(parts),
        "compressed wavelet-tree encode/decode tables disagree"
    );

    let mut parts = compressed();
    parts.codes_decode.as_mut().unwrap()[2].push((3, 200));
    assert_eq!(
        refused(parts),
        "compressed wavelet-tree decoder symbol is out of range"
    );

    let mut parts = compressed();
    parts.codes_decode.as_mut().unwrap()[2].push((3, 0));
    assert_eq!(
        refused(parts),
        "compressed wavelet-tree decode/encode tables disagree"
    );

    let mut parts = plain();
    parts.codes_encode = Some(Vec::new());
    assert_eq!(
        refused_plain(parts),
        "plain wavelet tree contains compressed-code metadata"
    );

    let mut parts = plain();
    parts.sigma = None;
    assert_eq!(
        refused_plain(parts),
        "plain wavelet tree is missing sigma metadata"
    );

    let mut parts = plain();
    parts.sigma = Some(4);
    assert_eq!(
        refused_plain(parts),
        "plain wavelet-tree sigma disagrees with its level count"
    );
}

#[test]
fn wrong_payloads_are_refused() {
    // the path of the first symbol is no code
    let mut parts = compressed();
    let encode = parts.codes_encode.as_mut().unwrap();
    let first = encode[0];
    encode[0] = PrefixCode { content: 0, len: 0 };
    let decode = parts.codes_decode.as_mut().unwrap();
    decode[1].retain(|(content, _)| *content != first.content);
    assert_eq!(
        refused(parts),
        "wavelet-tree payload cannot decode every declared position"
    );

    let mut parts = plain();
    parts.sigma = Some(2);
    assert_eq!(
        refused_plain(parts),
        "plain wavelet-tree sigma disagrees with its encoded payload"
    );
}

// The code of symbol 1 goes on where that of symbol 0 ends: the walk over a
// range ends at the shorter one.
#[test]
fn the_first_code_on_the_way_ends_the_walk() {
    let tree: HWT<u8> = HWT::from_parts(WaveletTreeParts {
        n: 2,
        n_levels: 2,
        sigma: None,
        codes_encode: Some(vec![
            PrefixCode { content: 0, len: 1 },
            PrefixCode { content: 0, len: 2 },
        ]),
        codes_decode: Some(vec![vec![], vec![(0, 0)], vec![(0, 1)]]),
        bvs: vec![bits(&[false, false]), bits(&[false])],
        lens: vec![2, 1],
    })
    .unwrap();
    assert_eq!(tree.get(0), Some(1));
    assert_eq!(tree.get(1), Some(0));
    assert_eq!(tree.occs_range(0..2).unwrap().collect(), vec![(0, 2)]);
    let mut walk = tree.occs_range(0..1).unwrap();
    assert_eq!(walk.next(), Some((0, 1)));
    assert_eq!(walk.next(), None);
    assert_eq!(walk.next(), None);
}

#[test]
fn ranks_of_bits() {
    let pattern: Vec<bool> = (0..1000usize).map(|i| i % 3 == 0).collect();
    let bv = bits(&pattern);
    assert_eq!(bv.len(), 1000);
    assert_eq!(bv.count_zeros(), 666);
    let mut ones = 0;
    for i in 0..1000 {
        assert_eq!(bv.rank1(i), Some(ones));
        assert_eq!(bv.get(i), Some(pattern[i]));
        if pattern[i] {
            ones += 1;
        }
    }
    assert_eq!(bv.rank1(1000), Some(334));
    assert_eq!(bv.rank1(1001), None);
    assert_eq!(bv.get(1000), None);
}

// every level is partitioned, the last one too
#[test]
fn the_order_that_a_build_leaves() {
    let mut symbols = [1u8, 0];
    let tree = WT::new(&mut symbols);
    assert_eq!(symbols, [0, 1]);
    assert_eq!(tree.into_vec(), vec![1, 0]);

    // 2, 3 and 0, 1 after the first level, even before odd after the second
    let mut symbols = [3u8, 0, 2, 1, 0];
    let tree = WT::new(&mut symbols);
    assert_eq!(symbols, [0, 0, 2, 1, 3]);
    assert_eq!(tree.into_vec(), vec![3, 0, 2, 1, 0]);
}

#[test]
fn levels_have_as_many_bits_as_the_codes() {
    let tree: HWT<u8> = HWT::from(vec![0, 0, 0, 0, 1, 1, 2]).unwrap();
    let lens: usize = tree.parts().lens.iter().sum();
    assert_eq!(lens, 4 + 2 * 2 + 2);
}
