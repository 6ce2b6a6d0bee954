//! Containers: what is written, what is refused, and what is read back.

use qwt::bytes::buffer::{aligned_copy, window_start};
use qwt::bytes::encoder::LevelEncoder;
use qwt::bytes::{
    align_up, checked_region, hqwt256_to_bytes, hqwt_to_bytes, qwt256_to_bytes, qwt_to_bytes,
    AlignedBytes, HqwtView, LayoutError, QwtView, RSQVectorView, HEADER_SIZE,
    HQWT_LEVEL_DIR_SIZE, LEVEL_DIR_SIZE,
};
use qwt::qvector::{RSQVector256, RSQVector512};
use qwt::{HQWT256, HQWT512, QWT256, QWT512};

fn open(bytes: &[u8]) -> Result<usize, LayoutError> {
    let aligned = AlignedBytes::from_slice(bytes);
    QwtView::<u32, 256>::from_bytes(aligned.as_slice()).map(|view| view.len())
}

fn open_huff(bytes: &[u8]) -> Result<usize, LayoutError> {
    let aligned = AlignedBytes::from_slice(bytes);
    HqwtView::<u32, 256>::from_bytes(aligned.as_slice()).map(|view| view.len())
}

fn inconsistent<T>(detail: &'static str) -> Result<T, LayoutError> {
    Err(LayoutError::Inconsistent { detail })
}

fn plain() -> Vec<u8> {
    qwt256_to_bytes(&QWT256::from(vec![1u32, 2, 3, 0, 2])).unwrap()
}

fn put_u32(bytes: &mut [u8], at: usize, x: u32) {
    bytes[at..at + 4].copy_from_slice(&x.to_le_bytes());
}

fn put_u64(bytes: &mut [u8], at: usize, x: u64) {
    bytes[at..at + 8].copy_from_slice(&x.to_le_bytes());
}

#[test]
fn a_container_byte_by_byte() {
    let bytes = plain();
    // header and directory in 192 bytes, one data line, one superblock, and
    // two select samples for each digit
    assert_eq!(bytes.len(), 192 + 64 + 64 + 4 * 2 * 4);
    assert_eq!(&bytes[0..4], b"QWTB");
    assert_eq!(&bytes[4..8], &[1, 0, 0, 4]);
    assert_eq!(&bytes[8..16], &5u64.to_le_bytes());
    assert_eq!(&bytes[16..24], &3u64.to_le_bytes());
    assert_eq!(&bytes[24..26], &1u16.to_le_bytes());
    assert_eq!(&bytes[26..32], &[0; 6]);
    let dir = &bytes[32..160];
    assert_eq!(&dir[0..8], &192u64.to_le_bytes());
    assert_eq!(&dir[8..12], &1u32.to_le_bytes());
    assert_eq!(&dir[16..24], &10u64.to_le_bytes());
    assert_eq!(&dir[24..32], &256u64.to_le_bytes());
    assert_eq!(&dir[32..36], &1u32.to_le_bytes());
    // high bits of 1, 2, 3, 0, 2, then low bits
    assert_eq!(bytes[192], 0b10110);
    assert_eq!(bytes[192 + 32], 0b00101);
    // counters of the block behind the rows: one 0, one 1, two 2s, one 3
    for (digit, count) in [1u8, 1, 2, 1].into_iter().enumerate() {
        assert_eq!(bytes[256 + 16 * digit], count);
    }
    assert_eq!(&bytes[320..352], &[0; 32]);
}

#[test]
fn headers_are_checked_in_order() {
    assert_eq!(open(&plain()), Ok(5));
    assert_eq!(open(&plain()[..31]), Err(LayoutError::Truncated));
    assert_eq!(open(&[]), Err(LayoutError::Truncated));

    let mut bytes = plain();
    bytes[3] = b'X';
    assert_eq!(open(&bytes), Err(LayoutError::BadMagic));
    assert_eq!(open_huff(&plain()), Err(LayoutError::BadMagic));

    let mut bytes = plain();
    bytes[4] = 2;
    assert_eq!(open(&bytes), Err(LayoutError::BadVersion));

    let mut bytes = plain();
    bytes[6] = 2;
    assert_eq!(open(&bytes), Err(LayoutError::PrefetchNotSupported));

    let mut bytes = plain();
    bytes[6] = 1;
    assert_eq!(
        open(&bytes),
        inconsistent("B_SIZE flag does not match requested type")
    );

    let mut bytes = plain();
    bytes[7] = 8;
    assert_eq!(open(&bytes), inconsistent("t_width does not match T"));

    let mut bytes = plain();
    bytes[24] = 200;
    assert_eq!(open(&bytes), Err(LayoutError::Truncated));
    assert_eq!(open(&plain()[..159]), Err(LayoutError::Truncated));
}

#[test]
fn levels_are_checked_against_their_data() {
    let dir = HEADER_SIZE;
    let cases: [(usize, u64, &'static str); 4] = [
        (16, 11, "invalid position metadata"),
        (16, 600, "invalid position metadata"),
        (88, 7, "invalid occurrence metadata"),
        (96, 3, "invalid occurrence metadata"),
    ];
    for (at, value, detail) in cases {
        let mut bytes = plain();
        put_u64(&mut bytes, dir + at, value);
        assert_eq!(open(&bytes), inconsistent(detail), "offset {at}");
    }

    let mut bytes = plain();
    put_u32(&mut bytes, dir + 32, 0);
    assert_eq!(open(&bytes), inconsistent("invalid superblock metadata"));

    let mut bytes = plain();
    put_u32(&mut bytes, 320, 1);
    assert_eq!(open(&bytes), inconsistent("invalid select-sample metadata"));

    let mut bytes = plain();
    bytes[192 + 1] = 1;
    assert_eq!(open(&bytes), inconsistent("invalid data-line padding"));

    let mut bytes = plain();
    bytes[256] = 9;
    assert_eq!(open(&bytes), inconsistent("invalid rank-support data"));

    // a data line fewer than the rows need
    let mut bytes = plain();
    put_u32(&mut bytes, dir + 8, 0);
    assert_eq!(open(&bytes), inconsistent("invalid position metadata"));

    // sections that leave the container
    for at in [0, 24, 40] {
        let mut bytes = plain();
        put_u64(&mut bytes, dir + at, u64::MAX);
        assert_eq!(open(&bytes), Err(LayoutError::Truncated));
    }
    let mut bytes = plain();
    put_u64(&mut bytes, dir, 193);
    assert_eq!(open(&bytes), Err(LayoutError::Misaligned));
}

#[test]
fn base_addresses_are_checked() {
    let bytes = plain();
    for addr in [0usize, 64, 4_096] {
        let view = QwtView::<u32, 256>::from_bytes_at(&bytes, addr).unwrap();
        assert_eq!(view.get(1), Some(2));
    }
    for addr in [1usize, 32, 63] {
        assert_eq!(
            QwtView::<u32, 256>::from_bytes_at(&bytes, addr).unwrap_err(),
            LayoutError::Misaligned
        );
    }
    let bytes = hqwt256_to_bytes(&HQWT256::from(vec![1u32, 2, 3, 0, 2]).unwrap()).unwrap();
    assert!(HqwtView::<u32, 256>::from_bytes_at(&bytes, 128).is_ok());
    assert_eq!(
        HqwtView::<u32, 256>::from_bytes_at(&bytes, 8).unwrap_err(),
        LayoutError::Misaligned
    );
}

#[test]
fn aligned_copies() {
    assert!(AlignedBytes::from_slice(&[]).as_slice().is_empty());
    for len in [1usize, 63, 64, 1_000] {
        let bytes: Vec<u8> = (0..len).map(|i| i as u8).collect();
        let aligned = AlignedBytes::from_slice(&bytes);
        assert_eq!(aligned.as_slice(), bytes);
        assert_eq!(aligned.as_slice().as_ptr() as usize % 64, 0);
    }
}

#[test]
fn containers_with_large_blocks() {
    let data: Vec<u16> = (0..9_000u32).map(|i| (i * 31 % 777) as u16).collect();
    let tree = QWT512::from(data.clone());
    let bytes = qwt_to_bytes(&tree).unwrap();
    assert_eq!(bytes[6], 1);
    let aligned = AlignedBytes::from_slice(&bytes);
    let view = QwtView::<u16, 512>::from_bytes(aligned.as_slice()).unwrap();
    for i in (0..data.len()).step_by(13) {
        assert_eq!(view.get(i), Some(data[i]));
        assert_eq!(view.get_and_rank(i), tree.get_and_rank(i));
        assert_eq!(view.rank(data[i], i), tree.rank(data[i], i));
        let rank = view.rank(data[i], i).unwrap();
        assert_eq!(view.select(data[i], rank), Some(i));
    }
    assert_eq!(
        QwtView::<u16, 256>::from_bytes(aligned.as_slice()).unwrap_err(),
        LayoutError::Inconsistent {
            detail: "B_SIZE flag does not match requested type"
        }
    );

    let tree = HQWT512::from(data.clone()).unwrap();
    let bytes = hqwt_to_bytes(&tree).unwrap();
    let aligned = AlignedBytes::from_slice(&bytes);
    let view = HqwtView::<u16, 512>::from_bytes(aligned.as_slice()).unwrap();
    assert_eq!(view.codes_encode(), tree.codes_encode());
    assert_eq!(view.codes_decode(), tree.codes_decode());
    assert_eq!(view.level_lens(), tree.lens());
    assert_eq!(view.levels().len(), tree.n_levels());
    for i in (0..data.len()).step_by(13) {
        assert_eq!(view.get(i), Some(data[i]));
        assert_eq!(view.get_unchecked(i), data[i]);
        let rank = data[..i].iter().filter(|&&other| other == data[i]).count();
        assert_eq!(view.rank(data[i], i), Some(rank));
        assert_eq!(view.rank_unchecked(data[i], i), rank);
        assert_eq!(view.select(data[i], rank), Some(i));
        assert_eq!(view.select_unchecked(data[i], rank), i);
    }
    assert_eq!(view.get(data.len()), None);
    assert_eq!(view.rank(777, 0), None);
    assert_eq!(view.rank(data[0], data.len() + 1), None);
    assert_eq!(view.select(data[0], data.len()), None);
}

#[test]
fn truncated_code_tables() {
    let bytes = hqwt256_to_bytes(&HQWT256::from(vec![1u32, 2, 3, 0, 2]).unwrap()).unwrap();
    assert_eq!(open_huff(&bytes), Ok(5));
    assert_eq!(open_huff(&bytes[..40]), Err(LayoutError::Truncated));
    // the codes end behind the container
    let mut longer = bytes.clone();
    longer[18] = 0xff;
    longer[19] = 0xff;
    assert_eq!(open_huff(&longer), Err(LayoutError::Truncated));
    // a row of the decoding table ends behind the container
    let rows_at = HEADER_SIZE + LEVEL_DIR_SIZE + 8 + 4 * 8;
    let mut longer = bytes.clone();
    put_u32(&mut longer, rows_at, u32::MAX);
    assert_eq!(open_huff(&longer), Err(LayoutError::Truncated));
}

#[test]
fn too_many_codes_for_a_container() {
    let tree = HQWT256::from(vec![65_535u32, 1]).unwrap();
    assert_eq!(hqwt256_to_bytes(&tree), Err(LayoutError::TooLarge));
    let tree = HQWT256::from(vec![65_534u32, 1]).unwrap();
    assert!(hqwt256_to_bytes(&tree).is_ok());
}

#[test]
fn offsets() {
    assert_eq!(align_up(0, 64), 0);
    assert_eq!(align_up(1, 64), 64);
    assert_eq!(align_up(64, 64), 64);
    assert_eq!(align_up(65, 8), 72);
    assert_eq!(checked_region(4, 3, 4, 16), Ok(12));
    assert_eq!(checked_region(5, 3, 4, 16), Err(LayoutError::Truncated));
    assert_eq!(
        checked_region(usize::MAX, 1, 1, usize::MAX),
        Err(LayoutError::Truncated)
    );
    assert_eq!(
        checked_region(0, usize::MAX, 2, usize::MAX),
        Err(LayoutError::Truncated)
    );
}

#[test]
fn levels_answer_queries() {
    let digits: Vec<u8> = (0..20_000u32).map(|i| ((i * i / 7 + i) % 4) as u8).collect();
    let level = RSQVector256::new(&digits);
    let wide = RSQVector512::new(&digits);
    let view: RSQVectorView<'_, 256> = level.as_view();
    let wide_view: RSQVectorView<'_, 512> = wide.as_view();
    assert_eq!(view.len(), digits.len());
    let mut counts = [0usize; 4];
    for (i, &digit) in digits.iter().enumerate() {
        assert_eq!(view.get_unchecked(i), digit);
        assert_eq!(view.rank_all_unchecked(i), counts);
        for d in 0..4u8 {
            assert_eq!(view.rank_unchecked(d, i), counts[usize::from(d)]);
            assert_eq!(wide_view.rank_unchecked(d, i), counts[usize::from(d)]);
        }
        assert_eq!(view.select(digit, counts[usize::from(digit)]), Some(i));
        assert_eq!(wide_view.select(digit, counts[usize::from(digit)]), Some(i));
        counts[usize::from(digit)] += 1;
    }
    for d in 0..4u8 {
        assert_eq!(view.select(d, counts[usize::from(d)]), None);
    }
    assert_eq!(view.occs_smaller_unchecked(2), counts[0] + counts[1]);
}

#[test]
fn levels_can_be_drained_while_they_are_written() {
    let digits: Vec<u8> = (0..5_000u32).map(|i| (i % 3 + i / 4_000) as u8).collect();
    for wide in [false, true] {
        let mut whole = LevelEncoder::new(wide);
        let mut drained = LevelEncoder::new(wide);
        let mut data = Vec::new();
        let mut superblocks = Vec::new();
        let mut select = vec![Vec::new(); 4];
        for (row, &digit) in digits.iter().enumerate() {
            whole.push(digit, row as u64).unwrap();
            drained.push(digit, row as u64).unwrap();
            if row % 700 == 0 {
                let output = drained.take_output();
                data.extend(output.data);
                superblocks.extend(output.superblocks);
                for (list, bytes) in select.iter_mut().zip(output.select) {
                    list.extend(bytes);
                }
            }
        }
        let (output, summary) = whole.finish(digits.len() as u64).unwrap();
        let (rest, same) = drained.finish(digits.len() as u64).unwrap();
        data.extend(rest.data);
        superblocks.extend(rest.superblocks);
        for (list, bytes) in select.iter_mut().zip(rest.select) {
            list.extend(bytes);
        }
        assert_eq!(summary, same);
        assert_eq!(data, output.data);
        assert_eq!(superblocks, output.superblocks);
        assert_eq!(select, output.select);
        assert_eq!(summary.position_bits, 10_000);
        assert_eq!(summary.n_datalines, 20);
        assert_eq!(summary.n_superblocks, if wide { 2 } else { 3 });
        assert_eq!(
            summary.aux_bytes,
            (data.len() + superblocks.len()) as u64 + 4 * summary.n_sel.iter().sum::<u32>() as u64
        );
        assert_eq!(summary.n_occs_smaller[4], 5_000);
    }
}

#[test]
fn windows_begin_at_multiples_of_64() {
    assert_eq!(window_start(0), 0);
    assert_eq!(window_start(64), 0);
    assert_eq!(window_start(1), 63);
    assert_eq!(window_start(63), 1);
    assert_eq!(window_start(4096 + 8), 56);
}

#[test]
fn copies_begin_at_the_window() {
    let copy = aligned_copy(&[7, 8, 9], vec![0; 66], 1);
    assert_eq!(copy.as_slice(), &[7, 8, 9]);
    let copy = aligned_copy(&[], vec![0; 63], 64);
    assert!(copy.as_slice().is_empty());
}

// a code of three bits: its first two lead down, its last two back up
#[test]
fn selecting_by_a_code_with_an_odd_number_of_bits() {
    let tree = HQWT256::from(vec![0u8, 1, 2, 3, 2, 1]).unwrap();
    let mut bytes = hqwt256_to_bytes(&tree).unwrap();
    let at = align_up(HEADER_SIZE + HQWT_LEVEL_DIR_SIZE, 8);
    bytes[at..at + 8].copy_from_slice(&[0b101, 0, 0, 0, 3, 0, 0, 0]);
    let aligned = AlignedBytes::from_slice(&bytes);
    let view: HqwtView<'_, u8, 256> = HqwtView::from_bytes(aligned.as_slice()).unwrap();
    assert_eq!(view.codes_encode()[0].len, 3);
    // digit 2 belongs to symbol 1, digit 1 to symbol 2
    assert_eq!(view.rank(0, 6), Some(2));
    assert_eq!(view.select(0, 0), Some(2));
    assert_eq!(view.select(0, 1), Some(4));
    assert_eq!(view.select(0, 2), None);
    assert_eq!(view.select(1, 1), Some(5));
    assert_eq!(view.levels()[0].select(1, 1), Some(4));
    assert_eq!(view.levels()[0].rank_unchecked(2, 6), 2);
}
