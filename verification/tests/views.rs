//! Containers, opened where they lie.

use qwt::bytes::{
    hqwt256_to_bytes, qwt256_to_bytes, AlignedBytes, HqwtView, LayoutError, QwtView, HEADER_SIZE,
    LEVEL_DIR_SIZE,
};
use qwt::{HQWT256, QWT256};

#[test]
fn qwt_view_matches_owned() {
    let data: Vec<u32> = (0..1000).map(|x| (x * 3) % 128).collect();
    let original = QWT256::from(data.clone());
    let bytes = qwt256_to_bytes(&original).unwrap();
    let aligned = AlignedBytes::from_slice(&bytes);
    let view: QwtView<'_, u32, 256> = QwtView::from_bytes(aligned.as_slice()).unwrap();

    assert_eq!(view.len(), original.len());
    assert_eq!(view.n_levels(), original.n_levels());
    assert_eq!(view.sigma_raw(), original.sigma_raw());

    for i in 0..data.len() {
        assert_eq!(view.get(i), original.get(i), "get@{i}");
    }
    for &sym in &[0u32, 1, 5, 64, 127] {
        for i in (0..=data.len()).step_by(31) {
            assert_eq!(view.rank(sym, i), original.rank(sym, i), "rank({sym},{i})");
        }
        if let Some(cnt) = original.rank(sym, data.len()) {
            for k in 0..cnt.min(3) {
                assert_eq!(
                    view.select(sym, k),
                    original.select(sym, k),
                    "select({sym},{k})"
                );
            }
        }
    }
}

#[test]
fn qwt_view_empty() {
    let mut empty: Vec<u32> = vec![];
    let original = QWT256::new(&mut empty);
    let bytes = qwt256_to_bytes(&original).unwrap();
    let aligned = AlignedBytes::from_slice(&bytes);
    let view: QwtView<'_, u32, 256> = QwtView::from_bytes(aligned.as_slice()).unwrap();
    assert_eq!(view.len(), 0);
    assert!(view.is_empty());
    assert_eq!(view.n_levels(), 0);
    assert_eq!(view.get(0), None);
}

#[test]
fn qwt_view_rejects_unaligned_base() {
    // Build a blob, then force the slice start to be 1-mod-64 so cast fails
    // when there is at least one level with POD payload.
    let original = QWT256::from(vec![1u32, 2, 3, 4, 5, 6, 7, 8]);
    let bytes = qwt256_to_bytes(&original).unwrap();
    // Pad so we can take an unaligned window that still has the full blob.
    let mut padded = vec![0u8; 1];
    padded.extend_from_slice(&bytes);
    // padded[1..] has base = padded.as_ptr()+1. If that is not 64-aligned
    // (almost always), from_bytes should fail with Misaligned when casting.
    let slice = &padded[1..];
    let addr = slice.as_ptr() as usize;
    if !addr.is_multiple_of(64) && original.n_levels() > 0 {
        let err = QwtView::<u32, 256>::from_bytes(slice).unwrap_err();
        assert_eq!(err, LayoutError::Misaligned);
    }
}

#[test]
fn qwt_view_rejects_tree_level_length_mismatch() {
    let original = QWT256::from(vec![1u32, 2, 3, 4, 5]);
    let mut bytes = qwt256_to_bytes(&original).unwrap();
    bytes[8..16].copy_from_slice(&6u64.to_le_bytes());
    let aligned = AlignedBytes::from_slice(&bytes);
    let err = QwtView::<u32, 256>::from_bytes(aligned.as_slice()).unwrap_err();
    assert_eq!(
        err,
        LayoutError::Inconsistent {
            detail: "QWT level length does not match tree length"
        }
    );
}

#[test]
fn qwt_view_rejects_missing_select_sentinel() {
    let original = QWT256::from(vec![1u32, 2, 3, 4, 5]);
    let mut bytes = qwt256_to_bytes(&original).unwrap();
    let first_n_sel = HEADER_SIZE + 72;
    bytes[first_n_sel..first_n_sel + 4].copy_from_slice(&1u32.to_le_bytes());
    let aligned = AlignedBytes::from_slice(&bytes);
    let err = QwtView::<u32, 256>::from_bytes(aligned.as_slice()).unwrap_err();
    assert_eq!(
        err,
        LayoutError::Inconsistent {
            detail: "invalid select-sample metadata"
        }
    );
}

#[test]
fn hqwt_view_matches_owned() {
    let data: Vec<u32> = (0..500).map(|x| (x * 7) % 64).collect();
    let original = HQWT256::from(data.clone()).unwrap();
    let bytes = hqwt256_to_bytes(&original).unwrap();
    let aligned = AlignedBytes::from_slice(&bytes);
    let view: HqwtView<'_, u32, 256> = HqwtView::from_bytes(aligned.as_slice()).unwrap();

    assert_eq!(view.len(), original.len());
    assert_eq!(view.n_levels(), original.n_levels());

    for i in 0..data.len() {
        assert_eq!(view.get(i), original.get(i), "get@{i}");
    }
    for &sym in &[0u32, 1, 7, 31, 63] {
        for i in (0..=data.len()).step_by(29) {
            assert_eq!(view.rank(sym, i), original.rank(sym, i), "rank({sym},{i})");
        }
        if let Some(cnt) = original.rank(sym, data.len()) {
            for k in 0..cnt.min(3) {
                assert_eq!(
                    view.select(sym, k),
                    original.select(sym, k),
                    "select({sym},{k})"
                );
            }
        }
    }
}

#[test]
fn hqwt_view_empty() {
    let mut empty: Vec<u32> = vec![];
    let original = HQWT256::new(&mut empty).unwrap();
    let bytes = hqwt256_to_bytes(&original).unwrap();
    let aligned = AlignedBytes::from_slice(&bytes);
    let view: HqwtView<'_, u32, 256> = HqwtView::from_bytes(aligned.as_slice()).unwrap();
    assert_eq!(view.len(), 0);
    assert!(view.is_empty());
}

#[test]
fn hqwt_view_bad_magic() {
    let bytes = hqwt256_to_bytes(&HQWT256::from(vec![1u32, 2, 3]).unwrap()).unwrap();
    // Corrupt magic in a fresh aligned copy.
    let mut raw = bytes.clone();
    raw[0] = b'X';
    let aligned = AlignedBytes::from_slice(&raw);
    let err = HqwtView::<u32, 256>::from_bytes(aligned.as_slice()).unwrap_err();
    assert_eq!(err, LayoutError::BadMagic);
}

#[test]
fn hqwt_view_rejects_level_length_beyond_payload() {
    let original = HQWT256::from(vec![1u32, 2, 3, 4, 5]).unwrap();
    let mut bytes = hqwt256_to_bytes(&original).unwrap();
    let first_level_len = HEADER_SIZE + LEVEL_DIR_SIZE;
    bytes[first_level_len..first_level_len + 8].copy_from_slice(&6u64.to_le_bytes());
    let aligned = AlignedBytes::from_slice(&bytes);
    let err = HqwtView::<u32, 256>::from_bytes(aligned.as_slice()).unwrap_err();
    assert_eq!(
        err,
        LayoutError::Inconsistent {
            detail: "HQWT logical level length exceeds payload"
        }
    );
}

#[test]
fn qwt_view_extract_matches_owned() {
    let data: Vec<u32> = (0..500).map(|x| (x * 7) % 64).collect();
    let original = QWT256::from(data.clone());
    let bytes = qwt256_to_bytes(&original).unwrap();
    let aligned = AlignedBytes::from_slice(&bytes);
    let view: QwtView<'_, u32, 256> = QwtView::from_bytes(aligned.as_slice()).unwrap();
    let n = data.len();

    // full range
    assert_eq!(view.extract_range(0..n), original.extract_range(0..n));
    assert_eq!(
        view.extract_range_distinct(0..n),
        original.extract_range_distinct(0..n)
    );

    // empty / oob
    assert!(view.extract_range(0..0).is_empty());
    assert!(view.extract_range(n..n).is_empty());
    assert!(view.extract_range(0..n + 1).is_empty());
    let reversed = std::ops::Range { start: 3, end: 2 };
    assert!(view.extract_range(reversed).is_empty());

    // subrange sweep
    for start in (0..=n).step_by(37) {
        for end in (start..=n).step_by(41) {
            let got = view.extract_range(start..end);
            let exp = original.extract_range(start..end);
            assert_eq!(got, exp, "multiset mismatch for {start}..{end}");

            let got_d = view.extract_range_distinct(start..end);
            let exp_d = original.extract_range_distinct(start..end);
            assert_eq!(got_d, exp_d, "distinct mismatch for {start}..{end}");

            // into API
            let mut buf = vec![99u32; 3];
            view.extract_range_distinct_into(start..end, &mut buf);
            assert_eq!(buf, exp_d);

            // also equals sort / sort+dedup of per-row get
            let mut per_row: Vec<_> = (start..end).map(|i| view.get(i).unwrap()).collect();
            per_row.sort_unstable();
            assert_eq!(got, per_row);
            let mut deduped = per_row.clone();
            deduped.dedup();
            assert_eq!(got_d, deduped);
        }
    }

    // singleton
    if n > 0 {
        assert_eq!(view.extract_range(0..1), original.extract_range(0..1));
        assert_eq!(
            view.extract_range_distinct(0..1),
            original.extract_range_distinct(0..1)
        );
    }
}

#[test]
fn qwt_view_get_and_rank_matches_owned() {
    let data: Vec<u32> = (0..300).map(|x| (x * 11) % 128).collect();
    let original = QWT256::from(data.clone());
    let bytes = qwt256_to_bytes(&original).unwrap();
    let aligned = AlignedBytes::from_slice(&bytes);
    let view: QwtView<'_, u32, 256> = QwtView::from_bytes(aligned.as_slice()).unwrap();

    assert_eq!(view.get_and_rank(data.len()), None);
    assert_eq!(original.get_and_rank(data.len()), None);

    for i in 0..data.len() {
        let v = view.get_and_rank(i).unwrap();
        let o = original.get_and_rank(i).unwrap();
        assert_eq!(v, o, "get_and_rank@{i}");
        // also matches get + rank(get, i+1)
        let sym = view.get(i).unwrap();
        assert_eq!(v.0, sym);
        assert_eq!(v.1, view.rank(sym, i + 1).unwrap());
    }
}

#[test]
fn qwt_view_extract_empty_tree() {
    let mut empty: Vec<u32> = vec![];
    let original = QWT256::new(&mut empty);
    let bytes = qwt256_to_bytes(&original).unwrap();
    let aligned = AlignedBytes::from_slice(&bytes);
    let view: QwtView<'_, u32, 256> = QwtView::from_bytes(aligned.as_slice()).unwrap();
    assert!(view.extract_range(0..0).is_empty());
    assert!(view.extract_range_distinct(0..0).is_empty());
    assert_eq!(view.get_and_rank(0), None);
}

#[test]
fn qwt_view_extract_large_alphabet() {
    let data: Vec<u32> = (0..800).map(|x| (x * 13) % 4000).collect();
    let original = QWT256::from(data.clone());
    let bytes = qwt256_to_bytes(&original).unwrap();
    let aligned = AlignedBytes::from_slice(&bytes);
    let view: QwtView<'_, u32, 256> = QwtView::from_bytes(aligned.as_slice()).unwrap();
    let n = data.len();

    for &(start, end) in &[(0, n), (0, 1), (n / 3, 2 * n / 3), (n - 1, n), (10, 50)] {
        assert_eq!(
            view.extract_range(start..end),
            original.extract_range(start..end),
            "multiset {start}..{end}"
        );
        assert_eq!(
            view.extract_range_distinct(start..end),
            original.extract_range_distinct(start..end),
            "distinct {start}..{end}"
        );
    }

    for i in (0..n).step_by(23) {
        assert_eq!(
            view.get_and_rank(i),
            original.get_and_rank(i),
            "get_and_rank@{i}"
        );
    }
}
