//! Containers that are built in passes over a stream of symbols. Vectors stand
//! for the files.

use qwt::bytes::direct::{
    direct_source_bytes, plan_qwt256_u32_direct, scratch_upper_bound, validate_row_capacity,
    DirectQwtBuild, DirectQwtPlan, DIRECT_BLOCK_ROWS, DIRECT_STREAMS, MIN_STREAM_BUFFER_BYTES,
};
use qwt::bytes::direct_huff::{
    plan_hqwt256_u32_buffers, plan_hqwt256_u32_direct, validate_alphabet, DirectHqwtBuild,
    SymbolCounts, DIRECT_HUFF_STREAMS, HUFF_METADATA_BYTES_PER_SYMBOL, HUFF_METADATA_FIXED_BYTES,
};
use qwt::bytes::encoder::LevelOutput;
use qwt::bytes::passes::FinishedLevel;
use qwt::bytes::{
    check_host_order, ensure_le, hqwt256_to_bytes, hqwt256_u32_output_upper_bound, order_probe,
    qwt256_to_bytes, qwt256_u32_output_upper_bound, AlignedBytes, DirectQwtBuildBudget, DirectQwtBuildError,
    DirectQwtBuildStats, HqwtView, LayoutError, QwtView,
};
use qwt::{HQWT256, QWT256};

/// The sections of one level.
struct LevelFiles {
    data: Vec<u8>,
    superblocks: Vec<u8>,
    select: [Vec<u8>; 4],
}

impl LevelFiles {
    fn new() -> Self {
        LevelFiles {
            data: Vec::new(),
            superblocks: Vec::new(),
            select: [Vec::new(), Vec::new(), Vec::new(), Vec::new()],
        }
    }

    fn append(&mut self, output: &LevelOutput) {
        self.data.extend_from_slice(&output.data);
        self.superblocks.extend_from_slice(&output.superblocks);
        for (file, bytes) in self.select.iter_mut().zip(&output.select) {
            file.extend_from_slice(bytes);
        }
    }

    fn len(&self) -> u64 {
        let select: usize = self.select.iter().map(|file| file.len()).sum();
        (self.data.len() + self.superblocks.len() + select) as u64
    }

    /// Writes the sections where the directory entry says.
    fn place(&self, finished: &FinishedLevel, out: &mut Vec<u8>) {
        let dir = &finished.dir;
        put_at(out, dir.off_data, &self.data);
        put_at(out, dir.off_superblocks, &self.superblocks);
        for (offset, file) in dir.off_sel.iter().zip(&self.select) {
            put_at(out, *offset, file);
        }
    }
}

fn put_at(out: &mut Vec<u8>, offset: u64, bytes: &[u8]) {
    let end = offset as usize + bytes.len();
    if out.len() < end {
        out.resize(end, 0);
    }
    out[offset as usize..end].copy_from_slice(bytes);
}

fn budget(rows: u64) -> DirectQwtBuildBudget {
    DirectQwtBuildBudget {
        buffer_bytes: DIRECT_STREAMS * MIN_STREAM_BUFFER_BYTES,
        scratch_bytes: rows.saturating_mul(16).saturating_add(1 << 20),
    }
}

fn huff_budget(rows: u64, alphabet_size: u32) -> DirectQwtBuildBudget {
    DirectQwtBuildBudget {
        buffer_bytes: u64::from(alphabet_size)
            .saturating_mul(HUFF_METADATA_BYTES_PER_SYMBOL)
            .saturating_add(1 << 20),
        scratch_bytes: rows.saturating_mul(16).saturating_add(1 << 20),
    }
}

fn plan(
    values: &[u32],
    rows: u64,
    sigma: u32,
    budget: DirectQwtBuildBudget,
) -> Result<DirectQwtPlan, DirectQwtBuildError> {
    direct_source_bytes(ensure_le(), false, rows, false)?;
    plan_qwt256_u32_direct(rows, sigma, 4 * values.len() as u64, budget)
}

fn build_qwt(
    values: &[u32],
    rows: u64,
    sigma: u32,
    budget: DirectQwtBuildBudget,
) -> Result<(Vec<u8>, DirectQwtBuildStats), DirectQwtBuildError> {
    let plan = plan(values, rows, sigma, budget)?;
    let mut build = DirectQwtBuild::new(&plan);
    let mut out = vec![0u8; plan.payload_start as usize];
    let mut current = values.to_vec();
    let mut peak = if plan.levels == 0 { 0 } else { plan.source_bytes };
    for _ in 0..plan.levels {
        let mut files = LevelFiles::new();
        let mut buckets: [Vec<u32>; 4] = [Vec::new(), Vec::new(), Vec::new(), Vec::new()];
        for (row, &symbol) in current.iter().enumerate() {
            if let Some(bucket) = build.push(symbol)? {
                buckets[usize::from(bucket)].push(symbol);
            }
            if row % 1_000 == 999 {
                files.append(&build.take_output());
            }
        }
        let finished = build.end_level()?;
        files.append(&finished.output);
        let partition: u64 = buckets.iter().map(|bucket| 4 * bucket.len() as u64).sum();
        peak = peak.max(plan.source_bytes + partition + files.len());
        files.place(&finished, &mut out);
        current = buckets.concat();
    }
    let (front, stats) = build.finish();
    put_at(&mut out, 0, &front);
    assert_eq!(stats.peak_scratch_bytes, peak);
    Ok((out, stats))
}

fn build_hqwt(
    values: &[u32],
    alphabet_size: u32,
    budget: DirectQwtBuildBudget,
) -> Result<(Vec<u8>, DirectQwtBuildStats), DirectQwtBuildError> {
    let rows = values.len() as u64;
    direct_source_bytes(ensure_le(), false, rows, true)?;
    validate_alphabet(rows, alphabet_size)?;
    plan_hqwt256_u32_buffers(rows, alphabet_size, 4 * rows, budget)?;
    let mut counts = SymbolCounts::new(alphabet_size);
    for &symbol in values {
        counts.push(symbol)?;
    }
    let frequencies = counts.finish(false)?;
    let plan = plan_hqwt256_u32_direct(rows, &frequencies, budget)?;
    let levels = plan.levels;
    let mut out = vec![0u8; plan.payload_start as usize];
    let mut build = DirectHqwtBuild::new(plan);
    let mut current = values.to_vec();
    for _ in 0..levels {
        let mut files = LevelFiles::new();
        let mut buckets = vec![Vec::new(); 5];
        for (row, &symbol) in current.iter().enumerate() {
            if let Some(bucket) = build.push(symbol)? {
                buckets[usize::from(bucket)].push(symbol);
            }
            if row % 777 == 0 {
                files.append(&build.take_output());
            }
        }
        let finished = build.end_level()?;
        files.append(&finished.output);
        files.place(&finished, &mut out);
        current = buckets.concat();
    }
    let (front, stats) = build.finish();
    put_at(&mut out, 0, &front);
    Ok((out, stats))
}

#[test]
fn direct_qwtb_matches_owned_bytes_and_queries() {
    let values: Vec<u32> = (0..25_013)
        .map(|row| ((row * 17 + row / 11) % 1_003) as u32)
        .collect();
    let sigma = *values.iter().max().unwrap();
    let rows = values.len() as u64;
    let (direct, stats) = build_qwt(&values, rows, sigma, budget(rows)).unwrap();
    let owned = qwt256_to_bytes(&QWT256::from(values.clone())).unwrap();
    assert_eq!(direct, owned);
    assert_eq!(stats.output_bytes, direct.len() as u64);
    assert!(stats.output_bytes <= qwt256_u32_output_upper_bound(rows, sigma).unwrap());
    assert!(stats.peak_scratch_bytes <= budget(rows).scratch_bytes);

    let direct = AlignedBytes::from_slice(&direct);
    let view = QwtView::<u32, 256>::from_bytes(direct.as_slice()).unwrap();
    for &row in &[0usize, 1, 255, 256, 8_192, values.len() - 1] {
        assert_eq!(view.get(row), Some(values[row]));
    }
    let owned_tree = QWT256::from(values.clone());
    for &symbol in &[0u32, 1, 17, 500, sigma] {
        for &end in &[0usize, 1, 257, 10_000, values.len()] {
            assert_eq!(view.rank(symbol, end), owned_tree.rank(symbol, end));
        }
        let count = owned_tree.rank(symbol, values.len()).unwrap_or(0);
        for occurrence in 0..count.min(3) {
            assert_eq!(
                view.select(symbol, occurrence),
                owned_tree.select(symbol, occurrence)
            );
        }
    }
    for &(start, end) in &[(0usize, values.len()), (17, 1_337), (8_191, 16_777)] {
        assert_eq!(
            view.extract_range_distinct(start..end),
            owned_tree.extract_range_distinct(start..end)
        );
    }
}

#[test]
fn direct_qwtb_empty_matches_owned() {
    let (direct, stats) = build_qwt(&[], 0, 0, budget(0)).unwrap();
    let owned = qwt256_to_bytes(&QWT256::from(Vec::<u32>::new())).unwrap();
    assert_eq!(direct, owned);
    assert_eq!(stats.peak_scratch_bytes, 0);
    assert_eq!(stats.levels, 0);
}

#[test]
fn direct_qwtb_matches_owned_at_level_and_block_boundaries() {
    let cases: [Vec<u32>; 3] = [
        vec![0u32; 8_193],
        (0..2_049).map(|row| (row % 4) as u32).collect(),
        (0..8_193).map(|row| (row % 5) as u32).collect(),
    ];
    for values in cases {
        let sigma = *values.iter().max().unwrap();
        let rows = values.len() as u64;
        let (direct, _) = build_qwt(&values, rows, sigma, budget(rows)).unwrap();
        assert_eq!(direct, qwt256_to_bytes(&QWT256::from(values)).unwrap());
    }
}

#[test]
fn direct_qwtb_enforces_budget_and_cleans_scratch() {
    let values: Vec<u32> = (0..10_000).map(|row| (row % 257) as u32).collect();
    let rows = values.len() as u64;
    let buffer_error = build_qwt(
        &values,
        rows,
        256,
        DirectQwtBuildBudget {
            buffer_bytes: DIRECT_STREAMS * MIN_STREAM_BUFFER_BYTES - 1,
            scratch_bytes: u64::MAX,
        },
    )
    .unwrap_err();
    assert_eq!(
        buffer_error,
        DirectQwtBuildError::BufferBudget { required: 24_576, limit: 24_575 }
    );
    let error = build_qwt(
        &values,
        rows,
        256,
        DirectQwtBuildBudget {
            buffer_bytes: DIRECT_STREAMS * MIN_STREAM_BUFFER_BYTES,
            scratch_bytes: 1,
        },
    )
    .unwrap_err();
    // 80,000 bytes of source and buckets, 40 data lines, 5 superblocks and 10
    // select samples of one level
    assert_eq!(
        error,
        DirectQwtBuildError::ScratchBudget {
            required: 80_000 + 40 * 64 + 5 * 64 + 10 * 4,
            limit: 1
        }
    );
}

#[test]
fn direct_qwtb_rejects_unrepresentable_data_line_count_up_front() {
    let error = plan(
        &[],
        u64::from(u32::MAX) * DIRECT_BLOCK_ROWS + 1,
        0,
        DirectQwtBuildBudget {
            buffer_bytes: u64::MAX,
            scratch_bytes: u64::MAX,
        },
    )
    .unwrap_err();
    assert!(matches!(error, DirectQwtBuildError::InvalidInput(_)));
}

fn assert_exact(values: Vec<u32>) {
    let alphabet_size = values.iter().copied().max().map_or(0, |value| value + 1);
    let rows = values.len() as u64;
    let expected = hqwt256_to_bytes(&HQWT256::from(values.clone()).unwrap()).unwrap();
    let (actual, stats) =
        build_hqwt(&values, alphabet_size, huff_budget(rows, alphabet_size)).unwrap();
    assert_eq!(actual, expected);
    assert_eq!(stats.output_bytes, actual.len() as u64);
    assert!(stats.output_bytes <= hqwt256_u32_output_upper_bound(rows, alphabet_size).unwrap());
    assert!(stats.peak_scratch_bytes <= huff_budget(rows, alphabet_size).scratch_bytes);

    let aligned = AlignedBytes::from_slice(&actual);
    let view = HqwtView::<u32, 256>::from_bytes(aligned.as_slice()).unwrap();
    for (position, &value) in values.iter().enumerate() {
        assert_eq!(view.get(position), Some(value));
    }
    for symbol in 0..alphabet_size {
        for position in (0..=values.len()).step_by(37) {
            let expected_rank = values[..position]
                .iter()
                .filter(|&&value| value == symbol)
                .count();
            assert_eq!(view.rank(symbol, position), Some(expected_rank));
        }
        let positions = values
            .iter()
            .enumerate()
            .filter_map(|(position, &value)| (value == symbol).then_some(position));
        for (occurrence, position) in positions.enumerate().take(4) {
            assert_eq!(view.select(symbol, occurrence), Some(position));
        }
    }
}

#[test]
fn exact_bytes_empty_and_single_symbol() {
    assert_exact(Vec::new());
    assert_exact(vec![0; 8_193]);
}

#[test]
fn exact_bytes_skewed_multilevel_and_support_boundaries() {
    let mut values = (0..8_193)
        .map(|row| match row % 17 {
            0..=9 => 0,
            10..=12 => 1,
            13..=14 => 2,
            15 => 3,
            _ => 4,
        })
        .collect::<Vec<_>>();
    values.extend(0..17);
    assert_exact(values);
}

#[test]
fn rejects_non_dense_local_alphabet_and_cleans_scratch() {
    let error = build_hqwt(&[0, 2, 0, 2], 3, huff_budget(4, 3)).unwrap_err();
    assert_eq!(
        error,
        DirectQwtBuildError::InvalidInput("local Huffman alphabet contains an unused symbol")
    );
}

#[test]
fn enforces_buffer_and_scratch_budgets() {
    let values = (0..10_000).map(|row| (row % 5) as u32).collect::<Vec<_>>();
    let required_buffer = HUFF_METADATA_FIXED_BYTES
        + 5 * HUFF_METADATA_BYTES_PER_SYMBOL
        + DIRECT_HUFF_STREAMS * MIN_STREAM_BUFFER_BYTES;
    let buffer_error = build_hqwt(
        &values,
        5,
        DirectQwtBuildBudget {
            buffer_bytes: required_buffer - 1,
            scratch_bytes: u64::MAX,
        },
    )
    .unwrap_err();
    assert_eq!(
        buffer_error,
        DirectQwtBuildError::BufferBudget {
            required: required_buffer,
            limit: required_buffer - 1
        }
    );
    let scratch_error = build_hqwt(
        &values,
        5,
        DirectQwtBuildBudget {
            buffer_bytes: required_buffer,
            scratch_bytes: 1,
        },
    )
    .unwrap_err();
    assert!(matches!(
        scratch_error,
        DirectQwtBuildError::ScratchBudget { limit: 1, .. }
    ));
}

#[test]
fn row_capacity_is_checked_for_both_formats() {
    let most = u64::from(u32::MAX) * DIRECT_BLOCK_ROWS;
    assert_eq!(validate_row_capacity(most, false), Ok(()));
    assert_eq!(
        validate_row_capacity(most + 1, false),
        Err(DirectQwtBuildError::InvalidInput(
            "row count exceeds QWTB data-line capacity"
        ))
    );
    assert_eq!(
        validate_row_capacity(most + 1, true),
        Err(DirectQwtBuildError::InvalidInput(
            "row count exceeds HQWB data-line capacity"
        ))
    );
    assert_eq!(
        validate_row_capacity(1 << 43, true),
        Err(DirectQwtBuildError::InvalidInput(
            "row count exceeds QWT256 rank/select capacity"
        ))
    );
}

#[test]
fn output_bounds_have_their_values() {
    // header and one entry fill 192 bytes; a data line, a superblock, 9 select
    // samples and 128 bytes of slack
    assert_eq!(qwt256_u32_output_upper_bound(1, 0), Ok(192 + 64 + 64 + 36 + 128));
    assert_eq!(qwt256_u32_output_upper_bound(0, 77), Ok(64));
    // sixteen levels at most
    assert_eq!(
        hqwt256_u32_output_upper_bound(1, 1),
        Ok(2_368 + 16 * (64 + 64 + 36 + 128))
    );
    assert_eq!(
        hqwt256_u32_output_upper_bound(0, 1),
        Err(DirectQwtBuildError::InvalidInput(
            "empty input and zero alphabet size must agree"
        ))
    );
    assert_eq!(
        hqwt256_u32_output_upper_bound(70_000, 65_536),
        Err(DirectQwtBuildError::InvalidInput(
            "local Huffman alphabet exceeds HQWB u16 code-table capacity"
        ))
    );
    assert!(hqwt256_u32_output_upper_bound(1 << 43, 1).is_err());
    assert!(qwt256_u32_output_upper_bound(1 << 43, 1).is_err());
}

#[test]
fn scratch_bounds_have_their_values() {
    assert_eq!(scratch_upper_bound(5, 0, "a", "b"), Ok(0));
    assert_eq!(scratch_upper_bound(5, 1, "a", "b"), Ok(20 + 64 + 64 + 36));
    assert_eq!(scratch_upper_bound(5, 2, "a", "b"), Ok(40 + 64 + 64 + 36));
    assert_eq!(
        scratch_upper_bound(1 << 62, 1, "a", "b"),
        Err(DirectQwtBuildError::Overflow("a"))
    );
    assert_eq!(
        scratch_upper_bound((1 << 62) - 1, 2, "a", "b"),
        Err(DirectQwtBuildError::Overflow("b"))
    );
}

#[test]
fn direct_source_is_checked_in_order() {
    assert_eq!(direct_source_bytes(Ok(()), false, 12, false), Ok(48));
    assert_eq!(
        direct_source_bytes(Err(LayoutError::BigEndian), true, u64::MAX, false),
        Err(DirectQwtBuildError::InvalidInput("big-endian host"))
    );
    assert_eq!(
        direct_source_bytes(Ok(()), true, u64::MAX, false),
        Err(DirectQwtBuildError::InvalidInput(
            "source and output paths must differ"
        ))
    );
    assert!(direct_source_bytes(Ok(()), false, u64::MAX, false).is_err());
    assert_eq!(
        plan_qwt256_u32_direct(3, 7, 13, budget(3)),
        Err(DirectQwtBuildError::InvalidInput(
            "source length does not equal rows * 4"
        ))
    );
    let plan = plan_qwt256_u32_direct(3, 7, 12, budget(3)).unwrap();
    assert_eq!(plan.levels, 2);
    assert_eq!(plan.payload_start, 320);
    assert_eq!(plan.per_stream_buffer, 4_096);
    assert_eq!(plan.copy_buffer_len, 24_576);
}

#[test]
fn direct_qwtb_checks_symbols_and_counts() {
    let plan = plan_qwt256_u32_direct(3, 7, 12, budget(3)).unwrap();

    let mut build = DirectQwtBuild::new(&plan);
    assert_eq!(
        build.push(8),
        Err(DirectQwtBuildError::InvalidInput(
            "source symbol exceeds declared sigma"
        ))
    );

    let mut build = DirectQwtBuild::new(&plan);
    assert!(build.passes().needs_partition());
    assert_eq!(build.push(7), Ok(Some(1)));
    assert_eq!(build.push(2), Ok(Some(0)));
    assert_eq!(
        build.end_level().err(),
        Some(DirectQwtBuildError::InvalidInput(
            "partitioned source row count changed between levels"
        ))
    );
    assert_eq!(build.push(6), Ok(Some(1)));
    assert_eq!(build.passes().seen(), 3);
    assert!(build.end_level().is_ok());
    assert_eq!(build.passes().level(), 1);
    assert!(!build.passes().needs_partition());
    assert_eq!(build.push(2), Ok(None));

    let mut build = DirectQwtBuild::new(&plan);
    for symbol in [6, 2, 5] {
        build.push(symbol).unwrap();
    }
    assert_eq!(
        build.end_level().err(),
        Some(DirectQwtBuildError::InvalidInput(
            "declared sigma is not the maximum source symbol"
        ))
    );
}

#[test]
fn direct_hqwb_checks_symbols_and_counts() {
    let mut counts = SymbolCounts::new(2);
    assert_eq!(
        counts.push(2),
        Err(DirectQwtBuildError::InvalidInput(
            "source symbol exceeds local alphabet"
        ))
    );
    for symbol in [0, 1, 0] {
        counts.push(symbol).unwrap();
    }
    assert_eq!(counts.finish(false), Ok(vec![2, 1]));
    assert_eq!(
        SymbolCounts::new(0).finish(true),
        Err(DirectQwtBuildError::InvalidInput(
            "source contains trailing rows"
        ))
    );

    let plan = plan_hqwt256_u32_direct(3, &vec![2, 1], huff_budget(3, 2)).unwrap();
    let mut build = DirectHqwtBuild::new(plan);
    assert_eq!(
        build.push(2),
        Err(DirectQwtBuildError::InvalidInput(
            "partition symbol exceeds local alphabet"
        ))
    );
    assert_eq!(
        build.end_level().err(),
        Some(DirectQwtBuildError::InvalidInput(
            "partitioned source row count changed between levels"
        ))
    );
    assert_eq!(
        plan_hqwt256_u32_buffers(3, 2, 13, huff_budget(3, 2)),
        Err(DirectQwtBuildError::InvalidInput(
            "source length does not equal rows * 4"
        ))
    );
    let buffers = plan_hqwt256_u32_buffers(3, 2, 12, huff_budget(3, 2)).unwrap();
    assert_eq!(buffers.per_stream_buffer, (256 + (1 << 20) - 256 - 4_096) / 7);
    assert_eq!(buffers.copy_buffer_len, (1 << 20) - 4_096);
}

#[test]
fn too_long_codes_are_refused() {
    // four symbols of weight one, then three of each power of four: every
    // power makes the codes longer by a pair of bits
    let weights = |powers: u32| -> Vec<usize> {
        let mut weights = vec![1usize; 4];
        for power in 1..=powers {
            weights.extend([4usize.pow(power); 3]);
        }
        weights
    };
    let longest = weights(15);
    let rows: u64 = longest.iter().map(|weight| *weight as u64).sum();
    let plan = plan_hqwt256_u32_direct(rows, &longest, huff_budget(rows, 49)).unwrap();
    assert_eq!(plan.levels, 16);
    assert!(plan.codes.iter().all(|code| code.len > 0 && code.len % 2 == 0));

    let longer = weights(16);
    let rows: u64 = longer.iter().map(|weight| *weight as u64).sum();
    assert_eq!(
        plan_hqwt256_u32_direct(rows, &longer, huff_budget(rows, 52)).err(),
        Some(DirectQwtBuildError::InvalidInput(
            "Huffman code exceeds the HQWB u32 representation"
        ))
    );
}

#[test]
fn only_little_endian_hosts_are_accepted() {
    assert_eq!(check_host_order(u16::from_le_bytes([1, 0])), Ok(()));
    assert_eq!(
        check_host_order(u16::from_be_bytes([1, 0])),
        Err(LayoutError::BigEndian)
    );
    assert_eq!(order_probe(), [1, 0]);
    assert_eq!(ensure_le(), check_host_order(u16::from_ne_bytes([1, 0])));
}

// four symbols take one level, five take two
#[test]
fn the_scratch_of_a_plan_is_that_of_its_levels() {
    for (frequencies, levels) in [(vec![2, 1, 1, 1], 1u16), (vec![1, 1, 1, 1, 1], 2)] {
        let required = scratch_upper_bound(5, levels, "source", "total").unwrap();
        let budget = |scratch_bytes: u64| DirectQwtBuildBudget {
            buffer_bytes: 1 << 20,
            scratch_bytes,
        };
        let plan = plan_hqwt256_u32_direct(5, &frequencies, budget(required)).unwrap();
        assert_eq!(plan.levels, levels);
        assert_eq!(plan.scratch_required, required);
        assert_eq!(
            plan_hqwt256_u32_direct(5, &frequencies, budget(required - 1)).err(),
            Some(DirectQwtBuildError::ScratchBudget {
                required,
                limit: required - 1,
            })
        );
    }
}

// symbols of equal frequency, some with longer codes than others
#[test]
fn direct_and_owned_builds_agree_on_ties() {
    for size in [5u32, 6, 7, 17, 18, 30] {
        let values: Vec<u32> = (0..size * 7).map(|i| i * 11 % size).collect();
        let (bytes, _) = build_hqwt(&values, size, huff_budget(values.len() as u64, size)).unwrap();
        let owned = hqwt256_to_bytes(&HQWT256::from(values).unwrap()).unwrap();
        assert_eq!(bytes, owned);
    }
}
