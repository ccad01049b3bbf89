use fastvid::bitio::{BitReader, BitWriter};
use fastvid::entropy::best_rice_parameter;
use fastvid::model::{fold_bounded_residual, sample_max, unfold_bounded_residual};
use fastvid::predict::{
    Quantizer16, SpatialPredictor, quantization_step16, quantize, spatial_prediction16,
};
use fastvid::research::{
    Band, candidate_fits, forward_pair, horizontal_split, inverse_horizontal, inverse_pair, inverse_vertical,
    inverse_two_dimensional, plane_rice_bits, two_dimensional_split, vertical_split,
};
use fastvid::analysis::{ByteFormatModel, Order0SizeModel, model_varint_length, normalize_frequencies};
use fastvid::rans::sort_remainders;
use fastvid::{CodecError, Frame16, FrameRate, PixelFormat};

const MAX_RICE_PARAMETER16: u8 = 16;

fn rice_bytes(value: u32, parameter: u8, alignment: u8, fused: bool) -> Vec<u8> {
    let mut writer = BitWriter::new(Vec::new());
    writer.put_bits((1u32 << alignment) - 1, alignment);
    if fused {
        writer.put_rice(value, parameter);
    } else {
        writer.put_zeros(value >> parameter);
        writer.put_bits(1, 1);
        writer.put_bits(value, parameter);
    }
    writer.finish()
}

fn scalar_quantize(value: i32, step: i32) -> i32 {
    let magnitude = (value.abs() + step / 2) / step;
    if value < 0 { -magnitude } else { magnitude }
}

#[test]
fn high_bit_frames_validate_sample_range_and_raw_size() {
    let frame = Frame16::yuv422(
        3,
        2,
        10,
        FrameRate::new(24, 1),
        vec![0, 1, 2, 3, 1022, 1023],
        vec![512; 4],
        vec![1023; 4],
    )
    .unwrap();
    assert_eq!(frame.format, PixelFormat::Yuv422p10);
    assert_eq!(frame.raw_len(), 28);

    assert!(Frame16::gray(1, 1, 12, FrameRate::new(24, 1), vec![4096]).is_err());
    assert!(Frame16::gray(1, 1, 8, FrameRate::new(24, 1), vec![255]).is_err());
}

#[test]
fn every_supported_layout_depth_has_a_distinct_format() {
    for bit_depth in [8, 10, 12, 16] {
        for grayscale in [false, true] {
            let format = PixelFormat::from_layout_and_depth(grayscale, bit_depth).unwrap();
            assert_eq!(format.bit_depth(), bit_depth);
            assert_eq!(format.is_grayscale(), grayscale);
            assert_eq!(PixelFormat::from_code(format.code()).unwrap(), format);
        }
    }
}

#[test]
fn bounded_residual_mapping_is_bijective_for_every_8bit_encoder_interval() {
    for step in 1..=21 {
        for prediction in 0..=255 {
            let lower = scalar_quantize(-prediction, step);
            let upper = scalar_quantize(255 - prediction, step);
            let mut seen = vec![false; (upper - lower + 1) as usize];
            for value in lower..=upper {
                let folded = fold_bounded_residual(value, lower, upper);
                assert!(folded <= (upper - lower) as u32);
                assert_eq!(unfold_bounded_residual(folded, lower, upper), Some(value));
                assert!(!std::mem::replace(&mut seen[folded as usize], true));
            }
            assert!(seen.into_iter().all(|value| value));
            assert_eq!(fold_bounded_residual(0, lower, upper), 0);
        }
    }
}

#[test]
fn bounded_residual_mapping_covers_high_bit_endpoints() {
    for bit_depth in [10, 12, 16] {
        let maximum = i32::from(sample_max(bit_depth).unwrap());
        for step in [1, 1 + (2 << (bit_depth - 8))] {
            for prediction in [0, 1, maximum / 2, maximum - 1, maximum] {
                let lower = scalar_quantize(-prediction, step);
                let upper = scalar_quantize(maximum - prediction, step);
                for value in lower..=upper {
                    let folded = fold_bounded_residual(value, lower, upper);
                    assert!(folded <= (upper - lower) as u32);
                    assert_eq!(unfold_bounded_residual(folded, lower, upper), Some(value));
                }
            }
        }
    }
}

#[test]
fn reversible_pair_covers_unsigned_boundaries() {
    for first in 0..=u16::MAX {
        for second in [0, 1, 32767, 32768, 65534, 65535, first] {
            let transformed = forward_pair(i32::from(first), i32::from(second));
            assert_eq!(
                inverse_pair(transformed.0, transformed.1),
                (i32::from(first), i32::from(second))
            );
        }
    }
}

#[test]
fn reversible_pair_covers_signed_detail_extrema() {
    let values = [-131070, -65535, -1, 0, 1, 65535, 131070];
    for &first in &values {
        for &second in &values {
            let transformed = forward_pair(first, second);
            assert_eq!(inverse_pair(transformed.0, transformed.1), (first, second));
        }
    }
}

#[test]
fn candidate_bounds_reject_every_out_of_frame_shift() {
    assert!(candidate_fits(1920, 1080, 64, 64, 64, 64, -16, -16));
    assert!(!candidate_fits(1920, 1080, 0, 0, 64, 64, -4, 0));
    assert!(!candidate_fits(1920, 1080, 1856, 0, 64, 64, 4, 0));
    assert!(!candidate_fits(1920, 1080, 0, 1024, 64, 56, 0, 4));
}

#[test]
fn zero_translation_has_minimal_constant_block_cost() {
    let plane = vec![37u8; 64 * 64];
    assert_eq!(
        plane_rice_bits(&plane, &plane, 64, 0, 0, 64, 64, 0, 0, 1),
        3 + 64 * 64
    );
}

#[test]
fn widened_rice_codes_round_trip_extreme_residuals() {
    let values = [0, 1, 2, 510, 2046, 8190, 131_070];
    for parameter in 0..=MAX_RICE_PARAMETER16 {
        let mut writer = BitWriter::new(Vec::new());
        for value in values {
            writer.put_rice(value, parameter);
        }
        let payload = writer.finish();
        let mut reader = BitReader::new(&payload);
        for value in values {
            assert_eq!(reader.get_rice(parameter, 131_070).unwrap(), value);
        }
        reader.finish().unwrap();
    }
}

#[test]
fn fused_high_bit_rice_writer_matches_boundaries_and_fallbacks() {
    let mut values = vec![0, 1, 2, 255, 256, 65_535, 65_536, 131_070];
    for parameter in 0..=MAX_RICE_PARAMETER16 {
        for quotient in [0u32, 1, 47, 48, 55, 56, 62, 63, 64, 65] {
            let value = (quotient << parameter).min(131_070u32);
            values.push(value);
            values.push(value.saturating_add(1).min(131_070));
        }
    }
    values.sort_unstable();
    values.dedup();
    for parameter in 0..=MAX_RICE_PARAMETER16 {
        for &value in &values {
            for alignment in 0..8 {
                assert_eq!(
                    rice_bytes(value, parameter, alignment, true),
                    rice_bytes(value, parameter, alignment, false)
                );
            }
        }
    }
}

#[test]
fn specialized_four_symbol_rice_writer_matches_scalar_groups() {
    let groups = [
        [0, 1, 2, 3],
        [15, 16, 31, 32],
        [255, 256, 65_535, 65_536],
        [131_070, 0, 1, 2],
    ];
    for parameter in [0u8, 4] {
        for alignment in 0..8 {
            for values in groups {
                let mut scalar_writer = BitWriter::new(Vec::new());
                scalar_writer.put_bits(0, alignment);
                for value in values {
                    scalar_writer.put_rice(value, parameter);
                }
                let scalar = scalar_writer.finish();

                let mut batched_writer = BitWriter::new(Vec::new());
                batched_writer.put_bits(0, alignment);
                if parameter == 0 {
                    batched_writer.put_rice4_specialized::<0>(values);
                } else {
                    batched_writer.put_rice4_specialized::<4>(values);
                }
                let batched = batched_writer.finish();
                assert_eq!(
                    batched, scalar,
                    "parameter={parameter} alignment={alignment}"
                );
            }
        }
    }
}

#[test]
fn quantizer_table_matches_scalar_for_every_high_bit_residual() {
    for bit_depth in [10, 12, 16] {
        let max_sample = i32::from(sample_max(bit_depth).unwrap());
        for quality in 1..=100 {
            let step = quantization_step16(quality, bit_depth);
            let quantizer = Quantizer16::new(step, sample_max(bit_depth).unwrap());
            assert_eq!(
                quantizer.table_len(),
                (u32::from(sample_max(bit_depth).unwrap()) * 2 + 1) as usize
            );
            for residual in -max_sample..=max_sample {
                assert_eq!(quantizer.quantize(residual), quantize(residual, step));
            }
        }
    }
}

fn best_rice_parameter_full_scan(folded: &[u32]) -> (u8, u64) {
    let mut best_parameter = 0;
    let mut best_bits = u64::MAX;
    for parameter in 0..=MAX_RICE_PARAMETER16 {
        let bits = folded.iter().fold(
            folded.len() as u64 * (u64::from(parameter) + 1),
            |sum, &value| sum + u64::from(value >> parameter),
        );
        if bits < best_bits {
            best_parameter = parameter;
            best_bits = bits;
        }
    }
    (best_parameter, best_bits)
}

#[test]
fn early_rice_termination_matches_full_parameter_scan() {
    for value in 0..=131_070 {
        assert_eq!(
            best_rice_parameter(&[value]),
            best_rice_parameter_full_scan(&[value])
        );
    }
    for stride in [1, 3, 7, 257, 4093] {
        let mixed: Vec<u32> = (0..=131_070).step_by(stride).collect();
        assert_eq!(
            best_rice_parameter(&mixed),
            best_rice_parameter_full_scan(&mixed)
        );
    }
}

#[test]
fn compatible_high_bit_predictors_cover_extrema() {
    for bit_depth in [10, 12, 16] {
        let maximum = sample_max(bit_depth).unwrap();
        for left in [0, 1, maximum / 2, maximum - 1, maximum] {
            for above in [0, 1, maximum / 2, maximum - 1, maximum] {
                for upper_left in [0, maximum] {
                    for mode in [
                        SpatialPredictor::Average,
                        SpatialPredictor::ClampGradient,
                        SpatialPredictor::HalfGradient,
                    ] {
                        assert!(
                            spatial_prediction16(mode, left, above, upper_left, maximum) <= maximum
                        );
                    }
                }
            }
        }
    }
}

/// Order-0 payload size: `sum(count * log2(total / frequency)) / 8`, rounded up.
fn order0_cost(counts: &[u64], frequencies: &[u64], total: u64) -> u64 {
    let mut bits = 0.0f64;
    for (&count, &frequency) in counts.iter().zip(frequencies) {
        bits += count as f64 * (total as f64 / frequency as f64).log2();
    }
    (bits / 8.0).ceil() as u64
}

#[test]
fn byte_format_model_charges_controls_and_width_boundaries() {
    let mut model = ByteFormatModel::default();
    for value in [0, 1, 0xff, 0x100, 0xffff, 0x1_0000, 0xff_ffff, 0x1_000000] {
        model.push(value);
    }
    assert_eq!(model.sample_count(), Some(8));
    assert_eq!(model.zero_symbols(), Some(1));
    // Two control bytes plus 1+1+1+2+2+3+3+4 data bytes.
    assert_eq!(model.stream_vbyte_bytes(), 19);
    // Two controls plus 0+1+1+2+2+4+4+4 data bytes.
    assert_eq!(model.stream_vbyte_0124_bytes(), 20);

    let mut partial = ByteFormatModel::default();
    partial.push_zeros(5);
    assert_eq!(partial.stream_vbyte_bytes(), 7);
    assert_eq!(partial.stream_vbyte_0124_bytes(), 2);
}

#[test]
fn four_lane_rice_model_charges_alignment_and_lengths() {
    let mut model = ByteFormatModel::default();
    for value in 0..=4 {
        model.push(value);
    }
    let size = model.rice_lane_size(1, 4, 2);
    assert_eq!(size.payload_bytes, 3);
    assert_eq!(size.control_bytes, 8);
    assert_eq!(size.complete_bytes, 11);
}

#[test]
fn diagonal_order_model_reorders_symbols_and_preserves_rice_bits() {
    let mut model = ByteFormatModel::default();
    for index in 0..256 {
        model.push(u32::from(index == 128));
    }
    let size = model.diagonal_order_size(128, 2, false);
    assert_eq!(size.raster_best_bytes, 5);
    assert_eq!(size.raster_rice_bytes, 33);
    assert_eq!(size.diagonal_zero_run_bytes, 4);
    assert_eq!(size.diagonal_rice_bytes, 33);
    assert_eq!(size.diagonal_block_bytes, 0);
    assert_eq!(size.diagonal_best_bytes, 4);
}

#[test]
fn finite_block_order0_model_charges_payload_table_and_state() {
    let empty = ByteFormatModel::default().order0_size(&order0_cost);
    assert_eq!(empty, Order0SizeModel::default());

    let mut singleton = ByteFormatModel::default();
    singleton.push_zeros(32_768);
    let singleton = singleton.order0_size(&order0_cost);
    assert_eq!(singleton.distinct_symbols, 1);
    assert_eq!(singleton.ideal_bytes, 0);
    assert!(singleton.supported);
    assert_eq!(singleton.table_log, 8);
    assert_eq!(singleton.payload_bytes, 0);
    // log, symbol count, symbol delta, and four-byte final state.
    assert_eq!(singleton.table_bytes, 7);
    assert_eq!(singleton.complete_bytes, 7);

    let mut uniform = ByteFormatModel::default();
    for symbol in 0..256 {
        uniform.push(symbol);
    }
    let uniform = uniform.order0_size(&order0_cost);
    assert_eq!(uniform.distinct_symbols, 256);
    assert_eq!(uniform.ideal_bytes, 256);
    assert_eq!(uniform.table_log, 8);
    assert_eq!(uniform.payload_bytes, 256);
    assert_eq!(uniform.table_bytes, 518);
    assert_eq!(uniform.complete_bytes, 774);
}

#[test]
fn finite_block_normalization_is_positive_exact_and_deterministic() {
    let observed = [(0, 900), (1, 90), (127, 9), (16_384, 1)];
    for table_log in 8..=12 {
        let frequencies = normalize_frequencies(&observed, 1 << table_log, 1_000);
        assert!(frequencies.iter().all(|&frequency| frequency > 0));
        assert_eq!(frequencies.iter().sum::<u64>(), 1 << table_log);
        assert_eq!(
            frequencies,
            normalize_frequencies(&observed, 1 << table_log, 1_000)
        );
    }
    assert_eq!(model_varint_length(0x7f), 1);
    assert_eq!(model_varint_length(0x80), 2);
    assert_eq!(model_varint_length(0x3fff), 2);
    assert_eq!(model_varint_length(0x4000), 3);
}

#[test]
fn finite_block_model_rejects_alphabets_larger_than_its_tables() {
    let mut model = ByteFormatModel::default();
    for symbol in 0..4097 {
        model.push(symbol);
    }
    let order0 = model.order0_size(&order0_cost);
    assert_eq!(order0.distinct_symbols, 4097);
    assert!(!order0.supported);
    assert!(order0.ideal_bytes > 0);
    assert_eq!(order0.complete_bytes, 0);
}

#[test]
fn causal_context_model_charges_every_table_state_and_length() {
    let mut singleton = ByteFormatModel::default();
    singleton.push_zeros(32_768);
    let context = singleton.context_order0_size(&order0_cost);
    assert!(context.supported);
    assert_eq!(context.contexts, 2);
    assert_eq!(context.threshold, 0);
    assert_eq!(context.payload_bytes, 0);
    assert_eq!(context.table_bytes, 7);
    // Mode byte and a one-byte length for both context substreams.
    assert_eq!(context.control_bytes, 3);
    assert_eq!(context.complete_bytes, 10);

    let mut mixed = ByteFormatModel::default();
    for value in [0, 1, 0, 9, 2, 0, 31, 1, 0] {
        mixed.push(value);
    }
    let first = mixed.context_order0_size(&order0_cost);
    assert!(first.supported);
    assert!((2..=3).contains(&first.contexts));
    assert_eq!(first, mixed.context_order0_size(&order0_cost));
    assert_eq!(
        first.complete_bytes,
        first.payload_bytes + first.table_bytes + first.control_bytes
    );
}

#[test]
fn horizontal_split_pairs_columns_and_keeps_the_odd_column() {
    let band = Band { width: 3, height: 2, values: vec![10, 4, 7, -3, 5, 100] };
    let bands = horizontal_split(&band);
    assert_eq!(bands.len(), 2);
    assert_eq!((bands[0].width, bands[0].height), (2, 2));
    assert_eq!((bands[1].width, bands[1].height), (1, 2));
    assert_eq!(bands[0].values, vec![7, 7, 1, 100]);
    assert_eq!(bands[1].values, vec![6, -8]);
    assert_eq!(inverse_horizontal(&bands), band.values);
}

#[test]
fn horizontal_split_inverts_exactly_on_even_and_odd_widths() {
    for width in 1..=6usize {
        let height = 3usize;
        let values: Vec<i32> = (0..width * height)
            .map(|index| ((index as i32 * 7919) % 65536) - if index % 3 == 0 { 40000 } else { 0 })
            .collect();
        let band = Band { width, height, values: values.clone() };
        let bands = horizontal_split(&band);
        assert_eq!(inverse_horizontal(&bands), values);
    }
}

#[test]
fn vertical_split_pairs_rows_and_keeps_the_odd_row() {
    let band = Band { width: 2, height: 3, values: vec![10, -3, 4, 5, 9, 100] };
    let bands = vertical_split(&band);
    assert_eq!(bands.len(), 2);
    assert_eq!((bands[0].width, bands[0].height), (2, 2));
    assert_eq!((bands[1].width, bands[1].height), (2, 1));
    assert_eq!(bands[0].values, vec![7, 1, 9, 100]);
    assert_eq!(bands[1].values, vec![6, -8]);
    assert_eq!(inverse_vertical(&bands), band.values);
}

#[test]
fn vertical_split_inverts_exactly_on_even_and_odd_heights() {
    for height in 1..=6usize {
        let width = 3usize;
        let values: Vec<i32> = (0..width * height)
            .map(|index| ((index as i32 * 104729) % 65536) - if index % 4 == 1 { 30000 } else { 0 })
            .collect();
        let band = Band { width, height, values: values.clone() };
        let bands = vertical_split(&band);
        assert_eq!(inverse_vertical(&bands), values);
    }
}

#[test]
fn two_dimensional_split_gives_four_bands() {
    let band = Band { width: 2, height: 2, values: vec![1, 2, 3, 4] };
    let bands = two_dimensional_split(&band);
    assert_eq!(bands.len(), 4);
    let values: Vec<Vec<i32>> = bands.iter().map(|band| band.values.clone()).collect();
    assert_eq!(values, vec![vec![2], vec![-2], vec![-1], vec![0]]);
    assert_eq!(inverse_two_dimensional(&bands), band.values);
}

#[test]
fn two_dimensional_split_inverts_exactly() {
    for width in 1..=5usize {
        for height in 1..=5usize {
            let values: Vec<i32> = (0..width * height)
                .map(|index| ((index as i32 * 7907) % 65536) - if index % 2 == 0 { 20000 } else { 0 })
                .collect();
            let band = Band { width, height, values: values.clone() };
            let bands = two_dimensional_split(&band);
            assert_eq!(inverse_two_dimensional(&bands), values);
        }
    }
}

#[test]
fn error_descriptions_name_the_kind_and_message() {
    assert_eq!(CodecError::InvalidInput("bad").describe(), "invalid input: bad");
    assert_eq!(CodecError::Malformed("short").describe(), "malformed stream: short");
    assert_eq!(
        CodecError::LimitExceeded("big").describe(),
        "resource limit exceeded: big"
    );
}

#[test]
fn remainders_sort_largest_first_then_by_symbol() {
    let sorted = sort_remainders(vec![(3, 7), (9, 2), (3, 1), (0, 5), (9, 0)]);
    assert_eq!(sorted, vec![(9, 0), (9, 2), (3, 1), (3, 7), (0, 5)]);
}
