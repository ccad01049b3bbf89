use fastvid::bitio::{BitReader, BitWriter};
use fastvid::bits::{unzigzag, zigzag};
use fastvid::codec::{DIRECTORY_ENTRY_LEN, HEADER_LEN, LEGACY_VERSION, PREDICTOR_VERSION};
use fastvid::predict::{Quantizer, SpatialPredictor, paeth, quantize, spatial_prediction};
use fastvid::rans::{
    RANS_MAX_TABLE_LOG, RANS_MIN_TABLE_LOG, build_rans_plan, build_rans_plan_for_log,
    decode_rans_symbols, decode_rans_symbols_interleaved, encode_rans_payload,
    encode_rans_payload_interleaved,
};
use fastvid::residual::{
    MAX_PREDICTION_MODE, PREDICT_AVERAGE, PREDICT_SPATIAL, PREDICT_TEMPORAL, predict_tile,
    spatial_prediction_mode,
};
use fastvid::tile_coding::{
    ENTROPY_ORDER0, ENTROPY_ORDER0_4, MAX_RICE_PARAMETER, decode_tile_payload, extract_tile,
    finish_entropy,
};
use fastvid::analyze::{
    analyze_entropy, analyze_predictor_frame, analyze_predictors, analyze_residual_mapping,
};
use fastvid::codec::{encode_tile, inspect, parse, temporal_prediction_is_promising};
use fastvid::entropy::ENTROPY_ZERO_RUN;
use fastvid::tiles::expected_tiles;
use fastvid::entropy::ENTROPY_RICE_BASE;
use fastvid::tiles::Tile;
use fastvid::{
    CodecOptions, Frame, FrameRate, decode, decode_tile, decode_with_reference, encode,
    encode_with_reference,
};

/// Order-0 payload size: `sum(count * log2(total / frequency)) / 8`, rounded up.
fn order0_cost(counts: &[u64], frequencies: &[u64], total: u64) -> u64 {
    let mut bits = 0.0f64;
    for (&count, &frequency) in counts.iter().zip(frequencies) {
        bits += count as f64 * (total as f64 / frequency as f64).log2();
    }
    (bits / 8.0).ceil() as u64
}

fn rice_bytes(value: u32, parameter: u8, alignment: u8, fused: bool) -> Vec<u8> {
    let mut writer = BitWriter::new(Vec::new());
    writer.put_bits((1u32 << alignment) - 1, alignment);
    if fused {
        writer.put_rice(value, parameter);
    } else {
        writer.put_zeros(value >> parameter);
        writer.put_bits(1, 1);
        writer.put_bits(value, parameter);
    }
    writer.finish()
}

fn patterned_frame(width: u32, height: u32) -> Frame {
    let luma: Vec<u8> = (0..width * height)
        .map(|index| {
            let x = index % width;
            let y = index / width;
            ((x * 3 + y * 5 + (x / 7) * 11) & 255) as u8
        })
        .collect();
    let chroma_width = width.div_ceil(2);
    let cb: Vec<u8> = (0..chroma_width * height)
        .map(|index| (96 + (index % chroma_width) % 41) as u8)
        .collect();
    let cr: Vec<u8> = (0..chroma_width * height)
        .map(|index| (160 - (index / chroma_width) % 37) as u8)
        .collect();
    Frame::yuv422p8(width, height, FrameRate::new(24_000, 1_001), luma, cb, cr).unwrap()
}

fn histogram_of(folded: &[u32]) -> Vec<u32> {
    let mut histogram = vec![0u32; 511];
    for &value in folded {
        histogram[value as usize] += 1;
    }
    histogram
}

fn observed_of(histogram: &[u32]) -> Vec<(u16, u32)> {
    histogram
        .iter()
        .enumerate()
        .filter(|(_, count)| **count != 0)
        .map(|(symbol, &count)| (symbol as u16, count))
        .collect()
}

#[test]
fn quantizer_table_matches_scalar_for_every_codec_residual() {
    for step in 1..=20 {
        let table = Quantizer::new(step);
        for residual in -255..=255 {
            assert_eq!(table.quantize(residual), quantize(residual, step));
        }
    }
}

#[test]
fn rolling_spatial_row_matches_full_reconstruction() {
    let frame = patterned_frame(37, 23);
    let tile = Tile {
        plane: 0,
        x: 3,
        y: 2,
        width: 31,
        height: 19,
    };
    let plane = &frame.planes[0];
    let samples = extract_tile(&plane.data, plane.width, plane.height, tile);
    for quality in [90u8, 100] {
        let step = 1 + i32::from((100 - quality) / 5);
        let quantizer = Quantizer::new(step);
        let rolling = encode_tile(&samples, None, tile.width as usize, &quantizer, &order0_cost);
        let width = tile.width as usize;
        let height = tile.height as usize;
        let mut reconstructed = vec![0u8; width * height];
        let mut folded = Vec::new();
        for y in 0..height {
            for x in 0..width {
                let index = y * width + x;
                let left = if x > 0 { reconstructed[index - 1] } else { 0 };
                let above = if y > 0 { reconstructed[index - width] } else { 0 };
                let upper_left = if x > 0 && y > 0 {
                    reconstructed[index - width - 1]
                } else {
                    0
                };
                let prediction = i32::from(paeth(left, above, upper_left));
                let quantized = quantizer.quantize(i32::from(samples[index]) - prediction);
                reconstructed[index] = (prediction + quantized * step).clamp(0, 255) as u8;
                folded.push(zigzag(quantized));
            }
        }
        let reference = finish_entropy(folded, PREDICT_SPATIAL, &order0_cost);
        assert_eq!(rolling.entropy_mode, reference.entropy_mode);
        assert_eq!(rolling.prediction_mode, reference.prediction_mode);
        assert_eq!(rolling.payload, reference.payload);
    }
}

#[test]
fn quality_100_round_trips_odd_dimensions() {
    let frame = patterned_frame(37, 23);
    let options = CodecOptions {
        quality: 100,
        tile_width: 13,
        tile_height: 11,
        threads: 3,
    };
    let encoded = encode(&frame, options, &order0_cost).unwrap();
    let decoded = decode(&encoded, 4).unwrap();
    assert_eq!(decoded, frame);
}

#[test]
fn lossy_error_is_bounded_by_quantizer() {
    let frame = patterned_frame(65, 33);
    let options = CodecOptions {
        quality: 90,
        tile_width: 16,
        tile_height: 15,
        threads: 2,
    };
    let decoded = decode(&encode(&frame, options, &order0_cost).unwrap(), 2).unwrap();
    for (expected, actual) in frame.planes.iter().zip(&decoded.planes) {
        for (&expected, &actual) in expected.data.iter().zip(&actual.data) {
            assert!(expected.abs_diff(actual) <= 1);
        }
    }
}

#[test]
fn individual_tile_matches_full_decode() {
    let frame = patterned_frame(40, 25);
    let options = CodecOptions {
        quality: 95,
        tile_width: 16,
        tile_height: 10,
        threads: 2,
    };
    let encoded = encode(&frame, options, &order0_cost).unwrap();
    let full = decode(&encoded, 2).unwrap();
    let tile = decode_tile(&encoded, 1).unwrap();
    let plane = &full.planes[tile.plane];
    for row in 0..tile.height as usize {
        let full_start = (tile.y as usize + row) * plane.width as usize + tile.x as usize;
        let tile_start = row * tile.width as usize;
        assert_eq!(
            &tile.data[tile_start..tile_start + tile.width as usize],
            &plane.data[full_start..full_start + tile.width as usize]
        );
    }
}

#[test]
fn interleaved_order0_tile_matches_full_decode() {
    let mut state = 0x9e37_79b9u32;
    let samples = (0..256 * 128)
        .map(|_| {
            state = state.wrapping_mul(1_664_525).wrapping_add(1_013_904_223);
            ((state >> 30) * 85) as u8
        })
        .collect();
    let frame = Frame::gray8(256, 128, FrameRate::new(24, 1), samples).unwrap();
    let encoded = encode(
        &frame,
        CodecOptions {
            quality: 100,
            tile_width: 256,
            tile_height: 128,
            threads: 1,
        },
        &order0_cost,
    )
    .unwrap();
    assert_eq!(encoded[HEADER_LEN + 1], ENTROPY_ORDER0_4);
    let full = decode(&encoded, 1).unwrap();
    let tile = decode_tile(&encoded, 0).unwrap();
    assert_eq!(tile.data, full.planes[0].data);
    assert_eq!(full, frame);
}

#[test]
fn malformed_streams_are_rejected() {
    let frame = patterned_frame(16, 16);
    let encoded = encode(&frame, CodecOptions::default(), &order0_cost).unwrap();
    assert!(decode(&encoded[..encoded.len() - 1], 1).is_err());

    let mut trailing = encoded.clone();
    trailing.push(0);
    assert!(decode(&trailing, 1).is_err());

    let mut bad_magic = encoded;
    bad_magic[0] = b'X';
    assert!(decode(&bad_magic, 1).is_err());

    let one_pixel =
        Frame::gray8(1, 1, FrameRate::new(24, 1), vec![0]).expect("valid one-pixel frame");
    let mut overlong_run = encode(&one_pixel, CodecOptions::default(), &order0_cost).unwrap();
    let payload_offset = HEADER_LEN + DIRECTORY_ENTRY_LEN;
    assert_eq!(overlong_run[payload_offset], 0);
    overlong_run[payload_offset] = 2;
    assert!(decode(&overlong_run, 1).is_err());
}

#[test]
fn zigzag_is_a_bijection_for_codec_residuals() {
    for value in -255..=255 {
        assert_eq!(unzigzag(zigzag(value)), value);
    }
}

#[test]
fn adaptive_rice_mode_round_trips_dense_residuals() {
    let mut state = 1u32;
    let data: Vec<u8> = (0..64 * 64)
        .map(|_| {
            state = state.wrapping_mul(1_664_525).wrapping_add(1_013_904_223);
            (state >> 24) as u8
        })
        .collect();
    let frame = Frame::gray8(64, 64, FrameRate::new(24, 1), data).unwrap();
    let options = CodecOptions {
        quality: 100,
        tile_width: 64,
        tile_height: 64,
        threads: 1,
    };
    let encoded = encode(&frame, options, &order0_cost).unwrap();
    assert!(
        (ENTROPY_RICE_BASE..=ENTROPY_RICE_BASE + MAX_RICE_PARAMETER)
            .contains(&encoded[HEADER_LEN + 1])
    );
    assert_eq!(decode(&encoded, 1).unwrap(), frame);
}

#[test]
fn fused_rice_writer_matches_reference_exhaustively() {
    for parameter in 0..=MAX_RICE_PARAMETER {
        for value in 0..=510 {
            for alignment in 0..8 {
                assert_eq!(
                    rice_bytes(value, parameter, alignment, true),
                    rice_bytes(value, parameter, alignment, false)
                );
            }
        }
    }
}

#[test]
fn rice_padding_and_unknown_modes_are_rejected() {
    let mut writer = BitWriter::new(Vec::new());
    for value in [0, 1, 2, 510] {
        writer.put_rice(value, 3);
    }
    let mut payload = writer.finish();
    let mut reader = BitReader::new(&payload);
    for expected in [0, 1, 2, 510] {
        assert_eq!(reader.get_rice(3, 510).unwrap(), expected);
    }
    reader.finish().unwrap();

    *payload.last_mut().unwrap() |= 0x80;
    let mut reader = BitReader::new(&payload);
    for _ in 0..4 {
        reader.get_rice(3, 510).unwrap();
    }
    assert!(reader.finish().is_err());

    let frame = patterned_frame(16, 16);
    let mut encoded = encode(&frame, CodecOptions::default(), &order0_cost).unwrap();
    encoded[HEADER_LEN + 1] = ENTROPY_ORDER0_4 + 1;
    assert!(decode(&encoded, 1).is_err());
}

#[test]
fn order0_payload_round_trips_sparse_and_extreme_alphabets() {
    let cases: [Vec<u32>; 4] = [
        vec![0u32; 32_768],
        (0..=510).collect(),
        (0..32_768)
            .map(|index| {
                if index % 97 == 0 {
                    510
                } else if index % 7 == 0 {
                    3
                } else {
                    0
                }
            })
            .collect(),
        (0..32_768u32)
            .map(|index| (index * 73 + index / 11) % 511)
            .collect(),
    ];
    for folded in cases {
        let histogram = histogram_of(&folded);
        let plan = build_rans_plan(&histogram, folded.len(), &order0_cost).unwrap();
        let payload = encode_rans_payload(&folded, &plan);
        assert!(payload.len().abs_diff(plan.modeled_bytes) <= 4);
        let observed = observed_of(&histogram);
        let exact_minimum = (RANS_MIN_TABLE_LOG..=RANS_MAX_TABLE_LOG)
            .filter_map(|table_log| {
                build_rans_plan_for_log(&observed, folded.len(), table_log, &order0_cost)
            })
            .map(|candidate| encode_rans_payload(&folded, &candidate).len())
            .min()
            .unwrap();
        assert!(payload.len() <= exact_minimum + 4);
        assert_eq!(decode_rans_symbols(&payload, folded.len(), 510).unwrap(), folded);

        let interleaved = encode_rans_payload_interleaved(&folded, &plan);
        assert!(interleaved.len().abs_diff(plan.modeled_bytes + 12) <= 4);
        assert_eq!(
            decode_rans_symbols_interleaved(&interleaved, folded.len(), 510).unwrap(),
            folded
        );

        let mut trailing = payload.clone();
        trailing.push(0);
        assert!(decode_rans_symbols(&trailing, folded.len(), 510).is_err());
        for end in 0..payload.len().min(16) {
            assert!(decode_rans_symbols(&payload[..end], folded.len(), 510).is_err());
        }
        let mut interleaved_trailing = interleaved.clone();
        interleaved_trailing.push(0);
        assert!(decode_rans_symbols_interleaved(&interleaved_trailing, folded.len(), 510).is_err());
        for end in 0..interleaved.len().min(28) {
            assert!(decode_rans_symbols_interleaved(&interleaved[..end], folded.len(), 510).is_err());
        }
    }
}

#[test]
fn modeled_order0_log_tracks_exact_synthetic_minimum() {
    let mut mismatches = 0usize;
    let mut maximum_overhead = 0usize;
    let cases = 256usize;
    for case in 0..cases {
        let sample_count = 257 + case * 97 % 4096;
        let mut state = 0x9e37_79b9u32 ^ case as u32;
        let mut folded = Vec::with_capacity(sample_count);
        for index in 0..sample_count {
            state = state.wrapping_mul(1_664_525).wrapping_add(1_013_904_223);
            let value = match case % 4 {
                0 => state as usize % 511,
                1 => match state % 100 {
                    0..=69 => 0,
                    70..=89 => 1,
                    90..=96 => 2,
                    _ => 3 + state as usize % 32,
                },
                2 => state as usize % (2 + case % 127),
                _ => (index / (1 + case % 31) + state as usize % 3) % 511,
            };
            folded.push(value as u32);
        }
        let histogram = histogram_of(&folded);
        let modeled = build_rans_plan(&histogram, folded.len(), &order0_cost).unwrap();
        let modeled_bytes = encode_rans_payload(&folded, &modeled).len();
        let observed = observed_of(&histogram);
        let (exact_bytes, exact_log) = (RANS_MIN_TABLE_LOG..=RANS_MAX_TABLE_LOG)
            .filter_map(|table_log| {
                build_rans_plan_for_log(&observed, folded.len(), table_log, &order0_cost)
                    .map(|plan| (encode_rans_payload(&folded, &plan).len(), table_log))
            })
            .min()
            .unwrap();
        mismatches += usize::from(modeled.table_log != exact_log);
        maximum_overhead = maximum_overhead.max(modeled_bytes - exact_bytes);
    }
    println!(
        "synthetic cases={cases} log_mismatches={mismatches} maximum_overhead={maximum_overhead}"
    );
    assert!(maximum_overhead <= 4);
}

#[test]
fn order0_table_validation_rejects_noncanonical_inputs() {
    for payload in [
        vec![RANS_MIN_TABLE_LOG - 1],
        vec![RANS_MAX_TABLE_LOG + 1],
        vec![RANS_MIN_TABLE_LOG, 0],
        vec![RANS_MIN_TABLE_LOG, 2, 0, 1, 0],
        vec![RANS_MIN_TABLE_LOG, 1, 0, 0, 0, 0, 0],
    ] {
        assert!(decode_rans_symbols(&payload, 1, 510).is_err());
    }
}

#[test]
fn rice_codes_round_trip_every_codec_residual() {
    for parameter in 0..=MAX_RICE_PARAMETER {
        let mut writer = BitWriter::new(Vec::new());
        for value in 0..=510 {
            writer.put_rice(value, parameter);
        }
        let payload = writer.finish();

        let mut reader = BitReader::new(&payload);
        for expected in 0..=510 {
            assert_eq!(reader.get_rice(parameter, 510).unwrap(), expected);
        }
        reader.finish().unwrap();
    }
}

#[test]
fn temporal_frames_require_reference_and_round_trip_exactly() {
    let reference = patterned_frame(65, 33);
    let mut frame = reference.clone();
    for (plane_index, plane) in frame.planes.iter_mut().enumerate() {
        for (index, sample) in plane.data.iter_mut().enumerate() {
            if (index + plane_index) % 17 == 0 {
                *sample = sample.saturating_add(3);
            }
        }
    }
    let options = CodecOptions {
        quality: 100,
        tile_width: 16,
        tile_height: 15,
        threads: 2,
    };
    let encoded = encode_with_reference(&frame, &reference, options, &order0_cost).unwrap();
    assert_eq!(encoded[HEADER_LEN + 2], PREDICT_TEMPORAL);
    assert!(decode(&encoded, 2).is_err());
    assert_eq!(
        decode_with_reference(&encoded, &reference, 2).unwrap(),
        frame
    );

    let wrong_reference = patterned_frame(64, 33);
    assert!(decode_with_reference(&encoded, &wrong_reference, 1).is_err());
    assert!(encode_with_reference(&frame, &wrong_reference, options, &order0_cost).is_err());
}

#[test]
fn unknown_prediction_modes_are_rejected() {
    let frame = patterned_frame(16, 16);
    let mut encoded = encode(&frame, CodecOptions::default(), &order0_cost).unwrap();
    encoded[HEADER_LEN + 2] = MAX_PREDICTION_MODE + 1;
    assert!(decode(&encoded, 1).is_err());
}

#[test]
fn high_motion_frames_fall_back_to_spatial_prediction() {
    let reference = patterned_frame(32, 24);
    let mut frame = reference.clone();
    for plane in &mut frame.planes {
        for sample in &mut plane.data {
            *sample = 255 - *sample;
        }
    }
    let options = CodecOptions {
        quality: 100,
        ..CodecOptions::default()
    };
    let encoded = encode_with_reference(&frame, &reference, options, &order0_cost).unwrap();
    assert_ne!(encoded[HEADER_LEN + 2], PREDICT_TEMPORAL);
    assert_eq!(decode(&encoded, 1).unwrap(), frame);
}

#[test]
fn compatible_predictors_cover_every_8bit_boundary_pair() {
    for left in 0..=u8::MAX {
        for above in 0..=u8::MAX {
            for upper_left in [0, u8::MAX] {
                assert_eq!(
                    spatial_prediction(SpatialPredictor::Average, left, above, upper_left),
                    ((u16::from(left) + u16::from(above)) / 2) as u8
                );
                assert_eq!(
                    spatial_prediction(SpatialPredictor::ClampGradient, left, above, upper_left),
                    (i32::from(left) + i32::from(above) - i32::from(upper_left)).clamp(0, 255)
                        as u8
                );
                let average = (i32::from(left) + i32::from(above)) / 2;
                assert_eq!(
                    spatial_prediction(SpatialPredictor::HalfGradient, left, above, upper_left),
                    (average + (average - i32::from(upper_left)) / 2).clamp(0, 255) as u8
                );
            }
        }
    }
}

#[test]
fn every_version_two_spatial_mode_decodes_individual_tiles() {
    let frame = patterned_frame(65, 33);
    let tile = Tile {
        plane: 0,
        x: 0,
        y: 0,
        width: 16,
        height: 15,
    };
    let plane = &frame.planes[0];
    let samples = extract_tile(&plane.data, plane.width, plane.height, tile);
    let quantizer = Quantizer::new(1);
    for mode in [
        SpatialPredictor::Paeth,
        SpatialPredictor::Average,
        SpatialPredictor::ClampGradient,
        SpatialPredictor::HalfGradient,
    ] {
        let code = spatial_prediction_mode(mode);
        let predicted = predict_tile(&samples, tile.width as usize, code, &quantizer, &[]);
        let reconstruction = predicted.reconstruction.clone();
        let encoded = finish_entropy(predicted.folded, code, &order0_cost);
        let decoded = decode_tile_payload(
            tile,
            &encoded.payload,
            1,
            encoded.entropy_mode,
            encoded.prediction_mode,
            None,
        )
        .unwrap();
        assert_eq!(decoded, reconstruction);
    }
}

#[test]
fn legacy_version_accepts_legacy_modes_and_rejects_new_modes() {
    let frame = Frame::gray8(1, 1, FrameRate::new(24, 1), vec![17]).unwrap();
    let options = CodecOptions {
        quality: 100,
        ..CodecOptions::default()
    };
    let mut legacy = encode(&frame, options, &order0_cost).unwrap();
    assert_eq!(legacy[HEADER_LEN + 2], PREDICT_SPATIAL);
    legacy[4] = LEGACY_VERSION;
    assert_eq!(decode(&legacy, 1).unwrap(), frame);

    legacy[HEADER_LEN + 2] = PREDICT_AVERAGE;
    assert!(decode(&legacy, 1).is_err());

    let mut predictor_version = encode(&frame, options, &order0_cost).unwrap();
    predictor_version[4] = PREDICTOR_VERSION;
    predictor_version[HEADER_LEN + 1] = ENTROPY_ORDER0;
    assert!(decode(&predictor_version, 1).is_err());
}

fn nudged(reference: &Frame, period: usize, amount: u8) -> Frame {
    let mut frame = reference.clone();
    for plane in &mut frame.planes {
        for (index, sample) in plane.data.iter_mut().enumerate() {
            if index % period == 0 {
                *sample = sample.saturating_add(amount);
            }
        }
    }
    frame
}

#[test]
fn stream_info_mode_counts_cover_every_tile() {
    let frame = patterned_frame(513, 257);
    let options = CodecOptions {
        quality: 100,
        threads: 2,
        ..CodecOptions::default()
    };
    let intra_bytes = encode(&frame, options, &order0_cost).unwrap();
    let intra = inspect(&intra_bytes).unwrap();
    assert_eq!(intra.zero_run_tiles + intra.rice_tiles, intra.tile_count);
    assert_eq!(intra.spatial_tiles + intra.temporal_tiles, intra.tile_count);
    assert_eq!(intra.spatial_tiles, intra.tile_count);
    let models = analyze_entropy(&intra_bytes, &order0_cost).unwrap();
    assert_eq!(models.len(), intra.tile_count);
    assert_eq!(
        models.iter().map(|model| model.sample_count).sum::<usize>(),
        frame.raw_len()
    );
    assert_eq!(
        models
            .iter()
            .map(|model| model.actual_payload_bytes)
            .sum::<usize>(),
        intra_bytes.len() - HEADER_LEN - intra.tile_count * DIRECTORY_ENTRY_LEN
    );

    let temporal_bytes = encode_with_reference(&frame, &frame, options, &order0_cost).unwrap();
    let temporal = inspect(&temporal_bytes).unwrap();
    assert_eq!(
        temporal.zero_run_tiles + temporal.rice_tiles,
        temporal.tile_count
    );
    assert_eq!(temporal.temporal_tiles, temporal.tile_count);
    let models = analyze_entropy(&temporal_bytes, &order0_cost).unwrap();
    assert!(models.iter().all(|model| model.temporal_prediction));
    assert!(models.iter().all(|model| model.source_zero_run));
}

#[test]
fn residual_mapping_model_matches_current_tile_payloads() {
    let reference = patterned_frame(65, 33);
    let frame = nudged(&reference, 31, 1);
    let options = CodecOptions {
        quality: 90,
        tile_width: 16,
        tile_height: 15,
        threads: 2,
    };
    for reference in [None, Some(&reference)] {
        let selected =
            reference.filter(|reference| temporal_prediction_is_promising(&frame, reference));
        let tiles = expected_tiles(
            frame.width,
            frame.height,
            frame.format,
            options.tile_width,
            options.tile_height,
            true,
        )
        .unwrap();
        let quantizer = Quantizer::new(options.quantization_step());
        let models = analyze_residual_mapping(&frame, reference, options, &order0_cost).unwrap();
        for (model, tile) in models.iter().zip(&tiles) {
            let plane = &frame.planes[tile.plane];
            let samples = extract_tile(&plane.data, plane.width, plane.height, *tile);
            let reference_samples = selected.map(|reference| {
                let plane = &reference.planes[tile.plane];
                extract_tile(&plane.data, plane.width, plane.height, *tile)
            });
            let expected = encode_tile(
                &samples,
                reference_samples.as_deref(),
                tile.width as usize,
                &quantizer,
                &order0_cost,
            );
            assert_eq!(model.actual_payload_bytes, expected.payload.len());
            assert_eq!(
                model.source_zero_run,
                expected.entropy_mode == ENTROPY_ZERO_RUN
            );
            assert_eq!(
                model.temporal_prediction,
                expected.prediction_mode == PREDICT_TEMPORAL
            );
            assert!(model.bounded_payload_bytes > 0);
        }
    }
}

#[test]
fn modeled_predictor_selector_stays_near_exact_oracle_and_within_error_bound() {
    let reference = patterned_frame(65, 33);
    let frame = nudged(&reference, 31, 1);
    for quality in [90, 100] {
        let options = CodecOptions {
            quality,
            tile_width: 16,
            tile_height: 15,
            threads: 2,
        };
        for reference in [None, Some(&reference)] {
            let encoded = if let Some(reference) = reference {
                encode_with_reference(&frame, reference, options, &order0_cost).unwrap()
            } else {
                encode(&frame, options, &order0_cost).unwrap()
            };
            let parsed = parse(&encoded).unwrap();
            let models = analyze_predictors(&frame, reference, options, &order0_cost).unwrap();
            let error_bound = (options.quantization_step() / 2) as u32;
            for (tile_index, (model, entry)) in models.iter().zip(&parsed.entries).enumerate() {
                assert!(
                    entry.length >= model.oracle.payload_bytes,
                    "tile {tile_index}, quality {quality}, reference {}",
                    reference.is_some()
                );
                assert!(
                    entry.length <= model.oracle.payload_bytes + 8,
                    "tile {tile_index}, quality {quality}, reference {}, exact {}, selected {}",
                    reference.is_some(),
                    model.oracle.payload_bytes,
                    entry.length
                );
                for candidate in [
                    Some(model.paeth),
                    Some(model.average),
                    Some(model.clamp_gradient),
                    Some(model.half_gradient),
                    model.temporal,
                ]
                .into_iter()
                .flatten()
                {
                    assert!(candidate.max_error <= error_bound);
                    if quality == 100 {
                        assert_eq!(candidate.squared_error, 0);
                    }
                }
            }
        }
    }
}

#[test]
fn predictor_oracle_propagates_exact_q100_reconstruction() {
    let first = patterned_frame(65, 33);
    let second = nudged(&first, 19, 2);
    let options = CodecOptions {
        quality: 100,
        tile_width: 16,
        tile_height: 15,
        threads: 1,
    };
    let (_, first_oracle) =
        analyze_predictor_frame(&first, None, None, options, &order0_cost).unwrap();
    assert_eq!(first_oracle, first);
    let (_, second_oracle) = analyze_predictor_frame(
        &second,
        Some(&first),
        Some(&first_oracle),
        options,
        &order0_cost,
    )
    .unwrap();
    assert_eq!(second_oracle, second);
}
