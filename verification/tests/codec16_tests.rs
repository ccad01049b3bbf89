use fastvid::bitio::BitWriter;
use fastvid::codec::HEADER_LEN;
use fastvid::analyze::predictor_model_mode_code;
use fastvid::analyze16::{
    ParallelEntropyModel, analyze_entropy16, analyze_predictor_frame16, analyze_predictors16,
    analyze_residual_mapping16, model_clamp_gradient_bands, model_parallel_entropy,
    model_predictor16,
};
use fastvid::codec16::{
    LEGACY_VERSION16, VERSION16, decode16, decode16_with_reference, decode_tile16,
    decode_tile_payload16, encode16, encode16_with_reference, encode_tile16, inspect16, parse16,
    temporal_prediction_is_promising16,
};
use fastvid::entropy::ENTROPY_ZERO_RUN;
use fastvid::tiles::expected_tiles;
use fastvid::model::sample_max;
use fastvid::predict::{Quantizer16, quantization_step16};
use fastvid::residual::{
    PREDICT_AVERAGE, PREDICT_CLAMP_GRADIENT, PREDICT_HALF_GRADIENT, PREDICT_SPATIAL, PREDICT_TEMPORAL,
};
use fastvid::tile_coding::extract_tile;
use fastvid::tile_coding16::{
    BLOCK_PACK_SYMBOLS, ENTROPY_BLOCK_PACK, encode_fixed_gradient_block_tile,
    encode_fixed_gradient_rice_tile, encode_fixed_gradient_rice_tile_pair, put_fixed_block,
};
use fastvid::tiles::Tile;
use fastvid::{CodecError, CodecOptions, Frame16, FrameRate, Plane16};

/// Order-0 payload size: `sum(count * log2(total / frequency)) / 8`, rounded up.
fn order0_cost(counts: &[u64], frequencies: &[u64], total: u64) -> u64 {
    let mut bits = 0.0f64;
    for (&count, &frequency) in counts.iter().zip(frequencies) {
        bits += count as f64 * (total as f64 / frequency as f64).log2();
    }
    (bits / 8.0).ceil() as u64
}

fn options(quality: u8) -> CodecOptions {
    CodecOptions {
        quality,
        tile_width: 4,
        tile_height: 3,
        threads: 2,
    }
}

fn quantizer(quality: u8, bit_depth: u8) -> Quantizer16 {
    Quantizer16::new(
        quantization_step16(quality, bit_depth),
        sample_max(bit_depth).unwrap(),
    )
}

fn patterned_frame(bit_depth: u8, grayscale: bool) -> Frame16 {
    let width = 7;
    let height = 5;
    let max = sample_max(bit_depth).unwrap();
    let make_plane = |samples: usize, seed: u32| -> Vec<u16> {
        (0..samples)
            .map(|index| {
                let value = (index as u32 * 977 + seed * 131 + (index as u32).pow(2) * 17)
                    % (u32::from(max) + 1);
                value as u16
            })
            .collect()
    };
    if grayscale {
        Frame16::gray(
            width,
            height,
            bit_depth,
            FrameRate::new(24, 1),
            make_plane((width * height) as usize, 1),
        )
        .unwrap()
    } else {
        let chroma_samples = (width.div_ceil(2) * height) as usize;
        Frame16::yuv422(
            width,
            height,
            bit_depth,
            FrameRate::new(24, 1),
            make_plane((width * height) as usize, 1),
            make_plane(chroma_samples, 2),
            make_plane(chroma_samples, 3),
        )
        .unwrap()
    }
}

fn whole_tile(plane: &Plane16) -> Tile {
    Tile {
        plane: 0,
        x: 0,
        y: 0,
        width: plane.width,
        height: plane.height,
    }
}

#[test]
fn lossy_error_is_bounded_at_every_high_depth() {
    for bit_depth in [10, 12, 16] {
        let frame = patterned_frame(bit_depth, false);
        for quality in [1, 60, 90, 99] {
            let decoded = decode16(&encode16(&frame, options(quality)).unwrap(), 2).unwrap();
            let bound = (quantization_step16(quality, bit_depth) / 2) as u16;
            for (reference, actual) in frame.planes.iter().zip(&decoded.planes) {
                assert!(
                    reference
                        .data
                        .iter()
                        .zip(&actual.data)
                        .all(|(&expected, &actual)| expected.abs_diff(actual) <= bound)
                );
            }
        }
    }
}

#[test]
fn temporal_high_bit_frames_round_trip_and_require_matching_reference() {
    let reference = patterned_frame(12, false);
    let mut current = reference.clone();
    for plane in &mut current.planes {
        for sample in plane.data.iter_mut().step_by(11) {
            *sample = sample.saturating_add(1).min(4095);
        }
    }
    let encoded = encode16_with_reference(&current, &reference, options(100)).unwrap();
    let info = inspect16(&encoded).unwrap();
    assert!(info.temporal_tiles > 0);
    assert!(decode16(&encoded, 1).is_err());
    assert_eq!(
        decode16_with_reference(&encoded, &reference, 2).unwrap(),
        current
    );

    let wrong_depth = patterned_frame(10, false);
    assert!(decode16_with_reference(&encoded, &wrong_depth, 1).is_err());
    assert!(encode16_with_reference(&current, &wrong_depth, options(100)).is_err());
}

#[test]
fn interleaved_rice_tile_pairs_match_independent_tiles() {
    let width = 14;
    let height = 5;
    let data = (0..width * height)
        .map(|index| ((index * 977 + index * index * 17 + 131) % 1024) as u16)
        .collect();
    let plane = Plane16::new(width, height, 10, data).unwrap();
    let first = Tile {
        plane: 0,
        x: 0,
        y: 0,
        width: 7,
        height,
    };
    let second = Tile { x: 7, ..first };
    let quantizer = quantizer(90, 10);
    let first_samples = extract_tile(&plane.data, width, height, first);
    let second_samples = extract_tile(&plane.data, width, height, second);
    for parameter in [0, 4] {
        let first_scalar =
            encode_fixed_gradient_rice_tile(&first_samples, 7, &quantizer, parameter);
        let second_scalar =
            encode_fixed_gradient_rice_tile(&second_samples, 7, &quantizer, parameter);
        let paired = encode_fixed_gradient_rice_tile_pair(
            &first_samples,
            &second_samples,
            7,
            &quantizer,
            parameter,
        );
        assert_eq!(paired.0.entropy_mode, first_scalar.entropy_mode);
        assert_eq!(paired.0.prediction_mode, first_scalar.prediction_mode);
        assert_eq!(paired.0.payload, first_scalar.payload);
        assert_eq!(paired.1.entropy_mode, second_scalar.entropy_mode);
        assert_eq!(paired.1.prediction_mode, second_scalar.prediction_mode);
        assert_eq!(paired.1.payload, second_scalar.payload);
    }
}

#[test]
fn malformed_high_bit_streams_are_rejected_before_decode() {
    let frame = patterned_frame(16, true);
    let encoded = encode16(&frame, options(100)).unwrap();

    let mut invalid_depth = encoded.clone();
    invalid_depth[7] = 1;
    assert!(inspect16(&invalid_depth).is_err());

    let mut invalid_layout = encoded.clone();
    invalid_layout[5] = 2;
    assert!(inspect16(&invalid_layout).is_err());

    let mut reserved = encoded.clone();
    reserved[HEADER_LEN + 3] = 1;
    assert!(inspect16(&reserved).is_err());

    let mut invalid_entropy = encoded.clone();
    invalid_entropy[HEADER_LEN + 1] = ENTROPY_BLOCK_PACK + 1;
    assert!(inspect16(&invalid_entropy).is_err());

    let mut huge = encoded;
    huge[8..12].copy_from_slice(&u32::MAX.to_le_bytes());
    huge[12..16].copy_from_slice(&u32::MAX.to_le_bytes());
    assert!(matches!(
        inspect16(&huge),
        Err(CodecError::LimitExceeded(_))
    ));
}

#[test]
fn block_pack_round_trips_and_rejects_malformed_blocks() {
    let frame = patterned_frame(10, true);
    let tile = whole_tile(&frame.planes[0]);
    let quantizer = Quantizer16::new(1, 1023);
    let encoded = encode_fixed_gradient_block_tile(&frame.planes[0].data, 7, &quantizer);
    let decoded = decode_tile_payload16(
        tile,
        &encoded.payload,
        1,
        encoded.entropy_mode,
        encoded.prediction_mode,
        None,
        1023,
    )
    .unwrap();
    assert_eq!(decoded, frame.planes[0].data);

    let tiny = Tile {
        plane: 0,
        x: 0,
        y: 0,
        width: 1,
        height: 1,
    };
    for payload in [&[18][..], &[1][..], &[1, 0x80][..], &[0, 0][..]] {
        assert!(
            decode_tile_payload16(
                tiny,
                payload,
                1,
                ENTROPY_BLOCK_PACK,
                PREDICT_CLAMP_GRADIENT,
                None,
                1023,
            )
            .is_err()
        );
    }
}

#[test]
fn word_fixed_blocks_match_scalar_writer_for_every_width_and_length() {
    for width in 0..=17 {
        let mask = if width == 0 { 0 } else { (1u32 << width) - 1 };
        for length in 0..=BLOCK_PACK_SYMBOLS {
            let mut folded: Vec<u32> = (0..length)
                .map(|index| (index as u32).wrapping_mul(0x9e37_79b9) & mask)
                .collect();
            if let Some(first) = folded.first_mut() {
                *first = mask;
            }
            let mut optimized = Vec::new();
            put_fixed_block(&mut optimized, &folded);
            let actual_width = folded
                .iter()
                .copied()
                .max()
                .map_or(0, |maximum| (u32::BITS - maximum.leading_zeros()) as u8);
            let mut writer = BitWriter::new(vec![actual_width]);
            for &value in &folded {
                writer.put_bits(value, actual_width);
            }
            let reference = writer.finish();
            assert_eq!(optimized, reference, "width {width}, length {length}");
        }
    }
}

#[test]
fn high_bit_legacy_version_accepts_only_legacy_modes() {
    let frame = Frame16::gray(1, 1, 12, FrameRate::new(24, 1), vec![17]).unwrap();
    let mut legacy = encode16(
        &frame,
        CodecOptions {
            quality: 100,
            ..CodecOptions::default()
        },
    )
    .unwrap();
    assert_eq!(legacy[4], VERSION16);
    assert_eq!(legacy[HEADER_LEN + 2], PREDICT_SPATIAL);
    legacy[4] = LEGACY_VERSION16;
    assert_eq!(decode16(&legacy, 1).unwrap(), frame);

    legacy[HEADER_LEN + 2] = PREDICT_AVERAGE;
    assert!(decode16(&legacy, 1).is_err());
}

fn nudged16(reference: &Frame16, period: usize, amount: u16, maximum: u16) -> Frame16 {
    let mut frame = reference.clone();
    for plane in &mut frame.planes {
        for (index, sample) in plane.data.iter_mut().enumerate() {
            if index % period == 0 {
                *sample = sample.saturating_add(amount).min(maximum);
            }
        }
    }
    frame
}

#[test]
fn quality_100_round_trips_every_high_depth_and_layout() {
    for bit_depth in [10, 12, 16] {
        for grayscale in [true, false] {
            let frame = patterned_frame(bit_depth, grayscale);
            let encoded = encode16(&frame, options(100)).unwrap();
            let info = inspect16(&encoded).unwrap();
            assert_eq!(info.format, frame.format);
            assert_eq!(info.quality, 100);
            assert_eq!(encoded[4], VERSION16);
            assert_eq!(encoded[7], bit_depth - 8);
            assert_eq!(decode16(&encoded, 2).unwrap(), frame);
            let models = analyze_entropy16(&encoded, &order0_cost).unwrap();
            assert_eq!(models.len(), info.tile_count);
            assert_eq!(
                models.iter().map(|model| model.sample_count).sum::<usize>(),
                frame.planes.iter().map(|plane| plane.data.len()).sum()
            );
            for tile_index in 0..info.tile_count {
                let tile = decode_tile16(&encoded, tile_index).unwrap();
                assert_eq!(tile.data.len(), (tile.width * tile.height) as usize);
            }
        }
    }
}

#[test]
fn independent_band_model_charges_each_added_boundary() {
    let width: u32 = 7;
    let height: u32 = 17;
    let data: Vec<u16> = (0..width * height)
        .map(|index| ((index * 71 + index * index * 3) % 1024) as u16)
        .collect();
    let plane = Plane16::new(width, height, 10, data).unwrap();
    let tile = Tile {
        plane: 0,
        x: 0,
        y: 0,
        width,
        height,
    };
    let quantizer = quantizer(90, 10);
    let samples = extract_tile(&plane.data, plane.width, plane.height, tile);
    let bands = model_clamp_gradient_bands(
        &samples,
        width as usize,
        height as usize,
        &quantizer,
        16,
    );
    let first_tile = Tile { height: 16, ..tile };
    let second_tile = Tile {
        y: 16,
        height: 1,
        ..tile
    };
    let first_samples = extract_tile(&plane.data, plane.width, plane.height, first_tile);
    let second_samples = extract_tile(&plane.data, plane.width, plane.height, second_tile);
    let first = model_predictor16(
        &first_samples,
        width as usize,
        &quantizer,
        PREDICT_CLAMP_GRADIENT,
        &[],
    );
    let second = model_predictor16(
        &second_samples,
        width as usize,
        &quantizer,
        PREDICT_CLAMP_GRADIENT,
        &[],
    );
    assert_eq!(bands.bands, 2);
    assert_eq!(bands.max_band_samples, width as usize * 16);
    assert_eq!(
        bands.payload_bytes,
        first.summary.payload_bytes + second.summary.payload_bytes
    );
    assert_eq!(bands.control_bytes, 5);
    assert_eq!(bands.complete_bytes, bands.payload_bytes + 5);
    assert_eq!(
        bands.squared_error,
        first.summary.squared_error + second.summary.squared_error
    );
    assert_eq!(
        bands.max_error,
        first.summary.max_error.max(second.summary.max_error)
    );
}

#[test]
fn parallel_entropy_model_charges_shards_modes_and_rice_lanes() {
    let zero_runs = model_parallel_entropy(&vec![0; 5000]);
    assert_eq!(
        zero_runs,
        ParallelEntropyModel {
            payload_bytes: 4,
            control_bytes: 6,
            complete_bytes: 10,
            max_span: 4096,
        }
    );

    let rice = model_parallel_entropy(&vec![1; 4096]);
    assert_eq!(
        rice,
        ParallelEntropyModel {
            payload_bytes: 1024,
            control_bytes: 13,
            complete_bytes: 1037,
            max_span: 1024,
        }
    );
}

#[test]
fn residual_mapping_model_matches_current_high_bit_tile_payloads() {
    let reference = patterned_frame(12, true);
    let frame = nudged16(&reference, 31, 1, 4095);
    let options = CodecOptions {
        quality: 90,
        tile_width: 16,
        tile_height: 15,
        threads: 2,
    };
    for reference in [None, Some(&reference)] {
        let selected =
            reference.filter(|reference| temporal_prediction_is_promising16(&frame, reference));
        let tiles = expected_tiles(
            frame.width,
            frame.height,
            frame.format,
            options.tile_width,
            options.tile_height,
            false,
        )
        .unwrap();
        let quantizer = quantizer(options.quality, frame.bit_depth());
        let models = analyze_residual_mapping16(&frame, reference, options).unwrap();
        for (model, tile) in models.iter().zip(&tiles) {
            let plane = &frame.planes[tile.plane];
            let samples = extract_tile(&plane.data, plane.width, plane.height, *tile);
            let reference_samples = selected.map(|reference| {
                let plane = &reference.planes[tile.plane];
                extract_tile(&plane.data, plane.width, plane.height, *tile)
            });
            let expected = encode_tile16(
                &samples,
                reference_samples.as_deref(),
                tile.width as usize,
                &quantizer,
            );
            assert_eq!(model.actual_payload_bytes, expected.payload.len());
            assert_eq!(
                model.source_zero_run,
                expected.entropy_mode == ENTROPY_ZERO_RUN
            );
            assert_eq!(
                model.temporal_prediction,
                expected.prediction_mode == PREDICT_TEMPORAL
            );
            assert!(model.bounded_payload_bytes > 0);
        }
    }
}

#[test]
fn predictor_oracle_matches_current_high_bit_payloads_and_error_bound() {
    let reference = patterned_frame(12, true);
    let frame = nudged16(&reference, 31, 1, 4095);
    for quality in [90, 100] {
        let options = CodecOptions {
            quality,
            tile_width: 16,
            tile_height: 15,
            threads: 2,
        };
        for reference in [None, Some(&reference)] {
            let encoded = if let Some(reference) = reference {
                encode16_with_reference(&frame, reference, options).unwrap()
            } else {
                encode16(&frame, options).unwrap()
            };
            let parsed = parse16(&encoded).unwrap();
            let models = analyze_predictors16(&frame, reference, options).unwrap();
            let error_bound = (quantization_step16(quality, 12) / 2) as u32;
            for (model, entry) in models.iter().zip(&parsed.entries) {
                assert_eq!(model.oracle.payload_bytes, entry.length);
                assert_eq!(
                    model.oracle.zero_run,
                    entry.entropy_mode == ENTROPY_ZERO_RUN
                );
                assert_eq!(
                    predictor_model_mode_code(model.oracle_mode),
                    entry.prediction_mode
                );
                for candidate in [
                    Some(model.paeth),
                    Some(model.average),
                    Some(model.clamp_gradient),
                    Some(model.half_gradient),
                    model.temporal,
                ]
                .into_iter()
                .flatten()
                {
                    assert!(candidate.max_error <= error_bound);
                    if quality == 100 {
                        assert_eq!(candidate.squared_error, 0);
                    }
                }
            }
        }
    }
}

#[test]
fn high_bit_predictor_oracle_propagates_exact_q100_reconstruction() {
    let first = patterned_frame(12, true);
    let second = nudged16(&first, 19, 2, 4095);
    let options = CodecOptions {
        quality: 100,
        tile_width: 16,
        tile_height: 15,
        threads: 1,
    };
    let (_, first_oracle) = analyze_predictor_frame16(&first, None, None, options).unwrap();
    assert_eq!(first_oracle, first);
    let (_, second_oracle) =
        analyze_predictor_frame16(&second, Some(&first), Some(&first_oracle), options).unwrap();
    assert_eq!(second_oracle, second);
}

#[test]
fn every_high_bit_version_two_spatial_mode_decodes_individual_tiles() {
    let frame = patterned_frame(12, true);
    let tile = Tile {
        plane: 0,
        x: 0,
        y: 0,
        width: frame.planes[0].width,
        height: frame.planes[0].height,
    };
    let quantizer = Quantizer16::new(1, 4095);
    let samples = extract_tile(&frame.planes[0].data, tile.width, tile.height, tile);
    for mode in [
        PREDICT_SPATIAL,
        PREDICT_AVERAGE,
        PREDICT_CLAMP_GRADIENT,
        PREDICT_HALF_GRADIENT,
    ] {
        let modeled = model_predictor16(&samples, tile.width as usize, &quantizer, mode, &[]);
        let decoded = decode_tile_payload16(
            tile,
            &modeled.encoded.payload,
            1,
            modeled.encoded.entropy_mode,
            modeled.encoded.prediction_mode,
            None,
            4095,
        )
        .unwrap();
        assert_eq!(decoded, modeled.reconstruction);
    }
}
