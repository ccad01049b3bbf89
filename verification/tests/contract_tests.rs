use fastvid::analyze::{analyze_entropy, analyze_predictor_frame, model_folded_payload};
use fastvid::codec::{parse, validate_reference_info};
use fastvid::codec16::{decode16, parse16};
use fastvid::model::{fold_bounded_residual, unfold_bounded_residual, sample_max};
use fastvid::rans::{
    build_rans_plan, decode_rans_symbols, decode_rans_symbols_interleaved, encode_rans_payload,
    encode_rans_payload_interleaved,
};
use fastvid::tile_coding::{ENTROPY_ORDER0, ENTROPY_ORDER0_4, folded_histogram};
use fastvid::{CodecError, CodecOptions, Frame, FrameRate, decode, decode_tile, encode, inspect};

/// A cost model under which every order-0 payload looks free, so that the encoder
/// picks order-0 rANS for every tile.
fn free_order0(_counts: &[u64], _frequencies: &[u64], _total: u64) -> u64 {
    0
}

fn textured_frame(width: u32, height: u32) -> Frame {
    let data: Vec<u8> = (0..width * height)
        .map(|index| ((index * 37 + (index / width) * 11) % 251) as u8)
        .collect();
    Frame::gray8(width, height, FrameRate::new(30, 1), data).unwrap()
}

fn sample_symbols() -> Vec<u32> {
    (0..3000u32).map(|index| (index * index + 7 * index) % 97 + (index % 5) * 80).collect()
}

#[test]
fn order0_payload_reads_back_its_symbols() {
    let folded = sample_symbols();
    let histogram = folded_histogram(&folded);
    let plan = build_rans_plan(&histogram, folded.len(), &free_order0).unwrap();
    let payload = encode_rans_payload(&folded, &plan);
    assert_eq!(decode_rans_symbols(&payload, folded.len(), 510).unwrap(), folded);
    let interleaved = encode_rans_payload_interleaved(&folded, &plan);
    assert_eq!(decode_rans_symbols_interleaved(&interleaved, folded.len(), 510).unwrap(), folded);
    assert_ne!(payload, interleaved);
}

#[test]
fn order0_payload_refusals_name_their_check() {
    assert!(matches!(
        decode_rans_symbols(&[], 4, 510),
        Err(CodecError::Malformed("truncated order-0 table"))
    ));
    assert!(matches!(
        decode_rans_symbols(&[7, 1, 0], 4, 510),
        Err(CodecError::Malformed("order-0 table log is out of range"))
    ));
    assert!(matches!(
        decode_rans_symbols(&[8, 0], 4, 510),
        Err(CodecError::Malformed("order-0 alphabet size is out of range"))
    ));
}

#[test]
fn order0_tiles_round_trip_losslessly() {
    let frame = textured_frame(67, 45);
    let options = CodecOptions { quality: 100, tile_width: 32, tile_height: 16, threads: 1 };
    let encoded = encode(&frame, options, &free_order0).unwrap();
    let info = inspect(&encoded).unwrap();
    let parsed = parse(&encoded).unwrap();
    assert!(parsed
        .entries
        .iter()
        .all(|entry| entry.entropy_mode == ENTROPY_ORDER0 || entry.entropy_mode == ENTROPY_ORDER0_4));
    assert_eq!(info.tile_count, parsed.entries.len());
    assert_eq!(decode(&encoded, 1).unwrap(), frame);
    assert_eq!(decode(&encoded, 3).unwrap(), frame);
    let models = analyze_entropy(&encoded, &free_order0).unwrap();
    assert_eq!(models.len(), info.tile_count);
}

#[test]
fn order0_payload_models_its_symbols() {
    let folded = sample_symbols();
    let histogram = folded_histogram(&folded);
    let plan = build_rans_plan(&histogram, folded.len(), &free_order0).unwrap();
    let payload = encode_rans_payload(&folded, &plan);
    let model = model_folded_payload(&payload, folded.len(), ENTROPY_ORDER0, 510).unwrap();
    assert_eq!(model.values(), folded.as_slice());
    assert!(matches!(
        model_folded_payload(&payload, folded.len(), 200, 510),
        Err(CodecError::Malformed("unknown tile entropy mode"))
    ));
}

#[test]
fn header_refusals_name_their_check() {
    let frame = textured_frame(5, 3);
    let encoded = encode(&frame, CodecOptions::default(), &free_order0).unwrap();
    assert!(matches!(parse(&encoded[..31]), Err(CodecError::Malformed("truncated header"))));
    let mut bad_magic = encoded.clone();
    bad_magic[0] = b'X';
    assert!(matches!(parse(&bad_magic), Err(CodecError::Malformed("bad magic"))));
    assert!(matches!(decode(&bad_magic, 1), Err(CodecError::Malformed("bad magic"))));
    let mut bad_version = encoded.clone();
    bad_version[4] = 9;
    assert!(matches!(parse(&bad_version), Err(CodecError::Malformed("unsupported version"))));
    assert!(matches!(
        decode(&encoded, 0),
        Err(CodecError::InvalidInput("thread count must be nonzero"))
    ));
    assert!(matches!(
        decode_tile(&encoded, 1000),
        Err(CodecError::InvalidInput("tile index is out of range"))
    ));
    assert!(matches!(parse16(&encoded[..10]), Err(CodecError::Malformed("truncated header"))));
    let mut extended = encoded.clone();
    extended.push(0);
    assert!(matches!(parse(&extended), Err(CodecError::Malformed("trailing stream bytes"))));
    assert!(matches!(
        parse(&encoded[..encoded.len() - 1]),
        Err(CodecError::Malformed("truncated tile payload"))
    ));
    assert!(matches!(decode16(&bad_magic, 1), Err(CodecError::Malformed("bad magic"))));
}

#[test]
fn reference_and_option_refusals_name_their_check() {
    let frame = textured_frame(6, 4);
    let encoded = encode(&frame, CodecOptions::default(), &free_order0).unwrap();
    let info = inspect(&encoded).unwrap();
    let other = textured_frame(4, 4);
    assert!(matches!(
        validate_reference_info(&info, &other),
        Err(CodecError::InvalidInput("reference dimensions or format do not match stream"))
    ));
    assert!(matches!(
        CodecOptions { quality: 0, ..CodecOptions::default() }.validate(),
        Err(CodecError::InvalidInput("quality must be in 1..=100"))
    ));
    assert!(matches!(
        CodecOptions { tile_width: 0, ..CodecOptions::default() }.validate(),
        Err(CodecError::InvalidInput("tile dimensions must be nonzero"))
    ));
    assert!(matches!(
        CodecOptions { threads: 0, ..CodecOptions::default() }.validate(),
        Err(CodecError::InvalidInput("thread count must be nonzero"))
    ));
    assert!(matches!(
        FrameRate::new(0, 1).validate(),
        Err(CodecError::InvalidInput("frame-rate numerator and denominator must be nonzero"))
    ));
    assert!(matches!(sample_max(9), Err(CodecError::InvalidInput("bit depth must be 8, 10, 12, or 16"))));
}

#[test]
fn bounded_fold_covers_wide_intervals() {
    let lower = -2_000_000_000;
    let upper = 100;
    assert_eq!(fold_bounded_residual(lower, lower, upper), 2_000_000_100);
    assert_eq!(fold_bounded_residual(-101, lower, upper), 201);
    assert_eq!(fold_bounded_residual(-100, lower, upper), 199);
    assert_eq!(fold_bounded_residual(100, lower, upper), 200);
    assert_eq!(fold_bounded_residual(-1, lower, upper), 1);
    let lower = -1_000_000_000;
    for value in [lower, -999_999_999, -101, -100, -1, 0, 1, 99, 100] {
        let folded = fold_bounded_residual(value, lower, upper);
        assert!(i64::from(folded) <= i64::from(upper) - i64::from(lower));
        assert_eq!(unfold_bounded_residual(folded, lower, upper), Some(value));
    }
}

#[test]
fn lossless_predictor_oracle_reconstructs_the_frame() {
    let frame = textured_frame(37, 21);
    let options = CodecOptions { quality: 100, tile_width: 16, tile_height: 8, threads: 1 };
    let (models, reconstruction) =
        analyze_predictor_frame(&frame, None, None, options, &free_order0).unwrap();
    assert_eq!(models.len(), inspect(&encode(&frame, options, &free_order0).unwrap()).unwrap().tile_count);
    assert_eq!(reconstruction, frame);
}
