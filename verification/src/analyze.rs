//! Read-only models of 8-bit streams and frames: entropy sizes of coded tiles,
//! predictor-bounded residual sizes and exact predictor comparisons.
use crate::analysis::{
    ByteFormatModel, MODEL_MAX_SYMBOLS, PredictorBandModel, PredictorCandidateModel,
    PredictorModelMode, TileEntropyModel, TilePredictorModel, cost_model, entropy_model_of,
    tile_entropy_model,
};
use crate::predict::{Quantizer, SpatialPredictor, spatial_prediction, spec_quantize};
use crate::model::{fold_bounded_residual, spec_fold_bounded};
use crate::residual::causal_prediction;
use crate::tile_coding16::min_rice_bytes;
use crate::entropy::{folded_domain, is_first_minimum, modeled_zero_run_cost, rice_cost, zero_run_encoding};
use crate::tile_coding::rice_bytes;
use crate::residual::{
    PREDICT_AVERAGE, PREDICT_CLAMP_GRADIENT, PREDICT_HALF_GRADIENT, PREDICT_SPATIAL,
    encode_residuals, fold_all, max_error, predict_tile, reconstruct, squared_error,
};
use crate::tile_coding::{EncodedTile, finish_entropy, payload_codes, selected_coding};
use crate::codec::{DirectoryEntry, Parsed, StreamInfo, layout_ok, parse, parsed_ok};
use crate::entropy::{ENTROPY_RICE_BASE, ENTROPY_ZERO_RUN};
use crate::model::{CodecError, CodecOptions, Frame, Plane, checked_area, plane_dims};
use crate::codec::{abs_diff_sum, encode_tile, reference_fits, temporal_prediction_is_promising, validate_reference};
use crate::analysis::TileResidualMappingModel;
use crate::tiles::{Tile, expected_tiles, lemma_spec_tiles_fit, spec_tiles, tile_fits, tiles_fit, tiling_ok};
use crate::tile_coding::{extract_tile, tile_samples, write_tile};
use crate::rans::{RansSymbol, decode_rans_symbols, decode_rans_symbols_interleaved, rans_carries};
use crate::residual::PREDICT_TEMPORAL;
use crate::tile_coding::{
    ENTROPY_ORDER0, ENTROPY_ORDER0_4, MAX_FOLDED, MAX_RICE_PARAMETER, decode_rice_symbols,
    decode_zero_run_symbols, order0_coders, rice_carries, tile_symbols, zero_run_carries,
};
use vstd::prelude::*;

verus! {

/// A model holding `symbols`, each at most `max_folded`.
pub open spec fn symbols_model(model: ByteFormatModel, count: nat, max_folded: u32) -> bool {
    &&& model.wf()
    &&& model@.len() == count
    &&& forall|i: int| 0 <= i < model@.len() ==> #[trigger] model@[i] <= max_folded
}

/// Appends decoded symbols to a model.
pub fn push_symbols(model: &mut ByteFormatModel, symbols: &[u32])
    requires
        old(model).wf(),
        old(model)@.len() + symbols.len() <= MODEL_MAX_SYMBOLS,
        forall|i: int| 0 <= i < symbols.len() ==> #[trigger] symbols@[i] <= 0x2_0000,
    ensures
        final(model).wf(),
        final(model)@ == old(model)@ + symbols@,
{
    let ghost before = model@;
    let mut index: usize = 0;
    while index < symbols.len()
        invariant
            model.wf(),
            index <= symbols.len(),
            before.len() + symbols.len() <= MODEL_MAX_SYMBOLS,
            forall|i: int| 0 <= i < symbols.len() ==> #[trigger] symbols@[i] <= 0x2_0000,
            model@ == before + symbols@.take(index as int),
        decreases symbols.len() - index,
    {
        model.push(symbols[index]);
        proof {
            assert(symbols@.take(index + 1) =~= symbols@.take(index as int).push(symbols@[index as int]));
        }
        index = index + 1;
    }
    proof {
        assert(symbols@.take(index as int) =~= symbols@);
    }
}

/// Decodes the folded residuals of one 8-bit tile payload into a symbol model; a
/// payload that codes symbols in the 8-bit range gives the model of those symbols.
pub fn model_folded_payload(payload: &[u8], sample_count: usize, entropy_mode: u8, max_folded: u32) -> (r:
    Result<ByteFormatModel, CodecError>)
    requires
        sample_count <= MODEL_MAX_SYMBOLS,
        max_folded <= 0xffff,
    ensures
        r matches Ok(model) ==> symbols_model(model, sample_count as nat, max_folded),
        !(entropy_mode == ENTROPY_ZERO_RUN || entropy_mode == ENTROPY_ORDER0 || entropy_mode
            == ENTROPY_ORDER0_4 || (ENTROPY_RICE_BASE <= entropy_mode <= ENTROPY_RICE_BASE
            + MAX_RICE_PARAMETER)) ==> r == Err::<ByteFormatModel, CodecError>(
            CodecError::Malformed("unknown tile entropy mode"),
        ),
        r is Err ==> r matches Err(CodecError::Malformed(_)),
        forall|f: Seq<u32>| #[trigger]
            payload_codes(entropy_mode, payload@, f) && f.len() == sample_count && tile_symbols(f)
                && MAX_FOLDED <= max_folded ==> (r matches Ok(model) && model@ == f),
{
    proof {
        assert forall|f: Seq<u32>| #[trigger] payload_codes(entropy_mode, payload@, f) && f.len() == sample_count
            && tile_symbols(f) && MAX_FOLDED <= max_folded implies {
            &&& entropy_mode == ENTROPY_ZERO_RUN ==> zero_run_carries(payload@, sample_count as int, max_folded, f)
            &&& ENTROPY_RICE_BASE <= entropy_mode <= ENTROPY_RICE_BASE + MAX_RICE_PARAMETER ==> rice_carries(
                payload@,
                sample_count as int,
                (entropy_mode - ENTROPY_RICE_BASE) as nat,
                max_folded,
                f,
            )
            &&& (entropy_mode == ENTROPY_ORDER0 || entropy_mode == ENTROPY_ORDER0_4) ==> exists|
                lg: u8,
                syms: Seq<RansSymbol>,
                lk: Seq<u16>,
            | #[trigger] rans_carries(payload@, sample_count as int, max_folded, order0_coders(entropy_mode), f, lg, syms, lk)
        } by {
            assert forall|i: int| 0 <= i < f.len() implies #[trigger] f[i] <= 0x2_0000 by {
                assert(f[i] <= MAX_FOLDED);
            }
            assert(folded_domain(f));
            if entropy_mode == ENTROPY_ORDER0 || entropy_mode == ENTROPY_ORDER0_4 {
                let (lg, syms, lk) = choose|lg: u8, syms: Seq<RansSymbol>, lk: Seq<u16>|
                    #[trigger] rans_carries(payload@, f.len() as int, MAX_FOLDED, order0_coders(entropy_mode), f, lg, syms, lk);
                assert forall|i: int| 0 <= i < syms.len() implies #[trigger] syms[i].value <= max_folded by {
                    assert(syms[i].value <= MAX_FOLDED);
                }
                assert(rans_carries(payload@, sample_count as int, max_folded, order0_coders(entropy_mode), f, lg, syms, lk));
            }
        }
    }
    let decoded = if entropy_mode == ENTROPY_ORDER0 {
        decode_rans_symbols(payload, sample_count, max_folded)
    } else if entropy_mode == ENTROPY_ORDER0_4 {
        decode_rans_symbols_interleaved(payload, sample_count, max_folded)
    } else if entropy_mode == ENTROPY_ZERO_RUN {
        decode_zero_run_symbols(payload, sample_count, max_folded)
    } else if ENTROPY_RICE_BASE <= entropy_mode && entropy_mode <= ENTROPY_RICE_BASE
        + MAX_RICE_PARAMETER {
        decode_rice_symbols(payload, sample_count, entropy_mode - ENTROPY_RICE_BASE, max_folded)
    } else {
        return Err(CodecError::Malformed("unknown tile entropy mode"));
    };
    let folded = match decoded {
        Ok(folded) => folded,
        Err(error) => {
            proof {
                assert forall|f: Seq<u32>|
                    !(#[trigger] payload_codes(entropy_mode, payload@, f) && f.len() == sample_count
                        && tile_symbols(f) && MAX_FOLDED <= max_folded) by {
                    if payload_codes(entropy_mode, payload@, f) && f.len() == sample_count && tile_symbols(f)
                        && MAX_FOLDED <= max_folded {
                        if entropy_mode == ENTROPY_ORDER0 || entropy_mode == ENTROPY_ORDER0_4 {
                            let (lg, syms, lk) = choose|lg: u8, syms: Seq<RansSymbol>, lk: Seq<u16>|
                                #[trigger] rans_carries(payload@, sample_count as int, max_folded, order0_coders(entropy_mode), f, lg, syms, lk);
                            assert(rans_carries(payload@, sample_count as int, max_folded, order0_coders(entropy_mode), f, lg, syms, lk));
                        }
                    }
                }
            }
            return Err(error);
        },
    };
    proof {
        assert forall|f: Seq<u32>| #[trigger] payload_codes(entropy_mode, payload@, f) && f.len() == sample_count
            && tile_symbols(f) && MAX_FOLDED <= max_folded implies folded@ == f by {
            if entropy_mode == ENTROPY_ORDER0 || entropy_mode == ENTROPY_ORDER0_4 {
                let (lg, syms, lk) = choose|lg: u8, syms: Seq<RansSymbol>, lk: Seq<u16>|
                    #[trigger] rans_carries(payload@, sample_count as int, max_folded, order0_coders(entropy_mode), f, lg, syms, lk);
                assert(rans_carries(payload@, sample_count as int, max_folded, order0_coders(entropy_mode), f, lg, syms, lk));
            }
        }
    }
    let mut model = ByteFormatModel::new();
    push_symbols(&mut model, folded.as_slice());
    proof {
        assert(model@ =~= folded@);
    }
    Ok(model)
}

/// The entropy model of tile `k` of a parsed 8-bit stream when its folded residuals
/// are `symbols`.
#[verifier::opaque]
pub open spec fn entry_entropy_model<F: Fn(&[u64], &[u64], u64) -> u64>(
    parsed: Parsed,
    k: int,
    symbols: Seq<u32>,
    cost: F,
) -> TileEntropyModel {
    let entry = parsed.entries@[k];
    entropy_model_of(
        entry.tile.plane,
        entry.tile.width,
        entry.tile.height,
        entry.prediction_mode == PREDICT_TEMPORAL,
        entry.entropy_mode == ENTROPY_ZERO_RUN,
        entry.length,
        symbols,
        cost,
        None,
        None,
    )
}

/// `model` is the entropy model of tile `k` of a parsed 8-bit stream over some
/// `width * height` folded residuals in the 8-bit range.
pub open spec fn entry_modeled<F: Fn(&[u64], &[u64], u64) -> u64>(
    parsed: Parsed,
    k: int,
    model: TileEntropyModel,
    cost: F,
) -> bool {
    exists|symbols: Seq<u32>|
        {
            &&& symbols.len() == parsed.entries@[k].tile.width * parsed.entries@[k].tile.height
            &&& forall|i: int| 0 <= i < symbols.len() ==> symbols[i] <= 510
            &&& model == #[trigger] entry_entropy_model(parsed, k, symbols, cost)
        }
}

/// The payload of directory entry `entry` in `bytes` codes `folded`, the tile's
/// folded residuals in the 8-bit range.
pub open spec fn entry_codes(bytes: Seq<u8>, entry: DirectoryEntry, folded: Seq<u32>) -> bool {
    &&& entry.offset + entry.length <= bytes.len()
    &&& payload_codes(entry.entropy_mode, bytes.subrange(entry.offset as int, entry.offset + entry.length), folded)
    &&& folded.len() == entry.tile.width * entry.tile.height
    &&& tile_symbols(folded)
}

/// The payload of `entry` codes some residuals of its tile.
pub open spec fn entry_coded(bytes: Seq<u8>, entry: DirectoryEntry) -> bool {
    exists|f: Seq<u32>| #[trigger] entry_codes(bytes, entry, f)
}

/// Every payload of `entries` codes the residuals of its tile.
pub open spec fn entries_code(bytes: Seq<u8>, entries: Seq<DirectoryEntry>) -> bool {
    forall|k: int| 0 <= k < entries.len() ==> #[trigger] entry_coded(bytes, entries[k])
}

/// Models the entropy coding of every tile of an 8-bit stream without changing it:
/// one record per directory entry, in directory order, over the tile's decoded
/// folded residuals. A stream whose payloads code their tiles' residuals is modeled,
/// each record over the residuals that its payload codes.
pub fn analyze_entropy<F: Fn(&[u64], &[u64], u64) -> u64>(bytes: &[u8], cost: &F) -> (r: Result<
    Vec<TileEntropyModel>,
    CodecError,
>)
    requires
        cost_model(*cost),
    ensures
        r matches Ok(models) ==> exists|parsed: Parsed|
            {
                &&& parsed_ok(bytes@, parsed)
                &&& models.len() == parsed.entries.len()
                &&& forall|k: int|
                    0 <= k < models.len() ==> entry_modeled(parsed, k, #[trigger] models@[k], *cost)
                &&& forall|k: int, f: Seq<u32>|
                    0 <= k < models.len() && #[trigger] entry_codes(bytes@, parsed.entries@[k], f)
                        ==> models@[k] == entry_entropy_model(parsed, k, f, *cost)
            },
        bytes.len() < crate::codec::HEADER_LEN ==> r matches Err(CodecError::Malformed(_)),
        forall|pi: StreamInfo, pv: u8, pe: Seq<DirectoryEntry>| #[trigger]
            layout_ok(bytes@, pi, pv, pe) && entries_code(bytes@, pe) ==> r is Ok,
{
    let parsed = parse(bytes)?;
    let mut models: Vec<TileEntropyModel> = Vec::with_capacity(parsed.entries.len());
    let mut index: usize = 0;
    while index < parsed.entries.len()
        invariant
            cost_model(*cost),
            parsed_ok(bytes@, parsed),
            forall|pi: StreamInfo, pv: u8, pe: Seq<DirectoryEntry>| #[trigger]
                layout_ok(bytes@, pi, pv, pe) ==> pe == parsed.entries@,
            index <= parsed.entries.len(),
            models.len() == index,
            forall|k: int| 0 <= k < index ==> entry_modeled(parsed, k, #[trigger] models@[k], *cost),
            forall|k: int, f: Seq<u32>|
                0 <= k < index && #[trigger] entry_codes(bytes@, parsed.entries@[k], f) ==> models@[k]
                    == entry_entropy_model(parsed, k, f, *cost),
        decreases parsed.entries.len() - index,
    {
        let entry = parsed.entries[index];
        proof {
            assert(parsed.entries@[index as int] == entry);
        }
        let payload = &bytes[entry.offset..entry.offset + entry.length];
        proof {
            assert(payload@ == bytes@.subrange(entry.offset as int, entry.offset + entry.length));
        }
        let sample_count = match checked_area(entry.tile.width, entry.tile.height) {
            Ok(area) => area,
            Err(error) => {
                proof {
                    if entries_code(bytes@, parsed.entries@) {
                        assert(entry_coded(bytes@, parsed.entries@[index as int]));
                        let f = choose|f: Seq<u32>| #[trigger] entry_codes(bytes@, parsed.entries@[index as int], f);
                        assert(entry_codes(bytes@, entry, f));
                    }
                }
                return Err(error);
            },
        };
        let model = match model_folded_payload(payload, sample_count, entry.entropy_mode, 510) {
            Ok(model) => model,
            Err(error) => {
                proof {
                    if entries_code(bytes@, parsed.entries@) {
                        assert(entry_coded(bytes@, parsed.entries@[index as int]));
                        let f = choose|f: Seq<u32>| #[trigger] entry_codes(bytes@, parsed.entries@[index as int], f);
                        assert(entry_codes(bytes@, entry, f));
                        assert(payload_codes(entry.entropy_mode, payload@, f));
                    }
                }
                return Err(error);
            },
        };
        let record = tile_entropy_model(
            entry.tile.plane,
            entry.tile.width,
            entry.tile.height,
            entry.prediction_mode == PREDICT_TEMPORAL,
            entry.entropy_mode == ENTROPY_ZERO_RUN,
            entry.length,
            &model,
            cost,
            None,
            None,
        );
        let ghost previous = models@;
        models.push(record);
        proof {
            assert(models@[index as int] == entry_entropy_model(parsed, index as int, model@, *cost)) by {
                reveal(entry_entropy_model);
            }
            assert(entry_modeled(parsed, index as int, models@[index as int], *cost));
            assert forall|k: int| 0 <= k < index + 1 implies entry_modeled(
                parsed,
                k,
                #[trigger] models@[k],
                *cost,
            ) by {
                if k < index {
                    assert(models@[k] == previous[k]);
                }
            }
            assert forall|k: int, f: Seq<u32>|
                0 <= k < index + 1 && #[trigger] entry_codes(bytes@, parsed.entries@[k], f) implies models@[k]
                    == entry_entropy_model(parsed, k, f, *cost) by {
                if k < index {
                    assert(models@[k] == previous[k]);
                } else {
                    assert(payload_codes(entry.entropy_mode, payload@, f));
                    assert(model@ == f);
                }
            }
        }
        index = index + 1;
    }
    Ok(models)
}

// ---------------------------------------------------------------------------
// Predictor candidates
// ---------------------------------------------------------------------------

/// Prediction mode code of a modeled predictor.
pub open spec fn mode_code(mode: PredictorModelMode) -> u8 {
    match mode {
        PredictorModelMode::Paeth => PREDICT_SPATIAL,
        PredictorModelMode::Average => PREDICT_AVERAGE,
        PredictorModelMode::ClampGradient => PREDICT_CLAMP_GRADIENT,
        PredictorModelMode::HalfGradient => PREDICT_HALF_GRADIENT,
        PredictorModelMode::Temporal => PREDICT_TEMPORAL,
    }
}

/// Prediction mode code of a modeled predictor.
pub fn predictor_model_mode_code(mode: PredictorModelMode) -> (code: u8)
    ensures
        code == mode_code(mode),
{
    match mode {
        PredictorModelMode::Paeth => PREDICT_SPATIAL,
        PredictorModelMode::Average => PREDICT_AVERAGE,
        PredictorModelMode::ClampGradient => PREDICT_CLAMP_GRADIENT,
        PredictorModelMode::HalfGradient => PREDICT_HALF_GRADIENT,
        PredictorModelMode::Temporal => PREDICT_TEMPORAL,
    }
}

/// One predictor coded on one tile: its summary, its reconstruction and its coding.
pub struct ModeledPredictor {
    pub summary: PredictorCandidateModel,
    pub reconstruction: Vec<u8>,
    pub encoded: EncodedTile,
}

/// `candidate` is tile `samples` coded with prediction mode `mode`.
#[verifier::opaque]
pub open spec fn models_candidate(
    candidate: ModeledPredictor,
    samples: Seq<u8>,
    width: int,
    step: int,
    mode: u8,
    reference: Seq<u8>,
) -> bool {
    let residuals = encode_residuals(samples, mode, width, step, reference);
    let recon = reconstruct(residuals, mode, width, step, reference);
    &&& candidate.reconstruction@ == recon
    &&& candidate.summary.squared_error == squared_error(samples, recon)
    &&& candidate.summary.max_error == max_error(samples, recon)
    &&& candidate.encoded.prediction_mode == mode
    &&& payload_codes(candidate.encoded.entropy_mode, candidate.encoded.payload@, fold_all(residuals))
    &&& selected_coding(
        candidate.encoded.entropy_mode,
        candidate.encoded.payload.len() as int,
        fold_all(residuals),
    )
    &&& candidate.summary.payload_bytes == candidate.encoded.payload.len()
    &&& candidate.summary.zero_run == (candidate.encoded.entropy_mode == ENTROPY_ZERO_RUN)
}

/// Codes one tile with prediction mode `mode` and measures the result.
pub fn model_predictor<F: Fn(&[u64], &[u64], u64) -> u64>(
    samples: &[u8],
    width: usize,
    quantizer: &Quantizer,
    mode: u8,
    reference: &[u8],
    cost: &F,
) -> (candidate: ModeledPredictor)
    requires
        quantizer.wf(),
        width >= 1,
        samples.len() <= 0x4000_0000,
        mode == PREDICT_TEMPORAL || crate::residual::is_spatial_mode(mode),
        mode == PREDICT_TEMPORAL ==> reference.len() == samples.len(),
        cost_model(*cost),
    ensures
        models_candidate(candidate, samples@, width as int, quantizer.spec_step(), mode, reference@),
        candidate.reconstruction.len() == samples.len(),
{
    let predicted = predict_tile(samples, width, mode, quantizer, reference);
    let crate::residual::PredictedTile { folded, reconstruction, squared_error, max_error } = predicted;
    proof {
        quantizer.lemma_bounds();
        crate::residual::lemma_encode_reconstruct(
            samples@,
            mode,
            width as int,
            quantizer.spec_step(),
            reference@,
        );
        assert(crate::tile_coding::tile_symbols(folded@));
    }
    let encoded = finish_entropy(folded, mode, cost);
    let summary = PredictorCandidateModel {
        payload_bytes: encoded.payload.len(),
        squared_error,
        max_error,
        zero_run: encoded.entropy_mode == ENTROPY_ZERO_RUN,
    };
    let candidate = ModeledPredictor { summary, reconstruction, encoded };
    proof {
        reveal(models_candidate);
    }
    candidate
}

/// Fewest payload bytes among the first `count` candidates.
pub open spec fn min_payload(candidates: Seq<(PredictorModelMode, PredictorCandidateModel)>, count: nat) -> usize
    decreases count,
{
    if count <= 1 {
        candidates[0].1.payload_bytes
    } else {
        let previous = min_payload(candidates, (count - 1) as nat);
        let current = candidates[count - 1].1.payload_bytes;
        if current < previous {
            current
        } else {
            previous
        }
    }
}

/// Index of the first candidate among the first `count` with `minimum` payload bytes
/// and the least squared error among those, or -1.
pub open spec fn first_least_error(
    candidates: Seq<(PredictorModelMode, PredictorCandidateModel)>,
    minimum: usize,
    count: nat,
) -> int
    decreases count,
{
    if count == 0 {
        -1
    } else {
        let previous = first_least_error(candidates, minimum, (count - 1) as nat);
        let i = count - 1;
        if candidates[i].1.payload_bytes != minimum {
            previous
        } else if previous < 0 || candidates[i].1.squared_error < candidates[previous].1.squared_error {
            i
        } else {
            previous
        }
    }
}

/// The exact-byte oracle: the current choice when it is a candidate with the fewest
/// bytes, else the first candidate with the fewest bytes and the least error.
pub open spec fn oracle_pick(
    candidates: Seq<(PredictorModelMode, PredictorCandidateModel)>,
    current_mode: PredictorModelMode,
    current: PredictorCandidateModel,
    current_is_candidate: bool,
) -> (PredictorModelMode, PredictorCandidateModel) {
    let minimum = min_payload(candidates, candidates.len());
    if current_is_candidate && current.payload_bytes == minimum {
        (current_mode, current)
    } else {
        candidates[first_least_error(candidates, minimum, candidates.len())]
    }
}

/// The smallest payload of the first `count` candidates is one of theirs and bounds them all.
pub proof fn lemma_min_payload_attained(candidates: Seq<(PredictorModelMode, PredictorCandidateModel)>, count: nat)
    requires
        1 <= count <= candidates.len(),
    ensures
        exists|i: int| 0 <= i < count && #[trigger] candidates[i].1.payload_bytes == min_payload(candidates, count),
        forall|i: int| 0 <= i < count ==> min_payload(candidates, count) <= #[trigger] candidates[i].1.payload_bytes,
    decreases count,
{
    if count > 1 {
        lemma_min_payload_attained(candidates, (count - 1) as nat);
        if candidates[count - 1].1.payload_bytes >= min_payload(candidates, (count - 1) as nat) {
            let i = choose|i: int| 0 <= i < count - 1 && #[trigger] candidates[i].1.payload_bytes == min_payload(candidates, (count - 1) as nat);
            assert(candidates[i].1.payload_bytes == min_payload(candidates, count));
        } else {
            assert(candidates[count - 1].1.payload_bytes == min_payload(candidates, count));
        }
    } else {
        assert(candidates[0].1.payload_bytes == min_payload(candidates, count));
    }
}

/// The first candidate with payload `minimum` and least error, if any, lies among the first `count`.
pub proof fn lemma_first_least_error_range(candidates: Seq<(PredictorModelMode, PredictorCandidateModel)>, minimum: usize, count: nat)
    ensures
        -1 <= first_least_error(candidates, minimum, count) < count,
        first_least_error(candidates, minimum, count) >= 0 ==> candidates[first_least_error(
            candidates,
            minimum,
            count,
        )].1.payload_bytes == minimum,
    decreases count,
{
    if count > 0 {
        lemma_first_least_error_range(candidates, minimum, (count - 1) as nat);
    }
}

/// A candidate with payload `minimum` among the first `count` makes the search find one.
pub proof fn lemma_first_least_error_found(candidates: Seq<(PredictorModelMode, PredictorCandidateModel)>, minimum: usize, count: nat)
    requires
        exists|i: int| 0 <= i < count && #[trigger] candidates[i].1.payload_bytes == minimum,
    ensures
        first_least_error(candidates, minimum, count) >= 0,
    decreases count,
{
    lemma_first_least_error_range(candidates, minimum, count);
    if count > 0 {
        let i = count - 1;
        if candidates[i].1.payload_bytes != minimum {
            lemma_first_least_error_found(candidates, minimum, (count - 1) as nat);
        }
    }
}

/// Picks the oracle among `candidates` (see `oracle_pick`); returns its index, or the
/// number of candidates for the current choice.
pub fn pick_oracle(
    candidates: &Vec<(PredictorModelMode, PredictorCandidateModel)>,
    current_mode: PredictorModelMode,
    current: PredictorCandidateModel,
    current_is_candidate: bool,
) -> (picked: (PredictorModelMode, PredictorCandidateModel))
    requires
        candidates.len() >= 1,
    ensures
        picked == oracle_pick(candidates@, current_mode, current, current_is_candidate),
{
    let mut minimum = candidates[0].1.payload_bytes;
    let mut k: usize = 1;
    while k < candidates.len()
        invariant
            1 <= k <= candidates.len(),
            minimum == min_payload(candidates@, k as nat),
        decreases candidates.len() - k,
    {
        if candidates[k].1.payload_bytes < minimum {
            minimum = candidates[k].1.payload_bytes;
        }
        k = k + 1;
    }
    if current_is_candidate && current.payload_bytes == minimum {
        return (current_mode, current);
    }
    let mut best: usize = candidates.len();
    let mut k: usize = 0;
    proof {
        lemma_min_payload_attained(candidates@, candidates.len() as nat);
        lemma_first_least_error_found(candidates@, minimum, candidates.len() as nat);
    }
    while k < candidates.len()
        invariant
            k <= candidates.len(),
            best <= candidates.len(),
            minimum == min_payload(candidates@, candidates.len() as nat),
            best == candidates.len() <==> first_least_error(candidates@, minimum, k as nat) < 0,
            best < candidates.len() ==> best == first_least_error(candidates@, minimum, k as nat),
        decreases candidates.len() - k,
    {
        proof {
            lemma_first_least_error_range(candidates@, minimum, k as nat);
        }
        if candidates[k].1.payload_bytes == minimum && (best == candidates.len()
            || candidates[k].1.squared_error < candidates[best].1.squared_error) {
            best = k;
        }
        k = k + 1;
    }
    proof {
        lemma_first_least_error_range(candidates@, minimum, candidates.len() as nat);
    }
    candidates[best]
}

/// `summary` measures tile `samples` coded with prediction mode `mode`.
#[verifier::opaque]
pub open spec fn summarizes(
    summary: PredictorCandidateModel,
    samples: Seq<u8>,
    width: int,
    step: int,
    mode: u8,
    reference: Seq<u8>,
) -> bool {
    let residuals = encode_residuals(samples, mode, width, step, reference);
    let recon = reconstruct(residuals, mode, width, step, reference);
    &&& summary.squared_error == squared_error(samples, recon)
    &&& summary.max_error == max_error(samples, recon)
    &&& exists|entropy_mode: u8, payload: Seq<u8>|
        {
            &&& payload.len() == summary.payload_bytes
            &&& #[trigger] payload_codes(entropy_mode, payload, fold_all(residuals))
            &&& selected_coding(entropy_mode, payload.len() as int, fold_all(residuals))
            &&& summary.zero_run == (entropy_mode == ENTROPY_ZERO_RUN)
        }
}

/// The candidates of a predictor model in the order the oracle considers them.
pub open spec fn model_candidates(model: TilePredictorModel) -> Seq<(PredictorModelMode, PredictorCandidateModel)> {
    let spatial = seq![
        (PredictorModelMode::Paeth, model.paeth),
        (PredictorModelMode::Average, model.average),
        (PredictorModelMode::ClampGradient, model.clamp_gradient),
        (PredictorModelMode::HalfGradient, model.half_gradient),
    ];
    match model.temporal {
        Some(t) => spatial.push((PredictorModelMode::Temporal, t)),
        None => spatial,
    }
}

/// The band model of a tile that is not split into bands.
pub open spec fn no_bands() -> PredictorBandModel {
    PredictorBandModel {
        bands: 0,
        max_band_samples: 0,
        payload_bytes: 0,
        control_bytes: 0,
        complete_bytes: 0,
        squared_error: 0,
        max_error: 0,
        parallel_payload_bytes: 0,
        parallel_control_bytes: 0,
        parallel_complete_bytes: 0,
        max_entropy_span: 0,
    }
}

/// `model` and `reconstruction` are the predictor model of 8-bit tile `samples`:
/// every spatial predictor, temporal prediction from `available` when given, the
/// encoder's current choice (temporal from `current` when given, else Paeth), and
/// the exact-byte oracle with the reconstruction it yields.
pub open spec fn predictor_tile_ok(
    model: TilePredictorModel,
    reconstruction: Seq<u8>,
    samples: Seq<u8>,
    width: int,
    step: int,
    available: Option<Seq<u8>>,
    current: Option<Seq<u8>>,
    current_matches: bool,
) -> bool {
    let none = Seq::<u8>::empty();
    let current_is_candidate = model.current_mode == PredictorModelMode::Paeth || current_matches;
    &&& model.sample_count == samples.len()
    &&& summarizes(model.paeth, samples, width, step, PREDICT_SPATIAL, none)
    &&& summarizes(model.average, samples, width, step, PREDICT_AVERAGE, none)
    &&& summarizes(model.clamp_gradient, samples, width, step, PREDICT_CLAMP_GRADIENT, none)
    &&& summarizes(model.half_gradient, samples, width, step, PREDICT_HALF_GRADIENT, none)
    &&& (model.temporal is Some <==> available is Some)
    &&& (available matches Some(r) ==> summarizes(
        model.temporal->0,
        samples,
        width,
        step,
        PREDICT_TEMPORAL,
        r,
    ))
    &&& model.current_mode == (if current is Some {
        PredictorModelMode::Temporal
    } else {
        PredictorModelMode::Paeth
    })
    &&& (current matches Some(r) ==> summarizes(model.current, samples, width, step, PREDICT_TEMPORAL, r))
    &&& (current is None ==> model.current == model.paeth)
    &&& (model.oracle_mode, model.oracle) == oracle_pick(
        model_candidates(model),
        model.current_mode,
        model.current,
        current_is_candidate,
    )
    &&& (model.oracle_mode == PredictorModelMode::Temporal ==> available is Some)
    &&& reconstruction == reconstruct(
        encode_residuals(
            samples,
            mode_code(model.oracle_mode),
            width,
            step,
            if model.oracle_mode == PredictorModelMode::Temporal {
                available->0
            } else {
                none
            },
        ),
        mode_code(model.oracle_mode),
        width,
        step,
        if model.oracle_mode == PredictorModelMode::Temporal {
            available->0
        } else {
            none
        },
    )
}

proof fn lemma_candidate_summarizes(
    candidate: ModeledPredictor,
    samples: Seq<u8>,
    width: int,
    step: int,
    mode: u8,
    reference: Seq<u8>,
)
    requires
        models_candidate(candidate, samples, width, step, mode, reference),
    ensures
        summarizes(candidate.summary, samples, width, step, mode, reference),
        candidate.reconstruction@ == reconstruct(
            encode_residuals(samples, mode, width, step, reference),
            mode,
            width,
            step,
            reference,
        ),
{
    reveal(summarizes);
    reveal(models_candidate);
    let residuals = encode_residuals(samples, mode, width, step, reference);
    assert(payload_codes(candidate.encoded.entropy_mode, candidate.encoded.payload@, fold_all(residuals)));
}

/// Copies a reconstruction.
fn copy_samples(samples: &Vec<u8>) -> (copy: Vec<u8>)
    ensures
        copy@ == samples@,
{
    let mut copy: Vec<u8> = Vec::with_capacity(samples.len());
    let mut i: usize = 0;
    while i < samples.len()
        invariant
            i <= samples.len(),
            copy@ == samples@.take(i as int),
        decreases samples.len() - i,
    {
        copy.push(samples[i]);
        proof {
            assert(samples@.take(i + 1) =~= samples@.take(i as int).push(samples@[i as int]));
        }
        i = i + 1;
    }
    proof {
        assert(samples@.take(i as int) =~= samples@);
    }
    copy
}

/// Models every compatible predictor on one 8-bit tile and picks the exact-byte
/// oracle (see `predictor_tile_ok`); `current_matches` says whether the current
/// reference is the available one.
#[verifier::rlimit(40)]
pub fn model_predictor_tile<F: Fn(&[u64], &[u64], u64) -> u64>(
    samples: &[u8],
    available_reference: Option<&[u8]>,
    current_reference: Option<&[u8]>,
    current_matches: bool,
    plane: usize,
    tile_width: u32,
    tile_height: u32,
    quantizer: &Quantizer,
    cost: &F,
) -> (result: (TilePredictorModel, Vec<u8>))
    requires
        quantizer.wf(),
        tile_width >= 1,
        samples.len() == tile_width * tile_height,
        samples.len() <= 0x4000_0000,
        available_reference matches Some(r) ==> r.len() == samples.len(),
        current_reference matches Some(r) ==> r.len() == samples.len(),
        current_matches ==> available_reference is Some && current_reference is Some,
        cost_model(*cost),
    ensures
        result.0.plane == plane && result.0.width == tile_width && result.0.height == tile_height,
        result.0.band16_clamp == no_bands() && result.0.band32_clamp == no_bands()
            && result.0.band64_clamp == no_bands(),
        predictor_tile_ok(
            result.0,
            result.1@,
            samples@,
            tile_width as int,
            quantizer.spec_step(),
            match available_reference {
                Some(r) => Some(r@),
                None => None,
            },
            match current_reference {
                Some(r) => Some(r@),
                None => None,
            },
            current_matches,
        ),
{
    let width = tile_width as usize;
    let none: Vec<u8> = Vec::new();
    let ghost step = quantizer.spec_step();
    let paeth = model_predictor(samples, width, quantizer, PREDICT_SPATIAL, none.as_slice(), cost);
    let average = model_predictor(samples, width, quantizer, PREDICT_AVERAGE, none.as_slice(), cost);
    let clamp_gradient = model_predictor(samples, width, quantizer, PREDICT_CLAMP_GRADIENT, none.as_slice(), cost);
    let half_gradient = model_predictor(samples, width, quantizer, PREDICT_HALF_GRADIENT, none.as_slice(), cost);
    let temporal = match available_reference {
        Some(r) => Some(model_predictor(samples, width, quantizer, PREDICT_TEMPORAL, r, cost)),
        None => None,
    };
    let current_temporal = match current_reference {
        Some(r) => Some(model_predictor(samples, width, quantizer, PREDICT_TEMPORAL, r, cost)),
        None => None,
    };
    proof {
        lemma_candidate_summarizes(paeth, samples@, width as int, step, PREDICT_SPATIAL, none@);
        lemma_candidate_summarizes(average, samples@, width as int, step, PREDICT_AVERAGE, none@);
        lemma_candidate_summarizes(clamp_gradient, samples@, width as int, step, PREDICT_CLAMP_GRADIENT, none@);
        lemma_candidate_summarizes(half_gradient, samples@, width as int, step, PREDICT_HALF_GRADIENT, none@);
        if temporal is Some {
            lemma_candidate_summarizes(temporal->0, samples@, width as int, step, PREDICT_TEMPORAL, available_reference->0@);
        }
        if current_temporal is Some {
            lemma_candidate_summarizes(current_temporal->0, samples@, width as int, step, PREDICT_TEMPORAL, current_reference->0@);
        }
    }
    let (current_mode, current) = match &current_temporal {
        Some(candidate) => (PredictorModelMode::Temporal, candidate.summary),
        None => (PredictorModelMode::Paeth, paeth.summary),
    };
    let mut candidates: Vec<(PredictorModelMode, PredictorCandidateModel)> = Vec::with_capacity(5);
    candidates.push((PredictorModelMode::Paeth, paeth.summary));
    candidates.push((PredictorModelMode::Average, average.summary));
    candidates.push((PredictorModelMode::ClampGradient, clamp_gradient.summary));
    candidates.push((PredictorModelMode::HalfGradient, half_gradient.summary));
    let temporal_summary = match &temporal {
        Some(candidate) => {
            candidates.push((PredictorModelMode::Temporal, candidate.summary));
            Some(candidate.summary)
        },
        None => None,
    };
    let current_is_candidate = match current_mode {
        PredictorModelMode::Paeth => true,
        _ => current_matches,
    };
    let (oracle_mode, oracle) = pick_oracle(&candidates, current_mode, current, current_is_candidate);
    let zero_bands = PredictorBandModel {
        bands: 0,
        max_band_samples: 0,
        payload_bytes: 0,
        control_bytes: 0,
        complete_bytes: 0,
        squared_error: 0,
        max_error: 0,
        parallel_payload_bytes: 0,
        parallel_control_bytes: 0,
        parallel_complete_bytes: 0,
        max_entropy_span: 0,
    };
    let model = TilePredictorModel {
        plane,
        width: tile_width,
        height: tile_height,
        sample_count: samples.len(),
        current_mode,
        oracle_mode,
        current,
        oracle,
        paeth: paeth.summary,
        average: average.summary,
        clamp_gradient: clamp_gradient.summary,
        half_gradient: half_gradient.summary,
        temporal: temporal_summary,
        band16_clamp: zero_bands,
        band32_clamp: zero_bands,
        band64_clamp: zero_bands,
    };
    proof {
        assert(candidates@ =~= model_candidates(model));
        let picked = oracle_pick(model_candidates(model), current_mode, current, current_is_candidate);
        let minimum = min_payload(model_candidates(model), model_candidates(model).len());
        if !(current_is_candidate && current.payload_bytes == minimum) {
            lemma_min_payload_attained(model_candidates(model), model_candidates(model).len());
            lemma_first_least_error_found(model_candidates(model), minimum, model_candidates(model).len());
            lemma_first_least_error_range(model_candidates(model), minimum, model_candidates(model).len());
        }
    }
    let reconstruction = match oracle_mode {
        PredictorModelMode::Paeth => copy_samples(&paeth.reconstruction),
        PredictorModelMode::Average => copy_samples(&average.reconstruction),
        PredictorModelMode::ClampGradient => copy_samples(&clamp_gradient.reconstruction),
        PredictorModelMode::HalfGradient => copy_samples(&half_gradient.reconstruction),
        PredictorModelMode::Temporal => match &temporal {
            Some(candidate) => copy_samples(&candidate.reconstruction),
            None => Vec::new(),
        },
    };
    proof {
        let avail = match available_reference {
            Some(r) => Some(r@),
            None => None::<Seq<u8>>,
        };
        let cur = match current_reference {
            Some(r) => Some(r@),
            None => None::<Seq<u8>>,
        };
        assert(model.sample_count == samples@.len());
        assert(model.temporal is Some <==> avail is Some);
        assert(avail matches Some(r) ==> summarizes(model.temporal->0, samples@, width as int, step, PREDICT_TEMPORAL, r));
        assert(cur matches Some(r) ==> summarizes(model.current, samples@, width as int, step, PREDICT_TEMPORAL, r));
        assert((model.oracle_mode, model.oracle) == oracle_pick(model_candidates(model), model.current_mode, model.current, model.current_mode == PredictorModelMode::Paeth || current_matches));
        assert(model.oracle_mode == PredictorModelMode::Temporal ==> avail is Some);
    }
    (model, reconstruction)
}

// ---------------------------------------------------------------------------
// Predictor-bounded residual mapping
// ---------------------------------------------------------------------------

/// Quantization keeps the order of residuals.
pub proof fn lemma_quantize_monotone(a: int, b: int, step: int)
    requires
        a <= b,
        step >= 1,
    ensures
        spec_quantize(a, step) <= spec_quantize(b, step),
{
    let h = step / 2;
    if a >= 0 {
        vstd::arithmetic::div_mod::lemma_div_is_ordered(a + h, b + h, step);
    } else if b >= 0 {
        assert((-a + h) / step >= 0) by {
            vstd::arithmetic::div_mod::lemma_div_pos_is_pos(-a + h, step);
        }
        assert((b + h) / step >= 0) by {
            vstd::arithmetic::div_mod::lemma_div_pos_is_pos(b + h, step);
        }
    } else {
        vstd::arithmetic::div_mod::lemma_div_is_ordered(-b + h, -a + h, step);
    }
}

/// Folded residuals of one 8-bit tile when each residual is folded within the
/// interval that its prediction leaves possible.
pub open spec fn bounded_folded(samples: Seq<u8>, mode: u8, width: int, step: int, reference: Seq<u8>) -> Seq<u32>
    decreases samples.len(),
{
    if samples.len() == 0 {
        Seq::empty()
    } else {
        let previous = encode_residuals(samples.drop_last(), mode, width, step, reference);
        let recon = reconstruct(previous, mode, width, step, reference);
        let i = samples.len() - 1;
        let p = causal_prediction(mode, recon, i, width, reference);
        bounded_folded(samples.drop_last(), mode, width, step, reference).push(
            spec_fold_bounded(
                spec_quantize(samples[i] - p, step),
                spec_quantize(-p, step),
                spec_quantize(255 - p, step),
            ) as u32,
        )
    }
}

/// Folds the residuals of one 8-bit tile within their possible intervals.
pub fn bounded_residuals(
    samples: &[u8],
    width: usize,
    mode: u8,
    quantizer: &Quantizer,
    reference: &[u8],
) -> (folded: Vec<u32>)
    requires
        quantizer.wf(),
        width >= 1,
        samples.len() <= 0x4000_0000,
        mode == PREDICT_TEMPORAL || crate::residual::is_spatial_mode(mode),
        mode == PREDICT_TEMPORAL ==> reference.len() == samples.len(),
    ensures
        folded@ == bounded_folded(samples@, mode, width as int, quantizer.spec_step(), reference@),
        folded.len() == samples.len(),
        forall|i: int| 0 <= i < folded.len() ==> #[trigger] folded@[i] <= 510,
{
    let step = quantizer.step();
    let ghost spec_step = quantizer.spec_step();
    let mut folded: Vec<u32> = Vec::with_capacity(samples.len());
    let mut recon: Vec<u8> = Vec::with_capacity(samples.len());
    let mut index: usize = 0;
    let predictor = if mode == PREDICT_TEMPORAL {
        SpatialPredictor::Paeth
    } else {
        match crate::residual::spatial_predictor_from_mode(mode) {
            Ok(predictor) => predictor,
            Err(_) => SpatialPredictor::Paeth,
        }
    };
    proof {
        assert(samples@.take(0) =~= Seq::<u8>::empty());
    }
    while index < samples.len()
        invariant
            quantizer.wf(),
            step == spec_step,
            1 <= step <= 0x2000_0000,
            spec_step == quantizer.spec_step(),
            width >= 1,
            samples.len() <= 0x4000_0000,
            mode == PREDICT_TEMPORAL || crate::residual::is_spatial_mode(mode),
            mode != PREDICT_TEMPORAL ==> predictor == crate::residual::spatial_mode(mode),
            mode == PREDICT_TEMPORAL ==> reference.len() == samples.len(),
            index <= samples.len(),
            folded@ == bounded_folded(samples@.take(index as int), mode, width as int, spec_step, reference@),
            recon@ == reconstruct(
                encode_residuals(samples@.take(index as int), mode, width as int, spec_step, reference@),
                mode,
                width as int,
                spec_step,
                reference@,
            ),
            recon.len() == index,
            folded.len() == index,
            forall|i: int| 0 <= i < folded.len() ==> #[trigger] folded@[i] <= 510,
        decreases samples.len() - index,
    {
        let ghost before_samples = samples@.take(index as int);
        let ghost after_samples = samples@.take(index + 1);
        let ghost previous = encode_residuals(before_samples, mode, width as int, spec_step, reference@);
        proof {
            assert(after_samples.drop_last() =~= before_samples);
            crate::residual::lemma_encode_reconstruct(before_samples, mode, width as int, spec_step, reference@);
            crate::residual::lemma_neighbours_public(index as int, width as int);
        }
        let x = index % width;
        let y = index / width;
        let prediction: u8 = if mode == PREDICT_TEMPORAL {
            reference[index]
        } else {
            let left = if x > 0 {
                recon[index - 1]
            } else {
                0
            };
            let above = if y > 0 {
                recon[index - width]
            } else {
                0
            };
            let upper_left = if x > 0 && y > 0 {
                recon[index - width - 1]
            } else {
                0
            };
            spatial_prediction(predictor, left, above, upper_left)
        };
        proof {
            assert(prediction == causal_prediction(mode, recon@, index as int, width as int, reference@));
        }
        let sample = samples[index];
        let quantized = quantizer.quantize(sample as i32 - prediction as i32);
        let lower = quantizer.quantize(-(prediction as i32));
        let upper = quantizer.quantize(255 - prediction as i32);
        proof {
            lemma_quantize_monotone(-(prediction as int), sample - prediction, spec_step);
            lemma_quantize_monotone(sample - prediction, 255 - prediction, spec_step);
            lemma_quantize_monotone(-(prediction as int), 0, spec_step);
            lemma_quantize_monotone(0, 255 - prediction, spec_step);
            assert(spec_quantize(0, spec_step) == 0) by {
                vstd::arithmetic::div_mod::lemma_basic_div((spec_step / 2) as int, spec_step);
            }
        }
        let value = fold_bounded_residual(quantized, lower, upper);
        proof {
            assert(-(prediction as int) >= -255);
            assert(-255 <= lower && upper <= 255);
        }
        proof {
            assert(-255 * 0x2000_0000 <= quantized * step <= 255 * 0x2000_0000) by (nonlinear_arith)
                requires
                    -255 <= quantized <= 255,
                    1 <= step <= 0x2000_0000,
            ;
        }
        let reconstructed_value: i64 = prediction as i64 + quantized as i64 * step as i64;
        let reconstructed: u8 = if reconstructed_value < 0 {
            0
        } else if reconstructed_value > 255 {
            255
        } else {
            reconstructed_value as u8
        };
        let ghost q = spec_quantize(sample - prediction, spec_step);
        proof {
            assert(quantized == q);
            assert(encode_residuals(after_samples, mode, width as int, spec_step, reference@) == previous.push(q));
            assert(previous.push(q).drop_last() =~= previous);
            assert(quantized as i64 * step as i64 == q * spec_step);
            assert(after_samples[index as int] == sample);
        }
        folded.push(value);
        recon.push(reconstructed);
        proof {
            assert(recon@ == reconstruct(previous.push(q), mode, width as int, spec_step, reference@));
            assert(folded@ == bounded_folded(after_samples, mode, width as int, spec_step, reference@));
        }
        index = index + 1;
    }
    proof {
        assert(samples@.take(index as int) =~= samples@);
    }
    folded
}

/// Bytes of the 8-bit zero-run or Rice payload that the modeled selection picks:
/// the cheaper of zero-run and the best Rice parameter up to 8, zero-run on ties.
pub open spec fn modeled_bytes8(folded: Seq<u32>) -> int {
    let zero_run = zero_run_encoding(folded, 0).len() as int;
    let rice = min_rice_bytes(folded, MAX_RICE_PARAMETER as nat);
    if rice >= zero_run {
        zero_run
    } else {
        rice
    }
}

/// The cheaper of the zero-run and best-Rice payloads of 8-bit symbols, with its
/// entropy mode.
pub fn modeled_entropy_cost(folded: &[u32]) -> (r: (u8, u64))
    requires
        crate::entropy::folded_domain(folded@),
    ensures
        r.1 == modeled_bytes8(folded@),
        r.0 == ENTROPY_ZERO_RUN <==> zero_run_encoding(folded@, 0).len() <= min_rice_bytes(
            folded@,
            MAX_RICE_PARAMETER as nat,
        ),
        r.0 != ENTROPY_ZERO_RUN ==> ENTROPY_RICE_BASE <= r.0 <= ENTROPY_RICE_BASE + MAX_RICE_PARAMETER
            && is_first_minimum(
            |p: nat| rice_cost(folded@, p),
            MAX_RICE_PARAMETER as nat,
            (r.0 - ENTROPY_RICE_BASE) as nat,
        ),
{
    let zero_run = modeled_zero_run_cost(folded);
    let (parameter, bits) = crate::entropy::best_rice_parameter_upto(folded, MAX_RICE_PARAMETER);
    let rice = bits / 8 + if bits % 8 == 0 {
        0
    } else {
        1
    };
    proof {
        crate::tile_coding16::lemma_min_rice_bytes(folded@, MAX_RICE_PARAMETER as nat);
        let costs = |q: nat| rice_cost(folded@, q);
        assert forall|p: nat| p <= MAX_RICE_PARAMETER implies rice_bytes(folded@, parameter as nat)
            <= #[trigger] rice_bytes(folded@, p) by {
            assert(costs(parameter as nat) <= costs(p));
        }
        let witness = choose|p: nat|
            p <= MAX_RICE_PARAMETER && min_rice_bytes(folded@, MAX_RICE_PARAMETER as nat)
                == #[trigger] rice_bytes(folded@, p);
        assert(rice_bytes(folded@, parameter as nat) <= rice_bytes(folded@, witness));
        assert(rice == min_rice_bytes(folded@, MAX_RICE_PARAMETER as nat));
    }
    if rice >= zero_run {
        (ENTROPY_ZERO_RUN, zero_run)
    } else {
        (ENTROPY_RICE_BASE + parameter, rice)
    }
}

/// Temporal prediction with a reference, else Paeth.
pub open spec fn reference_mode<T>(reference: Option<Seq<T>>) -> u8 {
    if reference is Some {
        PREDICT_TEMPORAL
    } else {
        PREDICT_SPATIAL
    }
}

/// The reference samples, or none.
pub open spec fn reference_samples<T>(reference: Option<Seq<T>>) -> Seq<T> {
    match reference {
        Some(r) => r,
        None => Seq::empty(),
    }
}

/// `model` is the residual-mapping model of 8-bit tile `samples` coded with
/// temporal prediction from `reference` when given, else with Paeth.
pub open spec fn residual_mapping_ok(
    model: TileResidualMappingModel,
    samples: Seq<u8>,
    reference: Option<Seq<u8>>,
    tile: Tile,
    step: int,
) -> bool {
    let mode = reference_mode(reference);
    let refs = reference_samples(reference);
    let residuals = encode_residuals(samples, mode, tile.width as int, step, refs);
    let bounded = bounded_folded(samples, mode, tile.width as int, step, refs);
    &&& model.plane == tile.plane && model.width == tile.width && model.height == tile.height
    &&& model.temporal_prediction == reference is Some
    &&& model.sample_count == tile.width * tile.height
    &&& exists|entropy_mode: u8, payload: Seq<u8>|
        {
            &&& payload.len() == model.actual_payload_bytes
            &&& #[trigger] payload_codes(entropy_mode, payload, fold_all(residuals))
            &&& selected_coding(entropy_mode, payload.len() as int, fold_all(residuals))
            &&& model.source_zero_run == (entropy_mode == ENTROPY_ZERO_RUN)
        }
    &&& model.bounded_payload_bytes == modeled_bytes8(bounded)
    &&& model.bounded_zero_run == (zero_run_encoding(bounded, 0).len() <= min_rice_bytes(
        bounded,
        MAX_RICE_PARAMETER as nat,
    ))
}

/// Models one tile's current payload and its predictor-bounded residual payload.
#[verifier::spinoff_prover]
pub fn model_residual_mapping_tile<F: Fn(&[u64], &[u64], u64) -> u64>(
    samples: &[u8],
    reference: Option<&[u8]>,
    tile: Tile,
    quantizer: &Quantizer,
    cost: &F,
) -> (model: TileResidualMappingModel)
    requires
        quantizer.wf(),
        tile.width >= 1,
        samples.len() == tile.width * tile.height,
        samples.len() <= 0x4000_0000,
        reference matches Some(r) ==> r.len() == samples.len(),
        cost_model(*cost),
    ensures
        residual_mapping_ok(
            model,
            samples@,
            match reference {
                Some(r) => Some(r@),
                None => None,
            },
            tile,
            quantizer.spec_step(),
        ),
{
    let width = tile.width as usize;
    let current = encode_tile(samples, reference, width, quantizer, cost);
    let none: Vec<u8> = Vec::new();
    let (mode, refs) = match reference {
        Some(r) => (PREDICT_TEMPORAL, r),
        None => (PREDICT_SPATIAL, none.as_slice()),
    };
    let folded = bounded_residuals(samples, width, mode, quantizer, refs);
    let (bounded_mode, bounded_bytes) = modeled_entropy_cost(folded.as_slice());
    proof {
        let residuals = encode_residuals(samples@, mode, width as int, quantizer.spec_step(), refs@);
        assert(payload_codes(current.entropy_mode, current.payload@, fold_all(residuals)));
        assert(bounded_bytes <= 3 * 0x4000_0000) by {
            assert(modeled_bytes8(folded@) <= zero_run_encoding(folded@, 0).len());
            assert(crate::entropy::folded_domain(folded@));
            crate::entropy::lemma_zero_run_encoding_len(folded@, 0);
        }
    }
    let model = TileResidualMappingModel {
        plane: tile.plane,
        width: tile.width,
        height: tile.height,
        temporal_prediction: reference.is_some(),
        source_zero_run: current.entropy_mode == ENTROPY_ZERO_RUN,
        bounded_zero_run: bounded_mode == ENTROPY_ZERO_RUN,
        sample_count: samples.len(),
        actual_payload_bytes: current.payload.len(),
        bounded_payload_bytes: bounded_bytes as usize,
    };
    proof {
        let residuals = encode_residuals(samples@, mode, width as int, quantizer.spec_step(), refs@);
        assert(current.prediction_mode == mode);
        assert(refs@ == crate::codec::reference_seq(reference));
        assert(exists|entropy_mode: u8, payload: Seq<u8>|
            {
                &&& payload.len() == model.actual_payload_bytes
                &&& #[trigger] payload_codes(entropy_mode, payload, fold_all(residuals))
                &&& selected_coding(entropy_mode, payload.len() as int, fold_all(residuals))
                &&& model.source_zero_run == (entropy_mode == ENTROPY_ZERO_RUN)
            });
        assert(model.bounded_payload_bytes == modeled_bytes8(bounded_folded(samples@, mode, width as int, quantizer.spec_step(), refs@)));
        let spec_reference = match reference {
            Some(r) => Some(r@),
            None => None::<Seq<u8>>,
        };
        assert(refs@ == reference_samples(spec_reference));
        assert(mode == reference_mode(spec_reference));
        assert(model.temporal_prediction == spec_reference is Some);
        assert(model.sample_count == tile.width * tile.height);
        assert(model.bounded_zero_run == (zero_run_encoding(
            bounded_folded(samples@, mode, width as int, quantizer.spec_step(), refs@),
            0,
        ).len() <= min_rice_bytes(
            bounded_folded(samples@, mode, width as int, quantizer.spec_step(), refs@),
            MAX_RICE_PARAMETER as nat,
        )));
        assert(residual_mapping_ok(model, samples@, spec_reference, tile, quantizer.spec_step()));
    }
    model
}

/// Samples of tile `tile` of a valid 8-bit frame.
fn frame_tile_samples(frame: &Frame, tile: Tile) -> (samples: Vec<u8>)
    requires
        frame.valid(),
        tile.plane < frame.planes.len(),
        tile_fits(
            tile,
            plane_dims(frame.width, frame.height, frame.format.spec_is_grayscale())[tile.plane as int].0 as int,
            plane_dims(frame.width, frame.height, frame.format.spec_is_grayscale())[tile.plane as int].1 as int,
        ),
    ensures
        samples@ == tile_samples(
            frame.planes@[tile.plane as int].data@,
            frame.planes@[tile.plane as int].width as int,
            tile,
        ),
        samples.len() == tile.width * tile.height,
        samples.len() <= 0x4000_0000,
{
    let ghost dims = plane_dims(frame.width, frame.height, frame.format.spec_is_grayscale());
    let plane = &frame.planes[tile.plane];
    proof {
        crate::model::lemma_frame_plane_bound(frame, tile.plane as int);
        assert(frame.planes@[tile.plane as int].shaped(dims[tile.plane as int].0, dims[tile.plane as int].1));
        assert(tile.width * tile.height <= plane.width * plane.height) by (nonlinear_arith)
            requires
                tile.width <= plane.width,
                tile.height <= plane.height,
        ;
    }
    extract_tile(plane.data.as_slice(), plane.width, plane.height, tile)
}

/// The reference that the encoder's motion gate keeps: `reference` when the luma
/// plane moved little, else none.
pub open spec fn gated_reference<'a>(frame: &Frame, reference: Option<&'a Frame>) -> Option<&'a Frame> {
    match reference {
        Some(r) => if abs_diff_sum(frame.planes@[0].data@, r.planes@[0].data@) <= 5
            * frame.planes@[0].data.len() {
            Some(r)
        } else {
            None
        },
        None => None,
    }
}

/// Samples of tile `tile` of plane `tile.plane` of `frame`.
pub open spec fn frame_tile(frame: &Frame, tile: Tile) -> Seq<u8> {
    tile_samples(frame.planes@[tile.plane as int].data@, frame.planes@[tile.plane as int].width as int, tile)
}

/// The frame, options and reference that the 8-bit analyses accept.
pub open spec fn analysis_input_ok(frame: &Frame, reference: Option<&Frame>, options: CodecOptions) -> bool {
    &&& frame.valid()
    &&& options.valid()
    &&& reference_fits(frame, reference)
    &&& tiling_ok(
        frame.width,
        frame.height,
        frame.format.spec_is_grayscale(),
        options.tile_width,
        options.tile_height,
        true,
    )
}

/// Models the predictor-bounded residual symbols of every tile of an 8-bit frame
/// without changing the stream; the encoder's motion gate is applied to `reference`
/// first.
pub fn analyze_residual_mapping<F: Fn(&[u64], &[u64], u64) -> u64>(
    frame: &Frame,
    reference: Option<&Frame>,
    options: CodecOptions,
    cost: &F,
) -> (r: Result<Vec<TileResidualMappingModel>, CodecError>)
    requires
        cost_model(*cost),
    ensures
        r is Ok <==> analysis_input_ok(frame, reference, options),
        r matches Ok(models) ==> {
            let tiles = spec_tiles(
                frame.width,
                frame.height,
                frame.format.spec_is_grayscale(),
                options.tile_width,
                options.tile_height,
            );
            &&& models.len() == tiles.len()
            &&& forall|k: int|
                0 <= k < models.len() ==> residual_mapping_ok(
                    #[trigger] models@[k],
                    frame_tile(frame, tiles[k]),
                    match gated_reference(frame, reference) {
                        Some(g) => Some(frame_tile(g, tiles[k])),
                        None => None,
                    },
                    tiles[k],
                    crate::model::spec_quantization_step(options.quality),
                )
        },
{
    frame.validate()?;
    options.validate()?;
    if let Some(reference_frame) = reference {
        validate_reference(frame, reference_frame)?;
    }
    let selected = match reference {
        Some(reference_frame) => {
            proof {
                crate::model::lemma_frame_plane_bound(frame, 0);
                crate::model::lemma_frame_plane_bound(reference_frame, 0);
            }
            if temporal_prediction_is_promising(frame, reference_frame) {
                Some(reference_frame)
            } else {
                None
            }
        },
        None => None,
    };
    let tiles = expected_tiles(
        frame.width,
        frame.height,
        frame.format,
        options.tile_width,
        options.tile_height,
        true,
    )?;
    let quantizer = Quantizer::new(options.quantization_step());
    let ghost dims = plane_dims(frame.width, frame.height, frame.format.spec_is_grayscale());
    proof {
        lemma_spec_tiles_fit(
            frame.width,
            frame.height,
            frame.format.spec_is_grayscale(),
            options.tile_width,
            options.tile_height,
        );
    }
    let mut models: Vec<TileResidualMappingModel> = Vec::with_capacity(tiles.len());
    let mut index: usize = 0;
    while index < tiles.len()
        invariant
            frame.valid(),
            cost_model(*cost),
            quantizer.wf(),
            quantizer.spec_step() == crate::model::spec_quantization_step(options.quality),
            selected == gated_reference(frame, reference),
            reference_fits(frame, reference),
            dims == plane_dims(frame.width, frame.height, frame.format.spec_is_grayscale()),
            tiles@ == spec_tiles(
                frame.width,
                frame.height,
                frame.format.spec_is_grayscale(),
                options.tile_width,
                options.tile_height,
            ),
            tiles_fit(tiles@, dims),
            index <= tiles.len(),
            models.len() == index,
            forall|k: int|
                0 <= k < index ==> residual_mapping_ok(
                    #[trigger] models@[k],
                    frame_tile(frame, tiles@[k]),
                    match selected {
                        Some(g) => Some(frame_tile(g, tiles@[k])),
                        None => None,
                    },
                    tiles@[k],
                    quantizer.spec_step(),
                ),
        decreases tiles.len() - index,
    {
        let tile = tiles[index];
        proof {
            assert(tiles@[index as int] == tile);
        }
        let samples = frame_tile_samples(frame, tile);
        let reference_samples = match selected {
            Some(g) => Some(frame_tile_samples(g, tile)),
            None => None,
        };
        let reference_slice: Option<&[u8]> = match &reference_samples {
            Some(v) => Some(v.as_slice()),
            None => None,
        };
        let model = model_residual_mapping_tile(samples.as_slice(), reference_slice, tile, &quantizer, cost);
        models.push(model);
        proof {
            assert forall|k: int| 0 <= k < index + 1 implies residual_mapping_ok(
                #[trigger] models@[k],
                frame_tile(frame, tiles@[k]),
                match selected {
                    Some(g) => Some(frame_tile(g, tiles@[k])),
                    None => None,
                },
                tiles@[k],
                quantizer.spec_step(),
            ) by {
                if k == index {
                    assert(models@[k] == model);
                }
            }
        }
        index = index + 1;
    }
    Ok(models)
}

/// Whether two planes hold the same samples.
pub fn planes_equal(a: &Plane, b: &Plane) -> (equal: bool)
    ensures
        equal == (a.width == b.width && a.height == b.height && a.data@ == b.data@),
{
    if a.width != b.width || a.height != b.height || a.data.len() != b.data.len() {
        return false;
    }
    let mut i: usize = 0;
    while i < a.data.len()
        invariant
            a.data.len() == b.data.len(),
            i <= a.data.len(),
            forall|k: int| 0 <= k < i ==> a.data@[k] == b.data@[k],
        decreases a.data.len() - i,
    {
        if a.data[i] != b.data[i] {
            return false;
        }
        i = i + 1;
    }
    proof {
        assert(a.data@ =~= b.data@);
    }
    true
}

/// The spatial candidates of tile `tiles[k]` and, where a reference is given, its
/// temporal candidates.
pub open spec fn frame_predictor_ok(
    model: TilePredictorModel,
    reconstruction: Seq<u8>,
    frame: &Frame,
    available: Option<&Frame>,
    current: Option<&Frame>,
    tile: Tile,
    step: int,
) -> bool {
    let matches = match (available, current) {
        (Some(a), Some(c)) => a.planes@[tile.plane as int].width == c.planes@[tile.plane as int].width
            && a.planes@[tile.plane as int].height == c.planes@[tile.plane as int].height
            && a.planes@[tile.plane as int].data@ == c.planes@[tile.plane as int].data@,
        _ => false,
    };
    &&& model.plane == tile.plane && model.width == tile.width && model.height == tile.height
    &&& predictor_tile_ok(
        model,
        reconstruction,
        frame_tile(frame, tile),
        tile.width as int,
        step,
        match available {
            Some(a) => Some(frame_tile(a, tile)),
            None => None,
        },
        match current {
            Some(c) => Some(frame_tile(c, tile)),
            None => None,
        },
        matches,
    )
}

/// `model` is the predictor model of tile `tile` of `frame` for some oracle
/// reconstruction.
pub open spec fn tile_predictor_modeled(
    model: TilePredictorModel,
    frame: &Frame,
    available: Option<&Frame>,
    current: Option<&Frame>,
    tile: Tile,
    step: int,
) -> bool {
    exists|reconstruction: Seq<u8>|
        #[trigger] frame_predictor_ok(model, reconstruction, frame, available, current, tile, step)
}

/// Models every tile of an 8-bit frame with the oracle's candidates; returns the
/// models and the per-tile oracle reconstructions.
fn model_predictor_frame<F: Fn(&[u64], &[u64], u64) -> u64>(
    frame: &Frame,
    available: Option<&Frame>,
    current: Option<&Frame>,
    tiles: &Vec<Tile>,
    quantizer: &Quantizer,
    cost: &F,
) -> (result: (Vec<TilePredictorModel>, Vec<Vec<u8>>))
    requires
        frame.valid(),
        quantizer.wf(),
        cost_model(*cost),
        reference_fits(frame, available),
        reference_fits(frame, current),
        tiles_fit(tiles@, plane_dims(frame.width, frame.height, frame.format.spec_is_grayscale())),
    ensures
        result.0.len() == tiles.len(),
        result.1.len() == tiles.len(),
        forall|k: int|
            0 <= k < tiles.len() ==> frame_predictor_ok(
                #[trigger] result.0@[k],
                result.1@[k]@,
                frame,
                available,
                current,
                tiles@[k],
                quantizer.spec_step(),
            ),
        forall|k: int| 0 <= k < tiles.len() ==> (#[trigger] result.1@[k]).len() == tiles@[k].width * tiles@[k].height,
{
    let ghost dims = plane_dims(frame.width, frame.height, frame.format.spec_is_grayscale());
    let mut models: Vec<TilePredictorModel> = Vec::with_capacity(tiles.len());
    let mut reconstructions: Vec<Vec<u8>> = Vec::with_capacity(tiles.len());
    let mut index: usize = 0;
    while index < tiles.len()
        invariant
            frame.valid(),
            quantizer.wf(),
            cost_model(*cost),
            reference_fits(frame, available),
            reference_fits(frame, current),
            dims == plane_dims(frame.width, frame.height, frame.format.spec_is_grayscale()),
            tiles_fit(tiles@, dims),
            index <= tiles.len(),
            models.len() == index,
            reconstructions.len() == index,
            forall|k: int|
                0 <= k < index ==> frame_predictor_ok(
                    #[trigger] models@[k],
                    reconstructions@[k]@,
                    frame,
                    available,
                    current,
                    tiles@[k],
                    quantizer.spec_step(),
                ),
            forall|k: int| 0 <= k < index ==> (#[trigger] reconstructions@[k]).len() == tiles@[k].width * tiles@[k].height,
        decreases tiles.len() - index,
    {
        let tile = tiles[index];
        proof {
            assert(tiles@[index as int] == tile);
        }
        let samples = frame_tile_samples(frame, tile);
        let available_samples = match available {
            Some(a) => Some(frame_tile_samples(a, tile)),
            None => None,
        };
        let current_samples = match current {
            Some(c) => Some(frame_tile_samples(c, tile)),
            None => None,
        };
        let matches = match (available, current) {
            (Some(a), Some(c)) => planes_equal(&a.planes[tile.plane], &c.planes[tile.plane]),
            _ => false,
        };
        let available_slice: Option<&[u8]> = match &available_samples {
            Some(v) => Some(v.as_slice()),
            None => None,
        };
        let current_slice: Option<&[u8]> = match &current_samples {
            Some(v) => Some(v.as_slice()),
            None => None,
        };
        let (model, reconstruction) = model_predictor_tile(
            samples.as_slice(),
            available_slice,
            current_slice,
            matches,
            tile.plane,
            tile.width,
            tile.height,
            quantizer,
            cost,
        );
        proof {
            assert(reconstruction@.len() == tile.width * tile.height) by {
                let avail = match available_slice {
                    Some(r) => Some(r@),
                    None => None::<Seq<u8>>,
                };
                let step = quantizer.spec_step();
                let mode = mode_code(model.oracle_mode);
                let refs = if model.oracle_mode == PredictorModelMode::Temporal {
                    avail->0
                } else {
                    Seq::<u8>::empty()
                };
                quantizer.lemma_bounds();
                crate::residual::lemma_encode_reconstruct(samples@, mode, tile.width as int, step, refs);
            }
        }
        models.push(model);
        reconstructions.push(reconstruction);
        proof {
            assert forall|k: int| 0 <= k < index + 1 implies frame_predictor_ok(
                #[trigger] models@[k],
                reconstructions@[k]@,
                frame,
                available,
                current,
                tiles@[k],
                quantizer.spec_step(),
            ) by {
                if k == index {
                    assert(models@[k] == model);
                    assert(reconstructions@[k] == reconstruction);
                }
            }
            assert forall|k: int| 0 <= k < index + 1 implies (#[trigger] reconstructions@[k]).len()
                == tiles@[k].width * tiles@[k].height by {
                if k == index {
                    assert(reconstructions@[k] == reconstruction);
                }
            }
        }
        index = index + 1;
    }
    (models, reconstructions)
}

/// Models compatible spatial predictors and tile-local temporal prediction on every
/// tile of an 8-bit frame; the current choice applies the encoder's motion gate to
/// `reference`.
pub fn analyze_predictors<F: Fn(&[u64], &[u64], u64) -> u64>(
    frame: &Frame,
    reference: Option<&Frame>,
    options: CodecOptions,
    cost: &F,
) -> (r: Result<Vec<TilePredictorModel>, CodecError>)
    requires
        cost_model(*cost),
    ensures
        r is Ok <==> analysis_input_ok(frame, reference, options),
        r matches Ok(models) ==> {
            let tiles = spec_tiles(
                frame.width,
                frame.height,
                frame.format.spec_is_grayscale(),
                options.tile_width,
                options.tile_height,
            );
            &&& models.len() == tiles.len()
            &&& forall|k: int|
                0 <= k < models.len() ==> tile_predictor_modeled(
                    #[trigger] models@[k],
                    frame,
                    reference,
                    gated_reference(frame, reference),
                    tiles[k],
                    crate::model::spec_quantization_step(options.quality),
                )
        },
{
    frame.validate()?;
    options.validate()?;
    if let Some(reference_frame) = reference {
        validate_reference(frame, reference_frame)?;
    }
    let selected = match reference {
        Some(reference_frame) => {
            proof {
                crate::model::lemma_frame_plane_bound(frame, 0);
                crate::model::lemma_frame_plane_bound(reference_frame, 0);
            }
            if temporal_prediction_is_promising(frame, reference_frame) {
                Some(reference_frame)
            } else {
                None
            }
        },
        None => None,
    };
    let tiles = expected_tiles(
        frame.width,
        frame.height,
        frame.format,
        options.tile_width,
        options.tile_height,
        true,
    )?;
    let quantizer = Quantizer::new(options.quantization_step());
    proof {
        lemma_spec_tiles_fit(
            frame.width,
            frame.height,
            frame.format.spec_is_grayscale(),
            options.tile_width,
            options.tile_height,
        );
    }
    let (models, reconstructions) = model_predictor_frame(frame, reference, selected, &tiles, &quantizer, cost);
    proof {
        assert(selected == gated_reference(frame, reference));
        assert(quantizer.spec_step() == crate::model::spec_quantization_step(options.quality));
        assert forall|k: int| 0 <= k < models.len() implies tile_predictor_modeled(
            #[trigger] models@[k],
            frame,
            reference,
            gated_reference(frame, reference),
            tiles@[k],
            crate::model::spec_quantization_step(options.quality),
        ) by {
            assert(frame_predictor_ok(
                models@[k],
                reconstructions@[k]@,
                frame,
                reference,
                selected,
                tiles@[k],
                quantizer.spec_step(),
            ));
        }
    }
    Ok(models)
}

/// A frame of the shape of `frame` whose samples are all zero.
fn zero_frame(frame: &Frame) -> (zeroed: Frame)
    requires
        frame.valid(),
    ensures
        zeroed.valid(),
        zeroed.width == frame.width && zeroed.height == frame.height,
        zeroed.format == frame.format && zeroed.frame_rate == frame.frame_rate,
        zeroed.planes.len() == frame.planes.len(),
        forall|i: int|
            0 <= i < frame.planes.len() ==> (#[trigger] zeroed.planes@[i]).width == frame.planes@[i].width
                && zeroed.planes@[i].height == frame.planes@[i].height
                && zeroed.planes@[i].data.len() == frame.planes@[i].data.len(),
{
    let mut planes: Vec<Plane> = Vec::with_capacity(frame.planes.len());
    let mut p: usize = 0;
    while p < frame.planes.len()
        invariant
            frame.valid(),
            p <= frame.planes.len(),
            planes.len() == p,
            forall|i: int|
                0 <= i < p ==> (#[trigger] planes@[i]).width == frame.planes@[i].width
                    && planes@[i].height == frame.planes@[i].height
                    && planes@[i].data.len() == frame.planes@[i].data.len(),
        decreases frame.planes.len() - p,
    {
        let source = &frame.planes[p];
        let length = source.data.len();
        let mut data: Vec<u8> = Vec::with_capacity(length);
        let mut i: usize = 0;
        while i < length
            invariant
                i <= length,
                data.len() == i,
            decreases length - i,
        {
            data.push(0);
            i = i + 1;
        }
        planes.push(Plane { width: source.width, height: source.height, data });
        p = p + 1;
    }
    let zeroed = Frame {
        width: frame.width,
        height: frame.height,
        format: frame.format,
        frame_rate: frame.frame_rate,
        planes,
    };
    proof {
        let dims = plane_dims(frame.width, frame.height, frame.format.spec_is_grayscale());
        assert forall|i: int| 0 <= i < zeroed.planes.len() implies #[trigger] zeroed.planes@[i].shaped(
            dims[i].0,
            dims[i].1,
        ) by {
            assert(frame.planes@[i].shaped(dims[i].0, dims[i].1));
        }
    }
    zeroed
}

/// Models one frame of a sequence and returns the oracle reconstruction. The
/// current choice uses `current_reference` behind the motion gate, the oracle's
/// temporal candidate uses `oracle_reference`; both references must be given or
/// both absent.
pub fn analyze_predictor_frame<F: Fn(&[u64], &[u64], u64) -> u64>(
    frame: &Frame,
    current_reference: Option<&Frame>,
    oracle_reference: Option<&Frame>,
    options: CodecOptions,
    cost: &F,
) -> (r: Result<(Vec<TilePredictorModel>, Frame), CodecError>)
    requires
        cost_model(*cost),
    ensures
        r is Ok <==> analysis_input_ok(frame, current_reference, options) && reference_fits(
            frame,
            oracle_reference,
        ) && (current_reference is Some == oracle_reference is Some),
        frame.valid() && options.valid() && current_reference is Some != oracle_reference is Some
            ==> r matches Err(CodecError::InvalidInput(_)),
        r matches Ok((models, reconstruction)) ==> {
            let tiles = spec_tiles(
                frame.width,
                frame.height,
                frame.format.spec_is_grayscale(),
                options.tile_width,
                options.tile_height,
            );
            &&& models.len() == tiles.len()
            &&& forall|k: int|
                0 <= k < models.len() ==> tile_predictor_modeled(
                    #[trigger] models@[k],
                    frame,
                    oracle_reference,
                    gated_reference(frame, current_reference),
                    tiles[k],
                    crate::model::spec_quantization_step(options.quality),
                )
            &&& reconstruction.valid()
            &&& reconstruction.width == frame.width && reconstruction.height == frame.height
            &&& reconstruction.format == frame.format && reconstruction.frame_rate == frame.frame_rate
            &&& forall|k: int|
                0 <= k < models.len() ==> frame_predictor_ok(
                    #[trigger] models@[k],
                    tile_samples(
                        reconstruction.planes@[tiles[k].plane as int].data@,
                        reconstruction.planes@[tiles[k].plane as int].width as int,
                        tiles[k],
                    ),
                    frame,
                    oracle_reference,
                    gated_reference(frame, current_reference),
                    tiles[k],
                    crate::model::spec_quantization_step(options.quality),
                )
        },
{
    frame.validate()?;
    options.validate()?;
    if current_reference.is_some() != oracle_reference.is_some() {
        return Err(CodecError::InvalidInput(
            "current and oracle references must have matching dependency depth",
        ));
    }
    if let Some(reference_frame) = current_reference {
        validate_reference(frame, reference_frame)?;
    }
    if let Some(reference_frame) = oracle_reference {
        validate_reference(frame, reference_frame)?;
    }
    let selected = match current_reference {
        Some(reference_frame) => {
            proof {
                crate::model::lemma_frame_plane_bound(frame, 0);
                crate::model::lemma_frame_plane_bound(reference_frame, 0);
            }
            if temporal_prediction_is_promising(frame, reference_frame) {
                Some(reference_frame)
            } else {
                None
            }
        },
        None => None,
    };
    let tiles = expected_tiles(
        frame.width,
        frame.height,
        frame.format,
        options.tile_width,
        options.tile_height,
        true,
    )?;
    let quantizer = Quantizer::new(options.quantization_step());
    let ghost dims = plane_dims(frame.width, frame.height, frame.format.spec_is_grayscale());
    proof {
        lemma_spec_tiles_fit(
            frame.width,
            frame.height,
            frame.format.spec_is_grayscale(),
            options.tile_width,
            options.tile_height,
        );
    }
    let (models, reconstructions) = model_predictor_frame(frame, oracle_reference, selected, &tiles, &quantizer, cost);
    let mut reconstruction = zero_frame(frame);
    let mut index: usize = 0;
    while index < tiles.len()
        invariant
            frame.valid(),
            dims == plane_dims(frame.width, frame.height, frame.format.spec_is_grayscale()),
            tiles_fit(tiles@, dims),
            reconstructions.len() == tiles.len(),
            forall|k: int| 0 <= k < tiles.len() ==> (#[trigger] reconstructions@[k]).len() == tiles@[k].width * tiles@[k].height,
            reconstruction.valid(),
            reconstruction.width == frame.width && reconstruction.height == frame.height,
            reconstruction.format == frame.format && reconstruction.frame_rate == frame.frame_rate,
            index <= tiles.len(),
            options.valid(),
            tiles@ == spec_tiles(
                frame.width,
                frame.height,
                frame.format.spec_is_grayscale(),
                options.tile_width,
                options.tile_height,
            ),
            forall|k: int|
                0 <= k < index ==> tile_samples(
                    reconstruction.planes@[tiles@[k].plane as int].data@,
                    reconstruction.planes@[tiles@[k].plane as int].width as int,
                    tiles@[k],
                ) == (#[trigger] reconstructions@[k])@,
        decreases tiles.len() - index,
    {
        let tile = tiles[index];
        proof {
            assert(tiles@[index as int] == tile);
            assert(reconstruction.planes@[tile.plane as int].shaped(dims[tile.plane as int].0, dims[tile.plane as int].1));
        }
        let ghost before = reconstruction;
        let Frame { width, height, format, frame_rate, planes } = reconstruction;
        let mut planes = planes;
        let mut plane = planes.remove(tile.plane);
        let ghost old_data = plane.data@;
        proof {
            assert(plane == before.planes@[tile.plane as int]);
        }
        write_tile(&mut plane.data, plane.width, plane.height, tile, reconstructions[index].as_slice());
        let ghost new_plane = plane;
        planes.insert(tile.plane, plane);
        reconstruction = Frame { width, height, format, frame_rate, planes };
        proof {
            assert(reconstruction.planes@ =~= before.planes@.update(tile.plane as int, new_plane));
            assert forall|k: int|
                0 <= k < index + 1 implies tile_samples(
                reconstruction.planes@[tiles@[k].plane as int].data@,
                reconstruction.planes@[tiles@[k].plane as int].width as int,
                tiles@[k],
            ) == (#[trigger] reconstructions@[k])@ by {
                if k < index && tiles@[k].plane == tile.plane {
                    let p = tile.plane as int;
                    assert(before.planes@[p].shaped(dims[p].0, dims[p].1));
                    crate::tile_coding::lemma_write_keeps_other_tile(
                        old_data,
                        new_plane.data@,
                        new_plane.width,
                        new_plane.height,
                        tiles@,
                        index as int,
                        k,
                        frame.width,
                        frame.height,
                        frame.format.spec_is_grayscale(),
                        options.tile_width,
                        options.tile_height,
                    );
                }
            }
            assert forall|i: int| 0 <= i < reconstruction.planes.len() implies #[trigger] reconstruction.planes@[i].shaped(
                dims[i].0,
                dims[i].1,
            ) by {
                assert(before.planes@[i].shaped(dims[i].0, dims[i].1));
            }
        }
        index = index + 1;
    }
    proof {
        assert(selected == gated_reference(frame, current_reference));
        assert(quantizer.spec_step() == crate::model::spec_quantization_step(options.quality));
        assert forall|k: int| 0 <= k < models.len() implies tile_predictor_modeled(
            #[trigger] models@[k],
            frame,
            oracle_reference,
            gated_reference(frame, current_reference),
            tiles@[k],
            crate::model::spec_quantization_step(options.quality),
        ) by {
            assert(frame_predictor_ok(
                models@[k],
                reconstructions@[k]@,
                frame,
                oracle_reference,
                selected,
                tiles@[k],
                quantizer.spec_step(),
            ));
        }
    }
    Ok((models, reconstruction))
}

} // verus!
