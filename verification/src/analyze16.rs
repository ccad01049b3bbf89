//! Read-only models of high-bit streams and frames: entropy sizes of coded tiles,
//! predictor-bounded residual sizes, exact predictor comparisons, row bands and
//! sharded Rice lanes.
use crate::analysis::{
    ByteFormatModel, EntropyOrderSizeModel, MODEL_MAX_SYMBOLS, PredictorBandModel,
    PredictorCandidateModel, PredictorModelMode, RiceLaneSizeModel, TileEntropyModel,
    TilePredictorModel, TileResidualMappingModel, cost_model, entropy_model_of, entropy_order_model,
    lanes_payload, min_nat, rice_lane_control, rice_lane_payload, rice_length, tile_entropy_model,
};
use crate::analyze::{
    first_least_error, lemma_first_least_error_found, lemma_first_least_error_range,
    lemma_min_payload_attained, min_payload, mode_code, model_candidates, no_bands, oracle_pick,
    pick_oracle, push_symbols, reference_mode, reference_samples, symbols_model,
};
use crate::codec::{DirectoryEntry, Parsed, StreamInfo};
use crate::model::PixelFormat;
use crate::codec16::{
    abs_diff_sum16, encode_tile16, layout16_ok, parse16, parsed16_ok, reference16_fits, source_tile16,
    temporal_prediction_is_promising16, validate_reference16,
};
use crate::entropy::{
    ENTROPY_RICE_BASE, ENTROPY_ZERO_RUN, folded_domain, modeled_zero_run_cost, rice_cost,
    zero_run_encoding,
};
use crate::model::{
    CodecError, CodecOptions, Frame16, MAX_FRAME_BYTES, frame16_shape_ok, Plane16, frame_samples, half_up, plane_dims,
    sample_max, samples_within, spec_sample_max,
};
use crate::predict::{
    Quantizer16, SpatialPredictor, quantization_step16, spatial_prediction16, spec_quantization_step16,
    spec_quantize,
};
use crate::residual::{
    PREDICT_AVERAGE, PREDICT_CLAMP_GRADIENT, PREDICT_HALF_GRADIENT, PREDICT_SPATIAL, PREDICT_TEMPORAL,
};
use crate::residual16::{
    causal_prediction16, encode_residuals16, fold_all16, max_error16, predict_tile16, reconstruct16,
    squared_error16,
};
use crate::tile_coding::{
    EncodedTile, decode_rice_symbols, decode_zero_run_symbols, extract_tile, in_tile, rice_carries, tile_samples,
    zero_run_carries,
    write_tile,
};
use crate::tile_coding16::{
    ENTROPY_BLOCK_PACK, MAX_RICE_PARAMETER16, block_pack_carries, decode_block_pack_symbols, finish_entropy16,
    min_rice_bytes, modeled_bytes16, payload_codes16,
};
use crate::tiles::{Tile, expected_tiles, lemma_spec_tiles_fit, spec_tiles, tile_fits, tiles_fit, tiling_ok};
use vstd::prelude::*;

verus! {

/// Decodes the folded residuals of one high-bit tile payload into a symbol model; a
/// payload that codes symbols of at most `max_folded` gives the model of those symbols.
pub fn model_folded_payload16(payload: &[u8], sample_count: usize, entropy_mode: u8, max_folded: u32) -> (r:
    Result<ByteFormatModel, CodecError>)
    requires
        sample_count <= MODEL_MAX_SYMBOLS,
        max_folded <= 0x2_0000,
    ensures
        r matches Ok(model) ==> symbols_model(model, sample_count as nat, max_folded),
        !(entropy_mode == ENTROPY_ZERO_RUN || entropy_mode == ENTROPY_BLOCK_PACK || (ENTROPY_RICE_BASE
            <= entropy_mode <= ENTROPY_RICE_BASE + MAX_RICE_PARAMETER16)) ==> r == Err::<
            ByteFormatModel,
            CodecError,
        >(CodecError::Malformed("unknown tile entropy mode")),
        r is Err ==> r matches Err(CodecError::Malformed(_)),
        forall|f: Seq<u32>| #[trigger]
            payload_codes16(entropy_mode, payload@, f) && f.len() == sample_count && (forall|i: int|
                0 <= i < f.len() ==> f[i] <= max_folded) ==> (r matches Ok(model) && model@ == f),
{
    proof {
        assert forall|f: Seq<u32>| #[trigger] payload_codes16(entropy_mode, payload@, f) && f.len()
            == sample_count && (forall|i: int| 0 <= i < f.len() ==> f[i] <= max_folded) implies {
            &&& entropy_mode == ENTROPY_ZERO_RUN ==> zero_run_carries(payload@, sample_count as int, max_folded, f)
            &&& entropy_mode == ENTROPY_BLOCK_PACK ==> block_pack_carries(payload@, sample_count as int, max_folded, f)
            &&& ENTROPY_RICE_BASE <= entropy_mode <= ENTROPY_RICE_BASE + MAX_RICE_PARAMETER16 ==> rice_carries(
                payload@,
                sample_count as int,
                (entropy_mode - ENTROPY_RICE_BASE) as nat,
                max_folded,
                f,
            )
        } by {
            assert forall|i: int| 0 <= i < f.len() implies #[trigger] f[i] <= 0x2_0000 by {
                assert(f[i] <= max_folded);
            }
            assert(folded_domain(f));
        }
    }
    let decoded = if entropy_mode == ENTROPY_ZERO_RUN {
        decode_zero_run_symbols(payload, sample_count, max_folded)
    } else if entropy_mode == ENTROPY_BLOCK_PACK {
        decode_block_pack_symbols(payload, sample_count, max_folded)
    } else if ENTROPY_RICE_BASE <= entropy_mode && entropy_mode <= ENTROPY_RICE_BASE
        + MAX_RICE_PARAMETER16 {
        decode_rice_symbols(payload, sample_count, entropy_mode - ENTROPY_RICE_BASE, max_folded)
    } else {
        return Err(CodecError::Malformed("unknown tile entropy mode"));
    };
    let folded = match decoded {
        Ok(folded) => folded,
        Err(error) => {
            return Err(error);
        },
    };
    let mut model = ByteFormatModel::new();
    push_symbols(&mut model, folded.as_slice());
    proof {
        assert(model@ =~= folded@);
    }
    Ok(model)
}

/// Each plane of a frame holds at most the frame's samples.
pub proof fn lemma_plane_area(width: u32, height: u32, grayscale: bool, index: int)
    requires
        0 <= index < plane_dims(width, height, grayscale).len(),
    ensures
        plane_dims(width, height, grayscale)[index].0 * plane_dims(width, height, grayscale)[index].1
            <= frame_samples(width, height, grayscale),
{
    let dims = plane_dims(width, height, grayscale);
    assert(0 <= width * height) by (nonlinear_arith);
    assert(0 <= half_up(width as int) * height) by (nonlinear_arith)
        requires
            half_up(width as int) >= 0,
    ;
    if !grayscale && index > 0 {
        assert(dims[index].0 == half_up(width as int) as u32);
        assert(half_up(width as int) <= width);
    }
}

/// The entropy model of tile `k` of a parsed high-bit stream when its folded
/// residuals are `symbols`: Rice-lane sizes for Rice tiles, storage-order sizes for
/// spatially predicted tiles.
#[verifier::opaque]
pub open spec fn entry_entropy_model16<F: Fn(&[u64], &[u64], u64) -> u64>(
    parsed: Parsed,
    k: int,
    symbols: Seq<u32>,
    cost: F,
) -> TileEntropyModel {
    let entry = parsed.entries@[k];
    let rice = ENTROPY_RICE_BASE <= entry.entropy_mode <= ENTROPY_RICE_BASE + MAX_RICE_PARAMETER16;
    let parameter = (entry.entropy_mode - ENTROPY_RICE_BASE) as nat;
    let lane_payload = rice_lane_payload(symbols, parameter, 4096, 4);
    let lane_control = rice_lane_control(symbols.len(), 4096, 4);
    entropy_model_of(
        entry.tile.plane,
        entry.tile.width,
        entry.tile.height,
        entry.prediction_mode == PREDICT_TEMPORAL,
        entry.entropy_mode == ENTROPY_ZERO_RUN,
        entry.length,
        symbols,
        cost,
        if rice {
            Some(
                RiceLaneSizeModel {
                    payload_bytes: lane_payload as u64,
                    control_bytes: lane_control as u64,
                    complete_bytes: (lane_payload + lane_control) as u64,
                },
            )
        } else {
            None
        },
        if entry.prediction_mode != PREDICT_TEMPORAL {
            Some(
                entropy_order_model(
                    symbols,
                    entry.tile.width as int,
                    entry.tile.height as int,
                    true,
                ),
            )
        } else {
            None
        },
    )
}

/// `model` is the entropy model of tile `k` of a parsed high-bit stream over some
/// `width * height` folded residuals of at most `max_folded`.
pub open spec fn entry_modeled16<F: Fn(&[u64], &[u64], u64) -> u64>(
    parsed: Parsed,
    k: int,
    model: TileEntropyModel,
    cost: F,
    max_folded: int,
) -> bool {
    exists|symbols: Seq<u32>|
        {
            &&& symbols.len() == parsed.entries@[k].tile.width * parsed.entries@[k].tile.height
            &&& forall|i: int| 0 <= i < symbols.len() ==> symbols[i] <= max_folded
            &&& model == #[trigger] entry_entropy_model16(parsed, k, symbols, cost)
        }
}

/// The payload of directory entry `entry` in `bytes` codes `folded`, the tile's
/// folded residuals, each at most `max_folded`.
pub open spec fn entry_codes16(bytes: Seq<u8>, entry: DirectoryEntry, max_folded: int, folded: Seq<u32>) -> bool {
    &&& entry.offset + entry.length <= bytes.len()
    &&& payload_codes16(entry.entropy_mode, bytes.subrange(entry.offset as int, entry.offset + entry.length), folded)
    &&& folded.len() == entry.tile.width * entry.tile.height
    &&& forall|i: int| 0 <= i < folded.len() ==> folded[i] <= max_folded
}

/// The payload of `entry` codes some residuals of its tile.
pub open spec fn entry_coded16(bytes: Seq<u8>, entry: DirectoryEntry, max_folded: int) -> bool {
    exists|f: Seq<u32>| #[trigger] entry_codes16(bytes, entry, max_folded, f)
}

/// Every payload of `entries` codes residuals of its tile in the range of `format`.
pub open spec fn entries_code16(bytes: Seq<u8>, format: PixelFormat, entries: Seq<DirectoryEntry>) -> bool {
    forall|k: int|
        0 <= k < entries.len() ==> #[trigger] entry_coded16(
            bytes,
            entries[k],
            2 * spec_sample_max(format.spec_bit_depth()),
        )
}

/// Models the entropy coding of every tile of a high-bit stream without changing
/// it: one record per directory entry, in directory order, over the tile's decoded
/// folded residuals. A stream whose payloads code their tiles' residuals is
/// modeled, each record over the residuals that its payload codes.
pub fn analyze_entropy16<F: Fn(&[u64], &[u64], u64) -> u64>(bytes: &[u8], cost: &F) -> (r: Result<
    Vec<TileEntropyModel>,
    CodecError,
>)
    requires
        cost_model(*cost),
    ensures
        r matches Ok(models) ==> exists|parsed: Parsed|
            {
                &&& parsed16_ok(bytes@, parsed)
                &&& models.len() == parsed.entries.len()
                &&& forall|k: int|
                    0 <= k < models.len() ==> entry_modeled16(
                        parsed,
                        k,
                        #[trigger] models@[k],
                        *cost,
                        2 * spec_sample_max(parsed.info.format.spec_bit_depth()),
                    )
                &&& forall|k: int, f: Seq<u32>|
                    0 <= k < models.len() && #[trigger] entry_codes16(
                        bytes@,
                        parsed.entries@[k],
                        2 * spec_sample_max(parsed.info.format.spec_bit_depth()),
                        f,
                    ) ==> models@[k] == entry_entropy_model16(parsed, k, f, *cost)
            },
        bytes.len() < crate::codec::HEADER_LEN ==> r matches Err(CodecError::Malformed(_)),
        forall|pi: StreamInfo, pv: u8, pe: Seq<DirectoryEntry>| #[trigger]
            layout16_ok(bytes@, pi, pv, pe) && entries_code16(bytes@, pi.format, pe) ==> r is Ok,
{
    let parsed = parse16(bytes)?;
    let maximum = sample_max(parsed.info.format.bit_depth())?;
    let max_folded = maximum as u32 * 2;
    let ghost info = parsed.info;
    let ghost dims = plane_dims(info.width, info.height, info.format.spec_is_grayscale());
    let ghost tiles = crate::tiles::spec_tiles(
        info.width,
        info.height,
        info.format.spec_is_grayscale(),
        info.tile_width,
        info.tile_height,
    );
    proof {
        crate::tiles::lemma_spec_tiles_fit(
            info.width,
            info.height,
            info.format.spec_is_grayscale(),
            info.tile_width,
            info.tile_height,
        );
    }
    let mut models: Vec<TileEntropyModel> = Vec::with_capacity(parsed.entries.len());
    let mut index: usize = 0;
    while index < parsed.entries.len()
        invariant
            cost_model(*cost),
            parsed16_ok(bytes@, parsed),
            info == parsed.info,
            max_folded == 2 * spec_sample_max(info.format.spec_bit_depth()),
            max_folded <= 0x2_0000,
            dims == plane_dims(info.width, info.height, info.format.spec_is_grayscale()),
            tiles == crate::tiles::spec_tiles(
                info.width,
                info.height,
                info.format.spec_is_grayscale(),
                info.tile_width,
                info.tile_height,
            ),
            crate::tiles::tiles_fit(tiles, dims),
            index <= parsed.entries.len(),
            models.len() == index,
            forall|k: int|
                0 <= k < index ==> entry_modeled16(
                    parsed,
                    k,
                    #[trigger] models@[k],
                    *cost,
                    max_folded as int,
                ),
            forall|pi: StreamInfo, pv: u8, pe: Seq<DirectoryEntry>| #[trigger]
                layout16_ok(bytes@, pi, pv, pe) ==> pe == parsed.entries@ && pi.format == info.format,
            forall|k: int, f: Seq<u32>|
                0 <= k < index && #[trigger] entry_codes16(bytes@, parsed.entries@[k], max_folded as int, f)
                    ==> models@[k] == entry_entropy_model16(parsed, k, f, *cost),
        decreases parsed.entries.len() - index,
    {
        let entry = parsed.entries[index];
        proof {
            assert(parsed.entries@[index as int] == entry);
            assert(entry.tile == tiles[index as int]);
            lemma_plane_area(info.width, info.height, info.format.spec_is_grayscale(), entry.tile.plane as int);
            assert(entry.tile.width * entry.tile.height <= dims[entry.tile.plane as int].0
                * dims[entry.tile.plane as int].1) by (nonlinear_arith)
                requires
                    entry.tile.width <= dims[entry.tile.plane as int].0,
                    entry.tile.height <= dims[entry.tile.plane as int].1,
            ;
        }
        let payload = &bytes[entry.offset..entry.offset + entry.length];
        proof {
            assert(payload@ == bytes@.subrange(entry.offset as int, entry.offset + entry.length));
        }
        let sample_count = crate::codec16::checked_high_area(entry.tile.width, entry.tile.height)?;
        let model = match model_folded_payload16(payload, sample_count, entry.entropy_mode, max_folded) {
            Ok(model) => model,
            Err(error) => {
                proof {
                    if entries_code16(bytes@, info.format, parsed.entries@) {
                        assert(entry_coded16(bytes@, parsed.entries@[index as int], max_folded as int));
                        let f = choose|f: Seq<u32>| #[trigger] entry_codes16(bytes@, parsed.entries@[index as int], max_folded as int, f);
                        assert(entry_codes16(bytes@, entry, max_folded as int, f));
                        assert(payload_codes16(entry.entropy_mode, payload@, f));
                    }
                }
                return Err(error);
            },
        };
        proof {
            assert(folded_domain(model@));
        }
        let lanes = if ENTROPY_RICE_BASE <= entry.entropy_mode && entry.entropy_mode
            <= ENTROPY_RICE_BASE + MAX_RICE_PARAMETER16 {
            Some(model.rice_lane_size(entry.entropy_mode - ENTROPY_RICE_BASE, 4096, 4))
        } else {
            None
        };
        let orders: Option<EntropyOrderSizeModel> = if entry.prediction_mode != PREDICT_TEMPORAL {
            Some(
                model.diagonal_order_size(
                    entry.tile.width as usize,
                    entry.tile.height as usize,
                    true,
                ),
            )
        } else {
            None
        };
        let record = tile_entropy_model(
            entry.tile.plane,
            entry.tile.width,
            entry.tile.height,
            entry.prediction_mode == PREDICT_TEMPORAL,
            entry.entropy_mode == ENTROPY_ZERO_RUN,
            entry.length,
            &model,
            cost,
            lanes,
            orders,
        );
        let ghost previous = models@;
        models.push(record);
        proof {
            assert(models@[index as int] == entry_entropy_model16(parsed, index as int, model@, *cost)) by {
                reveal(entry_entropy_model16);
            }
            assert(entry_modeled16(parsed, index as int, models@[index as int], *cost, max_folded as int));
            assert forall|k: int| 0 <= k < index + 1 implies entry_modeled16(
                parsed,
                k,
                #[trigger] models@[k],
                *cost,
                max_folded as int,
            ) by {
                if k < index {
                    assert(models@[k] == previous[k]);
                }
            }
            assert forall|k: int, f: Seq<u32>|
                0 <= k < index + 1 && #[trigger] entry_codes16(bytes@, parsed.entries@[k], max_folded as int, f)
                    implies models@[k] == entry_entropy_model16(parsed, k, f, *cost) by {
                if k < index {
                    assert(models@[k] == previous[k]);
                } else {
                    assert(payload_codes16(entry.entropy_mode, payload@, f));
                    assert(model@ == f);
                }
            }
        }
        index = index + 1;
    }
    Ok(models)
}

// ---------------------------------------------------------------------------
// Sharded Rice lanes
// ---------------------------------------------------------------------------

/// Size model of coding residuals in independent 4096-symbol shards, each as a
/// zero-run payload or as four interleaved Rice lanes.
#[derive(Clone, Copy, Debug, PartialEq, Eq, Structural)]
pub struct ParallelEntropyModel {
    pub payload_bytes: usize,
    pub control_bytes: usize,
    pub complete_bytes: usize,
    pub max_span: usize,
}

/// Symbols per shard of the parallel entropy model.
pub const SHARD_SYMBOLS: usize = 4096;
/// Rice lanes per shard.
pub const SHARD_LANES: usize = 4;

/// The first Rice parameter of `0..=max_parameter` with the fewest bits.
pub open spec fn first_rice_minimum(folded: Seq<u32>, max_parameter: nat) -> nat
    decreases max_parameter,
{
    if max_parameter == 0 {
        0
    } else {
        let best = first_rice_minimum(folded, (max_parameter - 1) as nat);
        if rice_cost(folded, max_parameter) < rice_cost(folded, best) {
            max_parameter
        } else {
            best
        }
    }
}

proof fn lemma_first_rice_minimum(folded: Seq<u32>, max_parameter: nat, best: nat)
    requires
        crate::entropy::is_first_minimum(|p: nat| rice_cost(folded, p), max_parameter, best),
    ensures
        best == first_rice_minimum(folded, max_parameter),
    decreases max_parameter,
{
    let costs = |p: nat| rice_cost(folded, p);
    if max_parameter > 0 {
        let below = (max_parameter - 1) as nat;
        if best == max_parameter {
            let previous = first_rice_minimum(folded, below);
            lemma_first_rice_minimum_bound(folded, below);
            assert(costs(best) < costs(previous));
        } else {
            assert(crate::entropy::is_first_minimum(costs, below, best));
            lemma_first_rice_minimum(folded, below, best);
            assert(costs(best) <= costs(max_parameter));
        }
    }
}

proof fn lemma_first_rice_minimum_bound(folded: Seq<u32>, max_parameter: nat)
    ensures
        first_rice_minimum(folded, max_parameter) <= max_parameter,
    decreases max_parameter,
{
    if max_parameter > 0 {
        lemma_first_rice_minimum_bound(folded, (max_parameter - 1) as nat);
    }
}

/// Payload bytes, control bytes and the longest sequential span of one shard.
pub open spec fn shard_model(shard: Seq<u32>) -> (nat, nat, nat) {
    let zero_run = zero_run_encoding(shard, 0).len();
    let parameter = first_rice_minimum(shard, 16);
    let active = min_nat(SHARD_LANES as nat, shard.len());
    let rice_payload = lanes_payload(shard, parameter, active, active);
    let rice_control = ((active - 1) * 4) as nat;
    if zero_run <= rice_payload + rice_control {
        (zero_run, 0, shard.len())
    } else {
        (rice_payload, rice_control, (shard.len() + 3) / 4)
    }
}

/// The parallel entropy model of `folded`: per shard its payload, a mode byte, and a
/// four-byte length for every shard but the last; the span is the longest run of
/// symbols that one coder handles.
pub open spec fn parallel_model(folded: Seq<u32>) -> (nat, nat, nat)
    decreases folded.len(),
{
    if folded.len() == 0 {
        (0, 0, 0)
    } else {
        let n = min_nat(SHARD_SYMBOLS as nat, folded.len());
        let (payload, control, span) = shard_model(folded.take(n as int));
        let (rest_payload, rest_control, rest_span) = parallel_model(folded.skip(n as int));
        (
            payload + rest_payload,
            control + 1 + (if folded.len() > n {
                4nat
            } else {
                0nat
            }) + rest_control,
            if span > rest_span {
                span
            } else {
                rest_span
            },
        )
    }
}

proof fn lemma_single_shard(values: Seq<u32>, parameter: nat, shard_symbols: nat, lanes: nat)
    requires
        1 <= values.len() <= shard_symbols,
    ensures
        rice_lane_payload(values, parameter, shard_symbols, lanes) == lanes_payload(
            values,
            parameter,
            min_nat(lanes, values.len()),
            min_nat(lanes, values.len()),
        ),
        rice_lane_control(values.len(), shard_symbols, lanes) == ((min_nat(lanes, values.len()) - 1)
            * 4) as nat,
{
    let n = min_nat(shard_symbols, values.len());
    assert(n == values.len());
    assert(values.take(n as int) =~= values);
    assert(values.skip(n as int) =~= Seq::<u32>::empty());
    assert(rice_lane_payload(values.skip(n as int), parameter, shard_symbols, lanes) == 0);
    assert(rice_lane_control((values.len() - n) as nat, shard_symbols, lanes) == 0);
}

/// Payload bytes, control bytes and span of one shard (see `shard_model`).
fn model_shard(shard: &[u32]) -> (r: (usize, usize, usize))
    requires
        folded_domain(shard@),
        1 <= shard.len() <= SHARD_SYMBOLS,
    ensures
        r.0 == shard_model(shard@).0,
        r.1 == shard_model(shard@).1,
        r.2 == shard_model(shard@).2,
        r.0 <= 3 * shard.len(),
        r.1 <= 12,
        r.1 <= 4 * (shard.len() - 1),
        r.2 <= shard.len(),
{
    proof {
        crate::entropy::lemma_zero_run_encoding_len(shard@, 0);
    }
    let zero_run_bytes = modeled_zero_run_cost(shard);
    let mut format = ByteFormatModel::new();
    push_symbols(&mut format, shard);
    let (parameter, _) = crate::entropy::best_rice_parameter(shard);
    proof {
        lemma_first_rice_minimum(shard@, 16, parameter as nat);
        assert(format@ =~= shard@);
        lemma_single_shard(shard@, parameter as nat, SHARD_SYMBOLS as nat, SHARD_LANES as nat);
    }
    let rice = format.rice_lane_size(parameter, SHARD_SYMBOLS, SHARD_LANES);
    let n = shard.len();
    if zero_run_bytes <= rice.complete_bytes {
        (zero_run_bytes as usize, 0, n)
    } else {
        (rice.payload_bytes as usize, rice.control_bytes as usize, (n + 3) / 4)
    }
}

/// Models coding `folded` in independent shards (see `parallel_model`).
#[verifier::rlimit(40)]
pub fn model_parallel_entropy(folded: &[u32]) -> (model: ParallelEntropyModel)
    requires
        folded_domain(folded@),
        7 * folded.len() <= usize::MAX,
    ensures
        model.payload_bytes == parallel_model(folded@).0,
        model.control_bytes == parallel_model(folded@).1,
        model.max_span == parallel_model(folded@).2,
        model.complete_bytes == model.payload_bytes + model.control_bytes,
        model.payload_bytes <= 3 * folded.len(),
        model.control_bytes <= 4 * folded.len(),
        model.max_span <= folded.len(),
{
    let mut payload_bytes: usize = 0;
    let mut control_bytes: usize = 0;
    let mut max_span: usize = 0;
    let mut start: usize = 0;
    proof {
        assert(folded@.skip(0) =~= folded@);
    }
    while start < folded.len()
        invariant
            folded_domain(folded@),
            start <= folded.len(),
            payload_bytes + parallel_model(folded@.skip(start as int)).0 == parallel_model(folded@).0,
            control_bytes + parallel_model(folded@.skip(start as int)).1 == parallel_model(folded@).1,
            (if max_span > parallel_model(folded@.skip(start as int)).2 {
                max_span as nat
            } else {
                parallel_model(folded@.skip(start as int)).2
            }) == parallel_model(folded@).2,
            payload_bytes <= 3 * start,
            start % 4096 == 0 || start == folded.len(),
            control_bytes <= 4 * start,
            max_span <= start,
        decreases folded.len() - start,
    {
        let remaining = folded.len() - start;
        let n = if SHARD_SYMBOLS < remaining {
            SHARD_SYMBOLS
        } else {
            remaining
        };
        let ghost rest = folded@.skip(start as int);
        let shard = &folded[start..start + n];
        proof {
            assert(shard@ =~= rest.take(n as int));
            assert(rest.skip(n as int) =~= folded@.skip(start + n));
            assert(folded_domain(shard@));
        }
        let (payload, control, span) = model_shard(shard);
        payload_bytes = payload_bytes + payload;
        control_bytes = control_bytes + control + 1;
        if remaining > n {
            control_bytes = control_bytes + 4;
        }
        if span > max_span {
            max_span = span;
        }
        start = start + n;
    }
    ParallelEntropyModel {
        payload_bytes,
        control_bytes,
        complete_bytes: payload_bytes + control_bytes,
        max_span,
    }
}

// ---------------------------------------------------------------------------
// High-bit predictor candidates
// ---------------------------------------------------------------------------

/// One predictor coded on one high-bit tile.
pub struct ModeledPredictor16 {
    pub summary: PredictorCandidateModel,
    pub reconstruction: Vec<u16>,
    pub parallel_entropy: ParallelEntropyModel,
    pub encoded: EncodedTile,
}

/// `summary` measures high-bit tile `samples` coded with prediction mode `mode`.
pub open spec fn summary16_ok(
    summary: PredictorCandidateModel,
    samples: Seq<u16>,
    width: int,
    step: int,
    max: int,
    mode: u8,
    reference: Seq<u16>,
) -> bool {
    let residuals = encode_residuals16(samples, mode, width, step, reference, max);
    let folded = fold_all16(residuals);
    let recon = reconstruct16(residuals, mode, width, step, reference, max);
    &&& summary.payload_bytes == modeled_bytes16(folded)
    &&& summary.squared_error == squared_error16(samples, recon)
    &&& summary.max_error == max_error16(samples, recon)
    &&& summary.zero_run == (zero_run_encoding(folded, 0).len() <= min_rice_bytes(
        folded,
        MAX_RICE_PARAMETER16 as nat,
    ))
}

/// `candidate` is high-bit tile `samples` coded with prediction mode `mode`.
pub open spec fn models_candidate16(
    candidate: ModeledPredictor16,
    samples: Seq<u16>,
    width: int,
    step: int,
    max: int,
    mode: u8,
    reference: Seq<u16>,
) -> bool {
    let residuals = encode_residuals16(samples, mode, width, step, reference, max);
    let folded = fold_all16(residuals);
    &&& summary16_ok(candidate.summary, samples, width, step, max, mode, reference)
    &&& candidate.reconstruction@ == reconstruct16(residuals, mode, width, step, reference, max)
    &&& candidate.encoded.prediction_mode == mode
    &&& payload_codes16(candidate.encoded.entropy_mode, candidate.encoded.payload@, folded)
    &&& candidate.parallel_entropy.payload_bytes == parallel_model(folded).0
    &&& candidate.parallel_entropy.control_bytes == parallel_model(folded).1
    &&& candidate.parallel_entropy.max_span == parallel_model(folded).2
    &&& candidate.parallel_entropy.complete_bytes == candidate.parallel_entropy.payload_bytes
        + candidate.parallel_entropy.control_bytes
}

/// Codes one high-bit tile with prediction mode `mode` and measures the result.
pub fn model_predictor16(
    samples: &[u16],
    width: usize,
    quantizer: &Quantizer16,
    mode: u8,
    reference: &[u16],
) -> (candidate: ModeledPredictor16)
    requires
        quantizer.wf(),
        width >= 1,
        samples.len() <= 0x4000_0000,
        crate::model::samples_within(samples@, quantizer.spec_max_sample()),
        crate::model::samples_within(reference@, quantizer.spec_max_sample()),
        mode == PREDICT_TEMPORAL || crate::residual::is_spatial_mode(mode),
        mode == PREDICT_TEMPORAL ==> reference.len() == samples.len(),
        12 * samples.len() <= usize::MAX,
    ensures
        models_candidate16(
            candidate,
            samples@,
            width as int,
            quantizer.spec_step(),
            quantizer.spec_max_sample(),
            mode,
            reference@,
        ),
        candidate.reconstruction.len() == samples.len(),
        candidate.summary.squared_error <= samples.len() * 0xffff_ffff,
        candidate.summary.max_error <= 65535,
        candidate.summary.payload_bytes <= 3 * samples.len(),
        candidate.parallel_entropy.payload_bytes <= 3 * samples.len(),
        candidate.parallel_entropy.control_bytes <= 4 * samples.len(),
        candidate.parallel_entropy.max_span <= samples.len(),
{
    let predicted = predict_tile16(samples, width, mode, quantizer, reference);
    let crate::residual16::PredictedTile16 { folded, reconstruction, squared_error, max_error } = predicted;
    proof {
        quantizer.lemma_bounds();
        assert(folded_domain(folded@));
        crate::residual16::lemma_reconstruct16_len(
            encode_residuals16(samples@, mode, width as int, quantizer.spec_step(), reference@, quantizer.spec_max_sample()),
            mode,
            width as int,
            quantizer.spec_step(),
            reference@,
            quantizer.spec_max_sample(),
        );
    }
    let parallel_entropy = model_parallel_entropy(folded.as_slice());
    proof {
        crate::entropy::lemma_zero_run_encoding_len(folded@, 0);
    }
    let encoded = finish_entropy16(folded, mode);
    let summary = PredictorCandidateModel {
        payload_bytes: encoded.payload.len(),
        squared_error,
        max_error,
        zero_run: encoded.entropy_mode == ENTROPY_ZERO_RUN,
    };
    ModeledPredictor16 { summary, reconstruction, parallel_entropy, encoded }
}

// ---------------------------------------------------------------------------
// Row bands
// ---------------------------------------------------------------------------

/// Totals over the row bands of a tile: band count, payload bytes, squared error,
/// largest error, parallel payload and control bytes, and the longest span.
pub open spec fn band_totals(
    samples: Seq<u16>,
    width: nat,
    band_height: nat,
    step: int,
    max: int,
) -> (nat, nat, nat, nat, nat, nat, nat)
    decreases samples.len(),
{
    if width == 0 || band_height == 0 || samples.len() < width {
        (0, 0, 0, 0, 0, 0, 0)
    } else {
        let rows = samples.len() / width;
        let height = min_nat(band_height, rows);
        let n = height * width;
        proof {
            assert(rows >= 1) by (nonlinear_arith)
                requires
                    samples.len() >= width,
                    width >= 1,
                    rows == samples.len() / width,
            ;
            assert(1 <= n <= samples.len()) by (nonlinear_arith)
                requires
                    1 <= height <= rows,
                    rows == samples.len() / width,
                    width >= 1,
                    n == height * width,
            ;
        }
        let band = samples.take(n as int);
        let residuals = encode_residuals16(band, PREDICT_CLAMP_GRADIENT, width as int, step, Seq::empty(), max);
        let folded = fold_all16(residuals);
        let recon = reconstruct16(residuals, PREDICT_CLAMP_GRADIENT, width as int, step, Seq::empty(), max);
        let parallel = parallel_model(folded);
        let rest = band_totals(samples.skip(n as int), width, band_height, step, max);
        let error = max_error16(band, recon) as nat;
        let span = parallel.2;
        (
            1 + rest.0,
            modeled_bytes16(folded) as nat + rest.1,
            squared_error16(band, recon) as nat + rest.2,
            if error > rest.3 {
                error
            } else {
                rest.3
            },
            parallel.0 + rest.4,
            parallel.1 + rest.5,
            if span > rest.6 {
                span
            } else {
                rest.6
            },
        )
    }
}

/// The band model of a tile cut into bands of `band_height` rows, each predicted
/// with the clamped gradient from its own first row.
pub open spec fn band_model(
    samples: Seq<u16>,
    width: nat,
    height: nat,
    band_height: nat,
    step: int,
    max: int,
) -> PredictorBandModel {
    let totals = band_totals(samples, width, band_height, step, max);
    let control = if totals.0 >= 1 {
        ((totals.0 - 1) * 5) as nat
    } else {
        0
    };
    PredictorBandModel {
        bands: totals.0 as usize,
        max_band_samples: (width * min_nat(band_height, height)) as usize,
        payload_bytes: totals.1 as usize,
        control_bytes: control as usize,
        complete_bytes: (totals.1 + control) as usize,
        squared_error: totals.2 as u64,
        max_error: totals.3 as u32,
        parallel_payload_bytes: totals.4 as usize,
        parallel_control_bytes: (control + totals.5) as usize,
        parallel_complete_bytes: (totals.4 + control + totals.5) as usize,
        max_entropy_span: totals.6 as usize,
    }
}

/// Models a high-bit tile cut into bands of `band_height` rows (see `band_model`).
pub fn model_clamp_gradient_bands(
    samples: &[u16],
    width: usize,
    height: usize,
    quantizer: &Quantizer16,
    band_height: usize,
) -> (model: PredictorBandModel)
    requires
        quantizer.wf(),
        width >= 1,
        band_height >= 1,
        samples.len() == width * height,
        samples.len() <= 0x2000_0000,
        12 * samples.len() <= usize::MAX,
        crate::model::samples_within(samples@, quantizer.spec_max_sample()),
    ensures
        model == band_model(
            samples@,
            width as nat,
            height as nat,
            band_height as nat,
            quantizer.spec_step(),
            quantizer.spec_max_sample(),
        ),
{
    let mut bands: usize = 0;
    let mut payload_bytes: usize = 0;
    let mut squared_error: u64 = 0;
    let mut max_error: u32 = 0;
    let mut parallel_payload_bytes: usize = 0;
    let mut parallel_control_bytes: usize = 0;
    let mut max_span: usize = 0;
    let mut row: usize = 0;
    let none: Vec<u16> = Vec::new();
    let ghost total = band_totals(samples@, width as nat, band_height as nat, quantizer.spec_step(), quantizer.spec_max_sample());
    let ghost w = width as int;
    proof {
        assert(samples@.skip(0) =~= samples@);
        assert(height <= samples.len()) by (nonlinear_arith)
            requires
                samples.len() == width * height,
                width >= 1,
        ;
    }
    while row < height
        invariant
            quantizer.wf(),
            width >= 1,
            w == width,
            band_height >= 1,
            samples.len() == width * height,
            samples.len() <= 0x2000_0000,
            12 * samples.len() <= usize::MAX,
            crate::model::samples_within(samples@, quantizer.spec_max_sample()),
            none@ == Seq::<u16>::empty(),
            row <= height,
            row * w <= samples.len(),
            total == band_totals(samples@, width as nat, band_height as nat, quantizer.spec_step(), quantizer.spec_max_sample()),
            bands + band_totals(samples@.skip(row * w), width as nat, band_height as nat, quantizer.spec_step(), quantizer.spec_max_sample()).0 == total.0,
            payload_bytes + band_totals(samples@.skip(row * w), width as nat, band_height as nat, quantizer.spec_step(), quantizer.spec_max_sample()).1 == total.1,
            squared_error + band_totals(samples@.skip(row * w), width as nat, band_height as nat, quantizer.spec_step(), quantizer.spec_max_sample()).2 == total.2,
            (if max_error > band_totals(samples@.skip(row * w), width as nat, band_height as nat, quantizer.spec_step(), quantizer.spec_max_sample()).3 {
                max_error as nat
            } else {
                band_totals(samples@.skip(row * w), width as nat, band_height as nat, quantizer.spec_step(), quantizer.spec_max_sample()).3
            }) == total.3,
            parallel_payload_bytes + band_totals(samples@.skip(row * w), width as nat, band_height as nat, quantizer.spec_step(), quantizer.spec_max_sample()).4 == total.4,
            parallel_control_bytes + band_totals(samples@.skip(row * w), width as nat, band_height as nat, quantizer.spec_step(), quantizer.spec_max_sample()).5 == total.5,
            (if max_span > band_totals(samples@.skip(row * w), width as nat, band_height as nat, quantizer.spec_step(), quantizer.spec_max_sample()).6 {
                max_span as nat
            } else {
                band_totals(samples@.skip(row * w), width as nat, band_height as nat, quantizer.spec_step(), quantizer.spec_max_sample()).6
            }) == total.6,
            bands <= row * w,
            payload_bytes <= 3 * (row * w),
            squared_error <= (row * w) * 0xffff_ffff,
            max_error <= 65535,
            parallel_payload_bytes <= 3 * (row * w),
            parallel_control_bytes <= 4 * (row * w),
            max_span <= row * w,
        decreases height - row,
    {
        let ghost rest = samples@.skip(row * w);
        let left = height - row;
        let band_rows = if band_height < left {
            band_height
        } else {
            left
        };
        proof {
            assert(rest.len() == (height - row) * w) by (nonlinear_arith)
                requires
                    rest.len() == samples.len() - row * w,
                    samples.len() == w * height,
            ;
            vstd::arithmetic::div_mod::lemma_div_multiples_vanish((height - row) as int, w);
            assert(rest.len() / (width as nat) == height - row) by {
                assert((height - row) * w == w * (height - row)) by (nonlinear_arith);
            }
            assert(rest.len() >= w) by (nonlinear_arith)
                requires
                    rest.len() == (height - row) * w,
                    height - row >= 1,
                    w >= 1,
            ;
            assert(band_rows * w <= rest.len()) by (nonlinear_arith)
                requires
                    band_rows <= height - row,
                    rest.len() == (height - row) * w,
                    w >= 1,
            ;
            assert(1 <= band_rows * w) by (nonlinear_arith)
                requires
                    band_rows >= 1,
                    w >= 1,
            ;
            assert(row * w + band_rows * w == (row + band_rows) * w) by (nonlinear_arith);
        }
        let start = row * width;
        let n = band_rows * width;
        let band = &samples[start..start + n];
        proof {
            assert(band@ =~= rest.take(n as int));
            assert(rest.skip(n as int) =~= samples@.skip((row + band_rows) * w));
            assert forall|i: int| 0 <= i < band@.len() implies #[trigger] band@[i] <= quantizer.spec_max_sample() by {
                assert(band@[i] == samples@[start + i]);
            }
        }
        let modeled = model_predictor16(band, width, quantizer, PREDICT_CLAMP_GRADIENT, none.as_slice());
        proof {
            assert(start * 0xffff_ffff + n * 0xffff_ffff == (start + n) * 0xffff_ffff) by (nonlinear_arith);
            assert((start + n) * 0xffff_ffff <= 0x2000_0000 * 0xffff_ffff) by (nonlinear_arith)
                requires
                    start + n <= 0x2000_0000,
            ;
        }
        bands = bands + 1;
        payload_bytes = payload_bytes + modeled.summary.payload_bytes;
        squared_error = squared_error + modeled.summary.squared_error;
        if modeled.summary.max_error > max_error {
            max_error = modeled.summary.max_error;
        }
        parallel_payload_bytes = parallel_payload_bytes + modeled.parallel_entropy.payload_bytes;
        parallel_control_bytes = parallel_control_bytes + modeled.parallel_entropy.control_bytes;
        if modeled.parallel_entropy.max_span > max_span {
            max_span = modeled.parallel_entropy.max_span;
        }
        row = row + band_rows;
    }
    let control_bytes = if bands >= 1 {
        (bands - 1) * 5
    } else {
        0
    };
    let band_rows = if band_height < height {
        band_height
    } else {
        height
    };
    proof {
        assert(width * band_rows <= width * height) by (nonlinear_arith)
            requires
                band_rows <= height,
        ;
        assert(row == height);
        assert(samples@.skip(row * w) =~= Seq::<u16>::empty()) by {
            assert(row * w == samples.len()) by (nonlinear_arith)
                requires
                    row == height,
                    samples.len() == w * height,
            ;
        }
    }
    PredictorBandModel {
        bands,
        max_band_samples: width * band_rows,
        payload_bytes,
        control_bytes,
        complete_bytes: payload_bytes + control_bytes,
        squared_error,
        max_error,
        parallel_payload_bytes,
        parallel_control_bytes: control_bytes + parallel_control_bytes,
        parallel_complete_bytes: parallel_payload_bytes + control_bytes + parallel_control_bytes,
        max_entropy_span: max_span,
    }
}

// ---------------------------------------------------------------------------
// Predictor-bounded residual mapping
// ---------------------------------------------------------------------------

/// Folded residuals of one high-bit tile when each residual is folded within the
/// interval that its prediction leaves possible.
pub open spec fn bounded_folded16(
    samples: Seq<u16>,
    mode: u8,
    width: int,
    step: int,
    reference: Seq<u16>,
    max_sample: int,
) -> Seq<u32>
    decreases samples.len(),
{
    if samples.len() == 0 {
        Seq::empty()
    } else {
        let previous = encode_residuals16(samples.drop_last(), mode, width, step, reference, max_sample);
        let recon = reconstruct16(previous, mode, width, step, reference, max_sample);
        let i = samples.len() - 1;
        let p = causal_prediction16(mode, recon, i, width, reference, max_sample);
        bounded_folded16(samples.drop_last(), mode, width, step, reference, max_sample).push(
            crate::model::spec_fold_bounded(
                spec_quantize(samples[i] - p, step),
                spec_quantize(-p, step),
                spec_quantize(max_sample - p, step),
            ) as u32,
        )
    }
}

/// Folds the residuals of one high-bit tile within their possible intervals.
pub fn bounded_residuals16(
    samples: &[u16],
    width: usize,
    mode: u8,
    quantizer: &Quantizer16,
    reference: &[u16],
) -> (folded: Vec<u32>)
    requires
        quantizer.wf(),
        width >= 1,
        samples.len() <= 0x4000_0000,
        samples_within(samples@, quantizer.spec_max_sample()),
        samples_within(reference@, quantizer.spec_max_sample()),
        mode == PREDICT_TEMPORAL || crate::residual::is_spatial_mode(mode),
        mode == PREDICT_TEMPORAL ==> reference.len() == samples.len(),
    ensures
        folded@ == bounded_folded16(
            samples@,
            mode,
            width as int,
            quantizer.spec_step(),
            reference@,
            quantizer.spec_max_sample(),
        ),
        folded.len() == samples.len(),
        forall|i: int| 0 <= i < folded.len() ==> #[trigger] folded@[i] <= 0x2_0000,
{
    let step = quantizer.step();
    let maximum = quantizer.max_sample();
    let ghost spec_step = quantizer.spec_step();
    let ghost max = quantizer.spec_max_sample();
    let mut folded: Vec<u32> = Vec::with_capacity(samples.len());
    let mut recon: Vec<u16> = Vec::with_capacity(samples.len());
    let mut index: usize = 0;
    let predictor = if mode == PREDICT_TEMPORAL {
        SpatialPredictor::Paeth
    } else {
        match crate::residual::spatial_predictor_from_mode(mode) {
            Ok(predictor) => predictor,
            Err(_) => SpatialPredictor::Paeth,
        }
    };
    proof {
        assert(samples@.take(0) =~= Seq::<u16>::empty());
    }
    while index < samples.len()
        invariant
            quantizer.wf(),
            step == spec_step,
            1 <= step <= 0x2000_0000,
            spec_step == quantizer.spec_step(),
            maximum == max,
            max == quantizer.spec_max_sample(),
            1 <= max <= 65535,
            width >= 1,
            samples.len() <= 0x4000_0000,
            samples_within(samples@, max),
            samples_within(reference@, max),
            mode == PREDICT_TEMPORAL || crate::residual::is_spatial_mode(mode),
            mode != PREDICT_TEMPORAL ==> predictor == crate::residual::spatial_mode(mode),
            mode == PREDICT_TEMPORAL ==> reference.len() == samples.len(),
            index <= samples.len(),
            folded@ == bounded_folded16(samples@.take(index as int), mode, width as int, spec_step, reference@, max),
            recon@ == reconstruct16(
                encode_residuals16(samples@.take(index as int), mode, width as int, spec_step, reference@, max),
                mode,
                width as int,
                spec_step,
                reference@,
                max,
            ),
            recon.len() == index,
            folded.len() == index,
            forall|i: int| 0 <= i < folded.len() ==> #[trigger] folded@[i] <= 0x2_0000,
        decreases samples.len() - index,
    {
        let ghost before_samples = samples@.take(index as int);
        let ghost after_samples = samples@.take(index + 1);
        let ghost previous = encode_residuals16(before_samples, mode, width as int, spec_step, reference@, max);
        proof {
            assert(after_samples.drop_last() =~= before_samples);
            assert(samples_within(before_samples, max));
            crate::residual16::lemma_encode_reconstruct16(before_samples, mode, width as int, spec_step, reference@, max);
            crate::residual16::lemma_reconstruct16_facts(previous, mode, width as int, spec_step, reference@, max);
            crate::residual::lemma_neighbours_public(index as int, width as int);
            crate::residual16::lemma_prediction16_range(mode, recon@, index as int, width as int, reference@, max);
        }
        let x = index % width;
        let y = index / width;
        let prediction: u16 = if mode == PREDICT_TEMPORAL {
            reference[index]
        } else {
            let left = if x > 0 {
                recon[index - 1]
            } else {
                0
            };
            let above = if y > 0 {
                recon[index - width]
            } else {
                0
            };
            let upper_left = if x > 0 && y > 0 {
                recon[index - width - 1]
            } else {
                0
            };
            spatial_prediction16(predictor, left, above, upper_left, maximum as u16)
        };
        proof {
            assert(prediction == causal_prediction16(mode, recon@, index as int, width as int, reference@, max));
        }
        let sample = samples[index];
        let quantized = quantizer.quantize(sample as i32 - prediction as i32);
        let lower = quantizer.quantize(-(prediction as i32));
        let upper = quantizer.quantize(maximum - prediction as i32);
        proof {
            crate::analyze::lemma_quantize_monotone(-(prediction as int), sample - prediction, spec_step);
            crate::analyze::lemma_quantize_monotone(sample - prediction, max - prediction, spec_step);
            crate::analyze::lemma_quantize_monotone(-(prediction as int), 0, spec_step);
            crate::analyze::lemma_quantize_monotone(0, max - prediction, spec_step);
            assert(spec_quantize(0, spec_step) == 0) by {
                vstd::arithmetic::div_mod::lemma_basic_div((spec_step / 2) as int, spec_step);
            }
            assert(-65535 <= lower && upper <= 65535);
        }
        let value = crate::model::fold_bounded_residual(quantized, lower, upper);
        proof {
            assert(-65535 * 0x2000_0000 <= quantized * step <= 65535 * 0x2000_0000) by (nonlinear_arith)
                requires
                    -65535 <= quantized <= 65535,
                    1 <= step <= 0x2000_0000,
            ;
        }
        let reconstructed_value: i64 = prediction as i64 + quantized as i64 * step as i64;
        let reconstructed: u16 = if reconstructed_value < 0 {
            0
        } else if reconstructed_value > maximum as i64 {
            maximum as u16
        } else {
            reconstructed_value as u16
        };
        let ghost q = spec_quantize(sample - prediction, spec_step);
        proof {
            assert(quantized == q);
            assert(encode_residuals16(after_samples, mode, width as int, spec_step, reference@, max) == previous.push(q));
            assert(previous.push(q).drop_last() =~= previous);
            assert(after_samples[index as int] == sample);
        }
        folded.push(value);
        recon.push(reconstructed);
        proof {
            assert(recon@ == reconstruct16(previous.push(q), mode, width as int, spec_step, reference@, max));
            assert(folded@ == bounded_folded16(after_samples, mode, width as int, spec_step, reference@, max));
        }
        index = index + 1;
    }
    proof {
        assert(samples@.take(index as int) =~= samples@);
    }
    folded
}

/// `model` is the residual-mapping model of high-bit tile `samples` coded with
/// temporal prediction from `reference` when given, else with Paeth.
pub open spec fn residual_mapping16_ok(
    model: TileResidualMappingModel,
    samples: Seq<u16>,
    reference: Option<Seq<u16>>,
    tile: Tile,
    step: int,
    max: int,
) -> bool {
    let mode = reference_mode(reference);
    let refs = reference_samples(reference);
    let residuals = encode_residuals16(samples, mode, tile.width as int, step, refs, max);
    let bounded = bounded_folded16(samples, mode, tile.width as int, step, refs, max);
    &&& model.plane == tile.plane && model.width == tile.width && model.height == tile.height
    &&& model.temporal_prediction == reference is Some
    &&& model.sample_count == tile.width * tile.height
    &&& exists|entropy_mode: u8, payload: Seq<u8>|
        {
            &&& payload.len() == model.actual_payload_bytes
            &&& #[trigger] payload_codes16(entropy_mode, payload, fold_all16(residuals))
            &&& model.source_zero_run == (entropy_mode == ENTROPY_ZERO_RUN)
        }
    &&& model.bounded_payload_bytes == modeled_bytes16(bounded)
    &&& model.bounded_zero_run == (zero_run_encoding(bounded, 0).len() <= min_rice_bytes(
        bounded,
        MAX_RICE_PARAMETER16 as nat,
    ))
}

/// Models one high-bit tile's current payload and its predictor-bounded payload.
pub fn model_residual_mapping_tile16(
    samples: &[u16],
    reference: Option<&[u16]>,
    tile: Tile,
    quantizer: &Quantizer16,
) -> (model: TileResidualMappingModel)
    requires
        quantizer.wf(),
        tile.width >= 1,
        samples.len() == tile.width * tile.height,
        samples.len() <= 0x4000_0000,
        samples_within(samples@, quantizer.spec_max_sample()),
        reference matches Some(r) ==> r.len() == samples.len() && samples_within(r@, quantizer.spec_max_sample()),
    ensures
        residual_mapping16_ok(
            model,
            samples@,
            match reference {
                Some(r) => Some(r@),
                None => None,
            },
            tile,
            quantizer.spec_step(),
            quantizer.spec_max_sample(),
        ),
{
    let width = tile.width as usize;
    let current = encode_tile16(samples, reference, width, quantizer);
    let none: Vec<u16> = Vec::new();
    let (mode, refs) = match reference {
        Some(r) => (PREDICT_TEMPORAL, r),
        None => (PREDICT_SPATIAL, none.as_slice()),
    };
    let folded = bounded_residuals16(samples, width, mode, quantizer, refs);
    proof {
        assert(folded_domain(folded@));
    }
    let (bounded_mode, bounded_bytes) = crate::tile_coding16::modeled_entropy_cost16(folded.as_slice());
    proof {
        crate::entropy::lemma_zero_run_encoding_len(folded@, 0);
        assert(bounded_bytes <= 3 * 0x4000_0000);
    }
    let model = TileResidualMappingModel {
        plane: tile.plane,
        width: tile.width,
        height: tile.height,
        temporal_prediction: reference.is_some(),
        source_zero_run: current.entropy_mode == ENTROPY_ZERO_RUN,
        bounded_zero_run: bounded_mode == ENTROPY_ZERO_RUN,
        sample_count: samples.len(),
        actual_payload_bytes: current.payload.len(),
        bounded_payload_bytes: bounded_bytes as usize,
    };
    proof {
        let spec_reference = match reference {
            Some(r) => Some(r@),
            None => None::<Seq<u16>>,
        };
        assert(refs@ == reference_samples(spec_reference));
        let residuals = encode_residuals16(samples@, mode, width as int, quantizer.spec_step(), refs@, quantizer.spec_max_sample());
        assert(current.prediction_mode == mode);
        assert(payload_codes16(current.entropy_mode, current.payload@, fold_all16(residuals)));
        assert(exists|entropy_mode: u8, payload: Seq<u8>|
            {
                &&& payload.len() == model.actual_payload_bytes
                &&& #[trigger] payload_codes16(entropy_mode, payload, fold_all16(residuals))
                &&& model.source_zero_run == (entropy_mode == ENTROPY_ZERO_RUN)
            });
    }
    model
}

// ---------------------------------------------------------------------------
// High-bit predictor models
// ---------------------------------------------------------------------------

/// `model` and `reconstruction` are the predictor model of high-bit tile `samples`
/// (`width` by `height`): every spatial predictor, temporal prediction from
/// `available` when given, the encoder's current choice (temporal from `current` when
/// given, else Paeth), the exact-byte oracle with the reconstruction it yields, and
/// clamped-gradient row bands of 16, 32 and 64 rows.
pub open spec fn predictor_tile16_ok(
    model: TilePredictorModel,
    reconstruction: Seq<u16>,
    samples: Seq<u16>,
    width: int,
    height: int,
    step: int,
    max: int,
    available: Option<Seq<u16>>,
    current: Option<Seq<u16>>,
    current_matches: bool,
) -> bool {
    let none = Seq::<u16>::empty();
    let current_is_candidate = model.current_mode == PredictorModelMode::Paeth || current_matches;
    let oracle_reference = if model.oracle_mode == PredictorModelMode::Temporal {
        available->0
    } else {
        none
    };
    &&& model.sample_count == samples.len()
    &&& summary16_ok(model.paeth, samples, width, step, max, PREDICT_SPATIAL, none)
    &&& summary16_ok(model.average, samples, width, step, max, PREDICT_AVERAGE, none)
    &&& summary16_ok(model.clamp_gradient, samples, width, step, max, PREDICT_CLAMP_GRADIENT, none)
    &&& summary16_ok(model.half_gradient, samples, width, step, max, PREDICT_HALF_GRADIENT, none)
    &&& (model.temporal is Some <==> available is Some)
    &&& (available matches Some(r) ==> summary16_ok(
        model.temporal->0,
        samples,
        width,
        step,
        max,
        PREDICT_TEMPORAL,
        r,
    ))
    &&& model.current_mode == (if current is Some {
        PredictorModelMode::Temporal
    } else {
        PredictorModelMode::Paeth
    })
    &&& (current matches Some(r) ==> summary16_ok(model.current, samples, width, step, max, PREDICT_TEMPORAL, r))
    &&& (current is None ==> model.current == model.paeth)
    &&& (model.oracle_mode, model.oracle) == oracle_pick(
        model_candidates(model),
        model.current_mode,
        model.current,
        current_is_candidate,
    )
    &&& (model.oracle_mode == PredictorModelMode::Temporal ==> available is Some)
    &&& reconstruction == reconstruct16(
        encode_residuals16(samples, mode_code(model.oracle_mode), width, step, oracle_reference, max),
        mode_code(model.oracle_mode),
        width,
        step,
        oracle_reference,
        max,
    )
    &&& model.band16_clamp == band_model(samples, width as nat, height as nat, 16, step, max)
    &&& model.band32_clamp == band_model(samples, width as nat, height as nat, 32, step, max)
    &&& model.band64_clamp == band_model(samples, width as nat, height as nat, 64, step, max)
}

/// Copies a high-bit reconstruction.
fn copy_samples16(samples: &Vec<u16>) -> (copy: Vec<u16>)
    ensures
        copy@ == samples@,
{
    let mut copy: Vec<u16> = Vec::with_capacity(samples.len());
    let mut i: usize = 0;
    while i < samples.len()
        invariant
            i <= samples.len(),
            copy@ == samples@.take(i as int),
        decreases samples.len() - i,
    {
        copy.push(samples[i]);
        proof {
            assert(samples@.take(i + 1) =~= samples@.take(i as int).push(samples@[i as int]));
        }
        i = i + 1;
    }
    proof {
        assert(samples@.take(i as int) =~= samples@);
    }
    copy
}

/// Models every compatible predictor and the row bands of one high-bit tile and
/// picks the exact-byte oracle (see `predictor_tile16_ok`).
#[verifier::rlimit(60)]
pub fn model_predictor_tile16(
    samples: &[u16],
    available_reference: Option<&[u16]>,
    current_reference: Option<&[u16]>,
    current_matches: bool,
    plane: usize,
    tile_width: u32,
    tile_height: u32,
    quantizer: &Quantizer16,
) -> (result: (TilePredictorModel, Vec<u16>))
    requires
        quantizer.wf(),
        tile_width >= 1,
        samples.len() == tile_width * tile_height,
        samples.len() <= 0x2000_0000,
        12 * samples.len() <= usize::MAX,
        samples_within(samples@, quantizer.spec_max_sample()),
        available_reference matches Some(r) ==> r.len() == samples.len() && samples_within(
            r@,
            quantizer.spec_max_sample(),
        ),
        current_reference matches Some(r) ==> r.len() == samples.len() && samples_within(
            r@,
            quantizer.spec_max_sample(),
        ),
        current_matches ==> available_reference is Some && current_reference is Some,
    ensures
        result.0.plane == plane && result.0.width == tile_width && result.0.height == tile_height,
        predictor_tile16_ok(
            result.0,
            result.1@,
            samples@,
            tile_width as int,
            tile_height as int,
            quantizer.spec_step(),
            quantizer.spec_max_sample(),
            match available_reference {
                Some(r) => Some(r@),
                None => None,
            },
            match current_reference {
                Some(r) => Some(r@),
                None => None,
            },
            current_matches,
        ),
{
    let width = tile_width as usize;
    let height = tile_height as usize;
    let none: Vec<u16> = Vec::new();
    let paeth = model_predictor16(samples, width, quantizer, PREDICT_SPATIAL, none.as_slice());
    let average = model_predictor16(samples, width, quantizer, PREDICT_AVERAGE, none.as_slice());
    let clamp_gradient = model_predictor16(samples, width, quantizer, PREDICT_CLAMP_GRADIENT, none.as_slice());
    let half_gradient = model_predictor16(samples, width, quantizer, PREDICT_HALF_GRADIENT, none.as_slice());
    let band16_clamp = model_clamp_gradient_bands(samples, width, height, quantizer, 16);
    let band32_clamp = model_clamp_gradient_bands(samples, width, height, quantizer, 32);
    let band64_clamp = model_clamp_gradient_bands(samples, width, height, quantizer, 64);
    let temporal = match available_reference {
        Some(r) => Some(model_predictor16(samples, width, quantizer, PREDICT_TEMPORAL, r)),
        None => None,
    };
    let current_temporal = match current_reference {
        Some(r) => Some(model_predictor16(samples, width, quantizer, PREDICT_TEMPORAL, r)),
        None => None,
    };
    let (current_mode, current) = match &current_temporal {
        Some(candidate) => (PredictorModelMode::Temporal, candidate.summary),
        None => (PredictorModelMode::Paeth, paeth.summary),
    };
    let mut candidates: Vec<(PredictorModelMode, PredictorCandidateModel)> = Vec::with_capacity(5);
    candidates.push((PredictorModelMode::Paeth, paeth.summary));
    candidates.push((PredictorModelMode::Average, average.summary));
    candidates.push((PredictorModelMode::ClampGradient, clamp_gradient.summary));
    candidates.push((PredictorModelMode::HalfGradient, half_gradient.summary));
    let temporal_summary = match &temporal {
        Some(candidate) => {
            candidates.push((PredictorModelMode::Temporal, candidate.summary));
            Some(candidate.summary)
        },
        None => None,
    };
    let current_is_candidate = match current_mode {
        PredictorModelMode::Paeth => true,
        _ => current_matches,
    };
    let (oracle_mode, oracle) = pick_oracle(&candidates, current_mode, current, current_is_candidate);
    let model = TilePredictorModel {
        plane,
        width: tile_width,
        height: tile_height,
        sample_count: samples.len(),
        current_mode,
        oracle_mode,
        current,
        oracle,
        paeth: paeth.summary,
        average: average.summary,
        clamp_gradient: clamp_gradient.summary,
        half_gradient: half_gradient.summary,
        temporal: temporal_summary,
        band16_clamp,
        band32_clamp,
        band64_clamp,
    };
    proof {
        assert(candidates@ =~= model_candidates(model));
        let minimum = min_payload(model_candidates(model), model_candidates(model).len());
        if !(current_is_candidate && current.payload_bytes == minimum) {
            lemma_min_payload_attained(model_candidates(model), model_candidates(model).len());
            lemma_first_least_error_found(model_candidates(model), minimum, model_candidates(model).len());
            lemma_first_least_error_range(model_candidates(model), minimum, model_candidates(model).len());
        }
    }
    let reconstruction = match oracle_mode {
        PredictorModelMode::Paeth => copy_samples16(&paeth.reconstruction),
        PredictorModelMode::Average => copy_samples16(&average.reconstruction),
        PredictorModelMode::ClampGradient => copy_samples16(&clamp_gradient.reconstruction),
        PredictorModelMode::HalfGradient => copy_samples16(&half_gradient.reconstruction),
        PredictorModelMode::Temporal => match &temporal {
            Some(candidate) => copy_samples16(&candidate.reconstruction),
            None => Vec::new(),
        },
    };
    proof {
        let avail = match available_reference {
            Some(r) => Some(r@),
            None => None::<Seq<u16>>,
        };
        assert(model.oracle_mode == PredictorModelMode::Temporal ==> avail is Some);
    }
    (model, reconstruction)
}

// ---------------------------------------------------------------------------
// High-bit frame analyses
// ---------------------------------------------------------------------------

/// The reference that the high-bit motion gate keeps: `reference` when the luma
/// plane moved little, else none.
pub open spec fn gated_reference16<'a>(frame: &Frame16, reference: Option<&'a Frame16>) -> Option<&'a Frame16> {
    match reference {
        Some(r) => if abs_diff_sum16(frame.planes@[0].data@, r.planes@[0].data@) <= (5
            * vstd::arithmetic::power2::pow2((frame.format.spec_bit_depth() - 8) as nat))
            * frame.planes@[0].data.len() {
            Some(r)
        } else {
            None
        },
        None => None,
    }
}

/// The frame, options and reference that the high-bit analyses accept.
pub open spec fn analysis16_input_ok(frame: &Frame16, reference: Option<&Frame16>, options: CodecOptions) -> bool {
    &&& frame.valid()
    &&& options.valid()
    &&& reference16_fits(frame, reference)
    &&& tiling_ok(
        frame.width,
        frame.height,
        frame.format.spec_is_grayscale(),
        options.tile_width,
        options.tile_height,
        false,
    )
}

/// Samples of tile `tile` of a valid high-bit frame.
fn frame16_tile_samples(frame: &Frame16, tile: Tile) -> (samples: Vec<u16>)
    requires
        frame.valid(),
        tile.plane < frame.planes.len(),
        tile_fits(
            tile,
            plane_dims(frame.width, frame.height, frame.format.spec_is_grayscale())[tile.plane as int].0 as int,
            plane_dims(frame.width, frame.height, frame.format.spec_is_grayscale())[tile.plane as int].1 as int,
        ),
    ensures
        samples@ == source_tile16(frame, tile),
        samples.len() == tile.width * tile.height,
        samples.len() <= 0x2000_0000,
        samples.len() <= frame.width * frame.height,
        samples_within(samples@, spec_sample_max(frame.format.spec_bit_depth())),
{
    let ghost dims = plane_dims(frame.width, frame.height, frame.format.spec_is_grayscale());
    let plane = &frame.planes[tile.plane];
    proof {
        crate::model::lemma_frame16_plane_bound(frame, tile.plane as int);
        assert(frame.planes@[tile.plane as int].shaped(dims[tile.plane as int].0, dims[tile.plane as int].1));
        assert(tile.width * tile.height <= plane.width * plane.height) by (nonlinear_arith)
            requires
                tile.width <= plane.width,
                tile.height <= plane.height,
        ;
        assert(plane.width <= frame.width);
        assert(plane.width * plane.height <= frame.width * frame.height) by (nonlinear_arith)
            requires
                plane.width <= frame.width,
                plane.height == frame.height,
        ;
    }
    let samples = extract_tile(plane.data.as_slice(), plane.width, plane.height, tile);
    proof {
        assert forall|i: int| 0 <= i < samples.len() implies #[trigger] samples@[i]
            <= spec_sample_max(frame.format.spec_bit_depth()) by {
            crate::tile_coding::lemma_tile_sample_index(i, tile, plane.width as int, plane.height as int);
        }
    }
    samples
}

/// The quantizer of a high-bit frame coded with `options`.
fn frame16_quantizer(frame: &Frame16, options: CodecOptions) -> (quantizer: Quantizer16)
    requires
        frame.valid(),
        options.valid(),
    ensures
        quantizer.wf(),
        quantizer.spec_step() == spec_quantization_step16(options.quality, frame.format.spec_bit_depth()),
        quantizer.spec_max_sample() == spec_sample_max(frame.format.spec_bit_depth()),
{
    let depth = frame.bit_depth();
    let maximum = match sample_max(depth) {
        Ok(m) => m,
        Err(_) => 1,
    };
    proof {
        assert(crate::model::supported_bit_depth(depth));
    }
    Quantizer16::new(quantization_step16(options.quality, depth), maximum)
}

/// `model` is the residual-mapping model of tile `tile` of a high-bit frame.
pub open spec fn frame_mapping16_ok(
    model: TileResidualMappingModel,
    frame: &Frame16,
    reference: Option<&Frame16>,
    tile: Tile,
    options: CodecOptions,
) -> bool {
    residual_mapping16_ok(
        model,
        source_tile16(frame, tile),
        match reference {
            Some(g) => Some(source_tile16(g, tile)),
            None => None,
        },
        tile,
        spec_quantization_step16(options.quality, frame.format.spec_bit_depth()),
        spec_sample_max(frame.format.spec_bit_depth()),
    )
}

/// Models the predictor-bounded residual symbols of every tile of a high-bit frame
/// without changing the stream; the motion gate is applied to `reference` first.
pub fn analyze_residual_mapping16(
    frame: &Frame16,
    reference: Option<&Frame16>,
    options: CodecOptions,
) -> (r: Result<Vec<TileResidualMappingModel>, CodecError>)
    ensures
        r is Ok <==> analysis16_input_ok(frame, reference, options),
        r matches Ok(models) ==> {
            let tiles = spec_tiles(
                frame.width,
                frame.height,
                frame.format.spec_is_grayscale(),
                options.tile_width,
                options.tile_height,
            );
            &&& models.len() == tiles.len()
            &&& forall|k: int|
                0 <= k < models.len() ==> frame_mapping16_ok(
                    #[trigger] models@[k],
                    frame,
                    gated_reference16(frame, reference),
                    tiles[k],
                    options,
                )
        },
{
    frame.validate()?;
    options.validate()?;
    if let Some(reference_frame) = reference {
        validate_reference16(frame, reference_frame)?;
    }
    let selected = match reference {
        Some(reference_frame) => {
            proof {
                crate::model::lemma_frame16_plane_bound(frame, 0);
                crate::model::lemma_frame16_plane_bound(reference_frame, 0);
            }
            if temporal_prediction_is_promising16(frame, reference_frame) {
                Some(reference_frame)
            } else {
                None
            }
        },
        None => None,
    };
    let tiles = expected_tiles(
        frame.width,
        frame.height,
        frame.format,
        options.tile_width,
        options.tile_height,
        false,
    )?;
    let quantizer = frame16_quantizer(frame, options);
    let ghost dims = plane_dims(frame.width, frame.height, frame.format.spec_is_grayscale());
    proof {
        lemma_spec_tiles_fit(
            frame.width,
            frame.height,
            frame.format.spec_is_grayscale(),
            options.tile_width,
            options.tile_height,
        );
        assert(selected == gated_reference16(frame, reference));
    }
    let mut models: Vec<TileResidualMappingModel> = Vec::with_capacity(tiles.len());
    let mut index: usize = 0;
    while index < tiles.len()
        invariant
            frame.valid(),
            quantizer.wf(),
            quantizer.spec_step() == spec_quantization_step16(options.quality, frame.format.spec_bit_depth()),
            quantizer.spec_max_sample() == spec_sample_max(frame.format.spec_bit_depth()),
            selected == gated_reference16(frame, reference),
            reference16_fits(frame, reference),
            dims == plane_dims(frame.width, frame.height, frame.format.spec_is_grayscale()),
            tiles@ == spec_tiles(
                frame.width,
                frame.height,
                frame.format.spec_is_grayscale(),
                options.tile_width,
                options.tile_height,
            ),
            tiles_fit(tiles@, dims),
            index <= tiles.len(),
            models.len() == index,
            forall|k: int|
                0 <= k < index ==> frame_mapping16_ok(#[trigger] models@[k], frame, selected, tiles@[k], options),
        decreases tiles.len() - index,
    {
        let tile = tiles[index];
        proof {
            assert(tiles@[index as int] == tile);
        }
        let samples = frame16_tile_samples(frame, tile);
        let reference_samples16 = match selected {
            Some(g) => Some(frame16_tile_samples(g, tile)),
            None => None,
        };
        let reference_slice: Option<&[u16]> = match &reference_samples16 {
            Some(v) => Some(v.as_slice()),
            None => None,
        };
        let model = model_residual_mapping_tile16(samples.as_slice(), reference_slice, tile, &quantizer);
        models.push(model);
        proof {
            assert forall|k: int| 0 <= k < index + 1 implies frame_mapping16_ok(
                #[trigger] models@[k],
                frame,
                selected,
                tiles@[k],
                options,
            ) by {
                if k == index {
                    assert(models@[k] == model);
                }
            }
        }
        index = index + 1;
    }
    Ok(models)
}

/// Whether two high-bit planes hold the same samples.
pub fn planes16_equal(a: &Plane16, b: &Plane16) -> (equal: bool)
    ensures
        equal == (a.width == b.width && a.height == b.height && a.data@ == b.data@),
{
    if a.width != b.width || a.height != b.height || a.data.len() != b.data.len() {
        return false;
    }
    let mut i: usize = 0;
    while i < a.data.len()
        invariant
            a.data.len() == b.data.len(),
            i <= a.data.len(),
            forall|k: int| 0 <= k < i ==> a.data@[k] == b.data@[k],
        decreases a.data.len() - i,
    {
        if a.data[i] != b.data[i] {
            return false;
        }
        i = i + 1;
    }
    proof {
        assert(a.data@ =~= b.data@);
    }
    true
}

/// The predictor analyses bound a tile's byte counts by twelve times its sample
/// count in `usize`; a frame fits this machine when twelve times its luma area does.
pub open spec fn predictor16_fits(frame: &Frame16) -> bool {
    12 * (frame.width * frame.height) <= usize::MAX
}

/// The spatial candidates of high-bit tile `tile` and, where a reference is given,
/// its temporal candidates.
pub open spec fn frame_predictor16_ok(
    model: TilePredictorModel,
    reconstruction: Seq<u16>,
    frame: &Frame16,
    available: Option<&Frame16>,
    current: Option<&Frame16>,
    tile: Tile,
    step: int,
) -> bool {
    let matches = match (available, current) {
        (Some(a), Some(c)) => a.planes@[tile.plane as int].width == c.planes@[tile.plane as int].width
            && a.planes@[tile.plane as int].height == c.planes@[tile.plane as int].height
            && a.planes@[tile.plane as int].data@ == c.planes@[tile.plane as int].data@,
        _ => false,
    };
    &&& model.plane == tile.plane && model.width == tile.width && model.height == tile.height
    &&& predictor_tile16_ok(
        model,
        reconstruction,
        source_tile16(frame, tile),
        tile.width as int,
        tile.height as int,
        step,
        spec_sample_max(frame.format.spec_bit_depth()),
        match available {
            Some(a) => Some(source_tile16(a, tile)),
            None => None,
        },
        match current {
            Some(c) => Some(source_tile16(c, tile)),
            None => None,
        },
        matches,
    )
}

/// `model` is the predictor model of high-bit tile `tile` of `frame` for some
/// oracle reconstruction.
pub open spec fn tile_predictor16_modeled(
    model: TilePredictorModel,
    frame: &Frame16,
    available: Option<&Frame16>,
    current: Option<&Frame16>,
    tile: Tile,
    step: int,
) -> bool {
    exists|reconstruction: Seq<u16>|
        #[trigger] frame_predictor16_ok(model, reconstruction, frame, available, current, tile, step)
}

/// Models every tile of a high-bit frame with the oracle's candidates; returns the
/// models and the per-tile oracle reconstructions.
fn model_predictor_frame16(
    frame: &Frame16,
    available: Option<&Frame16>,
    current: Option<&Frame16>,
    tiles: &Vec<Tile>,
    quantizer: &Quantizer16,
) -> (result: (Vec<TilePredictorModel>, Vec<Vec<u16>>))
    requires
        frame.valid(),
        predictor16_fits(frame),
        quantizer.wf(),
        quantizer.spec_max_sample() == spec_sample_max(frame.format.spec_bit_depth()),
        reference16_fits(frame, available),
        reference16_fits(frame, current),
        tiles_fit(tiles@, plane_dims(frame.width, frame.height, frame.format.spec_is_grayscale())),
    ensures
        result.0.len() == tiles.len(),
        result.1.len() == tiles.len(),
        forall|k: int|
            0 <= k < tiles.len() ==> frame_predictor16_ok(
                #[trigger] result.0@[k],
                result.1@[k]@,
                frame,
                available,
                current,
                tiles@[k],
                quantizer.spec_step(),
            ),
        forall|k: int| 0 <= k < tiles.len() ==> (#[trigger] result.1@[k]).len() == tiles@[k].width * tiles@[k].height,
        forall|k: int| 0 <= k < tiles.len() ==> samples_within(
            (#[trigger] result.1@[k])@,
            spec_sample_max(frame.format.spec_bit_depth()),
        ),
{
    let ghost dims = plane_dims(frame.width, frame.height, frame.format.spec_is_grayscale());
    let mut models: Vec<TilePredictorModel> = Vec::with_capacity(tiles.len());
    let mut reconstructions: Vec<Vec<u16>> = Vec::with_capacity(tiles.len());
    let mut index: usize = 0;
    while index < tiles.len()
        invariant
            frame.valid(),
            predictor16_fits(frame),
            quantizer.wf(),
            quantizer.spec_max_sample() == spec_sample_max(frame.format.spec_bit_depth()),
            reference16_fits(frame, available),
            reference16_fits(frame, current),
            dims == plane_dims(frame.width, frame.height, frame.format.spec_is_grayscale()),
            tiles_fit(tiles@, dims),
            index <= tiles.len(),
            models.len() == index,
            reconstructions.len() == index,
            forall|k: int|
                0 <= k < index ==> frame_predictor16_ok(
                    #[trigger] models@[k],
                    reconstructions@[k]@,
                    frame,
                    available,
                    current,
                    tiles@[k],
                    quantizer.spec_step(),
                ),
            forall|k: int| 0 <= k < index ==> (#[trigger] reconstructions@[k]).len() == tiles@[k].width * tiles@[k].height,
            forall|k: int| 0 <= k < index ==> samples_within(
                (#[trigger] reconstructions@[k])@,
                spec_sample_max(frame.format.spec_bit_depth()),
            ),
        decreases tiles.len() - index,
    {
        let tile = tiles[index];
        proof {
            assert(tiles@[index as int] == tile);
        }
        let samples = frame16_tile_samples(frame, tile);
        let available_samples = match available {
            Some(a) => Some(frame16_tile_samples(a, tile)),
            None => None,
        };
        let current_samples = match current {
            Some(c) => Some(frame16_tile_samples(c, tile)),
            None => None,
        };
        let matches = match (available, current) {
            (Some(a), Some(c)) => planes16_equal(&a.planes[tile.plane], &c.planes[tile.plane]),
            _ => false,
        };
        let available_slice: Option<&[u16]> = match &available_samples {
            Some(v) => Some(v.as_slice()),
            None => None,
        };
        let current_slice: Option<&[u16]> = match &current_samples {
            Some(v) => Some(v.as_slice()),
            None => None,
        };
        let (model, reconstruction) = model_predictor_tile16(
            samples.as_slice(),
            available_slice,
            current_slice,
            matches,
            tile.plane,
            tile.width,
            tile.height,
            quantizer,
        );
        proof {
            assert(reconstruction@.len() == tile.width * tile.height) by {
                let avail = match available_slice {
                    Some(r) => Some(r@),
                    None => None::<Seq<u16>>,
                };
                let step = quantizer.spec_step();
                let mode = mode_code(model.oracle_mode);
                let refs = if model.oracle_mode == PredictorModelMode::Temporal {
                    avail->0
                } else {
                    Seq::<u16>::empty()
                };
                quantizer.lemma_bounds();
                crate::residual16::lemma_encode_reconstruct16(
                    samples@,
                    mode,
                    tile.width as int,
                    step,
                    refs,
                    quantizer.spec_max_sample(),
                );
            }
            assert(samples_within(reconstruction@, quantizer.spec_max_sample())) by {
                let avail = match available_slice {
                    Some(r) => Some(r@),
                    None => None::<Seq<u16>>,
                };
                let step = quantizer.spec_step();
                let mode = mode_code(model.oracle_mode);
                let refs = if model.oracle_mode == PredictorModelMode::Temporal {
                    avail->0
                } else {
                    Seq::<u16>::empty()
                };
                quantizer.lemma_bounds();
                crate::residual16::lemma_reconstruct16_facts(
                    encode_residuals16(samples@, mode, tile.width as int, step, refs, quantizer.spec_max_sample()),
                    mode,
                    tile.width as int,
                    step,
                    refs,
                    quantizer.spec_max_sample(),
                );
            }
        }
        models.push(model);
        reconstructions.push(reconstruction);
        proof {
            assert forall|k: int| 0 <= k < index + 1 implies frame_predictor16_ok(
                #[trigger] models@[k],
                reconstructions@[k]@,
                frame,
                available,
                current,
                tiles@[k],
                quantizer.spec_step(),
            ) by {
                if k == index {
                    assert(models@[k] == model);
                    assert(reconstructions@[k] == reconstruction);
                }
            }
            assert forall|k: int| 0 <= k < index + 1 implies (#[trigger] reconstructions@[k]).len()
                == tiles@[k].width * tiles@[k].height && samples_within(
                reconstructions@[k]@,
                spec_sample_max(frame.format.spec_bit_depth()),
            ) by {
                if k == index {
                    assert(reconstructions@[k] == reconstruction);
                }
            }
        }
        index = index + 1;
    }
    (models, reconstructions)
}

/// Checks that twelve times the luma area of a valid high-bit frame fits `usize`.
fn check_predictor16_fits(frame: &Frame16) -> (r: Result<(), CodecError>)
    requires
        frame.valid(),
    ensures
        r is Ok <==> predictor16_fits(frame),
        r is Err ==> r matches Err(CodecError::LimitExceeded(_)),
{
    proof {
        crate::model::lemma_frame16_plane_bound(frame, 0);
    }
    if frame.planes[0].data.len() > usize::MAX / 12 {
        Err(CodecError::LimitExceeded("frame is too large to model on this machine"))
    } else {
        Ok(())
    }
}

/// Models compatible spatial predictors and tile-local temporal prediction on every
/// tile of a high-bit frame; the current choice applies the encoder's motion gate
/// to `reference`.
pub fn analyze_predictors16(
    frame: &Frame16,
    reference: Option<&Frame16>,
    options: CodecOptions,
) -> (r: Result<Vec<TilePredictorModel>, CodecError>)
    ensures
        r is Ok <==> analysis16_input_ok(frame, reference, options) && predictor16_fits(frame),
        analysis16_input_ok(frame, reference, options) && !predictor16_fits(frame)
            ==> r matches Err(CodecError::LimitExceeded(_)),
        r matches Ok(models) ==> {
            let tiles = spec_tiles(
                frame.width,
                frame.height,
                frame.format.spec_is_grayscale(),
                options.tile_width,
                options.tile_height,
            );
            &&& models.len() == tiles.len()
            &&& forall|k: int|
                0 <= k < models.len() ==> tile_predictor16_modeled(
                    #[trigger] models@[k],
                    frame,
                    reference,
                    gated_reference16(frame, reference),
                    tiles[k],
                    spec_quantization_step16(options.quality, frame.format.spec_bit_depth()),
                )
        },
{
    frame.validate()?;
    options.validate()?;
    if let Some(reference_frame) = reference {
        validate_reference16(frame, reference_frame)?;
    }
    let selected = match reference {
        Some(reference_frame) => {
            proof {
                crate::model::lemma_frame16_plane_bound(frame, 0);
                crate::model::lemma_frame16_plane_bound(reference_frame, 0);
            }
            if temporal_prediction_is_promising16(frame, reference_frame) {
                Some(reference_frame)
            } else {
                None
            }
        },
        None => None,
    };
    let tiles = expected_tiles(
        frame.width,
        frame.height,
        frame.format,
        options.tile_width,
        options.tile_height,
        false,
    )?;
    check_predictor16_fits(frame)?;
    let quantizer = frame16_quantizer(frame, options);
    proof {
        lemma_spec_tiles_fit(
            frame.width,
            frame.height,
            frame.format.spec_is_grayscale(),
            options.tile_width,
            options.tile_height,
        );
    }
    let (models, reconstructions) = model_predictor_frame16(frame, reference, selected, &tiles, &quantizer);
    proof {
        assert(selected == gated_reference16(frame, reference));
        assert forall|k: int| 0 <= k < models.len() implies tile_predictor16_modeled(
            #[trigger] models@[k],
            frame,
            reference,
            gated_reference16(frame, reference),
            tiles@[k],
            spec_quantization_step16(options.quality, frame.format.spec_bit_depth()),
        ) by {
            assert(frame_predictor16_ok(
                models@[k],
                reconstructions@[k]@,
                frame,
                reference,
                selected,
                tiles@[k],
                quantizer.spec_step(),
            ));
        }
    }
    Ok(models)
}

/// A high-bit frame of the shape of `frame` whose samples are all zero.
fn zero_frame16(frame: &Frame16) -> (zeroed: Frame16)
    requires
        frame.valid(),
    ensures
        zeroed.valid(),
        zeroed.width == frame.width && zeroed.height == frame.height,
        zeroed.format == frame.format && zeroed.frame_rate == frame.frame_rate,
        zeroed.planes.len() == frame.planes.len(),
        forall|i: int|
            0 <= i < frame.planes.len() ==> (#[trigger] zeroed.planes@[i]).width == frame.planes@[i].width
                && zeroed.planes@[i].height == frame.planes@[i].height
                && zeroed.planes@[i].data.len() == frame.planes@[i].data.len(),
{
    let mut planes: Vec<Plane16> = Vec::with_capacity(frame.planes.len());
    let mut p: usize = 0;
    while p < frame.planes.len()
        invariant
            frame.valid(),
            p <= frame.planes.len(),
            planes.len() == p,
            forall|i: int|
                0 <= i < p ==> (#[trigger] planes@[i]).width == frame.planes@[i].width
                    && planes@[i].height == frame.planes@[i].height
                    && planes@[i].data.len() == frame.planes@[i].data.len()
                    && samples_within(planes@[i].data@, spec_sample_max(frame.format.spec_bit_depth())),
        decreases frame.planes.len() - p,
    {
        let source = &frame.planes[p];
        let length = source.data.len();
        let mut data: Vec<u16> = Vec::with_capacity(length);
        let mut i: usize = 0;
        while i < length
            invariant
                i <= length,
                data.len() == i,
                forall|k: int| 0 <= k < i ==> data@[k] == 0,
            decreases length - i,
        {
            data.push(0);
            i = i + 1;
        }
        planes.push(Plane16 { width: source.width, height: source.height, data });
        p = p + 1;
    }
    let zeroed = Frame16 {
        width: frame.width,
        height: frame.height,
        format: frame.format,
        frame_rate: frame.frame_rate,
        planes,
    };
    proof {
        let dims = plane_dims(frame.width, frame.height, frame.format.spec_is_grayscale());
        assert forall|i: int| 0 <= i < zeroed.planes.len() implies #[trigger] zeroed.planes@[i].shaped(
            dims[i].0,
            dims[i].1,
        ) && samples_within(zeroed.planes@[i].data@, spec_sample_max(zeroed.format.spec_bit_depth())) by {
            assert(frame.planes@[i].shaped(dims[i].0, dims[i].1));
        }
    }
    zeroed
}

/// Models one high-bit frame of a sequence and returns the oracle reconstruction.
/// The current choice uses `current_reference` behind the motion gate, the oracle's
/// temporal candidate uses `oracle_reference`; both references must be given or
/// both absent.
#[verifier::spinoff_prover]
pub fn analyze_predictor_frame16(
    frame: &Frame16,
    current_reference: Option<&Frame16>,
    oracle_reference: Option<&Frame16>,
    options: CodecOptions,
) -> (r: Result<(Vec<TilePredictorModel>, Frame16), CodecError>)
    ensures
        r is Ok <==> analysis16_input_ok(frame, current_reference, options) && reference16_fits(
            frame,
            oracle_reference,
        ) && (current_reference is Some == oracle_reference is Some) && predictor16_fits(frame),
        frame.valid() && options.valid() && current_reference is Some != oracle_reference is Some
            ==> r matches Err(CodecError::InvalidInput(_)),
        analysis16_input_ok(frame, current_reference, options) && reference16_fits(frame, oracle_reference)
            && (current_reference is Some == oracle_reference is Some) && !predictor16_fits(frame)
            ==> r matches Err(CodecError::LimitExceeded(_)),
        r matches Ok((models, reconstruction)) ==> {
            let tiles = spec_tiles(
                frame.width,
                frame.height,
                frame.format.spec_is_grayscale(),
                options.tile_width,
                options.tile_height,
            );
            &&& models.len() == tiles.len()
            &&& forall|k: int|
                0 <= k < models.len() ==> tile_predictor16_modeled(
                    #[trigger] models@[k],
                    frame,
                    oracle_reference,
                    gated_reference16(frame, current_reference),
                    tiles[k],
                    spec_quantization_step16(options.quality, frame.format.spec_bit_depth()),
                )
            &&& reconstruction.valid()
            &&& reconstruction.width == frame.width && reconstruction.height == frame.height
            &&& reconstruction.format == frame.format && reconstruction.frame_rate == frame.frame_rate
            &&& forall|k: int|
                0 <= k < models.len() ==> frame_predictor16_ok(
                    #[trigger] models@[k],
                    tile_samples(
                        reconstruction.planes@[tiles[k].plane as int].data@,
                        reconstruction.planes@[tiles[k].plane as int].width as int,
                        tiles[k],
                    ),
                    frame,
                    oracle_reference,
                    gated_reference16(frame, current_reference),
                    tiles[k],
                    spec_quantization_step16(options.quality, frame.format.spec_bit_depth()),
                )
        },
{
    frame.validate()?;
    options.validate()?;
    if current_reference.is_some() != oracle_reference.is_some() {
        return Err(CodecError::InvalidInput(
            "current and oracle references must have matching dependency depth",
        ));
    }
    if let Some(reference_frame) = current_reference {
        validate_reference16(frame, reference_frame)?;
    }
    if let Some(reference_frame) = oracle_reference {
        validate_reference16(frame, reference_frame)?;
    }
    let selected = match current_reference {
        Some(reference_frame) => {
            proof {
                crate::model::lemma_frame16_plane_bound(frame, 0);
                crate::model::lemma_frame16_plane_bound(reference_frame, 0);
            }
            if temporal_prediction_is_promising16(frame, reference_frame) {
                Some(reference_frame)
            } else {
                None
            }
        },
        None => None,
    };
    let tiles = expected_tiles(
        frame.width,
        frame.height,
        frame.format,
        options.tile_width,
        options.tile_height,
        false,
    )?;
    check_predictor16_fits(frame)?;
    let quantizer = frame16_quantizer(frame, options);
    let ghost dims = plane_dims(frame.width, frame.height, frame.format.spec_is_grayscale());
    proof {
        lemma_spec_tiles_fit(
            frame.width,
            frame.height,
            frame.format.spec_is_grayscale(),
            options.tile_width,
            options.tile_height,
        );
    }
    let (models, reconstructions) = model_predictor_frame16(frame, oracle_reference, selected, &tiles, &quantizer);
    let mut reconstruction = zero_frame16(frame);
    let mut index: usize = 0;
    while index < tiles.len()
        invariant
            frame.valid(),
            quantizer.wf(),
            quantizer.spec_max_sample() == spec_sample_max(frame.format.spec_bit_depth()),
            dims == plane_dims(frame.width, frame.height, frame.format.spec_is_grayscale()),
            tiles_fit(tiles@, dims),
            reconstructions.len() == tiles.len(),
            forall|k: int| 0 <= k < tiles.len() ==> (#[trigger] reconstructions@[k]).len() == tiles@[k].width * tiles@[k].height,
            forall|k: int| 0 <= k < tiles.len() ==> samples_within(
                (#[trigger] reconstructions@[k])@,
                spec_sample_max(frame.format.spec_bit_depth()),
            ),
            reconstruction.valid(),
            reconstruction.width == frame.width && reconstruction.height == frame.height,
            reconstruction.format == frame.format && reconstruction.frame_rate == frame.frame_rate,
            index <= tiles.len(),
            options.valid(),
            tiles@ == spec_tiles(
                frame.width,
                frame.height,
                frame.format.spec_is_grayscale(),
                options.tile_width,
                options.tile_height,
            ),
            forall|k: int|
                0 <= k < index ==> tile_samples(
                    reconstruction.planes@[tiles@[k].plane as int].data@,
                    reconstruction.planes@[tiles@[k].plane as int].width as int,
                    tiles@[k],
                ) == (#[trigger] reconstructions@[k])@,
        decreases tiles.len() - index,
    {
        let tile = tiles[index];
        proof {
            assert(tiles@[index as int] == tile);
            assert(reconstruction.planes@[tile.plane as int].shaped(dims[tile.plane as int].0, dims[tile.plane as int].1));
        }
        let ghost before = reconstruction;
        let Frame16 { width, height, format, frame_rate, planes } = reconstruction;
        let mut planes = planes;
        let mut plane = planes.remove(tile.plane);
        let ghost old_data = plane.data@;
        proof {
            assert(plane == before.planes@[tile.plane as int]);
        }
        write_tile(&mut plane.data, plane.width, plane.height, tile, reconstructions[index].as_slice());
        let ghost new_plane = plane;
        proof {
            let maximum = spec_sample_max(frame.format.spec_bit_depth());
            let source = reconstructions@[index as int]@;
            assert(samples_within(before.planes@[tile.plane as int].data@, maximum));
            assert forall|i: int| 0 <= i < plane.data.len() implies #[trigger] plane.data@[i] <= maximum by {
                if in_tile(i, plane.width as int, tile) {
                    let offset = crate::tile_coding::tile_offset(i, plane.width as int, tile);
                    crate::tile_coding::lemma_in_tile_offset(i, plane.width as int, tile);
                    assert(plane.data@[i] == tile_samples(plane.data@, plane.width as int, tile)[offset]);
                    assert(source[offset] <= maximum);
                } else {
                    assert(plane.data@[i] == before.planes@[tile.plane as int].data@[i]);
                }
            }
        }
        planes.insert(tile.plane, plane);
        reconstruction = Frame16 { width, height, format, frame_rate, planes };
        proof {
            assert(reconstruction.planes@ =~= before.planes@.update(tile.plane as int, new_plane));
            assert forall|k: int|
                0 <= k < index + 1 implies tile_samples(
                reconstruction.planes@[tiles@[k].plane as int].data@,
                reconstruction.planes@[tiles@[k].plane as int].width as int,
                tiles@[k],
            ) == (#[trigger] reconstructions@[k])@ by {
                if k < index && tiles@[k].plane == tile.plane {
                    let p = tile.plane as int;
                    assert(before.planes@[p].shaped(dims[p].0, dims[p].1));
                    crate::tile_coding::lemma_write_keeps_other_tile(
                        old_data,
                        new_plane.data@,
                        new_plane.width,
                        new_plane.height,
                        tiles@,
                        index as int,
                        k,
                        frame.width,
                        frame.height,
                        frame.format.spec_is_grayscale(),
                        options.tile_width,
                        options.tile_height,
                    );
                }
            }
            assert forall|i: int| 0 <= i < reconstruction.planes.len() implies #[trigger] reconstruction.planes@[i].shaped(
                dims[i].0,
                dims[i].1,
            ) && samples_within(reconstruction.planes@[i].data@, spec_sample_max(reconstruction.format.spec_bit_depth())) by {
                assert(before.planes@[i].shaped(dims[i].0, dims[i].1));
            }
            assert(reconstruction.planes.len() == before.planes.len());
            assert(reconstruction.frame_rate.valid() && reconstruction.width > 0 && reconstruction.height > 0);
            assert(frame16_shape_ok(
                reconstruction.width,
                reconstruction.height,
                reconstruction.format,
                reconstruction.frame_rate,
                reconstruction.planes@,
            ));
            assert(reconstruction.valid());
        }
        index = index + 1;
    }
    proof {
        assert(selected == gated_reference16(frame, current_reference));
        assert forall|k: int| 0 <= k < models.len() implies tile_predictor16_modeled(
            #[trigger] models@[k],
            frame,
            oracle_reference,
            gated_reference16(frame, current_reference),
            tiles@[k],
            spec_quantization_step16(options.quality, frame.format.spec_bit_depth()),
        ) by {
            assert(frame_predictor16_ok(
                models@[k],
                reconstructions@[k]@,
                frame,
                oracle_reference,
                selected,
                tiles@[k],
                quantizer.spec_step(),
            ));
        }
    }
    Ok((models, reconstruction))
}

} // verus!
