use crate::bits::{get_u16, get_u32, get_u64, le_bytes, le_value, put_u16, put_u32, put_u64};
use crate::codec::{
    DIRECTORY_ENTRY_LEN, DirectoryEntry, HEADER_LEN, Parsed, StreamInfo, directory_entry_at,
    directory_record, directory_records, has_temporal_tile, magic, payload_concat, payload_total, same_layout, temporal_count,
    zero_run_count,
};
use crate::entropy::{ENTROPY_RICE_BASE, ENTROPY_ZERO_RUN};
use crate::model::{
    CodecError, CodecOptions, Frame16, FrameRate, MAX_FRAME_BYTES, PixelFormat, Plane16,
    checked_area, frame_samples, plane_dims, sample_max, samples_within, spec_sample_max,
};
use crate::predict::{Quantizer16, abs, quantization_step16, spec_quantization_step16};
use crate::residual::{
    MAX_PREDICTION_MODE, PREDICT_AVERAGE, PREDICT_CLAMP_GRADIENT, PREDICT_SPATIAL, PREDICT_TEMPORAL,
};
use crate::residual::{is_spatial_mode, unfold_all};
use crate::residual16::{
    encode_residuals16, fold_all16, predict_tile16, reconstruct16, reconstruct_tile16,
    squared_error16,
};
use crate::tile_coding::{
    EncodedTile, decode_rice_symbols, decode_zero_run_symbols, extract_tile, in_tile, rice_carries,
    tile_samples, write_tile, zero_run_carries,
};
use crate::tile_coding16::{
    ENTROPY_BLOCK_PACK, MAX_RICE_PARAMETER16, block_pack_carries, decode_block_pack_symbols, payload_codes16,
    encode_fixed_gradient_rice_tile_pair, encode_sampled_fixed_gradient_tile,
    encode_sampled_fixed_gradient_tile_selected, encode_spatial_tile16, encode_temporal_tile16,
    finish_entropy16, modeled_bytes16, modeled_entropy_cost16, sample_fixed_gradient_entropy,
    tile_encodes16, tile_input16, tile_symbols16,
};
use crate::tiles::{
    MAX_TILES, Tile, area_sum, expected_tiles, lemma_spec_tiles_area, lemma_spec_tiles_fit, tile_area, plane_dimensions, spec_tiles, tile_fits,
    tiles_fit, tiling_ok,
};
use vstd::prelude::*;

verus! {

/// High-bit stream versions: the legacy one knows only Paeth and temporal
/// prediction, the current one adds the other spatial predictors and fixed blocks.
pub const LEGACY_VERSION16: u8 = 1;
pub const VERSION16: u8 = 2;

/// Entropy modes that a high-bit stream of `version` may use.
pub open spec fn entropy_mode_allowed16(version: u8, mode: u8) -> bool {
    ||| mode == ENTROPY_ZERO_RUN
    ||| (ENTROPY_RICE_BASE <= mode <= ENTROPY_RICE_BASE + MAX_RICE_PARAMETER16)
    ||| (version == VERSION16 && mode == ENTROPY_BLOCK_PACK)
}

/// Prediction modes that a high-bit stream of `version` may use.
pub open spec fn prediction_mode_allowed16(version: u8, mode: u8) -> bool {
    if version == LEGACY_VERSION16 {
        mode <= PREDICT_TEMPORAL
    } else {
        mode <= MAX_PREDICTION_MODE
    }
}

/// Frame dimensions whose planes and two-byte raw size fit the size limit.
pub open spec fn dimensions_ok16(width: u32, height: u32, grayscale: bool) -> bool {
    let dims = plane_dims(width, height, grayscale);
    &&& forall|i: int| 0 <= i < dims.len() ==> #[trigger] dims[i].0 * dims[i].1 <= MAX_FRAME_BYTES
    &&& 2 * frame_samples(width, height, grayscale) <= MAX_FRAME_BYTES
}

/// A high-bit parse result that agrees with the bytes it was read from.
pub open spec fn parsed16_ok(bytes: Seq<u8>, parsed: Parsed) -> bool {
    layout16_ok(bytes, parsed.info, parsed.version, parsed.entries@)
}

/// Frame facts of a high-bit stream whose header and directory agree with `bytes`
/// and whose payloads end at `end`.
pub open spec fn layout16_to(
    bytes: Seq<u8>,
    info: StreamInfo,
    version: u8,
    entries: Seq<DirectoryEntry>,
    end: int,
) -> bool {
    let tiles = spec_tiles(
        info.width,
        info.height,
        info.format.spec_is_grayscale(),
        info.tile_width,
        info.tile_height,
    );
    &&& bytes.len() >= HEADER_LEN
    &&& bytes.subrange(0, 4) == magic()
    &&& bytes[4] == version
    &&& (version == LEGACY_VERSION16 || version == VERSION16)
    &&& bytes[5] == (if info.format.spec_is_grayscale() {
        0u8
    } else {
        1u8
    })
    &&& bytes[7] + 8 == info.format.spec_bit_depth()
    &&& info.format.spec_bit_depth() > 8
    &&& bytes[6] == info.quality
    &&& 1 <= info.quality <= 100
    &&& info.width == le_value(bytes, 8, 4) && info.height == le_value(bytes, 12, 4)
    &&& info.tile_width == le_value(bytes, 16, 2) && info.tile_height == le_value(bytes, 18, 2)
    &&& info.frame_rate.numerator == le_value(bytes, 20, 4)
    &&& info.frame_rate.denominator == le_value(bytes, 24, 4)
    &&& info.tile_count == le_value(bytes, 28, 4)
    &&& info.width > 0 && info.height > 0 && info.tile_width > 0 && info.tile_height > 0
    &&& info.frame_rate.valid()
    &&& dimensions_ok16(info.width, info.height, info.format.spec_is_grayscale())
    &&& info.encoded_bytes == end
    &&& info.zero_run_tiles + info.rice_tiles + info.block_pack_tiles == info.tile_count
    &&& info.spatial_tiles + info.temporal_tiles == info.tile_count
    &&& entries.len() == info.tile_count
    &&& entries.len() == tiles.len()
    &&& forall|i: int|
        0 <= i < entries.len() ==> {
            &&& (#[trigger] entries[i]).tile == tiles[i]
            &&& entropy_mode_allowed16(version, entries[i].entropy_mode)
            &&& prediction_mode_allowed16(version, entries[i].prediction_mode)
            &&& entries[i].offset + entries[i].length <= end
            &&& directory_entry_at(bytes, HEADER_LEN + i * DIRECTORY_ENTRY_LEN, entries[i])
        }
    &&& forall|i: int|
        0 <= i < entries.len() - 1 ==> #[trigger] entries[i + 1].offset == entries[i].offset
            + entries[i].length
    &&& entries.len() > 0 ==> entries[0].offset == HEADER_LEN + entries.len() * DIRECTORY_ENTRY_LEN
    &&& entries.len() > 0 ==> entries[entries.len() - 1].offset + entries[entries.len()
        - 1].length == end
    &&& entries.len() == 0 ==> end == HEADER_LEN
    &&& entries.len() <= MAX_TILES
}

/// Frame facts `info`, stream version `version` and directory `entries` that agree
/// with the high-bit stream `bytes`.
pub open spec fn layout16_ok(bytes: Seq<u8>, info: StreamInfo, version: u8, entries: Seq<DirectoryEntry>) -> bool {
    layout16_to(bytes, info, version, entries, bytes.len() as int)
}


/// Checks that every plane and the frame's two-byte raw size fit the size limit.
pub fn validate_frame_dimensions(width: u32, height: u32, format: PixelFormat) -> (r: Result<
    (),
    CodecError,
>)
    ensures
        r is Ok <==> dimensions_ok16(width, height, format.spec_is_grayscale()),
        r is Err ==> r matches Err(CodecError::LimitExceeded(_)),
{
    let dims = plane_dimensions(width, height, format);
    let ghost grayscale = format.spec_is_grayscale();
    let mut total: usize = 0;
    let mut index: usize = 0;
    while index < dims.len()
        invariant
            grayscale == format.spec_is_grayscale(),
            dims@ == plane_dims(width, height, grayscale),
            index <= dims.len(),
            forall|i: int| 0 <= i < index ==> #[trigger] dims@[i].0 * dims@[i].1 <= MAX_FRAME_BYTES,
            total == crate::model::partial_area(dims@, index as int),
            total <= MAX_FRAME_BYTES,
        decreases dims.len() - index,
    {
        let (plane_width, plane_height) = dims[index];
        assert(dims@[index as int] == (plane_width, plane_height));
        let area = match checked_area(plane_width, plane_height) {
            Ok(area) => area,
            Err(error) => {
                proof {
                    assert(!(dims@[index as int].0 * dims@[index as int].1 <= MAX_FRAME_BYTES));
                    assert(!dimensions_ok16(width, height, grayscale));
                }
                return Err(error);
            },
        };
        if total > MAX_FRAME_BYTES - area {
            proof {
                crate::model::lemma_partial_area_monotone(dims@, index as int + 1);
                crate::model::lemma_frame_samples_is_partial_area(width, height, grayscale);
                assert(crate::model::partial_area(dims@, index as int + 1) == total + area);
                assert(crate::model::partial_area(dims@, dims@.len() as int) >= crate::model::partial_area(dims@, index as int + 1));
                assert(frame_samples(width, height, grayscale) > MAX_FRAME_BYTES);
                assert(!dimensions_ok16(width, height, grayscale));
            }
            return Err(CodecError::LimitExceeded("frame is too large"));
        }
        total = total + area;
        index = index + 1;
    }
    proof {
        crate::model::lemma_frame_samples_is_partial_area(width, height, grayscale);
    }
    if total > MAX_FRAME_BYTES / 2 {
        return Err(CodecError::LimitExceeded("frame is too large"));
    }
    Ok(())
}

/// Sample count of a high-bit plane whose two-byte size fits the size limit.
pub fn checked_high_area(width: u32, height: u32) -> (r: Result<usize, CodecError>)
    ensures
        r matches Ok(samples) ==> samples == width * height,
        r is Ok <==> 2 * (width * height) <= MAX_FRAME_BYTES,
        r is Err ==> r matches Err(CodecError::LimitExceeded(_)),
{
    let samples = checked_area(width, height)?;
    if samples > MAX_FRAME_BYTES / 2 {
        return Err(CodecError::LimitExceeded("plane is too large"));
    }
    Ok(samples)
}

/// Directory entries whose payload is a block-pack coding.
pub open spec fn block_pack_count(entries: Seq<DirectoryEntry>) -> nat
    decreases entries.len(),
{
    if entries.len() == 0 {
        0
    } else {
        block_pack_count(entries.drop_last()) + if entries.last().entropy_mode == ENTROPY_BLOCK_PACK {
            1nat
        } else {
            0nat
        }
    }
}

/// Reads and checks a high-bit stream header and its tile directory.
pub fn parse16(bytes: &[u8]) -> (r: Result<Parsed, CodecError>)
    ensures
        r matches Ok(parsed) ==> parsed16_ok(bytes@, parsed),
        r matches Ok(parsed) ==> parsed.info.zero_run_tiles == zero_run_count(parsed.entries@)
            && parsed.info.block_pack_tiles == block_pack_count(parsed.entries@)
            && parsed.info.temporal_tiles == temporal_count(parsed.entries@),
        bytes.len() < HEADER_LEN ==> r == Err::<Parsed, CodecError>(CodecError::Malformed("truncated header")),
        bytes.len() >= HEADER_LEN && bytes@.subrange(0, 4) != magic() ==> r == Err::<Parsed, CodecError>(
            CodecError::Malformed("bad magic"),
        ),
        bytes.len() >= HEADER_LEN && bytes@.subrange(0, 4) == magic() && !(bytes@[4] == LEGACY_VERSION16
            || bytes@[4] == VERSION16) ==> r == Err::<Parsed, CodecError>(
            CodecError::Malformed("unsupported high-bit Fastvid version"),
        ),
        r is Err ==> !(r matches Err(CodecError::InvalidInput(_))),
        forall|pi: StreamInfo, pv: u8, pe: Seq<DirectoryEntry>| #[trigger] layout16_ok(bytes@, pi, pv, pe) ==> (r matches Ok(q) && same_layout(q, pi, pv, pe)),
        forall|pi: StreamInfo, pv: u8, pe: Seq<DirectoryEntry>, end: int| #[trigger]
            layout16_to(bytes@, pi, pv, pe, end) && end < bytes.len() ==> r == Err::<Parsed, CodecError>(
                CodecError::Malformed("trailing stream bytes"),
            ),
        forall|pi: StreamInfo, pv: u8, pe: Seq<DirectoryEntry>, end: int| #[trigger]
            layout16_to(bytes@, pi, pv, pe, end) && end > bytes.len() ==> r == Err::<Parsed, CodecError>(
                CodecError::Malformed("truncated tile payload"),
            ),
{
    if bytes.len() < HEADER_LEN {
        return Err(CodecError::Malformed("truncated header"));
    }
    if bytes[0] != 70 || bytes[1] != 86 || bytes[2] != 73 || bytes[3] != 68 {
        proof {
            if bytes@.subrange(0, 4) == magic() {
                assert(bytes@.subrange(0, 4)[0] == bytes@[0]);
                assert(bytes@.subrange(0, 4)[1] == bytes@[1]);
                assert(bytes@.subrange(0, 4)[2] == bytes@[2]);
                assert(bytes@.subrange(0, 4)[3] == bytes@[3]);
            }
        }
        return Err(CodecError::Malformed("bad magic"));
    }
    proof {
        assert(bytes@.subrange(0, 4) =~= magic());
    }
    let version = bytes[4];
    if version != LEGACY_VERSION16 && version != VERSION16 {
        return Err(CodecError::Malformed("unsupported high-bit Fastvid version"));
    }
    let grayscale = match bytes[5] {
        0 => true,
        1 => false,
        _ => {
            return Err(CodecError::Malformed("unknown pixel layout"));
        },
    };
    if bytes[7] > 247 {
        return Err(CodecError::Malformed("invalid bit depth"));
    }
    let bit_depth = bytes[7] + 8;
    let format = match PixelFormat::from_layout_and_depth(grayscale, bit_depth) {
        Ok(format) => format,
        Err(_) => {
            proof {
                assert forall|pi: StreamInfo, pv: u8, pe: Seq<DirectoryEntry>, end: int| !#[trigger] layout16_to(bytes@, pi, pv, pe, end) by {
                    if layout16_to(bytes@, pi, pv, pe, end) {
                        assert(crate::model::supported_bit_depth(pi.format.spec_bit_depth()));
                    }
                }
            }
            return Err(CodecError::Malformed("unsupported bit depth"));
        },
    };
    proof {
        assert forall|pi: StreamInfo, pv: u8, pe: Seq<DirectoryEntry>, end: int| #[trigger] layout16_to(bytes@, pi, pv, pe, end) implies pi.format == format by {
            assert(pi.format.spec_is_grayscale() == grayscale);
            assert(pi.format.spec_bit_depth() == bit_depth);
        }
    }
    if !format.is_high_bit_depth() {
        return Err(CodecError::Malformed("high-bit decoder requires 10, 12, or 16 bits"));
    }
    let quality = bytes[6];
    if quality < 1 || quality > 100 {
        return Err(CodecError::Malformed("quality is out of range"));
    }
    let width = get_u32(bytes, 8)?;
    let height = get_u32(bytes, 12)?;
    let tile_width = get_u16(bytes, 16)?;
    let tile_height = get_u16(bytes, 18)?;
    let frame_rate = FrameRate::new(get_u32(bytes, 20)?, get_u32(bytes, 24)?);
    let declared_tiles = get_u32(bytes, 28)?;
    if width == 0 || height == 0 || tile_width == 0 || tile_height == 0 {
        return Err(CodecError::Malformed("zero dimension"));
    }
    if frame_rate.validate().is_err() {
        return Err(CodecError::Malformed("zero frame-rate component"));
    }
    match validate_frame_dimensions(width, height, format) {
        Ok(()) => {},
        Err(error) => {
            return Err(error);
        },
    }
    if declared_tiles as usize > MAX_TILES {
        return Err(CodecError::LimitExceeded("too many tiles"));
    }
    let tile_count = declared_tiles as usize;
    let expected = match expected_tiles(width, height, format, tile_width, tile_height, false) {
        Ok(expected) => expected,
        Err(error) => {
            return Err(error);
        },
    };
    if tile_count != expected.len() {
        return Err(CodecError::Malformed("tile count does not match dimensions"));
    }
    let directory_end = HEADER_LEN + tile_count * DIRECTORY_ENTRY_LEN;
    if directory_end > bytes.len() {
        return Err(CodecError::Malformed("truncated tile directory"));
    }
    let ghost tiles = spec_tiles(width, height, format.spec_is_grayscale(), tile_width, tile_height);
    let mut entries: Vec<DirectoryEntry> = Vec::with_capacity(tile_count);
    let mut next_payload_offset: usize = directory_end;
    let mut zero_run_tiles: usize = 0;
    let mut rice_tiles: usize = 0;
    let mut block_pack_tiles: usize = 0;
    let mut spatial_tiles: usize = 0;
    let mut temporal_tiles: usize = 0;
    let mut index: usize = 0;
    while index < tile_count
        invariant
            expected@ == tiles,
            tiles == spec_tiles(width, height, format.spec_is_grayscale(), tile_width, tile_height),
            tile_count == expected.len(),
            tile_count <= MAX_TILES,
            directory_end == HEADER_LEN + tile_count * DIRECTORY_ENTRY_LEN,
            directory_end <= bytes.len(),
            directory_end <= next_payload_offset <= bytes.len(),
            index <= tile_count,
            entries.len() == index,
            zero_run_tiles + rice_tiles + block_pack_tiles == index,
            spatial_tiles + temporal_tiles == index,
            zero_run_tiles == zero_run_count(entries@),
            block_pack_tiles == block_pack_count(entries@),
            temporal_tiles == temporal_count(entries@),
            version == LEGACY_VERSION16 || version == VERSION16,
            version == bytes@[4],
            bytes.len() >= HEADER_LEN && bytes@.subrange(0, 4) == magic(),
            tile_count == le_value(bytes@, 28, 4),
            width == le_value(bytes@, 8, 4) && height == le_value(bytes@, 12, 4),
            tile_width == le_value(bytes@, 16, 2) && tile_height == le_value(bytes@, 18, 2),
            forall|pi: StreamInfo, pv: u8, pe: Seq<DirectoryEntry>, end: int| #[trigger]
                layout16_to(bytes@, pi, pv, pe, end) ==> pi.format == format && pe.len() == tile_count,
            forall|i: int|
                0 <= i < index ==> {
                    &&& (#[trigger] entries@[i]).tile == tiles[i]
                    &&& entropy_mode_allowed16(version, entries@[i].entropy_mode)
                    &&& prediction_mode_allowed16(version, entries@[i].prediction_mode)
                    &&& entries@[i].offset + entries@[i].length <= bytes.len()
                    &&& directory_entry_at(bytes@, HEADER_LEN + i * DIRECTORY_ENTRY_LEN, entries@[i])
                },
            forall|i: int|
                0 <= i < index - 1 ==> #[trigger] entries@[i + 1].offset == entries@[i].offset
                    + entries@[i].length,
            index > 0 ==> entries@[0].offset == directory_end,
            index > 0 ==> next_payload_offset == entries@[index - 1].offset + entries@[index
                - 1].length,
            index == 0 ==> next_payload_offset == directory_end,
            forall|pi: StreamInfo, pv: u8, pe: Seq<DirectoryEntry>, end: int| #[trigger]
                layout16_to(bytes@, pi, pv, pe, end) ==> entries@ == pe.take(index as int),
        decreases tile_count - index,
    {
        let start = HEADER_LEN + index * DIRECTORY_ENTRY_LEN;
        proof {
            assert(start + DIRECTORY_ENTRY_LEN <= directory_end) by (nonlinear_arith)
                requires
                    start == HEADER_LEN + index * DIRECTORY_ENTRY_LEN,
                    index < tile_count,
                    directory_end == HEADER_LEN + tile_count * DIRECTORY_ENTRY_LEN,
            ;
            assert forall|pi: StreamInfo, pv: u8, pe: Seq<DirectoryEntry>, end: int| #[trigger] layout16_to(bytes@, pi, pv, pe, end) implies {
                let e = pe[index as int];
                &&& directory_entry_at(bytes@, start as int, e)
                &&& e.tile == tiles[index as int]
                &&& entropy_mode_allowed16(version, e.entropy_mode)
                &&& prediction_mode_allowed16(version, e.prediction_mode)
                &&& e.offset + e.length <= end
                &&& e.offset == next_payload_offset
            } by {
                assert(pe[index as int] == pe[index as int]);
                if index > 0 {
                    assert(pe[index - 1] == entries@[index - 1]);
                    assert(pe[(index - 1) + 1].offset == pe[index - 1].offset
                        + pe[index - 1].length);
                }
            }
        }
        if bytes[start + 3] != 0 {
            return Err(CodecError::Malformed("nonzero reserved directory byte"));
        }
        let entropy_mode = bytes[start + 1];
        let is_rice = entropy_mode >= ENTROPY_RICE_BASE && entropy_mode <= ENTROPY_RICE_BASE
            + MAX_RICE_PARAMETER16;
        if entropy_mode != ENTROPY_ZERO_RUN && !is_rice && !(version == VERSION16 && entropy_mode
            == ENTROPY_BLOCK_PACK) {
            return Err(CodecError::Malformed("unknown tile entropy mode"));
        }
        let prediction_mode = bytes[start + 2];
        let maximum_prediction_mode = if version == LEGACY_VERSION16 {
            PREDICT_TEMPORAL
        } else {
            MAX_PREDICTION_MODE
        };
        if prediction_mode > maximum_prediction_mode {
            return Err(CodecError::Malformed("unknown tile prediction mode"));
        }
        let tile = Tile {
            plane: bytes[start] as usize,
            x: get_u32(bytes, start + 4)?,
            y: get_u32(bytes, start + 8)?,
            width: get_u32(bytes, start + 12)?,
            height: get_u32(bytes, start + 16)?,
        };
        if tile != expected[index] {
            proof {
                assert forall|pi: StreamInfo, pv: u8, pe: Seq<DirectoryEntry>, end: int| !#[trigger] layout16_to(bytes@, pi, pv, pe, end) by {
                    if layout16_to(bytes@, pi, pv, pe, end) {
                        assert(pe[index as int].tile == tile);
                        assert(expected@[index as int] == tiles[index as int]);
                    }
                }
            }
            return Err(CodecError::Malformed("non-canonical tile directory"));
        }
        let offset_value = get_u64(bytes, start + 20)?;
        let length_value = get_u32(bytes, start + 28)?;
        if offset_value != next_payload_offset as u64 {
            return Err(CodecError::Malformed("payloads are not contiguous"));
        }
        let offset = next_payload_offset;
        let length = length_value as usize;
        if length > bytes.len() - offset {
            return Err(CodecError::Malformed("truncated tile payload"));
        }
        if entropy_mode == ENTROPY_ZERO_RUN {
            zero_run_tiles = zero_run_tiles + 1;
        } else if is_rice {
            rice_tiles = rice_tiles + 1;
        } else {
            block_pack_tiles = block_pack_tiles + 1;
        }
        if prediction_mode == PREDICT_TEMPORAL {
            temporal_tiles = temporal_tiles + 1;
        } else {
            spatial_tiles = spatial_tiles + 1;
        }
        let entry = DirectoryEntry { tile, entropy_mode, prediction_mode, offset, length };
        proof {
            assert(tile == tiles[index as int]);
            assert(directory_entry_at(bytes@, start as int, entry));
            assert forall|pi: StreamInfo, pv: u8, pe: Seq<DirectoryEntry>, end: int| #[trigger] layout16_to(bytes@, pi, pv, pe, end) implies pe[index as int] == entry by {
                let e = pe[index as int];
                assert(e.tile == tile);
            }
        }
        let ghost entries_before = entries@;
        entries.push(entry);
        proof {
            assert(entries@.drop_last() =~= entries_before);
        }
        next_payload_offset = offset + length;
        index = index + 1;
        proof {
            assert forall|pi: StreamInfo, pv: u8, pe: Seq<DirectoryEntry>, end: int| #[trigger] layout16_to(bytes@, pi, pv, pe, end) implies entries@ == pe.take(
                index as int,
            ) by {
                assert(entries@ =~= pe.take(index as int));
            }
        }
    }
    if next_payload_offset != bytes.len() {
        proof {
            assert forall|pi: StreamInfo, pv: u8, pe: Seq<DirectoryEntry>, end: int|
                #[trigger] layout16_to(bytes@, pi, pv, pe, end) implies end == next_payload_offset by {
                if tile_count > 0 {
                    assert(pe[tile_count - 1] == entries@[tile_count - 1]);
                }
            }
        }
        return Err(CodecError::Malformed("trailing stream bytes"));
    }
    let info = StreamInfo {
        width,
        height,
        format,
        frame_rate,
        quality,
        tile_width,
        tile_height,
        tile_count,
        zero_run_tiles,
        rice_tiles,
        block_pack_tiles,
        spatial_tiles,
        temporal_tiles,
        encoded_bytes: bytes.len(),
    };
    let parsed = Parsed { info, version, entries };
    proof {
        assert forall|pi: StreamInfo, pv: u8, pe: Seq<DirectoryEntry>, end: int| #[trigger] layout16_to(bytes@, pi, pv, pe, end) implies same_layout(parsed, pi, pv, pe) by {
            assert(pe.take(tile_count as int) =~= pe);
        }
    }
    Ok(parsed)
}

/// The frame-level facts of a high-bit stream.
pub fn inspect16(bytes: &[u8]) -> (r: Result<StreamInfo, CodecError>)
    ensures
        r matches Ok(info) ==> exists|parsed: Parsed|
            #![trigger parsed16_ok(bytes@, parsed)]
            {
                &&& parsed16_ok(bytes@, parsed)
                &&& parsed.info == info
                &&& info.zero_run_tiles == zero_run_count(parsed.entries@)
                &&& info.block_pack_tiles == block_pack_count(parsed.entries@)
                &&& info.temporal_tiles == temporal_count(parsed.entries@)
            },
        r is Ok <==> exists|info: StreamInfo, version: u8, entries: Seq<DirectoryEntry>| #[trigger]
            layout16_ok(bytes@, info, version, entries),
        bytes.len() < HEADER_LEN ==> r is Err,
{
    let r = parse16(bytes);
    match r {
        Ok(parsed) => {
            proof {
                assert(layout16_ok(bytes@, parsed.info, parsed.version, parsed.entries@));
            }
            Ok(parsed.info)
        },
        Err(error) => Err(error),
    }
}


// ---------------------------------------------------------------------------
// Encoder
// ---------------------------------------------------------------------------

/// Checks that a reference frame is valid and has the frame's dimensions, layout
/// and bit depth.
pub fn validate_reference16(frame: &Frame16, reference: &Frame16) -> (r: Result<(), CodecError>)
    ensures
        r is Ok <==> frame.valid() && reference.valid() && frame.width == reference.width
            && frame.height == reference.height && frame.format == reference.format,
        frame.valid() && reference.valid() && !(frame.width == reference.width && frame.height
            == reference.height && frame.format == reference.format) ==> r == Err::<(), CodecError>(
            CodecError::InvalidInput("reference dimensions, layout, or bit depth do not match frame"),
        ),
{
    frame.validate()?;
    reference.validate()?;
    if frame.width != reference.width || frame.height != reference.height || frame.format
        != reference.format {
        return Err(
            CodecError::InvalidInput("reference dimensions, layout, or bit depth do not match frame"),
        );
    }
    Ok(())
}

/// Checks that a reference frame is valid and matches a high-bit stream.
pub fn validate_reference_info16(info: &StreamInfo, reference: &Frame16) -> (r: Result<
    (),
    CodecError,
>)
    ensures
        r is Ok <==> reference.valid() && info.width == reference.width && info.height
            == reference.height && info.format == reference.format,
        reference.valid() && !(info.width == reference.width && info.height == reference.height
            && info.format == reference.format) ==> r == Err::<(), CodecError>(
            CodecError::InvalidInput("reference dimensions, layout, or bit depth do not match stream"),
        ),
{
    reference.validate()?;
    if info.width != reference.width || info.height != reference.height || info.format
        != reference.format {
        return Err(
            CodecError::InvalidInput("reference dimensions, layout, or bit depth do not match stream"),
        );
    }
    Ok(())
}

/// Sum of absolute differences of two high-bit sample sequences.
pub open spec fn abs_diff_sum16(current: Seq<u16>, previous: Seq<u16>) -> int
    decreases current.len(),
{
    if current.len() == 0 {
        0
    } else {
        abs_diff_sum16(current.drop_last(), previous) + crate::predict::abs(
            current.last() - previous[current.len() - 1],
        )
    }
}

/// Motion gate: temporal prediction is preferred when the mean absolute luma
/// difference is at most 5, scaled to the bit depth.
/// Motion gate of the high-bit codec: the mean absolute luma difference from the
/// reference is at most 5 at 8-bit scale.
pub open spec fn motion_gate16(frame: &Frame16, reference: &Frame16) -> bool {
    abs_diff_sum16(frame.planes@[0].data@, reference.planes@[0].data@) <= (5
        * vstd::arithmetic::power2::pow2((frame.format.spec_bit_depth() - 8) as nat))
        * frame.planes@[0].data.len()
}

pub fn temporal_prediction_is_promising16(frame: &Frame16, reference: &Frame16) -> (promising: bool)
    requires
        frame.planes.len() >= 1,
        reference.planes.len() >= 1,
        frame.planes@[0].data.len() == reference.planes@[0].data.len(),
        frame.planes@[0].data.len() <= 0x4000_0000,
        10 <= frame.format.spec_bit_depth() <= 16,
    ensures
        promising == (abs_diff_sum16(frame.planes@[0].data@, reference.planes@[0].data@) <= (5
            * vstd::arithmetic::power2::pow2((frame.format.spec_bit_depth() - 8) as nat))
            * frame.planes@[0].data.len()),
        promising == motion_gate16(frame, reference),
{
    let depth = frame.bit_depth();
    let mut threshold: u64 = 5;
    let mut shift: u8 = 8;
    proof {
        vstd::arithmetic::power2::lemma2_to64();
    }
    while shift < depth
        invariant
            8 <= shift <= depth <= 16,
            threshold == 5 * vstd::arithmetic::power2::pow2((shift - 8) as nat),
            threshold <= 5 * 256,
        decreases depth - shift,
    {
        proof {
            vstd::arithmetic::power2::lemma_pow2_unfold((shift - 7) as nat);
            vstd::arithmetic::power2::lemma2_to64();
            if shift < 15 {
                vstd::arithmetic::power2::lemma_pow2_strictly_increases((shift - 8) as nat, 7);
            }
        }
        threshold = threshold * 2;
        shift = shift + 1;
    }
    let current = &frame.planes[0].data;
    let previous = &reference.planes[0].data;
    let mut total: u64 = 0;
    let mut index: usize = 0;
    while index < current.len()
        invariant
            current.len() == previous.len(),
            current.len() <= 0x4000_0000,
            current@ == frame.planes@[0].data@,
            previous@ == reference.planes@[0].data@,
            threshold == 5 * vstd::arithmetic::power2::pow2((depth - 8) as nat),
            depth == frame.format.spec_bit_depth(),
            threshold <= 5 * 256,
            index <= current.len(),
            total == abs_diff_sum16(current@.take(index as int), previous@),
            total <= 65535 * index,
        decreases current.len() - index,
    {
        proof {
            assert(current@.take(index + 1).drop_last() =~= current@.take(index as int));
        }
        let a = current[index];
        let b = previous[index];
        let difference = if a >= b {
            a - b
        } else {
            b - a
        };
        total = total + difference as u64;
        index = index + 1;
    }
    proof {
        assert(current@.take(index as int) =~= current@);
        assert(current.len() * threshold <= 0x4000_0000 * 1280) by (nonlinear_arith)
            requires
                current.len() <= 0x4000_0000,
                threshold <= 1280,
        ;
        assert(current.len() * threshold == threshold * current.len()) by (nonlinear_arith);
    }
    total <= current.len() as u64 * threshold
}

/// Reference samples of a tile, or none.
pub open spec fn reference16_seq(reference: Option<&[u16]>) -> Option<Seq<u16>> {
    match reference {
        Some(samples) => Some(samples@),
        None => None,
    }
}

/// Round trip of one high-bit tile: the payload of an encoded tile carries symbols
/// that `decode_tile_payload16` reads back with the quantizer's largest sample, and
/// they reconstruct to the encoder's own reconstruction, which lies within half a
/// quantizer step of every source sample and is the source tile itself at step 1.
pub proof fn lemma_tile_round_trip16(
    tile: EncodedTile,
    samples: Seq<u16>,
    width: int,
    quantizer: Quantizer16,
    reference: Option<Seq<u16>>,
)
    requires
        tile_input16(samples, width, quantizer, reference),
        tile_encodes16(tile, samples, width, quantizer, reference),
    ensures
        ({
            let refs = match reference {
                Some(r) => r,
                None => Seq::empty(),
            };
            let step = quantizer.spec_step();
            let max = quantizer.spec_max_sample();
            let folded = fold_all16(encode_residuals16(samples, tile.prediction_mode, width, step, refs, max));
            let decoded = reconstruct16(unfold_all(folded), tile.prediction_mode, width, step, refs, max);
            &&& payload_codes16(tile.entropy_mode, tile.payload@, folded)
            &&& folded.len() == samples.len()
            &&& forall|i: int| 0 <= i < folded.len() ==> #[trigger] folded[i] <= 2 * max
            &&& decoded == reconstruct16(
                encode_residuals16(samples, tile.prediction_mode, width, step, refs, max),
                tile.prediction_mode,
                width,
                step,
                refs,
                max,
            )
            &&& decoded.len() == samples.len()
            &&& forall|i: int| 0 <= i < samples.len() ==> abs(samples[i] - #[trigger] decoded[i]) <= step / 2
            &&& step == 1 ==> decoded == samples
        }),
{
    let refs = match reference {
        Some(r) => r,
        None => Seq::<u16>::empty(),
    };
    let step = quantizer.spec_step();
    let max = quantizer.spec_max_sample();
    let mode = tile.prediction_mode;
    quantizer.lemma_bounds();
    let quantized = encode_residuals16(samples, mode, width, step, refs, max);
    let folded = fold_all16(quantized);
    crate::residual16::lemma_encode_reconstruct16(samples, mode, width, step, refs, max);
    assert(unfold_all(folded) =~= quantized) by {
        assert forall|i: int| 0 <= i < quantized.len() implies unfold_all(folded)[i] == quantized[i] by {
            crate::bits::lemma_zigzag_round_trip(quantized[i], 0);
            assert(-max <= quantized[i] <= max);
        }
    }
    assert forall|i: int| 0 <= i < folded.len() implies #[trigger] folded[i] <= 2 * max by {
        assert(-max <= quantized[i] <= max);
    }
    if step == 1 {
        crate::residual16::lemma_lossless_round_trip16(samples, mode, width, refs, max);
    }
}

/// Codes one tile with temporal prediction when a reference is given, else with Paeth.
pub fn encode_tile16(
    samples: &[u16],
    reference: Option<&[u16]>,
    width: usize,
    quantizer: &Quantizer16,
) -> (tile: EncodedTile)
    requires
        tile_input16(samples@, width as int, *quantizer, reference16_seq(reference)),
    ensures
        tile_encodes16(tile, samples@, width as int, *quantizer, reference16_seq(reference)),
        tile.prediction_mode == if reference is Some {
            PREDICT_TEMPORAL
        } else {
            PREDICT_SPATIAL
        },
{
    match reference {
        Some(r) => encode_temporal_tile16(samples, r, width, quantizer),
        None => encode_spatial_tile16(samples, width, quantizer),
    }
}

/// Quantized residuals of one tile coded with prediction mode `mode`.
pub open spec fn candidate_residuals16(
    samples: Seq<u16>,
    mode: u8,
    width: int,
    quantizer: Quantizer16,
    reference: Seq<u16>,
) -> Seq<int> {
    encode_residuals16(
        samples,
        mode,
        width,
        quantizer.spec_step(),
        reference,
        quantizer.spec_max_sample(),
    )
}

/// Payload bytes of one tile coded with prediction mode `mode`.
pub open spec fn candidate_bytes16(
    samples: Seq<u16>,
    mode: u8,
    width: int,
    quantizer: Quantizer16,
    reference: Seq<u16>,
) -> int {
    modeled_bytes16(fold_all16(candidate_residuals16(samples, mode, width, quantizer, reference)))
}

/// Squared reconstruction error of one tile coded with prediction mode `mode`.
pub open spec fn candidate_error16(
    samples: Seq<u16>,
    mode: u8,
    width: int,
    quantizer: Quantizer16,
    reference: Seq<u16>,
) -> int {
    squared_error16(
        samples,
        reconstruct16(
            candidate_residuals16(samples, mode, width, quantizer, reference),
            mode,
            width,
            quantizer.spec_step(),
            reference,
            quantizer.spec_max_sample(),
        ),
    )
}

/// Prediction modes that the tile encoder tries: Paeth, average and clamped gradient
/// for an intra tile; Paeth, clamped gradient and temporal for a tile with a reference.
pub open spec fn exhaustive_candidate16(mode: u8, has_reference: bool) -> bool {
    if has_reference {
        mode == PREDICT_SPATIAL || mode == PREDICT_CLAMP_GRADIENT || mode == PREDICT_TEMPORAL
    } else {
        mode == PREDICT_SPATIAL || mode == PREDICT_AVERAGE || mode == PREDICT_CLAMP_GRADIENT
    }
}

/// `mode` is the tile encoder's choice: a candidate with the fewest payload bytes; the
/// preferred mode (temporal when preferred and available, else Paeth) whenever it is
/// among those; otherwise the one with the least squared error, then the lowest mode.
pub open spec fn exhaustive_choice16(
    mode: u8,
    samples: Seq<u16>,
    width: int,
    quantizer: Quantizer16,
    reference: Seq<u16>,
    has_reference: bool,
    prefer_temporal: bool,
) -> bool {
    let preferred: u8 = if prefer_temporal && has_reference {
        PREDICT_TEMPORAL
    } else {
        PREDICT_SPATIAL
    };
    let bytes = candidate_bytes16(samples, mode, width, quantizer, reference);
    let error = candidate_error16(samples, mode, width, quantizer, reference);
    &&& exhaustive_candidate16(mode, has_reference)
    &&& forall|other: u8|
        exhaustive_candidate16(other, has_reference) ==> bytes <= #[trigger] candidate_bytes16(
            samples,
            other,
            width,
            quantizer,
            reference,
        )
    &&& candidate_bytes16(samples, preferred, width, quantizer, reference) == bytes ==> mode
        == preferred
    &&& mode != preferred ==> forall|other: u8|
        exhaustive_candidate16(other, has_reference) && other != mode && #[trigger] candidate_bytes16(
            samples,
            other,
            width,
            quantizer,
            reference,
        ) == bytes ==> error < candidate_error16(samples, other, width, quantizer, reference) || (
        error == candidate_error16(samples, other, width, quantizer, reference) && mode < other)
}

/// The prediction mode that the encoder picks for `tile` of `frame`: the reference
/// is offered only when the motion gate passed; a 16-bit tile with a reference is
/// coded temporally, any other tile takes the exhaustive choice.
pub open spec fn tile_choice16(
    mode: u8,
    frame: &Frame16,
    tile: Tile,
    quantizer: Quantizer16,
    reference: Option<&Frame16>,
    prefer_temporal: bool,
) -> bool {
    let offered = if prefer_temporal {
        reference_tile16(reference, tile)
    } else {
        None
    };
    if quantizer.spec_max_sample() == 65535 && offered is Some {
        mode == PREDICT_TEMPORAL
    } else {
        exhaustive_choice16(
            mode,
            source_tile16(frame, tile),
            tile.width as int,
            quantizer,
            match offered {
                Some(r) => r,
                None => Seq::empty(),
            },
            offered is Some,
            prefer_temporal,
        )
    }
}

/// Every directory record of `bytes` names the prediction mode that the encoder
/// picks for its tile of `frame` (see `tile_choice16`).
pub open spec fn encoder_choices16(
    bytes: Seq<u8>,
    frame: &Frame16,
    options: CodecOptions,
    reference: Option<&Frame16>,
    prefer_temporal: bool,
) -> bool {
    let tiles = spec_tiles(
        frame.width,
        frame.height,
        frame.format.spec_is_grayscale(),
        options.tile_width,
        options.tile_height,
    );
    exists|quantizer: Quantizer16|
        {
            &&& quantizer.wf()
            &&& quantizer.spec_step() == spec_quantization_step16(options.quality, frame.format.spec_bit_depth())
            &&& quantizer.spec_max_sample() == spec_sample_max(frame.format.spec_bit_depth())
            &&& forall|k: int|
                0 <= k < tiles.len() ==> #[trigger] tile_choice16(
                    directory_prediction_mode(bytes, k),
                    frame,
                    tiles[k],
                    quantizer,
                    reference,
                    prefer_temporal,
                )
        }
}

/// The prediction mode in directory record `k` of `bytes`.
pub open spec fn directory_prediction_mode(bytes: Seq<u8>, k: int) -> u8 {
    bytes[HEADER_LEN + k * DIRECTORY_ENTRY_LEN + 2]
}

/// One evaluated prediction mode of a tile.
struct Candidate16 {
    mode: u8,
    folded: Vec<u32>,
    bytes: u64,
    error: u64,
}

fn evaluate_candidate16(
    samples: &[u16],
    width: usize,
    mode: u8,
    quantizer: &Quantizer16,
    reference: &[u16],
) -> (candidate: Candidate16)
    requires
        tile_input16(samples@, width as int, *quantizer, None),
        samples_within(reference@, quantizer.spec_max_sample()),
        mode == PREDICT_TEMPORAL || crate::residual::is_spatial_mode(mode),
        mode == PREDICT_TEMPORAL ==> reference.len() == samples.len(),
    ensures
        candidate.mode == mode,
        candidate.folded@ == fold_all16(
            candidate_residuals16(samples@, mode, width as int, *quantizer, reference@),
        ),
        tile_symbols16(candidate.folded@),
        candidate.bytes == candidate_bytes16(samples@, mode, width as int, *quantizer, reference@),
        candidate.error == candidate_error16(samples@, mode, width as int, *quantizer, reference@),
{
    let predicted = predict_tile16(samples, width, mode, quantizer, reference);
    proof {
        quantizer.lemma_bounds();
        assert forall|i: int| 0 <= i < predicted.folded@.len() implies #[trigger] predicted.folded@[i]
            <= 0x2_0000 by {
            assert(predicted.folded@[i] <= 2 * quantizer.spec_max_sample());
        }
    }
    let (_, bytes) = modeled_entropy_cost16(predicted.folded.as_slice());
    Candidate16 { mode, folded: predicted.folded, bytes, error: predicted.squared_error }
}

/// Whether candidate `a` wins a tie in payload bytes against `b`.
fn ranks_before16(a: &Candidate16, b: &Candidate16) -> (r: bool)
    ensures
        r == (a.error < b.error || (a.error == b.error && a.mode < b.mode)),
{
    a.error < b.error || (a.error == b.error && a.mode < b.mode)
}

/// Codes one tile with the cheapest of its candidate prediction modes (see
/// `exhaustive_choice16`); a lossless 16-bit tile with a reference is always coded
/// temporally.
pub fn encode_best_tile16(
    samples: &[u16],
    reference: Option<&[u16]>,
    width: usize,
    height: usize,
    quantizer: &Quantizer16,
    prefer_temporal: bool,
) -> (tile: EncodedTile)
    requires
        tile_input16(samples@, width as int, *quantizer, reference16_seq(reference)),
        samples.len() == width * height,
        height >= 1,
    ensures
        tile_encodes16(tile, samples@, width as int, *quantizer, reference16_seq(reference)),
        quantizer.spec_max_sample() == 65535 && reference is Some ==> tile.prediction_mode
            == PREDICT_TEMPORAL,
        !(quantizer.spec_max_sample() == 65535 && reference is Some) ==> exhaustive_choice16(
            tile.prediction_mode,
            samples@,
            width as int,
            *quantizer,
            match reference {
                Some(r) => r@,
                None => Seq::empty(),
            },
            reference is Some,
            prefer_temporal,
        ),
        tile.payload.len() <= 3 * samples.len(),
{
    if quantizer.max_sample() == 65535 {
        if let Some(r) = reference {
            return encode_temporal_tile16(samples, r, width, quantizer);
        }
    }
    let empty: Vec<u16> = Vec::new();
    let refs: &[u16] = match reference {
        Some(r) => r,
        None => empty.as_slice(),
    };
    let has_reference = reference.is_some();
    let first = evaluate_candidate16(samples, width, PREDICT_SPATIAL, quantizer, refs);
    let second = if has_reference {
        evaluate_candidate16(samples, width, PREDICT_CLAMP_GRADIENT, quantizer, refs)
    } else {
        evaluate_candidate16(samples, width, PREDICT_AVERAGE, quantizer, refs)
    };
    let third = if has_reference {
        evaluate_candidate16(samples, width, PREDICT_TEMPORAL, quantizer, refs)
    } else {
        evaluate_candidate16(samples, width, PREDICT_CLAMP_GRADIENT, quantizer, refs)
    };
    let mut minimum = first.bytes;
    if second.bytes < minimum {
        minimum = second.bytes;
    }
    if third.bytes < minimum {
        minimum = third.bytes;
    }
    let prefer_third = prefer_temporal && has_reference;
    // 0, 1 or 2: the chosen candidate
    let choice: u8 = if prefer_third && third.bytes == minimum {
        2
    } else if !prefer_third && first.bytes == minimum {
        0
    } else {
        let mut best: u8 = 3;
        if first.bytes == minimum {
            best = 0;
        }
        if second.bytes == minimum && (best == 3 || ranks_before16(&second, &first)) {
            best = 1;
        }
        if third.bytes == minimum && (best == 3 || (best == 0 && ranks_before16(&third, &first)) || (
        best == 1 && ranks_before16(&third, &second))) {
            best = 2;
        }
        best
    };
    proof {
        let refs_spec = refs@;
        assert(refs_spec == match reference {
            Some(r) => r@,
            None => Seq::<u16>::empty(),
        });
    }
    let chosen = if choice == 0 {
        first
    } else if choice == 1 {
        second
    } else {
        third
    };
    let Candidate16 { mode, folded, .. } = chosen;
    proof {
        crate::residual16::lemma_encode_residuals16_len(
            samples@,
            mode,
            width as int,
            quantizer.spec_step(),
            refs@,
            quantizer.spec_max_sample(),
        );
    }
    finish_entropy16(folded, mode)
}

/// The 32 header bytes of a high-bit stream that encodes `frame` with `options`.
pub open spec fn encoded_header16(frame: &Frame16, options: CodecOptions) -> Seq<u8> {
    crate::codec::header_bytes(
        VERSION16,
        if frame.format.spec_is_grayscale() {
            0u8
        } else {
            1u8
        },
        options.quality,
        frame.width,
        frame.height,
        options.tile_width,
        options.tile_height,
        frame.frame_rate,
        spec_tiles(
            frame.width,
            frame.height,
            frame.format.spec_is_grayscale(),
            options.tile_width,
            options.tile_height,
        ).len(),
    ).update(7, (frame.format.spec_bit_depth() - 8) as u8)
}

/// A reference frame usable for a high-bit frame.
pub open spec fn reference16_fits(frame: &Frame16, reference: Option<&Frame16>) -> bool {
    reference matches Some(r) ==> r.valid() && r.width == frame.width && r.height == frame.height
        && r.format == frame.format
}

/// The tile samples and reference samples of tile `tile` of a valid frame.
fn tile_inputs16(
    frame: &Frame16,
    reference: Option<&Frame16>,
    tile: Tile,
) -> (inputs: (Vec<u16>, Option<Vec<u16>>))
    requires
        frame.valid(),
        reference16_fits(frame, reference),
        tile.plane < frame.planes.len(),
        tile_fits(
            tile,
            plane_dims(frame.width, frame.height, frame.format.spec_is_grayscale())[tile.plane as int].0 as int,
            plane_dims(frame.width, frame.height, frame.format.spec_is_grayscale())[tile.plane as int].1 as int,
        ),
    ensures
        inputs.0.len() == tile.width * tile.height,
        inputs.0.len() <= 0x4000_0000,
        samples_within(inputs.0@, spec_sample_max(frame.format.spec_bit_depth())),
        inputs.1 matches Some(r) ==> r.len() == inputs.0.len() && samples_within(
            r@,
            spec_sample_max(frame.format.spec_bit_depth()),
        ),
        reference is Some <==> inputs.1 is Some,
        inputs.0@ == tile_samples(
            frame.planes@[tile.plane as int].data@,
            frame.planes@[tile.plane as int].width as int,
            tile,
        ),
        inputs.1 matches Some(r) ==> Some(r@) == reference_tile16(reference, tile),
{
    let ghost dims = plane_dims(frame.width, frame.height, frame.format.spec_is_grayscale());
    let plane = &frame.planes[tile.plane];
    proof {
        crate::model::lemma_frame16_plane_bound(frame, tile.plane as int);
        assert(frame.planes@[tile.plane as int].shaped(dims[tile.plane as int].0, dims[tile.plane as int].1));
    }
    let samples = extract_tile(plane.data.as_slice(), plane.width, plane.height, tile);
    proof {
        assert(tile.width * tile.height <= plane.width * plane.height) by (nonlinear_arith)
            requires
                tile.width <= plane.width,
                tile.height <= plane.height,
        ;
        assert forall|i: int| 0 <= i < samples.len() implies #[trigger] samples@[i]
            <= spec_sample_max(frame.format.spec_bit_depth()) by {
            crate::tile_coding::lemma_tile_sample_index(i, tile, plane.width as int, plane.height as int);
        }
    }
    let reference_samples = match reference {
        Some(r) => {
            let reference_plane = &r.planes[tile.plane];
            proof {
                crate::model::lemma_frame16_plane_bound(r, tile.plane as int);
                assert(r.planes@[tile.plane as int].shaped(dims[tile.plane as int].0, dims[tile.plane as int].1));
            }
            let values = extract_tile(
                reference_plane.data.as_slice(),
                reference_plane.width,
                reference_plane.height,
                tile,
            );
            proof {
                assert forall|i: int| 0 <= i < values.len() implies #[trigger] values@[i]
                    <= spec_sample_max(frame.format.spec_bit_depth()) by {
                    crate::tile_coding::lemma_tile_sample_index(
                        i,
                        tile,
                        reference_plane.width as int,
                        reference_plane.height as int,
                    );
                }
            }
            Some(values)
        },
        None => None,
    };
    (samples, reference_samples)
}

/// Intra coding of all tiles at a single thread: tiles are taken in pairs, and two
/// same-shaped tiles of one plane whose middle rows select the same Rice parameter
/// (0 or 4) are coded together; every tile gets the payload that
/// `encode_sampled_fixed_gradient_tile` gives it.
pub fn encode_intra_tile_pairs(frame: &Frame16, tiles: &Vec<Tile>, quantizer: &Quantizer16) -> (payloads:
    Vec<EncodedTile>)
    requires
        frame.valid(),
        quantizer.wf(),
        quantizer.spec_max_sample() == spec_sample_max(frame.format.spec_bit_depth()),
        tiles_fit(tiles@, plane_dims(frame.width, frame.height, frame.format.spec_is_grayscale())),
    ensures
        payloads.len() == tiles.len(),
        forall|k: int|
            0 <= k < payloads.len() ==> (#[trigger] payloads@[k]).prediction_mode
                == crate::residual::PREDICT_CLAMP_GRADIENT,
{
    let mut payloads: Vec<EncodedTile> = Vec::with_capacity(tiles.len());
    let mut index: usize = 0;
    while tiles.len() - index >= 2
        invariant
            frame.valid(),
            quantizer.wf(),
            quantizer.spec_max_sample() == spec_sample_max(frame.format.spec_bit_depth()),
            tiles_fit(tiles@, plane_dims(frame.width, frame.height, frame.format.spec_is_grayscale())),
            index <= tiles.len(),
            payloads.len() == index,
            forall|k: int|
                0 <= k < payloads.len() ==> (#[trigger] payloads@[k]).prediction_mode
                    == crate::residual::PREDICT_CLAMP_GRADIENT,
        decreases tiles.len() - index,
    {
        let first = tiles[index];
        let second = tiles[index + 1];
        proof {
            assert(tiles@[index as int] == first);
            assert(tiles@[index + 1] == second);
            assert(tiles@[index as int].plane < 3);
            assert(tiles@[index + 1].plane < 3);
        }
        let (first_samples, _) = tile_inputs16(frame, None, first);
        let (second_samples, _) = tile_inputs16(frame, None, second);
        let first_selection = sample_fixed_gradient_entropy(
            first_samples.as_slice(),
            first.width as usize,
            first.height as usize,
            quantizer,
        );
        let second_selection = sample_fixed_gradient_entropy(
            second_samples.as_slice(),
            second.width as usize,
            second.height as usize,
            quantizer,
        );
        let same_rice_parameter = first_selection.0 == second_selection.0 && first_selection.0
            != ENTROPY_ZERO_RUN && !first_selection.1 && !second_selection.1;
        let parameter = if first_selection.0 >= ENTROPY_RICE_BASE {
            first_selection.0 - ENTROPY_RICE_BASE
        } else {
            0
        };
        if first.plane == second.plane && first.width == second.width && first.height
            == second.height && same_rice_parameter && (parameter == 0 || parameter == 4) {
            let (first_tile, second_tile) = encode_fixed_gradient_rice_tile_pair(
                first_samples.as_slice(),
                second_samples.as_slice(),
                first.width as usize,
                quantizer,
                parameter,
            );
            payloads.push(first_tile);
            payloads.push(second_tile);
        } else {
            payloads.push(
                encode_sampled_fixed_gradient_tile_selected(
                    first_samples.as_slice(),
                    first.width as usize,
                    quantizer,
                    first_selection,
                ),
            );
            payloads.push(
                encode_sampled_fixed_gradient_tile_selected(
                    second_samples.as_slice(),
                    second.width as usize,
                    quantizer,
                    second_selection,
                ),
            );
        }
        index = index + 2;
    }
    if index < tiles.len() {
        let tile = tiles[index];
        proof {
            assert(tiles@[index as int] == tile);
            assert(tiles@[index as int].plane < 3);
        }
        let (samples, _) = tile_inputs16(frame, None, tile);
        payloads.push(
            encode_sampled_fixed_gradient_tile(
                samples.as_slice(),
                tile.width as usize,
                tile.height as usize,
                quantizer,
            ),
        );
    }
    payloads
}

/// Samples of tile `tile` of a high-bit frame.
pub open spec fn source_tile16(frame: &Frame16, tile: Tile) -> Seq<u16> {
    tile_samples(frame.planes@[tile.plane as int].data@, frame.planes@[tile.plane as int].width as int, tile)
}

/// The encoder's reconstruction of `samples` with prediction mode `mode`.
pub open spec fn encoder_reconstruction16(
    samples: Seq<u16>,
    mode: u8,
    width: int,
    step: int,
    reference: Option<Seq<u16>>,
    max: int,
) -> Seq<u16> {
    let refs = match reference {
        Some(r) => r,
        None => Seq::empty(),
    };
    reconstruct16(encode_residuals16(samples, mode, width, step, refs, max), mode, width, step, refs, max)
}

/// `info` and `entries` describe `frame` coded with `options`: its frame facts, its
/// canonical tiles in order, and, in `expected[k]`, the encoder's reconstruction of
/// tile `k` with that tile's prediction mode against `reference`.
pub open spec fn source_coded16(
    info: StreamInfo,
    entries: Seq<DirectoryEntry>,
    expected: Seq<Seq<u16>>,
    frame: &Frame16,
    options: CodecOptions,
    reference: Option<&Frame16>,
) -> bool {
    let tiles = spec_tiles(
        frame.width,
        frame.height,
        frame.format.spec_is_grayscale(),
        options.tile_width,
        options.tile_height,
    );
    let step = spec_quantization_step16(options.quality, frame.format.spec_bit_depth());
    let max = spec_sample_max(frame.format.spec_bit_depth());
    &&& frame.valid() && options.valid() && reference16_fits(frame, reference)
    &&& info.width == frame.width && info.height == frame.height && info.format == frame.format
    &&& info.frame_rate == frame.frame_rate && info.quality == options.quality
    &&& info.tile_width == options.tile_width && info.tile_height == options.tile_height
    &&& entries.len() == tiles.len() && expected.len() == tiles.len()
    &&& forall|k: int|
        0 <= k < tiles.len() ==> #[trigger] tile_source_coded16(entries[k], expected[k], frame, tiles[k], step, max, reference)
}

/// Directory entry `entry` lists `tile` of `frame` with a prediction mode the decoder
/// accepts, and `expected` is the encoder's reconstruction of that tile.
pub open spec fn tile_source_coded16(
    entry: DirectoryEntry,
    expected: Seq<u16>,
    frame: &Frame16,
    tile: Tile,
    step: int,
    max: int,
    reference: Option<&Frame16>,
) -> bool {
    &&& entry.tile == tile
    &&& is_spatial_mode(entry.prediction_mode) || (entry.prediction_mode == PREDICT_TEMPORAL && reference is Some)
    &&& expected == encoder_reconstruction16(
        source_tile16(frame, tile),
        entry.prediction_mode,
        tile.width as int,
        step,
        reference_tile16(reference, tile),
        max,
    )
}

/// `bytes` is a high-bit stream of `frame` coded with `options` against `reference`
/// whose tiles decode to the encoder's reconstructions.
pub open spec fn encodes16(bytes: Seq<u8>, frame: &Frame16, options: CodecOptions, reference: Option<&Frame16>) -> bool {
    exists|info: StreamInfo, version: u8, entries: Seq<DirectoryEntry>, expected: Seq<Seq<u16>>|
        #[trigger] stream_decodes16(bytes, info, version, entries, reference, expected) && source_coded16(
            info,
            entries,
            expected,
            frame,
            options,
            reference,
        )
}

proof fn lemma_valid_dimensions16(frame: &Frame16)
    requires
        frame.valid(),
    ensures
        dimensions_ok16(frame.width, frame.height, frame.format.spec_is_grayscale()),
{
    let dims = plane_dims(frame.width, frame.height, frame.format.spec_is_grayscale());
    assert forall|i: int| 0 <= i < dims.len() implies #[trigger] dims[i].0 * dims[i].1 <= MAX_FRAME_BYTES by {
        crate::model::lemma_frame16_plane_bound(frame, i);
        assert(frame.planes@[i].shaped(dims[i].0, dims[i].1));
    }
}

/// `coded` is a coding of tile `tile` of `frame` against `reference`.
pub open spec fn tile_coded16(
    coded: EncodedTile,
    frame: &Frame16,
    tile: Tile,
    quantizer: Quantizer16,
    reference: Option<&Frame16>,
) -> bool {
    &&& tile_input16(source_tile16(frame, tile), tile.width as int, quantizer, reference_tile16(reference, tile))
    &&& tile_encodes16(coded, source_tile16(frame, tile), tile.width as int, quantizer, reference_tile16(reference, tile))
}

/// The first `count` coded tiles code the canonical tiles of `frame`.
pub open spec fn tiles_coded16(
    payloads: Seq<EncodedTile>,
    frame: &Frame16,
    tiles: Seq<Tile>,
    quantizer: Quantizer16,
    reference: Option<&Frame16>,
    count: int,
) -> bool {
    forall|k: int| 0 <= k < count ==> #[trigger] tile_coded16(payloads[k], frame, tiles[k], quantizer, reference)
}

proof fn lemma_tiles_coded16_push(
    before: Seq<EncodedTile>,
    coded: EncodedTile,
    frame: &Frame16,
    tiles: Seq<Tile>,
    quantizer: Quantizer16,
    reference: Option<&Frame16>,
    count: int,
)
    requires
        0 <= count < tiles.len(),
        before.len() == count,
        tiles_coded16(before, frame, tiles, quantizer, reference, count),
        tile_input16(
            source_tile16(frame, tiles[count]),
            tiles[count].width as int,
            quantizer,
            reference_tile16(reference, tiles[count]),
        ),
        tile_encodes16(
            coded,
            source_tile16(frame, tiles[count]),
            tiles[count].width as int,
            quantizer,
            reference_tile16(reference, tiles[count]),
        ),
    ensures
        tiles_coded16(before.push(coded), frame, tiles, quantizer, reference, count + 1),
{
    assert forall|k: int| 0 <= k < count + 1 implies #[trigger] tile_coded16(
        before.push(coded)[k],
        frame,
        tiles[k],
        quantizer,
        reference,
    ) by {
        if k < count {
            assert(before.push(coded)[k] == before[k]);
            assert(tile_coded16(before[k], frame, tiles[k], quantizer, reference));
        }
    }
}

/// The payload of an encoded tile, found where its entry points, decodes to the
/// encoder's reconstruction of the tile.
proof fn lemma_encoded_tile_decodes16(
    bytes: Seq<u8>,
    frame: &Frame16,
    reference: Option<&Frame16>,
    tile: Tile,
    coded: EncodedTile,
    entry: DirectoryEntry,
    quantizer: Quantizer16,
)
    requires
        frame.valid(),
        tile.plane < frame.planes.len(),
        tile_fits(
            tile,
            plane_dims(frame.width, frame.height, frame.format.spec_is_grayscale())[tile.plane as int].0 as int,
            plane_dims(frame.width, frame.height, frame.format.spec_is_grayscale())[tile.plane as int].1 as int,
        ),
        tile_input16(source_tile16(frame, tile), tile.width as int, quantizer, reference_tile16(reference, tile)),
        tile_encodes16(coded, source_tile16(frame, tile), tile.width as int, quantizer, reference_tile16(reference, tile)),
        entry.tile == tile,
        entry.entropy_mode == coded.entropy_mode,
        entry.prediction_mode == coded.prediction_mode,
        entry.offset + entry.length <= bytes.len(),
        bytes.subrange(entry.offset as int, entry.offset + entry.length) == coded.payload@,
    ensures
        tile_decodes16(
            bytes,
            entry,
            quantizer.spec_step(),
            quantizer.spec_max_sample(),
            reference_tile16(reference, tile),
            encoder_reconstruction16(
                source_tile16(frame, tile),
                coded.prediction_mode,
                tile.width as int,
                quantizer.spec_step(),
                reference_tile16(reference, tile),
                quantizer.spec_max_sample(),
            ),
        ),
{
    let dims = plane_dims(frame.width, frame.height, frame.format.spec_is_grayscale());
    let samples = source_tile16(frame, tile);
    let refs = reference_tile16(reference, tile);
    let step = quantizer.spec_step();
    let max = quantizer.spec_max_sample();
    lemma_tile_round_trip16(coded, samples, tile.width as int, quantizer, refs);
    let r = match refs {
        Some(r) => r,
        None => Seq::<u16>::empty(),
    };
    let f = fold_all16(encode_residuals16(samples, coded.prediction_mode, tile.width as int, step, r, max));
    crate::model::lemma_frame16_plane_bound(frame, tile.plane as int);
    assert(frame.planes@[tile.plane as int].shaped(dims[tile.plane as int].0, dims[tile.plane as int].1));
    assert(tile.width * tile.height <= dims[tile.plane as int].0 * dims[tile.plane as int].1) by (nonlinear_arith)
        requires
            tile.width <= dims[tile.plane as int].0,
            tile.height <= dims[tile.plane as int].1,
    ;
    assert(payload_codes16(entry.entropy_mode, bytes.subrange(entry.offset as int, entry.offset + entry.length), f));
    assert(f.len() == entry.tile.width * entry.tile.height);
    assert(2 * f.len() <= MAX_FRAME_BYTES);
    assert forall|i: int| 0 <= i < f.len() implies #[trigger] f[i] <= 2 * max by {
        quantizer.lemma_bounds();
        crate::residual16::lemma_encode_reconstruct16(samples, coded.prediction_mode, tile.width as int, step, r, max);
    }
    assert(is_spatial_mode(entry.prediction_mode) || (entry.prediction_mode == PREDICT_TEMPORAL && refs is Some));
    assert(encoder_reconstruction16(samples, coded.prediction_mode, tile.width as int, step, refs, max)
        == reconstruct16(unfold_all(f), entry.prediction_mode, entry.tile.width as int, step, r, max));
}

/// The stream that `encode_internal16` assembles: its header, directory and payloads
/// describe `frame`, and every payload decodes to the encoder's reconstruction.
#[verifier::rlimit(100)]
proof fn lemma_encoded_stream16(
    bytes: Seq<u8>,
    frame: &Frame16,
    options: CodecOptions,
    reference: Option<&Frame16>,
    tiles: Seq<Tile>,
    payloads: Seq<EncodedTile>,
    quantizer: Quantizer16,
    header: Seq<u8>,
    payload_start: nat,
)
    requires
        frame.valid(),
        options.valid(),
        reference16_fits(frame, reference),
        tiles == spec_tiles(
            frame.width,
            frame.height,
            frame.format.spec_is_grayscale(),
            options.tile_width,
            options.tile_height,
        ),
        tiles_fit(tiles, plane_dims(frame.width, frame.height, frame.format.spec_is_grayscale())),
        tiles.len() <= MAX_TILES,
        payloads.len() == tiles.len(),
        header == encoded_header16(frame, options),
        payload_start == HEADER_LEN + tiles.len() * DIRECTORY_ENTRY_LEN,
        bytes == header + directory_records(tiles, payloads, payload_start, tiles.len() as int) + payload_concat(
            payloads,
            tiles.len() as int,
        ),
        payload_start + payload_total(payloads, tiles.len() as int) <= usize::MAX,
        forall|j: int| 0 <= j < tiles.len() ==> (#[trigger] payloads[j]).payload.len() <= u32::MAX,
        quantizer.wf(),
        quantizer.spec_step() == spec_quantization_step16(options.quality, frame.format.spec_bit_depth()),
        quantizer.spec_max_sample() == spec_sample_max(frame.format.spec_bit_depth()),
        tiles_coded16(payloads, frame, tiles, quantizer, reference, tiles.len() as int),
    ensures
        encodes16(bytes, frame, options, reference),
        forall|k: int|
            0 <= k < tiles.len() ==> #[trigger] directory_prediction_mode(bytes, k) == payloads[k].prediction_mode,
{
    let n = tiles.len();
    let step = quantizer.spec_step();
    let max = quantizer.spec_max_sample();
    let grayscale = frame.format.spec_is_grayscale();
    let dims = plane_dims(frame.width, frame.height, grayscale);
    let directory = directory_records(tiles, payloads, payload_start, n as int);
    let body = payload_concat(payloads, n as int);
    crate::codec::lemma_directory_records_len(tiles, payloads, payload_start, n as int);
    crate::codec::lemma_payload_concat_len(payloads, n as int);
    assert(header.len() == HEADER_LEN) by {
        crate::codec::lemma_le_bytes_length(frame.width as nat, 4);
        crate::codec::lemma_le_bytes_length(frame.height as nat, 4);
        crate::codec::lemma_le_bytes_length(options.tile_width as nat, 2);
        crate::codec::lemma_le_bytes_length(options.tile_height as nat, 2);
        crate::codec::lemma_le_bytes_length(frame.frame_rate.numerator as nat, 4);
        crate::codec::lemma_le_bytes_length(frame.frame_rate.denominator as nat, 4);
        crate::codec::lemma_le_bytes_length(n as nat, 4);
    }
    let info = StreamInfo {
        width: frame.width,
        height: frame.height,
        format: frame.format,
        frame_rate: frame.frame_rate,
        quality: options.quality,
        tile_width: options.tile_width,
        tile_height: options.tile_height,
        tile_count: n as usize,
        zero_run_tiles: n as usize,
        rice_tiles: 0,
        block_pack_tiles: 0,
        spatial_tiles: n as usize,
        temporal_tiles: 0,
        encoded_bytes: bytes.len() as usize,
    };
    let entries = Seq::new(
        n,
        |k: int|
            DirectoryEntry {
                tile: tiles[k],
                entropy_mode: payloads[k].entropy_mode,
                prediction_mode: payloads[k].prediction_mode,
                offset: (payload_start + payload_total(payloads, k)) as usize,
                length: payloads[k].payload.len(),
            },
    );
    let expected = Seq::new(
        n,
        |k: int|
            encoder_reconstruction16(
                source_tile16(frame, tiles[k]),
                payloads[k].prediction_mode,
                tiles[k].width as int,
                step,
                reference_tile16(reference, tiles[k]),
                max,
            ),
    );
    // Header.
    let code = if grayscale {
        0u8
    } else {
        1u8
    };
    let plain = crate::codec::header_bytes(
        VERSION16,
        code,
        options.quality,
        frame.width,
        frame.height,
        options.tile_width,
        options.tile_height,
        frame.frame_rate,
        n as nat,
    );
    assert(bytes.subrange(0, HEADER_LEN as int) =~= header);
    assert(bytes.subrange(0, 7) =~= plain.subrange(0, 7)) by {
        assert forall|i: int| 0 <= i < 7 implies #[trigger] bytes.subrange(0, 7)[i] == plain.subrange(0, 7)[i] by {
            assert(bytes[i] == header[i]);
        }
    }
    assert(bytes.subrange(8, HEADER_LEN as int) =~= plain.subrange(8, HEADER_LEN as int)) by {
        assert forall|i: int| 0 <= i < 24 implies #[trigger] bytes.subrange(8, HEADER_LEN as int)[i]
            == plain.subrange(8, HEADER_LEN as int)[i] by {
            assert(bytes[8 + i] == header[8 + i]);
        }
    }
    crate::codec::lemma_header_fields(
        bytes,
        VERSION16,
        code,
        options.quality,
        frame.width,
        frame.height,
        options.tile_width,
        options.tile_height,
        frame.frame_rate,
        n as nat,
    );
    assert(bytes[7] == header[7]);
    lemma_valid_dimensions16(frame);
    // Directory and payloads.
    assert forall|k: int| 0 <= k < n implies {
        &&& (#[trigger] entries[k]).tile == tiles[k]
        &&& entropy_mode_allowed16(VERSION16, entries[k].entropy_mode)
        &&& prediction_mode_allowed16(VERSION16, entries[k].prediction_mode)
        &&& entries[k].offset + entries[k].length <= bytes.len()
        &&& directory_entry_at(bytes, HEADER_LEN + k * DIRECTORY_ENTRY_LEN, entries[k])
        &&& bytes.subrange(entries[k].offset as int, entries[k].offset + entries[k].length) == payloads[k].payload@
        &&& directory_prediction_mode(bytes, k) == payloads[k].prediction_mode
    } by {
        crate::codec::lemma_encoded_entry(bytes, header, tiles, payloads, payload_start, dims, k);
        assert(tile_coded16(payloads[k], frame, tiles[k], quantizer, reference));
        assert(directory_prediction_mode(bytes, k) == entries[k].prediction_mode);
        assert(tile_encodes16(
            payloads[k],
            source_tile16(frame, tiles[k]),
            tiles[k].width as int,
            quantizer,
            reference_tile16(reference, tiles[k]),
        ));
    }
    assert forall|k: int| 0 <= k < n - 1 implies #[trigger] entries[k + 1].offset == entries[k].offset
        + entries[k].length by {
        crate::codec::lemma_payload_concat_len(payloads, n as int);
        crate::codec::lemma_payload_concat_len(payloads, k);
        assert(payload_total(payloads, k + 1) <= payload_total(payloads, n as int));
        assert(payload_total(payloads, k + 1) == payload_total(payloads, k) + payloads[k].payload.len());
        assert(entries[k + 1].offset == payload_start + payload_total(payloads, k + 1));
        assert(entries[k].offset == payload_start + payload_total(payloads, k));
    }
    assert(layout16_ok(bytes, info, VERSION16, entries));
    // Tiles decode to the encoder's reconstructions.
    assert forall|k: int| 0 <= k < expected.len() implies tile_decodes16(
        bytes,
        entries[k],
        spec_quantization_step16(info.quality, info.format.spec_bit_depth()),
        spec_sample_max(info.format.spec_bit_depth()),
        reference_tile16(reference, entries[k].tile),
        #[trigger] expected[k],
    ) by {
        assert(tile_coded16(payloads[k], frame, tiles[k], quantizer, reference));
        assert(tile_input16(
            source_tile16(frame, tiles[k]),
            tiles[k].width as int,
            quantizer,
            reference_tile16(reference, tiles[k]),
        ) && tile_encodes16(
            payloads[k],
            source_tile16(frame, tiles[k]),
            tiles[k].width as int,
            quantizer,
            reference_tile16(reference, tiles[k]),
        ));
        lemma_encoded_tile_decodes16(bytes, frame, reference, tiles[k], payloads[k], entries[k], quantizer);
    }
    assert(stream_decodes16(bytes, info, VERSION16, entries, reference, expected));
    assert forall|k: int| 0 <= k < n implies #[trigger] tile_source_coded16(
        entries[k],
        expected[k],
        frame,
        tiles[k],
        step,
        max,
        reference,
    ) by {
        assert(tile_coded16(payloads[k], frame, tiles[k], quantizer, reference));
        if entries[k].prediction_mode == PREDICT_TEMPORAL && !is_spatial_mode(entries[k].prediction_mode) {
            assert(reference_tile16(reference, tiles[k]) is Some);
        }
    }
    assert(source_coded16(info, entries, expected, frame, options, reference));
    assert forall|k: int| 0 <= k < n implies #[trigger] directory_prediction_mode(bytes, k)
        == payloads[k].prediction_mode by {
        assert(entries[k].tile == tiles[k]);
    }
}

#[verifier::rlimit(60)]
fn encode_internal16(
    frame: &Frame16,
    reference: Option<&Frame16>,
    prefer_temporal: bool,
    options: CodecOptions,
) -> (r: Result<Vec<u8>, CodecError>)
    requires
        reference16_fits(frame, reference),
    ensures
        r matches Ok(bytes) ==> {
            &&& frame.valid() && options.valid()
            &&& bytes@.len() >= HEADER_LEN
            &&& bytes@.subrange(0, HEADER_LEN as int) == encoded_header16(frame, options)
            &&& spec_tiles(
                frame.width,
                frame.height,
                frame.format.spec_is_grayscale(),
                options.tile_width,
                options.tile_height,
            ).len() <= MAX_TILES ==> encodes16(bytes@, frame, options, reference) && encoder_choices16(
                bytes@,
                frame,
                options,
                reference,
                prefer_temporal,
            )
        },
        !frame.valid() || !options.valid() ==> r is Err,
        frame.valid() && options.valid() && stream_fits16(frame, options) ==> r is Ok,
{
    frame.validate()?;
    options.validate()?;
    let tiles = expected_tiles(
        frame.width,
        frame.height,
        frame.format,
        options.tile_width,
        options.tile_height,
        false,
    )?;
    let depth = frame.bit_depth();
    let step = quantization_step16(options.quality, depth);
    let max_sample = match sample_max(depth) {
        Ok(max_sample) => max_sample,
        Err(error) => {
            return Err(error);
        },
    };
    let quantizer = Quantizer16::new(step, max_sample);
    let ghost dims = plane_dims(frame.width, frame.height, frame.format.spec_is_grayscale());
    proof {
        lemma_spec_tiles_fit(
            frame.width,
            frame.height,
            frame.format.spec_is_grayscale(),
            options.tile_width,
            options.tile_height,
        );
    }
    let payloads = {
        let mut payloads: Vec<EncodedTile> = Vec::with_capacity(tiles.len());
        let mut index: usize = 0;
        while index < tiles.len()
            invariant
                frame.valid(),
                reference16_fits(frame, reference),
                quantizer.wf(),
                quantizer.spec_max_sample() == spec_sample_max(frame.format.spec_bit_depth()),
                quantizer.spec_step() == step,
                dims == plane_dims(frame.width, frame.height, frame.format.spec_is_grayscale()),
                tiles_fit(tiles@, dims),
                index <= tiles.len(),
                payloads.len() == index,
                tiles_coded16(payloads@, frame, tiles@, quantizer, reference, index as int),
                payload_total(payloads@, index as int) <= 3 * area_sum(tiles@, index as int),
                forall|k: int|
                    0 <= k < index ==> #[trigger] tile_choice16(
                        payloads@[k].prediction_mode,
                        frame,
                        tiles@[k],
                        quantizer,
                        reference,
                        prefer_temporal,
                    ),
            decreases tiles.len() - index,
        {
            let tile = tiles[index];
            proof {
                assert(tiles@[index as int] == tile);
            }
            let (samples, reference_samples) = tile_inputs16(frame, reference, tile);
            let reference_slice: Option<&[u16]> = match &reference_samples {
                Some(v) => Some(v.as_slice()),
                None => None,
            };
            proof {
                assert(reference16_seq(reference_slice) == reference_tile16(reference, tile));
            }
            // The reference is offered to the tile only when the motion gate passed.
            let offered: Option<&[u16]> = if prefer_temporal {
                reference_slice
            } else {
                None
            };
            let encoded = encode_best_tile16(
                samples.as_slice(),
                offered,
                tile.width as usize,
                tile.height as usize,
                &quantizer,
                prefer_temporal,
            );
            let ghost before = payloads@;
            proof {
                if !prefer_temporal {
                    if let Some(r) = reference_tile16(reference, tile) {
                        crate::residual16::lemma_encode_residuals16_spatial(
                            samples@,
                            encoded.prediction_mode,
                            tile.width as int,
                            quantizer.spec_step(),
                            Seq::empty(),
                            r,
                            quantizer.spec_max_sample(),
                        );
                    }
                }
                assert(tile_encodes16(
                    encoded,
                    samples@,
                    tile.width as int,
                    quantizer,
                    reference_tile16(reference, tile),
                ));
                assert(samples@ == source_tile16(frame, tile));
                assert(tile_input16(source_tile16(frame, tile), tile.width as int, quantizer, reference_tile16(reference, tile)));
                lemma_tiles_coded16_push(before, encoded, frame, tiles@, quantizer, reference, index as int);
                crate::codec::lemma_payload_total_push(before, encoded);
                assert(samples.len() == tile_area(tiles@[index as int]));
            }
            payloads.push(encoded);
            proof {
                assert(samples@ == source_tile16(frame, tile));
                assert(tile_choice16(encoded.prediction_mode, frame, tile, quantizer, reference, prefer_temporal));
                assert forall|k: int| 0 <= k < index + 1 implies #[trigger] tile_choice16(
                    payloads@[k].prediction_mode,
                    frame,
                    tiles@[k],
                    quantizer,
                    reference,
                    prefer_temporal,
                ) by {
                    if k < index {
                        assert(payloads@[k] == before[k]);
                    }
                }
            }
            index = index + 1;
        }
        payloads
    };
    let tile_count = tiles.len();
    let ghost samples_total = frame_samples(frame.width, frame.height, frame.format.spec_is_grayscale());
    proof {
        lemma_valid_dimensions16(frame);
        lemma_spec_tiles_area(
            frame.width,
            frame.height,
            frame.format.spec_is_grayscale(),
            options.tile_width,
            options.tile_height,
        );
        crate::codec::lemma_payload_concat_len(payloads@, tile_count as int);
        assert(payload_total(payloads@, tile_count as int) <= 3 * samples_total);
        assert(2 * samples_total <= MAX_FRAME_BYTES);
        if stream_fits16(frame, options) {
            assert(tile_count * DIRECTORY_ENTRY_LEN <= usize::MAX - HEADER_LEN);
            assert(tile_count <= usize::MAX / DIRECTORY_ENTRY_LEN - 1) by (nonlinear_arith)
                requires
                    32 * tile_count <= usize::MAX - 32,
            ;
        }
    }
    if tile_count > u32::MAX as usize || tile_count > usize::MAX / DIRECTORY_ENTRY_LEN - 1 {
        return Err(CodecError::LimitExceeded("too many tiles"));
    }
    let payload_start = HEADER_LEN + tile_count * DIRECTORY_ENTRY_LEN;
    let mut payload_bytes: usize = 0;
    let mut k: usize = 0;
    while k < payloads.len()
        invariant
            k <= payloads.len(),
            payloads.len() == tile_count,
            payload_bytes == payload_total(payloads@, k as int),
            payload_total(payloads@, tile_count as int) <= 3 * samples_total,
            2 * samples_total <= MAX_FRAME_BYTES,
            forall|j: int| 0 <= j <= tile_count ==> #[trigger] payload_total(payloads@, j) <= payload_total(
                payloads@,
                tile_count as int,
            ),
        decreases payloads.len() - k,
    {
        proof {
            assert(payload_total(payloads@, k + 1) <= payload_total(payloads@, tile_count as int));
        }
        if payload_bytes > usize::MAX - payloads[k].payload.len() {
            return Err(CodecError::LimitExceeded("stream is too large"));
        }
        payload_bytes = payload_bytes + payloads[k].payload.len();
        k = k + 1;
    }
    if payload_start > usize::MAX - payload_bytes {
        return Err(CodecError::LimitExceeded("stream is too large"));
    }
    let mut output: Vec<u8> = Vec::with_capacity(payload_start + payload_bytes);
    output.push(70);
    output.push(86);
    output.push(73);
    output.push(68);
    output.push(VERSION16);
    output.push(
        if frame.format.is_grayscale() {
            0
        } else {
            1
        },
    );
    output.push(options.quality);
    output.push(depth - 8);
    put_u32(&mut output, frame.width);
    put_u32(&mut output, frame.height);
    put_u16(&mut output, options.tile_width);
    put_u16(&mut output, options.tile_height);
    put_u32(&mut output, frame.frame_rate.numerator);
    put_u32(&mut output, frame.frame_rate.denominator);
    put_u32(&mut output, tile_count as u32);
    let ghost header = output@;
    proof {
        crate::codec::lemma_le_bytes_length(frame.width as nat, 4);
        crate::codec::lemma_le_bytes_length(frame.height as nat, 4);
        crate::codec::lemma_le_bytes_length(options.tile_width as nat, 2);
        crate::codec::lemma_le_bytes_length(options.tile_height as nat, 2);
        crate::codec::lemma_le_bytes_length(frame.frame_rate.numerator as nat, 4);
        crate::codec::lemma_le_bytes_length(frame.frame_rate.denominator as nat, 4);
        crate::codec::lemma_le_bytes_length(tile_count as nat, 4);
        assert(header =~= encoded_header16(frame, options));
        assert(header.len() == HEADER_LEN);
        crate::codec::lemma_directory_records_len(tiles@, payloads@, payload_start as nat, 0);
        assert(output@ =~= header + directory_records(tiles@, payloads@, payload_start as nat, 0));
    }
    let mut offset: usize = payload_start;
    let mut k: usize = 0;
    while k < tiles.len()
        invariant
            payloads.len() == tiles.len(),
            tiles_fit(tiles@, dims),
            dims.len() <= 3,
            k <= tiles.len(),
            header.len() == HEADER_LEN,
            output@ == header + directory_records(tiles@, payloads@, payload_start as nat, k as int),
            offset == payload_start + payload_total(payloads@, k as int),
            payload_start + payload_total(payloads@, tiles.len() as int) <= usize::MAX,
            forall|j: int| 0 <= j < k ==> (#[trigger] payloads@[j]).payload.len() <= u32::MAX,
            payload_total(payloads@, tiles.len() as int) <= 3 * MAX_FRAME_BYTES,
        decreases tiles.len() - k,
    {
        let tile = tiles[k];
        let encoded = &payloads[k];
        proof {
            crate::codec::lemma_payload_concat_len(payloads@, tiles.len() as int);
            assert(payload_total(payloads@, k + 1) <= payload_total(payloads@, tiles.len() as int));
            assert(payload_total(payloads@, k + 1) == payload_total(payloads@, k as int) + payloads@[k as int].payload.len());
            crate::codec::lemma_payload_concat_len(payloads@, k as int);
        }
        if encoded.payload.len() > u32::MAX as usize {
            return Err(CodecError::LimitExceeded("tile payload is too large"));
        }
        let ghost before = output@;
        proof {
            assert(tiles@[k as int] == tile);
            assert(payloads@[k as int] == *encoded);
        }
        output.push(tile.plane as u8);
        output.push(encoded.entropy_mode);
        output.push(encoded.prediction_mode);
        output.push(0);
        put_u32(&mut output, tile.x);
        put_u32(&mut output, tile.y);
        put_u32(&mut output, tile.width);
        put_u32(&mut output, tile.height);
        put_u64(&mut output, offset as u64);
        put_u32(&mut output, encoded.payload.len() as u32);
        proof {
            assert(output@ =~= before + directory_record(tile, *encoded, offset as nat));
            assert(header + directory_records(tiles@, payloads@, payload_start as nat, k + 1) =~= before
                + directory_record(tile, *encoded, offset as nat));
        }
        offset = offset + encoded.payload.len();
        k = k + 1;
    }
    let ghost directory = directory_records(tiles@, payloads@, payload_start as nat, tiles.len() as int);
    proof {
        assert(output@ =~= header + directory + payload_concat(payloads@, 0));
    }
    let mut k: usize = 0;
    while k < payloads.len()
        invariant
            k <= payloads.len(),
            output@ == header + directory + payload_concat(payloads@, k as int),
        decreases payloads.len() - k,
    {
        let payload = &payloads[k].payload;
        let ghost start_output = output@;
        let mut b: usize = 0;
        proof {
            assert(output@ =~= start_output + payload@.take(0));
        }
        while b < payload.len()
            invariant
                b <= payload.len(),
                output@ == start_output + payload@.take(b as int),
            decreases payload.len() - b,
        {
            output.push(payload[b]);
            proof {
                assert(output@ =~= start_output + payload@.take(b + 1));
            }
            b = b + 1;
        }
        proof {
            assert(payload@.take(b as int) =~= payload@);
            assert(payloads@[k as int].payload@ == payload@);
            assert(output@ =~= header + directory + payload_concat(payloads@, k + 1));
        }
        k = k + 1;
    }
    proof {
        assert(output@.subrange(0, HEADER_LEN as int) =~= header);
        if tiles.len() <= MAX_TILES {
            lemma_encoded_stream16(
                output@,
                frame,
                options,
                reference,
                tiles@,
                payloads@,
                quantizer,
                header,
                payload_start as nat,
            );
            assert forall|k: int| 0 <= k < tiles.len() implies #[trigger] tile_choice16(
                directory_prediction_mode(output@, k),
                frame,
                tiles@[k],
                quantizer,
                reference,
                prefer_temporal,
            ) by {
                assert(tile_choice16(payloads@[k].prediction_mode, frame, tiles@[k], quantizer, reference, prefer_temporal));
                assert(directory_prediction_mode(output@, k) == payloads@[k].prediction_mode);
            }
        }
    }
    Ok(output)
}

/// A high-bit stream of `frame` with `options` has room in memory even if every tile
/// took three bytes per sample: the header, one directory record per tile and the
/// payloads fit in `usize`.
pub open spec fn stream_fits16(frame: &Frame16, options: CodecOptions) -> bool {
    HEADER_LEN + DIRECTORY_ENTRY_LEN * tile_count16(frame, options) + 3 * frame_samples(
        frame.width,
        frame.height,
        frame.format.spec_is_grayscale(),
    ) <= usize::MAX
}

/// Number of tiles of the canonical tiling of `frame` with `options`.
pub open spec fn tile_count16(frame: &Frame16, options: CodecOptions) -> int {
    spec_tiles(
        frame.width,
        frame.height,
        frame.format.spec_is_grayscale(),
        options.tile_width,
        options.tile_height,
    ).len() as int
}

/// Encodes a high-bit intra frame. A stream of at most `MAX_TILES` tiles encodes
/// the frame (see `encodes16`), each tile with the encoder's choice of prediction
/// mode (see `encoder_choices16`).
pub fn encode16(frame: &Frame16, options: CodecOptions) -> (r: Result<Vec<u8>, CodecError>)
    ensures
        r matches Ok(bytes) ==> {
            &&& frame.valid() && options.valid()
            &&& bytes@.len() >= HEADER_LEN
            &&& bytes@.subrange(0, HEADER_LEN as int) == encoded_header16(frame, options)
            &&& tile_count16(frame, options) <= MAX_TILES ==> encodes16(bytes@, frame, options, None)
                && encoder_choices16(bytes@, frame, options, None, false)
        },
        !frame.valid() || !options.valid() ==> r is Err,
        frame.valid() && options.valid() && stream_fits16(frame, options) ==> r is Ok,
{
    encode_internal16(frame, None, false, options)
}

/// Encodes a high-bit predicted frame using the previously reconstructed frame. A
/// stream of at most `MAX_TILES` tiles encodes the frame against `reference`; the
/// reference is offered to the tiles only when the motion gate passes.
pub fn encode16_with_reference(frame: &Frame16, reference: &Frame16, options: CodecOptions) -> (r:
    Result<Vec<u8>, CodecError>)
    ensures
        r matches Ok(bytes) ==> {
            &&& frame.valid() && options.valid() && reference.valid()
            &&& reference.width == frame.width && reference.height == frame.height
            &&& reference.format == frame.format
            &&& bytes@.subrange(0, HEADER_LEN as int) == encoded_header16(frame, options)
            &&& tile_count16(frame, options) <= MAX_TILES ==> encodes16(bytes@, frame, options, Some(reference))
                && encoder_choices16(bytes@, frame, options, Some(reference), motion_gate16(frame, reference))
        },
        !frame.valid() || !reference.valid() || reference.width != frame.width || reference.height
            != frame.height || reference.format != frame.format ==> r is Err,
        frame.valid() && reference.valid() && reference.width == frame.width && reference.height
            == frame.height && reference.format == frame.format && options.valid() && stream_fits16(frame, options)
            ==> r is Ok,
{
    validate_reference16(frame, reference)?;
    proof {
        crate::model::lemma_frame16_plane_bound(frame, 0);
        crate::model::lemma_frame16_plane_bound(reference, 0);
    }
    let prefer_temporal = temporal_prediction_is_promising16(frame, reference);
    encode_internal16(frame, Some(reference), prefer_temporal, options)
}


// ---------------------------------------------------------------------------
// Decoder
// ---------------------------------------------------------------------------

/// Decodes one high-bit tile payload into samples.
pub fn decode_tile_payload16(
    tile: Tile,
    payload: &[u8],
    step: i32,
    entropy_mode: u8,
    prediction_mode: u8,
    reference: Option<&[u16]>,
    max_sample: u16,
) -> (r: Result<Vec<u16>, CodecError>)
    requires
        1 <= step <= 0x2000_0000,
        tile.width >= 1,
        max_sample >= 1,
        reference matches Some(samples) ==> samples.len() == tile.width * tile.height
            && samples_within(samples@, max_sample as int),
    ensures
        r matches Ok(data) ==> exists|folded: Seq<u32>|
            #![trigger unfold_all(folded)]
            {
                &&& folded.len() == tile.width * tile.height
                &&& data@ == crate::residual16::reconstruct16(
                    unfold_all(folded),
                    prediction_mode,
                    tile.width as int,
                    step as int,
                    match reference {
                        Some(samples) => samples@,
                        None => Seq::empty(),
                    },
                    max_sample as int,
                )
            },
        forall|f: Seq<u32>| #[trigger]
            payload_codes16(entropy_mode, payload@, f) && f.len() == tile.width * tile.height && 2 * f.len()
                <= MAX_FRAME_BYTES && (forall|i: int| 0 <= i < f.len() ==> #[trigger] f[i] <= 2 * max_sample)
                && (is_spatial_mode(prediction_mode) || (prediction_mode == PREDICT_TEMPORAL
                && reference is Some)) ==> (r matches Ok(data) && data@ == crate::residual16::reconstruct16(
                unfold_all(f),
                prediction_mode,
                tile.width as int,
                step as int,
                match reference {
                    Some(samples) => samples@,
                    None => Seq::empty(),
                },
                max_sample as int,
            )),
        forall|f: Seq<u32>| #[trigger]
            payload_codes16(entropy_mode, payload@, f) && f.len() == tile.width * tile.height && 2 * f.len()
                <= MAX_FRAME_BYTES && (forall|i: int| 0 <= i < f.len() ==> #[trigger] f[i] <= 2 * max_sample)
                && prediction_mode == PREDICT_TEMPORAL && reference is None ==> r == Err::<Vec<u16>, CodecError>(
                CodecError::InvalidInput("predicted frame requires a reference"),
            ),
{
    let sample_count = checked_high_area(tile.width, tile.height)?;
    let max_folded = max_sample as u32 * 2;
    let ghost rice_parameter = (entropy_mode - ENTROPY_RICE_BASE) as nat;
    proof {
        assert forall|f: Seq<u32>| #[trigger]
            payload_codes16(entropy_mode, payload@, f) && f.len() == tile.width * tile.height && 2 * f.len()
                <= MAX_FRAME_BYTES && (forall|i: int| 0 <= i < f.len() ==> #[trigger] f[i] <= 2 * max_sample)
            implies {
            &&& entropy_mode == ENTROPY_ZERO_RUN ==> zero_run_carries(payload@, sample_count as int, max_folded, f)
            &&& entropy_mode == ENTROPY_BLOCK_PACK ==> block_pack_carries(payload@, sample_count as int, max_folded, f)
            &&& ENTROPY_RICE_BASE <= entropy_mode <= ENTROPY_RICE_BASE + MAX_RICE_PARAMETER16 ==> rice_carries(
                payload@,
                sample_count as int,
                rice_parameter,
                max_folded,
                f,
            )
        } by {
            assert forall|i: int| 0 <= i < f.len() implies #[trigger] f[i] <= 0x2_0000 by {
                assert(f[i] <= 2 * max_sample);
            }
        }
    }
    let decoded = if entropy_mode == ENTROPY_ZERO_RUN {
        decode_zero_run_symbols(payload, sample_count, max_folded)
    } else if entropy_mode == ENTROPY_BLOCK_PACK {
        decode_block_pack_symbols(payload, sample_count, max_folded)
    } else if entropy_mode >= ENTROPY_RICE_BASE && entropy_mode <= ENTROPY_RICE_BASE + MAX_RICE_PARAMETER16 {
        decode_rice_symbols(payload, sample_count, entropy_mode - ENTROPY_RICE_BASE, max_folded)
    } else {
        return Err(CodecError::Malformed("unknown tile entropy mode"));
    };
    let folded = match decoded {
        Ok(folded) => folded,
        Err(error) => {
            proof {
                assert forall|f: Seq<u32>|
                    !(#[trigger] payload_codes16(entropy_mode, payload@, f) && f.len() == tile.width * tile.height
                        && 2 * f.len() <= MAX_FRAME_BYTES && (forall|i: int|
                        0 <= i < f.len() ==> #[trigger] f[i] <= 2 * max_sample)) by {
                    if payload_codes16(entropy_mode, payload@, f) && f.len() == tile.width * tile.height && 2
                        * f.len() <= MAX_FRAME_BYTES && (forall|i: int|
                        0 <= i < f.len() ==> #[trigger] f[i] <= 2 * max_sample) {
                        if entropy_mode == ENTROPY_ZERO_RUN {
                            assert(zero_run_carries(payload@, sample_count as int, max_folded, f));
                        } else if entropy_mode == ENTROPY_BLOCK_PACK {
                            assert(block_pack_carries(payload@, sample_count as int, max_folded, f));
                        } else {
                            assert(rice_carries(payload@, sample_count as int, rice_parameter, max_folded, f));
                        }
                    }
                }
            }
            return Err(error);
        },
    };
    proof {
        assert forall|f: Seq<u32>| #[trigger]
            payload_codes16(entropy_mode, payload@, f) && f.len() == tile.width * tile.height && 2 * f.len()
                <= MAX_FRAME_BYTES && (forall|i: int| 0 <= i < f.len() ==> #[trigger] f[i] <= 2 * max_sample)
            implies folded@ == f by {
            if entropy_mode == ENTROPY_ZERO_RUN {
                assert(zero_run_carries(payload@, sample_count as int, max_folded, f));
            } else if entropy_mode == ENTROPY_BLOCK_PACK {
                assert(block_pack_carries(payload@, sample_count as int, max_folded, f));
            } else {
                assert(rice_carries(payload@, sample_count as int, rice_parameter, max_folded, f));
            }
        }
    }
    let data = match reconstruct_tile16(
        folded.as_slice(),
        tile.width as usize,
        step,
        prediction_mode,
        reference,
        max_sample,
    ) {
        Ok(data) => data,
        Err(error) => {
            return Err(error);
        },
    };
    Ok(data)
}

/// Places decoded tiles into zeroed planes of the stream's dimensions: tile `k` of
/// the result holds `decoded[k]`.
#[verifier::rlimit(40)]
fn assemble_frame16(info: &StreamInfo, tiles: &Vec<Tile>, decoded: &Vec<Vec<u16>>, max_sample: u16) -> (frame: Frame16)
    requires
        tiles@ == spec_tiles(
            info.width,
            info.height,
            info.format.spec_is_grayscale(),
            info.tile_width,
            info.tile_height,
        ),
        info.width >= 1 && info.height >= 1 && info.tile_width >= 1 && info.tile_height >= 1,
        info.frame_rate.valid(),
        info.format.spec_bit_depth() > 8,
        dimensions_ok16(info.width, info.height, info.format.spec_is_grayscale()),
        max_sample == spec_sample_max(info.format.spec_bit_depth()),
        tiles.len() == decoded.len(),
        forall|i: int|
            0 <= i < tiles.len() ==> (#[trigger] decoded@[i]).len() == tiles@[i].width
                * tiles@[i].height && samples_within(decoded@[i]@, max_sample as int),
    ensures
        frame.valid(),
        frame.width == info.width && frame.height == info.height,
        frame.format == info.format && frame.frame_rate == info.frame_rate,
        forall|k: int|
            0 <= k < tiles.len() ==> tile_samples(
                frame.planes@[tiles@[k].plane as int].data@,
                frame.planes@[tiles@[k].plane as int].width as int,
                tiles@[k],
            ) == (#[trigger] decoded@[k])@,
{
    let dims = plane_dimensions(info.width, info.height, info.format);
    let ghost grayscale = info.format.spec_is_grayscale();
    proof {
        lemma_spec_tiles_fit(info.width, info.height, grayscale, info.tile_width, info.tile_height);
    }
    let mut planes: Vec<Plane16> = Vec::with_capacity(dims.len());
    let mut p: usize = 0;
    while p < dims.len()
        invariant
            dims@ == plane_dims(info.width, info.height, grayscale),
            grayscale == info.format.spec_is_grayscale(),
            tiles@ == spec_tiles(info.width, info.height, grayscale, info.tile_width, info.tile_height),
            info.width >= 1 && info.height >= 1 && info.tile_width >= 1 && info.tile_height >= 1,
            dimensions_ok16(info.width, info.height, grayscale),
            tiles.len() == decoded.len(),
            tiles_fit(tiles@, dims@),
            forall|i: int|
                0 <= i < tiles.len() ==> (#[trigger] decoded@[i]).len() == tiles@[i].width
                    * tiles@[i].height && samples_within(decoded@[i]@, max_sample as int),
            p <= dims.len(),
            planes.len() == p,
            forall|i: int|
                0 <= i < p ==> (#[trigger] planes@[i]).shaped(dims@[i].0, dims@[i].1) && samples_within(
                    planes@[i].data@,
                    max_sample as int,
                ),
            forall|k: int|
                0 <= k < tiles.len() && tiles@[k].plane < p ==> tile_samples(
                    planes@[tiles@[k].plane as int].data@,
                    planes@[tiles@[k].plane as int].width as int,
                    tiles@[k],
                ) == (#[trigger] decoded@[k])@,
        decreases dims.len() - p,
    {
        let (width, height) = dims[p];
        proof {
            assert(dims@[p as int] == (width, height));
            assert(width * height <= MAX_FRAME_BYTES);
        }
        let area = match checked_area(width, height) {
            Ok(area) => area,
            Err(_) => 0,
        };
        let mut data: Vec<u16> = vec![0u16; area];
        let mut t: usize = 0;
        while t < tiles.len()
            invariant
                tiles@ == spec_tiles(info.width, info.height, grayscale, info.tile_width, info.tile_height),
                info.width >= 1 && info.height >= 1 && info.tile_width >= 1 && info.tile_height >= 1,
                tiles.len() == decoded.len(),
                tiles_fit(tiles@, dims@),
                forall|i: int|
                    0 <= i < tiles.len() ==> (#[trigger] decoded@[i]).len() == tiles@[i].width
                        * tiles@[i].height && samples_within(decoded@[i]@, max_sample as int),
                p < dims.len(),
                dims@[p as int] == (width, height),
                data.len() == width * height,
                samples_within(data@, max_sample as int),
                t <= tiles.len(),
                forall|k: int|
                    0 <= k < t && tiles@[k].plane == p ==> tile_samples(data@, width as int, tiles@[k])
                        == (#[trigger] decoded@[k])@,
            decreases tiles.len() - t,
        {
            let tile = tiles[t];
            if tile.plane == p {
                let ghost before = data@;
                proof {
                    assert(tiles@[t as int] == tile);
                    assert(decoded@[t as int].len() == tile.width * tile.height);
                }
                write_tile(&mut data, width, height, tile, decoded[t].as_slice());
                proof {
                    let source = decoded@[t as int]@;
                    assert forall|i: int| 0 <= i < data.len() implies #[trigger] data@[i] <= max_sample by {
                        if in_tile(i, width as int, tile) {
                            let offset = crate::tile_coding::tile_offset(i, width as int, tile);
                            crate::tile_coding::lemma_in_tile_offset(i, width as int, tile);
                            assert(data@[i] == tile_samples(data@, width as int, tile)[offset]);
                            assert(source[offset] <= max_sample);
                        } else {
                            assert(data@[i] == before[i]);
                        }
                    }
                    assert forall|k: int|
                        0 <= k < t + 1 && tiles@[k].plane == p implies tile_samples(
                        data@,
                        width as int,
                        tiles@[k],
                    ) == (#[trigger] decoded@[k])@ by {
                        if k < t {
                            crate::tile_coding::lemma_write_keeps_other_tile(
                                before,
                                data@,
                                width,
                                height,
                                tiles@,
                                t as int,
                                k,
                                info.width,
                                info.height,
                                grayscale,
                                info.tile_width,
                                info.tile_height,
                            );
                        }
                    }
                }
            }
            t = t + 1;
        }
        let ghost plane_data = data@;
        planes.push(Plane16 { width, height, data });
        proof {
            assert forall|k: int|
                0 <= k < tiles.len() && tiles@[k].plane < p + 1 implies tile_samples(
                planes@[tiles@[k].plane as int].data@,
                planes@[tiles@[k].plane as int].width as int,
                tiles@[k],
            ) == (#[trigger] decoded@[k])@ by {
                if tiles@[k].plane == p {
                    assert(planes@[p as int].data@ == plane_data);
                }
            }
        }
        p = p + 1;
    }
    let frame = Frame16 {
        width: info.width,
        height: info.height,
        format: info.format,
        frame_rate: info.frame_rate,
        planes,
    };
    proof {
        assert(frame.valid());
    }
    frame
}

/// A decoded high-bit frame with the dimensions, layout, depth and frame rate that
/// `bytes` declares.
pub open spec fn frame16_matches_header(bytes: Seq<u8>, frame: Frame16) -> bool {
    &&& frame.valid()
    &&& frame.width == le_value(bytes, 8, 4)
    &&& frame.height == le_value(bytes, 12, 4)
    &&& bytes[5] == (if frame.format.spec_is_grayscale() {
        0u8
    } else {
        1u8
    })
    &&& bytes[7] + 8 == frame.format.spec_bit_depth()
    &&& frame.frame_rate.numerator == le_value(bytes, 20, 4)
    &&& frame.frame_rate.denominator == le_value(bytes, 24, 4)
}

/// Reference samples of `tile` in `reference`, when given.
pub open spec fn reference_tile16(reference: Option<&Frame16>, tile: Tile) -> Option<Seq<u16>> {
    match reference {
        Some(r) => Some(
            tile_samples(
                r.planes@[tile.plane as int].data@,
                r.planes@[tile.plane as int].width as int,
                tile,
            ),
        ),
        None => None,
    }
}

/// The payload of directory entry `entry` codes symbols that `decode_tile_payload16`
/// accepts and that reconstruct, with step `step`, largest sample `max` and the
/// reference tile `reference`, to `expected`.
pub open spec fn tile_decodes16(
    bytes: Seq<u8>,
    entry: DirectoryEntry,
    step: int,
    max: int,
    reference: Option<Seq<u16>>,
    expected: Seq<u16>,
) -> bool {
    exists|f: Seq<u32>|
        #[trigger] payload_codes16(
            entry.entropy_mode,
            bytes.subrange(entry.offset as int, entry.offset + entry.length),
            f,
        ) && f.len() == entry.tile.width * entry.tile.height && 2 * f.len() <= MAX_FRAME_BYTES && (forall|i: int|
            0 <= i < f.len() ==> #[trigger] f[i] <= 2 * max) && (is_spatial_mode(entry.prediction_mode) || (
        entry.prediction_mode == PREDICT_TEMPORAL && reference is Some)) && expected == reconstruct16(
            unfold_all(f),
            entry.prediction_mode,
            entry.tile.width as int,
            step,
            match reference {
                Some(r) => r,
                None => Seq::empty(),
            },
            max,
        )
}

/// `bytes` has frame facts `info`, version `version` and directory `entries`,
/// `reference` fits those frame facts, and every tile's payload decodes to
/// `expected[k]`.
pub open spec fn stream_decodes16(
    bytes: Seq<u8>,
    info: StreamInfo,
    version: u8,
    entries: Seq<DirectoryEntry>,
    reference: Option<&Frame16>,
    expected: Seq<Seq<u16>>,
) -> bool {
    &&& layout16_ok(bytes, info, version, entries)
    &&& reference matches Some(r) ==> r.valid() && r.width == info.width && r.height == info.height
        && r.format == info.format
    &&& expected.len() == entries.len()
    &&& forall|k: int|
        0 <= k < expected.len() ==> tile_decodes16(
            bytes,
            entries[k],
            spec_quantization_step16(info.quality, info.format.spec_bit_depth()),
            spec_sample_max(info.format.spec_bit_depth()),
            reference_tile16(reference, entries[k].tile),
            #[trigger] expected[k],
        )
}

/// Tile `k` of `frame`, per the directory `entries`, holds `expected[k]`.
pub open spec fn frame16_holds(frame: Frame16, entries: Seq<DirectoryEntry>, expected: Seq<Seq<u16>>) -> bool {
    forall|k: int|
        0 <= k < expected.len() ==> tile_samples(
            frame.planes@[entries[k].tile.plane as int].data@,
            frame.planes@[entries[k].tile.plane as int].width as int,
            entries[k].tile,
        ) == #[trigger] expected[k]
}

#[verifier::rlimit(40)]
/// The payload of `entry` in `bytes` codes residuals of its tile, each at most
/// `max_folded`.
pub open spec fn payload_coded16(bytes: Seq<u8>, entry: DirectoryEntry, max_folded: int) -> bool {
    exists|f: Seq<u32>|
        #[trigger] payload_codes16(
            entry.entropy_mode,
            bytes.subrange(entry.offset as int, entry.offset + entry.length),
            f,
        ) && f.len() == entry.tile.width * entry.tile.height && 2 * f.len() <= MAX_FRAME_BYTES && (forall|
            i: int,
        | 0 <= i < f.len() ==> #[trigger] f[i] <= max_folded)
}

/// Every payload of `entries` codes residuals of its tile in the range of `format`.
pub open spec fn payloads_coded16(bytes: Seq<u8>, format: PixelFormat, entries: Seq<DirectoryEntry>) -> bool {
    forall|k: int|
        0 <= k < entries.len() ==> #[trigger] payload_coded16(
            bytes,
            entries[k],
            2 * spec_sample_max(format.spec_bit_depth()),
        )
}

fn decode_internal16(bytes: &[u8], reference: Option<&Frame16>, threads: usize) -> (r: Result<
    Frame16,
    CodecError,
>)
    ensures
        r matches Ok(frame) ==> frame16_matches_header(bytes@, frame),
        r is Ok ==> (reference matches Some(rf) ==> rf.valid() && rf.width == r->Ok_0.width
            && rf.height == r->Ok_0.height && rf.format == r->Ok_0.format),
        threads == 0 ==> r == Err::<Frame16, CodecError>(CodecError::InvalidInput("thread count must be nonzero")),
        threads != 0 && bytes.len() < HEADER_LEN ==> r == Err::<Frame16, CodecError>(
            CodecError::Malformed("truncated header"),
        ),
        threads != 0 && bytes.len() >= HEADER_LEN && bytes@.subrange(0, 4) != magic() ==> r == Err::<
            Frame16,
            CodecError,
        >(CodecError::Malformed("bad magic")),
        bytes.len() < HEADER_LEN ==> r is Err,
        forall|pi: StreamInfo, pv: u8, pe: Seq<DirectoryEntry>| #[trigger]
            layout16_ok(bytes@, pi, pv, pe) && threads != 0 && reference is None && payloads_coded16(
                bytes@,
                pi.format,
                pe,
            ) && has_temporal_tile(pe) ==> r == Err::<Frame16, CodecError>(
                CodecError::InvalidInput("predicted frame requires a reference"),
            ),
        forall|pi: StreamInfo, pv: u8, pe: Seq<DirectoryEntry>| #[trigger]
            layout16_ok(bytes@, pi, pv, pe) && threads != 0 && reference is Some && reference->0.valid() && !(
            reference->0.width == pi.width && reference->0.height == pi.height && reference->0.format
                == pi.format) ==> r == Err::<Frame16, CodecError>(
                CodecError::InvalidInput("reference dimensions, layout, or bit depth do not match stream"),
            ),
        forall|pi: StreamInfo, pv: u8, pe: Seq<DirectoryEntry>, expected: Seq<Seq<u16>>| #[trigger]
            stream_decodes16(bytes@, pi, pv, pe, reference, expected) && threads != 0 ==> (r matches Ok(frame)
                && frame16_holds(frame, pe, expected) && frame.valid() && frame.width == pi.width && frame.height
                == pi.height && frame.format == pi.format && frame.frame_rate == pi.frame_rate),
{
    if threads == 0 {
        return Err(CodecError::InvalidInput("thread count must be nonzero"));
    }
    let parsed = parse16(bytes)?;
    let info = parsed.info;
    if let Some(r) = reference {
        validate_reference_info16(&info, r)?;
    }
    let depth = info.format.bit_depth();
    let step = quantization_step16(info.quality, depth);
    let max_sample = sample_max(depth)?;
    let ghost dims = plane_dims(info.width, info.height, info.format.spec_is_grayscale());
    proof {
        lemma_spec_tiles_fit(
            info.width,
            info.height,
            info.format.spec_is_grayscale(),
            info.tile_width,
            info.tile_height,
        );
        assert forall|pi: StreamInfo, pv: u8, pe: Seq<DirectoryEntry>, expected: Seq<Seq<u16>>| #[trigger]
            stream_decodes16(bytes@, pi, pv, pe, reference, expected) implies same_layout(parsed, pi, pv, pe) by {}
    }
    let mut tiles: Vec<Tile> = Vec::with_capacity(parsed.entries.len());
    let mut decoded: Vec<Vec<u16>> = Vec::with_capacity(parsed.entries.len());
    let mut index: usize = 0;
    while index < parsed.entries.len()
        invariant
            threads != 0,
            parsed16_ok(bytes@, parsed),
            info == parsed.info,
            1 <= step <= 1 + 20 * 256,
            step == spec_quantization_step16(info.quality, info.format.spec_bit_depth()),
            max_sample == spec_sample_max(info.format.spec_bit_depth()),
            max_sample >= 1,
            dims == plane_dims(info.width, info.height, info.format.spec_is_grayscale()),
            tiles_fit(
                spec_tiles(info.width, info.height, info.format.spec_is_grayscale(), info.tile_width, info.tile_height),
                dims,
            ),
            reference matches Some(r) ==> r.valid() && r.width == info.width && r.height
                == info.height && r.format == info.format,
            index <= parsed.entries.len(),
            tiles.len() == index,
            decoded.len() == index,
            forall|i: int| 0 <= i < index ==> #[trigger] tiles@[i] == parsed.entries@[i].tile,
            forall|i: int|
                0 <= i < index ==> (#[trigger] decoded@[i]).len() == tiles@[i].width
                    * tiles@[i].height && samples_within(decoded@[i]@, max_sample as int),
            forall|pi: StreamInfo, pv: u8, pe: Seq<DirectoryEntry>, expected: Seq<Seq<u16>>| #[trigger]
                stream_decodes16(bytes@, pi, pv, pe, reference, expected) ==> same_layout(parsed, pi, pv, pe) && forall|i: int|
                    0 <= i < index ==> (#[trigger] decoded@[i])@ == expected[i],
            forall|pi: StreamInfo, pv: u8, pe: Seq<DirectoryEntry>| #[trigger]
                layout16_ok(bytes@, pi, pv, pe) ==> pe == parsed.entries@ && pi.format == info.format,
            forall|pi: StreamInfo, pv: u8, pe: Seq<DirectoryEntry>| #[trigger]
                layout16_ok(bytes@, pi, pv, pe) && reference is None && payloads_coded16(bytes@, pi.format, pe)
                    ==> forall|i: int| 0 <= i < index ==> (#[trigger] pe[i]).prediction_mode != PREDICT_TEMPORAL,
        decreases parsed.entries.len() - index,
    {
        let entry = parsed.entries[index];
        let ghost all_tiles = spec_tiles(info.width, info.height, info.format.spec_is_grayscale(), info.tile_width, info.tile_height);
        proof {
            assert(parsed.entries@[index as int] == entry);
            assert(entry.tile == all_tiles[index as int]);
            assert(tile_fits(entry.tile, dims[entry.tile.plane as int].0 as int, dims[entry.tile.plane as int].1 as int));
        }
        let payload = &bytes[entry.offset..entry.offset + entry.length];
        let reference_samples: Option<Vec<u16>> = match reference {
            Some(r) => {
                let plane = &r.planes[entry.tile.plane];
                proof {
                    crate::model::lemma_frame16_plane_bound(r, entry.tile.plane as int);
                    assert(r.planes@[entry.tile.plane as int].shaped(dims[entry.tile.plane as int].0, dims[entry.tile.plane as int].1));
                }
                let values = extract_tile(plane.data.as_slice(), plane.width, plane.height, entry.tile);
                proof {
                    assert forall|i: int| 0 <= i < values.len() implies #[trigger] values@[i]
                        <= max_sample by {
                        crate::tile_coding::lemma_tile_sample_index(i, entry.tile, plane.width as int, plane.height as int);
                    }
                }
                Some(values)
            },
            None => None,
        };
        let reference_slice: Option<&[u16]> = match &reference_samples {
            Some(v) => Some(v.as_slice()),
            None => None,
        };
        let ghost refs = match reference_slice {
            Some(samples) => samples@,
            None => Seq::<u16>::empty(),
        };
        proof {
            assert forall|pi: StreamInfo, pv: u8, pe: Seq<DirectoryEntry>, expected: Seq<Seq<u16>>| #[trigger]
                stream_decodes16(bytes@, pi, pv, pe, reference, expected) implies ({
                let f = choose|f: Seq<u32>|
                    #[trigger] payload_codes16(
                        entry.entropy_mode,
                        bytes@.subrange(entry.offset as int, entry.offset + entry.length),
                        f,
                    ) && f.len() == entry.tile.width * entry.tile.height && 2 * f.len() <= MAX_FRAME_BYTES
                        && (forall|i: int| 0 <= i < f.len() ==> #[trigger] f[i] <= 2 * max_sample) && (
                    is_spatial_mode(entry.prediction_mode) || (entry.prediction_mode == PREDICT_TEMPORAL
                        && reference is Some)) && expected[index as int] == reconstruct16(
                        unfold_all(f),
                        entry.prediction_mode,
                        entry.tile.width as int,
                        step as int,
                        refs,
                        max_sample as int,
                    );
                &&& payload_codes16(entry.entropy_mode, payload@, f)
                &&& f.len() == entry.tile.width * entry.tile.height && 2 * f.len() <= MAX_FRAME_BYTES
                &&& (forall|i: int| 0 <= i < f.len() ==> #[trigger] f[i] <= 2 * max_sample)
                &&& (is_spatial_mode(entry.prediction_mode) || (entry.prediction_mode == PREDICT_TEMPORAL
                    && reference_slice is Some))
                &&& expected[index as int] == reconstruct16(
                    unfold_all(f),
                    entry.prediction_mode,
                    entry.tile.width as int,
                    step as int,
                    refs,
                    max_sample as int,
                )
            }) by {
                assert(pe[index as int] == entry);
                assert(payload@ =~= bytes@.subrange(entry.offset as int, entry.offset + entry.length));
                match reference {
                    Some(r) => {
                        assert(reference_tile16(reference, entry.tile) == Some(refs));
                    },
                    None => {},
                }
                assert(tile_decodes16(
                    bytes@,
                    pe[index as int],
                    spec_quantization_step16(pi.quality, pi.format.spec_bit_depth()),
                    spec_sample_max(pi.format.spec_bit_depth()),
                    reference_tile16(reference, pe[index as int].tile),
                    expected[index as int],
                ));
            }
        }
        let decoded_tile = decode_tile_payload16(
            entry.tile,
            payload,
            step,
            entry.entropy_mode,
            entry.prediction_mode,
            reference_slice,
            max_sample,
        );
        proof {
            assert forall|pi: StreamInfo, pv: u8, pe: Seq<DirectoryEntry>| #[trigger]
                layout16_ok(bytes@, pi, pv, pe) && reference is None && payloads_coded16(bytes@, pi.format, pe) implies {
                &&& entry.prediction_mode == PREDICT_TEMPORAL ==> decoded_tile == Err::<Vec<u16>, CodecError>(
                    CodecError::InvalidInput("predicted frame requires a reference"),
                )
                &&& entry.prediction_mode != PREDICT_TEMPORAL ==> decoded_tile is Ok
            } by {
                assert(pe[index as int] == entry);
                assert(payload_coded16(bytes@, pe[index as int], 2 * spec_sample_max(pi.format.spec_bit_depth())));
                assert(payload@ =~= bytes@.subrange(entry.offset as int, entry.offset + entry.length));
                let f = choose|f: Seq<u32>|
                    #[trigger] payload_codes16(
                        entry.entropy_mode,
                        bytes@.subrange(entry.offset as int, entry.offset + entry.length),
                        f,
                    ) && f.len() == entry.tile.width * entry.tile.height && 2 * f.len() <= MAX_FRAME_BYTES && (
                    forall|i: int| 0 <= i < f.len() ==> #[trigger] f[i] <= 2 * spec_sample_max(pi.format.spec_bit_depth()));
                assert(payload_codes16(entry.entropy_mode, payload@, f));
                assert(prediction_mode_allowed16(pv, entry.prediction_mode));
            }
        }
        let data = match decoded_tile {
            Ok(data) => data,
            Err(error) => {
                return Err(error);
            },
        };
        proof {
            let folded = choose|folded: Seq<u32>| #![trigger unfold_all(folded)] folded.len() == entry.tile.width * entry.tile.height && data@ == crate::residual16::reconstruct16(unfold_all(folded), entry.prediction_mode, entry.tile.width as int, step as int, refs, max_sample as int);
            crate::residual16::lemma_reconstruct16_facts(unfold_all(folded), entry.prediction_mode, entry.tile.width as int, step as int, refs, max_sample as int);
        }
        tiles.push(entry.tile);
        decoded.push(data);
        proof {
            assert forall|pi: StreamInfo, pv: u8, pe: Seq<DirectoryEntry>, expected: Seq<Seq<u16>>| #[trigger]
                stream_decodes16(bytes@, pi, pv, pe, reference, expected) implies same_layout(parsed, pi, pv, pe) && forall|i: int|
                0 <= i < index + 1 ==> (#[trigger] decoded@[i])@ == expected[i] by {
                assert(decoded@[index as int] == data);
            }
            assert forall|pi: StreamInfo, pv: u8, pe: Seq<DirectoryEntry>| #[trigger]
                layout16_ok(bytes@, pi, pv, pe) && reference is None && payloads_coded16(bytes@, pi.format, pe)
                implies forall|i: int| 0 <= i < index + 1 ==> (#[trigger] pe[i]).prediction_mode != PREDICT_TEMPORAL by {
                assert(pe[index as int] == entry);
            }
        }
        index = index + 1;
    }
    proof {
        assert forall|pi: StreamInfo, pv: u8, pe: Seq<DirectoryEntry>| #[trigger]
            layout16_ok(bytes@, pi, pv, pe) && reference is None && payloads_coded16(bytes@, pi.format, pe)
            implies !has_temporal_tile(pe) by {
            assert(pe == parsed.entries@);
        }
    }
    proof {
        let all_tiles = spec_tiles(info.width, info.height, info.format.spec_is_grayscale(), info.tile_width, info.tile_height);
        assert(tiles@ =~= all_tiles);
    }
    let frame = assemble_frame16(&info, &tiles, &decoded, max_sample);
    proof {
        assert forall|pi: StreamInfo, pv: u8, pe: Seq<DirectoryEntry>, expected: Seq<Seq<u16>>| #[trigger]
            stream_decodes16(bytes@, pi, pv, pe, reference, expected) implies frame16_holds(frame, pe, expected) by {
            assert forall|k: int| 0 <= k < expected.len() implies tile_samples(
                frame.planes@[pe[k].tile.plane as int].data@,
                frame.planes@[pe[k].tile.plane as int].width as int,
                pe[k].tile,
            ) == #[trigger] expected[k] by {
                assert(pe[k] == parsed.entries@[k]);
                assert(decoded@[k]@ == expected[k]);
            }
        }
    }
    Ok(frame)
}

/// `decoded` has the frame facts of `source`, each of its samples lies within half a
/// quantizer step of the source sample, and at step 1 it holds the source samples.
pub open spec fn decodes_source16(decoded: Frame16, source: &Frame16, options: CodecOptions) -> bool {
    let step = spec_quantization_step16(options.quality, source.format.spec_bit_depth());
    &&& decoded.width == source.width && decoded.height == source.height
    &&& decoded.format == source.format && decoded.frame_rate == source.frame_rate
    &&& decoded.planes.len() == source.planes.len()
    &&& forall|p: int|
        0 <= p < source.planes.len() ==> {
            &&& (#[trigger] decoded.planes@[p]).width == source.planes@[p].width
            &&& decoded.planes@[p].height == source.planes@[p].height
            &&& decoded.planes@[p].data.len() == source.planes@[p].data.len()
            &&& forall|i: int|
                0 <= i < source.planes@[p].data.len() ==> abs(
                    decoded.planes@[p].data@[i] - #[trigger] source.planes@[p].data@[i],
                ) <= step / 2
            &&& step == 1 ==> decoded.planes@[p].data@ == source.planes@[p].data@
        }
}

/// Decoding a stream that encodes `source` gives back `source` up to half a
/// quantizer step per sample, and exactly at step 1 (quality 96 and above): a frame
/// whose tiles hold the encoder's reconstructions, with the frame facts of the
/// stream, is `source` as far as the quantizer allows.
pub proof fn lemma_decoded_source16(
    source: &Frame16,
    options: CodecOptions,
    reference: Option<&Frame16>,
    info: StreamInfo,
    version: u8,
    entries: Seq<DirectoryEntry>,
    expected: Seq<Seq<u16>>,
    decoded: Frame16,
)
    requires
        source_coded16(info, entries, expected, source, options, reference),
        source.valid(),
        decoded.valid(),
        decoded.width == info.width && decoded.height == info.height,
        decoded.format == info.format && decoded.frame_rate == info.frame_rate,
        frame16_holds(decoded, entries, expected),
        options.tile_width >= 1 && options.tile_height >= 1,
        reference matches Some(r) ==> r.valid() && r.width == source.width && r.height == source.height
            && r.format == source.format,
    ensures
        decodes_source16(decoded, source, options),
{
    let step = spec_quantization_step16(options.quality, source.format.spec_bit_depth());
    let max = spec_sample_max(source.format.spec_bit_depth());
    let grayscale = source.format.spec_is_grayscale();
    let dims = plane_dims(source.width, source.height, grayscale);
    let tiles = spec_tiles(source.width, source.height, grayscale, options.tile_width, options.tile_height);
    lemma_spec_tiles_fit(source.width, source.height, grayscale, options.tile_width, options.tile_height);
    assert forall|p: int| 0 <= p < source.planes.len() implies {
        &&& (#[trigger] decoded.planes@[p]).width == source.planes@[p].width
        &&& decoded.planes@[p].height == source.planes@[p].height
        &&& decoded.planes@[p].data.len() == source.planes@[p].data.len()
        &&& forall|i: int|
            0 <= i < source.planes@[p].data.len() ==> abs(
                decoded.planes@[p].data@[i] - #[trigger] source.planes@[p].data@[i],
            ) <= step / 2
        &&& step == 1 ==> decoded.planes@[p].data@ == source.planes@[p].data@
    } by {
        assert(source.planes@[p].shaped(dims[p].0, dims[p].1));
        assert(decoded.planes@[p].shaped(dims[p].0, dims[p].1));
        let w = dims[p].0 as int;
        assert forall|i: int| 0 <= i < source.planes@[p].data.len() implies abs(
            decoded.planes@[p].data@[i] - #[trigger] source.planes@[p].data@[i],
        ) <= step / 2 && (step == 1 ==> decoded.planes@[p].data@[i] == source.planes@[p].data@[i]) by {
            lemma_sample_from_tile16(source, options, reference, info, entries, expected, decoded, p, i);
        }
        if step == 1 {
            assert(decoded.planes@[p].data@ =~= source.planes@[p].data@);
        }
    }
}

/// Sample `i` of plane `p` of the decoded frame is the reconstruction of the
/// source sample that the covering tile holds.
proof fn lemma_sample_from_tile16(
    source: &Frame16,
    options: CodecOptions,
    reference: Option<&Frame16>,
    info: StreamInfo,
    entries: Seq<DirectoryEntry>,
    expected: Seq<Seq<u16>>,
    decoded: Frame16,
    p: int,
    i: int,
)
    requires
        source_coded16(info, entries, expected, source, options, reference),
        source.valid(),
        decoded.valid(),
        decoded.width == info.width && decoded.height == info.height,
        decoded.format == info.format,
        frame16_holds(decoded, entries, expected),
        options.tile_width >= 1 && options.tile_height >= 1,
        reference matches Some(r) ==> r.valid() && r.width == source.width && r.height == source.height
            && r.format == source.format,
        0 <= p < source.planes.len(),
        0 <= i < source.planes@[p].data.len(),
    ensures
        abs(decoded.planes@[p].data@[i] - source.planes@[p].data@[i]) <= spec_quantization_step16(
            options.quality,
            source.format.spec_bit_depth(),
        ) / 2,
        spec_quantization_step16(options.quality, source.format.spec_bit_depth()) == 1
            ==> decoded.planes@[p].data@[i] == source.planes@[p].data@[i],
{
    let step = spec_quantization_step16(options.quality, source.format.spec_bit_depth());
    let max = spec_sample_max(source.format.spec_bit_depth());
    let grayscale = source.format.spec_is_grayscale();
    let dims = plane_dims(source.width, source.height, grayscale);
    let tiles = spec_tiles(source.width, source.height, grayscale, options.tile_width, options.tile_height);
    lemma_spec_tiles_fit(source.width, source.height, grayscale, options.tile_width, options.tile_height);
    assert(source.planes@[p].shaped(dims[p].0, dims[p].1));
    assert(decoded.planes@[p].shaped(dims[p].0, dims[p].1));
    let w = dims[p].0 as int;
    let h = dims[p].1 as int;
    vstd::arithmetic::div_mod::lemma_fundamental_div_mod(i, w);
    assert(0 <= i / w < h) by (nonlinear_arith)
        requires
            0 <= i < w * h,
            w >= 1,
    ;
    let k = crate::tiles::lemma_spec_tiles_cover(
        source.width,
        source.height,
        grayscale,
        options.tile_width,
        options.tile_height,
        p,
        i % w,
        i / w,
    );
    let t = tiles[k];
    assert(tile_source_coded16(entries[k], expected[k], source, t, step, max, reference));
    assert(entries[k].tile == t);
    assert(in_tile(i, w, t));
    let j = crate::tile_coding::tile_offset(i, w, t);
    crate::tile_coding::lemma_in_tile_offset(i, w, t);
    let samples = source_tile16(source, t);
    let refs = reference_tile16(reference, t);
    let r = match refs {
        Some(r) => r,
        None => Seq::<u16>::empty(),
    };
    let mode = entries[k].prediction_mode;
    assert(expected[k] == encoder_reconstruction16(samples, mode, t.width as int, step, refs, max));
    assert(tile_samples(decoded.planes@[p].data@, w, t) == expected[k]);
    assert(decoded.planes@[p].data@[i] == expected[k][j]);
    assert(source.planes@[p].data@[i] == samples[j]);
    crate::model::lemma_frame16_plane_bound(source, p);
    assert(samples_within(samples, max)) by {
        assert forall|q: int| 0 <= q < samples.len() implies #[trigger] samples[q] <= max by {
            crate::tile_coding::lemma_tile_sample_index(q, t, w, h);
        }
    }
    assert(samples_within(r, max)) by {
        match reference {
            Some(rf) => {
                crate::model::lemma_frame16_plane_bound(rf, p);
                assert(rf.planes@[p].shaped(dims[p].0, dims[p].1));
                assert forall|q: int| 0 <= q < r.len() implies #[trigger] r[q] <= max by {
                    crate::tile_coding::lemma_tile_sample_index(q, t, w, h);
                }
            },
            None => {},
        }
    }
    assert(1 <= step) by {
        vstd::arithmetic::power2::lemma_pow2_pos((source.format.spec_bit_depth() - 8) as nat);
        assert(((100 - options.quality) / 5) * vstd::arithmetic::power2::pow2(
            (source.format.spec_bit_depth() - 8) as nat,
        ) >= 0) by (nonlinear_arith)
            requires
                vstd::arithmetic::power2::pow2((source.format.spec_bit_depth() - 8) as nat) > 0,
                options.quality <= 100,
        ;
    }
    assert(mode == PREDICT_TEMPORAL ==> r.len() >= samples.len()) by {
        match reference {
            Some(rf) => {
                assert(rf.planes@[p].shaped(dims[p].0, dims[p].1));
            },
            None => {},
        }
    }
    crate::residual16::lemma_encode_reconstruct16(samples, mode, t.width as int, step, r, max);
}

/// Decodes a high-bit intra frame; temporal tiles fail for lack of a reference.
pub fn decode16(bytes: &[u8], threads: usize) -> (r: Result<Frame16, CodecError>)
    ensures
        r matches Ok(frame) ==> frame16_matches_header(bytes@, frame),
        threads == 0 ==> r == Err::<Frame16, CodecError>(CodecError::InvalidInput("thread count must be nonzero")),
        threads != 0 && bytes.len() < HEADER_LEN ==> r == Err::<Frame16, CodecError>(
            CodecError::Malformed("truncated header"),
        ),
        threads != 0 && bytes.len() >= HEADER_LEN && bytes@.subrange(0, 4) != magic() ==> r == Err::<
            Frame16,
            CodecError,
        >(CodecError::Malformed("bad magic")),
        bytes.len() < HEADER_LEN ==> r is Err,
        forall|pi: StreamInfo, pv: u8, pe: Seq<DirectoryEntry>| #[trigger]
            layout16_ok(bytes@, pi, pv, pe) && threads != 0 && payloads_coded16(bytes@, pi.format, pe)
                && has_temporal_tile(pe) ==> r == Err::<Frame16, CodecError>(
                CodecError::InvalidInput("predicted frame requires a reference"),
            ),
        forall|source: Frame16, options: CodecOptions| #[trigger]
            encodes16(bytes@, &source, options, None) && threads != 0 ==> (r matches Ok(frame) && decodes_source16(
                frame,
                &source,
                options,
            )),
{
    let r = decode_internal16(bytes, None, threads);
    proof {
        assert forall|source: Frame16, options: CodecOptions| #[trigger]
            encodes16(bytes@, &source, options, None) && threads != 0 implies (r matches Ok(frame)
            && decodes_source16(frame, &source, options)) by {
            let (info, version, entries, expected) = choose|
                info: StreamInfo,
                version: u8,
                entries: Seq<DirectoryEntry>,
                expected: Seq<Seq<u16>>,
            |
                #[trigger] stream_decodes16(bytes@, info, version, entries, None, expected) && source_coded16(
                    info,
                    entries,
                    expected,
                    &source,
                    options,
                    None,
                );
            assert(stream_decodes16(bytes@, info, version, entries, None, expected));
            let frame = r->Ok_0;
            lemma_decoded_source16(&source, options, None, info, version, entries, expected, frame);
        }
    }
    r
}

/// Decodes a high-bit predicted frame using the preceding reconstructed frame.
pub fn decode16_with_reference(bytes: &[u8], reference: &Frame16, threads: usize) -> (r: Result<
    Frame16,
    CodecError,
>)
    ensures
        r matches Ok(frame) ==> frame16_matches_header(bytes@, frame) && reference.valid()
            && reference.width == frame.width && reference.height == frame.height
            && reference.format == frame.format,
        threads == 0 ==> r == Err::<Frame16, CodecError>(CodecError::InvalidInput("thread count must be nonzero")),
        threads != 0 && bytes.len() < HEADER_LEN ==> r == Err::<Frame16, CodecError>(
            CodecError::Malformed("truncated header"),
        ),
        threads != 0 && bytes.len() >= HEADER_LEN && bytes@.subrange(0, 4) != magic() ==> r == Err::<
            Frame16,
            CodecError,
        >(CodecError::Malformed("bad magic")),
        forall|pi: StreamInfo, pv: u8, pe: Seq<DirectoryEntry>| #[trigger]
            layout16_ok(bytes@, pi, pv, pe) && threads != 0 && reference.valid() && !(
            reference.width == pi.width && reference.height == pi.height && reference.format
                == pi.format) ==> r == Err::<Frame16, CodecError>(
                CodecError::InvalidInput("reference dimensions, layout, or bit depth do not match stream"),
            ),
        forall|source: Frame16, options: CodecOptions| #[trigger]
            encodes16(bytes@, &source, options, Some(reference)) && threads != 0 ==> (r matches Ok(frame)
                && decodes_source16(frame, &source, options)),
{
    let r = decode_internal16(bytes, Some(reference), threads);
    proof {
        assert forall|source: Frame16, options: CodecOptions| #[trigger]
            encodes16(bytes@, &source, options, Some(reference)) && threads != 0 implies (r matches Ok(frame)
            && decodes_source16(frame, &source, options)) by {
            let (info, version, entries, expected) = choose|
                info: StreamInfo,
                version: u8,
                entries: Seq<DirectoryEntry>,
                expected: Seq<Seq<u16>>,
            |
                #[trigger] stream_decodes16(bytes@, info, version, entries, Some(reference), expected)
                    && source_coded16(info, entries, expected, &source, options, Some(reference));
            assert(stream_decodes16(bytes@, info, version, entries, Some(reference), expected));
            let frame = r->Ok_0;
            lemma_decoded_source16(&source, options, Some(reference), info, version, entries, expected, frame);
        }
    }
    r
}

/// `bytes` has frame facts `info`, version `version` and directory `entries`, and
/// the payload of tile `index` decodes, without a reference, to `expected`.
pub open spec fn tile_decodes16_at(
    bytes: Seq<u8>,
    info: StreamInfo,
    version: u8,
    entries: Seq<DirectoryEntry>,
    index: int,
    expected: Seq<u16>,
) -> bool {
    &&& layout16_ok(bytes, info, version, entries)
    &&& 0 <= index < entries.len()
    &&& tile_decodes16(
        bytes,
        entries[index],
        spec_quantization_step16(info.quality, info.format.spec_bit_depth()),
        spec_sample_max(info.format.spec_bit_depth()),
        None,
        expected,
    )
}

/// One decoded high-bit tile with its position.
#[derive(Clone, Debug, PartialEq, Eq)]
pub struct DecodedTile16 {
    pub plane: usize,
    pub x: u32,
    pub y: u32,
    pub width: u32,
    pub height: u32,
    pub data: Vec<u16>,
}

/// Decodes one high-bit tile on its own; temporal tiles are refused.
pub fn decode_tile16(bytes: &[u8], tile_index: usize) -> (r: Result<DecodedTile16, CodecError>)
    ensures
        r matches Ok(tile) ==> exists|parsed: Parsed|
            #![trigger parsed16_ok(bytes@, parsed)]
            {
                &&& parsed16_ok(bytes@, parsed)
                &&& tile_index < parsed.entries.len()
                &&& parsed.entries@[tile_index as int].tile == (Tile {
                    plane: tile.plane,
                    x: tile.x,
                    y: tile.y,
                    width: tile.width,
                    height: tile.height,
                })
                &&& parsed.entries@[tile_index as int].prediction_mode != PREDICT_TEMPORAL
                &&& tile.data.len() == tile.width * tile.height
            },
        (exists|parsed: Parsed| parsed16_ok(bytes@, parsed) && tile_index >= parsed.entries.len())
            ==> r is Err,
        forall|pi: StreamInfo, pv: u8, pe: Seq<DirectoryEntry>| #[trigger]
            layout16_ok(bytes@, pi, pv, pe) && tile_index >= pe.len() ==> r == Err::<DecodedTile16, CodecError>(
                CodecError::InvalidInput("tile index is out of range"),
            ),
        forall|pi: StreamInfo, pv: u8, pe: Seq<DirectoryEntry>| #[trigger]
            layout16_ok(bytes@, pi, pv, pe) && tile_index < pe.len() && pe[tile_index as int].prediction_mode
                == PREDICT_TEMPORAL ==> r == Err::<DecodedTile16, CodecError>(
                CodecError::InvalidInput("predicted tile requires a reference frame"),
            ),
        forall|info: StreamInfo, version: u8, entries: Seq<DirectoryEntry>, expected: Seq<u16>| #[trigger]
            tile_decodes16_at(bytes@, info, version, entries, tile_index as int, expected) ==> (r matches Ok(
                tile,
            ) && tile.data@ == expected && tile.plane == entries[tile_index as int].tile.plane && tile.x
                == entries[tile_index as int].tile.x && tile.y == entries[tile_index as int].tile.y
                && tile.width == entries[tile_index as int].tile.width && tile.height
                == entries[tile_index as int].tile.height),
{
    let parsed = parse16(bytes)?;
    if tile_index >= parsed.entries.len() {
        return Err(CodecError::InvalidInput("tile index is out of range"));
    }
    let entry = parsed.entries[tile_index];
    if entry.prediction_mode == PREDICT_TEMPORAL {
        return Err(CodecError::InvalidInput("predicted tile requires a reference frame"));
    }
    let depth = parsed.info.format.bit_depth();
    let step = quantization_step16(parsed.info.quality, depth);
    let max_sample = sample_max(depth)?;
    proof {
        let info = parsed.info;
        lemma_spec_tiles_fit(info.width, info.height, info.format.spec_is_grayscale(), info.tile_width, info.tile_height);
        assert(parsed.entries@[tile_index as int] == entry);
    }
    let payload = &bytes[entry.offset..entry.offset + entry.length];
    proof {
        assert forall|info: StreamInfo, version: u8, entries: Seq<DirectoryEntry>, expected: Seq<u16>| #[trigger]
            tile_decodes16_at(bytes@, info, version, entries, tile_index as int, expected) implies ({
            let f = choose|f: Seq<u32>|
                #[trigger] payload_codes16(
                    entry.entropy_mode,
                    bytes@.subrange(entry.offset as int, entry.offset + entry.length),
                    f,
                ) && f.len() == entry.tile.width * entry.tile.height && 2 * f.len() <= MAX_FRAME_BYTES && (forall|i: int|
                    0 <= i < f.len() ==> #[trigger] f[i] <= 2 * max_sample) && (is_spatial_mode(entry.prediction_mode)
                    || (entry.prediction_mode == PREDICT_TEMPORAL && None::<Seq<u16>> is Some)) && expected
                    == reconstruct16(
                    unfold_all(f),
                    entry.prediction_mode,
                    entry.tile.width as int,
                    step as int,
                    Seq::empty(),
                    max_sample as int,
                );
            &&& payload_codes16(entry.entropy_mode, payload@, f)
            &&& f.len() == entry.tile.width * entry.tile.height && 2 * f.len() <= MAX_FRAME_BYTES
            &&& (forall|i: int| 0 <= i < f.len() ==> #[trigger] f[i] <= 2 * max_sample)
            &&& is_spatial_mode(entry.prediction_mode)
            &&& expected == reconstruct16(
                unfold_all(f),
                entry.prediction_mode,
                entry.tile.width as int,
                step as int,
                Seq::empty(),
                max_sample as int,
            )
            &&& entries[tile_index as int] == entry
        }) by {
            assert(same_layout(parsed, info, version, entries));
            assert(entries[tile_index as int] == entry);
            assert(payload@ =~= bytes@.subrange(entry.offset as int, entry.offset + entry.length));
        }
    }
    let data = decode_tile_payload16(
        entry.tile,
        payload,
        step,
        entry.entropy_mode,
        entry.prediction_mode,
        None,
        max_sample,
    )?;
    proof {
        let folded = choose|folded: Seq<u32>| #![trigger unfold_all(folded)] folded.len() == entry.tile.width * entry.tile.height && data@ == crate::residual16::reconstruct16(unfold_all(folded), entry.prediction_mode, entry.tile.width as int, step as int, Seq::empty(), max_sample as int);
        crate::residual16::lemma_reconstruct16_len(unfold_all(folded), entry.prediction_mode, entry.tile.width as int, step as int, Seq::empty(), max_sample as int);
    }
    Ok(
        DecodedTile16 {
            plane: entry.tile.plane,
            x: entry.tile.x,
            y: entry.tile.y,
            width: entry.tile.width,
            height: entry.tile.height,
            data,
        },
    )
}

} // verus!
