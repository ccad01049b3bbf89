use crate::bits::{get_u16, get_u32, get_u64, le_bytes, le_value, put_u16, put_u32, put_u64};
use crate::entropy::{ENTROPY_RICE_BASE, ENTROPY_ZERO_RUN};
use crate::model::{
    CodecError, CodecOptions, Frame, FrameRate, MAX_FRAME_BYTES, PixelFormat, Plane, checked_area,
    frame_samples, plane_dims, spec_quantization_step,
};
use crate::predict::Quantizer;
use crate::rans::cost_model_total;
use crate::residual::{
    MAX_PREDICTION_MODE, PREDICT_AVERAGE, PREDICT_CLAMP_GRADIENT, PREDICT_HALF_GRADIENT,
    PREDICT_SPATIAL, PREDICT_TEMPORAL, encode_residuals, fold_all, is_spatial_mode,
    lemma_encode_reconstruct, lemma_lossless_round_trip, predict_tile, reconstruct, squared_error, unfold_all,
};
use crate::bits::lemma_zigzag_round_trip;
use crate::predict::abs;
use crate::tile_coding::{
    ENTROPY_ORDER0, ENTROPY_ORDER0_4, EncodedTile, MAX_FOLDED, MAX_RICE_PARAMETER, decode_tile_payload,
    extract_tile, finish_entropy, modeled_entropy_bytes, payload_codes, selected_coding, tile_entropy_cost, tile_samples, tile_symbols,
    write_tile,
};
use crate::tiles::{
    MAX_TILES, Tile, area_sum, expected_tiles, lemma_spec_tiles_area, lemma_spec_tiles_fit, plane_dimensions,
    spec_tiles, tile_area, tile_fits,
    tiles_fit, tiling_ok,
};
use vstd::prelude::*;

verus! {

/// Stream versions: the legacy one knows only Paeth and temporal prediction, the
/// predictor version adds the other spatial predictors, the current one adds order-0 rANS.
pub const LEGACY_VERSION: u8 = 0;
pub const PREDICTOR_VERSION: u8 = 2;
pub const VERSION: u8 = 3;
pub const HEADER_LEN: usize = 32;
pub const DIRECTORY_ENTRY_LEN: usize = 32;

/// The stream's magic bytes, `FVID`.
pub open spec fn magic() -> Seq<u8> {
    seq![70u8, 86u8, 73u8, 68u8]
}

/// Frame-level facts read from a stream header and directory.
#[derive(Clone, Copy, Debug, PartialEq, Eq, Structural)]
pub struct StreamInfo {
    pub width: u32,
    pub height: u32,
    pub format: PixelFormat,
    pub frame_rate: FrameRate,
    pub quality: u8,
    pub tile_width: u16,
    pub tile_height: u16,
    pub tile_count: usize,
    pub zero_run_tiles: usize,
    pub rice_tiles: usize,
    pub block_pack_tiles: usize,
    pub spatial_tiles: usize,
    pub temporal_tiles: usize,
    pub encoded_bytes: usize,
}

/// One decoded tile with its position.
#[derive(Clone, Debug, PartialEq, Eq)]
pub struct DecodedTile {
    pub plane: usize,
    pub x: u32,
    pub y: u32,
    pub width: u32,
    pub height: u32,
    pub data: Vec<u8>,
}

/// One tile directory entry.
#[derive(Clone, Copy, Debug, PartialEq, Eq, Structural)]
pub struct DirectoryEntry {
    pub tile: Tile,
    pub entropy_mode: u8,
    pub prediction_mode: u8,
    pub offset: usize,
    pub length: usize,
}

/// A parsed stream: header facts and the tile directory.
pub struct Parsed {
    pub info: StreamInfo,
    pub version: u8,
    pub entries: Vec<DirectoryEntry>,
}

/// The 32 header bytes of a stream.
pub open spec fn header_bytes(
    version: u8,
    format_code: u8,
    quality: u8,
    width: u32,
    height: u32,
    tile_width: u16,
    tile_height: u16,
    frame_rate: FrameRate,
    tile_count: nat,
) -> Seq<u8> {
    magic() + seq![version, format_code, quality, 0u8] + le_bytes(width as nat, 4) + le_bytes(
        height as nat,
        4,
    ) + le_bytes(tile_width as nat, 2) + le_bytes(tile_height as nat, 2) + le_bytes(
        frame_rate.numerator as nat,
        4,
    ) + le_bytes(frame_rate.denominator as nat, 4) + le_bytes(tile_count, 4)
}

/// Entropy modes that a stream of `version` may use.
pub open spec fn entropy_mode_allowed(version: u8, mode: u8) -> bool {
    ||| mode == ENTROPY_ZERO_RUN
    ||| (ENTROPY_RICE_BASE <= mode <= ENTROPY_RICE_BASE + MAX_RICE_PARAMETER)
    ||| (version == VERSION && (mode == ENTROPY_ORDER0 || mode == ENTROPY_ORDER0_4))
}

/// Prediction modes that a stream of `version` may use.
pub open spec fn prediction_mode_allowed(version: u8, mode: u8) -> bool {
    if version == LEGACY_VERSION {
        mode <= PREDICT_TEMPORAL
    } else {
        mode <= MAX_PREDICTION_MODE
    }
}

/// A parse result that agrees with the bytes it was read from.
pub open spec fn parsed_ok(bytes: Seq<u8>, parsed: Parsed) -> bool {
    layout_ok(bytes, parsed.info, parsed.version, parsed.entries@)
}

/// Frame facts `info`, stream version `version` and directory `entries` that agree
/// with the header and directory of `bytes`, whose payloads end at `end`.
pub open spec fn layout_to(
    bytes: Seq<u8>,
    info: StreamInfo,
    version: u8,
    entries: Seq<DirectoryEntry>,
    end: int,
) -> bool {
    let tiles = spec_tiles(
        info.width,
        info.height,
        info.format.spec_is_grayscale(),
        info.tile_width,
        info.tile_height,
    );
    &&& bytes.len() >= HEADER_LEN
    &&& bytes.subrange(0, 4) == magic()
    &&& bytes[4] == version
    &&& (version == LEGACY_VERSION || version == PREDICTOR_VERSION || version
        == VERSION)
    &&& bytes[5] == info.format.spec_code()
    &&& info.format.spec_bit_depth() == 8
    &&& bytes[6] == info.quality
    &&& 1 <= info.quality <= 100
    &&& bytes[7] == 0
    &&& info.width == le_value(bytes, 8, 4) && info.height == le_value(bytes, 12, 4)
    &&& info.tile_width == le_value(bytes, 16, 2) && info.tile_height == le_value(bytes, 18, 2)
    &&& info.frame_rate.numerator == le_value(bytes, 20, 4)
    &&& info.frame_rate.denominator == le_value(bytes, 24, 4)
    &&& info.tile_count == le_value(bytes, 28, 4)
    &&& info.width > 0 && info.height > 0 && info.tile_width > 0 && info.tile_height > 0
    &&& info.frame_rate.valid()
    &&& info.encoded_bytes == end
    &&& info.block_pack_tiles == 0
    &&& info.zero_run_tiles + info.rice_tiles == info.tile_count
    &&& info.spatial_tiles + info.temporal_tiles == info.tile_count
    &&& tiling_ok(
        info.width,
        info.height,
        info.format.spec_is_grayscale(),
        info.tile_width,
        info.tile_height,
        true,
    )
    &&& entries.len() == info.tile_count
    &&& entries.len() == tiles.len()
    &&& forall|i: int|
        0 <= i < entries.len() ==> {
            &&& (#[trigger] entries[i]).tile == tiles[i]
            &&& entropy_mode_allowed(version, entries[i].entropy_mode)
            &&& prediction_mode_allowed(version, entries[i].prediction_mode)
            &&& entries[i].offset + entries[i].length <= end
            &&& directory_entry_at(bytes, HEADER_LEN + i * DIRECTORY_ENTRY_LEN, entries[i])
        }
    &&& forall|i: int|
        0 <= i < entries.len() - 1 ==> #[trigger] entries[i + 1].offset == entries[i].offset
            + entries[i].length
    &&& entries.len() > 0 ==> entries[0].offset == HEADER_LEN + entries.len() * DIRECTORY_ENTRY_LEN
    &&& entries.len() > 0 ==> entries[entries.len() - 1].offset + entries[entries.len()
        - 1].length == end
    &&& entries.len() == 0 ==> end == HEADER_LEN
}

/// Frame facts `info`, stream version `version` and directory `entries` that agree
/// with the stream `bytes`.
pub open spec fn layout_ok(bytes: Seq<u8>, info: StreamInfo, version: u8, entries: Seq<DirectoryEntry>) -> bool {
    layout_to(bytes, info, version, entries, bytes.len() as int)
}


/// A parse result with version `version`, directory `entries` and the frame facts
/// of `info`.
pub open spec fn same_layout(a: Parsed, info: StreamInfo, version: u8, entries: Seq<DirectoryEntry>) -> bool {
    &&& a.version == version
    &&& a.entries@ == entries
    &&& a.info.width == info.width && a.info.height == info.height
    &&& a.info.format == info.format && a.info.frame_rate == info.frame_rate
    &&& a.info.quality == info.quality
    &&& a.info.tile_width == info.tile_width && a.info.tile_height == info.tile_height
    &&& a.info.tile_count == info.tile_count
}

/// Directory entries whose payload is a zero-run coding.
pub open spec fn zero_run_count(entries: Seq<DirectoryEntry>) -> nat
    decreases entries.len(),
{
    if entries.len() == 0 {
        0
    } else {
        zero_run_count(entries.drop_last()) + if entries.last().entropy_mode == ENTROPY_ZERO_RUN {
            1nat
        } else {
            0nat
        }
    }
}

/// Directory entries whose tile is predicted from the reference frame.
pub open spec fn temporal_count(entries: Seq<DirectoryEntry>) -> nat
    decreases entries.len(),
{
    if entries.len() == 0 {
        0
    } else {
        temporal_count(entries.drop_last()) + if entries.last().prediction_mode == PREDICT_TEMPORAL {
            1nat
        } else {
            0nat
        }
    }
}

/// Reads and checks a stream header and its tile directory.
pub fn parse(bytes: &[u8]) -> (r: Result<Parsed, CodecError>)
    ensures
        r matches Ok(parsed) ==> parsed_ok(bytes@, parsed),
        r matches Ok(parsed) ==> parsed.info.zero_run_tiles == zero_run_count(parsed.entries@)
            && parsed.info.temporal_tiles == temporal_count(parsed.entries@),
        bytes.len() < HEADER_LEN ==> r == Err::<Parsed, CodecError>(CodecError::Malformed("truncated header")),
        bytes.len() >= HEADER_LEN && bytes@.subrange(0, 4) != magic() ==> r == Err::<Parsed, CodecError>(
            CodecError::Malformed("bad magic"),
        ),
        bytes.len() >= HEADER_LEN && bytes@.subrange(0, 4) == magic() && !(bytes@[4] == LEGACY_VERSION
            || bytes@[4] == PREDICTOR_VERSION || bytes@[4] == VERSION) ==> r == Err::<Parsed, CodecError>(
            CodecError::Malformed("unsupported version"),
        ),
        r is Err ==> !(r matches Err(CodecError::InvalidInput(_))),
        forall|pi: StreamInfo, pv: u8, pe: Seq<DirectoryEntry>| #[trigger]
            layout_ok(bytes@, pi, pv, pe) ==> (r matches Ok(q) && same_layout(q, pi, pv, pe)),
        forall|pi: StreamInfo, pv: u8, pe: Seq<DirectoryEntry>, end: int| #[trigger]
            layout_to(bytes@, pi, pv, pe, end) && end < bytes.len() ==> r == Err::<Parsed, CodecError>(
                CodecError::Malformed("trailing stream bytes"),
            ),
        forall|pi: StreamInfo, pv: u8, pe: Seq<DirectoryEntry>, end: int| #[trigger]
            layout_to(bytes@, pi, pv, pe, end) && end > bytes.len() ==> r == Err::<Parsed, CodecError>(
                CodecError::Malformed("truncated tile payload"),
            ),
{
    if bytes.len() < HEADER_LEN {
        return Err(CodecError::Malformed("truncated header"));
    }
    if bytes[0] != 70 || bytes[1] != 86 || bytes[2] != 73 || bytes[3] != 68 {
        proof {
            if bytes@.subrange(0, 4) == magic() {
                assert(bytes@.subrange(0, 4)[0] == bytes@[0]);
                assert(bytes@.subrange(0, 4)[1] == bytes@[1]);
                assert(bytes@.subrange(0, 4)[2] == bytes@[2]);
                assert(bytes@.subrange(0, 4)[3] == bytes@[3]);
            }
        }
        return Err(CodecError::Malformed("bad magic"));
    }
    proof {
        assert(bytes@.subrange(0, 4) =~= magic());
    }
    let version = bytes[4];
    if version != LEGACY_VERSION && version != PREDICTOR_VERSION && version != VERSION {
        return Err(CodecError::Malformed("unsupported version"));
    }
    let format = match PixelFormat::from_code(bytes[5]) {
        Ok(format) => format,
        Err(error) => {
            return Err(error);
        },
    };
    proof {
        assert forall|pi: StreamInfo, pv: u8, pe: Seq<DirectoryEntry>, end: int| #[trigger]
            layout_to(bytes@, pi, pv, pe, end) implies pi.format == format by {
            assert(pi.format.spec_code() == format.spec_code());
        }
    }
    if format.bit_depth() != 8 {
        return Err(CodecError::Malformed("8-bit stream has a high-bit pixel format"));
    }
    let quality = bytes[6];
    if quality < 1 || quality > 100 {
        return Err(CodecError::Malformed("quality is out of range"));
    }
    if bytes[7] != 0 {
        return Err(CodecError::Malformed("nonzero reserved header byte"));
    }
    let width = get_u32(bytes, 8)?;
    let height = get_u32(bytes, 12)?;
    let tile_width = get_u16(bytes, 16)?;
    let tile_height = get_u16(bytes, 18)?;
    let frame_rate = FrameRate::new(get_u32(bytes, 20)?, get_u32(bytes, 24)?);
    let declared_tiles = get_u32(bytes, 28)?;
    if width == 0 || height == 0 || tile_width == 0 || tile_height == 0 {
        return Err(CodecError::Malformed("zero dimension"));
    }
    if frame_rate.validate().is_err() {
        return Err(CodecError::Malformed("zero frame-rate component"));
    }
    if declared_tiles as usize > MAX_TILES {
        return Err(CodecError::LimitExceeded("too many tiles"));
    }
    let tile_count = declared_tiles as usize;
    let expected = match expected_tiles(width, height, format, tile_width, tile_height, true) {
        Ok(expected) => expected,
        Err(error) => {
            return Err(error);
        },
    };
    if tile_count != expected.len() {
        return Err(CodecError::Malformed("tile count does not match dimensions"));
    }
    let directory_end = HEADER_LEN + tile_count * DIRECTORY_ENTRY_LEN;
    if directory_end > bytes.len() {
        return Err(CodecError::Malformed("truncated tile directory"));
    }
    let ghost tiles = spec_tiles(width, height, format.spec_is_grayscale(), tile_width, tile_height);
    let mut entries: Vec<DirectoryEntry> = Vec::with_capacity(tile_count);
    let mut next_payload_offset: usize = directory_end;
    let mut zero_run_tiles: usize = 0;
    let mut rice_tiles: usize = 0;
    let mut spatial_tiles: usize = 0;
    let mut temporal_tiles: usize = 0;
    let mut index: usize = 0;
    while index < tile_count
        invariant
            expected@ == tiles,
            tiles == spec_tiles(width, height, format.spec_is_grayscale(), tile_width, tile_height),
            tile_count == expected.len(),
            tile_count <= MAX_TILES,
            directory_end == HEADER_LEN + tile_count * DIRECTORY_ENTRY_LEN,
            directory_end <= bytes.len(),
            directory_end <= next_payload_offset <= bytes.len(),
            index <= tile_count,
            entries.len() == index,
            zero_run_tiles + rice_tiles == index,
            spatial_tiles + temporal_tiles == index,
            zero_run_tiles == zero_run_count(entries@),
            temporal_tiles == temporal_count(entries@),
            version == LEGACY_VERSION || version == PREDICTOR_VERSION || version == VERSION,
            version == bytes@[4],
            bytes.len() >= HEADER_LEN && bytes@.subrange(0, 4) == magic(),
            tile_count == le_value(bytes@, 28, 4),
            width == le_value(bytes@, 8, 4) && height == le_value(bytes@, 12, 4),
            tile_width == le_value(bytes@, 16, 2) && tile_height == le_value(bytes@, 18, 2),
            forall|pi: StreamInfo, pv: u8, pe: Seq<DirectoryEntry>, end: int| #[trigger]
                layout_to(bytes@, pi, pv, pe, end) ==> pi.format == format && pe.len() == tile_count,
            forall|i: int|
                0 <= i < index ==> {
                    &&& (#[trigger] entries@[i]).tile == tiles[i]
                    &&& entropy_mode_allowed(version, entries@[i].entropy_mode)
                    &&& prediction_mode_allowed(version, entries@[i].prediction_mode)
                    &&& entries@[i].offset + entries@[i].length <= bytes.len()
                    &&& directory_entry_at(bytes@, HEADER_LEN + i * DIRECTORY_ENTRY_LEN, entries@[i])
                },
            forall|i: int|
                0 <= i < index - 1 ==> #[trigger] entries@[i + 1].offset == entries@[i].offset
                    + entries@[i].length,
            index > 0 ==> entries@[0].offset == directory_end,
            index > 0 ==> next_payload_offset == entries@[index - 1].offset + entries@[index
                - 1].length,
            index == 0 ==> next_payload_offset == directory_end,
            forall|pi: StreamInfo, pv: u8, pe: Seq<DirectoryEntry>, end: int| #[trigger]
                layout_to(bytes@, pi, pv, pe, end) ==> entries@ == pe.take(index as int),
        decreases tile_count - index,
    {
        let start = HEADER_LEN + index * DIRECTORY_ENTRY_LEN;
        proof {
            assert(start + DIRECTORY_ENTRY_LEN <= directory_end) by (nonlinear_arith)
                requires
                    start == HEADER_LEN + index * DIRECTORY_ENTRY_LEN,
                    index < tile_count,
                    directory_end == HEADER_LEN + tile_count * DIRECTORY_ENTRY_LEN,
            ;
            assert forall|pi: StreamInfo, pv: u8, pe: Seq<DirectoryEntry>, end: int| #[trigger]
                layout_to(bytes@, pi, pv, pe, end) implies {
                let e = pe[index as int];
                &&& directory_entry_at(bytes@, start as int, e)
                &&& e.tile == tiles[index as int]
                &&& entropy_mode_allowed(version, e.entropy_mode)
                &&& prediction_mode_allowed(version, e.prediction_mode)
                &&& e.offset + e.length <= end
                &&& e.offset == next_payload_offset
            } by {
                assert(pe[index as int] == pe[index as int]);
                if index > 0 {
                    assert(pe[index - 1] == entries@[index - 1]);
                    assert(pe[(index - 1) + 1].offset == pe[index - 1].offset + pe[index - 1].length);
                }
            }
        }
        if bytes[start + 3] != 0 {
            return Err(CodecError::Malformed("nonzero reserved directory bytes"));
        }
        let entropy_mode = bytes[start + 1];
        let known_entropy = entropy_mode == ENTROPY_ZERO_RUN || (entropy_mode >= ENTROPY_RICE_BASE
            && entropy_mode <= ENTROPY_RICE_BASE + MAX_RICE_PARAMETER) || (version == VERSION && (
        entropy_mode == ENTROPY_ORDER0 || entropy_mode == ENTROPY_ORDER0_4));
        if !known_entropy {
            return Err(CodecError::Malformed("unknown tile entropy mode"));
        }
        let prediction_mode = bytes[start + 2];
        let maximum_prediction_mode = if version == LEGACY_VERSION {
            PREDICT_TEMPORAL
        } else {
            MAX_PREDICTION_MODE
        };
        if prediction_mode > maximum_prediction_mode {
            return Err(CodecError::Malformed("unknown tile prediction mode"));
        }
        if entropy_mode == ENTROPY_ZERO_RUN {
            zero_run_tiles = zero_run_tiles + 1;
        } else {
            rice_tiles = rice_tiles + 1;
        }
        if prediction_mode == PREDICT_TEMPORAL {
            temporal_tiles = temporal_tiles + 1;
        } else {
            spatial_tiles = spatial_tiles + 1;
        }
        let tile = Tile {
            plane: bytes[start] as usize,
            x: get_u32(bytes, start + 4)?,
            y: get_u32(bytes, start + 8)?,
            width: get_u32(bytes, start + 12)?,
            height: get_u32(bytes, start + 16)?,
        };
        if tile != expected[index] {
            proof {
                assert forall|pi: StreamInfo, pv: u8, pe: Seq<DirectoryEntry>, end: int|
                    !#[trigger] layout_to(bytes@, pi, pv, pe, end) by {
                    if layout_to(bytes@, pi, pv, pe, end) {
                        assert(pe[index as int].tile == tile);
                        assert(expected@[index as int] == tiles[index as int]);
                    }
                }
            }
            return Err(CodecError::Malformed("non-canonical tile directory"));
        }
        let offset_value = get_u64(bytes, start + 20)?;
        let length_value = get_u32(bytes, start + 28)?;
        if offset_value != next_payload_offset as u64 {
            return Err(CodecError::Malformed("payloads are not contiguous"));
        }
        let offset = next_payload_offset;
        let length = length_value as usize;
        if length > bytes.len() - offset {
            return Err(CodecError::Malformed("truncated tile payload"));
        }
        let entry = DirectoryEntry { tile, entropy_mode, prediction_mode, offset, length };
        proof {
            assert(tile == tiles[index as int]);
            assert(directory_entry_at(bytes@, start as int, entry));
            assert forall|pi: StreamInfo, pv: u8, pe: Seq<DirectoryEntry>, end: int| #[trigger]
                layout_to(bytes@, pi, pv, pe, end) implies pe[index as int] == entry by {
                let e = pe[index as int];
                assert(e.tile == tile);
            }
        }
        let ghost entries_before = entries@;
        entries.push(entry);
        proof {
            assert(entries@.drop_last() =~= entries_before);
        }
        next_payload_offset = offset + length;
        index = index + 1;
        proof {
            assert forall|pi: StreamInfo, pv: u8, pe: Seq<DirectoryEntry>, end: int| #[trigger]
                layout_to(bytes@, pi, pv, pe, end) implies entries@ == pe.take(index as int) by {
                assert(entries@ =~= pe.take(index as int));
            }
        }
    }
    if next_payload_offset != bytes.len() {
        proof {
            assert forall|pi: StreamInfo, pv: u8, pe: Seq<DirectoryEntry>, end: int|
                #[trigger] layout_to(bytes@, pi, pv, pe, end) implies end == next_payload_offset by {
                if tile_count > 0 {
                    assert(pe[tile_count - 1] == entries@[tile_count - 1]);
                }
            }
        }
        return Err(CodecError::Malformed("trailing stream bytes"));
    }
    let info = StreamInfo {
        width,
        height,
        format,
        frame_rate,
        quality,
        tile_width,
        tile_height,
        tile_count,
        zero_run_tiles,
        rice_tiles,
        block_pack_tiles: 0,
        spatial_tiles,
        temporal_tiles,
        encoded_bytes: bytes.len(),
    };
    let parsed = Parsed { info, version, entries };
    proof {
        assert forall|pi: StreamInfo, pv: u8, pe: Seq<DirectoryEntry>, end: int| #[trigger]
            layout_to(bytes@, pi, pv, pe, end) implies same_layout(parsed, pi, pv, pe) by {
            assert(pe.take(tile_count as int) =~= pe);
        }
    }
    Ok(parsed)
}

/// The frame-level facts of a stream.
pub fn inspect(bytes: &[u8]) -> (r: Result<StreamInfo, CodecError>)
    ensures
        r matches Ok(info) ==> exists|parsed: Parsed|
            #![trigger parsed_ok(bytes@, parsed)]
            {
                &&& parsed_ok(bytes@, parsed)
                &&& parsed.info == info
                &&& info.zero_run_tiles == zero_run_count(parsed.entries@)
                &&& info.temporal_tiles == temporal_count(parsed.entries@)
            },
        r is Ok <==> exists|info: StreamInfo, version: u8, entries: Seq<DirectoryEntry>| #[trigger]
            layout_ok(bytes@, info, version, entries),
        bytes.len() < HEADER_LEN ==> r is Err,
{
    let r = parse(bytes);
    match r {
        Ok(parsed) => {
            proof {
                assert(layout_ok(bytes@, parsed.info, parsed.version, parsed.entries@));
            }
            Ok(parsed.info)
        },
        Err(error) => Err(error),
    }
}


// ---------------------------------------------------------------------------
// Encoder
// ---------------------------------------------------------------------------

/// One residual coding of a tile that the encoder weighs.
struct Candidate {
    mode: u8,
    folded: Vec<u32>,
    squared_error: u64,
    bytes: u64,
}

/// The reference samples of a tile, or none.
pub open spec fn reference_seq(reference: Option<&[u8]>) -> Seq<u8> {
    match reference {
        Some(samples) => samples@,
        None => Seq::empty(),
    }
}

/// The reference samples of a tile as an optional sequence.
pub open spec fn reference_view(reference: Option<&[u8]>) -> Option<Seq<u8>> {
    match reference {
        Some(samples) => Some(samples@),
        None => None,
    }
}

/// The samples of an optional reference, empty when there is none.
pub open spec fn samples_or_empty(reference: Option<Seq<u8>>) -> Seq<u8> {
    match reference {
        Some(r) => r,
        None => Seq::empty(),
    }
}

/// A tile coded with `tile.prediction_mode` whose payload carries the residuals the
/// encoder emits for `samples` with that mode.
pub open spec fn tile_encodes(
    tile: EncodedTile,
    samples: Seq<u8>,
    width: int,
    step: int,
    reference: Option<Seq<u8>>,
) -> bool {
    &&& is_spatial_mode(tile.prediction_mode) || (tile.prediction_mode == PREDICT_TEMPORAL
        && reference is Some)
    &&& payload_codes(
        tile.entropy_mode,
        tile.payload@,
        fold_all(encode_residuals(samples, tile.prediction_mode, width, step, samples_or_empty(reference))),
    )
}

/// Round trip of one 8-bit tile: an encoded tile's payload carries symbols that `decode_tile_payload` reads back, and they
/// reconstruct to the encoder's own reconstruction, which lies within half a
/// quantizer step of every source sample and is the source tile itself at step 1.
pub proof fn lemma_tile_round_trip(
    tile: EncodedTile,
    samples: Seq<u8>,
    width: int,
    step: int,
    reference: Option<Seq<u8>>,
)
    requires
        tile_encodes(tile, samples, width, step, reference),
        step >= 1,
        samples.len() <= 0x4000_0000,
    ensures
        ({
            let refs = samples_or_empty(reference);
            let folded = fold_all(encode_residuals(samples, tile.prediction_mode, width, step, refs));
            let decoded = reconstruct(unfold_all(folded), tile.prediction_mode, width, step, refs);
            &&& payload_codes(tile.entropy_mode, tile.payload@, folded)
            &&& folded.len() == samples.len()
            &&& tile_symbols(folded)
            &&& decoded == reconstruct(encode_residuals(samples, tile.prediction_mode, width, step, refs), tile.prediction_mode, width, step, refs)
            &&& decoded.len() == samples.len()
            &&& forall|i: int| 0 <= i < samples.len() ==> abs(samples[i] - #[trigger] decoded[i]) <= step / 2
            &&& step == 1 ==> decoded == samples
        }),
{
    let refs = samples_or_empty(reference);
    let mode = tile.prediction_mode;
    let quantized = encode_residuals(samples, mode, width, step, refs);
    let folded = fold_all(quantized);
    lemma_encode_reconstruct(samples, mode, width, step, refs);
    assert(unfold_all(folded) =~= quantized) by {
        assert forall|i: int| 0 <= i < quantized.len() implies unfold_all(folded)[i] == quantized[i] by {
            lemma_zigzag_round_trip(quantized[i], 0);
            assert(-255 <= quantized[i] <= 255);
        }
    }
    assert forall|i: int| 0 <= i < folded.len() implies #[trigger] folded[i] <= MAX_FOLDED by {
        assert(-255 <= quantized[i] <= 255);
    }
    if step == 1 {
        lemma_lossless_round_trip(samples, mode, width, refs);
    }
}

/// The prediction modes the encoder weighs for a tile: every spatial predictor, and
/// temporal prediction when a reference is given.
pub open spec fn offered_mode(mode: u8, has_reference: bool) -> bool {
    is_spatial_mode(mode) || (mode == PREDICT_TEMPORAL && has_reference)
}

/// The mode that wins ties on modeled size: temporal when it is preferred and a
/// reference is given, else Paeth.
pub open spec fn preferred_mode(prefer_temporal: bool, has_reference: bool) -> u8 {
    if prefer_temporal && has_reference {
        PREDICT_TEMPORAL
    } else {
        PREDICT_SPATIAL
    }
}

/// Squared reconstruction error of a tile coded with prediction mode `mode`.
pub open spec fn mode_squared_error(samples: Seq<u8>, mode: u8, width: int, step: int, refs: Seq<u8>) -> int {
    squared_error(samples, reconstruct(encode_residuals(samples, mode, width, step, refs), mode, width, step, refs))
}

/// `costs[m]` is the modeled payload size of the tile coded with each offered mode `m`.
pub open spec fn modeled_mode_costs<F: Fn(&[u64], &[u64], u64) -> u64>(
    costs: Seq<int>,
    samples: Seq<u8>,
    width: int,
    step: int,
    reference: Option<Seq<u8>>,
    cost: F,
) -> bool {
    &&& costs.len() == 5
    &&& forall|m: u8|
        #[trigger] offered_mode(m, reference is Some) ==> modeled_entropy_bytes(
            fold_all(encode_residuals(samples, m, width, step, samples_or_empty(reference))),
            cost,
            costs[m as int],
        )
}

/// The encoder's choice of prediction mode for a tile: an offered mode of fewest
/// modeled bytes; the preferred mode whenever it reaches that size, else among the
/// modes of that size the one of least squared error, then of least mode number.
pub open spec fn best_tile_choice<F: Fn(&[u64], &[u64], u64) -> u64>(
    mode: u8,
    samples: Seq<u8>,
    width: int,
    step: int,
    reference: Option<Seq<u8>>,
    prefer_temporal: bool,
    cost: F,
) -> bool {
    let has_reference = reference is Some;
    let refs = samples_or_empty(reference);
    let preferred = preferred_mode(prefer_temporal, has_reference);
    exists|costs: Seq<int>|
        #[trigger] modeled_mode_costs(costs, samples, width, step, reference, cost) && {
            &&& offered_mode(mode, has_reference)
            &&& forall|m: u8| #[trigger] offered_mode(m, has_reference) ==> costs[mode as int] <= costs[m as int]
            &&& costs[preferred as int] == costs[mode as int] ==> mode == preferred
            &&& mode != preferred ==> forall|m: u8|
                #[trigger] offered_mode(m, has_reference) && m != mode && costs[m as int] == costs[mode as int]
                    ==> mode_squared_error(samples, mode, width, step, refs) < mode_squared_error(
                    samples,
                    m,
                    width,
                    step,
                    refs,
                ) || (mode_squared_error(samples, mode, width, step, refs) == mode_squared_error(
                    samples,
                    m,
                    width,
                    step,
                    refs,
                ) && mode < m)
        }
}

/// The encoder's choice for a tile is one of the modes it weighs and costs no more
/// modeled bytes than any of them; the preferred mode is chosen exactly when it
/// reaches that fewest size.
pub proof fn lemma_best_tile_fewest_bytes<F: Fn(&[u64], &[u64], u64) -> u64>(
    mode: u8,
    samples: Seq<u8>,
    width: int,
    step: int,
    reference: Option<Seq<u8>>,
    prefer_temporal: bool,
    cost: F,
)
    requires
        best_tile_choice(mode, samples, width, step, reference, prefer_temporal, cost),
    ensures
        offered_mode(mode, reference is Some),
        exists|costs: Seq<int>|
            #[trigger] modeled_mode_costs(costs, samples, width, step, reference, cost) && {
                let preferred = preferred_mode(prefer_temporal, reference is Some);
                &&& forall|m: u8| #[trigger] offered_mode(m, reference is Some) ==> costs[mode as int] <= costs[m as int]
                &&& (mode == preferred <==> costs[preferred as int] == costs[mode as int])
            },
{
    let costs = choose|costs: Seq<int>|
        #[trigger] modeled_mode_costs(costs, samples, width, step, reference, cost) && {
            let has_reference = reference is Some;
            let refs = samples_or_empty(reference);
            let preferred = preferred_mode(prefer_temporal, has_reference);
            &&& offered_mode(mode, has_reference)
            &&& forall|m: u8| #[trigger] offered_mode(m, has_reference) ==> costs[mode as int] <= costs[m as int]
            &&& costs[preferred as int] == costs[mode as int] ==> mode == preferred
            &&& mode != preferred ==> forall|m: u8|
                #[trigger] offered_mode(m, has_reference) && m != mode && costs[m as int] == costs[mode as int]
                    ==> mode_squared_error(samples, mode, width, step, refs) < mode_squared_error(
                    samples,
                    m,
                    width,
                    step,
                    refs,
                ) || (mode_squared_error(samples, mode, width, step, refs) == mode_squared_error(
                    samples,
                    m,
                    width,
                    step,
                    refs,
                ) && mode < m)
        };
    assert(modeled_mode_costs(costs, samples, width, step, reference, cost));
}

/// Mode of the `index`-th candidate the encoder weighs: Paeth, average, clamped
/// gradient, half gradient, then temporal.
spec fn candidate_mode(index: int) -> u8 {
    if index == 0 {
        PREDICT_SPATIAL
    } else if index == 1 {
        PREDICT_AVERAGE
    } else if index == 2 {
        PREDICT_CLAMP_GRADIENT
    } else if index == 3 {
        PREDICT_HALF_GRADIENT
    } else {
        PREDICT_TEMPORAL
    }
}

/// Position of mode `mode` among the candidates.
spec fn candidate_position(mode: u8) -> int {
    if mode == PREDICT_SPATIAL {
        0
    } else if mode == PREDICT_AVERAGE {
        1
    } else if mode == PREDICT_CLAMP_GRADIENT {
        2
    } else if mode == PREDICT_HALF_GRADIENT {
        3
    } else {
        4
    }
}

/// Lexicographic order on (squared error, mode) that breaks ties between candidates.
spec fn ranks_before(first: Candidate, second: Candidate) -> bool {
    first.squared_error < second.squared_error || (first.squared_error == second.squared_error
        && first.mode < second.mode)
}

/// The candidates the encoder weighs, once sized and ordered, witness its choice.
proof fn lemma_best_choice_witness<F: Fn(&[u64], &[u64], u64) -> u64>(
    candidates: Seq<Candidate>,
    selected: int,
    minimum: int,
    preferred: u8,
    found_preferred: bool,
    costs: Seq<int>,
    samples: Seq<u8>,
    width: int,
    step: int,
    reference: Option<Seq<u8>>,
    prefer_temporal: bool,
    cost: F,
)
    requires
        candidates.len() == if reference is Some {
            5int
        } else {
            4int
        },
        costs.len() == 5,
        preferred == preferred_mode(prefer_temporal, reference is Some),
        forall|k: int|
            0 <= k < candidates.len() ==> {
                &&& (#[trigger] candidates[k]).mode == candidate_mode(k)
                &&& modeled_entropy_bytes(
                    fold_all(encode_residuals(samples, candidates[k].mode, width, step, samples_or_empty(reference))),
                    cost,
                    candidates[k].bytes as int,
                )
                &&& candidates[k].squared_error == mode_squared_error(
                    samples,
                    candidates[k].mode,
                    width,
                    step,
                    samples_or_empty(reference),
                )
                &&& costs[candidates[k].mode as int] == candidates[k].bytes
                &&& minimum <= candidates[k].bytes
            },
        0 <= selected < candidates.len(),
        candidates[selected].bytes == minimum,
        found_preferred ==> candidates[selected].mode == preferred,
        !found_preferred ==> forall|j: int|
            0 <= j < candidates.len() ==> !((#[trigger] candidates[j]).mode == preferred && candidates[j].bytes
                == minimum),
        !found_preferred ==> forall|j: int|
            0 <= j < candidates.len() && j != selected && (#[trigger] candidates[j]).bytes == minimum
                ==> ranks_before(candidates[selected], candidates[j]),
    ensures
        best_tile_choice(candidates[selected].mode, samples, width, step, reference, prefer_temporal, cost),
{
    let has_reference = reference is Some;
    let refs = samples_or_empty(reference);
    let mode = candidates[selected].mode;
    assert(candidates[selected].mode == candidate_mode(selected));
    assert forall|m: u8| #[trigger] offered_mode(m, has_reference) implies modeled_entropy_bytes(
        fold_all(encode_residuals(samples, m, width, step, refs)),
        cost,
        costs[m as int],
    ) by {
        let p = candidate_position(m);
        assert(candidates[p].mode == candidate_mode(p));
    }
    assert(modeled_mode_costs(costs, samples, width, step, reference, cost));
    assert forall|m: u8| #[trigger] offered_mode(m, has_reference) implies costs[mode as int] <= costs[m as int] by {
        let p = candidate_position(m);
        assert(candidates[p].mode == candidate_mode(p));
    }
    assert(offered_mode(preferred, has_reference));
    if costs[preferred as int] == costs[mode as int] && !found_preferred {
        let p = candidate_position(preferred);
        assert(candidates[p].mode == candidate_mode(p));
        assert(!(candidates[p].mode == preferred && candidates[p].bytes == minimum));
    }
    if mode != preferred {
        assert forall|m: u8|
            #[trigger] offered_mode(m, has_reference) && m != mode && costs[m as int] == costs[mode as int]
                implies mode_squared_error(samples, mode, width, step, refs) < mode_squared_error(
                samples,
                m,
                width,
                step,
                refs,
            ) || (mode_squared_error(samples, mode, width, step, refs) == mode_squared_error(
                samples,
                m,
                width,
                step,
                refs,
            ) && mode < m) by {
            let p = candidate_position(m);
            assert(candidates[p].mode == candidate_mode(p));
            assert(p != selected);
            assert(ranks_before(candidates[selected], candidates[p]));
        }
    }
    assert(offered_mode(mode, has_reference));
}

/// Codes one tile with every spatial predictor, and with temporal prediction when a
/// reference is given, and keeps the coding with the fewest modeled bytes. Ties go to
/// the preferred mode (temporal when `prefer_temporal`, else Paeth), then to the
/// smallest squared error, then to the smallest mode number.
pub fn encode_best_tile<F: Fn(&[u64], &[u64], u64) -> u64>(
    samples: &[u8],
    reference: Option<&[u8]>,
    width: usize,
    quantizer: &Quantizer,
    prefer_temporal: bool,
    cost: &F,
) -> (tile: EncodedTile)
    requires
        quantizer.wf(),
        width >= 1,
        samples.len() <= 0x4000_0000,
        reference matches Some(r) ==> r.len() == samples.len(),
        cost_model_total(*cost),
    ensures
        tile_encodes(tile, samples@, width as int, quantizer.spec_step(), reference_view(reference)),
        best_tile_choice(
            tile.prediction_mode,
            samples@,
            width as int,
            quantizer.spec_step(),
            reference_view(reference),
            prefer_temporal,
            *cost,
        ),
        tile.payload.len() <= 3 * samples.len(),
{
    let empty: Vec<u8> = Vec::new();
    let reference_samples: &[u8] = match reference {
        Some(r) => r,
        None => empty.as_slice(),
    };
    let ghost step = quantizer.spec_step();
    let ghost refs = reference_seq(reference);
    let ghost has_reference = reference is Some;
    let ghost mut costs: Seq<int> = Seq::new(5, |i: int| 0);
    proof {
        quantizer.lemma_bounds();
    }
    let mut candidates: Vec<Candidate> = Vec::new();
    let mut index: usize = 0;
    while index < 5
        invariant
            quantizer.wf(),
            width >= 1,
            samples.len() <= 0x4000_0000,
            cost_model_total(*cost),
            step == quantizer.spec_step(),
            step >= 1,
            refs == reference_seq(reference),
            has_reference == (reference is Some),
            reference_samples@ == refs,
            reference matches Some(r) ==> r.len() == samples.len(),
            index <= 5,
            index <= 4 ==> candidates.len() == index,
            index == 5 ==> candidates.len() == if has_reference {
                5int
            } else {
                4int
            },
            costs.len() == 5,
            forall|k: int|
                0 <= k < candidates.len() ==> {
                    &&& (#[trigger] candidates@[k]).mode == candidate_mode(k)
                    &&& candidates@[k].folded@ == fold_all(
                        encode_residuals(samples@, candidates@[k].mode, width as int, step, refs),
                    )
                    &&& candidates@[k].folded.len() <= 0x4000_0000
                    &&& forall|i: int|
                        0 <= i < candidates@[k].folded.len() ==> #[trigger] candidates@[k].folded@[i]
                            <= 510
                    &&& modeled_entropy_bytes(candidates@[k].folded@, *cost, candidates@[k].bytes as int)
                    &&& candidates@[k].squared_error == mode_squared_error(
                        samples@,
                        candidates@[k].mode,
                        width as int,
                        step,
                        refs,
                    )
                    &&& costs[candidates@[k].mode as int] == candidates@[k].bytes
                },
        decreases 5 - index,
    {
        let mode = if index == 0 {
            PREDICT_SPATIAL
        } else if index == 1 {
            PREDICT_AVERAGE
        } else if index == 2 {
            PREDICT_CLAMP_GRADIENT
        } else if index == 3 {
            PREDICT_HALF_GRADIENT
        } else {
            PREDICT_TEMPORAL
        };
        if index < 4 || reference.is_some() {
            let predicted = predict_tile(samples, width, mode, quantizer, reference_samples);
            proof {
                crate::residual::lemma_encode_reconstruct(samples@, mode, width as int, step, refs);
            }
            let (_, bytes) = tile_entropy_cost(predicted.folded.as_slice(), cost);
            proof {
                costs = costs.update(mode as int, bytes as int);
            }
            candidates.push(
                Candidate { mode, folded: predicted.folded, squared_error: predicted.squared_error, bytes },
            );
        }
        index = index + 1;
    }
    let mut minimum = candidates[0].bytes;
    let mut k: usize = 1;
    while k < candidates.len()
        invariant
            1 <= k <= candidates.len(),
            exists|j: int| 0 <= j < k && minimum == #[trigger] candidates@[j].bytes,
            forall|j: int| 0 <= j < k ==> minimum <= #[trigger] candidates@[j].bytes,
        decreases candidates.len() - k,
    {
        if candidates[k].bytes < minimum {
            minimum = candidates[k].bytes;
        }
        k = k + 1;
    }
    let preferred = if prefer_temporal && reference.is_some() {
        PREDICT_TEMPORAL
    } else {
        PREDICT_SPATIAL
    };
    let mut selected: usize = candidates.len();
    let mut k: usize = 0;
    while k < candidates.len()
        invariant
            k <= candidates.len(),
            selected == candidates.len() || (selected < k && candidates@[selected as int].mode == preferred
                && candidates@[selected as int].bytes == minimum),
            selected == candidates.len() ==> forall|j: int|
                0 <= j < k ==> !((#[trigger] candidates@[j]).mode == preferred && candidates@[j].bytes
                    == minimum),
        decreases candidates.len() - k,
    {
        if selected == candidates.len() && candidates[k].mode == preferred && candidates[k].bytes == minimum {
            selected = k;
        }
        k = k + 1;
    }
    let found_preferred = selected < candidates.len();
    if !found_preferred {
        let mut k: usize = 0;
        while k < candidates.len()
            invariant
                k <= candidates.len(),
                candidates.len() <= 5,
                selected <= candidates.len(),
                forall|j: int| 0 <= j < candidates.len() ==> (#[trigger] candidates@[j]).mode == candidate_mode(j),
                selected == candidates.len() ==> forall|j: int|
                    0 <= j < k ==> (#[trigger] candidates@[j]).bytes != minimum,
                selected < candidates.len() ==> {
                    &&& selected < k
                    &&& candidates@[selected as int].bytes == minimum
                    &&& forall|j: int|
                        0 <= j < k && j != selected && (#[trigger] candidates@[j]).bytes == minimum
                            ==> ranks_before(candidates@[selected as int], candidates@[j])
                },
            decreases candidates.len() - k,
        {
            if candidates[k].bytes == minimum {
                if selected == candidates.len() || candidates[k].squared_error
                    < candidates[selected].squared_error || (candidates[k].squared_error
                    == candidates[selected].squared_error && candidates[k].mode
                    < candidates[selected].mode) {
                    selected = k;
                }
            }
            k = k + 1;
        }
    }
    let ghost before = candidates@;
    let chosen = candidates.remove(selected);
    proof {
        assert(chosen == before[selected as int]);
        crate::residual::lemma_encode_reconstruct(samples@, chosen.mode, width as int, step, refs);
        assert(refs == samples_or_empty(reference_view(reference)));
        lemma_best_choice_witness(before, selected as int, minimum as int, preferred, found_preferred, costs,
            samples@, width as int, step, reference_view(reference), prefer_temporal, *cost);
    }
    let tile = finish_entropy(chosen.folded, chosen.mode, cost);
    tile
}


/// Codes one tile with temporal prediction when a reference is given, else with Paeth.
pub fn encode_tile<F: Fn(&[u64], &[u64], u64) -> u64>(
    samples: &[u8],
    reference: Option<&[u8]>,
    width: usize,
    quantizer: &Quantizer,
    cost: &F,
) -> (tile: EncodedTile)
    requires
        quantizer.wf(),
        width >= 1,
        samples.len() <= 0x4000_0000,
        reference matches Some(r) ==> r.len() == samples.len(),
        cost_model_total(*cost),
    ensures
        tile_encodes(tile, samples@, width as int, quantizer.spec_step(), reference_view(reference)),
        tile.prediction_mode == if reference is Some {
            PREDICT_TEMPORAL
        } else {
            PREDICT_SPATIAL
        },
        selected_coding(
            tile.entropy_mode,
            tile.payload.len() as int,
            fold_all(
                encode_residuals(
                    samples@,
                    tile.prediction_mode,
                    width as int,
                    quantizer.spec_step(),
                    samples_or_empty(reference_view(reference)),
                ),
            ),
        ),
{
    let empty: Vec<u8> = Vec::new();
    let (mode, reference_samples): (u8, &[u8]) = match reference {
        Some(r) => (PREDICT_TEMPORAL, r),
        None => (PREDICT_SPATIAL, empty.as_slice()),
    };
    let step = quantizer.step();
    proof {
        crate::residual::lemma_encode_reconstruct(samples@, mode, width as int, step as int, reference_samples@);
    }
    let predicted = predict_tile(samples, width, mode, quantizer, reference_samples);
    finish_entropy(predicted.folded, mode, cost)
}

/// Sum of absolute differences of two sample sequences over the first one's length.
pub open spec fn abs_diff_sum(current: Seq<u8>, previous: Seq<u8>) -> int
    decreases current.len(),
{
    if current.len() == 0 {
        0
    } else {
        abs_diff_sum(current.drop_last(), previous) + crate::predict::abs(
            current.last() - previous[current.len() - 1],
        )
    }
}

/// Motion gate: temporal prediction is preferred when the mean absolute luma
/// difference from the reference is at most 5.
pub fn temporal_prediction_is_promising(frame: &Frame, reference: &Frame) -> (promising: bool)
    requires
        frame.planes.len() >= 1,
        reference.planes.len() >= 1,
        frame.planes@[0].data.len() == reference.planes@[0].data.len(),
        frame.planes@[0].data.len() <= 0x4000_0000,
    ensures
        promising == (abs_diff_sum(frame.planes@[0].data@, reference.planes@[0].data@) <= 5
            * frame.planes@[0].data.len()),
{
    let current = &frame.planes[0].data;
    let previous = &reference.planes[0].data;
    let mut total: u64 = 0;
    let mut index: usize = 0;
    while index < current.len()
        invariant
            current.len() == previous.len(),
            current.len() <= 0x4000_0000,
            index <= current.len(),
            total == abs_diff_sum(current@.take(index as int), previous@),
            total <= 255 * index,
        decreases current.len() - index,
    {
        proof {
            assert(current@.take(index + 1).drop_last() =~= current@.take(index as int));
        }
        let a = current[index];
        let b = previous[index];
        let difference = if a >= b {
            a - b
        } else {
            b - a
        };
        total = total + difference as u64;
        index = index + 1;
    }
    proof {
        assert(current@.take(index as int) =~= current@);
    }
    total <= current.len() as u64 * 5
}

/// Checks that a reference frame is valid and has the frame's dimensions and format.
pub fn validate_reference(frame: &Frame, reference: &Frame) -> (r: Result<(), CodecError>)
    ensures
        r is Ok <==> frame.valid() && reference.valid() && frame.width == reference.width
            && frame.height == reference.height && frame.format == reference.format,
        frame.valid() && reference.valid() && !(frame.width == reference.width && frame.height
            == reference.height && frame.format == reference.format) ==> r == Err::<(), CodecError>(
            CodecError::InvalidInput("reference dimensions or format do not match frame"),
        ),
{
    frame.validate()?;
    reference.validate()?;
    if frame.width != reference.width || frame.height != reference.height || frame.format
        != reference.format {
        return Err(CodecError::InvalidInput("reference dimensions or format do not match frame"));
    }
    Ok(())
}

/// Checks that a reference frame is valid and matches a stream's dimensions and format.
pub fn validate_reference_info(info: &StreamInfo, reference: &Frame) -> (r: Result<(), CodecError>)
    ensures
        r is Ok <==> reference.valid() && info.width == reference.width && info.height
            == reference.height && info.format == reference.format,
        reference.valid() && !(info.width == reference.width && info.height == reference.height
            && info.format == reference.format) ==> r == Err::<(), CodecError>(
            CodecError::InvalidInput("reference dimensions or format do not match stream"),
        ),
{
    reference.validate()?;
    if info.width != reference.width || info.height != reference.height || info.format
        != reference.format {
        return Err(CodecError::InvalidInput("reference dimensions or format do not match stream"));
    }
    Ok(())
}

/// The header facts of a stream that encodes `frame` with `options`.
pub open spec fn encoded_header(frame: &Frame, options: CodecOptions) -> Seq<u8> {
    header_bytes(
        VERSION,
        frame.format.spec_code(),
        options.quality,
        frame.width,
        frame.height,
        options.tile_width,
        options.tile_height,
        frame.frame_rate,
        spec_tiles(
            frame.width,
            frame.height,
            frame.format.spec_is_grayscale(),
            options.tile_width,
            options.tile_height,
        ).len(),
    )
}

/// A reference frame usable for a frame: valid, with the frame's dimensions and format.
pub open spec fn reference_fits(frame: &Frame, reference: Option<&Frame>) -> bool {
    reference matches Some(r) ==> r.valid() && r.width == frame.width && r.height == frame.height
        && r.format == frame.format
}

/// Samples of tile `tile` of a frame.
pub open spec fn source_tile(frame: &Frame, tile: Tile) -> Seq<u8> {
    tile_samples(frame.planes@[tile.plane as int].data@, frame.planes@[tile.plane as int].width as int, tile)
}

/// The encoder's reconstruction of `samples` with prediction mode `mode`.
pub open spec fn encoder_reconstruction(
    samples: Seq<u8>,
    mode: u8,
    width: int,
    step: int,
    reference: Option<Seq<u8>>,
) -> Seq<u8> {
    reconstruct(
        encode_residuals(samples, mode, width, step, samples_or_empty(reference)),
        mode,
        width,
        step,
        samples_or_empty(reference),
    )
}

/// Directory entry `entry` lists `tile` of `frame` with a prediction mode the decoder
/// accepts, and `expected` is the encoder's reconstruction of that tile.
pub open spec fn tile_source_coded(
    entry: DirectoryEntry,
    expected: Seq<u8>,
    frame: &Frame,
    tile: Tile,
    step: int,
    reference: Option<&Frame>,
) -> bool {
    &&& entry.tile == tile
    &&& is_spatial_mode(entry.prediction_mode) || (entry.prediction_mode == PREDICT_TEMPORAL && reference is Some)
    &&& expected == encoder_reconstruction(
        source_tile(frame, tile),
        entry.prediction_mode,
        tile.width as int,
        step,
        reference_tile(reference, tile),
    )
}

/// `info` and `entries` describe `frame` coded with `options`: its frame facts, its
/// canonical tiles in order, and, in `expected[k]`, the encoder's reconstruction of
/// tile `k` with that tile's prediction mode against `reference`.
pub open spec fn source_coded(
    info: StreamInfo,
    entries: Seq<DirectoryEntry>,
    expected: Seq<Seq<u8>>,
    frame: &Frame,
    options: CodecOptions,
    reference: Option<&Frame>,
) -> bool {
    let tiles = spec_tiles(
        frame.width,
        frame.height,
        frame.format.spec_is_grayscale(),
        options.tile_width,
        options.tile_height,
    );
    let step = spec_quantization_step(options.quality);
    &&& frame.valid() && options.valid() && reference_fits(frame, reference)
    &&& info.width == frame.width && info.height == frame.height && info.format == frame.format
    &&& info.frame_rate == frame.frame_rate && info.quality == options.quality
    &&& info.tile_width == options.tile_width && info.tile_height == options.tile_height
    &&& entries.len() == tiles.len() && expected.len() == tiles.len()
    &&& forall|k: int|
        0 <= k < tiles.len() ==> #[trigger] tile_source_coded(entries[k], expected[k], frame, tiles[k], step, reference)
}

/// `bytes` is a stream of `frame` coded with `options` against `reference` whose
/// tiles decode to the encoder's reconstructions.
pub open spec fn encodes(bytes: Seq<u8>, frame: &Frame, options: CodecOptions, reference: Option<&Frame>) -> bool {
    exists|info: StreamInfo, version: u8, entries: Seq<DirectoryEntry>, expected: Seq<Seq<u8>>|
        #[trigger] stream_decodes(bytes, info, version, entries, reference, expected) && source_coded(
            info,
            entries,
            expected,
            frame,
            options,
            reference,
        )
}

/// `coded` is a coding of tile `tile` of `frame` against `reference`.
pub open spec fn tile_coded(coded: EncodedTile, frame: &Frame, tile: Tile, step: int, reference: Option<&Frame>) -> bool {
    tile_encodes(coded, source_tile(frame, tile), tile.width as int, step, reference_tile(reference, tile))
}

/// The first `count` coded tiles code the canonical tiles of `frame`.
pub open spec fn tiles_coded(
    payloads: Seq<EncodedTile>,
    frame: &Frame,
    tiles: Seq<Tile>,
    step: int,
    reference: Option<&Frame>,
    count: int,
) -> bool {
    forall|k: int| 0 <= k < count ==> #[trigger] tile_coded(payloads[k], frame, tiles[k], step, reference)
}

proof fn lemma_tiles_coded_push(
    before: Seq<EncodedTile>,
    coded: EncodedTile,
    frame: &Frame,
    tiles: Seq<Tile>,
    step: int,
    reference: Option<&Frame>,
    count: int,
)
    requires
        0 <= count < tiles.len(),
        before.len() == count,
        tiles_coded(before, frame, tiles, step, reference, count),
        tile_coded(coded, frame, tiles[count], step, reference),
    ensures
        tiles_coded(before.push(coded), frame, tiles, step, reference, count + 1),
{
    assert forall|k: int| 0 <= k < count + 1 implies #[trigger] tile_coded(
        before.push(coded)[k],
        frame,
        tiles[k],
        step,
        reference,
    ) by {
        if k < count {
            assert(before.push(coded)[k] == before[k]);
        }
    }
}

/// The payload of an encoded tile, found where its entry points,
/// decodes to the encoder's reconstruction of the tile.
proof fn lemma_encoded_tile_decodes(
    bytes: Seq<u8>,
    frame: &Frame,
    reference: Option<&Frame>,
    tile: Tile,
    coded: EncodedTile,
    entry: DirectoryEntry,
    step: int,
)
    requires
        frame.valid(),
        tile.plane < frame.planes.len(),
        tile_fits(
            tile,
            plane_dims(frame.width, frame.height, frame.format.spec_is_grayscale())[tile.plane as int].0 as int,
            plane_dims(frame.width, frame.height, frame.format.spec_is_grayscale())[tile.plane as int].1 as int,
        ),
        step >= 1,
        tile_coded(coded, frame, tile, step, reference),
        entry.tile == tile,
        entry.entropy_mode == coded.entropy_mode,
        entry.prediction_mode == coded.prediction_mode,
        entry.offset + entry.length <= bytes.len(),
        bytes.subrange(entry.offset as int, entry.offset + entry.length) == coded.payload@,
    ensures
        tile_decodes(
            bytes,
            entry,
            step,
            reference_tile(reference, tile),
            encoder_reconstruction(
                source_tile(frame, tile),
                coded.prediction_mode,
                tile.width as int,
                step,
                reference_tile(reference, tile),
            ),
        ),
{
    let dims = plane_dims(frame.width, frame.height, frame.format.spec_is_grayscale());
    let samples = source_tile(frame, tile);
    let refs = reference_tile(reference, tile);
    crate::model::lemma_frame_plane_bound(frame, tile.plane as int);
    assert(frame.planes@[tile.plane as int].shaped(dims[tile.plane as int].0, dims[tile.plane as int].1));
    assert(tile.width * tile.height <= dims[tile.plane as int].0 * dims[tile.plane as int].1) by (nonlinear_arith)
        requires
            tile.width <= dims[tile.plane as int].0,
            tile.height <= dims[tile.plane as int].1,
    ;
    assert(samples.len() <= 0x4000_0000);
    lemma_tile_round_trip(coded, samples, tile.width as int, step, refs);
    let f = fold_all(encode_residuals(samples, coded.prediction_mode, tile.width as int, step, samples_or_empty(refs)));
    assert(payload_codes(entry.entropy_mode, bytes.subrange(entry.offset as int, entry.offset + entry.length), f));
}

/// The stream that `encode_internal` assembles:
/// its header, directory and payloads describe `frame`, and every payload decodes to
/// the encoder's reconstruction.
#[verifier::rlimit(100)]
proof fn lemma_encoded_stream(
    bytes: Seq<u8>,
    frame: &Frame,
    options: CodecOptions,
    reference: Option<&Frame>,
    tiles: Seq<Tile>,
    payloads: Seq<EncodedTile>,
    step: int,
    header: Seq<u8>,
    payload_start: nat,
)
    requires
        frame.valid(),
        options.valid(),
        reference_fits(frame, reference),
        tiling_ok(
            frame.width,
            frame.height,
            frame.format.spec_is_grayscale(),
            options.tile_width,
            options.tile_height,
            true,
        ),
        tiles == spec_tiles(
            frame.width,
            frame.height,
            frame.format.spec_is_grayscale(),
            options.tile_width,
            options.tile_height,
        ),
        tiles_fit(tiles, plane_dims(frame.width, frame.height, frame.format.spec_is_grayscale())),
        payloads.len() == tiles.len(),
        header == encoded_header(frame, options),
        payload_start == HEADER_LEN + tiles.len() * DIRECTORY_ENTRY_LEN,
        bytes == header + directory_records(tiles, payloads, payload_start, tiles.len() as int) + payload_concat(
            payloads,
            tiles.len() as int,
        ),
        payload_start + payload_total(payloads, tiles.len() as int) <= usize::MAX,
        forall|j: int| 0 <= j < tiles.len() ==> (#[trigger] payloads[j]).payload.len() <= u32::MAX,
        step == spec_quantization_step(options.quality),
        tiles_coded(payloads, frame, tiles, step, reference, tiles.len() as int),
    ensures
        encodes(bytes, frame, options, reference),
{
    let n = tiles.len();
    let grayscale = frame.format.spec_is_grayscale();
    let dims = plane_dims(frame.width, frame.height, grayscale);
    lemma_directory_records_len(tiles, payloads, payload_start, n as int);
    lemma_payload_concat_len(payloads, n as int);
    assert(header.len() == HEADER_LEN) by {
        lemma_le_bytes_length(frame.width as nat, 4);
        lemma_le_bytes_length(frame.height as nat, 4);
        lemma_le_bytes_length(options.tile_width as nat, 2);
        lemma_le_bytes_length(options.tile_height as nat, 2);
        lemma_le_bytes_length(frame.frame_rate.numerator as nat, 4);
        lemma_le_bytes_length(frame.frame_rate.denominator as nat, 4);
        lemma_le_bytes_length(n as nat, 4);
    }
    let info = StreamInfo {
        width: frame.width,
        height: frame.height,
        format: frame.format,
        frame_rate: frame.frame_rate,
        quality: options.quality,
        tile_width: options.tile_width,
        tile_height: options.tile_height,
        tile_count: n as usize,
        zero_run_tiles: n as usize,
        rice_tiles: 0,
        block_pack_tiles: 0,
        spatial_tiles: n as usize,
        temporal_tiles: 0,
        encoded_bytes: bytes.len() as usize,
    };
    let entries = Seq::new(
        n,
        |k: int|
            DirectoryEntry {
                tile: tiles[k],
                entropy_mode: payloads[k].entropy_mode,
                prediction_mode: payloads[k].prediction_mode,
                offset: (payload_start + payload_total(payloads, k)) as usize,
                length: payloads[k].payload.len(),
            },
    );
    let expected = Seq::new(
        n,
        |k: int|
            encoder_reconstruction(
                source_tile(frame, tiles[k]),
                payloads[k].prediction_mode,
                tiles[k].width as int,
                step,
                reference_tile(reference, tiles[k]),
            ),
    );
    // Header.
    let plain = encoded_header(frame, options);
    assert(bytes.subrange(0, HEADER_LEN as int) =~= header);
    assert(bytes.subrange(0, 7) =~= plain.subrange(0, 7)) by {
        assert forall|i: int| 0 <= i < 7 implies #[trigger] bytes.subrange(0, 7)[i] == plain.subrange(0, 7)[i] by {
            assert(bytes[i] == header[i]);
        }
    }
    assert(bytes.subrange(8, HEADER_LEN as int) =~= plain.subrange(8, HEADER_LEN as int)) by {
        assert forall|i: int| 0 <= i < 24 implies #[trigger] bytes.subrange(8, HEADER_LEN as int)[i]
            == plain.subrange(8, HEADER_LEN as int)[i] by {
            assert(bytes[8 + i] == header[8 + i]);
        }
    }
    lemma_header_fields(
        bytes,
        VERSION,
        frame.format.spec_code(),
        options.quality,
        frame.width,
        frame.height,
        options.tile_width,
        options.tile_height,
        frame.frame_rate,
        n as nat,
    );
    assert(bytes[7] == header[7]);
    // Directory and payloads.
    assert forall|k: int| 0 <= k < n implies {
        &&& (#[trigger] entries[k]).tile == tiles[k]
        &&& entropy_mode_allowed(VERSION, entries[k].entropy_mode)
        &&& prediction_mode_allowed(VERSION, entries[k].prediction_mode)
        &&& entries[k].offset + entries[k].length <= bytes.len()
        &&& directory_entry_at(bytes, HEADER_LEN + k * DIRECTORY_ENTRY_LEN, entries[k])
        &&& bytes.subrange(entries[k].offset as int, entries[k].offset + entries[k].length) == payloads[k].payload@
    } by {
        lemma_encoded_entry(bytes, header, tiles, payloads, payload_start, dims, k);
        assert(tile_coded(payloads[k], frame, tiles[k], step, reference));
        assert(bytes[HEADER_LEN + k * DIRECTORY_ENTRY_LEN + 1] == entries[k].entropy_mode);
        assert(HEADER_LEN + k * DIRECTORY_ENTRY_LEN + 1 < bytes.len());
    }
    assert forall|k: int| 0 <= k < n - 1 implies #[trigger] entries[k + 1].offset == entries[k].offset
        + entries[k].length by {
        lemma_payload_concat_len(payloads, n as int);
        lemma_payload_concat_len(payloads, k);
        assert(payload_total(payloads, k + 1) <= payload_total(payloads, n as int));
        assert(payload_total(payloads, k + 1) == payload_total(payloads, k) + payloads[k].payload.len());
        assert(entries[k + 1].offset == payload_start + payload_total(payloads, k + 1));
        assert(entries[k].offset == payload_start + payload_total(payloads, k));
    }
    assert(layout_ok(bytes, info, VERSION, entries));
    // Tiles decode to the encoder's reconstructions.
    assert forall|k: int| 0 <= k < expected.len() implies tile_decodes(
        bytes,
        entries[k],
        spec_quantization_step(info.quality),
        reference_tile(reference, entries[k].tile),
        #[trigger] expected[k],
    ) by {
        assert(tile_coded(payloads[k], frame, tiles[k], step, reference));
        assert(entries[k].offset + entries[k].length <= bytes.len());
        assert(bytes.subrange(entries[k].offset as int, entries[k].offset + entries[k].length) == payloads[k].payload@);
        assert(tiles[k].plane < dims.len());
        lemma_encoded_tile_decodes(bytes, frame, reference, tiles[k], payloads[k], entries[k], step);
    }
    assert(stream_decodes(bytes, info, VERSION, entries, reference, expected));
    assert forall|k: int| 0 <= k < n implies #[trigger] tile_source_coded(
        entries[k],
        expected[k],
        frame,
        tiles[k],
        step,
        reference,
    ) by {
        assert(tile_coded(payloads[k], frame, tiles[k], step, reference));
        if entries[k].prediction_mode == PREDICT_TEMPORAL && !is_spatial_mode(entries[k].prediction_mode) {
            assert(reference_tile(reference, tiles[k]) is Some);
        }
    }
    assert(source_coded(info, entries, expected, frame, options, reference));
}

/// The first `count` coded tiles carry the prediction mode the encoder chooses for
/// the canonical tiles of `frame` (see `best_tile_choice`).
pub open spec fn tiles_chosen<F: Fn(&[u64], &[u64], u64) -> u64>(
    payloads: Seq<EncodedTile>,
    frame: &Frame,
    tiles: Seq<Tile>,
    step: int,
    reference: Option<&Frame>,
    prefer_temporal: bool,
    cost: F,
    count: int,
) -> bool {
    forall|k: int|
        #![trigger payloads[k]]
        0 <= k < count ==> best_tile_choice(
            payloads[k].prediction_mode,
            source_tile(frame, tiles[k]),
            tiles[k].width as int,
            step,
            reference_tile(reference, tiles[k]),
            prefer_temporal,
            cost,
        )
}

/// `bytes` is the header of `frame` coded with `options`, then the directory and the
/// payloads of its canonical tiles, each tile coded with the prediction mode the
/// encoder chooses against `reference` (see `best_tile_choice`).
pub open spec fn encodes_with_choices<F: Fn(&[u64], &[u64], u64) -> u64>(
    bytes: Seq<u8>,
    frame: &Frame,
    options: CodecOptions,
    reference: Option<&Frame>,
    prefer_temporal: bool,
    cost: F,
) -> bool {
    let tiles = spec_tiles(
        frame.width,
        frame.height,
        frame.format.spec_is_grayscale(),
        options.tile_width,
        options.tile_height,
    );
    let count = tiles.len() as int;
    let payload_start = (HEADER_LEN + count * DIRECTORY_ENTRY_LEN) as nat;
    exists|payloads: Seq<EncodedTile>|
        #[trigger] tiles_chosen(
            payloads,
            frame,
            tiles,
            spec_quantization_step(options.quality),
            reference,
            prefer_temporal,
            cost,
            count,
        ) && payloads.len() == count && bytes == encoded_header(frame, options) + directory_records(
            tiles,
            payloads,
            payload_start,
            count,
        ) + payload_concat(payloads, count)
}

#[verifier::rlimit(60)]
fn encode_internal<F: Fn(&[u64], &[u64], u64) -> u64>(
    frame: &Frame,
    reference: Option<&Frame>,
    prefer_temporal: bool,
    options: CodecOptions,
    cost: &F,
) -> (r: Result<Vec<u8>, CodecError>)
    requires
        cost_model_total(*cost),
        reference_fits(frame, reference),
    ensures
        r matches Ok(bytes) ==> {
            &&& frame.valid() && options.valid()
            &&& tiling_ok(
                frame.width,
                frame.height,
                frame.format.spec_is_grayscale(),
                options.tile_width,
                options.tile_height,
                true,
            )
            &&& bytes@.len() >= HEADER_LEN
            &&& bytes@.subrange(0, HEADER_LEN as int) == encoded_header(frame, options)
            &&& encodes(bytes@, frame, options, reference)
            &&& encodes_with_choices(bytes@, frame, options, reference, prefer_temporal, *cost)
        },
        !frame.valid() || !options.valid() ==> r is Err,
        frame.valid() && options.valid() && !tiling_ok(
            frame.width,
            frame.height,
            frame.format.spec_is_grayscale(),
            options.tile_width,
            options.tile_height,
            true,
        ) ==> r matches Err(CodecError::LimitExceeded(_)),
        frame.valid() && options.valid() && tiling_ok(
            frame.width,
            frame.height,
            frame.format.spec_is_grayscale(),
            options.tile_width,
            options.tile_height,
            true,
        ) ==> r is Ok,
{
    frame.validate()?;
    options.validate()?;
    let tiles = expected_tiles(
        frame.width,
        frame.height,
        frame.format,
        options.tile_width,
        options.tile_height,
        true,
    )?;
    let quantizer = Quantizer::new(options.quantization_step());
    let ghost step = quantizer.spec_step();
    let ghost dims = plane_dims(frame.width, frame.height, frame.format.spec_is_grayscale());
    proof {
        lemma_spec_tiles_fit(
            frame.width,
            frame.height,
            frame.format.spec_is_grayscale(),
            options.tile_width,
            options.tile_height,
        );
    }
    let mut payloads: Vec<EncodedTile> = Vec::with_capacity(tiles.len());
    let mut index: usize = 0;
    while index < tiles.len()
        invariant
            frame.valid(),
            reference_fits(frame, reference),
            cost_model_total(*cost),
            quantizer.wf(),
            step == quantizer.spec_step(),
            dims == plane_dims(frame.width, frame.height, frame.format.spec_is_grayscale()),
            tiles_fit(tiles@, dims),
            index <= tiles.len(),
            payloads.len() == index,
            tiles_coded(payloads@, frame, tiles@, step, reference, index as int),
            tiles_chosen(payloads@, frame, tiles@, step, reference, prefer_temporal, *cost, index as int),
            payload_total(payloads@, index as int) <= 3 * area_sum(tiles@, index as int),
        decreases tiles.len() - index,
    {
        let tile = tiles[index];
        let plane = &frame.planes[tile.plane];
        proof {
            assert(tiles@[index as int] == tile);
            assert(frame.planes@[tile.plane as int].shaped(dims[tile.plane as int].0, dims[tile.plane as int].1));
        }
        let samples = extract_tile(plane.data.as_slice(), plane.width, plane.height, tile);
        let reference_samples: Option<Vec<u8>> = match reference {
            Some(r) => {
                let reference_plane = &r.planes[tile.plane];
                proof {
                    assert(r.planes@[tile.plane as int].shaped(dims[tile.plane as int].0, dims[tile.plane as int].1));
                }
                Some(extract_tile(reference_plane.data.as_slice(), reference_plane.width, reference_plane.height, tile))
            },
            None => None,
        };
        let reference_slice: Option<&[u8]> = match &reference_samples {
            Some(v) => Some(v.as_slice()),
            None => None,
        };
        proof {
            assert(tile.width * tile.height <= dims[tile.plane as int].0 * dims[tile.plane as int].1) by (nonlinear_arith)
                requires
                    tile.width <= dims[tile.plane as int].0,
                    tile.height <= dims[tile.plane as int].1,
            ;
            assert(dims[tile.plane as int].0 * dims[tile.plane as int].1 == frame.planes@[tile.plane as int].data.len());
            assert(frame.planes@[tile.plane as int].data.len() <= crate::model::MAX_FRAME_BYTES) by {
                crate::model::lemma_frame_plane_bound(frame, tile.plane as int);
            }
            assert(samples@ == source_tile(frame, tile));
            assert(reference_view(reference_slice) == reference_tile(reference, tile));
        }
        let encoded = encode_best_tile(
            samples.as_slice(),
            reference_slice,
            tile.width as usize,
            &quantizer,
            prefer_temporal,
            cost,
        );
        let ghost before = payloads@;
        proof {
            lemma_tiles_coded_push(before, encoded, frame, tiles@, step, reference, index as int);
            assert(payloads@.push(encoded)[index as int] == encoded);
            assert forall|j: int| 0 <= j < index implies #[trigger] payloads@.push(encoded)[j] == before[j] by {}
            lemma_payload_total_push(before, encoded);
            assert(samples.len() == tile_area(tiles@[index as int]));
        }
        payloads.push(encoded);
        index = index + 1;
    }
    let tile_count = tiles.len();
    proof {
        lemma_spec_tiles_area(
            frame.width,
            frame.height,
            frame.format.spec_is_grayscale(),
            options.tile_width,
            options.tile_height,
        );
        lemma_payload_concat_len(payloads@, tile_count as int);
        assert(payload_total(payloads@, tile_count as int) <= 3 * crate::model::MAX_FRAME_BYTES);
        assert(tile_count <= MAX_TILES);
    }
    let directory_bytes = tile_count * DIRECTORY_ENTRY_LEN;
    let payload_start = HEADER_LEN + directory_bytes;
    let mut payload_bytes: usize = 0;
    let mut k: usize = 0;
    while k < payloads.len()
        invariant
            k <= payloads.len(),
            payloads.len() == tile_count,
            payload_bytes == payload_total(payloads@, k as int),
            payload_total(payloads@, tile_count as int) <= 3 * crate::model::MAX_FRAME_BYTES,
            forall|j: int| 0 <= j <= tile_count ==> #[trigger] payload_total(payloads@, j) <= payload_total(
                payloads@,
                tile_count as int,
            ),
        decreases payloads.len() - k,
    {
        proof {
            assert(payload_total(payloads@, k + 1) <= payload_total(payloads@, tile_count as int));
        }
        if payload_bytes > usize::MAX - payloads[k].payload.len() {
            return Err(CodecError::LimitExceeded("stream is too large"));
        }
        payload_bytes = payload_bytes + payloads[k].payload.len();
        k = k + 1;
    }
    if payload_start > usize::MAX - payload_bytes {
        return Err(CodecError::LimitExceeded("stream is too large"));
    }
    let mut output: Vec<u8> = Vec::with_capacity(payload_start + payload_bytes);
    output.push(70);
    output.push(86);
    output.push(73);
    output.push(68);
    output.push(VERSION);
    output.push(frame.format.code());
    output.push(options.quality);
    output.push(0);
    put_u32(&mut output, frame.width);
    put_u32(&mut output, frame.height);
    put_u16(&mut output, options.tile_width);
    put_u16(&mut output, options.tile_height);
    put_u32(&mut output, frame.frame_rate.numerator);
    put_u32(&mut output, frame.frame_rate.denominator);
    put_u32(&mut output, tile_count as u32);
    let ghost header = output@;
    proof {
        lemma_le_bytes_length(frame.width as nat, 4);
        lemma_le_bytes_length(frame.height as nat, 4);
        lemma_le_bytes_length(options.tile_width as nat, 2);
        lemma_le_bytes_length(options.tile_height as nat, 2);
        lemma_le_bytes_length(frame.frame_rate.numerator as nat, 4);
        lemma_le_bytes_length(frame.frame_rate.denominator as nat, 4);
        lemma_le_bytes_length(tile_count as nat, 4);
        assert(header =~= encoded_header(frame, options));
        assert(header.len() == HEADER_LEN);
        lemma_directory_records_len(tiles@, payloads@, payload_start as nat, 0);
        assert(output@ =~= header + directory_records(tiles@, payloads@, payload_start as nat, 0));
    }
    let mut offset: usize = payload_start;
    let mut k: usize = 0;
    while k < tiles.len()
        invariant
            payloads.len() == tiles.len(),
            tiles_fit(tiles@, dims),
            dims.len() <= 3,
            k <= tiles.len(),
            header.len() == HEADER_LEN,
            output@ == header + directory_records(tiles@, payloads@, payload_start as nat, k as int),
            offset == payload_start + payload_total(payloads@, k as int),
            payload_start + payload_total(payloads@, tiles.len() as int) <= usize::MAX,
            forall|j: int| 0 <= j < k ==> (#[trigger] payloads@[j]).payload.len() <= u32::MAX,
            payload_total(payloads@, tiles.len() as int) <= 3 * crate::model::MAX_FRAME_BYTES,
        decreases tiles.len() - k,
    {
        let tile = tiles[k];
        let encoded = &payloads[k];
        proof {
            lemma_payload_concat_len(payloads@, tiles.len() as int);
            assert(payload_total(payloads@, k + 1) <= payload_total(payloads@, tiles.len() as int));
            assert(payload_total(payloads@, k + 1) == payload_total(payloads@, k as int) + payloads@[k as int].payload.len());
            lemma_payload_concat_len(payloads@, k as int);
            assert(encoded.payload.len() <= 3 * crate::model::MAX_FRAME_BYTES);
        }
        if encoded.payload.len() > u32::MAX as usize {
            return Err(CodecError::LimitExceeded("tile payload is too large"));
        }
        let ghost before = output@;
        proof {
            assert(tiles@[k as int] == tile);
            assert(payloads@[k as int] == *encoded);
        }
        output.push(tile.plane as u8);
        output.push(encoded.entropy_mode);
        output.push(encoded.prediction_mode);
        output.push(0);
        put_u32(&mut output, tile.x);
        put_u32(&mut output, tile.y);
        put_u32(&mut output, tile.width);
        put_u32(&mut output, tile.height);
        put_u64(&mut output, offset as u64);
        put_u32(&mut output, encoded.payload.len() as u32);
        proof {
            assert(output@ =~= before + directory_record(tile, *encoded, offset as nat));
            assert(header + directory_records(tiles@, payloads@, payload_start as nat, k + 1) =~= before
                + directory_record(tile, *encoded, offset as nat));
        }
        offset = offset + encoded.payload.len();
        k = k + 1;
    }
    let ghost directory = directory_records(tiles@, payloads@, payload_start as nat, tiles.len() as int);
    proof {
        assert(output@ =~= header + directory + payload_concat(payloads@, 0));
    }
    let mut k: usize = 0;
    while k < payloads.len()
        invariant
            k <= payloads.len(),
            output@ == header + directory + payload_concat(payloads@, k as int),
        decreases payloads.len() - k,
    {
        let payload = &payloads[k].payload;
        let ghost start_output = output@;
        let mut b: usize = 0;
        proof {
            assert(output@ =~= start_output + payload@.take(0));
        }
        while b < payload.len()
            invariant
                b <= payload.len(),
                output@ == start_output + payload@.take(b as int),
            decreases payload.len() - b,
        {
            output.push(payload[b]);
            proof {
                assert(output@ =~= start_output + payload@.take(b + 1));
            }
            b = b + 1;
        }
        proof {
            assert(payload@.take(b as int) =~= payload@);
            assert(payloads@[k as int].payload@ == payload@);
            assert(output@ =~= header + directory + payload_concat(payloads@, k + 1));
        }
        k = k + 1;
    }
    proof {
        assert(output@.subrange(0, HEADER_LEN as int) =~= header);
        assert(tiles_chosen(
            payloads@,
            frame,
            tiles@,
            spec_quantization_step(options.quality),
            reference,
            prefer_temporal,
            *cost,
            tiles.len() as int,
        ));
        lemma_encoded_stream(
            output@,
            frame,
            options,
            reference,
            tiles@,
            payloads@,
            step,
            header,
            payload_start as nat,
        );
    }
    Ok(output)
}

/// Encodes an intra frame; the stream encodes the frame (see `encodes`), each tile
/// with the prediction mode of fewest modeled bytes (see `encodes_with_choices`).
pub fn encode<F: Fn(&[u64], &[u64], u64) -> u64>(frame: &Frame, options: CodecOptions, cost: &F) -> (r:
    Result<Vec<u8>, CodecError>)
    requires
        cost_model_total(*cost),
    ensures
        r matches Ok(bytes) ==> {
            &&& frame.valid() && options.valid()
            &&& bytes@.len() >= HEADER_LEN
            &&& bytes@.subrange(0, HEADER_LEN as int) == encoded_header(frame, options)
            &&& encodes(bytes@, frame, options, None)
            &&& encodes_with_choices(bytes@, frame, options, None, false, *cost)
        },
        !frame.valid() || !options.valid() ==> r is Err,
        r is Ok <==> frame.valid() && options.valid() && tiling_ok(
            frame.width,
            frame.height,
            frame.format.spec_is_grayscale(),
            options.tile_width,
            options.tile_height,
            true,
        ),
{
    encode_internal(frame, None, false, options, cost)
}

/// Encodes a predicted frame using the previously reconstructed frame. The reference
/// must be the decoder output for the preceding coded frame, so that lossy encoder
/// and decoder state cannot drift. Temporal prediction is offered for every tile
/// and preferred on ties when the luma motion gate passes.
pub fn encode_with_reference<F: Fn(&[u64], &[u64], u64) -> u64>(
    frame: &Frame,
    reference: &Frame,
    options: CodecOptions,
    cost: &F,
) -> (r: Result<Vec<u8>, CodecError>)
    requires
        cost_model_total(*cost),
    ensures
        r matches Ok(bytes) ==> {
            &&& frame.valid() && options.valid() && reference.valid()
            &&& reference.width == frame.width && reference.height == frame.height
            &&& reference.format == frame.format
            &&& bytes@.len() >= HEADER_LEN
            &&& bytes@.subrange(0, HEADER_LEN as int) == encoded_header(frame, options)
            &&& encodes(bytes@, frame, options, Some(reference))
            &&& encodes_with_choices(
                bytes@,
                frame,
                options,
                Some(reference),
                abs_diff_sum(frame.planes@[0].data@, reference.planes@[0].data@) <= 5
                    * frame.planes@[0].data.len(),
                *cost,
            )
        },
        !frame.valid() || !reference.valid() || reference.width != frame.width || reference.height
            != frame.height || reference.format != frame.format ==> r is Err,
        r is Ok <==> frame.valid() && reference.valid() && reference.width == frame.width && reference.height
            == frame.height && reference.format == frame.format && options.valid() && tiling_ok(
            frame.width,
            frame.height,
            frame.format.spec_is_grayscale(),
            options.tile_width,
            options.tile_height,
            true,
        ),
{
    validate_reference(frame, reference)?;
    proof {
        crate::model::lemma_frame_plane_bound(frame, 0);
        crate::model::lemma_frame_plane_bound(reference, 0);
    }
    let prefer_temporal = temporal_prediction_is_promising(frame, reference);
    encode_internal(frame, Some(reference), prefer_temporal, options, cost)
}


// ---------------------------------------------------------------------------
// Decoder
// ---------------------------------------------------------------------------

/// A decoded frame with the dimensions, format and frame rate that `bytes` declares.
pub open spec fn frame_matches_header(bytes: Seq<u8>, frame: Frame) -> bool {
    &&& frame.valid()
    &&& frame.width == le_value(bytes, 8, 4)
    &&& frame.height == le_value(bytes, 12, 4)
    &&& frame.format.spec_code() == bytes[5]
    &&& frame.frame_rate.numerator == le_value(bytes, 20, 4)
    &&& frame.frame_rate.denominator == le_value(bytes, 24, 4)
}

/// Reference samples of `tile` in `reference`, when given.
pub open spec fn reference_tile(reference: Option<&Frame>, tile: Tile) -> Option<Seq<u8>> {
    match reference {
        Some(r) => Some(
            tile_samples(r.planes@[tile.plane as int].data@, r.planes@[tile.plane as int].width as int, tile),
        ),
        None => None,
    }
}

/// The payload of directory entry `entry` is a coding of residual
/// symbols that reconstruct, with step `step` and the reference tile `reference`, to
/// `expected`.
pub open spec fn tile_decodes(
    bytes: Seq<u8>,
    entry: DirectoryEntry,
    step: int,
    reference: Option<Seq<u8>>,
    expected: Seq<u8>,
) -> bool {
    exists|f: Seq<u32>|
        #[trigger] payload_codes(entry.entropy_mode, bytes.subrange(entry.offset as int, entry.offset + entry.length), f)
            && f.len() == entry.tile.width * entry.tile.height && tile_symbols(f) && (is_spatial_mode(
            entry.prediction_mode,
        ) || (entry.prediction_mode == PREDICT_TEMPORAL && reference is Some)) && expected == reconstruct(
            unfold_all(f),
            entry.prediction_mode,
            entry.tile.width as int,
            step,
            samples_or_empty(reference),
        )
}

/// `bytes` has frame facts `info`, version `version` and directory `entries`, the
/// frame it describes is within the size limit, `reference` fits those frame facts,
/// and every tile's payload decodes to `expected[k]`.
pub open spec fn stream_decodes(
    bytes: Seq<u8>,
    info: StreamInfo,
    version: u8,
    entries: Seq<DirectoryEntry>,
    reference: Option<&Frame>,
    expected: Seq<Seq<u8>>,
) -> bool {
    &&& layout_ok(bytes, info, version, entries)
    &&& frame_samples(info.width, info.height, info.format.spec_is_grayscale()) <= MAX_FRAME_BYTES
    &&& reference matches Some(r) ==> r.valid() && r.width == info.width && r.height == info.height
        && r.format == info.format
    &&& expected.len() == entries.len()
    &&& forall|k: int|
        0 <= k < expected.len() ==> tile_decodes(
            bytes,
            entries[k],
            spec_quantization_step(info.quality),
            reference_tile(reference, entries[k].tile),
            #[trigger] expected[k],
        )
}

/// Tile `k` of `frame`, per the directory `entries`, holds `expected[k]`.
pub open spec fn frame_holds(frame: Frame, entries: Seq<DirectoryEntry>, expected: Seq<Seq<u8>>) -> bool {
    forall|k: int|
        0 <= k < expected.len() ==> tile_samples(
            frame.planes@[entries[k].tile.plane as int].data@,
            frame.planes@[entries[k].tile.plane as int].width as int,
            entries[k].tile,
        ) == #[trigger] expected[k]
}

/// Places decoded tiles into zeroed planes of the stream's dimensions: tile `k` of
/// the result holds `decoded[k]`. Fails only when the frame is over the size limit.
#[verifier::rlimit(40)]
fn assemble_frame(info: &StreamInfo, tiles: &Vec<Tile>, decoded: &Vec<Vec<u8>>) -> (r: Result<
    Frame,
    CodecError,
>)
    requires
        tiles@ == spec_tiles(
            info.width,
            info.height,
            info.format.spec_is_grayscale(),
            info.tile_width,
            info.tile_height,
        ),
        info.width >= 1 && info.height >= 1 && info.tile_width >= 1 && info.tile_height >= 1,
        tiling_ok(info.width, info.height, info.format.spec_is_grayscale(), info.tile_width, info.tile_height, false),
        tiles.len() == decoded.len(),
        forall|i: int|
            0 <= i < tiles.len() ==> (#[trigger] decoded@[i]).len() == tiles@[i].width
                * tiles@[i].height,
    ensures
        r matches Ok(frame) ==> {
            &&& frame.valid()
            &&& frame.width == info.width && frame.height == info.height
            &&& frame.format == info.format && frame.frame_rate == info.frame_rate
            &&& forall|k: int|
                0 <= k < tiles.len() ==> tile_samples(
                    frame.planes@[tiles@[k].plane as int].data@,
                    frame.planes@[tiles@[k].plane as int].width as int,
                    tiles@[k],
                ) == (#[trigger] decoded@[k])@
        },
        info.format.spec_bit_depth() == 8 && info.frame_rate.valid() && frame_samples(
            info.width,
            info.height,
            info.format.spec_is_grayscale(),
        ) <= MAX_FRAME_BYTES ==> r is Ok,
{
    let dims = plane_dimensions(info.width, info.height, info.format);
    let ghost grayscale = info.format.spec_is_grayscale();
    proof {
        lemma_spec_tiles_fit(info.width, info.height, grayscale, info.tile_width, info.tile_height);
    }
    let mut planes: Vec<Plane> = Vec::with_capacity(dims.len());
    let mut p: usize = 0;
    while p < dims.len()
        invariant
            dims@ == plane_dims(info.width, info.height, grayscale),
            grayscale == info.format.spec_is_grayscale(),
            tiles@ == spec_tiles(info.width, info.height, grayscale, info.tile_width, info.tile_height),
            info.width >= 1 && info.height >= 1 && info.tile_width >= 1 && info.tile_height >= 1,
            tiling_ok(info.width, info.height, grayscale, info.tile_width, info.tile_height, false),
            tiles.len() == decoded.len(),
            tiles_fit(tiles@, dims@),
            forall|i: int|
                0 <= i < tiles.len() ==> (#[trigger] decoded@[i]).len() == tiles@[i].width
                    * tiles@[i].height,
            p <= dims.len(),
            planes.len() == p,
            forall|i: int| 0 <= i < p ==> (#[trigger] planes@[i]).shaped(dims@[i].0, dims@[i].1),
            forall|k: int|
                0 <= k < tiles.len() && tiles@[k].plane < p ==> tile_samples(
                    planes@[tiles@[k].plane as int].data@,
                    planes@[tiles@[k].plane as int].width as int,
                    tiles@[k],
                ) == (#[trigger] decoded@[k])@,
        decreases dims.len() - p,
    {
        let (width, height) = dims[p];
        proof {
            assert(dims@[p as int] == (width, height));
            assert(width * height <= MAX_FRAME_BYTES);
        }
        let area = match checked_area(width, height) {
            Ok(area) => area,
            Err(_) => 0,
        };
        let mut data: Vec<u8> = vec![0u8; area];
        let mut t: usize = 0;
        while t < tiles.len()
            invariant
                tiles@ == spec_tiles(info.width, info.height, grayscale, info.tile_width, info.tile_height),
                info.width >= 1 && info.height >= 1 && info.tile_width >= 1 && info.tile_height >= 1,
                tiles.len() == decoded.len(),
                tiles_fit(tiles@, dims@),
                forall|i: int|
                    0 <= i < tiles.len() ==> (#[trigger] decoded@[i]).len() == tiles@[i].width
                        * tiles@[i].height,
                p < dims.len(),
                dims@[p as int] == (width, height),
                data.len() == width * height,
                t <= tiles.len(),
                forall|k: int|
                    0 <= k < t && tiles@[k].plane == p ==> tile_samples(data@, width as int, tiles@[k])
                        == (#[trigger] decoded@[k])@,
            decreases tiles.len() - t,
        {
            let tile = tiles[t];
            if tile.plane == p {
                let ghost before = data@;
                proof {
                    assert(tiles@[t as int] == tile);
                    assert(decoded@[t as int].len() == tile.width * tile.height);
                }
                write_tile(&mut data, width, height, tile, decoded[t].as_slice());
                proof {
                    assert forall|k: int|
                        0 <= k < t + 1 && tiles@[k].plane == p implies tile_samples(
                        data@,
                        width as int,
                        tiles@[k],
                    ) == (#[trigger] decoded@[k])@ by {
                        if k < t {
                            crate::tile_coding::lemma_write_keeps_other_tile(
                                before,
                                data@,
                                width,
                                height,
                                tiles@,
                                t as int,
                                k,
                                info.width,
                                info.height,
                                grayscale,
                                info.tile_width,
                                info.tile_height,
                            );
                        }
                    }
                }
            }
            t = t + 1;
        }
        let ghost plane_data = data@;
        planes.push(Plane { width, height, data });
        proof {
            assert forall|k: int|
                0 <= k < tiles.len() && tiles@[k].plane < p + 1 implies tile_samples(
                planes@[tiles@[k].plane as int].data@,
                planes@[tiles@[k].plane as int].width as int,
                tiles@[k],
            ) == (#[trigger] decoded@[k])@ by {
                if tiles@[k].plane == p {
                    assert(planes@[p as int].data@ == plane_data);
                }
            }
        }
        p = p + 1;
    }
    let frame = Frame {
        width: info.width,
        height: info.height,
        format: info.format,
        frame_rate: info.frame_rate,
        planes,
    };
    frame.validate()?;
    Ok(frame)
}

#[verifier::rlimit(40)]
/// The payload of `entry` in `bytes` codes residuals of its tile in the 8-bit range.
pub open spec fn payload_coded(bytes: Seq<u8>, entry: DirectoryEntry) -> bool {
    exists|f: Seq<u32>|
        #[trigger] payload_codes(
            entry.entropy_mode,
            bytes.subrange(entry.offset as int, entry.offset + entry.length),
            f,
        ) && f.len() == entry.tile.width * entry.tile.height && tile_symbols(f)
}

/// Every payload of `entries` codes residuals of its tile.
pub open spec fn payloads_coded(bytes: Seq<u8>, entries: Seq<DirectoryEntry>) -> bool {
    forall|k: int| 0 <= k < entries.len() ==> #[trigger] payload_coded(bytes, entries[k])
}

/// Some tile of `entries` is predicted from the reference frame.
pub open spec fn has_temporal_tile(entries: Seq<DirectoryEntry>) -> bool {
    exists|k: int| 0 <= k < entries.len() && (#[trigger] entries[k]).prediction_mode == PREDICT_TEMPORAL
}

fn decode_internal(bytes: &[u8], reference: Option<&Frame>, threads: usize) -> (r: Result<
    Frame,
    CodecError,
>)
    ensures
        r matches Ok(frame) ==> frame_matches_header(bytes@, frame),
        r is Ok ==> (reference matches Some(rf) ==> rf.valid() && rf.width == r->Ok_0.width
            && rf.height == r->Ok_0.height && rf.format == r->Ok_0.format),
        threads == 0 ==> r == Err::<Frame, CodecError>(CodecError::InvalidInput("thread count must be nonzero")),
        threads != 0 && bytes.len() < HEADER_LEN ==> r == Err::<Frame, CodecError>(
            CodecError::Malformed("truncated header"),
        ),
        threads != 0 && bytes.len() >= HEADER_LEN && bytes@.subrange(0, 4) != magic() ==> r == Err::<
            Frame,
            CodecError,
        >(CodecError::Malformed("bad magic")),
        bytes.len() < HEADER_LEN ==> r is Err,
        forall|pi: StreamInfo, pv: u8, pe: Seq<DirectoryEntry>| #[trigger]
            layout_ok(bytes@, pi, pv, pe) && threads != 0 && reference is None && payloads_coded(bytes@, pe)
                && has_temporal_tile(pe) ==> r == Err::<Frame, CodecError>(
                CodecError::InvalidInput("predicted frame requires a reference"),
            ),
        forall|pi: StreamInfo, pv: u8, pe: Seq<DirectoryEntry>| #[trigger]
            layout_ok(bytes@, pi, pv, pe) && threads != 0 && reference is Some && reference->0.valid() && !(
            reference->0.width == pi.width && reference->0.height == pi.height && reference->0.format
                == pi.format) ==> r == Err::<Frame, CodecError>(
                CodecError::InvalidInput("reference dimensions or format do not match stream"),
            ),
        forall|pi: StreamInfo, pv: u8, pe: Seq<DirectoryEntry>, expected: Seq<Seq<u8>>| #[trigger]
            stream_decodes(bytes@, pi, pv, pe, reference, expected) && threads != 0 ==> (r matches Ok(frame)
                && frame_holds(frame, pe, expected) && frame.valid() && frame.width == pi.width
                && frame.height == pi.height && frame.format == pi.format && frame.frame_rate == pi.frame_rate),
{
    if threads == 0 {
        return Err(CodecError::InvalidInput("thread count must be nonzero"));
    }
    let parsed = parse(bytes)?;
    let info = parsed.info;
    if let Some(r) = reference {
        validate_reference_info(&info, r)?;
    }
    let step = crate::model::CodecOptions {
        quality: info.quality,
        tile_width: info.tile_width,
        tile_height: info.tile_height,
        threads: 1,
    }.quantization_step();
    let ghost dims = plane_dims(info.width, info.height, info.format.spec_is_grayscale());
    proof {
        lemma_spec_tiles_fit(
            info.width,
            info.height,
            info.format.spec_is_grayscale(),
            info.tile_width,
            info.tile_height,
        );
        assert(1 <= step <= 20);
        assert forall|pi: StreamInfo, pv: u8, pe: Seq<DirectoryEntry>, expected: Seq<Seq<u8>>| #[trigger]
            stream_decodes(bytes@, pi, pv, pe, reference, expected) implies same_layout(parsed, pi, pv, pe) by {}
    }
    let mut tiles: Vec<Tile> = Vec::with_capacity(parsed.entries.len());
    let mut decoded: Vec<Vec<u8>> = Vec::with_capacity(parsed.entries.len());
    let mut index: usize = 0;
    while index < parsed.entries.len()
        invariant
            threads != 0,
            parsed_ok(bytes@, parsed),
            info == parsed.info,
            1 <= step <= 20,
            step == spec_quantization_step(info.quality),
            dims == plane_dims(info.width, info.height, info.format.spec_is_grayscale()),
            tiles_fit(
                spec_tiles(info.width, info.height, info.format.spec_is_grayscale(), info.tile_width, info.tile_height),
                dims,
            ),
            reference matches Some(r) ==> r.valid() && r.width == info.width && r.height == info.height && r.format == info.format,
            index <= parsed.entries.len(),
            tiles.len() == index,
            decoded.len() == index,
            forall|i: int| 0 <= i < index ==> #[trigger] tiles@[i] == parsed.entries@[i].tile,
            forall|i: int|
                0 <= i < index ==> (#[trigger] decoded@[i]).len() == tiles@[i].width
                    * tiles@[i].height,
            forall|pi: StreamInfo, pv: u8, pe: Seq<DirectoryEntry>, expected: Seq<Seq<u8>>| #[trigger]
                stream_decodes(bytes@, pi, pv, pe, reference, expected) ==> same_layout(parsed, pi, pv, pe) && forall|i: int|
                    0 <= i < index ==> (#[trigger] decoded@[i])@ == expected[i],
            forall|pi: StreamInfo, pv: u8, pe: Seq<DirectoryEntry>| #[trigger]
                layout_ok(bytes@, pi, pv, pe) ==> pe == parsed.entries@,
            forall|pi: StreamInfo, pv: u8, pe: Seq<DirectoryEntry>| #[trigger]
                layout_ok(bytes@, pi, pv, pe) && reference is None && payloads_coded(bytes@, pe) ==> forall|i: int|
                    0 <= i < index ==> (#[trigger] pe[i]).prediction_mode != PREDICT_TEMPORAL,
        decreases parsed.entries.len() - index,
    {
        let entry = parsed.entries[index];
        let ghost all_tiles = spec_tiles(info.width, info.height, info.format.spec_is_grayscale(), info.tile_width, info.tile_height);
        proof {
            assert(parsed.entries@[index as int] == entry);
            assert(entry.tile == all_tiles[index as int]);
            assert(tile_fits(entry.tile, dims[entry.tile.plane as int].0 as int, dims[entry.tile.plane as int].1 as int));
        }
        let payload = &bytes[entry.offset..entry.offset + entry.length];
        let reference_samples: Option<Vec<u8>> = match reference {
            Some(r) => {
                let plane = &r.planes[entry.tile.plane];
                proof {
                    crate::model::lemma_frame_plane_bound(r, entry.tile.plane as int);
                    assert(r.planes@[entry.tile.plane as int].shaped(dims[entry.tile.plane as int].0, dims[entry.tile.plane as int].1));
                }
                Some(extract_tile(plane.data.as_slice(), plane.width, plane.height, entry.tile))
            },
            None => None,
        };
        let reference_slice: Option<&[u8]> = match &reference_samples {
            Some(v) => Some(v.as_slice()),
            None => None,
        };
        let ghost refs = reference_seq(reference_slice);
        proof {
            assert forall|pi: StreamInfo, pv: u8, pe: Seq<DirectoryEntry>, expected: Seq<Seq<u8>>| #[trigger]
                stream_decodes(bytes@, pi, pv, pe, reference, expected) implies ({
                let f = choose|f: Seq<u32>|
                    #[trigger] payload_codes(
                        entry.entropy_mode,
                        bytes@.subrange(entry.offset as int, entry.offset + entry.length),
                        f,
                    ) && f.len() == entry.tile.width * entry.tile.height && tile_symbols(f) && (
                    is_spatial_mode(entry.prediction_mode) || (entry.prediction_mode == PREDICT_TEMPORAL
                        && reference is Some)) && expected[index as int] == reconstruct(
                        unfold_all(f),
                        entry.prediction_mode,
                        entry.tile.width as int,
                        step as int,
                        refs,
                    );
                &&& payload_codes(entry.entropy_mode, payload@, f)
                &&& f.len() == entry.tile.width * entry.tile.height
                &&& tile_symbols(f)
                &&& (is_spatial_mode(entry.prediction_mode) || (entry.prediction_mode == PREDICT_TEMPORAL
                    && reference_slice is Some))
                &&& expected[index as int] == reconstruct(
                    unfold_all(f),
                    entry.prediction_mode,
                    entry.tile.width as int,
                    step as int,
                    refs,
                )
            }) by {
                assert(pe[index as int] == entry);
                assert(payload@ =~= bytes@.subrange(entry.offset as int, entry.offset + entry.length));
                match reference {
                    Some(r) => {
                        assert(reference_tile(reference, entry.tile) == Some(refs));
                        assert(samples_or_empty(reference_tile(reference, entry.tile)) == refs);
                    },
                    None => {
                        assert(samples_or_empty(reference_tile(reference, entry.tile)) == refs);
                    },
                }
                assert(tile_decodes(
                    bytes@,
                    pe[index as int],
                    spec_quantization_step(pi.quality),
                    reference_tile(reference, pe[index as int].tile),
                    expected[index as int],
                ));
            }
        }
        let decoded_tile = decode_tile_payload(
            entry.tile,
            payload,
            step,
            entry.entropy_mode,
            entry.prediction_mode,
            reference_slice,
        );
        proof {
            assert forall|pi: StreamInfo, pv: u8, pe: Seq<DirectoryEntry>| #[trigger]
                layout_ok(bytes@, pi, pv, pe) && reference is None && payloads_coded(bytes@, pe) implies {
                &&& entry.prediction_mode == PREDICT_TEMPORAL ==> decoded_tile == Err::<Vec<u8>, CodecError>(
                    CodecError::InvalidInput("predicted frame requires a reference"),
                )
                &&& entry.prediction_mode != PREDICT_TEMPORAL ==> decoded_tile is Ok
            } by {
                assert(pe[index as int] == entry);
                assert(payload_coded(bytes@, pe[index as int]));
                assert(payload@ =~= bytes@.subrange(entry.offset as int, entry.offset + entry.length));
                let f = choose|f: Seq<u32>|
                    #[trigger] payload_codes(
                        entry.entropy_mode,
                        bytes@.subrange(entry.offset as int, entry.offset + entry.length),
                        f,
                    ) && f.len() == entry.tile.width * entry.tile.height && tile_symbols(f);
                assert(payload_codes(entry.entropy_mode, payload@, f));
                assert(prediction_mode_allowed(pv, entry.prediction_mode));
            }
        }
        let data = match decoded_tile {
            Ok(data) => data,
            Err(error) => {
                return Err(error);
            },
        };
        proof {
            crate::residual::lemma_reconstruct_len_public(
                choose|folded: Seq<u32>| #![trigger crate::residual::unfold_all(folded)] folded.len() == entry.tile.width * entry.tile.height && data@ == crate::residual::reconstruct(crate::residual::unfold_all(folded), entry.prediction_mode, entry.tile.width as int, step as int, reference_seq(reference_slice)),
                entry.prediction_mode,
                entry.tile.width as int,
                step as int,
                reference_seq(reference_slice),
            );
        }
        tiles.push(entry.tile);
        decoded.push(data);
        proof {
            assert forall|pi: StreamInfo, pv: u8, pe: Seq<DirectoryEntry>, expected: Seq<Seq<u8>>| #[trigger]
                stream_decodes(bytes@, pi, pv, pe, reference, expected) implies same_layout(parsed, pi, pv, pe) && forall|i: int|
                0 <= i < index + 1 ==> (#[trigger] decoded@[i])@ == expected[i] by {
                assert(decoded@[index as int] == data);
            }
            assert forall|pi: StreamInfo, pv: u8, pe: Seq<DirectoryEntry>| #[trigger]
                layout_ok(bytes@, pi, pv, pe) && reference is None && payloads_coded(bytes@, pe) implies forall|i: int|
                0 <= i < index + 1 ==> (#[trigger] pe[i]).prediction_mode != PREDICT_TEMPORAL by {
                assert(pe[index as int] == entry);
            }
        }
        index = index + 1;
    }
    proof {
        assert forall|pi: StreamInfo, pv: u8, pe: Seq<DirectoryEntry>| #[trigger]
            layout_ok(bytes@, pi, pv, pe) && reference is None && payloads_coded(bytes@, pe) implies !has_temporal_tile(
            pe,
        ) by {
            assert(pe == parsed.entries@);
        }
    }
    proof {
        let all_tiles = spec_tiles(info.width, info.height, info.format.spec_is_grayscale(), info.tile_width, info.tile_height);
        assert(tiles@ =~= all_tiles);
    }
    let frame = assemble_frame(&info, &tiles, &decoded)?;
    proof {
        assert forall|pi: StreamInfo, pv: u8, pe: Seq<DirectoryEntry>, expected: Seq<Seq<u8>>| #[trigger]
            stream_decodes(bytes@, pi, pv, pe, reference, expected) implies frame_holds(frame, pe, expected) by {
            assert forall|k: int| 0 <= k < expected.len() implies tile_samples(
                frame.planes@[pe[k].tile.plane as int].data@,
                frame.planes@[pe[k].tile.plane as int].width as int,
                pe[k].tile,
            ) == #[trigger] expected[k] by {
                assert(pe[k] == parsed.entries@[k]);
                assert(decoded@[k]@ == expected[k]);
            }
        }
    }
    Ok(frame)
}

/// `decoded` has the frame facts of `source`, each of its samples lies within half a
/// quantizer step of the source sample, and at step 1 it holds the source samples.
pub open spec fn decodes_source(decoded: Frame, source: &Frame, options: CodecOptions) -> bool {
    let step = spec_quantization_step(options.quality);
    &&& decoded.width == source.width && decoded.height == source.height
    &&& decoded.format == source.format && decoded.frame_rate == source.frame_rate
    &&& decoded.planes.len() == source.planes.len()
    &&& forall|p: int|
        0 <= p < source.planes.len() ==> {
            &&& (#[trigger] decoded.planes@[p]).width == source.planes@[p].width
            &&& decoded.planes@[p].height == source.planes@[p].height
            &&& decoded.planes@[p].data.len() == source.planes@[p].data.len()
            &&& forall|i: int|
                0 <= i < source.planes@[p].data.len() ==> abs(
                    decoded.planes@[p].data@[i] - #[trigger] source.planes@[p].data@[i],
                ) <= step / 2
            &&& step == 1 ==> decoded.planes@[p].data@ == source.planes@[p].data@
        }
}

/// Decoding a stream that encodes `source` gives back `source` up to half a
/// quantizer step per sample, and exactly at step 1 (quality 96 and above): a frame
/// whose tiles hold the encoder's reconstructions, with the frame facts of the
/// stream, is `source` as far as the quantizer allows.
pub proof fn lemma_decoded_source(
    source: &Frame,
    options: CodecOptions,
    reference: Option<&Frame>,
    info: StreamInfo,
    entries: Seq<DirectoryEntry>,
    expected: Seq<Seq<u8>>,
    decoded: Frame,
)
    requires
        source_coded(info, entries, expected, source, options, reference),
        decoded.valid(),
        decoded.width == info.width && decoded.height == info.height,
        decoded.format == info.format && decoded.frame_rate == info.frame_rate,
        frame_holds(decoded, entries, expected),
    ensures
        decodes_source(decoded, source, options),
{
    let step = spec_quantization_step(options.quality);
    let grayscale = source.format.spec_is_grayscale();
    let dims = plane_dims(source.width, source.height, grayscale);
    assert forall|p: int| 0 <= p < source.planes.len() implies {
        &&& (#[trigger] decoded.planes@[p]).width == source.planes@[p].width
        &&& decoded.planes@[p].height == source.planes@[p].height
        &&& decoded.planes@[p].data.len() == source.planes@[p].data.len()
        &&& forall|i: int|
            0 <= i < source.planes@[p].data.len() ==> abs(
                decoded.planes@[p].data@[i] - #[trigger] source.planes@[p].data@[i],
            ) <= step / 2
        &&& step == 1 ==> decoded.planes@[p].data@ == source.planes@[p].data@
    } by {
        assert(source.planes@[p].shaped(dims[p].0, dims[p].1));
        assert(decoded.planes@[p].shaped(dims[p].0, dims[p].1));
        assert forall|i: int| 0 <= i < source.planes@[p].data.len() implies abs(
            decoded.planes@[p].data@[i] - #[trigger] source.planes@[p].data@[i],
        ) <= step / 2 && (step == 1 ==> decoded.planes@[p].data@[i] == source.planes@[p].data@[i]) by {
            lemma_sample_from_tile(source, options, reference, info, entries, expected, decoded, p, i);
        }
        if step == 1 {
            assert(decoded.planes@[p].data@ =~= source.planes@[p].data@);
        }
    }
}

/// Sample `i` of plane `p` of the decoded frame is the reconstruction of the source
/// sample that the covering tile holds.
proof fn lemma_sample_from_tile(
    source: &Frame,
    options: CodecOptions,
    reference: Option<&Frame>,
    info: StreamInfo,
    entries: Seq<DirectoryEntry>,
    expected: Seq<Seq<u8>>,
    decoded: Frame,
    p: int,
    i: int,
)
    requires
        source_coded(info, entries, expected, source, options, reference),
        decoded.valid(),
        decoded.width == info.width && decoded.height == info.height,
        decoded.format == info.format,
        frame_holds(decoded, entries, expected),
        0 <= p < source.planes.len(),
        0 <= i < source.planes@[p].data.len(),
    ensures
        abs(decoded.planes@[p].data@[i] - source.planes@[p].data@[i]) <= spec_quantization_step(options.quality) / 2,
        spec_quantization_step(options.quality) == 1 ==> decoded.planes@[p].data@[i] == source.planes@[p].data@[i],
{
    let step = spec_quantization_step(options.quality);
    let grayscale = source.format.spec_is_grayscale();
    let dims = plane_dims(source.width, source.height, grayscale);
    let tiles = spec_tiles(source.width, source.height, grayscale, options.tile_width, options.tile_height);
    lemma_spec_tiles_fit(source.width, source.height, grayscale, options.tile_width, options.tile_height);
    assert(source.planes@[p].shaped(dims[p].0, dims[p].1));
    assert(decoded.planes@[p].shaped(dims[p].0, dims[p].1));
    let w = dims[p].0 as int;
    let h = dims[p].1 as int;
    vstd::arithmetic::div_mod::lemma_fundamental_div_mod(i, w);
    assert(0 <= i / w < h) by (nonlinear_arith)
        requires
            0 <= i < w * h,
            w >= 1,
    ;
    let k = crate::tiles::lemma_spec_tiles_cover(
        source.width,
        source.height,
        grayscale,
        options.tile_width,
        options.tile_height,
        p,
        i % w,
        i / w,
    );
    let t = tiles[k];
    assert(tile_source_coded(entries[k], expected[k], source, t, step, reference));
    assert(entries[k].tile == t);
    assert(crate::tile_coding::in_tile(i, w, t));
    let j = crate::tile_coding::tile_offset(i, w, t);
    crate::tile_coding::lemma_in_tile_offset(i, w, t);
    let samples = source_tile(source, t);
    let r = samples_or_empty(reference_tile(reference, t));
    let mode = entries[k].prediction_mode;
    assert(expected[k] == encoder_reconstruction(samples, mode, t.width as int, step, reference_tile(reference, t)));
    assert(tile_samples(decoded.planes@[p].data@, w, t) == expected[k]);
    assert(decoded.planes@[p].data@[i] == expected[k][j]);
    assert(source.planes@[p].data@[i] == samples[j]);
    crate::residual::lemma_encode_reconstruct(samples, mode, t.width as int, step, r);
    if step == 1 {
        crate::residual::lemma_lossless_round_trip(samples, mode, t.width as int, r);
    }
}

/// Decodes an intra-only frame; temporal tiles fail for lack of a reference.
pub fn decode(bytes: &[u8], threads: usize) -> (r: Result<Frame, CodecError>)
    ensures
        r matches Ok(frame) ==> frame_matches_header(bytes@, frame),
        threads == 0 ==> r == Err::<Frame, CodecError>(CodecError::InvalidInput("thread count must be nonzero")),
        threads != 0 && bytes.len() < HEADER_LEN ==> r == Err::<Frame, CodecError>(
            CodecError::Malformed("truncated header"),
        ),
        threads != 0 && bytes.len() >= HEADER_LEN && bytes@.subrange(0, 4) != magic() ==> r == Err::<
            Frame,
            CodecError,
        >(CodecError::Malformed("bad magic")),
        bytes.len() < HEADER_LEN ==> r is Err,
        forall|pi: StreamInfo, pv: u8, pe: Seq<DirectoryEntry>| #[trigger]
            layout_ok(bytes@, pi, pv, pe) && threads != 0 && payloads_coded(bytes@, pe) && has_temporal_tile(pe)
                ==> r == Err::<Frame, CodecError>(
                CodecError::InvalidInput("predicted frame requires a reference"),
            ),
        forall|source: Frame, options: CodecOptions| #[trigger]
            encodes(bytes@, &source, options, None) && threads != 0 ==> (r matches Ok(frame) && decodes_source(
                frame,
                &source,
                options,
            )),
{
    let r = decode_internal(bytes, None, threads);
    proof {
        assert forall|source: Frame, options: CodecOptions| #[trigger]
            encodes(bytes@, &source, options, None) && threads != 0 implies (r matches Ok(frame)
            && decodes_source(frame, &source, options)) by {
            let (info, version, entries, expected) = choose|
                info: StreamInfo,
                version: u8,
                entries: Seq<DirectoryEntry>,
                expected: Seq<Seq<u8>>,
            |
                #[trigger] stream_decodes(bytes@, info, version, entries, None, expected) && source_coded(
                    info,
                    entries,
                    expected,
                    &source,
                    options,
                    None,
                );
            assert(stream_decodes(bytes@, info, version, entries, None, expected));
            let frame = r->Ok_0;
            lemma_decoded_source(&source, options, None, info, entries, expected, frame);
        }
    }
    r
}

/// Decodes a predicted frame using the preceding reconstructed frame.
pub fn decode_with_reference(bytes: &[u8], reference: &Frame, threads: usize) -> (r: Result<
    Frame,
    CodecError,
>)
    ensures
        r matches Ok(frame) ==> frame_matches_header(bytes@, frame) && reference.valid()
            && reference.width == frame.width && reference.height == frame.height
            && reference.format == frame.format,
        threads == 0 ==> r == Err::<Frame, CodecError>(CodecError::InvalidInput("thread count must be nonzero")),
        threads != 0 && bytes.len() < HEADER_LEN ==> r == Err::<Frame, CodecError>(
            CodecError::Malformed("truncated header"),
        ),
        threads != 0 && bytes.len() >= HEADER_LEN && bytes@.subrange(0, 4) != magic() ==> r == Err::<
            Frame,
            CodecError,
        >(CodecError::Malformed("bad magic")),
        forall|pi: StreamInfo, pv: u8, pe: Seq<DirectoryEntry>| #[trigger]
            layout_ok(bytes@, pi, pv, pe) && threads != 0 && reference.valid() && !(reference.width == pi.width
                && reference.height == pi.height && reference.format == pi.format) ==> r == Err::<Frame, CodecError>(
                CodecError::InvalidInput("reference dimensions or format do not match stream"),
            ),
        forall|source: Frame, options: CodecOptions| #[trigger]
            encodes(bytes@, &source, options, Some(reference)) && threads != 0 ==> (r matches Ok(frame)
                && decodes_source(frame, &source, options)),
{
    let r = decode_internal(bytes, Some(reference), threads);
    proof {
        assert forall|source: Frame, options: CodecOptions| #[trigger]
            encodes(bytes@, &source, options, Some(reference)) && threads != 0 implies (r matches Ok(frame)
            && decodes_source(frame, &source, options)) by {
            let (info, version, entries, expected) = choose|
                info: StreamInfo,
                version: u8,
                entries: Seq<DirectoryEntry>,
                expected: Seq<Seq<u8>>,
            |
                #[trigger] stream_decodes(bytes@, info, version, entries, Some(reference), expected)
                    && source_coded(info, entries, expected, &source, options, Some(reference));
            assert(stream_decodes(bytes@, info, version, entries, Some(reference), expected));
            let frame = r->Ok_0;
            lemma_decoded_source(&source, options, Some(reference), info, entries, expected, frame);
        }
    }
    r
}

/// `bytes` has frame facts `info`, version `version` and directory `entries`, and
/// the payload of tile `index` decodes, without a reference, to `expected`.
pub open spec fn tile_decodes_at(
    bytes: Seq<u8>,
    info: StreamInfo,
    version: u8,
    entries: Seq<DirectoryEntry>,
    index: int,
    expected: Seq<u8>,
) -> bool {
    &&& layout_ok(bytes, info, version, entries)
    &&& 0 <= index < entries.len()
    &&& tile_decodes(bytes, entries[index], spec_quantization_step(info.quality), None, expected)
}

/// Decodes one tile on its own; temporal tiles fail for lack of a reference.
pub fn decode_tile(bytes: &[u8], tile_index: usize) -> (r: Result<DecodedTile, CodecError>)
    ensures
        r matches Ok(tile) ==> exists|parsed: Parsed|
            #![trigger parsed_ok(bytes@, parsed)]
            {
                &&& parsed_ok(bytes@, parsed)
                &&& tile_index < parsed.entries.len()
                &&& parsed.entries@[tile_index as int].tile == (Tile {
                    plane: tile.plane,
                    x: tile.x,
                    y: tile.y,
                    width: tile.width,
                    height: tile.height,
                })
                &&& tile.data.len() == tile.width * tile.height
            },
        (exists|parsed: Parsed| parsed_ok(bytes@, parsed) && tile_index >= parsed.entries.len())
            ==> r is Err,
        forall|pi: StreamInfo, pv: u8, pe: Seq<DirectoryEntry>| #[trigger]
            layout_ok(bytes@, pi, pv, pe) && tile_index >= pe.len() ==> r == Err::<DecodedTile, CodecError>(
                CodecError::InvalidInput("tile index is out of range"),
            ),
        forall|info: StreamInfo, version: u8, entries: Seq<DirectoryEntry>, expected: Seq<u8>| #[trigger]
            tile_decodes_at(bytes@, info, version, entries, tile_index as int, expected) ==> (r matches Ok(
                tile,
            ) && tile.data@ == expected && tile.plane == entries[tile_index as int].tile.plane && tile.x
                == entries[tile_index as int].tile.x && tile.y == entries[tile_index as int].tile.y
                && tile.width == entries[tile_index as int].tile.width && tile.height
                == entries[tile_index as int].tile.height),
{
    let parsed = parse(bytes)?;
    if tile_index >= parsed.entries.len() {
        return Err(CodecError::InvalidInput("tile index is out of range"));
    }
    let entry = parsed.entries[tile_index];
    let step = crate::model::CodecOptions {
        quality: parsed.info.quality,
        tile_width: parsed.info.tile_width,
        tile_height: parsed.info.tile_height,
        threads: 1,
    }.quantization_step();
    proof {
        let info = parsed.info;
        lemma_spec_tiles_fit(info.width, info.height, info.format.spec_is_grayscale(), info.tile_width, info.tile_height);
        assert(parsed.entries@[tile_index as int] == entry);
    }
    let payload = &bytes[entry.offset..entry.offset + entry.length];
    proof {
        assert forall|info: StreamInfo, version: u8, entries: Seq<DirectoryEntry>, expected: Seq<u8>| #[trigger]
            tile_decodes_at(bytes@, info, version, entries, tile_index as int, expected) implies ({
            let f = choose|f: Seq<u32>|
                #[trigger] payload_codes(
                    entry.entropy_mode,
                    bytes@.subrange(entry.offset as int, entry.offset + entry.length),
                    f,
                ) && f.len() == entry.tile.width * entry.tile.height && tile_symbols(f) && (is_spatial_mode(
                    entry.prediction_mode,
                ) || (entry.prediction_mode == PREDICT_TEMPORAL && None::<Seq<u8>> is Some)) && expected
                    == reconstruct(
                    unfold_all(f),
                    entry.prediction_mode,
                    entry.tile.width as int,
                    step as int,
                    Seq::empty(),
                );
            &&& payload_codes(entry.entropy_mode, payload@, f)
            &&& f.len() == entry.tile.width * entry.tile.height
            &&& tile_symbols(f)
            &&& is_spatial_mode(entry.prediction_mode)
            &&& expected == reconstruct(unfold_all(f), entry.prediction_mode, entry.tile.width as int, step as int, Seq::empty())
            &&& entries[tile_index as int] == entry
        }) by {
            assert(same_layout(parsed, info, version, entries));
            assert(entries[tile_index as int] == entry);
            assert(payload@ =~= bytes@.subrange(entry.offset as int, entry.offset + entry.length));
            assert(samples_or_empty(None) == Seq::<u8>::empty());
        }
    }
    let data = decode_tile_payload(
        entry.tile,
        payload,
        step,
        entry.entropy_mode,
        entry.prediction_mode,
        None,
    )?;
    proof {
        crate::residual::lemma_reconstruct_len_public(
            choose|folded: Seq<u32>| #![trigger crate::residual::unfold_all(folded)] folded.len() == entry.tile.width * entry.tile.height && data@ == crate::residual::reconstruct(crate::residual::unfold_all(folded), entry.prediction_mode, entry.tile.width as int, step as int, Seq::empty()),
            entry.prediction_mode,
            entry.tile.width as int,
            step as int,
            Seq::empty(),
        );
    }
    Ok(
        DecodedTile {
            plane: entry.tile.plane,
            x: entry.tile.x,
            y: entry.tile.y,
            width: entry.tile.width,
            height: entry.tile.height,
            data,
        },
    )
}

// ---------------------------------------------------------------------------
// Stream layout
// ---------------------------------------------------------------------------

/// Bytes of the payloads of the first `count` coded tiles.
pub open spec fn payload_total(coded: Seq<EncodedTile>, count: int) -> int
    decreases count,
{
    if count <= 0 {
        0
    } else {
        payload_total(coded, count - 1) + coded[count - 1].payload.len()
    }
}

/// The payloads of the first `count` coded tiles, one after another.
pub open spec fn payload_concat(coded: Seq<EncodedTile>, count: int) -> Seq<u8>
    decreases count,
{
    if count <= 0 {
        Seq::empty()
    } else {
        payload_concat(coded, count - 1) + coded[count - 1].payload@
    }
}

/// The 32-byte directory record of a tile whose payload starts at `offset`.
pub open spec fn directory_record(tile: Tile, coded: EncodedTile, offset: nat) -> Seq<u8> {
    seq![tile.plane as u8, coded.entropy_mode, coded.prediction_mode, 0u8] + le_bytes(tile.x as nat, 4)
        + le_bytes(tile.y as nat, 4) + le_bytes(tile.width as nat, 4) + le_bytes(tile.height as nat, 4)
        + le_bytes(offset, 8) + le_bytes(coded.payload.len() as nat, 4)
}

/// The directory records of the first `count` tiles, whose payloads follow one
/// another from `start`.
pub open spec fn directory_records(tiles: Seq<Tile>, coded: Seq<EncodedTile>, start: nat, count: int) -> Seq<u8>
    decreases count,
{
    if count <= 0 {
        Seq::empty()
    } else {
        directory_records(tiles, coded, start, count - 1) + directory_record(
            tiles[count - 1],
            coded[count - 1],
            (start + payload_total(coded, count - 1)) as nat,
        )
    }
}

/// `le_bytes` writes exactly `count` bytes.
/// The total of the first `count` payloads depends on those payloads alone.
pub proof fn lemma_payload_total_prefix(coded: Seq<EncodedTile>, other: Seq<EncodedTile>, count: int)
    requires
        0 <= count <= coded.len(),
        count <= other.len(),
        forall|i: int| 0 <= i < count ==> #[trigger] coded[i] == other[i],
    ensures
        payload_total(coded, count) == payload_total(other, count),
    decreases count,
{
    if count > 0 {
        lemma_payload_total_prefix(coded, other, count - 1);
        assert(coded[count - 1] == other[count - 1]);
    }
}

/// Appending a payload adds its length to the total.
pub proof fn lemma_payload_total_push(coded: Seq<EncodedTile>, tile: EncodedTile)
    ensures
        payload_total(coded.push(tile), coded.len() + 1int) == payload_total(coded, coded.len() as int)
            + tile.payload.len(),
{
    lemma_payload_total_prefix(coded, coded.push(tile), coded.len() as int);
    assert(coded.push(tile)[coded.len() as int] == tile);
}

pub proof fn lemma_le_bytes_length(value: nat, count: nat)
    ensures
        le_bytes(value, count).len() == count,
    decreases count,
{
    if count > 0 {
        lemma_le_bytes_length(value / 256, (count - 1) as nat);
    }
}

/// Payload `k` sits in the concatenation at the total length of the payloads before it.
pub proof fn lemma_payload_concat(coded: Seq<EncodedTile>, count: int, k: int)
    requires
        0 <= k < count <= coded.len(),
    ensures
        payload_concat(coded, count).len() == payload_total(coded, count),
        0 <= payload_total(coded, k),
        payload_total(coded, k) + coded[k].payload.len() <= payload_total(coded, count),
        payload_concat(coded, count).subrange(
            payload_total(coded, k),
            payload_total(coded, k) + coded[k].payload.len(),
        ) == coded[k].payload@,
    decreases count,
{
    lemma_payload_concat_len(coded, count);
    lemma_payload_concat_len(coded, k);
    if k == count - 1 {
        assert(payload_concat(coded, count).subrange(
            payload_total(coded, k),
            payload_total(coded, k) + coded[k].payload.len(),
        ) =~= coded[k].payload@);
    } else {
        lemma_payload_concat(coded, count - 1, k);
        assert(payload_concat(coded, count).subrange(
            payload_total(coded, k),
            payload_total(coded, k) + coded[k].payload.len(),
        ) =~= payload_concat(coded, count - 1).subrange(
            payload_total(coded, k),
            payload_total(coded, k) + coded[k].payload.len(),
        ));
    }
}

/// The concatenation of payloads is as long as their total, which grows with `count`.
pub proof fn lemma_payload_concat_len(coded: Seq<EncodedTile>, count: int)
    requires
        count <= coded.len(),
    ensures
        payload_concat(coded, count).len() == payload_total(coded, count),
        payload_total(coded, count) >= 0,
        forall|j: int| 0 <= j <= count ==> #[trigger] payload_total(coded, j) <= payload_total(coded, count),
    decreases count,
{
    if count > 0 {
        lemma_payload_concat_len(coded, count - 1);
    }
}

/// Record `k` of the directory is the 32 bytes at `32 * k`.
pub proof fn lemma_directory_records(tiles: Seq<Tile>, coded: Seq<EncodedTile>, start: nat, count: int, k: int)
    requires
        0 <= k < count,
    ensures
        directory_records(tiles, coded, start, count).len() == DIRECTORY_ENTRY_LEN * count,
        directory_records(tiles, coded, start, count).subrange(
            DIRECTORY_ENTRY_LEN * k,
            DIRECTORY_ENTRY_LEN * k + DIRECTORY_ENTRY_LEN,
        ) == directory_record(tiles[k], coded[k], (start + payload_total(coded, k)) as nat),
    decreases count,
{
    lemma_directory_records_len(tiles, coded, start, count);
    lemma_directory_records_len(tiles, coded, start, k);
    if k == count - 1 {
        assert(directory_records(tiles, coded, start, count).subrange(
            DIRECTORY_ENTRY_LEN * k,
            DIRECTORY_ENTRY_LEN * k + DIRECTORY_ENTRY_LEN,
        ) =~= directory_record(tiles[k], coded[k], (start + payload_total(coded, k)) as nat));
    } else {
        lemma_directory_records(tiles, coded, start, count - 1, k);
        lemma_directory_records_len(tiles, coded, start, count - 1);
        assert(directory_records(tiles, coded, start, count).subrange(
            DIRECTORY_ENTRY_LEN * k,
            DIRECTORY_ENTRY_LEN * k + DIRECTORY_ENTRY_LEN,
        ) =~= directory_records(tiles, coded, start, count - 1).subrange(
            DIRECTORY_ENTRY_LEN * k,
            DIRECTORY_ENTRY_LEN * k + DIRECTORY_ENTRY_LEN,
        ));
    }
}

/// A directory of `count` records is `32 * count` bytes long.
pub proof fn lemma_directory_records_len(tiles: Seq<Tile>, coded: Seq<EncodedTile>, start: nat, count: int)
    ensures
        count >= 0 ==> directory_records(tiles, coded, start, count).len() == DIRECTORY_ENTRY_LEN * count,
    decreases count,
{
    if count > 0 {
        lemma_directory_records_len(tiles, coded, start, count - 1);
        let t = tiles[count - 1];
        let c = coded[count - 1];
        lemma_le_bytes_length(t.x as nat, 4);
        lemma_le_bytes_length(t.y as nat, 4);
        lemma_le_bytes_length(t.width as nat, 4);
        lemma_le_bytes_length(t.height as nat, 4);
        lemma_le_bytes_length((start + payload_total(coded, count - 1)) as nat, 8);
        lemma_le_bytes_length(c.payload.len() as nat, 4);
    }
}

/// A little-endian field read where it was written.
pub proof fn lemma_le_field(bytes: Seq<u8>, at: int, value: nat, count: nat)
    requires
        0 <= at,
        at + count <= bytes.len(),
        bytes.subrange(at, at + count) == le_bytes(value, count),
        value < crate::bits::pow256(count),
    ensures
        le_value(bytes, at, count) == value,
{
    lemma_le_bytes_length(value, count);
    let prefix = bytes.subrange(0, at);
    let suffix = bytes.subrange(at + count, bytes.len() as int);
    assert(bytes =~= prefix + le_bytes(value, count) + suffix);
    crate::bits::lemma_le_round_trip(value, count, prefix, suffix);
}

/// `bytes` holds the 32-byte directory record of `entry` at `start`: plane, entropy
/// mode, prediction mode, a zero byte, the tile's x, y, width and height, the payload
/// offset and its length, all little-endian.
pub open spec fn directory_entry_at(bytes: Seq<u8>, start: int, entry: DirectoryEntry) -> bool {
    &&& start + DIRECTORY_ENTRY_LEN <= bytes.len()
    &&& bytes[start] == entry.tile.plane
    &&& bytes[start + 1] == entry.entropy_mode
    &&& bytes[start + 2] == entry.prediction_mode
    &&& bytes[start + 3] == 0
    &&& le_value(bytes, start + 4, 4) == entry.tile.x
    &&& le_value(bytes, start + 8, 4) == entry.tile.y
    &&& le_value(bytes, start + 12, 4) == entry.tile.width
    &&& le_value(bytes, start + 16, 4) == entry.tile.height
    &&& le_value(bytes, start + 20, 8) == entry.offset
    &&& le_value(bytes, start + 28, 4) == entry.length
}

/// The record of `tile` read back from `bytes`: the entry it describes.
pub proof fn lemma_record_entry(bytes: Seq<u8>, start: int, tile: Tile, coded: EncodedTile, offset: nat)
    requires
        0 <= start,
        start + DIRECTORY_ENTRY_LEN <= bytes.len(),
        bytes.subrange(start, start + DIRECTORY_ENTRY_LEN) == directory_record(tile, coded, offset),
        tile.plane <= 255,
        offset <= usize::MAX,
        coded.payload.len() <= u32::MAX,
    ensures
        directory_entry_at(
            bytes,
            start,
            DirectoryEntry {
                tile,
                entropy_mode: coded.entropy_mode,
                prediction_mode: coded.prediction_mode,
                offset: offset as usize,
                length: coded.payload.len(),
            },
        ),
{
    let record = directory_record(tile, coded, offset);
    lemma_le_bytes_length(tile.x as nat, 4);
    lemma_le_bytes_length(tile.y as nat, 4);
    lemma_le_bytes_length(tile.width as nat, 4);
    lemma_le_bytes_length(tile.height as nat, 4);
    lemma_le_bytes_length(offset, 8);
    lemma_le_bytes_length(coded.payload.len() as nat, 4);
    reveal_with_fuel(crate::bits::pow256, 9);
    let head = seq![tile.plane as u8, coded.entropy_mode, coded.prediction_mode, 0u8];
    let fx = le_bytes(tile.x as nat, 4);
    let fy = le_bytes(tile.y as nat, 4);
    let fw = le_bytes(tile.width as nat, 4);
    let fh = le_bytes(tile.height as nat, 4);
    let fo = le_bytes(offset, 8);
    let fl = le_bytes(coded.payload.len() as nat, 4);
    let a1 = head + fx;
    let a2 = a1 + fy;
    let a3 = a2 + fw;
    let a4 = a3 + fh;
    let a5 = a4 + fo;
    assert(record == a5 + fl);
    assert(a1.len() == 8 && a2.len() == 12 && a3.len() == 16 && a4.len() == 20 && a5.len() == 28);
    assert(bytes.subrange(start + 4, start + 8) =~= fx) by {
        assert forall|i: int| 0 <= i < 4 implies #[trigger] bytes.subrange(start + 4, start + 8)[i] == fx[i] by {
            assert(bytes.subrange(start + 4, start + 8)[i] == bytes[start + 4 + i]);
            assert(bytes[start + 4 + i] == bytes.subrange(start, start + DIRECTORY_ENTRY_LEN)[4 + i]);
            assert(record[4 + i] == a5[4 + i]);
            assert(a5[4 + i] == a4[4 + i]);
            assert(a4[4 + i] == a3[4 + i]);
            assert(a3[4 + i] == a2[4 + i]);
            assert(a2[4 + i] == a1[4 + i]);
            assert(a1[4 + i] == fx[i]);
        }
    }
    assert(bytes.subrange(start + 8, start + 12) =~= fy) by {
        assert forall|i: int| 0 <= i < 4 implies #[trigger] bytes.subrange(start + 8, start + 12)[i] == fy[i] by {
            assert(bytes.subrange(start + 8, start + 12)[i] == bytes[start + 8 + i]);
            assert(bytes[start + 8 + i] == bytes.subrange(start, start + DIRECTORY_ENTRY_LEN)[8 + i]);
            assert(record[8 + i] == a5[8 + i]);
            assert(a5[8 + i] == a4[8 + i]);
            assert(a4[8 + i] == a3[8 + i]);
            assert(a3[8 + i] == a2[8 + i]);
            assert(a2[8 + i] == fy[i]);
        }
    }
    assert(bytes.subrange(start + 12, start + 16) =~= fw) by {
        assert forall|i: int| 0 <= i < 4 implies #[trigger] bytes.subrange(start + 12, start + 16)[i] == fw[i] by {
            assert(bytes.subrange(start + 12, start + 16)[i] == bytes[start + 12 + i]);
            assert(bytes[start + 12 + i] == bytes.subrange(start, start + DIRECTORY_ENTRY_LEN)[12 + i]);
            assert(record[12 + i] == a5[12 + i]);
            assert(a5[12 + i] == a4[12 + i]);
            assert(a4[12 + i] == a3[12 + i]);
        }
    }
    assert(bytes.subrange(start + 16, start + 20) =~= fh) by {
        assert forall|i: int| 0 <= i < 4 implies #[trigger] bytes.subrange(start + 16, start + 20)[i] == fh[i] by {
            assert(bytes.subrange(start + 16, start + 20)[i] == bytes[start + 16 + i]);
            assert(bytes[start + 16 + i] == bytes.subrange(start, start + DIRECTORY_ENTRY_LEN)[16 + i]);
            assert(record[16 + i] == a5[16 + i]);
            assert(a5[16 + i] == a4[16 + i]);
        }
    }
    assert(bytes.subrange(start + 20, start + 28) =~= fo) by {
        assert forall|i: int| 0 <= i < 8 implies #[trigger] bytes.subrange(start + 20, start + 28)[i] == fo[i] by {
            assert(bytes.subrange(start + 20, start + 28)[i] == bytes[start + 20 + i]);
            assert(bytes[start + 20 + i] == bytes.subrange(start, start + DIRECTORY_ENTRY_LEN)[20 + i]);
            assert(record[20 + i] == a5[20 + i]);
        }
    }
    assert(bytes.subrange(start + 28, start + 32) =~= fl) by {
        assert forall|i: int| 0 <= i < 4 implies #[trigger] bytes.subrange(start + 28, start + 32)[i] == fl[i] by {
            assert(bytes.subrange(start + 28, start + 32)[i] == bytes[start + 28 + i]);
            assert(bytes[start + 28 + i] == bytes.subrange(start, start + DIRECTORY_ENTRY_LEN)[28 + i]);
        }
    }
    assert(bytes[start] == record[0]);
    assert(bytes[start + 1] == record[1]);
    assert(bytes[start + 2] == record[2]);
    assert(bytes[start + 3] == record[3]);
    lemma_le_field(bytes, start + 4, tile.x as nat, 4);
    lemma_le_field(bytes, start + 8, tile.y as nat, 4);
    lemma_le_field(bytes, start + 12, tile.width as nat, 4);
    lemma_le_field(bytes, start + 16, tile.height as nat, 4);
    lemma_le_field(bytes, start + 20, offset, 8);
    lemma_le_field(bytes, start + 28, coded.payload.len() as nat, 4);
}

/// Record `k` of an assembled stream describes tile `k` and points at its payload.
pub proof fn lemma_encoded_entry(
    bytes: Seq<u8>,
    header: Seq<u8>,
    tiles: Seq<Tile>,
    payloads: Seq<EncodedTile>,
    payload_start: nat,
    dims: Seq<(u32, u32)>,
    k: int,
)
    requires
        header.len() == HEADER_LEN,
        0 <= k < tiles.len(),
        tiles_fit(tiles, dims),
        dims.len() <= 3,
        payloads.len() == tiles.len(),
        payload_start == HEADER_LEN + tiles.len() * DIRECTORY_ENTRY_LEN,
        bytes == header + directory_records(tiles, payloads, payload_start, tiles.len() as int) + payload_concat(
            payloads,
            tiles.len() as int,
        ),
        payload_start + payload_total(payloads, tiles.len() as int) <= usize::MAX,
        forall|j: int| 0 <= j < tiles.len() ==> (#[trigger] payloads[j]).payload.len() <= u32::MAX,
    ensures
        ({
            let entry = DirectoryEntry {
                tile: tiles[k],
                entropy_mode: payloads[k].entropy_mode,
                prediction_mode: payloads[k].prediction_mode,
                offset: (payload_start + payload_total(payloads, k)) as usize,
                length: payloads[k].payload.len(),
            };
            &&& entry.offset + entry.length <= bytes.len()
            &&& directory_entry_at(bytes, HEADER_LEN + k * DIRECTORY_ENTRY_LEN, entry)
            &&& bytes.subrange(entry.offset as int, entry.offset + entry.length) == payloads[k].payload@
            &&& payload_total(payloads, k) >= 0
        }),
{
    let n = tiles.len();
    let directory = directory_records(tiles, payloads, payload_start, n as int);
    let body = payload_concat(payloads, n as int);
    lemma_directory_records_len(tiles, payloads, payload_start, n as int);
    lemma_payload_concat_len(payloads, n as int);
    let offset = payload_start + payload_total(payloads, k);
    lemma_payload_concat(payloads, n as int, k);
    lemma_directory_records(tiles, payloads, payload_start, n as int, k);
    let start = HEADER_LEN + k * DIRECTORY_ENTRY_LEN;
    assert(start + DIRECTORY_ENTRY_LEN <= HEADER_LEN + n * DIRECTORY_ENTRY_LEN) by (nonlinear_arith)
        requires
            0 <= k < n,
            start == HEADER_LEN + k * DIRECTORY_ENTRY_LEN,
    ;
    assert(bytes.subrange(start, start + DIRECTORY_ENTRY_LEN) =~= directory.subrange(
        DIRECTORY_ENTRY_LEN * k,
        DIRECTORY_ENTRY_LEN * k + DIRECTORY_ENTRY_LEN,
    ));
    assert(tiles[k].plane < dims.len());
    lemma_record_entry(bytes, start, tiles[k], payloads[k], offset as nat);
    assert(bytes.subrange(offset, offset + payloads[k].payload.len()) =~= body.subrange(
        payload_total(payloads, k),
        payload_total(payloads, k) + payloads[k].payload.len(),
    ));
}

/// The fields of a header read back where `header_bytes` put them.
pub proof fn lemma_header_fields(
    bytes: Seq<u8>,
    version: u8,
    format_code: u8,
    quality: u8,
    width: u32,
    height: u32,
    tile_width: u16,
    tile_height: u16,
    frame_rate: FrameRate,
    tile_count: nat,
)
    requires
        bytes.len() >= HEADER_LEN,
        tile_count <= u32::MAX,
        bytes.subrange(0, 7) == header_bytes(
            version,
            format_code,
            quality,
            width,
            height,
            tile_width,
            tile_height,
            frame_rate,
            tile_count,
        ).subrange(0, 7),
        bytes.subrange(8, HEADER_LEN as int) == header_bytes(
            version,
            format_code,
            quality,
            width,
            height,
            tile_width,
            tile_height,
            frame_rate,
            tile_count,
        ).subrange(8, HEADER_LEN as int),
    ensures
        bytes.subrange(0, 4) == magic(),
        bytes[4] == version && bytes[5] == format_code && bytes[6] == quality,
        le_value(bytes, 8, 4) == width,
        le_value(bytes, 12, 4) == height,
        le_value(bytes, 16, 2) == tile_width,
        le_value(bytes, 18, 2) == tile_height,
        le_value(bytes, 20, 4) == frame_rate.numerator,
        le_value(bytes, 24, 4) == frame_rate.denominator,
        le_value(bytes, 28, 4) == tile_count,
{
    let head = magic() + seq![version, format_code, quality, 0u8];
    let fw = le_bytes(width as nat, 4);
    let fh = le_bytes(height as nat, 4);
    let ftw = le_bytes(tile_width as nat, 2);
    let fth = le_bytes(tile_height as nat, 2);
    let fn_ = le_bytes(frame_rate.numerator as nat, 4);
    let fd = le_bytes(frame_rate.denominator as nat, 4);
    let fc = le_bytes(tile_count, 4);
    lemma_le_bytes_length(width as nat, 4);
    lemma_le_bytes_length(height as nat, 4);
    lemma_le_bytes_length(tile_width as nat, 2);
    lemma_le_bytes_length(tile_height as nat, 2);
    lemma_le_bytes_length(frame_rate.numerator as nat, 4);
    lemma_le_bytes_length(frame_rate.denominator as nat, 4);
    lemma_le_bytes_length(tile_count, 4);
    reveal_with_fuel(crate::bits::pow256, 5);
    let a1 = head + fw;
    let a2 = a1 + fh;
    let a3 = a2 + ftw;
    let a4 = a3 + fth;
    let a5 = a4 + fn_;
    let a6 = a5 + fd;
    let whole = a6 + fc;
    assert(whole == header_bytes(version, format_code, quality, width, height, tile_width, tile_height, frame_rate, tile_count));
    assert(head.len() == 8 && a1.len() == 12 && a2.len() == 16 && a3.len() == 18 && a4.len() == 20);
    assert(a5.len() == 24 && a6.len() == 28 && whole.len() == 32);
    assert forall|i: int| 0 <= i < 7 implies #[trigger] bytes[i] == head[i] by {
        assert(bytes[i] == bytes.subrange(0, 7)[i]);
        assert(whole[i] == a6[i] && a6[i] == a5[i] && a5[i] == a4[i] && a4[i] == a3[i] && a3[i] == a2[i]
            && a2[i] == a1[i] && a1[i] == head[i]);
    }
    assert(bytes.subrange(0, 4) =~= magic()) by {
        assert forall|i: int| 0 <= i < 4 implies #[trigger] bytes.subrange(0, 4)[i] == magic()[i] by {
            assert(bytes[i] == head[i]);
        }
    }
    assert(bytes[4] == head[4] && bytes[5] == head[5] && bytes[6] == head[6]);
    assert forall|i: int| 8 <= i < 32 implies #[trigger] bytes[i] == whole[i] by {
        assert(bytes[i] == bytes.subrange(8, HEADER_LEN as int)[i - 8]);
    }
    assert(bytes.subrange(8, 12) =~= fw) by {
        assert forall|i: int| 0 <= i < 4 implies #[trigger] bytes.subrange(8, 12)[i] == fw[i] by {
            assert(bytes[8 + i] == whole[8 + i]);
            assert(whole[8 + i] == a6[8 + i] && a6[8 + i] == a5[8 + i] && a5[8 + i] == a4[8 + i] && a4[8 + i]
                == a3[8 + i] && a3[8 + i] == a2[8 + i] && a2[8 + i] == a1[8 + i]);
        }
    }
    assert(bytes.subrange(12, 16) =~= fh) by {
        assert forall|i: int| 0 <= i < 4 implies #[trigger] bytes.subrange(12, 16)[i] == fh[i] by {
            assert(bytes[12 + i] == whole[12 + i]);
            assert(whole[12 + i] == a6[12 + i] && a6[12 + i] == a5[12 + i] && a5[12 + i] == a4[12 + i]
                && a4[12 + i] == a3[12 + i] && a3[12 + i] == a2[12 + i]);
        }
    }
    assert(bytes.subrange(16, 18) =~= ftw) by {
        assert forall|i: int| 0 <= i < 2 implies #[trigger] bytes.subrange(16, 18)[i] == ftw[i] by {
            assert(bytes[16 + i] == whole[16 + i]);
            assert(whole[16 + i] == a6[16 + i] && a6[16 + i] == a5[16 + i] && a5[16 + i] == a4[16 + i]
                && a4[16 + i] == a3[16 + i]);
        }
    }
    assert(bytes.subrange(18, 20) =~= fth) by {
        assert forall|i: int| 0 <= i < 2 implies #[trigger] bytes.subrange(18, 20)[i] == fth[i] by {
            assert(bytes[18 + i] == whole[18 + i]);
            assert(whole[18 + i] == a6[18 + i] && a6[18 + i] == a5[18 + i] && a5[18 + i] == a4[18 + i]);
        }
    }
    assert(bytes.subrange(20, 24) =~= fn_) by {
        assert forall|i: int| 0 <= i < 4 implies #[trigger] bytes.subrange(20, 24)[i] == fn_[i] by {
            assert(bytes[20 + i] == whole[20 + i]);
            assert(whole[20 + i] == a6[20 + i] && a6[20 + i] == a5[20 + i]);
        }
    }
    assert(bytes.subrange(24, 28) =~= fd) by {
        assert forall|i: int| 0 <= i < 4 implies #[trigger] bytes.subrange(24, 28)[i] == fd[i] by {
            assert(bytes[24 + i] == whole[24 + i]);
            assert(whole[24 + i] == a6[24 + i]);
        }
    }
    assert(bytes.subrange(28, 32) =~= fc) by {
        assert forall|i: int| 0 <= i < 4 implies #[trigger] bytes.subrange(28, 32)[i] == fc[i] by {
            assert(bytes[28 + i] == whole[28 + i]);
        }
    }
    lemma_le_field(bytes, 8, width as nat, 4);
    lemma_le_field(bytes, 12, height as nat, 4);
    lemma_le_field(bytes, 16, tile_width as nat, 2);
    lemma_le_field(bytes, 18, tile_height as nat, 2);
    lemma_le_field(bytes, 20, frame_rate.numerator as nat, 4);
    lemma_le_field(bytes, 24, frame_rate.denominator as nat, 4);
    lemma_le_field(bytes, 28, tile_count, 4);
}

} // verus!
