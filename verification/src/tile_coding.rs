use crate::bitio::{BitReader, BitWriter, bytes_bits, rice_at, rice_bits};
use crate::bits::{get_varint, lemma_varint_at_front, lemma_varint_at_unique, spec_varint, varint_at};
use crate::entropy::{
    ENTROPY_RICE_BASE, ENTROPY_ZERO_RUN, best_rice_parameter_upto, folded_domain, is_first_minimum,
    lemma_zero_run_head, modeled_zero_run_cost, rice_cost, zero_prefix, zero_run_encoding, zero_run_head,
    zero_run_payload, zero_run_tail,
};
use crate::model::{CodecError, checked_area};
use crate::rans::{
    RANS_ALPHABET, RANS_INTERLEAVED_STATES, RansPlan, build_rans_plan, cost_model_total,
    decode_rans_symbols, decode_rans_symbols_interleaved, encode_rans_payload_interleaved,
    encode_rans_payload_with_states, rans_carries, RansSymbol, cheapest_plan, histogram_observed, log_plans,
    plan_summary,
};
use crate::residual::{PREDICT_TEMPORAL, is_spatial_mode, reconstruct, reconstruct_tile, unfold_all};
use crate::tiles::{Tile, spec_tiles, tile_fits};
use vstd::prelude::*;

verus! {

/// Largest Rice parameter of the 8-bit codec.
pub const MAX_RICE_PARAMETER: u8 = 8;
/// Entropy mode of the single-coder order-0 rANS payload.
pub const ENTROPY_ORDER0: u8 = 10;
/// Entropy mode of the four-coder order-0 rANS payload.
pub const ENTROPY_ORDER0_4: u8 = 11;
/// Largest folded residual of the 8-bit codec.
pub const MAX_FOLDED: u32 = 510;

/// The samples of `tile`, row by row, from a plane `plane_width` samples wide.
pub open spec fn tile_samples<T>(data: Seq<T>, plane_width: int, tile: Tile) -> Seq<T> {
    Seq::new(
        (tile.width * tile.height) as nat,
        |i: int| data[(tile.y + i / (tile.width as int)) * plane_width + tile.x + i % (tile.width as int)],
    )
}

/// A plane position of a tile sample lies inside the plane.
pub proof fn lemma_tile_index(x: int, y: int, column: int, row: int, plane_width: int, plane_height: int)
    requires
        0 <= x,
        0 <= y,
        0 <= column,
        0 <= row,
        x + column < plane_width,
        y + row < plane_height,
    ensures
        0 <= (y + row) * plane_width + x + column < plane_width * plane_height,
{
    assert((y + row) * plane_width + x + column < plane_width * plane_height) by (nonlinear_arith)
        requires
            x + column < plane_width,
            y + row < plane_height,
            0 <= x,
            0 <= column,
            0 <= y + row,
    ;
    assert(0 <= (y + row) * plane_width) by (nonlinear_arith)
        requires
            0 <= y + row,
            0 <= plane_width,
    ;
}

/// Position `row * width + column` of a row-major tile.
pub proof fn lemma_raster_position(row: int, column: int, width: int)
    requires
        0 <= column < width,
        0 <= row,
    ensures
        (row * width + column) / width == row,
        (row * width + column) % width == column,
{
    vstd::arithmetic::div_mod::lemma_fundamental_div_mod_converse(row * width + column, width, row, column);
}

/// Copies the samples of one tile out of a plane.
pub fn extract_tile<T: Copy>(data: &[T], plane_width: u32, plane_height: u32, tile: Tile) -> (samples: Vec<T>)
    requires
        data.len() == plane_width * plane_height,
        tile_fits(tile, plane_width as int, plane_height as int),
    ensures
        samples@ == tile_samples(data@, plane_width as int, tile),
{
    let width = tile.width as usize;
    let height = tile.height as usize;
    let plane_width = plane_width as usize;
    let mut samples: Vec<T> = Vec::new();
    let mut row: usize = 0;
    proof {
        assert(width * height <= plane_width * plane_height) by (nonlinear_arith)
            requires
                width <= plane_width,
                height <= plane_height,
        ;
    }
    while row < height
        invariant
            data.len() == plane_width * plane_height,
            tile_fits(tile, plane_width as int, plane_height as int),
            width == tile.width,
            height == tile.height,
            width >= 1,
            row <= height,
            samples.len() == row * width,
            forall|k: int|
                0 <= k < samples.len() ==> #[trigger] samples@[k] == data@[(tile.y + k / (width as int))
                    * plane_width + tile.x + k % (width as int)],
        decreases height - row,
    {
        let mut column: usize = 0;
        proof {
            lemma_tile_index(tile.x as int, tile.y as int, 0, row as int, plane_width as int, plane_height as int);
        }
        let start = (tile.y as usize + row) * plane_width + tile.x as usize;
        while column < width
            invariant
                data.len() == plane_width * plane_height,
                tile_fits(tile, plane_width as int, plane_height as int),
                width == tile.width,
                width >= 1,
                row < height,
                height == tile.height,
                column <= width,
                start == (tile.y + row) * plane_width + tile.x,
                samples.len() == row * width + column,
                forall|k: int|
                    0 <= k < samples.len() ==> #[trigger] samples@[k] == data@[(tile.y + k / (width as int))
                        * plane_width + tile.x + k % (width as int)],
            decreases width - column,
        {
            proof {
                lemma_tile_index(
                    tile.x as int,
                    tile.y as int,
                    column as int,
                    row as int,
                    plane_width as int,
                    plane_height as int,
                );
                lemma_raster_position(row as int, column as int, width as int);
            }
            samples.push(data[start + column]);
            column = column + 1;
        }
        proof {
            assert((row + 1) * width == row * width + width) by (nonlinear_arith);
        }
        row = row + 1;
    }
    proof {
        assert(height * width == width * height) by (nonlinear_arith);
        assert(samples@ =~= tile_samples(data@, plane_width as int, tile));
    }
    samples
}

/// Writes the samples of one tile into a plane; every other sample is unchanged.
pub fn write_tile<T: Copy>(data: &mut Vec<T>, plane_width: u32, plane_height: u32, tile: Tile, samples: &[T])
    requires
        old(data).len() == plane_width * plane_height,
        tile_fits(tile, plane_width as int, plane_height as int),
        samples.len() == tile.width * tile.height,
    ensures
        final(data).len() == old(data).len(),
        tile_samples(final(data)@, plane_width as int, tile) == samples@,
        forall|i: int|
            0 <= i < final(data).len() && !in_tile(i, plane_width as int, tile)
                ==> #[trigger] final(data)@[i] == old(data)@[i],
{
    let width = tile.width as usize;
    let height = tile.height as usize;
    let pw = plane_width as usize;
    let mut row: usize = 0;
    while row < height
        invariant
            data.len() == plane_width * plane_height,
            pw == plane_width,
            tile_fits(tile, plane_width as int, plane_height as int),
            width == tile.width,
            height == tile.height,
            samples.len() == width * height,
            width >= 1,
            row <= height,
            forall|k: int|
                0 <= k < row * width ==> #[trigger] data@[(tile.y + k / (width as int)) * plane_width
                    + tile.x + k % (width as int)] == samples@[k],
            forall|i: int|
                0 <= i < data.len() && !in_tile(i, plane_width as int, tile) ==> #[trigger] data@[i]
                    == old(data)@[i],
        decreases height - row,
    {
        proof {
            lemma_tile_index(tile.x as int, tile.y as int, 0, row as int, pw as int, plane_height as int);
        }
        let start = (tile.y as usize + row) * pw + tile.x as usize;
        let mut column: usize = 0;
        while column < width
            invariant
                data.len() == plane_width * plane_height,
                pw == plane_width,
                tile_fits(tile, plane_width as int, plane_height as int),
                width == tile.width,
                height == tile.height,
                samples.len() == width * height,
                width >= 1,
                row < height,
                column <= width,
                start == (tile.y + row) * plane_width + tile.x,
                forall|k: int|
                    0 <= k < row * width + column ==> #[trigger] data@[(tile.y + k / (width as int))
                        * plane_width + tile.x + k % (width as int)] == samples@[k],
                forall|i: int|
                    0 <= i < data.len() && !in_tile(i, plane_width as int, tile) ==> #[trigger] data@[i]
                        == old(data)@[i],
            decreases width - column,
        {
            proof {
                lemma_tile_index(tile.x as int, tile.y as int, column as int, row as int, pw as int, plane_height as int);
                lemma_raster_position(row as int, column as int, width as int);
                assert(row * width + column < width * height) by (nonlinear_arith)
                    requires
                        row < height,
                        column < width,
                ;
                lemma_in_tile(tile.x as int, tile.y as int, column as int, row as int, pw as int, tile);
            }
            let ghost before = data@;
            let ghost target = (start + column) as int;
            data.set(start + column, samples[row * width + column]);
            proof {
                assert forall|k: int| 0 <= k < row * width + column + 1 implies #[trigger] data@[(tile.y
                    + k / (width as int)) * plane_width + tile.x + k % (width as int)] == samples@[k] by {
                    if k < row * width + column {
                        lemma_tile_position_distinct(k, (row * width + column) as int, width as int, pw as int, tile);
                        lemma_tile_sample_index(k, tile, pw as int, plane_height as int);
                        assert(before[(tile.y + k / (width as int)) * plane_width + tile.x + k % (width as int)]
                            == samples@[k]);
                    } else {
                        assert(k == row * width + column);
                    }
                }
            }
            column = column + 1;
        }
        proof {
            assert((row + 1) * width == row * width + width) by (nonlinear_arith);
        }
        row = row + 1;
    }
    proof {
        assert(tile_samples(data@, plane_width as int, tile) =~= samples@) by {
            assert(height * width == width * height) by (nonlinear_arith);
        }
    }
}

/// Sample `k` of a tile lies inside the plane.
pub proof fn lemma_tile_sample_index(k: int, tile: Tile, plane_width: int, plane_height: int)
    requires
        0 <= k < tile.width * tile.height,
        tile_fits(tile, plane_width, plane_height),
    ensures
        0 <= (tile.y + k / (tile.width as int)) * plane_width + tile.x + k % (tile.width as int)
            < plane_width * plane_height,
{
    let w = tile.width as int;
    let r = k / w;
    let c = k % w;
    assert(0 <= r < tile.height && 0 <= c < w) by (nonlinear_arith)
        requires
            w >= 1,
            0 <= k < w * tile.height,
            r == k / w,
            c == k % w,
    ;
    lemma_tile_index(tile.x as int, tile.y as int, c, r, plane_width, plane_height);
}

/// Plane position `index` is covered by `tile`.
pub open spec fn in_tile(index: int, plane_width: int, tile: Tile) -> bool {
    let x = index % plane_width;
    let y = index / plane_width;
    &&& tile.x <= x < tile.x + tile.width
    &&& tile.y <= y < tile.y + tile.height
}

/// Offset inside `tile` of plane position `index`.
pub open spec fn tile_offset(index: int, plane_width: int, tile: Tile) -> int {
    (index / plane_width - tile.y) * tile.width + (index % plane_width - tile.x)
}

/// A plane position covered by a tile is the tile sample at its offset.
pub proof fn lemma_in_tile_offset(index: int, plane_width: int, tile: Tile)
    requires
        0 <= index,
        plane_width >= 1,
        in_tile(index, plane_width, tile),
    ensures
        0 <= tile_offset(index, plane_width, tile) < tile.width * tile.height,
        (tile.y + tile_offset(index, plane_width, tile) / (tile.width as int)) * plane_width + tile.x
            + tile_offset(index, plane_width, tile) % (tile.width as int) == index,
{
    let x = index % plane_width;
    let y = index / plane_width;
    let w = tile.width as int;
    let h = tile.height as int;
    let r = y - tile.y;
    let c = x - tile.x;
    vstd::arithmetic::div_mod::lemma_fundamental_div_mod(index, plane_width);
    lemma_raster_position(r, c, w);
    assert(0 <= r * w + c < w * h) by (nonlinear_arith)
        requires
            0 <= r < h,
            0 <= c < w,
    ;
    assert(y * plane_width + x == index) by (nonlinear_arith)
        requires
            index == plane_width * (index / plane_width) + index % plane_width,
            y == index / plane_width,
            x == index % plane_width,
    ;
}

/// Sample `k` of a tile sits at a plane position that the tile covers.
pub proof fn lemma_tile_sample_in_tile(k: int, tile: Tile, plane_width: int, plane_height: int)
    requires
        0 <= k < tile.width * tile.height,
        tile_fits(tile, plane_width, plane_height),
    ensures
        in_tile(
            (tile.y + k / (tile.width as int)) * plane_width + tile.x + k % (tile.width as int),
            plane_width,
            tile,
        ),
        0 <= (tile.y + k / (tile.width as int)) * plane_width + tile.x + k % (tile.width as int)
            < plane_width * plane_height,
{
    let w = tile.width as int;
    let r = k / w;
    let c = k % w;
    assert(0 <= r < tile.height && 0 <= c < w) by (nonlinear_arith)
        requires
            w >= 1,
            0 <= k < w * tile.height,
            r == k / w,
            c == k % w,
    ;
    lemma_in_tile(tile.x as int, tile.y as int, c, r, plane_width, tile);
    lemma_tile_sample_index(k, tile, plane_width, plane_height);
}

proof fn lemma_in_tile(x: int, y: int, column: int, row: int, plane_width: int, tile: Tile)
    requires
        x == tile.x,
        y == tile.y,
        0 <= column < tile.width,
        0 <= row < tile.height,
        tile.x + tile.width <= plane_width,
    ensures
        in_tile((y + row) * plane_width + x + column, plane_width, tile),
{
    lemma_raster_position(y + row, x + column, plane_width);
}

proof fn lemma_tile_position_distinct(k: int, current: int, width: int, plane_width: int, tile: Tile)
    requires
        width == tile.width,
        width >= 1,
        0 <= k < current,
        tile.x + tile.width <= plane_width,
    ensures
        (tile.y + k / width) * plane_width + tile.x + k % width != (tile.y + current / width)
            * plane_width + tile.x + current % width,
{
    let r1 = k / width;
    let c1 = k % width;
    let r2 = current / width;
    let c2 = current % width;
    assert(k == r1 * width + c1 && current == r2 * width + c2 && 0 <= c1 < width && 0 <= c2 < width)
        by (nonlinear_arith)
        requires
            width >= 1,
            r1 == k / width,
            c1 == k % width,
            r2 == current / width,
            c2 == current % width,
    ;
    lemma_raster_position(tile.y + r1, tile.x + c1, plane_width);
    lemma_raster_position(tile.y + r2, tile.x + c2, plane_width);
    if r1 == r2 {
        assert(c1 != c2);
    }
}


// ---------------------------------------------------------------------------
// Entropy coding of folded residuals
// ---------------------------------------------------------------------------

/// Writing `tile` into a plane keeps every other tile of the canonical tiling of that
/// plane as it was.
pub proof fn lemma_write_keeps_other_tile<T>(
    before: Seq<T>,
    after: Seq<T>,
    plane_width: u32,
    plane_height: u32,
    tiles: Seq<Tile>,
    written: int,
    kept: int,
    width: u32,
    height: u32,
    grayscale: bool,
    tile_width: u16,
    tile_height: u16,
)
    requires
        width >= 1,
        height >= 1,
        tile_width >= 1,
        tile_height >= 1,
        tiles == spec_tiles(width, height, grayscale, tile_width, tile_height),
        0 <= written < tiles.len(),
        0 <= kept < tiles.len(),
        written != kept,
        tiles[written].plane == tiles[kept].plane,
        tile_fits(tiles[kept], plane_width as int, plane_height as int),
        before.len() == plane_width * plane_height,
        after.len() == before.len(),
        forall|i: int|
            0 <= i < after.len() && !in_tile(i, plane_width as int, tiles[written]) ==> #[trigger] after[i]
                == before[i],
    ensures
        tile_samples(after, plane_width as int, tiles[kept]) == tile_samples(before, plane_width as int, tiles[kept]),
{
    let t = tiles[kept];
    let pw = plane_width as int;
    assert forall|j: int| 0 <= j < t.width * t.height implies tile_samples(after, pw, t)[j] == tile_samples(
        before,
        pw,
        t,
    )[j] by {
        let q = (t.y + j / (t.width as int)) * pw + t.x + j % (t.width as int);
        lemma_tile_sample_in_tile(j, t, pw, plane_height as int);
        crate::tiles::lemma_spec_tiles_disjoint(width, height, grayscale, tile_width, tile_height, written, kept, q % pw, q / pw);
        assert(!in_tile(q, pw, tiles[written]));
        assert(after[q] == before[q]);
    }
    assert(tile_samples(after, pw, t) =~= tile_samples(before, pw, t));
}

/// The Rice codes of all symbols, one after another.
pub open spec fn rice_stream(folded: Seq<u32>, parameter: nat) -> Seq<bool>
    decreases folded.len(),
{
    if folded.len() == 0 {
        Seq::empty()
    } else {
        rice_stream(folded.drop_last(), parameter) + rice_bits(folded.last(), parameter)
    }
}

/// `payload` holds `bits` least significant bit first, padded with zero bits to a
/// whole byte.
pub open spec fn packs_bits(payload: Seq<u8>, bits: Seq<bool>) -> bool {
    &&& payload.len() == (bits.len() + 7) / 8
    &&& bytes_bits(payload).take(bits.len() as int) == bits
    &&& forall|i: int|
        bits.len() <= i < bytes_bits(payload).len() ==> !#[trigger] bytes_bits(payload)[i]
}

/// Bytes of the Rice payload of `folded` with one parameter.
pub open spec fn rice_bytes(folded: Seq<u32>, parameter: nat) -> int {
    ((rice_cost(folded, parameter) + 7) / 8) as int
}

/// Coders of an order-0 entropy mode.
pub open spec fn order0_coders(entropy_mode: u8) -> nat {
    if entropy_mode == ENTROPY_ORDER0 {
        1
    } else {
        RANS_INTERLEAVED_STATES as nat
    }
}

/// `payload`, coded with `entropy_mode`, carries the folded residuals `folded`: their
/// zero-run coding, their Rice codes, or their order-0 rANS coding under some table.
pub open spec fn payload_codes(entropy_mode: u8, payload: Seq<u8>, folded: Seq<u32>) -> bool {
    if entropy_mode == ENTROPY_ZERO_RUN {
        payload == zero_run_encoding(folded, 0)
    } else if ENTROPY_RICE_BASE <= entropy_mode <= ENTROPY_RICE_BASE + MAX_RICE_PARAMETER {
        packs_bits(payload, rice_stream(folded, (entropy_mode - ENTROPY_RICE_BASE) as nat))
    } else if entropy_mode == ENTROPY_ORDER0 || entropy_mode == ENTROPY_ORDER0_4 {
        exists|table_log: u8, symbols: Seq<RansSymbol>, lookup: Seq<u16>|
            #[trigger] rans_carries(
                payload,
                folded.len() as int,
                MAX_FOLDED,
                order0_coders(entropy_mode),
                folded,
                table_log,
                symbols,
                lookup,
            )
    } else {
        false
    }
}

/// The coded payload of one tile.
pub struct EncodedTile {
    pub entropy_mode: u8,
    pub prediction_mode: u8,
    pub payload: Vec<u8>,
}

/// Residual symbols of one 8-bit tile.
pub open spec fn tile_symbols(folded: Seq<u32>) -> bool {
    &&& folded.len() <= 0x4000_0000
    &&& forall|i: int| 0 <= i < folded.len() ==> #[trigger] folded[i] <= MAX_FOLDED
}

/// The entropy coding that `finish_entropy` selects for `folded`: the smallest of
/// the zero-run, best-Rice and order-0 payloads, zero-run winning ties with Rice.
pub open spec fn selected_coding(entropy_mode: u8, payload_len: int, folded: Seq<u32>) -> bool {
    let zero_run = zero_run_encoding(folded, 0).len() as int;
    if entropy_mode == ENTROPY_ZERO_RUN {
        forall|p: nat| p <= MAX_RICE_PARAMETER ==> #[trigger] rice_bytes(folded, p) >= zero_run
    } else if ENTROPY_RICE_BASE <= entropy_mode <= ENTROPY_RICE_BASE + MAX_RICE_PARAMETER {
        &&& is_first_minimum(
            |p: nat| rice_cost(folded, p),
            MAX_RICE_PARAMETER as nat,
            (entropy_mode - ENTROPY_RICE_BASE) as nat,
        )
        &&& rice_bytes(folded, (entropy_mode - ENTROPY_RICE_BASE) as nat) < zero_run
    } else {
        &&& entropy_mode == ENTROPY_ORDER0 || entropy_mode == ENTROPY_ORDER0_4
        &&& payload_len < zero_run
        &&& forall|p: nat| p <= MAX_RICE_PARAMETER ==> payload_len < #[trigger] rice_bytes(folded, p)
    }
}

/// Number of occurrences of `value` in `folded`.
pub open spec fn occurrences(folded: Seq<u32>, value: int) -> nat
    decreases folded.len(),
{
    if folded.len() == 0 {
        0
    } else {
        occurrences(folded.drop_last(), value) + if folded.last() == value {
            1nat
        } else {
            0nat
        }
    }
}

/// The histogram of folded symbols: the count of each symbol below the order-0 alphabet size.
pub open spec fn histogram_of(folded: Seq<u32>) -> Seq<u32> {
    Seq::new(RANS_ALPHABET as nat, |v: int| occurrences(folded, v) as u32)
}

/// Counts of each folded symbol.
pub fn folded_histogram(folded: &[u32]) -> (histogram: Vec<u32>)
    requires
        tile_symbols(folded@),
    ensures
        histogram@ == histogram_of(folded@),
        histogram.len() == RANS_ALPHABET,
        forall|v: int| 0 <= v < RANS_ALPHABET ==> #[trigger] histogram@[v] <= folded.len(),
        forall|i: int| 0 <= i < folded.len() ==> #[trigger] histogram@[folded@[i] as int] >= 1,
{
    let mut histogram: Vec<u32> = vec![0u32; RANS_ALPHABET];
    let mut index: usize = 0;
    while index < folded.len()
        invariant
            tile_symbols(folded@),
            histogram.len() == RANS_ALPHABET,
            index <= folded.len(),
            forall|v: int| 0 <= v < RANS_ALPHABET ==> #[trigger] histogram@[v] <= index,
            forall|i: int| 0 <= i < index ==> #[trigger] histogram@[folded@[i] as int] >= 1,
            forall|v: int| 0 <= v < RANS_ALPHABET ==> #[trigger] histogram@[v] == occurrences(folded@.take(index as int), v),
        decreases folded.len() - index,
    {
        let value = folded[index] as usize;
        let count = histogram[value];
        histogram.set(value, count + 1);
        proof {
            assert(folded@.take(index + 1).drop_last() =~= folded@.take(index as int));
            assert forall|v: int| 0 <= v < RANS_ALPHABET implies #[trigger] histogram@[v] == occurrences(
                folded@.take(index + 1),
                v,
            ) by {
                assert(folded@.take(index + 1).last() == folded@[index as int]);
            }
        }
        index = index + 1;
    }
    proof {
        assert(folded@.take(index as int) =~= folded@);
        assert(histogram@ =~= histogram_of(folded@));
    }
    histogram
}

/// Packs the Rice codes of all symbols with one parameter.
pub fn rice_payload(folded: &[u32], parameter: u8) -> (payload: Vec<u8>)
    requires
        parameter < 32,
    ensures
        packs_bits(payload@, rice_stream(folded@, parameter as nat)),
{
    let mut writer = BitWriter::new(Vec::new());
    let mut index: usize = 0;
    proof {
        assert(writer.bits() =~= rice_stream(folded@.take(0), parameter as nat));
    }
    while index < folded.len()
        invariant
            parameter < 32,
            index <= folded.len(),
            writer.wf(),
            writer.bits() == rice_stream(folded@.take(index as int), parameter as nat),
        decreases folded.len() - index,
    {
        writer.put_rice(folded[index], parameter);
        proof {
            assert(folded@.take(index + 1).drop_last() =~= folded@.take(index as int));
        }
        index = index + 1;
    }
    proof {
        assert(folded@.take(index as int) =~= folded@);
    }
    writer.finish()
}

/// Number of bytes of `bits` bits, as a `usize` when it fits.
fn bits_to_bytes(bits: u64) -> (bytes: u64)
    ensures
        bytes == (bits + 7) / 8,
{
    bits / 8 + if bits % 8 == 0 {
        0
    } else {
        1
    }
}

/// `bytes` is the least of the zero-run payload size and the Rice payload sizes.
pub open spec fn legacy_bytes(folded: Seq<u32>, bytes: int) -> bool {
    &&& bytes <= zero_run_encoding(folded, 0).len()
    &&& forall|p: nat| p <= MAX_RICE_PARAMETER ==> bytes <= #[trigger] rice_bytes(folded, p)
    &&& (bytes == zero_run_encoding(folded, 0).len() || exists|p: nat|
        p <= MAX_RICE_PARAMETER && bytes == #[trigger] rice_bytes(folded, p))
}

/// Modeled size of an order-0 payload whose table is modeled at `modeled` bytes:
/// from 2400 bytes on the payload takes four coders, three more 4-byte states.
pub open spec fn order0_payload_bytes(modeled: int) -> int {
    if modeled >= 2400 {
        if modeled + 12 > u64::MAX {
            u64::MAX as int
        } else {
            modeled + 12
        }
    } else {
        modeled
    }
}

/// `bytes` is the modeled entropy-coded size of `folded` under `cost`: the order-0
/// size of the cheapest table over the supported logs when it is smaller than the
/// least zero-run or Rice size, else that least size.
pub open spec fn modeled_entropy_bytes<F: Fn(&[u64], &[u64], u64) -> u64>(
    folded: Seq<u32>,
    cost: F,
    bytes: int,
) -> bool {
    exists|legacy: int, per_log: Seq<Option<(Seq<RansSymbol>, int)>>, choice: Option<(u8, Seq<RansSymbol>, int)>|
        #![trigger legacy_bytes(folded, legacy), cheapest_plan(per_log, choice)]
        {
            &&& legacy_bytes(folded, legacy)
            &&& per_log.len() == 5
            &&& log_plans(
                histogram_observed(histogram_of(folded), RANS_ALPHABET as int),
                folded.len() as int,
                cost,
                per_log,
            )
            &&& cheapest_plan(per_log, choice)
            &&& bytes == match choice {
                Some(c) => if order0_payload_bytes(c.2) < legacy {
                    order0_payload_bytes(c.2)
                } else {
                    legacy
                },
                None => legacy,
            }
        }
}

/// Size of the payload that `finish_entropy` produces, with its entropy mode.
pub fn tile_entropy_cost<F: Fn(&[u64], &[u64], u64) -> u64>(folded: &[u32], cost: &F) -> (r: (
    u8,
    u64,
))
    requires
        tile_symbols(folded@),
        cost_model_total(*cost),
    ensures
        r.0 == ENTROPY_ZERO_RUN ==> r.1 == zero_run_encoding(folded@, 0).len() && forall|p: nat|
            p <= MAX_RICE_PARAMETER ==> #[trigger] rice_bytes(folded@, p) >= r.1,
        ENTROPY_RICE_BASE <= r.0 <= ENTROPY_RICE_BASE + MAX_RICE_PARAMETER ==> {
            &&& is_first_minimum(
                |p: nat| rice_cost(folded@, p),
                MAX_RICE_PARAMETER as nat,
                (r.0 - ENTROPY_RICE_BASE) as nat,
            )
            &&& r.1 == rice_bytes(folded@, (r.0 - ENTROPY_RICE_BASE) as nat)
            &&& r.1 < zero_run_encoding(folded@, 0).len()
        },
        r.0 <= ENTROPY_ORDER0_4,
        r.1 <= zero_run_encoding(folded@, 0).len(),
        modeled_entropy_bytes(folded@, *cost, r.1 as int),
{
    proof {
        assert(folded_domain(folded@));
    }
    let zero_run = modeled_zero_run_cost(folded);
    let (parameter, bits) = best_rice_parameter_upto(folded, MAX_RICE_PARAMETER);
    let rice = bits_to_bytes(bits);
    let legacy: (u8, u64) = if rice >= zero_run {
        proof {
            assert forall|p: nat| p <= MAX_RICE_PARAMETER implies #[trigger] rice_bytes(folded@, p)
                >= zero_run by {
                let costs = |q: nat| rice_cost(folded@, q);
                assert(costs(parameter as nat) <= costs(p));
            }
        }
        (ENTROPY_ZERO_RUN, zero_run)
    } else {
        proof {
            assert forall|p: nat| p <= MAX_RICE_PARAMETER implies rice <= #[trigger] rice_bytes(folded@, p) by {
                let costs = |q: nat| rice_cost(folded@, q);
                assert(costs(parameter as nat) <= costs(p));
            }
            assert(rice == rice_bytes(folded@, parameter as nat));
        }
        (ENTROPY_RICE_BASE + parameter, rice)
    };
    proof {
        assert(legacy_bytes(folded@, legacy.1 as int));
    }
    let histogram = folded_histogram(folded);
    let plan_result = build_rans_plan(histogram.as_slice(), folded.len(), cost);
    let ghost per_log = choose|per_log: Seq<Option<(Seq<RansSymbol>, int)>>|
        {
            &&& per_log.len() == 5
            &&& log_plans(
                histogram_observed(histogram@, RANS_ALPHABET as int),
                folded.len() as int,
                *cost,
                per_log,
            )
            &&& #[trigger] cheapest_plan(per_log, plan_summary(plan_result))
        };
    proof {
        assert(histogram@ == histogram_of(folded@));
        assert(legacy_bytes(folded@, legacy.1 as int) && cheapest_plan(per_log, plan_summary(plan_result)));
    }
    match plan_result {
        Some(plan) => {
            let extra: u64 = ((RANS_INTERLEAVED_STATES - 1) * 4) as u64;
            let use_interleaved = plan.modeled_bytes >= 2400;
            let modeled = plan.modeled_bytes as u64;
            let bytes = if use_interleaved {
                modeled.saturating_add(extra)
            } else {
                modeled
            };
            if bytes < legacy.1 {
                let mode = if use_interleaved {
                    ENTROPY_ORDER0_4
                } else {
                    ENTROPY_ORDER0
                };
                return (mode, bytes);
            }
            legacy
        },
        None => legacy,
    }
}

/// Codes the folded residuals of one tile with the smallest of the zero-run, Rice
/// and order-0 payloads.
pub fn finish_entropy<F: Fn(&[u64], &[u64], u64) -> u64>(
    folded: Vec<u32>,
    prediction_mode: u8,
    cost: &F,
) -> (tile: EncodedTile)
    requires
        tile_symbols(folded@),
        cost_model_total(*cost),
    ensures
        tile.prediction_mode == prediction_mode,
        payload_codes(tile.entropy_mode, tile.payload@, folded@),
        selected_coding(tile.entropy_mode, tile.payload.len() as int, folded@),
        tile.payload.len() <= 3 * folded.len(),
{
    proof {
        assert(folded_domain(folded@));
    }
    let zero_run = modeled_zero_run_cost(folded.as_slice());
    let (parameter, bits) = best_rice_parameter_upto(folded.as_slice(), MAX_RICE_PARAMETER);
    let rice = bits_to_bytes(bits);
    let legacy = if rice < zero_run {
        rice
    } else {
        zero_run
    };
    proof {
        assert forall|p: nat| p <= MAX_RICE_PARAMETER implies #[trigger] rice_bytes(folded@, p)
            >= rice by {
            let costs = |q: nat| rice_cost(folded@, q);
                assert(costs(parameter as nat) <= costs(p));
        }
    }
    let histogram = folded_histogram(folded.as_slice());
    if let Some(plan) = build_rans_plan(histogram.as_slice(), folded.len(), cost) {
        proof {
            assert forall|i: int| 0 <= i < folded.len() implies plan.covers(
                #[trigger] folded@[i] as int,
            ) by {
                assert(histogram@[folded@[i] as int] >= 1);
            }
        }
        let use_interleaved = plan.modeled_bytes >= 2400;
        let (entropy_mode, payload) = if use_interleaved {
            (ENTROPY_ORDER0_4, encode_rans_payload_interleaved(folded.as_slice(), &plan))
        } else {
            (ENTROPY_ORDER0, encode_rans_payload_with_states(folded.as_slice(), &plan, 1))
        };
        if (payload.len() as u64) < legacy {
            proof {
                assert forall|i: int| 0 <= i < plan.symbols.len() implies #[trigger] plan.symbols@[i].value
                    <= MAX_FOLDED by {}
                assert(rans_carries(
                    payload@,
                    folded@.len() as int,
                    MAX_FOLDED,
                    order0_coders(entropy_mode),
                    folded@,
                    plan.table_log,
                    plan.symbols@,
                    plan.lookup@,
                ));
            }
            return EncodedTile { entropy_mode, prediction_mode, payload };
        }
    }
    if rice >= zero_run {
        let payload = zero_run_payload(folded.as_slice());
        proof {
            assert forall|p: nat| p <= MAX_RICE_PARAMETER implies #[trigger] rice_bytes(folded@, p)
                >= zero_run_encoding(folded@, 0).len() by {
                assert(rice_bytes(folded@, p) >= rice);
            }
        }
        return EncodedTile { entropy_mode: ENTROPY_ZERO_RUN, prediction_mode, payload };
    }
    let payload = rice_payload(folded.as_slice(), parameter);
    proof {
        crate::tile_coding16::lemma_rice_stream_len(folded@, parameter as nat);
    }
    EncodedTile { entropy_mode: ENTROPY_RICE_BASE + parameter, prediction_mode, payload }
}


/// The Rice stream of a sequence is the stream of a prefix followed by the stream of
/// the rest.
pub proof fn lemma_rice_stream_split(folded: Seq<u32>, parameter: nat, split: int)
    requires
        0 <= split <= folded.len(),
    ensures
        rice_stream(folded, parameter) == rice_stream(folded.take(split), parameter) + rice_stream(
            folded.skip(split),
            parameter,
        ),
    decreases folded.len(),
{
    if split == folded.len() {
        assert(folded.take(split) =~= folded);
        assert(folded.skip(split) =~= Seq::<u32>::empty());
        assert(rice_stream(folded, parameter) + Seq::<bool>::empty() =~= rice_stream(folded, parameter));
    } else {
        let shorter = folded.drop_last();
        lemma_rice_stream_split(shorter, parameter, split);
        assert(shorter.take(split) =~= folded.take(split));
        assert(folded.skip(split).drop_last() =~= shorter.skip(split));
        assert(folded.skip(split).last() == folded.last());
        assert(rice_stream(folded, parameter) =~= rice_stream(folded.take(split), parameter) + rice_stream(
            folded.skip(split),
            parameter,
        ));
    }
}

/// `folded` is a stream of `sample_count` symbols in the decoder's range whose Rice
/// codes with `parameter`, zero-padded to whole bytes, are exactly `payload`.
pub open spec fn rice_carries(
    payload: Seq<u8>,
    sample_count: int,
    parameter: nat,
    max_folded: u32,
    folded: Seq<u32>,
) -> bool {
    &&& packs_bits(payload, rice_stream(folded, parameter))
    &&& folded.len() == sample_count
    &&& forall|i: int| 0 <= i < folded.len() ==> #[trigger] folded[i] <= max_folded
}

/// Reads `sample_count` Rice codes with `parameter`, each at most `max_folded`, and
/// checks that only zero padding follows. A padded Rice stream is read back as its
/// symbols.
pub fn decode_rice_symbols(payload: &[u8], sample_count: usize, parameter: u8, max_folded: u32) -> (r:
    Result<Vec<u32>, CodecError>)
    requires
        parameter < 32,
    ensures
        r matches Ok(folded) ==> folded.len() == sample_count && forall|i: int|
            0 <= i < folded.len() ==> #[trigger] folded@[i] <= max_folded,
        r is Err ==> r matches Err(CodecError::Malformed(_)),
        forall|f: Seq<u32>| #[trigger]
            rice_carries(payload@, sample_count as int, parameter as nat, max_folded, f) ==> (r matches Ok(v)
                && v@ == f),
{
    let mut reader = BitReader::new(payload);
    let mut folded: Vec<u32> = Vec::new();
    let mut index: usize = 0;
    proof {
        assert forall|f: Seq<u32>| #[trigger]
            rice_carries(payload@, sample_count as int, parameter as nat, max_folded, f) implies folded@
            == f.take(0) && reader.position() == rice_stream(f.take(0), parameter as nat).len() by {
            assert(f.take(0) =~= Seq::<u32>::empty());
        }
    }
    while index < sample_count
        invariant
            parameter < 32,
            reader.wf(),
            reader.bits() == bytes_bits(payload@),
            reader.input_bytes() == payload@,
            index <= sample_count,
            folded.len() == index,
            forall|i: int| 0 <= i < folded.len() ==> #[trigger] folded@[i] <= max_folded,
            forall|f: Seq<u32>| #[trigger]
                rice_carries(payload@, sample_count as int, parameter as nat, max_folded, f) ==> folded@
                    == f.take(index as int) && reader.position() == rice_stream(
                    f.take(index as int),
                    parameter as nat,
                ).len(),
        decreases sample_count - index,
    {
        proof {
            assert forall|f: Seq<u32>| #[trigger]
                rice_carries(payload@, sample_count as int, parameter as nat, max_folded, f) implies rice_at(
                reader.bits(),
                reader.position(),
                f[index as int],
                parameter as nat,
            ) && rice_stream(f.take(index + 1), parameter as nat).len() == reader.position() + rice_bits(
                f[index as int],
                parameter as nat,
            ).len() by {
                let p = parameter as nat;
                let whole = rice_stream(f, p);
                let head = rice_stream(f.take(index as int), p);
                let code = rice_bits(f[index as int], p);
                lemma_rice_stream_split(f, p, index + 1);
                assert(f.take(index + 1).drop_last() =~= f.take(index as int));
                assert(rice_stream(f.take(index + 1), p) == head + code);
                let bits = bytes_bits(payload@);
                assert(bits.take(whole.len() as int) == whole);
                assert(bits.subrange(head.len() as int, (head.len() + code.len()) as int) =~= code) by {
                    assert forall|j: int| 0 <= j < code.len() implies bits.subrange(
                        head.len() as int,
                        (head.len() + code.len()) as int,
                    )[j] == code[j] by {
                        assert(bits[head.len() + j] == bits.take(whole.len() as int)[head.len() + j]);
                        assert(whole[head.len() + j] == (head + code)[head.len() + j]);
                    }
                }
            }
        }
        let value = reader.get_rice(parameter, max_folded)?;
        proof {
            assert forall|f: Seq<u32>| #[trigger]
                rice_carries(payload@, sample_count as int, parameter as nat, max_folded, f) implies value
                == f[index as int] by {
                assert(f[index as int] <= max_folded);
            }
        }
        folded.push(value);
        index = index + 1;
        proof {
            assert forall|f: Seq<u32>| #[trigger]
                rice_carries(payload@, sample_count as int, parameter as nat, max_folded, f) implies folded@
                == f.take(index as int) && reader.position() == rice_stream(
                f.take(index as int),
                parameter as nat,
            ).len() by {
                assert(folded@ =~= f.take(index as int));
            }
        }
    }
    proof {
        assert forall|f: Seq<u32>| #[trigger]
            rice_carries(payload@, sample_count as int, parameter as nat, max_folded, f) implies (
        reader.position() + 7) / 8 == payload.len() && forall|i: int|
            reader.position() <= i < reader.bits().len() ==> !#[trigger] reader.bits()[i] by {
            assert(f.take(index as int) =~= f);
        }
    }
    reader.finish()?;
    proof {
        assert forall|f: Seq<u32>| #[trigger]
            rice_carries(payload@, sample_count as int, parameter as nat, max_folded, f) implies folded@
            == f by {
            assert(f.take(index as int) =~= f);
        }
    }
    Ok(folded)
}

/// `folded` is a stream of `sample_count` symbols in the decoder's range whose
/// zero-run tokens are exactly `payload`.
pub open spec fn zero_run_carries(payload: Seq<u8>, sample_count: int, max_folded: u32, folded: Seq<u32>) -> bool {
    &&& payload == zero_run_encoding(folded, 0)
    &&& folded.len() == sample_count
    &&& folded_domain(folded)
    &&& forall|i: int| 0 <= i < folded.len() ==> #[trigger] folded[i] <= max_folded
}

/// Reads zero-run tokens until `sample_count` symbols are known: an even token
/// `2 * (r - 1)` stands for `r` zeros, an odd token `2 * v - 1` for the symbol `v`,
/// which must not exceed `max_folded`. The tokens of a stream are read back as that
/// stream.
pub fn decode_zero_run_symbols(payload: &[u8], sample_count: usize, max_folded: u32) -> (r: Result<
    Vec<u32>,
    CodecError,
>)
    ensures
        r matches Ok(folded) ==> folded.len() == sample_count && forall|i: int|
            0 <= i < folded.len() ==> #[trigger] folded@[i] <= max_folded,
        r is Err ==> r matches Err(CodecError::Malformed(_)),
        forall|f: Seq<u32>| #[trigger]
            zero_run_carries(payload@, sample_count as int, max_folded, f) ==> (r matches Ok(v) && v@ == f),
{
    let mut folded: Vec<u32> = Vec::new();
    let mut cursor: usize = 0;
    proof {
        assert forall|f: Seq<u32>| #[trigger]
            zero_run_carries(payload@, sample_count as int, max_folded, f) implies {
            &&& folded@ == f.take(0)
            &&& payload@.subrange(0, payload.len() as int) == zero_run_encoding(f.skip(0), 0)
        } by {
            assert(f.skip(0) =~= f);
            assert(payload@.subrange(0, payload.len() as int) =~= payload@);
            assert(f.take(0) =~= Seq::<u32>::empty());
        }
    }
    while folded.len() < sample_count
        invariant
            folded.len() <= sample_count,
            cursor <= payload.len(),
            forall|i: int| 0 <= i < folded.len() ==> #[trigger] folded@[i] <= max_folded,
            forall|f: Seq<u32>| #[trigger]
                zero_run_carries(payload@, sample_count as int, max_folded, f) ==> {
                    &&& folded@ == f.take(folded.len() as int)
                    &&& payload@.subrange(cursor as int, payload.len() as int) == zero_run_encoding(
                        f.skip(folded.len() as int),
                        0,
                    )
                },
        decreases sample_count - folded.len(),
    {
        let ghost k = folded.len() as int;
        let ghost start = cursor as int;
        let ghost before = folded@;
        proof {
            assert forall|f: Seq<u32>| #[trigger]
                zero_run_carries(payload@, sample_count as int, max_folded, f) implies {
                let s = f.skip(k);
                &&& s.len() > 0
                &&& zero_run_head(s) <= u32::MAX
                &&& varint_at(payload@, start, zero_run_head(s) as u32)
                &&& payload@.subrange(start + spec_varint(zero_run_head(s)).len(), payload.len() as int)
                    == zero_run_encoding(zero_run_tail(s), 0)
            } by {
                let s = f.skip(k);
                lemma_zero_run_head(s);
                if zero_prefix(s) == 0 {
                    assert(s[0] == f[k]);
                    assert(f[k] <= 0x2_0000);
                }
                lemma_varint_at_front(payload@, start, zero_run_head(s) as u32, zero_run_encoding(zero_run_tail(s), 0));
            }
        }
        let token = match get_varint(payload, &mut cursor) {
            Ok(token) => token,
            Err(error) => {
                proof {
                    assert forall|f: Seq<u32>|
                        !#[trigger] zero_run_carries(payload@, sample_count as int, max_folded, f) by {
                        if zero_run_carries(payload@, sample_count as int, max_folded, f) {
                            assert(varint_at(payload@, start, zero_run_head(f.skip(k)) as u32));
                        }
                    }
                }
                return Err(error);
            },
        };
        proof {
            assert forall|f: Seq<u32>| #[trigger]
                zero_run_carries(payload@, sample_count as int, max_folded, f) implies token == zero_run_head(
                f.skip(k),
            ) by {
                lemma_varint_at_unique(payload@, start, token, zero_run_head(f.skip(k)) as u32);
            }
        }
        if token % 2 == 0 {
            let run = (token / 2) as usize + 1;
            if run > sample_count - folded.len() {
                proof {
                    assert forall|f: Seq<u32>|
                        !#[trigger] zero_run_carries(payload@, sample_count as int, max_folded, f) by {
                        if zero_run_carries(payload@, sample_count as int, max_folded, f) {
                            let s = f.skip(k);
                            lemma_zero_run_head(s);
                            assert(zero_prefix(s) > 0);
                        }
                    }
                }
                return Err(CodecError::Malformed("zero run exceeds tile"));
            }
            let mut added: usize = 0;
            let ghost start_len = folded.len();
            while added < run
                invariant
                    added <= run,
                    1 <= run <= sample_count - start_len,
                    folded.len() == start_len + added,
                    folded@ == before + Seq::new(added as nat, |i: int| 0u32),
                    forall|i: int| 0 <= i < folded.len() ==> #[trigger] folded@[i] <= max_folded,
                decreases run - added,
            {
                folded.push(0);
                added = added + 1;
                proof {
                    assert(folded@ =~= before + Seq::new(added as nat, |i: int| 0u32));
                }
            }
            proof {
                assert forall|f: Seq<u32>| #[trigger]
                    zero_run_carries(payload@, sample_count as int, max_folded, f) implies {
                    &&& folded@ == f.take(folded.len() as int)
                    &&& payload@.subrange(cursor as int, payload.len() as int) == zero_run_encoding(
                        f.skip(folded.len() as int),
                        0,
                    )
                } by {
                    let s = f.skip(k);
                    lemma_zero_run_head(s);
                    assert(zero_prefix(s) > 0);
                    assert(zero_prefix(s) == run);
                    assert forall|i: int| 0 <= i < folded.len() implies folded@[i] == f.take(folded.len() as int)[i] by {
                        if i >= k {
                            assert(s[i - k] == 0);
                        }
                    }
                    assert(folded@ =~= f.take(folded.len() as int));
                    assert(zero_run_tail(s) =~= f.skip(folded.len() as int));
                }
            }
        } else {
            let value = token / 2 + 1;
            if value > max_folded {
                proof {
                    assert forall|f: Seq<u32>|
                        !#[trigger] zero_run_carries(payload@, sample_count as int, max_folded, f) by {
                        if zero_run_carries(payload@, sample_count as int, max_folded, f) {
                            let s = f.skip(k);
                            lemma_zero_run_head(s);
                            assert(zero_prefix(s) == 0);
                            assert(s[0] == f[k]);
                        }
                    }
                }
                return Err(CodecError::Malformed("residual is out of range"));
            }
            folded.push(value);
            proof {
                assert forall|f: Seq<u32>| #[trigger]
                    zero_run_carries(payload@, sample_count as int, max_folded, f) implies {
                    &&& folded@ == f.take(folded.len() as int)
                    &&& payload@.subrange(cursor as int, payload.len() as int) == zero_run_encoding(
                        f.skip(folded.len() as int),
                        0,
                    )
                } by {
                    let s = f.skip(k);
                    lemma_zero_run_head(s);
                    assert(zero_prefix(s) == 0);
                    assert(s[0] == f[k]);
                    assert(value == f[k]);
                    assert(folded@ =~= f.take(folded.len() as int));
                    assert(zero_run_tail(s) =~= f.skip(folded.len() as int));
                }
            }
        }
    }
    if cursor != payload.len() {
        proof {
            assert forall|f: Seq<u32>|
                !#[trigger] zero_run_carries(payload@, sample_count as int, max_folded, f) by {
                if zero_run_carries(payload@, sample_count as int, max_folded, f) {
                    assert(f.skip(folded.len() as int) =~= Seq::<u32>::empty());
                    assert(zero_run_encoding(Seq::<u32>::empty(), 0) =~= Seq::<u8>::empty());
                }
            }
        }
        return Err(CodecError::Malformed("trailing tile payload bytes"));
    }
    proof {
        assert forall|f: Seq<u32>| #[trigger]
            zero_run_carries(payload@, sample_count as int, max_folded, f) implies folded@ == f by {
            assert(f.take(folded.len() as int) =~= f);
        }
    }
    Ok(folded)
}

/// Decodes one tile payload: the entropy decoder yields folded residuals, which the
/// predictor turns into samples. `reference` holds the co-located reference samples.
/// A payload that codes the tile's symbols decodes to their reconstruction.
pub fn decode_tile_payload(
    tile: Tile,
    payload: &[u8],
    step: i32,
    entropy_mode: u8,
    prediction_mode: u8,
    reference: Option<&[u8]>,
) -> (r: Result<Vec<u8>, CodecError>)
    requires
        1 <= step <= 0x2000_0000,
        tile.width >= 1,
        reference matches Some(samples) ==> samples.len() == tile.width * tile.height,
    ensures
        r matches Ok(data) ==> exists|folded: Seq<u32>|
            #![trigger unfold_all(folded)]
            {
                &&& folded.len() == tile.width * tile.height
                &&& data@ == reconstruct(
                    unfold_all(folded),
                    prediction_mode,
                    tile.width as int,
                    step as int,
                    match reference {
                        Some(samples) => samples@,
                        None => Seq::empty(),
                    },
                )
            },
        forall|f: Seq<u32>| #[trigger]
            payload_codes(entropy_mode, payload@, f) && f.len() == tile.width * tile.height && tile_symbols(f)
                && (is_spatial_mode(prediction_mode) || (prediction_mode == PREDICT_TEMPORAL
                && reference is Some)) ==> (r matches Ok(data) && data@ == reconstruct(
                unfold_all(f),
                prediction_mode,
                tile.width as int,
                step as int,
                match reference {
                    Some(samples) => samples@,
                    None => Seq::empty(),
                },
            )),
        forall|f: Seq<u32>| #[trigger]
            payload_codes(entropy_mode, payload@, f) && f.len() == tile.width * tile.height && tile_symbols(f)
                && prediction_mode == PREDICT_TEMPORAL && reference is None ==> r == Err::<Vec<u8>, CodecError>(
                CodecError::InvalidInput("predicted frame requires a reference"),
            ),
{
    proof {
        assert forall|f: Seq<u32>| #[trigger]
            payload_codes(entropy_mode, payload@, f) && f.len() == tile.width * tile.height && tile_symbols(f)
            implies tile.width * tile.height <= crate::model::MAX_FRAME_BYTES && folded_domain(f) by {
            assert forall|i: int| 0 <= i < f.len() implies #[trigger] f[i] <= 0x2_0000 by {
                assert(f[i] <= MAX_FOLDED);
            }
        }
    }
    let sample_count = checked_area(tile.width, tile.height)?;
    let ghost rice_parameter = (entropy_mode - ENTROPY_RICE_BASE) as nat;
    proof {
        assert forall|f: Seq<u32>| #[trigger] payload_codes(entropy_mode, payload@, f) && f.len() == tile.width
            * tile.height && tile_symbols(f) implies {
            &&& entropy_mode == ENTROPY_ZERO_RUN ==> zero_run_carries(payload@, sample_count as int, u32::MAX, f)
            &&& ENTROPY_RICE_BASE <= entropy_mode <= ENTROPY_RICE_BASE + MAX_RICE_PARAMETER ==> rice_carries(
                payload@,
                sample_count as int,
                rice_parameter,
                MAX_FOLDED,
                f,
            )
        } by {
            assert forall|i: int| 0 <= i < f.len() implies #[trigger] f[i] <= MAX_FOLDED by {}
        }
    }
    let decoded = if entropy_mode == ENTROPY_ZERO_RUN {
        decode_zero_run_symbols(payload, sample_count, u32::MAX)
    } else if entropy_mode == ENTROPY_ORDER0 {
        decode_rans_symbols(payload, sample_count, MAX_FOLDED)
    } else if entropy_mode == ENTROPY_ORDER0_4 {
        decode_rans_symbols_interleaved(payload, sample_count, MAX_FOLDED)
    } else if entropy_mode >= ENTROPY_RICE_BASE && entropy_mode <= ENTROPY_RICE_BASE + MAX_RICE_PARAMETER {
        decode_rice_symbols(payload, sample_count, entropy_mode - ENTROPY_RICE_BASE, MAX_FOLDED)
    } else {
        return Err(CodecError::Malformed("unknown tile entropy mode"));
    };
    let folded = match decoded {
        Ok(folded) => folded,
        Err(error) => {
            proof {
                assert forall|f: Seq<u32>|
                    !(#[trigger] payload_codes(entropy_mode, payload@, f) && f.len() == tile.width * tile.height
                        && tile_symbols(f)) by {
                    if payload_codes(entropy_mode, payload@, f) && f.len() == tile.width * tile.height
                        && tile_symbols(f) {
                        if entropy_mode == ENTROPY_ZERO_RUN {
                            assert(zero_run_carries(payload@, sample_count as int, u32::MAX, f));
                        } else if entropy_mode == ENTROPY_ORDER0 || entropy_mode == ENTROPY_ORDER0_4 {
                            let (lg, syms, lk) = choose|lg: u8, syms: Seq<RansSymbol>, lk: Seq<u16>|
                                #[trigger] rans_carries(payload@, f.len() as int, MAX_FOLDED, order0_coders(entropy_mode), f, lg, syms, lk);
                            assert(rans_carries(payload@, sample_count as int, MAX_FOLDED, order0_coders(entropy_mode), f, lg, syms, lk));
                        } else {
                            assert(rice_carries(payload@, sample_count as int, rice_parameter, MAX_FOLDED, f));
                        }
                    }
                }
            }
            return Err(error);
        },
    };
    proof {
        assert forall|f: Seq<u32>| #[trigger] payload_codes(entropy_mode, payload@, f) && f.len() == tile.width
            * tile.height && tile_symbols(f) implies folded@ == f by {
            if entropy_mode == ENTROPY_ZERO_RUN {
                assert(zero_run_carries(payload@, sample_count as int, u32::MAX, f));
            } else if entropy_mode == ENTROPY_ORDER0 || entropy_mode == ENTROPY_ORDER0_4 {
                let (lg, syms, lk) = choose|lg: u8, syms: Seq<RansSymbol>, lk: Seq<u16>|
                    #[trigger] rans_carries(payload@, f.len() as int, MAX_FOLDED, order0_coders(entropy_mode), f, lg, syms, lk);
                assert(rans_carries(payload@, sample_count as int, MAX_FOLDED, order0_coders(entropy_mode), f, lg, syms, lk));
            } else {
                assert(rice_carries(payload@, sample_count as int, rice_parameter, MAX_FOLDED, f));
            }
        }
    }
    let data = match reconstruct_tile(folded.as_slice(), tile.width as usize, step, prediction_mode, reference) {
        Ok(data) => data,
        Err(error) => {
            return Err(error);
        },
    };
    Ok(data)
}

} // verus!
