use crate::bitio::{BitReader, BitWriter, value_bits};
use crate::entropy::{
    ENTROPY_RICE_BASE, ENTROPY_ZERO_RUN, best_rice_parameter, folded_domain, is_first_minimum,
    modeled_zero_run_cost, rice_cost, zero_run_encoding, zero_run_payload,
};
use crate::model::{CodecError, samples_within};
use crate::predict::{Quantizer16, SpatialPredictor, spatial_prediction16, spec_spatial_prediction};
use crate::residual::{PREDICT_CLAMP_GRADIENT, PREDICT_SPATIAL, PREDICT_TEMPORAL, unfold_all};
use crate::residual16::{
    encode_residuals16, fold_all16, predict_tile16, reconstruct16, reconstruct_tile16,
};
use crate::tile_coding::{
    EncodedTile, decode_rice_symbols, packs_bits, rice_bytes, rice_payload, rice_stream,
};
use crate::tiles::Tile;
use vstd::prelude::*;

verus! {

/// Largest Rice parameter of the high-bit codec.
pub const MAX_RICE_PARAMETER16: u8 = 16;
/// Entropy mode of fixed-width blocks.
pub const ENTROPY_BLOCK_PACK: u8 = 18;
/// Symbols per fixed-width block.
pub const BLOCK_PACK_SYMBOLS: usize = 128;

/// Number of bits of `value`: 0 for 0, else the position of its top bit plus one.
pub open spec fn bit_width(value: nat) -> nat
    decreases value,
{
    if value == 0 {
        0
    } else {
        1 + bit_width(value / 2)
    }
}

/// Largest value of a sequence, 0 when empty.
pub open spec fn seq_max(values: Seq<u32>) -> u32
    decreases values.len(),
{
    if values.len() == 0 {
        0
    } else {
        let rest = seq_max(values.drop_last());
        if values.last() > rest {
            values.last()
        } else {
            rest
        }
    }
}

/// The low `width` bits of every value, one value after another.
pub open spec fn fixed_stream(values: Seq<u32>, width: nat) -> Seq<bool>
    decreases values.len(),
{
    if values.len() == 0 {
        Seq::empty()
    } else {
        fixed_stream(values.drop_last(), width) + value_bits(values.last() as u64, width)
    }
}

/// Symbols in the next block of a block-pack payload.
pub open spec fn block_len(remaining: int) -> int {
    if remaining < BLOCK_PACK_SYMBOLS {
        remaining
    } else {
        BLOCK_PACK_SYMBOLS as int
    }
}

/// `payload` is the block-pack coding of `folded`: blocks of 128 symbols (the last
/// shorter), each a width byte, the bit width of the block's largest symbol, and the
/// symbols packed at that width.
pub open spec fn block_pack_codes(payload: Seq<u8>, folded: Seq<u32>) -> bool
    decreases folded.len(),
{
    if folded.len() == 0 {
        payload.len() == 0
    } else {
        let n = block_len(folded.len() as int);
        let block = folded.take(n);
        let width = bit_width(seq_max(block) as nat);
        let bytes = (n * width + 7) / 8;
        &&& payload.len() >= 1 + bytes
        &&& payload[0] == width
        &&& packs_bits(payload.subrange(1, 1 + bytes), fixed_stream(block, width))
        &&& block_pack_codes(payload.subrange(1 + bytes, payload.len() as int), folded.skip(n))
    }
}

/// `payload`, coded with high-bit `entropy_mode`, carries the folded residuals `folded`.
pub open spec fn payload_codes16(entropy_mode: u8, payload: Seq<u8>, folded: Seq<u32>) -> bool {
    if entropy_mode == ENTROPY_ZERO_RUN {
        payload == zero_run_encoding(folded, 0)
    } else if ENTROPY_RICE_BASE <= entropy_mode <= ENTROPY_RICE_BASE + MAX_RICE_PARAMETER16 {
        packs_bits(payload, rice_stream(folded, (entropy_mode - ENTROPY_RICE_BASE) as nat))
    } else if entropy_mode == ENTROPY_BLOCK_PACK {
        block_pack_codes(payload, folded)
    } else {
        false
    }
}

/// Residual symbols of one high-bit tile.
pub open spec fn tile_symbols16(folded: Seq<u32>) -> bool {
    &&& folded.len() <= 0x4000_0000
    &&& forall|i: int| 0 <= i < folded.len() ==> #[trigger] folded[i] <= 0x2_0000
}

fn bits_to_bytes(bits: u64) -> (bytes: u64)
    ensures
        bytes == (bits + 7) / 8,
{
    bits / 8 + if bits % 8 == 0 {
        0
    } else {
        1
    }
}

/// Fewest bytes of a Rice payload of `folded` with a parameter in `0..=max_parameter`.
pub open spec fn min_rice_bytes(folded: Seq<u32>, max_parameter: nat) -> int
    decreases max_parameter,
{
    if max_parameter == 0 {
        rice_bytes(folded, 0)
    } else {
        let previous = min_rice_bytes(folded, (max_parameter - 1) as nat);
        let current = rice_bytes(folded, max_parameter);
        if current < previous {
            current
        } else {
            previous
        }
    }
}

/// Bytes of the payload that the high-bit entropy selection emits for `folded`: the
/// cheaper of the zero-run payload and the best Rice payload, zero-run on ties.
pub open spec fn modeled_bytes16(folded: Seq<u32>) -> int {
    let zero_run = zero_run_encoding(folded, 0).len() as int;
    let rice = min_rice_bytes(folded, MAX_RICE_PARAMETER16 as nat);
    if rice >= zero_run {
        zero_run
    } else {
        rice
    }
}

/// `min_rice_bytes` is the smallest Rice payload over the parameters up to `max_parameter`.
pub proof fn lemma_min_rice_bytes(folded: Seq<u32>, max_parameter: nat)
    ensures
        forall|p: nat|
            p <= max_parameter ==> min_rice_bytes(folded, max_parameter) <= #[trigger] rice_bytes(
                folded,
                p,
            ),
        exists|p: nat|
            p <= max_parameter && min_rice_bytes(folded, max_parameter) == #[trigger] rice_bytes(
                folded,
                p,
            ),
    decreases max_parameter,
{
    if max_parameter == 0 {
        assert(min_rice_bytes(folded, 0) == rice_bytes(folded, 0));
    } else {
        let below = (max_parameter - 1) as nat;
        lemma_min_rice_bytes(folded, below);
        let witness = choose|p: nat| p <= below && min_rice_bytes(folded, below) == #[trigger] rice_bytes(folded, p);
        if rice_bytes(folded, max_parameter) < min_rice_bytes(folded, below) {
            assert(min_rice_bytes(folded, max_parameter) == rice_bytes(folded, max_parameter));
        } else {
            assert(min_rice_bytes(folded, max_parameter) == rice_bytes(folded, witness));
        }
    }
}

/// The Rice code of `folded` has one bit per unit of its cost.
pub proof fn lemma_rice_stream_len(folded: Seq<u32>, parameter: nat)
    ensures
        rice_stream(folded, parameter).len() == rice_cost(folded, parameter),
    decreases folded.len(),
{
    if folded.len() > 0 {
        lemma_rice_stream_len(folded.drop_last(), parameter);
        let n = folded.len() as int;
        let k = parameter + 1;
        assert(n * k == (n - 1) * k + k) by (nonlinear_arith);
    }
}

/// The cheaper of the zero-run and best-Rice payloads, with its entropy mode.
pub fn modeled_entropy_cost16(folded: &[u32]) -> (r: (u8, u64))
    requires
        tile_symbols16(folded@),
    ensures
        r.0 == ENTROPY_ZERO_RUN ==> r.1 == zero_run_encoding(folded@, 0).len() && forall|p: nat|
            p <= MAX_RICE_PARAMETER16 ==> #[trigger] rice_bytes(folded@, p) >= r.1,
        r.0 != ENTROPY_ZERO_RUN ==> {
            &&& ENTROPY_RICE_BASE <= r.0 <= ENTROPY_RICE_BASE + MAX_RICE_PARAMETER16
            &&& is_first_minimum(
                |p: nat| rice_cost(folded@, p),
                MAX_RICE_PARAMETER16 as nat,
                (r.0 - ENTROPY_RICE_BASE) as nat,
            )
            &&& r.1 == rice_bytes(folded@, (r.0 - ENTROPY_RICE_BASE) as nat)
            &&& r.1 < zero_run_encoding(folded@, 0).len()
        },
        r.1 == modeled_bytes16(folded@),
        r.0 == ENTROPY_ZERO_RUN <==> zero_run_encoding(folded@, 0).len() <= min_rice_bytes(
            folded@,
            MAX_RICE_PARAMETER16 as nat,
        ),
{
    proof {
        assert(folded_domain(folded@));
        lemma_min_rice_bytes(folded@, MAX_RICE_PARAMETER16 as nat);
    }
    let zero_run = modeled_zero_run_cost(folded);
    let (parameter, bits) = best_rice_parameter(folded);
    let rice = bits_to_bytes(bits);
    if rice >= zero_run {
        proof {
            assert forall|p: nat| p <= MAX_RICE_PARAMETER16 implies #[trigger] rice_bytes(folded@, p)
                >= zero_run by {
                let costs = |q: nat| rice_cost(folded@, q);
                assert(costs(parameter as nat) <= costs(p));
            }
        }
        proof {
            let witness = choose|p: nat|
                p <= MAX_RICE_PARAMETER16 && min_rice_bytes(folded@, MAX_RICE_PARAMETER16 as nat)
                    == #[trigger] rice_bytes(folded@, p);
            assert(rice_bytes(folded@, witness) >= zero_run);
        }
        (ENTROPY_ZERO_RUN, zero_run)
    } else {
        proof {
            let costs = |q: nat| rice_cost(folded@, q);
            assert forall|p: nat| p <= MAX_RICE_PARAMETER16 implies rice_bytes(folded@, parameter as nat)
                <= #[trigger] rice_bytes(folded@, p) by {
                assert(costs(parameter as nat) <= costs(p));
            }
            let witness = choose|p: nat|
                p <= MAX_RICE_PARAMETER16 && min_rice_bytes(folded@, MAX_RICE_PARAMETER16 as nat)
                    == #[trigger] rice_bytes(folded@, p);
            assert(rice_bytes(folded@, parameter as nat) <= rice_bytes(folded@, witness));
        }
        (ENTROPY_RICE_BASE + parameter, rice)
    }
}

/// Codes the folded residuals of one high-bit tile with the cheaper of the zero-run
/// and best-Rice payloads; zero-run wins ties.
pub fn finish_entropy16(folded: Vec<u32>, prediction_mode: u8) -> (tile: EncodedTile)
    requires
        tile_symbols16(folded@),
    ensures
        tile.prediction_mode == prediction_mode,
        payload_codes16(tile.entropy_mode, tile.payload@, folded@),
        tile.entropy_mode == ENTROPY_ZERO_RUN || (ENTROPY_RICE_BASE <= tile.entropy_mode
            <= ENTROPY_RICE_BASE + MAX_RICE_PARAMETER16),
        tile.entropy_mode == ENTROPY_ZERO_RUN ==> forall|p: nat|
            p <= MAX_RICE_PARAMETER16 ==> #[trigger] rice_bytes(folded@, p) >= zero_run_encoding(
                folded@,
                0,
            ).len(),
        tile.entropy_mode != ENTROPY_ZERO_RUN ==> is_first_minimum(
            |p: nat| rice_cost(folded@, p),
            MAX_RICE_PARAMETER16 as nat,
            (tile.entropy_mode - ENTROPY_RICE_BASE) as nat,
        ),
        tile.payload@.len() == modeled_bytes16(folded@),
        tile.entropy_mode == ENTROPY_ZERO_RUN <==> zero_run_encoding(folded@, 0).len()
            <= min_rice_bytes(folded@, MAX_RICE_PARAMETER16 as nat),
        tile.payload.len() <= 3 * folded.len(),
{
    let (mode, _) = modeled_entropy_cost16(folded.as_slice());
    proof {
        assert(folded_domain(folded@));
        crate::entropy::lemma_zero_run_encoding_len(folded@, 0);
        if mode != ENTROPY_ZERO_RUN {
            lemma_rice_stream_len(folded@, (mode - ENTROPY_RICE_BASE) as nat);
        }
    }
    if mode == ENTROPY_ZERO_RUN {
        proof {
            assert(folded_domain(folded@));
        }
        let payload = zero_run_payload(folded.as_slice());
        return EncodedTile { entropy_mode: ENTROPY_ZERO_RUN, prediction_mode, payload };
    }
    let payload = rice_payload(folded.as_slice(), mode - ENTROPY_RICE_BASE);
    EncodedTile { entropy_mode: mode, prediction_mode, payload }
}

// ---------------------------------------------------------------------------
// Fixed-width blocks
// ---------------------------------------------------------------------------

proof fn lemma_bit_width_bound(value: nat, width: nat)
    requires
        value < vstd::arithmetic::power2::pow2(width),
    ensures
        bit_width(value) <= width,
    decreases width,
{
    if value > 0 {
        vstd::arithmetic::power2::lemma2_to64();
        assert(width > 0);
        vstd::arithmetic::power2::lemma_pow2_unfold(width);
        lemma_bit_width_bound(value / 2, (width - 1) as nat);
    }
}

/// Bit width of a value, as the shift count at which it becomes zero.
fn value_bit_width(value: u32) -> (width: u8)
    ensures
        width == bit_width(value as nat),
        width <= 32,
{
    let mut rest = value;
    let mut width: u8 = 0;
    proof {
        lemma_bit_width_u32(value);
    }
    while rest != 0
        invariant
            bit_width(value as nat) == width + bit_width(rest as nat),
            bit_width(value as nat) <= 32,
        decreases rest,
    {
        rest = rest / 2;
        width = width + 1;
    }
    width
}

proof fn lemma_bit_width_u32(value: u32)
    ensures
        bit_width(value as nat) <= 32,
{
    vstd::arithmetic::power2::lemma2_to64();
    lemma_bit_width_bound(value as nat, 32);
}

/// Largest element of a slice, 0 when empty.
fn slice_max(values: &[u32]) -> (maximum: u32)
    ensures
        maximum == seq_max(values@),
{
    let mut maximum: u32 = 0;
    let mut index: usize = 0;
    proof {
        assert(values@.take(0) =~= Seq::<u32>::empty());
    }
    while index < values.len()
        invariant
            index <= values.len(),
            maximum == seq_max(values@.take(index as int)),
        decreases values.len() - index,
    {
        proof {
            assert(values@.take(index + 1).drop_last() =~= values@.take(index as int));
        }
        if values[index] > maximum {
            maximum = values[index];
        }
        index = index + 1;
    }
    proof {
        assert(values@.take(index as int) =~= values@);
    }
    maximum
}

proof fn lemma_seq_max_bounds(values: Seq<u32>)
    ensures
        forall|i: int| 0 <= i < values.len() ==> #[trigger] values[i] <= seq_max(values),
    decreases values.len(),
{
    if values.len() > 0 {
        lemma_seq_max_bounds(values.drop_last());
        assert forall|i: int| 0 <= i < values.len() implies #[trigger] values[i] <= seq_max(values) by {
            if i < values.len() - 1 {
                assert(values[i] == values.drop_last()[i]);
            }
        }
    }
}

/// Appends one fixed-width block: the bit width of its largest symbol, then every
/// symbol at that width, zero-padded to a whole byte.
pub fn put_fixed_block(output: &mut Vec<u8>, folded: &[u32])
    ensures
        final(output)@.len() >= old(output)@.len() + 1,
        final(output)@.subrange(0, old(output)@.len() as int) == old(output)@,
        final(output)@[old(output)@.len() as int] == bit_width(seq_max(folded@) as nat),
        packs_bits(
            final(output)@.subrange(old(output)@.len() as int + 1, final(output)@.len() as int),
            fixed_stream(folded@, bit_width(seq_max(folded@) as nat)),
        ),
{
    let maximum = slice_max(folded);
    let width = value_bit_width(maximum);
    let mut writer = BitWriter::new(Vec::new());
    let mut index: usize = 0;
    proof {
        assert(writer.bits() =~= fixed_stream(folded@.take(0), width as nat));
    }
    while index < folded.len()
        invariant
            width <= 32,
            index <= folded.len(),
            writer.wf(),
            writer.bits() == fixed_stream(folded@.take(index as int), width as nat),
        decreases folded.len() - index,
    {
        writer.put_bits(folded[index], width);
        proof {
            assert(folded@.take(index + 1).drop_last() =~= folded@.take(index as int));
        }
        index = index + 1;
    }
    proof {
        assert(folded@.take(index as int) =~= folded@);
    }
    let bytes = writer.finish();
    let ghost start = output@.len();
    output.push(width);
    let mut k: usize = 0;
    while k < bytes.len()
        invariant
            k <= bytes.len(),
            output@.len() == start + 1 + k,
            output@.subrange(0, start as int) == old(output)@,
            output@[start as int] == width,
            output@.subrange(start as int + 1, output@.len() as int) == bytes@.take(k as int),
        decreases bytes.len() - k,
    {
        let ghost before = output@;
        output.push(bytes[k]);
        proof {
            assert(output@.subrange(0, start as int) =~= before.subrange(0, start as int));
            assert(output@.subrange(start as int + 1, output@.len() as int) =~= bytes@.take(k + 1));
        }
        k = k + 1;
    }
    proof {
        assert(bytes@.take(k as int) =~= bytes@);
    }
}


/// Bytes of the block-pack coding of `folded`.
pub open spec fn block_pack_cost(folded: Seq<u32>) -> int
    decreases folded.len(),
{
    if folded.len() == 0 {
        0
    } else {
        let n = block_len(folded.len() as int);
        let width = bit_width(seq_max(folded.take(n)) as nat);
        1 + (n * width + 7) / 8 + block_pack_cost(folded.skip(n))
    }
}

proof fn lemma_fixed_stream_len(values: Seq<u32>, width: nat)
    ensures
        fixed_stream(values, width).len() == values.len() * width,
    decreases values.len(),
{
    if values.len() > 0 {
        lemma_fixed_stream_len(values.drop_last(), width);
        assert((values.len() - 1) * width + width == values.len() * width) by (nonlinear_arith);
    }
}

proof fn lemma_block_pack_append(p1: Seq<u8>, f1: Seq<u32>, p2: Seq<u8>, f2: Seq<u32>)
    requires
        block_pack_codes(p1, f1),
        (f1.len() as int) % (BLOCK_PACK_SYMBOLS as int) == 0,
        block_pack_codes(p2, f2),
    ensures
        block_pack_codes(p1 + p2, f1 + f2),
    decreases f1.len(),
{
    if f1.len() == 0 {
        assert(p1 + p2 =~= p2);
        assert(f1 + f2 =~= f2);
    } else {
        let n = BLOCK_PACK_SYMBOLS as int;
        assert(block_len(f1.len() as int) == n);
        assert(block_len((f1 + f2).len() as int) == n);
        let block = f1.take(n);
        assert((f1 + f2).take(n) =~= block);
        let width = bit_width(seq_max(block) as nat);
        let bytes = (n * width + 7) / 8;
        let whole = p1 + p2;
        assert(whole.subrange(1, 1 + bytes) =~= p1.subrange(1, 1 + bytes));
        assert(whole.subrange(1 + bytes, whole.len() as int) =~= p1.subrange(
            1 + bytes,
            p1.len() as int,
        ) + p2);
        assert((f1 + f2).skip(n) =~= f1.skip(n) + f2);
        lemma_block_pack_append(p1.subrange(1 + bytes, p1.len() as int), f1.skip(n), p2, f2);
    }
}

/// The block-pack coding of `folded`.
pub fn block_pack_payload(folded: &[u32]) -> (payload: Vec<u8>)
    ensures
        block_pack_codes(payload@, folded@),
{
    let mut payload: Vec<u8> = Vec::new();
    let mut start: usize = 0;
    proof {
        assert(folded@.take(0) =~= Seq::<u32>::empty());
    }
    while start < folded.len()
        invariant
            start <= folded.len(),
            start < folded.len() ==> start % BLOCK_PACK_SYMBOLS == 0,
            block_pack_codes(payload@, folded@.take(start as int)),
        decreases folded.len() - start,
    {
        let end = if folded.len() - start < BLOCK_PACK_SYMBOLS {
            folded.len()
        } else {
            start + BLOCK_PACK_SYMBOLS
        };
        let block = &folded[start..end];
        let ghost before = payload@;
        put_fixed_block(&mut payload, block);
        proof {
            let b = block@;
            let part = payload@.subrange(before.len() as int, payload@.len() as int);
            assert(payload@ =~= before + part);
            let width = bit_width(seq_max(b) as nat);
            let n = b.len() as int;
            lemma_fixed_stream_len(b, width);
            assert(block_len(n) == n);
            assert(b.take(n) =~= b);
            assert(part.subrange(1, part.len() as int) =~= payload@.subrange(before.len() as int + 1, payload@.len() as int));
            assert(b.skip(n) =~= Seq::<u32>::empty());
            assert(part.subrange(1 + (n * width + 7) / 8, part.len() as int) =~= Seq::<u8>::empty());
            assert(b.len() > 0);
            assert(part.len() == 1 + (n * width + 7) / 8);
            assert(part.subrange(1, 1 + (n * width + 7) / 8) =~= part.subrange(1, part.len() as int));
            assert(block_pack_codes(Seq::<u8>::empty(), Seq::<u32>::empty()));
            assert(block_pack_codes(part, b));
            lemma_block_pack_append(before, folded@.take(start as int), part, b);
            assert(folded@.take(start as int) + b =~= folded@.take(end as int));
        }
        start = end;
    }
    proof {
        assert(folded@.take(start as int) =~= folded@);
    }
    payload
}

/// Bytes of the block-pack coding of `folded`, without building it.
pub fn modeled_block_pack_cost(folded: &[u32]) -> (bytes: u64)
    requires
        folded.len() <= 0x4000_0000,
    ensures
        bytes == block_pack_cost(folded@),
{
    let mut bytes: u64 = 0;
    let mut start: usize = 0;
    proof {
        assert(folded@.skip(0) =~= folded@);
    }
    while start < folded.len()
        invariant
            start <= folded.len(),
            folded.len() <= 0x4000_0000,
            bytes + block_pack_cost(folded@.skip(start as int)) == block_pack_cost(folded@),
            bytes <= 6 * start,
        decreases folded.len() - start,
    {
        let remaining = folded.len() - start;
        let end = if remaining < BLOCK_PACK_SYMBOLS {
            folded.len()
        } else {
            start + BLOCK_PACK_SYMBOLS
        };
        let block = &folded[start..end];
        let maximum = slice_max(block);
        let width = value_bit_width(maximum) as u64;
        let count = (end - start) as u64;
        proof {
            let rest = folded@.skip(start as int);
            assert(rest.take(block_len(rest.len() as int)) =~= block@);
            assert(rest.skip(block_len(rest.len() as int)) =~= folded@.skip(end as int));
            assert(count * width <= 128 * 32) by (nonlinear_arith)
                requires
                    count <= 128,
                    width <= 32,
            ;
            assert(1 + (count * width + 7) / 8 <= 6 * count) by (nonlinear_arith)
                requires
                    1 <= count <= 128,
                    width <= 32,
            ;
        }
        bytes = bytes + 1 + (count * width + 7) / 8;
        start = end;
    }
    proof {
        assert(folded@.skip(start as int) =~= Seq::<u32>::empty());
    }
    bytes
}

proof fn lemma_bit_width_pow(value: nat)
    ensures
        value < vstd::arithmetic::power2::pow2(bit_width(value)),
    decreases value,
{
    vstd::arithmetic::power2::lemma2_to64();
    if value > 0 {
        lemma_bit_width_pow(value / 2);
        vstd::arithmetic::power2::lemma_pow2_unfold(bit_width(value));
    }
}

proof fn lemma_bit_width_monotone(a: nat, b: nat)
    requires
        a <= b,
    ensures
        bit_width(a) <= bit_width(b),
    decreases b,
{
    if a > 0 {
        lemma_bit_width_monotone(a / 2, b / 2);
    }
}

proof fn lemma_seq_max_within(values: Seq<u32>, bound: u32)
    requires
        forall|i: int| 0 <= i < values.len() ==> #[trigger] values[i] <= bound,
    ensures
        seq_max(values) <= bound,
    decreases values.len(),
{
    if values.len() > 0 {
        let shorter = values.drop_last();
        assert forall|i: int| 0 <= i < shorter.len() implies #[trigger] shorter[i] <= bound by {
            assert(shorter[i] == values[i]);
        }
        lemma_seq_max_within(shorter, bound);
    }
}

proof fn lemma_fixed_stream_split(values: Seq<u32>, width: nat, split: int)
    requires
        0 <= split <= values.len(),
    ensures
        fixed_stream(values, width) == fixed_stream(values.take(split), width) + fixed_stream(
            values.skip(split),
            width,
        ),
    decreases values.len(),
{
    if split == values.len() {
        assert(values.take(split) =~= values);
        assert(values.skip(split) =~= Seq::<u32>::empty());
        assert(fixed_stream(values, width) + Seq::<bool>::empty() =~= fixed_stream(values, width));
    } else {
        let shorter = values.drop_last();
        lemma_fixed_stream_split(shorter, width, split);
        assert(shorter.take(split) =~= values.take(split));
        assert(values.skip(split).drop_last() =~= shorter.skip(split));
        assert(values.skip(split).last() == values.last());
        assert(fixed_stream(values, width) =~= fixed_stream(values.take(split), width) + fixed_stream(
            values.skip(split),
            width,
        ));
    }
}

/// `folded` is a stream of `sample_count` symbols in the decoder's range whose
/// block-pack coding is exactly `payload`.
pub open spec fn block_pack_carries(payload: Seq<u8>, sample_count: int, max_folded: u32, folded: Seq<u32>) -> bool {
    &&& block_pack_codes(payload, folded)
    &&& folded.len() == sample_count
    &&& forall|i: int| 0 <= i < folded.len() ==> #[trigger] folded[i] <= max_folded
}

/// Reads block-pack blocks until `sample_count` symbols are known; widths above the
/// width of `max_folded` and symbols above `max_folded` are refused, as are nonzero
/// padding bits and trailing bytes. The block-pack coding of a stream is read back
/// as that stream.
#[verifier::rlimit(40)]
pub fn decode_block_pack_symbols(payload: &[u8], sample_count: usize, max_folded: u32) -> (r: Result<
    Vec<u32>,
    CodecError,
>)
    ensures
        r matches Ok(folded) ==> folded.len() == sample_count && forall|i: int|
            0 <= i < folded.len() ==> #[trigger] folded@[i] <= max_folded,
        r is Err ==> r matches Err(CodecError::Malformed(_)),
        forall|f: Seq<u32>| #[trigger]
            block_pack_carries(payload@, sample_count as int, max_folded, f) ==> (r matches Ok(v) && v@ == f),
{
    let max_width = value_bit_width(max_folded);
    let mut folded: Vec<u32> = Vec::new();
    let mut cursor: usize = 0;
    proof {
        assert forall|f: Seq<u32>| #[trigger]
            block_pack_carries(payload@, sample_count as int, max_folded, f) implies folded@ == f.take(0)
            && block_pack_codes(payload@.subrange(0, payload.len() as int), f.skip(0)) by {
            assert(f.skip(0) =~= f);
            assert(payload@.subrange(0, payload.len() as int) =~= payload@);
            assert(f.take(0) =~= Seq::<u32>::empty());
        }
    }
    while folded.len() < sample_count
        invariant
            folded.len() <= sample_count,
            max_width <= 32,
            max_width == bit_width(max_folded as nat),
            cursor <= payload.len(),
            forall|i: int| 0 <= i < folded.len() ==> #[trigger] folded@[i] <= max_folded,
            forall|f: Seq<u32>| #[trigger]
                block_pack_carries(payload@, sample_count as int, max_folded, f) ==> folded@ == f.take(
                    folded.len() as int,
                ) && block_pack_codes(
                    payload@.subrange(cursor as int, payload.len() as int),
                    f.skip(folded.len() as int),
                ),
        decreases sample_count - folded.len(),
    {
        let ghost k = folded.len() as int;
        let ghost block_start = cursor as int;
        let ghost before = folded@;
        let ghost rest = payload@.subrange(block_start, payload.len() as int);
        let remaining = sample_count - folded.len();
        let count = if remaining < BLOCK_PACK_SYMBOLS {
            remaining
        } else {
            BLOCK_PACK_SYMBOLS
        };
        proof {
            assert forall|f: Seq<u32>| #[trigger]
                block_pack_carries(payload@, sample_count as int, max_folded, f) implies {
                let s = f.skip(k);
                let block = s.take(count as int);
                let w = bit_width(seq_max(block) as nat);
                &&& s.len() == remaining
                &&& block_len(s.len() as int) == count
                &&& rest.len() >= 1 + (count * w + 7) / 8
                &&& rest[0] == w
                &&& w <= max_width
            } by {
                let s = f.skip(k);
                let block = s.take(count as int);
                assert forall|i: int| 0 <= i < block.len() implies #[trigger] block[i] <= max_folded by {
                    assert(block[i] == f[k + i]);
                }
                lemma_seq_max_within(block, max_folded);
                lemma_bit_width_monotone(seq_max(block) as nat, max_folded as nat);
            }
        }
        if cursor >= payload.len() {
            return Err(CodecError::Malformed("truncated block-pack control"));
        }
        let width = payload[cursor];
        proof {
            assert(rest[0] == width);
        }
        cursor = cursor + 1;
        if width > max_width {
            return Err(CodecError::Malformed("block-pack width is out of range"));
        }
        proof {
            assert(count * width <= 128 * 32) by (nonlinear_arith)
                requires
                    count <= 128,
                    width <= 32,
            ;
        }
        let bytes = (count * width as usize + 7) / 8;
        if bytes > payload.len() - cursor {
            return Err(CodecError::Malformed("truncated block-pack payload"));
        }
        let end = cursor + bytes;
        let piece = &payload[cursor..end];
        let mut reader = BitReader::new(piece);
        let mut j: usize = 0;
        let ghost start = folded.len();
        proof {
            assert forall|f: Seq<u32>| #[trigger]
                block_pack_carries(payload@, sample_count as int, max_folded, f) implies {
                let block = f.skip(k).take(count as int);
                &&& piece@ == rest.subrange(1, 1 + bytes)
                &&& width == bit_width(seq_max(block) as nat)
                &&& packs_bits(piece@, fixed_stream(block, width as nat))
                &&& folded@ == before + block.take(0)
                &&& reader.position() == fixed_stream(block.take(0), width as nat).len()
            } by {
                let block = f.skip(k).take(count as int);
                assert(piece@ =~= rest.subrange(1, 1 + bytes));
                assert(block.take(0) =~= Seq::<u32>::empty());
                assert(before + block.take(0) =~= before);
            }
        }
        while j < count
            invariant
                reader.wf(),
                reader.bits() == crate::bitio::bytes_bits(piece@),
                reader.input_bytes() == piece@,
                width <= 32,
                j <= count,
                1 <= count <= sample_count - start,
                start == k,
                folded.len() == start + j,
                forall|i: int| 0 <= i < folded.len() ==> #[trigger] folded@[i] <= max_folded,
                forall|f: Seq<u32>| #[trigger]
                    block_pack_carries(payload@, sample_count as int, max_folded, f) ==> {
                        let block = f.skip(k).take(count as int);
                        &&& width == bit_width(seq_max(block) as nat)
                        &&& packs_bits(piece@, fixed_stream(block, width as nat))
                        &&& folded@ == before + block.take(j as int)
                        &&& reader.position() == fixed_stream(block.take(j as int), width as nat).len()
                    },
            decreases count - j,
        {
            proof {
                assert forall|f: Seq<u32>| #[trigger]
                    block_pack_carries(payload@, sample_count as int, max_folded, f) implies {
                    let block = f.skip(k).take(count as int);
                    let position = reader.position();
                    &&& position + width <= reader.bits().len()
                    &&& reader.bits().subrange(position, position + width) == value_bits(
                        block[j as int] as u64,
                        width as nat,
                    )
                    &&& fixed_stream(block.take(j + 1), width as nat).len() == position + width
                    &&& (block[j as int] as u64) >> (width as u64) == 0
                } by {
                    let block = f.skip(k).take(count as int);
                    let w = width as nat;
                    let whole = fixed_stream(block, w);
                    let head = fixed_stream(block.take(j as int), w);
                    let code = value_bits(block[j as int] as u64, w);
                    lemma_fixed_stream_split(block, w, j + 1);
                    assert(block.take(j + 1).drop_last() =~= block.take(j as int));
                    assert(fixed_stream(block.take(j + 1), w) == head + code);
                    lemma_fixed_stream_len(block, w);
                    lemma_fixed_stream_len(block.skip(j + 1), w);
                    let bits = crate::bitio::bytes_bits(piece@);
                    assert(bits.take(whole.len() as int) == whole);
                    assert(bits.subrange(head.len() as int, (head.len() + code.len()) as int) =~= code) by {
                        assert forall|t: int| 0 <= t < code.len() implies bits.subrange(
                            head.len() as int,
                            (head.len() + code.len()) as int,
                        )[t] == code[t] by {
                            assert(bits[head.len() + t] == bits.take(whole.len() as int)[head.len() + t]);
                            assert(whole[head.len() + t] == (head + code)[head.len() + t]);
                        }
                    }
                    lemma_seq_max_bounds(block);
                    lemma_bit_width_pow(seq_max(block) as nat);
                    assert(block[j as int] <= seq_max(block));
                    vstd::bits::lemma_u64_shr_is_div(block[j as int] as u64, width as u64);
                    assert(block[j as int] as nat / vstd::arithmetic::power2::pow2(w) == 0) by {
                        vstd::arithmetic::div_mod::lemma_basic_div(
                            block[j as int] as int,
                            vstd::arithmetic::power2::pow2(w) as int,
                        );
                    }
                }
            }
            let value = reader.get_bits(width)?;
            proof {
                assert forall|f: Seq<u32>| #[trigger]
                    block_pack_carries(payload@, sample_count as int, max_folded, f) implies value
                    == f.skip(k).take(count as int)[j as int] by {
                    let block = f.skip(k).take(count as int);
                    crate::bitio::lemma_value_bits_injective(
                        value as u64,
                        block[j as int] as u64,
                        width as nat,
                    );
                    assert(block[j as int] == f[k + j]);
                }
            }
            if value > max_folded {
                return Err(CodecError::Malformed("residual is out of range"));
            }
            folded.push(value);
            j = j + 1;
            proof {
                assert forall|f: Seq<u32>| #[trigger]
                    block_pack_carries(payload@, sample_count as int, max_folded, f) implies folded@ == before
                    + f.skip(k).take(count as int).take(j as int) by {
                    assert(folded@ =~= before + f.skip(k).take(count as int).take(j as int));
                }
            }
        }
        proof {
            assert forall|f: Seq<u32>| #[trigger]
                block_pack_carries(payload@, sample_count as int, max_folded, f) implies (reader.position()
                + 7) / 8 == piece.len() && forall|i: int|
                reader.position() <= i < reader.bits().len() ==> !#[trigger] reader.bits()[i] by {
                let block = f.skip(k).take(count as int);
                assert(block.take(count as int) =~= block);
            }
        }
        reader.finish()?;
        cursor = end;
        proof {
            assert forall|f: Seq<u32>| #[trigger]
                block_pack_carries(payload@, sample_count as int, max_folded, f) implies folded@ == f.take(
                folded.len() as int,
            ) && block_pack_codes(
                payload@.subrange(cursor as int, payload.len() as int),
                f.skip(folded.len() as int),
            ) by {
                let s = f.skip(k);
                let block = s.take(count as int);
                assert(block.take(count as int) =~= block);
                assert(folded@ =~= f.take(folded.len() as int));
                assert(payload@.subrange(cursor as int, payload.len() as int) =~= rest.subrange(
                    1 + bytes,
                    rest.len() as int,
                ));
                assert(s.skip(count as int) =~= f.skip(folded.len() as int));
            }
        }
    }
    if cursor != payload.len() {
        proof {
            assert forall|f: Seq<u32>|
                !#[trigger] block_pack_carries(payload@, sample_count as int, max_folded, f) by {
                if block_pack_carries(payload@, sample_count as int, max_folded, f) {
                    assert(f.skip(folded.len() as int) =~= Seq::<u32>::empty());
                }
            }
        }
        return Err(CodecError::Malformed("trailing tile payload bytes"));
    }
    proof {
        assert forall|f: Seq<u32>| #[trigger]
            block_pack_carries(payload@, sample_count as int, max_folded, f) implies folded@ == f by {
            assert(f.take(folded.len() as int) =~= f);
        }
    }
    Ok(folded)
}

// ---------------------------------------------------------------------------
// High-bit tile encoders
// ---------------------------------------------------------------------------

/// Samples of a high-bit tile and its reference within the quantizer's range.
pub open spec fn tile_input16(
    samples: Seq<u16>,
    width: int,
    quantizer: Quantizer16,
    reference: Option<Seq<u16>>,
) -> bool {
    &&& quantizer.wf()
    &&& width >= 1
    &&& samples.len() <= 0x4000_0000
    &&& samples_within(samples, quantizer.spec_max_sample())
    &&& reference matches Some(r) ==> r.len() == samples.len() && samples_within(
        r,
        quantizer.spec_max_sample(),
    )
}

/// A high-bit tile whose payload carries the residuals that the encoder emits for
/// `samples` with the tile's prediction mode.
pub open spec fn tile_encodes16(
    tile: EncodedTile,
    samples: Seq<u16>,
    width: int,
    quantizer: Quantizer16,
    reference: Option<Seq<u16>>,
) -> bool {
    let refs = match reference {
        Some(r) => r,
        None => Seq::empty(),
    };
    &&& crate::residual::is_spatial_mode(tile.prediction_mode) || (tile.prediction_mode
        == PREDICT_TEMPORAL && reference is Some)
    &&& payload_codes16(
        tile.entropy_mode,
        tile.payload@,
        fold_all16(
            encode_residuals16(
                samples,
                tile.prediction_mode,
                width,
                quantizer.spec_step(),
                refs,
                quantizer.spec_max_sample(),
            ),
        ),
    )
}

fn predict_folded16(
    samples: &[u16],
    width: usize,
    mode: u8,
    quantizer: &Quantizer16,
    reference: &[u16],
) -> (folded: Vec<u32>)
    requires
        tile_input16(samples@, width as int, *quantizer, None),
        samples_within(reference@, quantizer.spec_max_sample()),
        mode == PREDICT_TEMPORAL || crate::residual::is_spatial_mode(mode),
        mode == PREDICT_TEMPORAL ==> reference.len() == samples.len(),
    ensures
        folded@ == fold_all16(
            encode_residuals16(
                samples@,
                mode,
                width as int,
                quantizer.spec_step(),
                reference@,
                quantizer.spec_max_sample(),
            ),
        ),
        tile_symbols16(folded@),
{
    let maximum = quantizer.max_sample();
    let predicted = predict_tile16(samples, width, mode, quantizer, reference);
    predicted.folded
}

/// Clamp-gradient residuals packed in fixed-width blocks.
pub fn encode_fixed_gradient_block_tile(samples: &[u16], width: usize, quantizer: &Quantizer16) -> (tile:
    EncodedTile)
    requires
        tile_input16(samples@, width as int, *quantizer, None),
    ensures
        tile_encodes16(tile, samples@, width as int, *quantizer, None),
        tile.entropy_mode == ENTROPY_BLOCK_PACK && tile.prediction_mode == PREDICT_CLAMP_GRADIENT,
{
    let empty: Vec<u16> = Vec::new();
    let folded = predict_folded16(samples, width, PREDICT_CLAMP_GRADIENT, quantizer, empty.as_slice());
    let payload = block_pack_payload(folded.as_slice());
    EncodedTile { entropy_mode: ENTROPY_BLOCK_PACK, prediction_mode: PREDICT_CLAMP_GRADIENT, payload }
}

/// Clamp-gradient residuals Rice-coded with a given parameter.
pub fn encode_fixed_gradient_rice_tile(
    samples: &[u16],
    width: usize,
    quantizer: &Quantizer16,
    parameter: u8,
) -> (tile: EncodedTile)
    requires
        tile_input16(samples@, width as int, *quantizer, None),
        parameter <= MAX_RICE_PARAMETER16,
    ensures
        tile_encodes16(tile, samples@, width as int, *quantizer, None),
        tile.entropy_mode == ENTROPY_RICE_BASE + parameter && tile.prediction_mode
            == PREDICT_CLAMP_GRADIENT,
{
    let empty: Vec<u16> = Vec::new();
    let folded = predict_folded16(samples, width, PREDICT_CLAMP_GRADIENT, quantizer, empty.as_slice());
    let payload = rice_payload(folded.as_slice(), parameter);
    EncodedTile {
        entropy_mode: ENTROPY_RICE_BASE + parameter,
        prediction_mode: PREDICT_CLAMP_GRADIENT,
        payload,
    }
}

/// Two same-shaped tiles coded with one Rice parameter; each payload is the one that
/// `encode_fixed_gradient_rice_tile` produces for its tile.
pub fn encode_fixed_gradient_rice_tile_pair(
    first: &[u16],
    second: &[u16],
    width: usize,
    quantizer: &Quantizer16,
    parameter: u8,
) -> (tiles: (EncodedTile, EncodedTile))
    requires
        tile_input16(first@, width as int, *quantizer, None),
        tile_input16(second@, width as int, *quantizer, None),
        parameter <= MAX_RICE_PARAMETER16,
    ensures
        tile_encodes16(tiles.0, first@, width as int, *quantizer, None),
        tile_encodes16(tiles.1, second@, width as int, *quantizer, None),
        tiles.0.entropy_mode == ENTROPY_RICE_BASE + parameter,
        tiles.1.entropy_mode == ENTROPY_RICE_BASE + parameter,
        tiles.0.prediction_mode == PREDICT_CLAMP_GRADIENT,
        tiles.1.prediction_mode == PREDICT_CLAMP_GRADIENT,
{
    let first_tile = encode_fixed_gradient_rice_tile(first, width, quantizer, parameter);
    let second_tile = encode_fixed_gradient_rice_tile(second, width, quantizer, parameter);
    (first_tile, second_tile)
}

/// Clamp-gradient residuals with the cheaper of zero-run and Rice coding.
pub fn encode_fixed_gradient_tile(samples: &[u16], width: usize, quantizer: &Quantizer16) -> (tile:
    EncodedTile)
    requires
        tile_input16(samples@, width as int, *quantizer, None),
    ensures
        tile_encodes16(tile, samples@, width as int, *quantizer, None),
        tile.prediction_mode == PREDICT_CLAMP_GRADIENT,
{
    let empty: Vec<u16> = Vec::new();
    let folded = predict_folded16(samples, width, PREDICT_CLAMP_GRADIENT, quantizer, empty.as_slice());
    finish_entropy16(folded, PREDICT_CLAMP_GRADIENT)
}

/// Paeth residuals with the cheaper of zero-run and Rice coding.
pub fn encode_spatial_tile16(samples: &[u16], width: usize, quantizer: &Quantizer16) -> (tile:
    EncodedTile)
    requires
        tile_input16(samples@, width as int, *quantizer, None),
    ensures
        tile_encodes16(tile, samples@, width as int, *quantizer, None),
        tile.prediction_mode == PREDICT_SPATIAL,
{
    let empty: Vec<u16> = Vec::new();
    let folded = predict_folded16(samples, width, PREDICT_SPATIAL, quantizer, empty.as_slice());
    finish_entropy16(folded, PREDICT_SPATIAL)
}

/// Residuals from the co-located reference samples with the cheaper of zero-run and
/// Rice coding.
pub fn encode_temporal_tile16(
    samples: &[u16],
    reference: &[u16],
    width: usize,
    quantizer: &Quantizer16,
) -> (tile: EncodedTile)
    requires
        tile_input16(samples@, width as int, *quantizer, Some(reference@)),
    ensures
        tile_encodes16(tile, samples@, width as int, *quantizer, Some(reference@)),
        tile.prediction_mode == PREDICT_TEMPORAL,
        tile.payload.len() <= 3 * samples.len(),
{
    let folded = predict_folded16(samples, width, PREDICT_TEMPORAL, quantizer, reference);
    proof {
        crate::residual16::lemma_encode_residuals16_len(
            samples@,
            PREDICT_TEMPORAL,
            width as int,
            quantizer.spec_step(),
            reference@,
            quantizer.spec_max_sample(),
        );
    }
    finish_entropy16(folded, PREDICT_TEMPORAL)
}

/// The folded clamp-gradient residuals of the middle row of a tile, predicted from
/// the source samples.
pub open spec fn sampled_row(
    samples: Seq<u16>,
    width: int,
    height: int,
    step: int,
    max_sample: int,
) -> Seq<u32> {
    let y = height / 2;
    Seq::new(
        width as nat,
        |x: int|
            {
                let source = y * width + x;
                let left: int = if x == 0 {
                    0
                } else {
                    samples[source - 1] as int
                };
                let above: int = if y == 0 {
                    0
                } else {
                    samples[source - width] as int
                };
                let upper_left: int = if x == 0 || y == 0 {
                    0
                } else {
                    samples[source - width - 1] as int
                };
                let prediction = spec_spatial_prediction(
                    SpatialPredictor::ClampGradient,
                    left,
                    above,
                    upper_left,
                    max_sample,
                );
                crate::bits::spec_zigzag(
                    crate::predict::spec_quantize(samples[source] - prediction, step),
                ) as u32
            },
    )
}

/// Chooses the entropy coding of a tile from its middle row: the cheaper of zero-run
/// and Rice, and whether fixed-width blocks would beat Rice on that row.
pub fn sample_fixed_gradient_entropy(
    samples: &[u16],
    width: usize,
    height: usize,
    quantizer: &Quantizer16,
) -> (selection: (u8, bool))
    requires
        tile_input16(samples@, width as int, *quantizer, None),
        samples.len() == width * height,
        height >= 1,
    ensures
        ({
            let row = sampled_row(
                samples@,
                width as int,
                height as int,
                quantizer.spec_step(),
                quantizer.spec_max_sample(),
            );
            &&& selection.0 == ENTROPY_ZERO_RUN ==> !selection.1 && forall|p: nat|
                p <= MAX_RICE_PARAMETER16 ==> #[trigger] rice_bytes(row, p) >= zero_run_encoding(
                    row,
                    0,
                ).len()
            &&& selection.0 != ENTROPY_ZERO_RUN ==> {
                &&& ENTROPY_RICE_BASE <= selection.0 <= ENTROPY_RICE_BASE + MAX_RICE_PARAMETER16
                &&& is_first_minimum(
                    |p: nat| rice_cost(row, p),
                    MAX_RICE_PARAMETER16 as nat,
                    (selection.0 - ENTROPY_RICE_BASE) as nat,
                )
                &&& rice_bytes(row, (selection.0 - ENTROPY_RICE_BASE) as nat) < zero_run_encoding(
                    row,
                    0,
                ).len()
                &&& selection.1 == (block_pack_cost(row) < rice_bytes(
                    row,
                    (selection.0 - ENTROPY_RICE_BASE) as nat,
                ))
            }
        }),
{
    let maximum = quantizer.max_sample();
    let y = height / 2;
    let mut folded: Vec<u32> = Vec::with_capacity(width);
    let ghost row = sampled_row(
        samples@,
        width as int,
        height as int,
        quantizer.spec_step(),
        quantizer.spec_max_sample(),
    );
    let mut x: usize = 0;
    proof {
        assert(y * width + width <= width * height) by (nonlinear_arith)
            requires
                y == height / 2,
                height >= 1,
                width >= 1,
        ;
    }
    while x < width
        invariant
            tile_input16(samples@, width as int, *quantizer, None),
            samples.len() == width * height,
            maximum == quantizer.spec_max_sample(),
            1 <= maximum <= 65535,
            y == height / 2,
            y * width + width <= samples.len(),
            row == sampled_row(
                samples@,
                width as int,
                height as int,
                quantizer.spec_step(),
                quantizer.spec_max_sample(),
            ),
            x <= width,
            folded@ == row.take(x as int),
            forall|i: int| 0 <= i < folded.len() ==> #[trigger] folded@[i] <= 0x2_0000,
        decreases width - x,
    {
        let source = y * width + x;
        proof {
            if y > 0 {
                assert(source >= width) by (nonlinear_arith)
                    requires
                        source == y * width + x,
                        y >= 1,
                ;
                assert(samples@[source - width] <= maximum);
                assert(source >= width + x) by (nonlinear_arith)
                    requires
                        source == y * width + x,
                        y >= 1,
                ;
                if x > 0 {
                    assert(samples@[source - width - 1] <= maximum);
                }
            }
            if x > 0 {
                assert(samples@[source - 1] <= maximum);
            }
        }
        let left: u16 = if x == 0 {
            0
        } else {
            samples[source - 1]
        };
        let above: u16 = if y == 0 {
            0
        } else {
            samples[source - width]
        };
        let upper_left: u16 = if x == 0 || y == 0 {
            0
        } else {
            samples[source - width - 1]
        };
        let prediction = spatial_prediction16(
            SpatialPredictor::ClampGradient,
            left,
            above,
            upper_left,
            maximum as u16,
        );
        let quantized = quantizer.quantize(samples[source] as i32 - prediction as i32);
        let value = crate::bits::zigzag(quantized);
        folded.push(value);
        proof {
            assert(row[x as int] == value);
            assert(folded@ =~= row.take(x + 1));
        }
        x = x + 1;
    }
    proof {
        assert(row.take(x as int) =~= row);
    }
    let (legacy_mode, legacy_bytes) = modeled_entropy_cost16(folded.as_slice());
    if legacy_mode == ENTROPY_ZERO_RUN {
        return (legacy_mode, false);
    }
    let block_bytes = modeled_block_pack_cost(folded.as_slice());
    (legacy_mode, block_bytes < legacy_bytes)
}

/// Codes a tile with clamp-gradient prediction and the entropy coding chosen from
/// its middle row.
pub fn encode_sampled_fixed_gradient_tile(
    samples: &[u16],
    width: usize,
    height: usize,
    quantizer: &Quantizer16,
) -> (tile: EncodedTile)
    requires
        tile_input16(samples@, width as int, *quantizer, None),
        samples.len() == width * height,
        height >= 1,
    ensures
        tile_encodes16(tile, samples@, width as int, *quantizer, None),
        tile.prediction_mode == PREDICT_CLAMP_GRADIENT,
{
    let selection = sample_fixed_gradient_entropy(samples, width, height, quantizer);
    encode_sampled_fixed_gradient_tile_selected(samples, width, quantizer, selection)
}

/// Codes a tile with clamp-gradient prediction and an entropy coding chosen before.
pub fn encode_sampled_fixed_gradient_tile_selected(
    samples: &[u16],
    width: usize,
    quantizer: &Quantizer16,
    selection: (u8, bool),
) -> (tile: EncodedTile)
    requires
        tile_input16(samples@, width as int, *quantizer, None),
        selection.0 == ENTROPY_ZERO_RUN || (ENTROPY_RICE_BASE <= selection.0 <= ENTROPY_RICE_BASE
            + MAX_RICE_PARAMETER16),
    ensures
        tile_encodes16(tile, samples@, width as int, *quantizer, None),
        tile.prediction_mode == PREDICT_CLAMP_GRADIENT,
        selection.1 ==> tile.entropy_mode == ENTROPY_BLOCK_PACK,
        !selection.1 && selection.0 != ENTROPY_ZERO_RUN ==> tile.entropy_mode == selection.0,
{
    let (sampled_mode, try_block_pack) = selection;
    if try_block_pack {
        return encode_fixed_gradient_block_tile(samples, width, quantizer);
    }
    if sampled_mode != ENTROPY_ZERO_RUN {
        return encode_fixed_gradient_rice_tile(samples, width, quantizer, sampled_mode - ENTROPY_RICE_BASE);
    }
    encode_fixed_gradient_tile(samples, width, quantizer)
}

} // verus!
