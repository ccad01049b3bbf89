use crate::bits::{get_u32, get_varint, le_bytes, le_value, put_u32, put_varint, spec_varint, varint_at, varint_length};
use crate::model::CodecError;
use vstd::prelude::*;

verus! {

/// Smallest and largest log2 of the order-0 frequency table.
pub const RANS_MIN_TABLE_LOG: u8 = 8;
pub const RANS_MAX_TABLE_LOG: u8 = 12;
/// Lower bound of the normalized coder state.
pub const RANS_BYTE_L: u32 = 8388608;
/// States of the interleaved coder.
pub const RANS_INTERLEAVED_STATES: usize = 4;
/// Largest folded symbol of the 8-bit order-0 alphabet, plus one.
pub const RANS_ALPHABET: usize = 511;

/// Size of the frequency table for a supported table log.
pub open spec fn spec_table_size(table_log: u8) -> int {
    if table_log == 8 {
        256
    } else if table_log == 9 {
        512
    } else if table_log == 10 {
        1024
    } else if table_log == 11 {
        2048
    } else {
        4096
    }
}

pub open spec fn supported_table_log(table_log: u8) -> bool {
    RANS_MIN_TABLE_LOG <= table_log <= RANS_MAX_TABLE_LOG
}

pub fn table_size_for(table_log: u8) -> (size: u32)
    requires
        supported_table_log(table_log),
    ensures
        size == spec_table_size(table_log),
{
    match table_log {
        8 => 256,
        9 => 512,
        10 => 1024,
        11 => 2048,
        _ => 4096,
    }
}

/// One symbol of an order-0 table: it owns the slots `cumulative..cumulative + frequency`.
#[derive(Clone, Copy, Debug, PartialEq, Eq, Structural)]
pub struct RansSymbol {
    pub value: u16,
    pub frequency: u16,
    pub cumulative: u16,
}

/// A normalized order-0 table for one tile and its modeled coded size.
pub struct RansPlan {
    pub table_log: u8,
    pub symbols: Vec<RansSymbol>,
    pub lookup: Vec<u16>,
    pub modeled_bytes: usize,
}

/// An order-0 table: symbols in increasing value order own consecutive slots from
/// zero that fill the table, and `lookup[v] - 1` is the position of symbol `v` when
/// it is present.
pub open spec fn table_ok(table_log: u8, symbols: Seq<RansSymbol>, lookup: Seq<u16>) -> bool {
    &&& supported_table_log(table_log)
    &&& 1 <= symbols.len() <= RANS_ALPHABET
    &&& symbols.len() <= spec_table_size(table_log)
    &&& lookup.len() == RANS_ALPHABET
    &&& forall|i: int|
        0 <= i < symbols.len() ==> {
            &&& #[trigger] symbols[i].frequency >= 1
            &&& symbols[i].cumulative + symbols[i].frequency <= spec_table_size(table_log)
            &&& symbols[i].value < RANS_ALPHABET
        }
    &&& forall|i: int, j: int|
        0 <= i < j < symbols.len() ==> #[trigger] symbols[i].value < #[trigger] symbols[j].value
    &&& forall|v: int|
        0 <= v < RANS_ALPHABET ==> {
            &&& #[trigger] lookup[v] <= symbols.len()
            &&& lookup[v] >= 1 ==> symbols[lookup[v] - 1].value == v
        }
    &&& symbols[0].cumulative == 0
    &&& forall|i: int|
        0 <= i < symbols.len() - 1 ==> #[trigger] symbols[i + 1].cumulative == symbols[i].cumulative
            + symbols[i].frequency
    &&& symbols[symbols.len() - 1].cumulative + symbols[symbols.len() - 1].frequency
        == spec_table_size(table_log)
}

/// The table `lookup` codes symbol `value`.
pub open spec fn table_covers(lookup: Seq<u16>, value: int) -> bool {
    0 <= value < RANS_ALPHABET && lookup[value] >= 1
}

impl RansPlan {
    pub open spec fn wf(&self) -> bool {
        table_ok(self.table_log, self.symbols@, self.lookup@)
    }

    /// The table codes symbol `value`.
    pub open spec fn covers(&self, value: int) -> bool {
        table_covers(self.lookup@, value)
    }
}

/// Encoder step: appends symbol `(frequency, cumulative)` to state `state`.
pub open spec fn spec_encode_step(state: int, frequency: int, cumulative: int, table_size: int) -> int {
    (state / frequency) * table_size + state % frequency + cumulative
}

/// Decoder step from a state whose slot belongs to symbol `(frequency, cumulative)`.
pub open spec fn spec_decode_step(state: int, frequency: int, cumulative: int, table_size: int) -> int {
    frequency * (state / table_size) + (state % table_size - cumulative)
}

/// Decoding undoes encoding: the encoded state's slot lies in the symbol's range,
/// and the decoder step returns the state before the symbol was appended.
pub proof fn lemma_rans_step_inverse(state: int, frequency: int, cumulative: int, table_size: int)
    requires
        state >= 0,
        frequency >= 1,
        cumulative >= 0,
        cumulative + frequency <= table_size,
    ensures
        cumulative <= spec_encode_step(state, frequency, cumulative, table_size) % table_size
            < cumulative + frequency,
        spec_decode_step(
            spec_encode_step(state, frequency, cumulative, table_size),
            frequency,
            cumulative,
            table_size,
        ) == state,
{
    let q = state / frequency;
    let r = state % frequency;
    let encoded = q * table_size + r + cumulative;
    assert(0 <= r < frequency);
    assert(q >= 0) by (nonlinear_arith)
        requires
            state >= 0,
            frequency >= 1,
            q == state / frequency,
    ;
    vstd::arithmetic::div_mod::lemma_fundamental_div_mod_converse(
        encoded,
        table_size,
        q,
        r + cumulative,
    );
    assert(state == frequency * q + r) by (nonlinear_arith)
        requires
            q == state / frequency,
            r == state % frequency,
            frequency >= 1,
    ;
}

pub fn rans_advance_encoder(state: u32, symbol: RansSymbol, table_log: u8) -> (next: u32)
    requires
        supported_table_log(table_log),
        symbol.frequency >= 1,
        symbol.cumulative + symbol.frequency <= spec_table_size(table_log),
        state < (2147483648int / spec_table_size(table_log)) * symbol.frequency,
    ensures
        next == spec_encode_step(
            state as int,
            symbol.frequency as int,
            symbol.cumulative as int,
            spec_table_size(table_log),
        ),
{
    let frequency = symbol.frequency as u32;
    let table_size = table_size_for(table_log);
    let quotient = state / frequency;
    proof {
        let bound = 2147483648int / spec_table_size(table_log);
        assert(quotient < bound) by (nonlinear_arith)
            requires
                quotient == state / frequency,
                state < bound * frequency,
                frequency >= 1,
        ;
        if table_log == 8 {
            assert(bound == 8388608);
            assert(quotient * table_size <= 2147483648) by (nonlinear_arith)
                requires quotient < 8388608, table_size == 256;
        } else if table_log == 9 {
            assert(bound == 4194304);
            assert(quotient * table_size <= 2147483648) by (nonlinear_arith)
                requires quotient < 4194304, table_size == 512;
        } else if table_log == 10 {
            assert(bound == 2097152);
            assert(quotient * table_size <= 2147483648) by (nonlinear_arith)
                requires quotient < 2097152, table_size == 1024;
        } else if table_log == 11 {
            assert(bound == 1048576);
            assert(quotient * table_size <= 2147483648) by (nonlinear_arith)
                requires quotient < 1048576, table_size == 2048;
        } else {
            assert(bound == 524288);
            assert(quotient * table_size <= 2147483648) by (nonlinear_arith)
                requires quotient < 524288, table_size == 4096;
        }
    }
    quotient * table_size + state % frequency + symbol.cumulative as u32
}

/// Next decoder state before renormalization, as a wide integer so that overflow
/// can be detected.
pub fn rans_decoder_next(state: u32, symbol: RansSymbol, slot: u32, table_log: u8) -> (next: u64)
    requires
        supported_table_log(table_log),
        symbol.cumulative <= slot,
        slot == state as int % spec_table_size(table_log),
    ensures
        next == spec_decode_step(
            state as int,
            symbol.frequency as int,
            symbol.cumulative as int,
            spec_table_size(table_log),
        ),
{
    let table_size = table_size_for(table_log);
    let quotient: u64 = (state / table_size) as u64;
    let frequency: u64 = symbol.frequency as u64;
    proof {
        assert(frequency * quotient <= 0xffff * 0xffff_ffff) by (nonlinear_arith)
            requires
                quotient <= 0xffff_ffff,
                frequency <= 0xffff,
        ;
    }
    frequency * quotient + (slot - symbol.cumulative as u32) as u64
}

pub fn rans_advance_decoder(state: u32, symbol: RansSymbol, slot: u32, table_log: u8) -> (r: Result<
    u32,
    CodecError,
>)
    requires
        supported_table_log(table_log),
        symbol.cumulative <= slot,
        slot == state as int % spec_table_size(table_log),
    ensures
        r matches Ok(next) ==> next == spec_decode_step(
            state as int,
            symbol.frequency as int,
            symbol.cumulative as int,
            spec_table_size(table_log),
        ),
        r is Ok <==> spec_decode_step(
            state as int,
            symbol.frequency as int,
            symbol.cumulative as int,
            spec_table_size(table_log),
        ) <= u32::MAX,
        r is Err ==> r matches Err(CodecError::Malformed(_)),
{
    let next = rans_decoder_next(state, symbol, slot, table_log);
    if next > u32::MAX as u64 {
        return Err(CodecError::Malformed("order-0 state overflow"));
    }
    Ok(next as u32)
}

/// Outcome of shifting the bytes of `payload` from `cursor` on into `state` until it
/// reaches the normalized range: the state and the cursor then, or `None` when the
/// payload ends first.
pub open spec fn refill(state: nat, payload: Seq<u8>, cursor: int) -> Option<(nat, int)>
    decreases payload.len() - cursor,
{
    if state >= RANS_BYTE_L {
        Some((state, cursor))
    } else if cursor < 0 || cursor >= payload.len() {
        None
    } else {
        refill(state * 256 + payload[cursor] as nat, payload, cursor + 1)
    }
}

/// Shifts input bytes into the state until it reaches the normalized range.
pub fn rans_renormalize(state: &mut u32, payload: &[u8], cursor: &mut usize) -> (r: Result<
    (),
    CodecError,
>)
    ensures
        r is Ok <==> refill(*old(state) as nat, payload@, *old(cursor) as int) is Some,
        r is Ok ==> refill(*old(state) as nat, payload@, *old(cursor) as int) == Some(
            (*final(state) as nat, *final(cursor) as int),
        ),
        r is Ok ==> *final(state) >= RANS_BYTE_L,
        *final(cursor) >= *old(cursor),
        *old(cursor) <= payload.len() ==> *final(cursor) <= payload.len(),
        r is Err ==> r matches Err(CodecError::Malformed(_)),
{
    while *state < RANS_BYTE_L
        invariant
            *cursor >= *old(cursor),
            *old(cursor) <= payload.len() ==> *cursor <= payload.len(),
            refill(*old(state) as nat, payload@, *old(cursor) as int) == refill(
                *state as nat,
                payload@,
                *cursor as int,
            ),
        decreases payload.len() - *cursor,
    {
        if *cursor >= payload.len() {
            return Err(CodecError::Malformed("truncated order-0 payload"));
        }
        let byte = payload[*cursor];
        *cursor = *cursor + 1;
        *state = *state * 256 + byte as u32;
    }
    Ok(())
}

/// Remainder entry `left` comes before `right`: a larger remainder, or an equal
/// remainder and a smaller symbol.
pub open spec fn spec_remainder_before(left: (u64, u16), right: (u64, u16)) -> bool {
    left.0 > right.0 || (left.0 == right.0 && left.1 < right.1)
}

/// No entry comes before an earlier one.
pub open spec fn remainders_sorted(items: Seq<(u64, u16)>) -> bool {
    forall|i: int, j: int| 0 <= i < j < items.len() ==> !spec_remainder_before(#[trigger] items[j], #[trigger] items[i])
}

/// Orders remainders by decreasing remainder, ties by increasing symbol.
fn remainder_before(left: (u64, u16), right: (u64, u16)) -> (before: bool)
    ensures
        before == spec_remainder_before(left, right),
{
    left.0 > right.0 || (left.0 == right.0 && left.1 < right.1)
}

/// Stable merge sort of remainder entries by `remainder_before`: the same entries,
/// none placed after one that it comes before.
pub fn sort_remainders(items: Vec<(u64, u16)>) -> (sorted: Vec<(u64, u16)>)
    ensures
        sorted.len() == items.len(),
        sorted@.to_multiset() == items@.to_multiset(),
        remainders_sorted(sorted@),
    decreases items.len(),
{
    broadcast use vstd::seq_lib::group_to_multiset_ensures;

    let length = items.len();
    if length <= 1 {
        return items;
    }
    let middle = length / 2;
    let mut left: Vec<(u64, u16)> = Vec::with_capacity(middle);
    let mut right: Vec<(u64, u16)> = Vec::with_capacity(length - middle);
    let mut index: usize = 0;
    while index < length
        invariant
            length == items.len(),
            middle == length / 2,
            index <= length,
            left@ == items@.subrange(0, if index < middle {
                index as int
            } else {
                middle as int
            }),
            right@ == items@.subrange(middle as int, if index < middle {
                middle as int
            } else {
                index as int
            }),
        decreases length - index,
    {
        if index < middle {
            left.push(items[index]);
        } else {
            right.push(items[index]);
        }
        index = index + 1;
        proof {
            assert(left@ =~= items@.subrange(0, if index < middle {
                index as int
            } else {
                middle as int
            }));
            assert(right@ =~= items@.subrange(middle as int, if index < middle {
                middle as int
            } else {
                index as int
            }));
        }
    }
    proof {
        assert(items@ =~= left@ + right@);
        vstd::seq_lib::lemma_multiset_commutative(left@, right@);
    }
    let left = sort_remainders(left);
    let right = sort_remainders(right);
    let mut merged: Vec<(u64, u16)> = Vec::with_capacity(length);
    let mut i: usize = 0;
    let mut j: usize = 0;
    proof {
        assert(merged@ =~= left@.take(0) + right@.take(0));
    }
    while i < left.len() || j < right.len()
        invariant
            i <= left.len(),
            j <= right.len(),
            merged.len() == i + j,
            left.len() + right.len() == length,
            remainders_sorted(left@),
            remainders_sorted(right@),
            remainders_sorted(merged@),
            merged@.to_multiset() == left@.take(i as int).to_multiset().add(right@.take(j as int).to_multiset()),
            i < left.len() ==> forall|k: int| 0 <= k < merged.len() ==> !spec_remainder_before(left@[i as int], #[trigger] merged@[k]),
            j < right.len() ==> forall|k: int| 0 <= k < merged.len() ==> !spec_remainder_before(right@[j as int], #[trigger] merged@[k]),
        decreases left.len() + right.len() - i - j,
    {
        let ghost before = merged@;
        if j >= right.len() || (i < left.len() && !remainder_before(right[j], left[i])) {
            let item = left[i];
            merged.push(item);
            proof {
                assert(left@.take(i + 1) =~= left@.take(i as int).push(item));
                assert(merged@ == before.push(item));
                vstd::seq_lib::to_multiset_build(before, item);
                vstd::seq_lib::to_multiset_build(left@.take(i as int), item);
                assert(merged@.to_multiset() =~= before.to_multiset().insert(item));
                assert(left@.take(i + 1).to_multiset() =~= left@.take(i as int).to_multiset().insert(item));
                assert(merged@.to_multiset() =~= left@.take(i + 1).to_multiset().add(right@.take(j as int).to_multiset()));
                assert forall|a: int, b: int| 0 <= a < b < merged.len() implies !spec_remainder_before(
                    #[trigger] merged@[b],
                    #[trigger] merged@[a],
                ) by {
                    if b == merged.len() - 1 {
                        assert(merged@[b] == item);
                        assert(merged@[a] == before[a]);
                    } else {
                        assert(merged@[a] == before[a] && merged@[b] == before[b]);
                    }
                }
                if i + 1 < left.len() {
                    assert forall|k: int| 0 <= k < merged.len() implies !spec_remainder_before(
                        left@[i + 1],
                        #[trigger] merged@[k],
                    ) by {
                        assert(!spec_remainder_before(left@[i + 1], left@[i as int]));
                        if k < before.len() {
                            assert(merged@[k] == before[k]);
                            assert(!spec_remainder_before(left@[i as int], before[k]));
                        }
                    }
                }
                if j < right.len() {
                    assert forall|k: int| 0 <= k < merged.len() implies !spec_remainder_before(
                        right@[j as int],
                        #[trigger] merged@[k],
                    ) by {
                        if k < before.len() {
                            assert(merged@[k] == before[k]);
                        }
                    }
                }
            }
            i = i + 1;
        } else {
            let item = right[j];
            merged.push(item);
            proof {
                assert(right@.take(j + 1) =~= right@.take(j as int).push(item));
                assert(merged@ == before.push(item));
                vstd::seq_lib::to_multiset_build(before, item);
                vstd::seq_lib::to_multiset_build(right@.take(j as int), item);
                assert(merged@.to_multiset() =~= before.to_multiset().insert(item));
                assert(right@.take(j + 1).to_multiset() =~= right@.take(j as int).to_multiset().insert(item));
                assert(merged@.to_multiset() =~= left@.take(i as int).to_multiset().add(right@.take(j + 1).to_multiset()));
                assert forall|a: int, b: int| 0 <= a < b < merged.len() implies !spec_remainder_before(
                    #[trigger] merged@[b],
                    #[trigger] merged@[a],
                ) by {
                    if b == merged.len() - 1 {
                        assert(merged@[b] == item);
                        assert(merged@[a] == before[a]);
                    } else {
                        assert(merged@[a] == before[a] && merged@[b] == before[b]);
                    }
                }
                if j + 1 < right.len() {
                    assert forall|k: int| 0 <= k < merged.len() implies !spec_remainder_before(
                        right@[j + 1],
                        #[trigger] merged@[k],
                    ) by {
                        assert(!spec_remainder_before(right@[j + 1], right@[j as int]));
                        if k < before.len() {
                            assert(merged@[k] == before[k]);
                            assert(!spec_remainder_before(right@[j as int], before[k]));
                        }
                    }
                }
                if i < left.len() {
                    assert forall|k: int| 0 <= k < merged.len() implies !spec_remainder_before(
                        left@[i as int],
                        #[trigger] merged@[k],
                    ) by {
                        if k < before.len() {
                            assert(merged@[k] == before[k]);
                        }
                    }
                }
            }
            j = j + 1;
        }
    }
    proof {
        assert(left@.take(i as int) =~= left@);
        assert(right@.take(j as int) =~= right@);
    }
    merged
}

/// Observed symbols in strictly increasing value order.
pub open spec fn observed_sorted(observed: Seq<(u16, u32)>) -> bool {
    forall|i: int, j: int| 0 <= i < j < observed.len() ==> #[trigger] observed[i].0 < #[trigger] observed[j].0
}

/// Position of `value` among observed symbols sorted by strictly increasing value.
fn find_observed(observed: &[(u16, u32)], value: u16) -> (index: Option<usize>)
    ensures
        index matches Some(i) ==> i < observed.len() && observed@[i as int].0 == value,
        index is None && observed_sorted(observed@) ==> forall|i: int|
            0 <= i < observed.len() ==> #[trigger] observed@[i].0 != value,
{
    let mut low: usize = 0;
    let mut high: usize = observed.len();
    while low < high
        invariant
            low <= high <= observed.len(),
            observed_sorted(observed@) ==> forall|i: int| 0 <= i < low ==> #[trigger] observed@[i].0 < value,
            observed_sorted(observed@) ==> forall|i: int|
                high <= i < observed.len() ==> #[trigger] observed@[i].0 > value,
        decreases high - low,
    {
        let middle = low + (high - low) / 2;
        let candidate = observed[middle].0;
        if candidate == value {
            return Some(middle);
        } else if candidate < value {
            proof {
                if observed_sorted(observed@) {
                    assert forall|i: int| 0 <= i < middle + 1 implies #[trigger] observed@[i].0 < value by {
                        if i < middle {
                            assert(observed@[i].0 < observed@[middle as int].0);
                        }
                    }
                }
            }
            low = middle + 1;
        } else {
            proof {
                if observed_sorted(observed@) {
                    assert forall|i: int| middle <= i < observed.len() implies #[trigger] observed@[i].0 > value by {
                        if i > middle {
                            assert(observed@[middle as int].0 < observed@[i].0);
                        }
                    }
                }
            }
            high = middle;
        }
    }
    None
}

/// Slots of a `table_size` table left once every observed symbol has one.
pub open spec fn spare_slots(observed: Seq<(u16, u32)>, table_size: int) -> int {
    table_size - observed.len()
}

/// Slots of a symbol before the leftover slots are handed out: one, plus its share
/// of the spare slots, rounded down.
pub open spec fn base_frequency(entry: (u16, u32), spare: int, sample_count: int) -> int {
    1 + (entry.1 * spare) / sample_count
}

/// The remainder of a symbol's share, paired with the symbol.
pub open spec fn remainder_entry(entry: (u16, u32), spare: int, sample_count: int) -> (u64, u16) {
    (((entry.1 * spare) % sample_count) as u64, entry.0)
}

/// The remainder entries of all observed symbols, in symbol order.
pub open spec fn remainder_entries(observed: Seq<(u16, u32)>, table_size: int, sample_count: int) -> Seq<(u64, u16)> {
    Seq::new(
        observed.len(),
        |i: int| remainder_entry(observed[i], spare_slots(observed, table_size), sample_count),
    )
}

/// Base slots of the first `count` symbols.
pub open spec fn base_total(observed: Seq<(u16, u32)>, table_size: int, sample_count: int, count: int) -> int
    decreases count,
{
    if count <= 0 {
        0
    } else {
        base_total(observed, table_size, sample_count, count - 1) + base_frequency(
            observed[count - 1],
            spare_slots(observed, table_size),
            sample_count,
        )
    }
}

/// Leftover slots once every symbol has its base slots (none when they overflow).
pub open spec fn extra_slots(observed: Seq<(u16, u32)>, table_size: int, sample_count: int) -> int {
    let assigned = base_total(observed, table_size, sample_count, observed.len() as int);
    if table_size > assigned {
        table_size - assigned
    } else {
        0
    }
}

/// `order` lists the remainder entries, largest remainder first, ties to the smaller
/// symbol.
pub open spec fn remainder_order(
    observed: Seq<(u16, u32)>,
    table_size: int,
    sample_count: int,
    order: Seq<(u64, u16)>,
) -> bool {
    &&& order.to_multiset() == remainder_entries(observed, table_size, sample_count).to_multiset()
    &&& remainders_sorted(order)
}

/// Symbol `value` is among the first `limit` entries of `order`.
pub open spec fn bumped(order: Seq<(u64, u16)>, limit: int, value: u16) -> bool {
    exists|p: int| 0 <= p < limit && p < order.len() && #[trigger] order[p].1 == value
}

/// Slots of symbol `i`: its base slots, plus one when it is among the first leftover
/// slots' worth of entries of `order`.
pub open spec fn normalized_frequency(
    observed: Seq<(u16, u32)>,
    table_size: int,
    sample_count: int,
    order: Seq<(u64, u16)>,
    i: int,
) -> int {
    base_frequency(observed[i], spare_slots(observed, table_size), sample_count) + if bumped(
        order,
        extra_slots(observed, table_size, sample_count),
        observed[i].0,
    ) {
        1int
    } else {
        0int
    }
}

/// An entry of a permutation of the remainder entries is one of them.
proof fn lemma_order_member(order: Seq<(u64, u16)>, entries: Seq<(u64, u16)>, p: int)
    requires
        order.to_multiset() == entries.to_multiset(),
        0 <= p < order.len(),
    ensures
        exists|a: int| 0 <= a < entries.len() && #[trigger] entries[a] == order[p],
{
    broadcast use vstd::seq_lib::group_to_multiset_ensures;

    assert(order.contains(order[p]));
    assert(order.to_multiset().count(order[p]) > 0);
    assert(entries.contains(order[p]));
}

/// A permutation of entries with distinct symbols has distinct symbols.
proof fn lemma_order_distinct(order: Seq<(u64, u16)>, entries: Seq<(u64, u16)>, p: int, q: int)
    requires
        order.to_multiset() == entries.to_multiset(),
        forall|a: int, b: int| 0 <= a < b < entries.len() ==> #[trigger] entries[a].1 != #[trigger] entries[b].1,
        0 <= p < q < order.len(),
    ensures
        order[p].1 != order[q].1,
{
    broadcast use vstd::seq_lib::group_to_multiset_ensures;

    if order[p].1 == order[q].1 {
        lemma_order_member(order, entries, p);
        lemma_order_member(order, entries, q);
        let a = choose|a: int| 0 <= a < entries.len() && #[trigger] entries[a] == order[p];
        let b = choose|b: int| 0 <= b < entries.len() && #[trigger] entries[b] == order[q];
        if a < b {
            assert(entries[a].1 != entries[b].1);
        } else if b < a {
            assert(entries[b].1 != entries[a].1);
        }
        assert(a == b);
        let x = order[p];
        assert(order[q] == x);
        // `x` occurs at least twice in `order` and once in `entries`.
        let rest = order.remove(p);
        assert(rest.to_multiset() == order.to_multiset().remove(x));
        assert(rest[q - 1] == x);
        assert(rest.contains(x));
        assert(rest.to_multiset().count(x) > 0);
        let others = entries.remove(a);
        assert(others.to_multiset() == entries.to_multiset().remove(x));
        assert(!others.contains(x)) by {
            if others.contains(x) {
                let c = choose|c: int| 0 <= c < others.len() && others[c] == x;
                if c < a {
                    assert(others[c] == entries[c]);
                    assert(entries[c].1 != entries[a].1);
                } else {
                    assert(others[c] == entries[c + 1]);
                    assert(entries[a].1 != entries[c + 1].1);
                }
            }
        }
        assert(others.to_multiset().count(x) == 0);
    }
}

/// Scales observed counts to a table of `table_size` slots: every symbol keeps at
/// least one slot, the rest is shared in proportion to the counts, and leftover
/// slots go to the largest remainders, ties to the smaller symbol.
pub fn normalize_rans_frequencies(observed: &[(u16, u32)], table_size: u32, sample_count: u32) -> (frequencies: Vec<u16>)
    requires
        observed.len() <= table_size <= 4096,
        observed.len() > 0 ==> sample_count > 0,
        forall|i: int| 0 <= i < observed.len() ==> #[trigger] observed@[i].1 <= sample_count,
    ensures
        frequencies.len() == observed.len(),
        forall|i: int| 0 <= i < frequencies.len() ==> 1 <= #[trigger] frequencies@[i] <= table_size + 1,
        observed_sorted(observed@) ==> exists|order: Seq<(u64, u16)>|
            #[trigger] remainder_order(observed@, table_size as int, sample_count as int, order) && forall|i: int|
                0 <= i < frequencies.len() ==> #[trigger] frequencies@[i] == normalized_frequency(
                    observed@,
                    table_size as int,
                    sample_count as int,
                    order,
                    i,
                ),
{
    let remaining = table_size - observed.len() as u32;
    let ghost spare = spare_slots(observed@, table_size as int);
    let ghost entries = remainder_entries(observed@, table_size as int, sample_count as int);
    let mut frequencies: Vec<u16> = Vec::with_capacity(observed.len());
    let mut remainders: Vec<(u64, u16)> = Vec::with_capacity(observed.len());
    let mut assigned: u32 = 0;
    let mut index: usize = 0;
    while index < observed.len()
        invariant
            index <= observed.len(),
            observed.len() <= table_size <= 4096,
            remaining == table_size - observed.len(),
            spare == remaining,
            entries == remainder_entries(observed@, table_size as int, sample_count as int),
            observed.len() > 0 ==> sample_count > 0,
            forall|i: int| 0 <= i < observed.len() ==> #[trigger] observed@[i].1 <= sample_count,
            frequencies.len() == index,
            forall|i: int| 0 <= i < index ==> 1 <= #[trigger] frequencies@[i] <= remaining + 1,
            forall|i: int|
                0 <= i < index ==> #[trigger] frequencies@[i] == base_frequency(observed@[i], spare, sample_count as int),
            remainders@ == entries.take(index as int),
            assigned == base_total(observed@, table_size as int, sample_count as int, index as int),
            assigned <= index * (remaining + 1),
        decreases observed.len() - index,
    {
        let (value, count) = observed[index];
        proof {
            assert(count * remaining <= 0xffff_ffff * 4096) by (nonlinear_arith)
                requires
                    count <= 0xffff_ffff,
                    remaining <= 4096,
            ;
        }
        let scaled = count as u64 * remaining as u64;
        proof {
            assert(scaled / (sample_count as u64) <= remaining) by (nonlinear_arith)
                requires
                    scaled == count * remaining,
                    count <= sample_count,
                    sample_count > 0,
            ;
        }
        let frequency = 1 + (scaled / sample_count as u64) as u16;
        frequencies.push(frequency);
        proof {
            assert((index + 1) * (remaining + 1) == index * (remaining + 1) + remaining + 1) by (nonlinear_arith);
            assert(index * (remaining + 1) <= 4096 * 4097) by (nonlinear_arith)
                requires
                    index <= 4096,
                    remaining <= 4096,
            ;
        }
        assigned = assigned + frequency as u32;
        remainders.push((scaled % sample_count as u64, value));
        proof {
            assert(entries[index as int] == (scaled % sample_count as u64, value));
            assert(remainders@ =~= entries.take(index + 1));
        }
        index = index + 1;
    }
    proof {
        assert(remainders@ =~= entries);
    }
    let remainders = sort_remainders(remainders);
    let ghost order = remainders@;
    let extra = table_size.saturating_sub(assigned) as usize;
    proof {
        assert forall|i: int| 0 <= i < frequencies.len() implies base_frequency(
            observed@[i],
            spare,
            sample_count as int,
        ) <= remaining + 1 by {
            assert(frequencies@[i] == base_frequency(observed@[i], spare, sample_count as int));
        }
        assert(extra == extra_slots(observed@, table_size as int, sample_count as int));
        if observed_sorted(observed@) {
            assert forall|a: int, b: int| 0 <= a < b < entries.len() implies #[trigger] entries[a].1
                != #[trigger] entries[b].1 by {
                assert(observed@[a].0 < observed@[b].0);
            }
        }
    }
    let mut position: usize = 0;
    while position < extra && position < remainders.len()
        invariant
            table_size <= 4096,
            observed.len() <= table_size,
            remaining == table_size - observed.len(),
            spare == remaining,
            remainders@ == order,
            order.len() == observed.len(),
            order.to_multiset() == entries.to_multiset(),
            entries == remainder_entries(observed@, table_size as int, sample_count as int),
            observed_sorted(observed@) ==> forall|a: int, b: int|
                0 <= a < b < entries.len() ==> #[trigger] entries[a].1 != #[trigger] entries[b].1,
            position <= extra,
            position <= order.len(),
            frequencies.len() == observed.len(),
            forall|i: int| 0 <= i < frequencies.len() ==> 1 <= #[trigger] frequencies@[i] <= table_size + 1,
            observed_sorted(observed@) ==> forall|i: int|
                0 <= i < frequencies.len() ==> #[trigger] frequencies@[i] == base_frequency(
                    observed@[i],
                    spare,
                    sample_count as int,
                ) + if bumped(order, position as int, observed@[i].0) {
                    1int
                } else {
                    0int
                },
            forall|i: int| 0 <= i < frequencies.len() ==> base_frequency(
                observed@[i],
                spare,
                sample_count as int,
            ) <= remaining + 1,
        decreases remainders.len() - position,
    {
        let (_, value) = remainders[position];
        let ghost before = frequencies@;
        if let Some(found) = find_observed(observed, value) {
            if frequencies[found] <= table_size as u16 {
                let bumped_frequency = frequencies[found] + 1;
                frequencies.set(found, bumped_frequency);
            }
            proof {
                if observed_sorted(observed@) {
                    let v = observed@[found as int].0;
                    assert(v == value);
                    assert(!bumped(order, position as int, value)) by {
                        if bumped(order, position as int, value) {
                            let p = choose|p: int| 0 <= p < position && p < order.len() && #[trigger] order[p].1 == value;
                            lemma_order_distinct(order, entries, p, position as int);
                        }
                    }
                    assert(before[found as int] == base_frequency(observed@[found as int], spare, sample_count as int));
                    assert(before[found as int] <= remaining + 1);
                    assert(bumped(order, position + 1, value)) by {
                        assert(order[position as int].1 == value);
                    }
                    assert forall|i: int| 0 <= i < frequencies.len() implies #[trigger] frequencies@[i]
                        == base_frequency(observed@[i], spare, sample_count as int) + if bumped(
                        order,
                        position + 1,
                        observed@[i].0,
                    ) {
                        1int
                    } else {
                        0int
                    } by {
                        if i != found {
                            assert(observed@[i].0 != value) by {
                                if i < found {
                                    assert(observed@[i].0 < observed@[found as int].0);
                                } else {
                                    assert(observed@[found as int].0 < observed@[i].0);
                                }
                            }
                            assert(bumped(order, position + 1, observed@[i].0) == bumped(
                                order,
                                position as int,
                                observed@[i].0,
                            )) by {
                                if bumped(order, position + 1, observed@[i].0) {
                                    let p = choose|p: int|
                                        0 <= p < position + 1 && p < order.len() && #[trigger] order[p].1
                                            == observed@[i].0;
                                    assert(p != position);
                                }
                            }
                        }
                    }
                }
            }
        } else {
            proof {
                if observed_sorted(observed@) {
                    lemma_order_member(order, entries, position as int);
                    let a = choose|a: int| 0 <= a < entries.len() && #[trigger] entries[a] == order[position as int];
                    assert(observed@[a].0 == value);
                    assert(false);
                }
            }
        }
        position = position + 1;
    }
    proof {
        if observed_sorted(observed@) {
            let limit = extra_slots(observed@, table_size as int, sample_count as int);
            assert forall|i: int| 0 <= i < frequencies.len() implies #[trigger] frequencies@[i] == normalized_frequency(
                observed@,
                table_size as int,
                sample_count as int,
                order,
                i,
            ) by {
                assert(bumped(order, position as int, observed@[i].0) == bumped(order, limit, observed@[i].0)) by {
                    if bumped(order, limit, observed@[i].0) {
                        let p = choose|p: int| 0 <= p < limit && p < order.len() && #[trigger] order[p].1
                            == observed@[i].0;
                        assert(p < position);
                    }
                }
            }
            assert(remainder_order(observed@, table_size as int, sample_count as int, order));
        }
    }
    frequencies
}

/// Payload size estimate of an order-0 table: `sum(count * log2(total / frequency)) / 8`
/// rounded up, computed by the caller's floating-point model.
pub open spec fn cost_model_total<F: Fn(&[u64], &[u64], u64) -> u64>(cost: F) -> bool {
    forall|counts: &[u64], frequencies: &[u64], total: u64| #[trigger] cost.requires(
        (counts, frequencies, total),
    )
}

/// Slots of the first `count` symbols of the normalized table.
pub open spec fn normalized_sum(
    observed: Seq<(u16, u32)>,
    table_size: int,
    sample_count: int,
    order: Seq<(u64, u16)>,
    count: int,
) -> int
    decreases count,
{
    if count <= 0 {
        0
    } else {
        normalized_sum(observed, table_size, sample_count, order, count - 1) + normalized_frequency(
            observed,
            table_size,
            sample_count,
            order,
            count - 1,
        )
    }
}

/// `symbols` is the table of a `table_log` plan for `observed`: the observed symbols
/// in order with their normalized slots, one after another, filling the table.
pub open spec fn plan_symbols_ok(
    observed: Seq<(u16, u32)>,
    sample_count: int,
    table_log: u8,
    symbols: Seq<RansSymbol>,
) -> bool {
    let size = spec_table_size(table_log);
    exists|order: Seq<(u64, u16)>|
        #[trigger] remainder_order(observed, size, sample_count, order) && normalized_sum(
            observed,
            size,
            sample_count,
            order,
            observed.len() as int,
        ) == size && symbols.len() == observed.len() && forall|i: int|
            0 <= i < observed.len() ==> {
                &&& (#[trigger] symbols[i]).value == observed[i].0
                &&& symbols[i].frequency == normalized_frequency(observed, size, sample_count, order, i)
                &&& symbols[i].cumulative == normalized_sum(observed, size, sample_count, order, i)
            }
}

/// No `table_log` plan exists for `observed`: no symbols, more symbols than slots,
/// or normalized slots that do not fill the table.
pub open spec fn plan_fails(observed: Seq<(u16, u32)>, sample_count: int, table_log: u8) -> bool {
    let size = spec_table_size(table_log);
    ||| observed.len() == 0
    ||| observed.len() > size
    ||| exists|order: Seq<(u64, u16)>|
        #[trigger] remainder_order(observed, size, sample_count, order) && normalized_sum(
            observed,
            size,
            sample_count,
            order,
            observed.len() as int,
        ) != size
}

proof fn lemma_normalized_sum_monotone(
    observed: Seq<(u16, u32)>,
    table_size: int,
    sample_count: int,
    order: Seq<(u64, u16)>,
    a: int,
    b: int,
)
    requires
        0 <= a <= b <= observed.len(),
        table_size >= observed.len(),
        sample_count > 0,
        forall|i: int| 0 <= i < observed.len() ==> #[trigger] observed[i].1 >= 0,
    ensures
        normalized_sum(observed, table_size, sample_count, order, a) <= normalized_sum(
            observed,
            table_size,
            sample_count,
            order,
            b,
        ),
    decreases b - a,
{
    if a < b {
        lemma_normalized_sum_monotone(observed, table_size, sample_count, order, a, b - 1);
        let spare = spare_slots(observed, table_size);
        assert((observed[b - 1].1 * spare) / sample_count >= 0) by (nonlinear_arith)
            requires
                observed[b - 1].1 >= 0,
                spare >= 0,
                sample_count > 0,
        ;
    }
}

/// Counts of the observed symbols, as the cost model receives them.
pub open spec fn observed_counts(observed: Seq<(u16, u32)>) -> Seq<u64> {
    Seq::new(observed.len(), |i: int| observed[i].1 as u64)
}

/// Frequencies of a table's symbols, as the cost model receives them.
pub open spec fn symbol_frequencies(symbols: Seq<RansSymbol>) -> Seq<u64> {
    Seq::new(symbols.len(), |i: int| symbols[i].frequency as u64)
}

/// Bytes of an order-0 payload besides its coded body: the table header and one
/// coder state.
pub open spec fn table_overhead(table_log: u8, symbols: Seq<RansSymbol>) -> int {
    table_header(table_log, symbols).len() + 4int
}

/// `value`, or the largest `usize` when it is larger.
pub open spec fn saturated_usize(value: int) -> int {
    if value > usize::MAX {
        usize::MAX as int
    } else {
        value
    }
}

/// `bytes` is the modeled size of the order-0 payload with table `symbols` of log
/// `table_log` for `observed`: the table overhead plus what `cost` answers for the
/// observed counts, the table's frequencies and the table size.
pub open spec fn plan_modeled<F: Fn(&[u64], &[u64], u64) -> u64>(
    observed: Seq<(u16, u32)>,
    table_log: u8,
    symbols: Seq<RansSymbol>,
    cost: F,
    bytes: int,
) -> bool {
    exists|counts: &[u64], frequencies: &[u64], body: u64|
        #![trigger cost.ensures((counts, frequencies, spec_table_size(table_log) as u64), body)]
        {
            &&& counts@ == observed_counts(observed)
            &&& frequencies@ == symbol_frequencies(symbols)
            &&& cost.ensures((counts, frequencies, spec_table_size(table_log) as u64), body)
            &&& bytes == saturated_usize(table_overhead(table_log, symbols) + (body as usize) as int)
        }
}

/// Table bytes of the first `k` symbols of a table of `total` symbols: each gap from
/// the previous symbol, and each frequency but the last symbol's.
pub open spec fn entry_bytes_upto(symbols: Seq<RansSymbol>, k: int, total: int) -> int
    decreases k,
{
    if k <= 0 {
        0
    } else {
        let previous: int = if k == 1 {
            0
        } else {
            symbols[k - 2].value as int
        };
        entry_bytes_upto(symbols, k - 1, total) + spec_varint((symbols[k - 1].value - previous) as nat).len()
            + if k < total {
            spec_varint(symbols[k - 1].frequency as nat).len() as int
        } else {
            0int
        }
    }
}

proof fn lemma_entry_bytes_push(symbols: Seq<RansSymbol>, symbol: RansSymbol, k: int, total: int)
    requires
        0 <= k <= symbols.len(),
    ensures
        entry_bytes_upto(symbols.push(symbol), k, total) == entry_bytes_upto(symbols, k, total),
    decreases k,
{
    if k > 0 {
        lemma_entry_bytes_push(symbols, symbol, k - 1, total);
        assert(symbols.push(symbol)[k - 1] == symbols[k - 1]);
        if k >= 2 {
            assert(symbols.push(symbol)[k - 2] == symbols[k - 2]);
        }
    }
}

/// The symbol table bytes are the entry bytes of the first `k` symbols followed by
/// those of the rest.
proof fn lemma_entry_bytes_split(symbols: Seq<RansSymbol>, k: int)
    requires
        0 <= k <= symbols.len(),
    ensures
        entry_bytes_upto(symbols, k, symbols.len() as int) + table_entries(
            symbols.skip(k),
            if k == 0 {
                0
            } else {
                symbols[k - 1].value as int
            },
        ).len() == table_entries(symbols, 0).len(),
    decreases k,
{
    if k == 0 {
        assert(symbols.skip(0) =~= symbols);
    } else {
        lemma_entry_bytes_split(symbols, k - 1);
        let tail = symbols.skip(k - 1);
        assert(tail[0] == symbols[k - 1]);
        assert(tail.drop_first() =~= symbols.skip(k));
    }
}

/// Builds the order-0 plan for one table size, or `None` when the alphabet does not fit.
pub fn build_rans_plan_for_log<F: Fn(&[u64], &[u64], u64) -> u64>(
    observed: &[(u16, u32)],
    sample_count: usize,
    table_log: u8,
    cost: &F,
) -> (plan: Option<RansPlan>)
    requires
        supported_table_log(table_log),
        cost_model_total(*cost),
        observed.len() <= RANS_ALPHABET,
        sample_count <= u32::MAX,
        observed.len() > 0 ==> sample_count > 0,
        forall|i: int| 0 <= i < observed.len() ==> #[trigger] observed@[i].1 <= sample_count,
        forall|i: int| 0 <= i < observed.len() ==> (#[trigger] observed@[i].0) < RANS_ALPHABET,
        forall|i: int, j: int|
            0 <= i < j < observed.len() ==> #[trigger] observed@[i].0 < #[trigger] observed@[j].0,
    ensures
        plan matches Some(p) ==> plan_modeled(observed@, table_log, p.symbols@, *cost, p.modeled_bytes as int),
        plan matches Some(p) ==> {
            &&& p.wf()
            &&& p.table_log == table_log
            &&& p.symbols.len() == observed.len()
            &&& forall|i: int| 0 <= i < observed.len() ==> #[trigger] p.covers(observed@[i].0 as int)
            &&& plan_symbols_ok(observed@, sample_count as int, table_log, p.symbols@)
        },
        plan is None ==> plan_fails(observed@, sample_count as int, table_log),
{
    let table_size = table_size_for(table_log);
    if observed.len() as u32 > table_size || observed.len() == 0 {
        return None;
    }
    let frequencies = normalize_rans_frequencies(observed, table_size, sample_count as u32);
    let ghost size = table_size as int;
    let ghost order = choose|order: Seq<(u64, u16)>|
        #[trigger] remainder_order(observed@, size, sample_count as int, order) && forall|i: int|
            0 <= i < frequencies.len() ==> #[trigger] frequencies@[i] == normalized_frequency(
                observed@,
                size,
                sample_count as int,
                order,
                i,
            );
    proof {
        assert(observed_sorted(observed@));
        assert(remainder_order(observed@, size, sample_count as int, order));
    }
    let mut symbols: Vec<RansSymbol> = Vec::with_capacity(observed.len());
    let mut lookup: Vec<u16> = vec![0u16; RANS_ALPHABET];
    let mut cumulative: u16 = 0;
    let mut table_bytes: usize = 1 + varint_length(observed.len() as u32) + 4;
    let mut previous: u16 = 0;
    let mut counts: Vec<u64> = Vec::with_capacity(observed.len());
    let mut wide_frequencies: Vec<u64> = Vec::with_capacity(observed.len());
    let mut index: usize = 0;
    while index < observed.len()
        invariant
            supported_table_log(table_log),
            table_size == spec_table_size(table_log),
            1 <= observed.len() <= table_size,
            observed.len() <= RANS_ALPHABET,
            frequencies.len() == observed.len(),
            forall|i: int| 0 <= i < frequencies.len() ==> 1 <= #[trigger] frequencies@[i] <= table_size + 1,
            forall|i: int| 0 <= i < observed.len() ==> (#[trigger] observed@[i].0) < RANS_ALPHABET,
            forall|i: int, j: int|
                0 <= i < j < observed.len() ==> #[trigger] observed@[i].0 < #[trigger] observed@[j].0,
            index <= observed.len(),
            symbols.len() == index,
            lookup.len() == RANS_ALPHABET,
            cumulative <= table_size,
            table_bytes <= 10 + 10 * index,
            index == 0 ==> previous == 0,
            index > 0 ==> previous == observed@[index - 1].0,
            forall|i: int|
                0 <= i < index ==> {
                    &&& #[trigger] symbols@[i].frequency >= 1
                    &&& symbols@[i].cumulative + symbols@[i].frequency <= cumulative
                    &&& symbols@[i].value == observed@[i].0
                },
            forall|v: int|
                0 <= v < RANS_ALPHABET ==> {
                    &&& #[trigger] lookup@[v] <= index
                    &&& lookup@[v] >= 1 ==> symbols@[lookup@[v] - 1].value == v
                },
            forall|i: int| 0 <= i < index ==> #[trigger] lookup@[observed@[i].0 as int] == i + 1,
            counts.len() == index,
            wide_frequencies.len() == index,
            forall|i: int| 0 <= i < index ==> #[trigger] counts@[i] == observed@[i].1 as u64,
            forall|i: int| 0 <= i < index ==> #[trigger] wide_frequencies@[i] == symbols@[i].frequency as u64,
            table_bytes == 1 + spec_varint(observed.len() as nat).len() + 4 + entry_bytes_upto(
                symbols@,
                index as int,
                observed.len() as int,
            ),
            size == table_size,
            sample_count > 0,
            remainder_order(observed@, size, sample_count as int, order),
            forall|i: int|
                0 <= i < frequencies.len() ==> #[trigger] frequencies@[i] == normalized_frequency(
                    observed@,
                    size,
                    sample_count as int,
                    order,
                    i,
                ),
            cumulative == normalized_sum(observed@, size, sample_count as int, order, index as int),
            forall|i: int|
                0 <= i < index ==> {
                    &&& #[trigger] symbols@[i].frequency == normalized_frequency(
                        observed@,
                        size,
                        sample_count as int,
                        order,
                        i,
                    )
                    &&& symbols@[i].cumulative == normalized_sum(observed@, size, sample_count as int, order, i)
                },
        decreases observed.len() - index,
    {
        let (value, count) = observed[index];
        let frequency = frequencies[index];
        let symbol_index = (index + 1) as u16;
        let ghost old_lookup = lookup@;
        lookup.set(value as usize, symbol_index);
        let ghost old_symbols = symbols@;
        symbols.push(RansSymbol { value, frequency, cumulative });
        if index > 0 {
            assert(observed@[index - 1].0 < observed@[index as int].0);
        }
        table_bytes = table_bytes + varint_length((value - previous) as u32);
        if index + 1 != observed.len() {
            table_bytes = table_bytes + varint_length(frequency as u32);
        }
        proof {
            lemma_entry_bytes_push(old_symbols, RansSymbol { value, frequency, cumulative }, index as int, observed.len() as int);
            assert(symbols@ == old_symbols.push(RansSymbol { value, frequency, cumulative }));
            if index > 0 {
                assert(symbols@[index - 1] == old_symbols[index - 1]);
            }
            assert(table_bytes == 1 + spec_varint(observed.len() as nat).len() + 4 + entry_bytes_upto(
                symbols@,
                index + 1,
                observed.len() as int,
            ));
        }
        counts.push(count as u64);
        wide_frequencies.push(frequency as u64);
        if cumulative as u32 + frequency as u32 > table_size {
            proof {
                assert(frequencies@[index as int] == frequency);
                lemma_normalized_sum_monotone(
                    observed@,
                    size,
                    sample_count as int,
                    order,
                    index + 1,
                    observed.len() as int,
                );
                assert(normalized_sum(observed@, size, sample_count as int, order, observed.len() as int) != size);
            }
            return None;
        }
        cumulative = cumulative + frequency;
        previous = value;
        proof {
            assert forall|v: int| 0 <= v < RANS_ALPHABET implies {
                &&& #[trigger] lookup@[v] <= index + 1
                &&& lookup@[v] >= 1 ==> symbols@[lookup@[v] - 1].value == v
            } by {
                if v != value {
                    assert(lookup@[v] == old_lookup[v]);
                }
            }
            assert forall|i: int| 0 <= i < index + 1 implies #[trigger] lookup@[observed@[i].0 as int]
                == i + 1 by {
                if i < index {
                    assert(observed@[i].0 < observed@[index as int].0);
                }
            }
        }
        index = index + 1;
    }
    if cumulative as u32 != table_size {
        return None;
    }
    proof {
        assert forall|i: int| 0 <= i < observed.len() implies {
            &&& (#[trigger] symbols@[i]).value == observed@[i].0
            &&& symbols@[i].frequency == normalized_frequency(observed@, size, sample_count as int, order, i)
            &&& symbols@[i].cumulative == normalized_sum(observed@, size, sample_count as int, order, i)
        } by {
            assert(symbols@[i].frequency >= 1);
        }
        assert(plan_symbols_ok(observed@, sample_count as int, table_log, symbols@));
    }
    proof {
        lemma_entry_bytes_split(symbols@, symbols.len() as int);
        assert(symbols@.skip(symbols.len() as int) =~= Seq::<RansSymbol>::empty());
        assert(table_bytes == table_overhead(table_log, symbols@));
        assert(counts@ =~= observed_counts(observed@));
        assert(wide_frequencies@ =~= symbol_frequencies(symbols@));
    }
    let payload_bytes = cost(counts.as_slice(), wide_frequencies.as_slice(), table_size as u64);
    let modeled_bytes = table_bytes.saturating_add(payload_bytes as usize);
    proof {
        assert(modeled_bytes == saturated_usize(table_overhead(table_log, symbols@) + (payload_bytes as usize) as int));
        assert(spec_table_size(table_log) as u64 == table_size as u64);
        assert(plan_modeled(observed@, table_log, symbols@, *cost, modeled_bytes as int));
    }
    let plan = RansPlan { table_log, symbols, lookup, modeled_bytes };
    proof {
        assert forall|i: int, j: int|
            0 <= i < j < plan.symbols.len() implies #[trigger] plan.symbols@[i].value
            < #[trigger] plan.symbols@[j].value by {
            assert(plan.symbols@[i].frequency >= 1);
            assert(plan.symbols@[j].frequency >= 1);
            assert(observed@[i].0 < observed@[j].0);
        }
        assert forall|i: int| 0 <= i < observed.len() implies #[trigger] plan.covers(
            observed@[i].0 as int,
        ) by {
            assert(lookup@[observed@[i].0 as int] == i + 1);
        }
        assert forall|i: int| 0 <= i < plan.symbols.len() - 1 implies #[trigger] plan.symbols@[i
            + 1].cumulative == plan.symbols@[i].cumulative + plan.symbols@[i].frequency by {
            assert(normalized_sum(observed@, size, sample_count as int, order, i + 1) == normalized_sum(
                observed@,
                size,
                sample_count as int,
                order,
                i,
            ) + normalized_frequency(observed@, size, sample_count as int, order, i));
        }
        let last = (plan.symbols.len() - 1) as int;
        assert(normalized_sum(observed@, size, sample_count as int, order, last + 1) == normalized_sum(
            observed@,
            size,
            sample_count as int,
            order,
            last,
        ) + normalized_frequency(observed@, size, sample_count as int, order, last));
        assert(normalized_sum(observed@, size, sample_count as int, order, 0) == 0);
    }
    Some(plan)
}


/// The symbols below `upto` that occur in `histogram`, with their counts, in order.
pub open spec fn histogram_observed(histogram: Seq<u32>, upto: int) -> Seq<(u16, u32)>
    decreases upto,
{
    if upto <= 0 {
        Seq::empty()
    } else {
        let previous = histogram_observed(histogram, upto - 1);
        if histogram[upto - 1] != 0 {
            previous.push(((upto - 1) as u16, histogram[upto - 1]))
        } else {
            previous
        }
    }
}

/// The table that each supported log offers for `observed`: `per_log[i]` holds the
/// symbols and modeled size of the table of log `8 + i`, or none when that log has
/// no table.
pub open spec fn log_plans<F: Fn(&[u64], &[u64], u64) -> u64>(
    observed: Seq<(u16, u32)>,
    sample_count: int,
    cost: F,
    per_log: Seq<Option<(Seq<RansSymbol>, int)>>,
) -> bool {
    forall|i: int|
        0 <= i < per_log.len() ==> match #[trigger] per_log[i] {
            Some(entry) => plan_symbols_ok(observed, sample_count, (8 + i) as u8, entry.0) && plan_modeled(
                observed,
                (8 + i) as u8,
                entry.0,
                cost,
                entry.1,
            ),
            None => plan_fails(observed, sample_count, (8 + i) as u8),
        }
}

/// `choice` is the offered table with the fewest modeled bytes, the smaller log on
/// ties, as its log, symbols and modeled size; none when no log offers a table.
pub open spec fn cheapest_plan(
    per_log: Seq<Option<(Seq<RansSymbol>, int)>>,
    choice: Option<(u8, Seq<RansSymbol>, int)>,
) -> bool {
    match choice {
        None => forall|i: int| 0 <= i < per_log.len() ==> #[trigger] per_log[i] is None,
        Some(c) => {
            &&& 8 <= c.0 < 8 + per_log.len()
            &&& per_log[c.0 - 8] == Some((c.1, c.2))
            &&& forall|i: int|
                0 <= i < per_log.len() ==> match #[trigger] per_log[i] {
                    Some(entry) => c.2 <= entry.1 && (i < c.0 - 8 ==> c.2 < entry.1),
                    None => true,
                }
        },
    }
}

/// The log, symbols and modeled size of a plan.
pub open spec fn plan_summary(plan: Option<RansPlan>) -> Option<(u8, Seq<RansSymbol>, int)> {
    match plan {
        Some(p) => Some((p.table_log, p.symbols@, p.modeled_bytes as int)),
        None => None,
    }
}

/// Order-0 plan with the smallest modeled size over the supported table logs, ties
/// to the smaller table, for a histogram of folded symbols.
pub fn build_rans_plan<F: Fn(&[u64], &[u64], u64) -> u64>(
    histogram: &[u32],
    sample_count: usize,
    cost: &F,
) -> (plan: Option<RansPlan>)
    requires
        histogram.len() == RANS_ALPHABET,
        cost_model_total(*cost),
        sample_count <= u32::MAX,
        forall|v: int| 0 <= v < RANS_ALPHABET ==> #[trigger] histogram@[v] <= sample_count,
    ensures
        plan matches Some(p) ==> {
            &&& p.wf()
            &&& forall|v: int| 0 <= v < RANS_ALPHABET && #[trigger] histogram@[v] != 0 ==> p.covers(v)
        },
        (forall|v: int| 0 <= v < RANS_ALPHABET ==> #[trigger] histogram@[v] == 0) ==> plan is None,
        plan matches Some(p) ==> supported_table_log(p.table_log) && plan_symbols_ok(
            histogram_observed(histogram@, RANS_ALPHABET as int),
            sample_count as int,
            p.table_log,
            p.symbols@,
        ),
        plan is None ==> forall|log: u8| #[trigger] supported_table_log(log) ==> plan_fails(
            histogram_observed(histogram@, RANS_ALPHABET as int),
            sample_count as int,
            log,
        ),
        exists|per_log: Seq<Option<(Seq<RansSymbol>, int)>>|
            {
                &&& per_log.len() == 5
                &&& log_plans(
                    histogram_observed(histogram@, RANS_ALPHABET as int),
                    sample_count as int,
                    *cost,
                    per_log,
                )
                &&& #[trigger] cheapest_plan(per_log, plan_summary(plan))
            },
{
    let mut observed: Vec<(u16, u32)> = Vec::new();
    let mut symbol: usize = 0;
    while symbol < RANS_ALPHABET
        invariant
            histogram.len() == RANS_ALPHABET,
            symbol <= RANS_ALPHABET,
            observed.len() <= symbol,
            forall|v: int| 0 <= v < RANS_ALPHABET ==> #[trigger] histogram@[v] <= sample_count,
            forall|i: int| 0 <= i < observed.len() ==> (#[trigger] observed@[i].0) < symbol,
            forall|i: int| 0 <= i < observed.len() ==> #[trigger] observed@[i].1 <= sample_count,
            forall|i: int| 0 <= i < observed.len() ==> #[trigger] observed@[i].1 == histogram@[observed@[i].0 as int],
            forall|i: int| 0 <= i < observed.len() ==> #[trigger] observed@[i].1 != 0,
            forall|i: int, j: int|
                0 <= i < j < observed.len() ==> #[trigger] observed@[i].0 < #[trigger] observed@[j].0,
            forall|v: int|
                0 <= v < symbol && #[trigger] histogram@[v] != 0 ==> exists|i: int|
                    0 <= i < observed.len() && #[trigger] observed@[i].0 == v,
            observed@ == histogram_observed(histogram@, symbol as int),
        decreases RANS_ALPHABET - symbol,
    {
        let count = histogram[symbol];
        let ghost before = observed@;
        if count != 0 {
            observed.push((symbol as u16, count));
        }
        proof {
            assert(observed@ == histogram_observed(histogram@, symbol + 1));
        }
        proof {
            assert forall|v: int| 0 <= v < symbol + 1 && #[trigger] histogram@[v] != 0 implies exists|i: int|
                0 <= i < observed.len() && #[trigger] observed@[i].0 == v by {
                if v == symbol {
                    let last = observed.len() - 1;
                    assert(observed@[last].0 == v);
                } else {
                    let i = choose|i: int| 0 <= i < before.len() && #[trigger] before[i].0 == v;
                    assert(observed@[i].0 == v);
                }
            }
        }
        symbol = symbol + 1;
    }
    let mut best: Option<RansPlan> = None;
    let mut table_log: u8 = RANS_MIN_TABLE_LOG;
    let ghost mut per_log: Seq<Option<(Seq<RansSymbol>, int)>> = Seq::empty();
    while table_log <= RANS_MAX_TABLE_LOG
        invariant
            per_log.len() == table_log - 8,
            log_plans(observed@, sample_count as int, *cost, per_log),
            cheapest_plan(per_log, plan_summary(best)),
            RANS_MIN_TABLE_LOG <= table_log <= RANS_MAX_TABLE_LOG + 1,
            cost_model_total(*cost),
            observed.len() <= RANS_ALPHABET,
            sample_count <= u32::MAX,
            forall|i: int| 0 <= i < observed.len() ==> #[trigger] observed@[i].1 <= sample_count,
            forall|i: int| 0 <= i < observed.len() ==> (#[trigger] observed@[i].0) < RANS_ALPHABET,
            forall|i: int| 0 <= i < observed.len() ==> #[trigger] observed@[i].1 != 0,
            forall|i: int, j: int|
                0 <= i < j < observed.len() ==> #[trigger] observed@[i].0 < #[trigger] observed@[j].0,
            best matches Some(p) ==> {
                &&& p.wf()
                &&& forall|i: int| 0 <= i < observed.len() ==> #[trigger] p.covers(observed@[i].0 as int)
                &&& supported_table_log(p.table_log)
                &&& plan_symbols_ok(observed@, sample_count as int, p.table_log, p.symbols@)
            },
            best is None ==> forall|log: u8|
                RANS_MIN_TABLE_LOG <= log < table_log ==> #[trigger] plan_fails(observed@, sample_count as int, log),
            observed.len() == 0 ==> best is None,
        decreases RANS_MAX_TABLE_LOG + 1 - table_log,
    {
        if observed.len() > 0 {
            assert(observed@[0].1 <= sample_count);
        }
        let candidate = build_rans_plan_for_log(observed.as_slice(), sample_count, table_log, cost);
        proof {
            if best is None && candidate is None {
                assert forall|log: u8| RANS_MIN_TABLE_LOG <= log < table_log + 1 implies #[trigger] plan_fails(
                    observed@,
                    sample_count as int,
                    log,
                ) by {
                    if log < table_log {
                        assert(plan_fails(observed@, sample_count as int, log));
                    }
                }
            }
        }
        let ghost entry: Option<(Seq<RansSymbol>, int)> = match &candidate {
            Some(p) => Some((p.symbols@, p.modeled_bytes as int)),
            None => None,
        };
        let ghost old_per_log = per_log;
        let ghost old_best = plan_summary(best);
        proof {
            per_log = per_log.push(entry);
            assert forall|i: int| 0 <= i < per_log.len() implies match #[trigger] per_log[i] {
                Some(e) => plan_symbols_ok(observed@, sample_count as int, (8 + i) as u8, e.0) && plan_modeled(
                    observed@,
                    (8 + i) as u8,
                    e.0,
                    *cost,
                    e.1,
                ),
                None => plan_fails(observed@, sample_count as int, (8 + i) as u8),
            } by {
                if i < old_per_log.len() {
                    assert(per_log[i] == old_per_log[i]);
                } else {
                    assert((8 + i) as u8 == table_log);
                }
            }
        }
        if let Some(plan) = candidate {
            let replace = match &best {
                None => true,
                Some(current) => plan.modeled_bytes < current.modeled_bytes,
            };
            if replace {
                best = Some(plan);
            }
        }
        proof {
            let choice = plan_summary(best);
            assert forall|i: int| 0 <= i < per_log.len() implies (match choice {
                None => per_log[i] is None,
                Some(c) => match #[trigger] per_log[i] {
                    Some(e) => c.2 <= e.1 && (i < c.0 - 8 ==> c.2 < e.1),
                    None => true,
                },
            }) by {
                if i < old_per_log.len() {
                    assert(per_log[i] == old_per_log[i]);
                }
            }
            if let Some(c) = choice {
                if c.0 == table_log {
                    assert(per_log[c.0 - 8] == entry);
                } else {
                    assert(per_log[c.0 - 8] == old_per_log[c.0 - 8]);
                }
            }
        }
        table_log = table_log + 1;
    }
    proof {
        if best is Some {
            let p = best->0;
            assert forall|v: int| 0 <= v < RANS_ALPHABET && #[trigger] histogram@[v] != 0 implies p.covers(v) by {
                let i = choose|i: int| 0 <= i < observed.len() && #[trigger] observed@[i].0 == v;
                assert(p.covers(observed@[i].0 as int));
            }
        }
        if best is None {
            assert forall|log: u8| #[trigger] supported_table_log(log) implies plan_fails(
                histogram_observed(histogram@, RANS_ALPHABET as int),
                sample_count as int,
                log,
            ) by {
                assert(plan_fails(observed@, sample_count as int, log));
            }
        }
        if forall|v: int| 0 <= v < RANS_ALPHABET ==> #[trigger] histogram@[v] == 0 {
            if observed.len() > 0 {
                assert(observed@[0].1 == histogram@[observed@[0].0 as int]);
            }
        }
    }
    best
}

/// Bytes of the symbol table after the alphabet size: for each symbol the varint gap
/// from the previous symbol, and for all but the last its frequency.
pub open spec fn table_entries(symbols: Seq<RansSymbol>, previous: int) -> Seq<u8>
    decreases symbols.len(),
{
    if symbols.len() == 0 {
        Seq::empty()
    } else {
        spec_varint((symbols[0].value - previous) as nat) + (if symbols.len() == 1 {
            Seq::empty()
        } else {
            spec_varint(symbols[0].frequency as nat)
        }) + table_entries(symbols.drop_first(), symbols[0].value as int)
    }
}

/// Header of an order-0 payload: table log, alphabet size, symbol table.
pub open spec fn table_header(table_log: u8, symbols: Seq<RansSymbol>) -> Seq<u8> {
    seq![table_log] + spec_varint(symbols.len()) + table_entries(symbols, 0)
}

/// The little-endian bytes of the final coder states.
pub open spec fn state_bytes(states: Seq<u32>) -> Seq<u8>
    decreases states.len(),
{
    if states.len() == 0 {
        Seq::empty()
    } else {
        le_bytes(states[0] as nat, 4) + state_bytes(states.drop_first())
    }
}

proof fn lemma_state_bytes_push(states: Seq<u32>, state: u32)
    ensures
        state_bytes(states.push(state)) == state_bytes(states) + le_bytes(state as nat, 4),
    decreases states.len(),
{
    if states.len() == 0 {
        assert(states.push(state).drop_first() =~= Seq::<u32>::empty());
        assert(state_bytes(Seq::<u32>::empty()) =~= Seq::<u8>::empty());
        assert(states.push(state)[0] == state);
        assert(state_bytes(states.push(state)) =~= le_bytes(state as nat, 4));
    } else {
        assert(states.push(state).drop_first() =~= states.drop_first().push(state));
        lemma_state_bytes_push(states.drop_first(), state);
        assert(state_bytes(states.push(state)) =~= state_bytes(states) + le_bytes(state as nat, 4));
    }
}

/// Renormalization bound of a symbol: the encoder shifts bytes out of a state
/// until it is below this bound.
pub open spec fn renorm_bound(table_log: u8, frequency: u16) -> nat {
    (256 * (8388608int / spec_table_size(table_log)) * frequency) as nat
}

/// The state left after shifting low bytes out of `state` until it is below `bound`.
pub open spec fn shifted_state(state: nat, bound: nat) -> nat
    decreases state,
{
    if bound == 0 || state < bound {
        state
    } else {
        shifted_state(state / 256, bound)
    }
}

/// The low bytes shifted out of `state` until it is below `bound`, first shifted first.
pub open spec fn shifted_bytes(state: nat, bound: nat) -> Seq<u8>
    decreases state,
{
    if bound == 0 || state < bound {
        Seq::empty()
    } else {
        seq![(state % 256) as u8] + shifted_bytes(state / 256, bound)
    }
}

/// Coder states and shifted-out bytes after encoding `folded[n..]`, last symbol
/// first; symbol `i` goes to coder `i % states`, and each coder starts at the
/// lower bound of the normalized range.
pub open spec fn coder_run(
    folded: Seq<u32>,
    table_log: u8,
    symbols: Seq<RansSymbol>,
    lookup: Seq<u16>,
    states: nat,
    n: int,
) -> (Seq<u32>, Seq<u8>)
    decreases folded.len() - n,
{
    if n >= folded.len() {
        (Seq::new(states, |k: int| RANS_BYTE_L), Seq::empty())
    } else {
        let (coders, bytes) = coder_run(folded, table_log, symbols, lookup, states, n + 1);
        let symbol = symbols[lookup[folded[n] as int] - 1];
        let lane = n % (states as int);
        let bound = renorm_bound(table_log, symbol.frequency);
        let kept = shifted_state(coders[lane] as nat, bound);
        (
            coders.update(
                lane,
                spec_encode_step(
                    kept as int,
                    symbol.frequency as int,
                    symbol.cumulative as int,
                    spec_table_size(table_log),
                ) as u32,
            ),
            bytes + shifted_bytes(coders[lane] as nat, bound),
        )
    }
}

/// The order-0 payload of `folded`: the table header, the final coder states, and
/// the shifted-out bytes in reverse order of shifting.
pub open spec fn rans_payload(
    folded: Seq<u32>,
    table_log: u8,
    symbols: Seq<RansSymbol>,
    lookup: Seq<u16>,
    states: nat,
) -> Seq<u8> {
    let run = coder_run(folded, table_log, symbols, lookup, states, 0);
    table_header(table_log, symbols) + state_bytes(run.0) + run.1.reverse()
}

/// Every symbol of `folded` is in the table.
pub open spec fn table_covers_all(lookup: Seq<u16>, folded: Seq<u32>) -> bool {
    forall|i: int| 0 <= i < folded.len() ==> table_covers(lookup, #[trigger] folded[i] as int)
}

/// A state of at least `lower` shifted below the bound `256 lower` lands in
/// `[lower, 256 lower)` and never grows.
proof fn lemma_shifted_bounds(state: nat, lower: nat)
    requires
        lower >= 1,
        state >= lower,
    ensures
        lower <= shifted_state(state, 256 * lower) < 256 * lower,
        shifted_state(state, 256 * lower) <= state,
        state < 256 * lower ==> shifted_bytes(state, 256 * lower).len() == 0,
    decreases state,
{
    if state >= 256 * lower {
        assert(state / 256 >= lower);
        lemma_shifted_bounds(state / 256, lower);
    }
}

/// The normalized-range constants of a supported table, by name.
proof fn lemma_renorm_bound(table_log: u8, frequency: u16)
    requires
        supported_table_log(table_log),
        1 <= frequency <= spec_table_size(table_log),
    ensures
        renorm_bound(table_log, frequency) == 256 * ((8388608int / spec_table_size(table_log)) * frequency),
        2048 <= (8388608int / spec_table_size(table_log)) * frequency <= 8388608,
        renorm_bound(table_log, frequency) == (2147483648int / spec_table_size(table_log)) * frequency,
{
    lemma_table_constants(table_log);
    let base = 8388608int / spec_table_size(table_log);
    assert(256 * base * frequency == 256 * (base * frequency)) by (nonlinear_arith);
    assert(base * frequency <= 8388608) by (nonlinear_arith)
        requires
            frequency <= spec_table_size(table_log),
            base * spec_table_size(table_log) == 8388608,
            base >= 0,
    ;
    assert(base * frequency >= 2048) by (nonlinear_arith)
        requires
            frequency >= 1,
            256 * base >= 524288,
    ;
    assert((256 * base) * frequency == 256 * (base * frequency)) by (nonlinear_arith);
}

/// One encoder step keeps a coder state in the normalized range `[L, 256 L)`.
proof fn lemma_encode_step_range(state: nat, table_log: u8, symbol: RansSymbol)
    requires
        supported_table_log(table_log),
        symbol.frequency >= 1,
        symbol.cumulative + symbol.frequency <= spec_table_size(table_log),
        RANS_BYTE_L <= state,
    ensures
        RANS_BYTE_L <= spec_encode_step(
            shifted_state(state, renorm_bound(table_log, symbol.frequency)) as int,
            symbol.frequency as int,
            symbol.cumulative as int,
            spec_table_size(table_log),
        ) < 256 * RANS_BYTE_L,
{
    lemma_table_constants(table_log);
    lemma_renorm_bound(table_log, symbol.frequency);
    let size = spec_table_size(table_log);
    let base = 8388608int / size;
    let lower = (base * symbol.frequency) as nat;
    lemma_shifted_bounds(state, lower);
    let kept = shifted_state(state, 256 * lower) as int;
    lemma_encoded_state_floor(kept, symbol.frequency as int, symbol.cumulative as int, size, base);
    let f = symbol.frequency as int;
    let q = kept / f;
    assert(q < 256 * base) by (nonlinear_arith)
        requires
            kept < 256 * (base * f),
            f >= 1,
            q == kept / f,
            base >= 0,
    ;
    assert(q * size + size <= 256 * base * size) by (nonlinear_arith)
        requires
            q < 256 * base,
            size >= 1,
    ;
    assert(256 * base * size == 256 * 8388608) by (nonlinear_arith)
        requires
            base * size == 8388608,
    ;
    assert(kept % f < f) by (nonlinear_arith)
        requires
            f >= 1,
    ;
}

/// Each coder state of a run lies in the normalized range.
proof fn lemma_coder_run_range(
    folded: Seq<u32>,
    table_log: u8,
    symbols: Seq<RansSymbol>,
    lookup: Seq<u16>,
    states: nat,
    n: int,
)
    requires
        table_ok(table_log, symbols, lookup),
        table_covers_all(lookup, folded),
        states >= 1,
        0 <= n <= folded.len(),
    ensures
        coder_run(folded, table_log, symbols, lookup, states, n).0.len() == states,
        forall|k: int|
            0 <= k < states ==> RANS_BYTE_L <= #[trigger] coder_run(
                folded,
                table_log,
                symbols,
                lookup,
                states,
                n,
            ).0[k] < 256 * RANS_BYTE_L,
    decreases folded.len() - n,
{
    if n < folded.len() {
        lemma_coder_run_range(folded, table_log, symbols, lookup, states, n + 1);
        let coders = coder_run(folded, table_log, symbols, lookup, states, n + 1).0;
        let position = lookup[folded[n] as int] - 1;
        assert(table_covers(lookup, folded[n] as int));
        let symbol = symbols[position];
        assert(symbol.frequency >= 1);
        let lane = n % (states as int);
        lemma_encode_step_range(coders[lane] as nat, table_log, symbol);
    }
}

/// Encodes `folded` with `states` interleaved coders (1 or 4) sharing one table and
/// one byte stream; symbol `i` goes to coder `i % states`.
#[verifier::spinoff_prover]
#[verifier::rlimit(40)]
pub fn encode_rans_payload_with_states(folded: &[u32], plan: &RansPlan, states: usize) -> (payload:
    Vec<u8>)
    requires
        plan.wf(),
        states == 1 || states == RANS_INTERLEAVED_STATES,
        forall|i: int| 0 <= i < folded.len() ==> plan.covers(#[trigger] folded@[i] as int),
    ensures
        payload@ == rans_payload(folded@, plan.table_log, plan.symbols@, plan.lookup@, states as nat),
{
    let table_log = plan.table_log;
    let table_size = table_size_for(table_log);
    let base: u64 = (RANS_BYTE_L / table_size) as u64;
    let scale: u64 = base * 256;
    let mut coder: Vec<u32> = vec![RANS_BYTE_L; states];
    let mut renormalized: Vec<u8> = Vec::new();
    let mut index: usize = folded.len();
    proof {
        lemma_table_constants(table_log);
        assert(coder@ =~= Seq::new(states as nat, |k: int| RANS_BYTE_L));
        assert(renormalized@ =~= Seq::<u8>::empty());
    }
    while index > 0
        invariant
            plan.wf(),
            table_log == plan.table_log,
            table_size == spec_table_size(table_log),
            base == 8388608int / spec_table_size(table_log),
            scale == 256 * base,
            base * spec_table_size(table_log) == 8388608,
            2147483648int / spec_table_size(table_log) == 256 * base,
            524288 <= 256 * base <= 8388608,
            256 <= spec_table_size(table_log) <= 4096,
            states == 1 || states == RANS_INTERLEAVED_STATES,
            coder.len() == states,
            index <= folded.len(),
            forall|i: int| 0 <= i < folded.len() ==> plan.covers(#[trigger] folded@[i] as int),
            forall|k: int| 0 <= k < states ==> #[trigger] coder@[k] >= RANS_BYTE_L,
            (coder@, renormalized@) == coder_run(
                folded@,
                table_log,
                plan.symbols@,
                plan.lookup@,
                states as nat,
                index as int,
            ),
        decreases index,
    {
        index = index - 1;
        let lane = index % states;
        let value = folded[index];
        let position = plan.lookup[value as usize];
        let symbol = plan.symbols[(position - 1) as usize];
        let mut state = coder[lane];
        let ghost lower = base * symbol.frequency;
        proof {
            assert(symbol.frequency >= 1);
            assert(symbol.frequency <= spec_table_size(table_log));
            assert(scale * symbol.frequency <= 8388608 * 4096) by (nonlinear_arith)
                requires
                    scale <= 8388608,
                    symbol.frequency <= 4096,
            ;
            assert(scale * symbol.frequency == 256 * lower) by (nonlinear_arith)
                requires
                    scale == 256 * base,
                    lower == base * symbol.frequency,
            ;
            assert(lower <= 8388608) by (nonlinear_arith)
                requires
                    lower == base * symbol.frequency,
                    symbol.frequency <= spec_table_size(table_log),
                    base * spec_table_size(table_log) == 8388608,
                    base >= 0,
            ;
            assert(lower >= 2048) by (nonlinear_arith)
                requires
                    lower == base * symbol.frequency,
                    symbol.frequency >= 1,
                    256 * base >= 524288,
            ;
        }
        let threshold: u64 = scale * symbol.frequency as u64;
        let ghost original = state as nat;
        let ghost before = renormalized@;
        proof {
            lemma_renorm_bound(table_log, symbol.frequency);
            assert(threshold == renorm_bound(table_log, symbol.frequency));
        }
        while state as u64 >= threshold
            invariant
                threshold == 256 * lower,
                lower >= 2048,
                state >= lower,
                shifted_state(original, threshold as nat) == shifted_state(state as nat, threshold as nat),
                before + shifted_bytes(original, threshold as nat) == renormalized@ + shifted_bytes(
                    state as nat,
                    threshold as nat,
                ),
            decreases state,
        {
            let ghost previous = renormalized@;
            renormalized.push((state % 256) as u8);
            proof {
                assert(shifted_bytes(state as nat, threshold as nat) == seq![(state % 256) as u8]
                    + shifted_bytes(state as nat / 256, threshold as nat));
                assert(renormalized@ + shifted_bytes(state as nat / 256, threshold as nat) =~= previous
                    + shifted_bytes(state as nat, threshold as nat));
            }
            state = state / 256;
        }
        proof {
            assert(renormalized@ =~= before + shifted_bytes(original, threshold as nat));
        }
        let next = rans_advance_encoder(state, symbol, table_log);
        proof {
            lemma_encoded_state_floor(
                state as int,
                symbol.frequency as int,
                symbol.cumulative as int,
                table_size as int,
                base as int,
            );
        }
        coder.set(lane, next);
    }
    let mut payload: Vec<u8> = Vec::new();
    payload.push(table_log);
    put_varint(&mut payload, plan.symbols.len() as u32);
    let mut previous: u16 = 0;
    let mut position: usize = 0;
    let ghost all = plan.symbols@;
    proof {
        assert(all.subrange(0, all.len() as int) =~= all);
        assert(payload@ == seq![table_log] + spec_varint(all.len()));
    }
    while position < plan.symbols.len()
        invariant
            plan.wf(),
            all == plan.symbols@,
            position <= all.len(),
            position == 0 ==> previous == 0,
            position > 0 ==> previous == all[position - 1].value,
            payload@ + table_entries(all.subrange(position as int, all.len() as int), previous as int)
                == table_header(table_log, all),
            table_log == plan.table_log,
        decreases all.len() - position,
    {
        let symbol = plan.symbols[position];
        if position > 0 {
            assert(all[position - 1].value < all[position as int].value);
        }
        let ghost rest = all.subrange(position as int, all.len() as int);
        proof {
            assert(rest[0] == symbol);
            assert(rest.drop_first() =~= all.subrange(position + 1, all.len() as int));
        }
        put_varint(&mut payload, (symbol.value - previous) as u32);
        if position + 1 != plan.symbols.len() {
            put_varint(&mut payload, symbol.frequency as u32);
        }
        proof {
            assert(rest.len() == 1 <==> position + 1 == all.len());
        }
        previous = symbol.value;
        position = position + 1;
    }
    let ghost header = payload@;
    proof {
        assert(all.subrange(position as int, all.len() as int) =~= Seq::<RansSymbol>::empty());
        assert(header =~= table_header(table_log, all));
    }
    let mut lane: usize = 0;
    proof {
        assert(coder@.subrange(0, 0) =~= Seq::<u32>::empty());
        assert(payload@ =~= header + state_bytes(coder@.subrange(0, 0)));
    }
    while lane < states
        invariant
            coder.len() == states,
            lane <= states,
            payload@ == header + state_bytes(coder@.subrange(0, lane as int)),
        decreases states - lane,
    {
        put_u32(&mut payload, coder[lane]);
        proof {
            lemma_state_bytes_push(coder@.subrange(0, lane as int), coder@[lane as int]);
            assert(coder@.subrange(0, lane + 1) =~= coder@.subrange(0, lane as int).push(
                coder@[lane as int],
            ));
        }
        lane = lane + 1;
    }
    let ghost prefix = payload@;
    let mut back: usize = renormalized.len();
    proof {
        assert(renormalized@.subrange(back as int, back as int).reverse() =~= Seq::<u8>::empty());
        assert(payload@ =~= prefix + renormalized@.subrange(back as int, renormalized.len() as int).reverse());
    }
    while back > 0
        invariant
            back <= renormalized.len(),
            payload@ == prefix + renormalized@.subrange(back as int, renormalized.len() as int).reverse(),
        decreases back,
    {
        back = back - 1;
        payload.push(renormalized[back]);
        proof {
            assert(renormalized@.subrange(back as int, renormalized.len() as int).reverse() =~= renormalized@.subrange(
                back + 1,
                renormalized.len() as int,
            ).reverse().push(renormalized@[back as int]));
        }
    }
    proof {
        assert(coder@.subrange(0, states as int) =~= coder@);
        assert(renormalized@.subrange(0, renormalized.len() as int) =~= renormalized@);
        assert(payload@ =~= header + state_bytes(coder@) + renormalized@.reverse());
    }
    payload
}

/// Appending a symbol to a state of at least `(L / table_size) * frequency` gives a
/// state of at least `L`.
proof fn lemma_encoded_state_floor(
    state: int,
    frequency: int,
    cumulative: int,
    table_size: int,
    base: int,
)
    requires
        frequency >= 1,
        cumulative >= 0,
        table_size >= 1,
        base >= 0,
        base * table_size == 8388608,
        state >= base * frequency,
    ensures
        spec_encode_step(state, frequency, cumulative, table_size) >= 8388608,
{
    let q = state / frequency;
    assert(q >= base) by (nonlinear_arith)
        requires
            state >= base * frequency,
            frequency >= 1,
            q == state / frequency,
            base >= 0,
    ;
    assert(q * table_size >= base * table_size) by (nonlinear_arith)
        requires
            q >= base,
            table_size >= 1,
    ;
    assert(state % frequency >= 0) by (nonlinear_arith)
        requires
            frequency >= 1,
    ;
}

/// The normalized-range constants of each supported table size.
proof fn lemma_table_constants(table_log: u8)
    requires
        supported_table_log(table_log),
    ensures
        (8388608int / spec_table_size(table_log)) * spec_table_size(table_log) == 8388608,
        2147483648int / spec_table_size(table_log) == 256 * (8388608int / spec_table_size(table_log)),
        524288 <= 256 * (8388608int / spec_table_size(table_log)) <= 8388608,
        256 <= spec_table_size(table_log) <= 4096,
{
    if table_log == 8 {
        assert(8388608int / 256 == 32768);
        assert(2147483648int / 256 == 8388608);
    } else if table_log == 9 {
        assert(8388608int / 512 == 16384);
        assert(2147483648int / 512 == 4194304);
    } else if table_log == 10 {
        assert(8388608int / 1024 == 8192);
        assert(2147483648int / 1024 == 2097152);
    } else if table_log == 11 {
        assert(8388608int / 2048 == 4096);
        assert(2147483648int / 2048 == 1048576);
    } else {
        assert(8388608int / 4096 == 2048);
        assert(2147483648int / 4096 == 524288);
    }
}

/// Order-0 payload with one coder.
pub fn encode_rans_payload(folded: &[u32], plan: &RansPlan) -> (payload: Vec<u8>)
    requires
        plan.wf(),
        forall|i: int| 0 <= i < folded.len() ==> plan.covers(#[trigger] folded@[i] as int),
    ensures
        payload@ == rans_payload(folded@, plan.table_log, plan.symbols@, plan.lookup@, 1),
{
    let payload = encode_rans_payload_with_states(folded, plan, 1);
    payload
}

/// Order-0 payload with four interleaved coders.
pub fn encode_rans_payload_interleaved(folded: &[u32], plan: &RansPlan) -> (payload: Vec<u8>)
    requires
        plan.wf(),
        forall|i: int| 0 <= i < folded.len() ==> plan.covers(#[trigger] folded@[i] as int),
    ensures
        payload@ == rans_payload(
            folded@,
            plan.table_log,
            plan.symbols@,
            plan.lookup@,
            RANS_INTERLEAVED_STATES as nat,
        ),
{
    let payload = encode_rans_payload_with_states(folded, plan, RANS_INTERLEAVED_STATES);
    payload
}

/// `payload` is the order-0 coding of `folded` with `states` coders under a table
/// whose symbols are at most `max_folded`, with `sample_count` symbols.
pub open spec fn rans_carries(
    payload: Seq<u8>,
    sample_count: int,
    max_folded: u32,
    states: nat,
    folded: Seq<u32>,
    table_log: u8,
    symbols: Seq<RansSymbol>,
    lookup: Seq<u16>,
) -> bool {
    &&& table_ok(table_log, symbols, lookup)
    &&& table_covers_all(lookup, folded)
    &&& folded.len() == sample_count
    &&& forall|i: int| 0 <= i < symbols.len() ==> #[trigger] symbols[i].value <= max_folded
    &&& payload == rans_payload(folded, table_log, symbols, lookup, states)
}

/// The symbol that codes `folded[n]`.
pub open spec fn coded_symbol(folded: Seq<u32>, symbols: Seq<RansSymbol>, lookup: Seq<u16>, n: int) -> RansSymbol {
    symbols[lookup[folded[n] as int] - 1]
}

/// Reversing a concatenation reverses the order of the parts.
proof fn lemma_reverse_concat(a: Seq<u8>, b: Seq<u8>)
    ensures
        (a + b).reverse() == b.reverse() + a.reverse(),
{
    assert((a + b).reverse() =~= b.reverse() + a.reverse());
}

/// Reading back the shifted-out bytes of `state`, last shifted first, from the state
/// they left restores `state`, provided the state is below `256 L`.
proof fn lemma_refill_shifted(state: nat, bound: nat, payload: Seq<u8>, cursor: int)
    requires
        bound >= 1,
        state < 256 * RANS_BYTE_L,
        0 <= cursor,
        cursor + shifted_bytes(state, bound).len() <= payload.len(),
        payload.subrange(cursor, cursor + shifted_bytes(state, bound).len()) == shifted_bytes(
            state,
            bound,
        ).reverse(),
    ensures
        refill(shifted_state(state, bound), payload, cursor) == refill(
            state,
            payload,
            cursor + shifted_bytes(state, bound).len(),
        ),
    decreases state,
{
    if state >= bound {
        let rest = shifted_bytes(state / 256, bound);
        let low = (state % 256) as u8;
        assert(shifted_bytes(state, bound) == seq![low] + rest);
        lemma_reverse_concat(seq![low], rest);
        assert(seq![low].reverse() =~= seq![low]);
        let k = rest.len() as int;
        let window = payload.subrange(cursor, cursor + k + 1);
        assert(window == rest.reverse() + seq![low]);
        assert(payload.subrange(cursor, cursor + k) =~= window.subrange(0, k));
        assert(window.subrange(0, k) =~= rest.reverse());
        lemma_refill_shifted(state / 256, bound, payload, cursor);
        assert(payload[cursor + k] == payload.subrange(cursor, cursor + k + 1)[k]);
        assert(state / 256 < RANS_BYTE_L);
        assert((state / 256) * 256 + low as nat == state);
    }
}

/// The bytes of the coder states: four per state, state `k` at offset `4 k`.
proof fn lemma_state_bytes_at(states: Seq<u32>, k: int, prefix: Seq<u8>, suffix: Seq<u8>)
    requires
        0 <= k < states.len(),
    ensures
        state_bytes(states).len() == 4 * states.len(),
        le_value(prefix + state_bytes(states) + suffix, prefix.len() + 4 * k, 4) == states[k],
    decreases states.len(),
{
    let rest = states.drop_first();
    lemma_state_bytes_len(rest);
    reveal_with_fuel(crate::bits::pow256, 5);
    assert(crate::bits::pow256(4) == 4294967296);
    crate::bits::lemma_le_round_trip(states[0] as nat, 4, prefix, state_bytes(rest) + suffix);
    if k == 0 {
        assert(prefix + state_bytes(states) + suffix =~= prefix + le_bytes(states[0] as nat, 4) + (
        state_bytes(rest) + suffix));
    } else {
        lemma_state_bytes_at(rest, k - 1, prefix + le_bytes(states[0] as nat, 4), suffix);
        assert(prefix + state_bytes(states) + suffix =~= prefix + le_bytes(states[0] as nat, 4)
            + state_bytes(rest) + suffix);
    }
}

proof fn lemma_state_bytes_len(states: Seq<u32>)
    ensures
        state_bytes(states).len() == 4 * states.len(),
    decreases states.len(),
{
    if states.len() > 0 {
        lemma_state_bytes_len(states.drop_first());
        reveal_with_fuel(crate::bits::pow256, 5);
        assert(crate::bits::pow256(4) == 4294967296);
        crate::bits::lemma_le_round_trip(states[0] as nat, 4, Seq::empty(), Seq::empty());
    }
}

/// One decoder step on the coding of `folded`: the slot of coder `n % states` lies in
/// the range of the symbol of `folded[n]`, the decoder step gives back the state that
/// the encoder shifted down, and reading the bytes it shifted out restores the coder
/// state before that symbol was encoded.
proof fn lemma_decode_step(
    payload: Seq<u8>,
    folded: Seq<u32>,
    table_log: u8,
    symbols: Seq<RansSymbol>,
    lookup: Seq<u16>,
    states: nat,
    n: int,
    cursor: int,
)
    requires
        table_ok(table_log, symbols, lookup),
        table_covers_all(lookup, folded),
        states >= 1,
        0 <= n < folded.len(),
        0 <= cursor <= payload.len(),
        payload.subrange(cursor, payload.len() as int) == coder_run(
            folded,
            table_log,
            symbols,
            lookup,
            states,
            n,
        ).1.reverse(),
    ensures
        ({
            let now = coder_run(folded, table_log, symbols, lookup, states, n).0;
            let next = coder_run(folded, table_log, symbols, lookup, states, n + 1).0;
            let lane = n % (states as int);
            let symbol = coded_symbol(folded, symbols, lookup, n);
            let bound = renorm_bound(table_log, symbol.frequency);
            let kept = shifted_state(next[lane] as nat, bound);
            let used = shifted_bytes(next[lane] as nat, bound).len() as int;
            &&& 0 <= symbol.cumulative <= now[lane] as int % spec_table_size(table_log)
                < symbol.cumulative + symbol.frequency
            &&& symbol.value == folded[n]
            &&& exists|p: int| 0 <= p < symbols.len() && symbols[p] == symbol
            &&& spec_decode_step(
                now[lane] as int,
                symbol.frequency as int,
                symbol.cumulative as int,
                spec_table_size(table_log),
            ) == kept
            &&& kept < 256 * RANS_BYTE_L
            &&& refill(kept, payload, cursor) == Some((next[lane] as nat, cursor + used))
            &&& cursor + used <= payload.len()
            &&& payload.subrange(cursor + used, payload.len() as int) == coder_run(
                folded,
                table_log,
                symbols,
                lookup,
                states,
                n + 1,
            ).1.reverse()
            &&& next == now.update(lane, next[lane])
            &&& 0 <= lane < now.len() == states
        }),
{
    let now = coder_run(folded, table_log, symbols, lookup, states, n).0;
    let run = coder_run(folded, table_log, symbols, lookup, states, n + 1);
    let next = run.0;
    let lane = n % (states as int);
    let symbol = coded_symbol(folded, symbols, lookup, n);
    let position = lookup[folded[n] as int] - 1;
    assert(table_covers(lookup, folded[n] as int));
    assert(symbols[position] == symbol);
    assert(symbol.frequency >= 1);
    let bound = renorm_bound(table_log, symbol.frequency);
    lemma_coder_run_range(folded, table_log, symbols, lookup, states, n + 1);
    lemma_coder_run_range(folded, table_log, symbols, lookup, states, n);
    let state = next[lane] as nat;
    lemma_renorm_bound(table_log, symbol.frequency);
    let lower = ((8388608int / spec_table_size(table_log)) * symbol.frequency) as nat;
    lemma_shifted_bounds(state, lower);
    let kept = shifted_state(state, bound);
    lemma_encode_step_range(state, table_log, symbol);
    let encoded = spec_encode_step(
        kept as int,
        symbol.frequency as int,
        symbol.cumulative as int,
        spec_table_size(table_log),
    );
    assert(now[lane] == encoded);
    lemma_rans_step_inverse(kept as int, symbol.frequency as int, symbol.cumulative as int, spec_table_size(table_log));
    let bytes = shifted_bytes(state, bound);
    lemma_reverse_concat(run.1, bytes);
    let tail = payload.subrange(cursor, payload.len() as int);
    assert(tail == bytes.reverse() + run.1.reverse());
    assert(payload.subrange(cursor, cursor + bytes.len()) =~= tail.subrange(0, bytes.len() as int));
    assert(tail.subrange(0, bytes.len() as int) =~= bytes.reverse());
    lemma_refill_shifted(state, bound, payload, cursor);
    assert(payload.subrange(cursor + bytes.len(), payload.len() as int) =~= tail.subrange(
        bytes.len() as int,
        tail.len() as int,
    ));
    assert(next =~= now.update(lane, next[lane]));
}

/// A decoding table: slot `j` holds the symbol whose slot range contains `j`.
pub open spec fn decoding_table_ok(table: Seq<RansSymbol>, max_folded: u32) -> bool {
    forall|j: int|
        0 <= j < table.len() ==> {
            &&& #[trigger] table[j].cumulative <= j < table[j].cumulative + table[j].frequency
            &&& table[j].value <= max_folded
        }
}

/// The start of an order-0 coding: the table log, then the alphabet size, then the
/// symbol table, the coder states and the shifted-out bytes.
proof fn lemma_carries_header(
    payload: Seq<u8>,
    sample_count: int,
    max_folded: u32,
    states: nat,
    f: Seq<u32>,
    lg: u8,
    syms: Seq<RansSymbol>,
    lk: Seq<u16>,
)
    requires
        rans_carries(payload, sample_count, max_folded, states, f, lg, syms, lk),
        states >= 1,
    ensures
        payload.len() >= 1,
        payload[0] == lg,
        varint_at(payload, 1, syms.len() as u32),
        1 + spec_varint(syms.len()).len() <= payload.len(),
        payload.subrange(1 + spec_varint(syms.len()).len() as int, payload.len() as int) == table_entries(syms, 0)
            + state_bytes(coder_run(f, lg, syms, lk, states, 0).0) + coder_run(
            f,
            lg,
            syms,
            lk,
            states,
            0,
        ).1.reverse(),
{
    let run = coder_run(f, lg, syms, lk, states, 0);
    let rest = table_entries(syms, 0) + state_bytes(run.0) + run.1.reverse();
    assert(payload =~= seq![lg] + (spec_varint(syms.len()) + rest));
    assert(payload.subrange(1, payload.len() as int) =~= spec_varint((syms.len() as u32) as nat) + rest);
    crate::bits::lemma_varint_at_front(payload, 1, syms.len() as u32, rest);
}

/// One entry of the symbol table: the gap from the previous symbol, then, for all but
/// the last symbol, its frequency.
proof fn lemma_table_entry(payload: Seq<u8>, cursor: int, syms: Seq<RansSymbol>, index: int, previous: u16, rest: Seq<u8>)
    requires
        0 <= index < syms.len(),
        0 <= cursor <= payload.len(),
        previous <= syms[index].value,
        payload.subrange(cursor, payload.len() as int) == table_entries(syms.skip(index), previous as int) + rest,
    ensures
        ({
            let gap = (syms[index].value - previous) as u32;
            let after_gap = cursor + spec_varint(gap as nat).len();
            let frequency = syms[index].frequency as u32;
            &&& varint_at(payload, cursor, gap)
            &&& after_gap <= payload.len()
            &&& index + 1 < syms.len() ==> {
                &&& varint_at(payload, after_gap, frequency)
                &&& after_gap + spec_varint(frequency as nat).len() <= payload.len()
                &&& payload.subrange(after_gap + spec_varint(frequency as nat).len(), payload.len() as int)
                    == table_entries(syms.skip(index + 1), syms[index].value as int) + rest
            }
            &&& index + 1 == syms.len() ==> payload.subrange(after_gap, payload.len() as int)
                == table_entries(syms.skip(index + 1), syms[index].value as int) + rest
        }),
{
    let tail = syms.skip(index);
    assert(tail[0] == syms[index]);
    assert(tail.drop_first() =~= syms.skip(index + 1));
    let gap = (syms[index].value - previous) as u32;
    let next = table_entries(syms.skip(index + 1), syms[index].value as int);
    if index + 1 < syms.len() {
        let frequency = syms[index].frequency as u32;
        assert(payload.subrange(cursor, payload.len() as int) =~= spec_varint(gap as nat) + (spec_varint(
            frequency as nat,
        ) + next + rest));
        crate::bits::lemma_varint_at_front(payload, cursor, gap, spec_varint(frequency as nat) + next + rest);
        assert(spec_varint(frequency as nat) + next + rest =~= spec_varint(frequency as nat) + (next + rest));
        crate::bits::lemma_varint_at_front(
            payload,
            cursor + spec_varint(gap as nat).len(),
            frequency,
            next + rest,
        );
    } else {
        assert(payload.subrange(cursor, payload.len() as int) =~= spec_varint(gap as nat) + (next + rest));
        crate::bits::lemma_varint_at_front(payload, cursor, gap, next + rest);
    }
}

/// Decodes `sample_count` folded symbols from an order-0 payload coded by `states`
/// interleaved coders (1 or 4). The order-0 coding of symbols under a table reads
/// back as those symbols.
pub fn decode_rans_symbols_with_states(
    payload: &[u8],
    sample_count: usize,
    max_folded: u32,
    states: usize,
) -> (r: Result<Vec<u32>, CodecError>)
    requires
        states == 1 || states == RANS_INTERLEAVED_STATES,
        max_folded <= 0xffff,
    ensures
        r matches Ok(out) ==> {
            &&& out.len() == sample_count
            &&& forall|i: int| 0 <= i < out.len() ==> #[trigger] out@[i] <= max_folded
            &&& payload.len() >= 1
            &&& supported_table_log(payload@[0])
        },
        r is Err ==> r matches Err(CodecError::Malformed(_)),
        payload.len() == 0 ==> r == Err::<Vec<u32>, CodecError>(
            CodecError::Malformed("truncated order-0 table"),
        ),
        payload.len() >= 1 && !supported_table_log(payload@[0]) ==> r == Err::<Vec<u32>, CodecError>(
            CodecError::Malformed("order-0 table log is out of range"),
        ),
        payload.len() >= 1 && supported_table_log(payload@[0]) && varint_at(payload@, 1, 0) ==> r
            == Err::<Vec<u32>, CodecError>(CodecError::Malformed("order-0 alphabet size is out of range")),
        forall|f: Seq<u32>, lg: u8, syms: Seq<RansSymbol>, lk: Seq<u16>|
            #[trigger] rans_carries(payload@, sample_count as int, max_folded, states as nat, f, lg, syms, lk)
                ==> (r matches Ok(out) && out@ == f),
{
    let ghost bytes = payload@;
    let ghost count = sample_count as int;
    let ghost lanes = states as nat;
    if payload.len() < 1 {
        proof {
            assert forall|f: Seq<u32>, lg: u8, syms: Seq<RansSymbol>, lk: Seq<u16>|
                !#[trigger] rans_carries(bytes, count, max_folded, lanes, f, lg, syms, lk) by {
                if rans_carries(bytes, count, max_folded, lanes, f, lg, syms, lk) {
                    lemma_carries_header(bytes, count, max_folded, lanes, f, lg, syms, lk);
                }
            }
        }
        return Err(CodecError::Malformed("truncated order-0 table"));
    }
    let table_log = payload[0];
    let mut cursor: usize = 1;
    if table_log < RANS_MIN_TABLE_LOG || table_log > RANS_MAX_TABLE_LOG {
        proof {
            assert forall|f: Seq<u32>, lg: u8, syms: Seq<RansSymbol>, lk: Seq<u16>|
                !#[trigger] rans_carries(bytes, count, max_folded, lanes, f, lg, syms, lk) by {
                if rans_carries(bytes, count, max_folded, lanes, f, lg, syms, lk) {
                    lemma_carries_header(bytes, count, max_folded, lanes, f, lg, syms, lk);
                }
            }
        }
        return Err(CodecError::Malformed("order-0 table log is out of range"));
    }
    let table_size = table_size_for(table_log);
    proof {
        lemma_table_constants(table_log);
    }
    let symbol_count = match get_varint(payload, &mut cursor) {
        Ok(value) => value,
        Err(error) => {
            proof {
                assert forall|f: Seq<u32>, lg: u8, syms: Seq<RansSymbol>, lk: Seq<u16>|
                    !#[trigger] rans_carries(bytes, count, max_folded, lanes, f, lg, syms, lk) by {
                    if rans_carries(bytes, count, max_folded, lanes, f, lg, syms, lk) {
                        lemma_carries_header(bytes, count, max_folded, lanes, f, lg, syms, lk);
                    }
                }
            }
            return Err(error);
        },
    };
    proof {
        assert forall|f: Seq<u32>, lg: u8, syms: Seq<RansSymbol>, lk: Seq<u16>|
            #[trigger] rans_carries(bytes, count, max_folded, lanes, f, lg, syms, lk) implies symbol_count
            == syms.len() && lg == table_log by {
            lemma_carries_header(bytes, count, max_folded, lanes, f, lg, syms, lk);
            crate::bits::lemma_varint_at_unique(bytes, 1, symbol_count, syms.len() as u32);
        }
        if varint_at(bytes, 1, 0) {
            crate::bits::lemma_varint_at_unique(bytes, 1, symbol_count, 0);
        }
    }
    if symbol_count == 0 || symbol_count > 511 || symbol_count > table_size {
        proof {
            assert forall|f: Seq<u32>, lg: u8, syms: Seq<RansSymbol>, lk: Seq<u16>|
                !#[trigger] rans_carries(bytes, count, max_folded, lanes, f, lg, syms, lk) by {
                if rans_carries(bytes, count, max_folded, lanes, f, lg, syms, lk) {
                    assert(symbol_count == syms.len());
                }
            }
        }
        return Err(CodecError::Malformed("order-0 alphabet size is out of range"));
    }
    let symbol_count = symbol_count as usize;
    let ghost refusals_pass = payload.len() >= 1 && supported_table_log(payload@[0]) && !varint_at(
        payload@,
        1,
        0,
    );
    assert(refusals_pass);
    let mut symbols: Vec<RansSymbol> = Vec::with_capacity(symbol_count);
    let mut previous: u32 = 0;
    let mut cumulative: u32 = 0;
    let mut index: usize = 0;
    proof {
        assert forall|f: Seq<u32>, lg: u8, syms: Seq<RansSymbol>, lk: Seq<u16>|
            #[trigger] rans_carries(bytes, count, max_folded, lanes, f, lg, syms, lk) implies {
            &&& bytes.subrange(cursor as int, bytes.len() as int) == table_entries(syms.skip(0), 0)
                + state_bytes(coder_run(f, lg, syms, lk, lanes, 0).0) + coder_run(f, lg, syms, lk, lanes, 0).1.reverse()
            &&& cumulative == syms[0].cumulative
            &&& symbols@ == syms.take(0)
        } by {
            lemma_carries_header(bytes, count, max_folded, lanes, f, lg, syms, lk);
            assert(syms.skip(0) =~= syms);
            assert(symbols@ =~= syms.take(0));
        }
    }
    while index < symbol_count
        invariant
            bytes == payload@,
            refusals_pass,
            refusals_pass == (payload.len() >= 1 && supported_table_log(payload@[0]) && !varint_at(payload@, 1, 0)),
            count == sample_count,
            lanes == states,
            table_size == spec_table_size(table_log),
            supported_table_log(table_log),
            256 <= table_size <= 4096,
            1 <= symbol_count <= 511,
            max_folded <= 0xffff,
            index <= symbol_count,
            symbols.len() == index,
            cursor <= payload.len(),
            cumulative <= table_size,
            index < symbol_count ==> cumulative < table_size,
            index == symbol_count ==> cumulative == table_size,
            forall|k: int|
                0 <= k < index ==> {
                    &&& #[trigger] symbols@[k].frequency >= 1
                    &&& symbols@[k].cumulative + symbols@[k].frequency <= cumulative
                    &&& symbols@[k].value <= max_folded
                },
            forall|k: int|
                0 <= k < index - 1 ==> #[trigger] symbols@[k + 1].cumulative == symbols@[k].cumulative
                    + symbols@[k].frequency,
            index > 0 ==> symbols@[index - 1].cumulative + symbols@[index - 1].frequency
                == cumulative,
            index == 0 ==> cumulative == 0,
            index > 0 ==> symbols@[0].cumulative == 0,
            index == 0 ==> previous == 0,
            index > 0 ==> previous == symbols@[index - 1].value,
            forall|f: Seq<u32>, lg: u8, syms: Seq<RansSymbol>, lk: Seq<u16>|
                #[trigger] rans_carries(bytes, count, max_folded, lanes, f, lg, syms, lk) ==> {
                    &&& symbol_count == syms.len()
                    &&& lg == table_log
                    &&& symbols@ == syms.take(index as int)
                    &&& index < symbol_count ==> cumulative == syms[index as int].cumulative
                    &&& bytes.subrange(cursor as int, bytes.len() as int) == table_entries(
                        syms.skip(index as int),
                        previous as int,
                    ) + state_bytes(coder_run(f, lg, syms, lk, lanes, 0).0) + coder_run(
                        f,
                        lg,
                        syms,
                        lk,
                        lanes,
                        0,
                    ).1.reverse()
                },
        decreases symbol_count - index,
    {
        let ghost start = cursor;
        proof {
            assert forall|f: Seq<u32>, lg: u8, syms: Seq<RansSymbol>, lk: Seq<u16>|
                #[trigger] rans_carries(bytes, count, max_folded, lanes, f, lg, syms, lk) implies {
                &&& varint_at(bytes, start as int, (syms[index as int].value - previous) as u32)
                &&& previous <= syms[index as int].value
                &&& (index > 0 ==> previous < syms[index as int].value)
            } by {
                if index > 0 {
                    assert(symbols@[index - 1] == syms[index - 1]);
                    assert(syms[index - 1].value < syms[index as int].value);
                }
                let rest = state_bytes(coder_run(f, lg, syms, lk, lanes, 0).0) + coder_run(f, lg, syms, lk, lanes, 0).1.reverse();
                assert(bytes.subrange(start as int, bytes.len() as int) == table_entries(syms.skip(index as int), previous as int) + rest);
                lemma_table_entry(bytes, start as int, syms, index as int, previous as u16, rest);
            }
        }
        let delta = match get_varint(payload, &mut cursor) {
            Ok(value) => value,
            Err(error) => {
                proof {
                    assert forall|f: Seq<u32>, lg: u8, syms: Seq<RansSymbol>, lk: Seq<u16>|
                        !#[trigger] rans_carries(bytes, count, max_folded, lanes, f, lg, syms, lk) by {
                        if rans_carries(bytes, count, max_folded, lanes, f, lg, syms, lk) {
                            assert(varint_at(bytes, start as int, (syms[index as int].value - previous) as u32));
                        }
                    }
                }
                return Err(error);
            },
        };
        proof {
            assert forall|f: Seq<u32>, lg: u8, syms: Seq<RansSymbol>, lk: Seq<u16>|
                #[trigger] rans_carries(bytes, count, max_folded, lanes, f, lg, syms, lk) implies delta
                == syms[index as int].value - previous by {
                crate::bits::lemma_varint_at_unique(bytes, start as int, delta, (syms[index as int].value - previous) as u32);
            }
        }
        if index != 0 && delta == 0 {
            proof {
                assert forall|f: Seq<u32>, lg: u8, syms: Seq<RansSymbol>, lk: Seq<u16>|
                    !#[trigger] rans_carries(bytes, count, max_folded, lanes, f, lg, syms, lk) by {
                    if rans_carries(bytes, count, max_folded, lanes, f, lg, syms, lk) {
                        assert(delta == syms[index as int].value - previous);
                    }
                }
            }
            return Err(CodecError::Malformed("order-0 symbols are not strictly increasing"));
        }
        let value = match previous.checked_add(delta) {
            Some(value) => value,
            None => {
                proof {
                    assert forall|f: Seq<u32>, lg: u8, syms: Seq<RansSymbol>, lk: Seq<u16>|
                        !#[trigger] rans_carries(bytes, count, max_folded, lanes, f, lg, syms, lk) by {
                        if rans_carries(bytes, count, max_folded, lanes, f, lg, syms, lk) {
                            assert(delta == syms[index as int].value - previous);
                        }
                    }
                }
                return Err(CodecError::Malformed("order-0 symbol is out of range"));
            },
        };
        if value > max_folded {
            proof {
                assert forall|f: Seq<u32>, lg: u8, syms: Seq<RansSymbol>, lk: Seq<u16>|
                    !#[trigger] rans_carries(bytes, count, max_folded, lanes, f, lg, syms, lk) by {
                    if rans_carries(bytes, count, max_folded, lanes, f, lg, syms, lk) {
                        assert(delta == syms[index as int].value - previous);
                        assert(syms[index as int].value <= max_folded);
                    }
                }
            }
            return Err(CodecError::Malformed("order-0 symbol is out of range"));
        }
        let ghost after_gap = cursor;
        let frequency = if index + 1 == symbol_count {
            table_size - cumulative
        } else {
            let frequency = match get_varint(payload, &mut cursor) {
                Ok(frequency) => frequency,
                Err(error) => {
                    proof {
                        assert forall|f: Seq<u32>, lg: u8, syms: Seq<RansSymbol>, lk: Seq<u16>|
                            !#[trigger] rans_carries(bytes, count, max_folded, lanes, f, lg, syms, lk) by {
                            if rans_carries(bytes, count, max_folded, lanes, f, lg, syms, lk) {
                                let rest = state_bytes(coder_run(f, lg, syms, lk, lanes, 0).0) + coder_run(f, lg, syms, lk, lanes, 0).1.reverse();
                                assert(bytes.subrange(start as int, bytes.len() as int) == table_entries(syms.skip(index as int), previous as int) + rest);
                                lemma_table_entry(bytes, start as int, syms, index as int, previous as u16, rest);
                                assert(delta == syms[index as int].value - previous);
                            }
                        }
                    }
                    return Err(error);
                },
            };
            proof {
                assert forall|f: Seq<u32>, lg: u8, syms: Seq<RansSymbol>, lk: Seq<u16>|
                    #[trigger] rans_carries(bytes, count, max_folded, lanes, f, lg, syms, lk) implies frequency
                    == syms[index as int].frequency && cumulative + frequency < table_size by {
                    let rest = state_bytes(coder_run(f, lg, syms, lk, lanes, 0).0) + coder_run(f, lg, syms, lk, lanes, 0).1.reverse();
                    assert(bytes.subrange(start as int, bytes.len() as int) == table_entries(syms.skip(index as int), previous as int) + rest);
                    lemma_table_entry(bytes, start as int, syms, index as int, previous as u16, rest);
                    assert(delta == syms[index as int].value - previous);
                    crate::bits::lemma_varint_at_unique(
                        bytes,
                        after_gap as int,
                        frequency,
                        syms[index as int].frequency as u32,
                    );
                    assert(syms[index + 1].cumulative == syms[index as int].cumulative
                        + syms[index as int].frequency);
                    assert(syms[index + 1].frequency >= 1);
                }
            }
            if frequency == 0 || frequency >= table_size - cumulative {
                proof {
                    assert forall|f: Seq<u32>, lg: u8, syms: Seq<RansSymbol>, lk: Seq<u16>|
                        !#[trigger] rans_carries(bytes, count, max_folded, lanes, f, lg, syms, lk) by {
                        if rans_carries(bytes, count, max_folded, lanes, f, lg, syms, lk) {
                            assert(syms[index as int].frequency >= 1);
                        }
                    }
                }
                return Err(CodecError::Malformed("order-0 frequency is out of range"));
            }
            frequency
        };
        let ghost old_symbols = symbols@;
        symbols.push(
            RansSymbol {
                value: value as u16,
                frequency: frequency as u16,
                cumulative: cumulative as u16,
            },
        );
        proof {
            assert forall|f: Seq<u32>, lg: u8, syms: Seq<RansSymbol>, lk: Seq<u16>|
                #[trigger] rans_carries(bytes, count, max_folded, lanes, f, lg, syms, lk) implies {
                &&& symbols@ == syms.take(index + 1)
                &&& index + 1 < symbol_count ==> cumulative + frequency == syms[index + 1].cumulative
                &&& bytes.subrange(cursor as int, bytes.len() as int) == table_entries(
                    syms.skip(index + 1),
                    value as int,
                ) + state_bytes(coder_run(f, lg, syms, lk, lanes, 0).0) + coder_run(f, lg, syms, lk, lanes, 0).1.reverse()
            } by {
                let rest = state_bytes(coder_run(f, lg, syms, lk, lanes, 0).0) + coder_run(f, lg, syms, lk, lanes, 0).1.reverse();
                assert(bytes.subrange(start as int, bytes.len() as int) == table_entries(syms.skip(index as int), previous as int) + rest);
                lemma_table_entry(bytes, start as int, syms, index as int, previous as u16, rest);
                assert(delta == syms[index as int].value - previous);
                assert(table_entries(syms.skip(index + 1), syms[index as int].value as int) + rest =~= table_entries(
                    syms.skip(index + 1),
                    syms[index as int].value as int,
                ) + state_bytes(coder_run(f, lg, syms, lk, lanes, 0).0) + coder_run(f, lg, syms, lk, lanes, 0).1.reverse());
                if index + 1 == symbol_count {
                    assert(syms[index as int].cumulative + syms[index as int].frequency == spec_table_size(lg));
                } else {
                    assert(syms[index + 1].cumulative == syms[index as int].cumulative
                        + syms[index as int].frequency);
                }
                assert(symbols@ =~= syms.take(index + 1));
            }
        }
        cumulative = cumulative + frequency;
        previous = value;
        index = index + 1;
    }
    let ghost header_end = cursor;
    proof {
        assert forall|f: Seq<u32>, lg: u8, syms: Seq<RansSymbol>, lk: Seq<u16>|
            #[trigger] rans_carries(bytes, count, max_folded, lanes, f, lg, syms, lk) implies {
            &&& symbols@ == syms
            &&& bytes.subrange(header_end as int, bytes.len() as int) == state_bytes(
                coder_run(f, lg, syms, lk, lanes, 0).0,
            ) + coder_run(f, lg, syms, lk, lanes, 0).1.reverse()
            &&& coder_run(f, lg, syms, lk, lanes, 0).0.len() == states
            &&& state_bytes(coder_run(f, lg, syms, lk, lanes, 0).0).len() == 4 * states
        } by {
            assert(syms.skip(symbol_count as int) =~= Seq::<RansSymbol>::empty());
            assert(syms.take(symbol_count as int) =~= syms);
            lemma_coder_run_range(f, lg, syms, lk, lanes, 0);
            lemma_state_bytes_len(coder_run(f, lg, syms, lk, lanes, 0).0);
            let rest = state_bytes(coder_run(f, lg, syms, lk, lanes, 0).0) + coder_run(f, lg, syms, lk, lanes, 0).1.reverse();
            assert(table_entries(Seq::<RansSymbol>::empty(), previous as int) + rest =~= rest);
        }
    }
    if cursor > payload.len() || payload.len() - cursor < 4 * states {
        proof {
            assert forall|f: Seq<u32>, lg: u8, syms: Seq<RansSymbol>, lk: Seq<u16>|
                !#[trigger] rans_carries(bytes, count, max_folded, lanes, f, lg, syms, lk) by {
                if rans_carries(bytes, count, max_folded, lanes, f, lg, syms, lk) {
                    assert(bytes.subrange(header_end as int, bytes.len() as int).len() >= 4 * states);
                }
            }
        }
        return Err(CodecError::Malformed("truncated order-0 state"));
    }
    let mut coder: Vec<u32> = Vec::with_capacity(states);
    let mut lane: usize = 0;
    proof {
        assert forall|f: Seq<u32>, lg: u8, syms: Seq<RansSymbol>, lk: Seq<u16>|
            #[trigger] rans_carries(bytes, count, max_folded, lanes, f, lg, syms, lk) implies coder@
            == coder_run(f, lg, syms, lk, lanes, 0).0.take(0) by {
            assert(coder@ =~= coder_run(f, lg, syms, lk, lanes, 0).0.take(0));
        }
    }
    while lane < states
        invariant
            bytes == payload@,
            refusals_pass,
            refusals_pass == (payload.len() >= 1 && supported_table_log(payload@[0]) && !varint_at(payload@, 1, 0)),
            count == sample_count,
            lanes == states,
            states == 1 || states == RANS_INTERLEAVED_STATES,
            cursor == header_end,
            cursor + 4 * states <= payload.len(),
            lane <= states,
            coder.len() == lane,
            forall|k: int| 0 <= k < lane ==> #[trigger] coder@[k] >= RANS_BYTE_L,
            forall|f: Seq<u32>, lg: u8, syms: Seq<RansSymbol>, lk: Seq<u16>|
                #[trigger] rans_carries(bytes, count, max_folded, lanes, f, lg, syms, lk) ==> {
                    &&& symbols@ == syms
                    &&& lg == table_log
                    &&& bytes.subrange(header_end as int, bytes.len() as int) == state_bytes(
                        coder_run(f, lg, syms, lk, lanes, 0).0,
                    ) + coder_run(f, lg, syms, lk, lanes, 0).1.reverse()
                    &&& coder_run(f, lg, syms, lk, lanes, 0).0.len() == states
                    &&& coder@ == coder_run(f, lg, syms, lk, lanes, 0).0.take(lane as int)
                },
        decreases states - lane,
    {
        let state = get_u32(payload, cursor + lane * 4)?;
        proof {
            assert forall|f: Seq<u32>, lg: u8, syms: Seq<RansSymbol>, lk: Seq<u16>|
                #[trigger] rans_carries(bytes, count, max_folded, lanes, f, lg, syms, lk) implies state
                == coder_run(f, lg, syms, lk, lanes, 0).0[lane as int] by {
                let run = coder_run(f, lg, syms, lk, lanes, 0);
                let before = bytes.subrange(0, header_end as int);
                assert(bytes =~= before + state_bytes(run.0) + run.1.reverse());
                lemma_state_bytes_at(run.0, lane as int, before, run.1.reverse());
            }
        }
        if state < RANS_BYTE_L {
            proof {
                assert forall|f: Seq<u32>, lg: u8, syms: Seq<RansSymbol>, lk: Seq<u16>|
                    !#[trigger] rans_carries(bytes, count, max_folded, lanes, f, lg, syms, lk) by {
                    if rans_carries(bytes, count, max_folded, lanes, f, lg, syms, lk) {
                        lemma_coder_run_range(f, lg, syms, lk, lanes, 0);
                        assert(state == coder_run(f, lg, syms, lk, lanes, 0).0[lane as int]);
                    }
                }
            }
            return Err(CodecError::Malformed("invalid order-0 final state"));
        }
        coder.push(state);
        proof {
            assert forall|f: Seq<u32>, lg: u8, syms: Seq<RansSymbol>, lk: Seq<u16>|
                #[trigger] rans_carries(bytes, count, max_folded, lanes, f, lg, syms, lk) implies coder@
                == coder_run(f, lg, syms, lk, lanes, 0).0.take(lane + 1) by {
                assert(coder@ =~= coder_run(f, lg, syms, lk, lanes, 0).0.take(lane + 1));
            }
        }
        lane = lane + 1;
    }
    cursor = cursor + 4 * states;
    proof {
        assert forall|f: Seq<u32>, lg: u8, syms: Seq<RansSymbol>, lk: Seq<u16>|
            #[trigger] rans_carries(bytes, count, max_folded, lanes, f, lg, syms, lk) implies {
            &&& coder@ == coder_run(f, lg, syms, lk, lanes, 0).0
            &&& bytes.subrange(cursor as int, bytes.len() as int) == coder_run(f, lg, syms, lk, lanes, 0).1.reverse()
        } by {
            let run = coder_run(f, lg, syms, lk, lanes, 0);
            assert(run.0.take(states as int) =~= run.0);
            lemma_state_bytes_len(run.0);
            let tail = bytes.subrange(header_end as int, bytes.len() as int);
            assert(bytes.subrange(cursor as int, bytes.len() as int) =~= tail.subrange(
                4 * states,
                tail.len() as int,
            ));
            assert(tail.subrange(4 * states, tail.len() as int) =~= run.1.reverse());
        }
    }
    let mut table: Vec<RansSymbol> = Vec::with_capacity(table_size as usize);
    let mut position: usize = 0;
    while position < symbols.len()
        invariant
            bytes == payload@,
            count == sample_count,
            lanes == states,
            refusals_pass,
            refusals_pass == (payload.len() >= 1 && supported_table_log(payload@[0]) && !varint_at(payload@, 1, 0)),
            forall|f: Seq<u32>, lg: u8, syms: Seq<RansSymbol>, lk: Seq<u16>|
                #[trigger] rans_carries(bytes, count, max_folded, lanes, f, lg, syms, lk) ==> {
                    &&& symbols@ == syms
                    &&& lg == table_log
                    &&& coder@ == coder_run(f, lg, syms, lk, lanes, 0).0
                    &&& bytes.subrange(cursor as int, bytes.len() as int) == coder_run(f, lg, syms, lk, lanes, 0).1.reverse()
                },
            cursor <= payload.len(),
            coder.len() == states,
            symbols.len() == symbol_count,
            1 <= symbol_count,
            table_size == cumulative,
            position <= symbols.len(),
            forall|k: int|
                0 <= k < symbol_count ==> {
                    &&& #[trigger] symbols@[k].frequency >= 1
                    &&& symbols@[k].cumulative + symbols@[k].frequency <= cumulative
                    &&& symbols@[k].value <= max_folded
                },
            forall|k: int|
                0 <= k < symbol_count - 1 ==> #[trigger] symbols@[k + 1].cumulative
                    == symbols@[k].cumulative + symbols@[k].frequency,
            symbols@[symbol_count - 1].cumulative + symbols@[symbol_count - 1].frequency
                == cumulative,
            symbols@[0].cumulative == 0,
            position < symbol_count ==> table.len() == symbols@[position as int].cumulative,
            position == symbol_count ==> table.len() == cumulative,
            decoding_table_ok(table@, max_folded),
            forall|k: int, j: int|
                0 <= k < position && symbols@[k].cumulative <= j < symbols@[k].cumulative
                    + symbols@[k].frequency ==> #[trigger] table@[j] == #[trigger] symbols@[k],
        decreases symbols.len() - position,
    {
        let symbol = symbols[position];
        let mut copies: u16 = 0;
        let ghost before = table@;
        while copies < symbol.frequency
            invariant
                copies <= symbol.frequency,
                table.len() == symbol.cumulative + copies,
                symbol.value <= max_folded,
                decoding_table_ok(table@, max_folded),
                before.len() == symbol.cumulative,
                table@.subrange(0, before.len() as int) == before,
                forall|j: int| symbol.cumulative <= j < table.len() ==> #[trigger] table@[j] == symbol,
            decreases symbol.frequency - copies,
        {
            table.push(symbol);
            proof {
                assert(table@.subrange(0, before.len() as int) =~= before);
            }
            copies = copies + 1;
        }
        proof {
            assert forall|k: int, j: int|
                0 <= k < position + 1 && symbols@[k].cumulative <= j < symbols@[k].cumulative
                    + symbols@[k].frequency implies #[trigger] table@[j] == #[trigger] symbols@[k] by {
                if k < position {
                    assert(symbols@[k].cumulative + symbols@[k].frequency <= symbol.cumulative) by {
                        assert(symbols@[k + 1].cumulative == symbols@[k].cumulative + symbols@[k].frequency);
                        lemma_cumulative_grows(symbols@, k + 1, position as int, symbol_count as int);
                    }
                    assert(table@[j] == before[j]);
                }
            }
        }
        if position + 1 < symbol_count {
            assert(symbols@[position + 1].cumulative == symbol.cumulative + symbol.frequency);
        }
        position = position + 1;
    }
    if table.len() != table_size as usize {
        return Err(CodecError::Malformed("order-0 frequencies do not fill the table"));
    }
    let mut output: Vec<u32> = Vec::with_capacity(sample_count);
    let mut sample_index: usize = 0;
    proof {
        assert forall|f: Seq<u32>, lg: u8, syms: Seq<RansSymbol>, lk: Seq<u16>|
            #[trigger] rans_carries(bytes, count, max_folded, lanes, f, lg, syms, lk) implies output@
            == f.take(0) by {
            assert(output@ =~= f.take(0));
        }
    }
    while sample_index < sample_count
        invariant
            bytes == payload@,
            refusals_pass,
            refusals_pass == (payload.len() >= 1 && supported_table_log(payload@[0]) && !varint_at(payload@, 1, 0)),
            count == sample_count,
            lanes == states,
            table_size == spec_table_size(table_log),
            supported_table_log(table_log),
            table.len() == table_size,
            decoding_table_ok(table@, max_folded),
            symbols.len() == symbol_count,
            forall|k: int, j: int|
                0 <= k < symbol_count && symbols@[k].cumulative <= j < symbols@[k].cumulative
                    + symbols@[k].frequency ==> #[trigger] table@[j] == #[trigger] symbols@[k],
            states == 1 || states == RANS_INTERLEAVED_STATES,
            coder.len() == states,
            sample_index <= sample_count,
            output.len() == sample_index,
            cursor <= payload.len(),
            forall|i: int| 0 <= i < output.len() ==> #[trigger] output@[i] <= max_folded,
            forall|f: Seq<u32>, lg: u8, syms: Seq<RansSymbol>, lk: Seq<u16>|
                #[trigger] rans_carries(bytes, count, max_folded, lanes, f, lg, syms, lk) ==> {
                    &&& symbols@ == syms
                    &&& lg == table_log
                    &&& coder@ == coder_run(f, lg, syms, lk, lanes, sample_index as int).0
                    &&& bytes.subrange(cursor as int, bytes.len() as int) == coder_run(
                        f,
                        lg,
                        syms,
                        lk,
                        lanes,
                        sample_index as int,
                    ).1.reverse()
                    &&& output@ == f.take(sample_index as int)
                },
        decreases sample_count - sample_index,
    {
        let lane = sample_index % states;
        let state = coder[lane];
        let slot = state % table_size;
        let symbol = table[slot as usize];
        output.push(symbol.value as u32);
        let ghost n = sample_index as int;
        let ghost start = cursor;
        let ghost old_output = output@.drop_last();
        proof {
            assert forall|f: Seq<u32>, lg: u8, syms: Seq<RansSymbol>, lk: Seq<u16>|
                #[trigger] rans_carries(bytes, count, max_folded, lanes, f, lg, syms, lk) implies {
                &&& symbol == coded_symbol(f, syms, lk, n)
                &&& spec_decode_step(state as int, symbol.frequency as int, symbol.cumulative as int, table_size as int)
                    < 256 * RANS_BYTE_L
            } by {
                lemma_decode_step(bytes, f, lg, syms, lk, lanes, n, start as int);
                let coded = coded_symbol(f, syms, lk, n);
                let p = choose|p: int| 0 <= p < syms.len() && syms[p] == coded;
                assert(table@[slot as int] == symbols@[p]);
            }
        }
        let next = match rans_advance_decoder(state, symbol, slot, table_log) {
            Ok(next) => next,
            Err(error) => {
                proof {
                    assert forall|f: Seq<u32>, lg: u8, syms: Seq<RansSymbol>, lk: Seq<u16>|
                        !#[trigger] rans_carries(bytes, count, max_folded, lanes, f, lg, syms, lk) by {
                        if rans_carries(bytes, count, max_folded, lanes, f, lg, syms, lk) {
                            assert(symbol == coded_symbol(f, syms, lk, n));
                        }
                    }
                }
                return Err(error);
            },
        };
        let mut renormalized = next;
        match rans_renormalize(&mut renormalized, payload, &mut cursor) {
            Ok(()) => {},
            Err(error) => {
                proof {
                    assert forall|f: Seq<u32>, lg: u8, syms: Seq<RansSymbol>, lk: Seq<u16>|
                        !#[trigger] rans_carries(bytes, count, max_folded, lanes, f, lg, syms, lk) by {
                        if rans_carries(bytes, count, max_folded, lanes, f, lg, syms, lk) {
                            lemma_decode_step(bytes, f, lg, syms, lk, lanes, n, start as int);
                            assert(symbol == coded_symbol(f, syms, lk, n));
                        }
                    }
                }
                return Err(error);
            },
        }
        let ghost old_coder = coder@;
        coder.set(lane, renormalized);
        proof {
            assert forall|f: Seq<u32>, lg: u8, syms: Seq<RansSymbol>, lk: Seq<u16>|
                #[trigger] rans_carries(bytes, count, max_folded, lanes, f, lg, syms, lk) implies {
                &&& coder@ == coder_run(f, lg, syms, lk, lanes, n + 1).0
                &&& bytes.subrange(cursor as int, bytes.len() as int) == coder_run(f, lg, syms, lk, lanes, n + 1).1.reverse()
                &&& output@ == f.take(n + 1)
            } by {
                lemma_decode_step(bytes, f, lg, syms, lk, lanes, n, start as int);
                assert(symbol == coded_symbol(f, syms, lk, n));
                assert(output@ =~= f.take(n + 1));
            }
        }
        sample_index = sample_index + 1;
    }
    if cursor != payload.len() {
        proof {
            assert forall|f: Seq<u32>, lg: u8, syms: Seq<RansSymbol>, lk: Seq<u16>|
                !#[trigger] rans_carries(bytes, count, max_folded, lanes, f, lg, syms, lk) by {
                if rans_carries(bytes, count, max_folded, lanes, f, lg, syms, lk) {
                    assert(coder_run(f, lg, syms, lk, lanes, sample_count as int).1.reverse() =~= Seq::<u8>::empty());
                }
            }
        }
        return Err(CodecError::Malformed("trailing order-0 payload bytes"));
    }
    let mut lane: usize = 0;
    while lane < states
        invariant
            bytes == payload@,
            refusals_pass,
            refusals_pass == (payload.len() >= 1 && supported_table_log(payload@[0]) && !varint_at(payload@, 1, 0)),
            count == sample_count,
            lanes == states,
            coder.len() == states,
            lane <= states,
            forall|k: int| 0 <= k < lane ==> #[trigger] coder@[k] == RANS_BYTE_L,
            forall|f: Seq<u32>, lg: u8, syms: Seq<RansSymbol>, lk: Seq<u16>|
                #[trigger] rans_carries(bytes, count, max_folded, lanes, f, lg, syms, lk) ==> {
                    &&& coder@ == coder_run(f, lg, syms, lk, lanes, sample_count as int).0
                    &&& output@ == f.take(sample_count as int)
                    &&& f.len() == sample_count
                },
        decreases states - lane,
    {
        if coder[lane] != RANS_BYTE_L {
            proof {
                assert forall|f: Seq<u32>, lg: u8, syms: Seq<RansSymbol>, lk: Seq<u16>|
                    !#[trigger] rans_carries(bytes, count, max_folded, lanes, f, lg, syms, lk) by {
                    if rans_carries(bytes, count, max_folded, lanes, f, lg, syms, lk) {
                        assert(coder_run(f, lg, syms, lk, lanes, sample_count as int).0[lane as int] == RANS_BYTE_L);
                    }
                }
            }
            return Err(CodecError::Malformed("noncanonical order-0 initial state"));
        }
        lane = lane + 1;
    }
    proof {
        assert forall|f: Seq<u32>, lg: u8, syms: Seq<RansSymbol>, lk: Seq<u16>|
            #[trigger] rans_carries(bytes, count, max_folded, lanes, f, lg, syms, lk) implies output@ == f by {
            assert(f.take(sample_count as int) =~= f);
        }
    }
    Ok(output)
}

/// Slot ranges of later symbols start after earlier ones end.
proof fn lemma_cumulative_grows(symbols: Seq<RansSymbol>, a: int, b: int, count: int)
    requires
        0 <= a <= b < count <= symbols.len(),
        forall|k: int|
            0 <= k < count - 1 ==> #[trigger] symbols[k + 1].cumulative == symbols[k].cumulative
                + symbols[k].frequency,
    ensures
        symbols[a].cumulative <= symbols[b].cumulative,
    decreases b - a,
{
    if a < b {
        assert(symbols[a + 1].cumulative == symbols[a].cumulative + symbols[a].frequency);
        lemma_cumulative_grows(symbols, a + 1, b, count);
    }
}

/// Decodes a single-coder order-0 payload; the payload that `encode_rans_payload`
/// writes for symbols reads back as them.
pub fn decode_rans_symbols(payload: &[u8], sample_count: usize, max_folded: u32) -> (r: Result<
    Vec<u32>,
    CodecError,
>)
    requires
        max_folded <= 0xffff,
    ensures
        r matches Ok(out) ==> out.len() == sample_count && forall|i: int|
            0 <= i < out.len() ==> #[trigger] out@[i] <= max_folded,
        r is Err ==> r matches Err(CodecError::Malformed(_)),
        payload.len() == 0 ==> r == Err::<Vec<u32>, CodecError>(
            CodecError::Malformed("truncated order-0 table"),
        ),
        payload.len() >= 1 && !supported_table_log(payload@[0]) ==> r == Err::<Vec<u32>, CodecError>(
            CodecError::Malformed("order-0 table log is out of range"),
        ),
        payload.len() >= 1 && supported_table_log(payload@[0]) && varint_at(payload@, 1, 0) ==> r
            == Err::<Vec<u32>, CodecError>(CodecError::Malformed("order-0 alphabet size is out of range")),
        forall|f: Seq<u32>, lg: u8, syms: Seq<RansSymbol>, lk: Seq<u16>|
            #[trigger] rans_carries(payload@, sample_count as int, max_folded, 1, f, lg, syms, lk)
                ==> (r matches Ok(out) && out@ == f),
{
    decode_rans_symbols_with_states(payload, sample_count, max_folded, 1)
}

/// Decodes a four-coder order-0 payload; the payload that
/// `encode_rans_payload_interleaved` writes for symbols reads back as them.
pub fn decode_rans_symbols_interleaved(payload: &[u8], sample_count: usize, max_folded: u32) -> (r:
    Result<Vec<u32>, CodecError>)
    requires
        max_folded <= 0xffff,
    ensures
        r matches Ok(out) ==> out.len() == sample_count && forall|i: int|
            0 <= i < out.len() ==> #[trigger] out@[i] <= max_folded,
        r is Err ==> r matches Err(CodecError::Malformed(_)),
        payload.len() == 0 ==> r == Err::<Vec<u32>, CodecError>(
            CodecError::Malformed("truncated order-0 table"),
        ),
        payload.len() >= 1 && !supported_table_log(payload@[0]) ==> r == Err::<Vec<u32>, CodecError>(
            CodecError::Malformed("order-0 table log is out of range"),
        ),
        payload.len() >= 1 && supported_table_log(payload@[0]) && varint_at(payload@, 1, 0) ==> r
            == Err::<Vec<u32>, CodecError>(CodecError::Malformed("order-0 alphabet size is out of range")),
        forall|f: Seq<u32>, lg: u8, syms: Seq<RansSymbol>, lk: Seq<u16>|
            #[trigger] rans_carries(
                payload@,
                sample_count as int,
                max_folded,
                RANS_INTERLEAVED_STATES as nat,
                f,
                lg,
                syms,
                lk,
            ) ==> (r matches Ok(out) && out@ == f),
{
    decode_rans_symbols_with_states(payload, sample_count, max_folded, RANS_INTERLEAVED_STATES)
}

} // verus!
