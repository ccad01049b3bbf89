//! Read-only size models of residual symbol streams: byte-oriented formats,
//! finite-table order-0 coding, causal contexts, Rice lanes and storage orders.
use crate::bits::spec_varint_length;
use crate::entropy::{folded_domain, modeled_zero_run_cost, rice_cost, zero_run_encoding};
use crate::tile_coding::rice_bytes;
use crate::tile_coding16::{block_pack_cost, min_rice_bytes, modeled_block_pack_cost};
use vstd::prelude::*;

verus! {

/// Most symbols that one model holds.
pub const MODEL_MAX_SYMBOLS: usize = 0x4000_0000;

// ---------------------------------------------------------------------------
// The caller's order-0 cost model
// ---------------------------------------------------------------------------

/// A total, deterministic and bounded payload-size model of order-0 coding:
/// `cost(counts, frequencies, total)` estimates
/// `sum(count * log2(total / frequency)) / 8`, rounded up.
pub open spec fn cost_model<F: Fn(&[u64], &[u64], u64) -> u64>(cost: F) -> bool {
    &&& forall|c: &[u64], f: &[u64], t: u64| #[trigger] cost.requires((c, f, t))
    &&& forall|c1: &[u64], f1: &[u64], c2: &[u64], f2: &[u64], t: u64, r1: u64, r2: u64|
        #![trigger cost.ensures((c1, f1, t), r1), cost.ensures((c2, f2, t), r2)]
        cost.ensures((c1, f1, t), r1) && cost.ensures((c2, f2, t), r2) && c1@ == c2@ && f1@
            == f2@ ==> r1 == r2
    &&& forall|c: &[u64], f: &[u64], t: u64, r: u64|
        #[trigger] cost.ensures((c, f, t), r) ==> r <= MAX_MODELED_BYTES
}

/// Largest payload size that a cost model reports.
pub const MAX_MODELED_BYTES: u64 = 0x1_0000_0000_0000;

/// `r` is a result of the cost model for these arguments.
pub open spec fn cost_returns<F: Fn(&[u64], &[u64], u64) -> u64>(
    cost: F,
    counts: Seq<u64>,
    frequencies: Seq<u64>,
    total: u64,
    r: u64,
) -> bool {
    exists|c: &[u64], f: &[u64]|
        c@ == counts && f@ == frequencies && #[trigger] cost.ensures((c, f, total), r)
}

/// The cost model's result for these arguments.
pub open spec fn cost_value<F: Fn(&[u64], &[u64], u64) -> u64>(
    cost: F,
    counts: Seq<u64>,
    frequencies: Seq<u64>,
    total: u64,
) -> u64 {
    choose|r: u64| cost_returns(cost, counts, frequencies, total, r)
}

/// Calls the cost model; its result is `cost_value` of the arguments.
fn call_cost<F: Fn(&[u64], &[u64], u64) -> u64>(
    cost: &F,
    counts: &[u64],
    frequencies: &[u64],
    total: u64,
) -> (r: u64)
    requires
        cost_model(*cost),
    ensures
        r == cost_value(*cost, counts@, frequencies@, total),
        r <= MAX_MODELED_BYTES,
{
    let r = cost(counts, frequencies, total);
    proof {
        assert(cost.ensures((counts, frequencies, total), r));
        assert(cost_returns(*cost, counts@, frequencies@, total, r));
        let chosen = cost_value(*cost, counts@, frequencies@, total);
        let (c2, f2) = choose|c2: &[u64], f2: &[u64]|
            c2@ == counts@ && f2@ == frequencies@ && #[trigger] cost.ensures((c2, f2, total), chosen);
        assert(cost.ensures((c2, f2, total), chosen));
    }
    r
}

// ---------------------------------------------------------------------------
// Symbol statistics
// ---------------------------------------------------------------------------

/// Occurrences of `symbol` in `values`.
pub open spec fn count_of(values: Seq<u32>, symbol: int) -> nat
    decreases values.len(),
{
    if values.len() == 0 {
        0
    } else {
        count_of(values.drop_last(), symbol) + if values.last() == symbol {
            1nat
        } else {
            0nat
        }
    }
}

/// Data bytes of a symbol in the standard four-width byte format.
pub open spec fn standard_width(value: u32) -> nat {
    if value <= 0xff {
        1
    } else if value <= 0xffff {
        2
    } else if value <= 0xff_ffff {
        3
    } else {
        4
    }
}

/// Data bytes of a symbol in the zero-aware 0/1/2/4-byte format.
pub open spec fn zero_aware_width(value: u32) -> nat {
    if value == 0 {
        0
    } else if value <= 0xff {
        1
    } else if value <= 0xffff {
        2
    } else {
        4
    }
}

/// Data bytes of all symbols in the standard format.
pub open spec fn standard_bytes(values: Seq<u32>) -> nat
    decreases values.len(),
{
    if values.len() == 0 {
        0
    } else {
        standard_bytes(values.drop_last()) + standard_width(values.last())
    }
}

/// Data bytes of all symbols in the zero-aware format.
pub open spec fn zero_aware_bytes(values: Seq<u32>) -> nat
    decreases values.len(),
{
    if values.len() == 0 {
        0
    } else {
        zero_aware_bytes(values.drop_last()) + zero_aware_width(values.last())
    }
}

proof fn lemma_statistics_bounds(values: Seq<u32>, symbol: int)
    ensures
        count_of(values, symbol) <= values.len(),
        standard_bytes(values) <= 4 * values.len(),
        zero_aware_bytes(values) <= 4 * values.len(),
    decreases values.len(),
{
    if values.len() > 0 {
        lemma_statistics_bounds(values.drop_last(), symbol);
    }
}

proof fn lemma_count_absent(values: Seq<u32>, symbol: int)
    requires
        forall|i: int| 0 <= i < values.len() ==> values[i] != symbol,
    ensures
        count_of(values, symbol) == 0,
    decreases values.len(),
{
    if values.len() > 0 {
        lemma_count_absent(values.drop_last(), symbol);
    }
}

/// Distinct symbols below `bound` with their counts, in increasing symbol order.
pub open spec fn observed_below(values: Seq<u32>, bound: nat) -> Seq<(u32, u64)>
    decreases bound,
{
    if bound == 0 {
        Seq::empty()
    } else {
        let previous = observed_below(values, (bound - 1) as nat);
        let count = count_of(values, bound - 1);
        if count > 0 {
            previous.push(((bound - 1) as u32, count as u64))
        } else {
            previous
        }
    }
}

/// Distinct symbols of `values` with their counts, in increasing symbol order.
pub open spec fn observed(values: Seq<u32>) -> Seq<(u32, u64)> {
    observed_below(values, 0x1_0000_0000)
}

proof fn lemma_observed_stable(values: Seq<u32>, bound: nat, larger: nat)
    requires
        bound <= larger <= 0x1_0000_0000,
        forall|i: int| 0 <= i < values.len() ==> values[i] < bound,
    ensures
        observed_below(values, larger) == observed_below(values, bound),
    decreases larger - bound,
{
    if larger > bound {
        lemma_observed_stable(values, bound, (larger - 1) as nat);
        lemma_count_absent(values, larger - 1);
    }
}

/// The counts of the observed symbols.
pub open spec fn observed_counts(observed: Seq<(u32, u64)>) -> Seq<u64> {
    Seq::new(observed.len(), |i: int| observed[i].1)
}

// ---------------------------------------------------------------------------
// Byte-format model
// ---------------------------------------------------------------------------

/// Folded residual symbols of one tile, with the statistics the size models need.
#[derive(Debug)]
pub struct ByteFormatModel {
    symbols: u64,
    zero_symbols: u64,
    standard_data_bytes: u64,
    zero_aware_data_bytes: u64,
    histogram: Vec<u64>,
    values: Vec<u32>,
}

impl View for ByteFormatModel {
    type V = Seq<u32>;

    closed spec fn view(&self) -> Seq<u32> {
        self.values@
    }
}

impl ByteFormatModel {
    /// The statistics agree with the symbols.
    pub closed spec fn wf(&self) -> bool {
        &&& self.values.len() <= MODEL_MAX_SYMBOLS
        &&& self.histogram.len() <= 0x1_0000_0000
        &&& self.symbols == self.values.len()
        &&& self.zero_symbols == count_of(self.values@, 0)
        &&& self.standard_data_bytes == standard_bytes(self.values@)
        &&& self.zero_aware_data_bytes == zero_aware_bytes(self.values@)
        &&& forall|s: int|
            0 <= s < self.histogram.len() ==> #[trigger] self.histogram@[s] == count_of(
                self.values@,
                s,
            )
        &&& forall|i: int| 0 <= i < self.values.len() ==> #[trigger] self.values@[i] < self.histogram.len()
        &&& forall|i: int| 0 <= i < self.values.len() ==> (#[trigger] self.values@[i] as int) < usize::MAX
    }

    /// An empty model.
    pub fn new() -> (model: ByteFormatModel)
        ensures
            model.wf(),
            model@ == Seq::<u32>::empty(),
    {
        ByteFormatModel {
            symbols: 0,
            zero_symbols: 0,
            standard_data_bytes: 0,
            zero_aware_data_bytes: 0,
            histogram: Vec::new(),
            values: Vec::new(),
        }
    }

    /// Appends one symbol.
    pub fn push(&mut self, value: u32)
        requires
            old(self).wf(),
            old(self)@.len() < MODEL_MAX_SYMBOLS,
            (value as int) < usize::MAX,
        ensures
            final(self).wf(),
            final(self)@ == old(self)@.push(value),
    {
        let symbol = value as usize;
        let ghost before = self.values@;
        proof {
            lemma_statistics_bounds(before, 0);
            lemma_statistics_bounds(before, symbol as int);
        }
        while self.histogram.len() <= symbol
            invariant
                self.values@ == before,
                self.values.len() <= MODEL_MAX_SYMBOLS,
                symbol as int == value as int,
                self.histogram.len() <= 0x1_0000_0000,
                self.symbols == before.len(),
                self.zero_symbols == count_of(before, 0),
                self.standard_data_bytes == standard_bytes(before),
                self.zero_aware_data_bytes == zero_aware_bytes(before),
                count_of(before, 0) <= before.len(),
                standard_bytes(before) <= 4 * before.len(),
                zero_aware_bytes(before) <= 4 * before.len(),
                before.len() < MODEL_MAX_SYMBOLS,
                forall|s: int|
                    0 <= s < self.histogram.len() ==> #[trigger] self.histogram@[s] == count_of(
                        self.values@,
                        s,
                    ),
                forall|i: int| 0 <= i < self.values.len() ==> #[trigger] self.values@[i] < self.histogram.len(),
                forall|i: int| 0 <= i < self.values.len() ==> (#[trigger] self.values@[i] as int) < usize::MAX,
            decreases symbol + 1 - self.histogram.len(),
        {
            proof {
                lemma_count_absent(self.values@, self.histogram.len() as int);
            }
            self.histogram.push(0);
        }
        let count = self.histogram[symbol];
        assert(count == count_of(before, symbol as int));
        self.histogram.set(symbol, count + 1);
        self.values.push(value);
        self.symbols = self.symbols + 1;
        if value == 0 {
            self.zero_symbols = self.zero_symbols + 1;
        }
        let standard: u64 = if value <= 0xff {
            1
        } else if value <= 0xffff {
            2
        } else if value <= 0xff_ffff {
            3
        } else {
            4
        };
        let zero_aware: u64 = if value == 0 {
            0
        } else if value <= 0xff {
            1
        } else if value <= 0xffff {
            2
        } else {
            4
        };
        self.standard_data_bytes = self.standard_data_bytes + standard;
        self.zero_aware_data_bytes = self.zero_aware_data_bytes + zero_aware;
        proof {
            assert(self.values@.drop_last() =~= before);
        }
    }

    /// Appends `count` zero symbols.
    pub fn push_zeros(&mut self, count: usize)
        requires
            old(self).wf(),
            old(self)@.len() + count <= MODEL_MAX_SYMBOLS,
        ensures
            final(self).wf(),
            final(self)@ == old(self)@ + Seq::new(count as nat, |i: int| 0u32),
    {
        let ghost before = self@;
        let mut pushed: usize = 0;
        while pushed < count
            invariant
                self.wf(),
                pushed <= count,
                before.len() + count <= MODEL_MAX_SYMBOLS,
                self@ == before + Seq::new(pushed as nat, |i: int| 0u32),
            decreases count - pushed,
        {
            self.push(0);
            pushed = pushed + 1;
            proof {
                assert(self@ =~= before + Seq::new(pushed as nat, |i: int| 0u32));
            }
        }
    }

    /// Number of symbols.
    pub fn sample_count(&self) -> (r: Option<usize>)
        requires
            self.wf(),
        ensures
            r == Some(self@.len() as usize),
    {
        Some(self.symbols as usize)
    }

    /// Number of zero symbols.
    pub fn zero_symbols(&self) -> (r: Option<usize>)
        requires
            self.wf(),
        ensures
            r == Some(count_of(self@, 0) as usize),
    {
        proof {
            lemma_statistics_bounds(self.values@, 0);
        }
        Some(self.zero_symbols as usize)
    }

    /// Bytes of a stream-vbyte layout: a two-bit control per symbol, then one to four
    /// data bytes per symbol.
    pub fn stream_vbyte_bytes(&self) -> (bytes: u64)
        requires
            self.wf(),
        ensures
            bytes == (self@.len() + 3) / 4 + standard_bytes(self@),
    {
        proof {
            lemma_statistics_bounds(self.values@, 0);
        }
        (self.symbols + 3) / 4 + self.standard_data_bytes
    }

    /// Bytes of the zero-aware stream-vbyte layout with data widths 0, 1, 2 and 4.
    pub fn stream_vbyte_0124_bytes(&self) -> (bytes: u64)
        requires
            self.wf(),
        ensures
            bytes == (self@.len() + 3) / 4 + zero_aware_bytes(self@),
    {
        proof {
            lemma_statistics_bounds(self.values@, 0);
        }
        (self.symbols + 3) / 4 + self.zero_aware_data_bytes
    }

    /// The symbols.
    pub fn values(&self) -> (values: &[u32])
        ensures
            values@ == self@,
    {
        self.values.as_slice()
    }

    /// Distinct symbols with their counts, in increasing symbol order.
    pub fn observed(&self) -> (result: Vec<(u32, u64)>)
        requires
            self.wf(),
        ensures
            result@ == observed(self@),
    {
        let mut result: Vec<(u32, u64)> = Vec::new();
        let mut symbol: usize = 0;
        proof {
            lemma_statistics_bounds(self.values@, 0);
        }
        while symbol < self.histogram.len()
            invariant
                self.wf(),
                symbol <= self.histogram.len(),
                result@ == observed_below(self.values@, symbol as nat),
            decreases self.histogram.len() - symbol,
        {
            let count = self.histogram[symbol];
            proof {
                lemma_statistics_bounds(self.values@, symbol as int);
            }
            if count != 0 {
                result.push((symbol as u32, count));
            }
            symbol = symbol + 1;
        }
        proof {
            lemma_observed_stable(self.values@, self.histogram.len() as nat, 0x1_0000_0000);
        }
        result
    }
}

impl Default for ByteFormatModel {
    fn default() -> (model: ByteFormatModel)
        ensures
            model.wf(),
            model@ == Seq::<u32>::empty(),
    {
        ByteFormatModel::new()
    }
}

// ---------------------------------------------------------------------------
// Finite-table order-0 model
// ---------------------------------------------------------------------------

/// Every observed symbol occurs, at most `total` times, and symbols increase.
pub open spec fn observed_ok(observed: Seq<(u32, u64)>, total: nat) -> bool {
    &&& forall|i: int| 0 <= i < observed.len() ==> 1 <= #[trigger] observed[i].1 <= total
    &&& forall|i: int, j: int| 0 <= i < j < observed.len() ==> #[trigger] observed[i].0 < #[trigger] observed[j].0
}

proof fn lemma_observed_below_ok(values: Seq<u32>, bound: nat)
    requires
        bound <= 0x1_0000_0000,
        values.len() <= MODEL_MAX_SYMBOLS,
    ensures
        observed_ok(observed_below(values, bound), values.len()),
        forall|i: int|
            0 <= i < observed_below(values, bound).len() ==> (#[trigger] observed_below(
                values,
                bound,
            )[i]).0 < bound,
    decreases bound,
{
    if bound > 0 {
        lemma_observed_below_ok(values, (bound - 1) as nat);
        lemma_statistics_bounds(values, bound - 1);
    }
}

/// Residual slots of symbol `i` before the leftover slots are shared out.
pub open spec fn base_frequency(count: u64, remaining: nat, total: nat) -> nat {
    1 + (count as nat) * remaining / total
}

/// Remainder of the proportional share of a symbol with `count` occurrences.
pub open spec fn share_remainder(count: u64, remaining: nat, total: nat) -> nat {
    ((count as nat) * remaining) % total
}

/// Symbol `j` gets a leftover slot before symbol `i`: its remainder is larger, or
/// equal with a smaller symbol.
pub open spec fn remainder_precedes(
    observed: Seq<(u32, u64)>,
    remaining: nat,
    total: nat,
    j: int,
    i: int,
) -> bool {
    let rj = share_remainder(observed[j].1, remaining, total);
    let ri = share_remainder(observed[i].1, remaining, total);
    rj > ri || (rj == ri && observed[j].0 < observed[i].0)
}

/// Number of the first `upto` symbols that precede symbol `i` for leftover slots.
pub open spec fn remainder_rank(
    observed: Seq<(u32, u64)>,
    remaining: nat,
    total: nat,
    i: int,
    upto: nat,
) -> nat
    decreases upto,
{
    if upto == 0 {
        0
    } else {
        remainder_rank(observed, remaining, total, i, (upto - 1) as nat) + if remainder_precedes(
            observed,
            remaining,
            total,
            upto - 1,
            i,
        ) {
            1nat
        } else {
            0nat
        }
    }
}

/// Sum of the base frequencies of the first `upto` symbols.
pub open spec fn base_sum(observed: Seq<(u32, u64)>, remaining: nat, total: nat, upto: nat) -> nat
    decreases upto,
{
    if upto == 0 {
        0
    } else {
        base_sum(observed, remaining, total, (upto - 1) as nat) + base_frequency(
            observed[upto - 1].1,
            remaining,
            total,
        )
    }
}

/// Frequencies of a table of `table_size` slots: each observed symbol keeps one slot
/// and its proportional share of the rest, rounded down; the leftover slots go one
/// each to the symbols with the largest remainders, ties to the smaller symbol.
pub open spec fn normalized_frequencies(observed: Seq<(u32, u64)>, table_size: nat, total: nat) -> Seq<
    u64,
> {
    let remaining = (table_size - observed.len()) as nat;
    let assigned = base_sum(observed, remaining, total, observed.len());
    let extra: nat = if assigned < table_size {
        (table_size - assigned) as nat
    } else {
        0
    };
    Seq::new(
        observed.len(),
        |i: int|
            (base_frequency(observed[i].1, remaining, total) + if remainder_rank(
                observed,
                remaining,
                total,
                i,
                observed.len(),
            ) < extra {
                1nat
            } else {
                0nat
            }) as u64,
    )
}

/// Scales observed counts to a table of `table_size` slots (see
/// `normalized_frequencies`).
pub fn normalize_frequencies(observed: &[(u32, u64)], table_size: u64, total: u64) -> (frequencies:
    Vec<u64>)
    requires
        observed.len() <= table_size <= 4096,
        total <= MODEL_MAX_SYMBOLS,
        observed_ok(observed@, total as nat),
    ensures
        frequencies@ == normalized_frequencies(observed@, table_size as nat, total as nat),
{
    let ghost remaining_spec = (table_size - observed.len()) as nat;
    let remaining = table_size - observed.len() as u64;
    let mut frequencies: Vec<u64> = Vec::with_capacity(observed.len());
    let mut remainders: Vec<u64> = Vec::with_capacity(observed.len());
    let mut assigned: u64 = 0;
    let mut index: usize = 0;
    while index < observed.len()
        invariant
            observed.len() <= table_size <= 4096,
            total <= MODEL_MAX_SYMBOLS,
            observed_ok(observed@, total as nat),
            remaining == remaining_spec,
            remaining_spec == table_size - observed.len(),
            index <= observed.len(),
            frequencies.len() == index,
            remainders.len() == index,
            forall|i: int|
                0 <= i < index ==> #[trigger] frequencies@[i] == base_frequency(
                    observed@[i].1,
                    remaining_spec,
                    total as nat,
                ),
            forall|i: int|
                0 <= i < index ==> #[trigger] remainders@[i] == share_remainder(
                    observed@[i].1,
                    remaining_spec,
                    total as nat,
                ),
            assigned == base_sum(observed@, remaining_spec, total as nat, index as nat),
            assigned <= index * 4097,
            forall|i: int| 0 <= i < index ==> #[trigger] frequencies@[i] <= 4097,
        decreases observed.len() - index,
    {
        let count = observed[index].1;
        proof {
            assert(1 <= observed@[index as int].1 <= total);
            assert(count * remaining <= 0x4000_0000 * 4096) by (nonlinear_arith)
                requires
                    count <= 0x4000_0000,
                    remaining <= 4096,
            ;
            assert(count * remaining / (total as int) <= remaining) by (nonlinear_arith)
                requires
                    count <= total,
                    total >= 1,
                    remaining >= 0,
            ;
            assert((index + 1) * 4097 == index * 4097 + 4097) by (nonlinear_arith);
        }
        let scaled = count * remaining;
        let frequency = 1 + scaled / total;
        frequencies.push(frequency);
        remainders.push(scaled % total);
        assigned = assigned + frequency;
        index = index + 1;
    }
    let extra: u64 = if assigned < table_size {
        table_size - assigned
    } else {
        0
    };
    let mut result: Vec<u64> = Vec::with_capacity(observed.len());
    let mut i: usize = 0;
    while i < observed.len()
        invariant
            observed.len() <= table_size <= 4096,
            remaining_spec == table_size - observed.len(),
            frequencies.len() == observed.len(),
            remainders.len() == observed.len(),
            forall|k: int|
                0 <= k < observed.len() ==> #[trigger] frequencies@[k] == base_frequency(
                    observed@[k].1,
                    remaining_spec,
                    total as nat,
                ),
            forall|k: int|
                0 <= k < observed.len() ==> #[trigger] remainders@[k] == share_remainder(
                    observed@[k].1,
                    remaining_spec,
                    total as nat,
                ),
            forall|k: int| 0 <= k < observed.len() ==> #[trigger] frequencies@[k] <= 4097,
            assigned == base_sum(observed@, remaining_spec, total as nat, observed.len() as nat),
            extra == (if assigned < table_size {
                (table_size - assigned) as nat
            } else {
                0nat
            }),
            i <= observed.len(),
            result.len() == i,
            forall|k: int|
                0 <= k < i ==> #[trigger] result@[k] == normalized_frequencies(
                    observed@,
                    table_size as nat,
                    total as nat,
                )[k],
        decreases observed.len() - i,
    {
        let mut rank: u64 = 0;
        let mut j: usize = 0;
        while j < observed.len()
            invariant
                observed.len() <= 4096,
                remainders.len() == observed.len(),
                forall|k: int|
                    0 <= k < observed.len() ==> #[trigger] remainders@[k] == share_remainder(
                        observed@[k].1,
                        remaining_spec,
                        total as nat,
                    ),
                i < observed.len(),
                j <= observed.len(),
                rank == remainder_rank(observed@, remaining_spec, total as nat, i as int, j as nat),
                rank <= j,
            decreases observed.len() - j,
        {
            if remainders[j] > remainders[i] || (remainders[j] == remainders[i] && observed[j].0
                < observed[i].0) {
                rank = rank + 1;
            }
            j = j + 1;
        }
        let bump: u64 = if rank < extra {
            1
        } else {
            0
        };
        let ghost before = result@;
        result.push(frequencies[i] + bump);
        proof {
            let spec = normalized_frequencies(observed@, table_size as nat, total as nat);
            let spec_remaining = (table_size as nat - observed@.len()) as nat;
            assert(spec_remaining == remaining_spec);
            let spec_assigned = base_sum(observed@, spec_remaining, total as nat, observed@.len());
            assert(spec_assigned == assigned);
            assert(spec.len() == observed.len());
            assert(rank == remainder_rank(observed@, remaining_spec, total as nat, i as int, observed.len() as nat));
            assert(spec[i as int] == (base_frequency(observed@[i as int].1, remaining_spec, total as nat) + if rank < extra {
                1nat
            } else {
                0nat
            }) as u64);
            assert(result@[i as int] == spec[i as int]);
            assert forall|k: int| 0 <= k < i + 1 implies #[trigger] result@[k] == spec[k] by {
                if k < i {
                    assert(result@[k] == before[k]);
                }
            }
        }
        i = i + 1;
    }
    proof {
        assert(result@ =~= normalized_frequencies(observed@, table_size as nat, total as nat));
    }
    result
}

/// Bytes of the symbol entries of a sparse table: the gap from the previous symbol,
/// and the frequency of every symbol but the last.
pub open spec fn table_entry_bytes(observed: Seq<(u32, u64)>, frequencies: Seq<u64>, upto: nat) -> nat
    decreases upto,
{
    if upto == 0 {
        0
    } else {
        let i = upto - 1;
        let previous: int = if i == 0 {
            0
        } else {
            observed[i - 1].0 as int
        };
        table_entry_bytes(observed, frequencies, (upto - 1) as nat) + spec_varint_length(
            (observed[i].0 - previous) as nat,
        ) + if i + 1 != observed.len() {
            spec_varint_length(frequencies[i] as u32 as nat)
        } else {
            0nat
        }
    }
}

/// Bytes of a sparse order-0 table: a log byte, the symbol count, the entries and
/// a four-byte final state.
pub open spec fn sparse_table_size(observed: Seq<(u32, u64)>, frequencies: Seq<u64>) -> nat {
    1 + spec_varint_length(observed.len() as u32 as nat) + 4 + table_entry_bytes(
        observed,
        frequencies,
        observed.len(),
    )
}

/// Length of the variable integer of `value`.
pub fn model_varint_length(value: u32) -> (length: u64)
    ensures
        length == spec_varint_length(value as nat),
{
    if value <= 0x7f {
        1
    } else if value <= 0x3fff {
        2
    } else if value <= 0x1f_ffff {
        3
    } else if value <= 0x0fff_ffff {
        4
    } else {
        5
    }
}

/// Bytes of the sparse table of `observed` with `frequencies`.
pub fn sparse_table_bytes(observed: &[(u32, u64)], frequencies: &[u64]) -> (bytes: u64)
    requires
        observed.len() == frequencies.len(),
        observed.len() <= 4096,
        observed_ok(observed@, MODEL_MAX_SYMBOLS as nat),
    ensures
        bytes == sparse_table_size(observed@, frequencies@),
        bytes <= 10 + 10 * observed.len(),
{
    let mut bytes: u64 = 1 + model_varint_length(observed.len() as u32) + 4;
    let mut previous: u32 = 0;
    let mut index: usize = 0;
    while index < observed.len()
        invariant
            observed.len() == frequencies.len(),
            observed.len() <= 4096,
            observed_ok(observed@, MODEL_MAX_SYMBOLS as nat),
            index <= observed.len(),
            index == 0 ==> previous == 0,
            index > 0 ==> previous == observed@[index - 1].0,
            bytes == 1 + spec_varint_length(observed.len() as u32 as nat) + 4 + table_entry_bytes(
                observed@,
                frequencies@,
                index as nat,
            ),
            bytes <= 10 + 10 * index,
        decreases observed.len() - index,
    {
        let symbol = observed[index].0;
        if index > 0 {
            assert(observed@[index - 1].0 < observed@[index as int].0);
        }
        bytes = bytes + model_varint_length(symbol - previous);
        if index + 1 != observed.len() {
            bytes = bytes + model_varint_length(#[verifier::truncate] (frequencies[index] as u32));
        }
        previous = symbol;
        index = index + 1;
    }
    bytes
}

/// Order-0 size model of one symbol stream.
#[derive(Clone, Copy, Debug, PartialEq, Eq, Structural)]
pub struct Order0SizeModel {
    pub distinct_symbols: usize,
    pub ideal_bytes: u64,
    pub supported: bool,
    pub table_log: u8,
    pub payload_bytes: u64,
    pub table_bytes: u64,
    pub complete_bytes: u64,
}

/// The model of an empty stream: nothing supported, nothing charged.
pub open spec fn empty_order0() -> Order0SizeModel {
    Order0SizeModel {
        distinct_symbols: 0,
        ideal_bytes: 0,
        supported: false,
        table_log: 0,
        payload_bytes: 0,
        table_bytes: 0,
        complete_bytes: 0,
    }
}

impl Default for Order0SizeModel {
    fn default() -> (model: Order0SizeModel)
        ensures
            model == empty_order0(),
    {
        Order0SizeModel {
            distinct_symbols: 0,
            ideal_bytes: 0,
            supported: false,
            table_log: 0,
            payload_bytes: 0,
            table_bytes: 0,
            complete_bytes: 0,
        }
    }
}

/// Ideal order-0 size of `values`: the cost of coding each symbol with its own
/// probability.
pub open spec fn order0_ideal<F: Fn(&[u64], &[u64], u64) -> u64>(values: Seq<u32>, cost: F) -> u64 {
    let counts = observed_counts(observed(values));
    cost_value(cost, counts, counts, values.len() as u64)
}

/// Order-0 model of `values` with a table of `2^table_log` slots, or none when the
/// alphabet does not fit.
pub open spec fn order0_candidate<F: Fn(&[u64], &[u64], u64) -> u64>(
    values: Seq<u32>,
    cost: F,
    table_log: u8,
) -> Option<Order0SizeModel> {
    let obs = observed(values);
    let table_size = crate::rans::spec_table_size(table_log);
    if obs.len() > table_size {
        None
    } else {
        let frequencies = normalized_frequencies(obs, table_size as nat, values.len());
        let payload = cost_value(cost, observed_counts(obs), frequencies, table_size as u64);
        let table = sparse_table_size(obs, frequencies);
        Some(
            Order0SizeModel {
                distinct_symbols: obs.len() as usize,
                ideal_bytes: order0_ideal(values, cost),
                supported: true,
                table_log,
                payload_bytes: payload,
                table_bytes: table as u64,
                complete_bytes: (payload + table) as u64,
            },
        )
    }
}

/// The best order-0 model with a table log in `8..=table_log`: fewest complete bytes,
/// ties to the smaller table.
pub open spec fn order0_best<F: Fn(&[u64], &[u64], u64) -> u64>(
    values: Seq<u32>,
    cost: F,
    table_log: u8,
) -> Option<Order0SizeModel>
    decreases table_log,
{
    if table_log <= 8 {
        order0_candidate(values, cost, 8)
    } else {
        let previous = order0_best(values, cost, (table_log - 1) as u8);
        let candidate = order0_candidate(values, cost, table_log);
        match previous {
            None => candidate,
            Some(p) => match candidate {
                None => Some(p),
                Some(c) => if c.complete_bytes < p.complete_bytes || (c.complete_bytes
                    == p.complete_bytes && c.table_log < p.table_log) {
                    Some(c)
                } else {
                    Some(p)
                },
            },
        }
    }
}

/// Order-0 size model of `values`: the best table of 256 to 4096 slots, or an
/// unsupported model when more symbols occur than the largest table holds.
pub open spec fn order0_model<F: Fn(&[u64], &[u64], u64) -> u64>(values: Seq<u32>, cost: F) -> Order0SizeModel {
    let obs = observed(values);
    if obs.len() == 0 {
        empty_order0()
    } else {
        match order0_best(values, cost, 12) {
            Some(best) => best,
            None => Order0SizeModel {
                distinct_symbols: obs.len() as usize,
                ideal_bytes: order0_ideal(values, cost),
                supported: false,
                table_log: 0,
                payload_bytes: 0,
                table_bytes: 0,
                complete_bytes: 0,
            },
        }
    }
}

impl ByteFormatModel {
    /// Models finite-table order-0 coding of the symbols (see `order0_model`).
    pub fn order0_size<F: Fn(&[u64], &[u64], u64) -> u64>(&self, cost: &F) -> (model: Order0SizeModel)
        requires
            self.wf(),
            cost_model(*cost),
        ensures
            model == order0_model(self@, *cost),
            model.payload_bytes <= MAX_MODELED_BYTES,
            model.table_bytes <= 50_000,
            model.complete_bytes == model.payload_bytes + model.table_bytes,
    {
        let seen = self.observed();
        if seen.len() == 0 {
            return Order0SizeModel::default();
        }
        proof {
            lemma_observed_below_ok(self@, 0x1_0000_0000);
        }
        let mut counts: Vec<u64> = Vec::with_capacity(seen.len());
        let mut index: usize = 0;
        while index < seen.len()
            invariant
                index <= seen.len(),
                counts.len() == index,
                forall|i: int| 0 <= i < index ==> #[trigger] counts@[i] == seen@[i].1,
            decreases seen.len() - index,
        {
            counts.push(seen[index].1);
            index = index + 1;
        }
        proof {
            assert(counts@ =~= observed_counts(seen@));
        }
        let total = self.symbols;
        let ideal = call_cost(cost, counts.as_slice(), counts.as_slice(), total);
        let mut best: Option<Order0SizeModel> = None;
        let mut table_log: u8 = 8;
        while table_log <= 12
            invariant
                self.wf(),
                cost_model(*cost),
                seen@ == observed(self@),
                observed_ok(seen@, self@.len()),
                seen.len() > 0,
                counts@ == observed_counts(seen@),
                total == self@.len(),
                ideal == order0_ideal(self@, *cost),
                8 <= table_log <= 13,
                table_log == 8 ==> best is None,
                table_log > 8 ==> best == order0_best(self@, *cost, (table_log - 1) as u8),
                best matches Some(b) ==> b.payload_bytes <= MAX_MODELED_BYTES && b.table_bytes
                    <= 50_000 && b.complete_bytes == b.payload_bytes + b.table_bytes,
            decreases 13 - table_log,
        {
            let table_size = crate::rans::table_size_for(table_log) as u64;
            let candidate = if seen.len() as u64 > table_size {
                None
            } else {
                let frequencies = normalize_frequencies(seen.as_slice(), table_size, total);
                let payload = call_cost(cost, counts.as_slice(), frequencies.as_slice(), table_size);
                proof {
                    assert(observed_ok(seen@, MODEL_MAX_SYMBOLS as nat));
                }
                let table_bytes = sparse_table_bytes(seen.as_slice(), frequencies.as_slice());
                Some(
                    Order0SizeModel {
                        distinct_symbols: seen.len(),
                        ideal_bytes: ideal,
                        supported: true,
                        table_log,
                        payload_bytes: payload,
                        table_bytes,
                        complete_bytes: payload + table_bytes,
                    },
                )
            };
            proof {
                assert(candidate == order0_candidate(self@, *cost, table_log));
            }
            best = match best {
                None => candidate,
                Some(p) => match candidate {
                    None => Some(p),
                    Some(c) => if c.complete_bytes < p.complete_bytes || (c.complete_bytes
                        == p.complete_bytes && c.table_log < p.table_log) {
                        Some(c)
                    } else {
                        Some(p)
                    },
                },
            };
            table_log = table_log + 1;
        }
        match best {
            Some(model) => model,
            None => Order0SizeModel {
                distinct_symbols: seen.len(),
                ideal_bytes: ideal,
                supported: false,
                table_log: 0,
                payload_bytes: 0,
                table_bytes: 0,
                complete_bytes: 0,
            },
        }
    }
}

// ---------------------------------------------------------------------------
// Causal-context order-0 model
// ---------------------------------------------------------------------------

/// Size model of order-0 coding split by the previous symbol.
#[derive(Clone, Copy, Debug, PartialEq, Eq, Structural)]
pub struct ContextOrder0SizeModel {
    pub supported: bool,
    pub contexts: u8,
    pub threshold: u32,
    pub payload_bytes: u64,
    pub table_bytes: u64,
    pub control_bytes: u64,
    pub complete_bytes: u64,
}

/// The unsupported context model.
pub open spec fn empty_context_model() -> ContextOrder0SizeModel {
    ContextOrder0SizeModel {
        supported: false,
        contexts: 0,
        threshold: 0,
        payload_bytes: 0,
        table_bytes: 0,
        control_bytes: 0,
        complete_bytes: 0,
    }
}

impl Default for ContextOrder0SizeModel {
    fn default() -> (model: ContextOrder0SizeModel)
        ensures
            model == empty_context_model(),
    {
        ContextOrder0SizeModel {
            supported: false,
            contexts: 0,
            threshold: 0,
            payload_bytes: 0,
            table_bytes: 0,
            control_bytes: 0,
            complete_bytes: 0,
        }
    }
}

/// Context of a symbol after `previous`: 0 after a zero, else 1, or with three
/// contexts 1 up to `threshold` and 2 above it.
pub open spec fn context_of(previous: u32, contexts: u8, threshold: u32) -> int {
    if previous == 0 {
        0
    } else if contexts == 2 || previous <= threshold {
        1
    } else {
        2
    }
}

/// The symbols of `values` that fall in context `context`, in order; the symbol
/// before the first is taken as zero.
pub open spec fn context_symbols(values: Seq<u32>, contexts: u8, threshold: u32, context: int) -> Seq<
    u32,
>
    decreases values.len(),
{
    if values.len() == 0 {
        Seq::empty()
    } else {
        let i = values.len() - 1;
        let previous: u32 = if i == 0 {
            0
        } else {
            values[i - 1]
        };
        let rest = context_symbols(values.drop_last(), contexts, threshold, context);
        if context_of(previous, contexts, threshold) == context {
            rest.push(values[i])
        } else {
            rest
        }
    }
}

proof fn lemma_context_symbols_len(values: Seq<u32>, contexts: u8, threshold: u32, context: int)
    ensures
        context_symbols(values, contexts, threshold, context).len() <= values.len(),
        forall|k: int|
            0 <= k < context_symbols(values, contexts, threshold, context).len() ==> exists|i: int|
                0 <= i < values.len() && #[trigger] context_symbols(values, contexts, threshold, context)[k]
                    == values[i],
    decreases values.len(),
{
    if values.len() > 0 {
        lemma_context_symbols_len(values.drop_last(), contexts, threshold, context);
        let rest = context_symbols(values.drop_last(), contexts, threshold, context);
        let all = context_symbols(values, contexts, threshold, context);
        assert forall|k: int| 0 <= k < all.len() implies exists|i: int|
            0 <= i < values.len() && #[trigger] all[k] == values[i] by {
            if k < rest.len() {
                let i = choose|i: int| 0 <= i < values.drop_last().len() && #[trigger] rest[k] == values.drop_last()[i];
                assert(all[k] == values[i]);
            } else {
                assert(all[k] == values[values.len() - 1]);
            }
        }
    }
}

/// Context model of `values` with `contexts` contexts, or the unsupported model when
/// a nonempty context has more symbols than the largest table holds.
pub open spec fn context_candidate<F: Fn(&[u64], &[u64], u64) -> u64>(
    values: Seq<u32>,
    cost: F,
    contexts: u8,
    threshold: u32,
) -> ContextOrder0SizeModel {
    let s0 = context_symbols(values, contexts, threshold, 0);
    let s1 = context_symbols(values, contexts, threshold, 1);
    let s2 = context_symbols(values, contexts, threshold, 2);
    let m0 = order0_model(s0, cost);
    let m1 = order0_model(s1, cost);
    let m2 = order0_model(s2, cost);
    let three = contexts == 3;
    if (s0.len() != 0 && !m0.supported) || (s1.len() != 0 && !m1.supported) || (three && s2.len()
        != 0 && !m2.supported) {
        empty_context_model()
    } else {
        let payload = m0.payload_bytes + m1.payload_bytes + if three {
            m2.payload_bytes as int
        } else {
            0
        };
        let table = m0.table_bytes + m1.table_bytes + if three {
            m2.table_bytes as int
        } else {
            0
        };
        let control = 1 + (if three {
            1int
        } else {
            0
        }) + spec_varint_length(m0.complete_bytes as u32 as nat) + spec_varint_length(
            m1.complete_bytes as u32 as nat,
        ) + if three {
            spec_varint_length(m2.complete_bytes as u32 as nat) as int
        } else {
            0
        };
        ContextOrder0SizeModel {
            supported: true,
            contexts,
            threshold,
            payload_bytes: payload as u64,
            table_bytes: table as u64,
            control_bytes: control as u64,
            complete_bytes: (payload + table + control) as u64,
        }
    }
}

/// `candidate` ranks before `best`: fewer complete bytes, then fewer contexts, then a
/// lower threshold.
pub open spec fn context_ranks_before(candidate: ContextOrder0SizeModel, best: ContextOrder0SizeModel) -> bool {
    candidate.complete_bytes < best.complete_bytes || (candidate.complete_bytes
        == best.complete_bytes && (candidate.contexts < best.contexts || (candidate.contexts
        == best.contexts && candidate.threshold < best.threshold)))
}

/// Keeps `best` unless `candidate` is supported and ranks before it (or `best` is not
/// supported).
pub open spec fn context_step(best: ContextOrder0SizeModel, candidate: ContextOrder0SizeModel) -> ContextOrder0SizeModel {
    if candidate.supported && (!best.supported || context_ranks_before(candidate, best)) {
        candidate
    } else {
        best
    }
}

/// The best causal-context model: two contexts, or three with a threshold of 1, 3, 7
/// or 15.
pub open spec fn context_model<F: Fn(&[u64], &[u64], u64) -> u64>(values: Seq<u32>, cost: F) -> ContextOrder0SizeModel {
    if values.len() == 0 {
        empty_context_model()
    } else {
        let two = context_candidate(values, cost, 2, 0);
        let t1 = context_step(two, context_candidate(values, cost, 3, 1));
        let t3 = context_step(t1, context_candidate(values, cost, 3, 3));
        let t7 = context_step(t3, context_candidate(values, cost, 3, 7));
        context_step(t7, context_candidate(values, cost, 3, 15))
    }
}

impl ByteFormatModel {
    fn context_order0_candidate<F: Fn(&[u64], &[u64], u64) -> u64>(
        &self,
        contexts: u8,
        threshold: u32,
        cost: &F,
    ) -> (model: ContextOrder0SizeModel)
        requires
            self.wf(),
            cost_model(*cost),
            contexts == 2 || contexts == 3,
        ensures
            model == context_candidate(self@, *cost, contexts, threshold),
    {
        let mut first = ByteFormatModel::new();
        let mut second = ByteFormatModel::new();
        let mut third = ByteFormatModel::new();
        let mut previous: u32 = 0;
        let mut index: usize = 0;
        while index < self.values.len()
            invariant
                self.wf(),
                contexts == 2 || contexts == 3,
                index <= self.values.len(),
                first.wf() && second.wf() && third.wf(),
                first@ == context_symbols(self@.take(index as int), contexts, threshold, 0),
                second@ == context_symbols(self@.take(index as int), contexts, threshold, 1),
                third@ == context_symbols(self@.take(index as int), contexts, threshold, 2),
                first@.len() <= index && second@.len() <= index && third@.len() <= index,
                index == 0 ==> previous == 0,
                index > 0 ==> previous == self@[index - 1],
            decreases self.values.len() - index,
        {
            let value = self.values[index];
            let context: u8 = if previous == 0 {
                0
            } else if contexts == 2 || previous <= threshold {
                1
            } else {
                2
            };
            proof {
                let prefix = self@.take(index + 1);
                assert(prefix.drop_last() =~= self@.take(index as int));
                assert(prefix[index as int] == value);
                if index > 0 {
                    assert(prefix[index - 1] == self@[index - 1]);
                }
                lemma_context_symbols_len(self@.take(index as int), contexts, threshold, 0);
                assert((value as int) < usize::MAX);
            }
            if context == 0 {
                first.push(value);
            } else if context == 1 {
                second.push(value);
            } else {
                third.push(value);
            }
            previous = value;
            index = index + 1;
        }
        proof {
            assert(self@.take(index as int) =~= self@);
        }
        let m0 = first.order0_size(cost);
        let m1 = second.order0_size(cost);
        let m2 = if contexts == 3 {
            third.order0_size(cost)
        } else {
            Order0SizeModel::default()
        };
        if first.values.len() != 0 && !m0.supported {
            return ContextOrder0SizeModel::default();
        }
        if second.values.len() != 0 && !m1.supported {
            return ContextOrder0SizeModel::default();
        }
        if contexts == 3 && third.values.len() != 0 && !m2.supported {
            return ContextOrder0SizeModel::default();
        }
        let mut payload_bytes = m0.payload_bytes + m1.payload_bytes;
        let mut table_bytes = m0.table_bytes + m1.table_bytes;
        let mut control_bytes: u64 = if contexts == 3 {
            2
        } else {
            1
        };
        control_bytes = control_bytes + model_varint_length(#[verifier::truncate] (m0.complete_bytes as u32));
        control_bytes = control_bytes + model_varint_length(#[verifier::truncate] (m1.complete_bytes as u32));
        if contexts == 3 {
            payload_bytes = payload_bytes + m2.payload_bytes;
            table_bytes = table_bytes + m2.table_bytes;
            control_bytes = control_bytes + model_varint_length(#[verifier::truncate] (m2.complete_bytes as u32));
        }
        ContextOrder0SizeModel {
            supported: true,
            contexts,
            threshold,
            payload_bytes,
            table_bytes,
            control_bytes,
            complete_bytes: payload_bytes + table_bytes + control_bytes,
        }
    }

    /// Models order-0 coding split by causal context (see `context_model`).
    pub fn context_order0_size<F: Fn(&[u64], &[u64], u64) -> u64>(&self, cost: &F) -> (model:
        ContextOrder0SizeModel)
        requires
            self.wf(),
            cost_model(*cost),
        ensures
            model == context_model(self@, *cost),
    {
        if self.values.len() == 0 {
            return ContextOrder0SizeModel::default();
        }
        let mut best = self.context_order0_candidate(2, 0, cost);
        let thresholds: [u32; 4] = [1, 3, 7, 15];
        let ghost two = best;
        let mut k: usize = 0;
        while k < 4
            invariant
                self.wf(),
                cost_model(*cost),
                self@.len() > 0,
                thresholds@ == seq![1u32, 3, 7, 15],
                k <= 4,
                two == context_candidate(self@, *cost, 2, 0),
                k == 0 ==> best == two,
                k == 1 ==> best == context_step(two, context_candidate(self@, *cost, 3, 1)),
                k == 2 ==> best == context_step(
                    context_step(two, context_candidate(self@, *cost, 3, 1)),
                    context_candidate(self@, *cost, 3, 3),
                ),
                k == 3 ==> best == context_step(
                    context_step(
                        context_step(two, context_candidate(self@, *cost, 3, 1)),
                        context_candidate(self@, *cost, 3, 3),
                    ),
                    context_candidate(self@, *cost, 3, 7),
                ),
                k == 4 ==> best == context_model(self@, *cost),
            decreases 4 - k,
        {
            let threshold = thresholds[k];
            let candidate = self.context_order0_candidate(3, threshold, cost);
            if candidate.supported && (!best.supported || candidate.complete_bytes
                < best.complete_bytes || (candidate.complete_bytes == best.complete_bytes && (
            candidate.contexts < best.contexts || (candidate.contexts == best.contexts
                && candidate.threshold < best.threshold)))) {
                best = candidate;
            }
            k = k + 1;
        }
        best
    }
}

// ---------------------------------------------------------------------------
// Rice lanes
// ---------------------------------------------------------------------------

/// Size model of Rice coding in independent shards, each split over interleaved lanes.
#[derive(Clone, Copy, Debug, PartialEq, Eq, Structural)]
pub struct RiceLaneSizeModel {
    pub payload_bytes: u64,
    pub control_bytes: u64,
    pub complete_bytes: u64,
}

/// Bits of the Rice code of `value`.
pub open spec fn rice_length(value: u32, parameter: nat) -> nat {
    (value >> (parameter as u32)) as nat + 1 + parameter
}

/// Rice bits of the symbols of lane `lane` among the first `upto` of `shard`, when
/// symbol `i` goes to lane `i % lanes`.
pub open spec fn lane_bits(shard: Seq<u32>, parameter: nat, lanes: nat, lane: nat, upto: nat) -> nat
    decreases upto,
{
    if upto == 0 {
        0
    } else {
        lane_bits(shard, parameter, lanes, lane, (upto - 1) as nat) + if (upto - 1) as nat % lanes
            == lane {
            rice_length(shard[upto - 1], parameter)
        } else {
            0nat
        }
    }
}

/// Whole bytes of the first `count` lanes of a shard.
pub open spec fn lanes_payload(shard: Seq<u32>, parameter: nat, lanes: nat, count: nat) -> nat
    decreases count,
{
    if count == 0 {
        0
    } else {
        lanes_payload(shard, parameter, lanes, (count - 1) as nat) + (lane_bits(
            shard,
            parameter,
            lanes,
            (count - 1) as nat,
            shard.len(),
        ) + 7) / 8
    }
}

/// The smaller of two numbers.
pub open spec fn min_nat(a: nat, b: nat) -> nat {
    if a < b {
        a
    } else {
        b
    }
}

/// Payload bytes of `values` cut into shards of `shard_symbols`, each coded over at
/// most `lanes` byte-aligned lanes.
pub open spec fn rice_lane_payload(values: Seq<u32>, parameter: nat, shard_symbols: nat, lanes: nat) -> nat
    decreases values.len(),
{
    if values.len() == 0 || shard_symbols == 0 {
        0
    } else {
        let n = min_nat(shard_symbols, values.len());
        let active = min_nat(lanes, n);
        lanes_payload(values.take(n as int), parameter, active, active) + rice_lane_payload(
            values.skip(n as int),
            parameter,
            shard_symbols,
            lanes,
        )
    }
}

/// Control bytes of the shards: a four-byte length for every lane but the first, and
/// for every shard but the last.
pub open spec fn rice_lane_control(length: nat, shard_symbols: nat, lanes: nat) -> nat
    decreases length,
{
    if length == 0 || shard_symbols == 0 {
        0
    } else {
        let n = min_nat(shard_symbols, length);
        let active = min_nat(lanes, n);
        ((active - 1) * 4) as nat + (if length > n {
            4nat
        } else {
            0nat
        }) + rice_lane_control((length - n) as nat, shard_symbols, lanes)
    }
}

/// Rice bits of the first `upto` symbols of a shard.
pub open spec fn shard_bits(shard: Seq<u32>, parameter: nat, upto: nat) -> nat
    decreases upto,
{
    if upto == 0 {
        0
    } else {
        shard_bits(shard, parameter, (upto - 1) as nat) + rice_length(shard[upto - 1], parameter)
    }
}

/// Sum of the bits of the first `count` lanes.
pub open spec fn lanes_bits_sum(shard: Seq<u32>, parameter: nat, lanes: nat, count: nat, upto: nat) -> nat
    decreases count,
{
    if count == 0 {
        0
    } else {
        lanes_bits_sum(shard, parameter, lanes, (count - 1) as nat, upto) + lane_bits(
            shard,
            parameter,
            lanes,
            (count - 1) as nat,
            upto,
        )
    }
}

proof fn lemma_lanes_bits_step(shard: Seq<u32>, parameter: nat, lanes: nat, count: nat, upto: nat)
    requires
        lanes >= 1,
        upto < shard.len(),
    ensures
        lanes_bits_sum(shard, parameter, lanes, count, upto + 1) == lanes_bits_sum(
            shard,
            parameter,
            lanes,
            count,
            upto,
        ) + if upto % lanes < count {
            rice_length(shard[upto as int], parameter)
        } else {
            0nat
        },
    decreases count,
{
    if count > 0 {
        lemma_lanes_bits_step(shard, parameter, lanes, (count - 1) as nat, upto);
    }
}

proof fn lemma_lanes_bits_total(shard: Seq<u32>, parameter: nat, lanes: nat, upto: nat)
    requires
        lanes >= 1,
        upto <= shard.len(),
    ensures
        lanes_bits_sum(shard, parameter, lanes, lanes, upto) == shard_bits(shard, parameter, upto),
    decreases upto,
{
    if upto > 0 {
        lemma_lanes_bits_total(shard, parameter, lanes, (upto - 1) as nat);
        lemma_lanes_bits_step(shard, parameter, lanes, lanes, (upto - 1) as nat);
    } else {
        lemma_lanes_bits_zero(shard, parameter, lanes, lanes);
    }
}

proof fn lemma_lanes_bits_zero(shard: Seq<u32>, parameter: nat, lanes: nat, count: nat)
    ensures
        lanes_bits_sum(shard, parameter, lanes, count, 0) == 0,
    decreases count,
{
    if count > 0 {
        lemma_lanes_bits_zero(shard, parameter, lanes, (count - 1) as nat);
    }
}

proof fn lemma_lanes_bits_monotone(shard: Seq<u32>, parameter: nat, lanes: nat, count: nat, larger: nat, upto: nat)
    requires
        count <= larger,
    ensures
        lanes_bits_sum(shard, parameter, lanes, count, upto) <= lanes_bits_sum(
            shard,
            parameter,
            lanes,
            larger,
            upto,
        ),
    decreases larger - count,
{
    if count < larger {
        lemma_lanes_bits_monotone(shard, parameter, lanes, count, (larger - 1) as nat, upto);
    }
}

proof fn lemma_shard_bits_bound(shard: Seq<u32>, parameter: nat, upto: nat)
    requires
        parameter <= 16,
        upto <= shard.len(),
        forall|i: int| 0 <= i < shard.len() ==> #[trigger] shard[i] <= 0x2_0000,
    ensures
        shard_bits(shard, parameter, upto) <= upto * 0x2_0011,
    decreases upto,
{
    if upto > 0 {
        lemma_shard_bits_bound(shard, parameter, (upto - 1) as nat);
        let v = shard[upto - 1];
        let q = parameter as u32;
        assert((v >> q) <= v) by (bit_vector);
    }
}

impl ByteFormatModel {
    /// Models Rice coding with one parameter in shards of `shard_symbols` symbols,
    /// each over `lanes` interleaved lanes (symbol `i` of a shard in lane `i % lanes`).
    pub fn rice_lane_size(&self, parameter: u8, shard_symbols: usize, lanes: usize) -> (model:
        RiceLaneSizeModel)
        requires
            self.wf(),
            folded_domain(self@),
            parameter <= 16,
            shard_symbols != 0,
            lanes != 0,
        ensures
            model.payload_bytes == rice_lane_payload(
                self@,
                parameter as nat,
                shard_symbols as nat,
                lanes as nat,
            ),
            model.control_bytes == rice_lane_control(
                self@.len(),
                shard_symbols as nat,
                lanes as nat,
            ),
            model.complete_bytes == model.payload_bytes + model.control_bytes,
    {
        let values = self.values.as_slice();
        let ghost p = parameter as nat;
        let mut payload_bytes: u64 = 0;
        let mut control_bytes: u64 = 0;
        let mut start: usize = 0;
        proof {
            assert(values@.skip(0) =~= values@);
        }
        while start < values.len()
            invariant
                folded_domain(values@),
                parameter <= 16,
                p == parameter as nat,
                shard_symbols != 0,
                lanes != 0,
                start <= values.len(),
                payload_bytes + rice_lane_payload(
                    values@.skip(start as int),
                    p,
                    shard_symbols as nat,
                    lanes as nat,
                ) == rice_lane_payload(values@, p, shard_symbols as nat, lanes as nat),
                control_bytes + rice_lane_control(
                    (values.len() - start) as nat,
                    shard_symbols as nat,
                    lanes as nat,
                ) == rice_lane_control(values@.len(), shard_symbols as nat, lanes as nat),
                payload_bytes <= start * 0x2_0012,
                control_bytes <= 8 * start,
            decreases values.len() - start,
        {
            let remaining = values.len() - start;
            let n = if shard_symbols < remaining {
                shard_symbols
            } else {
                remaining
            };
            let active = if lanes < n {
                lanes
            } else {
                n
            };
            let ghost shard = values@.skip(start as int).take(n as int);
            let mut lane_totals: Vec<u64> = Vec::with_capacity(active);
            let mut lane: usize = 0;
            while lane < active
                invariant
                    lane <= active,
                    lane_totals.len() == lane,
                    forall|l: int| 0 <= l < lane ==> #[trigger] lane_totals@[l] == 0,
                decreases active - lane,
            {
                lane_totals.push(0);
                lane = lane + 1;
            }
            let mut index: usize = 0;
            while index < n
                invariant
                    folded_domain(values@),
                    parameter <= 16,
                    p == parameter as nat,
                p == parameter as nat,
                    start + n <= values.len(),
                    1 <= active <= n,
                    shard == values@.skip(start as int).take(n as int),
                    index <= n,
                    lane_totals.len() == active,
                    forall|l: int|
                        0 <= l < active ==> #[trigger] lane_totals@[l] == lane_bits(
                            shard,
                            p,
                            active as nat,
                            l as nat,
                            index as nat,
                        ),
                    forall|l: int| 0 <= l < active ==> #[trigger] lane_totals@[l] <= index * 0x2_0011,
                decreases n - index,
            {
                let value = values[start + index];
                let slot = index % active;
                let shift = parameter as u32;
                let bits = (value >> shift) as u64 + 1 + parameter as u64;
                proof {
                    assert(shard[index as int] == value);
                    assert((value >> shift) <= value) by (bit_vector);
                    assert(values@[start + index] <= 0x2_0000);
                }
                let updated = lane_totals[slot] + bits;
                lane_totals.set(slot, updated);
                proof {
                    assert forall|l: int| 0 <= l < active implies #[trigger] lane_totals@[l] == lane_bits(
                        shard,
                        p,
                        active as nat,
                        l as nat,
                        (index + 1) as nat,
                    ) by {
                        assert((index as nat) % (active as nat) == slot);
                        assert(((index + 1) - 1) as nat == index as nat);
                        assert(lane_bits(shard, p, active as nat, l as nat, (index + 1) as nat)
                            == lane_bits(shard, p, active as nat, l as nat, index as nat) + if (
                        index as nat) % (active as nat) == l {
                            rice_length(shard[index as int], p)
                        } else {
                            0nat
                        });
                        assert(rice_length(shard[index as int], p) == bits);
                    }
                    assert forall|l: int| 0 <= l < active implies #[trigger] lane_totals@[l] <= (index
                        + 1) * 0x2_0011 by {
                        assert(index * 0x2_0011 + 0x2_0011 == (index + 1) * 0x2_0011) by (nonlinear_arith);
                    }
                }
                index = index + 1;
            }
            proof {
                lemma_lanes_bits_total(shard, p, active as nat, n as nat);
                assert forall|i: int| 0 <= i < shard.len() implies #[trigger] shard[i] <= 0x2_0000 by {
                    assert(shard[i] == values@[start + i]);
                }
                lemma_shard_bits_bound(shard, p, n as nat);
            }
            let mut shard_payload: u64 = 0;
            let mut lane: usize = 0;
            while lane < active
                invariant
                    parameter <= 16,
                    p == parameter as nat,
                p == parameter as nat,
                    1 <= active <= n,
                    n <= 0x4000_0000,
                    shard.len() == n,
                    start + n <= values.len(),
                    shard == values@.skip(start as int).take(n as int),
                    forall|i: int| 0 <= i < shard.len() ==> #[trigger] shard[i] <= 0x2_0000,
                    lane <= active,
                    lane_totals.len() == active,
                    forall|l: int|
                        0 <= l < active ==> #[trigger] lane_totals@[l] == lane_bits(
                            shard,
                            p,
                            active as nat,
                            l as nat,
                            n as nat,
                        ),
                    forall|l: int| 0 <= l < active ==> #[trigger] lane_totals@[l] <= n * 0x2_0011,
                    shard_payload == lanes_payload(shard, p, active as nat, lane as nat),
                    shard_payload <= lanes_bits_sum(shard, p, active as nat, lane as nat, n as nat) + lane,
                    lanes_bits_sum(shard, p, active as nat, active as nat, n as nat) <= n * 0x2_0011,
                decreases active - lane,
            {
                proof {
                    lemma_lanes_bits_monotone(shard, p, active as nat, (lane + 1) as nat, active as nat, n as nat);
                }
                shard_payload = shard_payload + (lane_totals[lane] + 7) / 8;
                lane = lane + 1;
            }
            proof {
                let rest = values@.skip(start as int);
                assert(rest.take(n as int) =~= shard);
                assert(rest.skip(n as int) =~= values@.skip(start + n));
                lemma_lanes_bits_monotone(shard, p, active as nat, lane as nat, active as nat, n as nat);
                assert(start * 0x2_0012 + n * 0x2_0012 == (start + n) * 0x2_0012) by (nonlinear_arith);
            }
            payload_bytes = payload_bytes + shard_payload;
            control_bytes = control_bytes + (active as u64 - 1) * 4;
            if remaining > n {
                control_bytes = control_bytes + 4;
            }
            start = start + n;
        }
        RiceLaneSizeModel {
            payload_bytes,
            control_bytes,
            complete_bytes: payload_bytes + control_bytes,
        }
    }
}

// ---------------------------------------------------------------------------
// Storage order
// ---------------------------------------------------------------------------

/// Size model of raster versus anti-diagonal storage order of one tile's symbols.
#[derive(Clone, Copy, Debug, PartialEq, Eq, Structural)]
pub struct EntropyOrderSizeModel {
    pub raster_best_bytes: u64,
    pub raster_rice_bytes: u64,
    pub diagonal_zero_run_bytes: u64,
    pub diagonal_rice_bytes: u64,
    pub diagonal_block_bytes: u64,
    pub diagonal_best_bytes: u64,
}

impl Default for EntropyOrderSizeModel {
    fn default() -> (model: EntropyOrderSizeModel)
        ensures
            model == (EntropyOrderSizeModel {
                raster_best_bytes: 0,
                raster_rice_bytes: 0,
                diagonal_zero_run_bytes: 0,
                diagonal_rice_bytes: 0,
                diagonal_block_bytes: 0,
                diagonal_best_bytes: 0,
            }),
    {
        EntropyOrderSizeModel {
            raster_best_bytes: 0,
            raster_rice_bytes: 0,
            diagonal_zero_run_bytes: 0,
            diagonal_rice_bytes: 0,
            diagonal_block_bytes: 0,
            diagonal_best_bytes: 0,
        }
    }
}

/// First column of anti-diagonal `sum` of a tile of `height` rows.
pub open spec fn diagonal_first(sum: int, height: int) -> int {
    if sum >= height - 1 {
        sum - (height - 1)
    } else {
        0
    }
}

/// Last column of anti-diagonal `sum` of a tile of `width` columns.
pub open spec fn diagonal_last(sum: int, width: int) -> int {
    if sum < width - 1 {
        sum
    } else {
        width - 1
    }
}

/// The symbols on anti-diagonal `sum` (column plus row), by increasing column.
pub open spec fn anti_diagonal(values: Seq<u32>, width: int, height: int, sum: int) -> Seq<u32> {
    let first = diagonal_first(sum, height);
    let last = diagonal_last(sum, width);
    Seq::new(
        (last - first + 1) as nat,
        |k: int| values[(sum - (first + k)) * width + first + k],
    )
}

/// The first `count` anti-diagonals, in order.
pub open spec fn diagonal_prefix(values: Seq<u32>, width: int, height: int, count: nat) -> Seq<u32>
    decreases count,
{
    if count == 0 {
        Seq::empty()
    } else {
        diagonal_prefix(values, width, height, (count - 1) as nat) + anti_diagonal(
            values,
            width,
            height,
            count - 1,
        )
    }
}

/// The symbols of a raster tile in anti-diagonal order.
pub open spec fn diagonal_order(values: Seq<u32>, width: int, height: int) -> Seq<u32> {
    diagonal_prefix(values, width, height, (width + height - 1) as nat)
}

/// The smaller of two byte counts.
pub open spec fn min_u64(a: u64, b: u64) -> u64 {
    if a < b {
        a
    } else {
        b
    }
}

/// Raster and anti-diagonal sizes of `values` under zero-run, best Rice and (when
/// allowed) fixed-width block coding.
pub open spec fn entropy_order_model(values: Seq<u32>, width: int, height: int, allow_block_pack: bool) -> EntropyOrderSizeModel {
    let diagonal = diagonal_order(values, width, height);
    let raster_zero = zero_run_encoding(values, 0).len() as u64;
    let raster_rice = min_rice_bytes(values, 16) as u64;
    let diagonal_zero = zero_run_encoding(diagonal, 0).len() as u64;
    let diagonal_rice = min_rice_bytes(diagonal, 16) as u64;
    let raster_block: u64 = if allow_block_pack {
        block_pack_cost(values) as u64
    } else {
        u64::MAX
    };
    let diagonal_block: u64 = if allow_block_pack {
        block_pack_cost(diagonal) as u64
    } else {
        u64::MAX
    };
    EntropyOrderSizeModel {
        raster_best_bytes: min_u64(min_u64(raster_zero, raster_rice), raster_block),
        raster_rice_bytes: raster_rice,
        diagonal_zero_run_bytes: diagonal_zero,
        diagonal_rice_bytes: diagonal_rice,
        diagonal_block_bytes: if allow_block_pack {
            diagonal_block
        } else {
            0
        },
        diagonal_best_bytes: min_u64(min_u64(diagonal_zero, diagonal_rice), diagonal_block),
    }
}

/// Fewest bytes of a Rice payload of `values` with a parameter of 0 to 16.
pub fn modeled_best_rice_bytes(values: &[u32]) -> (bytes: u64)
    requires
        values.len() <= 0x4000_0000,
    ensures
        bytes == min_rice_bytes(values@, 16),
{
    let (parameter, bits) = crate::entropy::best_rice_parameter_upto(values, 16);
    proof {
        crate::tile_coding16::lemma_min_rice_bytes(values@, 16);
        let costs = |q: nat| rice_cost(values@, q);
        assert forall|p: nat| p <= 16 implies rice_bytes(values@, parameter as nat) <= #[trigger] rice_bytes(
            values@,
            p,
        ) by {
            assert(costs(parameter as nat) <= costs(p));
        }
        let witness = choose|p: nat|
            p <= 16 && min_rice_bytes(values@, 16) == #[trigger] rice_bytes(values@, p);
        assert(rice_bytes(values@, parameter as nat) <= rice_bytes(values@, witness));
    }
    bits / 8 + if bits % 8 == 0 {
        0
    } else {
        1
    }
}

impl ByteFormatModel {
    /// Models raster and anti-diagonal storage of a `width` by `height` tile (see
    /// `entropy_order_model`).
    pub fn diagonal_order_size(&self, width: usize, height: usize, allow_block_pack: bool) -> (model:
        EntropyOrderSizeModel)
        requires
            self.wf(),
            folded_domain(self@),
            width >= 1,
            height >= 1,
            self@.len() == width * height,
            width * height <= 0x2000_0000,
        ensures
            model == entropy_order_model(self@, width as int, height as int, allow_block_pack),
    {
        let values = self.values.as_slice();
        let ghost w = width as int;
        let ghost h = height as int;
        let ghost m: int = if width < height {
            width as int
        } else {
            height as int
        };
        let mut diagonal: Vec<u32> = Vec::new();
        proof {
            assert(width <= width * height && height <= width * height) by (nonlinear_arith)
                requires
                    width >= 1,
                    height >= 1,
            ;
        }
        let count = width + height - 1;
        let mut sum: usize = 0;
        while sum < count
            invariant
                folded_domain(values@),
                values@.len() == width * height,
                width >= 1 && height >= 1,
                width * height <= 0x2000_0000,
                w == width && h == height,
                m == (if width < height {
                    width as int
                } else {
                    height as int
                }),
                count == width + height - 1,
                sum <= count,
                diagonal@ == diagonal_prefix(values@, w, h, sum as nat),
                diagonal.len() <= sum * m,
                forall|k: int| 0 <= k < diagonal.len() ==> #[trigger] diagonal@[k] <= 0x2_0000,
            decreases count - sum,
        {
            let first = if sum >= height - 1 {
                sum - (height - 1)
            } else {
                0
            };
            let last = if sum < width - 1 {
                sum
            } else {
                width - 1
            };
            let ghost before = diagonal@;
            let ghost line = anti_diagonal(values@, w, h, sum as int);
            let mut x = first;
            while x <= last
                invariant
                    folded_domain(values@),
                    values@.len() == width * height,
                    width >= 1 && height >= 1,
                    w == width && h == height,
                    sum < width + height - 1,
                    first == diagonal_first(sum as int, h),
                    last == diagonal_last(sum as int, w),
                    first <= x <= last + 1,
                    line == anti_diagonal(values@, w, h, sum as int),
                    diagonal@ == before + line.take(x - first),
                    forall|k: int| 0 <= k < diagonal.len() ==> #[trigger] diagonal@[k] <= 0x2_0000,
                decreases last + 1 - x,
            {
                let y = sum - x;
                proof {
                    assert(y < height);
                    assert(x < width);
                    assert(y * width + x < width * height) by (nonlinear_arith)
                        requires
                            y < height,
                            x < width,
                    ;
                }
                let ghost previous = diagonal@;
                diagonal.push(values[y * width + x]);
                proof {
                    assert(line[x - first] == values@[y * width + x]);
                    assert(line.take(x + 1 - first) =~= line.take(x - first).push(line[x - first]));
                    assert(diagonal@ =~= before + line.take(x + 1 - first));
                }
                x = x + 1;
            }
            proof {
                assert(line.take(last + 1 - first) =~= line);
                assert(diagonal@ =~= diagonal_prefix(values@, w, h, (sum + 1) as nat));
                assert(last + 1 - first <= m);
                assert(sum * m + m == (sum + 1) * m) by (nonlinear_arith);
            }
            sum = sum + 1;
        }
        proof {
            assert((w + h - 1) * m <= 2 * (w * h)) by (nonlinear_arith)
                requires
                    w >= 1,
                    h >= 1,
                    m == w || m == h,
                    m <= w,
                    m <= h,
            ;
            assert(folded_domain(diagonal@));
        }
        let raster_zero = modeled_zero_run_cost(values);
        let raster_rice = modeled_best_rice_bytes(values);
        let diagonal_zero_run_bytes = modeled_zero_run_cost(diagonal.as_slice());
        let diagonal_rice_bytes = modeled_best_rice_bytes(diagonal.as_slice());
        let raster_block: u64 = if allow_block_pack {
            modeled_block_pack_cost(values)
        } else {
            u64::MAX
        };
        let diagonal_block: u64 = if allow_block_pack {
            modeled_block_pack_cost(diagonal.as_slice())
        } else {
            u64::MAX
        };
        let raster_best = if raster_zero < raster_rice {
            raster_zero
        } else {
            raster_rice
        };
        let raster_best = if raster_best < raster_block {
            raster_best
        } else {
            raster_block
        };
        let diagonal_best = if diagonal_zero_run_bytes < diagonal_rice_bytes {
            diagonal_zero_run_bytes
        } else {
            diagonal_rice_bytes
        };
        let diagonal_best = if diagonal_best < diagonal_block {
            diagonal_best
        } else {
            diagonal_block
        };
        EntropyOrderSizeModel {
            raster_best_bytes: raster_best,
            raster_rice_bytes: raster_rice,
            diagonal_zero_run_bytes,
            diagonal_rice_bytes,
            diagonal_block_bytes: if allow_block_pack {
                diagonal_block
            } else {
                0
            },
            diagonal_best_bytes: diagonal_best,
        }
    }
}

// ---------------------------------------------------------------------------
// Per-tile model records
// ---------------------------------------------------------------------------

/// Read-only size model for one encoded tile's folded residual symbols.
#[derive(Clone, Copy, Debug, PartialEq, Eq, Structural)]
pub struct TileEntropyModel {
    pub plane: usize,
    pub width: u32,
    pub height: u32,
    pub temporal_prediction: bool,
    pub source_zero_run: bool,
    pub sample_count: usize,
    pub zero_symbols: usize,
    pub actual_payload_bytes: usize,
    pub stream_vbyte_bytes: u64,
    pub stream_vbyte_0124_bytes: u64,
    pub distinct_symbols: usize,
    pub ideal_order0_bytes: u64,
    pub order0_supported: bool,
    pub order0_table_log: u8,
    pub order0_payload_bytes: u64,
    pub order0_table_bytes: u64,
    pub order0_complete_bytes: u64,
    pub context_order0_supported: bool,
    pub context_order0_contexts: u8,
    pub context_order0_threshold: u32,
    pub context_order0_payload_bytes: u64,
    pub context_order0_table_bytes: u64,
    pub context_order0_control_bytes: u64,
    pub context_order0_complete_bytes: u64,
    pub rice4_shard_supported: bool,
    pub rice4_shard_payload_bytes: u64,
    pub rice4_shard_control_bytes: u64,
    pub rice4_shard_complete_bytes: u64,
    pub diagonal_order_supported: bool,
    pub raster_best_bytes: u64,
    pub raster_rice_bytes: u64,
    pub diagonal_zero_run_bytes: u64,
    pub diagonal_rice_bytes: u64,
    pub diagonal_block_bytes: u64,
    pub diagonal_best_bytes: u64,
}

/// Read-only size model for predictor-bounded residual symbols in one tile.
#[derive(Clone, Copy, Debug, PartialEq, Eq, Structural)]
pub struct TileResidualMappingModel {
    pub plane: usize,
    pub width: u32,
    pub height: u32,
    pub temporal_prediction: bool,
    pub source_zero_run: bool,
    pub bounded_zero_run: bool,
    pub sample_count: usize,
    pub actual_payload_bytes: usize,
    pub bounded_payload_bytes: usize,
}

/// A predictor that the predictor models compare.
#[derive(Clone, Copy, Debug, PartialEq, Eq, Structural)]
pub enum PredictorModelMode {
    Paeth,
    Average,
    ClampGradient,
    HalfGradient,
    Temporal,
}

/// Exact payload size and reconstruction error of one predictor on one tile.
#[derive(Clone, Copy, Debug, PartialEq, Eq, Structural)]
pub struct PredictorCandidateModel {
    pub payload_bytes: usize,
    pub squared_error: u64,
    pub max_error: u32,
    pub zero_run: bool,
}

/// Read-only complete-byte model for independently reconstructed row bands.
#[derive(Clone, Copy, Debug, PartialEq, Eq, Structural)]
pub struct PredictorBandModel {
    pub bands: usize,
    pub max_band_samples: usize,
    pub payload_bytes: usize,
    pub control_bytes: usize,
    pub complete_bytes: usize,
    pub squared_error: u64,
    pub max_error: u32,
    pub parallel_payload_bytes: usize,
    pub parallel_control_bytes: usize,
    pub parallel_complete_bytes: usize,
    pub max_entropy_span: usize,
}

/// Read-only exact-byte model for one tile's compatible predictor candidates.
#[derive(Clone, Copy, Debug, PartialEq, Eq, Structural)]
pub struct TilePredictorModel {
    pub plane: usize,
    pub width: u32,
    pub height: u32,
    pub sample_count: usize,
    pub current_mode: PredictorModelMode,
    pub oracle_mode: PredictorModelMode,
    pub current: PredictorCandidateModel,
    pub oracle: PredictorCandidateModel,
    pub paeth: PredictorCandidateModel,
    pub average: PredictorCandidateModel,
    pub clamp_gradient: PredictorCandidateModel,
    pub half_gradient: PredictorCandidateModel,
    pub temporal: Option<PredictorCandidateModel>,
    pub band16_clamp: PredictorBandModel,
    pub band32_clamp: PredictorBandModel,
    pub band64_clamp: PredictorBandModel,
}

/// The entropy model of a tile whose folded residuals are `symbols`; the Rice-lane
/// and storage-order fields are filled only where `lanes` and `orders` are given.
pub open spec fn entropy_model_of<F: Fn(&[u64], &[u64], u64) -> u64>(
    plane: usize,
    width: u32,
    height: u32,
    temporal_prediction: bool,
    source_zero_run: bool,
    payload_bytes: usize,
    symbols: Seq<u32>,
    cost: F,
    lanes: Option<RiceLaneSizeModel>,
    orders: Option<EntropyOrderSizeModel>,
) -> TileEntropyModel {
    let order0 = order0_model(symbols, cost);
    let context = context_model(symbols, cost);
    let lane = match lanes {
        Some(l) => l,
        None => RiceLaneSizeModel { payload_bytes: 0, control_bytes: 0, complete_bytes: 0 },
    };
    let order = match orders {
        Some(o) => o,
        None => EntropyOrderSizeModel {
            raster_best_bytes: 0,
            raster_rice_bytes: 0,
            diagonal_zero_run_bytes: 0,
            diagonal_rice_bytes: 0,
            diagonal_block_bytes: 0,
            diagonal_best_bytes: 0,
        },
    };
    TileEntropyModel {
        plane,
        width,
        height,
        temporal_prediction,
        source_zero_run,
        sample_count: symbols.len() as usize,
        zero_symbols: count_of(symbols, 0) as usize,
        actual_payload_bytes: payload_bytes,
        stream_vbyte_bytes: ((symbols.len() + 3) / 4 + standard_bytes(symbols)) as u64,
        stream_vbyte_0124_bytes: ((symbols.len() + 3) / 4 + zero_aware_bytes(symbols)) as u64,
        distinct_symbols: order0.distinct_symbols,
        ideal_order0_bytes: order0.ideal_bytes,
        order0_supported: order0.supported,
        order0_table_log: order0.table_log,
        order0_payload_bytes: order0.payload_bytes,
        order0_table_bytes: order0.table_bytes,
        order0_complete_bytes: order0.complete_bytes,
        context_order0_supported: context.supported,
        context_order0_contexts: context.contexts,
        context_order0_threshold: context.threshold,
        context_order0_payload_bytes: context.payload_bytes,
        context_order0_table_bytes: context.table_bytes,
        context_order0_control_bytes: context.control_bytes,
        context_order0_complete_bytes: context.complete_bytes,
        rice4_shard_supported: lanes is Some,
        rice4_shard_payload_bytes: lane.payload_bytes,
        rice4_shard_control_bytes: lane.control_bytes,
        rice4_shard_complete_bytes: lane.complete_bytes,
        diagonal_order_supported: orders is Some,
        raster_best_bytes: order.raster_best_bytes,
        raster_rice_bytes: order.raster_rice_bytes,
        diagonal_zero_run_bytes: order.diagonal_zero_run_bytes,
        diagonal_rice_bytes: order.diagonal_rice_bytes,
        diagonal_block_bytes: order.diagonal_block_bytes,
        diagonal_best_bytes: order.diagonal_best_bytes,
    }
}

/// Builds the entropy model of one tile from its symbol model.
pub fn tile_entropy_model<F: Fn(&[u64], &[u64], u64) -> u64>(
    plane: usize,
    width: u32,
    height: u32,
    temporal_prediction: bool,
    source_zero_run: bool,
    payload_bytes: usize,
    model: &ByteFormatModel,
    cost: &F,
    lanes: Option<RiceLaneSizeModel>,
    orders: Option<EntropyOrderSizeModel>,
) -> (result: TileEntropyModel)
    requires
        model.wf(),
        cost_model(*cost),
    ensures
        result == entropy_model_of(
            plane,
            width,
            height,
            temporal_prediction,
            source_zero_run,
            payload_bytes,
            model@,
            *cost,
            lanes,
            orders,
        ),
{
    let order0 = model.order0_size(cost);
    let context = model.context_order0_size(cost);
    let lane = match lanes {
        Some(l) => l,
        None => RiceLaneSizeModel { payload_bytes: 0, control_bytes: 0, complete_bytes: 0 },
    };
    let order = match orders {
        Some(o) => o,
        None => EntropyOrderSizeModel::default(),
    };
    let sample_count = match model.sample_count() {
        Some(count) => count,
        None => 0,
    };
    let zero_symbols = match model.zero_symbols() {
        Some(count) => count,
        None => 0,
    };
    TileEntropyModel {
        plane,
        width,
        height,
        temporal_prediction,
        source_zero_run,
        sample_count,
        zero_symbols,
        actual_payload_bytes: payload_bytes,
        stream_vbyte_bytes: model.stream_vbyte_bytes(),
        stream_vbyte_0124_bytes: model.stream_vbyte_0124_bytes(),
        distinct_symbols: order0.distinct_symbols,
        ideal_order0_bytes: order0.ideal_bytes,
        order0_supported: order0.supported,
        order0_table_log: order0.table_log,
        order0_payload_bytes: order0.payload_bytes,
        order0_table_bytes: order0.table_bytes,
        order0_complete_bytes: order0.complete_bytes,
        context_order0_supported: context.supported,
        context_order0_contexts: context.contexts,
        context_order0_threshold: context.threshold,
        context_order0_payload_bytes: context.payload_bytes,
        context_order0_table_bytes: context.table_bytes,
        context_order0_control_bytes: context.control_bytes,
        context_order0_complete_bytes: context.complete_bytes,
        rice4_shard_supported: lanes.is_some(),
        rice4_shard_payload_bytes: lane.payload_bytes,
        rice4_shard_control_bytes: lane.control_bytes,
        rice4_shard_complete_bytes: lane.complete_bytes,
        diagonal_order_supported: orders.is_some(),
        raster_best_bytes: order.raster_best_bytes,
        raster_rice_bytes: order.raster_rice_bytes,
        diagonal_zero_run_bytes: order.diagonal_zero_run_bytes,
        diagonal_rice_bytes: order.diagonal_rice_bytes,
        diagonal_block_bytes: order.diagonal_block_bytes,
        diagonal_best_bytes: order.diagonal_best_bytes,
    }
}

} // verus!
