use crate::bits::{put_varint, spec_varint, varint_length};
use vstd::prelude::*;

verus! {

/// Entropy mode byte of the zero-run token stream.
pub const ENTROPY_ZERO_RUN: u8 = 0;
/// Entropy mode byte of Rice coding with parameter 0; parameter `p` is `ENTROPY_RICE_BASE + p`.
pub const ENTROPY_RICE_BASE: u8 = 1;

/// Largest folded symbol that the token streams accept.
pub open spec fn folded_domain(folded: Seq<u32>) -> bool {
    &&& folded.len() <= 0x4000_0000
    &&& forall|i: int| 0 <= i < folded.len() ==> #[trigger] folded[i] <= 0x2_0000
}

/// Token that closes a pending run of `run` zero symbols.
pub open spec fn run_token(run: nat) -> Seq<u8> {
    if run == 0 {
        Seq::empty()
    } else {
        spec_varint((2 * (run - 1)) as nat)
    }
}

/// Zero-run token stream of `folded` after a pending run of `run` zeros: a run of
/// `r` zeros is the varint `2 * (r - 1)`, a nonzero symbol `v` the varint `2 * v - 1`.
pub open spec fn zero_run_encoding(folded: Seq<u32>, run: nat) -> Seq<u8>
    decreases folded.len(),
{
    if folded.len() == 0 {
        run_token(run)
    } else if folded[0] == 0 {
        zero_run_encoding(folded.drop_first(), run + 1)
    } else {
        run_token(run) + spec_varint((2 * folded[0] - 1) as nat) + zero_run_encoding(
            folded.drop_first(),
            0,
        )
    }
}

proof fn lemma_varint_run_bound(run: nat)
    requires
        run >= 1,
        run <= 0x8000_0000,
    ensures
        run_token(run).len() <= run,
        run_token(run).len() <= 5,
{
    crate::bits::lemma_varint_length((2 * (run - 1)) as nat);
}

/// A zero-run coding takes at most three bytes per symbol, plus the pending run.
pub proof fn lemma_zero_run_encoding_len(folded: Seq<u32>, run: nat)
    requires
        folded_domain(folded),
        run + folded.len() <= 0x4000_0000,
    ensures
        zero_run_encoding(folded, run).len() <= 3 * folded.len() + run,
    decreases folded.len(),
{
    let rest = folded.drop_first();
    if folded.len() > 0 {
        assert(folded_domain(rest)) by {
            assert forall|i: int| 0 <= i < rest.len() implies #[trigger] rest[i] <= 0x2_0000 by {
                assert(rest[i] == folded[i + 1]);
            }
        }
        if folded[0] == 0 {
            lemma_zero_run_encoding_len(rest, run + 1);
        } else {
            lemma_zero_run_encoding_len(rest, 0);
            if run > 0 {
                lemma_varint_run_bound(run);
            }
            crate::bits::lemma_varint_length((2 * folded[0] - 1) as nat);
            assert(folded[0] <= 0x2_0000);
        }
    } else if run > 0 {
        lemma_varint_run_bound(run);
    }
}

proof fn lemma_zero_run_step(folded: Seq<u32>, index: int, run: nat)
    requires
        0 <= index < folded.len(),
    ensures
        zero_run_encoding(folded.subrange(index, folded.len() as int), run) == if folded[index]
            == 0 {
            zero_run_encoding(folded.subrange(index + 1, folded.len() as int), run + 1)
        } else {
            run_token(run) + spec_varint((2 * folded[index] - 1) as nat) + zero_run_encoding(
                folded.subrange(index + 1, folded.len() as int),
                0,
            )
        },
{
    let rest = folded.subrange(index, folded.len() as int);
    assert(rest.drop_first() =~= folded.subrange(index + 1, folded.len() as int));
    assert(rest[0] == folded[index]);
}

/// Number of zero symbols at the front of `s`.
pub open spec fn zero_prefix(s: Seq<u32>) -> nat
    decreases s.len(),
{
    if s.len() == 0 || s[0] != 0 {
        0
    } else {
        1 + zero_prefix(s.drop_first())
    }
}

proof fn lemma_zero_prefix(s: Seq<u32>)
    ensures
        zero_prefix(s) <= s.len(),
        forall|i: int| 0 <= i < zero_prefix(s) ==> s[i] == 0,
        zero_prefix(s) < s.len() ==> s[zero_prefix(s) as int] != 0,
    decreases s.len(),
{
    if s.len() > 0 && s[0] == 0 {
        let rest = s.drop_first();
        lemma_zero_prefix(rest);
        assert forall|i: int| 0 <= i < zero_prefix(s) implies s[i] == 0 by {
            if i > 0 {
                assert(s[i] == rest[i - 1]);
            }
        }
        if zero_prefix(s) < s.len() {
            assert(s[zero_prefix(s) as int] == rest[zero_prefix(rest) as int]);
        }
    }
}

proof fn lemma_zero_run_skip_zeros(s: Seq<u32>, k: nat, run: nat)
    requires
        k <= s.len(),
        forall|i: int| 0 <= i < k ==> s[i] == 0,
    ensures
        zero_run_encoding(s, run) == zero_run_encoding(s.skip(k as int), run + k),
    decreases k,
{
    if k == 0 {
        assert(s.skip(0) =~= s);
    } else {
        let rest = s.drop_first();
        assert(s[0] == 0);
        assert forall|i: int| 0 <= i < k - 1 implies rest[i] == 0 by {
            assert(rest[i] == s[i + 1]);
        }
        lemma_zero_run_skip_zeros(rest, (k - 1) as nat, run + 1);
        assert(rest.skip(k - 1) =~= s.skip(k as int));
    }
}

/// First token of the zero-run stream of a nonempty `s`.
pub open spec fn zero_run_head(s: Seq<u32>) -> nat {
    if zero_prefix(s) > 0 {
        (2 * (zero_prefix(s) - 1)) as nat
    } else {
        (2 * s[0] - 1) as nat
    }
}

/// Symbols that the tokens after the first one carry.
pub open spec fn zero_run_tail(s: Seq<u32>) -> Seq<u32> {
    if zero_prefix(s) > 0 {
        s.skip(zero_prefix(s) as int)
    } else {
        s.skip(1)
    }
}

/// The zero-run stream of a nonempty `s` is its first token followed by the stream
/// of the symbols that token does not cover.
pub proof fn lemma_zero_run_head(s: Seq<u32>)
    requires
        s.len() > 0,
    ensures
        zero_run_encoding(s, 0) == spec_varint(zero_run_head(s)) + zero_run_encoding(zero_run_tail(s), 0),
        forall|i: int| 0 <= i < zero_prefix(s) ==> s[i] == 0,
        zero_prefix(s) <= s.len(),
        zero_prefix(s) == 0 ==> s[0] != 0,
{
    lemma_zero_prefix(s);
    let r = zero_prefix(s);
    assert(run_token(0) =~= Seq::<u8>::empty());
    if r > 0 {
        lemma_zero_run_skip_zeros(s, r, 0);
        let t = s.skip(r as int);
        if t.len() == 0 {
            assert(zero_run_encoding(t, 0) == run_token(0));
            assert(zero_run_encoding(t, r) =~= spec_varint(zero_run_head(s)) + zero_run_encoding(t, 0));
        } else {
            assert(t[0] == s[r as int]);
            assert(zero_run_encoding(t, r) =~= spec_varint(zero_run_head(s)) + zero_run_encoding(t, 0));
        }
    } else {
        assert(s.drop_first() =~= s.skip(1));
        assert(zero_run_encoding(s, 0) =~= spec_varint(zero_run_head(s)) + zero_run_encoding(s.skip(1), 0));
    }
}

/// Appends the token that closes a pending zero run and clears the run.
pub fn flush_zero_run(output: &mut Vec<u8>, run: &mut u32)
    requires
        *old(run) <= 0x8000_0000,
    ensures
        final(output)@ == old(output)@ + run_token(*old(run) as nat),
        *final(run) == 0,
{
    if *run != 0 {
        put_varint(output, (*run - 1) * 2);
        *run = 0;
    } else {
        proof {
            assert(final(output)@ =~= old(output)@ + run_token(0));
        }
    }
}

/// Adds the size of the token that closes a pending zero run and clears the run.
pub fn count_zero_run(bytes: &mut u64, run: &mut u32)
    requires
        *old(run) <= 0x8000_0000,
        *old(bytes) <= u64::MAX - 5,
    ensures
        *final(bytes) == *old(bytes) + run_token(*old(run) as nat).len(),
        *final(run) == 0,
{
    if *run != 0 {
        proof {
            lemma_varint_run_bound(*run as nat);
        }
        *bytes = *bytes + varint_length((*run - 1) * 2) as u64;
        *run = 0;
    }
}

/// The zero-run token stream of `folded`.
pub fn zero_run_payload(folded: &[u32]) -> (payload: Vec<u8>)
    requires
        folded_domain(folded@),
    ensures
        payload@ == zero_run_encoding(folded@, 0),
{
    let mut payload: Vec<u8> = Vec::new();
    let mut run: u32 = 0;
    let mut index: usize = 0;
    proof {
        assert(folded@.subrange(0, folded.len() as int) =~= folded@);
        assert(payload@ + zero_run_encoding(folded@, 0) =~= zero_run_encoding(folded@, 0));
    }
    while index < folded.len()
        invariant
            folded_domain(folded@),
            index <= folded.len(),
            run <= index,
            payload@ + zero_run_encoding(folded@.subrange(index as int, folded.len() as int), run as nat)
                == zero_run_encoding(folded@, 0),
        decreases folded.len() - index,
    {
        let value = folded[index];
        proof {
            lemma_zero_run_step(folded@, index as int, run as nat);
        }
        if value == 0 {
            run = run + 1;
        } else {
            let ghost before = payload@;
            flush_zero_run(&mut payload, &mut run);
            put_varint(&mut payload, value * 2 - 1);
            proof {
                assert(payload@ == before + run_token(run as nat) + spec_varint(
                    (2 * value - 1) as nat,
                ) || true);
            }
        }
        index = index + 1;
    }
    proof {
        assert(folded@.subrange(index as int, folded.len() as int) =~= Seq::<u32>::empty());
    }
    flush_zero_run(&mut payload, &mut run);
    payload
}

/// Size of the zero-run token stream of `folded`, without building it.
pub fn modeled_zero_run_cost(folded: &[u32]) -> (bytes: u64)
    requires
        folded_domain(folded@),
    ensures
        bytes == zero_run_encoding(folded@, 0).len(),
        bytes <= 3 * folded.len(),
{
    let mut bytes: u64 = 0;
    let mut run: u32 = 0;
    let mut index: usize = 0;
    proof {
        lemma_zero_run_encoding_len(folded@, 0);
        assert(folded@.subrange(0, folded.len() as int) =~= folded@);
    }
    while index < folded.len()
        invariant
            folded_domain(folded@),
            index <= folded.len(),
            run <= index,
            bytes + zero_run_encoding(folded@.subrange(index as int, folded.len() as int), run as nat).len()
                == zero_run_encoding(folded@, 0).len(),
            zero_run_encoding(folded@, 0).len() <= 3 * folded.len(),
        decreases folded.len() - index,
    {
        let value = folded[index];
        proof {
            lemma_zero_run_step(folded@, index as int, run as nat);
        }
        if value == 0 {
            run = run + 1;
        } else {
            count_zero_run(&mut bytes, &mut run);
            proof {
                crate::bits::lemma_varint_length((2 * value - 1) as nat);
            }
            bytes = bytes + varint_length(value * 2 - 1) as u64;
        }
        index = index + 1;
    }
    proof {
        assert(folded@.subrange(index as int, folded.len() as int) =~= Seq::<u32>::empty());
    }
    count_zero_run(&mut bytes, &mut run);
    bytes
}

// ---------------------------------------------------------------------------
// Rice parameter selection
// ---------------------------------------------------------------------------

/// Sum of the Rice quotients `v >> parameter` of the symbols.
pub open spec fn quotient_sum(folded: Seq<u32>, parameter: nat) -> nat
    decreases folded.len(),
{
    if folded.len() == 0 {
        0
    } else {
        quotient_sum(folded.drop_last(), parameter) + (folded.last() >> (parameter as u32)) as nat
    }
}

/// Bits of the Rice codes of all symbols with one parameter.
pub open spec fn rice_cost(folded: Seq<u32>, parameter: nat) -> nat {
    folded.len() * (parameter + 1) + quotient_sum(folded, parameter)
}

/// `best` is the first parameter of `0..=max_parameter` whose cost is minimal.
pub open spec fn is_first_minimum(costs: spec_fn(nat) -> nat, max_parameter: nat, best: nat) -> bool {
    &&& best <= max_parameter
    &&& forall|p: nat| p <= max_parameter ==> costs(best) <= #[trigger] costs(p)
    &&& forall|p: nat| p < best ==> costs(best) < #[trigger] costs(p)
}

proof fn lemma_quotient_sum_bound(folded: Seq<u32>, parameter: nat)
    ensures
        quotient_sum(folded, parameter) <= folded.len() * 0xffff_ffff,
    decreases folded.len(),
{
    if folded.len() > 0 {
        lemma_quotient_sum_bound(folded.drop_last(), parameter);
    }
}

proof fn lemma_quotient_sum_take(folded: Seq<u32>, index: int, parameter: nat)
    requires
        0 <= index < folded.len(),
    ensures
        quotient_sum(folded.take(index + 1), parameter) == quotient_sum(folded.take(index), parameter)
            + (folded[index] >> (parameter as u32)) as nat,
{
    assert(folded.take(index + 1).drop_last() =~= folded.take(index));
}

proof fn lemma_quotient_sum_zero_stays_zero(folded: Seq<u32>, parameter: nat, later: nat)
    requires
        quotient_sum(folded, parameter) == 0,
        parameter <= later < 32,
    ensures
        quotient_sum(folded, later) == 0,
    decreases folded.len(),
{
    if folded.len() > 0 {
        lemma_quotient_sum_zero_stays_zero(folded.drop_last(), parameter, later);
        let v = folded.last();
        let p = parameter as u32;
        let q = later as u32;
        assert(v >> q == 0) by (bit_vector)
            requires
                v >> p == 0,
                p <= q < 32,
        ;
    }
}

/// Computes `quotient_sum(folded, parameter)`.
fn quotient_sum_of(folded: &[u32], parameter: u8) -> (sum: u64)
    requires
        parameter < 32,
        folded.len() <= 0x4000_0000,
    ensures
        sum == quotient_sum(folded@, parameter as nat),
{
    let mut sum: u64 = 0;
    let mut index: usize = 0;
    while index < folded.len()
        invariant
            parameter < 32,
            folded.len() <= 0x4000_0000,
            index <= folded.len(),
            sum == quotient_sum(folded@.take(index as int), parameter as nat),
            sum <= index * 0xffff_ffff,
        decreases folded.len() - index,
    {
        proof {
            lemma_quotient_sum_take(folded@, index as int, parameter as nat);
        }
        sum = sum + (folded[index] >> parameter) as u64;
        index = index + 1;
    }
    proof {
        assert(folded@.take(index as int) =~= folded@);
    }
    sum
}

/// The Rice parameter in `0..=max_parameter` with the fewest bits, and that bit count.
/// The scan stops once all quotients are zero: larger parameters cost more.
pub fn best_rice_parameter_upto(folded: &[u32], max_parameter: u8) -> (best: (u8, u64))
    requires
        folded.len() <= 0x4000_0000,
        max_parameter <= 16,
    ensures
        is_first_minimum(|p: nat| rice_cost(folded@, p), max_parameter as nat, best.0 as nat),
        best.1 == rice_cost(folded@, best.0 as nat),
{
    let ghost costs = |p: nat| rice_cost(folded@, p);
    let mut best_parameter: u8 = 0;
    let mut best_bits: u64 = u64::MAX;
    let mut parameter: u8 = 0;
    let count = folded.len() as u64;
    proof {
        lemma_quotient_sum_bound(folded@, 0);
    }
    while parameter <= max_parameter
        invariant
            count == folded.len(),
            folded.len() <= 0x4000_0000,
            max_parameter <= 16,
            parameter <= max_parameter + 1,
            best_parameter <= max_parameter,
            parameter == 0 ==> best_bits == u64::MAX && best_parameter == 0,
            parameter > 0 ==> best_parameter < parameter && best_bits == costs(best_parameter as nat),
            forall|p: nat| p < parameter ==> best_bits <= #[trigger] costs(p),
            forall|p: nat| p < best_parameter ==> best_bits < #[trigger] costs(p),
            costs == (|p: nat| rice_cost(folded@, p)),
        decreases max_parameter + 1 - parameter,
    {
        let quotients = quotient_sum_of(folded, parameter);
        proof {
            lemma_quotient_sum_bound(folded@, parameter as nat);
            assert(count * (parameter + 1) <= 0x4000_0000 * 17) by (nonlinear_arith)
                requires
                    count <= 0x4000_0000,
                    parameter <= 16,
            ;
            assert(quotients <= 0x4000_0000 * 0xffff_ffff) by (nonlinear_arith)
                requires
                    quotients <= count * 0xffff_ffff,
                    count <= 0x4000_0000,
            ;
        }
        let bits = count * (parameter as u64 + 1) + quotients;
        assert(bits == costs(parameter as nat));
        if bits < best_bits {
            best_parameter = parameter;
            best_bits = bits;
        }
        if quotients == 0 {
            proof {
                assert forall|p: nat| p <= max_parameter implies best_bits <= #[trigger] costs(p) by {
                    if p > parameter {
                        lemma_quotient_sum_zero_stays_zero(folded@, parameter as nat, p);
                        assert(count * (parameter + 1) <= count * (p + 1)) by (nonlinear_arith)
                            requires
                                parameter < p,
                                count >= 0,
                        ;
                    }
                }
            }
            return (best_parameter, best_bits);
        }
        parameter = parameter + 1;
    }
    (best_parameter, best_bits)
}

/// The Rice parameter in `0..=16` with the fewest bits, and that bit count.
pub fn best_rice_parameter(folded: &[u32]) -> (best: (u8, u64))
    requires
        folded.len() <= 0x4000_0000,
    ensures
        is_first_minimum(|p: nat| rice_cost(folded@, p), 16, best.0 as nat),
        best.1 == rice_cost(folded@, best.0 as nat),
{
    best_rice_parameter_upto(folded, 16)
}

} // verus!
