use crate::model::CodecError;
use vstd::prelude::*;

verus! {

// ---------------------------------------------------------------------------
// Signed residual folding
// ---------------------------------------------------------------------------

/// Residuals handled by `zigzag`: every codec residual is far inside this range.
pub open spec fn zigzag_domain(value: int) -> bool {
    -0x4000_0000 <= value <= 0x4000_0000
}

/// Folds signed residuals onto the naturals: 0, -1, 1, -2, 2, ... map to 0, 1, 2, 3, 4, ...
pub open spec fn spec_zigzag(value: int) -> int {
    if value >= 0 {
        2 * value
    } else {
        -2 * value - 1
    }
}

pub open spec fn spec_unzigzag(value: int) -> int {
    if value % 2 == 0 {
        value / 2
    } else {
        -(value / 2) - 1
    }
}

pub fn zigzag(value: i32) -> (folded: u32)
    requires
        zigzag_domain(value as int),
    ensures
        folded == spec_zigzag(value as int),
{
    if value >= 0 {
        value as u32 * 2
    } else {
        ((-value) as u32) * 2 - 1
    }
}

pub fn unzigzag(value: u32) -> (residual: i32)
    ensures
        residual == spec_unzigzag(value as int),
{
    if value % 2 == 0 {
        (value / 2) as i32
    } else {
        -((value / 2) as i32) - 1
    }
}

/// `unzigzag` undoes `zigzag`, and `zigzag` undoes `unzigzag`.
pub proof fn lemma_zigzag_round_trip(value: int, folded: int)
    requires
        folded >= 0,
    ensures
        spec_unzigzag(spec_zigzag(value)) == value,
        spec_zigzag(spec_unzigzag(folded)) == folded,
        spec_zigzag(value) >= 0,
{
}

// ---------------------------------------------------------------------------
// Little-endian integers
// ---------------------------------------------------------------------------

/// Value of `count` little-endian bytes of `bytes` starting at `offset`.
pub open spec fn le_value(bytes: Seq<u8>, offset: int, count: nat) -> nat
    decreases count,
{
    if count == 0 {
        0
    } else {
        bytes[offset] as nat + 256 * le_value(bytes, offset + 1, (count - 1) as nat)
    }
}

/// The `count` little-endian bytes of `value`.
pub open spec fn le_bytes(value: nat, count: nat) -> Seq<u8>
    decreases count,
{
    if count == 0 {
        Seq::empty()
    } else {
        seq![(value % 256) as u8] + le_bytes(value / 256, (count - 1) as nat)
    }
}

/// Reading back the little-endian bytes of a value that fits gives the value.
pub proof fn lemma_le_round_trip(value: nat, count: nat, prefix: Seq<u8>, suffix: Seq<u8>)
    requires
        value < pow256(count),
    ensures
        le_value(prefix + le_bytes(value, count) + suffix, prefix.len() as int, count) == value,
        le_bytes(value, count).len() == count,
    decreases count,
{
    if count > 0 {
        let rest = le_bytes(value / 256, (count - 1) as nat);
        let whole = prefix + le_bytes(value, count) + suffix;
        let shifted = prefix.push((value % 256) as u8);
        assert(whole =~= shifted + rest + suffix);
        assert(value / 256 < pow256((count - 1) as nat)) by {
            assert(pow256(count) == 256 * pow256((count - 1) as nat));
        }
        lemma_le_round_trip(value / 256, (count - 1) as nat, shifted, suffix);
    }
}

pub open spec fn pow256(count: nat) -> nat
    decreases count,
{
    if count == 0 {
        1
    } else {
        256 * pow256((count - 1) as nat)
    }
}

pub fn put_u16(output: &mut Vec<u8>, value: u16)
    ensures
        final(output)@ == old(output)@ + le_bytes(value as nat, 2),
{
    proof {
        reveal_with_fuel(le_bytes, 3);
    }
    output.push((value % 256) as u8);
    output.push((value / 256) as u8);
    proof {
        assert(final(output)@ =~= old(output)@ + le_bytes(value as nat, 2));
    }
}

pub fn put_u32(output: &mut Vec<u8>, value: u32)
    ensures
        final(output)@ == old(output)@ + le_bytes(value as nat, 4),
{
    proof {
        reveal_with_fuel(le_bytes, 5);
    }
    let r1 = value / 256;
    let r2 = r1 / 256;
    let r3 = r2 / 256;
    output.push((value % 256) as u8);
    output.push((r1 % 256) as u8);
    output.push((r2 % 256) as u8);
    output.push((r3 % 256) as u8);
    proof {
        assert(r3 / 256 == 0);
        assert(final(output)@ =~= old(output)@ + le_bytes(value as nat, 4));
    }
}

pub fn put_u64(output: &mut Vec<u8>, value: u64)
    ensures
        final(output)@ == old(output)@ + le_bytes(value as nat, 8),
{
    proof {
        reveal_with_fuel(le_bytes, 9);
    }
    let mut rest = value;
    let mut index: usize = 0;
    let ghost start = old(output)@;
    while index < 8
        invariant
            index <= 8,
            start == old(output)@,
            le_bytes(value as nat, 8) == output@.subrange(start.len() as int, output@.len() as int)
                + le_bytes(rest as nat, (8 - index) as nat),
            output@.subrange(0, start.len() as int) == start,
            output@.len() == start.len() + index,
        decreases 8 - index,
    {
        let ghost before = output@;
        proof {
            assert(le_bytes(rest as nat, (8 - index) as nat) == seq![(rest % 256) as u8]
                + le_bytes((rest / 256) as nat, (8 - index - 1) as nat));
        }
        output.push((rest % 256) as u8);
        proof {
            assert(output@.subrange(start.len() as int, output@.len() as int) =~= before.subrange(
                start.len() as int,
                before.len() as int,
            ).push((rest % 256) as u8));
            assert(output@.subrange(0, start.len() as int) =~= before.subrange(0, start.len() as int));
        }
        rest = rest / 256;
        index = index + 1;
    }
    proof {
        assert(final(output)@ =~= old(output)@ + le_bytes(value as nat, 8));
    }
}

pub fn get_u16(input: &[u8], offset: usize) -> (r: Result<u16, CodecError>)
    ensures
        r is Ok <==> offset + 2 <= input.len(),
        r matches Ok(value) ==> value == le_value(input@, offset as int, 2),
        r is Err ==> r matches Err(CodecError::Malformed(_)),
{
    if offset > input.len() || input.len() - offset < 2 {
        return Err(CodecError::Malformed("truncated integer"));
    }
    proof {
        reveal_with_fuel(le_value, 3);
    }
    Ok(input[offset] as u16 + 256 * (input[offset + 1] as u16))
}

pub fn get_u32(input: &[u8], offset: usize) -> (r: Result<u32, CodecError>)
    ensures
        r is Ok <==> offset + 4 <= input.len(),
        r matches Ok(value) ==> value == le_value(input@, offset as int, 4),
        r is Err ==> r matches Err(CodecError::Malformed(_)),
{
    if offset > input.len() || input.len() - offset < 4 {
        return Err(CodecError::Malformed("truncated integer"));
    }
    proof {
        reveal_with_fuel(le_value, 5);
    }
    let b0 = input[offset] as u32;
    let b1 = input[offset + 1] as u32;
    let b2 = input[offset + 2] as u32;
    let b3 = input[offset + 3] as u32;
    Ok(b0 + 256 * (b1 + 256 * (b2 + 256 * b3)))
}

pub fn get_u64(input: &[u8], offset: usize) -> (r: Result<u64, CodecError>)
    ensures
        r is Ok <==> offset + 8 <= input.len(),
        r matches Ok(value) ==> value == le_value(input@, offset as int, 8),
        r is Err ==> r matches Err(CodecError::Malformed(_)),
{
    if offset > input.len() || input.len() - offset < 8 {
        return Err(CodecError::Malformed("truncated integer"));
    }
    let mut value: u64 = 0;
    let mut index: usize = 8;
    while index > 0
        invariant
            index <= 8,
            offset + 8 <= input.len(),
            value == le_value(input@, offset + index, (8 - index) as nat),
            value < pow256((8 - index) as nat),
        decreases index,
    {
        proof {
            reveal_with_fuel(pow256, 9);
        }
        let byte = input[offset + index - 1] as u64;
        value = byte + 256 * value;
        index = index - 1;
    }
    Ok(value)
}


// ---------------------------------------------------------------------------
// LEB128-style variable integers
// ---------------------------------------------------------------------------

/// Canonical variable-length encoding: seven bits per byte, low groups first,
/// the high bit set on every byte but the last.
pub open spec fn spec_varint(value: nat) -> Seq<u8>
    decreases value,
{
    if value < 128 {
        seq![value as u8]
    } else {
        seq![(value % 128 + 128) as u8] + spec_varint(value / 128)
    }
}

/// Number of bytes of the canonical encoding of `value`.
pub open spec fn spec_varint_length(value: nat) -> nat {
    if value < 0x80 {
        1
    } else if value < 0x4000 {
        2
    } else if value < 0x20_0000 {
        3
    } else if value < 0x1000_0000 {
        4
    } else {
        5
    }
}

/// Value of little-endian seven-bit groups.
pub open spec fn septet_value(bytes: Seq<u8>) -> nat
    decreases bytes.len(),
{
    if bytes.len() == 0 {
        0
    } else {
        (bytes[0] % 128) as nat + 128 * septet_value(bytes.drop_first())
    }
}

/// `input` holds the canonical encoding of `value` at `start`.
pub open spec fn varint_at(input: Seq<u8>, start: int, value: u32) -> bool {
    &&& 0 <= start
    &&& start + spec_varint(value as nat).len() <= input.len()
    &&& input.subrange(start, start + spec_varint(value as nat).len() as int) == spec_varint(
        value as nat,
    )
}

/// A varint has continuation bits on all but its last byte, no trailing zero byte, and reads back as its value.
pub proof fn lemma_varint_shape(value: nat)
    ensures
        spec_varint(value).len() >= 1,
        forall|k: int| 0 <= k < spec_varint(value).len() - 1 ==> #[trigger] spec_varint(value)[k] >= 128,
        spec_varint(value).last() < 128,
        septet_value(spec_varint(value)) == value,
        spec_varint(value).len() > 1 ==> spec_varint(value).last() != 0,
    decreases value,
{
    if value < 128 {
        assert(spec_varint(value).drop_first() =~= Seq::<u8>::empty());
        assert(septet_value(Seq::<u8>::empty()) == 0);
    } else {
        lemma_varint_shape(value / 128);
        let rest = spec_varint(value / 128);
        let whole = spec_varint(value);
        assert(whole.drop_first() =~= rest);
        assert(whole[0] % 128 == value % 128);
        assert(septet_value(whole) == (whole[0] % 128) as nat + 128 * septet_value(whole.drop_first()));
        assert forall|k: int| 0 <= k < whole.len() - 1 implies #[trigger] whole[k] >= 128 by {
            if k > 0 {
                assert(whole[k] == rest[k - 1]);
            }
        }
    }
}

/// Variable integers are self-delimiting: two values whose encodings both start
/// at `start` of `input` are equal.
pub proof fn lemma_varint_at_unique(input: Seq<u8>, start: int, a: u32, b: u32)
    requires
        varint_at(input, start, a),
        varint_at(input, start, b),
    ensures
        a == b,
{
    lemma_varint_shape(a as nat);
    lemma_varint_shape(b as nat);
    let ea = spec_varint(a as nat);
    let eb = spec_varint(b as nat);
    if ea.len() < eb.len() {
        assert(ea[ea.len() - 1] == input[start + ea.len() - 1]);
        assert(eb[ea.len() - 1] == input[start + ea.len() - 1]);
        assert(eb[ea.len() - 1] >= 128);
    } else if eb.len() < ea.len() {
        assert(eb[eb.len() - 1] == input[start + eb.len() - 1]);
        assert(ea[eb.len() - 1] == input[start + eb.len() - 1]);
        assert(ea[eb.len() - 1] >= 128);
    } else {
        assert(ea =~= eb);
    }
}

/// The encoding of `value` at the front of `input.subrange(start, ..)`.
pub proof fn lemma_varint_at_front(input: Seq<u8>, start: int, value: u32, rest: Seq<u8>)
    requires
        0 <= start <= input.len(),
        input.subrange(start, input.len() as int) == spec_varint(value as nat) + rest,
    ensures
        varint_at(input, start, value),
        input.subrange(start + spec_varint(value as nat).len(), input.len() as int) == rest,
{
    let e = spec_varint(value as nat);
    let tail = input.subrange(start, input.len() as int);
    assert(input.subrange(start, start + e.len()) =~= tail.subrange(0, e.len() as int));
    assert(tail.subrange(0, e.len() as int) =~= e);
    assert(input.subrange(start + e.len(), input.len() as int) =~= tail.subrange(e.len() as int, tail.len() as int));
    assert(tail.subrange(e.len() as int, tail.len() as int) =~= rest);
}

/// The length of a varint is `spec_varint_length` of its value.
pub proof fn lemma_varint_length(value: nat)
    requires
        value <= u32::MAX,
    ensures
        spec_varint(value).len() == spec_varint_length(value),
    decreases value,
{
    reveal_with_fuel(spec_varint, 2);
    if value >= 128 {
        lemma_varint_length(value / 128);
    }
}

/// The fifth byte of a 32-bit value's varint holds at most four bits.
pub proof fn lemma_varint_top_byte(value: nat)
    requires
        value <= u32::MAX,
        spec_varint(value).len() == 5,
    ensures
        spec_varint(value)[4] <= 15,
{
    reveal_with_fuel(spec_varint, 6);
    lemma_varint_length(value);
    let a = value / 128;
    let b = a / 128;
    let c = b / 128;
    let d = c / 128;
    assert(d <= 15) by {
        assert(value <= 0xffff_ffff);
        assert(a <= 0x1ff_ffff);
        assert(b <= 0x3_ffff);
        assert(c <= 0x7ff);
    }
}

/// Canonical decoding: bytes that continue up to a final byte, with no redundant
/// zero group, are the encoding of their septet value.
pub proof fn lemma_varint_decode(bytes: Seq<u8>)
    requires
        bytes.len() >= 1,
        forall|k: int| 0 <= k < bytes.len() - 1 ==> #[trigger] bytes[k] >= 128,
        bytes.last() < 128,
        bytes.len() > 1 ==> bytes.last() != 0,
    ensures
        spec_varint(septet_value(bytes)) == bytes,
        bytes.len() > 1 ==> septet_value(bytes) >= 128,
    decreases bytes.len(),
{
    if bytes.len() == 1 {
        assert(septet_value(bytes.drop_first()) == 0);
        assert(spec_varint(septet_value(bytes)) =~= bytes);
    } else {
        let rest = bytes.drop_first();
        assert forall|k: int| 0 <= k < rest.len() - 1 implies #[trigger] rest[k] >= 128 by {
            assert(rest[k] == bytes[k + 1]);
        }
        lemma_varint_decode(rest);
        if rest.len() == 1 {
            assert(septet_value(rest.drop_first()) == 0);
            assert(septet_value(rest) == rest[0] % 128);
        }
        let value = septet_value(bytes);
        assert(septet_value(rest) >= 1);
        assert(value == (bytes[0] % 128) as nat + 128 * septet_value(rest));
        assert(value / 128 == septet_value(rest));
        assert(value % 128 == bytes[0] % 128);
        assert(spec_varint(value) =~= bytes);
    }
}

proof fn lemma_septet_value_push(bytes: Seq<u8>, byte: u8, scale: nat)
    requires
        scale == pow128(bytes.len()),
    ensures
        septet_value(bytes.push(byte)) == septet_value(bytes) + (byte % 128) as nat * scale,
    decreases bytes.len(),
{
    if bytes.len() == 0 {
        assert(bytes.push(byte).drop_first() =~= Seq::<u8>::empty());
        assert(septet_value(Seq::<u8>::empty()) == 0);
        assert(septet_value(bytes) == 0);
    } else {
        assert(bytes.push(byte).drop_first() =~= bytes.drop_first().push(byte));
        assert(bytes.push(byte)[0] == bytes[0]);
        lemma_septet_value_push(bytes.drop_first(), byte, pow128(bytes.drop_first().len()));
        assert((byte % 128) as nat * scale == 128 * ((byte % 128) as nat * pow128(
            bytes.drop_first().len(),
        ))) by (nonlinear_arith)
            requires
                scale == 128 * pow128(bytes.drop_first().len()),
        ;
    }
}

proof fn lemma_septet_value_bound(bytes: Seq<u8>)
    ensures
        septet_value(bytes) < pow128(bytes.len()),
    decreases bytes.len(),
{
    if bytes.len() > 0 {
        lemma_septet_value_bound(bytes.drop_first());
    }
}

pub open spec fn pow128(count: nat) -> nat
    decreases count,
{
    if count == 0 {
        1
    } else {
        128 * pow128((count - 1) as nat)
    }
}

pub fn varint_length(value: u32) -> (length: usize)
    ensures
        length == spec_varint_length(value as nat),
        length == spec_varint(value as nat).len(),
{
    proof {
        lemma_varint_length(value as nat);
    }
    if value < 0x80 {
        1
    } else if value < 0x4000 {
        2
    } else if value < 0x20_0000 {
        3
    } else if value < 0x1000_0000 {
        4
    } else {
        5
    }
}

pub fn put_varint(output: &mut Vec<u8>, value: u32)
    ensures
        final(output)@ == old(output)@ + spec_varint(value as nat),
{
    let ghost start = old(output)@;
    let mut rest = value;
    loop
        invariant
            start == old(output)@,
            output@.len() >= start.len(),
            output@.subrange(0, start.len() as int) == start,
            spec_varint(value as nat) == output@.subrange(start.len() as int, output@.len() as int)
                + spec_varint(rest as nat),
        decreases rest,
    {
        let low = (rest % 128) as u8;
        let next = rest / 128;
        let ghost before = output@;
        if next == 0 {
            output.push(low);
            proof {
                assert(spec_varint(rest as nat) =~= seq![low]);
                assert(output@ =~= start + spec_varint(value as nat)) by {
                    assert(output@.subrange(start.len() as int, output@.len() as int) =~= before.subrange(
                        start.len() as int,
                        before.len() as int,
                    ).push(low));
                }
            }
            return;
        }
        let marked = low + 128;
        output.push(marked);
        proof {
            assert(spec_varint(rest as nat) == seq![marked] + spec_varint(next as nat));
            assert(output@.subrange(start.len() as int, output@.len() as int) =~= before.subrange(
                start.len() as int,
                before.len() as int,
            ).push(marked));
            assert(output@.subrange(0, start.len() as int) =~= before.subrange(0, start.len() as int));
        }
        rest = next;
    }
}

/// Reads one canonical variable integer at `*cursor` and advances past it.
pub fn get_varint(input: &[u8], cursor: &mut usize) -> (r: Result<u32, CodecError>)
    ensures
        r matches Ok(value) ==> varint_at(input@, *old(cursor) as int, value) && *final(cursor)
            == *old(cursor) + spec_varint(value as nat).len(),
        r is Err <==> forall|value: u32| !varint_at(input@, *old(cursor) as int, value),
        r is Err ==> r matches Err(CodecError::Malformed(_)),
{
    let start = *cursor;
    if start >= input.len() {
        proof {
            assert forall|v: u32| !varint_at(input@, start as int, v) by {
                lemma_varint_shape(v as nat);
            }
        }
        return Err(CodecError::Malformed("truncated variable integer"));
    }
    let mut value: u32 = 0;
    let mut scale: u32 = 1;
    let mut index: usize = 0;
    proof {
        assert(input@.subrange(start as int, start as int) =~= Seq::<u8>::empty());
        assert(septet_value(Seq::<u8>::empty()) == 0);
        assert forall|v: u32| varint_at(input@, start as int, v) implies 0
            < #[trigger] spec_varint(v as nat).len() by {
            lemma_varint_shape(v as nat);
        }
    }
    while index < 5
        invariant
            index <= 5,
            *cursor == start + index,
            start == *old(cursor),
            start + index <= input.len(),
            scale == pow128(index as nat),
            index < 5 ==> scale <= 0x1000_0000,
            forall|k: int| 0 <= k < index ==> #[trigger] input@[start + k] >= 128,
            value == septet_value(input@.subrange(start as int, start + index)),
            value < pow128(index as nat),
            forall|v: u32|
                varint_at(input@, start as int, v) ==> index < #[trigger] spec_varint(v as nat).len(),
        decreases 5 - index,
    {
        if *cursor >= input.len() {
            proof {
                assert forall|v: u32| !varint_at(input@, start as int, v) by {
                    if varint_at(input@, start as int, v) {
                        assert(index < spec_varint(v as nat).len());
                    }
                }
            }
            return Err(CodecError::Malformed("truncated variable integer"));
        }
        let byte = input[*cursor];
        *cursor = *cursor + 1;
        let ghost prefix = input@.subrange(start as int, start + index);
        proof {
            assert(input@.subrange(start as int, start + index + 1) =~= prefix.push(byte));
            lemma_septet_value_push(prefix, byte, scale as nat);
            lemma_septet_value_bound(prefix.push(byte));
            reveal_with_fuel(pow128, 6);
        }
        if index == 4 && byte > 0x0f {
            proof {
                assert forall|v: u32| !varint_at(input@, start as int, v) by {
                    if varint_at(input@, start as int, v) {
                        lemma_varint_length(v as nat);
                        lemma_varint_top_byte(v as nat);
                        assert(spec_varint(v as nat)[4] == input@[start + 4]);
                    }
                }
            }
            return Err(CodecError::Malformed("variable integer overflow"));
        }
        proof {
            let low = (byte % 128) as int;
            if index < 4 {
                assert(value + low * scale < 128 * scale) by (nonlinear_arith)
                    requires value < scale, 0 <= low <= 127;
                assert(scale <= 0x20_0000);
            } else {
                assert(scale == 0x1000_0000);
                assert(value + low * scale < 16 * scale) by (nonlinear_arith)
                    requires value < scale, 0 <= low <= 15;
            }
        }
        value = value + (byte % 128) as u32 * scale;
        if byte < 128 {
            let ghost bytes = input@.subrange(start as int, start + index + 1);
            if *cursor - start != varint_length(value) {
                proof {
                    assert forall|v: u32| !varint_at(input@, start as int, v) by {
                        if varint_at(input@, start as int, v) {
                            lemma_varint_shape(v as nat);
                            let sv = spec_varint(v as nat);
                            assert(index < sv.len());
                            if index + 1 < sv.len() {
                                assert(sv[index as int] == input@[start + index]);
                            }
                            assert(sv =~= bytes);
                        }
                    }
                }
                return Err(CodecError::Malformed("non-canonical variable integer"));
            }
            proof {
                assert forall|k: int| 0 <= k < bytes.len() - 1 implies #[trigger] bytes[k] >= 128 by {
                    assert(bytes[k] == input@[start + k]);
                }
                if bytes.len() > 1 && bytes.last() == 0 {
                    let front = bytes.drop_last();
                    assert(front.push(0u8) =~= bytes);
                    lemma_septet_value_push(front, 0u8, pow128(index as nat));
                    assert((0u8 % 128) as nat * pow128(index as nat) == 0) by (nonlinear_arith);
                    assert(septet_value(front.push(0u8)) == septet_value(front));
                    assert(septet_value(bytes) == septet_value(front));
                    lemma_septet_value_bound(bytes.drop_last());
                    lemma_varint_length(value as nat);
                    assert(pow128(index as nat) <= 0x1000_0000);
                    assert(false);
                }
                lemma_varint_decode(bytes);
                assert(varint_at(input@, start as int, value));
            }
            return Ok(value);
        }
        if index < 4 {
            scale = scale * 128;
        }
        index = index + 1;
        proof {
            assert forall|v: u32| varint_at(input@, start as int, v) implies index
                < #[trigger] spec_varint(v as nat).len() by {
                lemma_varint_shape(v as nat);
                let sv = spec_varint(v as nat);
                if index >= sv.len() {
                    assert(sv[sv.len() - 1] == input@[start + sv.len() - 1]);
                }
            }
        }
    }
    proof {
        assert forall|v: u32| !varint_at(input@, start as int, v) by {
            if varint_at(input@, start as int, v) {
                lemma_varint_length(v as nat);
            }
        }
    }
    Err(CodecError::Malformed("variable integer overflow"))
}

/// A canonical variable integer reads back as the value that was written.
pub proof fn lemma_varint_round_trip(prefix: Seq<u8>, value: u32, suffix: Seq<u8>)
    ensures
        varint_at(prefix + spec_varint(value as nat) + suffix, prefix.len() as int, value),
{
    let whole = prefix + spec_varint(value as nat) + suffix;
    assert(whole.subrange(prefix.len() as int, prefix.len() + spec_varint(value as nat).len() as int)
        =~= spec_varint(value as nat));
}

} // verus!
