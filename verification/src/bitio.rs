use crate::model::CodecError;
use vstd::prelude::*;

verus! {

/// Bit `index` (least significant first) of a byte.
pub open spec fn byte_bit(byte: u8, index: int) -> bool {
    (byte >> (index as u8)) & 1u8 == 1u8
}

/// Bit `index` (least significant first) of a word.
pub open spec fn word_bit(value: u64, index: int) -> bool {
    (value >> (index as u64)) & 1u64 == 1u64
}

/// The bits of a byte string, least significant bit of each byte first.
pub open spec fn bytes_bits(bytes: Seq<u8>) -> Seq<bool> {
    Seq::new(8 * bytes.len(), |i: int| byte_bit(bytes[i / 8], i % 8))
}

/// The low `count` bits of `value`, least significant first.
pub open spec fn value_bits(value: u64, count: nat) -> Seq<bool> {
    Seq::new(count, |i: int| word_bit(value, i))
}

pub open spec fn zero_bits(count: nat) -> Seq<bool> {
    Seq::new(count, |i: int| false)
}

/// Rice code of `value` with parameter `parameter`: the quotient in unary as zeros
/// ended by a one, then the low `parameter` bits of the value.
pub open spec fn rice_bits(value: u32, parameter: nat) -> Seq<bool> {
    zero_bits((value >> (parameter as u32)) as nat).push(true) + value_bits(value as u64, parameter)
}

proof fn lemma_set_byte_bit(current: u8, bit: u8, used: u8, index: u8)
    by (bit_vector)
    requires
        used < 8,
        current >> used == 0,
        bit <= 1,
        index <= used,
    ensures
        ((current | (bit << used)) >> index) & 1 == if index < used {
            (current >> index) & 1
        } else {
            bit
        },
        used < 7 ==> (current | (bit << used)) >> ((used + 1) as u8) == 0,
{
}

proof fn lemma_set_word_bit(current: u64, bit: u64, used: u64, index: u64)
    by (bit_vector)
    requires
        used < 64,
        current >> used == 0,
        bit <= 1,
        index <= used,
    ensures
        ((current | (bit << used)) >> index) & 1 == if index < used {
            (current >> index) & 1
        } else {
            bit
        },
        (current | (bit << used)) >> ((used + 1) as u64) == 0,
{
}

proof fn lemma_bytes_bits_push(bytes: Seq<u8>, byte: u8)
    ensures
        bytes_bits(bytes.push(byte)) == bytes_bits(bytes) + Seq::new(8, |i: int| byte_bit(byte, i)),
{
    let left = bytes_bits(bytes.push(byte));
    let right = bytes_bits(bytes) + Seq::new(8, |i: int| byte_bit(byte, i));
    assert forall|i: int| 0 <= i < left.len() implies left[i] == right[i] by {
        if i < 8 * bytes.len() {
            assert(i / 8 < bytes.len()) by (nonlinear_arith)
                requires
                    0 <= i < 8 * bytes.len(),
            ;
        } else {
            assert(i / 8 == bytes.len());
        }
    }
    assert(left =~= right);
}

/// `bits` holds the Rice code of `value` at `position`.
pub open spec fn rice_at(bits: Seq<bool>, position: int, value: u32, parameter: nat) -> bool {
    &&& 0 <= position
    &&& position + rice_bits(value, parameter).len() <= bits.len()
    &&& bits.subrange(position, position + rice_bits(value, parameter).len()) == rice_bits(value, parameter)
}

proof fn lemma_low_mask_step(a: u64, b: u64, q: u64)
    by (bit_vector)
    requires
        q < 63,
        a & (((1u64 << q) - 1) as u64) == b & (((1u64 << q) - 1) as u64),
        ((a >> q) & 1u64 == 1u64) == ((b >> q) & 1u64 == 1u64),
    ensures
        a & (((1u64 << ((q + 1) as u64)) - 1) as u64) == b & (((1u64 << ((q + 1) as u64)) - 1) as u64),
{
}

/// Words whose low `p` bits agree agree under the mask of those bits.
proof fn lemma_low_bits_agree(a: u64, b: u64, p: u64)
    requires
        p < 64,
        forall|i: int| 0 <= i < p ==> word_bit(a, i) == word_bit(b, i),
    ensures
        a & (((1u64 << p) - 1) as u64) == b & (((1u64 << p) - 1) as u64),
    decreases p,
{
    if p == 0 {
        assert(a & (((1u64 << 0u64) - 1) as u64) == 0 && b & (((1u64 << 0u64) - 1) as u64) == 0) by (bit_vector);
    } else {
        let q = (p - 1) as u64;
        lemma_low_bits_agree(a, b, q);
        assert(word_bit(a, q as int) == word_bit(b, q as int));
        lemma_low_mask_step(a, b, q);
    }
}

proof fn lemma_mask_keeps_small(x: u64, w: u64)
    by (bit_vector)
    requires
        w < 64,
        x >> w == 0,
    ensures
        x & (((1u64 << w) - 1) as u64) == x,
{
}

/// Words below `2^width` are determined by their low `width` bits.
pub proof fn lemma_value_bits_injective(a: u64, b: u64, width: nat)
    requires
        width < 64,
        value_bits(a, width) == value_bits(b, width),
        a >> (width as u64) == 0,
        b >> (width as u64) == 0,
    ensures
        a == b,
{
    assert forall|i: int| 0 <= i < width implies #[trigger] word_bit(a, i) == word_bit(b, i) by {
        assert(value_bits(a, width)[i] == word_bit(a, i));
        assert(value_bits(b, width)[i] == word_bit(b, i));
        assert(value_bits(a, width)[i] == value_bits(b, width)[i]);
    }
    lemma_low_bits_agree(a, b, width as u64);
    lemma_mask_keeps_small(a, width as u64);
    lemma_mask_keeps_small(b, width as u64);
}

/// A Rice quotient and the low bits of a value give the value back.
proof fn lemma_rice_value(v: u32, rem: u32, p: u32)
    by (bit_vector)
    requires
        p < 32,
        (rem as u64) >> (p as u64) == 0,
        (rem as u64) & (((1u64 << (p as u64)) - 1) as u64) == (v as u64) & (((1u64 << (p as u64)) - 1) as u64),
    ensures
        (((v >> p) << p) as int) + (rem as int) == v as int,
        v >> p <= v,
{
}

/// Appends bits to a byte vector, least significant bit of each byte first.
pub struct BitWriter {
    output: Vec<u8>,
    current: u8,
    used: u8,
}

impl BitWriter {
    pub closed spec fn wf(&self) -> bool {
        &&& self.used < 8
        &&& self.current >> self.used == 0
    }

    /// All bits written so far, including those already in the output before.
    pub closed spec fn bits(&self) -> Seq<bool> {
        bytes_bits(self.output@) + Seq::new(self.used as nat, |i: int| byte_bit(self.current, i))
    }

    pub fn new(output: Vec<u8>) -> (writer: BitWriter)
        ensures
            writer.wf(),
            writer.bits() == bytes_bits(output@),
    {
        let writer = BitWriter { output, current: 0, used: 0 };
        proof {
            assert(0u8 >> 0u8 == 0) by (bit_vector);
            assert(writer.bits() =~= bytes_bits(output@));
        }
        writer
    }

    pub fn put_bit(&mut self, bit: bool)
        requires
            old(self).wf(),
        ensures
            final(self).wf(),
            final(self).bits() == old(self).bits().push(bit),
    {
        let value: u8 = if bit {
            1
        } else {
            0
        };
        let ghost old_bits = self.bits();
        let ghost old_current = self.current;
        let used = self.used;
        let updated = self.current | (value << used);
        proof {
            assert forall|i: int| 0 <= i <= used implies byte_bit(updated, i) == if i < used {
                byte_bit(old_current, i)
            } else {
                bit
            } by {
                lemma_set_byte_bit(old_current, value, used, i as u8);
            }
            lemma_set_byte_bit(old_current, value, used, used);
        }
        if used == 7 {
            let ghost before = self.output@;
            self.output.push(updated);
            self.current = 0;
            self.used = 0;
            proof {
                lemma_bytes_bits_push(before, updated);
                assert(0u8 >> 0u8 == 0) by (bit_vector);
                assert(self.bits() =~= old_bits.push(bit));
            }
        } else {
            self.current = updated;
            self.used = used + 1;
            proof {
                assert(self.bits() =~= old_bits.push(bit));
            }
        }
    }

    /// Writes the low `count` bits of `value`, least significant first.
    pub fn put_bits(&mut self, value: u32, count: u8)
        requires
            old(self).wf(),
            count <= 32,
        ensures
            final(self).wf(),
            final(self).bits() == old(self).bits() + value_bits(value as u64, count as nat),
    {
        let wide = value as u64;
        let mut index: u8 = 0;
        while index < count
            invariant
                self.wf(),
                index <= count,
                count <= 32,
                wide == value as u64,
                self.bits() == old(self).bits() + value_bits(wide, index as nat),
            decreases count - index,
        {
            let bit = (wide >> index) & 1 == 1;
            let ghost before = self.bits();
            self.put_bit(bit);
            proof {
                assert(value_bits(wide, index as nat + 1) =~= value_bits(wide, index as nat).push(
                    bit,
                ));
                assert(self.bits() =~= old(self).bits() + value_bits(wide, index as nat + 1));
            }
            index = index + 1;
        }
    }

    /// Writes `count` zero bits.
    pub fn put_zeros(&mut self, count: u32)
        requires
            old(self).wf(),
        ensures
            final(self).wf(),
            final(self).bits() == old(self).bits() + zero_bits(count as nat),
    {
        let mut index: u32 = 0;
        while index < count
            invariant
                self.wf(),
                index <= count,
                self.bits() == old(self).bits() + zero_bits(index as nat),
            decreases count - index,
        {
            self.put_bit(false);
            proof {
                assert(zero_bits(index as nat + 1) =~= zero_bits(index as nat).push(false));
                assert(self.bits() =~= old(self).bits() + zero_bits(index as nat + 1));
            }
            index = index + 1;
        }
    }

    /// Writes the Rice code of `value` with parameter `parameter`.
    pub fn put_rice(&mut self, value: u32, parameter: u8)
        requires
            old(self).wf(),
            parameter < 32,
        ensures
            final(self).wf(),
            final(self).bits() == old(self).bits() + rice_bits(value, parameter as nat),
    {
        let quotient = value >> parameter;
        self.put_zeros(quotient);
        self.put_bit(true);
        self.put_bits(value, parameter);
        proof {
            assert(self.bits() =~= old(self).bits() + rice_bits(value, parameter as nat));
        }
    }

    /// Writes the Rice codes of four values with one compile-time parameter.
    pub fn put_rice4_specialized<const RICE_PARAMETER: u8>(&mut self, values: [u32; 4])
        requires
            old(self).wf(),
            RICE_PARAMETER < 32,
        ensures
            final(self).wf(),
            final(self).bits() == old(self).bits() + rice_bits(values[0], RICE_PARAMETER as nat)
                + rice_bits(values[1], RICE_PARAMETER as nat) + rice_bits(
                values[2],
                RICE_PARAMETER as nat,
            ) + rice_bits(values[3], RICE_PARAMETER as nat),
    {
        self.put_rice(values[0], RICE_PARAMETER);
        self.put_rice(values[1], RICE_PARAMETER);
        self.put_rice(values[2], RICE_PARAMETER);
        self.put_rice(values[3], RICE_PARAMETER);
    }

    /// Pads the last byte with zero bits and returns the output.
    pub fn finish(self) -> (output: Vec<u8>)
        requires
            self.wf(),
        ensures
            output.len() == (self.bits().len() + 7) / 8,
            bytes_bits(output@).take(self.bits().len() as int) == self.bits(),
            forall|i: int|
                self.bits().len() <= i < bytes_bits(output@).len() ==> !#[trigger] bytes_bits(
                    output@,
                )[i],
    {
        let ghost bits = self.bits();
        let BitWriter { output, current, used } = self;
        let mut output = output;
        if used != 0 {
            let ghost before = output@;
            output.push(current);
            proof {
                lemma_bytes_bits_push(before, current);
                assert(bytes_bits(output@).take(bits.len() as int) =~= bits);
                assert forall|i: int| bits.len() <= i < bytes_bits(output@).len() implies !#[trigger] bytes_bits(
                    output@,
                )[i] by {
                    let k = (i - 8 * before.len()) as u8;
                    assert(current >> used == 0);
                    assert(k >= used && k < 8);
                    assert((current >> k) & 1 == 0) by (bit_vector)
                        requires
                            current >> used == 0,
                            used <= k < 8,
                    ;
                }
            }
        } else {
            proof {
                assert(bytes_bits(output@).take(bits.len() as int) =~= bits);
            }
        }
        output
    }
}

/// Reads bits from a byte string, least significant bit of each byte first.
pub struct BitReader<'a> {
    input: &'a [u8],
    cursor: usize,
    bit: u8,
}

impl<'a> BitReader<'a> {
    pub closed spec fn wf(&self) -> bool {
        &&& self.bit < 8
        &&& self.cursor <= self.input.len()
        &&& self.cursor == self.input.len() ==> self.bit == 0
    }

    /// Bits of the whole input.
    pub closed spec fn bits(&self) -> Seq<bool> {
        bytes_bits(self.input@)
    }

    pub closed spec fn input_bytes(&self) -> Seq<u8> {
        self.input@
    }

    /// Number of bits consumed so far.
    pub closed spec fn position(&self) -> int {
        8 * self.cursor + self.bit
    }

    pub fn new(input: &'a [u8]) -> (reader: BitReader<'a>)
        ensures
            reader.wf(),
            reader.input_bytes() == input@,
            reader.bits() == bytes_bits(input@),
            reader.position() == 0,
    {
        BitReader { input, cursor: 0, bit: 0 }
    }

    /// The next bit, or `None` at the end of the input.
    pub fn get_bit(&mut self) -> (r: Option<bool>)
        requires
            old(self).wf(),
        ensures
            final(self).wf(),
            final(self).input_bytes() == old(self).input_bytes(),
            final(self).bits() == old(self).bits(),
            old(self).position() <= old(self).bits().len(),
            r is Some <==> old(self).position() < old(self).bits().len(),
            r matches Some(bit) ==> bit == old(self).bits()[old(self).position()]
                && final(self).position() == old(self).position() + 1,
            r is None ==> final(self).position() == old(self).position(),
    {
        if self.cursor >= self.input.len() {
            return None;
        }
        let byte = self.input[self.cursor];
        let bit = (byte >> self.bit) & 1 == 1;
        proof {
            let p = 8 * self.cursor + self.bit;
            assert(p / 8 == self.cursor);
            assert(p % 8 == self.bit);
        }
        if self.bit == 7 {
            self.cursor = self.cursor + 1;
            self.bit = 0;
        } else {
            self.bit = self.bit + 1;
        }
        Some(bit)
    }

    /// Number of bits left, capped at 64.
    fn remaining_bits(&self) -> (remaining: u32)
        requires
            self.wf(),
        ensures
            remaining == if self.bits().len() - self.position() < 64 {
                self.bits().len() - self.position()
            } else {
                64
            },
    {
        let bytes_left = self.input.len() - self.cursor;
        if bytes_left >= 9 {
            64
        } else {
            (bytes_left * 8) as u32 - self.bit as u32
        }
    }

    /// The next `count` bits as a little-endian number.
    pub fn get_bits(&mut self, count: u8) -> (r: Result<u32, CodecError>)
        requires
            old(self).wf(),
            count <= 32,
        ensures
            final(self).wf(),
            final(self).input_bytes() == old(self).input_bytes(),
            final(self).bits() == old(self).bits(),
            r is Ok <==> old(self).position() + count <= old(self).bits().len(),
            r matches Ok(value) ==> {
                &&& final(self).position() == old(self).position() + count
                &&& value_bits(value as u64, count as nat) == old(self).bits().subrange(
                    old(self).position(),
                    old(self).position() + count,
                )
                &&& (value as u64) >> (count as u64) == 0
            },
            r is Err ==> r matches Err(CodecError::Malformed(_)),
    {
        if self.remaining_bits() < count as u32 {
            return Err(CodecError::Malformed("truncated Rice payload"));
        }
        let ghost start = self.position();
        let ghost all = self.bits();
        let mut value: u64 = 0;
        let mut index: u8 = 0;
        proof {
            assert(0u64 >> 0u64 == 0) by (bit_vector);
            assert(value_bits(0, 0) =~= all.subrange(start, start));
        }
        while index < count
            invariant
                self.wf(),
                self.input_bytes() == old(self).input_bytes(),
                self.bits() == all,
                all == old(self).bits(),
                start == old(self).position(),
                index <= count,
                count <= 32,
                start + count <= all.len(),
                self.position() == start + index,
                value_bits(value, index as nat) == all.subrange(start, start + index),
                value >> (index as u64) == 0,
            decreases count - index,
        {
            let next = self.get_bit();
            let bit = match next {
                Some(bit) => bit,
                None => {
                    return Err(CodecError::Malformed("truncated Rice payload"));
                },
            };
            let flag: u64 = if bit {
                1
            } else {
                0
            };
            let ghost old_value = value;
            value = value | (flag << (index as u64));
            proof {
                assert forall|i: int| 0 <= i <= index implies word_bit(value, i) == if i < index {
                    word_bit(old_value, i)
                } else {
                    bit
                } by {
                    lemma_set_word_bit(old_value, flag, index as u64, i as u64);
                }
                lemma_set_word_bit(old_value, flag, index as u64, index as u64);
                assert(value_bits(value, index as nat + 1) =~= all.subrange(
                    start,
                    start + index + 1,
                ));
            }
            index = index + 1;
        }
        proof {
            assert(value >> 32u64 == 0) by (bit_vector)
                requires
                    value >> (count as u64) == 0,
                    count <= 32,
            ;
            assert(value <= u32::MAX) by (bit_vector)
                requires
                    value >> 32u64 == 0,
            ;
        }
        let result = value as u32;
        proof {
            assert(result as u64 == value);
        }
        Ok(result)
    }

    /// Reads a Rice code with parameter `parameter`, rejecting quotients and values
    /// above `max_folded`.
    pub fn get_rice(&mut self, parameter: u8, max_folded: u32) -> (r: Result<u32, CodecError>)
        requires
            old(self).wf(),
            parameter < 32,
        ensures
            final(self).wf(),
            final(self).input_bytes() == old(self).input_bytes(),
            final(self).bits() == old(self).bits(),
            r matches Ok(value) ==> value <= max_folded && exists|quotient: u32, remainder: u32|
                #![trigger zero_bits(quotient as nat), value_bits(remainder as u64, parameter as nat)]
                {
                    &&& quotient <= max_folded
                    &&& zero_bits(quotient as nat).push(true) + value_bits(
                        remainder as u64,
                        parameter as nat,
                    ) == old(self).bits().subrange(old(self).position(), final(self).position())
                    &&& value as int == (quotient << parameter) + remainder
                    &&& (remainder as u64) >> (parameter as u64) == 0
                },
            r is Err ==> r matches Err(CodecError::Malformed(_)),
            forall|v: u32| #[trigger]
                rice_at(old(self).bits(), old(self).position(), v, parameter as nat) && v <= max_folded ==> (r
                    matches Ok(x) && x == v && final(self).position() == old(self).position() + rice_bits(
                    v,
                    parameter as nat,
                ).len()),
    {
        let ghost start = self.position();
        let ghost all = self.bits();
        let mut quotient: u32 = 0;
        loop
            invariant_except_break
                self.wf(),
                self.input_bytes() == old(self).input_bytes(),
                self.bits() == all,
                all == old(self).bits(),
                start == old(self).position(),
                quotient <= max_folded,
                self.position() == start + quotient,
                all.subrange(start, self.position()) == zero_bits(quotient as nat),
                forall|v: u32| #[trigger]
                    rice_at(all, start, v, parameter as nat) && v <= max_folded ==> quotient <= v >> parameter,
            ensures
                self.wf(),
                self.input_bytes() == old(self).input_bytes(),
                self.bits() == all,
                quotient <= max_folded,
                self.position() == start + quotient + 1,
                all.subrange(start, self.position()) == zero_bits(quotient as nat).push(true),
                forall|v: u32| #[trigger]
                    rice_at(all, start, v, parameter as nat) && v <= max_folded ==> quotient == v >> parameter,
            decreases all.len() - self.position(),
        {
            let ghost before = self.position();
            proof {
                assert forall|v: u32| #[trigger]
                    rice_at(all, start, v, parameter as nat) && v <= max_folded implies before < all.len()
                    && all[before] == (quotient == v >> parameter) by {
                    let code = rice_bits(v, parameter as nat);
                    assert(all[before] == all.subrange(start, start + code.len())[quotient as int]);
                    assert(code[quotient as int] == (quotient == v >> parameter));
                }
            }
            match self.get_bit() {
                None => {
                    proof {
                        assert forall|v: u32|
                            !(#[trigger] rice_at(all, start, v, parameter as nat) && v <= max_folded) by {
                            if rice_at(all, start, v, parameter as nat) && v <= max_folded {
                                assert(before < all.len());
                            }
                        }
                    }
                    return Err(CodecError::Malformed("truncated Rice payload"));
                },
                Some(true) => {
                    proof {
                        assert(all.subrange(start, self.position()) =~= all.subrange(
                            start,
                            before,
                        ).push(true));
                    }
                    break ;
                },
                Some(false) => {
                    if quotient >= max_folded {
                        proof {
                            assert forall|v: u32|
                                !(#[trigger] rice_at(all, start, v, parameter as nat) && v <= max_folded) by {
                                if rice_at(all, start, v, parameter as nat) && v <= max_folded {
                                    assert(v >> parameter <= v) by (bit_vector);
                                }
                            }
                        }
                        return Err(CodecError::Malformed("Rice residual is out of range"));
                    }
                    quotient = quotient + 1;
                    proof {
                        assert(all.subrange(start, self.position()) =~= zero_bits(
                            quotient as nat,
                        ));
                    }
                },
            }
        }
        let ghost middle = self.position();
        let remainder = match self.get_bits(parameter) {
            Ok(remainder) => remainder,
            Err(error) => {
                proof {
                    assert forall|v: u32|
                        !(#[trigger] rice_at(all, start, v, parameter as nat) && v <= max_folded) by {
                        if rice_at(all, start, v, parameter as nat) && v <= max_folded {
                            assert(middle + parameter <= all.len());
                        }
                    }
                }
                return Err(error);
            },
        };
        proof {
            assert forall|v: u32| #[trigger] rice_at(all, start, v, parameter as nat) && v <= max_folded implies ((
            (quotient << parameter) as int) + (remainder as int) == v as int) by {
                let code = rice_bits(v, parameter as nat);
                let q = (v >> parameter) as int;
                assert forall|i: int| 0 <= i < parameter implies #[trigger] word_bit(remainder as u64, i) == word_bit(
                    v as u64,
                    i,
                ) by {
                    assert(value_bits(remainder as u64, parameter as nat)[i] == all.subrange(
                        middle,
                        middle + parameter,
                    )[i]);
                    assert(all.subrange(middle, middle + parameter)[i] == all[middle + i]);
                    assert(all[middle + i] == all.subrange(start, start + code.len())[q + 1 + i]);
                    assert(code[q + 1 + i] == value_bits(v as u64, parameter as nat)[i]);
                }
                lemma_low_bits_agree(remainder as u64, v as u64, parameter as u64);
                lemma_rice_value(v, remainder, parameter as u32);
            }
        }
        let shifted = quotient << parameter;
        let value = match shifted.checked_add(remainder) {
            Some(value) => value,
            None => {
                return Err(CodecError::Malformed("Rice residual overflow"));
            },
        };
        if value > max_folded {
            return Err(CodecError::Malformed("Rice residual is out of range"));
        }
        proof {
            assert(all.subrange(start, self.position()) =~= all.subrange(start, middle)
                + all.subrange(middle, self.position()));
            assert(zero_bits(quotient as nat).push(true) + value_bits(
                remainder as u64,
                parameter as nat,
            ) == all.subrange(start, self.position()));
        }
        Ok(value)
    }

    /// Succeeds when every whole byte was consumed and the padding bits are zero.
    pub fn finish(self) -> (r: Result<(), CodecError>)
        requires
            self.wf(),
        ensures
            r is Ok <==> {
                &&& (self.position() + 7) / 8 == self.input_bytes().len()
                &&& forall|i: int|
                    self.position() <= i < self.bits().len() ==> !#[trigger] self.bits()[i]
            },
            r is Err ==> r matches Err(CodecError::Malformed(_)),
    {
        let used_bytes = if self.bit == 0 {
            self.cursor
        } else {
            self.cursor + 1
        };
        if used_bytes != self.input.len() {
            return Err(CodecError::Malformed("trailing Rice payload bytes"));
        }
        if self.bit != 0 {
            let last = self.input[self.cursor];
            let ghost all = self.bits();
            let mut k: u8 = self.bit;
            while k < 8
                invariant
                    self.wf(),
                    all == self.bits(),
                    self.bit != 0,
                    last == self.input@[self.cursor as int],
                    self.cursor < self.input.len(),
                    self.bit <= k <= 8,
                    forall|i: int| self.position() <= i < 8 * self.cursor + k ==> !#[trigger] all[i],
                decreases 8 - k,
            {
                let ghost i = 8 * self.cursor + k;
                proof {
                    assert(i / 8 == self.cursor);
                    assert(i % 8 == k);
                }
                if (last >> k) & 1 == 1 {
                    proof {
                        assert(all[i]);
                        assert(self.position() <= i < all.len());
                    }
                    return Err(CodecError::Malformed("nonzero Rice padding bits"));
                }
                k = k + 1;
            }
        }
        Ok(())
    }
}

} // verus!
