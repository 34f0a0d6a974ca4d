use vstd::prelude::*;
use vstd::slice::slice_index_get;

verus! {

/// The order in which the eight bits of a group fill a byte.
pub enum BitOrder {
    /// The first bit of the group is the least significant bit of the byte.
    LittleEndian,
    /// The first bit of the group is the most significant bit of the byte.
    BigEndian,
}

/// Packs a flat bit sequence, eight bits at a time, into bytes.
pub struct BitStreamDecoder {
    pub bit_order: BitOrder,
}

/// `w` if the bit is set, zero otherwise.
pub open spec fn bit_weight(b: bool, w: int) -> int {
    if b {
        w
    } else {
        0
    }
}

/// The byte an eight-bit group decodes to under the given bit order.
pub open spec fn byte_of(order: BitOrder, bits: Seq<bool>) -> u8
    recommends
        bits.len() == 8,
{
    match order {
        BitOrder::BigEndian => (bit_weight(bits[0], 128) + bit_weight(bits[1], 64) + bit_weight(
            bits[2],
            32,
        ) + bit_weight(bits[3], 16) + bit_weight(bits[4], 8) + bit_weight(bits[5], 4) + bit_weight(
            bits[6],
            2,
        ) + bit_weight(bits[7], 1)) as u8,
        BitOrder::LittleEndian => (bit_weight(bits[0], 1) + bit_weight(bits[1], 2) + bit_weight(
            bits[2],
            4,
        ) + bit_weight(bits[3], 8) + bit_weight(bits[4], 16) + bit_weight(bits[5], 32) + bit_weight(
            bits[6],
            64,
        ) + bit_weight(bits[7], 128)) as u8,
    }
}

/// The numeric value of one bit.
fn bit_u8(b: bool) -> (r: u8)
    ensures
        r as int == bit_weight(b, 1),
{
    if b {
        1
    } else {
        0
    }
}

impl BitStreamDecoder {
    /// Decodes the eight-bit group starting at `base` into one byte.
    #[verifier::rlimit(100)]
    fn decode_group(&self, bitstream: &[bool], base: usize) -> (acc: u8)
        requires
            base + 8 <= bitstream@.len() <= usize::MAX,
        ensures
            acc == byte_of(self.bit_order, bitstream@.subrange(base as int, base as int + 8)),
    {
        let b0 = *slice_index_get(bitstream, base);
        let b1 = *slice_index_get(bitstream, base + 1);
        let b2 = *slice_index_get(bitstream, base + 2);
        let b3 = *slice_index_get(bitstream, base + 3);
        let b4 = *slice_index_get(bitstream, base + 4);
        let b5 = *slice_index_get(bitstream, base + 5);
        let b6 = *slice_index_get(bitstream, base + 6);
        let b7 = *slice_index_get(bitstream, base + 7);
        let acc: u8 = match self.bit_order {
            BitOrder::BigEndian => 128 * bit_u8(b0) + 64 * bit_u8(b1) + 32 * bit_u8(b2) + 16
                * bit_u8(b3) + 8 * bit_u8(b4) + 4 * bit_u8(b5) + 2 * bit_u8(b6) + bit_u8(b7),
            BitOrder::LittleEndian => bit_u8(b0) + 2 * bit_u8(b1) + 4 * bit_u8(b2) + 8 * bit_u8(
                b3,
            ) + 16 * bit_u8(b4) + 32 * bit_u8(b5) + 64 * bit_u8(b6) + 128 * bit_u8(b7),
        };
        proof {
            let group = bitstream@.subrange(base as int, base as int + 8);
            assert(group[0] == b0 && group[1] == b1 && group[2] == b2 && group[3] == b3 && group[4]
                == b4 && group[5] == b5 && group[6] == b6 && group[7] == b7);
        }
        acc
    }

    /// Decodes a bit stream whose length is an exact multiple of eight into
    /// one byte per group of eight bits. A length that is not a multiple of
    /// eight is a contract violation, not a recoverable error.
    pub fn decode(&self, bitstream: &[bool]) -> (r: Vec<u8>)
        requires
            bitstream@.len() % 8 == 0,
        ensures
            r@.len() == bitstream@.len() / 8,
            forall|j: int|
                0 <= j < r@.len() ==> #[trigger] r@[j] == byte_of(
                    self.bit_order,
                    bitstream@.subrange(8 * j, 8 * j + 8),
                ),
    {
        let len = bitstream.len();
        let groups = len / 8;
        proof {
            assert(len % 8 == 0 ==> 8 * (len / 8) == len) by (nonlinear_arith);
        }
        let mut bytestream: Vec<u8> = Vec::new();
        let mut k: usize = 0;
        while k < groups
            invariant
                len == bitstream@.len(),
                8 * groups == len,
                k <= groups,
                bytestream@.len() == k,
                forall|j: int|
                    0 <= j < bytestream@.len() ==> #[trigger] bytestream@[j] == byte_of(
                        self.bit_order,
                        bitstream@.subrange(8 * j, 8 * j + 8),
                    ),
            decreases groups - k,
        {
            let base = 8 * k;
            let acc = self.decode_group(bitstream, base);
            bytestream.push(acc);
            k = k + 1;
        }
        bytestream
    }
}

} // verus!
