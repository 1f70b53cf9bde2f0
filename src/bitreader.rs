use vstd::prelude::*;

use crate::scan_header::EncodingOrder;

verus! {

/// Bit `i` (0 = most significant) of a byte.
pub open spec fn bit_of(b: u8, i: int) -> u8 {
    (b >> ((7 - i) as u8)) & 1
}

/// Expands entropy-coded bytes into bits, most significant bit first.
pub struct BitReader<'a> {
    pub encoding_order: EncodingOrder,
    pub data: &'a [u8],
    pub bit_cur: usize,
    pub byte_cur: usize,
}

impl<'a> BitReader<'a> {
    pub fn new(data: &'a [u8], encoding_order: EncodingOrder) -> (r: BitReader<'a>)
        ensures
            r.data@ == data@,
            r.encoding_order == encoding_order,
            r.bit_cur == 0,
            r.byte_cur == 0,
    {
        BitReader { encoding_order, data, bit_cur: 0, byte_cur: 0 }
    }

    /// The eight bits of a byte, most significant first.
    pub fn u8_to_bits(&mut self, byte: u8) -> (r: [u8; 8])
        ensures
            *final(self) == *old(self),
            forall|i: int| 0 <= i < 8 ==> #[trigger] r@[i] == bit_of(byte, i),
    {
        let r = [
            (byte >> 7u8) & 1,
            (byte >> 6u8) & 1,
            (byte >> 5u8) & 1,
            (byte >> 4u8) & 1,
            (byte >> 3u8) & 1,
            (byte >> 2u8) & 1,
            (byte >> 1u8) & 1,
            byte & 1,
        ];
        proof {
            assert(byte & 1 == (byte >> 0u8) & 1) by (bit_vector);
        }
        r
    }

    /// All bits of the data, byte after byte, each most significant first.
    pub fn slice_to_bits(&mut self) -> (r: Vec<u8>)
        requires
            old(self).data@.len() * 8 <= usize::MAX,
        ensures
            *final(self) == *old(self),
            r@.len() == 8 * old(self).data@.len(),
            forall|k: int, i: int|
                0 <= k < old(self).data@.len() && 0 <= i < 8 ==> #[trigger] r@[8 * k + i] == bit_of(
                    old(self).data@[k],
                    i,
                ),
    {
        let len = self.data.len();
        let mut bits: Vec<u8> = Vec::new();
        let mut k: usize = 0;
        while k < len
            invariant
                len == self.data@.len(),
                *self == *old(self),
                k <= len,
                bits@.len() == 8 * k,
                forall|q: int, i: int|
                    0 <= q < k && 0 <= i < 8 ==> #[trigger] bits@[8 * q + i] == bit_of(self.data@[q], i),
            decreases len - k,
        {
            let byte = self.data[k];
            let b = self.u8_to_bits(byte);
            let ghost before = bits@;
            let mut i: usize = 0;
            while i < 8
                invariant
                    i <= 8,
                    bits@.len() == 8 * k + i,
                    forall|q: int| 0 <= q < 8 * k ==> #[trigger] bits@[q] == before[q],
                    forall|j: int| 0 <= j < i ==> #[trigger] bits@[8 * k + j] == bit_of(byte, j),
                    forall|j: int| 0 <= j < 8 ==> #[trigger] b@[j] == bit_of(byte, j),
                decreases 8 - i,
            {
                bits.push(b[i]);
                i = i + 1;
            }
            proof {
                assert forall|q: int, j: int|
                    0 <= q < k + 1 && 0 <= j < 8 implies #[trigger] bits@[8 * q + j] == bit_of(self.data@[q], j) by {
                    if q < k {
                        assert(8 * q + j < 8 * k) by (nonlinear_arith)
                            requires
                                q < k,
                                j < 8,
                        ;
                        assert(bits@[8 * q + j] == before[8 * q + j]);
                    }
                }
            }
            k = k + 1;
        }
        bits
    }
}

} // verus!
