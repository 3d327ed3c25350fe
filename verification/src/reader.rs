//! Reading a byte string bit by bit.
use crate::bits;
use crate::fields;
use vstd::arithmetic::power2;
use vstd::prelude::*;

verus! {

/// The bits of a payload that can be read: all of them, as far as a `usize` can
/// count them.
pub open spec fn readable_bits(payload: Seq<u8>) -> Seq<bool> {
    if 8 * payload.len() <= usize::MAX {
        bits::payload_bits(payload)
    } else {
        bits::payload_bits(payload).take(usize::MAX as int)
    }
}

/// A position in the bits of a payload.
#[derive(Debug, Clone, Copy)]
pub(crate) struct BitReader<'a> {
    pub(crate) payload: &'a [u8],
    pub(crate) bit_offset: usize,
}

impl<'a> BitReader<'a> {
    /// The bits that can be read.
    pub(crate) open spec fn bits(self) -> Seq<bool> {
        readable_bits(self.payload@)
    }

    /// The position of the next bit.
    pub(crate) open spec fn pos(self) -> int {
        self.bit_offset as int
    }

    /// The position lies within the payload.
    pub(crate) open spec fn wf(self) -> bool {
        self.bit_offset <= self.bits().len()
    }

    /// A reader at the first bit of `payload`.
    pub(crate) fn new(payload: &'a [u8]) -> (r: Self)
        ensures
            r.wf(),
            r.payload == payload,
            r.pos() == 0,
    {
        BitReader { payload, bit_offset: 0 }
    }

    /// How many bits are left.
    pub(crate) fn bits_remaining(&self) -> (r: usize)
        requires
            self.wf(),
        ensures
            r == self.bits().len() - self.pos(),
    {
        let len = self.payload.len();
        let total: usize = if len <= usize::MAX / 8 {
            len * 8
        } else {
            usize::MAX
        };
        total - self.bit_offset
    }

    /// Reads the next `bits` bits as a number. Between 1 and 56 bits can be read at
    /// a time. Where nothing is read, the reader stays where it is.
    pub(crate) fn read_bits(&mut self, bits: usize) -> (r: Option<u64>)
        requires
            old(self).wf(),
        ensures
            final(self).wf(),
            final(self).payload == old(self).payload,
            if 1 <= bits <= 56 {
                match fields::field(old(self).bits(), old(self).pos(), bits as nat) {
                    Some((value, end)) => (r matches Some(v) && v == value && final(self).pos()
                        == end),
                    None => r is None && final(self).pos() == old(self).pos(),
                }
            } else {
                r is None && final(self).pos() == old(self).pos()
            },
    {
        if bits == 0 || bits > 56 || bits > self.bits_remaining() {
            return None;
        }
        let ghost all = self.bits();
        let ghost start = self.pos();
        let mut value: u64 = 0;
        let mut done: usize = 0;
        assert(all.subrange(start, start) =~= Seq::empty());
        while done < bits
            invariant
                done <= bits <= 56,
                self.payload == old(self).payload,
                all == self.bits(),
                self.pos() == start + done,
                0 <= start,
                start + bits <= all.len(),
                value == bits::bits_value(all.subrange(start, start + done)),
            decreases bits - done,
        {
            let byte_index = self.bit_offset / 8;
            let bit_in_byte = 7 - (self.bit_offset % 8);
            let byte = self.payload[byte_index];
            let bit = (byte >> bit_in_byte) & 1;
            proof {
                let read = all.subrange(start, start + done);
                let longer = all.subrange(start, start + done + 1);
                assert(longer.drop_last() =~= read);
                assert(longer.last() == bits::byte_bit(byte, self.bit_offset as int % 8));
                assert((byte >> bit_in_byte) & 1 <= 1) by (bit_vector);
                bits::lemma_bits_value_bound(read);
                power2::lemma2_to64_rest();
                if done < 56 {
                    power2::lemma_pow2_strictly_increases(done as nat, 56);
                }
            }
            value = 2 * value + bit as u64;
            self.bit_offset += 1;
            done += 1;
        }
        Some(value)
    }

    /// Reads the next bit.
    pub(crate) fn read_bool(&mut self) -> (r: Option<bool>)
        requires
            old(self).wf(),
        ensures
            final(self).wf(),
            final(self).payload == old(self).payload,
            match fields::flag(old(self).bits(), old(self).pos()) {
                Some((set, end)) => r == Some(set) && final(self).pos() == end,
                None => r is None && final(self).pos() == old(self).pos(),
            },
    {
        proof {
            fields::lemma_flag_is_field(self.bits(), self.pos());
        }
        match self.read_bits(1) {
            Some(value) => Some(value != 0),
            None => None,
        }
    }

    /// Reads the next `bits` bits as a number that fits in a byte. A number that
    /// does not fit is passed over.
    pub(crate) fn read_bits_u8(&mut self, bits: usize) -> (r: Option<u8>)
        requires
            old(self).wf(),
        ensures
            final(self).wf(),
            final(self).payload == old(self).payload,
            if 1 <= bits <= 56 {
                match fields::field(old(self).bits(), old(self).pos(), bits as nat) {
                    Some((value, end)) => final(self).pos() == end && if value <= u8::MAX {
                        r == Some(value as u8)
                    } else {
                        r is None
                    },
                    None => r is None && final(self).pos() == old(self).pos(),
                }
            } else {
                r is None && final(self).pos() == old(self).pos()
            },
            1 <= bits <= 8 ==> (r matches Some(v) && fields::field_u8(
                old(self).bits(),
                old(self).pos(),
                bits as nat,
            ) == Some((v, final(self).pos())) || r is None && fields::field_u8(
                old(self).bits(),
                old(self).pos(),
                bits as nat,
            ) is None),
    {
        proof {
            fields::lemma_field_bound(self.bits(), self.pos(), bits as nat);
            power2::lemma2_to64();
            if bits < 8 {
                power2::lemma_pow2_strictly_increases(bits as nat, 8);
            }
        }
        match self.read_bits(bits) {
            Some(value) => if value <= 255 {
                Some(value as u8)
            } else {
                None
            },
            None => None,
        }
    }

    /// Passes over the next `bits` bits. Where there are not as many, the reader
    /// stays where it is.
    pub(crate) fn skip_bits(&mut self, bits: usize) -> (r: Option<()>)
        requires
            old(self).wf(),
        ensures
            final(self).wf(),
            final(self).payload == old(self).payload,
            if old(self).pos() + bits <= old(self).bits().len() {
                r is Some && final(self).pos() == old(self).pos() + bits
            } else {
                r is None && final(self).pos() == old(self).pos()
            },
    {
        if bits > self.bits_remaining() {
            return None;
        }
        self.bit_offset += bits;
        Some(())
    }
}

} // verus!
