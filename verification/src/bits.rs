//! Bit sequences: what the bits of a byte string are, how bits are packed into
//! bytes, and which number a run of bits stands for. Bits are ordered most
//! significant first throughout.
use vstd::arithmetic::power2;
use vstd::prelude::*;

verus! {

/// Bit `index` of a byte, where index 0 is the most significant bit.
pub open spec fn byte_bit(byte: u8, index: int) -> bool {
    (byte >> ((7 - index) as u8)) & 1u8 == 1u8
}

/// All bits of a byte string, in order.
pub open spec fn payload_bits(payload: Seq<u8>) -> Seq<bool> {
    Seq::new(8 * payload.len(), |i: int| byte_bit(payload[i / 8], i % 8))
}

/// The contribution of bit `index` of `bits` to a byte in which it has weight
/// `weight`. Positions past the end count as zero bits.
pub open spec fn bit_weight(bits: Seq<bool>, index: int, weight: int) -> int {
    if index < bits.len() && bits[index] {
        weight
    } else {
        0
    }
}

/// The byte made of the eight bits from `start` on.
pub open spec fn packed_byte(bits: Seq<bool>, start: int) -> u8 {
    (bit_weight(bits, start, 128) + bit_weight(bits, start + 1, 64) + bit_weight(
        bits,
        start + 2,
        32,
    ) + bit_weight(bits, start + 3, 16) + bit_weight(bits, start + 4, 8) + bit_weight(
        bits,
        start + 5,
        4,
    ) + bit_weight(bits, start + 6, 2) + bit_weight(bits, start + 7, 1)) as u8
}

/// The bytes that hold `bits`; the last byte is filled up with zero bits.
pub open spec fn pack_bits(bits: Seq<bool>) -> Seq<u8> {
    Seq::new(((bits.len() + 7) / 8) as nat, |k: int| packed_byte(bits, 8 * k))
}

/// How many zero bits fill `len` bits up to a whole number of bytes.
pub open spec fn padding_len(len: nat) -> nat {
    ((8 - len % 8) % 8) as nat
}

/// `bits` followed by the zero bits that make its length a multiple of eight.
pub open spec fn padded(bits: Seq<bool>) -> Seq<bool> {
    bits + Seq::new(padding_len(bits.len()), |i: int| false)
}

/// The number that `bits` stands for.
pub open spec fn bits_value(bits: Seq<bool>) -> nat
    decreases bits.len(),
{
    if bits.len() == 0 {
        0
    } else {
        2 * bits_value(bits.drop_last()) + if bits.last() {
            1nat
        } else {
            0nat
        }
    }
}

/// The `width` low bits of `value`.
pub open spec fn value_bits(value: nat, width: nat) -> Seq<bool>
    decreases width,
{
    if width == 0 {
        Seq::empty()
    } else {
        value_bits(value / 2, (width - 1) as nat).push(value % 2 == 1)
    }
}

/// The bits of a packed byte are those that it was made of.
proof fn lemma_packed_byte_bits(bits: Seq<bool>, start: int)
    ensures
        forall|j: int|
            0 <= j < 8 ==> #[trigger] byte_bit(packed_byte(bits, start), j) == (start + j
                < bits.len() && bits[start + j]),
{
    let b0 = start < bits.len() && bits[start];
    let b1 = start + 1 < bits.len() && bits[start + 1];
    let b2 = start + 2 < bits.len() && bits[start + 2];
    let b3 = start + 3 < bits.len() && bits[start + 3];
    let b4 = start + 4 < bits.len() && bits[start + 4];
    let b5 = start + 5 < bits.len() && bits[start + 5];
    let b6 = start + 6 < bits.len() && bits[start + 6];
    let b7 = start + 7 < bits.len() && bits[start + 7];
    let byte = packed_byte(bits, start);
    assert(byte == (if b0 { 128u8 } else { 0u8 }) + (if b1 { 64u8 } else { 0u8 }) + (if b2 {
        32u8
    } else {
        0u8
    }) + (if b3 { 16u8 } else { 0u8 }) + (if b4 { 8u8 } else { 0u8 }) + (if b5 {
        4u8
    } else {
        0u8
    }) + (if b6 { 2u8 } else { 0u8 }) + (if b7 { 1u8 } else { 0u8 }));
    assert(((byte >> 7u8) & 1u8 == 1u8) == b0 && ((byte >> 6u8) & 1u8 == 1u8) == b1 && ((byte
        >> 5u8) & 1u8 == 1u8) == b2 && ((byte >> 4u8) & 1u8 == 1u8) == b3 && ((byte >> 3u8) & 1u8
        == 1u8) == b4 && ((byte >> 2u8) & 1u8 == 1u8) == b5 && ((byte >> 1u8) & 1u8 == 1u8) == b6
        && ((byte >> 0u8) & 1u8 == 1u8) == b7) by (bit_vector)
        requires
            byte == (if b0 { 128u8 } else { 0u8 }) + (if b1 { 64u8 } else { 0u8 }) + (if b2 {
                32u8
            } else {
                0u8
            }) + (if b3 { 16u8 } else { 0u8 }) + (if b4 { 8u8 } else { 0u8 }) + (if b5 {
                4u8
            } else {
                0u8
            }) + (if b6 { 2u8 } else { 0u8 }) + (if b7 { 1u8 } else { 0u8 }),
    ;
    assert forall|j: int| 0 <= j < 8 implies #[trigger] byte_bit(packed_byte(bits, start), j) == (
    start + j < bits.len() && bits[start + j]) by {
        if j == 0 {
        } else if j == 1 {
        } else if j == 2 {
        } else if j == 3 {
        } else if j == 4 {
        } else if j == 5 {
        } else if j == 6 {
        } else {
            assert(j == 7);
        }
    }
}

/// A byte is determined by its bits.
proof fn lemma_byte_determined(a: u8, b: u8)
    requires
        forall|j: int| 0 <= j < 8 ==> #[trigger] byte_bit(a, j) == byte_bit(b, j),
    ensures
        a == b,
{
    assert(byte_bit(a, 0) == byte_bit(b, 0));
    assert(byte_bit(a, 1) == byte_bit(b, 1));
    assert(byte_bit(a, 2) == byte_bit(b, 2));
    assert(byte_bit(a, 3) == byte_bit(b, 3));
    assert(byte_bit(a, 4) == byte_bit(b, 4));
    assert(byte_bit(a, 5) == byte_bit(b, 5));
    assert(byte_bit(a, 6) == byte_bit(b, 6));
    assert(byte_bit(a, 7) == byte_bit(b, 7));
    assert(a == b) by (bit_vector)
        requires
            ((a >> 7u8) & 1u8 == 1u8) == ((b >> 7u8) & 1u8 == 1u8),
            ((a >> 6u8) & 1u8 == 1u8) == ((b >> 6u8) & 1u8 == 1u8),
            ((a >> 5u8) & 1u8 == 1u8) == ((b >> 5u8) & 1u8 == 1u8),
            ((a >> 4u8) & 1u8 == 1u8) == ((b >> 4u8) & 1u8 == 1u8),
            ((a >> 3u8) & 1u8 == 1u8) == ((b >> 3u8) & 1u8 == 1u8),
            ((a >> 2u8) & 1u8 == 1u8) == ((b >> 2u8) & 1u8 == 1u8),
            ((a >> 1u8) & 1u8 == 1u8) == ((b >> 1u8) & 1u8 == 1u8),
            ((a >> 0u8) & 1u8 == 1u8) == ((b >> 0u8) & 1u8 == 1u8),
    ;
}

/// Packing bits into bytes and unpacking the bytes gives the bits back, followed
/// only by the zero bits that fill the last byte.
pub proof fn lemma_unpack_pack(bits: Seq<bool>)
    ensures
        payload_bits(pack_bits(bits)) == padded(bits),
{
    let unpacked = payload_bits(pack_bits(bits));
    assert forall|i: int| 0 <= i < unpacked.len() implies unpacked[i] == padded(bits)[i] by {
        lemma_packed_byte_bits(bits, 8 * (i / 8));
        assert(byte_bit(packed_byte(bits, 8 * (i / 8)), i % 8) == (i < bits.len() && bits[i]));
    }
    assert(unpacked =~= padded(bits));
}

/// Unpacking bytes into bits and packing the bits gives the bytes back.
pub proof fn lemma_pack_unpack(payload: Seq<u8>)
    ensures
        pack_bits(payload_bits(payload)) == payload,
{
    let bits = payload_bits(payload);
    let packed = pack_bits(bits);
    assert forall|k: int| 0 <= k < packed.len() implies packed[k] == payload[k] by {
        lemma_packed_byte_bits(bits, 8 * k);
        assert forall|j: int| 0 <= j < 8 implies #[trigger] byte_bit(packed[k], j) == byte_bit(
            payload[k],
            j,
        ) by {
            assert((8 * k + j) / 8 == k && (8 * k + j) % 8 == j);
            assert(bits[8 * k + j] == byte_bit(payload[k], j));
        }
        lemma_byte_determined(packed[k], payload[k]);
    }
    assert(packed =~= payload);
}

/// Filling up with zero bits does not change the bytes.
pub proof fn lemma_pack_padded(bits: Seq<bool>)
    ensures
        pack_bits(padded(bits)) == pack_bits(bits),
{
    lemma_unpack_pack(bits);
    lemma_pack_unpack(pack_bits(bits));
}

/// A run of `n` bits stands for a number below two to the power of `n`.
pub proof fn lemma_bits_value_bound(bits: Seq<bool>)
    ensures
        bits_value(bits) < power2::pow2(bits.len()),
    decreases bits.len(),
{
    if bits.len() == 0 {
        power2::lemma2_to64();
    } else {
        lemma_bits_value_bound(bits.drop_last());
        power2::lemma_pow2_unfold(bits.len());
    }
}

/// `value_bits` yields as many bits as asked for.
pub proof fn lemma_value_bits_len(value: nat, width: nat)
    ensures
        value_bits(value, width).len() == width,
    decreases width,
{
    if width > 0 {
        lemma_value_bits_len(value / 2, (width - 1) as nat);
    }
}

/// Writing a number in enough bits and reading it back gives the number.
pub proof fn lemma_value_of_value_bits(value: nat, width: nat)
    requires
        value < power2::pow2(width),
    ensures
        bits_value(value_bits(value, width)) == value,
    decreases width,
{
    if width == 0 {
        power2::lemma2_to64();
    } else {
        power2::lemma_pow2_unfold(width);
        let shorter = value_bits(value / 2, (width - 1) as nat);
        lemma_value_of_value_bits(value / 2, (width - 1) as nat);
        assert(value_bits(value, width).drop_last() =~= shorter);
    }
}

/// Reading bits as a number and writing the number in as many bits gives the
/// bits.
pub proof fn lemma_value_bits_of_value(bits: Seq<bool>)
    ensures
        value_bits(bits_value(bits), bits.len()) == bits,
    decreases bits.len(),
{
    if bits.len() > 0 {
        let shorter = bits.drop_last();
        lemma_value_bits_of_value(shorter);
        assert(bits_value(bits) / 2 == bits_value(shorter));
        assert(shorter.push(bits.last()) =~= bits);
    } else {
        assert(bits =~= Seq::empty());
    }
}

/// Unpacks bytes into bits.
pub(crate) fn payload_to_bits(payload: &[u8]) -> (bits: Vec<bool>)
    ensures
        bits@ == payload_bits(payload@),
{
    let mut bits: Vec<bool> = Vec::new();
    let mut index: usize = 0;
    while index < payload.len()
        invariant
            index <= payload.len(),
            bits@ == payload_bits(payload@.take(index as int)),
        decreases payload.len() - index,
    {
        let byte = payload[index];
        let ghost before = bits@;
        let mut shift: u8 = 8;
        while shift > 0
            invariant
                shift <= 8,
                before.len() == 8 * index,
                bits@.len() == before.len() + 8 - shift,
                bits@.take(before.len() as int) == before,
                forall|i: int|
                    before.len() <= i < bits@.len() ==> bits@[i] == byte_bit(
                        byte,
                        i - before.len(),
                    ),
            decreases shift,
        {
            shift -= 1;
            let bit = (byte >> shift) & 1;
            assert((byte >> shift) & 1 <= 1) by (bit_vector);
            let ghost unpacked = bits@;
            bits.push(bit != 0);
            assert(bits@.take(before.len() as int) =~= unpacked.take(before.len() as int));
        }
        index += 1;
        proof {
            let expected = payload_bits(payload@.take(index as int));
            let prefix = payload@.take(index as int - 1);
            assert forall|i: int| 0 <= i < bits@.len() implies bits@[i] == expected[i] by {
                if i < before.len() {
                    assert(bits@[i] == bits@.take(before.len() as int)[i]);
                    assert(prefix[i / 8] == payload@.take(index as int)[i / 8]);
                } else {
                    assert(i / 8 == index - 1 && i % 8 == i - before.len());
                }
            }
            assert(bits@ =~= expected);
        }
    }
    proof {
        assert(payload@.take(index as int) =~= payload@);
    }
    bits
}

/// The weight of bit `index` if it is there and set, and zero otherwise.
fn weight_at(bits: &[bool], start: usize, offset: usize, weight: u8) -> (r: u8)
    requires
        start < bits@.len(),
    ensures
        r == bit_weight(bits@, start + offset, weight as int),
{
    if offset < bits.len() - start && bits[start + offset] {
        weight
    } else {
        0
    }
}

/// Packs bits into bytes, filling the last byte up with zero bits.
pub(crate) fn bits_to_payload(bits: &[bool]) -> (payload: Vec<u8>)
    ensures
        payload@ == pack_bits(bits@),
{
    let mut payload: Vec<u8> = Vec::new();
    let len = bits.len();
    let byte_count: usize = if len % 8 == 0 {
        len / 8
    } else {
        len / 8 + 1
    };
    let mut index: usize = 0;
    while index < byte_count
        invariant
            len == bits@.len(),
            index <= byte_count,
            byte_count as int == (len + 7) / 8,
            payload@.len() == index,
            forall|k: int| 0 <= k < index ==> payload@[k] == packed_byte(bits@, 8 * k),
        decreases byte_count - index,
    {
        let start: usize = 8 * index;
        let byte: u8 = weight_at(bits, start, 0, 128) + weight_at(bits, start, 1, 64)
            + weight_at(bits, start, 2, 32) + weight_at(bits, start, 3, 16)
            + weight_at(bits, start, 4, 8) + weight_at(bits, start, 5, 4)
            + weight_at(bits, start, 6, 2) + weight_at(bits, start, 7, 1);
        payload.push(byte);
        index += 1;
    }
    assert(payload@ =~= pack_bits(bits@));
    payload
}

/// Appends the bits of a mask over `num_decode_targets` decode targets, the
/// highest target first.
pub(crate) fn append_mask_bits(bits: &mut Vec<bool>, mask: u32, num_decode_targets: u8)
    requires
        num_decode_targets <= 32,
    ensures
        final(bits)@ == old(bits)@ + value_bits(mask as nat, num_decode_targets as nat),
{
    let mut shift: u8 = num_decode_targets;
    let ghost before = bits@;
    while shift > 0
        invariant
            shift <= num_decode_targets <= 32,
            bits@ == before + value_bits(
                (mask as u64 >> shift) as nat,
                (num_decode_targets - shift) as nat,
            ),
        decreases shift,
    {
        let ghost unpacked = bits@;
        shift -= 1;
        let bit = (mask >> shift) & 1;
        bits.push(bit != 0);
        proof {
            let wide = mask as u64;
            assert((wide >> shift) / 2 == wide >> ((shift + 1) as u8)) by (bit_vector)
                requires
                    shift < 32,
            ;
            assert(((mask >> shift) & 1 != 0) == ((mask as u64 >> shift) % 2 == 1)) by (bit_vector)
                requires
                    shift < 32,
            ;
            assert(bits@ =~= before + value_bits(
                (wide >> shift) as nat,
                (num_decode_targets - shift) as nat,
            ));
        }
    }
    assert(mask as u64 >> 0u8 == mask as u64) by (bit_vector);
}

/// Overwrites the bits from `offset` on with the bits of a mask over
/// `num_decode_targets` decode targets, the highest target first.
pub(crate) fn write_mask_bits(
    bits: &mut Vec<bool>,
    offset: usize,
    mask: u32,
    num_decode_targets: u8,
)
    requires
        num_decode_targets <= 32,
        offset + num_decode_targets <= old(bits)@.len(),
    ensures
        final(bits)@ == old(bits)@.take(offset as int) + value_bits(
            mask as nat,
            num_decode_targets as nat,
        ) + old(bits)@.skip(offset + num_decode_targets),
{
    let ghost before = bits@;
    assert(before.len() == bits.len());
    let mut replacement: Vec<bool> = Vec::new();
    append_mask_bits(&mut replacement, mask, num_decode_targets);
    assert(replacement@ =~= value_bits(mask as nat, num_decode_targets as nat));
    proof {
        lemma_value_bits_len(mask as nat, num_decode_targets as nat);
    }
    let mut index: usize = 0;
    while index < replacement.len()
        invariant
            index <= replacement@.len(),
            replacement@.len() == num_decode_targets,
            offset + num_decode_targets <= before.len() <= usize::MAX,
            bits@ == before.take(offset as int) + replacement@.take(index as int) + before.skip(
                offset + index,
            ),
        decreases replacement.len() - index,
    {
        bits.set(offset + index, replacement[index]);
        index += 1;
        assert(bits@ =~= before.take(offset as int) + replacement@.take(index as int)
            + before.skip(offset + index));
    }
    assert(replacement@.take(index as int) =~= replacement@);
}

/// Appends zero bits until the length is a whole number of bytes.
pub(crate) fn pad_to_full_byte(bits: &mut Vec<bool>)
    ensures
        final(bits)@ == padded(old(bits)@),
{
    let ghost before = bits@;
    while bits.len() % 8 != 0
        invariant
            before.len() <= bits@.len() <= padded(before).len(),
            bits@ == padded(before).take(bits@.len() as int),
        decreases padded(before).len() - bits@.len(),
    {
        bits.push(false);
        assert(bits@ =~= padded(before).take(bits@.len() as int));
    }
    assert(bits@.len() == padded(before).len());
    assert(bits@ =~= padded(before));
}

} // verus!
