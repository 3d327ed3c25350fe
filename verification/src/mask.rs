//! Rewriting the mask of active decode targets in a raw descriptor.
use crate::bits;
use crate::fields;
use crate::locality;
use crate::metadata;
use crate::parser;
use crate::parser::{DescriptorFlags, MANDATORY_FIELDS_BITS};
use crate::reader;
use crate::reader::BitReader;
use crate::structure;
use vstd::prelude::*;

verus! {

/// The bit that says whether a descriptor carries a mask.
pub const ACTIVE_DECODE_TARGETS_PRESENT_BIT: usize = 25;

/// Where a descriptor has the mask of active decode targets, or would have it if it
/// carried one, and how many chains the structure has that it carries. A carried
/// structure has to have `num_decode_targets` decode targets.
pub open spec fn mask_place(
    bits: Seq<bool>,
    pos: int,
    flags: DescriptorFlags,
    num_decode_targets: nat,
) -> Option<(int, Option<nat>)> {
    if flags.structure {
        match structure::structure_at(bits, pos) {
            Some((structure, end)) => if structure.num_decode_targets == num_decode_targets {
                Some((end, Some(structure.num_chains as nat)))
            } else {
                None
            },
            None => None,
        }
    } else {
        Some((pos, None))
    }
}

/// Where the fields of a frame end that start at `pos`. Without the number of chains
/// the end of the chain differences is not known.
pub open spec fn frame_end(
    bits: Seq<bool>,
    pos: int,
    flags: DescriptorFlags,
    num_decode_targets: nat,
    num_chains: Option<nat>,
) -> Option<int> {
    let dtis_end = if flags.custom_dtis {
        pos + 2 * num_decode_targets
    } else {
        pos
    };
    if dtis_end > bits.len() {
        None
    } else {
        match if flags.custom_fdiffs {
            fields::custom_frame_diffs(bits, dtis_end)
        } else {
            Some((Seq::empty(), dtis_end))
        } {
            Some((frame_diffs, fdiffs_end)) => if !flags.custom_chains {
                Some(fdiffs_end)
            } else {
                match num_chains {
                    Some(count) => if fdiffs_end + 8 * count <= bits.len() {
                        Some(fdiffs_end + 8 * count)
                    } else {
                        None
                    },
                    None => None,
                }
            },
            None => None,
        }
    }
}

/// The flags of the fields whose lengths are known: without the number of chains
/// the chain differences are left out.
pub open spec fn known_flags(flags: DescriptorFlags, num_chains: Option<nat>) -> DescriptorFlags {
    DescriptorFlags { custom_chains: flags.custom_chains && num_chains is Some, ..flags }
}

/// The fields of a frame whose lengths are known fit behind `pos`.
pub open spec fn frame_fits(
    bits: Seq<bool>,
    pos: int,
    flags: DescriptorFlags,
    num_decode_targets: nat,
    num_chains: Option<nat>,
) -> bool {
    frame_end(bits, pos, known_flags(flags, num_chains), num_decode_targets, num_chains) is Some
}

/// The bits of a descriptor up to the end of its last field. All bits are kept where
/// the end is not known: where the descriptor has chain differences and carries no
/// structure that tells how many there are.
pub open spec fn kept_bits(
    bits: Seq<bool>,
    pos: int,
    flags: DescriptorFlags,
    num_decode_targets: nat,
    num_chains: Option<nat>,
) -> Seq<bool> {
    if flags.custom_chains && num_chains is None {
        bits
    } else {
        bits.take(frame_end(bits, pos, flags, num_decode_targets, num_chains)->0)
    }
}

/// A descriptor's bits with the mask `mask`. A mask that is there is overwritten.
/// Where there is none, it is put in, the descriptor is marked as carrying it, and
/// what follows the descriptor's last field is dropped if the end is known. A
/// descriptor that announces a field which does not fit is malformed.
pub open spec fn rewritten_bits(bits: Seq<bool>, num_decode_targets: nat, mask: nat) -> Option<
    Seq<bool>,
> {
    let mask_bits = bits::value_bits(mask, num_decode_targets);
    if bits.len() < MANDATORY_FIELDS_BITS {
        None
    } else if bits.len() == MANDATORY_FIELDS_BITS {
        Some(bits + seq![false, true, false, false, false] + mask_bits)
    } else {
        match parser::flags_of(bits) {
            Some((flags, pos)) => match mask_place(bits, pos, flags, num_decode_targets) {
                Some((offset, num_chains)) => if flags.mask {
                    if offset + num_decode_targets <= bits.len() && frame_fits(
                        bits,
                        offset + num_decode_targets,
                        flags,
                        num_decode_targets,
                        num_chains,
                    ) {
                        Some(
                            bits.take(offset) + mask_bits + bits.skip(offset + num_decode_targets),
                        )
                    } else {
                        None
                    }
                } else if frame_fits(bits, offset, flags, num_decode_targets, num_chains) {
                    let kept = kept_bits(bits, offset, flags, num_decode_targets, num_chains);
                    let marked = kept.update(ACTIVE_DECODE_TARGETS_PRESENT_BIT as int, true);
                    Some(marked.take(offset) + mask_bits + marked.skip(offset))
                } else {
                    None
                },
                None => None,
            },
            None => None,
        }
    }
}

/// A descriptor with the mask `mask` over `num_decode_targets` decode targets, of
/// which there are between 1 and 32. The mask marks no other targets.
pub open spec fn rewritten_payload(payload: Seq<u8>, num_decode_targets: u8, mask: u32) -> Option<
    Seq<u8>,
> {
    if 1 <= num_decode_targets <= 32 && mask <= metadata::all_active_mask(
        num_decode_targets as nat,
    ) {
        match rewritten_bits(bits::payload_bits(payload), num_decode_targets as nat, mask as nat) {
            Some(bits) => Some(bits::pack_bits(bits)),
            None => None,
        }
    } else {
        None
    }
}

/// Finds where the last of a frame's fields ends that start at `offset`.
fn dependency_descriptor_payload_end(
    payload: &[u8],
    offset: usize,
    flags: &DescriptorFlags,
    num_decode_targets: u8,
    num_chains: Option<u8>,
) -> (r: Option<usize>)
    requires
        offset <= reader::readable_bits(payload@).len(),
    ensures
        match frame_end(
            reader::readable_bits(payload@),
            offset as int,
            *flags,
            num_decode_targets as nat,
            match num_chains {
                Some(count) => Some(count as nat),
                None => None,
            },
        ) {
            Some(end) => r matches Some(e) && e == end && offset <= e
                <= reader::readable_bits(payload@).len(),
            None => r is None,
        },
{
    let mut reader = BitReader { payload, bit_offset: offset };
    if flags.custom_dtis {
        reader.skip_bits(num_decode_targets as usize * 2)?;
    }
    let ghost dtis_end = reader.pos();
    if flags.custom_fdiffs {
        fields::parse_custom_frame_diffs(&mut reader)?;
    }
    proof {
        fields::lemma_custom_frame_diffs_end(reader.bits(), dtis_end);
    }
    if flags.custom_chains {
        let count = num_chains?;
        reader.skip_bits(count as usize * 8)?;
    }
    Some(reader.bit_offset)
}

/// Appends the flags of a descriptor that carries only a mask, and the mask.
fn append_flags_and_mask(bits: &mut Vec<bool>, mask: u32, num_decode_targets: u8)
    requires
        num_decode_targets <= 32,
    ensures
        final(bits)@ == old(bits)@ + seq![false, true, false, false, false] + bits::value_bits(
            mask as nat,
            num_decode_targets as nat,
        ),
{
    let ghost before = bits@;
    bits.push(false);
    bits.push(true);
    bits.push(false);
    bits.push(false);
    bits.push(false);
    assert(bits@ =~= before + seq![false, true, false, false, false]);
    bits::append_mask_bits(bits, mask, num_decode_targets);
}

/// Marks a descriptor as carrying a mask, and puts the mask in at `offset`.
fn inject_mask(bits: &mut Vec<bool>, offset: usize, mask: u32, num_decode_targets: u8)
    requires
        num_decode_targets <= 32,
        ACTIVE_DECODE_TARGETS_PRESENT_BIT < old(bits)@.len(),
        offset <= old(bits)@.len(),
    ensures
        ({
            let marked = old(bits)@.update(ACTIVE_DECODE_TARGETS_PRESENT_BIT as int, true);
            final(bits)@ == marked.take(offset as int) + bits::value_bits(
                mask as nat,
                num_decode_targets as nat,
            ) + marked.skip(offset as int)
        }),
{
    bits.set(ACTIVE_DECODE_TARGETS_PRESENT_BIT, true);
    let ghost marked = bits@;
    let mut rest = bits.split_off(offset);
    assert(rest@ =~= marked.skip(offset as int));
    assert(bits@ =~= marked.take(offset as int));
    bits::append_mask_bits(bits, mask, num_decode_targets);
    bits.append(&mut rest);
}

/// Replaces or injects the active decode-target mask in a raw dependency-descriptor payload.
///
/// `num_decode_targets` must match the descriptor's dependency structure when it carries one.
/// The replacement mask may set only those decode-target bits. Returns `None` for malformed
/// payloads or invalid mask parameters.
pub fn replace_or_inject_active_decode_target_mask(
    payload: &[u8],
    num_decode_targets: u8,
    replacement_mask: u32,
) -> (r: Option<Vec<u8>>)
    ensures
        match rewritten_payload(payload@, num_decode_targets, replacement_mask) {
            Some(rewritten) => r matches Some(v) && v@ == rewritten,
            None => r is None,
        },
{
    if num_decode_targets < 1 || num_decode_targets > 32 {
        return None;
    }
    let all_active = metadata::all_decode_targets_active_mask(num_decode_targets);
    proof {
        metadata::lemma_mask_within(replacement_mask, all_active, num_decode_targets as nat);
    }
    if replacement_mask & !all_active != 0 {
        return None;
    }
    let mut bits = bits::payload_to_bits(payload);
    assert(bits.len() == 8 * payload@.len());
    assert(reader::readable_bits(payload@) == bits@);
    let ghost before = bits@;
    if bits.len() < MANDATORY_FIELDS_BITS {
        return None;
    }
    if bits.len() == MANDATORY_FIELDS_BITS {
        append_flags_and_mask(&mut bits, replacement_mask, num_decode_targets);
        proof {
            bits::lemma_pack_padded(bits@);
        }
        bits::pad_to_full_byte(&mut bits);
        return Some(bits::bits_to_payload(&bits));
    }
    let mut reader = BitReader::new(payload);
    reader.skip_bits(MANDATORY_FIELDS_BITS)?;
    let flags = parser::read_flags(&mut reader)?;
    let ghost structure_pos = reader.pos();
    proof {
        locality::lemma_structure_end(before, structure_pos);
    }
    let num_chains = if flags.structure {
        let structure = structure::parse_structure(&mut reader)?;
        if structure.num_decode_targets != num_decode_targets {
            return None;
        }
        Some(structure.num_chains)
    } else {
        None
    };
    let mask_offset = reader.bit_offset;
    let end_is_known = !flags.custom_chains || num_chains.is_some();
    let known = DescriptorFlags { custom_chains: flags.custom_chains && end_is_known, ..flags };
    if flags.mask {
        if num_decode_targets as usize > bits.len() - mask_offset {
            return None;
        }
        dependency_descriptor_payload_end(
            payload,
            mask_offset + num_decode_targets as usize,
            &known,
            num_decode_targets,
            num_chains,
        )?;
        bits::write_mask_bits(&mut bits, mask_offset, replacement_mask, num_decode_targets);
    } else {
        let payload_end = dependency_descriptor_payload_end(
            payload,
            mask_offset,
            &known,
            num_decode_targets,
            num_chains,
        )?;
        if end_is_known {
            bits.truncate(payload_end);
        }
        inject_mask(&mut bits, mask_offset, replacement_mask, num_decode_targets);
        proof {
            bits::lemma_pack_padded(bits@);
        }
        bits::pad_to_full_byte(&mut bits);
    }
    Some(bits::bits_to_payload(&bits))
}

} // verus!
