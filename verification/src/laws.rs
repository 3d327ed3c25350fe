//! What holds of the parser and of the rewriting of masks as a whole.
use crate::bits;
use crate::fields;
use crate::locality;
use crate::mask;
use crate::metadata;
use crate::metadata::MetadataView;
use crate::parser;
use crate::parser::{DescriptorFlags, DescriptorView, ParserView};
use crate::reader;
use crate::structure;
use crate::structure::{StructureView, TemplateView};
use vstd::arithmetic::power2;
use vstd::prelude::*;

verus! {

/// The flags of a descriptor that carries a mask, and is else like one with these
/// flags.
spec fn with_mask_flag(flags: DescriptorFlags) -> DescriptorFlags {
    DescriptorFlags { mask: true, ..flags }
}

/// A descriptor into which a mask was written is read as before, but for the mask.
proof fn lemma_descriptor_with_mask(
    a: Seq<bool>,
    b: Seq<bool>,
    retained: Option<StructureView>,
    offset: int,
    mask: nat,
)
    requires
        a.len() >= 24,
        b.len() >= 29,
        parser::flags_of(a) is Some,
        parser::flags_of(b) == Some((with_mask_flag((parser::flags_of(a)->0).0), 29int)),
        locality::agree(a, 0, b, 0, 24),
        parser::descriptor_of(a, retained) is Some,
        ({
            let (flags, pos) = parser::flags_of(a)->0;
            let (structure, mask_pos) = parser::structure_of(a, pos, flags, retained)->0;
            let targets = structure.num_decode_targets as nat;
            let frame_pos = (parser::mask_at(a, mask_pos, flags, targets)->0).1;
            let end = (parser::descriptor_of(a, retained)->0).1;
            &&& if flags.structure {
                offset == mask_pos && locality::agree(a, 29, b, 29, mask_pos - 29)
            } else {
                offset == 29
            }
            &&& fields::field(b, offset, targets) == Some((mask, offset + targets))
            &&& locality::agree(a, frame_pos, b, offset + targets, end - frame_pos)
        }),
    ensures
        parser::descriptor_of(b, retained) matches Some((descriptor, end)) && descriptor == (
        DescriptorView {
            mask: Some(mask as u32),
            ..(parser::descriptor_of(a, retained)->0).0
        }),
{
    let (flags, pos) = parser::flags_of(a)->0;
    let (structure, mask_pos) = parser::structure_of(a, pos, flags, retained)->0;
    let targets = structure.num_decode_targets as nat;
    let frame_pos = (parser::mask_at(a, mask_pos, flags, targets)->0).1;
    let marked = with_mask_flag(flags);
    locality::lemma_agree_part(a, 0, b, 0, 24, 2, 8);
    locality::lemma_agree_part(a, 0, b, 0, 24, 8, 24);
    locality::lemma_agree_part(a, 0, b, 0, 24, 0, 1);
    locality::lemma_agree_part(a, 0, b, 0, 24, 1, 2);
    locality::lemma_agree(a, 2, b, 2, 6);
    locality::lemma_agree(a, 8, b, 8, 16);
    locality::lemma_flag_local(a, 0, b, 0);
    locality::lemma_flag_local(a, 1, b, 1);
    if flags.structure {
        locality::lemma_structure_local(a, 29, b, 29);
    }
    assert(parser::structure_of(b, 29, marked, retained) == Some((structure, offset)));
    let template_id = bits::bits_value(a.subrange(2, 8)) as u8;
    let index = parser::template_index(template_id, structure.structure_id);
    locality::lemma_frame_local(
        a,
        frame_pos,
        b,
        offset + targets,
        flags,
        marked,
        structure,
        structure.templates[index],
    );
}

/// The bits of a rewritten payload.
proof fn lemma_rewritten(payload: Seq<u8>, num_decode_targets: u8, mask: u32)
    requires
        mask::rewritten_payload(payload, num_decode_targets, mask) is Some,
    ensures
        ({
            let before = bits::payload_bits(payload);
            let rewritten = mask::rewritten_payload(payload, num_decode_targets, mask)->0;
            &&& mask::rewritten_bits(before, num_decode_targets as nat, mask as nat) is Some
            &&& bits::payload_bits(rewritten) == bits::padded(
                mask::rewritten_bits(before, num_decode_targets as nat, mask as nat)->0,
            )
        }),
{
    let before = bits::payload_bits(payload);
    bits::lemma_unpack_pack(
        mask::rewritten_bits(before, num_decode_targets as nat, mask as nat)->0,
    );
}

/// A mask over so many decode targets that marks no others is read back from the
/// bits that hold it.
proof fn lemma_mask_field(all: Seq<bool>, offset: int, num_decode_targets: nat, mask: nat)
    requires
        1 <= num_decode_targets <= 32,
        mask <= metadata::all_active_mask(num_decode_targets),
        0 <= offset,
        offset + num_decode_targets <= all.len(),
        all.subrange(offset, offset + num_decode_targets) == bits::value_bits(
            mask,
            num_decode_targets,
        ),
    ensures
        fields::field(all, offset, num_decode_targets) == Some((mask, offset + num_decode_targets)),
{
    power2::lemma2_to64();
    power2::lemma_pow2_pos(num_decode_targets);
    bits::lemma_value_of_value_bits(mask, num_decode_targets);
}

/// The fields of a frame that can be read fit, and where the last one ends, as far as
/// it can be told without the retained structure, is where it ends.
pub proof fn lemma_frame_end_known(
    bits: Seq<bool>,
    pos: int,
    flags: DescriptorFlags,
    structure: StructureView,
    template: TemplateView,
    num_chains: Option<nat>,
)
    requires
        0 <= pos <= bits.len(),
        parser::frame_at(bits, pos, flags, structure, template) is Some,
        num_chains matches Some(count) ==> count == structure.num_chains,
    ensures
        mask::frame_fits(bits, pos, flags, structure.num_decode_targets as nat, num_chains),
        !flags.custom_chains || num_chains is Some ==> mask::frame_end(
            bits,
            pos,
            flags,
            structure.num_decode_targets as nat,
            num_chains,
        ) == Some((parser::frame_at(bits, pos, flags, structure, template)->0).1),
{
    let targets = structure.num_decode_targets as nat;
    locality::lemma_fields_end(bits, pos, targets, 2);
    let next = (parser::indications_at(bits, pos, flags, targets, template)->0).1;
    fields::lemma_custom_frame_diffs_end(bits, next);
    let after = (parser::frame_diffs_at(bits, next, flags, template)->0).1;
    locality::lemma_fields_end(bits, after, structure.num_chains as nat, 8);
}

/// Where the mask of a descriptor stands once it has one.
#[verifier::opaque]
spec fn mask_offset(bits: Seq<bool>, num_decode_targets: nat) -> int {
    let (flags, pos) = parser::flags_of(bits)->0;
    if flags.structure {
        (mask::mask_place(bits, pos, flags, num_decode_targets)->0).0
    } else {
        29
    }
}

/// How many bits behind the place of the mask are kept when a mask is written, and
/// from where on.
#[verifier::opaque]
spec fn kept_rest(bits: Seq<bool>, num_decode_targets: nat) -> (int, int) {
    let (flags, pos) = parser::flags_of(bits)->0;
    let offset = mask_offset(bits, num_decode_targets);
    if bits.len() == 24 {
        (24, 0)
    } else if flags.mask {
        (offset + num_decode_targets, bits.len() - offset - num_decode_targets)
    } else {
        let num_chains = (mask::mask_place(bits, pos, flags, num_decode_targets)->0).1;
        let kept = mask::kept_bits(bits, offset, flags, num_decode_targets, num_chains);
        (offset, kept.len() - offset)
    }
}

/// The end of a frame's own fields lies within the bits.
pub proof fn lemma_frame_end_bounds(
    bits: Seq<bool>,
    pos: int,
    flags: DescriptorFlags,
    num_decode_targets: nat,
    num_chains: Option<nat>,
)
    requires
        0 <= pos <= bits.len(),
    ensures
        mask::frame_end(bits, pos, flags, num_decode_targets, num_chains) matches Some(end) ==> pos
            <= end <= bits.len(),
{
    let dtis_end = if flags.custom_dtis {
        pos + 2 * num_decode_targets
    } else {
        pos
    };
    fields::lemma_custom_frame_diffs_end(bits, dtis_end);
}

/// The bits `after` are those of a descriptor into which a mask was written: the
/// mask stands at `offset`, and `rest_len` bits from `rest` on follow it.
spec fn mask_written(
    before: Seq<bool>,
    after: Seq<bool>,
    mask_bits: Seq<bool>,
    offset: int,
    rest: int,
    rest_len: int,
) -> bool {
    let flags = (parser::flags_of(before)->0).0;
    &&& 29 <= offset
    &&& offset + mask_bits.len() <= after.len()
    &&& parser::flags_of(after) == Some((with_mask_flag(flags), 29int))
    &&& locality::agree(before, 0, after, 0, 24)
    &&& before.len() > 24 ==> locality::agree(before, 29, after, 29, offset - 29)
    &&& after.subrange(offset, offset + mask_bits.len()) == mask_bits
    &&& locality::agree(before, rest, after, offset + mask_bits.len(), rest_len)
}

/// A mask appended to the mandatory fields.
proof fn lemma_mask_appended(before: Seq<bool>, mask_bits: Seq<bool>)
    requires
        before.len() == 24,
        mask_bits.len() > 0,
    ensures
        mask_written(
            before,
            bits::padded(before + seq![false, true, false, false, false] + mask_bits),
            mask_bits,
            29,
            24,
            0,
        ),
{
    let len = mask_bits.len() as int;
    let after = bits::padded(before + seq![false, true, false, false, false] + mask_bits);
    locality::lemma_agree(before, 0, after, 0, 24);
    locality::lemma_agree(before, 24, after, 29 + len, 0);
    assert(before.subrange(0, 24) =~= after.subrange(0, 24));
    assert(after.subrange(29, 29 + len) =~= mask_bits);
    assert(before.subrange(24, 24) =~= after.subrange(29 + len, 29 + len));
}

/// A mask written over one that is there.
proof fn lemma_mask_replaced(before: Seq<bool>, mask_bits: Seq<bool>, offset: int)
    requires
        before.len() >= 29,
        before[25],
        29 <= offset,
        offset + mask_bits.len() <= before.len(),
    ensures
        mask_written(
            before,
            bits::padded(before.take(offset) + mask_bits + before.skip(offset + mask_bits.len())),
            mask_bits,
            offset,
            offset + mask_bits.len(),
            before.len() - offset - mask_bits.len(),
        ),
{
    let len = mask_bits.len() as int;
    let out = before.take(offset) + mask_bits + before.skip(offset + len);
    let after = bits::padded(out);
    let rest_len = before.len() - offset - len;
    locality::lemma_agree(before, 0, after, 0, 24);
    locality::lemma_agree(before, 29, after, 29, offset - 29);
    locality::lemma_agree(before, offset + len, after, offset + len, rest_len);
    assert(before.subrange(0, 24) =~= after.subrange(0, 24));
    assert(before.subrange(29, offset) =~= after.subrange(29, offset));
    assert(after.subrange(offset, offset + len) =~= mask_bits);
    assert(before.subrange(offset + len, offset + len + rest_len) =~= after.subrange(
        offset + len,
        offset + len + rest_len,
    ));
}

/// A mask put into a descriptor without one, of which the bits `kept` are kept.
proof fn lemma_mask_injected(
    before: Seq<bool>,
    kept: Seq<bool>,
    mask_bits: Seq<bool>,
    offset: int,
)
    requires
        before.len() >= 29,
        29 <= offset <= kept.len() <= before.len(),
        kept == before.take(kept.len() as int),
    ensures
        ({
            let marked = kept.update(25, true);
            mask_written(
                before,
                bits::padded(marked.take(offset) + mask_bits + marked.skip(offset)),
                mask_bits,
                offset,
                offset,
                kept.len() - offset,
            )
        }),
{
    let len = mask_bits.len() as int;
    let marked = kept.update(25, true);
    let out = marked.take(offset) + mask_bits + marked.skip(offset);
    let after = bits::padded(out);
    let rest_len = kept.len() - offset;
    locality::lemma_agree(before, 0, after, 0, 24);
    locality::lemma_agree(before, 29, after, 29, offset - 29);
    locality::lemma_agree(before, offset, after, offset + len, rest_len);
    assert forall|i: int| 0 <= i < kept.len() implies kept[i] == before[i] by {
        assert(kept[i] == before.take(kept.len() as int)[i]);
    }
    assert(before.subrange(0, 24) =~= after.subrange(0, 24));
    assert(before.subrange(29, offset) =~= after.subrange(29, offset));
    assert(after.subrange(offset, offset + len) =~= mask_bits);
    assert(before.subrange(offset, offset + rest_len) =~= after.subrange(
        offset + len,
        offset + len + rest_len,
    ));
}

/// What a descriptor's bits are after a mask was written into it.
proof fn lemma_rewritten_layout(before: Seq<bool>, num_decode_targets: nat, mask: nat)
    requires
        num_decode_targets > 0,
        mask::rewritten_bits(before, num_decode_targets, mask) is Some,
    ensures
        before.len() >= 24,
        parser::flags_of(before) is Some,
        bits::value_bits(mask, num_decode_targets).len() == num_decode_targets,
        mask_written(
            before,
            bits::padded(mask::rewritten_bits(before, num_decode_targets, mask)->0),
            bits::value_bits(mask, num_decode_targets),
            mask_offset(before, num_decode_targets),
            kept_rest(before, num_decode_targets).0,
            kept_rest(before, num_decode_targets).1,
        ),
{
    reveal(mask_offset);
    reveal(kept_rest);
    let mask_bits = bits::value_bits(mask, num_decode_targets);
    let (flags, pos) = parser::flags_of(before)->0;
    let offset = mask_offset(before, num_decode_targets);
    bits::lemma_value_bits_len(mask, num_decode_targets);
    locality::lemma_structure_end(before, pos);
    if before.len() == 24 {
        lemma_mask_appended(before, mask_bits);
    } else if flags.mask {
        lemma_mask_replaced(before, mask_bits, offset);
    } else {
        let num_chains = (mask::mask_place(before, pos, flags, num_decode_targets)->0).1;
        lemma_frame_end_bounds(before, offset, flags, num_decode_targets, num_chains);
        let kept = mask::kept_bits(before, offset, flags, num_decode_targets, num_chains);
        assert(kept =~= before.take(kept.len() as int));
        lemma_mask_injected(before, kept, mask_bits, offset);
    }
}

/// A descriptor that can be read can have its mask written, and the fields behind
/// the mask are kept.
proof fn lemma_readable_is_rewritable(
    before: Seq<bool>,
    retained: Option<StructureView>,
    num_decode_targets: nat,
    mask: nat,
)
    requires
        parser::descriptor_of(before, retained) matches Some((descriptor, end))
            && descriptor.structure.num_decode_targets == num_decode_targets,
    ensures
        mask::rewritten_bits(before, num_decode_targets, mask) is Some,
        ({
            let end = (parser::descriptor_of(before, retained)->0).1;
            let (flags, pos) = parser::flags_of(before)->0;
            let mask_pos = (parser::structure_of(before, pos, flags, retained)->0).1;
            let frame_pos = (parser::mask_at(before, mask_pos, flags, num_decode_targets)->0).1;
            let (rest, rest_len) = kept_rest(before, num_decode_targets);
            &&& rest == frame_pos
            &&& frame_pos <= end <= rest + rest_len
            &&& mask_offset(before, num_decode_targets) == if flags.structure {
                mask_pos
            } else {
                29
            }
        }),
{
    reveal(mask_offset);
    reveal(kept_rest);
    let (descriptor, end) = parser::descriptor_of(before, retained)->0;
    let (flags, pos) = parser::flags_of(before)->0;
    let (structure, mask_pos) = parser::structure_of(before, pos, flags, retained)->0;
    let frame_pos = (parser::mask_at(before, mask_pos, flags, num_decode_targets)->0).1;
    let template_id = bits::bits_value(before.subrange(2, 8)) as u8;
    let index = parser::template_index(template_id, structure.structure_id);
    let template = structure.templates[index];
    locality::lemma_structure_end(before, pos);
    locality::lemma_frame_end(before, frame_pos, flags, structure, template);
    let num_chains = (mask::mask_place(before, pos, flags, num_decode_targets)->0).1;
    lemma_frame_end_known(before, frame_pos, flags, structure, template, num_chains);
}

/// A descriptor is read from bits into which a mask was written if the fields
/// behind the mask were kept.
proof fn lemma_mask_written_is_read(
    before: Seq<bool>,
    after: Seq<bool>,
    retained: Option<StructureView>,
    num_decode_targets: nat,
    mask: nat,
    offset: int,
    rest_len: int,
)
    requires
        1 <= num_decode_targets <= 32,
        mask <= metadata::all_active_mask(num_decode_targets),
        before.len() >= 24,
        parser::descriptor_of(before, retained) matches Some((descriptor, end))
            && descriptor.structure.num_decode_targets == num_decode_targets,
        ({
            let end = (parser::descriptor_of(before, retained)->0).1;
            let (flags, pos) = parser::flags_of(before)->0;
            let mask_pos = (parser::structure_of(before, pos, flags, retained)->0).1;
            let frame_pos = (parser::mask_at(before, mask_pos, flags, num_decode_targets)->0).1;
            let mask_bits = bits::value_bits(mask, num_decode_targets);
            &&& mask_bits.len() == num_decode_targets
            &&& frame_pos <= end <= frame_pos + rest_len
            &&& offset == if flags.structure {
                mask_pos
            } else {
                29
            }
            &&& mask_written(before, after, mask_bits, offset, frame_pos, rest_len)
        }),
    ensures
        parser::descriptor_of(after, retained) matches Some((descriptor, end)) && descriptor == (
        DescriptorView {
            mask: Some(mask as u32),
            ..(parser::descriptor_of(before, retained)->0).0
        }),
{
    let end = (parser::descriptor_of(before, retained)->0).1;
    let (flags, pos) = parser::flags_of(before)->0;
    let mask_pos = (parser::structure_of(before, pos, flags, retained)->0).1;
    let frame_pos = (parser::mask_at(before, mask_pos, flags, num_decode_targets)->0).1;
    lemma_mask_field(after, offset, num_decode_targets, mask);
    locality::lemma_agree_part(
        before,
        frame_pos,
        after,
        offset + num_decode_targets,
        rest_len,
        frame_pos,
        end,
    );
    lemma_descriptor_with_mask(before, after, retained, offset, mask);
}

/// A written mask is read back, in terms of bits.
proof fn lemma_written_mask_is_read(
    before: Seq<bool>,
    retained: Option<StructureView>,
    num_decode_targets: nat,
    mask: nat,
)
    requires
        1 <= num_decode_targets <= 32,
        mask <= metadata::all_active_mask(num_decode_targets),
        parser::descriptor_of(before, retained) matches Some((descriptor, end))
            && descriptor.structure.num_decode_targets == num_decode_targets,
    ensures
        mask::rewritten_bits(before, num_decode_targets, mask) matches Some(out)
            && parser::descriptor_of(bits::padded(out), retained) matches Some((descriptor, end))
            && descriptor == (DescriptorView {
            mask: Some(mask as u32),
            ..(parser::descriptor_of(before, retained)->0).0
        }),
{
    lemma_readable_is_rewritable(before, retained, num_decode_targets, mask);
    lemma_rewritten_layout(before, num_decode_targets, mask);
    lemma_mask_written_is_read(
        before,
        bits::padded(mask::rewritten_bits(before, num_decode_targets, mask)->0),
        retained,
        num_decode_targets,
        mask,
        mask_offset(before, num_decode_targets),
        kept_rest(before, num_decode_targets).1,
    );
}

/// Writing a mask into a descriptor and reading the descriptor gives the mask back
/// and changes nothing else of what is read.
///
/// The descriptor is one that can be read with the structure that it carries or
/// that was retained, and the mask is one over that structure's decode targets.
pub proof fn law_written_mask_is_read(
    payload: Seq<u8>,
    retained: Option<StructureView>,
    num_decode_targets: u8,
    mask: u32,
)
    requires
        1 <= num_decode_targets <= 32,
        mask <= metadata::all_active_mask(num_decode_targets as nat),
        parser::descriptor_of(bits::payload_bits(payload), retained) matches Some(
            (descriptor, end),
        ) && descriptor.structure.num_decode_targets == num_decode_targets,
    ensures
        mask::rewritten_payload(payload, num_decode_targets, mask) matches Some(rewritten)
            && parser::descriptor_of(bits::payload_bits(rewritten), retained) matches Some(
            (descriptor, end),
        ) && descriptor == (DescriptorView {
            mask: Some(mask),
            ..(parser::descriptor_of(bits::payload_bits(payload), retained)->0).0
        }),
{
    let before = bits::payload_bits(payload);
    lemma_written_mask_is_read(before, retained, num_decode_targets as nat, mask as nat);
    lemma_rewritten(payload, num_decode_targets, mask);
}

/// A written descriptor is at most five bytes longer than it was.
proof fn lemma_rewritten_len(payload: Seq<u8>, num_decode_targets: u8, mask: u32)
    ensures
        mask::rewritten_payload(payload, num_decode_targets, mask) matches Some(rewritten)
            ==> rewritten.len() <= payload.len() + 5,
{
    if let Some(rewritten) = mask::rewritten_payload(payload, num_decode_targets, mask) {
        let before = bits::payload_bits(payload);
        let targets = num_decode_targets as nat;
        bits::lemma_value_bits_len(mask as nat, targets);
        let (flags, pos) = parser::flags_of(before)->0;
        locality::lemma_structure_end(before, pos);
        if before.len() > 24 && !flags.mask {
            let (offset, num_chains) = mask::mask_place(before, pos, flags, targets)->0;
            lemma_frame_end_bounds(before, offset, flags, targets, num_chains);
        }
        assert(mask::rewritten_bits(before, targets, mask as nat)->0.len() <= before.len() + 37);
    }
}

/// A packet that a parser accepts, with another mask written into it, is accepted
/// if its frame is part of a decode target that the new mask marks as active. The
/// metadata then differs in the mask and in what the mask decides, and the new mask
/// is retained. Otherwise the packet is rejected.
///
/// The mask is one over the decode targets of the structure that the packet is read
/// with, and the payload is short enough for its bits to be counted.
pub proof fn law_packet_with_written_mask(
    payload: Seq<u8>,
    state: ParserView,
    num_decode_targets: u8,
    mask: u32,
)
    requires
        state.valid(),
        mask <= metadata::all_active_mask(num_decode_targets as nat),
        8 * payload.len() + 40 <= usize::MAX,
        parser::parse_step(payload, state) matches Some((metadata, next))
            && next.structure matches Some(structure) && structure.num_decode_targets
            == num_decode_targets,
    ensures
        ({
            let (metadata, next) = parser::parse_step(payload, state)->0;
            let indications = metadata.decode_target_indications;
            &&& mask::rewritten_payload(payload, num_decode_targets, mask) matches Some(rewritten)
            &&& parser::parse_step(rewritten, state) == if metadata::frame_active(
                indications,
                mask,
            ) {
                Some(
                    (
                        MetadataView {
                            active_decode_targets_mask: mask,
                            has_switching_decode_target: metadata::frame_switchable(
                                indications,
                                mask,
                            ),
                            ..metadata
                        },
                        ParserView {
                            structure: next.structure,
                            active_decode_targets_mask: Some(mask),
                        },
                    ),
                )
            } else {
                None
            }
        }),
{
    let (metadata, next) = parser::parse_step(payload, state)->0;
    let (descriptor, end) = parser::descriptor_of(
        bits::payload_bits(payload),
        state.structure,
    )->0;
    parser::lemma_step_valid(payload, state);
    law_written_mask_is_read(payload, state.structure, num_decode_targets, mask);
    lemma_rewritten_len(payload, num_decode_targets, mask);
    metadata::lemma_wire_indications(descriptor.frame.decode_target_indications, mask);
}

/// Writing a mask over one that was written before leaves no trace of the earlier
/// one.
pub proof fn law_last_written_mask_counts(
    payload: Seq<u8>,
    num_decode_targets: u8,
    earlier: u32,
    mask: u32,
)
    requires
        mask::rewritten_payload(payload, num_decode_targets, earlier) is Some,
        mask <= metadata::all_active_mask(num_decode_targets as nat),
    ensures
        mask::rewritten_payload(
            mask::rewritten_payload(payload, num_decode_targets, earlier)->0,
            num_decode_targets,
            mask,
        ) == mask::rewritten_payload(payload, num_decode_targets, mask),
        mask::rewritten_payload(payload, num_decode_targets, mask) is Some,
{
    let before = bits::payload_bits(payload);
    let targets = num_decode_targets as nat;
    lemma_rewritten(payload, num_decode_targets, earlier);
    lemma_rewritten(payload, num_decode_targets, mask);
    lemma_overwritten(before, targets, earlier as nat, mask as nat);
    let direct = mask::rewritten_bits(before, targets, mask as nat)->0;
    bits::lemma_pack_padded(direct);
}

/// The bits before and behind the mask of a written descriptor.
#[verifier::opaque]
spec fn around_mask(before: Seq<bool>, num_decode_targets: nat) -> (Seq<bool>, Seq<bool>) {
    let (flags, pos) = parser::flags_of(before)->0;
    let (offset, num_chains) = mask::mask_place(before, pos, flags, num_decode_targets)->0;
    if before.len() == 24 {
        (before + seq![false, true, false, false, false], Seq::empty())
    } else if flags.mask {
        (before.take(offset), before.skip(offset + num_decode_targets))
    } else {
        let kept = mask::kept_bits(before, offset, flags, num_decode_targets, num_chains);
        let marked = kept.update(25, true);
        (marked.take(offset), marked.skip(offset))
    }
}

/// A written descriptor is its mask with bits around it that do not depend on the
/// mask.
proof fn lemma_around_mask(before: Seq<bool>, num_decode_targets: nat, mask: nat)
    requires
        mask::rewritten_bits(before, num_decode_targets, mask) is Some,
    ensures
        mask::rewritten_bits(before, num_decode_targets, mask)->0 == around_mask(
            before,
            num_decode_targets,
        ).0 + bits::value_bits(mask, num_decode_targets) + around_mask(
            before,
            num_decode_targets,
        ).1,
        around_mask(before, num_decode_targets).0.len() == mask_offset(before, num_decode_targets),
{
    reveal(mask_offset);
    reveal(around_mask);
    let (flags, pos) = parser::flags_of(before)->0;
    let (head, tail) = around_mask(before, num_decode_targets);
    let mask_bits = bits::value_bits(mask, num_decode_targets);
    locality::lemma_structure_end(before, pos);
    if before.len() == 24 {
        assert(head + mask_bits + tail =~= head + mask_bits);
    } else if !flags.mask {
        let (offset, num_chains) = mask::mask_place(before, pos, flags, num_decode_targets)->0;
        lemma_frame_end_bounds(before, offset, flags, num_decode_targets, num_chains);
    }
}

/// Exchanging the bits between `head` and `tail`.
proof fn lemma_exchange(head: Seq<bool>, x: Seq<bool>, y: Seq<bool>, tail: Seq<bool>)
    requires
        x.len() == y.len(),
    ensures
        ({
            let all = bits::padded(head + x + tail);
            all.take(head.len() as int) + y + all.skip((head.len() + y.len()) as int)
                == bits::padded(head + y + tail)
        }),
{
    let all = bits::padded(head + x + tail);
    assert(all.take(head.len() as int) + y + all.skip((head.len() + y.len()) as int)
        =~= bits::padded(head + y + tail));
}

/// Whether a frame's fields fit, and where they end, depends on the bits that they
/// take up alone, and not on whether the descriptor carries a structure or a mask.
proof fn lemma_frame_end_local(
    a: Seq<bool>,
    i: int,
    b: Seq<bool>,
    j: int,
    x: DescriptorFlags,
    y: DescriptorFlags,
    num_decode_targets: nat,
    num_chains: Option<nat>,
)
    requires
        0 <= i <= a.len(),
        x.custom_dtis == y.custom_dtis,
        x.custom_fdiffs == y.custom_fdiffs,
        x.custom_chains == y.custom_chains,
        mask::frame_end(a, i, x, num_decode_targets, num_chains) matches Some(end)
            && locality::agree(a, i, b, j, end - i),
    ensures
        mask::frame_end(b, j, y, num_decode_targets, num_chains) == Some(
            j + mask::frame_end(a, i, x, num_decode_targets, num_chains)->0 - i,
        ),
{
    let end = mask::frame_end(a, i, x, num_decode_targets, num_chains)->0;
    let dtis_end = if x.custom_dtis {
        i + 2 * num_decode_targets
    } else {
        i
    };
    locality::lemma_agree(a, i, b, j, end - i);
    if x.custom_fdiffs {
        let fdiffs_end = (fields::custom_frame_diffs(a, dtis_end)->0).1;
        fields::lemma_custom_frame_diffs_end(a, dtis_end);
        locality::lemma_agree_part(a, i, b, j, end - i, dtis_end, fdiffs_end);
        locality::lemma_custom_frame_diffs_local(a, dtis_end, b, j + dtis_end - i);
    }
}

/// The fields behind the mask of a descriptor into which a mask was written fit among
/// the bits that were kept.
proof fn lemma_kept_rest_fits(before: Seq<bool>, num_decode_targets: nat, mask: nat)
    requires
        mask::rewritten_bits(before, num_decode_targets, mask) is Some,
    ensures
        ({
            let (flags, pos) = parser::flags_of(before)->0;
            let num_chains = (mask::mask_place(before, pos, flags, num_decode_targets)->0).1;
            let known = mask::known_flags(flags, num_chains);
            let (rest, rest_len) = kept_rest(before, num_decode_targets);
            &&& 0 <= rest <= before.len()
            &&& mask::frame_end(before, rest, known, num_decode_targets, num_chains) matches Some(
                end,
            )
            &&& rest <= end <= rest + rest_len
        }),
{
    reveal(mask_offset);
    reveal(kept_rest);
    let (flags, pos) = parser::flags_of(before)->0;
    let num_chains = (mask::mask_place(before, pos, flags, num_decode_targets)->0).1;
    let known = mask::known_flags(flags, num_chains);
    let rest = kept_rest(before, num_decode_targets).0;
    locality::lemma_structure_end(before, pos);
    lemma_frame_end_bounds(before, rest, known, num_decode_targets, num_chains);
}

/// The place of the mask is the same after a mask was written.
proof fn lemma_place_kept(
    before: Seq<bool>,
    after: Seq<bool>,
    flags: DescriptorFlags,
    pos: int,
    num_decode_targets: nat,
)
    requires
        parser::flags_of(before) == Some((flags, pos)),
        mask::mask_place(before, pos, flags, num_decode_targets) is Some,
        flags.structure ==> locality::agree(
            before,
            29,
            after,
            29,
            mask_offset(before, num_decode_targets) - 29,
        ),
    ensures
        mask::mask_place(after, 29, with_mask_flag(flags), num_decode_targets) == Some(
            (
                mask_offset(before, num_decode_targets),
                (mask::mask_place(before, pos, flags, num_decode_targets)->0).1,
            ),
        ),
{
    reveal(mask_offset);
    if flags.structure {
        locality::lemma_structure_local(before, 29, after, 29);
    }
}

/// The fields behind a mask that was written fit.
proof fn lemma_written_fits(
    before: Seq<bool>,
    after: Seq<bool>,
    num_decode_targets: nat,
    mask: nat,
    start: int,
)
    requires
        mask::rewritten_bits(before, num_decode_targets, mask) is Some,
        ({
            let (rest, rest_len) = kept_rest(before, num_decode_targets);
            locality::agree(before, rest, after, start, rest_len)
        }),
    ensures
        ({
            let (flags, pos) = parser::flags_of(before)->0;
            let num_chains = (mask::mask_place(before, pos, flags, num_decode_targets)->0).1;
            mask::frame_fits(after, start, with_mask_flag(flags), num_decode_targets, num_chains)
        }),
{
    let (flags, pos) = parser::flags_of(before)->0;
    let num_chains = (mask::mask_place(before, pos, flags, num_decode_targets)->0).1;
    let known = mask::known_flags(flags, num_chains);
    let (rest, rest_len) = kept_rest(before, num_decode_targets);
    lemma_kept_rest_fits(before, num_decode_targets, mask);
    let end = mask::frame_end(before, rest, known, num_decode_targets, num_chains)->0;
    locality::lemma_agree_part(before, rest, after, start, rest_len, rest, end);
    lemma_frame_end_local(
        before,
        rest,
        after,
        start,
        known,
        mask::known_flags(with_mask_flag(flags), num_chains),
        num_decode_targets,
        num_chains,
    );
}

/// A mask that was written is found again where it was put, and the fields behind it
/// fit.
proof fn lemma_written_place(before: Seq<bool>, num_decode_targets: nat, mask: nat)
    requires
        num_decode_targets > 0,
        mask::rewritten_bits(before, num_decode_targets, mask) is Some,
    ensures
        ({
            let after = bits::padded(mask::rewritten_bits(before, num_decode_targets, mask)->0);
            let offset = mask_offset(before, num_decode_targets);
            &&& after.len() > 24
            &&& offset + num_decode_targets <= after.len()
            &&& parser::flags_of(after) matches Some((flags, pos))
            &&& flags.mask
            &&& mask::mask_place(after, pos, flags, num_decode_targets) matches Some(
                (place, num_chains),
            )
            &&& place == offset
            &&& mask::frame_fits(
                after,
                place + num_decode_targets,
                flags,
                num_decode_targets,
                num_chains,
            )
        }),
{
    let after = bits::padded(mask::rewritten_bits(before, num_decode_targets, mask)->0);
    let (flags, pos) = parser::flags_of(before)->0;
    let offset = mask_offset(before, num_decode_targets);
    lemma_rewritten_layout(before, num_decode_targets, mask);
    lemma_place_kept(before, after, flags, pos, num_decode_targets);
    lemma_written_fits(before, after, num_decode_targets, mask, offset + num_decode_targets);
}

/// A written mask leaves no trace of one that was written before, in terms of bits.
proof fn lemma_overwritten(before: Seq<bool>, num_decode_targets: nat, earlier: nat, mask: nat)
    requires
        num_decode_targets > 0,
        mask::rewritten_bits(before, num_decode_targets, earlier) is Some,
    ensures
        mask::rewritten_bits(before, num_decode_targets, mask) is Some,
        mask::rewritten_bits(
            bits::padded(mask::rewritten_bits(before, num_decode_targets, earlier)->0),
            num_decode_targets,
            mask,
        ) == Some(bits::padded(mask::rewritten_bits(before, num_decode_targets, mask)->0)),
{
    assert(mask::rewritten_bits(before, num_decode_targets, mask) is Some);
    lemma_around_mask(before, num_decode_targets, earlier);
    lemma_around_mask(before, num_decode_targets, mask);
    let (head, tail) = around_mask(before, num_decode_targets);
    bits::lemma_value_bits_len(earlier, num_decode_targets);
    bits::lemma_value_bits_len(mask, num_decode_targets);
    lemma_exchange(
        head,
        bits::value_bits(earlier, num_decode_targets),
        bits::value_bits(mask, num_decode_targets),
        tail,
    );
    lemma_written_place(before, num_decode_targets, earlier);
}

/// Writing the mask that a descriptor carries already changes nothing.
pub proof fn law_rewriting_same_mask(
    payload: Seq<u8>,
    retained: Option<StructureView>,
    num_decode_targets: u8,
    mask: u32,
)
    requires
        1 <= num_decode_targets <= 32,
        parser::descriptor_of(bits::payload_bits(payload), retained) matches Some(
            (descriptor, end),
        ) && descriptor.structure.num_decode_targets == num_decode_targets && descriptor.mask
            == Some(mask),
    ensures
        mask::rewritten_payload(payload, num_decode_targets, mask) == Some(payload),
{
    let before = bits::payload_bits(payload);
    let targets = num_decode_targets as nat;
    let (flags, pos) = parser::flags_of(before)->0;
    let mask_pos = (parser::structure_of(before, pos, flags, retained)->0).1;
    parser::lemma_mask_bound(before, mask_pos, targets);
    locality::lemma_structure_end(before, pos);
    lemma_readable_is_rewritable(before, retained, targets, mask as nat);
    bits::lemma_value_bits_of_value(before.subrange(mask_pos, mask_pos + targets));
    let out = mask::rewritten_bits(before, targets, mask as nat)->0;
    assert(out =~= before);
    bits::lemma_pack_unpack(payload);
}

/// A mask cannot be written if and only if the number of decode targets is not
/// between 1 and 32, the mask marks a target beyond them, the payload is shorter
/// than the mandatory fields, it carries a structure that cannot be read or that has
/// another number of decode targets, or it announces a mask or fields of its frame
/// that do not fit in it. Chain differences are not counted among these fields where
/// no structure is carried that tells how many there are.
pub proof fn law_when_mask_cannot_be_written(
    payload: Seq<u8>,
    num_decode_targets: u8,
    mask: u32,
)
    ensures
        mask::rewritten_payload(payload, num_decode_targets, mask) is None <==> {
            let bits = bits::payload_bits(payload);
            ||| num_decode_targets < 1
            ||| num_decode_targets > 32
            ||| exists|target: int|
                num_decode_targets <= target < 32 && #[trigger] metadata::target_active(
                    mask,
                    target,
                )
            ||| payload.len() < 3
            ||| payload.len() > 3 && {
                let flags = (parser::flags_of(bits)->0).0;
                let mask_len = if flags.mask {
                    num_decode_targets as int
                } else {
                    0
                };
                if flags.structure {
                    match structure::structure_at(bits, 29) {
                        Some((structure, end)) => {
                            ||| structure.num_decode_targets != num_decode_targets
                            ||| end + mask_len > bits.len()
                            ||| !mask::frame_fits(
                                bits,
                                end + mask_len,
                                flags,
                                num_decode_targets as nat,
                                Some(structure.num_chains as nat),
                            )
                        },
                        None => true,
                    }
                } else {
                    ||| 29 + mask_len > bits.len()
                    ||| !mask::frame_fits(
                        bits,
                        29 + mask_len,
                        flags,
                        num_decode_targets as nat,
                        None,
                    )
                }
            }
        },
{
    metadata::lemma_mask_marks_no_others(mask, num_decode_targets as nat);
    locality::lemma_structure_end(bits::payload_bits(payload), 29);
}

/// Replacing a mask that a descriptor carries leaves every other bit as it was.
pub proof fn law_replacing_changes_mask_bits_only(
    payload: Seq<u8>,
    num_decode_targets: u8,
    mask: u32,
    offset: int,
)
    requires
        mask::rewritten_payload(payload, num_decode_targets, mask) is Some,
        ({
            let bits = bits::payload_bits(payload);
            &&& payload.len() > 3
            &&& parser::flags_of(bits) matches Some((flags, pos))
            &&& flags.mask
            &&& mask::mask_place(bits, pos, flags, num_decode_targets as nat) matches Some(
                (place, num_chains),
            )
            &&& offset == place
        }),
    ensures
        ({
            let bits = bits::payload_bits(payload);
            let rewritten = mask::rewritten_payload(payload, num_decode_targets, mask)->0;
            &&& rewritten.len() == payload.len()
            &&& forall|i: int|
                0 <= i < offset || offset + num_decode_targets <= i < bits.len()
                    ==> #[trigger] bits::payload_bits(rewritten)[i] == bits[i]
        }),
{
    let before = bits::payload_bits(payload);
    let pos = (parser::flags_of(before)->0).1;
    locality::lemma_structure_end(before, pos);
    bits::lemma_value_bits_len(mask as nat, num_decode_targets as nat);
    lemma_rewritten(payload, num_decode_targets, mask);
}

/// A packet is accepted only if its frame is part of an active decode target, and
/// the metadata says rightly whether an active decode target can be switched to.
pub proof fn law_accepted_frame_is_active(payload: Seq<u8>, state: ParserView)
    ensures
        parser::parse_step(payload, state) matches Some((metadata, next)) ==> {
            &&& metadata::frame_active(
                metadata.decode_target_indications,
                metadata.active_decode_targets_mask,
            )
            &&& metadata.has_switching_decode_target == metadata::frame_switchable(
                metadata.decode_target_indications,
                metadata.active_decode_targets_mask,
            )
        },
{
    if let Some((metadata, next)) = parser::parse_step(payload, state) {
        let (descriptor, end) = parser::descriptor_of(
            reader::readable_bits(payload),
            state.structure,
        )->0;
        metadata::lemma_wire_indications(
            descriptor.frame.decode_target_indications,
            metadata.active_decode_targets_mask,
        );
    }
}

/// A packet that carries neither a mask nor a structure.
pub open spec fn carries_no_state(payload: Seq<u8>) -> bool {
    parser::flags_of(reader::readable_bits(payload)) matches Some((flags, pos)) ==> !flags.mask
        && !flags.structure
}

/// The target activity that a packet's metadata tells, and the structure, are
/// retained over all packets that follow until one carries a mask or a structure.
pub proof fn law_state_is_retained(first: Seq<u8>, packets: Seq<Seq<u8>>, state: ParserView)
    requires
        parser::parse_step(first, state) is Some,
        forall|i: int| 0 <= i < packets.len() ==> carries_no_state(#[trigger] packets[i]),
    ensures
        ({
            let (metadata, next) = parser::parse_step(first, state)->0;
            &&& parser::state_after(packets, next) == next
            &&& forall|payload: Seq<u8>|
                carries_no_state(payload) ==> (#[trigger] parser::parse_step(
                    payload,
                    parser::state_after(packets, next),
                ) matches Some((following, last)) ==> following.active_decode_targets_mask
                    == metadata.active_decode_targets_mask)
        }),
    decreases packets.len(),
{
    if packets.len() > 0 {
        let shorter = packets.drop_last();
        assert forall|i: int| 0 <= i < shorter.len() implies carries_no_state(
            #[trigger] shorter[i],
        ) by {
            assert(shorter[i] == packets[i]);
        }
        law_state_is_retained(first, shorter, state);
        assert(carries_no_state(packets[packets.len() - 1]));
    }
}

/// Whatever packets a parser sees, what it has retained is valid.
pub proof fn law_reachable_states_are_valid(packets: Seq<Seq<u8>>)
    ensures
        parser::state_after(packets, ParserView::initial()).valid(),
    decreases packets.len(),
{
    if packets.len() > 0 {
        law_reachable_states_are_valid(packets.drop_last());
        parser::lemma_step_valid(
            packets.last(),
            parser::state_after(packets.drop_last(), ParserView::initial()),
        );
    }
}

/// A packet that carries a structure and no mask makes all decode targets of that
/// structure active, whatever was retained.
pub proof fn law_new_structure_activates_all_targets(payload: Seq<u8>, state: ParserView)
    requires
        parser::parse_step(payload, state) is Some,
        ({
            let (flags, pos) = parser::flags_of(reader::readable_bits(payload))->0;
            flags.structure && !flags.mask
        }),
    ensures
        ({
            let (metadata, next) = parser::parse_step(payload, state)->0;
            &&& next.structure matches Some(structure)
            &&& metadata.active_decode_targets_mask == metadata::all_active_mask(
                structure.num_decode_targets as nat,
            )
            &&& forall|target: int|
                0 <= target < 32 ==> #[trigger] metadata::target_active(
                    metadata.active_decode_targets_mask,
                    target,
                ) == (target < structure.num_decode_targets)
        }),
{
    let (metadata, next) = parser::parse_step(payload, state)->0;
    let bits = reader::readable_bits(payload);
    let pos = (parser::flags_of(bits)->0).1;
    structure::lemma_structure_valid(bits, pos);
    let targets = next.structure->0.num_decode_targets as nat;
    parser::lemma_mask_bound(bits, pos, targets);
    metadata::lemma_all_active_mask(targets, metadata.active_decode_targets_mask);
}

/// A packet that carries no structure is rejected by a parser that has retained
/// none.
pub proof fn law_structure_is_needed(payload: Seq<u8>, state: ParserView)
    requires
        state.structure is None,
        parser::flags_of(reader::readable_bits(payload)) matches Some((flags, pos))
            ==> !flags.structure,
    ensures
        parser::parse_step(payload, state) is None,
{
}

/// Metadata has one indication and one layer per decode target, one difference per
/// chain, and one protecting chain per decode target where there are chains; its
/// layer ids are within the limits, its mask marks no decode target that does not
/// exist, and its frame differences are positive.
pub proof fn law_metadata_fits_structure(payload: Seq<u8>, state: ParserView)
    requires
        state.valid(),
    ensures
        parser::parse_step(payload, state) matches Some((metadata, next)) ==> {
            &&& next.valid()
            &&& next.active_decode_targets_mask == Some(metadata.active_decode_targets_mask)
            &&& next.structure matches Some(structure)
            &&& metadata.decode_target_indications.len() == structure.num_decode_targets
            &&& metadata.decode_target_layers.len() == structure.num_decode_targets
            &&& metadata.chain_diffs.len() == structure.num_chains
            &&& metadata.decode_target_protected_by_chain.len() == if structure.num_chains > 0 {
                structure.num_decode_targets as nat
            } else {
                0
            }
            &&& structure::layer_valid(metadata.layer_ids)
            &&& metadata.active_decode_targets_mask <= metadata::all_active_mask(
                structure.num_decode_targets as nat,
            )
            &&& forall|i: int|
                0 <= i < metadata.frame_diffs.len() ==> 1 <= #[trigger] metadata.frame_diffs[i]
                    <= 4096
        },
{
    if let Some((metadata, next)) = parser::parse_step(payload, state) {
        parser::lemma_step_valid(payload, state);
        let bits = reader::readable_bits(payload);
        let (flags, pos) = parser::flags_of(bits)->0;
        let (structure, mask_pos) = parser::structure_of(bits, pos, flags, state.structure)->0;
        let targets = structure.num_decode_targets as nat;
        let frame_pos = (parser::mask_at(bits, mask_pos, flags, targets)->0).1;
        let template_id = bits::bits_value(bits.subrange(2, 8)) as u8;
        let index = parser::template_index(template_id, structure.structure_id);
        let template = structure.templates[index];
        assert(template.valid(targets, structure.num_chains as nat));
        fields::lemma_fields_bound(bits, frame_pos, targets, 2);
        let next_pos = (parser::indications_at(bits, frame_pos, flags, targets, template)->0).1;
        fields::lemma_custom_frame_diffs_bound(bits, next_pos);
        let after = (parser::frame_diffs_at(bits, next_pos, flags, template)->0).1;
        fields::lemma_fields_bound(bits, after, structure.num_chains as nat, 8);
    }
}

/// What follows a descriptor's last field does not matter: an accepted packet with
/// more than the mandatory fields is read alike with any bytes behind it.
pub proof fn law_bytes_behind_descriptor_do_not_matter(
    payload: Seq<u8>,
    behind: Seq<u8>,
    state: ParserView,
)
    requires
        payload.len() > 3,
        parser::parse_step(payload, state) is Some,
    ensures
        parser::parse_step(payload + behind, state) == parser::parse_step(payload, state),
{
    let a = reader::readable_bits(payload);
    let b = reader::readable_bits(payload + behind);
    assert(a =~= b.subrange(0, a.len() as int));
    assert(a =~= a.subrange(0, a.len() as int));
    locality::lemma_agree(a, 0, b, 0, a.len() as int);
    lemma_descriptor_prefix(a, b, state.structure);
}

/// Sequences of which one starts with the other have the same mandatory fields and
/// flags.
proof fn lemma_header_prefix(a: Seq<bool>, b: Seq<bool>)
    requires
        a.len() >= 29,
        locality::agree(a, 0, b, 0, a.len() as int),
    ensures
        b.len() >= 29,
        a[0] == b[0],
        a[1] == b[1],
        a.subrange(2, 8) == b.subrange(2, 8),
        a.subrange(8, 24) == b.subrange(8, 24),
        parser::flags_of(b) == parser::flags_of(a),
{
    let len = a.len() as int;
    locality::lemma_agree(a, 0, b, 0, len);
    let x = a.subrange(0, len);
    let y = b.subrange(0, len);
    assert(x.subrange(2, 8) =~= a.subrange(2, 8) && y.subrange(2, 8) =~= b.subrange(2, 8));
    assert(x.subrange(8, 24) =~= a.subrange(8, 24) && y.subrange(8, 24) =~= b.subrange(8, 24));
    assert(x[0] == y[0] && x[1] == y[1]);
    assert(x[24] == y[24] && x[25] == y[25] && x[26] == y[26] && x[27] == y[27] && x[28] == y[28]);
}

/// Sequences of which one starts with the other hold the same structure.
proof fn lemma_structure_prefix(
    a: Seq<bool>,
    b: Seq<bool>,
    flags: DescriptorFlags,
    retained: Option<StructureView>,
)
    requires
        a.len() >= 29,
        locality::agree(a, 0, b, 0, a.len() as int),
    ensures
        parser::structure_of(a, 29, flags, retained) matches Some((structure, end)) ==> 29 <= end
            <= a.len() && parser::structure_of(b, 29, flags, retained) == Some((structure, end)),
{
    if flags.structure {
        locality::lemma_structure_end(a, 29);
        if let Some((structure, end)) = structure::structure_at(a, 29) {
            locality::lemma_agree_part(a, 0, b, 0, a.len() as int, 29, end);
            locality::lemma_structure_local(a, 29, b, 29);
        }
    }
}

/// Sequences of which one starts with the other hold the same mask.
proof fn lemma_mask_prefix(
    a: Seq<bool>,
    b: Seq<bool>,
    pos: int,
    flags: DescriptorFlags,
    num_decode_targets: nat,
)
    requires
        0 <= pos <= a.len(),
        locality::agree(a, 0, b, 0, a.len() as int),
    ensures
        parser::mask_at(a, pos, flags, num_decode_targets) matches Some((mask, end)) ==> pos <= end
            <= a.len() && parser::mask_at(b, pos, flags, num_decode_targets) == Some((mask, end)),
{
    if flags.mask && parser::mask_at(a, pos, flags, num_decode_targets) is Some {
        locality::lemma_agree_part(a, 0, b, 0, a.len() as int, pos, pos + num_decode_targets);
        locality::lemma_field_local(a, pos, b, pos, num_decode_targets);
    }
}

/// Sequences of which one starts with the other say the same of a frame.
proof fn lemma_frame_prefix(
    a: Seq<bool>,
    b: Seq<bool>,
    pos: int,
    flags: DescriptorFlags,
    structure: StructureView,
    template_id: u8,
)
    requires
        0 <= pos <= a.len(),
        locality::agree(a, 0, b, 0, a.len() as int),
        parser::template_frame_at(a, pos, flags, structure, template_id) is Some,
    ensures
        parser::template_frame_at(b, pos, flags, structure, template_id)
            == parser::template_frame_at(a, pos, flags, structure, template_id),
{
    let template = structure.templates[parser::template_index(
        template_id,
        structure.structure_id,
    )];
    let end = (parser::frame_at(a, pos, flags, structure, template)->0).1;
    locality::lemma_frame_end(a, pos, flags, structure, template);
    locality::lemma_agree_part(a, 0, b, 0, a.len() as int, pos, end);
    locality::lemma_frame_local(a, pos, b, pos, flags, flags, structure, template);
}

/// Sequences of which one starts with the other hold the same descriptor.
proof fn lemma_descriptor_prefix(a: Seq<bool>, b: Seq<bool>, retained: Option<StructureView>)
    requires
        a.len() > 24,
        locality::agree(a, 0, b, 0, a.len() as int),
        parser::descriptor_of(a, retained) is Some,
    ensures
        parser::descriptor_of(b, retained) == parser::descriptor_of(a, retained),
{
    let flags = (parser::flags_of(a)->0).0;
    let (structure, mask_pos) = parser::structure_of(a, 29, flags, retained)->0;
    let targets = structure.num_decode_targets as nat;
    let frame_pos = (parser::mask_at(a, mask_pos, flags, targets)->0).1;
    let template_id = bits::bits_value(a.subrange(2, 8)) as u8;
    lemma_header_prefix(a, b);
    lemma_structure_prefix(a, b, flags, retained);
    lemma_mask_prefix(a, b, mask_pos, flags, targets);
    lemma_frame_prefix(a, b, frame_pos, flags, structure, template_id);
}

/// A descriptor with clear flags is read as its mandatory fields are, but for where it
/// ends.
proof fn lemma_clear_flags_read(short: Seq<bool>, long: Seq<bool>, retained: Option<StructureView>)
    requires
        short.len() == 24,
        long.len() >= 29,
        short == long.take(24),
        !long[24] && !long[25] && !long[26] && !long[27] && !long[28],
    ensures
        match parser::descriptor_of(short, retained) {
            Some((descriptor, end)) => parser::descriptor_of(long, retained) matches Some((other, e))
                && other == descriptor,
            None => parser::descriptor_of(long, retained) is None,
        },
{
    assert(short.subrange(2, 8) =~= long.subrange(2, 8));
    assert(short.subrange(8, 24) =~= long.subrange(8, 24));
    assert(short[0] == long[0] && short[1] == long[1]);
}

/// A mask is written into a descriptor with clear flags as into its mandatory fields.
proof fn lemma_clear_flags_rewritten(
    short: Seq<bool>,
    long: Seq<bool>,
    num_decode_targets: nat,
    mask: nat,
)
    requires
        short.len() == 24,
        long.len() >= 29,
        short == long.take(24),
        !long[24] && !long[25] && !long[26] && !long[27] && !long[28],
    ensures
        mask::rewritten_bits(long, num_decode_targets, mask) == mask::rewritten_bits(
            short,
            num_decode_targets,
            mask,
        ),
{
    let flags = (parser::flags_of(long)->0).0;
    assert(mask::frame_end(long, 29, flags, num_decode_targets, None) == Some(29int));
    let marked = long.take(29).update(25, true);
    assert(marked =~= short + seq![false, true, false, false, false]);
    let mask_bits = bits::value_bits(mask, num_decode_targets);
    assert(marked.take(29) + mask_bits + marked.skip(29) =~= marked + mask_bits);
}

/// A descriptor that announces none of the fields behind the mandatory ones counts for
/// its mandatory fields alone: it is read, and a mask is written into it, as if it ended
/// with them.
pub proof fn law_clear_flags_leave_mandatory_fields(
    payload: Seq<u8>,
    state: ParserView,
    num_decode_targets: u8,
    mask: u32,
)
    requires
        payload.len() > 3,
        forall|i: int| 24 <= i < 29 ==> !#[trigger] bits::payload_bits(payload)[i],
    ensures
        parser::parse_step(payload, state) == parser::parse_step(payload.take(3), state),
        mask::rewritten_payload(payload, num_decode_targets, mask) == mask::rewritten_payload(
            payload.take(3),
            num_decode_targets,
            mask,
        ),
{
    let short = bits::payload_bits(payload.take(3));
    let long = bits::payload_bits(payload);
    let readable = reader::readable_bits(payload);
    assert(!long[24] && !long[25] && !long[26] && !long[27] && !long[28]);
    assert(short =~= long.take(24));
    assert(short =~= readable.take(24));
    lemma_clear_flags_read(short, readable, state.structure);
    lemma_clear_flags_rewritten(short, long, num_decode_targets as nat, mask as nat);
}

/// Template ids count up from the id of the structure and start again at 0 behind
/// 63: each of the 64 templates that a structure can have is referred to by exactly
/// one id.
pub proof fn law_template_ids_wrap(structure_id: u8, template: int)
    requires
        structure_id < 64,
        0 <= template < 64,
    ensures
        parser::template_index(((structure_id + template) % 64) as u8, structure_id) == template,
        forall|id: u8|
            id < 64 && #[trigger] parser::template_index(id, structure_id) == template ==> id == (
            structure_id + template) % 64,
{
}

/// A packet that consists of the mandatory fields alone is read with the retained
/// structure: its frame is as the template says that it refers to.
pub proof fn law_mandatory_fields_refer_to_template(payload: Seq<u8>, state: ParserView)
    requires
        payload.len() == 3,
    ensures
        parser::parse_step(payload, state) matches Some((metadata, next)) ==> {
            let bits = bits::payload_bits(payload);
            let template_id = bits::bits_value(bits.subrange(2, 8)) as u8;
            &&& state.structure matches Some(structure)
            &&& next.structure == state.structure
            &&& 0 <= parser::template_index(template_id, structure.structure_id)
                < structure.templates.len()
            &&& ({
                let template = structure.templates[parser::template_index(
                    template_id,
                    structure.structure_id,
                )];
                &&& metadata.layer_ids == template.layer_ids
                &&& metadata::indications_of(template.decode_target_indications) == Some(
                    metadata.decode_target_indications,
                )
                &&& metadata.frame_diffs == template.frame_diffs
                &&& metadata.chain_diffs == template.chain_diffs
            })
        },
{
}

/// The layer of a decode target is the highest of its templates: it is at least the
/// layer of each template that is part of the target, and each of its two ids is
/// that of such a template, or 0.
pub proof fn law_target_layer_is_highest(templates: Seq<TemplateView>, target: int)
    ensures
        forall|i: int|
            0 <= i < templates.len() && (#[trigger] templates[i]).decode_target_indications[target]
                != metadata::DTI_NOT_PRESENT ==> templates[i].layer_ids.temporal_id
                <= structure::target_layer(templates, target).temporal_id
                && templates[i].layer_ids.spatial_id <= structure::target_layer(
                templates,
                target,
            ).spatial_id,
        structure::target_layer(templates, target).temporal_id == 0 || exists|i: int|
            0 <= i < templates.len() && (#[trigger] templates[i]).decode_target_indications[target]
                != metadata::DTI_NOT_PRESENT && templates[i].layer_ids.temporal_id
                == structure::target_layer(templates, target).temporal_id,
        structure::target_layer(templates, target).spatial_id == 0 || exists|i: int|
            0 <= i < templates.len() && (#[trigger] templates[i]).decode_target_indications[target]
                != metadata::DTI_NOT_PRESENT && templates[i].layer_ids.spatial_id
                == structure::target_layer(templates, target).spatial_id,
    decreases templates.len(),
{
    if templates.len() > 0 {
        let shorter = templates.drop_last();
        law_target_layer_is_highest(shorter, target);
        let layer = structure::target_layer(templates, target);
        let lower = structure::target_layer(shorter, target);
        let last = templates.len() - 1;
        assert forall|i: int|
            0 <= i < templates.len() && (#[trigger] templates[i]).decode_target_indications[target]
                != metadata::DTI_NOT_PRESENT implies templates[i].layer_ids.temporal_id
            <= layer.temporal_id && templates[i].layer_ids.spatial_id <= layer.spatial_id by {
            if i < last {
                assert(shorter[i] == templates[i]);
            }
        }
        if layer.temporal_id != 0 {
            if layer.temporal_id == lower.temporal_id {
                let i = choose|i: int|
                    0 <= i < shorter.len() && (
                    #[trigger] shorter[i]).decode_target_indications[target]
                        != metadata::DTI_NOT_PRESENT && shorter[i].layer_ids.temporal_id
                        == lower.temporal_id;
                assert(templates[i] == shorter[i]);
            } else {
                assert(templates[last].layer_ids.temporal_id == layer.temporal_id);
            }
        }
        if layer.spatial_id != 0 {
            if layer.spatial_id == lower.spatial_id {
                let i = choose|i: int|
                    0 <= i < shorter.len() && (
                    #[trigger] shorter[i]).decode_target_indications[target]
                        != metadata::DTI_NOT_PRESENT && shorter[i].layer_ids.spatial_id
                        == lower.spatial_id;
                assert(templates[i] == shorter[i]);
            } else {
                assert(templates[last].layer_ids.spatial_id == layer.spatial_id);
            }
        }
    }
}

} // verus!
