//! What holds of the wire format as a whole: what the bits of a payload are, what is read
//! from a descriptor that was written, and what a descriptor is after its mask was
//! rewritten.
use crate::bits;
use crate::descriptor_roundtrip;
use crate::encoding;
use crate::encoding::{CustomFields, RawText, Text};
use crate::fields;
use crate::laws;
use crate::locality;
use crate::mask;
use crate::mask_roundtrip;
use crate::metadata;
use crate::metadata::{DependencyDescriptorLayerIds, DependencyDescriptorPacketMetadata};
use crate::parser;
use crate::parser::ParserView;
use crate::reader;
use crate::roundtrip;
use crate::structure;
use crate::structure::StructureView;
use crate::structure_roundtrip;
use vstd::arithmetic::power2;
use vstd::prelude::*;

verus! {

/// The bits of a payload are those of its bytes, the one of the highest weight first.
pub proof fn law_bits_of_payload(payload: Seq<u8>, i: int)
    requires
        0 <= i < 8 * payload.len(),
    ensures
        bits::payload_bits(payload).len() == 8 * payload.len(),
        bits::payload_bits(payload)[i] <==> (payload[i / 8] as nat / power2::pow2(
            (7 - i % 8) as nat,
        )) % 2 == 1,
{
    let byte = payload[i / 8];
    let shift = (7 - i % 8) as u8;
    vstd::bits::lemma_u8_shr_is_div(byte, shift);
    let high = byte >> shift;
    assert(high & 1u8 == high % 2) by (bit_vector);
}

/// The number that bits stand for has them as its digits, the one of the highest weight
/// first.
pub proof fn law_digits_of_number(digits: Seq<bool>, i: int)
    requires
        0 <= i < digits.len(),
    ensures
        bits::bits_value(digits) < power2::pow2(digits.len()),
        digits[i] <==> (bits::bits_value(digits) / power2::pow2((digits.len() - 1 - i) as nat)) % 2
            == 1,
{
    bits::lemma_bits_value_bound(digits);
    bits::lemma_value_bits_of_value(digits);
    roundtrip::lemma_number(bits::bits_value(digits), digits.len());
}

/// Eight bits stand for the byte that they are the bits of.
proof fn lemma_byte_value(payload: Seq<u8>, k: int)
    requires
        0 <= k < payload.len(),
    ensures
        bits::bits_value(bits::payload_bits(payload).subrange(8 * k, 8 * k + 8)) == payload[k],
{
    let all = bits::payload_bits(payload);
    let eight = all.subrange(8 * k, 8 * k + 8);
    let digits = encoding::number(payload[k] as nat, 8);
    assert forall|i: int| 0 <= i < 8 implies eight[i] == digits[i] by {
        law_bits_of_payload(payload, 8 * k + i);
        assert((8 * k + i) / 8 == k && (8 * k + i) % 8 == i);
    }
    assert(eight =~= digits);
    roundtrip::lemma_number(payload[k] as nat, 8);
    power2::lemma2_to64();
    bits::lemma_value_of_value_bits(payload[k] as nat, 8);
}

/// A number written behind another is added to its multiple.
proof fn lemma_two_numbers(a: Seq<bool>, b: Seq<bool>)
    ensures
        bits::bits_value(a + b) == bits::bits_value(a) * power2::pow2(b.len()) + bits::bits_value(b),
    decreases b.len(),
{
    if b.len() == 0 {
        assert(a + b =~= a);
        power2::lemma2_to64();
        let x = bits::bits_value(a);
        assert(x * 1 == x);
    } else {
        lemma_two_numbers(a, b.drop_last());
        assert((a + b).drop_last() =~= a + b.drop_last());
        assert((a + b).last() == b.last());
        power2::lemma_pow2_unfold(b.len());
        let x = bits::bits_value(a);
        let p = power2::pow2((b.len() - 1) as nat);
        assert(2 * (x * p) == x * (2 * p)) by (nonlinear_arith);
    }
}

/// The mandatory fields are those of the first three bytes.
proof fn lemma_first_bytes(payload: Seq<u8>)
    requires
        payload.len() >= 3,
    ensures
        ({
            let all = bits::payload_bits(payload);
            &&& all[0] <==> payload[0] & 0x80 != 0
            &&& all[1] <==> payload[0] & 0x40 != 0
            &&& bits::bits_value(all.subrange(2, 8)) == payload[0] % 64
            &&& bits::bits_value(all.subrange(8, 24)) == 256 * payload[1] + payload[2]
        }),
{
    let all = bits::payload_bits(payload);
    let byte = payload[0];
    assert(((byte >> 7u8) & 1u8 == 1u8) == (byte & 0x80 != 0)) by (bit_vector);
    assert(((byte >> 6u8) & 1u8 == 1u8) == (byte & 0x40 != 0)) by (bit_vector);
    lemma_byte_value(payload, 0);
    lemma_byte_value(payload, 1);
    lemma_byte_value(payload, 2);
    power2::lemma2_to64();
    assert(all.subrange(0, 8) =~= all.subrange(0, 2) + all.subrange(2, 8));
    assert(all.subrange(8, 24) =~= all.subrange(8, 16) + all.subrange(16, 24));
    lemma_two_numbers(all.subrange(0, 2), all.subrange(2, 8));
    lemma_two_numbers(all.subrange(8, 16), all.subrange(16, 24));
    bits::lemma_bits_value_bound(all.subrange(2, 8));
}

/// For every accepted packet: the two highest bits of the first byte tell whether the
/// packet is the first and the last of its frame, and the second and the third byte are
/// the frame number.
pub proof fn law_frame_fields_are_first_bytes(payload: Seq<u8>, state: ParserView)
    requires
        parser::parse_step(payload, state) is Some,
    ensures
        payload.len() >= 3,
        ({
            let metadata = (parser::parse_step(payload, state)->0).0;
            &&& metadata.first_packet_in_frame <==> payload[0] & 0x80 != 0
            &&& metadata.last_packet_in_frame <==> payload[0] & 0x40 != 0
            &&& metadata.frame_number == 256 * payload[1] + payload[2]
        }),
{
    lemma_readable_start(payload);
    lemma_first_bytes(payload);
}

/// The other six bits of the first byte of an accepted packet are the id of a template of
/// the structure that is retained behind it, and this template gives the layer.
pub proof fn law_layer_is_that_of_named_template(payload: Seq<u8>, state: ParserView) -> (template:
    int)
    requires
        state.structure matches Some(structure) ==> encoding::well_formed(structure),
        parser::parse_step(payload, state) is Some,
    ensures
        payload.len() >= 3,
        ({
            let (metadata, next) = parser::parse_step(payload, state)->0;
            &&& next.structure matches Some(structure)
            &&& 0 <= template < structure.templates.len()
            &&& (structure.structure_id + template) % 64 == payload[0] % 64
            &&& metadata.layer_ids == structure.templates[template].layer_ids
        }),
{
    lemma_readable_start(payload);
    lemma_first_bytes(payload);
    lemma_descriptor_fields(reader::readable_bits(payload), state.structure)
}

/// A descriptor that is read has its mandatory fields in its first bits, and the layer of
/// the template that it refers to.
proof fn lemma_descriptor_fields(bits: Seq<bool>, retained: Option<StructureView>) -> (k: int)
    requires
        retained matches Some(structure) ==> encoding::well_formed(structure),
        parser::descriptor_of(bits, retained) is Some,
    ensures
        bits.len() >= 24,
        ({
            let descriptor = (parser::descriptor_of(bits, retained)->0).0;
            let structure = descriptor.structure;
            let template_id = bits::bits_value(bits.subrange(2, 8));
            &&& encoding::well_formed(structure)
            &&& descriptor.first_packet_in_frame == bits[0]
            &&& descriptor.last_packet_in_frame == bits[1]
            &&& descriptor.frame_number == bits::bits_value(bits.subrange(8, 24))
            &&& 0 <= k < structure.templates.len()
            &&& k == parser::template_index(template_id as u8, structure.structure_id)
            &&& (structure.structure_id + k) % 64 == template_id
            &&& descriptor.layer_ids == structure.templates[k].layer_ids
        }),
{
    let template_id = bits::bits_value(bits.subrange(2, 8));
    let structure = (parser::descriptor_of(bits, retained)->0).0.structure;
    lemma_used_structure(bits, retained);
    assert(template_id <= 63 && bits::bits_value(bits.subrange(8, 24)) <= 0xffff) by {
        power2::lemma2_to64();
        bits::lemma_bits_value_bound(bits.subrange(2, 8));
        bits::lemma_bits_value_bound(bits.subrange(8, 24));
    }
    descriptor_roundtrip::lemma_template_index(template_id, structure.structure_id);
    parser::template_index(template_id as u8, structure.structure_id)
}

/// The structure that a descriptor is read with can be written.
proof fn lemma_used_structure(bits: Seq<bool>, retained: Option<StructureView>)
    requires
        retained matches Some(structure) ==> encoding::well_formed(structure),
        parser::descriptor_of(bits, retained) is Some,
    ensures
        encoding::well_formed((parser::descriptor_of(bits, retained)->0).0.structure),
{
    let (flags, pos) = parser::flags_of(bits)->0;
    if flags.structure {
        structure_roundtrip::lemma_structure_well_formed(bits, pos);
    }
}

/// The bits that can be read start with the bits of the payload.
proof fn lemma_readable_start(payload: Seq<u8>)
    ensures
        reader::readable_bits(payload).len() >= 24 ==> payload.len() >= 3 && {
            let all = bits::payload_bits(payload);
            let readable = reader::readable_bits(payload);
            &&& readable[0] == all[0]
            &&& readable[1] == all[1]
            &&& readable.subrange(2, 8) == all.subrange(2, 8)
            &&& readable.subrange(8, 24) == all.subrange(8, 24)
        },
{
    let all = bits::payload_bits(payload);
    let readable = reader::readable_bits(payload);
    if readable.len() >= 24 {
        assert(readable.subrange(2, 8) =~= all.subrange(2, 8));
        assert(readable.subrange(8, 24) =~= all.subrange(8, 24));
    }
}

/// Both ways to say that a mask marks a target agree.
pub proof fn lemma_marks(mask: u32, target: int)
    requires
        0 <= target < 32,
    ensures
        encoding::marks(mask, target) == metadata::target_active(mask, target),
{
    let shift = target as u32;
    vstd::bits::lemma_u32_shr_is_div(mask, shift);
    let high = mask >> shift;
    assert(high & 1u32 == high % 2) by (bit_vector);
}

/// The mask of all targets is one less than a power of two.
proof fn lemma_full_mask(num_decode_targets: nat)
    requires
        num_decode_targets <= 32,
    ensures
        metadata::all_active_mask(num_decode_targets) == power2::pow2(num_decode_targets) - 1,
        power2::pow2(num_decode_targets) - 1 <= u32::MAX,
{
    power2::lemma2_to64();
    power2::lemma_pow2_pos(num_decode_targets);
    if num_decode_targets < 32 {
        power2::lemma_pow2_strictly_increases(num_decode_targets, 32);
    }
}

/// A frame is part of a target that the mask marks.
pub open spec fn part_of_marked(wire: Seq<u8>, mask: u32) -> bool {
    exists|i: int| 0 <= i < wire.len() && #[trigger] encoding::marks(mask, i) && wire[i] != 0
}

/// A target that the mask marks can be switched to.
pub open spec fn switch_to_marked(wire: Seq<u8>, mask: u32) -> bool {
    exists|i: int| 0 <= i < wire.len() && #[trigger] encoding::marks(mask, i) && wire[i] == 2
}

/// Both ways to say what a mask makes of a frame agree.
proof fn lemma_marked(wire: Seq<u8>, mask: u32)
    requires
        wire.len() <= 32,
    ensures
        part_of_marked(wire, mask) == metadata::any_active_target(wire, mask),
        switch_to_marked(wire, mask) == metadata::any_active_switch(wire, mask),
{
    assert forall|i: int| 0 <= i < wire.len() implies #[trigger] encoding::marks(mask, i)
        == metadata::target_active(mask, i) by {
        lemma_marks(mask, i);
    }
    if metadata::any_active_target(wire, mask) {
        let i = choose|i: int|
            0 <= i < wire.len() && #[trigger] metadata::target_active(mask, i) && wire[i]
                != metadata::DTI_NOT_PRESENT;
        assert(encoding::marks(mask, i));
    }
    if metadata::any_active_switch(wire, mask) {
        let i = choose|i: int|
            0 <= i < wire.len() && #[trigger] metadata::target_active(mask, i) && wire[i]
                == metadata::DTI_SWITCH;
        assert(encoding::marks(mask, i));
    }
    if part_of_marked(wire, mask) {
        let i = choose|i: int|
            0 <= i < wire.len() && #[trigger] encoding::marks(mask, i) && wire[i] != 0;
        assert(metadata::target_active(mask, i));
    }
    if switch_to_marked(wire, mask) {
        let i = choose|i: int|
            0 <= i < wire.len() && #[trigger] encoding::marks(mask, i) && wire[i] == 2;
        assert(metadata::target_active(mask, i));
    }
}

/// The payload is a descriptor that refers to a template of the structure that it is read
/// with.
pub open spec fn is_packet(
    payload: Seq<u8>,
    state: ParserView,
    text: Text,
    used: StructureView,
    template: int,
    rest: Seq<bool>,
) -> bool {
    &&& payload.len() >= 3
    &&& encoding::is_written(bits::payload_bits(payload), text, used, rest)
    &&& encoding::is_used(text.carried, state.structure, used)
    &&& encoding::well_formed(used)
    &&& 0 <= template < used.templates.len()
    &&& text.template_id == (used.structure_id + template) % 64
}

/// What was written into a descriptor is what a parser tells of it and retains: the
/// mandatory fields; the layer of the template; the indications, the frame differences
/// and the chain differences, each by itself from the descriptor or else from the
/// template; and the mask from the descriptor, or else all targets of a structure that it
/// carries, or else what was retained. The packet is accepted if and only if its frame is
/// part of a target that the mask marks.
pub proof fn law_written_descriptor_is_read(
    payload: Seq<u8>,
    state: ParserView,
    text: Text,
    used: StructureView,
    template: int,
    rest: Seq<bool>,
)
    requires
        8 * payload.len() <= usize::MAX,
        is_packet(payload, state, text, used, template, rest),
    ensures
        ({
            let all = (power2::pow2(used.num_decode_targets as nat) - 1) as u32;
            let mask = match (text.mask, text.carried, state.active_decode_targets_mask) {
                (Some(mask), _, _) => mask,
                (None, None, Some(mask)) => mask,
                _ => all,
            };
            let wire = match text.custom.indications {
                Some(values) => values,
                None => used.templates[template].decode_target_indications,
            };
            match parser::parse_step(payload, state) {
                Some((metadata, next)) => {
                    &&& part_of_marked(wire, mask)
                    &&& next.structure == Some(used)
                    &&& next.active_decode_targets_mask == Some(mask)
                    &&& metadata.first_packet_in_frame == text.first_packet_in_frame
                    &&& metadata.last_packet_in_frame == text.last_packet_in_frame
                    &&& metadata.frame_number == text.frame_number
                    &&& metadata.layer_ids == used.templates[template].layer_ids
                    &&& metadata.active_decode_targets_mask == mask
                    &&& metadata.decode_target_indications.len() == wire.len()
                    &&& forall|i: int|
                        0 <= i < wire.len() ==> encoding::wire_value(
                            #[trigger] metadata.decode_target_indications[i],
                        ) == wire[i]
                    &&& metadata.decode_target_layers == used.decode_target_layers
                    &&& metadata.frame_diffs == match text.custom.frame_diffs {
                        Some(diffs) => encoding::plain_diffs(diffs),
                        None => used.templates[template].frame_diffs,
                    }
                    &&& metadata.chain_diffs == match text.custom.chain_diffs {
                        Some(values) => values,
                        None => used.templates[template].chain_diffs,
                    }
                    &&& metadata.decode_target_protected_by_chain
                        == used.decode_target_protected_by_chain
                    &&& metadata.has_switching_decode_target == switch_to_marked(wire, mask)
                },
                None => !part_of_marked(wire, mask),
            }
        }),
{
    let all = bits::payload_bits(payload);
    descriptor_roundtrip::lemma_descriptor_read(all, text, used, rest, state.structure, template);
    let descriptor = (parser::descriptor_of(all, state.structure)->0).0;
    let wire = descriptor.frame.decode_target_indications;
    let mask = parser::effective_mask(descriptor, state.active_decode_targets_mask);
    lemma_full_mask(used.num_decode_targets as nat);
    assert(encoding::template_well_formed(
        used.templates[template],
        used.num_decode_targets as nat,
        used.num_chains as nat,
    ));
    lemma_marked(wire, mask);
    assert forall|i: int| 0 <= i < wire.len() implies metadata::indication_of(
        #[trigger] wire[i],
    ) is Some by {}
}

/// Every accepted packet is a descriptor that was written as above. Whatever was not
/// written so is rejected.
pub proof fn law_accepted_packet_was_written(payload: Seq<u8>, state: ParserView) -> (r: (
    Text,
    StructureView,
    int,
    Seq<bool>,
))
    requires
        8 * payload.len() <= usize::MAX,
        state.structure matches Some(structure) ==> encoding::well_formed(structure),
        parser::parse_step(payload, state) is Some,
    ensures
        is_packet(payload, state, r.0, r.1, r.2, r.3),
{
    let all = bits::payload_bits(payload);
    let (text, rest) = descriptor_roundtrip::lemma_descriptor_written(all, state.structure);
    let used = (parser::descriptor_of(all, state.structure)->0).0.structure;
    let template = parser::template_index(text.template_id as u8, used.structure_id);
    (text, used, template, rest)
}

/// Whatever packets a parser sees, the structure that it has retained is one that can be
/// written.
pub proof fn law_retained_structure_is_well_formed(packets: Seq<Seq<u8>>)
    ensures
        parser::state_after(packets, ParserView::initial()).structure matches Some(structure)
            ==> encoding::well_formed(structure),
    decreases packets.len(),
{
    if packets.len() > 0 {
        let before = parser::state_after(packets.drop_last(), ParserView::initial());
        law_retained_structure_is_well_formed(packets.drop_last());
        let all = reader::readable_bits(packets.last());
        if parser::parse_step(packets.last(), before) is Some {
            let pos = (parser::flags_of(all)->0).1;
            structure_roundtrip::lemma_structure_well_formed(all, pos);
        }
    }
}

/// A structure that was written among other bits is read as it was written, and ends
/// where its text ends: with resolutions that is a width and a height of 16 bits for each
/// spatial layer behind the bit that announces them.
pub proof fn law_written_structure_is_read(
    before: Seq<bool>,
    structure: StructureView,
    resolutions: Option<Seq<bool>>,
    behind: Seq<bool>,
)
    requires
        encoding::well_formed(structure),
        encoding::resolutions_fit(structure.templates, resolutions),
    ensures
        structure::structure_at(
            before + encoding::structure_text(structure, resolutions) + behind,
            before.len() as int,
        ) == Some(
            (structure, (before.len() + encoding::structure_text(structure, resolutions).len()) as int),
        ),
{
    let text = encoding::structure_text(structure, resolutions);
    let all = before + text + behind;
    let start = before.len() as int;
    assert(all.subrange(start, start + text.len()) =~= text);
    roundtrip::lemma_holds(all, start, text);
    structure_roundtrip::lemma_structure_read(all, start, structure, resolutions);
}

/// A structure that is read was written so, with some resolutions or none.
pub proof fn law_read_structure_was_written(bits: Seq<bool>, pos: int) -> (resolutions: Option<
    Seq<bool>,
>)
    requires
        structure::structure_at(bits, pos) is Some,
    ensures
        ({
            let (structure, end) = structure::structure_at(bits, pos)->0;
            &&& encoding::well_formed(structure)
            &&& encoding::resolutions_fit(structure.templates, resolutions)
            &&& 0 <= pos <= end <= bits.len()
            &&& bits.subrange(pos, end) == encoding::structure_text(structure, resolutions)
        }),
{
    let structure = (structure::structure_at(bits, pos)->0).0;
    let resolutions = structure_roundtrip::lemma_structure_written(bits, pos);
    roundtrip::lemma_holds(bits, pos, encoding::structure_text(structure, resolutions));
    resolutions
}

/// Two bits, the higher first.
pub open spec fn two_bits(bits: Seq<bool>, pos: int, high: bool, low: bool) -> bool {
    bits[pos] == high && bits[pos + 1] == low
}

/// A number of two digits.
proof fn lemma_two_digits(value: nat)
    requires
        value <= 3,
    ensures
        encoding::number(value, 2) == seq![value >= 2, value % 2 == 1],
{
    roundtrip::lemma_number(value, 2);
    reveal_with_fuel(bits::value_bits, 3);
    assert(bits::value_bits(value, 2) =~= seq![value >= 2, value % 2 == 1]);
}

/// The codes in a list of layers tell how each layer follows from the one before it.
proof fn lemma_layer_steps(bits: Seq<bool>, pos: int, layer: DependencyDescriptorLayerIds)
    requires
        0 <= pos,
        structure::template_layers(bits, pos, layer) is Some,
    ensures
        ({
            let layers = (structure::template_layers(bits, pos, layer)->0).0;
            &&& layers.len() > 0
            &&& layers[0] == layer
            &&& pos + 2 * layers.len() <= bits.len()
            &&& two_bits(bits, pos + 2 * (layers.len() - 1), true, true)
            &&& forall|i: int|
                #![trigger layers[i]]
                0 < i < layers.len() ==> layer_step(bits, pos + 2 * (i - 1), layers[i - 1], layers[i])
        }),
    decreases bits.len() - pos,
{
    let layers = (structure::template_layers(bits, pos, layer)->0).0;
    let (code, next) = fields::field_u8(bits, pos, 2)->0;
    roundtrip::lemma_number_written(bits, pos, 2);
    roundtrip::lemma_byte_width(bits, pos, 2);
    let digits = encoding::number(code as nat, 2);
    roundtrip::lemma_holds(bits, pos, digits);
    power2::lemma2_to64();
    assert(bits[pos] == digits[0] && bits[pos + 1] == digits[1]) by {
        let both = bits.subrange(pos, pos + 2);
        assert(both[0] == bits[pos] && both[1] == bits[pos + 1]);
    }
    lemma_two_digits(code as nat);
    if code == 3 {
        assert(layers =~= seq![layer]);
    } else {
        let following = structure::next_layer(layer, code)->0;
        lemma_layer_steps(bits, next, following);
        let rest = (structure::template_layers(bits, next, following)->0).0;
        assert(layers =~= seq![layer] + rest);
        assert forall|i: int|
            #![trigger layers[i]]
            0 < i < layers.len() implies layer_step(
            bits,
            pos + 2 * (i - 1),
            layers[i - 1],
            layers[i],
        ) by {
            assert(layers[i] == rest[i - 1]);
            if i > 1 {
                assert(layers[i - 1] == rest[i - 1 - 1]);
                assert(next + 2 * (i - 1 - 1) == pos + 2 * (i - 1));
            }
        }
    }
}

/// The code at `pos` tells how one layer follows from another: 0 for the same layer, 1
/// for the next temporal layer, 2 for the first temporal layer of the next spatial layer.
pub open spec fn layer_step(
    bits: Seq<bool>,
    pos: int,
    from: DependencyDescriptorLayerIds,
    to: DependencyDescriptorLayerIds,
) -> bool {
    ||| two_bits(bits, pos, false, false) && to.temporal_id == from.temporal_id && to.spatial_id
        == from.spatial_id
    ||| two_bits(bits, pos, false, true) && to.temporal_id == from.temporal_id + 1 && to.spatial_id
        == from.spatial_id
    ||| two_bits(bits, pos, true, false) && to.temporal_id == 0 && to.spatial_id == from.spatial_id
        + 1
}

/// The layers of the templates that an accepted packet carries follow from each other as
/// the codes in the packet say, from the lowest layer on until the code 3. So among
/// successive templates of one spatial layer the temporal layer never falls, and a
/// spatial layer is never left for a lower one.
pub proof fn law_layers_follow_codes(payload: Seq<u8>, state: ParserView)
    requires
        8 * payload.len() <= usize::MAX,
        payload.len() > 3,
        bits::payload_bits(payload)[24],
        parser::parse_step(payload, state) is Some,
    ensures
        ({
            let bits = bits::payload_bits(payload);
            let templates = (parser::parse_step(payload, state)->0).1.structure->0.templates;
            &&& templates.len() > 0
            &&& templates[0].layer_ids.temporal_id == 0
            &&& templates[0].layer_ids.spatial_id == 0
            &&& two_bits(bits, 40 + 2 * (templates.len() - 1), true, true)
            &&& forall|i: int|
                #![trigger templates[i]]
                0 < i < templates.len() ==> {
                    let from = templates[i - 1].layer_ids;
                    let to = templates[i].layer_ids;
                    &&& layer_step(bits, 40 + 2 * (i - 1), from, to)
                    &&& from.spatial_id <= to.spatial_id
                    &&& from.spatial_id == to.spatial_id ==> from.temporal_id <= to.temporal_id
                }
        }),
{
    let bits = bits::payload_bits(payload);
    let structure = (parser::parse_step(payload, state)->0).1.structure->0;
    let templates = structure.templates;
    assert(structure::structure_at(bits, 29) matches Some((found, end)) && found == structure);
    let layers = (structure::template_layers(bits, 40, structure::base_layer())->0).0;
    lemma_layer_steps(bits, 40, structure::base_layer());
    assert forall|i: int|
        #![trigger templates[i]]
        0 <= i < templates.len() implies templates[i].layer_ids == layers[i] by {}
    assert forall|i: int|
        #![trigger templates[i]]
        0 < i < templates.len() implies layer_step(
        bits,
        40 + 2 * (i - 1),
        templates[i - 1].layer_ids,
        templates[i].layer_ids,
    ) by {
        assert(templates[i].layer_ids == layers[i]);
        assert(templates[i - 1].layer_ids == layers[i - 1]);
    }
}

/// The bit of an accepted packet that announces a custom field is clear, or not there.
pub open spec fn not_announced(payload: Seq<u8>, bit: int) -> bool {
    payload.len() <= 3 || !bits::payload_bits(payload)[bit]
}

/// Each of the three overrides acts alone. Of an accepted packet the indications are those
/// of its template unless custom indications are announced, the frame differences unless
/// custom frame differences are announced, and the chain differences unless custom chain
/// differences are announced, whatever else is announced.
pub proof fn law_overrides_act_alone(payload: Seq<u8>, state: ParserView, template: int)
    requires
        8 * payload.len() <= usize::MAX,
        state.structure matches Some(structure) ==> encoding::well_formed(structure),
        parser::parse_step(payload, state) matches Some((metadata, next))
            && next.structure matches Some(structure) && 0 <= template < structure.templates.len()
            && (structure.structure_id + template) % 64 == payload[0] % 64,
    ensures
        ({
            let (metadata, next) = parser::parse_step(payload, state)->0;
            let used = next.structure->0.templates[template];
            let indications = metadata.decode_target_indications;
            &&& metadata.layer_ids == used.layer_ids
            &&& not_announced(payload, 26) ==> indications.len()
                == used.decode_target_indications.len() && forall|i: int|
                0 <= i < indications.len() ==> encoding::wire_value(#[trigger] indications[i])
                    == used.decode_target_indications[i]
            &&& not_announced(payload, 27) ==> metadata.frame_diffs == used.frame_diffs
            &&& not_announced(payload, 28) ==> metadata.chain_diffs == used.chain_diffs
        }),
{
    let bits = bits::payload_bits(payload);
    let (metadata, next) = parser::parse_step(payload, state)->0;
    let structure = next.structure->0;
    let k = lemma_descriptor_fields(bits, state.structure);
    lemma_first_bytes(payload);
    laws::law_template_ids_wrap(structure.structure_id, template);
    assert(k == template);
    let flags = (parser::flags_of(bits)->0).0;
    assert(not_announced(payload, 26) ==> !flags.custom_dtis);
    assert(not_announced(payload, 27) ==> !flags.custom_fdiffs);
    assert(not_announced(payload, 28) ==> !flags.custom_chains);
    if not_announced(payload, 26) {
        let wire = structure.templates[template].decode_target_indications;
        assert(metadata::indications_of(wire) == Some(metadata.decode_target_indications));
        assert forall|i: int| 0 <= i < wire.len() implies encoding::wire_value(
            #[trigger] metadata.decode_target_indications[i],
        ) == wire[i] by {
            assert(metadata::indication_of(wire[i]) is Some);
        }
    }
}

/// For every accepted packet and every decode target: the layer that the metadata gives
/// for the target is at least that of each template of the retained structure that is part
/// of the target, and each of its two ids is that of such a template, or 0.
pub proof fn law_metadata_gives_highest_layers(payload: Seq<u8>, state: ParserView, target: int)
    requires
        state.structure matches Some(structure) ==> encoding::well_formed(structure),
        parser::parse_step(payload, state) matches Some((metadata, next))
            && next.structure matches Some(structure) && 0 <= target
            < structure.num_decode_targets,
    ensures
        ({
            let (metadata, next) = parser::parse_step(payload, state)->0;
            let structure = next.structure->0;
            &&& metadata.decode_target_layers.len() == structure.num_decode_targets
            &&& encoding::is_highest_layer(
                structure.templates,
                target,
                metadata.decode_target_layers[target],
            )
        }),
{
    let k = lemma_descriptor_fields(reader::readable_bits(payload), state.structure);
}

/// What the view of metadata shows are its fields.
pub proof fn law_view_shows_fields(metadata: DependencyDescriptorPacketMetadata)
    ensures
        metadata@.frame_number == metadata.frame_number,
        metadata@.layer_ids == metadata.layer_ids,
        metadata@.first_packet_in_frame == metadata.first_packet_in_frame,
        metadata@.last_packet_in_frame == metadata.last_packet_in_frame,
        metadata@.active_decode_targets_mask == metadata.active_decode_targets_mask,
        metadata@.decode_target_indications == metadata.decode_target_indications@,
        metadata@.decode_target_layers == metadata.decode_target_layers@,
        metadata@.frame_diffs == metadata.frame_diffs@,
        metadata@.chain_diffs == metadata.chain_diffs@,
        metadata@.decode_target_protected_by_chain == metadata.decode_target_protected_by_chain@,
        metadata@.has_switching_decode_target == metadata.has_switching_decode_target,
{
}

/// Bits that were packed into bytes are found in them, followed by clear bits.
pub proof fn law_packed_bits_are_filled(all: Seq<bool>)
    ensures
        encoding::is_filled(bits::payload_bits(bits::pack_bits(all)), all),
{
    bits::lemma_unpack_pack(all);
}

/// A mask that was written into a raw descriptor stands behind the structure, with so many
/// digits as there are decode targets, and before the custom fields. What stands around it
/// is as it was, but for the bit that announces a mask. What follows the custom fields is
/// kept where a mask was there before, or where the number of chains is not known; it is
/// dropped where a mask is put in and the end is known.
pub proof fn law_mask_stands_in_its_place(
    payload: Seq<u8>,
    raw: RawText,
    num_decode_targets: u8,
    mask: u32,
)
    requires
        1 <= num_decode_targets <= 32,
        mask < power2::pow2(num_decode_targets as nat),
        encoding::is_raw(bits::payload_bits(payload), raw, num_decode_targets as nat),
    ensures
        mask::rewritten_payload(payload, num_decode_targets, mask) matches Some(rewritten)
            && encoding::is_filled(
            bits::payload_bits(rewritten),
            encoding::before_mask(raw, true) + encoding::number(
                mask as nat,
                num_decode_targets as nat,
            ) + encoding::custom_text(raw.custom) + if raw.mask is Some || raw.chains
                && raw.carried is None {
                raw.rest
            } else {
                Seq::empty()
            },
        ),
{
    let bits = bits::payload_bits(payload);
    let targets = num_decode_targets as nat;
    lemma_full_mask(targets);
    mask_roundtrip::lemma_raw_rewritten(bits, raw, targets, mask as nat);
    law_packed_bits_are_filled(mask::rewritten_bits(bits, targets, mask as nat)->0);
}

/// A mask that was written into a descriptor of three bytes stands behind the mandatory
/// fields and flags that announce it alone.
pub proof fn law_mask_stands_behind_mandatory_fields(
    payload: Seq<u8>,
    num_decode_targets: u8,
    mask: u32,
)
    requires
        1 <= num_decode_targets <= 32,
        mask < power2::pow2(num_decode_targets as nat),
        payload.len() == 3,
    ensures
        mask::rewritten_payload(payload, num_decode_targets, mask) matches Some(rewritten)
            && encoding::is_filled(
            bits::payload_bits(rewritten),
            bits::payload_bits(payload) + encoding::flags_text(false, true, false, false, false)
                + encoding::number(mask as nat, num_decode_targets as nat),
        ),
{
    let bits = bits::payload_bits(payload);
    let targets = num_decode_targets as nat;
    lemma_full_mask(targets);
    roundtrip::lemma_number(mask as nat, targets);
    law_packed_bits_are_filled(mask::rewritten_bits(bits, targets, mask as nat)->0);
}

/// A mask is written only over one to 32 decode targets, only if it marks no others, and
/// only into a raw descriptor: three bytes, or more of which the announced fields fit.
pub proof fn law_mask_is_written_into_descriptors_only(
    payload: Seq<u8>,
    num_decode_targets: u8,
    mask: u32,
) -> (raw: RawText)
    requires
        mask::rewritten_payload(payload, num_decode_targets, mask) is Some,
    ensures
        1 <= num_decode_targets <= 32,
        mask < power2::pow2(num_decode_targets as nat),
        payload.len() >= 3,
        payload.len() > 3 ==> encoding::is_raw(
            bits::payload_bits(payload),
            raw,
            num_decode_targets as nat,
        ),
{
    let bits = bits::payload_bits(payload);
    let targets = num_decode_targets as nat;
    lemma_full_mask(targets);
    if payload.len() > 3 {
        mask_roundtrip::lemma_raw_written(bits, targets, mask as nat)
    } else {
        RawText {
            mandatory: bits,
            carried: None,
            mask: None,
            custom: CustomFields { indications: None, frame_diffs: None, chain_diffs: None },
            chains: false,
            rest: Seq::empty(),
        }
    }
}

/// A structure has a bit that announces its resolutions. It would be the same and end with
/// this bit if the bit were clear. Where the bit is set, the structure ends exactly 32 bits
/// behind it for each spatial layer up to the highest that a template is in.
pub proof fn law_resolutions_take_two_sizes_per_spatial_layer(bits: Seq<bool>, pos: int) -> (flag:
    int)
    requires
        structure::structure_at(bits, pos) is Some,
    ensures
        ({
            let (structure, end) = structure::structure_at(bits, pos)->0;
            let templates = structure.templates;
            &&& pos <= flag < end <= bits.len()
            &&& structure::structure_at(bits.take(flag) + seq![false], pos) == Some(
                (structure, flag + 1),
            )
            &&& !bits[flag] ==> end == flag + 1
            &&& bits[flag] ==> exists|i: int|
                0 <= i < templates.len() && end == flag + 1 + 32 * (
                #[trigger] templates[i].layer_ids.spatial_id + 1) && forall|j: int|
                    0 <= j < templates.len() ==> #[trigger] templates[j].layer_ids.spatial_id
                        <= templates[i].layer_ids.spatial_id
        }),
{
    let (structure, end) = structure::structure_at(bits, pos)->0;
    let templates = structure.templates;
    let resolutions = structure_roundtrip::lemma_structure_written(bits, pos);
    locality::lemma_structure_end(bits, pos);
    let flag = pos + encoding::structure_head(structure).len();
    structure_roundtrip::lemma_without_resolutions(bits, pos, structure, resolutions);
    if let Some(sizes) = resolutions {
        let i = choose|i: int|
            0 <= i < templates.len() && sizes.len() == 2 * 16 * (
            #[trigger] templates[i].layer_ids.spatial_id + 1) && forall|j: int|
                0 <= j < templates.len() ==> #[trigger] templates[j].layer_ids.spatial_id
                    <= templates[i].layer_ids.spatial_id;
        assert(end == flag + 1 + 32 * (templates[i].layer_ids.spatial_id + 1));
    }
    flag
}

/// In a mask over so many decode targets the last digit stands for target 0, and the first
/// for the highest target.
pub proof fn law_mask_digits_stand_for_targets(mask: u32, num_decode_targets: nat, target: int)
    requires
        0 <= target < num_decode_targets <= 32,
    ensures
        encoding::number(mask as nat, num_decode_targets)[num_decode_targets - 1 - target]
            == encoding::marks(mask, target),
        encoding::marks(mask, target) <==> mask & (1u32 << (target as u32)) != 0,
{
    let shift = target as u32;
    lemma_marks(mask, target);
    assert(((mask >> shift) & 1u32 == 1u32) == (mask & (1u32 << shift) != 0)) by (bit_vector)
        requires
            shift < 32,
    ;
}

} // verus!
