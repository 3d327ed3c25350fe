//! A descriptor that was written is read again, and one that is read was written so.
use crate::bits;
use crate::encoding;
use crate::encoding::{CarriedStructure, CustomFields, Text};
use crate::fields;
use crate::laws;
use crate::locality;
use crate::parser;
use crate::parser::{DescriptorFlags, DescriptorView, FrameView};
use crate::roundtrip;
use crate::structure::{StructureView, TemplateView};
use crate::structure_roundtrip;
use vstd::arithmetic::power2;
use vstd::prelude::*;

verus! {

/// The flags announce these custom fields.
pub open spec fn announced(flags: DescriptorFlags, custom: CustomFields) -> bool {
    &&& flags.custom_dtis == custom.indications is Some
    &&& flags.custom_fdiffs == custom.frame_diffs is Some
    &&& flags.custom_chains == custom.chain_diffs is Some
}

/// A frame as its custom fields and its template say: each of the three parts is its
/// own where it has one, and that of the template otherwise.
pub open spec fn overridden(custom: CustomFields, template: TemplateView) -> FrameView {
    FrameView {
        decode_target_indications: match custom.indications {
            Some(values) => values,
            None => template.decode_target_indications,
        },
        frame_diffs: match custom.frame_diffs {
            Some(diffs) => encoding::plain_diffs(diffs),
            None => template.frame_diffs,
        },
        chain_diffs: match custom.chain_diffs {
            Some(values) => values,
            None => template.chain_diffs,
        },
    }
}

/// The text of custom indications.
spec fn indications_text(custom: CustomFields) -> Seq<bool> {
    match custom.indications {
        Some(values) => encoding::numbers(values, 2),
        None => Seq::empty(),
    }
}

/// The text of custom frame differences.
spec fn frame_diffs_text(custom: CustomFields) -> Seq<bool> {
    match custom.frame_diffs {
        Some(diffs) => encoding::custom_diffs(diffs),
        None => Seq::empty(),
    }
}

/// The text of custom chain differences.
spec fn chain_diffs_text(custom: CustomFields) -> Seq<bool> {
    match custom.chain_diffs {
        Some(values) => encoding::numbers(values, 8),
        None => Seq::empty(),
    }
}

/// The text of custom fields stands where its parts stand one behind the other.
proof fn lemma_custom_parts(bits: Seq<bool>, pos: int, custom: CustomFields)
    ensures
        ({
            let p1 = pos + indications_text(custom).len();
            let p2 = p1 + frame_diffs_text(custom).len();
            &&& roundtrip::holds_at(bits, pos, encoding::custom_text(custom)) <==> {
                &&& roundtrip::holds_at(bits, pos, indications_text(custom))
                &&& roundtrip::holds_at(bits, p1, frame_diffs_text(custom))
                &&& roundtrip::holds_at(bits, p2, chain_diffs_text(custom))
            }
            &&& encoding::custom_text(custom).len() == p2 + chain_diffs_text(custom).len() - pos
        }),
{
    let a = indications_text(custom);
    let b = frame_diffs_text(custom);
    let c = chain_diffs_text(custom);
    roundtrip::lemma_holds_both(bits, pos, a, b);
    roundtrip::lemma_holds_both(bits, pos, a + b, c);
    assert(encoding::custom_text(custom) == a + b + c);
}

/// Custom fields that were written are read.
pub proof fn lemma_custom_read(
    bits: Seq<bool>,
    pos: int,
    flags: DescriptorFlags,
    custom: CustomFields,
    structure: StructureView,
    template: TemplateView,
)
    requires
        announced(flags, custom),
        encoding::custom_fits(
            custom,
            structure.num_decode_targets as nat,
            Some(structure.num_chains as nat),
        ),
        roundtrip::holds_at(bits, pos, encoding::custom_text(custom)),
    ensures
        parser::frame_at(bits, pos, flags, structure, template) == Some(
            (overridden(custom, template), pos + encoding::custom_text(custom).len()),
        ),
{
    let p1 = pos + indications_text(custom).len();
    let p2 = p1 + frame_diffs_text(custom).len();
    lemma_custom_parts(bits, pos, custom);
    power2::lemma2_to64();
    if let Some(values) = custom.indications {
        roundtrip::lemma_numbers_read(bits, pos, values, 2);
    }
    if let Some(diffs) = custom.frame_diffs {
        roundtrip::lemma_custom_diffs_read(bits, p1, diffs);
    }
    if let Some(values) = custom.chain_diffs {
        roundtrip::lemma_numbers_read(bits, p2, values, 8);
    }
}

/// Custom fields that are read were written so.
pub proof fn lemma_custom_written(
    bits: Seq<bool>,
    pos: int,
    flags: DescriptorFlags,
    structure: StructureView,
    template: TemplateView,
) -> (custom: CustomFields)
    requires
        0 <= pos <= bits.len(),
    ensures
        parser::frame_at(bits, pos, flags, structure, template) matches Some((frame, end)) ==> {
            &&& announced(flags, custom)
            &&& encoding::custom_fits(
                custom,
                structure.num_decode_targets as nat,
                Some(structure.num_chains as nat),
            )
            &&& roundtrip::holds_at(bits, pos, encoding::custom_text(custom))
            &&& frame == overridden(custom, template)
            &&& end == pos + encoding::custom_text(custom).len()
        },
{
    if let Some((frame, end)) = parser::frame_at(bits, pos, flags, structure, template) {
        let targets = structure.num_decode_targets as nat;
        let chains = structure.num_chains as nat;
        let p1 = (parser::indications_at(bits, pos, flags, targets, template)->0).1;
        let p2 = (parser::frame_diffs_at(bits, p1, flags, template)->0).1;
        power2::lemma2_to64();
        roundtrip::lemma_numbers_written(bits, pos, targets, 2);
        fields::lemma_fields_bound(bits, pos, targets, 2);
        let sized = roundtrip::lemma_custom_diffs_written(bits, p1);
        fields::lemma_custom_frame_diffs_end(bits, p1);
        roundtrip::lemma_numbers_written(bits, p2, chains, 8);
        let custom = CustomFields {
            indications: if flags.custom_dtis {
                Some(frame.decode_target_indications)
            } else {
                None
            },
            frame_diffs: if flags.custom_fdiffs {
                Some(sized)
            } else {
                None
            },
            chain_diffs: if flags.custom_chains {
                Some(frame.chain_diffs)
            } else {
                None
            },
        };
        roundtrip::lemma_holds_nothing(bits, pos);
        roundtrip::lemma_holds_nothing(bits, p1);
        roundtrip::lemma_holds_nothing(bits, p2);
        lemma_custom_parts(bits, pos, custom);
        custom
    } else {
        CustomFields { indications: None, frame_diffs: None, chain_diffs: None }
    }
}

/// The mandatory fields are read as they were written.
pub proof fn lemma_mandatory_read(bits: Seq<bool>, text: Text)
    requires
        text.template_id <= 63,
        text.frame_number <= 0xffff,
        roundtrip::holds_at(bits, 0, encoding::mandatory_text(text)),
    ensures
        bits.len() >= 24,
        encoding::mandatory_text(text).len() == 24,
        bits[0] == text.first_packet_in_frame,
        bits[1] == text.last_packet_in_frame,
        bits::bits_value(bits.subrange(2, 8)) == text.template_id,
        bits::bits_value(bits.subrange(8, 24)) == text.frame_number,
{
    let packets = seq![text.first_packet_in_frame, text.last_packet_in_frame];
    let id = encoding::number(text.template_id, 6);
    let frame = encoding::number(text.frame_number, 16);
    roundtrip::lemma_holds_both(bits, 0, packets, id);
    roundtrip::lemma_holds_both(bits, 0, packets + id, frame);
    roundtrip::lemma_holds(bits, 0, packets);
    assert(bits.subrange(0, 2)[0] == packets[0] && bits.subrange(0, 2)[1] == packets[1]);
    power2::lemma2_to64();
    roundtrip::lemma_number_read(bits, 2, text.template_id, 6);
    roundtrip::lemma_number_read(bits, 8, text.frame_number, 16);
}

/// The mandatory fields were written as they are read.
pub proof fn lemma_mandatory_written(bits: Seq<bool>, text: Text)
    requires
        bits.len() >= 24,
        text.first_packet_in_frame == bits[0],
        text.last_packet_in_frame == bits[1],
        text.template_id == bits::bits_value(bits.subrange(2, 8)),
        text.frame_number == bits::bits_value(bits.subrange(8, 24)),
    ensures
        text.template_id <= 63,
        text.frame_number <= 0xffff,
        roundtrip::holds_at(bits, 0, encoding::mandatory_text(text)),
        encoding::mandatory_text(text).len() == 24,
{
    let packets = seq![text.first_packet_in_frame, text.last_packet_in_frame];
    let id = encoding::number(text.template_id, 6);
    let frame = encoding::number(text.frame_number, 16);
    power2::lemma2_to64();
    roundtrip::lemma_number_written(bits, 2, 6);
    roundtrip::lemma_number_written(bits, 8, 16);
    assert(bits.subrange(0, 2) =~= packets);
    roundtrip::lemma_holds(bits, 0, packets);
    roundtrip::lemma_holds_both(bits, 0, packets, id);
    roundtrip::lemma_holds_both(bits, 0, packets + id, frame);
}

/// The flags of a descriptor.
pub open spec fn flags_for(text: Text) -> DescriptorFlags {
    DescriptorFlags {
        structure: text.carried is Some,
        mask: text.mask is Some,
        custom_dtis: text.custom.indications is Some,
        custom_fdiffs: text.custom.frame_diffs is Some,
        custom_chains: text.custom.chain_diffs is Some,
    }
}

/// The text of a mask.
pub open spec fn mask_text(mask: Option<u32>, num_decode_targets: nat) -> Seq<bool> {
    match mask {
        Some(mask) => encoding::number(mask as nat, num_decode_targets),
        None => Seq::empty(),
    }
}

/// Five flags stand behind the mandatory fields where they are read.
pub proof fn lemma_flags(bits: Seq<bool>, flags: DescriptorFlags)
    requires
        bits.len() > 24,
    ensures
        roundtrip::holds_at(
            bits,
            24,
            encoding::flags_text(
                flags.structure,
                flags.mask,
                flags.custom_dtis,
                flags.custom_fdiffs,
                flags.custom_chains,
            ),
        ) <==> parser::flags_of(bits) == Some((flags, 29int)),
{
    let text = encoding::flags_text(
        flags.structure,
        flags.mask,
        flags.custom_dtis,
        flags.custom_fdiffs,
        flags.custom_chains,
    );
    roundtrip::lemma_holds(bits, 24, text);
    if bits.len() >= 29 {
        let five = bits.subrange(24, 29);
        assert(five[0] == bits[24] && five[1] == bits[25] && five[2] == bits[26] && five[3]
            == bits[27] && five[4] == bits[28]);
        if parser::flags_of(bits) == Some((flags, 29int)) {
            assert(five =~= text);
        }
    }
}

/// What stands behind the mandatory fields stands where its parts stand one behind the
/// other.
proof fn lemma_extended_parts(bits: Seq<bool>, text: Text, targets: nat)
    ensures
        ({
            let flags = flags_for(text);
            let five = encoding::flags_text(
                flags.structure,
                flags.mask,
                flags.custom_dtis,
                flags.custom_fdiffs,
                flags.custom_chains,
            );
            let p2 = 29int + encoding::carried_text(text.carried).len();
            let p3 = p2 + mask_text(text.mask, targets).len();
            &&& roundtrip::holds_at(bits, 24, encoding::extended_text(text, targets)) <==> {
                &&& roundtrip::holds_at(bits, 24, five)
                &&& roundtrip::holds_at(bits, 29, encoding::carried_text(text.carried))
                &&& roundtrip::holds_at(bits, p2, mask_text(text.mask, targets))
                &&& roundtrip::holds_at(bits, p3, encoding::custom_text(text.custom))
            }
            &&& encoding::extended_text(text, targets).len() == p3 + encoding::custom_text(
                text.custom,
            ).len() - 24
        }),
{
    let flags = flags_for(text);
    let five = encoding::flags_text(
        flags.structure,
        flags.mask,
        flags.custom_dtis,
        flags.custom_fdiffs,
        flags.custom_chains,
    );
    let a = encoding::carried_text(text.carried);
    let b = mask_text(text.mask, targets);
    let c = encoding::custom_text(text.custom);
    assert(encoding::extended_text(text, targets) == five + a + b + c);
    roundtrip::lemma_holds_both(bits, 24, five, a);
    roundtrip::lemma_holds_both(bits, 24, five + a, b);
    roundtrip::lemma_holds_both(bits, 24, five + a + b, c);
}

/// A carried structure is read as it was written.
proof fn lemma_carried_read(
    bits: Seq<bool>,
    flags: DescriptorFlags,
    carried: Option<CarriedStructure>,
    used: StructureView,
    retained: Option<StructureView>,
)
    requires
        flags.structure == carried is Some,
        encoding::carried_fits(carried),
        encoding::is_used(carried, retained, used),
        roundtrip::holds_at(bits, 29, encoding::carried_text(carried)),
    ensures
        parser::structure_of(bits, 29, flags, retained) == Some(
            (used, 29int + encoding::carried_text(carried).len()),
        ),
{
    if let Some(c) = carried {
        structure_roundtrip::lemma_structure_read(bits, 29, used, c.resolutions);
    }
}

/// A mask is read as it was written.
proof fn lemma_mask_read(
    bits: Seq<bool>,
    pos: int,
    flags: DescriptorFlags,
    mask: Option<u32>,
    targets: nat,
)
    requires
        flags.mask == mask is Some,
        mask matches Some(m) ==> m < power2::pow2(targets),
        roundtrip::holds_at(bits, pos, mask_text(mask, targets)),
    ensures
        parser::mask_at(bits, pos, flags, targets) == Some(
            (mask, pos + mask_text(mask, targets).len()),
        ),
{
    if let Some(m) = mask {
        roundtrip::lemma_number_read(bits, pos, m as nat, targets);
    }
}

/// What stands behind the mandatory fields is read as it was written.
proof fn lemma_extended_read(
    bits: Seq<bool>,
    text: Text,
    used: StructureView,
    retained: Option<StructureView>,
    template: TemplateView,
)
    requires
        bits.len() > 24,
        1 <= used.num_decode_targets <= 32,
        encoding::carried_fits(text.carried),
        text.mask matches Some(mask) ==> mask < power2::pow2(used.num_decode_targets as nat),
        encoding::custom_fits(
            text.custom,
            used.num_decode_targets as nat,
            Some(used.num_chains as nat),
        ),
        encoding::is_used(text.carried, retained, used),
        roundtrip::holds_at(bits, 24, encoding::extended_text(text, used.num_decode_targets as nat)),
    ensures
        ({
            let flags = flags_for(text);
            let targets = used.num_decode_targets as nat;
            let p2 = 29int + encoding::carried_text(text.carried).len();
            let p3 = p2 + mask_text(text.mask, targets).len();
            &&& parser::flags_of(bits) == Some((flags, 29int))
            &&& parser::structure_of(bits, 29, flags, retained) == Some((used, p2))
            &&& parser::mask_at(bits, p2, flags, targets) == Some((text.mask, p3))
            &&& parser::frame_at(bits, p3, flags, used, template) == Some(
                (
                    overridden(text.custom, template),
                    24int + encoding::extended_text(text, targets).len(),
                ),
            )
        }),
{
    let flags = flags_for(text);
    let targets = used.num_decode_targets as nat;
    let p2 = 29int + encoding::carried_text(text.carried).len();
    let p3 = p2 + mask_text(text.mask, targets).len();
    lemma_extended_parts(bits, text, targets);
    assert(parser::flags_of(bits) == Some((flags, 29int))) by {
        lemma_flags(bits, flags);
    }
    lemma_carried_read(bits, flags, text.carried, used, retained);
    lemma_mask_read(bits, p2, flags, text.mask, targets);
    lemma_custom_read(bits, p3, flags, text.custom, used, template);
}

/// A descriptor that was written is read.
pub proof fn lemma_descriptor_read(
    bits: Seq<bool>,
    text: Text,
    used: StructureView,
    rest: Seq<bool>,
    retained: Option<StructureView>,
    template: int,
)
    requires
        bits.len() >= 24,
        encoding::is_written(bits, text, used, rest),
        encoding::is_used(text.carried, retained, used),
        1 <= used.num_decode_targets <= 32,
        used.structure_id <= 63,
        0 <= template < used.templates.len() <= 64,
        text.template_id == (used.structure_id + template) % 64,
    ensures
        parser::descriptor_of(bits, retained) matches Some((descriptor, end)) && descriptor == (
        DescriptorView {
            first_packet_in_frame: text.first_packet_in_frame,
            last_packet_in_frame: text.last_packet_in_frame,
            frame_number: text.frame_number as u16,
            carries_structure: text.carried is Some,
            structure: used,
            mask: text.mask,
            layer_ids: used.templates[template].layer_ids,
            frame: overridden(text.custom, used.templates[template]),
        }),
{
    let targets = used.num_decode_targets as nat;
    let mandatory = encoding::mandatory_text(text);
    let extended = encoding::extended_text(text, targets);
    laws::law_template_ids_wrap(used.structure_id, template);
    assert(bits.subrange(0, bits.len() as int) =~= bits);
    roundtrip::lemma_holds(bits, 0, bits);
    if bits.len() > 24 {
        roundtrip::lemma_holds_both(bits, 0, mandatory + extended, rest);
        roundtrip::lemma_holds_both(bits, 0, mandatory, extended);
        lemma_mandatory_read(bits, text);
        lemma_extended_read(bits, text, used, retained, used.templates[template]);
    } else {
        lemma_mandatory_read(bits, text);
        assert(overridden(text.custom, used.templates[template]) == (FrameView {
            decode_target_indications: used.templates[template].decode_target_indications,
            frame_diffs: used.templates[template].frame_diffs,
            chain_diffs: used.templates[template].chain_diffs,
        }));
    }
}

/// The text has the mandatory fields of the bits.
spec fn mandatory_as_read(bits: Seq<bool>, text: Text) -> bool {
    &&& text.first_packet_in_frame == bits[0]
    &&& text.last_packet_in_frame == bits[1]
    &&& text.template_id == bits::bits_value(bits.subrange(2, 8))
    &&& text.frame_number == bits::bits_value(bits.subrange(8, 24))
}

/// The carried structure of a descriptor that is read was written so.
proof fn lemma_carried_written(
    bits: Seq<bool>,
    flags: DescriptorFlags,
    retained: Option<StructureView>,
) -> (carried: Option<CarriedStructure>)
    requires
        bits.len() >= 29,
        parser::structure_of(bits, 29, flags, retained) is Some,
    ensures
        ({
            let (used, end) = parser::structure_of(bits, 29, flags, retained)->0;
            &&& carried is Some == flags.structure
            &&& encoding::carried_fits(carried)
            &&& encoding::is_used(carried, retained, used)
            &&& roundtrip::holds_at(bits, 29, encoding::carried_text(carried))
            &&& end == 29 + encoding::carried_text(carried).len()
            &&& end <= bits.len()
        }),
{
    if flags.structure {
        let (used, end) = parser::structure_of(bits, 29, flags, retained)->0;
        let resolutions = structure_roundtrip::lemma_structure_written(bits, 29);
        locality::lemma_structure_end(bits, 29);
        Some(CarriedStructure { structure: used, resolutions })
    } else {
        roundtrip::lemma_holds_nothing(bits, 29);
        None
    }
}

/// The mask of a descriptor that is read was written so.
proof fn lemma_mask_written(bits: Seq<bool>, pos: int, flags: DescriptorFlags, targets: nat)
    requires
        0 <= pos <= bits.len(),
        1 <= targets <= 32,
        parser::mask_at(bits, pos, flags, targets) is Some,
    ensures
        ({
            let (mask, end) = parser::mask_at(bits, pos, flags, targets)->0;
            &&& mask is Some == flags.mask
            &&& mask matches Some(m) ==> m < power2::pow2(targets)
            &&& roundtrip::holds_at(bits, pos, mask_text(mask, targets))
            &&& end == pos + mask_text(mask, targets).len()
            &&& end <= bits.len()
        }),
{
    roundtrip::lemma_number_written(bits, pos, targets);
    parser::lemma_mask_bound(bits, pos, targets);
    roundtrip::lemma_holds_nothing(bits, pos);
}

/// What stands behind the mandatory fields of a descriptor that is read was written so.
proof fn lemma_extended_written(bits: Seq<bool>, retained: Option<StructureView>) -> (text: Text)
    requires
        bits.len() > 24,
        parser::descriptor_of(bits, retained) is Some,
        retained matches Some(structure) ==> encoding::well_formed(structure),
    ensures
        ({
            let used = (parser::descriptor_of(bits, retained)->0).0.structure;
            let targets = used.num_decode_targets as nat;
            &&& mandatory_as_read(bits, text)
            &&& encoding::carried_fits(text.carried)
            &&& encoding::is_used(text.carried, retained, used)
            &&& text.mask matches Some(mask) ==> mask < power2::pow2(targets)
            &&& encoding::custom_fits(text.custom, targets, Some(used.num_chains as nat))
            &&& roundtrip::holds_at(bits, 24, encoding::extended_text(text, targets))
        }),
{
    let flags = (parser::flags_of(bits)->0).0;
    let (used, p2) = parser::structure_of(bits, 29, flags, retained)->0;
    let targets = used.num_decode_targets as nat;
    let (mask, p3) = parser::mask_at(bits, p2, flags, targets)->0;
    let template_id = bits::bits_value(bits.subrange(2, 8));
    let index = parser::template_index(template_id as u8, used.structure_id);
    let carried = lemma_carried_written(bits, flags, retained);
    lemma_mask_written(bits, p2, flags, targets);
    let custom = lemma_custom_written(bits, p3, flags, used, used.templates[index]);
    let text = Text {
        first_packet_in_frame: bits[0],
        last_packet_in_frame: bits[1],
        template_id,
        frame_number: bits::bits_value(bits.subrange(8, 24)),
        carried,
        mask,
        custom,
    };
    assert(flags_for(text) == flags);
    lemma_flags(bits, flags);
    lemma_extended_parts(bits, text, targets);
    text
}

/// The template that a template id refers to is the one whose id it is.
pub proof fn lemma_template_index(template_id: nat, structure_id: u8)
    requires
        template_id <= 63,
        structure_id <= 63,
    ensures
        0 <= parser::template_index(template_id as u8, structure_id) < 64,
        template_id == (structure_id + parser::template_index(template_id as u8, structure_id))
            % 64,
{
}

/// A descriptor that is read was written so.
pub proof fn lemma_descriptor_written(bits: Seq<bool>, retained: Option<StructureView>) -> (r: (
    Text,
    Seq<bool>,
))
    requires
        parser::descriptor_of(bits, retained) is Some,
        retained matches Some(structure) ==> encoding::well_formed(structure),
    ensures
        ({
            let (text, rest) = r;
            let used = (parser::descriptor_of(bits, retained)->0).0.structure;
            let template = parser::template_index(text.template_id as u8, used.structure_id);
            &&& encoding::is_written(bits, text, used, rest)
            &&& encoding::is_used(text.carried, retained, used)
            &&& encoding::well_formed(used)
            &&& 0 <= template < used.templates.len()
            &&& text.template_id == (used.structure_id + template) % 64
        }),
{
    let used = (parser::descriptor_of(bits, retained)->0).0.structure;
    if bits.len() > 24 {
        let text = lemma_extended_written(bits, retained);
        let rest = lemma_bits_of_text(bits, text, used.num_decode_targets as nat);
        lemma_template_index(text.template_id, used.structure_id);
        (text, rest)
    } else {
        let text = lemma_plain_written(bits);
        lemma_template_index(text.template_id, used.structure_id);
        (text, Seq::empty())
    }
}

/// Bits in which the texts of a descriptor stand start with these texts.
proof fn lemma_bits_of_text(bits: Seq<bool>, text: Text, targets: nat) -> (rest: Seq<bool>)
    requires
        bits.len() > 24,
        mandatory_as_read(bits, text),
        roundtrip::holds_at(bits, 24, encoding::extended_text(text, targets)),
    ensures
        text.template_id <= 63,
        text.frame_number <= 0xffff,
        bits == encoding::mandatory_text(text) + encoding::extended_text(text, targets) + rest,
{
    lemma_mandatory_written(bits, text);
    let mandatory = encoding::mandatory_text(text);
    let extended = encoding::extended_text(text, targets);
    roundtrip::lemma_holds_both(bits, 0, mandatory, extended);
    let whole = mandatory + extended;
    roundtrip::lemma_holds(bits, 0, whole);
    let rest = bits.skip(whole.len() as int);
    assert(bits =~= whole + rest);
    rest
}

/// The mandatory fields alone were written as they are read.
proof fn lemma_plain_written(bits: Seq<bool>) -> (text: Text)
    requires
        bits.len() == 24,
    ensures
        encoding::is_plain(text),
        mandatory_as_read(bits, text),
        text.template_id <= 63,
        text.frame_number <= 0xffff,
        bits == encoding::mandatory_text(text),
{
    let text = Text {
        first_packet_in_frame: bits[0],
        last_packet_in_frame: bits[1],
        template_id: bits::bits_value(bits.subrange(2, 8)),
        frame_number: bits::bits_value(bits.subrange(8, 24)),
        carried: None,
        mask: None,
        custom: CustomFields { indications: None, frame_diffs: None, chain_diffs: None },
    };
    lemma_mandatory_written(bits, text);
    roundtrip::lemma_holds(bits, 0, encoding::mandatory_text(text));
    assert(bits.subrange(0, 24) =~= bits);
    text
}

} // verus!
