//! The stateful parser for dependency descriptors.
use crate::bits;
use crate::fields;
use crate::metadata;
use crate::metadata::{
    DependencyDescriptorLayerIds, DependencyDescriptorPacketMetadata, MetadataView,
};
use crate::reader;
use crate::reader::BitReader;
use crate::structure;
use crate::structure::{
    FrameDependencyStructure, FrameTemplate, StructureView, TemplateView, MAX_SPATIAL_ID,
    MAX_TEMPLATES, MAX_TEMPORAL_ID,
};
use crate::wire_laws;
use vstd::arithmetic::power2;
use vstd::prelude::*;

verus! {

/// How many bits the fields take that every descriptor has.
pub const MANDATORY_FIELDS_BITS: usize = 24;

/// Which of the fields that a descriptor need not have are present.
#[derive(Debug, Clone, Copy)]
pub struct DescriptorFlags {
    pub structure: bool,
    pub mask: bool,
    pub custom_dtis: bool,
    pub custom_fdiffs: bool,
    pub custom_chains: bool,
}

/// The flags of a descriptor: five bits behind the mandatory fields. A descriptor
/// that ends with the mandatory fields has none of the other fields.
pub open spec fn flags_of(bits: Seq<bool>) -> Option<(DescriptorFlags, int)> {
    if bits.len() <= MANDATORY_FIELDS_BITS {
        Some(
            (
                DescriptorFlags {
                    structure: false,
                    mask: false,
                    custom_dtis: false,
                    custom_fdiffs: false,
                    custom_chains: false,
                },
                MANDATORY_FIELDS_BITS as int,
            ),
        )
    } else if bits.len() >= MANDATORY_FIELDS_BITS + 5 {
        Some(
            (
                DescriptorFlags {
                    structure: bits[24],
                    mask: bits[25],
                    custom_dtis: bits[26],
                    custom_fdiffs: bits[27],
                    custom_chains: bits[28],
                },
                MANDATORY_FIELDS_BITS + 5,
            ),
        )
    } else {
        None
    }
}

/// What a descriptor says of its frame beyond the template: one indication (as a
/// wire value) per decode target, the frame differences, and one frame difference
/// per chain.
#[verifier::ext_equal]
pub struct FrameView {
    pub decode_target_indications: Seq<u8>,
    pub frame_diffs: Seq<u16>,
    pub chain_diffs: Seq<u8>,
}

/// The decode target indications of a frame: its own or those of its template.
pub open spec fn indications_at(
    bits: Seq<bool>,
    pos: int,
    flags: DescriptorFlags,
    num_decode_targets: nat,
    template: TemplateView,
) -> Option<(Seq<u8>, int)> {
    if flags.custom_dtis {
        fields::fields(bits, pos, num_decode_targets, 2)
    } else {
        Some((template.decode_target_indications, pos))
    }
}

/// The frame differences of a frame: its own or those of its template.
pub open spec fn frame_diffs_at(
    bits: Seq<bool>,
    pos: int,
    flags: DescriptorFlags,
    template: TemplateView,
) -> Option<(Seq<u16>, int)> {
    if flags.custom_fdiffs {
        fields::custom_frame_diffs(bits, pos)
    } else {
        Some((template.frame_diffs, pos))
    }
}

/// The chain differences of a frame: its own or those of its template.
pub open spec fn chain_diffs_at(
    bits: Seq<bool>,
    pos: int,
    flags: DescriptorFlags,
    num_chains: nat,
    template: TemplateView,
) -> Option<(Seq<u8>, int)> {
    if flags.custom_chains {
        fields::fields(bits, pos, num_chains, 8)
    } else {
        Some((template.chain_diffs, pos))
    }
}

/// What a descriptor says of its frame.
pub open spec fn frame_at(
    bits: Seq<bool>,
    pos: int,
    flags: DescriptorFlags,
    structure: StructureView,
    template: TemplateView,
) -> Option<(FrameView, int)> {
    match indications_at(bits, pos, flags, structure.num_decode_targets as nat, template) {
        Some((decode_target_indications, next)) => match frame_diffs_at(
            bits,
            next,
            flags,
            template,
        ) {
            Some((frame_diffs, after)) => match chain_diffs_at(
                bits,
                after,
                flags,
                structure.num_chains as nat,
                template,
            ) {
                Some((chain_diffs, end)) => Some(
                    (FrameView { decode_target_indications, frame_diffs, chain_diffs }, end),
                ),
                None => None,
            },
            None => None,
        },
        None => None,
    }
}

/// The structure that a descriptor is read with: the one that it carries, or else
/// the one that was retained.
pub open spec fn structure_of(
    bits: Seq<bool>,
    pos: int,
    flags: DescriptorFlags,
    retained: Option<StructureView>,
) -> Option<(StructureView, int)> {
    if flags.structure {
        structure::structure_at(bits, pos)
    } else {
        match retained {
            Some(structure) => Some((structure, pos)),
            None => None,
        }
    }
}

/// The mask of active decode targets that a descriptor carries, if it carries one.
pub open spec fn mask_at(
    bits: Seq<bool>,
    pos: int,
    flags: DescriptorFlags,
    num_decode_targets: nat,
) -> Option<(Option<u32>, int)> {
    if flags.mask {
        match fields::field(bits, pos, num_decode_targets) {
            Some((mask, end)) => Some((Some(mask as u32), end)),
            None => None,
        }
    } else {
        Some((None, pos))
    }
}

/// The template that a template id refers to: ids count up from the id of the
/// structure, modulo 64.
pub open spec fn template_index(template_id: u8, structure_id: u8) -> int {
    (template_id - structure_id) % (MAX_TEMPLATES as int)
}

/// The layer of the template that a descriptor refers to, and what the descriptor
/// says of its frame.
pub open spec fn template_frame_at(
    bits: Seq<bool>,
    pos: int,
    flags: DescriptorFlags,
    structure: StructureView,
    template_id: u8,
) -> Option<(DependencyDescriptorLayerIds, FrameView, int)> {
    let index = template_index(template_id, structure.structure_id);
    if index < structure.templates.len() {
        let template = structure.templates[index];
        match frame_at(bits, pos, flags, structure, template) {
            Some((frame, end)) => Some((template.layer_ids, frame, end)),
            None => None,
        }
    } else {
        None
    }
}

/// What a descriptor holds, read with its own or a retained structure.
#[verifier::ext_equal]
pub struct DescriptorView {
    pub first_packet_in_frame: bool,
    pub last_packet_in_frame: bool,
    pub frame_number: u16,
    pub carries_structure: bool,
    pub structure: StructureView,
    pub mask: Option<u32>,
    pub layer_ids: DependencyDescriptorLayerIds,
    pub frame: FrameView,
}

/// The descriptor in `bits`, and where its last field ends.
pub open spec fn descriptor_of(bits: Seq<bool>, retained: Option<StructureView>) -> Option<
    (DescriptorView, int),
> {
    if bits.len() < MANDATORY_FIELDS_BITS {
        None
    } else {
        match flags_of(bits) {
            Some((flags, pos)) => match structure_of(bits, pos, flags, retained) {
                Some((structure, mask_pos)) => match mask_at(
                    bits,
                    mask_pos,
                    flags,
                    structure.num_decode_targets as nat,
                ) {
                    Some((mask, frame_pos)) => {
                        let template_id = bits::bits_value(bits.subrange(2, 8)) as u8;
                        match template_frame_at(bits, frame_pos, flags, structure, template_id) {
                            Some((layer_ids, frame, end)) => Some(
                                (
                                    DescriptorView {
                                        first_packet_in_frame: bits[0],
                                        last_packet_in_frame: bits[1],
                                        frame_number: bits::bits_value(
                                            bits.subrange(8, 24),
                                        ) as u16,
                                        carries_structure: flags.structure,
                                        structure,
                                        mask,
                                        layer_ids,
                                        frame,
                                    },
                                    end,
                                ),
                            ),
                            None => None,
                        }
                    },
                    None => None,
                },
                None => None,
            },
            None => None,
        }
    }
}

/// What a parser has retained: the last structure that it has seen, and the
/// activity of that structure's decode targets.
#[verifier::ext_equal]
pub struct ParserView {
    pub structure: Option<StructureView>,
    pub active_decode_targets_mask: Option<u32>,
}

impl ParserView {
    /// The state of a parser that has seen no descriptor.
    pub open spec fn initial() -> ParserView {
        ParserView { structure: None, active_decode_targets_mask: None }
    }

    /// A structure and a mask are retained together; the structure is valid and the
    /// mask marks no decode target that the structure does not have.
    pub open spec fn valid(self) -> bool {
        match self.structure {
            Some(structure) => {
                &&& structure.valid()
                &&& self.active_decode_targets_mask matches Some(mask)
                &&& mask <= metadata::all_active_mask(structure.num_decode_targets as nat)
            },
            None => self.active_decode_targets_mask is None,
        }
    }
}

/// The activity of decode targets after a descriptor: as its mask says; without a
/// mask all targets of a structure that it carries are active; without either the
/// activity stays as it was.
pub open spec fn effective_mask(descriptor: DescriptorView, retained: Option<u32>) -> u32 {
    match descriptor.mask {
        Some(mask) => mask,
        None => {
            let all = metadata::all_active_mask(
                descriptor.structure.num_decode_targets as nat,
            ) as u32;
            if descriptor.carries_structure {
                all
            } else {
                match retained {
                    Some(mask) => mask,
                    None => all,
                }
            }
        },
    }
}

/// What a parser makes of a descriptor: the packet's metadata, if the frame is part
/// of an active decode target.
pub open spec fn metadata_of(descriptor: DescriptorView, retained: Option<u32>) -> Option<
    MetadataView,
> {
    let mask = effective_mask(descriptor, retained);
    let wire = descriptor.frame.decode_target_indications;
    match metadata::indications_of(wire) {
        Some(decode_target_indications) => if structure::layer_valid(descriptor.layer_ids)
            && metadata::any_active_target(wire, mask) {
            Some(
                MetadataView {
                    frame_number: descriptor.frame_number,
                    layer_ids: descriptor.layer_ids,
                    first_packet_in_frame: descriptor.first_packet_in_frame,
                    last_packet_in_frame: descriptor.last_packet_in_frame,
                    active_decode_targets_mask: mask,
                    decode_target_indications,
                    decode_target_layers: descriptor.structure.decode_target_layers,
                    frame_diffs: descriptor.frame.frame_diffs,
                    chain_diffs: descriptor.frame.chain_diffs,
                    decode_target_protected_by_chain:
                        descriptor.structure.decode_target_protected_by_chain,
                    has_switching_decode_target: metadata::any_active_switch(wire, mask),
                },
            )
        } else {
            None
        },
        None => None,
    }
}

/// One step of a parser: the metadata of a packet and what is retained behind it,
/// or `None` where the packet is rejected.
pub open spec fn parse_step(payload: Seq<u8>, state: ParserView) -> Option<
    (MetadataView, ParserView),
> {
    match descriptor_of(reader::readable_bits(payload), state.structure) {
        Some((descriptor, end)) => match metadata_of(
            descriptor,
            state.active_decode_targets_mask,
        ) {
            Some(metadata) => Some(
                (
                    metadata,
                    ParserView {
                        structure: Some(descriptor.structure),
                        active_decode_targets_mask: Some(metadata.active_decode_targets_mask),
                    },
                ),
            ),
            None => None,
        },
        None => None,
    }
}

/// Reads the flags of a descriptor.
pub(crate) fn read_flags(reader: &mut BitReader<'_>) -> (r: Option<DescriptorFlags>)
    requires
        old(reader).wf(),
        old(reader).pos() == MANDATORY_FIELDS_BITS,
    ensures
        final(reader).wf(),
        final(reader).payload == old(reader).payload,
        match flags_of(old(reader).bits()) {
            Some((flags, end)) => r == Some(flags) && final(reader).pos() == end,
            None => r is None,
        },
{
    if reader.bits_remaining() == 0 {
        return Some(
            DescriptorFlags {
                structure: false,
                mask: false,
                custom_dtis: false,
                custom_fdiffs: false,
                custom_chains: false,
            },
        );
    }
    let structure = reader.read_bool()?;
    let mask = reader.read_bool()?;
    let custom_dtis = reader.read_bool()?;
    let custom_fdiffs = reader.read_bool()?;
    let custom_chains = reader.read_bool()?;
    Some(DescriptorFlags { structure, mask, custom_dtis, custom_fdiffs, custom_chains })
}

/// Reads what a descriptor says of its frame.
fn read_frame(
    reader: &mut BitReader<'_>,
    flags: &DescriptorFlags,
    structure: &FrameDependencyStructure,
    template: &FrameTemplate,
) -> (r: Option<(Vec<u8>, Vec<u16>, Vec<u8>)>)
    requires
        old(reader).wf(),
    ensures
        final(reader).wf(),
        final(reader).payload == old(reader).payload,
        match frame_at(
            old(reader).bits(),
            old(reader).pos(),
            *flags,
            structure@,
            template@,
        ) {
            Some((frame, end)) => {
                &&& r matches Some((indications, frame_diffs, chain_diffs))
                &&& indications@ == frame.decode_target_indications
                &&& frame_diffs@ == frame.frame_diffs
                &&& chain_diffs@ == frame.chain_diffs
                &&& final(reader).pos() == end
            },
            None => r is None,
        },
{
    let indications = if flags.custom_dtis {
        match fields::read_fields(reader, structure.num_decode_targets, 2) {
            Some(indications) => indications,
            None => {
                return None;
            },
        }
    } else {
        structure::copy_bytes(&template.decode_target_indications)
    };
    let frame_diffs = if flags.custom_fdiffs {
        match fields::parse_custom_frame_diffs(reader) {
            Some(frame_diffs) => frame_diffs,
            None => {
                return None;
            },
        }
    } else {
        let copy = template.frame_diffs.clone();
        assert(copy@ =~= template.frame_diffs@);
        copy
    };
    let chain_diffs = if flags.custom_chains {
        match fields::read_fields(reader, structure.num_chains, 8) {
            Some(chain_diffs) => chain_diffs,
            None => {
                return None;
            },
        }
    } else {
        structure::copy_bytes(&template.chain_diffs)
    };
    Some((indications, frame_diffs, chain_diffs))
}

/// Reads what a descriptor says of its frame, with the template that it refers to.
fn read_template_frame(
    reader: &mut BitReader<'_>,
    flags: &DescriptorFlags,
    structure: &FrameDependencyStructure,
    template_id: u8,
) -> (r: Option<(DependencyDescriptorLayerIds, Vec<u8>, Vec<u16>, Vec<u8>)>)
    requires
        old(reader).wf(),
        structure@.valid(),
        template_id < 64,
    ensures
        final(reader).wf(),
        final(reader).payload == old(reader).payload,
        match template_frame_at(
            old(reader).bits(),
            old(reader).pos(),
            *flags,
            structure@,
            template_id,
        ) {
            Some((layer_ids, frame, end)) => {
                &&& r matches Some((layer, indications, frame_diffs, chain_diffs))
                &&& layer == layer_ids
                &&& indications@ == frame.decode_target_indications
                &&& indications@.len() == structure.num_decode_targets
                &&& frame_diffs@ == frame.frame_diffs
                &&& chain_diffs@ == frame.chain_diffs
                &&& final(reader).pos() == end
            },
            None => r is None,
        },
{
    let index: usize = (template_id as usize + MAX_TEMPLATES - structure.structure_id as usize)
        % MAX_TEMPLATES;
    if index >= structure.templates.len() {
        return None;
    }
    let template = &structure.templates[index];
    proof {
        assert(structure@.templates[index as int] == template@);
        fields::lemma_fields_bound(
            reader.bits(),
            reader.pos(),
            structure.num_decode_targets as nat,
            2,
        );
    }
    let (indications, frame_diffs, chain_diffs) = read_frame(reader, flags, structure, template)?;
    Some((template.layer_ids, indications, frame_diffs, chain_diffs))
}

/// A descriptor as it was read: its fields, and the structure that it carries, if
/// it carries one.
struct Descriptor {
    first_packet_in_frame: bool,
    last_packet_in_frame: bool,
    frame_number: u16,
    carried: Option<FrameDependencyStructure>,
    mask: Option<u32>,
    layer_ids: DependencyDescriptorLayerIds,
    decode_target_indications: Vec<u8>,
    frame_diffs: Vec<u16>,
    chain_diffs: Vec<u8>,
}

impl Descriptor {
    /// What the descriptor holds, read with a structure that it carries or that was
    /// retained.
    spec fn view_with(self, structure: StructureView) -> DescriptorView {
        DescriptorView {
            first_packet_in_frame: self.first_packet_in_frame,
            last_packet_in_frame: self.last_packet_in_frame,
            frame_number: self.frame_number,
            carries_structure: self.carried is Some,
            structure,
            mask: self.mask,
            layer_ids: self.layer_ids,
            frame: FrameView {
                decode_target_indications: self.decode_target_indications@,
                frame_diffs: self.frame_diffs@,
                chain_diffs: self.chain_diffs@,
            },
        }
    }
}

/// The carried structure, or else the retained one.
fn select_structure<'s>(
    carried: &'s Option<FrameDependencyStructure>,
    retained: &'s Option<FrameDependencyStructure>,
) -> (r: Option<&'s FrameDependencyStructure>)
    ensures
        match structure_view(*carried) {
            Some(structure) => r matches Some(s) && s@ == structure,
            None => match structure_view(*retained) {
                Some(structure) => r matches Some(s) && s@ == structure,
                None => r is None,
            },
        },
{
    match carried {
        Some(structure) => Some(structure),
        None => match retained {
            Some(structure) => Some(structure),
            None => None,
        },
    }
}

/// Reads the mask that a descriptor carries, if it carries one.
fn read_mask(reader: &mut BitReader<'_>, flags: &DescriptorFlags, num_decode_targets: u8) -> (r: Option<
    Option<u32>,
>)
    requires
        old(reader).wf(),
        1 <= num_decode_targets <= 32,
    ensures
        final(reader).wf(),
        final(reader).payload == old(reader).payload,
        match mask_at(
            old(reader).bits(),
            old(reader).pos(),
            *flags,
            num_decode_targets as nat,
        ) {
            Some((mask, end)) => r == Some(mask) && final(reader).pos() == end,
            None => r is None,
        },
{
    if flags.mask {
        match reader.read_bits(num_decode_targets as usize) {
            Some(mask) => Some(Some(mask as u32)),
            None => None,
        }
    } else {
        Some(None)
    }
}

/// Reads the mandatory fields: whether the packet is the first and the last of its
/// frame, the template id and the frame number.
fn read_mandatory_fields(reader: &mut BitReader<'_>) -> (r: Option<(bool, bool, u8, u16)>)
    requires
        old(reader).wf(),
        old(reader).pos() == 0,
    ensures
        final(reader).wf(),
        final(reader).payload == old(reader).payload,
        if old(reader).bits().len() < MANDATORY_FIELDS_BITS {
            r is None
        } else {
            let bits = old(reader).bits();
            &&& r matches Some((first, last, template_id, frame_number))
            &&& first == bits[0]
            &&& last == bits[1]
            &&& template_id == bits::bits_value(bits.subrange(2, 8))
            &&& template_id < 64
            &&& frame_number == bits::bits_value(bits.subrange(8, 24))
            &&& final(reader).pos() == MANDATORY_FIELDS_BITS
        },
{
    proof {
        power2::lemma2_to64();
        fields::lemma_field_u8_bound(reader.bits(), 2, 6);
        fields::lemma_field_bound(reader.bits(), 2, 6);
        fields::lemma_field_bound(reader.bits(), 8, 16);
    }
    let first_packet_in_frame = reader.read_bool()?;
    let last_packet_in_frame = reader.read_bool()?;
    let template_id = reader.read_bits_u8(6)?;
    let frame_number: u16 = reader.read_bits(16)? as u16;
    Some((first_packet_in_frame, last_packet_in_frame, template_id, frame_number))
}

/// Reads the structure that a descriptor carries, if it carries one.
fn read_carried_structure(
    reader: &mut BitReader<'_>,
    flags: &DescriptorFlags,
    retained: &Option<FrameDependencyStructure>,
) -> (r: Option<Option<FrameDependencyStructure>>)
    requires
        old(reader).wf(),
        retained matches Some(structure) ==> structure@.valid(),
    ensures
        final(reader).wf(),
        final(reader).payload == old(reader).payload,
        match structure_of(
            old(reader).bits(),
            old(reader).pos(),
            *flags,
            structure_view(*retained),
        ) {
            Some((structure, end)) => {
                &&& r matches Some(carried)
                &&& structure.valid()
                &&& carried is Some == flags.structure
                &&& Some(structure) == if carried is Some {
                    structure_view(carried)
                } else {
                    structure_view(*retained)
                }
                &&& final(reader).pos() == end
            },
            None => r is None || r == Some(None::<FrameDependencyStructure>) && retained is None,
        },
{
    if flags.structure {
        proof {
            structure::lemma_structure_valid(reader.bits(), reader.pos());
        }
        let structure = structure::parse_structure(reader)?;
        Some(Some(structure))
    } else {
        Some(None)
    }
}

/// Reads a descriptor.
fn read_descriptor(payload: &[u8], retained: &Option<FrameDependencyStructure>) -> (r: Option<
    Descriptor,
>)
    requires
        retained matches Some(structure) ==> structure@.valid(),
    ensures
        match descriptor_of(reader::readable_bits(payload@), structure_view(*retained)) {
            Some((descriptor, end)) => {
                &&& r matches Some(d)
                &&& d.view_with(descriptor.structure) == descriptor
                &&& descriptor.structure.valid()
                &&& descriptor.frame.decode_target_indications.len()
                    == descriptor.structure.num_decode_targets
                &&& if d.carried is Some {
                    structure_view(d.carried) == Some(descriptor.structure)
                } else {
                    structure_view(*retained) == Some(descriptor.structure)
                }
            },
            None => r is None,
        },
{
    let mut reader = BitReader::new(payload);
    let ghost bits = reader.bits();
    let (first_packet_in_frame, last_packet_in_frame, template_id, frame_number) =
        read_mandatory_fields(&mut reader)?;
    let flags = read_flags(&mut reader)?;
    let carried = read_carried_structure(&mut reader, &flags, retained)?;
    let structure = select_structure(&carried, retained)?;
    let mask = read_mask(&mut reader, &flags, structure.num_decode_targets)?;
    let (layer_ids, decode_target_indications, frame_diffs, chain_diffs) = read_template_frame(
        &mut reader,
        &flags,
        structure,
        template_id,
    )?;
    Some(
        Descriptor {
            first_packet_in_frame,
            last_packet_in_frame,
            frame_number,
            carried,
            mask,
            layer_ids,
            decode_target_indications,
            frame_diffs,
            chain_diffs,
        },
    )
}

/// Parses one descriptor with what was retained. Behind the metadata stands the
/// structure that the descriptor carries, if it carries one.
fn parse_packet_metadata_internal(
    payload: &[u8],
    retained_structure: &Option<FrameDependencyStructure>,
    retained_mask: Option<u32>,
) -> (r: Option<(DependencyDescriptorPacketMetadata, Option<FrameDependencyStructure>)>)
    requires
        retained_structure matches Some(structure) ==> structure@.valid(),
    ensures
        match parse_step(
            payload@,
            ParserView {
                structure: structure_view(*retained_structure),
                active_decode_targets_mask: retained_mask,
            },
        ) {
            Some((metadata, state)) => {
                &&& r matches Some((m, carried))
                &&& m@ == metadata
                &&& state.structure == match structure_view(carried) {
                    Some(structure) => Some(structure),
                    None => structure_view(*retained_structure),
                }
            },
            None => r is None,
        },
{
    let descriptor = read_descriptor(payload, retained_structure)?;
    let structure = select_structure(&descriptor.carried, retained_structure)?;
    let layer_ids = descriptor.layer_ids;
    if layer_ids.temporal_id > MAX_TEMPORAL_ID || layer_ids.spatial_id > MAX_SPATIAL_ID {
        return None;
    }
    let active_decode_targets_mask: u32 = match descriptor.mask {
        Some(mask) => mask,
        None => match (&descriptor.carried, retained_mask) {
            (None, Some(mask)) => mask,
            _ => metadata::all_decode_targets_active_mask(structure.num_decode_targets),
        },
    };
    if !metadata::has_any_active_decode_target(
        &descriptor.decode_target_indications,
        active_decode_targets_mask,
    ) {
        return None;
    }
    let has_switching_decode_target = metadata::has_switching_decode_target(
        &descriptor.decode_target_indications,
        active_decode_targets_mask,
    );
    let decode_target_indications = metadata::indications_from_wire(
        &descriptor.decode_target_indications,
    )?;
    let decode_target_layers = structure.decode_target_layers.clone();
    assert(decode_target_layers@ =~= structure.decode_target_layers@);
    let decode_target_protected_by_chain = structure::copy_bytes(&structure.decode_target_protected_by_chain);
    let metadata = DependencyDescriptorPacketMetadata {
        frame_number: descriptor.frame_number,
        layer_ids,
        first_packet_in_frame: descriptor.first_packet_in_frame,
        last_packet_in_frame: descriptor.last_packet_in_frame,
        active_decode_targets_mask,
        decode_target_indications,
        decode_target_layers,
        frame_diffs: descriptor.frame_diffs,
        chain_diffs: descriptor.chain_diffs,
        decode_target_protected_by_chain,
        has_switching_decode_target,
    };
    Some((metadata, descriptor.carried))
}

/// The view of a structure that may be absent.
pub(crate) open spec fn structure_view(
    structure: Option<FrameDependencyStructure>,
) -> Option<StructureView> {
    match structure {
        Some(structure) => Some(structure@),
        None => None,
    }
}

/// Stateful parser for dependency descriptor RTP header extension payloads.
///
/// The extension can reference a previously sent frame dependency structure.
/// Keep one parser instance per RTP stream/SSRC.
#[derive(Debug)]
pub struct DependencyDescriptorParser {
    structure: Option<FrameDependencyStructure>,
    active_decode_targets_mask: Option<u32>,
}

impl View for DependencyDescriptorParser {
    type V = ParserView;

    closed spec fn view(&self) -> ParserView {
        ParserView {
            structure: structure_view(self.structure),
            active_decode_targets_mask: self.active_decode_targets_mask,
        }
    }
}

impl Clone for DependencyDescriptorParser {
    fn clone(&self) -> (r: Self)
        ensures
            r@ == self@,
    {
        proof {
            use_type_invariant(self);
        }
        let structure = match &self.structure {
            Some(structure) => Some(structure.copy()),
            None => None,
        };
        DependencyDescriptorParser {
            structure,
            active_decode_targets_mask: self.active_decode_targets_mask,
        }
    }
}

impl Default for DependencyDescriptorParser {
    fn default() -> (r: Self)
        ensures
            r@ == ParserView::initial(),
    {
        DependencyDescriptorParser { structure: None, active_decode_targets_mask: None }
    }
}

impl DependencyDescriptorParser {
    #[verifier::type_invariant]
    spec fn wf(self) -> bool {
        self@.valid()
    }

    /// Parses one dependency descriptor payload and returns temporal/spatial ids when available.
    ///
    /// Parsing is fail-safe: parser state is updated only when the payload parses successfully.
    pub fn parse_layer_ids(&mut self, payload: &[u8]) -> (r: Option<DependencyDescriptorLayerIds>)
        ensures
            match parse_step(payload@, old(self)@) {
                Some((metadata, state)) => r == Some(metadata.layer_ids) && final(self)@ == state,
                None => r is None && *final(self) == *old(self),
            },
            old(self)@.valid(),
            final(self)@.valid(),
    {
        match self.parse_packet_metadata(payload) {
            Some(metadata) => Some(metadata.layer_ids),
            None => None,
        }
    }

    /// Parses one descriptor into active-decode-target layer and frame-boundary metadata.
    ///
    /// Parsing is fail-safe: parser state is updated only when the payload parses successfully.
    pub fn parse_packet_metadata(&mut self, payload: &[u8]) -> (r: Option<
        DependencyDescriptorPacketMetadata,
    >)
        ensures
            match parse_step(payload@, old(self)@) {
                Some((metadata, state)) => (r matches Some(m) && m@ == metadata && final(self)@
                    == state),
                None => r is None && *final(self) == *old(self),
            },
            r matches Some(m) ==> {
                &&& payload@.len() >= 3
                &&& m.first_packet_in_frame == (payload@[0] & 0x80 != 0)
                &&& m.last_packet_in_frame == (payload@[0] & 0x40 != 0)
                &&& m.frame_number == 256 * payload@[1] + payload@[2]
            },
            old(self)@.valid(),
            final(self)@.valid(),
    {
        proof {
            use_type_invariant(&*self);
            lemma_step_valid(payload@, self@);
            if parse_step(payload@, self@) is Some {
                wire_laws::law_frame_fields_are_first_bytes(payload@, self@);
            }
        }
        match parse_packet_metadata_internal(
            payload,
            &self.structure,
            self.active_decode_targets_mask,
        ) {
            Some((metadata, carried)) => {
                let active_decode_targets_mask = Some(metadata.active_decode_targets_mask);
                let mut before = DependencyDescriptorParser::default();
                std::mem::swap(self, &mut before);
                let structure = match carried {
                    Some(structure) => Some(structure),
                    None => before.structure,
                };
                *self = DependencyDescriptorParser { structure, active_decode_targets_mask };
                Some(metadata)
            },
            None => None,
        }
    }
}

/// What a parser has retained behind a sequence of packets.
pub open spec fn state_after(packets: Seq<Seq<u8>>, state: ParserView) -> ParserView
    decreases packets.len(),
{
    if packets.len() == 0 {
        state
    } else {
        let before = state_after(packets.drop_last(), state);
        match parse_step(packets.last(), before) {
            Some((metadata, next)) => next,
            None => before,
        }
    }
}

/// Each step of a parser keeps its state valid.
pub proof fn lemma_step_valid(payload: Seq<u8>, state: ParserView)
    requires
        state.valid(),
    ensures
        parse_step(payload, state) matches Some((metadata, next)) ==> next.valid(),
{
    let bits = reader::readable_bits(payload);
    if let Some((metadata, next)) = parse_step(payload, state) {
        let (descriptor, end) = descriptor_of(bits, state.structure)->0;
        let (flags, pos) = flags_of(bits)->0;
        structure::lemma_structure_valid(bits, pos);
        let (structure, mask_pos) = structure_of(bits, pos, flags, state.structure)->0;
        lemma_mask_bound(bits, mask_pos, structure.num_decode_targets as nat);
    }
}

/// A mask over so many decode targets marks no others.
pub proof fn lemma_mask_bound(bits: Seq<bool>, pos: int, num_decode_targets: nat)
    requires
        num_decode_targets <= 32,
    ensures
        metadata::all_active_mask(num_decode_targets) <= u32::MAX,
        fields::field(bits, pos, num_decode_targets) matches Some((mask, end)) ==> mask
            <= metadata::all_active_mask(num_decode_targets),
{
    fields::lemma_field_bound(bits, pos, num_decode_targets);
    power2::lemma2_to64();
    if num_decode_targets < 32 {
        power2::lemma_pow2_strictly_increases(num_decode_targets, 32);
        power2::lemma_pow2_pos(num_decode_targets);
    }
}

} // verus!
