//! How structures and descriptors are written: the bits that stand for a value,
//! piece by piece. What is read from these bits has to be the value again.
use crate::metadata::{DependencyDescriptorDecodeTargetIndication, DependencyDescriptorLayerIds};
use crate::structure::{StructureView, TemplateView};
use vstd::arithmetic::power2;
use vstd::prelude::*;

verus! {

/// The number `value` in `width` bits: the bit at index `i` has the weight two to the
/// power of `width - 1 - i`.
pub open spec fn number(value: nat, width: nat) -> Seq<bool> {
    Seq::new(width, |i: int| (value / power2::pow2((width - 1 - i) as nat)) % 2 == 1)
}

/// The texts of all items, one behind the other.
pub open spec fn joined<T>(items: Seq<T>, text: spec_fn(T) -> Seq<bool>) -> Seq<bool>
    decreases items.len(),
{
    if items.len() == 0 {
        Seq::empty()
    } else {
        text(items[0]) + joined(items.drop_first(), text)
    }
}

/// The text of one number of `width` bits.
pub open spec fn number_text(width: nat) -> spec_fn(u8) -> Seq<bool> {
    |value: u8| number(value as nat, width)
}

/// Numbers of `width` bits each.
pub open spec fn numbers(values: Seq<u8>, width: nat) -> Seq<bool> {
    joined(values, number_text(width))
}

/// The text of a list of numbers of `width` bits each.
pub open spec fn numbers_text(width: nat) -> spec_fn(Seq<u8>) -> Seq<bool> {
    |values: Seq<u8>| numbers(values, width)
}

/// It takes `width` bits to write `n`: it lies between two neighbouring powers of two.
pub open spec fn is_width(n: nat, width: nat) -> bool {
    width > 0 && power2::pow2((width - 1) as nat) <= n < power2::pow2(width)
}

/// How many bits it takes to write `n`.
pub open spec fn width_for(n: nat) -> nat {
    choose|width: nat| is_width(n, width)
}

/// A number below `num_values` in the non-symmetric code. A number that is smaller
/// than the gap between `num_values` and the next power of two takes one bit less than
/// the others, and the others are written with the gap added.
pub open spec fn non_symmetric_number(value: nat, num_values: nat) -> Seq<bool> {
    let width = width_for(num_values);
    let gap = power2::pow2(width) - num_values;
    if num_values == 1 {
        Seq::empty()
    } else if value < gap {
        number(value, (width - 1) as nat)
    } else {
        number((value + gap) as nat, width)
    }
}

/// The text of one number below `num_values` in the non-symmetric code.
pub open spec fn non_symmetric_text(num_values: nat) -> spec_fn(u8) -> Seq<bool> {
    |value: u8| non_symmetric_number(value as nat, num_values)
}

/// The frame differences of a template: a set bit before each, and a clear bit behind
/// the last.
pub open spec fn template_diffs(diffs: Seq<u16>) -> Seq<bool>
    decreases diffs.len(),
{
    if diffs.len() == 0 {
        seq![false]
    } else {
        seq![true] + number((diffs[0] - 1) as nat, 4) + template_diffs(diffs.drop_first())
    }
}

/// The text of a template's frame differences.
pub open spec fn template_diffs_text() -> spec_fn(Seq<u16>) -> Seq<bool> {
    |diffs: Seq<u16>| template_diffs(diffs)
}

/// A frame difference that a packet carries, and how many groups of four bits it is
/// written in.
pub struct SizedDiff {
    pub size: nat,
    pub diff: u16,
}

/// One to three groups hold the difference less one.
pub open spec fn sized_diff_fits(sized: SizedDiff) -> bool {
    &&& 1 <= sized.size <= 3
    &&& 1 <= sized.diff
    &&& sized.size == 1 ==> sized.diff <= 16
    &&& sized.size == 2 ==> sized.diff <= 256
    &&& sized.size == 3 ==> sized.diff <= 4096
}

/// The frame differences that a packet carries: two bits with the size before each,
/// and the size zero behind the last.
pub open spec fn custom_diffs(diffs: Seq<SizedDiff>) -> Seq<bool>
    decreases diffs.len(),
{
    if diffs.len() == 0 {
        number(0, 2)
    } else {
        number(diffs[0].size, 2) + number((diffs[0].diff - 1) as nat, 4 * diffs[0].size)
            + custom_diffs(diffs.drop_first())
    }
}

/// The differences without their sizes.
pub open spec fn plain_diffs(diffs: Seq<SizedDiff>) -> Seq<u16> {
    Seq::new(diffs.len(), |i: int| diffs[i].diff)
}

/// The layer of a template can follow that of the template before it: it is the same,
/// one temporal layer higher, or the first temporal layer one spatial layer higher.
pub open spec fn step_allowed(
    from: DependencyDescriptorLayerIds,
    to: DependencyDescriptorLayerIds,
) -> bool {
    ||| to == from
    ||| to.spatial_id == from.spatial_id && to.temporal_id == from.temporal_id + 1
    ||| to.spatial_id == from.spatial_id + 1 && to.temporal_id == 0
}

/// The code for the step from the layer of a template to that of the next.
pub open spec fn step_code(
    from: DependencyDescriptorLayerIds,
    to: DependencyDescriptorLayerIds,
) -> nat {
    if to == from {
        0
    } else if to.spatial_id == from.spatial_id {
        1
    } else {
        2
    }
}

/// The layers of a structure's templates, as the steps between them.
pub open spec fn layer_codes(layers: Seq<DependencyDescriptorLayerIds>) -> Seq<bool>
    decreases layers.len(),
{
    if layers.len() <= 1 {
        number(3, 2)
    } else {
        number(step_code(layers[0], layers[1]), 2) + layer_codes(layers.drop_first())
    }
}

/// The layers of templates.
pub open spec fn layers_of(templates: Seq<TemplateView>) -> Seq<DependencyDescriptorLayerIds> {
    Seq::new(templates.len(), |i: int| templates[i].layer_ids)
}

/// The indications of templates.
pub open spec fn indications_of(templates: Seq<TemplateView>) -> Seq<Seq<u8>> {
    Seq::new(templates.len(), |i: int| templates[i].decode_target_indications)
}

/// The frame differences of templates.
pub open spec fn frame_diffs_of(templates: Seq<TemplateView>) -> Seq<Seq<u16>> {
    Seq::new(templates.len(), |i: int| templates[i].frame_diffs)
}

/// The chain differences of templates.
pub open spec fn chain_diffs_of(templates: Seq<TemplateView>) -> Seq<Seq<u8>> {
    Seq::new(templates.len(), |i: int| templates[i].chain_diffs)
}

/// The chains of a structure: how many there are, which one protects each decode target,
/// and each template's differences to them.
pub open spec fn chains(
    num_decode_targets: nat,
    num_chains: nat,
    decode_target_protected_by_chain: Seq<u8>,
    chain_diffs: Seq<Seq<u8>>,
) -> Seq<bool> {
    non_symmetric_number(num_chains, num_decode_targets + 1) + if num_chains == 0 {
        Seq::empty()
    } else {
        joined(decode_target_protected_by_chain, non_symmetric_text(num_chains)) + joined(
            chain_diffs,
            numbers_text(4),
        )
    }
}

/// The resolutions of a structure, which may be absent.
pub open spec fn resolutions_text(resolutions: Option<Seq<bool>>) -> Seq<bool> {
    match resolutions {
        Some(sizes) => seq![true] + sizes,
        None => seq![false],
    }
}

/// Resolutions have a width and a height of 16 bits each for every spatial layer, up to
/// the highest that a template is in.
pub open spec fn resolutions_fit(
    templates: Seq<TemplateView>,
    resolutions: Option<Seq<bool>>,
) -> bool {
    resolutions matches Some(sizes) ==> exists|i: int|
        0 <= i < templates.len() && sizes.len() == 2 * 16 * (
        #[trigger] templates[i].layer_ids.spatial_id + 1) && forall|j: int|
            0 <= j < templates.len() ==> #[trigger] templates[j].layer_ids.spatial_id
                <= templates[i].layer_ids.spatial_id
}

/// A structure up to its resolutions.
pub open spec fn structure_head(structure: StructureView) -> Seq<bool> {
    number(structure.structure_id as nat, 6) + number(
        (structure.num_decode_targets - 1) as nat,
        5,
    ) + layer_codes(layers_of(structure.templates)) + joined(
        indications_of(structure.templates),
        numbers_text(2),
    ) + joined(frame_diffs_of(structure.templates), template_diffs_text()) + chains(
        structure.num_decode_targets as nat,
        structure.num_chains as nat,
        structure.decode_target_protected_by_chain,
        chain_diffs_of(structure.templates),
    )
}

/// A structure and its resolutions.
pub open spec fn structure_text(structure: StructureView, resolutions: Option<Seq<bool>>) -> Seq<
    bool,
> {
    structure_head(structure) + resolutions_text(resolutions)
}

/// Template `i` is part of decode target `target`.
pub open spec fn is_part(templates: Seq<TemplateView>, i: int, target: int) -> bool {
    0 <= i < templates.len() && templates[i].decode_target_indications[target] != 0
}

/// `layer` is the highest among the templates that are part of decode target `target`:
/// none of them is higher in either id, and each id is that of one of them, or 0.
pub open spec fn is_highest_layer(
    templates: Seq<TemplateView>,
    target: int,
    layer: DependencyDescriptorLayerIds,
) -> bool {
    &&& forall|i: int| #[trigger]
        is_part(templates, i, target) ==> templates[i].layer_ids.temporal_id <= layer.temporal_id
            && templates[i].layer_ids.spatial_id <= layer.spatial_id
    &&& layer.temporal_id == 0 || exists|i: int| #[trigger]
        is_part(templates, i, target) && templates[i].layer_ids.temporal_id == layer.temporal_id
    &&& layer.spatial_id == 0 || exists|i: int| #[trigger]
        is_part(templates, i, target) && templates[i].layer_ids.spatial_id == layer.spatial_id
}

/// A template of a structure with so many decode targets and chains.
pub open spec fn template_well_formed(
    template: TemplateView,
    num_decode_targets: nat,
    num_chains: nat,
) -> bool {
    &&& template.layer_ids.temporal_id <= 7
    &&& template.layer_ids.spatial_id <= 3
    &&& template.decode_target_indications.len() == num_decode_targets
    &&& forall|i: int|
        0 <= i < num_decode_targets ==> #[trigger] template.decode_target_indications[i] <= 3
    &&& forall|i: int|
        0 <= i < template.frame_diffs.len() ==> 1 <= #[trigger] template.frame_diffs[i] <= 16
    &&& template.chain_diffs.len() == num_chains
    &&& forall|i: int| 0 <= i < num_chains ==> #[trigger] template.chain_diffs[i] <= 15
}

/// A structure that can be written.
pub open spec fn well_formed(structure: StructureView) -> bool {
    let targets = structure.num_decode_targets as nat;
    let templates = structure.templates;
    &&& structure.structure_id <= 63
    &&& 1 <= targets <= 32
    &&& 1 <= templates.len() <= 64
    &&& templates[0].layer_ids.temporal_id == 0
    &&& templates[0].layer_ids.spatial_id == 0
    &&& forall|i: int|
        #![trigger templates[i]]
        0 < i < templates.len() ==> step_allowed(templates[i - 1].layer_ids, templates[i].layer_ids)
    &&& forall|i: int|
        #![trigger templates[i]]
        0 <= i < templates.len() ==> template_well_formed(
            templates[i],
            targets,
            structure.num_chains as nat,
        )
    &&& structure.num_chains <= targets
    &&& structure.decode_target_protected_by_chain.len() == if structure.num_chains == 0 {
        0
    } else {
        targets
    }
    &&& forall|i: int|
        0 <= i < structure.decode_target_protected_by_chain.len() ==> #[trigger]
        structure.decode_target_protected_by_chain[i] < structure.num_chains
    &&& structure.decode_target_layers.len() == targets
    &&& forall|target: int|
        0 <= target < targets ==> is_highest_layer(
            templates,
            target,
            #[trigger] structure.decode_target_layers[target],
        )
}

/// A structure that a descriptor carries.
pub struct CarriedStructure {
    pub structure: StructureView,
    pub resolutions: Option<Seq<bool>>,
}

/// What a descriptor carries of its own for its frame, each of them or not.
pub struct CustomFields {
    pub indications: Option<Seq<u8>>,
    pub frame_diffs: Option<Seq<SizedDiff>>,
    pub chain_diffs: Option<Seq<u8>>,
}

/// What a descriptor says. The frame number and the template id stand in the mandatory
/// fields, the rest behind them.
pub struct Text {
    pub first_packet_in_frame: bool,
    pub last_packet_in_frame: bool,
    pub template_id: nat,
    pub frame_number: nat,
    pub carried: Option<CarriedStructure>,
    pub mask: Option<u32>,
    pub custom: CustomFields,
}

/// The custom fields of a frame.
pub open spec fn custom_text(custom: CustomFields) -> Seq<bool> {
    (match custom.indications {
        Some(values) => numbers(values, 2),
        None => Seq::empty(),
    }) + (match custom.frame_diffs {
        Some(diffs) => custom_diffs(diffs),
        None => Seq::empty(),
    }) + (match custom.chain_diffs {
        Some(values) => numbers(values, 8),
        None => Seq::empty(),
    })
}

/// Custom fields fit so many decode targets, and so many chains where that is known.
pub open spec fn custom_fits(
    custom: CustomFields,
    num_decode_targets: nat,
    num_chains: Option<nat>,
) -> bool {
    &&& custom.indications matches Some(values) ==> values.len() == num_decode_targets && forall|
        i: int,
    |
        0 <= i < values.len() ==> #[trigger] values[i] <= 3
    &&& custom.frame_diffs matches Some(diffs) ==> forall|i: int|
        0 <= i < diffs.len() ==> sized_diff_fits(#[trigger] diffs[i])
    &&& custom.chain_diffs matches Some(values) ==> num_chains == Some(values.len())
}

/// The structure that a descriptor carries, if it carries one.
pub open spec fn carried_text(carried: Option<CarriedStructure>) -> Seq<bool> {
    match carried {
        Some(carried) => structure_text(carried.structure, carried.resolutions),
        None => Seq::empty(),
    }
}

/// A carried structure can be written.
pub open spec fn carried_fits(carried: Option<CarriedStructure>) -> bool {
    carried matches Some(carried) ==> well_formed(carried.structure) && resolutions_fit(
        carried.structure.templates,
        carried.resolutions,
    )
}

/// The mandatory fields.
pub open spec fn mandatory_text(text: Text) -> Seq<bool> {
    seq![text.first_packet_in_frame, text.last_packet_in_frame] + number(text.template_id, 6)
        + number(text.frame_number, 16)
}

/// The five bits that tell what stands behind the mandatory fields.
pub open spec fn flags_text(
    structure: bool,
    mask: bool,
    indications: bool,
    frame_diffs: bool,
    chain_diffs: bool,
) -> Seq<bool> {
    seq![structure, mask, indications, frame_diffs, chain_diffs]
}

/// What stands behind the mandatory fields of a descriptor over so many decode targets.
pub open spec fn extended_text(text: Text, num_decode_targets: nat) -> Seq<bool> {
    flags_text(
        text.carried is Some,
        text.mask is Some,
        text.custom.indications is Some,
        text.custom.frame_diffs is Some,
        text.custom.chain_diffs is Some,
    ) + carried_text(text.carried) + (match text.mask {
        Some(mask) => number(mask as nat, num_decode_targets),
        None => Seq::empty(),
    }) + custom_text(text.custom)
}

/// A descriptor that has nothing behind its mandatory fields.
pub open spec fn is_plain(text: Text) -> bool {
    &&& text.carried is None
    &&& text.mask is None
    &&& text.custom.indications is None
    &&& text.custom.frame_diffs is None
    &&& text.custom.chain_diffs is None
}

/// The bits are those of a descriptor, read with the structure `used`, and more bits
/// behind it. A descriptor of 24 bits consists of the mandatory fields alone.
pub open spec fn is_written(bits: Seq<bool>, text: Text, used: StructureView, rest: Seq<bool>) -> bool {
    let targets = used.num_decode_targets as nat;
    &&& text.template_id <= 63
    &&& text.frame_number <= 0xffff
    &&& carried_fits(text.carried)
    &&& text.mask matches Some(mask) ==> mask < power2::pow2(targets)
    &&& custom_fits(text.custom, targets, Some(used.num_chains as nat))
    &&& if bits.len() <= 24 {
        is_plain(text) && bits == mandatory_text(text)
    } else {
        bits == mandatory_text(text) + extended_text(text, targets) + rest
    }
}

/// The structure that a descriptor is read with: its own, or else the retained one.
pub open spec fn is_used(
    carried: Option<CarriedStructure>,
    retained: Option<StructureView>,
    used: StructureView,
) -> bool {
    match carried {
        Some(carried) => carried.structure == used,
        None => retained == Some(used),
    }
}

/// A mask marks decode target `target` as active.
pub open spec fn marks(mask: u32, target: int) -> bool {
    0 <= target < 32 && (mask as nat / power2::pow2(target as nat)) % 2 == 1
}

/// The wire value that stands for an indication.
pub open spec fn wire_value(indication: DependencyDescriptorDecodeTargetIndication) -> u8 {
    match indication {
        DependencyDescriptorDecodeTargetIndication::NotPresent => 0,
        DependencyDescriptorDecodeTargetIndication::Discardable => 1,
        DependencyDescriptorDecodeTargetIndication::Switch => 2,
        DependencyDescriptorDecodeTargetIndication::Required => 3,
    }
}

/// A raw descriptor as far as the rewriting of its mask reads it: the mandatory fields,
/// the structure, the mask, the custom fields, and what follows them. Custom chain
/// differences are told from what follows only where a structure is carried; where none
/// is, `chains` says alone whether they are announced.
pub struct RawText {
    pub mandatory: Seq<bool>,
    pub carried: Option<CarriedStructure>,
    pub mask: Option<Seq<bool>>,
    pub custom: CustomFields,
    pub chains: bool,
    pub rest: Seq<bool>,
}

/// The part of a raw descriptor before its mask, if it carries one or is to carry one.
pub open spec fn before_mask(raw: RawText, mask: bool) -> Seq<bool> {
    raw.mandatory + flags_text(
        raw.carried is Some,
        mask,
        raw.custom.indications is Some,
        raw.custom.frame_diffs is Some,
        raw.chains,
    ) + carried_text(raw.carried)
}

/// The bits are those of a raw descriptor over so many decode targets, with more than
/// the mandatory fields.
pub open spec fn is_raw(bits: Seq<bool>, raw: RawText, num_decode_targets: nat) -> bool {
    &&& raw.mandatory.len() == 24
    &&& carried_fits(raw.carried)
    &&& raw.carried matches Some(carried) ==> carried.structure.num_decode_targets
        == num_decode_targets
    &&& raw.mask matches Some(mask) ==> mask.len() == num_decode_targets
    &&& raw.custom.chain_diffs is Some <==> raw.chains && raw.carried is Some
    &&& custom_fits(
        raw.custom,
        num_decode_targets,
        match raw.carried {
            Some(carried) => Some(carried.structure.num_chains as nat),
            None => None,
        },
    )
    &&& bits == before_mask(raw, raw.mask is Some) + (match raw.mask {
        Some(mask) => mask,
        None => Seq::empty(),
    }) + custom_text(raw.custom) + raw.rest
}

/// `all` is `bits`, filled up to whole bytes with clear bits.
pub open spec fn is_filled(all: Seq<bool>, bits: Seq<bool>) -> bool {
    &&& all.len() % 8 == 0
    &&& bits.len() <= all.len() < bits.len() + 8
    &&& forall|i: int| 0 <= i < bits.len() ==> #[trigger] all[i] == bits[i]
    &&& forall|i: int| bits.len() <= i < all.len() ==> !#[trigger] all[i]
}

} // verus!
