//! Frame dependency structures: the templates that packets refer to.
use crate::fields;
use crate::metadata::{DependencyDescriptorLayerIds, DTI_NOT_PRESENT};
use crate::reader::BitReader;
use vstd::arithmetic::power2;
use vstd::prelude::*;

verus! {

/// Most templates that a structure can have.
pub const MAX_TEMPLATES: usize = 64;

/// Highest temporal layer id.
pub const MAX_TEMPORAL_ID: u8 = 7;

/// Highest spatial layer id.
pub const MAX_SPATIAL_ID: u8 = 3;

/// What the frames have in common that refer to a template.
#[derive(Debug)]
pub(crate) struct FrameTemplate {
    pub(crate) layer_ids: DependencyDescriptorLayerIds,
    pub(crate) decode_target_indications: Vec<u8>,
    pub(crate) frame_diffs: Vec<u16>,
    pub(crate) chain_diffs: Vec<u8>,
}

/// The decode targets, chains and templates of a stream.
#[derive(Debug)]
pub(crate) struct FrameDependencyStructure {
    pub(crate) structure_id: u8,
    pub(crate) num_decode_targets: u8,
    pub(crate) num_chains: u8,
    pub(crate) decode_target_protected_by_chain: Vec<u8>,
    pub(crate) decode_target_layers: Vec<DependencyDescriptorLayerIds>,
    pub(crate) templates: Vec<FrameTemplate>,
}

/// What a template holds: its layer, one indication (as a wire value) per decode
/// target, its frame differences and one frame difference per chain.
#[verifier::ext_equal]
pub struct TemplateView {
    pub layer_ids: DependencyDescriptorLayerIds,
    pub decode_target_indications: Seq<u8>,
    pub frame_diffs: Seq<u16>,
    pub chain_diffs: Seq<u8>,
}

/// What a structure holds.
#[verifier::ext_equal]
pub struct StructureView {
    pub structure_id: u8,
    pub num_decode_targets: u8,
    pub num_chains: u8,
    pub decode_target_protected_by_chain: Seq<u8>,
    pub decode_target_layers: Seq<DependencyDescriptorLayerIds>,
    pub templates: Seq<TemplateView>,
}

impl FrameTemplate {
    pub(crate) open spec fn view(&self) -> TemplateView {
        TemplateView {
            layer_ids: self.layer_ids,
            decode_target_indications: self.decode_target_indications@,
            frame_diffs: self.frame_diffs@,
            chain_diffs: self.chain_diffs@,
        }
    }
}

/// The views of a list of templates.
pub(crate) open spec fn template_views(templates: Seq<FrameTemplate>) -> Seq<TemplateView> {
    Seq::new(templates.len(), |i: int| templates[i]@)
}

impl FrameDependencyStructure {
    pub(crate) open spec fn view(&self) -> StructureView {
        StructureView {
            structure_id: self.structure_id,
            num_decode_targets: self.num_decode_targets,
            num_chains: self.num_chains,
            decode_target_protected_by_chain: self.decode_target_protected_by_chain@,
            decode_target_layers: self.decode_target_layers@,
            templates: template_views(self.templates@),
        }
    }
}

/// Copies a list of bytes.
pub(crate) fn copy_bytes(values: &Vec<u8>) -> (r: Vec<u8>)
    ensures
        r@ == values@,
{
    let copy = values.clone();
    assert(copy@ =~= values@);
    copy
}

impl FrameTemplate {
    /// A copy of the template.
    fn copy(&self) -> (r: Self)
        ensures
            r@ == self@,
    {
        let frame_diffs = self.frame_diffs.clone();
        assert(frame_diffs@ =~= self.frame_diffs@);
        FrameTemplate {
            layer_ids: self.layer_ids,
            decode_target_indications: copy_bytes(&self.decode_target_indications),
            frame_diffs,
            chain_diffs: copy_bytes(&self.chain_diffs),
        }
    }
}

impl FrameDependencyStructure {
    /// A copy of the structure.
    pub(crate) fn copy(&self) -> (r: Self)
        ensures
            r@ == self@,
    {
        let decode_target_layers = self.decode_target_layers.clone();
        assert(decode_target_layers@ =~= self.decode_target_layers@);
        let mut templates: Vec<FrameTemplate> = Vec::with_capacity(self.templates.len());
        let mut index: usize = 0;
        while index < self.templates.len()
            invariant
                index <= self.templates@.len(),
                templates@.len() == index,
                forall|i: int|
                    0 <= i < index ==> (#[trigger] templates@[i])@ == self.templates@[i]@,
            decreases self.templates.len() - index,
        {
            templates.push(self.templates[index].copy());
            index += 1;
        }
        assert(template_views(templates@) =~= template_views(self.templates@));
        FrameDependencyStructure {
            structure_id: self.structure_id,
            num_decode_targets: self.num_decode_targets,
            num_chains: self.num_chains,
            decode_target_protected_by_chain: copy_bytes(&self.decode_target_protected_by_chain),
            decode_target_layers,
            templates,
        }
    }
}

/// Layer ids within the limits.
pub open spec fn layer_valid(layer: DependencyDescriptorLayerIds) -> bool {
    layer.temporal_id <= MAX_TEMPORAL_ID && layer.spatial_id <= MAX_SPATIAL_ID
}

impl TemplateView {
    /// The template fits a structure with so many decode targets and chains.
    pub open spec fn valid(self, num_decode_targets: nat, num_chains: nat) -> bool {
        &&& layer_valid(self.layer_ids)
        &&& self.decode_target_indications.len() == num_decode_targets
        &&& forall|i: int|
            0 <= i < self.decode_target_indications.len() ==> #[trigger]
            self.decode_target_indications[i] <= 3
        &&& forall|i: int|
            0 <= i < self.frame_diffs.len() ==> 1 <= #[trigger] self.frame_diffs[i] <= 16
        &&& self.chain_diffs.len() == num_chains
        &&& forall|i: int|
            0 <= i < self.chain_diffs.len() ==> #[trigger] self.chain_diffs[i] < 16
    }
}

impl StructureView {
    /// The structure is one that a descriptor can carry.
    pub open spec fn valid(self) -> bool {
        &&& self.structure_id < 64
        &&& 1 <= self.num_decode_targets <= 32
        &&& self.num_chains <= self.num_decode_targets
        &&& self.decode_target_protected_by_chain.len() == if self.num_chains > 0 {
            self.num_decode_targets as nat
        } else {
            0
        }
        &&& forall|i: int|
            0 <= i < self.decode_target_protected_by_chain.len() ==> #[trigger]
            self.decode_target_protected_by_chain[i] < self.num_chains
        &&& 1 <= self.templates.len() <= MAX_TEMPLATES
        &&& forall|i: int|
            0 <= i < self.templates.len() ==> (#[trigger] self.templates[i]).valid(
                self.num_decode_targets as nat,
                self.num_chains as nat,
            )
        &&& self.decode_target_layers == target_layers(
            self.templates,
            self.num_decode_targets as nat,
        )
    }
}

/// The layer of the template that follows one of layer `layer`, as two bits tell
/// it: the same layer, the next temporal layer, or the first temporal layer of the
/// next spatial layer.
pub open spec fn next_layer(layer: DependencyDescriptorLayerIds, code: u8) -> Option<
    DependencyDescriptorLayerIds,
> {
    if code == 0 {
        Some(layer)
    } else if code == 1 && layer.temporal_id < MAX_TEMPORAL_ID {
        Some(
            DependencyDescriptorLayerIds {
                temporal_id: (layer.temporal_id + 1) as u8,
                spatial_id: layer.spatial_id,
            },
        )
    } else if code == 2 && layer.spatial_id < MAX_SPATIAL_ID {
        Some(
            DependencyDescriptorLayerIds {
                temporal_id: 0,
                spatial_id: (layer.spatial_id + 1) as u8,
            },
        )
    } else {
        None
    }
}

/// The lowest layer.
pub open spec fn base_layer() -> DependencyDescriptorLayerIds {
    DependencyDescriptorLayerIds { temporal_id: 0, spatial_id: 0 }
}

/// The layers of the templates from one of layer `layer` on. The code 3 ends the
/// list.
pub open spec fn template_layers(
    bits: Seq<bool>,
    pos: int,
    layer: DependencyDescriptorLayerIds,
) -> Option<(Seq<DependencyDescriptorLayerIds>, int)>
    decreases bits.len() - pos,
{
    match fields::field_u8(bits, pos, 2) {
        Some((code, next)) => if code == 3 {
            Some((seq![layer], next))
        } else {
            match next_layer(layer, code) {
                Some(following) => fields::prepend(
                    seq![layer],
                    template_layers(bits, next, following),
                ),
                None => None,
            }
        },
        None => None,
    }
}

/// The chains of a structure: how many there are, which one protects each decode
/// target, and each template's frame differences to them.
#[verifier::ext_equal]
pub struct ChainsView {
    pub num_chains: nat,
    pub decode_target_protected_by_chain: Seq<u8>,
    pub chain_diffs: Seq<Seq<u8>>,
}

/// The chains of a structure with so many decode targets and templates.
pub open spec fn chains_at(
    bits: Seq<bool>,
    pos: int,
    num_decode_targets: nat,
    num_templates: nat,
) -> Option<(ChainsView, int)> {
    match fields::non_symmetric(bits, pos, num_decode_targets + 1) {
        Some((num_chains, next)) => if num_chains == 0 {
            Some(
                (
                    ChainsView {
                        num_chains: 0,
                        decode_target_protected_by_chain: Seq::empty(),
                        chain_diffs: Seq::new(num_templates, |i: int| Seq::empty()),
                    },
                    next,
                ),
            )
        } else {
            match fields::repeat(
                fields::non_symmetric_item(bits, num_chains),
                num_decode_targets,
                next,
            ) {
                Some((decode_target_protected_by_chain, after)) => match fields::repeat(
                    fields::fields_item(bits, num_chains, 4),
                    num_templates,
                    after,
                ) {
                    Some((chain_diffs, end)) => Some(
                        (
                            ChainsView { num_chains, decode_target_protected_by_chain, chain_diffs },
                            end,
                        ),
                    ),
                    None => None,
                },
                None => None,
            }
        },
        None => None,
    }
}

/// Where the resolutions end: a clear bit says that there are none; behind a set
/// bit stand two numbers of 16 bits for each spatial layer.
pub open spec fn resolutions_end(bits: Seq<bool>, pos: int, max_spatial_id: nat) -> Option<int> {
    match fields::flag(bits, pos) {
        Some((present, next)) => if !present {
            Some(next)
        } else if next + 32 * (max_spatial_id + 1) <= bits.len() {
            Some(next + 32 * (max_spatial_id + 1))
        } else {
            None
        },
        None => None,
    }
}

/// The higher of two layers, in each of the two ids by itself.
pub open spec fn higher_layer(
    a: DependencyDescriptorLayerIds,
    b: DependencyDescriptorLayerIds,
) -> DependencyDescriptorLayerIds {
    DependencyDescriptorLayerIds {
        temporal_id: if a.temporal_id >= b.temporal_id {
            a.temporal_id
        } else {
            b.temporal_id
        },
        spatial_id: if a.spatial_id >= b.spatial_id {
            a.spatial_id
        } else {
            b.spatial_id
        },
    }
}

/// The highest layer among the templates that are part of decode target `target`.
pub open spec fn target_layer(
    templates: Seq<TemplateView>,
    target: int,
) -> DependencyDescriptorLayerIds
    decreases templates.len(),
{
    if templates.len() == 0 {
        base_layer()
    } else {
        let lower = target_layer(templates.drop_last(), target);
        if templates.last().decode_target_indications[target] != DTI_NOT_PRESENT {
            higher_layer(lower, templates.last().layer_ids)
        } else {
            lower
        }
    }
}

/// The highest layer of each decode target.
pub open spec fn target_layers(templates: Seq<TemplateView>, num_decode_targets: nat) -> Seq<
    DependencyDescriptorLayerIds,
> {
    Seq::new(num_decode_targets, |target: int| target_layer(templates, target))
}

/// The highest spatial id in a list of layers.
pub open spec fn max_spatial_id(layers: Seq<DependencyDescriptorLayerIds>) -> nat
    decreases layers.len(),
{
    if layers.len() == 0 {
        0
    } else {
        let lower = max_spatial_id(layers.drop_last());
        if layers.last().spatial_id > lower {
            layers.last().spatial_id as nat
        } else {
            lower
        }
    }
}

/// The templates made of these parts.
pub open spec fn templates_of(
    layers: Seq<DependencyDescriptorLayerIds>,
    indications: Seq<Seq<u8>>,
    frame_diffs: Seq<Seq<u16>>,
    chain_diffs: Seq<Seq<u8>>,
) -> Seq<TemplateView> {
    Seq::new(
        layers.len(),
        |i: int|
            TemplateView {
                layer_ids: layers[i],
                decode_target_indications: indications[i],
                frame_diffs: frame_diffs[i],
                chain_diffs: chain_diffs[i],
            },
    )
}

/// The templates of a structure with so many decode targets, and its chains.
pub open spec fn templates_at(bits: Seq<bool>, pos: int, num_decode_targets: nat) -> Option<
    (Seq<TemplateView>, ChainsView, int),
> {
    match template_layers(bits, pos, base_layer()) {
        Some((layers, dti_pos)) => if layers.len() > MAX_TEMPLATES {
            None
        } else {
            match fields::repeat(
                fields::fields_item(bits, num_decode_targets, 2),
                layers.len(),
                dti_pos,
            ) {
                Some((indications, fdiff_pos)) => match fields::repeat(
                    fields::template_frame_diffs_item(bits),
                    layers.len(),
                    fdiff_pos,
                ) {
                    Some((frame_diffs, chain_pos)) => match chains_at(
                        bits,
                        chain_pos,
                        num_decode_targets,
                        layers.len(),
                    ) {
                        Some((chains, next)) => match resolutions_end(
                            bits,
                            next,
                            max_spatial_id(layers),
                        ) {
                            Some(end) => Some(
                                (
                                    templates_of(
                                        layers,
                                        indications,
                                        frame_diffs,
                                        chains.chain_diffs,
                                    ),
                                    chains,
                                    end,
                                ),
                            ),
                            None => None,
                        },
                        None => None,
                    },
                    None => None,
                },
                None => None,
            }
        },
        None => None,
    }
}

/// The structure that starts at `pos`: a six-bit id, the number of decode targets
/// less one in five bits, the templates with their chains, and the resolutions.
pub open spec fn structure_at(bits: Seq<bool>, pos: int) -> Option<(StructureView, int)> {
    match fields::field_u8(bits, pos, 6) {
        Some((structure_id, next)) => match fields::field_u8(bits, next, 5) {
            Some((last_target, after)) => match templates_at(bits, after, last_target as nat + 1) {
                Some((templates, chains, end)) => Some(
                    (
                        StructureView {
                            structure_id,
                            num_decode_targets: (last_target + 1) as u8,
                            num_chains: chains.num_chains as u8,
                            decode_target_protected_by_chain:
                                chains.decode_target_protected_by_chain,
                            decode_target_layers: target_layers(templates, last_target as nat + 1),
                            templates,
                        },
                        end,
                    ),
                ),
                None => None,
            },
            None => None,
        },
        None => None,
    }
}

/// Reads the layers of the templates.
fn read_template_layers(reader: &mut BitReader<'_>) -> (r: Option<
    Vec<DependencyDescriptorLayerIds>,
>)
    requires
        old(reader).wf(),
    ensures
        final(reader).wf(),
        final(reader).payload == old(reader).payload,
        match template_layers(old(reader).bits(), old(reader).pos(), base_layer()) {
            Some((layers, end)) => if layers.len() > MAX_TEMPLATES {
                r is None
            } else {
                r matches Some(v) && v@ == layers && final(reader).pos() == end
            },
            None => r is None,
        },
{
    let mut layers: Vec<DependencyDescriptorLayerIds> = Vec::new();
    let mut layer = DependencyDescriptorLayerIds { temporal_id: 0, spatial_id: 0 };
    let ghost whole = template_layers(reader.bits(), reader.pos(), base_layer());
    proof {
        fields::lemma_prepend_empty(whole);
    }
    loop
        invariant
            reader.wf(),
            reader.payload == old(reader).payload,
            layers@.len() < MAX_TEMPLATES,
            whole == fields::prepend(
                layers@,
                template_layers(reader.bits(), reader.pos(), layer),
            ),
            whole == template_layers(old(reader).bits(), old(reader).pos(), base_layer()),
        decreases reader.bits().len() - reader.pos(),
    {
        let ghost seen = layers@;
        let ghost pos = reader.pos();
        layers.push(layer);
        let code = match reader.read_bits_u8(2) {
            Some(code) => code,
            None => {
                return None;
            },
        };
        proof {
            lemma_template_layers_nonempty(reader.bits(), pos, layer);
            fields::lemma_field_u8_bound(reader.bits(), pos, 2);
            power2::lemma2_to64();
        }
        if code == 3 {
            assert(seen + seq![layer] =~= layers@);
            return Some(layers);
        }
        let ghost from = layer;
        if code == 1 {
            if layer.temporal_id >= MAX_TEMPORAL_ID {
                return None;
            }
            layer = DependencyDescriptorLayerIds {
                temporal_id: layer.temporal_id + 1,
                spatial_id: layer.spatial_id,
            };
        } else if code == 2 {
            if layer.spatial_id >= MAX_SPATIAL_ID {
                return None;
            }
            layer = DependencyDescriptorLayerIds {
                temporal_id: 0,
                spatial_id: layer.spatial_id + 1,
            };
        }
        proof {
            fields::lemma_prepend_step(
                seen,
                from,
                template_layers(reader.bits(), reader.pos(), layer),
            );
            lemma_template_layers_nonempty(reader.bits(), reader.pos(), layer);
        }
        if layers.len() >= MAX_TEMPLATES {
            return None;
        }
    }
}

/// Reads the decode target indications of the templates with these layers.
fn read_templates(
    reader: &mut BitReader<'_>,
    layers: &Vec<DependencyDescriptorLayerIds>,
    num_decode_targets: u8,
) -> (r: Option<Vec<FrameTemplate>>)
    requires
        old(reader).wf(),
    ensures
        final(reader).wf(),
        final(reader).payload == old(reader).payload,
        match fields::repeat(
            fields::fields_item(old(reader).bits(), num_decode_targets as nat, 2),
            layers@.len(),
            old(reader).pos(),
        ) {
            Some((indications, end)) => {
                &&& r matches Some(v)
                &&& template_views(v@) == templates_of(
                    layers@,
                    indications,
                    Seq::new(layers@.len(), |i: int| Seq::empty()),
                    Seq::new(layers@.len(), |i: int| Seq::empty()),
                )
                &&& indications.len() == layers@.len()
                &&& final(reader).pos() == end
            },
            None => r is None,
        },
{
    let mut templates: Vec<FrameTemplate> = Vec::with_capacity(layers.len());
    let ghost item = fields::fields_item(reader.bits(), num_decode_targets as nat, 2);
    let ghost whole = fields::repeat(item, layers@.len(), reader.pos());
    let ghost mut indications: Seq<Seq<u8>> = Seq::empty();
    proof {
        fields::lemma_prepend_empty(whole);
    }
    let mut index: usize = 0;
    while index < layers.len()
        invariant
            index <= layers@.len(),
            reader.wf(),
            reader.payload == old(reader).payload,
            item == fields::fields_item(reader.bits(), num_decode_targets as nat, 2),
            whole == fields::repeat(item, layers@.len(), old(reader).pos()),
            whole == fields::prepend(
                indications,
                fields::repeat(item, (layers@.len() - index) as nat, reader.pos()),
            ),
            templates@.len() == index,
            indications.len() == index,
            forall|i: int|
                0 <= i < index ==> (#[trigger] templates@[i])@ == (TemplateView {
                    layer_ids: layers@[i],
                    decode_target_indications: indications[i],
                    frame_diffs: Seq::empty(),
                    chain_diffs: Seq::empty(),
                }),
        decreases layers.len() - index,
    {
        let ghost seen = indications;
        match fields::read_fields(reader, num_decode_targets, 2) {
            Some(decode_target_indications) => {
                proof {
                    indications = seen.push(decode_target_indications@);
                    fields::lemma_prepend_step(
                        seen,
                        decode_target_indications@,
                        fields::repeat(item, (layers@.len() - index - 1) as nat, reader.pos()),
                    );
                }
                templates.push(
                    FrameTemplate {
                        layer_ids: layers[index],
                        decode_target_indications,
                        frame_diffs: Vec::new(),
                        chain_diffs: Vec::new(),
                    },
                );
            },
            None => {
                return None;
            },
        }
        index += 1;
    }
    proof {
        assert(indications + Seq::<Seq<u8>>::empty() =~= indications);
        assert(template_views(templates@) =~= templates_of(
            layers@,
            indications,
            Seq::new(layers@.len(), |i: int| Seq::empty()),
            Seq::new(layers@.len(), |i: int| Seq::empty()),
        ));
    }
    Some(templates)
}

/// The templates `templates` with other frame differences.
pub open spec fn with_frame_diffs(
    templates: Seq<TemplateView>,
    frame_diffs: Seq<Seq<u16>>,
) -> Seq<TemplateView> {
    Seq::new(
        templates.len(),
        |i: int| TemplateView { frame_diffs: frame_diffs[i], ..templates[i] },
    )
}

/// Reads the frame differences of each template.
fn read_frame_diffs(reader: &mut BitReader<'_>, templates: &mut Vec<FrameTemplate>) -> (r: Option<
    (),
>)
    requires
        old(reader).wf(),
    ensures
        final(reader).wf(),
        final(reader).payload == old(reader).payload,
        match fields::repeat(
            fields::template_frame_diffs_item(old(reader).bits()),
            old(templates)@.len(),
            old(reader).pos(),
        ) {
            Some((frame_diffs, end)) => {
                &&& r is Some
                &&& template_views(final(templates)@) == with_frame_diffs(
                    template_views(old(templates)@),
                    frame_diffs,
                )
                &&& frame_diffs.len() == old(templates)@.len()
                &&& final(reader).pos() == end
            },
            None => r is None,
        },
{
    let ghost before = templates@;
    let ghost item = fields::template_frame_diffs_item(reader.bits());
    let ghost whole = fields::repeat(item, templates@.len(), reader.pos());
    let ghost mut all: Seq<Seq<u16>> = Seq::empty();
    proof {
        fields::lemma_prepend_empty(whole);
    }
    let mut index: usize = 0;
    while index < templates.len()
        invariant
            index <= templates@.len(),
            templates@.len() == before.len(),
            before == old(templates)@,
            reader.wf(),
            reader.payload == old(reader).payload,
            item == fields::template_frame_diffs_item(reader.bits()),
            whole == fields::repeat(item, before.len(), old(reader).pos()),
            whole == fields::prepend(
                all,
                fields::repeat(item, (before.len() - index) as nat, reader.pos()),
            ),
            all.len() == index,
            forall|i: int|
                0 <= i < index ==> (#[trigger] templates@[i])@ == (TemplateView {
                    frame_diffs: all[i],
                    ..before[i]@
                }),
            forall|i: int| index <= i < before.len() ==> #[trigger] templates@[i] == before[i],
        decreases templates.len() - index,
    {
        let ghost seen = all;
        match fields::read_template_frame_diffs(reader) {
            Some(frame_diffs) => {
                proof {
                    all = seen.push(frame_diffs@);
                    fields::lemma_prepend_step(
                        seen,
                        frame_diffs@,
                        fields::repeat(item, (before.len() - index - 1) as nat, reader.pos()),
                    );
                }
                templates[index].frame_diffs = frame_diffs;
            },
            None => {
                return None;
            },
        }
        index += 1;
    }
    proof {
        assert(all + Seq::<Seq<u16>>::empty() =~= all);
        assert(template_views(templates@) =~= with_frame_diffs(template_views(before), all));
    }
    Some(())
}

/// The templates `templates` with other chain differences.
pub open spec fn with_chain_diffs(
    templates: Seq<TemplateView>,
    chain_diffs: Seq<Seq<u8>>,
) -> Seq<TemplateView> {
    Seq::new(
        templates.len(),
        |i: int| TemplateView { chain_diffs: chain_diffs[i], ..templates[i] },
    )
}

/// Reads the chain differences of each template.
fn read_chain_diffs(
    reader: &mut BitReader<'_>,
    templates: &mut Vec<FrameTemplate>,
    num_chains: u8,
) -> (r: Option<()>)
    requires
        old(reader).wf(),
    ensures
        final(reader).wf(),
        final(reader).payload == old(reader).payload,
        match fields::repeat(
            fields::fields_item(old(reader).bits(), num_chains as nat, 4),
            old(templates)@.len(),
            old(reader).pos(),
        ) {
            Some((chain_diffs, end)) => {
                &&& r is Some
                &&& template_views(final(templates)@) == with_chain_diffs(
                    template_views(old(templates)@),
                    chain_diffs,
                )
                &&& chain_diffs.len() == old(templates)@.len()
                &&& final(reader).pos() == end
            },
            None => r is None,
        },
{
    let ghost before = templates@;
    let ghost item = fields::fields_item(reader.bits(), num_chains as nat, 4);
    let ghost whole = fields::repeat(item, templates@.len(), reader.pos());
    let ghost mut all: Seq<Seq<u8>> = Seq::empty();
    proof {
        fields::lemma_prepend_empty(whole);
    }
    let mut index: usize = 0;
    while index < templates.len()
        invariant
            index <= templates@.len(),
            templates@.len() == before.len(),
            before == old(templates)@,
            reader.wf(),
            reader.payload == old(reader).payload,
            item == fields::fields_item(reader.bits(), num_chains as nat, 4),
            whole == fields::repeat(item, before.len(), old(reader).pos()),
            whole == fields::prepend(
                all,
                fields::repeat(item, (before.len() - index) as nat, reader.pos()),
            ),
            all.len() == index,
            forall|i: int|
                0 <= i < index ==> (#[trigger] templates@[i])@ == (TemplateView {
                    chain_diffs: all[i],
                    ..before[i]@
                }),
            forall|i: int| index <= i < before.len() ==> #[trigger] templates@[i] == before[i],
        decreases templates.len() - index,
    {
        let ghost seen = all;
        match fields::read_fields(reader, num_chains, 4) {
            Some(chain_diffs) => {
                proof {
                    all = seen.push(chain_diffs@);
                    fields::lemma_prepend_step(
                        seen,
                        chain_diffs@,
                        fields::repeat(item, (before.len() - index - 1) as nat, reader.pos()),
                    );
                }
                templates[index].chain_diffs = chain_diffs;
            },
            None => {
                return None;
            },
        }
        index += 1;
    }
    proof {
        assert(all + Seq::<Seq<u8>>::empty() =~= all);
        assert(template_views(templates@) =~= with_chain_diffs(template_views(before), all));
    }
    Some(())
}

/// Reads which chain protects each decode target.
fn read_protected_by_chain(
    reader: &mut BitReader<'_>,
    num_decode_targets: u8,
    num_chains: u8,
) -> (r: Option<Vec<u8>>)
    requires
        old(reader).wf(),
        num_chains > 0,
    ensures
        final(reader).wf(),
        final(reader).payload == old(reader).payload,
        match fields::repeat(
            fields::non_symmetric_item(old(reader).bits(), num_chains as nat),
            num_decode_targets as nat,
            old(reader).pos(),
        ) {
            Some((chains, end)) => (r matches Some(v) && v@ == chains && final(reader).pos()
                == end),
            None => r is None,
        },
{
    let mut chains: Vec<u8> = Vec::with_capacity(num_decode_targets as usize);
    let ghost item = fields::non_symmetric_item(reader.bits(), num_chains as nat);
    let ghost whole = fields::repeat(item, num_decode_targets as nat, reader.pos());
    proof {
        fields::lemma_prepend_empty(whole);
    }
    let mut index: u8 = 0;
    while index < num_decode_targets
        invariant
            index <= num_decode_targets,
            num_chains > 0,
            reader.wf(),
            reader.payload == old(reader).payload,
            item == fields::non_symmetric_item(reader.bits(), num_chains as nat),
            whole == fields::repeat(item, num_decode_targets as nat, old(reader).pos()),
            whole == fields::prepend(
                chains@,
                fields::repeat(item, (num_decode_targets - index) as nat, reader.pos()),
            ),
        decreases num_decode_targets - index,
    {
        let ghost seen = chains@;
        match fields::read_non_symmetric(reader, num_chains as u32) {
            Some(chain) => {
                chains.push(chain as u8);
                proof {
                    fields::lemma_prepend_step(
                        seen,
                        chain as u8,
                        fields::repeat(
                            item,
                            (num_decode_targets - index - 1) as nat,
                            reader.pos(),
                        ),
                    );
                }
            },
            None => {
                return None;
            },
        }
        index += 1;
    }
    assert(chains@ + Seq::<u8>::empty() =~= chains@);
    Some(chains)
}

/// The highest layer among the templates that are part of a decode target.
fn highest_target_layer(
    templates: &Vec<FrameTemplate>,
    target: usize,
) -> (r: DependencyDescriptorLayerIds)
    requires
        forall|i: int|
            0 <= i < templates@.len() ==> target < (
            #[trigger] templates@[i]).decode_target_indications@.len(),
    ensures
        r == target_layer(template_views(templates@), target as int),
{
    let mut layer = DependencyDescriptorLayerIds { temporal_id: 0, spatial_id: 0 };
    let ghost views = template_views(templates@);
    let mut index: usize = 0;
    while index < templates.len()
        invariant
            index <= templates@.len(),
            views == template_views(templates@),
            forall|i: int|
                0 <= i < templates@.len() ==> target < (
                #[trigger] templates@[i]).decode_target_indications@.len(),
            layer == target_layer(views.take(index as int), target as int),
        decreases templates.len() - index,
    {
        assert(views.take(index as int + 1).drop_last() =~= views.take(index as int));
        assert(views.take(index as int + 1).last() == templates@[index as int]@);
        if templates[index].decode_target_indications[target] != DTI_NOT_PRESENT {
            let other = templates[index].layer_ids;
            layer = DependencyDescriptorLayerIds {
                temporal_id: if layer.temporal_id >= other.temporal_id {
                    layer.temporal_id
                } else {
                    other.temporal_id
                },
                spatial_id: if layer.spatial_id >= other.spatial_id {
                    layer.spatial_id
                } else {
                    other.spatial_id
                },
            };
        }
        index += 1;
    }
    assert(views.take(index as int) =~= views);
    layer
}

/// The highest layer of each decode target.
fn highest_target_layers(templates: &Vec<FrameTemplate>, num_decode_targets: u8) -> (r: Vec<
    DependencyDescriptorLayerIds,
>)
    requires
        forall|i: int|
            0 <= i < templates@.len() ==> (
            #[trigger] templates@[i]).decode_target_indications@.len() == num_decode_targets,
    ensures
        r@ == target_layers(template_views(templates@), num_decode_targets as nat),
{
    let mut layers: Vec<DependencyDescriptorLayerIds> = Vec::with_capacity(
        num_decode_targets as usize,
    );
    let mut target: u8 = 0;
    while target < num_decode_targets
        invariant
            target <= num_decode_targets,
            forall|i: int|
                0 <= i < templates@.len() ==> (
                #[trigger] templates@[i]).decode_target_indications@.len() == num_decode_targets,
            layers@.len() == target,
            forall|i: int|
                0 <= i < target ==> #[trigger] layers@[i] == target_layer(
                    template_views(templates@),
                    i,
                ),
        decreases num_decode_targets - target,
    {
        layers.push(highest_target_layer(templates, target as usize));
        target += 1;
    }
    assert(layers@ =~= target_layers(template_views(templates@), num_decode_targets as nat));
    layers
}

/// The highest spatial id in a list of layers.
fn highest_spatial_id(layers: &Vec<DependencyDescriptorLayerIds>) -> (r: u8)
    ensures
        r == max_spatial_id(layers@),
{
    let mut highest: u8 = 0;
    let mut index: usize = 0;
    while index < layers.len()
        invariant
            index <= layers@.len(),
            highest == max_spatial_id(layers@.take(index as int)),
        decreases layers.len() - index,
    {
        assert(layers@.take(index as int + 1).drop_last() =~= layers@.take(index as int));
        if layers[index].spatial_id > highest {
            highest = layers[index].spatial_id;
        }
        index += 1;
    }
    assert(layers@.take(index as int) =~= layers@);
    highest
}

/// Passes over the resolutions, if there are any.
fn skip_resolutions(reader: &mut BitReader<'_>, highest_spatial_id: u8) -> (r: Option<()>)
    requires
        old(reader).wf(),
    ensures
        final(reader).wf(),
        final(reader).payload == old(reader).payload,
        match resolutions_end(old(reader).bits(), old(reader).pos(), highest_spatial_id as nat) {
            Some(end) => r is Some && final(reader).pos() == end,
            None => r is None,
        },
{
    let present = match reader.read_bool() {
        Some(present) => present,
        None => {
            return None;
        },
    };
    if present {
        reader.skip_bits(32 * (highest_spatial_id as usize + 1))
    } else {
        Some(())
    }
}

/// Reads the chains of a structure and adds each template's differences to them.
/// Templates start out without chain differences.
fn read_chains(
    reader: &mut BitReader<'_>,
    templates: &mut Vec<FrameTemplate>,
    num_decode_targets: u8,
) -> (r: Option<(u8, Vec<u8>)>)
    requires
        old(reader).wf(),
        num_decode_targets <= 32,
        forall|i: int|
            0 <= i < old(templates)@.len() ==> (#[trigger] old(templates)@[i]).chain_diffs@
                == Seq::<u8>::empty(),
    ensures
        final(reader).wf(),
        final(reader).payload == old(reader).payload,
        match chains_at(
            old(reader).bits(),
            old(reader).pos(),
            num_decode_targets as nat,
            old(templates)@.len(),
        ) {
            Some((chains, end)) => {
                &&& r matches Some((num_chains, protected))
                &&& num_chains == chains.num_chains
                &&& protected@ == chains.decode_target_protected_by_chain
                &&& template_views(final(templates)@) == with_chain_diffs(
                    template_views(old(templates)@),
                    chains.chain_diffs,
                )
                &&& chains.chain_diffs.len() == old(templates)@.len()
                &&& final(reader).pos() == end
            },
            None => r is None,
        },
{
    let num_chains = match fields::read_non_symmetric(reader, num_decode_targets as u32 + 1) {
        Some(num_chains) => num_chains as u8,
        None => {
            return None;
        },
    };
    if num_chains == 0 {
        proof {
            let none = Seq::new(templates@.len(), |i: int| Seq::<u8>::empty());
            let views = template_views(templates@);
            assert forall|i: int| 0 <= i < views.len() implies views[i] == with_chain_diffs(
                views,
                none,
            )[i] by {
                assert(templates@[i].chain_diffs@ == Seq::<u8>::empty());
            }
            assert(views =~= with_chain_diffs(views, none));
        }
        return Some((0, Vec::new()));
    }
    let protected = match read_protected_by_chain(reader, num_decode_targets, num_chains) {
        Some(protected) => protected,
        None => {
            return None;
        },
    };
    if read_chain_diffs(reader, templates, num_chains).is_none() {
        return None;
    }
    Some((num_chains, protected))
}

/// Reads the templates of a structure, its chains and its resolutions.
fn read_templates_and_chains(reader: &mut BitReader<'_>, num_decode_targets: u8) -> (r: Option<
    (Vec<FrameTemplate>, u8, Vec<u8>),
>)
    requires
        old(reader).wf(),
        num_decode_targets <= 32,
    ensures
        final(reader).wf(),
        final(reader).payload == old(reader).payload,
        match templates_at(old(reader).bits(), old(reader).pos(), num_decode_targets as nat) {
            Some((templates, chains, end)) => {
                &&& r matches Some((v, num_chains, protected))
                &&& template_views(v@) == templates
                &&& num_chains == chains.num_chains
                &&& protected@ == chains.decode_target_protected_by_chain
                &&& final(reader).pos() == end
            },
            None => r is None,
        },
{
    let ghost bits = reader.bits();
    let layers = match read_template_layers(reader) {
        Some(layers) => layers,
        None => {
            return None;
        },
    };
    let mut templates = match read_templates(reader, &layers, num_decode_targets) {
        Some(templates) => templates,
        None => {
            return None;
        },
    };
    let ghost with_indications = template_views(templates@);
    assert(with_indications.len() == layers@.len());
    if read_frame_diffs(reader, &mut templates).is_none() {
        return None;
    }
    let ghost with_diffs = template_views(templates@);
    assert(with_diffs.len() == layers@.len());
    proof {
        assert forall|i: int| 0 <= i < templates@.len() implies (
        #[trigger] templates@[i]).chain_diffs@ == Seq::<u8>::empty() by {
            assert(with_diffs[i].chain_diffs == with_indications[i].chain_diffs);
        }
    }
    let (num_chains, protected) = match read_chains(reader, &mut templates, num_decode_targets) {
        Some(chains) => chains,
        None => {
            return None;
        },
    };
    if skip_resolutions(reader, highest_spatial_id(&layers)).is_none() {
        return None;
    }
    proof {
        let (expected, chains, end) = templates_at(
            bits,
            old(reader).pos(),
            num_decode_targets as nat,
        )->0;
        assert(template_views(templates@) =~= expected);
    }
    Some((templates, num_chains, protected))
}

/// Reads a frame dependency structure.
pub(crate) fn parse_structure(reader: &mut BitReader<'_>) -> (r: Option<FrameDependencyStructure>)
    requires
        old(reader).wf(),
    ensures
        final(reader).wf(),
        final(reader).payload == old(reader).payload,
        match structure_at(old(reader).bits(), old(reader).pos()) {
            Some((structure, end)) => (r matches Some(v) && v@ == structure && final(reader).pos()
                == end),
            None => r is None,
        },
{
    let structure_id = match reader.read_bits_u8(6) {
        Some(structure_id) => structure_id,
        None => {
            return None;
        },
    };
    let ghost targets_pos = reader.pos();
    let last_target = match reader.read_bits_u8(5) {
        Some(last_target) => last_target,
        None => {
            return None;
        },
    };
    proof {
        power2::lemma2_to64();
        fields::lemma_field_u8_bound(reader.bits(), targets_pos, 5);
        lemma_templates_valid(reader.bits(), reader.pos(), (last_target + 1) as nat);
    }
    let num_decode_targets: u8 = last_target + 1;
    let (templates, num_chains, decode_target_protected_by_chain) = match read_templates_and_chains(
        reader,
        num_decode_targets,
    ) {
        Some(parts) => parts,
        None => {
            return None;
        },
    };
    proof {
        let views = template_views(templates@);
        assert forall|i: int| 0 <= i < templates@.len() implies (
        #[trigger] templates@[i]).decode_target_indications@.len() == num_decode_targets by {
            assert(views[i].valid(num_decode_targets as nat, num_chains as nat));
        }
    }
    let decode_target_layers = highest_target_layers(&templates, num_decode_targets);
    Some(
        FrameDependencyStructure {
            structure_id,
            num_decode_targets,
            num_chains,
            decode_target_protected_by_chain,
            decode_target_layers,
            templates,
        },
    )
}

/// What is known of the templates and chains of a structure.
proof fn lemma_templates_valid(bits: Seq<bool>, pos: int, num_decode_targets: nat)
    requires
        num_decode_targets <= 32,
    ensures
        templates_at(bits, pos, num_decode_targets) matches Some((templates, chains, end)) ==> {
            &&& 1 <= templates.len() <= MAX_TEMPLATES
            &&& forall|i: int|
                0 <= i < templates.len() ==> (#[trigger] templates[i]).valid(
                    num_decode_targets,
                    chains.num_chains,
                )
            &&& chains.num_chains <= num_decode_targets
            &&& chains.decode_target_protected_by_chain.len() == if chains.num_chains > 0 {
                num_decode_targets
            } else {
                0
            }
            &&& forall|i: int|
                0 <= i < chains.decode_target_protected_by_chain.len() ==> #[trigger]
                chains.decode_target_protected_by_chain[i] < chains.num_chains
        },
{
    if let Some((templates, chains, end)) = templates_at(bits, pos, num_decode_targets) {
        let (layers, dti_pos) = template_layers(bits, pos, base_layer())->0;
        lemma_template_layers_valid(bits, pos, base_layer());
        let (indications, fdiff_pos) = fields::repeat(
            fields::fields_item(bits, num_decode_targets, 2),
            layers.len(),
            dti_pos,
        )->0;
        power2::lemma2_to64();
        fields::lemma_repeat_fields_len(bits, num_decode_targets, 2, layers.len(), dti_pos);
        let (frame_diffs, chain_pos) = fields::repeat(
            fields::template_frame_diffs_item(bits),
            layers.len(),
            fdiff_pos,
        )->0;
        let diffs_good = |diffs: Seq<u16>|
            forall|j: int| 0 <= j < diffs.len() ==> 1 <= #[trigger] diffs[j] <= 16;
        let diffs_item = fields::template_frame_diffs_item(bits);
        assert forall|p: int|
            (#[trigger] diffs_item(p)) matches Some((value, end)) ==> diffs_good(value) by {
            fields::lemma_template_frame_diffs_bound(bits, p);
        }
        fields::lemma_repeat_all(diffs_item, layers.len(), fdiff_pos, diffs_good);
        let (num_chains, next) = fields::non_symmetric(bits, chain_pos, num_decode_targets + 1)->0;
        fields::lemma_non_symmetric_bound(bits, chain_pos, num_decode_targets + 1);
        let protect_item = fields::non_symmetric_item(bits, num_chains);
        if num_chains > 0 {
            let protect_good = |chain: u8| chain < num_chains;
            assert forall|p: int|
                (#[trigger] protect_item(p)) matches Some((value, end)) ==> protect_good(value) by {
                fields::lemma_non_symmetric_bound(bits, p, num_chains);
            }
            fields::lemma_repeat_all(protect_item, num_decode_targets, next, protect_good);
            let protected = chains.decode_target_protected_by_chain;
            assert forall|i: int| 0 <= i < protected.len() implies #[trigger] protected[i]
                < num_chains by {
                assert(protect_good(protected[i]));
            }
            let after = (fields::repeat(protect_item, num_decode_targets, next)->0).1;
            fields::lemma_repeat_fields_len(bits, num_chains, 4, layers.len(), after);
        }
        assert forall|i: int| 0 <= i < templates.len() implies (#[trigger] templates[i]).valid(
            num_decode_targets,
            chains.num_chains,
        ) by {
            assert(layer_valid(layers[i]));
            assert(indications[i].len() == num_decode_targets);
            assert(diffs_good(frame_diffs[i]));
            assert(templates[i].frame_diffs == frame_diffs[i]);
            assert(chains.chain_diffs[i].len() == num_chains);
        }
    }
}

/// A structure that a descriptor carries is valid: it has between 1 and 32 decode
/// targets and between 1 and 64 templates, its layer ids are within the limits, it
/// has no more chains than decode targets, and its lists have one entry per decode
/// target or per chain.
pub proof fn lemma_structure_valid(bits: Seq<bool>, pos: int)
    ensures
        structure_at(bits, pos) matches Some((structure, end)) ==> structure.valid(),
{
    if let Some((structure, end)) = structure_at(bits, pos) {
        power2::lemma2_to64();
        fields::lemma_field_u8_bound(bits, pos, 6);
        let next = (fields::field_u8(bits, pos, 6)->0).1;
        fields::lemma_field_u8_bound(bits, next, 5);
        let (last_target, after) = fields::field_u8(bits, next, 5)->0;
        lemma_templates_valid(bits, after, last_target as nat + 1);
    }
}

/// Templates have layers within the limits, and there is at least one template.
proof fn lemma_template_layers_valid(
    bits: Seq<bool>,
    pos: int,
    layer: DependencyDescriptorLayerIds,
)
    requires
        layer_valid(layer),
    ensures
        template_layers(bits, pos, layer) matches Some((layers, end)) ==> layers.len() > 0
            && forall|i: int| 0 <= i < layers.len() ==> layer_valid(#[trigger] layers[i]),
    decreases bits.len() - pos,
{
    if let Some((layers, end)) = template_layers(bits, pos, layer) {
        let (code, next) = fields::field_u8(bits, pos, 2)->0;
        if code != 3 {
            let following = next_layer(layer, code)->0;
            lemma_template_layers_valid(bits, next, following);
            let rest = (template_layers(bits, next, following)->0).0;
            assert forall|i: int| 0 <= i < layers.len() implies layer_valid(
                #[trigger] layers[i],
            ) by {
                if i > 0 {
                    assert(layers[i] == rest[i - 1]);
                }
            }
        }
    }
}

/// There is at least one template.
proof fn lemma_template_layers_nonempty(
    bits: Seq<bool>,
    pos: int,
    layer: DependencyDescriptorLayerIds,
)
    ensures
        template_layers(bits, pos, layer) matches Some((layers, end)) ==> layers.len() > 0,
{
}

} // verus!
