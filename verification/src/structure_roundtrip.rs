//! A structure that was written is read again, and one that is read was written so.
use crate::encoding;
use crate::fields;
use crate::laws;
use crate::locality;
use crate::metadata::DependencyDescriptorLayerIds;
use crate::roundtrip;
use crate::structure;
use crate::structure::{ChainsView, StructureView, TemplateView};
use vstd::arithmetic::power2;
use vstd::prelude::*;

verus! {

/// There is only one highest layer of a decode target.
pub proof fn lemma_highest_layer_unique(
    templates: Seq<TemplateView>,
    target: int,
    a: DependencyDescriptorLayerIds,
    b: DependencyDescriptorLayerIds,
)
    requires
        encoding::is_highest_layer(templates, target, a),
        encoding::is_highest_layer(templates, target, b),
    ensures
        a == b,
{
}

/// The layer that is found for a decode target is the highest.
pub proof fn lemma_target_layer(templates: Seq<TemplateView>, target: int)
    ensures
        encoding::is_highest_layer(templates, target, structure::target_layer(templates, target)),
{
    laws::law_target_layer_is_highest(templates, target);
    let layer = structure::target_layer(templates, target);
    if layer.temporal_id != 0 {
        let i = choose|i: int|
            0 <= i < templates.len() && (#[trigger] templates[i]).decode_target_indications[target]
                != 0 && templates[i].layer_ids.temporal_id == layer.temporal_id;
        assert(encoding::is_part(templates, i, target));
    }
    if layer.spatial_id != 0 {
        let i = choose|i: int|
            0 <= i < templates.len() && (#[trigger] templates[i]).decode_target_indications[target]
                != 0 && templates[i].layer_ids.spatial_id == layer.spatial_id;
        assert(encoding::is_part(templates, i, target));
    }
}

/// The parts of a structure's text, one behind the other.
#[verifier::opaque]
spec fn parts_hold(
    bits: Seq<bool>,
    pos: int,
    structure: StructureView,
    resolutions: Option<Seq<bool>>,
) -> bool {
    let templates = structure.templates;
    let layers = encoding::layer_codes(encoding::layers_of(templates));
    let indications = encoding::joined(
        encoding::indications_of(templates),
        encoding::numbers_text(2),
    );
    let frame_diffs = encoding::joined(
        encoding::frame_diffs_of(templates),
        encoding::template_diffs_text(),
    );
    let chains = encoding::chains(
        structure.num_decode_targets as nat,
        structure.num_chains as nat,
        structure.decode_target_protected_by_chain,
        encoding::chain_diffs_of(templates),
    );
    let p2 = pos + 11 + layers.len();
    let p3 = p2 + indications.len();
    let p4 = p3 + frame_diffs.len();
    let p5 = p4 + chains.len();
    &&& roundtrip::holds_at(bits, pos, encoding::number(structure.structure_id as nat, 6))
    &&& roundtrip::holds_at(
        bits,
        pos + 6,
        encoding::number((structure.num_decode_targets - 1) as nat, 5),
    )
    &&& roundtrip::holds_at(bits, pos + 11, layers)
    &&& roundtrip::holds_at(bits, p2, indications)
    &&& roundtrip::holds_at(bits, p3, frame_diffs)
    &&& roundtrip::holds_at(bits, p4, chains)
    &&& roundtrip::holds_at(bits, p5, encoding::resolutions_text(resolutions))
    &&& encoding::structure_text(structure, resolutions).len() == p5
        + encoding::resolutions_text(resolutions).len() - pos
}

/// A structure's text stands where its parts stand one behind the other.
proof fn lemma_parts(
    bits: Seq<bool>,
    pos: int,
    structure: StructureView,
    resolutions: Option<Seq<bool>>,
)
    ensures
        roundtrip::holds_at(bits, pos, encoding::structure_text(structure, resolutions))
            <==> parts_hold(bits, pos, structure, resolutions),
{
    reveal(parts_hold);
    let templates = structure.templates;
    let id = encoding::number(structure.structure_id as nat, 6);
    let targets = encoding::number((structure.num_decode_targets - 1) as nat, 5);
    let layers = encoding::layer_codes(encoding::layers_of(templates));
    let indications = encoding::joined(
        encoding::indications_of(templates),
        encoding::numbers_text(2),
    );
    let frame_diffs = encoding::joined(
        encoding::frame_diffs_of(templates),
        encoding::template_diffs_text(),
    );
    let chains = encoding::chains(
        structure.num_decode_targets as nat,
        structure.num_chains as nat,
        structure.decode_target_protected_by_chain,
        encoding::chain_diffs_of(templates),
    );
    let sizes = encoding::resolutions_text(resolutions);
    let t2 = id + targets;
    let t3 = t2 + layers;
    let t4 = t3 + indications;
    let t5 = t4 + frame_diffs;
    let t6 = t5 + chains;
    roundtrip::lemma_holds_both(bits, pos, id, targets);
    roundtrip::lemma_holds_both(bits, pos, t2, layers);
    roundtrip::lemma_holds_both(bits, pos, t3, indications);
    roundtrip::lemma_holds_both(bits, pos, t4, frame_diffs);
    roundtrip::lemma_holds_both(bits, pos, t5, chains);
    roundtrip::lemma_holds_both(bits, pos, t6, sizes);
}

/// The chains of a structure.
spec fn chains_of(structure: StructureView) -> ChainsView {
    ChainsView {
        num_chains: structure.num_chains as nat,
        decode_target_protected_by_chain: structure.decode_target_protected_by_chain,
        chain_diffs: encoding::chain_diffs_of(structure.templates),
    }
}

/// The templates of a structure are read if each of their parts is.
proof fn lemma_templates_assembled(
    bits: Seq<bool>,
    p1: int,
    structure: StructureView,
    p2: int,
    p3: int,
    p4: int,
    p5: int,
    end: int,
)
    requires
        structure.templates.len() <= 64,
        ({
            let targets = structure.num_decode_targets as nat;
            let templates = structure.templates;
            let layers = encoding::layers_of(templates);
            &&& structure::template_layers(bits, p1, structure::base_layer()) == Some((layers, p2))
            &&& fields::repeat(fields::fields_item(bits, targets, 2), layers.len(), p2) == Some(
                (encoding::indications_of(templates), p3),
            )
            &&& fields::repeat(
                fields::template_frame_diffs_item(bits),
                layers.len(),
                p3,
            ) == Some((encoding::frame_diffs_of(templates), p4))
            &&& structure::chains_at(bits, p4, targets, layers.len()) == Some(
                (chains_of(structure), p5),
            )
            &&& structure::resolutions_end(bits, p5, structure::max_spatial_id(layers)) == Some(end)
        }),
    ensures
        structure::templates_at(bits, p1, structure.num_decode_targets as nat) == Some(
            (structure.templates, chains_of(structure), end),
        ),
{
    let templates = structure.templates;
    assert(structure::templates_of(
        encoding::layers_of(templates),
        encoding::indications_of(templates),
        encoding::frame_diffs_of(templates),
        encoding::chain_diffs_of(templates),
    ) =~= templates);
}

/// The templates of a structure that was written are read.
proof fn lemma_templates_read(
    bits: Seq<bool>,
    pos: int,
    structure: StructureView,
    resolutions: Option<Seq<bool>>,
)
    requires
        encoding::well_formed(structure),
        encoding::resolutions_fit(structure.templates, resolutions),
        parts_hold(bits, pos, structure, resolutions),
    ensures
        structure::templates_at(bits, pos + 11, structure.num_decode_targets as nat) == Some(
            (
                structure.templates,
                chains_of(structure),
                pos + encoding::structure_text(structure, resolutions).len(),
            ),
        ),
{
    reveal(parts_hold);
    let templates = structure.templates;
    let targets = structure.num_decode_targets as nat;
    let layers = encoding::layers_of(templates);
    let indications = encoding::indications_of(templates);
    let frame_diffs = encoding::frame_diffs_of(templates);
    let chain_diffs = encoding::chain_diffs_of(templates);
    let p1 = pos + 11;
    let p2 = p1 + encoding::layer_codes(layers).len();
    let p3 = p2 + encoding::joined(indications, encoding::numbers_text(2)).len();
    let p4 = p3 + encoding::joined(frame_diffs, encoding::template_diffs_text()).len();
    let p5 = p4 + encoding::chains(
        targets,
        structure.num_chains as nat,
        structure.decode_target_protected_by_chain,
        chain_diffs,
    ).len();
    power2::lemma2_to64();
    assert(structure::template_layers(bits, p1, structure::base_layer()) == Some((layers, p2))) by {
        assert forall|i: int|
            #![trigger layers[i]]
            0 < i < layers.len() implies encoding::step_allowed(layers[i - 1], layers[i]) by {
            assert(encoding::step_allowed(templates[i - 1].layer_ids, templates[i].layer_ids));
        }
        assert forall|i: int|
            #![trigger layers[i]]
            0 <= i < layers.len() implies layers[i].temporal_id <= 7 && layers[i].spatial_id
            <= 3 by {
            assert(layers[i] == templates[i].layer_ids);
        }
        assert(roundtrip::layers_allowed(layers));
        assert(layers[0] == structure::base_layer());
        roundtrip::lemma_layers_read(bits, p1, layers);
    }
    assert(fields::repeat(fields::fields_item(bits, targets, 2), layers.len(), p2) == Some(
        (indications, p3),
    )) by {
        assert forall|i: int| 0 <= i < indications.len() implies (#[trigger] indications[i]).len()
            == targets && forall|j: int|
            0 <= j < targets ==> #[trigger] indications[i][j] < power2::pow2(2) by {
            assert(indications[i] == templates[i].decode_target_indications);
        }
        roundtrip::lemma_lists_read(bits, p2, indications, targets, 2);
    }
    assert(fields::repeat(fields::template_frame_diffs_item(bits), layers.len(), p3) == Some(
        (frame_diffs, p4),
    )) by {
        assert forall|i: int| 0 <= i < frame_diffs.len() implies forall|j: int|
            0 <= j < (#[trigger] frame_diffs[i]).len() ==> 1 <= #[trigger] frame_diffs[i][j]
                <= 16 by {
            assert(frame_diffs[i] == templates[i].frame_diffs);
        }
        roundtrip::lemma_diff_lists_read(bits, p3, frame_diffs);
    }
    assert(structure::chains_at(bits, p4, targets, layers.len()) == Some(
        (chains_of(structure), p5),
    )) by {
        assert forall|i: int| 0 <= i < chain_diffs.len() implies (#[trigger] chain_diffs[i]).len()
            == structure.num_chains && forall|j: int|
            0 <= j < structure.num_chains ==> #[trigger] chain_diffs[i][j] <= 15 by {
            assert(chain_diffs[i] == templates[i].chain_diffs);
        }
        roundtrip::lemma_chains_read(
            bits,
            p4,
            targets,
            structure.num_chains as nat,
            structure.decode_target_protected_by_chain,
            chain_diffs,
        );
    }
    roundtrip::lemma_resolutions_read(bits, p5, templates, resolutions);
    lemma_templates_assembled(
        bits,
        p1,
        structure,
        p2,
        p3,
        p4,
        p5,
        pos + encoding::structure_text(structure, resolutions).len(),
    );
}

/// A structure that was written is read.
pub proof fn lemma_structure_read(
    bits: Seq<bool>,
    pos: int,
    structure: StructureView,
    resolutions: Option<Seq<bool>>,
)
    requires
        encoding::well_formed(structure),
        encoding::resolutions_fit(structure.templates, resolutions),
        roundtrip::holds_at(bits, pos, encoding::structure_text(structure, resolutions)),
    ensures
        structure::structure_at(bits, pos) == Some(
            (structure, pos + encoding::structure_text(structure, resolutions).len()),
        ),
{
    lemma_parts(bits, pos, structure, resolutions);
    lemma_templates_read(bits, pos, structure, resolutions);
    assert(fields::field_u8(bits, pos, 6) == Some((structure.structure_id, pos + 6))
        && fields::field_u8(bits, pos + 6, 5) == Some(
        ((structure.num_decode_targets - 1) as u8, pos + 11),
    )) by {
        reveal(parts_hold);
        power2::lemma2_to64();
        roundtrip::lemma_number_read(bits, pos, structure.structure_id as nat, 6);
        roundtrip::lemma_number_read(
            bits,
            pos + 6,
            (structure.num_decode_targets - 1) as nat,
            5,
        );
    }
    lemma_found_layers(structure);
    lemma_structure_assembled(
        bits,
        pos,
        structure,
        pos + encoding::structure_text(structure, resolutions).len(),
    );
}

/// The layers that are found for decode targets are those that a structure has.
proof fn lemma_found_layers(structure: StructureView)
    requires
        encoding::well_formed(structure),
    ensures
        structure::target_layers(structure.templates, structure.num_decode_targets as nat)
            == structure.decode_target_layers,
{
    let targets = structure.num_decode_targets as nat;
    let found = structure::target_layers(structure.templates, targets);
    assert forall|target: int| 0 <= target < targets implies found[target]
        == structure.decode_target_layers[target] by {
        lemma_target_layer(structure.templates, target);
        lemma_highest_layer_unique(
            structure.templates,
            target,
            found[target],
            structure.decode_target_layers[target],
        );
    }
    assert(found =~= structure.decode_target_layers);
}

/// A structure is read if each of its parts is.
proof fn lemma_structure_assembled(bits: Seq<bool>, pos: int, structure: StructureView, end: int)
    requires
        1 <= structure.num_decode_targets <= 32,
        fields::field_u8(bits, pos, 6) == Some((structure.structure_id, pos + 6)),
        fields::field_u8(bits, pos + 6, 5) == Some(
            ((structure.num_decode_targets - 1) as u8, pos + 11),
        ),
        structure::templates_at(bits, pos + 11, structure.num_decode_targets as nat) == Some(
            (structure.templates, chains_of(structure), end),
        ),
        structure::target_layers(structure.templates, structure.num_decode_targets as nat)
            == structure.decode_target_layers,
    ensures
        structure::structure_at(bits, pos) == Some((structure, end)),
{
}

/// A structure that is read is one that can be written.
pub proof fn lemma_structure_well_formed(bits: Seq<bool>, pos: int)
    ensures
        structure::structure_at(bits, pos) matches Some((structure, end)) ==> encoding::well_formed(
            structure,
        ),
{
    structure::lemma_structure_valid(bits, pos);
    if let Some((structure, end)) = structure::structure_at(bits, pos) {
        let templates = structure.templates;
        let next = (fields::field_u8(bits, pos, 6)->0).1;
        let after = (fields::field_u8(bits, next, 5)->0).1;
        let layers = (structure::template_layers(bits, after, structure::base_layer())->0).0;
        roundtrip::lemma_layers_written(bits, after, structure::base_layer());
        assert forall|i: int|
            #![trigger templates[i]]
            0 <= i < templates.len() implies templates[i].layer_ids == layers[i] by {}
        assert forall|i: int|
            #![trigger templates[i]]
            0 < i < templates.len() implies encoding::step_allowed(
            templates[i - 1].layer_ids,
            templates[i].layer_ids,
        ) by {
            assert(templates[i].layer_ids == layers[i]);
            assert(templates[i - 1].layer_ids == layers[i - 1]);
        }
        assert forall|i: int|
            #![trigger templates[i]]
            0 <= i < templates.len() implies encoding::template_well_formed(
            templates[i],
            structure.num_decode_targets as nat,
            structure.num_chains as nat,
        ) by {
            assert(templates[i].valid(
                structure.num_decode_targets as nat,
                structure.num_chains as nat,
            ));
        }
        assert forall|target: int|
            0 <= target < structure.num_decode_targets implies encoding::is_highest_layer(
            templates,
            target,
            #[trigger] structure.decode_target_layers[target],
        ) by {
            lemma_target_layer(templates, target);
        }
    }
}

/// The templates of a structure that is read were written so.
proof fn lemma_templates_written(bits: Seq<bool>, pos: int) -> (resolutions: Option<Seq<bool>>)
    ensures
        structure::structure_at(bits, pos) matches Some((structure, end)) ==> {
            &&& encoding::resolutions_fit(structure.templates, resolutions)
            &&& parts_hold(bits, pos, structure, resolutions)
            &&& end == pos + encoding::structure_text(structure, resolutions).len()
        },
{
    structure::lemma_structure_valid(bits, pos);
    locality::lemma_structure_end(bits, pos);
    if let Some((structure, end)) = structure::structure_at(bits, pos) {
        let templates = structure.templates;
        let targets = structure.num_decode_targets as nat;
        let p1 = pos + 11;
        let (layers, p2) = structure::template_layers(bits, p1, structure::base_layer())->0;
        let (indications, p3) = fields::repeat(
            fields::fields_item(bits, targets, 2),
            layers.len(),
            p2,
        )->0;
        let (frame_diffs, p4) = fields::repeat(
            fields::template_frame_diffs_item(bits),
            layers.len(),
            p3,
        )->0;
        let (chains, p5) = structure::chains_at(bits, p4, targets, layers.len())->0;
        power2::lemma2_to64();
        roundtrip::lemma_number_written(bits, pos, 6);
        roundtrip::lemma_number_written(bits, pos + 6, 5);
        roundtrip::lemma_byte_width(bits, pos, 6);
        roundtrip::lemma_byte_width(bits, pos + 6, 5);
        roundtrip::lemma_layers_written(bits, p1, structure::base_layer());
        roundtrip::lemma_holds(bits, p1, encoding::layer_codes(layers));
        roundtrip::lemma_lists_written(bits, p2, layers.len(), targets, 2);
        roundtrip::lemma_diff_lists_written(bits, p3, layers.len());
        roundtrip::lemma_chains_written(bits, p4, targets, layers.len());
        assert(encoding::layers_of(templates) =~= layers);
        assert(encoding::indications_of(templates) =~= indications);
        assert(encoding::frame_diffs_of(templates) =~= frame_diffs);
        assert(encoding::chain_diffs_of(templates) =~= chains.chain_diffs);
        let resolutions = roundtrip::lemma_resolutions_written(bits, p5, templates);
        reveal(parts_hold);
        resolutions
    } else {
        None
    }
}

/// A structure that is read was written so, with some resolutions or none.
pub proof fn lemma_structure_written(bits: Seq<bool>, pos: int) -> (resolutions: Option<Seq<bool>>)
    ensures
        structure::structure_at(bits, pos) matches Some((structure, end)) ==> {
            &&& encoding::well_formed(structure)
            &&& encoding::resolutions_fit(structure.templates, resolutions)
            &&& roundtrip::holds_at(bits, pos, encoding::structure_text(structure, resolutions))
            &&& end == pos + encoding::structure_text(structure, resolutions).len()
        },
{
    lemma_structure_well_formed(bits, pos);
    let resolutions = lemma_templates_written(bits, pos);
    if let Some((structure, end)) = structure::structure_at(bits, pos) {
        lemma_parts(bits, pos, structure, resolutions);
    }
    resolutions
}

/// A text behind which something else is put.
proof fn lemma_other_tail(bits: Seq<bool>, pos: int, head: Seq<bool>, tail: Seq<bool>, other: Seq<bool>)
    requires
        roundtrip::holds_at(bits, pos, head + tail),
    ensures
        0 <= pos,
        pos + head.len() + tail.len() <= bits.len(),
        tail.len() > 0 ==> bits[pos + head.len()] == tail[0],
        roundtrip::holds_at(bits.take(pos + head.len()) + other, pos, head + other),
{
    let end = pos + head.len();
    roundtrip::lemma_holds_both(bits, pos, head, tail);
    roundtrip::lemma_holds(bits, pos, head);
    roundtrip::lemma_holds(bits, end, tail);
    if tail.len() > 0 {
        assert(bits.subrange(end, end + tail.len())[0] == bits[end]);
    }
    let all = bits.take(end) + other;
    assert(all.subrange(pos, end + other.len()) =~= bits.subrange(pos, end) + other);
    roundtrip::lemma_holds(all, pos, head + other);
}

/// A structure is the same with its resolutions left out.
pub proof fn lemma_without_resolutions(
    bits: Seq<bool>,
    pos: int,
    structure: StructureView,
    resolutions: Option<Seq<bool>>,
)
    requires
        encoding::well_formed(structure),
        roundtrip::holds_at(bits, pos, encoding::structure_text(structure, resolutions)),
    ensures
        ({
            let flag = pos + encoding::structure_head(structure).len();
            &&& 0 <= pos
            &&& flag < bits.len()
            &&& bits[flag] == resolutions is Some
            &&& structure::structure_at(bits.take(flag) + seq![false], pos) == Some(
                (structure, flag + 1),
            )
        }),
{
    let head = encoding::structure_head(structure);
    let flag = pos + head.len();
    lemma_other_tail(bits, pos, head, encoding::resolutions_text(resolutions), seq![false]);
    assert(encoding::structure_text(structure, None) == head + seq![false]);
    lemma_structure_read(bits.take(flag) + seq![false], pos, structure, None);
}

} // verus!
