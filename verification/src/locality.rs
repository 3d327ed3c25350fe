//! Fields are read from the bits that they take up and from no others: where two
//! bit sequences agree on those bits, the same field is read from both.
use crate::fields;
use crate::metadata::DependencyDescriptorLayerIds;
use crate::parser;
use crate::parser::DescriptorFlags;
use crate::structure;
use crate::structure::{StructureView, TemplateView};
use vstd::prelude::*;

verus! {

/// The `len` bits of `a` from `i` on are the `len` bits of `b` from `j` on.
#[verifier::opaque]
pub open spec fn agree(a: Seq<bool>, i: int, b: Seq<bool>, j: int, len: int) -> bool {
    &&& 0 <= len
    &&& 0 <= i && i + len <= a.len()
    &&& 0 <= j && j + len <= b.len()
    &&& a.subrange(i, i + len) == b.subrange(j, j + len)
}

/// Runs of bits that agree lie within their sequences and have the same bits.
pub proof fn lemma_agree(a: Seq<bool>, i: int, b: Seq<bool>, j: int, len: int)
    ensures
        agree(a, i, b, j, len) <==> {
            &&& 0 <= len
            &&& 0 <= i && i + len <= a.len()
            &&& 0 <= j && j + len <= b.len()
            &&& a.subrange(i, i + len) == b.subrange(j, j + len)
        },
{
    reveal(agree);
}

/// Runs of bits that agree lie within their sequences.
proof fn lemma_agree_bounds(a: Seq<bool>, i: int, b: Seq<bool>, j: int, len: int)
    requires
        agree(a, i, b, j, len),
    ensures
        0 <= len,
        0 <= i && i + len <= a.len(),
        0 <= j && j + len <= b.len(),
{
    reveal(agree);
}

/// Sequences that agree on a run of bits agree on each part of it.
pub proof fn lemma_agree_part(
    a: Seq<bool>,
    i: int,
    b: Seq<bool>,
    j: int,
    len: int,
    start: int,
    end: int,
)
    requires
        agree(a, i, b, j, len),
        i <= start <= end <= i + len,
    ensures
        agree(a, start, b, j + start - i, end - start),
{
    reveal(agree);
    let offset = start - i;
    let x = a.subrange(i, i + len);
    let y = b.subrange(j, j + len);
    assert(x.subrange(offset, offset + end - start) =~= a.subrange(start, end));
    assert(y.subrange(offset, offset + end - start) =~= b.subrange(
        j + offset,
        j + offset + end - start,
    ));
}

/// A field that starts within the bits ends within them.
spec fn ends_within<T>(item: spec_fn(int) -> Option<(T, int)>, len: int) -> bool {
    forall|p: int|
        0 <= p <= len ==> ((#[trigger] item(p)) matches Some((value, end)) ==> p <= end <= len)
}

/// `x` reads from `a` what `y` reads from `b`, wherever the two agree.
spec fn same_item<T>(
    x: spec_fn(int) -> Option<(T, int)>,
    a: Seq<bool>,
    y: spec_fn(int) -> Option<(T, int)>,
    b: Seq<bool>,
) -> bool {
    forall|i: int, j: int|
        #![trigger x(i), y(j)]
        (x(i) matches Some((value, end)) && agree(a, i, b, j, end - i)) ==> y(j) == Some(
            ((x(i)->0).0, j + (x(i)->0).1 - i),
        )
}

/// Repeated fields end within the bits.
proof fn lemma_repeat_end<T>(
    item: spec_fn(int) -> Option<(T, int)>,
    len: int,
    count: nat,
    pos: int,
)
    requires
        ends_within(item, len),
        0 <= pos <= len,
    ensures
        fields::repeat(item, count, pos) matches Some((items, end)) ==> pos <= end <= len,
    decreases count,
{
    if count > 0 {
        if let Some((value, next)) = item(pos) {
            lemma_repeat_end(item, len, (count - 1) as nat, next);
        }
    }
}

/// Repeated fields depend on the bits that they take up alone.
proof fn lemma_repeat_local<T>(
    x: spec_fn(int) -> Option<(T, int)>,
    a: Seq<bool>,
    i: int,
    y: spec_fn(int) -> Option<(T, int)>,
    b: Seq<bool>,
    j: int,
    count: nat,
)
    requires
        ends_within(x, a.len() as int),
        same_item(x, a, y, b),
        fields::repeat(x, count, i) matches Some((items, end)) && agree(a, i, b, j, end - i),
    ensures
        fields::repeat(y, count, j) == Some(
            (
                (fields::repeat(x, count, i)->0).0,
                j + (fields::repeat(x, count, i)->0).1 - i,
            ),
        ),
    decreases count,
{
    let (items, end) = fields::repeat(x, count, i)->0;
    lemma_agree_bounds(a, i, b, j, end - i);
    if count > 0 {
        let (value, next) = x(i)->0;
        lemma_repeat_end(x, a.len() as int, (count - 1) as nat, next);
        lemma_agree_part(a, i, b, j, end - i, i, next);
        lemma_agree_part(a, i, b, j, end - i, next, end);
        assert(y(j) == Some((value, j + next - i)));
        lemma_repeat_local(x, a, next, y, b, j + next - i, (count - 1) as nat);
    }
}

/// A number depends on the bits that it takes up alone.
pub proof fn lemma_field_local(a: Seq<bool>, i: int, b: Seq<bool>, j: int, width: nat)
    requires
        agree(a, i, b, j, width as int),
    ensures
        fields::field(a, i, width) is Some,
        fields::field(b, j, width) == Some(((fields::field(a, i, width)->0).0, j + width)),
        fields::field_u8(b, j, width) == Some(((fields::field_u8(a, i, width)->0).0, j + width)),
{
    reveal(agree);
}

/// A flag depends on its bit alone.
pub proof fn lemma_flag_local(a: Seq<bool>, i: int, b: Seq<bool>, j: int)
    requires
        agree(a, i, b, j, 1),
    ensures
        fields::flag(a, i) == Some((a[i], i + 1)),
        fields::flag(b, j) == Some((a[i], j + 1)),
{
    reveal(agree);
    assert(a.subrange(i, i + 1)[0] == a[i]);
    assert(b.subrange(j, j + 1)[0] == b[j]);
}

/// Items that are numbers of one width end within the bits and are local.
proof fn lemma_field_item(a: Seq<bool>, b: Seq<bool>, width: nat)
    ensures
        ends_within(fields::field_item(a, width), a.len() as int),
        same_item(fields::field_item(a, width), a, fields::field_item(b, width), b),
{
    let x = fields::field_item(a, width);
    let y = fields::field_item(b, width);
    assert forall|i: int, j: int|
        #![trigger x(i), y(j)]
        (x(i) matches Some((value, end)) && agree(a, i, b, j, end - i)) implies y(j) == Some(
        ((x(i)->0).0, j + (x(i)->0).1 - i),
    ) by {
        lemma_field_local(a, i, b, j, width);
    }
}

/// A list of numbers is as long as its numbers together.
pub proof fn lemma_fields_end(bits: Seq<bool>, pos: int, count: nat, width: nat)
    requires
        0 <= pos <= bits.len(),
    ensures
        fields::fields(bits, pos, count, width) is Some <==> pos + count * width <= bits.len(),
        fields::fields(bits, pos, count, width) matches Some((items, end)) ==> end == pos + count
            * width,
    decreases count,
{
    if count > 0 {
        assert(count * width == (count - 1) * width + width) by (nonlinear_arith)
            requires
                count > 0,
        ;
        assert(0 <= (count - 1) * width) by (nonlinear_arith)
            requires
                count > 0,
        ;
        if let Some((value, next)) = fields::field_item(bits, width)(pos) {
            lemma_fields_end(bits, next, (count - 1) as nat, width);
        }
    }
}

/// A list of numbers depends on the bits that it takes up alone.
proof fn lemma_fields_local(
    a: Seq<bool>,
    i: int,
    b: Seq<bool>,
    j: int,
    count: nat,
    width: nat,
)
    requires
        fields::fields(a, i, count, width) matches Some((items, end)) && agree(a, i, b, j, end - i),
    ensures
        fields::fields(b, j, count, width) == Some(
            (
                (fields::fields(a, i, count, width)->0).0,
                j + (fields::fields(a, i, count, width)->0).1 - i,
            ),
        ),
{
    lemma_field_item(a, b, width);
    lemma_repeat_local(
        fields::field_item(a, width),
        a,
        i,
        fields::field_item(b, width),
        b,
        j,
        count,
    );
}

/// Items that are lists of numbers end within the bits and are local.
proof fn lemma_fields_item(a: Seq<bool>, b: Seq<bool>, count: nat, width: nat)
    ensures
        ends_within(fields::fields_item(a, count, width), a.len() as int),
        same_item(fields::fields_item(a, count, width), a, fields::fields_item(b, count, width), b),
{
    let x = fields::fields_item(a, count, width);
    let y = fields::fields_item(b, count, width);
    lemma_field_item(a, b, width);
    assert forall|p: int| 0 <= p <= a.len() implies ((#[trigger] x(p)) matches Some((value, end))
        ==> p <= end <= a.len()) by {
        lemma_repeat_end(fields::field_item(a, width), a.len() as int, count, p);
    }
    assert forall|i: int, j: int|
        #![trigger x(i), y(j)]
        (x(i) matches Some((value, end)) && agree(a, i, b, j, end - i)) implies y(j) == Some(
        ((x(i)->0).0, j + (x(i)->0).1 - i),
    ) by {
        lemma_fields_local(a, i, b, j, count, width);
    }
}

/// A non-symmetric number ends within the bits.
proof fn lemma_non_symmetric_end(bits: Seq<bool>, pos: int, num_values: nat)
    requires
        0 <= pos <= bits.len(),
    ensures
        fields::non_symmetric(bits, pos, num_values) matches Some((value, end)) ==> pos <= end
            <= bits.len(),
{
}

/// A non-symmetric number depends on the bits that it takes up alone.
proof fn lemma_non_symmetric_local(
    a: Seq<bool>,
    i: int,
    b: Seq<bool>,
    j: int,
    num_values: nat,
)
    requires
        fields::non_symmetric(a, i, num_values) matches Some((value, end)) && agree(
            a,
            i,
            b,
            j,
            end - i,
        ),
    ensures
        fields::non_symmetric(b, j, num_values) == Some(
            (
                (fields::non_symmetric(a, i, num_values)->0).0,
                j + (fields::non_symmetric(a, i, num_values)->0).1 - i,
            ),
        ),
{
    if num_values != 1 {
        let width = (fields::bit_width_of(num_values) - 1) as nat;
        let end = (fields::non_symmetric(a, i, num_values)->0).1;
        let (value, next) = fields::field(a, i, width)->0;
        lemma_agree_part(a, i, b, j, end - i, i, next);
        lemma_field_local(a, i, b, j, width);
        if end != next {
            lemma_agree_part(a, i, b, j, end - i, next, end);
            lemma_field_local(a, next, b, j + next - i, 1);
        }
    }
}

/// Items that are non-symmetric numbers end within the bits and are local.
proof fn lemma_non_symmetric_item(a: Seq<bool>, b: Seq<bool>, num_values: nat)
    ensures
        ends_within(fields::non_symmetric_item(a, num_values), a.len() as int),
        same_item(
            fields::non_symmetric_item(a, num_values),
            a,
            fields::non_symmetric_item(b, num_values),
            b,
        ),
{
    let x = fields::non_symmetric_item(a, num_values);
    let y = fields::non_symmetric_item(b, num_values);
    assert forall|p: int| 0 <= p <= a.len() implies ((#[trigger] x(p)) matches Some((value, end))
        ==> p <= end <= a.len()) by {
        lemma_non_symmetric_end(a, p, num_values);
    }
    assert forall|i: int, j: int|
        #![trigger x(i), y(j)]
        (x(i) matches Some((value, end)) && agree(a, i, b, j, end - i)) implies y(j) == Some(
        ((x(i)->0).0, j + (x(i)->0).1 - i),
    ) by {
        lemma_non_symmetric_local(a, i, b, j, num_values);
    }
}

/// A packet's frame differences depend on the bits that they take up alone.
pub proof fn lemma_custom_frame_diffs_local(a: Seq<bool>, i: int, b: Seq<bool>, j: int)
    requires
        fields::custom_frame_diffs(a, i) matches Some((diffs, end)) && agree(a, i, b, j, end - i),
    ensures
        fields::custom_frame_diffs(b, j) == Some(
            (
                (fields::custom_frame_diffs(a, i)->0).0,
                j + (fields::custom_frame_diffs(a, i)->0).1 - i,
            ),
        ),
    decreases a.len() - i,
{
    let end = (fields::custom_frame_diffs(a, i)->0).1;
    let (size, next) = fields::field(a, i, 2)->0;
    fields::lemma_custom_frame_diffs_end(a, i);
    if size != 0 {
        let (value, after) = fields::field(a, next, 4 * size)->0;
        fields::lemma_custom_frame_diffs_end(a, after);
        lemma_agree_part(a, i, b, j, end - i, i, next);
        lemma_agree_part(a, i, b, j, end - i, next, after);
        lemma_agree_part(a, i, b, j, end - i, after, end);
        lemma_field_local(a, i, b, j, 2);
        lemma_field_local(a, next, b, j + next - i, 4 * size);
        lemma_custom_frame_diffs_local(a, after, b, j + after - i);
    } else {
        lemma_field_local(a, i, b, j, 2);
    }
}

/// A template's frame differences end within the bits, behind where they start.
proof fn lemma_template_frame_diffs_end(bits: Seq<bool>, pos: int)
    ensures
        fields::template_frame_diffs(bits, pos) matches Some((diffs, end)) ==> 0 <= pos < end
            <= bits.len(),
    decreases bits.len() - pos,
{
    if let Some((follow, next)) = fields::flag(bits, pos) {
        if follow {
            if let Some((value, after)) = fields::field(bits, next, 4) {
                lemma_template_frame_diffs_end(bits, after);
            }
        }
    }
}

/// A template's frame differences depend on the bits that they take up alone.
proof fn lemma_template_frame_diffs_local(a: Seq<bool>, i: int, b: Seq<bool>, j: int)
    requires
        fields::template_frame_diffs(a, i) matches Some((diffs, end)) && agree(a, i, b, j, end - i),
    ensures
        fields::template_frame_diffs(b, j) == Some(
            (
                (fields::template_frame_diffs(a, i)->0).0,
                j + (fields::template_frame_diffs(a, i)->0).1 - i,
            ),
        ),
    decreases a.len() - i,
{
    let end = (fields::template_frame_diffs(a, i)->0).1;
    let (follow, next) = fields::flag(a, i)->0;
    lemma_template_frame_diffs_end(a, i);
    lemma_agree_part(a, i, b, j, end - i, i, next);
    lemma_flag_local(a, i, b, j);
    if follow {
        let (value, after) = fields::field(a, next, 4)->0;
        lemma_template_frame_diffs_end(a, after);
        lemma_agree_part(a, i, b, j, end - i, next, after);
        lemma_agree_part(a, i, b, j, end - i, after, end);
        lemma_field_local(a, next, b, j + next - i, 4);
        lemma_template_frame_diffs_local(a, after, b, j + after - i);
    }
}

/// Items that are templates' frame differences end within the bits and are local.
proof fn lemma_template_frame_diffs_item(a: Seq<bool>, b: Seq<bool>)
    ensures
        ends_within(fields::template_frame_diffs_item(a), a.len() as int),
        same_item(
            fields::template_frame_diffs_item(a),
            a,
            fields::template_frame_diffs_item(b),
            b,
        ),
{
    let x = fields::template_frame_diffs_item(a);
    let y = fields::template_frame_diffs_item(b);
    assert forall|p: int| 0 <= p <= a.len() implies ((#[trigger] x(p)) matches Some((value, end))
        ==> p <= end <= a.len()) by {
        lemma_template_frame_diffs_end(a, p);
    }
    assert forall|i: int, j: int|
        #![trigger x(i), y(j)]
        (x(i) matches Some((value, end)) && agree(a, i, b, j, end - i)) implies y(j) == Some(
        ((x(i)->0).0, j + (x(i)->0).1 - i),
    ) by {
        lemma_template_frame_diffs_local(a, i, b, j);
    }
}

/// The layers of the templates end within the bits, behind where they start.
proof fn lemma_template_layers_end(bits: Seq<bool>, pos: int, layer: DependencyDescriptorLayerIds)
    ensures
        structure::template_layers(bits, pos, layer) matches Some((layers, end)) ==> 0 <= pos < end
            <= bits.len(),
    decreases bits.len() - pos,
{
    if let Some((code, next)) = fields::field_u8(bits, pos, 2) {
        if code != 3 {
            if let Some(following) = structure::next_layer(layer, code) {
                lemma_template_layers_end(bits, next, following);
            }
        }
    }
}

/// The layers of the templates depend on the bits that they take up alone.
proof fn lemma_template_layers_local(
    a: Seq<bool>,
    i: int,
    b: Seq<bool>,
    j: int,
    layer: DependencyDescriptorLayerIds,
)
    requires
        structure::template_layers(a, i, layer) matches Some((layers, end)) && agree(
            a,
            i,
            b,
            j,
            end - i,
        ),
    ensures
        structure::template_layers(b, j, layer) == Some(
            (
                (structure::template_layers(a, i, layer)->0).0,
                j + (structure::template_layers(a, i, layer)->0).1 - i,
            ),
        ),
    decreases a.len() - i,
{
    let end = (structure::template_layers(a, i, layer)->0).1;
    lemma_template_layers_end(a, i, layer);
    let (code, next) = fields::field_u8(a, i, 2)->0;
    if code != 3 {
        let following = structure::next_layer(layer, code)->0;
        lemma_template_layers_end(a, next, following);
        lemma_agree_part(a, i, b, j, end - i, i, next);
        lemma_agree_part(a, i, b, j, end - i, next, end);
        lemma_field_local(a, i, b, j, 2);
        lemma_template_layers_local(a, next, b, j + next - i, following);
    } else {
        lemma_field_local(a, i, b, j, 2);
    }
}

/// The chains end within the bits.
proof fn lemma_chains_end(
    bits: Seq<bool>,
    pos: int,
    num_decode_targets: nat,
    num_templates: nat,
)
    requires
        0 <= pos <= bits.len(),
    ensures
        structure::chains_at(bits, pos, num_decode_targets, num_templates) matches Some(
            (chains, end),
        ) ==> pos <= end <= bits.len(),
{
    let len = bits.len() as int;
    lemma_non_symmetric_end(bits, pos, num_decode_targets + 1);
    if let Some((num_chains, next)) = fields::non_symmetric(bits, pos, num_decode_targets + 1) {
        let protect = fields::non_symmetric_item(bits, num_chains);
        lemma_non_symmetric_item(bits, bits, num_chains);
        lemma_repeat_end(protect, len, num_decode_targets, next);
        if let Some((protected, after)) = fields::repeat(protect, num_decode_targets, next) {
            lemma_fields_item(bits, bits, num_chains, 4);
            lemma_repeat_end(
                fields::fields_item(bits, num_chains, 4),
                len,
                num_templates,
                after,
            );
        }
    }
}

/// The chains depend on the bits that they take up alone.
proof fn lemma_chains_local(
    a: Seq<bool>,
    i: int,
    b: Seq<bool>,
    j: int,
    num_decode_targets: nat,
    num_templates: nat,
)
    requires
        structure::chains_at(a, i, num_decode_targets, num_templates) matches Some((chains, end))
            && agree(a, i, b, j, end - i),
    ensures
        structure::chains_at(b, j, num_decode_targets, num_templates) == Some(
            (
                (structure::chains_at(a, i, num_decode_targets, num_templates)->0).0,
                j + (structure::chains_at(a, i, num_decode_targets, num_templates)->0).1 - i,
            ),
        ),
{
    let len = a.len() as int;
    let end = (structure::chains_at(a, i, num_decode_targets, num_templates)->0).1;
    lemma_agree_bounds(a, i, b, j, end - i);
    let (num_chains, next) = fields::non_symmetric(a, i, num_decode_targets + 1)->0;
    lemma_non_symmetric_end(a, i, num_decode_targets + 1);
    if num_chains == 0 {
        lemma_non_symmetric_local(a, i, b, j, num_decode_targets + 1);
    } else {
        let x = fields::non_symmetric_item(a, num_chains);
        let y = fields::non_symmetric_item(b, num_chains);
        lemma_non_symmetric_item(a, b, num_chains);
        lemma_repeat_end(x, len, num_decode_targets, next);
        let after = (fields::repeat(x, num_decode_targets, next)->0).1;
        let u = fields::fields_item(a, num_chains, 4);
        let v = fields::fields_item(b, num_chains, 4);
        lemma_fields_item(a, b, num_chains, 4);
        lemma_repeat_end(u, len, num_templates, after);
        lemma_agree_part(a, i, b, j, end - i, i, next);
        lemma_agree_part(a, i, b, j, end - i, next, after);
        lemma_agree_part(a, i, b, j, end - i, after, end);
        lemma_non_symmetric_local(a, i, b, j, num_decode_targets + 1);
        lemma_repeat_local(x, a, next, y, b, j + next - i, num_decode_targets);
        lemma_repeat_local(u, a, after, v, b, j + after - i, num_templates);
    }
}

/// The end of the resolutions depends on the bits that they take up alone.
proof fn lemma_resolutions_local(a: Seq<bool>, i: int, b: Seq<bool>, j: int, max_spatial_id: nat)
    requires
        structure::resolutions_end(a, i, max_spatial_id) matches Some(end) && agree(
            a,
            i,
            b,
            j,
            end - i,
        ),
    ensures
        structure::resolutions_end(b, j, max_spatial_id) == Some(
            j + structure::resolutions_end(a, i, max_spatial_id)->0 - i,
        ),
{
    let end = structure::resolutions_end(a, i, max_spatial_id)->0;
    lemma_agree_bounds(a, i, b, j, end - i);
    lemma_agree_part(a, i, b, j, end - i, i, i + 1);
    lemma_flag_local(a, i, b, j);
}

/// The templates end within the bits, behind where they start.
proof fn lemma_templates_end(bits: Seq<bool>, pos: int, num_decode_targets: nat)
    ensures
        structure::templates_at(bits, pos, num_decode_targets) matches Some(
            (templates, chains, end),
        ) ==> 0 <= pos < end <= bits.len(),
{
    if let Some((templates, chains, end)) = structure::templates_at(
        bits,
        pos,
        num_decode_targets,
    ) {
        let len = bits.len() as int;
        let base = structure::base_layer();
        lemma_template_layers_end(bits, pos, base);
        let (layers, dti_pos) = structure::template_layers(bits, pos, base)->0;
        let dtis = fields::fields_item(bits, num_decode_targets, 2);
        lemma_fields_item(bits, bits, num_decode_targets, 2);
        lemma_repeat_end(dtis, len, layers.len(), dti_pos);
        let fdiff_pos = (fields::repeat(dtis, layers.len(), dti_pos)->0).1;
        let diffs = fields::template_frame_diffs_item(bits);
        lemma_template_frame_diffs_item(bits, bits);
        lemma_repeat_end(diffs, len, layers.len(), fdiff_pos);
        let chain_pos = (fields::repeat(diffs, layers.len(), fdiff_pos)->0).1;
        lemma_chains_end(bits, chain_pos, num_decode_targets, layers.len());
    }
}

/// The templates depend on the bits that they take up alone.
proof fn lemma_templates_local(
    a: Seq<bool>,
    i: int,
    b: Seq<bool>,
    j: int,
    num_decode_targets: nat,
)
    requires
        structure::templates_at(a, i, num_decode_targets) matches Some((templates, chains, end))
            && agree(a, i, b, j, end - i),
    ensures
        structure::templates_at(b, j, num_decode_targets) == Some(
            (
                (structure::templates_at(a, i, num_decode_targets)->0).0,
                (structure::templates_at(a, i, num_decode_targets)->0).1,
                j + (structure::templates_at(a, i, num_decode_targets)->0).2 - i,
            ),
        ),
{
    let len = a.len() as int;
    let end = (structure::templates_at(a, i, num_decode_targets)->0).2;
    let base = structure::base_layer();
    lemma_template_layers_end(a, i, base);
    let (layers, dti_pos) = structure::template_layers(a, i, base)->0;
    let dtis_a = fields::fields_item(a, num_decode_targets, 2);
    let dtis_b = fields::fields_item(b, num_decode_targets, 2);
    lemma_fields_item(a, b, num_decode_targets, 2);
    lemma_repeat_end(dtis_a, len, layers.len(), dti_pos);
    let fdiff_pos = (fields::repeat(dtis_a, layers.len(), dti_pos)->0).1;
    let diffs_a = fields::template_frame_diffs_item(a);
    let diffs_b = fields::template_frame_diffs_item(b);
    lemma_template_frame_diffs_item(a, b);
    lemma_repeat_end(diffs_a, len, layers.len(), fdiff_pos);
    let chain_pos = (fields::repeat(diffs_a, layers.len(), fdiff_pos)->0).1;
    lemma_chains_end(a, chain_pos, num_decode_targets, layers.len());
    let (chains, next) = structure::chains_at(a, chain_pos, num_decode_targets, layers.len())->0;

    lemma_agree_part(a, i, b, j, end - i, i, dti_pos);
    lemma_agree_part(a, i, b, j, end - i, dti_pos, fdiff_pos);
    lemma_agree_part(a, i, b, j, end - i, fdiff_pos, chain_pos);
    lemma_agree_part(a, i, b, j, end - i, chain_pos, next);
    lemma_agree_part(a, i, b, j, end - i, next, end);
    lemma_template_layers_local(a, i, b, j, base);
    lemma_repeat_local(dtis_a, a, dti_pos, dtis_b, b, j + dti_pos - i, layers.len());
    lemma_repeat_local(diffs_a, a, fdiff_pos, diffs_b, b, j + fdiff_pos - i, layers.len());
    lemma_chains_local(a, chain_pos, b, j + chain_pos - i, num_decode_targets, layers.len());
    lemma_resolutions_local(a, next, b, j + next - i, structure::max_spatial_id(layers));
}

/// A structure ends within the bits, behind where it starts.
pub proof fn lemma_structure_end(bits: Seq<bool>, pos: int)
    ensures
        structure::structure_at(bits, pos) matches Some((structure, end)) ==> 0 <= pos < end
            <= bits.len(),
{
    if let Some((structure, end)) = structure::structure_at(bits, pos) {
        let next = (fields::field_u8(bits, pos, 6)->0).1;
        let (last_target, after) = fields::field_u8(bits, next, 5)->0;
        lemma_templates_end(bits, after, last_target as nat + 1);
    }
}

/// A structure depends on the bits that it takes up alone.
pub proof fn lemma_structure_local(a: Seq<bool>, i: int, b: Seq<bool>, j: int)
    requires
        structure::structure_at(a, i) matches Some((structure, end)) && agree(a, i, b, j, end - i),
    ensures
        structure::structure_at(b, j) == Some(
            (
                (structure::structure_at(a, i)->0).0,
                j + (structure::structure_at(a, i)->0).1 - i,
            ),
        ),
{
    let end = (structure::structure_at(a, i)->0).1;
    let next = (fields::field_u8(a, i, 6)->0).1;
    let (last_target, after) = fields::field_u8(a, next, 5)->0;
    lemma_templates_end(a, after, last_target as nat + 1);
    lemma_agree_part(a, i, b, j, end - i, i, next);
    lemma_agree_part(a, i, b, j, end - i, next, after);
    lemma_agree_part(a, i, b, j, end - i, after, end);
    lemma_field_local(a, i, b, j, 6);
    lemma_field_local(a, next, b, j + next - i, 5);
    lemma_templates_local(a, after, b, j + after - i, last_target as nat + 1);
}

/// What a descriptor says of its frame ends within the bits.
pub proof fn lemma_frame_end(
    bits: Seq<bool>,
    pos: int,
    flags: DescriptorFlags,
    structure: StructureView,
    template: TemplateView,
)
    requires
        0 <= pos <= bits.len(),
    ensures
        parser::frame_at(bits, pos, flags, structure, template) matches Some((frame, end)) ==> pos
            <= end <= bits.len(),
{
    let targets = structure.num_decode_targets as nat;
    let chains = structure.num_chains as nat;
    lemma_field_item(bits, bits, 2);
    lemma_field_item(bits, bits, 8);
    let len = bits.len() as int;
    lemma_repeat_end(fields::field_item(bits, 2), len, targets, pos);
    if let Some((indications, next)) = parser::indications_at(bits, pos, flags, targets, template) {
        fields::lemma_custom_frame_diffs_end(bits, next);
        if let Some((diffs, after)) = parser::frame_diffs_at(bits, next, flags, template) {
            lemma_repeat_end(fields::field_item(bits, 8), len, chains, after);
        }
    }
}

/// What a descriptor says of its frame depends on the bits that this takes up
/// alone, and not on whether the descriptor carries a structure or a mask.
pub proof fn lemma_frame_local(
    a: Seq<bool>,
    i: int,
    b: Seq<bool>,
    j: int,
    x: DescriptorFlags,
    y: DescriptorFlags,
    structure: StructureView,
    template: TemplateView,
)
    requires
        x.custom_dtis == y.custom_dtis,
        x.custom_fdiffs == y.custom_fdiffs,
        x.custom_chains == y.custom_chains,
        parser::frame_at(a, i, x, structure, template) matches Some((frame, end)) && agree(
            a,
            i,
            b,
            j,
            end - i,
        ),
    ensures
        parser::frame_at(b, j, y, structure, template) == Some(
            (
                (parser::frame_at(a, i, x, structure, template)->0).0,
                j + (parser::frame_at(a, i, x, structure, template)->0).1 - i,
            ),
        ),
{
    let targets = structure.num_decode_targets as nat;
    let chains = structure.num_chains as nat;
    let len = a.len() as int;
    let end = (parser::frame_at(a, i, x, structure, template)->0).1;
    lemma_agree_bounds(a, i, b, j, end - i);
    let next = (parser::indications_at(a, i, x, targets, template)->0).1;
    let after = (parser::frame_diffs_at(a, next, x, template)->0).1;
    lemma_field_item(a, b, 2);
    lemma_field_item(a, b, 8);
    lemma_repeat_end(fields::field_item(a, 2), len, targets, i);
    fields::lemma_custom_frame_diffs_end(a, next);
    lemma_repeat_end(fields::field_item(a, 8), len, chains, after);
    lemma_agree_part(a, i, b, j, end - i, i, next);
    lemma_agree_part(a, i, b, j, end - i, next, after);
    lemma_agree_part(a, i, b, j, end - i, after, end);
    if x.custom_dtis {
        lemma_fields_local(a, i, b, j, targets, 2);
    }
    if x.custom_fdiffs {
        lemma_custom_frame_diffs_local(a, next, b, j + next - i);
    }
    if x.custom_chains {
        lemma_fields_local(a, after, b, j + after - i, chains, 8);
    }
}

} // verus!
