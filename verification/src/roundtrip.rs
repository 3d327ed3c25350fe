//! What was written is read again, and what is read was written so: the fields that
//! descriptors are made of against the texts of `encoding`.
use crate::bits;
use crate::encoding;
use crate::encoding::SizedDiff;
use crate::fields;
use crate::metadata::DependencyDescriptorLayerIds;
use crate::structure;
use crate::structure::{ChainsView, TemplateView};
use vstd::arithmetic::div_mod;
use vstd::arithmetic::power2;
use vstd::prelude::*;

verus! {

/// The text stands at `pos`.
#[verifier::opaque]
pub open spec fn holds_at(bits: Seq<bool>, pos: int, text: Seq<bool>) -> bool {
    &&& 0 <= pos && pos + text.len() <= bits.len()
    &&& bits.subrange(pos, pos + text.len()) == text
}

/// A text that stands at `pos` lies within the bits and is found there.
pub proof fn lemma_holds(bits: Seq<bool>, pos: int, text: Seq<bool>)
    ensures
        holds_at(bits, pos, text) <==> {
            &&& 0 <= pos && pos + text.len() <= bits.len()
            &&& bits.subrange(pos, pos + text.len()) == text
        },
{
    reveal(holds_at);
}

/// A text made of two stands where its first part stands and the second behind it.
pub proof fn lemma_holds_both(bits: Seq<bool>, pos: int, a: Seq<bool>, b: Seq<bool>)
    ensures
        holds_at(bits, pos, a + b) <==> holds_at(bits, pos, a) && holds_at(
            bits,
            pos + a.len(),
            b,
        ),
        (a + b).len() == a.len() + b.len(),
{
    reveal(holds_at);
    let end = pos + a.len() + b.len();
    if 0 <= pos && end <= bits.len() {
        let whole = bits.subrange(pos, end);
        let x = bits.subrange(pos, pos + a.len());
        let y = bits.subrange(pos + a.len(), end);
        assert(whole =~= x + y);
        if whole == a + b {
            assert(x =~= (a + b).take(a.len() as int));
            assert(a =~= (a + b).take(a.len() as int));
            assert(y =~= (a + b).skip(a.len() as int));
            assert(b =~= (a + b).skip(a.len() as int));
        }
    }
}

/// The empty text stands everywhere.
pub proof fn lemma_holds_nothing(bits: Seq<bool>, pos: int)
    requires
        0 <= pos <= bits.len(),
    ensures
        holds_at(bits, pos, Seq::empty()),
{
    reveal(holds_at);
    assert(bits.subrange(pos, pos) =~= Seq::empty());
}

/// Both ways to write a number agree.
pub proof fn lemma_number(value: nat, width: nat)
    ensures
        encoding::number(value, width) == bits::value_bits(value, width),
    decreases width,
{
    if width > 0 {
        let shorter = (width - 1) as nat;
        lemma_number(value / 2, shorter);
        power2::lemma2_to64();
        assert forall|i: int| 0 <= i < width implies encoding::number(value, width)[i]
            == bits::value_bits(value, width)[i] by {
            bits::lemma_value_bits_len(value / 2, shorter);
            if i < shorter {
                let low = (shorter - 1 - i) as nat;
                power2::lemma_pow2_unfold((width - 1 - i) as nat);
                power2::lemma_pow2_pos(low);
                div_mod::lemma_div_denominator(value as int, 2, power2::pow2(low) as int);
                assert(power2::pow2((width - 1 - i) as nat) == 2 * power2::pow2(low));
                assert(value / power2::pow2((width - 1 - i) as nat) == (value / 2) / power2::pow2(
                    low,
                ));
                assert(encoding::number(value / 2, shorter)[i] == bits::value_bits(
                    value / 2,
                    shorter,
                )[i]);
            } else {
                assert((width - 1 - i) as nat == 0);
                assert(value / power2::pow2(0) == value);
            }
        }
        bits::lemma_value_bits_len(value, width);
        assert(encoding::number(value, width) =~= bits::value_bits(value, width));
    } else {
        assert(encoding::number(value, width) =~= bits::value_bits(value, width));
    }
}

/// A number that was written is read.
pub proof fn lemma_number_read(bits: Seq<bool>, pos: int, value: nat, width: nat)
    requires
        value < power2::pow2(width),
        holds_at(bits, pos, encoding::number(value, width)),
    ensures
        fields::field(bits, pos, width) == Some((value, pos + width)),
{
    reveal(holds_at);
    lemma_number(value, width);
    bits::lemma_value_of_value_bits(value, width);
}

/// A number that is read was written so.
pub proof fn lemma_number_written(bits: Seq<bool>, pos: int, width: nat)
    ensures
        fields::field(bits, pos, width) matches Some((value, end)) ==> {
            &&& value < power2::pow2(width)
            &&& end == pos + width
            &&& holds_at(bits, pos, encoding::number(value, width))
            &&& encoding::number(value, width).len() == width
        },
{
    reveal(holds_at);
    if let Some((value, end)) = fields::field(bits, pos, width) {
        lemma_number(value, width);
        fields::lemma_field_bound(bits, pos, width);
        bits::lemma_value_bits_of_value(bits.subrange(pos, pos + width));
    }
}

/// A bit that was written is read, and a bit that is read was written so.
pub proof fn lemma_bit(bits: Seq<bool>, pos: int, set: bool)
    ensures
        holds_at(bits, pos, seq![set]) <==> fields::flag(bits, pos) == Some((set, pos + 1)),
{
    reveal(holds_at);
    if 0 <= pos < bits.len() {
        assert(bits.subrange(pos, pos + 1) =~= seq![bits[pos]]);
        assert(seq![set][0] == set);
        assert(seq![bits[pos]][0] == bits[pos]);
    }
}

/// Items that were written are read if each one is.
pub proof fn lemma_joined_read<T>(
    bits: Seq<bool>,
    pos: int,
    item: spec_fn(int) -> Option<(T, int)>,
    items: Seq<T>,
    text: spec_fn(T) -> Seq<bool>,
)
    requires
        forall|i: int, p: int|
            #![trigger items[i], item(p)]
            0 <= i < items.len() && holds_at(bits, p, text(items[i])) ==> item(p) == Some(
                (items[i], p + text(items[i]).len()),
            ),
        holds_at(bits, pos, encoding::joined(items, text)),
    ensures
        fields::repeat(item, items.len(), pos) == Some(
            (items, pos + encoding::joined(items, text).len()),
        ),
    decreases items.len(),
{
    if items.len() == 0 {
        assert(items =~= Seq::empty());
    } else {
        let rest = items.drop_first();
        lemma_holds_both(bits, pos, text(items[0]), encoding::joined(rest, text));
        let next = pos + text(items[0]).len();
        assert(item(pos) == Some((items[0], next)));
        assert forall|i: int, p: int|
            #![trigger rest[i], item(p)]
            0 <= i < rest.len() && holds_at(bits, p, text(rest[i])) implies item(p) == Some(
            (rest[i], p + text(rest[i]).len()),
        ) by {
            assert(rest[i] == items[i + 1]);
        }
        lemma_joined_read(bits, next, item, rest, text);
        assert(seq![items[0]] + rest =~= items);
    }
}

/// Items that are read were written so if each one was.
pub proof fn lemma_joined_written<T>(
    bits: Seq<bool>,
    pos: int,
    item: spec_fn(int) -> Option<(T, int)>,
    count: nat,
    text: spec_fn(T) -> Seq<bool>,
)
    requires
        0 <= pos <= bits.len(),
        forall|p: int|
            0 <= p <= bits.len() ==> ((#[trigger] item(p)) matches Some((value, end)) ==> holds_at(
                bits,
                p,
                text(value),
            ) && end == p + text(value).len()),
    ensures
        fields::repeat(item, count, pos) matches Some((items, end)) ==> items.len() == count
            && holds_at(bits, pos, encoding::joined(items, text)) && end == pos + encoding::joined(
            items,
            text,
        ).len() && end <= bits.len(),
    decreases count,
{
    if count == 0 {
        lemma_holds_nothing(bits, pos);
    } else if let Some((value, next)) = item(pos) {
        lemma_holds(bits, pos, text(value));
        lemma_joined_written(bits, next, item, (count - 1) as nat, text);
        if let Some((items, end)) = fields::repeat(item, count, pos) {
            let rest = (fields::repeat(item, (count - 1) as nat, next)->0).0;
            assert(items.drop_first() =~= rest);
            assert(items[0] == value);
            lemma_holds_both(bits, pos, text(value), encoding::joined(rest, text));
        }
    }
}

/// Numbers that were written are read.
pub proof fn lemma_numbers_read(bits: Seq<bool>, pos: int, values: Seq<u8>, width: nat)
    requires
        forall|i: int| 0 <= i < values.len() ==> #[trigger] values[i] < power2::pow2(width),
        holds_at(bits, pos, encoding::numbers(values, width)),
    ensures
        fields::fields(bits, pos, values.len(), width) == Some(
            (values, pos + encoding::numbers(values, width).len()),
        ),
{
    let item = fields::field_item(bits, width);
    let text = encoding::number_text(width);
    assert forall|i: int, p: int|
        #![trigger values[i], item(p)]
        0 <= i < values.len() && holds_at(bits, p, text(values[i])) implies item(p) == Some(
        (values[i], p + text(values[i]).len()),
    ) by {
        lemma_number_read(bits, p, values[i] as nat, width);
    }
    lemma_joined_read(bits, pos, item, values, text);
}

/// Numbers of at most eight bits that are read were written so.
pub proof fn lemma_numbers_written(bits: Seq<bool>, pos: int, count: nat, width: nat)
    requires
        0 <= pos <= bits.len(),
        width <= 8,
    ensures
        fields::fields(bits, pos, count, width) matches Some((values, end)) ==> values.len()
            == count && holds_at(bits, pos, encoding::numbers(values, width)) && end == pos
            + encoding::numbers(values, width).len() && end <= bits.len(),
{
    let item = fields::field_item(bits, width);
    let text = encoding::number_text(width);
    assert forall|p: int| 0 <= p <= bits.len() implies ((#[trigger] item(p)) matches Some(
        (value, end),
    ) ==> holds_at(bits, p, text(value)) && end == p + text(value).len()) by {
        lemma_number_written(bits, p, width);
        lemma_byte_width(bits, p, width);
    }
    lemma_joined_written(bits, pos, item, count, text);
}

/// A number of at most eight bits fits in a byte.
pub proof fn lemma_byte_width(bits: Seq<bool>, pos: int, width: nat)
    requires
        width <= 8,
    ensures
        fields::field(bits, pos, width) matches Some((value, end)) ==> value <= 255
            && fields::field_u8(bits, pos, width) == Some((value as u8, end)),
{
    fields::lemma_field_bound(bits, pos, width);
    power2::lemma2_to64();
    if width < 8 {
        power2::lemma_pow2_strictly_increases(width, 8);
    }
}

/// The number of bits that it takes to write a positive number.
proof fn lemma_width(n: nat)
    requires
        n > 0,
    ensures
        encoding::width_for(n) == fields::bit_width_of(n),
        encoding::width_for(n) > 0,
        power2::pow2((encoding::width_for(n) - 1) as nat) <= n < power2::pow2(
            encoding::width_for(n),
        ),
        power2::pow2(encoding::width_for(n)) == 2 * power2::pow2(
            (encoding::width_for(n) - 1) as nat,
        ),
{
    fields::lemma_bit_width_of(n);
    let a = fields::bit_width_of(n);
    let b = encoding::width_for(n);
    assert(encoding::is_width(n, a));
    assert(encoding::is_width(n, b));
    if a < b && a < b - 1 {
        power2::lemma_pow2_strictly_increases(a, (b - 1) as nat);
    }
    if b < a && b < a - 1 {
        power2::lemma_pow2_strictly_increases(b, (a - 1) as nat);
    }
    power2::lemma_pow2_unfold(b);
}

/// A number is its higher bits and its lowest bit.
proof fn lemma_lowest_bit(value: nat, width: nat)
    requires
        width > 0,
    ensures
        encoding::number(value, width) == encoding::number(value / 2, (width - 1) as nat)
            + encoding::number(value % 2, 1),
{
    lemma_number(value, width);
    lemma_number(value / 2, (width - 1) as nat);
    lemma_number(value % 2, 1);
    let bit = bits::value_bits(value % 2, 1);
    assert(bits::value_bits((value % 2) / 2, 0) =~= Seq::empty());
    assert(bit =~= seq![value % 2 == 1]);
    let high = bits::value_bits(value / 2, (width - 1) as nat);
    assert(high.push(value % 2 == 1) =~= high + bit);
}

/// A non-symmetric number that was written is read.
pub proof fn lemma_non_symmetric_read(bits: Seq<bool>, pos: int, value: nat, num_values: nat)
    requires
        value < num_values,
        holds_at(bits, pos, encoding::non_symmetric_number(value, num_values)),
    ensures
        fields::non_symmetric(bits, pos, num_values) == Some(
            (value, pos + encoding::non_symmetric_number(value, num_values).len()),
        ),
{
    if num_values > 1 {
        lemma_width(num_values);
        let width = encoding::width_for(num_values);
        let shorter = (width - 1) as nat;
        let gap = (power2::pow2(width) - num_values) as nat;
        if value < gap {
            lemma_number_read(bits, pos, value, shorter);
        } else {
            let sum = (value + gap) as nat;
            lemma_lowest_bit(sum, width);
            lemma_holds_both(
                bits,
                pos,
                encoding::number(sum / 2, shorter),
                encoding::number(sum % 2, 1),
            );
            power2::lemma2_to64();
            lemma_number_read(bits, pos, sum / 2, shorter);
            lemma_number_read(bits, pos + shorter, sum % 2, 1);
        }
    }
}

/// A non-symmetric number that is read was written so.
pub proof fn lemma_non_symmetric_written(bits: Seq<bool>, pos: int, num_values: nat)
    requires
        num_values > 0,
        0 <= pos <= bits.len(),
    ensures
        fields::non_symmetric(bits, pos, num_values) matches Some((value, end)) ==> value
            < num_values && holds_at(bits, pos, encoding::non_symmetric_number(value, num_values))
            && end == pos + encoding::non_symmetric_number(value, num_values).len() && end
            <= bits.len(),
{
    fields::lemma_non_symmetric_bound(bits, pos, num_values);
    if num_values == 1 {
        lemma_holds_nothing(bits, pos);
    } else {
        lemma_width(num_values);
        let width = encoding::width_for(num_values);
        let shorter = (width - 1) as nat;
        let gap = (power2::pow2(width) - num_values) as nat;
        lemma_number_written(bits, pos, shorter);
        if let Some((value, next)) = fields::field(bits, pos, shorter) {
            if value >= gap {
                lemma_number_written(bits, next, 1);
                power2::lemma2_to64();
                if let Some((bit, end)) = fields::field(bits, next, 1) {
                    let sum = 2 * value + bit;
                    lemma_lowest_bit(sum, width);
                    assert(sum / 2 == value && sum % 2 == bit);
                    lemma_holds_both(
                        bits,
                        pos,
                        encoding::number(value, shorter),
                        encoding::number(bit, 1),
                    );
                }
            }
        }
    }
}

/// A template's frame differences that were written are read.
pub proof fn lemma_template_diffs_read(bits: Seq<bool>, pos: int, diffs: Seq<u16>)
    requires
        forall|i: int| 0 <= i < diffs.len() ==> 1 <= #[trigger] diffs[i] <= 16,
        holds_at(bits, pos, encoding::template_diffs(diffs)),
    ensures
        fields::template_frame_diffs(bits, pos) == Some(
            (diffs, pos + encoding::template_diffs(diffs).len()),
        ),
    decreases diffs.len(),
{
    if diffs.len() == 0 {
        lemma_bit(bits, pos, false);
        assert(diffs =~= Seq::empty());
    } else {
        let rest = diffs.drop_first();
        let value = (diffs[0] - 1) as nat;
        let head = seq![true] + encoding::number(value, 4);
        lemma_holds_both(bits, pos, head, encoding::template_diffs(rest));
        lemma_holds_both(bits, pos, seq![true], encoding::number(value, 4));
        lemma_bit(bits, pos, true);
        power2::lemma2_to64();
        lemma_number_read(bits, pos + 1, value, 4);
        assert forall|i: int| 0 <= i < rest.len() implies 1 <= #[trigger] rest[i] <= 16 by {
            assert(rest[i] == diffs[i + 1]);
        }
        lemma_template_diffs_read(bits, pos + 5, rest);
        assert(seq![diffs[0]] + rest =~= diffs);
    }
}

/// A template's frame differences that are read were written so.
pub proof fn lemma_template_diffs_written(bits: Seq<bool>, pos: int)
    ensures
        fields::template_frame_diffs(bits, pos) matches Some((diffs, end)) ==> holds_at(
            bits,
            pos,
            encoding::template_diffs(diffs),
        ) && end == pos + encoding::template_diffs(diffs).len(),
    decreases bits.len() - pos,
{
    if let Some((diffs, end)) = fields::template_frame_diffs(bits, pos) {
        let (follow, next) = fields::flag(bits, pos)->0;
        lemma_bit(bits, pos, follow);
        if follow {
            let (value, after) = fields::field(bits, next, 4)->0;
            lemma_number_written(bits, next, 4);
            power2::lemma2_to64();
            lemma_template_diffs_written(bits, after);
            let rest = (fields::template_frame_diffs(bits, after)->0).0;
            assert(diffs.drop_first() =~= rest);
            assert(diffs[0] == value + 1);
            let head = seq![true] + encoding::number(value, 4);
            lemma_holds_both(bits, pos, seq![true], encoding::number(value, 4));
            lemma_holds_both(bits, pos, head, encoding::template_diffs(rest));
        } else {
            assert(diffs =~= Seq::empty());
        }
    }
}

/// A packet's frame differences that were written are read.
pub proof fn lemma_custom_diffs_read(bits: Seq<bool>, pos: int, diffs: Seq<SizedDiff>)
    requires
        forall|i: int| 0 <= i < diffs.len() ==> encoding::sized_diff_fits(#[trigger] diffs[i]),
        holds_at(bits, pos, encoding::custom_diffs(diffs)),
    ensures
        fields::custom_frame_diffs(bits, pos) == Some(
            (encoding::plain_diffs(diffs), pos + encoding::custom_diffs(diffs).len()),
        ),
    decreases diffs.len(),
{
    power2::lemma2_to64();
    if diffs.len() == 0 {
        lemma_number_read(bits, pos, 0, 2);
        assert(encoding::plain_diffs(diffs) =~= Seq::empty());
    } else {
        let rest = diffs.drop_first();
        assert(encoding::sized_diff_fits(diffs[0]));
        let size = diffs[0].size;
        let value = (diffs[0].diff - 1) as nat;
        let head = encoding::number(size, 2) + encoding::number(value, 4 * size);
        lemma_holds_both(bits, pos, head, encoding::custom_diffs(rest));
        lemma_holds_both(bits, pos, encoding::number(size, 2), encoding::number(value, 4 * size));
        lemma_number_read(bits, pos, size, 2);
        lemma_number_read(bits, pos + 2, value, 4 * size);
        assert forall|i: int| 0 <= i < rest.len() implies encoding::sized_diff_fits(
            #[trigger] rest[i],
        ) by {
            assert(rest[i] == diffs[i + 1]);
        }
        lemma_custom_diffs_read(bits, pos + 2 + 4 * size, rest);
        assert(seq![diffs[0].diff] + encoding::plain_diffs(rest) =~= encoding::plain_diffs(diffs));
    }
}

/// A packet's frame differences that are read were written so, in some sizes.
pub proof fn lemma_custom_diffs_written(bits: Seq<bool>, pos: int) -> (sized: Seq<SizedDiff>)
    ensures
        fields::custom_frame_diffs(bits, pos) matches Some((diffs, end)) ==> {
            &&& encoding::plain_diffs(sized) == diffs
            &&& forall|i: int| 0 <= i < sized.len() ==> encoding::sized_diff_fits(#[trigger] sized[i])
            &&& holds_at(bits, pos, encoding::custom_diffs(sized))
            &&& end == pos + encoding::custom_diffs(sized).len()
        },
    decreases bits.len() - pos,
{
    if let Some((diffs, end)) = fields::custom_frame_diffs(bits, pos) {
        let (size, next) = fields::field(bits, pos, 2)->0;
        lemma_number_written(bits, pos, 2);
        power2::lemma2_to64();
        if size == 0 {
            let sized = Seq::<SizedDiff>::empty();
            assert(encoding::plain_diffs(sized) =~= diffs);
            sized
        } else {
            let (value, after) = fields::field(bits, next, 4 * size)->0;
            lemma_number_written(bits, next, 4 * size);
            let rest = lemma_custom_diffs_written(bits, after);
            let first = SizedDiff { size, diff: (value + 1) as u16 };
            assert(size == 1 || size == 2 || size == 3);
            assert(encoding::sized_diff_fits(first));
            let sized = seq![first] + rest;
            assert(sized.drop_first() =~= rest);
            assert(encoding::plain_diffs(sized) =~= diffs);
            let head = encoding::number(size, 2) + encoding::number(value, 4 * size);
            lemma_holds_both(
                bits,
                pos,
                encoding::number(size, 2),
                encoding::number(value, 4 * size),
            );
            lemma_holds_both(bits, pos, head, encoding::custom_diffs(rest));
            assert forall|i: int| 0 <= i < sized.len() implies encoding::sized_diff_fits(
                #[trigger] sized[i],
            ) by {
                if i > 0 {
                    assert(sized[i] == rest[i - 1]);
                }
            }
            sized
        }
    } else {
        Seq::empty()
    }
}

/// Layers that templates can have, in this order.
pub open spec fn layers_allowed(layers: Seq<DependencyDescriptorLayerIds>) -> bool {
    &&& layers.len() > 0
    &&& forall|i: int|
        #![trigger layers[i]]
        0 <= i < layers.len() ==> layers[i].temporal_id <= 7 && layers[i].spatial_id <= 3
    &&& forall|i: int|
        #![trigger layers[i]]
        0 < i < layers.len() ==> encoding::step_allowed(layers[i - 1], layers[i])
}

/// Layers that were written are read.
pub proof fn lemma_layers_read(
    bits: Seq<bool>,
    pos: int,
    layers: Seq<DependencyDescriptorLayerIds>,
)
    requires
        layers_allowed(layers),
        holds_at(bits, pos, encoding::layer_codes(layers)),
    ensures
        structure::template_layers(bits, pos, layers[0]) == Some(
            (layers, pos + encoding::layer_codes(layers).len()),
        ),
    decreases layers.len(),
{
    power2::lemma2_to64();
    if layers.len() == 1 {
        lemma_number_read(bits, pos, 3, 2);
        assert(seq![layers[0]] =~= layers);
    } else {
        let rest = layers.drop_first();
        let code = encoding::step_code(layers[0], layers[1]);
        lemma_holds_both(bits, pos, encoding::number(code, 2), encoding::layer_codes(rest));
        lemma_number_read(bits, pos, code, 2);
        assert(encoding::step_allowed(layers[1 - 1], layers[1]));
        assert(structure::next_layer(layers[0], code as u8) == Some(layers[1]));
        assert forall|i: int|
            #![trigger rest[i]]
            0 <= i < rest.len() implies rest[i].temporal_id <= 7 && rest[i].spatial_id <= 3 by {
            assert(rest[i] == layers[i + 1]);
        }
        assert forall|i: int|
            #![trigger rest[i]]
            0 < i < rest.len() implies encoding::step_allowed(rest[i - 1], rest[i]) by {
            assert(rest[i] == layers[i + 1]);
            assert(rest[i - 1] == layers[i + 1 - 1]);
        }
        lemma_layers_read(bits, pos + 2, rest);
        assert(seq![layers[0]] + rest =~= layers);
    }
}

/// Layers that are read were written so.
pub proof fn lemma_layers_written(
    bits: Seq<bool>,
    pos: int,
    layer: DependencyDescriptorLayerIds,
)
    requires
        layer.temporal_id <= 7,
        layer.spatial_id <= 3,
    ensures
        structure::template_layers(bits, pos, layer) matches Some((layers, end)) ==> {
            &&& layers_allowed(layers)
            &&& layers[0] == layer
            &&& holds_at(bits, pos, encoding::layer_codes(layers))
            &&& end == pos + encoding::layer_codes(layers).len()
        },
    decreases bits.len() - pos,
{
    if let Some((layers, end)) = structure::template_layers(bits, pos, layer) {
        let (code, next) = fields::field_u8(bits, pos, 2)->0;
        lemma_number_written(bits, pos, 2);
        lemma_byte_width(bits, pos, 2);
        if code == 3 {
            assert(layers =~= seq![layer]);
        } else {
            let following = structure::next_layer(layer, code)->0;
            lemma_layers_written(bits, next, following);
            let rest = (structure::template_layers(bits, next, following)->0).0;
            assert(layers =~= seq![layer] + rest);
            assert(layers.drop_first() =~= rest);
            assert(layers[1] == following);
            assert(encoding::step_code(layer, following) == code);
            assert forall|i: int|
                #![trigger layers[i]]
                0 <= i < layers.len() implies layers[i].temporal_id <= 7 && layers[i].spatial_id
                <= 3 by {
                if i > 0 {
                    assert(layers[i] == rest[i - 1]);
                }
            }
            assert forall|i: int|
                #![trigger layers[i]]
                0 < i < layers.len() implies encoding::step_allowed(layers[i - 1], layers[i]) by {
                assert(layers[i] == rest[i - 1]);
                if i > 1 {
                    assert(layers[i - 1] == rest[i - 1 - 1]);
                }
            }
            lemma_holds_both(
                bits,
                pos,
                encoding::number(code as nat, 2),
                encoding::layer_codes(rest),
            );
        }
    }
}

/// Lists of numbers that were written are read.
pub proof fn lemma_lists_read(bits: Seq<bool>, pos: int, lists: Seq<Seq<u8>>, count: nat, width: nat)
    requires
        width <= 8,
        forall|i: int|
            0 <= i < lists.len() ==> (#[trigger] lists[i]).len() == count && forall|j: int|
                0 <= j < count ==> #[trigger] lists[i][j] < power2::pow2(width),
        holds_at(bits, pos, encoding::joined(lists, encoding::numbers_text(width))),
    ensures
        fields::repeat(fields::fields_item(bits, count, width), lists.len(), pos) == Some(
            (lists, pos + encoding::joined(lists, encoding::numbers_text(width)).len()),
        ),
{
    let item = fields::fields_item(bits, count, width);
    let text = encoding::numbers_text(width);
    assert forall|i: int, p: int|
        #![trigger lists[i], item(p)]
        0 <= i < lists.len() && holds_at(bits, p, text(lists[i])) implies item(p) == Some(
        (lists[i], p + text(lists[i]).len()),
    ) by {
        lemma_numbers_read(bits, p, lists[i], width);
    }
    lemma_joined_read(bits, pos, item, lists, text);
}

/// Lists of numbers that are read were written so.
pub proof fn lemma_lists_written(bits: Seq<bool>, pos: int, lists: nat, count: nat, width: nat)
    requires
        0 <= pos <= bits.len(),
        width <= 8,
    ensures
        fields::repeat(fields::fields_item(bits, count, width), lists, pos) matches Some(
            (items, end),
        ) ==> items.len() == lists && holds_at(
            bits,
            pos,
            encoding::joined(items, encoding::numbers_text(width)),
        ) && end == pos + encoding::joined(items, encoding::numbers_text(width)).len() && end
            <= bits.len(),
{
    let item = fields::fields_item(bits, count, width);
    let text = encoding::numbers_text(width);
    assert forall|p: int| 0 <= p <= bits.len() implies ((#[trigger] item(p)) matches Some(
        (value, end),
    ) ==> holds_at(bits, p, text(value)) && end == p + text(value).len()) by {
        lemma_numbers_written(bits, p, count, width);
    }
    lemma_joined_written(bits, pos, item, lists, text);
}

/// The frame differences of templates that were written are read.
pub proof fn lemma_diff_lists_read(bits: Seq<bool>, pos: int, lists: Seq<Seq<u16>>)
    requires
        forall|i: int|
            0 <= i < lists.len() ==> forall|j: int|
                0 <= j < (#[trigger] lists[i]).len() ==> 1 <= #[trigger] lists[i][j] <= 16,
        holds_at(bits, pos, encoding::joined(lists, encoding::template_diffs_text())),
    ensures
        fields::repeat(fields::template_frame_diffs_item(bits), lists.len(), pos) == Some(
            (lists, pos + encoding::joined(lists, encoding::template_diffs_text()).len()),
        ),
{
    let item = fields::template_frame_diffs_item(bits);
    let text = encoding::template_diffs_text();
    assert forall|i: int, p: int|
        #![trigger lists[i], item(p)]
        0 <= i < lists.len() && holds_at(bits, p, text(lists[i])) implies item(p) == Some(
        (lists[i], p + text(lists[i]).len()),
    ) by {
        lemma_template_diffs_read(bits, p, lists[i]);
    }
    lemma_joined_read(bits, pos, item, lists, text);
}

/// The frame differences of templates that are read were written so.
pub proof fn lemma_diff_lists_written(bits: Seq<bool>, pos: int, lists: nat)
    requires
        0 <= pos <= bits.len(),
    ensures
        fields::repeat(fields::template_frame_diffs_item(bits), lists, pos) matches Some(
            (items, end),
        ) ==> items.len() == lists && holds_at(
            bits,
            pos,
            encoding::joined(items, encoding::template_diffs_text()),
        ) && end == pos + encoding::joined(items, encoding::template_diffs_text()).len() && end
            <= bits.len(),
{
    let item = fields::template_frame_diffs_item(bits);
    let text = encoding::template_diffs_text();
    assert forall|p: int| 0 <= p <= bits.len() implies ((#[trigger] item(p)) matches Some(
        (value, end),
    ) ==> holds_at(bits, p, text(value)) && end == p + text(value).len()) by {
        lemma_template_diffs_written(bits, p);
    }
    lemma_joined_written(bits, pos, item, lists, text);
}

/// Chains that can be written for so many decode targets and templates.
pub open spec fn chains_allowed(
    num_decode_targets: nat,
    num_templates: nat,
    num_chains: nat,
    protecting: Seq<u8>,
    chain_diffs: Seq<Seq<u8>>,
) -> bool {
    &&& num_chains <= num_decode_targets
    &&& protecting.len() == if num_chains == 0 {
        0
    } else {
        num_decode_targets
    }
    &&& forall|i: int| 0 <= i < protecting.len() ==> #[trigger] protecting[i] < num_chains
    &&& chain_diffs.len() == num_templates
    &&& forall|i: int|
        0 <= i < chain_diffs.len() ==> (#[trigger] chain_diffs[i]).len() == num_chains && forall|
            j: int,
        |
            0 <= j < num_chains ==> #[trigger] chain_diffs[i][j] <= 15
}

/// The chains that protect decode targets are read as they were written.
proof fn lemma_names_read(bits: Seq<bool>, pos: int, num_chains: nat, protecting: Seq<u8>)
    requires
        forall|i: int| 0 <= i < protecting.len() ==> #[trigger] protecting[i] < num_chains,
        holds_at(
            bits,
            pos,
            encoding::joined(protecting, encoding::non_symmetric_text(num_chains)),
        ),
    ensures
        fields::repeat(fields::non_symmetric_item(bits, num_chains), protecting.len(), pos) == Some(
            (
                protecting,
                pos + encoding::joined(protecting, encoding::non_symmetric_text(num_chains)).len(),
            ),
        ),
{
    let item = fields::non_symmetric_item(bits, num_chains);
    let text = encoding::non_symmetric_text(num_chains);
    assert forall|i: int, p: int|
        #![trigger protecting[i], item(p)]
        0 <= i < protecting.len() && holds_at(bits, p, text(protecting[i])) implies item(p) == Some(
        (protecting[i], p + text(protecting[i]).len()),
    ) by {
        lemma_non_symmetric_read(bits, p, protecting[i] as nat, num_chains);
    }
    lemma_joined_read(bits, pos, item, protecting, text);
}

/// The chains that protect decode targets were written as they are read.
proof fn lemma_names_written(bits: Seq<bool>, pos: int, num_chains: nat, count: nat)
    requires
        0 <= pos <= bits.len(),
        0 < num_chains <= 255,
    ensures
        fields::repeat(fields::non_symmetric_item(bits, num_chains), count, pos) matches Some(
            (items, end),
        ) ==> items.len() == count && holds_at(
            bits,
            pos,
            encoding::joined(items, encoding::non_symmetric_text(num_chains)),
        ) && end == pos + encoding::joined(items, encoding::non_symmetric_text(num_chains)).len()
            && end <= bits.len(),
{
    let item = fields::non_symmetric_item(bits, num_chains);
    let text = encoding::non_symmetric_text(num_chains);
    assert forall|p: int| 0 <= p <= bits.len() implies ((#[trigger] item(p)) matches Some(
        (value, end),
    ) ==> holds_at(bits, p, text(value)) && end == p + text(value).len()) by {
        lemma_non_symmetric_written(bits, p, num_chains);
    }
    lemma_joined_written(bits, pos, item, count, text);
}

/// A structure without chains is read as it was written.
proof fn lemma_no_chains_read(
    bits: Seq<bool>,
    pos: int,
    num_decode_targets: nat,
    chain_diffs: Seq<Seq<u8>>,
)
    requires
        forall|i: int| 0 <= i < chain_diffs.len() ==> (#[trigger] chain_diffs[i]).len() == 0,
        holds_at(bits, pos, encoding::non_symmetric_number(0, num_decode_targets + 1)),
    ensures
        structure::chains_at(bits, pos, num_decode_targets, chain_diffs.len()) == Some(
            (
                ChainsView {
                    num_chains: 0,
                    decode_target_protected_by_chain: Seq::empty(),
                    chain_diffs,
                },
                pos + encoding::non_symmetric_number(0, num_decode_targets + 1).len(),
            ),
        ),
{
    lemma_non_symmetric_read(bits, pos, 0, num_decode_targets + 1);
    let none = Seq::new(chain_diffs.len(), |i: int| Seq::<u8>::empty());
    assert forall|i: int| 0 <= i < chain_diffs.len() implies chain_diffs[i] == none[i] by {
        assert(chain_diffs[i] =~= Seq::empty());
    }
    assert(chain_diffs =~= none);
}

/// The chains of a structure that has some are read if each part is.
proof fn lemma_some_chains_read(
    bits: Seq<bool>,
    pos: int,
    num_decode_targets: nat,
    num_chains: nat,
    protecting: Seq<u8>,
    chain_diffs: Seq<Seq<u8>>,
    next: int,
    after: int,
    end: int,
)
    requires
        num_chains > 0,
        fields::non_symmetric(bits, pos, num_decode_targets + 1) == Some((num_chains, next)),
        fields::repeat(
            fields::non_symmetric_item(bits, num_chains),
            num_decode_targets,
            next,
        ) == Some((protecting, after)),
        fields::repeat(
            fields::fields_item(bits, num_chains, 4),
            chain_diffs.len(),
            after,
        ) == Some((chain_diffs, end)),
    ensures
        structure::chains_at(bits, pos, num_decode_targets, chain_diffs.len()) == Some(
            (
                ChainsView {
                    num_chains,
                    decode_target_protected_by_chain: protecting,
                    chain_diffs,
                },
                end,
            ),
        ),
{
}

/// Chains that were written are read.
pub proof fn lemma_chains_read(
    bits: Seq<bool>,
    pos: int,
    num_decode_targets: nat,
    num_chains: nat,
    protecting: Seq<u8>,
    chain_diffs: Seq<Seq<u8>>,
)
    requires
        chains_allowed(
            num_decode_targets,
            chain_diffs.len(),
            num_chains,
            protecting,
            chain_diffs,
        ),
        holds_at(
            bits,
            pos,
            encoding::chains(num_decode_targets, num_chains, protecting, chain_diffs),
        ),
    ensures
        structure::chains_at(bits, pos, num_decode_targets, chain_diffs.len()) == Some(
            (
                ChainsView {
                    num_chains,
                    decode_target_protected_by_chain: protecting,
                    chain_diffs,
                },
                pos + encoding::chains(
                    num_decode_targets,
                    num_chains,
                    protecting,
                    chain_diffs,
                ).len(),
            ),
        ),
{
    let count = encoding::non_symmetric_number(num_chains, num_decode_targets + 1);
    let next = pos + count.len();
    if num_chains == 0 {
        lemma_holds_both(bits, pos, count, Seq::empty());
        assert(protecting =~= Seq::empty());
        lemma_no_chains_read(bits, pos, num_decode_targets, chain_diffs);
        assert(encoding::chains(num_decode_targets, num_chains, protecting, chain_diffs) == count
            + Seq::<bool>::empty());
    } else {
        let names = encoding::joined(protecting, encoding::non_symmetric_text(num_chains));
        let diffs = encoding::joined(chain_diffs, encoding::numbers_text(4));
        let after = next + names.len();
        assert(encoding::chains(num_decode_targets, num_chains, protecting, chain_diffs) == count
            + (names + diffs));
        lemma_holds_both(bits, pos, count, names + diffs);
        lemma_holds_both(bits, next, names, diffs);
        lemma_non_symmetric_read(bits, pos, num_chains, num_decode_targets + 1);
        lemma_names_read(bits, next, num_chains, protecting);
        power2::lemma2_to64();
        lemma_lists_read(bits, after, chain_diffs, num_chains, 4);
        lemma_some_chains_read(
            bits,
            pos,
            num_decode_targets,
            num_chains,
            protecting,
            chain_diffs,
            next,
            after,
            after + diffs.len(),
        );
    }
}

/// Chains that are read were written so.
pub proof fn lemma_chains_written(
    bits: Seq<bool>,
    pos: int,
    num_decode_targets: nat,
    num_templates: nat,
)
    requires
        0 <= pos <= bits.len(),
        num_decode_targets <= 32,
    ensures
        structure::chains_at(bits, pos, num_decode_targets, num_templates) matches Some(
            (chains, end),
        ) ==> {
            let text = encoding::chains(
                num_decode_targets,
                chains.num_chains,
                chains.decode_target_protected_by_chain,
                chains.chain_diffs,
            );
            &&& chains.chain_diffs.len() == num_templates
            &&& chains.num_chains <= num_decode_targets
            &&& holds_at(bits, pos, text)
            &&& end == pos + text.len()
            &&& end <= bits.len()
        },
{
    lemma_non_symmetric_written(bits, pos, num_decode_targets + 1);
    if let Some((chains, end)) = structure::chains_at(
        bits,
        pos,
        num_decode_targets,
        num_templates,
    ) {
        let (num_chains, next) = fields::non_symmetric(bits, pos, num_decode_targets + 1)->0;
        let count = encoding::non_symmetric_number(num_chains, num_decode_targets + 1);
        if num_chains == 0 {
            lemma_holds_nothing(bits, next);
            lemma_holds_both(bits, pos, count, Seq::empty());
        } else {
            let item = fields::non_symmetric_item(bits, num_chains);
            let text = encoding::non_symmetric_text(num_chains);
            lemma_names_written(bits, next, num_chains, num_decode_targets);
            let (protecting, after) = fields::repeat(item, num_decode_targets, next)->0;
            lemma_lists_written(bits, after, num_templates, num_chains, 4);
            let names = encoding::joined(protecting, text);
            let diffs = encoding::joined(chains.chain_diffs, encoding::numbers_text(4));
            lemma_holds_both(bits, next, names, diffs);
            lemma_holds_both(bits, pos, count, names + diffs);
        }
    }
}

/// The highest spatial id is one of the list, and no other is higher.
pub proof fn lemma_max_spatial_id(layers: Seq<DependencyDescriptorLayerIds>) -> (highest: int)
    requires
        layers.len() > 0,
    ensures
        0 <= highest < layers.len(),
        layers[highest].spatial_id == structure::max_spatial_id(layers),
        forall|i: int|
            0 <= i < layers.len() ==> (#[trigger] layers[i]).spatial_id
                <= structure::max_spatial_id(layers),
    decreases layers.len(),
{
    let shorter = layers.drop_last();
    let last = layers.len() - 1;
    if shorter.len() == 0 {
        assert(structure::max_spatial_id(shorter) == 0);
        last
    } else {
        let before = lemma_max_spatial_id(shorter);
        assert forall|i: int| 0 <= i < layers.len() implies (#[trigger] layers[i]).spatial_id
            <= structure::max_spatial_id(layers) by {
            if i < last {
                assert(layers[i] == shorter[i]);
            }
        }
        if layers[last].spatial_id > structure::max_spatial_id(shorter) {
            last
        } else {
            assert(layers[before] == shorter[before]);
            before
        }
    }
}

/// Resolutions that were written are passed over.
pub proof fn lemma_resolutions_read(
    bits: Seq<bool>,
    pos: int,
    templates: Seq<TemplateView>,
    resolutions: Option<Seq<bool>>,
)
    requires
        templates.len() > 0,
        encoding::resolutions_fit(templates, resolutions),
        holds_at(bits, pos, encoding::resolutions_text(resolutions)),
    ensures
        structure::resolutions_end(
            bits,
            pos,
            structure::max_spatial_id(encoding::layers_of(templates)),
        ) == Some(pos + encoding::resolutions_text(resolutions).len()),
{
    match resolutions {
        Some(sizes) => {
            let layers = encoding::layers_of(templates);
            let highest = lemma_max_spatial_id(layers);
            let i = choose|i: int|
                0 <= i < templates.len() && sizes.len() == 2 * 16 * (
                #[trigger] templates[i].layer_ids.spatial_id + 1) && forall|j: int|
                    0 <= j < templates.len() ==> #[trigger] templates[j].layer_ids.spatial_id
                        <= templates[i].layer_ids.spatial_id;
            assert(layers[i].spatial_id <= structure::max_spatial_id(layers));
            assert(templates[highest].layer_ids.spatial_id <= templates[i].layer_ids.spatial_id);
            lemma_holds_both(bits, pos, seq![true], sizes);
            lemma_holds(bits, pos + 1, sizes);
            lemma_bit(bits, pos, true);
        },
        None => {
            lemma_bit(bits, pos, false);
        },
    }
}

/// Resolutions that are passed over were written so.
pub proof fn lemma_resolutions_written(bits: Seq<bool>, pos: int, templates: Seq<TemplateView>) -> (
    resolutions: Option<Seq<bool>>)
    requires
        templates.len() > 0,
    ensures
        structure::resolutions_end(
            bits,
            pos,
            structure::max_spatial_id(encoding::layers_of(templates)),
        ) matches Some(end) ==> encoding::resolutions_fit(templates, resolutions) && holds_at(
            bits,
            pos,
            encoding::resolutions_text(resolutions),
        ) && end == pos + encoding::resolutions_text(resolutions).len(),
{
    let layers = encoding::layers_of(templates);
    let highest = lemma_max_spatial_id(layers);
    match structure::resolutions_end(bits, pos, structure::max_spatial_id(layers)) {
        Some(end) => if bits[pos] {
            let sizes = bits.subrange(pos + 1, end);
            assert forall|j: int| 0 <= j < templates.len() implies #[trigger]
            templates[j].layer_ids.spatial_id <= templates[highest].layer_ids.spatial_id by {
                assert(layers[j].spatial_id <= structure::max_spatial_id(layers));
            }
            assert(sizes.len() == 2 * 16 * (templates[highest].layer_ids.spatial_id + 1));
            lemma_bit(bits, pos, true);
            lemma_holds(bits, pos + 1, sizes);
            lemma_holds_both(bits, pos, seq![true], sizes);
            Some(sizes)
        } else {
            lemma_bit(bits, pos, false);
            None
        },
        None => None,
    }
}

} // verus!
