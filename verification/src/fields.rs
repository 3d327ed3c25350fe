//! The fields that a descriptor is made of: fixed-width numbers, flags,
//! non-symmetric numbers and lists of them.
//!
//! A field that starts at bit `pos` of a bit sequence is described by the value it
//! holds together with the position behind it, or by `None` where the bits that
//! follow hold no such field.
use crate::bits;
use crate::reader::BitReader;
use vstd::arithmetic::power2;
use vstd::prelude::*;

verus! {

/// The number in the `width` bits from `pos` on.
pub open spec fn field(bits: Seq<bool>, pos: int, width: nat) -> Option<(nat, int)> {
    if 0 <= pos && pos + width <= bits.len() {
        Some((bits::bits_value(bits.subrange(pos, pos + width)), pos + width))
    } else {
        None
    }
}

/// The number in the `width` bits from `pos` on, for a width of at most eight.
pub open spec fn field_u8(bits: Seq<bool>, pos: int, width: nat) -> Option<(u8, int)> {
    match field(bits, pos, width) {
        Some((value, end)) => Some((value as u8, end)),
        None => None,
    }
}

/// The single bit at `pos`.
pub open spec fn flag(bits: Seq<bool>, pos: int) -> Option<(bool, int)> {
    if 0 <= pos < bits.len() {
        Some((bits[pos], pos + 1))
    } else {
        None
    }
}

/// A list that starts with `head` and goes on with the list `tail`, if there is
/// one.
pub open spec fn prepend<T>(head: Seq<T>, tail: Option<(Seq<T>, int)>) -> Option<(Seq<T>, int)> {
    match tail {
        Some((items, end)) => Some((head + items, end)),
        None => None,
    }
}

/// `count` fields of one kind, one behind the other.
pub open spec fn repeat<T>(
    item: spec_fn(int) -> Option<(T, int)>,
    count: nat,
    pos: int,
) -> Option<(Seq<T>, int)>
    decreases count,
{
    if count == 0 {
        Some((Seq::empty(), pos))
    } else {
        match item(pos) {
            Some((value, next)) => prepend(seq![value], repeat(item, (count - 1) as nat, next)),
            None => None,
        }
    }
}

/// The kind of field that is `width` bits wide.
pub open spec fn field_item(bits: Seq<bool>, width: nat) -> spec_fn(int) -> Option<(u8, int)> {
    |pos: int| field_u8(bits, pos, width)
}

/// `count` numbers of `width` bits each.
pub open spec fn fields(bits: Seq<bool>, pos: int, count: nat, width: nat) -> Option<
    (Seq<u8>, int),
> {
    repeat(field_item(bits, width), count, pos)
}

/// The kind of field that is a list of `count` numbers of `width` bits each.
pub open spec fn fields_item(bits: Seq<bool>, count: nat, width: nat) -> spec_fn(int) -> Option<
    (Seq<u8>, int),
> {
    |pos: int| fields(bits, pos, count, width)
}

/// How many bits it takes to write `n`.
pub open spec fn bit_width_of(n: nat) -> nat
    decreases n,
{
    if n == 0 {
        0
    } else {
        1 + bit_width_of(n / 2)
    }
}

/// A number below `num_values` in the non-symmetric code: with `w` the bit width
/// of `num_values`, the `2^w - num_values` smallest numbers take `w - 1` bits and
/// the others take `w` bits.
pub open spec fn non_symmetric(bits: Seq<bool>, pos: int, num_values: nat) -> Option<(nat, int)> {
    if num_values == 1 {
        Some((0, pos))
    } else {
        let width = bit_width_of(num_values);
        let short_codes = power2::pow2(width) - num_values;
        match field(bits, pos, (width - 1) as nat) {
            Some((value, next)) => if value < short_codes {
                Some((value, next))
            } else {
                match field(bits, next, 1) {
                    Some((bit, end)) => Some(((2 * value + bit - short_codes) as nat, end)),
                    None => None,
                }
            },
            None => None,
        }
    }
}

/// The kind of field that is a non-symmetric number below `num_values`.
pub open spec fn non_symmetric_item(bits: Seq<bool>, num_values: nat) -> spec_fn(int) -> Option<
    (u8, int),
> {
    |pos: int|
        match non_symmetric(bits, pos, num_values) {
            Some((value, end)) => Some((value as u8, end)),
            None => None,
        }
}

/// The frame differences of a packet: each is announced by two bits that give its
/// size in groups of four bits and is one more than the number in those groups. A
/// size of zero ends the list.
pub open spec fn custom_frame_diffs(bits: Seq<bool>, pos: int) -> Option<(Seq<u16>, int)>
    decreases bits.len() - pos,
{
    match field(bits, pos, 2) {
        Some((size, next)) => if size == 0 {
            Some((Seq::empty(), next))
        } else {
            match field(bits, next, 4 * size) {
                Some((value, after)) => prepend(
                    seq![(value + 1) as u16],
                    custom_frame_diffs(bits, after),
                ),
                None => None,
            }
        },
        None => None,
    }
}

/// The frame differences of a template: each is announced by a set bit and is one
/// more than the number in the four bits that follow. A clear bit ends the list.
pub open spec fn template_frame_diffs(bits: Seq<bool>, pos: int) -> Option<(Seq<u16>, int)>
    decreases bits.len() - pos,
{
    match flag(bits, pos) {
        Some((follow, next)) => if !follow {
            Some((Seq::empty(), next))
        } else {
            match field(bits, next, 4) {
                Some((value, after)) => prepend(
                    seq![(value + 1) as u16],
                    template_frame_diffs(bits, after),
                ),
                None => None,
            }
        },
        None => None,
    }
}

/// The kind of field that is a template's list of frame differences.
pub open spec fn template_frame_diffs_item(bits: Seq<bool>) -> spec_fn(int) -> Option<
    (Seq<u16>, int),
> {
    |pos: int| template_frame_diffs(bits, pos)
}

/// A field of `width` bits holds a number below two to the power of `width`.
pub proof fn lemma_field_bound(bits: Seq<bool>, pos: int, width: nat)
    ensures
        field(bits, pos, width) matches Some((value, end)) ==> value < power2::pow2(width),
{
    if field(bits, pos, width) is Some {
        bits::lemma_bits_value_bound(bits.subrange(pos, pos + width));
    }
}

/// A field of at most eight bits holds a number below two to the power of its
/// width.
pub proof fn lemma_field_u8_bound(bits: Seq<bool>, pos: int, width: nat)
    requires
        width <= 8,
    ensures
        field_u8(bits, pos, width) matches Some((value, end)) ==> value < power2::pow2(width),
{
    lemma_field_bound(bits, pos, width);
    power2::lemma2_to64();
    if width < 8 {
        power2::lemma_pow2_strictly_increases(width, 8);
    }
}

/// A flag is a field of one bit.
pub proof fn lemma_flag_is_field(bits: Seq<bool>, pos: int)
    ensures
        field(bits, pos, 1) == match flag(bits, pos) {
            Some((set, end)) => Some((if set { 1nat } else { 0nat }, end)),
            None => None,
        },
{
    if 0 <= pos < bits.len() {
        let one = bits.subrange(pos, pos + 1);
        assert(one.drop_last() =~= Seq::empty());
        assert(one.last() == bits[pos]);
        assert(bits::bits_value(one.drop_last()) == 0);
    }
}

/// A positive number lies between the two powers of two that its width names.
pub proof fn lemma_bit_width_of(n: nat)
    requires
        n > 0,
    ensures
        bit_width_of(n) > 0,
        power2::pow2((bit_width_of(n) - 1) as nat) <= n < power2::pow2(bit_width_of(n)),
    decreases n,
{
    power2::lemma2_to64();
    let half = n / 2;
    if half == 0 {
        assert(n == 1);
        assert(bit_width_of(half) == 0);
    } else {
        lemma_bit_width_of(half);
        power2::lemma_pow2_unfold(bit_width_of(n));
        power2::lemma_pow2_unfold(bit_width_of(half));
    }
}

/// The width of a number below a power of two is at most the exponent.
pub proof fn lemma_bit_width_of_bound(n: nat, exponent: nat)
    requires
        n < power2::pow2(exponent),
    ensures
        bit_width_of(n) <= exponent,
{
    if n > 0 && bit_width_of(n) > exponent {
        lemma_bit_width_of(n);
        if bit_width_of(n) - 1 > exponent {
            power2::lemma_pow2_strictly_increases(exponent, (bit_width_of(n) - 1) as nat);
        }
    }
}

/// A non-symmetric number is below the number of values that it is coded for.
pub proof fn lemma_non_symmetric_bound(bits: Seq<bool>, pos: int, num_values: nat)
    requires
        num_values > 0,
    ensures
        non_symmetric(bits, pos, num_values) matches Some((value, end)) ==> value < num_values,
{
    if num_values > 1 {
        let width = bit_width_of(num_values);
        lemma_bit_width_of(num_values);
        power2::lemma_pow2_unfold(width);
        if let Some((value, next)) = field(bits, pos, (width - 1) as nat) {
            lemma_field_bound(bits, pos, (width - 1) as nat);
            lemma_field_bound(bits, next, 1);
            power2::lemma2_to64();
        }
    }
}

/// What holds of an item wherever it stands holds of each item of a repeated
/// field.
pub proof fn lemma_repeat_all<T>(
    item: spec_fn(int) -> Option<(T, int)>,
    count: nat,
    pos: int,
    good: spec_fn(T) -> bool,
)
    requires
        forall|p: int| (#[trigger] item(p)) matches Some((value, end)) ==> good(value),
    ensures
        repeat(item, count, pos) matches Some((items, end)) ==> items.len() == count && forall|
            i: int,
        |
            0 <= i < items.len() ==> good(#[trigger] items[i]),
    decreases count,
{
    if count > 0 {
        if let Some((value, next)) = item(pos) {
            lemma_repeat_all(item, (count - 1) as nat, next, good);
            if let Some((items, end)) = repeat(item, count, pos) {
                let rest = (repeat(item, (count - 1) as nat, next)->0).0;
                assert forall|i: int| 0 <= i < items.len() implies good(#[trigger] items[i]) by {
                    if i > 0 {
                        assert(items[i] == rest[i - 1]);
                    }
                }
            }
        }
    }
}

/// Each list of a repeated list of numbers has the length that was asked for, and
/// its numbers fit their width.
pub proof fn lemma_repeat_fields_len(
    bits: Seq<bool>,
    count: nat,
    width: nat,
    lists: nat,
    pos: int,
)
    requires
        width <= 8,
    ensures
        repeat(fields_item(bits, count, width), lists, pos) matches Some((items, end))
            ==> items.len() == lists && forall|i: int|
            0 <= i < items.len() ==> (#[trigger] items[i]).len() == count && forall|j: int|
                0 <= j < count ==> #[trigger] items[i][j] < power2::pow2(width),
{
    let good = |items: Seq<u8>|
        items.len() == count && forall|j: int|
            0 <= j < count ==> #[trigger] items[j] < power2::pow2(width);
    let item = fields_item(bits, count, width);
    assert forall|p: int| (#[trigger] item(p)) matches Some((value, end)) ==> good(value) by {
        lemma_fields_bound(bits, p, count, width);
    }
    lemma_repeat_all(item, lists, pos, good);
    if let Some((items, end)) = repeat(item, lists, pos) {
        assert forall|i: int| 0 <= i < items.len() implies (#[trigger] items[i]).len() == count
            && forall|j: int|
            0 <= j < count ==> #[trigger] items[i][j] < power2::pow2(width) by {
            assert(good(items[i]));
        }
    }
}

/// A list of numbers has the length that was asked for, and its numbers fit their
/// width.
pub proof fn lemma_fields_bound(bits: Seq<bool>, pos: int, count: nat, width: nat)
    requires
        width <= 8,
    ensures
        fields(bits, pos, count, width) matches Some((items, end)) ==> items.len() == count
            && forall|j: int| 0 <= j < count ==> #[trigger] items[j] < power2::pow2(width),
{
    let good = |value: u8| value < power2::pow2(width);
    let item = field_item(bits, width);
    assert forall|p: int| (#[trigger] item(p)) matches Some((value, end)) ==> good(value) by {
        lemma_field_u8_bound(bits, p, width);
    }
    lemma_repeat_all(item, count, pos, good);
    if let Some((items, end)) = repeat(item, count, pos) {
        assert forall|j: int| 0 <= j < count implies #[trigger] items[j] < power2::pow2(width) by {
            assert(good(items[j]));
        }
    }
}

/// The frame differences of a template lie between 1 and 16.
pub proof fn lemma_template_frame_diffs_bound(bits: Seq<bool>, pos: int)
    ensures
        template_frame_diffs(bits, pos) matches Some((diffs, end)) ==> forall|i: int|
            0 <= i < diffs.len() ==> 1 <= #[trigger] diffs[i] <= 16,
    decreases bits.len() - pos,
{
    if let Some((diffs, end)) = template_frame_diffs(bits, pos) {
        let (follow, next) = flag(bits, pos)->0;
        if follow {
            let (value, after) = field(bits, next, 4)->0;
            lemma_field_bound(bits, next, 4);
            power2::lemma2_to64();
            lemma_template_frame_diffs_bound(bits, after);
            let rest = (template_frame_diffs(bits, after)->0).0;
            assert forall|i: int| 0 <= i < diffs.len() implies 1 <= #[trigger] diffs[i] <= 16 by {
                if i > 0 {
                    assert(diffs[i] == rest[i - 1]);
                }
            }
        }
    }
}

/// The frame differences that a packet carries lie between 1 and 4096.
pub proof fn lemma_custom_frame_diffs_bound(bits: Seq<bool>, pos: int)
    ensures
        custom_frame_diffs(bits, pos) matches Some((diffs, end)) ==> forall|i: int|
            0 <= i < diffs.len() ==> 1 <= #[trigger] diffs[i] <= 4096,
    decreases bits.len() - pos,
{
    if let Some((diffs, end)) = custom_frame_diffs(bits, pos) {
        let (size, next) = field(bits, pos, 2)->0;
        if size != 0 {
            let (value, after) = field(bits, next, 4 * size)->0;
            power2::lemma2_to64();
            lemma_field_bound(bits, pos, 2);
            lemma_field_bound(bits, next, 4 * size);
            if size < 3 {
                power2::lemma_pow2_strictly_increases(4 * size, 12);
            }
            lemma_custom_frame_diffs_bound(bits, after);
            let rest = (custom_frame_diffs(bits, after)->0).0;
            assert forall|i: int| 0 <= i < diffs.len() implies 1 <= #[trigger] diffs[i]
                <= 4096 by {
                if i > 0 {
                    assert(diffs[i] == rest[i - 1]);
                }
            }
        }
    }
}

/// Custom frame differences end within the bits, behind where they start.
pub proof fn lemma_custom_frame_diffs_end(bits: Seq<bool>, pos: int)
    ensures
        custom_frame_diffs(bits, pos) matches Some((diffs, end)) ==> 0 <= pos < end <= bits.len(),
    decreases bits.len() - pos,
{
    if let Some((size, next)) = field(bits, pos, 2) {
        if size != 0 {
            if let Some((value, after)) = field(bits, next, 4 * size) {
                lemma_custom_frame_diffs_end(bits, after);
            }
        }
    }
}

/// Number of bits it takes to write `n`.
pub(crate) fn bit_width(n: u32) -> (width: u32)
    ensures
        width == bit_width_of(n as nat),
        n > 0 ==> power2::pow2((width - 1) as nat) <= n < power2::pow2(width as nat),
        width <= 32,
{
    let mut rest = n;
    let mut width: u32 = 0;
    proof {
        power2::lemma2_to64();
        lemma_bit_width_of_bound(n as nat, 32);
        if n > 0 {
            lemma_bit_width_of(n as nat);
        }
    }
    while rest != 0
        invariant
            width + bit_width_of(rest as nat) == bit_width_of(n as nat),
            bit_width_of(n as nat) <= 32,
        decreases rest,
    {
        assert(rest >> 1 == rest / 2) by (bit_vector);
        rest = rest >> 1;
        width += 1;
    }
    width
}

/// Reads a non-symmetric number below `num_values`.
pub(crate) fn read_non_symmetric(reader: &mut BitReader<'_>, num_values: u32) -> (r: Option<u32>)
    requires
        old(reader).wf(),
    ensures
        final(reader).wf(),
        final(reader).payload == old(reader).payload,
        r matches Some(value) ==> value < num_values,
        if 0 < num_values < 0x8000_0000 {
            match non_symmetric(old(reader).bits(), old(reader).pos(), num_values as nat) {
                Some((value, end)) => (r matches Some(v) && v == value && final(reader).pos()
                    == end),
                None => r is None,
            }
        } else {
            r is None && final(reader).pos() == old(reader).pos()
        },
{
    if num_values == 0 || num_values >= 0x8000_0000 {
        return None;
    }
    if num_values == 1 {
        return Some(0);
    }
    let width = bit_width(num_values);
    proof {
        power2::lemma2_to64();
        power2::lemma2_to64_rest();
        lemma_bit_width_of_bound(num_values as nat, 31);
        lemma_non_symmetric_bound(reader.bits(), reader.pos(), num_values as nat);
        power2::lemma_pow2_unfold(width as nat);
        if width < 2 {
            assert(width == 1);
        }
        if width < 31 {
            power2::lemma_pow2_strictly_increases(width as nat, 31);
        }
        vstd::bits::lemma_u32_shl_is_mul(1, width);
    }
    let num_min_bits_values: u32 = (1u32 << width) - num_values;
    let ghost start = reader.pos();
    let value = match reader.read_bits((width - 1) as usize) {
        Some(value) => value,
        None => {
            return None;
        },
    };
    proof {
        lemma_field_bound(reader.bits(), start, (width - 1) as nat);
    }
    let value: u32 = value as u32;
    if value < num_min_bits_values {
        return Some(value);
    }
    let ghost next = reader.pos();
    let bit = match reader.read_bits(1) {
        Some(bit) => bit,
        None => {
            return None;
        },
    };
    proof {
        lemma_field_bound(reader.bits(), next, 1);
    }
    Some(2 * value + bit as u32 - num_min_bits_values)
}

/// Reads `count` numbers of `width` bits each.
pub(crate) fn read_fields(reader: &mut BitReader<'_>, count: u8, width: usize) -> (r: Option<
    Vec<u8>,
>)
    requires
        old(reader).wf(),
        1 <= width <= 8,
    ensures
        final(reader).wf(),
        final(reader).payload == old(reader).payload,
        match fields(old(reader).bits(), old(reader).pos(), count as nat, width as nat) {
            Some((values, end)) => (r matches Some(v) && v@ == values && final(reader).pos()
                == end),
            None => r is None,
        },
{
    let mut values: Vec<u8> = Vec::with_capacity(count as usize);
    let mut index: u8 = 0;
    let ghost whole = fields(reader.bits(), reader.pos(), count as nat, width as nat);
    proof {
        lemma_prepend_empty(whole);
    }
    while index < count
        invariant
            index <= count,
            1 <= width <= 8,
            reader.wf(),
            reader.payload == old(reader).payload,
            whole == prepend(
                values@,
                fields(reader.bits(), reader.pos(), (count - index) as nat, width as nat),
            ),
            whole == fields(old(reader).bits(), old(reader).pos(), count as nat, width as nat),
        decreases count - index,
    {
        let ghost seen = values@;
        let ghost left = (count - index - 1) as nat;
        match reader.read_bits_u8(width) {
            Some(value) => {
                values.push(value);
                proof {
                    lemma_prepend_step(
                        seen,
                        value,
                        fields(reader.bits(), reader.pos(), left, width as nat),
                    );
                }
            },
            None => {
                return None;
            },
        }
        index += 1;
    }
    assert(values@ + Seq::<u8>::empty() =~= values@);
    Some(values)
}

/// Reads the frame differences that a packet carries itself.
pub(crate) fn parse_custom_frame_diffs(reader: &mut BitReader<'_>) -> (r: Option<Vec<u16>>)
    requires
        old(reader).wf(),
    ensures
        final(reader).wf(),
        final(reader).payload == old(reader).payload,
        match custom_frame_diffs(old(reader).bits(), old(reader).pos()) {
            Some((diffs, end)) => (r matches Some(v) && v@ == diffs && final(reader).pos() == end),
            None => r is None,
        },
{
    let mut frame_diffs: Vec<u16> = Vec::new();
    let ghost whole = custom_frame_diffs(reader.bits(), reader.pos());
    proof {
        lemma_prepend_empty(whole);
        power2::lemma2_to64();
    }
    loop
        invariant
            reader.wf(),
            reader.payload == old(reader).payload,
            whole == prepend(frame_diffs@, custom_frame_diffs(reader.bits(), reader.pos())),
            whole == custom_frame_diffs(old(reader).bits(), old(reader).pos()),
        decreases reader.bits().len() - reader.pos(),
    {
        let ghost start = reader.pos();
        let size = match reader.read_bits(2) {
            Some(size) => size,
            None => {
                return None;
            },
        };
        proof {
            power2::lemma2_to64();
            lemma_field_bound(reader.bits(), start, 2);
        }
        if size == 0 {
            assert(frame_diffs@ + Seq::<u16>::empty() =~= frame_diffs@);
            return Some(frame_diffs);
        }
        let ghost seen = frame_diffs@;
        let ghost next = reader.pos();
        let value = match reader.read_bits(size as usize * 4) {
            Some(value) => value,
            None => {
                return None;
            },
        };
        proof {
            lemma_field_bound(reader.bits(), next, 4 * size as nat);
            if size < 3 {
                power2::lemma_pow2_strictly_increases(4 * size as nat, 12);
            }
        }
        let diff: u16 = value as u16 + 1;
        frame_diffs.push(diff);
        proof {
            lemma_prepend_step(seen, diff, custom_frame_diffs(reader.bits(), reader.pos()));
        }
    }
}

/// Reads the frame differences of one template.
pub(crate) fn read_template_frame_diffs(reader: &mut BitReader<'_>) -> (r: Option<Vec<u16>>)
    requires
        old(reader).wf(),
    ensures
        final(reader).wf(),
        final(reader).payload == old(reader).payload,
        match template_frame_diffs(old(reader).bits(), old(reader).pos()) {
            Some((diffs, end)) => (r matches Some(v) && v@ == diffs && final(reader).pos() == end),
            None => r is None,
        },
{
    let mut frame_diffs: Vec<u16> = Vec::new();
    let ghost whole = template_frame_diffs(reader.bits(), reader.pos());
    proof {
        lemma_prepend_empty(whole);
    }
    loop
        invariant
            reader.wf(),
            reader.payload == old(reader).payload,
            whole == prepend(frame_diffs@, template_frame_diffs(reader.bits(), reader.pos())),
            whole == template_frame_diffs(old(reader).bits(), old(reader).pos()),
        decreases reader.bits().len() - reader.pos(),
    {
        let follow = match reader.read_bool() {
            Some(follow) => follow,
            None => {
                return None;
            },
        };
        if !follow {
            assert(frame_diffs@ + Seq::<u16>::empty() =~= frame_diffs@);
            return Some(frame_diffs);
        }
        let ghost seen = frame_diffs@;
        let ghost next = reader.pos();
        let value = match reader.read_bits(4) {
            Some(value) => value,
            None => {
                return None;
            },
        };
        proof {
            power2::lemma2_to64();
            lemma_field_bound(reader.bits(), next, 4);
        }
        let diff: u16 = value as u16 + 1;
        frame_diffs.push(diff);
        proof {
            lemma_prepend_step(seen, diff, template_frame_diffs(reader.bits(), reader.pos()));
        }
    }
}

/// Prepending nothing changes nothing.
pub proof fn lemma_prepend_empty<T>(tail: Option<(Seq<T>, int)>)
    ensures
        prepend(Seq::empty(), tail) == tail,
{
    if let Some((items, end)) = tail {
        assert(Seq::empty() + items =~= items);
    }
}

/// Moving an item from the front of the tail to the end of the head changes
/// nothing.
pub proof fn lemma_prepend_step<T>(head: Seq<T>, item: T, tail: Option<(Seq<T>, int)>)
    ensures
        prepend(head, prepend(seq![item], tail)) == prepend(head.push(item), tail),
{
    if let Some((items, end)) = tail {
        assert(head + (seq![item] + items) =~= head.push(item) + items);
    }
}

} // verus!
