//! Where a mask stands in a raw descriptor, and which fields stand around it.
use crate::descriptor_roundtrip;
use crate::encoding;
use crate::encoding::{CarriedStructure, CustomFields, RawText};
use crate::fields;
use crate::laws;
use crate::locality;
use crate::mask;
use crate::parser;
use crate::parser::DescriptorFlags;
use crate::roundtrip;
use crate::structure;
use crate::structure::{StructureView, TemplateView};
use crate::structure_roundtrip;
use vstd::prelude::*;

verus! {

/// A structure with so many decode targets and chains, and nothing else.
spec fn bare_structure(num_decode_targets: nat, num_chains: Option<nat>) -> StructureView {
    StructureView {
        structure_id: 0,
        num_decode_targets: num_decode_targets as u8,
        num_chains: match num_chains {
            Some(count) => count as u8,
            None => 0,
        },
        decode_target_protected_by_chain: Seq::empty(),
        decode_target_layers: Seq::empty(),
        templates: Seq::empty(),
    }
}

/// A template that says nothing.
spec fn bare_template() -> TemplateView {
    TemplateView {
        layer_ids: structure::base_layer(),
        decode_target_indications: Seq::empty(),
        frame_diffs: Seq::empty(),
        chain_diffs: Seq::empty(),
    }
}

/// Custom fields that were written end where their text ends.
proof fn lemma_custom_end(
    bits: Seq<bool>,
    pos: int,
    known: DescriptorFlags,
    custom: CustomFields,
    num_decode_targets: nat,
    num_chains: Option<nat>,
)
    requires
        num_decode_targets <= 32,
        num_chains matches Some(count) ==> count <= 32,
        descriptor_roundtrip::announced(known, custom),
        encoding::custom_fits(custom, num_decode_targets, num_chains),
        roundtrip::holds_at(bits, pos, encoding::custom_text(custom)),
    ensures
        mask::frame_end(bits, pos, known, num_decode_targets, num_chains) == Some(
            pos + encoding::custom_text(custom).len(),
        ),
{
    let structure = bare_structure(num_decode_targets, num_chains);
    let template = bare_template();
    roundtrip::lemma_holds(bits, pos, encoding::custom_text(custom));
    descriptor_roundtrip::lemma_custom_read(bits, pos, known, custom, structure, template);
    laws::lemma_frame_end_known(bits, pos, known, structure, template, num_chains);
}

/// Fields of a frame whose end is found were written so.
proof fn lemma_custom_found(
    bits: Seq<bool>,
    pos: int,
    known: DescriptorFlags,
    num_decode_targets: nat,
    num_chains: Option<nat>,
) -> (custom: CustomFields)
    requires
        0 <= pos <= bits.len(),
        num_decode_targets <= 32,
        num_chains matches Some(count) ==> count <= 32,
        known.custom_chains ==> num_chains is Some,
        mask::frame_end(bits, pos, known, num_decode_targets, num_chains) is Some,
    ensures
        descriptor_roundtrip::announced(known, custom),
        encoding::custom_fits(custom, num_decode_targets, num_chains),
        roundtrip::holds_at(bits, pos, encoding::custom_text(custom)),
{
    let structure = bare_structure(num_decode_targets, num_chains);
    let template = bare_template();
    let dtis_end = if known.custom_dtis {
        pos + 2 * num_decode_targets
    } else {
        pos
    };
    locality::lemma_fields_end(bits, pos, num_decode_targets, 2);
    fields::lemma_custom_frame_diffs_end(bits, dtis_end);
    let fdiffs_end = if known.custom_fdiffs {
        (fields::custom_frame_diffs(bits, dtis_end)->0).1
    } else {
        dtis_end
    };
    locality::lemma_fields_end(bits, fdiffs_end, structure.num_chains as nat, 8);
    descriptor_roundtrip::lemma_custom_written(bits, pos, known, structure, template)
}

/// The number of chains of a carried structure.
pub open spec fn carried_chains(carried: Option<CarriedStructure>) -> Option<nat> {
    match carried {
        Some(carried) => Some(carried.structure.num_chains as nat),
        None => None,
    }
}

/// The mask bits of a raw descriptor.
pub open spec fn mask_bits(raw: RawText) -> Seq<bool> {
    match raw.mask {
        Some(mask) => mask,
        None => Seq::empty(),
    }
}

/// The flags of a raw descriptor.
pub open spec fn raw_flags(raw: RawText) -> DescriptorFlags {
    DescriptorFlags {
        structure: raw.carried is Some,
        mask: raw.mask is Some,
        custom_dtis: raw.custom.indications is Some,
        custom_fdiffs: raw.custom.frame_diffs is Some,
        custom_chains: raw.chains,
    }
}

/// The parts of a raw descriptor stand one behind the other.
pub proof fn lemma_raw_parts(bits: Seq<bool>, raw: RawText, num_decode_targets: nat)
    requires
        encoding::is_raw(bits, raw, num_decode_targets),
    ensures
        bits.len() >= 29,
        ({
            let flags = raw_flags(raw);
            let offset = 29int + encoding::carried_text(raw.carried).len();
            &&& encoding::before_mask(raw, raw.mask is Some).len() == offset
            &&& roundtrip::holds_at(
                bits,
                24,
                encoding::flags_text(
                    flags.structure,
                    flags.mask,
                    flags.custom_dtis,
                    flags.custom_fdiffs,
                    flags.custom_chains,
                ),
            )
            &&& roundtrip::holds_at(bits, 29, encoding::carried_text(raw.carried))
            &&& roundtrip::holds_at(
                bits,
                offset + mask_bits(raw).len(),
                encoding::custom_text(raw.custom),
            )
        }),
{
    let flags = raw_flags(raw);
    let five = encoding::flags_text(
        flags.structure,
        flags.mask,
        flags.custom_dtis,
        flags.custom_fdiffs,
        flags.custom_chains,
    );
    let carried = encoding::carried_text(raw.carried);
    let t2 = raw.mandatory + five;
    let t3 = t2 + carried;
    let t4 = t3 + mask_bits(raw);
    let custom = encoding::custom_text(raw.custom);
    assert(bits == t4 + custom + raw.rest);
    assert(bits.subrange(0, bits.len() as int) =~= bits);
    roundtrip::lemma_holds(bits, 0, bits);
    roundtrip::lemma_holds_both(bits, 0, t4 + custom, raw.rest);
    roundtrip::lemma_holds_both(bits, 0, t4, custom);
    roundtrip::lemma_holds_both(bits, 0, t3, mask_bits(raw));
    roundtrip::lemma_holds_both(bits, 0, t2, carried);
    roundtrip::lemma_holds_both(bits, 0, raw.mandatory, five);
}

/// In a raw descriptor the mask has its place behind the structure, and the fields behind
/// it fit.
pub proof fn lemma_raw_read(bits: Seq<bool>, raw: RawText, num_decode_targets: nat)
    requires
        1 <= num_decode_targets <= 32,
        encoding::is_raw(bits, raw, num_decode_targets),
    ensures
        bits.len() >= 29,
        ({
            let flags = raw_flags(raw);
            let num_chains = carried_chains(raw.carried);
            let offset = 29int + encoding::carried_text(raw.carried).len();
            &&& encoding::before_mask(raw, raw.mask is Some).len() == offset
            &&& parser::flags_of(bits) == Some((flags, 29int))
            &&& mask::mask_place(bits, 29, flags, num_decode_targets) == Some((offset, num_chains))
            &&& mask::frame_end(
                bits,
                offset + mask_bits(raw).len(),
                mask::known_flags(flags, num_chains),
                num_decode_targets,
                num_chains,
            ) == Some(offset + mask_bits(raw).len() + encoding::custom_text(raw.custom).len())
        }),
{
    let flags = raw_flags(raw);
    let num_chains = carried_chains(raw.carried);
    let offset = 29int + encoding::carried_text(raw.carried).len();
    lemma_raw_parts(bits, raw, num_decode_targets);
    descriptor_roundtrip::lemma_flags(bits, flags);
    if let Some(carried) = raw.carried {
        structure_roundtrip::lemma_structure_read(
            bits,
            29,
            carried.structure,
            carried.resolutions,
        );
    }
    lemma_custom_end(
        bits,
        offset + mask_bits(raw).len(),
        mask::known_flags(flags, num_chains),
        raw.custom,
        num_decode_targets,
        num_chains,
    );
}

/// Exchanging the part behind `head`.
proof fn lemma_exchange_part(
    head: Seq<bool>,
    part: Seq<bool>,
    other: Seq<bool>,
    a: Seq<bool>,
    b: Seq<bool>,
)
    ensures
        ({
            let all = head + part + a + b;
            let len = head.len() as int;
            all.take(len) + other + all.skip(len + part.len()) == head + other + a + b
        }),
{
    let all = head + part + a + b;
    let len = head.len() as int;
    assert(all.take(len) =~= head);
    assert(all.skip(len + part.len()) =~= a + b);
    assert(head + other + (a + b) =~= head + other + a + b);
}

/// Setting a bit of `head` and putting a part in behind it.
proof fn lemma_insert_part(
    head: Seq<bool>,
    bit: int,
    part: Seq<bool>,
    a: Seq<bool>,
    b: Seq<bool>,
)
    requires
        0 <= bit < head.len(),
    ensures
        ({
            let marked = (head + a + b).update(bit, true);
            let len = head.len() as int;
            marked.take(len) + part + marked.skip(len) == head.update(bit, true) + part + a + b
        }),
{
    let marked = (head + a + b).update(bit, true);
    let len = head.len() as int;
    assert(marked.take(len) =~= head.update(bit, true));
    assert(marked.skip(len) =~= a + b);
    assert(head.update(bit, true) + part + (a + b) =~= head.update(bit, true) + part + a + b);
}

/// The second of the five flags tells whether a descriptor carries a mask.
proof fn lemma_marked_head(raw: RawText)
    requires
        raw.mandatory.len() == 24,
    ensures
        encoding::before_mask(raw, true) == encoding::before_mask(raw, false).update(25, true),
        encoding::before_mask(raw, false).len() >= 29,
{
    assert(encoding::before_mask(raw, true) =~= encoding::before_mask(raw, false).update(25, true));
}

/// What of a raw descriptor without a mask is kept when a mask is put in.
proof fn lemma_raw_kept(bits: Seq<bool>, raw: RawText, num_decode_targets: nat)
    requires
        1 <= num_decode_targets <= 32,
        encoding::is_raw(bits, raw, num_decode_targets),
        raw.mask is None,
    ensures
        mask::kept_bits(
            bits,
            encoding::before_mask(raw, false).len() as int,
            raw_flags(raw),
            num_decode_targets,
            carried_chains(raw.carried),
        ) == encoding::before_mask(raw, false) + encoding::custom_text(raw.custom) + if raw.chains
            && raw.carried is None {
            raw.rest
        } else {
            Seq::empty()
        },
{
    let head = encoding::before_mask(raw, false);
    let custom = encoding::custom_text(raw.custom);
    let num_chains = carried_chains(raw.carried);
    lemma_raw_read(bits, raw, num_decode_targets);
    assert(head + Seq::<bool>::empty() =~= head);
    assert(bits == head + custom + raw.rest);
    if !(raw.chains && raw.carried is None) {
        assert(mask::known_flags(raw_flags(raw), num_chains) == raw_flags(raw));
        assert(bits.take((head.len() + custom.len()) as int) =~= head + custom);
        assert(head + custom + Seq::<bool>::empty() =~= head + custom);
    }
}

/// What a raw descriptor's bits are after a mask was written into it.
pub proof fn lemma_raw_rewritten(
    bits: Seq<bool>,
    raw: RawText,
    num_decode_targets: nat,
    value: nat,
)
    requires
        1 <= num_decode_targets <= 32,
        encoding::is_raw(bits, raw, num_decode_targets),
    ensures
        mask::rewritten_bits(bits, num_decode_targets, value) == Some(
            encoding::before_mask(raw, true) + encoding::number(value, num_decode_targets)
                + encoding::custom_text(raw.custom) + if raw.mask is Some || raw.chains
                && raw.carried is None {
                raw.rest
            } else {
                Seq::empty()
            },
        ),
{
    let head = encoding::before_mask(raw, raw.mask is Some);
    let custom = encoding::custom_text(raw.custom);
    let new_bits = encoding::number(value, num_decode_targets);
    lemma_raw_read(bits, raw, num_decode_targets);
    roundtrip::lemma_number(value, num_decode_targets);
    if raw.mask is Some {
        lemma_exchange_part(head, mask_bits(raw), new_bits, custom, raw.rest);
    } else {
        let behind = if raw.chains && raw.carried is None {
            raw.rest
        } else {
            Seq::empty()
        };
        lemma_raw_kept(bits, raw, num_decode_targets);
        lemma_marked_head(raw);
        lemma_insert_part(head, 25, new_bits, custom, behind);
    }
}

/// Bits, cut into four.
proof fn lemma_cut(bits: Seq<bool>, i: int, j: int, k: int)
    requires
        0 <= i <= j <= k <= bits.len(),
    ensures
        bits == bits.take(i) + bits.subrange(i, j) + bits.subrange(j, k) + bits.skip(k),
{
    assert(bits =~= bits.take(i) + bits.subrange(i, j) + bits.subrange(j, k) + bits.skip(k));
}

/// What stands before the place of the mask was written so.
proof fn lemma_head_written(bits: Seq<bool>, num_decode_targets: nat) -> (carried: Option<
    CarriedStructure,
>)
    requires
        bits.len() > 24,
        parser::flags_of(bits) is Some,
        mask::mask_place(bits, 29, (parser::flags_of(bits)->0).0, num_decode_targets) is Some,
    ensures
        ({
            let flags = (parser::flags_of(bits)->0).0;
            let (offset, num_chains) = mask::mask_place(bits, 29, flags, num_decode_targets)->0;
            let five = encoding::flags_text(
                flags.structure,
                flags.mask,
                flags.custom_dtis,
                flags.custom_fdiffs,
                flags.custom_chains,
            );
            &&& carried is Some == flags.structure
            &&& encoding::carried_fits(carried)
            &&& carried matches Some(c) ==> c.structure.num_decode_targets == num_decode_targets
            &&& num_chains == carried_chains(carried)
            &&& 29 <= offset <= bits.len()
            &&& bits.take(offset) == bits.take(24) + five + encoding::carried_text(carried)
        }),
{
    let flags = (parser::flags_of(bits)->0).0;
    let offset = (mask::mask_place(bits, 29, flags, num_decode_targets)->0).0;
    let five = encoding::flags_text(
        flags.structure,
        flags.mask,
        flags.custom_dtis,
        flags.custom_fdiffs,
        flags.custom_chains,
    );
    descriptor_roundtrip::lemma_flags(bits, flags);
    roundtrip::lemma_holds(bits, 24, five);
    assert(bits.take(29) =~= bits.take(24) + bits.subrange(24, 29));
    if flags.structure {
        let resolutions = structure_roundtrip::lemma_structure_written(bits, 29);
        locality::lemma_structure_end(bits, 29);
        let structure = (structure::structure_at(bits, 29)->0).0;
        roundtrip::lemma_holds(bits, 29, encoding::structure_text(structure, resolutions));
        assert(bits.take(offset) =~= bits.take(29) + bits.subrange(29, offset));
        Some(CarriedStructure { structure, resolutions })
    } else {
        assert(bits.take(29) + Seq::<bool>::empty() =~= bits.take(29));
        None
    }
}

/// A raw descriptor into which a mask can be written is made of these parts.
pub proof fn lemma_raw_written(bits: Seq<bool>, num_decode_targets: nat, value: nat) -> (raw:
    RawText)
    requires
        1 <= num_decode_targets <= 32,
        bits.len() > 24,
        mask::rewritten_bits(bits, num_decode_targets, value) is Some,
    ensures
        encoding::is_raw(bits, raw, num_decode_targets),
{
    let flags = (parser::flags_of(bits)->0).0;
    let (offset, num_chains) = mask::mask_place(bits, 29, flags, num_decode_targets)->0;
    let carried = lemma_head_written(bits, num_decode_targets);
    let start = if flags.mask {
        offset + num_decode_targets
    } else {
        offset
    };
    let known = mask::known_flags(flags, num_chains);
    let custom = lemma_custom_found(bits, start, known, num_decode_targets, num_chains);
    let text = encoding::custom_text(custom);
    roundtrip::lemma_holds(bits, start, text);
    lemma_cut(bits, offset, start, start + text.len());
    assert(!flags.mask ==> bits.subrange(offset, start) =~= Seq::empty());
    RawText {
        mandatory: bits.take(24),
        carried,
        mask: if flags.mask {
            Some(bits.subrange(offset, start))
        } else {
            None
        },
        custom,
        chains: flags.custom_chains,
        rest: bits.skip(start + text.len()),
    }
}

} // verus!
