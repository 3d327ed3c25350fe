//! What a descriptor says of one packet.
use vstd::arithmetic::power2;
use vstd::prelude::*;

verus! {

/// Temporal/spatial layer ids derived from dependency descriptor state.
#[derive(Debug, Clone, Copy, PartialEq, Eq)]
pub struct DependencyDescriptorLayerIds {
    pub temporal_id: u8,
    pub spatial_id: u8,
}

/// A frame's dependency-target indication for one decode target.
#[derive(Debug, Clone, Copy, PartialEq, Eq)]
pub enum DependencyDescriptorDecodeTargetIndication {
    NotPresent,
    Discardable,
    Switch,
    Required,
}

/// Wire value of an indication for a decode target that a frame is not part of.
pub const DTI_NOT_PRESENT: u8 = 0;

/// Wire value of an indication for a decode target that can be switched to at a
/// frame.
pub const DTI_SWITCH: u8 = 2;

/// The indication that a wire value stands for.
pub open spec fn indication_of(value: u8) -> Option<DependencyDescriptorDecodeTargetIndication> {
    if value == 0 {
        Some(DependencyDescriptorDecodeTargetIndication::NotPresent)
    } else if value == 1 {
        Some(DependencyDescriptorDecodeTargetIndication::Discardable)
    } else if value == 2 {
        Some(DependencyDescriptorDecodeTargetIndication::Switch)
    } else if value == 3 {
        Some(DependencyDescriptorDecodeTargetIndication::Required)
    } else {
        None
    }
}

/// The indications that a list of wire values stands for, if each value stands for
/// one.
pub open spec fn indications_of(values: Seq<u8>) -> Option<
    Seq<DependencyDescriptorDecodeTargetIndication>,
> {
    if forall|i: int| 0 <= i < values.len() ==> indication_of(#[trigger] values[i]) is Some {
        Some(Seq::new(values.len(), |i: int| indication_of(values[i])->0))
    } else {
        None
    }
}

impl DependencyDescriptorDecodeTargetIndication {
    /// The indication that a wire value stands for.
    pub(crate) fn from_wire(value: u8) -> (r: Option<Self>)
        ensures
            r == indication_of(value),
    {
        match value {
            0 => Some(DependencyDescriptorDecodeTargetIndication::NotPresent),
            1 => Some(DependencyDescriptorDecodeTargetIndication::Discardable),
            2 => Some(DependencyDescriptorDecodeTargetIndication::Switch),
            3 => Some(DependencyDescriptorDecodeTargetIndication::Required),
            _ => None,
        }
    }
}

/// Maps each wire value to the indication that it stands for.
pub(crate) fn indications_from_wire(values: &[u8]) -> (r: Option<
    Vec<DependencyDescriptorDecodeTargetIndication>,
>)
    ensures
        match indications_of(values@) {
            Some(indications) => r matches Some(v) && v@ == indications,
            None => r is None,
        },
{
    let mut indications: Vec<DependencyDescriptorDecodeTargetIndication> = Vec::with_capacity(
        values.len(),
    );
    let mut index: usize = 0;
    while index < values.len()
        invariant
            index <= values@.len(),
            indications@.len() == index,
            forall|i: int|
                0 <= i < index ==> indication_of(#[trigger] values@[i]) == Some(indications@[i]),
        decreases values.len() - index,
    {
        match DependencyDescriptorDecodeTargetIndication::from_wire(values[index]) {
            Some(indication) => indications.push(indication),
            None => {
                return None;
            },
        }
        index += 1;
    }
    assert(indications@ =~= indications_of(values@)->0);
    Some(indications)
}

/// Verified dependency-descriptor metadata for one RTP packet.
///
/// A value is returned only when the descriptor resolves to an active decode target. Callers can
/// use `first_packet_in_frame` as a descriptor-backed frame boundary; it is not a claim that the
/// frame is an intra/key frame.
#[derive(Debug, Clone, PartialEq, Eq)]
pub struct DependencyDescriptorPacketMetadata {
    pub frame_number: u16,
    pub layer_ids: DependencyDescriptorLayerIds,
    pub first_packet_in_frame: bool,
    pub last_packet_in_frame: bool,
    /// Effective target activity after this packet, retained until a later descriptor updates it.
    pub active_decode_targets_mask: u32,
    /// One indication per decode-target index for this frame.
    pub decode_target_indications: Vec<DependencyDescriptorDecodeTargetIndication>,
    /// Maximum temporal/spatial layer for each decode-target index in the active structure.
    pub decode_target_layers: Vec<DependencyDescriptorLayerIds>,
    /// Frame-number differences to frames this frame depends on, from the template or custom data.
    pub frame_diffs: Vec<u16>,
    /// Per-chain frame-number differences, from the template or custom data.
    pub chain_diffs: Vec<u8>,
    /// Maps each decode-target index to the chain that protects it. Empty when no chains exist.
    pub decode_target_protected_by_chain: Vec<u8>,
    /// True when an active decode target marks this frame as a switching point.
    pub has_switching_decode_target: bool,
}

/// What packet metadata holds, with its lists as sequences.
#[verifier::ext_equal]
pub struct MetadataView {
    pub frame_number: u16,
    pub layer_ids: DependencyDescriptorLayerIds,
    pub first_packet_in_frame: bool,
    pub last_packet_in_frame: bool,
    pub active_decode_targets_mask: u32,
    pub decode_target_indications: Seq<DependencyDescriptorDecodeTargetIndication>,
    pub decode_target_layers: Seq<DependencyDescriptorLayerIds>,
    pub frame_diffs: Seq<u16>,
    pub chain_diffs: Seq<u8>,
    pub decode_target_protected_by_chain: Seq<u8>,
    pub has_switching_decode_target: bool,
}

impl View for DependencyDescriptorPacketMetadata {
    type V = MetadataView;

    open spec fn view(&self) -> MetadataView {
        MetadataView {
            frame_number: self.frame_number,
            layer_ids: self.layer_ids,
            first_packet_in_frame: self.first_packet_in_frame,
            last_packet_in_frame: self.last_packet_in_frame,
            active_decode_targets_mask: self.active_decode_targets_mask,
            decode_target_indications: self.decode_target_indications@,
            decode_target_layers: self.decode_target_layers@,
            frame_diffs: self.frame_diffs@,
            chain_diffs: self.chain_diffs@,
            decode_target_protected_by_chain: self.decode_target_protected_by_chain@,
            has_switching_decode_target: self.has_switching_decode_target,
        }
    }
}

/// Whether a mask marks decode target `target` as active.
pub open spec fn target_active(mask: u32, target: int) -> bool {
    (mask >> (target as u32)) & 1u32 == 1u32
}

/// Whether a frame with these indications (as wire values) is part of an active
/// decode target.
pub open spec fn any_active_target(indications: Seq<u8>, mask: u32) -> bool {
    exists|i: int|
        0 <= i < indications.len() && #[trigger] target_active(mask, i) && indications[i]
            != DTI_NOT_PRESENT
}

/// Whether an active decode target can be switched to at a frame with these
/// indications (as wire values).
pub open spec fn any_active_switch(indications: Seq<u8>, mask: u32) -> bool {
    exists|i: int|
        0 <= i < indications.len() && #[trigger] target_active(mask, i) && indications[i]
            == DTI_SWITCH
}

/// Whether a frame with these indications is part of an active decode target.
pub open spec fn frame_active(
    indications: Seq<DependencyDescriptorDecodeTargetIndication>,
    mask: u32,
) -> bool {
    exists|i: int|
        0 <= i < indications.len() && #[trigger] target_active(mask, i) && indications[i]
            != DependencyDescriptorDecodeTargetIndication::NotPresent
}

/// Whether an active decode target can be switched to at a frame with these
/// indications.
pub open spec fn frame_switchable(
    indications: Seq<DependencyDescriptorDecodeTargetIndication>,
    mask: u32,
) -> bool {
    exists|i: int|
        0 <= i < indications.len() && #[trigger] target_active(mask, i) && indications[i]
            == DependencyDescriptorDecodeTargetIndication::Switch
}

/// Wire values and the indications that they stand for tell the same of a frame.
pub proof fn lemma_wire_indications(values: Seq<u8>, mask: u32)
    ensures
        indications_of(values) matches Some(indications) ==> {
            &&& any_active_target(values, mask) == frame_active(indications, mask)
            &&& any_active_switch(values, mask) == frame_switchable(indications, mask)
        },
{
    if let Some(indications) = indications_of(values) {
        assert forall|i: int| 0 <= i < values.len() implies (values[i] == DTI_NOT_PRESENT) == (
        #[trigger] indications[i] == DependencyDescriptorDecodeTargetIndication::NotPresent) && (
        values[i] == DTI_SWITCH) == (indications[i]
            == DependencyDescriptorDecodeTargetIndication::Switch) by {
            assert(indication_of(values[i]) is Some);
        }
        if any_active_target(values, mask) {
            let i = choose|i: int|
                0 <= i < values.len() && #[trigger] target_active(mask, i) && values[i]
                    != DTI_NOT_PRESENT;
            assert(target_active(mask, i) && indications[i]
                != DependencyDescriptorDecodeTargetIndication::NotPresent);
        }
        if any_active_switch(values, mask) {
            let i = choose|i: int|
                0 <= i < values.len() && #[trigger] target_active(mask, i) && values[i]
                    == DTI_SWITCH;
            assert(target_active(mask, i) && indications[i]
                == DependencyDescriptorDecodeTargetIndication::Switch);
        }
        if frame_active(indications, mask) {
            let i = choose|i: int|
                0 <= i < indications.len() && #[trigger] target_active(mask, i) && indications[i]
                    != DependencyDescriptorDecodeTargetIndication::NotPresent;
            assert(target_active(mask, i) && values[i] != DTI_NOT_PRESENT);
        }
        if frame_switchable(indications, mask) {
            let i = choose|i: int|
                0 <= i < indications.len() && #[trigger] target_active(mask, i) && indications[i]
                    == DependencyDescriptorDecodeTargetIndication::Switch;
            assert(target_active(mask, i) && values[i] == DTI_SWITCH);
        }
    }
}

/// The mask that marks each of `num_decode_targets` decode targets as active. A
/// mask has room for 32 of them.
pub open spec fn all_active_mask(num_decode_targets: nat) -> nat {
    if num_decode_targets >= 32 {
        u32::MAX as nat
    } else {
        (power2::pow2(num_decode_targets) - 1) as nat
    }
}

/// The mask that marks every decode target as active.
pub(crate) fn all_decode_targets_active_mask(num_decode_targets: u8) -> (mask: u32)
    ensures
        mask == all_active_mask(num_decode_targets as nat),
{
    if num_decode_targets >= 32 {
        u32::MAX
    } else {
        proof {
            power2::lemma2_to64();
            power2::lemma_pow2_pos(num_decode_targets as nat);
            power2::lemma_pow2_strictly_increases(num_decode_targets as nat, 32);
            vstd::bits::lemma_u32_shl_is_mul(1, num_decode_targets as u32);
        }
        (1u32 << (num_decode_targets as u32)) - 1
    }
}

/// Whether bit `index` of a mask is set.
fn is_target_active(mask: u32, index: usize) -> (r: bool)
    requires
        index < 32,
    ensures
        r == target_active(mask, index as int),
{
    let shift: u32 = index as u32;
    assert((mask & (1u32 << shift) != 0) == ((mask >> shift) & 1u32 == 1u32)) by (bit_vector)
        requires
            shift < 32,
    ;
    mask & (1u32 << shift) != 0
}

/// Whether the frame is part of an active decode target.
pub(crate) fn has_any_active_decode_target(
    decode_target_indications: &[u8],
    active_mask: u32,
) -> (r: bool)
    requires
        decode_target_indications@.len() <= 32,
    ensures
        r == any_active_target(decode_target_indications@, active_mask),
{
    let mut index: usize = 0;
    while index < decode_target_indications.len()
        invariant
            index <= decode_target_indications@.len() <= 32,
            forall|i: int|
                0 <= i < index && #[trigger] target_active(active_mask, i)
                    ==> decode_target_indications@[i] == DTI_NOT_PRESENT,
        decreases decode_target_indications.len() - index,
    {
        if is_target_active(active_mask, index) && decode_target_indications[index]
            != DTI_NOT_PRESENT {
            return true;
        }
        index += 1;
    }
    false
}

/// Whether an active decode target can be switched to at the frame.
pub(crate) fn has_switching_decode_target(
    decode_target_indications: &[u8],
    active_mask: u32,
) -> (r: bool)
    requires
        decode_target_indications@.len() <= 32,
    ensures
        r == any_active_switch(decode_target_indications@, active_mask),
{
    let mut index: usize = 0;
    while index < decode_target_indications.len()
        invariant
            index <= decode_target_indications@.len() <= 32,
            forall|i: int|
                0 <= i < index && #[trigger] target_active(active_mask, i)
                    ==> decode_target_indications@[i] != DTI_SWITCH,
        decreases decode_target_indications.len() - index,
    {
        if is_target_active(active_mask, index) && decode_target_indications[index] == DTI_SWITCH {
            return true;
        }
        index += 1;
    }
    false
}

/// A mask marks no target beyond the first ones if and only if it is at most the
/// mask of all of these.
pub proof fn lemma_mask_within(mask: u32, all: u32, num_decode_targets: nat)
    requires
        all == all_active_mask(num_decode_targets),
    ensures
        (mask & !all == 0) == (mask <= all),
{
    if num_decode_targets >= 32 {
        assert(mask & !0xffff_ffffu32 == 0) by (bit_vector);
    } else {
        let count = num_decode_targets as u32;
        power2::lemma2_to64();
        power2::lemma_pow2_pos(num_decode_targets);
        power2::lemma_pow2_strictly_increases(num_decode_targets, 32);
        vstd::bits::lemma_u32_shl_is_mul(1, count);
        assert((mask & !all == 0) == (mask <= all)) by (bit_vector)
            requires
                count < 32,
                all == (1u32 << count) - 1,
        ;
    }
}

/// A mask that marks none of the targets from `count` on is below two to the power
/// of `count`.
proof fn lemma_no_high_targets(mask: u32, count: u32)
    requires
        count < 32,
        forall|target: int| count <= target < 32 ==> !#[trigger] target_active(mask, target),
    ensures
        mask <= (1u32 << count) - 1,
    decreases 32 - count,
{
    assert(!target_active(mask, count as int));
    if count < 31 {
        let more = (count + 1) as u32;
        lemma_no_high_targets(mask, more);
        assert(mask <= (1u32 << count) - 1) by (bit_vector)
            requires
                count < 31,
                more == count + 1,
                mask <= (1u32 << more) - 1,
                !((mask >> count) & 1u32 == 1u32),
        ;
    } else {
        assert(mask <= (1u32 << count) - 1) by (bit_vector)
            requires
                count == 31,
                !((mask >> count) & 1u32 == 1u32),
        ;
    }
}

/// A mask is at most the mask of all targets if and only if it marks no others.
pub proof fn lemma_mask_marks_no_others(mask: u32, num_decode_targets: nat)
    ensures
        mask <= all_active_mask(num_decode_targets) <==> forall|target: int|
            num_decode_targets <= target < 32 ==> !#[trigger] target_active(mask, target),
{
    if num_decode_targets < 32 {
        let count = num_decode_targets as u32;
        power2::lemma2_to64();
        power2::lemma_pow2_pos(num_decode_targets);
        power2::lemma_pow2_strictly_increases(num_decode_targets, 32);
        vstd::bits::lemma_u32_shl_is_mul(1, count);
        assert(all_active_mask(num_decode_targets) == (1u32 << count) - 1);
        if mask <= all_active_mask(num_decode_targets) {
            assert forall|target: int| num_decode_targets <= target < 32 implies !#[trigger]
            target_active(mask, target) by {
                let shift = target as u32;
                assert(!((mask >> shift) & 1u32 == 1u32)) by (bit_vector)
                    requires
                        count <= shift < 32,
                        mask <= (1u32 << count) - 1,
                ;
            }
        } else if forall|target: int|
            num_decode_targets <= target < 32 ==> !#[trigger] target_active(mask, target) {
            lemma_no_high_targets(mask, count);
        }
    }
}

/// The mask of all targets marks exactly the targets that exist.
pub proof fn lemma_all_active_mask(num_decode_targets: nat, mask: u32)
    requires
        mask == all_active_mask(num_decode_targets),
    ensures
        forall|target: int|
            0 <= target < 32 ==> #[trigger] target_active(mask, target) == (target
                < num_decode_targets),
{
    assert forall|target: int| 0 <= target < 32 implies #[trigger] target_active(mask, target) == (
    target < num_decode_targets) by {
        let shift = target as u32;
        if num_decode_targets >= 32 {
            assert((0xffff_ffffu32 >> shift) & 1u32 == 1u32) by (bit_vector)
                requires
                    shift < 32,
            ;
        } else {
            let count = num_decode_targets as u32;
            power2::lemma2_to64();
            power2::lemma_pow2_pos(num_decode_targets);
            power2::lemma_pow2_strictly_increases(num_decode_targets, 32);
            vstd::bits::lemma_u32_shl_is_mul(1, count);
            assert(mask == (1u32 << count) - 1);
            assert(((mask >> shift) & 1u32 == 1u32) == (shift < count)) by (bit_vector)
                requires
                    shift < 32,
                    count < 32,
                    mask == (1u32 << count) - 1,
            ;
        }
    }
}

} // verus!
