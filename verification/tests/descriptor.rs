use dependency_descriptor::{
    replace_or_inject_active_decode_target_mask, DependencyDescriptorDecodeTargetIndication,
    DependencyDescriptorLayerIds, DependencyDescriptorPacketMetadata, DependencyDescriptorParser,
    DEPENDENCY_DESCRIPTOR_URI,
};

#[derive(Default, Clone)]
struct Bits {
    bits: Vec<bool>,
}

impl Bits {
    fn push(mut self, value: u64, width: usize) -> Bits {
        for i in (0..width).rev() {
            self.bits.push((value >> i) & 1 == 1);
        }
        self
    }

    fn list(mut self, values: &[u64], width: usize) -> Bits {
        for value in values {
            self = self.push(*value, width);
        }
        self
    }

    fn bytes(&self) -> Vec<u8> {
        let mut out = vec![0u8; (self.bits.len() + 7) / 8];
        for (i, bit) in self.bits.iter().enumerate() {
            if *bit {
                out[i / 8] |= 0x80 >> (i % 8);
            }
        }
        out
    }
}

/// First and last packet of a frame.
fn mandatory(template_id: u64, frame_number: u64) -> Bits {
    Bits::default().push(3, 2).push(template_id, 6).push(frame_number, 16)
}

/// A structure with two decode targets, two templates and two chains.
fn two_targets(bits: Bits, structure_id: u64) -> Bits {
    bits.push(structure_id, 6)
        .push(1, 5)
        .list(&[1, 3], 2)
        .list(&[2, 3, 0, 1], 2)
        // Frame differences: [16] for the first template, none for the second.
        .push(1, 1)
        .push(15, 4)
        .push(0, 1)
        .push(0, 1)
        // Two chains, in the longer of the two codes for numbers below three.
        .push(3, 2)
        .list(&[1, 0], 1)
        .list(&[4, 5, 6, 7], 4)
        .push(0, 1)
}

fn structure_packet() -> Bits {
    two_targets(mandatory(0, 1).list(&[1, 0, 0, 0, 0], 1), 0)
}

fn layer(temporal_id: u8, spatial_id: u8) -> DependencyDescriptorLayerIds {
    DependencyDescriptorLayerIds { temporal_id, spatial_id }
}

fn primed() -> DependencyDescriptorParser {
    let mut parser = DependencyDescriptorParser::default();
    assert!(parser.parse_packet_metadata(&structure_packet().bytes()).is_some());
    parser
}

#[test]
fn structure_with_two_chains_is_read() {
    let mut parser = DependencyDescriptorParser::default();
    assert_eq!(
        parser.parse_packet_metadata(&structure_packet().bytes()),
        Some(DependencyDescriptorPacketMetadata {
            frame_number: 1,
            layer_ids: layer(0, 0),
            first_packet_in_frame: true,
            last_packet_in_frame: true,
            active_decode_targets_mask: 0b11,
            decode_target_indications: vec![
                DependencyDescriptorDecodeTargetIndication::Switch,
                DependencyDescriptorDecodeTargetIndication::Required,
            ],
            decode_target_layers: vec![layer(0, 0), layer(1, 0)],
            frame_diffs: vec![16],
            chain_diffs: vec![4, 5],
            decode_target_protected_by_chain: vec![1, 0],
            has_switching_decode_target: true,
        })
    );
}

#[test]
fn second_template_is_read() {
    let mut parser = primed();
    let metadata = parser.parse_packet_metadata(&mandatory(1, 0xabcd).bytes()).unwrap();
    assert_eq!(metadata.frame_number, 0xabcd);
    assert_eq!(metadata.layer_ids, layer(1, 0));
    assert_eq!(
        metadata.decode_target_indications,
        vec![
            DependencyDescriptorDecodeTargetIndication::NotPresent,
            DependencyDescriptorDecodeTargetIndication::Discardable,
        ]
    );
    assert_eq!(metadata.frame_diffs, Vec::<u16>::new());
    assert_eq!(metadata.chain_diffs, vec![6, 7]);
    assert!(!metadata.has_switching_decode_target);
}

#[test]
fn template_ids_wrap_around() {
    let mut parser = DependencyDescriptorParser::default();
    let first = two_targets(mandatory(63, 1).list(&[1, 0, 0, 0, 0], 1), 63);
    assert_eq!(parser.parse_layer_ids(&first.bytes()), Some(layer(0, 0)));
    assert_eq!(parser.parse_layer_ids(&mandatory(0, 2).bytes()), Some(layer(1, 0)));
    assert_eq!(parser.parse_layer_ids(&mandatory(1, 3).bytes()), None);
    assert_eq!(parser.parse_layer_ids(&mandatory(62, 3).bytes()), None);
}

#[test]
fn rejected_packet_leaves_state_alone() {
    let mut parser = primed();
    // A structure with one decode target, and a mask that makes it inactive.
    let rejected = mandatory(0, 2)
        .list(&[1, 1, 0, 0, 0], 1)
        .push(0, 6)
        .push(0, 5)
        .push(3, 2)
        .push(3, 2)
        .push(0, 1)
        .push(0, 1)
        .push(0, 1)
        .push(0, 1);
    assert_eq!(parser.parse_packet_metadata(&rejected.bytes()), None);
    let metadata = parser.parse_packet_metadata(&mandatory(0, 3).bytes()).unwrap();
    assert_eq!(metadata.active_decode_targets_mask, 0b11);
    assert_eq!(metadata.decode_target_layers.len(), 2);
}

#[test]
fn mask_is_retained_until_structure_resets_it() {
    let mut parser = primed();
    let with_mask = mandatory(0, 2).list(&[0, 1, 0, 0, 0], 1).push(0b10, 2);
    let metadata = parser.parse_packet_metadata(&with_mask.bytes()).unwrap();
    assert_eq!(metadata.active_decode_targets_mask, 0b10);
    assert!(!metadata.has_switching_decode_target);
    let follow_up = parser.parse_packet_metadata(&mandatory(1, 3).bytes()).unwrap();
    assert_eq!(follow_up.active_decode_targets_mask, 0b10);
    let reset = parser.parse_packet_metadata(&structure_packet().bytes()).unwrap();
    assert_eq!(reset.active_decode_targets_mask, 0b11);
}

#[test]
fn mask_of_absent_target_rejects_frame() {
    let mut parser = primed();
    // The second template is not part of decode target 0.
    let packet = mandatory(1, 2).list(&[0, 1, 0, 0, 0], 1).push(0b01, 2);
    assert_eq!(parser.parse_layer_ids(&packet.bytes()), None);
    assert_eq!(parser.parse_layer_ids(&mandatory(1, 2).bytes()), Some(layer(1, 0)));
}

#[test]
fn clone_has_the_same_state() {
    let parser = primed();
    let mut copy = parser.clone();
    assert_eq!(copy.parse_layer_ids(&mandatory(1, 2).bytes()), Some(layer(1, 0)));
}

#[test]
fn short_payloads_are_rejected() {
    let mut parser = primed();
    assert_eq!(parser.parse_packet_metadata(&[]), None);
    assert_eq!(parser.parse_packet_metadata(&[0xc0, 0x00]), None);
    assert_eq!(replace_or_inject_active_decode_target_mask(&[], 1, 1), None);
    assert_eq!(replace_or_inject_active_decode_target_mask(&[0xc0, 0x00], 1, 1), None);
}

#[test]
fn custom_frame_diffs_reach_from_1_to_4096() {
    let mut parser = primed();
    let packet = mandatory(0, 2)
        .list(&[0, 0, 0, 1, 0], 1)
        .push(1, 2)
        .push(0, 4)
        .push(2, 2)
        .push(255, 8)
        .push(3, 2)
        .push(4095, 12)
        .push(0, 2);
    let metadata = parser.parse_packet_metadata(&packet.bytes()).unwrap();
    assert_eq!(metadata.frame_diffs, vec![1, 256, 4096]);
    let mut cut = packet.bytes();
    cut.truncate(6);
    assert_eq!(parser.parse_packet_metadata(&cut), None);
}

#[test]
fn bytes_behind_descriptor_do_not_matter() {
    let mut parser = DependencyDescriptorParser::default();
    let mut payload = structure_packet().bytes();
    let expected = parser.clone().parse_packet_metadata(&payload);
    payload.extend([0xff, 0x00, 0xff]);
    assert_eq!(parser.parse_packet_metadata(&payload), expected);
}

/// A structure with one decode target and one template per code.
fn structure_with_codes(codes: &[u64]) -> Vec<u8> {
    mandatory(0, 1)
        .list(&[1, 0, 0, 0, 0], 1)
        .push(0, 6)
        .push(0, 5)
        .list(codes, 2)
        .list(&vec![3; codes.len()], 2)
        .list(&vec![0; codes.len()], 1)
        .push(0, 1)
        .push(0, 1)
        .bytes()
}

#[test]
fn template_count_is_limited() {
    let mut codes = vec![0u64; 63];
    codes.push(3);
    let mut parser = DependencyDescriptorParser::default();
    assert_eq!(parser.parse_layer_ids(&structure_with_codes(&codes)), Some(layer(0, 0)));
    codes.insert(0, 0);
    let mut parser = DependencyDescriptorParser::default();
    assert_eq!(parser.parse_layer_ids(&structure_with_codes(&codes)), None);
}

#[test]
fn layer_ids_are_limited() {
    let mut parser = DependencyDescriptorParser::default();
    let temporal = structure_with_codes(&[1, 1, 1, 1, 1, 1, 1, 3]);
    assert!(parser.parse_layer_ids(&temporal).is_some());
    assert_eq!(parser.parse_layer_ids(&mandatory(7, 2).bytes()), Some(layer(7, 0)));
    let mut parser = DependencyDescriptorParser::default();
    let too_many = structure_with_codes(&[1, 1, 1, 1, 1, 1, 1, 1, 3]);
    assert_eq!(parser.parse_layer_ids(&too_many), None);
    let spatial = structure_with_codes(&[1, 2, 2, 2, 3]);
    assert!(parser.parse_layer_ids(&spatial).is_some());
    assert_eq!(parser.parse_layer_ids(&mandatory(1, 2).bytes()), Some(layer(1, 0)));
    assert_eq!(parser.parse_layer_ids(&mandatory(4, 2).bytes()), Some(layer(0, 3)));
    let mut parser = DependencyDescriptorParser::default();
    assert_eq!(parser.parse_layer_ids(&structure_with_codes(&[2, 2, 2, 2, 3])), None);
}

/// One template, one decode target, and resolutions for one spatial layer.
fn structure_with_resolutions() -> Bits {
    mandatory(0, 1)
        .list(&[1, 1, 0, 0, 0], 1)
        .push(0, 6)
        .push(0, 5)
        .push(3, 2)
        .push(3, 2)
        .push(0, 1)
        .push(0, 1)
        .push(1, 1)
        .list(&[1279, 719], 16)
        .push(1, 1)
}

#[test]
fn resolutions_are_passed_over() {
    let mut parser = DependencyDescriptorParser::default();
    let payload = structure_with_resolutions().bytes();
    let metadata = parser.parse_packet_metadata(&payload).unwrap();
    assert_eq!(metadata.active_decode_targets_mask, 1);
    let mut parser = DependencyDescriptorParser::default();
    assert_eq!(parser.parse_packet_metadata(&payload[..8]), None);
}

#[test]
fn mask_is_added_to_mandatory_fields() {
    assert_eq!(
        replace_or_inject_active_decode_target_mask(&[0x80, 0x00, 0x01], 1, 1),
        Some(vec![0x80, 0x00, 0x01, 0x44])
    );
    assert_eq!(
        replace_or_inject_active_decode_target_mask(&[0xc1, 0x02, 0x03], 32, 0x8000_0001),
        Some(vec![0xc1, 0x02, 0x03, 0x44, 0x00, 0x00, 0x00, 0x08])
    );
}

#[test]
fn mask_is_replaced_in_place() {
    let payload = mandatory(0, 2).list(&[0, 1, 1, 0, 0], 1).push(0b10, 2).list(&[1, 2], 2);
    let expected = mandatory(0, 2).list(&[0, 1, 1, 0, 0], 1).push(0b01, 2).list(&[1, 2], 2);
    assert_eq!(
        replace_or_inject_active_decode_target_mask(&payload.bytes(), 2, 0b01),
        Some(expected.bytes())
    );
    // The mask that is there already.
    assert_eq!(
        replace_or_inject_active_decode_target_mask(&payload.bytes(), 2, 0b10),
        Some(payload.bytes())
    );
}

#[test]
fn mask_is_put_in_behind_structure() {
    let mut payload = structure_packet().bytes();
    // What follows the last field is dropped.
    payload.extend([0xff, 0xff, 0xff]);
    let expected =
        two_targets(mandatory(0, 1).list(&[1, 1, 0, 0, 0], 1), 0).push(0b10, 2).bytes();
    let rewritten = replace_or_inject_active_decode_target_mask(&payload, 2, 0b10).unwrap();
    assert_eq!(rewritten, expected);
    let mut parser = DependencyDescriptorParser::default();
    let before = parser.clone().parse_packet_metadata(&payload).unwrap();
    let after = parser.parse_packet_metadata(&rewritten).unwrap();
    let mut changed = before;
    changed.active_decode_targets_mask = 0b10;
    changed.has_switching_decode_target = false;
    assert_eq!(after, changed);
}

#[test]
fn mask_is_put_in_before_custom_fields() {
    let custom = |bits: Bits| bits.list(&[3, 2], 2).push(1, 2).push(4, 4).push(0, 2);
    let payload = custom(mandatory(1, 2).list(&[0, 0, 1, 1, 0], 1));
    let expected = custom(mandatory(1, 2).list(&[0, 1, 1, 1, 0], 1).push(0b10, 2));
    let rewritten = replace_or_inject_active_decode_target_mask(&payload.bytes(), 2, 0b10).unwrap();
    assert_eq!(rewritten, expected.bytes());
    let metadata = primed().parse_packet_metadata(&rewritten).unwrap();
    assert_eq!(metadata.active_decode_targets_mask, 0b10);
    assert_eq!(metadata.frame_diffs, vec![5]);
    assert!(metadata.has_switching_decode_target);
}

#[test]
fn everything_is_kept_where_end_is_unknown() {
    // The number of chains is not known without the structure.
    let payload = mandatory(0, 2).list(&[0, 0, 0, 0, 1], 1).list(&[8, 9], 8).push(0b101, 3);
    let expected = mandatory(0, 2)
        .list(&[0, 1, 0, 0, 1], 1)
        .push(0b11, 2)
        .list(&[8, 9], 8)
        .push(0b101, 3);
    let rewritten = replace_or_inject_active_decode_target_mask(&payload.bytes(), 2, 0b11).unwrap();
    assert_eq!(rewritten, expected.bytes());
    assert_eq!(
        primed().parse_packet_metadata(&rewritten).unwrap().chain_diffs,
        vec![8, 9]
    );
}

#[test]
fn last_written_mask_counts() {
    for payload in [
        mandatory(0, 2).bytes(),
        structure_packet().bytes(),
        mandatory(0, 2).list(&[0, 1, 0, 0, 0], 1).push(0b01, 2).bytes(),
    ] {
        let once = replace_or_inject_active_decode_target_mask(&payload, 2, 0b01).unwrap();
        let direct = replace_or_inject_active_decode_target_mask(&payload, 2, 0b10);
        assert_eq!(replace_or_inject_active_decode_target_mask(&once, 2, 0b10), direct);
        assert!(direct.is_some());
    }
}

#[test]
fn mask_parameters_are_checked() {
    let payload = mandatory(0, 2).bytes();
    assert_eq!(replace_or_inject_active_decode_target_mask(&payload, 0, 0), None);
    assert_eq!(replace_or_inject_active_decode_target_mask(&payload, 33, 0), None);
    assert_eq!(replace_or_inject_active_decode_target_mask(&payload, 2, 0b100), None);
    assert_eq!(replace_or_inject_active_decode_target_mask(&payload, 31, 0x8000_0000), None);
    assert!(replace_or_inject_active_decode_target_mask(&payload, 2, 0b00).is_some());
    assert!(replace_or_inject_active_decode_target_mask(&payload, 32, u32::MAX).is_some());
}

#[test]
fn carried_structure_is_checked() {
    let payload = structure_packet().bytes();
    assert!(replace_or_inject_active_decode_target_mask(&payload, 2, 0b11).is_some());
    assert_eq!(replace_or_inject_active_decode_target_mask(&payload, 3, 0b11), None);
    assert_eq!(replace_or_inject_active_decode_target_mask(&payload[..6], 2, 0b11), None);
}

#[test]
fn mask_has_to_fit() {
    // Three bits are left behind the flags.
    let payload = mandatory(0, 2).list(&[0, 1, 0, 0, 0], 1).bytes();
    assert!(replace_or_inject_active_decode_target_mask(&payload, 3, 0b111).is_some());
    assert_eq!(replace_or_inject_active_decode_target_mask(&payload, 4, 0b111), None);
}

#[test]
fn target_layer_is_the_highest_of_its_templates() {
    let mut parser = DependencyDescriptorParser::default();
    let payload = structure_with_codes(&[1, 2, 2, 2, 3]);
    let metadata = parser.parse_packet_metadata(&payload).unwrap();
    assert_eq!(metadata.layer_ids, layer(0, 0));
    assert_eq!(metadata.decode_target_layers, vec![layer(1, 3)]);
}

#[test]
fn written_mask_decides_whether_frame_is_accepted() {
    let payload = mandatory(1, 2).bytes();
    assert!(primed().parse_packet_metadata(&payload).is_some());
    // The frame is part of decode target 1 only.
    let active = replace_or_inject_active_decode_target_mask(&payload, 2, 0b10).unwrap();
    assert!(primed().parse_packet_metadata(&active).is_some());
    let inactive = replace_or_inject_active_decode_target_mask(&payload, 2, 0b01).unwrap();
    assert_eq!(primed().parse_packet_metadata(&inactive), None);
    let none = replace_or_inject_active_decode_target_mask(&payload, 2, 0b00).unwrap();
    assert_eq!(primed().parse_packet_metadata(&none), None);
}

#[test]
fn frame_of_no_target_is_rejected() {
    let mut parser = primed();
    let packet = mandatory(0, 2).list(&[0, 0, 1, 0, 0], 1).list(&[0, 0], 2);
    assert_eq!(parser.parse_packet_metadata(&packet.bytes()), None);
}

#[test]
fn single_chain_needs_no_bits_to_name_it() {
    // Two decode targets, one template, one chain.
    let packet = mandatory(5, 9)
        .list(&[1, 0, 0, 0, 0], 1)
        .push(5, 6)
        .push(1, 5)
        .push(3, 2)
        .list(&[2, 1], 2)
        .push(0, 1)
        .push(0b10, 2)
        .push(9, 4)
        .push(0, 1);
    let mut parser = DependencyDescriptorParser::default();
    let metadata = parser.parse_packet_metadata(&packet.bytes()).unwrap();
    assert_eq!(metadata.chain_diffs, vec![9]);
    assert_eq!(metadata.decode_target_protected_by_chain, vec![0, 0]);
}

#[test]
fn thirty_two_targets_fit_in_a_mask() {
    let packet = mandatory(0, 1)
        .list(&[1, 0, 0, 0, 0], 1)
        .push(0, 6)
        .push(31, 5)
        .push(3, 2)
        .list(&[3; 32], 2)
        .push(0, 1)
        .push(0, 5)
        .push(0, 1)
        .bytes();
    let mut parser = DependencyDescriptorParser::default();
    let metadata = parser.parse_packet_metadata(&packet).unwrap();
    assert_eq!(metadata.active_decode_targets_mask, u32::MAX);
    assert_eq!(metadata.decode_target_indications.len(), 32);
    let rewritten = replace_or_inject_active_decode_target_mask(&packet, 32, 0x8000_0000).unwrap();
    let metadata = parser.parse_packet_metadata(&rewritten).unwrap();
    assert_eq!(metadata.active_decode_targets_mask, 0x8000_0000);
}

#[test]
fn replacing_keeps_structure_and_rest() {
    let carried = |mask: u64| {
        two_targets(mandatory(0, 1).list(&[1, 1, 0, 0, 1], 1), 0)
            .push(mask, 2)
            .list(&[200, 201], 8)
    };
    let payload = carried(0b11).push(0b1, 1).bytes();
    let rewritten = replace_or_inject_active_decode_target_mask(&payload, 2, 0b01).unwrap();
    assert_eq!(rewritten, carried(0b01).push(0b1, 1).bytes());
    let mut parser = DependencyDescriptorParser::default();
    let metadata = parser.parse_packet_metadata(&rewritten).unwrap();
    assert_eq!(metadata.active_decode_targets_mask, 0b01);
    assert_eq!(metadata.chain_diffs, vec![200, 201]);
    let mut cut = payload;
    cut.truncate(11);
    assert_eq!(replace_or_inject_active_decode_target_mask(&cut, 2, 0b01), None);
    assert_eq!(parser.parse_packet_metadata(&cut), None);
}

#[test]
fn announced_indications_have_to_fit() {
    // Four bits are announced, and three are left.
    let cut = [0xc0, 0x00, 0x01, 0x20];
    assert_eq!(replace_or_inject_active_decode_target_mask(&cut, 2, 0b11), None);
    // Two bits are announced.
    assert_eq!(
        replace_or_inject_active_decode_target_mask(&cut, 1, 0b1),
        Some(vec![0xc0, 0x00, 0x01, 0x64])
    );
    // Behind a mask of two bits, one bit is left for two.
    let with_mask = mandatory(0, 2).list(&[0, 1, 1, 0, 0], 1).bytes();
    assert_eq!(replace_or_inject_active_decode_target_mask(&with_mask, 2, 0b11), None);
    // Behind a mask of one bit, two bits are left for two.
    assert_eq!(
        replace_or_inject_active_decode_target_mask(&with_mask, 1, 0b1),
        Some(mandatory(0, 2).list(&[0, 1, 1, 0, 0], 1).push(0b1, 1).bytes())
    );
}

#[test]
fn announced_frame_differences_have_to_end() {
    for mask_flag in [0, 1] {
        let start = mandatory(0, 2).list(&[0, mask_flag, 0, 1, 0], 1).push(0, 2 * mask_flag as usize);
        let ended = start.clone().push(1, 2).push(4, 4).push(0, 2).bytes();
        assert!(replace_or_inject_active_decode_target_mask(&ended, 2, 0b11).is_some());
        let open = start.push(3, 2).push(4, 12).push(1, 2).bytes();
        assert_eq!(replace_or_inject_active_decode_target_mask(&open, 2, 0b11), None);
    }
}

#[test]
fn announced_chain_differences_have_to_fit_carried_structure() {
    let start = two_targets(mandatory(0, 1).list(&[1, 0, 0, 0, 1], 1), 0);
    let whole = start.clone().list(&[8, 9], 8).bytes();
    assert_eq!(
        replace_or_inject_active_decode_target_mask(&whole, 2, 0b01),
        Some(
            two_targets(mandatory(0, 1).list(&[1, 1, 0, 0, 1], 1), 0)
                .push(0b01, 2)
                .list(&[8, 9], 8)
                .bytes()
        )
    );
    let cut = start.list(&[8], 8).bytes();
    assert_eq!(replace_or_inject_active_decode_target_mask(&cut, 2, 0b01), None);
}

#[test]
fn fields_before_chain_differences_have_to_fit_without_structure() {
    // The chain differences may be of any length, the indications may not.
    let cut = mandatory(0, 2).list(&[0, 0, 1, 0, 1], 1).bytes();
    assert_eq!(replace_or_inject_active_decode_target_mask(&cut, 2, 0b11), None);
    assert!(replace_or_inject_active_decode_target_mask(&cut, 1, 0b1).is_some());
}

#[test]
fn clear_flags_leave_mandatory_fields() {
    let short = mandatory(1, 2).bytes();
    let mut long = short.clone();
    long.extend([0x07, 0xff, 0xff]);
    assert_eq!(
        primed().parse_packet_metadata(&long),
        primed().parse_packet_metadata(&short)
    );
    assert!(primed().parse_packet_metadata(&long).is_some());
    assert_eq!(
        replace_or_inject_active_decode_target_mask(&long, 2, 0b10),
        replace_or_inject_active_decode_target_mask(&short, 2, 0b10)
    );
}

#[test]
fn uri_is_that_of_the_extension() {
    assert_eq!(
        DEPENDENCY_DESCRIPTOR_URI,
        "https://aomediacodec.github.io/av1-rtp-spec/#dependency-descriptor-rtp-header-extension"
    );
}
