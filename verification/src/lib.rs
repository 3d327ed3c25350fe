//! The AV1 dependency descriptor RTP header extension.
//!
//! A dependency descriptor tells, for each packet of a video stream, which frame it
//! belongs to, which temporal and spatial layer the frame is in, and what the frame
//! depends on. [`DependencyDescriptorParser`] reads descriptors; it retains the frame
//! dependency structure that earlier packets of the stream have carried.
//! [`replace_or_inject_active_decode_target_mask`] rewrites the mask of active decode
//! targets in a raw descriptor.
//!
//! The wire format is given by functions over bit sequences: `fields` for the fields
//! that descriptors are made of, `structure` for frame dependency structures,
//! `parser` for whole descriptors and what a parser makes of them, and `mask` for
//! descriptors with a rewritten mask. `laws` holds what follows from these for the
//! library as a whole.
//!
//! `encoding` gives the other direction: which bits structures and descriptors are
//! written in. `wire_laws` holds that what was written so is read again, that nothing
//! else is read, and where a rewritten mask stands; the modules with `roundtrip` in their
//! names prove it piece by piece.
use vstd::prelude::*;

pub mod bits;
pub mod descriptor_roundtrip;
pub mod encoding;
pub mod fields;
pub mod laws;
pub mod locality;
pub mod mask;
pub mod mask_roundtrip;
pub mod metadata;
pub mod parser;
pub mod reader;
pub mod roundtrip;
pub mod structure;
pub mod structure_roundtrip;
pub mod wire_laws;

pub use mask::replace_or_inject_active_decode_target_mask;
pub use metadata::{
    DependencyDescriptorDecodeTargetIndication, DependencyDescriptorLayerIds,
    DependencyDescriptorPacketMetadata,
};
pub use parser::DependencyDescriptorParser;

verus! {

/// RTP header extension URI for AV1 dependency descriptor.
pub const DEPENDENCY_DESCRIPTOR_URI: &'static str =
    "https://aomediacodec.github.io/av1-rtp-spec/#dependency-descriptor-rtp-header-extension";

} // verus!
