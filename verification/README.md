# dependency_descriptor

A verified library for the AV1 dependency descriptor, an RTP header extension.

`DependencyDescriptorParser` reads the descriptors of one RTP stream and keeps the
frame dependency structure and the activity of decode targets between packets.
`replace_or_inject_active_decode_target_mask` writes a mask of active decode targets
into a raw descriptor.

Each executable function is proved against a description of the wire format over
bit sequences:

- `bits`, `reader`: bits of a byte string, and reading them;
- `fields`: the fields that descriptors are made of;
- `metadata`: decode target indications, masks, and what is told of a packet;
- `structure`: frame dependency structures;
- `parser`: descriptors, and what a parser makes of them;
- `mask`: descriptors with a rewritten mask;
- `locality`: fields depend on the bits that they take up and on no others;
- `laws`: what holds of the library as a whole, such as that a mask that was
  written is read back and that nothing else changes.
