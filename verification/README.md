# discovery-telemetry

Telemetry wire format for the `discovery-*` flight-controller family, verified with Verus.

```text
USB CDC byte stream
  └─ COBS frame   (0x00 delimiter; self-synchronizing)
       └─ frame bytes (varints, raw bytes, little-endian f32 bit patterns)
            └─ Frame { t_ms, msg }
```

Layout of the crate:

- `src/frames.rs`: the frame types. `f32` quantities are carried as their IEEE-754 bit
  patterns (`f32::to_bits`), which is exactly what goes on the wire.
- `src/wire.rs`: the frame layout as spec functions (`frame_bytes`, `take_frame`,
  `parse_frame`), the verified writer and reader, and the round-trip proofs.
- `src/framing.rs`: COBS stuffing through postcard's COBS flavor and unstuffing through
  `cobs::decode_in_place`. These two calls are trusted; their doc comments say what is
  assumed of them.
- `src/codec.rs`: `encode`, the streaming `Decoder` and `decode_all`. Neither `encode` nor
  the decoder allocates: frames are built in fixed `[u8; MAX_FRAME]` buffers. The decoder is
  described as a function of its state (`DecoderState`: the pending bytes of the frame being
  received, and whether it is skipping an oversized frame up to its delimiter) and the input
  (`push_result`). The laws: stream round trip, chunk-split invariance, resync at any
  delimiter, one drop per oversized frame, and the counts of frames and drops against the
  delimiters fed.
- `app/lib.rs`: serde-derived copies of the frame types with `f32` fields, and `From`
  conversions both ways.
- `tests/`: executable tests, including byte-for-byte comparisons with postcard.
