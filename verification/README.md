# ponk-protocol, verified

A codec and bounded fragment reassembler for PONK ("Pathes Over NetworK") UDP
frames, written in Verus. Every function of the library carries a contract over a
mathematical model of the wire format and of the reassembler's state, and Verus
proves each body against it. Socket ownership, clocks beyond a monotonic reading,
and floating-point arithmetic stay with the application.

## Layout

- `src/model.rs`: frames, paths, points, limits and configuration, with their views.
- `src/wire.rs`: the wire format as mathematics: header fields, path parsing, and the
  bytes an encoded frame occupies.
- `src/codec.rs`: the executable encoder and decoder, each proved equal to its model.
- `src/reassembly.rs`: the reassembler's abstract state and what a push does to it.
- `src/assembly.rs`: the executable reassembler, proved to follow that model.
- `src/legacy.rs`: the uniform-format compatibility API; coordinate conversions are
  passed in by the caller.
- `src/bytes.rs`, `src/text.rs`, `src/clock.rs`, `src/error.rs`: little-endian words,
  checksums, fixed-width UTF-8 fields, the clock, and error texts.
- Laws: `src/laws.rs` (encoding then decoding one datagram gives the frame back),
  `src/framing.rs` (how a frame is cut into datagrams, and that the datagrams of
  several frames, pushed in any interleaving, give each frame back at its own last
  missing datagram), `src/bounds.rs` (resource limits always hold, and the buffered byte count is
  the length of the chunks held; repeated and conflicting chunks), `src/completion.rs` (completing a frame releases its
  identity; when canonical boundary repair may complete a frame), `src/canonical.rs` (a canonical datagram decoded and encoded
  again comes back byte for byte), `src/roundtrip.rs` (fixed-width text fields never
  split a character), and `src/model.rs` (reducing an expanded color gives it back; points and
  metadata compare as their `f32` values do).
- `tests/`: the interoperability scenarios and further tests of the contracts.
- `app/`: floating-point coordinate conversions, socket-address conversion,
  displayable errors, and multicast send and receive loops.
