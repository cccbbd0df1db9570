# slipmux

Diagnostics, configuration messages and IP packets over one serial line, written in Verus:
what the library does is stated in contracts and proved.

- `src/message.rs`: the frame types, what a frame of each holds and what its bytes mean
- `src/checksum.rs`: the check sequence of configuration messages
- `src/encoder.rs`: from a message to the bytes on the line
- `src/stream.rs`: what a decoder makes of a stream, byte by byte
- `src/decoder.rs`: the decoder
- `src/slip.rs`: what is taken on trust from the `serial_line_ip` crate
- `src/laws.rs`: what holds of encoding and decoding together

`encode` needs a message whose frame fits into its buffer of 2048 bytes, and `Decoder::decode` an
input in which no frame fills the decoder's buffer of 10240 bytes before it ends. Callers that are
not verified test this with `can_encode` and `Decoder::has_room`.
