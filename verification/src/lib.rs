//! Slipmux: Using an UART interface for diagnostics, configuration, and packet transfer
//!
//! The behaviour of the library is stated in contracts and proved.
//!
//! Note: Frame aborting is not implemented!
//!
//! ## What is Slipmux
//!
//! Slipmux is a very simple framing and multiplexing protocol. It uses serial
//! line ip (slip) as a basis for encoding / decoding data streams into frames but extends it with
//! multiplexing. Slipmux defines three frame types: traditional IP packets,
//! diagnostic frames and configuration messages.
//! Diagnostic frames are UTF-8 encoded strings intended as human-readable messages.
//! Configuration messages are serialized `CoAP` messages.
//!
//! ## Encoding
//!
//! Encoding is done in a single pass. First wrap your data in the matching type of the
//! [`Slipmux`] enum. Then feed it into [`encode`]. Alternatively, use [`encode_diagnostic`],
//! [`encode_configuration`] or [`encode_packet`]. The frame must fit into the buffer that it is
//! handed out in, which [`can_encode`] tells.
//!
//! ```
//! use slipmux::{encode, Slipmux};
//!
//! let (result, length) = encode(Slipmux::Diagnostic("Hello World!".to_owned()));
//! assert_eq!(result[..length], *b"\xc0\x0aHello World!\xc0");
//! ```
//!
//! ## Decoding
//!
//! Since the length and number of frames in a data stream is unknown upfront, the
//! [`Decoder`] retains a state even after finishing decoding the input. It can be called
//! repeatedly with new input data, and a frame that is split between two or more calls is
//! put together. No frame may fill the decoder's buffer before it ends, which
//! [`Decoder::has_room`] tells.
//!
//! ```
//! use slipmux::{Decoder, Slipmux};
//!
//! let mut slipmux = Decoder::new();
//! for input_slice in b"\xc0\x0aHello World!\xc0".chunks(4) {
//!     for frame in slipmux.decode(input_slice) {
//!         match frame.unwrap() {
//!             Slipmux::Diagnostic(s) => assert_eq!(s, "Hello World!"),
//!             _ => panic!(),
//!         }
//!     }
//! }
//! ```
//!
//! ## Where things are stated
//!
//! [`message`] says what a frame of each type holds, [`encoder::line`] what its bytes on the
//! line are, and [`stream`] what a decoder makes of each byte. [`laws`] relates the two,
//! and [`wire`] says of both which bytes stand where. [`slip`] holds what is taken on trust from
//! the SLIP crate.
pub mod checksum;
pub mod decoder;
pub mod encoder;
pub mod laws;
pub mod message;
pub mod slip;
pub mod stream;
pub mod wire;

pub use decoder::Decoder;
pub use encoder::{can_encode, encode, encode_configuration, encode_diagnostic, encode_packet};
pub use message::{Error, Slipmux};
