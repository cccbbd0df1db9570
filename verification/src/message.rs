//! The frame types of Slipmux, and what a frame of each holds between its delimiters.
use vstd::prelude::*;
use vstd::slice::slice_to_vec;
use vstd::utf8::{decode_utf8, encode_utf8, valid_utf8};

use crate::checksum::{check_fcs, ends_in_fcs, fcs, trailer};

verus! {

/// Start byte of a diagnostic frame.
pub const DIAGNOSTIC: u8 = 0x0A;

/// Start byte of a configuration message.
pub const CONFIGURATION: u8 = 0xA9;

/// First start byte of the IPv4 packet range.
pub const IP4_FROM: u8 = 0x45;

/// Final start byte of the IPv4 packet range.
pub const IP4_TO: u8 = 0x4F;

/// First start byte of the IPv6 packet range.
pub const IP6_FROM: u8 = 0x60;

/// Final start byte of the IPv6 packet range.
pub const IP6_TO: u8 = 0x6F;

/// The frame types that Slipmux offers.
#[derive(Debug)]
pub enum Slipmux {
    /// A diagnostic frame.
    Diagnostic(String),
    /// A configuration frame, should contain a coap packet but that is not guaranteed.
    Configuration(Vec<u8>),
    /// An IPv4/6 packet frame.
    Packet(Vec<u8>),
}

/// Errors encountered in Slipmux.
#[derive(Debug)]
pub enum Error {
    /// The encoder does not have enough space to write your frame.
    NotEnoughSpace,
    /// The decoder encountered an invalid frame, e.g. a bad escape sequence.
    BadFraming,
    /// The decoder encountered an unknown frame type.
    BadFrameType,
}

/// What a [`Slipmux`] says: its type with its text or its bytes.
pub enum SlipmuxView {
    /// A text.
    Diagnostic(Seq<char>),
    /// The bytes of a configuration message, without start byte and check sequence.
    Configuration(Seq<u8>),
    /// The bytes of a packet.
    Packet(Seq<u8>),
}

impl View for Slipmux {
    type V = SlipmuxView;

    open spec fn view(&self) -> SlipmuxView {
        match self {
            Slipmux::Diagnostic(text) => SlipmuxView::Diagnostic(text@),
            Slipmux::Configuration(message) => SlipmuxView::Configuration(message@),
            Slipmux::Packet(packet) => SlipmuxView::Packet(packet@),
        }
    }
}

/// What came of one frame: what it says, or what is wrong with it.
pub type Outcome = Result<SlipmuxView, Error>;

/// What a decoded frame says.
pub open spec fn outcome(result: Result<Slipmux, Error>) -> Outcome {
    match result {
        Ok(frame) => Ok(frame@),
        Err(error) => Err(error),
    }
}

/// What a list of decoded frames says.
pub open spec fn outcomes(results: Seq<Result<Slipmux, Error>>) -> Seq<Outcome> {
    results.map_values(|result: Result<Slipmux, Error>| outcome(result))
}

/// Whether a frame that starts with `byte` is an IPv4 or IPv6 packet.
pub open spec fn starts_packet(byte: u8) -> bool {
    IP4_FROM <= byte <= IP4_TO || IP6_FROM <= byte <= IP6_TO
}

/// The bytes of the frame that carries `message`.
pub open spec fn content(message: SlipmuxView) -> Seq<u8> {
    match message {
        SlipmuxView::Diagnostic(text) => seq![DIAGNOSTIC] + encode_utf8(text),
        SlipmuxView::Configuration(message) => {
            let checked = seq![CONFIGURATION] + message;
            checked + trailer(fcs(checked))
        },
        SlipmuxView::Packet(packet) => packet,
    }
}

/// What [`String::from_utf8_lossy`] makes of bytes that are not UTF-8.
pub uninterp spec fn repaired_text(bytes: Seq<u8>) -> Seq<char>;

/// The text that `bytes` spell, with what is not UTF-8 in them replaced.
pub open spec fn text_of(bytes: Seq<u8>) -> Seq<char> {
    if valid_utf8(bytes) {
        decode_utf8(bytes)
    } else {
        repaired_text(bytes)
    }
}

/// What the bytes of a frame mean.
pub open spec fn meaning(frame: Seq<u8>) -> Outcome
    recommends
        frame.len() > 0,
{
    if frame[0] == DIAGNOSTIC {
        Ok(SlipmuxView::Diagnostic(text_of(frame.skip(1))))
    } else if frame[0] == CONFIGURATION {
        if ends_in_fcs(frame) {
            Ok(SlipmuxView::Configuration(frame.subrange(1, frame.len() - 2)))
        } else {
            Err(Error::BadFraming)
        }
    } else if starts_packet(frame[0]) {
        Ok(SlipmuxView::Packet(frame))
    } else {
        Err(Error::BadFrameType)
    }
}

/// [`String::from_utf8_lossy`]: the text that UTF-8 bytes spell, and some text that depends on the
/// bytes alone where they are not UTF-8.
#[verifier::external_body]
fn lossy_text(bytes: &[u8]) -> (text: String)
    ensures
        text@ == (if valid_utf8(bytes@) {
            decode_utf8(bytes@)
        } else {
            repaired_text(bytes@)
        }),
{
    String::from_utf8_lossy(bytes).into_owned()
}

/// Reads the bytes of a complete frame by its start byte.
pub(crate) fn read_frame(frame: &[u8]) -> (result: Result<Slipmux, Error>)
    requires
        frame@.len() > 0,
    ensures
        outcome(result) == meaning(frame@),
{
    match frame[0] {
        DIAGNOSTIC => {
            let text = &frame[1..frame.len()];
            assert(text@ == frame@.skip(1));
            Ok(Slipmux::Diagnostic(lossy_text(text)))
        },
        CONFIGURATION => {
            // The check sequence is two bytes long and is not passed on.
            if check_fcs(frame) {
                proof {
                    lemma_configuration_length(frame@);
                }
                Ok(Slipmux::Configuration(slice_to_vec(&frame[1..frame.len() - 2])))
            } else {
                Err(Error::BadFraming)
            }
        },
        IP4_FROM..=IP4_TO | IP6_FROM..=IP6_TO => Ok(Slipmux::Packet(slice_to_vec(frame))),
        _ => Err(Error::BadFrameType),
    }
}

/// A configuration frame that passes the check holds its start byte and the check sequence: a check
/// sequence alone never starts like one.
pub(crate) proof fn lemma_configuration_length(frame: Seq<u8>)
    requires
        frame.len() > 0,
        frame[0] == CONFIGURATION,
        ends_in_fcs(frame),
    ensures
        frame.len() >= 3,
{
    if frame.len() == 2 {
        let tail = frame.skip(0);
        assert(tail[0] == frame[0]);
        assert(frame.take(0).len() == 0);
        assert(!0xFFFFu16 == 0u16) by (bit_vector);
        assert((0u16 & 0xFF) as u8 == 0) by (bit_vector);
    }
}

} // verus!
