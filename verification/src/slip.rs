//! Framing by SLIP, the serial line internet protocol, which the `serial_line_ip` crate does.
//!
//! Everything that the library takes on trust from that crate stands in this module.
use serial_line_ip::{Decoder as SlipDecoder, Encoder as SlipEncoder};
use vstd::prelude::*;

verus! {

/// Ends a frame.
pub const END: u8 = 0xC0;

/// Starts an escape sequence.
pub const ESC: u8 = 0xDB;

/// Stands for `END` in an escape sequence.
pub const ESC_END: u8 = 0xDC;

/// Stands for `ESC` in an escape sequence.
pub const ESC_ESC: u8 = 0xDD;

/// What one byte of a frame becomes on the line.
pub open spec fn stuff_byte(byte: u8) -> Seq<u8> {
    if byte == END {
        seq![ESC, ESC_END]
    } else if byte == ESC {
        seq![ESC, ESC_ESC]
    } else {
        seq![byte]
    }
}

/// What the bytes of a frame become on the line, between its two `END`s.
pub open spec fn stuff(data: Seq<u8>) -> Seq<u8>
    decreases data.len(),
{
    if data.len() == 0 {
        Seq::empty()
    } else {
        stuff(data.drop_last()) + stuff_byte(data.last())
    }
}

/// The line bytes that a decoder has taken in and not acted on yet: the `ESC` of an escape
/// sequence whose second byte is still to come.
pub open spec fn pending(escaped: bool) -> Seq<u8> {
    if escaped {
        seq![ESC]
    } else {
        Seq::empty()
    }
}

/// Whether `line` starts with the stuffing of `data` and then holds an escape sequence that stands
/// for nothing.
pub open spec fn bad_escape_after(line: Seq<u8>, data: Seq<u8>) -> bool {
    let start = stuff(data).len() as int;
    &&& start + 1 < line.len()
    &&& line.take(start + 1) == stuff(data).push(ESC)
    &&& line[start + 1] != ESC_END
    &&& line[start + 1] != ESC_ESC
}

/// Whether a decoder that reads `line` meets an escape sequence that stands for nothing, before the
/// frame ends and before `room` bytes are decoded.
pub open spec fn has_bad_escape(line: Seq<u8>, room: nat) -> bool {
    exists|data: Seq<u8>| data.len() < room && #[trigger] bad_escape_after(line, data)
}

/// Whether `after` is what a decoder that meets an escape sequence that stands for nothing in
/// `line` leaves of the output `before`: what comes ahead of that sequence is written.
pub open spec fn cut_short(line: Seq<u8>, before: Seq<u8>, after: Seq<u8>) -> bool {
    exists|data: Seq<u8>|
        {
            &&& data.len() < before.len()
            &&& #[trigger] bad_escape_after(line, data)
            &&& after == data + before.skip(data.len() as int)
        }
}

/// What can go wrong in SLIP framing.
#[derive(Debug)]
pub enum SlipError {
    /// There is no room for the `END` that opens a frame.
    NoOutputSpaceForHeader,
    /// There is no room for the `END` that closes a frame.
    NoOutputSpaceForEndByte,
    /// A frame does not open with `END`.
    BadHeaderDecode,
    /// An escape sequence stands for nothing.
    BadEscapeSequenceDecode,
}

/// The encoder context of `serial_line_ip`.
#[verifier::external_type_specification]
#[verifier::external_body]
pub struct ExSlipEncoder(SlipEncoder);

/// The decoder context of `serial_line_ip`.
#[verifier::external_type_specification]
#[verifier::external_body]
pub struct ExSlipDecoder(SlipDecoder);

/// What an encoder context holds: whether it has written the `END` that opens its frame.
pub uninterp spec fn encoder_opened(encoder: SlipEncoder) -> bool;

/// What a decoder context holds: whether it has read the `END` that opens its frame.
pub uninterp spec fn decoder_opened(decoder: SlipDecoder) -> bool;

/// What a decoder context holds besides: whether it is in the middle of an escape sequence.
pub uninterp spec fn decoder_escaped(decoder: SlipDecoder) -> bool;

/// `serial_line_ip::Encoder::new` gives a context that has written nothing.
pub assume_specification[ SlipEncoder::new ]() -> (encoder: SlipEncoder)
    ensures
        !encoder_opened(encoder),
;

/// `serial_line_ip::Decoder::new` gives a context that has read nothing.
pub assume_specification[ SlipDecoder::new ]() -> (decoder: SlipDecoder)
    ensures
        !decoder_opened(decoder),
        !decoder_escaped(decoder),
;

/// `serial_line_ip::Encoder::encode`, which gives the number of bytes read and written.
///
/// It writes the opening `END` where the context has not written it, then the stuffing of as many
/// bytes of `input` as there is room for, and leaves the rest of `output` as it was. It fails only
/// where there is no room for the opening `END`, and then changes nothing.
#[verifier::external_body]
pub(crate) fn slip_encode(
    encoder: &mut SlipEncoder,
    input: &[u8],
    output: &mut [u8],
) -> (result: Result<(usize, usize), SlipError>)
    ensures
        match result {
            Ok((read, written)) => {
                let header = if encoder_opened(*old(encoder)) {
                    Seq::<u8>::empty()
                } else {
                    seq![END]
                };
                let line = header + stuff(input@.take(read as int));
                &&& encoder_opened(*old(encoder)) || old(output)@.len() > 0
                &&& encoder_opened(*final(encoder))
                &&& read <= input@.len()
                &&& written == line.len()
                &&& written <= old(output)@.len()
                &&& final(output)@ == line + old(output)@.skip(written as int)
                &&& read < input@.len() ==> old(output)@.len() - written < stuff_byte(
                    input@[read as int],
                ).len()
            },
            Err(error) => {
                &&& error is NoOutputSpaceForHeader
                &&& !encoder_opened(*old(encoder))
                &&& old(output)@.len() == 0
                &&& *final(encoder) == *old(encoder)
                &&& final(output)@ == old(output)@
            },
        },
{
    match encoder.encode(input, output) {
        Ok(totals) => Ok((totals.read, totals.written)),
        Err(serial_line_ip::Error::NoOutputSpaceForHeader) => Err(
            SlipError::NoOutputSpaceForHeader,
        ),
        Err(serial_line_ip::Error::NoOutputSpaceForEndByte) => Err(
            SlipError::NoOutputSpaceForEndByte,
        ),
        Err(serial_line_ip::Error::BadHeaderDecode) => Err(SlipError::BadHeaderDecode),
        Err(serial_line_ip::Error::BadEscapeSequenceDecode) => Err(
            SlipError::BadEscapeSequenceDecode,
        ),
    }
}

/// `serial_line_ip::Encoder::finish`, which gives the number of bytes read and written.
///
/// It writes the closing `END`, whatever the context holds, and leaves the rest of `output` as it
/// was. It fails only where `output` is empty.
#[verifier::external_body]
pub(crate) fn slip_finish(encoder: SlipEncoder, output: &mut [u8]) -> (result: Result<
    (usize, usize),
    SlipError,
>)
    ensures
        match result {
            Ok((read, written)) => {
                &&& old(output)@.len() > 0
                &&& read == 0
                &&& written == 1
                &&& final(output)@ == seq![END] + old(output)@.skip(1)
            },
            Err(error) => {
                &&& error is NoOutputSpaceForEndByte
                &&& old(output)@.len() == 0
                &&& final(output)@ == old(output)@
            },
        },
{
    match encoder.finish(output) {
        Ok(totals) => Ok((totals.read, totals.written)),
        Err(serial_line_ip::Error::NoOutputSpaceForHeader) => Err(
            SlipError::NoOutputSpaceForHeader,
        ),
        Err(serial_line_ip::Error::NoOutputSpaceForEndByte) => Err(
            SlipError::NoOutputSpaceForEndByte,
        ),
        Err(serial_line_ip::Error::BadHeaderDecode) => Err(SlipError::BadHeaderDecode),
        Err(serial_line_ip::Error::BadEscapeSequenceDecode) => Err(
            SlipError::BadEscapeSequenceDecode,
        ),
    }
}

/// `serial_line_ip::Decoder::decode`, which gives the number of bytes read, what they decode to,
/// which is then also the front of `output`, and whether they end the frame.
///
/// Where the context has not read the opening `END`, it reads that first, and fails without a
/// change where `input` does not start with it. What it reads from there on, after the `ESC` that
/// the context may hold, is the stuffing of what it writes, followed by the `END` of the frame or
/// by an `ESC` that the context then holds. It stops after `END`, where `output` is full and where
/// `input` ends, and fails at an escape sequence that stands for nothing. Then the context still
/// holds the `ESC` of that sequence, and `output` starts with what came before it.
#[verifier::external_body]
pub(crate) fn slip_decode<'a>(
    decoder: &mut SlipDecoder,
    input: &'a [u8],
    output: &'a mut [u8],
) -> (result: Result<(usize, &'a [u8], bool), SlipError>)
    ensures
        ({
            let opens = decoder_opened(*old(decoder)) || (input@.len() > 0 && input@[0] == END);
            let header = if decoder_opened(*old(decoder)) {
                0int
            } else {
                1int
            };
            let held = pending(decoder_escaped(*old(decoder)));
            let body = input@.skip(header);
            let room = old(output)@.len();
            match result {
                Ok((read, data, end)) => {
                    let tail = if end {
                        seq![END]
                    } else {
                        pending(decoder_escaped(*final(decoder)))
                    };
                    &&& opens
                    &&& !has_bad_escape(held + body, room)
                    &&& decoder_opened(*final(decoder))
                    &&& header <= read <= input@.len()
                    &&& held + body.take(read - header) == stuff(data@) + tail
                    &&& data@.len() <= room
                    &&& final(output)@ == data@ + old(output)@.skip(data@.len() as int)
                    &&& end ==> data@.len() < room && !decoder_escaped(*final(decoder))
                    &&& !end && data@.len() < room ==> read == input@.len()
                    &&& data@.len() == room && decoder_escaped(*final(decoder)) ==> read == header
                },
                Err(SlipError::BadHeaderDecode) => {
                    &&& !opens
                    &&& *final(decoder) == *old(decoder)
                    &&& final(output)@ == old(output)@
                },
                Err(SlipError::BadEscapeSequenceDecode) => {
                    &&& opens
                    &&& decoder_opened(*final(decoder))
                    &&& decoder_escaped(*final(decoder))
                    &&& cut_short(held + body, old(output)@, final(output)@)
                },
                Err(_) => false,
            }
        }),
{
    match decoder.decode(input, output) {
        Ok((read, data, end)) => Ok((read, data, end)),
        Err(serial_line_ip::Error::NoOutputSpaceForHeader) => Err(
            SlipError::NoOutputSpaceForHeader,
        ),
        Err(serial_line_ip::Error::NoOutputSpaceForEndByte) => Err(
            SlipError::NoOutputSpaceForEndByte,
        ),
        Err(serial_line_ip::Error::BadHeaderDecode) => Err(SlipError::BadHeaderDecode),
        Err(serial_line_ip::Error::BadEscapeSequenceDecode) => Err(
            SlipError::BadEscapeSequenceDecode,
        ),
    }
}

/// Stuffing never shortens, at most doubles, leaves no `END`, and does not stop within an escape
/// sequence.
pub(crate) proof fn lemma_stuff_bounds(data: Seq<u8>)
    ensures
        data.len() <= stuff(data).len() <= 2 * data.len(),
        forall|i: int| 0 <= i < stuff(data).len() ==> stuff(data)[i] != END,
        data.len() > 0 ==> stuff(data).last() != ESC,
    decreases data.len(),
{
    if data.len() > 0 {
        lemma_stuff_bounds(data.drop_last());
    }
}

} // verus!
