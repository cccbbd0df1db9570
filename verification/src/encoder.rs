//! Encoding: from a message to the bytes on the line.
use serial_line_ip::Encoder as SlipEncoder;
use vstd::prelude::*;
use vstd::slice::slice_to_vec;

use crate::checksum::fcs16;
use crate::message::{content, Slipmux, SlipmuxView, CONFIGURATION, DIAGNOSTIC};
use crate::slip::{encoder_opened, slip_encode, slip_finish, stuff, stuff_byte, END, ESC};

verus! {

/// The size of the buffer that an encoded frame is handed out in.
pub const ENCODE_CAPACITY: usize = 2048;

/// The bytes on the line that carry `message`.
pub open spec fn line(message: SlipmuxView) -> Seq<u8> {
    seq![END] + stuff(content(message)) + seq![END]
}

/// Whether the bytes that carry `message` fit into the buffer.
pub open spec fn encodable(message: SlipmuxView) -> bool {
    line(message).len() <= ENCODE_CAPACITY
}

/// Whether `frame` holds the bytes that carry `message`, with their number, and zeros behind them.
pub open spec fn carries(frame: ([u8; 2048], usize), message: SlipmuxView) -> bool {
    &&& frame.1 == line(message).len()
    &&& frame.0@.take(frame.1 as int) == line(message)
    &&& forall|i: int| frame.1 <= i < ENCODE_CAPACITY ==> frame.0@[i] == 0
}

/// The bytes that open the frame of `encoder`, as far as they are still to be written.
spec fn opening(encoder: SlipEncoder) -> Seq<u8> {
    if encoder_opened(encoder) {
        Seq::empty()
    } else {
        seq![END]
    }
}

/// Stuffing goes byte by byte, so it can be done piece by piece.
proof fn lemma_stuff_concat(left: Seq<u8>, right: Seq<u8>)
    ensures
        stuff(left + right) == stuff(left) + stuff(right),
    decreases right.len(),
{
    if right.len() == 0 {
        assert(left + right == left);
        assert(stuff(left) + stuff(right) == stuff(left));
    } else {
        assert((left + right).drop_last() == left + right.drop_last());
        lemma_stuff_concat(left, right.drop_last());
        assert(stuff(left + right) == stuff(left) + stuff(right));
    }
}

/// Where the stuffing of all of `data` fits, an encoder does not stop before its end.
proof fn lemma_stuff_prefix_length(data: Seq<u8>, read: int)
    requires
        0 <= read < data.len(),
    ensures
        stuff(data.take(read)).len() + stuff_byte(data[read]).len() <= stuff(data).len(),
{
    assert(data == data.take(read + 1) + data.skip(read + 1));
    lemma_stuff_concat(data.take(read + 1), data.skip(read + 1));
    assert(data.take(read + 1).drop_last() == data.take(read));
}

/// Short hand for `encode(Slipmux::Diagnostic(text.to_owned()))`.
#[must_use]
pub fn encode_diagnostic(text: &str) -> (frame: ([u8; 2048], usize))
    requires
        encodable(SlipmuxView::Diagnostic(text@)),
    ensures
        carries(frame, SlipmuxView::Diagnostic(text@)),
{
    encode(Slipmux::Diagnostic(text.to_owned()))
}

/// Short hand for `encode(Slipmux::Configuration(packet))`.
#[must_use]
pub fn encode_configuration(packet: Vec<u8>) -> (frame: ([u8; 2048], usize))
    requires
        encodable(SlipmuxView::Configuration(packet@)),
    ensures
        carries(frame, SlipmuxView::Configuration(packet@)),
{
    encode(Slipmux::Configuration(packet))
}

/// Short hand for `encode(Slipmux::Packet(packet))`.
#[must_use]
pub fn encode_packet(packet: Vec<u8>) -> (frame: ([u8; 2048], usize))
    requires
        encodable(SlipmuxView::Packet(packet@)),
    ensures
        carries(frame, SlipmuxView::Packet(packet@)),
{
    encode(Slipmux::Packet(packet))
}

/// Stuffs all of `input` into `output` at `written`, and gives the place behind it.
fn append(
    encoder: &mut SlipEncoder,
    input: &[u8],
    output: &mut [u8; 2048],
    written: usize,
) -> (end: usize)
    requires
        written <= ENCODE_CAPACITY,
        written + opening(*old(encoder)).len() + stuff(input@).len() <= ENCODE_CAPACITY,
    ensures
        end == written + opening(*old(encoder)).len() + stuff(input@).len(),
        final(output)@ == old(output)@.take(written as int) + opening(*old(encoder)) + stuff(input@)
            + old(output)@.skip(end as int),
        encoder_opened(*final(encoder)),
{
    let (_, rest) = output.split_at_mut(written);
    match slip_encode(encoder, input, rest) {
        Ok((read, count)) => {
            proof {
                if read < input@.len() {
                    lemma_stuff_prefix_length(input@, read as int);
                }
                assert(input@.take(read as int) == input@);
            }
            written + count
        },
        Err(_) => written,
    }
}

/// Puts the start byte before a configuration message, and the check sequence behind it.
fn add_check(message: Vec<u8>) -> (frame: Vec<u8>)
    ensures
        frame@ == content(SlipmuxView::Configuration(message@)),
{
    let mut conf = message;
    conf.insert(0, CONFIGURATION);
    assert(conf@ == seq![CONFIGURATION] + message@);
    let fcs: u16 = fcs16(&conf);
    conf.push((fcs & 0xFF) as u8);
    conf.push((fcs >> 8) as u8);
    conf
}

/// Whether the stuffing of `data` takes no more than `room` bytes.
fn stuffing_fits(data: &[u8], room: usize) -> (fits: bool)
    ensures
        fits == (stuff(data@).len() <= room),
{
    let mut left: usize = room;
    let mut index: usize = 0;
    while index < data.len()
        invariant
            index <= data@.len(),
            left <= room,
            stuff(data@.take(index as int)).len() == room - left,
        decreases data@.len() - index,
    {
        let byte: u8 = data[index];
        let size: usize = if byte == END || byte == ESC {
            2
        } else {
            1
        };
        proof {
            assert(data@.take(index + 1).drop_last() == data@.take(index as int));
            lemma_stuff_prefix_length(data@, index as int);
        }
        if left < size {
            return false;
        }
        left = left - size;
        index = index + 1;
    }
    assert(data@.take(index as int) == data@);
    true
}

/// Whether the frame of `input` fits into the buffer, so that `input` can be encoded.
#[must_use]
pub fn can_encode(input: &Slipmux) -> (fits: bool)
    ensures
        fits == encodable(input@),
{
    let room: usize = ENCODE_CAPACITY - 2;
    match input {
        Slipmux::Diagnostic(text) => {
            let bytes = text.as_str().as_bytes();
            proof {
                lemma_stuff_concat(seq![DIAGNOSTIC], bytes@);
                reveal_with_fuel(stuff, 2);
            }
            stuffing_fits(bytes, room - 1)
        },
        Slipmux::Configuration(message) => {
            let conf = add_check(slice_to_vec(message));
            stuffing_fits(&conf, room)
        },
        Slipmux::Packet(packet) => stuffing_fits(packet, room),
    }
}

/// Encodes `Slipmux` data into a frame.
///
/// The encoded frame must fit into the buffer, which [`can_encode`] tells. The number beside the
/// buffer is its length.
#[must_use]
pub fn encode(input: Slipmux) -> (frame: ([u8; 2048], usize))
    requires
        encodable(input@),
    ensures
        carries(frame, input@),
{
    let mut buffer: [u8; 2048] = [0;2048];
    let mut slip = SlipEncoder::new();
    let mut written: usize = 0;
    let ghost body = content(input@);
    match input {
        Slipmux::Diagnostic(text) => {
            let start: [u8; 1] = [DIAGNOSTIC];
            let bytes = text.as_str().as_bytes();
            proof {
                assert(start@ == seq![DIAGNOSTIC]);
                lemma_stuff_concat(start@, bytes@);
            }
            written = append(&mut slip, &start, &mut buffer, written);
            written = append(&mut slip, bytes, &mut buffer, written);
        },
        Slipmux::Configuration(message) => {
            let conf = add_check(message);
            written = append(&mut slip, &conf, &mut buffer, written);
        },
        Slipmux::Packet(packet) => {
            written = append(&mut slip, &packet, &mut buffer, written);
        },
    }
    assert(buffer@.take(written as int) == seq![END] + stuff(body));
    let ghost opened = buffer@;
    let (_, rest) = buffer.split_at_mut(written);
    let length: usize = match slip_finish(slip, rest) {
        Ok((_, count)) => written + count,
        Err(_) => written,
    };
    assert(buffer@ == opened.update(written as int, END));
    assert(buffer@.take(length as int) == seq![END] + stuff(body) + seq![END]);
    (buffer, length)
}

} // verus!
