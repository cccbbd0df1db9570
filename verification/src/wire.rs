//! Which bytes stand where: what is sent for a message, and what is made of each byte that comes.
//!
//! The laws speak of the bytes themselves, so that they can be held against what another device
//! sends and expects.
use vstd::prelude::*;
use vstd::utf8::{decode_utf8, encode_utf8, valid_utf8};

use crate::checksum::{
    ends_in_fcs, fcs, law_check_compares_the_last_two_bytes, law_check_notices_damage,
    law_checked_message_passes,
};
use crate::encoder::{carries, encodable, line};
use crate::message::{
    content, lemma_configuration_length, meaning, outcome, outcomes, repaired_text, Error, Slipmux,
    SlipmuxView,
};
use crate::slip::stuff;
use crate::stream::{idle, DecoderView};

verus! {

/// A diagnostic frame is 0x0A and then the UTF-8 bytes of the text, all of them, in their order.
pub proof fn law_diagnostic_bytes(text: Seq<char>)
    ensures
        ({
            let frame = content(SlipmuxView::Diagnostic(text));
            let bytes = encode_utf8(text);
            &&& frame.len() == bytes.len() + 1
            &&& frame[0] == 0x0A
            &&& forall|i: int| 0 <= i < bytes.len() ==> frame[i + 1] == #[trigger] bytes[i]
        }),
{
}

/// A configuration frame is 0xA9, then the bytes of the message, all of them, in their order, and
/// then the low and the high byte of the check sequence of everything before.
pub proof fn law_configuration_bytes(message: Seq<u8>)
    ensures
        ({
            let frame = content(SlipmuxView::Configuration(message));
            let check = fcs(seq![0xA9u8] + message);
            &&& frame.len() == message.len() + 3
            &&& frame[0] == 0xA9
            &&& forall|i: int| 0 <= i < message.len() ==> frame[i + 1] == #[trigger] message[i]
            &&& frame[frame.len() - 2] == check % 256
            &&& frame[frame.len() - 1] == check / 256
        }),
{
    let frame = content(SlipmuxView::Configuration(message));
    let checked = seq![0xA9u8] + message;
    law_checked_message_passes(checked);
    law_check_compares_the_last_two_bytes(frame);
    assert(frame.take(frame.len() - 2) == checked);
}

/// A packet frame is the packet as it stands.
pub proof fn law_packet_bytes(packet: Seq<u8>)
    ensures
        ({
            let frame = content(SlipmuxView::Packet(packet));
            &&& frame.len() == packet.len()
            &&& forall|i: int| 0 <= i < packet.len() ==> frame[i] == #[trigger] packet[i]
        }),
{
}

/// A frame that starts with 0x0A is a text, and its bytes behind that are the UTF-8 bytes of the
/// text wherever they are UTF-8.
pub proof fn law_text_is_read(frame: Seq<u8>)
    requires
        frame.len() > 0,
        frame[0] == 0x0A,
    ensures
        ({
            let bytes = frame.subrange(1, frame.len() as int);
            &&& meaning(frame) matches Ok(SlipmuxView::Diagnostic(text))
            &&& valid_utf8(bytes) ==> text == decode_utf8(bytes) && encode_utf8(text).len()
                == frame.len() - 1
            &&& valid_utf8(bytes) ==> forall|i: int|
                0 <= i < frame.len() - 1 ==> #[trigger] encode_utf8(text)[i] == frame[i + 1]
            &&& !valid_utf8(bytes) ==> text == repaired_text(bytes)
        }),
{
    broadcast use vstd::utf8::group_utf8_lib;

    let bytes = frame.subrange(1, frame.len() as int);
    assert(frame.skip(1) == bytes);
    if valid_utf8(bytes) {
        assert(encode_utf8(decode_utf8(bytes)) == bytes);
    }
}

/// A frame that starts with 0xA9, however long it is, is a configuration message if its last two
/// bytes are the check sequence of all that comes before them, and has a framing error if not. The
/// message is what stands between the start byte and these two.
pub proof fn law_configuration_is_read(frame: Seq<u8>)
    requires
        frame.len() > 0,
        frame[0] == 0xA9,
    ensures
        ({
            let check = fcs(frame.take(frame.len() - 2));
            if frame.len() >= 3 && frame[frame.len() - 2] == check % 256 && frame[frame.len() - 1]
                == check / 256 {
                &&& meaning(frame) matches Ok(SlipmuxView::Configuration(message))
                &&& message.len() == frame.len() - 3
                &&& forall|i: int| 0 <= i < message.len() ==> #[trigger] message[i] == frame[i + 1]
            } else {
                meaning(frame) == Err::<SlipmuxView, Error>(Error::BadFraming)
            }
        }),
{
    law_check_compares_the_last_two_bytes(frame);
    if ends_in_fcs(frame) {
        lemma_configuration_length(frame);
    }
}

/// A frame that starts with one of the first bytes of an IPv4 or IPv6 packet is that packet, as it
/// stands.
pub proof fn law_packet_is_read(frame: Seq<u8>)
    requires
        frame.len() > 0,
        0x45 <= frame[0] <= 0x4F || 0x60 <= frame[0] <= 0x6F,
    ensures
        meaning(frame) matches Ok(SlipmuxView::Packet(packet)) && packet.len() == frame.len() && (
        forall|i: int| 0 <= i < frame.len() ==> packet[i] == #[trigger] frame[i]),
{
}

/// A frame that starts with any other byte, however long it is and whatever follows, is of an
/// unknown type.
pub proof fn law_unknown_type_is_refused(frame: Seq<u8>)
    requires
        frame.len() > 0,
        frame[0] != 0x0A,
        frame[0] != 0xA9,
        !(0x45 <= frame[0] <= 0x4F),
        !(0x60 <= frame[0] <= 0x6F),
    ensures
        meaning(frame) == Err::<SlipmuxView, Error>(Error::BadFrameType),
{
}

/// A configuration frame whose bytes are changed on the way is never taken for a message, as long
/// as the change lies within two neighbouring bytes behind the start byte: one of them or both, in
/// the message or in the check sequence.
pub proof fn law_damaged_configuration_is_refused(message: Seq<u8>, damaged: Seq<u8>, place: int)
    requires
        damaged != content(SlipmuxView::Configuration(message)),
        damaged.len() == message.len() + 3,
        1 <= place <= message.len() + 1,
        forall|i: int|
            0 <= i < damaged.len() && i != place && i != place + 1 ==> damaged[i] == content(
                SlipmuxView::Configuration(message),
            )[i],
    ensures
        meaning(damaged) == Err::<SlipmuxView, Error>(Error::BadFraming),
{
    let frame = content(SlipmuxView::Configuration(message));
    law_configuration_bytes(message);
    law_checked_message_passes(seq![0xA9u8] + message);
    if ends_in_fcs(damaged) {
        law_check_notices_damage(frame, damaged, place);
    }
}

/// One byte changed behind the start byte of a configuration frame is a framing error.
pub proof fn law_changed_byte_is_noticed(message: Seq<u8>, place: int, byte: u8)
    requires
        1 <= place < message.len() + 3,
        byte != content(SlipmuxView::Configuration(message))[place],
    ensures
        meaning(content(SlipmuxView::Configuration(message)).update(place, byte)) == Err::<
            SlipmuxView,
            Error,
        >(Error::BadFraming),
{
    let frame = content(SlipmuxView::Configuration(message));
    let damaged = frame.update(place, byte);
    law_configuration_bytes(message);
    assert(damaged[place] != frame[place]);
    if place == message.len() + 2 {
        law_damaged_configuration_is_refused(message, damaged, place - 1);
    } else {
        law_damaged_configuration_is_refused(message, damaged, place);
    }
}

/// On the line, a packet without bytes is two times 0xC0, and each further byte comes before the
/// last 0xC0: 0xC0 as 0xDB 0xDC, 0xDB as 0xDB 0xDD, and every other byte as itself.
pub proof fn law_packet_on_the_line(packet: Seq<u8>, byte: u8)
    ensures
        line(SlipmuxView::Packet(Seq::empty())) == seq![0xC0u8, 0xC0u8],
        ({
            let before = line(SlipmuxView::Packet(packet));
            let after = line(SlipmuxView::Packet(packet.push(byte)));
            if byte == 0xC0 {
                after == before.drop_last() + seq![0xDBu8, 0xDCu8, 0xC0u8]
            } else if byte == 0xDB {
                after == before.drop_last() + seq![0xDBu8, 0xDDu8, 0xC0u8]
            } else {
                after == before.drop_last() + seq![byte, 0xC0u8]
            }
        }),
{
    assert(packet.push(byte).drop_last() == packet);
    let before = line(SlipmuxView::Packet(packet));
    assert(before.drop_last() == seq![0xC0u8] + stuff(packet));
}

/// On the line, a diagnostic frame is what a packet of 0x0A and the UTF-8 bytes of the text is.
pub proof fn law_diagnostic_on_the_line(text: Seq<char>)
    ensures
        line(SlipmuxView::Diagnostic(text)) == line(
            SlipmuxView::Packet(seq![0x0Au8] + encode_utf8(text)),
        ),
{
}

/// On the line, a configuration frame is what a packet of 0xA9, the message and the two bytes of
/// the check sequence is.
pub proof fn law_configuration_on_the_line(message: Seq<u8>)
    ensures
        ({
            let checked = seq![0xA9u8] + message;
            line(SlipmuxView::Configuration(message)) == line(
                SlipmuxView::Packet(
                    checked.push((fcs(checked) % 256) as u8).push((fcs(checked) / 256) as u8),
                ),
            )
        }),
{
    let checked = seq![0xA9u8] + message;
    let frame = checked.push((fcs(checked) % 256) as u8).push((fcs(checked) / 256) as u8);
    law_configuration_bytes(message);
    assert(content(SlipmuxView::Configuration(message)) =~= frame);
}

/// What can be encoded is what takes no more than 2048 bytes on the line.
pub proof fn law_buffer_decides(message: SlipmuxView)
    ensures
        encodable(message) <==> line(message).len() <= 2048,
{
}

/// An encoded frame starts in the first place of its buffer, has its length beside it, and has
/// nothing but zeros behind it.
pub proof fn law_buffer_holds_the_line(frame: ([u8; 2048], usize), message: SlipmuxView)
    requires
        line(message).len() <= 2048,
    ensures
        carries(frame, message) <==> {
            &&& frame.1 == line(message).len()
            &&& forall|i: int| 0 <= i < frame.1 ==> #[trigger] frame.0@[i] == line(message)[i]
            &&& forall|i: int| frame.1 <= i < 2048 ==> #[trigger] frame.0@[i] == 0
        },
{
    let front = frame.0@.take(frame.1 as int);
    if frame.1 == line(message).len() {
        assert(forall|i: int| 0 <= i < frame.1 ==> #[trigger] frame.0@[i] == front[i]);
        assert(carries(frame, message) ==> front == line(message));
        if forall|i: int| 0 <= i < frame.1 ==> #[trigger] frame.0@[i] == line(message)[i] {
            assert(front =~= line(message));
        }
    }
}

/// A value says its own text or bytes, and an error stays the error that it is.
pub proof fn law_results_say_what_they_hold(
    text: String,
    bytes: Vec<u8>,
    frame: Slipmux,
    error: Error,
)
    ensures
        Slipmux::Diagnostic(text)@ == SlipmuxView::Diagnostic(text@),
        Slipmux::Configuration(bytes)@ == SlipmuxView::Configuration(bytes@),
        Slipmux::Packet(bytes)@ == SlipmuxView::Packet(bytes@),
        outcome(Ok(frame)) == Ok::<SlipmuxView, Error>(frame@),
        outcome(Err(error)) == Err::<SlipmuxView, Error>(error),
{
}

/// A list of results says what each of them says, in their order.
pub proof fn law_every_result_counts(results: Seq<Result<Slipmux, Error>>)
    ensures
        outcomes(results).len() == results.len(),
        forall|i: int|
            0 <= i < results.len() ==> #[trigger] outcomes(results)[i] == outcome(results[i]),
{
}

/// A new decoder holds no byte of a frame and is not in an escape sequence.
pub proof fn law_new_decoder_holds_nothing()
    ensures
        idle().frame.len() == 0,
        !idle().escaped,
{
}

/// A call without bytes gives nothing and changes nothing.
pub proof fn law_no_bytes_do_nothing(state: DecoderView)
    ensures
        state.has_room_for(Seq::empty()),
        !state.rejects(Seq::empty()),
        state.decoding(Seq::empty()).outcomes.len() == 0,
        state.decoding(Seq::empty()).left() == state,
{
}

/// There is room for one more byte, whatever it is, as long as the frame holds less than 10240.
pub proof fn law_full_buffer_takes_no_byte(state: DecoderView, input: Seq<u8>, byte: u8)
    requires
        !state.rejects(input),
    ensures
        state.has_room_for(input.push(byte)) <==> state.has_room_for(input) && state.decoding(
            input,
        ).left().frame.len() < 10240,
{
    assert(input.push(byte).drop_last() == input);
}

/// A byte that is neither 0xC0 nor 0xDB, outside of an escape sequence, joins the frame and gives
/// no result.
pub proof fn law_plain_byte_joins(state: DecoderView, input: Seq<u8>, byte: u8)
    requires
        state.has_room_for(input.push(byte)),
        !state.rejects(input),
        !state.decoding(input).left().escaped,
        byte != 0xC0,
        byte != 0xDB,
    ensures
        !state.rejects(input.push(byte)),
        state.decoding(input.push(byte)).outcomes == state.decoding(input).outcomes,
        state.decoding(input.push(byte)).left().frame == state.decoding(input).left().frame.push(
            byte,
        ),
        !state.decoding(input.push(byte)).left().escaped,
{
    assert(input.push(byte).drop_last() == input);
}

/// 0xC0 outside of an escape sequence ends the frame. Unless the frame is empty, there is one more
/// result, and it is what the bytes of the frame mean. Nothing of the frame stays.
pub proof fn law_end_gives_the_frame(state: DecoderView, input: Seq<u8>)
    requires
        state.has_room_for(input.push(0xC0)),
        !state.rejects(input),
        !state.decoding(input).left().escaped,
    ensures
        ({
            let frame = state.decoding(input).left().frame;
            let next = state.decoding(input.push(0xC0));
            &&& !state.rejects(input.push(0xC0))
            &&& frame.len() == 0 ==> next.outcomes == state.decoding(input).outcomes
            &&& frame.len() > 0 ==> next.outcomes == state.decoding(input).outcomes.push(
                meaning(frame),
            )
            &&& next.left().frame.len() == 0
            &&& !next.left().escaped
        }),
{
    assert(input.push(0xC0).drop_last() == input);
}

/// 0xDB outside of an escape sequence begins one, and does no more than that.
pub proof fn law_escape_waits(state: DecoderView, input: Seq<u8>)
    requires
        state.has_room_for(input.push(0xDB)),
        !state.rejects(input),
        !state.decoding(input).left().escaped,
    ensures
        !state.rejects(input.push(0xDB)),
        state.decoding(input.push(0xDB)).outcomes == state.decoding(input).outcomes,
        state.decoding(input.push(0xDB)).left().frame == state.decoding(input).left().frame,
        state.decoding(input.push(0xDB)).left().escaped,
{
    assert(input.push(0xDB).drop_last() == input);
}

/// In an escape sequence, 0xDC adds 0xC0 to the frame and 0xDD adds 0xDB, and the sequence is over.
pub proof fn law_escape_is_resolved(state: DecoderView, input: Seq<u8>, byte: u8)
    requires
        state.has_room_for(input.push(byte)),
        !state.rejects(input),
        state.decoding(input).left().escaped,
        byte == 0xDC || byte == 0xDD,
    ensures
        !state.rejects(input.push(byte)),
        state.decoding(input.push(byte)).outcomes == state.decoding(input).outcomes,
        state.decoding(input.push(byte)).left().frame == state.decoding(input).left().frame.push(
            if byte == 0xDC {
                0xC0
            } else {
                0xDB
            },
        ),
        !state.decoding(input.push(byte)).left().escaped,
{
    assert(input.push(byte).drop_last() == input);
}

/// In an escape sequence, every other byte is a framing error, which is the last result of the
/// call. The escape sequence stays open, and of the frame stays what there was of it before the
/// call, or nothing where the call has passed 0xC0.
pub proof fn law_bad_escape_is_refused(state: DecoderView, input: Seq<u8>, byte: u8)
    requires
        state.has_room_for(input.push(byte)),
        !state.rejects(input),
        state.decoding(input).left().escaped,
        byte != 0xDC,
        byte != 0xDD,
    ensures
        state.rejects(input.push(byte)),
        state.decoding(input.push(byte)).outcomes == state.decoding(input).outcomes.push(
            Err::<SlipmuxView, Error>(Error::BadFraming),
        ),
        state.decoding(input.push(byte)).left().escaped,
        input.contains(0xC0) ==> state.decoding(input.push(byte)).left().frame.len() == 0,
        !input.contains(0xC0) ==> state.decoding(input.push(byte)).left().frame == state.frame,
{
    assert(input.push(byte).drop_last() == input);
    lemma_kept(state, input);
}

/// What a call keeps of a frame for the case of an error.
proof fn lemma_kept(state: DecoderView, input: Seq<u8>)
    requires
        state.decoding(input).progress is Running,
    ensures
        state.decoding(input).kept == (if input.contains(0xC0) {
            Seq::empty()
        } else {
            state.frame
        }),
    decreases input.len(),
{
    if input.len() > 0 {
        let front = input.drop_last();
        lemma_kept(state, front);
        if input.last() == 0xC0 {
            assert(input[input.len() - 1] == 0xC0);
        } else if front.contains(0xC0) {
            let place = front.index_of(0xC0);
            assert(input[place] == 0xC0);
        } else if input.contains(0xC0) {
            let place = input.index_of(0xC0);
            assert(front[place] == 0xC0);
        }
    }
}

/// After a framing error within an escape sequence, the call passes over what is left of its bytes.
pub proof fn law_refused_call_reads_no_further(state: DecoderView, input: Seq<u8>, byte: u8)
    requires
        state.rejects(input),
    ensures
        state.has_room_for(input.push(byte)),
        state.rejects(input.push(byte)),
        state.decoding(input.push(byte)).outcomes == state.decoding(input).outcomes,
        state.decoding(input.push(byte)).left() == state.decoding(input).left(),
{
    assert(input.push(byte).drop_last() == input);
}

} // verus!
