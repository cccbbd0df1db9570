//! What holds of encoding and decoding together, whatever the messages and the bytes.
use vstd::prelude::*;

use crate::checksum::law_checked_message_passes;
use crate::decoder::Decoder;
use crate::encoder::{encodable, line, ENCODE_CAPACITY};
use crate::message::{content, meaning, starts_packet, Error, Outcome, SlipmuxView, CONFIGURATION};
use crate::slip::{lemma_stuff_bounds, stuff, END, ESC_END, ESC_ESC};
use crate::stream::{
    idle, lemma_after_concat, lemma_after_one, lemma_after_preceded, lemma_after_stopped_early,
    lemma_after_stuffed, lemma_earlier, DecoderView, Run, DECODE_CAPACITY,
};

verus! {

/// Whether a frame that carries `message` shows what it is: a packet does by its first byte.
pub open spec fn recognisable(message: SlipmuxView) -> bool {
    match message {
        SlipmuxView::Packet(packet) => packet.len() > 0 && starts_packet(packet[0]),
        _ => true,
    }
}

/// The bytes on the line that carry `messages`, one after the other.
pub open spec fn lines(messages: Seq<SlipmuxView>) -> Seq<u8> {
    messages.map_values(|message: SlipmuxView| line(message)).flatten()
}

/// What comes of handing `chunks` to a decoder one by one: what its calls return, put together, and
/// what it holds in the end.
pub open spec fn fed(state: DecoderView, chunks: Seq<Seq<u8>>) -> (Seq<Outcome>, DecoderView)
    decreases chunks.len(),
{
    if chunks.len() == 0 {
        (Seq::empty(), state)
    } else {
        let (outcomes, middle) = fed(state, chunks.drop_last());
        let run = middle.decoding(chunks.last());
        (outcomes + run.outcomes, run.left())
    }
}

/// Reading the bytes of a frame gives back the message that was put into it.
pub proof fn law_content_means_message(message: SlipmuxView)
    requires
        recognisable(message),
    ensures
        content(message).len() > 0,
        meaning(content(message)) == Ok::<SlipmuxView, Error>(message),
{
    broadcast use vstd::utf8::group_utf8_lib;

    let frame = content(message);
    match message {
        SlipmuxView::Diagnostic(text) => {
            assert(frame.skip(1) == vstd::utf8::encode_utf8(text));
        },
        SlipmuxView::Configuration(message) => {
            let checked = seq![CONFIGURATION] + message;
            law_checked_message_passes(checked);
            assert(frame.subrange(1, frame.len() - 2) == message);
        },
        SlipmuxView::Packet(packet) => {},
    }
}

/// On the line, `END` stands at both ends of a frame and nowhere within it.
pub proof fn law_line_is_delimited(message: SlipmuxView)
    ensures
        line(message).len() >= 2,
        line(message)[0] == END,
        line(message).last() == END,
        forall|i: int| 0 < i < line(message).len() - 1 ==> line(message)[i] != END,
{
    lemma_stuff_bounds(content(message));
}

/// Every message whose frame takes up to half of the buffer can be encoded, whatever its bytes.
pub proof fn law_short_message_is_encodable(message: SlipmuxView)
    requires
        2 * content(message).len() + 2 <= ENCODE_CAPACITY,
    ensures
        encodable(message),
{
    lemma_stuff_bounds(content(message));
}

/// A frame that starts with nothing before it and ends with `END`.
proof fn lemma_after_frame(run: Run, data: Seq<u8>)
    requires
        run.progress is Running,
        run.frame.len() == 0,
        !run.escaped,
        0 < data.len() < DECODE_CAPACITY,
    ensures
        run.after(stuff(data) + seq![END]) == (Run {
            kept: Seq::empty(),
            outcomes: run.outcomes.push(meaning(data)),
            ..run
        }),
{
    lemma_after_concat(run, stuff(data), seq![END]);
    lemma_after_stuffed(run, data);
    assert(run.frame + data == data);
    lemma_after_one(run.after(stuff(data)), END);
    assert(run.frame == Seq::<u8>::empty());
}

/// Between frames, any number of `END`s changes nothing.
pub proof fn law_empty_frames_are_ignored(count: nat, input: Seq<u8>)
    ensures
        idle().decoding(Seq::new(count, |i: int| END) + input) == idle().decoding(input),
    decreases count,
{
    let ends = Seq::new(count, |i: int| END);
    if count == 0 {
        assert(ends + input == input);
    } else {
        let fewer = Seq::new((count - 1) as nat, |i: int| END);
        assert(ends + input == seq![END] + (fewer + input));
        lemma_after_concat(idle().start(), seq![END], fewer + input);
        lemma_after_one(idle().start(), END);
        law_empty_frames_are_ignored((count - 1) as nat, input);
    }
}

/// A decoder between frames reads a frame by its bytes, whether or not an `END` comes before it,
/// and whatever the frame means, what follows is decoded as if the frame had not been there.
pub proof fn law_frame_is_read(data: Seq<u8>, rest: Seq<u8>)
    requires
        0 < data.len() < DECODE_CAPACITY,
    ensures
        idle().decoding(stuff(data) + seq![END] + rest) == idle().decoding(rest).preceded_by(
            seq![meaning(data)],
        ),
        idle().decoding(seq![END] + stuff(data) + seq![END] + rest) == idle().decoding(
            rest,
        ).preceded_by(seq![meaning(data)]),
{
    let begin = idle().start();
    let frame = stuff(data) + seq![END];
    lemma_after_frame(begin, data);
    lemma_after_concat(begin, frame, rest);
    assert(begin.after(frame) == begin.preceded_by(seq![meaning(data)]));
    lemma_after_preceded(begin, seq![meaning(data)], rest);
    law_empty_frames_are_ignored(1, frame + rest);
    assert(Seq::new(1, |i: int| END) + (frame + rest) == seq![END] + stuff(data) + seq![END]
        + rest);
}

/// What is encoded is decoded again: a decoder between frames makes of the bytes of an encoded
/// message that message and nothing else, and is between frames again.
pub proof fn law_message_comes_back(message: SlipmuxView)
    requires
        encodable(message),
        recognisable(message),
    ensures
        idle().has_room_for(line(message)),
        idle().decoding(line(message)).outcomes == seq![Ok::<SlipmuxView, Error>(message)],
        idle().decoding(line(message)).left() == idle(),
{
    law_messages_come_back(seq![message]);
    let messages = seq![message];
    let all = messages.map_values(|message: SlipmuxView| line(message));
    all.lemma_flatten_one_element();
    assert(messages.map_values(|message: SlipmuxView| Ok::<SlipmuxView, Error>(message))
        == seq![Ok::<SlipmuxView, Error>(message)]);
}

/// A stream of encoded messages of any types is decoded to these messages, in their order.
pub proof fn law_messages_come_back(messages: Seq<SlipmuxView>)
    requires
        forall|i: int| 0 <= i < messages.len() ==> encodable(#[trigger] messages[i]),
        forall|i: int| 0 <= i < messages.len() ==> recognisable(#[trigger] messages[i]),
    ensures
        idle().has_room_for(lines(messages)),
        idle().decoding(lines(messages)).outcomes == messages.map_values(
            |message: SlipmuxView| Ok::<SlipmuxView, Error>(message),
        ),
        idle().decoding(lines(messages)).left() == idle(),
{
    lemma_messages(messages);
}

/// A call with encoded messages ends as it began, with these messages as its results.
proof fn lemma_messages(messages: Seq<SlipmuxView>)
    requires
        forall|i: int| 0 <= i < messages.len() ==> encodable(#[trigger] messages[i]),
        forall|i: int| 0 <= i < messages.len() ==> recognisable(#[trigger] messages[i]),
    ensures
        idle().decoding(lines(messages)) == idle().start().preceded_by(
            messages.map_values(|message: SlipmuxView| Ok::<SlipmuxView, Error>(message)),
        ),
    decreases messages.len(),
{
    let as_line = |message: SlipmuxView| line(message);
    let as_ok = |message: SlipmuxView| Ok::<SlipmuxView, Error>(message);
    if messages.len() == 0 {
        assert(messages.map_values(as_ok) == Seq::<Outcome>::empty());
    } else {
        let front = messages.drop_last();
        let message = messages.last();
        lemma_messages(front);
        let all = messages.map_values(as_line);
        all.lemma_flatten_and_flatten_alt_are_equivalent();
        all.drop_last().lemma_flatten_and_flatten_alt_are_equivalent();
        assert(all.drop_last() == front.map_values(as_line));
        assert(lines(messages) == lines(front) + line(message));
        lemma_after_concat(idle().start(), lines(front), line(message));
        lemma_after_preceded(idle().start(), front.map_values(as_ok), line(message));
        law_content_means_message(message);
        lemma_stuff_bounds(content(message));
        law_frame_is_read(content(message), Seq::empty());
        assert(line(message) + Seq::<u8>::empty() == line(message));
        assert(messages.map_values(as_ok) == front.map_values(as_ok) + seq![as_ok(message)]);
    }
}

/// Two runs that differ in no more than what a rejection would leave.
spec fn alike(left: Run, right: Run) -> bool {
    left == (Run { kept: left.kept, ..right })
}

/// Runs that are alike stay alike.
proof fn lemma_after_alike(left: Run, right: Run, input: Seq<u8>)
    requires
        alike(left, right),
    ensures
        alike(left.after(input), right.after(input)),
    decreases input.len(),
{
    if input.len() > 0 {
        lemma_after_alike(left, right, input.drop_last());
    }
}

/// A frame may be split between two calls: the calls return together what one call with all of the
/// bytes returns, and leave the decoder as that call does, unless the second part is rejected.
///
/// The first part must not be rejected, since a call that is drops what it has not read.
pub proof fn law_calls_go_on(state: DecoderView, first: Seq<u8>, second: Seq<u8>)
    requires
        state.has_room_for(first),
        !state.rejects(first),
    ensures
        state.decoding(first + second).outcomes == state.decoding(first).outcomes
            + state.decoding(first).left().decoding(second).outcomes,
        state.has_room_for(first + second) == state.decoding(first).left().has_room_for(second),
        state.rejects(first + second) == state.decoding(first).left().rejects(second),
        !state.rejects(first + second) ==> state.decoding(first + second).left()
            == state.decoding(first).left().decoding(second).left(),
{
    let middle = state.decoding(first);
    let resumed = middle.left().start();
    lemma_after_concat(state.start(), first, second);
    lemma_after_preceded(resumed, middle.outcomes, second);
    assert(alike(middle, resumed.preceded_by(middle.outcomes)));
    lemma_after_alike(middle, resumed.preceded_by(middle.outcomes), second);
}

/// A stream may be handed to the decoder in chunks of any sizes, also within a frame or within an
/// escape sequence: the calls return together what one call with all of it returns, and leave the
/// decoder as that call does, unless the last chunk is rejected.
///
/// No chunk before the last may be rejected, since a call that is drops what it has not read.
pub proof fn law_chunks_make_no_difference(state: DecoderView, chunks: Seq<Seq<u8>>)
    requires
        chunks.len() > 0,
        state.has_room_for(chunks.flatten()),
        !state.rejects(chunks.drop_last().flatten()),
    ensures
        fed(state, chunks).0 == state.decoding(chunks.flatten()).outcomes,
        !state.rejects(chunks.flatten()) ==> fed(state, chunks).1 == state.decoding(
            chunks.flatten(),
        ).left(),
        forall|i: int|
            0 <= i < chunks.len() ==> fed(state, chunks.take(i)).1.has_room_for(
                #[trigger] chunks[i],
            ),
    decreases chunks.len(),
{
    let front = chunks.drop_last();
    let last = chunks.last();
    chunks.lemma_flatten_and_flatten_alt_are_equivalent();
    front.lemma_flatten_and_flatten_alt_are_equivalent();
    assert(chunks.flatten() == front.flatten() + last);
    lemma_earlier(state, front.flatten(), last);
    if front.len() > 0 {
        let earlier = front.drop_last();
        earlier.lemma_flatten_and_flatten_alt_are_equivalent();
        assert(front.flatten() == earlier.flatten() + front.last());
        lemma_earlier(state, earlier.flatten(), front.last());
        law_chunks_make_no_difference(state, front);
    } else {
        assert(front.flatten() == Seq::<u8>::empty());
    }
    law_calls_go_on(state, front.flatten(), last);
    assert forall|i: int| 0 <= i < chunks.len() implies fed(
        state,
        chunks.take(i),
    ).1.has_room_for(#[trigger] chunks[i]) by {
        if i < front.len() {
            assert(front.take(i) == chunks.take(i));
            assert(front[i] == chunks[i]);
        } else {
            assert(chunks.take(i) == front);
        }
    }
}

/// Decoders that hold the same answer the same.
///
/// So a decoder that holds nothing of a frame, be it new, reset or behind a frame that has ended,
/// answers every input as a new one does, and nothing of an earlier frame shows.
pub proof fn law_decoders_answer_alike(left: Decoder, right: Decoder, input: Seq<u8>)
    requires
        left.wf(),
        right.wf(),
        left@ == right@,
    ensures
        left@.has_room_for(input) == right@.has_room_for(input),
        left@.decoding(input).outcomes == right@.decoding(input).outcomes,
        left@.decoding(input).left() == right@.decoding(input).left(),
{
}

/// After the `END` of any frame that is not rejected, be it a message, of an unknown type or of a
/// wrong check sequence, the decoder holds nothing of it and answers as a new one.
pub proof fn law_ended_frame_leaves_nothing(state: DecoderView, input: Seq<u8>, rest: Seq<u8>)
    requires
        state.has_room_for(input.push(END)),
        !state.rejects(input.push(END)),
    ensures
        state.decoding(input.push(END)).left() == idle(),
        state.decoding(input.push(END) + rest) == idle().decoding(rest).preceded_by(
            state.decoding(input.push(END)).outcomes,
        ),
{
    let run = state.decoding(input.push(END));
    assert(input.push(END).drop_last() == input);
    assert(input.push(END) == input + seq![END]);
    lemma_earlier(state, input, seq![END]);
    lemma_after_concat(state.start(), input.push(END), rest);
    assert(run == idle().start().preceded_by(run.outcomes));
    lemma_after_preceded(idle().start(), run.outcomes, rest);
}

/// As long as no frame ends, and none is rejected, there is no result.
pub proof fn law_unfinished_frame_gives_nothing(state: DecoderView, input: Seq<u8>)
    requires
        forall|i: int| 0 <= i < input.len() ==> input[i] != END,
        !state.rejects(input),
    ensures
        state.decoding(input).outcomes.len() == 0,
    decreases input.len(),
{
    if input.len() > 0 {
        let front = input.drop_last();
        assert(input == front + seq![input.last()]);
        lemma_earlier(state, front, seq![input.last()]);
        law_unfinished_frame_gives_nothing(state, front);
    }
}

/// A rejected call reports it last, and leaves the decoder in the escape sequence, with what there
/// was of the frame when the call began, or nothing if a frame has ended since.
pub proof fn law_rejection_is_reported(state: DecoderView, input: Seq<u8>)
    requires
        state.rejects(input),
    ensures
        state.decoding(input).outcomes.len() > 0,
        state.decoding(input).outcomes.last() == Err::<SlipmuxView, Error>(Error::BadFraming),
        state.decoding(input).left().escaped,
        state.decoding(input).left().frame == state.frame || state.decoding(
            input,
        ).left().frame.len() == 0,
{
    lemma_rejected(state, input);
}

/// What a call keeps for the case of a rejection, and what it reports then.
proof fn lemma_rejected(state: DecoderView, input: Seq<u8>)
    ensures
        ({
            let run = state.decoding(input);
            &&& run.kept == state.frame || run.kept.len() == 0
            &&& run.progress is Rejected ==> run.outcomes.len() > 0 && run.outcomes.last() == Err::<
                SlipmuxView,
                Error,
            >(Error::BadFraming)
        }),
    decreases input.len(),
{
    if input.len() > 0 {
        lemma_rejected(state, input.drop_last());
    }
}

/// A decoder in an escape sequence rejects every byte that does not complete it, and stays as it
/// is.
pub proof fn law_open_escape_rejects_again(state: DecoderView, input: Seq<u8>)
    requires
        state.escaped,
        state.frame.len() < DECODE_CAPACITY,
        input.len() > 0,
        input[0] != ESC_END,
        input[0] != ESC_ESC,
    ensures
        state.rejects(input),
        state.decoding(input).outcomes == seq![Err::<SlipmuxView, Error>(Error::BadFraming)],
        state.decoding(input).left() == state,
{
    assert(input.take(1) == seq![input[0]]);
    lemma_after_one(state.start(), input[0]);
    lemma_after_stopped_early(state.start(), input, 1);
}

/// Input that does not reach beyond the buffer, counted from the begin of the unfinished frame, has
/// room, whatever its bytes.
pub proof fn law_short_input_has_room(state: DecoderView, input: Seq<u8>)
    requires
        state.frame.len() + input.len() <= DECODE_CAPACITY,
    ensures
        state.has_room_for(input),
{
    lemma_room(state, input);
}

/// A frame grows by one byte at most with each byte that is read.
proof fn lemma_room(state: DecoderView, input: Seq<u8>)
    requires
        state.frame.len() + input.len() <= DECODE_CAPACITY,
    ensures
        state.decoding(input).frame.len() <= state.frame.len() + input.len(),
        state.has_room_for(input),
    decreases input.len(),
{
    if input.len() > 0 {
        lemma_room(state, input.drop_last());
    }
}

} // verus!
