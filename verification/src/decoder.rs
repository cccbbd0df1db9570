//! Decoding: from the bytes on the line to messages.
use serial_line_ip::Decoder as SlipDecoder;
use vstd::prelude::*;

use crate::message::{meaning, outcome, outcomes, read_frame, Error, Outcome, Slipmux, SlipmuxView};
use crate::slip::{
    bad_escape_after, decoder_escaped, decoder_opened, has_bad_escape, lemma_stuff_bounds, pending,
    slip_decode, stuff, SlipError, END, ESC, ESC_END, ESC_ESC,
};
use crate::stream::{
    idle, lemma_after_bad_escape, lemma_after_concat, lemma_after_full, lemma_after_one,
    lemma_after_preceded, lemma_after_read, lemma_after_stopped_early, lemma_earlier,
    lemma_through_end, through_end, DecoderView, Run, DECODE_CAPACITY,
};

verus! {

/// How far one run through the SLIP decoder has come.
enum DecoderState {
    /// A frame is complete after the given number of bytes.
    Fin(Result<Slipmux, Error>, usize),
    /// The bytes cannot be decoded.
    DecodeError(Error),
    /// An empty frame.
    Skip,
    /// All bytes are taken, and the frame goes on.
    Incomplete,
}

/// Slipmux decoder context.
pub struct Decoder {
    slip: SlipDecoder,
    /// Whether the SLIP decoder is in an escape sequence, which it does not tell.
    escaped: bool,
    /// The number of bytes there are of the frame.
    index: usize,
    /// The frame, and what earlier frames have left behind it.
    buffer: [u8; 10240],
}

impl View for Decoder {
    type V = DecoderView;

    closed spec fn view(&self) -> DecoderView {
        DecoderView {
            frame: self.buffer@.take(self.index as int),
            escaped: self.escaped,
        }
    }
}

/// Whether a decoder that holds `state` meets an escape sequence that stands for nothing in `input`
/// before the frame ends.
spec fn bad_escape_ahead(state: DecoderView, input: Seq<u8>) -> bool {
    has_bad_escape(
        pending(state.escaped) + input,
        (DECODE_CAPACITY - state.frame.len()) as nat,
    )
}

/// A frame that ends at once holds no escape sequence.
proof fn lemma_end_first(input: Seq<u8>)
    requires
        input.len() > 0,
        input[0] == END,
    ensures
        !bad_escape_ahead(idle(), input),
        idle().decoding(input.take(1)).outcomes.len() == 0,
{
    assert(pending(false) + input == input);
    assert forall|data: Seq<u8>| !bad_escape_after(input, data) by {
        lemma_stuff_bounds(data);
        let read = stuff(data).push(ESC);
        if bad_escape_after(input, data) {
            assert(read[0] == input.take(read.len() as int)[0]);
        }
    }
    assert(input.take(1) == seq![END]);
    lemma_after_one(idle().start(), END);
}

/// The line bytes that only open a frame decode to nothing.
proof fn lemma_nothing_decoded(data: Seq<u8>, tail: Seq<u8>)
    requires
        Seq::<u8>::empty() == stuff(data) + tail,
    ensures
        data.len() == 0,
        tail.len() == 0,
{
    assert((stuff(data) + tail).len() == 0);
    if data.len() > 0 {
        assert(stuff(data).len() > 0);
    }
}

impl Default for Decoder {
    /// The same as [`Decoder::new`].
    fn default() -> (decoder: Self)
        ensures
            decoder.wf(),
            decoder@ == idle(),
    {
        Self::new()
    }
}

impl Decoder {
    /// The frame fits into the buffer, and the SLIP decoder is within a frame, in an escape
    /// sequence just when the context notes one.
    pub closed spec fn wf(&self) -> bool {
        &&& self.index <= DECODE_CAPACITY
        &&& decoder_opened(self.slip)
        &&& decoder_escaped(self.slip) == self.escaped
    }

    /// Create a new context for the slipmux decoder.
    #[must_use]
    pub fn new() -> (decoder: Self)
        ensures
            decoder.wf(),
            decoder@ == idle(),
    {
        let mut slip = SlipDecoder::new();
        let mut buffer: [u8; 10240] = [0;10240];
        open_frame(&mut slip, &mut buffer);
        let decoder = Decoder { slip, escaped: false, index: 0, buffer };
        assert(decoder@.frame == Seq::<u8>::empty());
        decoder
    }

    /// Drops the frame.
    fn reset(&mut self)
        ensures
            final(self).wf(),
            final(self)@ == idle(),
    {
        self.slip = SlipDecoder::new();
        open_frame(&mut self.slip, &mut self.buffer);
        self.escaped = false;
        self.index = 0;
        assert(self@.frame == Seq::<u8>::empty());
    }

    /// Decode an input slice into a vector of Slipmux frames.
    ///
    /// Returns a vector of frames.
    /// Length of the vector might be zero, for example when a frame is started but not
    /// completed in the given input. In this case, call `decode()` again once new
    /// input data is available.
    ///
    /// No frame in the input may fill the buffer before it ends, which [`Decoder::has_room`] tells.
    pub fn decode(&mut self, input: &[u8]) -> (results: Vec<Result<Slipmux, Error>>)
        requires
            old(self).wf(),
            old(self)@.has_room_for(input@),
        ensures
            final(self).wf(),
            outcomes(results@) == old(self)@.decoding(input@).outcomes,
            final(self)@ == old(self)@.decoding(input@).left(),
    {
        let ghost begin = self@.start();
        let mut results: Vec<Result<Slipmux, Error>> = Vec::new();
        let mut offset: usize = 0;
        assert(outcomes(results@) == Seq::<Outcome>::empty());
        assert(input@.take(input@.len() as int) == input@);
        while offset < input.len()
            invariant_except_break
                offset <= input@.len(),
                outcomes(results@) == begin.after(input@.take(offset as int)).outcomes,
                self@ == begin.after(input@.take(offset as int)).left(),
                begin.after(input@.take(offset as int)).progress is Running,
                offset < input@.len() ==> begin.after(input@.take(offset as int)).kept
                    == self@.frame,
            invariant
                self.wf(),
                input@.take(input@.len() as int) == input@,
                !(begin.after(input@).progress is Overflowed),
            ensures
                outcomes(results@) == begin.after(input@).outcomes,
                self@ == begin.after(input@).left(),
            decreases input@.len() - offset,
        {
            let rest = &input[offset..input.len()];
            let ghost before = outcomes(results@);
            let ghost run = self@.start();
            proof {
                assert(begin.after(input@.take(offset as int)) == run.preceded_by(before));
                assert(rest@ == input@.skip(offset as int));
                assert(rest@.take(rest@.len() as int) == rest@);
                lemma_resumed(begin, run, before, input@, offset as int, rest@.len() as int);
                lemma_room_through_end(self@, rest@);
            }
            match self.decode_partial(rest) {
                DecoderState::Fin(result, used) => {
                    proof {
                        lemma_resumed(begin, run, before, input@, offset as int, used as int);
                    }
                    results.push(result);
                    assert(outcomes(results@) == before.push(outcome(result)));
                    offset = offset + used;
                },
                DecoderState::DecodeError(error) => {
                    results.push(Err(error));
                    assert(outcomes(results@) == before.push(Err(error)));
                    break ;
                },
                DecoderState::Incomplete => {
                    offset = input.len();
                },
                DecoderState::Skip => {
                    proof {
                        lemma_resumed(begin, run, before, input@, offset as int, 1);
                        assert(rest@.take(1) == seq![END]);
                        lemma_after_one(run, END);
                    }
                    offset = offset + 1;
                },
            }
        }
        results
    }

    /// Runs the SLIP decoder over the input until a frame ends.
    fn decode_partial(&mut self, input: &[u8]) -> (state: DecoderState)
        requires
            old(self).wf(),
            old(self)@.has_room_for(through_end(input@)),
        ensures
            final(self).wf(),
            state is DecodeError <==> bad_escape_ahead(old(self)@, input@),
            state is Skip <==> old(self)@ == idle() && input@.len() > 0 && input@[0] == END,
            match state {
                DecoderState::Fin(result, used) => {
                    &&& 0 < used <= input@.len()
                    &&& input@[used - 1] == END
                    &&& forall|i: int| 0 <= i < used - 1 ==> input@[i] != END
                    &&& old(self)@.decoding(input@.take(used as int)) == idle().start().preceded_by(
                        seq![outcome(result)],
                    )
                    &&& final(self)@ == idle()
                },
                DecoderState::DecodeError(error) => {
                    let run = old(self)@.decoding(input@);
                    &&& run.progress is Rejected
                    &&& run.outcomes == seq![Err::<SlipmuxView, Error>(error)]
                    &&& final(self)@ == run.left()
                },
                DecoderState::Skip => final(self)@ == idle(),
                DecoderState::Incomplete => {
                    let run = old(self)@.decoding(input@);
                    &&& forall|i: int| 0 <= i < input@.len() ==> input@[i] != END
                    &&& run.progress is Running
                    &&& run.outcomes.len() == 0
                    &&& final(self)@ == run.left()
                },
            },
    {
        proof {
            if self@ == idle() && input@.len() > 0 && input@[0] == END {
                lemma_end_first(input@);
            }
        }
        let (used, end): (usize, bool) = match self.feed(input) {
            Ok((used, end)) => (used, end),
            Err(SlipError::NoOutputSpaceForHeader) | Err(SlipError::NoOutputSpaceForEndByte) => {
                return DecoderState::DecodeError(Error::NotEnoughSpace);
            },
            Err(SlipError::BadHeaderDecode) | Err(SlipError::BadEscapeSequenceDecode) => {
                return DecoderState::DecodeError(Error::BadFraming);
            },
        };
        if end && self.index == 0 {
            return DecoderState::Skip;
        }
        if end {
            let result = read_frame(&self.buffer[0..self.index]);
            self.reset();
            DecoderState::Fin(result, used)
        } else {
            assert(input@.take(used as int) == input@);
            DecoderState::Incomplete
        }
    }

    /// Lets the SLIP decoder write behind what there is of the frame.
    ///
    /// Gives the number of bytes read and whether they end the frame.
    fn feed(&mut self, input: &[u8]) -> (result: Result<(usize, bool), SlipError>)
        requires
            old(self).wf(),
            old(self)@.has_room_for(through_end(input@)),
        ensures
            final(self).wf(),
            result is Err <==> bad_escape_ahead(old(self)@, input@),
            match result {
                Ok((used, true)) => {
                    let run = old(self)@.decoding(input@.take(used as int));
                    let frame = final(self)@.frame;
                    &&& 0 < used <= input@.len()
                    &&& input@[used - 1] == END
                    &&& forall|i: int| 0 <= i < used - 1 ==> input@[i] != END
                    &&& run == idle().start().preceded_by(run.outcomes)
                    &&& !final(self)@.escaped
                    &&& frame.len() == 0 ==> used == 1 && old(self)@ == idle()
                    &&& frame.len() > 0 ==> run.outcomes == seq![meaning(frame)]
                },
                Ok((used, false)) => {
                    let run = old(self)@.decoding(input@);
                    &&& used == input@.len()
                    &&& forall|i: int| 0 <= i < input@.len() ==> input@[i] != END
                    &&& run.progress is Running
                    &&& run.outcomes.len() == 0
                    &&& final(self)@ == run.left()
                },
                Err(error) => {
                    let run = old(self)@.decoding(input@);
                    &&& error is BadEscapeSequenceDecode
                    &&& run.progress is Rejected
                    &&& run.outcomes == seq![Err::<SlipmuxView, Error>(Error::BadFraming)]
                    &&& final(self)@ == run.left()
                },
            },
    {
        let ghost run = self@.start();
        assert(input@.skip(0) == input@);
        let (_, free) = self.buffer.split_at_mut(self.index);
        let ghost room = free@.len();
        match slip_decode(&mut self.slip, input, free) {
            Ok((used, data, end)) => {
                let count: usize = data.len();
                let ghost data = data@;
                self.index = self.index + count;
                proof {
                    lemma_escape_read(run.escaped, decoder_escaped(self.slip), input@.take(
                        used as int,
                    ), data, end);
                }
                if used > 0 {
                    self.escaped = input[used - 1] == ESC;
                }
                proof {
                    assert(self@.frame == run.frame + data);
                    lemma_fed(run, input@, used as int, data, end, self@);
                }
                Ok((used, end))
            },
            Err(error) => {
                self.escaped = true;
                proof {
                    let data = choose|data: Seq<u8>|
                        data.len() < room && #[trigger] bad_escape_after(
                            pending(run.escaped) + input@,
                            data,
                        );
                    lemma_after_bad_escape(run, input@, data);
                    assert(self@.frame == run.frame);
                }
                Err(error)
            },
        }
    }

    /// Whether no frame in `input` fills the buffer before it ends, so that `input` can be decoded.
    #[must_use]
    pub fn has_room(&self, input: &[u8]) -> (room: bool)
        requires
            self.wf(),
        ensures
            room == self@.has_room_for(input@),
    {
        let ghost begin = self@.start();
        let mut length: usize = self.index;
        let mut escaped: bool = self.escaped;
        let mut index: usize = 0;
        while index < input.len()
            invariant
                index <= input@.len(),
                length <= DECODE_CAPACITY,
                begin == self@.start(),
                begin.after(input@.take(index as int)).progress is Running,
                begin.after(input@.take(index as int)).frame.len() == length,
                begin.after(input@.take(index as int)).escaped == escaped,
            decreases input@.len() - index,
        {
            let byte: u8 = input[index];
            assert(input@.take(index + 1).drop_last() == input@.take(index as int));
            if length >= DECODE_CAPACITY {
                proof {
                    lemma_after_stopped_early(begin, input@, index + 1);
                }
                return false;
            }
            if escaped {
                if byte != ESC_END && byte != ESC_ESC {
                    proof {
                        lemma_after_stopped_early(begin, input@, index + 1);
                    }
                    return true;
                }
                length = length + 1;
                escaped = false;
            } else if byte == ESC {
                escaped = true;
            } else if byte == END {
                length = 0;
            } else {
                length = length + 1;
            }
            index = index + 1;
        }
        assert(input@.take(index as int) == input@);
        true
    }
}

/// A call with what is left of `input` goes on where the bytes before it have led.
proof fn lemma_resumed(
    begin: Run,
    run: Run,
    before: Seq<Outcome>,
    input: Seq<u8>,
    offset: int,
    used: int,
)
    requires
        0 <= offset <= offset + used <= input.len(),
        begin.after(input.take(offset)) == run.preceded_by(before),
    ensures
        begin.after(input.take(offset + used)) == run.after(
            input.skip(offset).take(used),
        ).preceded_by(before),
{
    let next = input.skip(offset).take(used);
    assert(input.take(offset + used) == input.take(offset) + next);
    lemma_after_concat(begin, input.take(offset), next);
    lemma_after_preceded(run, before, next);
}

/// Room for all of the input is room for the frame it starts in.
proof fn lemma_room_through_end(state: DecoderView, input: Seq<u8>)
    requires
        state.has_room_for(input),
    ensures
        state.has_room_for(through_end(input)),
{
    let head = through_end(input);
    lemma_through_end(input);
    assert(input == head + input.skip(head.len() as int));
    lemma_earlier(state, head, input.skip(head.len() as int));
}

/// What a SLIP decoder has read ends in `ESC` just when it is then in an escape sequence, and where
/// it has read nothing, it is in one just when it was.
proof fn lemma_escape_read(before: bool, after: bool, input: Seq<u8>, data: Seq<u8>, end: bool)
    requires
        pending(before) + input == stuff(data) + (if end {
            seq![END]
        } else {
            pending(after)
        }),
        end ==> !after,
    ensures
        input.len() > 0 ==> after == (input.last() == ESC),
        input.len() == 0 ==> after == before,
        input.len() == 0 ==> !end && data.len() == 0,
{
    lemma_stuff_bounds(data);
    let line = pending(before) + input;
    if end {
        assert(line.last() == END);
    } else if after {
        assert(line.last() == ESC);
    } else {
        assert(line == stuff(data));
    }
    if input.len() == 0 && data.len() > 0 {
        assert(line[0] == ESC);
        assert(line.len() == 1);
        assert(stuff(data).len() == 1);
        assert(stuff(data).last() == line[0]);
    }
}

/// What the decoder holds after its SLIP decoder has read `used` bytes of `input` as `data`.
proof fn lemma_fed(run: Run, input: Seq<u8>, used: int, data: Seq<u8>, end: bool, view: DecoderView)
    requires
        run == (DecoderView { frame: run.frame, escaped: run.escaped }).start(),
        run.frame.len() + data.len() <= DECODE_CAPACITY,
        0 <= used <= input.len(),
        !(run.after(through_end(input)).progress is Overflowed),
        view.frame == run.frame + data,
        pending(run.escaped) + input.take(used) == stuff(data) + (if end {
            seq![END]
        } else {
            pending(view.escaped)
        }),
        end ==> view.frame.len() < DECODE_CAPACITY && !view.escaped,
        !end && view.frame.len() < DECODE_CAPACITY ==> used == input.len(),
        view.frame.len() == DECODE_CAPACITY && view.escaped ==> used == 0,
    ensures
        end ==> {
            let ended = run.after(input.take(used));
            &&& 0 < used
            &&& input[used - 1] == END
            &&& forall|i: int| 0 <= i < used - 1 ==> input[i] != END
            &&& ended == idle().start().preceded_by(ended.outcomes)
            &&& view.frame.len() == 0 ==> used == 1 && !run.escaped
            &&& view.frame.len() > 0 ==> ended.outcomes == seq![meaning(view.frame)]
        },
        !end ==> {
            &&& used == input.len()
            &&& forall|i: int| 0 <= i < input.len() ==> input[i] != END
            &&& run.after(input).progress is Running
            &&& run.after(input).outcomes.len() == 0
            &&& view == run.after(input).left()
        },
{
    let taken = input.take(used);
    let head = through_end(input);
    let read = Run { frame: view.frame, escaped: false, ..run };
    lemma_through_end(input);
    lemma_escape_read(run.escaped, view.escaped, taken, data, end);
    lemma_end_read(run.escaped, view.escaped, taken, data, end);
    if input.len() == 0 {
        assert(taken == input);
        assert(run.frame + data == run.frame);
    } else {
        assert(head.take(0) == Seq::<u8>::empty());
        if run.frame.len() >= DECODE_CAPACITY {
            lemma_after_full(run, head, 0);
        }
        if end {
            lemma_after_read(run, taken, data, seq![END]);
            lemma_after_one(read, END);
            assert(taken.last() == END);
            assert forall|i: int| 0 <= i < used - 1 implies input[i] != END by {
                assert(taken[i] == input[i]);
            }
        } else {
            lemma_after_read(run, taken, data, pending(view.escaped));
            if view.escaped {
                lemma_after_one(read, ESC);
            }
            assert forall|i: int| 0 <= i < used implies input[i] != END by {
                assert(taken[i] == input[i]);
            }
            if used < input.len() {
                assert(head.take(used) == taken);
                lemma_after_full(run, head, used);
            }
            assert(taken == input);
        }
    }
}

/// What a SLIP decoder has read when a frame ends holds `END` as its last byte alone, and is no
/// more than that where nothing is decoded. Before a frame ends, it has read no `END`.
proof fn lemma_end_read(before: bool, after: bool, input: Seq<u8>, data: Seq<u8>, end: bool)
    requires
        pending(before) + input == stuff(data) + (if end {
            seq![END]
        } else {
            pending(after)
        }),
    ensures
        end ==> input.len() > 0 && input.last() == END,
        end ==> forall|i: int| 0 <= i < input.len() - 1 ==> input[i] != END,
        end && data.len() == 0 ==> input.len() == 1 && !before,
        !end ==> forall|i: int| 0 <= i < input.len() ==> input[i] != END,
{
    lemma_stuff_bounds(data);
    let held = pending(before).len() as int;
    let line = pending(before) + input;
    let tail = if end {
        seq![END]
    } else {
        pending(after)
    };
    let last = if end {
        1int
    } else {
        0int
    };
    assert(line == stuff(data) + tail);
    assert(line.len() == held + input.len());
    assert forall|i: int| 0 <= i < input.len() - last implies input[i] != END by {
        assert(input[i] == line[held + i]);
        if held + i < stuff(data).len() {
            assert(line[held + i] == stuff(data)[held + i]);
        } else {
            assert(line[held + i] == tail[held + i - stuff(data).len()]);
        }
    }
    if end {
        assert(line.last() == END);
        if data.len() == 0 {
            assert(line.len() == 1);
            if before {
                assert(line[0] == ESC);
            }
        }
    }
}

/// Lets a new SLIP decoder read the `END` that opens a frame, so that a stream need not start with
/// one.
fn open_frame(slip: &mut SlipDecoder, buffer: &mut [u8; 10240])
    requires
        !decoder_opened(*old(slip)),
        !decoder_escaped(*old(slip)),
    ensures
        decoder_opened(*final(slip)),
        !decoder_escaped(*final(slip)),
{
    let header: [u8; 1] = [END];
    proof {
        assert(header@ == seq![END]);
        assert(pending(false) + header@.skip(1) == Seq::<u8>::empty());
        assert forall|data: Seq<u8>| !bad_escape_after(Seq::<u8>::empty(), data) by {}
    }
    match slip_decode(slip, &header, buffer) {
        Ok((read, data, end)) => {
            proof {
                let tail = if end {
                    seq![END]
                } else {
                    pending(decoder_escaped(*slip))
                };
                assert(pending(false) + header@.skip(1).take(read - 1) == Seq::<u8>::empty());
                lemma_nothing_decoded(data@, tail);
            }
        },
        Err(_) => {},
    }
}

} // verus!
