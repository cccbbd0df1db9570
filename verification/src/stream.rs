//! What a decoder makes of a stream of bytes, one byte at a time.
use vstd::prelude::*;

use crate::message::{meaning, Error, Outcome};
use crate::slip::{bad_escape_after, pending, stuff, stuff_byte, END, ESC, ESC_END, ESC_ESC};

verus! {

/// The number of bytes that the decoder's buffer holds.
pub const DECODE_CAPACITY: usize = 10240;

/// What a decoder holds between two calls.
#[verifier::ext_equal]
pub struct DecoderView {
    /// The bytes of the frame that is not complete yet.
    pub frame: Seq<u8>,
    /// Whether the next byte is the second one of an escape sequence.
    pub escaped: bool,
}

/// A decoder with nothing of a frame.
pub open spec fn idle() -> DecoderView {
    DecoderView { frame: Seq::empty(), escaped: false }
}

/// The part of `input` that matters to the frame it starts in: the bytes up to the first `END` and
/// with it, or all of them if there is none.
pub open spec fn through_end(input: Seq<u8>) -> Seq<u8>
    decreases input.len(),
{
    if input.len() == 0 {
        Seq::empty()
    } else if input[0] == END {
        seq![END]
    } else {
        seq![input[0]] + through_end(input.drop_first())
    }
}

/// How a call of the decoder goes on.
pub enum Progress {
    /// It takes the next byte.
    Running,
    /// It has met an escape sequence that stands for nothing, and takes no further byte.
    Rejected,
    /// It has no room for a byte that comes.
    Overflowed,
}

/// What a call of the decoder has come to after some of its bytes.
#[verifier::ext_equal]
pub struct Run {
    /// The bytes of the frame that is not complete yet.
    pub frame: Seq<u8>,
    /// Whether the next byte is the second one of an escape sequence.
    pub escaped: bool,
    /// What is left of the frame if the call is rejected: what was there of it when the call began,
    /// if no frame has ended since.
    pub kept: Seq<u8>,
    /// What came of the frames that are complete.
    pub outcomes: Seq<Outcome>,
    /// How the call goes on.
    pub progress: Progress,
}

impl DecoderView {
    /// The begin of a call.
    pub open spec fn start(self) -> Run {
        Run {
            frame: self.frame,
            escaped: self.escaped,
            kept: self.frame,
            outcomes: Seq::empty(),
            progress: Progress::Running,
        }
    }

    /// What comes of a call with `input`.
    pub open spec fn decoding(self, input: Seq<u8>) -> Run {
        self.start().after(input)
    }

    /// Whether the frames in `input` leave room in the buffer for each byte that comes.
    pub open spec fn has_room_for(self, input: Seq<u8>) -> bool {
        !(self.decoding(input).progress is Overflowed)
    }

    /// Whether `input` holds an escape sequence that stands for nothing.
    pub open spec fn rejects(self, input: Seq<u8>) -> bool {
        self.decoding(input).progress is Rejected
    }
}

impl Run {
    /// After one more byte.
    ///
    /// Empty frames are passed over.
    pub open spec fn after_byte(self, byte: u8) -> Run {
        if !(self.progress is Running) {
            self
        } else if self.frame.len() >= DECODE_CAPACITY {
            Run { progress: Progress::Overflowed, ..self }
        } else if self.escaped {
            if byte == ESC_END {
                Run { frame: self.frame.push(END), escaped: false, ..self }
            } else if byte == ESC_ESC {
                Run { frame: self.frame.push(ESC), escaped: false, ..self }
            } else {
                Run {
                    outcomes: self.outcomes.push(Err(Error::BadFraming)),
                    progress: Progress::Rejected,
                    ..self
                }
            }
        } else if byte == ESC {
            Run { escaped: true, ..self }
        } else if byte == END {
            Run {
                frame: Seq::empty(),
                kept: Seq::empty(),
                outcomes: if self.frame.len() == 0 {
                    self.outcomes
                } else {
                    self.outcomes.push(meaning(self.frame))
                },
                ..self
            }
        } else {
            Run { frame: self.frame.push(byte), ..self }
        }
    }

    /// After all bytes of `input`.
    pub open spec fn after(self, input: Seq<u8>) -> Run
        decreases input.len(),
    {
        if input.len() == 0 {
            self
        } else {
            self.after(input.drop_last()).after_byte(input.last())
        }
    }

    /// What the decoder holds when the call ends here.
    pub open spec fn left(self) -> DecoderView {
        if self.progress is Rejected {
            DecoderView { frame: self.kept, escaped: true }
        } else {
            DecoderView { frame: self.frame, escaped: self.escaped }
        }
    }

    /// The same after other frames.
    pub open spec fn preceded_by(self, outcomes: Seq<Outcome>) -> Run {
        Run { outcomes: outcomes + self.outcomes, ..self }
    }
}

/// Bytes can be taken piece by piece.
pub(crate) proof fn lemma_after_concat(run: Run, left: Seq<u8>, right: Seq<u8>)
    ensures
        run.after(left + right) == run.after(left).after(right),
    decreases right.len(),
{
    if right.len() == 0 {
        assert(left + right == left);
    } else {
        assert((left + right).drop_last() == left + right.drop_last());
        lemma_after_concat(run, left, right.drop_last());
    }
}

/// A single byte.
pub(crate) proof fn lemma_after_one(run: Run, byte: u8)
    ensures
        run.after(seq![byte]) == run.after_byte(byte),
{
    reveal_with_fuel(Run::after, 2);
    assert(seq![byte].drop_last() =~= Seq::empty());
}

/// A call that is over takes no further byte.
pub(crate) proof fn lemma_after_stopped(run: Run, input: Seq<u8>)
    requires
        !(run.progress is Running),
    ensures
        run.after(input) == run,
    decreases input.len(),
{
    if input.len() > 0 {
        lemma_after_stopped(run, input.drop_last());
    }
}

/// A call that is over after the first bytes is over after all.
pub(crate) proof fn lemma_after_stopped_early(run: Run, input: Seq<u8>, count: int)
    requires
        0 <= count <= input.len(),
        !(run.after(input.take(count)).progress is Running),
    ensures
        run.after(input) == run.after(input.take(count)),
{
    assert(input == input.take(count) + input.skip(count));
    lemma_after_concat(run, input.take(count), input.skip(count));
    lemma_after_stopped(run.after(input.take(count)), input.skip(count));
}

/// Stuffed bytes come out as they went in.
pub(crate) proof fn lemma_after_stuffed(run: Run, data: Seq<u8>)
    requires
        run.progress is Running,
        !run.escaped,
        run.frame.len() + data.len() <= DECODE_CAPACITY,
    ensures
        run.after(stuff(data)) == (Run { frame: run.frame + data, ..run }),
    decreases data.len(),
{
    if data.len() == 0 {
        assert(run.frame + data == run.frame);
    } else {
        let front = data.drop_last();
        let byte = data.last();
        let middle = Run { frame: run.frame + front, ..run };
        lemma_after_stuffed(run, front);
        lemma_after_concat(run, stuff(front), stuff_byte(byte));
        assert((run.frame + front).push(byte) == run.frame + data);
        if byte == END || byte == ESC {
            let second = if byte == END {
                ESC_END
            } else {
                ESC_ESC
            };
            assert(stuff_byte(byte) == seq![ESC] + seq![second]);
            lemma_after_concat(middle, seq![ESC], seq![second]);
            lemma_after_one(middle, ESC);
            lemma_after_one(middle.after_byte(ESC), second);
        } else {
            lemma_after_one(middle, byte);
        }
    }
}

/// The first byte of an escape sequence may come before the call or at its begin.
pub(crate) proof fn lemma_after_pending(run: Run, input: Seq<u8>)
    requires
        run.progress is Running,
        run.frame.len() < DECODE_CAPACITY,
    ensures
        run.after(input) == (Run { escaped: false, ..run }).after(pending(run.escaped) + input),
{
    let plain = Run { escaped: false, ..run };
    lemma_after_concat(plain, pending(run.escaped), input);
    if run.escaped {
        lemma_after_one(plain, ESC);
    }
}

/// What a call makes of bytes that are the stuffing of `data` and then `tail`.
pub(crate) proof fn lemma_after_read(run: Run, input: Seq<u8>, data: Seq<u8>, tail: Seq<u8>)
    requires
        run.progress is Running,
        run.frame.len() < DECODE_CAPACITY,
        run.frame.len() + data.len() <= DECODE_CAPACITY,
        pending(run.escaped) + input == stuff(data) + tail,
    ensures
        run.after(input) == (Run { frame: run.frame + data, escaped: false, ..run }).after(tail),
{
    let plain = Run { escaped: false, ..run };
    lemma_after_pending(run, input);
    lemma_after_concat(plain, stuff(data), tail);
    lemma_after_stuffed(plain, data);
}

/// An escape sequence that stands for nothing ends the call.
pub(crate) proof fn lemma_after_bad_escape(run: Run, input: Seq<u8>, data: Seq<u8>)
    requires
        run.progress is Running,
        run.frame.len() + data.len() < DECODE_CAPACITY,
        bad_escape_after(pending(run.escaped) + input, data),
    ensures
        run.after(input) == (Run {
            frame: run.frame + data,
            escaped: true,
            outcomes: run.outcomes.push(Err(Error::BadFraming)),
            progress: Progress::Rejected,
            ..run
        }),
{
    let plain = Run { escaped: false, ..run };
    let line = pending(run.escaped) + input;
    let start = stuff(data).len() as int;
    lemma_after_pending(run, input);
    assert(stuff(data).push(ESC) == stuff(data) + seq![ESC]);
    lemma_after_concat(plain, stuff(data), seq![ESC]);
    lemma_after_stuffed(plain, data);
    lemma_after_one(plain.after(stuff(data)), ESC);
    assert(line.take(start + 2).drop_last() == line.take(start + 1));
    lemma_after_stopped_early(plain, line, start + 2);
}

/// A byte that comes when the buffer is full is one too many.
pub(crate) proof fn lemma_after_full(run: Run, input: Seq<u8>, count: int)
    requires
        0 <= count < input.len(),
        run.after(input.take(count)).progress is Running,
        run.after(input.take(count)).frame.len() >= DECODE_CAPACITY,
    ensures
        run.after(input).progress is Overflowed,
{
    assert(input.take(count + 1).drop_last() == input.take(count));
    lemma_after_stopped_early(run, input, count + 1);
}

/// Frames before the call do not matter to what comes after them.
pub(crate) proof fn lemma_after_preceded(run: Run, outcomes: Seq<Outcome>, input: Seq<u8>)
    ensures
        run.preceded_by(outcomes).after(input) == run.after(input).preceded_by(outcomes),
    decreases input.len(),
{
    if input.len() > 0 {
        lemma_after_preceded(run, outcomes, input.drop_last());
        let middle = run.after(input.drop_last());
        assert(middle.preceded_by(outcomes).after_byte(input.last()) =~= middle.after_byte(
            input.last(),
        ).preceded_by(outcomes));
    }
}

/// A call that stays within the room and is not rejected does so on its first bytes.
pub(crate) proof fn lemma_earlier(state: DecoderView, first: Seq<u8>, second: Seq<u8>)
    ensures
        state.has_room_for(first + second) ==> state.has_room_for(first),
        !state.rejects(first + second) ==> !state.rejects(first),
{
    assert((first + second).take(first.len() as int) == first);
    if !(state.decoding(first).progress is Running) {
        lemma_after_stopped_early(state.start(), first + second, first.len() as int);
    }
}

/// What lies before the first `END`, and what does not.
pub(crate) proof fn lemma_through_end(input: Seq<u8>)
    ensures
        ({
            let count = through_end(input).len() as int;
            &&& count <= input.len()
            &&& through_end(input) == input.take(count)
            &&& forall|i: int| 0 <= i < count - 1 ==> input[i] != END
            &&& count < input.len() ==> count > 0 && input[count - 1] == END
        }),
    decreases input.len(),
{
    if input.len() > 0 && input[0] != END {
        let rest = input.drop_first();
        lemma_through_end(rest);
        let count = through_end(rest).len() as int;
        assert(through_end(input) == input.take(count + 1));
        assert forall|i: int| 0 <= i < count implies input[i] != END by {
            if i > 0 {
                assert(input[i] == rest[i - 1]);
            }
        }
        if count < rest.len() {
            assert(input[count] == rest[count - 1]);
        }
    } else if input.len() > 0 {
        assert(through_end(input) == input.take(1));
    }
}

} // verus!
