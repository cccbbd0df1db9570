//! The 16-bit frame check sequence of PPP, which guards configuration messages.
use vstd::prelude::*;

verus! {

/// What the shift register holds before the first bit.
pub const INITIAL: u16 = 0xFFFF;

/// The generator polynomial x^16 + x^12 + x^5 + 1, lowest power in the highest bit.
pub const POLYNOMIAL: u16 = 0x8408;

/// What the shift register holds after a message and its own check sequence.
pub const RESIDUE: u16 = 0xF0B8;

/// One clock of the shift register: it moves down by one bit, and the bit that falls out decides
/// whether the polynomial is taken off.
pub open spec fn clock(register: u16) -> u16 {
    if register & 1 == 1 {
        (register >> 1) ^ POLYNOMIAL
    } else {
        register >> 1
    }
}

/// The register after one more byte: its eight bits enter, the lowest first.
pub open spec fn shift_in(register: u16, byte: u8) -> u16 {
    clock(clock(clock(clock(clock(clock(clock(clock(register ^ (byte as u16)))))))))
}

/// The register after all of `data`.
pub open spec fn register_after(data: Seq<u8>) -> u16
    decreases data.len(),
{
    if data.len() == 0 {
        INITIAL
    } else {
        shift_in(register_after(data.drop_last()), data.last())
    }
}

/// The check sequence of `data`: the complement of the register.
pub open spec fn fcs(data: Seq<u8>) -> u16 {
    !register_after(data)
}

/// The two bytes in which a check sequence is sent, the low one first.
pub open spec fn trailer(fcs: u16) -> Seq<u8> {
    seq![(fcs & 0xFF) as u8, (fcs >> 8) as u8]
}

/// Whether `frame` ends in the check sequence of all that comes before it.
pub open spec fn ends_in_fcs(frame: Seq<u8>) -> bool {
    frame.len() >= 2 && frame.skip(frame.len() - 2) == trailer(fcs(frame.take(frame.len() - 2)))
}

/// The eight clocks of one byte in one go: the part of the register that leaves, folded onto
/// itself, is the whole of what the polynomial takes off.
proof fn lemma_shift_in_folded(register: u16, byte: u8, low: u16, mixed: u16)
    requires
        low == (register ^ (byte as u16)) & 0xFF,
        mixed == low ^ ((low << 4) & 0xFF),
    ensures
        shift_in(register, byte) == (register >> 8) ^ (mixed << 8) ^ (mixed << 3) ^ (mixed >> 4),
{
    let r0 = register ^ (byte as u16);
    let r1 = clock(r0);
    let r2 = clock(r1);
    let r3 = clock(r2);
    let r4 = clock(r3);
    let r5 = clock(r4);
    let r6 = clock(r5);
    let r7 = clock(r6);
    let r8 = clock(r7);
    assert(r8 == (register >> 8) ^ (mixed << 8) ^ (mixed << 3) ^ (mixed >> 4)) by (bit_vector)
        requires
            low == (register ^ (byte as u16)) & 0xFF,
            mixed == low ^ ((low << 4) & 0xFF),
            r0 == register ^ (byte as u16),
            r1 == clock(r0),
            r2 == clock(r1),
            r3 == clock(r2),
            r4 == clock(r3),
            r5 == clock(r4),
            r6 == clock(r5),
            r7 == clock(r6),
            r8 == clock(r7),
    ;
}

/// Runs one byte through the register without going bit by bit.
fn shift_in_byte(register: u16, byte: u8) -> (next: u16)
    ensures
        next == shift_in(register, byte),
{
    let low: u16 = (register ^ (byte as u16)) & 0xFF;
    let mixed: u16 = low ^ ((low << 4) & 0xFF);
    proof {
        lemma_shift_in_folded(register, byte, low, mixed);
    }
    (register >> 8) ^ (mixed << 8) ^ (mixed << 3) ^ (mixed >> 4)
}

/// Runs all of `data` through the register.
fn run_register(data: &[u8]) -> (register: u16)
    ensures
        register == register_after(data@),
{
    let mut register: u16 = INITIAL;
    let mut index: usize = 0;
    while index < data.len()
        invariant
            index <= data@.len(),
            register == register_after(data@.take(index as int)),
        decreases data@.len() - index,
    {
        assert(data@.take(index + 1).drop_last() == data@.take(index as int));
        register = shift_in_byte(register, data[index]);
        index = index + 1;
    }
    assert(data@.take(index as int) == data@);
    register
}

/// The check sequence of `data`.
pub fn fcs16(data: &[u8]) -> (result: u16)
    ensures
        result == fcs(data@),
{
    !run_register(data)
}

/// Whether `frame` ends in the check sequence of all that comes before it.
///
/// It runs the register over the frame with its check sequence and tests what is left: the
/// residue is the same whatever the message.
pub fn check_fcs(frame: &[u8]) -> (result: bool)
    ensures
        result == ends_in_fcs(frame@),
{
    let register: u16 = run_register(frame);
    proof {
        law_residue_tells(frame@);
    }
    register == RESIDUE
}

/// Two bytes lead a register to the residue just when they are the trailer of its complement.
proof fn lemma_two_bytes(register: u16, low: u8, high: u8)
    ensures
        shift_in(shift_in(register, low), high) == RESIDUE <==> low == ((!register) & 0xFF) as u8
            && high == ((!register) >> 8) as u8,
{
    let low1 = (register ^ (low as u16)) & 0xFF;
    let mixed1 = low1 ^ ((low1 << 4) & 0xFF);
    let middle = shift_in(register, low);
    let low2 = (middle ^ (high as u16)) & 0xFF;
    let mixed2 = low2 ^ ((low2 << 4) & 0xFF);
    let last = shift_in(middle, high);
    lemma_shift_in_folded(register, low, low1, mixed1);
    lemma_shift_in_folded(middle, high, low2, mixed2);
    assert(last == RESIDUE <==> low == ((!register) & 0xFF) as u8 && high == ((!register)
        >> 8) as u8) by (bit_vector)
        requires
            low1 == (register ^ (low as u16)) & 0xFF,
            mixed1 == low1 ^ ((low1 << 4) & 0xFF),
            middle == (register >> 8) ^ (mixed1 << 8) ^ (mixed1 << 3) ^ (mixed1 >> 4),
            low2 == (middle ^ (high as u16)) & 0xFF,
            mixed2 == low2 ^ ((low2 << 4) & 0xFF),
            last == (middle >> 8) ^ (mixed2 << 8) ^ (mixed2 << 3) ^ (mixed2 >> 4),
    ;
}

/// The register ends at the residue exactly on what ends in its own check sequence.
pub proof fn law_residue_tells(frame: Seq<u8>)
    ensures
        register_after(frame) == RESIDUE <==> ends_in_fcs(frame),
{
    reveal_with_fuel(register_after, 3);
    if frame.len() == 0 {
    } else if frame.len() == 1 {
        let byte = frame[0];
        let register = INITIAL;
        let low = (register ^ (byte as u16)) & 0xFF;
        let mixed = low ^ ((low << 4) & 0xFF);
        lemma_shift_in_folded(register, byte, low, mixed);
        let after = shift_in(register, byte);
        assert(frame.drop_last().len() == 0);
        assert(after != RESIDUE) by (bit_vector)
            requires
                register == INITIAL,
                low == (register ^ (byte as u16)) & 0xFF,
                mixed == low ^ ((low << 4) & 0xFF),
                after == (register >> 8) ^ (mixed << 8) ^ (mixed << 3) ^ (mixed >> 4),
        ;
    } else {
        let body = frame.take(frame.len() - 2);
        let low = frame[frame.len() - 2];
        let high = frame.last();
        assert(frame.drop_last().drop_last() == body);
        lemma_two_bytes(register_after(body), low, high);
        let tail = frame.skip(frame.len() - 2);
        assert(tail =~= seq![low, high]);
        let expected = trailer(fcs(body));
        assert(tail == expected ==> tail[0] == expected[0] && tail[1] == expected[1]);
        if low == expected[0] && high == expected[1] {
            assert(tail =~= expected);
        }
    }
}

/// A message followed by its own check sequence always passes the check.
pub proof fn law_checked_message_passes(data: Seq<u8>)
    ensures
        ends_in_fcs(data + trailer(fcs(data))),
        register_after(data + trailer(fcs(data))) == RESIDUE,
{
    let frame = data + trailer(fcs(data));
    assert(frame.take(frame.len() - 2) == data);
    assert(frame.skip(frame.len() - 2) == trailer(fcs(data)));
    law_residue_tells(frame);
}

/// The check sequence of no bytes at all is zero.
pub proof fn law_fcs_of_nothing()
    ensures
        fcs(Seq::empty()) == 0,
{
    assert(!0xFFFFu16 == 0u16) by (bit_vector);
}

/// How one more byte changes the check sequence: its complement, with the byte taken into its low
/// half, goes down eight times by one bit, and each time that a one falls out, 0x8408 is taken off.
pub proof fn law_fcs_of_one_more_byte(data: Seq<u8>, byte: u8, steps: Seq<u16>)
    requires
        steps.len() == 9,
        steps[0] == !fcs(data) ^ (byte as u16),
        forall|k: int|
            0 <= k < 8 ==> #[trigger] steps[k + 1] == (if steps[k] & 1 == 1 {
                (steps[k] >> 1) ^ 0x8408
            } else {
                steps[k] >> 1
            }),
    ensures
        fcs(data.push(byte)) == !steps[8],
{
    let register = register_after(data);
    assert(!(!register) == register) by (bit_vector);
    assert(data.push(byte).drop_last() == data);
    assert(steps[0int + 1] == clock(steps[0]));
    assert(steps[1int + 1] == clock(steps[1]));
    assert(steps[2int + 1] == clock(steps[2]));
    assert(steps[3int + 1] == clock(steps[3]));
    assert(steps[4int + 1] == clock(steps[4]));
    assert(steps[5int + 1] == clock(steps[5]));
    assert(steps[6int + 1] == clock(steps[6]));
    assert(steps[7int + 1] == clock(steps[7]));
}

/// The low and the high byte of a check sequence.
proof fn lemma_trailer_bytes(value: u16)
    ensures
        trailer(value).len() == 2,
        trailer(value)[0] == value % 256,
        trailer(value)[1] == value / 256,
{
    assert((value & 0xFF) as u8 == value % 256) by (bit_vector);
    assert((value >> 8) as u8 == value / 256) by (bit_vector);
}

/// A frame passes the check just when its last two bytes are the check sequence of the bytes before
/// them, the low byte first. What is shorter than two bytes does not.
pub proof fn law_check_compares_the_last_two_bytes(frame: Seq<u8>)
    ensures
        ends_in_fcs(frame) <==> {
            &&& frame.len() >= 2
            &&& frame[frame.len() - 2] == fcs(frame.take(frame.len() - 2)) % 256
            &&& frame[frame.len() - 1] == fcs(frame.take(frame.len() - 2)) / 256
        },
{
    if frame.len() >= 2 {
        let tail = frame.skip(frame.len() - 2);
        let expected = trailer(fcs(frame.take(frame.len() - 2)));
        lemma_trailer_bytes(fcs(frame.take(frame.len() - 2)));
        assert(tail[0] == frame[frame.len() - 2] && tail[1] == frame[frame.len() - 1]);
        if tail[0] == expected[0] && tail[1] == expected[1] {
            assert(tail =~= expected);
        }
    }
}

/// The same byte leads different registers to different registers.
proof fn lemma_shift_in_keeps_apart(left: u16, right: u16, byte: u8)
    requires
        shift_in(left, byte) == shift_in(right, byte),
    ensures
        left == right,
{
    let low1 = (left ^ (byte as u16)) & 0xFF;
    let mixed1 = low1 ^ ((low1 << 4) & 0xFF);
    let low2 = (right ^ (byte as u16)) & 0xFF;
    let mixed2 = low2 ^ ((low2 << 4) & 0xFF);
    lemma_shift_in_folded(left, byte, low1, mixed1);
    lemma_shift_in_folded(right, byte, low2, mixed2);
    assert(left == right) by (bit_vector)
        requires
            low1 == (left ^ (byte as u16)) & 0xFF,
            mixed1 == low1 ^ ((low1 << 4) & 0xFF),
            low2 == (right ^ (byte as u16)) & 0xFF,
            mixed2 == low2 ^ ((low2 << 4) & 0xFF),
            (left >> 8) ^ (mixed1 << 8) ^ (mixed1 << 3) ^ (mixed1 >> 4) == (right >> 8) ^ (mixed2
                << 8) ^ (mixed2 << 3) ^ (mixed2 >> 4),
    ;
}

/// Different bytes lead the same register to registers that no further byte brings together.
proof fn lemma_two_bytes_keep_apart(register: u16, a1: u8, b1: u8, a2: u8, b2: u8)
    requires
        shift_in(shift_in(register, a1), b1) == shift_in(shift_in(register, a2), b2),
    ensures
        a1 == a2,
        b1 == b2,
{
    let low1 = (register ^ (a1 as u16)) & 0xFF;
    let mixed1 = low1 ^ ((low1 << 4) & 0xFF);
    let middle1 = shift_in(register, a1);
    let low2 = (middle1 ^ (b1 as u16)) & 0xFF;
    let mixed2 = low2 ^ ((low2 << 4) & 0xFF);
    let low3 = (register ^ (a2 as u16)) & 0xFF;
    let mixed3 = low3 ^ ((low3 << 4) & 0xFF);
    let middle2 = shift_in(register, a2);
    let low4 = (middle2 ^ (b2 as u16)) & 0xFF;
    let mixed4 = low4 ^ ((low4 << 4) & 0xFF);
    lemma_shift_in_folded(register, a1, low1, mixed1);
    lemma_shift_in_folded(middle1, b1, low2, mixed2);
    lemma_shift_in_folded(register, a2, low3, mixed3);
    lemma_shift_in_folded(middle2, b2, low4, mixed4);
    assert(a1 == a2 && b1 == b2) by (bit_vector)
        requires
            low1 == (register ^ (a1 as u16)) & 0xFF,
            mixed1 == low1 ^ ((low1 << 4) & 0xFF),
            middle1 == (register >> 8) ^ (mixed1 << 8) ^ (mixed1 << 3) ^ (mixed1 >> 4),
            low2 == (middle1 ^ (b1 as u16)) & 0xFF,
            mixed2 == low2 ^ ((low2 << 4) & 0xFF),
            low3 == (register ^ (a2 as u16)) & 0xFF,
            mixed3 == low3 ^ ((low3 << 4) & 0xFF),
            middle2 == (register >> 8) ^ (mixed3 << 8) ^ (mixed3 << 3) ^ (mixed3 >> 4),
            low4 == (middle2 ^ (b2 as u16)) & 0xFF,
            mixed4 == low4 ^ ((low4 << 4) & 0xFF),
            (middle1 >> 8) ^ (mixed2 << 8) ^ (mixed2 << 3) ^ (mixed2 >> 4) == (middle2 >> 8) ^ (
            mixed4 << 8) ^ (mixed4 << 3) ^ (mixed4 >> 4),
    ;
}

/// Registers that differ after the first bytes still differ after the same further bytes.
proof fn lemma_same_end_keeps_apart(left: Seq<u8>, right: Seq<u8>, count: int)
    requires
        left.len() == right.len(),
        0 <= count <= left.len(),
        forall|i: int| count <= i < left.len() ==> left[i] == right[i],
        register_after(left) == register_after(right),
    ensures
        register_after(left.take(count)) == register_after(right.take(count)),
    decreases left.len() - count,
{
    if count == left.len() {
        assert(left.take(count) == left);
        assert(right.take(count) == right);
    } else {
        lemma_same_end_keeps_apart(left, right, count + 1);
        assert(left.take(count + 1).drop_last() == left.take(count));
        assert(right.take(count + 1).drop_last() == right.take(count));
        lemma_shift_in_keeps_apart(
            register_after(left.take(count)),
            register_after(right.take(count)),
            left[count],
        );
    }
}

/// Damage within two neighbouring bytes never goes unnoticed: two frames of the same length that
/// both pass the check, and are the same outside of these two bytes, are the same.
pub proof fn law_check_notices_damage(left: Seq<u8>, right: Seq<u8>, place: int)
    requires
        left.len() == right.len(),
        0 <= place,
        place + 2 <= left.len(),
        forall|i: int|
            0 <= i < left.len() && i != place && i != place + 1 ==> left[i] == right[i],
        ends_in_fcs(left),
        ends_in_fcs(right),
    ensures
        left == right,
{
    reveal_with_fuel(register_after, 3);
    law_residue_tells(left);
    law_residue_tells(right);
    lemma_same_end_keeps_apart(left, right, place + 2);
    assert(left.take(place + 2).drop_last() == left.take(place + 1));
    assert(left.take(place + 1).drop_last() == left.take(place));
    assert(right.take(place + 2).drop_last() == right.take(place + 1));
    assert(right.take(place + 1).drop_last() == right.take(place));
    assert(left.take(place) == right.take(place));
    lemma_two_bytes_keep_apart(
        register_after(left.take(place)),
        left[place],
        left[place + 1],
        right[place],
        right[place + 1],
    );
    assert(left =~= right);
}

} // verus!
