use slipmux::{encode_configuration, encode_diagnostic, encode_packet, Decoder, Error, Slipmux};

/// What a result says, in a form that can be compared.
fn show(result: &Result<Slipmux, Error>) -> String {
    format!("{:?}", result)
}

fn show_all(results: &[Result<Slipmux, Error>]) -> Vec<String> {
    results.iter().map(show).collect()
}

fn packet(bytes: &[u8]) -> String {
    show(&Ok(Slipmux::Packet(bytes.to_vec())))
}

fn text(text: &str) -> String {
    show(&Ok(Slipmux::Diagnostic(text.to_owned())))
}

fn bad_framing() -> String {
    show(&Err(Error::BadFraming))
}

fn bad_frame_type() -> String {
    show(&Err(Error::BadFrameType))
}

#[test]
fn start_bytes_of_packets() {
    for byte in 0..=255u8 {
        if byte == 0x0A || byte == 0xA9 || byte == 0xC0 || byte == 0xDB {
            continue;
        }
        let mut slipmux = Decoder::new();
        let results = slipmux.decode(&[0xC0, byte, 0x01, 0xC0]);
        let expected = if (0x45..=0x4F).contains(&byte) || (0x60..=0x6F).contains(&byte) {
            packet(&[byte, 0x01])
        } else {
            bad_frame_type()
        };
        assert_eq!(show_all(&results), vec![expected]);
    }
}

#[test]
fn wrong_check_sequence() {
    let mut slipmux = Decoder::new();
    assert_eq!(
        show_all(&slipmux.decode(b"\xc0\xa9Hello World!\x49\xfe\xc0")),
        vec![bad_framing()]
    );
    assert_eq!(
        show_all(&slipmux.decode(b"\xc0\xa9hello World!\x49\xff\xc0")),
        vec![bad_framing()]
    );
    // Too short to hold a check sequence.
    assert_eq!(show_all(&slipmux.decode(&[0xA9, 0xC0])), vec![bad_framing()]);
    assert_eq!(show_all(&slipmux.decode(&[0xA9, 0x01, 0xC0])), vec![bad_framing()]);
    // The next frame is not affected.
    assert_eq!(show_all(&slipmux.decode(&[0x45, 0xC0])), vec![packet(&[0x45])]);
}

#[test]
fn text_that_is_not_utf8() {
    let mut slipmux = Decoder::default();
    assert_eq!(
        show_all(&slipmux.decode(&[0x0A, 0x48, 0xFF, 0x69, 0xC0])),
        vec![text("H\u{FFFD}i")]
    );
    assert_eq!(
        show_all(&slipmux.decode(&[0x0A, 0xC3, 0xBC, 0xC0, 0x0A, 0xC0])),
        vec![text("ü"), text("")]
    );
}

#[test]
fn escapes_are_undone() {
    let mut slipmux = Decoder::new();
    assert_eq!(
        show_all(&slipmux.decode(&[0x45, 0xDB, 0xDC, 0xDB, 0xDD, 0xDC, 0xDD, 0xC0])),
        vec![packet(&[0x45, 0xC0, 0xDB, 0xDC, 0xDD])]
    );
}

#[test]
fn nothing_in_nothing_out() {
    let mut slipmux = Decoder::new();
    assert!(slipmux.decode(&[]).is_empty());
    assert!(slipmux.decode(&[0xC0, 0xC0, 0xC0]).is_empty());
    assert!(slipmux.decode(&[0xC0, 0x45, 0x01]).is_empty());
    assert!(slipmux.decode(&[]).is_empty());
    assert_eq!(show_all(&slipmux.decode(&[0xC0, 0xC0])), vec![packet(&[0x45, 0x01])]);
}

#[test]
fn empty_packet_is_ignored() {
    let (result, length) = encode_packet(vec![]);
    assert!(Decoder::new().decode(&result[..length]).is_empty());
}

#[test]
fn packet_of_unknown_type_does_not_come_back() {
    let (result, length) = encode_packet(vec![0x50, 0x01]);
    assert_eq!(show_all(&Decoder::new().decode(&result[..length])), vec![bad_frame_type()]);
}

#[test]
fn chunks_make_no_difference() {
    let mut stream = vec![0xC0, 0xC0];
    let (result, length) = encode_diagnostic("Hello World!");
    stream.extend_from_slice(&result[..length]);
    let (result, length) = encode_configuration(vec![0xC0, 0xDB, 0xC0, 0x00]);
    stream.extend_from_slice(&result[..length]);
    stream.extend_from_slice(&[0x50, 0x51, 0xC0, 0xA9, 0x00, 0x01, 0x02, 0xC0]);
    let (result, length) = encode_packet(vec![0x60, 0xDB, 0xDB, 0xC0, 0xC0]);
    stream.extend_from_slice(&result[..length]);
    stream.extend_from_slice(&[0x45, 0xDB]);

    let whole = show_all(&Decoder::new().decode(&stream));
    assert_eq!(whole.len(), 5);
    for size in 1..=stream.len() {
        let mut slipmux = Decoder::new();
        let mut parts = Vec::new();
        for chunk in stream.chunks(size) {
            parts.extend(show_all(&slipmux.decode(chunk)));
        }
        assert_eq!(parts, whole);
        assert_eq!(show_all(&slipmux.decode(&[0xDC, 0xC0])), vec![packet(&[0x45, 0xC0])]);
    }
}

#[test]
fn bad_escape_drops_the_rest_of_the_input() {
    let mut slipmux = Decoder::new();
    assert_eq!(
        show_all(&slipmux.decode(&[0x45, 0xC0, 0x60, 0xDB, 0x00, 0xC0, 0x45, 0xC0])),
        vec![packet(&[0x45]), bad_framing()]
    );
    // The escape sequence is still open, and nothing of the second frame is left.
    assert_eq!(show_all(&slipmux.decode(&[0xDD, 0xC0])), vec![bad_frame_type()]);
    assert_eq!(show_all(&slipmux.decode(&[0x45, 0xC0])), vec![packet(&[0x45])]);
}

#[test]
fn bad_escape_keeps_what_earlier_calls_brought() {
    let mut slipmux = Decoder::new();
    assert!(slipmux.decode(&[0x45, 0x01]).is_empty());
    assert_eq!(show_all(&slipmux.decode(&[0x02, 0xDB, 0x00])), vec![bad_framing()]);
    assert_eq!(
        show_all(&slipmux.decode(&[0xDC, 0x03, 0xC0])),
        vec![packet(&[0x45, 0x01, 0xC0, 0x03])]
    );
}

#[test]
fn open_escape_rejects_again() {
    let mut slipmux = Decoder::new();
    assert_eq!(show_all(&slipmux.decode(&[0xDB, 0xC0])), vec![bad_framing()]);
    for _ in 0..3 {
        assert_eq!(show_all(&slipmux.decode(&[0x45, 0xC0])), vec![bad_framing()]);
    }
    assert_eq!(show_all(&slipmux.decode(&[0xC0, 0xC0])), vec![bad_framing()]);
    assert_eq!(show_all(&slipmux.decode(&[0xDC, 0xC0, 0x45, 0xC0])), vec![
        bad_frame_type(),
        packet(&[0x45])
    ]);
}

#[test]
fn split_escape_sequence() {
    let mut slipmux = Decoder::new();
    assert!(slipmux.decode(&[0x45, 0xDB]).is_empty());
    assert!(slipmux.decode(&[0xDD]).is_empty());
    assert!(slipmux.decode(&[0xDB]).is_empty());
    assert_eq!(
        show_all(&slipmux.decode(&[0xDC, 0xC0])),
        vec![packet(&[0x45, 0xDB, 0xC0])]
    );
}

#[test]
fn longest_frame() {
    let longest = vec![0x45; 10239];
    let mut stream = longest.clone();
    stream.push(0xC0);
    let mut slipmux = Decoder::new();
    assert_eq!(show_all(&slipmux.decode(&stream)), vec![packet(&longest)]);

    // The buffer may fill up, as long as nothing more comes.
    assert!(slipmux.decode(&vec![0x45; 10240]).is_empty());
    assert!(slipmux.decode(&[]).is_empty());
}

#[test]
fn bytes_of_many_short_frames() {
    let mut stream = Vec::new();
    for _ in 0..5000 {
        stream.extend_from_slice(&[0x45, 0x01, 0x02, 0xC0]);
    }
    let results = Decoder::new().decode(&stream);
    assert_eq!(results.len(), 5000);
    assert!(results.iter().all(|result| show(result) == packet(&[0x45, 0x01, 0x02])));
}

#[test]
fn what_has_room() {
    let mut slipmux = Decoder::new();
    assert!(slipmux.has_room(&[]));
    assert!(slipmux.has_room(&[0x45; 10240]));
    assert!(!slipmux.has_room(&[0x45; 10241]));

    let mut input = vec![0x45; 10239];
    input.push(0xC0);
    input.extend_from_slice(&[0x45; 10240]);
    assert!(slipmux.has_room(&input));
    input.push(0xC0);
    assert!(!slipmux.has_room(&input));

    // An escape sequence counts as one byte, and one that stands for nothing ends the call.
    let mut input = vec![0x45; 10239];
    input.extend_from_slice(&[0xDB, 0xDC]);
    assert!(slipmux.has_room(&input));
    input.push(0xC0);
    assert!(!slipmux.has_room(&input));
    input[10240] = 0x00;
    assert!(slipmux.has_room(&input));

    // What the decoder holds counts too.
    assert!(slipmux.decode(&[0x45; 10239]).is_empty());
    assert!(slipmux.has_room(&[0xC0, 0x45]));
    assert!(slipmux.has_room(&[0x45]));
    assert!(!slipmux.has_room(&[0x45, 0xC0]));
    assert!(slipmux.decode(&[0xDB]).is_empty());
    assert!(slipmux.has_room(&[0xDD]));
    assert!(!slipmux.has_room(&[0xDD, 0xC0]));
    assert!(slipmux.has_room(&[0x00, 0x45, 0x45]));
    assert!(slipmux.decode(&[0xDD]).is_empty());
    assert!(slipmux.has_room(&[]));
    assert!(!slipmux.has_room(&[0xC0]));
}

#[test]
fn nothing_of_an_earlier_frame_shows() {
    let follow_up: &[u8] = &[0xC0, 0x0A, 0x48, 0x69, 0xC0, 0x45, 0xC0];
    let expected = show_all(&Decoder::new().decode(follow_up));
    assert_eq!(expected, vec![text("Hi"), packet(&[0x45])]);
    let earlier: [&[u8]; 5] = [
        &[0x45, 0x01, 0x02, 0xC0],
        &[0x50, 0x01, 0x02, 0xC0],
        &[0xA9, 0x01, 0x02, 0x03, 0xC0],
        &[0x0A, 0xDB, 0xDC, 0xC0],
        &[0xC0],
    ];
    for input in earlier {
        let mut slipmux = Decoder::new();
        slipmux.decode(input);
        assert_eq!(show_all(&slipmux.decode(follow_up)), expected);
    }
}
