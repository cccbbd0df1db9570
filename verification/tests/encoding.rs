use slipmux::{
    can_encode, encode, encode_configuration, encode_diagnostic, encode_packet, Decoder, Slipmux,
};

#[test]
fn special_bytes_are_escaped() {
    let (result, length) = encode_packet(vec![0x45, 0xC0, 0xDB, 0xDC, 0xDD]);
    assert_eq!(
        result[..length],
        [0xC0, 0x45, 0xDB, 0xDC, 0xDB, 0xDD, 0xDC, 0xDD, 0xC0]
    );
}

#[test]
fn check_sequence_is_escaped_too() {
    // Find a message whose check sequence holds one of the special bytes.
    let mut found = false;
    for byte in 0..=255u8 {
        let plain = slipmux::checksum::fcs16(&[0xA9, byte]).to_le_bytes();
        if byte != 0xC0 && byte != 0xDB && plain.contains(&0xC0) {
            let (result, length) = encode_configuration(vec![byte]);
            assert_eq!(length, 7);
            assert_eq!(result[..3], [0xC0, 0xA9, byte]);
            assert!(result[3..length].windows(2).any(|pair| pair == [0xDB, 0xDC]));
            found = true;
        }
    }
    assert!(found);
}

#[test]
fn zeros_behind_the_frame() {
    let (result, length) = encode_diagnostic("Hi");
    assert_eq!(length, 5);
    assert!(result[length..].iter().all(|byte| *byte == 0));
}

#[test]
fn short_hands_agree_with_encode() {
    let text = "Grüße";
    assert_eq!(encode_diagnostic(text), encode(Slipmux::Diagnostic(text.to_owned())));
    let message = vec![0x40, 0x01, 0xC0];
    assert_eq!(
        encode_configuration(message.clone()),
        encode(Slipmux::Configuration(message.clone()))
    );
    assert_eq!(encode_packet(message.clone()), encode(Slipmux::Packet(message)));
}

#[test]
fn text_is_sent_as_utf8() {
    let (result, length) = encode_diagnostic("ü");
    assert_eq!(result[..length], [0xC0, 0x0A, 0xC3, 0xBC, 0xC0]);
}

#[test]
fn empty_messages() {
    let (result, length) = encode_packet(vec![]);
    assert_eq!(result[..length], [0xC0, 0xC0]);
    let (result, length) = encode_configuration(vec![]);
    assert_eq!(length, 5);
    assert_eq!(result[..2], [0xC0, 0xA9]);
    assert_eq!(result[2..4], slipmux::checksum::fcs16(&[0xA9]).to_le_bytes());
}

#[test]
fn frame_that_fills_the_buffer() {
    let (result, length) = encode_packet(vec![0x45; 2046]);
    assert_eq!(length, 2048);
    assert_eq!(result[0], 0xC0);
    assert_eq!(result[2047], 0xC0);
    assert!(result[1..2047].iter().all(|byte| *byte == 0x45));

    let (result, length) = encode_packet(vec![0xC0; 1023]);
    assert_eq!(length, 2048);
    assert_eq!(result[2045..], [0xDB, 0xDC, 0xC0]);

    let (_, length) = encode_diagnostic(&"x".repeat(2045));
    assert_eq!(length, 2048);
}

#[test]
fn end_only_at_both_ends() {
    let packet: Vec<u8> = (0..=255u8).collect();
    for input in [
        Slipmux::Packet(packet.clone()),
        Slipmux::Configuration(packet),
        Slipmux::Diagnostic("Hello \u{c0}\u{db}".to_owned()),
    ] {
        let (result, length) = encode(input);
        assert_eq!(result[0], 0xC0);
        assert_eq!(result[length - 1], 0xC0);
        assert!(!result[1..length - 1].contains(&0xC0));
    }
}

#[test]
fn message_comes_back() {
    let mut slipmux = Decoder::new();

    let text = "Hello \u{0} \u{c0}\u{db} \u{1F600}";
    let (result, length) = encode_diagnostic(text);
    let mut frames = slipmux.decode(&result[..length]);
    assert_eq!(frames.len(), 1);
    match frames.pop().unwrap() {
        Ok(Slipmux::Diagnostic(s)) => assert_eq!(s, text),
        _ => unreachable!(),
    }

    for length in 0..=255u8 {
        let message: Vec<u8> = (0..length).map(|i| i.wrapping_mul(91)).collect();
        let (result, length) = encode_configuration(message.clone());
        let mut frames = slipmux.decode(&result[..length]);
        assert_eq!(frames.len(), 1);
        match frames.pop().unwrap() {
            Ok(Slipmux::Configuration(s)) => assert_eq!(s, message),
            _ => unreachable!(),
        }

        let mut packet = message;
        packet.insert(0, 0x6F);
        let (result, length) = encode_packet(packet.clone());
        let mut frames = slipmux.decode(&result[..length]);
        assert_eq!(frames.len(), 1);
        match frames.pop().unwrap() {
            Ok(Slipmux::Packet(s)) => assert_eq!(s, packet),
            _ => unreachable!(),
        }
    }
}

#[test]
fn what_can_be_encoded() {
    assert!(can_encode(&Slipmux::Packet(vec![])));
    assert!(can_encode(&Slipmux::Packet(vec![0x45; 2046])));
    assert!(!can_encode(&Slipmux::Packet(vec![0x45; 2047])));
    assert!(can_encode(&Slipmux::Packet(vec![0xC0; 1023])));
    assert!(!can_encode(&Slipmux::Packet(vec![0xC0; 1024])));
    assert!(!can_encode(&Slipmux::Packet(vec![0xDB; 1024])));

    // One byte is left, and the last byte of the packet needs two.
    let mut packet = vec![0x45; 2045];
    packet.push(0xC0);
    assert!(!can_encode(&Slipmux::Packet(packet)));

    assert!(can_encode(&Slipmux::Diagnostic("x".repeat(2045))));
    assert!(!can_encode(&Slipmux::Diagnostic("x".repeat(2046))));
    assert!(!can_encode(&Slipmux::Diagnostic("ü".repeat(1023))));

    let mut longest = 0;
    while can_encode(&Slipmux::Configuration(vec![0x01; longest + 1])) {
        longest += 1;
        let (_, length) = encode_configuration(vec![0x01; longest]);
        assert!(length <= 2048);
    }
    assert!((2041..=2043).contains(&longest));
}
