use ferrite_core::text::{decode_text, encode_text, TextEncoding};

#[test]
fn latin1_round_trips_bytes_above_ascii() {
    let encoded = encode_text("caf\u{e9}", TextEncoding::Latin1).expect("Latin-1 encodable");
    assert_eq!(encoded, vec![b'c', b'a', b'f', 0xE9]);
    assert_eq!(decode_text(&encoded, TextEncoding::Latin1, false), "caf\u{e9}");
}

#[test]
fn latin1_rejects_a_character_it_cant_represent() {
    let err = encode_text("日本", TextEncoding::Latin1).expect_err("not Latin-1 encodable");
    assert!(
        err.contains("Unicode String"),
        "the error should point at the type that can represent it, got: {err}"
    );
}

#[test]
fn utf16le_round_trips() {
    let encoded = encode_text("Hi", TextEncoding::Utf16Le).expect("UTF-16 never fails");
    assert_eq!(encoded, vec![b'H', 0, b'i', 0]);
    assert_eq!(decode_text(&encoded, TextEncoding::Utf16Le, false), "Hi");
}

#[test]
fn utf16le_nul_truncation_is_unit_aligned_not_byte_aligned() {
    let bytes = [0x41, 0x00, 0x42, 0x00];
    assert_eq!(decode_text(&bytes, TextEncoding::Utf16Le, true), "AB");

    let bytes = [0x41, 0x00, 0x00, 0x00, 0x42, 0x00];
    assert_eq!(decode_text(&bytes, TextEncoding::Utf16Le, true), "A");
}

#[test]
fn zero_terminate_truncates_for_display_only_within_the_fixed_buffer() {
    let buffer = b"Bob\0\0\0\0\0";
    assert_eq!(decode_text(buffer, TextEncoding::Latin1, true), "Bob");
    assert_eq!(decode_text(buffer, TextEncoding::Latin1, false), "Bob\0\0\0\0\0");
}

#[test]
fn an_odd_trailing_byte_is_dropped_rather_than_failing() {
    let bytes = [0x41, 0x00, 0x42];
    assert_eq!(decode_text(&bytes, TextEncoding::Utf16Le, false), "A");
}

#[test]
fn a_length_in_characters_becomes_a_buffer_size_in_bytes() {
    assert_eq!(TextEncoding::Latin1.bytes_per_char(), 1);
    assert_eq!(TextEncoding::Utf16Le.bytes_per_char(), 2);
}

#[test]
fn the_latin1_error_quotes_the_character() {
    assert_eq!(
        encode_text("a\u{3b1}", TextEncoding::Latin1),
        Err("'\u{3b1}' can't be encoded as a single byte - use Unicode String instead".to_string())
    );
}

#[test]
fn a_character_outside_the_basic_plane_takes_a_surrogate_pair() {
    let encoded = encode_text("\u{1F600}", TextEncoding::Utf16Le).expect("encodes");
    assert_eq!(encoded, vec![0x3D, 0xD8, 0x00, 0xDE]);
    assert_eq!(decode_text(&encoded, TextEncoding::Utf16Le, false), "\u{1F600}");
}

#[test]
fn an_unpaired_surrogate_decodes_as_the_replacement_character() {
    assert_eq!(decode_text(&[0x00, 0xD8, 0x41, 0x00], TextEncoding::Utf16Le, false), "\u{FFFD}A");
    assert_eq!(decode_text(&[0x00, 0xDC], TextEncoding::Utf16Le, false), "\u{FFFD}");
}

#[test]
fn latin1_text_survives_an_encode_decode_round_trip() {
    let text = "\u{0}\u{7f}\u{80}\u{ff}x";
    let bytes = encode_text(text, TextEncoding::Latin1).expect("fits");
    assert_eq!(decode_text(&bytes, TextEncoding::Latin1, false), text);
}

#[test]
fn any_text_survives_a_utf16_round_trip() {
    let text = "a\u{e9}\u{20ac}\u{1F600}z";
    let bytes = encode_text(text, TextEncoding::Utf16Le).expect("encodes");
    assert_eq!(decode_text(&bytes, TextEncoding::Utf16Le, false), text);
}

#[test]
fn zero_termination_only_cuts_at_the_first_nul() {
    let latin = [b'a', b'b', 0, b'c'];
    assert_eq!(decode_text(&latin, TextEncoding::Latin1, true), decode_text(&latin[..2], TextEncoding::Latin1, false));
    let wide = [b'H', 0, 0, b'i', 0, 0, b'x', 0];
    assert_eq!(decode_text(&wide, TextEncoding::Utf16Le, true), "H\u{6900}");
    assert_eq!(decode_text(&[b'o', b'k'], TextEncoding::Latin1, true), decode_text(&[b'o', b'k'], TextEncoding::Latin1, false));
}

#[test]
fn zero_termination_cuts_the_decoded_text_at_its_first_nul() {
    let cases: [(&[u8], TextEncoding); 4] = [
        (&[b'a', 0, b'b'], TextEncoding::Latin1),
        (&[b'x', b'y'], TextEncoding::Latin1),
        (&[0x3D, 0xD8, 0x00, 0xDE, 0, 0, b'z', 0], TextEncoding::Utf16Le),
        (&[0x00, 0xD8, 0, 0, b'q', 0], TextEncoding::Utf16Le),
    ];
    for (bytes, encoding) in cases {
        let whole = decode_text(bytes, encoding, false);
        let cut = whole.split('\0').next().unwrap().to_string();
        assert_eq!(decode_text(bytes, encoding, true), cut, "{bytes:?}");
    }
    assert_eq!(decode_text(&[1, 2, 0, 200], TextEncoding::Latin1, false).chars().count(), 4);
}
