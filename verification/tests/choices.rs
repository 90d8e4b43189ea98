use ferrite_core::aob::AobFilter;
use ferrite_core::choices::{
    address_digits, aob_filter_label, filter_label, format_scalar_hex, manual_entry, parse_integer,
    reinterpret_entry_value, RowStatus, ValueTypeChoice,
};
use ferrite_core::scan_value::{ScanFilter, ScanValue};
use ferrite_core::table::{AddressExpr, EntryValue};
use ferrite_core::text::TextEncoding;

#[test]
fn each_type_has_its_label_and_hint() {
    assert_eq!(ValueTypeChoice::I32.label(), "i32");
    assert_eq!(ValueTypeChoice::Aob.label(), "AOB (bytes)");
    assert_eq!(ValueTypeChoice::UnicodeText.label(), "Unicode String");
    assert_eq!(ValueTypeChoice::I8.hint(), "Decimal. Signed 8-bit.");
    assert_eq!(ValueTypeChoice::Text.hint(), "Text, one byte per character.");
}

#[test]
fn the_byte_pattern_types_are_the_pattern_and_the_two_text_types() {
    assert!(ValueTypeChoice::Aob.scans_as_bytes());
    assert!(ValueTypeChoice::Text.scans_as_bytes());
    assert!(ValueTypeChoice::UnicodeText.scans_as_bytes());
    assert!(!ValueTypeChoice::F64.scans_as_bytes());
    assert_eq!(ValueTypeChoice::Text.text_encoding(), Some(TextEncoding::Latin1));
    assert_eq!(ValueTypeChoice::I16.text_encoding(), None);
}

#[test]
fn a_search_box_becomes_the_bytes_to_look_for() {
    assert_eq!(ValueTypeChoice::Aob.parse_pattern("3F a2"), Ok(vec![0x3F, 0xA2]));
    assert_eq!(ValueTypeChoice::UnicodeText.parse_pattern("Hi"), Ok(vec![b'H', 0, b'i', 0]));
    assert!(ValueTypeChoice::Text.parse_pattern("\u{65e5}").is_err());
}

#[test]
fn matched_bytes_are_shown_quoted_or_as_a_pattern() {
    assert_eq!(ValueTypeChoice::Text.format_bytes(b"Bob"), "\"Bob\"");
    assert_eq!(ValueTypeChoice::Aob.format_bytes(&[0xDE, 0xAD]), "DE AD");
    assert_eq!(
        ValueTypeChoice::UnicodeText.entry_value_from_bytes(vec![b'A', 0]),
        EntryValue::Text { bytes: vec![b'A', 0], encoding: TextEncoding::Utf16Le, zero_terminated: false }
    );
    assert_eq!(ValueTypeChoice::Aob.entry_value_from_bytes(vec![1]), EntryValue::Bytes(vec![1]));
}

#[test]
fn integers_are_read_with_a_sign_and_their_range() {
    assert_eq!(parse_integer(ValueTypeChoice::I8, " -128 "), Ok(ScanValue::I8(-128)));
    assert_eq!(parse_integer(ValueTypeChoice::I8, "+127"), Ok(ScanValue::I8(127)));
    assert_eq!(parse_integer(ValueTypeChoice::I8, "128"), Err("'128' isn't a valid i8".to_string()));
    assert_eq!(parse_integer(ValueTypeChoice::I16, "-"), Err("'-' isn't a valid i16".to_string()));
    assert_eq!(
        parse_integer(ValueTypeChoice::I64, "-9223372036854775808"),
        Ok(ScanValue::I64(i64::MIN))
    );
    assert!(parse_integer(ValueTypeChoice::I64, "9223372036854775808").is_err());
    assert!(parse_integer(ValueTypeChoice::I32, "99999999999999999999999").is_err());
    assert_eq!(parse_integer(ValueTypeChoice::I32, "007"), Ok(ScanValue::I32(7)));
    assert!(parse_integer(ValueTypeChoice::I32, "1.5").is_err());
}

#[test]
fn a_refresh_keeps_the_entrys_shape() {
    assert_eq!(
        reinterpret_entry_value(&EntryValue::Scalar(ScanValue::I16(0)), &[0x34, 0x12]),
        EntryValue::Scalar(ScanValue::I16(0x1234))
    );
    let text = EntryValue::Text { bytes: vec![0; 2], encoding: TextEncoding::Latin1, zero_terminated: true };
    assert_eq!(
        reinterpret_entry_value(&text, b"ok"),
        EntryValue::Text { bytes: b"ok".to_vec(), encoding: TextEncoding::Latin1, zero_terminated: true }
    );
}

#[test]
fn a_hex_value_shows_its_bits() {
    assert_eq!(format_scalar_hex(ScanValue::I32(255)), "0xFF");
    assert_eq!(format_scalar_hex(ScanValue::I8(-1)), "0xFF");
    assert_eq!(format_scalar_hex(ScanValue::F32(1.0f32.to_bits())), "0x3F800000");
    assert_eq!(format_scalar_hex(ScanValue::I64(0)), "0x0");
}

#[test]
fn filters_and_row_states_have_their_labels() {
    assert_eq!(filter_label(ScanFilter::Increased), "Increased");
    assert_eq!(aob_filter_label(AobFilter::Unchanged), "Unchanged");
    assert_eq!(RowStatus::ModuleNotFound("g.exe".to_string()).label(), "module \"g.exe\" not found");
    assert_eq!(RowStatus::Unreadable.label(), "unreadable \u{b7} page freed or protected");
    assert!(RowStatus::Resolved.is_resolved());
    assert!(!RowStatus::NotAttached.is_resolved());
}

#[test]
fn an_address_is_padded_to_sixteen_digits_with_the_padding_marked() {
    assert_eq!(address_digits(0x14A20), ("0000000000014A20".to_string(), 11));
    assert_eq!(address_digits(0), ("0000000000000000".to_string(), 15));
    assert_eq!(address_digits(usize::MAX), (format!("{:016X}", usize::MAX), 0));
}

#[test]
fn a_manual_entry_checks_its_fields_in_order() {
    let entry = manual_entry("  ", " game.exe+10 ", "8, 20", Ok(EntryValue::Scalar(ScanValue::I32(5))))
        .expect("valid");
    assert_eq!(entry.description, "game.exe+10");
    assert_eq!(entry.base, AddressExpr::ModuleRelative { module: "game.exe".to_string(), offset: 0x10 });
    assert_eq!(entry.pointer_offsets, vec![8, 0x20]);
    assert!(!entry.frozen && !entry.show_as_hex);
    assert_eq!(
        manual_entry("x", "", "zz", Err("bad value".to_string())),
        Err("enter an address, e.g. 7FF6A8EA7000 or \"game.exe\"+1000".to_string())
    );
    assert_eq!(
        manual_entry("x", "10", "zz", Err("bad value".to_string())),
        Err("'zz' isn't a valid hex offset".to_string())
    );
    assert_eq!(manual_entry("x", "10", "", Err("bad value".to_string())), Err("bad value".to_string()));
    assert_eq!(
        manual_entry(" Health ", "10", "", Ok(EntryValue::Bytes(vec![1]))).unwrap().description,
        "Health"
    );
}
