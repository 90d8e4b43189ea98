use ferrite_core::ct_import::{
    import_table, map_variable_type, CheatEntriesXml, CheatEntryXml, CheatTableXml, LastStateXml, OffsetsXml,
};
use ferrite_core::pointer::MAX_POINTER_CHAIN_DEPTH;
use ferrite_core::scan_value::ScanValue;
use ferrite_core::script::ScriptKind;
use ferrite_core::table::{AddressExpr, EntryValue};
use ferrite_core::text::TextEncoding;

fn s(text: &str) -> Option<String> {
    Some(text.to_string())
}

fn blank() -> CheatEntryXml {
    CheatEntryXml {
        description: None,
        variable_type: None,
        address: None,
        offsets: None,
        length: None,
        unicode: None,
        zero_terminate: None,
        code_page: None,
        assembler_script: None,
        byte_length: None,
        show_as_hex: None,
        last_state: None,
        nested: None,
    }
}

/// The one-leaf table the import tests wrap each entry body in: described
/// `"S"`, at `"game.exe"+1000`.
fn one_entry(edit: impl FnOnce(&mut CheatEntryXml)) -> CheatTableXml {
    let mut entry = blank();
    entry.description = s("\"S\"");
    entry.address = s("\"game.exe\"+1000");
    edit(&mut entry);
    CheatTableXml { cheat_entries: Some(CheatEntriesXml { entry: vec![entry] }) }
}

fn offsets(n: usize) -> Option<OffsetsXml> {
    Some(OffsetsXml { offset: vec!["10".to_string(); n] })
}

#[test]
fn a_codepage_string_is_reported_rather_than_decoded_as_latin1() {
    let report = import_table(&one_entry(|e| {
        e.variable_type = s("String");
        e.length = s("10");
        e.code_page = s("1");
    }));
    assert_eq!(report.imported.len(), 0);
    assert!(report.skipped[0].reason.contains("CodePage"), "got: {}", report.skipped[0].reason);
    assert_eq!(report.skipped[0].script_text, None);
}

#[test]
fn a_string_without_a_length_is_reported_rather_than_imported_empty() {
    let report = import_table(&one_entry(|e| e.variable_type = s("String")));
    assert_eq!(report.imported.len(), 0);
    assert!(report.skipped[0].reason.contains("<Length>"), "got: {}", report.skipped[0].reason);
}

#[test]
fn an_absurd_length_is_capped_rather_than_allocated() {
    let report = import_table(&one_entry(|e| {
        e.variable_type = s("String");
        e.length = s("999999999");
    }));
    assert_eq!(report.imported.len(), 0);
    assert!(report.skipped[0].reason.contains("limit"), "got: {}", report.skipped[0].reason);
}

#[test]
fn a_length_is_parsed_as_decimal_not_hex() {
    let report = import_table(&one_entry(|e| {
        e.variable_type = s("String");
        e.length = s("20");
    }));
    assert_eq!(report.imported[0].value.to_le_bytes().len(), 20);
}

#[test]
fn an_over_deep_pointer_chain_is_reported_rather_than_walked() {
    let report = import_table(&one_entry(|e| {
        e.variable_type = s("4 Bytes");
        e.offsets = offsets(MAX_POINTER_CHAIN_DEPTH + 1);
    }));
    assert_eq!(report.imported.len(), 0);
    assert!(report.skipped[0].reason.contains("limit"), "got: {}", report.skipped[0].reason);
}

#[test]
fn a_chain_exactly_at_the_depth_limit_still_imports() {
    let report = import_table(&one_entry(|e| {
        e.variable_type = s("4 Bytes");
        e.offsets = offsets(MAX_POINTER_CHAIN_DEPTH);
    }));
    assert_eq!(report.imported[0].pointer_offsets.len(), MAX_POINTER_CHAIN_DEPTH);
}

#[test]
fn an_array_of_byte_without_a_bytelength_is_reported() {
    let report = import_table(&one_entry(|e| e.variable_type = s("Array of byte")));
    assert_eq!(report.imported.len(), 0);
    assert!(report.skipped[0].reason.contains("<ByteLength>"), "got: {}", report.skipped[0].reason);
}

#[test]
fn an_absurd_bytelength_is_capped_rather_than_allocated() {
    let report = import_table(&one_entry(|e| {
        e.variable_type = s("Array of byte");
        e.byte_length = s("999999999");
    }));
    assert_eq!(report.imported.len(), 0);
    assert!(report.skipped[0].reason.contains("limit"), "got: {}", report.skipped[0].reason);
}

#[test]
fn an_unrecognized_type_is_reported_with_the_text_the_file_used() {
    let report = import_table(&one_entry(|e| e.variable_type = s("Something CE Added Later")));
    assert!(
        report.skipped[0].reason.contains("Something CE Added Later"),
        "got: {}",
        report.skipped[0].reason
    );
}

#[test]
fn a_pointer_entry_stays_hex_even_with_showashex_switched_off() {
    let report = import_table(&one_entry(|e| {
        e.variable_type = s("Pointer");
        e.show_as_hex = s("0");
    }));
    assert!(report.imported[0].show_as_hex);
}

#[test]
fn an_imported_entry_keeps_its_address_offsets_and_unquoted_description() {
    let report = import_table(&one_entry(|e| {
        e.variable_type = s(" 4 BYTES ");
        e.offsets = Some(OffsetsXml { offset: vec!["10".to_string(), "20".to_string(), "30".to_string()] });
    }));
    let entry = &report.imported[0];
    assert_eq!(entry.description, "S");
    assert_eq!(
        entry.base,
        AddressExpr::ModuleRelative { module: "game.exe".to_string(), offset: 0x1000 }
    );
    assert_eq!(entry.pointer_offsets, vec![0x10, 0x20, 0x30]);
    assert_eq!(entry.value, EntryValue::Scalar(ScanValue::I32(0)));
    assert!(!entry.frozen);
    assert!(!entry.show_as_hex);
}

#[test]
fn string_entries_follow_cheat_engines_defaults() {
    let plain = import_table(&one_entry(|e| {
        e.variable_type = s("String");
        e.length = s("20");
    }));
    assert_eq!(
        plain.imported[0].value,
        EntryValue::Text { bytes: vec![0; 20], encoding: TextEncoding::Latin1, zero_terminated: true }
    );
    let unicode = import_table(&one_entry(|e| {
        e.variable_type = s("String");
        e.length = s("16");
        e.unicode = s("1");
        e.zero_terminate = s("0");
    }));
    assert_eq!(
        unicode.imported[0].value,
        EntryValue::Text { bytes: vec![0; 32], encoding: TextEncoding::Utf16Le, zero_terminated: false }
    );
    let typed = import_table(&one_entry(|e| {
        e.variable_type = s("Unicode String");
        e.length = s("8");
    }));
    assert_eq!(
        typed.imported[0].value,
        EntryValue::Text { bytes: vec![0; 16], encoding: TextEncoding::Utf16Le, zero_terminated: true }
    );
}

#[test]
fn groups_are_flattened_under_their_path_and_frozen_entries_only_listed() {
    let mut leaf = blank();
    leaf.description = s("\"HP\"");
    leaf.variable_type = s("4 Bytes");
    leaf.address = s("game.exe+1000");
    leaf.last_state = Some(LastStateXml { activated: s("1") });
    let mut group = blank();
    group.description = s("\"Addresses\"");
    group.nested = Some(CheatEntriesXml { entry: vec![leaf] });
    let mut bracket = blank();
    bracket.description = s("Injected");
    bracket.variable_type = s("4 Bytes");
    bracket.address = s("[players]+10");
    let table = CheatTableXml { cheat_entries: Some(CheatEntriesXml { entry: vec![group, bracket] }) };

    let report = import_table(&table);
    assert_eq!(report.imported.len(), 1);
    assert_eq!(report.imported[0].description, "Addresses / HP");
    assert!(!report.imported[0].frozen, "an import never freezes");
    assert_eq!(report.was_active_in_source, vec!["Addresses / HP".to_string()]);
    assert_eq!(report.skipped.len(), 1);
    assert!(report.skipped[0].reason.contains("symbol/pointer-expression"));
}

#[test]
fn a_script_entry_is_skipped_with_its_classification_as_the_reason() {
    let report = import_table(&one_entry(|e| {
        e.variable_type = s("auto assembler script");
        e.assembler_script = s("  {$LUA}\nprint(\"hello\")\n ");
    }));
    assert_eq!(report.imported.len(), 0);
    let skipped = &report.skipped[0];
    assert_eq!(skipped.script_kind, Some(ScriptKind::DataOnlyLua));
    assert_eq!(skipped.reason, "A data-only Lua script");
    assert_eq!(skipped.script_text.as_deref(), Some("{$LUA}\nprint(\"hello\")"));

    let broken = import_table(&one_entry(|e| {
        e.variable_type = s("Auto Assembler Script");
        e.assembler_script = s("[ENABLE]\n[ENABLE]");
    }));
    assert_eq!(broken.skipped[0].script_kind, None);
    assert_eq!(
        broken.skipped[0].reason,
        "The script couldn't be read \u{2014} more than one [ENABLE] section."
    );
}

#[test]
fn an_empty_table_imports_nothing() {
    let report = import_table(&CheatTableXml { cheat_entries: None });
    assert!(report.imported.is_empty() && report.skipped.is_empty());
}

#[test]
fn every_leaf_in_nested_groups_is_imported_or_skipped() {
    let leaf = |name: &str, variable_type: &str, address: &str| {
        let mut e = blank();
        e.description = s(name);
        e.variable_type = s(variable_type);
        e.address = s(address);
        e
    };
    let mut inner = blank();
    inner.description = s("Inner");
    inner.nested = Some(CheatEntriesXml {
        entry: vec![leaf("A", "4 Bytes", "1000"), leaf("B", "Custom", "2000")],
    });
    let mut outer = blank();
    outer.description = s("Outer");
    outer.nested = Some(CheatEntriesXml {
        entry: vec![inner, leaf("C", "Float", "game.exe+10"), leaf("D", "4 Bytes", "[x]+4")],
    });
    let table = CheatTableXml {
        cheat_entries: Some(CheatEntriesXml { entry: vec![outer, leaf("E", "Byte", "3000")] }),
    };
    let report = import_table(&table);
    assert_eq!(report.imported.len() + report.skipped.len(), 5);
    assert_eq!(report.imported.len(), 3);
    assert_eq!(report.imported[0].description, "Outer / Inner / A");
}

#[test]
fn the_unicode_string_type_name_matches_ignoring_case_and_spaces() {
    for name in ["unicode string", "  UNICODE String ", "Unicode String"] {
        let report = import_table(&one_entry(|e| {
            e.variable_type = s(name);
            e.length = s("8");
        }));
        assert_eq!(
            report.imported[0].value,
            EntryValue::Text { bytes: vec![0; 16], encoding: TextEncoding::Utf16Le, zero_terminated: true },
            "{name:?}"
        );
    }
}

#[test]
fn only_the_numeric_type_keys_import_and_unknown_ones_are_never_guessed() {
    let key = |t: &str| t.chars().collect::<Vec<char>>();
    assert_eq!(map_variable_type(&key("pointer"), "Pointer"), Ok(EntryValue::Scalar(ScanValue::I64(0))));
    assert_eq!(map_variable_type(&key("double"), "Double"), Ok(EntryValue::Scalar(ScanValue::F64(0))));
    assert_eq!(
        map_variable_type(&key("quad"), "Quad"),
        Err("unrecognized VariableType \"Quad\"".to_string())
    );
    assert!(map_variable_type(&key("binary"), "Binary").is_err());
}

#[test]
fn frozen_entries_are_listed_in_document_order() {
    let leaf = |name: &str, active: bool| {
        let mut e = blank();
        e.description = s(name);
        e.variable_type = s("4 Bytes");
        e.address = s("1000");
        if active {
            e.last_state = Some(LastStateXml { activated: s("1") });
        }
        e
    };
    let mut group = blank();
    group.description = s("G");
    group.nested = Some(CheatEntriesXml { entry: vec![leaf("B", true), leaf("C", false)] });
    let table = CheatTableXml {
        cheat_entries: Some(CheatEntriesXml { entry: vec![leaf("A", true), group, leaf("D", true)] }),
    };
    let report = import_table(&table);
    let names: Vec<&str> = report.imported.iter().map(|e| e.description.as_str()).collect();
    assert_eq!(names, vec!["A", "G / B", "G / C", "D"]);
    assert_eq!(report.was_active_in_source, vec!["A".to_string(), "G / B".to_string(), "D".to_string()]);
}
