use ferrite_core::modules::{ModuleError, ModuleInfo, ModuleMap};
use ferrite_core::pointer::MAX_POINTER_CHAIN_DEPTH;
use ferrite_core::scan_value::ScanValue;
use ferrite_core::session::MemoryError;
use ferrite_core::table::{
    module_relative_base, parse_address_expr, parse_hex_usize, parse_pointer_offsets,
    AddressExpr, EntryValue, ResolveError,
};
use ferrite_core::text::TextEncoding;

#[test]
fn parses_a_bare_hex_address() {
    assert_eq!(
        parse_address_expr("7FF6A8EA7000"),
        Ok(AddressExpr::Absolute(0x7FF6_A8EA_7000))
    );
    assert_eq!(parse_address_expr("0x1000"), Ok(AddressExpr::Absolute(0x1000)));
}

#[test]
fn parses_a_module_relative_address_quoted_or_not() {
    assert_eq!(
        parse_address_expr("\"GTA5.exe\"+01C58DA0"),
        Ok(AddressExpr::ModuleRelative { module: "GTA5.exe".to_string(), offset: 0x01C5_8DA0 })
    );
    assert_eq!(
        parse_address_expr("GTA5.exe+24BB438"),
        Ok(AddressExpr::ModuleRelative { module: "GTA5.exe".to_string(), offset: 0x24BB438 })
    );
}

#[test]
fn parses_a_pointer_chain_separated_by_commas_or_spaces() {
    assert_eq!(parse_pointer_offsets("10,20,30"), Ok(vec![0x10, 0x20, 0x30]));
    assert_eq!(parse_pointer_offsets("10 20 30"), Ok(vec![0x10, 0x20, 0x30]));
    assert_eq!(parse_pointer_offsets(" 0x10, 20 ,30 "), Ok(vec![0x10, 0x20, 0x30]));
}

#[test]
fn an_empty_offsets_field_is_a_direct_address_not_a_chain_of_one() {
    assert_eq!(parse_pointer_offsets(""), Ok(Vec::new()));
    assert_eq!(parse_pointer_offsets("   "), Ok(Vec::new()));
    assert_eq!(parse_pointer_offsets("0"), Ok(vec![0]));
}

#[test]
fn rejects_a_bad_offset_and_an_over_deep_chain() {
    assert!(parse_pointer_offsets("10,zz,30").is_err());
    let too_deep = vec!["10"; MAX_POINTER_CHAIN_DEPTH + 1].join(",");
    assert!(parse_pointer_offsets(&too_deep).unwrap_err().contains("limit"));
    let at_limit = vec!["10"; MAX_POINTER_CHAIN_DEPTH].join(",");
    assert!(parse_pointer_offsets(&at_limit).is_ok());
}

#[test]
fn rejects_garbage_input() {
    assert!(parse_address_expr("").is_err());
    assert!(parse_address_expr("not an address").is_err());
    assert!(parse_address_expr("+1000").is_err());
}

#[test]
fn address_errors_say_what_was_wrong() {
    assert_eq!(
        parse_address_expr("  "),
        Err("enter an address, e.g. 7FF6A8EA7000 or \"game.exe\"+1000".to_string())
    );
    assert_eq!(
        parse_address_expr("\"\" + 10"),
        Err("missing a module name before '+'".to_string())
    );
    assert_eq!(
        parse_address_expr("game.exe+ xyz"),
        Err("' xyz' isn't a valid hex offset".to_string())
    );
    assert_eq!(
        parse_address_expr(" nope "),
        Err("'nope' isn't a valid address or module+offset expression".to_string())
    );
}

#[test]
fn the_last_plus_splits_module_from_offset() {
    assert_eq!(
        parse_address_expr("a+b.dll+10"),
        Ok(AddressExpr::ModuleRelative { module: "a+b.dll".to_string(), offset: 0x10 })
    );
}

#[test]
fn hex_offsets_take_an_optional_prefix_and_sign() {
    assert_eq!(parse_hex_usize(" 0X1f "), Some(0x1F));
    assert_eq!(parse_hex_usize("+A"), Some(0xA));
    assert_eq!(parse_hex_usize("0x"), None);
    assert_eq!(parse_hex_usize("-1"), None);
    assert_eq!(parse_hex_usize("1_000"), None);
    assert_eq!(parse_hex_usize("FFFFFFFFFFFFFFFFF"), None);
}

#[test]
fn offset_errors_quote_the_bad_token_and_count_the_chain() {
    assert_eq!(parse_pointer_offsets("10, zz ,30"), Err("'zz' isn't a valid hex offset".to_string()));
    let too_deep = vec!["1"; 17].join(" ");
    assert_eq!(
        parse_pointer_offsets(&too_deep),
        Err("17 offsets is over the 16-level limit".to_string())
    );
}

#[test]
fn an_entry_value_is_written_as_its_bytes() {
    assert_eq!(EntryValue::Scalar(ScanValue::I32(0x0102_0304)).to_le_bytes(), vec![4, 3, 2, 1]);
    assert_eq!(EntryValue::Bytes(vec![0xDE, 0xAD]).to_le_bytes(), vec![0xDE, 0xAD]);
    let text = EntryValue::Text {
        bytes: vec![b'H', 0, b'i', 0],
        encoding: TextEncoding::Utf16Le,
        zero_terminated: true,
    };
    assert_eq!(text.to_le_bytes(), vec![b'H', 0, b'i', 0]);
}

#[test]
fn a_module_relative_base_adds_the_offset_or_reports_the_module() {
    assert_eq!(module_relative_base("game.exe", 0x10, Ok(0x1000)), Ok(0x1010));
    assert_eq!(
        module_relative_base("game.exe", 0x10, Err(ModuleError::NotFound)),
        Err(ResolveError::ModuleNotFound("game.exe".to_string()))
    );
    assert_eq!(
        module_relative_base("game.exe", 0x10, Err(ModuleError::Memory(MemoryError::Os(5)))),
        Err(ResolveError::Memory(MemoryError::Os(5)))
    );
}

#[test]
fn resolve_errors_read_as_sentences() {
    assert_eq!(
        ResolveError::ModuleNotFound("game.exe".to_string()).message(),
        "module \"game.exe\" isn't loaded"
    );
    assert_eq!(
        ResolveError::Memory(MemoryError::Partial { requested: 8, transferred: 3 }).message(),
        "only 3 of 8 requested bytes were transferred"
    );
}

#[test]
fn a_resolved_module_offset_parses_back_as_the_same_address() {
    let map = ModuleMap::from_modules(vec![ModuleInfo {
        name: "game.exe".to_string(),
        base: 0x1000,
        size: 0x1000,
    }]);
    let resolved = map.resolve(0x1ABC).expect("inside game.exe");
    assert_eq!(
        parse_address_expr(&resolved.to_string()),
        Ok(AddressExpr::ModuleRelative { module: "game.exe".to_string(), offset: 0xABC })
    );
}

#[test]
fn a_module_name_holding_a_plus_still_reads_back() {
    let text = ferrite_core::modules::ModuleOffset { module: "a+b.dll".to_string(), offset: 0x1A }.to_string();
    assert_eq!(text, "a+b.dll+1A");
    assert_eq!(
        parse_address_expr(&text),
        Ok(AddressExpr::ModuleRelative { module: "a+b.dll".to_string(), offset: 0x1A })
    );
}
