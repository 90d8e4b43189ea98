use ferrite_core::lua_api::{
    byte_from, describe, integer_from, module_size, name_from_address, qword_from,
    required_address, resolve_in_snapshot, resolve_with_base, sleep_millis, small_integer_from,
    string_read, to_address, AddressArg, Resolution,
};
use ferrite_core::modules::{ModuleInfo, ModuleMap};
use ferrite_core::text::TextEncoding;

fn snapshot() -> ModuleMap {
    ModuleMap::from_modules(vec![ModuleInfo { name: "Game.exe".to_string(), base: 0x1000, size: 0x500 }])
}

#[test]
fn a_number_address_passes_straight_through() {
    let map = ModuleMap::empty();
    let arg = AddressArg::Integer(0x1234);
    assert_eq!(resolve_in_snapshot(&map, &arg), Resolution::Resolved(0x1234));
    let float = AddressArg::Float { truncated: 0x1234, text: "4660.5".to_string() };
    assert_eq!(resolve_in_snapshot(&map, &float), Resolution::Resolved(0x1234));
}

#[test]
fn an_absolute_hex_string_resolves_without_a_process() {
    let arg = AddressArg::Name("7FF6A41C58DA".to_string());
    assert_eq!(resolve_in_snapshot(&ModuleMap::empty(), &arg), Resolution::Resolved(0x7FF6_A41C_58DA));
}

#[test]
fn getaddress_raises_where_getaddresssafe_returns_nil() {
    let arg = AddressArg::Name("nosuch.dll+10".to_string());
    let resolution = resolve_in_snapshot(&ModuleMap::empty(), &arg);
    assert_eq!(resolution, Resolution::AskProcess { module: "nosuch.dll".to_string(), offset: 0x10 });
    let safe = resolve_with_base(None, 0x10);
    assert_eq!(safe, None);
    let err = required_address(safe, &arg).expect_err("getAddress raises");
    assert!(err.contains("could not resolve"), "got: {err}");
    assert_eq!(err, "could not resolve \"nosuch.dll+10\"");
}

#[test]
fn a_module_relative_name_resolves_through_the_snapshot_ignoring_case() {
    let arg = AddressArg::Name("\"game.EXE\"+20".to_string());
    assert_eq!(resolve_in_snapshot(&snapshot(), &arg), Resolution::Resolved(0x1020));
    assert_eq!(resolve_with_base(Some(0x4000), 0x20), Some(0x4020));
}

#[test]
fn an_address_must_be_resolved_and_fit() {
    let arg = AddressArg::Integer(-5);
    assert_eq!(to_address(Some(0x10), &arg), Ok(0x10));
    assert_eq!(to_address(Some(-5), &arg), Err("-5 isn't a valid address".to_string()));
    let other = AddressArg::Other("table".to_string());
    assert_eq!(to_address(None, &other), Err("could not resolve table".to_string()));
    assert_eq!(describe(&AddressArg::Integer(-42)), "-42");
}

#[test]
fn reads_convert_little_endian_bytes_with_optional_sign() {
    assert_eq!(small_integer_from(&[0xFE, 0xFF], true), -2);
    assert_eq!(small_integer_from(&[0xFE, 0xFF], false), 0xFFFE);
    assert_eq!(integer_from(&[0xFF, 0xFF, 0xFF, 0xFF], true), -1);
    assert_eq!(integer_from(&[0xFF, 0xFF, 0xFF, 0xFF], false), 0xFFFF_FFFF);
    assert_eq!(qword_from(&[1, 0, 0, 0, 0, 0, 0, 0x80]), i64::MIN + 1);
}

#[test]
fn a_string_read_counts_characters() {
    assert_eq!(string_read(Some(8), None), Some((8, TextEncoding::Latin1)));
    assert_eq!(string_read(Some(usize::MAX), Some(false)), Some((usize::MAX, TextEncoding::Latin1)));
    assert_eq!(string_read(Some(8), Some(true)), Some((16, TextEncoding::Utf16Le)));
    assert_eq!(string_read(Some(0), Some(true)), None);
    assert_eq!(string_read(None, None), None);
}

#[test]
fn write_bytes_takes_byte_values_only() {
    assert_eq!(byte_from(Some(255)), Some(255));
    assert_eq!(byte_from(Some(256)), None);
    assert_eq!(byte_from(Some(-1)), None);
    assert_eq!(byte_from(None), None);
}

#[test]
fn modules_are_looked_up_in_the_snapshot() {
    let map = snapshot();
    assert_eq!(module_size(&map, "GAME.EXE"), Some(0x500));
    assert_eq!(module_size(&map, "other.dll"), None);
    assert_eq!(name_from_address(&map, 0x1010), Some("Game.exe+10".to_string()));
    assert_eq!(name_from_address(&map, 0x9000), None);
}

#[test]
fn sleep_is_capped_so_a_script_cannot_stall_indefinitely() {
    assert_eq!(sleep_millis(60_000), 250);
    assert_eq!(sleep_millis(10), 10);
}
