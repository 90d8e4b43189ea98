use ferrite_core::modules::{
    module_base_in, module_file_name, ModuleError, ModuleInfo, ModuleMap, ModuleOffset,
};

fn map_of(modules: &[(&str, usize, usize)]) -> ModuleMap {
    ModuleMap::from_modules(
        modules
            .iter()
            .map(|(name, base, size)| ModuleInfo { name: (*name).to_string(), base: *base, size: *size })
            .collect(),
    )
}

#[test]
fn resolves_an_address_to_the_module_that_contains_it() {
    let map = map_of(&[("game.exe", 0x1000, 0x1000), ("unityplayer.dll", 0x5000, 0x2000)]);
    assert_eq!(
        map.resolve(0x1000),
        Some(ModuleOffset { module: "game.exe".to_string(), offset: 0 }),
        "the base address itself is inside the module"
    );
    assert_eq!(map.resolve(0x1234).unwrap().to_string(), "game.exe+234");
    assert_eq!(map.resolve(0x6000).unwrap().to_string(), "unityplayer.dll+1000");
}

#[test]
fn an_address_in_the_gap_between_two_modules_resolves_to_nothing() {
    let map = map_of(&[("game.exe", 0x1000, 0x1000), ("unityplayer.dll", 0x5000, 0x2000)]);
    assert_eq!(map.resolve(0x2000), None, "one past game.exe's last byte");
    assert_eq!(map.resolve(0x3FFF), None, "the gap between the two");
    assert_eq!(map.resolve(0x7000), None, "past the last module");
    assert_eq!(map.resolve(0x0), None, "below the first module");
}

#[test]
fn an_empty_map_resolves_nothing_rather_than_panicking() {
    assert_eq!(ModuleMap::empty().resolve(0x1000), None);
    assert!(ModuleMap::empty().is_empty());
}

#[test]
fn a_map_is_sorted_by_base_whatever_order_it_was_given() {
    let map = map_of(&[("c.dll", 0x9000, 0x100), ("a.exe", 0x1000, 0x100), ("b.dll", 0x5000, 0x100)]);
    let names: Vec<&str> = map.modules().iter().map(|m| m.name.as_str()).collect();
    assert_eq!(names, vec!["a.exe", "b.dll", "c.dll"]);
    assert_eq!(map.len(), 3);
    assert_eq!(map.resolve(0x50FF).unwrap().to_string(), "b.dll+FF");
}

#[test]
fn a_module_base_is_found_by_name_ignoring_ascii_case() {
    let modules = vec![
        ModuleInfo { name: "Game.EXE".to_string(), base: 0x1000, size: 0x10 },
        ModuleInfo { name: "game.exe".to_string(), base: 0x2000, size: 0x10 },
    ];
    assert_eq!(module_base_in(&modules, "GAME.exe"), Ok(0x1000));
    assert_eq!(module_base_in(&modules, "other.dll"), Err(ModuleError::NotFound));
}

#[test]
fn a_module_that_reaches_the_end_of_the_address_space_resolves_nothing() {
    let map = map_of(&[("top.dll", usize::MAX - 0xF, 0x20)]);
    assert_eq!(map.resolve(usize::MAX), None);
}

#[test]
fn a_module_name_is_what_follows_the_last_path_separator() {
    assert_eq!(module_file_name(r"C:\Games\GTA V\GTA5.exe"), "GTA5.exe");
    assert_eq!(module_file_name("C:/Windows/System32/kernel32.dll"), "kernel32.dll");
    assert_eq!(module_file_name(r"C:\mixed/sep\game.exe"), "game.exe");
    assert_eq!(module_file_name("game.exe"), "game.exe");
    assert_eq!(module_file_name(r"C:\dir\"), "");
}
