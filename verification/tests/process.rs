use ferrite_core::process::{
    hidden_as_32_bit, picker_summary, process_filter_needle, process_shown, sorted_by_pid_order,
    Arch, ProcessInfo,
};

#[test]
fn only_32_bit_targets_are_unattachable() {
    assert!(Arch::X64.is_attachable());
    assert!(Arch::Unknown.is_attachable());
    assert!(!Arch::X86.is_attachable());
}

#[test]
fn the_picker_labels_each_architecture() {
    assert_eq!(Arch::X64.label(), "x64");
    assert_eq!(Arch::X86.label(), "x86");
    assert_eq!(Arch::Unknown.label(), "\u{2014}");
}

#[test]
fn an_unemulated_process_is_native_64_bit() {
    assert_eq!(Arch::from_machine(Some(0)), Arch::X64);
    assert_eq!(Arch::from_machine(Some(0x14c)), Arch::X86);
    assert_eq!(Arch::from_machine(None), Arch::Unknown);
}

#[test]
fn processes_are_listed_by_pid() {
    let p = |pid: u32| ProcessInfo { pid, name: format!("p{pid}"), arch: Arch::X64, exe: None };
    let sorted = sorted_by_pid_order(vec![p(30), p(4), p(12)]);
    let pids: Vec<u32> = sorted.iter().map(|p| p.pid).collect();
    assert_eq!(pids, vec![4, 12, 30]);
}

#[test]
fn the_picker_filters_by_name_pid_and_path_ignoring_case() {
    let needle = process_filter_needle("  GaMe ");
    assert_eq!(needle, "game");
    assert!(process_shown("Game.exe", 10, None, Arch::X64, &needle, false));
    assert!(!process_shown("notepad.exe", 10, Some(r"C:\Windows\notepad.exe"), Arch::X64, &needle, false));
    assert!(process_shown("x.exe", 10, Some(r"D:\GAMES\x.exe"), Arch::X64, &needle, false));
    assert!(process_shown("x.exe", 4312, None, Arch::Unknown, "31", false));
    assert!(!process_shown("x.exe", 4312, None, Arch::X64, "99", false));
    assert!(process_shown("x.exe", 1, None, Arch::X64, "", true));
}

#[test]
fn hiding_32_bit_targets_hides_them_whatever_they_match() {
    assert!(!process_shown("game.exe", 10, None, Arch::X86, "", true));
    assert!(!process_shown("game.exe", 10, None, Arch::X86, "game", true));
    assert!(process_shown("game.exe", 10, None, Arch::X86, "game", false));
    assert!(process_shown("game.exe", 10, None, Arch::Unknown, "", true));
}

#[test]
fn the_picker_summary_says_what_is_listed_and_hidden() {
    assert_eq!(
        picker_summary(2, 5, " game ", true, 1),
        "2 of 5 processes matching \"game\" \u{b7} 1 hidden as 32-bit"
    );
    assert_eq!(picker_summary(5, 5, "   ", true, 0), "5 of 5 processes");
    assert_eq!(picker_summary(4, 5, "", false, 1), "4 of 5 processes");
    let p = |pid: u32, arch: Arch| ProcessInfo { pid, name: "p".to_string(), arch, exe: None };
    assert_eq!(hidden_as_32_bit(&vec![p(1, Arch::X86), p(2, Arch::X64), p(3, Arch::X86)]), 2);
}
