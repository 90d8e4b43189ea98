use ferrite_core::freeze::{should_check_exit, FrozenSet};
use ferrite_core::icon::{icon_dimensions, icon_from_bgra, pixel_buffer_len};
use ferrite_core::regions::{RegionInfo, RegionWalk, MemoryRegion};
use ferrite_core::session::{exited_from, transfer_result, AttachError, MemoryError, STILL_ACTIVE};

#[test]
fn attach_failures_are_classified_by_their_code() {
    assert_eq!(AttachError::from_code(0x8007_0005), AttachError::AccessDenied);
    assert_eq!(AttachError::from_code(0x8007_0057), AttachError::ProcessNotFound);
    assert_eq!(AttachError::from_code(0x8000_4005), AttachError::Other(0x8000_4005));
}

#[test]
fn attach_and_memory_errors_read_as_sentences() {
    assert_eq!(AttachError::ProcessNotFound.message(), "no process with that PID exists");
    assert_eq!(
        AttachError::AccessDenied.message(),
        "access denied \u{2014} try running Ferrite as Administrator"
    );
    assert_eq!(AttachError::Other(87).message(), "OS error 87");
    assert_eq!(MemoryError::Os(299).message(), "OS error 299");
}

#[test]
fn a_short_transfer_is_an_error() {
    assert_eq!(transfer_result(8, 8), Ok(()));
    assert_eq!(
        transfer_result(8, 3),
        Err(MemoryError::Partial { requested: 8, transferred: 3 })
    );
}

#[test]
fn only_an_exit_code_other_than_still_active_means_exited() {
    assert!(!exited_from(Some(STILL_ACTIVE)));
    assert!(exited_from(Some(0)));
    assert!(!exited_from(None));
}

#[test]
fn freezing_pins_the_latest_bytes_until_unfrozen() {
    let mut set = FrozenSet::new();
    set.freeze(0x10, vec![1, 2]);
    set.freeze(0x20, vec![3]);
    set.freeze(0x10, vec![9]);
    assert!(set.is_frozen(0x10));
    assert_eq!(set.len(), 2);
    let mut snapshot = set.snapshot();
    snapshot.sort();
    assert_eq!(snapshot, vec![(0x10, vec![9]), (0x20, vec![3])]);
    set.unfreeze(0x10);
    set.unfreeze(0x30);
    assert!(!set.is_frozen(0x10));
    assert_eq!(set.snapshot(), vec![(0x20, vec![3])]);
}

#[test]
fn only_a_tick_where_every_write_failed_asks_about_exit() {
    assert!(!should_check_exit(&vec![]));
    assert!(!should_check_exit(&vec![false, true]));
    assert!(should_check_exit(&vec![false, false]));
}

#[test]
fn the_region_walk_keeps_writable_committed_regions_and_always_advances() {
    let mut walk = RegionWalk::new();
    assert_eq!(walk.next_query(), Some(0));
    let rw = RegionInfo { base_address: 0, size: 0x1000, state: 0x1000, protect: 0x04 };
    assert_eq!(walk.step(Some(rw)), Some(MemoryRegion { base_address: 0, size: 0x1000 }));
    let guarded = RegionInfo { base_address: 0x1000, size: 0x1000, state: 0x1000, protect: 0x104 };
    assert_eq!(walk.step(Some(guarded)), None);
    let read_only = RegionInfo { base_address: 0x2000, size: 0x1000, state: 0x1000, protect: 0x02 };
    assert_eq!(walk.step(Some(read_only)), None);
    let reserved = RegionInfo { base_address: 0x3000, size: 0x1000, state: 0x2000, protect: 0x04 };
    assert_eq!(walk.step(Some(reserved)), None);
    assert_eq!(walk.next_query(), Some(0x4000));
    let stuck = RegionInfo { base_address: 0x3000, size: 0x800, state: 0x1000, protect: 0x40 };
    assert_eq!(walk.step(Some(stuck)), Some(MemoryRegion { base_address: 0x3000, size: 0x800 }));
    assert_eq!(walk.next_query(), None, "a report that doesn't advance ends the walk");
}

#[test]
fn an_icon_swaps_blue_and_red_in_every_whole_pixel() {
    assert_eq!(icon_dimensions(0, 16, 16), None);
    assert_eq!(icon_dimensions(24, 16, 0), None);
    assert_eq!(icon_dimensions(24, 16, 32), Some((16, 32)));
    assert_eq!(pixel_buffer_len(16, 32), 2048);
    let icon = icon_from_bgra(1, 2, vec![1, 2, 3, 4, 5, 6, 7, 8, 9]);
    assert_eq!(icon.rgba, vec![3, 2, 1, 4, 7, 6, 5, 8, 9]);
    assert_eq!((icon.width, icon.height), (1, 2));
}
