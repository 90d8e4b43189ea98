use ferrite_core::regions::MemoryRegion;
use ferrite_core::scan::{
    aligned_offsets, next_scan, scan_bytes_for_value, ExactFirstScan, ExactRegionScan, ScanMatch,
    ScanOptions, DEFAULT_CHUNK_SIZE, DEFAULT_FLOAT_DECIMALS, DEFAULT_MAX_RESULTS,
};
use ferrite_core::scan_value::{ScanFilter, ScanValue};

#[test]
fn finds_a_value_sitting_exactly_at_a_chunk_boundary() {
    let target = ScanValue::I32(0x1234_5678);
    let mut bytes = vec![0u8; 16];
    bytes[8..12].copy_from_slice(&0x1234_5678i32.to_le_bytes());
    let base_address = 0usize;

    let matches = scan_bytes_for_value(base_address, &bytes, target);
    assert_eq!(matches.len(), 1);
    assert_eq!(matches[0].address, 8);
    assert_eq!(matches[0].value, target);
}

#[test]
fn base_address_offset_shifts_which_positions_are_aligned() {
    let target = ScanValue::I32(42);
    let mut bytes = vec![0u8; 16];
    bytes[1..5].copy_from_slice(&42i32.to_le_bytes());
    let base_address = 12usize;

    let matches = scan_bytes_for_value(base_address, &bytes, target);
    assert!(matches.is_empty(), "address 13 isn't 4-byte aligned and must not match: {matches:?}");

    let mut bytes = vec![0u8; 16];
    bytes[4..8].copy_from_slice(&42i32.to_le_bytes());
    let matches = scan_bytes_for_value(base_address, &bytes, target);
    assert_eq!(matches.len(), 1);
    assert_eq!(matches[0].address, 16);
}

#[test]
fn aligned_offsets_follow_the_absolute_address() {
    assert_eq!(aligned_offsets(12, 16, 8), vec![4]);
    assert_eq!(aligned_offsets(0, 9, 4), vec![0, 4]);
    assert_eq!(aligned_offsets(3, 2, 4), Vec::<usize>::new());
    assert_eq!(aligned_offsets(5, 4, 1), vec![0, 1, 2, 3]);
}

#[test]
fn the_default_options_are_the_documented_ones() {
    let options = ScanOptions::default();
    assert_eq!(options.float_decimals, DEFAULT_FLOAT_DECIMALS);
    assert_eq!(options.chunk_size, 1024 * 1024);
    assert_eq!(options.chunk_size, DEFAULT_CHUNK_SIZE);
    assert_eq!(options.max_results, 50_000);
    assert_eq!(options.max_results, DEFAULT_MAX_RESULTS);
}

#[test]
fn a_region_scan_reads_past_each_chunk_by_one_value_less_a_byte() {
    let region = MemoryRegion { base_address: 0x100, size: 10 };
    let options = ScanOptions { float_decimals: 2, chunk_size: 4, max_results: 10 };
    let mut scan = ExactRegionScan::new(region, ScanValue::I16(7), options, 10);
    assert_eq!(scan.next_read(), Some((0x100, 5)));
    scan.accept(Some(&[0, 0, 0, 0, 7]));
    assert_eq!(scan.next_read(), Some((0x104, 5)));
    scan.accept(Some(&[7, 0, 0, 0, 0]));
    assert_eq!(scan.next_read(), Some((0x108, 2)));
    scan.accept(None);
    assert_eq!(scan.next_read(), None);
    let addresses: Vec<usize> = scan.matches.iter().map(|m| m.address).collect();
    assert_eq!(addresses, vec![0x104]);
}

#[test]
fn a_first_scan_is_capped_at_the_result_limit() {
    let options = ScanOptions { float_decimals: 2, chunk_size: 64, max_results: 2 };
    let mut first = ExactFirstScan::new(ScanValue::I8(1), options);
    let region = MemoryRegion { base_address: 0, size: 4 };
    let mut scan = first.region_scan(region).expect("room for matches");
    scan.accept(Some(&[1, 1, 1, 0]));
    first.absorb(scan);
    assert!(first.region_scan(region).is_none());
    let result = first.result();
    assert_eq!(result.matches.len(), 2);
    assert!(result.capped);
}

#[test]
fn a_second_changed_scan_compares_against_the_updated_value() {
    let first = vec![ScanMatch { address: 8, value: ScanValue::I32(100), previous: ScanValue::I32(100) }];
    let after_one = next_scan(&first, &[Some(150i32.to_le_bytes().to_vec())], ScanFilter::Changed);
    assert_eq!(
        after_one,
        vec![ScanMatch { address: 8, value: ScanValue::I32(150), previous: ScanValue::I32(100) }]
    );
    let after_two = next_scan(&after_one, &[Some(150i32.to_le_bytes().to_vec())], ScanFilter::Changed);
    assert!(after_two.is_empty(), "nothing changed since the first rescan");
    let unreadable = next_scan(&first, &[None], ScanFilter::Unchanged);
    assert!(unreadable.is_empty(), "an address that can't be re-read is dropped");
}

#[test]
fn scanning_chunk_by_chunk_finds_what_the_whole_region_holds() {
    let target = ScanValue::I32(0x0BAD_F00D);
    let mut memory = vec![0u8; 40];
    for at in [0usize, 4, 12, 20, 36] {
        memory[at..at + 4].copy_from_slice(&0x0BAD_F00Di32.to_le_bytes());
    }
    let base = 0x2000usize;
    let whole = scan_bytes_for_value(base, &memory, target);
    assert_eq!(whole.len(), 5);
    for chunk_size in [1usize, 3, 4, 5, 7, 40, 64] {
        let region = MemoryRegion { base_address: base, size: memory.len() };
        let options = ScanOptions { float_decimals: 2, chunk_size, max_results: 100 };
        let mut scan = ExactRegionScan::new(region, target, options, 100);
        while let Some((address, len)) = scan.next_read() {
            let from = address - base;
            scan.accept(Some(&memory[from..from + len]));
        }
        let found: Vec<usize> = scan.matches.iter().map(|m| m.address).collect();
        let expected: Vec<usize> = whole.iter().map(|m| m.address).collect();
        assert_eq!(found, expected, "chunk size {chunk_size}");
    }
}

#[test]
fn a_capped_region_scan_keeps_the_first_matches_of_the_whole_region() {
    let target = ScanValue::I16(0x7777);
    let mut memory = vec![0u8; 24];
    for at in [2usize, 6, 10, 18] {
        memory[at..at + 2].copy_from_slice(&0x7777i16.to_le_bytes());
    }
    let base = 0x100usize;
    let whole: Vec<usize> = scan_bytes_for_value(base, &memory, target).iter().map(|m| m.address).collect();
    for (chunk_size, limit) in [(3usize, 2usize), (5, 3), (1, 1), (24, 0), (7, 9)] {
        let region = MemoryRegion { base_address: base, size: memory.len() };
        let options = ScanOptions { float_decimals: 2, chunk_size, max_results: 100 };
        let mut scan = ExactRegionScan::new(region, target, options, limit);
        while let Some((address, len)) = scan.next_read() {
            let from = address - base;
            scan.accept(Some(&memory[from..from + len]));
        }
        let found: Vec<usize> = scan.matches.iter().map(|m| m.address).collect();
        let expected: Vec<usize> = whole.iter().copied().take(limit).collect();
        assert_eq!(found, expected, "chunk {chunk_size}, limit {limit}");
    }
}
