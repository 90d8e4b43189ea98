use ferrite_core::aob::{
    format_pattern, next_scan_aob, parse_hex_pattern, pattern_would_split, scan_bytes_for_pattern, AobFilter,
    AobFirstScan, AobMatch, AobRegionScan,
};
use ferrite_core::regions::MemoryRegion;
use ferrite_core::scan::ScanOptions;

#[test]
fn parses_spaced_and_unspaced_hex() {
    assert_eq!(parse_hex_pattern("3F A2 01"), Ok(vec![0x3F, 0xA2, 0x01]));
    assert_eq!(parse_hex_pattern("3FA201"), Ok(vec![0x3F, 0xA2, 0x01]));
}

#[test]
fn parses_mixed_case() {
    assert_eq!(parse_hex_pattern("3f a2"), Ok(vec![0x3F, 0xA2]));
}

#[test]
fn rejects_odd_digit_count() {
    assert!(parse_hex_pattern("3FA").is_err());
}

#[test]
fn rejects_non_hex_characters() {
    assert!(parse_hex_pattern("3G").is_err());
}

#[test]
fn rejects_empty_or_whitespace_only() {
    assert!(parse_hex_pattern("").is_err());
    assert!(parse_hex_pattern("   ").is_err());
}

#[test]
fn format_pattern_round_trips_through_parse() {
    let bytes = vec![0x3F, 0xA2, 0x00, 0xFF];
    let formatted = format_pattern(&bytes);
    assert_eq!(parse_hex_pattern(&formatted), Ok(bytes));
}

#[test]
fn finds_a_pattern_sitting_exactly_at_a_chunk_boundary() {
    let pattern = [0xDE, 0xAD, 0xBE, 0xEF];
    let mut bytes = vec![0u8; 16];
    bytes[8..12].copy_from_slice(&pattern);

    let matches = scan_bytes_for_pattern(0, &bytes, &pattern);
    assert_eq!(matches.len(), 1);
    assert_eq!(matches[0].address, 8);
    assert_eq!(matches[0].bytes, pattern);
}

#[test]
fn finds_unaligned_matches() {
    let pattern = [0xAB, 0xCD, 0xEF];
    let mut bytes = vec![0u8; 10];
    bytes[3..6].copy_from_slice(&pattern);

    let matches = scan_bytes_for_pattern(0, &bytes, &pattern);
    assert_eq!(matches.len(), 1);
    assert_eq!(matches[0].address, 3);
}

#[test]
fn finds_overlapping_pattern_occurrences() {
    let pattern = [0xAA, 0xAA];
    let bytes = [0xAA, 0xAA, 0xAA];
    let matches = scan_bytes_for_pattern(0, &bytes, &pattern);
    assert_eq!(matches.len(), 2);
    assert_eq!(matches[0].address, 0);
    assert_eq!(matches[1].address, 1);
}

#[test]
fn error_messages_name_the_problem() {
    assert_eq!(
        parse_hex_pattern(" \t"),
        Err("enter a byte pattern, e.g. 3F A2 01".to_string())
    );
    assert_eq!(
        parse_hex_pattern("3FA"),
        Err("byte pattern must have an even number of hex digits".to_string())
    );
    assert_eq!(
        parse_hex_pattern("3F G1"),
        Err("'G1' isn't a valid hex byte".to_string())
    );
}

#[test]
fn a_plus_sign_is_not_a_hex_digit() {
    assert_eq!(parse_hex_pattern("+F"), Err("'+F' isn't a valid hex byte".to_string()));
    assert_eq!(parse_hex_pattern("+A 01"), Err("'+A' isn't a valid hex byte".to_string()));
}

#[test]
fn a_pattern_that_would_cut_a_character_is_told_apart() {
    assert!(pattern_would_split("A\u{20AC}"));
    assert!(!pattern_would_split("3F A2"));
    assert!(pattern_would_split("a\u{e9}1"));
    assert!(!pattern_would_split("\u{e9}"));
    assert!(!pattern_would_split(""));
    assert!(!pattern_would_split("ABC"));
    assert_eq!(parse_hex_pattern("\u{e9}"), Err("'\u{e9}' isn't a valid hex byte".to_string()));
}

#[test]
fn format_pattern_writes_uppercase_pairs_separated_by_spaces() {
    assert_eq!(format_pattern(&[0x3F, 0xA2]), "3F A2");
    assert_eq!(format_pattern(&[0x00]), "00");
    assert_eq!(format_pattern(&[]), "");
}

#[test]
fn a_region_is_read_in_overlapping_chunks_and_capped() {
    let region = MemoryRegion { base_address: 0x1000, size: 10 };
    let options = ScanOptions { float_decimals: 2, chunk_size: 4, max_results: 10 };
    let mut scan = AobRegionScan::new(region, &[0xAA, 0xBB], options, 2);
    assert_eq!(scan.next_read(), Some((0x1000, 5)));
    scan.accept(Some(&[0xAA, 0xBB, 0, 0, 0xAA]));
    assert_eq!(scan.next_read(), Some((0x1004, 5)));
    scan.accept(None);
    assert_eq!(scan.next_read(), Some((0x1008, 2)));
    scan.accept(Some(&[0xAA, 0xBB]));
    assert_eq!(scan.matches.len(), 2);
    assert_eq!(scan.matches[1].address, 0x1008);
    assert_eq!(scan.next_read(), None);
}

#[test]
fn a_first_scan_stops_taking_regions_once_the_limit_is_reached() {
    let options = ScanOptions { float_decimals: 2, chunk_size: 16, max_results: 1 };
    let mut first = AobFirstScan::new(&[0x01], options);
    let region = MemoryRegion { base_address: 0, size: 4 };
    let mut scan = first.region_scan(region).expect("room for a match");
    scan.accept(Some(&[0x01, 0x01, 0, 0]));
    first.absorb(scan);
    assert!(first.region_scan(region).is_none());
    let result = first.result();
    assert_eq!(result.matches.len(), 1);
    assert!(result.capped);
}

#[test]
fn a_next_scan_keeps_what_passes_and_remembers_what_it_compared_against() {
    let matches = vec![
        AobMatch { address: 0x10, bytes: vec![1, 2], previous: vec![1, 2] },
        AobMatch { address: 0x20, bytes: vec![3, 4], previous: vec![3, 4] },
        AobMatch { address: 0x30, bytes: vec![5, 6], previous: vec![5, 6] },
    ];
    let rereads = vec![Some(vec![9, 9]), Some(vec![3, 4]), None];
    let changed = next_scan_aob(&matches, &rereads, AobFilter::Changed);
    assert_eq!(
        changed,
        vec![AobMatch { address: 0x10, bytes: vec![9, 9], previous: vec![1, 2] }]
    );
    let unchanged = next_scan_aob(&matches, &rereads, AobFilter::Unchanged);
    assert_eq!(
        unchanged,
        vec![AobMatch { address: 0x20, bytes: vec![3, 4], previous: vec![3, 4] }]
    );
}

#[test]
fn changed_and_unchanged_each_keep_every_readable_match_exactly_once() {
    let matches: Vec<AobMatch> = (0..4usize)
        .map(|i| AobMatch { address: 0x1000 + i, bytes: vec![i as u8, 1], previous: vec![i as u8, 1] })
        .collect();
    let rereads = vec![Some(vec![0, 1]), None, Some(vec![9, 9]), Some(vec![3, 1])];
    let changed = next_scan_aob(&matches, &rereads, AobFilter::Changed);
    let unchanged = next_scan_aob(&matches, &rereads, AobFilter::Unchanged);
    assert_eq!(changed.len() + unchanged.len(), 3);
    let mut kept: Vec<usize> = changed.iter().chain(unchanged.iter()).map(|m| m.address).collect();
    kept.sort_unstable();
    assert_eq!(kept, vec![0x1000, 0x1002, 0x1003]);
}

#[test]
fn scanning_for_a_pattern_chunk_by_chunk_finds_every_occurrence_once() {
    let pattern = [0xAAu8, 0xAA, 0xBB];
    let mut memory = vec![0u8; 30];
    for at in [0usize, 5, 6, 14, 27] {
        memory[at..at + 3].copy_from_slice(&pattern);
    }
    let base = 0x4000usize;
    let whole: Vec<usize> =
        scan_bytes_for_pattern(base, &memory, &pattern).iter().map(|m| m.address).collect();
    for chunk_size in [1usize, 2, 3, 4, 7, 30, 50] {
        let region = MemoryRegion { base_address: base, size: memory.len() };
        let options = ScanOptions { float_decimals: 2, chunk_size, max_results: 100 };
        let mut scan = AobRegionScan::new(region, &pattern, options, 100);
        while let Some((address, len)) = scan.next_read() {
            let from = address - base;
            scan.accept(Some(&memory[from..from + len]));
        }
        let found: Vec<usize> = scan.matches.iter().map(|m| m.address).collect();
        assert_eq!(found, whole, "chunk size {chunk_size}");
    }
}
