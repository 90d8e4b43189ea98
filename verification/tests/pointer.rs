use ferrite_core::pointer::{PointerWalk, MAX_POINTER_CHAIN_DEPTH, POINTER_SIZE};

fn walk(base: usize, offsets: &[usize], memory: &[(usize, u64)]) -> (Vec<usize>, usize) {
    let mut w = PointerWalk::new(base, offsets);
    let mut reads = Vec::new();
    while let Some(at) = w.next_read() {
        reads.push(at);
        let value = memory.iter().find(|(a, _)| *a == at).map(|(_, v)| *v).expect("mapped");
        w.advance(offsets, &value.to_le_bytes());
    }
    (reads, w.address)
}

#[test]
fn an_empty_chain_reads_nothing_and_stays_at_the_base() {
    assert_eq!(walk(0x1, &[], &[]), (vec![], 0x1));
}

#[test]
fn the_last_offset_is_applied_at_the_first_hop() {
    let memory = [(0x1000, 0x2000u64), (0x2000, 0x3000u64)];
    let (reads, end) = walk(0x1000, &[0x10, 0x00], &memory);
    assert_eq!(reads, vec![0x1000, 0x2000]);
    assert_eq!(end, 0x3010);
}

#[test]
fn adds_the_offset_after_dereferencing_wrapping_round() {
    let memory = [(0x40, 0xAAAA_AAAA_AAAA_AAAAu64)];
    assert_eq!(walk(0x40, &[0x10], &memory).1, 0xAAAA_AAAA_AAAA_AABAusize);
    let memory = [(0x40, u64::MAX)];
    assert_eq!(walk(0x40, &[2], &memory).1, 1);
}

#[test]
fn the_limits_are_the_documented_ones() {
    assert_eq!(MAX_POINTER_CHAIN_DEPTH, 16);
    assert_eq!(POINTER_SIZE, 8);
}
