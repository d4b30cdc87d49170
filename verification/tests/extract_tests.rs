use lightswitch::extract::{build_unwind_table, scan_fde_offsets};
use lightswitch::lookup::{binary_search_rightmost, lookup_unwind_row};
use lightswitch::profiler_bindings::stack_unwind_row_t;
use lightswitch::shard::shard_table;
use lightswitch::unwind_info::{
    remove_redundant, remove_unnecesary_markers, sort_by_pc, Error, CFA_TYPE_END_FDE_MARKER,
    CFA_TYPE_EXPRESSION, CFA_TYPE_STACK_POINTER_OFFSET,
};

const PLT1: [u8; 11] = [
    0x77, 0x08, 0x80, 0x00, 0x3f, 0x1a, 0x3b, 0x2a, 0x33, 0x24, 0x22,
];

/// One entry of the section: a little-endian length prefix and the
/// padded-to-eight contents.
fn push_entry(section: &mut Vec<u8>, contents: &[u8]) {
    let mut padded = contents.to_vec();
    while (padded.len() + 4) % 8 != 0 {
        padded.push(0x00); // no-operation padding
    }
    section.extend_from_slice(&(padded.len() as u32).to_le_bytes());
    section.extend_from_slice(&padded);
}

/// A common record: version 1, no augmentation, code alignment 1, data
/// alignment -8, return-address register 16, and an initial program that
/// sets the frame address to the stack pointer plus eight and records the
/// return address at frame address minus eight.
fn push_cie(section: &mut Vec<u8>) {
    let mut c: Vec<u8> = Vec::new();
    c.extend_from_slice(&0u32.to_le_bytes()); // common-record identifier
    c.push(0x01); // version
    c.push(0x00); // empty augmentation string
    c.push(0x01); // code alignment factor
    c.push(0x78); // data alignment factor -8
    c.push(0x10); // return-address register 16
    c.extend_from_slice(&[0x0c, 0x07, 0x08]); // frame address: register 7 + 8
    c.extend_from_slice(&[0x90, 0x01]); // return address saved at -8
    push_entry(section, &c);
}

/// A per-range record referring to the common record at section offset 0.
fn push_fde(section: &mut Vec<u8>, initial_address: u64, range: u64, program: &[u8]) {
    let id = section.len() as u32 + 4;
    let mut c: Vec<u8> = Vec::new();
    c.extend_from_slice(&id.to_le_bytes());
    c.extend_from_slice(&initial_address.to_le_bytes());
    c.extend_from_slice(&range.to_le_bytes());
    c.extend_from_slice(program);
    push_entry(section, &c);
}

fn sample_section() -> Vec<u8> {
    let mut section: Vec<u8> = Vec::new();
    push_cie(&mut section);
    // First function: after four bytes the frame-address offset grows to
    // sixteen.
    push_fde(&mut section, 0x1000, 0x20, &[0x44, 0x0e, 0x10]);
    // Second function: the frame address comes from the first recognized
    // stub-idiom expression.
    let mut program: Vec<u8> = vec![0x0f, 0x0b];
    program.extend_from_slice(&PLT1);
    push_fde(&mut section, 0x2000, 0x10, &program);
    section.extend_from_slice(&0u32.to_le_bytes()); // terminator
    section
}

#[test]
fn scan_finds_per_range_records_and_skips_common_ones() {
    let section = sample_section();
    let offsets = scan_fde_offsets(&section, true);
    assert_eq!(offsets, vec![24, 56]);
}

#[test]
fn scan_stops_at_terminator() {
    let mut section = sample_section();
    // Anything after the terminator is not part of the section's records.
    push_fde(&mut section, 0x3000, 0x10, &[]);
    let offsets = scan_fde_offsets(&section, true);
    assert_eq!(offsets, vec![24, 56]);
}

#[test]
fn build_unwind_table_compacts_the_sample_section() {
    let section = sample_section();
    let rows = build_unwind_table(&section, 0x10000, 0x40000, true).unwrap();

    assert_eq!(rows.len(), 5);
    assert_eq!(rows[0].pc, 0x1000);
    assert_eq!(rows[0].cfa_type, CFA_TYPE_STACK_POINTER_OFFSET);
    assert_eq!(rows[0].cfa_offset, 8);
    assert_eq!(rows[0].rbp_type, 0);

    assert_eq!(rows[1].pc, 0x1004);
    assert_eq!(rows[1].cfa_type, CFA_TYPE_STACK_POINTER_OFFSET);
    assert_eq!(rows[1].cfa_offset, 16);

    assert_eq!(rows[2].pc, 0x1020);
    assert_eq!(rows[2].cfa_type, CFA_TYPE_END_FDE_MARKER);

    assert_eq!(rows[3].pc, 0x2000);
    assert_eq!(rows[3].cfa_type, CFA_TYPE_EXPRESSION);
    assert_eq!(rows[3].cfa_offset, 1);

    assert_eq!(rows[4].pc, 0x2010);
    assert_eq!(rows[4].cfa_type, CFA_TYPE_END_FDE_MARKER);
}

#[test]
fn build_unwind_table_without_records_fails() {
    let empty: Vec<u8> = Vec::new();
    assert_eq!(
        build_unwind_table(&empty, 0x10000, 0x40000, true),
        Err(Error::ErrorNoFunctionBoundaries)
    );
    let mut only_cie: Vec<u8> = Vec::new();
    push_cie(&mut only_cie);
    only_cie.extend_from_slice(&0u32.to_le_bytes());
    assert_eq!(
        build_unwind_table(&only_cie, 0x10000, 0x40000, true),
        Err(Error::ErrorNoFunctionBoundaries)
    );
}

#[test]
fn end_to_end_entry_point_lookup() {
    // Compact the sample section, publish the table, and query the first
    // function's entry point: the answer is a real rule, not a boundary
    // marker.
    let section = sample_section();
    let mut rows = build_unwind_table(&section, 0x10000, 0x40000, true).unwrap();
    sort_by_pc(&mut rows);
    remove_unnecesary_markers(&mut rows);
    remove_redundant(&mut rows);

    let entry_point: u64 = 0x1000;
    for capacity in 1..=rows.len() {
        let (shards, chunks) = shard_table(&rows, capacity);
        let found = lookup_unwind_row(&shards, &chunks, entry_point).unwrap();
        assert_eq!(found.pc, 0x1000);
        assert_ne!(found.cfa_type, CFA_TYPE_END_FDE_MARKER);
        let monolithic: Option<stack_unwind_row_t> =
            binary_search_rightmost(&rows, entry_point).map(|i| rows[i]);
        assert_eq!(monolithic, Some(found));
    }
}
