use lightswitch::lookup::{binary_search_rightmost, find_chunk, lookup_unwind_row};
use lightswitch::profiler_bindings::stack_unwind_row_t;
use lightswitch::shard::shard_table;
use lightswitch::unwind_info::CFA_TYPE_END_FDE_MARKER;

fn row(pc: u64, cfa_type: u8, cfa_offset: u16) -> stack_unwind_row_t {
    stack_unwind_row_t {
        pc,
        cfa_offset,
        cfa_type,
        rbp_type: 0,
        rbp_offset: 0,
    }
}

fn table() -> Vec<stack_unwind_row_t> {
    vec![
        row(0x100, 2, 8),
        row(0x108, 2, 16),
        row(0x110, 1, 16),
        row(0x110, 2, 24),
        row(0x120, CFA_TYPE_END_FDE_MARKER, 0),
        row(0x200, 2, 8),
        row(0x230, CFA_TYPE_END_FDE_MARKER, 0),
    ]
}

#[test]
fn rightmost_search_picks_closest_row_at_or_below() {
    let rows = table();
    assert_eq!(binary_search_rightmost(&rows, 0x0ff), None);
    assert_eq!(binary_search_rightmost(&rows, 0x100), Some(0));
    assert_eq!(binary_search_rightmost(&rows, 0x107), Some(0));
    assert_eq!(binary_search_rightmost(&rows, 0x108), Some(1));
    // Among rows sharing an address the later one wins.
    assert_eq!(binary_search_rightmost(&rows, 0x110), Some(3));
    assert_eq!(binary_search_rightmost(&rows, 0x1ff), Some(4));
    assert_eq!(binary_search_rightmost(&rows, 0x230), Some(6));
    assert_eq!(binary_search_rightmost(&rows, 0xfff), Some(6));
}

#[test]
fn shard_table_splits_at_capacity() {
    let rows = table();
    let (shards, chunks) = shard_table(&rows, 3);
    assert_eq!(shards.len(), 3);
    assert_eq!(chunks.len(), 3);
    assert_eq!(shards[0], rows[0..3].to_vec());
    assert_eq!(shards[1], rows[3..6].to_vec());
    assert_eq!(shards[2], rows[6..7].to_vec());

    assert_eq!(chunks[0].low_pc, 0x100);
    assert_eq!(chunks[0].high_pc, 0x10f);
    assert_eq!(chunks[0].shard_index, 0);
    assert_eq!(chunks[0].low_index, 0);
    assert_eq!(chunks[0].high_index, 3);

    assert_eq!(chunks[1].low_pc, 0x110);
    assert_eq!(chunks[1].high_pc, 0x22f);
    assert_eq!(chunks[1].shard_index, 1);
    assert_eq!(chunks[1].high_index, 3);

    assert_eq!(chunks[2].low_pc, 0x230);
    assert_eq!(chunks[2].high_pc, 0x230);
    assert_eq!(chunks[2].shard_index, 2);
    assert_eq!(chunks[2].high_index, 1);
}

#[test]
fn chunk_search_selects_covering_chunk() {
    let rows = table();
    let (_, chunks) = shard_table(&rows, 2);
    for pc in [0x100u64, 0x110, 0x120, 0x200, 0x230] {
        let ci = find_chunk(&chunks, pc).unwrap();
        assert!(chunks[ci].low_pc <= pc && pc <= chunks[ci].high_pc);
    }
    assert_eq!(find_chunk(&chunks, 0x0ff), None);
    assert_eq!(find_chunk(&chunks, 0x231), None);
}

#[test]
fn chunked_lookup_matches_monolithic_for_every_capacity() {
    // Re-partitioning the table at each capacity and re-querying every
    // address reproduces the monolithic search, except past the last row
    // where the chunked lookup correctly reports nothing.
    let rows = table();
    let min_pc = rows[0].pc;
    let max_pc = rows[rows.len() - 1].pc;
    for capacity in 1..=rows.len() {
        let (shards, chunks) = shard_table(&rows, capacity);
        for pc in (min_pc - 2)..=(max_pc + 30) {
            let chunked = lookup_unwind_row(&shards, &chunks, pc);
            let monolithic = binary_search_rightmost(&rows, pc).map(|i| rows[i]);
            if pc > max_pc {
                assert_eq!(chunked, None);
                assert_eq!(monolithic, Some(rows[rows.len() - 1]));
            } else {
                assert_eq!(chunked, monolithic, "capacity {} pc {:x}", capacity, pc);
            }
        }
    }
}

#[test]
fn lookup_handles_equal_addresses_across_shard_boundary() {
    // Two rules at one address split across shards: the later rule wins,
    // exactly as in the undivided table.
    let rows = vec![row(0x10, 2, 8), row(0x20, 2, 16), row(0x20, 2, 24), row(0x30, 2, 32)];
    let (shards, chunks) = shard_table(&rows, 2);
    assert_eq!(lookup_unwind_row(&shards, &chunks, 0x20), Some(row(0x20, 2, 24)));
    assert_eq!(lookup_unwind_row(&shards, &chunks, 0x2f), Some(row(0x20, 2, 24)));
    let monolithic = binary_search_rightmost(&rows, 0x20).map(|i| rows[i]);
    assert_eq!(monolithic, Some(row(0x20, 2, 24)));
}

#[test]
fn empty_table_has_no_shards_and_no_answers() {
    let rows: Vec<stack_unwind_row_t> = Vec::new();
    let (shards, chunks) = shard_table(&rows, 4);
    assert!(shards.is_empty());
    assert!(chunks.is_empty());
    assert_eq!(lookup_unwind_row(&shards, &chunks, 0x100), None);
}
