//! Partitioning the deduplicated, sorted row table into fixed-capacity
//! shards, with a chunk index mapping address ranges to shard slices.

use vstd::prelude::*;

use crate::profiler_bindings::stack_unwind_row_t;
use crate::unwind_info::sorted_by_pc;

verus! {

/// One entry of the range index: lookups for an address in
/// `[low_pc, high_pc]` go to rows `[low_index, high_index)` of shard
/// `shard_index`.
#[derive(Debug, Copy, Clone, PartialEq, Eq, Structural)]
pub struct ChunkInfo {
    pub low_pc: u64,
    pub high_pc: u64,
    pub shard_index: u64,
    pub low_index: u64,
    pub high_index: u64,
}

/// The smaller of two mathematical integers.
pub open spec fn min_int(a: int, b: int) -> int {
    if a <= b {
        a
    } else {
        b
    }
}

/// The address just below `p`, clamped at zero.
pub open spec fn pc_pred(p: u64) -> u64 {
    if p == 0 {
        0
    } else {
        (p - 1) as u64
    }
}

/// Shard `j` of a table sharded at capacity `cap`: the rows from `j * cap`
/// up to the next capacity boundary or the table's end.
pub open spec fn shard_of(rows: Seq<stack_unwind_row_t>, cap: int, j: int) -> Seq<
    stack_unwind_row_t,
> {
    rows.subrange(j * cap, min_int((j + 1) * cap, rows.len() as int))
}

/// Chunk `j` of a table sharded at capacity `cap` into `k` shards: it spans
/// from its first row's address up to just below the next shard's first
/// address, and the last chunk ends at the table's last address.
pub open spec fn chunk_of(rows: Seq<stack_unwind_row_t>, cap: int, k: int, j: int) -> ChunkInfo {
    ChunkInfo {
        low_pc: rows[j * cap].pc,
        high_pc: if j == k - 1 {
            rows[rows.len() - 1].pc
        } else {
            pc_pred(rows[(j + 1) * cap].pc)
        },
        shard_index: j as u64,
        low_index: 0,
        high_index: (min_int((j + 1) * cap, rows.len() as int) - j * cap) as u64,
    }
}

/// Walks the sorted table left to right, sealing a shard each time it
/// reaches `shard_capacity` rows and recording one chunk per shard.
pub fn shard_table(rows: &Vec<stack_unwind_row_t>, shard_capacity: usize) -> (r: (
    Vec<Vec<stack_unwind_row_t>>,
    Vec<ChunkInfo>,
))
    requires
        shard_capacity >= 1,
        sorted_by_pc(rows@),
    ensures
        r.1@.len() == r.0@.len(),
        rows@.len() == 0 ==> r.0@.len() == 0,
        rows@.len() > 0 ==> r.0@.len() >= 1 && (r.0@.len() - 1) * shard_capacity < rows@.len()
            <= r.0@.len() * shard_capacity,
        forall|j: int|
            0 <= j < r.0@.len() ==> (#[trigger] r.0@[j])@ == shard_of(
                rows@,
                shard_capacity as int,
                j,
            ),
        forall|j: int|
            0 <= j < r.1@.len() ==> #[trigger] r.1@[j] == chunk_of(
                rows@,
                shard_capacity as int,
                r.0@.len() as int,
                j,
            ),
{
    let n: usize = rows.len();
    let ghost cap: int = shard_capacity as int;
    let mut shards: Vec<Vec<stack_unwind_row_t>> = Vec::new();
    let mut chunks: Vec<ChunkInfo> = Vec::new();
    let mut start: usize = 0;

    while start < n
        invariant
            shard_capacity >= 1,
            cap == shard_capacity as int,
            sorted_by_pc(rows@),
            n == rows@.len(),
            chunks@.len() == shards@.len(),
            start <= n,
            start < n ==> start == shards@.len() * cap,
            start == n ==> (n == 0 ==> shards@.len() == 0) && (n > 0 ==> shards@.len() >= 1 && (
            shards@.len() - 1) * cap < n <= shards@.len() * cap),
            forall|j: int|
                0 <= j < shards@.len() ==> (#[trigger] shards@[j])@ == shard_of(rows@, cap, j),
            forall|j: int|
                0 <= j < chunks@.len() ==> (#[trigger] chunks@[j]).low_pc == rows@[j * cap].pc
                    && chunks@[j].shard_index == j as u64 && chunks@[j].low_index == 0
                    && chunks@[j].high_index == (min_int((j + 1) * cap, n as int) - j * cap) as u64
                    && chunks@[j].high_pc == (if (j + 1) * cap < n {
                    pc_pred(rows@[(j + 1) * cap].pc)
                } else {
                    rows@[n - 1].pc
                }),
        decreases n - start,
    {
        let ghost j: int = shards@.len() as int;
        proof {
            assert(j * cap + cap == (j + 1) * cap) by (nonlinear_arith);
            assert(j >= 0 && cap >= 1 ==> j * cap >= 0) by (nonlinear_arith);
        }
        let end: usize = if n - start < shard_capacity {
            n
        } else {
            start + shard_capacity
        };
        proof {
            assert(start as int == j * cap);
            if (n as int) < j * cap + cap {
                assert(min_int((j + 1) * cap, n as int) == n as int);
            } else {
                assert(min_int((j + 1) * cap, n as int) == (j + 1) * cap);
            }
            assert(end as int == min_int((j + 1) * cap, n as int));
        }

        let mut shard: Vec<stack_unwind_row_t> = Vec::new();
        let mut i: usize = start;
        while i < end
            invariant
                start <= i <= end <= n,
                n == rows@.len(),
                start as int == j * cap,
                end as int == min_int((j + 1) * cap, n as int),
                shard@ == rows@.subrange(start as int, i as int),
            decreases end - i,
        {
            shard.push(rows[i]);
            proof {
                assert(shard@ =~= rows@.subrange(start as int, i + 1));
            }
            i = i + 1;
        }

        let low_pc: u64 = rows[start].pc;
        let high_pc: u64 = if end < n {
            let next: u64 = rows[end].pc;
            if next == 0 {
                0
            } else {
                next - 1
            }
        } else {
            rows[n - 1].pc
        };
        let shard_index: u64 = chunks.len() as u64;
        let high_index: u64 = shard.len() as u64;
        chunks.push(ChunkInfo { low_pc, high_pc, shard_index, low_index: 0, high_index });
        shards.push(shard);
        proof {
            assert(shards@[j]@ == rows@.subrange(start as int, end as int));
            assert(shards@[j]@ == shard_of(rows@, cap, j));
            assert(forall|jj: int|
                0 <= jj < j ==> (#[trigger] shards@[jj])@ == shard_of(rows@, cap, jj));
            assert(shards@.len() == j + 1);
            if end == n && n > 0 {
                assert((shards@.len() - 1) * cap == j * cap) by (nonlinear_arith)
                    requires
                        shards@.len() == j + 1,
                ;
                assert(shards@.len() * cap == (j + 1) * cap) by (nonlinear_arith)
                    requires
                        shards@.len() == j + 1,
                ;
            }
        }
        start = end;
    }

    proof {
        // On exit the walk has consumed the whole table; each recorded chunk
        // matches its closed form, the last one ending at the table's last
        // address.
        let k: int = shards@.len() as int;
        assert forall|j: int| 0 <= j < chunks@.len() implies #[trigger] chunks@[j] == chunk_of(
            rows@,
            cap,
            k,
            j,
        ) by {
            if j < k - 1 {
                assert((j + 1) * cap <= (k - 1) * cap) by (nonlinear_arith)
                    requires
                        j + 1 <= k - 1,
                        cap >= 1,
                ;
            } else {
                assert(j == k - 1);
                assert((j + 1) * cap == k * cap);
            }
        }
    }
    (shards, chunks)
}

} // verus!
