//! Range lookup over the published tables: binary search for the closest
//! row at or below a program counter, within one table or through the
//! chunk index and its shards.

use vstd::prelude::*;

use crate::profiler_bindings::stack_unwind_row_t;
use crate::shard::{chunk_of, min_int, pc_pred, shard_of, ChunkInfo};
use crate::unwind_info::sorted_by_pc;

verus! {

/// Index of the rightmost row at or below `pc`; among rows with equal
/// address the later one wins.
pub open spec fn rightmost_le(s: Seq<stack_unwind_row_t>, pc: u64) -> Option<int>
    decreases s.len(),
{
    if s.len() == 0 {
        None
    } else if s.last().pc <= pc {
        Some(s.len() - 1)
    } else {
        rightmost_le(s.drop_last(), pc)
    }
}

/// What `rightmost_le` returns: the row at the index is at or below `pc`
/// and every later row lies above it; `None` means every row lies above.
pub proof fn lemma_rightmost_le(s: Seq<stack_unwind_row_t>, pc: u64)
    ensures
        rightmost_le(s, pc) is None ==> forall|i: int| 0 <= i < s.len() ==> s[i].pc > pc,
        rightmost_le(s, pc) matches Some(i) ==> 0 <= i < s.len() && s[i].pc <= pc && forall|m: int|
            i < m < s.len() ==> s[m].pc > pc,
    decreases s.len(),
{
    if s.len() > 0 && s.last().pc > pc {
        lemma_rightmost_le(s.drop_last(), pc);
        assert(forall|i: int| 0 <= i < s.len() - 1 ==> s.drop_last()[i] == s[i]);
    }
}

/// An index whose row is at or below `pc`, with every later row above it,
/// is the one `rightmost_le` returns.
pub proof fn lemma_rightmost_le_is(s: Seq<stack_unwind_row_t>, pc: u64, i0: int)
    requires
        0 <= i0 < s.len(),
        s[i0].pc <= pc,
        forall|m: int| i0 < m < s.len() ==> s[m].pc > pc,
    ensures
        rightmost_le(s, pc) == Some(i0),
    decreases s.len(),
{
    if i0 == s.len() - 1 {
    } else {
        assert(s.last().pc > pc);
        assert(forall|i: int| 0 <= i < s.len() - 1 ==> s.drop_last()[i] == s[i]);
        lemma_rightmost_le_is(s.drop_last(), pc, i0);
    }
}

/// When every row lies above `pc` there is no row to return.
pub proof fn lemma_rightmost_le_none(s: Seq<stack_unwind_row_t>, pc: u64)
    requires
        forall|i: int| 0 <= i < s.len() ==> s[i].pc > pc,
    ensures
        rightmost_le(s, pc) is None,
    decreases s.len(),
{
    if s.len() > 0 {
        assert(forall|i: int| 0 <= i < s.len() - 1 ==> s.drop_last()[i] == s[i]);
        lemma_rightmost_le_none(s.drop_last(), pc);
    }
}

/// Binary search for the rightmost row at or below `pc` in a sorted table;
/// among rows with equal address the later-indexed one wins.
pub fn binary_search_rightmost(rows: &Vec<stack_unwind_row_t>, pc: u64) -> (r: Option<usize>)
    requires
        sorted_by_pc(rows@),
    ensures
        r matches Some(i) ==> i < rows@.len() && rightmost_le(rows@, pc) == Some(i as int),
        r is None ==> rightmost_le(rows@, pc) is None,
{
    let mut lo: usize = 0;
    let mut hi: usize = rows.len();
    while lo < hi
        invariant
            lo <= hi <= rows@.len(),
            sorted_by_pc(rows@),
            lo > 0 ==> rows@[lo - 1].pc <= pc,
            hi < rows@.len() ==> rows@[hi as int].pc > pc,
        decreases hi - lo,
    {
        let mid: usize = lo + (hi - lo) / 2;
        if rows[mid].pc <= pc {
            lo = mid + 1;
        } else {
            hi = mid;
        }
    }
    if lo == 0 {
        proof {
            assert forall|i: int| 0 <= i < rows@.len() implies rows@[i].pc > pc by {
                assert(rows@[0].pc <= rows@[i].pc);
            }
            lemma_rightmost_le_none(rows@, pc);
        }
        None
    } else {
        proof {
            assert forall|m: int| lo - 1 < m < rows@.len() implies rows@[m].pc > pc by {
                assert(rows@[lo as int].pc <= rows@[m].pc);
            }
            lemma_rightmost_le_is(rows@, pc, lo as int - 1);
        }
        Some(lo - 1)
    }
}

/// The chunk claims addresses `[low_pc, high_pc]`.
pub open spec fn chunk_contains(c: ChunkInfo, pc: u64) -> bool {
    c.low_pc <= pc && pc <= c.high_pc
}

/// The chunk index is ordered: chunk ranges start in nondecreasing order
/// and end before the next chunk starts, except for the degenerate
/// zero-address bound.
pub open spec fn chunks_wf(chunks: Seq<ChunkInfo>) -> bool {
    forall|j: int|
        0 <= j < chunks.len() - 1 ==> (#[trigger] chunks[j]).low_pc <= chunks[j + 1].low_pc && (
        chunks[j].high_pc < chunks[j + 1].low_pc || chunks[j].high_pc == 0)
}

/// Chunk starts are nondecreasing across the whole index.
proof fn lemma_chunk_lows_mono(chunks: Seq<ChunkInfo>, i: int, j: int)
    requires
        chunks_wf(chunks),
        0 <= i <= j < chunks.len(),
    ensures
        chunks[i].low_pc <= chunks[j].low_pc,
    decreases j - i,
{
    if i < j {
        lemma_chunk_lows_mono(chunks, i + 1, j);
    }
}

/// Index of the last chunk whose range holds `pc`, if any.
pub open spec fn last_containing_chunk(chunks: Seq<ChunkInfo>, pc: u64) -> Option<int>
    decreases chunks.len(),
{
    if chunks.len() == 0 {
        None
    } else if chunk_contains(chunks.last(), pc) {
        Some(chunks.len() - 1)
    } else {
        last_containing_chunk(chunks.drop_last(), pc)
    }
}

/// A containing chunk after which no chunk contains `pc` is the one
/// `last_containing_chunk` returns.
proof fn lemma_last_containing_is(chunks: Seq<ChunkInfo>, pc: u64, j0: int)
    requires
        0 <= j0 < chunks.len(),
        chunk_contains(chunks[j0], pc),
        forall|m: int| j0 < m < chunks.len() ==> !chunk_contains(#[trigger] chunks[m], pc),
    ensures
        last_containing_chunk(chunks, pc) == Some(j0),
    decreases chunks.len(),
{
    if j0 == chunks.len() - 1 {
    } else {
        assert(!chunk_contains(chunks.last(), pc));
        assert(forall|i: int| 0 <= i < chunks.len() - 1 ==> chunks.drop_last()[i] == chunks[i]);
        lemma_last_containing_is(chunks.drop_last(), pc, j0);
    }
}

/// When no chunk contains `pc` the index finds nothing.
proof fn lemma_last_containing_none(chunks: Seq<ChunkInfo>, pc: u64)
    requires
        forall|j: int| 0 <= j < chunks.len() ==> !chunk_contains(#[trigger] chunks[j], pc),
    ensures
        last_containing_chunk(chunks, pc) is None,
    decreases chunks.len(),
{
    if chunks.len() > 0 {
        assert(forall|i: int| 0 <= i < chunks.len() - 1 ==> chunks.drop_last()[i] == chunks[i]);
        lemma_last_containing_none(chunks.drop_last(), pc);
    }
}

/// Binary search over the chunk index for the last chunk whose address
/// range holds `pc`.
pub fn find_chunk(chunks: &Vec<ChunkInfo>, pc: u64) -> (r: Option<usize>)
    requires
        chunks_wf(chunks@),
    ensures
        r matches Some(i) ==> i < chunks@.len() && last_containing_chunk(chunks@, pc) == Some(
            i as int,
        ),
        r is None ==> last_containing_chunk(chunks@, pc) is None,
{
    let mut lo: usize = 0;
    let mut hi: usize = chunks.len();
    while lo < hi
        invariant
            lo <= hi <= chunks@.len(),
            chunks_wf(chunks@),
            lo > 0 ==> chunks@[lo - 1].low_pc <= pc,
            hi < chunks@.len() ==> chunks@[hi as int].low_pc > pc,
        decreases hi - lo,
    {
        let mid: usize = lo + (hi - lo) / 2;
        proof {
            if mid > 0 {
                lemma_chunk_lows_mono(chunks@, mid as int - 1, mid as int);
            }
        }
        if chunks[mid].low_pc <= pc {
            lo = mid + 1;
        } else {
            hi = mid;
        }
    }
    if lo == 0 {
        proof {
            assert forall|j: int| 0 <= j < chunks@.len() implies !chunk_contains(
                #[trigger] chunks@[j],
                pc,
            ) by {
                lemma_chunk_lows_mono(chunks@, 0, j);
            }
            lemma_last_containing_none(chunks@, pc);
        }
        None
    } else {
        let cand: usize = lo - 1;
        if pc <= chunks[cand].high_pc {
            proof {
                assert forall|m: int|
                    cand < m < chunks@.len() implies !chunk_contains(#[trigger] chunks@[m], pc) by {
                    lemma_chunk_lows_mono(chunks@, lo as int, m);
                }
                lemma_last_containing_is(chunks@, pc, cand as int);
            }
            Some(cand)
        } else {
            proof {
                assert forall|j: int| 0 <= j < chunks@.len() implies !chunk_contains(
                    #[trigger] chunks@[j],
                    pc,
                ) by {
                    if j > cand {
                        lemma_chunk_lows_mono(chunks@, lo as int, j);
                    } else if j < cand {
                        if chunk_contains(chunks@[j], pc) {
                            // The chunk before the candidate ends below the
                            // candidate's start, unless its bound is the
                            // degenerate zero, which the candidate covers.
                            lemma_chunk_lows_mono(chunks@, j + 1, cand as int);
                            assert(chunks@[j].high_pc < chunks@[j + 1].low_pc || chunks@[j].high_pc
                                == 0);
                        }
                    }
                }
                lemma_last_containing_none(chunks@, pc);
            }
            None
        }
    }
}

/// The row tables of each shard.
pub open spec fn shard_views(shards: Seq<Vec<stack_unwind_row_t>>) -> Seq<Seq<stack_unwind_row_t>> {
    shards.map_values(|v: Vec<stack_unwind_row_t>| v@)
}

/// The published pair of tables is consistent: one chunk per shard, in
/// order, each chunk indexing its whole sorted shard.
pub open spec fn tables_wf(shards: Seq<Seq<stack_unwind_row_t>>, chunks: Seq<ChunkInfo>) -> bool {
    &&& chunks.len() == shards.len()
    &&& chunks_wf(chunks)
    &&& forall|j: int|
        0 <= j < chunks.len() ==> (#[trigger] chunks[j]).shard_index == j as u64
            && chunks[j].low_index == 0 && chunks[j].high_index == shards[j].len() && sorted_by_pc(
            shards[j],
        )
}

/// The two-level lookup: select the last chunk holding `pc`, then the
/// rightmost row at or below `pc` within that chunk's shard slice.
pub open spec fn tables_lookup(
    shards: Seq<Seq<stack_unwind_row_t>>,
    chunks: Seq<ChunkInfo>,
    pc: u64,
) -> Option<stack_unwind_row_t> {
    match last_containing_chunk(chunks, pc) {
        None => None,
        Some(j) => match rightmost_le(shards[j], pc) {
            None => None,
            Some(i) => Some(shards[j][i]),
        },
    }
}

/// Looks `pc` up through the chunk index: `None` when no chunk covers the
/// address, else the rightmost row at or below it in the covering chunk's
/// shard.
pub fn lookup_unwind_row(
    shards: &Vec<Vec<stack_unwind_row_t>>,
    chunks: &Vec<ChunkInfo>,
    pc: u64,
) -> (r: Option<stack_unwind_row_t>)
    requires
        tables_wf(shard_views(shards@), chunks@),
    ensures
        r == tables_lookup(shard_views(shards@), chunks@, pc),
{
    match find_chunk(chunks, pc) {
        None => None,
        Some(ci) => {
            let chunk = chunks[ci];
            proof {
                assert(chunks@[ci as int].shard_index == ci as u64);
                assert(shard_views(shards@)[ci as int] == shards@[ci as int]@);
            }
            let si: usize = chunk.shard_index as usize;
            let shard: &Vec<stack_unwind_row_t> = &shards[si];
            match binary_search_rightmost(shard, pc) {
                None => None,
                Some(i) => Some(shard[i]),
            }
        },
    }
}

/// The shard tables of `rows` sharded at capacity `cap` into `k` shards.
pub open spec fn shards_of(rows: Seq<stack_unwind_row_t>, cap: int, k: int) -> Seq<
    Seq<stack_unwind_row_t>,
> {
    Seq::new(k as nat, |j: int| shard_of(rows, cap, j))
}

/// The chunk index of `rows` sharded at capacity `cap` into `k` shards.
pub open spec fn chunks_of(rows: Seq<stack_unwind_row_t>, cap: int, k: int) -> Seq<ChunkInfo> {
    Seq::new(k as nat, |j: int| chunk_of(rows, cap, k, j))
}

/// `k` is the number of shards a table of `n` rows fills at capacity `cap`.
pub open spec fn sharding_bounds(n: int, cap: int, k: int) -> bool {
    cap >= 1 && k >= 1 && (k - 1) * cap < n <= k * cap
}

/// Index arithmetic of one shard: where shard `j` starts and ends.
proof fn lemma_shard_arith(n: int, cap: int, k: int, j: int)
    requires
        sharding_bounds(n, cap, k),
        0 <= j < k,
    ensures
        0 <= j * cap < n,
        (j + 1) * cap == j * cap + cap,
        j < k - 1 ==> (j + 1) * cap < n,
        j == k - 1 ==> n <= (j + 1) * cap,
        j * cap < min_int((j + 1) * cap, n) <= n,
{
    assert(0 <= j * cap && j * cap <= (k - 1) * cap && (j + 1) * cap == j * cap + cap && (j < k - 1
        ==> (j + 1) * cap <= (k - 1) * cap) && (j == k - 1 ==> (j + 1) * cap == k * cap))
        by (nonlinear_arith)
        requires
            cap >= 1,
            0 <= j < k,
    ;
}

/// The tables that sharding a sorted row table produces are well formed.
pub proof fn lemma_sharded_tables_wf(rows: Seq<stack_unwind_row_t>, cap: int, k: int)
    requires
        sorted_by_pc(rows),
        rows.len() > 0,
        rows.len() <= u64::MAX,
        sharding_bounds(rows.len() as int, cap, k),
    ensures
        tables_wf(shards_of(rows, cap, k), chunks_of(rows, cap, k)),
{
    let n = rows.len() as int;
    let shards = shards_of(rows, cap, k);
    let chunks = chunks_of(rows, cap, k);
    assert forall|j: int|
        0 <= j < chunks.len() implies (#[trigger] chunks[j]).shard_index == j as u64 && chunks[
        j].low_index == 0 && chunks[j].high_index == shards[j].len() && sorted_by_pc(
        shards[j],
    ) by {
        lemma_shard_arith(n, cap, k, j);
        assert(shards[j] == shard_of(rows, cap, j));
        assert(forall|m: int|
            0 <= m < shards[j].len() ==> #[trigger] shards[j][m] == rows[j * cap + m]);
    }
    assert forall|j: int|
        0 <= j < chunks.len() - 1 implies (#[trigger] chunks[j]).low_pc <= chunks[j + 1].low_pc && (
    chunks[j].high_pc < chunks[j + 1].low_pc || chunks[j].high_pc == 0) by {
        lemma_shard_arith(n, cap, k, j);
        lemma_shard_arith(n, cap, k, j + 1);
        assert(chunks[j].low_pc == rows[j * cap].pc);
        assert(chunks[j + 1].low_pc == rows[(j + 1) * cap].pc);
        assert(rows[j * cap].pc <= rows[(j + 1) * cap].pc);
    }
}

/// Binary-search equivalence of the two-level lookup: for every address up
/// to the table's last, looking up through the chunk index of any sharding
/// returns exactly what the rightmost-at-or-below search over the whole
/// undivided table returns; above the table's last address the chunked
/// lookup reports nothing where the monolithic search would clamp to the
/// trailing row.
pub proof fn lemma_chunked_lookup_equivalence(
    rows: Seq<stack_unwind_row_t>,
    cap: int,
    k: int,
    pc: u64,
)
    requires
        sorted_by_pc(rows),
        rows.len() > 0,
        rows.len() <= u64::MAX,
        sharding_bounds(rows.len() as int, cap, k),
    ensures
        pc <= rows[rows.len() - 1].pc ==> tables_lookup(
            shards_of(rows, cap, k),
            chunks_of(rows, cap, k),
            pc,
        ) == (match rightmost_le(rows, pc) {
            None => None::<stack_unwind_row_t>,
            Some(i) => Some(rows[i]),
        }),
        pc > rows[rows.len() - 1].pc ==> tables_lookup(
            shards_of(rows, cap, k),
            chunks_of(rows, cap, k),
            pc,
        ) is None && rightmost_le(rows, pc) == Some(rows.len() - 1),
{
    let n = rows.len() as int;
    let shards = shards_of(rows, cap, k);
    let chunks = chunks_of(rows, cap, k);

    if pc > rows[n - 1].pc {
        // Every chunk ends at or before the table's last address.
        assert forall|j: int| 0 <= j < chunks.len() implies !chunk_contains(
            #[trigger] chunks[j],
            pc,
        ) by {
            lemma_shard_arith(n, cap, k, j);
            if j < k - 1 {
                assert(chunks[j].high_pc == pc_pred(rows[(j + 1) * cap].pc));
                assert(rows[(j + 1) * cap].pc <= rows[n - 1].pc);
            } else {
                assert(chunks[j].high_pc == rows[n - 1].pc);
            }
        }
        lemma_last_containing_none(chunks, pc);
    } else if pc < rows[0].pc {
        // No chunk starts low enough, and no row lies at or below `pc`.
        assert forall|j: int| 0 <= j < chunks.len() implies !chunk_contains(
            #[trigger] chunks[j],
            pc,
        ) by {
            lemma_shard_arith(n, cap, k, j);
            assert(chunks[j].low_pc == rows[j * cap].pc);
            assert(rows[0].pc <= rows[j * cap].pc);
        }
        lemma_last_containing_none(chunks, pc);
        lemma_rightmost_le_none(rows, pc);
    } else {
        // The monolithic search finds a row.
        lemma_rightmost_le(rows, pc);
        if rightmost_le(rows, pc) is None {
            assert(rows[0].pc > pc);
        }
        let istar = rightmost_le(rows, pc)->Some_0;
        assert(0 <= istar < n && rows[istar].pc <= pc);

        // The chunk holding the found row's index.
        let jq = istar / cap;
        vstd::arithmetic::div_mod::lemma_fundamental_div_mod(istar, cap);
        vstd::arithmetic::div_mod::lemma_mod_bound(istar, cap);
        vstd::arithmetic::div_mod::lemma_div_pos_is_pos(istar, cap);
        assert(cap * jq + istar % cap == istar);
        assert(cap * jq == jq * cap) by (nonlinear_arith);
        assert(jq * cap <= istar < jq * cap + cap);
        if jq >= k {
            assert(jq * cap >= k * cap) by (nonlinear_arith)
                requires
                    jq >= k,
                    cap >= 1,
            ;
        }
        assert(0 <= jq < k);
        lemma_shard_arith(n, cap, k, jq);

        // That chunk contains `pc`.
        assert(chunks[jq] == chunk_of(rows, cap, k, jq));
        assert(chunks[jq].low_pc == rows[jq * cap].pc);
        assert(rows[jq * cap].pc <= rows[istar].pc);
        if jq < k - 1 {
            let next_low = rows[(jq + 1) * cap].pc;
            assert(istar < (jq + 1) * cap);
            if istar + 1 <= (jq + 1) * cap {
                assert(rows[istar + 1].pc <= next_low || istar + 1 == (jq + 1) * cap);
            }
            assert(istar + 1 < n);
            assert(rows[istar + 1].pc > pc);
            assert(rows[istar + 1].pc <= next_low);
            assert(next_low > pc);
            assert(chunks[jq].high_pc == pc_pred(next_low));
            assert(pc <= chunks[jq].high_pc);
        } else {
            assert(chunks[jq].high_pc == rows[n - 1].pc);
        }
        assert(chunk_contains(chunks[jq], pc));

        // No later chunk starts at or below `pc`.
        assert forall|m: int| jq < m < chunks.len() implies !chunk_contains(
            #[trigger] chunks[m],
            pc,
        ) by {
            lemma_shard_arith(n, cap, k, m);
            assert((jq + 1) * cap <= m * cap) by (nonlinear_arith)
                requires
                    jq + 1 <= m,
                    cap >= 1,
            ;
            assert(chunks[m].low_pc == rows[m * cap].pc);
            assert(istar + 1 <= (jq + 1) * cap);
            assert(rows[istar + 1].pc <= rows[m * cap].pc);
            assert(rows[istar + 1].pc > pc);
        }
        lemma_last_containing_is(chunks, pc, jq);

        // Within that chunk's shard the search lands on the same row.
        let a = jq * cap;
        let b = min_int((jq + 1) * cap, n);
        let shard = shards[jq];
        assert(shard == shard_of(rows, cap, jq));
        assert(shard.len() == b - a);
        assert(forall|m: int| 0 <= m < b - a ==> #[trigger] shard[m] == rows[a + m]);
        assert(a <= istar < b);
        assert(shard[istar - a] == rows[istar]);
        assert forall|m: int| istar - a < m < shard.len() implies shard[m].pc > pc by {
            assert(shard[m] == rows[a + m]);
        }
        lemma_rightmost_le_is(shard, pc, istar - a);
        assert(tables_lookup(shards, chunks, pc) == Some(rows[istar]));
    }
}

} // verus!
