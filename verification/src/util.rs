//! Splitting a contiguous address interval into power-of-two-aligned blocks
//! for longest-prefix-match keys, and parsing kernel CPU-list text.

use vstd::prelude::*;

verus! {

/// One longest-prefix-match block: the addresses sharing the first
/// `prefix_len` bits of `addr`, that is `[addr, addr + 2^(64 - prefix_len))`.
#[derive(Debug, PartialEq, Eq, Structural, Copy, Clone)]
pub struct AddressBlockRange {
    pub addr: u64,
    pub prefix_len: u32,
}

/// A block's prefix length denotes a non-empty power-of-two span.
pub open spec fn wf_block(b: AddressBlockRange) -> bool {
    1 <= b.prefix_len <= 64
}

/// Number of addresses a block covers.
pub open spec fn block_span(b: AddressBlockRange) -> int {
    (1u64 << ((64 - b.prefix_len) as u64)) as int
}

/// The block starts aligned to its span: clearing the address bits below
/// the prefix reproduces the address.
pub open spec fn block_aligned(b: AddressBlockRange) -> bool {
    (b.addr >> ((64 - b.prefix_len) as u64)) << ((64 - b.prefix_len) as u64) == b.addr
}

/// Address `a` lies inside block `b`.
pub open spec fn in_block(b: AddressBlockRange, a: u64) -> bool {
    b.addr <= a < b.addr + block_span(b)
}

/// Some block of `blocks` holds address `a`.
pub open spec fn covered(blocks: Seq<AddressBlockRange>, a: u64) -> bool {
    exists|i: int| 0 <= i < blocks.len() && in_block(#[trigger] blocks[i], a)
}

/// A well-formed block covers at least one address.
proof fn lemma_span_pos(b: AddressBlockRange)
    requires
        wf_block(b),
    ensures
        1 <= block_span(b),
{
    let sh: u64 = ((64 - b.prefix_len) as u64);
    assert(sh < 64 ==> 1u64 << sh >= 1) by (bit_vector);
}

/// The blocks tile `[low, high]` exactly: the first starts at `low`, each
/// block ends where the next begins, and the last ends just past `high`.
pub open spec fn blocks_partition(blocks: Seq<AddressBlockRange>, low: u64, high: u64) -> bool {
    &&& blocks.len() > 0
    &&& forall|i: int|
        0 <= i < blocks.len() ==> wf_block(#[trigger] blocks[i]) && block_aligned(blocks[i])
    &&& blocks[0].addr == low
    &&& forall|i: int|
        0 <= i < blocks.len() - 1 ==> #[trigger] blocks[i].addr + block_span(blocks[i]) == blocks[i + 1].addr
    &&& blocks.last().addr + block_span(blocks.last()) == high + 1
}

/// Splits the inclusive interval `[low, high]` into the greedy sequence of
/// aligned power-of-two blocks: each step takes the largest block that both
/// starts aligned at the current position and stays inside the interval.
pub fn summarize_address_range(low: u64, high: u64) -> (r: Vec<AddressBlockRange>)
    requires
        low <= high,
        !(low == 0 && high == u64::MAX),
    ensures
        blocks_partition(r@, low, high),
{
    let mut res: Vec<AddressBlockRange> = Vec::new();
    let mut curr: u64 = low;

    loop
        invariant_except_break
            low <= curr <= high,
            curr == 0 ==> high < u64::MAX,
            res@.len() == 0 ==> curr == low,
            res@.len() > 0 ==> res@[0].addr == low,
            forall|i: int|
                0 <= i < res@.len() ==> wf_block(#[trigger] res@[i]) && block_aligned(res@[i]),
            forall|i: int|
                0 <= i < res@.len() - 1 ==> #[trigger] res@[i].addr + block_span(res@[i]) == res@[i + 1].addr,
            res@.len() > 0 ==> res@.last().addr + block_span(res@.last()) == curr,
        ensures
            blocks_partition(res@, low, high),
        decreases high - curr,
    {
        let rem: u64 = high - curr + 1;
        let tz: u32 = curr.trailing_zeros();
        let lz: u32 = rem.leading_zeros();
        proof {
            vstd::std_specs::bits::axiom_u64_trailing_zeros(curr);
            vstd::std_specs::bits::axiom_u64_leading_zeros(rem);
        }
        let floor_bits: u32 = 63 - lz;
        let number_of_bits: u32 = if tz < floor_bits {
            tz
        } else {
            floor_bits
        };
        let ghost nb: u64 = number_of_bits as u64;
        let ghost fb: u64 = floor_bits as u64;
        let size: u64 = 1u64 << (number_of_bits as u64);
        proof {
            // The chosen block fits the rest of the interval: the bit at the
            // highest set position of `rem` witnesses `2^fb <= rem`.
            assert((rem >> fb) & 1u64 != 0u64);
            assert((rem >> fb) & 1u64 != 0u64 && fb < 64 && nb <= fb ==> 1u64 << nb <= rem)
                by (bit_vector);
            assert(nb < 64 ==> 1u64 << nb >= 1) by (bit_vector);
            // The chosen block starts aligned: the address keeps only bits
            // at or above the chosen position.
            if curr != 0 {
                let tz64: u64 = tz as u64;
                let sh: u64 = ((64 - tz) as u64);
                assert(curr << sh == 0);
                assert(curr << sh == 0 && sh + tz64 == 64 && tz64 < 64 && nb <= tz64 && nb < 64
                    ==> (curr >> nb) << nb == curr) by (bit_vector);
            } else {
                let z: u64 = 0;
                assert(z == 0 ==> (z >> nb) << nb == z) by (bit_vector);
            }
        }
        let block = AddressBlockRange { addr: curr, prefix_len: 64 - number_of_bits };
        proof {
            assert(block_span(block) == 1u64 << nb);
        }
        res.push(block);

        if high - curr == size - 1 {
            break ;
        }
        curr = curr + size;
    }

    res
}

/// Errors of CPU-list parsing, one per place the text can be malformed.
#[derive(Debug, Copy, Clone, PartialEq, Eq, Structural)]
pub enum CpuListError {
    /// A piece without a dash is not a number.
    InvalidLoneCpu,
    /// The part before a dash is not a number.
    InvalidRangeStart,
    /// The part after a dash is not a number.
    InvalidRangeEnd,
    /// The part after a dash is the largest representable number, whose
    /// range cannot be enumerated.
    RangeEndOverflow,
}

/// ASCII whitespace, as trimmed from the end of each number.
pub open spec fn is_ws(c: u8) -> bool {
    c == 32 || c == 9 || c == 10 || c == 13
}

/// An ASCII decimal digit.
pub open spec fn is_digit(c: u8) -> bool {
    48 <= c <= 57
}

/// The end of `[from, to)` after trailing whitespace is dropped.
pub open spec fn trimmed_end(s: Seq<u8>, from: int, to: int) -> int
    decreases to - from,
{
    if to > from && is_ws(s[to - 1]) {
        trimmed_end(s, from, to - 1)
    } else {
        to
    }
}

/// All bytes of `[from, to)` are digits.
pub open spec fn all_digits(s: Seq<u8>, from: int, to: int) -> bool {
    forall|k: int| from <= k < to ==> is_digit(#[trigger] s[k])
}

/// The decimal value of the digits in `[from, to)`.
pub open spec fn digits_value(s: Seq<u8>, from: int, to: int) -> int
    decreases to - from,
{
    if to <= from {
        0
    } else {
        digits_value(s, from, to - 1) * 10 + (s[to - 1] - 48)
    }
}

/// The first position of `b` in `[from, to)`, or `to` when it does not
/// occur.
pub open spec fn find_in_range(s: Seq<u8>, from: int, to: int, b: u8) -> int
    decreases to - from,
{
    if from >= to {
        to
    } else if s[from] == b {
        from
    } else {
        find_in_range(s, from + 1, to, b)
    }
}

/// `[from, to)` holds a number: non-empty, all digits, and representable.
pub open spec fn is_number(s: Seq<u8>, from: int, to: int) -> bool {
    to > from && all_digits(s, from, to) && digits_value(s, from, to) <= u32::MAX
}

/// The ascending run of CPU indices from `a` through `b`.
pub open spec fn range_seq(a: int, b: int) -> Seq<u32> {
    if a > b {
        Seq::empty()
    } else {
        Seq::new((b - a + 1) as nat, |k: int| (a + k) as u32)
    }
}

/// The CPU indices one comma-separated piece denotes: a lone number, or
/// the inclusive range between the numbers around its first dash, each
/// with trailing whitespace ignored.
pub open spec fn parse_piece(s: Seq<u8>, from: int, to: int) -> Result<Seq<u32>, CpuListError> {
    let dash = find_in_range(s, from, to, 45);
    if dash == to {
        let te = trimmed_end(s, from, to);
        if is_number(s, from, te) {
            Ok(seq![digits_value(s, from, te) as u32])
        } else {
            Err(CpuListError::InvalidLoneCpu)
        }
    } else {
        let se = trimmed_end(s, from, dash);
        if !is_number(s, from, se) {
            Err(CpuListError::InvalidRangeStart)
        } else {
            let ee = trimmed_end(s, dash + 1, to);
            if !is_number(s, dash + 1, ee) {
                Err(CpuListError::InvalidRangeEnd)
            } else if digits_value(s, dash + 1, ee) == u32::MAX {
                Err(CpuListError::RangeEndOverflow)
            } else {
                Ok(range_seq(digits_value(s, from, se), digits_value(s, dash + 1, ee)))
            }
        }
    }
}

/// The CPU indices the comma-separated list from `from` denotes; the first
/// malformed piece fails the whole parse.
pub open spec fn parse_list_from(s: Seq<u8>, from: int) -> Result<Seq<u32>, CpuListError>
    decreases s.len() - from,
{
    let c = find_in_range(s, from, s.len() as int, 44);
    match parse_piece(s, from, c) {
        Err(e) => Err(e),
        Ok(vs) => if c >= s.len() {
            Ok(vs)
        } else if from <= c {
            match parse_list_from(s, c + 1) {
                Err(e) => Err(e),
                Ok(rest) => Ok(vs + rest),
            }
        } else {
            Ok(vs)
        },
    }
}

/// `find_in_range` stays within `[from, to]` and finds `b` exactly.
proof fn lemma_find_in_range(s: Seq<u8>, from: int, to: int, b: u8)
    requires
        from <= to,
    ensures
        from <= find_in_range(s, from, to, b) <= to,
        find_in_range(s, from, to, b) < to ==> s[find_in_range(s, from, to, b)] == b,
        forall|k: int| from <= k < find_in_range(s, from, to, b) ==> s[k] != b,
    decreases to - from,
{
    if from < to && s[from] != b {
        lemma_find_in_range(s, from + 1, to, b);
    }
}

/// `trimmed_end` drops exactly the trailing whitespace.
proof fn lemma_trimmed_end(s: Seq<u8>, from: int, to: int)
    requires
        from <= to,
    ensures
        from <= trimmed_end(s, from, to) <= to,
        trimmed_end(s, from, to) > from ==> !is_ws(s[trimmed_end(s, from, to) - 1]),
        forall|k: int| trimmed_end(s, from, to) <= k < to ==> is_ws(#[trigger] s[k]),
    decreases to - from,
{
    if to > from && is_ws(s[to - 1]) {
        lemma_trimmed_end(s, from, to - 1);
    }
}

/// The value of an all-digit run is nonnegative and grows with its length.
proof fn lemma_digits_value_monotone(s: Seq<u8>, from: int, mid: int, to: int)
    requires
        from <= mid <= to,
        all_digits(s, from, to),
    ensures
        0 <= digits_value(s, from, mid) <= digits_value(s, from, to),
    decreases to - mid,
{
    if mid == to {
        lemma_digits_value_nonneg(s, from, to);
    } else {
        lemma_digits_value_monotone(s, from, mid, to - 1);
        lemma_digits_value_nonneg(s, from, to - 1);
    }
}

/// The value of an all-digit run is nonnegative.
proof fn lemma_digits_value_nonneg(s: Seq<u8>, from: int, to: int)
    requires
        all_digits(s, from, to),
    ensures
        digits_value(s, from, to) >= 0,
    decreases to - from,
{
    if to > from {
        lemma_digits_value_nonneg(s, from, to - 1);
    }
}

/// Finds the first position of `b` in `text[from..to)`, or `to`.
fn find_byte(text: &Vec<u8>, from: usize, to: usize, b: u8) -> (r: usize)
    requires
        from <= to <= text@.len(),
    ensures
        r == find_in_range(text@, from as int, to as int, b),
        from <= r <= to,
{
    proof {
        lemma_find_in_range(text@, from as int, to as int, b);
    }
    let mut k: usize = from;
    while k < to
        invariant
            from <= k <= to <= text@.len(),
            find_in_range(text@, from as int, to as int, b) == find_in_range(
                text@,
                k as int,
                to as int,
                b,
            ),
            forall|m: int| from <= m < k ==> text@[m] != b,
        decreases to - k,
    {
        if text[k] == b {
            return k;
        }
        k = k + 1;
    }
    to
}

/// The end of `text[from..to)` once trailing whitespace is dropped.
fn trim_end_pos(text: &Vec<u8>, from: usize, to: usize) -> (r: usize)
    requires
        from <= to <= text@.len(),
    ensures
        r == trimmed_end(text@, from as int, to as int),
        from <= r <= to,
{
    proof {
        lemma_trimmed_end(text@, from as int, to as int);
    }
    let mut t: usize = to;
    loop
        invariant_except_break
            from <= t <= to <= text@.len(),
            trimmed_end(text@, from as int, to as int) == trimmed_end(
                text@,
                from as int,
                t as int,
            ),
        ensures
            t == trimmed_end(text@, from as int, to as int),
            from <= t <= to,
        decreases t,
    {
        if t == from {
            break ;
        }
        let c = text[t - 1];
        if !(c == 32 || c == 9 || c == 10 || c == 13) {
            break ;
        }
        t = t - 1;
    }
    t
}

/// Parses `text[from..to)` as a decimal number: the digits' value when the
/// run is non-empty, all digits, and representable; nothing otherwise.
fn parse_number(text: &Vec<u8>, from: usize, to: usize) -> (r: Option<u32>)
    requires
        from <= to <= text@.len(),
    ensures
        r matches Some(v) ==> is_number(text@, from as int, to as int) && v == digits_value(
            text@,
            from as int,
            to as int,
        ),
        r is None ==> !is_number(text@, from as int, to as int),
{
    if from == to {
        return None;
    }
    let mut val: u32 = 0;
    let mut k: usize = from;
    while k < to
        invariant
            from <= k <= to <= text@.len(),
            all_digits(text@, from as int, k as int),
            val == digits_value(text@, from as int, k as int),
        decreases to - k,
    {
        let c = text[k];
        if c < 48 || c > 57 {
            proof {
                assert(!is_digit(text@[k as int]));
            }
            return None;
        }
        let d: u32 = (c - 48) as u32;
        if val > (u32::MAX - d) / 10 {
            proof {
                // The prefix already exceeds the representable range, so
                // the whole run does wherever it is all digits.
                assert(val * 10 + d > u32::MAX);
                assert(all_digits(text@, from as int, k + 1));
                assert(digits_value(text@, from as int, k + 1) > u32::MAX);
                if all_digits(text@, from as int, to as int) {
                    lemma_digits_value_monotone(text@, from as int, k + 1, to as int);
                }
            }
            return None;
        }
        val = val * 10 + d;
        k = k + 1;
    }
    Some(val)
}

/// Appends the CPU indices from `start` through `end` in order.
fn push_range(cpus: &mut Vec<u32>, start: u32, end: u32) -> (r: bool)
    requires
        end < u32::MAX,
    ensures
        r,
        final(cpus)@ == old(cpus)@ + range_seq(start as int, end as int),
{
    let ghost orig = cpus@;
    if start > end {
        proof {
            assert(cpus@ =~= orig + range_seq(start as int, end as int));
        }
        return true;
    }
    let mut v: u32 = start;
    while v <= end
        invariant
            end < u32::MAX,
            start <= v <= end + 1,
            cpus@ == orig + range_seq(start as int, v - 1),
        decreases end + 1 - v,
    {
        cpus.push(v);
        proof {
            assert(cpus@ =~= orig + range_seq(start as int, v as int));
        }
        v = v + 1;
    }
    proof {
        if start > end {
            assert(cpus@ =~= orig + range_seq(start as int, end as int));
        }
    }
    true
}

/// Parses a kernel CPU-list text, as `/sys` exposes it: comma-separated
/// pieces, each either one CPU index or an inclusive dash range, with
/// trailing whitespace allowed after each number.
pub fn parse_cpu_range(text: &Vec<u8>) -> (r: Result<Vec<u32>, CpuListError>)
    ensures
        match r {
            Ok(cpus) => parse_list_from(text@, 0) == Ok::<Seq<u32>, CpuListError>(cpus@),
            Err(e) => parse_list_from(text@, 0) == Err::<Seq<u32>, CpuListError>(e),
        },
{
    let n: usize = text.len();
    let mut cpus: Vec<u32> = Vec::new();
    let mut p: usize = 0;

    loop
        invariant_except_break
            p <= n,
            n == text@.len(),
            parse_list_from(text@, 0) == (match parse_list_from(text@, p as int) {
                Ok(rest) => Ok::<Seq<u32>, CpuListError>(cpus@ + rest),
                Err(e) => Err::<Seq<u32>, CpuListError>(e),
            }),
        ensures
            parse_list_from(text@, 0) == Ok::<Seq<u32>, CpuListError>(cpus@),
        decreases n - p,
    {
        let ghost cpus0 = cpus@;
        let c = find_byte(text, p, n, 44);
        proof {
            lemma_find_in_range(text@, p as int, n as int, 44);
        }
        let dash = find_byte(text, p, c, 45);
        if dash == c {
            let te = trim_end_pos(text, p, c);
            match parse_number(text, p, te) {
                Some(v) => {
                    cpus.push(v);
                    proof {
                        assert(parse_piece(text@, p as int, c as int) == Ok::<
                            Seq<u32>,
                            CpuListError,
                        >(seq![v]));
                        assert(cpus@ =~= cpus0 + seq![v]);
                    }
                },
                None => {
                    proof {
                        assert(parse_piece(text@, p as int, c as int) == Err::<
                            Seq<u32>,
                            CpuListError,
                        >(CpuListError::InvalidLoneCpu));
                    }
                    return Err(CpuListError::InvalidLoneCpu);
                },
            }
        } else {
            let se = trim_end_pos(text, p, dash);
            let start = match parse_number(text, p, se) {
                Some(v) => v,
                None => {
                    return Err(CpuListError::InvalidRangeStart);
                },
            };
            let ee = trim_end_pos(text, dash + 1, c);
            let endv = match parse_number(text, dash + 1, ee) {
                Some(v) => v,
                None => {
                    return Err(CpuListError::InvalidRangeEnd);
                },
            };
            if endv == u32::MAX {
                return Err(CpuListError::RangeEndOverflow);
            }
            push_range(&mut cpus, start, endv);
            proof {
                assert(parse_piece(text@, p as int, c as int) == Ok::<Seq<u32>, CpuListError>(
                    range_seq(start as int, endv as int),
                ));
            }
        }
        proof {
            let piece = parse_piece(text@, p as int, c as int);
            assert(piece is Ok && cpus@ == cpus0 + piece->Ok_0);
            if c == n {
                assert(parse_list_from(text@, p as int) == Ok::<Seq<u32>, CpuListError>(
                    piece->Ok_0,
                ));
            } else {
                assert(parse_list_from(text@, p as int) == (match parse_list_from(
                    text@,
                    c + 1,
                ) {
                    Ok(rest) => Ok::<Seq<u32>, CpuListError>(piece->Ok_0 + rest),
                    Err(e) => Err::<Seq<u32>, CpuListError>(e),
                }));
                match parse_list_from(text@, c + 1) {
                    Ok(rest) => {
                        assert((cpus0 + piece->Ok_0) + rest =~= cpus0 + (piece->Ok_0 + rest));
                    },
                    Err(_) => {},
                }
            }
        }
        if c == n {
            break ;
        }
        p = c + 1;
    }
    Ok(cpus)
}

/// In a partition, every later block starts where no earlier block reaches:
/// block starts grow by at least each block's span.
proof fn lemma_blocks_monotonic(blocks: Seq<AddressBlockRange>, low: u64, high: u64, i: int, j: int)
    requires
        blocks_partition(blocks, low, high),
        0 <= i < j < blocks.len(),
    ensures
        blocks[i].addr + block_span(blocks[i]) <= blocks[j].addr,
    decreases j - i,
{
    if j > i + 1 {
        lemma_blocks_monotonic(blocks, low, high, i, j - 1);
        lemma_span_pos(blocks[j - 1]);
    }
}

/// Every block of a partition lies inside `[low, high + 1)`.
proof fn lemma_blocks_in_range(blocks: Seq<AddressBlockRange>, low: u64, high: u64, i: int)
    requires
        blocks_partition(blocks, low, high),
        0 <= i < blocks.len(),
    ensures
        low <= blocks[i].addr,
        blocks[i].addr + block_span(blocks[i]) <= high + 1,
{
    lemma_span_pos(blocks[i]);
    if i > 0 {
        lemma_blocks_monotonic(blocks, low, high, 0, i);
        lemma_span_pos(blocks[0]);
    }
    if i < blocks.len() - 1 {
        lemma_blocks_monotonic(blocks, low, high, i, blocks.len() - 1);
    }
}

/// Each address of `[low, high]` lies in some block of the partition.
proof fn lemma_blocks_find(blocks: Seq<AddressBlockRange>, low: u64, high: u64, a: u64, j: int)
    requires
        blocks_partition(blocks, low, high),
        0 <= j < blocks.len(),
        low <= a,
        a < blocks[j].addr + block_span(blocks[j]),
    ensures
        exists|i: int|
            0 <= i <= j && blocks[i].addr <= a < blocks[i].addr + block_span(#[trigger] blocks[i]),
    decreases j,
{
    if blocks[j].addr <= a {
        assert(blocks[j].addr <= a < blocks[j].addr + block_span(blocks[j]));
    } else {
        assert(j > 0) by {
            if j == 0 {
                assert(blocks[0].addr == low);
            }
        }
        assert(blocks[j - 1].addr + block_span(blocks[j - 1]) == blocks[j].addr);
        lemma_blocks_find(blocks, low, high, a, j - 1);
    }
}

/// The blocks of a partition of `[low, high]` are sorted by address, are
/// pairwise disjoint, and their union is exactly the interval: an address
/// lies in some block if and only if it lies in `[low, high]`.
pub proof fn lemma_blocks_partition_exact(blocks: Seq<AddressBlockRange>, low: u64, high: u64)
    requires
        blocks_partition(blocks, low, high),
    ensures
        forall|i: int, j: int|
            #![trigger blocks[i], blocks[j]]
            0 <= i < j < blocks.len() ==> blocks[i].addr < blocks[j].addr,
        forall|i: int, j: int|
            #![trigger blocks[i], blocks[j]]
            0 <= i < j < blocks.len() ==> blocks[i].addr + block_span(blocks[i])
                <= blocks[j].addr,
        forall|a: u64| (low <= a <= high) <==> #[trigger] covered(blocks, a),
{
    assert forall|i: int, j: int|
        #![trigger blocks[i], blocks[j]]
        0 <= i < j < blocks.len() implies blocks[i].addr + block_span(blocks[i])
        <= blocks[j].addr by {
        lemma_blocks_monotonic(blocks, low, high, i, j);
    }
    assert forall|i: int, j: int|
        #![trigger blocks[i], blocks[j]]
        0 <= i < j < blocks.len() implies blocks[i].addr < blocks[j].addr by {
        lemma_blocks_monotonic(blocks, low, high, i, j);
        lemma_span_pos(blocks[i]);
    }
    assert forall|a: u64| (low <= a <= high) implies #[trigger] covered(blocks, a) by {
        lemma_blocks_find(blocks, low, high, a, blocks.len() - 1);
        let i = choose|i: int|
            0 <= i <= blocks.len() - 1 && blocks[i].addr <= a < blocks[i].addr + block_span(
                #[trigger] blocks[i],
            );
        assert(in_block(blocks[i], a));
    }
    assert forall|a: u64| #[trigger] covered(blocks, a) implies (low <= a <= high) by {
        let i = choose|i: int| 0 <= i < blocks.len() && in_block(#[trigger] blocks[i], a);
        lemma_blocks_in_range(blocks, low, high, i);
    }
}

} // verus!
