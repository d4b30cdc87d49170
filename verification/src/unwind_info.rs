//! Compact unwind rows, the function-boundary marker, the event compactor
//! and the two redundancy-elimination passes over a sorted row table.

use vstd::prelude::*;

use crate::profiler_bindings::stack_unwind_row_t;

verus! {

/// Tag for the rule that recovers the canonical frame address.
#[derive(Debug, Copy, Clone, PartialEq, Eq)]
pub enum CfaType {
    FramePointerOffset,
    StackPointerOffset,
    Expression,
    EndFdeMarker,
    UnsupportedRegisterOffset,
    OffsetDidNotFit,
}

pub const CFA_TYPE_FRAME_POINTER_OFFSET: u8 = 1;

pub const CFA_TYPE_STACK_POINTER_OFFSET: u8 = 2;

pub const CFA_TYPE_EXPRESSION: u8 = 3;

pub const CFA_TYPE_END_FDE_MARKER: u8 = 4;

pub const CFA_TYPE_UNSUPPORTED_REGISTER_OFFSET: u8 = 5;

pub const CFA_TYPE_OFFSET_DID_NOT_FIT: u8 = 6;

impl CfaType {
    /// The numeric tag stored in a row's `cfa_type` field.
    pub fn as_u8(&self) -> (r: u8)
        ensures
            r == match *self {
                CfaType::FramePointerOffset => CFA_TYPE_FRAME_POINTER_OFFSET,
                CfaType::StackPointerOffset => CFA_TYPE_STACK_POINTER_OFFSET,
                CfaType::Expression => CFA_TYPE_EXPRESSION,
                CfaType::EndFdeMarker => CFA_TYPE_END_FDE_MARKER,
                CfaType::UnsupportedRegisterOffset => CFA_TYPE_UNSUPPORTED_REGISTER_OFFSET,
                CfaType::OffsetDidNotFit => CFA_TYPE_OFFSET_DID_NOT_FIT,
            },
    {
        match *self {
            CfaType::FramePointerOffset => CFA_TYPE_FRAME_POINTER_OFFSET,
            CfaType::StackPointerOffset => CFA_TYPE_STACK_POINTER_OFFSET,
            CfaType::Expression => CFA_TYPE_EXPRESSION,
            CfaType::EndFdeMarker => CFA_TYPE_END_FDE_MARKER,
            CfaType::UnsupportedRegisterOffset => CFA_TYPE_UNSUPPORTED_REGISTER_OFFSET,
            CfaType::OffsetDidNotFit => CFA_TYPE_OFFSET_DID_NOT_FIT,
        }
    }
}

pub const RBP_TYPE_UNKNOWN: u8 = 0;

pub const RBP_TYPE_CFA_OFFSET: u8 = 1;

pub const RBP_TYPE_REGISTER: u8 = 2;

pub const RBP_TYPE_EXPRESSION: u8 = 3;

pub const RBP_TYPE_UNDEFINED_RETURN_ADDRESS: u8 = 4;

pub const PLT_TYPE_UNKNOWN: u16 = 0;

pub const PLT_TYPE_PLT1: u16 = 1;

pub const PLT_TYPE_PLT2: u16 = 2;

/// One row of the compacted unwind table, before it is laid out as a
/// `stack_unwind_row_t` record for the consumer.
#[derive(Debug, Copy, Clone, PartialEq, Eq, Structural)]
pub struct CompactUnwindRow {
    pub pc: u64,
    pub cfa_type: u8,
    pub rbp_type: u8,
    pub cfa_offset: u16,
    pub rbp_offset: i16,
}

impl Default for CompactUnwindRow {
    fn default() -> (r: Self)
        ensures
            r.pc == 0 && r.cfa_type == 0 && r.rbp_type == 0 && r.cfa_offset == 0
                && r.rbp_offset == 0,
    {
        CompactUnwindRow { pc: 0, cfa_type: 0, rbp_type: 0, cfa_offset: 0, rbp_offset: 0 }
    }
}

/// Errors that abort building the table for one executable.
#[derive(Debug, Copy, Clone, PartialEq, Eq, Structural)]
pub enum Error {
    /// The executable has no call-frame-information section.
    ErrorNoEhFrameSection,
    /// The executable's container format could not be parsed.
    ErrorParsingFile,
    /// The executable has no code section.
    ErrorNoTextSection,
    /// A per-range record that was discovered on the first pass could not be
    /// evaluated to its row table.
    ErrorCfiEvaluation,
    /// A frame-pointer offset did not fit the 16-bit signed row field.
    ErrorRbpOffsetDidNotFit,
    /// The section described no function at all.
    ErrorNoFunctionBoundaries,
}

/// The row placed at the address just past a function's last instruction, so
/// a lookup landing between functions sees an explicit boundary instead of a
/// stale rule.
pub fn end_of_function_marker(last_addr: u64) -> (r: CompactUnwindRow)
    ensures
        r.pc == last_addr,
        r.cfa_type == CFA_TYPE_END_FDE_MARKER,
        r.rbp_type == 0,
        r.cfa_offset == 0,
        r.rbp_offset == 0,
{
    CompactUnwindRow {
        pc: last_addr,
        cfa_type: CFA_TYPE_END_FDE_MARKER,
        ..Default::default()
    }
}

/// One event of the extraction stream: a function's address range, or one
/// unwind-rule row inside the current function.
#[derive(Debug, Copy, Clone)]
pub enum UnwindData {
    Function(u64, u64),
    Instruction(CompactUnwindRow),
}

/// The `stack_unwind_row_t` record holding the same fields as `row`.
pub open spec fn row_record(row: CompactUnwindRow) -> stack_unwind_row_t {
    stack_unwind_row_t {
        pc: row.pc,
        cfa_offset: row.cfa_offset,
        cfa_type: row.cfa_type,
        rbp_type: row.rbp_type,
        rbp_offset: row.rbp_offset,
    }
}

/// The boundary-marker record for `last_addr`, as `end_of_function_marker`
/// builds it.
pub open spec fn marker_record(last_addr: u64) -> stack_unwind_row_t {
    stack_unwind_row_t { pc: last_addr, cfa_offset: 0, cfa_type: CFA_TYPE_END_FDE_MARKER, rbp_type: 0, rbp_offset: 0 }
}

/// Number of `Function` events in `events`.
pub open spec fn count_functions(events: Seq<UnwindData>) -> int
    decreases events.len(),
{
    if events.len() == 0 {
        0
    } else {
        count_functions(events.drop_last()) + match events.last() {
            UnwindData::Function(_, _) => 1int,
            UnwindData::Instruction(_) => 0int,
        }
    }
}

/// Number of `Instruction` events in `events`.
pub open spec fn count_instructions(events: Seq<UnwindData>) -> int
    decreases events.len(),
{
    if events.len() == 0 {
        0
    } else {
        count_instructions(events.drop_last()) + match events.last() {
            UnwindData::Function(_, _) => 0int,
            UnwindData::Instruction(_) => 1int,
        }
    }
}

/// End address of the last `Function` event of `events`, if any.
pub open spec fn last_function_end(events: Seq<UnwindData>) -> Option<u64>
    decreases events.len(),
{
    if events.len() == 0 {
        None
    } else {
        match events.last() {
            UnwindData::Function(_, end) => Some(end),
            UnwindData::Instruction(_) => last_function_end(events.drop_last()),
        }
    }
}

/// The rows the compactor emits for `events`, without the trailing marker:
/// instruction rows are copied through, and each `Function` event after
/// the first closes the previous function with a boundary marker.
pub open spec fn compact_body(events: Seq<UnwindData>) -> Seq<stack_unwind_row_t>
    decreases events.len(),
{
    if events.len() == 0 {
        Seq::empty()
    } else {
        compact_body(events.drop_last()) + match events.last() {
            UnwindData::Function(_, _) => match last_function_end(events.drop_last()) {
                Some(addr) => seq![marker_record(addr)],
                None => Seq::empty(),
            },
            UnwindData::Instruction(row) => seq![row_record(row)],
        }
    }
}

/// The full compactor output for `events`: the body rows, then one marker
/// for the last function's end address.
pub open spec fn compact_events(events: Seq<UnwindData>) -> Seq<stack_unwind_row_t> {
    match last_function_end(events) {
        Some(addr) => compact_body(events).push(marker_record(addr)),
        None => compact_body(events),
    }
}

/// Flattens the extraction event stream into the table the consumer reads:
/// every instruction row is kept, and one boundary marker is placed at each
/// function's end address. Fails when the stream describes no function.
pub fn in_memory_unwind_info(events: &Vec<UnwindData>) -> (r: Result<
    Vec<stack_unwind_row_t>,
    Error,
>)
    ensures
        match r {
            Ok(rows) => count_functions(events@) > 0 && rows@ == compact_events(events@),
            Err(e) => e == Error::ErrorNoFunctionBoundaries && count_functions(events@) == 0,
        },
{
    let mut unwind_info: Vec<stack_unwind_row_t> = Vec::new();
    let mut last_function_end_addr: Option<u64> = None;

    let mut i: usize = 0;
    while i < events.len()
        invariant
            i <= events.len(),
            unwind_info@ == compact_body(events@.take(i as int)),
            last_function_end_addr == last_function_end(events@.take(i as int)),
        decreases events.len() - i,
    {
        assert(events@.take(i + 1).drop_last() == events@.take(i as int));
        assert(events@.take(i + 1).last() == events@[i as int]);
        match events[i] {
            UnwindData::Function(_begin, end_addr) => {
                match last_function_end_addr {
                    Some(addr) => {
                        let marker = end_of_function_marker(addr);
                        let row = stack_unwind_row_t {
                            pc: marker.pc,
                            cfa_offset: marker.cfa_offset,
                            cfa_type: marker.cfa_type,
                            rbp_type: marker.rbp_type,
                            rbp_offset: marker.rbp_offset,
                        };
                        unwind_info.push(row);
                    },
                    None => {},
                }
                last_function_end_addr = Some(end_addr);
            },
            UnwindData::Instruction(compact_row) => {
                let row = stack_unwind_row_t {
                    pc: compact_row.pc,
                    cfa_offset: compact_row.cfa_offset,
                    cfa_type: compact_row.cfa_type,
                    rbp_type: compact_row.rbp_type,
                    rbp_offset: compact_row.rbp_offset,
                };
                unwind_info.push(row);
            },
        }
        i = i + 1;
    }
    assert(events@.take(events@.len() as int) == events@);

    proof {
        lemma_count_functions_end(events@);
    }
    match last_function_end_addr {
        None => Err(Error::ErrorNoFunctionBoundaries),
        Some(last_addr) => {
            let marker = end_of_function_marker(last_addr);
            let row = stack_unwind_row_t {
                pc: marker.pc,
                cfa_offset: marker.cfa_offset,
                cfa_type: marker.cfa_type,
                rbp_type: marker.rbp_type,
                rbp_offset: marker.rbp_offset,
            };
            unwind_info.push(row);
            Ok(unwind_info)
        },
    }
}

/// A function end address exists exactly when some `Function` event does.
proof fn lemma_count_functions_end(events: Seq<UnwindData>)
    ensures
        (count_functions(events) > 0) <==> (last_function_end(events) is Some),
        count_functions(events) >= 0,
        count_instructions(events) >= 0,
    decreases events.len(),
{
    if events.len() > 0 {
        lemma_count_functions_end(events.drop_last());
    }
}

/// The compactor emits one row per instruction event and one marker per
/// function event.
pub proof fn lemma_compact_events_len(events: Seq<UnwindData>)
    ensures
        compact_events(events).len() == count_instructions(events) + count_functions(events),
    decreases events.len(),
{
    lemma_count_functions_end(events);
    lemma_compact_body_len(events);
}

/// The body holds one row per instruction and one marker per function but
/// the last.
proof fn lemma_compact_body_len(events: Seq<UnwindData>)
    ensures
        last_function_end(events) is Some ==> compact_body(events).len() == count_instructions(
            events,
        ) + count_functions(events) - 1,
        last_function_end(events) is None ==> compact_body(events).len() == count_instructions(
            events,
        ),
    decreases events.len(),
{
    if events.len() > 0 {
        lemma_compact_body_len(events.drop_last());
        lemma_count_functions_end(events.drop_last());
    }
}

/// `row` inserted after the last entry of the sorted sequence `s` that
/// does not lie above it, so rows with equal addresses keep their order.
pub open spec fn insert_row(s: Seq<stack_unwind_row_t>, row: stack_unwind_row_t) -> Seq<
    stack_unwind_row_t,
>
    decreases s.len(),
{
    if s.len() == 0 {
        seq![row]
    } else if s.last().pc <= row.pc {
        s.push(row)
    } else {
        insert_row(s.drop_last(), row).push(s.last())
    }
}

/// The stable insertion sort of a row table by program counter.
pub open spec fn sort_rows(s: Seq<stack_unwind_row_t>) -> Seq<stack_unwind_row_t>
    decreases s.len(),
{
    if s.len() == 0 {
        Seq::empty()
    } else {
        insert_row(sort_rows(s.drop_last()), s.last())
    }
}

/// Inserts `row` into the sorted vector `v` at its stable position.
fn insert_row_exec(v: Vec<stack_unwind_row_t>, row: stack_unwind_row_t) -> (r: Vec<
    stack_unwind_row_t,
>)
    ensures
        r@ == insert_row(v@, row),
    decreases v@.len(),
{
    let mut v = v;
    if v.len() == 0 {
        v.push(row);
        v
    } else {
        let last = v[v.len() - 1];
        if last.pc <= row.pc {
            v.push(row);
            v
        } else {
            v.pop();
            let mut r = insert_row_exec(v, row);
            r.push(last);
            r
        }
    }
}

/// Sorts the row table by program counter; rows sharing an address keep
/// their relative order, so the latest rule for an address stays last.
pub fn sort_by_pc(unwind_info: &mut Vec<stack_unwind_row_t>)
    ensures
        final(unwind_info)@ == sort_rows(old(unwind_info)@),
{
    let ghost orig = unwind_info@;
    let mut sorted: Vec<stack_unwind_row_t> = Vec::new();
    let mut i: usize = 0;
    while i < unwind_info.len()
        invariant
            i <= orig.len(),
            unwind_info@ == orig,
            sorted@ == sort_rows(orig.take(i as int)),
        decreases orig.len() - i,
    {
        proof {
            assert(orig.take(i + 1).drop_last() == orig.take(i as int));
            assert(orig.take(i + 1).last() == orig[i as int]);
        }
        sorted = insert_row_exec(sorted, unwind_info[i]);
        i = i + 1;
    }
    proof {
        assert(orig.take(orig.len() as int) == orig);
    }
    *unwind_info = sorted;
}

/// Inserting keeps a sorted table sorted and adds exactly the new row.
proof fn lemma_insert_row_properties(s: Seq<stack_unwind_row_t>, row: stack_unwind_row_t)
    requires
        sorted_by_pc(s),
    ensures
        sorted_by_pc(insert_row(s, row)),
        insert_row(s, row).to_multiset() == s.to_multiset().insert(row),
        insert_row(s, row).len() == s.len() + 1,
    decreases s.len(),
{
    broadcast use vstd::seq_lib::group_to_multiset_ensures;

    let out = insert_row(s, row);
    if s.len() == 0 {
        assert(seq![row].drop_last() =~= Seq::<stack_unwind_row_t>::empty());
        assert(out.to_multiset() =~~= s.to_multiset().insert(row));
    } else if s.last().pc <= row.pc {
        assert(forall|i: int| 0 <= i < s.len() ==> s[i].pc <= s.last().pc);
        assert(sorted_by_pc(out)) by {
            assert(forall|i: int| 0 <= i < s.len() ==> out[i] == s[i]);
        }
    } else {
        let t = s.drop_last();
        assert(sorted_by_pc(t)) by {
            assert(forall|i: int, j: int| 0 <= i <= j < t.len() ==> t[i] == s[i] && t[j] == s[j]);
        }
        lemma_insert_row_properties(t, row);
        let inner = insert_row(t, row);
        assert(out == inner.push(s.last()));
        // Every row of the inner result lies at or below the displaced last
        // row.
        assert forall|i: int, j: int| 0 <= i <= j < out.len() implies out[i].pc <= out[j].pc by {
            if j < inner.len() {
                assert(out[i] == inner[i] && out[j] == inner[j]);
            } else if i < inner.len() {
                assert(out[i] == inner[i]);
                assert(inner.to_multiset().contains(inner[i]));
                assert(t.to_multiset().insert(row).contains(inner[i]));
                if t.to_multiset().contains(inner[i]) {
                    assert(t.contains(inner[i]));
                    let m = choose|m: int| 0 <= m < t.len() && t[m] == inner[i];
                    assert(s[m].pc <= s.last().pc);
                } else {
                    assert(inner[i] == row);
                }
            }
        }
        assert(out.to_multiset() =~~= s.to_multiset().insert(row)) by {
            assert(t.push(s.last()) =~= s);
            assert(s.to_multiset() == t.to_multiset().insert(s.last()));
        }
    }
}

/// Sorting orders the table by program counter and keeps exactly the same
/// rows.
pub proof fn lemma_sort_rows_properties(s: Seq<stack_unwind_row_t>)
    ensures
        sorted_by_pc(sort_rows(s)),
        sort_rows(s).to_multiset() == s.to_multiset(),
        sort_rows(s).len() == s.len(),
    decreases s.len(),
{
    broadcast use vstd::seq_lib::group_to_multiset_ensures;

    if s.len() > 0 {
        let t = s.drop_last();
        lemma_sort_rows_properties(t);
        lemma_insert_row_properties(sort_rows(t), s.last());
        assert(t.push(s.last()) =~= s);
        assert(s.to_multiset() == t.to_multiset().insert(s.last()));
    }
}

/// Whether `r` is a function-boundary marker row.
pub open spec fn is_end_marker(r: stack_unwind_row_t) -> bool {
    r.cfa_type == CFA_TYPE_END_FDE_MARKER
}

/// The table is sorted by program counter.
pub open spec fn sorted_by_pc(s: Seq<stack_unwind_row_t>) -> bool {
    forall|i: int, j: int| 0 <= i <= j < s.len() ==> s[i].pc <= s[j].pc
}

/// One step of the marker-collapse pass: `last` is the row that preceded
/// `row` in the input. A marker superseded at the same address backs the
/// write cursor up by one, and a marker at its predecessor's address is not
/// written.
pub open spec fn marker_step(
    acc: Seq<stack_unwind_row_t>,
    last: stack_unwind_row_t,
    row: stack_unwind_row_t,
) -> Seq<stack_unwind_row_t> {
    let acc1 = if is_end_marker(last) && last.pc == row.pc && acc.len() > 0 {
        acc.drop_last()
    } else {
        acc
    };
    if is_end_marker(row) && last.pc == row.pc {
        acc1
    } else {
        acc1.push(row)
    }
}

/// The marker-collapse pass over a whole table.
pub open spec fn marker_collapse(s: Seq<stack_unwind_row_t>) -> Seq<stack_unwind_row_t>
    decreases s.len(),
{
    if s.len() == 0 {
        Seq::empty()
    } else if s.len() == 1 {
        seq![s[0]]
    } else {
        marker_step(marker_collapse(s.drop_last()), s[s.len() - 2], s.last())
    }
}

/// Drops markers that share their program counter with an adjacent row.
/// The input must be sorted by `pc`.
pub fn remove_unnecesary_markers(unwind_info: &mut Vec<stack_unwind_row_t>)
    ensures
        final(unwind_info)@ == marker_collapse(old(unwind_info)@),
{
    let ghost orig: Seq<stack_unwind_row_t> = unwind_info@;
    let mut last_row: Option<stack_unwind_row_t> = None;
    let mut new_i: usize = 0;

    let n: usize = unwind_info.len();
    let mut i: usize = 0;
    while i < n
        invariant
            n == unwind_info@.len(),
            n == orig.len(),
            i <= n,
            new_i <= i,
            unwind_info@.take(new_i as int) == marker_collapse(orig.take(i as int)),
            forall|j: int| i <= j < n ==> unwind_info@[j] == orig[j],
            last_row == if i == 0 {
                None::<stack_unwind_row_t>
            } else {
                Some(orig[i - 1])
            },
        decreases n - i,
    {
        assert(unwind_info@[i as int] == orig[i as int]);
        let row = unwind_info[i];

        if let Some(last_row_unwrapped) = last_row {
            let previous_is_redundant_marker = (last_row_unwrapped.cfa_type
                == CFA_TYPE_END_FDE_MARKER) && last_row_unwrapped.pc == row.pc;
            if previous_is_redundant_marker && new_i > 0 {
                new_i = new_i - 1;
            }
        }

        let mut current_is_redundant_marker = false;
        if let Some(last_row_unwrapped) = last_row {
            current_is_redundant_marker = (row.cfa_type == CFA_TYPE_END_FDE_MARKER)
                && last_row_unwrapped.pc == row.pc;
        }

        if !current_is_redundant_marker {
            unwind_info[new_i] = row;
            new_i = new_i + 1;
        }

        last_row = Some(row);
        proof {
            assert(orig.take(i + 1).drop_last() == orig.take(i as int));
            assert(orig.take(i + 1).last() == orig[i as int]);
            if i > 0 {
                assert(orig.take(i + 1)[i - 1] == orig[i - 1]);
            }
            assert(unwind_info@.take(new_i as int) =~= marker_collapse(orig.take(i + 1)));
        }
        i = i + 1;
    }

    proof {
        assert(orig.take(n as int) == orig);
    }
    unwind_info.truncate(new_i);
}

/// The four rule fields of `a` and `b` agree; the program counter may
/// differ.
pub open spec fn rule_eq(a: stack_unwind_row_t, b: stack_unwind_row_t) -> bool {
    a.cfa_type == b.cfa_type && a.cfa_offset == b.cfa_offset && a.rbp_type == b.rbp_type
        && a.rbp_offset == b.rbp_offset
}

/// The identical-rule-collapse pass: a row whose rule fields repeat its
/// predecessor's is dropped.
pub open spec fn rule_collapse(s: Seq<stack_unwind_row_t>) -> Seq<stack_unwind_row_t>
    decreases s.len(),
{
    if s.len() == 0 {
        Seq::empty()
    } else if s.len() == 1 {
        seq![s[0]]
    } else if rule_eq(s[s.len() - 2], s.last()) {
        rule_collapse(s.drop_last())
    } else {
        rule_collapse(s.drop_last()).push(s.last())
    }
}

/// Drops rows whose rule fields are identical to their immediate
/// predecessor's. The input must be sorted by `pc`.
pub fn remove_redundant(unwind_info: &mut Vec<stack_unwind_row_t>)
    ensures
        final(unwind_info)@ == rule_collapse(old(unwind_info)@),
{
    let ghost orig: Seq<stack_unwind_row_t> = unwind_info@;
    let mut last_row: Option<stack_unwind_row_t> = None;
    let mut new_i: usize = 0;

    let n: usize = unwind_info.len();
    let mut i: usize = 0;
    while i < n
        invariant
            n == unwind_info@.len(),
            n == orig.len(),
            i <= n,
            new_i <= i,
            unwind_info@.take(new_i as int) == rule_collapse(orig.take(i as int)),
            forall|j: int| i <= j < n ==> unwind_info@[j] == orig[j],
            last_row == if i == 0 {
                None::<stack_unwind_row_t>
            } else {
                Some(orig[i - 1])
            },
        decreases n - i,
    {
        assert(unwind_info@[i as int] == orig[i as int]);
        let mut redundant = false;
        let row = unwind_info[i];

        if let Some(last_row_unwrapped) = last_row {
            redundant = row.cfa_type == last_row_unwrapped.cfa_type && row.cfa_offset
                == last_row_unwrapped.cfa_offset && row.rbp_type == last_row_unwrapped.rbp_type
                && row.rbp_offset == last_row_unwrapped.rbp_offset;
        }

        if !redundant {
            unwind_info[new_i] = row;
            new_i = new_i + 1;
        }

        last_row = Some(row);
        proof {
            assert(orig.take(i + 1).drop_last() == orig.take(i as int));
            assert(orig.take(i + 1).last() == orig[i as int]);
            if i > 0 {
                assert(orig.take(i + 1)[i - 1] == orig[i - 1]);
            }
            assert(unwind_info@.take(new_i as int) =~= rule_collapse(orig.take(i + 1)));
        }
        i = i + 1;
    }

    proof {
        assert(orig.take(n as int) == orig);
    }
    unwind_info.truncate(new_i);
}

/// Address of the last row the compactor body emits for `events`, if any.
pub open spec fn last_body_pc(events: Seq<UnwindData>) -> Option<u64> {
    if compact_body(events).len() > 0 {
        Some(compact_body(events).last().pc)
    } else {
        None
    }
}

/// The events were discovered in address order: each instruction row is at
/// or above the previously emitted row, and no emitted row lies above the
/// current function's end address.
pub open spec fn events_ordered(events: Seq<UnwindData>) -> bool
    decreases events.len(),
{
    if events.len() == 0 {
        true
    } else {
        let t = events.drop_last();
        events_ordered(t) && match events.last() {
            UnwindData::Instruction(row) => match last_body_pc(t) {
                Some(p) => p <= row.pc,
                None => true,
            },
            UnwindData::Function(_, _) => true,
        } && match (last_function_end(events), last_body_pc(events)) {
            (Some(e), Some(p)) => p <= e,
            (_, _) => true,
        }
    }
}

/// The compactor body keeps the table sorted when the events came in
/// address order.
proof fn lemma_compact_body_sorted(events: Seq<UnwindData>)
    requires
        events_ordered(events),
    ensures
        sorted_by_pc(compact_body(events)),
    decreases events.len(),
{
    if events.len() > 0 {
        let t = events.drop_last();
        lemma_compact_body_sorted(t);
        let body_t = compact_body(t);
        let body = compact_body(events);
        assert forall|i: int, j: int| 0 <= i <= j < body.len() implies body[i].pc <= body[j].pc by {
            if j < body_t.len() {
                assert(body[i] == body_t[i] && body[j] == body_t[j]);
            } else if i < body_t.len() {
                assert(body[i] == body_t[i]);
                assert(body_t[i].pc <= body_t.last().pc);
                assert(last_body_pc(t) == Some(body_t.last().pc));
                match events.last() {
                    UnwindData::Instruction(row) => {
                        assert(body[j] == row_record(row));
                        assert(body_t.last().pc <= row.pc);
                    },
                    UnwindData::Function(_, _) => {
                        if last_function_end(t) is None {
                            assert(body.len() == body_t.len());
                        }
                        let e = last_function_end(t)->Some_0;
                        assert(body[j] == marker_record(e));
                        assert(t.len() > 0);
                        assert(events_ordered(t));
                        assert(match (last_function_end(t), last_body_pc(t)) {
                            (Some(e2), Some(p)) => p <= e2,
                            (_, _) => true,
                        });
                        assert(body_t.last().pc <= e);
                    },
                }
            }
        }
    }
}

/// Sortedness invariant of the compactor: if the extraction events were
/// discovered in address order, the compacted table is sorted by program
/// counter.
pub proof fn lemma_compact_events_sorted(events: Seq<UnwindData>)
    requires
        events_ordered(events),
    ensures
        sorted_by_pc(compact_events(events)),
{
    lemma_compact_body_sorted(events);
    let body = compact_body(events);
    let out = compact_events(events);
    match last_function_end(events) {
        Some(addr) => {
            assert forall|i: int, j: int| 0 <= i <= j < out.len() implies out[i].pc <= out[j].pc by {
                if j < body.len() {
                    assert(out[i] == body[i] && out[j] == body[j]);
                } else if i < body.len() {
                    assert(out[i] == body[i]);
                    assert(body[i].pc <= body.last().pc);
                }
            }
        },
        None => {},
    }
}

/// The rows of `a` appear within `b`, in the same order.
pub open spec fn subsequence_of(a: Seq<stack_unwind_row_t>, b: Seq<stack_unwind_row_t>) -> bool
    decreases a.len() + b.len(),
{
    if a.len() == 0 {
        true
    } else if b.len() == 0 {
        false
    } else if a.last() == b.last() {
        subsequence_of(a.drop_last(), b.drop_last())
    } else {
        subsequence_of(a, b.drop_last())
    }
}

/// Dropping a subsequence's last row keeps it a subsequence.
proof fn lemma_subsequence_drop_last(a: Seq<stack_unwind_row_t>, b: Seq<stack_unwind_row_t>)
    requires
        subsequence_of(a, b),
        a.len() > 0,
    ensures
        subsequence_of(a.drop_last(), b),
    decreases a.len() + b.len(),
{
    let ad = a.drop_last();
    let bd = b.drop_last();
    if a.last() == b.last() {
        if ad.len() > 0 {
            if ad.last() == b.last() {
                lemma_subsequence_drop_last(ad, bd);
            }
        }
    } else {
        lemma_subsequence_drop_last(a, bd);
        if ad.len() > 0 && ad.last() == b.last() {
            lemma_subsequence_drop_last(ad, bd);
        }
    }
}

/// Extending the enclosing sequence keeps a subsequence.
proof fn lemma_subsequence_push_right(
    a: Seq<stack_unwind_row_t>,
    b: Seq<stack_unwind_row_t>,
    x: stack_unwind_row_t,
)
    requires
        subsequence_of(a, b),
    ensures
        subsequence_of(a, b.push(x)),
{
    if a.len() > 0 {
        assert(b.push(x).drop_last() == b);
        if a.last() == x {
            lemma_subsequence_drop_last(a, b);
        }
    }
}

/// Marker collapse keeps the remaining rows in their relative order: its
/// output is a subsequence of its input.
pub proof fn lemma_marker_collapse_subsequence(s: Seq<stack_unwind_row_t>)
    ensures
        subsequence_of(marker_collapse(s), s),
    decreases s.len(),
{
    if s.len() == 1 {
        assert(subsequence_of(seq![s[0]], s)) by {
            assert(subsequence_of(Seq::<stack_unwind_row_t>::empty(), s.drop_last()));
            assert(seq![s[0]].last() == s.last());
            assert(seq![s[0]].drop_last() =~= Seq::<stack_unwind_row_t>::empty());
        }
    } else if s.len() > 1 {
        let t = s.drop_last();
        lemma_marker_collapse_subsequence(t);
        let l = s[s.len() - 2];
        let r = s.last();
        let out_t = marker_collapse(t);
        let dropped = is_end_marker(l) && l.pc == r.pc && out_t.len() > 0;
        let acc1 = if dropped {
            out_t.drop_last()
        } else {
            out_t
        };
        if dropped {
            lemma_subsequence_drop_last(out_t, t);
        }
        assert(subsequence_of(acc1, t));
        if is_end_marker(r) && l.pc == r.pc {
            lemma_subsequence_push_right(acc1, t, r);
            assert(t.push(r) =~= s);
        } else {
            assert(marker_collapse(s) == acc1.push(r));
            assert(t.push(r) =~= s);
            assert(acc1.push(r).last() == s.last());
            assert(acc1.push(r).drop_last() == acc1 && s.drop_last() == t);
        }
    }
}

/// Identical-rule collapse keeps the remaining rows in their relative
/// order: its output is a subsequence of its input.
pub proof fn lemma_rule_collapse_subsequence(s: Seq<stack_unwind_row_t>)
    ensures
        subsequence_of(rule_collapse(s), s),
    decreases s.len(),
{
    if s.len() == 1 {
        assert(subsequence_of(seq![s[0]], s)) by {
            assert(subsequence_of(Seq::<stack_unwind_row_t>::empty(), s.drop_last()));
            assert(seq![s[0]].last() == s.last());
            assert(seq![s[0]].drop_last() =~= Seq::<stack_unwind_row_t>::empty());
        }
    } else if s.len() > 1 {
        let t = s.drop_last();
        lemma_rule_collapse_subsequence(t);
        let r = s.last();
        let out_t = rule_collapse(t);
        if rule_eq(s[s.len() - 2], r) {
            lemma_subsequence_push_right(out_t, t, r);
            assert(t.push(r) =~= s);
        } else {
            assert(rule_collapse(s) == out_t.push(r));
            assert(t.push(r) =~= s);
            assert(out_t.push(r).last() == s.last());
            assert(out_t.push(r).drop_last() == out_t && s.drop_last() == t);
        }
    }
}

/// Every row that marker collapse keeps was a row of the input.
pub proof fn lemma_marker_collapse_membership(s: Seq<stack_unwind_row_t>)
    ensures
        forall|i: int|
            0 <= i < marker_collapse(s).len() ==> s.contains(#[trigger] marker_collapse(s)[i]),
    decreases s.len(),
{
    if s.len() <= 1 {
    } else {
        let t = s.drop_last();
        lemma_marker_collapse_membership(t);
        assert forall|i: int|
            0 <= i < marker_collapse(s).len() implies s.contains(
            #[trigger] marker_collapse(s)[i],
        ) by {
            let out = marker_collapse(s);
            let out_t = marker_collapse(t);
            if out[i] == s.last() {
                assert(s[s.len() - 1] == s.last());
            } else {
                assert(exists|k: int| 0 <= k < out_t.len() && out_t[k] == out[i]);
                let k = choose|k: int| 0 <= k < out_t.len() && out_t[k] == out[i];
                assert(t.contains(out_t[k]));
                let m = choose|m: int| 0 <= m < t.len() && t[m] == out_t[k];
                assert(s[m] == out[i]);
            }
        }
    }
}

/// Marker correctness: after marker collapse of a sorted table, no two
/// adjacent rows share a program counter when either of them is a boundary
/// marker. The pass also keeps the table sorted, never emits an address
/// above the input's last, and keeps a trailing non-marker row in place.
pub proof fn lemma_marker_collapse_properties(s: Seq<stack_unwind_row_t>)
    requires
        sorted_by_pc(s),
    ensures
        sorted_by_pc(marker_collapse(s)),
        forall|i: int|
            0 <= i < marker_collapse(s).len() - 1 ==> !(#[trigger] marker_collapse(s)[i].pc
                == marker_collapse(s)[i + 1].pc && (is_end_marker(marker_collapse(s)[i])
                || is_end_marker(marker_collapse(s)[i + 1]))),
        marker_collapse(s).len() > 0 ==> s.len() > 0 && marker_collapse(s).last().pc
            <= s.last().pc,
        s.len() > 0 && !is_end_marker(s.last()) ==> marker_collapse(s).len() > 0
            && marker_collapse(s).last() == s.last(),
    decreases s.len(),
{
    if s.len() <= 1 {
    } else {
        let t = s.drop_last();
        assert(sorted_by_pc(t)) by {
            assert(forall|i: int, j: int| 0 <= i <= j < t.len() ==> t[i] == s[i] && t[j] == s[j]);
        }
        lemma_marker_collapse_properties(t);
        let l = s[s.len() - 2];
        let r = s.last();
        assert(l.pc <= r.pc);
        let out_t = marker_collapse(t);
        let out = marker_collapse(s);
        assert(t.len() > 0 && t.last() == l);
        assert(out_t.len() > 0 ==> out_t.last().pc <= l.pc);

        let dropped = is_end_marker(l) && l.pc == r.pc && out_t.len() > 0;
        let acc1 = if dropped {
            out_t.drop_last()
        } else {
            out_t
        };
        let pushed = !(is_end_marker(r) && l.pc == r.pc);
        assert(out == if pushed {
            acc1.push(r)
        } else {
            acc1
        });

        // The write-cursor prefix is sorted and bounded by the input's last
        // address.
        assert(forall|i: int| 0 <= i < acc1.len() ==> acc1[i] == out_t[i]);
        assert(acc1.len() > 0 ==> acc1.last().pc <= out_t.last().pc);
        assert forall|i: int, j: int| 0 <= i <= j < out.len() implies out[i].pc <= out[j].pc by {
            if j < acc1.len() {
                assert(out[i] == out_t[i] && out[j] == out_t[j]);
            } else if i < acc1.len() {
                assert(out[i] == out_t[i]);
                assert(out_t[i].pc <= out_t.last().pc);
            }
        }

        // No adjacent pair shares an address with a marker among them.
        assert forall|i: int|
            0 <= i < out.len() - 1 implies !(#[trigger] out[i].pc == out[i + 1].pc && (
        is_end_marker(out[i]) || is_end_marker(out[i + 1]))) by {
            if i + 1 < acc1.len() {
                assert(out[i] == out_t[i] && out[i + 1] == out_t[i + 1]);
            } else if pushed && i + 1 == acc1.len() && i >= 0 && acc1.len() > 0 {
                // The new pair is (acc1.last(), r).
                assert(out[i] == acc1.last() && out[i + 1] == r);
                if acc1.last().pc == r.pc {
                    // All addresses between acc1.last() and r coincide.
                    assert(acc1.last().pc <= out_t.last().pc <= l.pc <= r.pc);
                    assert(l.pc == r.pc);
                    assert(!(is_end_marker(l) && l.pc == r.pc) || dropped);
                    if dropped {
                        // acc1.last() sits just before out_t.last() at the
                        // same address, so neither of the two is a marker.
                        assert(out_t[out_t.len() - 2] == acc1.last());
                        assert(out_t[out_t.len() - 2].pc == out_t[out_t.len() - 1].pc);
                        assert(!is_end_marker(out_t[out_t.len() - 2]));
                        assert(!is_end_marker(r));
                    } else {
                        // The previous input row was kept as the last output
                        // row and is no marker, and r is no marker either.
                        assert(!is_end_marker(l));
                        assert(out_t.last() == l);
                        assert(!is_end_marker(r));
                    }
                }
            }
        }
    }
}

/// Every row that identical-rule collapse keeps was a row of the input.
pub proof fn lemma_rule_collapse_membership(s: Seq<stack_unwind_row_t>)
    ensures
        forall|i: int|
            0 <= i < rule_collapse(s).len() ==> s.contains(#[trigger] rule_collapse(s)[i]),
    decreases s.len(),
{
    if s.len() <= 1 {
    } else {
        let t = s.drop_last();
        lemma_rule_collapse_membership(t);
        assert forall|i: int|
            0 <= i < rule_collapse(s).len() implies s.contains(#[trigger] rule_collapse(s)[i]) by {
            let out = rule_collapse(s);
            let out_t = rule_collapse(t);
            if out[i] == s.last() {
                assert(s[s.len() - 1] == s.last());
            } else {
                assert(exists|k: int| 0 <= k < out_t.len() && out_t[k] == out[i]);
                let k = choose|k: int| 0 <= k < out_t.len() && out_t[k] == out[i];
                assert(t.contains(out_t[k]));
                let m = choose|m: int| 0 <= m < t.len() && t[m] == out_t[k];
                assert(s[m] == out[i]);
            }
        }
    }
}

/// After identical-rule collapse no two adjacent rows carry the same rule,
/// the last kept row carries the same rule as the input's last row, and a
/// sorted table stays sorted with its last address never raised.
pub proof fn lemma_rule_collapse_properties(s: Seq<stack_unwind_row_t>)
    ensures
        forall|i: int|
            0 <= i < rule_collapse(s).len() - 1 ==> !rule_eq(
                #[trigger] rule_collapse(s)[i],
                rule_collapse(s)[i + 1],
            ),
        rule_collapse(s).len() > 0 ==> s.len() > 0 && rule_eq(rule_collapse(s).last(), s.last()),
        s.len() > 0 ==> rule_collapse(s).len() > 0,
        sorted_by_pc(s) ==> sorted_by_pc(rule_collapse(s)) && (rule_collapse(s).len() > 0
            ==> rule_collapse(s).last().pc <= s.last().pc),
    decreases s.len(),
{
    if s.len() <= 1 {
    } else {
        let t = s.drop_last();
        lemma_rule_collapse_properties(t);
        if sorted_by_pc(s) {
            assert(sorted_by_pc(t)) by {
                assert(forall|i: int, j: int|
                    0 <= i <= j < t.len() ==> t[i] == s[i] && t[j] == s[j]);
            }
        }
        let l = s[s.len() - 2];
        let r = s.last();
        let out_t = rule_collapse(t);
        let out = rule_collapse(s);
        assert(t.len() > 0 && t.last() == l);
        if rule_eq(l, r) {
            assert(out == out_t);
            assert(rule_eq(out.last(), l) && rule_eq(l, r));
        } else {
            assert(out == out_t.push(r));
            assert forall|i: int|
                0 <= i < out.len() - 1 implies !rule_eq(#[trigger] out[i], out[i + 1]) by {
                if i + 1 < out_t.len() {
                    assert(out[i] == out_t[i] && out[i + 1] == out_t[i + 1]);
                } else {
                    assert(out[i] == out_t.last() && out[i + 1] == r);
                    assert(rule_eq(out_t.last(), l));
                }
            }
            if sorted_by_pc(s) {
                assert forall|i: int, j: int|
                    0 <= i <= j < out.len() implies out[i].pc <= out[j].pc by {
                    if j < out_t.len() {
                        assert(out[i] == out_t[i] && out[j] == out_t[j]);
                    } else if i < out_t.len() {
                        assert(out[i] == out_t[i]);
                        assert(out_t[i].pc <= out_t.last().pc);
                        assert(out_t.last().pc <= l.pc <= r.pc);
                    }
                }
            }
        }
    }
}

/// A table with no adjacent identical rules passes identical-rule collapse
/// unchanged.
proof fn lemma_rule_collapse_fixed(s: Seq<stack_unwind_row_t>)
    requires
        forall|i: int| 0 <= i < s.len() - 1 ==> !rule_eq(#[trigger] s[i], s[i + 1]),
    ensures
        rule_collapse(s) == s,
    decreases s.len(),
{
    if s.len() <= 1 {
        if s.len() == 1 {
            assert(rule_collapse(s) =~= s);
        }
    } else {
        let t = s.drop_last();
        assert(forall|i: int| 0 <= i < t.len() - 1 ==> #[trigger] t[i] == s[i] && t[i + 1] == s[i + 1]);
        lemma_rule_collapse_fixed(t);
        assert(!rule_eq(s[s.len() - 2], s.last()));
        assert(rule_collapse(s) =~= s);
    }
}

/// Idempotence of deduplication: running identical-rule collapse on its own
/// output changes nothing.
pub proof fn lemma_rule_collapse_idempotent(s: Seq<stack_unwind_row_t>)
    ensures
        rule_collapse(rule_collapse(s)) == rule_collapse(s),
{
    lemma_rule_collapse_properties(s);
    lemma_rule_collapse_fixed(rule_collapse(s));
}

} // verus!
