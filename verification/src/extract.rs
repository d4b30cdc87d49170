//! Extraction of unwind events from an executable's call-frame-information
//! section: a verified walk over the section's record framing, trusted
//! calls into gimli for the per-record parsing and unwind-program
//! evaluation, and the verified policy that turns each evaluated rule into
//! a compact row.

use vstd::prelude::*;

use crate::unwind_info::{
    compact_events, count_functions, in_memory_unwind_info, CompactUnwindRow, Error, UnwindData,
    CFA_TYPE_EXPRESSION, CFA_TYPE_FRAME_POINTER_OFFSET, CFA_TYPE_OFFSET_DID_NOT_FIT,
    CFA_TYPE_STACK_POINTER_OFFSET, CFA_TYPE_UNSUPPORTED_REGISTER_OFFSET, PLT_TYPE_PLT1,
    PLT_TYPE_PLT2, PLT_TYPE_UNKNOWN, RBP_TYPE_CFA_OFFSET, RBP_TYPE_EXPRESSION, RBP_TYPE_REGISTER,
    RBP_TYPE_UNDEFINED_RETURN_ADDRESS, RBP_TYPE_UNKNOWN,
};
use crate::profiler_bindings::stack_unwind_row_t;

use std::rc::Rc;

use gimli::Reader;
use gimli::UnwindSection;
use gimli::{BaseAddresses, CfaRule, EhFrame, EhFrameOffset, EndianRcSlice, Register, RegisterRule, RunTimeEndian, UnwindContext, UnwindTableRow};

verus! {

/// Dwarf register number of the frame-pointer register in this machine's
/// calling convention.
pub const RBP_DWARF_NUM: u16 = 6;

/// Dwarf register number of the stack-pointer register.
pub const RSP_DWARF_NUM: u16 = 7;

/// The rule that recovers the canonical frame address, as one evaluated
/// row of the unwind program reports it.
#[derive(Debug, Clone)]
pub enum RawCfa {
    /// The frame address is a register's value plus an offset.
    RegisterOffset { register: u16, offset: i64 },
    /// The frame address is computed by a bytecode expression.
    Expression { bytes: Vec<u8> },
}

/// The rule that recovers the frame-pointer register's saved value.
#[derive(Debug, Copy, Clone)]
pub enum RawReg {
    Undefined,
    Offset(i64),
    Register,
    Expression,
    Other,
}

/// One evaluated row of an unwind program: the address it starts at, the
/// frame-address rule, the frame-pointer rule, and whether the
/// return-address register is undefined there.
#[derive(Debug, Clone)]
pub struct RawRow {
    pub pc: u64,
    pub cfa: RawCfa,
    pub rbp: RawReg,
    pub ra_undefined: bool,
}

/// The value of the four bytes at `i`, read with the given endianness.
pub open spec fn word32(data: Seq<u8>, i: int, little: bool) -> int {
    if little {
        data[i] + 0x100 * data[i + 1] + 0x1_0000 * data[i + 2] + 0x100_0000 * data[i + 3]
    } else {
        data[i + 3] + 0x100 * data[i + 2] + 0x1_0000 * data[i + 1] + 0x100_0000 * data[i]
    }
}

/// The value of the eight bytes at `i`, read with the given endianness.
pub open spec fn word64(data: Seq<u8>, i: int, little: bool) -> int {
    if little {
        word32(data, i, true) + 0x1_0000_0000 * word32(data, i + 4, true)
    } else {
        word32(data, i + 4, false) + 0x1_0000_0000 * word32(data, i, false)
    }
}

/// The section offsets of the per-range records, walking the framing from
/// `off`: each record starts with its length (a reserved length, a zero
/// terminator, or a truncated record stops the walk), followed by an
/// identifier that is zero exactly for the shared common records, which
/// are skipped.
pub open spec fn fde_offsets_from(data: Seq<u8>, little: bool, off: int) -> Seq<usize>
    decreases data.len() - off,
{
    if off < 0 || off + 4 > data.len() {
        Seq::empty()
    } else {
        let len32 = word32(data, off, little);
        if len32 == 0 {
            Seq::empty()
        } else if len32 < 0xffff_fff0 {
            let end = off + 4 + len32;
            if end > data.len() || len32 < 4 {
                Seq::empty()
            } else if word32(data, off + 4, little) == 0 {
                fde_offsets_from(data, little, end)
            } else {
                seq![off as usize] + fde_offsets_from(data, little, end)
            }
        } else if len32 == 0xffff_ffff {
            if off + 12 > data.len() {
                Seq::empty()
            } else {
                let len64 = word64(data, off + 4, little);
                let end = off + 12 + len64;
                if len64 == 0 || end > data.len() || len64 < 4 {
                    Seq::empty()
                } else if word32(data, off + 12, little) == 0 {
                    fde_offsets_from(data, little, end)
                } else {
                    seq![off as usize] + fde_offsets_from(data, little, end)
                }
            }
        } else {
            Seq::empty()
        }
    }
}

/// Reads the four bytes at `i` as one number with the given endianness.
fn read_word32(data: &Vec<u8>, i: usize, little: bool) -> (r: u32)
    requires
        i + 4 <= data@.len(),
    ensures
        r as int == word32(data@, i as int, little),
{
    let n: usize = data.len();
    let b0 = data[i] as u32;
    let b1 = data[i + 1] as u32;
    let b2 = data[i + 2] as u32;
    let b3 = data[i + 3] as u32;
    if little {
        b0 + 0x100 * b1 + 0x1_0000 * b2 + 0x100_0000 * b3
    } else {
        b3 + 0x100 * b2 + 0x1_0000 * b1 + 0x100_0000 * b0
    }
}

/// Reads the eight bytes at `i` as one number with the given endianness.
fn read_word64(data: &Vec<u8>, i: usize, little: bool) -> (r: u64)
    requires
        i + 8 <= data@.len(),
    ensures
        r as int == word64(data@, i as int, little),
{
    let n: usize = data.len();
    if little {
        let lo = read_word32(data, i, true) as u64;
        let hi = read_word32(data, i + 4, true) as u64;
        lo + 0x1_0000_0000 * hi
    } else {
        let lo = read_word32(data, i + 4, false) as u64;
        let hi = read_word32(data, i, false) as u64;
        lo + 0x1_0000_0000 * hi
    }
}

/// Walks the section's record framing and collects the offset of every
/// per-range record, in section order.
pub fn scan_fde_offsets(data: &Vec<u8>, little_endian: bool) -> (r: Vec<usize>)
    ensures
        r@ == fde_offsets_from(data@, little_endian, 0),
{
    let n: usize = data.len();
    let mut res: Vec<usize> = Vec::new();
    let mut off: usize = 0;

    loop
        invariant_except_break
            off <= n,
            n == data@.len(),
            fde_offsets_from(data@, little_endian, 0) == res@ + fde_offsets_from(
                data@,
                little_endian,
                off as int,
            ),
        ensures
            res@ == fde_offsets_from(data@, little_endian, 0),
        decreases n - off,
    {
        if n - off < 4 {
            proof {
                assert(fde_offsets_from(data@, little_endian, off as int) =~= Seq::empty());
                assert(res@ + Seq::<usize>::empty() =~= res@);
            }
            break ;
        }
        let len32 = read_word32(data, off, little_endian);
        let ghost off0: int = off as int;
        if len32 == 0 {
            proof {
                assert(res@ + fde_offsets_from(data@, little_endian, off as int) =~= res@);
            }
            break ;
        } else if len32 < 0xffff_fff0 {
            if len32 < 4 || (len32 as usize) > n - off - 4 {
                proof {
                    assert(fde_offsets_from(data@, little_endian, off as int) =~= Seq::empty());
                    assert(res@ + Seq::<usize>::empty() =~= res@);
                }
                break ;
            }
            let end: usize = off + 4 + (len32 as usize);
            let id = read_word32(data, off + 4, little_endian);
            if id != 0 {
                res.push(off);
            }
            proof {
                assert(fde_offsets_from(data@, little_endian, off0) == (if word32(
                    data@,
                    off0 + 4,
                    little_endian,
                ) == 0 {
                    fde_offsets_from(data@, little_endian, end as int)
                } else {
                    seq![off0 as usize] + fde_offsets_from(data@, little_endian, end as int)
                }));
                if id != 0 {
                    assert(res@ == res@.drop_last().push(off0 as usize));
                    assert(res@.drop_last() + (seq![off0 as usize] + fde_offsets_from(
                        data@,
                        little_endian,
                        end as int,
                    )) =~= res@ + fde_offsets_from(data@, little_endian, end as int));
                }
            }
            off = end;
        } else if len32 == 0xffff_ffff {
            if n - off < 12 {
                proof {
                    assert(fde_offsets_from(data@, little_endian, off as int) =~= Seq::empty());
                    assert(res@ + Seq::<usize>::empty() =~= res@);
                }
                break ;
            }
            let len64 = read_word64(data, off + 4, little_endian);
            if len64 == 0 || len64 < 4 || len64 > (n - off - 12) as u64 {
                proof {
                    assert(fde_offsets_from(data@, little_endian, off as int) =~= Seq::empty());
                    assert(res@ + Seq::<usize>::empty() =~= res@);
                }
                break ;
            }
            let end: usize = off + 12 + (len64 as usize);
            let id = read_word32(data, off + 12, little_endian);
            if id != 0 {
                res.push(off);
            }
            proof {
                assert(fde_offsets_from(data@, little_endian, off0) == (if word32(
                    data@,
                    off0 + 12,
                    little_endian,
                ) == 0 {
                    fde_offsets_from(data@, little_endian, end as int)
                } else {
                    seq![off0 as usize] + fde_offsets_from(data@, little_endian, end as int)
                }));
                if id != 0 {
                    assert(res@ == res@.drop_last().push(off0 as usize));
                    assert(res@.drop_last() + (seq![off0 as usize] + fde_offsets_from(
                        data@,
                        little_endian,
                        end as int,
                    )) =~= res@ + fde_offsets_from(data@, little_endian, end as int));
                }
            }
            off = end;
        } else {
            proof {
                assert(fde_offsets_from(data@, little_endian, off as int) =~= Seq::empty());
                assert(res@ + Seq::<usize>::empty() =~= res@);
            }
            break ;
        }
    }
    res
}

/// Names the initial address and range length of the per-range record that
/// gimli parses at `offset` of the section, or nothing when the record
/// does not parse.
pub uninterp spec fn fde_info_of(
    data: Seq<u8>,
    eh_frame_addr: u64,
    text_addr: u64,
    little_endian: bool,
    offset: u64,
) -> Option<(u64, u64)>;

/// Relies on gimli's `EhFrame::fde_from_offset`: parses the per-range
/// record at `offset`, resolving its common record, and reports the
/// record's initial address and range length.
#[verifier::external_body]
fn fde_info_at(
    data: &Vec<u8>,
    eh_frame_addr: u64,
    text_addr: u64,
    little_endian: bool,
    offset: usize,
) -> (r: Option<(u64, u64)>)
    ensures
        r == fde_info_of(data@, eh_frame_addr, text_addr, little_endian, offset as u64),
{
    let endian = if little_endian { RunTimeEndian::Little } else { RunTimeEndian::Big };
    let eh = EhFrame::new(data.as_slice(), endian);
    let bases = BaseAddresses::default().set_eh_frame(eh_frame_addr).set_text(text_addr);
    match eh.fde_from_offset(&bases, EhFrameOffset(offset), EhFrame::cie_from_offset) {
        Ok(fde) => Some((fde.initial_address(), fde.len())),
        Err(_) => None,
    }
}

/// Names the evaluated row list of the per-range record at `offset`, or
/// nothing when the record's unwind program cannot be evaluated.
pub uninterp spec fn fde_rows_of(
    data: Seq<u8>,
    eh_frame_addr: u64,
    text_addr: u64,
    little_endian: bool,
    offset: u64,
) -> Option<Seq<RawRow>>;

/// One record's evaluated unwind rows, still in gimli's representation,
/// together with the owned section reader that its expressions point into
/// and the record's return-address register.
#[verifier::external_body]
pub struct RowTable {
    eh: EhFrame<EndianRcSlice<RunTimeEndian>>,
    rows: Vec<(UnwindTableRow<usize>, Register)>,
}

/// Names what a `RowTable` holds: each evaluated row read off as its plain
/// `RawRow` image.
pub uninterp spec fn row_table_rows(t: RowTable) -> Seq<RawRow>;

/// One parsed per-range record, still in gimli's representation, with the
/// owned section reader and decoding bases it was parsed against.
#[verifier::external_body]
pub struct FdeHandle {
    eh: EhFrame<EndianRcSlice<RunTimeEndian>>,
    bases: BaseAddresses,
    fde: gimli::FrameDescriptionEntry<EndianRcSlice<RunTimeEndian>>,
}

/// Names what evaluating a parsed record yields: its plain row list, or
/// nothing when the unwind program cannot be evaluated.
pub uninterp spec fn fde_handle_rows(h: FdeHandle) -> Option<Seq<RawRow>>;

/// Relies on gimli's `EhFrame::fde_from_offset`: parses the per-range
/// record at `offset`, resolving its common record.
#[verifier::external_body]
fn fde_at(
    data: &Vec<u8>,
    eh_frame_addr: u64,
    text_addr: u64,
    little_endian: bool,
    offset: usize,
) -> (r: Option<FdeHandle>)
    ensures
        match r {
            Some(h) => fde_rows_of(data@, eh_frame_addr, text_addr, little_endian, offset as u64)
                == fde_handle_rows(h),
            None => fde_rows_of(data@, eh_frame_addr, text_addr, little_endian, offset as u64)
                is None,
        },
{
    let endian = if little_endian { RunTimeEndian::Little } else { RunTimeEndian::Big };
    let reader = EndianRcSlice::new(Rc::from(data.as_slice()), endian);
    let eh = EhFrame::from(reader);
    let bases = BaseAddresses::default().set_eh_frame(eh_frame_addr).set_text(text_addr);
    let fde = eh.fde_from_offset(&bases, EhFrameOffset(offset), EhFrame::cie_from_offset).ok()?;
    Some(FdeHandle { eh, bases, fde })
}

/// Relies on gimli's `FrameDescriptionEntry::rows` and
/// `UnwindTable::next_row`: evaluates the parsed record's unwind program
/// to its row table.
#[verifier::external_body]
fn fde_handle_table(h: FdeHandle) -> (r: Option<RowTable>)
    ensures
        match r {
            Some(t) => fde_handle_rows(h) == Some(row_table_rows(t)),
            None => fde_handle_rows(h) is None,
        },
{
    let FdeHandle { eh, bases, fde } = h;
    let ra = fde.cie().return_address_register();
    let mut ctx = UnwindContext::new();
    let mut table = fde.rows(&eh, &bases, &mut ctx).ok()?;
    let mut rows = Vec::new();
    loop {
        match table.next_row() { Ok(Some(r)) => rows.push((r.clone(), ra)), Ok(None) => break, Err(_) => continue }
    }
    Some(RowTable { eh, rows })
}

/// Relies on the length of the evaluated row list.
#[verifier::external_body]
fn row_table_len(t: &RowTable) -> (r: usize)
    ensures
        r == row_table_rows(*t).len(),
{
    t.rows.len()
}

/// Relies on gimli's `UnwindTableRow::cfa` and `UnwindExpression::get`:
/// reads row `i`'s frame-address rule, with an expression's bytecode
/// copied out of the section.
#[verifier::external_body]
fn raw_cfa_at(t: &RowTable, i: usize) -> (r: Option<RawCfa>)
    ensures
        i < row_table_rows(*t).len() ==> r == Some(row_table_rows(*t)[i as int].cfa),
        i >= row_table_rows(*t).len() ==> r is None,
{
    let (row, _) = t.rows.get(i)?;
    Some(match row.cfa() {
        CfaRule::RegisterAndOffset { ref register, ref offset } => RawCfa::RegisterOffset { register: register.0, offset: *offset },
        CfaRule::Expression(e) => RawCfa::Expression { bytes: e.get(&t.eh).ok().and_then(|x| x.0.to_slice().ok().map(|c| c.to_vec())).unwrap_or_default() },
    })
}

/// Relies on gimli's `UnwindTableRow::start_address` and
/// `UnwindTableRow::register`: reads row `i`'s start address, its
/// frame-pointer register rule, and whether its return-address register is
/// undefined.
#[verifier::external_body]
fn raw_rest_at(t: &RowTable, i: usize) -> (r: Option<(u64, RawReg, bool)>)
    ensures
        i < row_table_rows(*t).len() ==> r == Some(
            (
                row_table_rows(*t)[i as int].pc,
                row_table_rows(*t)[i as int].rbp,
                row_table_rows(*t)[i as int].ra_undefined,
            ),
        ),
        i >= row_table_rows(*t).len() ==> r is None,
{
    let (row, ra) = t.rows.get(i)?;
    let rbp = match row.register(Register(6)).unwrap_or(RegisterRule::Undefined) {
        RegisterRule::Undefined => RawReg::Undefined,
        RegisterRule::Offset(o) => RawReg::Offset(o),
        RegisterRule::Register(_) => RawReg::Register,
        RegisterRule::Expression(_) => RawReg::Expression,
        _ => RawReg::Other,
    };
    let ra_undefined = matches!(row.register(*ra).unwrap_or(RegisterRule::Undefined), RegisterRule::Undefined);
    Some((row.start_address(), rbp, ra_undefined))
}

/// Evaluates the per-range record at `offset` to its plain row list by
/// reading the evaluated table row by row.
fn fde_rows_at(
    data: &Vec<u8>,
    eh_frame_addr: u64,
    text_addr: u64,
    little_endian: bool,
    offset: usize,
) -> (r: Option<Vec<RawRow>>)
    ensures
        match r {
            Some(rows) => fde_rows_of(data@, eh_frame_addr, text_addr, little_endian, offset as u64)
                == Some(rows@),
            None => fde_rows_of(data@, eh_frame_addr, text_addr, little_endian, offset as u64)
                is None,
        },
{
    let handle = match fde_at(data, eh_frame_addr, text_addr, little_endian, offset) {
        Some(handle) => handle,
        None => {
            return None;
        },
    };
    let table = match fde_handle_table(handle) {
        Some(table) => table,
        None => {
            return None;
        },
    };
    let n = row_table_len(&table);
    let mut rows: Vec<RawRow> = Vec::new();
    let mut i: usize = 0;
    while i < n
        invariant
            i <= n,
            n == row_table_rows(table).len(),
            rows@ == row_table_rows(table).take(i as int),
        decreases n - i,
    {
        let cfa = match raw_cfa_at(&table, i) {
            Some(cfa) => cfa,
            None => {
                // Cannot happen: `i` is below the table's length.
                proof {
                    assert(false);
                }
                return None;
            },
        };
        let (pc, rbp, ra_undefined) = match raw_rest_at(&table, i) {
            Some(rest) => rest,
            None => {
                // Cannot happen: `i` is below the table's length.
                proof {
                    assert(false);
                }
                return None;
            },
        };
        let raw = RawRow { pc, cfa, rbp, ra_undefined };
        proof {
            let want = row_table_rows(table)[i as int];
            assert(want == RawRow { pc: want.pc, cfa: want.cfa, rbp: want.rbp, ra_undefined: want.ra_undefined });
            assert(raw == want);
            assert(row_table_rows(table).take(i + 1) =~= row_table_rows(table).take(
                i as int,
            ).push(row_table_rows(table)[i as int]));
        }
        rows.push(raw);
        i = i + 1;
    }
    proof {
        assert(row_table_rows(table).take(n as int) == row_table_rows(table));
    }
    Some(rows)
}

/// The bytecode of the first recognized procedure-linkage-stub unwind
/// idiom.
pub open spec fn plt1_bytes() -> Seq<u8> {
    seq![0x77u8, 0x08u8, 0x80u8, 0x00u8, 0x3fu8, 0x1au8, 0x3bu8, 0x2au8, 0x33u8, 0x24u8, 0x22u8]
}

/// The bytecode of the second recognized stub idiom; it differs from the
/// first in one constant byte.
pub open spec fn plt2_bytes() -> Seq<u8> {
    seq![0x77u8, 0x08u8, 0x80u8, 0x00u8, 0x3fu8, 0x1au8, 0x3au8, 0x2au8, 0x33u8, 0x24u8, 0x22u8]
}

/// Whether `bytes` is exactly the first stub idiom's bytecode.
fn is_plt1(bytes: &Vec<u8>) -> (r: bool)
    ensures
        r == (bytes@ == plt1_bytes()),
{
    proof {
        assert(plt1_bytes().len() == 11);
    }
    if bytes.len() != 11 {
        return false;
    }
    let r = bytes[0] == 0x77 && bytes[1] == 0x08 && bytes[2] == 0x80 && bytes[3] == 0x00
        && bytes[4] == 0x3f && bytes[5] == 0x1a && bytes[6] == 0x3b && bytes[7] == 0x2a && bytes[8]
        == 0x33 && bytes[9] == 0x24 && bytes[10] == 0x22;
    proof {
        if r {
            assert(bytes@ =~= plt1_bytes());
        }
    }
    r
}

/// Whether `bytes` is exactly the second stub idiom's bytecode.
fn is_plt2(bytes: &Vec<u8>) -> (r: bool)
    ensures
        r == (bytes@ == plt2_bytes()),
{
    proof {
        assert(plt2_bytes().len() == 11);
    }
    if bytes.len() != 11 {
        return false;
    }
    let r = bytes[0] == 0x77 && bytes[1] == 0x08 && bytes[2] == 0x80 && bytes[3] == 0x00
        && bytes[4] == 0x3f && bytes[5] == 0x1a && bytes[6] == 0x3a && bytes[7] == 0x2a && bytes[8]
        == 0x33 && bytes[9] == 0x24 && bytes[10] == 0x22;
    proof {
        if r {
            assert(bytes@ =~= plt2_bytes());
        }
    }
    r
}

/// The compact row that the derivation policy assigns to one evaluated
/// row, or nothing when the frame-pointer offset does not fit its 16-bit
/// signed field, which is a hard error.
pub open spec fn compact_row_of(raw: RawRow) -> Option<CompactUnwindRow> {
    let (cfa_type, cfa_offset): (u8, u16) = match raw.cfa {
        RawCfa::RegisterOffset { register, offset } => {
            let tag: u8 = if register == RBP_DWARF_NUM {
                CFA_TYPE_FRAME_POINTER_OFFSET
            } else if register == RSP_DWARF_NUM {
                CFA_TYPE_STACK_POINTER_OFFSET
            } else {
                CFA_TYPE_UNSUPPORTED_REGISTER_OFFSET
            };
            if 0 <= offset <= 0xffff {
                (tag, offset as u16)
            } else {
                (CFA_TYPE_OFFSET_DID_NOT_FIT, 0u16)
            }
        },
        RawCfa::Expression { bytes } => (
            CFA_TYPE_EXPRESSION,
            if bytes@ == plt1_bytes() {
                PLT_TYPE_PLT1
            } else if bytes@ == plt2_bytes() {
                PLT_TYPE_PLT2
            } else {
                PLT_TYPE_UNKNOWN
            },
        ),
    };
    let rbp_fits: bool = match raw.rbp {
        RawReg::Offset(offset) => -0x8000 <= offset <= 0x7fff,
        _ => true,
    };
    if !rbp_fits {
        None
    } else {
        let (rbp_type, rbp_offset): (u8, i16) = match raw.rbp {
            RawReg::Undefined => (RBP_TYPE_UNKNOWN, 0i16),
            RawReg::Offset(offset) => (RBP_TYPE_CFA_OFFSET, offset as i16),
            RawReg::Register => (RBP_TYPE_REGISTER, 0i16),
            RawReg::Expression => (RBP_TYPE_EXPRESSION, 0i16),
            RawReg::Other => (RBP_TYPE_UNKNOWN, 0i16),
        };
        Some(
            CompactUnwindRow {
                pc: raw.pc,
                cfa_type,
                rbp_type: if raw.ra_undefined {
                    RBP_TYPE_UNDEFINED_RETURN_ADDRESS
                } else {
                    rbp_type
                },
                cfa_offset,
                rbp_offset,
            },
        )
    }
}

/// Applies the row-derivation policy to one evaluated row: classify the
/// frame-address rule by register, narrow its offset with a dedicated tag
/// for overflow, recognize the two stub idioms among expressions, encode
/// the frame-pointer rule, and let an undefined return address override
/// the frame-pointer tag.
pub fn compact_row_from_raw(raw: &RawRow) -> (r: Result<CompactUnwindRow, Error>)
    ensures
        match r {
            Ok(row) => compact_row_of(*raw) == Some(row),
            Err(e) => e == Error::ErrorRbpOffsetDidNotFit && compact_row_of(*raw) is None,
        },
{
    let mut row = CompactUnwindRow::default();
    row.pc = raw.pc;

    match &raw.cfa {
        RawCfa::RegisterOffset { register, offset } => {
            if *register == RBP_DWARF_NUM {
                row.cfa_type = CFA_TYPE_FRAME_POINTER_OFFSET;
            } else if *register == RSP_DWARF_NUM {
                row.cfa_type = CFA_TYPE_STACK_POINTER_OFFSET;
            } else {
                row.cfa_type = CFA_TYPE_UNSUPPORTED_REGISTER_OFFSET;
            }
            if 0 <= *offset && *offset <= 0xffff {
                row.cfa_offset = *offset as u16;
            } else {
                row.cfa_type = CFA_TYPE_OFFSET_DID_NOT_FIT;
            }
        },
        RawCfa::Expression { bytes } => {
            if is_plt1(bytes) {
                row.cfa_offset = PLT_TYPE_PLT1;
            } else if is_plt2(bytes) {
                row.cfa_offset = PLT_TYPE_PLT2;
            }
            row.cfa_type = CFA_TYPE_EXPRESSION;
        },
    }

    match raw.rbp {
        RawReg::Undefined => {},
        RawReg::Offset(offset) => {
            if -0x8000 <= offset && offset <= 0x7fff {
                row.rbp_type = RBP_TYPE_CFA_OFFSET;
                row.rbp_offset = offset as i16;
            } else {
                return Err(Error::ErrorRbpOffsetDidNotFit);
            }
        },
        RawReg::Register => {
            row.rbp_type = RBP_TYPE_REGISTER;
        },
        RawReg::Expression => {
            row.rbp_type = RBP_TYPE_EXPRESSION;
        },
        RawReg::Other => {},
    }

    if raw.ra_undefined {
        row.rbp_type = RBP_TYPE_UNDEFINED_RETURN_ADDRESS;
    }

    Ok(row)
}

/// Location of one per-range record: its code range and its offset in the
/// section.
#[derive(Debug, Copy, Clone, PartialEq, Eq, Structural)]
pub struct FdeDescriptor {
    pub pc: u64,
    pub end: u64,
    pub offset: usize,
}

/// The descriptors of the records at `offsets`, in the same order: each
/// record that parses and whose end address stays representable
/// contributes its code range; the others are skipped.
pub open spec fn fde_descriptors(
    data: Seq<u8>,
    eh_frame_addr: u64,
    text_addr: u64,
    little_endian: bool,
    offsets: Seq<usize>,
) -> Seq<FdeDescriptor>
    decreases offsets.len(),
{
    if offsets.len() == 0 {
        Seq::empty()
    } else {
        fde_descriptors(data, eh_frame_addr, text_addr, little_endian, offsets.drop_last())
            + match fde_info_of(data, eh_frame_addr, text_addr, little_endian, offsets.last() as u64) {
            Some((start, length)) => {
                if start + length <= u64::MAX {
                    seq![
                        FdeDescriptor {
                            pc: start,
                            end: (start + length) as u64,
                            offset: offsets.last(),
                        },
                    ]
                } else {
                    Seq::empty()
                }
            },
            None => Seq::empty(),
        }
    }
}

/// `d` inserted after the last entry of the sorted sequence `s` that does
/// not lie above it, so equal addresses keep their discovery order.
pub open spec fn insert_desc(s: Seq<FdeDescriptor>, d: FdeDescriptor) -> Seq<FdeDescriptor>
    decreases s.len(),
{
    if s.len() == 0 {
        seq![d]
    } else if s.last().pc <= d.pc {
        s.push(d)
    } else {
        insert_desc(s.drop_last(), d).push(s.last())
    }
}

/// The stable insertion sort of `s` by starting address.
pub open spec fn sort_descs(s: Seq<FdeDescriptor>) -> Seq<FdeDescriptor>
    decreases s.len(),
{
    if s.len() == 0 {
        Seq::empty()
    } else {
        insert_desc(sort_descs(s.drop_last()), s.last())
    }
}

/// Inserts `d` into the sorted vector `v` at its stable position.
fn insert_desc_exec(v: Vec<FdeDescriptor>, d: FdeDescriptor) -> (r: Vec<FdeDescriptor>)
    ensures
        r@ == insert_desc(v@, d),
    decreases v@.len(),
{
    let mut v = v;
    if v.len() == 0 {
        v.push(d);
        v
    } else {
        let last = v[v.len() - 1];
        if last.pc <= d.pc {
            v.push(d);
            v
        } else {
            v.pop();
            let mut r = insert_desc_exec(v, d);
            r.push(last);
            r
        }
    }
}

/// Sorts the record descriptors by starting address, keeping the section
/// order of records that share one.
pub fn sort_fde_descriptors(descs: Vec<FdeDescriptor>) -> (r: Vec<FdeDescriptor>)
    ensures
        r@ == sort_descs(descs@),
{
    let mut sorted: Vec<FdeDescriptor> = Vec::new();
    let mut i: usize = 0;
    while i < descs.len()
        invariant
            i <= descs@.len(),
            sorted@ == sort_descs(descs@.take(i as int)),
        decreases descs@.len() - i,
    {
        proof {
            assert(descs@.take(i + 1).drop_last() == descs@.take(i as int));
            assert(descs@.take(i + 1).last() == descs@[i as int]);
        }
        sorted = insert_desc_exec(sorted, descs[i]);
        i = i + 1;
    }
    proof {
        assert(descs@.take(descs@.len() as int) == descs@);
    }
    sorted
}

/// The instruction events of one record's evaluated rows under the
/// derivation policy, or nothing on the policy's hard error.
pub open spec fn instruction_events_of(raws: Seq<RawRow>) -> Option<Seq<UnwindData>>
    decreases raws.len(),
{
    if raws.len() == 0 {
        Some(Seq::empty())
    } else {
        match instruction_events_of(raws.drop_last()) {
            None => None,
            Some(prefix) => match compact_row_of(raws.last()) {
                None => None,
                Some(row) => Some(prefix.push(UnwindData::Instruction(row))),
            },
        }
    }
}

/// The event stream of the records in `descs`, in order: one function
/// boundary event per record, then its instruction events. The first
/// record whose unwind program cannot be evaluated, or whose rows hit the
/// policy's hard error, fails the whole build.
pub open spec fn events_of_descs(
    data: Seq<u8>,
    eh_frame_addr: u64,
    text_addr: u64,
    little_endian: bool,
    descs: Seq<FdeDescriptor>,
) -> Result<Seq<UnwindData>, Error>
    decreases descs.len(),
{
    if descs.len() == 0 {
        Ok(Seq::empty())
    } else {
        match events_of_descs(data, eh_frame_addr, text_addr, little_endian, descs.drop_last()) {
            Err(e) => Err(e),
            Ok(prefix) => {
                let d = descs.last();
                match fde_rows_of(data, eh_frame_addr, text_addr, little_endian, d.offset as u64) {
                    None => Err(Error::ErrorCfiEvaluation),
                    Some(raws) => match instruction_events_of(raws) {
                        None => Err(Error::ErrorRbpOffsetDidNotFit),
                        Some(instrs) => Ok(
                            prefix + seq![UnwindData::Function(d.pc, d.end)] + instrs,
                        ),
                    },
                }
            },
        }
    }
}

/// The whole extraction pipeline as one function of the section bytes:
/// scan the record framing, parse and order the records by starting
/// address, and evaluate each one to events.
pub open spec fn unwind_events_of(
    data: Seq<u8>,
    eh_frame_addr: u64,
    text_addr: u64,
    little_endian: bool,
) -> Result<Seq<UnwindData>, Error> {
    events_of_descs(
        data,
        eh_frame_addr,
        text_addr,
        little_endian,
        sort_descs(
            fde_descriptors(
                data,
                eh_frame_addr,
                text_addr,
                little_endian,
                fde_offsets_from(data, little_endian, 0),
            ),
        ),
    )
}

/// A failed prefix fails the whole event stream with the same error.
proof fn lemma_events_prefix_err(
    data: Seq<u8>,
    eh_frame_addr: u64,
    text_addr: u64,
    little_endian: bool,
    descs: Seq<FdeDescriptor>,
    i: int,
)
    requires
        0 <= i <= descs.len(),
        events_of_descs(data, eh_frame_addr, text_addr, little_endian, descs.take(i)) is Err,
    ensures
        events_of_descs(data, eh_frame_addr, text_addr, little_endian, descs) == events_of_descs(
            data,
            eh_frame_addr,
            text_addr,
            little_endian,
            descs.take(i),
        ),
    decreases descs.len() - i,
{
    if i < descs.len() {
        assert(descs.take(i + 1).drop_last() == descs.take(i));
        lemma_events_prefix_err(data, eh_frame_addr, text_addr, little_endian, descs, i + 1);
    } else {
        assert(descs.take(i) == descs);
    }
}

/// A failed prefix of one record's rows fails its whole instruction list.
proof fn lemma_instructions_prefix_err(raws: Seq<RawRow>, i: int)
    requires
        0 <= i <= raws.len(),
        instruction_events_of(raws.take(i)) is None,
    ensures
        instruction_events_of(raws) is None,
    decreases raws.len() - i,
{
    if i < raws.len() {
        assert(raws.take(i + 1).drop_last() == raws.take(i));
        lemma_instructions_prefix_err(raws, i + 1);
    } else {
        assert(raws.take(i) == raws);
    }
}

/// Builds the compacted unwind table for one executable from its
/// call-frame-information section bytes, the section's address, the code
/// section's address and the declared endianness: per-range records are
/// discovered and sorted by starting address, each record's unwind
/// program is evaluated through gimli, the derivation policy encodes each
/// row, and function boundary markers close every function.
#[verifier::loop_isolation(false)]
pub fn build_unwind_table(
    eh_frame_data: &Vec<u8>,
    eh_frame_addr: u64,
    text_addr: u64,
    little_endian: bool,
) -> (r: Result<Vec<stack_unwind_row_t>, Error>)
    ensures
        match r {
            Ok(rows) => {
                &&& unwind_events_of(eh_frame_data@, eh_frame_addr, text_addr, little_endian)
                    matches Ok(evs)
                &&& count_functions(evs) > 0
                &&& rows@ == compact_events(evs)
            },
            Err(e) => match unwind_events_of(
                eh_frame_data@,
                eh_frame_addr,
                text_addr,
                little_endian,
            ) {
                Ok(evs) => e == Error::ErrorNoFunctionBoundaries && count_functions(evs) == 0,
                Err(e2) => e == e2,
            },
        },
{
    let offsets = scan_fde_offsets(eh_frame_data, little_endian);

    let mut descs: Vec<FdeDescriptor> = Vec::new();
    let mut i: usize = 0;
    while i < offsets.len()
        invariant
            i <= offsets@.len(),
            descs@ == fde_descriptors(
                eh_frame_data@,
                eh_frame_addr,
                text_addr,
                little_endian,
                offsets@.take(i as int),
            ),
        decreases offsets@.len() - i,
    {
        proof {
            assert(offsets@.take(i + 1).drop_last() == offsets@.take(i as int));
            assert(offsets@.take(i + 1).last() == offsets@[i as int]);
        }
        let offset = offsets[i];
        match fde_info_at(eh_frame_data, eh_frame_addr, text_addr, little_endian, offset) {
            Some((start, length)) => {
                if length <= u64::MAX - start {
                    descs.push(FdeDescriptor { pc: start, end: start + length, offset });
                }
            },
            None => {},
        }
        i = i + 1;
    }
    proof {
        assert(offsets@.take(offsets@.len() as int) == offsets@);
    }

    let sorted = sort_fde_descriptors(descs);
    let ghost sorted_spec = sort_descs(
        fde_descriptors(
            eh_frame_data@,
            eh_frame_addr,
            text_addr,
            little_endian,
            fde_offsets_from(eh_frame_data@, little_endian, 0),
        ),
    );
    assert(sorted@ == sorted_spec);

    let mut events: Vec<UnwindData> = Vec::new();
    let mut di: usize = 0;
    while di < sorted.len()
        invariant
            di <= sorted@.len(),
            sorted@ == sorted_spec,
            events_of_descs(
                eh_frame_data@,
                eh_frame_addr,
                text_addr,
                little_endian,
                sorted_spec.take(di as int),
            ) == Ok::<Seq<UnwindData>, Error>(events@),
        decreases sorted@.len() - di,
    {
        proof {
            assert(sorted_spec.take(di + 1).drop_last() == sorted_spec.take(di as int));
            assert(sorted_spec.take(di + 1).last() == sorted_spec[di as int]);
        }
        let d = sorted[di];
        let ghost events0 = events@;
        events.push(UnwindData::Function(d.pc, d.end));
        match fde_rows_at(eh_frame_data, eh_frame_addr, text_addr, little_endian, d.offset) {
            None => {
                proof {
                    assert(events_of_descs(
                        eh_frame_data@,
                        eh_frame_addr,
                        text_addr,
                        little_endian,
                        sorted_spec.take(di + 1),
                    ) == Err::<Seq<UnwindData>, Error>(Error::ErrorCfiEvaluation));
                    lemma_events_prefix_err(
                        eh_frame_data@,
                        eh_frame_addr,
                        text_addr,
                        little_endian,
                        sorted_spec,
                        di + 1,
                    );
                }
                return Err(Error::ErrorCfiEvaluation);
            },
            Some(raws) => {
                let mut ri: usize = 0;
                while ri < raws.len()
                    invariant
                        ri <= raws@.len(),
                        di < sorted_spec.len(),
                        events_of_descs(
                            eh_frame_data@,
                            eh_frame_addr,
                            text_addr,
                            little_endian,
                            sorted_spec.take(di as int),
                        ) == Ok::<Seq<UnwindData>, Error>(events0),
                        fde_rows_of(
                            eh_frame_data@,
                            eh_frame_addr,
                            text_addr,
                            little_endian,
                            sorted_spec[di as int].offset as u64,
                        ) == Some(raws@),
                        instruction_events_of(raws@.take(ri as int)) is Some,
                        events@ == events0 + seq![
                            UnwindData::Function(
                                sorted_spec[di as int].pc,
                                sorted_spec[di as int].end,
                            ),
                        ] + instruction_events_of(raws@.take(ri as int))->Some_0,
                    decreases raws@.len() - ri,
                {
                    proof {
                        assert(raws@.take(ri + 1).drop_last() == raws@.take(ri as int));
                        assert(raws@.take(ri + 1).last() == raws@[ri as int]);
                    }
                    match compact_row_from_raw(&raws[ri]) {
                        Ok(row) => {
                            events.push(UnwindData::Instruction(row));
                        },
                        Err(e) => {
                            proof {
                                lemma_instructions_prefix_err(raws@, ri + 1);
                                assert(instruction_events_of(raws@) is None);
                                assert(events_of_descs(
                                    eh_frame_data@,
                                    eh_frame_addr,
                                    text_addr,
                                    little_endian,
                                    sorted_spec.take(di + 1),
                                ) == Err::<Seq<UnwindData>, Error>(
                                    Error::ErrorRbpOffsetDidNotFit,
                                ));
                                lemma_events_prefix_err(
                                    eh_frame_data@,
                                    eh_frame_addr,
                                    text_addr,
                                    little_endian,
                                    sorted_spec,
                                    di + 1,
                                );
                            }
                            return Err(e);
                        },
                    }
                    ri = ri + 1;
                }
                proof {
                    assert(raws@.take(raws@.len() as int) == raws@);
                }
            },
        }
        di = di + 1;
    }
    proof {
        assert(sorted_spec.take(sorted_spec.len() as int) == sorted_spec);
    }

    in_memory_unwind_info(&events)
}

} // verus!
