use lightswitch::extract::{compact_row_from_raw, RawCfa, RawReg, RawRow};
use lightswitch::unwind_info::{
    Error, CFA_TYPE_EXPRESSION, CFA_TYPE_FRAME_POINTER_OFFSET, CFA_TYPE_OFFSET_DID_NOT_FIT,
    CFA_TYPE_STACK_POINTER_OFFSET, CFA_TYPE_UNSUPPORTED_REGISTER_OFFSET, PLT_TYPE_PLT1,
    PLT_TYPE_PLT2, PLT_TYPE_UNKNOWN, RBP_TYPE_CFA_OFFSET, RBP_TYPE_EXPRESSION, RBP_TYPE_REGISTER,
    RBP_TYPE_UNDEFINED_RETURN_ADDRESS,
};

const PLT1: [u8; 11] = [
    0x77, 0x08, 0x80, 0x00, 0x3f, 0x1a, 0x3b, 0x2a, 0x33, 0x24, 0x22,
];
const PLT2: [u8; 11] = [
    0x77, 0x08, 0x80, 0x00, 0x3f, 0x1a, 0x3a, 0x2a, 0x33, 0x24, 0x22,
];

fn raw(cfa: RawCfa, rbp: RawReg, ra_undefined: bool) -> RawRow {
    RawRow {
        pc: 0x1234,
        cfa,
        rbp,
        ra_undefined,
    }
}

#[test]
fn register_offsets_are_classified_by_register() {
    let fp = compact_row_from_raw(&raw(
        RawCfa::RegisterOffset { register: 6, offset: 16 },
        RawReg::Undefined,
        false,
    ))
    .unwrap();
    assert_eq!(fp.cfa_type, CFA_TYPE_FRAME_POINTER_OFFSET);
    assert_eq!(fp.cfa_offset, 16);
    assert_eq!(fp.pc, 0x1234);

    let sp = compact_row_from_raw(&raw(
        RawCfa::RegisterOffset { register: 7, offset: 8 },
        RawReg::Undefined,
        false,
    ))
    .unwrap();
    assert_eq!(sp.cfa_type, CFA_TYPE_STACK_POINTER_OFFSET);
    assert_eq!(sp.cfa_offset, 8);

    let other = compact_row_from_raw(&raw(
        RawCfa::RegisterOffset { register: 12, offset: 8 },
        RawReg::Undefined,
        false,
    ))
    .unwrap();
    assert_eq!(other.cfa_type, CFA_TYPE_UNSUPPORTED_REGISTER_OFFSET);
}

#[test]
fn oversized_offsets_keep_the_row_with_a_dedicated_tag() {
    let too_big = compact_row_from_raw(&raw(
        RawCfa::RegisterOffset { register: 7, offset: 0x10000 },
        RawReg::Undefined,
        false,
    ))
    .unwrap();
    assert_eq!(too_big.cfa_type, CFA_TYPE_OFFSET_DID_NOT_FIT);
    assert_eq!(too_big.cfa_offset, 0);

    let negative = compact_row_from_raw(&raw(
        RawCfa::RegisterOffset { register: 7, offset: -8 },
        RawReg::Undefined,
        false,
    ))
    .unwrap();
    assert_eq!(negative.cfa_type, CFA_TYPE_OFFSET_DID_NOT_FIT);
}

#[test]
fn stub_idiom_expressions_are_recognized() {
    let plt1 = compact_row_from_raw(&raw(
        RawCfa::Expression { bytes: PLT1.to_vec() },
        RawReg::Undefined,
        false,
    ))
    .unwrap();
    assert_eq!(plt1.cfa_type, CFA_TYPE_EXPRESSION);
    assert_eq!(plt1.cfa_offset, PLT_TYPE_PLT1);

    let plt2 = compact_row_from_raw(&raw(
        RawCfa::Expression { bytes: PLT2.to_vec() },
        RawReg::Undefined,
        false,
    ))
    .unwrap();
    assert_eq!(plt2.cfa_offset, PLT_TYPE_PLT2);

    let unknown = compact_row_from_raw(&raw(
        RawCfa::Expression { bytes: vec![0x77, 0x08] },
        RawReg::Undefined,
        false,
    ))
    .unwrap();
    assert_eq!(unknown.cfa_type, CFA_TYPE_EXPRESSION);
    assert_eq!(unknown.cfa_offset, PLT_TYPE_UNKNOWN);
}

#[test]
fn frame_pointer_rules_are_encoded() {
    let offset = compact_row_from_raw(&raw(
        RawCfa::RegisterOffset { register: 7, offset: 8 },
        RawReg::Offset(-16),
        false,
    ))
    .unwrap();
    assert_eq!(offset.rbp_type, RBP_TYPE_CFA_OFFSET);
    assert_eq!(offset.rbp_offset, -16);

    let reg = compact_row_from_raw(&raw(
        RawCfa::RegisterOffset { register: 7, offset: 8 },
        RawReg::Register,
        false,
    ))
    .unwrap();
    assert_eq!(reg.rbp_type, RBP_TYPE_REGISTER);

    let exp = compact_row_from_raw(&raw(
        RawCfa::RegisterOffset { register: 7, offset: 8 },
        RawReg::Expression,
        false,
    ))
    .unwrap();
    assert_eq!(exp.rbp_type, RBP_TYPE_EXPRESSION);
}

#[test]
fn oversized_frame_pointer_offset_is_a_hard_error() {
    let r = compact_row_from_raw(&raw(
        RawCfa::RegisterOffset { register: 7, offset: 8 },
        RawReg::Offset(0x8000),
        false,
    ));
    assert_eq!(r, Err(Error::ErrorRbpOffsetDidNotFit));
}

#[test]
fn undefined_return_address_overrides_the_frame_pointer_tag() {
    let r = compact_row_from_raw(&raw(
        RawCfa::RegisterOffset { register: 7, offset: 8 },
        RawReg::Offset(-16),
        true,
    ))
    .unwrap();
    assert_eq!(r.rbp_type, RBP_TYPE_UNDEFINED_RETURN_ADDRESS);
    assert_eq!(r.rbp_offset, -16);
}
