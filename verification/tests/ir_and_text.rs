use ilcc::cil::{
    CilArith, CilAssembly, CilCond, CilConst, CilInst, CilLabel, CilPrefix, CilSlot, CilToken,
    CilTokenKind, CilType, CilTypeInfo,
};

#[test]
fn token_parts() {
    let t = CilToken::new(0x0600_002a);
    assert_eq!(t.token(), 0x0600_002a);
    assert_eq!(t.kind(), CilTokenKind::MethodDef);
    assert_eq!(t.index(), 0x2a);
    assert_eq!(CilToken::new(0x0a00_0001).kind(), CilTokenKind::MemberRef);
    assert_eq!(CilToken::new(0x2000_0001).kind(), CilTokenKind::Assembly);
    assert_eq!(CilToken::new(0x2b00_0003).kind(), CilTokenKind::MethodSpec);
    assert_eq!(CilToken::new(0x0100_0005).kind(), CilTokenKind::Unknown(0x01));
    assert_eq!(CilToken::new(0xff12_3456).index(), 0x12_3456);
}

#[test]
fn label_round_trip() {
    assert_eq!(CilLabel::new(0).index(), 0);
    assert_eq!(CilLabel::new(41).index(), 41);
    assert_eq!(CilType::new(7).index(), 7);
}

#[test]
fn type_info_lookup() {
    let a = CilAssembly {
        methods: Vec::new(),
        types: vec![
            CilTypeInfo { name: "Int32".to_string() },
            CilTypeInfo { name: "String".to_string() },
        ],
    };
    assert_eq!(a.type_info(CilType::new(1)).name, "String");
}

#[test]
fn slot_and_label_text() {
    assert_eq!(CilSlot::Arg(2).to_string(), "arg.2");
    assert_eq!(CilSlot::Loc(300).to_string(), "loc.300");
    assert_eq!(CilLabel::new(0).to_string(), "label.0");
    assert_eq!(CilLabel::new(12).to_string(), "label.12");
}

#[test]
fn enum_text() {
    assert_eq!(CilArith::Mod.to_string(), "mod");
    assert_eq!(CilArith::Add.to_string(), "add");
    assert_eq!(CilCond::NeUn.to_string(), "ne.un");
    assert_eq!(CilCond::Always.to_string(), "always");
    assert_eq!(CilPrefix::Unaligned.to_string(), "unaligned");
    assert_eq!(CilTokenKind::Unknown(0x0f).to_string(), "unk_0f");
    assert_eq!(CilTokenKind::Unknown(0xab).to_string(), "unk_ab");
    assert_eq!(CilTokenKind::MethodSpec.to_string(), "methodspec");
}

#[test]
fn token_text() {
    assert_eq!(CilToken::new(0x0600_0010).to_string(), "methoddef(16)");
    assert_eq!(CilToken::new(0x7000_0001).to_string(), "unk_70(1)");
}

#[test]
fn const_text() {
    assert_eq!(CilConst::I32(-1).to_string_with_float(""), "i32:-1");
    assert_eq!(CilConst::I32(0).to_string_with_float(""), "i32:0");
    assert_eq!(CilConst::I64(i64::MIN).to_string_with_float(""), "i64:-9223372036854775808");
    assert_eq!(CilConst::I64(i64::MAX).to_string_with_float(""), "i64:9223372036854775807");
    assert_eq!(CilConst::F32(1.5f32.to_bits()).to_string_with_float("1.5"), "f32:1.5");
    assert_eq!(CilConst::F64(2.0f64.to_bits()).to_string_with_float("2"), "f64:2");
}

#[test]
fn inst_text() {
    assert_eq!(CilInst::Nop.to_string_with_float(""), "nop");
    assert_eq!(CilInst::Load(CilSlot::Arg(0)).to_string_with_float(""), "load arg.0");
    assert_eq!(CilInst::Store(CilSlot::Loc(3)).to_string_with_float(""), "store loc.3");
    assert_eq!(CilInst::Addr(CilSlot::Loc(1)).to_string_with_float(""), "addr loc.1");
    assert_eq!(CilInst::Arith(CilArith::Sub).to_string_with_float(""), "arith.sub");
    assert_eq!(CilInst::Const(CilConst::I32(8)).to_string_with_float(""), "const i32:8");
    assert_eq!(
        CilInst::Call(CilToken::new(0x0a00_0002)).to_string_with_float(""),
        "call memberref(2)"
    );
    assert_eq!(CilInst::Compare(CilCond::Lt).to_string_with_float(""), "compare.lt");
    assert_eq!(
        CilInst::Branch(CilCond::GeUn, CilLabel::new(4)).to_string_with_float(""),
        "branch.ge.un label.4"
    );
    assert_eq!(CilInst::Prefix(CilPrefix::Volatile).to_string_with_float(""), "prefix.volatile");
    assert_eq!(CilInst::Return.to_string_with_float(""), "return");
    assert_eq!(CilInst::Break.to_string_with_float(""), "break");
}
