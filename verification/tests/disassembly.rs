use ilcc::analysis::{analyze_arcs, analyze_assembly, analyze_method};
use ilcc::cil::{
    CilArith, CilAssembly, CilBlock, CilCond, CilConst, CilFunc, CilInst, CilLabel, CilMethod,
    CilPrefix, CilSlot, CilToken,
};
use ilcc::parsers::decode::{decode, DecodeError, DecodeInst};
use ilcc::parsers::disasm::{disassemble, DisasmError};
use ilcc::text::block_header;

fn l(i: usize) -> CilLabel {
    CilLabel::new(i)
}

#[test]
fn decode_short_forms() {
    let image = [0x00, 0x01, 0x02, 0x05, 0x06, 0x09, 0x0a, 0x0d, 0x2a, 0x58, 0x59, 0x5a, 0x5b];
    assert_eq!(decode(&image, 0), Ok((DecodeInst::Nop, 1)));
    assert_eq!(decode(&image, 1), Ok((DecodeInst::Break, 2)));
    assert_eq!(decode(&image, 2), Ok((DecodeInst::Load(CilSlot::Arg(0)), 3)));
    assert_eq!(decode(&image, 3), Ok((DecodeInst::Load(CilSlot::Arg(3)), 4)));
    assert_eq!(decode(&image, 4), Ok((DecodeInst::Load(CilSlot::Loc(0)), 5)));
    assert_eq!(decode(&image, 5), Ok((DecodeInst::Load(CilSlot::Loc(3)), 6)));
    assert_eq!(decode(&image, 6), Ok((DecodeInst::Store(CilSlot::Loc(0)), 7)));
    assert_eq!(decode(&image, 7), Ok((DecodeInst::Store(CilSlot::Loc(3)), 8)));
    assert_eq!(decode(&image, 8), Ok((DecodeInst::Return, 9)));
    assert_eq!(decode(&image, 9), Ok((DecodeInst::Arith(CilArith::Add), 10)));
    assert_eq!(decode(&image, 10), Ok((DecodeInst::Arith(CilArith::Sub), 11)));
    assert_eq!(decode(&image, 11), Ok((DecodeInst::Arith(CilArith::Mul), 12)));
    assert_eq!(decode(&image, 12), Ok((DecodeInst::Arith(CilArith::Div), 13)));
}

#[test]
fn decode_constants() {
    let image = [0x15, 0x16, 0x1e, 0x1f, 0x80, 0x20, 0x78, 0x56, 0x34, 0x12];
    assert_eq!(decode(&image, 0), Ok((DecodeInst::Const(CilConst::I32(-1)), 1)));
    assert_eq!(decode(&image, 1), Ok((DecodeInst::Const(CilConst::I32(0)), 2)));
    assert_eq!(decode(&image, 2), Ok((DecodeInst::Const(CilConst::I32(8)), 3)));
    assert_eq!(decode(&image, 3), Ok((DecodeInst::Const(CilConst::I32(-128)), 5)));
    assert_eq!(decode(&image, 5), Ok((DecodeInst::Const(CilConst::I32(0x1234_5678)), 10)));
    let neg = [0x20, 0xff, 0xff, 0xff, 0xff];
    assert_eq!(decode(&neg, 0), Ok((DecodeInst::Const(CilConst::I32(-1)), 5)));
    let long = [0x21, 0x01, 0, 0, 0, 0, 0, 0, 0x80];
    assert_eq!(decode(&long, 0), Ok((DecodeInst::Const(CilConst::I64(i64::MIN + 1)), 9)));
    let mut f32_image = vec![0x22];
    f32_image.extend_from_slice(&1.5f32.to_le_bytes());
    assert_eq!(
        decode(&f32_image, 0),
        Ok((DecodeInst::Const(CilConst::F32(1.5f32.to_bits())), 5))
    );
    let mut f64_image = vec![0x23];
    f64_image.extend_from_slice(&(-0.25f64).to_le_bytes());
    assert_eq!(
        decode(&f64_image, 0),
        Ok((DecodeInst::Const(CilConst::F64((-0.25f64).to_bits())), 9))
    );
}

#[test]
fn decode_operands() {
    let image = [0x0e, 0x07, 0x0f, 0x08, 0x10, 0xff, 0x28, 0x01, 0x00, 0x00, 0x0a];
    assert_eq!(decode(&image, 0), Ok((DecodeInst::Load(CilSlot::Arg(7)), 2)));
    assert_eq!(decode(&image, 2), Ok((DecodeInst::Addr(CilSlot::Arg(8)), 4)));
    assert_eq!(decode(&image, 4), Ok((DecodeInst::Store(CilSlot::Arg(255)), 6)));
    assert_eq!(decode(&image, 6), Ok((DecodeInst::Call(CilToken::new(0x0a00_0001)), 11)));
}

#[test]
fn decode_branches() {
    let image = [0x2b, 0xfe, 0x37, 0x05, 0x38, 0x00, 0x01, 0x00, 0x00, 0x44, 0xfb, 0xff, 0xff, 0xff];
    assert_eq!(decode(&image, 0), Ok((DecodeInst::Branch(CilCond::Always, -2), 2)));
    assert_eq!(decode(&image, 2), Ok((DecodeInst::Branch(CilCond::LtUn, 5), 4)));
    assert_eq!(decode(&image, 4), Ok((DecodeInst::Branch(CilCond::Always, 256), 9)));
    assert_eq!(decode(&image, 9), Ok((DecodeInst::Branch(CilCond::LtUn, -5), 14)));
    let conds = [
        (0x2c, CilCond::False),
        (0x2d, CilCond::True),
        (0x2e, CilCond::Eq),
        (0x2f, CilCond::Ge),
        (0x30, CilCond::Gt),
        (0x31, CilCond::Le),
        (0x32, CilCond::Lt),
        (0x33, CilCond::NeUn),
        (0x34, CilCond::GeUn),
        (0x35, CilCond::GtUn),
        (0x36, CilCond::LeUn),
    ];
    for (op, cond) in conds {
        assert_eq!(decode(&[op, 0x03], 0), Ok((DecodeInst::Branch(cond, 3), 2)));
        assert_eq!(decode(&[op + 0x0d, 3, 0, 0, 0], 0), Ok((DecodeInst::Branch(cond, 3), 5)));
    }
}

#[test]
fn decode_extended() {
    let image = [
        0xfe, 0x01, 0xfe, 0x02, 0xfe, 0x03, 0xfe, 0x04, 0xfe, 0x05, 0xfe, 0x12, 0xfe, 0x09, 0x34,
        0x12,
    ];
    assert_eq!(decode(&image, 0), Ok((DecodeInst::Compare(CilCond::Eq), 2)));
    assert_eq!(decode(&image, 2), Ok((DecodeInst::Compare(CilCond::Gt), 4)));
    assert_eq!(decode(&image, 4), Ok((DecodeInst::Compare(CilCond::GtUn), 6)));
    assert_eq!(decode(&image, 6), Ok((DecodeInst::Compare(CilCond::Lt), 8)));
    assert_eq!(decode(&image, 8), Ok((DecodeInst::Compare(CilCond::LtUn), 10)));
    assert_eq!(decode(&image, 10), Ok((DecodeInst::Prefix(CilPrefix::Unaligned), 12)));
    assert_eq!(decode(&image, 12), Ok((DecodeInst::Load(CilSlot::Arg(0x1234)), 16)));
    let slots = [0xfe, 0x0a, 1, 0, 0xfe, 0x0b, 2, 0, 0xfe, 0x0c, 3, 0, 0xfe, 0x0d, 4, 0, 0xfe, 0x0e, 5, 0];
    assert_eq!(decode(&slots, 0), Ok((DecodeInst::Addr(CilSlot::Arg(1)), 4)));
    assert_eq!(decode(&slots, 4), Ok((DecodeInst::Store(CilSlot::Arg(2)), 8)));
    assert_eq!(decode(&slots, 8), Ok((DecodeInst::Load(CilSlot::Loc(3)), 12)));
    assert_eq!(decode(&slots, 12), Ok((DecodeInst::Addr(CilSlot::Loc(4)), 16)));
    assert_eq!(decode(&slots, 16), Ok((DecodeInst::Store(CilSlot::Loc(5)), 20)));
}

#[test]
fn decode_errors() {
    assert_eq!(decode(&[0x00], 1), Err(DecodeError::InstructionOutOfBounds));
    assert_eq!(decode(&[], 0), Err(DecodeError::InstructionOutOfBounds));
    assert_eq!(decode(&[0x20, 0x01, 0x02], 0), Err(DecodeError::ArgumentOutOfBounds));
    assert_eq!(decode(&[0x0e], 0), Err(DecodeError::ArgumentOutOfBounds));
    assert_eq!(decode(&[0xfe], 0), Err(DecodeError::ArgumentOutOfBounds));
    assert_eq!(decode(&[0xfe, 0x0c, 0x01], 0), Err(DecodeError::ArgumentOutOfBounds));
    assert_eq!(decode(&[0x11], 0), Err(DecodeError::UnknownInstruction(0x11)));
    assert_eq!(decode(&[0x5c], 0), Err(DecodeError::UnknownInstruction(0x5c)));
    assert_eq!(decode(&[0xfe, 0x06], 0), Err(DecodeError::UnknownExtendedInstruction(0x06)));
}

fn insts(b: &CilBlock) -> Vec<CilInst> {
    b.insts.clone()
}

#[test]
fn straight_line_body() {
    let image = [0x02, 0x03, 0x58, 0x2a];
    let blocks = disassemble(&image, 0).unwrap();
    assert_eq!(blocks.len(), 1);
    assert_eq!(blocks[0].label, l(0));
    assert_eq!(blocks[0].offset, 0);
    assert_eq!(
        insts(&blocks[0]),
        vec![
            CilInst::Load(CilSlot::Arg(0)),
            CilInst::Load(CilSlot::Arg(1)),
            CilInst::Arith(CilArith::Add),
            CilInst::Return,
        ]
    );
    assert!(blocks[0].incoming.is_empty() && blocks[0].outgoing.is_empty());
}

#[test]
fn body_at_offset() {
    let image = [0xee, 0xee, 0x17, 0x2a];
    let blocks = disassemble(&image, 2).unwrap();
    assert_eq!(blocks.len(), 1);
    assert_eq!(blocks[0].offset, 2);
    assert_eq!(insts(&blocks[0]), vec![CilInst::Const(CilConst::I32(1)), CilInst::Return]);
}

#[test]
fn conditional_branch_makes_fallthrough_block() {
    // ldc.i4.0; brfalse.s +1; nop; ret
    let image = [0x16, 0x2c, 0x01, 0x00, 0x2a];
    let blocks = disassemble(&image, 0).unwrap();
    assert_eq!(blocks.len(), 3);
    assert_eq!(
        insts(&blocks[0]),
        vec![
            CilInst::Const(CilConst::I32(0)),
            CilInst::Branch(CilCond::False, l(1)),
            CilInst::Branch(CilCond::Always, l(2)),
        ]
    );
    assert_eq!(blocks[1].offset, 4);
    assert_eq!(insts(&blocks[1]), vec![CilInst::Return]);
    assert_eq!(blocks[2].offset, 3);
    assert_eq!(insts(&blocks[2]), vec![CilInst::Nop, CilInst::Return]);
    for (i, b) in blocks.iter().enumerate() {
        assert_eq!(b.label.index(), i);
    }
}

#[test]
fn backward_branch_splits_block() {
    // nop; nop; br.s -3 (to the second nop)
    let image = [0x00, 0x00, 0x2b, 0xfd];
    let blocks = disassemble(&image, 0).unwrap();
    assert_eq!(blocks.len(), 2);
    assert_eq!(blocks[0].offset, 0);
    assert_eq!(insts(&blocks[0]), vec![CilInst::Nop, CilInst::Branch(CilCond::Always, l(1))]);
    assert_eq!(blocks[1].offset, 1);
    assert_eq!(insts(&blocks[1]), vec![CilInst::Nop, CilInst::Branch(CilCond::Always, l(1))]);
}

#[test]
fn running_into_a_block_jumps_to_it() {
    // 0: br.s +2 -> 4; 2: nop; 3: nop; 4: ldc.i4 0; 9: brfalse.s -9 -> 2; 11: ret
    let image = [0x2b, 0x02, 0x00, 0x00, 0x20, 0, 0, 0, 0, 0x2c, 0xf7, 0x2a];
    let blocks = disassemble(&image, 0).unwrap();
    assert_eq!(blocks.len(), 4);
    assert_eq!(insts(&blocks[0]), vec![CilInst::Branch(CilCond::Always, l(1))]);
    assert_eq!(blocks[1].offset, 4);
    assert_eq!(
        insts(&blocks[1]),
        vec![
            CilInst::Const(CilConst::I32(0)),
            CilInst::Branch(CilCond::False, l(2)),
            CilInst::Branch(CilCond::Always, l(3)),
        ]
    );
    assert_eq!(blocks[2].offset, 2);
    assert_eq!(
        insts(&blocks[2]),
        vec![CilInst::Nop, CilInst::Nop, CilInst::Branch(CilCond::Always, l(1))]
    );
    assert_eq!(blocks[3].offset, 11);
    assert_eq!(insts(&blocks[3]), vec![CilInst::Return]);
}

#[test]
fn misaligned_stream_is_refused() {
    // as above, but 3: ldc.i4.s runs over the start of the block at 4
    let image = [0x2b, 0x02, 0x00, 0x1f, 0x20, 0, 0, 0, 0, 0x2c, 0xf7, 0x2a];
    assert_eq!(disassemble(&image, 0).unwrap_err(), DisasmError::BadInstructionStream);
}

#[test]
fn branch_into_an_instruction_is_refused() {
    // ldc.i4.s 5; br.s -3 (into the operand of ldc.i4.s)
    let image = [0x1f, 0x05, 0x2b, 0xfd];
    assert_eq!(disassemble(&image, 0).unwrap_err(), DisasmError::BadBranchTarget);
}

#[test]
fn decode_errors_propagate() {
    assert_eq!(
        disassemble(&[0x00, 0x11], 0).unwrap_err(),
        DisasmError::Decode(DecodeError::UnknownInstruction(0x11))
    );
    assert_eq!(
        disassemble(&[0x00, 0x00], 0).unwrap_err(),
        DisasmError::Decode(DecodeError::InstructionOutOfBounds)
    );
    // br.s -3 from the end of a two-byte image goes before its start
    assert_eq!(
        disassemble(&[0x2b, 0xfd], 0).unwrap_err(),
        DisasmError::Decode(DecodeError::InstructionOutOfBounds)
    );
    assert_eq!(
        disassemble(&[0x2b, 0xfc], 0).unwrap_err(),
        DisasmError::Decode(DecodeError::InstructionOutOfBounds)
    );
}

#[test]
fn arcs_of_a_loop() {
    let image = [0x2b, 0x02, 0x00, 0x00, 0x20, 0, 0, 0, 0, 0x2c, 0xf7, 0x2a];
    let mut blocks = disassemble(&image, 0).unwrap();
    analyze_arcs(&mut blocks);
    assert_eq!(blocks[0].outgoing, vec![l(1)]);
    assert_eq!(blocks[1].outgoing, vec![l(2), l(3)]);
    assert_eq!(blocks[2].outgoing, vec![l(1)]);
    assert!(blocks[3].outgoing.is_empty());
    assert!(blocks[0].incoming.is_empty());
    assert_eq!(blocks[1].incoming, vec![l(0), l(2)]);
    assert_eq!(blocks[2].incoming, vec![l(1)]);
    assert_eq!(blocks[3].incoming, vec![l(1)]);
}

#[test]
fn arcs_keep_what_was_recorded() {
    let mut blocks = vec![
        CilBlock {
            label: l(0),
            offset: 0,
            insts: vec![CilInst::Branch(CilCond::Always, l(0))],
            incoming: vec![l(0)],
            outgoing: Vec::new(),
        },
    ];
    analyze_arcs(&mut blocks);
    assert_eq!(blocks[0].outgoing, vec![l(0)]);
    assert_eq!(blocks[0].incoming, vec![l(0), l(0)]);
    assert_eq!(insts(&blocks[0]), vec![CilInst::Branch(CilCond::Always, l(0))]);
}

#[test]
fn methods_and_assemblies_are_analyzed() {
    let image = [0x00, 0x00, 0x2b, 0xfd];
    let blocks = disassemble(&image, 0).unwrap();
    let mut method = CilMethod {
        name: "Loop".to_string(),
        body: Some(CilFunc { blocks, locals: Vec::new() }),
        params: Vec::new(),
    };
    analyze_method(&mut method);
    let body = method.body.as_ref().unwrap();
    assert_eq!(body.blocks[0].outgoing, vec![l(1)]);
    assert_eq!(body.blocks[1].incoming, vec![l(0), l(1)]);

    let file = CilAssembly {
        methods: vec![
            CilMethod { name: "Extern".to_string(), body: None, params: Vec::new() },
            CilMethod {
                name: "Loop".to_string(),
                body: Some(CilFunc { blocks: disassemble(&image, 0).unwrap(), locals: Vec::new() }),
                params: Vec::new(),
            },
        ],
        types: Vec::new(),
    };
    let file = analyze_assembly(file);
    assert!(file.methods[0].body.is_none());
    let body = file.methods[1].body.as_ref().unwrap();
    assert_eq!(body.blocks[1].outgoing, vec![l(1)]);
    assert_eq!(body.blocks[1].incoming, vec![l(0), l(1)]);
}

fn count(labels: &[CilLabel], x: CilLabel) -> usize {
    labels.iter().filter(|&&l| l == x).count()
}

#[test]
fn disassembly_is_deterministic() {
    let image = [0x2b, 0x02, 0x00, 0x00, 0x20, 0, 0, 0, 0, 0x2c, 0xf7, 0x2a];
    let a = disassemble(&image, 0).unwrap();
    let b = disassemble(&image, 0).unwrap();
    assert_eq!(a.len(), b.len());
    for (x, y) in a.iter().zip(b.iter()) {
        assert_eq!(x.label, y.label);
        assert_eq!(x.offset, y.offset);
        assert_eq!(x.insts, y.insts);
    }
}

#[test]
fn arcs_are_symmetric() {
    // a conditional branch whose target is also where it falls through
    let image = [0x2c, 0x00, 0x2a];
    let mut blocks = disassemble(&image, 0).unwrap();
    assert_eq!(blocks.len(), 2);
    analyze_arcs(&mut blocks);
    for s in 0..blocks.len() {
        for t in 0..blocks.len() {
            assert_eq!(
                count(&blocks[s].outgoing, blocks[t].label),
                count(&blocks[t].incoming, blocks[s].label)
            );
        }
    }
    assert_eq!(insts(&blocks[0]), vec![CilInst::Branch(CilCond::False, l(1))]);
    assert_eq!(blocks[0].outgoing, vec![l(1)]);
    assert_eq!(blocks[1].incoming, vec![l(0)]);
}

#[test]
fn disassembled_labels_name_blocks() {
    let image = [0x16, 0x2c, 0x01, 0x00, 0x2a];
    let blocks = disassemble(&image, 0).unwrap();
    for b in &blocks {
        assert!(b.label.index() < blocks.len());
        for i in &b.insts {
            if let CilInst::Branch(_, t) = i {
                assert!(t.index() < blocks.len());
            }
        }
    }
}

#[test]
fn decoding_depends_only_on_the_bytes_of_the_instruction() {
    // ldc.i4 0x01020304; bne.un.s -3
    let image = [0x20, 0x04, 0x03, 0x02, 0x01, 0x33, 0xfd];
    let mut big = vec![0xaa, 0xbb, 0xcc];
    big.extend_from_slice(&image);
    big.extend_from_slice(&[0x2a, 0x00]);
    for pos in [0usize, 5] {
        let (inst, end) = decode(&image, pos).unwrap();
        assert_eq!(decode(&big, pos + 3), Ok((inst, end + 3)));
    }
    assert_eq!(decode(&image, 0), Ok((DecodeInst::Const(CilConst::I32(0x01020304)), 5)));
}

#[test]
fn disassembly_moves_with_the_code() {
    // 0: br.s +2 -> 4; 2: nop; 3: nop; 4: ldc.i4 0; 9: brfalse.s -9 -> 2; 11: ret
    let image = [0x2b, 0x02, 0x00, 0x00, 0x20, 0, 0, 0, 0, 0x2c, 0xf7, 0x2a];
    let mut big = vec![0x2a, 0x00, 0x2a, 0x00, 0x2a];
    big.extend_from_slice(&image);
    big.extend_from_slice(&[0x00, 0x2a]);
    let a = disassemble(&image, 0).unwrap();
    let b = disassemble(&big, 5).unwrap();
    assert_eq!(a.len(), b.len());
    for (x, y) in a.iter().zip(b.iter()) {
        assert_eq!(x.label, y.label);
        assert_eq!(x.insts, y.insts);
        assert_eq!(x.offset + 5, y.offset);
    }
}

fn branches_to(insts: &[CilInst], t: usize) -> usize {
    insts.iter().filter(|i| matches!(i, CilInst::Branch(_, d) if d.index() == t)).count()
}

#[test]
fn arcs_match_the_branches() {
    // 0: brfalse.s +0 -> 2 (target and fall-through both at 2); 2: br.s -4 -> 0
    let image = [0x2c, 0x00, 0x2b, 0xfc];
    let mut blocks = disassemble(&image, 0).unwrap();
    analyze_arcs(&mut blocks);
    for s in 0..blocks.len() {
        for t in 0..blocks.len() {
            let n = branches_to(&blocks[s].insts, t);
            assert_eq!(count(&blocks[s].outgoing, blocks[t].label), n);
            assert_eq!(count(&blocks[t].incoming, blocks[s].label), n);
        }
    }
    assert_eq!(blocks.len(), 2);
    assert_eq!(blocks[0].outgoing, vec![l(1)]);
    assert_eq!(blocks[1].outgoing, vec![l(0)]);
}

#[test]
fn split_block_keeps_its_label_and_offset() {
    // 0: nop; 1: nop; 2: ldc.i4.0; 3: brfalse.s -4 -> 1; 5: ret
    let image = [0x00, 0x00, 0x16, 0x2c, 0xfc, 0x2a];
    let blocks = disassemble(&image, 0).unwrap();
    assert_eq!(blocks.len(), 3);
    assert_eq!(blocks[0].offset, 0);
    assert_eq!(insts(&blocks[0]), vec![CilInst::Nop, CilInst::Branch(CilCond::Always, l(1))]);
    assert_eq!(blocks[1].offset, 1);
    assert_eq!(
        insts(&blocks[1]),
        vec![
            CilInst::Nop,
            CilInst::Const(CilConst::I32(0)),
            CilInst::Branch(CilCond::False, l(1)),
            CilInst::Branch(CilCond::Always, l(2)),
        ]
    );
    assert_eq!(blocks[2].offset, 5);
    assert_eq!(insts(&blocks[2]), vec![CilInst::Return]);
}

#[test]
fn block_headers_mark_where_predecessors_lie() {
    // 0: brfalse.s +0 -> 2 (target and fall-through both at 2); 2: br.s -4 -> 0
    let image = [0x2c, 0x00, 0x2b, 0xfc];
    let mut blocks = disassemble(&image, 0).unwrap();
    analyze_arcs(&mut blocks);
    assert_eq!(block_header(&blocks, 0), "label.0: (^ label.1)");
    assert_eq!(block_header(&blocks, 1), "label.1: (v label.0)");
    let image = [0x2c, 0x00, 0x2a];
    let mut blocks = disassemble(&image, 0).unwrap();
    blocks[1].incoming.push(l(0));
    blocks[1].incoming.push(l(1));
    assert_eq!(block_header(&blocks, 1), "label.1: (v label.0, v label.1)");
}
