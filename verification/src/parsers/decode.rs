//! Decoding single CIL instructions from an image (ECMA-335, partition III).
use vstd::prelude::*;

use crate::cil::{CilArith, CilCond, CilConst, CilPrefix, CilSlot, CilToken};

verus! {

/// Why an instruction could not be decoded.
#[derive(Clone, Copy, Debug, PartialEq, Eq)]
pub enum DecodeError {
    /// The opcode lies outside the image.
    InstructionOutOfBounds,
    /// An operand runs past the end of the image.
    ArgumentOutOfBounds,
    /// A one-byte opcode that the decoder does not know.
    UnknownInstruction(u8),
    /// A two-byte opcode `fe XX` that the decoder does not know; the second byte.
    UnknownExtendedInstruction(u8),
}

/// An instruction as it stands in the image; a branch holds its offset, relative to the end of
/// the instruction.
#[derive(Clone, Copy, Debug, PartialEq, Eq)]
pub enum DecodeInst {
    Nop,
    Break,
    Load(CilSlot),
    Store(CilSlot),
    Addr(CilSlot),
    Arith(CilArith),
    Const(CilConst),
    Compare(CilCond),
    Branch(CilCond, i32),
    Return,
    Call(CilToken),
    Prefix(CilPrefix),
}

/// The little-endian unsigned value of the `width` bytes at `p`.
pub open spec fn le_value(image: Seq<u8>, p: int, width: int) -> int
    decreases width,
{
    if width <= 0 {
        0
    } else {
        image[p] + 256 * le_value(image, p + 1, width - 1)
    }
}

/// The unsigned operand of `width` bytes at `p`, if it lies inside the image.
pub open spec fn operand(image: Seq<u8>, p: int, width: int) -> Option<int> {
    if 0 <= p && p + width <= image.len() {
        Some(le_value(image, p, width))
    } else {
        None
    }
}

/// The two's-complement reading of an unsigned value of `bits` bits.
pub open spec fn signed(v: int, bits: nat) -> int {
    if v < vstd::arithmetic::power2::pow2((bits - 1) as nat) {
        v
    } else {
        v - vstd::arithmetic::power2::pow2(bits)
    }
}

/// An instruction with an operand of `width` bytes at `p`, built from the operand by `f`.
pub open spec fn with_operand(
    image: Seq<u8>,
    p: int,
    width: int,
    f: spec_fn(int) -> DecodeInst,
) -> Result<(DecodeInst, int), DecodeError> {
    match operand(image, p, width) {
        Some(v) => Ok((f(v), p + width)),
        None => Err(DecodeError::ArgumentOutOfBounds),
    }
}

pub open spec fn branch_short(image: Seq<u8>, p: int, cond: CilCond) -> Result<
    (DecodeInst, int),
    DecodeError,
> {
    with_operand(image, p, 1, |v: int| DecodeInst::Branch(cond, signed(v, 8) as i32))
}

pub open spec fn branch_long(image: Seq<u8>, p: int, cond: CilCond) -> Result<
    (DecodeInst, int),
    DecodeError,
> {
    with_operand(image, p, 4, |v: int| DecodeInst::Branch(cond, signed(v, 32) as i32))
}

/// The instruction with the two-byte opcode `fe sub`, whose operand starts at `p`.
pub open spec fn spec_decode_extended(image: Seq<u8>, sub: u8, p: int) -> Result<
    (DecodeInst, int),
    DecodeError,
> {
    if sub == 0x01 {
        Ok((DecodeInst::Compare(CilCond::Eq), p))
    } else if sub == 0x02 {
        Ok((DecodeInst::Compare(CilCond::Gt), p))
    } else if sub == 0x03 {
        Ok((DecodeInst::Compare(CilCond::GtUn), p))
    } else if sub == 0x04 {
        Ok((DecodeInst::Compare(CilCond::Lt), p))
    } else if sub == 0x05 {
        Ok((DecodeInst::Compare(CilCond::LtUn), p))
    } else if sub == 0x09 {
        with_operand(image, p, 2, |v: int| DecodeInst::Load(CilSlot::Arg(v as u16)))
    } else if sub == 0x0a {
        with_operand(image, p, 2, |v: int| DecodeInst::Addr(CilSlot::Arg(v as u16)))
    } else if sub == 0x0b {
        with_operand(image, p, 2, |v: int| DecodeInst::Store(CilSlot::Arg(v as u16)))
    } else if sub == 0x0c {
        with_operand(image, p, 2, |v: int| DecodeInst::Load(CilSlot::Loc(v as u16)))
    } else if sub == 0x0d {
        with_operand(image, p, 2, |v: int| DecodeInst::Addr(CilSlot::Loc(v as u16)))
    } else if sub == 0x0e {
        with_operand(image, p, 2, |v: int| DecodeInst::Store(CilSlot::Loc(v as u16)))
    } else if sub == 0x12 {
        Ok((DecodeInst::Prefix(CilPrefix::Unaligned), p))
    } else {
        Err(DecodeError::UnknownExtendedInstruction(sub))
    }
}

/// The instruction with the one-byte opcode `op`, whose operand starts at `p`.
pub open spec fn spec_decode_op(image: Seq<u8>, op: u8, p: int) -> Result<
    (DecodeInst, int),
    DecodeError,
> {
    if op == 0x00 {
        Ok((DecodeInst::Nop, p))
    } else if op == 0x01 {
        Ok((DecodeInst::Break, p))
    } else if 0x02 <= op <= 0x05 {
        Ok((DecodeInst::Load(CilSlot::Arg((op - 0x02) as u16)), p))
    } else if 0x06 <= op <= 0x09 {
        Ok((DecodeInst::Load(CilSlot::Loc((op - 0x06) as u16)), p))
    } else if 0x0a <= op <= 0x0d {
        Ok((DecodeInst::Store(CilSlot::Loc((op - 0x0a) as u16)), p))
    } else if op == 0x0e {
        with_operand(image, p, 1, |v: int| DecodeInst::Load(CilSlot::Arg(v as u16)))
    } else if op == 0x0f {
        with_operand(image, p, 1, |v: int| DecodeInst::Addr(CilSlot::Arg(v as u16)))
    } else if op == 0x10 {
        with_operand(image, p, 1, |v: int| DecodeInst::Store(CilSlot::Arg(v as u16)))
    } else if 0x15 <= op <= 0x1e {
        Ok((DecodeInst::Const(CilConst::I32((op - 0x16) as i32)), p))
    } else if op == 0x1f {
        with_operand(image, p, 1, |v: int| DecodeInst::Const(CilConst::I32(signed(v, 8) as i32)))
    } else if op == 0x20 {
        with_operand(image, p, 4, |v: int| DecodeInst::Const(CilConst::I32(signed(v, 32) as i32)))
    } else if op == 0x21 {
        with_operand(image, p, 8, |v: int| DecodeInst::Const(CilConst::I64(signed(v, 64) as i64)))
    } else if op == 0x22 {
        with_operand(image, p, 4, |v: int| DecodeInst::Const(CilConst::F32(v as u32)))
    } else if op == 0x23 {
        with_operand(image, p, 8, |v: int| DecodeInst::Const(CilConst::F64(v as u64)))
    } else if op == 0x28 {
        with_operand(image, p, 4, |v: int| DecodeInst::Call(CilToken(v as u32)))
    } else if op == 0x2a {
        Ok((DecodeInst::Return, p))
    } else if 0x2b <= op <= 0x37 {
        branch_short(image, p, branch_cond((op - 0x2b) as u8))
    } else if 0x38 <= op <= 0x44 {
        branch_long(image, p, branch_cond((op - 0x38) as u8))
    } else if op == 0x58 {
        Ok((DecodeInst::Arith(CilArith::Add), p))
    } else if op == 0x59 {
        Ok((DecodeInst::Arith(CilArith::Sub), p))
    } else if op == 0x5a {
        Ok((DecodeInst::Arith(CilArith::Mul), p))
    } else if op == 0x5b {
        Ok((DecodeInst::Arith(CilArith::Div), p))
    } else if op == 0xfe {
        match operand(image, p, 1) {
            Some(sub) => spec_decode_extended(image, sub as u8, p + 1),
            None => Err(DecodeError::ArgumentOutOfBounds),
        }
    } else {
        Err(DecodeError::UnknownInstruction(op))
    }
}

/// The condition of the `n`-th branch opcode of each of the two runs (`br.s` to `blt.un.s`,
/// `br` to `blt.un`), which list their conditions in the same order.
pub open spec fn branch_cond(n: u8) -> CilCond {
    if n == 0 {
        CilCond::Always
    } else if n == 1 {
        CilCond::False
    } else if n == 2 {
        CilCond::True
    } else if n == 3 {
        CilCond::Eq
    } else if n == 4 {
        CilCond::Ge
    } else if n == 5 {
        CilCond::Gt
    } else if n == 6 {
        CilCond::Le
    } else if n == 7 {
        CilCond::Lt
    } else if n == 8 {
        CilCond::NeUn
    } else if n == 9 {
        CilCond::GeUn
    } else if n == 10 {
        CilCond::GtUn
    } else if n == 11 {
        CilCond::LeUn
    } else {
        CilCond::LtUn
    }
}

/// The instruction at `pos` of the image, with the position just past it.
#[verifier::opaque]
pub open spec fn spec_decode(image: Seq<u8>, pos: int) -> Result<(DecodeInst, int), DecodeError> {
    if 0 <= pos < image.len() {
        spec_decode_op(image, image[pos], pos + 1)
    } else {
        Err(DecodeError::InstructionOutOfBounds)
    }
}

/// Decoding an instruction moves forward, and stays inside the image.
pub proof fn lemma_decode_advances(image: Seq<u8>, p: int)
    ensures
        spec_decode(image, p) matches Ok((_, e)) ==> 0 <= p < e <= image.len(),
{
    reveal(spec_decode);
}

proof fn lemma_le_value_shift(image: Seq<u8>, pre: Seq<u8>, suf: Seq<u8>, p: int, width: int)
    requires
        0 <= p,
        p + width <= image.len(),
    ensures
        le_value(pre + image + suf, p + pre.len(), width) == le_value(image, p, width),
    decreases width,
{
    if width > 0 {
        assert((pre + image + suf)[p + pre.len()] == image[p]);
        lemma_le_value_shift(image, pre, suf, p + 1, width - 1);
    }
}

proof fn lemma_operand_shift(image: Seq<u8>, pre: Seq<u8>, suf: Seq<u8>, p: int, width: int)
    requires
        0 <= width,
    ensures
        operand(image, p, width) is Some ==> operand(pre + image + suf, p + pre.len(), width)
            == operand(image, p, width),
{
    if operand(image, p, width) is Some {
        lemma_le_value_shift(image, pre, suf, p, width);
    }
}

/// What `spec_decode` gives on an image with bytes added before it: the same instruction, with
/// its end moved by as many bytes.
pub open spec fn shifted(r: Result<(DecodeInst, int), DecodeError>, by: int) -> Result<
    (DecodeInst, int),
    DecodeError,
> {
    match r {
        Ok((d, e)) => Ok((d, e + by)),
        Err(x) => Err(x),
    }
}

/// An instruction depends only on its own bytes: with any bytes added before and after the
/// image, the instruction that the image holds at `pos` is found at the moved position, and ends
/// at the moved end.
pub proof fn law_decode_local(image: Seq<u8>, pre: Seq<u8>, suf: Seq<u8>, pos: int)
    requires
        spec_decode(image, pos) is Ok,
    ensures
        spec_decode(pre + image + suf, pos + pre.len()) == shifted(
            spec_decode(image, pos),
            pre.len() as int,
        ),
{
    reveal(spec_decode);
    let big = pre + image + suf;
    let off = pre.len() as int;
    assert(big[pos + off] == image[pos]);
    let q = pos + 1;
    lemma_operand_shift(image, pre, suf, q, 1);
    lemma_operand_shift(image, pre, suf, q, 2);
    lemma_operand_shift(image, pre, suf, q, 4);
    lemma_operand_shift(image, pre, suf, q, 8);
    lemma_operand_shift(image, pre, suf, q + 1, 2);
    let op = image[pos];
    if op == 0xfe {
        let sub = operand(image, q, 1)->0;
        assert(spec_decode_extended(big, sub as u8, q + off + 1) == shifted(
            spec_decode_extended(image, sub as u8, q + 1),
            off,
        ));
    }
    assert(spec_decode_op(big, op, q + off) == shifted(spec_decode_op(image, op, q), off));
}

/// What a reader of an operand of `width` bytes at `old_pos` returns and leaves in `pos`.
pub open spec fn read_ok<T>(
    image: Seq<u8>,
    old_pos: usize,
    pos: usize,
    width: int,
    r: Result<T, DecodeError>,
    value: spec_fn(T) -> int,
) -> bool {
    match r {
        Ok(v) => operand(image, old_pos as int, width) == Some(value(v)) && pos == old_pos + width,
        Err(e) => operand(image, old_pos as int, width) is None && e
            == DecodeError::ArgumentOutOfBounds && pos == old_pos,
    }
}

fn has_room(inst: &[u8], p: usize, width: usize) -> (b: bool)
    ensures
        b <==> p + width <= inst@.len(),
        inst@.len() <= usize::MAX,
{
    p <= inst.len() && inst.len() - p >= width
}

fn arg_u8(inst: &[u8], pos: &mut usize) -> (r: Result<u8, DecodeError>)
    ensures
        read_ok(inst@, *old(pos), *final(pos), 1, r, |v: u8| v as int),
{
    let p = *pos;
    if !has_room(inst, p, 1) {
        return Err(DecodeError::ArgumentOutOfBounds);
    }
    *pos = p + 1;
    let v = inst[p];
    proof {
        reveal_with_fuel(le_value, 2);
    }
    Ok(v)
}

fn arg_u16(inst: &[u8], pos: &mut usize) -> (r: Result<u16, DecodeError>)
    ensures
        read_ok(inst@, *old(pos), *final(pos), 2, r, |v: u16| v as int),
{
    let p = *pos;
    if !has_room(inst, p, 2) {
        return Err(DecodeError::ArgumentOutOfBounds);
    }
    *pos = p + 2;
    let v: u16 = inst[p] as u16 + 256 * (inst[p + 1] as u16);
    proof {
        reveal_with_fuel(le_value, 3);
    }
    Ok(v)
}

fn arg_u32(inst: &[u8], pos: &mut usize) -> (r: Result<u32, DecodeError>)
    ensures
        read_ok(inst@, *old(pos), *final(pos), 4, r, |v: u32| v as int),
{
    let p = *pos;
    if !has_room(inst, p, 4) {
        return Err(DecodeError::ArgumentOutOfBounds);
    }
    *pos = p + 4;
    let v: u32 = inst[p] as u32 + 256 * (inst[p + 1] as u32 + 256 * (inst[p + 2] as u32 + 256 * (
    inst[p + 3] as u32)));
    proof {
        reveal_with_fuel(le_value, 5);
    }
    Ok(v)
}

fn arg_u64(inst: &[u8], pos: &mut usize) -> (r: Result<u64, DecodeError>)
    ensures
        read_ok(inst@, *old(pos), *final(pos), 8, r, |v: u64| v as int),
{
    let p = *pos;
    if !has_room(inst, p, 8) {
        return Err(DecodeError::ArgumentOutOfBounds);
    }
    *pos = p + 8;
    let v: u64 = inst[p] as u64 + 256 * (inst[p + 1] as u64 + 256 * (inst[p + 2] as u64 + 256 * (
    inst[p + 3] as u64 + 256 * (inst[p + 4] as u64 + 256 * (inst[p + 5] as u64 + 256 * (inst[p
        + 6] as u64 + 256 * (inst[p + 7] as u64)))))));
    proof {
        reveal_with_fuel(le_value, 9);
    }
    Ok(v)
}

/// The bit pattern of a 32-bit floating-point operand.
fn arg_f32(inst: &[u8], pos: &mut usize) -> (r: Result<u32, DecodeError>)
    ensures
        read_ok(inst@, *old(pos), *final(pos), 4, r, |v: u32| v as int),
{
    arg_u32(inst, pos)
}

/// The bit pattern of a 64-bit floating-point operand.
fn arg_f64(inst: &[u8], pos: &mut usize) -> (r: Result<u64, DecodeError>)
    ensures
        read_ok(inst@, *old(pos), *final(pos), 8, r, |v: u64| v as int),
{
    arg_u64(inst, pos)
}

fn arg_i8(inst: &[u8], pos: &mut usize) -> (r: Result<i8, DecodeError>)
    ensures
        r matches Ok(v) ==> v as int == signed(operand(inst@, *old(pos) as int, 1)->0, 8)
            && operand(inst@, *old(pos) as int, 1) is Some && *final(pos) == *old(pos) + 1,
        r matches Err(e) ==> operand(inst@, *old(pos) as int, 1) is None && e
            == DecodeError::ArgumentOutOfBounds && *final(pos) == *old(pos),
{
    let u = arg_u8(inst, pos)?;
    proof {
        vstd::arithmetic::power2::lemma2_to64();
    }
    let v: i8 = if u < 128 {
        u as i8
    } else {
        (u as i16 - 256) as i8
    };
    Ok(v)
}

fn arg_i16(inst: &[u8], pos: &mut usize) -> (r: Result<i16, DecodeError>)
    ensures
        r matches Ok(v) ==> v as int == signed(operand(inst@, *old(pos) as int, 2)->0, 16)
            && operand(inst@, *old(pos) as int, 2) is Some && *final(pos) == *old(pos) + 2,
        r matches Err(e) ==> operand(inst@, *old(pos) as int, 2) is None && e
            == DecodeError::ArgumentOutOfBounds && *final(pos) == *old(pos),
{
    let u = arg_u16(inst, pos)?;
    proof {
        vstd::arithmetic::power2::lemma2_to64();
    }
    let v: i16 = if u < 0x8000 {
        u as i16
    } else {
        (u as i32 - 0x1_0000) as i16
    };
    Ok(v)
}

fn arg_i32(inst: &[u8], pos: &mut usize) -> (r: Result<i32, DecodeError>)
    ensures
        r matches Ok(v) ==> v as int == signed(operand(inst@, *old(pos) as int, 4)->0, 32)
            && operand(inst@, *old(pos) as int, 4) is Some && *final(pos) == *old(pos) + 4,
        r matches Err(e) ==> operand(inst@, *old(pos) as int, 4) is None && e
            == DecodeError::ArgumentOutOfBounds && *final(pos) == *old(pos),
{
    let u = arg_u32(inst, pos)?;
    proof {
        vstd::arithmetic::power2::lemma2_to64();
    }
    let v: i32 = if u < 0x8000_0000 {
        u as i32
    } else {
        (u as i64 - 0x1_0000_0000) as i32
    };
    Ok(v)
}

fn arg_i64(inst: &[u8], pos: &mut usize) -> (r: Result<i64, DecodeError>)
    ensures
        r matches Ok(v) ==> v as int == signed(operand(inst@, *old(pos) as int, 8)->0, 64)
            && operand(inst@, *old(pos) as int, 8) is Some && *final(pos) == *old(pos) + 8,
        r matches Err(e) ==> operand(inst@, *old(pos) as int, 8) is None && e
            == DecodeError::ArgumentOutOfBounds && *final(pos) == *old(pos),
{
    let u = arg_u64(inst, pos)?;
    proof {
        vstd::arithmetic::power2::lemma2_to64();
        vstd::arithmetic::power2::lemma2_to64_rest();
    }
    let v: i64 = if u < 0x8000_0000_0000_0000 {
        u as i64
    } else {
        (u as i128 - 0x1_0000_0000_0000_0000) as i64
    };
    Ok(v)
}

/// The result of `decode` as the specification states it: the position is widened to `int`.
pub open spec fn decode_view(r: Result<(DecodeInst, usize), DecodeError>) -> Result<
    (DecodeInst, int),
    DecodeError,
> {
    match r {
        Ok((inst, end)) => Ok((inst, end as int)),
        Err(e) => Err(e),
    }
}

fn decode_extended(image: &[u8], sub: u8, pos: usize) -> (r: Result<(DecodeInst, usize), DecodeError>)
    requires
        pos <= image@.len(),
    ensures
        decode_view(r) == spec_decode_extended(image@, sub, pos as int),
{
    let mut pos = pos;
    let p = &mut pos;
    let inst = match sub {
        0x01 => DecodeInst::Compare(CilCond::Eq),
        0x02 => DecodeInst::Compare(CilCond::Gt),
        0x03 => DecodeInst::Compare(CilCond::GtUn),
        0x04 => DecodeInst::Compare(CilCond::Lt),
        0x05 => DecodeInst::Compare(CilCond::LtUn),
        0x09 => DecodeInst::Load(CilSlot::Arg(arg_u16(image, p)?)),
        0x0a => DecodeInst::Addr(CilSlot::Arg(arg_u16(image, p)?)),
        0x0b => DecodeInst::Store(CilSlot::Arg(arg_u16(image, p)?)),
        0x0c => DecodeInst::Load(CilSlot::Loc(arg_u16(image, p)?)),
        0x0d => DecodeInst::Addr(CilSlot::Loc(arg_u16(image, p)?)),
        0x0e => DecodeInst::Store(CilSlot::Loc(arg_u16(image, p)?)),
        0x12 => DecodeInst::Prefix(CilPrefix::Unaligned),
        unk => {
            return Err(DecodeError::UnknownExtendedInstruction(unk));
        },
    };
    Ok((inst, pos))
}

/// Decodes the instruction at `pos` of `image`; returns it with the position just past it.
pub fn decode(image: &[u8], pos: usize) -> (r: Result<(DecodeInst, usize), DecodeError>)
    ensures
        decode_view(r) == spec_decode(image@, pos as int),
{
    proof {
        reveal(spec_decode);
    }
    if pos >= image.len() {
        return Err(DecodeError::InstructionOutOfBounds);
    }
    let op = image[pos];
    let mut pos = pos + 1;
    let p = &mut pos;
    proof {
        vstd::arithmetic::power2::lemma2_to64();
        vstd::arithmetic::power2::lemma2_to64_rest();
    }
    let inst = match op {
        0x00 => DecodeInst::Nop,
        0x01 => DecodeInst::Break,
        0x02 => DecodeInst::Load(CilSlot::Arg(0)),
        0x03 => DecodeInst::Load(CilSlot::Arg(1)),
        0x04 => DecodeInst::Load(CilSlot::Arg(2)),
        0x05 => DecodeInst::Load(CilSlot::Arg(3)),
        0x06 => DecodeInst::Load(CilSlot::Loc(0)),
        0x07 => DecodeInst::Load(CilSlot::Loc(1)),
        0x08 => DecodeInst::Load(CilSlot::Loc(2)),
        0x09 => DecodeInst::Load(CilSlot::Loc(3)),
        0x0a => DecodeInst::Store(CilSlot::Loc(0)),
        0x0b => DecodeInst::Store(CilSlot::Loc(1)),
        0x0c => DecodeInst::Store(CilSlot::Loc(2)),
        0x0d => DecodeInst::Store(CilSlot::Loc(3)),
        0x0e => DecodeInst::Load(CilSlot::Arg(arg_u8(image, p)? as u16)),
        0x0f => DecodeInst::Addr(CilSlot::Arg(arg_u8(image, p)? as u16)),
        0x10 => DecodeInst::Store(CilSlot::Arg(arg_u8(image, p)? as u16)),
        0x15 => DecodeInst::Const(CilConst::I32(-1)),
        0x16 => DecodeInst::Const(CilConst::I32(0)),
        0x17 => DecodeInst::Const(CilConst::I32(1)),
        0x18 => DecodeInst::Const(CilConst::I32(2)),
        0x19 => DecodeInst::Const(CilConst::I32(3)),
        0x1a => DecodeInst::Const(CilConst::I32(4)),
        0x1b => DecodeInst::Const(CilConst::I32(5)),
        0x1c => DecodeInst::Const(CilConst::I32(6)),
        0x1d => DecodeInst::Const(CilConst::I32(7)),
        0x1e => DecodeInst::Const(CilConst::I32(8)),
        0x1f => DecodeInst::Const(CilConst::I32(arg_i8(image, p)? as i32)),
        0x20 => DecodeInst::Const(CilConst::I32(arg_i32(image, p)?)),
        0x21 => DecodeInst::Const(CilConst::I64(arg_i64(image, p)?)),
        0x22 => DecodeInst::Const(CilConst::F32(arg_f32(image, p)?)),
        0x23 => DecodeInst::Const(CilConst::F64(arg_f64(image, p)?)),
        0x28 => DecodeInst::Call(CilToken::new(arg_u32(image, p)?)),
        0x2a => DecodeInst::Return,
        0x2b => DecodeInst::Branch(CilCond::Always, arg_i8(image, p)? as i32),
        0x2c => DecodeInst::Branch(CilCond::False, arg_i8(image, p)? as i32),
        0x2d => DecodeInst::Branch(CilCond::True, arg_i8(image, p)? as i32),
        0x2e => DecodeInst::Branch(CilCond::Eq, arg_i8(image, p)? as i32),
        0x2f => DecodeInst::Branch(CilCond::Ge, arg_i8(image, p)? as i32),
        0x30 => DecodeInst::Branch(CilCond::Gt, arg_i8(image, p)? as i32),
        0x31 => DecodeInst::Branch(CilCond::Le, arg_i8(image, p)? as i32),
        0x32 => DecodeInst::Branch(CilCond::Lt, arg_i8(image, p)? as i32),
        0x33 => DecodeInst::Branch(CilCond::NeUn, arg_i8(image, p)? as i32),
        0x34 => DecodeInst::Branch(CilCond::GeUn, arg_i8(image, p)? as i32),
        0x35 => DecodeInst::Branch(CilCond::GtUn, arg_i8(image, p)? as i32),
        0x36 => DecodeInst::Branch(CilCond::LeUn, arg_i8(image, p)? as i32),
        0x37 => DecodeInst::Branch(CilCond::LtUn, arg_i8(image, p)? as i32),
        0x38 => DecodeInst::Branch(CilCond::Always, arg_i32(image, p)?),
        0x39 => DecodeInst::Branch(CilCond::False, arg_i32(image, p)?),
        0x3a => DecodeInst::Branch(CilCond::True, arg_i32(image, p)?),
        0x3b => DecodeInst::Branch(CilCond::Eq, arg_i32(image, p)?),
        0x3c => DecodeInst::Branch(CilCond::Ge, arg_i32(image, p)?),
        0x3d => DecodeInst::Branch(CilCond::Gt, arg_i32(image, p)?),
        0x3e => DecodeInst::Branch(CilCond::Le, arg_i32(image, p)?),
        0x3f => DecodeInst::Branch(CilCond::Lt, arg_i32(image, p)?),
        0x40 => DecodeInst::Branch(CilCond::NeUn, arg_i32(image, p)?),
        0x41 => DecodeInst::Branch(CilCond::GeUn, arg_i32(image, p)?),
        0x42 => DecodeInst::Branch(CilCond::GtUn, arg_i32(image, p)?),
        0x43 => DecodeInst::Branch(CilCond::LeUn, arg_i32(image, p)?),
        0x44 => DecodeInst::Branch(CilCond::LtUn, arg_i32(image, p)?),
        0x58 => DecodeInst::Arith(CilArith::Add),
        0x59 => DecodeInst::Arith(CilArith::Sub),
        0x5a => DecodeInst::Arith(CilArith::Mul),
        0x5b => DecodeInst::Arith(CilArith::Div),
        0xfe => {
            let sub = arg_u8(image, p)?;
            return decode_extended(image, sub, pos);
        },
        unk => {
            return Err(DecodeError::UnknownInstruction(unk));
        },
    };
    Ok((inst, pos))
}

/// The value of a byte read as a two's-complement signed byte.
pub open spec fn byte_signed(v: u8) -> i32 {
    (if v < 128 {
        v as int
    } else {
        v - 256
    }) as i32
}

/// The little-endian value of the four bytes at `p`, read as unsigned.
pub open spec fn le32(image: Seq<u8>, p: int) -> int {
    image[p] + 0x100 * image[p + 1] + 0x1_0000 * image[p + 2] + 0x100_0000 * image[p + 3]
}

/// The little-endian value of the four bytes at `p`, read as two's-complement signed.
pub open spec fn le32_signed(image: Seq<u8>, p: int) -> i32 {
    (if le32(image, p) < 0x8000_0000 {
        le32(image, p)
    } else {
        le32(image, p) - 0x1_0000_0000
    }) as i32
}

/// The opcodes of one byte without operand (ECMA-335, partition III): `nop` (00), `break`
/// (01), `ldarg.0`-`ldarg.3` (02-05), `ldloc.0`-`ldloc.3` (06-09), `stloc.0`-`stloc.3`
/// (0a-0d), `ldc.i4.m1`-`ldc.i4.8` (15-1e), `ret` (2a), `add` (58), `sub` (59), `mul` (5a) and
/// `div` (5b) each decode to their instruction and end one byte later.
pub proof fn law_decode_short_forms(image: Seq<u8>, pos: int)
    requires
        0 <= pos < image.len(),
    ensures
        image[pos] == 0x00 ==> spec_decode(image, pos) == Ok::<(DecodeInst, int), DecodeError>((DecodeInst::Nop, pos + 1)),
        image[pos] == 0x01 ==> spec_decode(image, pos) == Ok::<(DecodeInst, int), DecodeError>((DecodeInst::Break, pos + 1)),
        0x02 <= image[pos] <= 0x05 ==> spec_decode(image, pos) == Ok::<(DecodeInst, int), DecodeError>(
            (DecodeInst::Load(CilSlot::Arg((image[pos] - 0x02) as u16)), pos + 1),
        ),
        0x06 <= image[pos] <= 0x09 ==> spec_decode(image, pos) == Ok::<(DecodeInst, int), DecodeError>(
            (DecodeInst::Load(CilSlot::Loc((image[pos] - 0x06) as u16)), pos + 1),
        ),
        0x0a <= image[pos] <= 0x0d ==> spec_decode(image, pos) == Ok::<(DecodeInst, int), DecodeError>(
            (DecodeInst::Store(CilSlot::Loc((image[pos] - 0x0a) as u16)), pos + 1),
        ),
        0x15 <= image[pos] <= 0x1e ==> spec_decode(image, pos) == Ok::<(DecodeInst, int), DecodeError>(
            (DecodeInst::Const(CilConst::I32((image[pos] - 0x16) as i32)), pos + 1),
        ),
        image[pos] == 0x2a ==> spec_decode(image, pos) == Ok::<(DecodeInst, int), DecodeError>((DecodeInst::Return, pos + 1)),
        image[pos] == 0x58 ==> spec_decode(image, pos) == Ok::<(DecodeInst, int), DecodeError>((DecodeInst::Arith(CilArith::Add), pos + 1)),
        image[pos] == 0x59 ==> spec_decode(image, pos) == Ok::<(DecodeInst, int), DecodeError>((DecodeInst::Arith(CilArith::Sub), pos + 1)),
        image[pos] == 0x5a ==> spec_decode(image, pos) == Ok::<(DecodeInst, int), DecodeError>((DecodeInst::Arith(CilArith::Mul), pos + 1)),
        image[pos] == 0x5b ==> spec_decode(image, pos) == Ok::<(DecodeInst, int), DecodeError>((DecodeInst::Arith(CilArith::Div), pos + 1)),
{
    reveal(spec_decode);
}

/// The opcodes with an operand of one byte: `ldarg.s` (0e), `ldarga.s` (0f) and `starg.s` (10)
/// name the argument of that number, `ldc.i4.s` (1f) loads the byte read as signed; each ends
/// two bytes later.
pub proof fn law_decode_byte_operands(image: Seq<u8>, pos: int)
    requires
        0 <= pos,
        pos + 1 < image.len(),
    ensures
        image[pos] == 0x0e ==> spec_decode(image, pos) == Ok::<(DecodeInst, int), DecodeError>(
            (DecodeInst::Load(CilSlot::Arg(image[pos + 1] as u16)), pos + 2),
        ),
        image[pos] == 0x0f ==> spec_decode(image, pos) == Ok::<(DecodeInst, int), DecodeError>(
            (DecodeInst::Addr(CilSlot::Arg(image[pos + 1] as u16)), pos + 2),
        ),
        image[pos] == 0x10 ==> spec_decode(image, pos) == Ok::<(DecodeInst, int), DecodeError>(
            (DecodeInst::Store(CilSlot::Arg(image[pos + 1] as u16)), pos + 2),
        ),
        image[pos] == 0x1f ==> spec_decode(image, pos) == Ok::<(DecodeInst, int), DecodeError>(
            (DecodeInst::Const(CilConst::I32(byte_signed(image[pos + 1]))), pos + 2),
        ),
{
    reveal(spec_decode);
    reveal_with_fuel(le_value, 2);
    vstd::arithmetic::power2::lemma2_to64();
}

/// The short branches `br.s`, `brfalse.s`, `brtrue.s`, `beq.s`, `bge.s`, `bgt.s`, `ble.s`,
/// `blt.s`, `bne.un.s`, `bge.un.s`, `bgt.un.s`, `ble.un.s`, `blt.un.s` (2b-37) branch under
/// their condition by their operand byte read as signed, and end two bytes later.
pub proof fn law_decode_short_branches(image: Seq<u8>, pos: int)
    requires
        0 <= pos,
        pos + 1 < image.len(),
    ensures
        image[pos] == 0x2b ==> spec_decode(image, pos) == Ok::<(DecodeInst, int), DecodeError>(
            (DecodeInst::Branch(CilCond::Always, byte_signed(image[pos + 1])), pos + 2),
        ),
        image[pos] == 0x2c ==> spec_decode(image, pos) == Ok::<(DecodeInst, int), DecodeError>(
            (DecodeInst::Branch(CilCond::False, byte_signed(image[pos + 1])), pos + 2),
        ),
        image[pos] == 0x2d ==> spec_decode(image, pos) == Ok::<(DecodeInst, int), DecodeError>(
            (DecodeInst::Branch(CilCond::True, byte_signed(image[pos + 1])), pos + 2),
        ),
        image[pos] == 0x2e ==> spec_decode(image, pos) == Ok::<(DecodeInst, int), DecodeError>(
            (DecodeInst::Branch(CilCond::Eq, byte_signed(image[pos + 1])), pos + 2),
        ),
        image[pos] == 0x2f ==> spec_decode(image, pos) == Ok::<(DecodeInst, int), DecodeError>(
            (DecodeInst::Branch(CilCond::Ge, byte_signed(image[pos + 1])), pos + 2),
        ),
        image[pos] == 0x30 ==> spec_decode(image, pos) == Ok::<(DecodeInst, int), DecodeError>(
            (DecodeInst::Branch(CilCond::Gt, byte_signed(image[pos + 1])), pos + 2),
        ),
        image[pos] == 0x31 ==> spec_decode(image, pos) == Ok::<(DecodeInst, int), DecodeError>(
            (DecodeInst::Branch(CilCond::Le, byte_signed(image[pos + 1])), pos + 2),
        ),
        image[pos] == 0x32 ==> spec_decode(image, pos) == Ok::<(DecodeInst, int), DecodeError>(
            (DecodeInst::Branch(CilCond::Lt, byte_signed(image[pos + 1])), pos + 2),
        ),
        image[pos] == 0x33 ==> spec_decode(image, pos) == Ok::<(DecodeInst, int), DecodeError>(
            (DecodeInst::Branch(CilCond::NeUn, byte_signed(image[pos + 1])), pos + 2),
        ),
        image[pos] == 0x34 ==> spec_decode(image, pos) == Ok::<(DecodeInst, int), DecodeError>(
            (DecodeInst::Branch(CilCond::GeUn, byte_signed(image[pos + 1])), pos + 2),
        ),
        image[pos] == 0x35 ==> spec_decode(image, pos) == Ok::<(DecodeInst, int), DecodeError>(
            (DecodeInst::Branch(CilCond::GtUn, byte_signed(image[pos + 1])), pos + 2),
        ),
        image[pos] == 0x36 ==> spec_decode(image, pos) == Ok::<(DecodeInst, int), DecodeError>(
            (DecodeInst::Branch(CilCond::LeUn, byte_signed(image[pos + 1])), pos + 2),
        ),
        image[pos] == 0x37 ==> spec_decode(image, pos) == Ok::<(DecodeInst, int), DecodeError>(
            (DecodeInst::Branch(CilCond::LtUn, byte_signed(image[pos + 1])), pos + 2),
        ),
{
    reveal(spec_decode);
    reveal_with_fuel(le_value, 2);
    vstd::arithmetic::power2::lemma2_to64();
}

/// The long branches `br`, `brfalse`, `brtrue`, `beq`, `bge`, `bgt`, `ble`, `blt`, `bne.un`,
/// `bge.un`, `bgt.un`, `ble.un`, `blt.un` (38-44) branch under their condition by their
/// little-endian operand of four bytes read as signed, and end five bytes later.
pub proof fn law_decode_long_branches(image: Seq<u8>, pos: int)
    requires
        0 <= pos,
        pos + 4 < image.len(),
    ensures
        image[pos] == 0x38 ==> spec_decode(image, pos) == Ok::<(DecodeInst, int), DecodeError>(
            (DecodeInst::Branch(CilCond::Always, le32_signed(image, pos + 1)), pos + 5),
        ),
        image[pos] == 0x39 ==> spec_decode(image, pos) == Ok::<(DecodeInst, int), DecodeError>(
            (DecodeInst::Branch(CilCond::False, le32_signed(image, pos + 1)), pos + 5),
        ),
        image[pos] == 0x3a ==> spec_decode(image, pos) == Ok::<(DecodeInst, int), DecodeError>(
            (DecodeInst::Branch(CilCond::True, le32_signed(image, pos + 1)), pos + 5),
        ),
        image[pos] == 0x3b ==> spec_decode(image, pos) == Ok::<(DecodeInst, int), DecodeError>(
            (DecodeInst::Branch(CilCond::Eq, le32_signed(image, pos + 1)), pos + 5),
        ),
        image[pos] == 0x3c ==> spec_decode(image, pos) == Ok::<(DecodeInst, int), DecodeError>(
            (DecodeInst::Branch(CilCond::Ge, le32_signed(image, pos + 1)), pos + 5),
        ),
        image[pos] == 0x3d ==> spec_decode(image, pos) == Ok::<(DecodeInst, int), DecodeError>(
            (DecodeInst::Branch(CilCond::Gt, le32_signed(image, pos + 1)), pos + 5),
        ),
        image[pos] == 0x3e ==> spec_decode(image, pos) == Ok::<(DecodeInst, int), DecodeError>(
            (DecodeInst::Branch(CilCond::Le, le32_signed(image, pos + 1)), pos + 5),
        ),
        image[pos] == 0x3f ==> spec_decode(image, pos) == Ok::<(DecodeInst, int), DecodeError>(
            (DecodeInst::Branch(CilCond::Lt, le32_signed(image, pos + 1)), pos + 5),
        ),
        image[pos] == 0x40 ==> spec_decode(image, pos) == Ok::<(DecodeInst, int), DecodeError>(
            (DecodeInst::Branch(CilCond::NeUn, le32_signed(image, pos + 1)), pos + 5),
        ),
        image[pos] == 0x41 ==> spec_decode(image, pos) == Ok::<(DecodeInst, int), DecodeError>(
            (DecodeInst::Branch(CilCond::GeUn, le32_signed(image, pos + 1)), pos + 5),
        ),
        image[pos] == 0x42 ==> spec_decode(image, pos) == Ok::<(DecodeInst, int), DecodeError>(
            (DecodeInst::Branch(CilCond::GtUn, le32_signed(image, pos + 1)), pos + 5),
        ),
        image[pos] == 0x43 ==> spec_decode(image, pos) == Ok::<(DecodeInst, int), DecodeError>(
            (DecodeInst::Branch(CilCond::LeUn, le32_signed(image, pos + 1)), pos + 5),
        ),
        image[pos] == 0x44 ==> spec_decode(image, pos) == Ok::<(DecodeInst, int), DecodeError>(
            (DecodeInst::Branch(CilCond::LtUn, le32_signed(image, pos + 1)), pos + 5),
        ),
{
    reveal(spec_decode);
    reveal_with_fuel(le_value, 5);
    vstd::arithmetic::power2::lemma2_to64();
}

/// `ldc.i4` (20) loads its little-endian operand of four bytes read as signed, `ldc.r4` (22)
/// holds it as the bits of a float, and `call` (28) calls the method whose token it is; each
/// ends five bytes later.
pub proof fn law_decode_word_operands(image: Seq<u8>, pos: int)
    requires
        0 <= pos,
        pos + 4 < image.len(),
    ensures
        image[pos] == 0x20 ==> spec_decode(image, pos) == Ok::<(DecodeInst, int), DecodeError>(
            (DecodeInst::Const(CilConst::I32(le32_signed(image, pos + 1))), pos + 5),
        ),
        image[pos] == 0x22 ==> spec_decode(image, pos) == Ok::<(DecodeInst, int), DecodeError>(
            (DecodeInst::Const(CilConst::F32(le32(image, pos + 1) as u32)), pos + 5),
        ),
        image[pos] == 0x28 ==> spec_decode(image, pos) == Ok::<(DecodeInst, int), DecodeError>(
            (DecodeInst::Call(CilToken(le32(image, pos + 1) as u32)), pos + 5),
        ),
{
    reveal(spec_decode);
    reveal_with_fuel(le_value, 5);
    vstd::arithmetic::power2::lemma2_to64();
}

/// The two-byte opcodes `fe XX`: `ceq`, `cgt`, `cgt.un`, `clt`, `clt.un` (01-05) compare and
/// `unaligned.` (12) is a prefix, each ending two bytes later; `ldarg`, `ldarga`, `starg`,
/// `ldloc`, `ldloca`, `stloc` (09-0e) name the slot of their little-endian operand of two bytes
/// and end four bytes later.
pub proof fn law_decode_extended(image: Seq<u8>, pos: int)
    requires
        0 <= pos,
        pos + 1 < image.len(),
        image[pos] == 0xfe,
    ensures
        image[pos + 1] == 0x01 ==> spec_decode(image, pos) == Ok::<(DecodeInst, int), DecodeError>((DecodeInst::Compare(CilCond::Eq), pos + 2)),
        image[pos + 1] == 0x02 ==> spec_decode(image, pos) == Ok::<(DecodeInst, int), DecodeError>((DecodeInst::Compare(CilCond::Gt), pos + 2)),
        image[pos + 1] == 0x03 ==> spec_decode(image, pos) == Ok::<(DecodeInst, int), DecodeError>((DecodeInst::Compare(CilCond::GtUn), pos + 2)),
        image[pos + 1] == 0x04 ==> spec_decode(image, pos) == Ok::<(DecodeInst, int), DecodeError>((DecodeInst::Compare(CilCond::Lt), pos + 2)),
        image[pos + 1] == 0x05 ==> spec_decode(image, pos) == Ok::<(DecodeInst, int), DecodeError>((DecodeInst::Compare(CilCond::LtUn), pos + 2)),
        image[pos + 1] == 0x12 ==> spec_decode(image, pos) == Ok::<(DecodeInst, int), DecodeError>((DecodeInst::Prefix(CilPrefix::Unaligned), pos + 2)),
        pos + 3 < image.len() && image[pos + 1] == 0x09 ==> spec_decode(image, pos) == Ok::<(DecodeInst, int), DecodeError>(
            (DecodeInst::Load(CilSlot::Arg((image[pos + 2] + 0x100 * image[pos + 3]) as u16)), pos + 4),
        ),
        pos + 3 < image.len() && image[pos + 1] == 0x0a ==> spec_decode(image, pos) == Ok::<(DecodeInst, int), DecodeError>(
            (DecodeInst::Addr(CilSlot::Arg((image[pos + 2] + 0x100 * image[pos + 3]) as u16)), pos + 4),
        ),
        pos + 3 < image.len() && image[pos + 1] == 0x0b ==> spec_decode(image, pos) == Ok::<(DecodeInst, int), DecodeError>(
            (DecodeInst::Store(CilSlot::Arg((image[pos + 2] + 0x100 * image[pos + 3]) as u16)), pos + 4),
        ),
        pos + 3 < image.len() && image[pos + 1] == 0x0c ==> spec_decode(image, pos) == Ok::<(DecodeInst, int), DecodeError>(
            (DecodeInst::Load(CilSlot::Loc((image[pos + 2] + 0x100 * image[pos + 3]) as u16)), pos + 4),
        ),
        pos + 3 < image.len() && image[pos + 1] == 0x0d ==> spec_decode(image, pos) == Ok::<(DecodeInst, int), DecodeError>(
            (DecodeInst::Addr(CilSlot::Loc((image[pos + 2] + 0x100 * image[pos + 3]) as u16)), pos + 4),
        ),
        pos + 3 < image.len() && image[pos + 1] == 0x0e ==> spec_decode(image, pos) == Ok::<(DecodeInst, int), DecodeError>(
            (DecodeInst::Store(CilSlot::Loc((image[pos + 2] + 0x100 * image[pos + 3]) as u16)), pos + 4),
        ),
{
    reveal(spec_decode);
    reveal_with_fuel(le_value, 3);
}

/// `ldc.i8` (21) loads its little-endian operand of eight bytes read as signed, and `ldc.r8`
/// (23) holds it as the bits of a float; both end nine bytes later.
pub proof fn law_decode_long_operands(image: Seq<u8>, pos: int)
    requires
        0 <= pos,
        pos + 8 < image.len(),
    ensures
        image[pos] == 0x21 ==> spec_decode(image, pos) == Ok::<(DecodeInst, int), DecodeError>(
            (DecodeInst::Const(CilConst::I64((if le_value(image, pos + 1, 8) < 0x8000_0000_0000_0000 {
                le_value(image, pos + 1, 8)
            } else {
                le_value(image, pos + 1, 8) - 0x1_0000_0000_0000_0000
            }) as i64)), pos + 9),
        ),
        image[pos] == 0x23 ==> spec_decode(image, pos) == Ok::<(DecodeInst, int), DecodeError>(
            (DecodeInst::Const(CilConst::F64(le_value(image, pos + 1, 8) as u64)), pos + 9),
        ),
{
    reveal(spec_decode);
    vstd::arithmetic::power2::lemma2_to64();
    vstd::arithmetic::power2::lemma2_to64_rest();
}

/// Where decoding fails: outside the image; on a byte that is no opcode of the decoder (one of
/// 11-14, 24-27, 29, 45-57, 5c-fd, ff); on an operand that runs past the end of the image; and
/// on a second byte after `fe` that is none of 01-05, 09-0e, 12.
pub proof fn law_decode_errors(image: Seq<u8>, pos: int)
    ensures
        !(0 <= pos < image.len()) ==> spec_decode(image, pos) == Err::<(DecodeInst, int), DecodeError>(
            DecodeError::InstructionOutOfBounds,
        ),
        0 <= pos < image.len() && ((0x11 <= image[pos] <= 0x14) || (0x24 <= image[pos] <= 0x27)
            || image[pos] == 0x29 || (0x45 <= image[pos] <= 0x57) || (0x5c <= image[pos] <= 0xfd)
            || image[pos] == 0xff) ==> spec_decode(image, pos) == Err::<(DecodeInst, int), DecodeError>(
            DecodeError::UnknownInstruction(image[pos]),
        ),
        0 <= pos < image.len() && pos + 2 > image.len() && ((0x0e <= image[pos] <= 0x10)
            || image[pos] == 0x1f || (0x2b <= image[pos] <= 0x37) || image[pos] == 0xfe) ==> spec_decode(image, pos)
            == Err::<(DecodeInst, int), DecodeError>(DecodeError::ArgumentOutOfBounds),
        0 <= pos < image.len() && pos + 5 > image.len() && (image[pos] == 0x20 || image[pos]
            == 0x22 || image[pos] == 0x28 || (0x38 <= image[pos] <= 0x44)) ==> spec_decode(image, pos) == Err::<
            (DecodeInst, int),
            DecodeError,
        >(DecodeError::ArgumentOutOfBounds),
        0 <= pos < image.len() && pos + 9 > image.len() && (image[pos] == 0x21 || image[pos]
            == 0x23) ==> spec_decode(image, pos) == Err::<(DecodeInst, int), DecodeError>(
            DecodeError::ArgumentOutOfBounds,
        ),
        0 <= pos && pos + 2 <= image.len() && image[pos] == 0xfe && !((0x01 <= image[pos + 1]
            <= 0x05) || (0x09 <= image[pos + 1] <= 0x0e) || image[pos + 1] == 0x12) ==> spec_decode(image, pos) == Err::<
            (DecodeInst, int),
            DecodeError,
        >(DecodeError::UnknownExtendedInstruction(image[pos + 1])),
        0 <= pos && pos + 2 <= image.len() && pos + 4 > image.len() && image[pos] == 0xfe && 0x09
            <= image[pos + 1] <= 0x0e ==> spec_decode(image, pos) == Err::<(DecodeInst, int), DecodeError>(
            DecodeError::ArgumentOutOfBounds,
        ),
{
    reveal(spec_decode);
    reveal_with_fuel(le_value, 2);
}

} // verus!
