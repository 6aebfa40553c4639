//! Text of the IR: how labels, slots, tokens and instructions are written out.
use vstd::prelude::*;

use crate::cil::{
    token_kind, CilArith, CilBlock, CilCond, CilConst, CilInst, CilLabel, CilPrefix, CilSlot, CilToken,
    CilTokenKind,
};

verus! {

/// The character of a decimal digit.
pub open spec fn dec_digit(d: int) -> char {
    (48 + d) as char
}

/// The character of a lowercase hexadecimal digit.
pub open spec fn hex_digit(d: int) -> char {
    if d < 10 {
        (48 + d) as char
    } else {
        (87 + d) as char
    }
}

/// The decimal numeral of a natural number, without leading zeros.
pub open spec fn dec_nat(n: nat) -> Seq<char>
    decreases n,
{
    if n < 10 {
        seq![dec_digit(n as int)]
    } else {
        dec_nat(n / 10).push(dec_digit(n as int % 10))
    }
}

/// The decimal numeral of an integer, with a minus sign when it is negative.
pub open spec fn dec_int(i: int) -> Seq<char> {
    if i < 0 {
        seq!['-'] + dec_nat((-i) as nat)
    } else {
        dec_nat(i as nat)
    }
}

/// A byte as two lowercase hexadecimal digits.
pub open spec fn hex2(v: u8) -> Seq<char> {
    seq![hex_digit(v as int / 16), hex_digit(v as int % 16)]
}

fn digit_str(d: u64) -> (s: &'static str)
    requires
        d < 16,
    ensures
        s@ == seq![hex_digit(d as int)],
        d < 10 ==> s@ == seq![dec_digit(d as int)],
{
    proof {
        reveal_strlit("0");
        reveal_strlit("1");
        reveal_strlit("2");
        reveal_strlit("3");
        reveal_strlit("4");
        reveal_strlit("5");
        reveal_strlit("6");
        reveal_strlit("7");
        reveal_strlit("8");
        reveal_strlit("9");
        reveal_strlit("a");
        reveal_strlit("b");
        reveal_strlit("c");
        reveal_strlit("d");
        reveal_strlit("e");
        reveal_strlit("f");
    }
    match d {
        0 => "0",
        1 => "1",
        2 => "2",
        3 => "3",
        4 => "4",
        5 => "5",
        6 => "6",
        7 => "7",
        8 => "8",
        9 => "9",
        10 => "a",
        11 => "b",
        12 => "c",
        13 => "d",
        14 => "e",
        _ => "f",
    }
}

/// Appends the decimal numeral of `n`.
fn push_dec(s: &mut String, n: u64)
    ensures
        final(s)@ == old(s)@ + dec_nat(n as nat),
    decreases n,
{
    if n >= 10 {
        push_dec(s, n / 10);
    }
    s.append(digit_str(n % 10));
}

/// Appends the decimal numeral of `i`.
fn push_dec_signed(s: &mut String, i: i64)
    ensures
        final(s)@ == old(s)@ + dec_int(i as int),
{
    if i < 0 {
        proof {
            reveal_strlit("-");
        }
        s.append("-");
        let m: u64 = (-(i + 1)) as u64 + 1;
        push_dec(s, m);
        assert(final(s)@ =~= old(s)@ + dec_int(i as int));
    } else {
        push_dec(s, i as u64);
    }
}

/// Appends the two lowercase hexadecimal digits of `v`.
fn push_hex2(s: &mut String, v: u8)
    ensures
        final(s)@ == old(s)@ + hex2(v),
{
    s.append(digit_str((v / 16) as u64));
    s.append(digit_str((v % 16) as u64));
    assert(final(s)@ =~= old(s)@ + hex2(v));
}

pub open spec fn slot_text(slot: CilSlot) -> Seq<char> {
    match slot {
        CilSlot::Arg(n) => "arg."@ + dec_nat(n as nat),
        CilSlot::Loc(n) => "loc."@ + dec_nat(n as nat),
    }
}

pub open spec fn label_text(label: CilLabel) -> Seq<char> {
    "label."@ + dec_nat(label.spec_index() as nat)
}

pub open spec fn arith_text(op: CilArith) -> Seq<char> {
    match op {
        CilArith::Add => "add"@,
        CilArith::Mul => "mul"@,
        CilArith::Sub => "sub"@,
        CilArith::Div => "div"@,
        CilArith::Mod => "mod"@,
    }
}

pub open spec fn cond_text(cond: CilCond) -> Seq<char> {
    match cond {
        CilCond::Always => "always"@,
        CilCond::Eq => "eq"@,
        CilCond::Ge => "ge"@,
        CilCond::Gt => "gt"@,
        CilCond::Le => "le"@,
        CilCond::Lt => "lt"@,
        CilCond::NeUn => "ne.un"@,
        CilCond::GeUn => "ge.un"@,
        CilCond::GtUn => "gt.un"@,
        CilCond::LeUn => "le.un"@,
        CilCond::LtUn => "lt.un"@,
        CilCond::False => "false"@,
        CilCond::True => "true"@,
    }
}

pub open spec fn token_kind_text(kind: CilTokenKind) -> Seq<char> {
    match kind {
        CilTokenKind::Unknown(v) => "unk_"@ + hex2(v),
        CilTokenKind::Assembly => "assembly"@,
        CilTokenKind::MethodDef => "methoddef"@,
        CilTokenKind::MethodSpec => "methodspec"@,
        CilTokenKind::MemberRef => "memberref"@,
    }
}

pub open spec fn token_text(token: CilToken) -> Seq<char> {
    token_kind_text(token_kind(token.0)) + "("@ + dec_nat((token.0 as int % 0x100_0000) as nat)
        + ")"@
}

/// The text of a constant; that of a floating-point constant ends in `float_text`, the decimal
/// rendering of its value.
pub open spec fn const_text(c: CilConst, float_text: Seq<char>) -> Seq<char> {
    match c {
        CilConst::I32(v) => "i32:"@ + dec_int(v as int),
        CilConst::I64(v) => "i64:"@ + dec_int(v as int),
        CilConst::F32(_) => "f32:"@ + float_text,
        CilConst::F64(_) => "f64:"@ + float_text,
    }
}

pub open spec fn prefix_text(p: CilPrefix) -> Seq<char> {
    match p {
        CilPrefix::Unaligned => "unaligned"@,
        CilPrefix::Volatile => "volatile"@,
    }
}

pub open spec fn inst_text(inst: CilInst, float_text: Seq<char>) -> Seq<char> {
    match inst {
        CilInst::Nop => "nop"@,
        CilInst::Break => "break"@,
        CilInst::Load(slot) => "load "@ + slot_text(slot),
        CilInst::Addr(slot) => "addr "@ + slot_text(slot),
        CilInst::Store(slot) => "store "@ + slot_text(slot),
        CilInst::Arith(op) => "arith."@ + arith_text(op),
        CilInst::Const(c) => "const "@ + const_text(c, float_text),
        CilInst::Call(token) => "call "@ + token_text(token),
        CilInst::Compare(cond) => "compare."@ + cond_text(cond),
        CilInst::Branch(cond, label) => "branch."@ + cond_text(cond) + " "@ + label_text(label),
        CilInst::Prefix(p) => "prefix."@ + prefix_text(p),
        CilInst::Return => "return"@,
    }
}

fn append_slot(s: &mut String, slot: CilSlot)
    ensures
        final(s)@ == old(s)@ + slot_text(slot),
{
    match slot {
        CilSlot::Arg(n) => {
            s.append("arg.");
            push_dec(s, n as u64);
        },
        CilSlot::Loc(n) => {
            s.append("loc.");
            push_dec(s, n as u64);
        },
    }
    assert(final(s)@ =~= old(s)@ + slot_text(slot));
}

fn append_label(s: &mut String, label: CilLabel)
    ensures
        final(s)@ == old(s)@ + label_text(label),
{
    s.append("label.");
    push_dec(s, label.index() as u64);
    assert(final(s)@ =~= old(s)@ + label_text(label));
}

fn arith_str(op: CilArith) -> (t: &'static str)
    ensures
        t@ == arith_text(op),
{
    match op {
        CilArith::Add => "add",
        CilArith::Mul => "mul",
        CilArith::Sub => "sub",
        CilArith::Div => "div",
        CilArith::Mod => "mod",
    }
}

fn cond_str(cond: CilCond) -> (t: &'static str)
    ensures
        t@ == cond_text(cond),
{
    match cond {
        CilCond::Always => "always",
        CilCond::Eq => "eq",
        CilCond::Ge => "ge",
        CilCond::Gt => "gt",
        CilCond::Le => "le",
        CilCond::Lt => "lt",
        CilCond::NeUn => "ne.un",
        CilCond::GeUn => "ge.un",
        CilCond::GtUn => "gt.un",
        CilCond::LeUn => "le.un",
        CilCond::LtUn => "lt.un",
        CilCond::False => "false",
        CilCond::True => "true",
    }
}

fn prefix_str(p: CilPrefix) -> (t: &'static str)
    ensures
        t@ == prefix_text(p),
{
    match p {
        CilPrefix::Unaligned => "unaligned",
        CilPrefix::Volatile => "volatile",
    }
}

fn append_token_kind(s: &mut String, kind: CilTokenKind)
    ensures
        final(s)@ == old(s)@ + token_kind_text(kind),
{
    match kind {
        CilTokenKind::Unknown(v) => {
            s.append("unk_");
            push_hex2(s, v);
        },
        CilTokenKind::Assembly => s.append("assembly"),
        CilTokenKind::MethodDef => s.append("methoddef"),
        CilTokenKind::MethodSpec => s.append("methodspec"),
        CilTokenKind::MemberRef => s.append("memberref"),
    }
    assert(final(s)@ =~= old(s)@ + token_kind_text(kind));
}

fn append_token(s: &mut String, token: CilToken)
    ensures
        final(s)@ == old(s)@ + token_text(token),
{
    append_token_kind(s, token.kind());
    s.append("(");
    push_dec(s, token.index() as u64);
    s.append(")");
    assert(final(s)@ =~= old(s)@ + token_text(token));
}

fn append_const(s: &mut String, c: CilConst, float_text: &str)
    ensures
        final(s)@ == old(s)@ + const_text(c, float_text@),
{
    match c {
        CilConst::I32(v) => {
            s.append("i32:");
            push_dec_signed(s, v as i64);
        },
        CilConst::I64(v) => {
            s.append("i64:");
            push_dec_signed(s, v);
        },
        CilConst::F32(_) => {
            s.append("f32:");
            s.append(float_text);
        },
        CilConst::F64(_) => {
            s.append("f64:");
            s.append(float_text);
        },
    }
    assert(final(s)@ =~= old(s)@ + const_text(c, float_text@));
}

impl CilSlot {
    /// `arg.N` or `loc.N`.
    pub fn to_string(&self) -> (t: String)
        ensures
            t@ == slot_text(*self),
    {
        let mut s = String::new();
        append_slot(&mut s, *self);
        assert(s@ =~= slot_text(*self));
        s
    }
}

impl CilLabel {
    /// `label.N`.
    pub fn to_string(&self) -> (t: String)
        ensures
            t@ == label_text(*self),
    {
        let mut s = String::new();
        append_label(&mut s, *self);
        assert(s@ =~= label_text(*self));
        s
    }
}

impl CilArith {
    pub fn to_string(&self) -> (t: String)
        ensures
            t@ == arith_text(*self),
    {
        String::from_str(arith_str(*self))
    }
}

impl CilCond {
    pub fn to_string(&self) -> (t: String)
        ensures
            t@ == cond_text(*self),
    {
        String::from_str(cond_str(*self))
    }
}

impl CilTokenKind {
    /// The table's name; `unk_XX` with the table's number in hexadecimal for another table.
    pub fn to_string(&self) -> (t: String)
        ensures
            t@ == token_kind_text(*self),
    {
        let mut s = String::new();
        append_token_kind(&mut s, *self);
        assert(s@ =~= token_kind_text(*self));
        s
    }
}

impl CilToken {
    /// `kind(row)`.
    pub fn to_string(&self) -> (t: String)
        ensures
            t@ == token_text(*self),
    {
        let mut s = String::new();
        append_token(&mut s, *self);
        assert(s@ =~= token_text(*self));
        s
    }
}

impl CilConst {
    /// `i32:V`, `i64:V`, `f32:V` or `f64:V`; the value of a floating-point constant is
    /// written as `float_text`.
    pub fn to_string_with_float(&self, float_text: &str) -> (t: String)
        ensures
            t@ == const_text(*self, float_text@),
    {
        let mut s = String::new();
        append_const(&mut s, *self, float_text);
        assert(s@ =~= const_text(*self, float_text@));
        s
    }
}

impl CilPrefix {
    pub fn to_string(&self) -> (t: String)
        ensures
            t@ == prefix_text(*self),
    {
        String::from_str(prefix_str(*self))
    }
}

impl CilInst {
    /// The instruction's text; the value of a floating-point constant is written as
    /// `float_text`.
    pub fn to_string_with_float(&self, float_text: &str) -> (t: String)
        ensures
            t@ == inst_text(*self, float_text@),
    {
        let mut s = String::new();
        match *self {
            CilInst::Nop => s.append("nop"),
            CilInst::Break => s.append("break"),
            CilInst::Load(slot) => {
                s.append("load ");
                append_slot(&mut s, slot);
            },
            CilInst::Addr(slot) => {
                s.append("addr ");
                append_slot(&mut s, slot);
            },
            CilInst::Store(slot) => {
                s.append("store ");
                append_slot(&mut s, slot);
            },
            CilInst::Arith(op) => {
                s.append("arith.");
                s.append(arith_str(op));
            },
            CilInst::Const(c) => {
                s.append("const ");
                append_const(&mut s, c, float_text);
            },
            CilInst::Call(token) => {
                s.append("call ");
                append_token(&mut s, token);
            },
            CilInst::Compare(cond) => {
                s.append("compare.");
                s.append(cond_str(cond));
            },
            CilInst::Branch(cond, label) => {
                s.append("branch.");
                s.append(cond_str(cond));
                s.append(" ");
                append_label(&mut s, label);
            },
            CilInst::Prefix(p) => {
                s.append("prefix.");
                s.append(prefix_str(p));
            },
            CilInst::Return => s.append("return"),
        }
        assert(s@ =~= inst_text(*self, float_text@));
        s
    }
}

/// A predecessor `src` of `block`, marked `^` when it begins after `block` and `v` otherwise.
pub open spec fn arc_text(blocks: Seq<CilBlock>, block: CilBlock, src: CilLabel) -> Seq<char> {
    (if blocks[src.spec_index()].offset > block.offset {
        "^ "@
    } else {
        "v "@
    }) + label_text(src)
}

/// The predecessors `srcs` of `block`, each as `arc_text` writes it, separated by `, `.
pub open spec fn arcs_text(blocks: Seq<CilBlock>, block: CilBlock, srcs: Seq<CilLabel>) -> Seq<char>
    decreases srcs.len(),
{
    if srcs.len() == 0 {
        seq![]
    } else if srcs.len() == 1 {
        arc_text(blocks, block, srcs[0])
    } else {
        arcs_text(blocks, block, srcs.drop_last()) + ", "@ + arc_text(blocks, block, srcs.last())
    }
}

/// The heading of block `i`: its label, then its predecessors in brackets.
pub open spec fn block_header_text(blocks: Seq<CilBlock>, i: int) -> Seq<char> {
    label_text(blocks[i].label) + ": ("@ + arcs_text(blocks, blocks[i], blocks[i].incoming@) + ")"@
}

/// The heading of block `i` of `blocks` (see `block_header_text`).
pub fn block_header(blocks: &Vec<CilBlock>, i: usize) -> (t: String)
    requires
        i < blocks@.len(),
        forall|k: int|
            0 <= k < blocks@[i as int].incoming@.len() ==> (#[trigger] blocks@[i as int].incoming@[k]).spec_index()
                < blocks@.len(),
    ensures
        t@ == block_header_text(blocks@, i as int),
{
    proof {
        reveal_strlit(": (");
        reveal_strlit(", ");
        reveal_strlit("^ ");
        reveal_strlit("v ");
        reveal_strlit(")");
    }
    let block = &blocks[i];
    let mut s = String::new();
    append_label(&mut s, block.label);
    s.append(": (");
    let ghost head = label_text(block.label) + ": ("@;
    let n = block.incoming.len();
    for k in 0..n
        invariant
            n == block.incoming@.len(),
            *block == blocks@[i as int],
            i < blocks@.len(),
            forall|j: int|
                0 <= j < block.incoming@.len() ==> (#[trigger] block.incoming@[j]).spec_index() < blocks@.len(),
            s@ == head + arcs_text(blocks@, *block, block.incoming@.take(k as int)),
    {
        let src = block.incoming[k];
        proof {
            let pre = block.incoming@.take(k + 1);
            assert(pre.drop_last() =~= block.incoming@.take(k as int));
            assert(pre.last() == src);
        }
        if k > 0 {
            s.append(", ");
        }
        if blocks[src.index()].offset > block.offset {
            s.append("^ ");
        } else {
            s.append("v ");
        }
        append_label(&mut s, src);
        proof {
            let pre = block.incoming@.take(k + 1);
            if k == 0 {
                assert(block.incoming@.take(0) =~= Seq::<CilLabel>::empty());
                assert(pre.len() == 1 && pre[0] == src);
            }
            assert(s@ =~= head + arcs_text(blocks@, *block, pre));
        }
    }
    s.append(")");
    proof {
        assert(block.incoming@.take(n as int) =~= block.incoming@);
    }
    assert(s@ =~= block_header_text(blocks@, i as int));
    s
}

/// Each condition is written as its suffix in the CIL mnemonics (`ceq`, `cgt`, `bge.un`, ...),
/// and `always`, `false` and `true` for the unconditional branch and `brfalse` and `brtrue`.
pub proof fn law_cond_mnemonics()
    ensures
        cond_text(CilCond::Always) == "always"@,
        cond_text(CilCond::Eq) == "eq"@,
        cond_text(CilCond::Ge) == "ge"@,
        cond_text(CilCond::Gt) == "gt"@,
        cond_text(CilCond::Le) == "le"@,
        cond_text(CilCond::Lt) == "lt"@,
        cond_text(CilCond::NeUn) == "ne.un"@,
        cond_text(CilCond::GeUn) == "ge.un"@,
        cond_text(CilCond::GtUn) == "gt.un"@,
        cond_text(CilCond::LeUn) == "le.un"@,
        cond_text(CilCond::LtUn) == "lt.un"@,
        cond_text(CilCond::False) == "false"@,
        cond_text(CilCond::True) == "true"@,
{
}

/// Different conditions are written differently.
pub proof fn law_cond_text_injective(c1: CilCond, c2: CilCond)
    ensures
        cond_text(c1) == cond_text(c2) ==> c1 == c2,
{
    reveal_strlit("always");
    reveal_strlit("eq");
    reveal_strlit("ge");
    reveal_strlit("gt");
    reveal_strlit("le");
    reveal_strlit("lt");
    reveal_strlit("ne.un");
    reveal_strlit("ge.un");
    reveal_strlit("gt.un");
    reveal_strlit("le.un");
    reveal_strlit("lt.un");
    reveal_strlit("false");
    reveal_strlit("true");
    if cond_text(c1) == cond_text(c2) && c1 != c2 {
        let a = cond_text(c1);
        let b = cond_text(c2);
        assert(a.len() == b.len());
        assert(a[0] == b[0]);
        assert(a[1] == b[1]);
        if a.len() > 2 {
            assert(a[2] == b[2]);
            assert(a[3] == b[3]);
        }
    }
}

/// Each arithmetic operation is written as its CIL mnemonic.
pub proof fn law_arith_mnemonics()
    ensures
        arith_text(CilArith::Add) == "add"@,
        arith_text(CilArith::Mul) == "mul"@,
        arith_text(CilArith::Sub) == "sub"@,
        arith_text(CilArith::Div) == "div"@,
        arith_text(CilArith::Mod) == "mod"@,
{
}

/// Different arithmetic operations are written differently.
pub proof fn law_arith_text_injective(a1: CilArith, a2: CilArith)
    ensures
        arith_text(a1) == arith_text(a2) ==> a1 == a2,
{
    reveal_strlit("add");
    reveal_strlit("mul");
    reveal_strlit("sub");
    reveal_strlit("div");
    reveal_strlit("mod");
    if arith_text(a1) == arith_text(a2) && a1 != a2 {
        let a = arith_text(a1);
        let b = arith_text(a2);
        assert(a[0] == b[0]);
        assert(a[1] == b[1]);
        assert(a[2] == b[2]);
    }
}

/// The comparisons and arithmetic instructions are written as `compare.` or `arith.` followed
/// by their CIL mnemonic (`cgt` is `compare.gt`, `mul` is `arith.mul`), whatever the text of
/// floats.
pub proof fn law_compare_arith_text(float_text: Seq<char>)
    ensures
        inst_text(CilInst::Compare(CilCond::Eq), float_text) == "compare.eq"@,
        inst_text(CilInst::Compare(CilCond::Gt), float_text) == "compare.gt"@,
        inst_text(CilInst::Compare(CilCond::GtUn), float_text) == "compare.gt.un"@,
        inst_text(CilInst::Compare(CilCond::Lt), float_text) == "compare.lt"@,
        inst_text(CilInst::Compare(CilCond::LtUn), float_text) == "compare.lt.un"@,
        inst_text(CilInst::Arith(CilArith::Add), float_text) == "arith.add"@,
        inst_text(CilInst::Arith(CilArith::Mul), float_text) == "arith.mul"@,
        inst_text(CilInst::Arith(CilArith::Sub), float_text) == "arith.sub"@,
        inst_text(CilInst::Arith(CilArith::Div), float_text) == "arith.div"@,
        inst_text(CilInst::Arith(CilArith::Mod), float_text) == "arith.mod"@,
{
    reveal_strlit("compare.");
    reveal_strlit("arith.");
    reveal_strlit("eq");
    reveal_strlit("compare.eq");
    assert(inst_text(CilInst::Compare(CilCond::Eq), float_text) =~= "compare.eq"@);
    reveal_strlit("gt");
    reveal_strlit("compare.gt");
    assert(inst_text(CilInst::Compare(CilCond::Gt), float_text) =~= "compare.gt"@);
    reveal_strlit("gt.un");
    reveal_strlit("compare.gt.un");
    assert(inst_text(CilInst::Compare(CilCond::GtUn), float_text) =~= "compare.gt.un"@);
    reveal_strlit("lt");
    reveal_strlit("compare.lt");
    assert(inst_text(CilInst::Compare(CilCond::Lt), float_text) =~= "compare.lt"@);
    reveal_strlit("lt.un");
    reveal_strlit("compare.lt.un");
    assert(inst_text(CilInst::Compare(CilCond::LtUn), float_text) =~= "compare.lt.un"@);
    reveal_strlit("add");
    reveal_strlit("arith.add");
    assert(inst_text(CilInst::Arith(CilArith::Add), float_text) =~= "arith.add"@);
    reveal_strlit("mul");
    reveal_strlit("arith.mul");
    assert(inst_text(CilInst::Arith(CilArith::Mul), float_text) =~= "arith.mul"@);
    reveal_strlit("sub");
    reveal_strlit("arith.sub");
    assert(inst_text(CilInst::Arith(CilArith::Sub), float_text) =~= "arith.sub"@);
    reveal_strlit("div");
    reveal_strlit("arith.div");
    assert(inst_text(CilInst::Arith(CilArith::Div), float_text) =~= "arith.div"@);
    reveal_strlit("mod");
    reveal_strlit("arith.mod");
    assert(inst_text(CilInst::Arith(CilArith::Mod), float_text) =~= "arith.mod"@);
}

/// The pieces in order, with `sep` between each two.
pub open spec fn joined(pieces: Seq<Seq<char>>, sep: Seq<char>) -> Seq<char>
    decreases pieces.len(),
{
    if pieces.len() == 0 {
        seq![]
    } else if pieces.len() == 1 {
        pieces[0]
    } else {
        joined(pieces.drop_last(), sep) + sep + pieces.last()
    }
}

proof fn lemma_arcs_joined(blocks: Seq<CilBlock>, block: CilBlock, srcs: Seq<CilLabel>)
    ensures
        arcs_text(blocks, block, srcs) == joined(
            Seq::new(
                srcs.len(),
                |k: int|
                    seq![
                        if blocks[srcs[k].spec_index()].offset > block.offset {
                            '^'
                        } else {
                            'v'
                        },
                        ' ',
                    ] + label_text(srcs[k]),
            ),
            ", "@,
        ),
    decreases srcs.len(),
{
    reveal_strlit("^ ");
    reveal_strlit("v ");
    let pieces = Seq::new(
        srcs.len(),
        |k: int|
            seq![
                if blocks[srcs[k].spec_index()].offset > block.offset {
                    '^'
                } else {
                    'v'
                },
                ' ',
            ] + label_text(srcs[k]),
    );
    if srcs.len() > 0 {
        let last = srcs.last();
        assert(arc_text(blocks, block, last) =~= pieces.last());
        if srcs.len() > 1 {
            lemma_arcs_joined(blocks, block, srcs.drop_last());
            let pre = Seq::new(
                srcs.drop_last().len(),
                |k: int|
                    seq![
                        if blocks[srcs.drop_last()[k].spec_index()].offset > block.offset {
                            '^'
                        } else {
                            'v'
                        },
                        ' ',
                    ] + label_text(srcs.drop_last()[k]),
            );
            assert(pieces.drop_last() =~= pre);
        } else {
            assert(arc_text(blocks, block, srcs[0]) =~= pieces[0]);
        }
    }
}

/// The heading of block `i` is its label, `: (`, its predecessors in order separated by `, `,
/// each marked `^` when it begins at a greater offset of the image than block `i` and `v`
/// otherwise, and `)`.
pub proof fn law_block_header(blocks: Seq<CilBlock>, i: int)
    requires
        0 <= i < blocks.len(),
    ensures
        block_header_text(blocks, i) == label_text(blocks[i].label) + ": ("@ + joined(
            Seq::new(
                blocks[i].incoming@.len(),
                |k: int|
                    seq![
                        if blocks[blocks[i].incoming@[k].spec_index()].offset > blocks[i].offset {
                            '^'
                        } else {
                            'v'
                        },
                        ' ',
                    ] + label_text(blocks[i].incoming@[k]),
            ),
            ", "@,
        ) + ")"@,
{
    lemma_arcs_joined(blocks, blocks[i], blocks[i].incoming@);
}

/// The value of a decimal digit.
pub open spec fn digit_value(c: char) -> int {
    c as int - 48
}

/// The value of a run of decimal digits, most significant first.
pub open spec fn numeral_value(s: Seq<char>) -> int
    decreases s.len(),
{
    if s.len() == 0 {
        0
    } else {
        numeral_value(s.drop_last()) * 10 + digit_value(s.last())
    }
}

/// `s` is a numeral in base ten: digits only, at least one, and no leading zero.
pub open spec fn is_decimal(s: Seq<char>) -> bool {
    &&& s.len() > 0
    &&& forall|k: int| 0 <= k < s.len() ==> '0' <= #[trigger] s[k] <= '9'
    &&& s.len() > 1 ==> s[0] != '0'
}

/// A natural number is written as the numeral in base ten whose value it is.
pub proof fn law_dec_nat(n: nat)
    ensures
        is_decimal(dec_nat(n)),
        numeral_value(dec_nat(n)) == n,
    decreases n,
{
    let t = dec_nat(n);
    if n < 10 {
        assert(t.drop_last() =~= Seq::<char>::empty());
        assert(numeral_value(Seq::<char>::empty()) == 0);
        assert(digit_value(t.last()) == n);
        assert(numeral_value(t) == numeral_value(t.drop_last()) * 10 + digit_value(t.last()));
    } else {
        law_dec_nat(n / 10);
        let s = dec_nat(n / 10);
        assert(t == s.push(dec_digit(n as int % 10)));
        assert(t.drop_last() =~= s);
        assert(digit_value(t.last()) == n % 10);
        assert(n == (n / 10) * 10 + n % 10);
        assert(numeral_value(t) == numeral_value(t.drop_last()) * 10 + digit_value(t.last()));
        assert(t[0] == s[0]);
        assert forall|k: int| 0 <= k < t.len() implies '0' <= #[trigger] t[k] <= '9' by {
            if k < s.len() {
                assert(t[k] == s[k]);
            }
        }
        if n / 10 < 10 {
            assert(s[0] == dec_digit((n / 10) as int));
        } else {
            law_dec_nat(n / 100);
            assert(n / 100 == (n / 10) / 10);
            assert(s.len() > 1);
        }
    }
}

/// An integer is written as the numeral of its magnitude, after a minus sign when it is
/// negative.
pub proof fn law_dec_int(i: int)
    ensures
        i < 0 ==> dec_int(i)[0] == '-' && is_decimal(dec_int(i).skip(1)) && numeral_value(
            dec_int(i).skip(1),
        ) == -i,
        i >= 0 ==> is_decimal(dec_int(i)) && numeral_value(dec_int(i)) == i,
{
    reveal_strlit("-");
    if i < 0 {
        law_dec_nat((-i) as nat);
        assert(dec_int(i).skip(1) =~= dec_nat((-i) as nat));
    } else {
        law_dec_nat(i as nat);
    }
}

/// A label is written `label.` and the numeral of its index.
pub proof fn law_label_text(l: CilLabel)
    ensures
        label_text(l).take(6) == "label."@,
        is_decimal(label_text(l).skip(6)),
        numeral_value(label_text(l).skip(6)) == l.spec_index(),
{
    reveal_strlit("label.");
    law_dec_nat(l.spec_index() as nat);
    assert(label_text(l).take(6) =~= "label."@);
    assert(label_text(l).skip(6) =~= dec_nat(l.spec_index() as nat));
}

/// An argument is written `arg.` and the numeral of its number, a local `loc.` and the numeral
/// of its number.
pub proof fn law_slot_text(slot: CilSlot)
    ensures
        slot_text(slot).take(4) == match slot {
            CilSlot::Arg(_) => "arg."@,
            CilSlot::Loc(_) => "loc."@,
        },
        is_decimal(slot_text(slot).skip(4)),
        numeral_value(slot_text(slot).skip(4)) == match slot {
            CilSlot::Arg(n) => n as int,
            CilSlot::Loc(n) => n as int,
        },
{
    reveal_strlit("arg.");
    reveal_strlit("loc.");
    match slot {
        CilSlot::Arg(n) => {
            law_dec_nat(n as nat);
            assert(slot_text(slot).take(4) =~= "arg."@);
            assert(slot_text(slot).skip(4) =~= dec_nat(n as nat));
        },
        CilSlot::Loc(n) => {
            law_dec_nat(n as nat);
            assert(slot_text(slot).take(4) =~= "loc."@);
            assert(slot_text(slot).skip(4) =~= dec_nat(n as nat));
        },
    }
}

/// The table of a token is its high byte: 06 is a method definition, 0a a member reference, 20
/// an assembly and 2b a method specification; any other is unknown, with its number.
pub proof fn law_token_kind(value: u32)
    ensures
        value / 0x100_0000 == 0x06 ==> token_kind(value) == CilTokenKind::MethodDef,
        value / 0x100_0000 == 0x0a ==> token_kind(value) == CilTokenKind::MemberRef,
        value / 0x100_0000 == 0x20 ==> token_kind(value) == CilTokenKind::Assembly,
        value / 0x100_0000 == 0x2b ==> token_kind(value) == CilTokenKind::MethodSpec,
        !(value / 0x100_0000 == 0x06 || value / 0x100_0000 == 0x0a || value / 0x100_0000 == 0x20
            || value / 0x100_0000 == 0x2b) ==> token_kind(value) == CilTokenKind::Unknown(
            (value / 0x100_0000) as u8,
        ),
{
}

/// The tables of tokens are written by their names (`methoddef`, `memberref`, `assembly`,
/// `methodspec`), an unknown one as `unk_` and its number in two hexadecimal digits.
pub proof fn law_token_kind_text(v: u8)
    ensures
        token_kind_text(CilTokenKind::MethodDef) == "methoddef"@,
        token_kind_text(CilTokenKind::MemberRef) == "memberref"@,
        token_kind_text(CilTokenKind::Assembly) == "assembly"@,
        token_kind_text(CilTokenKind::MethodSpec) == "methodspec"@,
        token_kind_text(CilTokenKind::Unknown(v)).take(4) == "unk_"@,
        token_kind_text(CilTokenKind::Unknown(v)).len() == 6,
        hex_value(token_kind_text(CilTokenKind::Unknown(v))[4]) * 16 + hex_value(
            token_kind_text(CilTokenKind::Unknown(v))[5],
        ) == v,
{
    reveal_strlit("unk_");
    assert(token_kind_text(CilTokenKind::Unknown(v)).take(4) =~= "unk_"@);
    let d1 = v as int / 16;
    let d2 = v as int % 16;
    assert(token_kind_text(CilTokenKind::Unknown(v))[4] == hex_digit(d1));
    assert(token_kind_text(CilTokenKind::Unknown(v))[5] == hex_digit(d2));
}

/// The value of a lowercase hexadecimal digit.
pub open spec fn hex_value(c: char) -> int {
    if c as int >= 97 {
        c as int - 87
    } else {
        c as int - 48
    }
}

/// Each instruction is written as its word, and then what it acts on: `nop`, `break`,
/// `return`; `load `, `addr `, `store ` and the slot; `arith.` and the operation; `const ` and
/// the constant; `call ` and the token; `compare.` and the condition; `branch.`, the condition,
/// a space and the label; `prefix.` and the prefix.
pub proof fn law_inst_words(inst: CilInst, f: Seq<char>)
    ensures
        inst_text(CilInst::Nop, f) == "nop"@,
        inst_text(CilInst::Break, f) == "break"@,
        inst_text(CilInst::Return, f) == "return"@,
        inst matches CilInst::Load(s) ==> inst_text(inst, f) == "load "@ + slot_text(s),
        inst matches CilInst::Addr(s) ==> inst_text(inst, f) == "addr "@ + slot_text(s),
        inst matches CilInst::Store(s) ==> inst_text(inst, f) == "store "@ + slot_text(s),
        inst matches CilInst::Arith(a) ==> inst_text(inst, f) == "arith."@ + arith_text(a),
        inst matches CilInst::Const(c) ==> inst_text(inst, f) == "const "@ + const_text(c, f),
        inst matches CilInst::Call(t) ==> inst_text(inst, f) == "call "@ + token_text(t),
        inst matches CilInst::Compare(c) ==> inst_text(inst, f) == "compare."@ + cond_text(c),
        inst matches CilInst::Branch(c, l) ==> inst_text(inst, f) == "branch."@ + cond_text(c)
            + " "@ + label_text(l),
        inst matches CilInst::Prefix(p) ==> inst_text(inst, f) == "prefix."@ + prefix_text(p),
{
}

/// Constants are written with their kind: `i32:` or `i64:` and the numeral of the value, `f32:`
/// or `f64:` and the text given for the float.
pub proof fn law_const_text(c: CilConst, f: Seq<char>)
    ensures
        c matches CilConst::I32(v) ==> const_text(c, f) == "i32:"@ + dec_int(v as int),
        c matches CilConst::I64(v) ==> const_text(c, f) == "i64:"@ + dec_int(v as int),
        c matches CilConst::F32(_) ==> const_text(c, f) == "f32:"@ + f,
        c matches CilConst::F64(_) ==> const_text(c, f) == "f64:"@ + f,
        prefix_text(CilPrefix::Unaligned) == "unaligned"@,
        prefix_text(CilPrefix::Volatile) == "volatile"@,
{
}

/// A token is written as its table, then the numeral of its row (its low 24 bits) in brackets.
pub proof fn law_token_text(t: CilToken)
    ensures
        token_text(t) == token_kind_text(token_kind(t.0)) + "("@ + dec_nat(
            (t.0 as int % 0x100_0000) as nat,
        ) + ")"@,
        numeral_value(dec_nat((t.0 as int % 0x100_0000) as nat)) == t.0 as int % 0x100_0000,
{
    law_dec_nat((t.0 as int % 0x100_0000) as nat);
}

} // verus!
