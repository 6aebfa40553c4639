//! The intermediate representation of CIL (ECMA-335) method bodies.
use vstd::prelude::*;

pub use CilSlot::Arg as CilArg;
pub use CilSlot::Loc as CilLoc;

verus! {

/// A local variable or argument slot of a method.
#[derive(Clone, Copy, Debug, PartialEq, Eq)]
pub enum CilSlot {
    Arg(u16),
    Loc(u16),
}

/// The label of a basic block: the block's index in its function.
///
/// Labels are encoded in 32 bits, so the indices they can stand for are those below `u32::MAX`.
#[derive(Clone, Copy, Debug, PartialEq, Eq, Hash, Structural)]
pub struct CilLabel(pub u32);

impl CilLabel {
    pub open spec fn spec_index(self) -> int {
        self.0 as int
    }

    pub fn new(index: usize) -> (l: CilLabel)
        requires
            index < u32::MAX,
        ensures
            l.spec_index() == index,
    {
        CilLabel(index as u32)
    }

    pub fn index(&self) -> (i: usize)
        ensures
            i == self.spec_index(),
    {
        self.0 as usize
    }
}

/// A type of the assembly: its index in the assembly's type table.
#[derive(Clone, Copy, Debug, PartialEq, Eq, Hash, Structural)]
pub struct CilType(pub u32);

impl CilType {
    pub open spec fn spec_index(self) -> int {
        self.0 as int
    }

    pub fn new(index: usize) -> (t: CilType)
        requires
            index < u32::MAX,
        ensures
            t.spec_index() == index,
    {
        CilType(index as u32)
    }

    pub fn index(&self) -> (i: usize)
        ensures
            i == self.spec_index(),
    {
        self.0 as usize
    }
}

#[derive(Clone, Copy, Debug, PartialEq, Eq)]
pub enum CilArith {
    Add,
    Mul,
    Sub,
    Div,
    Mod,
}

/// The condition of a comparison or a branch.
#[derive(Clone, Copy, Debug, PartialEq, Eq)]
pub enum CilCond {
    Always,
    Eq,
    Ge,
    Gt,
    Le,
    Lt,
    NeUn,
    GeUn,
    GtUn,
    LeUn,
    LtUn,
    False,
    True,
}

/// The metadata table that a token points into.
#[derive(Clone, Copy, Debug, PartialEq, Eq)]
pub enum CilTokenKind {
    Unknown(u8),
    Assembly,
    MethodDef,
    MethodSpec,
    MemberRef,
}

/// A metadata token: the table in the high byte, the row in the low 24 bits.
#[derive(Clone, Copy, Debug, PartialEq, Eq)]
pub struct CilToken(pub u32);

/// The table of a token with the given value.
pub open spec fn token_kind(value: u32) -> CilTokenKind {
    let table = value as int / 0x100_0000;
    if table == 0x06 {
        CilTokenKind::MethodDef
    } else if table == 0x0a {
        CilTokenKind::MemberRef
    } else if table == 0x20 {
        CilTokenKind::Assembly
    } else if table == 0x2b {
        CilTokenKind::MethodSpec
    } else {
        CilTokenKind::Unknown(table as u8)
    }
}

impl CilToken {
    pub fn new(value: u32) -> (t: CilToken)
        ensures
            t.0 == value,
    {
        CilToken(value)
    }

    pub fn token(&self) -> (v: u32)
        ensures
            v == self.0,
    {
        self.0
    }

    pub fn kind(&self) -> (k: CilTokenKind)
        ensures
            k == token_kind(self.0),
    {
        let table: u32 = self.0 / 0x100_0000;
        match table {
            0x06 => CilTokenKind::MethodDef,
            0x0a => CilTokenKind::MemberRef,
            0x20 => CilTokenKind::Assembly,
            0x2b => CilTokenKind::MethodSpec,
            v => CilTokenKind::Unknown(v as u8),
        }
    }

    pub fn index(&self) -> (i: u32)
        ensures
            i == self.0 as int % 0x100_0000,
    {
        self.0 % 0x100_0000
    }
}

/// A constant loaded by an instruction.
///
/// Floating-point constants are held as their IEEE-754 bit patterns, exactly as they stand
/// in the instruction stream.
#[derive(Clone, Copy, Debug, PartialEq, Eq)]
pub enum CilConst {
    I32(i32),
    I64(i64),
    F32(u32),
    F64(u64),
}

#[derive(Clone, Copy, Debug, PartialEq, Eq)]
pub enum CilPrefix {
    Unaligned,
    Volatile,
}

/// An instruction of a basic block; a branch names the block it goes to.
#[derive(Clone, Copy, Debug, PartialEq, Eq)]
pub enum CilInst {
    Nop,
    Break,
    Load(CilSlot),
    Addr(CilSlot),
    Store(CilSlot),
    Arith(CilArith),
    Const(CilConst),
    Call(CilToken),
    Compare(CilCond),
    Branch(CilCond, CilLabel),
    Prefix(CilPrefix),
    Return,
}

/// A basic block: a run of instructions entered at `offset` in the image, with the labels of
/// the blocks that branch to it and of those that it branches to.
#[derive(Debug)]
pub struct CilBlock {
    pub label: CilLabel,
    pub offset: usize,
    pub insts: Vec<CilInst>,
    pub incoming: Vec<CilLabel>,
    pub outgoing: Vec<CilLabel>,
}

/// A local variable of a method body.
#[derive(Debug)]
pub struct CilLocal {
    pub name: Option<String>,
    pub typ: CilType,
}

/// A parameter of a method.
#[derive(Debug)]
pub struct CilParam {
    pub name: String,
    pub typ: CilType,
}

/// What the assembly records of a type.
#[derive(Debug)]
pub struct CilTypeInfo {
    pub name: String,
}

/// A method body: its basic blocks, block `i` labelled `i`, and its locals.
#[derive(Debug)]
pub struct CilFunc {
    pub blocks: Vec<CilBlock>,
    pub locals: Vec<CilLocal>,
}

#[derive(Debug)]
pub struct CilMethod {
    pub name: String,
    pub body: Option<CilFunc>,
    pub params: Vec<CilParam>,
}

/// A parsed assembly: its methods and the table of the types that they use.
#[derive(Debug)]
pub struct CilAssembly {
    pub methods: Vec<CilMethod>,
    pub types: Vec<CilTypeInfo>,
}

pub type CilFile = CilAssembly;

impl CilAssembly {
    /// What the assembly records of a type of its table.
    pub fn type_info(&self, typ: CilType) -> (info: &CilTypeInfo)
        requires
            typ.spec_index() < self.types.len(),
        ensures
            *info == self.types@[typ.spec_index()],
    {
        &self.types[typ.index()]
    }
}

} // verus!
