//! Building the IR of an assembly from what its metadata records of its methods.
//!
//! The metadata reader (the `dotscope` crate) loads the assembly from its bytes and hands over,
//! for each method, its name, its parameters, and for a method with a body, where its code starts
//! and the types of its locals; the image that the code is read from is the same bytes.
use std::collections::HashMap;
use std::sync::Arc;
use vstd::prelude::*;

use crate::cil::{
    CilAssembly, CilFile, CilFunc, CilLocal, CilMethod, CilParam, CilType, CilTypeInfo,
};
use crate::parsers::disasm::{disassemble, is_disassembly, DisasmError};
use crate::parsers::disasm_model::{initial, law_outcome_unique, lowered, outcome, DisasmOutcome};
use crate::analysis::{law_disassembly_analyzable, method_analyzable};

verus! {

broadcast use vstd::std_specs::hash::group_hash_axioms;

/// A type that a method refers to: its metadata token and its name.
#[derive(Debug)]
pub struct TypeRef {
    pub token: u32,
    pub name: String,
}

/// A parameter of a method: its name and its type.
#[derive(Debug)]
pub struct ParamInfo {
    pub name: String,
    pub typ: TypeRef,
}

/// The body of a method: where in the file its header starts (`None` for a method without an
/// RVA; an error message when the RVA lies in no section), the size of that header, and the
/// types of its locals.
#[derive(Debug)]
pub struct BodyInfo {
    pub method_offset: Option<Result<usize, String>>,
    pub size_header: usize,
    pub locals: Vec<TypeRef>,
}

/// A method as the metadata records it.
#[derive(Debug)]
pub struct MethodInfo {
    pub name: String,
    pub body: Option<BodyInfo>,
    pub params: Vec<ParamInfo>,
}

/// Why a method could not be parsed.
#[derive(Debug)]
pub enum ParseError {
    /// The method's RVA could not be mapped to a position in the file; the reader's message.
    BadRva(String),
    /// The header's size carries the code's position past the end of the address space.
    BadSizeHeader,
    /// The method's code could not be split into blocks.
    Disassembly(DisasmError),
}

/// A method that could not be parsed: its name and why.
#[derive(Debug)]
pub struct MethodError {
    pub method: String,
    pub error: ParseError,
}

/// Builds the IR of an assembly, giving each type that its methods refer to, one per token, an
/// index in its type table.
pub struct Parser {
    types: Vec<CilTypeInfo>,
    type_map: HashMap<u32, CilType>,
}

/// The state of the type table: the index of each token seen, and the names of the types in
/// index order.
pub type TypeTable = (Map<u32, CilType>, Seq<Seq<char>>);

/// The type table after a reference to the type with `token`, named `name`, is looked up, and
/// the type it gets: the one its token already has, else a new one at the end of the table.
pub open spec fn intern(st: TypeTable, token: u32, name: Seq<char>) -> (TypeTable, CilType) {
    if st.0.contains_key(token) {
        (st, st.0[token])
    } else {
        let t = CilType(st.1.len() as u32);
        ((st.0.insert(token, t), st.1.push(name)), t)
    }
}

/// The type table after the references `refs` are looked up in order, and the types they get.
pub open spec fn intern_seq(st: TypeTable, refs: Seq<TypeRef>) -> (TypeTable, Seq<CilType>)
    decreases refs.len(),
{
    if refs.len() == 0 {
        (st, seq![])
    } else {
        let (st1, ts) = intern_seq(st, refs.drop_last());
        let (st2, t) = intern(st1, refs.last().token, refs.last().name@);
        (st2, ts.push(t))
    }
}

/// A type table whose indices are those of its names, one per token.
pub open spec fn table_wf(st: TypeTable) -> bool {
    &&& st.0.dom().finite()
    &&& forall|k: u32| #[trigger] st.0.contains_key(k) ==> st.0[k].spec_index() < st.1.len()
    &&& forall|k1: u32, k2: u32|
        #[trigger] st.0.contains_key(k1) && #[trigger] st.0.contains_key(k2) && k1 != k2
            ==> st.0[k1] != st.0[k2]
}

/// A type table with one token for each of its names: its indices are exactly `0` to the
/// number of names, each the index of one token.
pub open spec fn table_dense(st: TypeTable) -> bool {
    &&& table_wf(st)
    &&& st.0.dom().len() == st.1.len()
    &&& forall|i: int| 0 <= i < st.1.len() ==> #[trigger] index_used(st.0, i)
}

/// Some token has index `i`.
pub open spec fn index_used(m: Map<u32, CilType>, i: int) -> bool {
    exists|k: u32| #[trigger] m.contains_key(k) && m[k].spec_index() == i
}

/// The types of parameters.
pub open spec fn param_types(params: Seq<ParamInfo>) -> Seq<TypeRef> {
    Seq::new(params.len(), |i: int| params[i].typ)
}

/// The code of a method starts `size_header` bytes past its header.
pub open spec fn code_offset(method_offset: usize, size_header: usize) -> int {
    method_offset + size_header
}

/// What reading the body `b` of a method gives with the type table `st0`, leaving `st1`:
/// nothing for a method without an RVA; the reader's error when the RVA maps nowhere; an error
/// when the code's position overflows; else a splitting of the code into blocks, or why there is
/// none, and its locals, whose types are looked up in order and which have no names.
#[verifier::opaque]
pub open spec fn body_parsed(
    image: Seq<u8>,
    st0: TypeTable,
    b: BodyInfo,
    r: Result<Option<CilFunc>, ParseError>,
    st1: TypeTable,
) -> bool {
    match b.method_offset {
        None => r matches Ok(None) && st1 == st0,
        Some(Err(msg)) => r matches Err(ParseError::BadRva(m)) && m@ == msg@ && st1 == st0,
        Some(Ok(o)) => if code_offset(o, b.size_header) > usize::MAX {
            r matches Err(ParseError::BadSizeHeader) && st1 == st0
        } else {
            let off = code_offset(o, b.size_header) as usize;
            exists|m: nat|
                match #[trigger] outcome(image, initial(off), m) {
                    Some(DisasmOutcome::Blocks(bs)) => r matches Ok(Some(f)) && {
                        let (st2, ts) = intern_seq(st0, b.locals@);
                        &&& lowered(bs, f.blocks@)
                        &&& is_disassembly(image, off as int, f.blocks@)
                        &&& st1 == st2
                        &&& f.locals@.len() == ts.len()
                        &&& forall|k: int|
                            0 <= k < ts.len() ==> (#[trigger] f.locals@[k]).typ == ts[k]
                                && f.locals@[k].name is None
                    },
                    Some(DisasmOutcome::Failed(e)) => r matches Err(ParseError::Disassembly(e2))
                        && e2 == e && st1 == st0,
                    None => false,
                }
        },
    }
}

/// The type table after a body is read: its locals are looked up when its code is read.
pub open spec fn body_table(st0: TypeTable, b: BodyInfo) -> TypeTable {
    match b.method_offset {
        Some(Ok(o)) => if code_offset(o, b.size_header) > usize::MAX {
            st0
        } else {
            intern_seq(st0, b.locals@).0
        },
        _ => st0,
    }
}

/// The type table after a method is read, when its body could be read.
pub open spec fn method_table(st0: TypeTable, m: MethodInfo) -> TypeTable {
    let st1 = match m.body {
        Some(b) => body_table(st0, b),
        None => st0,
    };
    intern_seq(st1, param_types(m.params@)).0
}

/// The type table after the methods are read in order.
pub open spec fn assembly_table(st0: TypeTable, methods: Seq<MethodInfo>) -> TypeTable
    decreases methods.len(),
{
    if methods.len() == 0 {
        st0
    } else {
        method_table(assembly_table(st0, methods.drop_last()), methods.last())
    }
}

/// What reading method `m` gives with the type table `st0`: its body as `body_parsed` says, or
/// the error of its body; then its parameters, whose types are looked up in order.
#[verifier::opaque]
pub open spec fn method_parsed(
    image: Seq<u8>,
    st0: TypeTable,
    m: MethodInfo,
    r: Result<CilMethod, ParseError>,
) -> bool {
    let st1 = match m.body {
        Some(b) => body_table(st0, b),
        None => st0,
    };
    match r {
        Ok(cm) => {
            let ts = intern_seq(st1, param_types(m.params@)).1;
            &&& cm.name@ == m.name@
            &&& match m.body {
                Some(b) => body_parsed(image, st0, b, Ok(cm.body), st1),
                None => cm.body is None,
            }
            &&& cm.params@.len() == m.params@.len()
            &&& forall|k: int|
                0 <= k < m.params@.len() ==> (#[trigger] cm.params@[k]).name@ == m.params@[k].name@
                    && cm.params@[k].typ == ts[k]
        },
        Err(e) => m.body matches Some(b) && body_parsed(image, st0, b, Err(e), st0),
    }
}

/// Looking up `refs` adds at most one type per reference and gives one type per reference.
pub proof fn lemma_intern_seq_len(st: TypeTable, refs: Seq<TypeRef>)
    ensures
        intern_seq(st, refs).1.len() == refs.len(),
        st.1.len() <= intern_seq(st, refs).0.1.len() <= st.1.len() + refs.len(),
    decreases refs.len(),
{
    if refs.len() > 0 {
        lemma_intern_seq_len(st, refs.drop_last());
    }
}

/// The first `k` of the references leave the table no larger than all of them do.
proof fn lemma_intern_seq_prefix(st: TypeTable, refs: Seq<TypeRef>, k: int)
    requires
        0 <= k <= refs.len(),
    ensures
        intern_seq(st, refs.take(k)).0.1.len() <= intern_seq(st, refs).0.1.len(),
    decreases refs.len(),
{
    if k < refs.len() {
        assert(refs.drop_last().take(k) =~= refs.take(k));
        lemma_intern_seq_prefix(st, refs.drop_last(), k);
    } else {
        assert(refs.take(k) =~= refs);
    }
}

/// Reading a method never shrinks the table.
proof fn lemma_method_table_grows(st: TypeTable, m: MethodInfo)
    ensures
        st.1.len() <= method_table(st, m).1.len(),
        m.body matches Some(b) ==> body_table(st, b).1.len() <= method_table(st, m).1.len(),
{
    if let Some(b) = m.body {
        if let Some(Ok(o)) = b.method_offset {
            lemma_intern_seq_len(st, b.locals@);
        }
        lemma_intern_seq_len(body_table(st, b), param_types(m.params@));
    } else {
        lemma_intern_seq_len(st, param_types(m.params@));
    }
}

/// The first `i` methods leave the table no larger than all of them do.
proof fn lemma_assembly_table_prefix(st: TypeTable, methods: Seq<MethodInfo>, i: int)
    requires
        0 <= i <= methods.len(),
    ensures
        assembly_table(st, methods.take(i)).1.len() <= assembly_table(st, methods).1.len(),
    decreases methods.len(),
{
    if i < methods.len() {
        assert(methods.drop_last().take(i) =~= methods.take(i));
        lemma_assembly_table_prefix(st, methods.drop_last(), i);
        lemma_method_table_grows(assembly_table(st, methods.drop_last()), methods.last());
    } else {
        assert(methods.take(i) =~= methods);
    }
}

/// Looking a token up again gives the type it got the first time, and leaves the table as it
/// was, whatever name comes with it.
pub proof fn law_intern_idempotent(st: TypeTable, token: u32, name1: Seq<char>, name2: Seq<char>)
    ensures
        intern(intern(st, token, name1).0, token, name2) == intern(st, token, name1),
{
}

/// A token keeps its type whatever is looked up after it: after any further lookups, looking it
/// up again gives the type it had and leaves the table as it is.
pub proof fn law_intern_keeps_types(st: TypeTable, refs: Seq<TypeRef>, token: u32, name: Seq<char>)
    requires
        st.0.contains_key(token),
    ensures
        intern_seq(st, refs).0.0.contains_key(token),
        intern_seq(st, refs).0.0[token] == st.0[token],
        intern(intern_seq(st, refs).0, token, name) == (intern_seq(st, refs).0, st.0[token]),
    decreases refs.len(),
{
    if refs.len() > 0 {
        law_intern_keeps_types(st, refs.drop_last(), token, name);
    }
}

/// In a well-formed table, two different tokens looked up one after the other get different
/// types, and the table stays well-formed.
pub proof fn law_intern_distinct(
    st: TypeTable,
    t1: u32,
    n1: Seq<char>,
    t2: u32,
    n2: Seq<char>,
)
    requires
        table_wf(st),
        t1 != t2,
        st.1.len() + 2 < u32::MAX,
    ensures
        intern(st, t1, n1).1 != intern(intern(st, t1, n1).0, t2, n2).1,
        table_wf(intern(st, t1, n1).0),
        table_wf(intern(intern(st, t1, n1).0, t2, n2).0),
{
    lemma_intern_wf(st, t1, n1);
    lemma_intern_wf(intern(st, t1, n1).0, t2, n2);
    let s1 = intern(st, t1, n1).0;
    assert(s1.0.contains_key(t1));
}

/// Looking a type up keeps the table dense: each new index goes to exactly one new token.
pub proof fn law_intern_dense(st: TypeTable, token: u32, name: Seq<char>)
    requires
        table_dense(st),
        st.0.contains_key(token) || st.1.len() < u32::MAX,
    ensures
        table_dense(intern(st, token, name).0),
{
    if !st.0.contains_key(token) {
        lemma_intern_wf(st, token, name);
        let st1 = intern(st, token, name).0;
        assert(st1.0.dom() =~= st.0.dom().insert(token));
        assert forall|i: int| 0 <= i < st1.1.len() implies #[trigger] index_used(st1.0, i) by {
            if i < st.1.len() {
                assert(index_used(st.0, i));
                let k = choose|k: u32| #[trigger] st.0.contains_key(k) && st.0[k].spec_index() == i;
                assert(st1.0.contains_key(k) && st1.0[k].spec_index() == i);
            } else {
                assert(st1.0.contains_key(token) && st1.0[token].spec_index() == i);
            }
        }
    }
}

proof fn lemma_intern_wf(st: TypeTable, token: u32, name: Seq<char>)
    requires
        table_wf(st),
        st.1.len() < u32::MAX,
    ensures
        table_wf(intern(st, token, name).0),
        intern(st, token, name).0.0.contains_key(token),
        intern(st, token, name).0.0[token] == intern(st, token, name).1,
        intern(st, token, name).0.1.len() <= st.1.len() + 1,
{
}

/// Method `m` cannot be read with the type table `st0`: its body gives an error.
pub open spec fn method_fails(image: Seq<u8>, st0: TypeTable, m: MethodInfo) -> bool {
    m.body matches Some(b) && exists|e: ParseError| body_parsed(image, st0, b, Err(e), st0)
}

/// A method that is read gives no error.
proof fn lemma_parsed_not_failed(image: Seq<u8>, st0: TypeTable, m: MethodInfo, cm: CilMethod)
    requires
        method_parsed(image, st0, m, Ok(cm)),
    ensures
        !method_fails(image, st0, m),
{
    reveal(method_parsed);
    reveal(body_parsed);
    if let Some(b) = m.body {
        if exists|e: ParseError| body_parsed(image, st0, b, Err(e), st0) {
            let e = choose|e: ParseError| body_parsed(image, st0, b, Err(e), st0);
            if let Some(Ok(o)) = b.method_offset {
                if code_offset(o, b.size_header) <= usize::MAX {
                    let off = code_offset(o, b.size_header) as usize;
                    let st1 = body_table(st0, b);
                    let r1 = Ok::<Option<CilFunc>, ParseError>(cm.body);
                    let r2 = Err::<Option<CilFunc>, ParseError>(e);
                    let m1 = choose|m1: nat|
                        match #[trigger] outcome(image, initial(off), m1) {
                            Some(DisasmOutcome::Blocks(bs)) => r1 matches Ok(Some(f)) && {
                                let (st2, ts) = intern_seq(st0, b.locals@);
                                &&& lowered(bs, f.blocks@)
                                &&& is_disassembly(image, off as int, f.blocks@)
                                &&& st1 == st2
                                &&& f.locals@.len() == ts.len()
                                &&& forall|k: int|
                                    0 <= k < ts.len() ==> (#[trigger] f.locals@[k]).typ == ts[k]
                                        && f.locals@[k].name is None
                            },
                            Some(DisasmOutcome::Failed(e)) => r1 matches Err(
                                ParseError::Disassembly(e2),
                            ) && e2 == e && st1 == st0,
                            None => false,
                        };
                    let m2 = choose|m2: nat|
                        match #[trigger] outcome(image, initial(off), m2) {
                            Some(DisasmOutcome::Blocks(bs)) => r2 matches Ok(Some(f)) && {
                                let (st2, ts) = intern_seq(st0, b.locals@);
                                &&& lowered(bs, f.blocks@)
                                &&& is_disassembly(image, off as int, f.blocks@)
                                &&& st0 == st2
                                &&& f.locals@.len() == ts.len()
                                &&& forall|k: int|
                                    0 <= k < ts.len() ==> (#[trigger] f.locals@[k]).typ == ts[k]
                                        && f.locals@[k].name is None
                            },
                            Some(DisasmOutcome::Failed(e)) => r2 matches Err(
                                ParseError::Disassembly(e2),
                            ) && e2 == e && st0 == st0,
                            None => false,
                        };
                    law_outcome_unique(image, initial(off), m1, m2);
                }
            }
        }
    }
}

/// Methods that were read give no error.
proof fn lemma_prefix_not_failed(
    image: Seq<u8>,
    st0: TypeTable,
    methods: Seq<MethodInfo>,
    outs: Seq<CilMethod>,
    i: int,
)
    requires
        0 <= i <= outs.len(),
        i <= methods.len(),
        forall|j: int|
            0 <= j < i ==> method_parsed(
                image,
                assembly_table(st0, methods.take(j)),
                #[trigger] methods[j],
                Ok(outs[j]),
            ),
    ensures
        forall|j: int|
            0 <= j < i ==> !method_fails(
                image,
                assembly_table(st0, methods.take(j)),
                #[trigger] methods[j],
            ),
{
    assert forall|j: int| 0 <= j < i implies !method_fails(
        image,
        assembly_table(st0, methods.take(j)),
        #[trigger] methods[j],
    ) by {
        lemma_parsed_not_failed(image, assembly_table(st0, methods.take(j)), methods[j], outs[j]);
    }
}

/// Method `i` is the first of `methods` that cannot be read, with the error `e`, when they are
/// read in order from the type table `st0`.
pub open spec fn failed_at(
    image: Seq<u8>,
    st0: TypeTable,
    methods: Seq<MethodInfo>,
    e: MethodError,
    i: int,
) -> bool {
    &&& 0 <= i < methods.len()
    &&& e.method@ == methods[i].name@
    &&& method_parsed(image, assembly_table(st0, methods.take(i)), methods[i], Err(e.error))
    &&& forall|j: int|
        0 <= j < i ==> !method_fails(image, assembly_table(st0, methods.take(j)), #[trigger] methods[j])
}

/// What reading `methods` in order from the type table `st0` gives: every method, each read
/// with the table that the methods before it left, with the table's names as the assembly's
/// types, and every body naming only blocks it has; or the error of the first method that
/// cannot be read.
pub open spec fn assembly_parsed(
    image: Seq<u8>,
    st0: TypeTable,
    methods: Seq<MethodInfo>,
    r: Result<CilFile, MethodError>,
) -> bool {
    match r {
        Ok(file) => {
            let st = assembly_table(st0, methods);
            &&& file.methods@.len() == methods.len()
            &&& forall|i: int|
                0 <= i < methods.len() ==> method_parsed(
                    image,
                    assembly_table(st0, methods.take(i)),
                    #[trigger] methods[i],
                    Ok(file.methods@[i]),
                )
            &&& file.types@.len() == st.1.len()
            &&& forall|k: int| 0 <= k < st.1.len() ==> (#[trigger] file.types@[k]).name@ == st.1[k]
            &&& forall|i: int| 0 <= i < file.methods@.len() ==> method_analyzable(#[trigger] file.methods@[i])
        },
        Err(e) => exists|i: int| #[trigger] failed_at(image, st0, methods, e, i),
    }
}

/// A method that is read names, in its body, only blocks it has.
proof fn lemma_parsed_analyzable(image: Seq<u8>, st0: TypeTable, m: MethodInfo, cm: CilMethod)
    requires
        method_parsed(image, st0, m, Ok(cm)),
    ensures
        method_analyzable(cm),
{
    reveal(method_parsed);
    reveal(body_parsed);
    if let Some(b) = m.body {
        if let Some(f) = cm.body {
            if let Some(Ok(o)) = b.method_offset {
                if code_offset(o, b.size_header) <= usize::MAX {
                    let off = code_offset(o, b.size_header) as usize;
                    let st1 = body_table(st0, b);
                    let r1 = Ok::<Option<CilFunc>, ParseError>(cm.body);
                    let k = choose|k: nat|
                        match #[trigger] outcome(image, initial(off), k) {
                            Some(DisasmOutcome::Blocks(bs)) => r1 matches Ok(Some(f)) && {
                                let (st2, ts) = intern_seq(st0, b.locals@);
                                &&& lowered(bs, f.blocks@)
                                &&& is_disassembly(image, off as int, f.blocks@)
                                &&& st1 == st2
                                &&& f.locals@.len() == ts.len()
                                &&& forall|k: int|
                                    0 <= k < ts.len() ==> (#[trigger] f.locals@[k]).typ == ts[k]
                                        && f.locals@[k].name is None
                            },
                            Some(DisasmOutcome::Failed(e)) => r1 matches Err(
                                ParseError::Disassembly(e2),
                            ) && e2 == e && st1 == st0,
                            None => false,
                        };
                    law_disassembly_analyzable(image, off as int, f.blocks@);
                }
            }
        }
    }
}

impl Parser {
    /// The parser's type table.
    pub closed spec fn table(&self) -> TypeTable {
        (self.type_map@, Seq::new(self.types@.len(), |i: int| self.types@[i].name@))
    }

    pub closed spec fn wf(&self) -> bool {
        table_wf(self.table())
    }

    /// A parser with an empty type table.
    pub fn new() -> (p: Parser)
        ensures
            p.wf(),
            p.table().0 == Map::<u32, CilType>::empty(),
            p.table().1 == Seq::<Seq<char>>::empty(),
    {
        let p = Parser { types: Vec::new(), type_map: HashMap::new() };
        assert(p.table().1 =~= Seq::<Seq<char>>::empty());
        p
    }

    /// What the table records of a new type.
    fn init_type(&mut self, typ: &TypeRef) -> (ti: CilTypeInfo)
        ensures
            ti.name@ == typ.name@,
            *final(self) == *old(self),
    {
        CilTypeInfo { name: typ.name.clone() }
    }

    /// The type of the table for `typ`'s token; a new one, at the end of the table, when the
    /// token has none yet.
    pub fn get_type(&mut self, typ: &TypeRef) -> (t: CilType)
        requires
            old(self).wf(),
            old(self).table().0.contains_key(typ.token) || old(self).table().1.len() < u32::MAX,
        ensures
            final(self).wf(),
            (final(self).table(), t) == intern(old(self).table(), typ.token, typ.name@),
    {
        let token = typ.token;
        let ghost st0 = self.table();
        match self.type_map.get(&token) {
            Some(t) => {
                return *t;
            },
            None => {},
        }
        let new_ti = self.init_type(typ);
        let new_typ = CilType::new(self.types.len());
        self.types.push(new_ti);
        self.type_map.insert(token, new_typ);
        proof {
            let st1 = self.table();
            assert(st1.1 =~= st0.1.push(typ.name@));
            assert(st1.0 == st0.0.insert(token, new_typ));
        }
        new_typ
    }

    /// Looks up `typ` when the table has room for it; false, leaving the table as it was, when its
    /// token is new and the table already holds as many types as 32-bit indices can name.
    fn intern_if_room(&mut self, typ: &TypeRef) -> (ok: bool)
        requires
            old(self).wf(),
            old(self).table().1.len() <= u32::MAX,
        ensures
            final(self).wf(),
            final(self).table().1.len() <= u32::MAX,
            ok ==> final(self).table() == intern(old(self).table(), typ.token, typ.name@).0,
            !ok ==> final(self).table() == old(self).table() && intern(
                old(self).table(),
                typ.token,
                typ.name@,
            ).0.1.len() > u32::MAX,
    {
        let known = match self.type_map.get(&typ.token) {
            Some(_) => true,
            None => false,
        };
        if !known && self.types.len() >= u32::MAX as usize {
            return false;
        }
        let _ = self.get_type(typ);
        true
    }

    /// Reads a method's body: splits its code into blocks and looks up the types of its locals.
    fn parse_body(&mut self, image: &[u8], body: &BodyInfo) -> (r: Result<Option<CilFunc>, ParseError>)
        requires
            old(self).wf(),
            image@.len() <= isize::MAX,
            body_table(old(self).table(), *body).1.len() <= u32::MAX,
        ensures
            final(self).wf(),
            body_parsed(image@, old(self).table(), *body, r, final(self).table()),
            r is Ok ==> final(self).table() == body_table(old(self).table(), *body),
            r is Err ==> final(self).table() == old(self).table(),
    {
        reveal(body_parsed);
        let ghost st0 = self.table();
        match &body.method_offset {
            None => Ok(None),
            Some(res) => {
                let method_offset = match res {
                    Ok(o) => *o,
                    Err(msg) => {
                        return Err(ParseError::BadRva(msg.clone()));
                    },
                };
                let code_offset = match method_offset.checked_add(body.size_header) {
                    Some(c) => c,
                    None => {
                        return Err(ParseError::BadSizeHeader);
                    },
                };
                let dr = disassemble(image, code_offset);
                let ghost m = choose|m: nat|
                    match #[trigger] outcome(image@, initial(code_offset), m) {
                        Some(DisasmOutcome::Blocks(bs)) => dr matches Ok(out) && lowered(bs, out@),
                        Some(DisasmOutcome::Failed(e)) => dr matches Err(e2) && e2 == e,
                        None => false,
                    };
                let blocks = match dr {
                    Ok(b) => b,
                    Err(e) => {
                        proof {
                            assert(code_offset as int == crate::parsers::dotscope::code_offset(method_offset, body.size_header));
                            assert(outcome(image@, initial(code_offset), m) == Some(DisasmOutcome::Failed(e)));
                        }
                        return Err(ParseError::Disassembly(e));
                    },
                };
                let mut locals: Vec<CilLocal> = Vec::new();
                let n = body.locals.len();
                for k in 0..n
                    invariant
                        n == body.locals@.len(),
                        self.wf(),
                        intern_seq(st0, body.locals@).0.1.len() <= u32::MAX,
                        self.table() == intern_seq(st0, body.locals@.take(k as int)).0,
                        locals@.len() == k,
                        forall|j: int|
                            0 <= j < k ==> (#[trigger] locals@[j]).typ == intern_seq(
                                st0,
                                body.locals@.take(k as int),
                            ).1[j] && locals@[j].name is None,
                {
                    let ghost pre = body.locals@.take(k as int);
                    let ghost ts_old = intern_seq(st0, pre).1;
                    proof {
                        lemma_intern_seq_len(st0, pre);
                        assert(body.locals@.take(k + 1).drop_last() =~= pre);
                        lemma_intern_seq_prefix(st0, body.locals@, k + 1);
                    }
                    let typ = self.get_type(&body.locals[k]);
                    locals.push(CilLocal { name: None, typ });
                    proof {
                        let ts_new = intern_seq(st0, body.locals@.take(k + 1)).1;
                        assert(ts_new == ts_old.push(typ));
                        assert forall|j: int| 0 <= j < k + 1 implies (#[trigger] locals@[j]).typ == ts_new[j] by {
                            if j < k {
                                assert(ts_new[j] == ts_old[j]);
                            }
                        }
                    }
                }
                proof {
                    assert(body.locals@.take(n as int) =~= body.locals@);
                    lemma_intern_seq_len(st0, body.locals@);
                }
                let ghost bl = blocks@;
                let f = CilFunc { blocks, locals };
                proof {
                    let r = Ok::<Option<CilFunc>, ParseError>(Some(f));
                    assert(f.blocks@ == bl);
                    let o = outcome(image@, initial(code_offset), m);
                    assert(o matches Some(DisasmOutcome::Blocks(bs)) && lowered(bs, bl));
                }
                Ok(Some(f))
            },
        }
    }

    /// Reads a method: its body, if any, then its parameters.
    fn parse_method(&mut self, image: &[u8], method: &MethodInfo) -> (r: Result<CilMethod, ParseError>)
        requires
            old(self).wf(),
            image@.len() <= isize::MAX,
            method_table(old(self).table(), *method).1.len() <= u32::MAX,
        ensures
            final(self).wf(),
            method_parsed(image@, old(self).table(), *method, r),
            r is Ok ==> final(self).table() == method_table(old(self).table(), *method),
            r is Err ==> final(self).table() == old(self).table(),
    {
        reveal(method_parsed);
        let ghost st0 = self.table();
        proof {
            lemma_method_table_grows(st0, *method);
        }
        let body = match &method.body {
            Some(b) => self.parse_body(image, b)?,
            None => None,
        };
        let ghost st1 = self.table();
        let mut params: Vec<CilParam> = Vec::new();
        let n = method.params.len();
        let ghost refs = param_types(method.params@);
        for k in 0..n
            invariant
                n == method.params@.len(),
                refs == param_types(method.params@),
                self.wf(),
                intern_seq(st1, refs).0.1.len() <= u32::MAX,
                self.table() == intern_seq(st1, refs.take(k as int)).0,
                params@.len() == k,
                forall|j: int|
                    0 <= j < k ==> (#[trigger] params@[j]).typ == intern_seq(
                        st1,
                        refs.take(k as int),
                    ).1[j] && params@[j].name@ == method.params@[j].name@,
        {
            let ghost pre = refs.take(k as int);
            let ghost ts_old = intern_seq(st1, pre).1;
            proof {
                lemma_intern_seq_len(st1, pre);
                assert(refs.take(k + 1).drop_last() =~= pre);
                lemma_intern_seq_prefix(st1, refs, k + 1);
                assert(refs.take(k + 1).last() == method.params@[k as int].typ);
            }
            let arg = &method.params[k];
            let typ = self.get_type(&arg.typ);
            params.push(CilParam { name: arg.name.clone(), typ });
            proof {
                let ts_new = intern_seq(st1, refs.take(k + 1)).1;
                assert(ts_new == ts_old.push(typ));
                assert forall|j: int| 0 <= j < k + 1 implies (#[trigger] params@[j]).typ == ts_new[j] by {
                    if j < k {
                        assert(ts_new[j] == ts_old[j]);
                    }
                }
            }
        }
        proof {
            assert(refs.take(n as int) =~= refs);
            lemma_intern_seq_len(st1, refs);
        }
        Ok(CilMethod { name: method.name.clone(), body, params })
    }

    /// Reads the methods of an assembly in order; the assembly's type table is the parser's,
    /// whose names it takes over, leaving the parser with its tokens and no names. Stops at the
    /// first method that cannot be read, with the table as the methods before it left it.
    #[verifier::rlimit(40)]
    #[verifier::spinoff_prover]
    pub fn parse_assembly(&mut self, image: &[u8], methods: &Vec<MethodInfo>) -> (r: Result<
        CilFile,
        MethodError,
    >)
        requires
            old(self).wf(),
            image@.len() <= isize::MAX,
            assembly_table(old(self).table(), methods@).1.len() <= u32::MAX,
        ensures
            assembly_parsed(image@, old(self).table(), methods@, r),
            r is Ok ==> final(self).table() == (
                assembly_table(old(self).table(), methods@).0,
                Seq::<Seq<char>>::empty(),
            ),
            r matches Err(e) ==> exists|i: int|
                failed_at(image@, old(self).table(), methods@, e, i) && final(self).table()
                    == assembly_table(old(self).table(), #[trigger] methods@.take(i)),
            r is Err ==> final(self).wf(),
    {
        let ghost st0 = self.table();
        let mut out: Vec<CilMethod> = Vec::new();
        let n = methods.len();
        for i in 0..n
            invariant
                n == methods@.len(),
                st0 == old(self).table(),
                self.wf(),
                image@.len() <= isize::MAX,
                assembly_table(st0, methods@).1.len() <= u32::MAX,
                self.table() == assembly_table(st0, methods@.take(i as int)),
                out@.len() == i,
                forall|j: int|
                    0 <= j < i ==> method_parsed(
                        image@,
                        assembly_table(st0, methods@.take(j)),
                        #[trigger] methods@[j],
                        Ok(out@[j]),
                    ),
        {
            proof {
                assert(methods@.take(i + 1).drop_last() =~= methods@.take(i as int));
                assert(methods@.take(i + 1).last() == methods@[i as int]);
                lemma_assembly_table_prefix(st0, methods@, i + 1);
            }
            match self.parse_method(image, &methods[i]) {
                Ok(m) => {
                    out.push(m);
                },
                Err(e) => {
                    proof {
                        lemma_prefix_not_failed(image@, st0, methods@, out@, i as int);
                    }
                    let me = MethodError { method: methods[i].name.clone(), error: e };
                    proof {
                        let ii = i as int;
                        assert(me.method@ == methods@[ii].name@);
                        assert(method_parsed(image@, assembly_table(st0, methods@.take(ii)), methods@[ii], Err(me.error)));
                        assert(self.table() == assembly_table(st0, methods@.take(ii)));
                        assert(failed_at(image@, st0, methods@, me, ii));
                    }
                    return Err(me);
                },
            }
        }
        proof {
            assert(methods@.take(n as int) =~= methods@);
        }
        let ghost st = self.table();
        let mut types: Vec<CilTypeInfo> = Vec::new();
        std::mem::swap(&mut types, &mut self.types);
        proof {
            assert(self.table().1 =~= Seq::<Seq<char>>::empty());
            assert(self.table().0 == st.0);
            assert forall|j: int| 0 <= j < out@.len() implies method_analyzable(#[trigger] out@[j]) by {
                lemma_parsed_analyzable(image@, assembly_table(st0, methods@.take(j)), methods@[j], out@[j]);
            }
        }
        Ok(CilAssembly { methods: out, types })
    }
}

/// The empty type table.
pub open spec fn empty_table() -> TypeTable {
    (Map::empty(), Seq::empty())
}

/// Looks up `refs` in order while the table has room; false, with the table as far as it got,
/// when it runs out of room before the end.
fn intern_refs(p: &mut Parser, refs: &Vec<TypeRef>) -> (ok: bool)
    requires
        old(p).wf(),
        old(p).table().1.len() <= u32::MAX,
    ensures
        final(p).wf(),
        final(p).table().1.len() <= u32::MAX,
        ok ==> final(p).table() == intern_seq(old(p).table(), refs@).0,
        ok == (intern_seq(old(p).table(), refs@).0.1.len() <= u32::MAX),
{
    let ghost st0 = p.table();
    let n = refs.len();
    for k in 0..n
        invariant
            n == refs@.len(),
            st0 == old(p).table(),
            p.wf(),
            p.table().1.len() <= u32::MAX,
            p.table() == intern_seq(st0, refs@.take(k as int)).0,
    {
        proof {
            assert(refs@.take(k + 1).drop_last() =~= refs@.take(k as int));
            assert(refs@.take(k + 1).last() == refs@[k as int]);
        }
        let ghost before = p.table();
        if !p.intern_if_room(&refs[k]) {
            proof {
                assert(intern_seq(st0, refs@.take(k + 1)).0 == intern(before, refs@[k as int].token, refs@[k as int].name@).0);
                lemma_intern_seq_prefix(st0, refs@, k + 1);
            }
            return false;
        }
    }
    proof {
        assert(refs@.take(n as int) =~= refs@);
    }
    true
}

/// Whether the types that the methods refer to fit in a table indexed in 32 bits: whether
/// reading them in order leaves at most `u32::MAX` types in a table that starts empty.
fn table_fits(methods: &Vec<MethodInfo>) -> (b: bool)
    ensures
        b == (assembly_table(empty_table(), methods@).1.len() <= u32::MAX),
{
    let mut p = Parser::new();
    let ghost st0 = p.table();
    proof {
        assert(st0 == empty_table());
    }
    let n = methods.len();
    for i in 0..n
        invariant
            n == methods@.len(),
            p.wf(),
            st0 == empty_table(),
            p.table().1.len() <= u32::MAX,
            p.table() == assembly_table(st0, methods@.take(i as int)),
    {
        let ghost sti = p.table();
        let ghost m = methods@[i as int];
        proof {
            assert(methods@.take(i + 1).drop_last() =~= methods@.take(i as int));
            assert(methods@.take(i + 1).last() == m);
        }
        let method = &methods[i];
        match &method.body {
            Some(b) => {
                match &b.method_offset {
                    Some(Ok(o)) => {
                        if o.checked_add(b.size_header).is_some() {
                            if !intern_refs(&mut p, &b.locals) {
                                proof {
                                    lemma_method_table_grows(sti, m);
                                    lemma_assembly_table_prefix(st0, methods@, i + 1);
                                }
                                return false;
                            }
                        }
                    },
                    _ => {},
                }
            },
            None => {},
        }
        let ghost st1 = p.table();
        let ghost refs = param_types(method.params@);
        proof {
            assert(st1 == match m.body {
                Some(b) => body_table(sti, b),
                None => sti,
            });
        }
        let np = method.params.len();
        for k in 0..np
            invariant
                np == method.params@.len(),
                refs == param_types(method.params@),
                n == methods@.len(),
                i < n,
                st0 == empty_table(),
                m == methods@[i as int],
                *method == m,
                sti == assembly_table(st0, methods@.take(i as int)),
                method_table(sti, m) == intern_seq(st1, refs).0,
                p.wf(),
                p.table().1.len() <= u32::MAX,
                p.table() == intern_seq(st1, refs.take(k as int)).0,
        {
            proof {
                assert(refs.take(k + 1).drop_last() =~= refs.take(k as int));
                assert(refs.take(k + 1).last() == method.params@[k as int].typ);
            }
            let ghost before = p.table();
            if !p.intern_if_room(&method.params[k].typ) {
                proof {
                    assert(intern_seq(st1, refs.take(k + 1)).0 == intern(before, refs[k as int].token, refs[k as int].name@).0);
                    lemma_intern_seq_prefix(st1, refs, k + 1);
                    assert(methods@.take(i + 1).drop_last() =~= methods@.take(i as int));
                    assert(methods@.take(i + 1).last() == m);
                    lemma_assembly_table_prefix(st0, methods@, i + 1);
                }
                return false;
            }
        }
        proof {
            assert(refs.take(np as int) =~= refs);
        }
    }
    proof {
        assert(methods@.take(n as int) =~= methods@);
    }
    true
}

/// A reference to a type as the metadata reader gives it: its token and its name, each missing
/// where the reference no longer resolves.
#[derive(Debug)]
pub struct RawTypeRef {
    pub token: Option<u32>,
    pub name: Option<String>,
}

/// A parameter as the metadata reader gives it: its name and its type, each possibly missing.
#[derive(Debug)]
pub struct RawParam {
    pub name: Option<String>,
    pub typ: Option<RawTypeRef>,
}

/// The body of a method as the metadata reader gives it: where its header lies in the file (as
/// in `BodyInfo`), the size of that header, and the types of its locals.
#[derive(Debug)]
pub struct RawCode {
    pub method_offset: Option<Result<usize, String>>,
    pub size_header: usize,
    pub locals: Vec<RawTypeRef>,
}

/// A method as the metadata reader gives it: its name, its body if it has one, its parameters.
#[derive(Debug)]
pub struct RawMethod {
    pub name: String,
    pub code: Option<RawCode>,
    pub params: Vec<RawParam>,
}

/// Why an assembly could not be parsed.
#[derive(Debug)]
pub enum AssemblyError {
    /// The bytes do not load as an assembly; the metadata reader's message.
    Load(String),
    /// The record of the named method lacks the token or name of a type, or the name or type of
    /// a parameter.
    Incomplete(String),
    /// The methods refer to more types than indices of 32 bits can name.
    TooManyTypes,
    /// A method could not be parsed.
    Method(MethodError),
}

pub open spec fn type_complete(r: RawTypeRef) -> bool {
    r.token is Some && r.name is Some
}

/// `r` records the type `t`.
pub open spec fn type_describes(r: RawTypeRef, t: TypeRef) -> bool {
    r.token == Some(t.token) && r.name == Some(t.name)
}

pub open spec fn param_complete(p: RawParam) -> bool {
    &&& p.name is Some
    &&& p.typ matches Some(t) && type_complete(t)
}

/// `p` records the parameter `q`.
pub open spec fn param_describes(p: RawParam, q: ParamInfo) -> bool {
    &&& p.name == Some(q.name)
    &&& p.typ matches Some(t) && type_describes(t, q.typ)
}

/// The record of a method has every type and parameter that reading the method needs.
pub open spec fn method_complete(m: RawMethod) -> bool {
    &&& m.code matches Some(c) ==> forall|k: int|
        0 <= k < c.locals@.len() ==> type_complete(#[trigger] c.locals@[k])
    &&& forall|k: int| 0 <= k < m.params@.len() ==> param_complete(#[trigger] m.params@[k])
}

/// `r` records the method `m`.
pub open spec fn method_describes(r: RawMethod, m: MethodInfo) -> bool {
    &&& m.name == r.name
    &&& match (r.code, m.body) {
        (None, None) => true,
        (Some(c), Some(b)) => c.method_offset == b.method_offset && c.size_header == b.size_header
            && c.locals@.len() == b.locals@.len() && forall|k: int|
            0 <= k < c.locals@.len() ==> type_describes(#[trigger] c.locals@[k], b.locals@[k]),
        _ => false,
    }
    &&& r.params@.len() == m.params@.len()
    &&& forall|k: int| 0 <= k < r.params@.len() ==> param_describes(#[trigger] r.params@[k], m.params@[k])
}

/// The records `recs` record the methods `ms`, one each.
pub open spec fn all_describe(recs: Seq<RawMethod>, ms: Seq<MethodInfo>) -> bool {
    &&& ms.len() == recs.len()
    &&& forall|i: int| 0 <= i < recs.len() ==> method_describes(#[trigger] recs[i], ms[i])
}

/// Record `i` is the first of `recs` that is not complete.
pub open spec fn first_incomplete(recs: Seq<RawMethod>, i: int) -> bool {
    &&& 0 <= i < recs.len()
    &&& !method_complete(recs[i])
    &&& forall|j: int| 0 <= j < i ==> method_complete(#[trigger] recs[j])
}

/// What parsing the assembly whose methods the records `recs` hold gives on the image: the name
/// of the method of the first incomplete record; else, for the methods they record, too many
/// types when the table of their types would not fit indices of 32 bits, or what reading them in
/// order from an empty type table gives (`assembly_parsed`).
pub open spec fn records_parsed(
    image: Seq<u8>,
    recs: Seq<RawMethod>,
    r: Result<CilFile, AssemblyError>,
) -> bool {
    if exists|i: int| 0 <= i < recs.len() && !method_complete(#[trigger] recs[i]) {
        r matches Err(AssemblyError::Incomplete(name)) && exists|i: int|
            #[trigger] first_incomplete(recs, i) && name == recs[i].name
    } else {
        exists|ms: Seq<MethodInfo>|
            #[trigger] all_describe(recs, ms) && if assembly_table(empty_table(), ms).1.len()
                > u32::MAX {
                r matches Err(AssemblyError::TooManyTypes)
            } else {
                match r {
                    Ok(f) => assembly_parsed(image, empty_table(), ms, Ok(f)),
                    Err(AssemblyError::Method(e)) => assembly_parsed(image, empty_table(), ms, Err(e)),
                    _ => false,
                }
            }
    }
}

fn type_of(r: &RawTypeRef) -> (t: Option<TypeRef>)
    ensures
        t is Some <==> type_complete(*r),
        t matches Some(t) ==> type_describes(*r, t),
{
    match (&r.token, &r.name) {
        (Some(token), Some(name)) => Some(TypeRef { token: *token, name: name.clone() }),
        _ => None,
    }
}

fn offset_of(o: &Option<Result<usize, String>>) -> (c: Option<Result<usize, String>>)
    ensures
        c == *o,
{
    match o {
        Some(Ok(x)) => Some(Ok(*x)),
        Some(Err(m)) => Some(Err(m.clone())),
        None => None,
    }
}

/// The method that a record holds, if it is complete.
fn method_of(r: &RawMethod) -> (m: Option<MethodInfo>)
    ensures
        m is Some <==> method_complete(*r),
        m matches Some(m) ==> method_describes(*r, m),
{
    let body = match &r.code {
        Some(c) => {
            let mut locals: Vec<TypeRef> = Vec::new();
            let n = c.locals.len();
            for k in 0..n
                invariant
                    n == c.locals@.len(),
                    r.code == Some(*c),
                    locals@.len() == k,
                    forall|j: int| 0 <= j < k ==> type_complete(#[trigger] c.locals@[j]) && type_describes(c.locals@[j], locals@[j]),
            {
                match type_of(&c.locals[k]) {
                    Some(t) => locals.push(t),
                    None => {
                        return None;
                    },
                }
            }
            Some(BodyInfo { method_offset: offset_of(&c.method_offset), size_header: c.size_header, locals })
        },
        None => None,
    };
    let mut params: Vec<ParamInfo> = Vec::new();
    let n = r.params.len();
    for k in 0..n
        invariant
            n == r.params@.len(),
            params@.len() == k,
            forall|j: int| 0 <= j < k ==> param_complete(#[trigger] r.params@[j]) && param_describes(r.params@[j], params@[j]),
    {
        let p = &r.params[k];
        let name = match &p.name {
            Some(name) => name.clone(),
            None => {
                return None;
            },
        };
        let typ = match &p.typ {
            Some(t) => match type_of(t) {
                Some(t) => t,
                None => {
                    return None;
                },
            },
            None => {
                return None;
            },
        };
        params.push(ParamInfo { name, typ });
    }
    Some(MethodInfo { name: r.name.clone(), body, params })
}

/// Parses the assembly whose methods the metadata reader recorded in `recs`, in token order,
/// with `image` the file's bytes; see `records_parsed`.
pub fn parse_records(image: &[u8], recs: &Vec<RawMethod>) -> (r: Result<CilFile, AssemblyError>)
    requires
        image@.len() <= isize::MAX,
    ensures
        records_parsed(image@, recs@, r),
{
    let mut methods: Vec<MethodInfo> = Vec::new();
    let n = recs.len();
    for i in 0..n
        invariant
            n == recs@.len(),
            methods@.len() == i,
            forall|j: int| 0 <= j < i ==> method_complete(#[trigger] recs@[j]) && method_describes(recs@[j], methods@[j]),
    {
        match method_of(&recs[i]) {
            Some(m) => methods.push(m),
            None => {
                proof {
                    assert(first_incomplete(recs@, i as int));
                }
                return Err(AssemblyError::Incomplete(recs[i].name.clone()));
            },
        }
    }
    proof {
        assert(all_describe(recs@, methods@));
        assert(!exists|i: int| 0 <= i < recs@.len() && !method_complete(#[trigger] recs@[i]));
    }
    if !table_fits(&methods) {
        return Err(AssemblyError::TooManyTypes);
    }
    let mut p = Parser::new();
    proof {
        assert(p.table() == empty_table());
    }
    match p.parse_assembly(image, &methods) {
        Ok(f) => Ok(f),
        Err(e) => Err(AssemblyError::Method(e)),
    }
}

#[verifier::external_type_specification]
#[verifier::external_body]
pub struct ExCilObject(dotscope::CilObject);

#[verifier::external_type_specification]
#[verifier::external_body]
pub struct ExMethod(dotscope::metadata::method::Method);

/// `CilObject::from_mem`: the metadata reader's view of the assembly held in `bytes`, or its
/// error as text. Nothing is stated of either: the reader resolves the metadata with loaders that
/// run in parallel and give constructed types tokens from a shared counter, so what it records
/// is not a function of the bytes alone, and a loaded object is opaque here.
#[verifier::external_body]
fn load_assembly(bytes: &[u8]) -> (r: Result<dotscope::CilObject, String>) {
    dotscope::CilObject::from_mem(bytes.to_vec()).map_err(|e| e.to_string())
}

/// `CilObject::methods`: the assembly's methods, in the order of their tokens (the reader keeps
/// them in a map ordered by token). Nothing is stated of them: the object is opaque here.
#[verifier::external_body]
fn assembly_methods(obj: &dotscope::CilObject) -> (r: Vec<Arc<dotscope::metadata::method::Method>>) {
    obj.methods().iter().map(|e| e.value().clone()).collect()
}

/// The name that the reader records of a method (its field `name`). Nothing is stated of it:
/// the method is opaque here.
#[verifier::external_body]
fn method_name(m: &Arc<dotscope::metadata::method::Method>) -> (r: String) {
    m.name.clone()
}

/// The size of the header of a method's body (`Method::body`, field `size_header`); `None` for
/// a method without a body. Nothing is stated of it: the method is opaque here.
#[verifier::external_body]
fn method_size_header(m: &Arc<dotscope::metadata::method::Method>) -> (r: Option<usize>) {
    match m.body.get() {
        Some(b) => Some(b.size_header),
        None => None,
    }
}

/// `File::rva_to_offset` on the RVA of a method: where its header lies in the file, or the
/// reader's error as text; `None` for a method without an RVA. Nothing is stated of it: the
/// object and the method are opaque here.
#[verifier::external_body]
fn method_offset(
    obj: &dotscope::CilObject,
    m: &Arc<dotscope::metadata::method::Method>,
) -> (r: Option<Result<usize, String>>) {
    match m.rva {
        Some(rva) => Some(obj.file().rva_to_offset(rva as usize).map_err(|e| e.to_string())),
        None => None,
    }
}

/// The types of a method's locals (field `local_vars`), each as `CilTypeRef::token` and
/// `CilTypeRef::name` give it. Nothing is stated of them: the method is opaque here.
#[verifier::external_body]
fn method_locals(m: &Arc<dotscope::metadata::method::Method>) -> (r: Vec<RawTypeRef>) {
    let mut out = Vec::new();
    for (_, local) in m.local_vars.iter() {
        out.push(RawTypeRef { token: local.base.token().map(|t| t.value()), name: local.base.name() });
    }
    out
}

/// The parameters of a method (field `params`), each with its name and, where it is resolved,
/// its type as `CilTypeRef::token` and `CilTypeRef::name` give it. Nothing is stated of them:
/// the method is opaque here.
#[verifier::external_body]
fn method_params(m: &Arc<dotscope::metadata::method::Method>) -> (r: Vec<RawParam>) {
    let mut out = Vec::new();
    for (_, arg) in m.params.iter() {
        let typ = match arg.base.get() {
            Some(t) => Some(RawTypeRef { token: t.token().map(|k| k.value()), name: t.name() }),
            None => None,
        };
        out.push(RawParam { name: arg.name.clone(), typ });
    }
    out
}

/// What the reader records of a method: its name, its body's header and locals when it has a
/// body, and its parameters.
fn read_method(obj: &dotscope::CilObject, m: &Arc<dotscope::metadata::method::Method>) -> (r: RawMethod) {
    let code = match method_size_header(m) {
        Some(size_header) => Some(
            RawCode { method_offset: method_offset(obj, m), size_header, locals: method_locals(m) },
        ),
        None => None,
    };
    RawMethod { name: method_name(m), code, params: method_params(m) }
}

/// Parses the assembly held in `bytes`: loads it with the metadata reader, reads the records of
/// its methods in token order, and parses them with `bytes` as the image (`parse_records`).
/// Unless the reader refuses the bytes, the result is what `parse_records` gives for the records
/// that the reader made.
pub fn parse_assembly_from_bytes(bytes: &[u8]) -> (r: Result<CilFile, AssemblyError>)
    requires
        bytes@.len() <= isize::MAX,
    ensures
        r matches Err(AssemblyError::Load(_)) || exists|recs: Seq<RawMethod>|
            #[trigger] records_parsed(bytes@, recs, r),
{
    let obj = match load_assembly(bytes) {
        Ok(o) => o,
        Err(msg) => {
            return Err(AssemblyError::Load(msg));
        },
    };
    let methods = assembly_methods(&obj);
    let mut recs: Vec<RawMethod> = Vec::new();
    let n = methods.len();
    for i in 0..n
        invariant
            n == methods@.len(),
    {
        recs.push(read_method(&obj, &methods[i]));
    }
    let r = parse_records(bytes, &recs);
    proof {
        assert(records_parsed(bytes@, recs@, r));
    }
    r
}

} // verus!
