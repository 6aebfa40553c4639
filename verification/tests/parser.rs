use ilcc::cil::{CilInst, CilType};
use ilcc::parsers::decode::DecodeError;
use ilcc::parsers::disasm::DisasmError;
use ilcc::parsers::dotscope::{
    parse_assembly_from_bytes, parse_records, AssemblyError, BodyInfo, MethodInfo, ParamInfo,
    ParseError, Parser, RawCode, RawMethod, RawParam, RawTypeRef, TypeRef,
};

fn tref(token: u32, name: &str) -> TypeRef {
    TypeRef { token, name: name.to_string() }
}

#[test]
fn types_are_interned_by_token() {
    let mut p = Parser::new();
    let a = p.get_type(&tref(0x0100_0001, "Int32"));
    let b = p.get_type(&tref(0x0100_0002, "String"));
    let a2 = p.get_type(&tref(0x0100_0001, "Other"));
    assert_eq!(a, CilType::new(0));
    assert_eq!(b, CilType::new(1));
    assert_eq!(a2, a);
}

#[test]
fn assembly_is_parsed() {
    // header of one byte, then: ldarg.0; ret
    let image = vec![0xff, 0x02, 0x2a];
    let methods = vec![
        MethodInfo {
            name: "Id".to_string(),
            body: Some(BodyInfo {
                method_offset: Some(Ok(0)),
                size_header: 1,
                locals: vec![tref(0x0100_0001, "Int32")],
            }),
            params: vec![
                ParamInfo { name: "x".to_string(), typ: tref(0x0100_0001, "Int32") },
                ParamInfo { name: "s".to_string(), typ: tref(0x0100_0002, "String") },
            ],
        },
        MethodInfo {
            name: "Extern".to_string(),
            body: None,
            params: vec![ParamInfo { name: "y".to_string(), typ: tref(0x0100_0002, "String") }],
        },
        MethodInfo {
            name: "Abstract".to_string(),
            body: Some(BodyInfo { method_offset: None, size_header: 0, locals: Vec::new() }),
            params: Vec::new(),
        },
    ];
    let mut p = Parser::new();
    let file = p.parse_assembly(&image, &methods).unwrap();
    assert_eq!(file.methods.len(), 3);
    assert_eq!(file.types.len(), 2);
    assert_eq!(file.types[0].name, "Int32");
    assert_eq!(file.types[1].name, "String");

    let m = &file.methods[0];
    assert_eq!(m.name, "Id");
    let body = m.body.as_ref().unwrap();
    assert_eq!(body.blocks.len(), 1);
    assert_eq!(body.blocks[0].offset, 1);
    assert_eq!(body.blocks[0].insts.len(), 2);
    assert_eq!(body.blocks[0].insts[1], CilInst::Return);
    assert_eq!(body.locals.len(), 1);
    assert_eq!(body.locals[0].typ, CilType::new(0));
    assert!(body.locals[0].name.is_none());
    assert_eq!(m.params[0].name, "x");
    assert_eq!(m.params[0].typ, CilType::new(0));
    assert_eq!(m.params[1].name, "s");
    assert_eq!(m.params[1].typ, CilType::new(1));

    let m = &file.methods[1];
    assert!(m.body.is_none());
    assert_eq!(m.params[0].typ, CilType::new(1));
    assert!(file.methods[2].body.is_none());
    assert_eq!(file.type_info(m.params[0].typ).name, "String");
}

#[test]
fn unmapped_rva_is_reported_with_the_method() {
    let methods = vec![MethodInfo {
        name: "Broken".to_string(),
        body: Some(BodyInfo {
            method_offset: Some(Err("rva 0x2050 lies in no section".to_string())),
            size_header: 1,
            locals: Vec::new(),
        }),
        params: Vec::new(),
    }];
    let err = Parser::new().parse_assembly(&[0x2a], &methods).unwrap_err();
    assert_eq!(err.method, "Broken");
    match err.error {
        ParseError::BadRva(msg) => assert_eq!(msg, "rva 0x2050 lies in no section"),
        other => panic!("unexpected error {:?}", other),
    }
}

#[test]
fn overflowing_header_is_refused() {
    let methods = vec![MethodInfo {
        name: "Huge".to_string(),
        body: Some(BodyInfo {
            method_offset: Some(Ok(usize::MAX)),
            size_header: 1,
            locals: Vec::new(),
        }),
        params: Vec::new(),
    }];
    let err = Parser::new().parse_assembly(&[0x2a], &methods).unwrap_err();
    assert_eq!(err.method, "Huge");
    assert!(matches!(err.error, ParseError::BadSizeHeader));
}

#[test]
fn bad_code_stops_the_parse() {
    let methods = vec![
        MethodInfo { name: "Fine".to_string(), body: None, params: Vec::new() },
        MethodInfo {
            name: "Garbage".to_string(),
            body: Some(BodyInfo { method_offset: Some(Ok(0)), size_header: 0, locals: Vec::new() }),
            params: Vec::new(),
        },
    ];
    let err = Parser::new().parse_assembly(&[0x11], &methods).unwrap_err();
    assert_eq!(err.method, "Garbage");
    assert!(matches!(
        err.error,
        ParseError::Disassembly(DisasmError::Decode(DecodeError::UnknownInstruction(0x11)))
    ));
}

#[test]
fn type_indices_are_dense() {
    let mut p = Parser::new();
    let tokens = [7u32, 3, 7, 9, 3, 1, 9];
    let mut seen: Vec<u32> = Vec::new();
    for &t in &tokens {
        let ty = p.get_type(&tref(t, "T"));
        match seen.iter().position(|&s| s == t) {
            Some(i) => assert_eq!(ty, CilType::new(i)),
            None => {
                assert_eq!(ty, CilType::new(seen.len()));
                seen.push(t);
            }
        }
    }
    assert_eq!(seen.len(), 4);
}

#[test]
fn failed_parse_keeps_the_types_of_the_methods_before() {
    let methods = vec![
        MethodInfo {
            name: "Fine".to_string(),
            body: None,
            params: vec![ParamInfo { name: "a".to_string(), typ: tref(5, "A") }],
        },
        MethodInfo {
            name: "Garbage".to_string(),
            body: Some(BodyInfo {
                method_offset: Some(Ok(0)),
                size_header: 0,
                locals: vec![tref(6, "B")],
            }),
            params: vec![ParamInfo { name: "c".to_string(), typ: tref(7, "C") }],
        },
        MethodInfo {
            name: "Later".to_string(),
            body: None,
            params: vec![ParamInfo { name: "d".to_string(), typ: tref(8, "D") }],
        },
    ];
    let mut p = Parser::new();
    let err = p.parse_assembly(&[0x11], &methods).unwrap_err();
    assert_eq!(err.method, "Garbage");
    assert_eq!(p.get_type(&tref(5, "A")), CilType::new(0));
    assert_eq!(p.get_type(&tref(8, "D")), CilType::new(1));
    assert_eq!(p.get_type(&tref(6, "B")), CilType::new(2));
}

fn raw_type(token: u32, name: &str) -> RawTypeRef {
    RawTypeRef { token: Some(token), name: Some(name.to_string()) }
}

#[test]
fn records_are_parsed() {
    // header of one byte, then: ldarg.0; ret
    let image = vec![0xff, 0x02, 0x2a];
    let recs = vec![RawMethod {
        name: "Id".to_string(),
        code: Some(RawCode {
            method_offset: Some(Ok(0)),
            size_header: 1,
            locals: vec![raw_type(0x0100_0001, "Int32")],
        }),
        params: vec![RawParam { name: Some("s".to_string()), typ: Some(raw_type(0x0100_0002, "String")) }],
    }];
    let file = parse_records(&image, &recs).unwrap();
    assert_eq!(file.methods.len(), 1);
    assert_eq!(file.types.len(), 2);
    assert_eq!(file.types[0].name, "Int32");
    assert_eq!(file.types[1].name, "String");
    let m = &file.methods[0];
    assert_eq!(m.name, "Id");
    assert_eq!(m.params[0].name, "s");
    assert_eq!(m.params[0].typ, CilType::new(1));
    let body = m.body.as_ref().unwrap();
    assert_eq!(body.blocks[0].offset, 1);
    assert_eq!(body.locals[0].typ, CilType::new(0));
}

fn unresolved_local() -> RawMethod {
    RawMethod {
        name: "Unresolved".to_string(),
        code: Some(RawCode {
            method_offset: None,
            size_header: 0,
            locals: vec![RawTypeRef { token: Some(2), name: None }],
        }),
        params: Vec::new(),
    }
}

#[test]
fn incomplete_record_is_reported() {
    let recs = vec![
        RawMethod { name: "Fine".to_string(), code: None, params: Vec::new() },
        RawMethod {
            name: "NoName".to_string(),
            code: None,
            params: vec![RawParam { name: None, typ: Some(raw_type(1, "T")) }],
        },
        unresolved_local(),
    ];
    match parse_records(&[0x2a], &recs) {
        Err(AssemblyError::Incomplete(name)) => assert_eq!(name, "NoName"),
        other => panic!("unexpected result {:?}", other.map(|f| f.methods.len())),
    }
    match parse_records(&[0x2a], &vec![unresolved_local()]) {
        Err(AssemblyError::Incomplete(name)) => assert_eq!(name, "Unresolved"),
        other => panic!("unexpected result {:?}", other.map(|f| f.methods.len())),
    }
}

#[test]
fn method_errors_come_through_records() {
    let recs = vec![RawMethod {
        name: "Garbage".to_string(),
        code: Some(RawCode { method_offset: Some(Ok(0)), size_header: 0, locals: Vec::new() }),
        params: Vec::new(),
    }];
    match parse_records(&[0x11], &recs) {
        Err(AssemblyError::Method(e)) => {
            assert_eq!(e.method, "Garbage");
            assert!(matches!(
                e.error,
                ParseError::Disassembly(DisasmError::Decode(DecodeError::UnknownInstruction(0x11)))
            ));
        }
        other => panic!("unexpected result {:?}", other.map(|f| f.methods.len())),
    }
}

#[test]
fn bytes_that_are_no_assembly_do_not_load() {
    match parse_assembly_from_bytes(&[0x4d, 0x5a, 0x00, 0x01, 0x02]) {
        Err(AssemblyError::Load(msg)) => assert!(!msg.is_empty()),
        other => panic!("unexpected result {:?}", other.map(|f| f.methods.len())),
    }
}
