//! Generating modules.
use mangle::codegen::{djb2_hash, Codegen, WasmImportsBackend, NUM_IMPORTS};
use mangle::ir::{Inst, Ir};

#[test]
fn test_codegen_with_imports() {
    // foo(X) :- bar(X).
    let mut ir = Ir::new();
    let foo = ir.intern_name("foo");
    let bar = ir.intern_name("bar");
    let name = ir.intern_name("X");
    let x = ir.add_inst(Inst::Var(name));
    let head = ir.add_inst(Inst::Atom { predicate: foo, args: vec![x] });
    let body = ir.add_inst(Inst::Atom { predicate: bar, args: vec![x] });
    ir.add_inst(Inst::Rule { head, premises: vec![body], transform: vec![] });

    let mut codegen = Codegen::new(&mut ir, WasmImportsBackend);
    let compiled = codegen.generate_within_limit().unwrap();

    assert!(!compiled.wasm.is_empty());

    let parser = wasmparser::Parser::new(0);
    let mut found_scan_start = false;
    let mut found_get_col = false;
    let mut found_const_number = false;
    let mut found_code = false;

    for payload in parser.parse_all(&compiled.wasm) {
        match payload.expect("parsing failed") {
            wasmparser::Payload::ImportSection(reader) => {
                for import in reader.into_imports() {
                    let import = import.expect("import failed");
                    if import.module == "env" {
                        match import.name {
                            "scan_start" => found_scan_start = true,
                            "get_col" => found_get_col = true,
                            "const_number" => found_const_number = true,
                            _ => {}
                        }
                    }
                }
            }
            wasmparser::Payload::CodeSectionEntry(_) => {
                found_code = true;
            }
            _ => {}
        }
    }
    assert!(found_scan_start, "scan_start import not found");
    assert!(found_get_col, "get_col import not found");
    assert!(found_const_number, "const_number import not found");
    assert!(found_code, "code section empty");
}

#[test]
fn test_codegen_string_constant() {
    // foo("hello").
    let mut ir = Ir::new();
    let foo = ir.intern_name("foo");
    let text = ir.intern_string("hello");
    let hello = ir.add_inst(Inst::String(text));
    let head = ir.add_inst(Inst::Atom { predicate: foo, args: vec![hello] });
    ir.add_inst(Inst::Rule { head, premises: vec![], transform: vec![] });

    let mut codegen = Codegen::new(&mut ir, WasmImportsBackend);
    let compiled = codegen.generate_within_limit().unwrap();

    assert!(!compiled.wasm.is_empty());
    // The string table contains "hello".
    assert!(
        compiled.strings.contains(&"hello".to_string()),
        "string table should contain 'hello'"
    );

    let parser = wasmparser::Parser::new(0);
    let mut found_const_string = false;
    for payload in parser.parse_all(&compiled.wasm) {
        match payload.expect("parsing failed") {
            wasmparser::Payload::ImportSection(reader) => {
                for import in reader.into_imports() {
                    let import = import.expect("import failed");
                    if import.name == "const_string" {
                        found_const_string = true;
                    }
                }
            }
            _ => {}
        }
    }
    assert!(found_const_string, "const_string import not found");
}

#[test]
fn modules_are_valid() {
    // even(X) :- start(X). even(Y) :- even(X), next(X, Y), X < 10, !bad(X).
    let mut ir = Ir::new();
    let names: Vec<_> = ["even", "start", "next", "bad", ":lt", "X", "Y"].iter().map(|n| ir.intern_name(n)).collect();
    let x = ir.add_inst(Inst::Var(names[5]));
    let y = ir.add_inst(Inst::Var(names[6]));
    let ten = ir.add_inst(Inst::Number(10));
    let even_x = ir.add_inst(Inst::Atom { predicate: names[0], args: vec![x] });
    let even_y = ir.add_inst(Inst::Atom { predicate: names[0], args: vec![y] });
    let start = ir.add_inst(Inst::Atom { predicate: names[1], args: vec![x] });
    let next = ir.add_inst(Inst::Atom { predicate: names[2], args: vec![x, y] });
    let bad = ir.add_inst(Inst::Atom { predicate: names[3], args: vec![x] });
    let not_bad = ir.add_inst(Inst::NegAtom(bad));
    let below = ir.add_inst(Inst::Atom { predicate: names[4], args: vec![x, ten] });
    ir.add_inst(Inst::Rule { head: even_x, premises: vec![start], transform: vec![] });
    ir.add_inst(Inst::Rule { head: even_y, premises: vec![even_x, next, below, not_bad], transform: vec![] });

    let strata = vec![vec!["even".to_string()]];
    let mut codegen = Codegen::new_with_stratified(&mut ir, strata, WasmImportsBackend);
    let compiled = codegen.generate_within_limit().unwrap();
    wasmparser::Validator::new().validate_all(&compiled.wasm).expect("valid module");

    let mut imports: u32 = 0;
    let mut exported = false;
    for payload in wasmparser::Parser::new(0).parse_all(&compiled.wasm) {
        match payload.unwrap() {
            wasmparser::Payload::ImportSection(reader) => {
                imports += reader.into_imports().count() as u32;
            }
            wasmparser::Payload::ExportSection(reader) => {
                exported = reader.into_iter().any(|e| e.unwrap().name == "run");
            }
            _ => {}
        }
    }
    assert_eq!(imports, NUM_IMPORTS);
    assert_eq!(NUM_IMPORTS, 38);
    assert!(exported);
}

#[test]
fn hashes_of_names() {
    assert_eq!(djb2_hash(""), 5381);
    assert_eq!(djb2_hash("a"), 5381 * 33 + 97);
    assert_eq!(djb2_hash("ab"), (5381 * 33 + 97) * 33 + 98);
}

#[test]
fn texts_are_in_the_tables_of_a_module() {
    // q("a", /n, {/f: Y}) :- p(X, "b"), Y = /m, X != "c".
    let mut ir = Ir::new();
    let names: Vec<_> = ["q", "p", "X", "Y", "/n", "/m", "/f"].iter().map(|n| ir.intern_name(n)).collect();
    let texts: Vec<_> = ["a", "b", "c"].iter().map(|s| ir.intern_string(s)).collect();
    let x = ir.add_inst(Inst::Var(names[2]));
    let y = ir.add_inst(Inst::Var(names[3]));
    let n = ir.add_inst(Inst::Name(names[4]));
    let m = ir.add_inst(Inst::Name(names[5]));
    let strings: Vec<_> = texts.iter().map(|&t| ir.add_inst(Inst::String(t))).collect();
    let held = ir.add_inst(Inst::Struct { fields: vec![names[6]], values: vec![y] });
    let head = ir.add_inst(Inst::Atom { predicate: names[0], args: vec![strings[0], n, held] });
    let read = ir.add_inst(Inst::Atom { predicate: names[1], args: vec![x, strings[1]] });
    let set = ir.add_inst(Inst::Eq(y, m));
    let differs = ir.add_inst(Inst::Ineq(x, strings[2]));
    ir.add_inst(Inst::Rule { head, premises: vec![read, set, differs], transform: vec![] });
    let compiled = Codegen::new(&mut ir, WasmImportsBackend).generate_within_limit().unwrap();

    let mut imports = Vec::new();
    let mut found = Vec::new();
    for payload in wasmparser::Parser::new(0).parse_all(&compiled.wasm) {
        match payload.unwrap() {
            wasmparser::Payload::ImportSection(reader) => {
                for import in reader.into_imports() {
                    imports.push(import.unwrap().name.to_string());
                }
            }
            wasmparser::Payload::CodeSectionEntry(body) => {
                let mut last = None;
                for op in body.get_operators_reader().unwrap() {
                    let op = op.unwrap();
                    if let wasmparser::Operator::Call { function_index } = op {
                        let table = match imports.get(function_index as usize).map(|s| s.as_str()) {
                            Some("const_string") => Some(&compiled.strings),
                            Some("const_name") => Some(&compiled.names),
                            _ => None,
                        };
                        if let Some(table) = table {
                            let place: i32 = last.expect("a place before the call");
                            assert!(1 <= place && place as usize <= table.len());
                            found.push(table[place as usize - 1].clone());
                        }
                    }
                    last = match op {
                        wasmparser::Operator::I32Const { value } => Some(value),
                        _ => None,
                    };
                }
            }
            _ => {}
        }
    }
    found.sort();
    found.dedup();
    assert_eq!(found, vec!["/f", "/m", "/n", "a", "b", "c"]);
}
