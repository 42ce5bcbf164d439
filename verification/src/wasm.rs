//! WebAssembly modules as plain values, and their binary form.
use vstd::prelude::*;

verus! {

/// The type of a value.
#[derive(Clone, Copy, PartialEq, Eq, Structural, Debug)]
pub enum WasmType {
    I32,
    I64,
    ExternRef,
}

/// An instruction. A block, a loop and a conditional have no result; the null reference
/// is that of an external value.
#[derive(Clone, Copy, PartialEq, Eq, Structural, Debug)]
pub enum Instr {
    LocalGet(u32),
    LocalSet(u32),
    LocalTee(u32),
    I32Const(i32),
    I64Const(i64),
    I32Eqz,
    Call(u32),
    Drop,
    Block,
    Loop,
    If,
    Br(u32),
    BrIf(u32),
    End,
    RefNull,
}

/// What is exported.
#[derive(Clone, Copy, PartialEq, Eq, Structural, Debug)]
pub enum Export {
    Function,
    Memory,
}

/// A function type: of the parameters and of the results.
pub type Signature = (Seq<WasmType>, Seq<WasmType>);

/// A function body: its runs of locals, and its instructions.
pub type Body = (Seq<(u32, WasmType)>, Seq<Instr>);

/// A section of a module. An import has a module, a name and the index of a function type,
/// an export a name, a kind and an index. A memory has a least number of pages and no limit.
pub enum Section {
    Types(Seq<Signature>),
    Imports(Seq<(Seq<char>, Seq<char>, u32)>),
    Functions(Seq<u32>),
    Memories(Seq<u64>),
    Exports(Seq<(Seq<char>, Export, u32)>),
    Code(Seq<Body>),
}

/// `wasm_encoder::TypeSection`, opaque.
#[verifier::external_type_specification]
#[verifier::external_body]
pub struct ExTypeSection(wasm_encoder::TypeSection);

/// `wasm_encoder::ImportSection`, opaque.
#[verifier::external_type_specification]
#[verifier::external_body]
pub struct ExImportSection(wasm_encoder::ImportSection);

/// `wasm_encoder::FunctionSection`, opaque.
#[verifier::external_type_specification]
#[verifier::external_body]
pub struct ExFunctionSection(wasm_encoder::FunctionSection);

/// `wasm_encoder::MemorySection`, opaque.
#[verifier::external_type_specification]
#[verifier::external_body]
pub struct ExMemorySection(wasm_encoder::MemorySection);

/// `wasm_encoder::ExportSection`, opaque.
#[verifier::external_type_specification]
#[verifier::external_body]
pub struct ExExportSection(wasm_encoder::ExportSection);

/// `wasm_encoder::CodeSection`, opaque.
#[verifier::external_type_specification]
#[verifier::external_body]
pub struct ExCodeSection(wasm_encoder::CodeSection);

/// `wasm_encoder::Function`, opaque.
#[verifier::external_type_specification]
#[verifier::external_body]
pub struct ExFunction(wasm_encoder::Function);

/// `wasm_encoder::Module`, opaque.
#[verifier::external_type_specification]
#[verifier::external_body]
pub struct ExModule(wasm_encoder::Module);

/// The function types that a type section holds.
pub uninterp spec fn types_of(s: wasm_encoder::TypeSection) -> Seq<(Seq<WasmType>, Seq<WasmType>)>;

/// The imports that an import section holds.
pub uninterp spec fn imports_of(s: wasm_encoder::ImportSection) -> Seq<(Seq<char>, Seq<char>, u32)>;

/// The type indices that a function section holds.
pub uninterp spec fn functions_of(s: wasm_encoder::FunctionSection) -> Seq<u32>;

/// The least sizes of the memories that a memory section holds.
pub uninterp spec fn memories_of(s: wasm_encoder::MemorySection) -> Seq<u64>;

/// The exports that an export section holds.
pub uninterp spec fn exports_of(s: wasm_encoder::ExportSection) -> Seq<(Seq<char>, Export, u32)>;

/// The function bodies that a code section holds.
pub uninterp spec fn bodies_of(s: wasm_encoder::CodeSection) -> Seq<(Seq<(u32, WasmType)>, Seq<Instr>)>;

/// The runs of locals that a function body was made with.
pub uninterp spec fn locals_of(f: wasm_encoder::Function) -> Seq<(u32, WasmType)>;

/// The instructions that a function body holds.
pub uninterp spec fn code_of(f: wasm_encoder::Function) -> Seq<Instr>;

/// The sections that a module holds.
pub uninterp spec fn sections_of(m: wasm_encoder::Module) -> Seq<Section>;

/// The binary form of a module with these sections.
pub uninterp spec fn encoded(sections: Seq<Section>) -> Seq<u8>;

/// At most a thousand function types, each of at most a hundred parameters and results.
pub open spec fn types_fit(types: Seq<Signature>) -> bool {
    &&& types.len() <= 1000
    &&& forall|i: int|
        0 <= i < types.len() ==> (#[trigger] types[i]).0.len() <= 100 && types[i].1.len() <= 100
}

/// At most a thousand imports, each under names of at most a hundred characters.
pub open spec fn imports_fit(imports: Seq<(Seq<char>, Seq<char>, u32)>) -> bool {
    &&& imports.len() <= 1000
    &&& forall|i: int|
        0 <= i < imports.len() ==> (#[trigger] imports[i]).0.len() <= 100 && imports[i].1.len() <= 100
}

/// At most a thousand exports, each under a name of at most a hundred characters.
pub open spec fn exports_fit(exports: Seq<(Seq<char>, Export, u32)>) -> bool {
    &&& exports.len() <= 1000
    &&& forall|i: int| 0 <= i < exports.len() ==> (#[trigger] exports[i]).0.len() <= 100
}

/// Whether a function body takes less than four gigabytes, whatever its operands: a run of
/// locals takes at most six bytes, an instruction at most eleven.
pub open spec fn body_fits(locals: nat, code: nat) -> bool {
    6 * locals + 11 * code + 100 <= u32::MAX
}

/// `wasm_encoder::TypeSection::new`: a section without types.
#[verifier::external_body]
fn new_types() -> (s: wasm_encoder::TypeSection)
    ensures
        types_of(s) == Seq::<Signature>::empty(),
{
    wasm_encoder::TypeSection::new()
}

/// `wasm_encoder::TypeSection::ty` with `CoreTypeEncoder::function`: one more function type.
#[verifier::external_body]
fn add_type(s: &mut wasm_encoder::TypeSection, params: &[WasmType], results: &[WasmType])
    requires
        types_of(*old(s)).len() < 1000,
        params@.len() <= 100,
        results@.len() <= 100,
    ensures
        types_of(*final(s)) == types_of(*old(s)).push((params@, results@)),
{
    let outside = |t: &WasmType| match t {
        WasmType::I32 => wasm_encoder::ValType::I32,
        WasmType::I64 => wasm_encoder::ValType::I64,
        WasmType::ExternRef => wasm_encoder::ValType::EXTERNREF,
    };
    s.ty().function(params.iter().map(outside), results.iter().map(outside));
}

/// `wasm_encoder::ImportSection::new`: a section without imports.
#[verifier::external_body]
fn new_imports() -> (s: wasm_encoder::ImportSection)
    ensures
        imports_of(s).len() == 0,
{
    wasm_encoder::ImportSection::new()
}

/// `wasm_encoder::ImportSection::import`: one more import, of a function.
#[verifier::external_body]
fn add_import(s: &mut wasm_encoder::ImportSection, module: &str, name: &str, ty: u32)
    requires
        imports_of(*old(s)).len() < 1000,
        module@.len() <= 100,
        name@.len() <= 100,
    ensures
        imports_of(*final(s)) == imports_of(*old(s)).push((module@, name@, ty)),
{
    s.import(module, name, wasm_encoder::EntityType::Function(ty));
}

/// `wasm_encoder::FunctionSection::new`: a section without functions.
#[verifier::external_body]
fn new_functions() -> (s: wasm_encoder::FunctionSection)
    ensures
        functions_of(s) == Seq::<u32>::empty(),
{
    wasm_encoder::FunctionSection::new()
}

/// `wasm_encoder::FunctionSection::function`: one more function, of a type.
#[verifier::external_body]
fn add_function(s: &mut wasm_encoder::FunctionSection, ty: u32)
    requires
        functions_of(*old(s)).len() < 1000,
    ensures
        functions_of(*final(s)) == functions_of(*old(s)).push(ty),
{
    s.function(ty);
}

/// `wasm_encoder::MemorySection::new`: a section without memories.
#[verifier::external_body]
fn new_memories() -> (s: wasm_encoder::MemorySection)
    ensures
        memories_of(s) == Seq::<u64>::empty(),
{
    wasm_encoder::MemorySection::new()
}

/// `wasm_encoder::MemorySection::memory`: one more memory, unshared, of 32-bit addresses and
/// pages of the usual size, without a limit.
#[verifier::external_body]
fn add_memory(s: &mut wasm_encoder::MemorySection, minimum: u64)
    requires
        memories_of(*old(s)).len() < 1000,
    ensures
        memories_of(*final(s)) == memories_of(*old(s)).push(minimum),
{
    s.memory(wasm_encoder::MemoryType {
        minimum,
        maximum: None,
        memory64: false,
        shared: false,
        page_size_log2: None,
    });
}

/// `wasm_encoder::ExportSection::new`: a section without exports.
#[verifier::external_body]
fn new_exports() -> (s: wasm_encoder::ExportSection)
    ensures
        exports_of(s).len() == 0,
{
    wasm_encoder::ExportSection::new()
}

/// `wasm_encoder::ExportSection::export`: one more export.
#[verifier::external_body]
fn add_export(s: &mut wasm_encoder::ExportSection, name: &str, kind: Export, index: u32)
    requires
        exports_of(*old(s)).len() < 1000,
        name@.len() <= 100,
    ensures
        exports_of(*final(s)) == exports_of(*old(s)).push((name@, kind, index)),
{
    let kind = match kind {
        Export::Function => wasm_encoder::ExportKind::Func,
        Export::Memory => wasm_encoder::ExportKind::Memory,
    };
    s.export(name, kind, index);
}

/// `wasm_encoder::Function::new`: a function body with these runs of locals and without
/// instructions.
#[verifier::external_body]
fn new_body(locals: &Vec<(u32, WasmType)>) -> (f: wasm_encoder::Function)
    requires
        locals@.len() <= u32::MAX,
    ensures
        locals_of(f) == locals@,
        code_of(f) == Seq::<Instr>::empty(),
{
    wasm_encoder::Function::new(locals.iter().map(|l| match l.1 {
        WasmType::I32 => (l.0, wasm_encoder::ValType::I32),
        WasmType::I64 => (l.0, wasm_encoder::ValType::I64),
        WasmType::ExternRef => (l.0, wasm_encoder::ValType::EXTERNREF),
    }))
}

/// An instruction without an operand.
#[derive(Clone, Copy)]
enum Bare {
    I32Eqz,
    Drop,
    Block,
    Loop,
    If,
    End,
    RefNull,
}

/// An instruction with an index for an operand.
#[derive(Clone, Copy)]
enum Indexed {
    LocalGet,
    LocalSet,
    LocalTee,
    Call,
    Br,
    BrIf,
}

spec fn bare(b: Bare) -> Instr {
    match b {
        Bare::I32Eqz => Instr::I32Eqz,
        Bare::Drop => Instr::Drop,
        Bare::Block => Instr::Block,
        Bare::Loop => Instr::Loop,
        Bare::If => Instr::If,
        Bare::End => Instr::End,
        Bare::RefNull => Instr::RefNull,
    }
}

spec fn indexed(i: Indexed, n: u32) -> Instr {
    match i {
        Indexed::LocalGet => Instr::LocalGet(n),
        Indexed::LocalSet => Instr::LocalSet(n),
        Indexed::LocalTee => Instr::LocalTee(n),
        Indexed::Call => Instr::Call(n),
        Indexed::Br => Instr::Br(n),
        Indexed::BrIf => Instr::BrIf(n),
    }
}

/// `wasm_encoder::Function::instruction`: one more instruction, without an operand.
#[verifier::external_body]
fn push_bare(f: &mut wasm_encoder::Function, b: Bare)
    ensures
        code_of(*final(f)) == code_of(*old(f)).push(bare(b)),
        locals_of(*final(f)) == locals_of(*old(f)),
{
    f.instruction(&match b {
        Bare::I32Eqz => wasm_encoder::Instruction::I32Eqz,
        Bare::Drop => wasm_encoder::Instruction::Drop,
        Bare::Block => wasm_encoder::Instruction::Block(wasm_encoder::BlockType::Empty),
        Bare::Loop => wasm_encoder::Instruction::Loop(wasm_encoder::BlockType::Empty),
        Bare::If => wasm_encoder::Instruction::If(wasm_encoder::BlockType::Empty),
        Bare::End => wasm_encoder::Instruction::End,
        Bare::RefNull => wasm_encoder::Instruction::RefNull(wasm_encoder::HeapType::EXTERN),
    });
}

/// `wasm_encoder::Function::instruction`: one more instruction, with an index.
#[verifier::external_body]
fn push_indexed(f: &mut wasm_encoder::Function, i: Indexed, n: u32)
    ensures
        code_of(*final(f)) == code_of(*old(f)).push(indexed(i, n)),
        locals_of(*final(f)) == locals_of(*old(f)),
{
    f.instruction(&match i {
        Indexed::LocalGet => wasm_encoder::Instruction::LocalGet(n),
        Indexed::LocalSet => wasm_encoder::Instruction::LocalSet(n),
        Indexed::LocalTee => wasm_encoder::Instruction::LocalTee(n),
        Indexed::Call => wasm_encoder::Instruction::Call(n),
        Indexed::Br => wasm_encoder::Instruction::Br(n),
        Indexed::BrIf => wasm_encoder::Instruction::BrIf(n),
    });
}

/// `wasm_encoder::Function::instruction`: one more instruction, a 32-bit constant.
#[verifier::external_body]
fn push_i32(f: &mut wasm_encoder::Function, n: i32)
    ensures
        code_of(*final(f)) == code_of(*old(f)).push(Instr::I32Const(n)),
        locals_of(*final(f)) == locals_of(*old(f)),
{
    f.instruction(&wasm_encoder::Instruction::I32Const(n));
}

/// `wasm_encoder::Function::instruction`: one more instruction, a 64-bit constant.
#[verifier::external_body]
fn push_i64(f: &mut wasm_encoder::Function, n: i64)
    ensures
        code_of(*final(f)) == code_of(*old(f)).push(Instr::I64Const(n)),
        locals_of(*final(f)) == locals_of(*old(f)),
{
    f.instruction(&wasm_encoder::Instruction::I64Const(n));
}

/// `wasm_encoder::CodeSection::new`: a section without bodies.
#[verifier::external_body]
fn new_code() -> (s: wasm_encoder::CodeSection)
    ensures
        bodies_of(s) == Seq::<Body>::empty(),
{
    wasm_encoder::CodeSection::new()
}

/// `wasm_encoder::CodeSection::function`: one more function body.
#[verifier::external_body]
fn add_body(s: &mut wasm_encoder::CodeSection, f: &wasm_encoder::Function)
    requires
        bodies_of(*old(s)).len() == 0,
        body_fits(locals_of(*f).len(), code_of(*f).len()),
    ensures
        bodies_of(*final(s)) == bodies_of(*old(s)).push((locals_of(*f), code_of(*f))),
{
    s.function(f);
}

/// `wasm_encoder::Module::new`: a module without sections.
#[verifier::external_body]
fn new_module() -> (m: wasm_encoder::Module)
    ensures
        sections_of(m) == Seq::<Section>::empty(),
{
    wasm_encoder::Module::new()
}

/// `wasm_encoder::Module::section`: one more section, of types.
#[verifier::external_body]
fn add_types(m: &mut wasm_encoder::Module, s: &wasm_encoder::TypeSection)
    requires
        types_fit(types_of(*s)),
    ensures
        sections_of(*final(m)) == sections_of(*old(m)).push(Section::Types(types_of(*s))),
{
    m.section(s);
}

/// `wasm_encoder::Module::section`: one more section, of imports.
#[verifier::external_body]
fn add_imports(m: &mut wasm_encoder::Module, s: &wasm_encoder::ImportSection)
    requires
        imports_fit(imports_of(*s)),
    ensures
        sections_of(*final(m)) == sections_of(*old(m)).push(Section::Imports(imports_of(*s))),
{
    m.section(s);
}

/// `wasm_encoder::Module::section`: one more section, of functions.
#[verifier::external_body]
fn add_functions(m: &mut wasm_encoder::Module, s: &wasm_encoder::FunctionSection)
    requires
        functions_of(*s).len() <= 1000,
    ensures
        sections_of(*final(m)) == sections_of(*old(m)).push(Section::Functions(functions_of(*s))),
{
    m.section(s);
}

/// `wasm_encoder::Module::section`: one more section, of memories.
#[verifier::external_body]
fn add_memories(m: &mut wasm_encoder::Module, s: &wasm_encoder::MemorySection)
    requires
        memories_of(*s).len() <= 1000,
    ensures
        sections_of(*final(m)) == sections_of(*old(m)).push(Section::Memories(memories_of(*s))),
{
    m.section(s);
}

/// `wasm_encoder::Module::section`: one more section, of exports.
#[verifier::external_body]
fn add_exports(m: &mut wasm_encoder::Module, s: &wasm_encoder::ExportSection)
    requires
        exports_fit(exports_of(*s)),
    ensures
        sections_of(*final(m)) == sections_of(*old(m)).push(Section::Exports(exports_of(*s))),
{
    m.section(s);
}

/// `wasm_encoder::Module::section`: one more section, of code.
#[verifier::external_body]
fn add_code(m: &mut wasm_encoder::Module, s: &wasm_encoder::CodeSection)
    requires
        bodies_of(*s).len() == 1,
        body_fits(bodies_of(*s)[0].0.len(), bodies_of(*s)[0].1.len()),
    ensures
        sections_of(*final(m)) == sections_of(*old(m)).push(Section::Code(bodies_of(*s))),
{
    m.section(s);
}

/// `wasm_encoder::Module::finish`: the bytes of the module.
#[verifier::external_body]
fn finish(m: wasm_encoder::Module) -> (bytes: Vec<u8>)
    ensures
        bytes@ == encoded(sections_of(m)),
{
    m.finish()
}

/// Appends an instruction to a function body.
fn push_instr(f: &mut wasm_encoder::Function, i: Instr)
    ensures
        code_of(*final(f)) == code_of(*old(f)).push(i),
        locals_of(*final(f)) == locals_of(*old(f)),
{
    match i {
        Instr::LocalGet(n) => push_indexed(f, Indexed::LocalGet, n),
        Instr::LocalSet(n) => push_indexed(f, Indexed::LocalSet, n),
        Instr::LocalTee(n) => push_indexed(f, Indexed::LocalTee, n),
        Instr::I32Const(n) => push_i32(f, n),
        Instr::I64Const(n) => push_i64(f, n),
        Instr::I32Eqz => push_bare(f, Bare::I32Eqz),
        Instr::Call(n) => push_indexed(f, Indexed::Call, n),
        Instr::Drop => push_bare(f, Bare::Drop),
        Instr::Block => push_bare(f, Bare::Block),
        Instr::Loop => push_bare(f, Bare::Loop),
        Instr::If => push_bare(f, Bare::If),
        Instr::Br(n) => push_indexed(f, Indexed::Br, n),
        Instr::BrIf(n) => push_indexed(f, Indexed::BrIf, n),
        Instr::End => push_bare(f, Bare::End),
        Instr::RefNull => push_bare(f, Bare::RefNull),
    }
}

/// A function that the host provides, and the index of its type.
pub struct Import {
    pub name: &'static str,
    pub ty: u32,
}

/// The imports of a table, all from the host's module.
pub open spec fn import_entries(table: Seq<Import>) -> Seq<(Seq<char>, Seq<char>, u32)> {
    Seq::new(table.len(), |i: int| ("env"@, table[i].name@, table[i].ty))
}

/// A function type: of the parameters and of the results.
pub struct FuncType {
    pub params: Vec<WasmType>,
    pub results: Vec<WasmType>,
}

/// The models of function types.
pub open spec fn signatures(types: Seq<FuncType>) -> Seq<Signature> {
    Seq::new(types.len(), |i: int| (types[i].params@, types[i].results@))
}

/// A module that runs one function: the function is its first own one, and is exported with
/// a memory of one page.
pub struct Program {
    pub types: Vec<FuncType>,
    pub imports: Vec<Import>,
    /// The index of the function's type.
    pub ty: u32,
    /// The index of the function, after those of all imports that the host may provide.
    pub index: u32,
    pub locals: Vec<(u32, WasmType)>,
    pub code: Vec<Instr>,
}

/// The sections of a module that runs one function.
pub open spec fn program_sections(p: Program) -> Seq<Section> {
    seq![
        Section::Types(signatures(p.types@)),
        Section::Imports(import_entries(p.imports@)),
        Section::Functions(seq![p.ty]),
        Section::Memories(seq![1u64]),
        Section::Exports(
            seq![("run"@, Export::Function, p.index), ("memory"@, Export::Memory, 0u32)],
        ),
        Section::Code(seq![(p.locals@, p.code@)]),
    ]
}

/// Whether a module that runs one function stays below the format's four gigabytes a
/// section.
pub open spec fn program_fits(p: Program) -> bool {
    &&& types_fit(signatures(p.types@))
    &&& imports_fit(import_entries(p.imports@))
    &&& body_fits(p.locals@.len(), p.code@.len())
}

/// The binary form of a module that runs one function.
pub fn encode(p: &Program) -> (bytes: Vec<u8>)
    requires
        program_fits(*p),
    ensures
        bytes@ == encoded(program_sections(*p)),
{
    let mut module = new_module();
    let mut types = new_types();
    let mut i: usize = 0;
    assert(types_of(types) =~= signatures(p.types@).take(0));
    while i < p.types.len()
        invariant
            i <= p.types@.len(),
            types_of(types) == signatures(p.types@).take(i as int),
        decreases p.types@.len() - i,
    {
        let ghost t = signatures(p.types@)[i as int];
        assert(t.0.len() <= 100 && t.1.len() <= 100);
        add_type(&mut types, p.types[i].params.as_slice(), p.types[i].results.as_slice());
        assert(signatures(p.types@).take(i + 1) =~= signatures(p.types@).take(i as int).push(t));
        i += 1;
    }
    assert(types_of(types) =~= signatures(p.types@));
    add_types(&mut module, &types);
    let mut imports = new_imports();
    let mut j: usize = 0;
    assert(imports_of(imports) =~= import_entries(p.imports@).take(0));
    while j < p.imports.len()
        invariant
            j <= p.imports@.len(),
            imports_of(imports) == import_entries(p.imports@).take(j as int),
        decreases p.imports@.len() - j,
    {
        let ghost t = import_entries(p.imports@)[j as int];
        assert(t.0.len() <= 100 && t.1.len() <= 100);
        add_import(&mut imports, "env", p.imports[j].name, p.imports[j].ty);
        assert(import_entries(p.imports@).take(j + 1) =~= import_entries(p.imports@).take(j as int).push(t));
        j += 1;
    }
    assert(imports_of(imports) =~= import_entries(p.imports@));
    add_imports(&mut module, &imports);
    let mut functions = new_functions();
    add_function(&mut functions, p.ty);
    add_functions(&mut module, &functions);
    let mut memories = new_memories();
    add_memory(&mut memories, 1);
    add_memories(&mut module, &memories);
    let mut exports = new_exports();
    proof {
        reveal_strlit("run");
        reveal_strlit("memory");
    }
    add_export(&mut exports, "run", Export::Function, p.index);
    add_export(&mut exports, "memory", Export::Memory, 0);
    assert(exports_of(exports) =~= seq![
        ("run"@, Export::Function, p.index),
        ("memory"@, Export::Memory, 0u32),
    ]);
    add_exports(&mut module, &exports);
    let mut body = new_body(&p.locals);
    let mut k: usize = 0;
    assert(code_of(body) =~= p.code@.take(0));
    while k < p.code.len()
        invariant
            k <= p.code@.len(),
            code_of(body) == p.code@.take(k as int),
            locals_of(body) == p.locals@,
        decreases p.code@.len() - k,
    {
        push_instr(&mut body, p.code[k]);
        assert(p.code@.take(k + 1) =~= p.code@.take(k as int).push(p.code@[k as int]));
        k += 1;
    }
    assert(code_of(body) =~= p.code@);
    let mut code = new_code();
    add_body(&mut code, &body);
    add_code(&mut module, &code);
    assert(sections_of(module) =~= program_sections(*p));
    finish(module)
}

} // verus!
