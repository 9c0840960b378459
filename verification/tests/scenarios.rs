//! End-to-end scenarios: whole modules in, whole modules out.

use wasm_encoder as we;
use wasm_squeeze::squeeze_module;

/// A minimal decompressor stand-in: imports its memory, defines one function
/// of type (i32, i32, i32) -> i32, and exports it alone.
fn fake_unpacker() -> Vec<u8> {
    let mut module = we::Module::new();
    let mut types = we::TypeSection::new();
    types.ty().function(
        vec![we::ValType::I32, we::ValType::I32, we::ValType::I32],
        vec![we::ValType::I32],
    );
    module.section(&types);
    let mut imports = we::ImportSection::new();
    imports.import(
        "env",
        "memory",
        we::MemoryType {
            minimum: 1,
            maximum: Some(1),
            memory64: false,
            shared: false,
            page_size_log2: None,
        },
    );
    module.section(&imports);
    let mut funcs = we::FunctionSection::new();
    funcs.function(0);
    module.section(&funcs);
    let mut exports = we::ExportSection::new();
    exports.export("upkr_unpack", we::ExportKind::Func, 0);
    module.section(&exports);
    let mut code = we::CodeSection::new();
    let mut f = we::Function::new(vec![]);
    f.instruction(&we::Instruction::I32Const(0));
    f.instruction(&we::Instruction::End);
    code.function(&f);
    module.section(&code);
    module.finish()
}

/// A host module: one `() -> ()` type, one function with an empty body, a
/// memory, an export, optionally a start section, optionally a raw
/// Data Count section, and the given active data segments.
fn host_module(
    with_start: bool,
    segments: &[(i32, Vec<u8>)],
    raw_datacount: Option<&[u8]>,
    with_data_section: bool,
) -> Vec<u8> {
    let mut module = we::Module::new();
    let mut types = we::TypeSection::new();
    types.ty().function(vec![], vec![]);
    module.section(&types);
    let mut funcs = we::FunctionSection::new();
    funcs.function(0);
    module.section(&funcs);
    let mut mems = we::MemorySection::new();
    mems.memory(we::MemoryType {
        minimum: 1,
        maximum: Some(1),
        memory64: false,
        shared: false,
        page_size_log2: None,
    });
    module.section(&mems);
    let mut exports = we::ExportSection::new();
    exports.export("update", we::ExportKind::Func, 0);
    module.section(&exports);
    if with_start {
        module.section(&we::StartSection { function_index: 0 });
    }
    if let Some(dc) = raw_datacount {
        module.section(&we::RawSection { id: 12, data: dc });
    }
    let mut code = we::CodeSection::new();
    let mut f = we::Function::new(vec![]);
    f.instruction(&we::Instruction::End);
    code.function(&f);
    module.section(&code);
    if with_data_section {
        let mut data = we::DataSection::new();
        for (offset, bytes) in segments {
            data.active(0, &we::ConstExpr::i32_const(*offset), bytes.iter().copied());
        }
        module.section(&data);
    }
    module.finish()
}

struct OutputFacts {
    type_count: u32,
    function_entries: Vec<u32>,
    start: Option<u32>,
    data_count_decl: Option<u32>,
    segments: Vec<(i32, Vec<u8>)>,
    bodies: usize,
}

fn read_output(bytes: &[u8]) -> OutputFacts {
    let mut facts = OutputFacts {
        type_count: 0,
        function_entries: Vec::new(),
        start: None,
        data_count_decl: None,
        segments: Vec::new(),
        bodies: 0,
    };
    for payload in wasmparser::Parser::new(0).parse_all(bytes) {
        match payload.expect("output must parse") {
            wasmparser::Payload::TypeSection(r) => {
                facts.type_count = r.count();
            }
            wasmparser::Payload::FunctionSection(r) => {
                for e in r {
                    facts.function_entries.push(e.expect("function entry"));
                }
            }
            wasmparser::Payload::StartSection { func, .. } => {
                facts.start = Some(func);
            }
            wasmparser::Payload::DataCountSection { count, .. } => {
                facts.data_count_decl = Some(count);
            }
            wasmparser::Payload::CodeSectionEntry(_) => {
                facts.bodies += 1;
            }
            wasmparser::Payload::DataSection(r) => {
                for d in r {
                    let d = d.expect("data segment");
                    if let wasmparser::DataKind::Active { memory_index, offset_expr } = d.kind {
                        assert_eq!(memory_index, 0);
                        let mut ops = offset_expr.get_operators_reader();
                        let off = match ops.read().expect("offset op") {
                            wasmparser::Operator::I32Const { value } => value,
                            other => panic!("unexpected offset operator: {:?}", other),
                        };
                        facts.segments.push((off, d.data.to_vec()));
                    }
                }
            }
            _ => {}
        }
    }
    facts
}

#[test]
fn empty_data_module_passes_through() {
    let input = host_module(false, &[], None, false);
    let unp = fake_unpacker();
    let (out, applied) = squeeze_module(&input, &unp, 1).expect("squeeze");
    assert!(!applied);
    assert_eq!(out, input);
}

#[test]
fn incompressible_data_passes_through() {
    let mut x: u32 = 0x1234_5678;
    let mut noise = Vec::new();
    for _ in 0..2048 {
        x ^= x << 13;
        x ^= x >> 17;
        x ^= x << 5;
        noise.push((x >> 24) as u8);
    }
    let input = host_module(false, &[(1024, noise)], None, true);
    let unp = fake_unpacker();
    let (out, applied) = squeeze_module(&input, &unp, 1).expect("squeeze");
    assert!(!applied);
    assert_eq!(out, input);
}

#[test]
fn compressible_no_start_function() {
    let image = vec![0u8; 8192];
    let input = host_module(false, &[(1024, image.clone())], None, true);
    let unp = fake_unpacker();
    let (out, applied) = squeeze_module(&input, &unp, 1).expect("squeeze");
    assert!(applied);
    assert!(out.len() < input.len());

    let facts = read_output(&out);
    // one host type, one decompressor type, and the synthesized () -> ()
    assert_eq!(facts.type_count, 3);
    // host entry, decompressor entry (rebased to its type at index 1),
    // and the prologue function with the synthesized type at index 2
    assert_eq!(facts.function_entries, vec![0, 1, 2]);
    assert_eq!(facts.bodies, 3);
    // no imports: the prologue function is the third defined function
    assert_eq!(facts.start, Some(2));
    // index-space soundness: every type reference and the start index stay
    // below the combined totals
    for &e in &facts.function_entries {
        assert!(e < facts.type_count);
    }
    assert!((facts.start.unwrap() as usize) < facts.function_entries.len());
    // exactly one segment at the fixed packed-data offset
    assert_eq!(facts.segments.len(), 1);
    assert_eq!(facts.segments[0].0, 385);
    let expected = upkr::pack(&image, 1, &upkr::Config::default(), None);
    assert_eq!(facts.segments[0].1, expected);
}

#[test]
fn compressible_with_start_function() {
    let image = vec![0u8; 8192];
    let input = host_module(true, &[(1024, image.clone())], None, true);
    let unp = fake_unpacker();
    let (out, applied) = squeeze_module(&input, &unp, 1).expect("squeeze");
    assert!(applied);
    assert!(out.len() < input.len());

    let facts = read_output(&out);
    // the start section still names the original function
    assert_eq!(facts.start, Some(0));
    // no extra prologue function is appended
    assert_eq!(facts.function_entries, vec![0, 1]);
    assert_eq!(facts.bodies, 2);

    // the start function's body now begins with the prologue: push the
    // context offset, the destination, and the packed-data offset, call the
    // rebased unpack entry point, drop its result
    let mut checked = false;
    for payload in wasmparser::Parser::new(0).parse_all(&out) {
        if let wasmparser::Payload::CodeSectionEntry(body) = payload.expect("parse") {
            if checked {
                continue;
            }
            checked = true;
            let mut ops = body.get_operators_reader().expect("ops");
            let expect_i32 = |ops: &mut wasmparser::OperatorsReader, v: i32| {
                match ops.read().expect("op") {
                    wasmparser::Operator::I32Const { value } => assert_eq!(value, v),
                    other => panic!("unexpected operator: {:?}", other),
                }
            };
            expect_i32(&mut ops, 0);
            expect_i32(&mut ops, 65536 - 8192);
            expect_i32(&mut ops, 385);
            match ops.read().expect("op") {
                wasmparser::Operator::Call { function_index } => {
                    assert_eq!(function_index, 1)
                }
                other => panic!("unexpected operator: {:?}", other),
            }
            match ops.read().expect("op") {
                wasmparser::Operator::Drop => {}
                other => panic!("unexpected operator: {:?}", other),
            }
        }
    }
    assert!(checked);
}

#[test]
fn two_segments_merge_with_zero_gap() {
    let a = vec![0x11u8; 100];
    let b = vec![0x22u8; 100];
    let input = host_module(false, &[(1024, a.clone()), (1300, b.clone())], None, true);
    let unp = fake_unpacker();
    let (out, applied) = squeeze_module(&input, &unp, 1).expect("squeeze");
    assert!(applied);

    // merged image: a, a 176-byte zero gap, then b
    let mut image = Vec::new();
    image.extend_from_slice(&a);
    image.extend_from_slice(&[0u8; 176]);
    image.extend_from_slice(&b);
    assert_eq!(image.len(), 376);

    let facts = read_output(&out);
    assert_eq!(facts.segments.len(), 1);
    assert_eq!(facts.segments[0].0, 385);
    let expected = upkr::pack(&image, 1, &upkr::Config::default(), None);
    assert_eq!(facts.segments[0].1, expected);
}

#[test]
fn data_count_is_mitigated_in_place() {
    let image = vec![0u8; 8192];
    // a Data Count section declaring 3 segments in a padded three-byte LEB128
    let input = host_module(false, &[(1024, image)], Some(&[0x83, 0x80, 0x00]), true);
    let unp = fake_unpacker();
    let (out, applied) = squeeze_module(&input, &unp, 1).expect("squeeze");
    assert!(applied);

    let facts = read_output(&out);
    // the declared count now reads one, matching the single emitted segment
    assert_eq!(facts.data_count_decl, Some(1));
    assert_eq!(facts.segments.len(), 1);
    // the count keeps its three-byte width: 0x81 0x80 0x00 still reads 1
    let needle = [0x0c, 0x03, 0x81, 0x80, 0x00];
    let found = out.windows(needle.len()).any(|w| w == needle);
    assert!(found);
}

#[test]
fn function_imports_shift_the_index_bases() {
    // a host with one imported function: the decompressor's functions land
    // after both the imported and the defined ones
    let mut module = we::Module::new();
    let mut types = we::TypeSection::new();
    types.ty().function(vec![], vec![]);
    module.section(&types);
    let mut imports = we::ImportSection::new();
    imports.import("env", "host_fn", we::EntityType::Function(0));
    module.section(&imports);
    let mut funcs = we::FunctionSection::new();
    funcs.function(0);
    module.section(&funcs);
    let mut exports = we::ExportSection::new();
    exports.export("update", we::ExportKind::Func, 1);
    module.section(&exports);
    let mut code = we::CodeSection::new();
    let mut f = we::Function::new(vec![]);
    f.instruction(&we::Instruction::End);
    code.function(&f);
    module.section(&code);
    let mut data = we::DataSection::new();
    data.active(0, &we::ConstExpr::i32_const(1024), vec![0u8; 8192].into_iter());
    module.section(&data);
    let input = module.finish();

    let unp = fake_unpacker();
    let (out, applied) = squeeze_module(&input, &unp, 1).expect("squeeze");
    assert!(applied);
    let facts = read_output(&out);
    // prologue function index: 1 import + 1 defined + 1 decompressor
    assert_eq!(facts.start, Some(3));
    assert_eq!(facts.function_entries, vec![0, 1, 2]);
}

#[test]
fn stack_pointer_convention_globals_are_accepted() {
    let mut module = we::Module::new();
    let mut types = we::TypeSection::new();
    types.ty().function(vec![], vec![]);
    module.section(&types);
    let mut funcs = we::FunctionSection::new();
    funcs.function(0);
    module.section(&funcs);
    let mut globals = we::GlobalSection::new();
    globals.global(
        we::GlobalType { val_type: we::ValType::I32, mutable: true, shared: false },
        &we::ConstExpr::i32_const(14752),
    );
    globals.global(
        we::GlobalType { val_type: we::ValType::I64, mutable: false, shared: false },
        &we::ConstExpr::i64_const(99),
    );
    module.section(&globals);
    let mut exports = we::ExportSection::new();
    exports.export("update", we::ExportKind::Func, 0);
    module.section(&exports);
    let mut code = we::CodeSection::new();
    let mut f = we::Function::new(vec![]);
    f.instruction(&we::Instruction::End);
    code.function(&f);
    module.section(&code);
    let mut data = we::DataSection::new();
    data.active(0, &we::ConstExpr::i32_const(1024), vec![0u8; 8192].into_iter());
    module.section(&data);
    let input = module.finish();

    let unp = fake_unpacker();
    let (out, applied) = squeeze_module(&input, &unp, 1).expect("squeeze");
    assert!(applied);
    assert!(out.len() < input.len());
}

#[test]
fn output_without_saving_passes_through() {
    // a tiny image packs fine, but grafting the decompressor outgrows the
    // saving, so the input is passed through
    let image = vec![0u8; 16];
    let input = host_module(false, &[(1024, image)], None, true);
    let unp = fake_unpacker();
    let (out, applied) = squeeze_module(&input, &unp, 1).expect("squeeze");
    assert!(!applied);
    assert_eq!(out, input);
}
