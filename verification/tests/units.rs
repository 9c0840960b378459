//! Unit tests of the library's pieces: integer encodings, the prologue,
//! body renumbering, the planner, the adapter, and the builder's errors.

use wasm_encoder as we;
use wasm_squeeze::err::SqueezeError;
use wasm_squeeze::info::{Data, RelevantInfoBuilder};
use wasm_squeeze::leb::{read_sleb32, read_uleb32, write_sleb, write_uleb};
use wasm_squeeze::plan::plan;
use wasm_squeeze::prologue::prologue_bytes;
use wasm_squeeze::renumber::{rebody, AdaptUnpacker};
use wasm_squeeze::scan::Seg;
use wasm_squeeze::sections::split_sections;
use wasm_squeeze::squeeze_module;
use wasm_squeeze::unpacker::UnpackerComponents;

#[test]
fn uleb_roundtrip() {
    for &v in &[0u32, 1, 127, 128, 300, 16384, 665536, u32::MAX] {
        let mut bytes = Vec::new();
        write_uleb(&mut bytes, v as u64);
        let (read, end) = read_uleb32(&bytes, 0).expect("read");
        assert_eq!(read, v);
        assert_eq!(end, bytes.len());
    }
}

#[test]
fn uleb_accepts_padded_encodings() {
    let bytes = vec![0x83, 0x80, 0x00];
    let (v, end) = read_uleb32(&bytes, 0).expect("read");
    assert_eq!(v, 3);
    assert_eq!(end, 3);
}

#[test]
fn uleb_rejects_overlong_encodings() {
    let bytes = vec![0x80, 0x80, 0x80, 0x80, 0x80, 0x01];
    assert!(matches!(read_uleb32(&bytes, 0), Err(SqueezeError::Parse)));
}

#[test]
fn sleb_known_encodings() {
    let cases: &[(i64, &[u8])] = &[
        (0, &[0x00]),
        (63, &[0x3f]),
        (64, &[0xc0, 0x00]),
        (-1, &[0x7f]),
        (-64, &[0x40]),
        (-65, &[0xbf, 0x7f]),
        (1024, &[0x80, 0x08]),
    ];
    for (v, expect) in cases {
        let mut bytes = Vec::new();
        write_sleb(&mut bytes, *v);
        assert_eq!(&bytes, expect);
    }
}

#[test]
fn sleb_roundtrip() {
    for &v in &[0i32, 1, -1, 63, 64, -64, -65, 1024, -123456, i32::MAX, i32::MIN] {
        let mut bytes = Vec::new();
        write_sleb(&mut bytes, v as i64);
        let (read, end) = read_sleb32(&bytes, 0).expect("read");
        assert_eq!(read, v);
        assert_eq!(end, bytes.len());
    }
}

#[test]
fn prologue_matches_reference_encoder() {
    let mut got = Vec::new();
    prologue_bytes(&mut got, 2, 1024, 8192);

    let dest: i32 = 65536 - 8192;
    let end: i32 = 1024 + 8192;
    let instrs = [
        we::Instruction::I32Const(0),
        we::Instruction::I32Const(dest),
        we::Instruction::I32Const(385),
        we::Instruction::Call(2),
        we::Instruction::Drop,
        we::Instruction::I32Const(1024),
        we::Instruction::I32Const(dest),
        we::Instruction::I32Const(8192),
        we::Instruction::MemoryCopy { src_mem: 0, dst_mem: 0 },
        we::Instruction::I32Const(0),
        we::Instruction::I32Const(0),
        we::Instruction::I32Const(1024),
        we::Instruction::MemoryFill(0),
        we::Instruction::I32Const(end),
        we::Instruction::I32Const(0),
        we::Instruction::I32Const(65536 - end),
        we::Instruction::MemoryFill(0),
        we::Instruction::I32Const(4),
        we::Instruction::I64Const(0x0086c06c_00e0f8cf),
        we::Instruction::I64Store(we::MemArg { offset: 0, align: 2, memory_index: 0 }),
        we::Instruction::I32Const(12),
        we::Instruction::I64Const(0x00071821_00306850),
        we::Instruction::I64Store(we::MemArg { offset: 0, align: 2, memory_index: 0 }),
        we::Instruction::I32Const(0x14),
        we::Instruction::I32Const(0x1203),
        we::Instruction::I32Store16(we::MemArg { offset: 0, align: 1, memory_index: 0 }),
        we::Instruction::I32Const(0x1a),
        we::Instruction::I32Const(0x7fff7fff),
        we::Instruction::I32Store(we::MemArg { offset: 0, align: 1, memory_index: 0 }),
    ];
    let mut expected = Vec::new();
    for i in &instrs {
        we::Encode::encode(i, &mut expected);
    }
    assert_eq!(got, expected);
}

#[test]
fn rebody_rebases_calls_and_keeps_the_rest() {
    // no locals; call 0; i32.const 5; end
    let body = vec![0x00, 0x10, 0x00, 0x41, 0x05, 0x0b];
    let out = rebody(&body, 9, 7).expect("rebody");
    assert_eq!(out, vec![0x00, 0x10, 0x07, 0x41, 0x05, 0x0b]);
}

#[test]
fn rebody_rebases_call_indirect_type() {
    // no locals; call_indirect type 1 table 0; end
    let body = vec![0x00, 0x11, 0x01, 0x00, 0x0b];
    let out = rebody(&body, 9, 7).expect("rebody");
    assert_eq!(out, vec![0x00, 0x11, 0x0a, 0x00, 0x0b]);
}

#[test]
fn rebody_copies_wide_constants_verbatim() {
    // no locals; i64.const -2; block (empty type); end; end
    let body = vec![0x00, 0x42, 0x7e, 0x02, 0x40, 0x0b, 0x0b];
    let out = rebody(&body, 3, 4).expect("rebody");
    assert_eq!(out, body);
}

#[test]
fn rebody_rejects_unknown_opcodes() {
    let body = vec![0x00, 0xfd, 0x00, 0x0b];
    assert!(matches!(rebody(&body, 0, 0), Err(SqueezeError::Unsupported)));
}

#[test]
fn adapt_unpacker_rebases_and_detects_overflow() {
    let a = AdaptUnpacker { functions_index_base: 10, types_index_base: 3 };
    assert_eq!(a.type_index(4), Ok(7));
    assert_eq!(a.function_index(5), Ok(15));
    let b = AdaptUnpacker { functions_index_base: u32::MAX, types_index_base: u32::MAX };
    assert!(matches!(b.type_index(1), Err(SqueezeError::Encode)));
    assert!(matches!(b.function_index(1), Err(SqueezeError::Encode)));
}

#[test]
fn planner_accepts_compressible_data_within_budget() {
    let data = Data { offset: 1024, data: vec![0u8; 8192] };
    let packed = plan(&data, 1).expect("profitable");
    assert!(packed.len() < 8192);
    assert!(packed.len() + 385 + 8192 <= 65536);
    assert_eq!(packed, upkr::pack(&data.data, 1, &upkr::Config::default(), None));
}

#[test]
fn planner_declines_when_nothing_is_saved() {
    let data = Data { offset: 1024, data: vec![0x5a; 1] };
    assert!(plan(&data, 1).is_none());
}

#[test]
fn planner_declines_data_outside_the_window() {
    let data = Data { offset: -4, data: vec![0u8; 8192] };
    assert!(plan(&data, 1).is_none());
    let data = Data { offset: 65000, data: vec![0u8; 8192] };
    assert!(plan(&data, 1).is_none());
}

fn unpacker_with_exports(count: usize) -> Vec<u8> {
    let mut module = we::Module::new();
    let mut types = we::TypeSection::new();
    types.ty().function(
        vec![we::ValType::I32, we::ValType::I32, we::ValType::I32],
        vec![we::ValType::I32],
    );
    module.section(&types);
    let mut funcs = we::FunctionSection::new();
    funcs.function(0);
    module.section(&funcs);
    let mut exports = we::ExportSection::new();
    for i in 0..count {
        let name = format!("f{}", i);
        exports.export(&name, we::ExportKind::Func, 0);
    }
    module.section(&exports);
    let mut code = we::CodeSection::new();
    let mut f = we::Function::new(vec![]);
    f.instruction(&we::Instruction::I32Const(0));
    f.instruction(&we::Instruction::End);
    code.function(&f);
    module.section(&code);
    module.finish()
}

#[test]
fn unpacker_parse_extracts_components() {
    let bytes = unpacker_with_exports(1);
    let u = UnpackerComponents::parse(&bytes).expect("parse");
    assert_eq!(u.type_count, 1);
    assert_eq!(u.func_types, vec![0]);
    assert_eq!(u.bodies.len(), 1);
    assert_eq!(u.unpack_fn_idx, 0);
}

#[test]
fn unpacker_rejects_multiple_exports() {
    let bytes = unpacker_with_exports(2);
    assert!(matches!(
        UnpackerComponents::parse(&bytes),
        Err(SqueezeError::Unsupported)
    ));
}

#[test]
fn builder_reports_no_data() {
    let input = vec![0x00, 0x61, 0x73, 0x6d, 0x01, 0x00, 0x00, 0x00];
    let b = RelevantInfoBuilder::new();
    assert!(matches!(b.build(&input), Err(SqueezeError::NoData)));
}

#[test]
fn builder_reports_index_overflow() {
    let input = vec![0x00, 0x61, 0x73, 0x6d, 0x01, 0x00, 0x00, 0x00];
    let mut b = RelevantInfoBuilder::new();
    b.segs.push(Seg { offset: 0, start: 0, end: 0 });
    b.old_type_count = Some(1);
    b.old_function_count = Some(u32::MAX);
    b.import_function_count = Some(1);
    assert!(matches!(b.build(&input), Err(SqueezeError::Encode)));
}

#[test]
fn builder_rejects_overlapping_segments() {
    let input = vec![0u8; 64];
    let mut b = RelevantInfoBuilder::new();
    b.segs.push(Seg { offset: 16, start: 8, end: 28 });
    b.segs.push(Seg { offset: 20, start: 28, end: 48 });
    b.old_type_count = Some(1);
    b.old_function_count = Some(1);
    assert!(matches!(b.build(&input), Err(SqueezeError::Unsupported)));
}

#[test]
fn split_sections_rejects_bad_magic() {
    let bytes = vec![0x00, 0x61, 0x73, 0x6d, 0x02, 0x00, 0x00, 0x00];
    assert!(matches!(split_sections(&bytes), Err(SqueezeError::Parse)));
}

fn tiny_unpacker() -> Vec<u8> {
    unpacker_with_exports(1)
}

#[test]
fn squeeze_rejects_truncated_modules() {
    let input = vec![0x00, 0x61, 0x73];
    let unp = tiny_unpacker();
    assert!(matches!(
        squeeze_module(&input, &unp, 1),
        Err(SqueezeError::Parse)
    ));
}

#[test]
fn squeeze_rejects_computed_data_offsets() {
    let mut module = we::Module::new();
    let mut types = we::TypeSection::new();
    types.ty().function(vec![], vec![]);
    module.section(&types);
    let mut funcs = we::FunctionSection::new();
    funcs.function(0);
    module.section(&funcs);
    let mut globals = we::GlobalSection::new();
    globals.global(
        we::GlobalType { val_type: we::ValType::I32, mutable: false, shared: false },
        &we::ConstExpr::i32_const(0),
    );
    module.section(&globals);
    let mut code = we::CodeSection::new();
    let mut f = we::Function::new(vec![]);
    f.instruction(&we::Instruction::End);
    code.function(&f);
    module.section(&code);
    let mut data = we::DataSection::new();
    data.active(0, &we::ConstExpr::global_get(0), [0u8; 64].iter().copied());
    module.section(&data);
    let input = module.finish();

    let unp = tiny_unpacker();
    assert!(matches!(
        squeeze_module(&input, &unp, 1),
        Err(SqueezeError::UnsupportedOffset)
    ));
}

#[test]
fn squeeze_rejects_multi_memory_segments() {
    let mut module = we::Module::new();
    let mut types = we::TypeSection::new();
    types.ty().function(vec![], vec![]);
    module.section(&types);
    let mut funcs = we::FunctionSection::new();
    funcs.function(0);
    module.section(&funcs);
    let mut code = we::CodeSection::new();
    let mut f = we::Function::new(vec![]);
    f.instruction(&we::Instruction::End);
    code.function(&f);
    module.section(&code);
    let mut data = we::DataSection::new();
    data.active(1, &we::ConstExpr::i32_const(0), [0u8; 64].iter().copied());
    module.section(&data);
    let input = module.finish();

    let unp = tiny_unpacker();
    assert!(matches!(
        squeeze_module(&input, &unp, 1),
        Err(SqueezeError::Unsupported)
    ));
}

#[test]
fn squeeze_rejects_passive_segments() {
    let mut module = we::Module::new();
    let mut types = we::TypeSection::new();
    types.ty().function(vec![], vec![]);
    module.section(&types);
    let mut funcs = we::FunctionSection::new();
    funcs.function(0);
    module.section(&funcs);
    let mut code = we::CodeSection::new();
    let mut f = we::Function::new(vec![]);
    f.instruction(&we::Instruction::End);
    code.function(&f);
    module.section(&code);
    let mut data = we::DataSection::new();
    data.passive([0u8; 64].iter().copied());
    module.section(&data);
    let input = module.finish();

    let unp = tiny_unpacker();
    assert!(matches!(
        squeeze_module(&input, &unp, 1),
        Err(SqueezeError::Unsupported)
    ));
}

#[test]
fn squeeze_rejects_imported_start_function() {
    // the declared start function must be one of the module's own defined
    // functions, so that the prologue has a body to land in
    let mut module = we::Module::new();
    let mut types = we::TypeSection::new();
    types.ty().function(vec![], vec![]);
    module.section(&types);
    let mut imports = we::ImportSection::new();
    imports.import("env", "host_fn", we::EntityType::Function(0));
    module.section(&imports);
    let mut funcs = we::FunctionSection::new();
    funcs.function(0);
    module.section(&funcs);
    module.section(&we::StartSection { function_index: 0 });
    let mut code = we::CodeSection::new();
    let mut f = we::Function::new(vec![]);
    f.instruction(&we::Instruction::End);
    code.function(&f);
    module.section(&code);
    let mut data = we::DataSection::new();
    data.active(0, &we::ConstExpr::i32_const(1024), vec![0u8; 512].into_iter());
    module.section(&data);
    let input = module.finish();

    let unp = tiny_unpacker();
    assert!(matches!(
        squeeze_module(&input, &unp, 1),
        Err(SqueezeError::Unsupported)
    ));
}

#[test]
fn squeeze_rejects_two_mutable_globals() {
    let mut module = we::Module::new();
    let mut types = we::TypeSection::new();
    types.ty().function(vec![], vec![]);
    module.section(&types);
    let mut funcs = we::FunctionSection::new();
    funcs.function(0);
    module.section(&funcs);
    let mut globals = we::GlobalSection::new();
    globals.global(
        we::GlobalType { val_type: we::ValType::I32, mutable: true, shared: false },
        &we::ConstExpr::i32_const(1024),
    );
    globals.global(
        we::GlobalType { val_type: we::ValType::I32, mutable: true, shared: false },
        &we::ConstExpr::i32_const(2048),
    );
    module.section(&globals);
    let mut code = we::CodeSection::new();
    let mut f = we::Function::new(vec![]);
    f.instruction(&we::Instruction::End);
    code.function(&f);
    module.section(&code);
    let mut data = we::DataSection::new();
    data.active(0, &we::ConstExpr::i32_const(0), [0u8; 64].iter().copied());
    module.section(&data);
    let input = module.finish();

    let unp = tiny_unpacker();
    assert!(matches!(
        squeeze_module(&input, &unp, 1),
        Err(SqueezeError::Unsupported)
    ));
}

#[test]
fn unpacker_reencoder_bases() {
    let info = wasm_squeeze::info::RelevantInfo {
        start_fn_idx: None,
        data: Data { offset: 1024, data: vec![0u8; 4] },
        old_function_count: 7,
        old_type_count: 3,
        import_function_count: 2,
    };
    let r = info.unpacker_reencoder();
    assert_eq!(r.functions_index_base, 9);
    assert_eq!(r.types_index_base, 3);
}

#[test]
fn data_to_vec_copies_bytes() {
    let bytes = [1u8, 2, 3];
    let d = Data { offset: 7, data: &bytes[..] };
    let v = d.to_vec();
    assert_eq!(v.offset, 7);
    assert_eq!(v.data, vec![1, 2, 3]);
}
