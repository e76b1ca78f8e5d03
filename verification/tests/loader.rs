//! Tests for the module loader, the linker's import and export checks, the
//! smoke runner, and the batch row mapping.

use debugger::batch::{process_rows, BatchError};
use debugger::guest::TrapError;
use debugger::host::{
    compile, default_config, default_wasi, guest_entry_sig, lowered_functype, run, BuildError,
    CallError, CompileError, HandleFactory, InterfaceMismatchError, LinkError, RunError,
};
use debugger::value::{Item, Scalar};

fn preamble() -> Vec<u8> {
    vec![0, 0x61, 0x73, 0x6d, 1, 0, 0, 0]
}

/// Type, function and export sections exposing a conforming `handle-json`
/// function with core index `fidx`.
fn entry_sections(fidx: u8) -> Vec<u8> {
    let mut m = Vec::new();
    // type section: one function type (i32, i32, i32, i32) -> i32
    m.extend_from_slice(&[1, 9, 1, 0x60, 4, 0x7F, 0x7F, 0x7F, 0x7F, 1, 0x7F]);
    // function section: one module-own function of type 0
    m.extend_from_slice(&[3, 2, 1, 0]);
    // export section: the dispatch entry
    m.extend_from_slice(&[7, 15, 1, 11]);
    m.extend_from_slice(b"handle-json");
    m.extend_from_slice(&[0, fidx]);
    m
}

/// The smallest module the factory accepts.
fn conforming_module() -> Vec<u8> {
    let mut m = preamble();
    m.extend_from_slice(&entry_sections(0));
    m
}

/// A conforming module that also imports one function from the offered
/// system interface, so its own function has core index 1.
fn wasi_importing_module() -> Vec<u8> {
    let mut m = preamble();
    // type section
    m.extend_from_slice(&[1, 9, 1, 0x60, 4, 0x7F, 0x7F, 0x7F, 0x7F, 1, 0x7F]);
    // import section: wasi_snapshot_preview1.fd_write as a function of type 0
    m.extend_from_slice(&[2, 35, 1, 22]);
    m.extend_from_slice(b"wasi_snapshot_preview1");
    m.extend_from_slice(&[8]);
    m.extend_from_slice(b"fd_write");
    m.extend_from_slice(&[0, 0]);
    // function section, then the export of module-own function (index 1)
    m.extend_from_slice(&[3, 2, 1, 0]);
    m.extend_from_slice(&[7, 15, 1, 11]);
    m.extend_from_slice(b"handle-json");
    m.extend_from_slice(&[0, 1]);
    m
}

/// A module that imports `env.foo`, outside the offered capability set.
fn foreign_importing_module() -> Vec<u8> {
    let mut m = preamble();
    m.extend_from_slice(&[1, 9, 1, 0x60, 4, 0x7F, 0x7F, 0x7F, 0x7F, 1, 0x7F]);
    m.extend_from_slice(&[2, 11, 1, 3]);
    m.extend_from_slice(b"env");
    m.extend_from_slice(&[3]);
    m.extend_from_slice(b"foo");
    m.extend_from_slice(&[0, 0]);
    m.extend_from_slice(&[3, 2, 1, 0]);
    m.extend_from_slice(&[7, 15, 1, 11]);
    m.extend_from_slice(b"handle-json");
    m.extend_from_slice(&[0, 1]);
    m
}

#[test]
fn compile_accepts_empty_module() {
    assert!(compile(preamble()).is_ok());
}

#[test]
fn compile_accepts_custom_section() {
    // id 0, size 1, one payload byte
    let mut m = preamble();
    m.extend_from_slice(&[0, 1, 0x41]);
    assert!(compile(m).is_ok());
}

#[test]
fn compile_accepts_leb_encoded_size() {
    // a type section (id 1) whose size 130 is LEB-encoded in two bytes
    let mut m = preamble();
    m.extend_from_slice(&[1, 0x82, 0x01]);
    m.extend_from_slice(&vec![0u8; 130]);
    assert!(compile(m).is_ok());
}

#[test]
fn compile_rejects_short_input() {
    assert_eq!(compile(vec![]).unwrap_err(), CompileError::TooSmall);
    assert_eq!(compile(vec![0, 0x61, 0x73]).unwrap_err(), CompileError::TooSmall);
}

#[test]
fn compile_rejects_bad_magic() {
    assert_eq!(
        compile(vec![1, 0x61, 0x73, 0x6d, 1, 0, 0, 0]).unwrap_err(),
        CompileError::BadMagic
    );
}

#[test]
fn compile_rejects_bad_version() {
    assert_eq!(
        compile(vec![0, 0x61, 0x73, 0x6d, 2, 0, 0, 0]).unwrap_err(),
        CompileError::BadVersion
    );
}

#[test]
fn compile_rejects_broken_sections() {
    // unknown section id
    let mut m = preamble();
    m.push(13);
    m.push(0);
    assert_eq!(compile(m).unwrap_err(), CompileError::BadSection);
    // size overruns the module
    let mut m = preamble();
    m.extend_from_slice(&[0, 5, 0x41]);
    assert_eq!(compile(m).unwrap_err(), CompileError::BadSection);
    // truncated LEB128 size
    let mut m = preamble();
    m.extend_from_slice(&[0, 0x80]);
    assert_eq!(compile(m).unwrap_err(), CompileError::BadSection);
}

#[test]
fn compile_rejects_misordered_sections() {
    // non-custom sections must come in increasing id order, each once:
    // a second type section is refused, as is a function section before a
    // type section — while custom sections may stand anywhere
    let mut m = preamble();
    m.extend_from_slice(&[1, 1, 0, 1, 1, 0]);
    assert_eq!(compile(m).unwrap_err(), CompileError::BadSection);
    let mut m = preamble();
    m.extend_from_slice(&[3, 2, 1, 0, 1, 1, 0]);
    assert_eq!(compile(m).unwrap_err(), CompileError::BadSection);
    let mut m = preamble();
    m.extend_from_slice(&[0, 1, 0x41, 1, 1, 0, 0, 1, 0x42]);
    assert!(compile(m).is_ok());
}

#[test]
fn compile_rejects_broken_import_section() {
    // an import section claiming five entries but holding none
    let mut m = preamble();
    m.extend_from_slice(&[2, 1, 5]);
    assert_eq!(compile(m).unwrap_err(), CompileError::BadImportSection);
}

#[test]
fn compile_rejects_broken_export_section() {
    // an export section claiming five entries but holding none
    let mut m = preamble();
    m.extend_from_slice(&[7, 1, 5]);
    assert_eq!(compile(m).unwrap_err(), CompileError::BadExportSection);
}

#[test]
fn lowered_entry_type() {
    // (name: string, payload: bytes) -> bytes lowers to (i32 i32 i32 i32) -> i32
    let want = lowered_functype(&guest_entry_sig());
    assert_eq!(want, vec![0x60, 4, 0x7F, 0x7F, 0x7F, 0x7F, 1, 0x7F]);
}

#[test]
fn default_grants() {
    let caps = default_wasi();
    assert!(caps.stdout && caps.stderr);
    let config = default_config();
    assert!(config.debug_info && config.backtrace_details);
}

#[test]
fn factory_accepts_conforming_module() {
    assert!(HandleFactory::new(conforming_module()).is_ok());
    assert!(HandleFactory::new(wasi_importing_module()).is_ok());
}

#[test]
fn factory_refuses_malformed_module() {
    match HandleFactory::new(vec![9, 9, 9, 9, 9, 9, 9, 9]) {
        Err(BuildError::Compile(CompileError::BadMagic)) => {},
        other => panic!("expected a compile failure, got {:?}", other.is_ok()),
    }
}

#[test]
fn factory_refuses_foreign_import() {
    // an import outside the offered capability set fails the link
    match HandleFactory::new(foreign_importing_module()) {
        Err(BuildError::Link(LinkError::ImportOutsideCapabilitySet)) => {},
        other => panic!("expected an import link failure, got {:?}", other.is_ok()),
    }
}

#[test]
fn factory_refuses_missing_entry() {
    // a module exporting nothing fails fast, before any call
    match HandleFactory::new(preamble()) {
        Err(BuildError::Link(LinkError::Interface(InterfaceMismatchError {}))) => {},
        other => panic!("expected an interface mismatch, got {:?}", other.is_ok()),
    }
}

#[test]
fn factory_refuses_wrong_entry_type() {
    // the export's core type must match the expected lowering exactly:
    // here the type is () -> i32
    let mut m = preamble();
    m.extend_from_slice(&[1, 5, 1, 0x60, 0, 1, 0x7F]);
    m.extend_from_slice(&[3, 2, 1, 0]);
    m.extend_from_slice(&[7, 15, 1, 11]);
    m.extend_from_slice(b"handle-json");
    m.extend_from_slice(&[0, 0]);
    match HandleFactory::new(m) {
        Err(BuildError::Link(LinkError::Interface(InterfaceMismatchError {}))) => {},
        other => panic!("expected an interface mismatch, got {:?}", other.is_ok()),
    }
}

#[test]
fn factory_refuses_misnamed_entry() {
    // right type, wrong export name
    let mut m = preamble();
    m.extend_from_slice(&[1, 9, 1, 0x60, 4, 0x7F, 0x7F, 0x7F, 0x7F, 1, 0x7F]);
    m.extend_from_slice(&[3, 2, 1, 0]);
    m.extend_from_slice(&[7, 15, 1, 11]);
    m.extend_from_slice(b"handle_json");
    m.extend_from_slice(&[0, 0]);
    match HandleFactory::new(m) {
        Err(BuildError::Link(LinkError::Interface(InterfaceMismatchError {}))) => {},
        other => panic!("expected an interface mismatch, got {:?}", other.is_ok()),
    }
}

#[test]
fn run_probes_unknown_name() {
    // the probe call uses a name no export carries: it must trap
    assert_eq!(
        run(conforming_module()).unwrap_err(),
        RunError::Call(CallError::Trap(TrapError::UnknownName))
    );
}

#[test]
fn run_refuses_malformed_module() {
    assert_eq!(
        run(vec![1, 2, 3]).unwrap_err(),
        RunError::Build(BuildError::Compile(CompileError::TooSmall))
    );
}

#[test]
fn run_refuses_entryless_module() {
    assert_eq!(
        run(preamble()).unwrap_err(),
        RunError::Build(BuildError::Link(LinkError::Interface(InterfaceMismatchError {})))
    );
}

#[test]
fn batch_power_rows() {
    let factory = HandleFactory::new(conforming_module()).unwrap();
    let mut handler = factory.make_handler().unwrap();
    let rows = vec![
        vec![Item::Sc(Scalar::Int(1)), Item::Sc(Scalar::Int(2)), Item::Sc(Scalar::Int(10))],
        vec![Item::Sc(Scalar::Int(2)), Item::Sc(Scalar::Int(3)), Item::Sc(Scalar::Int(3))],
    ];
    let name = "power_of".to_string();
    let out = process_rows(&mut handler, &name, rows).unwrap();
    assert_eq!(
        out,
        vec![
            vec![Item::Sc(Scalar::Int(1)), Item::Sc(Scalar::Int(1024))],
            vec![Item::Sc(Scalar::Int(2)), Item::Sc(Scalar::Int(27))],
        ]
    );
}

#[test]
fn batch_split_row_stringifies_compound_cell() {
    let factory = HandleFactory::new(conforming_module()).unwrap();
    let mut handler = factory.make_handler().unwrap();
    let rows = vec![vec![
        Item::Sc(Scalar::Int(7)),
        Item::Sc(Scalar::Str(b"a,b".to_vec())),
        Item::Sc(Scalar::Str(b",".to_vec())),
    ]];
    let name = "split_str".to_string();
    let out = process_rows(&mut handler, &name, rows).unwrap();
    let cell = br#"[{"str":"a","idx":0},{"str":"b","idx":2}]"#.to_vec();
    assert_eq!(out, vec![vec![Item::Sc(Scalar::Int(7)), Item::Sc(Scalar::Str(cell))]]);
}

#[test]
fn batch_empty_row_fails() {
    let factory = HandleFactory::new(conforming_module()).unwrap();
    let mut handler = factory.make_handler().unwrap();
    let rows = vec![vec![Item::Sc(Scalar::Int(1)), Item::Sc(Scalar::Int(2)), Item::Sc(
        Scalar::Int(3),
    )], vec![]];
    let name = "power_of".to_string();
    assert_eq!(process_rows(&mut handler, &name, rows).unwrap_err(), BatchError::EmptyRow);
}

#[test]
fn batch_propagates_call_trap() {
    let factory = HandleFactory::new(conforming_module()).unwrap();
    let mut handler = factory.make_handler().unwrap();
    let rows = vec![vec![Item::Sc(Scalar::Int(1)), Item::Sc(Scalar::Int(2))]];
    let name = "nonexistent".to_string();
    assert_eq!(
        process_rows(&mut handler, &name, rows).unwrap_err(),
        BatchError::Call(CallError::Trap(TrapError::UnknownName))
    );
}

#[test]
fn batch_empty_batch() {
    let factory = HandleFactory::new(conforming_module()).unwrap();
    let mut handler = factory.make_handler().unwrap();
    let name = "power_of".to_string();
    let out = process_rows(&mut handler, &name, vec![]).unwrap();
    assert!(out.is_empty());
}
