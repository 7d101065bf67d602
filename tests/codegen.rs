use whitespace_jit::command::{Command, Runtime};
use whitespace_jit::context::{format_decimal, parse_decimal};
use whitespace_jit::emit::emit;
use whitespace_jit::jit::{native_function, pages_for, JitMemory, MemoryError, FILL};
use whitespace_jit::label::{Label, LabelTable};
use whitespace_jit::link::{compile, link, LinkError};
use whitespace_jit::parser::program;
use whitespace_jit::serialize::serialize;

fn rt() -> Runtime {
    Runtime {
        context: 0x1122_3344_5566_7788,
        push_stack: 0x1000,
        pop_stack: 0x2000,
        peek_stack: 0x3000,
        slide: 0x4000,
        store: 0x5000,
        retrieve: 0x6000,
        print: 0x7000,
        read: 0x8000,
    }
}

fn name(bits: &[bool]) -> Label {
    Label::Name(bits.to_vec())
}

#[test]
fn assemble_push() {
    let code = Command::Push(1).assemble(&rt());
    let mut expected = vec![0x48, 0xbf, 0x88, 0x77, 0x66, 0x55, 0x44, 0x33, 0x22, 0x11];
    expected.extend([0x48, 0xbe, 1, 0, 0, 0, 0, 0, 0, 0]);
    expected.extend([0x48, 0xb9, 0x00, 0x10, 0, 0, 0, 0, 0, 0]);
    expected.extend([0xff, 0xd1]);
    assert_eq!(code, expected);
}

#[test]
fn assemble_negative_push() {
    let code = Command::Push(-1).assemble(&rt());
    assert_eq!(&code[10..20], &[0x48, 0xbe, 0xff, 0xff, 0xff, 0xff, 0xff, 0xff, 0xff, 0xff]);
}

#[test]
fn assemble_frame() {
    assert_eq!(Command::Initialize.assemble(&rt()), vec![0x55, 0x48, 0x89, 0xe5, 0x53, 0x41, 0x54]);
    let epilogue = vec![0x41, 0x5c, 0x5b, 0x48, 0x89, 0xec, 0x5d, 0xc3];
    assert_eq!(Command::Deinitialize.assemble(&rt()), epilogue);
    assert_eq!(Command::Exit.assemble(&rt()), epilogue);
}

#[test]
fn assemble_add_and_jumps() {
    let add = Command::Add.assemble(&rt());
    assert_eq!(add.len(), 22 + 3 + 22 + 3 + 25);
    assert_eq!(&add[22..25], &[0x49, 0x89, 0xc4]);
    assert_eq!(&add[47..50], &[0x4c, 0x01, 0xe0]);
    assert_eq!(Command::Jump(name(&[true])).assemble(&rt()), vec![0xe9, 0, 0, 0, 0]);
    assert_eq!(Command::Call(name(&[true])).assemble(&rt()), vec![0xe8, 0, 0, 0, 0]);
    let jz = Command::JumpZero(name(&[])).assemble(&rt());
    assert_eq!(&jz[22..], &[0x48, 0x85, 0xc0, 0x0f, 0x84, 0, 0, 0, 0]);
    assert_eq!(Command::Mark(name(&[])).assemble(&rt()), Vec::<u8>::new());
    assert_eq!(Command::Return.assemble(&rt()), vec![0xc3]);
}

#[test]
fn emit_records_relocations_and_marks() {
    let prog = vec![Command::Jump(name(&[true])), Command::Push(1), Command::Mark(name(&[true]))];
    let buf = emit(&prog, &rt());
    assert_eq!(buf.code.len(), 7 + 5 + 32 + 8);
    assert_eq!(buf.relocations.len(), 1);
    assert_eq!(buf.relocations[0].offset, 8);
    assert_eq!(buf.definitions.len(), 1);
    assert_eq!(buf.definitions[0].offset, 44);
}

#[test]
fn link_forward_and_backward() {
    let forward = vec![Command::Jump(name(&[true])), Command::Push(1), Command::Mark(name(&[true]))];
    let (code, table) = compile(&forward, &rt()).unwrap();
    assert_eq!(&code[8..12], &[0x20, 0, 0, 0]);
    assert_eq!(table.get(&vec![true]), Some(44));

    let backward = vec![Command::Mark(name(&[false])), Command::Jump(name(&[false]))];
    let (code, _) = compile(&backward, &rt()).unwrap();
    assert_eq!(&code[8..12], &[0xfb, 0xff, 0xff, 0xff]);
}

#[test]
fn link_twice_changes_nothing() {
    let prog = vec![
        Command::Mark(name(&[false])),
        Command::JumpZero(name(&[true])),
        Command::Jump(name(&[false])),
        Command::Mark(name(&[true])),
    ];
    let mut buf = emit(&prog, &rt());
    link(&mut buf.code, &buf.relocations, &buf.definitions).unwrap();
    let once = buf.code.clone();
    link(&mut buf.code, &buf.relocations, &buf.definitions).unwrap();
    assert_eq!(buf.code, once);
}

#[test]
fn link_errors() {
    let unresolved = vec![Command::Call(name(&[true, true]))];
    assert_eq!(compile(&unresolved, &rt()).err(), Some(LinkError::UnresolvedLabel(vec![true, true])));
    let twice = vec![Command::Mark(name(&[true])), Command::Mark(name(&[true]))];
    assert_eq!(compile(&twice, &rt()).err(), Some(LinkError::DuplicateLabel(vec![true])));
}

#[test]
fn label_replace() {
    let mut table = LabelTable::new();
    assert_eq!(table.define(&vec![true, false], 12), Ok(()));
    assert_eq!(table.define(&vec![true, false], 13), Err(()));
    assert_eq!(table.len(), 1);
    assert_eq!(name(&[true, false]).replace(&table), Some(Label::Translated(12)));
    assert_eq!(name(&[true]).replace(&table), None);
    assert_eq!(Label::Translated(3).replace(&table), Some(Label::Translated(3)));
}

#[test]
fn serialize_round_trip() {
    let source = b"   \t\n\n   \t    \t\t\n \n  \n\n\n  \t\t \t \t \n\t\n \t\n \t\t\n\n\t\n\t \t\t";
    let prog = program(source).unwrap();
    let text = serialize(&prog);
    assert_eq!(program(&text).unwrap(), prog);
    assert_eq!(serialize(&vec![Command::Push(-5)]), b"  \t\t \t\n".to_vec());
    assert_eq!(serialize(&vec![Command::Push(0), Command::Add]), b"   \n\t   ".to_vec());
}

#[test]
fn decimal_text() {
    assert_eq!(format_decimal(0), b"0".to_vec());
    assert_eq!(format_decimal(-907), b"-907".to_vec());
    assert_eq!(format_decimal(i64::MIN), b"-9223372036854775808".to_vec());
    assert_eq!(parse_decimal(b"+17"), Some(17));
    assert_eq!(parse_decimal(b"-9223372036854775808"), Some(i64::MIN));
    assert_eq!(parse_decimal(b"9223372036854775808"), None);
    assert_eq!(parse_decimal(b"-"), None);
    assert_eq!(parse_decimal(b""), None);
    assert_eq!(parse_decimal(b"12a"), None);
}

#[test]
fn page_counts() {
    assert_eq!(pages_for(0, 4096), 1);
    assert_eq!(pages_for(1, 4096), 1);
    assert_eq!(pages_for(4096, 4096), 1);
    assert_eq!(pages_for(4097, 4096), 2);
}

#[test]
fn executable_memory() {
    let mut memory = JitMemory::new(1, 4096).unwrap();
    assert_eq!(memory.read(0), FILL);
    assert_eq!(memory.read(4095), FILL);
    memory.copy_from(&[0x48, 0xc7, 0xc0, 0x20, 0, 0, 0, 0xc3]);
    memory.write(8, 0x90);
    assert_eq!(memory.read(0), 0x48);
    assert_eq!(memory.read(7), 0xc3);
    assert_eq!(memory.read(8), 0x90);
    assert_eq!(memory.read(9), FILL);
    let function = memory.freeze().unwrap();
    assert_eq!(function.code()[7], 0xc3);
    let memory = function.thaw().unwrap();
    assert_eq!(memory.read(3), 0x20);
}

#[test]
fn executable_memory_bad_size() {
    assert_eq!(JitMemory::new(1, 0).err(), Some(MemoryError::BadSize));
    assert_eq!(JitMemory::new(usize::MAX, 2).err(), Some(MemoryError::BadSize));
}

#[test]
fn load_native_function() {
    let (code, _) = compile(&vec![Command::Push(1)], &rt()).unwrap();
    let function = native_function(&code, 4096).unwrap();
    let bytes: &[u8] = function.code();
    assert_eq!(bytes.len(), 4096);
    assert_eq!(&bytes[..code.len()], &code[..]);
    assert!(bytes[code.len()..].iter().all(|b| *b == FILL));
    assert_eq!(native_function(&code, 0).err(), Some(MemoryError::BadSize));

    let big = vec![0x90u8; 5000];
    assert_eq!(native_function(&big, 4096).unwrap().code().len(), 8192);
}
