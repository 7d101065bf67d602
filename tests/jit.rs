use whitespace_jit::jit::{JitFunction, JitMemory, FILL};

fn check_loaded(program: &[u8]) {
    let page_size = 4096;
    let mut memory = JitMemory::new(program.len() / page_size + 1, page_size).unwrap();

    memory.copy_from(program);

    let function: JitFunction = memory.freeze().unwrap();
    let code: &[u8] = function.code();
    assert_eq!(&code[..program.len()], program);
    assert!(code[program.len()..].iter().all(|b| *b == FILL));

    let memory = function.thaw().unwrap();
    assert_eq!(memory.read(program.len() - 1), 0xC3);
}

#[test]
fn jit_loads_code() {
    check_loaded(&[0x48, 0xC7, 0xC0, 0x20, 0x00, 0x00, 0x00, // mov rax, 0x20
                   0x48, 0x83, 0xC0, 0x0A,                   // add rax, 0x0A
                   0x48, 0x83, 0xE8, 0x0A,                   // sub rax, 0x0A
                   0xC3]);                                   // ret
    check_loaded(&[0x48, 0xC7, 0xC0, 0x20, 0x00, 0x00, 0x00, // mov rax, 0x20
                   0x48, 0x83, 0xC0, 0x0A,                   // add rax, 0x0A
                   0xC3]);                                   // ret
}
