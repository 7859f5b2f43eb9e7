use bfjit::ir::compile;
use bfjit::ir::BfIR;
use bfjit::jit::assemble;
use bfjit::jit::AssemblerError;

#[test]
fn empty_ir_gives_prologue_and_epilogue_only() {
    let code = assemble(&vec![], 0x11, 0x22, 0x0102030405060708).unwrap();
    let expected: Vec<u8> = vec![
        // push rax; mov r12, rdi; mov r13, rsi; mov r14, rdx; mov rcx, rsi
        0x50, 0x49, 0x89, 0xFC, 0x49, 0x89, 0xF5, 0x49, 0x89, 0xD6, 0x48, 0x89, 0xF1,
        // xor rax, rax; jmp exit
        0x48, 0x31, 0xC0, 0xE9, 0x11, 0x00, 0x00, 0x00,
        // overflow: mov rax, imm64; call rax; jmp exit
        0x48, 0xB8, 0x08, 0x07, 0x06, 0x05, 0x04, 0x03, 0x02, 0x01, 0xFF, 0xD0, 0xE9, 0x00,
        0x00, 0x00, 0x00,
        // exit: pop rdx; ret
        0x5A, 0xC3,
    ];
    assert_eq!(code, expected);
}

#[test]
fn add_val_emits_byte_add() {
    let code = assemble(&vec![BfIR::AddVal(5)], 1, 2, 3).unwrap();
    assert_eq!(&code[13..16], &[0x80, 0x01, 0x05]);
    assert_eq!(code.len(), 43);
}

#[test]
fn sub_val_emits_byte_sub() {
    let code = assemble(&vec![BfIR::SubVal(7)], 1, 2, 3).unwrap();
    assert_eq!(&code[13..16], &[0x80, 0x29, 0x07]);
}

#[test]
fn add_ptr_bounds_checks_jump_to_overflow_handler() {
    let code = assemble(&vec![BfIR::AddPtr(2)], 1, 2, 3).unwrap();
    assert_eq!(
        &code[13..35],
        &[
            0x48, 0x81, 0xC1, 0x02, 0x00, 0x00, 0x00, // add rcx, 2
            0x0F, 0x82, 0x11, 0x00, 0x00, 0x00, // jc overflow (+17)
            0x4C, 0x39, 0xF1, // cmp rcx, r14
            0x0F, 0x83, 0x08, 0x00, 0x00, 0x00, // jnb overflow (+8)
        ]
    );
}

#[test]
fn sub_ptr_bounds_checks_jump_to_overflow_handler() {
    let code = assemble(&vec![BfIR::SubPtr(1)], 1, 2, 3).unwrap();
    assert_eq!(
        &code[13..35],
        &[
            0x48, 0x81, 0xE9, 0x01, 0x00, 0x00, 0x00, // sub rcx, 1
            0x0F, 0x82, 0x11, 0x00, 0x00, 0x00, // jc overflow (+17)
            0x4C, 0x39, 0xE9, // cmp rcx, r13
            0x0F, 0x82, 0x08, 0x00, 0x00, 0x00, // jb overflow (+8)
        ]
    );
}

#[test]
fn get_byte_embeds_callback_address() {
    let code = assemble(&vec![BfIR::GetByte], 0xDEADBEEF, 2, 3).unwrap();
    assert_eq!(
        &code[13..47],
        &[
            0x49, 0x89, 0xCF, // mov r15, rcx
            0x4C, 0x89, 0xE7, // mov rdi, r12
            0x48, 0x89, 0xCE, // mov rsi, rcx
            0x48, 0xB8, 0xEF, 0xBE, 0xAD, 0xDE, 0x00, 0x00, 0x00, 0x00, // mov rax, imm64
            0xFF, 0xD0, // call rax
            0x48, 0x83, 0xF8, 0x00, // cmp rax, 0
            0x0F, 0x85, 0x1C, 0x00, 0x00, 0x00, // jnz exit (+28)
            0x4C, 0x89, 0xF9, // mov rcx, r15
        ]
    );
}

#[test]
fn put_byte_embeds_its_own_callback_address() {
    let code = assemble(&vec![BfIR::PutByte], 0xDEADBEEF, 0xCAFEBABE, 3).unwrap();
    assert_eq!(&code[24..28], &[0xBE, 0xBA, 0xFE, 0xCA]);
}

#[test]
fn loop_jumps_are_paired_and_relative() {
    let code = assemble(&vec![BfIR::Jz, BfIR::Jnz], 1, 2, 3).unwrap();
    // forward: skip past the matching Jnz block (+9)
    assert_eq!(&code[13..22], &[0x80, 0x39, 0x00, 0x0F, 0x84, 0x09, 0x00, 0x00, 0x00]);
    // backward: return to just after the Jz block (-9)
    assert_eq!(&code[22..31], &[0x80, 0x39, 0x00, 0x0F, 0x85, 0xF7, 0xFF, 0xFF, 0xFF]);
}

#[test]
fn unpaired_brackets_are_refused() {
    assert_eq!(assemble(&vec![BfIR::Jnz], 1, 2, 3).unwrap_err(), AssemblerError::Unbalanced);
    assert_eq!(assemble(&vec![BfIR::Jz], 1, 2, 3).unwrap_err(), AssemblerError::Unbalanced);
    assert_eq!(
        assemble(&vec![BfIR::Jz, BfIR::Jnz, BfIR::Jnz], 1, 2, 3).unwrap_err(),
        AssemblerError::Unbalanced
    );
}

#[test]
fn assemble_is_deterministic() {
    let ir = compile("++[>,.<-]").unwrap();
    let a = assemble(&ir, 7, 8, 9).unwrap();
    let b = assemble(&ir, 7, 8, 9).unwrap();
    assert_eq!(a, b);
}

#[test]
fn compiled_programs_always_assemble() {
    let ir = compile("++++++++[>++++[>++>+++>+++>+<<<<-]>+>+>->>+[<]<-]>>.").unwrap();
    assert!(assemble(&ir, 1, 2, 3).is_ok());
}

#[test]
fn nested_loop_offsets_span_the_inner_loop() {
    // Jz AddVal(1) Jz Jnz Jnz: outer forward jump must clear both loops.
    let ir = vec![BfIR::Jz, BfIR::AddVal(1), BfIR::Jz, BfIR::Jnz, BfIR::Jnz];
    let code = assemble(&ir, 1, 2, 3).unwrap();
    // outer Jz at 13, matching Jnz block at 43, right label at 52: rel = 52 - 22 = 30
    assert_eq!(&code[13..22], &[0x80, 0x39, 0x00, 0x0F, 0x84, 0x1E, 0x00, 0x00, 0x00]);
    // inner Jz at 25, matching Jnz at 34, right label 43: rel = 43 - 34 = 9
    assert_eq!(&code[25..34], &[0x80, 0x39, 0x00, 0x0F, 0x84, 0x09, 0x00, 0x00, 0x00]);
    // inner Jnz at 34: left label 34, after 43: rel = -9
    assert_eq!(&code[34..43], &[0x80, 0x39, 0x00, 0x0F, 0x85, 0xF7, 0xFF, 0xFF, 0xFF]);
    // outer Jnz at 43: left label 22, after 52: rel = -30
    assert_eq!(&code[43..52], &[0x80, 0x39, 0x00, 0x0F, 0x85, 0xE2, 0xFF, 0xFF, 0xFF]);
}
