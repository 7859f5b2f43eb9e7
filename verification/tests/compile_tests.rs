use bfjit::ir::compile;
use bfjit::ir::BfIR;
use bfjit::ir::CompileError;
use bfjit::ir::CompileErrorKind;

#[test]
fn empty_source_gives_empty_ir() {
    assert_eq!(compile("").unwrap(), vec![]);
}

#[test]
fn comments_only_gives_empty_ir() {
    assert_eq!(compile("hello world\nthis is only a comment\r\n").unwrap(), vec![]);
}

#[test]
fn runs_fold_into_single_opcodes() {
    assert_eq!(compile("+++++").unwrap(), vec![BfIR::AddVal(5)]);
    assert_eq!(compile("---").unwrap(), vec![BfIR::SubVal(3)]);
    assert_eq!(compile(">>><<").unwrap(), vec![BfIR::AddPtr(3), BfIR::SubPtr(2)]);
}

#[test]
fn alternating_operators_do_not_fold() {
    assert_eq!(
        compile("+-+").unwrap(),
        vec![BfIR::AddVal(1), BfIR::SubVal(1), BfIR::AddVal(1)]
    );
}

#[test]
fn io_and_loops_emit_plain_opcodes() {
    assert_eq!(
        compile(",.[]").unwrap(),
        vec![BfIR::GetByte, BfIR::PutByte, BfIR::Jz, BfIR::Jnz]
    );
    assert_eq!(
        compile("[[]]").unwrap(),
        vec![BfIR::Jz, BfIR::Jz, BfIR::Jnz, BfIR::Jnz]
    );
}

#[test]
fn byte_run_count_wraps_modulo_256() {
    let src: String = std::iter::repeat('+').take(256).collect();
    assert_eq!(compile(&src).unwrap(), vec![BfIR::AddVal(0)]);
}

#[test]
fn compile_is_deterministic() {
    let src = "++++++++[>++++++++<-]>+.";
    assert_eq!(compile(src).unwrap(), compile(src).unwrap());
}

#[test]
fn comments_never_change_ir() {
    let bare = compile("++[-].").unwrap();
    let commented = compile("+ add\n+ add\n[ loop\n- sub\n] end\n. put\n").unwrap();
    assert_eq!(bare, commented);
}

#[test]
fn unexpected_right_bracket_position() {
    assert_eq!(
        compile("  ]").unwrap_err(),
        CompileError { line: 1, col: 3, kind: CompileErrorKind::UnexpectedRightBracket }
    );
}

#[test]
fn unclosed_left_bracket_position() {
    assert_eq!(
        compile("[").unwrap_err(),
        CompileError { line: 1, col: 1, kind: CompileErrorKind::UnclosedLeftBracket }
    );
}

#[test]
fn innermost_unclosed_bracket_is_reported() {
    assert_eq!(
        compile("[ [\n[").unwrap_err(),
        CompileError { line: 2, col: 1, kind: CompileErrorKind::UnclosedLeftBracket }
    );
}

#[test]
fn newline_resets_column_and_bumps_line() {
    assert_eq!(
        compile("\n ]").unwrap_err(),
        CompileError { line: 2, col: 2, kind: CompileErrorKind::UnexpectedRightBracket }
    );
}

#[test]
fn letter_a_program_compiles_to_folded_ir() {
    assert_eq!(
        compile("++++++++[>++++++++<-]>+.").unwrap(),
        vec![
            BfIR::AddVal(8),
            BfIR::Jz,
            BfIR::AddPtr(1),
            BfIR::AddVal(8),
            BfIR::SubPtr(1),
            BfIR::SubVal(1),
            BfIR::Jnz,
            BfIR::AddPtr(1),
            BfIR::AddVal(1),
            BfIR::PutByte,
        ]
    );
}

#[test]
fn carriage_return_is_a_plain_comment() {
    // `\r` neither ends a run nor resets the column.
    assert_eq!(compile("+\r+").unwrap(), vec![BfIR::AddVal(2)]);
    assert_eq!(
        compile("\r]").unwrap_err(),
        CompileError { line: 1, col: 2, kind: CompileErrorKind::UnexpectedRightBracket }
    );
}

#[test]
fn round_trip_through_canonical_source() {
    // The opcodes of this source print canonically as "+++>--<[,.]";
    // re-parsing that must give the same opcodes.
    let ir = compile("+ + + > hello -- < [ , . ]").unwrap();
    assert_eq!(
        ir,
        vec![
            BfIR::AddVal(3),
            BfIR::AddPtr(1),
            BfIR::SubVal(2),
            BfIR::SubPtr(1),
            BfIR::Jz,
            BfIR::GetByte,
            BfIR::PutByte,
            BfIR::Jnz,
        ]
    );
    assert_eq!(compile("+++>--<[,.]").unwrap(), ir);
}

#[test]
fn hello_world_compiles_balanced_and_folded() {
    let src = "++++++++[>++++[>++>+++>+++>+<<<<-]>+>+>->>+[<]<-]>>.>---.+++++++..+++.>>.<-.<.+++.------.--------.>>+.>++.";
    let ir = compile(src).unwrap();
    let opens = ir.iter().filter(|op| matches!(op, BfIR::Jz)).count();
    let closes = ir.iter().filter(|op| matches!(op, BfIR::Jnz)).count();
    assert_eq!(opens, closes);
    for w in ir.windows(2) {
        let same = matches!(
            (w[0], w[1]),
            (BfIR::AddVal(_), BfIR::AddVal(_))
                | (BfIR::SubVal(_), BfIR::SubVal(_))
                | (BfIR::AddPtr(_), BfIR::AddPtr(_))
                | (BfIR::SubPtr(_), BfIR::SubPtr(_))
        );
        assert!(!same);
    }
}
