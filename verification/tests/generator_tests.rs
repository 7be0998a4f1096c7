use xbf::common::XBFErrorKind;
use xbf::generators::arm64::generator_arm64;
use xbf::generators::linux_arm64::generator_linux_arm64;
use xbf::generators::llvm::generator_llvm;
use xbf::generators::llvm::BlockLabel;
use xbf::generators::llvm::CellOp;
use xbf::generators::llvm::Terminator;
use xbf::lexer::Lexer;

fn prologue(mem: usize) -> String {
    format!(
        ".global _main\n\n.bss\n.comm mem, {}\n\n.text\n_main:\nsub sp, sp, 16\nadrp x1, mem@PAGE\nadd x1, x1, mem@PAGEOFF\nmov w0, 0\n",
        mem
    )
}

const EPILOGUE: &str = "add sp, sp, 16\nmov w16, 1\nmov w0, 0\nsvc 0x80";

const PUTCHAR: &str = "strb w0, [x1]\nstr x1, [sp, 8]\nstr x16, [sp, 16]\nmov w16, 4\nmov w0, 1\nmov w2, 1\nsvc 0x80\nldr x1, [sp, 8]\nldr x16, [sp, 16]\nldrb w0, [x1]\n";

#[test]
fn four_increments_become_one_instruction() {
    let tokens = Lexer::new("++++").lex();
    let text = generator_arm64(tokens, 100).unwrap();
    assert_eq!(text, format!("{}add w0, w0, 4\n{}", prologue(100), EPILOGUE));
    assert_eq!(text.matches("add w0, w0,").count(), 1);
    assert!(!text.contains("cbz"));
    assert!(!text.contains("cbnz"));
    assert!(!text.contains("_0:"));
}

#[test]
fn long_runs_render_multi_digit_immediates() {
    let tokens = Lexer::new("++++++++++++").lex();
    let text = generator_arm64(tokens, 65536).unwrap();
    assert_eq!(text, format!("{}add w0, w0, 12
{}", prologue(65536), EPILOGUE));
}

#[test]
fn movement_run_then_output() {
    let tokens = Lexer::new(">>.").lex();
    let text = generator_arm64(tokens, 100).unwrap();
    assert_eq!(
        text,
        format!(
            "{}strb w0, [x1]\nadd x1, x1, 2\nldrb w0, [x1]\n{}{}",
            prologue(100),
            PUTCHAR,
            EPILOGUE
        )
    );
}

#[test]
fn clear_cell_loop_branches_on_positions() {
    let tokens = Lexer::new("[-]").lex();
    let text = generator_arm64(tokens, 30000).unwrap();
    assert_eq!(
        text,
        format!(
            "{}cbz w0, _2\n_0:\nsub w0, w0, 1\ncbnz w0, _0\n_2:\n{}",
            prologue(30000),
            EPILOGUE
        )
    );
}

#[test]
fn empty_source_is_prologue_and_epilogue() {
    let tokens = Lexer::new("").lex();
    let text = generator_arm64(tokens, 8).unwrap();
    assert_eq!(text, format!("{}{}", prologue(8), EPILOGUE));
}

#[test]
fn linux_target_shares_the_instruction_table() {
    let a = generator_arm64(Lexer::new("+[>.<-]").lex(), 256).unwrap();
    let b = generator_linux_arm64(Lexer::new("+[>.<-]").lex(), 256).unwrap();
    assert_eq!(a, b);
}

#[test]
fn assembly_backend_reports_structural_errors() {
    let err = generator_arm64(Lexer::new("]").lex(), 100).unwrap_err();
    assert_eq!(err.kind, XBFErrorKind::MismatchedClose);
    assert_eq!((err.ln, err.col), (1, 1));

    let err = generator_arm64(Lexer::new("[").lex(), 100).unwrap_err();
    assert_eq!(err.kind, XBFErrorKind::MismatchedOpen);
    assert_eq!((err.ln, err.col), (1, 1));
}

#[test]
fn clear_cell_loop_body_is_one_decrement() {
    let tokens = Lexer::new("[-]").lex();
    let f = generator_llvm(tokens, 100).unwrap();
    assert_eq!(f.mem_size, 100);
    assert_eq!(f.blocks.len(), 3);

    assert_eq!(f.blocks[0].label, BlockLabel::Entry);
    assert!(f.blocks[0].ops.is_empty());
    assert_eq!(
        f.blocks[0].term,
        Terminator::CondBranch { branch_if_nonzero: false, target: 2, fallthrough: 1 }
    );

    assert_eq!(f.blocks[1].label, BlockLabel::AtBracket(0));
    assert_eq!(f.blocks[1].ops, vec![CellOp::AccCell { decrement: true, amount: 1 }]);
    assert_eq!(
        f.blocks[1].term,
        Terminator::CondBranch { branch_if_nonzero: true, target: 1, fallthrough: 2 }
    );

    assert_eq!(f.blocks[2].label, BlockLabel::AtBracket(2));
    assert!(f.blocks[2].ops.is_empty());
    assert_eq!(f.blocks[2].term, Terminator::Ret);
}

#[test]
fn movement_run_then_output_in_ir() {
    let tokens = Lexer::new(">>.").lex();
    let f = generator_llvm(tokens, 100).unwrap();
    assert_eq!(f.blocks.len(), 1);
    assert_eq!(
        f.blocks[0].ops,
        vec![CellOp::MoveIdx { left: false, amount: 2 }, CellOp::OutputCell]
    );
    assert_eq!(f.blocks[0].term, Terminator::Ret);
}

#[test]
fn input_reads_into_the_cell() {
    let tokens = Lexer::new(",<,").lex();
    let f = generator_llvm(tokens, 100).unwrap();
    assert_eq!(
        f.blocks[0].ops,
        vec![
            CellOp::InputCell,
            CellOp::MoveIdx { left: true, amount: 1 },
            CellOp::InputCell,
        ]
    );
}

#[test]
fn nested_loops_have_one_block_per_bracket() {
    let tokens = Lexer::new("[[]]").lex();
    let f = generator_llvm(tokens, 100).unwrap();
    assert_eq!(f.blocks.len(), 5);
    // every block before the last branches, only the last returns
    for b in 0..f.blocks.len() - 1 {
        match f.blocks[b].term {
            Terminator::CondBranch { target, fallthrough, .. } => {
                assert!(target < f.blocks.len());
                assert!(fallthrough < f.blocks.len());
            }
            Terminator::Ret => panic!("early return"),
        }
    }
    assert_eq!(f.blocks[f.blocks.len() - 1].term, Terminator::Ret);
    // outer open at 0 jumps past its close at 3 (block 4), inner open at 1
    // jumps past its close at 2 (block 3)
    assert_eq!(
        f.blocks[0].term,
        Terminator::CondBranch { branch_if_nonzero: false, target: 4, fallthrough: 1 }
    );
    assert_eq!(
        f.blocks[1].term,
        Terminator::CondBranch { branch_if_nonzero: false, target: 3, fallthrough: 2 }
    );
}

#[test]
fn ir_backend_reports_structural_errors() {
    let err = generator_llvm(Lexer::new("]").lex(), 100).unwrap_err();
    assert_eq!(err.kind, XBFErrorKind::MismatchedClose);
    assert_eq!((err.ln, err.col), (1, 1));
}
