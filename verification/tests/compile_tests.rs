use snek::ast::{Expr, Op1, Op2, StaticError};
use snek::instr::{instrs_to_string, Instr, Reg, Val};
use snek::parser::parse_program;
use snek::program::{assembly_unit, compile};

fn program(text: &str) -> snek::ast::Program {
    parse_program(&text.to_string()).expect("the text is a program")
}

fn static_error(text: &str) -> String {
    match parse_program(&text.to_string()) {
        Err(e) => e.message(),
        Ok(p) => match compile(&p) {
            Err(e) => e.message(),
            Ok(_) => panic!("the text compiles"),
        },
    }
}

#[test]
fn number_literal_is_moved_as_twice_its_value() {
    let text = compile(&program("37")).unwrap();
    assert!(text.contains("  mov RAX, 74\n"));
}

#[test]
fn greatest_literal_compiles() {
    let text = compile(&program("4611686018427387903")).unwrap();
    assert!(text.contains("  mov RAX, 9223372036854775806\n"));
}

#[test]
fn literal_past_the_greatest_is_invalid() {
    assert!(static_error("4611686018427387904").contains("Invalid"));
}

#[test]
fn least_literal_compiles() {
    let text = compile(&program("-4611686018427387904")).unwrap();
    assert!(text.contains("  mov RAX, -9223372036854775808\n"));
}

#[test]
fn unbound_id() {
    assert_eq!(static_error("x"), "Unbound variable identifier x");
}

#[test]
fn duplicate_binding() {
    assert_eq!(static_error("(let ((x 1) (x 2)) x)"), "Duplicate binding");
}

#[test]
fn no_input_in_func() {
    assert_eq!(
        static_error("(fun (f x) input) (f 1)"),
        "Unbound variable identifier input"
    );
}

#[test]
fn bad_func_arity() {
    assert!(static_error("(fun (f x) x) (f 1 2)").contains("Invalid"));
}

#[test]
fn no_func_def() {
    assert!(static_error("(f 1 2)").contains("Invalid"));
}

#[test]
fn duplicate_func() {
    assert!(static_error("(fun (f x) x) (fun (f y) y) (f 1)").contains("Invalid"));
}

#[test]
fn duplicate_params() {
    assert!(static_error("(fun (f x x) x) (f 1 2)").contains("Invalid"));
}

#[test]
fn bad_block() {
    assert!(static_error("(block)").contains("Invalid"));
}

#[test]
fn parse_let_fail() {
    assert!(static_error("(let () 5)").contains("Invalid"));
}

#[test]
fn keyword_cannot_be_bound() {
    assert!(static_error("(let ((nil 5)) 1)").contains("Invalid"));
    assert!(static_error("(let ((input 5)) 1)").contains("Invalid"));
    assert!(static_error("(set! block 1)").contains("Invalid"));
}

#[test]
fn break_outside_loop_is_refused() {
    assert!(static_error("(break 1)").contains("Invalid"));
}

#[test]
fn add1_shape() {
    let text = compile(&program("(add1 5)")).unwrap();
    let expected = "our_code_starts_here:\n  push RBP\n  mov RBP, RSP\n  sub RSP, 16\n  mov [RBP - 8], RDI\n  mov [RBP - 16], RDX\n  mov R15, RSI\n  mov R12, RBP\n  mov RAX, 10\n  mov RBX, RAX\n  and RBX, 1\n  cmp RBX, 0\n  jne near not_num_err\n  add RAX, 2\n  jo  near overflow_err\n  add RSP, 16\n  pop RBP\n  ret\n";
    assert_eq!(text, expected);
}

#[test]
fn if_takes_two_labels_in_order() {
    let text = compile(&program("(if true 1 (if false 2 3))")).unwrap();
    assert!(text.contains("  je  near if_else_2\n"));
    assert!(text.contains("  jmp near if_end_1\n"));
    assert!(text.contains("if_else_2:\n"));
    assert!(text.contains("  je  near if_else_4\n"));
    assert!(text.contains("if_end_3:\n"));
    assert!(text.ends_with("if_end_1:\n  add RSP, 16\n  pop RBP\n  ret\n"));
}

#[test]
fn call_with_odd_arguments_is_padded() {
    let text = compile(&program("(fun (f x) x) (f 7)")).unwrap();
    assert!(text.starts_with("f:\n  push RBP\n  mov RBP, RSP\n  sub RSP, 0\n  mov RAX, [RBP + 16]\n  add RSP, 0\n  pop RBP\n  ret\n"));
    assert!(text.contains("  mov RAX, 14\n  mov [RBP - 24], RAX\n  push 0\n  mov RAX, [RBP - 24]\n  push RAX\n  call f\n  add RSP, 16\n"));
}

#[test]
fn call_arguments_are_pushed_last_first() {
    let text = compile(&program("(fun (g a b) b) (g 1 2)")).unwrap();
    assert!(text.contains("  mov RAX, 2\n  mov [RBP - 24], RAX\n  mov RAX, 4\n  mov [RBP - 32], RAX\n  mov RAX, [RBP - 32]\n  push RAX\n  mov RAX, [RBP - 24]\n  push RAX\n  call g\n  add RSP, 16\n"));
}

#[test]
fn tuple_allocation_shape() {
    let text = compile(&program("(tuple 1 nil)")).unwrap();
    assert!(text.contains("  mov RAX, [R12 - 16]\n  sub RAX, R15\n  cmp RAX, 32\n  jge near tuple_alloc_1\n  mov RDI, 4\n  mov RSI, R15\n  mov RDX, R12\n  mov RCX, RBP\n  mov R8, RSP\n  call snek_try_gc\n  mov R15, RAX\ntuple_alloc_1:\n  mov RAX, 0\n  mov [R15 - 0], RAX\n  mov RAX, 4\n  mov [R15 + 8], RAX\n  mov RAX, [RBP - 24]\n  mov [R15 + 16], RAX\n  mov RAX, [RBP - 32]\n  mov [R15 + 24], RAX\n  mov RAX, R15\n  add RAX, 1\n  add R15, 32\n"));
}

#[test]
fn unit_has_header_and_error_labels() {
    let unit = assembly_unit("BODY\n");
    assert!(unit.starts_with("\nsection .text\nextern snek_error\nextern snek_print\nextern snek_try_gc\nglobal our_code_starts_here\nBODY\n"));
    assert!(unit.ends_with("not_bool_err:\n  mov RDI, 1\n  call snek_error\nnot_num_err:\n  mov RDI, 2\n  call snek_error\ninvalid_arg_err:\n  mov RDI, 3\n  call snek_error\noverflow_err:\n  mov RDI, 4\n  call snek_error\nnot_tuple_err:\n  mov RDI, 5\n  call snek_error\nout_of_bounds_err:\n  mov RDI, 6\n  call snek_error\nnil_deref_err:\n  mov RDI, 7\n  call snek_error\n"));
}

#[test]
fn instruction_text() {
    let code = vec![
        Instr::IMov(Val::Reg(Reg::RAX), Val::RegOffset(Reg::RBP, -16)),
        Instr::ICMovGE(Val::Reg(Reg::R8), Val::Imm(-3)),
        Instr::ILabel("here".to_string()),
        Instr::IRet(),
    ];
    assert_eq!(
        instrs_to_string(&code),
        "  mov RAX, [RBP + 16]\n  cmovge R8, -3\nhere:\n  ret\n"
    );
}

#[test]
fn parsed_shapes() {
    let p = program("(+ (let ((x 5)) (* x x)) 3)");
    match *p.main {
        Expr::BinOp(Op2::Plus, a, b) => {
            assert!(matches!(*b, Expr::Number(3)));
            match *a {
                Expr::Let(binds, body) => {
                    assert_eq!(binds.len(), 1);
                    assert_eq!(binds[0].0, "x");
                    assert!(matches!(*body, Expr::BinOp(Op2::Times, _, _)));
                }
                _ => panic!("not a let"),
            }
        }
        _ => panic!("not a sum"),
    }
    let q = program("(print input)");
    assert!(matches!(*q.main, Expr::UnOp(Op1::Print, _)));
    assert!(matches!(
        parse_program(&"(1 2)".to_string()),
        Err(StaticError::Invalid)
    ));
}
