use snek::ast::{Definition, Expr, Op1, Op2, StaticError};
use snek::compiler::compile_main;
use snek::emitter::{align_to_16, assert_type, new_label};
use snek::instr::{instrs_to_string, Instr, Reg, Val};
use snek::measure::{depth, label_count};
use snek::parser::{build_program, is_keyword_name, parse_def, parse_expr, parse_program};
use snek::program::{compile, compile_entry, compile_function, compile_in_order};
use snek::reader::{split_sexps, Form};
use snek::shapes::Type;

fn sym(s: &str) -> Form {
    Form::Sym(s.to_string())
}

fn list(items: Vec<Form>) -> Form {
    Form::List(items)
}

fn pieces(text: &str) -> Vec<String> {
    split_sexps(&text.to_string()).expect("the parentheses are balanced")
}

fn expr(text: &str) -> Expr {
    *parse_program(&text.to_string()).expect("the text is a program").main
}

fn invalid(text: &str) {
    assert!(matches!(parse_program(&text.to_string()), Err(StaticError::Invalid)), "{text}");
}

#[test]
fn a_text_is_cut_at_its_top_level_parentheses() {
    assert_eq!(pieces("(a (b c)) (d)"), vec!["(a (b c))", "(d)"]);
    assert_eq!(pieces("  (a)\n\n(b  (c)\n)\n"), vec!["(a)", "(b  (c)\n)"]);
    assert_eq!(pieces("()"), vec!["()"]);
    assert_eq!(pieces("(a)(b)"), vec!["(a)", "(b)"]);
}

#[test]
fn what_stands_between_the_pieces_is_skipped() {
    assert_eq!(pieces("x (a) y (b) z"), vec!["(a)", "(b)"]);
}

#[test]
fn a_text_without_parentheses_has_no_pieces() {
    assert_eq!(pieces("37"), Vec::<String>::new());
    assert_eq!(pieces(""), Vec::<String>::new());
}

#[test]
fn a_piece_that_is_left_open_is_refused() {
    assert!(matches!(split_sexps(&"(a".to_string()), Err(StaticError::Invalid)));
    assert!(matches!(split_sexps(&"(".to_string()), Err(StaticError::Invalid)));
    assert!(matches!(split_sexps(&"(a) (b (c)".to_string()), Err(StaticError::Invalid)));
    assert!(matches!(split_sexps(&"((a) (b)".to_string()), Err(StaticError::Invalid)));
    invalid("(add1 (sub1 5)");
    invalid("(fun (f x) x) (f 1");
}

#[test]
fn a_closing_parenthesis_with_none_open_is_refused() {
    assert!(matches!(split_sexps(&")".to_string()), Err(StaticError::Invalid)));
    assert!(matches!(split_sexps(&"(a)) (b)".to_string()), Err(StaticError::Invalid)));
    invalid("(add1 5))");
}

#[test]
fn characters_outside_ascii_are_counted_as_characters() {
    assert_eq!(pieces("é (λ ü) ß (x)"), vec!["(λ ü)", "(x)"]);
}

#[test]
fn atoms() {
    assert!(matches!(parse_expr(&sym("true")), Ok(Expr::Boolean(true))));
    assert!(matches!(parse_expr(&sym("false")), Ok(Expr::Boolean(false))));
    assert!(matches!(parse_expr(&Form::Int(-3)), Ok(Expr::Number(-3))));
    assert!(matches!(parse_expr(&Form::Float), Err(StaticError::Invalid)));
    match parse_expr(&sym("input")) {
        Ok(Expr::Id(x)) => assert_eq!(x, "input"),
        _ => panic!("not a variable"),
    }
    match parse_expr(&sym("nil")) {
        Ok(Expr::Id(x)) => assert_eq!(x, "nil"),
        _ => panic!("not a variable"),
    }
}

#[test]
fn literal_bounds() {
    assert!(matches!(
        parse_expr(&Form::Int(4611686018427387903)),
        Ok(Expr::Number(4611686018427387903))
    ));
    assert!(matches!(parse_expr(&Form::Int(4611686018427387904)), Err(StaticError::Invalid)));
    assert!(matches!(
        parse_expr(&Form::Int(-4611686018427387904)),
        Ok(Expr::Number(-4611686018427387904))
    ));
    assert!(matches!(parse_expr(&Form::Int(-4611686018427387905)), Err(StaticError::Invalid)));
    assert!(matches!(parse_expr(&Form::Int(i64::MAX)), Err(StaticError::Invalid)));
}

#[test]
fn number_bounds_fail() {
    invalid("4611686018427387904");
    invalid("(add1 -4611686018427387905)");
    invalid("1.5");
}

#[test]
fn operators() {
    assert!(matches!(expr("(add1 1)"), Expr::UnOp(Op1::Add1, _)));
    assert!(matches!(expr("(sub1 1)"), Expr::UnOp(Op1::Sub1, _)));
    assert!(matches!(expr("(isnum 1)"), Expr::UnOp(Op1::IsNum, _)));
    assert!(matches!(expr("(isbool 1)"), Expr::UnOp(Op1::IsBool, _)));
    assert!(matches!(expr("(print 1)"), Expr::UnOp(Op1::Print, _)));
    assert!(matches!(expr("(+ 1 2)"), Expr::BinOp(Op2::Plus, _, _)));
    assert!(matches!(expr("(- 1 2)"), Expr::BinOp(Op2::Minus, _, _)));
    assert!(matches!(expr("(* 1 2)"), Expr::BinOp(Op2::Times, _, _)));
    assert!(matches!(expr("(< 1 2)"), Expr::BinOp(Op2::Less, _, _)));
    assert!(matches!(expr("(> 1 2)"), Expr::BinOp(Op2::Greater, _, _)));
    assert!(matches!(expr("(<= 1 2)"), Expr::BinOp(Op2::LessOrEqual, _, _)));
    assert!(matches!(expr("(>= 1 2)"), Expr::BinOp(Op2::GreaterOrEqual, _, _)));
    assert!(matches!(expr("(= 1 2)"), Expr::BinOp(Op2::Equal, _, _)));
    assert!(matches!(expr("(index 1 2)"), Expr::BinOp(Op2::Index, _, _)));
}

#[test]
fn forms() {
    assert!(matches!(expr("(if 1 2 3)"), Expr::If(_, _, _)));
    assert!(matches!(expr("(loop 1)"), Expr::Loop(_)));
    assert!(matches!(expr("(break 1)"), Expr::Break(_)));
    match expr("(set! x 1)") {
        Expr::SetVar(x, _) => assert_eq!(x, "x"),
        _ => panic!("not an assignment"),
    }
    match expr("(block 1 2 3)") {
        Expr::Block(es) => assert_eq!(es.len(), 3),
        _ => panic!("not a block"),
    }
    match expr("(tuple 1)") {
        Expr::Tuple(es) => assert_eq!(es.len(), 1),
        _ => panic!("not a tuple"),
    }
    match expr("(let ((x 1) (y 2)) y)") {
        Expr::Let(binds, _) => {
            assert_eq!(binds.len(), 2);
            assert_eq!(binds[0].0, "x");
            assert_eq!(binds[1].0, "y");
        }
        _ => panic!("not a let"),
    }
    match expr("(f)") {
        Expr::Call(f, args) => {
            assert_eq!(f, "f");
            assert!(args.is_empty());
        }
        _ => panic!("not a call"),
    }
    match expr("(f 1 (g 2) 3)") {
        Expr::Call(f, args) => {
            assert_eq!(f, "f");
            assert_eq!(args.len(), 3);
            assert!(matches!(args[1], Expr::Call(_, _)));
        }
        _ => panic!("not a call"),
    }
}

#[test]
fn a_let_may_bind_a_name_twice_as_far_as_the_parser_goes() {
    assert!(matches!(expr("(let ((x 1) (x 2)) x)"), Expr::Let(_, _)));
}

#[test]
fn wrong_numbers_of_parts_are_refused() {
    for text in [
        "(add1)", "(add1 1 2)", "(+ 1)", "(+ 1 2 3)", "(if 1 2)", "(if 1 2 3 4)", "(loop)",
        "(loop 1 2)", "(break)", "(set! x)", "(set! x 1 2)", "(block)", "(tuple)", "(let)",
        "(let ((x 1)))", "(let ((x 1)) 1 2)", "(let () 1)", "(let (x 1) x)", "(let ((x)) x)",
        "(let ((x 1 2)) x)", "(let ((1 2)) 3)", "(let x 1)", "()", "(1 2)", "((f) 1)",
        "(set! 1 2)", "(set! (x) 2)",
    ] {
        invalid(text);
    }
}

#[test]
fn error3() {
    invalid("(let ((let 1)) 2)");
    invalid("(true 1)");
    invalid("(input 1)");
    invalid("(fun (f x) x)");
}

#[test]
fn keywords() {
    for k in [
        "add1", "sub1", "let", "+", "-", "*", "<", ">", ">=", "<=", "=", "true", "false", "input",
        "isnum", "isbool", "loop", "break", "set!", "if", "fun", "print", "index", "tuple",
        "block", "nil",
    ] {
        assert!(is_keyword_name(&k.to_string()), "{k}");
        invalid(&format!("(let (({k} 1)) 2)"));
        invalid(&format!("(set! {k} 1)"));
        invalid(&format!("(fun (f {k}) 1) (f 1)"));
    }
    for k in ["x", "add", "Let", "", "nil?", "inputs", "=="] {
        assert!(!is_keyword_name(&k.to_string()), "{k}");
    }
}

#[test]
fn definitions() {
    let form = list(vec![
        sym("fun"),
        list(vec![sym("f"), sym("a"), sym("b")]),
        list(vec![sym("+"), sym("a"), sym("b")]),
    ]);
    let d: Definition = parse_def(&form).expect("a definition");
    assert_eq!(d.name, "f");
    assert_eq!(d.params, vec!["a", "b"]);
    assert!(matches!(*d.body, Expr::BinOp(Op2::Plus, _, _)));

    let no_params = list(vec![sym("fun"), list(vec![sym("g")]), Form::Int(1)]);
    assert_eq!(parse_def(&no_params).unwrap().params.len(), 0);

    let bad = [
        sym("fun"),
        list(vec![sym("fun"), list(vec![sym("f")])]),
        list(vec![sym("fn"), list(vec![sym("f")]), Form::Int(1)]),
        list(vec![sym("fun"), sym("f"), Form::Int(1)]),
        list(vec![sym("fun"), list(vec![]), Form::Int(1)]),
        list(vec![sym("fun"), list(vec![Form::Int(1)]), Form::Int(1)]),
        list(vec![sym("fun"), list(vec![sym("f"), Form::Int(1)]), Form::Int(1)]),
        list(vec![sym("fun"), list(vec![sym("f"), sym("if")]), Form::Int(1)]),
        list(vec![sym("fun"), list(vec![sym("f")]), Form::Float]),
        list(vec![sym("fun"), list(vec![sym("f")]), Form::Int(1), Form::Int(2)]),
    ];
    for form in bad.iter() {
        assert!(matches!(parse_def(form), Err(StaticError::Invalid)));
    }
}

#[test]
fn programs() {
    let p = parse_program(&"(fun (f x) x) (fun (g) 1) (f (g))".to_string()).unwrap();
    assert_eq!(p.definitions.len(), 2);
    assert_eq!(p.definitions.get("f").unwrap().params, vec!["x"]);
    assert!(p.definitions.get("g").unwrap().params.is_empty());
    assert!(matches!(*p.main, Expr::Call(_, _)));

    assert!(matches!(build_program(&vec![]), Err(StaticError::Invalid)));
    let main_only = build_program(&vec![Form::Int(7)]).unwrap();
    assert!(main_only.definitions.is_empty());
    assert!(matches!(*main_only.main, Expr::Number(7)));
}

#[test]
fn every_function_is_emitted_once() {
    let p = parse_program(&"(fun (f x) x) (fun (g y) (f y)) (fun (h) 3) (g (h))".to_string())
        .unwrap();
    let text = compile(&p).unwrap();
    for name in ["f", "g", "h", "our_code_starts_here"] {
        let label = format!("{name}:\n");
        assert_eq!(text.matches(&label).count(), 1, "{name}");
    }
    assert!(text.ends_with("  pop RBP\n  ret\n"));
}

#[test]
fn functions_are_emitted_in_the_order_that_is_asked_for() {
    let p = parse_program(&"(fun (f x) (if x 1 2)) (fun (g y) (if y 3 4)) (f (g 1))".to_string())
        .unwrap();
    let fg = compile_in_order(&p, &vec!["f".to_string(), "g".to_string()]).unwrap();
    let gf = compile_in_order(&p, &vec!["g".to_string(), "f".to_string()]).unwrap();
    assert!(fg.starts_with("f:\n"));
    assert!(gf.starts_with("g:\n"));
    // the labels are numbered in the order of emission
    assert!(fg.contains("f:\n  push RBP\n  mov RBP, RSP\n  sub RSP, 0\n  mov RAX, [RBP + 16]\n  cmp RAX, 3\n  je  near if_else_2\n"));
    assert!(fg.contains("  je  near if_else_4\n"));
    assert!(gf.contains("f:\n  push RBP\n  mov RBP, RSP\n  sub RSP, 0\n  mov RAX, [RBP + 16]\n  cmp RAX, 3\n  je  near if_else_4\n"));
    let compiled = compile(&p).unwrap();
    assert!(compiled == fg || compiled == gf);
}

#[test]
fn depths() {
    assert_eq!(depth(&expr("5")), Some(0));
    assert_eq!(depth(&expr("(add1 5)")), Some(0));
    assert_eq!(depth(&expr("(+ 1 2)")), Some(1));
    assert_eq!(depth(&expr("(+ (+ 1 2) 3)")), Some(1));
    assert_eq!(depth(&expr("(+ 1 (+ 2 (+ 3 4)))")), Some(3));
    assert_eq!(depth(&expr("(let ((x 1)) x)")), Some(1));
    assert_eq!(depth(&expr("(let ((x 1) (y (+ x 1))) (+ x y))")), Some(5));
    assert_eq!(depth(&expr("(if (+ 1 2) (+ 1 (+ 2 3)) 4)")), Some(2));
    assert_eq!(depth(&expr("(block 1 (+ 1 2) 3)")), Some(1));
    assert_eq!(depth(&expr("(tuple 1 2 3)")), Some(3));
    assert_eq!(depth(&expr("(tuple (+ 1 2))")), Some(1));
    assert_eq!(depth(&expr("(tuple 1 (+ 1 (+ 2 3)))")), Some(3));
    assert_eq!(depth(&expr("(f)")), Some(0));
    assert_eq!(depth(&expr("(f 1 2)")), Some(2));
    assert_eq!(depth(&expr("(loop (break (set! x (+ 1 2))))")), Some(1));
}

#[test]
fn label_counts() {
    assert_eq!(label_count(&expr("5")), Some(0));
    assert_eq!(label_count(&expr("(if 1 2 3)")), Some(2));
    assert_eq!(label_count(&expr("(loop (if 1 (break 2) 3))")), Some(4));
    assert_eq!(label_count(&expr("(tuple 1 (tuple 2))")), Some(2));
    assert_eq!(label_count(&expr("(let ((x (if 1 2 3))) (f (loop (break x)) (tuple x)))")), Some(5));
}

#[test]
fn rounding_to_even() {
    assert_eq!(align_to_16(0), 0);
    assert_eq!(align_to_16(1), 2);
    assert_eq!(align_to_16(2), 2);
    assert_eq!(align_to_16(7), 8);
}

#[test]
fn labels_take_the_next_number() {
    let mut l: i64 = 5;
    assert_eq!(new_label(&mut l, "if_end").to_string(), "if_end_5");
    assert_eq!(new_label(&mut l, "loop_start").to_string(), "loop_start_6");
    assert_eq!(l, 7);
    let mut l: i64 = -3;
    assert_eq!(new_label(&mut l, "x").to_string(), "x_-3");
}

#[test]
fn type_checks() {
    assert_eq!(
        instrs_to_string(&assert_type(Val::Reg(Reg::RAX), Type::Number)),
        "  mov RBX, RAX\n  and RBX, 1\n  cmp RBX, 0\n  jne near not_num_err\n"
    );
    assert_eq!(
        instrs_to_string(&assert_type(Val::RegOffset(Reg::RBP, 16), Type::Bool)),
        "  mov RBX, [RBP - 16]\n  and RBX, 3\n  cmp RBX, 3\n  jne near not_bool_err\n"
    );
    assert_eq!(
        instrs_to_string(&assert_type(Val::Imm(5), Type::Tuple)),
        "  mov RBX, 5\n  and RBX, 3\n  cmp RBX, 1\n  jne near not_tuple_err\n"
    );
}

#[test]
fn operand_text() {
    assert_eq!(Val::Reg(Reg::R15).to_string(), "R15");
    assert_eq!(Val::Imm(0).to_string(), "0");
    assert_eq!(Val::Imm(i64::MIN).to_string(), "-9223372036854775808");
    assert_eq!(Val::Imm(i64::MAX).to_string(), "9223372036854775807");
    assert_eq!(Val::RegOffset(Reg::RBP, 0).to_string(), "[RBP - 0]");
    assert_eq!(Val::RegOffset(Reg::RSP, 24).to_string(), "[RSP - 24]");
    assert_eq!(Val::RegOffset(Reg::RBX, -8).to_string(), "[RBX + 8]");
    assert_eq!(Val::RegOffset(Reg::R12, i64::MIN).to_string(), "[R12 + 9223372036854775808]");
    assert_eq!(Val::Label("here".to_string()).to_string(), "here");
    for (r, name) in [
        (Reg::RAX, "RAX"), (Reg::RBP, "RBP"), (Reg::RBX, "RBX"), (Reg::RCX, "RCX"),
        (Reg::RDX, "RDX"), (Reg::RSI, "RSI"), (Reg::R8, "R8"), (Reg::R9, "R9"),
        (Reg::R12, "R12"), (Reg::R15, "R15"), (Reg::RSP, "RSP"), (Reg::RDI, "RDI"),
    ] {
        assert_eq!(r.name(), name);
        assert_eq!(r.to_string(), name);
    }
}

#[test]
fn every_instruction_has_its_text() {
    let a = || Val::Reg(Reg::RAX);
    let b = || Val::Imm(1);
    let l = || Val::Label("l".to_string());
    let cases: Vec<(Instr, &str)> = vec![
        (Instr::IMov(a(), b()), "  mov RAX, 1"),
        (Instr::IAdd(a(), b()), "  add RAX, 1"),
        (Instr::ISub(a(), b()), "  sub RAX, 1"),
        (Instr::IMul(a(), b()), "  imul RAX, 1"),
        (Instr::ICmp(a(), b()), "  cmp RAX, 1"),
        (Instr::ICMovE(a(), b()), "  cmove RAX, 1"),
        (Instr::ICMovL(a(), b()), "  cmovl RAX, 1"),
        (Instr::ICMovG(a(), b()), "  cmovg RAX, 1"),
        (Instr::ICMovGE(a(), b()), "  cmovge RAX, 1"),
        (Instr::ICMovLE(a(), b()), "  cmovle RAX, 1"),
        (Instr::IAnd(a(), b()), "  and RAX, 1"),
        (Instr::IShr(a(), b()), "  shr RAX, 1"),
        (Instr::IShl(a(), b()), "  shl RAX, 1"),
        (Instr::ISar(a(), b()), "  sar RAX, 1"),
        (Instr::IJe(l()), "  je  near l"),
        (Instr::IJne(l()), "  jne near l"),
        (Instr::IJg(l()), "  jg  near l"),
        (Instr::IJge(l()), "  jge near l"),
        (Instr::IJl(l()), "  jl  near l"),
        (Instr::IJo(l()), "  jo  near l"),
        (Instr::IJmp(l()), "  jmp near l"),
        (Instr::ICall(l()), "  call l"),
        (Instr::IPush(a()), "  push RAX"),
        (Instr::IPop(a()), "  pop RAX"),
        (Instr::ILabel("l".to_string()), "l:"),
        (Instr::IRet(), "  ret"),
    ];
    for (i, text) in cases.iter() {
        assert_eq!(i.to_string(), *text);
    }
    assert_eq!(instrs_to_string(&vec![]), "");
}

#[test]
fn an_expression_is_compiled_against_an_environment() {
    let env = im::HashMap::new().update("x".to_string(), 16).update("p".to_string(), -24);
    let defs: im::HashMap<String, Definition> = im::HashMap::new();
    let mut l: i64 = 10;
    let code = compile_main(&expr("(+ x p)"), 3, &env, &mut l, "", &defs).unwrap();
    assert_eq!(l, 10);
    assert!(instrs_to_string(&code).starts_with(
        "  mov RAX, [RBP - 16]\n  mov [RBP - 24], RAX\n  mov RAX, [RBP + 24]\n  mov RBX, RAX\n"
    ));
    let code = compile_main(&expr("(loop (break 1))"), 1, &env, &mut l, "", &defs).unwrap();
    assert_eq!(l, 12);
    assert_eq!(
        instrs_to_string(&code),
        "loop_start_10:\n  mov RAX, 2\n  jmp near loop_end_11\n  jmp near loop_start_10\nloop_end_11:\n"
    );
    let code = compile_main(&expr("(break x)"), 1, &env, &mut l, "out", &defs).unwrap();
    assert_eq!(instrs_to_string(&code), "  mov RAX, [RBP - 16]\n  jmp near out\n");
    match compile_main(&expr("(+ x y)"), 1, &env, &mut l, "", &defs) {
        Err(StaticError::UnboundVariable(y)) => assert_eq!(y, "y"),
        _ => panic!("y is not bound"),
    }
    assert!(matches!(
        compile_main(&expr("(break (break 1))"), 1, &env, &mut l, "out", &defs),
        Err(StaticError::BreakOutsideLoop)
    ));
    assert!(matches!(
        compile_main(&Expr::Number(i64::MAX), 1, &env, &mut l, "", &defs),
        Err(StaticError::Invalid)
    ));
}

#[test]
fn the_first_error_is_reported() {
    let message = |text: &str| match parse_program(&text.to_string()).map(|p| compile(&p)) {
        Ok(Err(e)) => e.message(),
        _ => panic!("{text} has no static error"),
    };
    assert_eq!(message("(+ a b)"), "Unbound variable identifier a");
    assert_eq!(message("(let ((x y) (x 1)) x)"), "Unbound variable identifier y");
    assert_eq!(message("(let ((x 1) (x y)) x)"), "Duplicate binding");
    assert_eq!(message("(block (set! z (break 1)) 2)"), "Invalid: break outside of loop");
    assert_eq!(message("(f a)"), "Invalid expression provided");
    assert_eq!(message("(set! q undefined)"), "Unbound variable identifier undefined");
    assert_eq!(message("(set! q 1)"), "Unbound variable identifier q");
    assert_eq!(message("(let ((x 1)) (let ((x 2) (y x)) (z)))"), "Invalid expression provided");
}

#[test]
fn a_copy_of_an_expression_is_the_same_expression() {
    let e = expr("(let ((x (tuple 1 (f 2 nil))) (y true)) (if (= x y) (loop (break -4)) (block (set! x 5) (print x))))");
    assert_eq!(format!("{:?}", e.clone()), format!("{:?}", e));
}

#[test]
fn an_expression_whose_labels_cannot_be_numbered_is_too_large() {
    let defs: im::HashMap<String, Definition> = im::HashMap::new();
    let mut l: i64 = i64::MAX - 1;
    assert!(matches!(
        compile_entry(&expr("(if true 1 2)"), &mut l, &defs),
        Err(StaticError::TooLarge)
    ));
    assert_eq!(l, i64::MAX - 1);
    let mut l: i64 = i64::MAX - 2;
    assert!(compile_entry(&expr("(if true 1 2)"), &mut l, &defs).is_ok());
    assert_eq!(l, i64::MAX);
    let d = Definition {
        name: "f".to_string(),
        params: vec![],
        body: Box::new(expr("(tuple 1)")),
    };
    let mut l: i64 = i64::MAX;
    assert!(matches!(compile_function(&d, &mut l, &defs), Err(StaticError::TooLarge)));
    assert_eq!(StaticError::TooLarge.message(), "Invalid: expression too large");
}

#[test]
fn a_function_is_compiled_with_its_parameters_above_its_frame() {
    let defs: im::HashMap<String, Definition> = im::HashMap::new();
    let d = Definition {
        name: "sum3".to_string(),
        params: vec!["a".to_string(), "b".to_string(), "c".to_string()],
        body: Box::new(expr("(+ a (+ b c))")),
    };
    let mut l: i64 = 1;
    let code = compile_function(&d, &mut l, &defs).unwrap();
    let text = instrs_to_string(&code);
    assert!(text.starts_with(
        "sum3:\n  push RBP\n  mov RBP, RSP\n  sub RSP, 16\n  mov RAX, [RBP + 16]\n  mov [RBP - 8], RAX\n  mov RAX, [RBP + 24]\n  mov [RBP - 16], RAX\n  mov RAX, [RBP + 32]\n"
    ));
    assert!(text.ends_with("  add RSP, 16\n  pop RBP\n  ret\n"));
    assert_eq!(l, 1);
}
