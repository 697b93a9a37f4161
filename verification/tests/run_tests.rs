//! Runs compiled programs on a small model of the machine, with the
//! library's runtime routines behind the calls that the code makes.

use snek::ast::Program;
use snek::checker::is_well_formed;
use snek::collector::snek_try_gc;
use snek::emitter::error_traps;
use snek::heap::Heap;
use snek::instr::{Instr, Reg, Val};
use snek::parser::parse_program;
use snek::printer::snek_print;
use snek::program::{compile_definitions, compile_entry};
use snek::runtime::{parse_input, snek_error};
use snek::stack::Stack;
use std::collections::HashMap;

const HEAP_START: i64 = 0x10000;
const STACK_TOP: i64 = 0x8000;
const STACK_WORDS: usize = 0x1000;
const DONE: i64 = -2;
/// Return addresses are odd, as the addresses of instructions may be.
const RETURN: i64 = 0x40_0001;

struct Machine {
    regs: [i64; 12],
    stack: Vec<i64>,
    heap: Vec<i64>,
    left: i64,
    right: i64,
    overflow: bool,
    output: Vec<String>,
    collections: usize,
}

fn reg_index(r: &Reg) -> usize {
    match r {
        Reg::RAX => 0,
        Reg::RBP => 1,
        Reg::RBX => 2,
        Reg::RCX => 3,
        Reg::RDX => 4,
        Reg::RSI => 5,
        Reg::R8 => 6,
        Reg::R9 => 7,
        Reg::R12 => 8,
        Reg::R15 => 9,
        Reg::RSP => 10,
        Reg::RDI => 11,
    }
}

impl Machine {
    fn new(heap_words: usize) -> Machine {
        Machine {
            regs: [0; 12],
            stack: vec![0; STACK_WORDS],
            heap: vec![0; heap_words],
            left: 0,
            right: 0,
            overflow: false,
            output: Vec::new(),
            collections: 0,
        }
    }

    fn reg(&self, r: Reg) -> i64 {
        self.regs[reg_index(&r)]
    }

    fn set_reg(&mut self, r: Reg, v: i64) {
        self.regs[reg_index(&r)] = v;
    }

    fn stack_low(&self) -> i64 {
        STACK_TOP - 8 * self.stack.len() as i64
    }

    fn load(&self, addr: i64) -> i64 {
        assert_eq!(addr % 8, 0, "unaligned load at {addr}");
        if addr >= HEAP_START {
            self.heap[((addr - HEAP_START) / 8) as usize]
        } else {
            assert!(addr >= self.stack_low() && addr < STACK_TOP, "load at {addr}");
            self.stack[((addr - self.stack_low()) / 8) as usize]
        }
    }

    fn store(&mut self, addr: i64, v: i64) {
        assert_eq!(addr % 8, 0, "unaligned store at {addr}");
        if addr >= HEAP_START {
            self.heap[((addr - HEAP_START) / 8) as usize] = v;
        } else {
            assert!(addr >= self.stack_low() && addr < STACK_TOP, "store at {addr}");
            let low = self.stack_low();
            self.stack[((addr - low) / 8) as usize] = v;
        }
    }

    fn read(&self, v: &Val) -> i64 {
        match v {
            Val::Reg(r) => self.regs[reg_index(r)],
            Val::Imm(n) => *n,
            Val::RegOffset(r, off) => self.load(self.regs[reg_index(r)] - off),
            Val::Label(l) => panic!("label {l} read as a value"),
        }
    }

    fn write(&mut self, dst: &Val, v: i64) {
        match dst {
            Val::Reg(r) => self.regs[reg_index(r)] = v,
            Val::RegOffset(r, off) => self.store(self.regs[reg_index(r)] - off, v),
            _ => panic!("write to what is no place"),
        }
    }

    fn push(&mut self, v: i64) {
        let sp = self.reg(Reg::RSP) - 8;
        self.set_reg(Reg::RSP, sp);
        self.store(sp, v);
    }

    fn pop(&mut self) -> i64 {
        let sp = self.reg(Reg::RSP);
        let v = self.load(sp);
        self.set_reg(Reg::RSP, sp + 8);
        v
    }

    fn heap_view(&self) -> Heap {
        Heap { start: HEAP_START, words: self.heap.clone() }
    }

    /// The runtime's side of `snek_try_gc`.
    fn collect(&mut self) -> Result<(), String> {
        let count = self.reg(Reg::RDI) as usize;
        let next = ((self.reg(Reg::RSI) - HEAP_START) / 8) as usize;
        let base = self.reg(Reg::RDX);
        let sp = self.reg(Reg::R8);
        assert_eq!(self.reg(Reg::RCX), self.reg(Reg::RBP));
        let words: Vec<i64> = (0..(base - sp) / 8).map(|k| self.load(sp + 8 * k)).collect();
        let mut stack = Stack { low: sp, words, frame: self.reg(Reg::RCX) };
        let mut heap = self.heap_view();
        let roots = stack.roots();
        assert!(is_well_formed(&heap, next, &roots), "the heap is not well formed");
        let before: Vec<String> = roots.iter().map(|v| snek_print(*v, &heap)).collect();
        let answer = snek_try_gc(count, &mut heap, next, &mut stack);
        let after: Vec<String> = stack.roots().iter().map(|v| snek_print(*v, &heap)).collect();
        assert_eq!(before, after, "a collection changed what the stack holds");
        self.heap = heap.words;
        for (k, v) in stack.words.iter().enumerate() {
            self.store(sp + 8 * k as i64, *v);
        }
        self.collections += 1;
        match answer {
            Some(n) => {
                self.set_reg(Reg::RAX, HEAP_START + 8 * n as i64);
                Ok(())
            }
            None => Err("out of memory".to_string()),
        }
    }
}

fn moves(pick: &Instr, left: i64, right: i64) -> bool {
    match pick {
        Instr::ICMovE(..) => left == right,
        Instr::ICMovL(..) => left < right,
        Instr::ICMovG(..) => left > right,
        Instr::ICMovGE(..) => left >= right,
        Instr::ICMovLE(..) => left <= right,
        _ => unreachable!(),
    }
}

fn target(labels: &HashMap<String, usize>, v: &Val) -> usize {
    match v {
        Val::Label(l) => *labels.get(l).unwrap_or_else(|| panic!("no label {l}")),
        _ => panic!("jump to what is no label"),
    }
}

/// Runs the code from `our_code_starts_here`; the result is the final
/// value in `RAX`, or the diagnostic of the error that stopped the program.
fn execute(code: &[Instr], input: i64, m: &mut Machine) -> Result<i64, String> {
    let mut labels: HashMap<String, usize> = HashMap::new();
    for (i, instr) in code.iter().enumerate() {
        if let Instr::ILabel(l) = instr {
            assert!(labels.insert(l.clone(), i).is_none(), "label {l} defined twice");
        }
    }
    m.set_reg(Reg::RSP, STACK_TOP);
    m.set_reg(Reg::RDI, input);
    m.set_reg(Reg::RSI, HEAP_START);
    m.set_reg(Reg::RDX, HEAP_START + 8 * m.heap.len() as i64);
    m.push(DONE);
    let mut pc = labels["our_code_starts_here"];
    let mut steps: u64 = 0;
    loop {
        steps += 1;
        assert!(steps < 50_000_000, "the program does not end");
        let instr = &code[pc];
        pc += 1;
        match instr {
            Instr::IMov(d, s) => {
                let v = m.read(s);
                m.write(d, v);
            }
            Instr::IAdd(d, s) => {
                let (v, o) = m.read(d).overflowing_add(m.read(s));
                m.overflow = o;
                m.write(d, v);
            }
            Instr::ISub(d, s) => {
                let (v, o) = m.read(d).overflowing_sub(m.read(s));
                m.overflow = o;
                m.write(d, v);
            }
            Instr::IMul(d, s) => {
                let (v, o) = m.read(d).overflowing_mul(m.read(s));
                m.overflow = o;
                m.write(d, v);
            }
            Instr::ICmp(a, b) => {
                m.left = m.read(a);
                m.right = m.read(b);
            }
            Instr::ICMovE(d, s)
            | Instr::ICMovL(d, s)
            | Instr::ICMovG(d, s)
            | Instr::ICMovGE(d, s)
            | Instr::ICMovLE(d, s) => {
                if moves(instr, m.left, m.right) {
                    let v = m.read(s);
                    m.write(d, v);
                }
            }
            Instr::IAnd(d, s) => {
                let v = m.read(d) & m.read(s);
                m.overflow = false;
                m.write(d, v);
            }
            Instr::ISar(d, s) => {
                let v = m.read(d) >> m.read(s);
                m.write(d, v);
            }
            Instr::IShl(d, s) => {
                let v = m.read(d) << m.read(s);
                m.write(d, v);
            }
            Instr::IShr(d, s) => {
                let v = ((m.read(d) as u64) >> m.read(s)) as i64;
                m.write(d, v);
            }
            Instr::IJe(l) => {
                if m.left == m.right {
                    pc = target(&labels, l);
                }
            }
            Instr::IJne(l) => {
                if m.left != m.right {
                    pc = target(&labels, l);
                }
            }
            Instr::IJg(l) => {
                if m.left > m.right {
                    pc = target(&labels, l);
                }
            }
            Instr::IJge(l) => {
                if m.left >= m.right {
                    pc = target(&labels, l);
                }
            }
            Instr::IJl(l) => {
                if m.left < m.right {
                    pc = target(&labels, l);
                }
            }
            Instr::IJo(l) => {
                if m.overflow {
                    pc = target(&labels, l);
                }
            }
            Instr::IJmp(l) => pc = target(&labels, l),
            Instr::ICall(Val::Label(l)) if l == "snek_print" => {
                assert_eq!(m.reg(Reg::RSP) % 16, 0, "the stack is not aligned at a call");
                let v = m.reg(Reg::RDI);
                let line = snek_print(v, &m.heap_view());
                m.output.push(line);
                m.set_reg(Reg::RAX, v);
            }
            Instr::ICall(Val::Label(l)) if l == "snek_error" => {
                return Err(snek_error(m.reg(Reg::RDI)));
            }
            Instr::ICall(Val::Label(l)) if l == "snek_try_gc" => {
                assert_eq!(m.reg(Reg::RSP) % 16, 0, "the stack is not aligned at a call");
                m.collect()?;
            }
            Instr::ICall(l) => {
                assert_eq!(m.reg(Reg::RSP) % 16, 0, "the stack is not aligned at a call");
                m.push(RETURN + 2 * pc as i64);
                pc = target(&labels, l);
            }
            Instr::IPush(v) => {
                let v = m.read(v);
                m.push(v);
            }
            Instr::IPop(d) => {
                let v = m.pop();
                m.write(d, v);
            }
            Instr::ILabel(_) => {}
            Instr::IRet() => {
                let back = m.pop();
                if back == DONE {
                    return Ok(m.reg(Reg::RAX));
                }
                pc = ((back - RETURN) / 2) as usize;
            }
        }
    }
}

fn code_of(p: &Program) -> Vec<Instr> {
    let mut label: i64 = 1;
    let mut code = compile_definitions(&p.definitions, &mut label).expect("the functions compile");
    code.extend(compile_entry(&p.main, &mut label, &p.definitions).expect("the program compiles"));
    code.extend(error_traps());
    code
}

/// What the linked program prints: the lines of its `print`s, then its
/// result; or the diagnostic of the error that stops it.
fn run_with(source: &str, input: &str, heap_words: usize) -> Result<(String, usize), String> {
    let p = parse_program(&source.to_string()).expect("the text is a program");
    let code = code_of(&p);
    let input = parse_input(input).expect("the input is a value");
    let mut m = Machine::new(heap_words);
    let result = execute(&code, input, &mut m)?;
    m.output.push(snek_print(result, &m.heap_view()));
    Ok((m.output.join("\n"), m.collections))
}

fn run(source: &str, input: &str) -> String {
    match run_with(source, input, 10000) {
        Ok((out, _)) => out,
        Err(e) => panic!("the program stopped: {e}"),
    }
}

fn error(source: &str, input: &str) -> String {
    match run_with(source, input, 10000) {
        Ok((out, _)) => panic!("the program printed {out}"),
        Err(e) => e,
    }
}

#[test]
fn number() {
    assert_eq!(run("37", "false"), "37");
}

#[test]
fn add1() {
    assert_eq!(run("(add1 (add1 (add1 70)))", "false"), "73");
}

#[test]
fn sub1() {
    assert_eq!(run("(sub1 (sub1 0))", "false"), "-2");
}

#[test]
fn add_and_sub() {
    assert_eq!(run("(- (+ 80 2) 10)", "false"), "72");
}

#[test]
fn nested_arith() {
    assert_eq!(run("(* (- 10 5) (+ 2 (add1 2)))", "false"), "25");
}

#[test]
fn let_and_arithmetic() {
    assert_eq!(run("(+ (let ((x 5)) (* x x)) 3)", "false"), "28");
}

#[test]
fn multiple_correct_binds() {
    assert_eq!(run("(let ((x 1) (y 2) (z 3)) (+ x (+ y z)))", "false"), "6");
}

#[test]
fn nested_binds() {
    assert_eq!(run("(let ((x 5)) (let ((y (+ x 1))) (+ x (add1 y))))", "false"), "12");
}

#[test]
fn bind_chain() {
    assert_eq!(run("(let ((x 3) (y (add1 x)) (z (add1 y))) z)", "false"), "5");
}

#[test]
fn shadow_bind() {
    assert_eq!(run("(let ((x 5)) (let ((x (+ x 7))) x))", "false"), "12");
}

#[test]
fn absolute_value_of_input() {
    let source = "(if (< input 0) (- 0 input) input)";
    assert_eq!(run(source, "-7"), "7");
    assert_eq!(run(source, "7"), "7");
    assert_eq!(run(source, "0"), "0");
}

#[test]
fn input_compare_1() {
    assert_eq!(run("(> input 5)", "2"), "false");
}

#[test]
fn input_compare_2() {
    assert_eq!(run("(> input 5)", "10"), "true");
}

#[test]
fn input_compare_3() {
    assert!(error("(> input 5)", "true").contains("invalid argument"));
}

#[test]
fn comparisons() {
    assert_eq!(run("(< 1 2)", "false"), "true");
    assert_eq!(run("(< 2 1)", "false"), "false");
    assert_eq!(run("(<= 2 2)", "false"), "true");
    assert_eq!(run("(>= 1 2)", "false"), "false");
    assert_eq!(run("(>= -1 -2)", "false"), "true");
    assert_eq!(run("(= 3 3)", "false"), "true");
    assert_eq!(run("(= 1 2)", "false"), "false");
    assert_eq!(run("(= true false)", "false"), "false");
    assert_eq!(run("(= nil nil)", "false"), "true");
}

#[test]
fn kinds() {
    assert_eq!(run("(isnum 5)", "false"), "true");
    assert_eq!(run("(isnum 1)", "false"), "true");
    assert_eq!(run("(isnum true)", "false"), "false");
    assert_eq!(run("(isnum nil)", "false"), "false");
    assert_eq!(run("(isnum (tuple 1))", "false"), "false");
    assert_eq!(run("(isbool false)", "false"), "true");
    assert_eq!(run("(isbool input)", "true"), "true");
    assert_eq!(run("(isbool 3)", "false"), "false");
    assert_eq!(run("(isbool nil)", "false"), "false");
    assert_eq!(run("(isbool (tuple 1))", "false"), "false");
}

#[test]
fn nested_ifs_and_loops_have_labels_of_their_own() {
    let source = "(if (if (< input 0) false true) (if (= input 0) 10 (loop (break (if (> input 5) 20 30)))) (if (= input -1) 40 (tuple (if true 50 60) (loop (break 70)))))";
    assert_eq!(run(source, "0"), "10");
    assert_eq!(run(source, "3"), "30");
    assert_eq!(run(source, "9"), "20");
    assert_eq!(run(source, "-1"), "40");
    assert_eq!(run(source, "-2"), "(tuple 50 70)");
    // every label is defined once
    let p = parse_program(&source.to_string()).unwrap();
    let code = code_of(&p);
    let mut names: Vec<&String> = code
        .iter()
        .filter_map(|i| match i {
            Instr::ILabel(l) => Some(l),
            _ => None,
        })
        .collect();
    let defined = names.len();
    names.sort();
    names.dedup();
    assert_eq!(names.len(), defined);
    assert_eq!(defined, 17 + 1 + 7);
}

#[test]
fn print_then_result() {
    assert_eq!(run("(block (print true) (print 42))", "false"), "true\n42\n42");
}

#[test]
fn print_default() {
    assert_eq!(run("(print input)", "false"), "false\nfalse");
}

#[test]
fn print_number() {
    assert_eq!(run("(print input)", "-5"), "-5\n-5");
}

#[test]
fn let_and_set() {
    assert_eq!(run("(let ((x 5)) (block (set! x (add1 x)) x))", "false"), "6");
}

#[test]
fn big_loop() {
    let source = "(let ((i 0) (acc 0)) (loop (if (= i 4) (break acc) (block (set! acc (- acc i)) (set! i (add1 i))))))";
    assert_eq!(run(source, "false"), "-6");
}

#[test]
fn input_factorial_7() {
    let source = "(let ((i 1) (acc 1)) (loop (if (> i input) (break acc) (block (set! acc (* acc i)) (set! i (+ i 1))))))";
    assert_eq!(run(source, "7"), "5040");
    assert_eq!(run(source, "2"), "2");
}

#[test]
fn fact_recursive() {
    let source = "(fun (fact n) (if (= n 0) 1 (* n (fact (sub1 n))))) (fact input)";
    assert_eq!(run(source, "10"), "3628800");
    assert_eq!(run(source, "3"), "6");
    assert_eq!(run(source, "15"), "1307674368000");
    assert_eq!(run(source, "1"), "1");
}

#[test]
fn fact_invalid() {
    let source = "(fun (fact n) (if (= n 0) 1 (* n (fact (sub1 n))))) (fact input)";
    assert!(error(source, "false").contains("invalid argument"));
}

#[test]
fn even_odd() {
    let source = "(fun (even n) (if (= n 0) true (odd (sub1 n)))) (fun (odd n) (if (= n 0) false (even (sub1 n)))) (block (print input) (print (even input)))";
    assert_eq!(run(source, "5"), "5\nfalse\nfalse");
    assert_eq!(run(source, "6"), "6\ntrue\ntrue");
}

#[test]
fn arguments_arrive_in_order() {
    let source = "(fun (f a b c) (- (- a b) c)) (f 10 3 2)";
    assert_eq!(run(source, "false"), "5");
    let source = "(fun (g a b) (block (print a) (print b) (* a b))) (g (print 2) (print 3))";
    assert_eq!(run(source, "false"), "2\n3\n2\n3\n6");
}

#[test]
fn print_in_func() {
    assert_eq!(run("(fun (double x) (print (+ x x))) (double input)", "5"), "10\n10");
}

#[test]
fn big_mul() {
    assert_eq!(run("(* 2305843009213693952 -2)", "false"), "-4611686018427387904");
}

#[test]
fn mul_overflow() {
    assert_eq!(error("(* 2305843009213693952 2)", "false"), "overflow");
}

#[test]
fn add1_overflow() {
    assert_eq!(error("(add1 4611686018427387903)", "false"), "overflow");
}

#[test]
fn sub_overflow() {
    assert_eq!(error("(sub1 -4611686018427387904)", "false"), "overflow");
    assert_eq!(error("(- -4611686018427387904 1)", "false"), "overflow");
    assert_eq!(error("(+ 4611686018427387903 1)", "false"), "overflow");
}

#[test]
fn add1_boolean() {
    assert!(error("(add1 true)", "false").contains("invalid argument"));
}

#[test]
fn invalid_argument() {
    assert!(error("(+ 1 nil)", "false").contains("invalid argument"));
    assert!(error("(- (tuple 1) 1)", "false").contains("invalid argument"));
    assert!(error("(< true 1)", "false").contains("invalid argument"));
}

#[test]
fn bad_equal() {
    assert!(error("(= 1 true)", "false").contains("invalid argument"));
    assert!(error("(= true 1)", "false").contains("invalid argument"));
    assert!(error("(= true nil)", "false").contains("invalid argument"));
}

#[test]
fn tuple_equal_invalid_arg() {
    assert!(error("(= (tuple 1 2) 1)", "false").contains("invalid argument"));
}

#[test]
fn tuples_are_compared_by_reference() {
    assert_eq!(run("(let ((t (tuple 1 2))) (= t t))", "false"), "true");
    assert_eq!(run("(= (tuple 1 2) (tuple 1 2))", "false"), "false");
    assert_eq!(run("(= (tuple 1 2) nil)", "false"), "false");
}

#[test]
fn points() {
    let source = "(fun (point x y) (tuple x y)) (fun (addpoints p q) (tuple (+ (index p 0) (index q 0)) (+ (index p 1) (index q 1)))) (block (print (point 1 2)) (addpoints (point 3 4) (point 4 5)))";
    assert_eq!(run(source, "false"), "(tuple 1 2)\n(tuple 7 9)");
}

#[test]
fn nested_index() {
    let source = "(let ((t (tuple 1 (tuple 2 3) 4))) (index (index t 1) 0))";
    assert_eq!(run(source, "false"), "2");
}

#[test]
fn tuple_of_size_one_and_with_nil() {
    assert_eq!(run("(tuple 5)", "false"), "(tuple 5)");
    assert_eq!(run("(tuple 5 (tuple 2 nil nil) nil)", "false"), "(tuple 5 (tuple 2 nil nil) nil)");
    assert_eq!(run("(index (tuple 7) 0)", "false"), "7");
    assert_eq!(run("(index (tuple 1 nil) 1)", "false"), "nil");
}

#[test]
fn error_bounds() {
    assert!(error("(index (tuple 1 2) 2)", "false").contains("out of bounds"));
    assert!(error("(index (tuple 1 2) -1)", "false").contains("out of bounds"));
    assert!(error("(index (tuple 1 2) 100)", "false").contains("out of bounds"));
    assert!(error("(let ((t (tuple 0 1 2))) (index t input))", "3").contains("out of bounds"));
    assert_eq!(run("(let ((t (tuple 0 1 2))) (index t input))", "2"), "2");
}

#[test]
fn error_tag() {
    assert!(error("(index 5 0)", "false").contains("invalid argument"));
    assert!(error("(index true 0)", "false").contains("invalid argument"));
    assert!(error("(index (tuple 1) true)", "false").contains("invalid argument"));
}

#[test]
fn nil_dereference() {
    assert_eq!(error("(index nil 0)", "false"), "tuple null pointer exception!");
}

#[test]
fn break_leaves_the_innermost_loop() {
    let source = "(let ((i 0) (n 0)) (loop (if (= i 3) (break n) (block (set! i (add1 i)) (set! n (+ n (loop (break 10))))))))";
    assert_eq!(run(source, "false"), "30");
}

#[test]
fn many_nodes_in_a_small_heap() {
    // Builds 1000 nodes, of which the last three are kept at any time, in a
    // heap of 64 words.
    let source = "(let ((i 0) (a nil) (b nil) (c nil)) (loop (if (= i 1000) (break (tuple c b a)) (block (set! a b) (set! b c) (set! c (tuple i (tuple i nil))) (set! i (add1 i))))))";
    let (out, collections) = run_with(source, "false", 64).expect("the program ends");
    let big = run(source, "false");
    assert_eq!(out, big);
    assert!(collections > 10);
    assert_eq!(
        out,
        "(tuple (tuple 999 (tuple 999 nil)) (tuple 998 (tuple 998 nil)) (tuple 997 (tuple 997 nil)))"
    );
}

#[test]
fn a_list_survives_collections() {
    // A list of 12 nodes is kept while 500 tuples of garbage are made.
    let source = "(let ((i 0) (list nil) (j 0) (junk nil)) (block (loop (if (= i 12) (break 0) (block (set! list (tuple i list)) (set! i (add1 i))))) (loop (if (= j 500) (break 0) (block (set! junk (tuple j j j)) (set! j (add1 j))))) list))";
    let (out, collections) = run_with(source, "false", 64).expect("the program ends");
    assert_eq!(out, run(source, "false"));
    assert!(collections > 10);
    assert_eq!(out, "(tuple 11 (tuple 10 (tuple 9 (tuple 8 (tuple 7 (tuple 6 (tuple 5 (tuple 4 (tuple 3 (tuple 2 (tuple 1 (tuple 0 nil))))))))))))");
}

#[test]
fn collections_inside_calls() {
    // The tuples are made and dropped inside a function that is called in
    // a loop, so that collections find frames, saved frame pointers and
    // return addresses on the stack.
    let source = "(fun (pair a b) (tuple a (tuple b nil))) (fun (second p) (index (index p 1) 0)) (let ((i 0) (sum 0) (keep (tuple 1 2 3))) (loop (if (= i 300) (break (tuple sum keep)) (block (set! sum (+ sum (second (pair i (* 2 i))))) (set! i (add1 i))))))";
    let (out, collections) = run_with(source, "false", 48).expect("the program ends");
    assert_eq!(out, "(tuple 89700 (tuple 1 2 3))");
    assert!(collections > 10);
}

#[test]
fn out_of_memory() {
    let source = "(let ((i 0) (list nil)) (loop (if (= i 1000) (break list) (block (set! list (tuple i list)) (set! i (add1 i))))))";
    assert_eq!(run_with(source, "false", 64), Err("out of memory".to_string()));
}

#[test]
fn a_tuple_that_fills_the_heap() {
    assert_eq!(run_with("(tuple 1 2)", "false", 4).map(|r| r.0), Ok("(tuple 1 2)".to_string()));
    assert_eq!(run_with("(tuple 1 2)", "false", 3), Err("out of memory".to_string()));
}
