//! What the operators of the language do to values, and that the emitted
//! code of an expression made of literals and operators does the same: it
//! leaves in `RAX` the value that the operators give, or jumps to the label
//! of the error that they raise.

use vstd::prelude::*;
use crate::ast::{Definition, ExprView, Op1, Op2};
use crate::codegen::{emit, labels};
use crate::correctness::lemma_check_number;
use crate::instr::{InstrView, Reg, ValView};
use crate::machine::{
    arithmetic, conditional_move, fetch, in_word, lemma_run_concat, lemma_wrap, run, run_from,
    step, store, Outcome, State,
};
use crate::shapes::{
    binop_code, both_numbers, compare_code, equal_code, imm, kind_of, label, reg, slot, spill,
    truth_of, type_check, unop_code, Type,
};
use crate::value::{encode, representable, FALSE_VAL, NIL_VAL, TRUE_VAL};

verus! {

/// What an expression gives: a word, or the label of the error that stops
/// the program.
pub enum Answer {
    Word(int),
    Error(Seq<char>),
}

/// The kind of a word: 0 for a number, 1 for a tuple or `nil`, 3 for a
/// boolean.
pub open spec fn kind(v: int) -> int {
    (v % 4) * (v % 2)
}

/// The word of a truth value.
pub open spec fn truth(b: bool) -> int {
    if b {
        TRUE_VAL as int
    } else {
        FALSE_VAL as int
    }
}

/// A word where it fits in a word of the machine, and else the overflow
/// error.
pub open spec fn fitting(v: int) -> Answer {
    if in_word(v) {
        Answer::Word(v)
    } else {
        Answer::Error("overflow_err"@)
    }
}

/// What a unary operator other than `print` gives of the word `v`.
pub open spec fn apply1(op: Op1, v: int) -> Answer {
    match op {
        Op1::Add1 => if v % 2 != 0 {
            Answer::Error("not_num_err"@)
        } else {
            fitting(v + 2)
        },
        Op1::Sub1 => if v % 2 != 0 {
            Answer::Error("not_num_err"@)
        } else {
            fitting(v - 2)
        },
        Op1::IsNum => Answer::Word(truth(v % 2 == 0)),
        Op1::IsBool => Answer::Word(truth(v % 4 == 3)),
        Op1::Print => Answer::Word(v),
    }
}

/// What an arithmetic operator or a comparison gives of the words `x` and
/// `y` of two numbers.
pub open spec fn apply_numbers(op: Op2, x: int, y: int) -> Answer {
    match op {
        Op2::Plus => fitting(x + y),
        Op2::Minus => fitting(x - y),
        Op2::Times => fitting((y / 2) * x),
        Op2::Less => Answer::Word(truth(x < y)),
        Op2::LessOrEqual => Answer::Word(truth(x <= y)),
        Op2::Greater => Answer::Word(truth(x > y)),
        Op2::GreaterOrEqual => Answer::Word(truth(x >= y)),
        _ => Answer::Word(0),
    }
}

/// What a binary operator other than `index` gives of the words `x`, of
/// its left operand, and `y`, of its right one. Arithmetic and comparisons
/// ask for two numbers, and look at the right operand first; `=` asks for
/// two values of one kind.
pub open spec fn apply2(op: Op2, x: int, y: int) -> Answer {
    if op == Op2::Equal {
        if kind(x) != kind(y) {
            Answer::Error("invalid_arg_err"@)
        } else {
            Answer::Word(truth(x == y))
        }
    } else if y % 2 != 0 || x % 2 != 0 {
        Answer::Error("not_num_err"@)
    } else {
        apply_numbers(op, x, y)
    }
}

/// Whether an expression is made of literals, `nil` and operators other
/// than `print` and `index` alone.
pub open spec fn is_simple(e: ExprView) -> bool
    decreases e,
{
    match e {
        ExprView::Number(_) => true,
        ExprView::Boolean(_) => true,
        ExprView::Id(x) => x == "nil"@,
        ExprView::UnOp(op, a) => op != Op1::Print && is_simple(*a),
        ExprView::BinOp(op, a, b) => op != Op2::Index && is_simple(*a) && is_simple(*b),
        _ => false,
    }
}

/// What a simple expression gives: its parts are evaluated left to right,
/// and the first error among them is the error of the whole.
pub open spec fn answer(e: ExprView) -> Answer
    decreases e,
{
    match e {
        ExprView::Number(n) => Answer::Word(encode(n as int)),
        ExprView::Boolean(b) => Answer::Word(truth(b)),
        ExprView::UnOp(op, a) => match answer(*a) {
            Answer::Word(v) => apply1(op, v),
            error => error,
        },
        ExprView::BinOp(op, a, b) => match answer(*a) {
            Answer::Word(x) => match answer(*b) {
                Answer::Word(y) => apply2(op, x, y),
                error => error,
            },
            error => error,
        },
        _ => Answer::Word(NIL_VAL as int),
    }
}

/// Whether `t` holds `v` in `RAX` and differs from `s` in the registers
/// `RAX`, `RBX`, `RCX` and `RDX` and in the flags at most.
pub open spec fn given(s: State, t: State, v: int) -> bool {
    &&& (t.regs)(Reg::RAX) == v
    &&& forall|r: Reg|
        r != Reg::RAX && r != Reg::RBX && r != Reg::RCX && r != Reg::RDX ==> #[trigger] (t.regs)(r)
            == (s.regs)(r)
    &&& forall|a: int| #[trigger] (t.mem)(a) == (s.mem)(a)
    &&& t.printed == s.printed
    &&& t.unknown == s.unknown
}

/// Whether `t` is what the code of an expression that is compiled from slot
/// `si` on leaves of `s`: the word `v` in `RAX`, the registers but `RAX`,
/// `RBX`, `RCX` and `RDX` as they were, and the memory above slot `si` as it
/// was.
pub open spec fn left(s: State, t: State, si: int, v: int) -> bool {
    &&& (t.regs)(Reg::RAX) == v
    &&& forall|r: Reg|
        r != Reg::RAX && r != Reg::RBX && r != Reg::RCX && r != Reg::RDX ==> #[trigger] (t.regs)(r)
            == (s.regs)(r)
    &&& forall|a: int| a > (s.regs)(Reg::RBP) - 8 * si ==> #[trigger] (t.mem)(a) == (s.mem)(a)
    &&& t.printed == s.printed
    &&& t.unknown == s.unknown
}

/// What the run of a piece of code gives, against what an operator gives.
pub open spec fn gives(s: State, t: Outcome, expected: Answer) -> bool {
    match expected {
        Answer::Word(v) => t matches Outcome::Next(u) && given(s, u, v),
        Answer::Error(l) => t == Outcome::Trapped(l),
    }
}

/// Whether a conditional move of `RBX` into `RAX` is made for the
/// comparison of `x` with `y`.
pub open spec fn picked(pick: InstrView, x: int, y: int) -> bool {
    match pick {
        InstrView::ICMovE(_, _) => x == y,
        InstrView::ICMovL(_, _) => x < y,
        InstrView::ICMovG(_, _) => x > y,
        InstrView::ICMovGE(_, _) => x >= y,
        InstrView::ICMovLE(_, _) => x <= y,
        _ => false,
    }
}

/// Whether an instruction is a conditional move of `RBX` into `RAX`.
pub open spec fn is_pick(pick: InstrView) -> bool {
    pick == InstrView::ICMovE(reg(Reg::RAX), reg(Reg::RBX)) || pick == InstrView::ICMovL(
        reg(Reg::RAX),
        reg(Reg::RBX),
    ) || pick == InstrView::ICMovG(reg(Reg::RAX), reg(Reg::RBX)) || pick == InstrView::ICMovGE(
        reg(Reg::RAX),
        reg(Reg::RBX),
    ) || pick == InstrView::ICMovLE(reg(Reg::RAX), reg(Reg::RBX))
}

/// The code that turns the flags of a comparison into a truth value leaves
/// the truth of the comparison in `RAX`.
pub proof fn lemma_truth_runs(pick: InstrView, s: State)
    requires
        is_pick(pick),
    ensures
        gives(s, run(truth_of(pick), s), Answer::Word(truth(picked(pick, s.left, s.right)))),
{
    let code = truth_of(pick);
    assert(code.len() == 3);
    let s1 = store(s, reg(Reg::RAX), FALSE_VAL as int);
    assert(step(code[0], s) == Outcome::Next(s1));
    assert(run_from(code, 0, s) == run_from(code, 1, s1));
    let s2 = store(s1, reg(Reg::RBX), TRUE_VAL as int);
    assert(step(code[1], s1) == Outcome::Next(s2));
    assert(run_from(code, 1, s1) == run_from(code, 2, s2));
    let s3 = conditional_move(
        picked(pick, s.left, s.right),
        s2,
        reg(Reg::RAX),
        reg(Reg::RBX),
    );
    assert(step(code[2], s2) == Outcome::Next(s3));
    assert(run_from(code, 2, s2) == run_from(code, 3, s3));
    assert(run_from(code, 3, s3) == Outcome::Next(s3));
}

/// What the code of `add1` and of `sub1` does to the word in `RAX`.
proof fn lemma_increment_runs(op: Op1, s: State)
    requires
        op == Op1::Add1 || op == Op1::Sub1,
        in_word((s.regs)(Reg::RAX)),
    ensures
        gives(s, run(unop_code(op), s), apply1(op, (s.regs)(Reg::RAX))),
{
    let v = (s.regs)(Reg::RAX);
    let check = type_check(reg(Reg::RAX), Type::Number);
    let rest = if op == Op1::Add1 {
        seq![InstrView::IAdd(reg(Reg::RAX), imm(2)), InstrView::IJo(label("overflow_err"@))]
    } else {
        seq![InstrView::ISub(reg(Reg::RAX), imm(2)), InstrView::IJo(label("overflow_err"@))]
    };
    assert(unop_code(op) == check + rest);
    lemma_run_concat(check, rest, s);
    lemma_check_number(reg(Reg::RAX), s);
    if v % 2 == 0 {
        let t = run(check, s)->Next_0;
        lemma_increment_tail(op, t, rest);
    }
}

/// What the addition or subtraction of the word of 1 does, with the jump
/// after it.
proof fn lemma_increment_tail(op: Op1, t: State, rest: Seq<InstrView>)
    requires
        op == Op1::Add1 || op == Op1::Sub1,
        in_word((t.regs)(Reg::RAX)),
        rest == if op == Op1::Add1 {
            seq![InstrView::IAdd(reg(Reg::RAX), imm(2)), InstrView::IJo(label("overflow_err"@))]
        } else {
            seq![InstrView::ISub(reg(Reg::RAX), imm(2)), InstrView::IJo(label("overflow_err"@))]
        },
    ensures
        gives(
            t,
            run(rest, t),
            fitting(
                if op == Op1::Add1 {
                    (t.regs)(Reg::RAX) + 2
                } else {
                    (t.regs)(Reg::RAX) - 2
                },
            ),
        ),
{
    let v = (t.regs)(Reg::RAX);
    let w = if op == Op1::Add1 {
        v + 2
    } else {
        v - 2
    };
    lemma_wrap(w);
    assert(rest.len() == 2);
    let t1 = arithmetic(t, reg(Reg::RAX), w);
    assert(step(rest[0], t) == Outcome::Next(t1));
    assert(run_from(rest, 0, t) == run_from(rest, 1, t1));
    if in_word(w) {
        assert(step(rest[1], t1) == Outcome::Next(t1));
        assert(run_from(rest, 1, t1) == run_from(rest, 2, t1));
        assert(run_from(rest, 2, t1) == Outcome::Next(t1));
    } else {
        assert(step(rest[1], t1) == Outcome::Trapped("overflow_err"@));
    }
}

/// What the code of `isnum` and of `isbool` does to the word in `RAX`.
proof fn lemma_test_runs(op: Op1, s: State)
    requires
        op == Op1::IsNum || op == Op1::IsBool,
    ensures
        gives(s, run(unop_code(op), s), apply1(op, (s.regs)(Reg::RAX))),
{
    let v = (s.regs)(Reg::RAX);
    let pick = InstrView::ICMovE(reg(Reg::RAX), reg(Reg::RBX));
    let test = if op == Op1::IsNum {
        seq![InstrView::IAnd(reg(Reg::RAX), imm(1)), InstrView::ICmp(reg(Reg::RAX), imm(0))]
    } else {
        seq![InstrView::IAnd(reg(Reg::RAX), imm(3)), InstrView::ICmp(reg(Reg::RAX), imm(3))]
    };
    assert(unop_code(op) == test + truth_of(pick));
    lemma_run_concat(test, truth_of(pick), s);
    assert(test.len() == 2);
    let masked = if op == Op1::IsNum {
        v % 2
    } else {
        v % 4
    };
    let s1 = State { overflow: false, ..store(s, reg(Reg::RAX), masked) };
    assert(step(test[0], s) == Outcome::Next(s1));
    assert(run_from(test, 0, s) == run_from(test, 1, s1));
    let s2 = State {
        left: masked,
        right: if op == Op1::IsNum {
            0
        } else {
            3
        },
        ..s1
    };
    assert(step(test[1], s1) == Outcome::Next(s2));
    assert(run_from(test, 1, s1) == run_from(test, 2, s2));
    assert(run_from(test, 2, s2) == Outcome::Next(s2));
    lemma_truth_runs(pick, s2);
}

/// What the code of a unary operator does to the word in `RAX`.
pub proof fn lemma_apply1_runs(op: Op1, s: State)
    requires
        op != Op1::Print,
        in_word((s.regs)(Reg::RAX)),
    ensures
        gives(s, run(unop_code(op), s), apply1(op, (s.regs)(Reg::RAX))),
{
    if op == Op1::Add1 || op == Op1::Sub1 {
        lemma_increment_runs(op, s);
    } else {
        lemma_test_runs(op, s);
    }
}

/// The checks before an arithmetic operator or a comparison let the words
/// of two numbers pass, the right one looked at first, and change `RBX` and
/// the flags only.
pub proof fn lemma_numbers_checked(si: int, s: State)
    ensures
        match run(both_numbers(si), s) {
            Outcome::Next(t) => fetch(s, slot(si)) % 2 == 0 && (s.regs)(Reg::RAX) % 2 == 0 && given(
                s,
                t,
                (s.regs)(Reg::RAX),
            ) && (t.regs)(Reg::RCX) == (s.regs)(Reg::RCX) && (t.regs)(Reg::RDX) == (s.regs)(
                Reg::RDX,
            ),
            Outcome::Trapped(l) => l == "not_num_err"@ && (fetch(s, slot(si)) % 2 != 0 || (s.regs)(
                Reg::RAX,
            ) % 2 != 0),
            Outcome::Jumped(_, _) => false,
            Outcome::Stuck => false,
        },
{
    let first = type_check(reg(Reg::RAX), Type::Number);
    let second = type_check(slot(si), Type::Number);
    lemma_run_concat(first, second, s);
    lemma_check_number(reg(Reg::RAX), s);
    if (s.regs)(Reg::RAX) % 2 == 0 {
        let t1 = run(first, s)->Next_0;
        assert(fetch(t1, slot(si)) == fetch(s, slot(si)));
        lemma_check_number(slot(si), t1);
    }
}

/// The instructions of an arithmetic operator or of a comparison after its
/// checks.
pub open spec fn numbers_code(op: Op2, si: int) -> Seq<InstrView> {
    match op {
        Op2::Plus => seq![
            InstrView::IAdd(reg(Reg::RAX), slot(si)),
            InstrView::IJo(label("overflow_err"@)),
        ],
        Op2::Minus => seq![
            InstrView::ISub(slot(si), reg(Reg::RAX)),
            InstrView::IJo(label("overflow_err"@)),
            InstrView::IMov(reg(Reg::RAX), slot(si)),
        ],
        Op2::Times => seq![
            InstrView::ISar(reg(Reg::RAX), imm(1)),
            InstrView::IMul(reg(Reg::RAX), slot(si)),
            InstrView::IJo(label("overflow_err"@)),
        ],
        Op2::Less => seq![InstrView::ICmp(slot(si), reg(Reg::RAX))] + truth_of(
            InstrView::ICMovL(reg(Reg::RAX), reg(Reg::RBX)),
        ),
        Op2::LessOrEqual => seq![InstrView::ICmp(slot(si), reg(Reg::RAX))] + truth_of(
            InstrView::ICMovLE(reg(Reg::RAX), reg(Reg::RBX)),
        ),
        Op2::Greater => seq![InstrView::ICmp(slot(si), reg(Reg::RAX))] + truth_of(
            InstrView::ICMovG(reg(Reg::RAX), reg(Reg::RBX)),
        ),
        Op2::GreaterOrEqual => seq![InstrView::ICmp(slot(si), reg(Reg::RAX))] + truth_of(
            InstrView::ICMovGE(reg(Reg::RAX), reg(Reg::RBX)),
        ),
        _ => Seq::empty(),
    }
}

/// Whether `t` is what an operator leaves of `s`, with its left operand in
/// slot `si`: as `left`, or a jump to the label of an error.
pub open spec fn leaves(s: State, t: Outcome, si: int, expected: Answer) -> bool {
    match expected {
        Answer::Word(v) => t matches Outcome::Next(u) && left(s, u, si, v),
        Answer::Error(l) => t == Outcome::Trapped(l),
    }
}

/// What the instructions of `+` do to the words of two numbers.
proof fn lemma_plus_runs(si: int, s: State, x: int, y: int)
    requires
        (s.mem)((s.regs)(Reg::RBP) - 8 * si) == x,
        (s.regs)(Reg::RAX) == y,
    ensures
        leaves(s, run(numbers_code(Op2::Plus, si), s), si, fitting(x + y)),
{
    let code = numbers_code(Op2::Plus, si);
    assert(code.len() == 2);
    lemma_wrap(y + x);
    let s1 = arithmetic(s, reg(Reg::RAX), y + x);
    assert(step(code[0], s) == Outcome::Next(s1));
    assert(run_from(code, 0, s) == run_from(code, 1, s1));
    if in_word(x + y) {
        assert(step(code[1], s1) == Outcome::Next(s1));
        assert(run_from(code, 1, s1) == run_from(code, 2, s1));
        assert(run_from(code, 2, s1) == Outcome::Next(s1));
    } else {
        assert(step(code[1], s1) == Outcome::Trapped("overflow_err"@));
    }
}

/// What the instructions of `-` do to the words of two numbers.
proof fn lemma_minus_runs(si: int, s: State, x: int, y: int)
    requires
        (s.mem)((s.regs)(Reg::RBP) - 8 * si) == x,
        (s.regs)(Reg::RAX) == y,
    ensures
        leaves(s, run(numbers_code(Op2::Minus, si), s), si, fitting(x - y)),
{
    let code = numbers_code(Op2::Minus, si);
    assert(code.len() == 3);
    lemma_wrap(x - y);
    let s1 = arithmetic(s, slot(si), x - y);
    assert(step(code[0], s) == Outcome::Next(s1));
    assert(run_from(code, 0, s) == run_from(code, 1, s1));
    if in_word(x - y) {
        assert(step(code[1], s1) == Outcome::Next(s1));
        assert(run_from(code, 1, s1) == run_from(code, 2, s1));
        let s2 = store(s1, reg(Reg::RAX), fetch(s1, slot(si)));
        assert(step(code[2], s1) == Outcome::Next(s2));
        assert(run_from(code, 2, s1) == run_from(code, 3, s2));
        assert(run_from(code, 3, s2) == Outcome::Next(s2));
    } else {
        assert(step(code[1], s1) == Outcome::Trapped("overflow_err"@));
    }
}

/// What the instructions of `*` do to the words of two numbers: the right
/// one is halved, so that the product is the word of the product.
proof fn lemma_times_runs(si: int, s: State, x: int, y: int, product: int)
    requires
        (s.mem)((s.regs)(Reg::RBP) - 8 * si) == x,
        (s.regs)(Reg::RAX) == y,
        product == (y / 2) * x,
    ensures
        leaves(s, run(numbers_code(Op2::Times, si), s), si, fitting(product)),
{
    let code = numbers_code(Op2::Times, si);
    assert(code.len() == 3);
    lemma_wrap(product);
    let s1 = store(s, reg(Reg::RAX), y / 2);
    assert(step(code[0], s) == Outcome::Next(s1));
    assert(run_from(code, 0, s) == run_from(code, 1, s1));
    let s2 = arithmetic(s1, reg(Reg::RAX), product);
    assert(step(code[1], s1) == Outcome::Next(s2));
    assert(run_from(code, 1, s1) == run_from(code, 2, s2));
    if in_word(product) {
        assert(step(code[2], s2) == Outcome::Next(s2));
        assert(run_from(code, 2, s2) == run_from(code, 3, s2));
        assert(run_from(code, 3, s2) == Outcome::Next(s2));
    } else {
        assert(step(code[2], s2) == Outcome::Trapped("overflow_err"@));
    }
}

/// What the instructions of an arithmetic operator do to the words of two
/// numbers.
proof fn lemma_arithmetic_runs(op: Op2, si: int, s: State, x: int, y: int)
    requires
        op == Op2::Plus || op == Op2::Minus || op == Op2::Times,
        (s.mem)((s.regs)(Reg::RBP) - 8 * si) == x,
        (s.regs)(Reg::RAX) == y,
    ensures
        leaves(s, run(numbers_code(op, si), s), si, apply_numbers(op, x, y)),
{
    if op == Op2::Plus {
        lemma_plus_runs(si, s, x, y);
    } else if op == Op2::Minus {
        lemma_minus_runs(si, s, x, y);
    } else {
        lemma_times_runs(si, s, x, y, (y / 2) * x);
    }
}

/// What the instructions of a comparison do to the words of two numbers.
proof fn lemma_comparison_runs(op: Op2, si: int, s: State, x: int, y: int)
    requires
        op == Op2::Less || op == Op2::LessOrEqual || op == Op2::Greater || op
            == Op2::GreaterOrEqual,
        (s.mem)((s.regs)(Reg::RBP) - 8 * si) == x,
        (s.regs)(Reg::RAX) == y,
    ensures
        leaves(s, run(numbers_code(op, si), s), si, apply_numbers(op, x, y)),
{
    let pick = if op == Op2::Less {
        InstrView::ICMovL(reg(Reg::RAX), reg(Reg::RBX))
    } else if op == Op2::LessOrEqual {
        InstrView::ICMovLE(reg(Reg::RAX), reg(Reg::RBX))
    } else if op == Op2::Greater {
        InstrView::ICMovG(reg(Reg::RAX), reg(Reg::RBX))
    } else {
        InstrView::ICMovGE(reg(Reg::RAX), reg(Reg::RBX))
    };
    let test = seq![InstrView::ICmp(slot(si), reg(Reg::RAX))];
    assert(numbers_code(op, si) == test + truth_of(pick));
    lemma_run_concat(test, truth_of(pick), s);
    assert(test.len() == 1);
    let s1 = State { left: x, right: y, ..s };
    assert(step(test[0], s) == Outcome::Next(s1));
    assert(run_from(test, 0, s) == run_from(test, 1, s1));
    assert(run_from(test, 1, s1) == Outcome::Next(s1));
    lemma_truth_runs(pick, s1);
}

/// The code that computes the kind of a value leaves it in `out`, and
/// changes `out`, `tmp` and the flags only.
proof fn lemma_kind_runs(v: ValView, out: Reg, tmp: Reg, s: State)
    requires
        v == reg(Reg::RAX) || exists|k: int| v == slot(k),
        (out == Reg::RBX && tmp == Reg::RCX) || (out == Reg::RCX && tmp == Reg::RDX),
    ensures
        run(kind_of(v, out, tmp), s) is Next,
        (run(kind_of(v, out, tmp), s)->Next_0.regs)(out) == kind(fetch(s, v)),
        forall|r: Reg|
            r != out && r != tmp ==> #[trigger] (run(kind_of(v, out, tmp), s)->Next_0.regs)(r) == (
            s.regs)(r),
        forall|a: int| #[trigger] (run(kind_of(v, out, tmp), s)->Next_0.mem)(a) == (s.mem)(a),
        run(kind_of(v, out, tmp), s)->Next_0.printed == s.printed,
        run(kind_of(v, out, tmp), s)->Next_0.unknown == s.unknown,
{
    let code = kind_of(v, out, tmp);
    let w = fetch(s, v);
    assert(code.len() == 5);
    let a = w % 4;
    let b = w % 2;
    assert(0 <= a * b <= 3) by (nonlinear_arith)
        requires
            0 <= a <= 3,
            0 <= b <= 1,
    ;
    lemma_wrap(kind(w));
    let s1 = store(s, reg(out), w);
    assert(step(code[0], s) == Outcome::Next(s1));
    assert(run_from(code, 0, s) == run_from(code, 1, s1));
    let s2 = State { overflow: false, ..store(s1, reg(out), w % 4) };
    assert(step(code[1], s1) == Outcome::Next(s2));
    assert(run_from(code, 1, s1) == run_from(code, 2, s2));
    assert(fetch(s2, v) == w);
    let s3 = store(s2, reg(tmp), w);
    assert(step(code[2], s2) == Outcome::Next(s3));
    assert(run_from(code, 2, s2) == run_from(code, 3, s3));
    let s4 = State { overflow: false, ..store(s3, reg(tmp), w % 2) };
    assert(step(code[3], s3) == Outcome::Next(s4));
    assert(run_from(code, 3, s3) == run_from(code, 4, s4));
    let s5 = arithmetic(s4, reg(out), (w % 4) * (w % 2));
    assert(step(code[4], s4) == Outcome::Next(s5));
    assert(run_from(code, 4, s4) == run_from(code, 5, s5));
    assert(run_from(code, 5, s5) == Outcome::Next(s5));
}

/// What the code of `=` does to two words.
proof fn lemma_equal_runs(si: int, s: State, x: int, y: int)
    requires
        (s.mem)((s.regs)(Reg::RBP) - 8 * si) == x,
        (s.regs)(Reg::RAX) == y,
    ensures
        leaves(s, run(equal_code(si), s), si, apply2(Op2::Equal, x, y)),
{
    let first = kind_of(reg(Reg::RAX), Reg::RBX, Reg::RCX);
    let second = kind_of(slot(si), Reg::RCX, Reg::RDX);
    let test = seq![
        InstrView::ICmp(reg(Reg::RBX), reg(Reg::RCX)),
        InstrView::IJne(label("invalid_arg_err"@)),
        InstrView::ICmp(reg(Reg::RAX), slot(si)),
    ];
    let pick = InstrView::ICMovE(reg(Reg::RAX), reg(Reg::RBX));
    assert(equal_code(si) == first + second + test + truth_of(pick));
    lemma_run_concat(first + second + test, truth_of(pick), s);
    lemma_run_concat(first + second, test, s);
    lemma_run_concat(first, second, s);
    lemma_kind_runs(reg(Reg::RAX), Reg::RBX, Reg::RCX, s);
    let t1 = run(first, s)->Next_0;
    assert(fetch(t1, slot(si)) == x);
    lemma_kind_runs(slot(si), Reg::RCX, Reg::RDX, t1);
    let t2 = run(second, t1)->Next_0;
    assert(test.len() == 3);
    let t3 = State { left: kind(y), right: kind(x), ..t2 };
    assert(step(test[0], t2) == Outcome::Next(t3));
    assert(run_from(test, 0, t2) == run_from(test, 1, t3));
    if kind(x) != kind(y) {
        assert(step(test[1], t3) == Outcome::Trapped("invalid_arg_err"@));
    } else {
        assert(step(test[1], t3) == Outcome::Next(t3));
        assert(run_from(test, 1, t3) == run_from(test, 2, t3));
        let t4 = State { left: y, right: x, ..t3 };
        assert(step(test[2], t3) == Outcome::Next(t4));
        assert(run_from(test, 2, t3) == run_from(test, 3, t4));
        assert(run_from(test, 3, t4) == Outcome::Next(t4));
        lemma_truth_runs(pick, t4);
    }
}

/// What the code of a binary operator other than `index` does to two
/// words, the left one in slot `si` and the right one in `RAX`.
pub proof fn lemma_apply2_runs(op: Op2, si: int, s: State, x: int, y: int)
    requires
        op != Op2::Index,
        (s.mem)((s.regs)(Reg::RBP) - 8 * si) == x,
        (s.regs)(Reg::RAX) == y,
        in_word(x),
        in_word(y),
    ensures
        leaves(s, run(binop_code(op, si), s), si, apply2(op, x, y)),
{
    if op == Op2::Equal {
        lemma_equal_runs(si, s, x, y);
    } else {
        assert(binop_code(op, si) =~= both_numbers(si) + numbers_code(op, si)) by {
            if op == Op2::Less || op == Op2::LessOrEqual || op == Op2::Greater || op
                == Op2::GreaterOrEqual {
                let pick = if op == Op2::Less {
                    InstrView::ICMovL(reg(Reg::RAX), reg(Reg::RBX))
                } else if op == Op2::LessOrEqual {
                    InstrView::ICMovLE(reg(Reg::RAX), reg(Reg::RBX))
                } else if op == Op2::Greater {
                    InstrView::ICMovG(reg(Reg::RAX), reg(Reg::RBX))
                } else {
                    InstrView::ICMovGE(reg(Reg::RAX), reg(Reg::RBX))
                };
                assert(binop_code(op, si) == compare_code(si, pick));
            }
        }
        lemma_run_concat(both_numbers(si), numbers_code(op, si), s);
        lemma_numbers_checked(si, s);
        if x % 2 == 0 && y % 2 == 0 {
            let t = run(both_numbers(si), s)->Next_0;
            if op == Op2::Plus || op == Op2::Minus || op == Op2::Times {
                lemma_arithmetic_runs(op, si, t, x, y);
            } else {
                lemma_comparison_runs(op, si, t, x, y);
            }
        }
    }
}

/// What the run of the code of a simple expression gives, against what the
/// expression gives.
pub open spec fn runs_as_answered(e: ExprView, code: Seq<InstrView>, si: int, s: State) -> bool {
    match answer(e) {
        Answer::Word(v) => in_word(v) && leaves(s, run(code, s), si, Answer::Word(v)),
        Answer::Error(l) => run(code, s) == Outcome::Trapped(l),
    }
}

/// The code of a simple expression does what the operators of the
/// expression do.
///
/// Run from any state, the code that is emitted from slot `si` on for an
/// expression made of literals and operators leaves in `RAX` the word that
/// the expression gives, and changes neither the memory above slot `si` nor
/// a register but `RAX`, `RBX`, `RCX` and `RDX`; or it jumps to the label of
/// the error that the expression raises.
pub proof fn lemma_simple_is_computed(
    e: ExprView,
    si: int,
    env: Map<Seq<char>, i64>,
    l: int,
    target: Seq<char>,
    defs: Map<Seq<char>, Definition>,
    s: State,
)
    requires
        is_simple(e),
        emit(e, si, env, l, target, defs) is Ok,
    ensures
        runs_as_answered(e, emit(e, si, env, l, target, defs)->Ok_0, si, s),
    decreases e,
{
    let code = emit(e, si, env, l, target, defs)->Ok_0;
    match e {
        ExprView::Number(n) => {
            assert(code.len() == 1);
            let t = store(s, reg(Reg::RAX), encode(n as int));
            assert(step(code[0], s) == Outcome::Next(t));
            assert(run_from(code, 0, s) == run_from(code, 1, t));
            assert(run_from(code, 1, t) == Outcome::Next(t));
        },
        ExprView::Boolean(b) => {
            assert(code.len() == 1);
            let t = store(s, reg(Reg::RAX), truth(b));
            assert(step(code[0], s) == Outcome::Next(t));
            assert(run_from(code, 0, s) == run_from(code, 1, t));
            assert(run_from(code, 1, t) == Outcome::Next(t));
        },
        ExprView::Id(x) => {
            assert(code.len() == 1);
            let t = store(s, reg(Reg::RAX), NIL_VAL as int);
            assert(step(code[0], s) == Outcome::Next(t));
            assert(run_from(code, 0, s) == run_from(code, 1, t));
            assert(run_from(code, 1, t) == Outcome::Next(t));
        },
        ExprView::UnOp(op, a) => {
            let ca = emit(*a, si, env, l, target, defs)->Ok_0;
            assert(code == ca + unop_code(op));
            lemma_simple_is_computed(*a, si, env, l, target, defs, s);
            lemma_run_concat(ca, unop_code(op), s);
            match answer(*a) {
                Answer::Word(v) => {
                    let t = run(ca, s)->Next_0;
                    lemma_apply1_runs(op, t);
                },
                _ => {},
            }
        },
        ExprView::BinOp(op, a, b) => {
            let ca = emit(*a, si, env, l, target, defs)->Ok_0;
            let cb = emit(*b, si + 1, env, l + labels(*a), target, defs)->Ok_0;
            assert(code == (ca + spill(si)) + (cb + binop_code(op, si)));
            lemma_simple_is_computed(*a, si, env, l, target, defs, s);
            lemma_run_concat(ca + spill(si), cb + binop_code(op, si), s);
            lemma_run_concat(ca, spill(si), s);
            match answer(*a) {
                Answer::Word(x) => {
                    let t1 = run(ca, s)->Next_0;
                    let keep = spill(si);
                    assert(keep.len() == 1);
                    let t2 = store(t1, slot(si), x);
                    assert(step(keep[0], t1) == Outcome::Next(t2));
                    assert(run_from(keep, 0, t1) == run_from(keep, 1, t2));
                    assert(run_from(keep, 1, t2) == Outcome::Next(t2));
                    lemma_simple_is_computed(*b, si + 1, env, l + labels(*a), target, defs, t2);
                    lemma_run_concat(cb, binop_code(op, si), t2);
                    match answer(*b) {
                        Answer::Word(y) => {
                            let t3 = run(cb, t2)->Next_0;
                            assert((t3.mem)((t3.regs)(Reg::RBP) - 8 * si) == x);
                            lemma_apply2_runs(op, si, t3, x, y);
                        },
                        _ => {},
                    }
                },
                _ => {},
            }
        },
        _ => {},
    }
}

} // verus!
