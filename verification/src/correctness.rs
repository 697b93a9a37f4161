//! The emitted code of an arithmetic expression computes the value of the
//! expression: run on the machine, it leaves the word of that value in
//! `RAX`, and it jumps to the label of the overflow error exactly where the
//! value of a part of the expression is not representable.

use vstd::prelude::*;
use crate::ast::{Definition, ExprView, Op1, Op2};
use crate::codegen::{emit, labels};
use crate::decimal::int_text;
use crate::heap::HeapView;
use crate::instr::{InstrView, Reg, ValView};
use crate::machine::{
    arithmetic, fetch, in_word, lemma_run_concat, lemma_wrap, run, run_from, step, store, Outcome,
    State,
};
use crate::operators::{answer, is_simple, left, lemma_simple_is_computed, Answer};
use crate::printer::{lemma_number_round_trip, print_value};
use crate::shapes::{imm, index_code, label, reg, slot, type_check, Type};
use crate::value::{encode, representable};

verus! {

/// Whether an expression is made of number literals, `add1`, `sub1`, `+`,
/// `-` and `*` alone.
pub open spec fn is_arithmetic(e: ExprView) -> bool
    decreases e,
{
    match e {
        ExprView::Number(_) => true,
        ExprView::UnOp(op, a) => (op == Op1::Add1 || op == Op1::Sub1) && is_arithmetic(*a),
        ExprView::BinOp(op, a, b) => (op == Op2::Plus || op == Op2::Minus || op == Op2::Times)
            && is_arithmetic(*a) && is_arithmetic(*b),
        _ => false,
    }
}

/// A number where it is representable.
pub open spec fn checked(n: int) -> Option<int> {
    if representable(n) {
        Some(n)
    } else {
        None
    }
}

/// The value of an arithmetic expression in the integers, or `None` where
/// a literal or the value of a part of it is not representable.
pub open spec fn eval(e: ExprView) -> Option<int>
    decreases e,
{
    match e {
        ExprView::Number(n) => checked(n as int),
        ExprView::UnOp(op, a) => match eval(*a) {
            None => None,
            Some(x) => if op == Op1::Add1 {
                checked(x + 1)
            } else if op == Op1::Sub1 {
                checked(x - 1)
            } else {
                None
            },
        },
        ExprView::BinOp(op, a, b) => match eval(*a) {
            None => None,
            Some(x) => match eval(*b) {
                None => None,
                Some(y) => if op == Op2::Plus {
                    checked(x + y)
                } else if op == Op2::Minus {
                    checked(x - y)
                } else if op == Op2::Times {
                    checked(x * y)
                } else {
                    None
                },
            },
        },
        _ => None,
    }
}

/// Whether `t` differs from `s` in the scratch register `RBX`, in the flags
/// and in `RAX` at most, and holds `v` in `RAX`.
pub open spec fn computed(s: State, t: State, v: int) -> bool {
    &&& (t.regs)(Reg::RAX) == v
    &&& forall|r: Reg| r != Reg::RAX && r != Reg::RBX ==> #[trigger] (t.regs)(r) == (s.regs)(r)
    &&& forall|a: int| #[trigger] (t.mem)(a) == (s.mem)(a)
    &&& t.printed == s.printed
    &&& t.unknown == s.unknown
}

/// The check for a number lets the words of numbers pass and stops the run
/// on any other word; it changes `RBX` and the flags only.
pub proof fn lemma_check_number(v: ValView, s: State)
    requires
        v == reg(Reg::RAX) || exists|k: int| v == slot(k),
    ensures
        match run(type_check(v, Type::Number), s) {
            Outcome::Next(t) => fetch(s, v) % 2 == 0 && computed(s, t, (s.regs)(Reg::RAX))
                && fetch(t, v) == fetch(s, v),
            Outcome::Trapped(l) => fetch(s, v) % 2 != 0 && l == "not_num_err"@,
            Outcome::Jumped(_, _) => false,
            Outcome::Stuck => false,
        },
{
    reveal_with_fuel(run_from, 5);
    let code = type_check(v, Type::Number);
    assert(code.len() == 4);
}

/// What a simple expression gives is, for an arithmetic expression, the
/// word of its value, or the overflow error where it has none.
pub proof fn lemma_answer_is_value(
    e: ExprView,
    si: int,
    env: Map<Seq<char>, i64>,
    l: int,
    target: Seq<char>,
    defs: Map<Seq<char>, Definition>,
)
    requires
        is_arithmetic(e),
        emit(e, si, env, l, target, defs) is Ok,
    ensures
        is_simple(e),
        answer(e) == match eval(e) {
            Some(n) => Answer::Word(encode(n)),
            None => Answer::Error("overflow_err"@),
        },
    decreases e,
{
    match e {
        ExprView::UnOp(op, a) => {
            lemma_answer_is_value(*a, si, env, l, target, defs);
        },
        ExprView::BinOp(op, a, b) => {
            lemma_answer_is_value(*a, si, env, l, target, defs);
            lemma_answer_is_value(*b, si + 1, env, l + labels(*a), target, defs);
            match (eval(*a), eval(*b)) {
                (Some(x), Some(y)) => {
                    assert((2 * y) / 2 == y);
                    assert(y * (2 * x) == 2 * (x * y)) by (nonlinear_arith);
                },
                _ => {},
            }
        },
        _ => {},
    }
}

/// What the run of the code of an arithmetic expression gives: the word of
/// the value of the expression where every part of it has a representable
/// value, and a jump to the label of the overflow error where one has not.
pub open spec fn runs_as_evaluated(
    e: ExprView,
    code: Seq<InstrView>,
    si: int,
    s: State,
) -> bool {
    match eval(e) {
        Some(n) => run(code, s) is Next && left(s, run(code, s)->Next_0, si, encode(n)),
        None => run(code, s) == Outcome::Trapped("overflow_err"@),
    }
}

/// The code of an arithmetic expression computes the value of the
/// expression.
///
/// Run from any state, the code that is emitted for an arithmetic
/// expression from slot `si` on leaves the word of the expression's value in
/// `RAX` and changes neither the memory above slot `si` nor a register but
/// `RAX`, `RBX`, `RCX` and `RDX`; and it jumps to the label of the overflow
/// error exactly where the value of a part of the expression is not
/// representable.
pub proof fn lemma_arithmetic_is_computed(
    e: ExprView,
    si: int,
    env: Map<Seq<char>, i64>,
    l: int,
    target: Seq<char>,
    defs: Map<Seq<char>, Definition>,
    s: State,
)
    requires
        is_arithmetic(e),
        emit(e, si, env, l, target, defs) is Ok,
    ensures
        runs_as_evaluated(e, emit(e, si, env, l, target, defs)->Ok_0, si, s),
{
    lemma_answer_is_value(e, si, env, l, target, defs);
    lemma_simple_is_computed(e, si, env, l, target, defs, s);
}

/// The program of an arithmetic expression prints the value of the
/// expression: where every part of the expression has a representable
/// value, the code leaves a word in `RAX` of which the printer writes the
/// decimal text of that value, whatever the heap holds.
pub proof fn lemma_arithmetic_is_printed(
    e: ExprView,
    si: int,
    env: Map<Seq<char>, i64>,
    l: int,
    target: Seq<char>,
    defs: Map<Seq<char>, Definition>,
    s: State,
    h: HeapView,
)
    requires
        is_arithmetic(e),
        eval(e) is Some,
    ensures
        emit(e, si, env, l, target, defs) is Ok,
        run(emit(e, si, env, l, target, defs)->Ok_0, s) is Next,
        in_word((run(emit(e, si, env, l, target, defs)->Ok_0, s)->Next_0.regs)(Reg::RAX)),
        print_value(
            h,
            (run(emit(e, si, env, l, target, defs)->Ok_0, s)->Next_0.regs)(Reg::RAX) as i64,
            Set::empty(),
        ) == int_text(eval(e)->Some_0),
{
    lemma_evaluated_compiles(e, si, env, l, target, defs);
    lemma_arithmetic_is_computed(e, si, env, l, target, defs, s);
    lemma_number_round_trip(h, eval(e)->Some_0, Set::empty());
}

/// An arithmetic expression that has a value compiles.
pub proof fn lemma_evaluated_compiles(
    e: ExprView,
    si: int,
    env: Map<Seq<char>, i64>,
    l: int,
    target: Seq<char>,
    defs: Map<Seq<char>, Definition>,
)
    requires
        is_arithmetic(e),
        eval(e) is Some,
    ensures
        emit(e, si, env, l, target, defs) is Ok,
    decreases e,
{
    match e {
        ExprView::UnOp(op, a) => {
            lemma_evaluated_compiles(*a, si, env, l, target, defs);
        },
        ExprView::BinOp(op, a, b) => {
            lemma_evaluated_compiles(*a, si, env, l, target, defs);
            lemma_evaluated_compiles(*b, si + 1, env, l + labels(*a), target, defs);
        },
        _ => {},
    }
}

/// The check for a tuple lets references and `nil` pass and jumps to the
/// label of its error on any other word; it changes `RBX` and the flags
/// only.
pub proof fn lemma_check_tuple(v: ValView, s: State)
    requires
        v == reg(Reg::RAX) || exists|k: int| v == slot(k),
    ensures
        match run(type_check(v, Type::Tuple), s) {
            Outcome::Next(t) => fetch(s, v) % 4 == 1 && computed(s, t, (s.regs)(Reg::RAX))
                && fetch(t, v) == fetch(s, v),
            Outcome::Trapped(l) => fetch(s, v) % 4 != 1 && l == "not_tuple_err"@,
            Outcome::Jumped(_, _) => false,
            Outcome::Stuck => false,
        },
{
    reveal_with_fuel(run_from, 5);
    let code = type_check(v, Type::Tuple);
    assert(code.len() == 4);
}

/// The instructions of `index` that refuse `nil` and check the bounds.
pub open spec fn index_bounds(si: int) -> Seq<InstrView> {
    seq![
        InstrView::IMov(reg(Reg::RBX), slot(si)),
        InstrView::ICmp(reg(Reg::RBX), imm(1)),
        InstrView::IJe(label("nil_deref_err"@)),
        InstrView::ISub(reg(Reg::RBX), imm(1)),
        InstrView::ICmp(reg(Reg::RAX), imm(0)),
        InstrView::IJl(label("out_of_bounds_err"@)),
        InstrView::ICmp(reg(Reg::RAX), ValView::RegOffset(Reg::RBX, -8)),
        InstrView::IJge(label("out_of_bounds_err"@)),
    ]
}

/// The instructions of `index` that load the element.
pub open spec fn index_load() -> Seq<InstrView> {
    seq![
        InstrView::ISar(reg(Reg::RAX), imm(1)),
        InstrView::IAdd(reg(Reg::RAX), imm(2)),
        InstrView::IMul(reg(Reg::RAX), imm(8)),
        InstrView::IJo(label("overflow_err"@)),
        InstrView::IAdd(reg(Reg::RBX), reg(Reg::RAX)),
        InstrView::IJo(label("overflow_err"@)),
        InstrView::IMov(reg(Reg::RAX), ValView::RegOffset(Reg::RBX, 0)),
    ]
}

/// The outcome of `index` on a tuple `w` other than `nil` and the word `r`
/// of a number: a jump to the label of the bounds error where the number is
/// negative or not less than the size of the tuple, and else the element.
pub open spec fn indexed(s: State, t: Outcome, w: int, r: int) -> bool {
    let size_word = (s.mem)(w - 1 + 8);
    let at = w - 1 + (r / 2 + 2) * 8;
    if r < 0 || r >= size_word {
        t == Outcome::Trapped("out_of_bounds_err"@)
    } else if !in_word((r / 2 + 2) * 8) || !in_word(at) {
        t == Outcome::Trapped("overflow_err"@)
    } else {
        t matches Outcome::Next(u) && (u.regs)(Reg::RAX) == (s.mem)(at) && (forall|a: int|
            #[trigger] (u.mem)(a) == (s.mem)(a)) && (forall|q: Reg|
            q != Reg::RAX && q != Reg::RBX ==> #[trigger] (u.regs)(q) == (s.regs)(q))
    }
}

/// What the check of the bounds does: it refuses `nil` and an index that
/// is negative or not less than the size, and else leaves the address of the
/// tuple in `RBX`.
proof fn lemma_index_bounds(si: int, s: State, w: int, r: int)
    requires
        (s.mem)((s.regs)(Reg::RBP) - 8 * si) == w,
        (s.regs)(Reg::RAX) == r,
        in_word(w),
        w != -0x8000_0000_0000_0000,
    ensures
        match run(index_bounds(si), s) {
            Outcome::Next(t) => w != 1 && 0 <= r < (s.mem)(w - 1 + 8) && (t.regs)(Reg::RBX) == w
                - 1 && (t.regs)(Reg::RAX) == r && (forall|a: int|
                #[trigger] (t.mem)(a) == (s.mem)(a)) && (forall|q: Reg|
                q != Reg::RBX ==> #[trigger] (t.regs)(q) == (s.regs)(q)),
            Outcome::Trapped(l) => if w == 1 {
                l == "nil_deref_err"@
            } else {
                l == "out_of_bounds_err"@ && (r < 0 || r >= (s.mem)(w - 1 + 8))
            },
            Outcome::Jumped(_, _) => false,
            Outcome::Stuck => false,
        },
{
    let code = index_bounds(si);
    assert(code.len() == 8);
    lemma_wrap(w - 1);
    let s1 = store(s, reg(Reg::RBX), w);
    assert(step(code[0], s) == Outcome::Next(s1));
    assert(run_from(code, 0, s) == run_from(code, 1, s1));
    let s2 = State { left: w, right: 1, ..s1 };
    assert(step(code[1], s1) == Outcome::Next(s2));
    assert(run_from(code, 1, s1) == run_from(code, 2, s2));
    if w == 1 {
        assert(step(code[2], s2) == Outcome::Trapped("nil_deref_err"@));
    } else {
        assert(step(code[2], s2) == Outcome::Next(s2));
        assert(run_from(code, 2, s2) == run_from(code, 3, s2));
        let s3 = arithmetic(s2, reg(Reg::RBX), w - 1);
        assert(step(code[3], s2) == Outcome::Next(s3));
        assert(run_from(code, 3, s2) == run_from(code, 4, s3));
        let s4 = State { left: r, right: 0, ..s3 };
        assert(step(code[4], s3) == Outcome::Next(s4));
        assert(run_from(code, 4, s3) == run_from(code, 5, s4));
        if r < 0 {
            assert(step(code[5], s4) == Outcome::Trapped("out_of_bounds_err"@));
        } else {
            assert(step(code[5], s4) == Outcome::Next(s4));
            assert(run_from(code, 5, s4) == run_from(code, 6, s4));
            let s5 = State { left: r, right: (s.mem)(w - 1 + 8), ..s4 };
            assert(step(code[6], s4) == Outcome::Next(s5));
            assert(run_from(code, 6, s4) == run_from(code, 7, s5));
            if r >= (s.mem)(w - 1 + 8) {
                assert(step(code[7], s5) == Outcome::Trapped("out_of_bounds_err"@));
            } else {
                assert(step(code[7], s5) == Outcome::Next(s5));
                assert(run_from(code, 7, s5) == run_from(code, 8, s5));
                assert(run_from(code, 8, s5) == Outcome::Next(s5));
            }
        }
    }
}

/// What the load does: it computes the address of the element and loads
/// it, or jumps to the label of the overflow error where the address cannot
/// be computed.
proof fn lemma_index_load(s: State, a: int, r: int)
    requires
        (s.regs)(Reg::RBX) == a,
        (s.regs)(Reg::RAX) == r,
        in_word(a),
        in_word(r),
    ensures
        match run(index_load(), s) {
            Outcome::Next(t) => in_word((r / 2 + 2) * 8) && in_word(a + (r / 2 + 2) * 8) && (
            t.regs)(Reg::RAX) == (s.mem)(a + (r / 2 + 2) * 8) && (forall|x: int|
                #[trigger] (t.mem)(x) == (s.mem)(x)) && (forall|q: Reg|
                q != Reg::RAX && q != Reg::RBX ==> #[trigger] (t.regs)(q) == (s.regs)(q)),
            Outcome::Trapped(l) => l == "overflow_err"@ && (!in_word((r / 2 + 2) * 8) || !in_word(
                a + (r / 2 + 2) * 8,
            )),
            Outcome::Jumped(_, _) => false,
            Outcome::Stuck => false,
        },
{
    let code = index_load();
    assert(code.len() == 7);
    let i = r / 2;
    lemma_wrap(i + 2);
    lemma_wrap((i + 2) * 8);
    lemma_wrap(a + (i + 2) * 8);
    let s1 = store(s, reg(Reg::RAX), i);
    assert(step(code[0], s) == Outcome::Next(s1));
    assert(run_from(code, 0, s) == run_from(code, 1, s1));
    let s2 = arithmetic(s1, reg(Reg::RAX), i + 2);
    assert(step(code[1], s1) == Outcome::Next(s2));
    assert(run_from(code, 1, s1) == run_from(code, 2, s2));
    let s3 = arithmetic(s2, reg(Reg::RAX), (i + 2) * 8);
    assert(step(code[2], s2) == Outcome::Next(s3));
    assert(run_from(code, 2, s2) == run_from(code, 3, s3));
    if !in_word((i + 2) * 8) {
        assert(step(code[3], s3) == Outcome::Trapped("overflow_err"@));
    } else {
        assert(step(code[3], s3) == Outcome::Next(s3));
        assert(run_from(code, 3, s3) == run_from(code, 4, s3));
        let s4 = arithmetic(s3, reg(Reg::RBX), a + (i + 2) * 8);
        assert(step(code[4], s3) == Outcome::Next(s4));
        assert(run_from(code, 4, s3) == run_from(code, 5, s4));
        if !in_word(a + (i + 2) * 8) {
            assert(step(code[5], s4) == Outcome::Trapped("overflow_err"@));
        } else {
            assert(step(code[5], s4) == Outcome::Next(s4));
            assert(run_from(code, 5, s4) == run_from(code, 6, s4));
            let s5 = store(s4, reg(Reg::RAX), (s.mem)(a + (i + 2) * 8));
            assert(step(code[6], s4) == Outcome::Next(s5));
            assert(run_from(code, 6, s4) == run_from(code, 7, s5));
            assert(run_from(code, 7, s5) == Outcome::Next(s5));
        }
    }
}

/// The code of `index` jumps to the label of the bounds error exactly
/// where the index is negative or not less than the size of the tuple.
///
/// With a reference to a tuple in slot `si` and the word of a number in
/// `RAX`, the code jumps to `out_of_bounds_err` where the number is negative
/// or not less than the size that the tuple's second word holds, and else
/// leaves the element in `RAX`. With `nil` in the slot it jumps to
/// `nil_deref_err`, with a word there that is neither a reference nor `nil`
/// to `not_tuple_err`, and with a word in `RAX` that is no number to
/// `not_num_err`.
pub proof fn lemma_index_runs(si: int, s: State, w: int, r: int)
    requires
        (s.mem)((s.regs)(Reg::RBP) - 8 * si) == w,
        (s.regs)(Reg::RAX) == r,
        in_word(w),
        in_word(r),
    ensures
        w % 4 != 1 ==> run(index_code(si), s) == Outcome::Trapped("not_tuple_err"@),
        w % 4 == 1 && r % 2 != 0 ==> run(index_code(si), s) == Outcome::Trapped("not_num_err"@),
        w == 1 && r % 2 == 0 ==> run(index_code(si), s) == Outcome::Trapped("nil_deref_err"@),
        w % 4 == 1 && w != 1 && r % 2 == 0 ==> indexed(s, run(index_code(si), s), w, r),
{
    let first = type_check(slot(si), Type::Tuple);
    let second = type_check(reg(Reg::RAX), Type::Number);
    let bounds = index_bounds(si);
    let load = index_load();
    assert(index_code(si) =~= first + second + bounds + load);
    lemma_run_concat(first + second + bounds, load, s);
    lemma_run_concat(first + second, bounds, s);
    lemma_run_concat(first, second, s);
    lemma_check_tuple(slot(si), s);
    if w % 4 == 1 {
        let t1 = run(first, s)->Next_0;
        lemma_check_number(reg(Reg::RAX), t1);
        if r % 2 == 0 {
            let t2 = run(second, t1)->Next_0;
            lemma_index_bounds(si, t2, w, r);
            match run(bounds, t2) {
                Outcome::Next(t3) => {
                    lemma_index_load(t3, w - 1, r);
                },
                _ => {},
            }
        }
    }
}

} // verus!
