//! The builders of the instruction sequences of `shapes`.

use vstd::prelude::*;
use crate::ast::{Op1, Op2};
use crate::decimal::push_i64;
use crate::instr::{code_view, Instr, InstrView, Reg, Val};
use crate::shapes::{
    align16, binop_code, both_numbers, call_code, compare_code, entry_setup, epilogue, equal_code,
    fill_words, heap_word, imm, index_code, kind_of, label, numbered, prologue, push_slots, reg,
    reserve_code, slot, spill, trap, traps, truth_of, tuple_code, type_check, unop_code, Type,
};
use crate::value::{
    BOOLEAN_TAG, FALSE_VAL, KIND_MASK, NIL_VAL, NUMBER_MASK, NUMBER_SHIFT, NUMBER_TAG, ONE,
    REFERENCE_TAG, TRUE_VAL, TUPLE_TAG,
};

verus! {

/// The greatest slot index that the compiler accepts. Offsets are eight
/// times a slot index, and the limit keeps them inside an `i64`.
pub const SLOT_LIMIT: i64 = 0x0100_0000_0000_0000;

/// The view of a sequence of instructions is taken piece by piece.
pub proof fn lemma_code_view_add(a: Seq<Instr>, b: Seq<Instr>)
    ensures
        code_view(a + b) == code_view(a) + code_view(b),
{
    assert(code_view(a + b) =~= code_view(a) + code_view(b));
}

/// Appends `more` to `out`.
pub fn extend(out: &mut Vec<Instr>, more: Vec<Instr>)
    ensures
        code_view(final(out)@) == code_view(old(out)@) + code_view(more@),
{
    let mut more = more;
    proof {
        lemma_code_view_add(out@, more@);
    }
    out.append(&mut more);
}

/// Appends one instruction to `out`.
pub fn emit_one(out: &mut Vec<Instr>, i: Instr)
    ensures
        code_view(final(out)@) == code_view(old(out)@) + seq![i@],
{
    out.push(i);
    assert(code_view(out@) =~= code_view(old(out)@) + seq![i@]);
}

/// `n` rounded up to an even number.
pub fn align_to_16(n: i64) -> (r: i64)
    requires
        n < i64::MAX,
    ensures
        r == align16(n as int),
{
    if n % 2 == 0 {
        n
    } else {
        n + 1
    }
}

fn r(x: Reg) -> (v: Val)
    ensures
        v@ == reg(x),
{
    Val::Reg(x)
}

fn num(n: i64) -> (v: Val)
    ensures
        v@ == imm(n as int),
{
    Val::Imm(n)
}

fn lab(s: &str) -> (v: Val)
    ensures
        v@ == label(s@),
{
    Val::Label(s.to_owned())
}

/// The stack slot with index `k`.
pub fn slot_of(k: i64) -> (v: Val)
    requires
        0 <= k <= SLOT_LIMIT,
    ensures
        v@ == slot(k as int),
{
    Val::RegOffset(Reg::RBP, k * 8)
}

fn heap_word_of(k: i64) -> (v: Val)
    requires
        0 <= k <= SLOT_LIMIT + 2,
    ensures
        v@ == heap_word(k as int),
{
    Val::RegOffset(Reg::R15, -(k * 8))
}

/// The text of a label: the prefix, an underscore and the number.
pub fn numbered_name(prefix: &str, n: i64) -> (s: String)
    ensures
        s@ == numbered(prefix@, n as int),
{
    let mut s = prefix.to_owned();
    s.append("_");
    push_i64(&mut s, n);
    s
}

/// A label with the next free number, which it takes.
pub fn new_label(l: &mut i64, s: &str) -> (v: Val)
    requires
        *old(l) < i64::MAX,
    ensures
        *final(l) == *old(l) + 1,
        v@ == label(numbered(s@, *old(l) as int)),
{
    let current = *l;
    *l += 1;
    Val::Label(numbered_name(s, current))
}

/// Code that jumps to the error label of `t` unless `val` holds a value of
/// that kind.
pub fn assert_type(val: Val, t: Type) -> (code: Vec<Instr>)
    ensures
        code_view(code@) == type_check(val@, t),
{
    let code = match t {
        Type::Number => vec![
            Instr::IMov(r(Reg::RBX), val),
            Instr::IAnd(r(Reg::RBX), num(NUMBER_MASK)),
            Instr::ICmp(r(Reg::RBX), num(NUMBER_TAG)),
            Instr::IJne(lab("not_num_err")),
        ],
        Type::Bool => vec![
            Instr::IMov(r(Reg::RBX), val),
            Instr::IAnd(r(Reg::RBX), num(KIND_MASK)),
            Instr::ICmp(r(Reg::RBX), num(BOOLEAN_TAG)),
            Instr::IJne(lab("not_bool_err")),
        ],
        Type::Tuple => vec![
            Instr::IMov(r(Reg::RBX), val),
            Instr::IAnd(r(Reg::RBX), num(KIND_MASK)),
            Instr::ICmp(r(Reg::RBX), num(TUPLE_TAG)),
            Instr::IJne(lab("not_tuple_err")),
        ],
    };
    assert(code_view(code@) =~= type_check(val@, t));
    code
}

fn truth(pick: Instr) -> (code: Vec<Instr>)
    ensures
        code_view(code@) == truth_of(pick@),
{
    let code = vec![Instr::IMov(r(Reg::RAX), num(FALSE_VAL)), Instr::IMov(r(Reg::RBX), num(TRUE_VAL)), pick];
    assert(code_view(code@) =~= truth_of(pick@));
    code
}

/// The code of a unary operator.
pub fn unop(op: Op1) -> (code: Vec<Instr>)
    ensures
        code_view(code@) == unop_code(op),
{
    match op {
        Op1::Add1 => {
            let mut code = assert_type(r(Reg::RAX), Type::Number);
            emit_one(&mut code, Instr::IAdd(r(Reg::RAX), num(ONE)));
            emit_one(&mut code, Instr::IJo(lab("overflow_err")));
            assert(code_view(code@) =~= unop_code(op));
            code
        },
        Op1::Sub1 => {
            let mut code = assert_type(r(Reg::RAX), Type::Number);
            emit_one(&mut code, Instr::ISub(r(Reg::RAX), num(ONE)));
            emit_one(&mut code, Instr::IJo(lab("overflow_err")));
            assert(code_view(code@) =~= unop_code(op));
            code
        },
        Op1::IsNum => {
            let mut code = vec![
                Instr::IAnd(r(Reg::RAX), num(NUMBER_MASK)),
                Instr::ICmp(r(Reg::RAX), num(NUMBER_TAG)),
            ];
            assert(code_view(code@) =~= seq![
                InstrView::IAnd(reg(Reg::RAX), imm(1)),
                InstrView::ICmp(reg(Reg::RAX), imm(0)),
            ]);
            extend(&mut code, truth(Instr::ICMovE(r(Reg::RAX), r(Reg::RBX))));
            code
        },
        Op1::IsBool => {
            let mut code = vec![
                Instr::IAnd(r(Reg::RAX), num(KIND_MASK)),
                Instr::ICmp(r(Reg::RAX), num(BOOLEAN_TAG)),
            ];
            assert(code_view(code@) =~= seq![
                InstrView::IAnd(reg(Reg::RAX), imm(3)),
                InstrView::ICmp(reg(Reg::RAX), imm(3)),
            ]);
            extend(&mut code, truth(Instr::ICMovE(r(Reg::RAX), r(Reg::RBX))));
            code
        },
        Op1::Print => {
            let code = vec![Instr::IMov(r(Reg::RDI), r(Reg::RAX)), Instr::ICall(lab("snek_print"))];
            assert(code_view(code@) =~= unop_code(op));
            code
        },
    }
}

fn numbers(si: i64) -> (code: Vec<Instr>)
    requires
        0 <= si <= SLOT_LIMIT,
    ensures
        code_view(code@) == both_numbers(si as int),
{
    let mut code = assert_type(r(Reg::RAX), Type::Number);
    extend(&mut code, assert_type(slot_of(si), Type::Number));
    code
}

fn compare(si: i64, pick: Instr) -> (code: Vec<Instr>)
    requires
        0 <= si <= SLOT_LIMIT,
    ensures
        code_view(code@) == compare_code(si as int, pick@),
{
    let mut code = numbers(si);
    emit_one(&mut code, Instr::ICmp(slot_of(si), r(Reg::RAX)));
    extend(&mut code, truth(pick));
    code
}

fn kind(v1: Val, v2: Val, out: Reg, tmp: Reg) -> (code: Vec<Instr>)
    requires
        v1@ == v2@,
    ensures
        code_view(code@) == kind_of(v1@, out, tmp),
{
    let code = vec![
        Instr::IMov(r(out), v1),
        Instr::IAnd(r(out), num(KIND_MASK)),
        Instr::IMov(r(tmp), v2),
        Instr::IAnd(r(tmp), num(NUMBER_MASK)),
        Instr::IMul(r(out), r(tmp)),
    ];
    assert(code_view(code@) =~= kind_of(v1@, out, tmp));
    code
}

fn equal(si: i64) -> (code: Vec<Instr>)
    requires
        0 <= si <= SLOT_LIMIT,
    ensures
        code_view(code@) == equal_code(si as int),
{
    let mut code = kind(r(Reg::RAX), r(Reg::RAX), Reg::RBX, Reg::RCX);
    extend(&mut code, kind(slot_of(si), slot_of(si), Reg::RCX, Reg::RDX));
    let tail = vec![
        Instr::ICmp(r(Reg::RBX), r(Reg::RCX)),
        Instr::IJne(lab("invalid_arg_err")),
        Instr::ICmp(r(Reg::RAX), slot_of(si)),
    ];
    assert(code_view(tail@) =~= seq![
        InstrView::ICmp(reg(Reg::RBX), reg(Reg::RCX)),
        InstrView::IJne(label("invalid_arg_err"@)),
        InstrView::ICmp(reg(Reg::RAX), slot(si as int)),
    ]);
    extend(&mut code, tail);
    extend(&mut code, truth(Instr::ICMovE(r(Reg::RAX), r(Reg::RBX))));
    code
}

fn index(si: i64) -> (code: Vec<Instr>)
    requires
        0 <= si <= SLOT_LIMIT,
    ensures
        code_view(code@) == index_code(si as int),
{
    let mut code = assert_type(slot_of(si), Type::Tuple);
    extend(&mut code, assert_type(r(Reg::RAX), Type::Number));
    let tail = vec![
        Instr::IMov(r(Reg::RBX), slot_of(si)),
        Instr::ICmp(r(Reg::RBX), num(NIL_VAL)),
        Instr::IJe(lab("nil_deref_err")),
        Instr::ISub(r(Reg::RBX), num(REFERENCE_TAG)),
        Instr::ICmp(r(Reg::RAX), num(0)),
        Instr::IJl(lab("out_of_bounds_err")),
        Instr::ICmp(r(Reg::RAX), Val::RegOffset(Reg::RBX, -8)),
        Instr::IJge(lab("out_of_bounds_err")),
        Instr::ISar(r(Reg::RAX), num(NUMBER_SHIFT)),
        Instr::IAdd(r(Reg::RAX), num(2)),
        Instr::IMul(r(Reg::RAX), num(8)),
        Instr::IJo(lab("overflow_err")),
        Instr::IAdd(r(Reg::RBX), r(Reg::RAX)),
        Instr::IJo(lab("overflow_err")),
        Instr::IMov(r(Reg::RAX), Val::RegOffset(Reg::RBX, 0)),
    ];
    assert(code_view(tail@) =~= index_code(si as int).skip(8));
    extend(&mut code, tail);
    assert(code_view(code@) =~= index_code(si as int));
    code
}

/// The code of a binary operator with its left operand in slot `si`.
pub fn binop(op: Op2, si: i64) -> (code: Vec<Instr>)
    requires
        0 <= si <= SLOT_LIMIT,
    ensures
        code_view(code@) == binop_code(op, si as int),
{
    match op {
        Op2::Plus => {
            let mut code = numbers(si);
            emit_one(&mut code, Instr::IAdd(r(Reg::RAX), slot_of(si)));
            emit_one(&mut code, Instr::IJo(lab("overflow_err")));
            assert(code_view(code@) =~= binop_code(op, si as int));
            code
        },
        Op2::Minus => {
            let mut code = numbers(si);
            emit_one(&mut code, Instr::ISub(slot_of(si), r(Reg::RAX)));
            emit_one(&mut code, Instr::IJo(lab("overflow_err")));
            emit_one(&mut code, Instr::IMov(r(Reg::RAX), slot_of(si)));
            assert(code_view(code@) =~= binop_code(op, si as int));
            code
        },
        Op2::Times => {
            let mut code = numbers(si);
            emit_one(&mut code, Instr::ISar(r(Reg::RAX), num(NUMBER_SHIFT)));
            emit_one(&mut code, Instr::IMul(r(Reg::RAX), slot_of(si)));
            emit_one(&mut code, Instr::IJo(lab("overflow_err")));
            assert(code_view(code@) =~= binop_code(op, si as int));
            code
        },
        Op2::Equal => equal(si),
        Op2::Greater => compare(si, Instr::ICMovG(r(Reg::RAX), r(Reg::RBX))),
        Op2::GreaterOrEqual => compare(si, Instr::ICMovGE(r(Reg::RAX), r(Reg::RBX))),
        Op2::Less => compare(si, Instr::ICMovL(r(Reg::RAX), r(Reg::RBX))),
        Op2::LessOrEqual => compare(si, Instr::ICMovLE(r(Reg::RAX), r(Reg::RBX))),
        Op2::Index => index(si),
    }
}

/// The instruction that stores `RAX` in slot `k`.
pub fn spill_to(k: i64) -> (i: Instr)
    requires
        0 <= k <= SLOT_LIMIT,
    ensures
        seq![i@] == spill(k as int),
{
    let i = Instr::IMov(slot_of(k), r(Reg::RAX));
    assert(seq![i@] =~= spill(k as int));
    i
}

/// The code of a call of `f` with `n` arguments in the slots from `si` on.
pub fn call(f: &str, n: usize, si: i64) -> (code: Vec<Instr>)
    requires
        0 <= si,
        si + n <= SLOT_LIMIT,
    ensures
        code_view(code@) == call_code(f@, n as int, si as int),
{
    let mut code: Vec<Instr> = Vec::new();
    if n % 2 != 0 {
        code.push(Instr::IPush(num(0)));
    }
    let ghost pad = code_view(code@);
    assert(pad =~= (if n % 2 == 0 {
        Seq::<InstrView>::empty()
    } else {
        seq![InstrView::IPush(imm(0))]
    }));
    let mut i: usize = n;
    assert(pad + push_slots(n as int, n as int, si as int) =~= pad);
    while i > 0
        invariant
            0 <= si,
            si + n <= SLOT_LIMIT,
            i <= n,
            code_view(code@) == pad + push_slots(n as int, i as int, si as int),
        decreases i,
    {
        i -= 1;
        let ghost before = code_view(code@);
        emit_one(&mut code, Instr::IMov(r(Reg::RAX), slot_of(si + i as i64)));
        emit_one(&mut code, Instr::IPush(r(Reg::RAX)));
        assert(code_view(code@) =~= pad + push_slots(n as int, i as int, si as int));
    }
    let ghost pushed = code_view(code@);
    emit_one(&mut code, Instr::ICall(lab(f)));
    emit_one(&mut code, Instr::IAdd(r(Reg::RSP), num(align_to_16(n as i64) * 8)));
    assert(code_view(code@) =~= call_code(f@, n as int, si as int));
    code
}

/// The code that builds a tuple of the `n` values in the slots from `si`
/// on; `l` numbers its label.
pub fn tuple(n: usize, si: i64, l: i64) -> (code: Vec<Instr>)
    requires
        0 <= si,
        si + n <= SLOT_LIMIT,
    ensures
        code_view(code@) == tuple_code(n as int, si as int, l as int),
{
    let words: i64 = n as i64 + 2;
    let mut code = vec![
        Instr::IMov(r(Reg::RAX), Val::RegOffset(Reg::R12, 16)),
        Instr::ISub(r(Reg::RAX), r(Reg::R15)),
        Instr::ICmp(r(Reg::RAX), num(words * 8)),
        Instr::IJge(Val::Label(numbered_name("tuple_alloc", l))),
        Instr::IMov(r(Reg::RDI), num(words)),
        Instr::IMov(r(Reg::RSI), r(Reg::R15)),
        Instr::IMov(r(Reg::RDX), r(Reg::R12)),
        Instr::IMov(r(Reg::RCX), r(Reg::RBP)),
        Instr::IMov(r(Reg::R8), r(Reg::RSP)),
        Instr::ICall(lab("snek_try_gc")),
        Instr::IMov(r(Reg::R15), r(Reg::RAX)),
        Instr::ILabel(numbered_name("tuple_alloc", l)),
    ];
    assert(code_view(code@) =~= reserve_code(n as int, l as int));
    let header = vec![
        Instr::IMov(r(Reg::RAX), num(0)),
        Instr::IMov(heap_word_of(0), r(Reg::RAX)),
        Instr::IMov(r(Reg::RAX), num(2 * (n as i64))),
        Instr::IMov(heap_word_of(1), r(Reg::RAX)),
    ];
    assert(code_view(header@) =~= seq![
        InstrView::IMov(reg(Reg::RAX), imm(0)),
        InstrView::IMov(heap_word(0), reg(Reg::RAX)),
        InstrView::IMov(reg(Reg::RAX), imm(2 * n)),
        InstrView::IMov(heap_word(1), reg(Reg::RAX)),
    ]);
    extend(&mut code, header);
    let ghost start = code_view(code@);
    assert(start + fill_words(0, si as int) =~= start);
    let mut k: usize = 0;
    while k < n
        invariant
            0 <= si,
            si + n <= SLOT_LIMIT,
            k <= n,
            code_view(code@) == start + fill_words(k as int, si as int),
        decreases n - k,
    {
        emit_one(&mut code, Instr::IMov(r(Reg::RAX), slot_of(si + k as i64)));
        emit_one(&mut code, Instr::IMov(heap_word_of(k as i64 + 2), r(Reg::RAX)));
        k += 1;
        assert(code_view(code@) =~= start + fill_words(k as int, si as int));
    }
    let tail = vec![
        Instr::IMov(r(Reg::RAX), r(Reg::R15)),
        Instr::IAdd(r(Reg::RAX), num(REFERENCE_TAG)),
        Instr::IAdd(r(Reg::R15), num(words * 8)),
    ];
    assert(code_view(tail@) =~= seq![
        InstrView::IMov(reg(Reg::RAX), reg(Reg::R15)),
        InstrView::IAdd(reg(Reg::RAX), imm(1)),
        InstrView::IAdd(reg(Reg::R15), imm((n + 2) * 8)),
    ]);
    extend(&mut code, tail);
    code
}

/// The code that opens the function `name` with a frame of `frame` bytes.
pub fn open_frame(name: &str, frame: i64) -> (code: Vec<Instr>)
    ensures
        code_view(code@) == prologue(name@, frame as int),
{
    let code = vec![
        Instr::ILabel(name.to_owned()),
        Instr::IPush(r(Reg::RBP)),
        Instr::IMov(r(Reg::RBP), r(Reg::RSP)),
        Instr::ISub(r(Reg::RSP), num(frame)),
    ];
    assert(code_view(code@) =~= prologue(name@, frame as int));
    code
}

/// The code that closes a function with a frame of `frame` bytes.
pub fn close_frame(frame: i64) -> (code: Vec<Instr>)
    ensures
        code_view(code@) == epilogue(frame as int),
{
    let code = vec![Instr::IAdd(r(Reg::RSP), num(frame)), Instr::IPop(r(Reg::RBP)), Instr::IRet()];
    assert(code_view(code@) =~= epilogue(frame as int));
    code
}

/// What the entry point does after its prologue.
pub fn setup_entry() -> (code: Vec<Instr>)
    ensures
        code_view(code@) == entry_setup(),
{
    let code = vec![
        Instr::IMov(slot_of(1), r(Reg::RDI)),
        Instr::IMov(slot_of(2), r(Reg::RDX)),
        Instr::IMov(r(Reg::R15), r(Reg::RSI)),
        Instr::IMov(r(Reg::R12), r(Reg::RBP)),
    ];
    assert(code_view(code@) =~= entry_setup());
    code
}

fn trap_code(name: &str, code: i64) -> (out: Vec<Instr>)
    ensures
        code_view(out@) == trap(name@, code as int),
{
    let out = vec![
        Instr::ILabel(name.to_owned()),
        Instr::IMov(r(Reg::RDI), num(code)),
        Instr::ICall(lab("snek_error")),
    ];
    assert(code_view(out@) =~= trap(name@, code as int));
    out
}

/// The error labels that end every emitted unit.
pub fn error_traps() -> (code: Vec<Instr>)
    ensures
        code_view(code@) == traps(),
{
    let mut code = trap_code("not_bool_err", 1);
    extend(&mut code, trap_code("not_num_err", 2));
    extend(&mut code, trap_code("invalid_arg_err", 3));
    extend(&mut code, trap_code("overflow_err", 4));
    extend(&mut code, trap_code("not_tuple_err", 5));
    extend(&mut code, trap_code("out_of_bounds_err", 6));
    extend(&mut code, trap_code("nil_deref_err", 7));
    code
}

} // verus!
