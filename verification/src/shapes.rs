//! The instruction sequences that the compiler emits for each construct of
//! the language, as functions of what varies in them.
//!
//! Registers: `RAX` holds the value of the expression just evaluated, `RBX`,
//! `RCX` and `RDX` are scratch, `R15` points at the first free heap word and
//! `R12` at the frame of the main expression, where the input lies one word
//! and the end of the heap two words below it.

use vstd::prelude::*;
use crate::ast::{Op1, Op2};
use crate::instr::{InstrView, Reg, ValView};
use crate::decimal::int_text;
use crate::value::{
    BOOLEAN_TAG, FALSE_VAL, KIND_MASK, NIL_VAL, NUMBER_MASK, NUMBER_SHIFT, NUMBER_TAG, ONE,
    REFERENCE_TAG, TRUE_VAL, TUPLE_TAG,
};

verus! {

/// The kinds of value that emitted code tells apart.
#[derive(Debug, Clone, Copy, PartialEq, Eq, Structural)]
pub enum Type {
    Number,
    Bool,
    Tuple,
}

/// A register as an operand.
pub open spec fn reg(r: Reg) -> ValView {
    ValView::Reg(r)
}

/// An immediate operand.
pub open spec fn imm(n: int) -> ValView {
    ValView::Imm(n)
}

/// A label as an operand.
pub open spec fn label(s: Seq<char>) -> ValView {
    ValView::Label(s)
}

/// The stack slot with index `k`: the word `k * 8` bytes below the frame
/// pointer.
pub open spec fn slot(k: int) -> ValView {
    ValView::RegOffset(Reg::RBP, k * 8)
}

/// The cell of a variable that the environment binds to the offset `off`.
pub open spec fn var_cell(off: i64) -> ValView {
    ValView::RegOffset(Reg::RBP, off as int)
}

/// The heap word `k` words above the allocation pointer.
pub open spec fn heap_word(k: int) -> ValView {
    ValView::RegOffset(Reg::R15, -(k * 8))
}

/// The cell that holds the address of the end of the heap.
pub open spec fn heap_end_cell() -> ValView {
    ValView::RegOffset(Reg::R12, 16)
}

/// A label made of a prefix, an underscore and a number.
pub open spec fn numbered(prefix: Seq<char>, n: int) -> Seq<char> {
    prefix + "_"@ + int_text(n)
}

/// `n` rounded up to an even number: a frame of that many words keeps the
/// stack pointer a multiple of 16.
pub open spec fn align16(n: int) -> int {
    if n % 2 == 0 {
        n
    } else {
        n + 1
    }
}

/// Code that jumps to the error label of `t` unless `v` holds a value of
/// that kind (`nil` counts as a tuple here). It leaves `v` as it was.
pub open spec fn type_check(v: ValView, t: Type) -> Seq<InstrView> {
    match t {
        Type::Number => seq![
            InstrView::IMov(reg(Reg::RBX), v),
            InstrView::IAnd(reg(Reg::RBX), imm(NUMBER_MASK as int)),
            InstrView::ICmp(reg(Reg::RBX), imm(NUMBER_TAG as int)),
            InstrView::IJne(label("not_num_err"@)),
        ],
        Type::Bool => seq![
            InstrView::IMov(reg(Reg::RBX), v),
            InstrView::IAnd(reg(Reg::RBX), imm(KIND_MASK as int)),
            InstrView::ICmp(reg(Reg::RBX), imm(BOOLEAN_TAG as int)),
            InstrView::IJne(label("not_bool_err"@)),
        ],
        Type::Tuple => seq![
            InstrView::IMov(reg(Reg::RBX), v),
            InstrView::IAnd(reg(Reg::RBX), imm(KIND_MASK as int)),
            InstrView::ICmp(reg(Reg::RBX), imm(TUPLE_TAG as int)),
            InstrView::IJne(label("not_tuple_err"@)),
        ],
    }
}

/// Code that replaces the flags of a comparison by `true` in `RAX` where
/// `pick` moves, and by `false` where it does not.
pub open spec fn truth_of(pick: InstrView) -> Seq<InstrView> {
    seq![
        InstrView::IMov(reg(Reg::RAX), imm(FALSE_VAL as int)),
        InstrView::IMov(reg(Reg::RBX), imm(TRUE_VAL as int)),
        pick,
    ]
}

/// The code of a unary operator, applied to the value in `RAX`.
pub open spec fn unop_code(op: Op1) -> Seq<InstrView> {
    match op {
        Op1::Add1 => type_check(reg(Reg::RAX), Type::Number) + seq![
            InstrView::IAdd(reg(Reg::RAX), imm(ONE as int)),
            InstrView::IJo(label("overflow_err"@)),
        ],
        Op1::Sub1 => type_check(reg(Reg::RAX), Type::Number) + seq![
            InstrView::ISub(reg(Reg::RAX), imm(ONE as int)),
            InstrView::IJo(label("overflow_err"@)),
        ],
        Op1::IsNum => seq![
            InstrView::IAnd(reg(Reg::RAX), imm(NUMBER_MASK as int)),
            InstrView::ICmp(reg(Reg::RAX), imm(NUMBER_TAG as int)),
        ] + truth_of(InstrView::ICMovE(reg(Reg::RAX), reg(Reg::RBX))),
        Op1::IsBool => seq![
            InstrView::IAnd(reg(Reg::RAX), imm(KIND_MASK as int)),
            InstrView::ICmp(reg(Reg::RAX), imm(BOOLEAN_TAG as int)),
        ] + truth_of(InstrView::ICMovE(reg(Reg::RAX), reg(Reg::RBX))),
        Op1::Print => seq![
            InstrView::IMov(reg(Reg::RDI), reg(Reg::RAX)),
            InstrView::ICall(label("snek_print"@)),
        ],
    }
}

/// Code that checks that both operands of an arithmetic operator or of a
/// comparison are numbers: the right one in `RAX`, the left one in slot `si`.
pub open spec fn both_numbers(si: int) -> Seq<InstrView> {
    type_check(reg(Reg::RAX), Type::Number) + type_check(slot(si), Type::Number)
}

/// Code that compares the left operand with the right one and leaves the
/// truth of the comparison in `RAX`.
pub open spec fn compare_code(si: int, pick: InstrView) -> Seq<InstrView> {
    both_numbers(si) + seq![InstrView::ICmp(slot(si), reg(Reg::RAX))] + truth_of(pick)
}

/// Code that leaves in `out` the kind of the value `v`: 0 for a number, 1
/// for a tuple or `nil`, 3 for a boolean. It uses `tmp`.
pub open spec fn kind_of(v: ValView, out: Reg, tmp: Reg) -> Seq<InstrView> {
    seq![
        InstrView::IMov(reg(out), v),
        InstrView::IAnd(reg(out), imm(KIND_MASK as int)),
        InstrView::IMov(reg(tmp), v),
        InstrView::IAnd(reg(tmp), imm(NUMBER_MASK as int)),
        InstrView::IMul(reg(out), reg(tmp)),
    ]
}

/// The code of `=`: both operands must be of one kind; then the words are
/// compared.
pub open spec fn equal_code(si: int) -> Seq<InstrView> {
    kind_of(reg(Reg::RAX), Reg::RBX, Reg::RCX) + kind_of(slot(si), Reg::RCX, Reg::RDX) + seq![
        InstrView::ICmp(reg(Reg::RBX), reg(Reg::RCX)),
        InstrView::IJne(label("invalid_arg_err"@)),
        InstrView::ICmp(reg(Reg::RAX), slot(si)),
    ] + truth_of(InstrView::ICMovE(reg(Reg::RAX), reg(Reg::RBX)))
}

/// The code of `index`: the left operand must be a tuple other than `nil`,
/// the right one a number from 0 to the tuple's size less one. The element
/// lies two words above the tuple's first word, past the collector's word
/// and the size.
pub open spec fn index_code(si: int) -> Seq<InstrView> {
    type_check(slot(si), Type::Tuple) + type_check(reg(Reg::RAX), Type::Number) + seq![
        InstrView::IMov(reg(Reg::RBX), slot(si)),
        InstrView::ICmp(reg(Reg::RBX), imm(NIL_VAL as int)),
        InstrView::IJe(label("nil_deref_err"@)),
        InstrView::ISub(reg(Reg::RBX), imm(REFERENCE_TAG as int)),
        InstrView::ICmp(reg(Reg::RAX), imm(0)),
        InstrView::IJl(label("out_of_bounds_err"@)),
        InstrView::ICmp(reg(Reg::RAX), ValView::RegOffset(Reg::RBX, -8)),
        InstrView::IJge(label("out_of_bounds_err"@)),
        InstrView::ISar(reg(Reg::RAX), imm(NUMBER_SHIFT as int)),
        InstrView::IAdd(reg(Reg::RAX), imm(2)),
        InstrView::IMul(reg(Reg::RAX), imm(8)),
        InstrView::IJo(label("overflow_err"@)),
        InstrView::IAdd(reg(Reg::RBX), reg(Reg::RAX)),
        InstrView::IJo(label("overflow_err"@)),
        InstrView::IMov(reg(Reg::RAX), ValView::RegOffset(Reg::RBX, 0)),
    ]
}

/// The code of a binary operator, applied to the left operand in slot `si`
/// and the right operand in `RAX`.
pub open spec fn binop_code(op: Op2, si: int) -> Seq<InstrView> {
    match op {
        Op2::Plus => both_numbers(si) + seq![
            InstrView::IAdd(reg(Reg::RAX), slot(si)),
            InstrView::IJo(label("overflow_err"@)),
        ],
        Op2::Minus => both_numbers(si) + seq![
            InstrView::ISub(slot(si), reg(Reg::RAX)),
            InstrView::IJo(label("overflow_err"@)),
            InstrView::IMov(reg(Reg::RAX), slot(si)),
        ],
        Op2::Times => both_numbers(si) + seq![
            InstrView::ISar(reg(Reg::RAX), imm(NUMBER_SHIFT as int)),
            InstrView::IMul(reg(Reg::RAX), slot(si)),
            InstrView::IJo(label("overflow_err"@)),
        ],
        Op2::Equal => equal_code(si),
        Op2::Greater => compare_code(si, InstrView::ICMovG(reg(Reg::RAX), reg(Reg::RBX))),
        Op2::GreaterOrEqual => compare_code(
            si,
            InstrView::ICMovGE(reg(Reg::RAX), reg(Reg::RBX)),
        ),
        Op2::Less => compare_code(si, InstrView::ICMovL(reg(Reg::RAX), reg(Reg::RBX))),
        Op2::LessOrEqual => compare_code(si, InstrView::ICMovLE(reg(Reg::RAX), reg(Reg::RBX))),
        Op2::Index => index_code(si),
    }
}

/// Code that stores the value in `RAX` in slot `k`.
pub open spec fn spill(k: int) -> Seq<InstrView> {
    seq![InstrView::IMov(slot(k), reg(Reg::RAX))]
}

/// The code around the three parts of an `if`: the `else` part runs where
/// the condition is `false`, the `then` part on every other value.
pub open spec fn if_code(
    cond: Seq<InstrView>,
    then_part: Seq<InstrView>,
    alt: Seq<InstrView>,
    l: int,
) -> Seq<InstrView> {
    cond + seq![
        InstrView::ICmp(reg(Reg::RAX), imm(FALSE_VAL as int)),
        InstrView::IJe(label(numbered("if_else"@, l + 1))),
    ] + then_part + seq![
        InstrView::IJmp(label(numbered("if_end"@, l))),
        InstrView::ILabel(numbered("if_else"@, l + 1)),
    ] + alt + seq![InstrView::ILabel(numbered("if_end"@, l))]
}

/// The label that a `break` inside the loop numbered `l` jumps to.
pub open spec fn loop_end(l: int) -> Seq<char> {
    numbered("loop_end"@, l + 1)
}

/// The code around the body of a `loop`.
pub open spec fn loop_code(body: Seq<InstrView>, l: int) -> Seq<InstrView> {
    seq![InstrView::ILabel(numbered("loop_start"@, l))] + body + seq![
        InstrView::IJmp(label(numbered("loop_start"@, l))),
        InstrView::ILabel(loop_end(l)),
    ]
}

/// Code that pushes the slots `si + n - 1` down to `si + i`, in that order.
pub open spec fn push_slots(n: int, i: int, si: int) -> Seq<InstrView>
    decreases n - i,
{
    if i >= n {
        Seq::empty()
    } else {
        push_slots(n, i + 1, si) + seq![
            InstrView::IMov(reg(Reg::RAX), slot(si + i)),
            InstrView::IPush(reg(Reg::RAX)),
        ]
    }
}

/// The code of a call of `f` whose `n` arguments lie in the slots from `si`
/// on. With an odd `n` a word of padding is pushed first, so that the stack
/// pointer is a multiple of 16 at the call. The arguments are pushed last
/// to first, so that the callee finds the first one nearest to its frame.
pub open spec fn call_code(f: Seq<char>, n: int, si: int) -> Seq<InstrView> {
    (if n % 2 == 0 {
        Seq::empty()
    } else {
        seq![InstrView::IPush(imm(0))]
    }) + push_slots(n, 0, si) + seq![
        InstrView::ICall(label(f)),
        InstrView::IAdd(reg(Reg::RSP), imm(align16(n) * 8)),
    ]
}

/// Code that copies the first `k` of the slots from `si` on into the heap
/// words from the third on.
pub open spec fn fill_words(k: int, si: int) -> Seq<InstrView>
    decreases k,
{
    if k <= 0 {
        Seq::empty()
    } else {
        fill_words(k - 1, si) + seq![
            InstrView::IMov(reg(Reg::RAX), slot(si + k - 1)),
            InstrView::IMov(heap_word(k + 1), reg(Reg::RAX)),
        ]
    }
}

/// Code that makes room for `n + 2` heap words: where fewer are free, it
/// calls the collector with the number of words, the allocation pointer, the
/// base of the stack and the frame and stack pointers, and takes the new
/// allocation pointer from it.
pub open spec fn reserve_code(n: int, l: int) -> Seq<InstrView> {
    seq![
        InstrView::IMov(reg(Reg::RAX), heap_end_cell()),
        InstrView::ISub(reg(Reg::RAX), reg(Reg::R15)),
        InstrView::ICmp(reg(Reg::RAX), imm((n + 2) * 8)),
        InstrView::IJge(label(numbered("tuple_alloc"@, l))),
        InstrView::IMov(reg(Reg::RDI), imm(n + 2)),
        InstrView::IMov(reg(Reg::RSI), reg(Reg::R15)),
        InstrView::IMov(reg(Reg::RDX), reg(Reg::R12)),
        InstrView::IMov(reg(Reg::RCX), reg(Reg::RBP)),
        InstrView::IMov(reg(Reg::R8), reg(Reg::RSP)),
        InstrView::ICall(label("snek_try_gc"@)),
        InstrView::IMov(reg(Reg::R15), reg(Reg::RAX)),
        InstrView::ILabel(numbered("tuple_alloc"@, l)),
    ]
}

/// The code that builds a tuple of the `n` values in the slots from `si` on:
/// it makes room, writes the collector's word (0), the size as a number and
/// the elements, leaves the reference in `RAX` and moves the allocation
/// pointer past the tuple.
pub open spec fn tuple_code(n: int, si: int, l: int) -> Seq<InstrView> {
    reserve_code(n, l) + seq![
        InstrView::IMov(reg(Reg::RAX), imm(0)),
        InstrView::IMov(heap_word(0), reg(Reg::RAX)),
        InstrView::IMov(reg(Reg::RAX), imm(2 * n)),
        InstrView::IMov(heap_word(1), reg(Reg::RAX)),
    ] + fill_words(n, si) + seq![
        InstrView::IMov(reg(Reg::RAX), reg(Reg::R15)),
        InstrView::IAdd(reg(Reg::RAX), imm(REFERENCE_TAG as int)),
        InstrView::IAdd(reg(Reg::R15), imm((n + 2) * 8)),
    ]
}

/// The code that opens a function: it saves the caller's frame pointer,
/// makes the stack pointer the new frame pointer and reserves `frame` bytes.
pub open spec fn prologue(name: Seq<char>, frame: int) -> Seq<InstrView> {
    seq![
        InstrView::ILabel(name),
        InstrView::IPush(reg(Reg::RBP)),
        InstrView::IMov(reg(Reg::RBP), reg(Reg::RSP)),
        InstrView::ISub(reg(Reg::RSP), imm(frame)),
    ]
}

/// The code that closes a function.
pub open spec fn epilogue(frame: int) -> Seq<InstrView> {
    seq![
        InstrView::IAdd(reg(Reg::RSP), imm(frame)),
        InstrView::IPop(reg(Reg::RBP)),
        InstrView::IRet,
    ]
}

/// What the entry point does after its prologue: it stores the input in slot
/// 1 and the end of the heap in slot 2, takes the start of the heap as the
/// allocation pointer and keeps its frame pointer as the base of the stack.
pub open spec fn entry_setup() -> Seq<InstrView> {
    seq![
        InstrView::IMov(slot(1), reg(Reg::RDI)),
        InstrView::IMov(slot(2), reg(Reg::RDX)),
        InstrView::IMov(reg(Reg::R15), reg(Reg::RSI)),
        InstrView::IMov(reg(Reg::R12), reg(Reg::RBP)),
    ]
}

/// The code at an error label: it hands the error's code to the runtime,
/// which does not return.
pub open spec fn trap(name: Seq<char>, code: int) -> Seq<InstrView> {
    seq![
        InstrView::ILabel(name),
        InstrView::IMov(reg(Reg::RDI), imm(code)),
        InstrView::ICall(label("snek_error"@)),
    ]
}

/// The error labels that end every emitted unit, each with its code.
pub open spec fn traps() -> Seq<InstrView> {
    trap("not_bool_err"@, 1) + trap("not_num_err"@, 2) + trap("invalid_arg_err"@, 3) + trap(
        "overflow_err"@,
        4,
    ) + trap("not_tuple_err"@, 5) + trap("out_of_bounds_err"@, 6) + trap("nil_deref_err"@, 7)
}

} // verus!
