//! What the entry point of a program does whose main expression is
//! straight: it computes the value of the expression over the input,
//! prints what the expression prints, and leaves the stack as it found it.

use vstd::prelude::*;
use crate::ast::{Definition, ExprView};
use crate::codegen::{depth_spec, emit, entry_code, main_env};
use crate::compiler::lemma_measures;
use crate::instr::{InstrView, Reg};
use crate::machine::{
    arithmetic, in_word, lemma_run_concat, lemma_wrap, popped, pushed, run, run_from, step, store,
    Outcome, State,
};
use crate::operators::Answer;
use crate::shapes::{align16, entry_setup, epilogue, imm, prologue, reg, slot};
use crate::straight::{
    agrees, below, free, is_straight, lemma_straight_is_computed, lemma_value_keeps, room, value,
    words, Cells, Evaluated,
};

verus! {

/// The cells of the frame of the entry point, as its code sets them up from
/// the state `s` in which it is entered: the caller's frame pointer at the
/// frame pointer, the input in slot 1, and the end of the heap in slot 2.
pub open spec fn entry_cells(s: State) -> Cells {
    Cells {
        at: |off: int|
            if off == 0 {
                (s.regs)(Reg::RBP)
            } else if off == 8 {
                (s.regs)(Reg::RDI)
            } else if off == 16 {
                (s.regs)(Reg::RDX)
            } else {
                (s.mem)((s.regs)(Reg::RSP) - 8 - off)
            },
        printed: s.printed,
    }
}

/// The bytes of the frame of the entry point.
pub open spec fn entry_frame(main: ExprView) -> int {
    align16(depth_spec(main) + 2) * 8
}

/// Whether the entry point can be entered in the state `s`: the registers
/// that it reads and the words of memory hold words, and the stack has room
/// for its frame.
pub open spec fn enterable(s: State, main: ExprView) -> bool {
    &&& in_word((s.regs)(Reg::RSP))
    &&& in_word((s.regs)(Reg::RSP) - 8 - entry_frame(main))
    &&& in_word((s.regs)(Reg::RBP))
    &&& in_word((s.regs)(Reg::RDI))
    &&& in_word((s.regs)(Reg::RDX))
    &&& in_word((s.regs)(Reg::RSI))
    &&& forall|a: int| in_word(#[trigger] (s.mem)(a))
}

/// What the code before the main expression does: it saves the caller's
/// frame pointer, opens the frame, and stores the input and the end of the
/// heap in their slots.
proof fn lemma_prologue_runs(s: State, frame: int)
    requires
        in_word((s.regs)(Reg::RSP)),
        in_word((s.regs)(Reg::RSP) - 8 - frame),
        frame >= 0,
        in_word((s.regs)(Reg::RBP)),
        in_word((s.regs)(Reg::RDI)),
        in_word((s.regs)(Reg::RDX)),
        forall|a: int| in_word(#[trigger] (s.mem)(a)),
    ensures
        run(prologue("our_code_starts_here"@, frame) + entry_setup(), s) is Next,
        ({
            let t = run(prologue("our_code_starts_here"@, frame) + entry_setup(), s)->Next_0;
            &&& (t.regs)(Reg::RBP) == (s.regs)(Reg::RSP) - 8
            &&& (t.regs)(Reg::RSP) == (s.regs)(Reg::RSP) - 8 - frame
            &&& agrees(t, entry_cells(s), 3)
            &&& words(entry_cells(s))
            &&& t.printed == s.printed
        }),
{
    let open = prologue("our_code_starts_here"@, frame);
    let setup = entry_setup();
    lemma_run_concat(open, setup, s);
    let sp = (s.regs)(Reg::RSP);
    lemma_wrap(sp - 8);
    lemma_wrap(sp - 8 - frame);
    assert(open.len() == 4);
    assert(step(open[0], s) == Outcome::Next(s));
    assert(run_from(open, 0, s) == run_from(open, 1, s));
    let s2 = pushed(s, (s.regs)(Reg::RBP));
    assert(step(open[1], s) == Outcome::Next(s2));
    assert(run_from(open, 1, s) == run_from(open, 2, s2));
    let s3 = store(s2, reg(Reg::RBP), sp - 8);
    assert(step(open[2], s2) == Outcome::Next(s3));
    assert(run_from(open, 2, s2) == run_from(open, 3, s3));
    let s4 = arithmetic(s3, reg(Reg::RSP), sp - 8 - frame);
    assert(step(open[3], s3) == Outcome::Next(s4));
    assert(run_from(open, 3, s3) == run_from(open, 4, s4));
    assert(run_from(open, 4, s4) == Outcome::Next(s4));
    assert(setup.len() == 4);
    let s5 = store(s4, slot(1), (s.regs)(Reg::RDI));
    assert(step(setup[0], s4) == Outcome::Next(s5));
    assert(run_from(setup, 0, s4) == run_from(setup, 1, s5));
    let s6 = store(s5, slot(2), (s.regs)(Reg::RDX));
    assert(step(setup[1], s5) == Outcome::Next(s6));
    assert(run_from(setup, 1, s5) == run_from(setup, 2, s6));
    let s7 = store(s6, reg(Reg::R15), (s.regs)(Reg::RSI));
    assert(step(setup[2], s6) == Outcome::Next(s7));
    assert(run_from(setup, 2, s6) == run_from(setup, 3, s7));
    let s8 = store(s7, reg(Reg::R12), sp - 8);
    assert(step(setup[3], s7) == Outcome::Next(s8));
    assert(run_from(setup, 3, s7) == run_from(setup, 4, s8));
    assert(run_from(setup, 4, s8) == Outcome::Next(s8));
    assert forall|off: int| off < 8 * 3 && off % 8 == 0 implies (s8.mem)(
        (s8.regs)(Reg::RBP) - off,
    ) == #[trigger] (entry_cells(s).at)(off) by {}
}

/// The instructions after the main expression, but for the return.
pub open spec fn closing(frame: int) -> Seq<InstrView> {
    seq![InstrView::IAdd(reg(Reg::RSP), imm(frame)), InstrView::IPop(reg(Reg::RBP))]
}

/// What the code after the main expression does: it closes the frame and
/// restores the caller's frame pointer.
proof fn lemma_closing_runs(s: State, frame: int, sp: int, saved: int)
    requires
        (s.regs)(Reg::RSP) == sp - 8 - frame,
        in_word(sp),
        in_word(sp - 8),
        (s.mem)(sp - 8) == saved,
    ensures
        run(closing(frame), s) is Next,
        (run(closing(frame), s)->Next_0.regs)(Reg::RSP) == sp,
        (run(closing(frame), s)->Next_0.regs)(Reg::RBP) == saved,
        (run(closing(frame), s)->Next_0.regs)(Reg::RAX) == (s.regs)(Reg::RAX),
        run(closing(frame), s)->Next_0.printed == s.printed,
{
    let code = closing(frame);
    assert(code.len() == 2);
    lemma_wrap(sp - 8);
    lemma_wrap(sp);
    let s1 = arithmetic(s, reg(Reg::RSP), sp - 8);
    assert(step(code[0], s) == Outcome::Next(s1));
    assert(run_from(code, 0, s) == run_from(code, 1, s1));
    let s2 = popped(s1, Reg::RBP);
    assert(step(code[1], s1) == Outcome::Next(s2));
    assert(run_from(code, 1, s1) == run_from(code, 2, s2));
    assert(run_from(code, 2, s2) == Outcome::Next(s2));
}

/// What the run of the entry point gives, up to its return: the value of
/// the main expression in `RAX` and the words that it prints, one after
/// the other behind those printed before, with the stack pointer and the
/// frame pointer as they were; or a jump to the label of an error.
pub open spec fn comes_back(s: State, t: Outcome, expected: Evaluated) -> bool {
    match expected.answer {
        Answer::Word(v) => t matches Outcome::Next(u) && (u.regs)(Reg::RAX) == v && u.printed
            == expected.cells.printed && (u.regs)(Reg::RSP) == (s.regs)(Reg::RSP) && (u.regs)(
            Reg::RBP,
        ) == (s.regs)(Reg::RBP),
        Answer::Error(l) => t == Outcome::Trapped(l),
    }
}

/// The entry point of a program whose main expression is straight computes
/// the value of that expression.
///
/// Entered with the input in `RDI`, the code of the entry point runs up to
/// its return with the value of the main expression in `RAX`, where `input`
/// stands for the word in `RDI`, with the words printed that the expression
/// prints, and with the stack pointer and the frame pointer as they were at
/// entry; or it jumps to the label of the error that the expression raises.
pub proof fn lemma_entry_is_computed(
    main: ExprView,
    l: int,
    defs: Map<Seq<char>, Definition>,
    s: State,
)
    requires
        is_straight(main),
        entry_code(main, l, defs) is Ok,
        enterable(s, main),
    ensures
        comes_back(
            s,
            run(entry_code(main, l, defs)->Ok_0.drop_last(), s),
            value(main, 3, main_env(), entry_cells(s)),
        ),
{
    let frame = entry_frame(main);
    let code = entry_code(main, l, defs)->Ok_0;
    let body = emit(main, 3, main_env(), l, Seq::empty(), defs)->Ok_0;
    let first = prologue("our_code_starts_here"@, frame) + entry_setup();
    lemma_measures(main);
    assert(code == first + body + epilogue(frame));
    assert(code.drop_last() =~= first + body + closing(frame));
    lemma_run_concat(first + body, closing(frame), s);
    lemma_run_concat(first, body, s);
    lemma_prologue_runs(s, frame);
    let t1 = run(first, s)->Next_0;
    let c = entry_cells(s);
    assert(below(main_env(), 3));
    assert(room(t1, 3 + depth_spec(main)));
    lemma_straight_is_computed(main, 3, main_env(), l, Seq::empty(), defs, t1, c);
    let r = value(main, 3, main_env(), c);
    match r.answer {
        Answer::Word(v) => {
            let t2 = run(body, t1)->Next_0;
            assert(free(main_env(), 0));
            lemma_value_keeps(main, 3, main_env(), c, 0);
            let sp = (s.regs)(Reg::RSP);
            assert((t2.mem)((t2.regs)(Reg::RBP) - 0) == (r.cells.at)(0));
            lemma_closing_runs(t2, frame, sp, (s.regs)(Reg::RBP));
        },
        _ => {},
    }
}

} // verus!
