//! What expressions do that neither loop nor call a function nor touch the
//! heap: literals, variables, `let`, `set!`, `block`, `if` and the operators
//! other than `index`. Their value is given over the cells of the frame, by
//! the offsets that the environment and the compiler give the variables,
//! with the words that they print; and the emitted code computes that value
//! and prints those words.

use vstd::prelude::*;
use crate::ast::{Definition, ExprView, Op1, Op2};
use crate::codegen::{
    bindings_depth, bindings_env, bindings_labels, depth_spec, emit, emit_bindings, emit_seq,
    labels, seq_depth, seq_labels,
};
use crate::compiler::{
    lemma_bindings_grow, lemma_bindings_measures, lemma_measures, lemma_seq_grows,
    lemma_seq_measures,
};
use crate::emitter::SLOT_LIMIT;
use crate::decimal::{digit_char, int_text, nat_text};
use crate::fresh::{fresh, lemma_emit_fresh, lemma_numbered_differ, span};
use crate::instr::{InstrView, Reg};
use crate::machine::{
    find_label, in_word, is_trap, lemma_find_concat, lemma_found, lemma_run_concat, lemma_run_tail,
    run, run_from, run_then, shown, step, store, Outcome, State,
};
use crate::operators::{
    apply1, apply2, leaves, left, lemma_apply1_runs, lemma_apply2_runs, truth, Answer,
};
use crate::shapes::{
    binop_code, imm, label, numbered, reg, slot, spill, unop_code, var_cell,
};
use crate::tables::lookup;
use crate::value::{encode, FALSE_VAL, NIL_VAL};

verus! {

/// The cells of a frame, the word at each offset below the frame pointer,
/// and the words printed so far.
pub struct Cells {
    pub at: spec_fn(int) -> int,
    pub printed: Seq<int>,
}

/// The cells with `v` at the offset `off`.
pub open spec fn put(c: Cells, off: int, v: int) -> Cells {
    Cells {
        at: |o: int|
            if o == off {
                v
            } else {
                (c.at)(o)
            },
        printed: c.printed,
    }
}

/// The cells after the word `v` was printed.
pub open spec fn with_printed(c: Cells, v: int) -> Cells {
    Cells { at: c.at, printed: c.printed.push(v) }
}

/// Whether the code of an expression leaves the register `q` as it was:
/// the frame pointer, the stack pointer, and the two registers of the
/// heap.
pub open spec fn is_lasting(q: Reg) -> bool {
    q == Reg::RBP || q == Reg::RSP || q == Reg::R12 || q == Reg::R15
}

/// Whether the stack pointer of `s` lies at or below every slot under
/// `top`.
pub open spec fn room(s: State, top: int) -> bool {
    (s.regs)(Reg::RSP) <= (s.regs)(Reg::RBP) - 8 * (top - 1)
}

/// What the evaluation of an expression gives: its answer, and the cells
/// as the expression leaves them.
pub struct Evaluated {
    pub answer: Answer,
    pub cells: Cells,
}

/// Whether an expression is made of literals, variables, `let`, `set!`,
/// `block`, `if` and operators other than `index` alone.
pub open spec fn is_straight(e: ExprView) -> bool
    decreases e, 0nat,
{
    match e {
        ExprView::Number(_) => true,
        ExprView::Boolean(_) => true,
        ExprView::Id(_) => true,
        ExprView::UnOp(_, a) => is_straight(*a),
        ExprView::BinOp(op, a, b) => op != Op2::Index && is_straight(*a) && is_straight(*b),
        ExprView::Let(binds, body) => straight_bindings(binds, binds.len() as int) && is_straight(
            *body,
        ),
        ExprView::SetVar(_, a) => is_straight(*a),
        ExprView::Block(es) => es.len() > 0 && straight_all(es, es.len() as int),
        ExprView::If(c, t, a) => is_straight(*c) && is_straight(*t) && is_straight(*a),
        _ => false,
    }
}

/// Whether the first `n` of `es` are straight.
pub open spec fn straight_all(es: Seq<ExprView>, n: int) -> bool
    decreases es, n,
{
    if n <= 0 || n > es.len() {
        true
    } else {
        straight_all(es, n - 1) && is_straight(es[n - 1])
    }
}

/// Whether the first `n` bound expressions are straight.
pub open spec fn straight_bindings(binds: Seq<(Seq<char>, ExprView)>, n: int) -> bool
    decreases binds, n,
{
    if n <= 0 || n > binds.len() {
        true
    } else {
        straight_bindings(binds, n - 1) && is_straight(binds[n - 1].1)
    }
}

/// What a straight expression gives, evaluated from slot `si` on with the
/// variables at the offsets of `env` in the cells `c`.
///
/// A variable is read from its cell and `set!` writes it. `print` prints
/// the word of its operand and gives it back. An `if` gives
/// what its last part gives where its condition gives `false`, and what its
/// middle part gives on any other value. A binary operator
/// keeps its left operand in slot `si` while the right one is evaluated. A
/// `let` puts the value of binding `i` in slot `si + i`, where the bindings
/// after it and the body find it.
pub open spec fn value(e: ExprView, si: int, env: Map<Seq<char>, i64>, c: Cells) -> Evaluated
    decreases e, 0nat,
{
    match e {
        ExprView::Number(n) => Evaluated { answer: Answer::Word(encode(n as int)), cells: c },
        ExprView::Boolean(b) => Evaluated { answer: Answer::Word(truth(b)), cells: c },
        ExprView::Id(x) => Evaluated {
            answer: Answer::Word(
                if x == "nil"@ {
                    NIL_VAL as int
                } else {
                    (c.at)(env[x] as int)
                },
            ),
            cells: c,
        },
        ExprView::UnOp(op, a) => {
            let r = value(*a, si, env, c);
            match r.answer {
                Answer::Word(v) => Evaluated {
                    answer: apply1(op, v),
                    cells: if op == Op1::Print {
                        with_printed(r.cells, v)
                    } else {
                        r.cells
                    },
                },
                _ => r,
            }
        },
        ExprView::BinOp(op, a, b) => {
            let ra = value(*a, si, env, c);
            match ra.answer {
                Answer::Word(x) => {
                    let rb = value(*b, si + 1, env, put(ra.cells, 8 * si, x));
                    match rb.answer {
                        Answer::Word(y) => Evaluated { answer: apply2(op, x, y), cells: rb.cells },
                        _ => rb,
                    }
                },
                _ => ra,
            }
        },
        ExprView::Let(binds, body) => {
            let rb = value_bindings(binds, binds.len() as int, si, env, c);
            match rb.answer {
                Answer::Word(_) => value(
                    *body,
                    si + binds.len(),
                    bindings_env(binds, binds.len() as int, si, env),
                    rb.cells,
                ),
                _ => rb,
            }
        },
        ExprView::SetVar(x, a) => {
            let r = value(*a, si, env, c);
            match r.answer {
                Answer::Word(v) => Evaluated {
                    answer: Answer::Word(v),
                    cells: if env.dom().contains(x) {
                        put(r.cells, env[x] as int, v)
                    } else {
                        r.cells
                    },
                },
                _ => r,
            }
        },
        ExprView::Block(es) => value_seq(es, es.len() as int, si, env, c),
        ExprView::If(cond, t, a) => {
            let r = value(*cond, si, env, c);
            match r.answer {
                Answer::Word(w) => if w == FALSE_VAL {
                    value(*a, si, env, r.cells)
                } else {
                    value(*t, si, env, r.cells)
                },
                _ => r,
            }
        },
        _ => Evaluated { answer: Answer::Word(0), cells: c },
    }
}

/// What the first `n` expressions of a block give: the answer of the last
/// of them, or the first error.
pub open spec fn value_seq(
    es: Seq<ExprView>,
    n: int,
    si: int,
    env: Map<Seq<char>, i64>,
    c: Cells,
) -> Evaluated
    decreases es, n,
{
    if n <= 0 || n > es.len() {
        Evaluated { answer: Answer::Word(0), cells: c }
    } else {
        let before = value_seq(es, n - 1, si, env, c);
        match before.answer {
            Answer::Word(_) => value(es[n - 1], si, env, before.cells),
            _ => before,
        }
    }
}

/// What the first `n` bindings of a `let` give: the cells with the value of
/// each binding in its slot, or the first error.
pub open spec fn value_bindings(
    binds: Seq<(Seq<char>, ExprView)>,
    n: int,
    si: int,
    env: Map<Seq<char>, i64>,
    c: Cells,
) -> Evaluated
    decreases binds, n,
{
    if n <= 0 || n > binds.len() {
        Evaluated { answer: Answer::Word(0), cells: c }
    } else {
        let before = value_bindings(binds, n - 1, si, env, c);
        match before.answer {
            Answer::Word(_) => {
                let r = value(
                    binds[n - 1].1,
                    si + n - 1,
                    bindings_env(binds, n - 1, si, env),
                    before.cells,
                );
                match r.answer {
                    Answer::Word(v) => Evaluated {
                        answer: Answer::Word(v),
                        cells: put(r.cells, 8 * (si + n - 1), v),
                    },
                    _ => r,
                }
            },
            _ => before,
        }
    }
}

/// Whether every variable of `env` lies in a word below slot `si`.
pub open spec fn below(env: Map<Seq<char>, i64>, si: int) -> bool {
    forall|x: Seq<char>|
        env.dom().contains(x) ==> (#[trigger] env[x]) < 8 * si && env[x] % 8 == 0
}

/// Whether no variable of `env` lies at the offset `off`.
pub open spec fn free(env: Map<Seq<char>, i64>, off: int) -> bool {
    forall|x: Seq<char>| env.dom().contains(x) ==> (#[trigger] env[x]) != off
}

/// Whether every cell holds a word.
pub open spec fn words(c: Cells) -> bool {
    forall|off: int| in_word(#[trigger] (c.at)(off))
}

/// Whether the words of the memory of `s` below slot `si` hold the cells
/// `c`, and the words printed in `s` are those of `c`.
pub open spec fn agrees(s: State, c: Cells, si: int) -> bool {
    &&& forall|off: int|
        off < 8 * si && off % 8 == 0 ==> (s.mem)((s.regs)(Reg::RBP) - off) == #[trigger] (c.at)(
            off,
        )
    &&& s.printed == c.printed
}

/// The environment of the bindings of a `let` holds its variables below
/// the slots of the bindings, and none at an offset below slot `si` where
/// the environment around it holds none.
pub proof fn lemma_bindings_env(
    binds: Seq<(Seq<char>, ExprView)>,
    n: int,
    si: int,
    env: Map<Seq<char>, i64>,
    off: int,
)
    requires
        0 <= n <= binds.len(),
        0 <= si,
        si + n <= SLOT_LIMIT,
    ensures
        below(env, si) ==> below(bindings_env(binds, n, si, env), si + n),
        free(env, off) && off < 8 * si ==> free(bindings_env(binds, n, si, env), off),
    decreases n,
{
    if n > 0 {
        lemma_bindings_env(binds, n - 1, si, env, off);
        let before = bindings_env(binds, n - 1, si, env);
        let at = ((si + n - 1) * 8) as i64;
        assert(at == (si + n - 1) * 8);
        let after = bindings_env(binds, n, si, env);
        assert(after == before.insert(binds[n - 1].0, at));
        if below(env, si) {
            assert forall|x: Seq<char>| after.dom().contains(x) implies (#[trigger] after[x]) < 8
                * (si + n) && after[x] % 8 == 0 by {
                if x != binds[n - 1].0 {
                    assert(before.dom().contains(x));
                    assert(before[x] < 8 * (si + n - 1));
                }
            }
        }
        if free(env, off) && off < 8 * si {
            assert forall|x: Seq<char>| after.dom().contains(x) implies (#[trigger] after[x])
                != off by {
                if x != binds[n - 1].0 {
                    assert(before.dom().contains(x));
                    assert(before[x] != off);
                }
            }
        }
    }
}

/// An evaluation leaves the cells below slot `si` that hold no variable as
/// they were.
pub proof fn lemma_value_keeps(
    e: ExprView,
    si: int,
    env: Map<Seq<char>, i64>,
    c: Cells,
    off: int,
)
    requires
        is_straight(e),
        0 <= si,
        si + depth_spec(e) <= SLOT_LIMIT,
        off < 8 * si,
        free(env, off),
    ensures
        (value(e, si, env, c).cells.at)(off) == (c.at)(off),
    decreases e, 0nat,
{
    lemma_measures(e);
    match e {
        ExprView::UnOp(op, a) => {
            lemma_value_keeps(*a, si, env, c, off);
        },
        ExprView::BinOp(op, a, b) => {
            lemma_measures(*a);
            lemma_measures(*b);
            lemma_value_keeps(*a, si, env, c, off);
            let ra = value(*a, si, env, c);
            match ra.answer {
                Answer::Word(x) => {
                    lemma_value_keeps(*b, si + 1, env, put(ra.cells, 8 * si, x), off);
                },
                _ => {},
            }
        },
        ExprView::Let(binds, body) => {
            let n = binds.len() as int;
            lemma_bindings_measures(binds, n);
            lemma_measures(*body);
            lemma_bindings_keep(binds, n, si, env, c, off);
            lemma_bindings_env(binds, n, si, env, off);
            let rb = value_bindings(binds, n, si, env, c);
            lemma_value_keeps(*body, si + n, bindings_env(binds, n, si, env), rb.cells, off);
        },
        ExprView::SetVar(x, a) => {
            lemma_value_keeps(*a, si, env, c, off);
        },
        ExprView::Block(es) => {
            lemma_seq_keeps(es, es.len() as int, si, env, c, off);
        },
        ExprView::If(cond, t, a) => {
            lemma_measures(*cond);
            lemma_measures(*t);
            lemma_measures(*a);
            lemma_value_keeps(*cond, si, env, c, off);
            let r = value(*cond, si, env, c);
            lemma_value_keeps(*t, si, env, r.cells, off);
            lemma_value_keeps(*a, si, env, r.cells, off);
        },
        _ => {},
    }
}

/// The expressions of a block leave the cells below slot `si` that hold no
/// variable as they were.
pub proof fn lemma_seq_keeps(
    es: Seq<ExprView>,
    n: int,
    si: int,
    env: Map<Seq<char>, i64>,
    c: Cells,
    off: int,
)
    requires
        straight_all(es, n),
        0 <= n <= es.len(),
        0 <= si,
        si + seq_depth(es, n) <= SLOT_LIMIT,
        off < 8 * si,
        free(env, off),
    ensures
        (value_seq(es, n, si, env, c).cells.at)(off) == (c.at)(off),
    decreases es, n,
{
    if n > 0 {
        lemma_seq_grows(es, n - 1, n);
        lemma_seq_measures(es, n - 1);
        lemma_seq_keeps(es, n - 1, si, env, c, off);
        lemma_value_keeps(es[n - 1], si, env, value_seq(es, n - 1, si, env, c).cells, off);
    }
}

/// The bindings of a `let` leave the cells below slot `si` that hold no
/// variable as they were.
pub proof fn lemma_bindings_keep(
    binds: Seq<(Seq<char>, ExprView)>,
    n: int,
    si: int,
    env: Map<Seq<char>, i64>,
    c: Cells,
    off: int,
)
    requires
        straight_bindings(binds, n),
        0 <= n <= binds.len(),
        0 <= si,
        si + n + bindings_depth(binds, n) <= SLOT_LIMIT,
        off < 8 * si,
        free(env, off),
    ensures
        (value_bindings(binds, n, si, env, c).cells.at)(off) == (c.at)(off),
    decreases binds, n,
{
    if n > 0 {
        lemma_bindings_grow(binds, n - 1, n);
        lemma_bindings_measures(binds, n - 1);
        lemma_measures(binds[n - 1].1);
        lemma_bindings_keep(binds, n - 1, si, env, c, off);
        lemma_bindings_env(binds, n - 1, si, env, off);
        lemma_value_keeps(
            binds[n - 1].1,
            si + n - 1,
            bindings_env(binds, n - 1, si, env),
            value_bindings(binds, n - 1, si, env, c).cells,
            off,
        );
    }
}

/// What the run of a piece of code gives, against what an evaluation
/// gives: the answer in `RAX`, the cells below slot `si` in memory and
/// the printed words as the evaluation leaves them, with the frame pointer,
/// the stack pointer and the registers of the heap as they were; or a jump
/// to the label of the error.
pub open spec fn computes(s: State, t: Outcome, r: Evaluated, si: int) -> bool {
    match r.answer {
        Answer::Word(v) => {
            &&& in_word(v)
            &&& words(r.cells)
            &&& t matches Outcome::Next(u) && (u.regs)(Reg::RAX) == v && agrees(u, r.cells, si)
                && forall|q: Reg| is_lasting(q) ==> #[trigger] (u.regs)(q) == (s.regs)(q)
        },
        Answer::Error(l) => t == Outcome::Trapped(l),
    }
}

/// What a single move into `RAX` does.
proof fn lemma_load_runs(code: Seq<InstrView>, s: State, v: int, c: Cells, si: int)
    requires
        code.len() == 1,
        step(code[0], s) == Outcome::Next(store(s, reg(Reg::RAX), v)),
        in_word(v),
        words(c),
        agrees(s, c, si),
    ensures
        computes(s, run(code, s), Evaluated { answer: Answer::Word(v), cells: c }, si),
{
    let t = store(s, reg(Reg::RAX), v);
    assert(run_from(code, 0, s) == run_from(code, 1, t));
    assert(run_from(code, 1, t) == Outcome::Next(t));
}

/// The code of a straight expression computes what the expression gives.
///
/// Run from a state whose memory below slot `si` holds the cells `c`, with
/// every variable of the environment below slot `si`, the code leaves in
/// `RAX` the word that the expression gives and in memory the cells as the
/// expression leaves them; or it jumps to the label of the error that the
/// expression raises.
pub proof fn lemma_straight_is_computed(
    e: ExprView,
    si: int,
    env: Map<Seq<char>, i64>,
    l: int,
    target: Seq<char>,
    defs: Map<Seq<char>, Definition>,
    s: State,
    c: Cells,
)
    requires
        is_straight(e),
        emit(e, si, env, l, target, defs) is Ok,
        0 <= si,
        si + depth_spec(e) <= SLOT_LIMIT,
        room(s, si + depth_spec(e)),
        below(env, si),
        words(c),
        agrees(s, c, si),
    ensures
        computes(
            s,
            run(emit(e, si, env, l, target, defs)->Ok_0, s),
            value(e, si, env, c),
            si,
        ),
    decreases e, 1nat,
{
    match e {
        ExprView::UnOp(_, _) => lemma_unop_is_computed(e, si, env, l, target, defs, s, c),
        ExprView::BinOp(_, _, _) => lemma_binop_is_computed(e, si, env, l, target, defs, s, c),
        ExprView::Let(_, _) => lemma_let_is_computed(e, si, env, l, target, defs, s, c),
        ExprView::SetVar(_, _) => lemma_set_is_computed(e, si, env, l, target, defs, s, c),
        ExprView::If(_, _, _) => lemma_if_is_computed(e, si, env, l, target, defs, s, c),
        ExprView::Block(es) => {
            lemma_measures(e);
            lemma_seq_is_computed(es, es.len() as int, si, env, l, target, defs, s, c);
        },
        _ => lemma_atom_is_computed(e, si, env, l, target, defs, s, c),
    }
}

/// The code of a literal or of a variable loads its word.
proof fn lemma_atom_is_computed(
    e: ExprView,
    si: int,
    env: Map<Seq<char>, i64>,
    l: int,
    target: Seq<char>,
    defs: Map<Seq<char>, Definition>,
    s: State,
    c: Cells,
)
    requires
        is_straight(e),
        emit(e, si, env, l, target, defs) is Ok,
        0 <= si,
        si + depth_spec(e) <= SLOT_LIMIT,
        room(s, si + depth_spec(e)),
        below(env, si),
        words(c),
        agrees(s, c, si),
        e is Number || e is Boolean || e is Id,
    ensures
        computes(
            s,
            run(emit(e, si, env, l, target, defs)->Ok_0, s),
            value(e, si, env, c),
            si,
        ),
{
    let code = emit(e, si, env, l, target, defs)->Ok_0;
    match e {
        ExprView::Number(n) => {
            lemma_load_runs(code, s, encode(n as int), c, si);
        },
        ExprView::Boolean(b) => {
            lemma_load_runs(code, s, truth(b), c, si);
        },
        ExprView::Id(x) => {
            if x == "nil"@ {
                lemma_load_runs(code, s, NIL_VAL as int, c, si);
            } else {
                assert(env.dom().contains(x));
                assert(code.len() == 1);
                assert((c.at)(env[x] as int) == (s.mem)((s.regs)(Reg::RBP) - env[x]));
                lemma_load_runs(code, s, (c.at)(env[x] as int), c, si);
            }
        },
        _ => {},
    }
}

/// The code of a unary operator computes what the operator gives.
proof fn lemma_unop_is_computed(
    e: ExprView,
    si: int,
    env: Map<Seq<char>, i64>,
    l: int,
    target: Seq<char>,
    defs: Map<Seq<char>, Definition>,
    s: State,
    c: Cells,
)
    requires
        is_straight(e),
        emit(e, si, env, l, target, defs) is Ok,
        0 <= si,
        si + depth_spec(e) <= SLOT_LIMIT,
        room(s, si + depth_spec(e)),
        below(env, si),
        words(c),
        agrees(s, c, si),
        e is UnOp,
    ensures
        computes(
            s,
            run(emit(e, si, env, l, target, defs)->Ok_0, s),
            value(e, si, env, c),
            si,
        ),
    decreases e, 0nat,
{
    let code = emit(e, si, env, l, target, defs)->Ok_0;
    match e {
        ExprView::UnOp(op, a) => {
            let ca = emit(*a, si, env, l, target, defs)->Ok_0;
            assert(code == ca + unop_code(op));
            lemma_straight_is_computed(*a, si, env, l, target, defs, s, c);
            lemma_run_concat(ca, unop_code(op), s);
            let r = value(*a, si, env, c);
            match r.answer {
                Answer::Word(v) => {
                    let t = run(ca, s)->Next_0;
                    if op == Op1::Print {
                        lemma_measures(e);
                        lemma_print_runs(t, v, r.cells, si);
                    } else {
                        lemma_apply1_runs(op, t);
                        lemma_answer_fits1(op, v);
                    }
                },
                _ => {},
            }
        },
        _ => {},
    }
}

/// The code of `print` hands the word in `RAX` to the routine that prints,
/// which gives it back and leaves the frame as it was.
proof fn lemma_print_runs(s: State, v: int, c: Cells, si: int)
    requires
        (s.regs)(Reg::RAX) == v,
        0 <= si,
        room(s, si),
        agrees(s, c, si),
    ensures
        run(unop_code(Op1::Print), s) is Next,
        (run(unop_code(Op1::Print), s)->Next_0.regs)(Reg::RAX) == v,
        agrees(run(unop_code(Op1::Print), s)->Next_0, with_printed(c, v), si),
        forall|q: Reg|
            is_lasting(q) ==> #[trigger] (run(unop_code(Op1::Print), s)->Next_0.regs)(q) == (
            s.regs)(q),
{
    let code = unop_code(Op1::Print);
    assert(code.len() == 2);
    let s1 = store(s, reg(Reg::RDI), v);
    assert(step(code[0], s) == Outcome::Next(s1));
    assert(run_from(code, 0, s) == run_from(code, 1, s1));
    let s2 = shown(s1);
    assert(step(code[1], s1) == Outcome::Next(s2));
    assert(run_from(code, 1, s1) == run_from(code, 2, s2));
    assert(run_from(code, 2, s2) == Outcome::Next(s2));
    assert forall|off: int| off < 8 * si && off % 8 == 0 implies (s2.mem)(
        (s2.regs)(Reg::RBP) - off,
    ) == #[trigger] (c.at)(off) by {
        assert((s.mem)((s.regs)(Reg::RBP) - off) == (c.at)(off));
    }
}

/// The code of a binary operator computes what the operator gives.
proof fn lemma_binop_is_computed(
    e: ExprView,
    si: int,
    env: Map<Seq<char>, i64>,
    l: int,
    target: Seq<char>,
    defs: Map<Seq<char>, Definition>,
    s: State,
    c: Cells,
)
    requires
        is_straight(e),
        emit(e, si, env, l, target, defs) is Ok,
        0 <= si,
        si + depth_spec(e) <= SLOT_LIMIT,
        room(s, si + depth_spec(e)),
        below(env, si),
        words(c),
        agrees(s, c, si),
        e is BinOp,
    ensures
        computes(
            s,
            run(emit(e, si, env, l, target, defs)->Ok_0, s),
            value(e, si, env, c),
            si,
        ),
    decreases e, 0nat,
{
    let code = emit(e, si, env, l, target, defs)->Ok_0;
    match e {
        ExprView::BinOp(op, a, b) => {
            lemma_measures(*a);
            lemma_measures(*b);
            let ca = emit(*a, si, env, l, target, defs)->Ok_0;
            let cb = emit(*b, si + 1, env, l + labels(*a), target, defs)->Ok_0;
            assert(code == (ca + spill(si)) + (cb + binop_code(op, si)));
            lemma_straight_is_computed(*a, si, env, l, target, defs, s, c);
            lemma_run_concat(ca + spill(si), cb + binop_code(op, si), s);
            lemma_run_concat(ca, spill(si), s);
            let ra = value(*a, si, env, c);
            match ra.answer {
                Answer::Word(x) => {
                    let t1 = run(ca, s)->Next_0;
                    let c2 = put(ra.cells, 8 * si, x);
                    lemma_spill_runs(si, t1, x, ra.cells);
                    let t2 = run(spill(si), t1)->Next_0;
                    lemma_straight_is_computed(
                        *b,
                        si + 1,
                        env,
                        l + labels(*a),
                        target,
                        defs,
                        t2,
                        c2,
                    );
                    lemma_run_concat(cb, binop_code(op, si), t2);
                    let rb = value(*b, si + 1, env, c2);
                    match rb.answer {
                        Answer::Word(y) => {
                            let t3 = run(cb, t2)->Next_0;
                            assert(free(env, 8 * si));
                            lemma_value_keeps(*b, si + 1, env, c2, 8 * si);
                            assert((rb.cells.at)(8 * si) == x);
                            assert((t3.mem)((t3.regs)(Reg::RBP) - 8 * si) == x);
                            lemma_apply2_runs(op, si, t3, x, y);
                            lemma_answer_fits2(op, x, y);
                            lemma_operator_leaves(t2, t3, run(binop_code(op, si), t3), rb.cells, si);
                        },
                        _ => {},
                    }
                },
                _ => {},
            }
        },
        _ => {},
    }
}

/// The instruction that keeps a value stores it in slot `si`, which then
/// counts among the cells.
proof fn lemma_spill_runs(si: int, s: State, x: int, c: Cells)
    requires
        (s.regs)(Reg::RAX) == x,
        in_word(x),
        words(c),
        agrees(s, c, si),
    ensures
        run(spill(si), s) is Next,
        words(put(c, 8 * si, x)),
        agrees(run(spill(si), s)->Next_0, put(c, 8 * si, x), si + 1),
        forall|q: Reg| #[trigger] (run(spill(si), s)->Next_0.regs)(q) == (s.regs)(q),
{
    let keep = spill(si);
    assert(keep.len() == 1);
    let t = store(s, slot(si), x);
    assert(step(keep[0], s) == Outcome::Next(t));
    assert(run_from(keep, 0, s) == run_from(keep, 1, t));
    assert(run_from(keep, 1, t) == Outcome::Next(t));
    assert forall|off: int| off < 8 * (si + 1) && off % 8 == 0 implies (t.mem)(
        (t.regs)(Reg::RBP) - off,
    ) == #[trigger] (put(c, 8 * si, x).at)(off) by {
        if off != 8 * si {
            assert(off < 8 * si);
            assert((s.mem)((s.regs)(Reg::RBP) - off) == (c.at)(off));
        }
    }
}

/// An operator that leaves the memory above slot `si` as it was leaves the
/// cells below slot `si` as they were.
proof fn lemma_operator_leaves(s: State, t: State, u: Outcome, c: Cells, si: int)
    requires
        agrees(t, c, si + 1),
        (t.regs)(Reg::RBP) == (s.regs)(Reg::RBP),
        u matches Outcome::Next(w) ==> (w.regs)(Reg::RBP) == (t.regs)(Reg::RBP) && w.printed
            == t.printed && forall|a: int|
            a > (t.regs)(Reg::RBP) - 8 * si ==> #[trigger] (w.mem)(a) == (t.mem)(a),
    ensures
        u matches Outcome::Next(w) ==> agrees(w, c, si),
{
    match u {
        Outcome::Next(w) => {
            assert forall|off: int| off < 8 * si && off % 8 == 0 implies (w.mem)(
                (w.regs)(Reg::RBP) - off,
            ) == #[trigger] (c.at)(off) by {
                assert((t.mem)((t.regs)(Reg::RBP) - off) == (c.at)(off));
            }
        },
        _ => {},
    }
}

/// The code of a `let` computes what the `let` gives.
proof fn lemma_let_is_computed(
    e: ExprView,
    si: int,
    env: Map<Seq<char>, i64>,
    l: int,
    target: Seq<char>,
    defs: Map<Seq<char>, Definition>,
    s: State,
    c: Cells,
)
    requires
        is_straight(e),
        emit(e, si, env, l, target, defs) is Ok,
        0 <= si,
        si + depth_spec(e) <= SLOT_LIMIT,
        room(s, si + depth_spec(e)),
        below(env, si),
        words(c),
        agrees(s, c, si),
        e is Let,
    ensures
        computes(
            s,
            run(emit(e, si, env, l, target, defs)->Ok_0, s),
            value(e, si, env, c),
            si,
        ),
    decreases e, 0nat,
{
    let code = emit(e, si, env, l, target, defs)->Ok_0;
    lemma_measures(e);
    match e {
        ExprView::Let(binds, body) => {
            let n = binds.len() as int;
            lemma_bindings_measures(binds, n);
            lemma_measures(*body);
            let cb = emit_bindings(binds, n, si, env, l, target, defs)->Ok_0;
            let inner = bindings_env(binds, n, si, env);
            let mid = l + bindings_labels(binds, n);
            let cbody = emit(*body, si + n, inner, mid, target, defs)->Ok_0;
            assert(code == cb + cbody);
            lemma_bindings_are_computed(binds, n, si, env, l, target, defs, s, c);
            lemma_run_concat(cb, cbody, s);
            lemma_bindings_env(binds, n, si, env, 0);
            let rb = value_bindings(binds, n, si, env, c);
            match rb.answer {
                Answer::Word(_) => {
                    let t1 = run(cb, s)->Next_0;
                    lemma_straight_is_computed(*body, si + n, inner, mid, target, defs, t1, rb.cells);
                    let r = value(*body, si + n, inner, rb.cells);
                    match run(cbody, t1) {
                        Outcome::Next(t2) => {
                            if r.answer is Word {
                                lemma_agrees_below(t2, r.cells, si + n, si);
                            }
                        },
                        _ => {},
                    }
                },
                _ => {},
            }
        },
        _ => {},
    }
}

/// Memory that holds the cells below a slot holds them below every slot
/// before it.
proof fn lemma_agrees_below(s: State, c: Cells, above: int, si: int)
    requires
        agrees(s, c, above),
        si <= above,
    ensures
        agrees(s, c, si),
{
}

/// A numbered label is the label of no error.
pub proof fn lemma_numbered_no_trap(p: Seq<char>, n: int)
    ensures
        !is_trap(numbered(p, n)),
{
    reveal_strlit("_");
    reveal_strlit("not_bool_err");
    reveal_strlit("not_num_err");
    reveal_strlit("invalid_arg_err");
    reveal_strlit("overflow_err");
    reveal_strlit("not_tuple_err");
    reveal_strlit("out_of_bounds_err");
    reveal_strlit("nil_deref_err");
    let name = numbered(p, n);
    let digits = int_text(n);
    lemma_ends_in_digit(n);
    assert(name.len() == p.len() + 1 + digits.len());
    assert(name.last() == digits.last());
}

/// The text of an integer ends in a digit.
proof fn lemma_ends_in_digit(n: int)
    ensures
        int_text(n).len() > 0,
        int_text(n).last() != 'r',
{
    let m = if n < 0 {
        (-n) as nat
    } else {
        n as nat
    };
    let digits = nat_text(m);
    assert(digits.len() > 0 && digits.last() != 'r') by {
        if m >= 10 {
            assert(digits == nat_text(m / 10).push(digit_char((m % 10) as int)));
        }
    }
    if n < 0 {
        assert(int_text(n).last() == digits.last());
    }
}

/// A label whose number is none of the numbers of the fresh labels of a
/// piece of code is not defined in that code.
pub proof fn lemma_not_defined(code: Seq<InstrView>, numbers: Set<int>, p: Seq<char>, n: int)
    requires
        fresh(code, numbers),
        !numbers.contains(n),
    ensures
        find_label(code, numbered(p, n), 0) is None,
{
    lemma_found(code, numbered(p, n), 0);
    match find_label(code, numbered(p, n), 0) {
        Some(j) => {
            let (q, m) = choose|q: Seq<char>, m: int|
                numbers.contains(m) && code[j] == InstrView::ILabel(#[trigger] numbered(q, m));
            lemma_numbered_differ(p, n, q, m);
        },
        None => {},
    }
}

/// The instructions between the condition and the middle part of an `if`.
pub open spec fn if_test(l: int) -> Seq<InstrView> {
    seq![
        InstrView::ICmp(reg(Reg::RAX), imm(FALSE_VAL as int)),
        InstrView::IJe(label(numbered("if_else"@, l + 1))),
    ]
}

/// The instructions between the middle part and the last part of an `if`.
pub open spec fn if_middle(l: int) -> Seq<InstrView> {
    seq![
        InstrView::IJmp(label(numbered("if_end"@, l))),
        InstrView::ILabel(numbered("if_else"@, l + 1)),
    ]
}

/// The instruction after the last part of an `if`.
pub open spec fn if_end(l: int) -> Seq<InstrView> {
    seq![InstrView::ILabel(numbered("if_end"@, l))]
}

/// What the test of an `if` does: it goes on where the condition gave a
/// value other than `false`, and jumps to the last part where it gave
/// `false`.
proof fn lemma_if_test_runs(l: int, s: State)
    ensures
        run(if_test(l), s) == if (s.regs)(Reg::RAX) == FALSE_VAL {
            Outcome::Jumped(
                numbered("if_else"@, l + 1),
                State { left: (s.regs)(Reg::RAX), right: FALSE_VAL as int, ..s },
            )
        } else {
            Outcome::Next(State { left: (s.regs)(Reg::RAX), right: FALSE_VAL as int, ..s })
        },
{
    let code = if_test(l);
    assert(code.len() == 2);
    lemma_numbered_no_trap("if_else"@, l + 1);
    let s1 = State { left: (s.regs)(Reg::RAX), right: FALSE_VAL as int, ..s };
    assert(step(code[0], s) == Outcome::Next(s1));
    assert(run_from(code, 0, s) == run_from(code, 1, s1));
    if (s.regs)(Reg::RAX) == FALSE_VAL {
        assert(step(code[1], s1) == Outcome::Jumped(numbered("if_else"@, l + 1), s1));
        assert(find_label(code, numbered("if_else"@, l + 1), 2) is None);
    } else {
        assert(step(code[1], s1) == Outcome::Next(s1));
        assert(run_from(code, 1, s1) == run_from(code, 2, s1));
        assert(run_from(code, 2, s1) == Outcome::Next(s1));
    }
}

/// What the end of the middle part of an `if` does: it jumps over the last
/// part to the end of the `if`.
proof fn lemma_if_skips(alt: Seq<InstrView>, numbers: Set<int>, l: int, s: State)
    requires
        fresh(alt, numbers),
        !numbers.contains(l),
    ensures
        run(if_middle(l) + (alt + if_end(l)), s) == Outcome::Next(s),
{
    let middle = if_middle(l);
    let rest = alt + if_end(l);
    let code = middle + rest;
    let end = numbered("if_end"@, l);
    lemma_numbered_no_trap("if_end"@, l);
    assert(code[0] == middle[0]);
    assert(step(code[0], s) == Outcome::Jumped(end, s));
    lemma_find_concat(middle, rest, end, 1);
    assert(middle.len() == 2);
    assert(find_label(middle, end, 1) is None) by {
        if middle[1] == InstrView::ILabel(end) {
            lemma_numbered_differ("if_else"@, l + 1, "if_end"@, l);
        }
        assert(find_label(middle, end, 2) is None);
    }
    lemma_find_concat(alt, if_end(l), end, 0);
    lemma_not_defined(alt, numbers, "if_end"@, l);
    assert(if_end(l).len() == 1);
    assert(find_label(if_end(l), end, 0) == Some(0int));
    assert(find_label(code, end, 1) == Some(2 + alt.len() as int));
    assert(code.len() == 2 + alt.len() + 1);
    assert(run_from(code, 2 + alt.len() as int + 1, s) == Outcome::Next(s));
}

/// What the last part of an `if` does, entered at its label: what its code
/// does.
proof fn lemma_if_lands(
    then_part: Seq<InstrView>,
    numbers: Set<int>,
    alt: Seq<InstrView>,
    l: int,
    s: State,
)
    requires
        fresh(then_part, numbers),
        !numbers.contains(l + 1),
    ensures
        run_then(
            Outcome::Jumped(numbered("if_else"@, l + 1), s),
            then_part + (if_middle(l) + (alt + if_end(l))),
        ) == run(alt + if_end(l), s),
{
    let middle = if_middle(l);
    let rest = alt + if_end(l);
    let tail = middle + rest;
    let code = then_part + tail;
    let name = numbered("if_else"@, l + 1);
    lemma_find_concat(then_part, tail, name, 0);
    lemma_not_defined(then_part, numbers, "if_else"@, l + 1);
    lemma_find_concat(middle, rest, name, 0);
    assert(middle.len() == 2);
    assert(find_label(middle, name, 0) == Some(1int)) by {
        assert(find_label(middle, name, 1) == Some(1int));
    }
    assert(find_label(code, name, 0) == Some(then_part.len() as int + 1));
    assert(code == (then_part + middle) + rest);
    lemma_run_tail(then_part + middle, rest, 0, s);
}

/// The code of an `if` computes what the `if` gives.
proof fn lemma_if_is_computed(
    e: ExprView,
    si: int,
    env: Map<Seq<char>, i64>,
    l: int,
    target: Seq<char>,
    defs: Map<Seq<char>, Definition>,
    s: State,
    c: Cells,
)
    requires
        is_straight(e),
        emit(e, si, env, l, target, defs) is Ok,
        0 <= si,
        si + depth_spec(e) <= SLOT_LIMIT,
        room(s, si + depth_spec(e)),
        below(env, si),
        words(c),
        agrees(s, c, si),
        e is If,
    ensures
        computes(
            s,
            run(emit(e, si, env, l, target, defs)->Ok_0, s),
            value(e, si, env, c),
            si,
        ),
    decreases e, 0nat,
{
    let code = emit(e, si, env, l, target, defs)->Ok_0;
    lemma_measures(e);
    match e {
        ExprView::If(cond, t, a) => {
            lemma_measures(*cond);
            lemma_measures(*t);
            lemma_measures(*a);
            let x = l + 2 + labels(*cond);
            let y = x + labels(*t);
            let cc = emit(*cond, si, env, l + 2, target, defs)->Ok_0;
            let ct = emit(*t, si, env, x, target, defs)->Ok_0;
            let ca = emit(*a, si, env, y, target, defs)->Ok_0;
            let rest3 = if_middle(l) + (ca + if_end(l));
            let rest2 = ct + rest3;
            let rest1 = if_test(l) + rest2;
            assert(code =~= cc + rest1);
            lemma_emit_fresh(*t, si, env, x, target, defs);
            lemma_emit_fresh(*a, si, env, y, target, defs);
            lemma_straight_is_computed(*cond, si, env, l + 2, target, defs, s, c);
            lemma_run_concat(cc, rest1, s);
            let r = value(*cond, si, env, c);
            match r.answer {
                Answer::Word(w) => {
                    let t1 = run(cc, s)->Next_0;
                    lemma_run_concat(if_test(l), rest2, t1);
                    lemma_if_test_runs(l, t1);
                    let t2 = State { left: w, right: FALSE_VAL as int, ..t1 };
                    assert(agrees(t2, r.cells, si));
                    if w == FALSE_VAL {
                        lemma_if_lands(ct, span(x, y), ca, l, t2);
                        lemma_run_concat(ca, if_end(l), t2);
                        lemma_straight_is_computed(*a, si, env, y, target, defs, t2, r.cells);
                        match run(ca, t2) {
                            Outcome::Next(t3) => {
                                let end = if_end(l);
                                assert(end.len() == 1);
                                assert(step(end[0], t3) == Outcome::Next(t3));
                                assert(run_from(end, 0, t3) == run_from(end, 1, t3));
                                assert(run_from(end, 1, t3) == Outcome::Next(t3));
                            },
                            _ => {},
                        }
                    } else {
                        lemma_run_concat(ct, rest3, t2);
                        lemma_straight_is_computed(*t, si, env, x, target, defs, t2, r.cells);
                        match run(ct, t2) {
                            Outcome::Next(t3) => {
                                lemma_if_skips(ca, span(y, y + labels(*a)), l, t3);
                            },
                            _ => {},
                        }
                    }
                },
                _ => {},
            }
        },
        _ => {},
    }
}

/// The code of `set!` computes the value and stores it in the cell of the
/// variable.
proof fn lemma_set_is_computed(
    e: ExprView,
    si: int,
    env: Map<Seq<char>, i64>,
    l: int,
    target: Seq<char>,
    defs: Map<Seq<char>, Definition>,
    s: State,
    c: Cells,
)
    requires
        is_straight(e),
        emit(e, si, env, l, target, defs) is Ok,
        0 <= si,
        si + depth_spec(e) <= SLOT_LIMIT,
        room(s, si + depth_spec(e)),
        below(env, si),
        words(c),
        agrees(s, c, si),
        e is SetVar,
    ensures
        computes(
            s,
            run(emit(e, si, env, l, target, defs)->Ok_0, s),
            value(e, si, env, c),
            si,
        ),
    decreases e, 0nat,
{
    let code = emit(e, si, env, l, target, defs)->Ok_0;
    match e {
        ExprView::SetVar(x, a) => {
            let ca = emit(*a, si, env, l, target, defs)->Ok_0;
            assert(env.dom().contains(x));
            let assign = seq![InstrView::IMov(var_cell(env[x]), reg(Reg::RAX))];
            assert(code == ca + assign);
            lemma_straight_is_computed(*a, si, env, l, target, defs, s, c);
            lemma_run_concat(ca, assign, s);
            let r = value(*a, si, env, c);
            match r.answer {
                Answer::Word(v) => {
                    let t1 = run(ca, s)->Next_0;
                    assert(assign.len() == 1);
                    let t2 = store(t1, var_cell(env[x]), v);
                    assert(step(assign[0], t1) == Outcome::Next(t2));
                    assert(run_from(assign, 0, t1) == run_from(assign, 1, t2));
                    assert(run_from(assign, 1, t2) == Outcome::Next(t2));
                    let c2 = put(r.cells, env[x] as int, v);
                    assert forall|off: int| off < 8 * si && off % 8 == 0 implies (t2.mem)(
                        (t2.regs)(Reg::RBP) - off,
                    ) == #[trigger] (c2.at)(off) by {
                        if off != env[x] {
                            assert((t1.mem)((t1.regs)(Reg::RBP) - off) == (r.cells.at)(off));
                        }
                    }
                },
                _ => {},
            }
        },
        _ => {},
    }
}

/// What a unary operator gives fits in a word.
proof fn lemma_answer_fits1(op: Op1, v: int)
    requires
        in_word(v),
    ensures
        apply1(op, v) matches Answer::Word(w) ==> in_word(w),
{
}

/// What a binary operator gives fits in a word.
proof fn lemma_answer_fits2(op: Op2, x: int, y: int)
    requires
        in_word(x),
        in_word(y),
    ensures
        apply2(op, x, y) matches Answer::Word(w) ==> in_word(w),
{
}

/// What the run of the code of a part of a block or of a `let` gives: as
/// `computes`, but for the answer, which the part after it replaces.
pub open spec fn passes(s: State, t: Outcome, r: Evaluated, si: int) -> bool {
    match r.answer {
        Answer::Word(_) => {
            &&& words(r.cells)
            &&& t matches Outcome::Next(u) && agrees(u, r.cells, si) && forall|q: Reg|
                is_lasting(q) ==> #[trigger] (u.regs)(q) == (s.regs)(q)
        },
        Answer::Error(l) => t == Outcome::Trapped(l),
    }
}

/// The code of the first `n` expressions of a block computes what they
/// give.
pub proof fn lemma_seq_is_computed(
    es: Seq<ExprView>,
    n: int,
    si: int,
    env: Map<Seq<char>, i64>,
    l: int,
    target: Seq<char>,
    defs: Map<Seq<char>, Definition>,
    s: State,
    c: Cells,
)
    requires
        straight_all(es, n),
        0 <= n <= es.len(),
        emit_seq(es, n, si, env, l, target, defs) is Ok,
        0 <= si,
        si + seq_depth(es, n) <= SLOT_LIMIT,
        room(s, si + seq_depth(es, n)),
        below(env, si),
        words(c),
        agrees(s, c, si),
    ensures
        passes(
            s,
            run(emit_seq(es, n, si, env, l, target, defs)->Ok_0, s),
            value_seq(es, n, si, env, c),
            si,
        ),
        n > 0 ==> computes(
            s,
            run(emit_seq(es, n, si, env, l, target, defs)->Ok_0, s),
            value_seq(es, n, si, env, c),
            si,
        ),
    decreases es, n,
{
    if n > 0 {
        lemma_seq_grows(es, n - 1, n);
        lemma_seq_measures(es, n - 1);
        let first = emit_seq(es, n - 1, si, env, l, target, defs)->Ok_0;
        let last = emit(es[n - 1], si, env, l + seq_labels(es, n - 1), target, defs)->Ok_0;
        assert(emit_seq(es, n, si, env, l, target, defs)->Ok_0 == first + last);
        lemma_seq_is_computed(es, n - 1, si, env, l, target, defs, s, c);
        lemma_run_concat(first, last, s);
        let before = value_seq(es, n - 1, si, env, c);
        match before.answer {
            Answer::Word(_) => {
                let t1 = run(first, s)->Next_0;
                lemma_straight_is_computed(
                    es[n - 1],
                    si,
                    env,
                    l + seq_labels(es, n - 1),
                    target,
                    defs,
                    t1,
                    before.cells,
                );
            },
            _ => {},
        }
    } else {
        let code = emit_seq(es, n, si, env, l, target, defs)->Ok_0;
        assert(code.len() == 0);
        assert(run_from(code, 0, s) == Outcome::Next(s));
    }
}

/// The code of the first `n` bindings of a `let` computes what they give,
/// and leaves the value of each in its slot.
pub proof fn lemma_bindings_are_computed(
    binds: Seq<(Seq<char>, ExprView)>,
    n: int,
    si: int,
    env: Map<Seq<char>, i64>,
    l: int,
    target: Seq<char>,
    defs: Map<Seq<char>, Definition>,
    s: State,
    c: Cells,
)
    requires
        straight_bindings(binds, n),
        0 <= n <= binds.len(),
        emit_bindings(binds, n, si, env, l, target, defs) is Ok,
        0 <= si,
        si + n + bindings_depth(binds, n) <= SLOT_LIMIT,
        room(s, si + n + bindings_depth(binds, n)),
        below(env, si),
        words(c),
        agrees(s, c, si),
    ensures
        passes(
            s,
            run(emit_bindings(binds, n, si, env, l, target, defs)->Ok_0, s),
            value_bindings(binds, n, si, env, c),
            si + n,
        ),
    decreases binds, n,
{
    if n > 0 {
        lemma_bindings_grow(binds, n - 1, n);
        lemma_bindings_measures(binds, n - 1);
        lemma_measures(binds[n - 1].1);
        let inner = bindings_env(binds, n - 1, si, env);
        let mid = l + bindings_labels(binds, n - 1);
        let first = emit_bindings(binds, n - 1, si, env, l, target, defs)->Ok_0;
        let ce = emit(binds[n - 1].1, si + n - 1, inner, mid, target, defs)->Ok_0;
        let keep = spill(si + n - 1);
        assert(emit_bindings(binds, n, si, env, l, target, defs)->Ok_0 == first + (ce + keep));
        lemma_bindings_are_computed(binds, n - 1, si, env, l, target, defs, s, c);
        lemma_run_concat(first, ce + keep, s);
        lemma_bindings_env(binds, n - 1, si, env, 0);
        let before = value_bindings(binds, n - 1, si, env, c);
        match before.answer {
            Answer::Word(_) => {
                let t1 = run(first, s)->Next_0;
                lemma_straight_is_computed(
                    binds[n - 1].1,
                    si + n - 1,
                    inner,
                    mid,
                    target,
                    defs,
                    t1,
                    before.cells,
                );
                lemma_run_concat(ce, keep, t1);
                let r = value(binds[n - 1].1, si + n - 1, inner, before.cells);
                match r.answer {
                    Answer::Word(v) => {
                        let t2 = run(ce, t1)->Next_0;
                        lemma_spill_runs(si + n - 1, t2, v, r.cells);
                    },
                    _ => {},
                }
            },
            _ => {},
        }
    } else {
        let code = emit_bindings(binds, n, si, env, l, target, defs)->Ok_0;
        assert(code.len() == 0);
        assert(run_from(code, 0, s) == Outcome::Next(s));
    }
}

} // verus!
