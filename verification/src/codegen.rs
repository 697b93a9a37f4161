//! What the compiler emits for an expression, as a function of the
//! expression: the number of stack slots it needs, the number of labels it
//! takes, and its code.

use vstd::prelude::*;
use crate::ast::{Definition, ExprView, StaticErrorView};
use crate::instr::{InstrView, Reg};
use crate::emitter::SLOT_LIMIT;
use crate::measure::LABEL_LIMIT;
use crate::shapes::{
    align16, binop_code, call_code, entry_setup, epilogue, if_code, imm, label, loop_code,
    loop_end, prologue, reg, spill, traps, tuple_code, unop_code, var_cell,
};
use crate::instr::code_text;
use crate::tables::no_bindings;
use crate::tables::lookup;
use crate::value::{representable, encode, FALSE_VAL, NIL_VAL, TRUE_VAL};

verus! {

/// The greater of two integers.
pub open spec fn max(a: int, b: int) -> int {
    if a >= b {
        a
    } else {
        b
    }
}

/// The number of stack slots that the code of `e` may use at once, counted
/// from the first slot that is free when it starts. A binary operator keeps
/// its left operand in one slot while the right one is evaluated; a tuple or
/// a call keeps one slot for each element evaluated so far; a `let` keeps
/// one for each binding.
pub open spec fn depth_spec(e: ExprView) -> int
    decreases e, 0nat,
{
    match e {
        ExprView::Number(_) => 0,
        ExprView::Boolean(_) => 0,
        ExprView::Id(_) => 0,
        ExprView::UnOp(_, a) => depth_spec(*a),
        ExprView::BinOp(_, a, b) => max(depth_spec(*a), depth_spec(*b) + 1),
        ExprView::Let(binds, body) => bindings_depth(binds, binds.len() as int) + depth_spec(*body)
            + binds.len(),
        ExprView::If(c, t, a) => max(max(depth_spec(*c), depth_spec(*t)), depth_spec(*a)),
        ExprView::Loop(a) => depth_spec(*a),
        ExprView::Break(a) => depth_spec(*a),
        ExprView::SetVar(_, a) => depth_spec(*a),
        ExprView::Block(es) => seq_depth(es, es.len() as int),
        ExprView::Tuple(es) => spilled_depth(es, es.len() as int),
        ExprView::Call(_, es) => spilled_depth(es, es.len() as int),
    }
}

/// The greatest depth among the first `n` of `es`.
pub open spec fn seq_depth(es: Seq<ExprView>, n: int) -> int
    decreases es, n,
{
    if n <= 0 || n > es.len() {
        0
    } else {
        max(seq_depth(es, n - 1), depth_spec(es[n - 1]))
    }
}

/// The slots that the first `n` of `es` need when each is stored in a slot
/// of its own after it is evaluated.
pub open spec fn spilled_depth(es: Seq<ExprView>, n: int) -> int
    decreases es, n,
{
    if n <= 0 || n > es.len() {
        0
    } else {
        max(spilled_depth(es, n - 1), max(depth_spec(es[n - 1]) + n - 1, n))
    }
}

/// The slots that the first `n` bound expressions need, each evaluated
/// above the slots of the bindings before it.
pub open spec fn bindings_depth(binds: Seq<(Seq<char>, ExprView)>, n: int) -> int
    decreases binds, n,
{
    if n <= 0 || n > binds.len() {
        0
    } else {
        max(bindings_depth(binds, n - 1), depth_spec(binds[n - 1].1) + n - 1)
    }
}

/// The number of labels that the code of `e` defines with numbers of its
/// own: two for each `if` and each `loop`, one for each tuple.
pub open spec fn labels(e: ExprView) -> int
    decreases e, 0nat,
{
    match e {
        ExprView::Number(_) => 0,
        ExprView::Boolean(_) => 0,
        ExprView::Id(_) => 0,
        ExprView::UnOp(_, a) => labels(*a),
        ExprView::BinOp(_, a, b) => labels(*a) + labels(*b),
        ExprView::Let(binds, body) => bindings_labels(binds, binds.len() as int) + labels(*body),
        ExprView::If(c, t, a) => 2 + labels(*c) + labels(*t) + labels(*a),
        ExprView::Loop(a) => 2 + labels(*a),
        ExprView::Break(a) => labels(*a),
        ExprView::SetVar(_, a) => labels(*a),
        ExprView::Block(es) => seq_labels(es, es.len() as int),
        ExprView::Tuple(es) => 1 + seq_labels(es, es.len() as int),
        ExprView::Call(_, es) => seq_labels(es, es.len() as int),
    }
}

/// The number of labels of the first `n` of `es`.
pub open spec fn seq_labels(es: Seq<ExprView>, n: int) -> int
    decreases es, n,
{
    if n <= 0 || n > es.len() {
        0
    } else {
        seq_labels(es, n - 1) + labels(es[n - 1])
    }
}

/// The number of labels of the first `n` bound expressions.
pub open spec fn bindings_labels(binds: Seq<(Seq<char>, ExprView)>, n: int) -> int
    decreases binds, n,
{
    if n <= 0 || n > binds.len() {
        0
    } else {
        bindings_labels(binds, n - 1) + labels(binds[n - 1].1)
    }
}

/// Whether the name of binding `i` is bound by an earlier binding of the
/// same `let`.
pub open spec fn bound_before(binds: Seq<(Seq<char>, ExprView)>, i: int) -> bool {
    exists|j: int| 0 <= j < i && binds[j].0 == binds[i].0
}

/// The environment after the first `n` bindings of a `let` that starts at
/// slot `si`: binding `i` lies in slot `si + i`, and hides what the same
/// name meant before.
pub open spec fn bindings_env(
    binds: Seq<(Seq<char>, ExprView)>,
    n: int,
    si: int,
    env: Map<Seq<char>, i64>,
) -> Map<Seq<char>, i64>
    decreases n,
{
    if n <= 0 || n > binds.len() {
        env
    } else {
        bindings_env(binds, n - 1, si, env).insert(binds[n - 1].0, ((si + n - 1) * 8) as i64)
    }
}

/// The outcome of two steps, of which the second is taken only where the
/// first succeeds: the code of both, or the first error.
pub open spec fn and_then_code(
    first: Result<Seq<InstrView>, StaticErrorView>,
    second: Result<Seq<InstrView>, StaticErrorView>,
) -> Result<Seq<InstrView>, StaticErrorView> {
    match first {
        Err(x) => Err(x),
        Ok(a) => match second {
            Err(x) => Err(x),
            Ok(b) => Ok(a + b),
        },
    }
}

/// The code of `e`, or the first static error in it, in the order in which
/// the parts of `e` are evaluated.
///
/// The code leaves the value of `e` in `RAX`. `si` is the first free stack
/// slot, `env` gives the offset of each variable in scope, `l` is the first
/// free label number, `target` is the label that a `break` jumps to (empty
/// outside a loop), and `defs` holds the functions that may be called.
pub open spec fn emit(
    e: ExprView,
    si: int,
    env: Map<Seq<char>, i64>,
    l: int,
    target: Seq<char>,
    defs: Map<Seq<char>, Definition>,
) -> Result<Seq<InstrView>, StaticErrorView>
    decreases e, 0nat,
{
    match e {
        ExprView::Number(n) => if representable(n as int) {
            Ok(seq![InstrView::IMov(reg(Reg::RAX), imm(encode(n as int)))])
        } else {
            Err(StaticErrorView::Invalid)
        },
        ExprView::Boolean(b) => Ok(
            seq![
                InstrView::IMov(
                    reg(Reg::RAX),
                    imm(
                        if b {
                            TRUE_VAL as int
                        } else {
                            FALSE_VAL as int
                        },
                    ),
                ),
            ],
        ),
        ExprView::Id(x) => if x == "nil"@ {
            Ok(seq![InstrView::IMov(reg(Reg::RAX), imm(NIL_VAL as int))])
        } else {
            match lookup(env, x) {
                Some(off) => Ok(seq![InstrView::IMov(reg(Reg::RAX), var_cell(off))]),
                None => Err(StaticErrorView::UnboundVariable(x)),
            }
        },
        ExprView::UnOp(op, a) => and_then_code(
            emit(*a, si, env, l, target, defs),
            Ok(unop_code(op)),
        ),
        ExprView::BinOp(op, a, b) => and_then_code(
            and_then_code(emit(*a, si, env, l, target, defs), Ok(spill(si))),
            and_then_code(
                emit(*b, si + 1, env, l + labels(*a), target, defs),
                Ok(binop_code(op, si)),
            ),
        ),
        ExprView::Let(binds, body) => and_then_code(
            emit_bindings(binds, binds.len() as int, si, env, l, target, defs),
            emit(
                *body,
                si + binds.len(),
                bindings_env(binds, binds.len() as int, si, env),
                l + bindings_labels(binds, binds.len() as int),
                target,
                defs,
            ),
        ),
        ExprView::If(c, t, a) => match emit(*c, si, env, l + 2, target, defs) {
            Err(x) => Err(x),
            Ok(cc) => match emit(*t, si, env, l + 2 + labels(*c), target, defs) {
                Err(x) => Err(x),
                Ok(ct) => match emit(*a, si, env, l + 2 + labels(*c) + labels(*t), target, defs) {
                    Err(x) => Err(x),
                    Ok(ca) => Ok(if_code(cc, ct, ca, l)),
                },
            },
        },
        ExprView::Loop(a) => match emit(*a, si, env, l + 2, loop_end(l), defs) {
            Err(x) => Err(x),
            Ok(c) => Ok(loop_code(c, l)),
        },
        ExprView::Break(a) => if target.len() == 0 {
            Err(StaticErrorView::BreakOutsideLoop)
        } else {
            and_then_code(
                emit(*a, si, env, l, Seq::empty(), defs),
                Ok(seq![InstrView::IJmp(label(target))]),
            )
        },
        ExprView::SetVar(x, a) => and_then_code(
            emit(*a, si, env, l, target, defs),
            match lookup(env, x) {
                Some(off) => Ok(seq![InstrView::IMov(var_cell(off), reg(Reg::RAX))]),
                None => Err(StaticErrorView::UnboundVariable(x)),
            },
        ),
        ExprView::Block(es) => emit_seq(es, es.len() as int, si, env, l, target, defs),
        ExprView::Tuple(es) => and_then_code(
            emit_spilled(es, es.len() as int, si, env, l + 1, target, defs),
            Ok(tuple_code(es.len() as int, si, l)),
        ),
        ExprView::Call(f, es) => match lookup(defs, f) {
            None => Err(StaticErrorView::Invalid),
            Some(d) => if d.params@.len() != es.len() {
                Err(StaticErrorView::Invalid)
            } else {
                and_then_code(
                    emit_spilled(es, es.len() as int, si, env, l, target, defs),
                    Ok(call_code(f, es.len() as int, si)),
                )
            },
        },
    }
}

/// The code of the first `n` of `es`, one after the other.
pub open spec fn emit_seq(
    es: Seq<ExprView>,
    n: int,
    si: int,
    env: Map<Seq<char>, i64>,
    l: int,
    target: Seq<char>,
    defs: Map<Seq<char>, Definition>,
) -> Result<Seq<InstrView>, StaticErrorView>
    decreases es, n,
{
    if n <= 0 || n > es.len() {
        Ok(Seq::empty())
    } else {
        and_then_code(
            emit_seq(es, n - 1, si, env, l, target, defs),
            emit(es[n - 1], si, env, l + seq_labels(es, n - 1), target, defs),
        )
    }
}

/// The code of the first `n` of `es`, where the value of element `i` is
/// evaluated above the slots of the elements before it and then stored in
/// slot `si + i`.
pub open spec fn emit_spilled(
    es: Seq<ExprView>,
    n: int,
    si: int,
    env: Map<Seq<char>, i64>,
    l: int,
    target: Seq<char>,
    defs: Map<Seq<char>, Definition>,
) -> Result<Seq<InstrView>, StaticErrorView>
    decreases es, n,
{
    if n <= 0 || n > es.len() {
        Ok(Seq::empty())
    } else {
        and_then_code(
            emit_spilled(es, n - 1, si, env, l, target, defs),
            and_then_code(
                emit(es[n - 1], si + n - 1, env, l + seq_labels(es, n - 1), target, defs),
                Ok(spill(si + n - 1)),
            ),
        )
    }
}

/// The code of the first `n` bindings of a `let`: each bound expression sees
/// the bindings before it, and its value is stored in the slot of its name.
/// A name that an earlier binding of the same `let` binds is an error, found
/// before the bound expression is looked at.
pub open spec fn emit_bindings(
    binds: Seq<(Seq<char>, ExprView)>,
    n: int,
    si: int,
    env: Map<Seq<char>, i64>,
    l: int,
    target: Seq<char>,
    defs: Map<Seq<char>, Definition>,
) -> Result<Seq<InstrView>, StaticErrorView>
    decreases binds, n,
{
    if n <= 0 || n > binds.len() {
        Ok(Seq::empty())
    } else {
        and_then_code(
            emit_bindings(binds, n - 1, si, env, l, target, defs),
            if bound_before(binds, n - 1) {
                Err(StaticErrorView::DuplicateBinding)
            } else {
                and_then_code(
                    emit(
                        binds[n - 1].1,
                        si + n - 1,
                        bindings_env(binds, n - 1, si, env),
                        l + bindings_labels(binds, n - 1),
                        target,
                        defs,
                    ),
                    Ok(spill(si + n - 1)),
                )
            },
        )
    }
}

/// Whether `e` can be compiled from slot `si` and label `l` on: its slots
/// stay within the limit, and so do its labels.
pub open spec fn fits(e: ExprView, si: int, l: int) -> bool {
    &&& si + depth_spec(e) <= SLOT_LIMIT
    &&& labels(e) <= LABEL_LIMIT
    &&& l + labels(e) <= i64::MAX
}

/// The environment of a function's body after its first `n` parameters:
/// parameter `i` lies `i + 2` words above the frame pointer, past the saved
/// frame pointer and the return address. Of two parameters of one name the
/// later one is meant.
pub open spec fn params_env(params: Seq<String>, n: int) -> Map<Seq<char>, i64>
    decreases n,
{
    if n <= 0 || n > params.len() {
        no_bindings()
    } else {
        params_env(params, n - 1).insert(params[n - 1]@, (-(n + 1) * 8) as i64)
    }
}

/// The code of a function: its label, its prologue with a frame of an even
/// number of slots that holds the depth of its body, the body compiled from
/// slot 1 on with the parameters as its environment and outside any loop,
/// and its epilogue.
pub open spec fn function_code(d: Definition, l: int, defs: Map<Seq<char>, Definition>) -> Result<
    Seq<InstrView>,
    StaticErrorView,
> {
    if d.params@.len() > SLOT_LIMIT || !fits(d.body@, 1, l) {
        Err(StaticErrorView::TooLarge)
    } else {
        match emit(
            d.body@,
            1,
            params_env(d.params@, d.params@.len() as int),
            l,
            Seq::empty(),
            defs,
        ) {
            Err(x) => Err(x),
            Ok(c) => Ok(
                prologue(d.name@, align16(depth_spec(d.body@)) * 8) + c + epilogue(
                    align16(depth_spec(d.body@)) * 8,
                ),
            ),
        }
    }
}

/// The number of labels of the first `n` functions of `order`.
pub open spec fn functions_labels(
    defs: Map<Seq<char>, Definition>,
    order: Seq<Seq<char>>,
    n: int,
) -> int
    decreases n,
{
    if n <= 0 || n > order.len() {
        0
    } else {
        functions_labels(defs, order, n - 1) + labels(defs[order[n - 1]].body@)
    }
}

/// The code of the first `n` functions of `order`, one after the other, the
/// labels numbered from `l` on.
pub open spec fn functions_code(
    defs: Map<Seq<char>, Definition>,
    order: Seq<Seq<char>>,
    n: int,
    l: int,
) -> Result<Seq<InstrView>, StaticErrorView>
    decreases n,
{
    if n <= 0 || n > order.len() {
        Ok(Seq::empty())
    } else {
        and_then_code(
            functions_code(defs, order, n - 1, l),
            function_code(defs[order[n - 1]], l + functions_labels(defs, order, n - 1), defs),
        )
    }
}

/// The environment of the main expression: `input` in slot 1.
pub open spec fn main_env() -> Map<Seq<char>, i64> {
    no_bindings().insert("input"@, 8)
}

/// The code of the entry point: the prologue with a frame that holds the
/// input, the end of the heap and the slots of the main expression, the
/// setup, the main expression compiled from slot 3 on, and the epilogue.
pub open spec fn entry_code(main: ExprView, l: int, defs: Map<Seq<char>, Definition>) -> Result<
    Seq<InstrView>,
    StaticErrorView,
> {
    if !fits(main, 3, l) {
        Err(StaticErrorView::TooLarge)
    } else {
        match emit(main, 3, main_env(), l, Seq::empty(), defs) {
            Err(x) => Err(x),
            Ok(c) => Ok(
                prologue("our_code_starts_here"@, align16(depth_spec(main) + 2) * 8)
                    + entry_setup() + c + epilogue(align16(depth_spec(main) + 2) * 8),
            ),
        }
    }
}

/// The code of a program whose functions are emitted in the order `order`:
/// the functions, then the entry point. Labels are numbered from 1 on.
pub open spec fn program_code(
    defs: Map<Seq<char>, Definition>,
    order: Seq<Seq<char>>,
    main: ExprView,
) -> Result<Seq<InstrView>, StaticErrorView> {
    and_then_code(
        functions_code(defs, order, order.len() as int, 1),
        entry_code(main, 1 + functions_labels(defs, order, order.len() as int), defs),
    )
}

/// Whether `order` names every function of `defs` once.
pub open spec fn is_listing(order: Seq<Seq<char>>, defs: Map<Seq<char>, Definition>) -> bool {
    &&& forall|i: int, j: int| 0 <= i < j < order.len() ==> order[i] != order[j]
    &&& forall|i: int| 0 <= i < order.len() ==> defs.dom().contains(#[trigger] order[i])
    &&& forall|k: Seq<char>|
        defs.dom().contains(k) ==> exists|i: int| 0 <= i < order.len() && order[i] == k
}

/// The lines that open an assembly unit: the section, the routines of the
/// runtime that the code calls, and the entry point that it offers.
pub open spec fn unit_header() -> Seq<char> {
    "\nsection .text\n"@ + import_line("snek_error"@) + import_line("snek_print"@) + import_line(
        "snek_try_gc"@,
    ) + "global our_code_starts_here\n"@
}

/// The line that declares a routine defined elsewhere.
pub open spec fn import_line(name: Seq<char>) -> Seq<char> {
    "ext"@ + "ern "@ + name + "\n"@
}

/// The text of an assembly unit around the text of its code: the header,
/// the code, and the error labels.
pub open spec fn unit_text(body: Seq<char>) -> Seq<char> {
    unit_header() + body + code_text(traps())
}

} // verus!
