//! The compiler: from an expression to the instructions that evaluate it,
//! and from a program to its assembly text.

use vstd::prelude::*;
use crate::ast::{Definition, Expr, ExprView, StaticError, StaticErrorView, exprs_view, expr_view};
use crate::codegen::{
    bindings_depth, bindings_env, bindings_labels, bound_before, depth_spec, emit, emit_bindings,
    emit_seq, emit_spilled, labels, seq_depth, seq_labels, spilled_depth,
};
use crate::emitter::{binop, call, emit_one, extend, new_label, spill_to, tuple, unop, SLOT_LIMIT};
use crate::instr::{code_view, Instr, InstrView, Reg, Val};
use crate::shapes::{if_code, imm, label, loop_code, loop_end, reg, var_cell};
use crate::tables::{defs_get, defs_map, env_get, env_map, env_new, env_update};
use crate::value::{encode_number, FALSE_VAL, NIL_VAL, TRUE_VAL};

verus! {

/// Depths and label counts are never negative.
pub proof fn lemma_measures(e: ExprView)
    ensures
        depth_spec(e) >= 0,
        labels(e) >= 0,
    decreases e, 0nat,
{
    match e {
        ExprView::Number(_) => {},
        ExprView::Boolean(_) => {},
        ExprView::Id(_) => {},
        ExprView::UnOp(_, a) => lemma_measures(*a),
        ExprView::BinOp(_, a, b) => {
            lemma_measures(*a);
            lemma_measures(*b);
        },
        ExprView::Let(binds, body) => {
            lemma_bindings_measures(binds, binds.len() as int);
            lemma_measures(*body);
        },
        ExprView::If(c, t, a) => {
            lemma_measures(*c);
            lemma_measures(*t);
            lemma_measures(*a);
        },
        ExprView::Loop(a) => lemma_measures(*a),
        ExprView::Break(a) => lemma_measures(*a),
        ExprView::SetVar(_, a) => lemma_measures(*a),
        ExprView::Block(es) => lemma_seq_measures(es, es.len() as int),
        ExprView::Tuple(es) => lemma_seq_measures(es, es.len() as int),
        ExprView::Call(_, es) => lemma_seq_measures(es, es.len() as int),
    }
}

/// The measures of a prefix of a list are never negative, and a list whose
/// elements are kept in slots needs a slot for each.
pub proof fn lemma_seq_measures(es: Seq<ExprView>, n: int)
    ensures
        seq_depth(es, n) >= 0,
        spilled_depth(es, n) >= 0,
        0 <= n <= es.len() ==> spilled_depth(es, n) >= n,
        seq_labels(es, n) >= 0,
    decreases es, n,
{
    if n <= 0 || n > es.len() {
    } else {
        lemma_seq_measures(es, n - 1);
        lemma_measures(es[n - 1]);
    }
}

/// The measures of a prefix of the bindings of a `let` are never negative.
pub proof fn lemma_bindings_measures(binds: Seq<(Seq<char>, ExprView)>, n: int)
    ensures
        bindings_depth(binds, n) >= 0,
        bindings_labels(binds, n) >= 0,
    decreases binds, n,
{
    if n <= 0 || n > binds.len() {
    } else {
        lemma_bindings_measures(binds, n - 1);
        lemma_measures(binds[n - 1].1);
    }
}

/// The measures of a prefix of a list grow with the prefix.
pub proof fn lemma_seq_grows(es: Seq<ExprView>, m: int, n: int)
    requires
        0 <= m <= n <= es.len(),
    ensures
        seq_depth(es, m) <= seq_depth(es, n),
        spilled_depth(es, m) <= spilled_depth(es, n),
        seq_labels(es, m) <= seq_labels(es, n),
    decreases n - m,
{
    if m < n {
        lemma_seq_grows(es, m, n - 1);
        lemma_measures(es[n - 1]);
    }
}

/// The measures of a prefix of the bindings of a `let` grow with the prefix.
pub proof fn lemma_bindings_grow(binds: Seq<(Seq<char>, ExprView)>, m: int, n: int)
    requires
        0 <= m <= n <= binds.len(),
    ensures
        bindings_depth(binds, m) <= bindings_depth(binds, n),
        bindings_labels(binds, m) <= bindings_labels(binds, n),
    decreases n - m,
{
    if m < n {
        lemma_bindings_grow(binds, m, n - 1);
        lemma_measures(binds[n - 1].1);
    }
}

/// An error among the first `m` of a block is the error of the block.
pub proof fn lemma_seq_error(
    es: Seq<ExprView>,
    m: int,
    n: int,
    si: int,
    env: Map<Seq<char>, i64>,
    l: int,
    target: Seq<char>,
    defs: Map<Seq<char>, Definition>,
)
    requires
        0 <= m <= n <= es.len(),
        emit_seq(es, m, si, env, l, target, defs) is Err,
    ensures
        emit_seq(es, n, si, env, l, target, defs) == emit_seq(es, m, si, env, l, target, defs),
    decreases n - m,
{
    if m < n {
        lemma_seq_error(es, m, n - 1, si, env, l, target, defs);
    }
}

/// An error among the first `m` elements of a tuple or a call is the error
/// of the whole.
pub proof fn lemma_spilled_error(
    es: Seq<ExprView>,
    m: int,
    n: int,
    si: int,
    env: Map<Seq<char>, i64>,
    l: int,
    target: Seq<char>,
    defs: Map<Seq<char>, Definition>,
)
    requires
        0 <= m <= n <= es.len(),
        emit_spilled(es, m, si, env, l, target, defs) is Err,
    ensures
        emit_spilled(es, n, si, env, l, target, defs) == emit_spilled(
            es,
            m,
            si,
            env,
            l,
            target,
            defs,
        ),
    decreases n - m,
{
    if m < n {
        lemma_spilled_error(es, m, n - 1, si, env, l, target, defs);
    }
}

/// An error among the first `m` bindings of a `let` is the error of all of
/// them.
pub proof fn lemma_bindings_error(
    binds: Seq<(Seq<char>, ExprView)>,
    m: int,
    n: int,
    si: int,
    env: Map<Seq<char>, i64>,
    l: int,
    target: Seq<char>,
    defs: Map<Seq<char>, Definition>,
)
    requires
        0 <= m <= n <= binds.len(),
        emit_bindings(binds, m, si, env, l, target, defs) is Err,
    ensures
        emit_bindings(binds, n, si, env, l, target, defs) == emit_bindings(
            binds,
            m,
            si,
            env,
            l,
            target,
            defs,
        ),
    decreases n - m,
{
    if m < n {
        lemma_bindings_error(binds, m, n - 1, si, env, l, target, defs);
    }
}

/// Whether a name is the text `text`.
pub fn is_text(name: &String, text: &str) -> (b: bool)
    ensures
        b == (name@ == text@),
{
    let other = text.to_owned();
    *name == other
}

/// What `compile_main` promises of its result and of the label counter.
pub open spec fn compiled(
    r: Result<Vec<Instr>, StaticError>,
    expected: Result<Seq<InstrView>, StaticErrorView>,
    l_before: int,
    l_after: int,
    taken: int,
) -> bool {
    match r {
        Ok(code) => expected == Ok::<Seq<InstrView>, StaticErrorView>(code_view(code@)) && l_after
            == l_before + taken,
        Err(x) => expected == Err::<Seq<InstrView>, StaticErrorView>(x@) && l_before <= l_after
            <= l_before + taken,
    }
}

/// The instructions that evaluate `e` into `RAX`, or the first static error
/// in `e`.
///
/// `si` is the first free stack slot, `env` the offsets of the variables in
/// scope, `l` the next free label number, `target` the label of the end of
/// the innermost enclosing loop (empty outside loops), and `defs` the
/// functions that may be called. On success `l` has moved past the labels
/// of `e`.
#[verifier::rlimit(50)]
pub fn compile_main(
    e: &Expr,
    si: i64,
    env: &im::HashMap<String, i64>,
    l: &mut i64,
    target: &str,
    defs: &im::HashMap<String, Definition>,
) -> (r: Result<Vec<Instr>, StaticError>)
    requires
        0 <= si,
        si + depth_spec(e@) <= SLOT_LIMIT,
        *old(l) + labels(e@) <= i64::MAX,
    ensures
        compiled(
            r,
            emit(e@, si as int, env_map(*env), *old(l) as int, target@, defs_map(*defs)),
            *old(l) as int,
            *final(l) as int,
            labels(e@),
        ),
    decreases e,
{
    let ghost l0 = *l as int;
    let ghost em = env_map(*env);
    let ghost dm = defs_map(*defs);
    proof {
        lemma_measures(e@);
    }
    let mut result: Vec<Instr> = Vec::new();
    match e {
        Expr::Number(n) => {
            match encode_number(*n) {
                Some(word) => {
                    result.push(Instr::IMov(Val::Reg(Reg::RAX), Val::Imm(word)));
                    assert(code_view(result@) =~= seq![
                        InstrView::IMov(reg(Reg::RAX), imm(word as int)),
                    ]);
                    Ok(result)
                },
                None => Err(StaticError::Invalid),
            }
        },
        Expr::Boolean(b) => {
            result.push(
                Instr::IMov(
                    Val::Reg(Reg::RAX),
                    if *b {
                        Val::Imm(TRUE_VAL)
                    } else {
                        Val::Imm(FALSE_VAL)
                    },
                ),
            );
            assert(code_view(result@) =~= seq![
                InstrView::IMov(
                    reg(Reg::RAX),
                    imm(
                        if *b {
                            TRUE_VAL as int
                        } else {
                            FALSE_VAL as int
                        },
                    ),
                ),
            ]);
            Ok(result)
        },
        Expr::Id(x) => {
            if is_text(x, "nil") {
                result.push(Instr::IMov(Val::Reg(Reg::RAX), Val::Imm(NIL_VAL)));
                assert(code_view(result@) =~= seq![
                    InstrView::IMov(reg(Reg::RAX), imm(NIL_VAL as int)),
                ]);
                Ok(result)
            } else {
                match env_get(env, x.as_str()) {
                    Some(off) => {
                        result.push(Instr::IMov(Val::Reg(Reg::RAX), Val::RegOffset(Reg::RBP, off)));
                        assert(code_view(result@) =~= seq![
                            InstrView::IMov(reg(Reg::RAX), var_cell(off)),
                        ]);
                        Ok(result)
                    },
                    None => Err(StaticError::UnboundVariable(x.clone())),
                }
            }
        },
        Expr::UnOp(op, a) => {
            let code = compile_main(a, si, env, l, target, defs)?;
            extend(&mut result, code);
            extend(&mut result, unop(*op));
            assert(code_view(result@) =~= code_view(code@) + crate::shapes::unop_code(*op));
            Ok(result)
        },
        Expr::BinOp(op, a, b) => {
            proof {
                lemma_measures(a@);
                lemma_measures(b@);
            }
            let v1 = compile_main(a, si, env, l, target, defs)?;
            let v2 = compile_main(b, si + 1, env, l, target, defs)?;
            extend(&mut result, v1);
            emit_one(&mut result, spill_to(si));
            extend(&mut result, v2);
            extend(&mut result, binop(*op, si));
            assert(code_view(result@) =~= (code_view(v1@) + crate::shapes::spill(si as int)) + (
            code_view(v2@) + crate::shapes::binop_code(*op, si as int)));
            Ok(result)
        },
        Expr::Let(binds, body) => {
            let ghost bv = e@->Let_0;
            proof {
                assert(bv =~= bindings_view(*binds));
                lemma_bindings_measures(bv, bv.len() as int);
                lemma_measures(body@);
            }
            let (code, scope) = compile_bindings(binds, si, env, l, target, defs)?;
            let inner = match &scope {
                Some(s) => s,
                None => env,
            };
            let rest = compile_main(body, si + binds.len() as i64, inner, l, target, defs)?;
            extend(&mut result, code);
            extend(&mut result, rest);
            Ok(result)
        },
        Expr::If(c, t, a) => {
            proof {
                lemma_measures(c@);
                lemma_measures(t@);
                lemma_measures(a@);
            }
            let end_label = new_label(l, "if_end");
            let else_label = new_label(l, "if_else");
            let cond_instrs = compile_main(c, si, env, l, target, defs)?;
            let then_instrs = compile_main(t, si, env, l, target, defs)?;
            let alt_instrs = compile_main(a, si, env, l, target, defs)?;
            let else_def = Instr::ILabel(else_label.to_string());
            let end_def = Instr::ILabel(end_label.to_string());
            extend(&mut result, cond_instrs);
            emit_one(&mut result, Instr::ICmp(Val::Reg(Reg::RAX), Val::Imm(FALSE_VAL)));
            emit_one(&mut result, Instr::IJe(else_label));
            extend(&mut result, then_instrs);
            emit_one(&mut result, Instr::IJmp(end_label));
            emit_one(&mut result, else_def);
            extend(&mut result, alt_instrs);
            emit_one(&mut result, end_def);
            assert(code_view(result@) =~= if_code(
                code_view(cond_instrs@),
                code_view(then_instrs@),
                code_view(alt_instrs@),
                l0,
            ));
            Ok(result)
        },
        Expr::Loop(a) => {
            proof {
                lemma_measures(a@);
            }
            let start_label = new_label(l, "loop_start");
            let end_label = new_label(l, "loop_end");
            let end_name = end_label.to_string();
            let body = compile_main(a, si, env, l, end_name.as_str(), defs)?;
            emit_one(&mut result, Instr::ILabel(start_label.to_string()));
            extend(&mut result, body);
            emit_one(&mut result, Instr::IJmp(start_label));
            emit_one(&mut result, Instr::ILabel(end_name));
            assert(code_view(result@) =~= loop_code(code_view(body@), l0));
            Ok(result)
        },
        Expr::Break(a) => {
            if target.is_empty() {
                return Err(StaticError::BreakOutsideLoop);
            }
            proof {
                reveal_strlit("");
                assert(""@ =~= Seq::<char>::empty());
            }
            let code = compile_main(a, si, env, l, "", defs)?;
            extend(&mut result, code);
            emit_one(&mut result, Instr::IJmp(Val::Label(target.to_owned())));
            assert(code_view(result@) =~= code_view(code@) + seq![
                InstrView::IJmp(label(target@)),
            ]);
            Ok(result)
        },
        Expr::SetVar(x, a) => {
            let code = compile_main(a, si, env, l, target, defs)?;
            match env_get(env, x.as_str()) {
                Some(off) => {
                    extend(&mut result, code);
                    emit_one(
                        &mut result,
                        Instr::IMov(Val::RegOffset(Reg::RBP, off), Val::Reg(Reg::RAX)),
                    );
                    assert(code_view(result@) =~= code_view(code@) + seq![
                        InstrView::IMov(var_cell(off), reg(Reg::RAX)),
                    ]);
                    Ok(result)
                },
                None => Err(StaticError::UnboundVariable(x.clone())),
            }
        },
        Expr::Block(es) => compile_seq(es, si, env, l, target, defs),
        Expr::Call(name, args) => {
            let ghost ev = exprs_view(*args);
            proof {
                lemma_seq_measures(ev, ev.len() as int);
            }
            match defs_get(defs, name.as_str()) {
                None => Err(StaticError::Invalid),
                Some(d) => {
                    if args.len() != d.params.len() {
                        return Err(StaticError::Invalid);
                    }
                    let code = compile_spilled(args, si, env, l, target, defs)?;
                    extend(&mut result, code);
                    extend(&mut result, call(name.as_str(), args.len(), si));
                    Ok(result)
                },
            }
        },
        Expr::Tuple(values) => {
            let ghost ev = exprs_view(*values);
            proof {
                lemma_seq_measures(ev, ev.len() as int);
            }
            let number = *l;
            *l += 1;
            let code = compile_spilled(values, si, env, l, target, defs)?;
            extend(&mut result, code);
            extend(&mut result, tuple(values.len(), si, number));
            Ok(result)
        },
    }
}

/// The instructions of the expressions of a block, in order.
pub fn compile_seq(
    es: &Vec<Expr>,
    si: i64,
    env: &im::HashMap<String, i64>,
    l: &mut i64,
    target: &str,
    defs: &im::HashMap<String, Definition>,
) -> (r: Result<Vec<Instr>, StaticError>)
    requires
        0 <= si,
        si + seq_depth(exprs_view(*es), es.len() as int) <= SLOT_LIMIT,
        *old(l) + seq_labels(exprs_view(*es), es.len() as int) <= i64::MAX,
    ensures
        compiled(
            r,
            emit_seq(
                exprs_view(*es),
                es.len() as int,
                si as int,
                env_map(*env),
                *old(l) as int,
                target@,
                defs_map(*defs),
            ),
            *old(l) as int,
            *final(l) as int,
            seq_labels(exprs_view(*es), es.len() as int),
        ),
    decreases es,
{
    let ghost l0 = *l as int;
    let ghost ev = exprs_view(*es);
    let ghost em = env_map(*env);
    let ghost dm = defs_map(*defs);
    let n = es.len();
    let mut result: Vec<Instr> = Vec::new();
    let mut i: usize = 0;
    assert(code_view(result@) =~= Seq::<InstrView>::empty());
    while i < n
        invariant
            i <= n,
            n == es.len(),
            l0 == *old(l),
            ev == exprs_view(*es),
            em == env_map(*env),
            dm == defs_map(*defs),
            0 <= si,
            si + seq_depth(ev, n as int) <= SLOT_LIMIT,
            l0 + seq_labels(ev, n as int) <= i64::MAX,
            *l == l0 + seq_labels(ev, i as int),
            emit_seq(ev, i as int, si as int, em, l0, target@, dm) == Ok::<
                Seq<InstrView>,
                StaticErrorView,
            >(code_view(result@)),
        decreases n - i,
    {
        proof {
            lemma_seq_grows(ev, i as int, i + 1);
            lemma_seq_grows(ev, i + 1, n as int);
            lemma_seq_measures(ev, i as int);
            lemma_measures(ev[i as int]);
        }
        match compile_main(&es[i], si, env, l, target, defs) {
            Ok(code) => {
                extend(&mut result, code);
            },
            Err(x) => {
                proof {
                    lemma_seq_error(ev, i + 1, n as int, si as int, em, l0, target@, dm);
                }
                return Err(x);
            },
        }
        i += 1;
    }
    Ok(result)
}

/// The instructions of the elements of a tuple or of the arguments of a
/// call: each is evaluated and then stored in the next slot from `si` on.
pub fn compile_spilled(
    es: &Vec<Expr>,
    si: i64,
    env: &im::HashMap<String, i64>,
    l: &mut i64,
    target: &str,
    defs: &im::HashMap<String, Definition>,
) -> (r: Result<Vec<Instr>, StaticError>)
    requires
        0 <= si,
        si + spilled_depth(exprs_view(*es), es.len() as int) <= SLOT_LIMIT,
        *old(l) + seq_labels(exprs_view(*es), es.len() as int) <= i64::MAX,
    ensures
        compiled(
            r,
            emit_spilled(
                exprs_view(*es),
                es.len() as int,
                si as int,
                env_map(*env),
                *old(l) as int,
                target@,
                defs_map(*defs),
            ),
            *old(l) as int,
            *final(l) as int,
            seq_labels(exprs_view(*es), es.len() as int),
        ),
    decreases es,
{
    let ghost l0 = *l as int;
    let ghost ev = exprs_view(*es);
    let ghost em = env_map(*env);
    let ghost dm = defs_map(*defs);
    let n = es.len();
    let mut result: Vec<Instr> = Vec::new();
    let mut i: usize = 0;
    assert(code_view(result@) =~= Seq::<InstrView>::empty());
    while i < n
        invariant
            i <= n,
            n == es.len(),
            l0 == *old(l),
            ev == exprs_view(*es),
            em == env_map(*env),
            dm == defs_map(*defs),
            0 <= si,
            si + spilled_depth(ev, n as int) <= SLOT_LIMIT,
            l0 + seq_labels(ev, n as int) <= i64::MAX,
            *l == l0 + seq_labels(ev, i as int),
            emit_spilled(ev, i as int, si as int, em, l0, target@, dm) == Ok::<
                Seq<InstrView>,
                StaticErrorView,
            >(code_view(result@)),
        decreases n - i,
    {
        proof {
            lemma_seq_grows(ev, i as int, i + 1);
            lemma_seq_grows(ev, i + 1, n as int);
            lemma_seq_measures(ev, i as int);
            lemma_seq_measures(ev, n as int);
            lemma_measures(ev[i as int]);
        }
        let at: i64 = si + i as i64;
        match compile_main(&es[i], at, env, l, target, defs) {
            Ok(code) => {
                let ghost before = code_view(result@);
                extend(&mut result, code);
                emit_one(&mut result, spill_to(at));
                assert(code_view(result@) =~= before + (code_view(code@) + crate::shapes::spill(
                    at as int,
                )));
            },
            Err(x) => {
                proof {
                    lemma_spilled_error(ev, i + 1, n as int, si as int, em, l0, target@, dm);
                }
                return Err(x);
            },
        }
        i += 1;
    }
    Ok(result)
}

/// The views of the bindings of a `let`.
pub open spec fn bindings_view(binds: Vec<(String, Expr)>) -> Seq<(Seq<char>, ExprView)> {
    Seq::new(binds.len() as nat, |i: int| (binds[i].0@, expr_view(binds[i].1)))
}

/// The environment that `scope` stands for: its own map, or `env` where
/// nothing was bound yet.
pub open spec fn scope_map(
    scope: Option<im::HashMap<String, i64>>,
    env: im::HashMap<String, i64>,
) -> Map<Seq<char>, i64> {
    match scope {
        Some(s) => env_map(s),
        None => env_map(env),
    }
}

/// The instructions of the bindings of a `let` that starts at slot `si`,
/// and the environment that its body sees (`None` where there is no binding
/// and the body sees `env`).
pub fn compile_bindings(
    binds: &Vec<(String, Expr)>,
    si: i64,
    env: &im::HashMap<String, i64>,
    l: &mut i64,
    target: &str,
    defs: &im::HashMap<String, Definition>,
) -> (r: Result<(Vec<Instr>, Option<im::HashMap<String, i64>>), StaticError>)
    requires
        0 <= si,
        si + binds.len() + bindings_depth(bindings_view(*binds), binds.len() as int)
            <= SLOT_LIMIT,
        *old(l) + bindings_labels(bindings_view(*binds), binds.len() as int) <= i64::MAX,
    ensures
        match r {
            Ok((code, scope)) => {
                &&& emit_bindings(
                    bindings_view(*binds),
                    binds.len() as int,
                    si as int,
                    env_map(*env),
                    *old(l) as int,
                    target@,
                    defs_map(*defs),
                ) == Ok::<Seq<InstrView>, StaticErrorView>(code_view(code@))
                &&& scope_map(scope, *env) == bindings_env(
                    bindings_view(*binds),
                    binds.len() as int,
                    si as int,
                    env_map(*env),
                )
                &&& *final(l) == *old(l) + bindings_labels(
                    bindings_view(*binds),
                    binds.len() as int,
                )
            },
            Err(x) => {
                &&& emit_bindings(
                    bindings_view(*binds),
                    binds.len() as int,
                    si as int,
                    env_map(*env),
                    *old(l) as int,
                    target@,
                    defs_map(*defs),
                ) == Err::<Seq<InstrView>, StaticErrorView>(x@)
                &&& *old(l) <= *final(l) <= *old(l) + bindings_labels(
                    bindings_view(*binds),
                    binds.len() as int,
                )
            },
        },
    decreases binds,
{
    let ghost l0 = *l as int;
    let ghost bv = bindings_view(*binds);
    let ghost em = env_map(*env);
    let ghost dm = defs_map(*defs);
    let n = binds.len();
    let mut result: Vec<Instr> = Vec::new();
    let mut scope: Option<im::HashMap<String, i64>> = None;
    let mut names = env_new();
    let mut i: usize = 0;
    assert(code_view(result@) =~= Seq::<InstrView>::empty());
    while i < n
        invariant
            i <= n,
            n == binds.len(),
            l0 == *old(l),
            bv == bindings_view(*binds),
            em == env_map(*env),
            dm == defs_map(*defs),
            0 <= si,
            si + n + bindings_depth(bv, n as int) <= SLOT_LIMIT,
            l0 + bindings_labels(bv, n as int) <= i64::MAX,
            *l == l0 + bindings_labels(bv, i as int),
            scope_map(scope, *env) == bindings_env(bv, i as int, si as int, em),
            forall|k: Seq<char>|
                env_map(names).dom().contains(k) <==> exists|j: int| 0 <= j < i && bv[j].0 == k,
            emit_bindings(bv, i as int, si as int, em, l0, target@, dm) == Ok::<
                Seq<InstrView>,
                StaticErrorView,
            >(code_view(result@)),
        decreases n - i,
    {
        proof {
            lemma_bindings_grow(bv, i as int, i + 1);
            lemma_bindings_grow(bv, i + 1, n as int);
            lemma_bindings_measures(bv, i as int);
            lemma_bindings_measures(bv, n as int);
            lemma_measures(bv[i as int].1);
        }
        let name = &binds[i].0;
        let at: i64 = si + i as i64;
        assert(bound_before(bv, i as int) <==> env_map(names).dom().contains(name@));
        if env_get(&names, name.as_str()).is_some() {
            proof {
                lemma_bindings_error(bv, i + 1, n as int, si as int, em, l0, target@, dm);
            }
            return Err(StaticError::DuplicateBinding);
        }
        let inner = match &scope {
            Some(s) => s,
            None => env,
        };
        match compile_main(&binds[i].1, at, inner, l, target, defs) {
            Ok(code) => {
                let ghost before = code_view(result@);
                extend(&mut result, code);
                emit_one(&mut result, spill_to(at));
                assert(code_view(result@) =~= before + (code_view(code@) + crate::shapes::spill(
                    at as int,
                )));
            },
            Err(x) => {
                proof {
                    lemma_bindings_error(bv, i + 1, n as int, si as int, em, l0, target@, dm);
                }
                return Err(x);
            },
        }
        let next = env_update(inner, name.clone(), at * 8);
        let ghost seen = env_map(names);
        names = env_update(&names, name.clone(), at * 8);
        scope = Some(next);
        i += 1;
        proof {
            assert forall|k: Seq<char>|
                env_map(names).dom().contains(k) <==> exists|j: int| 0 <= j < i && bv[j].0 == k by {
                if env_map(names).dom().contains(k) {
                    if k == bv[i - 1].0 {
                    } else {
                        assert(seen.dom().contains(k));
                        let j = choose|j: int| 0 <= j < i - 1 && bv[j].0 == k;
                        assert(0 <= j < i && bv[j].0 == k);
                    }
                }
                if exists|j: int| 0 <= j < i && bv[j].0 == k {
                    let j = choose|j: int| 0 <= j < i && bv[j].0 == k;
                    if j < i - 1 {
                        assert(seen.dom().contains(k));
                    }
                }
            }
        }
    }
    Ok((result, scope))
}

} // verus!
