//! The stack slots and the labels that an expression needs, computed before
//! it is compiled, so that the compiler can refuse an expression that is
//! too large for its arithmetic.

use vstd::prelude::*;
use crate::ast::{Expr, exprs_view};
use crate::codegen::{
    bindings_depth, bindings_labels, depth_spec, labels, seq_depth, seq_labels, spilled_depth,
};
use crate::compiler::{
    bindings_view, lemma_bindings_grow, lemma_bindings_measures, lemma_measures, lemma_seq_grows,
    lemma_seq_measures,
};
use crate::emitter::SLOT_LIMIT;

verus! {

/// The greatest number of labels that the compiler accepts in one
/// expression.
pub const LABEL_LIMIT: i64 = 0x2000_0000_0000_0000;

/// A measure where it is within `limit`, else `None`.
pub open spec fn within(m: int, limit: int) -> Option<i64> {
    if m <= limit {
        Some(m as i64)
    } else {
        None
    }
}

fn larger(a: i64, b: i64) -> (r: i64)
    ensures
        r == crate::codegen::max(a as int, b as int),
{
    if a >= b {
        a
    } else {
        b
    }
}

fn capped(m: i64, limit: i64) -> (r: Option<i64>)
    ensures
        r == within(m as int, limit as int),
{
    if m <= limit {
        Some(m)
    } else {
        None
    }
}

/// The number of stack slots that `e` needs, where it is within the
/// compiler's limit.
pub fn depth(e: &Expr) -> (r: Option<i64>)
    ensures
        r == within(depth_spec(e@), SLOT_LIMIT as int),
    decreases e,
{
    proof {
        lemma_measures(e@);
    }
    match e {
        Expr::Number(_) => Some(0),
        Expr::Boolean(_) => Some(0),
        Expr::Id(_) => Some(0),
        Expr::UnOp(_, a) => depth(a),
        Expr::BinOp(_, a, b) => {
            proof {
                lemma_measures(a@);
                lemma_measures(b@);
            }
            let d1 = depth(a)?;
            let d2 = depth(b)?;
            capped(larger(d1, d2 + 1), SLOT_LIMIT)
        },
        Expr::Let(binds, body) => {
            let ghost bv = e@->Let_0;
            proof {
                assert(bv =~= bindings_view(*binds));
                lemma_bindings_measures(bv, bv.len() as int);
                lemma_measures(body@);
            }
            if binds.len() as u64 > SLOT_LIMIT as u64 {
                return None;
            }
            let d1 = depth_bindings(binds)?;
            let d2 = depth(body)?;
            capped(d1 + d2 + binds.len() as i64, SLOT_LIMIT)
        },
        Expr::If(c, t, a) => {
            proof {
                lemma_measures(c@);
                lemma_measures(t@);
                lemma_measures(a@);
            }
            let d1 = depth(c)?;
            let d2 = depth(t)?;
            let d3 = depth(a)?;
            Some(larger(larger(d1, d2), d3))
        },
        Expr::Loop(a) => depth(a),
        Expr::Break(a) => depth(a),
        Expr::SetVar(_, a) => depth(a),
        Expr::Block(es) => depth_seq(es),
        Expr::Tuple(es) => depth_spilled(es),
        Expr::Call(_, es) => depth_spilled(es),
    }
}

/// The greatest depth among `es`, where it is within the limit.
pub fn depth_seq(es: &Vec<Expr>) -> (r: Option<i64>)
    ensures
        r == within(seq_depth(exprs_view(*es), es.len() as int), SLOT_LIMIT as int),
    decreases es,
{
    let ghost ev = exprs_view(*es);
    let n = es.len();
    let mut acc: i64 = 0;
    let mut i: usize = 0;
    while i < n
        invariant
            i <= n,
            n == es.len(),
            ev == exprs_view(*es),
            acc == seq_depth(ev, i as int),
            0 <= acc <= SLOT_LIMIT,
        decreases n - i,
    {
        proof {
            lemma_seq_grows(ev, i + 1, n as int);
            lemma_measures(ev[i as int]);
        }
        match depth(&es[i]) {
            Some(d) => {
                acc = larger(acc, d);
            },
            None => {
                return None;
            },
        }
        i += 1;
    }
    Some(acc)
}

/// The slots that `es` need when each is kept in a slot of its own, where
/// that is within the limit.
pub fn depth_spilled(es: &Vec<Expr>) -> (r: Option<i64>)
    ensures
        r == within(spilled_depth(exprs_view(*es), es.len() as int), SLOT_LIMIT as int),
    decreases es,
{
    let ghost ev = exprs_view(*es);
    let n = es.len();
    proof {
        lemma_seq_measures(ev, n as int);
    }
    if n as u64 > SLOT_LIMIT as u64 {
        return None;
    }
    let mut acc: i64 = 0;
    let mut i: usize = 0;
    while i < n
        invariant
            i <= n,
            n == es.len(),
            n <= SLOT_LIMIT,
            ev == exprs_view(*es),
            acc == spilled_depth(ev, i as int),
            0 <= acc <= SLOT_LIMIT,
        decreases n - i,
    {
        proof {
            lemma_seq_grows(ev, i + 1, n as int);
            lemma_measures(ev[i as int]);
        }
        match depth(&es[i]) {
            Some(d) => {
                let m = larger(acc, larger(d + i as i64, i as i64 + 1));
                if m > SLOT_LIMIT {
                    return None;
                }
                acc = m;
            },
            None => {
                return None;
            },
        }
        i += 1;
    }
    Some(acc)
}

/// The slots that the bound expressions of a `let` need, where that is
/// within the limit.
pub fn depth_bindings(binds: &Vec<(String, Expr)>) -> (r: Option<i64>)
    requires
        binds.len() <= SLOT_LIMIT,
    ensures
        r == within(
            bindings_depth(bindings_view(*binds), binds.len() as int),
            SLOT_LIMIT as int,
        ),
    decreases binds,
{
    let ghost bv = bindings_view(*binds);
    let n = binds.len();
    let mut acc: i64 = 0;
    let mut i: usize = 0;
    while i < n
        invariant
            i <= n,
            n == binds.len(),
            n <= SLOT_LIMIT,
            bv == bindings_view(*binds),
            acc == bindings_depth(bv, i as int),
            0 <= acc <= SLOT_LIMIT,
        decreases n - i,
    {
        proof {
            lemma_bindings_grow(bv, i + 1, n as int);
            lemma_measures(bv[i as int].1);
        }
        match depth(&binds[i].1) {
            Some(d) => {
                let m = larger(acc, d + i as i64);
                if m > SLOT_LIMIT {
                    return None;
                }
                acc = m;
            },
            None => {
                return None;
            },
        }
        i += 1;
    }
    Some(acc)
}

/// The number of labels that `e` takes, where it is within the compiler's
/// limit.
pub fn label_count(e: &Expr) -> (r: Option<i64>)
    ensures
        r == within(labels(e@), LABEL_LIMIT as int),
    decreases e,
{
    proof {
        lemma_measures(e@);
    }
    match e {
        Expr::Number(_) => Some(0),
        Expr::Boolean(_) => Some(0),
        Expr::Id(_) => Some(0),
        Expr::UnOp(_, a) => label_count(a),
        Expr::BinOp(_, a, b) => {
            proof {
                lemma_measures(a@);
                lemma_measures(b@);
            }
            let c1 = label_count(a)?;
            let c2 = label_count(b)?;
            capped(c1 + c2, LABEL_LIMIT)
        },
        Expr::Let(binds, body) => {
            let ghost bv = e@->Let_0;
            proof {
                assert(bv =~= bindings_view(*binds));
                lemma_bindings_measures(bv, bv.len() as int);
                lemma_measures(body@);
            }
            let c1 = label_count_bindings(binds)?;
            let c2 = label_count(body)?;
            capped(c1 + c2, LABEL_LIMIT)
        },
        Expr::If(c, t, a) => {
            proof {
                lemma_measures(c@);
                lemma_measures(t@);
                lemma_measures(a@);
            }
            let c1 = label_count(c)?;
            let c2 = label_count(t)?;
            let c12 = capped(c1 + c2, LABEL_LIMIT)?;
            let c3 = label_count(a)?;
            let c123 = capped(c12 + c3, LABEL_LIMIT)?;
            capped(c123 + 2, LABEL_LIMIT)
        },
        Expr::Loop(a) => {
            proof {
                lemma_measures(a@);
            }
            let c = label_count(a)?;
            capped(c + 2, LABEL_LIMIT)
        },
        Expr::Break(a) => label_count(a),
        Expr::SetVar(_, a) => label_count(a),
        Expr::Block(es) => label_count_seq(es),
        Expr::Tuple(es) => {
            proof {
                lemma_seq_measures(exprs_view(*es), es.len() as int);
            }
            let c = label_count_seq(es)?;
            capped(c + 1, LABEL_LIMIT)
        },
        Expr::Call(_, es) => label_count_seq(es),
    }
}

/// The number of labels that `es` take together, where it is within the
/// limit.
pub fn label_count_seq(es: &Vec<Expr>) -> (r: Option<i64>)
    ensures
        r == within(seq_labels(exprs_view(*es), es.len() as int), LABEL_LIMIT as int),
    decreases es,
{
    let ghost ev = exprs_view(*es);
    let n = es.len();
    let mut acc: i64 = 0;
    let mut i: usize = 0;
    while i < n
        invariant
            i <= n,
            n == es.len(),
            ev == exprs_view(*es),
            acc == seq_labels(ev, i as int),
            0 <= acc <= LABEL_LIMIT,
        decreases n - i,
    {
        proof {
            lemma_seq_grows(ev, i + 1, n as int);
            lemma_measures(ev[i as int]);
        }
        match label_count(&es[i]) {
            Some(c) => {
                if acc + c > LABEL_LIMIT {
                    return None;
                }
                acc = acc + c;
            },
            None => {
                return None;
            },
        }
        i += 1;
    }
    Some(acc)
}

/// The number of labels that the bound expressions of a `let` take
/// together, where it is within the limit.
pub fn label_count_bindings(binds: &Vec<(String, Expr)>) -> (r: Option<i64>)
    ensures
        r == within(
            bindings_labels(bindings_view(*binds), binds.len() as int),
            LABEL_LIMIT as int,
        ),
    decreases binds,
{
    let ghost bv = bindings_view(*binds);
    let n = binds.len();
    let mut acc: i64 = 0;
    let mut i: usize = 0;
    while i < n
        invariant
            i <= n,
            n == binds.len(),
            bv == bindings_view(*binds),
            acc == bindings_labels(bv, i as int),
            0 <= acc <= LABEL_LIMIT,
        decreases n - i,
    {
        proof {
            lemma_bindings_grow(bv, i + 1, n as int);
            lemma_measures(bv[i as int].1);
        }
        match label_count(&binds[i].1) {
            Some(c) => {
                if acc + c > LABEL_LIMIT {
                    return None;
                }
                acc = acc + c;
            },
            None => {
                return None;
            },
        }
        i += 1;
    }
    Some(acc)
}

} // verus!
