//! The labels that the code of an expression defines are fresh: each bears
//! a number of its own, taken from the numbers that the expression was
//! given, and so no two of them are the same label.

use vstd::prelude::*;
use crate::ast::{Definition, ExprView, Op1, Op2};
use crate::codegen::{
    bindings_env, bindings_labels, emit, emit_bindings, emit_seq, emit_spilled, labels,
    seq_labels,
};
use crate::compiler::{lemma_bindings_measures, lemma_measures, lemma_seq_measures};
use crate::decimal::{int_text, lemma_int_text_round_trip, nat_text};
use crate::instr::{InstrView, Reg};
use crate::shapes::{
    align16, binop_code, call_code, fill_words, heap_word, if_code, imm, label, loop_code,
    loop_end, numbered, push_slots, reg, reserve_code, slot, spill, tuple_code, unop_code,
    var_cell,
};
use crate::value::FALSE_VAL;

verus! {

/// The digits of a number hold no underscore.
pub proof fn lemma_digits_plain(n: nat, i: int)
    requires
        0 <= i < nat_text(n).len(),
    ensures
        nat_text(n)[i] != '_',
    decreases n,
{
    if n >= 10 {
        if i < nat_text(n / 10).len() {
            lemma_digits_plain(n / 10, i);
        }
    }
}

/// The text of an integer holds no underscore.
pub proof fn lemma_int_text_plain(n: int, i: int)
    requires
        0 <= i < int_text(n).len(),
    ensures
        int_text(n)[i] != '_',
{
    if n < 0 {
        if i > 0 {
            lemma_digits_plain((-n) as nat, i - 1);
        }
    } else {
        lemma_digits_plain(n as nat, i);
    }
}

/// Two numbered labels are the same label only if they bear the same
/// number.
pub proof fn lemma_numbered_differ(p: Seq<char>, n: int, q: Seq<char>, m: int)
    requires
        numbered(p, n) == numbered(q, m),
    ensures
        n == m,
        p == q,
{
    reveal_strlit("_");
    let a = numbered(p, n);
    let b = numbered(q, m);
    let s = int_text(n);
    let t = int_text(m);
    assert(a.len() == p.len() + 1 + s.len());
    assert(b.len() == q.len() + 1 + t.len());
    assert(a[p.len() as int] == '_');
    assert(b[q.len() as int] == '_');
    if p.len() < q.len() {
        let i = q.len() - p.len() - 1;
        assert(a[q.len() as int] == s[i]);
        lemma_int_text_plain(n, i);
    } else if q.len() < p.len() {
        let i = p.len() - q.len() - 1;
        assert(b[p.len() as int] == t[i]);
        lemma_int_text_plain(m, i);
    } else {
        assert(s =~= a.subrange(p.len() as int + 1, a.len() as int));
        assert(t =~= b.subrange(q.len() as int + 1, b.len() as int));
        assert(p =~= a.subrange(0, p.len() as int));
        assert(q =~= b.subrange(0, q.len() as int));
        lemma_int_text_round_trip(n);
        lemma_int_text_round_trip(m);
    }
}

/// Whether every label that `code` defines is a numbered label with a
/// number in `numbers`.
pub open spec fn labels_in(code: Seq<InstrView>, numbers: Set<int>) -> bool {
    forall|i: int|
        0 <= i < code.len() && (#[trigger] code[i]) is ILabel ==> exists|p: Seq<char>, n: int|
            numbers.contains(n) && code[i] == InstrView::ILabel(#[trigger] numbered(p, n))
}

/// Whether no two instructions of `code` define the same label.
pub open spec fn labels_distinct(code: Seq<InstrView>) -> bool {
    forall|i: int, j: int|
        0 <= i < j < code.len() && (#[trigger] code[i]) is ILabel && (#[trigger] code[j]) is ILabel
            ==> code[i] != code[j]
}

/// Whether `code` defines fresh labels with numbers in `numbers`.
pub open spec fn fresh(code: Seq<InstrView>, numbers: Set<int>) -> bool {
    labels_in(code, numbers) && labels_distinct(code)
}

/// The numbers from `lo` up to, not including, `hi`.
pub open spec fn span(lo: int, hi: int) -> Set<int> {
    Set::new(|n: int| lo <= n < hi)
}

/// Code without labels defines fresh labels, of whatever numbers.
pub proof fn lemma_fresh_none(code: Seq<InstrView>, numbers: Set<int>)
    requires
        forall|i: int| 0 <= i < code.len() ==> !((#[trigger] code[i]) is ILabel),
    ensures
        fresh(code, numbers),
{
}

/// Code with fresh labels, followed by code with fresh labels of other
/// numbers, defines fresh labels.
pub proof fn lemma_fresh_join(a: Seq<InstrView>, s: Set<int>, b: Seq<InstrView>, t: Set<int>)
    requires
        fresh(a, s),
        fresh(b, t),
        s.disjoint(t),
    ensures
        fresh(a + b, s.union(t)),
{
    let c = a + b;
    assert forall|i: int| 0 <= i < c.len() && (#[trigger] c[i]) is ILabel implies exists|
        p: Seq<char>,
        n: int,
    | s.union(t).contains(n) && c[i] == InstrView::ILabel(#[trigger] numbered(p, n)) by {
        if i < a.len() {
            assert(c[i] == a[i]);
            let (p, n) = choose|p: Seq<char>, n: int|
                s.contains(n) && a[i] == InstrView::ILabel(#[trigger] numbered(p, n));
            assert(s.union(t).contains(n) && c[i] == InstrView::ILabel(numbered(p, n)));
        } else {
            assert(c[i] == b[i - a.len()]);
            let (p, n) = choose|p: Seq<char>, n: int|
                t.contains(n) && b[i - a.len()] == InstrView::ILabel(#[trigger] numbered(p, n));
            assert(s.union(t).contains(n) && c[i] == InstrView::ILabel(numbered(p, n)));
        }
    }
    assert forall|i: int, j: int|
        0 <= i < j < c.len() && (#[trigger] c[i]) is ILabel && (#[trigger] c[j]) is ILabel implies c[i]
        != c[j] by {
        if j < a.len() {
            assert(c[i] == a[i] && c[j] == a[j]);
        } else if i >= a.len() {
            assert(c[i] == b[i - a.len()] && c[j] == b[j - a.len()]);
        } else {
            assert(c[i] == a[i] && c[j] == b[j - a.len()]);
            let (p, n) = choose|p: Seq<char>, n: int|
                s.contains(n) && a[i] == InstrView::ILabel(#[trigger] numbered(p, n));
            let (q, m) = choose|q: Seq<char>, m: int|
                t.contains(m) && b[j - a.len()] == InstrView::ILabel(#[trigger] numbered(q, m));
            if c[i] == c[j] {
                lemma_numbered_differ(p, n, q, m);
            }
        }
    }
}

/// Fresh labels with numbers in a set have numbers in every set that holds
/// that set.
pub proof fn lemma_fresh_wider(code: Seq<InstrView>, s: Set<int>, t: Set<int>)
    requires
        fresh(code, s),
        s.subset_of(t),
    ensures
        fresh(code, t),
{
    assert forall|i: int| 0 <= i < code.len() && (#[trigger] code[i]) is ILabel implies exists|
        p: Seq<char>,
        n: int,
    | t.contains(n) && code[i] == InstrView::ILabel(#[trigger] numbered(p, n)) by {
        let (p, n) = choose|p: Seq<char>, n: int|
            s.contains(n) && code[i] == InstrView::ILabel(#[trigger] numbered(p, n));
        assert(t.contains(n) && code[i] == InstrView::ILabel(numbered(p, n)));
    }
}

/// Whether `code` defines no label.
pub open spec fn plain(code: Seq<InstrView>) -> bool {
    forall|i: int| 0 <= i < code.len() ==> !((#[trigger] code[i]) is ILabel)
}

/// Code without labels after code without labels is code without labels.
pub proof fn lemma_plain_join(a: Seq<InstrView>, b: Seq<InstrView>)
    requires
        plain(a),
        plain(b),
    ensures
        plain(a + b),
{
    assert forall|i: int| 0 <= i < (a + b).len() implies !((#[trigger] (a + b)[i]) is ILabel) by {
        if i < a.len() {
            assert((a + b)[i] == a[i]);
        } else {
            assert((a + b)[i] == b[i - a.len()]);
        }
    }
}

/// Code without labels after code with fresh labels defines the same
/// labels.
pub proof fn lemma_fresh_then_plain(a: Seq<InstrView>, s: Set<int>, b: Seq<InstrView>)
    requires
        fresh(a, s),
        plain(b),
    ensures
        fresh(a + b, s),
{
    lemma_fresh_none(b, Set::empty());
    lemma_fresh_join(a, s, b, Set::empty());
    lemma_fresh_wider(a + b, s.union(Set::empty()), s);
}

/// Two pieces of code with fresh labels of adjoining spans of numbers, one
/// after the other, define fresh labels of the whole span.
pub proof fn lemma_fresh_spans(a: Seq<InstrView>, b: Seq<InstrView>, lo: int, mid: int, hi: int)
    requires
        fresh(a, span(lo, mid)),
        fresh(b, span(mid, hi)),
        lo <= mid <= hi,
    ensures
        fresh(a + b, span(lo, hi)),
{
    lemma_fresh_join(a, span(lo, mid), b, span(mid, hi));
    lemma_fresh_wider(a + b, span(lo, mid).union(span(mid, hi)), span(lo, hi));
}

/// The definition of one numbered label is fresh.
pub proof fn lemma_fresh_one(before: Seq<InstrView>, p: Seq<char>, n: int)
    requires
        plain(before),
    ensures
        fresh(before.push(InstrView::ILabel(numbered(p, n))), span(n, n + 1)),
{
    let code = before.push(InstrView::ILabel(numbered(p, n)));
    assert forall|i: int| 0 <= i < code.len() && (#[trigger] code[i]) is ILabel implies exists|
        q: Seq<char>,
        m: int,
    | span(n, n + 1).contains(m) && code[i] == InstrView::ILabel(#[trigger] numbered(q, m)) by {
        if i < before.len() {
            assert(code[i] == before[i]);
        } else {
            assert(span(n, n + 1).contains(n) && code[i] == InstrView::ILabel(numbered(p, n)));
        }
    }
    assert forall|i: int, j: int|
        0 <= i < j < code.len() && (#[trigger] code[i]) is ILabel && (
        #[trigger] code[j]) is ILabel implies code[i] != code[j] by {
        assert(code[i] == before[i]);
    }
}

/// The code of the operators, of a kept value and of a call defines no
/// label.
pub proof fn lemma_plain_shapes(op1: Op1, op2: Op2, f: Seq<char>, n: int, si: int)
    ensures
        plain(unop_code(op1)),
        plain(binop_code(op2, si)),
        plain(spill(si)),
        plain(call_code(f, n, si)),
        plain(fill_words(n, si)),
{
    lemma_plain_pushes(n, 0, si);
    lemma_plain_fill(n, si);
    assert(plain(call_code(f, n, si))) by {
        let pad = if n % 2 == 0 {
            Seq::<InstrView>::empty()
        } else {
            seq![InstrView::IPush(imm(0))]
        };
        let tail = seq![
            InstrView::ICall(label(f)),
            InstrView::IAdd(reg(Reg::RSP), imm(
                align16(n) * 8,
            )),
        ];
        lemma_plain_join(pad, push_slots(n, 0, si));
        lemma_plain_join(pad + push_slots(n, 0, si), tail);
    }
}

/// The code that pushes slots defines no label.
pub proof fn lemma_plain_pushes(n: int, i: int, si: int)
    ensures
        plain(push_slots(n, i, si)),
    decreases n - i,
{
    if i < n {
        lemma_plain_pushes(n, i + 1, si);
        let last = seq![
            InstrView::IMov(reg(Reg::RAX), slot(si + i)),
            InstrView::IPush(reg(Reg::RAX)),
        ];
        lemma_plain_join(push_slots(n, i + 1, si), last);
    }
}

/// The code that fills the words of a tuple defines no label.
pub proof fn lemma_plain_fill(k: int, si: int)
    ensures
        plain(fill_words(k, si)),
    decreases k,
{
    if k > 0 {
        lemma_plain_fill(k - 1, si);
        let last = seq![
            InstrView::IMov(
                reg(Reg::RAX),
                slot(si + k - 1),
            ),
            InstrView::IMov(
                heap_word(k + 1),
                reg(Reg::RAX),
            ),
        ];
        lemma_plain_join(fill_words(k - 1, si), last);
    }
}

/// The code that builds a tuple defines one label, which bears the number
/// that the tuple was given.
pub proof fn lemma_fresh_tuple(n: int, si: int, l: int)
    ensures
        fresh(tuple_code(n, si, l), span(l, l + 1)),
{
    let reserve = reserve_code(n, l);
    let first = reserve.subrange(0, 11);
    assert(reserve =~= first.push(InstrView::ILabel(numbered("tuple_alloc"@, l))));
    assert(plain(first));
    lemma_fresh_one(first, "tuple_alloc"@, l);
    let header = seq![
        InstrView::IMov(reg(Reg::RAX), imm(0)),
        InstrView::IMov(heap_word(0), reg(Reg::RAX)),
        InstrView::IMov(reg(Reg::RAX), imm(2 * n)),
        InstrView::IMov(heap_word(1), reg(Reg::RAX)),
    ];
    let tail = seq![
        InstrView::IMov(
            reg(Reg::RAX),
            reg(Reg::R15),
        ),
        InstrView::IAdd(reg(Reg::RAX), imm(1)),
        InstrView::IAdd(
            reg(Reg::R15),
            imm((n + 2) * 8),
        ),
    ];
    lemma_plain_fill(n, si);
    lemma_fresh_then_plain(reserve, span(l, l + 1), header);
    lemma_fresh_then_plain(reserve + header, span(l, l + 1), fill_words(n, si));
    lemma_fresh_then_plain(reserve + header + fill_words(n, si), span(l, l + 1), tail);
}

/// The code around the parts of an `if` defines two labels of its own,
/// with the two numbers that the `if` was given first.
pub proof fn lemma_fresh_if(
    cond: Seq<InstrView>,
    then_part: Seq<InstrView>,
    alt: Seq<InstrView>,
    l: int,
    a: int,
    b: int,
    c: int,
)
    requires
        l + 2 <= a <= b <= c,
        fresh(cond, span(l + 2, a)),
        fresh(then_part, span(a, b)),
        fresh(alt, span(b, c)),
    ensures
        fresh(if_code(cond, then_part, alt, l), span(l, c)),
{
    let test = seq![
        InstrView::ICmp(
            reg(Reg::RAX),
            imm(FALSE_VAL as int),
        ),
        InstrView::IJe(label(numbered("if_else"@, l + 1))),
    ];
    let jump = seq![InstrView::IJmp(label(numbered("if_end"@, l)))];
    let middle = jump.push(InstrView::ILabel(numbered("if_else"@, l + 1)));
    let end = Seq::<InstrView>::empty().push(InstrView::ILabel(numbered("if_end"@, l)));
    assert(if_code(cond, then_part, alt, l) =~= cond + test + then_part + middle + alt + end);
    lemma_fresh_then_plain(cond, span(l + 2, a), test);
    lemma_fresh_spans(cond + test, then_part, l + 2, a, b);
    lemma_fresh_one(jump, "if_else"@, l + 1);
    lemma_fresh_join(cond + test + then_part, span(l + 2, b), middle, span(l + 1, l + 2));
    lemma_fresh_wider(
        cond + test + then_part + middle,
        span(l + 2, b).union(span(l + 1, l + 2)),
        span(l + 1, b),
    );
    lemma_fresh_spans(cond + test + then_part + middle, alt, l + 1, b, c);
    lemma_fresh_one(Seq::empty(), "if_end"@, l);
    lemma_fresh_join(
        cond + test + then_part + middle + alt,
        span(l + 1, c),
        end,
        span(l, l + 1),
    );
    lemma_fresh_wider(
        cond + test + then_part + middle + alt + end,
        span(l + 1, c).union(span(l, l + 1)),
        span(l, c),
    );
}

/// The code around the body of a `loop` defines two labels of its own,
/// with the two numbers that the `loop` was given first.
pub proof fn lemma_fresh_loop(body: Seq<InstrView>, l: int, c: int)
    requires
        l + 2 <= c,
        fresh(body, span(l + 2, c)),
    ensures
        fresh(loop_code(body, l), span(l, c)),
{
    let start = Seq::<InstrView>::empty().push(InstrView::ILabel(numbered("loop_start"@, l)));
    let jump = seq![InstrView::IJmp(label(numbered("loop_start"@, l)))];
    let end = jump.push(InstrView::ILabel(loop_end(l)));
    assert(loop_code(body, l) =~= start + body + end);
    lemma_fresh_one(Seq::empty(), "loop_start"@, l);
    lemma_fresh_join(start, span(l, l + 1), body, span(l + 2, c));
    lemma_fresh_one(jump, "loop_end"@, l + 1);
    lemma_fresh_join(start + body, span(l, l + 1).union(span(l + 2, c)), end, span(l + 1, l + 2));
    lemma_fresh_wider(
        start + body + end,
        span(l, l + 1).union(span(l + 2, c)).union(span(l + 1, l + 2)),
        span(l, c),
    );
}

/// The labels that the code of an expression defines are fresh, and bear
/// numbers from the number that the expression was given on, as many as
/// the expression takes.
pub proof fn lemma_emit_fresh(
    e: ExprView,
    si: int,
    env: Map<Seq<char>, i64>,
    l: int,
    target: Seq<char>,
    defs: Map<Seq<char>, Definition>,
)
    requires
        emit(e, si, env, l, target, defs) is Ok,
    ensures
        fresh(emit(e, si, env, l, target, defs)->Ok_0, span(l, l + labels(e))),
    decreases e, 0nat,
{
    let code = emit(e, si, env, l, target, defs)->Ok_0;
    let all = span(l, l + labels(e));
    lemma_measures(e);
    lemma_plain_shapes(Op1::Add1, Op2::Plus, Seq::empty(), 0, si);
    match e {
        ExprView::Number(_) => {
            lemma_fresh_none(code, all);
        },
        ExprView::Boolean(_) => {
            lemma_fresh_none(code, all);
        },
        ExprView::Id(_) => {
            lemma_fresh_none(code, all);
        },
        ExprView::UnOp(op, a) => {
            lemma_emit_fresh(*a, si, env, l, target, defs);
            lemma_plain_shapes(op, Op2::Plus, Seq::empty(), 0, si);
            lemma_fresh_then_plain(emit(*a, si, env, l, target, defs)->Ok_0, all, unop_code(op));
        },
        ExprView::BinOp(op, a, b) => {
            let ca = emit(*a, si, env, l, target, defs)->Ok_0;
            let cb = emit(*b, si + 1, env, l + labels(*a), target, defs)->Ok_0;
            lemma_emit_fresh(*a, si, env, l, target, defs);
            lemma_emit_fresh(*b, si + 1, env, l + labels(*a), target, defs);
            lemma_measures(*a);
            lemma_measures(*b);
            lemma_plain_shapes(Op1::Add1, op, Seq::empty(), 0, si);
            lemma_fresh_then_plain(ca, span(l, l + labels(*a)), spill(si));
            lemma_fresh_then_plain(cb, span(l + labels(*a), l + labels(e)), binop_code(op, si));
            lemma_fresh_spans(
                ca + spill(si),
                cb + binop_code(op, si),
                l,
                l + labels(*a),
                l + labels(e),
            );
        },
        ExprView::Let(binds, body) => {
            let n = binds.len() as int;
            let mid = l + bindings_labels(binds, n);
            lemma_bindings_fresh(binds, n, si, env, l, target, defs);
            lemma_emit_fresh(*body, si + n, bindings_env(binds, n, si, env), mid, target, defs);
            lemma_bindings_measures(binds, n);
            lemma_measures(*body);
            lemma_fresh_spans(
                emit_bindings(binds, n, si, env, l, target, defs)->Ok_0,
                emit(*body, si + n, bindings_env(binds, n, si, env), mid, target, defs)->Ok_0,
                l,
                mid,
                l + labels(e),
            );
        },
        ExprView::If(c, t, a) => {
            let x = l + 2 + labels(*c);
            let y = x + labels(*t);
            lemma_emit_fresh(*c, si, env, l + 2, target, defs);
            lemma_emit_fresh(*t, si, env, x, target, defs);
            lemma_emit_fresh(*a, si, env, y, target, defs);
            lemma_measures(*c);
            lemma_measures(*t);
            lemma_measures(*a);
            lemma_fresh_if(
                emit(*c, si, env, l + 2, target, defs)->Ok_0,
                emit(*t, si, env, x, target, defs)->Ok_0,
                emit(*a, si, env, y, target, defs)->Ok_0,
                l,
                x,
                y,
                y + labels(*a),
            );
        },
        ExprView::Loop(a) => {
            lemma_emit_fresh(*a, si, env, l + 2, loop_end(l), defs);
            lemma_measures(*a);
            lemma_fresh_loop(
                emit(*a, si, env, l + 2, loop_end(l), defs)->Ok_0,
                l,
                l + 2 + labels(*a),
            );
        },
        ExprView::Break(a) => {
            let ca = emit(*a, si, env, l, Seq::empty(), defs)->Ok_0;
            lemma_emit_fresh(*a, si, env, l, Seq::empty(), defs);
            let jump = seq![InstrView::IJmp(label(target))];
            lemma_fresh_then_plain(ca, all, jump);
        },
        ExprView::SetVar(x, a) => {
            let ca = emit(*a, si, env, l, target, defs)->Ok_0;
            lemma_emit_fresh(*a, si, env, l, target, defs);
            let store = seq![
                InstrView::IMov(
                    var_cell(env[x]),
                    reg(Reg::RAX),
                ),
            ];
            lemma_fresh_then_plain(ca, all, store);
        },
        ExprView::Block(es) => {
            lemma_seq_fresh(es, es.len() as int, si, env, l, target, defs);
        },
        ExprView::Tuple(es) => {
            let n = es.len() as int;
            let ce = emit_spilled(es, n, si, env, l + 1, target, defs)->Ok_0;
            lemma_spilled_fresh(es, n, si, env, l + 1, target, defs);
            lemma_seq_measures(es, n);
            lemma_fresh_tuple(n, si, l);
            lemma_fresh_join(
                ce,
                span(l + 1, l + 1 + seq_labels(es, n)),
                tuple_code(n, si, l),
                span(l, l + 1),
            );
            lemma_fresh_wider(
                ce + tuple_code(n, si, l),
                span(l + 1, l + 1 + seq_labels(es, n)).union(span(l, l + 1)),
                all,
            );
        },
        ExprView::Call(f, es) => {
            let n = es.len() as int;
            lemma_spilled_fresh(es, n, si, env, l, target, defs);
            lemma_plain_shapes(Op1::Add1, Op2::Plus, f, n, si);
            lemma_fresh_then_plain(
                emit_spilled(es, n, si, env, l, target, defs)->Ok_0,
                all,
                call_code(f, n, si),
            );
        },
    }
}

/// The labels of the code of a block are fresh.
pub proof fn lemma_seq_fresh(
    es: Seq<ExprView>,
    n: int,
    si: int,
    env: Map<Seq<char>, i64>,
    l: int,
    target: Seq<char>,
    defs: Map<Seq<char>, Definition>,
)
    requires
        emit_seq(es, n, si, env, l, target, defs) is Ok,
    ensures
        fresh(emit_seq(es, n, si, env, l, target, defs)->Ok_0, span(l, l + seq_labels(es, n))),
    decreases es, n,
{
    if n <= 0 || n > es.len() {
        lemma_fresh_none(Seq::empty(), span(l, l + seq_labels(es, n)));
    } else {
        lemma_seq_fresh(es, n - 1, si, env, l, target, defs);
        lemma_emit_fresh(es[n - 1], si, env, l + seq_labels(es, n - 1), target, defs);
        lemma_seq_measures(es, n - 1);
        lemma_measures(es[n - 1]);
        lemma_fresh_spans(
            emit_seq(es, n - 1, si, env, l, target, defs)->Ok_0,
            emit(es[n - 1], si, env, l + seq_labels(es, n - 1), target, defs)->Ok_0,
            l,
            l + seq_labels(es, n - 1),
            l + seq_labels(es, n),
        );
    }
}

/// The labels of the code of the elements of a tuple or of the arguments
/// of a call are fresh.
pub proof fn lemma_spilled_fresh(
    es: Seq<ExprView>,
    n: int,
    si: int,
    env: Map<Seq<char>, i64>,
    l: int,
    target: Seq<char>,
    defs: Map<Seq<char>, Definition>,
)
    requires
        emit_spilled(es, n, si, env, l, target, defs) is Ok,
    ensures
        fresh(emit_spilled(es, n, si, env, l, target, defs)->Ok_0, span(l, l + seq_labels(es, n))),
    decreases es, n,
{
    if n <= 0 || n > es.len() {
        lemma_fresh_none(Seq::empty(), span(l, l + seq_labels(es, n)));
    } else {
        let mid = l + seq_labels(es, n - 1);
        let ce = emit(es[n - 1], si + n - 1, env, mid, target, defs)->Ok_0;
        lemma_spilled_fresh(es, n - 1, si, env, l, target, defs);
        lemma_emit_fresh(es[n - 1], si + n - 1, env, mid, target, defs);
        lemma_seq_measures(es, n - 1);
        lemma_measures(es[n - 1]);
        lemma_plain_shapes(Op1::Add1, Op2::Plus, Seq::empty(), 0, si + n - 1);
        lemma_fresh_then_plain(ce, span(mid, l + seq_labels(es, n)), spill(si + n - 1));
        lemma_fresh_spans(
            emit_spilled(es, n - 1, si, env, l, target, defs)->Ok_0,
            ce + spill(si + n - 1),
            l,
            mid,
            l + seq_labels(es, n),
        );
    }
}

/// The labels of the code of the bindings of a `let` are fresh.
pub proof fn lemma_bindings_fresh(
    binds: Seq<(Seq<char>, ExprView)>,
    n: int,
    si: int,
    env: Map<Seq<char>, i64>,
    l: int,
    target: Seq<char>,
    defs: Map<Seq<char>, Definition>,
)
    requires
        emit_bindings(binds, n, si, env, l, target, defs) is Ok,
    ensures
        fresh(
            emit_bindings(binds, n, si, env, l, target, defs)->Ok_0,
            span(l, l + bindings_labels(binds, n)),
        ),
    decreases binds, n,
{
    if n <= 0 || n > binds.len() {
        lemma_fresh_none(Seq::empty(), span(l, l + bindings_labels(binds, n)));
    } else {
        let mid = l + bindings_labels(binds, n - 1);
        let inner = bindings_env(binds, n - 1, si, env);
        let ce = emit(binds[n - 1].1, si + n - 1, inner, mid, target, defs)->Ok_0;
        lemma_bindings_fresh(binds, n - 1, si, env, l, target, defs);
        lemma_emit_fresh(binds[n - 1].1, si + n - 1, inner, mid, target, defs);
        lemma_bindings_measures(binds, n - 1);
        lemma_measures(binds[n - 1].1);
        lemma_plain_shapes(Op1::Add1, Op2::Plus, Seq::empty(), 0, si + n - 1);
        lemma_fresh_then_plain(ce, span(mid, l + bindings_labels(binds, n)), spill(si + n - 1));
        lemma_fresh_spans(
            emit_bindings(binds, n - 1, si, env, l, target, defs)->Ok_0,
            ce + spill(si + n - 1),
            l,
            mid,
            l + bindings_labels(binds, n),
        );
    }
}

} // verus!
