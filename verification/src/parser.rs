//! The parser: from forms to expressions, definitions and programs.

use vstd::prelude::*;
use crate::ast::{
    exprs_view, names_view, Definition, DefinitionView, Expr, ExprView, Op1, Op2, Program,
    StaticError, StaticErrorView,
};
use crate::compiler::{bindings_view, is_text};
use crate::reader::{
    form_view, forms_view, read_form, sexp_parse, split_sexps, split_spec, texts_view, Form,
    FormView,
};
use crate::tables::{defs_get, defs_map, defs_new, defs_update};
use crate::value::{representable, INT_MAX, INT_MIN};

verus! {

/// Whether a name is reserved: it may not be bound by `let`, be a
/// parameter, be assigned to or be called.
pub open spec fn is_keyword(s: Seq<char>) -> bool {
    s == "add1"@ || s == "sub1"@ || s == "let"@ || s == "+"@ || s == "-"@ || s == "*"@ || s
        == "<"@ || s == ">"@ || s == ">="@ || s == "<="@ || s == "="@ || s == "true"@ || s
        == "false"@ || s == "input"@ || s == "isnum"@ || s == "isbool"@ || s == "loop"@ || s
        == "break"@ || s == "set!"@ || s == "if"@ || s == "fun"@ || s == "print"@ || s
        == "index"@ || s == "tuple"@ || s == "block"@ || s == "nil"@
}

/// The unary operator that a name stands for.
pub open spec fn unary_op(s: Seq<char>) -> Option<Op1> {
    if s == "add1"@ {
        Some(Op1::Add1)
    } else if s == "sub1"@ {
        Some(Op1::Sub1)
    } else if s == "isnum"@ {
        Some(Op1::IsNum)
    } else if s == "isbool"@ {
        Some(Op1::IsBool)
    } else if s == "print"@ {
        Some(Op1::Print)
    } else {
        None
    }
}

/// The binary operator that a name stands for.
pub open spec fn binary_op(s: Seq<char>) -> Option<Op2> {
    if s == "+"@ {
        Some(Op2::Plus)
    } else if s == "-"@ {
        Some(Op2::Minus)
    } else if s == "*"@ {
        Some(Op2::Times)
    } else if s == "<"@ {
        Some(Op2::Less)
    } else if s == ">"@ {
        Some(Op2::Greater)
    } else if s == ">="@ {
        Some(Op2::GreaterOrEqual)
    } else if s == "<="@ {
        Some(Op2::LessOrEqual)
    } else if s == "="@ {
        Some(Op2::Equal)
    } else if s == "index"@ {
        Some(Op2::Index)
    } else {
        None
    }
}

/// The expression that a form stands for, or `None` where it stands for
/// none.
///
/// A symbol is a variable, but for `true` and `false`. An integer must be
/// representable. A list is read by its first item, which must be a symbol:
/// an operator or a keyword with the items that it takes, or else the name
/// of a function with its arguments.
pub open spec fn parse_form(f: FormView) -> Option<ExprView>
    decreases f, 0nat, 0nat,
{
    match f {
        FormView::Sym(s) => Some(
            if s == "true"@ {
                ExprView::Boolean(true)
            } else if s == "false"@ {
                ExprView::Boolean(false)
            } else {
                ExprView::Id(s)
            },
        ),
        FormView::Int(n) => if representable(n as int) {
            Some(ExprView::Number(n))
        } else {
            None
        },
        FormView::Float => None,
        FormView::List(items) => if items.len() == 0 {
            None
        } else {
            match items[0] {
                FormView::Sym(op) => parse_list(op, items),
                _ => None,
            }
        },
    }
}

/// The expression that a list stands for whose first item is the symbol
/// `op`.
pub open spec fn parse_list(op: Seq<char>, items: Seq<FormView>) -> Option<ExprView>
    decreases items, 2nat, 0nat,
{
    if items.len() == 0 {
        None
    } else if unary_op(op) is Some {
        if items.len() == 2 {
            match parse_form(items[1]) {
                Some(a) => Some(ExprView::UnOp(unary_op(op)->Some_0, Box::new(a))),
                None => None,
            }
        } else {
            None
        }
    } else if binary_op(op) is Some {
        if items.len() == 3 {
            match (parse_form(items[1]), parse_form(items[2])) {
                (Some(a), Some(b)) => Some(
                    ExprView::BinOp(binary_op(op)->Some_0, Box::new(a), Box::new(b)),
                ),
                _ => None,
            }
        } else {
            None
        }
    } else if op == "set!"@ {
        if items.len() == 3 {
            match (items[1], parse_form(items[2])) {
                (FormView::Sym(id), Some(a)) => if is_keyword(id) {
                    None
                } else {
                    Some(ExprView::SetVar(id, Box::new(a)))
                },
                _ => None,
            }
        } else {
            None
        }
    } else if op == "if"@ {
        if items.len() == 4 {
            match (parse_form(items[1]), parse_form(items[2]), parse_form(items[3])) {
                (Some(c), Some(t), Some(a)) => Some(
                    ExprView::If(Box::new(c), Box::new(t), Box::new(a)),
                ),
                _ => None,
            }
        } else {
            None
        }
    } else if op == "break"@ {
        if items.len() == 2 {
            match parse_form(items[1]) {
                Some(a) => Some(ExprView::Break(Box::new(a))),
                None => None,
            }
        } else {
            None
        }
    } else if op == "loop"@ {
        if items.len() == 2 {
            match parse_form(items[1]) {
                Some(a) => Some(ExprView::Loop(Box::new(a))),
                None => None,
            }
        } else {
            None
        }
    } else if op == "block"@ {
        if items.len() >= 2 {
            match parse_each(items, items.len() as int) {
                Some(es) => Some(ExprView::Block(es)),
                None => None,
            }
        } else {
            None
        }
    } else if op == "tuple"@ {
        if items.len() >= 2 {
            match parse_each(items, items.len() as int) {
                Some(es) => Some(ExprView::Tuple(es)),
                None => None,
            }
        } else {
            None
        }
    } else if op == "let"@ {
        if items.len() == 3 {
            match items[1] {
                FormView::List(binds) => if binds.len() == 0 {
                    None
                } else {
                    match (parse_bindings(binds, binds.len() as int), parse_form(items[2])) {
                        (Some(bs), Some(body)) => Some(ExprView::Let(bs, Box::new(body))),
                        _ => None,
                    }
                },
                _ => None,
            }
        } else {
            None
        }
    } else if is_keyword(op) {
        None
    } else {
        match parse_each(items, items.len() as int) {
            Some(es) => Some(ExprView::Call(op, es)),
            None => None,
        }
    }
}

/// The expressions of the items of a list after its first, up to item `n`.
pub open spec fn parse_each(items: Seq<FormView>, n: int) -> Option<Seq<ExprView>>
    decreases items, 1nat, n,
{
    if n <= 1 || n > items.len() {
        Some(Seq::empty())
    } else {
        match (parse_each(items, n - 1), parse_form(items[n - 1])) {
            (Some(es), Some(e)) => Some(es.push(e)),
            _ => None,
        }
    }
}

/// The binding that a form stands for: a list of a name that is not
/// reserved and an expression.
pub open spec fn parse_binding(f: FormView) -> Option<(Seq<char>, ExprView)>
    decreases f, 0nat, 0nat,
{
    match f {
        FormView::List(pair) => if pair.len() == 2 {
            match (pair[0], parse_form(pair[1])) {
                (FormView::Sym(id), Some(e)) => if is_keyword(id) {
                    None
                } else {
                    Some((id, e))
                },
                _ => None,
            }
        } else {
            None
        },
        _ => None,
    }
}

/// The bindings that the first `n` of `binds` stand for.
pub open spec fn parse_bindings(binds: Seq<FormView>, n: int) -> Option<
    Seq<(Seq<char>, ExprView)>,
>
    decreases binds, 1nat, n,
{
    if n <= 0 || n > binds.len() {
        Some(Seq::empty())
    } else {
        match (parse_bindings(binds, n - 1), parse_binding(binds[n - 1])) {
            (Some(bs), Some(b)) => Some(bs.push(b)),
            _ => None,
        }
    }
}

/// The parameters that the items of a signature after the first `n` ones
/// stand for, up to item `n`: each a symbol that is not reserved.
pub open spec fn parse_params(sig: Seq<FormView>, n: int) -> Option<Seq<Seq<char>>>
    decreases n,
{
    if n <= 1 || n > sig.len() {
        Some(Seq::empty())
    } else {
        match (parse_params(sig, n - 1), sig[n - 1]) {
            (Some(ps), FormView::Sym(p)) => if is_keyword(p) {
                None
            } else {
                Some(ps.push(p))
            },
            _ => None,
        }
    }
}

/// The definition that a form stands for: a list of the symbol `fun`, a
/// signature and a body, where the signature is a list of symbols, the name
/// of the function first and its parameters after it.
pub open spec fn parse_definition(f: FormView) -> Option<DefinitionView> {
    match f {
        FormView::List(items) => if items.len() == 3 && items[0] == FormView::Sym("fun"@) {
            match items[1] {
                FormView::List(sig) => if sig.len() == 0 {
                    None
                } else {
                    match (sig[0], parse_params(sig, sig.len() as int), parse_form(items[2])) {
                        (FormView::Sym(name), Some(params), Some(body)) => Some(
                            DefinitionView { name, params, body },
                        ),
                        _ => None,
                    }
                },
                _ => None,
            }
        } else {
            None
        },
        _ => None,
    }
}

/// What a parser promises: the value that the form stands for, or the error
/// `Invalid` where it stands for none.
pub open spec fn parsed<T: View>(r: Result<T, StaticError>, expected: Option<T::V>) -> bool {
    match r {
        Ok(v) => expected == Some(v@),
        Err(e) => expected is None && e@ == StaticErrorView::Invalid,
    }
}

/// Tells whether a name is reserved.
pub fn is_keyword_name(s: &String) -> (b: bool)
    ensures
        b == is_keyword(s@),
{
    is_text(s, "add1") || is_text(s, "sub1") || is_text(s, "let") || is_text(s, "+") || is_text(
        s,
        "-",
    ) || is_text(s, "*") || is_text(s, "<") || is_text(s, ">") || is_text(s, ">=") || is_text(
        s,
        "<=",
    ) || is_text(s, "=") || is_text(s, "true") || is_text(s, "false") || is_text(s, "input")
        || is_text(s, "isnum") || is_text(s, "isbool") || is_text(s, "loop") || is_text(
        s,
        "break",
    ) || is_text(s, "set!") || is_text(s, "if") || is_text(s, "fun") || is_text(s, "print")
        || is_text(s, "index") || is_text(s, "tuple") || is_text(s, "block") || is_text(s, "nil")
}

fn unary_of(s: &String) -> (r: Option<Op1>)
    ensures
        r == unary_op(s@),
{
    if is_text(s, "add1") {
        Some(Op1::Add1)
    } else if is_text(s, "sub1") {
        Some(Op1::Sub1)
    } else if is_text(s, "isnum") {
        Some(Op1::IsNum)
    } else if is_text(s, "isbool") {
        Some(Op1::IsBool)
    } else if is_text(s, "print") {
        Some(Op1::Print)
    } else {
        None
    }
}

fn binary_of(s: &String) -> (r: Option<Op2>)
    ensures
        r == binary_op(s@),
{
    if is_text(s, "+") {
        Some(Op2::Plus)
    } else if is_text(s, "-") {
        Some(Op2::Minus)
    } else if is_text(s, "*") {
        Some(Op2::Times)
    } else if is_text(s, "<") {
        Some(Op2::Less)
    } else if is_text(s, ">") {
        Some(Op2::Greater)
    } else if is_text(s, ">=") {
        Some(Op2::GreaterOrEqual)
    } else if is_text(s, "<=") {
        Some(Op2::LessOrEqual)
    } else if is_text(s, "=") {
        Some(Op2::Equal)
    } else if is_text(s, "index") {
        Some(Op2::Index)
    } else {
        None
    }
}

/// The views of the items of a list form.
pub open spec fn items_view(items: Vec<Form>) -> Seq<FormView> {
    Seq::new(items.len() as nat, |i: int| form_view(items[i]))
}

/// The expression that a form stands for.
pub fn parse_expr(s: &Form) -> (r: Result<Expr, StaticError>)
    ensures
        parsed(r, parse_form(s@)),
    decreases s, 0nat,
{
    match s {
        Form::Sym(name) => {
            if is_text(name, "true") {
                Ok(Expr::Boolean(true))
            } else if is_text(name, "false") {
                Ok(Expr::Boolean(false))
            } else {
                Ok(Expr::Id(name.clone()))
            }
        },
        Form::Int(n) => {
            if *n < INT_MIN || *n > INT_MAX {
                Err(StaticError::Invalid)
            } else {
                Ok(Expr::Number(*n))
            }
        },
        Form::Float => Err(StaticError::Invalid),
        Form::List(items) => {
            assert(s@->List_0 =~= items_view(*items));
            if items.len() == 0 {
                return Err(StaticError::Invalid);
            }
            match &items[0] {
                Form::Sym(op) => parse_items(op, items),
                _ => Err(StaticError::Invalid),
            }
        },
    }
}

/// The expression that a list stands for whose first item is the symbol
/// `op`.
pub fn parse_items(op: &String, items: &Vec<Form>) -> (r: Result<Expr, StaticError>)
    requires
        items.len() > 0,
    ensures
        parsed(r, parse_list(op@, items_view(*items))),
    decreases items, 1nat,
{
    let ghost iv = items_view(*items);
    let n = items.len();
    if let Some(o) = unary_of(op) {
        if n != 2 {
            return Err(StaticError::Invalid);
        }
        let a = parse_expr(&items[1])?;
        Ok(Expr::UnOp(o, Box::new(a)))
    } else if let Some(o) = binary_of(op) {
        if n != 3 {
            return Err(StaticError::Invalid);
        }
        let a = parse_expr(&items[1])?;
        let b = parse_expr(&items[2])?;
        Ok(Expr::BinOp(o, Box::new(a), Box::new(b)))
    } else if is_text(op, "set!") {
        if n != 3 {
            return Err(StaticError::Invalid);
        }
        match &items[1] {
            Form::Sym(id) => {
                let a = parse_expr(&items[2])?;
                if is_keyword_name(id) {
                    Err(StaticError::Invalid)
                } else {
                    Ok(Expr::SetVar(id.clone(), Box::new(a)))
                }
            },
            _ => Err(StaticError::Invalid),
        }
    } else if is_text(op, "if") {
        if n != 4 {
            return Err(StaticError::Invalid);
        }
        let c = parse_expr(&items[1])?;
        let t = parse_expr(&items[2])?;
        let a = parse_expr(&items[3])?;
        Ok(Expr::If(Box::new(c), Box::new(t), Box::new(a)))
    } else if is_text(op, "break") {
        if n != 2 {
            return Err(StaticError::Invalid);
        }
        let a = parse_expr(&items[1])?;
        Ok(Expr::Break(Box::new(a)))
    } else if is_text(op, "loop") {
        if n != 2 {
            return Err(StaticError::Invalid);
        }
        let a = parse_expr(&items[1])?;
        Ok(Expr::Loop(Box::new(a)))
    } else if is_text(op, "block") {
        if n < 2 {
            return Err(StaticError::Invalid);
        }
        let es = parse_rest(items)?;
        Ok(Expr::Block(es))
    } else if is_text(op, "tuple") {
        if n < 2 {
            return Err(StaticError::Invalid);
        }
        let es = parse_rest(items)?;
        Ok(Expr::Tuple(es))
    } else if is_text(op, "let") {
        if n != 3 {
            return Err(StaticError::Invalid);
        }
        match &items[1] {
            Form::List(binds) => {
                assert(iv[1]->List_0 =~= items_view(*binds));
                if binds.len() == 0 {
                    return Err(StaticError::Invalid);
                }
                let bs = parse_bindings_of(binds)?;
                let body = parse_expr(&items[2])?;
                let e = Expr::Let(bs, Box::new(body));
                assert(e@->Let_0 =~= bindings_view(bs));
                Ok(e)
            },
            _ => Err(StaticError::Invalid),
        }
    } else if is_keyword_name(op) {
        Err(StaticError::Invalid)
    } else {
        let es = parse_rest(items)?;
        Ok(Expr::Call(op.clone(), es))
    }
}

/// The expressions of the items of a list after its first.
pub fn parse_rest(items: &Vec<Form>) -> (r: Result<Vec<Expr>, StaticError>)
    ensures
        match r {
            Ok(es) => parse_each(items_view(*items), items.len() as int) == Some(exprs_view(es)),
            Err(e) => parse_each(items_view(*items), items.len() as int) is None && e@
                == StaticErrorView::Invalid,
        },
    decreases items, 0nat,
{
    let ghost iv = items_view(*items);
    let n = items.len();
    let mut es: Vec<Expr> = Vec::new();
    let mut i: usize = 1;
    assert(exprs_view(es) =~= Seq::<ExprView>::empty());
    while i < n
        invariant
            1 <= i,
            i <= n || n == 0,
            n == items.len(),
            iv == items_view(*items),
            parse_each(iv, i as int) == Some(exprs_view(es)),
        decreases n - i,
    {
        match parse_expr(&items[i]) {
            Ok(e) => {
                let ghost before = exprs_view(es);
                es.push(e);
                assert(exprs_view(es) =~= before.push(e@));
            },
            Err(x) => {
                proof {
                    lemma_each_none(iv, i + 1, n as int);
                }
                return Err(x);
            },
        }
        i += 1;
    }
    Ok(es)
}

/// Where a prefix of a list stands for no expressions, neither does a
/// longer one.
pub proof fn lemma_each_none(items: Seq<FormView>, m: int, n: int)
    requires
        1 <= m <= n <= items.len(),
    ensures
        parse_each(items, m) is None ==> parse_each(items, n) is None,
    decreases n - m,
{
    if m < n {
        lemma_each_none(items, m, n - 1);
    }
}

/// Where a prefix of a list stands for no bindings, neither does a longer
/// one.
pub proof fn lemma_bindings_none(binds: Seq<FormView>, m: int, n: int)
    requires
        0 <= m <= n <= binds.len(),
    ensures
        parse_bindings(binds, m) is None ==> parse_bindings(binds, n) is None,
    decreases n - m,
{
    if m < n {
        lemma_bindings_none(binds, m, n - 1);
    }
}

/// Where a prefix of a signature stands for no parameters, neither does a
/// longer one.
pub proof fn lemma_params_none(sig: Seq<FormView>, m: int, n: int)
    requires
        1 <= m <= n <= sig.len(),
    ensures
        parse_params(sig, m) is None ==> parse_params(sig, n) is None,
    decreases n - m,
{
    if m < n {
        lemma_params_none(sig, m, n - 1);
    }
}

/// The binding that a form stands for.
pub fn parse_binding_of(f: &Form) -> (r: Result<(String, Expr), StaticError>)
    ensures
        match r {
            Ok(b) => parse_binding(f@) == Some((b.0@, b.1@)),
            Err(e) => parse_binding(f@) is None && e@ == StaticErrorView::Invalid,
        },
    decreases f, 0nat,
{
    match f {
        Form::List(pair) => {
            assert(f@->List_0 =~= items_view(*pair));
            if pair.len() != 2 {
                return Err(StaticError::Invalid);
            }
            match &pair[0] {
                Form::Sym(id) => {
                    let e = parse_expr(&pair[1])?;
                    if is_keyword_name(id) {
                        return Err(StaticError::Invalid);
                    }
                    Ok((id.clone(), e))
                },
                _ => Err(StaticError::Invalid),
            }
        },
        _ => Err(StaticError::Invalid),
    }
}

/// The bindings that the forms of the first part of a `let` stand for.
pub fn parse_bindings_of(binds: &Vec<Form>) -> (r: Result<Vec<(String, Expr)>, StaticError>)
    ensures
        match r {
            Ok(bs) => parse_bindings(items_view(*binds), binds.len() as int) == Some(
                bindings_view(bs),
            ),
            Err(e) => parse_bindings(items_view(*binds), binds.len() as int) is None && e@
                == StaticErrorView::Invalid,
        },
    decreases binds, 1nat,
{
    let ghost bv = items_view(*binds);
    let n = binds.len();
    let mut out: Vec<(String, Expr)> = Vec::new();
    let mut i: usize = 0;
    assert(bindings_view(out) =~= Seq::<(Seq<char>, ExprView)>::empty());
    while i < n
        invariant
            i <= n,
            n == binds.len(),
            bv == items_view(*binds),
            parse_bindings(bv, i as int) == Some(bindings_view(out)),
        decreases n - i,
    {
        proof {
            lemma_bindings_none(bv, i + 1, n as int);
        }
        match parse_binding_of(&binds[i]) {
            Ok(b) => {
                let ghost before = bindings_view(out);
                let ghost bview = (b.0@, b.1@);
                out.push(b);
                assert(bindings_view(out) =~= before.push(bview));
            },
            Err(x) => {
                return Err(x);
            },
        }
        i += 1;
    }
    Ok(out)
}

/// The definition that a form stands for.
#[verifier::loop_isolation(false)]
pub fn parse_def(s: &Form) -> (r: Result<Definition, StaticError>)
    ensures
        parsed(r, parse_definition(s@)),
{
    match s {
        Form::List(def_list) => {
            assert(s@->List_0 =~= items_view(*def_list));
            if def_list.len() != 3 {
                return Err(StaticError::Invalid);
            }
            match &def_list[0] {
                Form::Sym(head) => {
                    if !is_text(head, "fun") {
                        return Err(StaticError::Invalid);
                    }
                },
                _ => {
                    return Err(StaticError::Invalid);
                },
            }
            match &def_list[1] {
                Form::List(sig) => {
                    let ghost sv = items_view(*sig);
                    assert(s@->List_0[1]->List_0 =~= sv);
                    if sig.len() == 0 {
                        return Err(StaticError::Invalid);
                    }
                    let fun_name = match &sig[0] {
                        Form::Sym(name) => name.clone(),
                        _ => {
                            return Err(StaticError::Invalid);
                        },
                    };
                    let mut args: Vec<String> = Vec::new();
                    let mut i: usize = 1;
                    assert(names_view(args@) =~= Seq::<Seq<char>>::empty());
                    while i < sig.len()
                        invariant
                            1 <= i <= sig.len(),
                            sv == items_view(*sig),
                            parse_params(sv, i as int) == Some(names_view(args@)),
                        decreases sig.len() - i,
                    {
                        proof {
                            lemma_params_none(sv, i + 1, sig.len() as int);
                        }
                        match &sig[i] {
                            Form::Sym(arg_name) => {
                                if is_keyword_name(arg_name) {
                                    return Err(StaticError::Invalid);
                                }
                                let ghost before = names_view(args@);
                                args.push(arg_name.clone());
                                assert(names_view(args@) =~= before.push(arg_name@));
                            },
                            _ => {
                                return Err(StaticError::Invalid);
                            },
                        }
                        i += 1;
                    }
                    let body = parse_expr(&def_list[2])?;
                    Ok(Definition { name: fun_name, params: args, body: Box::new(body) })
                },
                _ => Err(StaticError::Invalid),
            }
        },
        _ => Err(StaticError::Invalid),
    }
}

/// What a program is: its definitions by name, and its main expression.
pub struct ProgramView {
    pub definitions: Map<Seq<char>, DefinitionView>,
    pub main: ExprView,
}

/// The definitions of a table, each by its view.
pub open spec fn defs_view(defs: Map<Seq<char>, Definition>) -> Map<Seq<char>, DefinitionView> {
    Map::new(|k: Seq<char>| defs.dom().contains(k), |k: Seq<char>| defs[k]@)
}

impl View for Program {
    type V = ProgramView;

    open spec fn view(&self) -> ProgramView {
        ProgramView { definitions: defs_view(defs_map(self.definitions)), main: (*self.main)@ }
    }
}

/// Whether no name occurs twice.
pub open spec fn distinct(names: Seq<Seq<char>>) -> bool {
    forall|i: int, j: int| 0 <= i < j < names.len() ==> names[i] != names[j]
}

/// The definitions that the first `n` forms stand for, by name; `None`
/// where one of them stands for no definition, defines a name that an
/// earlier one defines, or has two parameters of one name.
pub open spec fn definitions_of(forms: Seq<FormView>, n: int) -> Option<
    Map<Seq<char>, DefinitionView>,
>
    decreases n,
{
    if n <= 0 || n > forms.len() {
        Some(Map::empty())
    } else {
        match (definitions_of(forms, n - 1), parse_definition(forms[n - 1])) {
            (Some(defs), Some(d)) => if defs.dom().contains(d.name) || !distinct(d.params) {
                None
            } else {
                Some(defs.insert(d.name, d))
            },
            _ => None,
        }
    }
}

/// The program that a list of forms stands for: all but the last are its
/// definitions, the last is its main expression.
pub open spec fn program_of(forms: Seq<FormView>) -> Option<ProgramView> {
    if forms.len() == 0 {
        None
    } else {
        match (definitions_of(forms, forms.len() - 1), parse_form(forms.last())) {
            (Some(definitions), Some(main)) => Some(ProgramView { definitions, main }),
            _ => None,
        }
    }
}

/// Where a prefix of the forms stands for no definitions, neither does a
/// longer one.
pub proof fn lemma_definitions_none(forms: Seq<FormView>, m: int, n: int)
    requires
        0 <= m <= n <= forms.len(),
    ensures
        definitions_of(forms, m) is None ==> definitions_of(forms, n) is None,
    decreases n - m,
{
    if m < n {
        lemma_definitions_none(forms, m, n - 1);
    }
}

/// Tells whether no name occurs twice.
pub fn all_distinct(names: &Vec<String>) -> (b: bool)
    ensures
        b == distinct(names_view(names@)),
{
    let ghost nv = names_view(names@);
    let mut j: usize = 0;
    while j < names.len()
        invariant
            j <= names.len(),
            nv == names_view(names@),
            forall|a: int, b: int| 0 <= a < b < j ==> nv[a] != nv[b],
        decreases names.len() - j,
    {
        let mut i: usize = 0;
        while i < j
            invariant
                i <= j < names.len(),
                nv == names_view(names@),
                forall|a: int| 0 <= a < i ==> nv[a] != nv[j as int],
            decreases j - i,
        {
            if names[i] == names[j] {
                assert(nv[i as int] == nv[j as int]);
                return false;
            }
            i += 1;
        }
        j += 1;
    }
    true
}

/// The program that a list of forms stands for.
pub fn build_program(forms: &Vec<Form>) -> (r: Result<Program, StaticError>)
    ensures
        parsed(r, program_of(forms_view(forms@))),
{
    let ghost fv = forms_view(forms@);
    let n = forms.len();
    if n == 0 {
        return Err(StaticError::Invalid);
    }
    let mut definitions = defs_new();
    let mut i: usize = 0;
    assert(defs_view(defs_map(definitions)) =~= Map::<Seq<char>, DefinitionView>::empty());
    while i < n - 1
        invariant
            i <= n - 1,
            n == forms.len(),
            fv == forms_view(forms@),
            definitions_of(fv, i as int) == Some(defs_view(defs_map(definitions))),
        decreases n - 1 - i,
    {
        proof {
            lemma_definitions_none(fv, i + 1, n - 1);
        }
        let def = parse_def(&forms[i])?;
        if defs_get(&definitions, def.name.as_str()).is_some() {
            return Err(StaticError::Invalid);
        }
        if !all_distinct(&def.params) {
            return Err(StaticError::Invalid);
        }
        let ghost before = defs_map(definitions);
        let ghost dv = def@;
        definitions = defs_update(&definitions, def.name.clone(), def);
        assert(defs_view(defs_map(definitions)) =~= defs_view(before).insert(dv.name, dv));
        i += 1;
    }
    let main = parse_expr(&forms[n - 1])?;
    Ok(Program { definitions, main: Box::new(main) })
}

/// The texts that the reader is given: the pieces of the source text, or
/// the whole text where it has no parenthesised piece.
pub open spec fn units_of(text: Seq<char>) -> Option<Seq<Seq<char>>> {
    match split_spec(text) {
        None => None,
        Some(pieces) => Some(
            if pieces.len() == 0 {
                seq![text]
            } else {
                pieces
            },
        ),
    }
}

/// The forms that the reader finds in the first `n` texts; `None` where it
/// refuses one.
pub open spec fn read_all(units: Seq<Seq<char>>, n: int) -> Option<Seq<FormView>>
    decreases n,
{
    if n <= 0 || n > units.len() {
        Some(Seq::empty())
    } else {
        match (read_all(units, n - 1), sexp_parse(units[n - 1])) {
            (Some(fs), Some(f)) => Some(fs.push(f)),
            _ => None,
        }
    }
}

/// The program that a source text stands for.
pub open spec fn program_of_text(text: Seq<char>) -> Option<ProgramView> {
    match units_of(text) {
        None => None,
        Some(units) => match read_all(units, units.len() as int) {
            None => None,
            Some(forms) => program_of(forms),
        },
    }
}

/// Where the reader refuses one of the first `m` texts, it refuses one of
/// the first `n`.
pub proof fn lemma_read_none(units: Seq<Seq<char>>, m: int, n: int)
    requires
        0 <= m <= n <= units.len(),
    ensures
        read_all(units, m) is None ==> read_all(units, n) is None,
    decreases n - m,
{
    if m < n {
        lemma_read_none(units, m, n - 1);
    }
}

/// The forms of a list of texts.
pub fn read_forms(units: &Vec<String>) -> (r: Result<Vec<Form>, StaticError>)
    ensures
        match r {
            Ok(forms) => read_all(texts_view(units@), units.len() as int) == Some(
                forms_view(forms@),
            ),
            Err(e) => read_all(texts_view(units@), units.len() as int) is None && e@
                == StaticErrorView::Invalid,
        },
{
    let ghost uv = texts_view(units@);
    let mut forms: Vec<Form> = Vec::new();
    let mut i: usize = 0;
    assert(forms_view(forms@) =~= Seq::<FormView>::empty());
    while i < units.len()
        invariant
            i <= units.len(),
            uv == texts_view(units@),
            read_all(uv, i as int) == Some(forms_view(forms@)),
        decreases units.len() - i,
    {
        proof {
            lemma_read_none(uv, i + 1, units.len() as int);
        }
        match read_form(units[i].as_str()) {
            Some(f) => {
                let ghost before = forms_view(forms@);
                forms.push(f);
                assert(forms_view(forms@) =~= before.push(f@));
            },
            None => {
                return Err(StaticError::Invalid);
            },
        }
        i += 1;
    }
    Ok(forms)
}

/// The program that a source text stands for: the text is cut into its
/// top-level pieces, each piece is read as a form, and the forms are parsed.
pub fn parse_program(contents: &String) -> (r: Result<Program, StaticError>)
    ensures
        parsed(r, program_of_text(contents@)),
{
    let pieces = split_sexps(contents)?;
    let forms = if pieces.len() == 0 {
        let mut whole: Vec<String> = Vec::new();
        whole.push(contents.clone());
        assert(texts_view(whole@) =~= seq![contents@]);
        read_forms(&whole)?
    } else {
        read_forms(&pieces)?
    };
    build_program(&forms)
}

} // verus!
