//! From source text to forms: the splitter that cuts a source text into its
//! top-level parenthesised pieces, and the reader that turns one piece into
//! a form. The reader is the parser of the `sexp` crate; Verus does not look
//! inside it.

use vstd::prelude::*;
use vstd::std_specs::iter::IteratorSpec;
use crate::ast::{StaticError, StaticErrorView};


verus! {

/// An s-expression: a symbol, an integer, a number with a fraction (whose
/// value the language has no use for), or a list.
#[derive(Debug)]
pub enum Form {
    Sym(String),
    Int(i64),
    Float,
    List(Vec<Form>),
}

/// What a form is.
pub enum FormView {
    Sym(Seq<char>),
    Int(i64),
    Float,
    List(Seq<FormView>),
}

/// The view of a form, by recursion on its structure.
pub open spec fn form_view(f: Form) -> FormView
    decreases f,
{
    match f {
        Form::Sym(s) => FormView::Sym(s@),
        Form::Int(n) => FormView::Int(n),
        Form::Float => FormView::Float,
        Form::List(items) => FormView::List(
            Seq::new(
                items.len() as nat,
                |i: int|
                    if 0 <= i < items.len() {
                        form_view(items[i])
                    } else {
                        FormView::Float
                    },
            ),
        ),
    }
}

impl View for Form {
    type V = FormView;

    open spec fn view(&self) -> FormView {
        form_view(*self)
    }
}

/// The views of a list of forms, in order.
pub open spec fn forms_view(fs: Seq<Form>) -> Seq<FormView> {
    Seq::new(fs.len(), |i: int| fs[i]@)
}

#[verifier::external_type_specification]
#[verifier::external_body]
pub struct ExSexp(sexp::Sexp);

/// The form that `sexp::parse` reads from a text, or `None` where it
/// reports an error. The parser reads one s-expression, with blanks and
/// comments around it, and refuses anything after it.
pub uninterp spec fn sexp_parse(text: Seq<char>) -> Option<FormView>;

/// The form of an s-expression of the `sexp` crate, variant by variant: a
/// string atom is a symbol, an integer atom an integer, a list a list of the
/// forms of its items. Of a float atom only its kind is kept.
#[verifier::external_body]
fn form_of(s: &sexp::Sexp) -> Form {
    match s {
        sexp::Sexp::Atom(sexp::Atom::S(x)) => Form::Sym(x.clone()),
        sexp::Sexp::Atom(sexp::Atom::I(n)) => Form::Int(*n),
        sexp::Sexp::Atom(sexp::Atom::F(_)) => Form::Float,
        sexp::Sexp::List(items) => Form::List(items.iter().map(form_of).collect()),
    }
}

/// `sexp::parse`: the form that the text holds, or `None` where the parser
/// reports an error. The result depends on the text alone.
#[verifier::external_body]
pub(crate) fn read_form(text: &str) -> (r: Option<Form>)
    ensures
        match r {
            Some(f) => sexp_parse(text@) == Some(f@),
            None => sexp_parse(text@) is None,
        },
{
    match sexp::parse(text) {
        Ok(s) => Some(form_of(&s)),
        Err(_) => None,
    }
}

/// The characters of a text, in order.
pub fn chars_of(text: &str) -> (r: Vec<char>)
    ensures
        r@ == text@,
{
    broadcast use vstd::string::group_string_axioms;

    let mut v: Vec<char> = Vec::new();
    let mut it = text.chars();
    loop
        invariant
            it.obeys_prophetic_iter_laws(),
            v@ + it.remaining() == text@,
        ensures
            v@ == text@,
        decreases text@.len() - v@.len(),
    {
        match it.next() {
            Some(c) => {
                v.push(c);
            },
            None => {
                break ;
            },
        }
    }
    v
}

/// The state of the splitter after some characters: how many parentheses
/// are open, the piece that is being read, the pieces that are complete, and
/// whether a closing parenthesis came with none open.
pub struct Scan {
    pub open: int,
    pub current: Seq<char>,
    pub pieces: Seq<Seq<char>>,
    pub failed: bool,
}

/// The state of the splitter after one more character. A piece starts with
/// an opening parenthesis while none is open, and ends with the closing one
/// that matches it; what stands between pieces is skipped.
pub open spec fn scan_step(s: Scan, c: char) -> Scan {
    if s.failed {
        s
    } else if c == '(' {
        Scan {
            open: s.open + 1,
            current: if s.open == 0 {
                seq![c]
            } else {
                s.current.push(c)
            },
            pieces: s.pieces,
            failed: false,
        }
    } else if c == ')' {
        if s.open <= 0 {
            Scan { open: s.open, current: s.current, pieces: s.pieces, failed: true }
        } else if s.open == 1 {
            Scan {
                open: 0,
                current: Seq::empty(),
                pieces: s.pieces.push(s.current.push(c)),
                failed: false,
            }
        } else {
            Scan {
                open: s.open - 1,
                current: s.current.push(c),
                pieces: s.pieces,
                failed: false,
            }
        }
    } else if s.open > 0 {
        Scan { open: s.open, current: s.current.push(c), pieces: s.pieces, failed: false }
    } else {
        s
    }
}

/// The state of the splitter after the first `n` characters of `text`.
pub open spec fn scan(text: Seq<char>, n: int) -> Scan
    decreases n,
{
    if n <= 0 || n > text.len() {
        Scan { open: 0, current: Seq::empty(), pieces: Seq::empty(), failed: false }
    } else {
        scan_step(scan(text, n - 1), text[n - 1])
    }
}

/// The top-level parenthesised pieces of a text, in order. `None` where
/// the parentheses of the text are not balanced: a closing parenthesis comes
/// with none open, or a piece is still open at the end of the text.
pub open spec fn split_spec(text: Seq<char>) -> Option<Seq<Seq<char>>> {
    let end = scan(text, text.len() as int);
    if end.failed || end.open != 0 {
        None
    } else {
        Some(end.pieces)
    }
}

/// A splitter that has failed stays failed.
pub proof fn lemma_scan_failed(text: Seq<char>, m: int, n: int)
    requires
        0 <= m <= n <= text.len(),
        scan(text, m).failed,
    ensures
        scan(text, n).failed,
    decreases n - m,
{
    if m < n {
        lemma_scan_failed(text, m, n - 1);
    }
}

/// The texts of a list of strings, in order.
pub open spec fn texts_view(v: Seq<String>) -> Seq<Seq<char>> {
    Seq::new(v.len(), |i: int| v[i]@)
}

/// Cuts a source text into its top-level parenthesised pieces, and refuses
/// a text whose parentheses are not balanced.
pub fn split_sexps(contents: &String) -> (r: Result<Vec<String>, StaticError>)
    ensures
        match r {
            Ok(pieces) => split_spec(contents@) == Some(texts_view(pieces@)),
            Err(e) => split_spec(contents@) is None && e@ == StaticErrorView::Invalid,
        },
{
    let chars = chars_of(contents.as_str());
    let mut sexps: Vec<String> = Vec::new();
    let mut current = String::new();
    let mut open: usize = 0;
    let mut i: usize = 0;
    assert(texts_view(sexps@) =~= Seq::<Seq<char>>::empty());
    while i < chars.len()
        invariant
            i <= chars.len(),
            chars@ == contents@,
            open <= i,
            !scan(contents@, i as int).failed,
            scan(contents@, i as int).open == open,
            scan(contents@, i as int).current == current@,
            scan(contents@, i as int).pieces == texts_view(sexps@),
        decreases chars.len() - i,
    {
        let c = chars[i];
        let ghost before = texts_view(sexps@);
        if c == '(' {
            if open == 0 {
                current = String::new();
            }
            current.push(c);
            open += 1;
            assert(open == 1 ==> current@ =~= seq![c]);
        } else if c == ')' {
            if open == 0 {
                proof {
                    lemma_scan_failed(contents@, i + 1, contents@.len() as int);
                }
                return Err(StaticError::Invalid);
            }
            current.push(c);
            open -= 1;
            if open == 0 {
                sexps.push(current);
                current = String::new();
                assert(texts_view(sexps@) =~= before.push(
                    scan(contents@, i as int).current.push(c),
                ));
            }
        } else if open > 0 {
            current.push(c);
        }
        i += 1;
    }
    if open != 0 {
        return Err(StaticError::Invalid);
    }
    Ok(sexps)
}

} // verus!
