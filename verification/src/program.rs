//! From a program to its assembly text: the functions, the entry point and
//! the unit around them.

use vstd::prelude::*;
use crate::ast::{names_view, Definition, Program, StaticError, StaticErrorView};
use crate::codegen::{
    depth_spec, entry_code, fits, function_code, functions_code, functions_labels, is_listing,
    labels, params_env, program_code, unit_header, unit_text,
};
use crate::compiler::{compile_main, lemma_measures};
use crate::emitter::{
    align_to_16, close_frame, error_traps, extend, open_frame, setup_entry, SLOT_LIMIT,
};
use crate::instr::{code_text, code_view, instrs_to_string, Instr, InstrView};
use crate::measure::{depth, label_count};
use crate::tables::{defs_get, defs_keys, defs_map, env_map, env_new, env_update};

verus! {

/// The environment of a function's body: each parameter at its place above
/// the frame pointer.
pub fn params_environment(params: &Vec<String>) -> (env: im::HashMap<String, i64>)
    requires
        params.len() <= SLOT_LIMIT,
    ensures
        env_map(env) == params_env(params@, params.len() as int),
{
    let mut env = env_new();
    let mut i: usize = 0;
    while i < params.len()
        invariant
            i <= params.len(),
            params.len() <= SLOT_LIMIT,
            env_map(env) == params_env(params@, i as int),
        decreases params.len() - i,
    {
        env = env_update(&env, params[i].clone(), -(i as i64 + 2) * 8);
        i += 1;
    }
    env
}

/// Whether `e` fits the compiler's limits from slot `si` and label `l` on,
/// with its depth where it does.
fn check_fits(e: &crate::ast::Expr, si: i64, l: i64) -> (r: Option<i64>)
    requires
        0 <= si <= 3,
    ensures
        match r {
            Some(d) => fits(e@, si as int, l as int) && d == depth_spec(e@),
            None => !fits(e@, si as int, l as int),
        },
{
    proof {
        lemma_measures(e@);
    }
    let d = depth(e)?;
    let c = label_count(e)?;
    if d + si > SLOT_LIMIT || l > i64::MAX - c {
        None
    } else {
        Some(d)
    }
}

/// What a step that emits code and takes labels promises.
pub open spec fn emitted(
    r: Result<Vec<Instr>, StaticError>,
    expected: Result<Seq<InstrView>, StaticErrorView>,
    l_before: int,
    l_after: int,
    taken: int,
) -> bool {
    match r {
        Ok(code) => expected == Ok::<Seq<InstrView>, StaticErrorView>(code_view(code@)) && l_after
            == l_before + taken,
        Err(x) => expected == Err::<Seq<InstrView>, StaticErrorView>(x@) && l_before <= l_after,
    }
}

/// The instructions of one function.
pub fn compile_function(
    d: &Definition,
    label: &mut i64,
    defs: &im::HashMap<String, Definition>,
) -> (r: Result<Vec<Instr>, StaticError>)
    ensures
        emitted(
            r,
            function_code(*d, *old(label) as int, defs_map(*defs)),
            *old(label) as int,
            *final(label) as int,
            labels(d.body@),
        ),
{
    if d.params.len() as u64 > SLOT_LIMIT as u64 {
        return Err(StaticError::TooLarge);
    }
    let slots = match check_fits(&d.body, 1, *label) {
        Some(slots) => slots,
        None => {
            return Err(StaticError::TooLarge);
        },
    };
    proof {
        lemma_measures(d.body@);
        reveal_strlit("");
        assert(""@ =~= Seq::<char>::empty());
    }
    let offset: i64 = align_to_16(slots) * 8;
    let func_env = params_environment(&d.params);
    let body = compile_main(&d.body, 1, &func_env, label, "", defs)?;
    let mut instrs = open_frame(d.name.as_str(), offset);
    extend(&mut instrs, body);
    extend(&mut instrs, close_frame(offset));
    Ok(instrs)
}

/// The labels of a prefix of the functions are never fewer than none.
pub proof fn lemma_functions_labels(defs: Map<Seq<char>, Definition>, order: Seq<Seq<char>>, n: int)
    ensures
        functions_labels(defs, order, n) >= 0,
    decreases n,
{
    if n <= 0 || n > order.len() {
    } else {
        lemma_functions_labels(defs, order, n - 1);
        lemma_measures(defs[order[n - 1]].body@);
    }
}

/// An error among the first `m` functions is the error of all of them.
pub proof fn lemma_functions_error(
    defs: Map<Seq<char>, Definition>,
    order: Seq<Seq<char>>,
    m: int,
    n: int,
    l: int,
)
    requires
        0 <= m <= n <= order.len(),
        functions_code(defs, order, m, l) is Err,
    ensures
        functions_code(defs, order, n, l) == functions_code(defs, order, m, l),
    decreases n - m,
{
    if m < n {
        lemma_functions_error(defs, order, m, n - 1, l);
    }
}

/// The instructions of the functions of `defs`, in the order in which
/// `order` names them.
pub fn compile_definitions_in_order(
    defs: &im::HashMap<String, Definition>,
    order: &Vec<String>,
    label: &mut i64,
) -> (r: Result<Vec<Instr>, StaticError>)
    requires
        forall|i: int| 0 <= i < order.len() ==> defs_map(*defs).dom().contains(#[trigger] order[i]@),
    ensures
        emitted(
            r,
            functions_code(
                defs_map(*defs),
                names_view(order@),
                order.len() as int,
                *old(label) as int,
            ),
            *old(label) as int,
            *final(label) as int,
            functions_labels(defs_map(*defs), names_view(order@), order.len() as int),
        ),
{
    let ghost l0 = *label as int;
    let ghost dm = defs_map(*defs);
    let ghost names = names_view(order@);
    let n = order.len();
    let mut instrs: Vec<Instr> = Vec::new();
    let mut i: usize = 0;
    assert(code_view(instrs@) =~= Seq::<InstrView>::empty());
    while i < n
        invariant
            i <= n,
            n == order.len(),
            l0 == *old(label),
            dm == defs_map(*defs),
            names == names_view(order@),
            forall|i: int| 0 <= i < order.len() ==> dm.dom().contains(#[trigger] order[i]@),
            *label == l0 + functions_labels(dm, names, i as int),
            functions_code(dm, names, i as int, l0) == Ok::<Seq<InstrView>, StaticErrorView>(
                code_view(instrs@),
            ),
        decreases n - i,
    {
        proof {
            lemma_functions_labels(dm, names, i as int);
        }
        match defs_get(defs, order[i].as_str()) {
            Some(d) => {
                assert(*d == dm[names[i as int]]);
                match compile_function(d, label, defs) {
                    Ok(code) => {
                        extend(&mut instrs, code);
                    },
                    Err(x) => {
                        proof {
                            lemma_functions_error(dm, names, i + 1, n as int, l0);
                        }
                        return Err(x);
                    },
                }
            },
            None => {
                assert(dm.dom().contains(order[i as int]@));
            },
        }
        i += 1;
    }
    Ok(instrs)
}

/// The instructions of the functions of `defs`, each once. The table fixes
/// no order among them, so the contract holds for one of the orders in which
/// they can be listed.
pub fn compile_definitions(defs: &im::HashMap<String, Definition>, label: &mut i64) -> (r: Result<
    Vec<Instr>,
    StaticError,
>)
    ensures
        exists|order: Seq<Seq<char>>|
            is_listing(order, defs_map(*defs)) && emitted(
                r,
                #[trigger] functions_code(
                    defs_map(*defs),
                    order,
                    order.len() as int,
                    *old(label) as int,
                ),
                *old(label) as int,
                *final(label) as int,
                functions_labels(defs_map(*defs), order, order.len() as int),
            ),
{
    let order = defs_keys(defs);
    proof {
        lemma_keys_are_listing(order@, defs_map(*defs));
    }
    compile_definitions_in_order(defs, &order, label)
}

/// Keys that are distinct and cover a table list its functions.
pub proof fn lemma_keys_are_listing(keys: Seq<String>, defs: Map<Seq<char>, Definition>)
    requires
        forall|i: int, j: int| 0 <= i < j < keys.len() ==> keys[i]@ != keys[j]@,
        forall|i: int| 0 <= i < keys.len() ==> defs.dom().contains(#[trigger] keys[i]@),
        forall|k: Seq<char>|
            defs.dom().contains(k) ==> exists|i: int| 0 <= i < keys.len() && keys[i]@ == k,
    ensures
        is_listing(names_view(keys), defs),
{
    let order = names_view(keys);
    assert forall|k: Seq<char>| defs.dom().contains(k) implies exists|i: int|
        0 <= i < order.len() && order[i] == k by {
        let i = choose|i: int| 0 <= i < keys.len() && keys[i]@ == k;
        assert(order[i] == k);
    }
}

/// The instructions of the entry point.
pub fn compile_entry(
    main: &crate::ast::Expr,
    label: &mut i64,
    defs: &im::HashMap<String, Definition>,
) -> (r: Result<Vec<Instr>, StaticError>)
    ensures
        emitted(
            r,
            entry_code(main@, *old(label) as int, defs_map(*defs)),
            *old(label) as int,
            *final(label) as int,
            labels(main@),
        ),
{
    let slots = match check_fits(main, 3, *label) {
        Some(slots) => slots,
        None => {
            return Err(StaticError::TooLarge);
        },
    };
    proof {
        lemma_measures(main@);
        reveal_strlit("");
        assert(""@ =~= Seq::<char>::empty());
    }
    let offset: i64 = align_to_16(slots + 2) * 8;
    let env = env_update(&env_new(), "input".to_owned(), 8);
    let body = compile_main(main, 3, &env, label, "", defs)?;
    let mut instrs = open_frame("our_code_starts_here", offset);
    extend(&mut instrs, setup_entry());
    extend(&mut instrs, body);
    extend(&mut instrs, close_frame(offset));
    Ok(instrs)
}

/// What `compile` promises of its text.
pub open spec fn compile_outcome(
    r: Result<String, StaticError>,
    expected: Result<Seq<InstrView>, StaticErrorView>,
) -> bool {
    match r {
        Ok(text) => expected is Ok && text@ == code_text(expected->Ok_0),
        Err(x) => expected == Err::<Seq<InstrView>, StaticErrorView>(x@),
    }
}

/// The assembly text of the program's functions, in the order in which
/// `order` names them, and of its entry point; or the first static error.
pub fn compile_in_order(p: &Program, order: &Vec<String>) -> (r: Result<String, StaticError>)
    requires
        forall|i: int|
            0 <= i < order.len() ==> defs_map(p.definitions).dom().contains(#[trigger] order[i]@),
    ensures
        compile_outcome(r, program_code(defs_map(p.definitions), names_view(order@), p.main@)),
{
    let mut label: i64 = 1;
    let mut instrs = compile_definitions_in_order(&p.definitions, order, &mut label)?;
    let entry = compile_entry(&p.main, &mut label, &p.definitions)?;
    extend(&mut instrs, entry);
    Ok(instrs_to_string(&instrs))
}

/// The assembly text of a program: its functions, each once, and its entry
/// point; or the first static error. The table of functions fixes no order
/// among them, so the contract holds for one of the orders in which they can
/// be listed.
pub fn compile(p: &Program) -> (r: Result<String, StaticError>)
    ensures
        exists|order: Seq<Seq<char>>|
            is_listing(order, defs_map(p.definitions)) && compile_outcome(
                r,
                #[trigger] program_code(defs_map(p.definitions), order, p.main@),
            ),
{
    let order = defs_keys(&p.definitions);
    proof {
        lemma_keys_are_listing(order@, defs_map(p.definitions));
    }
    compile_in_order(p, &order)
}

/// The text of the assembly unit around the compiled text `body`.
pub fn assembly_unit(body: &str) -> (text: String)
    ensures
        text@ == unit_text(body@),
{
    let mut text = "\nsection .text\n".to_owned();
    let ghost start = text@;
    text.append("ext");
    text.append("ern snek_error\n");
    text.append("ext");
    text.append("ern snek_print\n");
    text.append("ext");
    text.append("ern snek_try_gc\n");
    text.append("global our_code_starts_here\n");
    proof {
        reveal_strlit("ext");
        reveal_strlit("ern ");
        reveal_strlit("\n");
        reveal_strlit("snek_error");
        reveal_strlit("snek_print");
        reveal_strlit("snek_try_gc");
        reveal_strlit("ern snek_error\n");
        reveal_strlit("ern snek_print\n");
        reveal_strlit("ern snek_try_gc\n");
        assert("ern snek_error\n"@ =~= "ern "@ + "snek_error"@ + "\n"@);
        assert("ern snek_print\n"@ =~= "ern "@ + "snek_print"@ + "\n"@);
        assert("ern snek_try_gc\n"@ =~= "ern "@ + "snek_try_gc"@ + "\n"@);
        assert(text@ =~= unit_header());
    }
    text.append(body);
    let traps = instrs_to_string(&error_traps());
    text.append(traps.as_str());
    text
}

} // verus!
