//! The persistent hash maps of the `im` crate, as the compiler uses them: an
//! environment from variable names to stack offsets, and a table from
//! function names to definitions. Verus does not look inside `im`; what this
//! module states of its maps is taken on trust from the crate's source.

use vstd::prelude::*;
use crate::ast::Definition;

verus! {

#[verifier::external_type_specification]
#[verifier::external_body]
#[verifier::reject_recursive_types(K)]
#[verifier::reject_recursive_types(V)]
#[verifier::reject_recursive_types(S)]
pub struct ExImHashMap<K, V, S>(im::HashMap<K, V, S>);

/// `Clone` for an `im::HashMap`. Nothing is stated of the copy.
pub assume_specification<K, V, S>[ <im::HashMap<K, V, S> as Clone>::clone ](
    m: &im::HashMap<K, V, S>,
) -> im::HashMap<K, V, S> where K: Clone, V: Clone
;

/// The bindings that an environment holds: each name with its offset.
pub uninterp spec fn env_map(m: im::HashMap<String, i64>) -> Map<Seq<char>, i64>;

/// The entries that a function table holds: each name with its definition.
pub uninterp spec fn defs_map(m: im::HashMap<String, Definition>) -> Map<Seq<char>, Definition>;

/// The environment without bindings.
pub open spec fn no_bindings() -> Map<Seq<char>, i64> {
    Map::empty()
}

/// The function table without entries.
pub open spec fn no_definitions() -> Map<Seq<char>, Definition> {
    Map::empty()
}

/// The lookup of `k` in a map: its value where `k` is a key, else `None`.
pub open spec fn lookup<V>(m: Map<Seq<char>, V>, k: Seq<char>) -> Option<V> {
    if m.dom().contains(k) {
        Some(m[k])
    } else {
        None
    }
}

/// `im::HashMap::new`: a map that holds nothing.
#[verifier::external_body]
pub(crate) fn env_new() -> (m: im::HashMap<String, i64>)
    ensures
        env_map(m) == no_bindings(),
{
    im::HashMap::new()
}

/// `im::HashMap::update`: a new map that holds what `m` holds, but for `k`,
/// which it binds to `v` whether or not `m` bound it. `m` is left as it was.
#[verifier::external_body]
pub(crate) fn env_update(m: &im::HashMap<String, i64>, k: String, v: i64) -> (r: im::HashMap<String, i64>)
    ensures
        env_map(r) == env_map(*m).insert(k@, v),
{
    m.update(k, v)
}

/// `im::HashMap::get`: the value that `m` binds `k` to, if there is one. Two
/// keys are the same when they are the same string.
#[verifier::external_body]
pub(crate) fn env_get(m: &im::HashMap<String, i64>, k: &str) -> (r: Option<i64>)
    ensures
        r == lookup(env_map(*m), k@),
{
    m.get(k).copied()
}

/// `im::HashMap::new`: a table that holds nothing.
#[verifier::external_body]
pub(crate) fn defs_new() -> (m: im::HashMap<String, Definition>)
    ensures
        defs_map(m) == no_definitions(),
{
    im::HashMap::new()
}

/// `im::HashMap::update`: a new table that holds what `m` holds, but for
/// `k`, which it binds to `v` whether or not `m` bound it.
#[verifier::external_body]
pub(crate) fn defs_update(m: &im::HashMap<String, Definition>, k: String, v: Definition) -> (r:
    im::HashMap<String, Definition>)
    ensures
        defs_map(r) == defs_map(*m).insert(k@, v),
{
    m.update(k, v)
}

/// `im::HashMap::get`: the definition that `m` binds `k` to, if there is
/// one.
#[verifier::external_body]
pub(crate) fn defs_get<'a>(m: &'a im::HashMap<String, Definition>, k: &str) -> (r: Option<&'a Definition>)
    ensures
        r == match lookup(defs_map(*m), k@) {
            Some(d) => Some(&d),
            None => None,
        },
{
    m.get(k)
}

/// `im::HashMap::keys`, collected: every key of `m` once. The crate fixes
/// no order, and with the default hasher the order differs from one map to
/// the next, so nothing is said of it.
#[verifier::external_body]
pub(crate) fn defs_keys(m: &im::HashMap<String, Definition>) -> (r: Vec<String>)
    ensures
        forall|i: int, j: int| 0 <= i < j < r.len() ==> r[i]@ != r[j]@,
        forall|i: int| 0 <= i < r.len() ==> defs_map(*m).dom().contains(#[trigger] r[i]@),
        forall|k: Seq<char>|
            defs_map(*m).dom().contains(k) ==> exists|i: int| 0 <= i < r.len() && r[i]@ == k,
{
    m.keys().cloned().collect()
}

} // verus!
