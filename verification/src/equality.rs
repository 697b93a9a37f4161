//! Structural equality of values: two tuples are equal when they have the
//! same size and their elements are equal in turn, however deep and through
//! whatever cycles; any other two words are equal when they are the same
//! word.

use std::collections::HashSet;
use vstd::prelude::*;
use vstd::set_lib::*;
use crate::heap::{element, lemma_room_shrinks, room, tuple_at, Heap, HeapView, Place};
use crate::value::{FALSE_VAL, TRUE_VAL};

verus! {

/// Whether `a` in the heap `g` and `b` in the heap `h` are equal as far as
/// `n` steps into them show.
pub open spec fn equal_to_depth(g: HeapView, a: i64, h: HeapView, b: i64, n: nat) -> bool
    decreases n,
{
    if n == 0 {
        true
    } else {
        match (tuple_at(g, a), tuple_at(h, b)) {
            (Some(p), Some(q)) => p.size == q.size && forall|k: int|
                0 <= k < p.size ==> equal_to_depth(
                    g,
                    #[trigger] element(g, p, k),
                    h,
                    element(h, q, k),
                    (n - 1) as nat,
                ),
            _ => a == b,
        }
    }
}

/// Whether `a` in the heap `g` and `b` in the heap `h` are structurally
/// equal: no number of steps into them shows a difference.
pub open spec fn structurally_equal(g: HeapView, a: i64, h: HeapView, b: i64) -> bool {
    forall|n: nat| equal_to_depth(g, a, h, b, n)
}

/// Every value is structurally equal to itself.
pub proof fn lemma_equal_reflexive(h: HeapView, a: i64)
    ensures
        structurally_equal(h, a, h, a),
{
    assert forall|n: nat| equal_to_depth(h, a, h, a, n) by {
        lemma_reflexive_to_depth(h, a, n);
    }
}

proof fn lemma_reflexive_to_depth(h: HeapView, a: i64, n: nat)
    ensures
        equal_to_depth(h, a, h, a, n),
    decreases n,
{
    if n > 0 {
        match tuple_at(h, a) {
            Some(p) => {
                assert forall|k: int| 0 <= k < p.size implies equal_to_depth(
                    h,
                    #[trigger] element(h, p, k),
                    h,
                    element(h, p, k),
                    (n - 1) as nat,
                ) by {
                    lemma_reflexive_to_depth(h, element(h, p, k), (n - 1) as nat);
                }
            },
            None => {},
        }
    }
}

/// Structural equality does not depend on the order of its arguments, in
/// one heap or across two.
pub proof fn lemma_equal_symmetric(g: HeapView, a: i64, h: HeapView, b: i64)
    requires
        structurally_equal(g, a, h, b),
    ensures
        structurally_equal(h, b, g, a),
{
    assert forall|n: nat| equal_to_depth(h, b, g, a, n) by {
        assert(equal_to_depth(g, a, h, b, n));
        lemma_symmetric_to_depth(g, a, h, b, n);
    }
}

proof fn lemma_symmetric_to_depth(g: HeapView, a: i64, h: HeapView, b: i64, n: nat)
    requires
        equal_to_depth(g, a, h, b, n),
    ensures
        equal_to_depth(h, b, g, a, n),
    decreases n,
{
    if n > 0 {
        match (tuple_at(g, a), tuple_at(h, b)) {
            (Some(p), Some(q)) => {
                assert forall|k: int| 0 <= k < q.size implies equal_to_depth(
                    h,
                    #[trigger] element(h, q, k),
                    g,
                    element(g, p, k),
                    (n - 1) as nat,
                ) by {
                    assert(equal_to_depth(
                        g,
                        element(g, p, k),
                        h,
                        element(h, q, k),
                        (n - 1) as nat,
                    ));
                    lemma_symmetric_to_depth(
                        g,
                        element(g, p, k),
                        h,
                        element(h, q, k),
                        (n - 1) as nat,
                    );
                }
            },
            _ => {},
        }
    }
}

/// In one heap, two values that are structurally equal to a third are
/// structurally equal to each other, cyclic or not.
pub proof fn lemma_equal_transitive(h: HeapView, a: i64, b: i64, c: i64)
    requires
        structurally_equal(h, a, h, b),
        structurally_equal(h, b, h, c),
    ensures
        structurally_equal(h, a, h, c),
{
    assert forall|n: nat| equal_to_depth(h, a, h, c, n) by {
        assert(equal_to_depth(h, a, h, b, n));
        assert(equal_to_depth(h, b, h, c, n));
        lemma_transitive_to_depth(h, a, b, c, n);
    }
}

proof fn lemma_transitive_to_depth(h: HeapView, a: i64, b: i64, c: i64, n: nat)
    requires
        equal_to_depth(h, a, h, b, n),
        equal_to_depth(h, b, h, c, n),
    ensures
        equal_to_depth(h, a, h, c, n),
    decreases n,
{
    if n > 0 {
        match (tuple_at(h, a), tuple_at(h, b), tuple_at(h, c)) {
            (Some(p), Some(q), Some(r)) => {
                assert forall|k: int| 0 <= k < p.size implies equal_to_depth(
                    h,
                    #[trigger] element(h, p, k),
                    h,
                    element(h, r, k),
                    (n - 1) as nat,
                ) by {
                    assert(equal_to_depth(
                        h,
                        element(h, p, k),
                        h,
                        element(h, q, k),
                        (n - 1) as nat,
                    ));
                    assert(equal_to_depth(
                        h,
                        element(h, q, k),
                        h,
                        element(h, r, k),
                        (n - 1) as nat,
                    ));
                    lemma_transitive_to_depth(
                        h,
                        element(h, p, k),
                        element(h, q, k),
                        element(h, r, k),
                        (n - 1) as nat,
                    );
                }
            },
            _ => {},
        }
    }
}

/// The number that stands for the pair of the tuples at `i` and at `j` in
/// a heap of `len` words.
pub open spec fn pair_key(len: int, i: int, j: int) -> int {
    i * len + j
}

/// A pair of cells of the heap has a key below the square of the heap's
/// length, and no two pairs share a key.
pub proof fn lemma_pair_key(len: int, i: int, j: int, i2: int, j2: int)
    requires
        0 <= i < len,
        0 <= j < len,
        0 <= i2 < len,
        0 <= j2 < len,
    ensures
        0 <= pair_key(len, i, j) < len * len,
        pair_key(len, i, j) == pair_key(len, i2, j2) ==> i == i2 && j == j2,
{
    assert(0 <= i * len + j < len * len) by (nonlinear_arith)
        requires
            0 <= i < len,
            0 <= j < len,
    ;
    assert(i * len + j == i2 * len + j2 ==> i == i2 && j == j2) by (nonlinear_arith)
        requires
            0 <= i < len,
            0 <= j < len,
            0 <= i2 < len,
            0 <= j2 < len,
    ;
}

/// Whether the words `x` and `y` are accepted as equal on the strength of
/// `seen`: two tuples whose pair is in `seen`, or else the same word.
pub open spec fn accepted(h: HeapView, x: i64, y: i64, seen: Set<int>) -> bool {
    match (tuple_at(h, x), tuple_at(h, y)) {
        (Some(p), Some(q)) => seen.contains(pair_key(h.words.len() as int, p.at, q.at)),
        _ => x == y,
    }
}

/// Whether the first `n` elements of the tuples at `p` and at `q` are
/// accepted as equal.
pub open spec fn elements_accepted(h: HeapView, p: Place, q: Place, n: int, seen: Set<int>) -> bool {
    forall|k: int| 0 <= k < n ==> accepted(h, #[trigger] element(h, p, k), element(h, q, k), seen)
}

/// Whether every pair of `seen` that is not in `open` is justified: its
/// tuples have one size, and their elements are accepted as equal.
pub open spec fn justified(h: HeapView, seen: Set<int>, open: Set<int>) -> bool {
    forall|a: i64, b: i64|
        (#[trigger] tuple_at(h, a) matches Some(p) && #[trigger] tuple_at(h, b) matches Some(q)
            && seen.contains(pair_key(h.words.len() as int, p.at, q.at)) && !open.contains(
            pair_key(h.words.len() as int, p.at, q.at),
        )) ==> tuple_at(h, a)->Some_0.size == tuple_at(h, b)->Some_0.size && elements_accepted(
            h,
            tuple_at(h, a)->Some_0,
            tuple_at(h, b)->Some_0,
            tuple_at(h, a)->Some_0.size,
            seen,
        )
}

/// Words that are accepted on the strength of a set in which every pair is
/// justified are equal to every depth.
pub proof fn lemma_accepted_is_equal(h: HeapView, x: i64, y: i64, seen: Set<int>, n: nat)
    requires
        justified(h, seen, Set::empty()),
        accepted(h, x, y, seen),
    ensures
        equal_to_depth(h, x, h, y, n),
    decreases n,
{
    if n > 0 {
        match (tuple_at(h, x), tuple_at(h, y)) {
            (Some(p), Some(q)) => {
                assert(elements_accepted(h, p, q, p.size, seen));
                assert forall|k: int| 0 <= k < p.size implies equal_to_depth(
                    h,
                    #[trigger] element(h, p, k),
                    h,
                    element(h, q, k),
                    (n - 1) as nat,
                ) by {
                    lemma_accepted_is_equal(
                        h,
                        element(h, p, k),
                        element(h, q, k),
                        seen,
                        (n - 1) as nat,
                    );
                }
            },
            _ => {},
        }
    }
}

/// The keys that a set of pairs holds, as integers.
pub open spec fn keys(seen: Set<u128>) -> Set<int> {
    Set::new(|k: int| 0 <= k <= u128::MAX && seen.contains(k as u128))
}

/// A larger set leaves no more room.
pub proof fn lemma_room_monotone(len: nat, a: Set<int>, b: Set<int>)
    requires
        a.subset_of(b),
    ensures
        room(len, b) <= room(len, a),
{
    let all = set_int_range(0, len as int);
    lemma_int_range(0, len as int);
    lemma_len_subset(all.difference(b), all.difference(a));
}

/// Whether `a` and `b` are structurally equal, given the pairs of tuples
/// that were met before. It returns the word for `true` or for `false`.
///
/// A pair that is met again is taken as equal: if it were not, the
/// comparison that first met it finds the difference. `open` holds the pairs
/// whose comparison has begun and not ended.
fn snek_compare_tuples(
    tuple_1: i64,
    tuple_2: i64,
    heap: &Heap,
    traversed_values: &mut HashSet<u128>,
    Ghost(open): Ghost<Set<int>>,
) -> (r: i64)
    requires
        justified(heap@, keys(old(traversed_values)@), open),
    ensures
        r == TRUE_VAL || r == FALSE_VAL,
        r == TRUE_VAL ==> {
            &&& keys(old(traversed_values)@).subset_of(keys(final(traversed_values)@))
            &&& justified(heap@, keys(final(traversed_values)@), open)
            &&& accepted(heap@, tuple_1, tuple_2, keys(final(traversed_values)@))
        },
        r == FALSE_VAL ==> exists|n: nat| !equal_to_depth(heap@, tuple_1, heap@, tuple_2, n),
    decreases
            room(
                (heap.words.len() * heap.words.len()) as nat,
                keys(old(traversed_values)@),
            ),
{
    broadcast use vstd::std_specs::hash::group_hash_axioms;

    let ghost h = heap@;
    let ghost len = heap.words.len() as int;
    let ghost entry = keys(traversed_values@);
    let (i, n, j) = match (heap.tuple(tuple_1), heap.tuple(tuple_2)) {
        (Some((i, n)), Some((j, m))) => {
            if n != m {
                assert(!equal_to_depth(h, tuple_1, h, tuple_2, 1));
                return FALSE_VAL;
            }
            (i, n, j)
        },
        _ => {
            if tuple_1 == tuple_2 {
                return TRUE_VAL;
            } else {
                assert(!equal_to_depth(h, tuple_1, h, tuple_2, 1));
                return FALSE_VAL;
            }
        },
    };
    let ghost p = Place { at: i as int, size: n as int };
    let ghost q = Place { at: j as int, size: n as int };
    let mut k: usize = 0;
    while k < n
        invariant
            k <= n,
            h == heap@,
            i + 2 + n <= heap.words.len(),
            j + 2 + n <= heap.words.len(),
            tuple_at(h, tuple_1) == Some(p),
            tuple_at(h, tuple_2) == Some(q),
            p == (Place { at: i as int, size: n as int }),
            q == (Place { at: j as int, size: n as int }),
            forall|c: int|
                0 <= c < k ==> (tuple_at(h, #[trigger] element(h, p, c)) is Some && tuple_at(
                    h,
                    element(h, q, c),
                ) is Some) || element(h, p, c) == element(h, q, c),
        decreases n - k,
    {
        let val_1 = heap.words[i + 2 + k];
        let val_2 = heap.words[j + 2 + k];
        assert(val_1 == element(h, p, k as int));
        assert(val_2 == element(h, q, k as int));
        let both = heap.tuple(val_1).is_some() && heap.tuple(val_2).is_some();
        if !both && val_1 != val_2 {
            proof {
                assert(!equal_to_depth(h, val_1, h, val_2, 1));
                assert(!equal_to_depth(h, tuple_1, h, tuple_2, 2));
            }
            return FALSE_VAL;
        }
        k += 1;
    }
    proof {
        assert(0 <= (i as int) * len && (i as int) * len + (j as int)
            < 0x1_0000_0000_0000_0000_0000_0000_0000_0000) by (nonlinear_arith)
            requires
                0 <= i < len,
                0 <= j < len,
                len <= 0xffff_ffff_ffff_ffff,
        ;
    }
    let key: u128 = (i as u128) * (heap.words.len() as u128) + (j as u128);
    proof {
        lemma_pair_key(len, i as int, j as int, i as int, j as int);
        assert(key == pair_key(len, p.at, q.at));
    }
    if traversed_values.contains(&key) {
        return TRUE_VAL;
    }
    traversed_values.insert(key);
    let ghost inner = open.insert(key as int);
    let ghost first = keys(traversed_values@);
    proof {
        assert(first =~= entry.insert(key as int));
        assert(len * len == heap.words.len() * heap.words.len()) by (nonlinear_arith)
            requires
                len == heap.words.len(),
        ;
        lemma_room_shrinks((len * len) as nat, entry, key as int);
        assert(justified(h, first, inner)) by {
            assert forall|a: i64, b: i64|
                (#[trigger] tuple_at(h, a) matches Some(p2) && #[trigger] tuple_at(
                    h,
                    b,
                ) matches Some(q2) && first.contains(pair_key(len, p2.at, q2.at))
                    && !inner.contains(
                    pair_key(len, p2.at, q2.at),
                )) implies tuple_at(h, a)->Some_0.size == tuple_at(h, b)->Some_0.size
                && elements_accepted(
                h,
                tuple_at(h, a)->Some_0,
                tuple_at(h, b)->Some_0,
                tuple_at(h, a)->Some_0.size,
                first,
            ) by {
                let p2 = tuple_at(h, a)->Some_0;
                let q2 = tuple_at(h, b)->Some_0;
                assert(entry.contains(pair_key(len, p2.at, q2.at)));
                assert(!open.contains(pair_key(len, p2.at, q2.at)));
                assert(elements_accepted(h, p2, q2, p2.size, entry));
            }
        }
    }
    let mut k: usize = 0;
    while k < n
        invariant
            k <= n,
            h == heap@,
            len == heap.words.len(),
            i + 2 + n <= heap.words.len(),
            j + 2 + n <= heap.words.len(),
            tuple_at(h, tuple_1) == Some(p),
            tuple_at(h, tuple_2) == Some(q),
            p == (Place { at: i as int, size: n as int }),
            q == (Place { at: j as int, size: n as int }),
            inner == open.insert(key as int),
            key == pair_key(len, p.at, q.at),
            entry == keys(old(traversed_values)@),
            first.subset_of(keys(traversed_values@)),
            entry.subset_of(first),
            first.contains(key as int),
            room((len * len) as nat, first) < room((len * len) as nat, entry),
            len * len == heap.words.len() * heap.words.len(),
            justified(h, keys(traversed_values@), inner),
            forall|c: int|
                0 <= c < n ==> (tuple_at(h, #[trigger] element(h, p, c)) is Some && tuple_at(
                    h,
                    element(h, q, c),
                ) is Some) || element(h, p, c) == element(h, q, c),
            elements_accepted(h, p, q, k as int, keys(traversed_values@)),
        decreases n - k,
    {
        let val_1 = heap.words[i + 2 + k];
        let val_2 = heap.words[j + 2 + k];
        assert(val_1 == element(h, p, k as int));
        assert(val_2 == element(h, q, k as int));
        let ghost now = keys(traversed_values@);
        if heap.tuple(val_1).is_some() && heap.tuple(val_2).is_some() {
            proof {
                lemma_room_monotone((len * len) as nat, first, now);
            }
            if snek_compare_tuples(val_1, val_2, heap, traversed_values, Ghost(inner))
                == FALSE_VAL {
                proof {
                    let d = choose|d: nat| !equal_to_depth(h, val_1, h, val_2, d);
                    assert(!equal_to_depth(h, tuple_1, h, tuple_2, d + 1));
                }
                return FALSE_VAL;
            }
        }
        proof {
            let later = keys(traversed_values@);
            assert(now.subset_of(later));
            assert(accepted(h, val_1, val_2, later));
            assert forall|c: int| 0 <= c < k + 1 implies accepted(
                h,
                #[trigger] element(h, p, c),
                element(h, q, c),
                later,
            ) by {
                if c < k {
                    assert(accepted(h, element(h, p, c), element(h, q, c), now));
                }
            }
        }
        k += 1;
    }
    proof {
        let last = keys(traversed_values@);
        assert(justified(h, last, open)) by {
            assert forall|a: i64, b: i64|
                (#[trigger] tuple_at(h, a) matches Some(p2) && #[trigger] tuple_at(
                    h,
                    b,
                ) matches Some(q2) && last.contains(pair_key(len, p2.at, q2.at))
                    && !open.contains(
                    pair_key(len, p2.at, q2.at),
                )) implies tuple_at(h, a)->Some_0.size == tuple_at(h, b)->Some_0.size
                && elements_accepted(
                h,
                tuple_at(h, a)->Some_0,
                tuple_at(h, b)->Some_0,
                tuple_at(h, a)->Some_0.size,
                last,
            ) by {
                let p2 = tuple_at(h, a)->Some_0;
                let q2 = tuple_at(h, b)->Some_0;
                if pair_key(len, p2.at, q2.at) == key {
                    lemma_pair_key(len, p2.at, q2.at, p.at, q.at);
                    assert(p2 == p);
                    assert(q2 == q);
                } else {
                    assert(!inner.contains(pair_key(len, p2.at, q2.at)));
                }
            }
        }
    }
    TRUE_VAL
}

/// Whether two values are structurally equal, as the word for `true` or
/// for `false`.
pub fn snek_tuple_equal(tuple_1: i64, tuple_2: i64, heap: &Heap) -> (r: i64)
    ensures
        r == (if structurally_equal(heap@, tuple_1, heap@, tuple_2) {
            TRUE_VAL
        } else {
            FALSE_VAL
        }),
{
    broadcast use vstd::std_specs::hash::group_hash_axioms;

    let mut seen: HashSet<u128> = HashSet::new();
    assert(keys(seen@) =~= Set::<int>::empty());
    let r = snek_compare_tuples(tuple_1, tuple_2, heap, &mut seen, Ghost(Set::empty()));
    proof {
        if r == TRUE_VAL {
            assert forall|n: nat| equal_to_depth(heap@, tuple_1, heap@, tuple_2, n) by {
                lemma_accepted_is_equal(heap@, tuple_1, tuple_2, keys(seen@), n);
            }
        }
    }
    r
}

} // verus!
