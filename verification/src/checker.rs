//! A test of well-formedness, for callers that get a heap from outside and
//! must know that the collector may run on it.

use vstd::prelude::*;
use crate::heap::{Heap};
use crate::layout::{
    addressable, cell_of, elem, elements_point_at_tuples, end_of, laid_out, lemma_tiled_push,
    points_at_tuple, roots_point_at_tuples, size_at, tiled, tuple_fits, well_formed,
};
use crate::value::{word_is_reference};

verus! {

/// Whether `table` tells of every word of the heap whether it is the first
/// word of one of the tuples at `objs`.
pub open spec fn tells_tuples(table: Seq<bool>, len: int, objs: Seq<int>) -> bool {
    &&& table.len() == len
    &&& forall|i: int| 0 <= i < len ==> #[trigger] table[i] == objs.contains(i)
}

/// Whether the collector's word of every tuple at `objs` is 0.
pub open spec fn unmarked_all(words: Seq<i64>, objs: Seq<int>) -> bool {
    forall|k: int| 0 <= k < objs.len() ==> words[#[trigger] objs[k]] == 0
}

/// Tells whether the address range of the heap can be computed with.
pub fn check_addressable(heap: &Heap) -> (ok: bool)
    ensures
        ok == addressable(heap@),
{
    heap.start >= 8 && heap.start % 8 == 0 && heap.start as i128 + 8 * (heap.words.len() as i128)
        + 8 <= i64::MAX as i128
}

/// Adding a tuple to the tuples that a table tells of.
proof fn lemma_table_push(table: Seq<bool>, len: int, objs: Seq<int>, src: int)
    requires
        tells_tuples(table, len, objs),
        0 <= src < len,
    ensures
        tells_tuples(table.update(src, true), len, objs.push(src)),
{
    let more = objs.push(src);
    assert(more[objs.len() as int] == src);
    assert forall|i: int| 0 <= i < len implies #[trigger] table.update(src, true)[i]
        == more.contains(i) by {
        if objs.contains(i) {
            let k = objs.index_of(i);
            assert(more[k] == i);
        }
        if more.contains(i) && i != src {
            let k = more.index_of(i);
            assert(objs[k] == i);
        }
    }
}

/// Adding a tuple whose collector's word is 0.
proof fn lemma_unmarked_push(words: Seq<i64>, objs: Seq<int>, src: int)
    requires
        unmarked_all(words, objs),
        words[src] == 0,
    ensures
        unmarked_all(words, objs.push(src)),
{
    let more = objs.push(src);
    assert forall|k: int| 0 <= k < more.len() implies words[#[trigger] more[k]] == 0 by {
        if k < objs.len() {
            assert(more[k] == objs[k]);
        }
    }
}

/// Whether every way in which tuples fill the first `next` words starts
/// with the tuples at `objs` and goes on at `src`.
pub open spec fn only_way(words: Seq<i64>, next: int, objs: Seq<int>, src: int) -> bool {
    forall|o: Seq<int>| #[trigger]
        tiled(words, next, o) ==> o.len() >= objs.len() && o.subrange(0, objs.len() as int)
            == objs && src == (if o.len() > objs.len() {
            o[objs.len() as int]
        } else {
            next
        })
}

/// Where the tuples at `objs` are known, the next tuple in any way of
/// filling the heap is the one after them.
proof fn lemma_only_way_step(words: Seq<i64>, next: int, objs: Seq<int>, src: int)
    requires
        only_way(words, next, objs, src),
        src < next,
        tuple_fits(words, src, next),
    ensures
        only_way(words, next, objs.push(src), end_of(words, src)),
{
    let more = objs.push(src);
    assert forall|o: Seq<int>| #[trigger] tiled(words, next, o) implies o.len() >= more.len()
        && o.subrange(0, more.len() as int) == more && end_of(words, src) == (if o.len()
        > more.len() {
        o[more.len() as int]
    } else {
        next
    }) by {
        let n = objs.len() as int;
        assert(o.subrange(0, n) == objs);
        assert(o.len() > n);
        assert(o[n] == src);
        assert(o.subrange(0, n + 1) =~= o.subrange(0, n).push(o[n]));
        if o.len() > n + 1 {
            assert(end_of(words, o[n]) == o[n + 1]);
        }
    }
}

/// Walks the tuples of the heap from its first word to `next`. Where they
/// fill these words exactly, each with 0 as its collector's word, it returns
/// a table that tells the first words of tuples from the other words; they
/// fill the words in one way only. `None` where they do not.
pub fn check_tuples(heap: &Heap, next: usize) -> (r: Option<(Vec<bool>, Ghost<Seq<int>>)>)
    ensures
        match r {
            Some((table, objs)) => {
                &&& tiled(heap@.words, next as int, objs@)
                &&& unmarked_all(heap@.words, objs@)
                &&& tells_tuples(table@, heap@.words.len() as int, objs@)
                &&& forall|o: Seq<int>| #[trigger] tiled(heap@.words, next as int, o) ==> o == objs@
            },
            None => forall|o: Seq<int>|
                !(#[trigger] tiled(heap@.words, next as int, o) && unmarked_all(heap@.words, o)),
        },
{
    let len = heap.words.len();
    if next > len {
        return None;
    }
    let mut table: Vec<bool> = Vec::new();
    let mut i: usize = 0;
    while i < len
        invariant
            i <= len,
            table.len() == i,
            forall|j: int| 0 <= j < i ==> !(#[trigger] table[j]),
        decreases len - i,
    {
        table.push(false);
        i += 1;
    }
    let ghost mut objs: Seq<int> = Seq::empty();
    let mut src: usize = 0;
    proof {
        assert forall|o: Seq<int>| #[trigger] tiled(heap@.words, next as int, o) implies o.len()
            >= 0 && o.subrange(0, 0) == objs && 0 == (if o.len() > 0 {
            o[0]
        } else {
            next as int
        }) by {
            assert(o.subrange(0, 0) =~= objs);
        }
    }
    while src < next
        invariant
            src <= next <= len,
            len == heap.words.len(),
            tiled(heap@.words, src as int, objs),
            unmarked_all(heap@.words, objs),
            tells_tuples(table@, len as int, objs),
            only_way(heap@.words, next as int, objs, src as int),
        decreases next - src,
    {
        let ghost words = heap@.words;
        proof {
            // in any way of filling the heap, the next tuple lies at `src`
            assert forall|o: Seq<int>| #[trigger] tiled(words, next as int, o) implies o.len()
                > objs.len() && o[objs.len() as int] == src && tuple_fits(
                words,
                src as int,
                next as int,
            ) by {
                assert(tuple_fits(words, o[objs.len() as int], next as int));
            }
        }
        if next - src < 2 {
            return None;
        }
        let header = heap.words[src + 1];
        if header < 0 || header % 2 != 0 {
            return None;
        }
        if heap.words[src] != 0 {
            proof {
                assert forall|o: Seq<int>|
                    !(#[trigger] tiled(words, next as int, o) && unmarked_all(words, o)) by {
                    if tiled(words, next as int, o) {
                        assert(words[o[objs.len() as int]] != 0);
                    }
                }
            }
            return None;
        }
        let size = header / 2;
        if size as u64 > (next - src - 2) as u64 {
            proof {
                assert(size == size_at(words, src as int));
            }
            return None;
        }
        let after: usize = src + 2 + size as usize;
        proof {
            assert(size == size_at(words, src as int));
            assert(tuple_fits(words, src as int, after as int));
            assert(tuple_fits(words, src as int, next as int));
            lemma_tiled_push(words, src as int, objs, after as int);
            lemma_table_push(table@, len as int, objs, src as int);
            lemma_unmarked_push(words, objs, src as int);
            lemma_only_way_step(words, next as int, objs, src as int);
            objs = objs.push(src as int);
        }
        table.set(src, true);
        src = after;
    }
    proof {
        assert forall|o: Seq<int>| #[trigger] tiled(heap@.words, next as int, o) implies o
            == objs by {
            if o.len() > objs.len() {
                assert(tuple_fits(heap@.words, o[objs.len() as int], next as int));
            }
            assert(o.subrange(0, objs.len() as int) =~= o);
        }
    }
    Some((table, Ghost(objs)))
}

/// Tells whether the word `v` is a number, a boolean, `nil`, or a reference
/// to the first word of a tuple.
pub fn check_word(
    heap: &Heap,
    table: &Vec<bool>,
    v: i64,
    Ghost(objs): Ghost<Seq<int>>,
    Ghost(next): Ghost<int>,
) -> (ok: bool)
    requires
        tiled(heap@.words, next, objs),
        tells_tuples(table@, heap@.words.len() as int, objs),
    ensures
        ok == points_at_tuple(heap.start, objs, v),
{
    proof {
        if objs.contains(cell_of(heap.start, v)) {
            let k = objs.index_of(cell_of(heap.start, v));
            assert(tuple_fits(heap@.words, objs[k], next));
        }
    }
    if !word_is_reference(v) {
        return true;
    }
    let offset: i128 = v as i128 - 1 - heap.start as i128;
    if offset < 0 || offset % 8 != 0 {
        return false;
    }
    let cell: i128 = offset / 8;
    if cell >= table.len() as i128 {
        return false;
    }
    assert(cell == cell_of(heap.start, v));
    table[cell as usize]
}

/// Whether every element of the first `k` tuples, and of the first `done`
/// elements of the next, points at a tuple where it is a reference.
pub open spec fn elements_checked(
    words: Seq<i64>,
    start: i64,
    objs: Seq<int>,
    k: int,
    done: int,
) -> bool {
    forall|j: int, t: int|
        0 <= j < objs.len() && 0 <= t < size_at(words, objs[j]) && (j < k || (j == k && t < done))
            ==> points_at_tuple(start, objs, #[trigger] elem(words, objs[j], t))
}

/// Tells whether every reference in the tuples of the heap points at the
/// first word of a tuple.
pub fn check_elements(
    heap: &Heap,
    next: usize,
    table: &Vec<bool>,
    Ghost(objs): Ghost<Seq<int>>,
) -> (ok: bool)
    requires
        tiled(heap@.words, next as int, objs),
        tells_tuples(table@, heap@.words.len() as int, objs),
    ensures
        ok == elements_point_at_tuples(heap@.words, heap.start, objs),
{
    let ghost mut k: int = 0;
    let mut src: usize = 0;
    while src < next
        invariant
            tiled(heap@.words, next as int, objs),
            tells_tuples(table@, heap@.words.len() as int, objs),
            0 <= k <= objs.len(),
            src == (if k < objs.len() {
                objs[k]
            } else {
                next as int
            }),
            elements_checked(heap@.words, heap.start, objs, k, 0),
        decreases next - src,
    {
        proof {
            assert(tuple_fits(heap@.words, objs[k], next as int));
            assert(size_at(heap@.words, src as int) >= 0);
        }
        let size: usize = (heap.words[src + 1] / 2) as usize;
        let mut t: usize = 0;
        while t < size
            invariant
                t <= size,
                0 <= k < objs.len(),
                src == objs[k],
                size == size_at(heap@.words, src as int),
                src + 2 + size <= heap.words.len(),
                tiled(heap@.words, next as int, objs),
                tells_tuples(table@, heap@.words.len() as int, objs),
                elements_checked(heap@.words, heap.start, objs, k, t as int),
            decreases size - t,
        {
            if !check_word(heap, table, heap.words[src + 2 + t], Ghost(objs), Ghost(next as int)) {
                assert(!points_at_tuple(heap.start, objs, elem(heap@.words, objs[k], t as int)));
                return false;
            }
            assert(points_at_tuple(heap.start, objs, elem(heap@.words, objs[k], t as int)));
            t += 1;
        }
        proof {
            if k + 1 < objs.len() {
                assert(end_of(heap@.words, objs[k]) == objs[k + 1]);
            }
            k = k + 1;
        }
        src = src + size + 2;
    }
    true
}

/// Tells whether every reference on the stack points at the first word of
/// a tuple.
pub fn check_roots(
    heap: &Heap,
    roots: &Vec<i64>,
    table: &Vec<bool>,
    Ghost(objs): Ghost<Seq<int>>,
    Ghost(next): Ghost<int>,
) -> (ok: bool)
    requires
        tiled(heap@.words, next, objs),
        tells_tuples(table@, heap@.words.len() as int, objs),
    ensures
        ok == roots_point_at_tuples(roots@, heap.start, objs),
{
    let mut r: usize = 0;
    while r < roots.len()
        invariant
            r <= roots.len(),
            tiled(heap@.words, next, objs),
            tells_tuples(table@, heap@.words.len() as int, objs),
            forall|j: int| 0 <= j < r ==> points_at_tuple(heap.start, objs, #[trigger] roots@[j]),
        decreases roots.len() - r,
    {
        if !check_word(heap, table, roots[r], Ghost(objs), Ghost(next)) {
            assert(!points_at_tuple(heap.start, objs, roots@[r as int]));
            return false;
        }
        r += 1;
    }
    true
}

/// Tells whether the heap is well formed, with `next` as its allocation
/// pointer and `roots` as the values on the stack.
pub fn is_well_formed(heap: &Heap, next: usize, roots: &Vec<i64>) -> (ok: bool)
    ensures
        ok == well_formed(heap@, next as int, roots@),
{
    if !check_addressable(heap) {
        return false;
    }
    match check_tuples(heap, next) {
        None => {
            proof {
                assert forall|o: Seq<int>| !laid_out(heap@, next as int, roots@, o) by {
                    if laid_out(heap@, next as int, roots@, o) {
                        assert(tiled(heap@.words, next as int, o) && unmarked_all(heap@.words, o));
                    }
                }
            }
            false
        },
        Some((table, objs)) => {
            let ok = check_elements(heap, next, &table, objs) && check_roots(
                heap,
                roots,
                &table,
                objs,
                Ghost(next as int),
            );
            proof {
                if ok {
                    assert(laid_out(heap@, next as int, roots@, objs@));
                } else {
                    assert forall|o: Seq<int>| !laid_out(heap@, next as int, roots@, o) by {
                        if laid_out(heap@, next as int, roots@, o) {
                            assert(tiled(heap@.words, next as int, o));
                            assert(o == objs@);
                        }
                    }
                }
            }
            ok
        },
    }
}

} // verus!
