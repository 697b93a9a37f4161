//! How tuples lie in the heap between collections: one after the other from
//! the first word of the heap to the allocation pointer, every reference
//! pointing at the first word of one of them.

use vstd::prelude::*;
use crate::heap::HeapView;
use crate::value::is_reference;

verus! {

/// The index of the heap word at the address `v - 1`.
pub open spec fn cell_of(start: i64, v: i64) -> int {
    (v - 1 - start) / 8
}

/// The address of the heap word with index `i`.
pub open spec fn address_of(start: i64, i: int) -> int {
    start + 8 * i
}

/// The size of the tuple whose first word has index `i`.
pub open spec fn size_at(words: Seq<i64>, i: int) -> int {
    words[i + 1] / 2
}

/// The index of the first word after the tuple at `i`.
pub open spec fn end_of(words: Seq<i64>, i: int) -> int {
    i + 2 + size_at(words, i)
}

/// Element `t` of the tuple at `i`.
pub open spec fn elem(words: Seq<i64>, i: int, t: int) -> i64 {
    words[i + 2 + t]
}

/// Whether a tuple lies at `i` within the first `next` words: its size is a
/// number that is not negative, and its elements end before `next`.
pub open spec fn tuple_fits(words: Seq<i64>, i: int, next: int) -> bool {
    &&& 0 <= i
    &&& i + 1 < next
    &&& words[i + 1] >= 0
    &&& words[i + 1] % 2 == 0
    &&& end_of(words, i) <= next
}

/// Whether the tuples at `objs` fill the first `next` words: the first one
/// lies at 0, each of the others where the one before it ends, and the last
/// one ends at `next`.
pub open spec fn tiled(words: Seq<i64>, next: int, objs: Seq<int>) -> bool {
    &&& 0 <= next <= words.len()
    &&& if objs.len() == 0 {
        next == 0
    } else {
        objs[0] == 0 && end_of(words, objs.last()) == next
    }
    &&& forall|k: int| 0 <= k < objs.len() ==> tuple_fits(words, #[trigger] objs[k], next)
    &&& forall|k: int| 0 <= k < objs.len() - 1 ==> end_of(words, #[trigger] objs[k]) == objs[k + 1]
}

/// Whether the address range of the heap can be computed with: it starts
/// at a positive multiple of 8 and ends below the greatest `i64`.
pub open spec fn addressable(h: HeapView) -> bool {
    &&& h.start >= 8
    &&& h.start % 8 == 0
    &&& h.start + 8 * h.words.len() + 8 <= i64::MAX
}

/// Whether the word `v`, if it is a reference, points at the first word of
/// one of the tuples at `objs`.
pub open spec fn points_at_tuple(start: i64, objs: Seq<int>, v: i64) -> bool {
    is_reference(v) ==> v == address_of(start, cell_of(start, v)) + 1 && objs.contains(
        cell_of(start, v),
    )
}

/// Whether every element of the tuples at `objs` is a number, a boolean,
/// `nil`, or a reference to one of these tuples.
pub open spec fn elements_point_at_tuples(words: Seq<i64>, start: i64, objs: Seq<int>) -> bool {
    forall|k: int, t: int|
        0 <= k < objs.len() && 0 <= t < size_at(words, objs[k]) ==> points_at_tuple(
            start,
            objs,
            #[trigger] elem(words, objs[k], t),
        )
}

/// Whether every word of `roots` is a number, a boolean, `nil`, or a
/// reference to one of the tuples at `objs`.
pub open spec fn roots_point_at_tuples(roots: Seq<i64>, start: i64, objs: Seq<int>) -> bool {
    forall|r: int| 0 <= r < roots.len() ==> points_at_tuple(start, objs, #[trigger] roots[r])
}

/// Whether the tuples at `objs` make up a heap between collections, with
/// `next` as its allocation pointer and `roots` as the values on the stack.
pub open spec fn laid_out(h: HeapView, next: int, roots: Seq<i64>, objs: Seq<int>) -> bool {
    &&& addressable(h)
    &&& tiled(h.words, next, objs)
    &&& forall|k: int| 0 <= k < objs.len() ==> h.words[#[trigger] objs[k]] == 0
    &&& elements_point_at_tuples(h.words, h.start, objs)
    &&& roots_point_at_tuples(roots, h.start, objs)
}

/// Whether the heap is well formed between collections: its first `next`
/// words are tuples one after the other, the collector's word of each is 0,
/// and every reference in a tuple or on the stack points at the first word
/// of a tuple.
pub open spec fn well_formed(h: HeapView, next: int, roots: Seq<i64>) -> bool {
    exists|objs: Seq<int>| laid_out(h, next, roots, objs)
}

/// Tuples that fill a heap lie in the order of their indices, none inside
/// another.
pub proof fn lemma_in_order(words: Seq<i64>, next: int, objs: Seq<int>, j: int, k: int)
    requires
        tiled(words, next, objs),
        0 <= j < k < objs.len(),
    ensures
        end_of(words, objs[j]) <= objs[k],
        objs[j] + 2 <= objs[k],
    decreases k - j,
{
    if j + 1 < k {
        lemma_in_order(words, next, objs, j + 1, k);
        assert(end_of(words, objs[j]) == objs[j + 1]);
        assert(tuple_fits(words, objs[j + 1], next));
    } else {
        assert(end_of(words, objs[j]) == objs[j + 1]);
    }
    assert(tuple_fits(words, objs[j], next));
}

/// A word of the heap belongs to one tuple only.
pub proof fn lemma_one_owner(words: Seq<i64>, next: int, objs: Seq<int>, j: int, k: int, i: int)
    requires
        tiled(words, next, objs),
        0 <= j < objs.len(),
        0 <= k < objs.len(),
        objs[j] <= i < end_of(words, objs[j]),
        objs[k] <= i < end_of(words, objs[k]),
    ensures
        j == k,
{
    if j < k {
        lemma_in_order(words, next, objs, j, k);
    } else if k < j {
        lemma_in_order(words, next, objs, k, j);
    }
}

/// Adding a tuple where the tuples before it end keeps a heap tiled.
pub proof fn lemma_tiled_push(words: Seq<i64>, next: int, objs: Seq<int>, after: int)
    requires
        tiled(words, next, objs),
        tuple_fits(words, next, after),
        end_of(words, next) == after,
        after <= words.len(),
    ensures
        tiled(words, after, objs.push(next)),
{
    let more = objs.push(next);
    assert forall|k: int| 0 <= k < more.len() implies tuple_fits(words, #[trigger] more[k], after) by {
        if k < objs.len() {
            assert(tuple_fits(words, objs[k], next));
        }
    }
    assert forall|k: int| 0 <= k < more.len() - 1 implies end_of(words, #[trigger] more[k])
        == more[k + 1] by {
        if k < objs.len() - 1 {
            assert(end_of(words, objs[k]) == objs[k + 1]);
        }
    }
}

} // verus!
