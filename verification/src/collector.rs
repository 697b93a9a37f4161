//! The collector: the four phases one after the other, and what a
//! collection keeps: the heap is well formed again, and every value on the
//! stack is structurally equal to what it was.

use vstd::prelude::*;
use crate::compacting::{compact, lemma_places_grow, placed};
use crate::equality::{equal_to_depth, structurally_equal};
use crate::forwarding::{footprint, forward, forwarded, lemma_place_bound, new_place};
use crate::heap::{element, tuple_at, Heap, HeapView, Place};
use crate::layout::{
    address_of, addressable, cell_of, elem, elements_point_at_tuples, end_of, laid_out,
    lemma_one_owner, lemma_tiled_push, points_at_tuple, roots_point_at_tuples, size_at, tiled,
    tuple_fits, well_formed,
};
use crate::marking::{
    elements_marked, lemma_same_layout, mark, marks_closed, marks_only, marks_reachable, reachable,
    reached, target_marked,
};
use crate::rewriting::{
    addresses_fit, moved, rewrite_heap, rewrite_roots, rewritten, roots_rewritten,
};
use crate::stack::{places_of, roots_of, Stack};
use crate::value::is_reference;

verus! {

/// A collection: the heap before it and after each of its phases, and the
/// stack before and after it.
pub struct Collection {
    pub start: i64,
    pub next: int,
    pub objs: Seq<int>,
    pub before: Seq<i64>,
    pub marked: Seq<i64>,
    pub forwarded: Seq<i64>,
    pub rewritten: Seq<i64>,
    pub after: Seq<i64>,
    pub roots_before: Seq<i64>,
    pub roots_after: Seq<i64>,
}

impl Collection {
    /// The heap before the collection.
    pub open spec fn old_heap(self) -> HeapView {
        HeapView { start: self.start, words: self.before }
    }

    /// The heap after the collection.
    pub open spec fn new_heap(self) -> HeapView {
        HeapView { start: self.start, words: self.after }
    }

    /// Whether tuple `k` is kept.
    pub open spec fn live(self, k: int) -> bool {
        self.marked[self.objs[k]] != 0
    }

    /// The index at which tuple `k` lies after the collection.
    pub open spec fn place(self, k: int) -> int {
        new_place(self.marked, self.objs, k)
    }

    /// The allocation pointer after the collection.
    pub open spec fn total(self) -> int {
        new_place(self.marked, self.objs, self.objs.len() as int)
    }

    /// The heap before the collection is well formed.
    #[verifier::opaque]
    pub open spec fn began(self) -> bool {
        laid_out(self.old_heap(), self.next, self.roots_before, self.objs)
    }

    /// What the first phase has established.
    #[verifier::opaque]
    pub open spec fn was_marked(self) -> bool {
        &&& marks_only(self.marked, self.before, self.objs)
        &&& marks_closed(self.marked, self.start, self.roots_before, self.objs)
        &&& marks_reachable(self.marked, self.old_heap(), self.roots_before, self.objs)
    }

    /// What the second phase has established.
    #[verifier::opaque]
    pub open spec fn was_forwarded(self) -> bool {
        forwarded(self.marked, self.forwarded, self.start, self.objs, self.objs.len() as int)
    }

    /// What the third phase has established.
    #[verifier::opaque]
    pub open spec fn was_rewritten(self) -> bool {
        &&& rewritten(
            self.forwarded,
            self.rewritten,
            self.start,
            self.objs,
            self.objs.len() as int,
            0,
        )
        &&& roots_rewritten(
            self.forwarded,
            self.start,
            self.roots_before,
            self.roots_after,
            self.roots_before.len() as int,
        )
    }

    /// What the fourth phase has established.
    #[verifier::opaque]
    pub open spec fn was_compacted(self) -> bool {
        &&& self.after.len() == self.before.len()
        &&& forall|j: int|
            0 <= j < self.objs.len() && self.rewritten[#[trigger] self.objs[j]] != 0 ==> placed(
                self.rewritten,
                self.after,
                self.objs[j],
                new_place(self.rewritten, self.objs, j),
            )
    }

    /// What the four phases have established, each of the heap that the
    /// phase before it left.
    pub open spec fn done(self) -> bool {
        &&& self.began()
        &&& self.was_marked()
        &&& self.was_forwarded()
        &&& self.was_rewritten()
        &&& self.was_compacted()
    }
}

/// Tuple `k` before the collection.
proof fn lemma_tuple_before(c: Collection, k: int)
    requires
        c.began(),
        0 <= k < c.objs.len(),
    ensures
        addressable(c.old_heap()),
        tiled(c.before, c.next, c.objs),
        tuple_fits(c.before, c.objs[k], c.next),
{
    reveal(Collection::began);
}

/// Tuple `k` after the first phase: it has a mark or none, and is as it was
/// otherwise.
proof fn lemma_tuple_marked(c: Collection, k: int)
    requires
        c.began(),
        c.was_marked(),
        0 <= k < c.objs.len(),
    ensures
        tiled(c.marked, c.next, c.objs),
        c.marked.len() == c.before.len(),
        c.marked[c.objs[k]] == 0 || c.marked[c.objs[k]] == 1,
        size_at(c.marked, c.objs[k]) == size_at(c.before, c.objs[k]),
        forall|t: int|
            0 <= t < size_at(c.before, c.objs[k]) ==> #[trigger] elem(c.marked, c.objs[k], t)
                == elem(c.before, c.objs[k], t),
{
    reveal(Collection::began);
    reveal(Collection::was_marked);
    lemma_same_layout(c.before, c.marked, c.next, c.objs);
}

/// Tuple `k` after the second phase: its collector's word holds its new
/// address if it has a mark, and it is as it was otherwise.
proof fn lemma_tuple_forwarded(c: Collection, k: int)
    requires
        c.began(),
        c.was_marked(),
        c.was_forwarded(),
        0 <= k < c.objs.len(),
    ensures
        tiled(c.forwarded, c.next, c.objs),
        c.forwarded.len() == c.before.len(),
        c.forwarded[c.objs[k]] == if c.live(k) {
            address_of(c.start, c.place(k))
        } else {
            0
        },
        size_at(c.forwarded, c.objs[k]) == size_at(c.before, c.objs[k]),
        forall|t: int|
            0 <= t < size_at(c.before, c.objs[k]) ==> #[trigger] elem(c.forwarded, c.objs[k], t)
                == elem(c.before, c.objs[k], t),
{
    lemma_tuple_marked(c, k);
    reveal(Collection::was_forwarded);
    lemma_same_layout(c.marked, c.forwarded, c.next, c.objs);
    assert forall|t: int| 0 <= t < size_at(c.before, c.objs[k]) implies #[trigger] elem(
        c.forwarded,
        c.objs[k],
        t,
    ) == elem(c.before, c.objs[k], t) by {
        assert(elem(c.forwarded, c.objs[k], t) == elem(c.marked, c.objs[k], t));
        assert(elem(c.marked, c.objs[k], t) == elem(c.before, c.objs[k], t));
    }
}

/// Where tuple `k` goes: not towards the end of the heap, and not past the
/// new allocation pointer.
proof fn lemma_tuple_place(c: Collection, k: int)
    requires
        c.began(),
        c.was_marked(),
        0 <= k < c.objs.len(),
    ensures
        0 <= c.place(k) <= c.objs[k],
        c.place(k) + (if c.live(k) {
            footprint(c.before, c.objs[k])
        } else {
            0
        }) <= c.total(),
        c.total() <= c.next,
        c.next <= c.before.len(),
        c.start >= 8,
        c.start % 8 == 0,
        address_of(c.start, c.before.len() as int) + 8 <= i64::MAX,
{
    lemma_tuple_marked(c, k);
    lemma_tuple_before(c, k);
    let m = c.objs.len() as int;
    lemma_place_bound(c.marked, c.next, c.objs, k);
    lemma_place_bound(c.marked, c.next, c.objs, m);
    lemma_places_grow(c.marked, c.next, c.objs, k, m);
}

/// Tuple `k` after the third phase: its elements are replaced.
proof fn lemma_tuple_rewritten(c: Collection, k: int)
    requires
        c.began(),
        c.was_marked(),
        c.was_forwarded(),
        c.was_rewritten(),
        0 <= k < c.objs.len(),
    ensures
        c.rewritten.len() == c.before.len(),
        (c.rewritten[c.objs[k]] != 0) == c.live(k),
        size_at(c.rewritten, c.objs[k]) == size_at(c.before, c.objs[k]),
        c.rewritten[c.objs[k] + 1] == c.before[c.objs[k] + 1],
        forall|t: int|
            0 <= t < size_at(c.before, c.objs[k]) ==> #[trigger] elem(c.rewritten, c.objs[k], t)
                == moved(c.forwarded, c.start, elem(c.before, c.objs[k], t)),
{
    lemma_tuple_forwarded(c, k);
    lemma_tuple_place(c, k);
    lemma_tuple_marked(c, k);
    lemma_tuple_before(c, k);
    assert(c.rewritten.len() == c.forwarded.len() && c.rewritten[c.objs[k]] == c.forwarded[c.objs[k]]
        && c.rewritten[c.objs[k] + 1] == c.forwarded[c.objs[k] + 1] && (forall|t: int|
        0 <= t < size_at(c.forwarded, c.objs[k]) ==> #[trigger] elem(c.rewritten, c.objs[k], t)
            == moved(c.forwarded, c.start, elem(c.forwarded, c.objs[k], t)))) by {
        reveal(Collection::was_rewritten);
    }
    assert(c.forwarded[c.objs[k] + 1] == c.before[c.objs[k] + 1]) by {
        reveal(Collection::was_forwarded);
        reveal(Collection::was_marked);
        lemma_one_cell(c, k);
    }
    assert forall|t: int| 0 <= t < size_at(c.before, c.objs[k]) implies #[trigger] elem(
        c.rewritten,
        c.objs[k],
        t,
    ) == moved(c.forwarded, c.start, elem(c.before, c.objs[k], t)) by {
        assert(elem(c.forwarded, c.objs[k], t) == elem(c.before, c.objs[k], t));
    }
}

/// The word after the first word of a tuple is the first word of no tuple.
proof fn lemma_one_cell(c: Collection, k: int)
    requires
        c.began(),
        0 <= k < c.objs.len(),
    ensures
        !c.objs.contains(c.objs[k] + 1),
{
    lemma_tuple_before(c, k);
    if c.objs.contains(c.objs[k] + 1) {
        let j = c.objs.index_of(c.objs[k] + 1);
        lemma_one_owner(c.before, c.next, c.objs, j, k, c.objs[k] + 1);
    }
}

/// The fourth phase computes the places that the second one computed.
proof fn lemma_places_agree(c: Collection, k: int)
    requires
        c.began(),
        c.was_marked(),
        c.was_forwarded(),
        c.was_rewritten(),
        0 <= k <= c.objs.len(),
    ensures
        new_place(c.rewritten, c.objs, k) == c.place(k),
    decreases k,
{
    if k > 0 {
        lemma_places_agree(c, k - 1);
        lemma_tuple_rewritten(c, k - 1);
        lemma_tuple_marked(c, k - 1);
    }
}

/// Tuple `k` after the collection, if it is kept: it lies at its new place
/// with 0 as its collector's word, its size and its elements, replaced.
proof fn lemma_tuple_after(c: Collection, k: int)
    requires
        c.done(),
        0 <= k < c.objs.len(),
        c.live(k),
    ensures
        c.after.len() == c.before.len(),
        c.after[c.place(k)] == 0,
        c.after[c.place(k) + 1] == c.before[c.objs[k] + 1],
        size_at(c.after, c.place(k)) == size_at(c.before, c.objs[k]),
        forall|t: int|
            0 <= t < size_at(c.before, c.objs[k]) ==> #[trigger] elem(c.after, c.place(k), t)
                == moved(c.forwarded, c.start, elem(c.before, c.objs[k], t)),
{
    lemma_tuple_rewritten(c, k);
    lemma_places_agree(c, k);
    lemma_tuple_before(c, k);
    assert(c.after.len() == c.before.len() && placed(c.rewritten, c.after, c.objs[k], c.place(k)))
        by {
        reveal(Collection::was_compacted);
    }
    assert(footprint(c.rewritten, c.objs[k]) == footprint(c.before, c.objs[k]));
    assert(c.after[c.place(k) + 1] == c.rewritten[c.objs[k] + 1]);
    assert forall|t: int| 0 <= t < size_at(c.before, c.objs[k]) implies #[trigger] elem(
        c.after,
        c.place(k),
        t,
    ) == moved(c.forwarded, c.start, elem(c.before, c.objs[k], t)) by {
        assert(c.after[c.place(k) + (2 + t)] == c.rewritten[c.objs[k] + (2 + t)]);
        assert(elem(c.rewritten, c.objs[k], t) == moved(
            c.forwarded,
            c.start,
            elem(c.before, c.objs[k], t),
        ));
    }
}

/// Whether `v` is a word of the heap before the collection that the
/// collection keeps: a number, a boolean, `nil`, or a reference to a kept
/// tuple.
pub open spec fn kept(c: Collection, v: i64) -> bool {
    points_at_tuple(c.start, c.objs, v) && target_marked(c.marked, c.start, v)
}

/// What replaces a kept word: a reference to a tuple becomes the reference
/// to the new place of that tuple, and any other word stays.
proof fn lemma_moved_word(c: Collection, v: i64)
    requires
        c.done(),
        kept(c, v),
    ensures
        !is_reference(v) ==> moved(c.forwarded, c.start, v) == v,
        is_reference(v) ==> {
            let k = c.objs.index_of(cell_of(c.start, v));
            &&& 0 <= k < c.objs.len()
            &&& c.objs[k] == cell_of(c.start, v)
            &&& v == address_of(c.start, c.objs[k]) + 1
            &&& c.live(k)
            &&& moved(c.forwarded, c.start, v) == address_of(c.start, c.place(k)) + 1
            &&& is_reference(moved(c.forwarded, c.start, v))
            &&& cell_of(c.start, moved(c.forwarded, c.start, v)) == c.place(k)
        },
{
    if is_reference(v) {
        let cell = cell_of(c.start, v);
        assert(c.objs.contains(cell));
        let k = c.objs.index_of(cell);
        lemma_tuple_forwarded(c, k);
        lemma_tuple_place(c, k);
        let w = address_of(c.start, c.place(k)) + 1;
        assert(moved(c.forwarded, c.start, v) == w);
        assert(w % 2 != 0);
        assert((w - 1 - c.start) / 8 == c.place(k));
    }
}

/// The elements of a kept tuple are kept.
proof fn lemma_elements_kept(c: Collection, k: int, t: int)
    requires
        c.done(),
        0 <= k < c.objs.len(),
        c.live(k),
        0 <= t < size_at(c.before, c.objs[k]),
    ensures
        kept(c, elem(c.before, c.objs[k], t)),
{
    lemma_tuple_marked(c, k);
    assert(points_at_tuple(c.start, c.objs, elem(c.before, c.objs[k], t))) by {
        reveal(Collection::began);
    }
    assert(elements_marked(c.marked, c.start, c.objs[k], size_at(c.marked, c.objs[k]))) by {
        reveal(Collection::was_marked);
    }
    assert(elem(c.marked, c.objs[k], t) == elem(c.before, c.objs[k], t));
    assert(target_marked(c.marked, c.start, elem(c.marked, c.objs[k], t)));
}

/// A kept word and what replaces it are equal to every depth, the first
/// in the heap before the collection and the second in the heap after it.
proof fn lemma_kept_equal(c: Collection, v: i64, n: nat)
    requires
        c.done(),
        kept(c, v),
    ensures
        equal_to_depth(c.old_heap(), v, c.new_heap(), moved(c.forwarded, c.start, v), n),
    decreases n,
{
    if n > 0 {
        lemma_moved_word(c, v);
        let w = moved(c.forwarded, c.start, v);
        if is_reference(v) {
            let k = c.objs.index_of(cell_of(c.start, v));
            lemma_tuple_before(c, k);
            lemma_tuple_place(c, k);
            lemma_tuple_after(c, k);
            let p = Place { at: c.objs[k], size: size_at(c.before, c.objs[k]) };
            let q = Place { at: c.place(k), size: size_at(c.before, c.objs[k]) };
            assert(tuple_at(c.old_heap(), v) == Some(p));
            assert(tuple_at(c.new_heap(), w) == Some(q));
            assert forall|t: int| 0 <= t < p.size implies equal_to_depth(
                c.old_heap(),
                #[trigger] element(c.old_heap(), p, t),
                c.new_heap(),
                element(c.new_heap(), q, t),
                (n - 1) as nat,
            ) by {
                lemma_elements_kept(c, k, t);
                assert(element(c.old_heap(), p, t) == elem(c.before, c.objs[k], t));
                assert(element(c.new_heap(), q, t) == elem(c.after, c.place(k), t));
                lemma_kept_equal(c, elem(c.before, c.objs[k], t), (n - 1) as nat);
            }
        } else {
            assert(tuple_at(c.old_heap(), v) is None);
            assert(tuple_at(c.new_heap(), v) is None);
        }
    }
}

/// A root is kept, and what replaces it is what the third phase wrote.
proof fn lemma_root_kept(c: Collection, r: int)
    requires
        c.done(),
        0 <= r < c.roots_before.len(),
    ensures
        kept(c, c.roots_before[r]),
        c.roots_after.len() == c.roots_before.len(),
        c.roots_after[r] == moved(c.forwarded, c.start, c.roots_before[r]),
{
    reveal(Collection::began);
    reveal(Collection::was_marked);
    reveal(Collection::was_rewritten);
    assert(points_at_tuple(c.start, c.objs, c.roots_before[r]));
    assert(target_marked(c.marked, c.start, c.roots_before[r]));
}

/// Each root is structurally equal to what replaces it.
proof fn lemma_roots_equal(c: Collection, r: int)
    requires
        c.done(),
        0 <= r < c.roots_before.len(),
    ensures
        structurally_equal(c.old_heap(), c.roots_before[r], c.new_heap(), c.roots_after[r]),
{
    let v = c.roots_before[r];
    lemma_root_kept(c, r);
    assert forall|n: nat| equal_to_depth(c.old_heap(), v, c.new_heap(), c.roots_after[r], n) by {
        lemma_kept_equal(c, v, n);
    }
}

/// The new places of the kept tuples among the first `k`, in order.
pub open spec fn kept_places(marked: Seq<i64>, objs: Seq<int>, k: int) -> Seq<int>
    decreases k,
{
    if k <= 0 || k > objs.len() {
        Seq::empty()
    } else if marked[objs[k - 1]] != 0 {
        kept_places(marked, objs, k - 1).push(new_place(marked, objs, k - 1))
    } else {
        kept_places(marked, objs, k - 1)
    }
}

/// Whether the kept tuples among the first `k` fill the heap after the
/// collection up to the place of tuple `k`, and no other tuple lies there.
#[verifier::opaque]
pub open spec fn settled(c: Collection, k: int) -> bool {
    &&& tiled(c.after, c.place(k), kept_places(c.marked, c.objs, k))
    &&& forall|j: int|
        0 <= j < k && c.live(j) ==> kept_places(c.marked, c.objs, k).contains(
            #[trigger] c.place(j),
        )
    &&& forall|i: int| #[trigger]
        kept_places(c.marked, c.objs, k).contains(i) ==> exists|j: int|
            0 <= j < k && c.live(j) && c.place(j) == i
}

/// The kept tuples fill the heap after the collection.
proof fn lemma_settled(c: Collection, k: int)
    requires
        c.done(),
        0 <= k <= c.objs.len(),
    ensures
        settled(c, k),
    decreases k,
{
    reveal(settled);
    if k == 0 {
        lemma_total_fits(c);
    } else {
        lemma_settled(c, k - 1);
        lemma_tuple_place(c, k - 1);
        lemma_tuple_before(c, k - 1);
        lemma_tuple_marked(c, k - 1);
        let places = kept_places(c.marked, c.objs, k - 1);
        if c.live(k - 1) {
            lemma_tuple_after(c, k - 1);
            let p = c.place(k - 1);
            lemma_tiled_push(c.after, p, places, c.place(k));
            let more = places.push(p);
            assert(more[places.len() as int] == p);
            assert forall|j: int| 0 <= j < k && c.live(j) implies more.contains(
                #[trigger] c.place(j),
            ) by {
                if j < k - 1 {
                    let at = places.index_of(c.place(j));
                    assert(more[at] == c.place(j));
                }
            }
            assert forall|i: int| #[trigger] more.contains(i) implies exists|j: int|
                0 <= j < k && c.live(j) && c.place(j) == i by {
                let at = more.index_of(i);
                if at < places.len() {
                    assert(places[at] == i);
                    assert(places.contains(i));
                    let j = choose|j: int| 0 <= j < k - 1 && c.live(j) && c.place(j) == i;
                    assert(0 <= j < k && c.live(j) && c.place(j) == i);
                } else {
                    assert(c.live(k - 1) && c.place(k - 1) == i);
                }
            }
        } else {
            assert forall|i: int| #[trigger] places.contains(i) implies exists|j: int|
                0 <= j < k && c.live(j) && c.place(j) == i by {
                let j = choose|j: int| 0 <= j < k - 1 && c.live(j) && c.place(j) == i;
                assert(0 <= j < k && c.live(j) && c.place(j) == i);
            }
        }
    }
}

/// The new allocation pointer lies within the heap.
proof fn lemma_total_fits(c: Collection)
    requires
        c.done(),
    ensures
        0 <= c.total() <= c.next <= c.before.len(),
        c.after.len() == c.before.len(),
        addressable(c.new_heap()),
{
    reveal(Collection::began);
    reveal(Collection::was_marked);
    reveal(Collection::was_compacted);
    lemma_same_layout(c.before, c.marked, c.next, c.objs);
    lemma_place_bound(c.marked, c.next, c.objs, c.objs.len() as int);
}

/// Where a reference in the heap after the collection points: at the
/// first word of a kept tuple at its new place.
proof fn lemma_moved_points(c: Collection, v: i64)
    requires
        c.done(),
        kept(c, v),
    ensures
        points_at_tuple(
            c.start,
            kept_places(c.marked, c.objs, c.objs.len() as int),
            moved(c.forwarded, c.start, v),
        ),
{
    lemma_moved_word(c, v);
    if is_reference(v) {
        let k = c.objs.index_of(cell_of(c.start, v));
        lemma_settled(c, c.objs.len() as int);
        reveal(settled);
        assert(kept_places(c.marked, c.objs, c.objs.len() as int).contains(c.place(k)));
    }
}

/// After a collection the heap is laid out again: the kept tuples lie one
/// after the other, and every reference points at the first word of one.
proof fn lemma_laid_out_again(c: Collection)
    requires
        c.done(),
    ensures
        laid_out(
            c.new_heap(),
            c.total(),
            c.roots_after,
            kept_places(c.marked, c.objs, c.objs.len() as int),
        ),
{
    let m = c.objs.len() as int;
    let places = kept_places(c.marked, c.objs, m);
    lemma_total_fits(c);
    lemma_settled(c, m);
    assert(tiled(c.after, c.total(), places)) by {
        reveal(settled);
    }
    assert forall|k: int| 0 <= k < places.len() implies c.after[#[trigger] places[k]] == 0 by {
        lemma_place_is_tuple(c, places[k]);
    }
    assert forall|k: int, t: int|
        0 <= k < places.len() && 0 <= t < size_at(c.after, places[k]) implies points_at_tuple(
        c.start,
        places,
        #[trigger] elem(c.after, places[k], t),
    ) by {
        lemma_place_is_tuple(c, places[k]);
        let j = choose|j: int| 0 <= j < m && c.live(j) && c.place(j) == places[k];
        lemma_tuple_after(c, j);
        lemma_elements_kept(c, j, t);
        lemma_moved_points(c, elem(c.before, c.objs[j], t));
    }
    assert forall|r: int| 0 <= r < c.roots_after.len() implies points_at_tuple(
        c.start,
        places,
        #[trigger] c.roots_after[r],
    ) by {
        lemma_roots_len(c);
        lemma_root_kept(c, r);
        lemma_moved_points(c, c.roots_before[r]);
    }
}

/// A collection leaves the stack as long as it was.
proof fn lemma_roots_len(c: Collection)
    requires
        c.done(),
    ensures
        c.roots_after.len() == c.roots_before.len(),
{
    reveal(Collection::was_rewritten);
}

/// A place among the kept places is the new place of a kept tuple, which
/// lies there.
proof fn lemma_place_is_tuple(c: Collection, i: int)
    requires
        c.done(),
        kept_places(c.marked, c.objs, c.objs.len() as int).contains(i),
    ensures
        exists|j: int| 0 <= j < c.objs.len() && c.live(j) && c.place(j) == i,
        c.after[i] == 0,
{
    lemma_settled(c, c.objs.len() as int);
    reveal(settled);
    let j = choose|j: int| 0 <= j < c.objs.len() && c.live(j) && c.place(j) == i;
    lemma_tuple_after(c, j);
}

/// The words of the tuples among the first `k` that are reachable from the
/// stack, counted.
pub open spec fn live_words(h: HeapView, roots: Seq<i64>, objs: Seq<int>, k: int) -> int
    decreases k,
{
    if k <= 0 || k > objs.len() {
        0
    } else {
        live_words(h, roots, objs, k - 1) + if reachable(h, roots, objs[k - 1]) {
            footprint(h.words, objs[k - 1])
        } else {
            0
        }
    }
}

/// The word that stands for `v` after the collection: a reference to a
/// tuple becomes the reference to the place where the reachable tuples
/// before that tuple end, and any other word stays.
pub open spec fn relocated(h: HeapView, roots: Seq<i64>, objs: Seq<int>, v: i64) -> int {
    if is_reference(v) {
        address_of(h.start, live_words(h, roots, objs, objs.index_of(cell_of(h.start, v)))) + 1
    } else {
        v as int
    }
}

/// Whether tuple `k` of the heap `h` lies in the heap `new` where the
/// reachable tuples before it end, with 0 as its collector's word, its size,
/// and its elements relocated.
pub open spec fn tuple_slid(
    h: HeapView,
    roots: Seq<i64>,
    objs: Seq<int>,
    new: HeapView,
    k: int,
) -> bool {
    let to = live_words(h, roots, objs, k);
    &&& new.words[to] == 0
    &&& new.words[to + 1] == h.words[objs[k] + 1]
    &&& forall|t: int|
        0 <= t < size_at(h.words, objs[k]) ==> #[trigger] elem(new.words, to, t) == relocated(
            h,
            roots,
            objs,
            elem(h.words, objs[k], t),
        )
}

/// Whether the heap `new` and the stack `new_roots` hold what the heap `h`
/// and the stack `roots` held, compacted: the reachable tuples lie one after
/// the other in their old order from the first word of the heap on, and the
/// references to them are relocated, in the tuples and on the stack.
pub open spec fn compacted(
    h: HeapView,
    next: int,
    roots: Seq<i64>,
    new: HeapView,
    new_next: int,
    new_roots: Seq<i64>,
) -> bool {
    exists|objs: Seq<int>| #[trigger]
        laid_out(h, next, roots, objs) && new_next == live_words(
            h,
            roots,
            objs,
            objs.len() as int,
        ) && (forall|r: int|
            0 <= r < roots.len() ==> #[trigger] new_roots[r] == relocated(h, roots, objs, roots[r]))
            && (forall|k: int|
            0 <= k < objs.len() && reachable(h, roots, #[trigger] objs[k]) ==> tuple_slid(
                h,
                roots,
                objs,
                new,
                k,
            ))
}

/// A tuple that is reached from the stack is marked.
proof fn lemma_reached_is_marked(c: Collection, cell: int, n: nat)
    requires
        c.began(),
        c.was_marked(),
        reached(c.old_heap(), c.roots_before, cell, n),
    ensures
        c.objs.contains(cell),
        0 <= cell < c.marked.len(),
        c.marked[cell] != 0,
    decreases n,
{
    reveal(Collection::began);
    reveal(Collection::was_marked);
    let h = c.old_heap();
    if exists|r: int|
        0 <= r < c.roots_before.len() && is_reference(#[trigger] c.roots_before[r]) && cell_of(
            h.start,
            c.roots_before[r],
        ) == cell {
        let r = choose|r: int|
            0 <= r < c.roots_before.len() && is_reference(#[trigger] c.roots_before[r]) && cell_of(
                h.start,
                c.roots_before[r],
            ) == cell;
        assert(points_at_tuple(c.start, c.objs, c.roots_before[r]));
        assert(target_marked(c.marked, c.start, c.roots_before[r]));
    } else {
        let (c2, t) = choose|c2: int, t: int|
            reached(h, c.roots_before, c2, (n - 1) as nat) && 0 <= t < size_at(h.words, c2)
                && is_reference(#[trigger] elem(h.words, c2, t)) && cell_of(
                h.start,
                elem(h.words, c2, t),
            ) == cell;
        lemma_reached_is_marked(c, c2, (n - 1) as nat);
        let k = c.objs.index_of(c2);
        assert(0 <= k < c.objs.len() && c.objs[k] == c2);
        lemma_same_layout(c.before, c.marked, c.next, c.objs);
        assert(points_at_tuple(c.start, c.objs, elem(c.before, c.objs[k], t)));
        assert(elements_marked(c.marked, c.start, c.objs[k], size_at(c.marked, c.objs[k])));
        assert(size_at(c.marked, c.objs[k]) == size_at(c.before, c.objs[k]));
        assert(elem(c.marked, c.objs[k], t) == elem(c.before, c.objs[k], t));
        assert(target_marked(c.marked, c.start, elem(c.marked, c.objs[k], t)));
    }
}

/// The tuples that are kept are those that the stack reaches.
proof fn lemma_live_is_reachable(c: Collection, k: int)
    requires
        c.began(),
        c.was_marked(),
        0 <= k < c.objs.len(),
    ensures
        c.live(k) == reachable(c.old_heap(), c.roots_before, c.objs[k]),
{
    if reachable(c.old_heap(), c.roots_before, c.objs[k]) {
        let n = choose|n: nat| reached(c.old_heap(), c.roots_before, c.objs[k], n);
        lemma_reached_is_marked(c, c.objs[k], n);
    }
    if c.live(k) {
        reveal(Collection::was_marked);
    }
}

/// The new allocation pointer counts the words of the reachable tuples.
proof fn lemma_total_is_live(c: Collection, k: int)
    requires
        c.began(),
        c.was_marked(),
        0 <= k <= c.objs.len(),
    ensures
        c.place(k) == live_words(c.old_heap(), c.roots_before, c.objs, k),
    decreases k,
{
    if k > 0 {
        lemma_total_is_live(c, k - 1);
        lemma_live_is_reachable(c, k - 1);
        lemma_tuple_marked(c, k - 1);
    }
}

/// A kept word is replaced by its relocation.
proof fn lemma_moved_is_relocated(c: Collection, v: i64)
    requires
        c.done(),
        kept(c, v),
    ensures
        moved(c.forwarded, c.start, v) == relocated(c.old_heap(), c.roots_before, c.objs, v),
{
    lemma_moved_word(c, v);
    if is_reference(v) {
        let k = c.objs.index_of(cell_of(c.start, v));
        lemma_total_is_live(c, k);
    }
}

/// A reachable tuple has slid to its place.
proof fn lemma_tuple_slid(c: Collection, k: int)
    requires
        c.done(),
        0 <= k < c.objs.len(),
        reachable(c.old_heap(), c.roots_before, c.objs[k]),
    ensures
        tuple_slid(c.old_heap(), c.roots_before, c.objs, c.new_heap(), k),
{
    lemma_live_is_reachable(c, k);
    lemma_total_is_live(c, k);
    lemma_tuple_after(c, k);
    assert forall|t: int| 0 <= t < size_at(c.before, c.objs[k]) implies #[trigger] elem(
        c.after,
        c.place(k),
        t,
    ) == relocated(c.old_heap(), c.roots_before, c.objs, elem(c.before, c.objs[k], t)) by {
        lemma_elements_kept(c, k, t);
        lemma_moved_is_relocated(c, elem(c.before, c.objs[k], t));
    }
}

/// After the four phases the heap and the stack are compacted.
proof fn lemma_compacted(c: Collection)
    requires
        c.done(),
        laid_out(c.old_heap(), c.next, c.roots_before, c.objs),
    ensures
        compacted(c.old_heap(), c.next, c.roots_before, c.new_heap(), c.total(), c.roots_after),
{
    lemma_total_is_live(c, c.objs.len() as int);
    assert forall|r: int| 0 <= r < c.roots_before.len() implies #[trigger] c.roots_after[r]
        == relocated(c.old_heap(), c.roots_before, c.objs, c.roots_before[r]) by {
        lemma_root_kept(c, r);
        lemma_moved_is_relocated(c, c.roots_before[r]);
    }
    assert forall|k: int|
        0 <= k < c.objs.len() && reachable(
            c.old_heap(),
            c.roots_before,
            #[trigger] c.objs[k],
        ) implies tuple_slid(c.old_heap(), c.roots_before, c.objs, c.new_heap(), k) by {
        lemma_tuple_slid(c, k);
    }
}

/// What a collection establishes: the heap keeps its place and its length,
/// the stack its length; the heap and the stack are compacted, so that the
/// tuples that the stack reaches fill the heap up to the new allocation
/// pointer, which does not grow; the heap is well formed again; and every
/// word of the stack is structurally equal to what it was.
pub open spec fn collected(
    old_heap: HeapView,
    next: int,
    old_roots: Seq<i64>,
    new_heap: HeapView,
    new_next: int,
    new_roots: Seq<i64>,
) -> bool {
    &&& new_heap.start == old_heap.start
    &&& new_heap.words.len() == old_heap.words.len()
    &&& new_roots.len() == old_roots.len()
    &&& 0 <= new_next <= next
    &&& compacted(old_heap, next, old_roots, new_heap, new_next, new_roots)
    &&& well_formed(new_heap, new_next, new_roots)
    &&& forall|r: int|
        0 <= r < old_roots.len() ==> structurally_equal(
            old_heap,
            #[trigger] old_roots[r],
            new_heap,
            new_roots[r],
        )
}

/// A collection: marks what the stack refers to, computes the new places,
/// replaces the references and slides the tuples; returns the new allocation
/// pointer as the number of words in use.
///
/// The heap is well formed again afterwards, and every word of the stack is
/// structurally equal to what it was.
pub fn gc(heap: &mut Heap, next: usize, roots: &mut Vec<i64>) -> (new_next: usize)
    requires
        well_formed(old(heap)@, next as int, old(roots)@),
    ensures
        collected(
            old(heap)@,
            next as int,
            old(roots)@,
            final(heap)@,
            new_next as int,
            final(roots)@,
        ),
{
    let ghost objs = choose|objs: Seq<int>| laid_out(heap@, next as int, roots@, objs);
    let ghost before = heap@;
    let ghost roots_before = roots@;
    mark(heap, roots, Ghost(next as int), Ghost(objs));
    let ghost marked = heap@.words;
    proof {
        lemma_same_layout(before.words, marked, next as int, objs);
    }
    let total = forward(heap, next, Ghost(objs));
    let ghost forwarded = heap@.words;
    proof {
        lemma_ready_to_rewrite(before, marked, forwarded, next as int, objs, roots_before);
    }
    rewrite_heap(heap, next, Ghost(objs));
    let ghost rewritten = heap@.words;
    rewrite_roots(heap, roots, Ghost(next as int), Ghost(objs), Ghost(forwarded));
    proof {
        lemma_ready_to_compact(forwarded, rewritten, before.start, next as int, objs);
    }
    let new_next = compact(heap, next, Ghost(objs));
    proof {
        let c = Collection {
            start: before.start,
            next: next as int,
            objs,
            before: before.words,
            marked,
            forwarded,
            rewritten,
            after: heap@.words,
            roots_before,
            roots_after: roots@,
        };
        assert(c.old_heap() == before);
        assert(c.new_heap() == heap@);
        assert(c.began()) by {
            reveal(Collection::began);
        }
        assert(c.was_marked()) by {
            reveal(Collection::was_marked);
        }
        assert(c.was_forwarded()) by {
            reveal(Collection::was_forwarded);
        }
        assert(c.was_rewritten()) by {
            reveal(Collection::was_rewritten);
        }
        assert(c.was_compacted()) by {
            reveal(Collection::was_compacted);
        }
        lemma_places_agree(c, objs.len() as int);
        assert(laid_out(before, next as int, roots_before, objs));
        lemma_compacted(c);
        lemma_laid_out_again(c);
        lemma_total_fits(c);
        lemma_roots_len(c);
        assert forall|r: int| 0 <= r < roots_before.len() implies structurally_equal(
            before,
            #[trigger] roots_before[r],
            heap@,
            roots@[r],
        ) by {
            lemma_roots_equal(c, r);
        }
    }
    new_next
}

/// After the second phase the heap can be rewritten: it holds the tuples
/// that it held, each collector's word is 0 or an address, and every
/// reference points at the first word of a tuple.
proof fn lemma_ready_to_rewrite(
    before: HeapView,
    marked: Seq<i64>,
    forwarded_words: Seq<i64>,
    next: int,
    objs: Seq<int>,
    roots: Seq<i64>,
)
    requires
        laid_out(before, next, roots, objs),
        marks_only(marked, before.words, objs),
        forwarded(marked, forwarded_words, before.start, objs, objs.len() as int),
    ensures
        addressable(HeapView { start: before.start, words: forwarded_words }),
        tiled(forwarded_words, next, objs),
        elements_point_at_tuples(forwarded_words, before.start, objs),
        addresses_fit(forwarded_words, objs),
        roots_point_at_tuples(roots, before.start, objs),
{
    lemma_same_layout(before.words, marked, next, objs);
    lemma_same_layout(marked, forwarded_words, next, objs);
    assert forall|k: int, t: int|
        0 <= k < objs.len() && 0 <= t < size_at(forwarded_words, objs[k]) implies points_at_tuple(
        before.start,
        objs,
        #[trigger] elem(forwarded_words, objs[k], t),
    ) by {
        assert(size_at(forwarded_words, objs[k]) == size_at(marked, objs[k]));
        assert(size_at(marked, objs[k]) == size_at(before.words, objs[k]));
        assert(elem(forwarded_words, objs[k], t) == elem(marked, objs[k], t));
        assert(elem(marked, objs[k], t) == elem(before.words, objs[k], t));
        assert(points_at_tuple(before.start, objs, elem(before.words, objs[k], t)));
    }
    assert forall|j: int| 0 <= j < objs.len() implies 0 <= forwarded_words[#[trigger] objs[j]]
        < i64::MAX by {
        lemma_place_bound(marked, next, objs, j);
        assert(tuple_fits(marked, objs[j], next));
    }
}

/// After the third phase the heap holds the tuples that it held.
proof fn lemma_ready_to_compact(
    forwarded_words: Seq<i64>,
    rewritten_words: Seq<i64>,
    start: i64,
    next: int,
    objs: Seq<int>,
)
    requires
        tiled(forwarded_words, next, objs),
        rewritten(forwarded_words, rewritten_words, start, objs, objs.len() as int, 0),
    ensures
        tiled(rewritten_words, next, objs),
{
    assert forall|k: int| 0 <= k < objs.len() implies tuple_fits(
        rewritten_words,
        #[trigger] objs[k],
        next,
    ) by {
        assert(tuple_fits(forwarded_words, objs[k], next));
    }
    assert forall|k: int| 0 <= k < objs.len() - 1 implies end_of(
        rewritten_words,
        #[trigger] objs[k],
    ) == objs[k + 1] by {
        assert(end_of(forwarded_words, objs[k]) == objs[k + 1]);
    }
    if objs.len() > 0 {
        let last = objs.len() - 1;
        assert(rewritten_words[objs[last] + 1] == forwarded_words[objs[last] + 1]);
    }
}

/// What the compiled code asks for when the heap is full: a collection
/// with the values on the stack as its roots, and the new allocation pointer
/// if `count` words are free after it. `None` means that the program is out
/// of memory.
///
/// The words of the stack that are no values, the saved frame pointers and
/// the return addresses, are left as they are.
pub fn snek_try_gc(count: usize, heap: &mut Heap, next: usize, stack: &mut Stack) -> (r: Option<
    usize,
>)
    requires
        well_formed(old(heap)@, next as int, roots_of(old(stack)@)),
    ensures
        final(stack).low == old(stack).low,
        final(stack).frame == old(stack).frame,
        final(stack)@.words.len() == old(stack)@.words.len(),
        forall|i: int|
            0 <= i < old(stack)@.words.len() && !places_of(old(stack)@).contains(i)
                ==> #[trigger] final(stack)@.words[i] == old(stack)@.words[i],
        exists|new_next: int|
            collected(
                old(heap)@,
                next as int,
                roots_of(old(stack)@),
                final(heap)@,
                new_next,
                roots_of(final(stack)@),
            ) && #[trigger] enough(new_next, count as int, final(heap)@.words.len() as int) == r,
{
    let mut roots = stack.roots();
    let new_next = gc(heap, next, &mut roots);
    stack.set_roots(&roots);
    proof {
        lemma_next_fits(heap@, new_next as int, roots@);
    }
    let r = if count <= heap.words.len() - new_next {
        Some(new_next)
    } else {
        None
    };
    assert(enough(new_next as int, count as int, heap@.words.len() as int) == r);
    r
}

/// The allocation pointer `next` where `count` words are free after it in a
/// heap of `len` words, else `None`.
pub open spec fn enough(next: int, count: int, len: int) -> Option<usize> {
    if next + count <= len {
        Some(next as usize)
    } else {
        None
    }
}

/// The allocation pointer of a well-formed heap lies within the heap.
pub proof fn lemma_next_fits(h: HeapView, next: int, roots: Seq<i64>)
    requires
        well_formed(h, next, roots),
    ensures
        0 <= next <= h.words.len(),
{
    let objs = choose|objs: Seq<int>| laid_out(h, next, roots, objs);
    assert(tiled(h.words, next, objs));
}

} // verus!
