//! What a collection cannot be seen to do: the text of every value on the
//! stack is the same after a collection as before it, cycles included.

use vstd::prelude::*;
use crate::collector::{collected, live_words, relocated, tuple_slid};
use crate::forwarding::{footprint, spot};
use crate::heap::{element, lemma_room_shrinks, room, tuple_at, HeapView, Place};
use crate::layout::{
    address_of, cell_of, elem, end_of, laid_out, lemma_in_order, points_at_tuple, size_at, tiled,
    tuple_fits,
};
use crate::marking::{reachable, reached};
use crate::printer::{print_elements, print_value};
use crate::value::is_reference;

verus! {

/// A collection as it is seen from outside: the heap and the stack before
/// it, the tuples of that heap, and the heap after it.
pub struct Slide {
    pub old: HeapView,
    pub next: int,
    pub roots: Seq<i64>,
    pub objs: Seq<int>,
    pub new: HeapView,
}

impl Slide {
    /// The index at which tuple `k` lies after the collection.
    pub open spec fn place(self, k: int) -> int {
        live_words(self.old, self.roots, self.objs, k)
    }

    /// Whether tuple `k` is reachable from the stack.
    pub open spec fn live(self, k: int) -> bool {
        reachable(self.old, self.roots, self.objs[k])
    }

    /// The word that stands for `v` after the collection.
    pub open spec fn moved(self, v: i64) -> int {
        relocated(self.old, self.roots, self.objs, v)
    }

    /// Whether the heap after the collection holds every reachable tuple of
    /// the heap before it at its place.
    #[verifier::opaque]
    pub open spec fn done(self) -> bool {
        &&& laid_out(self.old, self.next, self.roots, self.objs)
        &&& self.new.start == self.old.start
        &&& self.new.words.len() == self.old.words.len()
        &&& forall|k: int|
            0 <= k < self.objs.len() && reachable(self.old, self.roots, #[trigger] self.objs[k])
                ==> tuple_slid(self.old, self.roots, self.objs, self.new, k)
    }

    /// Whether `v` is a word that the collection keeps: a number, a boolean,
    /// `nil`, or a reference to a reachable tuple.
    pub open spec fn keeps(self, v: i64) -> bool {
        points_at_tuple(self.old.start, self.objs, v) && (is_reference(v) ==> reachable(
            self.old,
            self.roots,
            cell_of(self.old.start, v),
        ))
    }

    /// Whether `after` holds the new places of the reachable tuples that
    /// `before` holds, and of no other reachable tuple.
    pub open spec fn same_tuples(self, before: Set<int>, after: Set<int>) -> bool {
        forall|k: int|
            0 <= k < self.objs.len() && reachable(self.old, self.roots, #[trigger] self.objs[k])
                ==> (before.contains(self.objs[k]) <==> after.contains(self.place(k)))
    }
}

/// No tuple moves towards the end of the heap, and a reachable tuple ends,
/// at its new place, where the next reachable one begins or before.
proof fn lemma_places(m: Slide, j: int, k: int)
    requires
        tiled(m.old.words, m.next, m.objs),
        0 <= j <= k <= m.objs.len(),
    ensures
        0 <= m.place(j) <= spot(m.objs, m.next, j),
        j < k ==> m.place(j) + (if m.live(j) {
            footprint(m.old.words, m.objs[j])
        } else {
            0
        }) <= m.place(k),
        m.place(j) <= m.place(k) <= spot(m.objs, m.next, k),
    decreases k,
{
    if k > 0 {
        assert(tuple_fits(m.old.words, m.objs[k - 1], m.next));
        if k < m.objs.len() {
            assert(end_of(m.old.words, m.objs[k - 1]) == m.objs[k]);
        }
        if j < k {
            lemma_places(m, j, k - 1);
        } else {
            lemma_places(m, k - 1, k - 1);
        }
    }
}

/// What a kept reference refers to, before the collection and after it:
/// the same tuple, at its old place and at its new one.
proof fn lemma_kept_tuple(m: Slide, v: i64)
    requires
        m.done(),
        m.keeps(v),
        is_reference(v),
    ensures
        ({
            let k = m.objs.index_of(cell_of(m.old.start, v));
            let size = size_at(m.old.words, m.objs[k]);
            &&& 0 <= k < m.objs.len()
            &&& m.objs[k] == cell_of(m.old.start, v)
            &&& 0 <= m.objs[k] < m.old.words.len()
            &&& m.live(k)
            &&& i64::MIN <= m.moved(v) <= i64::MAX
            &&& tuple_at(m.old, v) == Some(Place { at: m.objs[k], size })
            &&& tuple_at(m.new, m.moved(v) as i64) == Some(Place { at: m.place(k), size })
            &&& forall|t: int|
                0 <= t < size ==> m.keeps(#[trigger] elem(m.old.words, m.objs[k], t)) && elem(
                    m.new.words,
                    m.place(k),
                    t,
                ) == m.moved(elem(m.old.words, m.objs[k], t))
        }),
{
    reveal(Slide::done);
    let cell = cell_of(m.old.start, v);
    assert(m.objs.contains(cell));
    let k = m.objs.index_of(cell);
    assert(0 <= k < m.objs.len() && m.objs[k] == cell);
    let size = size_at(m.old.words, m.objs[k]);
    assert(tuple_fits(m.old.words, m.objs[k], m.next));
    lemma_places(m, k, m.objs.len() as int);
    assert(tuple_slid(m.old, m.roots, m.objs, m.new, k));
    let to = m.place(k);
    let w = address_of(m.old.start, to) + 1;
    assert(m.moved(v) == w);
    assert(w % 2 != 0);
    assert((w - 1 - m.old.start) / 8 == to);
    assert(size_at(m.new.words, to) == size);
    let n = choose|n: nat| reached(m.old, m.roots, cell, n);
    assert forall|t: int| 0 <= t < size implies m.keeps(#[trigger] elem(m.old.words, m.objs[k], t))
        && elem(m.new.words, m.place(k), t) == m.moved(elem(m.old.words, m.objs[k], t)) by {
        let e = elem(m.old.words, m.objs[k], t);
        assert(points_at_tuple(m.old.start, m.objs, e));
        if is_reference(e) {
            assert(reached(m.old, m.roots, cell, ((n + 1) - 1) as nat));
            assert(reached(m.old, m.roots, cell_of(m.old.start, e), n + 1));
        }
    }
}

/// A tuple that is entered at its old place is entered at its new one.
proof fn lemma_same_tuples_entered(m: Slide, before: Set<int>, after: Set<int>, k: int)
    requires
        m.done(),
        m.same_tuples(before, after),
        0 <= k < m.objs.len(),
        m.live(k),
    ensures
        m.same_tuples(before.insert(m.objs[k]), after.insert(m.place(k))),
{
    reveal(Slide::done);
    assert forall|j: int|
        0 <= j < m.objs.len() && reachable(m.old, m.roots, #[trigger] m.objs[j]) implies (
    before.insert(m.objs[k]).contains(m.objs[j]) <==> after.insert(m.place(k)).contains(
        m.place(j),
    )) by {
        assert(tuple_fits(m.old.words, m.objs[j], m.next));
        assert(tuple_fits(m.old.words, m.objs[k], m.next));
        if j < k {
            lemma_in_order(m.old.words, m.next, m.objs, j, k);
            lemma_places(m, j, k);
        } else if k < j {
            lemma_in_order(m.old.words, m.next, m.objs, k, j);
            lemma_places(m, k, j);
        }
    }
}

/// The text of a kept word is the text of what replaces it.
proof fn lemma_same_text(m: Slide, v: i64, before: Set<int>, after: Set<int>)
    requires
        m.done(),
        m.keeps(v),
        m.same_tuples(before, after),
    ensures
        i64::MIN <= m.moved(v) <= i64::MAX,
        print_value(m.old, v, before) == print_value(m.new, m.moved(v) as i64, after),
    decreases room(m.old.words.len(), before), 0nat, 0nat,
{
    if is_reference(v) {
        lemma_kept_tuple(m, v);
        let k = m.objs.index_of(cell_of(m.old.start, v));
        let size = size_at(m.old.words, m.objs[k]);
        let p = Place { at: m.objs[k], size };
        let q = Place { at: m.place(k), size };
        let w = m.moved(v) as i64;
        assert(is_reference(w));
        if !before.contains(p.at) {
            lemma_room_shrinks(m.old.words.len(), before, p.at);
            lemma_same_tuples_entered(m, before, after, k);
            lemma_same_elements(m, k, size, before.insert(p.at), after.insert(q.at));
        }
    }
}

/// The text of the first `n` elements of a kept tuple is the text of the
/// elements at its new place.
proof fn lemma_same_elements(m: Slide, k: int, n: int, before: Set<int>, after: Set<int>)
    requires
        m.done(),
        0 <= k < m.objs.len(),
        m.live(k),
        n <= size_at(m.old.words, m.objs[k]),
        m.same_tuples(before, after),
        forall|t: int|
            0 <= t < size_at(m.old.words, m.objs[k]) ==> m.keeps(
                #[trigger] elem(m.old.words, m.objs[k], t),
            ) && elem(m.new.words, m.place(k), t) == m.moved(elem(m.old.words, m.objs[k], t)),
    ensures
        print_elements(
            m.old,
            Place { at: m.objs[k], size: size_at(m.old.words, m.objs[k]) },
            n,
            before,
        ) == print_elements(
            m.new,
            Place { at: m.place(k), size: size_at(m.old.words, m.objs[k]) },
            n,
            after,
        ),
    decreases room(m.old.words.len(), before), 1nat, n,
{
    if n > 0 {
        let p = Place { at: m.objs[k], size: size_at(m.old.words, m.objs[k]) };
        let q = Place { at: m.place(k), size: size_at(m.old.words, m.objs[k]) };
        lemma_same_elements(m, k, n - 1, before, after);
        let e = elem(m.old.words, m.objs[k], n - 1);
        assert(element(m.old, p, n - 1) == e);
        assert(element(m.new, q, n - 1) == elem(m.new.words, m.place(k), n - 1));
        lemma_same_text(m, e, before, after);
    }
}

/// A collection does not change the text of a value.
///
/// After a collection the printer writes, of every word of the stack, the
/// text that it wrote of that word before the collection, whatever cycles
/// the word leads into.
pub proof fn lemma_collection_keeps_text(
    old: HeapView,
    next: int,
    roots: Seq<i64>,
    new: HeapView,
    new_next: int,
    new_roots: Seq<i64>,
    r: int,
)
    requires
        collected(old, next, roots, new, new_next, new_roots),
        0 <= r < roots.len(),
    ensures
        print_value(old, roots[r], Set::empty()) == print_value(new, new_roots[r], Set::empty()),
{
    let objs = choose|objs: Seq<int>| #[trigger]
        laid_out(old, next, roots, objs) && new_next == live_words(
            old,
            roots,
            objs,
            objs.len() as int,
        ) && (forall|r: int|
            0 <= r < roots.len() ==> #[trigger] new_roots[r] == relocated(old, roots, objs, roots[r]))
            && (forall|k: int|
            0 <= k < objs.len() && reachable(old, roots, #[trigger] objs[k]) ==> tuple_slid(
                old,
                roots,
                objs,
                new,
                k,
            ));
    let m = Slide { old, next, roots, objs, new };
    assert(m.done()) by {
        reveal(Slide::done);
    }
    let v = roots[r];
    assert(m.keeps(v)) by {
        assert(points_at_tuple(old.start, objs, roots[r]));
        if is_reference(v) {
            assert(reached(old, roots, cell_of(old.start, v), 0));
        }
    }
    lemma_same_text(m, v, Set::empty(), Set::empty());
}

} // verus!
