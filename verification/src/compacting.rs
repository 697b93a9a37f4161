//! The fourth phase of a collection: every marked tuple slides to its new
//! place, first to last, and its collector's word is set to 0 again.

use vstd::prelude::*;
use crate::forwarding::{footprint, lemma_place_bound, new_place, spot};
use crate::heap::{Heap, HeapView};
use crate::layout::{end_of, size_at, tiled, tuple_fits};

verus! {

/// Whether the tuple that lay at `from` in `was` lies at `to` in `words`,
/// with 0 as its collector's word.
pub open spec fn placed(was: Seq<i64>, words: Seq<i64>, from: int, to: int) -> bool {
    &&& words[to] == 0
    &&& forall|w: int| 1 <= w < footprint(was, from) ==> #[trigger] words[to + w] == was[from + w]
}

/// A marked tuple ends, at its new place, where the next marked tuple
/// begins or before.
pub proof fn lemma_places_grow(marked: Seq<i64>, next: int, objs: Seq<int>, j: int, k: int)
    requires
        tiled(marked, next, objs),
        0 <= j < k <= objs.len(),
    ensures
        new_place(marked, objs, j) + (if marked[objs[j]] != 0 {
            footprint(marked, objs[j])
        } else {
            0
        }) <= new_place(marked, objs, k),
    decreases k - j,
{
    assert(tuple_fits(marked, objs[k - 1], next));
    if j + 1 < k {
        lemma_places_grow(marked, next, objs, j, k - 1);
    }
}

/// What holds while the tuples slide: `k` tuples have been visited, the
/// next one lies at `src`, and `dest` is where it slides to if it is marked.
/// The visited marked tuples lie at their new places; the others are as they
/// were.
#[verifier::opaque]
pub open spec fn compacting(
    h: HeapView,
    next: int,
    objs: Seq<int>,
    words: Seq<i64>,
    k: int,
    src: int,
    dest: int,
) -> bool {
    &&& tiled(h.words, next, objs)
    &&& 0 <= k <= objs.len()
    &&& src == spot(objs, next, k)
    &&& dest == new_place(h.words, objs, k)
    &&& words.len() == h.words.len()
    &&& forall|i: int| src <= i < words.len() ==> #[trigger] words[i] == h.words[i]
    &&& forall|j: int|
        0 <= j < k && h.words[#[trigger] objs[j]] != 0 ==> placed(
            h.words,
            words,
            objs[j],
            new_place(h.words, objs, j),
        )
}

/// The phase starts at the first word of the heap.
pub proof fn lemma_compacting_starts(h: HeapView, next: int, objs: Seq<int>)
    requires
        tiled(h.words, next, objs),
    ensures
        compacting(h, next, objs, h.words, 0, 0, 0),
{
    reveal(compacting);
}

/// The tuple that is visited lies within the heap, at or after the place
/// that it slides to.
pub proof fn lemma_compacting_at(
    h: HeapView,
    next: int,
    objs: Seq<int>,
    words: Seq<i64>,
    k: int,
    src: int,
    dest: int,
)
    requires
        compacting(h, next, objs, words, k, src, dest),
    ensures
        words.len() == h.words.len(),
        0 <= dest <= src <= next <= words.len(),
        src == next <==> k == objs.len(),
        src < next ==> {
            &&& src + 1 < next
            &&& words[src + 1] >= 0
            &&& words[src + 1] == h.words[src + 1]
            &&& words[src] == h.words[src]
            &&& src + footprint(h.words, src) <= next
        },
{
    reveal(compacting);
    lemma_place_bound(h.words, next, objs, k);
    if k < objs.len() {
        assert(tuple_fits(h.words, objs[k], next));
    }
}

/// After a tuple without a mark the next tuple is visited.
pub proof fn lemma_compacting_skip(
    h: HeapView,
    next: int,
    objs: Seq<int>,
    words: Seq<i64>,
    k: int,
    src: int,
    dest: int,
)
    requires
        compacting(h, next, objs, words, k, src, dest),
        src < next,
        h.words[src] == 0,
    ensures
        compacting(h, next, objs, words, k + 1, src + footprint(h.words, src), dest),
{
    lemma_compacting_at(h, next, objs, words, k, src, dest);
    reveal(compacting);
    assert(tuple_fits(h.words, objs[k], next));
    if k + 1 < objs.len() {
        assert(end_of(h.words, objs[k]) == objs[k + 1]);
    }
}

/// After a marked tuple has slid to its place the next tuple is visited.
pub proof fn lemma_compacting_step(
    h: HeapView,
    next: int,
    objs: Seq<int>,
    words: Seq<i64>,
    now: Seq<i64>,
    k: int,
    src: int,
    dest: int,
)
    requires
        compacting(h, next, objs, words, k, src, dest),
        src < next,
        h.words[src] != 0,
        now.len() == words.len(),
        now[dest] == 0,
        forall|w: int| 1 <= w < footprint(h.words, src) ==> #[trigger] now[dest + w] == words[src + w],
        forall|i: int|
            0 <= i < words.len() && !(dest <= i < dest + footprint(h.words, src))
                ==> #[trigger] now[i] == words[i],
    ensures
        compacting(
            h,
            next,
            objs,
            now,
            k + 1,
            src + footprint(h.words, src),
            dest + footprint(h.words, src),
        ),
{
    lemma_compacting_at(h, next, objs, words, k, src, dest);
    reveal(compacting);
    assert(tuple_fits(h.words, objs[k], next));
    if k + 1 < objs.len() {
        assert(end_of(h.words, objs[k]) == objs[k + 1]);
    }
    let fp = footprint(h.words, src);
    assert forall|j: int| 0 <= j < k + 1 && h.words[#[trigger] objs[j]] != 0 implies placed(
        h.words,
        now,
        objs[j],
        new_place(h.words, objs, j),
    ) by {
        if j < k {
            lemma_places_grow(h.words, next, objs, j, k);
            lemma_place_bound(h.words, next, objs, j);
            let to = new_place(h.words, objs, j);
            assert(placed(h.words, words, objs[j], to));
            assert(tuple_fits(h.words, objs[j], next));
            assert forall|w: int| 1 <= w < footprint(h.words, objs[j]) implies #[trigger] now[to
                + w] == h.words[objs[j] + w] by {
                assert(words[to + w] == h.words[objs[j] + w]);
            }
        } else {
            assert forall|w: int| 1 <= w < fp implies #[trigger] now[dest + w] == h.words[src
                + w] by {
                assert(now[dest + w] == words[src + w]);
            }
        }
    }
}

/// When every tuple has been visited, every marked tuple lies at its new
/// place.
pub proof fn lemma_compacting_ends(
    h: HeapView,
    next: int,
    objs: Seq<int>,
    words: Seq<i64>,
    k: int,
    dest: int,
)
    requires
        compacting(h, next, objs, words, k, next, dest),
    ensures
        words.len() == h.words.len(),
        dest == new_place(h.words, objs, objs.len() as int),
        forall|j: int|
            0 <= j < objs.len() && h.words[#[trigger] objs[j]] != 0 ==> placed(
                h.words,
                words,
                objs[j],
                new_place(h.words, objs, j),
            ),
{
    lemma_compacting_at(h, next, objs, words, k, next, dest);
    reveal(compacting);
}

/// Copies the `count` words from `src` on to the words from `dest` on, first
/// to last, where `dest` is not after `src`.
pub fn slide(heap: &mut Heap, src: usize, dest: usize, count: usize)
    requires
        dest <= src,
        src + count <= old(heap).words.len(),
    ensures
        final(heap).start == old(heap).start,
        final(heap)@.words.len() == old(heap)@.words.len(),
        forall|w: int|
            0 <= w < count ==> #[trigger] final(heap)@.words[dest + w] == old(heap)@.words[src + w],
        forall|i: int|
            0 <= i < old(heap)@.words.len() && !(dest <= i < dest + count) ==> old(heap)@.words[i]
                == #[trigger] final(heap)@.words[i],
{
    let ghost was = heap@.words;
    let mut w: usize = 0;
    while w < count
        invariant
            w <= count,
            dest <= src,
            src + count <= heap.words.len(),
            heap.start == old(heap).start,
            heap@.words.len() == was.len(),
            forall|c: int| 0 <= c < w ==> #[trigger] heap@.words[dest + c] == was[src + c],
            forall|i: int|
                0 <= i < was.len() && !(dest <= i < dest + w) ==> #[trigger] heap@.words[i]
                    == was[i],
        decreases count - w,
    {
        let word = heap.words[src + w];
        heap.words[dest + w] = word;
        w += 1;
    }
}

/// The fourth phase: slides every marked tuple to its new place and sets
/// its collector's word to 0; returns the index of the first word after the
/// last of them, which is the new allocation pointer.
pub fn compact(heap: &mut Heap, next: usize, Ghost(objs): Ghost<Seq<int>>) -> (total: usize)
    requires
        tiled(old(heap)@.words, next as int, objs),
    ensures
        final(heap).start == old(heap).start,
        final(heap)@.words.len() == old(heap)@.words.len(),
        total == new_place(old(heap)@.words, objs, objs.len() as int),
        total <= next,
        forall|j: int|
            0 <= j < objs.len() && old(heap)@.words[#[trigger] objs[j]] != 0 ==> placed(
                old(heap)@.words,
                final(heap)@.words,
                objs[j],
                new_place(old(heap)@.words, objs, j),
            ),
{
    let ghost h = heap@;
    let ghost mut k: int = 0;
    let mut src: usize = 0;
    let mut dest: usize = 0;
    proof {
        lemma_compacting_starts(h, next as int, objs);
    }
    while src < next
        invariant
            heap.start == h.start,
            compacting(h, next as int, objs, heap@.words, k, src as int, dest as int),
        decreases next - src,
    {
        proof {
            lemma_compacting_at(h, next as int, objs, heap@.words, k, src as int, dest as int);
            assert(heap@.words.len() == heap.words.len());
            assert(size_at(h.words, src as int) >= 0);
        }
        let size: usize = (heap.words[src + 1] / 2) as usize;
        assert(size == size_at(h.words, src as int));
        if heap.words[src] != 0 {
            let ghost was = heap@.words;
            slide(heap, src, dest, size + 2);
            heap.words[dest] = 0;
            proof {
                assert(heap@.words[dest as int] == 0);
                assert forall|w: int| 1 <= w < footprint(h.words, src as int) implies #[trigger] heap@.words[dest
                    + w] == was[src + w] by {}
                lemma_compacting_step(
                    h,
                    next as int,
                    objs,
                    was,
                    heap@.words,
                    k,
                    src as int,
                    dest as int,
                );
            }
            dest = dest + size + 2;
        } else {
            proof {
                lemma_compacting_skip(h, next as int, objs, heap@.words, k, src as int, dest as int);
            }
        }
        src = src + size + 2;
        proof {
            k = k + 1;
        }
    }
    proof {
        lemma_compacting_at(h, next as int, objs, heap@.words, k, src as int, dest as int);
        lemma_compacting_ends(h, next as int, objs, heap@.words, k, dest as int);
    }
    dest
}

} // verus!
