//! The third phase of a collection: every reference to a tuple that will
//! move is replaced by the reference to its new place, in the tuples and on
//! the stack.

use vstd::prelude::*;
use crate::heap::{Heap, HeapView};
use crate::layout::{
    addressable, cell_of, elem, elements_point_at_tuples, end_of, lemma_in_order, points_at_tuple,
    roots_point_at_tuples, size_at, tiled, tuple_fits,
};
use crate::forwarding::{footprint, spot};
use crate::value::{is_reference, word_is_reference};

verus! {

/// The word that replaces `v`: a reference to a tuple whose collector's
/// word holds an address becomes that address plus 1; any other word stays.
pub open spec fn moved(fw: Seq<i64>, start: i64, v: i64) -> i64 {
    if is_reference(v) && fw[cell_of(start, v)] != 0 {
        (fw[cell_of(start, v)] + 1) as i64
    } else {
        v
    }
}

/// Whether `words` hold what `fw` holds, but for the elements of the first
/// `k` tuples and the first `done` elements of the next one, which are
/// replaced.
pub open spec fn rewritten(
    fw: Seq<i64>,
    words: Seq<i64>,
    start: i64,
    objs: Seq<int>,
    k: int,
    done: int,
) -> bool {
    &&& words.len() == fw.len()
    &&& forall|j: int|
        0 <= j < objs.len() ==> words[#[trigger] objs[j]] == fw[objs[j]] && words[objs[j] + 1]
            == fw[objs[j] + 1]
    &&& forall|j: int, t: int|
        0 <= j < objs.len() && 0 <= t < size_at(fw, objs[j]) ==> #[trigger] elem(
            words,
            objs[j],
            t,
        ) == if j < k || (j == k && t < done) {
            moved(fw, start, elem(fw, objs[j], t))
        } else {
            elem(fw, objs[j], t)
        }
}

/// Whether the collector's word of every tuple is 0 or an address that a
/// reference can be made of.
pub open spec fn addresses_fit(fw: Seq<i64>, objs: Seq<int>) -> bool {
    forall|j: int| 0 <= j < objs.len() ==> 0 <= fw[#[trigger] objs[j]] < i64::MAX
}

/// What holds while the references in the heap are replaced: `k` tuples
/// have been visited, the next one lies at `src`, and `done` of its elements
/// have been looked at.
#[verifier::opaque]
pub open spec fn rewriting(
    h: HeapView,
    next: int,
    objs: Seq<int>,
    words: Seq<i64>,
    k: int,
    src: int,
    done: int,
) -> bool {
    &&& addressable(h)
    &&& tiled(h.words, next, objs)
    &&& elements_point_at_tuples(h.words, h.start, objs)
    &&& addresses_fit(h.words, objs)
    &&& 0 <= k <= objs.len()
    &&& src == spot(objs, next, k)
    &&& 0 <= done
    &&& k < objs.len() ==> done <= size_at(h.words, objs[k])
    &&& rewritten(h.words, words, h.start, objs, k, done)
}

/// The phase starts at the first word of the heap.
pub proof fn lemma_rewriting_starts(h: HeapView, next: int, objs: Seq<int>)
    requires
        addressable(h),
        tiled(h.words, next, objs),
        elements_point_at_tuples(h.words, h.start, objs),
        addresses_fit(h.words, objs),
    ensures
        rewriting(h, next, objs, h.words, 0, 0, 0),
{
    reveal(rewriting);
    if objs.len() > 0 {
        assert(tuple_fits(h.words, objs[0], next));
    }
}

/// The tuple that is visited lies within the heap.
pub proof fn lemma_rewriting_at(
    h: HeapView,
    next: int,
    objs: Seq<int>,
    words: Seq<i64>,
    k: int,
    src: int,
    done: int,
)
    requires
        rewriting(h, next, objs, words, k, src, done),
    ensures
        words.len() == h.words.len(),
        0 <= src <= next <= words.len(),
        h.start >= 8,
        src == next <==> k == objs.len(),
        src < next ==> {
            &&& src + 1 < next
            &&& words[src + 1] >= 0
            &&& words[src + 1] == h.words[src + 1]
            &&& src + footprint(h.words, src) <= next
            &&& 0 <= done <= size_at(h.words, src)
        },
{
    reveal(rewriting);
    if k < objs.len() {
        assert(tuple_fits(h.words, objs[k], next));
    }
}

/// The element that is looked at next is as it was, and if it is a
/// reference, the collector's word of its tuple can be read.
pub proof fn lemma_rewriting_element(
    h: HeapView,
    next: int,
    objs: Seq<int>,
    words: Seq<i64>,
    k: int,
    src: int,
    done: int,
)
    requires
        rewriting(h, next, objs, words, k, src, done),
        src < next,
        done < size_at(h.words, src),
    ensures
        elem(words, src, done) == elem(h.words, src, done),
        is_reference(elem(words, src, done)) ==> {
            let c = cell_of(h.start, elem(words, src, done));
            &&& 0 <= c < words.len()
            &&& elem(words, src, done) - 1 - h.start == 8 * c
            &&& words[c] == h.words[c]
            &&& 0 <= words[c] < i64::MAX
        },
{
    lemma_rewriting_at(h, next, objs, words, k, src, done);
    reveal(rewriting);
    let v = elem(h.words, objs[k], done);
    assert(elem(words, objs[k], done) == v);
    assert(points_at_tuple(h.start, objs, v));
    if is_reference(v) {
        let c = cell_of(h.start, v);
        let j = objs.index_of(c);
        assert(tuple_fits(h.words, objs[j], next));
    }
}

/// What `lemma_rewriting_step` states of the words, with the definition of
/// `rewriting` written out.
proof fn lemma_rewritten_step(
    fw: Seq<i64>,
    start: i64,
    next: int,
    objs: Seq<int>,
    words: Seq<i64>,
    k: int,
    done: int,
)
    requires
        tiled(fw, next, objs),
        0 <= k < objs.len(),
        0 <= done < size_at(fw, objs[k]),
        rewritten(fw, words, start, objs, k, done),
    ensures
        rewritten(
            fw,
            words.update(objs[k] + 2 + done, moved(fw, start, elem(fw, objs[k], done))),
            start,
            objs,
            k,
            done + 1,
        ),
{
    let at = objs[k] + 2 + done;
    let now = words.update(at, moved(fw, start, elem(fw, objs[k], done)));
    assert(tuple_fits(fw, objs[k], next));
    assert forall|j: int| 0 <= j < objs.len() implies now[#[trigger] objs[j]] == fw[objs[j]]
        && now[objs[j] + 1] == fw[objs[j] + 1] by {
        assert(tuple_fits(fw, objs[j], next));
        if j < k {
            lemma_in_order(fw, next, objs, j, k);
        } else if j > k {
            lemma_in_order(fw, next, objs, k, j);
        }
    }
    assert forall|j: int, t: int|
        0 <= j < objs.len() && 0 <= t < size_at(fw, objs[j]) implies #[trigger] elem(
        now,
        objs[j],
        t,
    ) == if j < k || (j == k && t < done + 1) {
        moved(fw, start, elem(fw, objs[j], t))
    } else {
        elem(fw, objs[j], t)
    } by {
        assert(tuple_fits(fw, objs[j], next));
        assert(elem(words, objs[j], t) == if j < k || (j == k && t < done) {
            moved(fw, start, elem(fw, objs[j], t))
        } else {
            elem(fw, objs[j], t)
        });
        if j < k {
            lemma_in_order(fw, next, objs, j, k);
        } else if j > k {
            lemma_in_order(fw, next, objs, k, j);
        }
    }
}

/// After an element has been replaced, or left where nothing replaces it,
/// the next one is looked at.
pub proof fn lemma_rewriting_step(
    h: HeapView,
    next: int,
    objs: Seq<int>,
    words: Seq<i64>,
    k: int,
    src: int,
    done: int,
)
    requires
        rewriting(h, next, objs, words, k, src, done),
        src < next,
        done < size_at(h.words, src),
    ensures
        rewriting(
            h,
            next,
            objs,
            words.update(src + 2 + done, moved(h.words, h.start, elem(words, src, done))),
            k,
            src,
            done + 1,
        ),
{
    lemma_rewriting_at(h, next, objs, words, k, src, done);
    lemma_rewriting_element(h, next, objs, words, k, src, done);
    let now = words.update(src + 2 + done, moved(h.words, h.start, elem(words, src, done)));
    assert(0 <= k < objs.len() && src == objs[k] && tiled(h.words, next, objs) && rewritten(
        h.words,
        words,
        h.start,
        objs,
        k,
        done,
    )) by {
        reveal(rewriting);
    }
    lemma_rewritten_step(h.words, h.start, next, objs, words, k, done);
    assert(rewriting(h, next, objs, now, k, src, done + 1)) by {
        reveal(rewriting);
    }
}

/// After the last element of a tuple the next tuple is visited.
pub proof fn lemma_rewriting_next(
    h: HeapView,
    next: int,
    objs: Seq<int>,
    words: Seq<i64>,
    k: int,
    src: int,
)
    requires
        src < next,
        rewriting(h, next, objs, words, k, src, size_at(h.words, src)),
    ensures
        rewriting(h, next, objs, words, k + 1, src + footprint(h.words, src), 0),
{
    lemma_rewriting_at(h, next, objs, words, k, src, size_at(h.words, src));
    reveal(rewriting);
    assert(tuple_fits(h.words, objs[k], next));
    if k + 1 < objs.len() {
        assert(end_of(h.words, objs[k]) == objs[k + 1]);
        assert(tuple_fits(h.words, objs[k + 1], next));
    }
}

/// When every tuple has been visited, every element is replaced.
pub proof fn lemma_rewriting_ends(
    h: HeapView,
    next: int,
    objs: Seq<int>,
    words: Seq<i64>,
    k: int,
    done: int,
)
    requires
        rewriting(h, next, objs, words, k, next, done),
    ensures
        rewritten(h.words, words, h.start, objs, objs.len() as int, 0),
{
    lemma_rewriting_at(h, next, objs, words, k, next, done);
    reveal(rewriting);
}

/// The word that replaces `v`, read off the collector's word of the tuple
/// that `v` refers to.
fn replacement(heap: &Heap, v: i64, Ghost(fw): Ghost<Seq<i64>>) -> (r: i64)
    requires
        heap.start >= 8,
        is_reference(v) ==> {
            let c = cell_of(heap.start, v);
            &&& 0 <= c < heap.words.len()
            &&& v - 1 - heap.start == 8 * c
            &&& heap@.words[c] == fw[c]
            &&& 0 <= fw[c] < i64::MAX
        },
    ensures
        r == moved(fw, heap.start, v),
{
    if !word_is_reference(v) {
        return v;
    }
    let offset: i64 = v - 1 - heap.start;
    let cell: i64 = offset / 8;
    assert(cell == cell_of(heap.start, v));
    let forward = heap.words[cell as usize];
    if forward != 0 {
        forward + 1
    } else {
        v
    }
}

/// Replaces the references in the tuples of the heap.
pub fn rewrite_heap(heap: &mut Heap, next: usize, Ghost(objs): Ghost<Seq<int>>)
    requires
        addressable(old(heap)@),
        tiled(old(heap)@.words, next as int, objs),
        elements_point_at_tuples(old(heap)@.words, old(heap).start, objs),
        addresses_fit(old(heap)@.words, objs),
    ensures
        final(heap).start == old(heap).start,
        rewritten(
            old(heap)@.words,
            final(heap)@.words,
            final(heap).start,
            objs,
            objs.len() as int,
            0,
        ),
{
    let ghost h = heap@;
    let ghost mut k: int = 0;
    let mut src: usize = 0;
    proof {
        lemma_rewriting_starts(h, next as int, objs);
    }
    while src < next
        invariant
            heap.start == h.start,
            rewriting(h, next as int, objs, heap@.words, k, src as int, 0),
        decreases next - src,
    {
        proof {
            lemma_rewriting_at(h, next as int, objs, heap@.words, k, src as int, 0);
            assert(heap@.words.len() == heap.words.len());
            assert(size_at(h.words, src as int) >= 0);
        }
        let size: usize = (heap.words[src + 1] / 2) as usize;
        assert(size == size_at(h.words, src as int));
        let mut t: usize = 0;
        while t < size
            invariant
                t <= size,
                src < next,
                size == size_at(h.words, src as int),
                heap.start == h.start,
                rewriting(h, next as int, objs, heap@.words, k, src as int, t as int),
            decreases size - t,
        {
            proof {
                lemma_rewriting_at(h, next as int, objs, heap@.words, k, src as int, t as int);
                lemma_rewriting_element(h, next as int, objs, heap@.words, k, src as int, t as int);
                lemma_rewriting_step(h, next as int, objs, heap@.words, k, src as int, t as int);
                assert(heap@.words.len() == heap.words.len());
            }
            let v = heap.words[src + 2 + t];
            assert(v == elem(heap@.words, src as int, t as int));
            let r = replacement(heap, v, Ghost(h.words));
            heap.words[src + 2 + t] = r;
            t += 1;
        }
        proof {
            lemma_rewriting_next(h, next as int, objs, heap@.words, k, src as int);
            k = k + 1;
        }
        src = src + size + 2;
    }
    proof {
        lemma_rewriting_at(h, next as int, objs, heap@.words, k, src as int, 0);
        lemma_rewriting_ends(h, next as int, objs, heap@.words, k, 0);
    }
}

/// Whether the first `upto` roots are replaced and the others are as they
/// were.
pub open spec fn roots_rewritten(
    fw: Seq<i64>,
    start: i64,
    was: Seq<i64>,
    now: Seq<i64>,
    upto: int,
) -> bool {
    &&& now.len() == was.len()
    &&& forall|r: int|
        0 <= r < was.len() ==> #[trigger] now[r] == if r < upto {
            moved(fw, start, was[r])
        } else {
            was[r]
        }
}

/// Replaces the references on the stack.
pub fn rewrite_roots(
    heap: &Heap,
    roots: &mut Vec<i64>,
    Ghost(next): Ghost<int>,
    Ghost(objs): Ghost<Seq<int>>,
    Ghost(fw): Ghost<Seq<i64>>,
)
    requires
        addressable(heap@),
        fw.len() == heap@.words.len(),
        tiled(fw, next, objs),
        roots_point_at_tuples(old(roots)@, heap.start, objs),
        addresses_fit(fw, objs),
        forall|j: int| 0 <= j < objs.len() ==> heap@.words[#[trigger] objs[j]] == fw[objs[j]],
    ensures
        roots_rewritten(fw, heap.start, old(roots)@, final(roots)@, old(roots)@.len() as int),
{
    let ghost was = roots@;
    let mut r: usize = 0;
    while r < roots.len()
        invariant
            r <= roots.len(),
            addressable(heap@),
            fw.len() == heap@.words.len(),
            tiled(fw, next, objs),
            roots_point_at_tuples(was, heap.start, objs),
            addresses_fit(fw, objs),
            forall|j: int| 0 <= j < objs.len() ==> heap@.words[#[trigger] objs[j]] == fw[objs[j]],
            roots_rewritten(fw, heap.start, was, roots@, r as int),
        decreases roots.len() - r,
    {
        let v = roots[r];
        proof {
            assert(v == was[r as int]);
            assert(points_at_tuple(heap.start, objs, was[r as int]));
            if is_reference(v) {
                let c = cell_of(heap.start, v);
                let j = objs.index_of(c);
                assert(tuple_fits(fw, objs[j], next));
            }
        }
        let w = replacement(heap, v, Ghost(fw));
        roots[r] = w;
        r += 1;
    }
}

} // verus!
