//! The second phase of a collection: every marked tuple learns where it
//! will lie. The tuples are visited from the first word of the heap on; a
//! marked one gets, in its collector's word, the address of the first word
//! that no marked tuple before it needs.

use vstd::prelude::*;
use crate::heap::{Heap, HeapView};
use crate::layout::{
    address_of, addressable, end_of, lemma_in_order, size_at, tiled, tuple_fits,
};
use crate::marking::lemma_same_layout;

verus! {

/// The number of words of the tuple at `i`: its two words and its elements.
pub open spec fn footprint(words: Seq<i64>, i: int) -> int {
    2 + size_at(words, i)
}

/// The index at which tuple `k` lies after the collection, if it is marked:
/// the words of the marked tuples before it, counted.
pub open spec fn new_place(marked: Seq<i64>, objs: Seq<int>, k: int) -> int
    decreases k,
{
    if k <= 0 || k > objs.len() {
        0
    } else {
        new_place(marked, objs, k - 1) + if marked[objs[k - 1]] != 0 {
            footprint(marked, objs[k - 1])
        } else {
            0
        }
    }
}

/// The index at which tuple `k` lies before the collection, or the
/// allocation pointer for the number of tuples.
pub open spec fn spot(objs: Seq<int>, next: int, k: int) -> int {
    if 0 <= k < objs.len() {
        objs[k]
    } else {
        next
    }
}

/// No tuple moves towards the end of the heap.
pub proof fn lemma_place_bound(marked: Seq<i64>, next: int, objs: Seq<int>, k: int)
    requires
        tiled(marked, next, objs),
        0 <= k <= objs.len(),
    ensures
        0 <= new_place(marked, objs, k) <= spot(objs, next, k),
    decreases k,
{
    if k > 0 {
        lemma_place_bound(marked, next, objs, k - 1);
        assert(tuple_fits(marked, objs[k - 1], next));
        if k < objs.len() {
            assert(end_of(marked, objs[k - 1]) == objs[k]);
        }
    } else if objs.len() > 0 {
    }
}

/// Whether the first `upto` tuples of `words` hold their new addresses
/// where `marked` holds a mark, and nothing else differs.
pub open spec fn forwarded(
    marked: Seq<i64>,
    words: Seq<i64>,
    start: i64,
    objs: Seq<int>,
    upto: int,
) -> bool {
    &&& words.len() == marked.len()
    &&& forall|i: int|
        0 <= i < words.len() && !objs.contains(i) ==> #[trigger] words[i] == marked[i]
    &&& forall|k: int|
        0 <= k < objs.len() ==> words[#[trigger] objs[k]] == if k < upto && marked[objs[k]] != 0 {
            address_of(start, new_place(marked, objs, k))
        } else if k < upto {
            0
        } else {
            marked[objs[k]] as int
        }
}

/// What holds while the tuples learn their new addresses: `k` tuples have
/// been visited, the next one lies at `src`, and `dest` is the first word
/// that no marked tuple before it needs.
#[verifier::opaque]
pub open spec fn forwarding(
    h: HeapView,
    next: int,
    objs: Seq<int>,
    words: Seq<i64>,
    k: int,
    src: int,
    dest: int,
) -> bool {
    &&& addressable(h)
    &&& tiled(h.words, next, objs)
    &&& 0 <= k <= objs.len()
    &&& src == spot(objs, next, k)
    &&& dest == new_place(h.words, objs, k)
    &&& forwarded(h.words, words, h.start, objs, k)
    &&& forall|j: int|
        0 <= j < objs.len() ==> h.words[#[trigger] objs[j]] == 0 || h.words[objs[j]] == 1
}

/// The phase starts at the first word of the heap.
pub proof fn lemma_forwarding_starts(h: HeapView, next: int, objs: Seq<int>)
    requires
        addressable(h),
        tiled(h.words, next, objs),
        forall|j: int|
            0 <= j < objs.len() ==> h.words[#[trigger] objs[j]] == 0 || h.words[objs[j]] == 1,
    ensures
        forwarding(h, next, objs, h.words, 0, 0, 0),
{
    reveal(forwarding);
}

/// The tuple that is visited next lies within the heap, and its new address
/// can be computed.
pub proof fn lemma_forwarding_at(
    h: HeapView,
    next: int,
    objs: Seq<int>,
    words: Seq<i64>,
    k: int,
    src: int,
    dest: int,
)
    requires
        forwarding(h, next, objs, words, k, src, dest),
    ensures
        words.len() == h.words.len(),
        0 <= dest <= src <= next <= words.len(),
        h.start >= 8,
        src == next <==> k == objs.len(),
        src < next ==> {
            &&& src + 1 < next
            &&& words[src + 1] >= 0
            &&& words[src + 1] == h.words[src + 1]
            &&& words[src] == h.words[src]
            &&& (h.words[src] == 0 || h.words[src] == 1)
            &&& src + footprint(words, src) <= next
            &&& footprint(words, src) == footprint(h.words, src)
            &&& 8 <= address_of(h.start, dest) <= i64::MAX
        },
{
    reveal(forwarding);
    lemma_place_bound(h.words, next, objs, k);
    lemma_same_layout(h.words, words, next, objs);
    if k < objs.len() {
        assert(tuple_fits(h.words, objs[k], next));
        assert(tuple_fits(words, objs[k], next));
        assert(size_at(words, objs[k]) == size_at(h.words, objs[k]));
    }
}

/// What `lemma_forwarding_step` states of the words, with the definition of
/// `forwarding` written out.
proof fn lemma_forwarded_step(
    marked: Seq<i64>,
    start: i64,
    next: int,
    objs: Seq<int>,
    words: Seq<i64>,
    now: Seq<i64>,
    k: int,
)
    requires
        tiled(marked, next, objs),
        0 <= k < objs.len(),
        forwarded(marked, words, start, objs, k),
        now == if marked[objs[k]] != 0 {
            words.update(objs[k], address_of(start, new_place(marked, objs, k)) as i64)
        } else {
            words
        },
        marked[objs[k]] != 0 ==> i64::MIN <= address_of(start, new_place(marked, objs, k))
            <= i64::MAX,
        marked[objs[k]] == 0 || marked[objs[k]] == 1,
    ensures
        forwarded(marked, now, start, objs, k + 1),
{
    assert(tuple_fits(marked, objs[k], next));
    assert forall|j: int| 0 <= j < objs.len() implies now[#[trigger] objs[j]] == if j < k + 1
        && marked[objs[j]] != 0 {
        address_of(start, new_place(marked, objs, j))
    } else if j < k + 1 {
        0
    } else {
        marked[objs[j]] as int
    } by {
        assert(tuple_fits(marked, objs[j], next));
        if j < k {
            lemma_in_order(marked, next, objs, j, k);
        } else if j > k {
            lemma_in_order(marked, next, objs, k, j);
        }
    }
    assert forall|i: int| 0 <= i < now.len() && !objs.contains(i) implies #[trigger] now[i]
        == marked[i] by {
        assert(i != objs[k]);
        assert(words[i] == marked[i]);
    }
}

/// After the visit of a tuple the next one is visited.
pub proof fn lemma_forwarding_step(
    h: HeapView,
    next: int,
    objs: Seq<int>,
    words: Seq<i64>,
    k: int,
    src: int,
    dest: int,
)
    requires
        forwarding(h, next, objs, words, k, src, dest),
        src < next,
        h.words[src] == 0 || h.words[src] == 1,
    ensures
        words[src] != 0 ==> forwarding(
            h,
            next,
            objs,
            words.update(src, address_of(h.start, dest) as i64),
            k + 1,
            src + footprint(words, src),
            dest + footprint(words, src),
        ),
        words[src] == 0 ==> forwarding(
            h,
            next,
            objs,
            words,
            k + 1,
            src + footprint(words, src),
            dest,
        ),
{
    lemma_forwarding_at(h, next, objs, words, k, src, dest);
    let now = if h.words[src] != 0 {
        words.update(src, address_of(h.start, dest) as i64)
    } else {
        words
    };
    assert(0 <= k < objs.len() && src == objs[k] && dest == new_place(h.words, objs, k)
        && tiled(h.words, next, objs) && forwarded(h.words, words, h.start, objs, k)
        && addressable(h)) by {
        reveal(forwarding);
    }
    lemma_forwarded_step(h.words, h.start, next, objs, words, now, k);
    assert(tuple_fits(h.words, objs[k], next));
    if k + 1 < objs.len() {
        assert(end_of(h.words, objs[k]) == objs[k + 1]);
    }
    assert(spot(objs, next, k + 1) == src + footprint(words, src));
    assert(new_place(h.words, objs, k + 1) == dest + if h.words[src] != 0 {
        footprint(h.words, src)
    } else {
        0
    });
    assert(forwarding(
        h,
        next,
        objs,
        now,
        k + 1,
        src + footprint(words, src),
        dest + if h.words[src] != 0 {
            footprint(h.words, src)
        } else {
            0
        },
    )) by {
        reveal(forwarding);
    }
}

/// When every tuple has been visited, each marked one holds its new
/// address.
pub proof fn lemma_forwarding_ends(
    h: HeapView,
    next: int,
    objs: Seq<int>,
    words: Seq<i64>,
    k: int,
    dest: int,
)
    requires
        forwarding(h, next, objs, words, k, next, dest),
    ensures
        forwarded(h.words, words, h.start, objs, objs.len() as int),
        dest == new_place(h.words, objs, objs.len() as int),
{
    lemma_forwarding_at(h, next, objs, words, k, next, dest);
    reveal(forwarding);
}

/// The second phase: writes into the collector's word of every marked tuple
/// the address at which the tuple will lie, and returns the index of the
/// first word that no marked tuple needs.
pub fn forward(heap: &mut Heap, next: usize, Ghost(objs): Ghost<Seq<int>>) -> (total: usize)
    requires
        addressable(old(heap)@),
        tiled(old(heap)@.words, next as int, objs),
        forall|k: int|
            0 <= k < objs.len() ==> old(heap)@.words[#[trigger] objs[k]] == 0 || old(
                heap,
            )@.words[objs[k]] == 1,
    ensures
        final(heap).start == old(heap).start,
        forwarded(old(heap)@.words, final(heap)@.words, final(heap).start, objs, objs.len() as int),
        total == new_place(old(heap)@.words, objs, objs.len() as int),
        total <= next,
{
    let ghost h = heap@;
    let ghost mut k: int = 0;
    let mut src: usize = 0;
    let mut dest: usize = 0;
    proof {
        lemma_forwarding_starts(h, next as int, objs);
    }
    while src < next
        invariant
            heap.start == h.start,
            forwarding(h, next as int, objs, heap@.words, k, src as int, dest as int),
        decreases next - src,
    {
        proof {
            lemma_forwarding_at(h, next as int, objs, heap@.words, k, src as int, dest as int);
            lemma_forwarding_step(h, next as int, objs, heap@.words, k, src as int, dest as int);
            assert(heap@.words.len() == heap.words.len());
            assert(size_at(heap@.words, src as int) >= 0);
            assert(heap.start + 8 * dest <= i64::MAX);
        }
        let size: usize = (heap.words[src + 1] / 2) as usize;
        assert(size == size_at(heap@.words, src as int));
        if heap.words[src] != 0 {
            heap.words[src] = heap.start + 8 * (dest as i64);
            dest = dest + size + 2;
        }
        src = src + size + 2;
        proof {
            k = k + 1;
        }
    }
    proof {
        lemma_forwarding_at(h, next as int, objs, heap@.words, k, src as int, dest as int);
        lemma_forwarding_ends(h, next as int, objs, heap@.words, k, dest as int);
    }
    dest
}

} // verus!
