//! The first phase of a collection: every tuple that the stack refers to,
//! directly or through other tuples, gets the mark 1 in its collector's
//! word.

use vstd::prelude::*;
use crate::heap::{lemma_room_shrinks, room, Heap, HeapView};
use crate::layout::{
    cell_of, elem, end_of, laid_out, lemma_one_owner, points_at_tuple, size_at, tiled, tuple_fits,
};
use crate::value::{is_reference, word_is_reference};

verus! {

/// Whether `words` differ from `before` in the first words of tuples only,
/// each of which holds 0 or the mark.
pub open spec fn marks_only(words: Seq<i64>, before: Seq<i64>, objs: Seq<int>) -> bool {
    &&& words.len() == before.len()
    &&& forall|i: int|
        0 <= i < words.len() && !objs.contains(i) ==> #[trigger] words[i] == before[i]
    &&& forall|k: int|
        0 <= k < objs.len() ==> words[#[trigger] objs[k]] == 0 || words[objs[k]] == 1
}

/// Whether the word `v`, if it is a reference, points at a marked tuple.
pub open spec fn target_marked(words: Seq<i64>, start: i64, v: i64) -> bool {
    is_reference(v) ==> 0 <= cell_of(start, v) < words.len() && words[cell_of(start, v)] != 0
}

/// Whether every reference in the first `upto` elements of the tuple at
/// `i` points at a marked tuple.
pub open spec fn elements_marked(words: Seq<i64>, start: i64, i: int, upto: int) -> bool {
    forall|t: int| 0 <= t < upto ==> target_marked(words, start, #[trigger] elem(words, i, t))
}

/// Whether the first `upto` roots point at marked tuples.
pub open spec fn roots_marked(words: Seq<i64>, start: i64, roots: Seq<i64>, upto: int) -> bool {
    forall|r: int| 0 <= r < upto ==> target_marked(words, start, #[trigger] roots[r])
}

/// Whether the marked tuples are closed under reference: every reference
/// on the stack and in a marked tuple points at a marked tuple.
pub open spec fn marks_closed(words: Seq<i64>, start: i64, roots: Seq<i64>, objs: Seq<int>) -> bool {
    &&& roots_marked(words, start, roots, roots.len() as int)
    &&& forall|k: int|
        0 <= k < objs.len() && words[#[trigger] objs[k]] != 0 ==> elements_marked(
            words,
            start,
            objs[k],
            size_at(words, objs[k]),
        )
}

/// Words that differ in the first words of tuples only hold the same
/// tuples with the same elements.
pub proof fn lemma_same_layout(before: Seq<i64>, words: Seq<i64>, next: int, objs: Seq<int>)
    requires
        tiled(before, next, objs),
        words.len() == before.len(),
        forall|i: int|
            0 <= i < words.len() && !objs.contains(i) ==> #[trigger] words[i] == before[i],
    ensures
        tiled(words, next, objs),
        forall|k: int|
            0 <= k < objs.len() ==> size_at(words, #[trigger] objs[k]) == size_at(before, objs[k]),
        forall|k: int, t: int|
            0 <= k < objs.len() && 0 <= t < size_at(before, objs[k]) ==> #[trigger] elem(
                words,
                objs[k],
                t,
            ) == elem(before, objs[k], t),
{
    assert forall|k: int| 0 <= k < objs.len() implies words[objs[k] + 1] == before[objs[k] + 1]
        && size_at(words, #[trigger] objs[k]) == size_at(before, objs[k]) by {
        assert(tuple_fits(before, objs[k], next));
        if objs.contains(objs[k] + 1) {
            let j = objs.index_of(objs[k] + 1);
            lemma_one_owner(before, next, objs, j, k, objs[k] + 1);
        }
    }
    assert forall|k: int, t: int|
        0 <= k < objs.len() && 0 <= t < size_at(before, objs[k]) implies #[trigger] elem(
        words,
        objs[k],
        t,
    ) == elem(before, objs[k], t) by {
        assert(tuple_fits(before, objs[k], next));
        if objs.contains(objs[k] + 2 + t) {
            let j = objs.index_of(objs[k] + 2 + t);
            lemma_one_owner(before, next, objs, j, k, objs[k] + 2 + t);
        }
    }
    assert forall|k: int| 0 <= k < objs.len() implies tuple_fits(words, #[trigger] objs[k], next) by {
        assert(tuple_fits(before, objs[k], next));
        assert(size_at(words, objs[k]) == size_at(before, objs[k]));
    }
    assert forall|k: int| 0 <= k < objs.len() - 1 implies end_of(words, #[trigger] objs[k])
        == objs[k + 1] by {
        assert(end_of(before, objs[k]) == objs[k + 1]);
        assert(size_at(words, objs[k]) == size_at(before, objs[k]));
    }
    if objs.len() > 0 {
        let last = objs.len() - 1;
        assert(size_at(words, objs[last]) == size_at(before, objs[last]));
    }
}

/// The first words of tuples that hold the mark.
pub open spec fn marked_cells(words: Seq<i64>, objs: Seq<int>) -> Set<int> {
    Set::new(|i: int| 0 <= i < words.len() && objs.contains(i) && words[i] != 0)
}

/// The number of words among the first `next` that are not the first word
/// of a marked tuple. It falls whenever a tuple is marked.
pub closed spec fn unmarked(words: Seq<i64>, next: int, objs: Seq<int>) -> nat {
    room(next as nat, marked_cells(words, objs))
}

/// The tuples that wait to be scanned, by the index of their first word.
pub open spec fn waiting(pending: Seq<usize>) -> Seq<int> {
    Seq::new(pending.len(), |j: int| pending[j] as int)
}

/// Whether every tuple that waits is a marked tuple.
pub open spec fn waiting_marked(words: Seq<i64>, objs: Seq<int>, pending: Seq<usize>) -> bool {
    forall|j: int|
        0 <= j < pending.len() ==> objs.contains(#[trigger] pending[j] as int) && 0
            <= pending[j] < words.len() && words[pending[j] as int] == 1
}

/// Whether every marked tuple that neither waits nor is `current` has been
/// scanned: its references point at marked tuples.
pub open spec fn others_scanned(
    words: Seq<i64>,
    start: i64,
    objs: Seq<int>,
    pending: Seq<usize>,
    current: int,
) -> bool {
    forall|k: int|
        0 <= k < objs.len() && words[#[trigger] objs[k]] != 0 && objs[k] != current
            && !waiting(pending).contains(objs[k]) ==> elements_marked(
            words,
            start,
            objs[k],
            size_at(words, objs[k]),
        )
}

/// Whether the tuple at `c` is reached from the stack through at most `n`
/// tuples: a word of the stack refers to it, or an element of a tuple that
/// is reached through fewer does.
pub open spec fn reached(h: HeapView, roots: Seq<i64>, c: int, n: nat) -> bool
    decreases n,
{
    ||| exists|r: int|
        0 <= r < roots.len() && is_reference(#[trigger] roots[r]) && cell_of(h.start, roots[r])
            == c
    ||| n > 0 && exists|c2: int, t: int|
        reached(h, roots, c2, (n - 1) as nat) && 0 <= t < size_at(h.words, c2) && is_reference(
            #[trigger] elem(h.words, c2, t),
        ) && cell_of(h.start, elem(h.words, c2, t)) == c
}

/// Whether the tuple at `c` is reachable from the stack.
pub open spec fn reachable(h: HeapView, roots: Seq<i64>, c: int) -> bool {
    exists|n: nat| reached(h, roots, c, n)
}

/// Whether every marked tuple is reachable from the stack in the heap
/// `before`.
pub open spec fn marks_reachable(
    words: Seq<i64>,
    before: HeapView,
    roots: Seq<i64>,
    objs: Seq<int>,
) -> bool {
    forall|k: int|
        0 <= k < objs.len() && words[#[trigger] objs[k]] != 0 ==> reachable(before, roots, objs[k])
}

/// What does not change while the heap is marked: the heap as it was, the
/// allocation pointer, the tuples and the stack.
pub struct Marking {
    pub before: HeapView,
    pub next: int,
    pub objs: Seq<int>,
    pub roots: Seq<i64>,
}

/// What holds while the heap is marked. `pending` holds the tuples that
/// wait to be scanned, `current` is the first word of the tuple that is
/// being scanned (-1 while none is), `roots_done` roots and `elems_done`
/// elements of that tuple have been looked at.
#[verifier::opaque]
pub open spec fn marking(
    m: Marking,
    words: Seq<i64>,
    pending: Seq<usize>,
    current: int,
    roots_done: int,
    elems_done: int,
) -> bool {
    &&& laid_out(m.before, m.next, m.roots, m.objs)
    &&& marks_only(words, m.before.words, m.objs)
    &&& waiting_marked(words, m.objs, pending)
    &&& others_scanned(words, m.before.start, m.objs, pending, current)
    &&& 0 <= roots_done <= m.roots.len()
    &&& roots_marked(words, m.before.start, m.roots, roots_done)
    &&& marks_reachable(words, m.before, m.roots, m.objs)
    &&& current == -1 || (m.objs.contains(current) && words[current] != 0 && 0 <= elems_done
        <= size_at(m.before.words, current) && elements_marked(
        words,
        m.before.start,
        current,
        elems_done,
    ))
}

/// Whether `v` is the word that is looked at next: the next root while no
/// tuple is being scanned, else the next element of that tuple.
pub open spec fn is_next(
    m: Marking,
    words: Seq<i64>,
    current: int,
    roots_done: int,
    elems_done: int,
    v: i64,
) -> bool {
    if current == -1 {
        roots_done < m.roots.len() && v == m.roots[roots_done]
    } else {
        elems_done < size_at(m.before.words, current) && v == elem(words, current, elems_done)
    }
}

/// The roots that have been looked at once the next word has.
pub open spec fn roots_after(current: int, roots_done: int) -> int {
    if current == -1 {
        roots_done + 1
    } else {
        roots_done
    }
}

/// The elements that have been looked at once the next word has.
pub open spec fn elems_after(current: int, elems_done: int) -> int {
    if current == -1 {
        elems_done
    } else {
        elems_done + 1
    }
}

/// Marking starts from a heap between collections.
pub proof fn lemma_marking_starts(m: Marking)
    requires
        laid_out(m.before, m.next, m.roots, m.objs),
    ensures
        marking(m, m.before.words, Seq::empty(), -1, 0, 0),
{
    reveal(marking);
    assert(waiting(Seq::<usize>::empty()) =~= Seq::<int>::empty());
}

/// The word that is looked at next is a number, a boolean, `nil`, or a
/// reference to the first word of a tuple, whose index is that of a word of
/// the heap.
pub proof fn lemma_next_word(
    m: Marking,
    words: Seq<i64>,
    pending: Seq<usize>,
    current: int,
    roots_done: int,
    elems_done: int,
    v: i64,
)
    requires
        marking(m, words, pending, current, roots_done, elems_done),
        is_next(m, words, current, roots_done, elems_done, v),
    ensures
        words.len() == m.before.words.len(),
        is_reference(v) ==> 0 <= cell_of(m.before.start, v) < words.len() && v - 1
            - m.before.start == 8 * cell_of(m.before.start, v) && m.before.start >= 8,
{
    reveal(marking);
    lemma_same_layout(m.before.words, words, m.next, m.objs);
    if current != -1 {
        let k = m.objs.index_of(current);
        assert(elem(words, m.objs[k], elems_done) == elem(m.before.words, m.objs[k], elems_done));
        assert(points_at_tuple(m.before.start, m.objs, elem(m.before.words, m.objs[k], elems_done)));
    } else {
        assert(points_at_tuple(m.before.start, m.objs, m.roots[roots_done]));
    }
    if is_reference(v) {
        let c = cell_of(m.before.start, v);
        assert(m.objs.contains(c));
        let k = m.objs.index_of(c);
        assert(tuple_fits(m.before.words, m.objs[k], m.next));
    }
}

/// The tuple that is being scanned lies within the heap, and so does the
/// next of its elements.
pub proof fn lemma_current_tuple(
    m: Marking,
    words: Seq<i64>,
    pending: Seq<usize>,
    current: int,
    roots_done: int,
    elems_done: int,
)
    requires
        marking(m, words, pending, current, roots_done, elems_done),
        current != -1,
    ensures
        words.len() == m.before.words.len(),
        0 <= current,
        current + 2 + size_at(m.before.words, current) <= words.len(),
        words[current + 1] == m.before.words[current + 1],
        words[current + 1] >= 0,
        0 <= elems_done <= size_at(m.before.words, current),
{
    reveal(marking);
    lemma_same_layout(m.before.words, words, m.next, m.objs);
    let k = m.objs.index_of(current);
    assert(tuple_fits(m.before.words, m.objs[k], m.next));
    assert(tuple_fits(words, m.objs[k], m.next));
    assert(size_at(words, m.objs[k]) == size_at(m.before.words, m.objs[k]));
    if m.objs.contains(current + 1) {
        let j = m.objs.index_of(current + 1);
        lemma_one_owner(m.before.words, m.next, m.objs, j, k, current + 1);
    }
}

/// References that pointed at marked tuples still do when one more tuple
/// is marked.
proof fn lemma_marks_grow(
    m: Marking,
    was: Seq<i64>,
    now: Seq<i64>,
    c: int,
    current: int,
    roots_done: int,
    elems_done: int,
)
    requires
        tiled(m.before.words, m.next, m.objs),
        marks_only(was, m.before.words, m.objs),
        m.objs.contains(c),
        0 <= c < was.len(),
        now == was.update(c, 1i64),
        roots_marked(was, m.before.start, m.roots, roots_done),
        current != -1 ==> m.objs.contains(current) && elems_done <= size_at(
            m.before.words,
            current,
        ) && elements_marked(was, m.before.start, current, elems_done),
    ensures
        marks_only(now, m.before.words, m.objs),
        roots_marked(now, m.before.start, m.roots, roots_done),
        current != -1 ==> elements_marked(now, m.before.start, current, elems_done),
{
    let start = m.before.start;
    assert(marks_only(now, m.before.words, m.objs));
    lemma_same_layout(m.before.words, now, m.next, m.objs);
    lemma_same_layout(m.before.words, was, m.next, m.objs);
    assert forall|r: int| 0 <= r < roots_done implies target_marked(
        now,
        start,
        #[trigger] m.roots[r],
    ) by {
        assert(target_marked(was, start, m.roots[r]));
    }
    if current != -1 {
        let k = m.objs.index_of(current);
        assert forall|t: int| 0 <= t < elems_done implies target_marked(
            now,
            start,
            #[trigger] elem(now, current, t),
        ) by {
            assert(elem(now, m.objs[k], t) == elem(m.before.words, m.objs[k], t));
            assert(elem(was, m.objs[k], t) == elem(m.before.words, m.objs[k], t));
            assert(target_marked(was, start, elem(was, current, t)));
        }
    }
}

/// Tuples that had been scanned stay scanned when one more tuple is marked
/// and waits.
proof fn lemma_scanned_stay(
    m: Marking,
    was: Seq<i64>,
    now: Seq<i64>,
    list: Seq<usize>,
    c: usize,
    current: int,
)
    requires
        tiled(m.before.words, m.next, m.objs),
        marks_only(was, m.before.words, m.objs),
        m.objs.contains(c as int),
        0 <= c < was.len(),
        was[c as int] == 0,
        now == was.update(c as int, 1i64),
        waiting_marked(was, m.objs, list),
        others_scanned(was, m.before.start, m.objs, list, current),
    ensures
        waiting_marked(now, m.objs, list.push(c)),
        others_scanned(now, m.before.start, m.objs, list.push(c), current),
{
    let start = m.before.start;
    let objs = m.objs;
    let list2 = list.push(c);
    assert forall|j: int| 0 <= j < list2.len() implies objs.contains(#[trigger] list2[j] as int)
        && 0 <= list2[j] < now.len() && now[list2[j] as int] == 1 by {
        if j < list.len() {
            assert(list2[j] == list[j]);
        }
    }
    lemma_same_layout(m.before.words, now, m.next, objs);
    lemma_same_layout(m.before.words, was, m.next, objs);
    assert forall|k2: int|
        0 <= k2 < objs.len() && now[#[trigger] objs[k2]] != 0 && objs[k2] != current
            && !waiting(list2).contains(objs[k2]) implies elements_marked(
        now,
        start,
        objs[k2],
        size_at(now, objs[k2]),
    ) by {
        assert(waiting(list2)[list.len() as int] == c);
        assert(objs[k2] != c);
        assert(tuple_fits(was, objs[k2], m.next));
        assert(was[objs[k2]] != 0);
        if waiting(list).contains(objs[k2]) {
            let j = waiting(list).index_of(objs[k2]);
            assert(waiting(list2)[j] == objs[k2]);
        }
        assert(elements_marked(was, start, objs[k2], size_at(was, objs[k2])));
        assert(size_at(now, objs[k2]) == size_at(was, objs[k2]));
        assert forall|t: int| 0 <= t < size_at(now, objs[k2]) implies target_marked(
            now,
            start,
            #[trigger] elem(now, objs[k2], t),
        ) by {
            assert(elem(now, objs[k2], t) == elem(m.before.words, objs[k2], t));
            assert(elem(was, objs[k2], t) == elem(m.before.words, objs[k2], t));
            assert(target_marked(was, start, elem(was, objs[k2], t)));
        }
    }
}

/// A word that is no reference, or refers to a marked tuple, has been
/// looked at.
pub proof fn lemma_step_kept(
    m: Marking,
    words: Seq<i64>,
    pending: Seq<usize>,
    current: int,
    roots_done: int,
    elems_done: int,
    v: i64,
)
    requires
        marking(m, words, pending, current, roots_done, elems_done),
        is_next(m, words, current, roots_done, elems_done, v),
        is_reference(v) ==> words[cell_of(m.before.start, v)] != 0,
    ensures
        marking(
            m,
            words,
            pending,
            current,
            roots_after(current, roots_done),
            elems_after(current, elems_done),
        ),
{
    lemma_next_word(m, words, pending, current, roots_done, elems_done, v);
    reveal(marking);
}

/// The tuple that the next word refers to is reachable, and so the marked
/// tuples stay reachable when it is marked.
proof fn lemma_new_mark_reachable(
    m: Marking,
    words: Seq<i64>,
    current: int,
    roots_done: int,
    elems_done: int,
    v: i64,
    c: int,
)
    requires
        tiled(m.before.words, m.next, m.objs),
        marks_only(words, m.before.words, m.objs),
        marks_reachable(words, m.before, m.roots, m.objs),
        0 <= roots_done <= m.roots.len(),
        current != -1 ==> m.objs.contains(current) && words[current] != 0 && 0 <= elems_done,
        is_next(m, words, current, roots_done, elems_done, v),
        is_reference(v),
        c == cell_of(m.before.start, v),
        0 <= c < words.len(),
    ensures
        marks_reachable(words.update(c, 1i64), m.before, m.roots, m.objs),
{
    let now = words.update(c, 1i64);
    assert(reachable(m.before, m.roots, c)) by {
        if current == -1 {
            assert(reached(m.before, m.roots, c, 0));
        } else {
            lemma_same_layout(m.before.words, words, m.next, m.objs);
            let k = m.objs.index_of(current);
            assert(0 <= k < m.objs.len() && m.objs[k] == current);
            assert(reachable(m.before, m.roots, m.objs[k]));
            let n = choose|n: nat| reached(m.before, m.roots, current, n);
            assert(elem(words, m.objs[k], elems_done) == elem(
                m.before.words,
                m.objs[k],
                elems_done,
            ));
            assert(reached(m.before, m.roots, current, ((n + 1) - 1) as nat));
            assert(reached(m.before, m.roots, c, n + 1));
        }
    }
    assert forall|k: int| 0 <= k < m.objs.len() && now[#[trigger] m.objs[k]] != 0 implies reachable(
        m.before,
        m.roots,
        m.objs[k],
    ) by {
        if m.objs[k] != c {
            assert(tuple_fits(m.before.words, m.objs[k], m.next));
            assert(words[m.objs[k]] != 0);
        }
    }
}

/// What `lemma_step_marked` states, with the definition of `marking`
/// written out.
proof fn lemma_step_marked_parts(
    m: Marking,
    words: Seq<i64>,
    pending: Seq<usize>,
    current: int,
    roots_done: int,
    elems_done: int,
    v: i64,
    c: usize,
)
    requires
        laid_out(m.before, m.next, m.roots, m.objs),
        marks_only(words, m.before.words, m.objs),
        waiting_marked(words, m.objs, pending),
        others_scanned(words, m.before.start, m.objs, pending, current),
        0 <= roots_done <= m.roots.len(),
        roots_marked(words, m.before.start, m.roots, roots_done),
        current != -1 ==> (m.objs.contains(current) && words[current] != 0 && 0 <= elems_done
            <= size_at(m.before.words, current) && elements_marked(
            words,
            m.before.start,
            current,
            elems_done,
        )),
        is_next(m, words, current, roots_done, elems_done, v),
        is_reference(v),
        c == cell_of(m.before.start, v),
        0 <= c < words.len(),
        m.objs.contains(c as int),
        words[c as int] == 0,
    ensures
        marks_only(words.update(c as int, 1i64), m.before.words, m.objs),
        waiting_marked(words.update(c as int, 1i64), m.objs, pending.push(c)),
        others_scanned(
            words.update(c as int, 1i64),
            m.before.start,
            m.objs,
            pending.push(c),
            current,
        ),
        roots_marked(
            words.update(c as int, 1i64),
            m.before.start,
            m.roots,
            roots_after(current, roots_done),
        ),
        current != -1 ==> words.update(c as int, 1i64)[current] != 0 && elements_marked(
            words.update(c as int, 1i64),
            m.before.start,
            current,
            elems_after(current, elems_done),
        ),
        unmarked(words.update(c as int, 1i64), m.next, m.objs) < unmarked(words, m.next, m.objs),
{
    let now = words.update(c as int, 1i64);
    let start = m.before.start;
    let k = m.objs.index_of(c as int);
    assert(tuple_fits(m.before.words, m.objs[k], m.next));
    lemma_marks_grow(m, words, now, c as int, current, roots_done, elems_done);
    lemma_scanned_stay(m, words, now, pending, c, current);
    assert(marked_cells(now, m.objs) =~= marked_cells(words, m.objs).insert(c as int));
    lemma_room_shrinks(m.next as nat, marked_cells(words, m.objs), c as int);
    assert(target_marked(now, start, v));
    if current != -1 {
        lemma_same_layout(m.before.words, now, m.next, m.objs);
        lemma_same_layout(m.before.words, words, m.next, m.objs);
        let kc = m.objs.index_of(current);
        assert(elem(now, m.objs[kc], elems_done) == elem(m.before.words, m.objs[kc], elems_done));
        assert(elem(words, m.objs[kc], elems_done) == elem(
            m.before.words,
            m.objs[kc],
            elems_done,
        ));
        assert(elem(now, current, elems_done) == v);
        assert forall|t: int| 0 <= t < elems_done + 1 implies target_marked(
            now,
            start,
            #[trigger] elem(now, current, t),
        ) by {
            if t < elems_done {
                assert(elements_marked(now, start, current, elems_done));
            }
        }
    } else {
        assert forall|r: int| 0 <= r < roots_done + 1 implies target_marked(
            now,
            start,
            #[trigger] m.roots[r],
        ) by {
            if r < roots_done {
                assert(roots_marked(now, start, m.roots, roots_done));
            }
        }
    }
}

/// A reference to a tuple without a mark has been looked at once the tuple
/// is marked and waits; and fewer tuples are without a mark then.
pub proof fn lemma_step_marked(
    m: Marking,
    words: Seq<i64>,
    pending: Seq<usize>,
    current: int,
    roots_done: int,
    elems_done: int,
    v: i64,
    c: usize,
)
    requires
        marking(m, words, pending, current, roots_done, elems_done),
        is_next(m, words, current, roots_done, elems_done, v),
        is_reference(v),
        c == cell_of(m.before.start, v),
        words[c as int] == 0,
    ensures
        marking(
            m,
            words.update(c as int, 1i64),
            pending.push(c),
            current,
            roots_after(current, roots_done),
            elems_after(current, elems_done),
        ),
        unmarked(words.update(c as int, 1i64), m.next, m.objs) < unmarked(words, m.next, m.objs),
{
    lemma_next_word(m, words, pending, current, roots_done, elems_done, v);
    lemma_next_points(m, words, pending, current, roots_done, elems_done, v);
    reveal(marking);
    lemma_step_marked_parts(m, words, pending, current, roots_done, elems_done, v, c);
    lemma_new_mark_reachable(m, words, current, roots_done, elems_done, v, c as int);
}

/// The word that is looked at next, if it is a reference, points at the
/// first word of a tuple.
proof fn lemma_next_points(
    m: Marking,
    words: Seq<i64>,
    pending: Seq<usize>,
    current: int,
    roots_done: int,
    elems_done: int,
    v: i64,
)
    requires
        marking(m, words, pending, current, roots_done, elems_done),
        is_next(m, words, current, roots_done, elems_done, v),
    ensures
        points_at_tuple(m.before.start, m.objs, v),
{
    reveal(marking);
    lemma_same_layout(m.before.words, words, m.next, m.objs);
    if current != -1 {
        let k = m.objs.index_of(current);
        assert(elem(words, m.objs[k], elems_done) == elem(m.before.words, m.objs[k], elems_done));
        assert(points_at_tuple(m.before.start, m.objs, elem(m.before.words, m.objs[k], elems_done)));
    } else {
        assert(points_at_tuple(m.before.start, m.objs, m.roots[roots_done]));
    }
}

/// A tuple that is taken from those that wait is the one that is scanned
/// next.
pub proof fn lemma_taken(
    m: Marking,
    words: Seq<i64>,
    rest: Seq<usize>,
    at: usize,
)
    requires
        marking(m, words, rest.push(at), -1, m.roots.len() as int, 0),
    ensures
        marking(m, words, rest, at as int, m.roots.len() as int, 0),
{
    reveal(marking);
    let objs = m.objs;
    let start = m.before.start;
    let before_pop = rest.push(at);
    assert(before_pop[rest.len() as int] == at);
    assert forall|j: int| 0 <= j < rest.len() implies objs.contains(#[trigger] rest[j] as int)
        && 0 <= rest[j] < words.len() && words[rest[j] as int] == 1 by {
        assert(before_pop[j] == rest[j]);
    }
    assert forall|k: int|
        0 <= k < objs.len() && words[#[trigger] objs[k]] != 0 && objs[k] != at && !waiting(
            rest,
        ).contains(objs[k]) implies elements_marked(
        words,
        start,
        objs[k],
        size_at(words, objs[k]),
    ) by {
        assert(tuple_fits(m.before.words, objs[k], m.next));
        if waiting(before_pop).contains(objs[k]) {
            let j = waiting(before_pop).index_of(objs[k]);
            if j < rest.len() {
                assert(waiting(rest)[j] == objs[k]);
            } else {
                assert(waiting(before_pop)[j] == at);
            }
        }
    }
}

/// A tuple all of whose elements have been looked at has been scanned.
pub proof fn lemma_scanned(
    m: Marking,
    words: Seq<i64>,
    pending: Seq<usize>,
    current: int,
    roots_done: int,
)
    requires
        current != -1,
        marking(m, words, pending, current, roots_done, size_at(m.before.words, current)),
    ensures
        marking(m, words, pending, -1, roots_done, 0),
{
    reveal(marking);
    lemma_same_layout(m.before.words, words, m.next, m.objs);
    let k = m.objs.index_of(current);
    assert(size_at(words, m.objs[k]) == size_at(m.before.words, m.objs[k]));
}

/// When every root has been looked at and no tuple waits, the marked
/// tuples are closed under reference.
pub proof fn lemma_marking_ends(m: Marking, words: Seq<i64>, elems_done: int)
    requires
        marking(m, words, Seq::empty(), -1, m.roots.len() as int, elems_done),
    ensures
        marks_only(words, m.before.words, m.objs),
        marks_closed(words, m.before.start, m.roots, m.objs),
        marks_reachable(words, m.before, m.roots, m.objs),
{
    reveal(marking);
    assert(waiting(Seq::<usize>::empty()) =~= Seq::<int>::empty());
    assert forall|k: int|
        0 <= k < m.objs.len() && words[#[trigger] m.objs[k]] != 0 implies elements_marked(
        words,
        m.before.start,
        m.objs[k],
        size_at(words, m.objs[k]),
    ) by {
        assert(tuple_fits(m.before.words, m.objs[k], m.next));
    }
}

/// Looks at the next word: marks the tuple that it refers to, if it refers
/// to one that has no mark yet, and lets that tuple wait to be scanned.
fn mark_value(
    heap: &mut Heap,
    v: i64,
    pending: &mut Vec<usize>,
    Ghost(m): Ghost<Marking>,
    Ghost(current): Ghost<int>,
    Ghost(roots_done): Ghost<int>,
    Ghost(elems_done): Ghost<int>,
)
    requires
        old(heap).start == m.before.start,
        marking(m, old(heap)@.words, old(pending)@, current, roots_done, elems_done),
        is_next(m, old(heap)@.words, current, roots_done, elems_done, v),
    ensures
        final(heap).start == old(heap).start,
        marking(
            m,
            final(heap)@.words,
            final(pending)@,
            current,
            roots_after(current, roots_done),
            elems_after(current, elems_done),
        ),
        unmarked(final(heap)@.words, m.next, m.objs) <= unmarked(old(heap)@.words, m.next, m.objs),
        unmarked(final(heap)@.words, m.next, m.objs) == unmarked(old(heap)@.words, m.next, m.objs)
            ==> final(pending)@ == old(pending)@,
{
    proof {
        lemma_next_word(m, heap@.words, pending@, current, roots_done, elems_done, v);
    }
    if !word_is_reference(v) {
        proof {
            lemma_step_kept(m, heap@.words, pending@, current, roots_done, elems_done, v);
        }
        return ;
    }
    proof {
        assert(is_reference(v));
        assert(v - 1 - heap.start == 8 * cell_of(heap.start, v));
        assert(heap@.words.len() == heap.words.len());
    }
    let offset: i64 = v - 1 - heap.start;
    let cell: i64 = offset / 8;
    assert(cell == cell_of(heap.start, v));
    assert(0 <= cell < heap.words.len());
    let at: usize = cell as usize;
    if heap.words[at] != 0 {
        proof {
            lemma_step_kept(m, heap@.words, pending@, current, roots_done, elems_done, v);
        }
        return ;
    }
    proof {
        lemma_step_marked(m, heap@.words, pending@, current, roots_done, elems_done, v, at);
    }
    heap.words[at] = 1;
    pending.push(at);
}

/// Marks the tuples that the elements of the marked tuple at `at` refer
/// to.
fn scan_tuple(heap: &mut Heap, at: usize, pending: &mut Vec<usize>, Ghost(m): Ghost<Marking>)
    requires
        old(heap).start == m.before.start,
        marking(m, old(heap)@.words, old(pending)@, at as int, m.roots.len() as int, 0),
    ensures
        final(heap).start == old(heap).start,
        marking(m, final(heap)@.words, final(pending)@, -1, m.roots.len() as int, 0),
        unmarked(final(heap)@.words, m.next, m.objs) <= unmarked(old(heap)@.words, m.next, m.objs),
        unmarked(final(heap)@.words, m.next, m.objs) == unmarked(old(heap)@.words, m.next, m.objs)
            ==> final(pending)@ == old(pending)@,
{
    let ghost all = m.roots.len() as int;
    proof {
        lemma_current_tuple(m, heap@.words, pending@, at as int, all, 0);
        assert(heap@.words.len() == heap.words.len());
        assert(heap@.words[at + 1] >= 0);
        assert(size_at(m.before.words, at as int) >= 0);
        assert(at + 2 <= heap.words.len());
    }
    let size: usize = (heap.words[at + 1] / 2) as usize;
    let mut t: usize = 0;
    while t < size
        invariant
            t <= size,
            size == size_at(m.before.words, at as int),
            all == m.roots.len(),
            heap.start == m.before.start,
            marking(m, heap@.words, pending@, at as int, all, t as int),
            unmarked(heap@.words, m.next, m.objs) <= unmarked(old(heap)@.words, m.next, m.objs),
            unmarked(heap@.words, m.next, m.objs) == unmarked(old(heap)@.words, m.next, m.objs)
                ==> pending@ == old(pending)@,
        decreases size - t,
    {
        proof {
            lemma_current_tuple(m, heap@.words, pending@, at as int, all, t as int);
            assert(heap@.words.len() == heap.words.len());
            assert(at + 2 + size <= heap.words.len());
        }
        let e = heap.words[at + 2 + t];
        assert(e == elem(heap@.words, at as int, t as int));
        mark_value(heap, e, pending, Ghost(m), Ghost(at as int), Ghost(all), Ghost(t as int));
        t += 1;
    }
    proof {
        lemma_scanned(m, heap@.words, pending@, at as int, all);
    }
}

/// The first phase: marks every tuple that the stack refers to, directly
/// or through other tuples. Tuples wait in a list to be scanned, so that the
/// phase needs no more of the machine's stack for a deep heap than for a
/// flat one.
pub fn mark(heap: &mut Heap, roots: &Vec<i64>, Ghost(next): Ghost<int>, Ghost(objs): Ghost<Seq<int>>)
    requires
        laid_out(old(heap)@, next, roots@, objs),
    ensures
        final(heap).start == old(heap).start,
        marks_only(final(heap)@.words, old(heap)@.words, objs),
        marks_closed(final(heap)@.words, final(heap).start, roots@, objs),
        marks_reachable(final(heap)@.words, old(heap)@, roots@, objs),
{
    let ghost m = Marking { before: heap@, next, objs, roots: roots@ };
    let mut pending: Vec<usize> = Vec::new();
    let mut r: usize = 0;
    proof {
        lemma_marking_starts(m);
        assert(pending@ =~= Seq::<usize>::empty());
    }
    while r < roots.len()
        invariant
            r <= roots.len(),
            m.roots == roots@,
            heap.start == m.before.start,
            marking(m, heap@.words, pending@, -1, r as int, 0),
        decreases roots.len() - r,
    {
        mark_value(heap, roots[r], &mut pending, Ghost(m), Ghost(-1), Ghost(r as int), Ghost(0));
        r += 1;
    }
    while pending.len() > 0
        invariant
            m.roots == roots@,
            heap.start == m.before.start,
            marking(m, heap@.words, pending@, -1, roots.len() as int, 0),
        decreases unmarked(heap@.words, m.next, m.objs), pending.len(),
    {
        let ghost list = pending@;
        let at = pending.pop().unwrap();
        proof {
            assert(list =~= pending@.push(at));
            lemma_taken(m, heap@.words, pending@, at);
        }
        scan_tuple(heap, at, &mut pending, Ghost(m));
    }
    proof {
        assert(pending@ =~= Seq::<usize>::empty());
        lemma_marking_ends(m, heap@.words, 0);
    }
}

} // verus!
