//! The heap as the runtime sees it: a run of words at an address, in which
//! a tuple is a word for the collector, its size as a number, and its
//! elements.

use vstd::prelude::*;
use vstd::set_lib::*;
use crate::value::{is_reference, word_is_reference};

verus! {

/// A heap: the address of its first word, and its words.
#[derive(Debug)]
pub struct Heap {
    pub start: i64,
    pub words: Vec<i64>,
}

/// What a heap is.
pub struct HeapView {
    pub start: i64,
    pub words: Seq<i64>,
}

impl View for Heap {
    type V = HeapView;

    open spec fn view(&self) -> HeapView {
        HeapView { start: self.start, words: self.words@ }
    }
}

/// A tuple in a heap: the index of its first word, and its size.
pub struct Place {
    pub at: int,
    pub size: int,
}

/// The tuple that the word `v` refers to: `v` is a reference, the address
/// `v - 1` is that of a word of the heap, the word after it is a number that
/// is not negative, and the heap holds that many words after it. `None`
/// where `v` refers to no tuple.
pub open spec fn tuple_at(h: HeapView, v: i64) -> Option<Place> {
    let at = (v - 1 - h.start) / 8;
    if is_reference(v) && v - 1 >= h.start && (v - 1 - h.start) % 8 == 0 && at + 1
        < h.words.len() && h.words[at + 1] >= 0 && h.words[at + 1] % 2 == 0 && at + 2
        + h.words[at + 1] / 2 <= h.words.len() {
        Some(Place { at, size: h.words[at + 1] / 2 })
    } else {
        None
    }
}

/// Element `k` of the tuple at `p`.
pub open spec fn element(h: HeapView, p: Place, k: int) -> i64 {
    h.words[p.at + 2 + k]
}

/// The cells of a heap of `len` words that are not in `seen`, counted.
pub open spec fn room(len: nat, seen: Set<int>) -> nat {
    set_int_range(0, len as int).difference(seen).len()
}

/// A set that gains a cell of the heap leaves less room.
pub proof fn lemma_room_shrinks(len: nat, seen: Set<int>, i: int)
    requires
        0 <= i < len,
        !seen.contains(i),
    ensures
        room(len, seen.insert(i)) < room(len, seen),
{
    let all = set_int_range(0, len as int);
    lemma_int_range(0, len as int);
    let before = all.difference(seen);
    let after = all.difference(seen.insert(i));
    assert(after =~= before.remove(i));
    assert(before.contains(i));
    assert(before.finite());
}

impl Heap {
    /// The tuple that `v` refers to, as the index of its first word and its
    /// size.
    pub fn tuple(&self, v: i64) -> (r: Option<(usize, usize)>)
        ensures
            match r {
                Some((at, size)) => tuple_at(self@, v) == Some(
                    Place { at: at as int, size: size as int },
                ) && at + 2 + size <= self.words.len(),
                None => tuple_at(self@, v) is None,
            },
    {
        if !word_is_reference(v) {
            return None;
        }
        let offset: i128 = v as i128 - 1 - self.start as i128;
        if offset < 0 || offset % 8 != 0 {
            return None;
        }
        let at: i128 = offset / 8;
        let len = self.words.len();
        if at + 1 >= len as i128 {
            return None;
        }
        let at: usize = at as usize;
        let header = self.words[at + 1];
        if header < 0 || header % 2 != 0 {
            return None;
        }
        let size: i64 = header / 2;
        if at as i128 + 2 + size as i128 > len as i128 {
            return None;
        }
        Some((at, size as usize))
    }
}

} // verus!
