//! The stack as the collector sees it: the words from the stack pointer up
//! to the base of the stack, in which the frames are chained. The word at a
//! frame pointer holds the frame pointer of the caller, and the word after
//! it the address that the callee returns to; every other word is a value.

use vstd::prelude::*;

verus! {

/// The stack: the address of its lowest word (the stack pointer), its
/// words from there up to the base of the stack, and the frame pointer.
#[derive(Debug)]
pub struct Stack {
    pub low: i64,
    pub words: Vec<i64>,
    pub frame: i64,
}

/// What a stack is.
pub struct StackView {
    pub low: i64,
    pub words: Seq<i64>,
    pub frame: i64,
}

impl View for Stack {
    type V = StackView;

    open spec fn view(&self) -> StackView {
        StackView { low: self.low, words: self.words@, frame: self.frame }
    }
}

/// The indices of the words from `at` on that hold values, in order, where
/// `frame` is the address of the next saved frame pointer. The word at
/// that address and the word after it are left out, and the chain goes on
/// with the frame pointer that the first of them holds.
pub open spec fn value_places(words: Seq<i64>, low: i64, at: int, frame: i64) -> Seq<int>
    decreases words.len() - at,
{
    if at < 0 || at >= words.len() {
        Seq::empty()
    } else if low + 8 * at == frame {
        if at + 2 <= words.len() {
            value_places(words, low, at + 2, words[at])
        } else {
            Seq::empty()
        }
    } else {
        seq![at] + value_places(words, low, at + 1, frame)
    }
}

/// The indices of the words of the stack that hold values.
pub open spec fn places_of(s: StackView) -> Seq<int> {
    value_places(s.words, s.low, 0, s.frame)
}

/// The values on the stack, from the stack pointer up.
pub open spec fn roots_of(s: StackView) -> Seq<i64> {
    Seq::new(places_of(s).len(), |k: int| s.words[places_of(s)[k]])
}

/// Whether the indices of `p` lie from `at` on within `len`, in rising
/// order.
pub open spec fn rising(p: Seq<int>, at: int, len: int) -> bool {
    &&& forall|k: int| 0 <= k < p.len() ==> at <= #[trigger] p[k] < len
    &&& forall|j: int, k: int| 0 <= j < k < p.len() ==> p[j] < p[k]
}

/// The places of values lie in the stack, in rising order.
pub proof fn lemma_places_rise(words: Seq<i64>, low: i64, at: int, frame: i64)
    requires
        0 <= at,
    ensures
        rising(value_places(words, low, at, frame), at, words.len() as int),
    decreases words.len() - at,
{
    let all = value_places(words, low, at, frame);
    if at >= words.len() {
        assert(all =~= Seq::<int>::empty());
    } else if low + 8 * at == frame {
        if at + 2 <= words.len() {
            lemma_places_rise(words, low, at + 2, words[at]);
            assert(all == value_places(words, low, at + 2, words[at]));
        } else {
            assert(all =~= Seq::<int>::empty());
        }
    } else {
        lemma_places_rise(words, low, at + 1, frame);
        let rest = value_places(words, low, at + 1, frame);
        assert(all == seq![at] + rest);
        assert forall|k: int| 0 <= k < all.len() implies at <= #[trigger] all[k] < words.len() by {
            if k > 0 {
                assert(all[k] == rest[k - 1]);
            }
        }
        assert forall|j: int, k: int| 0 <= j < k < all.len() implies all[j] < all[k] by {
            assert(all[k] == rest[k - 1]);
            if j > 0 {
                assert(all[j] == rest[j - 1]);
            }
        }
    }
}

/// Words that differ at places of values only hold values at the same
/// places.
pub proof fn lemma_same_places(a: Seq<i64>, b: Seq<i64>, low: i64, at: int, frame: i64)
    requires
        0 <= at,
        a.len() == b.len(),
        forall|i: int|
            at <= i < a.len() && !value_places(a, low, at, frame).contains(i) ==> a[i] == b[i],
    ensures
        value_places(b, low, at, frame) == value_places(a, low, at, frame),
    decreases a.len() - at,
{
    if at >= a.len() {
    } else if low + 8 * at == frame {
        let all = value_places(a, low, at, frame);
        assert(!all.contains(at)) by {
            if at + 2 <= a.len() {
                lemma_places_rise(a, low, at + 2, a[at]);
                assert(all == value_places(a, low, at + 2, a[at]));
                if all.contains(at) {
                    let k = all.index_of(at);
                    assert(all[k] >= at + 2);
                }
            } else {
                assert(all =~= Seq::<int>::empty());
            }
        }
        assert(a[at] == b[at]);
        if at + 2 <= a.len() {
            assert(all == value_places(a, low, at + 2, a[at]));
            lemma_same_places(a, b, low, at + 2, a[at]);
        }
    } else {
        let rest = value_places(a, low, at + 1, frame);
        let all = value_places(a, low, at, frame);
        assert forall|i: int| at + 1 <= i < a.len() && !rest.contains(i) implies a[i] == b[i] by {
            if all.contains(i) {
                let k = all.index_of(i);
                assert(all[k] == rest[k - 1]);
            }
        }
        lemma_same_places(a, b, low, at + 1, frame);
    }
}

impl Stack {
    /// The indices of the words that hold values: every word but those at
    /// the frame pointers of the chain and the words after them.
    pub fn places(&self) -> (r: Vec<usize>)
        ensures
            r@.len() == places_of(self@).len(),
            forall|k: int| 0 <= k < r@.len() ==> #[trigger] r@[k] == places_of(self@)[k],
    {
        let ghost all = places_of(self@);
        let mut out: Vec<usize> = Vec::new();
        let mut at: usize = 0;
        let mut frame: i64 = self.frame;
        let ghost mut done: Seq<int> = Seq::empty();
        assert(done + value_places(self@.words, self.low, 0, frame) =~= all);
        while at < self.words.len()
            invariant
                all == places_of(self@),
                done.len() == out@.len(),
                forall|k: int| 0 <= k < out@.len() ==> #[trigger] out@[k] == done[k],
                done + value_places(self@.words, self.low, at as int, frame) == all,
            decreases self.words.len() - at,
        {
            let ghost rest = value_places(self@.words, self.low, at as int, frame);
            if self.low as i128 + 8 * (at as i128) == frame as i128 {
                frame = self.words[at];
                if at >= self.words.len() - 1 {
                    at = self.words.len();
                } else {
                    at = at + 2;
                }
            } else {
                out.push(at);
                proof {
                    let next_rest = value_places(self@.words, self.low, at + 1, frame);
                    assert(done.push(at as int) + next_rest =~= done + (seq![at as int] + next_rest));
                    done = done.push(at as int);
                }
                at = at + 1;
            }
        }
        proof {
            assert(done + Seq::<int>::empty() =~= done);
        }
        out
    }

    /// The values on the stack, from the stack pointer up.
    pub fn roots(&self) -> (r: Vec<i64>)
        ensures
            r@ == roots_of(self@),
    {
        let places = self.places();
        proof {
            lemma_places_rise(self@.words, self.low, 0, self.frame);
        }
        let mut out: Vec<i64> = Vec::new();
        let mut k: usize = 0;
        while k < places.len()
            invariant
                k <= places.len(),
                places@.len() == places_of(self@).len(),
                forall|j: int| 0 <= j < places@.len() ==> #[trigger] places@[j] == places_of(self@)[j],
                rising(places_of(self@), 0, self.words.len() as int),
                out@.len() == k,
                forall|j: int| 0 <= j < k ==> #[trigger] out@[j] == roots_of(self@)[j],
            decreases places.len() - k,
        {
            assert(places@[k as int] == places_of(self@)[k as int]);
            out.push(self.words[places[k]]);
            k += 1;
        }
        assert(out@ =~= roots_of(self@));
        out
    }

    /// Replaces the values on the stack by `roots`, in order.
    pub fn set_roots(&mut self, roots: &Vec<i64>)
        requires
            roots@.len() == roots_of(old(self)@).len(),
        ensures
            final(self).low == old(self).low,
            final(self).frame == old(self).frame,
            final(self)@.words.len() == old(self)@.words.len(),
            places_of(final(self)@) == places_of(old(self)@),
            roots_of(final(self)@) == roots@,
            forall|i: int|
                0 <= i < old(self)@.words.len() && !places_of(old(self)@).contains(i)
                    ==> #[trigger] final(self)@.words[i] == old(self)@.words[i],
    {
        let places = self.places();
        let ghost all = places_of(self@);
        let ghost was = self@.words;
        proof {
            lemma_places_rise(was, self.low, 0, self.frame);
        }
        let mut k: usize = 0;
        while k < places.len()
            invariant
                k <= places.len(),
                self.low == old(self).low,
                self.frame == old(self).frame,
                was == old(self)@.words,
                all == places_of(old(self)@),
                self@.words.len() == was.len(),
                places@.len() == all.len(),
                roots@.len() == all.len(),
                forall|j: int| 0 <= j < places@.len() ==> #[trigger] places@[j] == all[j],
                rising(all, 0, was.len() as int),
                forall|j: int| 0 <= j < k ==> self@.words[#[trigger] all[j]] == roots@[j],
                forall|j: int| k <= j < all.len() ==> self@.words[#[trigger] all[j]] == was[all[j]],
                forall|i: int|
                    0 <= i < was.len() && !all.contains(i) ==> #[trigger] self@.words[i] == was[i],
            decreases places.len() - k,
        {
            assert(places@[k as int] == all[k as int]);
            let ghost before = self@.words;
            self.words[places[k]] = roots[k];
            proof {
                assert forall|j: int| 0 <= j < k + 1 implies self@.words[#[trigger] all[j]]
                    == roots@[j] by {
                    if j < k {
                        assert(all[j] < all[k as int]);
                        assert(before[all[j]] == roots@[j]);
                    }
                }
                assert forall|j: int| k + 1 <= j < all.len() implies self@.words[#[trigger] all[j]]
                    == was[all[j]] by {
                    assert(all[k as int] < all[j]);
                    assert(before[all[j]] == was[all[j]]);
                }
            }
            k += 1;
        }
        proof {
            lemma_same_places(was, self@.words, self.low, 0, self.frame);
            assert(roots_of(self@) =~= roots@);
        }
    }
}

} // verus!
