//! The printer: the text of a value, which ends on every heap, cyclic ones
//! too.

use std::collections::HashSet;
use vstd::prelude::*;
use crate::decimal::{
    int_text, lemma_digits_round_trip, lemma_int_text_round_trip, push_i64, nat_text,
};
use crate::heap::{element, lemma_room_shrinks, room, tuple_at, Heap, HeapView, Place};
use crate::runtime::input_value;
use crate::value::{
    decode, decode_number, encode, is_number, representable, word_is_number, FALSE_VAL, NIL_VAL,
    TRUE_VAL,
};

verus! {

/// The text of the value `v`. `seen` holds the tuples that are being
/// printed around `v`, by the index of their first word: a tuple among them
/// is printed as `(tuple ...)` and not entered again.
pub open spec fn print_value(h: HeapView, v: i64, seen: Set<int>) -> Seq<char>
    decreases room(h.words.len(), seen), 0nat, 0nat,
{
    if v == TRUE_VAL {
        "true"@
    } else if v == FALSE_VAL {
        "false"@
    } else if is_number(v) {
        int_text(decode(v))
    } else if v == NIL_VAL {
        "nil"@
    } else {
        match tuple_at(h, v) {
            None => "Unknown value: "@ + int_text(v as int),
            Some(p) => if seen.contains(p.at) {
                "(tuple ...)"@
            } else {
                proof {
                    lemma_room_shrinks(h.words.len(), seen, p.at);
                }
                "(tuple"@ + print_elements(h, p, p.size, seen.insert(p.at)) + ")"@
            },
        }
    }
}

/// The text of the first `k` elements of the tuple at `p`, each after a
/// blank.
pub open spec fn print_elements(h: HeapView, p: Place, k: int, seen: Set<int>) -> Seq<char>
    decreases room(h.words.len(), seen), 1nat, k,
{
    if k <= 0 {
        Seq::empty()
    } else {
        print_elements(h, p, k - 1, seen) + " "@ + print_value(h, element(h, p, k - 1), seen)
    }
}

/// The cells that a set of indices holds, as integers.
pub open spec fn cells(seen: Set<usize>) -> Set<int> {
    Set::new(|j: int| 0 <= j <= usize::MAX && seen.contains(j as usize))
}

/// Appends the text of `val` to `out`. `seen` holds the tuples that are
/// being printed around `val`, and is left as it was.
pub fn write_value(out: &mut String, val: i64, heap: &Heap, seen: &mut HashSet<usize>)
    ensures
        final(out)@ == old(out)@ + print_value(heap@, val, cells(old(seen)@)),
        final(seen)@ == old(seen)@,
    decreases room(heap.words.len() as nat, cells(old(seen)@)), 0nat, 0nat,
{
    broadcast use vstd::std_specs::hash::group_hash_axioms;

    if val == TRUE_VAL {
        out.append("true");
    } else if val == FALSE_VAL {
        out.append("false");
    } else if word_is_number(val) {
        push_i64(out, decode_number(val));
    } else if val == NIL_VAL {
        out.append("nil");
    } else {
        match heap.tuple(val) {
            None => {
                out.append("Unknown value: ");
                push_i64(out, val);
                assert(out@ =~= old(out)@ + ("Unknown value: "@ + int_text(val as int)));
            },
            Some((at, size)) => {
                if seen.contains(&at) {
                    out.append("(tuple ...)");
                } else {
                    let ghost p = Place { at: at as int, size: size as int };
                    let ghost outer = cells(seen@);
                    seen.insert(at);
                    let ghost inner = cells(seen@);
                    proof {
                        assert(inner =~= outer.insert(at as int));
                        lemma_room_shrinks(heap.words.len() as nat, outer, at as int);
                    }
                    out.append("(tuple");
                    let ghost start = out@;
                    let mut k: usize = 0;
                    assert(start + print_elements(heap@, p, 0, inner) =~= start);
                    while k < size
                        invariant
                            k <= size,
                            at + 2 + size <= heap.words.len(),
                            cells(seen@) == inner,
                            seen@ == old(seen)@.insert(at),
                            room(heap.words.len() as nat, inner) < room(
                                heap.words.len() as nat,
                                outer,
                            ),
                            outer == cells(old(seen)@),
                            p == (Place { at: at as int, size: size as int }),
                            out@ == start + print_elements(heap@, p, k as int, inner),
                        decreases size - k,
                    {
                        let ghost before = out@;
                        out.append(" ");
                        write_value(out, heap.words[at + 2 + k], heap, seen);
                        k += 1;
                        assert(out@ =~= start + print_elements(heap@, p, k as int, inner));
                    }
                    out.append(")");
                    seen.remove(&at);
                    assert(seen@ =~= old(seen)@);
                    assert(out@ =~= old(out)@ + ("(tuple"@ + print_elements(
                        heap@,
                        p,
                        p.size,
                        inner,
                    ) + ")"@));
                }
            },
        }
    }
}

/// The text of `val`, where `seen` holds the tuples that are being printed
/// around it.
pub fn snek_str(val: i64, heap: &Heap, seen: &mut HashSet<usize>) -> (s: String)
    ensures
        s@ == print_value(heap@, val, cells(old(seen)@)),
        final(seen)@ == old(seen)@,
{
    let mut s = String::new();
    write_value(&mut s, val, heap, seen);
    assert(Seq::<char>::empty() + print_value(heap@, val, cells(old(seen)@)) =~= print_value(
        heap@,
        val,
        cells(old(seen)@),
    ));
    s
}

/// The line that the runtime prints for `value`.
pub fn snek_print(value: i64, heap: &Heap) -> (s: String)
    ensures
        s@ == print_value(heap@, value, Set::empty()),
{
    broadcast use vstd::std_specs::hash::group_hash_axioms;

    let mut seen: HashSet<usize> = HashSet::new();
    assert(cells(seen@) =~= Set::<int>::empty());
    snek_str(value, heap, &mut seen)
}

/// A number is printed as its decimal text, whatever the heap holds, and
/// the runtime reads that text back as the same number.
pub proof fn lemma_number_round_trip(h: HeapView, n: int, seen: Set<int>)
    requires
        representable(n),
    ensures
        print_value(h, encode(n) as i64, seen) == int_text(n),
        input_value(print_value(h, encode(n) as i64, seen)) == Some(encode(n) as i64),
{
    let v = encode(n) as i64;
    assert(is_number(v));
    assert(decode(v) == n);
    lemma_int_text_round_trip(n);
    let t = int_text(n);
    reveal_strlit("true");
    reveal_strlit("false");
    if n < 0 {
        assert(t[0] == '-');
    } else {
        lemma_digits_round_trip(n as nat);
        assert(t[0] == nat_text(n as nat)[0]);
    }
    assert(t != "true"@);
    assert(t != "false"@);
}

} // verus!
