use snek::checker::is_well_formed;
use snek::collector::{gc, snek_try_gc};
use snek::equality::snek_tuple_equal;
use snek::heap::Heap;
use snek::printer::{snek_print, snek_str};
use snek::runtime::{parse_input, snek_error};
use snek::stack::Stack;
use std::collections::HashSet;

const START: i64 = 0x1000;

/// The reference to the tuple whose first word has index `i`.
fn at(i: i64) -> i64 {
    START + 8 * i + 1
}

/// A heap of `len` words that starts with `words`.
fn heap_of(words: &[i64], len: usize) -> Heap {
    let mut all = words.to_vec();
    all.resize(len, 0);
    Heap { start: START, words: all }
}

fn num(n: i64) -> i64 {
    2 * n
}

#[test]
fn input_words() {
    assert_eq!(parse_input("false"), Some(3));
    assert_eq!(parse_input("true"), Some(7));
    assert_eq!(parse_input("0"), Some(0));
    assert_eq!(parse_input("10"), Some(20));
    assert_eq!(parse_input("-7"), Some(-14));
    assert_eq!(parse_input("+7"), Some(14));
    assert_eq!(parse_input("007"), Some(14));
    assert_eq!(parse_input("4611686018427387903"), Some(9223372036854775806));
    assert_eq!(parse_input("-4611686018427387904"), Some(i64::MIN));
}

#[test]
fn input_that_is_no_value() {
    assert_eq!(parse_input(""), None);
    assert_eq!(parse_input("-"), None);
    assert_eq!(parse_input("+"), None);
    assert_eq!(parse_input("12a"), None);
    assert_eq!(parse_input("nil"), None);
    assert_eq!(parse_input("1.5"), None);
    assert_eq!(parse_input("4611686018427387904"), None);
    assert_eq!(parse_input("-4611686018427387905"), None);
    assert_eq!(parse_input("99999999999999999999999999"), None);
}

#[test]
fn printed_numbers_are_read_back() {
    let heap = heap_of(&[], 4);
    for n in [0i64, 1, -1, 10, -7, 3628800, 4611686018427387903, -4611686018427387904] {
        let text = snek_print(num(n), &heap);
        assert_eq!(text, n.to_string());
        assert_eq!(parse_input(&text), Some(num(n)));
    }
}

#[test]
fn every_error_code_has_its_own_text() {
    let texts: Vec<String> = (1..=7).map(snek_error).collect();
    for i in 0..texts.len() {
        for j in 0..i {
            assert_ne!(texts[i], texts[j]);
        }
    }
    assert_eq!(snek_error(1), "invalid argument - not a boolean");
    assert_eq!(snek_error(2), "invalid argument - not a number");
    assert_eq!(
        snek_error(3),
        "invalid argument - not the same type when comparing for equality!"
    );
    assert_eq!(snek_error(4), "overflow");
    assert_eq!(snek_error(5), "invalid argument - not a tuple");
    assert_eq!(snek_error(6), "out of bounds tuple indexing error");
    assert_eq!(snek_error(7), "tuple null pointer exception!");
    assert_eq!(snek_error(0), "unknown error");
    assert_eq!(snek_error(8), "unknown error");
}

#[test]
fn plain_values_print() {
    let heap = heap_of(&[], 4);
    assert_eq!(snek_print(7, &heap), "true");
    assert_eq!(snek_print(3, &heap), "false");
    assert_eq!(snek_print(1, &heap), "nil");
    assert_eq!(snek_print(num(42), &heap), "42");
    assert_eq!(snek_print(num(-5), &heap), "-5");
}

#[test]
fn tuple_of_size_one_prints() {
    let heap = heap_of(&[0, num(1), num(9)], 8);
    assert_eq!(snek_print(at(0), &heap), "(tuple 9)");
}

#[test]
fn tuple_with_nil_element_prints() {
    // (tuple 5 (tuple 2 nil nil) nil)
    let heap = heap_of(&[0, num(3), num(2), 1, 1, 0, num(3), num(5), at(0), 1], 16);
    assert_eq!(snek_print(at(5), &heap), "(tuple 5 (tuple 2 nil nil) nil)");
}

#[test]
fn nested_tuple_prints() {
    // (tuple 1 (tuple 2 3) 4)
    let heap = heap_of(&[0, num(2), num(2), num(3), 0, num(3), num(1), at(0), num(4)], 16);
    assert_eq!(snek_print(at(4), &heap), "(tuple 1 (tuple 2 3) 4)");
}

#[test]
fn self_referential_tuple_prints_and_ends() {
    // t = (tuple 1 t)
    let heap = heap_of(&[0, num(2), num(1), at(0)], 8);
    assert_eq!(snek_print(at(0), &heap), "(tuple 1 (tuple ...))");
    // two tuples that refer to each other
    let heap = heap_of(&[0, num(1), at(3), 0, num(1), at(0)], 8);
    assert_eq!(snek_print(at(0), &heap), "(tuple (tuple (tuple ...)))");
}

#[test]
fn a_tuple_shared_twice_is_printed_twice() {
    // s = (tuple 7); t = (tuple s s)
    let heap = heap_of(&[0, num(1), num(7), 0, num(2), at(0), at(0)], 8);
    assert_eq!(snek_print(at(3), &heap), "(tuple (tuple 7) (tuple 7))");
}

#[test]
fn printing_leaves_the_set_as_it_was() {
    let heap = heap_of(&[0, num(1), num(7), 0, num(2), at(0), at(0)], 8);
    let mut seen: HashSet<usize> = HashSet::new();
    seen.insert(3);
    assert_eq!(snek_str(at(3), &heap, &mut seen), "(tuple ...)");
    assert_eq!(snek_str(at(0), &heap, &mut seen), "(tuple 7)");
    assert_eq!(seen.len(), 1);
    assert!(seen.contains(&3));
}

#[test]
fn a_reference_to_no_tuple_is_printed_as_unknown() {
    let heap = heap_of(&[0, num(1), num(7)], 3);
    // odd, but not the address of a heap word plus 1
    assert_eq!(snek_print(at(0) + 2, &heap), format!("Unknown value: {}", at(0) + 2));
    // past the end of the heap
    assert_eq!(snek_print(at(9), &heap), format!("Unknown value: {}", at(9)));
    // a size that does not fit
    let heap = heap_of(&[0, num(5), num(7)], 3);
    assert_eq!(snek_print(at(0), &heap), format!("Unknown value: {}", at(0)));
}

#[test]
fn equal_values() {
    // a = (tuple 1 (tuple 2 3)), b = (tuple 1 (tuple 2 3)), c = (tuple 1 (tuple 2 4))
    let heap = heap_of(
        &[
            0, num(2), num(2), num(3), // 0: (2 3)
            0, num(2), num(1), at(0), // 4: a
            0, num(2), num(2), num(3), // 8: (2 3)
            0, num(2), num(1), at(8), // 12: b
            0, num(2), num(2), num(4), // 16: (2 4)
            0, num(2), num(1), at(16), // 20: c
        ],
        32,
    );
    assert_eq!(snek_tuple_equal(at(4), at(4), &heap), 7);
    assert_eq!(snek_tuple_equal(at(4), at(12), &heap), 7);
    assert_eq!(snek_tuple_equal(at(12), at(4), &heap), 7);
    assert_eq!(snek_tuple_equal(at(4), at(20), &heap), 3);
    assert_eq!(snek_tuple_equal(at(20), at(4), &heap), 3);
    assert_eq!(snek_tuple_equal(at(0), at(4), &heap), 3);
    assert_eq!(snek_tuple_equal(num(5), num(5), &heap), 7);
    assert_eq!(snek_tuple_equal(num(5), num(6), &heap), 3);
    assert_eq!(snek_tuple_equal(1, at(0), &heap), 3);
    assert_eq!(snek_tuple_equal(7, 7, &heap), 7);
}

#[test]
fn equality_is_an_equivalence() {
    // five tuples: three with the structure (1 (2)), two with (1 (3))
    let heap = heap_of(
        &[
            0, num(1), num(2), // 0: (2)
            0, num(2), num(1), at(0), // 3
            0, num(2), num(1), at(0), // 7
            0, num(1), num(2), // 11: (2)
            0, num(2), num(1), at(11), // 14
            0, num(1), num(3), // 18: (3)
            0, num(2), num(1), at(18), // 21
            0, num(2), num(1), at(18), // 25
        ],
        32,
    );
    let all = [at(3), at(7), at(14), at(21), at(25), at(0), at(18), num(1), 1, 7];
    for a in all {
        assert_eq!(snek_tuple_equal(a, a, &heap), 7);
        for b in all {
            let ab = snek_tuple_equal(a, b, &heap);
            assert_eq!(ab, snek_tuple_equal(b, a, &heap));
            for c in all {
                if ab == 7 && snek_tuple_equal(b, c, &heap) == 7 {
                    assert_eq!(snek_tuple_equal(a, c, &heap), 7);
                }
            }
        }
    }
    assert_eq!(snek_tuple_equal(at(3), at(14), &heap), 7);
    assert_eq!(snek_tuple_equal(at(3), at(21), &heap), 3);
    assert_eq!(snek_tuple_equal(at(21), at(25), &heap), 7);
}

#[test]
fn tuples_of_different_sizes_differ() {
    let heap = heap_of(&[0, num(1), num(7), 0, num(2), num(7), num(7)], 8);
    assert_eq!(snek_tuple_equal(at(0), at(3), &heap), 3);
}

#[test]
fn equality_ends_on_cycles() {
    // a = (tuple 1 a), b = (tuple 1 b), c = (tuple 2 c), d = (tuple 1 (tuple 1 d))
    let heap = heap_of(
        &[
            0, num(2), num(1), at(0), // 0: a
            0, num(2), num(1), at(4), // 4: b
            0, num(2), num(2), at(8), // 8: c
            0, num(2), num(1), at(16), // 12: d
            0, num(2), num(1), at(12), // 16
        ],
        32,
    );
    assert_eq!(snek_tuple_equal(at(0), at(0), &heap), 7);
    assert_eq!(snek_tuple_equal(at(0), at(4), &heap), 7);
    assert_eq!(snek_tuple_equal(at(4), at(0), &heap), 7);
    assert_eq!(snek_tuple_equal(at(0), at(8), &heap), 3);
    // unrolled once, the cycle is the same structure
    assert_eq!(snek_tuple_equal(at(0), at(12), &heap), 7);
    assert_eq!(snek_tuple_equal(at(12), at(4), &heap), 7);
}

#[test]
fn a_difference_behind_a_pair_met_twice_is_found() {
    // x = (tuple p p), y = (tuple q r) where p = (tuple 1), q = (tuple 1), r = (tuple 2)
    let heap = heap_of(
        &[
            0, num(1), num(1), // 0: p
            0, num(1), num(1), // 3: q
            0, num(1), num(2), // 6: r
            0, num(2), at(0), at(0), // 9: x
            0, num(2), at(3), at(6), // 13: y
        ],
        32,
    );
    assert_eq!(snek_tuple_equal(at(9), at(13), &heap), 3);
    assert_eq!(snek_tuple_equal(at(9), at(9), &heap), 7);
}

#[test]
fn well_formed_heaps_are_told_from_others() {
    let heap = heap_of(&[0, num(1), num(7), 0, num(2), at(0), 1], 16);
    assert!(is_well_formed(&heap, 7, &vec![at(3), num(4), 7, 3, 1]));
    // an empty heap
    assert!(is_well_formed(&heap_of(&[], 4), 0, &vec![num(1)]));
    // the allocation pointer inside a tuple
    assert!(!is_well_formed(&heap, 6, &vec![]));
    // past the end of the heap
    assert!(!is_well_formed(&heap, 17, &vec![]));
    // a root that points into a tuple
    assert!(!is_well_formed(&heap, 7, &vec![at(1)]));
    // a root that points past the allocation pointer
    assert!(!is_well_formed(&heap, 7, &vec![at(7)]));
    // an element that points at no tuple
    let bad = heap_of(&[0, num(1), at(2)], 8);
    assert!(!is_well_formed(&bad, 3, &vec![]));
    // a mark left behind
    let bad = heap_of(&[1, num(1), num(7)], 8);
    assert!(!is_well_formed(&bad, 3, &vec![]));
    // an odd size word
    let bad = heap_of(&[0, 3, num(7)], 8);
    assert!(!is_well_formed(&bad, 3, &vec![]));
    // a heap at an address that is no multiple of 8
    let bad = Heap { start: 0x1004, words: vec![0; 4] };
    assert!(!is_well_formed(&bad, 0, &vec![]));
}

#[test]
fn collection_keeps_what_the_stack_refers_to() {
    // 0: dead (tuple 9); 3: a = (tuple 1 nil); 7: dead (tuple a); 10: b = (tuple 2 a)
    let mut heap = heap_of(
        &[
            0, num(1), num(9), // 0
            0, num(2), num(1), 1, // 3
            0, num(1), at(3), // 7
            0, num(2), num(2), at(3), // 10
        ],
        20,
    );
    let mut roots = vec![num(5), at(10), 7, at(3)];
    assert!(is_well_formed(&heap, 14, &roots));
    let before_b = snek_print(at(10), &heap);
    let before_a = snek_print(at(3), &heap);
    let old = Heap { start: heap.start, words: heap.words.clone() };
    let next = gc(&mut heap, 14, &mut roots);
    assert_eq!(next, 8);
    assert_eq!(roots, vec![num(5), at(4), 7, at(0)]);
    assert_eq!(&heap.words[..8], &[0, num(2), num(1), 1, 0, num(2), num(2), at(0)]);
    assert!(is_well_formed(&heap, next, &roots));
    assert_eq!(snek_print(roots[1], &heap), before_b);
    assert_eq!(snek_print(roots[3], &heap), before_a);
    assert_eq!(before_b, "(tuple 2 (tuple 1 nil))");
    // what the stack held is structurally equal to what it holds, heap by heap
    assert_eq!(snek_print(at(10), &old), snek_print(roots[1], &heap));
}

#[test]
fn collection_keeps_cycles() {
    // 0: dead; 3: a = (tuple 1 b); 7: b = (tuple a 2)
    let mut heap = heap_of(
        &[0, num(1), num(9), 0, num(2), num(1), at(7), 0, num(2), at(3), num(2)],
        16,
    );
    let mut roots = vec![at(7)];
    assert!(is_well_formed(&heap, 11, &roots));
    let before = snek_print(roots[0], &heap);
    let next = gc(&mut heap, 11, &mut roots);
    assert_eq!(next, 8);
    assert_eq!(roots, vec![at(4)]);
    assert_eq!(snek_print(roots[0], &heap), before);
    assert_eq!(before, "(tuple (tuple 1 (tuple ...)) 2)");
    assert!(is_well_formed(&heap, next, &roots));
}

#[test]
fn collection_of_a_heap_without_garbage_changes_nothing() {
    let words = [0, num(1), num(7), 0, num(2), at(0), 1];
    let mut heap = heap_of(&words, 16);
    let mut roots = vec![at(3)];
    let next = gc(&mut heap, 7, &mut roots);
    assert_eq!(next, 7);
    assert_eq!(roots, vec![at(3)]);
    assert_eq!(&heap.words[..7], &words);
}

#[test]
fn collection_with_an_empty_stack_frees_the_heap() {
    let mut heap = heap_of(&[0, num(1), num(7), 0, num(2), at(0), 1], 16);
    let mut roots: Vec<i64> = vec![];
    assert_eq!(gc(&mut heap, 7, &mut roots), 0);
}

/// A stack of one frame that holds `words` and nothing else.
fn flat_stack(words: &[i64]) -> Stack {
    let low = 0x7000;
    Stack { low, words: words.to_vec(), frame: low + 8 * words.len() as i64 }
}

#[test]
fn try_gc_reports_a_full_heap() {
    let words = [0, num(1), num(7), 0, num(2), at(0), 1];
    let mut heap = heap_of(&words, 10);
    let mut stack = flat_stack(&[at(3)]);
    // everything is live: 3 words are free, 4 are asked for
    assert_eq!(snek_try_gc(4, &mut heap, 7, &mut stack), None);
    assert_eq!(snek_try_gc(3, &mut heap, 7, &mut stack), Some(7));
    // with only the first tuple live, its three words are in use
    let mut stack = flat_stack(&[at(0)]);
    assert_eq!(snek_try_gc(7, &mut heap, 7, &mut stack), Some(3));
    assert_eq!(stack.words, vec![at(0)]);
}

#[test]
fn saved_frame_pointers_and_return_addresses_are_no_values() {
    // Three frames. The innermost one has the frame pointer 0x7010; the
    // word there holds the frame pointer of its caller, 0x7030, and the word
    // after it a return address that looks like a reference.
    let low = 0x7000;
    let words = vec![
        num(1),       // 0x7000
        at(3),        // 0x7008
        0x7030,       // 0x7010: saved frame pointer
        at(1) + 4,    // 0x7018: return address
        at(0),        // 0x7020
        7,            // 0x7028
        0x7048,       // 0x7030: saved frame pointer
        0x40_0123,    // 0x7038: return address
        at(3),        // 0x7040
    ];
    let stack = Stack { low, words: words.clone(), frame: 0x7010 };
    assert_eq!(stack.places(), vec![0, 1, 4, 5, 8]);
    assert_eq!(stack.roots(), vec![num(1), at(3), at(0), 7, at(3)]);

    // 0: a = (tuple 7); 3: b = (tuple a nil); 7: garbage
    let mut heap = heap_of(&[0, num(1), num(7), 0, num(2), at(0), 1, 0, num(1), num(9)], 16);
    let mut stack = stack;
    assert!(is_well_formed(&heap, 10, &stack.roots()));
    assert!(!is_well_formed(&heap, 10, &words));
    assert_eq!(snek_try_gc(1, &mut heap, 10, &mut stack), Some(7));
    assert_eq!(
        stack.words,
        vec![num(1), at(3), 0x7030, at(1) + 4, at(0), 7, 0x7048, 0x40_0123, at(3)]
    );
}

#[test]
fn a_stack_whose_chain_is_broken_is_walked_to_its_end() {
    // a frame pointer below the stack pointer: every word is a value
    let stack = Stack { low: 0x7000, words: vec![1, 3, 7], frame: 0x6000 };
    assert_eq!(stack.places(), vec![0, 1, 2]);
    // a saved frame pointer that points back: the chain ends there
    let stack = Stack { low: 0x7000, words: vec![1, 0x7000, 5, 7], frame: 0x7008 };
    assert_eq!(stack.places(), vec![0, 3]);
    // a frame pointer at the last word
    let stack = Stack { low: 0x7000, words: vec![1, 3, 0x9000], frame: 0x7010 };
    assert_eq!(stack.places(), vec![0, 1]);
    let stack = Stack { low: 0x7000, words: vec![], frame: 0x7000 };
    assert_eq!(stack.places(), Vec::<usize>::new());
}
