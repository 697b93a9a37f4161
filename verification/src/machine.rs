//! What the emitted instructions do, as far as code in a straight line
//! goes: moves, arithmetic with its overflow flag, masks, comparisons,
//! jumps, which are followed forward to their label, and the call of the
//! routine that prints.

use vstd::prelude::*;
use crate::instr::{InstrView, Reg, ValView};

verus! {

/// What a called routine leaves where it need keep nothing: in the
/// registers, in the memory and in the flags, each by the number of words
/// that were printed before the call.
pub struct Unknown {
    pub regs: spec_fn(int, Reg) -> int,
    pub mem: spec_fn(int, int) -> int,
    pub left: spec_fn(int) -> int,
    pub right: spec_fn(int) -> int,
    pub overflow: spec_fn(int) -> bool,
}

/// The state of the machine: the registers, the memory by address, the
/// operands of the last comparison, whether the last addition, subtraction
/// or multiplication left the range of a word, the words printed so far,
/// and what the called routines leave behind.
pub struct State {
    pub regs: spec_fn(Reg) -> int,
    pub mem: spec_fn(int) -> int,
    pub left: int,
    pub right: int,
    pub overflow: bool,
    pub printed: Seq<int>,
    pub unknown: Unknown,
}

/// Whether a number fits in a word.
pub open spec fn in_word(n: int) -> bool {
    -0x8000_0000_0000_0000 <= n <= 0x7fff_ffff_ffff_ffff
}

/// The word that is left of a number: the number itself where it fits, and
/// else what its low 64 bits stand for.
#[verifier::opaque]
pub open spec fn wrap(n: int) -> int {
    (n + 0x8000_0000_0000_0000) % 0x1_0000_0000_0000_0000 - 0x8000_0000_0000_0000
}

/// A number that fits in a word is left as it is, and what is left of any
/// number fits in a word.
pub proof fn lemma_wrap(n: int)
    ensures
        in_word(wrap(n)),
        in_word(n) ==> wrap(n) == n,
{
    reveal(wrap);
}

/// The value of an operand.
pub open spec fn fetch(s: State, v: ValView) -> int {
    match v {
        ValView::Reg(r) => (s.regs)(r),
        ValView::Imm(n) => n,
        ValView::RegOffset(r, off) => (s.mem)((s.regs)(r) - off),
        ValView::Label(_) => 0,
    }
}

/// The state after `x` is stored in an operand.
pub open spec fn store(s: State, v: ValView, x: int) -> State {
    match v {
        ValView::Reg(r) => State {
            regs: |q: Reg| if q == r {
                x
            } else {
                (s.regs)(q)
            },
            ..s
        },
        ValView::RegOffset(r, off) => State {
            mem: |a: int| if a == (s.regs)(r) - off {
                x
            } else {
                (s.mem)(a)
            },
            ..s
        },
        _ => s,
    }
}

/// The state after an addition, subtraction or multiplication with the
/// result `x` is stored in `d`.
pub open spec fn arithmetic(s: State, d: ValView, x: int) -> State {
    State { overflow: !in_word(x), ..store(s, d, wrap(x)) }
}

/// What becomes of a run: it goes on in a state, it is ended by a jump to
/// the label of an error, it has jumped to a label that the code at hand does
/// not define, or it meets an instruction that this model does not cover.
pub enum Outcome {
    Next(State),
    Trapped(Seq<char>),
    Jumped(Seq<char>, State),
    Stuck,
}

/// Whether a label is the label of an error, which ends every emitted unit
/// and from which no run comes back.
pub open spec fn is_trap(l: Seq<char>) -> bool {
    l == "not_bool_err"@ || l == "not_num_err"@ || l == "invalid_arg_err"@ || l
        == "overflow_err"@ || l == "not_tuple_err"@ || l == "out_of_bounds_err"@ || l
        == "nil_deref_err"@
}

/// The outcome of a jump that is taken where `taken` holds.
pub open spec fn jump(taken: bool, target: ValView, s: State) -> Outcome {
    if taken {
        match target {
            ValView::Label(l) => if is_trap(l) {
                Outcome::Trapped(l)
            } else {
                Outcome::Jumped(l, s)
            },
            _ => Outcome::Stuck,
        }
    } else {
        Outcome::Next(s)
    }
}

/// The index of the first definition of the label `l` in `code` from the
/// index `from` on.
pub open spec fn find_label(code: Seq<InstrView>, l: Seq<char>, from: int) -> Option<int>
    decreases code.len() - from,
{
    if from < 0 || from >= code.len() {
        None
    } else if code[from] == InstrView::ILabel(l) {
        Some(from)
    } else {
        find_label(code, l, from + 1)
    }
}

/// The state after a move that is made where `made` holds.
pub open spec fn conditional_move(made: bool, s: State, d: ValView, v: ValView) -> State {
    if made {
        store(s, d, fetch(s, v))
    } else {
        s
    }
}

/// The state after a push of the word `v`: the stack pointer moves one word
/// down, and the word lies where it points.
pub open spec fn pushed(s: State, v: int) -> State {
    let top = wrap((s.regs)(Reg::RSP) - 8);
    State {
        regs: |q: Reg| if q == Reg::RSP {
            top
        } else {
            (s.regs)(q)
        },
        mem: |a: int| if a == top {
            v
        } else {
            (s.mem)(a)
        },
        ..s
    }
}

/// The state after a pop into the register `d`: the register holds the word
/// that the stack pointer pointed at, and the stack pointer moves one word
/// up.
pub open spec fn popped(s: State, d: Reg) -> State {
    let top = (s.regs)(Reg::RSP);
    State {
        regs: |q: Reg|
            if q == d {
                (s.mem)(top)
            } else if q == Reg::RSP {
                wrap(top + 8)
            } else {
                (s.regs)(q)
            },
        ..s
    }
}

/// Whether a called routine hands the register `r` back as it got it.
pub open spec fn is_kept(r: Reg) -> bool {
    r == Reg::RBX || r == Reg::RBP || r == Reg::RSP || r == Reg::R12 || r == Reg::R15
}

/// The state after the routine that prints was called: the word in `RDI`
/// is printed and comes back in `RAX`; the registers that a routine keeps
/// and the memory from the stack pointer up are as they were; of the other
/// registers, the memory below the stack pointer and the flags nothing is
/// known.
pub open spec fn shown(s: State) -> State {
    let n = s.printed.len() as int;
    let w = (s.regs)(Reg::RDI);
    State {
        regs: |q: Reg|
            if q == Reg::RAX {
                w
            } else if is_kept(q) {
                (s.regs)(q)
            } else {
                (s.unknown.regs)(n, q)
            },
        mem: |a: int|
            if a >= (s.regs)(Reg::RSP) {
                (s.mem)(a)
            } else {
                (s.unknown.mem)(n, a)
            },
        left: (s.unknown.left)(n),
        right: (s.unknown.right)(n),
        overflow: (s.unknown.overflow)(n),
        printed: s.printed.push(w),
        unknown: s.unknown,
    }
}

/// The outcome of one instruction. A mask is covered where it keeps the
/// lowest bit or the two lowest bits, a shift where it is an arithmetic
/// shift to the right by one bit, a pop where it is into a register other
/// than the stack pointer, a call where it is of the routine that prints; a
/// label definition does nothing; other calls and returns are not covered.
pub open spec fn step(i: InstrView, s: State) -> Outcome {
    match i {
        InstrView::IMov(d, v) => Outcome::Next(store(s, d, fetch(s, v))),
        InstrView::IAdd(d, v) => Outcome::Next(arithmetic(s, d, fetch(s, d) + fetch(s, v))),
        InstrView::ISub(d, v) => Outcome::Next(arithmetic(s, d, fetch(s, d) - fetch(s, v))),
        InstrView::IMul(d, v) => Outcome::Next(arithmetic(s, d, fetch(s, d) * fetch(s, v))),
        InstrView::IAnd(d, ValView::Imm(m)) => if m == 1 {
            Outcome::Next(State { overflow: false, ..store(s, d, fetch(s, d) % 2) })
        } else if m == 3 {
            Outcome::Next(State { overflow: false, ..store(s, d, fetch(s, d) % 4) })
        } else {
            Outcome::Stuck
        },
        InstrView::ISar(d, ValView::Imm(k)) => if k == 1 {
            Outcome::Next(store(s, d, fetch(s, d) / 2))
        } else {
            Outcome::Stuck
        },
        InstrView::ICmp(a, b) => Outcome::Next(
            State { left: fetch(s, a), right: fetch(s, b), ..s },
        ),
        InstrView::ICMovE(d, v) => Outcome::Next(conditional_move(s.left == s.right, s, d, v)),
        InstrView::ICMovL(d, v) => Outcome::Next(conditional_move(s.left < s.right, s, d, v)),
        InstrView::ICMovG(d, v) => Outcome::Next(conditional_move(s.left > s.right, s, d, v)),
        InstrView::ICMovGE(d, v) => Outcome::Next(conditional_move(s.left >= s.right, s, d, v)),
        InstrView::ICMovLE(d, v) => Outcome::Next(conditional_move(s.left <= s.right, s, d, v)),
        InstrView::IJe(l) => jump(s.left == s.right, l, s),
        InstrView::IJne(l) => jump(s.left != s.right, l, s),
        InstrView::IJl(l) => jump(s.left < s.right, l, s),
        InstrView::IJge(l) => jump(s.left >= s.right, l, s),
        InstrView::IJg(l) => jump(s.left > s.right, l, s),
        InstrView::IJo(l) => jump(s.overflow, l, s),
        InstrView::IJmp(l) => jump(true, l, s),
        InstrView::IPush(v) => Outcome::Next(pushed(s, fetch(s, v))),
        InstrView::IPop(ValView::Reg(d)) => if d == Reg::RSP {
            Outcome::Stuck
        } else {
            Outcome::Next(popped(s, d))
        },
        InstrView::ILabel(_) => Outcome::Next(s),
        InstrView::ICall(ValView::Label(l)) => if l == "snek_print"@ {
            Outcome::Next(shown(s))
        } else {
            Outcome::Stuck
        },
        _ => Outcome::Stuck,
    }
}

/// The outcome of the instructions of `code` from index `i` on, one after
/// the other. A jump that is taken goes on after the definition of its label
/// further on in `code`; where `code` has none further on, the run ends
/// there.
pub open spec fn run_from(code: Seq<InstrView>, i: int, s: State) -> Outcome
    decreases code.len() - i,
{
    if i < 0 || i >= code.len() {
        Outcome::Next(s)
    } else {
        match step(code[i], s) {
            Outcome::Next(t) => run_from(code, i + 1, t),
            Outcome::Jumped(l, t) => match find_label(code, l, i + 1) {
                Some(j) => if i < j < code.len() {
                    run_from(code, j + 1, t)
                } else {
                    Outcome::Stuck
                },
                None => Outcome::Jumped(l, t),
            },
            ended => ended,
        }
    }
}

/// The outcome of the instructions of `code`.
pub open spec fn run(code: Seq<InstrView>, s: State) -> Outcome {
    run_from(code, 0, s)
}

/// The outcome of `b`, run after a first run: from the state that the first
/// run left, or from the definition in `b` of the label that it jumped to.
pub open spec fn run_then(first: Outcome, b: Seq<InstrView>) -> Outcome {
    match first {
        Outcome::Next(t) => run(b, t),
        Outcome::Jumped(l, t) => match find_label(b, l, 0) {
            Some(j) => run_from(b, j + 1, t),
            None => Outcome::Jumped(l, t),
        },
        ended => ended,
    }
}

/// Where a label is found, it is defined, at or after the index from which
/// it was looked for.
pub proof fn lemma_found(code: Seq<InstrView>, l: Seq<char>, from: int)
    requires
        0 <= from,
    ensures
        match find_label(code, l, from) {
            Some(j) => from <= j < code.len() && code[j] == InstrView::ILabel(l),
            None => forall|k: int| from <= k < code.len() ==> code[k] != InstrView::ILabel(l),
        },
    decreases code.len() - from,
{
    if from < code.len() && code[from] != InstrView::ILabel(l) {
        lemma_found(code, l, from + 1);
    }
}

/// A label is found in two sequences one after the other where it is found
/// in the first, or else in the second.
pub proof fn lemma_find_concat(a: Seq<InstrView>, b: Seq<InstrView>, l: Seq<char>, from: int)
    requires
        0 <= from,
    ensures
        find_label(a + b, l, from) == if from <= a.len() {
            match find_label(a, l, from) {
                Some(j) => Some(j),
                None => match find_label(b, l, 0) {
                    Some(j) => Some(a.len() + j),
                    None => None,
                },
            }
        } else {
            match find_label(b, l, from - a.len()) {
                Some(j) => Some(a.len() + j),
                None => None,
            }
        },
    decreases (a + b).len() - from,
{
    let c = a + b;
    if from < c.len() {
        if from < a.len() {
            assert(c[from] == a[from]);
        } else {
            assert(c[from] == b[from - a.len()]);
        }
        if c[from] != InstrView::ILabel(l) {
            lemma_find_concat(a, b, l, from + 1);
        }
    }
}

/// In a sequence that ends with `b`, the instructions of `b` do what they
/// do alone.
pub proof fn lemma_run_tail(a: Seq<InstrView>, b: Seq<InstrView>, j: int, s: State)
    requires
        0 <= j <= b.len(),
    ensures
        run_from(a + b, a.len() + j, s) == run_from(b, j, s),
    decreases b.len() - j,
{
    if j < b.len() {
        assert((a + b)[a.len() + j] == b[j]);
        match step(b[j], s) {
            Outcome::Next(t) => lemma_run_tail(a, b, j + 1, t),
            Outcome::Jumped(l, t) => {
                lemma_find_concat(a, b, l, a.len() + j + 1);
                lemma_found(b, l, j + 1);
                match find_label(b, l, j + 1) {
                    Some(k) => lemma_run_tail(a, b, k + 1, t),
                    None => {},
                }
            },
            _ => {},
        }
    }
}

/// Two sequences one after the other do what the first does and then what
/// the second does.
pub proof fn lemma_run_from_concat(a: Seq<InstrView>, b: Seq<InstrView>, i: int, s: State)
    requires
        0 <= i <= a.len(),
    ensures
        run_from(a + b, i, s) == run_then(run_from(a, i, s), b),
    decreases a.len() - i,
{
    if i < a.len() {
        assert((a + b)[i] == a[i]);
        match step(a[i], s) {
            Outcome::Next(t) => lemma_run_from_concat(a, b, i + 1, t),
            Outcome::Jumped(l, t) => {
                lemma_find_concat(a, b, l, i + 1);
                lemma_found(a, l, i + 1);
                lemma_found(b, l, 0);
                match find_label(a, l, i + 1) {
                    Some(k) => lemma_run_from_concat(a, b, k + 1, t),
                    None => match find_label(b, l, 0) {
                        Some(k) => lemma_run_tail(a, b, k + 1, t),
                        None => {},
                    },
                }
            },
            _ => {},
        }
    } else {
        lemma_run_tail(a, b, 0, s);
    }
}

/// Two sequences one after the other do what the first does and then what
/// the second does.
pub proof fn lemma_run_concat(a: Seq<InstrView>, b: Seq<InstrView>, s: State)
    ensures
        run(a + b, s) == run_then(run(a, s), b),
{
    lemma_run_from_concat(a, b, 0, s);
}

} // verus!
