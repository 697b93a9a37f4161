//! What the runtime does at its edges: it reads the input of a program and
//! names the error that stops one.

use vstd::prelude::*;
use crate::compiler::is_text;
use crate::decimal::{digits_value, text_value, value_of_digit};
use crate::reader::chars_of;
use crate::value::{encode, representable, FALSE_VAL, TRUE_VAL};

verus! {

/// The diagnostic of an error code.
pub open spec fn error_text(code: int) -> Seq<char> {
    if code == 1 {
        "invalid argument - not a boolean"@
    } else if code == 2 {
        "invalid argument - not a number"@
    } else if code == 3 {
        "invalid argument - not the same type when comparing for equality!"@
    } else if code == 4 {
        "overflow"@
    } else if code == 5 {
        "invalid argument - not a tuple"@
    } else if code == 6 {
        "out of bounds tuple indexing error"@
    } else if code == 7 {
        "tuple null pointer exception!"@
    } else {
        "unknown error"@
    }
}

/// The diagnostic of the error that stops a program when the heap is full
/// after a collection.
pub open spec fn out_of_memory_text() -> Seq<char> {
    "out of memory"@
}

/// The diagnostic that the runtime shows for an error code before it stops
/// the program.
pub fn snek_error(errcode: i64) -> (s: String)
    ensures
        s@ == error_text(errcode as int),
{
    if errcode == 1 {
        "invalid argument - not a boolean".to_owned()
    } else if errcode == 2 {
        "invalid argument - not a number".to_owned()
    } else if errcode == 3 {
        "invalid argument - not the same type when comparing for equality!".to_owned()
    } else if errcode == 4 {
        "overflow".to_owned()
    } else if errcode == 5 {
        "invalid argument - not a tuple".to_owned()
    } else if errcode == 6 {
        "out of bounds tuple indexing error".to_owned()
    } else if errcode == 7 {
        "tuple null pointer exception!".to_owned()
    } else {
        "unknown error".to_owned()
    }
}

/// The codes from 1 to 7 have diagnostics of their own: no two share one,
/// and none has the diagnostic of an unknown code or of a full heap.
pub proof fn lemma_error_texts_differ(a: int, b: int)
    requires
        1 <= a <= 7,
        a != b,
    ensures
        error_text(a) != error_text(b),
        error_text(a) != out_of_memory_text(),
{
    reveal_strlit("invalid argument - not a boolean");
    reveal_strlit("invalid argument - not a number");
    reveal_strlit("invalid argument - not the same type when comparing for equality!");
    reveal_strlit("overflow");
    reveal_strlit("invalid argument - not a tuple");
    reveal_strlit("out of bounds tuple indexing error");
    reveal_strlit("tuple null pointer exception!");
    reveal_strlit("unknown error");
    reveal_strlit("out of memory");
    assert(error_text(a).len() != error_text(b).len());
    assert(error_text(a).len() != out_of_memory_text().len());
}

/// The word that an input text stands for: `false`, `true`, or a decimal
/// integer that is representable. `None` for any other text.
pub open spec fn input_value(s: Seq<char>) -> Option<i64> {
    if s == "false"@ {
        Some(FALSE_VAL)
    } else if s == "true"@ {
        Some(TRUE_VAL)
    } else {
        match text_value(s) {
            Some(n) => if representable(n) {
                Some(encode(n) as i64)
            } else {
                None
            },
            None => None,
        }
    }
}

/// The number that the first `n` characters of a run of digits denote.
pub open spec fn prefix_value(s: Seq<char>, n: int) -> Option<nat> {
    digits_value(s.take(n))
}

/// A run of digits denotes at least what any prefix of it denotes, and
/// denotes nothing where a prefix holds a character that is no digit.
pub proof fn lemma_digits_grow(s: Seq<char>, m: int, n: int)
    requires
        1 <= m <= n <= s.len(),
    ensures
        prefix_value(s, m) is None ==> prefix_value(s, n) is None,
        prefix_value(s, n) is Some ==> prefix_value(s, m) is Some && prefix_value(s, m)->Some_0
            <= prefix_value(s, n)->Some_0,
    decreases n - m,
{
    if m < n {
        lemma_digits_grow(s, m, n - 1);
        assert(s.take(n).drop_last() =~= s.take(n - 1));
    }
}

/// The magnitude that the digits of `chars` from `from` on denote, where
/// there is at least one digit, all are digits and the magnitude is at most
/// `limit`.
fn read_magnitude(chars: &Vec<char>, from: usize, limit: u64) -> (r: Option<u64>)
    requires
        from <= chars.len(),
        limit <= 0x4000_0000_0000_0000,
    ensures
        r == match digits_value(chars@.skip(from as int)) {
            Some(m) => if m <= limit {
                Some(m as u64)
            } else {
                None
            },
            None => None,
        },
{
    let ghost s = chars@.skip(from as int);
    let n = chars.len() - from;
    if n == 0 {
        return None;
    }
    let mut acc: u64 = 0;
    let mut i: usize = 0;
    while i < n
        invariant
            i <= n,
            n == s.len(),
            n + from == chars.len(),
            s == chars@.skip(from as int),
            limit <= 0x4000_0000_0000_0000,
            i > 0 ==> prefix_value(s, i as int) == Some(acc as nat),
            i == 0 ==> acc == 0,
            acc <= limit,
        decreases n - i,
    {
        let c = chars[from + i];
        proof {
            assert(s[i as int] == c);
            assert(s.take(i + 1).drop_last() =~= s.take(i as int));
            assert(s.take(i + 1).last() == c);
            lemma_digits_grow(s, i + 1, n as int);
            assert(s.take(n as int) =~= s);
        }
        match value_of_digit(c) {
            None => {
                return None;
            },
            Some(d) => {
                let next: u128 = (acc as u128) * 10 + (d as u128);
                if next > limit as u128 {
                    return None;
                }
                acc = next as u64;
            },
        }
        i += 1;
    }
    assert(s.take(n as int) =~= s);
    Some(acc)
}

/// The word that the program's input text stands for.
pub fn parse_input(input: &str) -> (r: Option<i64>)
    ensures
        r == input_value(input@),
{
    let text = input.to_owned();
    if is_text(&text, "false") {
        return Some(FALSE_VAL);
    }
    if is_text(&text, "true") {
        return Some(TRUE_VAL);
    }
    let chars = chars_of(input);
    if chars.len() > 0 && chars[0] == '-' {
        match read_magnitude(&chars, 1, 0x4000_0000_0000_0000) {
            Some(m) => {
                let n: i64 = -((m / 2) as i64) - ((m - m / 2) as i64);
                Some(2 * n)
            },
            None => None,
        }
    } else if chars.len() > 0 && chars[0] == '+' {
        match read_magnitude(&chars, 1, 0x3fff_ffff_ffff_ffff) {
            Some(m) => Some(2 * (m as i64)),
            None => None,
        }
    } else {
        proof {
            assert(chars@.skip(0) =~= chars@);
        }
        match read_magnitude(&chars, 0, 0x3fff_ffff_ffff_ffff) {
            Some(m) => Some(2 * (m as i64)),
            None => None,
        }
    }
}

} // verus!
