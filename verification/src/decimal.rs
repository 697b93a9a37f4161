//! Decimal text of integers: what the emitter writes for immediates and
//! label numbers, what the printer writes for numbers, and what the runtime
//! reads back as its input.

use vstd::prelude::*;

verus! {

pub assume_specification[ String::push ](s: &mut String, c: char)
    ensures
        final(s)@ == old(s)@.push(c),
;

/// The character that stands for the digit `d`.
pub open spec fn digit_char(d: int) -> char {
    if d == 0 {
        '0'
    } else if d == 1 {
        '1'
    } else if d == 2 {
        '2'
    } else if d == 3 {
        '3'
    } else if d == 4 {
        '4'
    } else if d == 5 {
        '5'
    } else if d == 6 {
        '6'
    } else if d == 7 {
        '7'
    } else if d == 8 {
        '8'
    } else {
        '9'
    }
}

/// The digit that a character stands for, if it is one of `0` to `9`.
pub open spec fn digit_value(c: char) -> Option<int> {
    if c == '0' {
        Some(0)
    } else if c == '1' {
        Some(1)
    } else if c == '2' {
        Some(2)
    } else if c == '3' {
        Some(3)
    } else if c == '4' {
        Some(4)
    } else if c == '5' {
        Some(5)
    } else if c == '6' {
        Some(6)
    } else if c == '7' {
        Some(7)
    } else if c == '8' {
        Some(8)
    } else if c == '9' {
        Some(9)
    } else {
        None
    }
}

/// Decimal digits of a natural number, most significant first, without
/// leading zeros.
pub open spec fn nat_text(n: nat) -> Seq<char>
    decreases n,
{
    if n < 10 {
        seq![digit_char(n as int)]
    } else {
        nat_text(n / 10).push(digit_char((n % 10) as int))
    }
}

/// Decimal text of an integer: a minus sign for negative numbers, then the
/// digits of its magnitude.
pub open spec fn int_text(n: int) -> Seq<char> {
    if n < 0 {
        seq!['-'] + nat_text((-n) as nat)
    } else {
        nat_text(n as nat)
    }
}

/// The number that a run of digits denotes; `None` when the run is empty or
/// holds a character that is no digit. Leading zeros are allowed.
pub open spec fn digits_value(s: Seq<char>) -> Option<nat>
    decreases s.len(),
{
    if s.len() == 0 {
        None
    } else {
        match digit_value(s.last()) {
            None => None,
            Some(d) => if s.len() == 1 {
                Some(d as nat)
            } else {
                match digits_value(s.drop_last()) {
                    None => None,
                    Some(hi) => Some((hi * 10 + d) as nat),
                }
            },
        }
    }
}

/// The integer that a text denotes: an optional `+` or `-`, then at least one
/// digit and nothing else.
pub open spec fn text_value(s: Seq<char>) -> Option<int> {
    if s.len() > 0 && s[0] == '-' {
        match digits_value(s.skip(1)) {
            None => None,
            Some(m) => Some(-(m as int)),
        }
    } else if s.len() > 0 && s[0] == '+' {
        match digits_value(s.skip(1)) {
            None => None,
            Some(m) => Some(m as int),
        }
    } else {
        match digits_value(s) {
            None => None,
            Some(m) => Some(m as int),
        }
    }
}

/// Reading the digits of a natural number gives the number back.
pub proof fn lemma_digits_round_trip(n: nat)
    ensures
        nat_text(n).len() > 0,
        digit_value(nat_text(n)[0]) is Some,
        digits_value(nat_text(n)) == Some(n),
    decreases n,
{
    if n < 10 {
        assert(nat_text(n).last() == digit_char(n as int));
    } else {
        lemma_digits_round_trip(n / 10);
        let hi = nat_text(n / 10);
        let t = nat_text(n);
        assert(t == hi.push(digit_char((n % 10) as int)));
        assert(t.last() == digit_char((n % 10) as int));
        assert(t.drop_last() =~= hi);
        assert(t[0] == hi[0]);
    }
}

/// Reading the decimal text of an integer gives the integer back.
pub proof fn lemma_int_text_round_trip(n: int)
    ensures
        text_value(int_text(n)) == Some(n),
{
    if n < 0 {
        let m = (-n) as nat;
        lemma_digits_round_trip(m);
        let t = int_text(n);
        assert(t.skip(1) =~= nat_text(m));
        assert(t[0] == '-');
    } else {
        lemma_digits_round_trip(n as nat);
        let t = nat_text(n as nat);
        assert(t[0] != '-' && t[0] != '+');
    }
}

/// The digit character of a number below ten.
pub fn digit_of(d: u64) -> (c: char)
    requires
        d < 10,
    ensures
        c == digit_char(d as int),
{
    if d == 0 {
        '0'
    } else if d == 1 {
        '1'
    } else if d == 2 {
        '2'
    } else if d == 3 {
        '3'
    } else if d == 4 {
        '4'
    } else if d == 5 {
        '5'
    } else if d == 6 {
        '6'
    } else if d == 7 {
        '7'
    } else if d == 8 {
        '8'
    } else {
        '9'
    }
}

/// The value of a digit character, or `None` for any other character.
pub fn value_of_digit(c: char) -> (r: Option<u64>)
    ensures
        match r {
            Some(d) => digit_value(c) == Some(d as int) && d < 10,
            None => digit_value(c) is None,
        },
{
    if c == '0' {
        Some(0)
    } else if c == '1' {
        Some(1)
    } else if c == '2' {
        Some(2)
    } else if c == '3' {
        Some(3)
    } else if c == '4' {
        Some(4)
    } else if c == '5' {
        Some(5)
    } else if c == '6' {
        Some(6)
    } else if c == '7' {
        Some(7)
    } else if c == '8' {
        Some(8)
    } else if c == '9' {
        Some(9)
    } else {
        None
    }
}

/// Appends the decimal digits of `n` to `out`.
pub fn push_u64(out: &mut String, n: u64)
    ensures
        final(out)@ == old(out)@ + nat_text(n as nat),
    decreases n,
{
    if n >= 10 {
        push_u64(out, n / 10);
    }
    out.push(digit_of(n % 10));
    proof {
        let t = nat_text(n as nat);
        if n >= 10 {
            assert(old(out)@ + nat_text((n / 10) as nat).push(digit_char((n % 10) as int))
                =~= (old(out)@ + nat_text((n / 10) as nat)).push(digit_char((n % 10) as int)));
        } else {
            assert(old(out)@ + seq![digit_char(n as int)] =~= old(out)@.push(digit_char(n as int)));
        }
    }
}

/// The magnitude of a signed number, which for the least `i64` does not fit
/// in an `i64`.
pub fn magnitude(n: i64) -> (m: u64)
    ensures
        m == if n < 0 { -(n as int) } else { n as int },
{
    if n >= 0 {
        n as u64
    } else {
        ((-(n + 1)) as u64) + 1
    }
}

/// Appends the decimal text of `n` to `out`.
pub fn push_i64(out: &mut String, n: i64)
    ensures
        final(out)@ == old(out)@ + int_text(n as int),
{
    if n < 0 {
        out.push('-');
        push_u64(out, magnitude(n));
        proof {
            let m = (-(n as int)) as nat;
            assert(old(out)@.push('-') + nat_text(m) =~= old(out)@ + (seq!['-'] + nat_text(m)));
        }
    } else {
        push_u64(out, magnitude(n));
    }
}

} // verus!
