//! Base-10 integer literals: what parses as an `i32`, and how an `i32`
//! prints.
//!
//! A literal is an optional sign followed by one or more ASCII digits;
//! its value is the usual base-10 reading. `parse_i32` accepts exactly
//! the literals whose value fits an `i32`; `push_i32` prints a value so
//! that parsing reads it back.

use vstd::prelude::*;
use crate::text::push_char;

verus! {

/// `c` is an ASCII decimal digit.
pub open spec fn is_digit(c: char) -> bool {
    48 <= c as int <= 57
}

/// The numeric value of a digit character.
pub open spec fn digit_val(c: char) -> int {
    c as int - 48
}

/// Every character of `s` is a digit.
pub open spec fn all_digits(s: Seq<char>) -> bool {
    forall|i: int| 0 <= i < s.len() ==> is_digit(#[trigger] s[i])
}

/// The base-10 value of a digit string.
pub open spec fn dec_value(s: Seq<char>) -> int
    decreases s.len(),
{
    if s.len() == 0 {
        0
    } else {
        dec_value(s.drop_last()) * 10 + digit_val(s.last())
    }
}

/// `s` is an integer literal: an optional `+` or `-` sign followed by at
/// least one digit, and nothing else.
pub open spec fn is_int_literal(s: Seq<char>) -> bool {
    if s.len() == 0 {
        false
    } else if s[0] == '-' || s[0] == '+' {
        s.len() > 1 && all_digits(s.skip(1))
    } else {
        all_digits(s)
    }
}

/// The signed value of an integer literal.
pub open spec fn int_literal_value(s: Seq<char>) -> int {
    if s.len() > 0 && s[0] == '-' {
        -dec_value(s.skip(1))
    } else if s.len() > 0 && s[0] == '+' {
        dec_value(s.skip(1))
    } else {
        dec_value(s)
    }
}

/// `s` is an integer literal whose value fits an `i32`.
pub open spec fn parses_as_i32(s: Seq<char>) -> bool {
    is_int_literal(s) && i32::MIN <= int_literal_value(s) <= i32::MAX
}

/// The digit character for a value below ten.
pub open spec fn digit_char(d: int) -> char {
    if d == 0 {
        '0'
    } else if d == 1 {
        '1'
    } else if d == 2 {
        '2'
    } else if d == 3 {
        '3'
    } else if d == 4 {
        '4'
    } else if d == 5 {
        '5'
    } else if d == 6 {
        '6'
    } else if d == 7 {
        '7'
    } else if d == 8 {
        '8'
    } else {
        '9'
    }
}

/// The base-10 digit string of a non-negative number, most significant
/// digit first.
pub open spec fn dec_digits(n: int) -> Seq<char>
    decreases n,
{
    if n < 10 {
        seq![digit_char(n)]
    } else {
        dec_digits(n / 10) + seq![digit_char(n % 10)]
    }
}

/// The printed form of a signed number: a minus sign for negatives,
/// then the digits.
pub open spec fn int_to_chars(v: int) -> Seq<char> {
    if v < 0 {
        seq!['-'] + dec_digits(-v)
    } else {
        dec_digits(v)
    }
}

/// A digit string has a non-negative value.
pub proof fn lemma_dec_value_nonneg(s: Seq<char>)
    requires
        all_digits(s),
    ensures
        dec_value(s) >= 0,
    decreases s.len(),
{
    if s.len() > 0 {
        lemma_dec_value_nonneg(s.drop_last());
    }
}

/// Extending a digit string to the right can only grow its value.
pub proof fn lemma_dec_value_prefix(s: Seq<char>, j: int)
    requires
        all_digits(s),
        0 <= j <= s.len(),
    ensures
        dec_value(s.take(j)) <= dec_value(s),
    decreases s.len(),
{
    if j == s.len() {
        assert(s.take(j) =~= s);
    } else {
        assert(s.drop_last().take(j) =~= s.take(j));
        lemma_dec_value_prefix(s.drop_last(), j);
        lemma_dec_value_nonneg(s.drop_last());
    }
}

/// The digit string of `n` reads back as `n`: its characters are all
/// digits and its base-10 value is `n` itself.
pub proof fn lemma_dec_digits(n: int)
    requires
        n >= 0,
    ensures
        dec_digits(n).len() >= 1,
        all_digits(dec_digits(n)),
        dec_value(dec_digits(n)) == n,
    decreases n,
{
    if n < 10 {
        let s1 = seq![digit_char(n)];
        assert(s1.drop_last() =~= Seq::<char>::empty());
        assert(dec_value(s1) == dec_value(s1.drop_last()) * 10 + digit_val(s1.last()));
    } else {
        lemma_dec_digits(n / 10);
        let d = dec_digits(n / 10) + seq![digit_char(n % 10)];
        assert(d.drop_last() =~= dec_digits(n / 10));
        assert(dec_value(d) == (n / 10) * 10 + n % 10);
    }
}

/// Exec test for an ASCII digit.
fn is_digit_exec(c: char) -> (r: bool)
    ensures
        r == is_digit(c),
{
    let u: u32 = c as u32;
    48 <= u && u <= 57
}

/// Parses `t` as a base-10 `i32`: accepts exactly the integer literals
/// whose value fits, and returns that value.
pub fn parse_i32(t: &str) -> (r: Option<i32>)
    ensures
        match r {
            Some(v) => parses_as_i32(t@) && v as int == int_literal_value(t@),
            None => !parses_as_i32(t@),
        },
{
    let n = t.unicode_len();
    if n == 0 {
        return None;
    }
    let c0 = t.get_char(0);
    let neg: bool = c0 == '-';
    let start: usize = if c0 == '-' || c0 == '+' {
        1
    } else {
        0
    };
    if start == n {
        return None;
    }
    let ghost body = t@.skip(start as int);
    let mut i: usize = start;
    let mut mag: u64 = 0;
    while i < n
        invariant
            start <= i <= n,
            start < n,
            start <= 1,
            n == t@.len(),
            body == t@.skip(start as int),
            start == 1 <==> (t@[0] == '-' || t@[0] == '+'),
            neg <==> t@[0] == '-',
            all_digits(t@.subrange(start as int, i as int)),
            mag == dec_value(t@.subrange(start as int, i as int)),
            mag <= 0x8000_0000,
        decreases n - i,
    {
        let c = t.get_char(i);
        if !is_digit_exec(c) {
            proof {
                if is_int_literal(t@) {
                    if start == 1 {
                        assert(body =~= t@.skip(1));
                    } else {
                        assert(body =~= t@);
                    }
                    assert(is_digit(body[i - start]));
                    assert(body[i - start] == t@[i as int]);
                }
            }
            return None;
        }
        let d: u64 = (c as u32 - 48) as u64;
        proof {
            assert(t@.subrange(start as int, i as int + 1).drop_last() =~= t@.subrange(
                start as int,
                i as int,
            ));
        }
        mag = mag * 10 + d;
        i = i + 1;
        if mag > 0x8000_0000 {
            proof {
                if is_int_literal(t@) {
                    if start == 1 {
                        assert(body =~= t@.skip(1));
                    } else {
                        assert(body =~= t@);
                    }
                    lemma_dec_value_prefix(body, i - start);
                    assert(body.take(i - start) =~= t@.subrange(start as int, i as int));
                    assert(dec_value(body) >= mag);
                    assert(int_literal_value(t@) == -dec_value(body) || int_literal_value(t@)
                        == dec_value(body));
                }
            }
            return None;
        }
    }
    proof {
        assert(t@.subrange(start as int, n as int) =~= body);
        if start == 1 {
            assert(body =~= t@.skip(1));
            assert(is_int_literal(t@));
        } else {
            assert(body =~= t@);
            assert(is_int_literal(t@));
        }
        assert(int_literal_value(t@) == if neg {
            -dec_value(body)
        } else {
            dec_value(body)
        });
    }
    if neg {
        let v: i64 = -(mag as i64);
        Some(v as i32)
    } else {
        if mag > 0x7fff_ffff {
            return None;
        }
        Some(mag as i32)
    }
}

/// Exec digit character for a value below ten.
fn digit_char_exec(d: u64) -> (c: char)
    requires
        d < 10,
    ensures
        c == digit_char(d as int),
{
    if d == 0 {
        '0'
    } else if d == 1 {
        '1'
    } else if d == 2 {
        '2'
    } else if d == 3 {
        '3'
    } else if d == 4 {
        '4'
    } else if d == 5 {
        '5'
    } else if d == 6 {
        '6'
    } else if d == 7 {
        '7'
    } else if d == 8 {
        '8'
    } else {
        '9'
    }
}

/// Appends the digit string of `n` to `s`.
fn push_decimal(s: &mut String, n: u64)
    ensures
        final(s)@ == old(s)@ + dec_digits(n as int),
    decreases n,
{
    if n < 10 {
        push_char(s, digit_char_exec(n));
    } else {
        push_decimal(s, n / 10);
        push_char(s, digit_char_exec(n % 10));
        proof {
            assert(old(s)@ + dec_digits((n / 10) as int) + seq![digit_char((n % 10) as int)]
                =~= old(s)@ + (dec_digits((n / 10) as int) + seq![digit_char((n % 10) as int)]));
        }
    }
}

/// Appends the printed form of `v` to `s`.
pub fn push_i32(s: &mut String, v: i32)
    ensures
        final(s)@ == old(s)@ + int_to_chars(v as int),
{
    if v < 0 {
        push_char(s, '-');
        let m: u64 = (-(v as i64)) as u64;
        push_decimal(s, m);
        proof {
            assert(old(s)@ + seq!['-'] + dec_digits(m as int) =~= old(s)@ + (seq!['-']
                + dec_digits(m as int)));
        }
    } else {
        push_decimal(s, v as u64);
    }
}

/// Printed numbers contain only digits and a possible leading minus sign;
/// in particular neither separator of the wire format occurs in them.
pub proof fn lemma_int_to_chars_shape(v: int)
    requires
        i32::MIN <= v <= i32::MAX,
    ensures
        int_to_chars(v).len() >= 1,
        forall|j: int|
            0 <= j < int_to_chars(v).len() ==> (is_digit(#[trigger] int_to_chars(v)[j])
                || int_to_chars(v)[j] == '-'),
        is_int_literal(int_to_chars(v)),
        int_literal_value(int_to_chars(v)) == v,
{
    if v < 0 {
        lemma_dec_digits(-v);
        assert((seq!['-'] + dec_digits(-v)).skip(1) =~= dec_digits(-v));
        assert forall|j: int| 0 <= j < int_to_chars(v).len() implies (is_digit(
            #[trigger] int_to_chars(v)[j],
        ) || int_to_chars(v)[j] == '-') by {
            if j > 0 {
                assert(int_to_chars(v)[j] == dec_digits(-v)[j - 1]);
            }
        }
        assert(int_to_chars(v)[0] == '-');
    } else {
        lemma_dec_digits(v);
        assert(is_digit(int_to_chars(v)[0]));
        assert(int_to_chars(v)[0] != '-' && int_to_chars(v)[0] != '+');
    }
}

} // verus!
