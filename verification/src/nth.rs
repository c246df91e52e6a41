//! The `An+B` notation of `:nth-child()` and its kin.

use vstd::prelude::*;
use crate::ast::{
    skip_whitespace_from, ComponentValue, NumericValue, SkipWhitespaceIterable,
    SkipWhitespaceIterator,
};
use crate::chars::{
    all_digits, chars_of, decimal_value, is_digit, lemma_decimal_value_nonnegative, lower_chars_of,
    lowercase, read_decimal, tail_of,
};

verus! {

/// Whether a number fits in 32 bits with a sign.
pub open spec fn fits_i32(v: int) -> bool {
    -0x8000_0000 <= v <= 0x7fff_ffff
}

/// The integer that a numeric value stands for, where it stands for one that
/// fits in 32 bits.
pub open spec fn spec_integer_of(value: NumericValue) -> Option<i32> {
    match value.int_value {
        Some(v) => if fits_i32(v as int) {
            Some(v as i32)
        } else {
            None
        },
        None => None,
    }
}

fn integer_of(value: &NumericValue) -> (r: Option<i32>)
    ensures
        r == spec_integer_of(*value),
{
    match value.int_value {
        Some(v) => if -0x8000_0000 <= v && v <= 0x7fff_ffff {
            Some(v as i32)
        } else {
            None
        },
        None => None,
    }
}

/// What `n-` followed by digits stands for: the digits as a negative number.
/// Nothing for any other word, and nothing where the number does not fit in
/// 32 bits.
pub open spec fn n_dash_digits(word: Seq<char>) -> Option<i32> {
    if word.len() >= 3 && word[0] == 'n' && word[1] == '-' && all_digits(word.skip(2))
        && decimal_value(word.skip(2)) <= 0x8000_0000 {
        Some((-decimal_value(word.skip(2))) as i32)
    } else {
        None
    }
}

/// The end of the notation: only whitespace may follow.
pub open spec fn nth_end(rest: Seq<ComponentValue>, a: i32, b: i32) -> Result<(i32, i32), ()> {
    if skip_whitespace_from(rest, 0) >= rest.len() {
        Ok((a, b))
    } else {
        Err(())
    }
}

/// After a sign that stood alone: an integer without a sign, then the end.
pub open spec fn nth_signless_b(rest: Seq<ComponentValue>, a: i32, b_sign: int) -> Result<
    (i32, i32),
    (),
> {
    let k = skip_whitespace_from(rest, 0);
    if k < rest.len() && rest[k] is Number && spec_integer_of(rest[k]->Number_0) is Some
        && !rest[k]->Number_0.spec_has_sign() && fits_i32(
        b_sign * spec_integer_of(rest[k]->Number_0)->0,
    ) {
        nth_end(rest.skip(k + 1), a, (b_sign * spec_integer_of(rest[k]->Number_0)->0) as i32)
    } else {
        Err(())
    }
}

/// After `An`: nothing, a sign and an integer, or an integer with its sign.
pub open spec fn nth_b(rest: Seq<ComponentValue>, a: i32) -> Result<(i32, i32), ()> {
    let k = skip_whitespace_from(rest, 0);
    if k >= rest.len() {
        Ok((a, 0))
    } else {
        match rest[k] {
            ComponentValue::Delim(c) => if c == '+' {
                nth_signless_b(rest.skip(k + 1), a, 1)
            } else if c == '-' {
                nth_signless_b(rest.skip(k + 1), a, -1)
            } else {
                Err(())
            },
            ComponentValue::Number(value) => if value.spec_has_sign() && spec_integer_of(value)
                is Some {
                nth_end(rest.skip(k + 1), a, spec_integer_of(value)->0)
            } else {
                Err(())
            },
            _ => Err(()),
        }
    }
}

/// After the coefficient `a`: the lower-case `word` is `n`, `n-` or `n-`
/// with digits, and `rest` holds what follows it.
pub open spec fn nth_after_a(word: Seq<char>, rest: Seq<ComponentValue>, a: i32) -> Result<
    (i32, i32),
    (),
> {
    if word.len() == 1 && word[0] == 'n' {
        nth_b(rest, a)
    } else if word.len() == 2 && word[0] == 'n' && word[1] == '-' {
        nth_signless_b(rest, a, -1)
    } else {
        match n_dash_digits(word) {
            Some(b) => nth_end(rest, a, b),
            None => Err(()),
        }
    }
}

/// Whether a word is `even`.
pub open spec fn is_even(word: Seq<char>) -> bool {
    word.len() == 4 && word[0] == 'e' && word[1] == 'v' && word[2] == 'e' && word[3] == 'n'
}

/// Whether a word is `odd`.
pub open spec fn is_odd(word: Seq<char>) -> bool {
    word.len() == 3 && word[0] == 'o' && word[1] == 'd' && word[2] == 'd'
}

/// The pair `(A, B)` that the component values write in the `An+B` notation.
///
/// Whitespace may stand anywhere but between a leading `+` and the `n` that
/// follows it. Keywords and the `n` are read without regard to ASCII case.
pub open spec fn spec_parse_nth(input: Seq<ComponentValue>) -> Result<(i32, i32), ()> {
    let k = skip_whitespace_from(input, 0);
    if k >= input.len() {
        Err(())
    } else {
        let rest = input.skip(k + 1);
        match input[k] {
            ComponentValue::Number(value) => match spec_integer_of(value) {
                Some(b) => nth_end(rest, 0, b),
                None => Err(()),
            },
            ComponentValue::Dimension(value, unit) => match spec_integer_of(value) {
                Some(a) => nth_after_a(lowercase(unit@), rest, a),
                None => Err(()),
            },
            ComponentValue::Ident(value) => {
                let word = lowercase(value@);
                if is_even(word) {
                    nth_end(rest, 2, 0)
                } else if is_odd(word) {
                    nth_end(rest, 2, 1)
                } else if word.len() > 0 && word[0] == '-' {
                    nth_after_a(word.skip(1), rest, -1i32)
                } else {
                    nth_after_a(word, rest, 1)
                }
            },
            ComponentValue::Delim(c) => if c == '+' && rest.len() > 0 && rest[0] is Ident {
                nth_after_a(lowercase(rest[0]->Ident_0@), rest.skip(1), 1)
            } else {
                Err(())
            },
            _ => Err(()),
        }
    }
}

/// Parse the An+B notation, as found in the `:nth-child()` selector.
/// The input is typically the arguments of a function component value.
/// Return `Ok((A, B))`, or `Err(())` for a syntax error.
pub fn parse_nth(input: &[ComponentValue]) -> (r: Result<(i32, i32), ()>)
    ensures
        r == spec_parse_nth(input@),
{
    let mut iter = input.skip_whitespace();
    match iter.next() {
        Some(ComponentValue::Number(value)) => match integer_of(value) {
            Some(b) => parse_end(&mut iter, 0, b),
            None => Err(()),
        },
        Some(ComponentValue::Dimension(value, unit)) => match integer_of(value) {
            Some(a) => {
                let word = lower_chars_of(unit.as_str());
                parse_after_a(word.as_slice(), &mut iter, a)
            },
            None => Err(()),
        },
        Some(ComponentValue::Ident(value)) => {
            let word = lower_chars_of(value.as_str());
            if word.len() == 4 && word[0] == 'e' && word[1] == 'v' && word[2] == 'e' && word[3]
                == 'n' {
                parse_end(&mut iter, 2, 0)
            } else if word.len() == 3 && word[0] == 'o' && word[1] == 'd' && word[2] == 'd' {
                parse_end(&mut iter, 2, 1)
            } else if word.len() > 0 && word[0] == '-' {
                parse_after_a(tail_of(word.as_slice(), 1), &mut iter, -1)
            } else {
                parse_after_a(word.as_slice(), &mut iter, 1)
            }
        },
        Some(ComponentValue::Delim(c)) => {
            if *c == '+' {
                match iter.next_including_whitespace() {
                    Some(ComponentValue::Ident(value)) => {
                        let word = lower_chars_of(value.as_str());
                        parse_after_a(word.as_slice(), &mut iter, 1)
                    },
                    _ => Err(()),
                }
            } else {
                Err(())
            }
        },
        _ => Err(()),
    }
}

fn parse_after_a(word: &[char], iter: &mut SkipWhitespaceIterator, a: i32) -> (r: Result<
    (i32, i32),
    (),
>)
    ensures
        r == nth_after_a(word@, old(iter)@, a),
{
    if word.len() == 1 && word[0] == 'n' {
        parse_b(iter, a)
    } else if word.len() == 2 && word[0] == 'n' && word[1] == '-' {
        parse_signless_b(iter, a, -1)
    } else {
        match n_dash_digits_of(word) {
            Some(b) => parse_end(iter, a, b),
            None => Err(()),
        }
    }
}

fn parse_b(iter: &mut SkipWhitespaceIterator, a: i32) -> (r: Result<(i32, i32), ()>)
    ensures
        r == nth_b(old(iter)@, a),
{
    match iter.next() {
        None => Ok((a, 0)),
        Some(ComponentValue::Delim(c)) => {
            if *c == '+' {
                parse_signless_b(iter, a, 1)
            } else if *c == '-' {
                parse_signless_b(iter, a, -1)
            } else {
                Err(())
            }
        },
        Some(ComponentValue::Number(value)) => match integer_of(value) {
            Some(b) => if value.has_sign() {
                parse_end(iter, a, b)
            } else {
                Err(())
            },
            None => Err(()),
        },
        _ => Err(()),
    }
}

fn parse_signless_b(iter: &mut SkipWhitespaceIterator, a: i32, b_sign: i32) -> (r: Result<
    (i32, i32),
    (),
>)
    requires
        b_sign == 1 || b_sign == -1,
    ensures
        r == nth_signless_b(old(iter)@, a, b_sign as int),
{
    match iter.next() {
        Some(ComponentValue::Number(value)) => match integer_of(value) {
            Some(b) => if !value.has_sign() && (b_sign == 1 || b > i32::MIN) {
                parse_end(iter, a, b_sign * b)
            } else {
                Err(())
            },
            None => Err(()),
        },
        _ => Err(()),
    }
}

fn parse_end(iter: &mut SkipWhitespaceIterator, a: i32, b: i32) -> (r: Result<(i32, i32), ()>)
    ensures
        r == nth_end(old(iter)@, a, b),
{
    match iter.next() {
        None => Ok((a, b)),
        Some(_) => Err(()),
    }
}

fn n_dash_digits_of(word: &[char]) -> (r: Option<i32>)
    ensures
        r == n_dash_digits(word@),
{
    if word.len() >= 3 && word[0] == 'n' && word[1] == '-' {
        let mut i: usize = 2;
        while i < word.len()
            invariant
                2 <= i <= word@.len(),
                forall|j: int| 2 <= j < i ==> is_digit(word@[j]),
            decreases word@.len() - i,
        {
            if !is_digit(word[i]) {
                assert(!is_digit(word@.skip(2)[i - 2]));
                return None;
            }
            i = i + 1;
        }
        assert(word@.skip(2) =~= word@.subrange(2, word@.len() as int));
        assert(all_digits(word@.skip(2)));
        proof {
            lemma_decimal_value_nonnegative(word@.skip(2));
        }
        match read_decimal(word, 2, word.len(), 0x8000_0000) {
            Some(v) => {
                let b: i64 = -(v as i64);
                Some(b as i32)
            },
            None => None,
        }
    } else {
        None
    }
}

/// Reads `n-` followed by digits as the negative number that the digits
/// write.
pub fn parse_n_dash_digits(string: &str) -> (r: Option<i32>)
    ensures
        r == n_dash_digits(string@),
{
    let word = chars_of(string);
    n_dash_digits_of(word.as_slice())
}

} // verus!
