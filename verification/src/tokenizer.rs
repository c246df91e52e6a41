//! The tokenizer: reads the tokens of the lexical grammar off the
//! normalized text.

use vstd::prelude::*;
use crate::ast::{NumericValue, SourceLocation};
use crate::chars::{
    all_digits, hex_value, is_digit, is_hex_digit, is_name_char, is_name_start, is_non_printable,
    is_whitespace, ascii_lower, read_decimal, string_of, lemma_decimal_value_nonnegative,
};
use crate::lexical::{
    after, bad_url_end, broken, code_point, comment_close, digit_at, digits_end, escape_char,
    escape_end, hex_at, hex_number_with, hex_run, ident_like_token, integer_end, is_at,
    name_char_at, name_chars, name_end, name_start_at, number_end, numeric_at, numeric_token,
    question_run, sign_at, starts_identifier, starts_number, string_scan, token_at, token_within,
    unicode_range_token, url_scan, valid_escape, whitespace_at, whitespace_end,
};
use crate::source::{advance_location, location_at, normalize, normalized};
use crate::token::{Token, TokenView};

verus! {

/// Whether the character `ahead` places after `i` is `c`.
fn peek_is(s: &[char], i: usize, ahead: usize, c: char) -> (r: bool)
    requires
        i <= s@.len(),
    ensures
        r == is_at(s@, i + ahead, c),
{
    ahead < s.len() - i && s[i + ahead] == c
}

fn peek_digit(s: &[char], i: usize, ahead: usize) -> (r: bool)
    requires
        i <= s@.len(),
    ensures
        r == digit_at(s@, i + ahead),
{
    ahead < s.len() - i && is_digit(s[i + ahead])
}

fn peek_hex(s: &[char], i: usize, ahead: usize) -> (r: bool)
    requires
        i <= s@.len(),
    ensures
        r == hex_at(s@, i + ahead),
{
    ahead < s.len() - i && is_hex_digit(s[i + ahead])
}

fn peek_sign(s: &[char], i: usize, ahead: usize) -> (r: bool)
    requires
        i <= s@.len(),
    ensures
        r == sign_at(s@, i + ahead),
{
    peek_is(s, i, ahead, '+') || peek_is(s, i, ahead, '-')
}

fn peek_name_start(s: &[char], i: usize, ahead: usize) -> (r: bool)
    requires
        i <= s@.len(),
    ensures
        r == name_start_at(s@, i + ahead),
{
    ahead < s.len() - i && is_name_start(s[i + ahead])
}

fn peek_valid_escape(s: &[char], i: usize, ahead: usize) -> (r: bool)
    requires
        i <= s@.len(),
    ensures
        r == valid_escape(s@, i + ahead),
{
    if ahead < s.len() - i && s[i + ahead] == '\\' {
        !peek_is(s, i + ahead, 1, '\n')
    } else {
        false
    }
}

fn peek_identifier(s: &[char], i: usize, ahead: usize) -> (r: bool)
    requires
        i <= s@.len(),
    ensures
        r == starts_identifier(s@, i + ahead),
{
    if ahead < s.len() - i {
        let at: usize = i + ahead;
        if s[at] == '-' {
            peek_name_start(s, at, 1) || peek_is(s, at, 1, '-') || peek_valid_escape(s, at, 1)
        } else {
            is_name_start(s[at]) || peek_valid_escape(s, at, 0)
        }
    } else {
        false
    }
}

fn peek_number(s: &[char], i: usize) -> (r: bool)
    requires
        i <= s@.len(),
    ensures
        r == starts_number(s@, i as int),
{
    if peek_sign(s, i, 0) {
        peek_digit(s, i, 1) || (peek_is(s, i, 1, '.') && peek_digit(s, i, 2))
    } else if peek_is(s, i, 0, '.') {
        peek_digit(s, i, 1)
    } else {
        peek_digit(s, i, 0)
    }
}

fn skip_whitespace(s: &[char], i: usize) -> (r: usize)
    requires
        i <= s@.len(),
    ensures
        r == whitespace_end(s@, i as int),
        i <= r <= s@.len(),
        whitespace_at(s@, i as int) ==> i < r,
{
    let mut j: usize = i;
    while j < s.len() && is_whitespace(s[j])
        invariant
            i <= j <= s@.len(),
            whitespace_end(s@, i as int) == whitespace_end(s@, j as int),
        decreases s@.len() - j,
    {
        j = j + 1;
    }
    j
}

fn skip_digits(s: &[char], i: usize) -> (r: usize)
    requires
        i <= s@.len(),
    ensures
        r == digits_end(s@, i as int),
        i <= r <= s@.len(),
        digit_at(s@, i as int) ==> i < r,
        all_digits(s@.subrange(i as int, r as int)),
{
    let mut j: usize = i;
    while j < s.len() && is_digit(s[j])
        invariant
            i <= j <= s@.len(),
            digits_end(s@, i as int) == digits_end(s@, j as int),
            forall|k: int| i <= k < j ==> is_digit(s@[k]),
        decreases s@.len() - j,
    {
        j = j + 1;
    }
    j
}

/// The largest number that `n` hexadecimal digits can write, and one more.
spec fn hex_bound(n: int) -> int {
    if n <= 0 {
        1
    } else if n == 1 {
        0x10
    } else if n == 2 {
        0x100
    } else if n == 3 {
        0x1000
    } else if n == 4 {
        0x1_0000
    } else if n == 5 {
        0x10_0000
    } else {
        0x100_0000
    }
}

/// Reads `s[from..to]`, at most six hexadecimal digits and question marks,
/// as a number, each `?` as the digit `wild`.
fn read_hex(s: &[char], from: usize, to: usize, wild: u32) -> (r: u32)
    requires
        from <= to <= s@.len(),
        to - from <= 6,
        forall|j: int| from <= j < to ==> hex_at(s@, j) || is_at(s@, j, '?'),
        wild <= 15,
    ensures
        r == hex_number_with(s@.subrange(from as int, to as int), wild as int),
        r < 0x100_0000,
{
    let mut value: u32 = 0;
    let mut i: usize = from;
    assert(s@.subrange(from as int, from as int) =~= Seq::<char>::empty());
    while i < to
        invariant
            from <= i <= to <= s@.len(),
            to - from <= 6,
            forall|j: int| from <= j < to ==> hex_at(s@, j) || is_at(s@, j, '?'),
            wild <= 15,
            value == hex_number_with(s@.subrange(from as int, i as int), wild as int),
            value < hex_bound(i - from),
        decreases to - i,
    {
        let c = s[i];
        assert(hex_at(s@, i as int) || is_at(s@, i as int, '?'));
        let ghost next = s@.subrange(from as int, i + 1);
        assert(next.drop_last() =~= s@.subrange(from as int, i as int));
        assert(next.last() == c);
        let digit: u32 = if c == '?' {
            wild
        } else {
            hex_value(c)
        };
        value = value * 16 + digit;
        i = i + 1;
    }
    value
}

/// The number of hexadecimal digits at `i`, six at most.
fn count_hex(s: &[char], i: usize) -> (n: usize)
    requires
        i <= s@.len(),
    ensures
        n == hex_run(s@, i as int, 6),
        n <= 6,
        i + n <= s@.len(),
        forall|j: int| i <= j < i + n ==> hex_at(s@, j),
{
    let mut n: usize = 0;
    while n < 6 && peek_hex(s, i, n)
        invariant
            i <= s@.len(),
            n <= 6,
            i + n <= s@.len(),
            hex_run(s@, i as int, 6) == n + hex_run(s@, i + n, (6 - n) as nat),
            forall|j: int| i <= j < i + n ==> hex_at(s@, j),
        decreases 6 - n,
    {
        n = n + 1;
    }
    n
}

/// The number of question marks at `i`, `max` at most.
fn count_questions(s: &[char], i: usize, max: usize) -> (n: usize)
    requires
        i <= s@.len(),
    ensures
        n == question_run(s@, i as int, max as nat),
        n <= max,
        i + n <= s@.len(),
        forall|j: int| i <= j < i + n ==> is_at(s@, j, '?'),
{
    let mut n: usize = 0;
    while n < max && peek_is(s, i, n, '?')
        invariant
            i <= s@.len(),
            n <= max,
            i + n <= s@.len(),
            question_run(s@, i as int, max as nat) == n + question_run(
                s@,
                i + n,
                (max - n) as nat,
            ),
            forall|j: int| i <= j < i + n ==> is_at(s@, j, '?'),
        decreases max - n,
    {
        n = n + 1;
    }
    n
}

/// The character with the number `v`, or U+FFFD where there is none.
fn code_point_of(v: u32) -> (c: char)
    ensures
        c == code_point(v as int),
{
    if v == 0 {
        '\u{fffd}'
    } else {
        match char::from_u32(v) {
            Some(c) => c,
            None => '\u{fffd}',
        }
    }
}

/// Reads an escape, from the offset after its backslash.
fn consume_escape(s: &[char], i: usize) -> (r: (char, usize))
    requires
        i <= s@.len(),
    ensures
        r.0 == escape_char(s@, i as int),
        r.1 == escape_end(s@, i as int),
        i <= r.1 <= s@.len(),
        i < s@.len() ==> i < r.1,
{
    if i >= s.len() {
        ('\u{fffd}', i)
    } else if is_hex_digit(s[i]) {
        let n = count_hex(s, i);
        let value = read_hex(s, i, i + n, 0);
        let end: usize = if i + n < s.len() && is_whitespace(s[i + n]) {
            i + n + 1
        } else {
            i + n
        };
        (code_point_of(value), end)
    } else {
        (s[i], i + 1)
    }
}

/// Reads a name: name characters and escapes, as many as there are.
fn consume_name(s: &[char], i: usize) -> (r: (String, usize))
    requires
        i <= s@.len(),
    ensures
        r.0@ == name_chars(s@, i as int),
        r.1 == name_end(s@, i as int),
        i <= r.1 <= s@.len(),
        name_char_at(s@, i as int) || valid_escape(s@, i as int) ==> i < r.1,
{
    let mut name = String::new();
    let mut j: usize = i;
    loop
        invariant
            i <= j <= s@.len(),
            name_end(s@, i as int) == name_end(s@, j as int),
            name_chars(s@, i as int) == name@ + name_chars(s@, j as int),
        ensures
            i <= j <= s@.len(),
            name@ == name_chars(s@, i as int),
            j == name_end(s@, i as int),
            name_char_at(s@, i as int) || valid_escape(s@, i as int) ==> i < j,
        decreases s@.len() - j,
    {
        let ghost before = name@;
        if j < s.len() && is_name_char(s[j]) {
            name.push(s[j]);
            assert(name@ + name_chars(s@, j + 1) =~= before + name_chars(s@, j as int));
            j = j + 1;
        } else if peek_valid_escape(s, j, 0) {
            let (c, end) = consume_escape(s, j + 1);
            name.push(c);
            assert(name@ + name_chars(s@, end as int) =~= before + name_chars(s@, j as int));
            j = end;
        } else {
            assert(name@ =~= before + name_chars(s@, j as int));
            break;
        }
    }
    (name, j)
}

/// Reads a quoted string, from the offset after the opening quote.
fn consume_string(s: &[char], i: usize, quote: char) -> (r: (Token, usize))
    requires
        i <= s@.len(),
    ensures
        r.0@ == if string_scan(s@, i as int, quote).ok {
            TokenView::String(string_scan(s@, i as int, quote).chars)
        } else {
            TokenView::BadString
        },
        r.1 == string_scan(s@, i as int, quote).end,
        i <= r.1 <= s@.len(),
{
    let mut value = String::new();
    let mut j: usize = i;
    let ghost whole = string_scan(s@, i as int, quote);
    loop
        invariant
            i <= j <= s@.len(),
            whole == string_scan(s@, i as int, quote),
            whole.ok == string_scan(s@, j as int, quote).ok,
            whole.end == string_scan(s@, j as int, quote).end,
            whole.chars == value@ + string_scan(s@, j as int, quote).chars,
        decreases s@.len() - j,
    {
        let ghost before = value@;
        let ghost here = string_scan(s@, j as int, quote);
        if j >= s.len() {
            assert(value@ =~= before + here.chars);
            return (Token::String(value), j);
        }
        let c = s[j];
        if c == quote {
            assert(value@ =~= before + here.chars);
            return (Token::String(value), j + 1);
        } else if c == '\n' {
            return (Token::BadString, j);
        } else if c == '\\' {
            if j + 1 >= s.len() {
                j = j + 1;
            } else if s[j + 1] == '\n' {
                j = j + 2;
            } else {
                let (escaped, end) = consume_escape(s, j + 1);
                value.push(escaped);
                assert(value@ + string_scan(s@, end as int, quote).chars =~= before + here.chars);
                j = end;
            }
        } else {
            value.push(c);
            assert(value@ + string_scan(s@, j + 1, quote).chars =~= before + here.chars);
            j = j + 1;
        }
    }
}

/// Passes over what is left of a broken URL.
fn skip_bad_url(s: &[char], i: usize) -> (r: usize)
    requires
        i <= s@.len(),
    ensures
        r == bad_url_end(s@, i as int),
        i <= r <= s@.len(),
{
    let mut j: usize = i;
    while j < s.len()
        invariant
            i <= j <= s@.len(),
            bad_url_end(s@, i as int) == bad_url_end(s@, j as int),
        decreases s@.len() - j,
    {
        if s[j] == ')' {
            return j + 1;
        } else if peek_valid_escape(s, j, 0) {
            let (_, end) = consume_escape(s, j + 1);
            j = end;
        } else {
            j = j + 1;
        }
    }
    j
}

/// Reads an unquoted URL, from the offset of its first character.
fn consume_url(s: &[char], i: usize) -> (r: (Token, usize))
    requires
        i <= s@.len(),
    ensures
        r.0@ == if url_scan(s@, i as int).ok {
            TokenView::URL(url_scan(s@, i as int).chars)
        } else {
            TokenView::BadURL
        },
        r.1 == url_scan(s@, i as int).end,
        i <= r.1 <= s@.len(),
{
    let mut value = String::new();
    let mut j: usize = i;
    let ghost whole = url_scan(s@, i as int);
    loop
        invariant
            i <= j <= s@.len(),
            whole == url_scan(s@, i as int),
            whole.ok == url_scan(s@, j as int).ok,
            whole.end == url_scan(s@, j as int).end,
            whole.chars == value@ + url_scan(s@, j as int).chars,
        decreases s@.len() - j,
    {
        let ghost before = value@;
        let ghost here = url_scan(s@, j as int);
        if j >= s.len() {
            assert(value@ =~= before + here.chars);
            return (Token::URL(value), j);
        }
        let c = s[j];
        if c == ')' {
            assert(value@ =~= before + here.chars);
            return (Token::URL(value), j + 1);
        } else if is_whitespace(c) {
            let k = skip_whitespace(s, j);
            if k >= s.len() {
                assert(value@ =~= before + here.chars);
                return (Token::URL(value), k);
            } else if s[k] == ')' {
                assert(value@ =~= before + here.chars);
                return (Token::URL(value), k + 1);
            } else {
                return (Token::BadURL, skip_bad_url(s, k));
            }
        } else if c == '"' || c == '\'' || c == '(' || is_non_printable(c) {
            return (Token::BadURL, skip_bad_url(s, j));
        } else if c == '\\' {
            if peek_valid_escape(s, j, 0) {
                let (escaped, end) = consume_escape(s, j + 1);
                value.push(escaped);
                assert(value@ + url_scan(s@, end as int).chars =~= before + here.chars);
                j = end;
            } else {
                return (Token::BadURL, skip_bad_url(s, j));
            }
        } else {
            value.push(c);
            assert(value@ + url_scan(s@, j + 1).chars =~= before + here.chars);
            j = j + 1;
        }
    }
}

/// Finds the `*/` that closes a comment whose text starts at `i`.
fn find_comment_close(s: &[char], i: usize) -> (r: usize)
    requires
        i <= s@.len(),
    ensures
        r == comment_close(s@, i as int),
        i <= r <= s@.len(),
        r < s@.len() ==> r + 2 <= s@.len(),
{
    let mut j: usize = i;
    while j < s.len()
        invariant
            i <= j <= s@.len(),
            comment_close(s@, i as int) == comment_close(s@, j as int),
        decreases s@.len() - j,
    {
        if s[j] == '*' && peek_is(s, j, 1, '/') {
            return j;
        }
        j = j + 1;
    }
    j
}

/// Reads the number that starts at `i`: its text, its integer value where it
/// has one, and its end.
fn consume_number(s: &[char], i: usize) -> (r: (NumericValue, usize))
    requires
        i <= s@.len(),
        starts_number(s@, i as int),
    ensures
        r.0@ == numeric_at(s@, i as int),
        r.1 == number_end(s@, i as int),
        i < r.1 <= s@.len(),
{
    let len: usize = s.len();
    let negative = peek_is(s, i, 0, '-');
    let first: usize = if peek_sign(s, i, 0) {
        i + 1
    } else {
        i
    };
    let integer_end = skip_digits(s, first);
    let mut is_integer = true;
    let mut end: usize = integer_end;
    if peek_is(s, end, 0, '.') && peek_digit(s, end, 1) {
        is_integer = false;
        end = skip_digits(s, end + 1);
    }
    if (peek_is(s, end, 0, 'e') || peek_is(s, end, 0, 'E')) && (peek_digit(s, end, 1) || (
    peek_sign(s, end, 1) && peek_digit(s, end, 2))) {
        is_integer = false;
        let digits: usize = if peek_sign(s, end, 1) {
            end + 2
        } else {
            end + 1
        };
        end = skip_digits(s, digits);
    }
    let int_value: Option<i64> = if is_integer {
        proof {
            lemma_decimal_value_nonnegative(s@.subrange(first as int, integer_end as int));
        }
        match read_decimal(s, first, integer_end, 0x8000_0000) {
            Some(v) => {
                let signed: i64 = if negative {
                    -(v as i64)
                } else {
                    v as i64
                };
                if signed <= 0x7fff_ffff {
                    Some(signed)
                } else {
                    None
                }
            },
            None => None,
        }
    } else {
        None
    };
    let representation = string_of(s, i, end);
    (NumericValue { representation, int_value }, end)
}

/// Reads a number, a percentage or a dimension.
fn consume_numeric(s: &[char], i: usize) -> (r: (Token, usize))
    requires
        i <= s@.len(),
        starts_number(s@, i as int),
    ensures
        (r.0@, r.1 as int) == numeric_token(s@, i as int),
        i < r.1 <= s@.len(),
{
    let len: usize = s.len();
    let (value, end) = consume_number(s, i);
    if peek_identifier(s, end, 0) {
        let (unit, unit_end) = consume_name(s, end);
        (Token::Dimension(value, unit), unit_end)
    } else if peek_is(s, end, 0, '%') {
        (Token::Percentage(value), end + 1)
    } else {
        (Token::Number(value), end)
    }
}

/// Reads an identifier, a function or a URL.
fn consume_ident_like(s: &[char], i: usize) -> (r: (Token, usize))
    requires
        i <= s@.len(),
        starts_identifier(s@, i as int),
    ensures
        (r.0@, r.1 as int) == ident_like_token(s@, i as int),
        i < r.1 <= s@.len(),
{
    let len: usize = s.len();
    let (name, end) = consume_name(s, i);
    if peek_is(s, end, 0, '(') {
        if end - i == 3 && ascii_lower(s[i]) == 'u' && ascii_lower(s[i + 1]) == 'r' && ascii_lower(
            s[i + 2],
        ) == 'l' {
            let start = skip_whitespace(s, end + 1);
            if peek_is(s, start, 0, '"') || peek_is(s, start, 0, '\'') {
                (Token::Function(name), end + 1)
            } else {
                consume_url(s, start)
            }
        } else {
            (Token::Function(name), end + 1)
        }
    } else {
        (Token::Ident(name), end)
    }
}

/// Reads a unicode range, from the offset after `u+`.
fn consume_unicode_range(s: &[char], i: usize) -> (r: (Token, usize))
    requires
        i <= s@.len(),
        hex_at(s@, i as int) || is_at(s@, i as int, '?'),
    ensures
        (r.0@, r.1 as int) == unicode_range_token(s@, i as int),
        i < r.1 <= s@.len(),
{
    let len: usize = s.len();
    let h = count_hex(s, i);
    let q = count_questions(s, i + h, 6 - h);
    let first_end: usize = i + h + q;
    let start: u32;
    let end: u32;
    let token_end: usize;
    if q > 0 {
        start = read_hex(s, i, first_end, 0);
        end = read_hex(s, i, first_end, 15);
        token_end = first_end;
    } else if peek_is(s, first_end, 0, '-') && peek_hex(s, first_end, 1) {
        let h2 = count_hex(s, first_end + 1);
        start = read_hex(s, i, first_end, 0);
        end = read_hex(s, first_end + 1, first_end + 1 + h2, 0);
        token_end = first_end + 1 + h2;
    } else {
        start = read_hex(s, i, first_end, 0);
        end = start;
        token_end = first_end;
    }
    let last: u32 = if end <= 0x10FFFF {
        end
    } else {
        0x10FFFF
    };
    let first: u32 = if start <= last {
        start
    } else {
        last
    };
    (Token::UnicodeRange(first, last), token_end)
}

/// Reads the token that starts at `i`.
pub fn next_token(s: &[char], i: usize) -> (r: (Token, usize))
    requires
        i < s@.len(),
    ensures
        (r.0@, r.1 as int) == token_at(s@, i as int),
        i < r.1 <= s@.len(),
{
    let len: usize = s.len();
    let c = s[i];
    if is_whitespace(c) {
        let end = skip_whitespace(s, i);
        (Token::WhiteSpace, end)
    } else if c == '"' || c == '\'' {
        consume_string(s, i + 1, c)
    } else if c == '#' {
        if (i + 1 < s.len() && is_name_char(s[i + 1])) || peek_valid_escape(s, i, 1) {
            let id = peek_identifier(s, i, 1);
            let (name, end) = consume_name(s, i + 1);
            if id {
                (Token::IDHash(name), end)
            } else {
                (Token::Hash(name), end)
            }
        } else {
            (Token::Delim(c), i + 1)
        }
    } else if c == '$' && peek_is(s, i, 1, '=') {
        (Token::SuffixMatch, i + 2)
    } else if c == '*' && peek_is(s, i, 1, '=') {
        (Token::SubstringMatch, i + 2)
    } else if c == '^' && peek_is(s, i, 1, '=') {
        (Token::PrefixMatch, i + 2)
    } else if c == '~' && peek_is(s, i, 1, '=') {
        (Token::IncludeMatch, i + 2)
    } else if c == '|' && peek_is(s, i, 1, '=') {
        (Token::DashMatch, i + 2)
    } else if c == '|' && peek_is(s, i, 1, '|') {
        (Token::Column, i + 2)
    } else if c == '(' {
        (Token::ParenthesisBlock, i + 1)
    } else if c == ')' {
        (Token::CloseParenthesis, i + 1)
    } else if c == '[' {
        (Token::SquareBracketBlock, i + 1)
    } else if c == ']' {
        (Token::CloseSquareBracket, i + 1)
    } else if c == '{' {
        (Token::CurlyBracketBlock, i + 1)
    } else if c == '}' {
        (Token::CloseCurlyBracket, i + 1)
    } else if c == ',' {
        (Token::Comma, i + 1)
    } else if c == ':' {
        (Token::Colon, i + 1)
    } else if c == ';' {
        (Token::Semicolon, i + 1)
    } else if peek_number(s, i) {
        consume_numeric(s, i)
    } else if c == '-' && peek_is(s, i, 1, '-') && peek_is(s, i, 2, '>') {
        (Token::CDC, i + 3)
    } else if c == '<' && peek_is(s, i, 1, '!') && peek_is(s, i, 2, '-') && peek_is(s, i, 3, '-') {
        (Token::CDO, i + 4)
    } else if c == '/' && peek_is(s, i, 1, '*') {
        let close = find_comment_close(s, i + 2);
        let text = string_of(s, i + 2, close);
        let end: usize = if close < s.len() {
            close + 2
        } else {
            close
        };
        (Token::Comment(text), end)
    } else if c == '@' && peek_identifier(s, i, 1) {
        let (name, end) = consume_name(s, i + 1);
        (Token::AtKeyword(name), end)
    } else if (c == 'u' || c == 'U') && peek_is(s, i, 1, '+') && (peek_hex(s, i, 2) || peek_is(
        s,
        i,
        2,
        '?',
    )) {
        consume_unicode_range(s, i + 2)
    } else if peek_identifier(s, i, 0) {
        consume_ident_like(s, i)
    } else {
        (Token::Delim(c), i + 1)
    }
}

/// A cursor over the normalized source text that hands out one token per
/// call.
pub struct Tokenizer {
    input: Vec<char>,
    position: usize,
}

impl Tokenizer {
    #[verifier::type_invariant]
    spec fn inv(self) -> bool {
        self.position <= self.input@.len()
    }

    /// The normalized text.
    pub closed spec fn text(&self) -> Seq<char> {
        self.input@
    }

    /// The offset of the next character.
    pub closed spec fn offset(&self) -> int {
        self.position as int
    }

    /// A tokenizer at the start of `input`, normalized.
    pub fn new(input: &str) -> (r: Tokenizer)
        ensures
            r.text() == normalized(input@),
            r.offset() == 0,
    {
        Tokenizer { input: normalize(input), position: 0 }
    }

    /// The offset of the next character.
    pub fn position(&self) -> (r: usize)
        ensures
            r == self.offset(),
            r <= self.text().len(),
    {
        proof {
            use_type_invariant(self);
        }
        self.position
    }

    /// The number of characters of the normalized text.
    pub fn len(&self) -> (r: usize)
        ensures
            r == self.text().len(),
    {
        self.input.len()
    }

    /// Goes back, or forth, to an offset within the text.
    pub fn reset(&mut self, position: usize)
        requires
            position <= old(self).text().len(),
        ensures
            final(self).text() == old(self).text(),
            final(self).offset() == position,
    {
        self.position = position;
    }

    /// Whether the text is read to its end.
    pub fn is_eof(&self) -> (r: bool)
        ensures
            r == (self.offset() >= self.text().len()),
    {
        self.position >= self.input.len()
    }

    /// The character `ahead` places after the next one, if the text reaches
    /// that far.
    pub fn peek(&self, ahead: usize) -> (r: Option<char>)
        ensures
            r == if self.offset() + ahead < self.text().len() {
                Some(self.text()[self.offset() + ahead])
            } else {
                None
            },
    {
        proof {
            use_type_invariant(self);
        }
        if ahead < self.input.len() - self.position {
            Some(self.input[self.position + ahead])
        } else {
            None
        }
    }

    /// Passes over `count` characters, or over what is left if that is less.
    pub fn advance(&mut self, count: usize)
        ensures
            final(self).text() == old(self).text(),
            final(self).offset() == if old(self).offset() + count <= old(self).text().len() {
                old(self).offset() + count
            } else {
                old(self).text().len() as int
            },
    {
        proof {
            use_type_invariant(&*self);
        }
        if count <= self.input.len() - self.position {
            self.position = self.position + count;
        } else {
            self.position = self.input.len();
        }
    }

    /// Takes the next character.
    pub fn consume_char(&mut self) -> (r: Option<char>)
        ensures
            final(self).text() == old(self).text(),
            r == if old(self).offset() < old(self).text().len() {
                Some(old(self).text()[old(self).offset()])
            } else {
                None
            },
            final(self).offset() == if r is Some {
                old(self).offset() + 1
            } else {
                old(self).offset()
            },
    {
        proof {
            use_type_invariant(&*self);
        }
        if self.position < self.input.len() {
            let c = self.input[self.position];
            self.position = self.position + 1;
            Some(c)
        } else {
            None
        }
    }

    /// Line and column of the next character.
    pub fn source_location(&self) -> (r: SourceLocation)
        ensures
            r == location_at(self.text(), self.offset()),
    {
        proof {
            use_type_invariant(self);
        }
        advance_location(
            self.input.as_slice(),
            0,
            self.position,
            SourceLocation { line: 1, column: 1 },
        )
    }

    /// The next token, or nothing at the end of the text.
    pub fn next(&mut self) -> (r: Option<Token>)
        ensures
            final(self).text() == old(self).text(),
            match r {
                Some(token) => {
                    &&& token_within(old(self).text(), old(self).offset())
                    &&& token@ == token_at(old(self).text(), old(self).offset()).0
                    &&& final(self).offset() == token_at(old(self).text(), old(self).offset()).1
                },
                None => {
                    &&& old(self).offset() >= old(self).text().len()
                    &&& final(self).offset() == old(self).offset()
                },
            },
    {
        proof {
            use_type_invariant(&*self);
        }
        if self.position < self.input.len() {
            let (token, end) = next_token(self.input.as_slice(), self.position);
            self.position = end;
            Some(token)
        } else {
            None
        }
    }
}

} // verus!
