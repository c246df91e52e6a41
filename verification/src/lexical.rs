//! The lexical grammar: which token starts at an offset of the normalized
//! text, what it holds and where it ends.
//!
//! Everything here is a mathematical function of the text `s` and an offset
//! into it. Offsets past the end stand for the end of the input.

use vstd::prelude::*;
use crate::chars::{
    all_digits, decimal_value, spec_hex_value, spec_is_digit, spec_is_hex_digit, spec_is_name_char,
    spec_is_name_start, spec_is_non_printable, spec_is_whitespace, spec_ascii_lower,
};
use crate::nth::fits_i32;
use crate::token::{NumericView, TokenView};

verus! {

/// Whether the character `c` stands at offset `i`.
pub open spec fn is_at(s: Seq<char>, i: int, c: char) -> bool {
    0 <= i < s.len() && s[i] == c
}

/// Whether whitespace stands at offset `i`.
pub open spec fn whitespace_at(s: Seq<char>, i: int) -> bool {
    0 <= i < s.len() && spec_is_whitespace(s[i])
}

/// Whether a decimal digit stands at offset `i`.
pub open spec fn digit_at(s: Seq<char>, i: int) -> bool {
    0 <= i < s.len() && spec_is_digit(s[i])
}

/// Whether a hexadecimal digit stands at offset `i`.
pub open spec fn hex_at(s: Seq<char>, i: int) -> bool {
    0 <= i < s.len() && spec_is_hex_digit(s[i])
}

/// Whether a character that can start a name stands at offset `i`.
pub open spec fn name_start_at(s: Seq<char>, i: int) -> bool {
    0 <= i < s.len() && spec_is_name_start(s[i])
}

/// Whether a character of a name stands at offset `i`.
pub open spec fn name_char_at(s: Seq<char>, i: int) -> bool {
    0 <= i < s.len() && spec_is_name_char(s[i])
}

/// Whether `+` or `-` stands at offset `i`.
pub open spec fn sign_at(s: Seq<char>, i: int) -> bool {
    is_at(s, i, '+') || is_at(s, i, '-')
}

/// Whether a quote stands at offset `i`.
pub open spec fn quote_at(s: Seq<char>, i: int) -> bool {
    is_at(s, i, '"') || is_at(s, i, '\'')
}

/// A backslash starts an escape unless a line feed follows it.
pub open spec fn valid_escape(s: Seq<char>, i: int) -> bool {
    is_at(s, i, '\\') && !is_at(s, i + 1, '\n')
}

/// Whether an identifier starts at `i`.
pub open spec fn starts_identifier(s: Seq<char>, i: int) -> bool {
    if is_at(s, i, '-') {
        name_start_at(s, i + 1) || is_at(s, i + 1, '-') || valid_escape(s, i + 1)
    } else {
        name_start_at(s, i) || valid_escape(s, i)
    }
}

/// Whether a number starts at `i`.
pub open spec fn starts_number(s: Seq<char>, i: int) -> bool {
    if sign_at(s, i) {
        digit_at(s, i + 1) || (is_at(s, i + 1, '.') && digit_at(s, i + 2))
    } else if is_at(s, i, '.') {
        digit_at(s, i + 1)
    } else {
        digit_at(s, i)
    }
}

/// The end of the run of whitespace that starts at `i`.
pub open spec fn whitespace_end(s: Seq<char>, i: int) -> int
    decreases s.len() - i,
{
    if whitespace_at(s, i) {
        whitespace_end(s, i + 1)
    } else {
        i
    }
}

/// The end of the run of decimal digits that starts at `i`.
pub open spec fn digits_end(s: Seq<char>, i: int) -> int
    decreases s.len() - i,
{
    if digit_at(s, i) {
        digits_end(s, i + 1)
    } else {
        i
    }
}

/// The number of hexadecimal digits that start at `i`, `max` at most.
pub open spec fn hex_run(s: Seq<char>, i: int, max: nat) -> nat
    decreases max,
{
    if max > 0 && hex_at(s, i) {
        1 + hex_run(s, i + 1, (max - 1) as nat)
    } else {
        0
    }
}

/// The number of question marks that start at `i`, `max` at most.
pub open spec fn question_run(s: Seq<char>, i: int, max: nat) -> nat
    decreases max,
{
    if max > 0 && is_at(s, i, '?') {
        1 + question_run(s, i + 1, (max - 1) as nat)
    } else {
        0
    }
}

/// The number that hexadecimal digits write, each `?` among them read as
/// the digit `wild`.
pub open spec fn hex_number_with(s: Seq<char>, wild: int) -> int
    decreases s.len(),
{
    if s.len() == 0 {
        0
    } else {
        hex_number_with(s.drop_last(), wild) * 16 + if s.last() == '?' {
            wild
        } else {
            spec_hex_value(s.last())
        }
    }
}

/// The number that hexadecimal digits write.
pub open spec fn hex_number(s: Seq<char>) -> int {
    hex_number_with(s, 0)
}

/// The character with the number `v`, or U+FFFD where there is none: for
/// zero, for a surrogate and above U+10FFFF.
pub open spec fn code_point(v: int) -> char {
    if v <= 0 || 0xD800 <= v <= 0xDFFF || v > 0x10FFFF {
        '\u{fffd}'
    } else {
        v as char
    }
}

/// How many characters an escape takes after its backslash, when `i` is the
/// offset after the backslash: up to six hexadecimal digits and one
/// whitespace character after them, or any one other character, or nothing
/// at the end of the input.
pub open spec fn escape_len(s: Seq<char>, i: int) -> nat {
    if hex_at(s, i) {
        let n = hex_run(s, i, 6);
        if whitespace_at(s, i + n) {
            n + 1
        } else {
            n
        }
    } else if 0 <= i < s.len() {
        1
    } else {
        0
    }
}

/// The end of the escape whose backslash stands before `i`.
pub open spec fn escape_end(s: Seq<char>, i: int) -> int {
    i + escape_len(s, i)
}

/// The character that the escape stands for, when `i` is the offset after
/// its backslash.
pub open spec fn escape_char(s: Seq<char>, i: int) -> char {
    if hex_at(s, i) {
        code_point(hex_number(s.subrange(i, i + hex_run(s, i, 6))))
    } else if 0 <= i < s.len() {
        s[i]
    } else {
        '\u{fffd}'
    }
}

/// A run of hexadecimal digits holds such digits only, it is not longer
/// than it may be, and it ends within the text.
pub proof fn lemma_hex_run(s: Seq<char>, i: int, max: nat)
    requires
        0 <= i,
    ensures
        hex_run(s, i, max) <= max,
        i + hex_run(s, i, max) <= s.len() || hex_run(s, i, max) == 0,
        forall|j: int| i <= j < i + hex_run(s, i, max) ==> hex_at(s, j),
        hex_run(s, i, max) < max ==> !hex_at(s, i + hex_run(s, i, max)),
    decreases max,
{
    if max > 0 && hex_at(s, i) {
        lemma_hex_run(s, i + 1, (max - 1) as nat);
    }
}

/// A run of question marks holds question marks only, it is not longer
/// than it may be, and it ends within the text.
pub proof fn lemma_question_run(s: Seq<char>, i: int, max: nat)
    requires
        0 <= i,
    ensures
        question_run(s, i, max) <= max,
        i + question_run(s, i, max) <= s.len() || question_run(s, i, max) == 0,
        forall|j: int| i <= j < i + question_run(s, i, max) ==> is_at(s, j, '?'),
    decreases max,
{
    if max > 0 && is_at(s, i, '?') {
        lemma_question_run(s, i + 1, (max - 1) as nat);
    }
}

/// An escape ends within the text, and after its start unless the text
/// ends there.
pub proof fn lemma_escape_end(s: Seq<char>, i: int)
    requires
        0 <= i <= s.len(),
    ensures
        i <= escape_end(s, i) <= s.len(),
        i < s.len() ==> i < escape_end(s, i),
{
    lemma_hex_run(s, i, 6);
}

/// The end of the name that starts at `i`: name characters and escapes, as
/// many as there are.
pub open spec fn name_end(s: Seq<char>, i: int) -> int
    decreases s.len() - i,
    via name_end_decreases
{
    if name_char_at(s, i) {
        name_end(s, i + 1)
    } else if valid_escape(s, i) {
        name_end(s, escape_end(s, i + 1))
    } else {
        i
    }
}

#[via_fn]
proof fn name_end_decreases(s: Seq<char>, i: int) {
    if !name_char_at(s, i) && valid_escape(s, i) {
        lemma_escape_end(s, i + 1);
    }
}

/// The characters of the name that starts at `i`, escapes resolved.
pub open spec fn name_chars(s: Seq<char>, i: int) -> Seq<char>
    decreases s.len() - i,
    via name_chars_decreases
{
    if name_char_at(s, i) {
        seq![s[i]] + name_chars(s, i + 1)
    } else if valid_escape(s, i) {
        seq![escape_char(s, i + 1)] + name_chars(s, escape_end(s, i + 1))
    } else {
        Seq::empty()
    }
}

#[via_fn]
proof fn name_chars_decreases(s: Seq<char>, i: int) {
    if !name_char_at(s, i) && valid_escape(s, i) {
        lemma_escape_end(s, i + 1);
    }
}

/// What scanning a string or a URL finds: whether it is well formed, where
/// it ends, and the characters it holds.
pub struct Scan {
    pub ok: bool,
    pub end: int,
    pub chars: Seq<char>,
}

/// A scan that ends well at `end`, with no characters yet.
pub open spec fn found(end: int) -> Scan {
    Scan { ok: true, end, chars: Seq::empty() }
}

/// A scan that ends badly at `end`.
pub open spec fn broken(end: int) -> Scan {
    Scan { ok: false, end, chars: Seq::empty() }
}

/// A scan with the character `c` before the characters of `rest`.
pub open spec fn after(c: char, rest: Scan) -> Scan {
    Scan { ok: rest.ok, end: rest.end, chars: seq![c] + rest.chars }
}

/// Scans a quoted string from `i`, the offset after the opening quote.
///
/// The string ends after the closing quote or at the end of the input. A
/// line feed breaks it, and is left where it is. A backslash before a line
/// feed hides the line feed, one at the very end of the input stands for
/// nothing, and any other starts an escape.
pub open spec fn string_scan(s: Seq<char>, i: int, quote: char) -> Scan
    decreases s.len() - i,
    via string_scan_decreases
{
    if i < 0 || i >= s.len() {
        found(i)
    } else if s[i] == quote {
        found(i + 1)
    } else if s[i] == '\n' {
        broken(i)
    } else if s[i] == '\\' {
        if i + 1 >= s.len() {
            string_scan(s, i + 1, quote)
        } else if s[i + 1] == '\n' {
            string_scan(s, i + 2, quote)
        } else {
            after(escape_char(s, i + 1), string_scan(s, escape_end(s, i + 1), quote))
        }
    } else {
        after(s[i], string_scan(s, i + 1, quote))
    }
}

#[via_fn]
proof fn string_scan_decreases(s: Seq<char>, i: int, quote: char) {
    if 0 <= i && i + 1 < s.len() {
        lemma_escape_end(s, i + 1);
    }
}

/// The end of what is left of a broken URL from `i` on: after the next `)`
/// that is not escaped, or the end of the input.
pub open spec fn bad_url_end(s: Seq<char>, i: int) -> int
    decreases s.len() - i,
    via bad_url_end_decreases
{
    if i < 0 || i >= s.len() {
        i
    } else if s[i] == ')' {
        i + 1
    } else if valid_escape(s, i) {
        bad_url_end(s, escape_end(s, i + 1))
    } else {
        bad_url_end(s, i + 1)
    }
}

#[via_fn]
proof fn bad_url_end_decreases(s: Seq<char>, i: int) {
    if 0 <= i < s.len() {
        lemma_escape_end(s, i + 1);
    }
}

/// Scans an unquoted URL from `i`, the offset of its first character.
///
/// The URL ends after `)` or at the end of the input; whitespace may stand
/// before either. Whitespace before anything else, a quote, `(`, a control
/// character and a backslash before a line feed break it.
pub open spec fn url_scan(s: Seq<char>, i: int) -> Scan
    decreases s.len() - i,
    via url_scan_decreases
{
    if i < 0 || i >= s.len() {
        found(i)
    } else if s[i] == ')' {
        found(i + 1)
    } else if spec_is_whitespace(s[i]) {
        let k = whitespace_end(s, i);
        if k >= s.len() {
            found(k)
        } else if s[k] == ')' {
            found(k + 1)
        } else {
            broken(bad_url_end(s, k))
        }
    } else if s[i] == '"' || s[i] == '\'' || s[i] == '(' || spec_is_non_printable(s[i]) {
        broken(bad_url_end(s, i))
    } else if s[i] == '\\' {
        if valid_escape(s, i) {
            after(escape_char(s, i + 1), url_scan(s, escape_end(s, i + 1)))
        } else {
            broken(bad_url_end(s, i))
        }
    } else {
        after(s[i], url_scan(s, i + 1))
    }
}

#[via_fn]
proof fn url_scan_decreases(s: Seq<char>, i: int) {
    if 0 <= i < s.len() {
        lemma_escape_end(s, i + 1);
    }
}

/// The offset of the `*/` that closes a comment whose text starts at `i`,
/// or the end of the input where nothing closes it.
pub open spec fn comment_close(s: Seq<char>, i: int) -> int
    decreases s.len() - i,
{
    if i < 0 || i >= s.len() {
        s.len() as int
    } else if s[i] == '*' && is_at(s, i + 1, '/') {
        i
    } else {
        comment_close(s, i + 1)
    }
}

/// The length of the sign at `i`: one where a sign stands there.
pub open spec fn sign_len(s: Seq<char>, i: int) -> int {
    if sign_at(s, i) {
        1
    } else {
        0
    }
}

/// The end of the sign and the integer digits of the number at `i`.
pub open spec fn integer_end(s: Seq<char>, i: int) -> int {
    digits_end(s, i + sign_len(s, i))
}

/// A fraction is a `.` with a digit after it.
pub open spec fn has_fraction(s: Seq<char>, i: int) -> bool {
    is_at(s, integer_end(s, i), '.') && digit_at(s, integer_end(s, i) + 1)
}

/// The end of the fraction of the number at `i`, or of its integer digits
/// where it has no fraction.
pub open spec fn fraction_end(s: Seq<char>, i: int) -> int {
    if has_fraction(s, i) {
        digits_end(s, integer_end(s, i) + 1)
    } else {
        integer_end(s, i)
    }
}

/// An exponent is `e` or `E` with a digit after it, or with a sign and then
/// a digit.
pub open spec fn has_exponent(s: Seq<char>, i: int) -> bool {
    let c = fraction_end(s, i);
    (is_at(s, c, 'e') || is_at(s, c, 'E')) && (digit_at(s, c + 1) || (sign_at(s, c + 1)
        && digit_at(s, c + 2)))
}

/// The end of the number that starts at `i`.
pub open spec fn number_end(s: Seq<char>, i: int) -> int {
    let c = fraction_end(s, i);
    if has_exponent(s, i) {
        digits_end(s, c + 1 + sign_len(s, c + 1))
    } else {
        c
    }
}

/// The integer that the number at `i` writes, where it has neither a
/// fraction nor an exponent and fits in 32 bits.
pub open spec fn number_int_value(s: Seq<char>, i: int) -> Option<i64> {
    if has_fraction(s, i) || has_exponent(s, i) {
        None
    } else {
        let v = decimal_value(s.subrange(i + sign_len(s, i), integer_end(s, i)));
        let signed = if is_at(s, i, '-') {
            -v
        } else {
            v
        };
        if fits_i32(signed) {
            Some(signed as i64)
        } else {
            None
        }
    }
}

/// The numeric value of the number at `i`: its text and its integer value.
pub open spec fn numeric_at(s: Seq<char>, i: int) -> NumericView {
    NumericView {
        representation: s.subrange(i, number_end(s, i)),
        int_value: number_int_value(s, i),
    }
}

/// The token that a number at `i` starts, and its end: a dimension where an
/// identifier follows the number, a percentage where `%` does.
pub open spec fn numeric_token(s: Seq<char>, i: int) -> (TokenView, int) {
    let e = number_end(s, i);
    if starts_identifier(s, e) {
        (TokenView::Dimension(numeric_at(s, i), name_chars(s, e)), name_end(s, e))
    } else if is_at(s, e, '%') {
        (TokenView::Percentage(numeric_at(s, i)), e + 1)
    } else {
        (TokenView::Number(numeric_at(s, i)), e)
    }
}

/// Whether `s[i..e]` spells `url` in any ASCII case, with no escape.
pub open spec fn is_url_word(s: Seq<char>, i: int, e: int) -> bool {
    e == i + 3 && 0 <= i && e <= s.len() && spec_ascii_lower(s[i]) == 'u' && spec_ascii_lower(
        s[i + 1],
    ) == 'r' && spec_ascii_lower(s[i + 2]) == 'l'
}

/// The token that a name at `i` starts, and its end.
///
/// A name before `(` is a function, and the token ends after the `(`. The
/// word `url` before `(` starts a URL instead, unless a quote follows the
/// `(` and the whitespace after it.
pub open spec fn ident_like_token(s: Seq<char>, i: int) -> (TokenView, int) {
    let e = name_end(s, i);
    if is_at(s, e, '(') {
        if is_url_word(s, i, e) && !quote_at(s, whitespace_end(s, e + 1)) {
            let url = url_scan(s, whitespace_end(s, e + 1));
            if url.ok {
                (TokenView::URL(url.chars), url.end)
            } else {
                (TokenView::BadURL, url.end)
            }
        } else {
            (TokenView::Function(name_chars(s, i)), e + 1)
        }
    } else {
        (TokenView::Ident(name_chars(s, i)), e)
    }
}

/// Whether a unicode range starts at `i`: `u` or `U`, then `+`, then a
/// hexadecimal digit or `?`.
pub open spec fn starts_unicode_range(s: Seq<char>, i: int) -> bool {
    (is_at(s, i, 'u') || is_at(s, i, 'U')) && is_at(s, i + 1, '+') && (hex_at(s, i + 2) || is_at(
        s,
        i + 2,
        '?',
    ))
}

/// The smaller of two numbers.
pub open spec fn min(a: int, b: int) -> int {
    if a <= b {
        a
    } else {
        b
    }
}

/// The token of the unicode range whose digits start at `i`, and its end.
///
/// Up to six digits and question marks give both ends of the range, each
/// `?` read as `0` for the start and as `F` for the end. Without a question
/// mark, `-` and up to six more digits give the end. The end is at most
/// U+10FFFF and the start at most the end.
pub open spec fn unicode_range_token(s: Seq<char>, i: int) -> (TokenView, int) {
    let h = hex_run(s, i, 6);
    let q = question_run(s, i + h, (6 - h) as nat);
    let first = s.subrange(i, i + h + q);
    let (start, end, token_end) = if q > 0 {
        (hex_number_with(first, 0), hex_number_with(first, 15), i + h + q)
    } else if is_at(s, i + h, '-') && hex_at(s, i + h + 1) {
        let h2 = hex_run(s, i + h + 1, 6);
        (
            hex_number(first),
            hex_number(s.subrange(i + h + 1, i + h + 1 + h2)),
            i + h + 1 + h2,
        )
    } else {
        (hex_number(first), hex_number(first), i + h)
    };
    let last = min(end, 0x10FFFF);
    (TokenView::UnicodeRange(min(start, last) as u32, last as u32), token_end)
}

/// The token that starts at `i` and the offset where it ends, for an offset
/// inside the text.
pub open spec fn token_at(s: Seq<char>, i: int) -> (TokenView, int)
    recommends
        0 <= i < s.len(),
{
    let c = s[i];
    if spec_is_whitespace(c) {
        (TokenView::WhiteSpace, whitespace_end(s, i))
    } else if c == '"' || c == '\'' {
        let string = string_scan(s, i + 1, c);
        if string.ok {
            (TokenView::String(string.chars), string.end)
        } else {
            (TokenView::BadString, string.end)
        }
    } else if c == '#' {
        if name_char_at(s, i + 1) || valid_escape(s, i + 1) {
            if starts_identifier(s, i + 1) {
                (TokenView::IDHash(name_chars(s, i + 1)), name_end(s, i + 1))
            } else {
                (TokenView::Hash(name_chars(s, i + 1)), name_end(s, i + 1))
            }
        } else {
            (TokenView::Delim(c), i + 1)
        }
    } else if c == '$' && is_at(s, i + 1, '=') {
        (TokenView::SuffixMatch, i + 2)
    } else if c == '*' && is_at(s, i + 1, '=') {
        (TokenView::SubstringMatch, i + 2)
    } else if c == '^' && is_at(s, i + 1, '=') {
        (TokenView::PrefixMatch, i + 2)
    } else if c == '~' && is_at(s, i + 1, '=') {
        (TokenView::IncludeMatch, i + 2)
    } else if c == '|' && is_at(s, i + 1, '=') {
        (TokenView::DashMatch, i + 2)
    } else if c == '|' && is_at(s, i + 1, '|') {
        (TokenView::Column, i + 2)
    } else if c == '(' {
        (TokenView::ParenthesisBlock, i + 1)
    } else if c == ')' {
        (TokenView::CloseParenthesis, i + 1)
    } else if c == '[' {
        (TokenView::SquareBracketBlock, i + 1)
    } else if c == ']' {
        (TokenView::CloseSquareBracket, i + 1)
    } else if c == '{' {
        (TokenView::CurlyBracketBlock, i + 1)
    } else if c == '}' {
        (TokenView::CloseCurlyBracket, i + 1)
    } else if c == ',' {
        (TokenView::Comma, i + 1)
    } else if c == ':' {
        (TokenView::Colon, i + 1)
    } else if c == ';' {
        (TokenView::Semicolon, i + 1)
    } else if starts_number(s, i) {
        numeric_token(s, i)
    } else if c == '-' && is_at(s, i + 1, '-') && is_at(s, i + 2, '>') {
        (TokenView::CDC, i + 3)
    } else if c == '<' && is_at(s, i + 1, '!') && is_at(s, i + 2, '-') && is_at(s, i + 3, '-') {
        (TokenView::CDO, i + 4)
    } else if c == '/' && is_at(s, i + 1, '*') {
        let close = comment_close(s, i + 2);
        (TokenView::Comment(s.subrange(i + 2, close)), min(close + 2, s.len() as int))
    } else if c == '@' && starts_identifier(s, i + 1) {
        (TokenView::AtKeyword(name_chars(s, i + 1)), name_end(s, i + 1))
    } else if starts_unicode_range(s, i) {
        unicode_range_token(s, i + 2)
    } else if starts_identifier(s, i) {
        ident_like_token(s, i)
    } else {
        (TokenView::Delim(c), i + 1)
    }
}

/// Whether a token starts at `i` and ends after `i`, within the text.
pub open spec fn token_within(s: Seq<char>, i: int) -> bool {
    0 <= i < s.len() && i < token_at(s, i).1 <= s.len()
}

/// The tokens of the text from offset `i` on.
pub open spec fn tokens_from(s: Seq<char>, i: int) -> Seq<TokenView>
    decreases s.len() - i,
{
    if token_within(s, i) {
        seq![token_at(s, i).0] + tokens_from(s, token_at(s, i).1)
    } else {
        Seq::empty()
    }
}

/// The offsets at which the tokens of the text from offset `i` on start.
pub open spec fn token_starts_from(s: Seq<char>, i: int) -> Seq<int>
    decreases s.len() - i,
{
    if token_within(s, i) {
        seq![i] + token_starts_from(s, token_at(s, i).1)
    } else {
        Seq::empty()
    }
}

/// The tokens of a text.
pub open spec fn tokens_of(s: Seq<char>) -> Seq<TokenView> {
    tokens_from(s, 0)
}

/// The offsets at which the tokens of a text start.
pub open spec fn token_starts_of(s: Seq<char>) -> Seq<int> {
    token_starts_from(s, 0)
}

/// A run of digits holds digits only, and no digit follows it.
pub proof fn lemma_digits_end(s: Seq<char>, i: int)
    requires
        0 <= i <= s.len(),
    ensures
        i <= digits_end(s, i) <= s.len(),
        forall|j: int| i <= j < digits_end(s, i) ==> digit_at(s, j),
        !digit_at(s, digits_end(s, i)),
    decreases s.len() - i,
{
    if digit_at(s, i) {
        lemma_digits_end(s, i + 1);
    }
}

/// Whether a text is an integer as it is written: a sign or none, and then
/// digits and nothing else.
pub open spec fn is_integer_text(text: Seq<char>) -> bool {
    sign_len(text, 0) < text.len() && all_digits(text.skip(sign_len(text, 0)))
}

/// The integer that an integer text writes.
pub open spec fn integer_text_value(text: Seq<char>) -> int {
    if is_at(text, 0, '-') {
        -decimal_value(text.skip(sign_len(text, 0)))
    } else {
        decimal_value(text.skip(sign_len(text, 0)))
    }
}

/// A number has an integer value exactly where its representation is an
/// integer as it is written and the integer fits in 32 bits, and the value
/// is then that integer.
pub proof fn lemma_int_value_of_representation(s: Seq<char>, i: int)
    requires
        0 <= i < s.len(),
        starts_number(s, i),
    ensures
        numeric_at(s, i).int_value is Some <==> is_integer_text(numeric_at(s, i).representation)
            && fits_i32(integer_text_value(numeric_at(s, i).representation)),
        numeric_at(s, i).int_value is Some ==> numeric_at(s, i).int_value->0
            == integer_text_value(numeric_at(s, i).representation),
{
    let first = i + sign_len(s, i);
    let whole = integer_end(s, i);
    let end = number_end(s, i);
    let text = s.subrange(i, end);
    lemma_digits_end(s, first);
    if has_fraction(s, i) {
        lemma_digits_end(s, whole + 1);
    }
    if has_exponent(s, i) {
        lemma_digits_end(s, fraction_end(s, i) + 1 + sign_len(s, fraction_end(s, i) + 1));
    }
    assert(text[0] == s[i]);
    assert(sign_len(text, 0) == sign_len(s, i));
    if has_fraction(s, i) {
        assert(text.skip(sign_len(text, 0))[whole - first] == '.');
        assert(!is_integer_text(text));
    } else if has_exponent(s, i) {
        assert(text.skip(sign_len(text, 0))[whole - first] == s[whole]);
        assert(!is_integer_text(text));
    } else {
        assert(text.skip(sign_len(text, 0)) =~= s.subrange(first, whole));
        assert(is_integer_text(text)) by {
            assert forall|j: int| 0 <= j < s.subrange(first, whole).len() implies spec_is_digit(
                #[trigger] s.subrange(first, whole)[j],
            ) by {
                assert(digit_at(s, first + j));
            }
        }
    }
}

/// A run of digits that ends within a part of the text is the same run
/// in that part alone.
pub proof fn lemma_digits_end_in_part(s: Seq<char>, i: int, e: int, a: int)
    requires
        0 <= i <= a <= e <= s.len(),
        digits_end(s, a) <= e,
    ensures
        digits_end(s.subrange(i, e), a - i) == digits_end(s, a) - i,
    decreases s.len() - a,
{
    let part = s.subrange(i, e);
    lemma_digits_end(s, a);
    if digit_at(s, a) {
        assert(part[a - i] == s[a]);
        lemma_digits_end_in_part(s, i, e, a + 1);
    } else if a < e {
        assert(part[a - i] == s[a]);
    }
}

/// The representation of a number is read as the same number again.
///
/// The text of the number that starts at `i`, read from its own start, is
/// a number that ends with the text and has the same representation and
/// the same integer value, and it is read as a number token.
pub proof fn lemma_representation_round_trip(s: Seq<char>, i: int)
    requires
        0 <= i < s.len(),
        starts_number(s, i),
    ensures
        starts_number(numeric_at(s, i).representation, 0),
        number_end(numeric_at(s, i).representation, 0) == numeric_at(s, i).representation.len(),
        numeric_at(numeric_at(s, i).representation, 0) == numeric_at(s, i),
        token_at(numeric_at(s, i).representation, 0) == (
            TokenView::Number(numeric_at(s, i)),
            numeric_at(s, i).representation.len() as int,
        ),
{
    let e = number_end(s, i);
    let part = s.subrange(i, e);
    let first = i + sign_len(s, i);
    let whole = integer_end(s, i);
    let c = fraction_end(s, i);
    lemma_digits_end(s, first);
    if has_fraction(s, i) {
        lemma_digits_end(s, whole + 1);
    }
    if has_exponent(s, i) {
        lemma_digits_end(s, c + 1 + sign_len(s, c + 1));
    }
    assert(first <= whole <= c <= e <= s.len());
    assert(i < e);
    assert forall|k: int| 0 <= k < part.len() implies part[k] == s[i + k] by {}
    assert(part[0] == s[i]);
    assert(sign_len(part, 0) == sign_len(s, i));
    // The integer digits.
    lemma_digits_end_in_part(s, i, e, first);
    assert(integer_end(part, 0) == whole - i);
    // The fraction.
    if has_fraction(s, i) {
        assert(part[whole - i] == s[whole]);
        assert(part[whole + 1 - i] == s[whole + 1]);
        lemma_digits_end_in_part(s, i, e, whole + 1);
    } else {
        if whole < e {
            assert(part[whole - i] == s[whole]);
            if whole + 1 < e {
                assert(part[whole + 1 - i] == s[whole + 1]);
            }
        }
        if is_at(s, whole, '.') {
            assert(!has_exponent(s, i));
        }
    }
    assert(has_fraction(part, 0) == has_fraction(s, i));
    assert(fraction_end(part, 0) == c - i);
    // The exponent.
    if has_exponent(s, i) {
        assert(part[c - i] == s[c]);
        assert(part[c + 1 - i] == s[c + 1]);
        if sign_at(s, c + 1) {
            assert(part[c + 2 - i] == s[c + 2]);
        }
        lemma_digits_end_in_part(s, i, e, c + 1 + sign_len(s, c + 1));
        assert(sign_len(part, c + 1 - i) == sign_len(s, c + 1));
    } else {
        assert(e == c);
    }
    assert(has_exponent(part, 0) == has_exponent(s, i));
    assert(number_end(part, 0) == e - i);
    assert(part.subrange(0, part.len() as int) =~= part);
    assert(part.subrange(sign_len(part, 0), integer_end(part, 0)) =~= s.subrange(first, whole));
    assert(is_at(part, 0, '-') == is_at(s, i, '-'));
    assert(number_int_value(part, 0) == number_int_value(s, i));
    assert(starts_number(part, 0)) by {
        if first < e {
            assert(part[first - i] == s[first]);
        }
        if first + 1 < e {
            assert(part[first + 1 - i] == s[first + 1]);
        }
    }
}

} // verus!
