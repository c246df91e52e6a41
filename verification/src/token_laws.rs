//! What holds of every token that is read in a normalized text: names are
//! not empty and hold no NUL, numbers are read again in their own text,
//! and each token ends after it starts.

use vstd::prelude::*;
use crate::chars::{spec_is_hex_digit, spec_is_whitespace};
use crate::lexical::{
    bad_url_end, comment_close, escape_char, escape_end, hex_at, hex_number, hex_number_with,
    hex_run, ident_like_token, is_at, lemma_digits_end, lemma_escape_end, lemma_hex_run,
    lemma_question_run, lemma_representation_round_trip, name_char_at, name_chars, name_end,
    number_end, numeric_token, question_run, starts_identifier, starts_number, starts_unicode_range,
    string_scan, token_at, token_within, tokens_from, unicode_range_token, url_scan, valid_escape,
    whitespace_at, whitespace_end, fraction_end, has_exponent, has_fraction, integer_end, sign_len,
};
use crate::reading::no_nul;
use crate::lexical::number_int_value;
use crate::round_trip::{is_delim_char, is_name, is_number_text, is_unrestricted_name};
use crate::source::is_normalized;
use crate::token::{NumericView, TokenView};

verus! {

/// The character of an escape in a normalized text is no NUL.
pub proof fn lemma_escape_no_nul(s: Seq<char>, i: int)
    requires
        is_normalized(s),
        0 <= i <= s.len(),
    ensures
        escape_char(s, i) != '\0',
{
    if hex_at(s, i) {
        let v = hex_number(s.subrange(i, i + hex_run(s, i, 6)));
        if !(v <= 0 || 0xD800 <= v <= 0xDFFF || v > 0x10FFFF) {
            assert(v as char != '\0');
        }
    } else if i < s.len() {
        assert(s[i] != '\0');
    }
}

/// A name that is read in a normalized text holds no NUL and ends within
/// the text, and it is not empty where a name character or an escape
/// stands at its start.
pub proof fn lemma_name_no_nul(s: Seq<char>, i: int)
    requires
        is_normalized(s),
        0 <= i <= s.len(),
    ensures
        no_nul(name_chars(s, i)),
        i <= name_end(s, i) <= s.len(),
        name_char_at(s, i) || valid_escape(s, i) ==> name_chars(s, i).len() > 0 && i < name_end(
            s,
            i,
        ),
    decreases s.len() - i,
{
    if name_char_at(s, i) {
        lemma_name_no_nul(s, i + 1);
        let rest = name_chars(s, i + 1);
        assert(s[i] != '\0');
        assert forall|k: int| 0 <= k < name_chars(s, i).len() implies #[trigger] name_chars(
            s,
            i,
        )[k] != '\0' by {
            if k > 0 {
                assert(name_chars(s, i)[k] == rest[k - 1]);
            }
        }
    } else if valid_escape(s, i) {
        lemma_escape_end(s, i + 1);
        lemma_escape_no_nul(s, i + 1);
        lemma_name_no_nul(s, escape_end(s, i + 1));
        let rest = name_chars(s, escape_end(s, i + 1));
        assert forall|k: int| 0 <= k < name_chars(s, i).len() implies #[trigger] name_chars(
            s,
            i,
        )[k] != '\0' by {
            if k > 0 {
                assert(name_chars(s, i)[k] == rest[k - 1]);
            }
        }
    }
}

/// A string that is read in a normalized text holds no NUL and ends
/// within the text, and a line feed stands where a bad string ends.
pub proof fn lemma_string_no_nul(s: Seq<char>, i: int, quote: char)
    requires
        is_normalized(s),
        0 <= i <= s.len(),
    ensures
        no_nul(string_scan(s, i, quote).chars),
        i <= string_scan(s, i, quote).end <= s.len(),
        !string_scan(s, i, quote).ok ==> is_at(s, string_scan(s, i, quote).end, '\n'),
    decreases s.len() - i,
{
    if i < s.len() && s[i] != quote && s[i] != '\n' {
        if s[i] == '\\' {
            if i + 1 >= s.len() {
                lemma_string_no_nul(s, i + 1, quote);
            } else if s[i + 1] == '\n' {
                lemma_string_no_nul(s, i + 2, quote);
            } else {
                lemma_escape_end(s, i + 1);
                lemma_escape_no_nul(s, i + 1);
                lemma_string_no_nul(s, escape_end(s, i + 1), quote);
                let rest = string_scan(s, escape_end(s, i + 1), quote).chars;
                let all = string_scan(s, i, quote).chars;
                assert forall|k: int| 0 <= k < all.len() implies #[trigger] all[k] != '\0' by {
                    if k > 0 {
                        assert(all[k] == rest[k - 1]);
                    }
                }
            }
        } else {
            lemma_string_no_nul(s, i + 1, quote);
            let rest = string_scan(s, i + 1, quote).chars;
            let all = string_scan(s, i, quote).chars;
            assert(s[i] != '\0');
            assert forall|k: int| 0 <= k < all.len() implies #[trigger] all[k] != '\0' by {
                if k > 0 {
                    assert(all[k] == rest[k - 1]);
                }
            }
        }
    }
}

/// A run of whitespace ends within the text, and after its start where
/// whitespace stands there.
pub proof fn lemma_whitespace_end(s: Seq<char>, i: int)
    requires
        0 <= i <= s.len(),
    ensures
        i <= whitespace_end(s, i) <= s.len(),
        whitespace_at(s, i) ==> i < whitespace_end(s, i),
    decreases s.len() - i,
{
    if whitespace_at(s, i) {
        lemma_whitespace_end(s, i + 1);
    }
}

/// What is left of a broken URL ends within the text.
pub proof fn lemma_bad_url_end(s: Seq<char>, i: int)
    requires
        0 <= i <= s.len(),
    ensures
        i <= bad_url_end(s, i) <= s.len(),
    decreases s.len() - i,
{
    if i < s.len() && s[i] != ')' {
        if valid_escape(s, i) {
            lemma_escape_end(s, i + 1);
            lemma_bad_url_end(s, escape_end(s, i + 1));
        } else {
            lemma_bad_url_end(s, i + 1);
        }
    }
}

/// A URL that is read in a normalized text holds no NUL and ends within
/// the text.
pub proof fn lemma_url_no_nul(s: Seq<char>, i: int)
    requires
        is_normalized(s),
        0 <= i <= s.len(),
    ensures
        no_nul(url_scan(s, i).chars),
        i <= url_scan(s, i).end <= s.len(),
    decreases s.len() - i,
{
    if i < s.len() && s[i] != ')' {
        if spec_is_whitespace(s[i]) {
            lemma_whitespace_end(s, i);
            lemma_bad_url_end(s, whitespace_end(s, i));
        } else if s[i] == '"' || s[i] == '\'' || s[i] == '(' || crate::chars::spec_is_non_printable(
            s[i],
        ) {
            lemma_bad_url_end(s, i);
        } else if s[i] == '\\' {
            if valid_escape(s, i) {
                lemma_escape_end(s, i + 1);
                lemma_escape_no_nul(s, i + 1);
                lemma_url_no_nul(s, escape_end(s, i + 1));
                let rest = url_scan(s, escape_end(s, i + 1)).chars;
                let all = url_scan(s, i).chars;
                assert forall|k: int| 0 <= k < all.len() implies #[trigger] all[k] != '\0' by {
                    if k > 0 {
                        assert(all[k] == rest[k - 1]);
                    }
                }
            } else {
                lemma_bad_url_end(s, i);
            }
        } else {
            lemma_url_no_nul(s, i + 1);
            let rest = url_scan(s, i + 1).chars;
            let all = url_scan(s, i).chars;
            assert(s[i] != '\0');
            assert forall|k: int| 0 <= k < all.len() implies #[trigger] all[k] != '\0' by {
                if k > 0 {
                    assert(all[k] == rest[k - 1]);
                }
            }
        }
    }
}

/// A comment is closed within the text, or at its end.
pub proof fn lemma_comment_close(s: Seq<char>, i: int)
    requires
        0 <= i <= s.len(),
    ensures
        i <= comment_close(s, i) <= s.len(),
    decreases s.len() - i,
{
    if i < s.len() && !(s[i] == '*' && is_at(s, i + 1, '/')) {
        lemma_comment_close(s, i + 1);
    }
}

/// A number ends after it starts, within the text.
pub proof fn lemma_number_end(s: Seq<char>, i: int)
    requires
        0 <= i < s.len(),
        starts_number(s, i),
    ensures
        i < number_end(s, i) <= s.len(),
{
    let first = i + sign_len(s, i);
    lemma_digits_end(s, first);
    if has_fraction(s, i) {
        lemma_digits_end(s, integer_end(s, i) + 1);
    }
    if has_exponent(s, i) {
        let c = fraction_end(s, i);
        lemma_digits_end(s, c + 1 + sign_len(s, c + 1));
    }
}

/// Digits and question marks write a number that is not negative, and
/// they write no less where a question mark stands for more.
pub proof fn lemma_hex_number_with(s: Seq<char>, wild: int)
    requires
        forall|k: int| 0 <= k < s.len() ==> spec_is_hex_digit(#[trigger] s[k]) || s[k] == '?',
        0 <= wild,
    ensures
        0 <= hex_number_with(s, 0) <= hex_number_with(s, wild),
    decreases s.len(),
{
    if s.len() > 0 {
        let front = s.drop_last();
        assert forall|k: int| 0 <= k < front.len() implies spec_is_hex_digit(#[trigger] front[k])
            || front[k] == '?' by {
            assert(front[k] == s[k]);
        }
        lemma_hex_number_with(front, wild);
        assert(spec_is_hex_digit(s[s.len() - 1]) || s[s.len() - 1] == '?');
    }
}

/// Whether a numeric value is the number that its own text writes.
pub open spec fn numeric_ok(number: NumericView) -> bool {
    is_number_text(number.representation) && number.int_value == number_int_value(
        number.representation,
        0,
    )
}

/// Whether a token is as it is read in a normalized text: names are not
/// empty and hold no NUL, numbers have the text of a number, a delimiter
/// is a character that can stand alone, and a unicode range is in order.
pub open spec fn token_ok(token: TokenView) -> bool {
    match token {
        TokenView::Ident(name) => is_name(name),
        TokenView::AtKeyword(name) => is_name(name),
        TokenView::Hash(name) => is_unrestricted_name(name),
        TokenView::IDHash(name) => is_name(name),
        TokenView::Function(name) => is_name(name),
        TokenView::String(value) => no_nul(value),
        TokenView::URL(value) => no_nul(value),
        TokenView::Delim(c) => is_delim_char(c),
        TokenView::Number(number) => numeric_ok(number),
        TokenView::Percentage(number) => numeric_ok(number),
        TokenView::Dimension(number, unit) => numeric_ok(number) && is_name(unit),
        TokenView::UnicodeRange(start, end) => start <= end <= 0x10FFFF,
        _ => true,
    }
}

/// Whether a token ends before a line feed that its text would hold: a
/// `\` that stands alone, and a bad string.
pub open spec fn token_leaves_line_feed(token: TokenView) -> bool {
    token is BadString || token == TokenView::Delim('\\')
}

/// What `lemma_token_ok` states of the token at `i`.
pub open spec fn token_read_ok(s: Seq<char>, i: int) -> bool {
    &&& token_within(s, i)
    &&& token_ok(token_at(s, i).0)
    &&& token_leaves_line_feed(token_at(s, i).0) ==> is_at(s, token_at(s, i).1, '\n')
}

proof fn lemma_numeric_token_ok(s: Seq<char>, i: int)
    requires
        is_normalized(s),
        0 <= i < s.len(),
        starts_number(s, i),
    ensures
        i < numeric_token(s, i).1 <= s.len(),
        token_ok(numeric_token(s, i).0),
        !token_leaves_line_feed(numeric_token(s, i).0),
{
    lemma_number_end(s, i);
    lemma_representation_round_trip(s, i);
    let e = number_end(s, i);
    lemma_name_no_nul(s, e);
}

proof fn lemma_ident_like_token_ok(s: Seq<char>, i: int)
    requires
        is_normalized(s),
        0 <= i < s.len(),
        starts_identifier(s, i),
    ensures
        i < ident_like_token(s, i).1 <= s.len(),
        token_ok(ident_like_token(s, i).0),
        !token_leaves_line_feed(ident_like_token(s, i).0),
{
    lemma_name_no_nul(s, i);
    let e = name_end(s, i);
    if is_at(s, e, '(') {
        lemma_whitespace_end(s, e + 1);
        lemma_url_no_nul(s, whitespace_end(s, e + 1));
    }
}

proof fn lemma_unicode_range_token_ok(s: Seq<char>, i: int)
    requires
        0 <= i < s.len(),
        hex_at(s, i) || is_at(s, i, '?'),
    ensures
        i < unicode_range_token(s, i).1 <= s.len(),
        token_ok(unicode_range_token(s, i).0),
        unicode_range_token(s, i).0 is UnicodeRange,
{
    let h = hex_run(s, i, 6);
    lemma_hex_run(s, i, 6);
    let q = question_run(s, i + h, (6 - h) as nat);
    lemma_question_run(s, i + h, (6 - h) as nat);
    let first = s.subrange(i, i + h + q);
    assert forall|k: int| 0 <= k < first.len() implies spec_is_hex_digit(#[trigger] first[k])
        || first[k] == '?' by {
        assert(first[k] == s[i + k]);
        if k < h {
            assert(hex_at(s, i + k));
        } else {
            assert(is_at(s, i + k, '?'));
        }
    }
    lemma_hex_number_with(first, 15);
    lemma_hex_number_with(first, 0);
    if q == 0 && is_at(s, i + h, '-') && hex_at(s, i + h + 1) {
        let h2 = hex_run(s, i + h + 1, 6);
        lemma_hex_run(s, i + h + 1, 6);
        let second = s.subrange(i + h + 1, i + h + 1 + h2);
        assert forall|k: int| 0 <= k < second.len() implies spec_is_hex_digit(
            #[trigger] second[k],
        ) || second[k] == '?' by {
            assert(second[k] == s[i + h + 1 + k]);
            assert(hex_at(s, i + h + 1 + k));
        }
        lemma_hex_number_with(second, 0);
    }
}

proof fn lemma_hash_token_ok(s: Seq<char>, i: int)
    requires
        is_normalized(s),
        0 <= i < s.len(),
        s[i] == '#',
        name_char_at(s, i + 1) || valid_escape(s, i + 1),
    ensures
        token_read_ok(s, i),
{
    lemma_name_no_nul(s, i + 1);
    if !starts_identifier(s, i + 1) {
        let name = name_chars(s, i + 1);
        assert(name_char_at(s, i + 1));
        assert(name[0] == s[i + 1]);
        if s[i + 1] == '-' {
            if i + 2 <= s.len() {
                lemma_name_no_nul(s, i + 2);
            }
            if name_char_at(s, i + 2) {
                assert(name_chars(s, i + 2)[0] == s[i + 2]);
                assert(name[1] == s[i + 2]);
            } else {
                assert(name_chars(s, i + 2) =~= Seq::<char>::empty());
                assert(name.len() == 1);
            }
        }
    }
}

/// Every token that is read in a normalized text is as `token_ok` says,
/// it ends after it starts and within the text, and a line feed follows
/// it where it is a `\` that stands alone or a bad string.
pub proof fn lemma_token_ok(s: Seq<char>, i: int)
    requires
        is_normalized(s),
        0 <= i < s.len(),
    ensures
        token_read_ok(s, i),
{
    let c = s[i];
    assert(c != '\0' && c != '\r' && c != '\u{c}');
    if spec_is_whitespace(c) {
        lemma_whitespace_end(s, i);
    } else if c == '"' || c == '\'' {
        lemma_string_no_nul(s, i + 1, c);
    } else if c == '#' {
        if name_char_at(s, i + 1) || valid_escape(s, i + 1) {
            lemma_hash_token_ok(s, i);
        }
    } else if c == '$' || c == '*' || c == '^' || c == '~' || c == '|' {
    } else if c == '(' || c == ')' || c == '[' || c == ']' || c == '{' || c == '}' || c == ','
        || c == ':' || c == ';' {
    } else if starts_number(s, i) {
        lemma_numeric_token_ok(s, i);
    } else if c == '-' && is_at(s, i + 1, '-') && is_at(s, i + 2, '>') {
    } else if c == '<' && is_at(s, i + 1, '!') && is_at(s, i + 2, '-') && is_at(s, i + 3, '-') {
    } else if c == '/' && is_at(s, i + 1, '*') {
        lemma_comment_close(s, i + 2);
    } else if c == '@' && starts_identifier(s, i + 1) {
        lemma_name_no_nul(s, i + 1);
    } else if starts_unicode_range(s, i) {
        lemma_unicode_range_token_ok(s, i + 2);
    } else if starts_identifier(s, i) {
        lemma_ident_like_token_ok(s, i);
    } else {
        assert(token_at(s, i) == (TokenView::Delim(c), i + 1));
    }
}

/// Whether tokens are as they are read in a normalized text: each is as
/// `token_ok` says, and whitespace follows each that leaves a line feed.
pub open spec fn tokens_ok(tokens: Seq<TokenView>) -> bool {
    forall|k: int|
        0 <= k < tokens.len() ==> token_ok(#[trigger] tokens[k]) && (token_leaves_line_feed(
            tokens[k],
        ) ==> k + 1 < tokens.len() && tokens[k + 1] is WhiteSpace)
}

/// The tokens of a normalized text are as `tokens_ok` says, and the first
/// of them is whitespace where whitespace stands at the start.
pub proof fn lemma_tokens_ok(s: Seq<char>, i: int)
    requires
        is_normalized(s),
        0 <= i <= s.len(),
    ensures
        tokens_ok(tokens_from(s, i)),
        i < s.len() ==> tokens_from(s, i).len() > 0 && tokens_from(s, i)[0] == token_at(s, i).0,
    decreases s.len() - i,
{
    if i < s.len() {
        lemma_token_ok(s, i);
        let end = token_at(s, i).1;
        lemma_tokens_ok(s, end);
        let rest = tokens_from(s, end);
        let all = tokens_from(s, i);
        assert(all =~= seq![token_at(s, i).0] + rest);
        assert forall|k: int| 0 <= k < all.len() implies token_ok(#[trigger] all[k]) && (
        token_leaves_line_feed(all[k]) ==> k + 1 < all.len() && all[k + 1] is WhiteSpace) by {
            if k > 0 {
                assert(all[k] == rest[k - 1]);
                if k + 1 < all.len() {
                    assert(all[k + 1] == rest[k]);
                }
            } else if token_leaves_line_feed(all[0]) {
                assert(is_at(s, end, '\n'));
                assert(rest[0] == token_at(s, end).0);
                assert(all[1] == rest[0]);
            }
        }
    }
}

} // verus!
