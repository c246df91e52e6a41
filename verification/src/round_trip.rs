//! What is written is read back: the text that the serializer writes for
//! a component value is read as the token of that value.

use vstd::prelude::*;
use crate::chars::{
    spec_is_digit, spec_is_hex_digit, spec_is_name_char, spec_is_name_start, spec_is_whitespace,
};
use crate::lexical::{
    bad_url_end, comment_close, digit_at, found, fraction_end, has_exponent, has_fraction,
    ident_like_token, integer_end, is_at, is_url_word, lemma_digits_end, sign_len, name_char_at,
    name_chars, name_end, name_start_at, number_end, number_int_value, numeric_at, quote_at,
    starts_identifier, starts_number, starts_unicode_range, token_at, tokens_from, tokens_of,
    url_scan, valid_escape, whitespace_at, whitespace_end,
};
use crate::reading::{
    has_text, lemma_has_text_split, lemma_hex_escape_read, lemma_hex_padded, lemma_identifier_read,
    lemma_name_char_text_starts, lemma_name_read, lemma_name_text_front, lemma_number_read,
    lemma_string_read, lemma_unicode_range_read, lemma_url_body_front, lemma_url_body_read,
    lemma_url_char_read, no_nul,
};
use crate::serializer::{
    function_name_text, hex_digits, hex_escape, hex_padded, identifier_text, name_char_text,
    name_text, spec_is_url_name, string_body_text, string_char_text, string_text, unit_text,
    url_body_text, url_char_text,
};
use crate::ast::{ComponentValue, Node, NumericValue};
use crate::serializer::{
    nodes_text, separator, spec_is_delim, spec_needs_separator, value_text, values_text,
};
use crate::source::is_normalized;
use crate::token::{TokenView};

verus! {

/// Whether a name can be the name of a token: it is not empty, and it
/// holds no NUL.
pub open spec fn is_name(name: Seq<char>) -> bool {
    name.len() > 0 && no_nul(name)
}

/// Whether no name goes on at `e`: neither a name character nor an escape
/// stands there.
pub open spec fn name_stops(s: Seq<char>, e: int) -> bool {
    !name_char_at(s, e) && !valid_escape(s, e)
}

proof fn lemma_name_stops(s: Seq<char>, e: int)
    requires
        name_stops(s, e),
    ensures
        name_end(s, e) == e,
        name_chars(s, e) == Seq::<char>::empty(),
{
}

/// The text of an identifier is read as an identifier token, where no
/// name goes on after it and neither `(` nor `+` follows it.
pub proof fn lemma_ident_token(s: Seq<char>, i: int, name: Seq<char>)
    requires
        has_text(s, i, identifier_text(name)),
        is_name(name),
        name_stops(s, i + identifier_text(name).len()),
        !is_at(s, i + identifier_text(name).len(), '('),
        !is_at(s, i + identifier_text(name).len(), '+'),
    ensures
        token_at(s, i) == (TokenView::Ident(name), i + identifier_text(name).len()),
{
    let e = i + identifier_text(name).len();
    lemma_identifier_read(s, i, name);
    lemma_name_stops(s, e);
    assert(name + Seq::<char>::empty() =~= name);
    assert(!starts_number(s, i));
    assert(!starts_unicode_range(s, i));
    assert(ident_like_token(s, i) == (TokenView::Ident(name), e));
}

/// The text of an at-keyword is read as an at-keyword token, where no name
/// goes on after it.
pub proof fn lemma_at_keyword_token(s: Seq<char>, i: int, name: Seq<char>)
    requires
        has_text(s, i, seq!['@'] + identifier_text(name)),
        is_name(name),
        name_stops(s, i + 1 + identifier_text(name).len()),
    ensures
        token_at(s, i) == (TokenView::AtKeyword(name), i + 1 + identifier_text(name).len()),
{
    let e = i + 1 + identifier_text(name).len();
    lemma_has_text_split(s, i, seq!['@'], identifier_text(name));
    assert(seq!['@'][0] == '@');
    assert(s[i] == '@');
    lemma_identifier_read(s, i + 1, name);
    lemma_name_stops(s, e);
    assert(name + Seq::<char>::empty() =~= name);
}

/// The text of a hash that is an identifier is read as such a hash token,
/// where no name goes on after it.
pub proof fn lemma_id_hash_token(s: Seq<char>, i: int, name: Seq<char>)
    requires
        has_text(s, i, seq!['#'] + identifier_text(name)),
        is_name(name),
        name_stops(s, i + 1 + identifier_text(name).len()),
    ensures
        token_at(s, i) == (TokenView::IDHash(name), i + 1 + identifier_text(name).len()),
{
    let e = i + 1 + identifier_text(name).len();
    lemma_has_text_split(s, i, seq!['#'], identifier_text(name));
    assert(seq!['#'][0] == '#');
    assert(s[i] == '#');
    lemma_identifier_read(s, i + 1, name);
    lemma_name_stops(s, e);
    assert(name + Seq::<char>::empty() =~= name);
}

/// Whether a name is one that a hash has where it is no identifier: it
/// starts with a digit, or with `-` and then nothing or a digit.
pub open spec fn is_unrestricted_name(name: Seq<char>) -> bool {
    &&& is_name(name)
    &&& spec_is_digit(name[0]) || (name[0] == '-' && (name.len() == 1 || spec_is_digit(
        name[1],
    )))
}

/// The text of a hash that is no identifier is read as such a hash token,
/// where no name goes on after it.
pub proof fn lemma_hash_token(s: Seq<char>, i: int, name: Seq<char>)
    requires
        has_text(s, i, seq!['#'] + name_text(name)),
        is_unrestricted_name(name),
        name_stops(s, i + 1 + name_text(name).len()),
    ensures
        token_at(s, i) == (TokenView::Hash(name), i + 1 + name_text(name).len()),
{
    let e = i + 1 + name_text(name).len();
    lemma_has_text_split(s, i, seq!['#'], name_text(name));
    assert(seq!['#'][0] == '#');
    assert(s[i] == '#');
    lemma_name_read(s, i + 1, name);
    lemma_name_stops(s, e);
    assert(name + Seq::<char>::empty() =~= name);
    lemma_name_text_front(name);
    lemma_has_text_split(s, i + 1, name_char_text(name[0]), name_text(name.skip(1)));
    lemma_name_char_text_starts(name[0]);
    assert(s[i + 1 + 0] == name_char_text(name[0])[0]);
    assert(s[i + 1] == name[0]);
    if name[0] == '-' && name.len() > 1 {
        let rest = name.skip(1);
        lemma_name_text_front(rest);
        lemma_has_text_split(s, i + 2, name_char_text(rest[0]), name_text(rest.skip(1)));
        lemma_name_char_text_starts(rest[0]);
        assert(s[i + 2 + 0] == name_char_text(rest[0])[0]);
        assert(s[i + 2] == name[1]);
    } else if name[0] == '-' {
        assert(name.skip(1) =~= Seq::<char>::empty());
        assert(e == i + 2);
    }
    assert(!starts_identifier(s, i + 1));
}

/// The text of the name of a function and `(` are read as a function
/// token.
pub proof fn lemma_function_token(s: Seq<char>, i: int, name: Seq<char>)
    requires
        has_text(s, i, function_name_text(name) + seq!['(']),
        is_name(name),
    ensures
        token_at(s, i) == (TokenView::Function(name), i + function_name_text(name).len() + 1),
{
    let text = function_name_text(name);
    let e = i + text.len();
    lemma_has_text_split(s, i, text, seq!['(']);
    assert(seq!['('][0] == '(');
    assert(s[e + 0] == '(');
    assert(name_stops(s, e));
    lemma_name_stops(s, e);
    assert(name + Seq::<char>::empty() =~= name);
    if spec_is_url_name(name) {
        let head = seq![name[0], name[1]];
        lemma_has_text_split(s, i, head, hex_escape(name[2]));
        assert(head[0] == name[0] && head[1] == name[1]);
        assert(s[i + 0] == name[0] && s[i + 1] == name[1]);
        lemma_hex_escape_read(s, i + 2, name[2]);
        assert(name_end(s, i + 2) == name_end(s, e));
        assert(name_end(s, i + 1) == name_end(s, i + 2));
        assert(name_end(s, i) == name_end(s, i + 1));
        assert(name_chars(s, i + 2) =~= seq![name[2]]);
        assert(name_chars(s, i + 1) =~= seq![name[1], name[2]]);
        assert(name_chars(s, i) =~= name);
        assert(hex_escape(name[2]).len() >= 3);
        assert(!is_url_word(s, i, e));
        assert(!starts_number(s, i));
        assert(!starts_unicode_range(s, i));
        assert(starts_identifier(s, i));
    } else {
        lemma_identifier_read(s, i, name);
        assert(!starts_number(s, i));
        assert(!starts_unicode_range(s, i));
        if e == i + 3 && spec_is_name_char(s[i]) && spec_is_name_char(s[i + 1])
            && spec_is_name_char(s[i + 2]) {
            assert(name_chars(s, i + 2) =~= seq![s[i + 2]]);
            assert(name_chars(s, i + 1) =~= seq![s[i + 1], s[i + 2]]);
            assert(name_chars(s, i) =~= seq![s[i], s[i + 1], s[i + 2]]);
            assert(name =~= seq![s[i], s[i + 1], s[i + 2]]);
        }
        assert(!is_url_word(s, i, e));
    }
    assert(ident_like_token(s, i) == (TokenView::Function(name), e + 1));
}

/// The text of a string is read as a string token.
pub proof fn lemma_string_token(s: Seq<char>, i: int, value: Seq<char>)
    requires
        has_text(s, i, string_text(value)),
        no_nul(value),
    ensures
        token_at(s, i) == (TokenView::String(value), i + string_text(value).len()),
{
    lemma_string_read(s, i, value);
}

/// The text of a URL is read as a URL token.
pub proof fn lemma_url_token(s: Seq<char>, i: int, value: Seq<char>)
    requires
        has_text(s, i, seq!['u', 'r', 'l', '('] + url_body_text(value) + seq![')']),
        no_nul(value),
    ensures
        token_at(s, i) == (TokenView::URL(value), i + url_body_text(value).len() + 5),
{
    let head = seq!['u', 'r', 'l', '('];
    let body = url_body_text(value);
    lemma_has_text_split(s, i, head + body, seq![')']);
    lemma_has_text_split(s, i, head, body);
    assert(head[0] == 'u' && head[1] == 'r' && head[2] == 'l' && head[3] == '(');
    assert(s[i + 0] == 'u' && s[i + 1] == 'r' && s[i + 2] == 'l' && s[i + 3] == '(');
    assert(seq![')'][0] == ')');
    let close = i + 4 + body.len();
    assert(s[close + 0] == ')');
    assert(name_end(s, i + 3) == i + 3);
    assert(name_end(s, i + 2) == i + 3);
    assert(name_end(s, i + 1) == i + 3);
    assert(name_end(s, i) == i + 3);
    assert(is_url_word(s, i, i + 3));
    lemma_url_body_read(s, i + 4, value);
    assert(url_scan(s, close) == found(close + 1));
    assert(value + Seq::<char>::empty() =~= value);
    if value.len() > 0 {
        lemma_url_body_front(value);
        lemma_has_text_split(s, i + 4, url_char_text(value[0]), url_body_text(value.skip(1)));
        lemma_url_char_read(s, i + 4, value[0]);
    }
    assert(!whitespace_at(s, i + 4));
    assert(whitespace_end(s, i + 4) == i + 4);
    assert(!quote_at(s, i + 4));
    assert(!starts_number(s, i));
    assert(!starts_unicode_range(s, i));
    assert(starts_identifier(s, i));
    assert(ident_like_token(s, i) == (TokenView::URL(value), close + 1));
}

/// The text of a bad URL is read as a bad URL token.
pub proof fn lemma_bad_url_token(s: Seq<char>, i: int)
    requires
        has_text(s, i, seq!['u', 'r', 'l', '(', '(', ')']),
    ensures
        token_at(s, i) == (TokenView::BadURL, i + 6),
{
    let text = seq!['u', 'r', 'l', '(', '(', ')'];
    assert(text[0] == 'u' && text[1] == 'r' && text[2] == 'l' && text[3] == '(' && text[4] == '('
        && text[5] == ')');
    assert(s[i + 0] == 'u' && s[i + 1] == 'r' && s[i + 2] == 'l' && s[i + 3] == '(' && s[i + 4]
        == '(' && s[i + 5] == ')');
    assert(name_end(s, i + 3) == i + 3);
    assert(name_end(s, i + 2) == i + 3);
    assert(name_end(s, i + 1) == i + 3);
    assert(name_end(s, i) == i + 3);
    assert(is_url_word(s, i, i + 3));
    assert(whitespace_end(s, i + 4) == i + 4);
    assert(bad_url_end(s, i + 5) == i + 6);
    assert(bad_url_end(s, i + 4) == i + 6);
    assert(!starts_number(s, i));
    assert(!starts_unicode_range(s, i));
    assert(starts_identifier(s, i));
    assert(ident_like_token(s, i) == (TokenView::BadURL, i + 6));
}

/// A quote before a line feed is read as a bad string token that ends
/// before the line feed.
pub proof fn lemma_bad_string_token(s: Seq<char>, i: int)
    requires
        has_text(s, i, seq!['"', '\n']),
    ensures
        token_at(s, i) == (TokenView::BadString, i + 1),
{
    let text = seq!['"', '\n'];
    assert(text[0] == '"' && text[1] == '\n');
    assert(s[i + 0] == '"' && s[i + 1] == '\n');
}

/// A backslash before a line feed is read as a delimiter that ends before
/// the line feed.
pub proof fn lemma_backslash_token(s: Seq<char>, i: int)
    requires
        has_text(s, i, seq!['\\', '\n']),
    ensures
        token_at(s, i) == (TokenView::Delim('\\'), i + 1),
{
    let text = seq!['\\', '\n'];
    assert(text[0] == '\\' && text[1] == '\n');
    assert(s[i + 0] == '\\' && s[i + 1] == '\n');
}

/// The empty comment is read as a comment token.
pub proof fn lemma_separator_token(s: Seq<char>, i: int)
    requires
        has_text(s, i, seq!['/', '*', '*', '/']),
    ensures
        token_at(s, i) == (TokenView::Comment(Seq::<char>::empty()), i + 4),
{
    let text = seq!['/', '*', '*', '/'];
    assert(text[0] == '/' && text[1] == '*' && text[2] == '*' && text[3] == '/');
    assert(s[i + 0] == '/' && s[i + 1] == '*' && s[i + 2] == '*' && s[i + 3] == '/');
    assert(comment_close(s, i + 2) == i + 2);
    assert(s.subrange(i + 2, i + 2) =~= Seq::<char>::empty());
}

/// Whether a text is the text of a number: a number starts at its start
/// and ends at its end.
pub open spec fn is_number_text(text: Seq<char>) -> bool {
    starts_number(text, 0) && number_end(text, 0) == text.len()
}

/// Whether nothing that goes on with a number stands at `e`.
pub open spec fn number_stops(s: Seq<char>, e: int) -> bool {
    !digit_at(s, e) && !is_at(s, e, '.') && !is_at(s, e, 'e') && !is_at(s, e, 'E')
}

/// The text of a number is read as a number token, where nothing follows
/// that goes on with the number or makes of it a percentage or a
/// dimension.
pub proof fn lemma_number_token(s: Seq<char>, i: int, text: Seq<char>)
    requires
        has_text(s, i, text),
        is_number_text(text),
        number_stops(s, i + text.len()),
        !is_at(s, i + text.len(), '%'),
        !is_at(s, i + text.len(), '-'),
        !name_start_at(s, i + text.len()),
        !valid_escape(s, i + text.len()),
    ensures
        token_at(s, i) == (TokenView::Number(numeric_at(text, 0)), i + text.len()),
        numeric_at(text, 0).representation == text,
{
    lemma_number_read(s, i, text);
    assert(text[0] == s[i]);
    assert(!starts_identifier(s, i + text.len()));
}

/// The text of a number and `%` are read as a percentage token.
pub proof fn lemma_percentage_token(s: Seq<char>, i: int, text: Seq<char>)
    requires
        has_text(s, i, text + seq!['%']),
        is_number_text(text),
    ensures
        token_at(s, i) == (TokenView::Percentage(numeric_at(text, 0)), i + text.len() + 1),
        numeric_at(text, 0).representation == text,
{
    lemma_has_text_split(s, i, text, seq!['%']);
    assert(seq!['%'][0] == '%');
    assert(s[i + text.len() + 0] == '%');
    lemma_number_read(s, i, text);
    assert(text[0] == s[i]);
    assert(!starts_identifier(s, i + text.len()));
}

/// The text of a unit is read as the unit: an identifier starts where the
/// text starts, with something that does not go on with a number, and the
/// name that is read there is the unit and then whatever name the rest of
/// the text starts with.
pub proof fn lemma_unit_read(s: Seq<char>, i: int, unit: Seq<char>)
    requires
        has_text(s, i, unit_text(unit)),
        is_name(unit),
    ensures
        starts_identifier(s, i),
        number_stops(s, i),
        name_end(s, i) == name_end(s, i + unit_text(unit).len()),
        name_chars(s, i) == unit + name_chars(s, i + unit_text(unit).len()),
{
    if unit[0] == 'e' || unit[0] == 'E' {
        let rest = unit.skip(1);
        assert(no_nul(rest)) by {
            assert forall|k: int| 0 <= k < rest.len() implies #[trigger] rest[k] != '\0' by {
                assert(rest[k] == unit[k + 1]);
            }
        }
        assert(unit =~= seq![unit[0]] + rest);
        lemma_has_text_split(s, i, hex_escape(unit[0]), name_text(rest));
        lemma_hex_escape_read(s, i, unit[0]);
        lemma_name_read(s, i + hex_escape(unit[0]).len(), rest);
        assert(name_chars(s, i) =~= unit + name_chars(s, i + unit_text(unit).len()));
    } else {
        lemma_identifier_read(s, i, unit);
        if spec_is_name_start(s[i]) {
            // The first character is written as it is only where it is a
            // name character, and then it is the first of the unit.
            lemma_unit_first(s, i, unit);
        }
    }
}

proof fn lemma_unit_first(s: Seq<char>, i: int, unit: Seq<char>)
    requires
        has_text(s, i, identifier_text(unit)),
        is_name(unit),
        unit[0] != 'e',
        unit[0] != 'E',
        spec_is_name_start(s[i]),
    ensures
        s[i] != 'e',
        s[i] != 'E',
{
    if spec_is_digit(unit[0]) {
        lemma_has_text_split(s, i, hex_escape(unit[0]), name_text(unit.skip(1)));
        assert(hex_escape(unit[0])[0] == '\\');
        assert(s[i + 0] == '\\');
    } else if unit[0] == '-' {
        let text = identifier_text(unit);
        assert(text[0] == '-' || text[0] == '\\');
        assert(s[i + 0] == text[0]);
    } else {
        lemma_name_text_front(unit);
        lemma_has_text_split(s, i, name_char_text(unit[0]), name_text(unit.skip(1)));
        lemma_name_char_text_starts(unit[0]);
        assert(s[i + 0] == name_char_text(unit[0])[0]);
    }
}

/// The text of a number and the text of a unit are read as a dimension
/// token, where no name goes on after them.
pub proof fn lemma_dimension_token(s: Seq<char>, i: int, text: Seq<char>, unit: Seq<char>)
    requires
        has_text(s, i, text + unit_text(unit)),
        is_number_text(text),
        is_name(unit),
        name_stops(s, i + text.len() + unit_text(unit).len()),
    ensures
        token_at(s, i) == (
            TokenView::Dimension(numeric_at(text, 0), unit),
            i + text.len() + unit_text(unit).len(),
        ),
        numeric_at(text, 0).representation == text,
{
    let e = i + text.len();
    lemma_has_text_split(s, i, text, unit_text(unit));
    lemma_unit_read(s, e, unit);
    lemma_number_read(s, i, text);
    assert(text[0] == s[i]);
    lemma_name_stops(s, e + unit_text(unit).len());
    assert(unit + Seq::<char>::empty() =~= unit);
}

/// The text of a unicode range is read as a unicode range token.
pub proof fn lemma_unicode_range_token(s: Seq<char>, i: int, start: u32, end: u32)
    requires
        has_text(
            s,
            i,
            seq!['U', '+'] + hex_digits(start as nat) + seq!['-'] + hex_padded(end as nat, 6),
        ),
        start <= end <= 0x10FFFF,
    ensures
        token_at(s, i) == (
            TokenView::UnicodeRange(start, end),
            i + hex_digits(start as nat).len() + 9,
        ),
{
    lemma_unicode_range_read(s, i, start, end);
    assert(s[i] == 'u' || s[i] == 'U');
    assert(!starts_number(s, i));
}

/// A space is read as whitespace, where no whitespace follows it.
pub proof fn lemma_whitespace_token(s: Seq<char>, i: int)
    requires
        has_text(s, i, seq![' ']),
        !whitespace_at(s, i + 1),
    ensures
        token_at(s, i) == (TokenView::WhiteSpace, i + 1),
{
    assert(seq![' '][0] == ' ');
    assert(s[i + 0] == ' ');
    assert(whitespace_end(s, i + 1) == i + 1);
}

/// A line feed and a space are read as whitespace, where no whitespace
/// follows them.
pub proof fn lemma_line_feed_token(s: Seq<char>, i: int)
    requires
        has_text(s, i, seq!['\n', ' ']),
        !whitespace_at(s, i + 2),
    ensures
        token_at(s, i) == (TokenView::WhiteSpace, i + 2),
{
    let text = seq!['\n', ' '];
    assert(text[0] == '\n' && text[1] == ' ');
    assert(s[i + 0] == '\n' && s[i + 1] == ' ');
    assert(whitespace_end(s, i + 2) == i + 2);
    assert(whitespace_end(s, i + 1) == i + 2);
}

/// Whether a character can stand alone as a delimiter: it starts no
/// other token.
pub open spec fn is_delim_char(c: char) -> bool {
    &&& !spec_is_whitespace(c)
    &&& !spec_is_name_start(c)
    &&& !spec_is_digit(c)
    &&& c != '"' && c != '\'' && c != '(' && c != ')' && c != '[' && c != ']' && c != '{'
        && c != '}'
    &&& c != ',' && c != ':' && c != ';'
    &&& c != '\0' && c != '\r' && c != '\u{c}'
}

/// Whether what stands at `e` leaves the delimiter `c` before it alone.
pub open spec fn delim_stops(c: char, s: Seq<char>, e: int) -> bool {
    if c == '#' {
        name_stops(s, e)
    } else if c == '$' || c == '^' || c == '~' || c == '*' {
        !is_at(s, e, '=')
    } else if c == '|' {
        !is_at(s, e, '=') && !is_at(s, e, '|')
    } else if c == '+' {
        !digit_at(s, e) && !is_at(s, e, '.')
    } else if c == '-' {
        !digit_at(s, e) && !is_at(s, e, '.') && !is_at(s, e, '-') && !name_start_at(s, e)
            && !valid_escape(s, e)
    } else if c == '.' {
        !digit_at(s, e)
    } else if c == '/' {
        !is_at(s, e, '*')
    } else if c == '<' {
        !is_at(s, e, '!')
    } else if c == '@' {
        !starts_identifier(s, e)
    } else {
        true
    }
}

/// A character that can stand alone is read as a delimiter, where what
/// follows leaves it alone.
pub proof fn lemma_delim_token(s: Seq<char>, i: int, c: char)
    requires
        has_text(s, i, seq![c]),
        is_delim_char(c),
        c != '\\',
        delim_stops(c, s, i + 1),
    ensures
        token_at(s, i) == (TokenView::Delim(c), i + 1),
{
    assert(seq![c][0] == c);
    assert(s[i + 0] == c);
    assert(!starts_number(s, i));
    assert(!starts_unicode_range(s, i));
    assert(!starts_identifier(s, i));
}

/// The text of a token that is always written in the same way.
pub open spec fn fixed_text(token: TokenView) -> Option<Seq<char>> {
    match token {
        TokenView::Colon => Some(seq![':']),
        TokenView::Semicolon => Some(seq![';']),
        TokenView::Comma => Some(seq![',']),
        TokenView::IncludeMatch => Some(seq!['~', '=']),
        TokenView::DashMatch => Some(seq!['|', '=']),
        TokenView::PrefixMatch => Some(seq!['^', '=']),
        TokenView::SuffixMatch => Some(seq!['$', '=']),
        TokenView::SubstringMatch => Some(seq!['*', '=']),
        TokenView::Column => Some(seq!['|', '|']),
        TokenView::CDO => Some(seq!['<', '!', '-', '-']),
        TokenView::CDC => Some(seq!['-', '-', '>']),
        TokenView::ParenthesisBlock => Some(seq!['(']),
        TokenView::SquareBracketBlock => Some(seq!['[']),
        TokenView::CurlyBracketBlock => Some(seq!['{']),
        TokenView::CloseParenthesis => Some(seq![')']),
        TokenView::CloseSquareBracket => Some(seq![']']),
        TokenView::CloseCurlyBracket => Some(seq!['}']),
        _ => None,
    }
}

/// The text of a token that is always written in the same way is read as
/// the token, whatever follows.
pub proof fn lemma_fixed_token(s: Seq<char>, i: int, token: TokenView)
    requires
        fixed_text(token) is Some,
        has_text(s, i, fixed_text(token)->0),
    ensures
        token_at(s, i) == (token, i + fixed_text(token)->0.len()),
{
    let text = fixed_text(token)->0;
    assert(s[i + 0] == text[0]);
    if text.len() > 1 {
        assert(s[i + 1] == text[1]);
    }
    if text.len() > 2 {
        assert(s[i + 2] == text[2]);
    }
    if text.len() > 3 {
        assert(s[i + 3] == text[3]);
    }
    assert(!starts_number(s, i));
}

/// What a numeric value holds when it is as the tokenizer makes it: the
/// text of a number, and the integer value that the text has.
pub open spec fn is_numeric(value: NumericValue) -> bool {
    is_number_text(value.representation@) && value.int_value == number_int_value(
        value.representation@,
        0,
    )
}

/// Whether a component value is written with a line feed at the end of its
/// text that is not part of its token: a `\` that stands alone, and a bad
/// string.
pub open spec fn leaves_line_feed(value: ComponentValue) -> bool {
    value is BadString || spec_is_delim(value, '\\')
}

/// Whether a component value is as the tokenizer makes it: names are not
/// empty and hold no NUL, numbers have the text of a number, a delimiter
/// is a character that can stand alone, a unicode range is in order, and a
/// block holds such values only, of which the last leaves no line feed.
pub open spec fn well_formed(value: ComponentValue) -> bool
    decreases value,
{
    match value {
        ComponentValue::Ident(name) => is_name(name@),
        ComponentValue::AtKeyword(name) => is_name(name@),
        ComponentValue::Hash(name) => is_unrestricted_name(name@),
        ComponentValue::IDHash(name) => is_name(name@),
        ComponentValue::String(value) => no_nul(value@),
        ComponentValue::URL(value) => no_nul(value@),
        ComponentValue::Delim(c) => is_delim_char(c),
        ComponentValue::Number(number) => is_numeric(number),
        ComponentValue::Percentage(number) => is_numeric(number),
        ComponentValue::Dimension(number, unit) => is_numeric(number) && is_name(unit@),
        ComponentValue::UnicodeRange(start, end) => start <= end <= 0x10FFFF,
        ComponentValue::Function(name, arguments) => is_name(name@) && well_formed_values(
            arguments@,
        ) && !(arguments@.len() > 0 && leaves_line_feed(arguments@.last())),
        ComponentValue::ParenthesisBlock(content) => well_formed_values(content@) && !(
        content@.len() > 0 && leaves_line_feed(content@.last())),
        ComponentValue::SquareBracketBlock(content) => well_formed_values(content@) && !(
        content@.len() > 0 && leaves_line_feed(content@.last())),
        ComponentValue::CurlyBracketBlock(content) => well_formed_nodes(content@) && !(
        content@.len() > 0 && leaves_line_feed(content@.last().0)),
        _ => true,
    }
}

/// Whether component values that follow one another are as the tokenizer
/// makes them: each is well formed, and whitespace follows each that
/// leaves a line feed, but for the last.
pub open spec fn well_formed_values(values: Seq<ComponentValue>) -> bool
    decreases values,
{
    forall|k: int|
        0 <= k < values.len() ==> well_formed(#[trigger] values[k]) && (leaves_line_feed(
            values[k],
        ) && k + 1 < values.len() ==> values[k + 1] is WhiteSpace)
}

/// As `well_formed_values`, for nodes.
pub open spec fn well_formed_nodes(nodes: Seq<Node>) -> bool
    decreases nodes,
{
    forall|k: int|
        0 <= k < nodes.len() ==> well_formed((#[trigger] nodes[k]).0) && (leaves_line_feed(
            nodes[k].0,
        ) && k + 1 < nodes.len() ==> nodes[k + 1].0 is WhiteSpace)
}

/// The token of a component value that is no block.
pub open spec fn atom_token(value: ComponentValue) -> TokenView {
    match value {
        ComponentValue::Ident(name) => TokenView::Ident(name@),
        ComponentValue::AtKeyword(name) => TokenView::AtKeyword(name@),
        ComponentValue::Hash(name) => TokenView::Hash(name@),
        ComponentValue::IDHash(name) => TokenView::IDHash(name@),
        ComponentValue::String(value) => TokenView::String(value@),
        ComponentValue::URL(value) => TokenView::URL(value@),
        ComponentValue::Delim(c) => TokenView::Delim(c),
        ComponentValue::Number(number) => TokenView::Number(number@),
        ComponentValue::Percentage(number) => TokenView::Percentage(number@),
        ComponentValue::Dimension(number, unit) => TokenView::Dimension(number@, unit@),
        ComponentValue::UnicodeRange(start, end) => TokenView::UnicodeRange(start, end),
        ComponentValue::WhiteSpace => TokenView::WhiteSpace,
        ComponentValue::Colon => TokenView::Colon,
        ComponentValue::Semicolon => TokenView::Semicolon,
        ComponentValue::Comma => TokenView::Comma,
        ComponentValue::IncludeMatch => TokenView::IncludeMatch,
        ComponentValue::DashMatch => TokenView::DashMatch,
        ComponentValue::PrefixMatch => TokenView::PrefixMatch,
        ComponentValue::SuffixMatch => TokenView::SuffixMatch,
        ComponentValue::SubstringMatch => TokenView::SubstringMatch,
        ComponentValue::Column => TokenView::Column,
        ComponentValue::CDO => TokenView::CDO,
        ComponentValue::CDC => TokenView::CDC,
        ComponentValue::Function(name, _) => TokenView::Function(name@),
        ComponentValue::ParenthesisBlock(_) => TokenView::ParenthesisBlock,
        ComponentValue::SquareBracketBlock(_) => TokenView::SquareBracketBlock,
        ComponentValue::CurlyBracketBlock(_) => TokenView::CurlyBracketBlock,
        ComponentValue::BadURL => TokenView::BadURL,
        ComponentValue::BadString => TokenView::BadString,
        ComponentValue::CloseParenthesis => TokenView::CloseParenthesis,
        ComponentValue::CloseSquareBracket => TokenView::CloseSquareBracket,
        ComponentValue::CloseCurlyBracket => TokenView::CloseCurlyBracket,
    }
}

/// Whether a component value is a function or a block.
pub open spec fn is_block(value: ComponentValue) -> bool {
    value is Function || value is ParenthesisBlock || value is SquareBracketBlock || value
        is CurlyBracketBlock
}

/// Whether what stands at `e` leaves the token of `value` before it as it
/// is: nothing there goes on with the token.
pub open spec fn stops(value: ComponentValue, s: Seq<char>, e: int) -> bool {
    match value {
        ComponentValue::Ident(_) => name_stops(s, e) && !is_at(s, e, '(') && !is_at(s, e, '+'),
        ComponentValue::AtKeyword(_) => name_stops(s, e),
        ComponentValue::Hash(_) => name_stops(s, e),
        ComponentValue::IDHash(_) => name_stops(s, e),
        ComponentValue::Dimension(_, _) => name_stops(s, e),
        ComponentValue::Number(_) => number_stops(s, e) && !is_at(s, e, '%') && !is_at(s, e, '-')
            && !name_start_at(s, e) && !valid_escape(s, e),
        ComponentValue::WhiteSpace => !whitespace_at(s, e),
        ComponentValue::Delim(c) => delim_stops(c, s, e),
        _ => true,
    }
}

/// One where `b` holds, and zero where it does not.
pub open spec fn one_if(b: bool) -> int {
    if b {
        1
    } else {
        0
    }
}

/// What `lemma_atom_token` states of a value whose text stands at `i`.
pub open spec fn atom_read(s: Seq<char>, i: int, value: ComponentValue) -> bool {
    &&& token_at(s, i) == (
        atom_token(value),
        i + value_text(value).len() - one_if(leaves_line_feed(value)),
    )
    &&& value_text(value).len() > 0
    &&& leaves_line_feed(value) ==> value_text(value).len() == 2 && s[i + 1] == '\n'
}

proof fn lemma_atom_token_named(s: Seq<char>, i: int, value: ComponentValue)
    requires
        value is Ident || value is AtKeyword || value is Hash || value is IDHash,
        well_formed(value),
        has_text(s, i, value_text(value)),
        stops(value, s, i + value_text(value).len()),
    ensures
        atom_read(s, i, value),
{
    match value {
        ComponentValue::Ident(name) => {
            lemma_identifier_read(s, i, name@);
            lemma_ident_token(s, i, name@);
        },
        ComponentValue::AtKeyword(name) => {
            lemma_at_keyword_token(s, i, name@);
        },
        ComponentValue::Hash(name) => {
            lemma_hash_token(s, i, name@);
        },
        ComponentValue::IDHash(name) => {
            lemma_id_hash_token(s, i, name@);
        },
        _ => {},
    }
}

proof fn lemma_atom_token_numeric(s: Seq<char>, i: int, value: ComponentValue)
    requires
        value is Number || value is Percentage || value is Dimension || value is UnicodeRange,
        well_formed(value),
        has_text(s, i, value_text(value)),
        stops(value, s, i + value_text(value).len()),
    ensures
        atom_read(s, i, value),
{
    match value {
        ComponentValue::Number(number) => {
            lemma_number_token(s, i, number.representation@);
            lemma_numeric_same(number);
        },
        ComponentValue::Percentage(number) => {
            lemma_percentage_token(s, i, number.representation@);
            lemma_numeric_same(number);
        },
        ComponentValue::Dimension(number, unit) => {
            lemma_dimension_token(s, i, number.representation@, unit@);
            lemma_numeric_same(number);
        },
        ComponentValue::UnicodeRange(start, end) => {
            lemma_unicode_range_token(s, i, start, end);
            lemma_hex_padded(end as nat, 6);
        },
        _ => {},
    }
}

proof fn lemma_atom_token_quoted(s: Seq<char>, i: int, value: ComponentValue)
    requires
        value is String || value is URL || value is BadURL || value is BadString || value
            is Delim || value is WhiteSpace,
        well_formed(value),
        has_text(s, i, value_text(value)),
        stops(value, s, i + value_text(value).len()),
    ensures
        atom_read(s, i, value),
{
    match value {
        ComponentValue::String(text) => {
            lemma_string_token(s, i, text@);
        },
        ComponentValue::URL(text) => {
            lemma_url_token(s, i, text@);
        },
        ComponentValue::Delim(c) => {
            if c == '\\' {
                lemma_backslash_token(s, i);
                assert(seq!['\\', '\n'][1] == '\n');
            } else {
                lemma_delim_token(s, i, c);
            }
        },
        ComponentValue::WhiteSpace => {
            lemma_whitespace_token(s, i);
        },
        ComponentValue::BadURL => {
            lemma_bad_url_token(s, i);
        },
        ComponentValue::BadString => {
            lemma_bad_string_token(s, i);
            assert(seq!['"', '\n'][1] == '\n');
        },
        _ => {},
    }
}

/// Whether a component value is one that is always written in the same
/// way.
pub open spec fn is_fixed(value: ComponentValue) -> bool {
    value is Colon || value is Semicolon || value is Comma || value is IncludeMatch || value
        is DashMatch || value is PrefixMatch || value is SuffixMatch || value is SubstringMatch
        || value is Column || value is CDO || value is CDC || value is CloseParenthesis || value
        is CloseSquareBracket || value is CloseCurlyBracket
}

proof fn lemma_atom_token_fixed(s: Seq<char>, i: int, value: ComponentValue)
    requires
        is_fixed(value),
        has_text(s, i, value_text(value)),
    ensures
        atom_read(s, i, value),
{
    assert(fixed_text(atom_token(value)) == Some(value_text(value)));
    lemma_fixed_token(s, i, atom_token(value));
}

/// The text of a component value that is no block is read as its token,
/// where what follows leaves the token as it is. The token of a value
/// that leaves a line feed ends before the line feed.
pub proof fn lemma_atom_token(s: Seq<char>, i: int, value: ComponentValue)
    requires
        !is_block(value),
        well_formed(value),
        has_text(s, i, value_text(value)),
        stops(value, s, i + value_text(value).len()),
    ensures
        atom_read(s, i, value),
{
    if value is Ident || value is AtKeyword || value is Hash || value is IDHash {
        lemma_atom_token_named(s, i, value);
    } else if value is Number || value is Percentage || value is Dimension || value
        is UnicodeRange {
        lemma_atom_token_numeric(s, i, value);
    } else if is_fixed(value) {
        lemma_atom_token_fixed(s, i, value);
    } else {
        lemma_atom_token_quoted(s, i, value);
    }
}

proof fn lemma_numeric_same(number: NumericValue)
    requires
        is_numeric(number),
    ensures
        number@ == numeric_at(number.representation@, 0),
{
    let text = number.representation@;
    assert(text.subrange(0, text.len() as int) =~= text);
}

/// Whether the text at `j` starts as the text of `value` starts.
pub open spec fn starts_as(value: ComponentValue, s: Seq<char>, j: int) -> bool {
    &&& 0 <= j < s.len()
    &&& match value {
        ComponentValue::Ident(_) => valid_escape(s, j) || s[j] == '-' || spec_is_name_start(s[j]),
        ComponentValue::Function(_, _) => valid_escape(s, j) || s[j] == '-'
            || spec_is_name_start(s[j]),
        ComponentValue::AtKeyword(_) => s[j] == '@',
        ComponentValue::Hash(_) => s[j] == '#',
        ComponentValue::IDHash(_) => s[j] == '#',
        ComponentValue::String(_) => s[j] == '"',
        ComponentValue::URL(_) => s[j] == 'u',
        ComponentValue::BadURL => s[j] == 'u',
        ComponentValue::Delim(c) => s[j] == c && (c == '\\' ==> is_at(s, j + 1, '\n')),
        ComponentValue::Number(_) => starts_number(s, j),
        ComponentValue::Percentage(_) => starts_number(s, j),
        ComponentValue::Dimension(_, _) => starts_number(s, j),
        ComponentValue::UnicodeRange(_, _) => s[j] == 'U',
        ComponentValue::WhiteSpace => s[j] == ' ',
        ComponentValue::Colon => s[j] == ':',
        ComponentValue::Semicolon => s[j] == ';',
        ComponentValue::Comma => s[j] == ',',
        ComponentValue::IncludeMatch => s[j] == '~',
        ComponentValue::DashMatch => s[j] == '|',
        ComponentValue::PrefixMatch => s[j] == '^',
        ComponentValue::SuffixMatch => s[j] == '$',
        ComponentValue::SubstringMatch => s[j] == '*',
        ComponentValue::Column => s[j] == '|',
        ComponentValue::CDO => s[j] == '<',
        ComponentValue::CDC => s[j] == '-',
        ComponentValue::ParenthesisBlock(_) => s[j] == '(',
        ComponentValue::SquareBracketBlock(_) => s[j] == '[',
        ComponentValue::CurlyBracketBlock(_) => s[j] == '{',
        ComponentValue::BadString => s[j] == '"',
        ComponentValue::CloseParenthesis => s[j] == ')',
        ComponentValue::CloseSquareBracket => s[j] == ']',
        ComponentValue::CloseCurlyBracket => s[j] == '}',
    }
}

/// A number starts where the text of a number stands.
proof fn lemma_number_starts(s: Seq<char>, j: int, text: Seq<char>)
    requires
        has_text(s, j, text),
        starts_number(text, 0),
    ensures
        starts_number(s, j),
{
    assert(s[j + 0] == text[0]);
    if text.len() > 1 {
        assert(s[j + 1] == text[1]);
    }
    if text.len() > 2 {
        assert(s[j + 2] == text[2]);
    }
}

/// The text of a well-formed component value starts as `starts_as` says.
pub proof fn lemma_starts_as(s: Seq<char>, j: int, value: ComponentValue)
    requires
        well_formed(value),
        has_text(s, j, value_text(value)),
    ensures
        starts_as(value, s, j),
{
    let text = value_text(value);
    match value {
        ComponentValue::Ident(name) => {
            lemma_identifier_read(s, j, name@);
        },
        ComponentValue::Function(name, arguments) => {
            let head = function_name_text(name@);
            lemma_has_text_split(s, j, head + seq!['('] + values_text(arguments@), seq![')']);
            lemma_has_text_split(s, j, head + seq!['('], values_text(arguments@));
            lemma_has_text_split(s, j, head, seq!['(']);
            if spec_is_url_name(name@) {
                assert(head[0] == name@[0]);
                assert(s[j + 0] == head[0]);
            } else {
                lemma_identifier_read(s, j, name@);
            }
        },
        ComponentValue::Number(number) => {
            lemma_number_starts(s, j, number.representation@);
        },
        ComponentValue::Percentage(number) => {
            lemma_has_text_split(s, j, number.representation@, seq!['%']);
            lemma_number_starts(s, j, number.representation@);
        },
        ComponentValue::Dimension(number, unit) => {
            lemma_has_text_split(s, j, number.representation@, unit_text(unit@));
            lemma_number_starts(s, j, number.representation@);
        },
        ComponentValue::Delim(c) => {
            assert(s[j + 0] == text[0]);
            if c == '\\' {
                assert(s[j + 1] == text[1]);
            }
        },
        _ => {
            assert(text.len() > 0);
            assert(s[j + 0] == text[0]);
        },
    }
}

/// No separator is needed only where what follows leaves the token
/// before it as it is.
pub proof fn lemma_stops_before(
    previous: ComponentValue,
    next: ComponentValue,
    s: Seq<char>,
    j: int,
)
    requires
        well_formed(previous),
        well_formed(next),
        !spec_needs_separator(previous, next),
        has_text(s, j, value_text(next)),
    ensures
        stops(previous, s, j),
{
    lemma_starts_as(s, j, next);
}

/// Whether a closing bracket stands at `j`.
pub open spec fn closer_at(s: Seq<char>, j: int) -> bool {
    is_at(s, j, ')') || is_at(s, j, ']') || is_at(s, j, '}')
}

/// Whether a comment starts at `j`.
pub open spec fn comment_at(s: Seq<char>, j: int) -> bool {
    is_at(s, j, '/') && is_at(s, j + 1, '*')
}

/// A separator, a closing bracket and the end of the text leave every
/// token before them as it is.
pub proof fn lemma_stops_at(previous: ComponentValue, s: Seq<char>, j: int)
    requires
        j >= s.len() || closer_at(s, j) || comment_at(s, j),
    ensures
        stops(previous, s, j),
{
}

/// The token that closes the block that `value` is.
pub open spec fn closing_token(value: ComponentValue) -> TokenView {
    match value {
        ComponentValue::SquareBracketBlock(_) => TokenView::CloseSquareBracket,
        ComponentValue::CurlyBracketBlock(_) => TokenView::CloseCurlyBracket,
        _ => TokenView::CloseParenthesis,
    }
}

/// The tokens of a component value: its token, and for a block the
/// tokens of what it holds and the closing token after them.
pub open spec fn value_tokens(value: ComponentValue) -> Seq<TokenView>
    decreases value,
{
    match value {
        ComponentValue::Function(_, arguments) => seq![atom_token(value)] + values_tokens(
            arguments@,
        ) + seq![closing_token(value)],
        ComponentValue::ParenthesisBlock(content) => seq![atom_token(value)] + values_tokens(
            content@,
        ) + seq![closing_token(value)],
        ComponentValue::SquareBracketBlock(content) => seq![atom_token(value)] + values_tokens(
            content@,
        ) + seq![closing_token(value)],
        ComponentValue::CurlyBracketBlock(content) => seq![atom_token(value)] + nodes_tokens(
            content@,
        ) + seq![closing_token(value)],
        _ => seq![atom_token(value)],
    }
}

/// The tokens that a separator is read as: one empty comment.
pub open spec fn separator_tokens(needed: bool) -> Seq<TokenView> {
    if needed {
        seq![TokenView::Comment(Seq::<char>::empty())]
    } else {
        Seq::empty()
    }
}

/// The tokens of component values that follow one another, with an empty
/// comment wherever a separator stands between two of them.
pub open spec fn values_tokens(values: Seq<ComponentValue>) -> Seq<TokenView>
    decreases values,
{
    if values.len() == 0 {
        Seq::empty()
    } else {
        values_tokens(values.drop_last()) + separator_tokens(
            values.len() >= 2 && spec_needs_separator(values[values.len() - 2], values.last()),
        ) + value_tokens(values.last())
    }
}

/// As `values_tokens`, for nodes.
pub open spec fn nodes_tokens(nodes: Seq<Node>) -> Seq<TokenView>
    decreases nodes,
{
    if nodes.len() == 0 {
        Seq::empty()
    } else {
        nodes_tokens(nodes.drop_last()) + separator_tokens(
            nodes.len() >= 2 && spec_needs_separator(nodes[nodes.len() - 2].0, nodes.last().0),
        ) + value_tokens(nodes.last().0)
    }
}

/// The tokens from a token on are that token and the tokens from its end
/// on.
pub proof fn lemma_tokens_step(s: Seq<char>, i: int, token: TokenView, end: int)
    requires
        token_at(s, i) == (token, end),
        0 <= i < end <= s.len(),
    ensures
        tokens_from(s, i) == seq![token] + tokens_from(s, end),
{
}

/// Whether the last of the values leaves a line feed.
pub open spec fn carries(values: Seq<ComponentValue>) -> bool {
    values.len() > 0 && leaves_line_feed(values.last())
}

/// What reading the text of values from `i` on gives: their tokens, and
/// then the tokens from the end of the text on, or from the line feed
/// that the last value leaves.
pub open spec fn read_as(
    s: Seq<char>,
    i: int,
    text: Seq<char>,
    tokens: Seq<TokenView>,
    carry: bool,
) -> bool {
    &&& tokens_from(s, i) == tokens + tokens_from(s, i + text.len() - one_if(carry))
    &&& carry ==> text.len() >= 2 && s[i + text.len() - 1] == '\n'
}

/// The text of a block is read as the opening token, the tokens of what
/// the block holds, and the closing token.
proof fn lemma_block_read(
    s: Seq<char>,
    i: int,
    value: ComponentValue,
    head: Seq<char>,
    body: Seq<char>,
    tail: Seq<char>,
    inner: Seq<TokenView>,
)
    requires
        is_block(value),
        has_text(s, i, head + body + tail),
        token_at(s, i) == (atom_token(value), i + head.len()),
        head.len() > 0,
        fixed_text(closing_token(value)) == Some(tail),
        read_as(s, i + head.len(), body, inner, false),
    ensures
        read_as(
            s,
            i,
            head + body + tail,
            seq![atom_token(value)] + inner + seq![closing_token(value)],
            false,
        ),
{
    lemma_has_text_split(s, i, head + body, tail);
    lemma_has_text_split(s, i, head, body);
    let open_end = i + head.len();
    let close = open_end + body.len();
    lemma_tokens_step(s, i, atom_token(value), open_end);
    lemma_fixed_token(s, close, closing_token(value));
    lemma_tokens_step(s, close, closing_token(value), close + tail.len());
    assert(tokens_from(s, i) =~= seq![atom_token(value)] + inner + seq![closing_token(value)]
        + tokens_from(s, close + tail.len()));
}

/// The text of a component value is read as the tokens of the value,
/// where what follows leaves its last token as it is.
pub proof fn lemma_value_read(s: Seq<char>, i: int, value: ComponentValue)
    requires
        well_formed(value),
        has_text(s, i, value_text(value)),
        leaves_line_feed(value) || stops(value, s, i + value_text(value).len()),
    ensures
        read_as(s, i, value_text(value), value_tokens(value), leaves_line_feed(value)),
        value_text(value).len() > 0,
    decreases value,
{
    let text = value_text(value);
    match value {
        ComponentValue::Function(name, arguments) => {
            let head = function_name_text(name@) + seq!['('];
            let body = values_text(arguments@);
            let tail = seq![')'];
            assert(text =~= head + body + tail);
            lemma_has_text_split(s, i, head + body, tail);
            lemma_has_text_split(s, i, head, body);
            lemma_function_token(s, i, name@);
            assert(tail[0] == ')');
            assert(s[i + head.len() + body.len() + 0] == ')');
            if arguments@.len() > 0 {
                lemma_stops_at(arguments@.last(), s, i + head.len() + body.len());
            }
            lemma_values_read(s, i + head.len(), arguments@);
            lemma_block_read(s, i, value, head, body, tail, values_tokens(arguments@));
        },
        ComponentValue::ParenthesisBlock(content) => {
            let head = seq!['('];
            let body = values_text(content@);
            let tail = seq![')'];
            assert(text =~= head + body + tail);
            lemma_has_text_split(s, i, head + body, tail);
            lemma_has_text_split(s, i, head, body);
            lemma_fixed_token(s, i, atom_token(value));
            assert(tail[0] == ')');
            assert(s[i + head.len() + body.len() + 0] == ')');
            if content@.len() > 0 {
                lemma_stops_at(content@.last(), s, i + head.len() + body.len());
            }
            lemma_values_read(s, i + head.len(), content@);
            lemma_block_read(s, i, value, head, body, tail, values_tokens(content@));
        },
        ComponentValue::SquareBracketBlock(content) => {
            let head = seq!['['];
            let body = values_text(content@);
            let tail = seq![']'];
            assert(text =~= head + body + tail);
            lemma_has_text_split(s, i, head + body, tail);
            lemma_has_text_split(s, i, head, body);
            lemma_fixed_token(s, i, atom_token(value));
            assert(tail[0] == ']');
            assert(s[i + head.len() + body.len() + 0] == ']');
            if content@.len() > 0 {
                lemma_stops_at(content@.last(), s, i + head.len() + body.len());
            }
            lemma_values_read(s, i + head.len(), content@);
            lemma_block_read(s, i, value, head, body, tail, values_tokens(content@));
        },
        ComponentValue::CurlyBracketBlock(content) => {
            let head = seq!['{'];
            let body = nodes_text(content@);
            let tail = seq!['}'];
            assert(text =~= head + body + tail);
            lemma_has_text_split(s, i, head + body, tail);
            lemma_has_text_split(s, i, head, body);
            lemma_fixed_token(s, i, atom_token(value));
            assert(tail[0] == '}');
            assert(s[i + head.len() + body.len() + 0] == '}');
            if content@.len() > 0 {
                lemma_stops_at(content@.last().0, s, i + head.len() + body.len());
            }
            lemma_nodes_read(s, i + head.len(), content@);
            lemma_block_read(s, i, value, head, body, tail, nodes_tokens(content@));
        },
        _ => {
            lemma_atom_token(s, i, value);
            let end = i + text.len() - one_if(leaves_line_feed(value));
            lemma_tokens_step(s, i, atom_token(value), end);
        },
    }
}

/// Reading goes on after a separator, or after nothing, with the next
/// value.
proof fn lemma_read_next(
    s: Seq<char>,
    i: int,
    a: Seq<char>,
    needed: bool,
    c: Seq<char>,
    before: Seq<TokenView>,
    next: Seq<TokenView>,
    carry: bool,
)
    requires
        read_as(s, i, a, before, false),
        has_text(s, i + a.len(), separator_text(needed)),
        read_as(s, i + a.len() + separator_text(needed).len(), c, next, carry),
    ensures
        read_as(s, i, a + separator_text(needed) + c, before + separator_tokens(needed) + next, carry),
{
    let j = i + a.len();
    let b = separator_text(needed);
    let end = j + b.len() + c.len() - one_if(carry);
    if needed {
        lemma_separator_token(s, j);
        lemma_tokens_step(s, j, TokenView::Comment(Seq::<char>::empty()), j + 4);
    }
    assert(tokens_from(s, j) =~= separator_tokens(needed) + tokens_from(s, j + b.len()));
    assert(tokens_from(s, i) =~= before + separator_tokens(needed) + next + tokens_from(s, end));
}

/// Reading goes on after a value that leaves a line feed with the
/// whitespace that takes the line feed with it.
proof fn lemma_read_whitespace(s: Seq<char>, i: int, a: Seq<char>, before: Seq<TokenView>)
    requires
        read_as(s, i, a, before, true),
        has_text(s, i + a.len(), seq![' ']),
        !whitespace_at(s, i + a.len() + 1),
        0 <= i,
    ensures
        read_as(
            s,
            i,
            a + separator_text(false) + seq![' '],
            before + separator_tokens(false) + seq![TokenView::WhiteSpace],
            false,
        ),
{
    let j = i + a.len();
    assert(seq![' '][0] == ' ');
    assert(s[j + 0] == ' ');
    let both = seq!['\n', ' '];
    assert(has_text(s, j - 1, both)) by {
        assert forall|k: int| 0 <= k < both.len() implies s[j - 1 + k] == #[trigger] both[k] by {}
    }
    lemma_line_feed_token(s, j - 1);
    lemma_tokens_step(s, j - 1, TokenView::WhiteSpace, j + 1);
    assert(tokens_from(s, i) =~= before + separator_tokens(false) + seq![TokenView::WhiteSpace]
        + tokens_from(s, j + 1));
}

/// The text of a separator that is needed, and no text for one that is
/// not.
pub open spec fn separator_text(needed: bool) -> Seq<char> {
    if needed {
        separator()
    } else {
        Seq::empty()
    }
}

/// All but the last of well-formed values are well-formed values.
proof fn lemma_well_formed_front(values: Seq<ComponentValue>)
    requires
        well_formed_values(values),
        values.len() > 0,
    ensures
        well_formed_values(values.drop_last()),
        well_formed(values.last()),
        values.len() >= 2 && leaves_line_feed(values[values.len() - 2]) ==> values.last()
            is WhiteSpace,
{
    let front = values.drop_last();
    assert forall|k: int| 0 <= k < front.len() implies well_formed(#[trigger] front[k]) && (
    leaves_line_feed(front[k]) && k + 1 < front.len() ==> front[k + 1] is WhiteSpace) by {
        assert(front[k] == values[k]);
        if k + 1 < front.len() {
            assert(front[k + 1] == values[k + 1]);
        }
    }
    assert(well_formed(values[values.len() - 1]));
    if values.len() >= 2 {
        assert(well_formed(values[values.len() - 2]));
    }
}

/// As `lemma_well_formed_front`, for nodes.
proof fn lemma_well_formed_front_nodes(nodes: Seq<Node>)
    requires
        well_formed_nodes(nodes),
        nodes.len() > 0,
    ensures
        well_formed_nodes(nodes.drop_last()),
        well_formed(nodes.last().0),
        nodes.len() >= 2 && leaves_line_feed(nodes[nodes.len() - 2].0) ==> nodes.last().0
            is WhiteSpace,
{
    let front = nodes.drop_last();
    assert forall|k: int| 0 <= k < front.len() implies well_formed((#[trigger] front[k]).0) && (
    leaves_line_feed(front[k].0) && k + 1 < front.len() ==> front[k + 1].0 is WhiteSpace) by {
        assert(front[k] == nodes[k]);
        if k + 1 < front.len() {
            assert(front[k + 1] == nodes[k + 1]);
        }
    }
    assert(well_formed(nodes[nodes.len() - 1].0));
    if nodes.len() >= 2 {
        assert(well_formed(nodes[nodes.len() - 2].0));
    }
}

/// What stands after all but the last of the values leaves the one
/// before the last as it is.
proof fn lemma_stops_inside(
    s: Seq<char>,
    j: int,
    previous: ComponentValue,
    last: ComponentValue,
)
    requires
        well_formed(previous),
        well_formed(last),
        has_text(s, j, separator_text(spec_needs_separator(previous, last)) + value_text(last)),
    ensures
        leaves_line_feed(previous) || stops(previous, s, j),
{
    let needed = spec_needs_separator(previous, last);
    lemma_has_text_split(s, j, separator_text(needed), value_text(last));
    if needed {
        let b = separator();
        assert(b[0] == '/' && b[1] == '*');
        assert(s[j + 0] == '/' && s[j + 1] == '*');
        lemma_stops_at(previous, s, j);
    } else if !leaves_line_feed(previous) {
        lemma_stops_before(previous, last, s, j);
    }
}

/// The text of component values that follow one another is read as the
/// tokens of the values, with an empty comment for each separator, where
/// what follows leaves the last token as it is.
pub proof fn lemma_values_read(s: Seq<char>, i: int, values: Seq<ComponentValue>)
    requires
        well_formed_values(values),
        has_text(s, i, values_text(values)),
        values.len() > 0 ==> leaves_line_feed(values.last()) || stops(
            values.last(),
            s,
            i + values_text(values).len(),
        ),
    ensures
        read_as(s, i, values_text(values), values_tokens(values), carries(values)),
    decreases values,
{
    if values.len() == 0 {
        assert(values_tokens(values) + tokens_from(s, i) =~= tokens_from(s, i));
    } else {
        let front = values.drop_last();
        let last = values.last();
        let needed = values.len() >= 2 && spec_needs_separator(values[values.len() - 2], last);
        let a = values_text(front);
        let b = separator_text(needed);
        let c = value_text(last);
        assert(values_text(values) == a + b + c);
        assert(values_tokens(values) == values_tokens(front) + separator_tokens(needed)
            + value_tokens(last));
        assert(a + b + c =~= a + (b + c));
        lemma_has_text_split(s, i, a, b + c);
        lemma_has_text_split(s, i + a.len(), b, c);
        let j = i + a.len();
        lemma_well_formed_front(values);
        if front.len() > 0 {
            assert(front.last() == values[values.len() - 2]);
            lemma_stops_inside(s, j, front.last(), last);
        }
        lemma_values_read(s, i, front);
        if carries(front) {
            lemma_read_whitespace(s, i, a, values_tokens(front));
        } else {
            lemma_value_read(s, j + b.len(), last);
            lemma_read_next(
                s,
                i,
                a,
                needed,
                c,
                values_tokens(front),
                value_tokens(last),
                leaves_line_feed(last),
            );
        }
    }
}

/// As `lemma_values_read`, for nodes.
pub proof fn lemma_nodes_read(s: Seq<char>, i: int, nodes: Seq<Node>)
    requires
        well_formed_nodes(nodes),
        has_text(s, i, nodes_text(nodes)),
        nodes.len() > 0 ==> leaves_line_feed(nodes.last().0) || stops(
            nodes.last().0,
            s,
            i + nodes_text(nodes).len(),
        ),
    ensures
        read_as(
            s,
            i,
            nodes_text(nodes),
            nodes_tokens(nodes),
            nodes.len() > 0 && leaves_line_feed(nodes.last().0),
        ),
    decreases nodes,
{
    if nodes.len() == 0 {
        assert(nodes_tokens(nodes) + tokens_from(s, i) =~= tokens_from(s, i));
    } else {
        let front = nodes.drop_last();
        let last = nodes.last().0;
        let needed = nodes.len() >= 2 && spec_needs_separator(nodes[nodes.len() - 2].0, last);
        let a = nodes_text(front);
        let b = separator_text(needed);
        let c = value_text(last);
        assert(nodes_text(nodes) == a + b + c);
        assert(nodes_tokens(nodes) == nodes_tokens(front) + separator_tokens(needed)
            + value_tokens(last));
        assert(a + b + c =~= a + (b + c));
        lemma_has_text_split(s, i, a, b + c);
        lemma_has_text_split(s, i + a.len(), b, c);
        let j = i + a.len();
        lemma_well_formed_front_nodes(nodes);
        if front.len() > 0 {
            assert(front.last() == nodes[nodes.len() - 2]);
            lemma_stops_inside(s, j, front.last().0, last);
        }
        lemma_nodes_read(s, i, front);
        if front.len() > 0 && leaves_line_feed(front.last().0) {
            lemma_read_whitespace(s, i, a, nodes_tokens(front));
        } else {
            lemma_value_read(s, j + b.len(), last);
            lemma_read_next(
                s,
                i,
                a,
                needed,
                c,
                nodes_tokens(front),
                value_tokens(last),
                leaves_line_feed(last),
            );
        }
    }
}

/// What is written is read back: the text of well-formed component values
/// is read as the tokens of the values, with an empty comment for each
/// separator that the text holds.
pub proof fn lemma_round_trip(values: Seq<ComponentValue>)
    requires
        well_formed_values(values),
        !carries(values),
    ensures
        tokens_of(values_text(values)) == values_tokens(values),
{
    let s = values_text(values);
    assert(has_text(s, 0, s));
    if values.len() > 0 {
        lemma_stops_at(values.last(), s, s.len() as int);
    }
    lemma_values_read(s, 0, values);
    assert(tokens_from(s, s.len() as int) =~= Seq::<TokenView>::empty());
    assert(values_tokens(values) + Seq::<TokenView>::empty() =~= values_tokens(values));
}

/// As `lemma_round_trip`, for nodes.
pub proof fn lemma_round_trip_nodes(nodes: Seq<Node>)
    requires
        well_formed_nodes(nodes),
        !(nodes.len() > 0 && leaves_line_feed(nodes.last().0)),
    ensures
        tokens_of(nodes_text(nodes)) == nodes_tokens(nodes),
{
    let s = nodes_text(nodes);
    assert(has_text(s, 0, s));
    if nodes.len() > 0 {
        lemma_stops_at(nodes.last().0, s, s.len() as int);
    }
    lemma_nodes_read(s, 0, nodes);
    assert(tokens_from(s, s.len() as int) =~= Seq::<TokenView>::empty());
    assert(nodes_tokens(nodes) + Seq::<TokenView>::empty() =~= nodes_tokens(nodes));
}

/// Whether a text holds none of the characters that normalizing replaces.
/// Texts that are put together from such texts are such texts.
proof fn lemma_normalized_add(a: Seq<char>, b: Seq<char>)
    requires
        is_normalized(a),
        is_normalized(b),
    ensures
        is_normalized(a + b),
{
    assert forall|k: int| 0 <= k < (a + b).len() implies #[trigger] (a + b)[k] != '\r' && (a
        + b)[k] != '\u{c}' && (a + b)[k] != '\0' by {
        if k < a.len() {
            assert((a + b)[k] == a[k]);
        } else {
            assert((a + b)[k] == b[k - a.len()]);
        }
    }
}

proof fn lemma_hex_escape_normalized(c: char)
    ensures
        is_normalized(hex_escape(c)),
{
    let digits = hex_digits(c as nat);
    lemma_hex_digits_are_digits(c as nat);
    let text = hex_escape(c);
    assert forall|k: int| 0 <= k < text.len() implies #[trigger] text[k] != '\r' && text[k]
        != '\u{c}' && text[k] != '\0' by {
        if 0 < k < text.len() - 1 {
            assert(text[k] == digits[k - 1]);
        }
    }
}

proof fn lemma_hex_digits_are_digits(n: nat)
    ensures
        forall|k: int|
            0 <= k < hex_digits(n).len() ==> spec_is_hex_digit(#[trigger] hex_digits(n)[k]),
    decreases n,
{
    crate::reading::lemma_hex_digit((n % 16) as int);
    let digits = hex_digits(n);
    if n >= 16 {
        lemma_hex_digits_are_digits(n / 16);
        let front = hex_digits(n / 16);
        assert forall|k: int| 0 <= k < digits.len() implies spec_is_hex_digit(
            #[trigger] digits[k],
        ) by {
            if k < front.len() {
                assert(digits[k] == front[k]);
            }
        }
    } else {
        assert(digits.len() == 1);
    }
}

proof fn lemma_name_text_normalized(name: Seq<char>)
    requires
        no_nul(name),
    ensures
        is_normalized(name_text(name)),
    decreases name.len(),
{
    if name.len() > 0 {
        let front = name.drop_last();
        assert(no_nul(front)) by {
            assert forall|k: int| 0 <= k < front.len() implies #[trigger] front[k] != '\0' by {
                assert(front[k] == name[k]);
            }
        }
        lemma_name_text_normalized(front);
        let c = name.last();
        lemma_hex_escape_normalized(c);
        assert(is_normalized(name_char_text(c)));
        lemma_normalized_add(name_text(front), name_char_text(c));
    }
}

proof fn lemma_identifier_text_normalized(name: Seq<char>)
    requires
        no_nul(name),
    ensures
        is_normalized(identifier_text(name)),
        is_normalized(unit_text(name)),
        is_normalized(function_name_text(name)),
{
    if name.len() > 0 {
        lemma_hex_escape_normalized(name[0]);
        let rest = name.skip(1);
        assert(no_nul(rest)) by {
            assert forall|k: int| 0 <= k < rest.len() implies #[trigger] rest[k] != '\0' by {
                assert(rest[k] == name[k + 1]);
            }
        }
        lemma_name_text_normalized(rest);
        lemma_name_text_normalized(name);
        lemma_normalized_add(hex_escape(name[0]), name_text(rest));
        lemma_normalized_add(seq!['-'], name_text(rest));
        if name.len() > 1 {
            let tail = name.skip(2);
            assert(no_nul(tail)) by {
                assert forall|k: int| 0 <= k < tail.len() implies #[trigger] tail[k] != '\0' by {
                    assert(tail[k] == name[k + 2]);
                }
            }
            lemma_name_text_normalized(tail);
            lemma_hex_escape_normalized(name[1]);
            lemma_normalized_add(seq!['-'], hex_escape(name[1]));
            lemma_normalized_add(seq!['-'] + hex_escape(name[1]), name_text(tail));
            lemma_normalized_add(seq!['-', '\\', '-'], name_text(tail));
        }
        if name.len() == 3 {
            lemma_hex_escape_normalized(name[2]);
            assert(name[0] != '\0' && name[1] != '\0');
            if spec_is_url_name(name) {
                lemma_normalized_add(seq![name[0], name[1]], hex_escape(name[2]));
            }
        }
    }
}

proof fn lemma_string_text_normalized(value: Seq<char>)
    ensures
        is_normalized(string_body_text(value)),
        is_normalized(string_text(value)),
    decreases value.len(),
{
    if value.len() > 0 {
        let front = value.drop_last();
        lemma_string_text_normalized(front);
        let c = value.last();
        lemma_hex_escape_normalized(c);
        assert(is_normalized(string_char_text(c)));
        lemma_normalized_add(string_body_text(front), string_char_text(c));
    }
    lemma_normalized_add(seq!['"'], string_body_text(value));
    lemma_normalized_add(seq!['"'] + string_body_text(value), seq!['"']);
}

proof fn lemma_url_text_normalized(value: Seq<char>)
    ensures
        is_normalized(url_body_text(value)),
    decreases value.len(),
{
    if value.len() > 0 {
        let front = value.drop_last();
        lemma_url_text_normalized(front);
        let c = value.last();
        lemma_hex_escape_normalized(c);
        assert(is_normalized(url_char_text(c)));
        lemma_normalized_add(url_body_text(front), url_char_text(c));
    }
}

/// The text of a number holds digits, signs, `.`, `e` and `E` only.
proof fn lemma_number_text_normalized(text: Seq<char>)
    requires
        is_number_text(text),
    ensures
        is_normalized(text),
{
    let first = sign_len(text, 0);
    let whole = integer_end(text, 0);
    let c = fraction_end(text, 0);
    lemma_digits_end(text, first);
    if has_fraction(text, 0) {
        lemma_digits_end(text, whole + 1);
    }
    if has_exponent(text, 0) {
        lemma_digits_end(text, c + 1 + sign_len(text, c + 1));
    }
    assert forall|k: int| 0 <= k < text.len() implies #[trigger] text[k] != '\r' && text[k]
        != '\u{c}' && text[k] != '\0' by {
        if first <= k < whole {
            assert(digit_at(text, k));
        } else if has_fraction(text, 0) && whole < k < c {
            assert(digit_at(text, k));
        } else if has_exponent(text, 0) && c + 1 + sign_len(text, c + 1) <= k {
            assert(digit_at(text, k));
        }
    }
}

proof fn lemma_atom_text_normalized(value: ComponentValue)
    requires
        well_formed(value),
        !is_block(value),
    ensures
        is_normalized(value_text(value)),
{
    match value {
        ComponentValue::Ident(name) => {
            lemma_identifier_text_normalized(name@);
        },
        ComponentValue::AtKeyword(name) => {
            lemma_identifier_text_normalized(name@);
            lemma_normalized_add(seq!['@'], identifier_text(name@));
        },
        ComponentValue::Hash(name) => {
            lemma_name_text_normalized(name@);
            lemma_normalized_add(seq!['#'], name_text(name@));
        },
        ComponentValue::IDHash(name) => {
            lemma_identifier_text_normalized(name@);
            lemma_normalized_add(seq!['#'], identifier_text(name@));
        },
        ComponentValue::String(text) => {
            lemma_string_text_normalized(text@);
        },
        ComponentValue::URL(text) => {
            lemma_url_text_normalized(text@);
            lemma_normalized_add(seq!['u', 'r', 'l', '('], url_body_text(text@));
            lemma_normalized_add(seq!['u', 'r', 'l', '('] + url_body_text(text@), seq![')']);
        },
        ComponentValue::Number(number) => {
            lemma_number_text_normalized(number.representation@);
        },
        ComponentValue::Percentage(number) => {
            lemma_number_text_normalized(number.representation@);
            lemma_normalized_add(number.representation@, seq!['%']);
        },
        ComponentValue::Dimension(number, unit) => {
            lemma_number_text_normalized(number.representation@);
            lemma_identifier_text_normalized(unit@);
            lemma_normalized_add(number.representation@, unit_text(unit@));
        },
        ComponentValue::UnicodeRange(start, end) => {
            lemma_hex_digits_are_digits(start as nat);
            lemma_hex_padded(end as nat, 6);
            let first = hex_digits(start as nat);
            let last = hex_padded(end as nat, 6);
            assert(is_normalized(first));
            assert(is_normalized(last));
            lemma_normalized_add(seq!['U', '+'], first);
            lemma_normalized_add(seq!['U', '+'] + first, seq!['-']);
            lemma_normalized_add(seq!['U', '+'] + first + seq!['-'], last);
        },
        _ => {},
    }
}

/// The text of a well-formed component value holds none of the characters
/// that normalizing replaces.
pub proof fn lemma_value_text_normalized(value: ComponentValue)
    requires
        well_formed(value),
    ensures
        is_normalized(value_text(value)),
    decreases value,
{
    match value {
        ComponentValue::Function(name, arguments) => {
            lemma_identifier_text_normalized(name@);
            lemma_values_text_normalized(arguments@);
            let head = function_name_text(name@) + seq!['('];
            lemma_normalized_add(function_name_text(name@), seq!['(']);
            lemma_normalized_add(head, values_text(arguments@));
            lemma_normalized_add(head + values_text(arguments@), seq![')']);
        },
        ComponentValue::ParenthesisBlock(content) => {
            lemma_values_text_normalized(content@);
            lemma_normalized_add(seq!['('], values_text(content@));
            lemma_normalized_add(seq!['('] + values_text(content@), seq![')']);
        },
        ComponentValue::SquareBracketBlock(content) => {
            lemma_values_text_normalized(content@);
            lemma_normalized_add(seq!['['], values_text(content@));
            lemma_normalized_add(seq!['['] + values_text(content@), seq![']']);
        },
        ComponentValue::CurlyBracketBlock(content) => {
            lemma_nodes_text_normalized(content@);
            lemma_normalized_add(seq!['{'], nodes_text(content@));
            lemma_normalized_add(seq!['{'] + nodes_text(content@), seq!['}']);
        },
        _ => {
            lemma_atom_text_normalized(value);
        },
    }
}

/// The text of well-formed component values holds none of the characters
/// that normalizing replaces.
pub proof fn lemma_values_text_normalized(values: Seq<ComponentValue>)
    requires
        well_formed_values(values),
    ensures
        is_normalized(values_text(values)),
    decreases values,
{
    if values.len() > 0 {
        lemma_well_formed_front(values);
        let front = values.drop_last();
        let needed = values.len() >= 2 && spec_needs_separator(
            values[values.len() - 2],
            values.last(),
        );
        lemma_values_text_normalized(front);
        lemma_value_text_normalized(values.last());
        assert(is_normalized(separator_text(needed)));
        lemma_normalized_add(values_text(front), separator_text(needed));
        lemma_normalized_add(
            values_text(front) + separator_text(needed),
            value_text(values.last()),
        );
    }
}

/// As `lemma_values_text_normalized`, for nodes.
pub proof fn lemma_nodes_text_normalized(nodes: Seq<Node>)
    requires
        well_formed_nodes(nodes),
    ensures
        is_normalized(nodes_text(nodes)),
    decreases nodes,
{
    if nodes.len() > 0 {
        lemma_well_formed_front_nodes(nodes);
        let front = nodes.drop_last();
        let needed = nodes.len() >= 2 && spec_needs_separator(
            nodes[nodes.len() - 2].0,
            nodes.last().0,
        );
        lemma_nodes_text_normalized(front);
        lemma_value_text_normalized(nodes.last().0);
        assert(is_normalized(separator_text(needed)));
        lemma_normalized_add(nodes_text(front), separator_text(needed));
        lemma_normalized_add(
            nodes_text(front) + separator_text(needed),
            value_text(nodes.last().0),
        );
    }
}

} // verus!
