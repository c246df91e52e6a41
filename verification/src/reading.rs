//! What is written is read back, part by part: laws that relate the texts
//! that the serializer writes for names, numbers, strings and URLs to what
//! the lexical grammar reads in them.

use vstd::prelude::*;
use crate::chars::{
    spec_hex_value, spec_is_digit, spec_is_hex_digit, spec_is_name_char, spec_is_name_start,
    spec_is_whitespace,
};
use crate::lexical::{
    after, digit_at, digits_end, escape_char, escape_end, found, fraction_end, has_exponent,
    has_fraction, hex_at, hex_number, hex_number_with, hex_run, integer_end, is_at,
    lemma_digits_end, lemma_digits_end_in_part, min, name_char_at, name_chars, name_end, number_end,
    numeric_at, question_run, sign_len, starts_identifier, starts_number, starts_unicode_range,
    string_scan, unicode_range_token, url_scan, valid_escape, whitespace_at, Scan,
};
use crate::token::TokenView;
use crate::serializer::{
    hex_digits, hex_escape, hex_padded, identifier_text, name_char_text, name_text, spec_hex_digit,
    spec_is_control, string_body_text, string_char_text, string_text, url_body_text, url_char_text,
};

verus! {

/// Whether the text `s` holds the text `t` at offset `i`.
pub open spec fn has_text(s: Seq<char>, i: int, t: Seq<char>) -> bool {
    &&& 0 <= i
    &&& i + t.len() <= s.len()
    &&& forall|k: int| 0 <= k < t.len() ==> s[i + k] == #[trigger] t[k]
}

/// A text that holds two texts one after the other holds each of them.
pub proof fn lemma_has_text_split(s: Seq<char>, i: int, a: Seq<char>, b: Seq<char>)
    requires
        has_text(s, i, a + b),
    ensures
        has_text(s, i, a),
        has_text(s, i + a.len(), b),
{
    assert forall|k: int| 0 <= k < a.len() implies s[i + k] == #[trigger] a[k] by {
        assert((a + b)[k] == a[k]);
    }
    assert forall|k: int| 0 <= k < b.len() implies s[i + a.len() + k] == #[trigger] b[k] by {
        assert((a + b)[a.len() + k] == b[k]);
    }
}

/// A hexadecimal digit is read as the value that it was written for.
pub proof fn lemma_hex_digit(d: int)
    requires
        0 <= d < 16,
    ensures
        spec_is_hex_digit(spec_hex_digit(d)),
        spec_hex_value(spec_hex_digit(d)) == d,
        spec_hex_digit(d) != '?',
        !spec_is_whitespace(spec_hex_digit(d)),
{
}

/// The largest number of hexadecimal digits that a number below `16^6`
/// takes.
pub open spec fn digits_bound(n: nat) -> int {
    if n < 0x10 {
        1
    } else if n < 0x100 {
        2
    } else if n < 0x1000 {
        3
    } else if n < 0x1_0000 {
        4
    } else if n < 0x10_0000 {
        5
    } else {
        6
    }
}

/// The hexadecimal digits of a number below `16^6` are at most six, and
/// they are read as the number.
pub proof fn lemma_hex_digits(n: nat)
    requires
        n < 0x100_0000,
    ensures
        1 <= hex_digits(n).len() <= digits_bound(n),
        forall|k: int| 0 <= k < hex_digits(n).len() ==> spec_is_hex_digit(hex_digits(n)[k]),
        hex_number(hex_digits(n)) == n,
    decreases n,
{
    lemma_hex_digit((n % 16) as int);
    if n < 16 {
        assert(hex_digits(n).drop_last() =~= Seq::<char>::empty());
        assert(hex_number_with(hex_digits(n).drop_last(), 0) == 0);
    } else {
        lemma_hex_digits(n / 16);
        assert(hex_digits(n).drop_last() =~= hex_digits(n / 16));
    }
}

/// A run of hexadecimal digits is as long as the digits that stand there.
pub proof fn lemma_hex_run_exact(s: Seq<char>, i: int, k: nat, max: nat)
    requires
        0 <= i,
        k <= max,
        forall|j: int| i <= j < i + k ==> hex_at(s, j),
        k == max || !hex_at(s, i + k),
    ensures
        hex_run(s, i, max) == k,
    decreases k,
{
    if k > 0 {
        assert(hex_at(s, i));
        lemma_hex_run_exact(s, i + 1, (k - 1) as nat, (max - 1) as nat);
    }
}

/// An escape by number is read as the character that it was written for.
pub proof fn lemma_hex_escape_read(s: Seq<char>, i: int, c: char)
    requires
        has_text(s, i, hex_escape(c)),
        c != '\0',
    ensures
        valid_escape(s, i),
        escape_char(s, i + 1) == c,
        escape_end(s, i + 1) == i + hex_escape(c).len(),
{
    let digits = hex_digits(c as nat);
    let n = digits.len() as int;
    lemma_hex_digits(c as nat);
    let text = hex_escape(c);
    assert(text.len() == n + 2);
    assert(text[0] == '\\');
    assert(s[i] == '\\');
    assert forall|j: int| i + 1 <= j < i + 1 + n implies hex_at(s, j) by {
        assert(text[j - i] == digits[j - i - 1]);
        assert(s[i + (j - i)] == text[j - i]);
    }
    assert(text[n + 1] == ' ');
    assert(s[i + (n + 1)] == ' ');
    lemma_hex_run_exact(s, i + 1, n as nat, 6);
    assert(hex_at(s, i + 1));
    assert(s.subrange(i + 1, i + 1 + n) =~= digits) by {
        assert forall|k: int| 0 <= k < n implies s.subrange(i + 1, i + 1 + n)[k] == digits[k] by {
            assert(text[k + 1] == digits[k]);
            assert(s[i + (k + 1)] == text[k + 1]);
        }
    }
}

/// The text of one character of a name is read as that character.
pub proof fn lemma_name_char_read(s: Seq<char>, i: int, c: char)
    requires
        has_text(s, i, name_char_text(c)),
        c != '\0',
    ensures
        name_end(s, i) == name_end(s, i + name_char_text(c).len()),
        name_chars(s, i) == seq![c] + name_chars(s, i + name_char_text(c).len()),
        name_char_at(s, i) || valid_escape(s, i),
{
    let text = name_char_text(c);
    if spec_is_name_char(c) {
        assert(text[0] == c);
        assert(s[i] == c);
    } else if spec_is_control(c) {
        lemma_hex_escape_read(s, i, c);
        assert(!name_char_at(s, i));
    } else {
        assert(text[0] == '\\');
        assert(text[1] == c);
        assert(s[i] == '\\');
        assert(s[i + 1] == c);
        assert(!name_char_at(s, i));
        assert(valid_escape(s, i));
        assert(!hex_at(s, i + 1));
    }
}

/// Whether a text holds no NUL.
pub open spec fn no_nul(name: Seq<char>) -> bool {
    forall|k: int| 0 <= k < name.len() ==> #[trigger] name[k] != '\0'
}

/// The text of a name is read as the name, and what follows it in the
/// text as what follows the name.
pub proof fn lemma_name_read(s: Seq<char>, i: int, name: Seq<char>)
    requires
        has_text(s, i, name_text(name)),
        no_nul(name),
    ensures
        name_end(s, i) == name_end(s, i + name_text(name).len()),
        name_chars(s, i) == name + name_chars(s, i + name_text(name).len()),
    decreases name.len(),
{
    if name.len() == 0 {
        assert(name + name_chars(s, i) =~= name_chars(s, i));
    } else {
        let front = name.drop_last();
        let c = name.last();
        lemma_has_text_split(s, i, name_text(front), name_char_text(c));
        assert(no_nul(front)) by {
            assert forall|k: int| 0 <= k < front.len() implies #[trigger] front[k] != '\0' by {
                assert(front[k] == name[k]);
            }
        }
        lemma_name_read(s, i, front);
        let j = i + name_text(front).len();
        lemma_name_char_read(s, j, c);
        assert(name_chars(s, i) =~= name + name_chars(s, i + name_text(name).len())) by {
            assert(front + (seq![c] + name_chars(s, j + name_char_text(c).len())) =~= name
                + name_chars(s, j + name_char_text(c).len()));
        }
    }
}

/// The text of a name starts with the text of its first character.
pub proof fn lemma_name_text_front(name: Seq<char>)
    requires
        name.len() > 0,
    ensures
        name_text(name) == name_char_text(name[0]) + name_text(name.skip(1)),
    decreases name.len(),
{
    if name.len() == 1 {
        assert(name.drop_last() =~= Seq::<char>::empty());
        assert(name.skip(1) =~= Seq::<char>::empty());
        assert(name_text(name.drop_last()) =~= Seq::<char>::empty());
        assert(name_text(name) =~= name_char_text(name[0]) + name_text(name.skip(1)));
    } else {
        let front = name.drop_last();
        lemma_name_text_front(front);
        assert(front.skip(1) =~= name.skip(1).drop_last());
        assert(name.skip(1).last() == name.last());
        assert(front[0] == name[0]);
        assert(name_text(name) =~= name_char_text(name[0]) + name_text(name.skip(1)));
    }
}

/// The text of a character of a name is not empty, and it starts with a
/// name character or with an escape.
pub proof fn lemma_name_char_text_starts(c: char)
    ensures
        name_char_text(c).len() > 0,
        spec_is_name_char(c) ==> name_char_text(c)[0] == c,
        !spec_is_name_char(c) ==> name_char_text(c)[0] == '\\' && name_char_text(c).len() >= 2
            && name_char_text(c)[1] != '\n',
{
    if !spec_is_name_char(c) && spec_is_control(c) {
        lemma_hex_digits(c as nat);
        let digits = hex_digits(c as nat);
        assert(hex_escape(c)[1] == digits[0]);
        assert(spec_is_hex_digit(digits[0]));
    }
}

/// Whether the text of the identifier `name` at `i` is read as the
/// identifier: an identifier starts at `i`, and not a number nor `-->`,
/// and the name that is read there is the identifier and then whatever
/// name the rest of the text starts with.
pub open spec fn identifier_read(s: Seq<char>, i: int, name: Seq<char>) -> bool {
    let end = i + identifier_text(name).len();
    &&& starts_identifier(s, i)
    &&& i < end
    &&& s[i] == '\\' || s[i] == '-' || spec_is_name_start(s[i])
    &&& s[i] == '-' ==> !digit_at(s, i + 1) && !is_at(s, i + 1, '.') && !is_at(s, i + 1, '-')
    &&& (s[i] == 'u' || s[i] == 'U') && is_at(s, i + 1, '+') ==> end == i + 1
    &&& name_end(s, i) == name_end(s, end)
    &&& name_chars(s, i) == name + name_chars(s, end)
}

proof fn lemma_no_nul_skip(name: Seq<char>, n: int)
    requires
        no_nul(name),
        0 <= n <= name.len(),
    ensures
        no_nul(name.skip(n)),
{
    assert forall|k: int| 0 <= k < name.skip(n).len() implies #[trigger] name.skip(n)[k]
        != '\0' by {
        assert(name.skip(n)[k] == name[k + n]);
    }
}

proof fn lemma_identifier_read_digit(s: Seq<char>, i: int, name: Seq<char>)
    requires
        has_text(s, i, identifier_text(name)),
        name.len() > 0,
        no_nul(name),
        spec_is_digit(name[0]),
    ensures
        identifier_read(s, i, name),
{
    let rest = name.skip(1);
    lemma_no_nul_skip(name, 1);
    assert(name =~= seq![name[0]] + rest);
    lemma_has_text_split(s, i, hex_escape(name[0]), name_text(rest));
    lemma_hex_escape_read(s, i, name[0]);
    lemma_name_read(s, i + hex_escape(name[0]).len(), rest);
    let end = i + identifier_text(name).len();
    assert(name_chars(s, i) =~= name + name_chars(s, end));
}

proof fn lemma_identifier_read_minus(s: Seq<char>, i: int, name: Seq<char>)
    requires
        has_text(s, i, identifier_text(name)),
        name.len() == 1,
        name[0] == '-',
    ensures
        identifier_read(s, i, name),
{
    let text = identifier_text(name);
    assert(text[0] == '\\' && text[1] == '-');
    assert(s[i] == '\\' && s[i + 1] == '-');
    assert(valid_escape(s, i));
    assert(!hex_at(s, i + 1));
    assert(name =~= seq!['-']);
    assert(name_chars(s, i) =~= name + name_chars(s, i + 2));
}

proof fn lemma_identifier_read_minus_digit(s: Seq<char>, i: int, name: Seq<char>)
    requires
        has_text(s, i, identifier_text(name)),
        name.len() > 1,
        no_nul(name),
        name[0] == '-',
        spec_is_digit(name[1]),
    ensures
        identifier_read(s, i, name),
{
    let tail = name.skip(2);
    lemma_no_nul_skip(name, 2);
    assert(name =~= seq![name[0], name[1]] + tail);
    lemma_has_text_split(s, i, seq!['-'] + hex_escape(name[1]), name_text(tail));
    lemma_has_text_split(s, i, seq!['-'], hex_escape(name[1]));
    assert(seq!['-'][0] == '-');
    assert(s[i] == '-');
    lemma_hex_escape_read(s, i + 1, name[1]);
    let after_escape = i + 1 + hex_escape(name[1]).len();
    lemma_name_read(s, after_escape, tail);
    assert(name_end(s, i) == name_end(s, i + 1));
    assert(name_end(s, i + 1) == name_end(s, after_escape));
    assert(name_chars(s, i + 1) =~= seq![name[1]] + name_chars(s, after_escape));
    assert(name_chars(s, i) =~= seq!['-'] + name_chars(s, i + 1));
    let end = i + identifier_text(name).len();
    assert(name_chars(s, i) =~= name + name_chars(s, end));
}

proof fn lemma_identifier_read_minus_minus(s: Seq<char>, i: int, name: Seq<char>)
    requires
        has_text(s, i, identifier_text(name)),
        name.len() > 1,
        no_nul(name),
        name[0] == '-',
        name[1] == '-',
    ensures
        identifier_read(s, i, name),
{
    let tail = name.skip(2);
    lemma_no_nul_skip(name, 2);
    assert(name =~= seq![name[0], name[1]] + tail);
    let head = seq!['-', '\\', '-'];
    lemma_has_text_split(s, i, head, name_text(tail));
    assert(head[0] == '-' && head[1] == '\\' && head[2] == '-');
    assert(s[i] == '-' && s[i + 1] == '\\' && s[i + 2] == '-');
    assert(valid_escape(s, i + 1));
    assert(!hex_at(s, i + 2));
    lemma_name_read(s, i + 3, tail);
    assert(name_end(s, i) == name_end(s, i + 1));
    assert(name_end(s, i + 1) == name_end(s, i + 3));
    assert(name_chars(s, i + 1) =~= seq!['-'] + name_chars(s, i + 3));
    assert(name_chars(s, i) =~= seq!['-'] + name_chars(s, i + 1));
    let end = i + identifier_text(name).len();
    assert(name_chars(s, i) =~= name + name_chars(s, end));
}

proof fn lemma_identifier_read_minus_other(s: Seq<char>, i: int, name: Seq<char>)
    requires
        has_text(s, i, identifier_text(name)),
        name.len() > 1,
        no_nul(name),
        name[0] == '-',
        !spec_is_digit(name[1]),
        name[1] != '-',
    ensures
        identifier_read(s, i, name),
{
    let rest = name.skip(1);
    lemma_no_nul_skip(name, 1);
    assert(name =~= seq![name[0]] + rest);
    lemma_has_text_split(s, i, seq!['-'], name_text(rest));
    assert(seq!['-'][0] == '-');
    assert(s[i] == '-');
    lemma_name_text_front(rest);
    lemma_has_text_split(s, i + 1, name_char_text(rest[0]), name_text(rest.skip(1)));
    lemma_name_char_text_starts(rest[0]);
    assert(s[i + 1 + 0] == name_char_text(rest[0])[0]);
    if !spec_is_name_char(rest[0]) {
        assert(s[i + 1 + 1] == name_char_text(rest[0])[1]);
    }
    lemma_name_read(s, i + 1, rest);
    assert(name_end(s, i) == name_end(s, i + 1));
    assert(name_chars(s, i) =~= seq!['-'] + name_chars(s, i + 1));
    let end = i + identifier_text(name).len();
    assert(name_chars(s, i) =~= name + name_chars(s, end));
}

proof fn lemma_identifier_read_plain(s: Seq<char>, i: int, name: Seq<char>)
    requires
        has_text(s, i, identifier_text(name)),
        name.len() > 0,
        no_nul(name),
        !spec_is_digit(name[0]),
        name[0] != '-',
    ensures
        identifier_read(s, i, name),
{
    let rest = name.skip(1);
    lemma_name_text_front(name);
    lemma_has_text_split(s, i, name_char_text(name[0]), name_text(rest));
    lemma_name_char_text_starts(name[0]);
    assert(s[i + 0] == name_char_text(name[0])[0]);
    if !spec_is_name_char(name[0]) {
        assert(s[i + 1] == name_char_text(name[0])[1]);
    }
    lemma_name_read(s, i, name);
    if spec_is_name_char(name[0]) && rest.len() > 0 {
        lemma_name_text_front(rest);
        lemma_has_text_split(s, i + 1, name_char_text(rest[0]), name_text(rest.skip(1)));
        lemma_name_char_text_starts(rest[0]);
        assert(s[i + 1 + 0] == name_char_text(rest[0])[0]);
    }
}

/// The text of an identifier is read as the identifier.
pub proof fn lemma_identifier_read(s: Seq<char>, i: int, name: Seq<char>)
    requires
        has_text(s, i, identifier_text(name)),
        name.len() > 0,
        no_nul(name),
    ensures
        identifier_read(s, i, name),
{
    if spec_is_digit(name[0]) {
        lemma_identifier_read_digit(s, i, name);
    } else if name[0] == '-' {
        if name.len() == 1 {
            lemma_identifier_read_minus(s, i, name);
        } else if spec_is_digit(name[1]) {
            lemma_identifier_read_minus_digit(s, i, name);
        } else if name[1] == '-' {
            lemma_identifier_read_minus_minus(s, i, name);
        } else {
            lemma_identifier_read_minus_other(s, i, name);
        }
    } else {
        lemma_identifier_read_plain(s, i, name);
    }
}

/// A run of digits ends at the latest where something else stands.
pub proof fn lemma_digits_end_before(s: Seq<char>, a: int, e: int)
    requires
        0 <= a <= e <= s.len(),
        !digit_at(s, e),
    ensures
        digits_end(s, a) <= e,
    decreases e - a,
{
    if a < e && digit_at(s, a) {
        lemma_digits_end_before(s, a + 1, e);
    }
}

/// A number is read as it is read alone, wherever it stands before
/// something that cannot go on with a number.
///
/// Where the text of a number stands at `i` and neither a digit nor `.`
/// nor `e` nor `E` follows it, the number that is read at `i` ends with
/// the text, and it has the representation and the integer value of the
/// number that the text is by itself.
pub proof fn lemma_number_read(s: Seq<char>, i: int, text: Seq<char>)
    requires
        has_text(s, i, text),
        starts_number(text, 0),
        number_end(text, 0) == text.len(),
        !digit_at(s, i + text.len()),
        !is_at(s, i + text.len(), '.'),
        !is_at(s, i + text.len(), 'e'),
        !is_at(s, i + text.len(), 'E'),
    ensures
        starts_number(s, i),
        number_end(s, i) == i + text.len(),
        numeric_at(s, i) == numeric_at(text, 0),
        numeric_at(s, i).representation == text,
{
    let e = i + text.len();
    assert(text =~= s.subrange(i, e)) by {
        assert forall|k: int| 0 <= k < text.len() implies text[k] == s.subrange(i, e)[k] by {
            assert(s[i + k] == text[k]);
        }
    }
    assert(text.len() > 0);
    assert(text[0] == s[i]);
    assert(sign_len(text, 0) == sign_len(s, i));
    let first = i + sign_len(s, i);
    if first < e {
        assert(text[first - i] == s[first]);
    }
    if first + 1 < e {
        assert(text[first + 1 - i] == s[first + 1]);
    }
    assert(starts_number(s, i));
    // The integer digits.
    lemma_digits_end_before(s, first, e);
    lemma_digits_end_in_part(s, i, e, first);
    lemma_digits_end(s, first);
    let whole = integer_end(s, i);
    assert(whole - i == integer_end(text, 0));
    // The fraction.
    if whole < e {
        assert(text[whole - i] == s[whole]);
    }
    if whole + 1 < e {
        assert(text[whole + 1 - i] == s[whole + 1]);
    }
    assert(has_fraction(s, i) == has_fraction(text, 0));
    if has_fraction(s, i) {
        lemma_digits_end_before(s, whole + 1, e);
        lemma_digits_end_in_part(s, i, e, whole + 1);
        lemma_digits_end(s, whole + 1);
    }
    let c = fraction_end(s, i);
    assert(c - i == fraction_end(text, 0));
    // The exponent.
    if c < e {
        assert(text[c - i] == s[c]);
    }
    if c + 1 < e {
        assert(text[c + 1 - i] == s[c + 1]);
    }
    if c + 2 < e {
        assert(text[c + 2 - i] == s[c + 2]);
    }
    assert(has_exponent(text, 0) ==> has_exponent(s, i));
    if !has_exponent(text, 0) {
        assert(c == e);
    }
    assert(has_exponent(s, i) == has_exponent(text, 0));
    if has_exponent(s, i) {
        assert(sign_len(text, c + 1 - i) == sign_len(s, c + 1));
        let digits = c + 1 + sign_len(s, c + 1);
        lemma_digits_end_before(s, digits, e);
        lemma_digits_end_in_part(s, i, e, digits);
    }
    assert(number_end(s, i) == e);
    assert(text.subrange(sign_len(text, 0), integer_end(text, 0)) =~= s.subrange(first, whole));
    assert(text.subrange(0, text.len() as int) =~= text);
    assert(is_at(text, 0, '-') == is_at(s, i, '-'));
}

/// What scanning a string gives where the text of a character of a string
/// stands: the character, and then what scanning gives after the text.
pub proof fn lemma_string_char_read(s: Seq<char>, i: int, c: char)
    requires
        has_text(s, i, string_char_text(c)),
        c != '\0',
    ensures
        string_scan(s, i, '"') == after(c, string_scan(s, i + string_char_text(c).len(), '"')),
{
    let text = string_char_text(c);
    if c == '"' || c == '\\' {
        assert(text[0] == '\\' && text[1] == c);
        assert(s[i] == '\\' && s[i + 1] == c);
        assert(!hex_at(s, i + 1));
    } else if c < ' ' || c == '\u{7f}' {
        lemma_hex_escape_read(s, i, c);
        lemma_hex_digits(c as nat);
        let digits = hex_digits(c as nat);
        assert(hex_escape(c)[1] == digits[0]);
        assert(s[i + 1] == digits[0]);
        assert(hex_escape(c).len() >= 3);
    } else {
        assert(text[0] == c);
        assert(s[i] == c);
    }
}

/// What scanning a string gives where the text of the body of a string
/// stands: the characters of the body, and then what scanning gives after
/// the text.
pub proof fn lemma_string_body_read(s: Seq<char>, i: int, value: Seq<char>)
    requires
        has_text(s, i, string_body_text(value)),
        no_nul(value),
    ensures
        string_scan(s, i, '"').ok == string_scan(s, i + string_body_text(value).len(), '"').ok,
        string_scan(s, i, '"').end == string_scan(s, i + string_body_text(value).len(), '"').end,
        string_scan(s, i, '"').chars == value + string_scan(
            s,
            i + string_body_text(value).len(),
            '"',
        ).chars,
    decreases value.len(),
{
    if value.len() == 0 {
        assert(value + string_scan(s, i, '"').chars =~= string_scan(s, i, '"').chars);
    } else {
        let front = value.drop_last();
        let c = value.last();
        lemma_has_text_split(s, i, string_body_text(front), string_char_text(c));
        assert(no_nul(front)) by {
            assert forall|k: int| 0 <= k < front.len() implies #[trigger] front[k] != '\0' by {
                assert(front[k] == value[k]);
            }
        }
        lemma_string_body_read(s, i, front);
        let j = i + string_body_text(front).len();
        lemma_string_char_read(s, j, c);
        let rest = string_scan(s, j + string_char_text(c).len(), '"');
        assert(front + (seq![c] + rest.chars) =~= value + rest.chars);
    }
}

/// The text of a string is read as the string.
pub proof fn lemma_string_read(s: Seq<char>, i: int, value: Seq<char>)
    requires
        has_text(s, i, string_text(value)),
        no_nul(value),
    ensures
        s[i] == '"',
        string_scan(s, i + 1, '"') == (Scan {
            ok: true,
            end: i + string_text(value).len(),
            chars: value,
        }),
{
    let body = string_body_text(value);
    lemma_has_text_split(s, i, seq!['"'] + body, seq!['"']);
    lemma_has_text_split(s, i, seq!['"'], body);
    assert(seq!['"'][0] == '"');
    assert(s[i] == '"');
    assert(s[i + 1 + body.len() + 0] == '"');
    lemma_string_body_read(s, i + 1, value);
    let close = i + 1 + body.len();
    assert(string_scan(s, close, '"') == found(close + 1));
    assert(value + Seq::<char>::empty() =~= value);
}

/// What scanning a URL gives where the text of a character of a URL
/// stands: the character, and then what scanning gives after the text.
pub proof fn lemma_url_char_read(s: Seq<char>, i: int, c: char)
    requires
        has_text(s, i, url_char_text(c)),
        c != '\0',
    ensures
        url_scan(s, i) == after(c, url_scan(s, i + url_char_text(c).len())),
        !whitespace_at(s, i),
        !is_at(s, i, '"'),
        !is_at(s, i, '\''),
{
    let text = url_char_text(c);
    if spec_is_control(c) {
        lemma_hex_escape_read(s, i, c);
        assert(hex_escape(c)[0] == '\\');
        assert(s[i] == '\\');
    } else if c == '"' || c == '\'' || c == '(' || c == ')' || c == '\\' {
        assert(text[0] == '\\' && text[1] == c);
        assert(s[i] == '\\' && s[i + 1] == c);
        assert(!hex_at(s, i + 1));
    } else {
        assert(text[0] == c);
        assert(s[i] == c);
    }
}

/// What scanning a URL gives where the text of the body of a URL stands:
/// the characters of the body, and then what scanning gives after the
/// text.
pub proof fn lemma_url_body_read(s: Seq<char>, i: int, value: Seq<char>)
    requires
        has_text(s, i, url_body_text(value)),
        no_nul(value),
    ensures
        url_scan(s, i).ok == url_scan(s, i + url_body_text(value).len()).ok,
        url_scan(s, i).end == url_scan(s, i + url_body_text(value).len()).end,
        url_scan(s, i).chars == value + url_scan(s, i + url_body_text(value).len()).chars,
    decreases value.len(),
{
    if value.len() == 0 {
        assert(value + url_scan(s, i).chars =~= url_scan(s, i).chars);
    } else {
        let front = value.drop_last();
        let c = value.last();
        lemma_has_text_split(s, i, url_body_text(front), url_char_text(c));
        assert(no_nul(front)) by {
            assert forall|k: int| 0 <= k < front.len() implies #[trigger] front[k] != '\0' by {
                assert(front[k] == value[k]);
            }
        }
        lemma_url_body_read(s, i, front);
        let j = i + url_body_text(front).len();
        lemma_url_char_read(s, j, c);
        let rest = url_scan(s, j + url_char_text(c).len());
        assert(front + (seq![c] + rest.chars) =~= value + rest.chars);
    }
}

/// The text of the body of a URL starts with the text of its first
/// character.
pub proof fn lemma_url_body_front(value: Seq<char>)
    requires
        value.len() > 0,
    ensures
        url_body_text(value) == url_char_text(value[0]) + url_body_text(value.skip(1)),
    decreases value.len(),
{
    if value.len() == 1 {
        assert(value.drop_last() =~= Seq::<char>::empty());
        assert(value.skip(1) =~= Seq::<char>::empty());
        assert(url_body_text(value.drop_last()) =~= Seq::<char>::empty());
        assert(url_body_text(value) =~= url_char_text(value[0]) + url_body_text(value.skip(1)));
    } else {
        let front = value.drop_last();
        lemma_url_body_front(front);
        assert(front.skip(1) =~= value.skip(1).drop_last());
        assert(value.skip(1).last() == value.last());
        assert(front[0] == value[0]);
        assert(url_body_text(value) =~= url_char_text(value[0]) + url_body_text(value.skip(1)));
    }
}

/// Sixteen to the power of `w`, for `w` up to six.
pub open spec fn sixteen_to(w: nat) -> int {
    if w == 0 {
        1
    } else if w == 1 {
        0x10
    } else if w == 2 {
        0x100
    } else if w == 3 {
        0x1000
    } else if w == 4 {
        0x1_0000
    } else if w == 5 {
        0x10_0000
    } else {
        0x100_0000
    }
}

/// Digits written to a width are as many as the width, and they are read
/// as what is left of the number when it is divided by sixteen to the
/// power of the width.
pub proof fn lemma_hex_padded(n: nat, w: nat)
    requires
        w <= 6,
    ensures
        hex_padded(n, w).len() == w,
        forall|k: int| 0 <= k < w ==> spec_is_hex_digit(#[trigger] hex_padded(n, w)[k]),
        hex_number(hex_padded(n, w)) == n % (sixteen_to(w) as nat),
    decreases w,
{
    if w > 0 {
        lemma_hex_digit((n % 16) as int);
        lemma_hex_padded(n / 16, (w - 1) as nat);
        assert(hex_padded(n, w).drop_last() =~= hex_padded(n / 16, (w - 1) as nat));
        let below = sixteen_to((w - 1) as nat);
        vstd::arithmetic::div_mod::lemma_breakdown(n as int, 16, below);
        assert(16 * below == sixteen_to(w));
    } else {
        assert(hex_number_with(hex_padded(n, w), 0) == 0);
    }
}

/// The text of a unicode range is read as the range.
pub proof fn lemma_unicode_range_read(s: Seq<char>, i: int, start: u32, end: u32)
    requires
        has_text(
            s,
            i,
            seq!['U', '+'] + hex_digits(start as nat) + seq!['-'] + hex_padded(end as nat, 6),
        ),
        start <= end <= 0x10FFFF,
    ensures
        starts_unicode_range(s, i),
        unicode_range_token(s, i + 2) == (
            TokenView::UnicodeRange(start, end),
            i + 2 + hex_digits(start as nat).len() + 7,
        ),
{
    let first = hex_digits(start as nat);
    let last = hex_padded(end as nat, 6);
    let h = first.len() as int;
    lemma_hex_digits(start as nat);
    lemma_hex_padded(end as nat, 6);
    let text = seq!['U', '+'] + first + seq!['-'] + last;
    assert(text.len() == h + 9);
    assert(text[0] == 'U' && text[1] == '+');
    assert(s[i + 0] == text[0]);
    assert(s[i + 1] == text[1]);
    assert forall|j: int| i + 2 <= j < i + 2 + h implies hex_at(s, j) by {
        assert(text[j - i] == first[j - i - 2]);
        assert(s[i + (j - i)] == text[j - i]);
    }
    assert(text[h + 2] == '-');
    assert(s[i + (h + 2)] == '-');
    assert forall|j: int| i + 3 + h <= j < i + 9 + h implies hex_at(s, j) by {
        assert(text[j - i] == last[j - i - 3 - h]);
        assert(s[i + (j - i)] == text[j - i]);
    }
    lemma_hex_run_exact(s, i + 2, h as nat, 6);
    lemma_hex_run_exact(s, i + 3 + h, 6, 6);
    assert(question_run(s, i + 2 + h, (6 - h) as nat) == 0);
    assert(s.subrange(i + 2, i + 2 + h + 0) =~= first) by {
        assert forall|k: int| 0 <= k < h implies s.subrange(i + 2, i + 2 + h)[k] == first[k] by {
            assert(text[k + 2] == first[k]);
            assert(s[i + (k + 2)] == text[k + 2]);
        }
    }
    assert(s.subrange(i + 3 + h, i + 9 + h) =~= last) by {
        assert forall|k: int| 0 <= k < 6 implies s.subrange(i + 3 + h, i + 9 + h)[k]
            == last[k] by {
            assert(text[k + 3 + h] == last[k]);
            assert(s[i + (k + 3 + h)] == text[k + 3 + h]);
        }
    }
    assert(hex_at(s, i + 2));
    assert(hex_at(s, i + 3 + h));
    let b = i + 2;
    assert(hex_run(s, b, 6) == h);
    assert(question_run(s, b + h, (6 - h) as nat) == 0);
    assert(s.subrange(b, b + h + 0) == first);
    assert(hex_number(first) == start);
    assert(is_at(s, b + h, '-'));
    assert(hex_at(s, b + h + 1));
    assert(hex_run(s, b + h + 1, 6) == 6);
    assert(s.subrange(b + h + 1, b + h + 1 + 6) == last);
    assert(sixteen_to(6) == 0x100_0000);
    assert((end as nat) % 0x100_0000 == end as nat);
    assert(hex_number(last) == end);
    assert(min(end as int, 0x10FFFF) == end);
    assert(min(start as int, end as int) == start);
}

} // verus!
