//! Component values written back as CSS text, in such a way that reading
//! the text gives the same component values again.

use vstd::prelude::*;
use crate::ast::{ComponentValue, Node};
use crate::lexical::tokens_of;
use crate::round_trip::{
    carries, leaves_line_feed, lemma_round_trip, lemma_round_trip_nodes, nodes_tokens,
    values_tokens, well_formed_nodes, well_formed_values,
};
use crate::chars::{
    ascii_lower, chars_of, is_digit, is_name_char, spec_ascii_lower, spec_is_digit,
    spec_is_name_char,
};

verus! {

/// The hexadecimal digit with the value `d`.
pub open spec fn spec_hex_digit(d: int) -> char {
    if d < 10 {
        ('0' as u8 + d) as char
    } else {
        ('a' as u8 + d - 10) as char
    }
}

fn hex_digit(d: u8) -> (c: char)
    requires
        d < 16,
    ensures
        c == spec_hex_digit(d as int),
{
    if d < 10 {
        (48u8 + d) as char
    } else {
        (87u8 + d) as char
    }
}

/// The hexadecimal digits that write `n`, without leading zeros.
pub open spec fn hex_digits(n: nat) -> Seq<char>
    decreases n,
{
    if n < 16 {
        seq![spec_hex_digit(n as int)]
    } else {
        hex_digits(n / 16).push(spec_hex_digit((n % 16) as int))
    }
}

/// The last `width` hexadecimal digits that write `n`, zeros included.
pub open spec fn hex_padded(n: nat, width: nat) -> Seq<char>
    decreases width,
{
    if width == 0 {
        Seq::empty()
    } else {
        hex_padded(n / 16, (width - 1) as nat).push(spec_hex_digit((n % 16) as int))
    }
}

fn write_hex(n: u32, out: &mut String)
    ensures
        final(out)@ == old(out)@ + hex_digits(n as nat),
    decreases n,
{
    if n < 16 {
        out.push(hex_digit(n as u8));
        assert(out@ =~= old(out)@ + hex_digits(n as nat));
    } else {
        write_hex(n / 16, out);
        out.push(hex_digit((n % 16) as u8));
        assert(out@ =~= old(out)@ + hex_digits(n as nat));
    }
}

fn write_hex_padded(n: u32, width: u32, out: &mut String)
    ensures
        final(out)@ == old(out)@ + hex_padded(n as nat, width as nat),
    decreases width,
{
    if width > 0 {
        write_hex_padded(n / 16, width - 1, out);
        out.push(hex_digit((n % 16) as u8));
        assert(out@ =~= old(out)@ + hex_padded(n as nat, width as nat));
    } else {
        assert(out@ =~= old(out)@ + hex_padded(n as nat, width as nat));
    }
}

/// An escape by number: a backslash, the number of the character in
/// hexadecimal digits, and a space that ends the digits.
pub open spec fn hex_escape(c: char) -> Seq<char> {
    seq!['\\'] + hex_digits(c as nat) + seq![' ']
}

fn write_hex_escape(c: char, out: &mut String)
    ensures
        final(out)@ == old(out)@ + hex_escape(c),
{
    out.push('\\');
    write_hex(c as u32, out);
    out.push(' ');
    assert(out@ =~= old(out)@ + hex_escape(c));
}

/// Whether a character is written by number wherever it needs an escape:
/// the control characters, space included.
pub open spec fn spec_is_control(c: char) -> bool {
    c <= ' ' || c == '\u{7f}'
}

fn is_control(c: char) -> (r: bool)
    ensures
        r == spec_is_control(c),
{
    c <= ' ' || c == '\u{7f}'
}

/// A character of a name: itself where it is a name character, an escape
/// by number where it is a control character, and otherwise itself after a
/// backslash.
pub open spec fn name_char_text(c: char) -> Seq<char> {
    if spec_is_name_char(c) {
        seq![c]
    } else if spec_is_control(c) {
        hex_escape(c)
    } else {
        seq!['\\', c]
    }
}

fn write_name_char(c: char, out: &mut String)
    ensures
        final(out)@ == old(out)@ + name_char_text(c),
{
    if is_name_char(c) {
        out.push(c);
        assert(out@ =~= old(out)@ + name_char_text(c));
    } else if is_control(c) {
        write_hex_escape(c, out);
    } else {
        out.push('\\');
        out.push(c);
        assert(out@ =~= old(out)@ + name_char_text(c));
    }
}

/// The characters of a name, each as `name_char_text` writes it.
pub open spec fn name_text(name: Seq<char>) -> Seq<char>
    decreases name.len(),
{
    if name.len() == 0 {
        Seq::empty()
    } else {
        name_text(name.drop_last()) + name_char_text(name.last())
    }
}

fn write_name(name: &[char], from: usize, out: &mut String)
    requires
        from <= name@.len(),
    ensures
        final(out)@ == old(out)@ + name_text(name@.skip(from as int)),
{
    let mut i: usize = from;
    assert(name@.skip(from as int).take(0) =~= Seq::<char>::empty());
    while i < name.len()
        invariant
            from <= i <= name@.len(),
            out@ == old(out)@ + name_text(name@.skip(from as int).take(i - from)),
        decreases name@.len() - i,
    {
        let ghost before = out@;
        let ghost done = name@.skip(from as int).take(i - from);
        let ghost next = name@.skip(from as int).take(i + 1 - from);
        assert(next.drop_last() =~= done);
        assert(next.last() == name@[i as int]);
        write_name_char(name[i], out);
        assert(out@ =~= old(out)@ + name_text(next));
        i = i + 1;
    }
    assert(name@.skip(from as int).take(i - from) =~= name@.skip(from as int));
}

/// An identifier as text. A digit at its start is written by number, and
/// so is one after a `-` at its start; a `-` that is the whole name or
/// that follows a `-` at the start is written after a backslash.
pub open spec fn identifier_text(name: Seq<char>) -> Seq<char> {
    if name.len() == 0 {
        Seq::empty()
    } else if spec_is_digit(name[0]) {
        hex_escape(name[0]) + name_text(name.skip(1))
    } else if name[0] == '-' {
        if name.len() == 1 {
            seq!['\\', '-']
        } else if spec_is_digit(name[1]) {
            seq!['-'] + hex_escape(name[1]) + name_text(name.skip(2))
        } else if name[1] == '-' {
            seq!['-', '\\', '-'] + name_text(name.skip(2))
        } else {
            seq!['-'] + name_text(name.skip(1))
        }
    } else {
        name_text(name)
    }
}

fn write_identifier(name: &[char], out: &mut String)
    ensures
        final(out)@ == old(out)@ + identifier_text(name@),
{
    if name.len() == 0 {
        assert(out@ =~= old(out)@ + identifier_text(name@));
    } else if is_digit(name[0]) {
        write_hex_escape(name[0], out);
        write_name(name, 1, out);
        assert(out@ =~= old(out)@ + identifier_text(name@));
    } else if name[0] == '-' {
        if name.len() == 1 {
            out.push('\\');
            out.push('-');
            assert(out@ =~= old(out)@ + identifier_text(name@));
        } else if is_digit(name[1]) {
            out.push('-');
            write_hex_escape(name[1], out);
            write_name(name, 2, out);
            assert(out@ =~= old(out)@ + identifier_text(name@));
        } else if name[1] == '-' {
            out.push('-');
            out.push('\\');
            out.push('-');
            write_name(name, 2, out);
            assert(out@ =~= old(out)@ + identifier_text(name@));
        } else {
            out.push('-');
            write_name(name, 1, out);
            assert(out@ =~= old(out)@ + identifier_text(name@));
        }
    } else {
        write_name(name, 0, out);
        assert(name@.skip(0) =~= name@);
    }
}

/// A character of a quoted string: `"` and `\` after a backslash, a
/// control character other than space by number, and anything else as it
/// is.
pub open spec fn string_char_text(c: char) -> Seq<char> {
    if c == '"' || c == '\\' {
        seq!['\\', c]
    } else if c < ' ' || c == '\u{7f}' {
        hex_escape(c)
    } else {
        seq![c]
    }
}

/// What stands between the quotes of a string.
pub open spec fn string_body_text(value: Seq<char>) -> Seq<char>
    decreases value.len(),
{
    if value.len() == 0 {
        Seq::empty()
    } else {
        string_body_text(value.drop_last()) + string_char_text(value.last())
    }
}

/// A string between double quotes.
pub open spec fn string_text(value: Seq<char>) -> Seq<char> {
    seq!['"'] + string_body_text(value) + seq!['"']
}

fn write_string(value: &[char], out: &mut String)
    ensures
        final(out)@ == old(out)@ + string_text(value@),
{
    out.push('"');
    let mut i: usize = 0;
    assert(value@.take(0) =~= Seq::<char>::empty());
    while i < value.len()
        invariant
            i <= value@.len(),
            out@ == old(out)@ + seq!['"'] + string_body_text(value@.take(i as int)),
        decreases value@.len() - i,
    {
        let ghost next = value@.take(i + 1);
        assert(next.drop_last() =~= value@.take(i as int));
        assert(next.last() == value@[i as int]);
        let c = value[i];
        if c == '"' || c == '\\' {
            out.push('\\');
            out.push(c);
        } else if c < ' ' || c == '\u{7f}' {
            write_hex_escape(c, out);
        } else {
            out.push(c);
        }
        assert(out@ =~= old(out)@ + seq!['"'] + string_body_text(next));
        i = i + 1;
    }
    assert(value@.take(i as int) =~= value@);
    out.push('"');
    assert(out@ =~= old(out)@ + string_text(value@));
}

/// A character of an unquoted URL: a control character, space included, by
/// number; a quote, a parenthesis and `\` after a backslash; and anything
/// else as it is.
pub open spec fn url_char_text(c: char) -> Seq<char> {
    if spec_is_control(c) {
        hex_escape(c)
    } else if c == '"' || c == '\'' || c == '(' || c == ')' || c == '\\' {
        seq!['\\', c]
    } else {
        seq![c]
    }
}

/// What stands between the parentheses of an unquoted URL.
pub open spec fn url_body_text(value: Seq<char>) -> Seq<char>
    decreases value.len(),
{
    if value.len() == 0 {
        Seq::empty()
    } else {
        url_body_text(value.drop_last()) + url_char_text(value.last())
    }
}

fn write_url_body(value: &[char], out: &mut String)
    ensures
        final(out)@ == old(out)@ + url_body_text(value@),
{
    let mut i: usize = 0;
    assert(value@.take(0) =~= Seq::<char>::empty());
    while i < value.len()
        invariant
            i <= value@.len(),
            out@ == old(out)@ + url_body_text(value@.take(i as int)),
        decreases value@.len() - i,
    {
        let ghost next = value@.take(i + 1);
        assert(next.drop_last() =~= value@.take(i as int));
        assert(next.last() == value@[i as int]);
        let c = value[i];
        if is_control(c) {
            write_hex_escape(c, out);
        } else if c == '"' || c == '\'' || c == '(' || c == ')' || c == '\\' {
            out.push('\\');
            out.push(c);
        } else {
            out.push(c);
        }
        assert(out@ =~= old(out)@ + url_body_text(next));
        i = i + 1;
    }
    assert(value@.take(i as int) =~= value@);
}

/// Whether the text of a value starts like an identifier.
pub open spec fn spec_starts_like_identifier(value: ComponentValue) -> bool {
    value is Ident || value is Function || value is URL || value is BadURL || value
        is UnicodeRange
}

fn starts_like_identifier(value: &ComponentValue) -> (r: bool)
    ensures
        r == spec_starts_like_identifier(*value),
{
    matches!(
        value,
        ComponentValue::Ident(_) | ComponentValue::Function(_, _) | ComponentValue::URL(_)
            | ComponentValue::BadURL | ComponentValue::UnicodeRange(_, _)
    )
}

/// Whether a value is a number, a percentage or a dimension.
pub open spec fn spec_is_numeric(value: ComponentValue) -> bool {
    value is Number || value is Percentage || value is Dimension
}

fn is_numeric(value: &ComponentValue) -> (r: bool)
    ensures
        r == spec_is_numeric(*value),
{
    matches!(
        value,
        ComponentValue::Number(_) | ComponentValue::Percentage(_) | ComponentValue::Dimension(
            _,
            _,
        )
    )
}

/// Whether a value is the delimiter `c`.
pub open spec fn spec_is_delim(value: ComponentValue, c: char) -> bool {
    value is Delim && value->Delim_0 == c
}

fn is_delim(value: &ComponentValue, c: char) -> (r: bool)
    ensures
        r == spec_is_delim(*value, c),
{
    match value {
        ComponentValue::Delim(d) => *d == c,
        _ => false,
    }
}

/// Whether the texts of two values that follow one another would be read
/// as something else if nothing stood between them: as one token, or as
/// tokens that end elsewhere.
pub open spec fn spec_needs_separator(previous: ComponentValue, next: ComponentValue) -> bool {
    let word = spec_starts_like_identifier(next);
    let number = spec_is_numeric(next);
    let minus = spec_is_delim(next, '-');
    match previous {
        ComponentValue::Ident(_) => word || minus || number || next is CDC || next
            is ParenthesisBlock || spec_is_delim(next, '+'),
        ComponentValue::AtKeyword(_) => word || minus || number || next is CDC,
        ComponentValue::Hash(_) => word || minus || number || next is CDC,
        ComponentValue::IDHash(_) => word || minus || number || next is CDC,
        ComponentValue::Dimension(_, _) => word || minus || number || next is CDC,
        ComponentValue::Number(_) => word || minus || number || next is CDC || spec_is_delim(
            next,
            '%',
        ) || spec_is_delim(next, '.'),
        ComponentValue::WhiteSpace => next is WhiteSpace,
        ComponentValue::Delim(c) => if c == '#' {
            word || minus || number || next is CDC
        } else if c == '-' {
            word || minus || number || next is CDC || spec_is_delim(next, '.')
        } else if c == '@' {
            word || minus || next is CDC
        } else if c == '.' {
            number
        } else if c == '+' {
            number || spec_is_delim(next, '.')
        } else if c == '$' || c == '^' || c == '~' || c == '*' {
            spec_is_delim(next, '=')
        } else if c == '|' {
            spec_is_delim(next, '=') || spec_is_delim(next, '|') || next is DashMatch || next
                is Column
        } else if c == '/' {
            spec_is_delim(next, '*') || next is SubstringMatch
        } else if c == '<' {
            spec_is_delim(next, '!')
        } else {
            false
        },
        _ => false,
    }
}

fn needs_separator(previous: &ComponentValue, next: &ComponentValue) -> (r: bool)
    ensures
        r == spec_needs_separator(*previous, *next),
{
    let word = starts_like_identifier(next);
    let number = is_numeric(next);
    let minus = is_delim(next, '-');
    let cdc = matches!(next, ComponentValue::CDC);
    match previous {
        ComponentValue::Ident(_) => word || minus || number || cdc || matches!(
            next,
            ComponentValue::ParenthesisBlock(_)
        ) || is_delim(next, '+'),
        ComponentValue::AtKeyword(_) => word || minus || number || cdc,
        ComponentValue::Hash(_) => word || minus || number || cdc,
        ComponentValue::IDHash(_) => word || minus || number || cdc,
        ComponentValue::Dimension(_, _) => word || minus || number || cdc,
        ComponentValue::Number(_) => word || minus || number || cdc || is_delim(next, '%')
            || is_delim(next, '.'),
        ComponentValue::WhiteSpace => matches!(next, ComponentValue::WhiteSpace),
        ComponentValue::Delim(c) => {
            let c = *c;
            if c == '#' {
                word || minus || number || cdc
            } else if c == '-' {
                word || minus || number || cdc || is_delim(next, '.')
            } else if c == '@' {
                word || minus || cdc
            } else if c == '.' {
                number
            } else if c == '+' {
                number || is_delim(next, '.')
            } else if c == '$' || c == '^' || c == '~' || c == '*' {
                is_delim(next, '=')
            } else if c == '|' {
                is_delim(next, '=') || is_delim(next, '|') || matches!(
                    next,
                    ComponentValue::DashMatch | ComponentValue::Column
                )
            } else if c == '/' {
                is_delim(next, '*') || matches!(next, ComponentValue::SubstringMatch)
            } else if c == '<' {
                is_delim(next, '!')
            } else {
                false
            }
        },
        _ => false,
    }
}

/// A unit as text: an identifier, with `e` or `E` at its start written by
/// number, so that it is not read as an exponent.
pub open spec fn unit_text(unit: Seq<char>) -> Seq<char> {
    if unit.len() > 0 && (unit[0] == 'e' || unit[0] == 'E') {
        hex_escape(unit[0]) + name_text(unit.skip(1))
    } else {
        identifier_text(unit)
    }
}

/// Whether a name reads `url` in any ASCII case.
pub open spec fn spec_is_url_name(name: Seq<char>) -> bool {
    name.len() == 3 && spec_ascii_lower(name[0]) == 'u' && spec_ascii_lower(name[1]) == 'r'
        && spec_ascii_lower(name[2]) == 'l'
}

/// The name of a function as text: an identifier, but `url` with its last
/// letter written by number, so that what follows is not read as a URL.
pub open spec fn function_name_text(name: Seq<char>) -> Seq<char> {
    if spec_is_url_name(name) {
        seq![name[0], name[1]] + hex_escape(name[2])
    } else {
        identifier_text(name)
    }
}

fn write_function_name(name: &[char], out: &mut String)
    ensures
        final(out)@ == old(out)@ + function_name_text(name@),
{
    if name.len() == 3 && ascii_lower(name[0]) == 'u' && ascii_lower(name[1]) == 'r'
        && ascii_lower(name[2]) == 'l' {
        out.push(name[0]);
        out.push(name[1]);
        write_hex_escape(name[2], out);
        assert(out@ =~= old(out)@ + function_name_text(name@));
    } else {
        write_identifier(name, out);
    }
}

/// The comment that keeps two values apart.
pub open spec fn separator() -> Seq<char> {
    seq!['/', '*', '*', '/']
}

/// A component value as text.
///
/// A block is written with both its brackets, a function with the name
/// that `function_name_text` gives. A bad string is a quote
/// before a line feed, a bad URL is `url(()`, and a `\` that stands alone
/// is written before a line feed. A unicode range has both its ends, the
/// last in six digits.
pub open spec fn value_text(value: ComponentValue) -> Seq<char>
    decreases value,
{
    match value {
        ComponentValue::Ident(name) => identifier_text(name@),
        ComponentValue::AtKeyword(name) => seq!['@'] + identifier_text(name@),
        ComponentValue::Hash(name) => seq!['#'] + name_text(name@),
        ComponentValue::IDHash(name) => seq!['#'] + identifier_text(name@),
        ComponentValue::String(value) => string_text(value@),
        ComponentValue::URL(value) => seq!['u', 'r', 'l', '('] + url_body_text(value@) + seq![')'],
        ComponentValue::Delim(c) => if c == '\\' {
            seq!['\\', '\n']
        } else {
            seq![c]
        },
        ComponentValue::Number(number) => number.representation@,
        ComponentValue::Percentage(number) => number.representation@ + seq!['%'],
        ComponentValue::Dimension(number, unit) => number.representation@ + unit_text(unit@),
        ComponentValue::UnicodeRange(start, end) => seq!['U', '+'] + hex_digits(start as nat)
            + seq!['-'] + hex_padded(end as nat, 6),
        ComponentValue::WhiteSpace => seq![' '],
        ComponentValue::Colon => seq![':'],
        ComponentValue::Semicolon => seq![';'],
        ComponentValue::Comma => seq![','],
        ComponentValue::IncludeMatch => seq!['~', '='],
        ComponentValue::DashMatch => seq!['|', '='],
        ComponentValue::PrefixMatch => seq!['^', '='],
        ComponentValue::SuffixMatch => seq!['$', '='],
        ComponentValue::SubstringMatch => seq!['*', '='],
        ComponentValue::Column => seq!['|', '|'],
        ComponentValue::CDO => seq!['<', '!', '-', '-'],
        ComponentValue::CDC => seq!['-', '-', '>'],
        ComponentValue::Function(name, arguments) => function_name_text(name@) + seq!['(']
            + values_text(arguments@) + seq![')'],
        ComponentValue::ParenthesisBlock(content) => seq!['('] + values_text(content@) + seq![
            ')',
        ],
        ComponentValue::SquareBracketBlock(content) => seq!['['] + values_text(content@) + seq![
            ']',
        ],
        ComponentValue::CurlyBracketBlock(content) => seq!['{'] + nodes_text(content@) + seq![
            '}',
        ],
        ComponentValue::BadURL => seq!['u', 'r', 'l', '(', '(', ')'],
        ComponentValue::BadString => seq!['"', '\n'],
        ComponentValue::CloseParenthesis => seq![')'],
        ComponentValue::CloseSquareBracket => seq![']'],
        ComponentValue::CloseCurlyBracket => seq!['}'],
    }
}

/// Component values as text, one after the other, with an empty comment
/// between two whose texts would not be read apart.
pub open spec fn values_text(values: Seq<ComponentValue>) -> Seq<char>
    decreases values,
{
    if values.len() == 0 {
        Seq::empty()
    } else {
        values_text(values.drop_last()) + (if values.len() >= 2 && spec_needs_separator(
            values[values.len() - 2],
            values.last(),
        ) {
            separator()
        } else {
            Seq::empty()
        }) + value_text(values.last())
    }
}

/// Nodes as text: the text of their component values.
pub open spec fn nodes_text(nodes: Seq<Node>) -> Seq<char>
    decreases nodes,
{
    if nodes.len() == 0 {
        Seq::empty()
    } else {
        nodes_text(nodes.drop_last()) + (if nodes.len() >= 2 && spec_needs_separator(
            nodes[nodes.len() - 2].0,
            nodes.last().0,
        ) {
            separator()
        } else {
            Seq::empty()
        }) + value_text(nodes.last().0)
    }
}

fn write_seq(text: &[char], out: &mut String)
    ensures
        final(out)@ == old(out)@ + text@,
{
    let mut i: usize = 0;
    while i < text.len()
        invariant
            i <= text@.len(),
            out@ == old(out)@ + text@.take(i as int),
        decreases text@.len() - i,
    {
        out.push(text[i]);
        i = i + 1;
        assert(out@ =~= old(out)@ + text@.take(i as int));
    }
    assert(text@.take(i as int) =~= text@);
}

fn write_unit(unit: &[char], out: &mut String)
    ensures
        final(out)@ == old(out)@ + unit_text(unit@),
{
    if unit.len() > 0 && (unit[0] == 'e' || unit[0] == 'E') {
        write_hex_escape(unit[0], out);
        write_name(unit, 1, out);
        assert(out@ =~= old(out)@ + unit_text(unit@));
    } else {
        write_identifier(unit, out);
    }
}

fn write_value(value: &ComponentValue, out: &mut String)
    ensures
        final(out)@ == old(out)@ + value_text(*value),
    decreases value,
{
    match value {
        ComponentValue::Ident(name) => {
            write_identifier(chars_of(name.as_str()).as_slice(), out);
        },
        ComponentValue::AtKeyword(name) => {
            out.push('@');
            write_identifier(chars_of(name.as_str()).as_slice(), out);
        },
        ComponentValue::Hash(name) => {
            out.push('#');
            let chars = chars_of(name.as_str());
            write_name(chars.as_slice(), 0, out);
            assert(chars@.skip(0) =~= chars@);
        },
        ComponentValue::IDHash(name) => {
            out.push('#');
            write_identifier(chars_of(name.as_str()).as_slice(), out);
        },
        ComponentValue::String(value) => {
            write_string(chars_of(value.as_str()).as_slice(), out);
        },
        ComponentValue::URL(value) => {
            out.push('u');
            out.push('r');
            out.push('l');
            out.push('(');
            write_url_body(chars_of(value.as_str()).as_slice(), out);
            out.push(')');
        },
        ComponentValue::Delim(c) => {
            out.push(*c);
            if *c == '\\' {
                out.push('\n');
            }
        },
        ComponentValue::Number(number) => {
            write_seq(chars_of(number.representation.as_str()).as_slice(), out);
        },
        ComponentValue::Percentage(number) => {
            write_seq(chars_of(number.representation.as_str()).as_slice(), out);
            out.push('%');
        },
        ComponentValue::Dimension(number, unit) => {
            write_seq(chars_of(number.representation.as_str()).as_slice(), out);
            write_unit(chars_of(unit.as_str()).as_slice(), out);
        },
        ComponentValue::UnicodeRange(start, end) => {
            out.push('U');
            out.push('+');
            write_hex(*start, out);
            out.push('-');
            write_hex_padded(*end, 6, out);
        },
        ComponentValue::WhiteSpace => {
            out.push(' ');
        },
        ComponentValue::Colon => {
            out.push(':');
        },
        ComponentValue::Semicolon => {
            out.push(';');
        },
        ComponentValue::Comma => {
            out.push(',');
        },
        ComponentValue::IncludeMatch => {
            out.push('~');
            out.push('=');
        },
        ComponentValue::DashMatch => {
            out.push('|');
            out.push('=');
        },
        ComponentValue::PrefixMatch => {
            out.push('^');
            out.push('=');
        },
        ComponentValue::SuffixMatch => {
            out.push('$');
            out.push('=');
        },
        ComponentValue::SubstringMatch => {
            out.push('*');
            out.push('=');
        },
        ComponentValue::Column => {
            out.push('|');
            out.push('|');
        },
        ComponentValue::CDO => {
            out.push('<');
            out.push('!');
            out.push('-');
            out.push('-');
        },
        ComponentValue::CDC => {
            out.push('-');
            out.push('-');
            out.push('>');
        },
        ComponentValue::Function(name, arguments) => {
            write_function_name(chars_of(name.as_str()).as_slice(), out);
            out.push('(');
            write_values(arguments, out);
            out.push(')');
        },
        ComponentValue::ParenthesisBlock(content) => {
            out.push('(');
            write_values(content, out);
            out.push(')');
        },
        ComponentValue::SquareBracketBlock(content) => {
            out.push('[');
            write_values(content, out);
            out.push(']');
        },
        ComponentValue::CurlyBracketBlock(content) => {
            out.push('{');
            write_nodes(content, out);
            out.push('}');
        },
        ComponentValue::BadURL => {
            out.push('u');
            out.push('r');
            out.push('l');
            out.push('(');
            out.push('(');
            out.push(')');
        },
        ComponentValue::BadString => {
            out.push('"');
            out.push('\n');
        },
        ComponentValue::CloseParenthesis => {
            out.push(')');
        },
        ComponentValue::CloseSquareBracket => {
            out.push(']');
        },
        ComponentValue::CloseCurlyBracket => {
            out.push('}');
        },
    }
    assert(out@ =~= old(out)@ + value_text(*value));
}

fn write_values(values: &Vec<ComponentValue>, out: &mut String)
    ensures
        final(out)@ == old(out)@ + values_text(values@),
    decreases values,
{
    let mut i: usize = 0;
    assert(values@.take(0) =~= Seq::<ComponentValue>::empty());
    while i < values.len()
        invariant
            i <= values@.len(),
            out@ == old(out)@ + values_text(values@.take(i as int)),
        decreases values@.len() - i,
    {
        let ghost next = values@.take(i + 1);
        assert(next.drop_last() =~= values@.take(i as int));
        assert(next.last() == values@[i as int]);
        if i > 0 && needs_separator(&values[i - 1], &values[i]) {
            assert(next[next.len() - 2] == values@[i - 1]);
            out.push('/');
            out.push('*');
            out.push('*');
            out.push('/');
        }
        write_value(&values[i], out);
        assert(out@ =~= old(out)@ + values_text(next));
        i = i + 1;
    }
    assert(values@.take(i as int) =~= values@);
}

fn write_nodes(nodes: &Vec<Node>, out: &mut String)
    ensures
        final(out)@ == old(out)@ + nodes_text(nodes@),
    decreases nodes,
{
    let mut i: usize = 0;
    assert(nodes@.take(0) =~= Seq::<Node>::empty());
    while i < nodes.len()
        invariant
            i <= nodes@.len(),
            out@ == old(out)@ + nodes_text(nodes@.take(i as int)),
        decreases nodes@.len() - i,
    {
        let ghost next = nodes@.take(i + 1);
        assert(next.drop_last() =~= nodes@.take(i as int));
        assert(next.last() == nodes@[i as int]);
        if i > 0 && needs_separator(&nodes[i - 1].0, &nodes[i].0) {
            assert(next[next.len() - 2] == nodes@[i - 1]);
            out.push('/');
            out.push('*');
            out.push('*');
            out.push('/');
        }
        write_value(&nodes[i].0, out);
        assert(out@ =~= old(out)@ + nodes_text(next));
        i = i + 1;
    }
    assert(nodes@.take(i as int) =~= nodes@);
}

impl ComponentValue {
    /// The component value as CSS text.
    pub fn to_css(&self) -> (r: String)
        ensures
            r@ == value_text(*self),
    {
        let mut out = String::new();
        write_value(self, &mut out);
        assert(out@ =~= value_text(*self));
        out
    }
}

/// Component values as CSS text, with an empty comment between two whose
/// texts would not be read apart.
///
/// Where the values are as the tokenizer makes them, the text is read back
/// as their tokens, with an empty comment for each separator.
pub fn to_css(values: &Vec<ComponentValue>) -> (r: String)
    ensures
        r@ == values_text(values@),
        well_formed_values(values@) && !carries(values@) ==> tokens_of(r@) == values_tokens(
            values@,
        ),
{
    let mut out = String::new();
    write_values(values, &mut out);
    assert(out@ =~= values_text(values@));
    proof {
        if well_formed_values(values@) && !carries(values@) {
            lemma_round_trip(values@);
        }
    }
    out
}

/// Nodes as CSS text: the text of their component values, with an empty
/// comment between two whose texts would not be read apart.
///
/// Where the nodes are as the tokenizer makes them, the text is read back
/// as their tokens, with an empty comment for each separator.
pub fn nodes_to_css(nodes: &Vec<Node>) -> (r: String)
    ensures
        r@ == nodes_text(nodes@),
        well_formed_nodes(nodes@) && !(nodes@.len() > 0 && leaves_line_feed(nodes@.last().0))
            ==> tokens_of(r@) == nodes_tokens(nodes@),
{
    let mut out = String::new();
    write_nodes(nodes, &mut out);
    assert(out@ =~= nodes_text(nodes@));
    proof {
        if well_formed_nodes(nodes@) && !(nodes@.len() > 0 && leaves_line_feed(
            nodes@.last().0,
        )) {
            lemma_round_trip_nodes(nodes@);
        }
    }
    out
}

} // verus!
