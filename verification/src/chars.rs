//! Code point classes, conversions on characters, and decimal digits.

use vstd::prelude::*;
use vstd::slice::slice_subrange;

verus! {

/// Space, tab or line feed. Carriage returns and form feeds are gone once
/// the text has been normalized.
pub open spec fn spec_is_whitespace(c: char) -> bool {
    c == ' ' || c == '\t' || c == '\n'
}

#[verifier::when_used_as_spec(spec_is_whitespace)]
pub fn is_whitespace(c: char) -> (r: bool)
    ensures
        r == spec_is_whitespace(c),
{
    c == ' ' || c == '\t' || c == '\n'
}

/// A decimal digit.
pub open spec fn spec_is_digit(c: char) -> bool {
    '0' <= c <= '9'
}

#[verifier::when_used_as_spec(spec_is_digit)]
pub fn is_digit(c: char) -> (r: bool)
    ensures
        r == spec_is_digit(c),
{
    '0' <= c && c <= '9'
}

/// A hexadecimal digit, in either case.
pub open spec fn spec_is_hex_digit(c: char) -> bool {
    '0' <= c <= '9' || 'a' <= c <= 'f' || 'A' <= c <= 'F'
}

#[verifier::when_used_as_spec(spec_is_hex_digit)]
pub fn is_hex_digit(c: char) -> (r: bool)
    ensures
        r == spec_is_hex_digit(c),
{
    ('0' <= c && c <= '9') || ('a' <= c && c <= 'f') || ('A' <= c && c <= 'F')
}

/// The first code point of a name: a letter, `_`, or anything beyond ASCII.
pub open spec fn spec_is_name_start(c: char) -> bool {
    'a' <= c <= 'z' || 'A' <= c <= 'Z' || c == '_' || c >= '\u{80}'
}

#[verifier::when_used_as_spec(spec_is_name_start)]
pub fn is_name_start(c: char) -> (r: bool)
    ensures
        r == spec_is_name_start(c),
{
    ('a' <= c && c <= 'z') || ('A' <= c && c <= 'Z') || c == '_' || c >= '\u{80}'
}

/// A code point of a name: a name start, a digit or `-`.
pub open spec fn spec_is_name_char(c: char) -> bool {
    spec_is_name_start(c) || spec_is_digit(c) || c == '-'
}

#[verifier::when_used_as_spec(spec_is_name_char)]
pub fn is_name_char(c: char) -> (r: bool)
    ensures
        r == spec_is_name_char(c),
{
    is_name_start(c) || is_digit(c) || c == '-'
}

/// A control character that may not stand in an unquoted URL.
pub open spec fn spec_is_non_printable(c: char) -> bool {
    c <= '\u{8}' || c == '\u{b}' || '\u{e}' <= c <= '\u{1f}' || c == '\u{7f}'
}

#[verifier::when_used_as_spec(spec_is_non_printable)]
pub fn is_non_printable(c: char) -> (r: bool)
    ensures
        r == spec_is_non_printable(c),
{
    c <= '\u{8}' || c == '\u{b}' || ('\u{e}' <= c && c <= '\u{1f}') || c == '\u{7f}'
}

/// The value of a decimal digit.
pub open spec fn spec_digit_value(c: char) -> int {
    c as int - '0' as int
}

pub fn digit_value(c: char) -> (r: u32)
    requires
        is_digit(c),
    ensures
        r == spec_digit_value(c),
        r <= 9,
{
    c as u32 - '0' as u32
}

/// The value of a hexadecimal digit.
pub open spec fn spec_hex_value(c: char) -> int {
    if '0' <= c <= '9' {
        c as int - '0' as int
    } else if 'a' <= c <= 'f' {
        c as int - 'a' as int + 10
    } else {
        c as int - 'A' as int + 10
    }
}

pub fn hex_value(c: char) -> (r: u32)
    requires
        is_hex_digit(c),
    ensures
        r == spec_hex_value(c),
        r <= 15,
{
    if '0' <= c && c <= '9' {
        c as u32 - '0' as u32
    } else if 'a' <= c && c <= 'f' {
        c as u32 - 'a' as u32 + 10
    } else {
        c as u32 - 'A' as u32 + 10
    }
}

/// `c` with the letters `A` to `Z` made lower case, and nothing else changed.
pub open spec fn spec_ascii_lower(c: char) -> char {
    if 'A' <= c <= 'Z' {
        ((c as u8) + 32) as char
    } else {
        c
    }
}

#[verifier::when_used_as_spec(spec_ascii_lower)]
pub fn ascii_lower(c: char) -> (r: char)
    ensures
        r == spec_ascii_lower(c),
{
    if 'A' <= c && c <= 'Z' {
        let b: u8 = c as u8;
        (b + 32) as char
    } else {
        c
    }
}

/// `s` with every ASCII letter made lower case.
pub open spec fn lowercase(s: Seq<char>) -> Seq<char> {
    Seq::new(s.len(), |i: int| spec_ascii_lower(s[i]))
}

/// `char::from_u32` gives the character with the given number, and nothing
/// for a surrogate or a number above U+10FFFF.
pub assume_specification[ char::from_u32 ](i: u32) -> (r: Option<char>)
    ensures
        r == if i <= 0xD7FF || 0xE000 <= i <= 0x10FFFF {
            Some(i as char)
        } else {
            None::<char>
        },
;

/// `String::push` appends one character.
pub assume_specification[ std::string::String::push ](s: &mut std::string::String, c: char)
    ensures
        final(s)@ == old(s)@.push(c),
;

/// The characters of a string, in order.
pub fn chars_of(s: &str) -> (v: Vec<char>)
    ensures
        v@ == s@,
{
    let mut v: Vec<char> = Vec::new();
    for c in it: s.chars()
        invariant
            v@ == it.seq().take(it.index@),
    {
        v.push(c);
    }
    v
}

/// The characters of a string, ASCII letters made lower case.
pub fn lower_chars_of(s: &str) -> (v: Vec<char>)
    ensures
        v@ == lowercase(s@),
{
    let mut v: Vec<char> = Vec::new();
    for c in it: s.chars()
        invariant
            v@ == lowercase(it.seq().take(it.index@)),
    {
        v.push(ascii_lower(c));
        assert(v@ =~= lowercase(it.seq().take(it.index@ + 1)));
    }
    assert(v@ =~= lowercase(s@));
    v
}

/// Appends a text to a string.
pub fn write_text(text: &str, out: &mut String)
    ensures
        final(out)@ == old(out)@ + text@,
{
    let ghost before = out@;
    for c in it: text.chars()
        invariant
            out@ == before + it.seq().take(it.index@),
    {
        out.push(c);
        assert(out@ =~= before + it.seq().take(it.index@ + 1));
    }
}

/// The decimal digits that write `n`.
pub open spec fn decimal_text(n: nat) -> Seq<char>
    decreases n,
{
    if n < 10 {
        seq![('0' as u8 + n) as char]
    } else {
        decimal_text(n / 10).push(('0' as u8 + n % 10) as char)
    }
}

/// Appends the decimal digits that write `n`.
pub fn write_decimal(n: usize, out: &mut String)
    ensures
        final(out)@ == old(out)@ + decimal_text(n as nat),
    decreases n,
{
    if n < 10 {
        out.push((48u8 + n as u8) as char);
        assert(out@ =~= old(out)@ + decimal_text(n as nat));
    } else {
        write_decimal(n / 10, out);
        out.push((48u8 + (n % 10) as u8) as char);
        assert(out@ =~= old(out)@ + decimal_text(n as nat));
    }
}

/// A string made of the characters `chars[from..to]`.
pub fn string_of(chars: &[char], from: usize, to: usize) -> (s: String)
    requires
        from <= to <= chars@.len(),
    ensures
        s@ == chars@.subrange(from as int, to as int),
{
    let mut s = String::new();
    let mut i: usize = from;
    while i < to
        invariant
            from <= i <= to <= chars@.len(),
            s@ == chars@.subrange(from as int, i as int),
        decreases to - i,
    {
        s.push(chars[i]);
        i = i + 1;
        assert(s@ =~= chars@.subrange(from as int, i as int));
    }
    s
}

/// Whether a text holds decimal digits only.
pub open spec fn all_digits(s: Seq<char>) -> bool {
    forall|i: int| 0 <= i < s.len() ==> spec_is_digit(#[trigger] s[i])
}

/// The number that a sequence of decimal digits writes.
pub open spec fn decimal_value(s: Seq<char>) -> int
    decreases s.len(),
{
    if s.len() == 0 {
        0
    } else {
        decimal_value(s.drop_last()) * 10 + spec_digit_value(s.last())
    }
}

/// Digits write no negative number.
pub proof fn lemma_decimal_value_nonnegative(s: Seq<char>)
    requires
        all_digits(s),
    ensures
        decimal_value(s) >= 0,
    decreases s.len(),
{
    if s.len() > 0 {
        lemma_decimal_value_nonnegative(s.drop_last());
    }
}

/// Reads the digits `chars[from..to]` as a number, as long as it is at most
/// `limit`.
pub fn read_decimal(chars: &[char], from: usize, to: usize, limit: u64) -> (r: Option<u64>)
    requires
        from <= to <= chars@.len(),
        all_digits(chars@.subrange(from as int, to as int)),
        limit <= 0xffff_ffff_ffff,
    ensures
        r == if decimal_value(chars@.subrange(from as int, to as int)) <= limit {
            Some(decimal_value(chars@.subrange(from as int, to as int)) as u64)
        } else {
            None::<u64>
        },
{
    let mut value: u64 = 0;
    let mut i: usize = from;
    assert(chars@.subrange(from as int, from as int) =~= Seq::<char>::empty());
    while i < to
        invariant
            from <= i <= to <= chars@.len(),
            all_digits(chars@.subrange(from as int, to as int)),
            limit <= 0xffff_ffff_ffff,
            value == decimal_value(chars@.subrange(from as int, i as int)),
            value <= limit,
        decreases to - i,
    {
        let c = chars[i];
        assert(c == chars@.subrange(from as int, to as int)[i - from]);
        let ghost next = chars@.subrange(from as int, i + 1);
        assert(next.drop_last() =~= chars@.subrange(from as int, i as int));
        assert(next.last() == c);
        value = value * 10 + digit_value(c) as u64;
        if value > limit {
            proof {
                lemma_decimal_value_prefix(chars@.subrange(from as int, to as int), i + 1 - from);
                assert(chars@.subrange(from as int, to as int).take(i + 1 - from) =~= next);
            }
            return None;
        }
        i = i + 1;
    }
    Some(value)
}

/// Digits to the right never make the number smaller.
pub proof fn lemma_decimal_value_prefix(s: Seq<char>, n: int)
    requires
        all_digits(s),
        0 <= n <= s.len(),
    ensures
        decimal_value(s.take(n)) <= decimal_value(s),
    decreases s.len() - n,
{
    if n < s.len() {
        let longer = s.take(n + 1);
        assert(longer.drop_last() =~= s.take(n));
        assert(longer.last() == s[n]);
        assert(all_digits(s.take(n))) by {
            assert forall|i: int| 0 <= i < s.take(n).len() implies spec_is_digit(
                #[trigger] s.take(n)[i],
            ) by {
                assert(s.take(n)[i] == s[i]);
            }
        }
        lemma_decimal_value_nonnegative(s.take(n));
        lemma_decimal_value_prefix(s, n + 1);
    } else {
        assert(s.take(n) =~= s);
    }
}

/// Whether two slices hold the same characters.
pub fn same_chars(a: &[char], b: &[char]) -> (r: bool)
    ensures
        r == (a@ == b@),
{
    if a.len() != b.len() {
        return false;
    }
    let mut i: usize = 0;
    while i < a.len()
        invariant
            i <= a@.len(),
            a@.len() == b@.len(),
            forall|j: int| 0 <= j < i ==> a@[j] == b@[j],
        decreases a@.len() - i,
    {
        if a[i] != b[i] {
            return false;
        }
        i = i + 1;
    }
    assert(a@ =~= b@);
    true
}

/// The part of `chars` from `from` on.
pub fn tail_of<'a>(chars: &'a [char], from: usize) -> (r: &'a [char])
    requires
        from <= chars@.len(),
    ensures
        r@ == chars@.skip(from as int),
{
    let r = slice_subrange(chars, from, chars.len());
    assert(r@ =~= chars@.skip(from as int));
    r
}

} // verus!
