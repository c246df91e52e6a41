//! The source text: how it is normalized before it is read, and how places
//! in it are counted in lines and columns.

use vstd::prelude::*;
use crate::ast::SourceLocation;

verus! {

/// The text from `i` on with every line ending made a line feed and every
/// NUL made U+FFFD: a carriage return with the line feed that follows it
/// becomes one line feed, and so does a carriage return or a form feed alone.
pub open spec fn normalized_from(s: Seq<char>, i: int) -> Seq<char>
    decreases s.len() - i,
{
    if i < 0 || i >= s.len() {
        Seq::empty()
    } else if s[i] == '\r' && i + 1 < s.len() && s[i + 1] == '\n' {
        seq!['\n'] + normalized_from(s, i + 2)
    } else if s[i] == '\r' || s[i] == '\u{c}' {
        seq!['\n'] + normalized_from(s, i + 1)
    } else if s[i] == '\0' {
        seq!['\u{fffd}'] + normalized_from(s, i + 1)
    } else {
        seq![s[i]] + normalized_from(s, i + 1)
    }
}

/// The whole text, normalized.
pub open spec fn normalized(s: Seq<char>) -> Seq<char> {
    normalized_from(s, 0)
}

/// Whether a text holds none of the characters that normalizing replaces.
pub open spec fn is_normalized(s: Seq<char>) -> bool {
    forall|i: int|
        0 <= i < s.len() ==> #[trigger] s[i] != '\r' && s[i] != '\u{c}' && s[i] != '\0'
}

/// A normalized text holds none of the characters that normalizing
/// replaces, and it is not longer than the text it was made of.
pub proof fn lemma_normalized_is_normalized(s: Seq<char>, i: int)
    requires
        0 <= i <= s.len(),
    ensures
        is_normalized(normalized_from(s, i)),
        normalized_from(s, i).len() <= s.len() - i,
    decreases s.len() - i,
{
    if i < s.len() {
        if s[i] == '\r' && i + 1 < s.len() && s[i + 1] == '\n' {
            lemma_normalized_is_normalized(s, i + 2);
        } else {
            lemma_normalized_is_normalized(s, i + 1);
        }
    }
}

/// Normalizing a text that is normalized already changes nothing.
pub proof fn lemma_normalized_idempotent(s: Seq<char>, i: int)
    requires
        0 <= i <= s.len(),
        is_normalized(s),
    ensures
        normalized_from(s, i) == s.skip(i),
    decreases s.len() - i,
{
    if i < s.len() {
        lemma_normalized_idempotent(s, i + 1);
        assert(s.skip(i) =~= seq![s[i]] + s.skip(i + 1));
    } else {
        assert(s.skip(i) =~= Seq::<char>::empty());
    }
}

/// Reads a string into its normalized characters.
pub fn normalize(input: &str) -> (r: Vec<char>)
    ensures
        r@ == normalized(input@),
        is_normalized(r@),
{
    let mut out: Vec<char> = Vec::new();
    let mut pending_cr = false;
    let ghost s = input@;
    for c in it: input.chars()
        invariant
            s == input@,
            it.seq() == s,
            pending_cr ==> it.index@ > 0 && s[it.index@ - 1] == '\r',
            normalized(s) == if pending_cr {
                out@ + normalized_from(s, it.index@ - 1)
            } else {
                out@ + normalized_from(s, it.index@ as int)
            },
    {
        let ghost i = it.index@ as int;
        let ghost before = out@;
        assert(s[i] == c);
        if pending_cr {
            out.push('\n');
            if c == '\n' {
                pending_cr = false;
                assert(out@ + normalized_from(s, i + 1) =~= before + normalized_from(s, i - 1));
            } else if c == '\r' {
                assert(out@ + normalized_from(s, i) =~= before + normalized_from(s, i - 1));
            } else {
                pending_cr = false;
                if c == '\u{c}' {
                    out.push('\n');
                } else if c == '\0' {
                    out.push('\u{fffd}');
                } else {
                    out.push(c);
                }
                assert(normalized_from(s, i - 1) =~= seq!['\n'] + normalized_from(s, i));
                assert(out@ + normalized_from(s, i + 1) =~= before + normalized_from(s, i - 1));
            }
        } else {
            if c == '\r' {
                pending_cr = true;
            } else {
                if c == '\u{c}' {
                    out.push('\n');
                } else if c == '\0' {
                    out.push('\u{fffd}');
                } else {
                    out.push(c);
                }
                assert(out@ + normalized_from(s, i + 1) =~= before + normalized_from(s, i));
            }
        }
    }
    assert(normalized_from(s, s.len() as int) =~= Seq::<char>::empty());
    if pending_cr {
        assert(normalized_from(s, s.len() - 1) =~= seq!['\n']);
        out.push('\n');
    }
    assert(out@ =~= normalized(s));
    proof {
        lemma_normalized_is_normalized(s, 0);
    }
    out
}

/// One more than `n`, as far as `usize` reaches.
pub open spec fn spec_one_more(n: usize) -> usize {
    if n < usize::MAX {
        (n + 1) as usize
    } else {
        n
    }
}

#[verifier::when_used_as_spec(spec_one_more)]
pub fn one_more(n: usize) -> (r: usize)
    ensures
        r == spec_one_more(n),
{
    if n < usize::MAX {
        n + 1
    } else {
        n
    }
}

/// The place of offset `i` in the text `s`: the line is one more than the
/// number of line feeds before `i`, the column one more than the number of
/// characters since the last of them.
pub open spec fn location_at(s: Seq<char>, i: int) -> SourceLocation
    decreases i,
{
    if i <= 0 || i > s.len() {
        SourceLocation { line: 1, column: 1 }
    } else if s[i - 1] == '\n' {
        SourceLocation { line: spec_one_more(location_at(s, i - 1).line), column: 1 }
    } else {
        SourceLocation {
            line: location_at(s, i - 1).line,
            column: spec_one_more(location_at(s, i - 1).column),
        }
    }
}

/// Carries a location from offset `from` on to offset `to`.
pub fn advance_location(s: &[char], from: usize, to: usize, location: SourceLocation) -> (r:
    SourceLocation)
    requires
        from <= to <= s@.len(),
        location == location_at(s@, from as int),
    ensures
        r == location_at(s@, to as int),
{
    let mut line: usize = location.line;
    let mut column: usize = location.column;
    let mut i: usize = from;
    while i < to
        invariant
            from <= i <= to <= s@.len(),
            (SourceLocation { line, column }) == location_at(s@, i as int),
        decreases to - i,
    {
        if s[i] == '\n' {
            line = one_more(line);
            column = 1;
        } else {
            column = one_more(column);
        }
        i = i + 1;
    }
    SourceLocation { line, column }
}

} // verus!
