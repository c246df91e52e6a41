//! The tokens of a text, held together with the place of each in the source
//! and with the closing token of each block.

use vstd::prelude::*;
use crate::ast::SourceLocation;
use crate::lexical::{token_starts_from, token_starts_of, token_within, tokens_from, tokens_of};
use crate::source::{advance_location, location_at, normalize, normalized};
use crate::token::{BlockType, Token, TokenView};
use crate::tokenizer::next_token;

verus! {

/// The index after the component value that starts at `i`: after the whole
/// block where the token at `i` opens one, after the token itself
/// otherwise.
pub open spec fn value_end(t: Seq<Token>, i: int) -> int
    decreases t.len() - i, 0int,
{
    if 0 <= i < t.len() && t[i].spec_opening() is Some {
        let close = block_close(t, i + 1, t[i].spec_opening()->0);
        if close < t.len() {
            close + 1
        } else {
            close
        }
    } else {
        i + 1
    }
}

/// The index of the token that closes a block of the given kind whose
/// content starts at `i`, or the number of tokens where the block runs to
/// the end of the input. Blocks inside the block are passed over whole, so
/// that their closing tokens close nothing else.
pub open spec fn block_close(t: Seq<Token>, i: int, kind: BlockType) -> int
    decreases t.len() - i, 1int,
{
    if i < 0 || i >= t.len() {
        t.len() as int
    } else if t[i].spec_closing() == Some(kind) {
        i
    } else {
        let next = value_end(t, i);
        if i < next <= t.len() {
            block_close(t, next, kind)
        } else {
            t.len() as int
        }
    }
}

/// The index of the token that closes the block that the token at `i`
/// opens, and `i` itself where the token opens none.
pub open spec fn close_of(t: Seq<Token>, i: int) -> int {
    if 0 <= i < t.len() && t[i].spec_opening() is Some {
        block_close(t, i + 1, t[i].spec_opening()->0)
    } else {
        i
    }
}

/// Whether the token at `i` opens a block that is left open: no token
/// closes it before the input ends.
pub open spec fn left_open(t: Seq<Token>, i: int) -> bool {
    0 <= i < t.len() && t[i].spec_opening() is Some && close_of(t, i) >= t.len()
}

/// Whether some token at an index from `from` up to `to`, `to` left out,
/// opens a block that is left open.
pub open spec fn open_in(t: Seq<Token>, from: int, to: int) -> bool {
    exists|k: int| from <= k < to && #[trigger] left_open(t, k)
}

/// A component value ends after it starts, within the tokens, and so does
/// the block that its token opens.
pub proof fn lemma_value_end(t: Seq<Token>, i: int)
    requires
        0 <= i < t.len(),
    ensures
        i < value_end(t, i) <= t.len(),
        i <= close_of(t, i) <= t.len(),
        t[i].spec_opening() is Some ==> i < close_of(t, i),
    decreases t.len() - i, 0int,
{
    if t[i].spec_opening() is Some {
        lemma_block_close(t, i + 1, t[i].spec_opening()->0);
    }
}

/// A block is closed within the tokens or at their end, and where it is
/// closed stands a closing token of its kind.
pub proof fn lemma_block_close(t: Seq<Token>, i: int, kind: BlockType)
    requires
        0 <= i <= t.len(),
    ensures
        i <= block_close(t, i, kind) <= t.len(),
        block_close(t, i, kind) < t.len() ==> t[block_close(t, i, kind)].spec_closing() == Some(
            kind,
        ),
    decreases t.len() - i, 1int,
{
    if i < t.len() && t[i].spec_closing() != Some(kind) {
        lemma_value_end(t, i);
        lemma_block_close(t, value_end(t, i), kind);
    }
}

/// The views of tokens, in order.
pub open spec fn views_of(t: Seq<Token>) -> Seq<TokenView> {
    Seq::new(t.len(), |i: int| t[i]@)
}

/// The tokens of a text.
pub struct TokenList {
    tokens: Vec<Token>,
    locations: Vec<SourceLocation>,
    end_location: SourceLocation,
    closers: Vec<usize>,
}

impl TokenList {
    #[verifier::type_invariant]
    spec fn inv(self) -> bool {
        &&& self.locations@.len() == self.tokens@.len()
        &&& self.closers@.len() == self.tokens@.len()
        &&& forall|i: int|
            0 <= i < self.tokens@.len() ==> #[trigger] self.closers@[i] == close_of(
                self.tokens@,
                i,
            )
    }

    /// The tokens, in the order of the text.
    pub closed spec fn tokens(&self) -> Seq<Token> {
        self.tokens@
    }

    /// Where each token starts.
    pub closed spec fn locations(&self) -> Seq<SourceLocation> {
        self.locations@
    }

    /// Where the text ends.
    pub closed spec fn end_location(&self) -> SourceLocation {
        self.end_location
    }

    /// The tokens of `input`, normalized: each token of the lexical grammar
    /// in turn, with the line and column where it starts.
    pub fn new(input: &str) -> (r: TokenList)
        ensures
            views_of(r.tokens()) == tokens_of(normalized(input@)),
            r.locations().len() == r.tokens().len(),
            forall|k: int|
                0 <= k < r.tokens().len() ==> #[trigger] r.locations()[k] == location_at(
                    normalized(input@),
                    token_starts_of(normalized(input@))[k],
                ),
            r.end_location() == location_at(
                normalized(input@),
                normalized(input@).len() as int,
            ),
    {
        let chars = normalize(input);
        let s = chars.as_slice();
        let mut tokens: Vec<Token> = Vec::new();
        let mut locations: Vec<SourceLocation> = Vec::new();
        let mut location = SourceLocation { line: 1, column: 1 };
        let mut position: usize = 0;
        let ghost mut starts: Seq<int> = Seq::empty();
        while position < s.len()
            invariant
                position <= s@.len(),
                s@ == normalized(input@),
                location == location_at(s@, position as int),
                locations@.len() == tokens@.len(),
                starts.len() == tokens@.len(),
                views_of(tokens@) + tokens_from(s@, position as int) == tokens_of(s@),
                starts + token_starts_from(s@, position as int) == token_starts_of(s@),
                forall|k: int|
                    0 <= k < tokens@.len() ==> #[trigger] locations@[k] == location_at(
                        s@,
                        starts[k],
                    ),
            decreases s@.len() - position,
        {
            let ghost before = views_of(tokens@);
            let ghost starts_before = starts;
            let (token, end) = next_token(s, position);
            assert(token_within(s@, position as int));
            proof {
                starts = starts.push(position as int);
            }
            tokens.push(token);
            locations.push(location);
            assert(views_of(tokens@) =~= before.push(token@));
            assert(views_of(tokens@) + tokens_from(s@, end as int) =~= before + tokens_from(
                s@,
                position as int,
            ));
            assert(starts + token_starts_from(s@, end as int) =~= starts_before
                + token_starts_from(s@, position as int));
            location = advance_location(s, position, end, location);
            position = end;
        }
        assert(views_of(tokens@) =~= tokens_of(s@));
        assert(starts =~= token_starts_of(s@));
        let closers = match_blocks(&tokens);
        TokenList { tokens, locations, end_location: location, closers }
    }

    /// The number of tokens.
    pub fn len(&self) -> (r: usize)
        ensures
            r == self.tokens().len(),
    {
        self.tokens.len()
    }

    /// The token at `index`.
    pub fn get(&self, index: usize) -> (r: &Token)
        requires
            index < self.tokens().len(),
        ensures
            *r == self.tokens()[index as int],
    {
        &self.tokens[index]
    }

    /// Line and column of the start of the token at `index`, or of the end
    /// of the text where `index` is the number of tokens or more.
    pub fn location(&self, index: usize) -> (r: SourceLocation)
        ensures
            r == if index < self.tokens().len() {
                self.locations()[index as int]
            } else {
                self.end_location()
            },
    {
        proof {
            use_type_invariant(self);
        }
        if index < self.tokens.len() {
            self.locations[index]
        } else {
            self.end_location
        }
    }

    /// The index of the token that closes the block that the token at
    /// `index` opens.
    pub fn close(&self, index: usize) -> (r: usize)
        requires
            index < self.tokens().len(),
        ensures
            r == close_of(self.tokens(), index as int),
            index <= r <= self.tokens().len(),
            self.tokens()[index as int].spec_opening() is Some ==> index < r,
    {
        proof {
            use_type_invariant(self);
            lemma_value_end(self.tokens@, index as int);
        }
        self.closers[index]
    }

    /// The index after the component value that starts at `index`.
    pub fn value_end(&self, index: usize) -> (r: usize)
        requires
            index < self.tokens().len(),
        ensures
            r == value_end(self.tokens(), index as int),
            index < r <= self.tokens().len(),
    {
        proof {
            use_type_invariant(self);
            lemma_value_end(self.tokens@, index as int);
        }
        let close = self.closers[index];
        let len: usize = self.tokens.len();
        if self.tokens[index].opening().is_some() {
            if close < self.tokens.len() {
                close + 1
            } else {
                close
            }
        } else {
            index + 1
        }
    }
}

/// Finds the closing token of every block.
fn match_blocks(tokens: &Vec<Token>) -> (closers: Vec<usize>)
    ensures
        closers@.len() == tokens@.len(),
        forall|i: int|
            0 <= i < tokens@.len() ==> #[trigger] closers@[i] == close_of(tokens@, i),
{
    let n: usize = tokens.len();
    let mut closers: Vec<usize> = Vec::new();
    let mut k: usize = 0;
    while k < n
        invariant
            k <= n,
            closers@.len() == k,
        decreases n - k,
    {
        closers.push(0);
        k = k + 1;
    }
    let mut i: usize = n;
    while i > 0
        invariant
            i <= n,
            n == tokens@.len(),
            closers@.len() == n,
            forall|j: int| i <= j < n ==> #[trigger] closers@[j] == close_of(tokens@, j),
        decreases i,
    {
        i = i - 1;
        match tokens[i].opening() {
            None => {
                closers[i] = i;
            },
            Some(kind) => {
                let mut j: usize = i + 1;
                let mut close: usize = n;
                loop
                    invariant
                        i < j <= n,
                        n == tokens@.len(),
                        closers@.len() == n,
                        forall|m: int|
                            i < m < n ==> #[trigger] closers@[m] == close_of(tokens@, m),
                        block_close(tokens@, i + 1, kind) == block_close(tokens@, j as int, kind),
                    ensures
                        close == block_close(tokens@, i + 1, kind),
                        close <= n,
                    decreases n - j,
                {
                    if j >= n {
                        close = n;
                        break;
                    }
                    let closing = tokens[j].closing();
                    let found = match closing {
                        Some(BlockType::Parenthesis) => matches!(kind, BlockType::Parenthesis),
                        Some(BlockType::SquareBracket) => matches!(
                            kind,
                            BlockType::SquareBracket
                        ),
                        Some(BlockType::CurlyBracket) => matches!(kind, BlockType::CurlyBracket),
                        None => false,
                    };
                    if found {
                        close = j;
                        break;
                    }
                    proof {
                        lemma_value_end(tokens@, j as int);
                    }
                    if tokens[j].opening().is_some() {
                        let inner = closers[j];
                        if inner < n {
                            j = inner + 1;
                        } else {
                            j = inner;
                        }
                    } else {
                        j = j + 1;
                    }
                }
                closers[i] = close;
            },
        }
    }
    closers
}

} // verus!
