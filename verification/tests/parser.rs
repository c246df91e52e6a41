use cssparser::ast::SourceLocation;
use cssparser::parser::{Delimiter, Delimiters, Parser, SourcePosition};
use cssparser::token::{BlockType, Token};
use cssparser::token_list::TokenList;
use cssparser::tokenizer::Tokenizer;

fn ident(name: &str) -> Token {
    Token::Ident(name.to_string())
}

#[test]
fn delimiters_form_sets() {
    let all = [
        Delimiter::Semicolon,
        Delimiter::Bang,
        Delimiter::Comma,
        Delimiter::CurlyBracketBlock,
    ];
    for d in all.iter() {
        assert!(!Delimiters::none().has(*d));
        for e in all.iter() {
            assert_eq!(Delimiters::of(*d).has(*e), d == e);
            let both = Delimiters::of(*d).union(Delimiters::of(*e));
            for f in all.iter() {
                assert_eq!(both.has(*f), f == d || f == e);
            }
        }
    }
}

#[test]
fn next_passes_over_whitespace_and_comments() {
    let list = TokenList::new(" /* c */ a /* d */ b ");
    let mut parser = Parser::new(&list);
    assert_eq!(parser.next(), Some(&ident("a")));
    assert_eq!(parser.next_including_whitespace(), Some(&Token::WhiteSpace));
    assert_eq!(
        parser.next_including_whitespace_and_comments(),
        Some(&Token::Comment(" d ".to_string()))
    );
    assert_eq!(parser.next_including_whitespace_and_comments(), Some(&Token::WhiteSpace));
    assert_eq!(parser.next(), Some(&ident("b")));
    assert!(parser.is_exhausted());
    assert_eq!(parser.expect_exhausted(), Ok(()));
    assert_eq!(parser.next(), None);
    assert_eq!(parser.next_including_whitespace(), None);
}

#[test]
fn a_block_is_passed_over_or_entered() {
    let list = TokenList::new("a ( b [ c ] ) d f(e) {");
    let mut parser = Parser::new(&list);
    assert_eq!(parser.next(), Some(&ident("a")));
    assert!(!parser.is_at_block());
    assert_eq!(parser.next(), Some(&Token::ParenthesisBlock));
    assert!(parser.is_at_block());
    let inner = parser.parse_nested_block(|block: &mut Parser| -> Result<Vec<Token>, ()> {
        let mut seen = Vec::new();
        while let Some(token) = block.next() {
            seen.push(token.clone());
        }
        Ok(seen)
    });
    assert_eq!(inner, Ok(vec![ident("b"), Token::SquareBracketBlock]));
    assert!(!parser.is_at_block());
    assert_eq!(parser.next(), Some(&ident("d")));
    assert_eq!(parser.next(), Some(&Token::Function("f".to_string())));
    let mut arguments = parser.nested();
    assert_eq!(arguments.next(), Some(&ident("e")));
    assert_eq!(arguments.next(), None);
    assert_eq!(parser.next(), Some(&Token::CurlyBracketBlock));
    let mut rest = parser.nested();
    assert_eq!(rest.next(), None);
    assert_eq!(parser.next(), None);
}

#[test]
fn a_delimiter_ends_the_scope_outside_blocks_only() {
    let list = TokenList::new("a (b;c) ! d , e; f {g}");
    let parser = Parser::new(&list);
    let count = |stops: Delimiters| {
        let mut scope = parser.delimited(stops);
        let mut n = 0;
        while scope.next().is_some() {
            n += 1;
        }
        n
    };
    assert_eq!(count(Delimiters::none()), 9);
    assert_eq!(count(Delimiters::of(Delimiter::Bang)), 2);
    assert_eq!(count(Delimiters::of(Delimiter::Comma)), 4);
    assert_eq!(count(Delimiters::of(Delimiter::Semicolon)), 6);
    assert_eq!(count(Delimiters::of(Delimiter::CurlyBracketBlock)), 8);
    assert_eq!(
        count(Delimiters::of(Delimiter::Semicolon).union(Delimiters::of(Delimiter::Comma))),
        4
    );
}

#[test]
fn expectations_leave_the_parser_where_it_was_when_they_fail() {
    let list = TokenList::new(" a : ; , + { } B");
    let mut parser = Parser::new(&list);
    let start = parser.position();
    assert_eq!(parser.expect_colon(), Err(()));
    assert_eq!(parser.expect_semicolon(), Err(()));
    assert_eq!(parser.expect_comma(), Err(()));
    assert_eq!(parser.expect_delim('+'), Err(()));
    assert_eq!(parser.expect_curly_bracket_block(), Err(()));
    assert_eq!(parser.expect_ident_matching("b"), Err(()));
    assert_eq!(parser.expect_exhausted(), Err(()));
    assert_eq!(parser.position(), start);
    assert_eq!(parser.expect_ident_matching("A"), Ok(()));
    assert_eq!(parser.expect_ident(), Err(()));
    assert_eq!(parser.expect_colon(), Ok(()));
    assert_eq!(parser.expect_semicolon(), Ok(()));
    assert_eq!(parser.expect_comma(), Ok(()));
    assert_eq!(parser.expect_delim('-'), Err(()));
    assert_eq!(parser.expect_delim('+'), Ok(()));
    assert_eq!(parser.expect_curly_bracket_block(), Ok(()));
    assert!(parser.is_at_block());
    assert_eq!(parser.expect_ident().map(|name| name.as_str()), Ok("B"));
    assert_eq!(parser.expect_exhausted(), Ok(()));
    assert_eq!(parser.position(), SourcePosition(list.len()));
    parser.reset(start);
    assert_eq!(parser.position(), SourcePosition(0));
    assert_eq!(parser.next(), Some(&ident("a")));
}

#[test]
fn skipping_goes_to_the_delimiter_or_past_it() {
    let list = TokenList::new("a {b;} c; d");
    let semicolon = Delimiters::of(Delimiter::Semicolon);
    let mut parser = Parser::new(&list);
    parser.skip_until_before(semicolon);
    assert_eq!(parser.position(), SourcePosition(8));
    assert_eq!(parser.next_including_whitespace_and_comments(), Some(&Token::Semicolon));
    parser.reset(SourcePosition(0));
    parser.skip_until_after(semicolon);
    assert_eq!(parser.position(), SourcePosition(9));
    parser.skip_until_after(semicolon);
    assert_eq!(parser.position(), SourcePosition(11));
    assert_eq!(parser.end_position(), SourcePosition(11));

    let mut parser = Parser::new(&list);
    parser.skip_until_after(Delimiters::of(Delimiter::CurlyBracketBlock));
    assert_eq!(parser.position(), SourcePosition(6));

    let mut outer = Parser::new(&list).delimited(semicolon);
    outer.skip_until_after(semicolon);
    assert_eq!(outer.position(), SourcePosition(8));
    outer.skip_whitespace();
    assert_eq!(outer.position(), SourcePosition(8));
}

#[test]
fn positions_have_lines_and_columns() {
    let list = TokenList::new("a\n  b {\n}c");
    let mut parser = Parser::new(&list);
    let at = |line, column| SourceLocation { line, column };
    assert_eq!(parser.source_location(), at(1, 1));
    assert_eq!(parser.next(), Some(&ident("a")));
    assert_eq!(parser.source_location(), at(1, 2));
    assert_eq!(parser.next(), Some(&ident("b")));
    let block = parser.position();
    assert_eq!(parser.location_of(block), at(2, 4));
    assert_eq!(parser.next(), Some(&Token::CurlyBracketBlock));
    assert_eq!(parser.source_location(), at(3, 2));
    assert_eq!(parser.next(), Some(&ident("c")));
    assert_eq!(parser.source_location(), at(3, 3));
    assert_eq!(parser.token_at(SourcePosition(0)), Some(&ident("a")));
    assert_eq!(parser.token_at(SourcePosition(list.len())), None);
    assert_eq!(list.location(2), at(2, 3));
    assert_eq!(list.location(100), at(3, 3));
    assert_eq!(list.get(4), &Token::CurlyBracketBlock);
}

#[test]
fn tokens_open_and_close_blocks() {
    assert_eq!(Token::Function("f".to_string()).opening(), Some(BlockType::Parenthesis));
    assert_eq!(Token::ParenthesisBlock.opening(), Some(BlockType::Parenthesis));
    assert_eq!(Token::SquareBracketBlock.opening(), Some(BlockType::SquareBracket));
    assert_eq!(Token::CurlyBracketBlock.opening(), Some(BlockType::CurlyBracket));
    assert_eq!(Token::Colon.opening(), None);
    assert_eq!(Token::CloseParenthesis.closing(), Some(BlockType::Parenthesis));
    assert_eq!(Token::CloseSquareBracket.closing(), Some(BlockType::SquareBracket));
    assert_eq!(Token::CloseCurlyBracket.closing(), Some(BlockType::CurlyBracket));
    assert_eq!(Token::CurlyBracketBlock.closing(), None);
    assert!(Token::WhiteSpace.is_trivia());
    assert!(Token::Comment("".to_string()).is_trivia());
    assert!(!Token::Semicolon.is_trivia());
}

#[test]
fn the_cursor_walks_the_normalized_text() {
    let mut tokenizer = Tokenizer::new("a\r\nb\0c\rd\u{c}e");
    assert_eq!(tokenizer.len(), 9);
    assert_eq!(tokenizer.position(), 0);
    assert_eq!(tokenizer.peek(0), Some('a'));
    assert_eq!(tokenizer.peek(1), Some('\n'));
    assert_eq!(tokenizer.peek(3), Some('\u{fffd}'));
    assert_eq!(tokenizer.peek(9), None);
    assert_eq!(tokenizer.consume_char(), Some('a'));
    tokenizer.advance(1);
    assert_eq!(tokenizer.position(), 2);
    let location = tokenizer.source_location();
    assert_eq!((location.line, location.column), (2, 1));
    assert_eq!(tokenizer.next(), Some(Token::Ident("b\u{fffd}c".to_string())));
    assert_eq!(tokenizer.next(), Some(Token::WhiteSpace));
    let location = tokenizer.source_location();
    assert_eq!((location.line, location.column), (3, 1));
    tokenizer.advance(100);
    assert!(tokenizer.is_eof());
    assert_eq!(tokenizer.consume_char(), None);
    assert_eq!(tokenizer.next(), None);
    let location = tokenizer.source_location();
    assert_eq!((location.line, location.column), (4, 2));
    tokenizer.reset(0);
    assert_eq!(tokenizer.next(), Some(Token::Ident("a".to_string())));
}

#[test]
fn a_block_without_its_closing_token_is_left_open() {
    let list = TokenList::new("a ( b ) [ c { d");
    assert_eq!(list.len(), 15);
    let mut parser = Parser::new(&list);
    assert!(!parser.is_block_left_open());
    assert_eq!(parser.next(), Some(&Token::Ident("a".to_string())));
    assert!(!parser.is_block_left_open());
    assert_eq!(parser.next(), Some(&Token::ParenthesisBlock));
    assert!(parser.is_at_block());
    assert!(!parser.is_block_left_open());
    assert_eq!(parser.next(), Some(&Token::SquareBracketBlock));
    assert!(parser.is_at_block());
    assert!(parser.is_block_left_open());
    assert!(parser.is_exhausted());
    let between = |start: usize, end: usize| {
        parser.has_open_block_between(SourcePosition(start), SourcePosition(end))
    };
    assert!(!between(0, 8));
    assert!(between(0, 9));
    assert!(between(8, 9));
    assert!(!between(8, 8));
    assert!(!between(9, 12));
    assert!(between(9, 13));
    assert!(between(0, 1000));
    assert!(!between(13, 1000));
    assert!(!between(1000, 0));
}
