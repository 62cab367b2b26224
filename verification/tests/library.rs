use template_expansion::chunks::{of, Chunk, ChunkId, Chunks};
use template_expansion::errors::{Error, LexError, ParseError};
use template_expansion::groups::{create_groups, Group};
use template_expansion::lexer::lex_all;
use template_expansion::parser::{parse_array, parse_expression};
use template_expansion::state::State;
use template_expansion::streams::Streams;
use template_expansion::token::Token;
use template_expansion::tree::{parse_tokenstream, TokenRepetition, TokenTree};

fn lex(input: &str) -> Vec<Token> {
    lex_all(input).expect("input should lex")
}

fn expand(input: &str) -> Chunks {
    of(input).expect("input should expand")
}

fn chunk(c: &Chunks, id: usize) -> &Chunk {
    c.get(ChunkId(id))
}

fn ids(raw: &[usize]) -> Vec<ChunkId> {
    raw.iter().map(|&i| ChunkId(i)).collect()
}

fn state(inputs: &[&str]) -> State {
    let mut streams = Streams::new();
    for input in inputs {
        streams.add(input);
    }
    State::new(streams)
}

#[test]
fn test_lex() {
    let input = "1234  +-,[] ()   \t \"hello world\"69";
    let tokens = lex(input);
    assert_eq!(
        &[
            Token::Number(1234),
            Token::Plus,
            Token::Dash,
            Token::Comma,
            Token::OpenSquare,
            Token::CloseSquare,
            Token::OpenParen,
            Token::CloseParen,
            Token::Str("hello world".to_string()),
            Token::Number(69)
        ],
        tokens.as_slice()
    );
}

#[test]
fn test_parse_tokenstream() {
    let input = "[$(1, 2),*]";
    let lexed = lex(input);
    let stream = parse_tokenstream(lexed).unwrap();

    assert_eq!(
        stream,
        vec![
            TokenTree::Token(Token::OpenSquare),
            TokenTree::Repetition(TokenRepetition {
                repeated: vec![
                    TokenTree::Token(Token::Number(1)),
                    TokenTree::Token(Token::Comma),
                    TokenTree::Token(Token::Number(2)),
                ],
                separator: Some(Token::Comma),
            }),
            TokenTree::Token(Token::CloseSquare),
        ]
    );
}

#[test]
fn test_create_groups() {
    let input = "[$(1, $(3,)*,),*]";
    let stream = parse_tokenstream(lex(input)).unwrap();

    let groups = create_groups(stream);
    assert_eq!(
        groups,
        vec![
            Group::Simple(vec![Token::OpenSquare]),
            Group::Repetition {
                content: vec![
                    Group::Simple(vec![Token::Number(1), Token::Comma]),
                    Group::Repetition {
                        content: vec![Group::Simple(vec![Token::Number(3), Token::Comma])],
                        separator: None,
                    },
                    Group::Simple(vec![Token::Comma]),
                ],
                separator: Some(Token::Comma),
            },
            Group::Simple(vec![Token::CloseSquare]),
        ]
    );
}

#[test]
fn test_expansion_simple() {
    let result = expand("[1, 2, 3]");

    assert_eq!(result.inner.len(), 1);
    assert_eq!(
        chunk(&result, 0).tokens,
        vec![
            Token::OpenSquare,
            Token::Number(1),
            Token::Comma,
            Token::Number(2),
            Token::Comma,
            Token::Number(3),
            Token::CloseSquare,
        ]
    );
    assert_eq!(chunk(&result, 0).childs, vec![]);
    assert_eq!(result.firsts(), &ids(&[0]));
}

#[test]
fn test_expansion_mild() {
    let result = expand("[$(1),*]");

    assert_eq!(result.inner.len(), 5);
    assert_eq!(chunk(&result, 0).tokens, vec![Token::CloseSquare]);
    assert_eq!(chunk(&result, 0).childs, vec![]);
    assert_eq!(chunk(&result, 1).tokens, vec![Token::Number(1)]);
    assert_eq!(chunk(&result, 1).childs, ids(&[0]));
    assert_eq!(chunk(&result, 2).tokens, vec![Token::Comma]);
    assert_eq!(chunk(&result, 2).childs, ids(&[1]));
    assert_eq!(chunk(&result, 3).tokens, vec![Token::Number(1)]);
    assert_eq!(chunk(&result, 3).childs, ids(&[2]));
    assert_eq!(chunk(&result, 4).tokens, vec![Token::OpenSquare]);
    assert_eq!(chunk(&result, 4).childs, ids(&[0, 1, 3]));
    assert_eq!(result.firsts(), &ids(&[4]));
}

#[test]
fn test_expansion_complex() {
    let result = expand("[$(1, $(3,)*),*]");

    assert_eq!(result.inner.len(), 9);
    let three_comma = vec![Token::Number(3), Token::Comma];
    let one_comma = vec![Token::Number(1), Token::Comma];
    assert_eq!(chunk(&result, 0).tokens, vec![Token::CloseSquare]);
    assert_eq!(chunk(&result, 0).childs, vec![]);
    assert_eq!(chunk(&result, 1).tokens, three_comma);
    assert_eq!(chunk(&result, 1).childs, ids(&[0]));
    assert_eq!(chunk(&result, 2).tokens, three_comma);
    assert_eq!(chunk(&result, 2).childs, ids(&[1]));
    assert_eq!(chunk(&result, 3).tokens, one_comma);
    assert_eq!(chunk(&result, 3).childs, ids(&[0, 1, 2]));
    assert_eq!(chunk(&result, 4).tokens, vec![Token::Comma]);
    assert_eq!(chunk(&result, 4).childs, ids(&[3]));
    assert_eq!(chunk(&result, 5).tokens, three_comma);
    assert_eq!(chunk(&result, 5).childs, ids(&[4]));
    assert_eq!(chunk(&result, 6).tokens, three_comma);
    assert_eq!(chunk(&result, 6).childs, ids(&[5]));
    assert_eq!(chunk(&result, 7).tokens, one_comma);
    assert_eq!(chunk(&result, 7).childs, ids(&[4, 5, 6]));
    assert_eq!(chunk(&result, 8).tokens, vec![Token::OpenSquare]);
    assert_eq!(chunk(&result, 8).childs, ids(&[0, 3, 7]));
    assert_eq!(result.firsts(), &ids(&[8]));
}

#[test]
fn test_parse_expression() {
    parse_expression(&mut state(&[
        // Parsed in parallel:
        "1",
        "\"hello\"",
        "1 + 2 + [3] + 4 - \"world\"",
        "1 + (3 - 2)",
    ]))
    .unwrap();
}

#[test]
fn test_parse_array() {
    parse_array(&mut state(&[
        // Parsed in parallel:
        "[]",
        "[1]",
        "[1 + 2, \"hello\"]",
        "[1,]",
        "[[[[[[1]]]]]]",
        "[[42; 101]; 69]",
    ]))
    .unwrap();
}

#[test]
fn unterminated_group_is_unbalanced() {
    let result = of("[$(1,");
    assert_eq!(result.unwrap_err(), Error::Parse(ParseError::Unbalanced));
}

#[test]
fn separator_without_terminator_is_rejected() {
    let result = of("[$(1),]");
    assert_eq!(
        result.unwrap_err(),
        Error::Parse(ParseError::ExpectedTerminator)
    );
}

#[test]
fn marker_without_open_paren_is_rejected() {
    let result = of("$1");
    assert_eq!(
        result.unwrap_err(),
        Error::Parse(ParseError::ExpectedOpenParen)
    );
}

#[test]
fn group_without_terminator_at_end_is_rejected() {
    let result = of("$(1)");
    assert_eq!(
        result.unwrap_err(),
        Error::Parse(ParseError::ExpectedTerminator)
    );
}

#[test]
fn unterminated_string_is_rejected() {
    assert_eq!(
        lex_all("\"abc").unwrap_err(),
        LexError::UnterminatedString
    );
    assert_eq!(
        of("\"abc").unwrap_err(),
        Error::Lex(LexError::UnterminatedString)
    );
}

#[test]
fn unknown_character_is_rejected() {
    assert_eq!(lex_all("1 @ 2").unwrap_err(), LexError::UnexpectedChar('@'));
}

#[test]
fn number_literals_at_the_type_boundary() {
    assert_eq!(
        lex_all("9223372036854775807").unwrap(),
        vec![Token::Number(i64::MAX)]
    );
    assert_eq!(
        lex_all("9223372036854775808").unwrap_err(),
        LexError::NumberTooLarge
    );
}

#[test]
fn empty_template_expands_to_no_chunks() {
    let result = expand("");
    assert_eq!(result.inner.len(), 0);
    assert_eq!(result.firsts(), &Vec::<ChunkId>::new());
}

#[test]
fn zero_occurrence_path_skips_the_group() {
    // the entry chunk of `[$(1),*]` may go straight to the terminal `]`
    let result = expand("[$(1),*]");
    let entry = chunk(&result, 4);
    assert_eq!(entry.childs[0], ChunkId(0));
    assert_eq!(chunk(&result, 0).tokens, vec![Token::CloseSquare]);
}

#[test]
fn separator_sits_alone_between_content_chunks() {
    // with a semicolon separator the two-or-more path runs through a chunk
    // holding exactly the separator
    let result = expand("[$(1);*]");
    assert_eq!(result.inner.len(), 5);
    assert_eq!(chunk(&result, 2).tokens, vec![Token::Semicolon]);
    assert_eq!(chunk(&result, 2).childs, ids(&[1]));
    assert_eq!(chunk(&result, 3).tokens, vec![Token::Number(1)]);
    assert_eq!(chunk(&result, 3).childs, ids(&[2]));
}

#[test]
fn children_always_precede_their_parent() {
    // allocation order is a reverse topological order: no cycles
    let result = expand("[$(1, $(3,)*),*]");
    for (i, c) in result.inner.iter().enumerate() {
        for child in &c.childs {
            assert!(child.0 < i);
        }
    }
}

#[test]
fn error_messages_name_the_failure() {
    assert_eq!(
        Error::Parse(ParseError::Unbalanced).message(),
        "unbalanced parentheses"
    );
    assert_eq!(Error::Parse(ParseError::ExpectedTerminator).message(), "expected `*`");
}

#[test]
fn expression_mismatch_is_reported() {
    let result = parse_expression(&mut state(&["+"]));
    assert_eq!(result.unwrap_err(), Error::Mismatch);
}

#[test]
fn array_needs_an_opening_bracket() {
    let result = parse_array(&mut state(&["1"]));
    assert_eq!(result.unwrap_err(), Error::Mismatch);
}

#[test]
fn array_reports_missing_input() {
    let result = parse_array(&mut state(&[""]));
    assert_eq!(result.unwrap_err(), Error::EndOfInput);
}

#[test]
fn stream_with_bad_text_fails_when_reached() {
    let result = parse_expression(&mut state(&["\"never closed"]));
    assert_eq!(result.unwrap_err(), Error::Lex(LexError::UnterminatedString));
}

#[test]
fn parsing_nothing_parses_nowhere() {
    parse_expression(&mut state(&[])).unwrap();
}
