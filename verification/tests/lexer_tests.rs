use compiler::lexer::LexError;
use compiler::lexer::TokenType;
use compiler::lexer::Tokenizer;
use compiler::model::LexErrorKind;

fn scan(src: &str) -> Result<Vec<TokenType>, LexError> {
    let mut scanner = Tokenizer::new(src);
    scanner.scan_source()
}

// This test verifies that the lexer correctly tokenizes a simple function definition.
#[test]
fn test_lexer() {
    // Initialise lexer
    let mut scanner = Tokenizer::new("int main(void) { return 0;}");
    // Generate vector of TokenTypes
    let tokens = scanner.scan_source().expect("scan failed");

    // Vector holding the expected TokenTypes
    let mut expected_tokens = vec![
        TokenType::IntKeyword,
        TokenType::Identifier("main".to_string()),
        TokenType::OpenParenthesis,
        TokenType::VoidKeyword,
        TokenType::CloseParenthesis,
        TokenType::OpenBrace,
        TokenType::ReturnKeyword,
        TokenType::Constant(0),
        TokenType::Semicolon,
        TokenType::CloseBrace,
    ];

    // Assert that the number of tokens produced matches the expected count.
    assert!(tokens.len() == expected_tokens.len());

    let mut etoken_iter = expected_tokens.iter_mut(); // Expected Token Iterator

    // Compare each generated token with the expected tokens.
    for token in &tokens {
        // Get expected token
        let etoken = match etoken_iter.next() {
            Some(v) => v,
            None => panic!("Couldn't get next token"),
        };

        // Assure that the token generated
        // by the lexer is equal to the expected token
        assert!(token == etoken);
    }
}

#[test]
fn all_token_kinds_in_order() {
    let tokens = scan("void int 123 ( ) { } name return ;").expect("scan failed");
    assert_eq!(
        tokens,
        vec![
            TokenType::VoidKeyword,
            TokenType::IntKeyword,
            TokenType::Constant(123),
            TokenType::OpenParenthesis,
            TokenType::CloseParenthesis,
            TokenType::OpenBrace,
            TokenType::CloseBrace,
            TokenType::Identifier("name".to_string()),
            TokenType::ReturnKeyword,
            TokenType::Semicolon,
        ]
    );
}

#[test]
fn comment_produces_no_token() {
    let tokens = scan("// a comment\nint x;").expect("scan failed");
    assert_eq!(
        tokens,
        vec![
            TokenType::IntKeyword,
            TokenType::Identifier("x".to_string()),
            TokenType::Semicolon,
        ]
    );
}

#[test]
fn unrecognized_character_on_line_zero() {
    let err = scan("@").expect_err("expected a lexical error");
    assert_eq!(err.kind, LexErrorKind::UnrecognizedCharacter);
    assert_eq!(err.line, 0);
    assert_eq!(err.message(), "unrecognized character");
}

#[test]
fn empty_input_yields_no_tokens() {
    let tokens = scan("").expect("scan failed");
    assert!(tokens.is_empty());
}

#[test]
fn whitespace_and_comments_only() {
    let tokens = scan(" \t\r\n  // just a comment\n\n").expect("scan failed");
    assert!(tokens.is_empty());
}

#[test]
fn comment_reaching_end_of_input() {
    let tokens = scan("int // trailing comment with no newline").expect("scan failed");
    assert_eq!(tokens, vec![TokenType::IntKeyword]);
}

#[test]
fn keywords_are_exact_matches() {
    let tokens = scan("Int returning voidx int void return").expect("scan failed");
    assert_eq!(
        tokens,
        vec![
            TokenType::Identifier("Int".to_string()),
            TokenType::Identifier("returning".to_string()),
            TokenType::Identifier("voidx".to_string()),
            TokenType::IntKeyword,
            TokenType::VoidKeyword,
            TokenType::ReturnKeyword,
        ]
    );
}

#[test]
fn maximal_munch_keeps_runs_whole() {
    let tokens = scan("intx int1 123abc").expect("scan failed");
    assert_eq!(
        tokens,
        vec![
            TokenType::Identifier("intx".to_string()),
            TokenType::Identifier("int1".to_string()),
            TokenType::Constant(123),
            TokenType::Identifier("abc".to_string()),
        ]
    );
}

#[test]
fn comment_insertion_leaves_tokens_unchanged() {
    let without = scan("int x;\nreturn 0;").expect("scan failed");
    let with = scan("int x;// explains x\nreturn 0;").expect("scan failed");
    assert_eq!(without, with);
}

#[test]
fn error_line_counts_preceding_newlines() {
    let err = scan("int x;\n\n@").expect_err("expected a lexical error");
    assert_eq!(err.kind, LexErrorKind::UnrecognizedCharacter);
    assert_eq!(err.line, 2);

    let err = scan("\n@").expect_err("expected a lexical error");
    assert_eq!(err.line, 1);
}

#[test]
fn largest_constant_parses() {
    let src = format!("{}", isize::MAX);
    let tokens = scan(&src).expect("scan failed");
    assert_eq!(tokens, vec![TokenType::Constant(isize::MAX)]);
}

#[test]
fn constant_overflow_is_reported() {
    let src = format!("{}", (isize::MAX as u128) + 1);
    let err = scan(&src).expect_err("expected a lexical error");
    assert_eq!(err.kind, LexErrorKind::NumericLiteralOverflow);
    assert_eq!(err.line, 0);
    assert_eq!(err.message(), "numeric constant out of range");

    let err = scan("//\n99999999999999999999999999999999999;")
        .expect_err("expected a lexical error");
    assert_eq!(err.kind, LexErrorKind::NumericLiteralOverflow);
    assert_eq!(err.line, 1);
}

#[test]
fn lone_slash_is_not_a_comment() {
    let err = scan("/").expect_err("expected a lexical error");
    assert_eq!(err.kind, LexErrorKind::UnrecognizedCharacter);
    assert_eq!(err.line, 0);

    let err = scan("int / x").expect_err("expected a lexical error");
    assert_eq!(err.kind, LexErrorKind::UnrecognizedCharacter);
}

#[test]
fn scanning_twice_is_deterministic() {
    let first = scan("int main(void) { return 42;}").expect("scan failed");
    let second = scan("int main(void) { return 42;}").expect("scan failed");
    assert_eq!(first, second);
}

#[test]
fn match_keyword_classifies_exactly() {
    let scanner = Tokenizer::new("");
    assert_eq!(scanner.match_keyword("int"), TokenType::IntKeyword);
    assert_eq!(scanner.match_keyword("void"), TokenType::VoidKeyword);
    assert_eq!(scanner.match_keyword("return"), TokenType::ReturnKeyword);
    assert_eq!(
        scanner.match_keyword("Int"),
        TokenType::Identifier("Int".to_string())
    );
    assert_eq!(
        scanner.match_keyword("returning"),
        TokenType::Identifier("returning".to_string())
    );
    assert_eq!(
        scanner.match_keyword("voidx"),
        TokenType::Identifier("voidx".to_string())
    );
}

#[test]
fn line_counter_tracks_newlines() {
    let mut scanner = Tokenizer::new("int\nvoid\nreturn\n");
    let tokens = scanner.scan_source().expect("scan failed");
    assert_eq!(tokens.len(), 3);
    assert_eq!(scanner.line, 3);
}

#[test]
fn line_counter_reaches_one_before_token_after_comment() {
    let mut scanner = Tokenizer::new("// a comment\nint x;");
    let tokens = scanner.scan_source().expect("scan failed");
    assert_eq!(tokens[0], TokenType::IntKeyword);
    assert_eq!(scanner.line, 1);
}

#[test]
fn zero_constant() {
    let tokens = scan("0").expect("scan failed");
    assert_eq!(tokens, vec![TokenType::Constant(0)]);
}
