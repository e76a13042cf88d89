use lox_syntax::domain::{Diagnostic, KeywordType, Token, TokenType, Tokens};
use lox_syntax::lexer::tokenize_code;

fn generate_tokens(code: String) -> Tokens {
    tokenize_code(code)
}

fn check_tokens(tokens: Vec<Token>, expected: Vec<(TokenType, &str)>) {
    for (index, expected_token) in expected.into_iter().enumerate() {
        let token = tokens.get(index);
        assert!(token.is_some());
        assert_eq!(expected_token.0, token.unwrap()._type);
        assert_eq!(expected_token.1.to_string(), *token.unwrap()._string)
    }
}

fn check_tokens_val(tokens: Vec<Token>, expected: Vec<(TokenType, &str, Option<&str>)>) {
    for (index, expected_token) in expected.into_iter().enumerate() {
        let token = tokens.get(index);
        assert!(token.is_some());
        assert_eq!(expected_token.0, token.unwrap()._type);
        assert_eq!(expected_token.1.to_string(), *token.unwrap()._string);

        if let Some(val) = expected_token.2 {
            assert_eq!(val.to_string(), token.unwrap().clone()._value.unwrap())
        }
    }
}

#[test]
fn test_base_code_tokens() {
    // given:
    let code = "_123foo bar _6az world_ _hello (=";

    // when:
    let tokens = generate_tokens(code.to_string());

    // then:
    println!("{:?}", tokens.tokens);
    assert_eq!(8, tokens.tokens.len());
    assert_eq!(0, tokens.code);

    check_tokens(
        tokens.tokens,
        Vec::from([
            (TokenType::IDENTIFIER, "_123foo"),
            (TokenType::IDENTIFIER, "bar"),
            (TokenType::IDENTIFIER, "_6az"),
            (TokenType::IDENTIFIER, "world_"),
            (TokenType::IDENTIFIER, "_hello"),
            (TokenType::LEFT_PAREN, "("),
            (TokenType::EQUAL, "="),
            (TokenType::EOF, ""),
        ]),
    )
}

#[test]
fn test_number_and_string_tokens() {
    // given:
    let code = "122 34.4304 333.0000 \"hello\"";

    // when:
    let tokens = generate_tokens(code.to_string());

    // then:
    println!("{:?}", tokens.tokens);
    assert_eq!(5, tokens.tokens.len());
    assert_eq!(0, tokens.code);

    check_tokens_val(
        tokens.tokens,
        Vec::from([
            (TokenType::NUMBER, "122", Some("122.0")),
            (TokenType::NUMBER, "34.4304", Some("34.4304")),
            (TokenType::NUMBER, "333.0000", Some("333.0")),
            (TokenType::STRING, "\"hello\"", Some("hello")),
            (TokenType::EOF, "", None),
        ]),
    )
}

#[test]
fn test_bang_equal_tokens() {
    // given:
    let code = "12 != 13";

    // when:
    let tokens = generate_tokens(code.to_string());

    // then:
    println!("{:?}", tokens.tokens);
    assert_eq!(4, tokens.tokens.len());
    assert_eq!(0, tokens.code);

    check_tokens_val(
        tokens.tokens,
        Vec::from([
            (TokenType::NUMBER, "12", Some("12.0")),
            (TokenType::BANG_EQUAL, "!=", None),
            (TokenType::NUMBER, "13", Some("13.0")),
            (TokenType::EOF, "", None),
        ]),
    )
}

#[test]
fn test_empty_input_ends_with_eof() {
    let tokens = generate_tokens(String::new());
    assert_eq!(1, tokens.tokens.len());
    assert_eq!(0, tokens.code);
    assert_eq!(TokenType::EOF, tokens.tokens[0]._type);
    assert_eq!("", tokens.tokens[0]._string);
    assert!(tokens.tokens[0]._value.is_none());
}

#[test]
fn test_every_input_ends_with_eof() {
    for code in ["", "1 + 2", "\"open", "@", "// only a comment"] {
        let tokens = generate_tokens(code.to_string());
        assert!(tokens.tokens.len() >= 1);
        let last = tokens.tokens.last().unwrap();
        assert_eq!(TokenType::EOF, last._type);
        assert_eq!("", last._string);
    }
}

#[test]
fn test_tokenize_deterministic() {
    let code = "12 != 13 // note\n\"s\" @ _id";
    let first = generate_tokens(code.to_string());
    let second = generate_tokens(code.to_string());
    assert_eq!(first.code, second.code);
    assert_eq!(first.tokens, second.tokens);
    assert_eq!(first.diagnostics, second.diagnostics);
}

#[test]
fn test_unexpected_character_diagnostic() {
    let tokens = generate_tokens("@".to_string());
    assert_eq!(65, tokens.code);
    // the unrecognized character contributes no token
    assert_eq!(1, tokens.tokens.len());
    assert_eq!(TokenType::EOF, tokens.tokens[0]._type);
    assert_eq!(
        vec![Diagnostic::UnexpectedCharacter { line: 1, ch: '@' }],
        tokens.diagnostics
    );
}

#[test]
fn test_unexpected_character_line_number() {
    let tokens = generate_tokens("ok\n@".to_string());
    assert_eq!(65, tokens.code);
    assert_eq!(
        vec![Diagnostic::UnexpectedCharacter { line: 2, ch: '@' }],
        tokens.diagnostics
    );
    // scanning continued past the fault
    assert_eq!(2, tokens.tokens.len());
    assert_eq!(TokenType::IDENTIFIER, tokens.tokens[0]._type);
}

#[test]
fn test_unterminated_string_diagnostic() {
    let tokens = generate_tokens("\"never closed".to_string());
    assert_eq!(65, tokens.code);
    assert_eq!(1, tokens.tokens.len());
    assert_eq!(TokenType::EOF, tokens.tokens[0]._type);
    assert_eq!(
        vec![Diagnostic::UnterminatedString { line: 1 }],
        tokens.diagnostics
    );
}

#[test]
fn test_status_sticky_after_fault() {
    // a fault followed by valid tokens keeps status 65
    let tokens = generate_tokens("@ 12".to_string());
    assert_eq!(65, tokens.code);
    assert_eq!(2, tokens.tokens.len());
    assert_eq!(TokenType::NUMBER, tokens.tokens[0]._type);
    assert_eq!("12.0", tokens.tokens[0].clone()._value.unwrap());
}

#[test]
fn test_single_character_tokens() {
    let tokens = generate_tokens("(){};,.+-*".to_string());
    assert_eq!(0, tokens.code);
    check_tokens(
        tokens.tokens,
        Vec::from([
            (TokenType::LEFT_PAREN, "("),
            (TokenType::RIGHT_PAREN, ")"),
            (TokenType::LEFT_BRACE, "{"),
            (TokenType::RIGHT_BRACE, "}"),
            (TokenType::SEMICOLON, ";"),
            (TokenType::COMMA, ","),
            (TokenType::DOT, "."),
            (TokenType::PLUS, "+"),
            (TokenType::MINUS, "-"),
            (TokenType::STAR, "*"),
            (TokenType::EOF, ""),
        ]),
    )
}

#[test]
fn test_composite_operators() {
    let tokens = generate_tokens("== != <= >= < > = !".to_string());
    assert_eq!(0, tokens.code);
    check_tokens(
        tokens.tokens,
        Vec::from([
            (TokenType::EQUAL_EQUAL, "=="),
            (TokenType::BANG_EQUAL, "!="),
            (TokenType::LESS_EQUAL, "<="),
            (TokenType::GREATER_EQUAL, ">="),
            (TokenType::LESS, "<"),
            (TokenType::GREATER, ">"),
            (TokenType::EQUAL, "="),
            (TokenType::BANG, "!"),
            (TokenType::EOF, ""),
        ]),
    )
}

#[test]
fn test_comment_discards_rest_of_line() {
    let tokens = generate_tokens("1 // 2 + 3\n4".to_string());
    assert_eq!(0, tokens.code);
    check_tokens_val(
        tokens.tokens,
        Vec::from([
            (TokenType::NUMBER, "1", Some("1.0")),
            (TokenType::NUMBER, "4", Some("4.0")),
            (TokenType::EOF, "", None),
        ]),
    )
}

#[test]
fn test_comment_does_not_advance_line() {
    // the line counter grows only at the newline that ends the comment
    let tokens = generate_tokens("//c\n@".to_string());
    assert_eq!(65, tokens.code);
    assert_eq!(
        vec![Diagnostic::UnexpectedCharacter { line: 2, ch: '@' }],
        tokens.diagnostics
    );
}

#[test]
fn test_multiline_string_advances_line() {
    // a newline inside a string literal counts toward the line number
    let tokens = generate_tokens("\"a\nb\" @".to_string());
    assert_eq!(65, tokens.code);
    assert_eq!(TokenType::STRING, tokens.tokens[0]._type);
    assert_eq!(1, tokens.tokens[0]._line);
    assert_eq!("a\nb", tokens.tokens[0].clone()._value.unwrap());
    assert_eq!(
        vec![Diagnostic::UnexpectedCharacter { line: 2, ch: '@' }],
        tokens.diagnostics
    );
}

#[test]
fn test_unterminated_multiline_string_line() {
    // the diagnostic carries the opening quote's line; the EOF token carries
    // the final line counter
    let tokens = generate_tokens("\"a\nb".to_string());
    assert_eq!(65, tokens.code);
    assert_eq!(
        vec![Diagnostic::UnterminatedString { line: 1 }],
        tokens.diagnostics
    );
    assert_eq!(1, tokens.tokens.len());
    assert_eq!(TokenType::EOF, tokens.tokens[0]._type);
    assert_eq!(2, tokens.tokens[0]._line);
}

#[test]
fn test_slash_alone_is_a_token() {
    let tokens = generate_tokens("8/2".to_string());
    assert_eq!(0, tokens.code);
    check_tokens(
        tokens.tokens,
        Vec::from([
            (TokenType::NUMBER, "8"),
            (TokenType::SLASH, "/"),
            (TokenType::NUMBER, "2"),
            (TokenType::EOF, ""),
        ]),
    )
}

#[test]
fn test_number_normalization() {
    let tokens = generate_tokens("122 333.0000 34.4304 0.500 7.0".to_string());
    assert_eq!(0, tokens.code);
    check_tokens_val(
        tokens.tokens,
        Vec::from([
            (TokenType::NUMBER, "122", Some("122.0")),
            (TokenType::NUMBER, "333.0000", Some("333.0")),
            (TokenType::NUMBER, "34.4304", Some("34.4304")),
            (TokenType::NUMBER, "0.500", Some("0.5")),
            (TokenType::NUMBER, "7.0", Some("7.0")),
            (TokenType::EOF, "", None),
        ]),
    )
}

#[test]
fn test_string_keeps_quotes_in_lexeme() {
    let tokens = generate_tokens("\"a b\"".to_string());
    assert_eq!(0, tokens.code);
    assert_eq!(2, tokens.tokens.len());
    assert_eq!(TokenType::STRING, tokens.tokens[0]._type);
    assert_eq!("\"a b\"", tokens.tokens[0]._string);
    assert_eq!("a b", tokens.tokens[0].clone()._value.unwrap());
}

#[test]
fn test_identifier_greediness() {
    // an identifier may start with an underscore and hold digits in the
    // middle; it is not split at the digit
    let tokens = generate_tokens("_6az".to_string());
    assert_eq!(0, tokens.code);
    assert_eq!(2, tokens.tokens.len());
    assert_eq!(TokenType::IDENTIFIER, tokens.tokens[0]._type);
    assert_eq!("_6az", tokens.tokens[0]._string);
}

#[test]
fn test_all_keywords_recognized() {
    let code = "and class else false for fun if nil or print return super this true var while";
    let tokens = generate_tokens(code.to_string());
    assert_eq!(0, tokens.code);
    let expected = [
        KeywordType::AND,
        KeywordType::CLASS,
        KeywordType::ELSE,
        KeywordType::FALSE,
        KeywordType::FOR,
        KeywordType::FUN,
        KeywordType::IF,
        KeywordType::NIL,
        KeywordType::OR,
        KeywordType::PRINT,
        KeywordType::RETURN,
        KeywordType::SUPER,
        KeywordType::THIS,
        KeywordType::TRUE,
        KeywordType::VAR,
        KeywordType::WHILE,
    ];
    assert_eq!(expected.len() + 1, tokens.tokens.len());
    for (index, kw) in expected.into_iter().enumerate() {
        assert_eq!(TokenType::KEYWORD(kw), tokens.tokens[index]._type);
    }
}

#[test]
fn test_keyword_prefix_is_identifier() {
    let tokens = generate_tokens("classy truex".to_string());
    assert_eq!(0, tokens.code);
    assert_eq!(TokenType::IDENTIFIER, tokens.tokens[0]._type);
    assert_eq!(TokenType::IDENTIFIER, tokens.tokens[1]._type);
}

#[test]
fn test_token_render() {
    let tokens = generate_tokens("1 \"x\" foo".to_string());
    assert_eq!("NUMBER 1 1.0", tokens.tokens[0].render());
    assert_eq!("STRING \"x\" x", tokens.tokens[1].render());
    assert_eq!("IDENTIFIER foo null", tokens.tokens[2].render());
    assert_eq!("EOF  null", tokens.tokens[3].render());
}

#[test]
fn test_keyword_token_render() {
    let tokens = generate_tokens("while".to_string());
    assert_eq!("WHILE while null", tokens.tokens[0].render());
    assert_eq!("WHILE", KeywordType::WHILE.to_string());
}
