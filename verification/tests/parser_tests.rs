use lox_syntax::domain::{Expr, KeywordType, ParserError, TokenType, AST};
use lox_syntax::lexer::tokenize_code;
use lox_syntax::parser::parse;

fn parse_tokens(code: String) -> Result<AST, ParserError> {
    let tokens = tokenize_code(code);
    println!("{:?}", tokens);
    parse(tokens)
}

#[test]
fn test_base_code_parser() {
    // given:
    let code = "2 + 2";

    // when:
    let ast_result = parse_tokens(code.to_string());

    // then:
    assert!(ast_result.is_ok());
    println!("{:?}", ast_result);

    let ast = ast_result.unwrap();

    match ast.expr {
        Expr::Binary(left, token, right) => {
            assert_eq!(TokenType::PLUS, token._type);

            match *left {
                Expr::Literal(val, _) => assert_eq!("2.0", val),
                _ => assert!(false, "invalid type left"),
            }

            match *right {
                Expr::Literal(val, _) => assert_eq!("2.0", val),
                _ => assert!(false, "invalid type right"),
            }
        }
        _ => assert!(false, "invalid type main"),
    }
}

#[test]
fn test_true_parser() {
    // given:
    let code = "true";

    // when:
    let ast_result = parse_tokens(code.to_string());

    // then:
    println!("{:?}", ast_result);
    assert!(ast_result.is_ok());

    let ast = ast_result.unwrap();

    match ast.expr {
        Expr::Literal(val, token) => {
            assert_eq!(TokenType::KEYWORD(KeywordType::TRUE), token._type);
            assert_eq!("true", val);
        }
        _ => assert!(false, "invalid type main"),
    }
}

#[test]
fn test_false_parser() {
    let ast = parse_tokens("false".to_string()).unwrap();
    match ast.expr {
        Expr::Literal(val, token) => {
            assert_eq!(TokenType::KEYWORD(KeywordType::FALSE), token._type);
            assert_eq!("false", val);
        }
        _ => assert!(false, "invalid type main"),
    }
}

#[test]
fn test_nil_renders_null() {
    let ast = parse_tokens("nil".to_string()).unwrap();
    match ast.expr {
        Expr::Literal(val, token) => {
            assert_eq!(TokenType::KEYWORD(KeywordType::NIL), token._type);
            assert_eq!("null", val);
        }
        _ => assert!(false, "invalid type main"),
    }
}

#[test]
fn test_string_literal_parser() {
    let ast = parse_tokens("\"hi\"".to_string()).unwrap();
    match ast.expr {
        Expr::Literal(val, token) => {
            assert_eq!(TokenType::STRING, token._type);
            assert_eq!("hi", val);
        }
        _ => assert!(false, "invalid type main"),
    }
}

#[test]
fn test_unary_minus() {
    let ast = parse_tokens("-2".to_string()).unwrap();
    match ast.expr {
        Expr::Unary(token, operand) => {
            assert_eq!(TokenType::MINUS, token._type);
            match *operand {
                Expr::Literal(val, _) => assert_eq!("2.0", val),
                _ => assert!(false, "invalid operand"),
            }
        }
        _ => assert!(false, "invalid type main"),
    }
}

#[test]
fn test_unary_bang_chained() {
    let ast = parse_tokens("!!true".to_string()).unwrap();
    match ast.expr {
        Expr::Unary(token, operand) => {
            assert_eq!(TokenType::BANG, token._type);
            assert!(matches!(*operand, Expr::Unary(_, _)));
        }
        _ => assert!(false, "invalid type main"),
    }
}

#[test]
fn test_comparison_parser() {
    let ast = parse_tokens("1 < 2".to_string()).unwrap();
    match ast.expr {
        Expr::Binary(_, token, _) => assert_eq!(TokenType::LESS, token._type),
        _ => assert!(false, "invalid type main"),
    }
}

#[test]
fn test_factor_parser() {
    let ast = parse_tokens("6 / 3".to_string()).unwrap();
    match ast.expr {
        Expr::Binary(left, token, right) => {
            assert_eq!(TokenType::SLASH, token._type);
            match *left {
                Expr::Literal(val, _) => assert_eq!("6.0", val),
                _ => assert!(false, "invalid type left"),
            }
            match *right {
                Expr::Literal(val, _) => assert_eq!("3.0", val),
                _ => assert!(false, "invalid type right"),
            }
        }
        _ => assert!(false, "invalid type main"),
    }
}

#[test]
fn test_grouping_parser() {
    let ast = parse_tokens("(2 + 2)".to_string()).unwrap();
    match ast.expr {
        Expr::Grouping(inner) => match *inner {
            Expr::Binary(_, token, _) => assert_eq!(TokenType::PLUS, token._type),
            _ => assert!(false, "invalid inner"),
        },
        _ => assert!(false, "invalid type main"),
    }
}

#[test]
fn test_grouping_missing_close() {
    let result = parse_tokens("(2".to_string());
    match result {
        Err(ParserError::Default(message, token, code)) => {
            assert_eq!("Expect ')' after expression.", message);
            assert_eq!(TokenType::EOF, token._type);
            assert_eq!(65, code);
        }
        _ => assert!(false, "expected a parse fault"),
    }
}

#[test]
fn test_token_not_supported() {
    let result = parse_tokens(")".to_string());
    match result {
        Err(ParserError::Default(message, token, code)) => {
            assert_eq!("token not supported", message);
            assert_eq!(TokenType::RIGHT_PAREN, token._type);
            assert_eq!(65, code);
        }
        _ => assert!(false, "expected a parse fault"),
    }
}

#[test]
fn test_keyword_not_a_literal() {
    // keywords other than false, true and nil start no primary expression
    let result = parse_tokens("while".to_string());
    match result {
        Err(ParserError::Default(message, token, code)) => {
            assert_eq!("token not supported", message);
            assert_eq!(TokenType::KEYWORD(KeywordType::WHILE), token._type);
            assert_eq!(65, code);
        }
        _ => assert!(false, "expected a parse fault"),
    }
}

#[test]
fn test_identifier_not_a_literal() {
    // identifiers start no primary expression
    let result = parse_tokens("foo".to_string());
    match result {
        Err(ParserError::Default(message, token, code)) => {
            assert_eq!("token not supported", message);
            assert_eq!(TokenType::IDENTIFIER, token._type);
            assert_eq!(65, code);
        }
        _ => assert!(false, "expected a parse fault"),
    }
}

#[test]
fn test_identifier_comparison_not_supported() {
    // an identifier as the left operand of == starts no primary expression
    let result = parse_tokens("BANG_EQUAL == null".to_string());
    match result {
        Err(ParserError::Default(message, token, code)) => {
            assert_eq!("token not supported", message);
            assert_eq!(TokenType::IDENTIFIER, token._type);
            assert_eq!("BANG_EQUAL", token._string);
            assert_eq!(65, code);
        }
        _ => assert!(false, "expected a parse fault"),
    }
}

#[test]
fn test_identifier_inequality_not_supported() {
    // the same fault for != as for ==
    let result = parse_tokens("BANG_EQUAL != null".to_string());
    match result {
        Err(ParserError::Default(message, token, code)) => {
            assert_eq!("token not supported", message);
            assert_eq!(TokenType::IDENTIFIER, token._type);
            assert_eq!("BANG_EQUAL", token._string);
            assert_eq!(65, code);
        }
        _ => assert!(false, "expected a parse fault"),
    }
}

#[test]
fn test_empty_input_parse_fault() {
    let result = parse_tokens(String::new());
    match result {
        Err(ParserError::Default(message, token, code)) => {
            assert_eq!("token not supported", message);
            assert_eq!(TokenType::EOF, token._type);
            assert_eq!(65, code);
        }
        _ => assert!(false, "expected a parse fault"),
    }
}

#[test]
fn test_parse_deterministic() {
    let code = "-(1 + 2) * 3";
    let first = parse_tokens(code.to_string()).unwrap();
    let second = parse_tokens(code.to_string()).unwrap();
    assert_eq!(format!("{:?}", first), format!("{:?}", second));
    assert_eq!(first.expr.render(), second.expr.render());
}

#[test]
fn test_expr_render() {
    let ast = parse_tokens("2 + 2".to_string()).unwrap();
    assert_eq!("2.0 PLUS + null 2.0", ast.expr.render());
}

#[test]
fn test_grouping_render_is_lossy() {
    // a grouping renders as its inner expression with no delimiters
    let ast = parse_tokens("(7)".to_string()).unwrap();
    assert_eq!("7.0", ast.expr.render());
}
