//! The data model shared by the scanner and the parser: tokens, token
//! sequences, expression trees, diagnostics and parse errors, together with
//! the mathematical views (`Spec*` types) that the contracts speak about.

use vstd::prelude::*;

verus! {

/// The closed set of token kinds.
#[allow(non_camel_case_types)]
#[derive(Debug, Clone, Copy, PartialEq, Eq, Structural)]
pub enum TokenType {
    EOF,
    LEFT_PAREN,
    RIGHT_PAREN,
    LEFT_BRACE,
    RIGHT_BRACE,
    COMMA,
    DOT,
    MINUS,
    PLUS,
    SEMICOLON,
    STAR,
    EQUAL,
    EQUAL_EQUAL,
    BANG,
    BANG_EQUAL,
    LESS,
    GREATER,
    LESS_EQUAL,
    GREATER_EQUAL,
    SLASH,
    STRING,
    NUMBER,
    IDENTIFIER,
    KEYWORD(KeywordType),
}

/// The sixteen reserved words of the language.
#[allow(non_camel_case_types)]
#[derive(Debug, Clone, Copy, PartialEq, Eq, Structural)]
pub enum KeywordType {
    AND,
    CLASS,
    ELSE,
    FALSE,
    FOR,
    FUN,
    IF,
    NIL,
    OR,
    PRINT,
    RETURN,
    SUPER,
    THIS,
    TRUE,
    VAR,
    WHILE,
}

/// One lexical unit: a kind, the exact source substring it was scanned from,
/// an optional normalized value (strings and numbers only), and its 1-based
/// source position.
#[derive(Debug, PartialEq)]
pub struct Token {
    pub _type: TokenType,
    pub _string: String,
    pub _value: Option<String>,
    pub _line: i32,
    pub _column_from: i32,
    pub _column_to: i32,
}

/// The mathematical view of a [`Token`].
pub struct SpecToken {
    pub kind: TokenType,
    pub lexeme: Seq<char>,
    pub value: Option<Seq<char>>,
    pub line: int,
    pub column_from: int,
    pub column_to: int,
}

impl View for Token {
    type V = SpecToken;

    open spec fn view(&self) -> SpecToken {
        SpecToken {
            kind: self._type,
            lexeme: self._string@,
            value: match self._value {
                Some(v) => Some(v@),
                None => None,
            },
            line: self._line as int,
            column_from: self._column_from as int,
            column_to: self._column_to as int,
        }
    }
}

impl Clone for Token {
    fn clone(&self) -> (r: Self)
        ensures
            r@ == self@,
    {
        Token {
            _type: self._type,
            _string: self._string.clone(),
            _value: match &self._value {
                Some(v) => Some(v.clone()),
                None => None,
            },
            _line: self._line,
            _column_from: self._column_from,
            _column_to: self._column_to,
        }
    }
}

/// Relies on `String::from(char)`: the returned string holds exactly the one
/// given character.
#[verifier::external_body]
fn char_to_string(c: char) -> (r: String)
    ensures
        r@ == seq![c],
{
    String::from(c)
}

impl Token {
    /// A token scanned from a single source character: its lexeme is that one
    /// character, it has no value, and it starts and ends at the same column.
    pub fn new_char(_type: TokenType, _char: char, _line: i32, _column: i32) -> (r: Self)
        ensures
            r@ == (SpecToken {
                kind: _type,
                lexeme: seq![_char],
                value: None,
                line: _line as int,
                column_from: _column as int,
                column_to: _column as int,
            }),
    {
        Token {
            _type,
            _value: None,
            _string: char_to_string(_char),
            _line,
            _column_from: _column,
            _column_to: _column,
        }
    }

    /// A token that carries a normalized value beside its lexeme (strings and
    /// numbers).
    pub fn new_content(
        _type: TokenType,
        _string: String,
        _value: String,
        _line: i32,
        _column_from: i32,
        _column_to: i32,
    ) -> (r: Self)
        ensures
            r@ == (SpecToken {
                kind: _type,
                lexeme: _string@,
                value: Some(_value@),
                line: _line as int,
                column_from: _column_from as int,
                column_to: _column_to as int,
            }),
    {
        Token { _type, _string, _value: Some(_value), _line, _column_from, _column_to }
    }

    /// Renders the token on one line: kind name, lexeme and value (or
    /// `null`), separated by single spaces.
    pub fn render(&self) -> (r: String)
        ensures
            r@ == token_render(self@),
    {
        let mut out = String::new();
        out.append(self._type.to_string());
        out.append(" ");
        out.append(self._string.as_str());
        out.append(" ");
        match &self._value {
            Some(v) => out.append(v.as_str()),
            None => out.append("null"),
        }
        proof {
            reveal_strlit(" ");
            assert(" "@ =~= seq![' ']);
            assert(out@ =~= token_render(self@));
        }
        out
    }

    /// A token with a multi-character lexeme and no value.
    pub fn new(
        _type: TokenType,
        _string: String,
        _line: i32,
        _column_from: i32,
        _column_to: i32,
    ) -> (r: Self)
        ensures
            r@ == (SpecToken {
                kind: _type,
                lexeme: _string@,
                value: None,
                line: _line as int,
                column_from: _column_from as int,
                column_to: _column_to as int,
            }),
    {
        Token { _type, _string, _value: None, _line, _column_from, _column_to }
    }
}

/// The views of a sequence of tokens, element by element.
pub open spec fn views_of_tokens(ts: Seq<Token>) -> Seq<SpecToken> {
    ts.map_values(|t: Token| t@)
}

/// The display name of a keyword kind.
pub open spec fn keyword_name(k: KeywordType) -> Seq<char> {
    match k {
        KeywordType::AND => "AND"@,
        KeywordType::CLASS => "CLASS"@,
        KeywordType::ELSE => "ELSE"@,
        KeywordType::FALSE => "FALSE"@,
        KeywordType::FOR => "FOR"@,
        KeywordType::FUN => "FUN"@,
        KeywordType::IF => "IF"@,
        KeywordType::NIL => "NIL"@,
        KeywordType::OR => "OR"@,
        KeywordType::PRINT => "PRINT"@,
        KeywordType::RETURN => "RETURN"@,
        KeywordType::SUPER => "SUPER"@,
        KeywordType::THIS => "THIS"@,
        KeywordType::TRUE => "TRUE"@,
        KeywordType::VAR => "VAR"@,
        KeywordType::WHILE => "WHILE"@,
    }
}

/// The display name of a token kind; a keyword token shows its keyword's
/// name.
pub open spec fn token_type_name(t: TokenType) -> Seq<char> {
    match t {
        TokenType::EOF => "EOF"@,
        TokenType::LEFT_PAREN => "LEFT_PAREN"@,
        TokenType::RIGHT_PAREN => "RIGHT_PAREN"@,
        TokenType::LEFT_BRACE => "LEFT_BRACE"@,
        TokenType::RIGHT_BRACE => "RIGHT_BRACE"@,
        TokenType::COMMA => "COMMA"@,
        TokenType::DOT => "DOT"@,
        TokenType::MINUS => "MINUS"@,
        TokenType::PLUS => "PLUS"@,
        TokenType::SEMICOLON => "SEMICOLON"@,
        TokenType::STAR => "STAR"@,
        TokenType::EQUAL => "EQUAL"@,
        TokenType::EQUAL_EQUAL => "EQUAL_EQUAL"@,
        TokenType::BANG => "BANG"@,
        TokenType::BANG_EQUAL => "BANG_EQUAL"@,
        TokenType::LESS => "LESS"@,
        TokenType::GREATER => "GREATER"@,
        TokenType::LESS_EQUAL => "LESS_EQUAL"@,
        TokenType::GREATER_EQUAL => "GREATER_EQUAL"@,
        TokenType::SLASH => "SLASH"@,
        TokenType::STRING => "STRING"@,
        TokenType::NUMBER => "NUMBER"@,
        TokenType::IDENTIFIER => "IDENTIFIER"@,
        TokenType::KEYWORD(kw) => keyword_name(kw),
    }
}

impl KeywordType {
    /// The keyword's display name.
    pub fn to_string(&self) -> (r: &'static str)
        ensures
            r@ == keyword_name(*self),
    {
        match self {
            KeywordType::AND => "AND",
            KeywordType::CLASS => "CLASS",
            KeywordType::ELSE => "ELSE",
            KeywordType::FALSE => "FALSE",
            KeywordType::FOR => "FOR",
            KeywordType::FUN => "FUN",
            KeywordType::IF => "IF",
            KeywordType::NIL => "NIL",
            KeywordType::OR => "OR",
            KeywordType::PRINT => "PRINT",
            KeywordType::RETURN => "RETURN",
            KeywordType::SUPER => "SUPER",
            KeywordType::THIS => "THIS",
            KeywordType::TRUE => "TRUE",
            KeywordType::VAR => "VAR",
            KeywordType::WHILE => "WHILE",
        }
    }
}

impl TokenType {
    /// The token kind's display name.
    pub fn to_string(&self) -> (r: &'static str)
        ensures
            r@ == token_type_name(*self),
    {
        match self {
            TokenType::EOF => "EOF",
            TokenType::LEFT_PAREN => "LEFT_PAREN",
            TokenType::RIGHT_PAREN => "RIGHT_PAREN",
            TokenType::LEFT_BRACE => "LEFT_BRACE",
            TokenType::RIGHT_BRACE => "RIGHT_BRACE",
            TokenType::COMMA => "COMMA",
            TokenType::DOT => "DOT",
            TokenType::MINUS => "MINUS",
            TokenType::PLUS => "PLUS",
            TokenType::SEMICOLON => "SEMICOLON",
            TokenType::STAR => "STAR",
            TokenType::EQUAL => "EQUAL",
            TokenType::EQUAL_EQUAL => "EQUAL_EQUAL",
            TokenType::BANG => "BANG",
            TokenType::BANG_EQUAL => "BANG_EQUAL",
            TokenType::LESS => "LESS",
            TokenType::GREATER => "GREATER",
            TokenType::LESS_EQUAL => "LESS_EQUAL",
            TokenType::GREATER_EQUAL => "GREATER_EQUAL",
            TokenType::SLASH => "SLASH",
            TokenType::STRING => "STRING",
            TokenType::NUMBER => "NUMBER",
            TokenType::IDENTIFIER => "IDENTIFIER",
            TokenType::KEYWORD(kw) => kw.to_string(),
        }
    }
}

/// The one-line rendering of a token: its kind's name, its lexeme and its
/// value (or `null` where it has none), separated by single spaces.
pub open spec fn token_render(t: SpecToken) -> Seq<char> {
    token_type_name(t.kind) + seq![' '] + t.lexeme + seq![' '] + (match t.value {
        Some(v) => v,
        None => "null"@,
    })
}

/// A lexical fault found while scanning. Faults do not stop the scanner; they
/// are gathered here, in source order, for the caller to report.
#[derive(Debug, Clone, Copy, PartialEq, Eq, Structural)]
pub enum Diagnostic {
    /// A character that starts no token. The character is skipped.
    UnexpectedCharacter { line: i32, ch: char },
    /// The input ended inside a string literal. No token is produced.
    UnterminatedString { line: i32 },
}

/// The mathematical view of a [`Diagnostic`].
pub enum SpecDiagnostic {
    UnexpectedCharacter { line: int, ch: char },
    UnterminatedString { line: int },
}

impl View for Diagnostic {
    type V = SpecDiagnostic;

    open spec fn view(&self) -> SpecDiagnostic {
        match *self {
            Diagnostic::UnexpectedCharacter { line, ch } => SpecDiagnostic::UnexpectedCharacter {
                line: line as int,
                ch,
            },
            Diagnostic::UnterminatedString { line } => SpecDiagnostic::UnterminatedString {
                line: line as int,
            },
        }
    }
}

/// The views of a sequence of diagnostics, element by element.
pub open spec fn views_of_diagnostics(ds: Seq<Diagnostic>) -> Seq<SpecDiagnostic> {
    ds.map_values(|d: Diagnostic| d@)
}

/// The scanner's result: every token in source order, ending with exactly one
/// EOF token; the status code (0 on success, 65 after any lexical fault); and
/// the diagnostics for the faults, in source order.
#[derive(Debug)]
pub struct Tokens {
    pub code: u8,
    pub tokens: Vec<Token>,
    pub diagnostics: Vec<Diagnostic>,
}

/// The mathematical view of a [`Tokens`].
pub struct SpecTokens {
    pub code: int,
    pub tokens: Seq<SpecToken>,
    pub diagnostics: Seq<SpecDiagnostic>,
}

impl View for Tokens {
    type V = SpecTokens;

    open spec fn view(&self) -> SpecTokens {
        SpecTokens {
            code: self.code as int,
            tokens: views_of_tokens(self.tokens@),
            diagnostics: views_of_diagnostics(self.diagnostics@),
        }
    }
}

/// One parsed expression. Each node owns its children outright: the tree has
/// no sharing and no cycles.
#[derive(Debug)]
pub enum Expr {
    /// A prefix operator applied to an operand.
    Unary(Token, Box<Expr>),
    /// An infix operator applied to two operands.
    Binary(Box<Expr>, Token, Box<Expr>),
    /// A pre-rendered literal value together with the token it came from.
    Literal(String, Token),
    /// A parenthesized subexpression.
    Grouping(Box<Expr>),
}

/// The mathematical view of an [`Expr`].
pub enum SpecExpr {
    Unary(SpecToken, Box<SpecExpr>),
    Binary(Box<SpecExpr>, SpecToken, Box<SpecExpr>),
    Literal(Seq<char>, SpecToken),
    Grouping(Box<SpecExpr>),
}

/// The view of an expression tree, node by node.
pub open spec fn expr_view(e: Expr) -> SpecExpr
    decreases e,
{
    match e {
        Expr::Unary(op, operand) => SpecExpr::Unary(op@, Box::new(expr_view(*operand))),
        Expr::Binary(left, op, right) => SpecExpr::Binary(
            Box::new(expr_view(*left)),
            op@,
            Box::new(expr_view(*right)),
        ),
        Expr::Literal(text, token) => SpecExpr::Literal(text@, token@),
        Expr::Grouping(inner) => SpecExpr::Grouping(Box::new(expr_view(*inner))),
    }
}

impl View for Expr {
    type V = SpecExpr;

    open spec fn view(&self) -> SpecExpr {
        expr_view(*self)
    }
}

/// The rendering of an expression: operands and operators left to right with
/// single spaces, an operator as its token's full rendering, a literal as its
/// text, and a grouping as its inner expression with no surrounding
/// delimiters.
pub open spec fn expr_render(e: SpecExpr) -> Seq<char>
    decreases e,
{
    match e {
        SpecExpr::Unary(op, operand) => token_render(op) + seq![' '] + expr_render(*operand),
        SpecExpr::Binary(left, op, right) => expr_render(*left) + seq![' '] + token_render(op)
            + seq![' '] + expr_render(*right),
        SpecExpr::Literal(text, _) => text,
        SpecExpr::Grouping(inner) => expr_render(*inner),
    }
}

impl Expr {
    /// Renders the expression left to right with single spaces. A grouping
    /// renders as its inner expression with no surrounding delimiters, so the
    /// printed form is lossy: nesting is not recoverable from it, and
    /// re-parsing a rendered expression is not guaranteed to rebuild the same
    /// tree.
    pub fn render(&self) -> (r: String)
        ensures
            r@ == expr_render(self@),
        decreases self,
    {
        match self {
            Expr::Unary(token, right) => {
                let mut out = token.render();
                out.append(" ");
                let rendered_right = right.render();
                out.append(rendered_right.as_str());
                proof {
                    reveal_strlit(" ");
                    assert(" "@ =~= seq![' ']);
                    assert(out@ =~= expr_render(self@));
                }
                out
            },
            Expr::Binary(left, token, right) => {
                let mut out = left.render();
                out.append(" ");
                let rendered_op = token.render();
                out.append(rendered_op.as_str());
                out.append(" ");
                let rendered_right = right.render();
                out.append(rendered_right.as_str());
                proof {
                    reveal_strlit(" ");
                    assert(" "@ =~= seq![' ']);
                    assert(out@ =~= expr_render(self@));
                }
                out
            },
            Expr::Literal(literal, _) => literal.clone(),
            Expr::Grouping(inner) => inner.render(),
        }
    }
}

/// The parse result: a single root expression.
#[derive(Debug)]
pub struct AST {
    pub expr: Expr,
}

impl View for AST {
    type V = SpecExpr;

    open spec fn view(&self) -> SpecExpr {
        self.expr@
    }
}

/// A parse fault: a human-readable message, the offending token by value, and
/// an exit-style status code.
#[derive(Debug, Clone)]
pub enum ParserError {
    Default(String, Token, u8),
}

/// The mathematical view of a [`ParserError`].
pub enum SpecParserError {
    Default(Seq<char>, SpecToken, int),
}

impl View for ParserError {
    type V = SpecParserError;

    open spec fn view(&self) -> SpecParserError {
        match self {
            ParserError::Default(msg, token, code) => SpecParserError::Default(
                msg@,
                token@,
                *code as int,
            ),
        }
    }
}

} // verus!
