//! The parser: recursive descent over an immutable token buffer through a
//! forward-only cursor.
//!
//! The grammar, precedence from lowest to highest, each level built on the
//! one below:
//!
//! ```text
//! expression  := equality
//! equality    := comparison ( ( "!=" | "==" ) comparison )?
//! comparison  := term ( ( ">" | ">=" | "<" | "<=" ) term )?
//! term        := factor ( ( "-" | "+" ) factor )?
//! factor      := unary ( ( "/" | "*" ) unary )?
//! unary       := ( "!" | "-" ) unary | primary
//! primary     := "false" | "true" | "nil" | STRING | NUMBER | "(" expression ")"
//! ```
//!
//! Each binary level applies at most one operator occurrence: it is not a
//! repeating loop, so a chain of three operators of equal precedence is not
//! folded the way a conventional left-associative grammar would fold it. This
//! is deliberate and kept as given.
//!
//! The spec functions [`spec_expression`] through [`spec_primary`] define the
//! parse mathematically; the executable functions are proved to return
//! exactly those values. The first fault aborts the whole parse: there is no
//! recovery and no multi-error collection.

use vstd::prelude::*;

use crate::domain::{
    AST, Expr, KeywordType, ParserError, SpecExpr, SpecParserError, SpecToken, Token, TokenType,
    Tokens, views_of_tokens,
};
use crate::lexer::spec_eof_token;

verus! {

/// An operator of the equality level.
pub open spec fn is_equality_op(k: TokenType) -> bool {
    k == TokenType::BANG_EQUAL || k == TokenType::EQUAL_EQUAL
}

/// An operator of the comparison level.
pub open spec fn is_comparison_op(k: TokenType) -> bool {
    k == TokenType::GREATER || k == TokenType::GREATER_EQUAL || k == TokenType::LESS || k
        == TokenType::LESS_EQUAL
}

/// An operator of the term level.
pub open spec fn is_term_op(k: TokenType) -> bool {
    k == TokenType::MINUS || k == TokenType::PLUS
}

/// An operator of the factor level.
pub open spec fn is_factor_op(k: TokenType) -> bool {
    k == TokenType::SLASH || k == TokenType::STAR
}

/// A prefix operator.
pub open spec fn is_unary_op(k: TokenType) -> bool {
    k == TokenType::BANG || k == TokenType::MINUS
}

/// A well-formed token buffer: nonempty and ending with an EOF token, as the
/// scanner always leaves it.
pub open spec fn tokens_wf(toks: Seq<SpecToken>) -> bool {
    toks.len() >= 1 && toks.last().kind == TokenType::EOF
}

/// The token at `pos`, total over every position.
pub open spec fn token_at(toks: Seq<SpecToken>, pos: int) -> SpecToken {
    if 0 <= pos < toks.len() {
        toks[pos]
    } else {
        spec_eof_token(0, 0)
    }
}

/// A parse fault with the fixed exit-style status code.
pub open spec fn parse_error(msg: Seq<char>, t: SpecToken) -> SpecParserError {
    SpecParserError::Default(msg, t, 65)
}

/// A successful parse of one grammar level: the expression it built and the
/// position of the first token it did not consume.
pub struct SpecParsed {
    pub expr: SpecExpr,
    pub next: int,
}

/// The whole expression grammar starts at its lowest-precedence level.
pub open spec fn spec_expression(toks: Seq<SpecToken>, pos: int) -> Result<
    SpecParsed,
    SpecParserError,
>
    decreases toks.len() - pos, 6int,
{
    spec_equality(toks, pos)
}

/// At most one `!=` or `==` between two comparisons.
pub open spec fn spec_equality(toks: Seq<SpecToken>, pos: int) -> Result<
    SpecParsed,
    SpecParserError,
>
    decreases toks.len() - pos, 5int,
{
    match spec_comparison(toks, pos) {
        Err(e) => Err(e),
        Ok(left) => if pos <= left.next && left.next < toks.len() && is_equality_op(
            toks[left.next].kind,
        ) {
            match spec_comparison(toks, left.next + 1) {
                Err(e) => Err(e),
                Ok(right) => Ok(
                    SpecParsed {
                        expr: SpecExpr::Binary(
                            Box::new(left.expr),
                            toks[left.next],
                            Box::new(right.expr),
                        ),
                        next: right.next,
                    },
                ),
            }
        } else {
            Ok(left)
        },
    }
}

/// At most one `>`, `>=`, `<` or `<=` between two terms.
pub open spec fn spec_comparison(toks: Seq<SpecToken>, pos: int) -> Result<
    SpecParsed,
    SpecParserError,
>
    decreases toks.len() - pos, 4int,
{
    match spec_term(toks, pos) {
        Err(e) => Err(e),
        Ok(left) => if pos <= left.next && left.next < toks.len() && is_comparison_op(
            toks[left.next].kind,
        ) {
            match spec_term(toks, left.next + 1) {
                Err(e) => Err(e),
                Ok(right) => Ok(
                    SpecParsed {
                        expr: SpecExpr::Binary(
                            Box::new(left.expr),
                            toks[left.next],
                            Box::new(right.expr),
                        ),
                        next: right.next,
                    },
                ),
            }
        } else {
            Ok(left)
        },
    }
}

/// At most one `-` or `+` between two factors.
pub open spec fn spec_term(toks: Seq<SpecToken>, pos: int) -> Result<SpecParsed, SpecParserError>
    decreases toks.len() - pos, 3int,
{
    match spec_factor(toks, pos) {
        Err(e) => Err(e),
        Ok(left) => if pos <= left.next && left.next < toks.len() && is_term_op(
            toks[left.next].kind,
        ) {
            match spec_factor(toks, left.next + 1) {
                Err(e) => Err(e),
                Ok(right) => Ok(
                    SpecParsed {
                        expr: SpecExpr::Binary(
                            Box::new(left.expr),
                            toks[left.next],
                            Box::new(right.expr),
                        ),
                        next: right.next,
                    },
                ),
            }
        } else {
            Ok(left)
        },
    }
}

/// At most one `/` or `*` between two unary expressions.
pub open spec fn spec_factor(toks: Seq<SpecToken>, pos: int) -> Result<SpecParsed, SpecParserError>
    decreases toks.len() - pos, 2int,
{
    match spec_unary(toks, pos) {
        Err(e) => Err(e),
        Ok(left) => if pos <= left.next && left.next < toks.len() && is_factor_op(
            toks[left.next].kind,
        ) {
            match spec_unary(toks, left.next + 1) {
                Err(e) => Err(e),
                Ok(right) => Ok(
                    SpecParsed {
                        expr: SpecExpr::Binary(
                            Box::new(left.expr),
                            toks[left.next],
                            Box::new(right.expr),
                        ),
                        next: right.next,
                    },
                ),
            }
        } else {
            Ok(left)
        },
    }
}

/// A chain of prefix `!` or `-` operators, then a primary expression.
pub open spec fn spec_unary(toks: Seq<SpecToken>, pos: int) -> Result<SpecParsed, SpecParserError>
    decreases toks.len() - pos, 1int,
{
    if 0 <= pos < toks.len() && is_unary_op(toks[pos].kind) {
        match spec_unary(toks, pos + 1) {
            Err(e) => Err(e),
            Ok(operand) => Ok(
                SpecParsed {
                    expr: SpecExpr::Unary(toks[pos], Box::new(operand.expr)),
                    next: operand.next,
                },
            ),
        }
    } else {
        spec_primary(toks, pos)
    }
}

/// The highest-precedence level: `false`, `true` and `nil` keyword tokens
/// become literals with fixed text (`nil` renders as `null`); STRING and
/// NUMBER tokens become literals carrying their normalized value; a left
/// parenthesis opens a nested expression that a right parenthesis must close.
/// Any other token is a parse fault carrying that token.
pub open spec fn spec_primary(toks: Seq<SpecToken>, pos: int) -> Result<SpecParsed, SpecParserError>
    decreases toks.len() - pos, 0int,
{
    if !(0 <= pos < toks.len()) {
        Err(parse_error("token not supported"@, token_at(toks, pos)))
    } else {
        let t = toks[pos];
        if t.kind == TokenType::KEYWORD(KeywordType::FALSE) {
            Ok(SpecParsed { expr: SpecExpr::Literal("false"@, t), next: pos + 1 })
        } else if t.kind == TokenType::KEYWORD(KeywordType::TRUE) {
            Ok(SpecParsed { expr: SpecExpr::Literal("true"@, t), next: pos + 1 })
        } else if t.kind == TokenType::KEYWORD(KeywordType::NIL) {
            Ok(SpecParsed { expr: SpecExpr::Literal("null"@, t), next: pos + 1 })
        } else if t.kind == TokenType::STRING || t.kind == TokenType::NUMBER {
            match t.value {
                Some(v) => Ok(SpecParsed { expr: SpecExpr::Literal(v, t), next: pos + 1 }),
                None => Err(
                    parse_error(
                        if t.kind == TokenType::STRING {
                            "string invalid"@
                        } else {
                            "number invalid"@
                        },
                        t,
                    ),
                ),
            }
        } else if t.kind == TokenType::LEFT_PAREN {
            match spec_expression(toks, pos + 1) {
                Err(e) => Err(e),
                Ok(inner) => if 0 <= inner.next && inner.next < toks.len() && toks[
                    inner.next
                ].kind == TokenType::RIGHT_PAREN {
                    Ok(
                        SpecParsed {
                            expr: SpecExpr::Grouping(Box::new(inner.expr)),
                            next: inner.next + 1,
                        },
                    )
                } else {
                    Err(parse_error("Expect ')' after expression."@, token_at(toks, inner.next)))
                },
            }
        } else {
            Err(parse_error("token not supported"@, t))
        }
    }
}

/// The parse of a whole token sequence: the expression of the lowest grammar
/// level, started at the first token. Tokens after the parsed expression are
/// left unread.
pub open spec fn spec_parse(toks: Seq<SpecToken>) -> Result<SpecExpr, SpecParserError> {
    match spec_expression(toks, 0) {
        Ok(r) => Ok(r.expr),
        Err(e) => Err(e),
    }
}

proof fn lemma_primary_bounds(toks: Seq<SpecToken>, pos: int)
    requires
        tokens_wf(toks),
    ensures
        spec_primary(toks, pos) matches Ok(r) ==> pos < r.next < toks.len(),
    decreases toks.len() - pos, 0int,
{
    if 0 <= pos < toks.len() {
        assert(toks[toks.len() - 1].kind == TokenType::EOF);
        let t = toks[pos];
        if t.kind == TokenType::LEFT_PAREN {
            lemma_expression_bounds(toks, pos + 1);
        }
    }
}

proof fn lemma_unary_bounds(toks: Seq<SpecToken>, pos: int)
    requires
        tokens_wf(toks),
    ensures
        spec_unary(toks, pos) matches Ok(r) ==> pos < r.next < toks.len(),
    decreases toks.len() - pos, 1int,
{
    if 0 <= pos < toks.len() && is_unary_op(toks[pos].kind) {
        lemma_unary_bounds(toks, pos + 1);
    } else {
        lemma_primary_bounds(toks, pos);
    }
}

proof fn lemma_factor_bounds(toks: Seq<SpecToken>, pos: int)
    requires
        tokens_wf(toks),
    ensures
        spec_factor(toks, pos) matches Ok(r) ==> pos < r.next < toks.len(),
    decreases toks.len() - pos, 2int,
{
    lemma_unary_bounds(toks, pos);
    match spec_unary(toks, pos) {
        Ok(left) => {
            if pos <= left.next && left.next < toks.len() && is_factor_op(toks[left.next].kind) {
                lemma_unary_bounds(toks, left.next + 1);
            }
        },
        Err(_) => {},
    }
}

proof fn lemma_term_bounds(toks: Seq<SpecToken>, pos: int)
    requires
        tokens_wf(toks),
    ensures
        spec_term(toks, pos) matches Ok(r) ==> pos < r.next < toks.len(),
    decreases toks.len() - pos, 3int,
{
    lemma_factor_bounds(toks, pos);
    match spec_factor(toks, pos) {
        Ok(left) => {
            if pos <= left.next && left.next < toks.len() && is_term_op(toks[left.next].kind) {
                lemma_factor_bounds(toks, left.next + 1);
            }
        },
        Err(_) => {},
    }
}

proof fn lemma_comparison_bounds(toks: Seq<SpecToken>, pos: int)
    requires
        tokens_wf(toks),
    ensures
        spec_comparison(toks, pos) matches Ok(r) ==> pos < r.next < toks.len(),
    decreases toks.len() - pos, 4int,
{
    lemma_term_bounds(toks, pos);
    match spec_term(toks, pos) {
        Ok(left) => {
            if pos <= left.next && left.next < toks.len() && is_comparison_op(toks[left.next].kind) {
                lemma_term_bounds(toks, left.next + 1);
            }
        },
        Err(_) => {},
    }
}

proof fn lemma_equality_bounds(toks: Seq<SpecToken>, pos: int)
    requires
        tokens_wf(toks),
    ensures
        spec_equality(toks, pos) matches Ok(r) ==> pos < r.next < toks.len(),
    decreases toks.len() - pos, 5int,
{
    lemma_comparison_bounds(toks, pos);
    match spec_comparison(toks, pos) {
        Ok(left) => {
            if pos <= left.next && left.next < toks.len() && is_equality_op(toks[left.next].kind) {
                lemma_comparison_bounds(toks, left.next + 1);
            }
        },
        Err(_) => {},
    }
}

proof fn lemma_expression_bounds(toks: Seq<SpecToken>, pos: int)
    requires
        tokens_wf(toks),
    ensures
        spec_expression(toks, pos) matches Ok(r) ==> pos < r.next < toks.len(),
    decreases toks.len() - pos, 6int,
{
    lemma_equality_bounds(toks, pos);
}

/// How an executable parsing step relates to its spec counterpart: on spec
/// success the built expression and the new cursor position match; on spec
/// failure the returned error matches.
pub open spec fn parse_outcome_matches(
    sr: Result<SpecParsed, SpecParserError>,
    r: Result<Expr, ParserError>,
    newpos: int,
) -> bool {
    match sr {
        Ok(sp) => match r {
            Ok(e) => e@ == sp.expr && newpos == sp.next,
            Err(_) => false,
        },
        Err(se) => match r {
            Ok(_) => false,
            Err(e) => e@ == se,
        },
    }
}

/// The forward-only cursor over one immutable token buffer.
pub struct Parser {
    pub tokens: Vec<Token>,
    pub current: usize,
}

impl Parser {
    /// The views of the token buffer.
    pub open spec fn toks(&self) -> Seq<SpecToken> {
        views_of_tokens(self.tokens@)
    }

    /// Well-formed: the buffer ends with an EOF token and the cursor stands
    /// on a token.
    pub open spec fn wf(&self) -> bool {
        tokens_wf(self.toks()) && self.current < self.toks().len()
    }

    /// The current token, without advancing.
    pub fn peek(&self) -> (r: Option<&Token>)
        ensures
            match r {
                Some(t) => self.current < self.toks().len() && t@ == self.toks()[self.current as int],
                None => self.current >= self.toks().len(),
            },
    {
        if self.current < self.tokens.len() {
            Some(&self.tokens[self.current])
        } else {
            None
        }
    }

    /// Moves the cursor forward one slot and returns a copy of the token at
    /// the new position.
    pub fn next(&mut self) -> (r: Option<Token>)
        requires
            old(self).current < old(self).toks().len(),
        ensures
            final(self).tokens == old(self).tokens,
            final(self).current == old(self).current + 1,
            match r {
                Some(t) => final(self).current < final(self).toks().len() && t@ == final(self).toks()[final(self).current as int],
                None => final(self).current >= final(self).toks().len(),
            },
    {
        let n = self.tokens.len();
        self.current = self.current + 1;
        if self.current < n {
            Some(self.tokens[self.current].clone())
        } else {
            None
        }
    }

    /// The most recently consumed token; at the start, the first token.
    pub fn previous(&self) -> (r: Option<&Token>)
        ensures
            ({
                let idx = if self.current == 0 {
                    0int
                } else {
                    self.current - 1
                };
                match r {
                    Some(t) => idx < self.toks().len() && t@ == self.toks()[idx],
                    None => idx >= self.toks().len(),
                }
            }),
    {
        let idx = if self.current == 0 {
            0
        } else {
            self.current - 1
        };
        if idx < self.tokens.len() {
            Some(&self.tokens[idx])
        } else {
            None
        }
    }

    /// Whether the cursor stands on the EOF token.
    pub fn at_end(&self) -> (r: bool)
        ensures
            r == (self.current < self.toks().len() && self.toks()[self.current as int].kind
                == TokenType::EOF),
    {
        match self.peek() {
            None => false,
            Some(t) => t._type == TokenType::EOF,
        }
    }

    /// Whether the cursor stands on a token of the given kind; false on the
    /// EOF token and past the end of the buffer.
    pub fn check(&self, token_type: TokenType) -> (r: bool)
        ensures
            r == (self.current < self.toks().len() && self.toks()[self.current as int].kind
                == token_type && self.toks()[self.current as int].kind != TokenType::EOF),
    {
        if self.at_end() {
            return false;
        }
        match self.peek() {
            Some(t) => t._type == token_type,
            None => false,
        }
    }

    /// If the current token has the given kind, consumes it and returns it;
    /// otherwise fails with the given message, the current token and the
    /// fixed status code, leaving the cursor where it stands.
    pub fn consume(&mut self, token_type: TokenType, message: &str) -> (r: Result<
        Token,
        ParserError,
    >)
        requires
            old(self).wf(),
        ensures
            final(self).tokens == old(self).tokens,
            final(self).wf(),
            ({
                let cur = old(self).toks()[old(self).current as int];
                if cur.kind == token_type && cur.kind != TokenType::EOF {
                    r matches Ok(t) && t@ == cur && final(self).current == old(self).current + 1
                } else {
                    r matches Err(e) && e@ == parse_error(message@, cur) && final(self).current
                        == old(self).current
                }
            }),
    {
        if self.check(token_type) {
            let t = match self.peek() {
                Some(t) => t.clone(),
                None => unreached(),
            };
            proof {
                assert(self.toks()[self.toks().len() - 1].kind == TokenType::EOF);
            }
            self.next();
            Ok(t)
        } else {
            let t = match self.peek() {
                Some(t) => t.clone(),
                None => unreached(),
            };
            Err(ParserError::Default(message.to_owned(), t, 65))
        }
    }

    /// If the current token has one of the given kinds, consumes it and
    /// returns true; otherwise returns false and leaves the cursor where it
    /// stands.
    pub fn match_tokens(&mut self, token_types: &[TokenType]) -> (r: bool)
        requires
            old(self).wf(),
        ensures
            final(self).tokens == old(self).tokens,
            final(self).wf(),
            r == (exists|k: int|
                0 <= k < token_types@.len() && old(self).toks()[old(self).current as int].kind
                    == token_types@[k] && old(self).toks()[old(self).current as int].kind
                    != TokenType::EOF),
            r ==> final(self).current == old(self).current + 1,
            !r ==> final(self).current == old(self).current,
    {
        let mut k: usize = 0;
        while k < token_types.len()
            invariant
                self == old(self),
                self.wf(),
                k <= token_types@.len(),
                forall|t: int|
                    0 <= t < k ==> !(self.toks()[self.current as int].kind == token_types@[t]
                        && self.toks()[self.current as int].kind != TokenType::EOF),
            decreases token_types@.len() - k,
        {
            if self.check(token_types[k]) {
                proof {
                    assert(self.toks()[self.toks().len() - 1].kind == TokenType::EOF);
                }
                self.next();
                return true;
            }
            k = k + 1;
        }
        false
    }

    /// If the current token has the given kind, consumes it and returns true;
    /// otherwise returns false and leaves the cursor where it stands. The EOF
    /// token matches no request, an explicit request for EOF included.
    pub fn match_token(&mut self, token: TokenType) -> (r: bool)
        requires
            old(self).wf(),
        ensures
            final(self).tokens == old(self).tokens,
            final(self).wf(),
            r == (old(self).toks()[old(self).current as int].kind == token
                && old(self).toks()[old(self).current as int].kind != TokenType::EOF),
            r ==> final(self).current == old(self).current + 1,
            !r ==> final(self).current == old(self).current,
    {
        if self.check(token) {
            proof {
                assert(self.toks()[self.toks().len() - 1].kind == TokenType::EOF);
            }
            self.next();
            true
        } else {
            false
        }
    }
}

/// A copy of the most recently consumed token.
fn prev_token(p: &Parser) -> (r: Token)
    requires
        1 <= p.current,
        p.current - 1 < p.toks().len(),
    ensures
        r@ == p.toks()[p.current - 1],
{
    match p.previous() {
        Some(t) => t.clone(),
        None => unreached(),
    }
}

/// A copy of the current token.
fn peek_token(p: &Parser) -> (r: Token)
    requires
        p.current < p.toks().len(),
    ensures
        r@ == p.toks()[p.current as int],
{
    match p.peek() {
        Some(t) => t.clone(),
        None => unreached(),
    }
}

/// Parses one whole expression starting at the cursor.
fn expression(p: &mut Parser) -> (r: Result<Expr, ParserError>)
    requires
        old(p).wf(),
    ensures
        final(p).wf(),
        final(p).tokens == old(p).tokens,
        parse_outcome_matches(
            spec_expression(old(p).toks(), old(p).current as int),
            r,
            final(p).current as int,
        ),
    decreases p.tokens@.len() - p.current, 6int,
{
    equality(p)
}

/// The equality level: at most one `!=` or `==`.
#[verifier::rlimit(50)]
fn equality(p: &mut Parser) -> (r: Result<Expr, ParserError>)
    requires
        old(p).wf(),
    ensures
        final(p).wf(),
        final(p).tokens == old(p).tokens,
        parse_outcome_matches(
            spec_equality(old(p).toks(), old(p).current as int),
            r,
            final(p).current as int,
        ),
    decreases p.tokens@.len() - p.current, 5int,
{
    let ghost toks = p.toks();
    let ghost pos0 = p.current as int;
    let expr = comparison(p);
    proof {
        lemma_comparison_bounds(toks, pos0);
    }
    match expr {
        Err(e) => Err(e),
        Ok(left) => {
            let ops = [TokenType::BANG_EQUAL, TokenType::EQUAL_EQUAL];
            if p.match_tokens(ops.as_slice()) {
                let operator = prev_token(p);
                let right = comparison(p);
                match right {
                    Err(e) => Err(e),
                    Ok(rt) => Ok(Expr::Binary(Box::new(left), operator, Box::new(rt))),
                }
            } else {
                Ok(left)
            }
        },
    }
}

/// The comparison level: at most one `>`, `>=`, `<` or `<=`.
#[verifier::rlimit(50)]
fn comparison(p: &mut Parser) -> (r: Result<Expr, ParserError>)
    requires
        old(p).wf(),
    ensures
        final(p).wf(),
        final(p).tokens == old(p).tokens,
        parse_outcome_matches(
            spec_comparison(old(p).toks(), old(p).current as int),
            r,
            final(p).current as int,
        ),
    decreases p.tokens@.len() - p.current, 4int,
{
    let ghost toks = p.toks();
    let ghost pos0 = p.current as int;
    let expr = term(p);
    proof {
        lemma_term_bounds(toks, pos0);
    }
    match expr {
        Err(e) => Err(e),
        Ok(left) => {
            let ops = [
                TokenType::GREATER,
                TokenType::GREATER_EQUAL,
                TokenType::LESS,
                TokenType::LESS_EQUAL,
            ];
            if p.match_tokens(ops.as_slice()) {
                let operator = prev_token(p);
                let right = term(p);
                match right {
                    Err(e) => Err(e),
                    Ok(rt) => Ok(Expr::Binary(Box::new(left), operator, Box::new(rt))),
                }
            } else {
                Ok(left)
            }
        },
    }
}

/// The term level: at most one `-` or `+`.
#[verifier::rlimit(50)]
fn term(p: &mut Parser) -> (r: Result<Expr, ParserError>)
    requires
        old(p).wf(),
    ensures
        final(p).wf(),
        final(p).tokens == old(p).tokens,
        parse_outcome_matches(
            spec_term(old(p).toks(), old(p).current as int),
            r,
            final(p).current as int,
        ),
    decreases p.tokens@.len() - p.current, 3int,
{
    let ghost toks = p.toks();
    let ghost pos0 = p.current as int;
    let expr = factor(p);
    proof {
        lemma_factor_bounds(toks, pos0);
    }
    match expr {
        Err(e) => Err(e),
        Ok(left) => {
            let ops = [TokenType::MINUS, TokenType::PLUS];
            if p.match_tokens(ops.as_slice()) {
                let operator = prev_token(p);
                let right = factor(p);
                match right {
                    Err(e) => Err(e),
                    Ok(rt) => Ok(Expr::Binary(Box::new(left), operator, Box::new(rt))),
                }
            } else {
                Ok(left)
            }
        },
    }
}

/// The factor level: at most one `/` or `*`.
fn factor(p: &mut Parser) -> (r: Result<Expr, ParserError>)
    requires
        old(p).wf(),
    ensures
        final(p).wf(),
        final(p).tokens == old(p).tokens,
        parse_outcome_matches(
            spec_factor(old(p).toks(), old(p).current as int),
            r,
            final(p).current as int,
        ),
    decreases p.tokens@.len() - p.current, 2int,
{
    let ghost toks = p.toks();
    let ghost pos0 = p.current as int;
    let expr = unary(p);
    proof {
        lemma_unary_bounds(toks, pos0);
    }
    match expr {
        Err(e) => Err(e),
        Ok(left) => {
            let ops = [TokenType::SLASH, TokenType::STAR];
            if p.match_tokens(ops.as_slice()) {
                let operator = prev_token(p);
                let right = unary(p);
                match right {
                    Err(e) => Err(e),
                    Ok(rt) => Ok(Expr::Binary(Box::new(left), operator, Box::new(rt))),
                }
            } else {
                Ok(left)
            }
        },
    }
}

/// The unary level: a chain of prefix `!` or `-`, then a primary expression.
fn unary(p: &mut Parser) -> (r: Result<Expr, ParserError>)
    requires
        old(p).wf(),
    ensures
        final(p).wf(),
        final(p).tokens == old(p).tokens,
        parse_outcome_matches(
            spec_unary(old(p).toks(), old(p).current as int),
            r,
            final(p).current as int,
        ),
    decreases p.tokens@.len() - p.current, 1int,
{
    let ops = [TokenType::BANG, TokenType::MINUS];
    if p.match_tokens(ops.as_slice()) {
        let operator = prev_token(p);
        let right = unary(p);
        match right {
            Err(e) => Err(e),
            Ok(rt) => Ok(Expr::Unary(operator, Box::new(rt))),
        }
    } else {
        primary(p)
    }
}

/// Builds the literal for a just-consumed STRING or NUMBER token from its
/// normalized value, or fails with the given message when the token carries
/// no value.
fn get_or_ex_value(message: &str, parser: &mut Parser) -> (r: Result<Expr, ParserError>)
    requires
        old(parser).wf(),
        1 <= old(parser).current,
    ensures
        *final(parser) == *old(parser),
        ({
            let prev = old(parser).toks()[old(parser).current - 1];
            match prev.value {
                Some(v) => r matches Ok(e) && e@ == SpecExpr::Literal(v, prev),
                None => r matches Err(e) && e@ == parse_error(message@, prev),
            }
        }),
{
    match parser.previous() {
        None => unreached(),
        Some(result) => {
            match &result._value {
                None => Err(ParserError::Default(message.to_owned(), result.clone(), 65)),
                Some(value) => Ok(Expr::Literal(value.clone(), result.clone())),
            }
        },
    }
}

/// The primary level. The closing delimiter of a grouping is checked as the
/// right parenthesis, the conventional check.
fn primary(p: &mut Parser) -> (r: Result<Expr, ParserError>)
    requires
        old(p).wf(),
    ensures
        final(p).wf(),
        final(p).tokens == old(p).tokens,
        parse_outcome_matches(
            spec_primary(old(p).toks(), old(p).current as int),
            r,
            final(p).current as int,
        ),
    decreases p.tokens@.len() - p.current, 0int,
{
    let ghost toks = p.toks();
    let ghost pos0 = p.current as int;
    if p.match_token(TokenType::KEYWORD(KeywordType::FALSE)) {
        let t = prev_token(p);
        Ok(Expr::Literal("false".to_owned(), t))
    } else if p.match_token(TokenType::KEYWORD(KeywordType::TRUE)) {
        let t = prev_token(p);
        Ok(Expr::Literal("true".to_owned(), t))
    } else if p.match_token(TokenType::KEYWORD(KeywordType::NIL)) {
        let t = prev_token(p);
        Ok(Expr::Literal("null".to_owned(), t))
    } else if p.match_token(TokenType::STRING) {
        get_or_ex_value("string invalid", p)
    } else if p.match_token(TokenType::NUMBER) {
        get_or_ex_value("number invalid", p)
    } else if p.match_token(TokenType::LEFT_PAREN) {
        let inner = expression(p);
        match inner {
            Err(e) => Err(e),
            Ok(ex) => {
                proof {
                    lemma_expression_bounds(toks, pos0 + 1);
                }
                match p.consume(TokenType::RIGHT_PAREN, "Expect ')' after expression.") {
                    Ok(_) => Ok(Expr::Grouping(Box::new(ex))),
                    Err(e) => Err(e),
                }
            },
        }
    } else {
        let t = peek_token(p);
        Err(ParserError::Default("token not supported".to_owned(), t, 65))
    }
}

/// Parses the token sequence into a single expression tree, or the first
/// parse fault. The cursor never re-reads a consumed token; tokens after the
/// parsed expression are left unread.
pub fn parse(tokens: Tokens) -> (r: Result<AST, ParserError>)
    requires
        tokens_wf(tokens@.tokens),
    ensures
        match spec_parse(tokens@.tokens) {
            Ok(e) => r matches Ok(ast) && ast@ == e,
            Err(se) => r matches Err(pe) && pe@ == se,
        },
{
    let mut parser = Parser { tokens: tokens.tokens, current: 0 };
    let result = expression(&mut parser);
    match result {
        Ok(expr) => Ok(AST { expr }),
        Err(e) => Err(e),
    }
}

/// Determinism: parsing is a function of the token sequence alone, so two
/// parses of the same sequence are structurally identical. `parse` pins its
/// result to `spec_parse`, so any two of its results on one sequence agree.
pub proof fn lemma_parse_deterministic(
    toks: Seq<SpecToken>,
    r1: Result<SpecExpr, SpecParserError>,
    r2: Result<SpecExpr, SpecParserError>,
)
    requires
        r1 == spec_parse(toks),
        r2 == spec_parse(toks),
    ensures
        r1 == r2,
{
}

} // verus!
