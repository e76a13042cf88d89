//! The scanner: a single left-to-right pass with one-character lookahead that
//! turns source text into a token sequence ending in one EOF token.
//!
//! The spec function [`scan_spec`] defines the whole scan mathematically;
//! [`tokenize_code`] is proved to return exactly that value.

use vstd::prelude::*;
use vstd::string::*;

use crate::domain::{
    Diagnostic, KeywordType, SpecDiagnostic, SpecToken, SpecTokens, Token, TokenType, Tokens,
    views_of_diagnostics, views_of_tokens,
};

verus! {

/// An ASCII decimal digit.
pub open spec fn is_digit(c: char) -> bool {
    48 <= c as u32 && c as u32 <= 57
}

/// An ASCII letter or an underscore: the characters an identifier may start
/// with.
pub open spec fn is_ident_start(c: char) -> bool {
    (97 <= c as u32 && c as u32 <= 122) || (65 <= c as u32 && c as u32 <= 90) || c == '_'
}

/// An ASCII letter, an ASCII digit or an underscore: the characters an
/// identifier may continue with.
pub open spec fn is_ident_cont(c: char) -> bool {
    is_ident_start(c) || is_digit(c)
}

/// The kind of a token made of one fixed punctuation character, if the
/// character is one of the ten.
pub open spec fn single_char_kind(c: char) -> Option<TokenType> {
    if c == '(' {
        Some(TokenType::LEFT_PAREN)
    } else if c == ')' {
        Some(TokenType::RIGHT_PAREN)
    } else if c == '{' {
        Some(TokenType::LEFT_BRACE)
    } else if c == '}' {
        Some(TokenType::RIGHT_BRACE)
    } else if c == ',' {
        Some(TokenType::COMMA)
    } else if c == '.' {
        Some(TokenType::DOT)
    } else if c == '+' {
        Some(TokenType::PLUS)
    } else if c == '-' {
        Some(TokenType::MINUS)
    } else if c == ';' {
        Some(TokenType::SEMICOLON)
    } else if c == '*' {
        Some(TokenType::STAR)
    } else {
        None
    }
}

/// A character that may begin a two-character operator ending in `=`.
pub open spec fn is_composite_start(c: char) -> bool {
    c == '=' || c == '!' || c == '<' || c == '>'
}

/// The kind emitted when a composite start is followed by `=`.
pub open spec fn composite_kind(c: char) -> TokenType {
    if c == '=' {
        TokenType::EQUAL_EQUAL
    } else if c == '!' {
        TokenType::BANG_EQUAL
    } else if c == '<' {
        TokenType::LESS_EQUAL
    } else {
        TokenType::GREATER_EQUAL
    }
}

/// The kind emitted when a composite start is not followed by `=`.
pub open spec fn simple_kind(c: char) -> TokenType {
    if c == '=' {
        TokenType::EQUAL
    } else if c == '!' {
        TokenType::BANG
    } else if c == '<' {
        TokenType::LESS
    } else {
        TokenType::GREATER
    }
}

/// The first position at or after `i` whose character no longer continues an
/// identifier, or the end of the input.
pub open spec fn ident_end(s: Seq<char>, i: int) -> int
    decreases s.len() - i,
{
    if i < s.len() && 0 <= i && is_ident_cont(s[i]) {
        ident_end(s, i + 1)
    } else {
        i
    }
}

/// The first position at or after `i` whose character is not a digit, or the
/// end of the input.
pub open spec fn digits_end(s: Seq<char>, i: int) -> int
    decreases s.len() - i,
{
    if i < s.len() && 0 <= i && is_digit(s[i]) {
        digits_end(s, i + 1)
    } else {
        i
    }
}

/// Where a numeric lexeme that starts at `i` ends: a run of digits, then at
/// most one `.` together with the run of digits after it.
pub open spec fn number_end(s: Seq<char>, i: int) -> int {
    let d = digits_end(s, i);
    if d < s.len() && s[d] == '.' {
        digits_end(s, d + 1)
    } else {
        d
    }
}

/// The position of the next newline at or after `i`, or the end of the input.
pub open spec fn line_end(s: Seq<char>, i: int) -> int
    decreases s.len() - i,
{
    if i < s.len() && 0 <= i && s[i] != '\n' {
        line_end(s, i + 1)
    } else {
        i
    }
}

/// The position of the next double quote at or after `i`, or the end of the
/// input.
pub open spec fn string_end(s: Seq<char>, i: int) -> int
    decreases s.len() - i,
{
    if i < s.len() && 0 <= i && s[i] != '"' {
        string_end(s, i + 1)
    } else {
        i
    }
}

pub proof fn lemma_ident_end_bounds(s: Seq<char>, i: int)
    requires
        0 <= i <= s.len(),
    ensures
        i <= ident_end(s, i) <= s.len(),
    decreases s.len() - i,
{
    if i < s.len() && is_ident_cont(s[i]) {
        lemma_ident_end_bounds(s, i + 1);
    }
}

pub proof fn lemma_digits_end_bounds(s: Seq<char>, i: int)
    requires
        0 <= i <= s.len(),
    ensures
        i <= digits_end(s, i) <= s.len(),
    decreases s.len() - i,
{
    if i < s.len() && is_digit(s[i]) {
        lemma_digits_end_bounds(s, i + 1);
    }
}

pub proof fn lemma_number_end_bounds(s: Seq<char>, i: int)
    requires
        0 <= i <= s.len(),
    ensures
        i <= number_end(s, i) <= s.len(),
{
    lemma_digits_end_bounds(s, i);
    let d = digits_end(s, i);
    if d < s.len() && s[d] == '.' {
        lemma_digits_end_bounds(s, d + 1);
    }
}

pub proof fn lemma_line_end_bounds(s: Seq<char>, i: int)
    requires
        0 <= i <= s.len(),
    ensures
        i <= line_end(s, i) <= s.len(),
    decreases s.len() - i,
{
    if i < s.len() && s[i] != '\n' {
        lemma_line_end_bounds(s, i + 1);
    }
}

pub proof fn lemma_string_end_bounds(s: Seq<char>, i: int)
    requires
        0 <= i <= s.len(),
    ensures
        i <= string_end(s, i) <= s.len(),
    decreases s.len() - i,
{
    if i < s.len() && s[i] != '"' {
        lemma_string_end_bounds(s, i + 1);
    }
}

/// A sequence holds at most as many newlines as characters.
pub proof fn lemma_newlines_in_bounds(v: Seq<char>)
    ensures
        0 <= newlines_in(v) <= v.len(),
    decreases v.len(),
{
    if v.len() > 0 {
        lemma_newlines_in_bounds(v.drop_last());
    }
}

/// The position of the first `.` at or after `i`, or the end of the sequence.
pub open spec fn first_dot(v: Seq<char>, i: int) -> int
    decreases v.len() - i,
{
    if i < v.len() && 0 <= i && v[i] != '.' {
        first_dot(v, i + 1)
    } else {
        i
    }
}

/// The length that remains after stripping trailing `'0'` characters, never
/// below `min`.
pub open spec fn trim_len(v: Seq<char>, min: int) -> int
    decreases v.len(),
{
    if v.len() > min && v.len() > 0 && v[v.len() - 1] == '0' {
        trim_len(v.drop_last(), min)
    } else {
        v.len() as int
    }
}

/// The normalized value of a numeric lexeme: without a decimal point the
/// lexeme gains `.0`; with one, trailing zero digits after the point are
/// stripped down to (but not below) exactly one character after the point.
pub open spec fn normalize_number(lex: Seq<char>) -> Seq<char> {
    let d = first_dot(lex, 0);
    if d == lex.len() {
        lex.push('.').push('0')
    } else {
        lex.subrange(0, trim_len(lex, d + 2))
    }
}

/// The keyword a lexeme spells, if it is one of the sixteen reserved words.
pub open spec fn keyword_of(text: Seq<char>) -> Option<KeywordType> {
    if text == "and"@ {
        Some(KeywordType::AND)
    } else if text == "class"@ {
        Some(KeywordType::CLASS)
    } else if text == "else"@ {
        Some(KeywordType::ELSE)
    } else if text == "false"@ {
        Some(KeywordType::FALSE)
    } else if text == "for"@ {
        Some(KeywordType::FOR)
    } else if text == "fun"@ {
        Some(KeywordType::FUN)
    } else if text == "if"@ {
        Some(KeywordType::IF)
    } else if text == "nil"@ {
        Some(KeywordType::NIL)
    } else if text == "or"@ {
        Some(KeywordType::OR)
    } else if text == "print"@ {
        Some(KeywordType::PRINT)
    } else if text == "return"@ {
        Some(KeywordType::RETURN)
    } else if text == "super"@ {
        Some(KeywordType::SUPER)
    } else if text == "this"@ {
        Some(KeywordType::THIS)
    } else if text == "true"@ {
        Some(KeywordType::TRUE)
    } else if text == "var"@ {
        Some(KeywordType::VAR)
    } else if text == "while"@ {
        Some(KeywordType::WHILE)
    } else {
        None
    }
}

/// The kind of an identifier-shaped lexeme: the matching keyword kind, or
/// IDENTIFIER.
pub open spec fn keyword_or_ident_kind(text: Seq<char>) -> TokenType {
    match keyword_of(text) {
        Some(k) => TokenType::KEYWORD(k),
        None => TokenType::IDENTIFIER,
    }
}

/// What one scan pass produces from some position onward: the tokens and
/// diagnostics in source order, whether any lexical fault occurred, and the
/// line and column counters when the input is exhausted.
pub struct SpecScan {
    pub tokens: Seq<SpecToken>,
    pub diagnostics: Seq<SpecDiagnostic>,
    pub fault: bool,
    pub end_line: int,
    pub end_col: int,
}

/// The scan that emits `t` and then continues as `r`.
pub open spec fn with_token(t: SpecToken, r: SpecScan) -> SpecScan {
    SpecScan {
        tokens: seq![t] + r.tokens,
        diagnostics: r.diagnostics,
        fault: r.fault,
        end_line: r.end_line,
        end_col: r.end_col,
    }
}

/// The scan that reports `d`, turns the fault flag on, and continues as `r`.
pub open spec fn with_diagnostic(d: SpecDiagnostic, r: SpecScan) -> SpecScan {
    SpecScan {
        tokens: r.tokens,
        diagnostics: seq![d] + r.diagnostics,
        fault: true,
        end_line: r.end_line,
        end_col: r.end_col,
    }
}

/// A token standing for one source character, starting and ending at the same
/// column.
pub open spec fn spec_char_token(kind: TokenType, c: char, line: int, col: int) -> SpecToken {
    SpecToken { kind, lexeme: seq![c], value: None, line, column_from: col, column_to: col }
}

/// A one-character operator token. Its recorded end column is one past its
/// start column, exactly as the two-character form records it.
pub open spec fn spec_single_op_token(kind: TokenType, c: char, line: int, col: int) -> SpecToken {
    SpecToken { kind, lexeme: seq![c], value: None, line, column_from: col, column_to: col + 1 }
}

/// A two-character operator token ending in `=`.
pub open spec fn spec_two_char_token(kind: TokenType, c: char, line: int, col: int) -> SpecToken {
    SpecToken {
        kind,
        lexeme: seq![c, '='],
        value: None,
        line,
        column_from: col,
        column_to: col + 1,
    }
}

/// The number of newline characters in `v`.
pub open spec fn newlines_in(v: Seq<char>) -> int
    decreases v.len(),
{
    if v.len() == 0 {
        0
    } else {
        newlines_in(v.drop_last()) + if v.last() == '\n' {
            1int
        } else {
            0int
        }
    }
}

/// One left-to-right scan of `s` from position `i`, with the line counter at
/// `line` and the column counter at `col` (the column of the character before
/// position `i`).
///
/// Each step consumes at least one character. Whitespace is discarded; `//`
/// discards the rest of the line, leaving the newline to be scanned on its
/// own; a lexical fault (an unexpected character, or an unterminated string
/// at the end of the input) contributes a diagnostic instead of a token and
/// scanning continues.
///
/// The line counter advances exactly at newline characters, those inside a
/// string literal included; a string or diagnostic carries the line it began
/// on. `\n` outside a string also resets the column counter.
pub open spec fn scan_from(s: Seq<char>, i: int, line: int, col: int) -> SpecScan
    decreases s.len() - i,
        via scan_from_decreases
{
    if i < 0 || s.len() <= i {
        SpecScan {
            tokens: seq![],
            diagnostics: seq![],
            fault: false,
            end_line: line,
            end_col: col,
        }
    } else {
        let c = s[i];
        let col1 = col + 1;
        if single_char_kind(c) is Some {
            with_token(
                spec_char_token(single_char_kind(c)->0, c, line, col1),
                scan_from(s, i + 1, line, col1),
            )
        } else if is_composite_start(c) {
            if i + 1 < s.len() && s[i + 1] == '=' {
                with_token(
                    spec_two_char_token(composite_kind(c), c, line, col1),
                    scan_from(s, i + 2, line, col1),
                )
            } else {
                with_token(
                    spec_single_op_token(simple_kind(c), c, line, col1),
                    scan_from(s, i + 1, line, col1),
                )
            }
        } else if c == '/' {
            if i + 1 < s.len() && s[i + 1] == '/' {
                scan_from(s, line_end(s, i + 1), line, col1)
            } else {
                with_token(
                    spec_char_token(TokenType::SLASH, c, line, col1),
                    scan_from(s, i + 1, line, col1),
                )
            }
        } else if c == '"' {
            let q = string_end(s, i + 1);
            if q < s.len() {
                with_token(
                    SpecToken {
                        kind: TokenType::STRING,
                        lexeme: s.subrange(i, q + 1),
                        value: Some(s.subrange(i + 1, q)),
                        line,
                        column_from: col1,
                        column_to: col1 + q - i,
                    },
                    scan_from(s, q + 1, line + newlines_in(s.subrange(i + 1, q)), col1 + q - i),
                )
            } else {
                SpecScan {
                    tokens: seq![],
                    diagnostics: seq![SpecDiagnostic::UnterminatedString { line }],
                    fault: true,
                    end_line: line + newlines_in(s.subrange(i + 1, s.len() as int)),
                    end_col: col1,
                }
            }
        } else if c == '\n' {
            scan_from(s, i + 1, line + 1, 1)
        } else if c == ' ' || c == '\r' || c == '\t' {
            scan_from(s, i + 1, line, col1)
        } else if is_ident_start(c) {
            let j = ident_end(s, i + 1);
            with_token(
                SpecToken {
                    kind: keyword_or_ident_kind(s.subrange(i, j)),
                    lexeme: s.subrange(i, j),
                    value: None,
                    line,
                    column_from: col1,
                    column_to: col1 + j - i - 1,
                },
                scan_from(s, j, line, col1 + j - i - 1),
            )
        } else if is_digit(c) {
            let j = number_end(s, i);
            with_token(
                SpecToken {
                    kind: TokenType::NUMBER,
                    lexeme: s.subrange(i, j),
                    value: Some(normalize_number(s.subrange(i, j))),
                    line,
                    column_from: col1,
                    column_to: col1 + j - i - 1,
                },
                scan_from(s, j, line, col1 + j - i - 1),
            )
        } else {
            with_diagnostic(
                SpecDiagnostic::UnexpectedCharacter { line, ch: c },
                scan_from(s, i + 1, line, col1),
            )
        }
    }
}

#[via_fn]
proof fn scan_from_decreases(s: Seq<char>, i: int, line: int, col: int) {
    if 0 <= i < s.len() {
        lemma_line_end_bounds(s, i + 1);
        lemma_string_end_bounds(s, i + 1);
        lemma_ident_end_bounds(s, i + 1);
        lemma_digits_end_bounds(s, i + 1);
        if is_digit(s[i]) {
            assert(number_end(s, i) > i) by {
                assert(digits_end(s, i) == digits_end(s, i + 1));
                lemma_digits_end_bounds(s, i + 1);
                let d = digits_end(s, i);
                if d < s.len() && s[d] == '.' {
                    lemma_digits_end_bounds(s, d + 1);
                }
            }
            lemma_number_end_bounds(s, i);
        }
    }
}

/// The EOF token appended after the input is exhausted: an empty lexeme, no
/// value, at the final line and column counters.
pub open spec fn spec_eof_token(line: int, col: int) -> SpecToken {
    SpecToken {
        kind: TokenType::EOF,
        lexeme: seq![],
        value: None,
        line,
        column_from: col,
        column_to: col,
    }
}

/// The complete scan of `s`: every token `scan_from` yields from the start of
/// the input, then exactly one EOF token; status 65 if any lexical fault
/// occurred, 0 otherwise.
pub open spec fn scan_spec(s: Seq<char>) -> SpecTokens {
    let r = scan_from(s, 0, 1, 0);
    SpecTokens {
        code: if r.fault {
            65
        } else {
            0
        },
        tokens: r.tokens.push(spec_eof_token(r.end_line, r.end_col)),
        diagnostics: r.diagnostics,
    }
}

/// Every character before `digits_end` is a digit.
proof fn lemma_digits_end_chars(s: Seq<char>, i: int)
    requires
        0 <= i <= s.len(),
    ensures
        forall|k: int| i <= k < digits_end(s, i) ==> is_digit(#[trigger] s[k]),
    decreases s.len() - i,
{
    if i < s.len() && is_digit(s[i]) {
        lemma_digits_end_chars(s, i + 1);
    }
}

/// `first_dot` finds the position of the first `.`: no character before `d`
/// is a dot, and `d` is either a dot or the end.
proof fn lemma_first_dot_of(v: Seq<char>, t: int, d: int)
    requires
        0 <= t <= d <= v.len(),
        forall|k: int| t <= k < d ==> #[trigger] v[k] != '.',
        d == v.len() || v[d] == '.',
    ensures
        first_dot(v, t) == d,
    decreases d - t,
{
    if t < d {
        lemma_first_dot_of(v, t + 1, d);
    }
}

/// Whether `c` is an ASCII decimal digit.
fn is_digit_char(c: char) -> (r: bool)
    ensures
        r == is_digit(c),
{
    let u = c as u32;
    48 <= u && u <= 57
}

/// Whether `c` may start an identifier.
fn is_ident_start_char(c: char) -> (r: bool)
    ensures
        r == is_ident_start(c),
{
    let u = c as u32;
    (97 <= u && u <= 122) || (65 <= u && u <= 90) || c == '_'
}

/// Whether `c` may continue an identifier.
fn is_ident_cont_char(c: char) -> (r: bool)
    ensures
        r == is_ident_cont(c),
{
    is_ident_start_char(c) || is_digit_char(c)
}

/// Whether two string slices hold the same characters.
fn str_eq(a: &str, b: &str) -> (r: bool)
    ensures
        r == (a@ == b@),
{
    let n = a.unicode_len();
    let m = b.unicode_len();
    if n != m {
        return false;
    }
    let mut k: usize = 0;
    while k < n
        invariant
            n == a@.len(),
            n == b@.len(),
            k <= n,
            forall|t: int| 0 <= t < k ==> a@[t] == b@[t],
        decreases n - k,
    {
        if a.get_char(k) != b.get_char(k) {
            return false;
        }
        k = k + 1;
    }
    proof {
        assert(a@ =~= b@);
    }
    true
}

/// The reserved word the lexeme spells, if any.
fn keyword_lookup(text: &str) -> (r: Option<KeywordType>)
    ensures
        r == keyword_of(text@),
{
    if str_eq(text, "and") {
        Some(KeywordType::AND)
    } else if str_eq(text, "class") {
        Some(KeywordType::CLASS)
    } else if str_eq(text, "else") {
        Some(KeywordType::ELSE)
    } else if str_eq(text, "false") {
        Some(KeywordType::FALSE)
    } else if str_eq(text, "for") {
        Some(KeywordType::FOR)
    } else if str_eq(text, "fun") {
        Some(KeywordType::FUN)
    } else if str_eq(text, "if") {
        Some(KeywordType::IF)
    } else if str_eq(text, "nil") {
        Some(KeywordType::NIL)
    } else if str_eq(text, "or") {
        Some(KeywordType::OR)
    } else if str_eq(text, "print") {
        Some(KeywordType::PRINT)
    } else if str_eq(text, "return") {
        Some(KeywordType::RETURN)
    } else if str_eq(text, "super") {
        Some(KeywordType::SUPER)
    } else if str_eq(text, "this") {
        Some(KeywordType::THIS)
    } else if str_eq(text, "true") {
        Some(KeywordType::TRUE)
    } else if str_eq(text, "var") {
        Some(KeywordType::VAR)
    } else if str_eq(text, "while") {
        Some(KeywordType::WHILE)
    } else {
        None
    }
}

/// Advances past the body of a line comment: every character from `start` up
/// to (not including) the next newline, or to the end of the input.
fn skip_while(src: &str, start: usize) -> (r: usize)
    requires
        start as int <= src@.len(),
    ensures
        r == line_end(src@, start as int),
        start <= r <= src@.len(),
{
    let n = src.unicode_len();
    let mut j = start;
    while j < n && src.get_char(j) != '\n'
        invariant
            n == src@.len(),
            start <= j <= n,
            line_end(src@, start as int) == line_end(src@, j as int),
        decreases n - j,
    {
        j = j + 1;
    }
    j
}

/// Scans the token that starts at a composite-operator character: if the next
/// character is `next_char`, both are consumed and `then_token` is emitted,
/// else only the current character is consumed and `else_token` is emitted.
/// Either way the token's recorded end column is `column + 1`.
fn composite_token(
    src: &str,
    i: usize,
    current_char: char,
    next_char: char,
    column: i32,
    then_token: TokenType,
    else_token: TokenType,
) -> (r: (TokenType, String, i32, usize))
    requires
        src@.len() <= 0x7FFF_FFFE,
        i < src@.len(),
        src@[i as int] == current_char,
        0 <= column,
        column as int <= i + 1,
    ensures
        r.2 == column + 1,
        if i + 1 < src@.len() && src@[i + 1] == next_char {
            r.0 == then_token && r.1@ == seq![current_char, next_char] && r.3 == i + 2
        } else {
            r.0 == else_token && r.1@ == seq![current_char] && r.3 == i + 1
        },
{
    let n = src.unicode_len();
    if i + 1 < n && src.get_char(i + 1) == next_char {
        let lex = src.substring_char(i, i + 2).to_owned();
        proof {
            assert(lex@ =~= seq![current_char, next_char]);
        }
        (then_token, lex, column + 1, i + 2)
    } else {
        let lex = src.substring_char(i, i + 1).to_owned();
        proof {
            assert(lex@ =~= seq![current_char]);
        }
        (else_token, lex, column + 1, i + 1)
    }
}

/// Scans a string literal whose opening quote stands at position `i` with the
/// line counter at `line` and the column counter at `col`. On success the
/// token carries the line the literal began on, its lexeme keeps both quotes
/// and its value is the content between them; if the input ends first, no
/// token is produced (the caller reports the unterminated string). Either way
/// the returned line counter has advanced by the newlines in the consumed
/// content.
fn string(src: &str, i: usize, line: i32, col: i32) -> (r: (Option<Token>, usize, i32, i32))
    requires
        src@.len() <= 0x7FFF_FFFE,
        i < src@.len(),
        src@[i as int] == '"',
        1 <= line,
        line as int <= i + 1,
        0 <= col,
        col as int <= i + 1,
    ensures
        ({
            let q = string_end(src@, i + 1);
            match r.0 {
                Some(t) => q < src@.len() && r.1 == q + 1 && r.2 as int == line + newlines_in(
                    src@.subrange(i + 1, q),
                ) && r.3 as int == col + (q - i) && t@ == (SpecToken {
                    kind: TokenType::STRING,
                    lexeme: src@.subrange(i as int, q + 1),
                    value: Some(src@.subrange(i + 1, q)),
                    line: line as int,
                    column_from: col as int,
                    column_to: col + (q - i),
                }),
                None => q == src@.len() && r.1 == src@.len() && r.2 as int == line + newlines_in(
                    src@.subrange(i + 1, src@.len() as int),
                ) && r.3 == col,
            }
        }),
{
    let n = src.unicode_len();
    let mut j = i + 1;
    let mut nl: i32 = 0;
    proof {
        assert(src@.subrange(i + 1, i + 1) =~= Seq::<char>::empty());
    }
    while j < n && src.get_char(j) != '"'
        invariant
            n == src@.len(),
            n <= 0x7FFF_FFFE,
            i + 1 <= j <= n,
            string_end(src@, i + 1) == string_end(src@, j as int),
            0 <= nl,
            nl as int <= j - i - 1,
            nl as int == newlines_in(src@.subrange(i + 1, j as int)),
        decreases n - j,
    {
        if src.get_char(j) == '\n' {
            nl = nl + 1;
        }
        proof {
            assert(src@.subrange(i + 1, j + 1).drop_last() =~= src@.subrange(i + 1, j as int));
            assert(src@.subrange(i + 1, j + 1).last() == src@[j as int]);
        }
        j = j + 1;
    }
    let line2 = line + nl;
    if j == n {
        return (None, n, line2, col);
    }
    let lexeme = src.substring_char(i, j + 1).to_owned();
    let value = src.substring_char(i + 1, j).to_owned();
    let col2 = col + ((j - i) as i32);
    let token = Token::new_content(TokenType::STRING, lexeme, value, line, col, col2);
    (Some(token), j + 1, line2, col2)
}

/// Scans the numeric literal that starts at the digit at position `i` with
/// the column counter at `col`, and normalizes its value: a lexeme without a
/// decimal point gains `.0`, one with a point loses trailing zero digits down
/// to exactly one character after the point.
fn number(src: &str, i: usize, line: i32, col: i32) -> (r: (Token, usize, i32))
    requires
        src@.len() <= 0x7FFF_FFFE,
        i < src@.len(),
        is_digit(src@[i as int]),
        0 <= col,
        col as int <= i + 1,
    ensures
        r.1 == number_end(src@, i as int),
        i < r.1 <= src@.len(),
        r.2 as int == col + (r.1 - i - 1),
        r.0@ == (SpecToken {
            kind: TokenType::NUMBER,
            lexeme: src@.subrange(i as int, r.1 as int),
            value: Some(normalize_number(src@.subrange(i as int, r.1 as int))),
            line: line as int,
            column_from: col as int,
            column_to: col + (r.1 - i - 1),
        }),
{
    let ghost s = src@;
    let n = src.unicode_len();
    let mut j = i + 1;
    proof {
        assert(digits_end(s, i as int) == digits_end(s, i + 1));
    }
    while j < n && is_digit_char(src.get_char(j))
        invariant
            n == s.len(),
            s == src@,
            i + 1 <= j <= n,
            digits_end(s, i as int) == digits_end(s, j as int),
        decreases n - j,
    {
        j = j + 1;
    }
    let j1 = j;
    proof {
        assert(j1 == digits_end(s, i as int));
        lemma_digits_end_chars(s, i as int);
    }
    let has_dot = j1 < n && src.get_char(j1) == '.';
    if has_dot {
        let mut j2 = j1 + 1;
        while j2 < n && is_digit_char(src.get_char(j2))
            invariant
                n == s.len(),
                s == src@,
                j1 + 1 <= j2 <= n,
                digits_end(s, j1 + 1) == digits_end(s, j2 as int),
            decreases n - j2,
        {
            j2 = j2 + 1;
        }
        let j = j2;
        proof {
            assert(j == number_end(s, i as int));
        }
        let ghost lex = s.subrange(i as int, j as int);
        let ghost dot_rel = j1 - i;
        proof {
            assert forall|k: int| 0 <= k < dot_rel implies #[trigger] lex[k] != '.' by {
                assert(lex[k] == s[i + k]);
                assert(is_digit(s[i + k]));
                assert('.' as u32 == 46);
            }
            assert(lex[dot_rel] == '.');
            lemma_first_dot_of(lex, 0, dot_rel);
        }
        // Strip trailing zero digits, but never the first character after the
        // point.
        let mut kk = j;
        proof {
            assert(lex.subrange(0, kk - i) =~= lex);
        }
        while kk > j1 + 2 && src.get_char(kk - 1) == '0'
            invariant
                n == s.len(),
                s == src@,
                n <= 0x7FFF_FFFE,
                i + 1 <= j1,
                j1 + 1 <= kk <= j,
                j <= n,
                dot_rel == j1 - i,
                lex == s.subrange(i as int, j as int),
                trim_len(lex, dot_rel + 2) == trim_len(lex.subrange(0, kk - i), dot_rel + 2),
            decreases kk,
        {
            proof {
                let m = dot_rel + 2;
                let v = lex.subrange(0, kk - i);
                assert(v.len() == kk - i);
                assert(v[v.len() - 1] == lex[kk - i - 1]);
                assert(lex[kk - i - 1] == s[kk - 1]);
                assert(trim_len(v, m) == trim_len(v.drop_last(), m));
                assert(v.drop_last() =~= lex.subrange(0, kk - 1 - i));
            }
            kk = kk - 1;
        }
        proof {
            let v = lex.subrange(0, kk - i);
            assert(trim_len(lex, dot_rel + 2) == kk - i);
            assert(s.subrange(i as int, kk as int) =~= lex.subrange(0, trim_len(lex, dot_rel + 2)));
        }
        let lexeme = src.substring_char(i, j).to_owned();
        let value = src.substring_char(i, kk).to_owned();
        let col2 = col + ((j - i - 1) as i32);
        let token = Token::new_content(TokenType::NUMBER, lexeme, value, line, col, col2);
        (token, j, col2)
    } else {
        let j = j1;
        proof {
            assert(j == number_end(s, i as int));
        }
        let ghost lex = s.subrange(i as int, j as int);
        proof {
            assert forall|k: int| 0 <= k < lex.len() implies #[trigger] lex[k] != '.' by {
                assert(lex[k] == s[i + k]);
                assert(is_digit(s[i + k]));
                assert('.' as u32 == 46);
            }
            lemma_first_dot_of(lex, 0, lex.len() as int);
            reveal_strlit(".0");
        }
        let lexeme = src.substring_char(i, j).to_owned();
        let value = src.substring_char(i, j).to_owned().concat(".0");
        proof {
            assert(value@ =~= lex.push('.').push('0'));
        }
        let col2 = col + ((j - i - 1) as i32);
        let token = Token::new_content(TokenType::NUMBER, lexeme, value, line, col, col2);
        (token, j, col2)
    }
}

/// Scans the identifier or reserved word that starts at position `i` with the
/// column counter at `col`: greedily takes every following letter, digit or
/// underscore, then looks the text up in the keyword table.
fn identifier(src: &str, i: usize, line: i32, col: i32) -> (r: (Token, usize, i32))
    requires
        src@.len() <= 0x7FFF_FFFE,
        i < src@.len(),
        is_ident_start(src@[i as int]),
        0 <= col,
        col as int <= i + 1,
    ensures
        r.1 == ident_end(src@, i + 1),
        i < r.1 <= src@.len(),
        r.2 as int == col + (r.1 - i - 1),
        r.0@ == (SpecToken {
            kind: keyword_or_ident_kind(src@.subrange(i as int, r.1 as int)),
            lexeme: src@.subrange(i as int, r.1 as int),
            value: None,
            line: line as int,
            column_from: col as int,
            column_to: col + (r.1 - i - 1),
        }),
{
    let n = src.unicode_len();
    let mut j = i + 1;
    while j < n && is_ident_cont_char(src.get_char(j))
        invariant
            n == src@.len(),
            i + 1 <= j <= n,
            ident_end(src@, i + 1) == ident_end(src@, j as int),
        decreases n - j,
    {
        j = j + 1;
    }
    let text = src.substring_char(i, j);
    let kind = match keyword_lookup(text) {
        None => TokenType::IDENTIFIER,
        Some(keyword) => TokenType::KEYWORD(keyword),
    };
    let col2 = col + ((j - i - 1) as i32);
    let token = Token::new(kind, text.to_owned(), line, col, col2);
    (token, j, col2)
}

/// Emitting a token and scanning on: the gathered views plus the remaining
/// scan stay the same sequence.
proof fn lemma_step_token(ts: Seq<Token>, t: Token, rest2: SpecScan)
    ensures
        views_of_tokens(ts) + with_token(t@, rest2).tokens =~= views_of_tokens(ts.push(t))
            + rest2.tokens,
        with_token(t@, rest2).diagnostics == rest2.diagnostics,
        with_token(t@, rest2).fault == rest2.fault,
        with_token(t@, rest2).end_line == rest2.end_line,
        with_token(t@, rest2).end_col == rest2.end_col,
{
    assert(views_of_tokens(ts.push(t)) =~= views_of_tokens(ts).push(t@));
    assert(views_of_tokens(ts) + (seq![t@] + rest2.tokens) =~= views_of_tokens(ts).push(t@)
        + rest2.tokens);
}

/// Reporting a diagnostic and scanning on: the gathered views plus the
/// remaining scan stay the same sequence.
proof fn lemma_step_diag(ds: Seq<Diagnostic>, d: Diagnostic, rest2: SpecScan)
    ensures
        views_of_diagnostics(ds) + with_diagnostic(d@, rest2).diagnostics =~= views_of_diagnostics(
            ds.push(d),
        ) + rest2.diagnostics,
        with_diagnostic(d@, rest2).tokens == rest2.tokens,
        with_diagnostic(d@, rest2).fault,
        with_diagnostic(d@, rest2).end_line == rest2.end_line,
        with_diagnostic(d@, rest2).end_col == rest2.end_col,
{
    assert(views_of_diagnostics(ds.push(d)) =~= views_of_diagnostics(ds).push(d@));
    assert(views_of_diagnostics(ds) + (seq![d@] + rest2.diagnostics) =~= views_of_diagnostics(
        ds,
    ).push(d@) + rest2.diagnostics);
}

/// One pass over the whole input, gathering tokens and diagnostics, then the
/// final EOF token.
fn process_tokens(code: String) -> (r: Tokens)
    requires
        code@.len() <= 0x7FFF_FFFE,
    ensures
        r@ == scan_spec(code@),
{
    let src = code.as_str();
    let ghost s = src@;
    let n = src.unicode_len();
    let mut line: i32 = 1;
    let mut col: i32 = 0;
    let mut result: u8 = 0;
    let mut tokens: Vec<Token> = Vec::new();
    let mut diagnostics: Vec<Diagnostic> = Vec::new();
    let mut i: usize = 0;
    let ghost g = scan_from(s, 0, 1, 0);
    proof {
        assert(views_of_tokens(tokens@) =~= Seq::<SpecToken>::empty());
        assert(views_of_diagnostics(diagnostics@) =~= Seq::<SpecDiagnostic>::empty());
        assert(views_of_tokens(tokens@) + g.tokens =~= g.tokens);
        assert(views_of_diagnostics(diagnostics@) + g.diagnostics =~= g.diagnostics);
    }
    while i < n
        invariant
            s == src@,
            n == s.len(),
            n <= 0x7FFF_FFFE,
            i <= n,
            1 <= line as int,
            line as int <= i + 1,
            0 <= col as int,
            col as int <= i as int,
            result == 0 || result == 65,
            g == scan_from(s, 0, 1, 0),
            g.tokens == views_of_tokens(tokens@) + scan_from(
                s,
                i as int,
                line as int,
                col as int,
            ).tokens,
            g.diagnostics == views_of_diagnostics(diagnostics@) + scan_from(
                s,
                i as int,
                line as int,
                col as int,
            ).diagnostics,
            g.fault == (result == 65 || scan_from(s, i as int, line as int, col as int).fault),
            g.end_line == scan_from(s, i as int, line as int, col as int).end_line,
            g.end_col == scan_from(s, i as int, line as int, col as int).end_col,
        decreases n - i,
    {
        let ghost rest = scan_from(s, i as int, line as int, col as int);
        let c = src.get_char(i);
        let col1 = col + 1;
        if c == '(' || c == ')' || c == '{' || c == '}' || c == ',' || c == '.' || c == '+' || c
            == '-' || c == ';' || c == '*' {
            let kind = if c == '(' {
                TokenType::LEFT_PAREN
            } else if c == ')' {
                TokenType::RIGHT_PAREN
            } else if c == '{' {
                TokenType::LEFT_BRACE
            } else if c == '}' {
                TokenType::RIGHT_BRACE
            } else if c == ',' {
                TokenType::COMMA
            } else if c == '.' {
                TokenType::DOT
            } else if c == '+' {
                TokenType::PLUS
            } else if c == '-' {
                TokenType::MINUS
            } else if c == ';' {
                TokenType::SEMICOLON
            } else {
                TokenType::STAR
            };
            let t = Token::new_char(kind, c, line, col1);
            proof {
                let rest2 = scan_from(s, i + 1, line as int, col1 as int);
                assert(rest == with_token(t@, rest2));
                lemma_step_token(tokens@, t, rest2);
            }
            tokens.push(t);
            col = col1;
            i = i + 1;
        } else if c == '=' || c == '!' || c == '<' || c == '>' {
            let (then_kind, else_kind) = if c == '=' {
                (TokenType::EQUAL_EQUAL, TokenType::EQUAL)
            } else if c == '!' {
                (TokenType::BANG_EQUAL, TokenType::BANG)
            } else if c == '<' {
                (TokenType::LESS_EQUAL, TokenType::LESS)
            } else {
                (TokenType::GREATER_EQUAL, TokenType::GREATER)
            };
            let (kind, lex, cur_col, next_i) = composite_token(
                src,
                i,
                c,
                '=',
                col1,
                then_kind,
                else_kind,
            );
            let t = Token::new(kind, lex, line, col1, cur_col);
            proof {
                let rest2 = scan_from(s, next_i as int, line as int, col1 as int);
                assert(rest == with_token(t@, rest2));
                lemma_step_token(tokens@, t, rest2);
            }
            tokens.push(t);
            col = col1;
            i = next_i;
        } else if c == '/' {
            let is_comment = i + 1 < n && src.get_char(i + 1) == '/';
            if is_comment {
                let j = skip_while(src, i + 1);
                proof {
                    assert(s[i + 1] == '/');
                    assert(line_end(s, i + 1) == line_end(s, i + 2));
                    lemma_line_end_bounds(s, i + 2);
                    assert(rest == scan_from(s, j as int, line as int, col1 as int));
                }
                col = col1;
                i = j;
            } else {
                let t = Token::new_char(TokenType::SLASH, c, line, col1);
                proof {
                    let rest2 = scan_from(s, i + 1, line as int, col1 as int);
                    assert(rest == with_token(t@, rest2));
                    lemma_step_token(tokens@, t, rest2);
                }
                tokens.push(t);
                col = col1;
                i = i + 1;
            }
        } else if c == '"' {
            let (maybe_token, next_i, next_line, next_col) = string(src, i, line, col1);
            match maybe_token {
                Some(t) => {
                    proof {
                        lemma_string_end_bounds(s, i + 1);
                        let q = string_end(s, i + 1);
                        lemma_newlines_in_bounds(s.subrange(i + 1, q));
                        let rest2 = scan_from(s, next_i as int, next_line as int, next_col as int);
                        assert(rest == with_token(t@, rest2));
                        lemma_step_token(tokens@, t, rest2);
                    }
                    tokens.push(t);
                    line = next_line;
                    col = next_col;
                    i = next_i;
                },
                None => {
                    let d = Diagnostic::UnterminatedString { line };
                    proof {
                        lemma_newlines_in_bounds(s.subrange(i + 1, s.len() as int));
                        let rest2 = scan_from(s, n as int, next_line as int, col1 as int);
                        assert(rest == with_diagnostic(d@, rest2));
                        lemma_step_diag(diagnostics@, d, rest2);
                    }
                    diagnostics.push(d);
                    result = 65;
                    line = next_line;
                    col = col1;
                    i = n;
                },
            }
        } else if c == '\n' {
            proof {
                assert(rest == scan_from(s, i + 1, line as int + 1, 1));
            }
            line = line + 1;
            col = 1;
            i = i + 1;
        } else if c == ' ' || c == '\r' || c == '\t' {
            proof {
                assert(rest == scan_from(s, i + 1, line as int, col1 as int));
            }
            col = col1;
            i = i + 1;
        } else if is_ident_start_char(c) {
            let (t, next_i, next_col) = identifier(src, i, line, col1);
            proof {
                let rest2 = scan_from(s, next_i as int, line as int, next_col as int);
                assert(rest == with_token(t@, rest2));
                lemma_step_token(tokens@, t, rest2);
            }
            tokens.push(t);
            col = next_col;
            i = next_i;
        } else if is_digit_char(c) {
            let (t, next_i, next_col) = number(src, i, line, col1);
            proof {
                let rest2 = scan_from(s, next_i as int, line as int, next_col as int);
                assert(rest == with_token(t@, rest2));
                lemma_step_token(tokens@, t, rest2);
            }
            tokens.push(t);
            col = next_col;
            i = next_i;
        } else {
            let d = Diagnostic::UnexpectedCharacter { line, ch: c };
            proof {
                let rest2 = scan_from(s, i + 1, line as int, col1 as int);
                assert(rest == with_diagnostic(d@, rest2));
                lemma_step_diag(diagnostics@, d, rest2);
            }
            diagnostics.push(d);
            result = 65;
            col = col1;
            i = i + 1;
        }
    }
    let eof = Token::new(TokenType::EOF, String::new(), line, col, col);
    proof {
        let rest = scan_from(s, n as int, line as int, col as int);
        assert(rest.tokens =~= Seq::<SpecToken>::empty());
        assert(g.tokens =~= views_of_tokens(tokens@));
        assert(g.diagnostics =~= views_of_diagnostics(diagnostics@));
        assert(eof@ == spec_eof_token(g.end_line, g.end_col));
        assert(views_of_tokens(tokens@.push(eof)) =~= views_of_tokens(tokens@).push(eof@));
    }
    tokens.push(eof);
    let r = Tokens { code: result, tokens, diagnostics };
    proof {
        assert(r@.tokens == scan_spec(code@).tokens);
        assert(r@.diagnostics == scan_spec(code@).diagnostics);
        assert(r@.code == scan_spec(code@).code);
    }
    r
}

/// Scans the whole source text into its token sequence: exactly the tokens
/// and diagnostics of [`scan_spec`], ending with one EOF token, with status
/// 65 if any lexical fault occurred and 0 otherwise.
///
/// The input length must fit the tokens' 32-bit line and column counters,
/// which never exceed the input length plus one.
pub fn tokenize_code(code: String) -> (r: Tokens)
    requires
        code@.len() <= 0x7FFF_FFFE,
    ensures
        r@ == scan_spec(code@),
        r@.tokens.len() >= 1,
        r@.tokens.last().kind == TokenType::EOF,
        r@.tokens.last().lexeme == Seq::<char>::empty(),
{
    let r = process_tokens(code);
    proof {
        lemma_scan_eof_invariant(code@);
    }
    r
}

/// No token that the scan pass itself yields has kind EOF: the EOF token is
/// appended exactly once, afterwards.
proof fn lemma_scan_from_no_eof(s: Seq<char>, i: int, line: int, col: int)
    ensures
        forall|k: int|
            0 <= k < scan_from(s, i, line, col).tokens.len() ==> #[trigger] scan_from(
                s,
                i,
                line,
                col,
            ).tokens[k].kind != TokenType::EOF,
    decreases s.len() - i,
{
    if 0 <= i < s.len() {
        let c = s[i];
        let col1 = col + 1;
        if single_char_kind(c) is Some {
            lemma_scan_from_no_eof(s, i + 1, line, col1);
        } else if is_composite_start(c) {
            if i + 1 < s.len() && s[i + 1] == '=' {
                lemma_scan_from_no_eof(s, i + 2, line, col1);
            } else {
                lemma_scan_from_no_eof(s, i + 1, line, col1);
            }
        } else if c == '/' {
            if i + 1 < s.len() && s[i + 1] == '/' {
                lemma_line_end_bounds(s, i + 1);
                lemma_scan_from_no_eof(s, line_end(s, i + 1), line, col1);
            } else {
                lemma_scan_from_no_eof(s, i + 1, line, col1);
            }
        } else if c == '"' {
            let q = string_end(s, i + 1);
            lemma_string_end_bounds(s, i + 1);
            if q < s.len() {
                lemma_scan_from_no_eof(s, q + 1, line + newlines_in(s.subrange(i + 1, q)), col1 + q - i);
            }
        } else if c == '\n' {
            lemma_scan_from_no_eof(s, i + 1, line + 1, 1);
        } else if c == ' ' || c == '\r' || c == '\t' {
            lemma_scan_from_no_eof(s, i + 1, line, col1);
        } else if is_ident_start(c) {
            lemma_ident_end_bounds(s, i + 1);
            lemma_scan_from_no_eof(s, ident_end(s, i + 1), line, col1 + ident_end(s, i + 1) - i
                - 1);
        } else if is_digit(c) {
            assert(number_end(s, i) > i) by {
                assert(digits_end(s, i) == digits_end(s, i + 1));
                lemma_digits_end_bounds(s, i + 1);
                let d = digits_end(s, i);
                if d < s.len() && s[d] == '.' {
                    lemma_digits_end_bounds(s, d + 1);
                }
            }
            lemma_number_end_bounds(s, i);
            lemma_scan_from_no_eof(s, number_end(s, i), line, col1 + number_end(s, i) - i - 1);
        } else {
            lemma_scan_from_no_eof(s, i + 1, line, col1);
        }
    }
}

/// The EOF invariant: for every input, the empty one included, the token
/// sequence ends with an EOF token with an empty lexeme and no value, and no
/// earlier token has kind EOF.
pub proof fn lemma_scan_eof_invariant(s: Seq<char>)
    ensures
        scan_spec(s).tokens.len() >= 1,
        scan_spec(s).tokens.last().kind == TokenType::EOF,
        scan_spec(s).tokens.last().lexeme == Seq::<char>::empty(),
        scan_spec(s).tokens.last().value is None,
        forall|k: int|
            0 <= k < scan_spec(s).tokens.len() - 1 ==> #[trigger] scan_spec(s).tokens[k].kind
                != TokenType::EOF,
{
    lemma_scan_from_no_eof(s, 0, 1, 0);
    assert(Seq::<char>::empty() =~= seq![]);
}

/// A scan step that reports a diagnostic leaves the fault flag on and the
/// gathered diagnostics nonempty.
proof fn lemma_with_diagnostic_iff(x: SpecScan, d: SpecDiagnostic, rest: SpecScan)
    requires
        x == with_diagnostic(d, rest),
    ensures
        x.fault <==> x.diagnostics.len() > 0,
{
}

/// The scan from any position reports a fault exactly when it gathers a
/// diagnostic.
proof fn lemma_scan_from_fault_iff_diags(s: Seq<char>, i: int, line: int, col: int)
    ensures
        scan_from(s, i, line, col).fault <==> scan_from(s, i, line, col).diagnostics.len() > 0,
    decreases s.len() - i,
{
    if 0 <= i < s.len() {
        let c = s[i];
        let col1 = col + 1;
        if single_char_kind(c) is Some {
            lemma_scan_from_fault_iff_diags(s, i + 1, line, col1);
        } else if is_composite_start(c) {
            if i + 1 < s.len() && s[i + 1] == '=' {
                lemma_scan_from_fault_iff_diags(s, i + 2, line, col1);
            } else {
                lemma_scan_from_fault_iff_diags(s, i + 1, line, col1);
            }
        } else if c == '/' {
            if i + 1 < s.len() && s[i + 1] == '/' {
                lemma_line_end_bounds(s, i + 1);
                lemma_scan_from_fault_iff_diags(s, line_end(s, i + 1), line, col1);
            } else {
                lemma_scan_from_fault_iff_diags(s, i + 1, line, col1);
            }
        } else if c == '"' {
            let q = string_end(s, i + 1);
            lemma_string_end_bounds(s, i + 1);
            if q < s.len() {
                lemma_scan_from_fault_iff_diags(s, q + 1, line + newlines_in(s.subrange(i + 1, q)), col1 + q - i);
            }
        } else if c == '\n' {
            lemma_scan_from_fault_iff_diags(s, i + 1, line + 1, 1);
        } else if c == ' ' || c == '\r' || c == '\t' {
            lemma_scan_from_fault_iff_diags(s, i + 1, line, col1);
        } else if is_ident_start(c) {
            lemma_ident_end_bounds(s, i + 1);
            lemma_scan_from_fault_iff_diags(
                s,
                ident_end(s, i + 1),
                line,
                col1 + ident_end(s, i + 1) - i - 1,
            );
        } else if is_digit(c) {
            assert(number_end(s, i) > i) by {
                assert(digits_end(s, i) == digits_end(s, i + 1));
                lemma_digits_end_bounds(s, i + 1);
                let d = digits_end(s, i);
                if d < s.len() && s[d] == '.' {
                    lemma_digits_end_bounds(s, d + 1);
                }
            }
            lemma_number_end_bounds(s, i);
            lemma_scan_from_fault_iff_diags(
                s,
                number_end(s, i),
                line,
                col1 + number_end(s, i) - i - 1,
            );
        } else {
            lemma_scan_from_fault_iff_diags(s, i + 1, line, col1);
            let rest = scan_from(s, i + 1, line, col1);
            let d = SpecDiagnostic::UnexpectedCharacter { line, ch: c };
            lemma_with_diagnostic_iff(scan_from(s, i, line, col), d, rest);
        }
    }
}

/// The sticky fault status: the status code is 65 exactly when some lexical
/// fault was reported, and 0 otherwise; later successful tokens do not clear
/// it.
pub proof fn lemma_status_iff_diagnostics(s: Seq<char>)
    ensures
        scan_spec(s).code == 65 <==> scan_spec(s).diagnostics.len() > 0,
        scan_spec(s).code == 65 || scan_spec(s).code == 0,
{
    lemma_scan_from_fault_iff_diags(s, 0, 1, 0);
}

/// Determinism: scanning is a function of the input characters alone, so two
/// scans of the same input are structurally identical. `tokenize_code` pins
/// its result to `scan_spec`, so any two of its results on one input agree.
pub proof fn lemma_tokenize_deterministic(s: Seq<char>, r1: SpecTokens, r2: SpecTokens)
    requires
        r1 == scan_spec(s),
        r2 == scan_spec(s),
    ensures
        r1 == r2,
{
}

/// Composite operator disambiguation: at `=`, `!`, `<` or `>` followed by
/// `=`, the scan emits one two-character operator token spanning both
/// characters and continues after them, so `!=` is one BANG_EQUAL token and
/// never a BANG followed by an EQUAL; not followed by `=`, it emits the
/// one-character operator token and continues after that character alone.
pub proof fn lemma_composite_disambiguation(s: Seq<char>, i: int, line: int, col: int)
    requires
        0 <= i < s.len(),
        is_composite_start(s[i]),
    ensures
        i + 1 < s.len() && s[i + 1] == '=' ==> scan_from(s, i, line, col) == with_token(
            spec_two_char_token(composite_kind(s[i]), s[i], line, col + 1),
            scan_from(s, i + 2, line, col + 1),
        ),
        !(i + 1 < s.len() && s[i + 1] == '=') ==> scan_from(s, i, line, col) == with_token(
            spec_single_op_token(simple_kind(s[i]), s[i], line, col + 1),
            scan_from(s, i + 1, line, col + 1),
        ),
        scan_from(s, i, line, col).tokens.len() >= 1,
{
}

} // verus!
