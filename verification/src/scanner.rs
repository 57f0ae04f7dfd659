//! The scanner: turns the characters of a Dove program into tokens.
use vstd::prelude::*;
use crate::text::{string_from_range, string_of};
use crate::importer::well_formed_tokens;
use crate::token::{Token, TokenType, TokenView, Literal, LiteralView, keyword_type, lookup_keyword, tokens_view};

verus! {

/// `char::is_alphabetic` (the Unicode `Alphabetic` property).
pub uninterp spec fn char_is_alphabetic(c: char) -> bool;

/// `char::is_alphanumeric` (`Alphabetic` or `Numeric` in Unicode).
pub uninterp spec fn char_is_alphanumeric(c: char) -> bool;

/// An ASCII letter.
pub open spec fn is_ascii_letter(c: char) -> bool {
    ('a' <= c && c <= 'z') || ('A' <= c && c <= 'Z')
}

/// Whether `c` is alphabetic: among ASCII characters exactly the letters,
/// and beyond ASCII as the Unicode tables say.
pub open spec fn alphabetic(c: char) -> bool {
    if c <= '\x7f' {
        is_ascii_letter(c)
    } else {
        char_is_alphabetic(c)
    }
}

/// Whether `c` is alphanumeric: among ASCII characters exactly the letters
/// and the decimal digits, and beyond ASCII as the Unicode tables say.
pub open spec fn alphanumeric(c: char) -> bool {
    if c <= '\x7f' {
        is_ascii_letter(c) || ('0' <= c && c <= '9')
    } else {
        char_is_alphanumeric(c)
    }
}

/// Calls `char::is_alphabetic`, which tells whether `c` has the Unicode
/// `Alphabetic` property. Among ASCII characters those are exactly the
/// letters `a`-`z` and `A`-`Z`; beyond ASCII the result is named, since the
/// Unicode tables it consults take pages to state.
#[verifier::external_body]
fn is_alphabetic(c: char) -> (r: bool)
    ensures
        c <= '\x7f' ==> r == is_ascii_letter(c),
        c > '\x7f' ==> r == char_is_alphabetic(c),
{
    c.is_alphabetic()
}

/// Calls `char::is_alphanumeric`, which tells whether `c` has the Unicode
/// `Alphabetic` or `Numeric` property. Among ASCII characters those are
/// exactly the letters and the digits `0`-`9`; beyond ASCII the result is
/// named, since the Unicode tables it consults take pages to state.
#[verifier::external_body]
fn is_alphanumeric(c: char) -> (r: bool)
    ensures
        c <= '\x7f' ==> r == (is_ascii_letter(c) || ('0' <= c && c <= '9')),
        c > '\x7f' ==> r == char_is_alphanumeric(c),
{
    c.is_alphanumeric()
}

/// A decimal digit (`char::is_digit(10)`).
pub open spec fn is_digit(c: char) -> bool {
    '0' <= c && c <= '9'
}

fn is_digit_exec(c: char) -> (r: bool)
    ensures
        r == is_digit(c),
{
    '0' <= c && c <= '9'
}

/// Why a source cannot be scanned.
#[derive(Clone, Copy, Debug, PartialEq, Eq, Structural)]
pub enum ScanError {
    /// A character that starts no token.
    UnexpectedCharacter(char),
    /// A string with no closing `"`.
    UnterminatedString,
    /// A `/*` comment with no closing `*/`.
    UnterminatedBlockComment,
}

/// The character at `i`, or `'\0'` past the end.
pub open spec fn char_at(src: Seq<char>, i: int) -> char {
    if 0 <= i < src.len() {
        src[i]
    } else {
        '\0'
    }
}

/// The end of the run of digits that starts at `i`.
pub open spec fn digits_end(src: Seq<char>, i: int) -> int
    decreases src.len() - i,
{
    if 0 <= i < src.len() && is_digit(src[i]) {
        digits_end(src, i + 1)
    } else {
        i
    }
}

/// The end of a number whose first digit stands before `i`: more digits,
/// then optionally a `.` followed by at least one digit and more digits.
pub open spec fn number_end(src: Seq<char>, i: int) -> int {
    let d = digits_end(src, i);
    if char_at(src, d) == '.' && is_digit(char_at(src, d + 1)) {
        digits_end(src, d + 1)
    } else {
        d
    }
}

/// The end of an identifier whose first letter stands before `i`: letters,
/// digits and underscores.
pub open spec fn ident_end(src: Seq<char>, i: int) -> int
    decreases src.len() - i,
{
    if 0 <= i < src.len() && (alphanumeric(src[i]) || src[i] == '_') {
        ident_end(src, i + 1)
    } else {
        i
    }
}

/// The position of the first line break at or after `i` (the end if none).
pub open spec fn line_end(src: Seq<char>, i: int) -> int
    decreases src.len() - i,
{
    if 0 <= i < src.len() && src[i] != '\n' {
        line_end(src, i + 1)
    } else {
        i
    }
}

/// The position of the first `"` at or after `i` (the end if none).
pub open spec fn quote_end(src: Seq<char>, i: int) -> int
    decreases src.len() - i,
{
    if 0 <= i < src.len() && src[i] != '"' {
        quote_end(src, i + 1)
    } else {
        i
    }
}

/// The position of the first `*/` at or after `i` (the end if none).
pub open spec fn comment_end(src: Seq<char>, i: int) -> int
    decreases src.len() - i,
{
    if 0 <= i < src.len() && !(src[i] == '*' && char_at(src, i + 1) == '/') {
        comment_end(src, i + 1)
    } else {
        i
    }
}

/// The number of line breaks in `src[a..b]`.
pub open spec fn newlines(src: Seq<char>, a: int, b: int) -> nat
    decreases b - a,
{
    if b <= a {
        0
    } else {
        newlines(src, a, b - 1) + if src[b - 1] == '\n' {
            1nat
        } else {
            0nat
        }
    }
}

/// A token without a literal whose text is `src[pos..pos + n]`.
pub open spec fn plain(src: Seq<char>, pos: int, n: int, t: TokenType, line: nat) -> TokenView {
    TokenView { token_type: t, lexeme: src.subrange(pos, pos + n), literal: None, line }
}

/// One step of the scanner at `pos < src.len()` on line `line`: where the
/// next lexeme starts, the line it starts on, and the token read, if any.
pub open spec fn scan_step(src: Seq<char>, pos: int, line: nat) -> Result<
    (int, nat, Option<TokenView>),
    ScanError,
> {
    let c = src[pos];
    let next = char_at(src, pos + 1);
    if c == '(' {
        Ok((pos + 1, line, Some(plain(src, pos, 1, TokenType::LEFT_PAREN, line))))
    } else if c == ')' {
        Ok((pos + 1, line, Some(plain(src, pos, 1, TokenType::RIGHT_PAREN, line))))
    } else if c == '[' {
        Ok((pos + 1, line, Some(plain(src, pos, 1, TokenType::LEFT_BRACKET, line))))
    } else if c == ']' {
        Ok((pos + 1, line, Some(plain(src, pos, 1, TokenType::RIGHT_BRACKET, line))))
    } else if c == '{' {
        Ok((pos + 1, line, Some(plain(src, pos, 1, TokenType::LEFT_BRACE, line))))
    } else if c == '}' {
        Ok((pos + 1, line, Some(plain(src, pos, 1, TokenType::RIGHT_BRACE, line))))
    } else if c == ',' {
        Ok((pos + 1, line, Some(plain(src, pos, 1, TokenType::COMMA, line))))
    } else if c == '.' {
        Ok((pos + 1, line, Some(plain(src, pos, 1, TokenType::DOT, line))))
    } else if c == '-' {
        Ok((pos + 1, line, Some(plain(src, pos, 1, TokenType::MINUS, line))))
    } else if c == '+' {
        Ok((pos + 1, line, Some(plain(src, pos, 1, TokenType::PLUS, line))))
    } else if c == '*' {
        Ok((pos + 1, line, Some(plain(src, pos, 1, TokenType::STAR, line))))
    } else if c == '!' {
        if next == '=' {
            Ok((pos + 2, line, Some(plain(src, pos, 2, TokenType::BANG_EQUAL, line))))
        } else {
            Ok((pos + 1, line, Some(plain(src, pos, 1, TokenType::BANG, line))))
        }
    } else if c == '=' {
        if next == '=' {
            Ok((pos + 2, line, Some(plain(src, pos, 2, TokenType::EQUAL_EQUAL, line))))
        } else {
            Ok((pos + 1, line, Some(plain(src, pos, 1, TokenType::EQUAL, line))))
        }
    } else if c == '<' {
        if next == '=' {
            Ok((pos + 2, line, Some(plain(src, pos, 2, TokenType::LESS_EQUAL, line))))
        } else {
            Ok((pos + 1, line, Some(plain(src, pos, 1, TokenType::LESS, line))))
        }
    } else if c == '>' {
        if next == '=' {
            Ok((pos + 2, line, Some(plain(src, pos, 2, TokenType::GREATER_EQUAL, line))))
        } else {
            Ok((pos + 1, line, Some(plain(src, pos, 1, TokenType::GREATER, line))))
        }
    } else if c == '/' {
        if next == '/' {
            Ok((line_end(src, pos + 2), line, None))
        } else if next == '*' {
            let e = comment_end(src, pos + 2);
            if e >= src.len() {
                Err(ScanError::UnterminatedBlockComment)
            } else {
                Ok((e + 2, line + newlines(src, pos + 2, e), None))
            }
        } else {
            Ok((pos + 1, line, Some(plain(src, pos, 1, TokenType::SLASH, line))))
        }
    } else if c == ' ' || c == '\r' || c == '\t' {
        Ok((pos + 1, line, None))
    } else if c == '\n' {
        Ok((pos + 1, line + 1, Some(plain(src, pos, 1, TokenType::NEWLINE, line))))
    } else if c == '"' {
        let e = quote_end(src, pos + 1);
        if e >= src.len() {
            Err(ScanError::UnterminatedString)
        } else {
            let l = line + newlines(src, pos + 1, e);
            Ok(
                (
                    e + 1,
                    l,
                    Some(
                        TokenView {
                            token_type: TokenType::STRING,
                            lexeme: src.subrange(pos, e + 1),
                            literal: Some(LiteralView::String(src.subrange(pos + 1, e))),
                            line: l,
                        },
                    ),
                ),
            )
        }
    } else if is_digit(c) {
        let e = number_end(src, pos + 1);
        Ok(
            (
                e,
                line,
                Some(
                    TokenView {
                        token_type: TokenType::NUMBER,
                        lexeme: src.subrange(pos, e),
                        literal: Some(LiteralView::Number(src.subrange(pos, e))),
                        line,
                    },
                ),
            ),
        )
    } else if alphabetic(c) {
        let e = ident_end(src, pos + 1);
        let t = match keyword_type(src.subrange(pos, e)) {
            Some(k) => k,
            None => TokenType::IDENTIFIER,
        };
        Ok((e, line, Some(plain(src, pos, e - pos, t, line))))
    } else {
        Err(ScanError::UnexpectedCharacter(c))
    }
}

proof fn lemma_digits_end(src: Seq<char>, i: int)
    requires
        0 <= i <= src.len(),
    ensures
        i <= digits_end(src, i) <= src.len(),
        forall|j: int| i <= j < digits_end(src, i) ==> is_digit(#[trigger] src[j]),
        digits_end(src, i) < src.len() ==> !is_digit(src[digits_end(src, i)]),
    decreases src.len() - i,
{
    if i < src.len() && is_digit(src[i]) {
        lemma_digits_end(src, i + 1);
    }
}

proof fn lemma_ident_end(src: Seq<char>, i: int)
    requires
        0 <= i <= src.len(),
    ensures
        i <= ident_end(src, i) <= src.len(),
    decreases src.len() - i,
{
    if i < src.len() && (alphanumeric(src[i]) || src[i] == '_') {
        lemma_ident_end(src, i + 1);
    }
}

proof fn lemma_line_end(src: Seq<char>, i: int)
    requires
        0 <= i <= src.len(),
    ensures
        i <= line_end(src, i) <= src.len(),
    decreases src.len() - i,
{
    if i < src.len() && src[i] != '\n' {
        lemma_line_end(src, i + 1);
    }
}

proof fn lemma_quote_end(src: Seq<char>, i: int)
    requires
        0 <= i <= src.len(),
    ensures
        i <= quote_end(src, i) <= src.len(),
    decreases src.len() - i,
{
    if i < src.len() && src[i] != '"' {
        lemma_quote_end(src, i + 1);
    }
}

proof fn lemma_comment_end(src: Seq<char>, i: int)
    requires
        0 <= i <= src.len(),
    ensures
        i <= comment_end(src, i) <= src.len(),
        comment_end(src, i) < src.len() ==> comment_end(src, i) + 1 < src.len(),
    decreases src.len() - i,
{
    if i < src.len() && !(src[i] == '*' && char_at(src, i + 1) == '/') {
        lemma_comment_end(src, i + 1);
    }
}

proof fn lemma_newlines_bound(src: Seq<char>, a: int, b: int)
    requires
        a <= b,
    ensures
        newlines(src, a, b) <= b - a,
    decreases b - a,
{
    if a < b {
        lemma_newlines_bound(src, a, b - 1);
    }
}

/// A step moves forward, stays within the source, and counts at most one
/// line per character it passes.
pub proof fn lemma_step_advances(src: Seq<char>, pos: int, line: nat)
    requires
        0 <= pos < src.len(),
    ensures
        scan_step(src, pos, line) matches Ok((next, l, _)) ==> pos < next <= src.len() && line <= l
            <= line + (next - pos),
{
    lemma_digits_end(src, pos + 1);
    lemma_ident_end(src, pos + 1);
    if pos + 2 <= src.len() {
        lemma_line_end(src, pos + 2);
        lemma_comment_end(src, pos + 2);
        let e = comment_end(src, pos + 2);
        lemma_newlines_bound(src, pos + 2, e);
    }
    lemma_quote_end(src, pos + 1);
    lemma_newlines_bound(src, pos + 1, quote_end(src, pos + 1));
    let d = digits_end(src, pos + 1);
    if char_at(src, d) == '.' && is_digit(char_at(src, d + 1)) {
        lemma_digits_end(src, d + 1);
    }
}

/// The tokens read from `src[pos..]` when scanning starts there on line
/// `line`, ending with an end-of-file token; or why the rest cannot be read.
pub open spec fn scan_from(src: Seq<char>, pos: int, line: nat) -> Result<Seq<TokenView>, ScanError>
    decreases src.len() - pos,
{
    if pos < 0 || pos >= src.len() {
        Ok(seq![TokenView { token_type: TokenType::EOF, lexeme: Seq::empty(), literal: None, line }])
    } else {
        match scan_step(src, pos, line) {
            Err(e) => Err(e),
            Ok((next, l, t)) => {
                proof {
                    lemma_step_advances(src, pos, line);
                }
                match scan_from(src, next, l) {
                    Err(e) => Err(e),
                    Ok(rest) => Ok(
                        match t {
                            Some(tok) => seq![tok] + rest,
                            None => rest,
                        },
                    ),
                }
            },
        }
    }
}

proof fn lemma_quote_found(src: Seq<char>, i: int)
    requires
        0 <= i <= src.len(),
    ensures
        quote_end(src, i) < src.len() ==> src[quote_end(src, i)] == '"',
    decreases src.len() - i,
{
    if i < src.len() && src[i] != '"' {
        lemma_quote_found(src, i + 1);
    }
}

/// The token read by one step is never an end-of-file token, and a string
/// token is written between quotes.
proof fn lemma_step_token(src: Seq<char>, pos: int, line: nat)
    requires
        0 <= pos < src.len(),
    ensures
        scan_step(src, pos, line) matches Ok((_, _, Some(t))) ==> {
            &&& t.token_type != TokenType::EOF
            &&& (t.token_type == TokenType::STRING || t.token_type == TokenType::NUMBER)
                ==> t.literal is Some
            &&& t.token_type == TokenType::STRING ==> {
                &&& t.lexeme.len() >= 2
                &&& t.lexeme[0] == '"'
                &&& t.lexeme.last() == '"'
            }
        },
{
    lemma_quote_end(src, pos + 1);
    lemma_quote_found(src, pos + 1);
    lemma_digits_end(src, pos + 1);
    lemma_ident_end(src, pos + 1);
    let d = digits_end(src, pos + 1);
    if char_at(src, d) == '.' && is_digit(char_at(src, d + 1)) {
        lemma_digits_end(src, d + 1);
    }
}

/// Whatever the scanner reads from `src[pos..]` is a well-formed token
/// sequence: it ends with the only end-of-file token, and every string
/// token is written between quotes.
pub proof fn lemma_scan_from_well_formed(src: Seq<char>, pos: int, line: nat)
    ensures
        scan_from(src, pos, line) matches Ok(ts) ==> well_formed_tokens(ts),
    decreases src.len() - pos,
{
    if 0 <= pos < src.len() {
        lemma_step_advances(src, pos, line);
        lemma_step_token(src, pos, line);
        match scan_step(src, pos, line) {
            Ok((next, l, t)) => {
                lemma_scan_from_well_formed(src, next, l);
                match (t, scan_from(src, next, l)) {
                    (Some(tok), Ok(rest)) => {
                        let ts = seq![tok] + rest;
                        assert(ts.last() == rest.last());
                        assert forall|i: int| 0 <= i < ts.len() - 1 implies #[trigger] ts[i].token_type
                            != TokenType::EOF by {
                            if i > 0 {
                                assert(ts[i] == rest[i - 1]);
                            }
                        }
                        assert forall|i: int|
                            0 <= i < ts.len() && #[trigger] ts[i].token_type
                                == TokenType::STRING implies {
                            &&& ts[i].lexeme.len() >= 2
                            &&& ts[i].lexeme[0] == '"'
                            &&& ts[i].lexeme.last() == '"'
                        } by {
                            if i > 0 {
                                assert(ts[i] == rest[i - 1]);
                            }
                        }
                        assert forall|i: int|
                            0 <= i < ts.len() && (#[trigger] ts[i].token_type == TokenType::STRING
                                || ts[i].token_type == TokenType::NUMBER) implies ts[i].literal is Some by {
                            if i > 0 {
                                assert(ts[i] == rest[i - 1]);
                            }
                        }
                    },
                    _ => {},
                }
            },
            Err(_) => {},
        }
    }
}

proof fn lemma_quote_end_at(src: Seq<char>, i: int, e: int)
    requires
        0 <= i <= e < src.len(),
        src[e] == '"',
        forall|k: int| i <= k < e ==> src[k] != '"',
    ensures
        quote_end(src, i) == e,
    decreases e - i,
{
    if i < e {
        lemma_quote_end_at(src, i + 1, e);
    }
}

proof fn lemma_quote_end_none(src: Seq<char>, i: int)
    requires
        0 <= i <= src.len(),
        forall|k: int| i <= k < src.len() ==> src[k] != '"',
    ensures
        quote_end(src, i) >= src.len(),
    decreases src.len() - i,
{
    if i < src.len() {
        lemma_quote_end_none(src, i + 1);
    }
}

/// A string starts at a quote and ends at the next quote, which may follow
/// at once: the text between them, empty or not, is one string token whose
/// literal is that text, and scanning goes on after the closing quote. A
/// quote with no quote after it is an unterminated string.
pub proof fn lemma_string_token(src: Seq<char>, pos: int, line: nat, e: int)
    requires
        0 <= pos < src.len(),
        src[pos] == '"',
    ensures
        pos < e < src.len() && src[e] == '"' && (forall|k: int| pos < k < e ==> src[k] != '"')
            ==> scan_step(src, pos, line) == Ok::<(int, nat, Option<TokenView>), ScanError>(
            (
                e + 1,
                line + newlines(src, pos + 1, e),
                Some(
                    TokenView {
                        token_type: TokenType::STRING,
                        lexeme: src.subrange(pos, e + 1),
                        literal: Some(LiteralView::String(src.subrange(pos + 1, e))),
                        line: line + newlines(src, pos + 1, e),
                    },
                ),
            ),
        ),
        (forall|k: int| pos < k < src.len() ==> src[k] != '"') ==> scan_step(src, pos, line)
            == Err::<(int, nat, Option<TokenView>), ScanError>(ScanError::UnterminatedString),
{
    if pos < e < src.len() && src[e] == '"' && (forall|k: int| pos < k < e ==> src[k] != '"') {
        lemma_quote_end_at(src, pos + 1, e);
    }
    if forall|k: int| pos < k < src.len() ==> src[k] != '"' {
        lemma_quote_end_none(src, pos + 1);
    }
}

/// Every token that a step reads is the source text it stepped over, and a
/// step always moves forward.
pub proof fn lemma_step_lexeme(src: Seq<char>, pos: int, line: nat)
    requires
        0 <= pos < src.len(),
    ensures
        scan_step(src, pos, line) matches Ok((next, _, tok)) ==> pos < next && (tok matches Some(t)
            ==> t.lexeme == src.subrange(pos, next)),
{
    lemma_step_advances(src, pos, line);
}

proof fn lemma_digits_end_at(src: Seq<char>, i: int, d: int)
    requires
        0 <= i <= d <= src.len(),
        forall|k: int| i <= k < d ==> is_digit(#[trigger] src[k]),
        d == src.len() || !is_digit(src[d]),
    ensures
        digits_end(src, i) == d,
    decreases d - i,
{
    if i < d {
        lemma_digits_end_at(src, i + 1, d);
    }
}

proof fn lemma_ident_end_at(src: Seq<char>, i: int, e: int)
    requires
        0 <= i <= e <= src.len(),
        forall|k: int| i <= k < e ==> alphanumeric(#[trigger] src[k]) || src[k] == '_',
        e == src.len() || !(alphanumeric(src[e]) || src[e] == '_'),
    ensures
        ident_end(src, i) == e,
    decreases e - i,
{
    if i < e {
        lemma_ident_end_at(src, i + 1, e);
    }
}

/// A number is the longest run of digits from its first digit, with a `.`
/// and the run of digits after it when a digit follows the `.`: it is one
/// number token whose literal is its text.
pub proof fn lemma_number_token(src: Seq<char>, pos: int, line: nat, d: int, e: int)
    requires
        0 <= pos < d <= src.len(),
        forall|k: int| pos <= k < d ==> is_digit(#[trigger] src[k]),
        d == src.len() || !is_digit(src[d]),
    ensures
        !(d + 1 < src.len() && src[d] == '.' && is_digit(src[d + 1])) ==> scan_step(src, pos, line)
            == Ok::<(int, nat, Option<TokenView>), ScanError>(
            (
                d,
                line,
                Some(
                    TokenView {
                        token_type: TokenType::NUMBER,
                        lexeme: src.subrange(pos, d),
                        literal: Some(LiteralView::Number(src.subrange(pos, d))),
                        line,
                    },
                ),
            ),
        ),
        d + 1 < e <= src.len() && src[d] == '.' && (forall|k: int| d < k < e ==> is_digit(#[trigger] src[k]))
            && (e == src.len() || !is_digit(src[e])) ==> scan_step(src, pos, line) == Ok::<
            (int, nat, Option<TokenView>),
            ScanError,
        >(
            (
                e,
                line,
                Some(
                    TokenView {
                        token_type: TokenType::NUMBER,
                        lexeme: src.subrange(pos, e),
                        literal: Some(LiteralView::Number(src.subrange(pos, e))),
                        line,
                    },
                ),
            ),
        ),
{
    lemma_digits_end_at(src, pos + 1, d);
    if d + 1 < e <= src.len() && src[d] == '.' && (forall|k: int| d < k < e ==> is_digit(#[trigger] src[k]))
        && (e == src.len() || !is_digit(src[e])) {
        lemma_digits_end_at(src, d + 1, e);
    }
}

/// A name is the longest run of letters, digits and underscores from its
/// first letter: one token, of the keyword's kind if it is a keyword and an
/// identifier otherwise.
pub proof fn lemma_name_token(src: Seq<char>, pos: int, line: nat, e: int)
    requires
        0 <= pos < e <= src.len(),
        alphabetic(src[pos]),
        forall|k: int| pos < k < e ==> alphanumeric(#[trigger] src[k]) || src[k] == '_',
        e == src.len() || !(alphanumeric(src[e]) || src[e] == '_'),
    ensures
        scan_step(src, pos, line) == Ok::<(int, nat, Option<TokenView>), ScanError>(
            (
                e,
                line,
                Some(
                    TokenView {
                        token_type: match keyword_type(src.subrange(pos, e)) {
                            Some(k) => k,
                            None => TokenType::IDENTIFIER,
                        },
                        lexeme: src.subrange(pos, e),
                        literal: None,
                        line,
                    },
                ),
            ),
        ),
{
    lemma_ident_end_at(src, pos + 1, e);
}

/// `!`, `=`, `<` and `>` followed by `=` are one two-character token (`!=`,
/// `==`, `<=`, `>=`); otherwise each is a token of one character.
pub proof fn lemma_compound_operators(src: Seq<char>, pos: int, line: nat)
    requires
        0 <= pos < src.len(),
        src[pos] == '!' || src[pos] == '=' || src[pos] == '<' || src[pos] == '>',
    ensures
        ({
            let c = src[pos];
            let two = pos + 1 < src.len() && src[pos + 1] == '=';
            let t = if c == '!' {
                if two { TokenType::BANG_EQUAL } else { TokenType::BANG }
            } else if c == '=' {
                if two { TokenType::EQUAL_EQUAL } else { TokenType::EQUAL }
            } else if c == '<' {
                if two { TokenType::LESS_EQUAL } else { TokenType::LESS }
            } else {
                if two { TokenType::GREATER_EQUAL } else { TokenType::GREATER }
            };
            let n = if two { 2int } else { 1int };
            scan_step(src, pos, line) == Ok::<(int, nat, Option<TokenView>), ScanError>(
                (
                    pos + n,
                    line,
                    Some(TokenView { token_type: t, lexeme: src.subrange(pos, pos + n), literal: None, line }),
                ),
            )
        }),
{
}

/// The kind of token that a single character of punctuation makes: `(`,
/// `)`, `[`, `]`, `{`, `}`, `,`, `.`, `-`, `+` and `*`.
pub open spec fn punctuation(c: char) -> Option<TokenType> {
    if c == '(' {
        Some(TokenType::LEFT_PAREN)
    } else if c == ')' {
        Some(TokenType::RIGHT_PAREN)
    } else if c == '[' {
        Some(TokenType::LEFT_BRACKET)
    } else if c == ']' {
        Some(TokenType::RIGHT_BRACKET)
    } else if c == '{' {
        Some(TokenType::LEFT_BRACE)
    } else if c == '}' {
        Some(TokenType::RIGHT_BRACE)
    } else if c == ',' {
        Some(TokenType::COMMA)
    } else if c == '.' {
        Some(TokenType::DOT)
    } else if c == '-' {
        Some(TokenType::MINUS)
    } else if c == '+' {
        Some(TokenType::PLUS)
    } else if c == '*' {
        Some(TokenType::STAR)
    } else {
        None
    }
}

/// A character of punctuation is a token of one character, of its kind; so
/// is a `/` that starts no comment.
pub proof fn lemma_punctuation(src: Seq<char>, pos: int, line: nat)
    requires
        0 <= pos < src.len(),
    ensures
        punctuation(src[pos]) matches Some(k) ==> scan_step(src, pos, line) == Ok::<
            (int, nat, Option<TokenView>),
            ScanError,
        >((pos + 1, line, Some(TokenView { token_type: k, lexeme: src.subrange(pos, pos + 1), literal: None, line }))),
        src[pos] == '/' && !(pos + 1 < src.len() && (src[pos + 1] == '/' || src[pos + 1] == '*'))
            ==> scan_step(src, pos, line) == Ok::<(int, nat, Option<TokenView>), ScanError>(
            (
                pos + 1,
                line,
                Some(TokenView { token_type: TokenType::SLASH, lexeme: src.subrange(pos, pos + 1), literal: None, line }),
            ),
        ),
{
}

/// A line break is a token of its own and moves to the next line; a space,
/// tab or carriage return is skipped; a `//` comment is skipped up to the
/// line break that ends it, which is read next.
pub proof fn lemma_layout(src: Seq<char>, pos: int, line: nat, e: int)
    requires
        0 <= pos < src.len(),
    ensures
        src[pos] == '\n' ==> scan_step(src, pos, line) == Ok::<(int, nat, Option<TokenView>), ScanError>(
            (
                pos + 1,
                line + 1,
                Some(TokenView { token_type: TokenType::NEWLINE, lexeme: seq!['\n'], literal: None, line }),
            ),
        ),
        src[pos] == ' ' || src[pos] == '\t' || src[pos] == '\r' ==> scan_step(src, pos, line) == Ok::<
            (int, nat, Option<TokenView>),
            ScanError,
        >((pos + 1, line, None)),
        src[pos] == '/' && pos + 1 < src.len() && src[pos + 1] == '/' && pos + 2 <= e <= src.len() && (
        forall|k: int| pos + 2 <= k < e ==> #[trigger] src[k] != '\n') && (e == src.len() || src[e]
            == '\n') ==> scan_step(src, pos, line) == Ok::<(int, nat, Option<TokenView>), ScanError>(
            (e, line, None),
        ),
{
    if src[pos] == '\n' {
        assert(src.subrange(pos, pos + 1) =~= seq!['\n']);
    }
    if src[pos] == '/' && pos + 1 < src.len() && src[pos + 1] == '/' && pos + 2 <= e <= src.len() && (
    forall|k: int| pos + 2 <= k < e ==> #[trigger] src[k] != '\n') && (e == src.len() || src[e] == '\n') {
        lemma_line_end_at(src, pos + 2, e);
    }
}

proof fn lemma_line_end_at(src: Seq<char>, i: int, e: int)
    requires
        0 <= i <= e <= src.len(),
        forall|k: int| i <= k < e ==> #[trigger] src[k] != '\n',
        e == src.len() || src[e] == '\n',
    ensures
        line_end(src, i) == e,
    decreases e - i,
{
    if i < e {
        lemma_line_end_at(src, i + 1, e);
    }
}

/// Where `*/` starts at `i`.
pub open spec fn closes_comment(src: Seq<char>, i: int) -> bool {
    0 <= i && i + 1 < src.len() && src[i] == '*' && src[i + 1] == '/'
}

proof fn lemma_comment_end_at(src: Seq<char>, i: int, k: int)
    requires
        0 <= i <= k <= src.len(),
        forall|j: int| i <= j < k ==> !closes_comment(src, j),
        k < src.len() ==> closes_comment(src, k),
    ensures
        comment_end(src, i) == k,
    decreases k - i,
{
    if i < k {
        assert(!closes_comment(src, i));
        lemma_comment_end_at(src, i + 1, k);
    }
}

/// A `/*` comment runs to the first `*/` after it and is skipped, counting
/// the line breaks inside it; with no `*/` after it, it is unterminated.
pub proof fn lemma_block_comment(src: Seq<char>, pos: int, line: nat, k: int)
    requires
        0 <= pos && pos + 1 < src.len(),
        src[pos] == '/' && src[pos + 1] == '*',
        pos + 2 <= k <= src.len(),
        forall|j: int| pos + 2 <= j < k ==> !closes_comment(src, j),
    ensures
        closes_comment(src, k) ==> scan_step(src, pos, line) == Ok::<(int, nat, Option<TokenView>), ScanError>(
            (k + 2, line + newlines(src, pos + 2, k), None),
        ),
        k == src.len() ==> scan_step(src, pos, line) == Err::<(int, nat, Option<TokenView>), ScanError>(
            ScanError::UnterminatedBlockComment,
        ),
{
    if closes_comment(src, k) || k == src.len() {
        lemma_comment_end_at(src, pos + 2, k);
    }
}

/// The tokens of a whole program, which starts on line 1.
pub open spec fn scan(src: Seq<char>) -> Result<Seq<TokenView>, ScanError> {
    scan_from(src, 0, 1)
}

pub struct Scanner {
    source: Vec<char>,
    tokens: Vec<Token>,
    start: usize,
    current: usize,
    line: usize,
}

/// What the tokens read so far followed by the rest of the source give.
pub open spec fn resume(prefix: Seq<TokenView>, rest: Result<Seq<TokenView>, ScanError>) -> Result<
    Seq<TokenView>,
    ScanError,
> {
    match rest {
        Ok(r) => Ok(prefix + r),
        Err(e) => Err(e),
    }
}

proof fn lemma_resume_step(
    before: Seq<TokenView>,
    t: Option<TokenView>,
    rest: Result<Seq<TokenView>, ScanError>,
)
    ensures
        resume(
            before,
            match rest {
                Err(e) => Err(e),
                Ok(r) => Ok(
                    match t {
                        Some(tok) => seq![tok] + r,
                        None => r,
                    },
                ),
            },
        ) == resume(
            match t {
                Some(tok) => before.push(tok),
                None => before,
            },
            rest,
        ),
{
    match rest {
        Ok(r) => match t {
            Some(tok) => {
                assert(before + (seq![tok] + r) =~= before.push(tok) + r);
            },
            None => {},
        },
        Err(_) => {},
    }
}

impl Scanner {
    pub closed spec fn spec_source(&self) -> Seq<char> {
        self.source@
    }

    pub fn new(source: Vec<char>) -> (r: Scanner)
        requires
            source@.len() < usize::MAX,
        ensures
            r.spec_source() == source@,
    {
        Scanner { source, tokens: Vec::new(), start: 0, current: 0, line: 1 }
    }

    /// The tokens of the source, ending with an end-of-file token.
    pub fn scan_tokens(self) -> (r: Vec<Token>)
        requires
            self.spec_source().len() < usize::MAX,
            scan(self.spec_source()) is Ok,
        ensures
            scan(self.spec_source()) == Ok::<Seq<TokenView>, ScanError>(tokens_view(r@)),
            well_formed_tokens(tokens_view(r@)),
    {
        match self.try_scan_tokens() {
            Ok(t) => t,
            Err(_) => Vec::new(),
        }
    }

    /// The tokens of the source, ending with an end-of-file token, or why
    /// the source cannot be scanned.
    pub fn try_scan_tokens(self) -> (r: Result<Vec<Token>, ScanError>)
        requires
            self.spec_source().len() < usize::MAX,
        ensures
            match r {
                Ok(t) => scan(self.spec_source()) == Ok::<Seq<TokenView>, ScanError>(
                    tokens_view(t@),
                ) && well_formed_tokens(tokens_view(t@)),
                Err(e) => scan(self.spec_source()) == Err::<Seq<TokenView>, ScanError>(e),
            },
    {
        let ghost src = self.source@;
        assert(self.spec_source() == src);
        let mut s = Scanner { source: self.source, tokens: Vec::new(), start: 0, current: 0, line: 1 };
        assert(tokens_view(s.tokens@) =~= Seq::<TokenView>::empty());
        while s.current < s.source.len()
            invariant
                s.source@ == src,
                src == self.spec_source(),
                src.len() < usize::MAX,
                s.current <= src.len(),
                s.line <= s.current + 1,
                scan(src) == resume(
                    tokens_view(s.tokens@),
                    scan_from(src, s.current as int, s.line as nat),
                ),
            decreases src.len() - s.current,
        {
            s.start = s.current;
            let ghost before = tokens_view(s.tokens@);
            let ghost pos = s.current as int;
            let ghost line = s.line as nat;
            let r = s.scan_token();
            proof {
                lemma_step_advances(src, pos, line);
            }
            match r {
                Ok(()) => {
                    proof {
                        let (next, l, t) = scan_step(src, pos, line).unwrap();
                        lemma_resume_step(before, t, scan_from(src, next, l));
                    }
                },
                Err(e) => {
                    assert(scan_from(src, pos, line) == Err::<Seq<TokenView>, ScanError>(e));
                    return Err(e);
                },
            }
        }
        let eof = Token::new(TokenType::EOF, String::new(), None, s.line);
        assert(scan_from(src, s.current as int, s.line as nat) == Ok::<Seq<TokenView>, ScanError>(
            seq![eof@],
        ));
        let ghost before = tokens_view(s.tokens@);
        s.tokens.push(eof);
        assert(tokens_view(s.tokens@) =~= before.push(eof@));
        assert(eof@.lexeme =~= Seq::<char>::empty());
        assert(before + seq![eof@] =~= before.push(eof@));
        proof {
            lemma_scan_from_well_formed(src, 0, 1);
        }
        Ok(s.tokens)
    }

    fn peek(&self) -> (c: char)
        ensures
            c == char_at(self.source@, self.current as int),
    {
        if self.current >= self.source.len() {
            '\0'
        } else {
            self.source[self.current]
        }
    }

    fn peek_next(&self) -> (c: char)
        requires
            self.current < usize::MAX,
        ensures
            c == char_at(self.source@, self.current + 1),
    {
        if self.current + 1 >= self.source.len() {
            '\0'
        } else {
            self.source[self.current + 1]
        }
    }

    /// Adds a token whose text is `source[start..current]`.
    fn add_token(&mut self, token_type: TokenType, literal: Option<Literal>)
        requires
            old(self).start <= old(self).current <= old(self).source@.len(),
        ensures
            final(self).source == old(self).source,
            final(self).start == old(self).start,
            final(self).current == old(self).current,
            final(self).line == old(self).line,
            tokens_view(final(self).tokens@) == tokens_view(old(self).tokens@).push(
                TokenView {
                    token_type,
                    lexeme: old(self).source@.subrange(
                        old(self).start as int,
                        old(self).current as int,
                    ),
                    literal: crate::token::literal_option_view(literal),
                    line: old(self).line as nat,
                },
            ),
    {
        let lexeme = string_from_range(&self.source, self.start, self.current);
        let t = Token::new(token_type, lexeme, literal, self.line);
        let ghost before = tokens_view(self.tokens@);
        self.tokens.push(t);
        assert(tokens_view(self.tokens@) =~= before.push(t@));
    }

    /// Reads one lexeme starting at `current`, as [`scan_step`] describes.
    fn scan_token(&mut self) -> (r: Result<(), ScanError>)
        requires
            old(self).start == old(self).current,
            old(self).current < old(self).source@.len(),
            old(self).source@.len() < usize::MAX,
            old(self).line <= old(self).current + 1,
        ensures
            final(self).source == old(self).source,
            match scan_step(old(self).source@, old(self).current as int, old(self).line as nat) {
                Err(e) => r == Err::<(), ScanError>(e),
                Ok((next, l, t)) => {
                    &&& r is Ok
                    &&& final(self).current == next
                    &&& final(self).line == l
                    &&& tokens_view(final(self).tokens@) == match t {
                        Some(tok) => tokens_view(old(self).tokens@).push(tok),
                        None => tokens_view(old(self).tokens@),
                    }
                },
            },
    {
        let ghost src = self.source@;
        let ghost pos = self.current as int;
        proof {
            lemma_step_advances(src, pos, self.line as nat);
        }
        let c = self.source[self.current];
        let n = self.peek_next();
        self.current = self.current + 1;
        if c == '(' {
            self.add_token(TokenType::LEFT_PAREN, None);
        } else if c == ')' {
            self.add_token(TokenType::RIGHT_PAREN, None);
        } else if c == '[' {
            self.add_token(TokenType::LEFT_BRACKET, None);
        } else if c == ']' {
            self.add_token(TokenType::RIGHT_BRACKET, None);
        } else if c == '{' {
            self.add_token(TokenType::LEFT_BRACE, None);
        } else if c == '}' {
            self.add_token(TokenType::RIGHT_BRACE, None);
        } else if c == ',' {
            self.add_token(TokenType::COMMA, None);
        } else if c == '.' {
            self.add_token(TokenType::DOT, None);
        } else if c == '-' {
            self.add_token(TokenType::MINUS, None);
        } else if c == '+' {
            self.add_token(TokenType::PLUS, None);
        } else if c == '*' {
            self.add_token(TokenType::STAR, None);
        } else if c == '!' || c == '=' || c == '<' || c == '>' {
            let two = n == '=';
            if two {
                self.current = self.current + 1;
            }
            let t = if c == '!' {
                if two {
                    TokenType::BANG_EQUAL
                } else {
                    TokenType::BANG
                }
            } else if c == '=' {
                if two {
                    TokenType::EQUAL_EQUAL
                } else {
                    TokenType::EQUAL
                }
            } else if c == '<' {
                if two {
                    TokenType::LESS_EQUAL
                } else {
                    TokenType::LESS
                }
            } else {
                if two {
                    TokenType::GREATER_EQUAL
                } else {
                    TokenType::GREATER
                }
            };
            self.add_token(t, None);
        } else if c == '/' {
            if n == '/' {
                self.current = self.current + 1;
                self.current = skip_line(&self.source, self.current);
            } else if n == '*' {
                self.current = self.current + 1;
                return self.block_comment();
            } else {
                self.add_token(TokenType::SLASH, None);
            }
        } else if c == ' ' || c == '\r' || c == '\t' {
        } else if c == '\n' {
            self.add_token(TokenType::NEWLINE, None);
            self.line = self.line + 1;
        } else if c == '"' {
            return self.string();
        } else if is_digit_exec(c) {
            self.number();
        } else if is_alphabetic(c) {
            self.identifier();
        } else {
            return Err(ScanError::UnexpectedCharacter(c));
        }
        Ok(())
    }

    fn identifier(&mut self)
        requires
            old(self).start < old(self).current <= old(self).source@.len(),
            old(self).current == old(self).start + 1,
        ensures
            final(self).source == old(self).source,
            final(self).line == old(self).line,
            final(self).current == ident_end(old(self).source@, old(self).current as int),
            tokens_view(final(self).tokens@) == tokens_view(old(self).tokens@).push(
                plain(
                    old(self).source@,
                    old(self).start as int,
                    final(self).current - old(self).start,
                    match keyword_type(
                        old(self).source@.subrange(
                            old(self).start as int,
                            final(self).current as int,
                        ),
                    ) {
                        Some(k) => k,
                        None => TokenType::IDENTIFIER,
                    },
                    old(self).line as nat,
                ),
            ),
    {
        let ghost src = self.source@;
        let ghost from = self.current as int;
        proof {
            lemma_ident_end(src, from);
        }
        while self.current < self.source.len() && (is_alphanumeric(self.source[self.current])
            || self.source[self.current] == '_')
            invariant
                self.source == old(self).source,
                self.source@ == src,
                self.start == old(self).start,
                self.tokens == old(self).tokens,
                self.line == old(self).line,
                old(self).start < from <= self.current <= src.len(),
                ident_end(src, self.current as int) == ident_end(src, from),
            decreases src.len() - self.current,
        {
            self.current = self.current + 1;
        }
        let token_type = match lookup_keyword(&self.source, self.start, self.current) {
            Some(t) => t,
            None => TokenType::IDENTIFIER,
        };
        self.add_token(token_type, None);
    }

    fn number(&mut self)
        requires
            old(self).start < old(self).current <= old(self).source@.len(),
            old(self).source@.len() < usize::MAX,
        ensures
            final(self).source == old(self).source,
            final(self).line == old(self).line,
            final(self).current == number_end(old(self).source@, old(self).current as int),
            tokens_view(final(self).tokens@) == tokens_view(old(self).tokens@).push(
                TokenView {
                    token_type: TokenType::NUMBER,
                    lexeme: old(self).source@.subrange(
                        old(self).start as int,
                        final(self).current as int,
                    ),
                    literal: Some(
                        LiteralView::Number(
                            old(self).source@.subrange(
                                old(self).start as int,
                                final(self).current as int,
                            ),
                        ),
                    ),
                    line: old(self).line as nat,
                },
            ),
    {
        let ghost src = self.source@;
        proof {
            lemma_digits_end(src, self.current as int);
        }
        self.current = skip_digits(&self.source, self.current);
        if self.peek() == '.' && is_digit_exec(self.peek_next()) {
            self.current = self.current + 1;
            proof {
                lemma_digits_end(src, self.current as int);
            }
            self.current = skip_digits(&self.source, self.current);
        }
        let text = string_from_range(&self.source, self.start, self.current);
        self.add_token(TokenType::NUMBER, Some(Literal::Number(text)));
    }

    fn string(&mut self) -> (r: Result<(), ScanError>)
        requires
            old(self).start < old(self).current <= old(self).source@.len(),
            old(self).current == old(self).start + 1,
            old(self).source@.len() < usize::MAX,
            old(self).line <= old(self).current,
        ensures
            final(self).source == old(self).source,
            ({
                let src = old(self).source@;
                let e = quote_end(src, old(self).current as int);
                if e >= src.len() {
                    r == Err::<(), ScanError>(ScanError::UnterminatedString)
                } else {
                    let l = old(self).line as nat + newlines(src, old(self).current as int, e);
                    &&& r is Ok
                    &&& final(self).current == e + 1
                    &&& final(self).line == l
                    &&& tokens_view(final(self).tokens@) == tokens_view(old(self).tokens@).push(
                        TokenView {
                            token_type: TokenType::STRING,
                            lexeme: src.subrange(old(self).start as int, e + 1),
                            literal: Some(
                                LiteralView::String(src.subrange(old(self).current as int, e)),
                            ),
                            line: l,
                        },
                    )
                }
            }),
    {
        let ghost src = self.source@;
        let ghost from = self.current as int;
        let ghost line0 = self.line as nat;
        proof {
            lemma_quote_end(src, from);
        }
        while self.current < self.source.len() && self.source[self.current] != '"'
            invariant
                self.source == old(self).source,
                self.source@ == src,
                self.start == old(self).start,
                self.tokens == old(self).tokens,
                src.len() < usize::MAX,
                old(self).start < from <= self.current <= src.len(),
                quote_end(src, self.current as int) == quote_end(src, from),
                self.line == line0 + newlines(src, from, self.current as int),
                self.line <= self.current,
            decreases src.len() - self.current,
        {
            if self.source[self.current] == '\n' {
                self.line = self.line + 1;
            }
            self.current = self.current + 1;
        }
        if self.current >= self.source.len() {
            return Err(ScanError::UnterminatedString);
        }
        self.current = self.current + 1;
        let text = string_from_range(&self.source, self.start + 1, self.current - 1);
        self.add_token(TokenType::STRING, Some(Literal::String(text)));
        Ok(())
    }

    fn block_comment(&mut self) -> (r: Result<(), ScanError>)
        requires
            old(self).current <= old(self).source@.len(),
            old(self).source@.len() < usize::MAX,
            old(self).line <= old(self).current,
        ensures
            final(self).source == old(self).source,
            final(self).tokens == old(self).tokens,
            ({
                let src = old(self).source@;
                let e = comment_end(src, old(self).current as int);
                if e >= src.len() {
                    r == Err::<(), ScanError>(ScanError::UnterminatedBlockComment)
                } else {
                    &&& r is Ok
                    &&& final(self).current == e + 2
                    &&& final(self).line == old(self).line + newlines(
                        src,
                        old(self).current as int,
                        e,
                    )
                }
            }),
    {
        let ghost src = self.source@;
        let ghost from = self.current as int;
        let ghost line0 = self.line as nat;
        proof {
            lemma_comment_end(src, from);
        }
        while self.current < self.source.len() && !(self.peek() == '*' && self.peek_next() == '/')
            invariant
                self.source == old(self).source,
                self.source@ == src,
                self.tokens == old(self).tokens,
                src.len() < usize::MAX,
                from <= self.current <= src.len(),
                comment_end(src, self.current as int) == comment_end(src, from),
                self.line == line0 + newlines(src, from, self.current as int),
                self.line <= self.current,
            decreases src.len() - self.current,
        {
            if self.source[self.current] == '\n' {
                self.line = self.line + 1;
            }
            self.current = self.current + 1;
        }
        if self.current >= self.source.len() {
            return Err(ScanError::UnterminatedBlockComment);
        }
        self.current = self.current + 2;
        Ok(())
    }
}

/// The end of the run of digits that starts at `i`.
fn skip_digits(src: &Vec<char>, i: usize) -> (r: usize)
    requires
        i <= src@.len(),
    ensures
        r == digits_end(src@, i as int),
{
    let mut j = i;
    proof {
        lemma_digits_end(src@, i as int);
    }
    while j < src.len() && is_digit_exec(src[j])
        invariant
            i <= j <= src@.len(),
            digits_end(src@, j as int) == digits_end(src@, i as int),
        decreases src@.len() - j,
    {
        j = j + 1;
    }
    j
}

/// The position of the first line break at or after `i`.
fn skip_line(src: &Vec<char>, i: usize) -> (r: usize)
    requires
        i <= src@.len(),
    ensures
        r == line_end(src@, i as int),
{
    let mut j = i;
    while j < src.len() && src[j] != '\n'
        invariant
            i <= j <= src@.len(),
            line_end(src@, j as int) == line_end(src@, i as int),
        decreases src@.len() - j,
    {
        j = j + 1;
    }
    j
}

} // verus!
