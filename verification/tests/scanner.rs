use dove::scanner::{ScanError, Scanner};
use dove::token::{Literal, Token, TokenType};

fn scan(source: &str) -> Result<Vec<Token>, ScanError> {
    Scanner::new(source.chars().collect()).try_scan_tokens()
}

fn kinds(tokens: &[Token]) -> Vec<TokenType> {
    tokens.iter().map(|t| t.token_type).collect()
}

fn lexemes(tokens: &[Token]) -> Vec<String> {
    tokens.iter().map(|t| t.lexeme.clone()).collect()
}

#[test]
fn empty_source_gives_only_eof() {
    let tokens = scan("").unwrap();
    assert_eq!(tokens.len(), 1);
    assert_eq!(tokens[0].token_type, TokenType::EOF);
    assert_eq!(tokens[0].lexeme, "");
    assert_eq!(tokens[0].line, 1);
}

#[test]
fn variable_declaration() {
    let tokens = scan("let x = 1").unwrap();
    assert_eq!(
        kinds(&tokens),
        vec![TokenType::LET, TokenType::IDENTIFIER, TokenType::EQUAL, TokenType::NUMBER, TokenType::EOF]
    );
    assert_eq!(lexemes(&tokens), vec!["let", "x", "=", "1", ""]);
    assert!(matches!(&tokens[3].literal, Some(Literal::Number(n)) if n == "1"));
    assert!(tokens[0].literal.is_none());
}

#[test]
fn one_and_two_character_operators() {
    let tokens = scan("( ) [ ] { } , . - + * ! != = == < <= > >= /").unwrap();
    assert_eq!(
        kinds(&tokens),
        vec![
            TokenType::LEFT_PAREN,
            TokenType::RIGHT_PAREN,
            TokenType::LEFT_BRACKET,
            TokenType::RIGHT_BRACKET,
            TokenType::LEFT_BRACE,
            TokenType::RIGHT_BRACE,
            TokenType::COMMA,
            TokenType::DOT,
            TokenType::MINUS,
            TokenType::PLUS,
            TokenType::STAR,
            TokenType::BANG,
            TokenType::BANG_EQUAL,
            TokenType::EQUAL,
            TokenType::EQUAL_EQUAL,
            TokenType::LESS,
            TokenType::LESS_EQUAL,
            TokenType::GREATER,
            TokenType::GREATER_EQUAL,
            TokenType::SLASH,
            TokenType::EOF,
        ]
    );
}

#[test]
fn operators_without_spaces_take_the_longest_match() {
    let tokens = scan("a<=b!=c").unwrap();
    assert_eq!(lexemes(&tokens), vec!["a", "<=", "b", "!=", "c", ""]);
}

#[test]
fn newlines_are_tokens_and_count_lines() {
    let tokens = scan("a\nb\n").unwrap();
    assert_eq!(
        kinds(&tokens),
        vec![TokenType::IDENTIFIER, TokenType::NEWLINE, TokenType::IDENTIFIER, TokenType::NEWLINE, TokenType::EOF]
    );
    let lines: Vec<usize> = tokens.iter().map(|t| t.line).collect();
    assert_eq!(lines, vec![1, 1, 2, 2, 3]);
}

#[test]
fn whitespace_is_skipped() {
    let tokens = scan(" \t\r x \t").unwrap();
    assert_eq!(kinds(&tokens), vec![TokenType::IDENTIFIER, TokenType::EOF]);
}

#[test]
fn string_literal_drops_its_quotes() {
    let tokens = scan("\"hello world\"").unwrap();
    assert_eq!(tokens[0].token_type, TokenType::STRING);
    assert_eq!(tokens[0].lexeme, "\"hello world\"");
    assert!(matches!(&tokens[0].literal, Some(Literal::String(s)) if s == "hello world"));
}

#[test]
fn string_over_lines_is_on_its_last_line() {
    let tokens = scan("\"a\nb\" x").unwrap();
    assert_eq!(tokens[0].token_type, TokenType::STRING);
    assert_eq!(tokens[0].line, 2);
    assert_eq!(tokens[1].line, 2);
    assert!(matches!(&tokens[0].literal, Some(Literal::String(s)) if s == "a\nb"));
}

#[test]
fn numbers_with_and_without_fraction() {
    let tokens = scan("3.14 42 7.").unwrap();
    assert_eq!(
        kinds(&tokens),
        vec![TokenType::NUMBER, TokenType::NUMBER, TokenType::NUMBER, TokenType::DOT, TokenType::EOF]
    );
    assert_eq!(lexemes(&tokens), vec!["3.14", "42", "7", ".", ""]);
    assert!(matches!(&tokens[0].literal, Some(Literal::Number(n)) if n == "3.14"));
}

#[test]
fn a_number_stops_before_a_range() {
    let tokens = scan("1..5").unwrap();
    assert_eq!(lexemes(&tokens), vec!["1", ".", ".", "5", ""]);
}

#[test]
fn line_comment_runs_to_the_end_of_the_line() {
    let tokens = scan("x // a comment\ny").unwrap();
    assert_eq!(
        kinds(&tokens),
        vec![TokenType::IDENTIFIER, TokenType::NEWLINE, TokenType::IDENTIFIER, TokenType::EOF]
    );
}

#[test]
fn block_comment_counts_its_lines() {
    let tokens = scan("/* one\ntwo\n */ x").unwrap();
    assert_eq!(kinds(&tokens), vec![TokenType::IDENTIFIER, TokenType::EOF]);
    assert_eq!(tokens[0].line, 3);
}

#[test]
fn keywords_are_recognized() {
    let source = "and break class continue else false fun for from in if lambda let nil not or print return super self true while";
    let tokens = scan(source).unwrap();
    assert_eq!(
        kinds(&tokens),
        vec![
            TokenType::AND,
            TokenType::BREAK,
            TokenType::CLASS,
            TokenType::CONTINUE,
            TokenType::ELSE,
            TokenType::FALSE,
            TokenType::FUN,
            TokenType::FOR,
            TokenType::FROM,
            TokenType::IN,
            TokenType::IF,
            TokenType::LAMBDA,
            TokenType::LET,
            TokenType::NIL,
            TokenType::NOT,
            TokenType::OR,
            TokenType::PRINT,
            TokenType::RETURN,
            TokenType::SUPER,
            TokenType::SELF,
            TokenType::TRUE,
            TokenType::WHILE,
            TokenType::EOF,
        ]
    );
}

#[test]
fn identifiers_take_letters_digits_and_underscores() {
    let tokens = scan("my_var2 letter fun_ import").unwrap();
    assert_eq!(
        kinds(&tokens),
        vec![
            TokenType::IDENTIFIER,
            TokenType::IDENTIFIER,
            TokenType::IDENTIFIER,
            TokenType::IDENTIFIER,
            TokenType::EOF
        ]
    );
    assert_eq!(lexemes(&tokens), vec!["my_var2", "letter", "fun_", "import", ""]);
}

#[test]
fn non_ascii_letters_start_identifiers() {
    let tokens = scan("été").unwrap();
    assert_eq!(tokens[0].token_type, TokenType::IDENTIFIER);
    assert_eq!(tokens[0].lexeme, "été");
}

#[test]
fn unexpected_character_is_an_error() {
    assert_eq!(scan("let x = $").unwrap_err(), ScanError::UnexpectedCharacter('$'));
    assert_eq!(scan("a: b").unwrap_err(), ScanError::UnexpectedCharacter(':'));
    assert_eq!(scan("_x").unwrap_err(), ScanError::UnexpectedCharacter('_'));
}

#[test]
fn unterminated_string_is_an_error() {
    assert_eq!(scan("print \"abc").unwrap_err(), ScanError::UnterminatedString);
}

#[test]
fn unterminated_block_comment_is_an_error() {
    assert_eq!(scan("x /* never closed").unwrap_err(), ScanError::UnterminatedBlockComment);
    assert_eq!(scan("/* almost *").unwrap_err(), ScanError::UnterminatedBlockComment);
}

#[test]
fn scan_tokens_agrees_with_try_scan_tokens() {
    let a = Scanner::new("x = 1\n".chars().collect()).scan_tokens();
    let b = scan("x = 1\n").unwrap();
    assert_eq!(lexemes(&a), lexemes(&b));
    assert_eq!(kinds(&a), kinds(&b));
}
