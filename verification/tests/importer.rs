use dove::importer::Importer;
use dove::token::{Literal, Token, TokenType};

fn token(t: TokenType, lexeme: &str, line: usize) -> Token {
    let literal = match t {
        TokenType::STRING => Some(Literal::String(lexeme[1..lexeme.len() - 1].to_string())),
        TokenType::NUMBER => Some(Literal::Number(lexeme.to_string())),
        _ => None,
    };
    Token::new(t, lexeme.to_string(), literal, line)
}

fn eof(line: usize) -> Token {
    token(TokenType::EOF, "", line)
}

#[test]
fn no_imports_keeps_every_token() {
    let tokens = vec![token(TokenType::IDENTIFIER, "x", 1), eof(1)];
    let mut importer = Importer::new(tokens);
    let (rest, imports) = importer.analyze();
    assert!(imports.is_empty());
    assert_eq!(rest.len(), 2);
    assert_eq!(rest[0].lexeme, "x");
    assert!(!importer.error_handler.had_error);
}

#[test]
fn imports_are_read_and_removed() {
    let tokens = vec![
        token(TokenType::IMPORT, "import", 1),
        token(TokenType::STRING, "\"a.dove\"", 1),
        token(TokenType::NEWLINE, "\n", 1),
        token(TokenType::IMPORT, "import", 2),
        token(TokenType::NEWLINE, "\n", 2),
        token(TokenType::STRING, "\"lib/b.dove\"", 3),
        token(TokenType::NEWLINE, "\n", 3),
        token(TokenType::PRINT, "print", 4),
        token(TokenType::NUMBER, "1", 4),
        eof(4),
    ];
    let mut importer = Importer::new(tokens);
    let (rest, imports) = importer.analyze();
    assert_eq!(imports, vec!["a.dove".to_string(), "lib/b.dove".to_string()]);
    let kinds: Vec<TokenType> = rest.iter().map(|t| t.token_type).collect();
    assert_eq!(kinds, vec![TokenType::PRINT, TokenType::NUMBER, TokenType::EOF]);
    assert!(!importer.error_handler.had_error);
    assert!(importer.error_handler.messages.is_empty());
}

#[test]
fn import_without_file_name_is_reported() {
    let tokens = vec![
        token(TokenType::IMPORT, "import", 1),
        token(TokenType::IDENTIFIER, "x", 1),
        token(TokenType::NEWLINE, "\n", 1),
        eof(2),
    ];
    let mut importer = Importer::new(tokens);
    let (rest, imports) = importer.analyze();
    assert!(imports.is_empty());
    assert!(importer.error_handler.had_error);
    assert_eq!(
        importer.error_handler.messages,
        vec!["[line 1] Error at 'x': Expecting a file name after 'import' keyword.".to_string()]
    );
    let kinds: Vec<TokenType> = rest.iter().map(|t| t.token_type).collect();
    assert_eq!(kinds, vec![TokenType::NEWLINE, TokenType::EOF]);
}

#[test]
fn two_import_keywords_in_a_row_are_reported() {
    let tokens = vec![
        token(TokenType::IMPORT, "import", 1),
        token(TokenType::IMPORT, "import", 1),
        token(TokenType::STRING, "\"a\"", 1),
        eof(1),
    ];
    let mut importer = Importer::new(tokens);
    let (rest, imports) = importer.analyze();
    assert!(imports.is_empty());
    assert_eq!(
        importer.error_handler.messages,
        vec!["[line 1] Error at 'import': Expecting a file name after 'import' keyword.".to_string()]
    );
    assert_eq!(rest.len(), 2);
    assert_eq!(rest[0].token_type, TokenType::STRING);
}

#[test]
fn leading_string_is_taken_as_the_end_of_imports() {
    let tokens = vec![token(TokenType::STRING, "\"doc\"", 1), token(TokenType::IDENTIFIER, "y", 1), eof(1)];
    let mut importer = Importer::new(tokens);
    let (rest, imports) = importer.analyze();
    assert!(imports.is_empty());
    assert_eq!(rest.len(), 2);
    assert_eq!(rest[0].lexeme, "y");
}

#[test]
fn import_at_end_of_input_is_not_reported() {
    let tokens = vec![token(TokenType::IMPORT, "import", 1), eof(1)];
    let mut importer = Importer::new(tokens);
    let (rest, imports) = importer.analyze();
    assert!(imports.is_empty());
    assert!(!importer.error_handler.had_error);
    assert_eq!(rest.len(), 1);
    assert_eq!(rest[0].token_type, TokenType::EOF);
}

#[test]
fn tokens_without_literals_are_analyzed() {
    let t = |k: TokenType, s: &str| Token::new(k, s.to_string(), None, 1);
    let tokens = vec![
        t(TokenType::IMPORT, "import"),
        t(TokenType::STRING, "\"a.dove\""),
        t(TokenType::NEWLINE, "\n"),
        t(TokenType::IDENTIFIER, "x"),
        t(TokenType::EOF, ""),
    ];
    let mut importer = Importer::new(tokens);
    let (rest, imports) = importer.analyze();
    assert_eq!(imports, vec!["a.dove".to_string()]);
    let lexemes: Vec<String> = rest.iter().map(|t| t.lexeme.clone()).collect();
    assert_eq!(lexemes, vec!["x".to_string(), "".to_string()]);
    assert_eq!(rest[1].token_type, TokenType::EOF);
    assert!(!importer.error_handler.had_error);
    assert!(importer.error_handler.messages.is_empty());
}

#[test]
fn analysis_stops_at_the_first_end_of_file() {
    let t = |k: TokenType, s: &str| Token::new(k, s.to_string(), None, 1);
    let tokens = vec![t(TokenType::IMPORT, "import"), t(TokenType::EOF, ""), t(TokenType::IDENTIFIER, "y")];
    let mut importer = Importer::new(tokens);
    let (rest, imports) = importer.analyze();
    assert!(imports.is_empty());
    assert_eq!(rest.len(), 2);
    assert!(!importer.error_handler.had_error);
}
