use dove::ast::{Expr, Stmt};
use dove::parser::Parser;
use dove::scanner::Scanner;
use dove::token::{Literal, Token, TokenType};

fn parse(source: &str, is_in_repl: bool) -> (Vec<Stmt>, Parser) {
    let tokens = Scanner::new(source.chars().collect()).try_scan_tokens().unwrap();
    let mut parser = Parser::new(tokens, is_in_repl);
    let statements = parser.program();
    (statements, parser)
}

/// Parses tokens in which each `-` directly followed by `>` is one arrow
/// token, as a lambda expects it.
fn parse_with_arrows(source: &str) -> Vec<Stmt> {
    let scanned = Scanner::new(source.chars().collect()).try_scan_tokens().unwrap();
    let mut tokens: Vec<Token> = Vec::new();
    let mut i = 0;
    while i < scanned.len() {
        if scanned[i].token_type == TokenType::MINUS
            && i + 1 < scanned.len()
            && scanned[i + 1].token_type == TokenType::GREATER
        {
            tokens.push(Token::new(TokenType::MINUS_GREATER, "->".to_string(), None, scanned[i].line));
            i += 2;
        } else {
            tokens.push(scanned[i].clone());
            i += 1;
        }
    }
    let mut parser = Parser::new(tokens, false);
    let statements = parser.program();
    assert!(!parser.error_handler.had_error, "{:?}", parser.error_handler.messages);
    statements
}

fn parse_ok(source: &str) -> Vec<Stmt> {
    let (statements, parser) = parse(source, false);
    assert!(!parser.error_handler.had_error, "{:?}", parser.error_handler.messages);
    statements
}

fn number(e: &Expr, text: &str) -> bool {
    matches!(e, Expr::Literal(Literal::Number(n)) if n == text)
}

fn variable(e: &Expr, name: &str) -> bool {
    matches!(e, Expr::Variable(t) if t.lexeme == name)
}

#[test]
fn multiplication_binds_tighter_than_addition() {
    let statements = parse_ok("print 1 + 2 * 3");
    assert_eq!(statements.len(), 1);
    match &statements[0] {
        Stmt::Print(token, Expr::Binary(l, op, r)) => {
            assert_eq!(token.token_type, TokenType::PRINT);
            assert!(number(l, "1"));
            assert_eq!(op.token_type, TokenType::PLUS);
            match &**r {
                Expr::Binary(a, m, b) => {
                    assert!(number(a, "2"));
                    assert_eq!(m.token_type, TokenType::STAR);
                    assert!(number(b, "3"));
                },
                other => panic!("{:?}", other),
            }
        },
        other => panic!("{:?}", other),
    }
}

#[test]
fn parentheses_group_without_a_node() {
    let statements = parse_ok("(1 + 2) * 3");
    match &statements[0] {
        Stmt::Expression(Expr::Binary(l, op, r)) => {
            assert_eq!(op.token_type, TokenType::STAR);
            assert!(matches!(&**l, Expr::Binary(_, p, _) if p.token_type == TokenType::PLUS));
            assert!(number(r, "3"));
        },
        other => panic!("{:?}", other),
    }
}

#[test]
fn subtraction_is_left_associative() {
    let statements = parse_ok("a - b - c");
    match &statements[0] {
        Stmt::Expression(Expr::Binary(l, _, r)) => {
            assert!(matches!(&**l, Expr::Binary(x, _, y) if variable(x, "a") && variable(y, "b")));
            assert!(variable(r, "c"));
        },
        other => panic!("{:?}", other),
    }
}

#[test]
fn comparison_equality_and_logic_nest_in_order() {
    let statements = parse_ok("a < b == c or d and e");
    match &statements[0] {
        Stmt::Expression(Expr::Binary(l, op, r)) => {
            assert_eq!(op.token_type, TokenType::OR);
            assert!(matches!(&**l, Expr::Binary(x, eq, _) if eq.token_type == TokenType::EQUAL_EQUAL
                && matches!(&**x, Expr::Binary(_, lt, _) if lt.token_type == TokenType::LESS)));
            assert!(matches!(&**r, Expr::Binary(_, and, _) if and.token_type == TokenType::AND));
        },
        other => panic!("{:?}", other),
    }
}

#[test]
fn unary_operators_apply_innermost_last() {
    let statements = parse_ok("- not x");
    match &statements[0] {
        Stmt::Expression(Expr::Unary(minus, inner)) => {
            assert_eq!(minus.token_type, TokenType::MINUS);
            assert!(matches!(&**inner, Expr::Unary(n, x) if n.token_type == TokenType::NOT && variable(x, "x")));
        },
        other => panic!("{:?}", other),
    }
}

#[test]
fn variable_declaration_with_and_without_initializer() {
    let statements = parse_ok("let x = 5\nlet y");
    assert_eq!(statements.len(), 2);
    assert!(matches!(&statements[0], Stmt::Variable(t, Some(e)) if t.lexeme == "x" && number(e, "5")));
    assert!(matches!(&statements[1], Stmt::Variable(t, None) if t.lexeme == "y"));
}

#[test]
fn assignments_to_variables_properties_and_indexes() {
    let statements = parse_ok("x = 1\na.b = 2\nc[0] = 3");
    assert_eq!(statements.len(), 3);
    assert!(matches!(&statements[0], Stmt::Expression(Expr::Assign(v, op, e))
        if v.lexeme == "x" && op.token_type == TokenType::EQUAL && number(e, "1")));
    assert!(matches!(&statements[1], Stmt::Expression(Expr::SetProperty(o, name, e))
        if variable(o, "a") && name.lexeme == "b" && number(e, "2")));
    assert!(matches!(&statements[2], Stmt::Expression(Expr::IndexSet(a, i, e))
        if variable(a, "c") && number(i, "0") && number(e, "3")));
}

#[test]
fn increment_assigns_one() {
    let tokens = Scanner::new("x".chars().collect()).try_scan_tokens().unwrap();
    let mut with_plus_plus = Vec::new();
    with_plus_plus.push(tokens[0].clone());
    with_plus_plus.push(Token::new(TokenType::PLUS_PLUS, "++".to_string(), None, 1));
    with_plus_plus.push(tokens[1].clone());
    let mut parser = Parser::new(with_plus_plus, false);
    let statements = parser.program();
    assert!(!parser.error_handler.had_error);
    assert!(matches!(&statements[0], Stmt::Expression(Expr::Assign(v, op, e))
        if v.lexeme == "x" && op.token_type == TokenType::PLUS_PLUS && number(e, "1")));
}

#[test]
fn assignment_to_a_literal_is_an_error() {
    let (statements, parser) = parse("1 = 2", false);
    assert!(statements.is_empty());
    assert!(parser.error_handler.had_error);
    assert_eq!(parser.error_handler.messages, vec!["[line 1] Error: Cannot use assignment.".to_string()]);
}

#[test]
fn missing_identifier_is_reported_with_the_expected_type() {
    let (statements, parser) = parse("let 1", false);
    assert!(statements.is_empty());
    assert_eq!(
        parser.error_handler.messages,
        vec!["[line 1] Error at '1': Unexpected token, expected type IDENTIFIER.".to_string()]
    );
}

#[test]
fn missing_expression_is_reported_at_end() {
    let (statements, parser) = parse("print", false);
    assert!(statements.is_empty());
    assert_eq!(parser.error_handler.messages, vec!["[line 1] Error at end: Unexpected token.".to_string()]);
}

#[test]
fn two_statements_on_one_line_need_a_newline() {
    let (statements, parser) = parse("print 1 print 2", false);
    assert!(statements.is_empty());
    assert_eq!(
        parser.error_handler.messages,
        vec!["[line 1] Error at 'print': Expected newline after statement.".to_string()]
    );
}

#[test]
fn parsing_recovers_at_the_next_line() {
    let (statements, parser) = parse("let = 1\nprint 2", false);
    assert_eq!(parser.error_handler.messages.len(), 1);
    assert_eq!(statements.len(), 1);
    assert!(matches!(&statements[0], Stmt::Print(_, e) if number(e, "2")));
}

#[test]
fn function_declaration() {
    let statements = parse_ok("fun add(a, b) {\n  return a + b\n}");
    match &statements[0] {
        Stmt::Function(name, params, body) => {
            assert_eq!(name.lexeme, "add");
            let names: Vec<&str> = params.iter().map(|p| p.lexeme.as_str()).collect();
            assert_eq!(names, vec!["a", "b"]);
            match &**body {
                Stmt::Block(v) => {
                    assert_eq!(v.len(), 1);
                    assert!(matches!(&v[0], Stmt::Return(t, Some(Expr::Binary(_, _, _))) if t.token_type == TokenType::RETURN));
                },
                other => panic!("{:?}", other),
            }
        },
        other => panic!("{:?}", other),
    }
}

#[test]
fn parameters_may_span_lines() {
    let statements = parse_ok("fun f(a,\n b) {\n}");
    assert!(matches!(&statements[0], Stmt::Function(_, params, _) if params.len() == 2));
}

#[test]
fn class_declaration_with_superclass() {
    let statements = parse_ok("class B from A {\n  fun init() {\n  }\n  fun m(x) {\n    return\n  }\n}");
    match &statements[0] {
        Stmt::Class(name, Some(superclass), methods) => {
            assert_eq!(name.lexeme, "B");
            assert_eq!(superclass.lexeme, "A");
            assert_eq!(methods.len(), 2);
            assert!(matches!(&methods[0], Stmt::Function(n, p, _) if n.lexeme == "init" && p.is_empty()));
            assert!(matches!(&methods[1], Stmt::Function(n, _, b)
                if n.lexeme == "m" && matches!(&**b, Stmt::Block(v) if matches!(&v[0], Stmt::Return(_, None)))));
        },
        other => panic!("{:?}", other),
    }
}

#[test]
fn class_without_superclass() {
    let statements = parse_ok("class A {\n}");
    assert!(matches!(&statements[0], Stmt::Class(n, None, m) if n.lexeme == "A" && m.is_empty()));
}

#[test]
fn if_else_if_else_chain() {
    let statements = parse_ok("if x { 1 } else if y { 2 } else { 3 }");
    match &statements[0] {
        Stmt::Expression(Expr::IfExpr(c, then_branch, else_branch)) => {
            assert!(variable(c, "x"));
            assert!(matches!(&**then_branch, Stmt::Block(v) if v.len() == 1));
            match &**else_branch {
                Stmt::Expression(Expr::IfExpr(c2, _, last)) => {
                    assert!(variable(c2, "y"));
                    assert!(matches!(&**last, Stmt::Block(v) if matches!(&v[0], Stmt::Expression(e) if number(e, "3"))));
                },
                other => panic!("{:?}", other),
            }
        },
        other => panic!("{:?}", other),
    }
}

#[test]
fn if_without_else_has_an_empty_block() {
    let statements = parse_ok("if x {\n print 1\n}");
    assert!(matches!(&statements[0], Stmt::Expression(Expr::IfExpr(_, _, e)) if matches!(&**e, Stmt::Block(v) if v.is_empty())));
}

#[test]
fn while_and_for_loops() {
    let statements = parse_ok("while i < 3 {\n  i = i + 1\n  break\n}\nfor x in xs {\n  continue\n}");
    assert_eq!(statements.len(), 2);
    assert!(matches!(&statements[0], Stmt::While(Expr::Binary(_, _, _), b)
        if matches!(&**b, Stmt::Block(v) if v.len() == 2 && matches!(&v[1], Stmt::Break(_)))));
    assert!(matches!(&statements[1], Stmt::For(v, e, b)
        if v.lexeme == "x" && variable(e, "xs") && matches!(&**b, Stmt::Block(s) if matches!(&s[0], Stmt::Continue(_)))));
}

#[test]
fn lambda_with_an_expression_body() {
    let statements = parse_with_arrows("let f = lambda a, b -> a + b");
    match &statements[0] {
        Stmt::Variable(_, Some(Expr::Lambda(params, body))) => {
            assert_eq!(params.len(), 2);
            assert!(matches!(&**body, Stmt::Block(v) if v.len() == 1 && matches!(&v[0], Stmt::Expression(Expr::Binary(_, _, _)))));
        },
        other => panic!("{:?}", other),
    }
}

#[test]
fn lambda_with_a_block_body() {
    let statements = parse_with_arrows("let f = lambda -> {\n  return 1\n}");
    assert!(matches!(&statements[0], Stmt::Variable(_, Some(Expr::Lambda(p, b)))
        if p.is_empty() && matches!(&**b, Stmt::Block(v) if matches!(&v[0], Stmt::Return(_, Some(_))))));
}

#[test]
fn calls_indexes_and_properties_chain() {
    let statements = parse_ok("a.b(1, 2)[0]");
    match &statements[0] {
        Stmt::Expression(Expr::IndexGet(callee, index)) => {
            assert!(number(index, "0"));
            match &**callee {
                Expr::Call(f, paren, args) => {
                    assert_eq!(paren.token_type, TokenType::LEFT_PAREN);
                    assert_eq!(args.len(), 2);
                    assert!(matches!(&**f, Expr::Get(o, n) if variable(o, "a") && n.lexeme == "b"));
                },
                other => panic!("{:?}", other),
            }
        },
        other => panic!("{:?}", other),
    }
}

#[test]
fn a_property_may_start_the_next_line() {
    let statements = parse_ok("a\n  .b");
    assert_eq!(statements.len(), 1);
    assert!(matches!(&statements[0], Stmt::Expression(Expr::Get(o, n)) if variable(o, "a") && n.lexeme == "b"));
}

#[test]
fn arrays_tuples_and_empty_tuples() {
    let statements = parse_ok("[1, 2, 3]\n(1, 2)\n()");
    assert!(matches!(&statements[0], Stmt::Expression(Expr::Array(v)) if v.len() == 3));
    assert!(matches!(&statements[1], Stmt::Expression(Expr::Tuple(v)) if v.len() == 2));
    assert!(matches!(&statements[2], Stmt::Expression(Expr::Tuple(v)) if v.is_empty()));
}

#[test]
fn braces_hold_a_dictionary_or_a_block() {
    let statements = parse_ok("{}\n{\n  print 1\n}");
    assert_eq!(statements.len(), 2);
    assert!(matches!(&statements[0], Stmt::Expression(Expr::Dictionary(v)) if v.is_empty()));
    assert!(matches!(&statements[1], Stmt::Block(v) if v.len() == 1));
}

#[test]
fn literals_self_and_super() {
    let statements = parse_ok("true\nfalse\nnil\n\"s\"\nself\nsuper.m");
    assert!(matches!(&statements[0], Stmt::Expression(Expr::Literal(Literal::Boolean(true)))));
    assert!(matches!(&statements[1], Stmt::Expression(Expr::Literal(Literal::Boolean(false)))));
    assert!(matches!(&statements[2], Stmt::Expression(Expr::Literal(Literal::Nil))));
    assert!(matches!(&statements[3], Stmt::Expression(Expr::Literal(Literal::String(s))) if s == "s"));
    assert!(matches!(&statements[4], Stmt::Expression(Expr::SelfExpr(_))));
    assert!(matches!(&statements[5], Stmt::Expression(Expr::SuperExpr(s, m)) if s.token_type == TokenType::SUPER && m.lexeme == "m"));
}

#[test]
fn blank_lines_between_statements_are_skipped() {
    let statements = parse_ok("\n\nprint 1\n\n\nprint 2\n\n");
    assert_eq!(statements.len(), 2);
}

#[test]
fn unfinished_block_at_the_prompt_is_not_an_error() {
    let (statements, parser) = parse("fun f() {", true);
    assert!(statements.is_empty());
    assert!(parser.is_in_unfinished_blk);
    assert!(!parser.error_handler.had_error);
    assert!(parser.error_handler.messages.is_empty());
}

#[test]
fn unfinished_block_in_a_file_is_an_error() {
    let (statements, parser) = parse("fun f() {", false);
    assert!(statements.is_empty());
    assert!(!parser.is_in_unfinished_blk);
    assert_eq!(
        parser.error_handler.messages,
        vec!["[line 1] Error at end: Unexpected token, expected type RIGHT_BRACE.".to_string()]
    );
}

#[test]
fn finished_block_at_the_prompt_is_not_unfinished() {
    let (statements, parser) = parse("while x {\n  print x\n}", true);
    assert_eq!(statements.len(), 1);
    assert!(!parser.is_in_unfinished_blk);
}

#[test]
fn parsing_stops_at_the_first_end_of_file() {
    let mut tokens = Scanner::new("print 1\n".chars().collect()).try_scan_tokens().unwrap();
    tokens.push(Token::new(TokenType::IDENTIFIER, "junk".to_string(), None, 2));
    tokens.push(Token::new(TokenType::STRING, "\"no literal\"".to_string(), None, 2));
    let mut parser = Parser::new(tokens, false);
    let statements = parser.program();
    assert_eq!(statements.len(), 1);
    assert!(matches!(statements[0], Stmt::Print(_, Expr::Literal(Literal::Number(_)))));
    assert!(!parser.error_handler.had_error);
}
