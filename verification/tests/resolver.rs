use dove::parser::Parser;
use dove::resolver::Resolver;
use dove::scanner::Scanner;

/// The resolved locals as (name, line, depth), and the resolver's messages.
fn resolve(source: &str) -> (Vec<(String, usize, usize)>, Vec<String>, bool) {
    let tokens = Scanner::new(source.chars().collect()).try_scan_tokens().unwrap();
    let mut parser = Parser::new(tokens, false);
    let statements = parser.program();
    assert!(!parser.error_handler.had_error, "{:?}", parser.error_handler.messages);
    let mut resolver = Resolver::new();
    resolver.resolve(&statements);
    let locals = resolver.locals.iter().map(|(t, d)| (t.lexeme.clone(), t.line, *d)).collect();
    (locals, resolver.error_handler.messages.clone(), resolver.error_handler.had_error)
}

#[test]
fn globals_are_not_resolved() {
    let (locals, messages, had_error) = resolve("let x = 1\nprint x\nx = 2");
    assert!(locals.is_empty());
    assert!(messages.is_empty());
    assert!(!had_error);
}

#[test]
fn block_variables_resolve_at_depth_zero() {
    let (locals, messages, _) = resolve("let x = 1\n{\n  let y = x\n  print y\n}");
    assert!(messages.is_empty());
    assert_eq!(locals, vec![("y".to_string(), 4, 0)]);
}

#[test]
fn parameters_resolve_in_the_function_scope() {
    let (locals, messages, _) = resolve("fun f(a) {\n  print a\n}");
    assert!(messages.is_empty());
    assert_eq!(locals, vec![("a".to_string(), 2, 0)]);
}

#[test]
fn enclosing_function_variables_resolve_one_level_out() {
    let (locals, messages, _) = resolve("fun outer() {\n  let x = 1\n  fun inner() {\n    print x\n  }\n}");
    assert!(messages.is_empty());
    assert_eq!(locals, vec![("x".to_string(), 4, 1)]);
}

#[test]
fn assignment_resolves_its_target_after_its_value() {
    let (locals, messages, _) = resolve("{\n  let a = 1\n  let b = 2\n  a = b\n}");
    assert!(messages.is_empty());
    assert_eq!(locals, vec![("b".to_string(), 4, 0), ("a".to_string(), 4, 0)]);
}

#[test]
fn self_in_a_method_resolves_to_the_class_scope() {
    let (locals, messages, _) = resolve("class A {\n  fun m() {\n    print self\n  }\n}");
    assert!(messages.is_empty());
    assert_eq!(locals, vec![("self".to_string(), 3, 1)]);
}

#[test]
fn super_in_a_subclass_resolves_two_scopes_out() {
    let (locals, messages, _) = resolve("class B from A {\n  fun m() {\n    return super.m\n  }\n}");
    assert!(messages.is_empty());
    assert_eq!(locals, vec![("super".to_string(), 3, 2)]);
}

#[test]
fn variable_in_its_own_initializer_is_an_error() {
    let (_, messages, had_error) = resolve("{\n  let a = a\n}");
    assert!(had_error);
    assert_eq!(messages, vec!["[line 2] Error at 'a': Cannot use a variable in its own initializer.".to_string()]);
}

#[test]
fn redeclaration_in_one_scope_is_an_error() {
    let (_, messages, _) = resolve("{\n  let a = 1\n  let a = 2\n}");
    assert_eq!(
        messages,
        vec!["[line 3] Error at 'a': Variable with this name already declared in this scope.".to_string()]
    );
}

#[test]
fn redeclaration_of_a_global_is_allowed() {
    let (_, messages, had_error) = resolve("let a = 1\nlet a = 2");
    assert!(messages.is_empty());
    assert!(!had_error);
}

#[test]
fn top_level_return_is_an_error() {
    let (_, messages, _) = resolve("return 1");
    assert_eq!(messages, vec!["[line 1] Error at 'return': Cannot return from top-level code.".to_string()]);
}

#[test]
fn returning_a_value_from_an_initializer_is_an_error() {
    let (_, messages, _) = resolve("class A {\n  fun init() {\n    return 1\n  }\n}");
    assert_eq!(
        messages,
        vec!["[line 3] Error at 'return': Cannot return a value from an initializer.".to_string()]
    );
}

#[test]
fn bare_return_from_an_initializer_is_allowed() {
    let (_, messages, _) = resolve("class A {\n  fun init() {\n    return\n  }\n}");
    assert!(messages.is_empty());
}

#[test]
fn break_and_continue_outside_loops_are_errors() {
    let (_, messages, _) = resolve("break\ncontinue");
    assert_eq!(
        messages,
        vec![
            "[line 1] Error at 'break': Break statements can only be used inside loops.".to_string(),
            "[line 2] Error at 'continue': Continue statements can only be used inside loops.".to_string(),
        ]
    );
}

#[test]
fn break_inside_loops_is_allowed() {
    let (_, messages, _) = resolve("while true {\n  break\n}\nfor x in xs {\n  continue\n}");
    assert!(messages.is_empty());
}

#[test]
fn break_in_a_function_inside_a_loop_is_an_error() {
    let (_, messages, _) = resolve("while true {\n  fun f() {\n    break\n  }\n}");
    assert_eq!(
        messages,
        vec!["[line 3] Error at 'break': Break statements can only be used inside loops.".to_string()]
    );
}

#[test]
fn self_outside_a_class_is_an_error() {
    let (_, messages, _) = resolve("print self");
    assert_eq!(messages, vec!["[line 1] Error at 'self': Cannot use 'self' outside of a class.".to_string()]);
}

#[test]
fn super_outside_a_class_is_an_error() {
    let (_, messages, _) = resolve("print super.x");
    assert_eq!(messages, vec!["[line 1] Error at 'super': Cannot use 'super' outside of a class.".to_string()]);
}

#[test]
fn super_without_a_superclass_is_an_error() {
    let (_, messages, _) = resolve("class A {\n  fun m() {\n    return super.m\n  }\n}");
    assert_eq!(
        messages,
        vec!["[line 3] Error at 'super': Cannot use 'super' inside a class with no superclass.".to_string()]
    );
}

#[test]
fn a_class_cannot_inherit_from_itself() {
    let (_, messages, _) = resolve("class A from A {\n}");
    assert_eq!(messages, vec!["[line 1] Error at 'A': A class cannot inherit from itself.".to_string()]);
}

#[test]
fn for_loop_variable_resolves_inside_the_body() {
    let (locals, messages, _) = resolve("for i in xs {\n  print i\n}");
    assert!(messages.is_empty());
    assert_eq!(locals, vec![("i".to_string(), 2, 0)]);
}
