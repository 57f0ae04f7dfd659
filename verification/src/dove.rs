//! The front end of the Dove interpreter: from source text to the checked
//! program that an interpreter runs.
use vstd::prelude::*;
use crate::ast::{Stmt, lemma_wf_resolvable_stmts, stmts_view, wf_stmts};
use crate::error_handler::{report_text, strings_view, token_where};
use crate::grammar as g;
use crate::importer::{ImportOutcome, Importer, imports_of, lemma_parsable_up_to_eof, lemma_well_formed_analyzable, missing_file_name_message};
use crate::parser::Parser;
use crate::resolver::{ClassType, FunctionType, ResolveState, Resolver, locals_view, resolve_stmts};
use crate::scanner::{ScanError, Scanner, scan};
use crate::token::{Token, TokenView, tokens_view};

verus! {

/// What the front end makes of a source text.
pub struct Compiled {
    /// The statements that parsed.
    pub statements: Vec<Stmt>,
    /// The files that the program imports, in order.
    pub imports: Vec<String>,
    /// Each resolved local variable with the number of scopes between its
    /// use and its declaration, in the order found.
    pub locals: Vec<(Token, usize)>,
    /// The error messages of the import analysis, the parser and the
    /// resolver, in the order reported.
    pub messages: Vec<String>,
    /// Whether any of the three reported an error.
    pub had_error: bool,
    /// Whether the source ended inside a block that is still open (only
    /// in a read-eval-print loop).
    pub is_in_unfinished_blk: bool,
    /// Whether the parser met a missing `}`, reported or not.
    pub missing_brace: Ghost<bool>,
}

/// The resolver's state before it has seen a statement.
pub open spec fn initial_resolve_state() -> ResolveState {
    ResolveState {
        scopes: Seq::empty(),
        locals: Seq::empty(),
        errors: Seq::empty(),
        function: FunctionType::NoFunction,
        class: ClassType::NoClass,
        in_loop: false,
    }
}

/// The messages that the import analysis reports: one for a missing file
/// name, or none.
pub open spec fn import_messages(o: ImportOutcome) -> Seq<Seq<char>> {
    match o.error {
        Some(t) => seq![report_text(Some(t.line), token_where(t), missing_file_name_message())],
        None => Seq::empty(),
    }
}

/// Scans, analyzes the imports of, parses and resolves `source`. Fails
/// exactly when the source cannot be scanned; every later stage reports
/// its errors as messages and goes on.
pub fn compile(source: Vec<char>, is_in_repl: bool) -> (r: Result<Compiled, ScanError>)
    requires
        source@.len() < usize::MAX,
    ensures
        r is Err <==> scan(source@) is Err,
        r matches Err(e) ==> scan(source@) == Err::<Seq<TokenView>, ScanError>(e),
        r matches Ok(c) ==> {
            let toks = scan(source@)->Ok_0;
            let o = imports_of(toks);
            let p = g::program(toks.subrange(o.consumed, toks.len() as int), is_in_repl, g::start_state());
            let st = resolve_stmts(initial_resolve_state(), c.statements@);
            &&& strings_view(c.imports@) == o.imports
            &&& wf_stmts(c.statements@)
            &&& stmts_view(c.statements@) == p.1
            &&& g::at_end(toks.subrange(o.consumed, toks.len() as int), p.0)
            &&& locals_view(c.locals@) == st.locals
            &&& strings_view(c.messages@) == import_messages(o) + p.0.errors + st.errors
            &&& c.had_error == (o.error is Some || p.0.had_error || st.errors.len() > 0)
            &&& c.had_error == (c.messages@.len() > 0)
            &&& c.is_in_unfinished_blk == p.0.unfinished
            &&& c.is_in_unfinished_blk ==> is_in_repl
            &&& c.is_in_unfinished_blk == (is_in_repl && c.missing_brace@)
            &&& !is_in_repl && c.missing_brace@ ==> c.had_error
        },
{
    let scanner = Scanner::new(source);
    let tokens = match scanner.try_scan_tokens() {
        Ok(t) => t,
        Err(e) => {
            return Err(e);
        },
    };
    proof {
        lemma_well_formed_analyzable(tokens_view(tokens@));
    }
    let mut importer = Importer::new(tokens);
    let (tokens, imports) = importer.analyze();
    proof {
        lemma_parsable_up_to_eof(tokens_view(tokens@));
    }
    let mut parser = Parser::new(tokens, is_in_repl);
    let statements = parser.program();
    proof {
        lemma_wf_resolvable_stmts(statements@);
    }
    let mut resolver = Resolver::new();
    resolver.resolve(&statements);
    let importer_handler = importer.into_handler();
    let ghost brace = parser.spec_brace_missing();
    let (parser_handler, unfinished) = parser.into_parts();
    let (locals, resolver_handler) = resolver.into_parts();
    let had_error = importer_handler.had_error || parser_handler.had_error
        || resolver_handler.had_error;
    let mut messages = importer_handler.messages;
    let mut parser_messages = parser_handler.messages;
    let ghost m1 = messages@;
    let ghost m2 = parser_messages@;
    messages.append(&mut parser_messages);
    let mut resolver_messages = resolver_handler.messages;
    let ghost m3 = resolver_messages@;
    messages.append(&mut resolver_messages);
    proof {
        assert(strings_view(m1) =~= import_messages(imports_of(scan(source@)->Ok_0)));
        assert(strings_view(messages@) =~= strings_view(m1) + strings_view(m2) + strings_view(m3));
    }
    Ok(
        Compiled {
            statements,
            imports,
            locals,
            messages,
            had_error,
            is_in_unfinished_blk: unfinished,
            missing_brace: Ghost(brace),
        },
    )
}

/// Scans, parses and resolves `source`, reading every token as part of the
/// program: nothing at its head is taken as an import. Fails exactly when
/// the source cannot be scanned.
pub fn compile_without_imports(source: Vec<char>, is_in_repl: bool) -> (r: Result<Compiled, ScanError>)
    requires
        source@.len() < usize::MAX,
    ensures
        r is Err <==> scan(source@) is Err,
        r matches Err(e) ==> scan(source@) == Err::<Seq<TokenView>, ScanError>(e),
        r matches Ok(c) ==> {
            let toks = scan(source@)->Ok_0;
            let p = g::program(toks, is_in_repl, g::start_state());
            let st = resolve_stmts(initial_resolve_state(), c.statements@);
            &&& c.imports@.len() == 0
            &&& wf_stmts(c.statements@)
            &&& stmts_view(c.statements@) == p.1
            &&& g::at_end(toks, p.0)
            &&& locals_view(c.locals@) == st.locals
            &&& strings_view(c.messages@) == p.0.errors + st.errors
            &&& c.had_error == (p.0.had_error || st.errors.len() > 0)
            &&& c.had_error == (c.messages@.len() > 0)
            &&& c.is_in_unfinished_blk == p.0.unfinished
            &&& c.is_in_unfinished_blk == (is_in_repl && c.missing_brace@)
            &&& !is_in_repl && c.missing_brace@ ==> c.had_error
        },
{
    let scanner = Scanner::new(source);
    let tokens = match scanner.try_scan_tokens() {
        Ok(t) => t,
        Err(e) => {
            return Err(e);
        },
    };
    proof {
        lemma_parsable_up_to_eof(tokens_view(tokens@));
    }
    let mut parser = Parser::new(tokens, is_in_repl);
    let statements = parser.program();
    proof {
        lemma_wf_resolvable_stmts(statements@);
    }
    let mut resolver = Resolver::new();
    resolver.resolve(&statements);
    let ghost brace = parser.spec_brace_missing();
    let (parser_handler, unfinished) = parser.into_parts();
    let (locals, resolver_handler) = resolver.into_parts();
    let had_error = parser_handler.had_error || resolver_handler.had_error;
    let mut messages = parser_handler.messages;
    let mut resolver_messages = resolver_handler.messages;
    let ghost m2 = messages@;
    let ghost m3 = resolver_messages@;
    messages.append(&mut resolver_messages);
    proof {
        assert(strings_view(messages@) =~= strings_view(m2) + strings_view(m3));
    }
    Ok(
        Compiled {
            statements,
            imports: Vec::new(),
            locals,
            messages,
            had_error,
            is_in_unfinished_blk: unfinished,
            missing_brace: Ghost(brace),
        },
    )
}

} // verus!
