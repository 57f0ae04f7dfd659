//! Error reporting. A handler formats each error into the message that is
//! shown to the user and keeps the messages until they are taken out to be
//! shown by a [`DoveOutput`].
use vstd::prelude::*;
use crate::text::{push_decimal, decimal, string_of};
use crate::token::{Token, TokenType};

verus! {

/// Where the messages of a Dove program go: ordinary output, warnings and errors.
pub trait DoveOutput {
    fn print(&self, message: String);

    fn warning(&self, message: String);

    fn error(&self, message: String);
}

/// The message shown for an error on `line` (when known), with `where_`
/// telling where on the line it is.
pub open spec fn report_text(line: Option<nat>, where_: Seq<char>, message: Seq<char>) -> Seq<
    char,
> {
    match line {
        Some(l) => "[line "@ + decimal(l) + "] Error"@ + where_ + ": "@ + message,
        None => "Error: "@ + message,
    }
}

/// Formats an error message as [`report_text`] describes.
pub fn format_report(line: Option<usize>, where_: &str, message: &str) -> (r: String)
    ensures
        r@ == report_text(
            match line {
                Some(l) => Some(l as nat),
                None => None,
            },
            where_@,
            message@,
        ),
{
    match line {
        Some(l) => {
            let mut s = string_of("[line ");
            push_decimal(&mut s, l as u64);
            s.append("] Error");
            s.append(where_);
            s.append(": ");
            s.append(message);
            s
        },
        None => {
            let mut s = string_of("Error: ");
            s.append(message);
            s
        },
    }
}

/// The views of a sequence of strings.
pub open spec fn strings_view(v: Seq<String>) -> Seq<Seq<char>> {
    v.map_values(|s: String| s@)
}

/// All error handlers report their errors through `report`.
pub trait ErrorHandler {
    fn report(&mut self, line: Option<usize>, where_: String, message: String);
}

/// Where on its line a token stands, as an error message says it: the end of
/// the input, or the token's text in quotes.
pub open spec fn token_where(t: crate::token::TokenView) -> Seq<char> {
    if t.token_type == TokenType::EOF {
        " at end"@
    } else {
        " at '"@ + t.lexeme + "'"@
    }
}

fn token_where_string(token: &Token) -> (r: String)
    ensures
        r@ == token_where(token@),
{
    match token.token_type {
        TokenType::EOF => string_of(" at end"),
        _ => {
            let mut s = string_of(" at '");
            s.append(token.lexeme.as_str());
            s.append("'");
            s
        },
    }
}

/// Reports errors found while the program runs.
pub struct RuntimeErrorHandler {
    pub had_runtime_error: bool,
    /// The messages reported and not yet sent to an output, oldest first.
    pub messages: Vec<String>,
}

impl RuntimeErrorHandler {
    pub fn new() -> (r: RuntimeErrorHandler)
        ensures
            !r.had_runtime_error,
            r.messages@.len() == 0,
    {
        RuntimeErrorHandler { had_runtime_error: false, messages: Vec::new() }
    }

    pub fn runtime_error(&mut self, error: RuntimeError)
        ensures
            final(self).had_runtime_error,
            strings_view(final(self).messages@) == strings_view(old(self).messages@).push(
                report_text(
                    error.location.spec_line(),
                    match error.location {
                        ErrorLocation::Token(t) => " at '"@ + t.lexeme@ + "'"@,
                        _ => Seq::empty(),
                    },
                    error.message@,
                ),
            ),
    {
        self.had_runtime_error = true;
        let line = error.location.line();
        let where_ = match &error.location {
            ErrorLocation::Token(token) => {
                let mut s = string_of(" at '");
                s.append(token.lexeme.as_str());
                s.append("'");
                s
            },
            _ => String::new(),
        };
        self.report(line, where_, error.message);
    }

    /// Takes out the pending messages, oldest first, for an output to show.
    pub fn take_messages(&mut self) -> (r: Vec<String>)
        ensures
            r@ == old(self).messages@,
            final(self).messages@.len() == 0,
            final(self).had_runtime_error == old(self).had_runtime_error,
    {
        let mut r = Vec::new();
        std::mem::swap(&mut r, &mut self.messages);
        r
    }
}

impl ErrorHandler for RuntimeErrorHandler {
    fn report(&mut self, line: Option<usize>, where_: String, message: String)
        ensures
            final(self).had_runtime_error == old(self).had_runtime_error,
            strings_view(final(self).messages@) == strings_view(old(self).messages@).push(
                report_text(
                    match line {
                        Some(l) => Some(l as nat),
                        None => None,
                    },
                    where_@,
                    message@,
                ),
            ),
    {
        let m = format_report(line, where_.as_str(), message.as_str());
        self.messages.push(m);
        assert(strings_view(self.messages@) =~= strings_view(old(self).messages@).push(m@));
    }
}

/// Reports errors found before the program runs: while scanning, parsing and
/// resolving.
pub struct CompiletimeErrorHandler {
    pub had_error: bool,
    /// The messages reported and not yet sent to an output, oldest first.
    pub messages: Vec<String>,
}

impl CompiletimeErrorHandler {
    pub fn new() -> (r: CompiletimeErrorHandler)
        ensures
            !r.had_error,
            r.messages@.len() == 0,
    {
        CompiletimeErrorHandler { had_error: false, messages: Vec::new() }
    }

    pub fn line_error(&mut self, line: usize, message: String)
        ensures
            final(self).had_error,
            strings_view(final(self).messages@) == strings_view(old(self).messages@).push(
                report_text(Some(line as nat), Seq::empty(), message@),
            ),
    {
        self.had_error = true;
        self.report(Some(line), String::new(), message);
    }

    pub fn token_error(&mut self, token: Token, message: String)
        ensures
            final(self).had_error,
            strings_view(final(self).messages@) == strings_view(old(self).messages@).push(
                report_text(Some(token.line as nat), token_where(token@), message@),
            ),
    {
        self.had_error = true;
        let where_ = token_where_string(&token);
        self.report(Some(token.line), where_, message);
    }

    /// Takes out the pending messages, oldest first, for an output to show.
    pub fn take_messages(&mut self) -> (r: Vec<String>)
        ensures
            r@ == old(self).messages@,
            final(self).messages@.len() == 0,
            final(self).had_error == old(self).had_error,
    {
        let mut r = Vec::new();
        std::mem::swap(&mut r, &mut self.messages);
        r
    }
}

impl ErrorHandler for CompiletimeErrorHandler {
    fn report(&mut self, line: Option<usize>, where_: String, message: String)
        ensures
            final(self).had_error == old(self).had_error,
            strings_view(final(self).messages@) == strings_view(old(self).messages@).push(
                report_text(
                    match line {
                        Some(l) => Some(l as nat),
                        None => None,
                    },
                    where_@,
                    message@,
                ),
            ),
    {
        let m = format_report(line, where_.as_str(), message.as_str());
        self.messages.push(m);
        assert(strings_view(self.messages@) =~= strings_view(old(self).messages@).push(m@));
    }
}

/// Where a runtime error happened.
#[derive(Debug, Clone)]
pub enum ErrorLocation {
    Token(Token),
    Line(usize),
    Unspecified,
}

impl ErrorLocation {
    pub open spec fn spec_line(&self) -> Option<nat> {
        match self {
            ErrorLocation::Token(t) => Some(t.line as nat),
            ErrorLocation::Line(l) => Some(*l as nat),
            ErrorLocation::Unspecified => None,
        }
    }

    pub fn line(&self) -> (r: Option<usize>)
        ensures
            match r {
                Some(l) => self.spec_line() == Some(l as nat),
                None => self.spec_line() == None::<nat>,
            },
    {
        match self {
            ErrorLocation::Token(token) => Some(token.line),
            ErrorLocation::Line(line) => Some(*line),
            _ => None,
        }
    }
}

/// A runtime error: where it happened and what went wrong.
#[derive(Debug, Clone)]
pub struct RuntimeError {
    pub location: ErrorLocation,
    pub message: String,
}

impl RuntimeError {
    pub fn new(location: ErrorLocation, message: String) -> (r: Self)
        ensures
            r.location == location,
            r.message == message,
    {
        RuntimeError { location, message }
    }
}

} // verus!
