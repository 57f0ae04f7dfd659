//! Tokens of the Dove language, the literal values that the scanner and the
//! parser carry, the keyword table, and dictionary keys.
use vstd::prelude::*;
use crate::text::{string_of, push_char, range_equals, int_decimal, isize_to_string};

verus! {

/// The kind of a token.
#[allow(non_camel_case_types)]
#[derive(Clone, Copy, Debug, PartialEq, Eq, Structural)]
pub enum TokenType {
    // Single-character tokens.
    LEFT_PAREN,
    RIGHT_PAREN,
    LEFT_BRACE,
    RIGHT_BRACE,
    LEFT_BRACKET,
    RIGHT_BRACKET,
    COMMA,
    COLON,
    NEWLINE,
    PERCENT,
    // One or two character tokens.
    SLASH,
    SLASH_EQUAL,
    SLASH_LESS,
    SLASH_GREATER,
    STAR,
    STAR_EQUAL,
    BACKSLASH,
    BANG,
    BANG_EQUAL,
    EQUAL,
    EQUAL_EQUAL,
    GREATER,
    GREATER_EQUAL,
    PLUS,
    PLUS_EQUAL,
    PLUS_PLUS,
    MINUS,
    MINUS_EQUAL,
    MINUS_GREATER,
    MINUS_MINUS,
    LESS,
    LESS_EQUAL,
    // One or two or three character tokens.
    DOT,
    DOT_DOT,
    DOT_DOT_DOT,
    // Literals.
    IDENTIFIER,
    STRING,
    NUMBER,
    // Keywords.
    AND,
    BREAK,
    CLASS,
    CONTINUE,
    ELSE,
    FALSE,
    FUN,
    FOR,
    FROM,
    IMPORT,
    IN,
    IF,
    LAMBDA,
    LET,
    NIL,
    NOT,
    OR,
    PRINT,
    RETURN,
    SUPER,
    SELF,
    TRUE,
    WHILE,
    // End of file.
    EOF,
}

/// The name of a token type, as `{:?}` writes it.
pub open spec fn token_type_text(t: TokenType) -> Seq<char> {
    match t {
        TokenType::LEFT_PAREN => "LEFT_PAREN"@,
        TokenType::RIGHT_PAREN => "RIGHT_PAREN"@,
        TokenType::LEFT_BRACE => "LEFT_BRACE"@,
        TokenType::RIGHT_BRACE => "RIGHT_BRACE"@,
        TokenType::LEFT_BRACKET => "LEFT_BRACKET"@,
        TokenType::RIGHT_BRACKET => "RIGHT_BRACKET"@,
        TokenType::COMMA => "COMMA"@,
        TokenType::COLON => "COLON"@,
        TokenType::NEWLINE => "NEWLINE"@,
        TokenType::PERCENT => "PERCENT"@,
        TokenType::SLASH => "SLASH"@,
        TokenType::SLASH_EQUAL => "SLASH_EQUAL"@,
        TokenType::SLASH_LESS => "SLASH_LESS"@,
        TokenType::SLASH_GREATER => "SLASH_GREATER"@,
        TokenType::STAR => "STAR"@,
        TokenType::STAR_EQUAL => "STAR_EQUAL"@,
        TokenType::BACKSLASH => "BACKSLASH"@,
        TokenType::BANG => "BANG"@,
        TokenType::BANG_EQUAL => "BANG_EQUAL"@,
        TokenType::EQUAL => "EQUAL"@,
        TokenType::EQUAL_EQUAL => "EQUAL_EQUAL"@,
        TokenType::GREATER => "GREATER"@,
        TokenType::GREATER_EQUAL => "GREATER_EQUAL"@,
        TokenType::PLUS => "PLUS"@,
        TokenType::PLUS_EQUAL => "PLUS_EQUAL"@,
        TokenType::PLUS_PLUS => "PLUS_PLUS"@,
        TokenType::MINUS => "MINUS"@,
        TokenType::MINUS_EQUAL => "MINUS_EQUAL"@,
        TokenType::MINUS_GREATER => "MINUS_GREATER"@,
        TokenType::MINUS_MINUS => "MINUS_MINUS"@,
        TokenType::LESS => "LESS"@,
        TokenType::LESS_EQUAL => "LESS_EQUAL"@,
        TokenType::DOT => "DOT"@,
        TokenType::DOT_DOT => "DOT_DOT"@,
        TokenType::DOT_DOT_DOT => "DOT_DOT_DOT"@,
        TokenType::IDENTIFIER => "IDENTIFIER"@,
        TokenType::STRING => "STRING"@,
        TokenType::NUMBER => "NUMBER"@,
        TokenType::AND => "AND"@,
        TokenType::BREAK => "BREAK"@,
        TokenType::CLASS => "CLASS"@,
        TokenType::CONTINUE => "CONTINUE"@,
        TokenType::ELSE => "ELSE"@,
        TokenType::FALSE => "FALSE"@,
        TokenType::FUN => "FUN"@,
        TokenType::FOR => "FOR"@,
        TokenType::FROM => "FROM"@,
        TokenType::IMPORT => "IMPORT"@,
        TokenType::IN => "IN"@,
        TokenType::IF => "IF"@,
        TokenType::LAMBDA => "LAMBDA"@,
        TokenType::LET => "LET"@,
        TokenType::NIL => "NIL"@,
        TokenType::NOT => "NOT"@,
        TokenType::OR => "OR"@,
        TokenType::PRINT => "PRINT"@,
        TokenType::RETURN => "RETURN"@,
        TokenType::SUPER => "SUPER"@,
        TokenType::SELF => "SELF"@,
        TokenType::TRUE => "TRUE"@,
        TokenType::WHILE => "WHILE"@,
        TokenType::EOF => "EOF"@,
    }
}

/// The name of a token type, as `{:?}` writes it.
pub fn token_type_string(t: TokenType) -> (r: String)
    ensures
        r@ == token_type_text(t),
{
    match t {
        TokenType::LEFT_PAREN => string_of("LEFT_PAREN"),
        TokenType::RIGHT_PAREN => string_of("RIGHT_PAREN"),
        TokenType::LEFT_BRACE => string_of("LEFT_BRACE"),
        TokenType::RIGHT_BRACE => string_of("RIGHT_BRACE"),
        TokenType::LEFT_BRACKET => string_of("LEFT_BRACKET"),
        TokenType::RIGHT_BRACKET => string_of("RIGHT_BRACKET"),
        TokenType::COMMA => string_of("COMMA"),
        TokenType::COLON => string_of("COLON"),
        TokenType::NEWLINE => string_of("NEWLINE"),
        TokenType::PERCENT => string_of("PERCENT"),
        TokenType::SLASH => string_of("SLASH"),
        TokenType::SLASH_EQUAL => string_of("SLASH_EQUAL"),
        TokenType::SLASH_LESS => string_of("SLASH_LESS"),
        TokenType::SLASH_GREATER => string_of("SLASH_GREATER"),
        TokenType::STAR => string_of("STAR"),
        TokenType::STAR_EQUAL => string_of("STAR_EQUAL"),
        TokenType::BACKSLASH => string_of("BACKSLASH"),
        TokenType::BANG => string_of("BANG"),
        TokenType::BANG_EQUAL => string_of("BANG_EQUAL"),
        TokenType::EQUAL => string_of("EQUAL"),
        TokenType::EQUAL_EQUAL => string_of("EQUAL_EQUAL"),
        TokenType::GREATER => string_of("GREATER"),
        TokenType::GREATER_EQUAL => string_of("GREATER_EQUAL"),
        TokenType::PLUS => string_of("PLUS"),
        TokenType::PLUS_EQUAL => string_of("PLUS_EQUAL"),
        TokenType::PLUS_PLUS => string_of("PLUS_PLUS"),
        TokenType::MINUS => string_of("MINUS"),
        TokenType::MINUS_EQUAL => string_of("MINUS_EQUAL"),
        TokenType::MINUS_GREATER => string_of("MINUS_GREATER"),
        TokenType::MINUS_MINUS => string_of("MINUS_MINUS"),
        TokenType::LESS => string_of("LESS"),
        TokenType::LESS_EQUAL => string_of("LESS_EQUAL"),
        TokenType::DOT => string_of("DOT"),
        TokenType::DOT_DOT => string_of("DOT_DOT"),
        TokenType::DOT_DOT_DOT => string_of("DOT_DOT_DOT"),
        TokenType::IDENTIFIER => string_of("IDENTIFIER"),
        TokenType::STRING => string_of("STRING"),
        TokenType::NUMBER => string_of("NUMBER"),
        TokenType::AND => string_of("AND"),
        TokenType::BREAK => string_of("BREAK"),
        TokenType::CLASS => string_of("CLASS"),
        TokenType::CONTINUE => string_of("CONTINUE"),
        TokenType::ELSE => string_of("ELSE"),
        TokenType::FALSE => string_of("FALSE"),
        TokenType::FUN => string_of("FUN"),
        TokenType::FOR => string_of("FOR"),
        TokenType::FROM => string_of("FROM"),
        TokenType::IMPORT => string_of("IMPORT"),
        TokenType::IN => string_of("IN"),
        TokenType::IF => string_of("IF"),
        TokenType::LAMBDA => string_of("LAMBDA"),
        TokenType::LET => string_of("LET"),
        TokenType::NIL => string_of("NIL"),
        TokenType::NOT => string_of("NOT"),
        TokenType::OR => string_of("OR"),
        TokenType::PRINT => string_of("PRINT"),
        TokenType::RETURN => string_of("RETURN"),
        TokenType::SUPER => string_of("SUPER"),
        TokenType::SELF => string_of("SELF"),
        TokenType::TRUE => string_of("TRUE"),
        TokenType::WHILE => string_of("WHILE"),
        TokenType::EOF => string_of("EOF"),
    }
}

/// A literal value written in the source.
///
/// A number keeps the decimal text it was written with (digits, with at most
/// one `.` between digits); its numeric value is taken by whoever evaluates it.
#[derive(Clone, Debug)]
pub enum Literal {
    String(String),
    Number(String),
    Boolean(bool),
    Nil,
}

/// The mathematical value of a [`Literal`].
pub enum LiteralView {
    String(Seq<char>),
    Number(Seq<char>),
    Boolean(bool),
    Nil,
}

impl View for Literal {
    type V = LiteralView;

    open spec fn view(&self) -> LiteralView {
        match self {
            Literal::String(s) => LiteralView::String(s@),
            Literal::Number(s) => LiteralView::Number(s@),
            Literal::Boolean(b) => LiteralView::Boolean(*b),
            Literal::Nil => LiteralView::Nil,
        }
    }
}

impl Literal {
    /// A copy of this literal.
    pub fn duplicate(&self) -> (r: Literal)
        ensures
            r@ == self@,
    {
        match self {
            Literal::String(s) => Literal::String(s.clone()),
            Literal::Number(s) => Literal::Number(s.clone()),
            Literal::Boolean(b) => Literal::Boolean(*b),
            Literal::Nil => Literal::Nil,
        }
    }
}

/// A token: its kind, the text it was read from, the literal it denotes
/// (strings and numbers only) and the line it ends on.
#[derive(Clone, Debug)]
pub struct Token {
    pub token_type: TokenType,
    pub lexeme: String,
    pub literal: Option<Literal>,
    pub line: usize,
}

/// The mathematical value of a [`Token`].
pub struct TokenView {
    pub token_type: TokenType,
    pub lexeme: Seq<char>,
    pub literal: Option<LiteralView>,
    pub line: nat,
}

pub open spec fn literal_option_view(l: Option<Literal>) -> Option<LiteralView> {
    match l {
        Some(v) => Some(v@),
        None => None,
    }
}

impl View for Token {
    type V = TokenView;

    open spec fn view(&self) -> TokenView {
        TokenView {
            token_type: self.token_type,
            lexeme: self.lexeme@,
            literal: literal_option_view(self.literal),
            line: self.line as nat,
        }
    }
}

/// The views of a sequence of tokens.
pub open spec fn tokens_view(ts: Seq<Token>) -> Seq<TokenView> {
    ts.map_values(|t: Token| t@)
}

impl Token {
    pub fn new(token_type: TokenType, lexeme: String, literal: Option<Literal>, line: usize) -> (r:
        Token)
        ensures
            r.token_type == token_type,
            r.lexeme == lexeme,
            r.literal == literal,
            r.line == line,
    {
        Token { token_type, lexeme, literal, line }
    }

    /// A copy of this token.
    pub fn duplicate(&self) -> (r: Token)
        ensures
            r@ == self@,
    {
        let literal = match &self.literal {
            Some(l) => Some(l.duplicate()),
            None => None,
        };
        Token { token_type: self.token_type, lexeme: self.lexeme.clone(), literal, line: self.line }
    }
}

/// A copy of a sequence of tokens.
pub fn duplicate_tokens(v: &Vec<Token>) -> (r: Vec<Token>)
    ensures
        tokens_view(r@) == tokens_view(v@),
{
    let mut r: Vec<Token> = Vec::new();
    let mut i: usize = 0;
    while i < v.len()
        invariant
            i <= v@.len(),
            r@.len() == i,
            forall|j: int| 0 <= j < i ==> #[trigger] r@[j]@ == v@[j]@,
        decreases v@.len() - i,
    {
        let t = v[i].duplicate();
        r.push(t);
        i = i + 1;
    }
    assert(tokens_view(r@) =~= tokens_view(v@));
    r
}

/// The token type of a reserved word, if `s` is one.
pub open spec fn keyword_type(s: Seq<char>) -> Option<TokenType> {
    if s == "and"@ {
        Some(TokenType::AND)
    } else if s == "break"@ {
        Some(TokenType::BREAK)
    } else if s == "class"@ {
        Some(TokenType::CLASS)
    } else if s == "continue"@ {
        Some(TokenType::CONTINUE)
    } else if s == "else"@ {
        Some(TokenType::ELSE)
    } else if s == "false"@ {
        Some(TokenType::FALSE)
    } else if s == "fun"@ {
        Some(TokenType::FUN)
    } else if s == "for"@ {
        Some(TokenType::FOR)
    } else if s == "from"@ {
        Some(TokenType::FROM)
    } else if s == "in"@ {
        Some(TokenType::IN)
    } else if s == "if"@ {
        Some(TokenType::IF)
    } else if s == "lambda"@ {
        Some(TokenType::LAMBDA)
    } else if s == "let"@ {
        Some(TokenType::LET)
    } else if s == "nil"@ {
        Some(TokenType::NIL)
    } else if s == "not"@ {
        Some(TokenType::NOT)
    } else if s == "or"@ {
        Some(TokenType::OR)
    } else if s == "print"@ {
        Some(TokenType::PRINT)
    } else if s == "return"@ {
        Some(TokenType::RETURN)
    } else if s == "super"@ {
        Some(TokenType::SUPER)
    } else if s == "self"@ {
        Some(TokenType::SELF)
    } else if s == "true"@ {
        Some(TokenType::TRUE)
    } else if s == "while"@ {
        Some(TokenType::WHILE)
    } else {
        None
    }
}

/// The token type of the reserved word spelled by `src[start..end]`, if any.
pub fn lookup_keyword(src: &Vec<char>, start: usize, end: usize) -> (r: Option<TokenType>)
    requires
        start <= end <= src@.len(),
    ensures
        r == keyword_type(src@.subrange(start as int, end as int)),
{
    if range_equals(src, start, end, "and") {
        Some(TokenType::AND)
    } else if range_equals(src, start, end, "break") {
        Some(TokenType::BREAK)
    } else if range_equals(src, start, end, "class") {
        Some(TokenType::CLASS)
    } else if range_equals(src, start, end, "continue") {
        Some(TokenType::CONTINUE)
    } else if range_equals(src, start, end, "else") {
        Some(TokenType::ELSE)
    } else if range_equals(src, start, end, "false") {
        Some(TokenType::FALSE)
    } else if range_equals(src, start, end, "fun") {
        Some(TokenType::FUN)
    } else if range_equals(src, start, end, "for") {
        Some(TokenType::FOR)
    } else if range_equals(src, start, end, "from") {
        Some(TokenType::FROM)
    } else if range_equals(src, start, end, "in") {
        Some(TokenType::IN)
    } else if range_equals(src, start, end, "if") {
        Some(TokenType::IF)
    } else if range_equals(src, start, end, "lambda") {
        Some(TokenType::LAMBDA)
    } else if range_equals(src, start, end, "let") {
        Some(TokenType::LET)
    } else if range_equals(src, start, end, "nil") {
        Some(TokenType::NIL)
    } else if range_equals(src, start, end, "not") {
        Some(TokenType::NOT)
    } else if range_equals(src, start, end, "or") {
        Some(TokenType::OR)
    } else if range_equals(src, start, end, "print") {
        Some(TokenType::PRINT)
    } else if range_equals(src, start, end, "return") {
        Some(TokenType::RETURN)
    } else if range_equals(src, start, end, "super") {
        Some(TokenType::SUPER)
    } else if range_equals(src, start, end, "self") {
        Some(TokenType::SELF)
    } else if range_equals(src, start, end, "true") {
        Some(TokenType::TRUE)
    } else if range_equals(src, start, end, "while") {
        Some(TokenType::WHILE)
    } else {
        None
    }
}

/// A key of a Dove dictionary: a string or an integer.
#[derive(Clone, Debug, Hash)]
pub enum DictKey {
    StringKey(String),
    NumberKey(isize),
}

/// The mathematical value of a [`DictKey`].
pub enum DictKeyView {
    StringKey(Seq<char>),
    NumberKey(int),
}

impl View for DictKey {
    type V = DictKeyView;

    open spec fn view(&self) -> DictKeyView {
        match self {
            DictKey::StringKey(s) => DictKeyView::StringKey(s@),
            DictKey::NumberKey(n) => DictKeyView::NumberKey(*n as int),
        }
    }
}

/// How a dictionary key is written when a dictionary is printed: a string
/// key in double quotes, an integer key in decimal.
pub open spec fn dict_key_text(k: DictKeyView) -> Seq<char> {
    match k {
        DictKeyView::StringKey(s) => seq!['"'] + s + seq!['"'],
        DictKeyView::NumberKey(n) => int_decimal(n),
    }
}

impl DictKey {
    pub fn stringify(&self) -> (r: String)
        ensures
            r@ == dict_key_text(self@),
    {
        match self {
            DictKey::StringKey(s) => {
                let mut r = String::new();
                push_char(&mut r, '"');
                r.append(s.as_str());
                push_char(&mut r, '"');
                assert(r@ =~= dict_key_text(self@));
                r
            },
            DictKey::NumberKey(n) => isize_to_string(*n),
        }
    }
}

impl PartialEq for DictKey {
    fn eq(&self, other: &Self) -> (r: bool) {
        match self {
            DictKey::StringKey(s) => match other {
                DictKey::StringKey(other_s) => *s == *other_s,
                DictKey::NumberKey(_) => false,
            },
            DictKey::NumberKey(n) => match other {
                DictKey::StringKey(_) => false,
                DictKey::NumberKey(other_n) => *n == *other_n,
            },
        }
    }
}

impl vstd::std_specs::cmp::PartialEqSpecImpl for DictKey {
    open spec fn obeys_eq_spec() -> bool {
        true
    }

    open spec fn eq_spec(&self, other: &DictKey) -> bool {
        self@ == other@
    }
}

impl Eq for DictKey {

}

} // verus!
