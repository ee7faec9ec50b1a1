//! The lexer: turns SQL text into tokens.

use vstd::prelude::*;
use crate::text::{
    alphabetic, alphanumeric, ascii_digit, is_alphabetic, is_alphanumeric, is_white_space,
    chars_of, is_ascii_digit, push_char, push_text, same_text, to_upper, uppercase,
    whitespace, is_ascii_char, is_ascii_letter, ascii_upper,
};

verus! {

/// A lexical unit of the SQL dialect.
#[derive(Debug, PartialEq, Clone)]
pub enum Token {
    Select,
    From,
    Where,
    Insert,
    Into,
    Values,
    Update,
    SetKw,
    Delete,
    Create,
    Table,
    Drop,
    Join,
    On,
    And,
    Int,
    Text,
    Float,
    Boolean,
    Asterisk,
    Comma,
    Semicolon,
    LParen,
    RParen,
    Dot,
    Eq,
    Ne,
    Gt,
    Lt,
    Gte,
    Lte,
    Ident(String),
    StringLit(String),
    NumberLit(String),
    Alter,
    Add,
    Column,
    Rename,
    To,
    Order,
    Group,
    By,
    Asc,
    Desc,
    Limit,
    Count,
    Sum,
    Avg,
    Min,
    Max,
}

/// The view of a token: its kind, and the characters it carries.
pub enum SpecToken {
    Select,
    From,
    Where,
    Insert,
    Into,
    Values,
    Update,
    SetKw,
    Delete,
    Create,
    Table,
    Drop,
    Join,
    On,
    And,
    Int,
    Text,
    Float,
    Boolean,
    Asterisk,
    Comma,
    Semicolon,
    LParen,
    RParen,
    Dot,
    Eq,
    Ne,
    Gt,
    Lt,
    Gte,
    Lte,
    Ident(Seq<char>),
    StringLit(Seq<char>),
    NumberLit(Seq<char>),
    Alter,
    Add,
    Column,
    Rename,
    To,
    Order,
    Group,
    By,
    Asc,
    Desc,
    Limit,
    Count,
    Sum,
    Avg,
    Min,
    Max,
}

impl View for Token {
    type V = SpecToken;

    open spec fn view(&self) -> SpecToken {
        match self {
            Token::Select => SpecToken::Select,
            Token::From => SpecToken::From,
            Token::Where => SpecToken::Where,
            Token::Insert => SpecToken::Insert,
            Token::Into => SpecToken::Into,
            Token::Values => SpecToken::Values,
            Token::Update => SpecToken::Update,
            Token::SetKw => SpecToken::SetKw,
            Token::Delete => SpecToken::Delete,
            Token::Create => SpecToken::Create,
            Token::Table => SpecToken::Table,
            Token::Drop => SpecToken::Drop,
            Token::Join => SpecToken::Join,
            Token::On => SpecToken::On,
            Token::And => SpecToken::And,
            Token::Int => SpecToken::Int,
            Token::Text => SpecToken::Text,
            Token::Float => SpecToken::Float,
            Token::Boolean => SpecToken::Boolean,
            Token::Asterisk => SpecToken::Asterisk,
            Token::Comma => SpecToken::Comma,
            Token::Semicolon => SpecToken::Semicolon,
            Token::LParen => SpecToken::LParen,
            Token::RParen => SpecToken::RParen,
            Token::Dot => SpecToken::Dot,
            Token::Eq => SpecToken::Eq,
            Token::Ne => SpecToken::Ne,
            Token::Gt => SpecToken::Gt,
            Token::Lt => SpecToken::Lt,
            Token::Gte => SpecToken::Gte,
            Token::Lte => SpecToken::Lte,
            Token::Ident(s) => SpecToken::Ident(s@),
            Token::StringLit(s) => SpecToken::StringLit(s@),
            Token::NumberLit(s) => SpecToken::NumberLit(s@),
            Token::Alter => SpecToken::Alter,
            Token::Add => SpecToken::Add,
            Token::Column => SpecToken::Column,
            Token::Rename => SpecToken::Rename,
            Token::To => SpecToken::To,
            Token::Order => SpecToken::Order,
            Token::Group => SpecToken::Group,
            Token::By => SpecToken::By,
            Token::Asc => SpecToken::Asc,
            Token::Desc => SpecToken::Desc,
            Token::Limit => SpecToken::Limit,
            Token::Count => SpecToken::Count,
            Token::Sum => SpecToken::Sum,
            Token::Avg => SpecToken::Avg,
            Token::Min => SpecToken::Min,
            Token::Max => SpecToken::Max,
        }
    }
}

/// The keyword that an upper-cased word spells, if any.
pub open spec fn keyword_of(u: Seq<char>) -> Option<SpecToken> {
    if u == "SELECT"@ {
        Some(SpecToken::Select)
    } else if u == "FROM"@ {
        Some(SpecToken::From)
    } else if u == "WHERE"@ {
        Some(SpecToken::Where)
    } else if u == "INSERT"@ {
        Some(SpecToken::Insert)
    } else if u == "INTO"@ {
        Some(SpecToken::Into)
    } else if u == "VALUES"@ {
        Some(SpecToken::Values)
    } else if u == "UPDATE"@ {
        Some(SpecToken::Update)
    } else if u == "SET"@ {
        Some(SpecToken::SetKw)
    } else if u == "DELETE"@ {
        Some(SpecToken::Delete)
    } else if u == "CREATE"@ {
        Some(SpecToken::Create)
    } else if u == "TABLE"@ {
        Some(SpecToken::Table)
    } else if u == "DROP"@ {
        Some(SpecToken::Drop)
    } else if u == "JOIN"@ {
        Some(SpecToken::Join)
    } else if u == "ON"@ {
        Some(SpecToken::On)
    } else if u == "AND"@ {
        Some(SpecToken::And)
    } else if u == "INT"@ {
        Some(SpecToken::Int)
    } else if u == "TEXT"@ {
        Some(SpecToken::Text)
    } else if u == "FLOAT"@ {
        Some(SpecToken::Float)
    } else if u == "BOOLEAN"@ {
        Some(SpecToken::Boolean)
    } else if u == "ALTER"@ {
        Some(SpecToken::Alter)
    } else if u == "ADD"@ {
        Some(SpecToken::Add)
    } else if u == "COLUMN"@ {
        Some(SpecToken::Column)
    } else if u == "RENAME"@ {
        Some(SpecToken::Rename)
    } else if u == "TO"@ {
        Some(SpecToken::To)
    } else if u == "ORDER"@ {
        Some(SpecToken::Order)
    } else if u == "GROUP"@ {
        Some(SpecToken::Group)
    } else if u == "BY"@ {
        Some(SpecToken::By)
    } else if u == "ASC"@ {
        Some(SpecToken::Asc)
    } else if u == "DESC"@ {
        Some(SpecToken::Desc)
    } else if u == "LIMIT"@ {
        Some(SpecToken::Limit)
    } else if u == "COUNT"@ {
        Some(SpecToken::Count)
    } else if u == "SUM"@ {
        Some(SpecToken::Sum)
    } else if u == "AVG"@ {
        Some(SpecToken::Avg)
    } else if u == "MIN"@ {
        Some(SpecToken::Min)
    } else if u == "MAX"@ {
        Some(SpecToken::Max)
    } else {
        None
    }
}

/// The keyword token that an upper-cased word spells, if any.
fn keyword_token(u: &str) -> (t: Option<Token>)
    ensures
        match t {
            Some(t) => keyword_of(u@) == Some(t@),
            None => keyword_of(u@).is_none(),
        },
{
    if same_text(u, "SELECT") {
        Some(Token::Select)
    } else if same_text(u, "FROM") {
        Some(Token::From)
    } else if same_text(u, "WHERE") {
        Some(Token::Where)
    } else if same_text(u, "INSERT") {
        Some(Token::Insert)
    } else if same_text(u, "INTO") {
        Some(Token::Into)
    } else if same_text(u, "VALUES") {
        Some(Token::Values)
    } else if same_text(u, "UPDATE") {
        Some(Token::Update)
    } else if same_text(u, "SET") {
        Some(Token::SetKw)
    } else if same_text(u, "DELETE") {
        Some(Token::Delete)
    } else if same_text(u, "CREATE") {
        Some(Token::Create)
    } else if same_text(u, "TABLE") {
        Some(Token::Table)
    } else if same_text(u, "DROP") {
        Some(Token::Drop)
    } else if same_text(u, "JOIN") {
        Some(Token::Join)
    } else if same_text(u, "ON") {
        Some(Token::On)
    } else if same_text(u, "AND") {
        Some(Token::And)
    } else if same_text(u, "INT") {
        Some(Token::Int)
    } else if same_text(u, "TEXT") {
        Some(Token::Text)
    } else if same_text(u, "FLOAT") {
        Some(Token::Float)
    } else if same_text(u, "BOOLEAN") {
        Some(Token::Boolean)
    } else if same_text(u, "ALTER") {
        Some(Token::Alter)
    } else if same_text(u, "ADD") {
        Some(Token::Add)
    } else if same_text(u, "COLUMN") {
        Some(Token::Column)
    } else if same_text(u, "RENAME") {
        Some(Token::Rename)
    } else if same_text(u, "TO") {
        Some(Token::To)
    } else if same_text(u, "ORDER") {
        Some(Token::Order)
    } else if same_text(u, "GROUP") {
        Some(Token::Group)
    } else if same_text(u, "BY") {
        Some(Token::By)
    } else if same_text(u, "ASC") {
        Some(Token::Asc)
    } else if same_text(u, "DESC") {
        Some(Token::Desc)
    } else if same_text(u, "LIMIT") {
        Some(Token::Limit)
    } else if same_text(u, "COUNT") {
        Some(Token::Count)
    } else if same_text(u, "SUM") {
        Some(Token::Sum)
    } else if same_text(u, "AVG") {
        Some(Token::Avg)
    } else if same_text(u, "MIN") {
        Some(Token::Min)
    } else if same_text(u, "MAX") {
        Some(Token::Max)
    } else {
        None
    }
}

/// The token that a word read from the input stands for: a keyword when its upper-case
/// form spells one, an identifier carrying the word as written otherwise.
pub open spec fn word_token(w: Seq<char>) -> SpecToken {
    match keyword_of(uppercase(w)) {
        Some(k) => k,
        None => SpecToken::Ident(w),
    }
}

/// First position at or after `i` that holds no white space (or the end).
pub open spec fn skip_ws(s: Seq<char>, i: int) -> int
    decreases s.len() - i,
{
    if 0 <= i < s.len() && is_white_space(s[i]) {
        skip_ws(s, i + 1)
    } else {
        i
    }
}

/// First position at or after `i` that holds a quote (or the end).
pub open spec fn string_end(s: Seq<char>, i: int) -> int
    decreases s.len() - i,
{
    if 0 <= i < s.len() && s[i] != '\'' {
        string_end(s, i + 1)
    } else {
        i
    }
}

/// First position at or after `i` that holds neither an ASCII digit nor a dot (or the end).
pub open spec fn number_end(s: Seq<char>, i: int) -> int
    decreases s.len() - i,
{
    if 0 <= i < s.len() && (is_ascii_digit(s[i]) || s[i] == '.') {
        number_end(s, i + 1)
    } else {
        i
    }
}

/// First position at or after `i` that holds neither an alphanumeric character nor `_`.
pub open spec fn word_end(s: Seq<char>, i: int) -> int
    decreases s.len() - i,
{
    if 0 <= i < s.len() && (is_alphanumeric(s[i]) || s[i] == '_') {
        word_end(s, i + 1)
    } else {
        i
    }
}

/// The token (if any) that starts at position `p`, which holds no white space, and the
/// position after it. Characters that start no token are skipped.
pub open spec fn lex_step(s: Seq<char>, p: int) -> (Option<SpecToken>, int) {
    let c = s[p];
    let next_is_eq = p + 1 < s.len() && s[p + 1] == '=';
    if c == '*' {
        (Some(SpecToken::Asterisk), p + 1)
    } else if c == ',' {
        (Some(SpecToken::Comma), p + 1)
    } else if c == ';' {
        (Some(SpecToken::Semicolon), p + 1)
    } else if c == '(' {
        (Some(SpecToken::LParen), p + 1)
    } else if c == ')' {
        (Some(SpecToken::RParen), p + 1)
    } else if c == '.' {
        (Some(SpecToken::Dot), p + 1)
    } else if c == '=' {
        (Some(SpecToken::Eq), p + 1)
    } else if c == '>' {
        if next_is_eq { (Some(SpecToken::Gte), p + 2) } else { (Some(SpecToken::Gt), p + 1) }
    } else if c == '<' {
        if next_is_eq { (Some(SpecToken::Lte), p + 2) } else { (Some(SpecToken::Lt), p + 1) }
    } else if c == '!' {
        if next_is_eq { (Some(SpecToken::Ne), p + 2) } else { (None, p + 1) }
    } else if c == '\'' {
        let e = string_end(s, p + 1);
        (Some(SpecToken::StringLit(s.subrange(p + 1, e))), if e < s.len() { e + 1 } else { e })
    } else if is_ascii_digit(c) {
        let e = number_end(s, p);
        (Some(SpecToken::NumberLit(s.subrange(p, e))), e)
    } else if is_alphabetic(c) || c == '_' {
        let e = word_end(s, p + 1);
        (Some(word_token(s.subrange(p, e))), e)
    } else {
        (None, p + 1)
    }
}

pub proof fn lemma_lex_step_progress(s: Seq<char>, p: int)
    requires
        0 <= p < s.len(),
    ensures
        p < lex_step(s, p).1 <= s.len(),
{
    lemma_string_end(s, p + 1);
    lemma_number_end(s, p + 1);
    lemma_word_end(s, p + 1);
}

/// The tokens of `s` from position `i` on.
pub open spec fn lex(s: Seq<char>, i: int) -> Seq<SpecToken>
    decreases s.len() - i,
{
    let p = skip_ws(s, i);
    if i < 0 || p >= s.len() {
        seq![]
    } else {
        let (t, q) = lex_step(s, p);
        proof {
            lemma_skip_ws(s, i);
            lemma_lex_step_progress(s, p);
        }
        match t {
            Some(t) => seq![t] + lex(s, q),
            None => lex(s, q),
        }
    }
}

/// The tokens of a whole text.
pub open spec fn tokens_of(s: Seq<char>) -> Seq<SpecToken> {
    lex(s, 0)
}

pub open spec fn tokens_view(v: Seq<Token>) -> Seq<SpecToken> {
    v.map_values(|t: Token| t@)
}

pub proof fn lemma_skip_ws(s: Seq<char>, i: int)
    requires
        0 <= i <= s.len(),
    ensures
        i <= skip_ws(s, i) <= s.len(),
        skip_ws(s, skip_ws(s, i)) == skip_ws(s, i),
        skip_ws(s, i) < s.len() ==> !is_white_space(s[skip_ws(s, i)]),
    decreases s.len() - i,
{
    if i < s.len() && is_white_space(s[i]) {
        lemma_skip_ws(s, i + 1);
    }
}

pub proof fn lemma_string_end(s: Seq<char>, i: int)
    requires
        0 <= i <= s.len(),
    ensures
        i <= string_end(s, i) <= s.len(),
    decreases s.len() - i,
{
    if i < s.len() && s[i] != '\'' {
        lemma_string_end(s, i + 1);
    }
}

pub proof fn lemma_number_end(s: Seq<char>, i: int)
    requires
        0 <= i <= s.len(),
    ensures
        i <= number_end(s, i) <= s.len(),
    decreases s.len() - i,
{
    if i < s.len() && (is_ascii_digit(s[i]) || s[i] == '.') {
        lemma_number_end(s, i + 1);
    }
}

pub proof fn lemma_word_end(s: Seq<char>, i: int)
    requires
        0 <= i <= s.len(),
    ensures
        i <= word_end(s, i) <= s.len(),
    decreases s.len() - i,
{
    if i < s.len() && (is_alphanumeric(s[i]) || s[i] == '_') {
        lemma_word_end(s, i + 1);
    }
}

/// Whether two tokens are the same: same kind, and same characters where they carry text.
pub fn same_token(a: &Token, b: &Token) -> (r: bool)
    ensures
        r == (a@ == b@),
{
    match (a, b) {
        (Token::Select, Token::Select) => true,
        (Token::From, Token::From) => true,
        (Token::Where, Token::Where) => true,
        (Token::Insert, Token::Insert) => true,
        (Token::Into, Token::Into) => true,
        (Token::Values, Token::Values) => true,
        (Token::Update, Token::Update) => true,
        (Token::SetKw, Token::SetKw) => true,
        (Token::Delete, Token::Delete) => true,
        (Token::Create, Token::Create) => true,
        (Token::Table, Token::Table) => true,
        (Token::Drop, Token::Drop) => true,
        (Token::Join, Token::Join) => true,
        (Token::On, Token::On) => true,
        (Token::And, Token::And) => true,
        (Token::Int, Token::Int) => true,
        (Token::Text, Token::Text) => true,
        (Token::Float, Token::Float) => true,
        (Token::Boolean, Token::Boolean) => true,
        (Token::Asterisk, Token::Asterisk) => true,
        (Token::Comma, Token::Comma) => true,
        (Token::Semicolon, Token::Semicolon) => true,
        (Token::LParen, Token::LParen) => true,
        (Token::RParen, Token::RParen) => true,
        (Token::Dot, Token::Dot) => true,
        (Token::Eq, Token::Eq) => true,
        (Token::Ne, Token::Ne) => true,
        (Token::Gt, Token::Gt) => true,
        (Token::Lt, Token::Lt) => true,
        (Token::Gte, Token::Gte) => true,
        (Token::Lte, Token::Lte) => true,
        (Token::Ident(x), Token::Ident(y)) => same_text(x.as_str(), y.as_str()),
        (Token::StringLit(x), Token::StringLit(y)) => same_text(x.as_str(), y.as_str()),
        (Token::NumberLit(x), Token::NumberLit(y)) => same_text(x.as_str(), y.as_str()),
        (Token::Alter, Token::Alter) => true,
        (Token::Add, Token::Add) => true,
        (Token::Column, Token::Column) => true,
        (Token::Rename, Token::Rename) => true,
        (Token::To, Token::To) => true,
        (Token::Order, Token::Order) => true,
        (Token::Group, Token::Group) => true,
        (Token::By, Token::By) => true,
        (Token::Asc, Token::Asc) => true,
        (Token::Desc, Token::Desc) => true,
        (Token::Limit, Token::Limit) => true,
        (Token::Count, Token::Count) => true,
        (Token::Sum, Token::Sum) => true,
        (Token::Avg, Token::Avg) => true,
        (Token::Min, Token::Min) => true,
        (Token::Max, Token::Max) => true,
        _ => false,
    }
}

/// What `Debug` writes for a text (`format!("{:?}", s)` on a `str`): the text in double
/// quotes, with characters escaped as `char::escape_debug` does.
pub uninterp spec fn str_debug_text(s: Seq<char>) -> Seq<char>;

/// Writes the text with `Debug` (`format!("{:?}", s)` on a `str`); the result is named by
/// `str_debug_text`.
#[verifier::external_body]
fn str_debug(s: &str) -> (r: String)
    ensures
        r@ == str_debug_text(s@),
{
    format!("{:?}", s)
}

pub open spec fn opt_token_view(t: Option<&Token>) -> Option<SpecToken> {
    match t {
        Some(t) => Some(t@),
        None => None,
    }
}

/// How a token is written in messages: the name of its kind (the `SET` keyword reads `Set`),
/// and for a token that carries text, that text written with `Debug`, in brackets.
pub open spec fn token_text(t: SpecToken) -> Seq<char> {
    match t {
        SpecToken::Select => "Select"@,
        SpecToken::From => "From"@,
        SpecToken::Where => "Where"@,
        SpecToken::Insert => "Insert"@,
        SpecToken::Into => "Into"@,
        SpecToken::Values => "Values"@,
        SpecToken::Update => "Update"@,
        SpecToken::SetKw => "Set"@,
        SpecToken::Delete => "Delete"@,
        SpecToken::Create => "Create"@,
        SpecToken::Table => "Table"@,
        SpecToken::Drop => "Drop"@,
        SpecToken::Join => "Join"@,
        SpecToken::On => "On"@,
        SpecToken::And => "And"@,
        SpecToken::Int => "Int"@,
        SpecToken::Text => "Text"@,
        SpecToken::Float => "Float"@,
        SpecToken::Boolean => "Boolean"@,
        SpecToken::Asterisk => "Asterisk"@,
        SpecToken::Comma => "Comma"@,
        SpecToken::Semicolon => "Semicolon"@,
        SpecToken::LParen => "LParen"@,
        SpecToken::RParen => "RParen"@,
        SpecToken::Dot => "Dot"@,
        SpecToken::Eq => "Eq"@,
        SpecToken::Ne => "Ne"@,
        SpecToken::Gt => "Gt"@,
        SpecToken::Lt => "Lt"@,
        SpecToken::Gte => "Gte"@,
        SpecToken::Lte => "Lte"@,
        SpecToken::Alter => "Alter"@,
        SpecToken::Add => "Add"@,
        SpecToken::Column => "Column"@,
        SpecToken::Rename => "Rename"@,
        SpecToken::To => "To"@,
        SpecToken::Order => "Order"@,
        SpecToken::Group => "Group"@,
        SpecToken::By => "By"@,
        SpecToken::Asc => "Asc"@,
        SpecToken::Desc => "Desc"@,
        SpecToken::Limit => "Limit"@,
        SpecToken::Count => "Count"@,
        SpecToken::Sum => "Sum"@,
        SpecToken::Avg => "Avg"@,
        SpecToken::Min => "Min"@,
        SpecToken::Max => "Max"@,
        SpecToken::Ident(x) => "Ident("@ + str_debug_text(x) + ")"@,
        SpecToken::StringLit(x) => "StringLit("@ + str_debug_text(x) + ")"@,
        SpecToken::NumberLit(x) => "NumberLit("@ + str_debug_text(x) + ")"@,
    }
}

/// How an optional token is written in messages, as `Debug` writes an `Option`.
pub open spec fn shown_token(t: Option<SpecToken>) -> Seq<char> {
    match t {
        None => "None"@,
        Some(k) => "Some("@ + token_text(k) + ")"@,
    }
}

/// Appends how the token is written in messages.
fn push_token_text(out: &mut String, t: &Token)
    ensures
        final(out)@ == old(out)@ + token_text(t@),
{
    match t {
        Token::Select => push_text(out, "Select"),
        Token::From => push_text(out, "From"),
        Token::Where => push_text(out, "Where"),
        Token::Insert => push_text(out, "Insert"),
        Token::Into => push_text(out, "Into"),
        Token::Values => push_text(out, "Values"),
        Token::Update => push_text(out, "Update"),
        Token::SetKw => push_text(out, "Set"),
        Token::Delete => push_text(out, "Delete"),
        Token::Create => push_text(out, "Create"),
        Token::Table => push_text(out, "Table"),
        Token::Drop => push_text(out, "Drop"),
        Token::Join => push_text(out, "Join"),
        Token::On => push_text(out, "On"),
        Token::And => push_text(out, "And"),
        Token::Int => push_text(out, "Int"),
        Token::Text => push_text(out, "Text"),
        Token::Float => push_text(out, "Float"),
        Token::Boolean => push_text(out, "Boolean"),
        Token::Asterisk => push_text(out, "Asterisk"),
        Token::Comma => push_text(out, "Comma"),
        Token::Semicolon => push_text(out, "Semicolon"),
        Token::LParen => push_text(out, "LParen"),
        Token::RParen => push_text(out, "RParen"),
        Token::Dot => push_text(out, "Dot"),
        Token::Eq => push_text(out, "Eq"),
        Token::Ne => push_text(out, "Ne"),
        Token::Gt => push_text(out, "Gt"),
        Token::Lt => push_text(out, "Lt"),
        Token::Gte => push_text(out, "Gte"),
        Token::Lte => push_text(out, "Lte"),
        Token::Alter => push_text(out, "Alter"),
        Token::Add => push_text(out, "Add"),
        Token::Column => push_text(out, "Column"),
        Token::Rename => push_text(out, "Rename"),
        Token::To => push_text(out, "To"),
        Token::Order => push_text(out, "Order"),
        Token::Group => push_text(out, "Group"),
        Token::By => push_text(out, "By"),
        Token::Asc => push_text(out, "Asc"),
        Token::Desc => push_text(out, "Desc"),
        Token::Limit => push_text(out, "Limit"),
        Token::Count => push_text(out, "Count"),
        Token::Sum => push_text(out, "Sum"),
        Token::Avg => push_text(out, "Avg"),
        Token::Min => push_text(out, "Min"),
        Token::Max => push_text(out, "Max"),
        Token::Ident(x) => {
            push_text(out, "Ident(");
            push_text(out, str_debug(x.as_str()).as_str());
            push_text(out, ")");
        },
        Token::StringLit(x) => {
            push_text(out, "StringLit(");
            push_text(out, str_debug(x.as_str()).as_str());
            push_text(out, ")");
        },
        Token::NumberLit(x) => {
            push_text(out, "NumberLit(");
            push_text(out, str_debug(x.as_str()).as_str());
            push_text(out, ")");
        },
    }
    proof {
        assert(final(out)@ =~= old(out)@ + token_text(t@));
    }
}

/// The optional token as messages write it.
pub fn show_token(t: Option<&Token>) -> (s: String)
    ensures
        s@ == shown_token(opt_token_view(t)),
{
    let mut out = String::new();
    match t {
        None => push_text(&mut out, "None"),
        Some(k) => {
            push_text(&mut out, "Some(");
            push_token_text(&mut out, k);
            push_text(&mut out, ")");
        },
    }
    proof {
        assert(out@ =~= shown_token(opt_token_view(t)));
    }
    out
}

/// The number of tokens never exceeds the number of characters they are read from.
pub proof fn lemma_lex_len(s: Seq<char>, i: int)
    requires
        0 <= i <= s.len(),
    ensures
        lex(s, i).len() <= s.len() - i,
    decreases s.len() - i,
{
    let p = skip_ws(s, i);
    lemma_skip_ws(s, i);
    if p < s.len() {
        lemma_lex_step_progress(s, p);
        lemma_lex_len(s, lex_step(s, p).1);
    }
}

/// The lexer's state: the input characters and the position of the next one to read.
pub struct Lexer {
    input: Vec<char>,
    pos: usize,
}

impl Lexer {
    /// The characters being read.
    pub closed spec fn text(&self) -> Seq<char> {
        self.input@
    }

    /// The position of the next character to read.
    pub closed spec fn position(&self) -> int {
        self.pos as int
    }

    pub closed spec fn wf(&self) -> bool {
        self.pos <= self.input@.len()
    }

    pub fn new(input: &str) -> (l: Self)
        ensures
            l.text() == input@,
            l.position() == 0,
            l.wf(),
    {
        Lexer { input: chars_of(input), pos: 0 }
    }

    fn peek(&self) -> (c: Option<char>)
        ensures
            c == (if self.pos < self.input@.len() {
                Some(self.input@[self.pos as int])
            } else {
                None::<char>
            }),
    {
        if self.pos < self.input.len() {
            Some(self.input[self.pos])
        } else {
            None
        }
    }

    fn advance(&mut self) -> (c: Option<char>)
        requires
            old(self).pos < old(self).input.len(),
        ensures
            c == Some(old(self).input@[old(self).pos as int]),
            final(self).pos == old(self).pos + 1,
            final(self).input == old(self).input,
    {
        let ch = self.input[self.pos];
        self.pos = self.pos + 1;
        Some(ch)
    }

    fn skip_whitespace(&mut self)
        requires
            old(self).wf(),
        ensures
            final(self).wf(),
            final(self).input == old(self).input,
            final(self).pos == skip_ws(old(self).input@, old(self).pos as int),
    {
        proof {
            lemma_skip_ws(self.input@, self.pos as int);
        }
        while self.pos < self.input.len()
            invariant
                self.wf(),
                self.input == old(self).input,
                skip_ws(self.input@, self.pos as int) == skip_ws(
                    old(self).input@,
                    old(self).pos as int,
                ),
            ensures
                self.wf(),
                self.input == old(self).input,
                self.pos == skip_ws(old(self).input@, old(self).pos as int),
            decreases self.input@.len() - self.pos,
        {
            if whitespace(self.input[self.pos]) {
                self.advance();
            } else {
                break;
            }
        }
    }

    fn read_string(&mut self) -> (t: Token)
        requires
            old(self).wf(),
            old(self).pos < old(self).input@.len(),
            old(self).input@[old(self).pos as int] == '\'',
        ensures
            final(self).wf(),
            final(self).input == old(self).input,
            (Some(t@), final(self).pos as int) == lex_step(old(self).input@, old(self).pos as int),
    {
        let ghost s = self.input@;
        let ghost p = self.pos as int;
        self.advance();
        proof {
            lemma_string_end(s, p + 1);
        }
        let mut out = String::new();
        while self.pos < self.input.len()
            invariant
                self.wf(),
                self.input@ == s,
                self.pos <= s.len(),
                self.input == old(self).input,
                p == old(self).pos,
                p < s.len(),
                s[p] == '\'',
                p + 1 <= self.pos,
                string_end(s, self.pos as int) == string_end(s, p + 1),
                out@ == s.subrange(p + 1, self.pos as int),
            decreases self.input@.len() - self.pos,
        {
            let ch = self.input[self.pos];
            if ch == '\'' {
                let ghost q = self.pos as int;
                assert(string_end(s, q) == q);
                self.advance();
                assert(lex_step(s, p) == (
                    Some(SpecToken::StringLit(s.subrange(p + 1, q))),
                    q + 1,
                ));
                return Token::StringLit(out);
            }
            let ghost old_out = out@;
            let ghost q = self.pos as int;
            assert(ch == s[q]);
            assert(q + 1 <= s.len());
            assert(old_out == s.subrange(p + 1, q));
            push_char(&mut out, ch);
            assert(out@ == old_out.push(ch));
            self.advance();
            assert(self.pos == q + 1);
            assert(self.input@ == s);
            assert(s.subrange(p + 1, q + 1) =~= s.subrange(p + 1, q).push(s[q]));
            assert(out@ =~= s.subrange(p + 1, self.pos as int));
        }
        Token::StringLit(out)
    }

    fn read_number(&mut self) -> (t: Token)
        requires
            old(self).wf(),
            old(self).pos < old(self).input@.len(),
            is_ascii_digit(old(self).input@[old(self).pos as int]),
        ensures
            final(self).wf(),
            final(self).input == old(self).input,
            (Some(t@), final(self).pos as int) == lex_step(old(self).input@, old(self).pos as int),
    {
        let ghost s = self.input@;
        let ghost p = self.pos as int;
        let mut out = String::new();
        while self.pos < self.input.len()
            invariant
                self.wf(),
                self.input@ == s,
                self.pos <= s.len(),
                p == old(self).pos,
                p <= self.pos,
                number_end(s, self.pos as int) == number_end(s, p),
                out@ == s.subrange(p, self.pos as int),
                self.input == old(self).input,
            ensures
                self.wf(),
                self.input == old(self).input,
                self.pos == number_end(s, p),
                out@ == s.subrange(p, self.pos as int),
            decreases self.input@.len() - self.pos,
        {
            let ch = self.input[self.pos];
            if ascii_digit(ch) || ch == '.' {
                push_char(&mut out, ch);
                self.advance();
                assert(out@ =~= s.subrange(p, self.pos as int));
            } else {
                break;
            }
        }
        Token::NumberLit(out)
    }

    fn read_ident(&mut self) -> (t: Token)
        requires
            old(self).wf(),
            old(self).pos < old(self).input@.len(),
            is_alphabetic(old(self).input@[old(self).pos as int])
                || old(self).input@[old(self).pos as int] == '_',
        ensures
            final(self).wf(),
            final(self).input == old(self).input,
            t@ == word_token(old(self).input@.subrange(old(self).pos as int, final(self).pos as int)),
            final(self).pos == word_end(old(self).input@, old(self).pos + 1),
    {
        let ghost s = self.input@;
        let ghost p = self.pos as int;
        let mut out = String::new();
        while self.pos < self.input.len()
            invariant
                self.wf(),
                self.input@ == s,
                self.pos <= s.len(),
                p == old(self).pos,
                p <= self.pos,
                p < s.len(),
                is_alphabetic(s[p]) || s[p] == '_',
                self.pos == p ==> word_end(s, p) == word_end(s, p + 1) || word_end(s, p) == p,
                self.pos > p ==> word_end(s, self.pos as int) == word_end(s, p + 1),
                out@ == s.subrange(p, self.pos as int),
                self.input == old(self).input,
            ensures
                self.wf(),
                self.input == old(self).input,
                self.pos == word_end(s, p + 1),
                out@ == s.subrange(p, self.pos as int),
            decreases self.input@.len() - self.pos,
        {
            let ch = self.input[self.pos];
            if alphanumeric(ch) || ch == '_' {
                push_char(&mut out, ch);
                self.advance();
                assert(out@ =~= s.subrange(p, self.pos as int));
            } else {
                break;
            }
        }
        let upper = to_upper(out.as_str());
        match keyword_token(upper.as_str()) {
            Some(k) => k,
            None => Token::Ident(out),
        }
    }

    /// Reads the token (if any) that starts at the current position, which holds no white
    /// space; characters that start no token are passed over.
    fn next_token(&mut self) -> (t: Option<Token>)
        requires
            old(self).wf(),
            old(self).pos < old(self).input@.len(),
        ensures
            final(self).wf(),
            final(self).input == old(self).input,
            (match t {
                Some(t) => Some(t@),
                None => None,
            }, final(self).pos as int) == lex_step(old(self).input@, old(self).pos as int),
    {
        let ch = self.input[self.pos];
        if ch == '*' {
            self.advance();
            Some(Token::Asterisk)
        } else if ch == ',' {
            self.advance();
            Some(Token::Comma)
        } else if ch == ';' {
            self.advance();
            Some(Token::Semicolon)
        } else if ch == '(' {
            self.advance();
            Some(Token::LParen)
        } else if ch == ')' {
            self.advance();
            Some(Token::RParen)
        } else if ch == '.' {
            self.advance();
            Some(Token::Dot)
        } else if ch == '=' {
            self.advance();
            Some(Token::Eq)
        } else if ch == '>' {
            self.advance();
            if self.peek() == Some('=') {
                self.advance();
                Some(Token::Gte)
            } else {
                Some(Token::Gt)
            }
        } else if ch == '<' {
            self.advance();
            if self.peek() == Some('=') {
                self.advance();
                Some(Token::Lte)
            } else {
                Some(Token::Lt)
            }
        } else if ch == '!' {
            self.advance();
            if self.peek() == Some('=') {
                self.advance();
                Some(Token::Ne)
            } else {
                None
            }
        } else if ch == '\'' {
            Some(self.read_string())
        } else if ascii_digit(ch) {
            Some(self.read_number())
        } else if alphabetic(ch) || ch == '_' {
            Some(self.read_ident())
        } else {
            self.advance();
            None
        }
    }

    /// Reads the rest of the input and returns its tokens.
    pub fn tokenize(&mut self) -> (tokens: Vec<Token>)
        requires
            old(self).wf(),
        ensures
            final(self).wf(),
            final(self).text() == old(self).text(),
            final(self).position() == old(self).text().len(),
            tokens_view(tokens@) == lex(old(self).text(), old(self).position()),
    {
        let ghost s = self.input@;
        let ghost start = self.pos as int;
        let mut tokens: Vec<Token> = Vec::new();
        loop
            invariant
                self.wf(),
                self.input@ == s,
                self.input == old(self).input,
                start == old(self).pos,
                tokens_view(tokens@) + lex(s, self.pos as int) == lex(s, start),
            ensures
                self.wf(),
                self.input == old(self).input,
                self.pos == s.len(),
                tokens_view(tokens@) == lex(s, start),
            decreases s.len() - self.pos,
        {
            let ghost before = self.pos as int;
            proof {
                lemma_skip_ws(s, before);
            }
            self.skip_whitespace();
            let ghost p = self.pos as int;
            if self.pos >= self.input.len() {
                assert(lex(s, before) == Seq::<SpecToken>::empty());
                assert(tokens_view(tokens@) + Seq::<SpecToken>::empty() =~= tokens_view(tokens@));
                break;
            }
            proof {
                lemma_lex_step_progress(s, p);
            }
            let ghost toks_before = tokens_view(tokens@);
            match self.next_token() {
                Some(tok) => {
                    tokens.push(tok);
                    assert(tokens_view(tokens@) =~= toks_before.push(tok@));
                    assert(lex(s, before) == seq![tok@] + lex(s, self.pos as int));
                    assert(tokens_view(tokens@) + lex(s, self.pos as int) =~= toks_before + lex(
                        s,
                        before,
                    ));
                },
                None => {
                    assert(lex(s, before) == lex(s, self.pos as int));
                },
            }
        }
        tokens
    }
}

proof fn lemma_word_end_at(s: Seq<char>, i: int, e: int)
    requires
        0 <= i <= e <= s.len(),
        forall|k: int| i <= k < e ==> is_alphanumeric(#[trigger] s[k]) || s[k] == '_',
        e == s.len() || !(is_alphanumeric(s[e]) || s[e] == '_'),
    ensures
        word_end(s, i) == e,
    decreases e - i,
{
    if i < e {
        lemma_word_end_at(s, i + 1, e);
    }
}

proof fn lemma_number_end_at(s: Seq<char>, i: int, e: int)
    requires
        0 <= i <= e <= s.len(),
        forall|k: int| i <= k < e ==> is_ascii_digit(#[trigger] s[k]) || s[k] == '.',
        e == s.len() || !(is_ascii_digit(s[e]) || s[e] == '.'),
    ensures
        number_end(s, i) == e,
    decreases e - i,
{
    if i < e {
        lemma_number_end_at(s, i + 1, e);
    }
}

proof fn lemma_string_end_at(s: Seq<char>, i: int, e: int)
    requires
        0 <= i <= e <= s.len(),
        forall|k: int| i <= k < e ==> #[trigger] s[k] != '\'',
        e == s.len() || s[e] == '\'',
    ensures
        string_end(s, i) == e,
    decreases e - i,
{
    if i < e {
        lemma_string_end_at(s, i + 1, e);
    }
}

/// A word is read whole: from a letter (or `_`) through every following letter, digit or
/// `_` up to the first other character, it gives one token holding the whole word, digits
/// included: the keyword its upper case spells, or else an identifier with the word as
/// written.
pub proof fn law_word_is_one_token(s: Seq<char>, p: int, e: int)
    requires
        0 <= p < e <= s.len(),
        is_alphabetic(s[p]) || s[p] == '_',
        forall|k: int| p < k < e ==> is_alphanumeric(#[trigger] s[k]) || s[k] == '_',
        e == s.len() || !(is_alphanumeric(s[e]) || s[e] == '_'),
    ensures
        lex_step(s, p) == (Some(word_token(s.subrange(p, e))), e),
        keyword_of(uppercase(s.subrange(p, e))) is None ==> lex_step(s, p).0 == Some(SpecToken::Ident(s.subrange(p, e))),
{
    lemma_word_end_at(s, p + 1, e);
    let c = s[p];
    if is_ascii_char(c) {
        assert(!is_ascii_digit(c));
    } else {
        assert(!is_ascii_digit(c));
    }
}

/// ASCII letters and digits continue a word and anything else ASCII ends it, except `_`.
pub proof fn law_ascii_word_characters(c: char)
    requires
        is_ascii_char(c),
    ensures
        (is_alphanumeric(c) || c == '_') <==> (is_ascii_letter(c) || is_ascii_digit(c) || c == '_'),
        is_alphabetic(c) <==> is_ascii_letter(c),
{
}

/// Operators and punctuation: `>=`, `<=` and `!=` are read as one token of two characters;
/// `>` and `<` without `=` after them, `=`, and each punctuation mark as one of one.
pub proof fn law_operator_tokens(s: Seq<char>, p: int)
    requires
        0 <= p < s.len(),
    ensures
        ({
            let eq_next = p + 1 < s.len() && s[p + 1] == '=';
            &&& s[p] == '>' && eq_next ==> lex_step(s, p) == (Some(SpecToken::Gte), p + 2)
            &&& s[p] == '>' && !eq_next ==> lex_step(s, p) == (Some(SpecToken::Gt), p + 1)
            &&& s[p] == '<' && eq_next ==> lex_step(s, p) == (Some(SpecToken::Lte), p + 2)
            &&& s[p] == '<' && !eq_next ==> lex_step(s, p) == (Some(SpecToken::Lt), p + 1)
            &&& s[p] == '!' && eq_next ==> lex_step(s, p) == (Some(SpecToken::Ne), p + 2)
            &&& s[p] == '=' ==> lex_step(s, p) == (Some(SpecToken::Eq), p + 1)
            &&& s[p] == '*' ==> lex_step(s, p) == (Some(SpecToken::Asterisk), p + 1)
            &&& s[p] == ',' ==> lex_step(s, p) == (Some(SpecToken::Comma), p + 1)
            &&& s[p] == ';' ==> lex_step(s, p) == (Some(SpecToken::Semicolon), p + 1)
            &&& s[p] == '(' ==> lex_step(s, p) == (Some(SpecToken::LParen), p + 1)
            &&& s[p] == ')' ==> lex_step(s, p) == (Some(SpecToken::RParen), p + 1)
            &&& s[p] == '.' ==> lex_step(s, p) == (Some(SpecToken::Dot), p + 1)
        }),
{
}

/// A number is read whole: from a digit through every following digit or `.`, one number
/// token holding all of it.
pub proof fn law_number_is_one_token(s: Seq<char>, p: int, e: int)
    requires
        0 <= p < e <= s.len(),
        is_ascii_digit(s[p]),
        forall|k: int| p < k < e ==> is_ascii_digit(#[trigger] s[k]) || s[k] == '.',
        e == s.len() || !(is_ascii_digit(s[e]) || s[e] == '.'),
    ensures
        lex_step(s, p) == (Some(SpecToken::NumberLit(s.subrange(p, e))), e),
{
    lemma_number_end_at(s, p, e);
}

/// A string is read between its quotes: the characters up to the next quote (or to the end
/// of the input, where none follows) are the string's text, and reading goes on after the
/// closing quote.
pub proof fn law_string_is_one_token(s: Seq<char>, p: int, e: int)
    requires
        0 <= p < e <= s.len(),
        s[p] == '\'',
        forall|k: int| p < k < e ==> #[trigger] s[k] != '\'',
        e == s.len() || s[e] == '\'',
    ensures
        lex_step(s, p) == (Some(SpecToken::StringLit(s.subrange(p + 1, e))), if e < s.len() { e + 1 } else { e }),
{
    lemma_string_end_at(s, p + 1, e);
}

/// The keyword tokens.
pub open spec fn is_keyword(k: SpecToken) -> bool {
    match k {
        SpecToken::Select | SpecToken::From | SpecToken::Where | SpecToken::Insert | SpecToken::Into
        | SpecToken::Values | SpecToken::Update | SpecToken::SetKw | SpecToken::Delete | SpecToken::Create
        | SpecToken::Table | SpecToken::Drop | SpecToken::Join | SpecToken::On | SpecToken::And | SpecToken::Int
        | SpecToken::Text | SpecToken::Float | SpecToken::Boolean | SpecToken::Alter | SpecToken::Add
        | SpecToken::Column | SpecToken::Rename | SpecToken::To | SpecToken::Order | SpecToken::Group
        | SpecToken::By | SpecToken::Asc | SpecToken::Desc | SpecToken::Limit | SpecToken::Count | SpecToken::Sum
        | SpecToken::Avg | SpecToken::Min | SpecToken::Max => true,
        _ => false,
    }
}

/// Keywords are read by name: a word is read as a keyword only where its upper case is
/// that keyword's name as shown in messages (`Select`, `Order`, `Asc`, ...), upper-cased.
pub proof fn law_keyword_names(u: Seq<char>)
    ensures
        keyword_of(u) matches Some(k) ==> is_keyword(k) && u == token_text(k).map_values(|c: char| ascii_upper(c)),
{
    reveal_strlit("SELECT"); reveal_strlit("FROM"); reveal_strlit("WHERE"); reveal_strlit("INSERT");
    reveal_strlit("INTO"); reveal_strlit("VALUES"); reveal_strlit("UPDATE"); reveal_strlit("SET");
    reveal_strlit("DELETE"); reveal_strlit("CREATE"); reveal_strlit("TABLE"); reveal_strlit("DROP");
    reveal_strlit("JOIN"); reveal_strlit("ON"); reveal_strlit("AND"); reveal_strlit("INT");
    reveal_strlit("TEXT"); reveal_strlit("FLOAT"); reveal_strlit("BOOLEAN"); reveal_strlit("ALTER");
    reveal_strlit("ADD"); reveal_strlit("COLUMN"); reveal_strlit("RENAME"); reveal_strlit("TO");
    reveal_strlit("ORDER"); reveal_strlit("GROUP"); reveal_strlit("BY"); reveal_strlit("ASC");
    reveal_strlit("DESC"); reveal_strlit("LIMIT"); reveal_strlit("COUNT"); reveal_strlit("SUM");
    reveal_strlit("AVG"); reveal_strlit("MIN"); reveal_strlit("MAX");
    reveal_strlit("Select"); reveal_strlit("From"); reveal_strlit("Where"); reveal_strlit("Insert");
    reveal_strlit("Into"); reveal_strlit("Values"); reveal_strlit("Update"); reveal_strlit("Set");
    reveal_strlit("Delete"); reveal_strlit("Create"); reveal_strlit("Table"); reveal_strlit("Drop");
    reveal_strlit("Join"); reveal_strlit("On"); reveal_strlit("And"); reveal_strlit("Int");
    reveal_strlit("Text"); reveal_strlit("Float"); reveal_strlit("Boolean"); reveal_strlit("Alter");
    reveal_strlit("Add"); reveal_strlit("Column"); reveal_strlit("Rename"); reveal_strlit("To");
    reveal_strlit("Order"); reveal_strlit("Group"); reveal_strlit("By"); reveal_strlit("Asc");
    reveal_strlit("Desc"); reveal_strlit("Limit"); reveal_strlit("Count"); reveal_strlit("Sum");
    reveal_strlit("Avg"); reveal_strlit("Min"); reveal_strlit("Max");
    if keyword_of(u) is Some {
        let k = keyword_of(u)->0;
        match k {
        SpecToken::Select => {
            assert(u == "SELECT"@);
            assert(token_text(k).map_values(|c: char| ascii_upper(c)) =~= "SELECT"@);
        },
        SpecToken::From => {
            assert(u == "FROM"@);
            assert(token_text(k).map_values(|c: char| ascii_upper(c)) =~= "FROM"@);
        },
        SpecToken::Where => {
            assert(u == "WHERE"@);
            assert(token_text(k).map_values(|c: char| ascii_upper(c)) =~= "WHERE"@);
        },
        SpecToken::Insert => {
            assert(u == "INSERT"@);
            assert(token_text(k).map_values(|c: char| ascii_upper(c)) =~= "INSERT"@);
        },
        SpecToken::Into => {
            assert(u == "INTO"@);
            assert(token_text(k).map_values(|c: char| ascii_upper(c)) =~= "INTO"@);
        },
        SpecToken::Values => {
            assert(u == "VALUES"@);
            assert(token_text(k).map_values(|c: char| ascii_upper(c)) =~= "VALUES"@);
        },
        SpecToken::Update => {
            assert(u == "UPDATE"@);
            assert(token_text(k).map_values(|c: char| ascii_upper(c)) =~= "UPDATE"@);
        },
        SpecToken::SetKw => {
            assert(u == "SET"@);
            assert(token_text(k).map_values(|c: char| ascii_upper(c)) =~= "SET"@);
        },
        SpecToken::Delete => {
            assert(u == "DELETE"@);
            assert(token_text(k).map_values(|c: char| ascii_upper(c)) =~= "DELETE"@);
        },
        SpecToken::Create => {
            assert(u == "CREATE"@);
            assert(token_text(k).map_values(|c: char| ascii_upper(c)) =~= "CREATE"@);
        },
        SpecToken::Table => {
            assert(u == "TABLE"@);
            assert(token_text(k).map_values(|c: char| ascii_upper(c)) =~= "TABLE"@);
        },
        SpecToken::Drop => {
            assert(u == "DROP"@);
            assert(token_text(k).map_values(|c: char| ascii_upper(c)) =~= "DROP"@);
        },
        SpecToken::Join => {
            assert(u == "JOIN"@);
            assert(token_text(k).map_values(|c: char| ascii_upper(c)) =~= "JOIN"@);
        },
        SpecToken::On => {
            assert(u == "ON"@);
            assert(token_text(k).map_values(|c: char| ascii_upper(c)) =~= "ON"@);
        },
        SpecToken::And => {
            assert(u == "AND"@);
            assert(token_text(k).map_values(|c: char| ascii_upper(c)) =~= "AND"@);
        },
        SpecToken::Int => {
            assert(u == "INT"@);
            assert(token_text(k).map_values(|c: char| ascii_upper(c)) =~= "INT"@);
        },
        SpecToken::Text => {
            assert(u == "TEXT"@);
            assert(token_text(k).map_values(|c: char| ascii_upper(c)) =~= "TEXT"@);
        },
        SpecToken::Float => {
            assert(u == "FLOAT"@);
            assert(token_text(k).map_values(|c: char| ascii_upper(c)) =~= "FLOAT"@);
        },
        SpecToken::Boolean => {
            assert(u == "BOOLEAN"@);
            assert(token_text(k).map_values(|c: char| ascii_upper(c)) =~= "BOOLEAN"@);
        },
        SpecToken::Alter => {
            assert(u == "ALTER"@);
            assert(token_text(k).map_values(|c: char| ascii_upper(c)) =~= "ALTER"@);
        },
        SpecToken::Add => {
            assert(u == "ADD"@);
            assert(token_text(k).map_values(|c: char| ascii_upper(c)) =~= "ADD"@);
        },
        SpecToken::Column => {
            assert(u == "COLUMN"@);
            assert(token_text(k).map_values(|c: char| ascii_upper(c)) =~= "COLUMN"@);
        },
        SpecToken::Rename => {
            assert(u == "RENAME"@);
            assert(token_text(k).map_values(|c: char| ascii_upper(c)) =~= "RENAME"@);
        },
        SpecToken::To => {
            assert(u == "TO"@);
            assert(token_text(k).map_values(|c: char| ascii_upper(c)) =~= "TO"@);
        },
        SpecToken::Order => {
            assert(u == "ORDER"@);
            assert(token_text(k).map_values(|c: char| ascii_upper(c)) =~= "ORDER"@);
        },
        SpecToken::Group => {
            assert(u == "GROUP"@);
            assert(token_text(k).map_values(|c: char| ascii_upper(c)) =~= "GROUP"@);
        },
        SpecToken::By => {
            assert(u == "BY"@);
            assert(token_text(k).map_values(|c: char| ascii_upper(c)) =~= "BY"@);
        },
        SpecToken::Asc => {
            assert(u == "ASC"@);
            assert(token_text(k).map_values(|c: char| ascii_upper(c)) =~= "ASC"@);
        },
        SpecToken::Desc => {
            assert(u == "DESC"@);
            assert(token_text(k).map_values(|c: char| ascii_upper(c)) =~= "DESC"@);
        },
        SpecToken::Limit => {
            assert(u == "LIMIT"@);
            assert(token_text(k).map_values(|c: char| ascii_upper(c)) =~= "LIMIT"@);
        },
        SpecToken::Count => {
            assert(u == "COUNT"@);
            assert(token_text(k).map_values(|c: char| ascii_upper(c)) =~= "COUNT"@);
        },
        SpecToken::Sum => {
            assert(u == "SUM"@);
            assert(token_text(k).map_values(|c: char| ascii_upper(c)) =~= "SUM"@);
        },
        SpecToken::Avg => {
            assert(u == "AVG"@);
            assert(token_text(k).map_values(|c: char| ascii_upper(c)) =~= "AVG"@);
        },
        SpecToken::Min => {
            assert(u == "MIN"@);
            assert(token_text(k).map_values(|c: char| ascii_upper(c)) =~= "MIN"@);
        },
        SpecToken::Max => {
            assert(u == "MAX"@);
            assert(token_text(k).map_values(|c: char| ascii_upper(c)) =~= "MAX"@);
        },
            _ => {},
        }
    }
}

proof fn lemma_skip_ws_at(s: Seq<char>, i: int, e: int)
    requires
        0 <= i <= e <= s.len(),
        forall|k: int| i <= k < e ==> is_white_space(#[trigger] s[k]),
        e == s.len() || !is_white_space(s[e]),
    ensures
        skip_ws(s, i) == e,
    decreases e - i,
{
    if i < e {
        lemma_skip_ws_at(s, i + 1, e);
    }
}

/// White space separates tokens and is no token: reading from `i` passes over the run of
/// white space there and goes on as from its end; a text of white space alone has no
/// tokens.
pub proof fn law_white_space_skipped(s: Seq<char>, i: int, e: int)
    requires
        0 <= i <= e <= s.len(),
        forall|k: int| i <= k < e ==> is_white_space(#[trigger] s[k]),
    ensures
        (e == s.len() || !is_white_space(s[e])) ==> lex(s, i) == lex(s, e),
        e == s.len() ==> lex(s, i).len() == 0,
{
    if e == s.len() || !is_white_space(s[e]) {
        lemma_skip_ws_at(s, i, e);
        lemma_skip_ws_at(s, e, e);
    }
    if e == s.len() {
        lemma_skip_ws_at(s, i, e);
    }
}

} // verus!
