use crate::error::MccabreError;
use crate::text::{
    alphabetic_char, alphanumeric_char, ascii_alphanumeric_char, ascii_digit_char,
    is_alphabetic_char, is_alphanumeric_char, is_ascii_alphanumeric_char, is_ascii_digit_char,
    is_operator_char, is_whitespace_char, operator_char, str_eq, whitespace_char,
};
use vstd::prelude::*;

verus! {

/// The source languages the analyzers accept, resolved once per file
/// from its extension.
#[derive(Debug, Clone, Copy, PartialEq, Eq, Structural)]
pub enum Language {
    Rust,
    JavaScript,
    TypeScript,
    Go,
    Java,
    Cpp,
}

/// Index of the last occurrence of `c` in `s`, or `-1` when absent.
pub open spec fn find_last(s: Seq<char>, c: char) -> int
    decreases s.len(),
{
    if s.len() == 0 {
        -1
    } else if s.last() == c {
        s.len() - 1
    } else {
        find_last(s.drop_last(), c)
    }
}

/// The extension of a path: what follows the last dot of the file name,
/// provided that dot is neither its first character nor before the last
/// path separator. A path that ends in a separator has an empty file
/// name and therefore no extension.
pub open spec fn spec_extension(path: Seq<char>) -> Option<Seq<char>> {
    let name_start = find_last(path, '/') + 1;
    let dot = find_last(path, '.');
    if dot > name_start {
        Some(path.subrange(dot + 1, path.len() as int))
    } else {
        None
    }
}

/// The language a file extension maps to.
pub open spec fn spec_language_of(ext: Seq<char>) -> Option<Language> {
    if ext == "rs"@ {
        Some(Language::Rust)
    } else if ext == "js"@ || ext == "jsx"@ || ext == "mjs"@ || ext == "cjs"@ {
        Some(Language::JavaScript)
    } else if ext == "ts"@ || ext == "tsx"@ {
        Some(Language::TypeScript)
    } else if ext == "go"@ {
        Some(Language::Go)
    } else if ext == "java"@ {
        Some(Language::Java)
    } else if ext == "cpp"@ || ext == "cc"@ || ext == "cxx"@ || ext == "c++"@ || ext == "hpp"@
        || ext == "h"@ || ext == "hh"@ || ext == "hxx"@ {
        Some(Language::Cpp)
    } else {
        None
    }
}

/// A found character sits inside the sequence.
proof fn lemma_find_last_bound(s: Seq<char>, c: char)
    ensures
        -1 <= find_last(s, c) < s.len(),
    decreases s.len(),
{
    if s.len() > 0 {
        lemma_find_last_bound(s.drop_last(), c);
    }
}

/// Index of the last occurrence of `c` in `s`, scanning from the end.
pub(crate) fn find_last_char(s: &str, c: char) -> (r: Option<usize>)
    ensures
        -1 <= find_last(s@, c) < s@.len(),
        find_last(s@, c) == -1 ==> r is None,
        find_last(s@, c) >= 0 ==> r == Some(find_last(s@, c) as usize),
{
    proof {
        lemma_find_last_bound(s@, c);
    }
    let n = s.unicode_len();
    let mut j: usize = n;
    assert(s@.take(n as int) =~= s@);
    while j > 0
        invariant
            j <= n,
            n == s@.len(),
            find_last(s@, c) == find_last(s@.take(j as int), c),
        decreases j,
    {
        let prev = j - 1;
        let ch = s.get_char(prev);
        proof {
            let taken = s@.take(j as int);
            assert(taken.last() == s@[prev as int]);
            assert(taken.drop_last() =~= s@.take(prev as int));
        }
        if ch == c {
            return Some(prev);
        }
        j = prev;
    }
    assert(s@.take(0int) =~= Seq::<char>::empty());
    None
}

impl Language {
    /// Resolve the language from a path's file extension.
    pub fn from_path(path: &str) -> (r: Result<Language, MccabreError>)
        ensures
            match spec_extension(path@) {
                Some(ext) => match spec_language_of(ext) {
                    Some(lang) => r == Ok::<Language, MccabreError>(lang),
                    None => r matches Err(MccabreError::UnsupportedFileType(e)) && e@ == ext,
                },
                None => r matches Err(MccabreError::UnsupportedFileType(e)) && e@ == path@,
            },
    {
        let n = path.unicode_len();
        let name_start: usize = match find_last_char(path, '/') {
            Some(i) => i + 1,
            None => 0,
        };
        let dot = find_last_char(path, '.');
        match dot {
            Some(d) if d > name_start => {
                let ext = path.substring_char(d + 1, n);
                if str_eq(ext, "rs") {
                    Ok(Language::Rust)
                } else if str_eq(ext, "js") || str_eq(ext, "jsx") || str_eq(ext, "mjs") || str_eq(
                    ext,
                    "cjs",
                ) {
                    Ok(Language::JavaScript)
                } else if str_eq(ext, "ts") || str_eq(ext, "tsx") {
                    Ok(Language::TypeScript)
                } else if str_eq(ext, "go") {
                    Ok(Language::Go)
                } else if str_eq(ext, "java") {
                    Ok(Language::Java)
                } else if str_eq(ext, "cpp") || str_eq(ext, "cc") || str_eq(ext, "cxx") || str_eq(
                    ext,
                    "c++",
                ) || str_eq(ext, "hpp") || str_eq(ext, "h") || str_eq(ext, "hh") || str_eq(
                    ext,
                    "hxx",
                ) {
                    Ok(Language::Cpp)
                } else {
                    Err(MccabreError::UnsupportedFileType(ext.to_owned()))
                }
            },
            _ => Err(MccabreError::UnsupportedFileType(path.to_owned())),
        }
    }

    /// The prefix that starts a line comment: the same for every
    /// supported language.
    pub fn single_line_comment(&self) -> (r: &'static str)
        ensures
            r@ == "//"@,
    {
        match self {
            Language::Rust
            | Language::JavaScript
            | Language::TypeScript
            | Language::Go
            | Language::Java
            | Language::Cpp => "//",
        }
    }

    /// The delimiters of a block comment: the same for every supported
    /// language.
    pub fn multi_line_comment(&self) -> (r: (&'static str, &'static str))
        ensures
            r.0@ == "/*"@,
            r.1@ == "*/"@,
    {
        match self {
            Language::Rust
            | Language::JavaScript
            | Language::TypeScript
            | Language::Go
            | Language::Java
            | Language::Cpp => ("/*", "*/"),
        }
    }
}

/// The classification a token carries.
#[derive(Debug, Clone, PartialEq, Eq)]
pub enum TokenType {
    If,
    Else,
    ElseIf,
    While,
    For,
    Loop,
    Match,
    Switch,
    Case,
    Default,
    Catch,
    LogicalAnd,
    LogicalOr,
    Ternary,
    Operator(String),
    Identifier(String),
    Literal(String),
    LeftBrace,
    RightBrace,
    LeftParen,
    RightParen,
    LeftBracket,
    RightBracket,
    Semicolon,
    Comma,
    Comment,
    Whitespace,
    Newline,
    Unknown(char),
}

/// The mathematical image of a `TokenType`: text payloads become
/// character sequences.
pub ghost enum TokenTypeV {
    If,
    Else,
    ElseIf,
    While,
    For,
    Loop,
    Match,
    Switch,
    Case,
    Default,
    Catch,
    LogicalAnd,
    LogicalOr,
    Ternary,
    Operator(Seq<char>),
    Identifier(Seq<char>),
    Literal(Seq<char>),
    LeftBrace,
    RightBrace,
    LeftParen,
    RightParen,
    LeftBracket,
    RightBracket,
    Semicolon,
    Comma,
    Comment,
    Whitespace,
    Newline,
    Unknown(char),
}

impl View for TokenType {
    type V = TokenTypeV;

    open spec fn view(&self) -> TokenTypeV {
        match self {
            TokenType::If => TokenTypeV::If,
            TokenType::Else => TokenTypeV::Else,
            TokenType::ElseIf => TokenTypeV::ElseIf,
            TokenType::While => TokenTypeV::While,
            TokenType::For => TokenTypeV::For,
            TokenType::Loop => TokenTypeV::Loop,
            TokenType::Match => TokenTypeV::Match,
            TokenType::Switch => TokenTypeV::Switch,
            TokenType::Case => TokenTypeV::Case,
            TokenType::Default => TokenTypeV::Default,
            TokenType::Catch => TokenTypeV::Catch,
            TokenType::LogicalAnd => TokenTypeV::LogicalAnd,
            TokenType::LogicalOr => TokenTypeV::LogicalOr,
            TokenType::Ternary => TokenTypeV::Ternary,
            TokenType::Operator(s) => TokenTypeV::Operator(s@),
            TokenType::Identifier(s) => TokenTypeV::Identifier(s@),
            TokenType::Literal(s) => TokenTypeV::Literal(s@),
            TokenType::LeftBrace => TokenTypeV::LeftBrace,
            TokenType::RightBrace => TokenTypeV::RightBrace,
            TokenType::LeftParen => TokenTypeV::LeftParen,
            TokenType::RightParen => TokenTypeV::RightParen,
            TokenType::LeftBracket => TokenTypeV::LeftBracket,
            TokenType::RightBracket => TokenTypeV::RightBracket,
            TokenType::Semicolon => TokenTypeV::Semicolon,
            TokenType::Comma => TokenTypeV::Comma,
            TokenType::Comment => TokenTypeV::Comment,
            TokenType::Whitespace => TokenTypeV::Whitespace,
            TokenType::Newline => TokenTypeV::Newline,
            TokenType::Unknown(c) => TokenTypeV::Unknown(*c),
        }
    }
}

/// Whether a token kind adds one unit of cyclomatic complexity.
pub open spec fn is_decision_kind(k: TokenTypeV) -> bool {
    match k {
        TokenTypeV::If
        | TokenTypeV::ElseIf
        | TokenTypeV::While
        | TokenTypeV::For
        | TokenTypeV::Loop
        | TokenTypeV::Match
        | TokenTypeV::Switch
        | TokenTypeV::Case
        | TokenTypeV::Catch
        | TokenTypeV::LogicalAnd
        | TokenTypeV::LogicalOr
        | TokenTypeV::Ternary => true,
        _ => false,
    }
}

/// Whether a token kind counts as code: everything except comments,
/// spacing and line breaks.
pub open spec fn is_significant_kind(k: TokenTypeV) -> bool {
    match k {
        TokenTypeV::Comment | TokenTypeV::Whitespace | TokenTypeV::Newline => false,
        _ => true,
    }
}

impl TokenType {
    /// Whether this token contributes to cyclomatic complexity.
    pub fn is_decision_point(&self) -> (r: bool)
        ensures
            r == is_decision_kind(self@),
    {
        matches!(
            self,
            TokenType::If
                | TokenType::ElseIf
                | TokenType::While
                | TokenType::For
                | TokenType::Loop
                | TokenType::Match
                | TokenType::Switch
                | TokenType::Case
                | TokenType::Catch
                | TokenType::LogicalAnd
                | TokenType::LogicalOr
                | TokenType::Ternary
        )
    }

    /// Whether this token takes part in clone detection and line
    /// classification.
    pub fn is_significant(&self) -> (r: bool)
        ensures
            r == is_significant_kind(self@),
    {
        !matches!(self, TokenType::Comment | TokenType::Whitespace | TokenType::Newline)
    }
}

/// One token: its kind, its 1-based source position, and the text it
/// stands for.
#[derive(Debug, Clone)]
pub struct Token {
    pub token_type: TokenType,
    pub line: usize,
    pub column: usize,
    pub text: String,
}

/// The mathematical image of a token.
pub ghost struct TokenV {
    pub token_type: TokenTypeV,
    pub line: nat,
    pub column: nat,
    pub text: Seq<char>,
}

impl View for Token {
    type V = TokenV;

    open spec fn view(&self) -> TokenV {
        TokenV {
            token_type: self.token_type@,
            line: self.line as nat,
            column: self.column as nat,
            text: self.text@,
        }
    }
}

/// The views of a whole token vector.
pub open spec fn token_views(ts: Seq<Token>) -> Seq<TokenV> {
    ts.map_values(|t: Token| t@)
}

// --- The specification lexer -------------------------------------------
//
// The functions below define, over the raw character sequence, where
// each token starts and ends and what it is. The executable tokenizer
// is proved to produce exactly this sequence.

/// End of a run of non-newline whitespace starting at `i`.
pub open spec fn ws_end(src: Seq<char>, i: int) -> int
    decreases src.len() - i when 0 <= i <= src.len()
{
    if i < src.len() && is_whitespace_char(src[i]) && src[i] != '\n' {
        ws_end(src, i + 1)
    } else {
        i
    }
}

/// End of a line comment starting at `i`: everything up to the next
/// newline, or the end of input.
pub open spec fn line_comment_end(src: Seq<char>, i: int) -> int
    decreases src.len() - i when 0 <= i <= src.len()
{
    if i < src.len() && src[i] != '\n' {
        line_comment_end(src, i + 1)
    } else {
        i
    }
}

/// End of a block comment whose body starts at `i`: just past the next
/// `*/`, or the end of input when unterminated.
pub open spec fn block_comment_end(src: Seq<char>, i: int) -> int
    decreases src.len() - i when 0 <= i <= src.len()
{
    if i >= src.len() {
        src.len() as int
    } else if src[i] == '*' && i + 1 < src.len() && src[i + 1] == '/' {
        i + 2
    } else {
        block_comment_end(src, i + 1)
    }
}

/// End of a quoted literal whose body starts at `i`: just past the
/// closing quote, skipping backslash-escaped characters, or the end of
/// input when unterminated.
pub open spec fn quote_end(src: Seq<char>, i: int, quote: char) -> int
    decreases src.len() - i when 0 <= i <= src.len()
{
    if i >= src.len() {
        src.len() as int
    } else if src[i] == quote {
        i + 1
    } else if src[i] == '\\' {
        if i + 2 <= src.len() {
            quote_end(src, i + 2, quote)
        } else {
            src.len() as int
        }
    } else {
        quote_end(src, i + 1, quote)
    }
}

/// End of a numeric literal starting at `i`: ASCII alphanumerics, dots
/// and underscores all belong to it.
pub open spec fn num_end(src: Seq<char>, i: int) -> int
    decreases src.len() - i when 0 <= i <= src.len()
{
    if i < src.len() && (is_ascii_alphanumeric_char(src[i]) || src[i] == '.' || src[i] == '_') {
        num_end(src, i + 1)
    } else {
        i
    }
}

/// End of an identifier or keyword starting at `i`.
pub open spec fn ident_end(src: Seq<char>, i: int) -> int
    decreases src.len() - i when 0 <= i <= src.len()
{
    if i < src.len() && (is_alphanumeric_char(src[i]) || src[i] == '_') {
        ident_end(src, i + 1)
    } else {
        i
    }
}

/// End of a run of operator characters starting at `i`.
pub open spec fn op_end(src: Seq<char>, i: int) -> int
    decreases src.len() - i when 0 <= i <= src.len()
{
    if i < src.len() && is_operator_char(src[i]) {
        op_end(src, i + 1)
    } else {
        i
    }
}

/// End position (exclusive) of the token starting at `pos`.
pub open spec fn tok_end(src: Seq<char>, pos: int) -> int
    recommends
        0 <= pos < src.len(),
{
    let c = src[pos];
    if is_whitespace_char(c) {
        if c == '\n' {
            pos + 1
        } else {
            ws_end(src, pos)
        }
    } else if c == '/' && pos + 1 < src.len() && src[pos + 1] == '/' {
        line_comment_end(src, pos)
    } else if c == '/' && pos + 1 < src.len() && src[pos + 1] == '*' {
        block_comment_end(src, pos + 2)
    } else if c == '"' || c == '\'' {
        quote_end(src, pos + 1, c)
    } else if is_ascii_digit_char(c) {
        num_end(src, pos)
    } else if is_alphabetic_char(c) || c == '_' {
        // In fact an identifier's first character always extends it, so
        // the floor below never bites; it keeps the definition total.
        if ident_end(src, pos) > pos {
            ident_end(src, pos)
        } else {
            pos + 1
        }
    } else if c == '{' || c == '}' || c == '(' || c == ')' || c == '[' || c == ']' || c == ';'
        || c == ',' || c == '?' {
        pos + 1
    } else if c == '&' && pos + 1 < src.len() && src[pos + 1] == '&' {
        pos + 2
    } else if c == '|' && pos + 1 < src.len() && src[pos + 1] == '|' {
        pos + 2
    } else if is_operator_char(c) {
        op_end(src, pos)
    } else {
        pos + 1
    }
}

/// The keyword table: a word either is one of the branching keywords or
/// stays a plain identifier.
pub open spec fn classify_word(w: Seq<char>) -> TokenTypeV {
    if w == "if"@ {
        TokenTypeV::If
    } else if w == "else"@ {
        TokenTypeV::Else
    } else if w == "elif"@ {
        TokenTypeV::ElseIf
    } else if w == "while"@ {
        TokenTypeV::While
    } else if w == "for"@ {
        TokenTypeV::For
    } else if w == "loop"@ {
        TokenTypeV::Loop
    } else if w == "match"@ {
        TokenTypeV::Match
    } else if w == "switch"@ {
        TokenTypeV::Switch
    } else if w == "case"@ {
        TokenTypeV::Case
    } else if w == "default"@ {
        TokenTypeV::Default
    } else if w == "catch"@ {
        TokenTypeV::Catch
    } else {
        TokenTypeV::Identifier(w)
    }
}

/// Kind of the token starting at `pos`.
pub open spec fn tok_kind(src: Seq<char>, pos: int) -> TokenTypeV
    recommends
        0 <= pos < src.len(),
{
    let c = src[pos];
    let end = tok_end(src, pos);
    if is_whitespace_char(c) {
        if c == '\n' {
            TokenTypeV::Newline
        } else {
            TokenTypeV::Whitespace
        }
    } else if c == '/' && pos + 1 < src.len() && src[pos + 1] == '/' {
        TokenTypeV::Comment
    } else if c == '/' && pos + 1 < src.len() && src[pos + 1] == '*' {
        TokenTypeV::Comment
    } else if c == '"' || c == '\'' {
        TokenTypeV::Literal(src.subrange(pos, end))
    } else if is_ascii_digit_char(c) {
        TokenTypeV::Literal(src.subrange(pos, end))
    } else if is_alphabetic_char(c) || c == '_' {
        classify_word(src.subrange(pos, end))
    } else if c == '{' {
        TokenTypeV::LeftBrace
    } else if c == '}' {
        TokenTypeV::RightBrace
    } else if c == '(' {
        TokenTypeV::LeftParen
    } else if c == ')' {
        TokenTypeV::RightParen
    } else if c == '[' {
        TokenTypeV::LeftBracket
    } else if c == ']' {
        TokenTypeV::RightBracket
    } else if c == ';' {
        TokenTypeV::Semicolon
    } else if c == ',' {
        TokenTypeV::Comma
    } else if c == '?' {
        TokenTypeV::Ternary
    } else if c == '&' && pos + 1 < src.len() && src[pos + 1] == '&' {
        TokenTypeV::LogicalAnd
    } else if c == '|' && pos + 1 < src.len() && src[pos + 1] == '|' {
        TokenTypeV::LogicalOr
    } else if is_operator_char(c) {
        TokenTypeV::Operator(src.subrange(pos, end))
    } else {
        TokenTypeV::Unknown(c)
    }
}

/// Text carried by the token starting at `pos`: exactly the characters
/// it consumed.
pub open spec fn tok_text(src: Seq<char>, pos: int) -> Seq<char>
    recommends
        0 <= pos < src.len(),
{
    src.subrange(pos, tok_end(src, pos))
}

/// The token starting at `pos`, carrying the position it starts at.
pub open spec fn token_at(src: Seq<char>, pos: int, line: nat, column: nat) -> TokenV {
    TokenV { token_type: tok_kind(src, pos), line, column, text: tok_text(src, pos) }
}

/// Line and column after walking the characters of `src[i..j]` from
/// position `(line, column)`: a newline starts the next line, anything
/// else widens the current one.
pub open spec fn advance_position(src: Seq<char>, i: int, j: int, line: nat, column: nat) -> (
    nat,
    nat,
)
    decreases j - i when 0 <= i <= j <= src.len()
{
    if j <= i {
        (line, column)
    } else {
        let prev = advance_position(src, i, j - 1, line, column);
        if src[j - 1] == '\n' {
            ((prev.0 + 1) as nat, 1nat)
        } else {
            (prev.0, (prev.1 + 1) as nat)
        }
    }
}

/// `advance_position` over an empty range is the starting position.
proof fn lemma_ap_base(src: Seq<char>, i: int, line: nat, column: nat)
    requires
        0 <= i <= src.len(),
    ensures
        advance_position(src, i, i, line, column) == (line, column),
{
}

/// One more character folds into `advance_position` on the right.
proof fn lemma_ap_step(src: Seq<char>, i: int, j: int, line: nat, column: nat)
    requires
        0 <= i <= j < src.len(),
    ensures
        advance_position(src, i, j + 1, line, column) == ({
            let prev = advance_position(src, i, j, line, column);
            if src[j] == '\n' {
                ((prev.0 + 1) as nat, 1nat)
            } else {
                (prev.0, (prev.1 + 1) as nat)
            }
        }),
{
}

/// Every scan helper stays inside the input and moves forward.
proof fn lemma_scan_bounds(src: Seq<char>, i: int, quote: char)
    requires
        0 <= i <= src.len(),
    ensures
        i <= ws_end(src, i) <= src.len(),
        i <= line_comment_end(src, i) <= src.len(),
        i <= block_comment_end(src, i) <= src.len(),
        i <= quote_end(src, i, quote) <= src.len(),
        i <= num_end(src, i) <= src.len(),
        i <= ident_end(src, i) <= src.len(),
        i <= op_end(src, i) <= src.len(),
    decreases src.len() - i,
{
    if i < src.len() {
        lemma_scan_bounds(src, i + 1, quote);
        if i + 2 <= src.len() {
            lemma_scan_bounds(src, i + 2, quote);
        }
    }
}

/// A token always consumes at least one character and never runs past
/// the end of the input.
pub proof fn lemma_tok_end_bounds(src: Seq<char>, pos: int)
    requires
        0 <= pos < src.len(),
    ensures
        pos < tok_end(src, pos) <= src.len(),
{
    let c = src[pos];
    lemma_scan_bounds(src, pos, c);
    lemma_scan_bounds(src, pos + 1, c);
    if pos + 2 <= src.len() {
        lemma_scan_bounds(src, pos + 2, c);
    }
    if is_whitespace_char(c) {
        if c != '\n' {
            assert(ws_end(src, pos) == ws_end(src, pos + 1));
        }
    } else if c == '/' && pos + 1 < src.len() && src[pos + 1] == '/' {
        assert(line_comment_end(src, pos) == line_comment_end(src, pos + 1));
    } else if c == '/' && pos + 1 < src.len() && src[pos + 1] == '*' {
    } else if c == '"' || c == '\'' {
    } else if is_ascii_digit_char(c) {
        assert(num_end(src, pos) == num_end(src, pos + 1));
    } else if is_alphabetic_char(c) || c == '_' {
    } else if is_operator_char(c) {
        assert(op_end(src, pos) == op_end(src, pos + 1));
    }
}

/// The token sequence of `src` from `pos` on, with positions counted
/// from `(line, column)`.
pub open spec fn lex_from(src: Seq<char>, pos: int, line: nat, column: nat) -> Seq<TokenV>
    decreases src.len() - pos when 0 <= pos <= src.len()
{
    if pos >= src.len() {
        Seq::empty()
    } else {
        proof {
            lemma_tok_end_bounds(src, pos);
        }
        let end = tok_end(src, pos);
        let next = advance_position(src, pos, end, line, column);
        seq![token_at(src, pos, line, column)] + lex_from(src, end, next.0, next.1)
    }
}

/// The full token sequence of a source text.
pub open spec fn spec_tokens(src: Seq<char>) -> Seq<TokenV> {
    lex_from(src, 0, 1, 1)
}

// --- The executable tokenizer ------------------------------------------

/// Forward-scanning cursor over a source text, producing one token per
/// step.
pub struct Tokenizer {
    source: String,
    length: usize,
    position: usize,
    line: usize,
    column: usize,
    _language: Language,
}

impl Tokenizer {
    /// The cursor state a tokenizer keeps: position inside the input,
    /// line and column bounded so they can always be advanced.
    pub closed spec fn wf(&self) -> bool {
        &&& self.length == self.source@.len()
        &&& self.length < usize::MAX
        &&& self.position <= self.length
        &&& 1 <= self.line
        &&& 1 <= self.column
        &&& self.line <= self.position + 1
        &&& self.column <= self.position + 1
    }

    /// The characters this tokenizer scans.
    pub closed spec fn spec_source(&self) -> Seq<char> {
        self.source@
    }

    /// A freshly created tokenizer: nothing scanned yet.
    pub closed spec fn at_start(&self) -> bool {
        self.position == 0 && self.line == 1 && self.column == 1
    }

    pub fn new(source: &str, language: Language) -> (r: Self)
        requires
            source@.len() < usize::MAX,
        ensures
            r.wf(),
            r.spec_source() == source@,
            r.at_start(),
    {
        let length = source.unicode_len();
        Self {
            source: String::from_str(source),
            length,
            position: 0,
            line: 1,
            column: 1,
            _language: language,
        }
    }

    /// Scan the whole input into its token sequence. Never fails: every
    /// character lands in exactly one token, and an empty input yields
    /// an empty sequence.
    pub fn tokenize(self) -> (r: Result<Vec<Token>, MccabreError>)
        requires
            self.wf(),
            self.at_start(),
        ensures
            r matches Ok(ts) && token_views(ts@) == spec_tokens(self.spec_source()),
            r matches Ok(ts) && (self.spec_source().len() == 0 ==> ts@.len() == 0),
    {
        let ghost src = self.spec_source();
        let mut cursor = self;
        let mut tokens: Vec<Token> = Vec::new();

        proof {
            assert(token_views(tokens@) =~= Seq::<TokenV>::empty());
            assert(token_views(tokens@) + lex_from(src, 0, 1, 1) =~= lex_from(src, 0, 1, 1));
        }
        while !cursor.is_at_end()
            invariant
                cursor.wf(),
                cursor.spec_source() == src,
                spec_tokens(src) =~= token_views(tokens@) + lex_from(
                    src,
                    cursor.position as int,
                    cursor.line as nat,
                    cursor.column as nat,
                ),
            decreases cursor.length - cursor.position,
        {
            let ghost pos0 = cursor.position as int;
            let ghost line0 = cursor.line as nat;
            let ghost col0 = cursor.column as nat;
            proof {
                lemma_tok_end_bounds(src, pos0);
            }
            match cursor.next_token() {
                Ok(Some(token)) => {
                    proof {
                        let rest = lex_from(src, pos0, line0, col0);
                        assert(rest =~= seq![token_at(src, pos0, line0, col0)] + lex_from(
                            src,
                            cursor.position as int,
                            cursor.line as nat,
                            cursor.column as nat,
                        ));
                        assert(token_views(tokens@.push(token)) =~= token_views(tokens@) + seq![
                            token@,
                        ]);
                    }
                    tokens.push(token);
                },
                Ok(None) => {},
                Err(e) => {
                    return Err(e);
                },
            }
        }
        proof {
            assert(lex_from(src, cursor.position as int, cursor.line as nat, cursor.column as nat)
                =~= Seq::<TokenV>::empty());
            assert(spec_tokens(src) =~= token_views(tokens@));
        }
        Ok(tokens)
    }

    /// Scan the single token starting at the cursor.
    fn next_token(&mut self) -> (r: Result<Option<Token>, MccabreError>)
        requires
            old(self).wf(),
            old(self).position < old(self).length,
        ensures
            final(self).wf(),
            final(self).spec_source() == old(self).spec_source(),
            final(self).position == tok_end(old(self).spec_source(), old(self).position as int),
            (final(self).line as nat, final(self).column as nat) == advance_position(
                old(self).spec_source(),
                old(self).position as int,
                final(self).position as int,
                old(self).line as nat,
                old(self).column as nat,
            ),
            r matches Ok(t) && t matches Some(token) && token@ == token_at(
                old(self).spec_source(),
                old(self).position as int,
                old(self).line as nat,
                old(self).column as nat,
            ),
    {
        let ghost src = self.spec_source();
        let ghost pos0 = self.position as int;
        let ghost l0 = self.line as nat;
        let ghost c0 = self.column as nat;
        let start_line = self.line;
        let start_column = self.column;
        let start_pos = self.position;
        let ch = self.source.as_str().get_char(self.position);
        proof {
            lemma_tok_end_bounds(src, pos0);
            lemma_ap_base(src, pos0, l0, c0);
            lemma_ap_step(src, pos0, pos0, l0, c0);
            if pos0 + 1 < src.len() {
                lemma_ap_step(src, pos0, pos0 + 1, l0, c0);
            }
        }

        if whitespace_char(ch) {
            if ch == '\n' {
                self.advance();
                let text = self.source.as_str().substring_char(start_pos, self.position).to_owned();
                return Ok(
                    Some(
                        Token {
                            token_type: TokenType::Newline,
                            line: start_line,
                            column: start_column,
                            text,
                        },
                    ),
                );
            } else {
                while self.at_ws_not_newline()
                    invariant
                        self.wf(),
                        self.spec_source() == src,
                        0 <= pos0 <= self.position <= src.len(),
                        ws_end(src, pos0) == ws_end(src, self.position as int),
                        (self.line as nat, self.column as nat) == advance_position(
                            src,
                            pos0,
                            self.position as int,
                            l0,
                            c0,
                        ),
                    decreases src.len() - self.position,
                {
                    let ghost p = self.position as int;
                    self.advance();
                    proof {
                        lemma_ap_step(src, pos0, p, l0, c0);
                    }
                }
                let text = self.source.as_str().substring_char(start_pos, self.position).to_owned();
                return Ok(
                    Some(
                        Token {
                            token_type: TokenType::Whitespace,
                            line: start_line,
                            column: start_column,
                            text,
                        },
                    ),
                );
            }
        }

        if ch == '/' {
            let next = self.peek();
            if next == Some('/') {
                while self.at_not_newline()
                    invariant
                        self.wf(),
                        self.spec_source() == src,
                        0 <= pos0 <= self.position <= src.len(),
                        line_comment_end(src, pos0) == line_comment_end(src, self.position as int),
                        (self.line as nat, self.column as nat) == advance_position(
                            src,
                            pos0,
                            self.position as int,
                            l0,
                            c0,
                        ),
                    decreases src.len() - self.position,
                {
                    let ghost p = self.position as int;
                    self.advance();
                    proof {
                        lemma_ap_step(src, pos0, p, l0, c0);
                    }
                }
                let text = self.source.as_str().substring_char(start_pos, self.position).to_owned();
                return Ok(
                    Some(
                        Token {
                            token_type: TokenType::Comment,
                            line: start_line,
                            column: start_column,
                            text,
                        },
                    ),
                );
            } else if next == Some('*') {
                self.advance();
                self.advance();
                while self.at_block_comment_body()
                    invariant
                        self.wf(),
                        self.spec_source() == src,
                        0 <= pos0 && pos0 + 2 <= self.position <= src.len(),
                        block_comment_end(src, pos0 + 2) == block_comment_end(
                            src,
                            self.position as int,
                        ),
                        (self.line as nat, self.column as nat) == advance_position(
                            src,
                            pos0,
                            self.position as int,
                            l0,
                            c0,
                        ),
                    decreases src.len() - self.position,
                {
                    let ghost p = self.position as int;
                    self.advance();
                    proof {
                        lemma_ap_step(src, pos0, p, l0, c0);
                    }
                }
                if !self.is_at_end() {
                    let ghost p = self.position as int;
                    self.advance();
                    proof {
                        lemma_ap_step(src, pos0, p, l0, c0);
                    }
                    self.advance();
                    proof {
                        lemma_ap_step(src, pos0, p + 1, l0, c0);
                    }
                }
                let text = self.source.as_str().substring_char(start_pos, self.position).to_owned();
                return Ok(
                    Some(
                        Token {
                            token_type: TokenType::Comment,
                            line: start_line,
                            column: start_column,
                            text,
                        },
                    ),
                );
            }
        }

        if ch == '"' || ch == '\'' {
            let quote = ch;
            self.advance();
            while self.at_not_char(quote)
                invariant
                    self.wf(),
                    self.spec_source() == src,
                    0 <= pos0 && pos0 + 1 <= self.position <= src.len(),
                    quote_end(src, pos0 + 1, quote) == quote_end(src, self.position as int, quote),
                    (self.line as nat, self.column as nat) == advance_position(
                        src,
                        pos0,
                        self.position as int,
                        l0,
                        c0,
                    ),
                decreases src.len() - self.position,
            {
                let ghost p = self.position as int;
                if self.source.as_str().get_char(self.position) == '\\' {
                    self.advance();
                    proof {
                        lemma_ap_step(src, pos0, p, l0, c0);
                    }
                    if !self.is_at_end() {
                        self.advance();
                        proof {
                            lemma_ap_step(src, pos0, p + 1, l0, c0);
                        }
                    }
                } else {
                    self.advance();
                    proof {
                        lemma_ap_step(src, pos0, p, l0, c0);
                    }
                }
            }
            if !self.is_at_end() {
                let ghost p = self.position as int;
                self.advance();
                proof {
                    lemma_ap_step(src, pos0, p, l0, c0);
                }
            }
            let text = self.source.as_str().substring_char(start_pos, self.position).to_owned();
            let text_clone = text.clone();
            return Ok(
                Some(
                    Token {
                        token_type: TokenType::Literal(text_clone),
                        line: start_line,
                        column: start_column,
                        text,
                    },
                ),
            );
        }

        if ascii_digit_char(ch) {
            while self.at_numeric_continuation()
                invariant
                    self.wf(),
                    self.spec_source() == src,
                    0 <= pos0 <= self.position <= src.len(),
                    num_end(src, pos0) == num_end(src, self.position as int),
                    (self.line as nat, self.column as nat) == advance_position(
                        src,
                        pos0,
                        self.position as int,
                        l0,
                        c0,
                    ),
                decreases src.len() - self.position,
            {
                self.advance();
            }
            let text = self.source.as_str().substring_char(start_pos, self.position).to_owned();
            let text_clone = text.clone();
            return Ok(
                Some(
                    Token {
                        token_type: TokenType::Literal(text_clone),
                        line: start_line,
                        column: start_column,
                        text,
                    },
                ),
            );
        }

        if alphabetic_char(ch) || ch == '_' {
            while self.at_identifier_continuation()
                invariant
                    self.wf(),
                    self.spec_source() == src,
                    0 <= pos0 <= self.position <= src.len(),
                    ident_end(src, pos0) == ident_end(src, self.position as int),
                    (self.line as nat, self.column as nat) == advance_position(
                        src,
                        pos0,
                        self.position as int,
                        l0,
                        c0,
                    ),
                decreases src.len() - self.position,
            {
                self.advance();
            }
            let text = self.source.as_str().substring_char(start_pos, self.position).to_owned();
            let token_type = self.classify_keyword(&text);
            return Ok(
                Some(Token { token_type, line: start_line, column: start_column, text }),
            );
        }

        let token_type: TokenType = match ch {
            '{' => {
                self.advance();
                TokenType::LeftBrace
            },
            '}' => {
                self.advance();
                TokenType::RightBrace
            },
            '(' => {
                self.advance();
                TokenType::LeftParen
            },
            ')' => {
                self.advance();
                TokenType::RightParen
            },
            '[' => {
                self.advance();
                TokenType::LeftBracket
            },
            ']' => {
                self.advance();
                TokenType::RightBracket
            },
            ';' => {
                self.advance();
                TokenType::Semicolon
            },
            ',' => {
                self.advance();
                TokenType::Comma
            },
            '?' => {
                self.advance();
                TokenType::Ternary
            },
            '&' if self.peek() == Some('&') => {
                self.advance();
                self.advance();
                TokenType::LogicalAnd
            },
            '|' if self.peek() == Some('|') => {
                self.advance();
                self.advance();
                TokenType::LogicalOr
            },
            _ => {
                if operator_char(ch) {
                    while self.at_operator_char()
                        invariant
                            self.wf(),
                            self.spec_source() == src,
                            0 <= pos0 <= self.position <= src.len(),
                            op_end(src, pos0) == op_end(src, self.position as int),
                            (self.line as nat, self.column as nat) == advance_position(
                                src,
                                pos0,
                                self.position as int,
                                l0,
                                c0,
                            ),
                        decreases src.len() - self.position,
                    {
                        let ghost p = self.position as int;
                        self.advance();
                        proof {
                            lemma_ap_step(src, pos0, p, l0, c0);
                        }
                    }
                    let text = self.source.as_str().substring_char(
                        start_pos,
                        self.position,
                    ).to_owned();
                    TokenType::Operator(text)
                } else {
                    self.advance();
                    TokenType::Unknown(ch)
                }
            },
        };

        let text = self.source.as_str().substring_char(start_pos, self.position).to_owned();
        Ok(Some(Token { token_type, line: start_line, column: start_column, text }))
    }

    /// Classify a scanned word against the keyword table.
    fn classify_keyword(&self, word: &str) -> (r: TokenType)
        ensures
            r@ == classify_word(word@),
    {
        if str_eq(word, "if") {
            TokenType::If
        } else if str_eq(word, "else") {
            TokenType::Else
        } else if str_eq(word, "elif") {
            TokenType::ElseIf
        } else if str_eq(word, "while") {
            TokenType::While
        } else if str_eq(word, "for") {
            TokenType::For
        } else if str_eq(word, "loop") {
            TokenType::Loop
        } else if str_eq(word, "match") {
            TokenType::Match
        } else if str_eq(word, "switch") {
            TokenType::Switch
        } else if str_eq(word, "case") {
            TokenType::Case
        } else if str_eq(word, "default") {
            TokenType::Default
        } else if str_eq(word, "catch") {
            TokenType::Catch
        } else {
            TokenType::Identifier(word.to_owned())
        }
    }

    /// The character one position ahead of the cursor, if any.
    fn peek(&self) -> (r: Option<char>)
        requires
            self.wf(),
        ensures
            self.position + 1 < self.length ==> r == Some(self.spec_source()[self.position + 1]),
            self.position + 1 >= self.length ==> r is None,
    {
        if self.position < self.length && self.position + 1 < self.length {
            Some(self.source.as_str().get_char(self.position + 1))
        } else {
            None
        }
    }

    /// Step the cursor one character forward, keeping line and column
    /// in agreement with the text walked so far.
    fn advance(&mut self)
        requires
            old(self).wf(),
        ensures
            final(self).wf(),
            final(self).spec_source() == old(self).spec_source(),
            old(self).position < old(self).length ==> {
                let c = old(self).spec_source()[old(self).position as int];
                &&& final(self).position == old(self).position + 1
                &&& (c == '\n' ==> final(self).line == old(self).line + 1 && final(self).column
                    == 1)
                &&& (c != '\n' ==> final(self).line == old(self).line && final(self).column == old(
                    self,
                ).column + 1)
            },
            old(self).position >= old(self).length ==> *final(self) == *old(self),
    {
        if self.position < self.length {
            let ch = self.source.as_str().get_char(self.position);
            if ch == '\n' {
                self.line = self.line + 1;
                self.column = 1;
            } else {
                self.column = self.column + 1;
            }
            self.position = self.position + 1;
        }
    }

    /// Whether the whole input has been scanned.
    fn is_at_end(&self) -> (r: bool)
        ensures
            r == (self.position >= self.length),
    {
        self.position >= self.length
    }

    /// At a whitespace character other than a newline.
    fn at_ws_not_newline(&self) -> (r: bool)
        requires
            self.wf(),
        ensures
            r == (self.position < self.length && is_whitespace_char(
                self.spec_source()[self.position as int],
            ) && self.spec_source()[self.position as int] != '\n'),
    {
        if self.position < self.length {
            let c = self.source.as_str().get_char(self.position);
            whitespace_char(c) && c != '\n'
        } else {
            false
        }
    }

    /// At any character other than a newline.
    fn at_not_newline(&self) -> (r: bool)
        requires
            self.wf(),
        ensures
            r == (self.position < self.length && self.spec_source()[self.position as int] != '\n'),
    {
        if self.position < self.length {
            self.source.as_str().get_char(self.position) != '\n'
        } else {
            false
        }
    }

    /// Inside a block comment body, before the closing delimiter.
    fn at_block_comment_body(&self) -> (r: bool)
        requires
            self.wf(),
        ensures
            r == (self.position < self.length && !(self.spec_source()[self.position as int] == '*'
                && self.position + 1 < self.length && self.spec_source()[self.position + 1]
                == '/')),
    {
        if self.position < self.length {
            let c = self.source.as_str().get_char(self.position);
            if c == '*' && self.position + 1 < self.length {
                self.source.as_str().get_char(self.position + 1) != '/'
            } else {
                true
            }
        } else {
            false
        }
    }

    /// At any character other than `stop`.
    fn at_not_char(&self, stop: char) -> (r: bool)
        requires
            self.wf(),
        ensures
            r == (self.position < self.length && self.spec_source()[self.position as int] != stop),
    {
        if self.position < self.length {
            self.source.as_str().get_char(self.position) != stop
        } else {
            false
        }
    }

    /// At a character that extends a numeric literal.
    fn at_numeric_continuation(&self) -> (r: bool)
        requires
            self.wf(),
        ensures
            r == (self.position < self.length && (is_ascii_alphanumeric_char(
                self.spec_source()[self.position as int],
            ) || self.spec_source()[self.position as int] == '.'
                || self.spec_source()[self.position as int] == '_')),
    {
        if self.position < self.length {
            let c = self.source.as_str().get_char(self.position);
            ascii_alphanumeric_char(c) || c == '.' || c == '_'
        } else {
            false
        }
    }

    /// At a character that extends an identifier.
    fn at_identifier_continuation(&self) -> (r: bool)
        requires
            self.wf(),
        ensures
            r == (self.position < self.length && (is_alphanumeric_char(
                self.spec_source()[self.position as int],
            ) || self.spec_source()[self.position as int] == '_')),
    {
        if self.position < self.length {
            let c = self.source.as_str().get_char(self.position);
            alphanumeric_char(c) || c == '_'
        } else {
            false
        }
    }

    /// At a character that extends an operator token.
    fn at_operator_char(&self) -> (r: bool)
        requires
            self.wf(),
        ensures
            r == (self.position < self.length && is_operator_char(
                self.spec_source()[self.position as int],
            )),
    {
        if self.position < self.length {
            operator_char(self.source.as_str().get_char(self.position))
        } else {
            false
        }
    }
}

} // verus!
