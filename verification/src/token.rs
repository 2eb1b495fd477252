//! The shared lexical vocabulary: byte spans, tokens, and recovered lexing
//! faults.

use vstd::prelude::*;

verus! {

/// A half-open byte-offset range `[start, end)` over the source text.
///
/// Zero-width spans (`start == end`) are legal and used for synthesized
/// tokens such as `Indent`, `Dedent` and `Eof`.
#[derive(Debug, Clone, Copy, PartialEq, Eq, Hash, Structural)]
pub struct Span {
    pub start: u32,
    pub end: u32,
}

impl Span {
    pub fn new(start: u32, end: u32) -> (s: Span)
        requires
            start <= end,
        ensures
            s.start == start,
            s.end == end,
    {
        Span { start, end }
    }
}

/// One lexical unit: a kind and the byte span it covers.
#[derive(Debug, Clone, Copy, PartialEq, Eq, Structural)]
pub struct Token {
    pub kind: TokenKind,
    pub span: Span,
}

impl Token {
    pub fn new(kind: TokenKind, span: Span) -> (t: Token)
        ensures
            t.kind == kind,
            t.span == span,
    {
        Token { kind, span }
    }
}

/// A recovered lexing fault; the scan continues past it.
#[derive(Debug, Clone, Copy, PartialEq, Eq, Structural)]
pub struct LexError {
    pub span: Span,
    pub kind: LexErrorKind,
}

/// The taxonomy of lexing faults.
#[derive(Debug, Clone, Copy, PartialEq, Eq, Structural)]
pub enum LexErrorKind {
    /// A character not valid as any token start. Adjacent faults at
    /// contiguous positions coalesce into one error with an extended span.
    UnexpectedChar(char),
    /// Input ended mid-construct (a bare trailing carriage return).
    UnexpectedEof,
    /// A line's whitespace run is shorter than required to cleanly close
    /// the open indentation levels.
    OddIndentation,
    /// A line's whitespace run diverges in tab/space composition from an
    /// already-open level it is nested under.
    InconsistentIndentation,
    /// A decimal literal whose digit run does not fit the supported
    /// 128-bit signed integer range.
    IntegerOverflow,
}

/// A token list together with the error list accumulated while producing it.
#[derive(Debug, PartialEq, Eq, Default)]
pub struct TokenStorage {
    pub tokens: Vec<Token>,
    pub errors: Vec<LexError>,
}

/// One element of a line's leading-whitespace signature.
#[derive(Debug, Clone, Copy, PartialEq, Eq, Structural)]
pub enum IndentKind {
    Tab,
    Space,
}

/// The fixed, exhaustive enumeration of token kinds the grammar depends on.
#[derive(Debug, Clone, Copy, PartialEq, Eq, Structural)]
pub enum TokenKind {
    // Basic
    Annotation,
    Ident,
    IntLit,
    StrLit,
    // Comparison
    Less,
    LessEqual,
    Greater,
    GreaterEqual,
    EqualEqual,
    BangEqual,
    // Logical
    And,
    Or,
    Not,
    AmpAmp,
    PipePipe,
    Bang,
    // Bitwise
    Amp,
    Pipe,
    Tilde,
    Caret,
    LessLess,
    GreaterGreater,
    // Math
    Plus,
    Minus,
    Star,
    StarStar,
    Slash,
    Percent,
    // Assignment
    Equal,
    PlusEqual,
    MinusEqual,
    StarEqual,
    StarStarEqual,
    SlashEqual,
    PercentEqual,
    LessLessEqual,
    GreaterGreaterEqual,
    AmpEqual,
    PipeEqual,
    CaretEqual,
    // Control flow
    If,
    Elif,
    Else,
    For,
    While,
    Break,
    Continue,
    Pass,
    Return,
    Match,
    When,
    // Keywords
    As,
    Assert,
    Await,
    Breakpoint,
    Class,
    ClassName,
    Const,
    Enum,
    Extends,
    Func,
    In,
    Is,
    Namespace,
    Preload,
    Self_,
    Signal,
    Static,
    Super,
    Trait,
    Var,
    Void,
    Yield,
    // Punctuation
    BracketOpen,
    BracketClose,
    BraceOpen,
    BraceClose,
    ParenthesisOpen,
    ParenthesisClose,
    Comma,
    SemiColon,
    Period,
    PeriodPeriod,
    Colon,
    Dollar,
    ForwardArrow,
    Underscore,
    // Whitespace
    Newline,
    Indent,
    Dedent,
    // Special
    Eof,
}

} // verus!
