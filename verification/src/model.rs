//! The mathematical model of the lexer.
//!
//! `spec_tokenize` defines, as a recursive function over the source's
//! character sequence, exactly which token list and which error list the
//! lexer produces. The executable lexer is proved to return precisely this
//! model's result, so every run on equal sources yields equal lists.
//!
//! Positions are byte offsets. The model tracks them through `byte_at`,
//! which sums the UTF-8 widths of the characters before a given index.

use vstd::prelude::*;

use crate::token::{IndentKind, LexError, LexErrorKind, Span, Token, TokenKind};

verus! {

/// Identifier-start class. Names the result of `unicode_ident::is_xid_start`
/// (the Unicode XID_Start property), which depends on the character alone.
pub uninterp spec fn xid_start(c: char) -> bool;

/// Identifier-continuation class. Names the result of
/// `unicode_ident::is_xid_continue` (the Unicode XID_Continue property),
/// which depends on the character alone.
pub uninterp spec fn xid_continue(c: char) -> bool;

/// The width in bytes of one character's UTF-8 encoding.
pub open spec fn utf8_len(c: char) -> int {
    if (c as u32) < 0x80 {
        1
    } else if (c as u32) < 0x800 {
        2
    } else if (c as u32) < 0x10000 {
        3
    } else {
        4
    }
}

/// The byte length of a character sequence's UTF-8 encoding.
pub open spec fn byte_len(s: Seq<char>) -> int
    decreases s.len(),
{
    if s.len() == 0 {
        0
    } else {
        byte_len(s.drop_last()) + utf8_len(s.last())
    }
}

/// The byte offset of the character at index `i` (the byte length of the
/// characters before it).
pub open spec fn byte_at(s: Seq<char>, i: int) -> int {
    byte_len(s.take(i))
}

pub proof fn lemma_byte_len_nonneg(s: Seq<char>)
    ensures
        byte_len(s) >= 0,
    decreases s.len(),
{
    if s.len() > 0 {
        lemma_byte_len_nonneg(s.drop_last());
    }
}

pub proof fn lemma_byte_at_succ(s: Seq<char>, i: int)
    requires
        0 <= i < s.len(),
    ensures
        byte_at(s, i + 1) == byte_at(s, i) + utf8_len(s[i]),
{
    assert(s.take(i + 1).drop_last() =~= s.take(i));
    assert(s.take(i + 1).last() == s[i]);
}

pub proof fn lemma_byte_at_mono(s: Seq<char>, i: int, j: int)
    requires
        0 <= i <= j <= s.len(),
    ensures
        byte_at(s, i) <= byte_at(s, j),
    decreases j - i,
{
    if i < j {
        lemma_byte_at_succ(s, j - 1);
        lemma_byte_at_mono(s, i, j - 1);
    }
}

pub proof fn lemma_byte_at_full(s: Seq<char>)
    ensures
        byte_at(s, s.len() as int) == byte_len(s),
{
    assert(s.take(s.len() as int) =~= s);
}

pub proof fn lemma_byte_at_nonneg(s: Seq<char>, i: int)
    ensures
        byte_at(s, i) >= 0,
{
    lemma_byte_len_nonneg(s.take(i));
}

proof fn lemma_byte_len_front(s: Seq<char>)
    requires
        s.len() > 0,
    ensures
        byte_len(s) == utf8_len(s[0]) + byte_len(s.drop_first()),
    decreases s.len(),
{
    if s.len() == 1 {
        assert(s.drop_last() =~= Seq::<char>::empty());
        assert(s.drop_first() =~= Seq::<char>::empty());
    } else {
        lemma_byte_len_front(s.drop_last());
        assert(s.drop_last()[0] == s[0]);
        assert(s.drop_last().drop_first() =~= s.drop_first().drop_last());
        assert(s.drop_first().last() == s.last());
    }
}

/// `byte_len` is the length of the sequence's UTF-8 encoding.
pub proof fn lemma_byte_len_is_utf8_len(s: Seq<char>)
    ensures
        byte_len(s) == vstd::utf8::encode_utf8(s).len(),
    decreases s.len(),
{
    if s.len() > 0 {
        lemma_byte_len_front(s);
        lemma_byte_len_is_utf8_len(s.drop_first());
        vstd::utf8::char_is_scalar(s[0]);
        assert(vstd::utf8::encode_scalar(s[0] as u32).len() == utf8_len(s[0]));
    }
}

/// Every character takes at least one byte.
pub proof fn lemma_byte_len_ge_len(s: Seq<char>)
    ensures
        byte_len(s) >= s.len(),
    decreases s.len(),
{
    if s.len() > 0 {
        lemma_byte_len_ge_len(s.drop_last());
    }
}

/// Plain whitespace skipped between tokens.
pub open spec fn is_ws(c: char) -> bool {
    c == ' ' || c == '\t'
}

/// A character that can begin or extend a newline run.
pub open spec fn is_nl(c: char) -> bool {
    c == '\n' || c == '\r'
}

/// A decimal digit.
pub open spec fn is_digit(c: char) -> bool {
    '0' <= c && c <= '9'
}

/// First index at or after `i` that does not continue an identifier.
pub open spec fn run_end_xid(chars: Seq<char>, i: int) -> int
    decreases chars.len() - i,
{
    if i < chars.len() && xid_continue(chars[i]) {
        run_end_xid(chars, i + 1)
    } else {
        i
    }
}

/// First index at or after `i` that is not a decimal digit.
pub open spec fn run_end_digits(chars: Seq<char>, i: int) -> int
    decreases chars.len() - i,
{
    if i < chars.len() && is_digit(chars[i]) {
        run_end_digits(chars, i + 1)
    } else {
        i
    }
}

/// First index at or after `i` that is not plain whitespace.
pub open spec fn run_end_ws(chars: Seq<char>, i: int) -> int
    decreases chars.len() - i,
{
    if i < chars.len() && is_ws(chars[i]) {
        run_end_ws(chars, i + 1)
    } else {
        i
    }
}

pub proof fn lemma_run_end_xid_bounds(chars: Seq<char>, i: int)
    requires
        0 <= i <= chars.len(),
    ensures
        i <= run_end_xid(chars, i) <= chars.len(),
    decreases chars.len() - i,
{
    if i < chars.len() && xid_continue(chars[i]) {
        lemma_run_end_xid_bounds(chars, i + 1);
    }
}

pub proof fn lemma_run_end_digits_bounds(chars: Seq<char>, i: int)
    requires
        0 <= i <= chars.len(),
    ensures
        i <= run_end_digits(chars, i) <= chars.len(),
    decreases chars.len() - i,
{
    if i < chars.len() && is_digit(chars[i]) {
        lemma_run_end_digits_bounds(chars, i + 1);
    }
}

pub proof fn lemma_run_end_digits_chars(chars: Seq<char>, i: int)
    requires
        0 <= i <= chars.len(),
    ensures
        forall|k: int| i <= k < run_end_digits(chars, i) ==> is_digit(chars[k]),
    decreases chars.len() - i,
{
    if i < chars.len() && is_digit(chars[i]) {
        lemma_run_end_digits_chars(chars, i + 1);
    }
}

pub proof fn lemma_run_end_ws_bounds(chars: Seq<char>, i: int)
    requires
        0 <= i <= chars.len(),
    ensures
        i <= run_end_ws(chars, i) <= chars.len(),
    decreases chars.len() - i,
{
    if i < chars.len() && is_ws(chars[i]) {
        lemma_run_end_ws_bounds(chars, i + 1);
    }
}

/// The numeric value of a digit character.
pub open spec fn digit_val(c: char) -> int {
    c as u32 - '0' as u32
}

/// The value of a decimal digit run.
pub open spec fn digits_val(s: Seq<char>) -> int
    decreases s.len(),
{
    if s.len() == 0 {
        0
    } else {
        digits_val(s.drop_last()) * 10 + digit_val(s.last())
    }
}

pub proof fn lemma_digits_val_nonneg(s: Seq<char>)
    requires
        forall|k: int| 0 <= k < s.len() ==> is_digit(s[k]),
    ensures
        digits_val(s) >= 0,
    decreases s.len(),
{
    if s.len() > 0 {
        lemma_digits_val_nonneg(s.drop_last());
    }
}

/// The keyword table: an exact, case-sensitive match against a reserved
/// word gives its token kind; anything else is a plain identifier.
pub open spec fn keyword_or_ident(s: Seq<char>) -> TokenKind {
    if s == "if"@ {
        TokenKind::If
    } else if s == "elif"@ {
        TokenKind::Elif
    } else if s == "else"@ {
        TokenKind::Else
    } else if s == "for"@ {
        TokenKind::For
    } else if s == "while"@ {
        TokenKind::While
    } else if s == "break"@ {
        TokenKind::Break
    } else if s == "continue"@ {
        TokenKind::Continue
    } else if s == "pass"@ {
        TokenKind::Pass
    } else if s == "return"@ {
        TokenKind::Return
    } else if s == "match"@ {
        TokenKind::Match
    } else if s == "when"@ {
        TokenKind::When
    } else if s == "as"@ {
        TokenKind::As
    } else if s == "assert"@ {
        TokenKind::Assert
    } else if s == "await"@ {
        TokenKind::Await
    } else if s == "breakpoint"@ {
        TokenKind::Breakpoint
    } else if s == "class"@ {
        TokenKind::Class
    } else if s == "class_name"@ {
        TokenKind::ClassName
    } else if s == "const"@ {
        TokenKind::Const
    } else if s == "enum"@ {
        TokenKind::Enum
    } else if s == "extends"@ {
        TokenKind::Extends
    } else if s == "func"@ {
        TokenKind::Func
    } else if s == "in"@ {
        TokenKind::In
    } else if s == "is"@ {
        TokenKind::Is
    } else if s == "namespace"@ {
        TokenKind::Namespace
    } else if s == "preload"@ {
        TokenKind::Preload
    } else if s == "self"@ {
        TokenKind::Self_
    } else if s == "signal"@ {
        TokenKind::Signal
    } else if s == "static"@ {
        TokenKind::Static
    } else if s == "super"@ {
        TokenKind::Super
    } else if s == "trait"@ {
        TokenKind::Trait
    } else if s == "var"@ {
        TokenKind::Var
    } else if s == "void"@ {
        TokenKind::Void
    } else if s == "yield"@ {
        TokenKind::Yield
    } else {
        TokenKind::Ident
    }
}

/// Looks ahead at most two characters past `p`.
pub open spec fn peek(chars: Seq<char>, i: int) -> Option<char> {
    if 0 <= i < chars.len() {
        Some(chars[i])
    } else {
        None
    }
}

/// Maximal-munch operator and punctuation table: the token kind begun by
/// the character at `p` and how many characters it consumes.
pub open spec fn op_lookup(chars: Seq<char>, p: int) -> Option<(TokenKind, int)> {
    let c = chars[p];
    if c == '+' {
        if peek(chars, p + 1) == Some('=') {
            Some((TokenKind::PlusEqual, 2))
        } else {
            Some((TokenKind::Plus, 1))
        }
    } else if c == '-' {
        if peek(chars, p + 1) == Some('=') {
            Some((TokenKind::MinusEqual, 2))
        } else if peek(chars, p + 1) == Some('>') {
            Some((TokenKind::ForwardArrow, 2))
        } else {
            Some((TokenKind::Minus, 1))
        }
    } else if c == '*' {
        if peek(chars, p + 1) == Some('*') {
            if peek(chars, p + 2) == Some('=') {
                Some((TokenKind::StarStarEqual, 3))
            } else {
                Some((TokenKind::StarStar, 2))
            }
        } else if peek(chars, p + 1) == Some('=') {
            Some((TokenKind::StarEqual, 2))
        } else {
            Some((TokenKind::Star, 1))
        }
    } else if c == '/' {
        if peek(chars, p + 1) == Some('=') {
            Some((TokenKind::SlashEqual, 2))
        } else {
            Some((TokenKind::Slash, 1))
        }
    } else if c == '%' {
        if peek(chars, p + 1) == Some('=') {
            Some((TokenKind::PercentEqual, 2))
        } else {
            Some((TokenKind::Percent, 1))
        }
    } else if c == '=' {
        if peek(chars, p + 1) == Some('=') {
            Some((TokenKind::EqualEqual, 2))
        } else {
            Some((TokenKind::Equal, 1))
        }
    } else if c == '<' {
        if peek(chars, p + 1) == Some('=') {
            Some((TokenKind::LessEqual, 2))
        } else if peek(chars, p + 1) == Some('<') {
            if peek(chars, p + 2) == Some('=') {
                Some((TokenKind::LessLessEqual, 3))
            } else {
                Some((TokenKind::LessLess, 2))
            }
        } else {
            Some((TokenKind::Less, 1))
        }
    } else if c == '>' {
        if peek(chars, p + 1) == Some('=') {
            Some((TokenKind::GreaterEqual, 2))
        } else if peek(chars, p + 1) == Some('>') {
            if peek(chars, p + 2) == Some('=') {
                Some((TokenKind::GreaterGreaterEqual, 3))
            } else {
                Some((TokenKind::GreaterGreater, 2))
            }
        } else {
            Some((TokenKind::Greater, 1))
        }
    } else if c == '&' {
        if peek(chars, p + 1) == Some('&') {
            Some((TokenKind::AmpAmp, 2))
        } else if peek(chars, p + 1) == Some('=') {
            Some((TokenKind::AmpEqual, 2))
        } else {
            Some((TokenKind::Amp, 1))
        }
    } else if c == '|' {
        if peek(chars, p + 1) == Some('|') {
            Some((TokenKind::PipePipe, 2))
        } else if peek(chars, p + 1) == Some('=') {
            Some((TokenKind::PipeEqual, 2))
        } else {
            Some((TokenKind::Pipe, 1))
        }
    } else if c == '!' {
        if peek(chars, p + 1) == Some('=') {
            Some((TokenKind::BangEqual, 2))
        } else {
            Some((TokenKind::Bang, 1))
        }
    } else if c == '^' {
        if peek(chars, p + 1) == Some('=') {
            Some((TokenKind::CaretEqual, 2))
        } else {
            Some((TokenKind::Caret, 1))
        }
    } else if c == '.' {
        if peek(chars, p + 1) == Some('.') {
            Some((TokenKind::PeriodPeriod, 2))
        } else {
            Some((TokenKind::Period, 1))
        }
    } else if c == '~' {
        Some((TokenKind::Tilde, 1))
    } else if c == ':' {
        Some((TokenKind::Colon, 1))
    } else if c == ',' {
        Some((TokenKind::Comma, 1))
    } else if c == ';' {
        Some((TokenKind::SemiColon, 1))
    } else if c == '$' {
        Some((TokenKind::Dollar, 1))
    } else if c == '(' {
        Some((TokenKind::ParenthesisOpen, 1))
    } else if c == ')' {
        Some((TokenKind::ParenthesisClose, 1))
    } else if c == '[' {
        Some((TokenKind::BracketOpen, 1))
    } else if c == ']' {
        Some((TokenKind::BracketClose, 1))
    } else if c == '{' {
        Some((TokenKind::BraceOpen, 1))
    } else if c == '}' {
        Some((TokenKind::BraceClose, 1))
    } else {
        None
    }
}

/// An opening bracket increments the nesting counter.
pub open spec fn is_open_bracket(k: TokenKind) -> bool {
    k == TokenKind::ParenthesisOpen || k == TokenKind::BracketOpen || k == TokenKind::BraceOpen
}

/// A closing bracket decrements the nesting counter, saturating at zero.
pub open spec fn is_close_bracket(k: TokenKind) -> bool {
    k == TokenKind::ParenthesisClose || k == TokenKind::BracketClose || k
        == TokenKind::BraceClose
}

/// A span from byte offsets (the model always keeps offsets within `u32`).
pub open spec fn sp(a: int, b: int) -> Span {
    Span { start: a as u32, end: b as u32 }
}

/// Appends a lexing fault; adjacent unexpected-character faults at
/// contiguous positions coalesce into one error with an extended span.
pub open spec fn push_error(errors: Seq<LexError>, e: LexError) -> Seq<LexError> {
    if e.kind is UnexpectedChar && errors.len() > 0 && errors.last().kind is UnexpectedChar
        && errors.last().span.end == e.span.start {
        errors.update(
            errors.len() - 1,
            LexError { span: Span { start: errors.last().span.start, end: e.span.end }, kind: errors.last().kind },
        )
    } else {
        errors.push(e)
    }
}

/// The abstract state of a scan: the source characters, the index of the
/// next unconsumed character, what has been emitted so far, the open
/// indentation levels (innermost last), and the bracket nesting depth.
pub ghost struct LexSt {
    pub chars: Seq<char>,
    pub pos: int,
    pub tokens: Seq<Token>,
    pub errors: Seq<LexError>,
    pub indents: Seq<Seq<IndentKind>>,
    pub nesting: int,
}

/// The byte offset of the most recently consumed character (zero before
/// any character was consumed); synthesized tokens are placed relative to it.
pub open spec fn cur_byte(st: LexSt) -> int {
    if st.pos == 0 {
        0
    } else {
        byte_at(st.chars, st.pos - 1)
    }
}

/// Outcome of scanning a newline run starting at the already-consumed
/// newline character at index `i`.
pub ghost enum NlScan {
    /// The run consists of the characters up to (excluding) `end`.
    Done { end: int },
    /// A bare carriage return: the fault to record, and the index of the
    /// last consumed character.
    Bad { err: LexErrorKind, last: int },
}

pub open spec fn nl_scan(chars: Seq<char>, i: int) -> NlScan
    decreases chars.len() - i,
{
    if chars[i] == '\n' {
        if i + 1 < chars.len() && is_nl(chars[i + 1]) {
            nl_scan(chars, i + 1)
        } else {
            NlScan::Done { end: i + 1 }
        }
    } else {
        if i + 1 < chars.len() {
            if chars[i + 1] == '\n' {
                nl_scan(chars, i + 1)
            } else {
                NlScan::Bad { err: LexErrorKind::UnexpectedChar(chars[i + 1]), last: i }
            }
        } else {
            NlScan::Bad { err: LexErrorKind::UnexpectedEof, last: i }
        }
    }
}

pub proof fn lemma_nl_scan_bounds(chars: Seq<char>, i: int)
    requires
        0 <= i < chars.len(),
    ensures
        match nl_scan(chars, i) {
            NlScan::Done { end } => i < end <= chars.len(),
            NlScan::Bad { err, last } => i <= last < chars.len(),
        },
    decreases chars.len() - i,
{
    if chars[i] == '\n' {
        if i + 1 < chars.len() && is_nl(chars[i + 1]) {
            lemma_nl_scan_bounds(chars, i + 1);
        }
    } else {
        if i + 1 < chars.len() && chars[i + 1] == '\n' {
            lemma_nl_scan_bounds(chars, i + 1);
        }
    }
}

/// The tab/space signature of one leading-whitespace character.
pub open spec fn indent_of(c: char) -> IndentKind {
    if c == '\t' {
        IndentKind::Tab
    } else {
        IndentKind::Space
    }
}

/// The signature of the whitespace run `chars[i..j]`.
pub open spec fn ws_indent(chars: Seq<char>, i: int, j: int) -> Seq<IndentKind> {
    chars.subrange(i, j).map_values(|c: char| indent_of(c))
}

pub proof fn lemma_ws_indent_push(chars: Seq<char>, i: int, j: int)
    requires
        0 <= i <= j < chars.len(),
    ensures
        ws_indent(chars, i, j + 1) == ws_indent(chars, i, j).push(indent_of(chars[j])),
{
    let f = |c: char| indent_of(c);
    assert forall|m: int| 0 <= m < j + 1 - i implies ws_indent(chars, i, j + 1)[m] == ws_indent(
        chars,
        i,
        j,
    ).push(indent_of(chars[j]))[m] by {
        assert(ws_indent(chars, i, j + 1)[m] == f(chars.subrange(i, j + 1)[m]));
        if m < j - i {
            assert(ws_indent(chars, i, j)[m] == f(chars.subrange(i, j)[m]));
        }
    }
    assert(ws_indent(chars, i, j + 1) =~= ws_indent(chars, i, j).push(indent_of(chars[j])));
}

/// Outcome of comparing a line's whitespace signature against the stack of
/// open indentation levels, outermost first.
pub ghost enum IndMatch {
    /// Every level was matched or found past the line's run: close the
    /// innermost `dedents` levels, then open `leftover` if it is non-empty.
    Matched { dedents: int, leftover: Seq<IndentKind> },
    /// The run ended partway through a level's elements.
    Odd,
    /// An element of the run diverges from the level it is nested under.
    Inconsistent,
}

pub open spec fn match_ind(stack: Seq<Seq<IndentKind>>, cur: Seq<IndentKind>) -> IndMatch
    decreases stack.len(),
{
    if stack.len() == 0 {
        IndMatch::Matched { dedents: 0, leftover: cur }
    } else {
        let lvl = stack[0];
        if cur.len() == 0 {
            match match_ind(stack.drop_first(), cur) {
                IndMatch::Matched { dedents, leftover } => IndMatch::Matched {
                    dedents: dedents + 1,
                    leftover,
                },
                r => r,
            }
        } else if lvl.len() <= cur.len() && cur.take(lvl.len() as int) == lvl {
            match_ind(stack.drop_first(), cur.skip(lvl.len() as int))
        } else if cur.len() < lvl.len() && cur == lvl.take(cur.len() as int) {
            IndMatch::Odd
        } else {
            IndMatch::Inconsistent
        }
    }
}

/// Skipped plain whitespace: consume the character, emit nothing.
pub open spec fn step_ws(st: LexSt) -> LexSt {
    LexSt { pos: st.pos + 1, ..st }
}

/// An identifier or keyword: the maximal run of continuation characters.
pub open spec fn step_ident(st: LexSt) -> LexSt {
    let p = st.pos;
    let j = run_end_xid(st.chars, p + 1);
    let text = st.chars.subrange(p, j);
    let t = Token {
        kind: keyword_or_ident(text),
        span: sp(byte_at(st.chars, p), byte_at(st.chars, j)),
    };
    LexSt { pos: j, tokens: st.tokens.push(t), ..st }
}

/// A lone zero is a complete literal: a leading zero never begins a
/// multi-digit literal.
pub open spec fn step_zero(st: LexSt) -> LexSt {
    let p = st.pos;
    let t = Token { kind: TokenKind::IntLit, span: sp(byte_at(st.chars, p), byte_at(st.chars, p + 1)) };
    LexSt { pos: p + 1, tokens: st.tokens.push(t), ..st }
}

/// A literal beginning `1`-`9` greedily consumes decimal digits. A run
/// whose value exceeds the 128-bit signed range yields an overflow fault
/// instead of a token.
pub open spec fn step_number(st: LexSt) -> LexSt {
    let p = st.pos;
    let j = run_end_digits(st.chars, p + 1);
    let span = sp(byte_at(st.chars, p), byte_at(st.chars, j));
    if digits_val(st.chars.subrange(p, j)) <= i128::MAX {
        LexSt { pos: j, tokens: st.tokens.push(Token { kind: TokenKind::IntLit, span }), ..st }
    } else {
        LexSt {
            pos: j,
            errors: push_error(st.errors, LexError { span, kind: LexErrorKind::IntegerOverflow }),
            ..st
        }
    }
}

/// An operator, punctuation or bracket token of `n` characters.
pub open spec fn step_op(st: LexSt, k: TokenKind, n: int) -> LexSt {
    let p = st.pos;
    let t = Token { kind: k, span: sp(byte_at(st.chars, p), byte_at(st.chars, p + n)) };
    let nesting = if is_open_bracket(k) {
        st.nesting + 1
    } else if is_close_bracket(k) {
        if st.nesting > 0 {
            st.nesting - 1
        } else {
            0
        }
    } else {
        st.nesting
    };
    LexSt { pos: p + n, tokens: st.tokens.push(t), nesting, ..st }
}

/// A character that starts no token: record a fault (coalescing with an
/// adjacent one) and continue.
pub open spec fn step_bad(st: LexSt) -> LexSt {
    let p = st.pos;
    let e = LexError {
        span: sp(byte_at(st.chars, p), byte_at(st.chars, p + 1)),
        kind: LexErrorKind::UnexpectedChar(st.chars[p]),
    };
    LexSt { pos: p + 1, errors: push_error(st.errors, e), ..st }
}

/// A newline run outside brackets: collapse it into one `Newline` token,
/// then measure the next line's leading whitespace and close or open
/// indentation levels. Inside brackets the character is silently absorbed.
pub open spec fn step_newline(st: LexSt) -> LexSt {
    let chars = st.chars;
    let p = st.pos;
    if st.nesting > 0 {
        LexSt { pos: p + 1, ..st }
    } else {
        match nl_scan(chars, p) {
            NlScan::Bad { err, last } => {
                let e = LexError { span: sp(byte_at(chars, last), byte_at(chars, last) + 1), kind: err };
                LexSt { pos: last + 1, errors: push_error(st.errors, e), ..st }
            },
            NlScan::Done { end } => {
                let nl_tok = Token {
                    kind: TokenKind::Newline,
                    span: sp(byte_at(chars, p), byte_at(chars, end)),
                };
                let k = run_end_ws(chars, end);
                let ind = ws_indent(chars, end, k);
                let cb = byte_at(chars, k - 1);
                match match_ind(st.indents, ind) {
                    IndMatch::Odd => LexSt {
                        pos: k,
                        tokens: st.tokens.push(nl_tok),
                        errors: push_error(
                            st.errors,
                            LexError { span: sp(cb, cb + 1), kind: LexErrorKind::OddIndentation },
                        ),
                        ..st
                    },
                    IndMatch::Inconsistent => LexSt {
                        pos: k,
                        tokens: st.tokens.push(nl_tok),
                        errors: push_error(
                            st.errors,
                            LexError {
                                span: sp(cb, cb + 1),
                                kind: LexErrorKind::InconsistentIndentation,
                            },
                        ),
                        ..st
                    },
                    IndMatch::Matched { dedents, leftover } => {
                        let deds = Seq::new(
                            dedents as nat,
                            |i: int| Token { kind: TokenKind::Dedent, span: sp(cb + 1, cb + 1) },
                        );
                        let toks = st.tokens.push(nl_tok) + deds;
                        let stack = st.indents.take(st.indents.len() - dedents);
                        if leftover.len() > 0 {
                            LexSt {
                                pos: k,
                                tokens: toks.push(
                                    Token { kind: TokenKind::Indent, span: sp(cb, cb) },
                                ),
                                indents: stack.push(leftover),
                                ..st
                            }
                        } else {
                            LexSt { pos: k, tokens: toks, indents: stack, ..st }
                        }
                    },
                }
            },
        }
    }
}

/// The operator step at the current position's table entry.
pub open spec fn step_op_at(st: LexSt) -> LexSt {
    let (k, n) = op_lookup(st.chars, st.pos)->Some_0;
    step_op(st, k, n)
}

/// Prepends `d` further closed levels to a successful indentation match.
pub open spec fn add_dedents(r: IndMatch, d: int) -> IndMatch {
    match r {
        IndMatch::Matched { dedents, leftover } => IndMatch::Matched {
            dedents: dedents + d,
            leftover,
        },
        o => o,
    }
}

/// One iteration of the scanning loop: dispatch on the next character.
pub open spec fn lex_step(st: LexSt) -> LexSt {
    let c = st.chars[st.pos];
    if is_ws(c) {
        step_ws(st)
    } else if xid_start(c) {
        step_ident(st)
    } else if c == '0' {
        step_zero(st)
    } else if is_digit(c) {
        step_number(st)
    } else if op_lookup(st.chars, st.pos) is Some {
        step_op_at(st)
    } else if is_nl(c) {
        step_newline(st)
    } else {
        step_bad(st)
    }
}

/// End of input: ensure the last logical line is newline-terminated, close
/// every still-open indentation level, and emit the end-of-stream marker.
pub open spec fn lex_finish(st: LexSt) -> LexSt {
    let cb = cur_byte(st);
    let t1 = if st.tokens.len() > 0 && st.tokens.last().kind != TokenKind::Dedent
        && st.tokens.last().kind != TokenKind::Newline {
        st.tokens.push(Token { kind: TokenKind::Newline, span: sp(cb + 1, cb + 1) })
    } else {
        st.tokens
    };
    let t2 = t1 + Seq::new(
        st.indents.len(),
        |i: int| Token { kind: TokenKind::Dedent, span: sp(cb + 1, cb + 1) },
    );
    let t3 = t2.push(Token { kind: TokenKind::Eof, span: sp(cb + 1, cb + 1) });
    LexSt { tokens: t3, indents: Seq::empty(), ..st }
}

pub proof fn lemma_step_bounds(st: LexSt)
    requires
        0 <= st.pos < st.chars.len(),
    ensures
        st.pos < lex_step(st).pos <= st.chars.len(),
        lex_step(st).chars == st.chars,
{
    let chars = st.chars;
    let p = st.pos;
    let c = chars[p];
    if is_ws(c) {
    } else if xid_start(c) {
        lemma_run_end_xid_bounds(chars, p + 1);
    } else if c == '0' {
    } else if is_digit(c) {
        lemma_run_end_digits_bounds(chars, p + 1);
    } else if op_lookup(chars, p) is Some {
        let (k, n) = op_lookup(chars, p)->Some_0;
        assert(1 <= n <= 3);
        assert(n >= 2 ==> p + 1 < chars.len());
        assert(n == 3 ==> p + 2 < chars.len());
    } else if is_nl(c) {
        if st.nesting > 0 {
        } else {
            lemma_nl_scan_bounds(chars, p);
            match nl_scan(chars, p) {
                NlScan::Bad { err, last } => {},
                NlScan::Done { end } => {
                    lemma_run_end_ws_bounds(chars, end);
                },
            }
        }
    } else {
    }
}

/// The whole scan from state `st` to the end of the characters.
pub open spec fn lex_run(st: LexSt) -> LexSt
    decreases st.chars.len() - st.pos,
        when 0 <= st.pos
        via lex_run_decreases
{
    if st.pos < st.chars.len() {
        lex_run(lex_step(st))
    } else {
        lex_finish(st)
    }
}

#[via_fn]
proof fn lex_run_decreases(st: LexSt) {
    if st.pos < st.chars.len() {
        lemma_step_bounds(st);
    }
}

/// The scan's starting state for a given source.
pub open spec fn init_st(s: Seq<char>) -> LexSt {
    LexSt {
        chars: s,
        pos: 0,
        tokens: Seq::empty(),
        errors: Seq::empty(),
        indents: Seq::empty(),
        nesting: 0,
    }
}

/// The token list the lexer produces for a source.
pub open spec fn spec_tokens(s: Seq<char>) -> Seq<Token> {
    lex_run(init_st(s)).tokens
}

/// The error list the lexer produces for a source.
pub open spec fn spec_errors(s: Seq<char>) -> Seq<LexError> {
    lex_run(init_st(s)).errors
}

} // verus!
