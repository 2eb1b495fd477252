//! The executable lexer: a single forward pass over the source characters
//! producing the token list and error list that `crate::model` defines.

use vstd::prelude::*;

use crate::model::{
    add_dedents, byte_at, byte_len, cur_byte, digits_val, init_st, is_digit, is_nl,
    keyword_or_ident, lemma_byte_at_full, lemma_byte_at_mono, lemma_byte_at_nonneg,
    lemma_byte_at_succ, lemma_byte_len_ge_len, lemma_byte_len_nonneg, lemma_digits_val_nonneg,
    lemma_run_end_digits_bounds, lemma_run_end_digits_chars, lemma_run_end_xid_bounds,
    lemma_step_bounds, lemma_ws_indent_push, lex_finish, lex_run, lex_step, match_ind, nl_scan,
    op_lookup, peek, push_error, run_end_digits, run_end_ws, run_end_xid, spec_errors,
    spec_tokens, step_ident, step_newline, step_number, step_op_at, step_zero, utf8_len,
    ws_indent, xid_start, IndMatch, LexSt, NlScan,
};
use crate::token::{IndentKind, LexError, LexErrorKind, Span, Token, TokenKind};
use vstd::std_specs::iter::IteratorSpec;

verus! {

broadcast use vstd::string::axiom_spec_iter, vstd::string::next_postcondition;

/// One open indentation level: a non-empty tab/space signature.
struct Indentation {
    elements: Vec<IndentKind>,
}

impl View for Indentation {
    type V = Seq<IndentKind>;

    closed spec fn view(&self) -> Seq<IndentKind> {
        self.elements@
    }
}

/// The lexer's state: the source characters, a forward cursor, the emitted
/// token and error lists, the stack of open indentation levels, and the
/// bracket nesting depth.
pub struct Lexer {
    chars: Vec<char>,
    pos: usize,
    current_pos: u32,
    next_pos: u32,
    token_start: u32,
    tokens: Vec<Token>,
    errors: Vec<LexError>,
    indent_stack: Vec<Indentation>,
    nesting: u32,
}

impl View for Lexer {
    type V = LexSt;

    closed spec fn view(&self) -> LexSt {
        LexSt {
            chars: self.chars@,
            pos: self.pos as int,
            tokens: self.tokens@,
            errors: self.errors@,
            indents: self.indent_stack@.map_values(|ind: Indentation| ind@),
            nesting: self.nesting as int,
        }
    }
}

/// Collects a string's characters; the view of a `&str` is exactly this
/// character sequence.
fn chars_of(s: &str) -> (v: Vec<char>)
    ensures
        v@ == s@,
{
    let mut it = s.chars();
    let mut v: Vec<char> = Vec::new();
    loop
        invariant_except_break
            v@ + it.remaining() == s@,
            it.decrease() is Some,
        ensures
            v@ == s@,
        decreases it.decrease()->0,
    {
        match it.next() {
            Some(c) => {
                v.push(c);
            },
            None => {
                proof {
                    assert(v@ =~= s@);
                }
                break ;
            },
        }
    }
    v
}

/// The width in bytes of one character's UTF-8 encoding.
fn utf8_len_of(c: char) -> (n: u32)
    ensures
        n as int == utf8_len(c),
{
    let u = c as u32;
    if u < 0x80 {
        1
    } else if u < 0x800 {
        2
    } else if u < 0x10000 {
        3
    } else {
        4
    }
}

impl Lexer {
    /// The cursor, byte accounting, and nesting counter are consistent, and
    /// every byte offset (plus room for the one-past-the-end positions of
    /// synthesized tokens) fits in `u32`.
    pub closed spec fn wf(&self) -> bool {
        &&& self.pos <= self.chars@.len()
        &&& byte_len(self.chars@) + 2 <= u32::MAX as int
        &&& self.next_pos as int == byte_at(self.chars@, self.pos as int)
        &&& self.current_pos as int == cur_byte(self@)
        &&& self.nesting as int <= self.pos as int
    }

    pub fn new(source: &str) -> (lex: Lexer)
        requires
            byte_len(source@) + 2 <= u32::MAX,
        ensures
            lex.wf(),
            lex@ == init_st(source@),
            lex@.chars == source@,
    {
        let chars = chars_of(source);
        let lex = Lexer {
            chars,
            pos: 0,
            current_pos: 0,
            next_pos: 0,
            token_start: 0,
            tokens: Vec::new(),
            errors: Vec::new(),
            indent_stack: Vec::new(),
            nesting: 0,
        };
        proof {
            assert(lex.chars@.take(0) =~= Seq::<char>::empty());
            assert(lex.indent_stack@.map_values(|ind: Indentation| ind@) =~= Seq::<
                Seq<IndentKind>,
            >::empty());
            assert(lex@ =~= init_st(source@));
        }
        lex
    }

    /// Consumes the next character, if any, keeping the byte cursor in step.
    fn bump(&mut self) -> (r: Option<char>)
        requires
            old(self).wf(),
        ensures
            final(self).wf(),
            old(self).pos < old(self).chars@.len() ==> (r == Some(
                old(self).chars@[old(self).pos as int],
            ) && final(self)@ == (LexSt { pos: old(self)@.pos + 1, ..old(self)@ }) && final(self).token_start
                == old(self).token_start),
            old(self).pos >= old(self).chars@.len() ==> (r is None && *final(self) == *old(self)),
    {
        if self.pos < self.chars.len() {
            let c = self.chars[self.pos];
            proof {
                lemma_byte_at_succ(self.chars@, self.pos as int);
                lemma_byte_at_mono(self.chars@, self.pos + 1 as int, self.chars@.len() as int);
                lemma_byte_at_full(self.chars@);
            }
            self.current_pos = self.next_pos;
            self.next_pos = self.next_pos + utf8_len_of(c);
            self.pos = self.pos + 1;
            Some(c)
        } else {
            None
        }
    }

    /// One-character lookahead without consuming.
    fn first(&self) -> (r: Option<char>)
        ensures
            r == peek(self.chars@, self.pos as int),
    {
        if self.pos < self.chars.len() {
            Some(self.chars[self.pos])
        } else {
            None
        }
    }

    /// Marks the most recently consumed character as the start of a token.
    fn begin_token(&mut self)
        ensures
            *final(self) == (Lexer { token_start: old(self).current_pos, ..*old(self) }),
    {
        self.token_start = self.current_pos;
    }

    /// Emits a token from the marked start through the most recently
    /// consumed character, inclusive: its span ends at the byte offset
    /// just past that character's UTF-8 encoding.
    fn end_token_incl(&mut self, kind: TokenKind)
        requires
            old(self).wf(),
            old(self).token_start <= old(self).next_pos,
        ensures
            final(self).wf(),
            final(self)@ == (LexSt {
                tokens: old(self)@.tokens.push(
                    Token {
                        kind,
                        span: Span { start: old(self).token_start, end: old(self).next_pos },
                    },
                ),
                ..old(self)@
            }),
            final(self).token_start == old(self).token_start,
            final(self).current_pos == old(self).current_pos,
            final(self).next_pos == old(self).next_pos,
    {
        let span = Span::new(self.token_start, self.next_pos);
        let token = Token::new(kind, span);
        self.tokens.push(token);
    }

    /// The byte cursor never passes the total byte length.
    proof fn lemma_current_pos_bound(&self)
        requires
            self.wf(),
        ensures
            self.current_pos as int <= byte_len(self.chars@),
            self.current_pos as int + 2 <= u32::MAX as int,
    {
        lemma_byte_at_full(self.chars@);
        if self.pos == 0 {
            lemma_byte_len_nonneg(self.chars@);
        } else {
            lemma_byte_at_mono(self.chars@, self.pos - 1 as int, self.chars@.len() as int);
        }
    }

    /// Emits a zero-width token `offset` bytes past the most recently
    /// consumed character.
    fn zero_length_token(&mut self, kind: TokenKind, offset: u32)
        requires
            old(self).wf(),
            offset <= 1,
        ensures
            final(self).wf(),
            final(self)@ == (LexSt {
                tokens: old(self)@.tokens.push(
                    Token {
                        kind,
                        span: Span {
                            start: (old(self).current_pos + offset) as u32,
                            end: (old(self).current_pos + offset) as u32,
                        },
                    },
                ),
                ..old(self)@
            }),
            final(self).token_start == old(self).token_start,
            final(self).current_pos == old(self).current_pos,
            final(self).next_pos == old(self).next_pos,
    {
        proof {
            self.lemma_current_pos_bound();
        }
        let at = self.current_pos + offset;
        let token = Token::new(kind, Span::new(at, at));
        self.tokens.push(token);
    }

    /// Emits a token covering exactly the most recently consumed
    /// character.
    fn single_char_token(&mut self, kind: TokenKind)
        requires
            old(self).wf(),
        ensures
            final(self).wf(),
            final(self)@ == (LexSt {
                tokens: old(self)@.tokens.push(
                    Token {
                        kind,
                        span: Span { start: old(self).current_pos, end: old(self).next_pos },
                    },
                ),
                ..old(self)@
            }),
            final(self).current_pos == old(self).current_pos,
            final(self).next_pos == old(self).next_pos,
    {
        proof {
            if self.pos > 0 {
                lemma_byte_at_mono(self.chars@, self.pos - 1 as int, self.pos as int);
            } else {
                assert(self.chars@.take(0) =~= Seq::<char>::empty());
            }
        }
        self.begin_token();
        self.end_token_incl(kind);
    }

    /// Records a fault at the given span, coalescing adjacent
    /// unexpected-character faults.
    fn error_at(&mut self, span: Span, kind: LexErrorKind)
        ensures
            final(self)@ == (LexSt {
                errors: push_error(old(self)@.errors, LexError { span, kind }),
                ..old(self)@
            }),
            final(self).token_start == old(self).token_start,
            final(self).current_pos == old(self).current_pos,
            final(self).next_pos == old(self).next_pos,
            final(self).wf() == old(self).wf(),
    {
        let e = LexError { span, kind };
        let mut coalesce = false;
        if matches!(kind, LexErrorKind::UnexpectedChar(_)) && self.errors.len() > 0 {
            let last = self.errors[self.errors.len() - 1];
            if matches!(last.kind, LexErrorKind::UnexpectedChar(_)) && last.span.end
                == span.start {
                coalesce = true;
            }
        }
        if coalesce {
            let last = self.errors.pop().unwrap();
            let merged = LexError {
                span: Span { start: last.span.start, end: span.end },
                kind: last.kind,
            };
            self.errors.push(merged);
            proof {
                assert(self.errors@ =~= push_error(old(self).errors@, e));
            }
        } else {
            self.errors.push(e);
            proof {
                assert(self.errors@ =~= push_error(old(self).errors@, e));
            }
        }
    }

    /// Records a fault at the most recently consumed character.
    fn error(&mut self, kind: LexErrorKind)
        requires
            old(self).wf(),
        ensures
            final(self).wf(),
            final(self)@ == (LexSt {
                errors: push_error(
                    old(self)@.errors,
                    LexError {
                        span: Span {
                            start: old(self).current_pos,
                            end: (old(self).current_pos + 1) as u32,
                        },
                        kind,
                    },
                ),
                ..old(self)@
            }),
            final(self).token_start == old(self).token_start,
            final(self).current_pos == old(self).current_pos,
            final(self).next_pos == old(self).next_pos,
    {
        proof {
            self.lemma_current_pos_bound();
        }
        let span = Span::new(self.current_pos, self.current_pos + 1);
        self.error_at(span, kind);
    }

    /// Enters one bracket nesting level.
    fn nest(&mut self)
        requires
            old(self).nesting < u32::MAX,
        ensures
            *final(self) == (Lexer { nesting: (old(self).nesting + 1) as u32, ..*old(self) }),
    {
        self.nesting = self.nesting + 1;
    }

    /// Leaves one bracket nesting level, saturating at zero.
    fn unnest(&mut self)
        ensures
            *final(self) == (Lexer {
                nesting: if old(self).nesting > 0 {
                    (old(self).nesting - 1) as u32
                } else {
                    0
                },
                ..*old(self)
            }),
    {
        if self.nesting > 0 {
            self.nesting = self.nesting - 1;
        }
    }
}

/// Whether the characters `chars[lo..hi]` spell exactly the string `s`.
fn range_eq_str(chars: &Vec<char>, lo: usize, hi: usize, s: &str) -> (r: bool)
    requires
        lo <= hi <= chars@.len(),
    ensures
        r == (chars@.subrange(lo as int, hi as int) == s@),
{
    let ghost sub = chars@.subrange(lo as int, hi as int);
    let mut it = s.chars();
    let mut i = lo;
    loop
        invariant
            lo <= i <= hi <= chars@.len(),
            it.remaining() == s@.skip(i - lo),
            i - lo <= s@.len(),
            chars@.subrange(lo as int, i as int) == s@.take(i - lo),
            it.decrease() is Some,
            sub == chars@.subrange(lo as int, hi as int),
        decreases it.decrease()->0,
    {
        match it.next() {
            Some(c) => {
                if i < hi {
                    if chars[i] == c {
                        proof {
                            assert(chars@.subrange(lo as int, (i + 1) as int) =~= s@.take(
                                i + 1 - lo,
                            ));
                        }
                        i = i + 1;
                    } else {
                        proof {
                            if sub == s@ {
                                assert(sub[i - lo] == chars@[i as int]);
                                assert(s@[i - lo] == c);
                            }
                        }
                        return false;
                    }
                } else {
                    proof {
                        assert(s@.len() > hi - lo);
                        assert(sub.len() == hi - lo);
                    }
                    return false;
                }
            },
            None => {
                if i == hi {
                    proof {
                        assert(sub =~= s@);
                    }
                    return true;
                } else {
                    proof {
                        assert(s@.len() == i - lo);
                        assert(sub.len() == hi - lo);
                    }
                    return false;
                }
            },
        }
    }
}

/// Looks the characters `chars[lo..hi]` up in the keyword table.
fn keyword_kind(chars: &Vec<char>, lo: usize, hi: usize) -> (k: TokenKind)
    requires
        lo <= hi <= chars@.len(),
    ensures
        k == keyword_or_ident(chars@.subrange(lo as int, hi as int)),
{
    if range_eq_str(chars, lo, hi, "if") {
        TokenKind::If
    } else if range_eq_str(chars, lo, hi, "elif") {
        TokenKind::Elif
    } else if range_eq_str(chars, lo, hi, "else") {
        TokenKind::Else
    } else if range_eq_str(chars, lo, hi, "for") {
        TokenKind::For
    } else if range_eq_str(chars, lo, hi, "while") {
        TokenKind::While
    } else if range_eq_str(chars, lo, hi, "break") {
        TokenKind::Break
    } else if range_eq_str(chars, lo, hi, "continue") {
        TokenKind::Continue
    } else if range_eq_str(chars, lo, hi, "pass") {
        TokenKind::Pass
    } else if range_eq_str(chars, lo, hi, "return") {
        TokenKind::Return
    } else if range_eq_str(chars, lo, hi, "match") {
        TokenKind::Match
    } else if range_eq_str(chars, lo, hi, "when") {
        TokenKind::When
    } else if range_eq_str(chars, lo, hi, "as") {
        TokenKind::As
    } else if range_eq_str(chars, lo, hi, "assert") {
        TokenKind::Assert
    } else if range_eq_str(chars, lo, hi, "await") {
        TokenKind::Await
    } else if range_eq_str(chars, lo, hi, "breakpoint") {
        TokenKind::Breakpoint
    } else if range_eq_str(chars, lo, hi, "class") {
        TokenKind::Class
    } else if range_eq_str(chars, lo, hi, "class_name") {
        TokenKind::ClassName
    } else if range_eq_str(chars, lo, hi, "const") {
        TokenKind::Const
    } else if range_eq_str(chars, lo, hi, "enum") {
        TokenKind::Enum
    } else if range_eq_str(chars, lo, hi, "extends") {
        TokenKind::Extends
    } else if range_eq_str(chars, lo, hi, "func") {
        TokenKind::Func
    } else if range_eq_str(chars, lo, hi, "in") {
        TokenKind::In
    } else if range_eq_str(chars, lo, hi, "is") {
        TokenKind::Is
    } else if range_eq_str(chars, lo, hi, "namespace") {
        TokenKind::Namespace
    } else if range_eq_str(chars, lo, hi, "preload") {
        TokenKind::Preload
    } else if range_eq_str(chars, lo, hi, "self") {
        TokenKind::Self_
    } else if range_eq_str(chars, lo, hi, "signal") {
        TokenKind::Signal
    } else if range_eq_str(chars, lo, hi, "static") {
        TokenKind::Static
    } else if range_eq_str(chars, lo, hi, "super") {
        TokenKind::Super
    } else if range_eq_str(chars, lo, hi, "trait") {
        TokenKind::Trait
    } else if range_eq_str(chars, lo, hi, "var") {
        TokenKind::Var
    } else if range_eq_str(chars, lo, hi, "void") {
        TokenKind::Void
    } else if range_eq_str(chars, lo, hi, "yield") {
        TokenKind::Yield
    } else {
        TokenKind::Ident
    }
}

impl Lexer {
    /// Consumes the maximal run of identifier-continuation characters.
    fn scan_xid(&mut self)
        requires
            old(self).wf(),
        ensures
            final(self).wf(),
            final(self)@ == (LexSt {
                pos: run_end_xid(old(self)@.chars, old(self)@.pos),
                ..old(self)@
            }),
            final(self).token_start == old(self).token_start,
    {
        let ghost st0 = self@;
        let ghost ts0 = self.token_start;
        loop
            invariant_except_break
                self.wf(),
                self.token_start == ts0,
                st0.pos <= self@.pos,
                self@ == (LexSt { pos: self@.pos, ..st0 }),
                run_end_xid(st0.chars, st0.pos) == run_end_xid(st0.chars, self@.pos),
            ensures
                self.wf(),
                self.token_start == ts0,
                self@ == (LexSt { pos: run_end_xid(st0.chars, st0.pos), ..st0 }),
            decreases st0.chars.len() - self@.pos,
        {
            match self.first() {
                Some(c) => {
                    if unicode_ident::is_xid_continue(c) {
                        self.bump();
                    } else {
                        break ;
                    }
                },
                None => {
                    break ;
                },
            }
        }
    }

    /// Consumes the maximal run of decimal digits.
    fn scan_digits(&mut self)
        requires
            old(self).wf(),
        ensures
            final(self).wf(),
            final(self)@ == (LexSt {
                pos: run_end_digits(old(self)@.chars, old(self)@.pos),
                ..old(self)@
            }),
            final(self).token_start == old(self).token_start,
    {
        let ghost st0 = self@;
        let ghost ts0 = self.token_start;
        loop
            invariant_except_break
                self.wf(),
                self.token_start == ts0,
                st0.pos <= self@.pos,
                self@ == (LexSt { pos: self@.pos, ..st0 }),
                run_end_digits(st0.chars, st0.pos) == run_end_digits(st0.chars, self@.pos),
            ensures
                self.wf(),
                self.token_start == ts0,
                self@ == (LexSt { pos: run_end_digits(st0.chars, st0.pos), ..st0 }),
            decreases st0.chars.len() - self@.pos,
        {
            match self.first() {
                Some(c) => {
                    if '0' <= c && c <= '9' {
                        self.bump();
                    } else {
                        break ;
                    }
                },
                None => {
                    break ;
                },
            }
        }
    }

    /// An identifier or keyword token.
    fn lex_ident(&mut self)
        requires
            old(self).wf(),
            old(self)@.pos < old(self)@.chars.len(),
            xid_start(old(self)@.chars[old(self)@.pos]),
        ensures
            final(self).wf(),
            final(self)@ == step_ident(old(self)@),
    {
        let ghost st0 = self@;
        let start_idx = self.pos;
        self.bump();
        self.begin_token();
        self.scan_xid();
        proof {
            lemma_run_end_xid_bounds(st0.chars, st0.pos + 1);
            lemma_byte_at_nonneg(st0.chars, st0.pos);
            lemma_byte_at_mono(st0.chars, st0.pos, run_end_xid(st0.chars, st0.pos + 1));
        }
        let j = self.pos;
        let kind = keyword_kind(&self.chars, start_idx, j);
        self.end_token_incl(kind);
        proof {
            assert(self@.tokens =~= step_ident(st0).tokens);
        }
    }

    /// A lone-zero integer literal.
    fn lex_zero(&mut self)
        requires
            old(self).wf(),
            old(self)@.pos < old(self)@.chars.len(),
        ensures
            final(self).wf(),
            final(self)@ == step_zero(old(self)@),
    {
        let ghost st0 = self@;
        self.bump();
        self.single_char_token(TokenKind::IntLit);
        proof {
            lemma_byte_at_nonneg(st0.chars, st0.pos);
            assert(self@.tokens =~= step_zero(st0).tokens);
        }
    }

    /// An integer literal beginning `1`-`9`: consume the digit run, then
    /// check that its value fits the supported range.
    fn lex_number(&mut self)
        requires
            old(self).wf(),
            old(self)@.pos < old(self)@.chars.len(),
            is_digit(old(self)@.chars[old(self)@.pos]),
        ensures
            final(self).wf(),
            final(self)@ == step_number(old(self)@),
    {
        let ghost st0 = self@;
        let p = self.pos;
        self.bump();
        self.begin_token();
        self.scan_digits();
        proof {
            lemma_run_end_digits_bounds(st0.chars, st0.pos + 1);
            lemma_run_end_digits_chars(st0.chars, st0.pos + 1);
            lemma_byte_at_nonneg(st0.chars, st0.pos);
            lemma_byte_at_mono(st0.chars, st0.pos, run_end_digits(st0.chars, st0.pos + 1));
        }
        let j = self.pos;
        let ghost text = st0.chars.subrange(st0.pos, j as int);
        let mut acc: i128 = 0;
        let mut ok = true;
        let mut i = p;
        while i < j
            invariant
                p <= i <= j <= self.chars@.len(),
                j == run_end_digits(st0.chars, st0.pos + 1),
                self.chars@ == st0.chars,
                p as int == st0.pos,
                is_digit(st0.chars[st0.pos]),
                forall|k: int| st0.pos + 1 <= k < j ==> is_digit(st0.chars[k]),
                acc >= 0,
                ok ==> acc as int == digits_val(st0.chars.subrange(st0.pos, i as int)),
                !ok ==> digits_val(st0.chars.subrange(st0.pos, i as int)) > i128::MAX,
            decreases j - i,
        {
            let c = self.chars[i];
            let d = (c as u32) - ('0' as u32);
            let ghost prefix = st0.chars.subrange(st0.pos, i as int);
            proof {
                assert(st0.chars.subrange(st0.pos, (i + 1) as int).drop_last() =~= prefix);
                assert(st0.chars.subrange(st0.pos, (i + 1) as int).last() == st0.chars[i as int]);
                lemma_digits_val_nonneg(prefix);
            }
            if ok {
                match acc.checked_mul(10) {
                    Some(m) => {
                        match m.checked_add(d as i128) {
                            Some(a) => {
                                acc = a;
                            },
                            None => {
                                ok = false;
                            },
                        }
                    },
                    None => {
                        ok = false;
                    },
                }
            }
            i = i + 1;
        }
        proof {
            assert(st0.chars.subrange(st0.pos, j as int) == text);
        }
        if ok {
            self.end_token_incl(TokenKind::IntLit);
            proof {
                assert(self@.tokens =~= step_number(st0).tokens);
            }
        } else {
            let span = Span::new(self.token_start, self.next_pos);
            self.error_at(span, LexErrorKind::IntegerOverflow);
            proof {
                assert(self@.errors =~= step_number(st0).errors);
            }
        }
    }

    /// One more character of an operator token.
    fn op_extend(&mut self)
        requires
            old(self).wf(),
            old(self)@.pos < old(self)@.chars.len(),
        ensures
            final(self).wf(),
            final(self)@ == (LexSt { pos: old(self)@.pos + 1, ..old(self)@ }),
            final(self).token_start == old(self).token_start,
    {
        self.bump();
    }

    /// An operator, punctuation or bracket token, by maximal munch.
    fn lex_operator(&mut self, c: char)
        requires
            old(self).wf(),
            old(self)@.pos < old(self)@.chars.len(),
            old(self)@.chars[old(self)@.pos] == c,
            op_lookup(old(self)@.chars, old(self)@.pos) is Some,
        ensures
            final(self).wf(),
            final(self)@ == step_op_at(old(self)@),
    {
        let ghost st0 = self@;
        proof {
            lemma_byte_at_nonneg(st0.chars, st0.pos);
            lemma_byte_len_ge_len(st0.chars);
        }
        self.bump();
        self.begin_token();
        proof {
            lemma_byte_at_mono(st0.chars, st0.pos, st0.pos + 1);
        }
        if c == '+' {
            match self.first() {
                Some('=') => {
                    self.op_extend();
                    proof {
                        lemma_byte_at_mono(st0.chars, st0.pos, self@.pos);
                    }
                    self.end_token_incl(TokenKind::PlusEqual);
                },
                _ => {
                    self.end_token_incl(TokenKind::Plus);
                },
            }
        } else if c == '-' {
            match self.first() {
                Some('=') => {
                    self.op_extend();
                    proof {
                        lemma_byte_at_mono(st0.chars, st0.pos, self@.pos);
                    }
                    self.end_token_incl(TokenKind::MinusEqual);
                },
                Some('>') => {
                    self.op_extend();
                    proof {
                        lemma_byte_at_mono(st0.chars, st0.pos, self@.pos);
                    }
                    self.end_token_incl(TokenKind::ForwardArrow);
                },
                _ => {
                    self.end_token_incl(TokenKind::Minus);
                },
            }
        } else if c == '*' {
            match self.first() {
                Some('*') => {
                    self.op_extend();
                    match self.first() {
                        Some('=') => {
                            self.op_extend();
                            proof {
                                lemma_byte_at_mono(st0.chars, st0.pos, self@.pos);
                            }
                            self.end_token_incl(TokenKind::StarStarEqual);
                        },
                        _ => {
                            proof {
                                lemma_byte_at_mono(st0.chars, st0.pos, self@.pos);
                            }
                            self.end_token_incl(TokenKind::StarStar);
                        },
                    }
                },
                Some('=') => {
                    self.op_extend();
                    proof {
                        lemma_byte_at_mono(st0.chars, st0.pos, self@.pos);
                    }
                    self.end_token_incl(TokenKind::StarEqual);
                },
                _ => {
                    self.end_token_incl(TokenKind::Star);
                },
            }
        } else if c == '/' {
            match self.first() {
                Some('=') => {
                    self.op_extend();
                    proof {
                        lemma_byte_at_mono(st0.chars, st0.pos, self@.pos);
                    }
                    self.end_token_incl(TokenKind::SlashEqual);
                },
                _ => {
                    self.end_token_incl(TokenKind::Slash);
                },
            }
        } else if c == '%' {
            match self.first() {
                Some('=') => {
                    self.op_extend();
                    proof {
                        lemma_byte_at_mono(st0.chars, st0.pos, self@.pos);
                    }
                    self.end_token_incl(TokenKind::PercentEqual);
                },
                _ => {
                    self.end_token_incl(TokenKind::Percent);
                },
            }
        } else if c == '=' {
            match self.first() {
                Some('=') => {
                    self.op_extend();
                    proof {
                        lemma_byte_at_mono(st0.chars, st0.pos, self@.pos);
                    }
                    self.end_token_incl(TokenKind::EqualEqual);
                },
                _ => {
                    self.end_token_incl(TokenKind::Equal);
                },
            }
        } else if c == '<' {
            match self.first() {
                Some('=') => {
                    self.op_extend();
                    proof {
                        lemma_byte_at_mono(st0.chars, st0.pos, self@.pos);
                    }
                    self.end_token_incl(TokenKind::LessEqual);
                },
                Some('<') => {
                    self.op_extend();
                    match self.first() {
                        Some('=') => {
                            self.op_extend();
                            proof {
                                lemma_byte_at_mono(st0.chars, st0.pos, self@.pos);
                            }
                            self.end_token_incl(TokenKind::LessLessEqual);
                        },
                        _ => {
                            proof {
                                lemma_byte_at_mono(st0.chars, st0.pos, self@.pos);
                            }
                            self.end_token_incl(TokenKind::LessLess);
                        },
                    }
                },
                _ => {
                    self.end_token_incl(TokenKind::Less);
                },
            }
        } else if c == '>' {
            match self.first() {
                Some('=') => {
                    self.op_extend();
                    proof {
                        lemma_byte_at_mono(st0.chars, st0.pos, self@.pos);
                    }
                    self.end_token_incl(TokenKind::GreaterEqual);
                },
                Some('>') => {
                    self.op_extend();
                    match self.first() {
                        Some('=') => {
                            self.op_extend();
                            proof {
                                lemma_byte_at_mono(st0.chars, st0.pos, self@.pos);
                            }
                            self.end_token_incl(TokenKind::GreaterGreaterEqual);
                        },
                        _ => {
                            proof {
                                lemma_byte_at_mono(st0.chars, st0.pos, self@.pos);
                            }
                            self.end_token_incl(TokenKind::GreaterGreater);
                        },
                    }
                },
                _ => {
                    self.end_token_incl(TokenKind::Greater);
                },
            }
        } else if c == '&' {
            match self.first() {
                Some('&') => {
                    self.op_extend();
                    proof {
                        lemma_byte_at_mono(st0.chars, st0.pos, self@.pos);
                    }
                    self.end_token_incl(TokenKind::AmpAmp);
                },
                Some('=') => {
                    self.op_extend();
                    proof {
                        lemma_byte_at_mono(st0.chars, st0.pos, self@.pos);
                    }
                    self.end_token_incl(TokenKind::AmpEqual);
                },
                _ => {
                    self.end_token_incl(TokenKind::Amp);
                },
            }
        } else if c == '|' {
            match self.first() {
                Some('|') => {
                    self.op_extend();
                    proof {
                        lemma_byte_at_mono(st0.chars, st0.pos, self@.pos);
                    }
                    self.end_token_incl(TokenKind::PipePipe);
                },
                Some('=') => {
                    self.op_extend();
                    proof {
                        lemma_byte_at_mono(st0.chars, st0.pos, self@.pos);
                    }
                    self.end_token_incl(TokenKind::PipeEqual);
                },
                _ => {
                    self.end_token_incl(TokenKind::Pipe);
                },
            }
        } else if c == '!' {
            match self.first() {
                Some('=') => {
                    self.op_extend();
                    proof {
                        lemma_byte_at_mono(st0.chars, st0.pos, self@.pos);
                    }
                    self.end_token_incl(TokenKind::BangEqual);
                },
                _ => {
                    self.end_token_incl(TokenKind::Bang);
                },
            }
        } else if c == '^' {
            match self.first() {
                Some('=') => {
                    self.op_extend();
                    proof {
                        lemma_byte_at_mono(st0.chars, st0.pos, self@.pos);
                    }
                    self.end_token_incl(TokenKind::CaretEqual);
                },
                _ => {
                    self.end_token_incl(TokenKind::Caret);
                },
            }
        } else if c == '.' {
            match self.first() {
                Some('.') => {
                    self.op_extend();
                    proof {
                        lemma_byte_at_mono(st0.chars, st0.pos, self@.pos);
                    }
                    self.end_token_incl(TokenKind::PeriodPeriod);
                },
                _ => {
                    self.end_token_incl(TokenKind::Period);
                },
            }
        } else if c == '~' {
            self.end_token_incl(TokenKind::Tilde);
        } else if c == ':' {
            self.end_token_incl(TokenKind::Colon);
        } else if c == ',' {
            self.end_token_incl(TokenKind::Comma);
        } else if c == ';' {
            self.end_token_incl(TokenKind::SemiColon);
        } else if c == '$' {
            self.end_token_incl(TokenKind::Dollar);
        } else if c == '(' {
            self.end_token_incl(TokenKind::ParenthesisOpen);
            self.nest();
        } else if c == ')' {
            self.end_token_incl(TokenKind::ParenthesisClose);
            self.unnest();
        } else if c == '[' {
            self.end_token_incl(TokenKind::BracketOpen);
            self.nest();
        } else if c == ']' {
            self.end_token_incl(TokenKind::BracketClose);
            self.unnest();
        } else if c == '{' {
            self.end_token_incl(TokenKind::BraceOpen);
            self.nest();
        } else {
            self.end_token_incl(TokenKind::BraceClose);
            self.unnest();
        }
        proof {
            assert(self@ == step_op_at(st0));
        }
    }

    /// A newline run outside brackets: collapse it into one `Newline`
    /// token, then measure the next line's leading whitespace and close or
    /// open indentation levels. Inside brackets the character is absorbed.
    #[verifier::loop_isolation(false)]
    #[verifier::rlimit(100)]
    fn newline(&mut self)
        requires
            old(self).wf(),
            old(self)@.pos < old(self)@.chars.len(),
            is_nl(old(self)@.chars[old(self)@.pos]),
        ensures
            final(self).wf(),
            final(self)@ == step_newline(old(self)@),
    {
        let ghost st0 = self@;
        proof {
            lemma_byte_at_nonneg(st0.chars, st0.pos);
        }
        if self.nesting > 0 {
            self.bump();
            return ;
        }
        let mut cur = self.bump().unwrap();
        self.begin_token();
        let mut run_done = false;
        while !run_done
            invariant
                self.wf(),
                st0.pos < self@.pos <= self@.chars.len(),
                self@ == (LexSt { pos: self@.pos, ..st0 }),
                self.token_start as int == byte_at(st0.chars, st0.pos),
                cur == st0.chars[self@.pos - 1],
                is_nl(cur),
                nl_scan(st0.chars, st0.pos) == nl_scan(st0.chars, self@.pos - 1),
                run_done ==> nl_scan(st0.chars, st0.pos) == (NlScan::Done { end: self@.pos }),
            decreases self@.chars.len() - self@.pos + if run_done {
                0int
            } else {
                1int
            },
        {
            if cur == '\n' {
                match self.first() {
                    Some(c2) => {
                        if c2 == '\n' || c2 == '\r' {
                            cur = self.bump().unwrap();
                        } else {
                            run_done = true;
                        }
                    },
                    None => {
                        run_done = true;
                    },
                }
            } else {
                match self.first() {
                    Some(c2) => {
                        if c2 == '\n' {
                            cur = self.bump().unwrap();
                        } else {
                            proof {
                                assert(nl_scan(st0.chars, self@.pos - 1) == (NlScan::Bad {
                                    err: LexErrorKind::UnexpectedChar(c2),
                                    last: self@.pos - 1,
                                }));
                            }
                            self.error(LexErrorKind::UnexpectedChar(c2));
                            proof {
                                assert(self@ == step_newline(st0));
                            }
                            return ;
                        }
                    },
                    None => {
                        proof {
                            assert(nl_scan(st0.chars, self@.pos - 1) == (NlScan::Bad {
                                err: LexErrorKind::UnexpectedEof,
                                last: self@.pos - 1,
                            }));
                        }
                        self.error(LexErrorKind::UnexpectedEof);
                        proof {
                            assert(self@ == step_newline(st0));
                        }
                        return ;
                    },
                }
            }
        }
        proof {
            lemma_byte_at_mono(st0.chars, st0.pos, self@.pos);
        }
        self.end_token_incl(TokenKind::Newline);
        let ghost st1 = self@;
        let ghost end = st1.pos;
        let mut ind_elems: Vec<IndentKind> = Vec::new();
        proof {
            assert(ind_elems@ =~= ws_indent(st0.chars, end, end));
        }
        let mut ws_done = false;
        while !ws_done
            invariant
                self.wf(),
                end <= self@.pos <= self@.chars.len(),
                self@ == (LexSt { pos: self@.pos, ..st1 }),
                ind_elems@ == ws_indent(st0.chars, end, self@.pos),
                run_end_ws(st0.chars, end) == run_end_ws(st0.chars, self@.pos),
                ws_done ==> self@.pos == run_end_ws(st0.chars, end),
            decreases self@.chars.len() - self@.pos + if ws_done {
                0int
            } else {
                1int
            },
        {
            let ghost posb = self@.pos;
            match self.first() {
                Some(' ') => {
                    ind_elems.push(IndentKind::Space);
                    self.bump();
                    proof {
                        lemma_ws_indent_push(st0.chars, end, posb);
                    }
                },
                Some('\t') => {
                    ind_elems.push(IndentKind::Tab);
                    self.bump();
                    proof {
                        lemma_ws_indent_push(st0.chars, end, posb);
                    }
                },
                _ => {
                    proof {
                        assert(run_end_ws(st0.chars, self@.pos) == self@.pos);
                    }
                    ws_done = true;
                },
            }
        }
        let ghost st2 = self@;
        let ghost k = st2.pos;
        let ghost stack = st2.indents;
        let ghost cur_ind = ind_elems@;
        let ghost cb = byte_at(st0.chars, k - 1);
        proof {
            assert(stack == st0.indents);
            assert(self.current_pos as int == cb);
            assert(stack.skip(0) =~= stack);
            assert(cur_ind.skip(0) =~= cur_ind);
        }
        let mut si: usize = 0;
        let mut ci: usize = 0;
        let mut dedents: usize = 0;
        while si < self.indent_stack.len()
            invariant
                self.wf(),
                self@ == st2,
                self.current_pos as int == cb,
                si <= self.indent_stack@.len() == stack.len(),
                ci <= ind_elems@.len(),
                ind_elems@ == cur_ind,
                dedents <= si,
                dedents > 0 ==> ci == cur_ind.len(),
                match_ind(stack, cur_ind) == add_dedents(
                    match_ind(stack.skip(si as int), cur_ind.skip(ci as int)),
                    dedents as int,
                ),
            decreases self.indent_stack@.len() - si,
        {
            if ci == ind_elems.len() {
                proof {
                    assert(stack.skip(si as int).drop_first() =~= stack.skip(si + 1));
                    assert(cur_ind.skip(ci as int) =~= Seq::<IndentKind>::empty());
                }
                dedents = dedents + 1;
                si = si + 1;
            } else {
                let ghost ci0 = ci as int;
                let ghost lvl = stack[si as int];
                let lvl_len = self.indent_stack[si].elements.len();
                proof {
                    assert(self.indent_stack@.map_values(|ind: Indentation| ind@)[si as int]
                        == self.indent_stack@[si as int]@);
                    assert(self.indent_stack@[si as int]@ == lvl);
                    assert(lvl.take(0) =~= cur_ind.subrange(ci0, ci0));
                }
                let mut ei: usize = 0;
                while ei < lvl_len
                    invariant
                        self.wf(),
                        self@ == st2,
                        self.current_pos as int == cb,
                        si < stack.len() == self.indent_stack@.len(),
                        lvl == stack[si as int],
                        lvl == self.indent_stack@[si as int]@,
                        lvl_len == lvl.len(),
                        ei <= lvl_len,
                        ind_elems@ == cur_ind,
                        ci as int == ci0 + ei,
                        ci0 < cur_ind.len(),
                        ci <= cur_ind.len(),
                        dedents == 0,
                        lvl.take(ei as int) == cur_ind.subrange(ci0, ci as int),
                        match_ind(stack, cur_ind) == match_ind(
                            stack.skip(si as int),
                            cur_ind.skip(ci0),
                        ),
                    decreases lvl_len - ei,
                {
                    if ci < ind_elems.len() {
                        let a = self.indent_stack[si].elements[ei];
                        let b = ind_elems[ci];
                        if a == b {
                            proof {
                                assert(lvl.take(ei + 1 as int) =~= cur_ind.subrange(
                                    ci0,
                                    ci + 1 as int,
                                ));
                            }
                            ei = ei + 1;
                            ci = ci + 1;
                        } else {
                            proof {
                                let curs = cur_ind.skip(ci0);
                                assert(curs.len() > 0);
                                assert(curs[ei as int] == cur_ind[ci as int]);
                                assert(lvl[ei as int] != curs[ei as int]);
                                if lvl.len() <= curs.len() && curs.take(lvl.len() as int) == lvl {
                                    assert(curs.take(lvl.len() as int)[ei as int] == curs[ei as int]);
                                    assert(false);
                                }
                                if curs.len() < lvl.len() && curs == lvl.take(curs.len() as int) {
                                    assert(lvl.take(curs.len() as int)[ei as int] == lvl[ei as int]);
                                    assert(false);
                                }
                                assert(match_ind(stack, cur_ind) == IndMatch::Inconsistent);
                            }
                            self.error(LexErrorKind::InconsistentIndentation);
                            proof {
                                assert(self@ == step_newline(st0));
                            }
                            return ;
                        }
                    } else {
                        proof {
                            let curs = cur_ind.skip(ci0);
                            assert(curs.len() == ei);
                            assert(curs.len() > 0);
                            assert(curs =~= lvl.take(curs.len() as int));
                            assert(match_ind(stack, cur_ind) == IndMatch::Odd);
                        }
                        self.error(LexErrorKind::OddIndentation);
                        proof {
                            assert(self@ == step_newline(st0));
                        }
                        return ;
                    }
                }
                proof {
                    let curs = cur_ind.skip(ci0);
                    assert(lvl.take(lvl.len() as int) =~= lvl);
                    assert(curs.take(lvl.len() as int) =~= cur_ind.subrange(ci0, ci0 + lvl.len()));
                    assert(stack.skip(si as int).drop_first() =~= stack.skip(si + 1));
                    assert(curs.skip(lvl.len() as int) =~= cur_ind.skip(ci0 + lvl.len()));
                    assert(curs.take(lvl.len() as int) == lvl);
                }
                si = si + 1;
            }
        }
        proof {
            assert(stack.skip(stack.len() as int) =~= Seq::<Seq<IndentKind>>::empty());
            assert(match_ind(stack, cur_ind) == (IndMatch::Matched {
                dedents: dedents as int,
                leftover: cur_ind.skip(ci as int),
            }));
        }
        let ghost dtok = Token {
            kind: TokenKind::Dedent,
            span: Span { start: (cb + 1) as u32, end: (cb + 1) as u32 },
        };
        let mut d: usize = 0;
        while d < dedents
            invariant
                self.wf(),
                d <= dedents,
                dedents <= st2.indents.len(),
                self.current_pos as int == cb,
                self@ == (LexSt {
                    tokens: st2.tokens + Seq::new(d as nat, |i: int| dtok),
                    indents: st2.indents.take(st2.indents.len() - d),
                    ..st2
                }),
            decreases dedents - d,
        {
            let ghost pre = self@;
            self.indent_stack.pop();
            proof {
                assert(self.indent_stack@.map_values(|ind: Indentation| ind@) =~= pre.indents.drop_last());
                assert(pre.indents.drop_last() =~= st2.indents.take(st2.indents.len() - d - 1));
            }
            self.zero_length_token(TokenKind::Dedent, 1);
            d = d + 1;
            proof {
                assert(st2.tokens + Seq::new(d as nat, |i: int| dtok) =~= (st2.tokens + Seq::new(
                    (d - 1) as nat,
                    |i: int| dtok,
                )).push(dtok));
            }
        }
        if ci < ind_elems.len() {
            let mut leftover_v: Vec<IndentKind> = Vec::new();
            let mut li = ci;
            proof {
                assert(leftover_v@ =~= cur_ind.subrange(ci as int, ci as int));
            }
            while li < ind_elems.len()
                invariant
                    ci <= li <= cur_ind.len(),
                    ind_elems@ == cur_ind,
                    leftover_v@ == cur_ind.subrange(ci as int, li as int),
                decreases cur_ind.len() - li,
            {
                leftover_v.push(ind_elems[li]);
                proof {
                    assert(leftover_v@ =~= cur_ind.subrange(ci as int, li + 1 as int));
                }
                li = li + 1;
            }
            proof {
                assert(leftover_v@ =~= cur_ind.skip(ci as int));
            }
            let ghost pre2 = self@;
            self.indent_stack.push(Indentation { elements: leftover_v });
            proof {
                assert(self.indent_stack@.map_values(|ind: Indentation| ind@) =~= pre2.indents.push(
                    cur_ind.skip(ci as int),
                ));
            }
            self.zero_length_token(TokenKind::Indent, 0);
        }
        proof {
            assert(self@ == step_newline(st0));
        }
    }

    /// Runs the scan to the end of the characters: the token and error
    /// lists afterwards are exactly what the model's `lex_run` defines for
    /// the starting state.
    #[verifier::loop_isolation(false)]
    #[verifier::rlimit(100)]
    pub fn tokenize(&mut self)
        requires
            old(self).wf(),
        ensures
            final(self).wf(),
            final(self)@ == lex_run(old(self)@),
    {
        loop
            invariant
                self.wf(),
                lex_run(self@) == lex_run(old(self)@),
            decreases self@.chars.len() - self@.pos,
        {
            if self.pos == self.chars.len() {
                let ghost stf = self@;
                proof {
                    assert(lex_run(stf) == lex_finish(stf));
                }
                if self.tokens.len() > 0 {
                    let last_kind = self.tokens[self.tokens.len() - 1].kind;
                    if last_kind != TokenKind::Dedent && last_kind != TokenKind::Newline {
                        self.zero_length_token(TokenKind::Newline, 1);
                    }
                }
                let ghost st_n = self@;
                let ghost n0 = st_n.indents.len() as int;
                let ghost cb = cur_byte(st_n);
                let ghost dtok = Token {
                    kind: TokenKind::Dedent,
                    span: Span { start: (cb + 1) as u32, end: (cb + 1) as u32 },
                };
                proof {
                    assert(st_n.tokens + Seq::new(0nat, |i: int| dtok) =~= st_n.tokens);
                    assert(st_n.indents.take(n0) =~= st_n.indents);
                }
                while self.indent_stack.len() > 0
                    invariant
                        self.wf(),
                        self@.indents.len() <= n0,
                        self@ == (LexSt {
                            tokens: st_n.tokens + Seq::new(
                                (n0 - self@.indents.len()) as nat,
                                |i: int| dtok,
                            ),
                            indents: st_n.indents.take(self@.indents.len() as int),
                            ..st_n
                        }),
                    decreases self@.indents.len(),
                {
                    let ghost pre = self@;
                    self.indent_stack.pop();
                    proof {
                        assert(self.indent_stack@.map_values(|ind: Indentation| ind@)
                            =~= pre.indents.drop_last());
                        assert(pre.indents.drop_last() =~= st_n.indents.take(
                            pre.indents.len() - 1,
                        ));
                    }
                    self.zero_length_token(TokenKind::Dedent, 1);
                    proof {
                        assert(self@.tokens =~= st_n.tokens + Seq::new(
                            (n0 - self@.indents.len()) as nat,
                            |i: int| dtok,
                        ));
                    }
                }
                self.zero_length_token(TokenKind::Eof, 1);
                proof {
                    assert(self@.tokens =~= lex_finish(stf).tokens);
                    assert(self@.indents =~= lex_finish(stf).indents);
                    assert(self@ == lex_finish(stf));
                }
                return ;
            }
            let c = self.chars[self.pos];
            let ghost pre = self@;
            proof {
                lemma_step_bounds(pre);
            }
            if c == ' ' || c == '\t' {
                self.bump();
            } else if unicode_ident::is_xid_start(c) {
                self.lex_ident();
            } else if c == '0' {
                self.lex_zero();
            } else if '1' <= c && c <= '9' {
                self.lex_number();
            } else if c == '+' || c == '-' || c == '*' || c == '/' || c == '%' || c == '=' || c
                == '<' || c == '>' || c == '&' || c == '|' || c == '!' || c == '^' || c == '.'
                || c == '~' || c == ':' || c == ',' || c == ';' || c == '$' || c == '(' || c
                == ')' || c == '[' || c == ']' || c == '{' || c == '}' {
                self.lex_operator(c);
            } else if c == '\n' || c == '\r' {
                self.newline();
            } else {
                self.bump();
                proof {
                    lemma_byte_at_nonneg(pre.chars, pre.pos);
                    lemma_byte_at_succ(pre.chars, pre.pos);
                }
                let span = Span::new(self.current_pos, self.next_pos);
                self.error_at(span, LexErrorKind::UnexpectedChar(c));
            }
            proof {
                assert(self@ == lex_step(pre));
            }
        }
    }
}

/// Produces the ordered token list and the (non-fatal) error list for a
/// source text: exactly the lists that the model defines for its character
/// sequence.
pub fn tokenize(source: &str) -> (r: (Vec<Token>, Vec<LexError>))
    requires
        byte_len(source@) + 2 <= u32::MAX,
    ensures
        r.0@ == spec_tokens(source@),
        r.1@ == spec_errors(source@),
{
    let mut lex = Lexer::new(source);
    lex.tokenize();
    let Lexer { tokens, errors, .. } = lex;
    (tokens, errors)
}

/// Like `tokenize`, but checks the size bound itself: `None` exactly for
/// a source too long for 32-bit byte offsets (longer than `u32::MAX - 2`
/// bytes), `Some` of the model's token and error lists otherwise.
pub fn try_tokenize(source: &str) -> (r: Option<(Vec<Token>, Vec<LexError>)>)
    ensures
        r is Some <==> byte_len(source@) + 2 <= u32::MAX,
        r is Some ==> r->Some_0.0@ == spec_tokens(source@),
        r is Some ==> r->Some_0.1@ == spec_errors(source@),
{
    let bytes = source.as_bytes();
    let n = bytes.len();
    proof {
        crate::model::lemma_byte_len_is_utf8_len(source@);
    }
    if n <= (u32::MAX - 2) as usize {
        Some(tokenize(source))
    } else {
        None
    }
}

} // verus!
