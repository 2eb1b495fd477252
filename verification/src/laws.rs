//! Laws of the lexer, proved of the model that `tokenize` is proved to
//! implement.

use vstd::prelude::*;

use crate::model::{
    init_st, lemma_step_bounds, lex_finish, lex_run, lex_step, match_ind, nl_scan, op_lookup,
    spec_errors, spec_tokens, step_ident, step_newline, step_number, step_op_at, step_zero,
    IndMatch, LexSt, NlScan,
};
use crate::token::{Token, TokenKind};

verus! {

/// The number of tokens of a given kind in a list.
pub open spec fn count_kind(toks: Seq<Token>, k: TokenKind) -> int
    decreases toks.len(),
{
    if toks.len() == 0 {
        0
    } else {
        count_kind(toks.drop_last(), k) + if toks.last().kind == k {
            1int
        } else {
            0int
        }
    }
}

/// Every prefix of the list holds at least as many `Indent` tokens as
/// `Dedent` tokens.
pub open spec fn dedents_covered(toks: Seq<Token>) -> bool {
    forall|i: int|
        0 <= i <= toks.len() ==> #[trigger] count_kind(toks.take(i), TokenKind::Indent)
            >= count_kind(toks.take(i), TokenKind::Dedent)
}

proof fn lemma_count_push(toks: Seq<Token>, x: Token, k: TokenKind)
    ensures
        count_kind(toks.push(x), k) == count_kind(toks, k) + if x.kind == k {
            1int
        } else {
            0int
        },
{
    assert(toks.push(x).drop_last() =~= toks);
    assert(toks.push(x).last() == x);
}

proof fn lemma_covered_push(toks: Seq<Token>, x: Token)
    requires
        dedents_covered(toks),
        x.kind == TokenKind::Dedent ==> count_kind(toks, TokenKind::Indent) > count_kind(
            toks,
            TokenKind::Dedent,
        ),
    ensures
        dedents_covered(toks.push(x)),
{
    lemma_count_push(toks, x, TokenKind::Indent);
    lemma_count_push(toks, x, TokenKind::Dedent);
    let t = toks.push(x);
    assert forall|i: int| 0 <= i <= t.len() implies #[trigger] count_kind(
        t.take(i),
        TokenKind::Indent,
    ) >= count_kind(t.take(i), TokenKind::Dedent) by {
        if i <= toks.len() {
            assert(t.take(i) =~= toks.take(i));
            assert(count_kind(toks.take(i), TokenKind::Indent) >= count_kind(
                toks.take(i),
                TokenKind::Dedent,
            ));
        } else {
            assert(t.take(i) =~= t);
            assert(toks.take(toks.len() as int) =~= toks);
            assert(count_kind(toks.take(toks.len() as int), TokenKind::Indent) >= count_kind(
                toks.take(toks.len() as int),
                TokenKind::Dedent,
            ));
        }
    }
}

proof fn lemma_covered_append_dedents(toks: Seq<Token>, d: int, x: Token)
    requires
        dedents_covered(toks),
        x.kind == TokenKind::Dedent,
        0 <= d <= count_kind(toks, TokenKind::Indent) - count_kind(toks, TokenKind::Dedent),
    ensures
        dedents_covered(toks + Seq::new(d as nat, |i: int| x)),
        count_kind(toks + Seq::new(d as nat, |i: int| x), TokenKind::Indent) == count_kind(
            toks,
            TokenKind::Indent,
        ),
        count_kind(toks + Seq::new(d as nat, |i: int| x), TokenKind::Dedent) == count_kind(
            toks,
            TokenKind::Dedent,
        ) + d,
    decreases d,
{
    if d == 0 {
        assert(toks + Seq::new(0nat, |i: int| x) =~= toks);
    } else {
        lemma_covered_append_dedents(toks, d - 1, x);
        let t1 = toks + Seq::new((d - 1) as nat, |i: int| x);
        lemma_covered_push(t1, x);
        lemma_count_push(t1, x, TokenKind::Indent);
        lemma_count_push(t1, x, TokenKind::Dedent);
        assert(toks + Seq::new(d as nat, |i: int| x) =~= t1.push(x));
    }
}

proof fn lemma_match_ind_bound(stack: Seq<Seq<crate::token::IndentKind>>, cur: Seq<
    crate::token::IndentKind,
>)
    ensures
        match match_ind(stack, cur) {
            IndMatch::Matched { dedents, leftover } => 0 <= dedents <= stack.len(),
            _ => true,
        },
    decreases stack.len(),
{
    if stack.len() == 0 {
    } else {
        let lvl = stack[0];
        if cur.len() == 0 {
            lemma_match_ind_bound(stack.drop_first(), cur);
        } else if lvl.len() <= cur.len() && cur.take(lvl.len() as int) == lvl {
            lemma_match_ind_bound(stack.drop_first(), cur.skip(lvl.len() as int));
        } else {
        }
    }
}

/// The balance between opened and closed levels equals the number of
/// levels still open.
pub open spec fn balance_inv(st: LexSt) -> bool {
    &&& dedents_covered(st.tokens)
    &&& count_kind(st.tokens, TokenKind::Indent) - count_kind(st.tokens, TokenKind::Dedent)
        == st.indents.len()
}

proof fn lemma_step_balance(st: LexSt)
    requires
        balance_inv(st),
        0 <= st.pos < st.chars.len(),
    ensures
        balance_inv(lex_step(st)),
{
    let c = st.chars[st.pos];
    let toks = st.tokens;
    if crate::model::is_ws(c) {
    } else if crate::model::xid_start(c) {
        let t = step_ident(st).tokens.last();
        assert(t.kind != TokenKind::Indent && t.kind != TokenKind::Dedent);
        lemma_count_push(toks, t, TokenKind::Indent);
        lemma_count_push(toks, t, TokenKind::Dedent);
        lemma_covered_push(toks, t);
    } else if c == '0' {
        let t = step_zero(st).tokens.last();
        lemma_count_push(toks, t, TokenKind::Indent);
        lemma_count_push(toks, t, TokenKind::Dedent);
        lemma_covered_push(toks, t);
    } else if crate::model::is_digit(c) {
        if step_number(st).tokens.len() > toks.len() {
            let t = step_number(st).tokens.last();
            lemma_count_push(toks, t, TokenKind::Indent);
            lemma_count_push(toks, t, TokenKind::Dedent);
            lemma_covered_push(toks, t);
        }
    } else if op_lookup(st.chars, st.pos) is Some {
        let t = step_op_at(st).tokens.last();
        assert(t.kind != TokenKind::Indent && t.kind != TokenKind::Dedent);
        lemma_count_push(toks, t, TokenKind::Indent);
        lemma_count_push(toks, t, TokenKind::Dedent);
        lemma_covered_push(toks, t);
    } else if crate::model::is_nl(c) {
        lemma_newline_balance(st);
    } else {
    }
}

proof fn lemma_newline_balance(st: LexSt)
    requires
        balance_inv(st),
        0 <= st.pos < st.chars.len(),
        crate::model::is_nl(st.chars[st.pos]),
    ensures
        balance_inv(step_newline(st)),
{
    let chars = st.chars;
    let p = st.pos;
    if st.nesting > 0 {
    } else {
        match nl_scan(chars, p) {
            NlScan::Bad { err, last } => {},
            NlScan::Done { end } => {
                let k = crate::model::run_end_ws(chars, end);
                let ind = crate::model::ws_indent(chars, end, k);
                let cb = crate::model::byte_at(chars, k - 1);
                let nl_tok = Token {
                    kind: TokenKind::Newline,
                    span: crate::model::sp(crate::model::byte_at(chars, p), crate::model::byte_at(
                        chars,
                        end,
                    )),
                };
                lemma_count_push(st.tokens, nl_tok, TokenKind::Indent);
                lemma_count_push(st.tokens, nl_tok, TokenKind::Dedent);
                lemma_covered_push(st.tokens, nl_tok);
                let t1 = st.tokens.push(nl_tok);
                match match_ind(st.indents, ind) {
                    IndMatch::Odd => {},
                    IndMatch::Inconsistent => {},
                    IndMatch::Matched { dedents, leftover } => {
                        lemma_match_ind_bound(st.indents, ind);
                        let dtok = Token {
                            kind: TokenKind::Dedent,
                            span: crate::model::sp(cb + 1, cb + 1),
                        };
                        lemma_covered_append_dedents(t1, dedents, dtok);
                        let deds = Seq::new(
                            dedents as nat,
                            |i: int| Token { kind: TokenKind::Dedent, span: crate::model::sp(cb + 1, cb + 1) },
                        );
                        assert(t1 + deds =~= t1 + Seq::new(dedents as nat, |i: int| dtok));
                        let t2 = t1 + deds;
                        if leftover.len() > 0 {
                            let itok = Token {
                                kind: TokenKind::Indent,
                                span: crate::model::sp(cb, cb),
                            };
                            lemma_count_push(t2, itok, TokenKind::Indent);
                            lemma_count_push(t2, itok, TokenKind::Dedent);
                            lemma_covered_push(t2, itok);
                        }
                    },
                }
            },
        }
    }
}

proof fn lemma_finish_balance(st: LexSt)
    requires
        balance_inv(st),
    ensures
        dedents_covered(lex_finish(st).tokens),
        count_kind(lex_finish(st).tokens, TokenKind::Indent) == count_kind(
            lex_finish(st).tokens,
            TokenKind::Dedent,
        ),
        lex_finish(st).tokens.len() >= 1,
        lex_finish(st).tokens.last().kind == TokenKind::Eof,
{
    let cb = crate::model::cur_byte(st);
    let nl_tok = Token { kind: TokenKind::Newline, span: crate::model::sp(cb + 1, cb + 1) };
    let t1 = if st.tokens.len() > 0 && st.tokens.last().kind != TokenKind::Dedent
        && st.tokens.last().kind != TokenKind::Newline {
        st.tokens.push(nl_tok)
    } else {
        st.tokens
    };
    if st.tokens.len() > 0 && st.tokens.last().kind != TokenKind::Dedent && st.tokens.last().kind
        != TokenKind::Newline {
        lemma_count_push(st.tokens, nl_tok, TokenKind::Indent);
        lemma_count_push(st.tokens, nl_tok, TokenKind::Dedent);
        lemma_covered_push(st.tokens, nl_tok);
    }
    let dtok = Token { kind: TokenKind::Dedent, span: crate::model::sp(cb + 1, cb + 1) };
    lemma_covered_append_dedents(t1, st.indents.len() as int, dtok);
    let deds = Seq::new(
        st.indents.len(),
        |i: int| Token { kind: TokenKind::Dedent, span: crate::model::sp(cb + 1, cb + 1) },
    );
    assert(t1 + deds =~= t1 + Seq::new(st.indents.len(), |i: int| dtok));
    let t2 = t1 + deds;
    let etok = Token { kind: TokenKind::Eof, span: crate::model::sp(cb + 1, cb + 1) };
    lemma_count_push(t2, etok, TokenKind::Indent);
    lemma_count_push(t2, etok, TokenKind::Dedent);
    lemma_covered_push(t2, etok);
}

proof fn lemma_run_balance(st: LexSt)
    requires
        balance_inv(st),
        0 <= st.pos,
    ensures
        dedents_covered(lex_run(st).tokens),
        count_kind(lex_run(st).tokens, TokenKind::Indent) == count_kind(
            lex_run(st).tokens,
            TokenKind::Dedent,
        ),
        lex_run(st).tokens.len() >= 1,
        lex_run(st).tokens.last().kind == TokenKind::Eof,
    decreases st.chars.len() - st.pos,
{
    if st.pos < st.chars.len() {
        lemma_step_bounds(st);
        lemma_step_balance(st);
        lemma_run_balance(lex_step(st));
    } else {
        lemma_finish_balance(st);
    }
}

/// Law: for every source, the token list is non-empty and its last token
/// is `Eof`.
pub proof fn lemma_tokens_end_in_eof(s: Seq<char>)
    ensures
        spec_tokens(s).len() >= 1,
        spec_tokens(s).last().kind == TokenKind::Eof,
{
    lemma_init_balance(s);
    lemma_run_balance(init_st(s));
}

proof fn lemma_init_balance(s: Seq<char>)
    ensures
        balance_inv(init_st(s)),
{
    let st = init_st(s);
    assert forall|i: int| 0 <= i <= st.tokens.len() implies #[trigger] count_kind(
        st.tokens.take(i),
        TokenKind::Indent,
    ) >= count_kind(st.tokens.take(i), TokenKind::Dedent) by {
        assert(st.tokens.take(i) =~= st.tokens);
    }
}

/// Law: every `Dedent` is covered by an earlier `Indent`: in every prefix
/// of the token list there are at least as many `Indent` as `Dedent`
/// tokens, and over the whole list the counts are equal.
pub proof fn lemma_indents_balanced(s: Seq<char>)
    ensures
        dedents_covered(spec_tokens(s)),
        count_kind(spec_tokens(s), TokenKind::Indent) == count_kind(
            spec_tokens(s),
            TokenKind::Dedent,
        ),
{
    lemma_init_balance(s);
    lemma_run_balance(init_st(s));
}

/// Law: lexing is a pure function of the source characters: two sources
/// with equal character sequences give identical token and error lists.
pub proof fn lemma_tokenize_deterministic(s1: Seq<char>, s2: Seq<char>)
    requires
        s1 == s2,
    ensures
        spec_tokens(s1) == spec_tokens(s2),
        spec_errors(s1) == spec_errors(s2),
{
}

/// Token span starts never decrease along the list.
pub open spec fn starts_ordered(toks: Seq<Token>) -> bool {
    forall|i: int, j: int|
        #![trigger toks[i], toks[j]]
        0 <= i <= j < toks.len() ==> toks[i].span.start <= toks[j].span.start
}

proof fn lemma_ordered_push(toks: Seq<Token>, x: Token)
    requires
        starts_ordered(toks),
        toks.len() > 0 ==> toks.last().span.start <= x.span.start,
    ensures
        starts_ordered(toks.push(x)),
{
    let t = toks.push(x);
    assert forall|i: int, j: int|
        #![trigger t[i], t[j]]
        0 <= i <= j < t.len() implies t[i].span.start <= t[j].span.start by {
        if j < toks.len() {
            assert(t[i] == toks[i]);
            assert(t[j] == toks[j]);
        } else {
            assert(t[j] == x);
            if i < toks.len() {
                assert(t[i] == toks[i]);
                assert(toks[i].span.start <= toks[toks.len() - 1].span.start);
            }
        }
    }
}

proof fn lemma_ordered_append_same(toks: Seq<Token>, d: int, x: Token)
    requires
        starts_ordered(toks),
        d >= 0,
        toks.len() > 0 ==> toks.last().span.start <= x.span.start,
    ensures
        starts_ordered(toks + Seq::new(d as nat, |i: int| x)),
        d > 0 ==> (toks + Seq::new(d as nat, |i: int| x)).last() == x,
        d == 0 ==> toks + Seq::new(d as nat, |i: int| x) == toks,
    decreases d,
{
    if d == 0 {
        assert(toks + Seq::new(0nat, |i: int| x) =~= toks);
    } else {
        lemma_ordered_append_same(toks, d - 1, x);
        let t1 = toks + Seq::new((d - 1) as nat, |i: int| x);
        lemma_ordered_push(t1, x);
        assert(toks + Seq::new(d as nat, |i: int| x) =~= t1.push(x));
    }
}

proof fn lemma_match_ind_leftover(stack: Seq<Seq<crate::token::IndentKind>>, cur: Seq<
    crate::token::IndentKind,
>)
    ensures
        match match_ind(stack, cur) {
            IndMatch::Matched { dedents, leftover } => (dedents > 0 ==> leftover.len() == 0) && (
            cur.len() == 0 ==> leftover.len() == 0),
            _ => true,
        },
    decreases stack.len(),
{
    if stack.len() == 0 {
    } else {
        let lvl = stack[0];
        if cur.len() == 0 {
            lemma_match_ind_leftover(stack.drop_first(), cur);
        } else if lvl.len() <= cur.len() && cur.take(lvl.len() as int) == lvl {
            lemma_match_ind_leftover(stack.drop_first(), cur.skip(lvl.len() as int));
        } else {
        }
    }
}

proof fn lemma_byte_at_in_u32(chars: Seq<char>, i: int)
    requires
        0 <= i <= chars.len(),
        crate::model::byte_len(chars) + 2 <= u32::MAX as int,
    ensures
        0 <= crate::model::byte_at(chars, i) <= u32::MAX as int - 2,
        (crate::model::byte_at(chars, i) as u32) as int == crate::model::byte_at(chars, i),
{
    crate::model::lemma_byte_at_nonneg(chars, i);
    crate::model::lemma_byte_at_mono(chars, i, chars.len() as int);
    crate::model::lemma_byte_at_full(chars);
}

/// Everything the span-order induction needs of a scan state: the cursor
/// is in range, offsets fit `u32`, the emitted starts never decrease, and
/// the last start is at most one past the last consumed character.
spec fn order_inv(st: LexSt) -> bool {
    &&& 0 <= st.pos <= st.chars.len()
    &&& crate::model::byte_len(st.chars) + 2 <= u32::MAX as int
    &&& starts_ordered(st.tokens)
    &&& (st.tokens.len() > 0 ==> st.tokens.last().span.start as int <= crate::model::cur_byte(st)
        + 1)
    &&& (st.tokens.len() > 0 ==> st.pos >= 1)
}

proof fn lemma_last_start_le(st: LexSt, p: int)
    requires
        order_inv(st),
        p == st.pos,
        0 <= p < st.chars.len(),
    ensures
        st.tokens.len() > 0 ==> st.tokens.last().span.start as int <= crate::model::byte_at(
            st.chars,
            p,
        ),
{
    if st.tokens.len() > 0 {
        crate::model::lemma_byte_at_succ(st.chars, p - 1);
    }
}

proof fn lemma_step_ordered(st: LexSt)
    requires
        order_inv(st),
        st.pos < st.chars.len(),
    ensures
        order_inv(lex_step(st)),
{
    let chars = st.chars;
    let p = st.pos;
    let c = chars[p];
    lemma_step_bounds(st);
    lemma_last_start_le(st, p);
    lemma_byte_at_in_u32(chars, p);
    let st2 = lex_step(st);
    if crate::model::is_ws(c) {
        crate::model::lemma_byte_at_nonneg(chars, p);
    } else if crate::model::xid_start(c) {
        let j = crate::model::run_end_xid(chars, p + 1);
        crate::model::lemma_run_end_xid_bounds(chars, p + 1);
        crate::model::lemma_byte_at_mono(chars, p, j - 1);
        lemma_ordered_push(st.tokens, st2.tokens.last());
    } else if c == '0' {
        lemma_ordered_push(st.tokens, st2.tokens.last());
    } else if crate::model::is_digit(c) {
        let j = crate::model::run_end_digits(chars, p + 1);
        crate::model::lemma_run_end_digits_bounds(chars, p + 1);
        crate::model::lemma_byte_at_mono(chars, p, j - 1);
        if st2.tokens.len() > st.tokens.len() {
            lemma_ordered_push(st.tokens, st2.tokens.last());
        }
    } else if op_lookup(chars, p) is Some {
        crate::model::lemma_byte_at_mono(chars, p, st2.pos - 1);
        lemma_ordered_push(st.tokens, st2.tokens.last());
    } else if crate::model::is_nl(c) {
        lemma_newline_ordered(st);
    } else {
        crate::model::lemma_byte_at_nonneg(chars, p);
    }
}

proof fn lemma_newline_ordered(st: LexSt)
    requires
        order_inv(st),
        st.pos < st.chars.len(),
        crate::model::is_nl(st.chars[st.pos]),
    ensures
        order_inv(step_newline(st)),
{
    let chars = st.chars;
    let p = st.pos;
    lemma_last_start_le(st, p);
    lemma_byte_at_in_u32(chars, p);
    if st.nesting > 0 {
        crate::model::lemma_byte_at_nonneg(chars, p);
    } else {
        crate::model::lemma_nl_scan_bounds(chars, p);
        match nl_scan(chars, p) {
            NlScan::Bad { err, last } => {
                crate::model::lemma_byte_at_mono(chars, p, last);
            },
            NlScan::Done { end } => {
                let k = crate::model::run_end_ws(chars, end);
                crate::model::lemma_run_end_ws_bounds(chars, end);
                let ind = crate::model::ws_indent(chars, end, k);
                let cb = crate::model::byte_at(chars, k - 1);
                crate::model::lemma_byte_at_mono(chars, p, k - 1);
                lemma_byte_at_in_u32(chars, k - 1);
                crate::model::lemma_byte_at_mono(chars, end, k);
                let nl_tok = Token {
                    kind: TokenKind::Newline,
                    span: crate::model::sp(crate::model::byte_at(chars, p), crate::model::byte_at(
                        chars,
                        end,
                    )),
                };
                lemma_ordered_push(st.tokens, nl_tok);
                let t1 = st.tokens.push(nl_tok);
                match match_ind(st.indents, ind) {
                    IndMatch::Odd => {},
                    IndMatch::Inconsistent => {},
                    IndMatch::Matched { dedents, leftover } => {
                        lemma_match_ind_bound(st.indents, ind);
                        lemma_match_ind_leftover(st.indents, ind);
                        let dtok = Token {
                            kind: TokenKind::Dedent,
                            span: crate::model::sp(cb + 1, cb + 1),
                        };
                        lemma_ordered_append_same(t1, dedents, dtok);
                        let deds = Seq::new(
                            dedents as nat,
                            |i: int| Token { kind: TokenKind::Dedent, span: crate::model::sp(cb + 1, cb + 1) },
                        );
                        assert(t1 + deds =~= t1 + Seq::new(dedents as nat, |i: int| dtok));
                        let t2 = t1 + deds;
                        if leftover.len() > 0 {
                            assert(dedents == 0);
                            assert(t2 == t1);
                            let itok = Token {
                                kind: TokenKind::Indent,
                                span: crate::model::sp(cb, cb),
                            };
                            lemma_ordered_push(t2, itok);
                        }
                    },
                }
            },
        }
    }
}

proof fn lemma_finish_ordered(st: LexSt)
    requires
        order_inv(st),
    ensures
        starts_ordered(lex_finish(st).tokens),
{
    let cb = crate::model::cur_byte(st);
    if st.pos > 0 {
        lemma_byte_at_in_u32(st.chars, st.pos - 1);
    }
    let nl_tok = Token { kind: TokenKind::Newline, span: crate::model::sp(cb + 1, cb + 1) };
    let t1 = if st.tokens.len() > 0 && st.tokens.last().kind != TokenKind::Dedent
        && st.tokens.last().kind != TokenKind::Newline {
        st.tokens.push(nl_tok)
    } else {
        st.tokens
    };
    if st.tokens.len() > 0 && st.tokens.last().kind != TokenKind::Dedent && st.tokens.last().kind
        != TokenKind::Newline {
        lemma_ordered_push(st.tokens, nl_tok);
    }
    let dtok = Token { kind: TokenKind::Dedent, span: crate::model::sp(cb + 1, cb + 1) };
    lemma_ordered_append_same(t1, st.indents.len() as int, dtok);
    let deds = Seq::new(
        st.indents.len(),
        |i: int| Token { kind: TokenKind::Dedent, span: crate::model::sp(cb + 1, cb + 1) },
    );
    assert(t1 + deds =~= t1 + Seq::new(st.indents.len(), |i: int| dtok));
    let t2 = t1 + deds;
    let etok = Token { kind: TokenKind::Eof, span: crate::model::sp(cb + 1, cb + 1) };
    lemma_ordered_push(t2, etok);
}

proof fn lemma_run_ordered(st: LexSt)
    requires
        order_inv(st),
    ensures
        starts_ordered(lex_run(st).tokens),
    decreases st.chars.len() - st.pos,
{
    if st.pos < st.chars.len() {
        lemma_step_bounds(st);
        lemma_step_ordered(st);
        lemma_run_ordered(lex_step(st));
    } else {
        lemma_finish_ordered(st);
    }
}

/// Law: tokens are emitted in non-decreasing span-start order; only the
/// synthesized zero-width tokens share a position with their neighbors.
pub proof fn lemma_token_starts_ordered(s: Seq<char>)
    requires
        crate::model::byte_len(s) + 2 <= u32::MAX as int,
    ensures
        starts_ordered(spec_tokens(s)),
{
    lemma_run_ordered(init_st(s));
}

} // verus!
