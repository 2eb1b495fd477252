use gdlex::lexer::tokenize;
use gdlex::token::TokenKind::{
    BangEqual, Dedent, Elif, Else, Eof, EqualEqual, ForwardArrow, Func, Ident, If, Indent,
    IntLit, LessLessEqual, Minus, Newline, ParenthesisClose, ParenthesisOpen, Plus, PlusEqual,
    Slash, Star, Var, While,
};
use gdlex::token::{LexError, LexErrorKind, Span, Token, TokenKind};

fn check(src: &str, expected: Vec<Token>) {
    let (tokens, errors) = tokenize(src);
    assert_eq!(tokens, expected);
    assert_eq!(errors, vec![]);
}

fn check_err(src: &str, expected: Vec<Token>) {
    let (tokens, errors) = tokenize(src);
    assert_eq!(tokens, expected);
    assert_ne!(errors, vec![]);
}

#[test]
fn basics() {
    check("", vec![Token::new(Eof, Span::new(1, 1))]);
    check(
        "hello0123",
        vec![
            Token::new(Ident, Span::new(0, 9)),
            Token::new(Newline, Span::new(9, 9)),
            Token::new(Eof, Span::new(9, 9)),
        ],
    );
    check(
        "0",
        vec![
            Token::new(IntLit, Span::new(0, 1)),
            Token::new(Newline, Span::new(1, 1)),
            Token::new(Eof, Span::new(1, 1)),
        ],
    );
    check(
        "2147483647",
        vec![
            Token::new(IntLit, Span::new(0, 10)),
            Token::new(Newline, Span::new(10, 10)),
            Token::new(Eof, Span::new(10, 10)),
        ],
    );
    check(
        "( 100 )",
        vec![
            Token::new(ParenthesisOpen, Span::new(0, 1)),
            Token::new(IntLit, Span::new(2, 5)),
            Token::new(ParenthesisClose, Span::new(6, 7)),
            Token::new(Newline, Span::new(7, 7)),
            Token::new(Eof, Span::new(7, 7)),
        ],
    );
    check(
        "1 + 2 - 3 * 4 / 5",
        vec![
            Token::new(IntLit, Span::new(0, 1)),
            Token::new(Plus, Span::new(2, 3)),
            Token::new(IntLit, Span::new(4, 5)),
            Token::new(Minus, Span::new(6, 7)),
            Token::new(IntLit, Span::new(8, 9)),
            Token::new(Star, Span::new(10, 11)),
            Token::new(IntLit, Span::new(12, 13)),
            Token::new(Slash, Span::new(14, 15)),
            Token::new(IntLit, Span::new(16, 17)),
            Token::new(Newline, Span::new(17, 17)),
            Token::new(Eof, Span::new(17, 17)),
        ],
    );
    check(
        "\n",
        vec![Token::new(Newline, Span::new(0, 1)), Token::new(Eof, Span::new(1, 1))],
    );
    check(
        "\n\n",
        vec![Token::new(Newline, Span::new(0, 2)), Token::new(Eof, Span::new(2, 2))],
    );
    check(
        "\n\n\nhello",
        vec![
            Token::new(Newline, Span::new(0, 3)),
            Token::new(Ident, Span::new(3, 8)),
            Token::new(Newline, Span::new(8, 8)),
            Token::new(Eof, Span::new(8, 8)),
        ],
    );
    check(
        "\r\n",
        vec![Token::new(Newline, Span::new(0, 2)), Token::new(Eof, Span::new(2, 2))],
    );
    check(
        "\r\n\r\n\n",
        vec![Token::new(Newline, Span::new(0, 5)), Token::new(Eof, Span::new(5, 5))],
    );
    check_err("\r", vec![Token::new(Eof, Span::new(1, 1))]);
    check(
        "\n    hello\n    world\n",
        vec![
            Token::new(Newline, Span::new(0, 1)),
            Token::new(Indent, Span::new(4, 4)),
            Token::new(Ident, Span::new(5, 10)),
            Token::new(Newline, Span::new(10, 11)),
            Token::new(Ident, Span::new(15, 20)),
            Token::new(Newline, Span::new(20, 21)),
            Token::new(Dedent, Span::new(21, 21)),
            Token::new(Eof, Span::new(21, 21)),
        ],
    );
    check(
        "\n \t  hello\n",
        vec![
            Token::new(Newline, Span::new(0, 1)),
            Token::new(Indent, Span::new(4, 4)),
            Token::new(Ident, Span::new(5, 10)),
            Token::new(Newline, Span::new(10, 11)),
            Token::new(Dedent, Span::new(11, 11)),
            Token::new(Eof, Span::new(11, 11)),
        ],
    );
}

#[test]
fn bare_carriage_return_reports_unexpected_eof() {
    let (tokens, errors) = tokenize("\r");
    assert_eq!(tokens, vec![Token::new(TokenKind::Eof, Span::new(1, 1))]);
    assert_eq!(
        errors,
        vec![LexError { span: Span::new(0, 1), kind: LexErrorKind::UnexpectedEof }]
    );
}

#[test]
fn keywords_match_exactly() {
    check(
        "if elif else while func var",
        vec![
            Token::new(If, Span::new(0, 2)),
            Token::new(Elif, Span::new(3, 7)),
            Token::new(Else, Span::new(8, 12)),
            Token::new(While, Span::new(13, 18)),
            Token::new(Func, Span::new(19, 23)),
            Token::new(Var, Span::new(24, 27)),
            Token::new(Newline, Span::new(27, 27)),
            Token::new(Eof, Span::new(27, 27)),
        ],
    );
    // No partial-prefix match: "iffy" is a plain identifier.
    check(
        "iffy",
        vec![
            Token::new(Ident, Span::new(0, 4)),
            Token::new(Newline, Span::new(4, 4)),
            Token::new(Eof, Span::new(4, 4)),
        ],
    );
}

#[test]
fn keyword_table_is_complete() {
    let table: Vec<(&str, TokenKind)> = vec![
        ("if", TokenKind::If),
        ("elif", TokenKind::Elif),
        ("else", TokenKind::Else),
        ("for", TokenKind::For),
        ("while", TokenKind::While),
        ("break", TokenKind::Break),
        ("continue", TokenKind::Continue),
        ("pass", TokenKind::Pass),
        ("return", TokenKind::Return),
        ("match", TokenKind::Match),
        ("when", TokenKind::When),
        ("as", TokenKind::As),
        ("assert", TokenKind::Assert),
        ("await", TokenKind::Await),
        ("breakpoint", TokenKind::Breakpoint),
        ("class", TokenKind::Class),
        ("class_name", TokenKind::ClassName),
        ("const", TokenKind::Const),
        ("enum", TokenKind::Enum),
        ("extends", TokenKind::Extends),
        ("func", TokenKind::Func),
        ("in", TokenKind::In),
        ("is", TokenKind::Is),
        ("namespace", TokenKind::Namespace),
        ("preload", TokenKind::Preload),
        ("self", TokenKind::Self_),
        ("signal", TokenKind::Signal),
        ("static", TokenKind::Static),
        ("super", TokenKind::Super),
        ("trait", TokenKind::Trait),
        ("var", TokenKind::Var),
        ("void", TokenKind::Void),
        ("yield", TokenKind::Yield),
    ];
    for (word, kind) in table {
        let n = word.len() as u32;
        check(
            word,
            vec![
                Token::new(kind, Span::new(0, n)),
                Token::new(Newline, Span::new(n, n)),
                Token::new(Eof, Span::new(n, n)),
            ],
        );
    }
}

#[test]
fn compound_operators_prefer_maximal_munch() {
    check(
        "a += b",
        vec![
            Token::new(Ident, Span::new(0, 1)),
            Token::new(PlusEqual, Span::new(2, 4)),
            Token::new(Ident, Span::new(5, 6)),
            Token::new(Newline, Span::new(6, 6)),
            Token::new(Eof, Span::new(6, 6)),
        ],
    );
    check(
        "<<=",
        vec![
            Token::new(LessLessEqual, Span::new(0, 3)),
            Token::new(Newline, Span::new(3, 3)),
            Token::new(Eof, Span::new(3, 3)),
        ],
    );
    check(
        "x->y",
        vec![
            Token::new(Ident, Span::new(0, 1)),
            Token::new(ForwardArrow, Span::new(1, 3)),
            Token::new(Ident, Span::new(3, 4)),
            Token::new(Newline, Span::new(4, 4)),
            Token::new(Eof, Span::new(4, 4)),
        ],
    );
    check(
        "a == b != c",
        vec![
            Token::new(Ident, Span::new(0, 1)),
            Token::new(EqualEqual, Span::new(2, 4)),
            Token::new(Ident, Span::new(5, 6)),
            Token::new(BangEqual, Span::new(7, 9)),
            Token::new(Ident, Span::new(10, 11)),
            Token::new(Newline, Span::new(11, 11)),
            Token::new(Eof, Span::new(11, 11)),
        ],
    );
}

#[test]
fn newlines_inside_brackets_are_absorbed() {
    check(
        "(\n1\n)",
        vec![
            Token::new(ParenthesisOpen, Span::new(0, 1)),
            Token::new(IntLit, Span::new(2, 3)),
            Token::new(ParenthesisClose, Span::new(4, 5)),
            Token::new(Newline, Span::new(5, 5)),
            Token::new(Eof, Span::new(5, 5)),
        ],
    );
}

#[test]
fn unexpected_chars_coalesce_into_one_error() {
    let (tokens, errors) = tokenize("##");
    assert_eq!(tokens, vec![Token::new(TokenKind::Eof, Span::new(2, 2))]);
    assert_eq!(
        errors,
        vec![LexError { span: Span::new(0, 2), kind: LexErrorKind::UnexpectedChar('#') }]
    );
}

#[test]
fn separated_unexpected_chars_stay_separate() {
    let (tokens, errors) = tokenize("# #");
    assert_eq!(tokens, vec![Token::new(TokenKind::Eof, Span::new(3, 3))]);
    assert_eq!(
        errors,
        vec![
            LexError { span: Span::new(0, 1), kind: LexErrorKind::UnexpectedChar('#') },
            LexError { span: Span::new(2, 3), kind: LexErrorKind::UnexpectedChar('#') },
        ]
    );
}

#[test]
fn int_literal_at_i128_max_fits() {
    check(
        "170141183460469231731687303715884105727",
        vec![
            Token::new(IntLit, Span::new(0, 39)),
            Token::new(Newline, Span::new(39, 39)),
            Token::new(Eof, Span::new(39, 39)),
        ],
    );
}

#[test]
fn int_literal_overflow_reports_error() {
    let (tokens, errors) = tokenize("170141183460469231731687303715884105728");
    assert_eq!(tokens, vec![Token::new(TokenKind::Eof, Span::new(39, 39))]);
    assert_eq!(
        errors,
        vec![LexError { span: Span::new(0, 39), kind: LexErrorKind::IntegerOverflow }]
    );
}

#[test]
fn leading_zero_never_begins_multi_digit_literal() {
    check(
        "01",
        vec![
            Token::new(IntLit, Span::new(0, 1)),
            Token::new(IntLit, Span::new(1, 2)),
            Token::new(Newline, Span::new(2, 2)),
            Token::new(Eof, Span::new(2, 2)),
        ],
    );
}

#[test]
fn odd_indentation_reports_error() {
    let (tokens, errors) = tokenize("\n\t\ta\n\tb\n");
    assert_eq!(
        tokens,
        vec![
            Token::new(Newline, Span::new(0, 1)),
            Token::new(Indent, Span::new(2, 2)),
            Token::new(Ident, Span::new(3, 4)),
            Token::new(Newline, Span::new(4, 5)),
            Token::new(Ident, Span::new(6, 7)),
            Token::new(Newline, Span::new(7, 8)),
            Token::new(Dedent, Span::new(8, 8)),
            Token::new(Eof, Span::new(8, 8)),
        ]
    );
    assert_eq!(
        errors,
        vec![LexError { span: Span::new(5, 6), kind: LexErrorKind::OddIndentation }]
    );
}

#[test]
fn inconsistent_indentation_reports_error() {
    let (tokens, errors) = tokenize("\n\ta\n b\n");
    assert_eq!(
        tokens,
        vec![
            Token::new(Newline, Span::new(0, 1)),
            Token::new(Indent, Span::new(1, 1)),
            Token::new(Ident, Span::new(2, 3)),
            Token::new(Newline, Span::new(3, 4)),
            Token::new(Ident, Span::new(5, 6)),
            Token::new(Newline, Span::new(6, 7)),
            Token::new(Dedent, Span::new(7, 7)),
            Token::new(Eof, Span::new(7, 7)),
        ]
    );
    assert_eq!(
        errors,
        vec![LexError { span: Span::new(4, 5), kind: LexErrorKind::InconsistentIndentation }]
    );
}

#[test]
fn tokenizing_twice_is_identical() {
    let src = "func hello():\n    var x = 1 + 2\n";
    let (t1, e1) = tokenize(src);
    let (t2, e2) = tokenize(src);
    assert_eq!(t1, t2);
    assert_eq!(e1, e2);
}

#[test]
fn every_token_list_ends_in_eof() {
    for src in ["", "a", "\r", "###", "(", "\n\t\tx\n y\n", "0 1 2"] {
        let (tokens, _errors) = tokenize(src);
        assert!(tokens.len() >= 1);
        assert_eq!(tokens[tokens.len() - 1].kind, TokenKind::Eof);
    }
}

#[test]
fn multibyte_identifier_spans_count_bytes() {
    let (tokens, errors) = tokenize("h\u{e9}llo");
    assert_eq!(
        tokens,
        vec![
            Token::new(Ident, Span::new(0, 6)),
            Token::new(Newline, Span::new(6, 6)),
            Token::new(Eof, Span::new(6, 6)),
        ]
    );
    assert_eq!(errors, vec![]);
}

#[test]
fn multibyte_identifier_start_counts_bytes() {
    let (tokens, errors) = tokenize("\u{3b1}x");
    assert_eq!(
        tokens,
        vec![
            Token::new(Ident, Span::new(0, 3)),
            Token::new(Newline, Span::new(3, 3)),
            Token::new(Eof, Span::new(3, 3)),
        ]
    );
    assert_eq!(errors, vec![]);
}

#[test]
fn multibyte_final_character_extends_token_span() {
    let (tokens, errors) = tokenize("x\u{e9}");
    assert_eq!(
        tokens,
        vec![
            Token::new(Ident, Span::new(0, 3)),
            Token::new(Newline, Span::new(2, 2)),
            Token::new(Eof, Span::new(2, 2)),
        ]
    );
    assert_eq!(errors, vec![]);
}

#[test]
fn multibyte_unexpected_char_spans_its_bytes() {
    let (tokens, errors) = tokenize("\u{a7}");
    assert_eq!(tokens, vec![Token::new(Eof, Span::new(1, 1))]);
    assert_eq!(
        errors,
        vec![LexError { span: Span::new(0, 2), kind: LexErrorKind::UnexpectedChar('\u{a7}') }]
    );
}

#[test]
fn multibyte_unexpected_chars_coalesce_across_their_widths() {
    let (tokens, errors) = tokenize("\u{a7}\u{a7}");
    assert_eq!(tokens, vec![Token::new(Eof, Span::new(3, 3))]);
    assert_eq!(
        errors,
        vec![LexError { span: Span::new(0, 4), kind: LexErrorKind::UnexpectedChar('\u{a7}') }]
    );
}

#[test]
fn try_tokenize_matches_tokenize() {
    let src = "var x = 1";
    let (tokens, errors) = tokenize(src);
    let checked = gdlex::lexer::try_tokenize(src);
    assert_eq!(checked, Some((tokens, errors)));
}

#[test]
fn indents_and_dedents_balance() {
    for src in ["", "\n  a\n    b\n", "\n\tx\n", "\n  a\nb\n  c\n"] {
        let (tokens, _errors) = tokenize(src);
        let mut open: i64 = 0;
        for t in &tokens {
            if t.kind == TokenKind::Indent {
                open += 1;
            }
            if t.kind == TokenKind::Dedent {
                open -= 1;
            }
            assert!(open >= 0);
        }
        assert_eq!(open, 0);
    }
}
