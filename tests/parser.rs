use bfi::parser::{self, ErrorKind, Op};
use bfi::syntax::{Token, TokenSpan, Tokens};

fn op(t: Token, n: usize) -> Op {
    Op { t, n }
}

#[test]
fn lexer_skips_other_bytes() {
    let mut t = Tokens::new(b"a+ b]\n<");
    assert_eq!(t.next(), Some(TokenSpan { token: Token::Add, index: 1 }));
    assert_eq!(t.next(), Some(TokenSpan { token: Token::RBracket, index: 4 }));
    assert_eq!(t.next(), Some(TokenSpan { token: Token::Left, index: 6 }));
    assert_eq!(t.next(), None);
    assert_eq!(t.next(), None);
}

#[test]
fn runs_collapse_and_brackets_resolve() {
    let v = parser::ops(b"+++>>[-]<<,,..").unwrap();
    assert_eq!(
        v,
        vec![
            op(Token::Add, 3),
            op(Token::Right, 2),
            op(Token::LBracket, 2),
            op(Token::Sub, 1),
            op(Token::RBracket, 2),
            op(Token::Left, 2),
            op(Token::Read, 2),
            op(Token::Write, 2),
        ]
    );
}

#[test]
fn empty_source_compiles_to_nothing() {
    assert_eq!(parser::ops(b"").unwrap(), vec![]);
    assert_eq!(parser::ops(b"hello world").unwrap(), vec![]);
}

#[test]
fn brackets_never_merge() {
    let v = parser::ops(b"+[[]]").unwrap();
    assert_eq!(
        v,
        vec![
            op(Token::Add, 1),
            op(Token::LBracket, 3),
            op(Token::LBracket, 1),
            op(Token::RBracket, 1),
            op(Token::RBracket, 3),
        ]
    );
}

#[test]
fn leading_loop_is_dropped() {
    let v = parser::ops(b"[+++[-]>]>+").unwrap();
    assert_eq!(v, vec![op(Token::Right, 1), op(Token::Add, 1)]);
    assert_eq!(parser::ops(b"[]").unwrap(), vec![]);
    let v = parser::ops(b"[][-]").unwrap();
    assert_eq!(v, vec![op(Token::LBracket, 2), op(Token::Sub, 1), op(Token::RBracket, 2)]);
}

#[test]
fn unmatched_opening_bracket_is_the_outermost() {
    let e = parser::ops(b"+[[]").unwrap_err();
    assert_eq!(e.kind, ErrorKind::UnmatchedBracket);
    assert_eq!(e.index, 1);

    let e = parser::ops(b"[]+[ [ [] ").unwrap_err();
    assert_eq!(e.kind, ErrorKind::UnmatchedBracket);
    assert_eq!(e.index, 3);
}

#[test]
fn unexpected_closing_bracket_at_its_offset() {
    let e = parser::ops(b"+ ]").unwrap_err();
    assert_eq!(e.kind, ErrorKind::UnexpectedBracket);
    assert_eq!(e.index, 2);

    let e = parser::ops(b"[]] [").unwrap_err();
    assert_eq!(e.kind, ErrorKind::UnexpectedBracket);
    assert_eq!(e.index, 2);
}

#[test]
fn compiling_twice_gives_the_same_program() {
    let src = b"++++++++[>++++[>++>+++>+++>+<<<<-]>+>+>->>+[<]<-]>>.>---.+++++++..+++.";
    assert_eq!(parser::ops(src).unwrap(), parser::ops(src).unwrap());
}

#[test]
fn error_points_at_the_line() {
    let e = parser::ops(b"+\n  a\t[ \n+").unwrap_err();
    assert_eq!(e.kind, ErrorKind::UnmatchedBracket);
    assert_eq!(e.index, 6);
    assert_eq!(e.line, 2);
    assert_eq!(e.col, 6);
    assert_eq!(e.arrow, 5);
    assert_eq!(e.code, "a    [");
}

#[test]
fn error_on_the_first_line() {
    let e = parser::ops(b"]").unwrap_err();
    assert_eq!(e.kind, ErrorKind::UnexpectedBracket);
    assert_eq!((e.line, e.col, e.arrow), (1, 1, 0));
    assert_eq!(e.code, "]");
}

#[test]
fn error_text_replaces_invalid_utf8() {
    let e = parser::ops(b"\xff]").unwrap_err();
    assert_eq!(e.index, 1);
    assert_eq!(e.code, "\u{FFFD}]");
}

#[test]
fn symbols_spell_their_tokens() {
    let all = [
        Token::Left,
        Token::Right,
        Token::Add,
        Token::Sub,
        Token::Read,
        Token::Write,
        Token::LBracket,
        Token::RBracket,
    ];
    let spelled: Vec<u8> = all.iter().map(|t| t.symbol()).collect();
    assert_eq!(spelled, b"<>+-,.[]".to_vec());
    let mut lexed = Tokens::new(&spelled);
    for t in all {
        assert_eq!(lexed.next().map(|s| s.token), Some(t));
    }
}
