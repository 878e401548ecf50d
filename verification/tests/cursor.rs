use openvaf::cursor::{Cursor, Token, TokenKind, EOF_CHAR};

#[test]
fn peeking_and_consuming_measure_bytes() {
    let mut c = Cursor::new("ab€");
    assert_eq!(c.first(), 'a');
    assert_eq!(c.second(), 'b');
    assert_eq!(c.prev(), EOF_CHAR);
    assert_eq!(c.bump(), Some('a'));
    assert_eq!(c.prev(), 'a');
    assert_eq!(c.pos_within_token(), 1);
    assert_eq!(c.bump(), Some('b'));
    assert_eq!(c.second(), EOF_CHAR);
    assert_eq!(c.bump(), Some('€'));
    assert_eq!(c.pos_within_token(), 5);
    assert!(c.is_eof());
    assert_eq!(c.first(), EOF_CHAR);
    assert_eq!(c.bump(), None);
    assert_eq!(c.pos_within_token(), 5);
}

#[test]
fn finishing_a_token_records_its_length_and_starts_the_next() {
    let mut c = Cursor::new("x = 10");
    c.bump();
    c.finish_token(TokenKind::Other { code: 1 });
    assert_eq!(c.pos_within_token(), 0);
    c.bump();
    c.bump();
    c.finish_token(TokenKind::Other { code: 2 });
    c.reset_pos_within_token();
    assert_eq!(c.pos_within_token(), 0);
    let tokens = c.finish();
    assert_eq!(
        tokens,
        vec![
            Token { kind: TokenKind::Other { code: 1 }, len: 1 },
            Token { kind: TokenKind::Other { code: 2 }, len: 2 },
        ]
    );
}

#[test]
fn a_define_ends_before_the_next_token_after_it() {
    let mut c = Cursor::new("`define A 1");
    c.bump();
    let kind = c.set_marker();
    assert_eq!(kind, TokenKind::IllegalDefine);
    for _ in 0..6 {
        c.bump();
    }
    c.finish_token(kind);
    // a second marker while one is open is ignored
    assert_eq!(c.set_marker(), TokenKind::IllegalDefine);
    c.bump();
    c.bump();
    c.finish_token(TokenKind::Other { code: 7 });
    assert!(c.finish_marker());
    assert!(!c.finish_marker());
    c.bump();
    c.bump();
    c.finish_token(TokenKind::Other { code: 8 });
    let tokens = c.finish();
    assert_eq!(tokens[0], Token { kind: TokenKind::Define { end: 2 }, len: 7 });
    assert_eq!(tokens[1], Token { kind: TokenKind::Other { code: 7 }, len: 2 });
    assert_eq!(tokens.len(), 3);
}

#[test]
fn an_open_define_is_finished_by_finish() {
    let mut c = Cursor::new("ab");
    c.set_marker();
    c.bump();
    c.finish_token(TokenKind::IllegalDefine);
    c.bump();
    c.finish_token(TokenKind::Other { code: 3 });
    let tokens = c.finish();
    assert_eq!(tokens[0].kind, TokenKind::Define { end: 2 });
}
