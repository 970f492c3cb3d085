use tort::diag::{Diag, ParseError};
use tort::lexis::{Lexer, Token, TokenKind};
use tort::source::SourceRange;

#[test]
fn lex_all_tokens() {
    let source = " [ ] \t\u{a0}| : ->\u{a0}| \n# comment\r\n\u{2002}#! icomment\nhello!\u{a0}2+4";
    let mut lexer = Lexer::new("test", source);
    lexer.skip_comments(false);
    assert_eq!(lexer.lex().unwrap().kind(), TokenKind::space);
    assert_eq!(lexer.lex().unwrap().kind(), TokenKind::l_square);
    assert_eq!(lexer.lex().unwrap().kind(), TokenKind::space);
    assert_eq!(lexer.lex().unwrap().kind(), TokenKind::r_square);
    assert_eq!(lexer.lex().unwrap().kind(), TokenKind::space);
    assert_eq!(lexer.lex().unwrap().kind(), TokenKind::pipe);
    assert_eq!(lexer.lex().unwrap().kind(), TokenKind::space);
    assert_eq!(lexer.lex().unwrap().kind(), TokenKind::colon);
    assert_eq!(lexer.lex().unwrap().kind(), TokenKind::space);
    assert_eq!(lexer.lex().unwrap().kind(), TokenKind::arrow);
    assert_eq!(lexer.lex().unwrap().kind(), TokenKind::space);
    assert_eq!(lexer.lex().unwrap().kind(), TokenKind::pipe);
    assert_eq!(lexer.lex().unwrap().kind(), TokenKind::space);
    assert_eq!(lexer.lex().unwrap().kind(), TokenKind::newline);
    assert_eq!(lexer.lex().unwrap().kind(), TokenKind::comment);
    assert_eq!(lexer.lex().unwrap().kind(), TokenKind::newline);
    assert_eq!(lexer.lex().unwrap().kind(), TokenKind::space);
    assert_eq!(lexer.lex().unwrap().kind(), TokenKind::pub_comment);
    assert_eq!(lexer.lex().unwrap().kind(), TokenKind::newline);
    assert_eq!(lexer.lex().unwrap().kind(), TokenKind::word);
    assert_eq!(lexer.lex().unwrap().kind(), TokenKind::punct);
    assert_eq!(lexer.lex().unwrap().kind(), TokenKind::space);
    assert_eq!(lexer.lex().unwrap().kind(), TokenKind::number);
    assert_eq!(lexer.lex().unwrap().kind(), TokenKind::other);
    assert_eq!(lexer.lex().unwrap().kind(), TokenKind::number);
    assert_eq!(lexer.lex().unwrap().kind(), TokenKind::eof);
}

#[test]
fn skip_comments() {
    let source = "#sdf\n#!asdf\n#!\n#\n#";
    let mut lexer = Lexer::new("test", &source);
    assert_eq!(lexer.lex().unwrap().kind(), TokenKind::newline);
    assert_eq!(lexer.lex().unwrap().kind(), TokenKind::pub_comment);
    assert_eq!(lexer.lex().unwrap().kind(), TokenKind::newline);
    assert_eq!(lexer.lex().unwrap().kind(), TokenKind::pub_comment);
    assert_eq!(lexer.lex().unwrap().kind(), TokenKind::newline);
    assert_eq!(lexer.lex().unwrap().kind(), TokenKind::newline);
    assert_eq!(lexer.lex().unwrap().kind(), TokenKind::eof);
}

#[test]
fn do_not_skip_comments() {
    let source = "#sdf\n#!asdf\n#!\n#\n#";
    let mut lexer = Lexer::new("test", source);
    lexer.skip_comments(false);
    assert_eq!(lexer.lex().unwrap().kind(), TokenKind::comment);
    assert_eq!(lexer.lex().unwrap().kind(), TokenKind::newline);
    assert_eq!(lexer.lex().unwrap().kind(), TokenKind::pub_comment);
    assert_eq!(lexer.lex().unwrap().kind(), TokenKind::newline);
    assert_eq!(lexer.lex().unwrap().kind(), TokenKind::pub_comment);
    assert_eq!(lexer.lex().unwrap().kind(), TokenKind::newline);
    assert_eq!(lexer.lex().unwrap().kind(), TokenKind::comment);
    assert_eq!(lexer.lex().unwrap().kind(), TokenKind::newline);
    assert_eq!(lexer.lex().unwrap().kind(), TokenKind::comment);
    assert_eq!(lexer.lex().unwrap(), Token::eof());
}

#[test]
fn parse_controls() {
    let source = "\0";
    let mut lexer = Lexer::new("test", source);
    let diag = Diag::new("test", source);
    assert_eq!(
        lexer.lex().unwrap_err(),
        diag.invalid_token('\u{0000}', SourceRange { start: 0, end: 1 })
    );

    let source = "\u{0001}";
    let mut lexer = Lexer::new("test", source);
    let diag = Diag::new("test", source);
    assert_eq!(
        lexer.lex().unwrap_err(),
        diag.invalid_token('\u{0001}', SourceRange { start: 0, end: 1 })
    );

    let source = "hello\u{0001}";
    let mut lexer = Lexer::new("test", source);
    let diag = Diag::new("test", source);
    assert_eq!(lexer.lex().unwrap().kind(), TokenKind::word);
    assert_eq!(
        lexer.lex().unwrap_err(),
        diag.invalid_token('\u{0001}', SourceRange { start: 5, end: 6 })
    );
}

#[test]
fn comment_spelling_is_trimmed() {
    let mut lexer = Lexer::new("test", "#  padded text \u{a0} \n#! header ");
    lexer.skip_comments(false);
    let c = lexer.lex().unwrap();
    assert_eq!(c.kind(), TokenKind::comment);
    assert_eq!(c.spelling(), "padded text");
    assert_eq!(lexer.lex().unwrap().kind(), TokenKind::newline);
    let p = lexer.lex().unwrap();
    assert_eq!(p.kind(), TokenKind::pub_comment);
    assert_eq!(p.spelling(), "header");
}

#[test]
fn space_spelling_collapses_runs() {
    let mut lexer = Lexer::new("test", "a \t\u{a0}\u{2002} b");
    let w = lexer.lex().unwrap();
    assert_eq!(w.kind(), TokenKind::word);
    assert_eq!(w.spelling(), "a");
    let s = lexer.lex().unwrap();
    assert_eq!(s.kind(), TokenKind::space);
    assert_eq!(s.spelling(), " ");
    assert_eq!(s.span(), SourceRange { start: 1, end: 9 });
    let w2 = lexer.lex().unwrap();
    assert_eq!(w2.kind(), TokenKind::word);
    assert_eq!(w2.spelling(), "b");
}

#[test]
fn expect_and_expect_eol() {
    let mut lexer = Lexer::new("test", "hello");
    let t = lexer.expect(TokenKind::word).unwrap();
    assert_eq!(t.spelling(), "hello");
    assert!(lexer.expect_eol().is_ok());

    let mut lexer = Lexer::new("test", "hello");
    match lexer.expect(TokenKind::number).unwrap_err() {
        ParseError::UnexpectedToken { found, .. } => {
            assert_eq!(found.kind(), TokenKind::word);
        },
        other => panic!("wrong error: {:?}", other),
    }

    let mut lexer = Lexer::new("test", "x y");
    match lexer.expect_eol().unwrap_err() {
        ParseError::ExpectedEndOfLine { found } => {
            assert_eq!(found.kind(), TokenKind::word);
        },
        other => panic!("wrong error: {:?}", other),
    }
}

#[test]
fn token_kind_sequence_ignores_run_length() {
    let wide = "a \t\u{a0} b->2";
    let narrow = "a b->2";
    let mut k1: Vec<TokenKind> = Vec::new();
    let mut lexer = Lexer::new("test", wide);
    loop {
        let t = lexer.lex().unwrap();
        k1.push(t.kind());
        if t.kind() == TokenKind::eof {
            break;
        }
    }
    let mut k2: Vec<TokenKind> = Vec::new();
    let mut lexer = Lexer::new("test", narrow);
    loop {
        let t = lexer.lex().unwrap();
        k2.push(t.kind());
        if t.kind() == TokenKind::eof {
            break;
        }
    }
    assert_eq!(k1, k2);
}
