use tort::diag::{Diag, ParseError};
use tort::lexis::{Token, TokenKind};
use tort::quiz::{spell_answer, spell_text};
use tort::source::SourceRange;
use tort::syntax::{Line, Parser};

#[test]
fn spell_round_trip_plain() {
    // the stored text reproduces the input, stripped, with each
    // whitespace run collapsed to a single space
    let mut parser = Parser::new("test", "  hello \t\u{a0}  world!  \n");
    // the leading whitespace run opens an empty line of its own
    assert_eq!(parser.parse_line().unwrap(), Some(Line::Empty));
    match parser.parse_line().unwrap().unwrap() {
        Line::PlainStmt { text, .. } => {
            assert_eq!(spell_text(&text), "hello world!");
        },
        other => panic!("expected a plain statement: {:?}", other),
    }
}

#[test]
fn spell_answer_concatenates() {
    let mut parser = Parser::new("test", "[a|b] hello [c:hint] world");
    match parser.parse_line().unwrap().unwrap() {
        Line::ComplexStmt { text, .. } => {
            assert_eq!(spell_answer(&text), "a hello c world");
        },
        other => panic!("expected a complex statement: {:?}", other),
    }
}

#[test]
fn spell_answer_of_lexemes() {
    let mut parser = Parser::new("test", "x [gap answer] y");
    match parser.parse_line().unwrap().unwrap() {
        Line::ComplexStmt { text, .. } => {
            assert_eq!(text[0].spell_answer(), "x");
            assert_eq!(text[2].spell_answer(), "gap answer");
            assert_eq!(text[2].unwrap_orthogram().spell_answer(), "gap answer");
        },
        other => panic!("expected a complex statement: {:?}", other),
    }
}

#[test]
fn spell_translation_sides() {
    let mut parser = Parser::new("test", "der Hund -> the dog\n");
    match parser.parse_line().unwrap().unwrap() {
        Line::TranslationStmt { original, translation, .. } => {
            assert_eq!(spell_text(&original), "der Hund");
            assert_eq!(spell_text(&translation), "the dog");
        },
        other => panic!("expected a translation: {:?}", other),
    }
}

#[test]
fn diag_constructors_carry_structure() {
    let diag = Diag::new("test", "abc");
    assert_eq!(diag.source(), "abc");
    assert_eq!(diag.source_name(), "test");
    match diag.unexpected_eof(SourceRange { start: 1, end: 2 }) {
        ParseError::UnexpectedEndOfFile { span } => {
            assert_eq!(span, SourceRange { start: 1, end: 2 });
        },
        other => panic!("expected an end-of-file error: {:?}", other),
    }
}

#[test]
fn eof_token_shape() {
    let t = Token::eof();
    assert_eq!(t.kind(), TokenKind::eof);
    assert_eq!(t.spelling(), "");
    assert_eq!(t.span(), SourceRange { start: 0, end: 0 });
}
