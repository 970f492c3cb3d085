use tort::lexis::{Token, TokenKind};
use tort::source::SourceRange;
use tort::syntax::{Lexeme, Line, Orthogram, Parser};

#[test]
fn parse_comment() {
    let mut parser = Parser::new("test", "# hello\n#!");
    assert_eq!(parser.parse_line().unwrap(), Some(Line::Empty));
    if let Line::PubComment(token) = parser.parse_line().unwrap().unwrap() {
        assert_eq!(token.kind(), TokenKind::pub_comment);
    } else {
        panic!("expected a public comment");
    }
    assert_eq!(parser.parse_line().unwrap(), None);
}

#[test]
fn parse_empty_str() {
    let mut parser = Parser::new("test", "");
    assert_eq!(parser.parse_line().unwrap(), None);
}

#[test]
fn parse_skipped_elements() {
    let mut parser = Parser::new("test", "\n\r\n\r####");
    assert_eq!(parser.parse_line().unwrap(), Some(Line::Empty));
    assert_eq!(parser.parse_line().unwrap(), Some(Line::Empty));
    assert_eq!(parser.parse_line().unwrap(), Some(Line::Empty));
    assert_eq!(parser.parse_line().unwrap(), None);
}

#[test]
fn parse_translation() {
    let mut parser = Parser::new("test", "hello -> world\n");
    let line = parser.parse_line().unwrap().unwrap();
    if let Line::TranslationStmt { original, translation, comment } = line {
        assert_eq!(original.len(), 1);
        assert_eq!(translation.len(), 1);
        assert_eq!(comment, None);
    }
}

#[test]
fn parse_gap_orthogram() {
    let mut parser = Parser::new("test", "[a] hello [b] world [c:comment]");
    let _ = parser.parse_line().unwrap().unwrap();
}

#[test]
fn parse_choice_orthogram() {
    let mut parser = Parser::new("test", "[a|b] hello [b|c|d] world [c:comment]");
    let _ = parser.parse_line().unwrap().unwrap();
}

#[test]
fn parse() {
    let mut parser = Parser::new("test", "#\n#!\n[a|b] hello [c:comment]\nhello->world");
    let lines = parser.parse().unwrap();
    assert_eq!(lines.len(), 4);
    assert_eq!(lines[0], Line::Empty);
    assert!(matches!(lines[1], Line::PubComment(_)));
    assert!(matches!(lines[2], Line::ComplexStmt { .. }));
    assert!(matches!(lines[3], Line::TranslationStmt { .. }));
}

#[test]
fn fix_001() {
    let mut parser = Parser::new("test", "[Б|б]онч-[Б|б]руевіч");
    let _ = parser.parse().unwrap();
}

#[test]
fn translation_spellings() {
    let mut parser = Parser::new("test", "hello -> world\n");
    match parser.parse_line().unwrap().unwrap() {
        Line::TranslationStmt { original, translation, comment } => {
            assert_eq!(original.len(), 1);
            assert_eq!(original[0].spelling(), "hello");
            assert_eq!(translation.len(), 1);
            assert_eq!(translation[0].spelling(), "world");
            assert_eq!(comment, None);
        },
        other => panic!("expected a translation: {:?}", other),
    }
}

#[test]
fn gap_orthogram_structure() {
    let mut parser = Parser::new("test", "[a] hello [b] world [c:comment]");
    match parser.parse_line().unwrap().unwrap() {
        Line::ComplexStmt { text, comment } => {
            assert_eq!(comment, None);
            assert_eq!(text.len(), 9);
            let answers = ["a", "b", "c"];
            for (n, idx) in [0usize, 4, 8].iter().enumerate() {
                match text[*idx].unwrap_orthogram() {
                    Orthogram::Gap { answer, comment } => {
                        assert_eq!(answer.len(), 1);
                        assert_eq!(answer[0].spelling(), answers[n]);
                        if *idx == 8 {
                            let c = comment.as_ref().unwrap();
                            assert_eq!(c.len(), 1);
                            assert_eq!(c[0].spelling(), "comment");
                        } else {
                            assert_eq!(*comment, None);
                        }
                    },
                    other => panic!("expected a gap: {:?}", other),
                }
            }
        },
        other => panic!("expected a complex statement: {:?}", other),
    }
}

#[test]
fn choice_orthogram_structure() {
    let mut parser = Parser::new("test", "[a|b] hello [b|c|d] world");
    match parser.parse_line().unwrap().unwrap() {
        Line::ComplexStmt { text, comment } => {
            assert_eq!(comment, None);
            match text[0].unwrap_orthogram() {
                Orthogram::Choice { right_answer, wrong_answers } => {
                    assert_eq!(right_answer[0].spelling(), "a");
                    assert_eq!(wrong_answers.len(), 1);
                    assert_eq!(wrong_answers[0][0].spelling(), "b");
                },
                other => panic!("expected a choice: {:?}", other),
            }
            match text[4].unwrap_orthogram() {
                Orthogram::Choice { right_answer, wrong_answers } => {
                    assert_eq!(right_answer[0].spelling(), "b");
                    assert_eq!(wrong_answers.len(), 2);
                    assert_eq!(wrong_answers[0][0].spelling(), "c");
                    assert_eq!(wrong_answers[1][0].spelling(), "d");
                },
                other => panic!("expected a choice: {:?}", other),
            }
        },
        other => panic!("expected a complex statement: {:?}", other),
    }
}

#[test]
fn comment_lines_and_lexing_order() {
    let mut parser = Parser::new("test", "#sdf\n#!asdf\n");
    let lines = parser.parse().unwrap();
    assert_eq!(lines.len(), 2);
    assert_eq!(lines[0], Line::Empty);
    match &lines[1] {
        Line::PubComment(token) => assert_eq!(token.spelling(), "asdf"),
        other => panic!("expected a public comment: {:?}", other),
    }
    // with skipping disabled the lexer sees the ordinary comment first,
    // though it never opens a line of its own
    let mut lexer = tort::lexis::Lexer::new("test", "#sdf\n#!asdf\n");
    lexer.skip_comments(false);
    assert_eq!(lexer.lex().unwrap().kind(), TokenKind::comment);
    assert_eq!(lexer.lex().unwrap().kind(), TokenKind::newline);
    assert_eq!(lexer.lex().unwrap().kind(), TokenKind::pub_comment);
}

#[test]
fn invalid_character_stops_parse() {
    let mut parser = Parser::new("test", "ok line\n\u{0001}");
    assert!(parser.parse_line().unwrap().is_some());
    match parser.parse_line().unwrap_err() {
        tort::diag::ParseError::InvalidCharacter { ch, span } => {
            assert_eq!(ch, '\u{0001}');
            assert_eq!(span, tort::source::SourceRange { start: 8, end: 9 });
        },
        other => panic!("expected an invalid character: {:?}", other),
    }
}

#[test]
fn error_variants() {
    // a line cannot open with an arrow
    let mut parser = Parser::new("test", "->x");
    match parser.parse_line().unwrap_err() {
        tort::diag::ParseError::ExpectedText { found } => {
            assert_eq!(found.kind(), TokenKind::arrow);
        },
        other => panic!("expected an expected-text error: {:?}", other),
    }
    // a gap comment must end with a closing bracket
    let mut parser = Parser::new("test", "[a:b c");
    match parser.parse_line().unwrap_err() {
        tort::diag::ParseError::UnexpectedToken { found, expected } => {
            assert_eq!(found.kind(), TokenKind::eof);
            assert_eq!(expected, tort::diag::Expectation::Kind(TokenKind::r_square));
        },
        other => panic!("expected an unexpected-token error: {:?}", other),
    }
    // a choice alternative ends only at a pipe or a closing bracket
    let mut parser = Parser::new("test", "[a|b:");
    match parser.parse_line().unwrap_err() {
        tort::diag::ParseError::UnexpectedToken { found, expected } => {
            assert_eq!(found.kind(), TokenKind::colon);
            assert_eq!(expected, tort::diag::Expectation::PipeOrClose);
        },
        other => panic!("expected an unexpected-token error: {:?}", other),
    }
}

#[test]
fn reparse_is_identical() {
    let source = "#! header\nplain text line\nhello -> world\n[a|b] gap [c:hint] line\n";
    let mut p1 = Parser::new("test", source);
    let mut p2 = Parser::new("test", source);
    assert_eq!(p1.parse().unwrap(), p2.parse().unwrap());
}

#[test]
fn empty_and_newline_files() {
    let mut parser = Parser::new("test", "");
    assert_eq!(parser.parse().unwrap(), Vec::<Line>::new());
    let mut parser = Parser::new("test", "\n\n\n");
    let lines = parser.parse().unwrap();
    assert_eq!(lines, vec![Line::Empty, Line::Empty, Line::Empty]);
}

#[test]
fn plain_statement_strips_ends() {
    let mut parser = Parser::new("test", "  hello   world  \n");
    // the leading whitespace run opens an empty line of its own
    assert_eq!(parser.parse_line().unwrap(), Some(Line::Empty));
    match parser.parse_line().unwrap().unwrap() {
        Line::PlainStmt { text, comment } => {
            assert_eq!(comment, None);
            assert_eq!(text.len(), 3);
            assert_eq!(text[0].spelling(), "hello");
            assert_eq!(text[1].kind(), TokenKind::space);
            assert_eq!(text[2].spelling(), "world");
        },
        other => panic!("expected a plain statement: {:?}", other),
    }
}

#[test]
fn plain_statement_with_comment() {
    let mut parser = Parser::new("test", "repeat me #! a note\n");
    match parser.parse_line().unwrap().unwrap() {
        Line::PlainStmt { text, comment } => {
            assert_eq!(text.len(), 3);
            assert_eq!(comment.unwrap().spelling(), "a note");
        },
        other => panic!("expected a plain statement: {:?}", other),
    }
}

#[test]
fn unwrap_norm_accessors() {
    let mut parser = Parser::new("test", "x [a] y");
    match parser.parse_line().unwrap().unwrap() {
        Line::ComplexStmt { text, .. } => {
            assert_eq!(text[0].unwrap_norm().spelling(), "x");
            match text[2].unwrap_orthogram() {
                Orthogram::Gap { answer, .. } => assert_eq!(answer[0].spelling(), "a"),
                other => panic!("expected a gap: {:?}", other),
            }
        },
        other => panic!("expected a complex statement: {:?}", other),
    }
}

#[test]
fn strip_and_text_helpers() {
    let sp = || {
        Lexeme::Normal(Token::new(TokenKind::space, SourceRange { start: 0, end: 1 }, " "))
    };
    let word = Lexeme::Normal(Token::new(TokenKind::word, SourceRange { start: 1, end: 2 }, "w"));
    let stripped = tort::syntax::strip(vec![sp(), word.clone(), sp(), sp()]);
    assert_eq!(stripped, vec![word.clone()]);
    // stripping is idempotent
    assert_eq!(tort::syntax::strip(stripped.clone()), stripped);
    // an all-whitespace buffer strips to nothing
    assert_eq!(tort::syntax::strip(vec![sp(), sp()]), Vec::<Lexeme>::new());
    let text = tort::syntax::lexemes_to_text(&vec![sp(), word.clone()]);
    assert_eq!(text.len(), 1);
    assert_eq!(text[0].spelling(), "w");
}
