//! The tokenizer: a hand-written character-class scanner.
//!
//! At each position the next token is decided first by the literal
//! delimiters and line breaks, then by the general-category group of the
//! first character; a run token extends as far as its character class
//! does.  [`scan_token`] is the grammar; [`lex_from`] adds comment
//! skipping; `Lexer::lex` is proved to follow both exactly.

use vstd::prelude::*;
use crate::chars::{
    byte_start, char_is_white, classify, exec_is_comment_char, exec_is_word_char, exec_utf8_len,
    is_comment_char, is_number_char, is_other_char, is_punct_char, is_space_char, is_word_char,
    lemma_byte_start_is_encode_len, lemma_byte_start_mono, lemma_trim_between, trim, utf8_len,
    white_space, CharClass,
};
use crate::diag::{Diag, ErrorM, Expectation, ParseError};
use crate::source::SourceRange;

verus! {

/// The closed set of token kinds, in their declaration order.
#[allow(non_camel_case_types)]
#[derive(Clone, Copy, Debug, PartialEq, Eq, Structural)]
pub enum TokenKind {
    l_square,
    r_square,
    arrow,
    colon,
    pipe,
    comment,
    pub_comment,
    word,
    punct,
    number,
    other,
    space,
    newline,
    /// End of file; synthetic, emitted once the input is exhausted.
    eof,
}

/// Kinds that may appear inside ordinary statement text.
pub open spec fn is_text_kind(k: TokenKind) -> bool {
    match k {
        TokenKind::word | TokenKind::punct | TokenKind::number | TokenKind::other
            | TokenKind::colon | TokenKind::pipe | TokenKind::space => true,
        _ => false,
    }
}

/// Kinds that may appear inside an orthogram answer: text without the
/// colon and pipe, which are structural inside brackets.
pub open spec fn is_strict_text_kind(k: TokenKind) -> bool {
    match k {
        TokenKind::word | TokenKind::punct | TokenKind::number | TokenKind::other
            | TokenKind::space => true,
        _ => false,
    }
}

/// The two comment kinds.
pub open spec fn is_comment_kind(k: TokenKind) -> bool {
    match k {
        TokenKind::comment | TokenKind::pub_comment => true,
        _ => false,
    }
}

/// Kinds that end a line.
pub open spec fn is_eol_kind(k: TokenKind) -> bool {
    match k {
        TokenKind::eof | TokenKind::newline => true,
        _ => false,
    }
}

/// The mathematical value of a [`Token`]: its kind, its byte span into the
/// source, and its normalized spelling.
pub ghost struct TokenM {
    pub kind: TokenKind,
    pub start: int,
    pub end: int,
    pub spelling: Seq<char>,
}

/// The spelling a token takes from the slice of source it matched: the
/// slice itself for most kinds, the trimmed remainder after the marker for
/// the two comment kinds, a single space for a whitespace run, and nothing
/// for the end-of-file token.
pub open spec fn spelling_of_slice(kind: TokenKind, slice: Seq<char>) -> Seq<char> {
    match kind {
        TokenKind::comment => trim(slice.skip(1)),
        TokenKind::pub_comment => trim(slice.skip(2)),
        TokenKind::space => seq![' '],
        TokenKind::eof => Seq::empty(),
        _ => slice,
    }
}

/// The spelling of the token of the given kind matched at `[start, end)`.
pub open spec fn spelling_of(s: Seq<char>, kind: TokenKind, start: int, end: int) -> Seq<char> {
    spelling_of_slice(kind, s.subrange(start, end))
}

/// The token value produced at character range `[start, end)` of `s`.
pub open spec fn tokm(s: Seq<char>, kind: TokenKind, start: int, end: int) -> TokenM {
    TokenM {
        kind,
        start: byte_start(s, start),
        end: byte_start(s, end),
        spelling: spelling_of(s, kind, start, end),
    }
}

/// The synthetic end-of-file token.
pub open spec fn eof_token_m() -> TokenM {
    TokenM { kind: TokenKind::eof, start: 0, end: 0, spelling: Seq::empty() }
}

/// The diagnostic for an unmatched character: the character itself, with a
/// span covering exactly its bytes.
pub open spec fn invalid_m(s: Seq<char>, at: int) -> ErrorM {
    ErrorM::InvalidCharacter {
        ch: s[at],
        start: byte_start(s, at),
        end: byte_start(s, at) + utf8_len(s[at]),
    }
}

/// An immutable token: its kind, its byte span into the source, and its
/// normalized spelling.
#[derive(Debug, PartialEq)]
pub struct Token {
    kind: TokenKind,
    span: SourceRange,
    spelling: String,
}

impl View for Token {
    type V = TokenM;

    closed spec fn view(&self) -> TokenM {
        TokenM {
            kind: self.kind,
            start: self.span.start as int,
            end: self.span.end as int,
            spelling: self.spelling@,
        }
    }
}

impl Clone for Token {
    fn clone(&self) -> (r: Self)
        ensures
            r@ == self@,
    {
        Token { kind: self.kind, span: self.span, spelling: self.spelling.clone() }
    }
}

impl Token {
    /// Build a token of the given kind from the source slice it matched.
    pub fn new(tok_kind: TokenKind, span: SourceRange, slice: &str) -> (t: Token)
        requires
            tok_kind == TokenKind::comment ==> slice@.len() >= 1,
            tok_kind == TokenKind::pub_comment ==> slice@.len() >= 2,
        ensures
            t@ == (TokenM {
                kind: tok_kind,
                start: span.start as int,
                end: span.end as int,
                spelling: spelling_of_slice(tok_kind, slice@),
            }),
    {
        let spelling: String = match tok_kind {
            TokenKind::comment => trimmed_tail(slice, 1),
            TokenKind::pub_comment => trimmed_tail(slice, 2),
            TokenKind::space => {
                let s = String::from_str(" ");
                proof {
                    reveal_strlit(" ");
                    assert(s@ =~= seq![' ']);
                }
                s
            },
            TokenKind::eof => String::new(),
            _ => slice.to_owned(),
        };
        Token { kind: tok_kind, span, spelling }
    }

    /// Create a new token of the end-of-file kind.
    pub fn eof() -> (t: Self)
        ensures
            t@ == eof_token_m(),
    {
        Token {
            kind: TokenKind::eof,
            span: SourceRange { start: 0, end: 0 },
            spelling: String::new(),
        }
    }

    pub fn kind(&self) -> (k: TokenKind)
        ensures
            k == self@.kind,
    {
        self.kind
    }

    pub fn span(&self) -> (r: SourceRange)
        ensures
            r.start == self@.start,
            r.end == self@.end,
    {
        self.span
    }

    pub fn spelling(&self) -> (r: &str)
        ensures
            r@ == self@.spelling,
    {
        self.spelling.as_str()
    }

    pub fn is_text(&self) -> (r: bool)
        ensures
            r == is_text_kind(self@.kind),
    {
        match self.kind {
            TokenKind::word | TokenKind::punct | TokenKind::number | TokenKind::other
                | TokenKind::colon | TokenKind::pipe | TokenKind::space => true,
            _ => false,
        }
    }

    pub fn is_strict_text(&self) -> (r: bool)
        ensures
            r == is_strict_text_kind(self@.kind),
    {
        match self.kind {
            TokenKind::word | TokenKind::punct | TokenKind::number | TokenKind::other
                | TokenKind::space => true,
            _ => false,
        }
    }

    pub fn is_comment(&self) -> (r: bool)
        ensures
            r == is_comment_kind(self@.kind),
    {
        match self.kind {
            TokenKind::comment | TokenKind::pub_comment => true,
            _ => false,
        }
    }

    pub fn is_eol(&self) -> (r: bool)
        ensures
            r == is_eol_kind(self@.kind),
    {
        match self.kind {
            TokenKind::eof | TokenKind::newline => true,
            _ => false,
        }
    }
}

/// The tail of `slice` from character `k` on, trimmed of surrounding
/// whitespace; the spelling of a comment token.
fn trimmed_tail(slice: &str, k: usize) -> (r: String)
    requires
        k <= slice@.len(),
    ensures
        r@ == trim(slice@.skip(k as int)),
{
    let n = slice.unicode_len();
    let mut a: usize = k;
    while a < n && char_is_white(slice.get_char(a))
        invariant
            k <= a <= n,
            n == slice@.len(),
            forall|i: int| k <= i < a ==> white_space(slice@[i]),
        decreases n - a,
    {
        a = a + 1;
    }
    let mut b: usize = n;
    while b > a && char_is_white(slice.get_char(b - 1))
        invariant
            a <= b <= n,
            n == slice@.len(),
            forall|i: int| b <= i < n ==> white_space(slice@[i]),
        decreases b,
    {
        b = b - 1;
    }
    let sub = slice.substring_char(a, b);
    let r = String::from_str(sub);
    proof {
        let u = slice@.skip(k as int);
        let ai = a as int - k as int;
        let bi = b as int - k as int;
        assert(forall|i: int| 0 <= i < ai ==> white_space(#[trigger] u[i]));
        assert(forall|i: int| bi <= i < u.len() ==> white_space(#[trigger] u[i]));
        if a == b && a < n {
            // the forward loop stopped at a non-white character, so the
            // backward loop cannot have walked down onto it
            assert(!white_space(slice@[a as int]));
            assert(white_space(slice@[b as int]));
            assert(false);
        }
        lemma_trim_between(u, ai, bi);
        assert(u.subrange(ai, bi) =~= slice@.subrange(a as int, b as int));
    }
    r
}

/// The raw result of matching one token at a position: a kind and the
/// character index just past it, or no match at all.
pub ghost enum Scan {
    Hit { kind: TokenKind, end: int },
    Invalid,
}

/// The character predicate that extends a run token of the given kind.
pub open spec fn run_pred(kind: TokenKind) -> spec_fn(char) -> bool {
    match kind {
        TokenKind::word => |c: char| is_word_char(c),
        TokenKind::punct => |c: char| is_punct_char(c),
        TokenKind::number => |c: char| is_number_char(c),
        TokenKind::other => |c: char| is_other_char(c),
        TokenKind::space => |c: char| is_space_char(c),
        TokenKind::comment | TokenKind::pub_comment => |c: char| is_comment_char(c),
        _ => |c: char| false,
    }
}

/// The first position at or after `i` where `p` stops holding.
pub open spec fn run_end(s: Seq<char>, i: int, p: spec_fn(char) -> bool) -> int
    decreases s.len() - i
        when 0 <= i <= s.len()
{
    if i < s.len() && p(s[i]) {
        run_end(s, i + 1, p)
    } else {
        i
    }
}

pub proof fn lemma_run_end(s: Seq<char>, i: int, p: spec_fn(char) -> bool)
    requires
        0 <= i <= s.len(),
    ensures
        i <= run_end(s, i, p) <= s.len(),
        forall|j: int| i <= j < run_end(s, i, p) ==> p(s[j]),
        run_end(s, i, p) < s.len() ==> !p(s[run_end(s, i, p)]),
    decreases s.len() - i,
{
    if i < s.len() && p(s[i]) {
        lemma_run_end(s, i + 1, p);
    }
}

/// The lexical grammar: the token matched at position `i` of `s`.
/// Literal delimiters, the comment marker, the arrow and the line breaks
/// are decided first; everything else is a run over the character class of
/// the first character; a character that opens no pattern is invalid.
pub open spec fn scan_token(s: Seq<char>, i: int) -> Scan
    recommends
        0 <= i < s.len(),
{
    let c = s[i];
    if c == '[' {
        Scan::Hit { kind: TokenKind::l_square, end: i + 1 }
    } else if c == ']' {
        Scan::Hit { kind: TokenKind::r_square, end: i + 1 }
    } else if c == ':' {
        Scan::Hit { kind: TokenKind::colon, end: i + 1 }
    } else if c == '|' {
        Scan::Hit { kind: TokenKind::pipe, end: i + 1 }
    } else if c == '#' {
        let e = run_end(s, i + 1, run_pred(TokenKind::comment));
        if i + 1 < e && s[i + 1] == '!' {
            Scan::Hit { kind: TokenKind::pub_comment, end: e }
        } else {
            Scan::Hit { kind: TokenKind::comment, end: e }
        }
    } else if c == '-' && i + 1 < s.len() && s[i + 1] == '>' {
        Scan::Hit { kind: TokenKind::arrow, end: i + 2 }
    } else if c == '\r' {
        if i + 1 < s.len() && s[i + 1] == '\n' {
            Scan::Hit { kind: TokenKind::newline, end: i + 2 }
        } else {
            Scan::Hit { kind: TokenKind::newline, end: i + 1 }
        }
    } else if c == '\n' {
        Scan::Hit { kind: TokenKind::newline, end: i + 1 }
    } else if is_word_char(c) {
        Scan::Hit { kind: TokenKind::word, end: run_end(s, i + 1, run_pred(TokenKind::word)) }
    } else if is_punct_char(c) {
        Scan::Hit { kind: TokenKind::punct, end: run_end(s, i + 1, run_pred(TokenKind::punct)) }
    } else if is_number_char(c) {
        Scan::Hit { kind: TokenKind::number, end: run_end(s, i + 1, run_pred(TokenKind::number)) }
    } else if is_other_char(c) {
        Scan::Hit { kind: TokenKind::other, end: run_end(s, i + 1, run_pred(TokenKind::other)) }
    } else if is_space_char(c) {
        Scan::Hit { kind: TokenKind::space, end: run_end(s, i + 1, run_pred(TokenKind::space)) }
    } else {
        Scan::Invalid
    }
}

pub proof fn lemma_scan_token_end(s: Seq<char>, i: int)
    requires
        0 <= i < s.len(),
    ensures
        scan_token(s, i) matches Scan::Hit { kind, end } ==> i < end <= s.len() && kind
            != TokenKind::eof,
{
    lemma_run_end(s, i + 1, run_pred(TokenKind::comment));
    lemma_run_end(s, i + 1, run_pred(TokenKind::word));
    lemma_run_end(s, i + 1, run_pred(TokenKind::punct));
    lemma_run_end(s, i + 1, run_pred(TokenKind::number));
    lemma_run_end(s, i + 1, run_pred(TokenKind::other));
    lemma_run_end(s, i + 1, run_pred(TokenKind::space));
}

/// One step of the lexer as the parser sees it: the next meaningful token
/// from position `i`, with ordinary comments skipped when `skip` holds.
pub ghost enum LexStep {
    Tok { kind: TokenKind, start: int, end: int },
    End,
    Bad { at: int },
}

pub open spec fn lex_from(s: Seq<char>, i: int, skip: bool) -> LexStep
    decreases s.len() - i
        when 0 <= i <= s.len()
        via lex_from_dec
{
    if i >= s.len() {
        LexStep::End
    } else {
        match scan_token(s, i) {
            Scan::Invalid => LexStep::Bad { at: i },
            Scan::Hit { kind, end } => if kind == TokenKind::comment && skip {
                lex_from(s, end, skip)
            } else {
                LexStep::Tok { kind, start: i, end }
            },
        }
    }
}

#[via_fn]
proof fn lex_from_dec(s: Seq<char>, i: int, skip: bool) {
    if 0 <= i < s.len() {
        lemma_scan_token_end(s, i);
    }
}

/// What one lexer step yields: token positions are well formed, skipped
/// comments never surface, and a failure points at a scan failure.
pub proof fn lemma_lex_from(s: Seq<char>, i: int, skip: bool)
    requires
        0 <= i <= s.len(),
    ensures
        lex_from(s, i, skip) matches LexStep::Tok { kind, start, end } ==> i <= start < end
            <= s.len() && scan_token(s, start) == (Scan::Hit { kind, end }) && kind
            != TokenKind::eof && !(kind == TokenKind::comment && skip),
        lex_from(s, i, skip) matches LexStep::Bad { at } ==> i <= at < s.len() && scan_token(
            s,
            at,
        ) is Invalid,
    decreases s.len() - i,
{
    if i < s.len() {
        lemma_scan_token_end(s, i);
        if let Scan::Hit { kind, end } = scan_token(s, i) {
            if kind == TokenKind::comment && skip {
                lemma_lex_from(s, end, skip);
            }
        }
    }
}

/// The outcome of `Lexer::lex` from position `i`: the token or error value
/// produced, and the position the cursor is left at.
pub open spec fn lex_result(s: Seq<char>, i: int, skip: bool) -> (Result<TokenM, ErrorM>, int) {
    match lex_from(s, i, skip) {
        LexStep::End => (Ok(eof_token_m()), s.len() as int),
        LexStep::Tok { kind, start, end } => (Ok(tokm(s, kind, start, end)), end),
        LexStep::Bad { at } => (Err(invalid_m(s, at)), at),
    }
}

/// The outcome of `Lexer::expect`: the lexed token when its kind matches,
/// and the unexpected-token diagnostic otherwise.
pub open spec fn expect_result(s: Seq<char>, i: int, skip: bool, k: TokenKind) -> (
    Result<TokenM, ErrorM>,
    int,
) {
    let (r, np) = lex_result(s, i, skip);
    match r {
        Err(e) => (Err(e), np),
        Ok(t) => if t.kind == k {
            (Ok(t), np)
        } else {
            (Err(ErrorM::UnexpectedToken { found: t, expected: Expectation::Kind(k) }), np)
        },
    }
}

/// The outcome of `Lexer::expect_eol`: success exactly when the next token
/// ends the line.
pub open spec fn expect_eol_result(s: Seq<char>, i: int, skip: bool) -> (
    Result<TokenM, ErrorM>,
    int,
) {
    let (r, np) = lex_result(s, i, skip);
    match r {
        Err(e) => (Err(e), np),
        Ok(t) => if is_eol_kind(t.kind) {
            (Ok(t), np)
        } else {
            (Err(ErrorM::ExpectedEndOfLine { found: t }), np)
        },
    }
}

/// The tokenizer: a cursor over one source buffer.
pub struct Lexer<'s> {
    diag: Diag<'s>,
    chars: Vec<char>,
    pos: usize,
    byte_pos: usize,
    skip_comments: bool,
}

impl<'s> Lexer<'s> {
    /// The source text being tokenized.
    pub closed spec fn src(&self) -> Seq<char> {
        self.chars@
    }

    /// The current position, as a character index into the source.
    pub closed spec fn spec_pos(&self) -> int {
        self.pos as int
    }

    /// Whether ordinary comments are skipped.
    pub closed spec fn spec_skip(&self) -> bool {
        self.skip_comments
    }

    pub closed spec fn wf(&self) -> bool {
        &&& self.chars@ == self.diag.spec_source()
        &&& self.pos <= self.chars@.len()
        &&& self.byte_pos == byte_start(self.chars@, self.pos as int)
        &&& byte_start(self.chars@, self.chars@.len() as int) <= usize::MAX
    }

    pub fn new(source_name: &'s str, source: &'s str) -> (l: Lexer<'s>)
        ensures
            l.wf(),
            l.src() == source@,
            l.spec_pos() == 0,
            l.spec_skip() == true,
    {
        let n = source.unicode_len();
        let mut chars: Vec<char> = Vec::new();
        let mut i: usize = 0;
        while i < n
            invariant
                i <= n,
                n == source@.len(),
                chars@ == source@.take(i as int),
            decreases n - i,
        {
            chars.push(source.get_char(i));
            i = i + 1;
            proof {
                assert(source@.take(i as int) =~= source@.take(i as int - 1).push(
                    source@[i as int - 1],
                ));
            }
        }
        proof {
            assert(source@.take(n as int) =~= source@);
        }
        let bytes = source.as_bytes();
        let total = bytes.len();
        proof {
            lemma_byte_start_is_encode_len(source@, source@.len() as int);
            assert(source@.take(source@.len() as int) =~= source@);
        }
        Lexer {
            diag: Diag::new(source_name, source),
            chars,
            pos: 0,
            byte_pos: 0,
            skip_comments: true,
        }
    }

    /// Switch the transparent skipping of ordinary comments on or off.
    pub fn skip_comments(&mut self, enable: bool)
        requires
            old(self).wf(),
        ensures
            final(self).wf(),
            final(self).src() == old(self).src(),
            final(self).spec_pos() == old(self).spec_pos(),
            final(self).spec_skip() == enable,
    {
        self.skip_comments = enable;
    }

    /// Move the cursor forward to character index `e`, keeping the byte
    /// offset in step.
    fn advance_to(&mut self, e: usize)
        requires
            old(self).wf(),
            old(self).pos <= e <= old(self).src().len(),
        ensures
            final(self).wf(),
            final(self).src() == old(self).src(),
            final(self).spec_skip() == old(self).spec_skip(),
            final(self).diag == old(self).diag,
            final(self).pos == e,
    {
        while self.pos < e
            invariant
                self.wf(),
                self.src() == old(self).src(),
                self.spec_skip() == old(self).spec_skip(),
                self.diag == old(self).diag,
                self.pos <= e <= self.src().len(),
            decreases e - self.pos,
        {
            let c = self.chars[self.pos];
            let l = exec_utf8_len(c);
            proof {
                lemma_byte_start_mono(self.chars@, self.pos as int + 1, self.chars@.len() as int);
            }
            self.byte_pos = self.byte_pos + l;
            self.pos = self.pos + 1;
        }
    }

    /// Whether `c` extends a run token of kind `kind`.
    fn char_in_run(c: char, kind: TokenKind) -> (b: bool)
        ensures
            b == run_pred(kind)(c),
    {
        match kind {
            TokenKind::word => exec_is_word_char(c),
            TokenKind::punct => {
                let g = classify(c);
                g == CharClass::Punctuation && c != '[' && c != ']' && c != ':'
            },
            TokenKind::number => classify(c) == CharClass::Number,
            TokenKind::other => {
                let g = classify(c);
                g == CharClass::Symbol && c != '|'
            },
            TokenKind::space => c == '\t' || classify(c) == CharClass::Separator,
            TokenKind::comment | TokenKind::pub_comment => exec_is_comment_char(c),
            _ => false,
        }
    }

    /// The end of the run of kind `kind` starting at character index `i`.
    fn run_from(&self, i: usize, kind: TokenKind) -> (e: usize)
        requires
            self.wf(),
            i <= self.src().len(),
        ensures
            e == run_end(self.src(), i as int, run_pred(kind)),
            i <= e <= self.src().len(),
    {
        let ghost p = run_pred(kind);
        let mut j: usize = i;
        loop
            invariant
                self.wf(),
                p == run_pred(kind),
                i <= j <= self.src().len(),
                run_end(self.src(), i as int, p) == run_end(self.src(), j as int, p),
            ensures
                i <= j <= self.src().len(),
                run_end(self.src(), i as int, p) == run_end(self.src(), j as int, p),
                j == self.src().len() || !p(self.src()[j as int]),
            decreases self.src().len() - j,
        {
            if j == self.chars.len() {
                break;
            }
            let c = self.chars[j];
            if !Self::char_in_run(c, kind) {
                break;
            }
            proof {
                reveal_with_fuel(run_end, 2);
                assert(run_end(self.src(), j as int, p) == run_end(self.src(), j as int + 1, p));
            }
            j = j + 1;
        }
        j
    }

    /// Produce the next meaningful token, or report the character that
    /// opens none.
    pub fn lex(&mut self) -> (r: Result<Token, ParseError>)
        requires
            old(self).wf(),
        ensures
            final(self).wf(),
            final(self).src() == old(self).src(),
            final(self).spec_skip() == old(self).spec_skip(),
            ({
                let (res, np) = lex_result(old(self).src(), old(self).spec_pos(), old(
                    self,
                ).spec_skip());
                &&& final(self).spec_pos() == np
                &&& match r {
                    Ok(t) => res matches Ok(tm) && t@ == tm,
                    Err(e) => res matches Err(em) && e@ == em,
                }
            }),
    {
        loop
            invariant
                self.wf(),
                self.src() == old(self).src(),
                self.spec_skip() == old(self).spec_skip(),
                self.diag == old(self).diag,
                self.pos >= old(self).pos,
                lex_from(self.src(), self.spec_pos(), self.spec_skip()) == lex_from(
                    old(self).src(),
                    old(self).spec_pos(),
                    old(self).spec_skip(),
                ),
            decreases self.src().len() - self.pos,
        {
            if self.pos == self.chars.len() {
                return Ok(Token::eof());
            }
            let start = self.pos;
            let c = self.chars[start];
            let len = self.chars.len();
            // decide kind and end position, mirroring `scan_token`
            let mut kind: TokenKind = TokenKind::eof;
            let mut end: usize = start;
            let mut matched: bool = true;
            if c == '[' {
                kind = TokenKind::l_square;
                end = start + 1;
            } else if c == ']' {
                kind = TokenKind::r_square;
                end = start + 1;
            } else if c == ':' {
                kind = TokenKind::colon;
                end = start + 1;
            } else if c == '|' {
                kind = TokenKind::pipe;
                end = start + 1;
            } else if c == '#' {
                let e = self.run_from(start + 1, TokenKind::comment);
                if start + 1 < e && self.chars[start + 1] == '!' {
                    kind = TokenKind::pub_comment;
                } else {
                    kind = TokenKind::comment;
                }
                end = e;
            } else if c == '-' && start + 1 < len && self.chars[start + 1] == '>' {
                kind = TokenKind::arrow;
                end = start + 2;
            } else if c == '\r' {
                kind = TokenKind::newline;
                if start + 1 < len && self.chars[start + 1] == '\n' {
                    end = start + 2;
                } else {
                    end = start + 1;
                }
            } else if c == '\n' {
                kind = TokenKind::newline;
                end = start + 1;
            } else {
                let g = classify(c);
                if g == CharClass::Letter || g == CharClass::Mark {
                    kind = TokenKind::word;
                    end = self.run_from(start + 1, TokenKind::word);
                } else if g == CharClass::Punctuation && c != '[' && c != ']' && c != ':' {
                    kind = TokenKind::punct;
                    end = self.run_from(start + 1, TokenKind::punct);
                } else if g == CharClass::Number {
                    kind = TokenKind::number;
                    end = self.run_from(start + 1, TokenKind::number);
                } else if g == CharClass::Symbol && c != '|' {
                    kind = TokenKind::other;
                    end = self.run_from(start + 1, TokenKind::other);
                } else if c == '\t' || g == CharClass::Separator {
                    kind = TokenKind::space;
                    end = self.run_from(start + 1, TokenKind::space);
                } else {
                    matched = false;
                }
            }
            if !matched {
                assert(scan_token(self.src(), start as int) is Invalid);
                let l = exec_utf8_len(c);
                proof {
                    lemma_byte_start_mono(
                        self.chars@,
                        start as int + 1,
                        self.chars@.len() as int,
                    );
                }
                let span = SourceRange { start: self.byte_pos, end: self.byte_pos + l };
                return Err(self.diag.invalid_token(c, span));
            }
            assert(scan_token(self.src(), start as int) == (Scan::Hit {
                kind,
                end: end as int,
            }));
            if kind == TokenKind::comment && self.skip_comments {
                self.advance_to(end);
                continue;
            }
            let span_start = self.byte_pos;
            self.advance_to(end);
            let span_end = self.byte_pos;
            let slice = self.diag.source().substring_char(start, end);
            let token = Token::new(kind, SourceRange { start: span_start, end: span_end }, slice);
            proof {
                assert(slice@ =~= self.src().subrange(start as int, end as int));
                if kind == TokenKind::comment {
                    assert(slice@.len() >= 1);
                }
                if kind == TokenKind::pub_comment {
                    assert(slice@.len() >= 2);
                }
            }
            return Ok(token);
        }
    }

    /// Lex one token and require it to be of `expected_kind`.
    pub fn expect(&mut self, expected_kind: TokenKind) -> (r: Result<Token, ParseError>)
        requires
            old(self).wf(),
        ensures
            final(self).wf(),
            final(self).src() == old(self).src(),
            final(self).spec_skip() == old(self).spec_skip(),
            ({
                let (res, np) = expect_result(
                    old(self).src(),
                    old(self).spec_pos(),
                    old(self).spec_skip(),
                    expected_kind,
                );
                &&& final(self).spec_pos() == np
                &&& match r {
                    Ok(t) => res matches Ok(tm) && t@ == tm,
                    Err(e) => res matches Err(em) && e@ == em,
                }
            }),
    {
        let token = match self.lex() {
            Ok(t) => t,
            Err(e) => {
                return Err(e);
            },
        };
        if token.kind() == expected_kind {
            Ok(token)
        } else {
            Err(self.diag.unexpected_token(token, Expectation::Kind(expected_kind)))
        }
    }

    /// Consume a token of kind `newline` or `eof`, else return an error.
    pub fn expect_eol(&mut self) -> (r: Result<(), ParseError>)
        requires
            old(self).wf(),
        ensures
            final(self).wf(),
            final(self).src() == old(self).src(),
            final(self).spec_skip() == old(self).spec_skip(),
            ({
                let (res, np) = expect_eol_result(
                    old(self).src(),
                    old(self).spec_pos(),
                    old(self).spec_skip(),
                );
                &&& final(self).spec_pos() == np
                &&& match r {
                    Ok(()) => res is Ok,
                    Err(e) => res matches Err(em) && e@ == em,
                }
            }),
    {
        let token = match self.lex() {
            Ok(t) => t,
            Err(e) => {
                return Err(e);
            },
        };
        if token.is_eol() {
            Ok(())
        } else {
            Err(self.diag.expected_eol(token))
        }
    }
}


/// The character at a position opens a whitespace-run token there: it is
/// no delimiter or marker literal, opens no other run, and is whitespace.
pub open spec fn starts_space_token(c: char) -> bool {
    &&& c != '['
    &&& c != ']'
    &&& c != ':'
    &&& c != '|'
    &&& c != '#'
    &&& c != '\r'
    &&& c != '\n'
    &&& !is_word_char(c)
    &&& !is_punct_char(c)
    &&& !is_number_char(c)
    &&& !is_other_char(c)
    &&& is_space_char(c)
}

/// The text with each whitespace run collapsed to a single space: what
/// the spellings of its tokens preserve of it.
pub open spec fn collapse_ws(t: Seq<char>) -> Seq<char>
    decreases t.len()
        via collapse_ws_dec
{
    if t.len() == 0 {
        Seq::empty()
    } else if starts_space_token(t[0]) {
        seq![' '] + collapse_ws(t.skip(run_end(t, 0, run_pred(TokenKind::space))))
    } else {
        seq![t[0]] + collapse_ws(t.drop_first())
    }
}

#[via_fn]
proof fn collapse_ws_dec(t: Seq<char>) {
    if t.len() > 0 && starts_space_token(t[0]) {
        lemma_run_end(t, 0, run_pred(TokenKind::space));
        assert(run_pred(TokenKind::space)(t[0]));
        reveal_with_fuel(run_end, 2);
    }
}

/// Scanning from `i` yields ordinary text tokens that exactly tile the
/// region up to `e`.
pub open spec fn text_region(s: Seq<char>, i: int, e: int) -> bool
    decreases e - i
        when 0 <= i <= e <= s.len()
        via text_region_dec
{
    i == e || (match scan_token(s, i) {
        Scan::Hit { kind, end } => is_text_kind(kind) && end <= e && text_region(s, end, e),
        Scan::Invalid => false,
    })
}

#[via_fn]
proof fn text_region_dec(s: Seq<char>, i: int, e: int) {
    if 0 <= i < e <= s.len() {
        lemma_scan_token_end(s, i);
    }
}

/// The tokens scanned across a text region.
pub open spec fn region_tokens(s: Seq<char>, i: int, e: int) -> Seq<TokenM>
    decreases e - i
        when 0 <= i <= e <= s.len()
        via region_tokens_dec
{
    if i >= e {
        Seq::empty()
    } else {
        match scan_token(s, i) {
            Scan::Hit { kind, end } => if end <= e {
                seq![tokm(s, kind, i, end)] + region_tokens(s, end, e)
            } else {
                Seq::empty()
            },
            Scan::Invalid => Seq::empty(),
        }
    }
}

#[via_fn]
proof fn region_tokens_dec(s: Seq<char>, i: int, e: int) {
    if 0 <= i < e <= s.len() {
        lemma_scan_token_end(s, i);
    }
}

/// `run_end` is pinned down by what it promises: a stretch on which the
/// predicate holds, ending where it first fails.
pub proof fn lemma_run_end_is(t: Seq<char>, k: int, p: spec_fn(char) -> bool, m: int)
    requires
        0 <= k <= m <= t.len(),
        forall|j: int| k <= j < m ==> p(t[j]),
        m < t.len() ==> !p(t[m]),
    ensures
        run_end(t, k, p) == m,
    decreases m - k,
{
    if k < m {
        lemma_run_end_is(t, k + 1, p, m);
    }
}


/// The raw token kinds of a source, scanned to exhaustion with no
/// comment skipping, up to the end of input or the first invalid
/// character.
pub open spec fn kinds_from(s: Seq<char>, i: int) -> Seq<TokenKind>
    decreases s.len() - i
        when 0 <= i <= s.len()
        via kinds_from_dec
{
    match lex_from(s, i, false) {
        LexStep::End => Seq::empty(),
        LexStep::Bad { at } => Seq::empty(),
        LexStep::Tok { kind, start, end } => seq![kind] + kinds_from(s, end),
    }
}

#[via_fn]
proof fn kinds_from_dec(s: Seq<char>, i: int) {
    if 0 <= i <= s.len() {
        lemma_lex_from(s, i, false);
    }
}

/// A scan result moved by a fixed offset.
pub open spec fn scan_shifted(sc: Scan, d: int) -> Scan {
    match sc {
        Scan::Invalid => Scan::Invalid,
        Scan::Hit { kind, end } => Scan::Hit { kind, end: end + d },
    }
}

/// A run extends the same distance from positions with equal suffixes.
pub proof fn lemma_run_end_shift(
    s1: Seq<char>,
    i1: int,
    s2: Seq<char>,
    i2: int,
    j1: int,
    j2: int,
    p: spec_fn(char) -> bool,
)
    requires
        0 <= i1 <= s1.len(),
        0 <= i2 <= s2.len(),
        s1.skip(i1) == s2.skip(i2),
        i1 <= j1 <= s1.len(),
        j1 - i1 == j2 - i2,
    ensures
        run_end(s1, j1, p) - j1 == run_end(s2, j2, p) - j2,
    decreases s1.len() - j1,
{
    assert(s1.len() - i1 == s2.len() - i2) by {
        assert(s1.skip(i1).len() == s1.len() - i1);
        assert(s2.skip(i2).len() == s2.len() - i2);
        assert(s1.skip(i1).len() == s2.skip(i2).len());
    }
    if j1 < s1.len() {
        assert(s1[j1] == s2[j2]) by {
            assert(s1.skip(i1)[j1 - i1] == s1[j1]);
            assert(s2.skip(i2)[j1 - i1] == s2[j2]);
        }
        if p(s1[j1]) {
            lemma_run_end_shift(s1, i1, s2, i2, j1 + 1, j2 + 1, p);
        }
        reveal_with_fuel(run_end, 2);
    }
}

/// The scanner looks only forward: positions with equal suffixes scan to
/// the same token kind, over the same distance.
pub proof fn lemma_scan_shift(s1: Seq<char>, i1: int, s2: Seq<char>, i2: int)
    requires
        0 <= i1 < s1.len(),
        0 <= i2 <= s2.len(),
        s1.skip(i1) == s2.skip(i2),
    ensures
        scan_token(s2, i2) == scan_shifted(scan_token(s1, i1), i2 - i1),
{
    assert(s1.len() - i1 == s2.len() - i2) by {
        assert(s1.skip(i1).len() == s1.len() - i1);
        assert(s2.skip(i2).len() == s2.len() - i2);
        assert(s1.skip(i1).len() == s2.skip(i2).len());
    }
    assert forall|k: int| 0 <= k < s1.len() - i1 implies s1[i1 + k] == #[trigger] s2[i2 + k] by {
        assert(s1.skip(i1)[k] == s1[i1 + k]);
        assert(s2.skip(i2)[k] == s2[i2 + k]);
    }
    lemma_run_end_shift(s1, i1, s2, i2, i1 + 1, i2 + 1, run_pred(TokenKind::comment));
    lemma_run_end_shift(s1, i1, s2, i2, i1 + 1, i2 + 1, run_pred(TokenKind::word));
    lemma_run_end_shift(s1, i1, s2, i2, i1 + 1, i2 + 1, run_pred(TokenKind::punct));
    lemma_run_end_shift(s1, i1, s2, i2, i1 + 1, i2 + 1, run_pred(TokenKind::number));
    lemma_run_end_shift(s1, i1, s2, i2, i1 + 1, i2 + 1, run_pred(TokenKind::other));
    lemma_run_end_shift(s1, i1, s2, i2, i1 + 1, i2 + 1, run_pred(TokenKind::space));
    assert(s1[i1] == s2[i2]) by {
        assert(s1.skip(i1)[0] == s1[i1]);
        assert(s2.skip(i2)[0] == s2[i2]);
    }
    if i1 + 1 < s1.len() {
        assert(s1[i1 + 1] == s2[i2 + 1]) by {
            assert(s1.skip(i1)[1] == s1[i1 + 1]);
            assert(s2.skip(i2)[1] == s2[i2 + 1]);
        }
    }
    if s1[i1] == '#' {
        lemma_run_end(s1, i1 + 1, run_pred(TokenKind::comment));
    }
}

/// Token kinds depend only on the remaining text: positions with equal
/// suffixes yield the same kind sequence.
pub proof fn lemma_kinds_shift(s1: Seq<char>, i1: int, s2: Seq<char>, i2: int)
    requires
        0 <= i1 <= s1.len(),
        0 <= i2 <= s2.len(),
        s1.skip(i1) == s2.skip(i2),
    ensures
        kinds_from(s1, i1) == kinds_from(s2, i2),
    decreases s1.len() - i1,
{
    assert(s1.len() - i1 == s2.len() - i2) by {
        assert(s1.skip(i1).len() == s1.len() - i1);
        assert(s2.skip(i2).len() == s2.len() - i2);
        assert(s1.skip(i1).len() == s2.skip(i2).len());
    }
    if i1 < s1.len() {
        lemma_scan_shift(s1, i1, s2, i2);
        lemma_scan_token_end(s1, i1);
        if let Scan::Hit { kind, end } = scan_token(s1, i1) {
            let end2 = end + i2 - i1;
            assert(s1.skip(end) =~= s2.skip(end2)) by {
                assert forall|k: int| 0 <= k < s1.len() - end implies s1.skip(end)[k] == s2.skip(
                    end2,
                )[k] by {
                    assert(s1.skip(i1)[end - i1 + k] == s1[end + k]);
                    assert(s2.skip(i2)[end - i1 + k] == s2[end2 + k]);
                }
            }
            lemma_kinds_shift(s1, end, s2, end2);
        }
    }
}


/// How a run that may cross the whitespace run behaves in the shrunk
/// source: it either stops inside the common prefix at the same place,
/// or it swallows the whole whitespace run and ends a fixed distance
/// earlier in the shrunk source.
proof fn lemma_run_end_cross(
    a: Seq<char>,
    run: Seq<char>,
    b: Seq<char>,
    start: int,
    p: spec_fn(char) -> bool,
)
    requires
        run.len() >= 1,
        0 <= start <= a.len() + 1,
        forall|j: int| 0 <= j < run.len() ==> (p(run[0]) ==> p(#[trigger] run[j])),
        start == a.len() + 1 ==> p(run[0]),
    ensures
        run_end(a + run + b, start, p) <= a.len() ==> run_end(a + seq![run[0]] + b, start, p)
            == run_end(a + run + b, start, p),
        run_end(a + run + b, start, p) > a.len() ==> {
            &&& p(run[0])
            &&& run_end(a + run + b, start, p) >= a.len() + run.len()
            &&& run_end(a + seq![run[0]] + b, start, p) == run_end(a + run + b, start, p) - (
            run.len() - 1)
        },
{
    let s1 = a + run + b;
    let s2 = a + seq![run[0]] + b;
    let al = a.len() as int;
    let d = run.len() - 1;
    assert(s1.len() == al + run.len() + b.len());
    assert(s2.len() == al + 1 + b.len());
    assert forall|k: int| 0 <= k <= al implies s1[k] == #[trigger] s2[k] by {
        assert(s1[k] == (a + run)[k]);
        assert(s2[k] == (a + seq![run[0]])[k]);
    }
    assert forall|j: int| 0 <= j < run.len() implies s1[al + j] == #[trigger] run[j] by {
        assert(s1[al + j] == (a + run)[al + j]);
    }
    assert forall|k: int| 0 <= k < b.len() implies #[trigger] s1[al + run.len() + k] == b[k] by {}
    assert forall|k: int| 0 <= k < b.len() implies #[trigger] s2[al + 1 + k] == b[k] by {}
    let m1 = run_end(s1, start, p);
    lemma_run_end(s1, start, p);
    if m1 <= al {
        lemma_run_end_is(s2, start, p, m1);
    } else {
        if start <= al {
            assert(p(s1[al]));
            assert(p(run[0]));
        }
        assert(forall|j: int| 0 <= j < run.len() ==> p(#[trigger] run[j]));
        if m1 < al + run.len() {
            assert(!p(s1[m1]));
            assert(s1[m1] == run[m1 - al]);
            assert(false);
        }
        assert forall|j: int| start <= j < m1 - d implies p(s2[j]) by {
            if j < al {
                assert(s2[j] == s1[j]);
            } else if j == al {
                assert(s2[al] == run[0]);
            } else {
                assert(s2[j] == b[j - al - 1]);
                assert(s1[j + d] == b[j - al - 1]);
                assert(p(s1[j + d]));
            }
        }
        if m1 - d < s2.len() {
            assert(m1 < s1.len());
            assert(!p(s1[m1]));
            assert(s2[m1 - d] == b[m1 - d - al - 1]);
            assert(s1[m1] == b[m1 - al - run.len()]);
        }
        lemma_run_end_is(s2, start, p, m1 - d);
    }
}

/// The kind sequences from a common position, with the whitespace run
/// shrunk to its first character.
proof fn lemma_kinds_collapse_at(a: Seq<char>, run: Seq<char>, b: Seq<char>, i: int)
    requires
        run.len() >= 1,
        forall|j: int| 0 <= j < run.len() ==> starts_space_token(#[trigger] run[j]) && run[j]
            != '-' && run[j] != '>',
        0 <= i <= a.len(),
    ensures
        kinds_from(a + run + b, i) == kinds_from(a + seq![run[0]] + b, i),
    decreases a.len() - i,
{
    let s1 = a + run + b;
    let s2 = a + seq![run[0]] + b;
    let al = a.len() as int;
    let d = run.len() - 1;
    assert(s1.len() == al + run.len() + b.len());
    assert(s2.len() == al + 1 + b.len());
    assert forall|k: int| 0 <= k <= al implies s1[k] == #[trigger] s2[k] by {
        assert(s1[k] == (a + run)[k]);
        assert(s2[k] == (a + seq![run[0]])[k]);
    }
    assert forall|j: int| 0 <= j < run.len() implies s1[al + j] == #[trigger] run[j] by {
        assert(s1[al + j] == (a + run)[al + j]);
    }
    assert forall|k: int| 0 <= k < b.len() implies #[trigger] s1[al + run.len() + k] == b[k] by {}
    assert forall|k: int| 0 <= k < b.len() implies #[trigger] s2[al + 1 + k] == b[k] by {}
    // how each possible run crosses the whitespace region
    assert forall|j: int| 0 <= j < run.len() implies (is_comment_char(run[0])
        ==> is_comment_char(#[trigger] run[j])) by {}
    assert forall|j: int| 0 <= j < run.len() implies (is_space_char(run[0]) ==> is_space_char(
        #[trigger] run[j],
    )) by {}
    let pc = run_pred(TokenKind::comment);
    let pw = run_pred(TokenKind::word);
    let pp = run_pred(TokenKind::punct);
    let pn = run_pred(TokenKind::number);
    let po = run_pred(TokenKind::other);
    let ps = run_pred(TokenKind::space);
    if i == al {
        // the source position at the run itself: one space token covers
        // the whole run and whatever whitespace follows it
        assert(s1[al] == run[0]);
        assert(s2[al] == run[0]);
        lemma_run_end_cross(a, run, b, al + 1, ps);
        lemma_run_end(s1, al + 1, ps);
        let m1 = run_end(s1, al + 1, ps);
        if m1 <= al {
            assert(false);
        }
        let m2 = run_end(s2, al + 1, ps);
        assert(scan_token(s1, al) == (Scan::Hit { kind: TokenKind::space, end: m1 }));
        assert(scan_token(s2, al) == (Scan::Hit { kind: TokenKind::space, end: m2 }));
        assert(s1.skip(m1) =~= s2.skip(m2)) by {
            assert(s1.skip(m1).len() == s2.skip(m2).len());
            assert forall|k: int| 0 <= k < s1.len() - m1 implies s1.skip(m1)[k] == #[trigger] s2
                .skip(m2)[k] by {
                assert(s1.skip(m1)[k] == s1[m1 + k]);
                assert(s2.skip(m2)[k] == s2[m2 + k]);
                assert(s1[m1 + k] == b[m1 + k - al - run.len()]);
                assert(s2[m2 + k] == b[m2 + k - al - 1]);
            }
        }
        lemma_kinds_shift(s1, m1, s2, m2);
        assert(kinds_from(s1, i) =~= seq![TokenKind::space] + kinds_from(s1, m1));
        assert(kinds_from(s2, i) =~= seq![TokenKind::space] + kinds_from(s2, m2));
    } else {
        // inside the common prefix: both sources agree through the first
        // character of the run
        lemma_run_end_cross(a, run, b, i + 1, pc);
        lemma_run_end_cross(a, run, b, i + 1, pw);
        lemma_run_end_cross(a, run, b, i + 1, pp);
        lemma_run_end_cross(a, run, b, i + 1, pn);
        lemma_run_end_cross(a, run, b, i + 1, po);
        lemma_run_end_cross(a, run, b, i + 1, ps);
        match scan_token(s1, i) {
            Scan::Invalid => {
                assert(scan_token(s2, i) is Invalid);
            },
            Scan::Hit { kind, end } => {
                lemma_scan_token_end(s1, i);
                if end <= al {
                    assert(scan_token(s2, i) == (Scan::Hit { kind, end }));
                    lemma_kinds_collapse_at(a, run, b, end);
                    assert(kinds_from(s1, i) =~= seq![kind] + kinds_from(s1, end));
                    assert(kinds_from(s2, i) =~= seq![kind] + kinds_from(s2, end));
                } else {
                    // a token crossing the run can only be a comment or a
                    // whitespace run, which swallow it whole
                    let end2 = end - d;
                    assert(scan_token(s2, i) == (Scan::Hit { kind, end: end2 }));
                    assert(end >= al + run.len());
                    assert(s1.skip(end) =~= s2.skip(end2)) by {
                        assert(s1.skip(end).len() == s2.skip(end2).len());
                        assert forall|k: int| 0 <= k < s1.len() - end implies s1.skip(end)[k]
                            == #[trigger] s2.skip(end2)[k] by {
                            assert(s1.skip(end)[k] == s1[end + k]);
                            assert(s2.skip(end2)[k] == s2[end2 + k]);
                            assert(s1[end + k] == b[end + k - al - run.len()]);
                            assert(s2[end2 + k] == b[end2 + k - al - 1]);
                        }
                    }
                    lemma_kinds_shift(s1, end, s2, end2);
                    assert(kinds_from(s1, i) =~= seq![kind] + kinds_from(s1, end));
                    assert(kinds_from(s2, i) =~= seq![kind] + kinds_from(s2, end2));
                }
            },
        }
    }
}

/// Whitespace-run length is not observable in the token kinds: shrinking
/// any whitespace run of a source to its first character alone leaves
/// the kind sequence of the whole source unchanged.
pub proof fn lemma_kinds_collapse_run(a: Seq<char>, run: Seq<char>, b: Seq<char>)
    requires
        run.len() >= 1,
        forall|j: int| 0 <= j < run.len() ==> starts_space_token(#[trigger] run[j]) && run[j]
            != '-' && run[j] != '>',
    ensures
        kinds_from(a + run + b, 0) == kinds_from(a + seq![run[0]] + b, 0),
{
    lemma_kinds_collapse_at(a, run, b, 0);
}


} // verus!
