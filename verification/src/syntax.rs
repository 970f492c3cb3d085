//! The parser: statements, orthograms and lines.
//!
//! A script is parsed line by line by recursive descent over the token
//! stream.  The spec functions `sp_*` are the grammar, written as total
//! functions from the token sequence to the parsed value; every parsing
//! method is proved to return exactly what they describe.

use vstd::prelude::*;
use crate::diag::{Diag, ErrorM, Expectation, ParseError};
use crate::lexis::{
    eof_token_m, invalid_m, is_comment_kind, is_eol_kind, is_strict_text_kind, is_text_kind,
    lemma_lex_from, lex_from, scan_token, tokm, LexStep, Lexer, Scan, Token, TokenKind, TokenM,
};

verus! {

/// A run of plain tokens: the text of a statement or of an answer.
pub type Text = Vec<Token>;

/// A bracketed exercise embedded in a line's text.
#[derive(Debug, PartialEq)]
pub enum Orthogram {
    /// A fill-in-the-blank: the expected text and an optional hint.
    Gap { answer: Text, comment: Option<Text> },
    /// A multiple-choice blank: the right answer and at least one wrong one.
    Choice { right_answer: Text, wrong_answers: Vec<Text> },
}

/// The atomic unit of a complex statement's text.
#[derive(Debug, PartialEq)]
pub enum Lexeme {
    Normal(Token),
    Orthogram(Orthogram),
}

/// One logical script line.
#[derive(Debug, PartialEq)]
pub enum Line {
    /// A standalone public comment.
    PubComment(Token),
    /// A literal statement to be typed back verbatim.
    PlainStmt { text: Text, comment: Option<Token> },
    /// A pair of texts separated by an arrow.
    TranslationStmt { original: Text, translation: Text, comment: Option<Token> },
    /// Text interleaved with one or more orthograms.
    ComplexStmt { text: Vec<Lexeme>, comment: Option<Token> },
    /// A blank or comment-only line.
    Empty,
}

/// The mathematical value of an [`Orthogram`].
pub ghost enum OrthoM {
    Gap { answer: Seq<TokenM>, comment: Option<Seq<TokenM>> },
    Choice { right_answer: Seq<TokenM>, wrong_answers: Seq<Seq<TokenM>> },
}

/// The mathematical value of a [`Lexeme`].
pub ghost enum LexemeM {
    Normal(TokenM),
    Orthogram(OrthoM),
}

/// The mathematical value of a [`Line`].
pub ghost enum LineM {
    PubComment(TokenM),
    PlainStmt { text: Seq<TokenM>, comment: Option<TokenM> },
    TranslationStmt { original: Seq<TokenM>, translation: Seq<TokenM>, comment: Option<TokenM> },
    ComplexStmt { text: Seq<LexemeM>, comment: Option<TokenM> },
    Empty,
}

/// The values of a sequence of tokens.
pub open spec fn text_view(s: Seq<Token>) -> Seq<TokenM> {
    s.map_values(|t: Token| t@)
}

/// The value of an optional token.
pub open spec fn opt_tok_view(o: Option<Token>) -> Option<TokenM> {
    match o {
        Some(t) => Some(t@),
        None => None,
    }
}

impl View for Orthogram {
    type V = OrthoM;

    open spec fn view(&self) -> OrthoM {
        match self {
            Orthogram::Gap { answer, comment } => OrthoM::Gap {
                answer: text_view(answer@),
                comment: match comment {
                    Some(c) => Some(text_view(c@)),
                    None => None,
                },
            },
            Orthogram::Choice { right_answer, wrong_answers } => OrthoM::Choice {
                right_answer: text_view(right_answer@),
                wrong_answers: wrong_answers@.map_values(|v: Vec<Token>| text_view(v@)),
            },
        }
    }
}

impl View for Lexeme {
    type V = LexemeM;

    open spec fn view(&self) -> LexemeM {
        match self {
            Lexeme::Normal(t) => LexemeM::Normal(t@),
            Lexeme::Orthogram(o) => LexemeM::Orthogram(o@),
        }
    }
}

impl View for Line {
    type V = LineM;

    open spec fn view(&self) -> LineM {
        match self {
            Line::PubComment(t) => LineM::PubComment(t@),
            Line::PlainStmt { text, comment } => LineM::PlainStmt {
                text: text_view(text@),
                comment: opt_tok_view(*comment),
            },
            Line::TranslationStmt { original, translation, comment } => LineM::TranslationStmt {
                original: text_view(original@),
                translation: text_view(translation@),
                comment: opt_tok_view(*comment),
            },
            Line::ComplexStmt { text, comment } => LineM::ComplexStmt {
                text: lexemes_view(text@),
                comment: opt_tok_view(*comment),
            },
            Line::Empty => LineM::Empty,
        }
    }
}

/// The values of a sequence of lexemes.
pub open spec fn lexemes_view(s: Seq<Lexeme>) -> Seq<LexemeM> {
    s.map_values(|l: Lexeme| l@)
}

/// The values of a sequence of lines.
pub open spec fn lines_view(s: Seq<Line>) -> Seq<LineM> {
    s.map_values(|l: Line| l@)
}

impl Lexeme {
    /// The token of a `Normal` lexeme.
    pub fn unwrap_norm(&self) -> (r: &Token)
        requires
            self@ is Normal,
        ensures
            self@ == LexemeM::Normal(r@),
    {
        match self {
            Lexeme::Normal(tok) => tok,
            Lexeme::Orthogram(_) => unreached(),
        }
    }

    /// The orthogram of an `Orthogram` lexeme.
    pub fn unwrap_orthogram(&self) -> (r: &Orthogram)
        requires
            self@ is Orthogram,
        ensures
            self@ == LexemeM::Orthogram(r@),
    {
        match self {
            Lexeme::Orthogram(ortho) => ortho,
            Lexeme::Normal(_) => unreached(),
        }
    }
}

/// A whitespace-run lexeme: a plain token of the `space` kind.
pub open spec fn is_space_lexeme(l: LexemeM) -> bool {
    l matches LexemeM::Normal(t) && t.kind == TokenKind::space
}

/// `strip` with the leading whitespace runs removed.
pub open spec fn strip_front_m(ls: Seq<LexemeM>) -> Seq<LexemeM>
    decreases ls.len(),
{
    if ls.len() > 0 && is_space_lexeme(ls[0]) {
        strip_front_m(ls.drop_first())
    } else {
        ls
    }
}

/// `strip` with the trailing whitespace runs removed.
pub open spec fn strip_back_m(ls: Seq<LexemeM>) -> Seq<LexemeM>
    decreases ls.len(),
{
    if ls.len() > 0 && is_space_lexeme(ls[ls.len() - 1]) {
        strip_back_m(ls.drop_last())
    } else {
        ls
    }
}

/// The whitespace-stripping rule: the maximal prefix and the maximal
/// suffix of consecutive whitespace-run lexemes are removed; everything
/// in between is kept unchanged.
pub open spec fn strip_m(ls: Seq<LexemeM>) -> Seq<LexemeM> {
    strip_back_m(strip_front_m(ls))
}

/// The token sequence a buffer of plain lexemes stands for: the buffer
/// stripped, each lexeme unwrapped.
pub open spec fn to_text_m(ls: Seq<LexemeM>) -> Seq<TokenM> {
    strip_m(ls).map_values(|l: LexemeM| l->Normal_0)
}

proof fn lemma_strip_front_skip(ls: Seq<LexemeM>, k: int)
    requires
        0 <= k <= ls.len(),
        forall|i: int| 0 <= i < k ==> is_space_lexeme(ls[i]),
        k < ls.len() ==> !is_space_lexeme(ls[k]),
    ensures
        strip_front_m(ls) == ls.skip(k),
    decreases k,
{
    if k == 0 {
        assert(ls.skip(0) =~= ls);
    } else {
        let u = ls.drop_first();
        assert(forall|i: int| 0 <= i < k - 1 ==> is_space_lexeme(#[trigger] u[i]));
        lemma_strip_front_skip(u, k - 1);
        assert(u.skip(k - 1) =~= ls.skip(k));
    }
}

proof fn lemma_strip_back_take(ls: Seq<LexemeM>, m: int)
    requires
        0 <= m <= ls.len(),
        forall|i: int| m <= i < ls.len() ==> is_space_lexeme(ls[i]),
        m > 0 ==> !is_space_lexeme(ls[m - 1]),
    ensures
        strip_back_m(ls) == ls.take(m),
    decreases ls.len() - m,
{
    if m == ls.len() as int {
        assert(ls.take(m) =~= ls);
    } else {
        let u = ls.drop_last();
        lemma_strip_back_take(u, m);
        assert(u.take(m) =~= ls.take(m));
    }
}

/// Characterizes `strip_m` by the two indices an implementation computes.
pub proof fn lemma_strip_between(ls: Seq<LexemeM>, a: int, b: int)
    requires
        0 <= a <= b <= ls.len(),
        forall|i: int| 0 <= i < a ==> is_space_lexeme(ls[i]),
        forall|i: int| b <= i < ls.len() ==> is_space_lexeme(ls[i]),
        a < b ==> !is_space_lexeme(ls[a]) && !is_space_lexeme(ls[b - 1]),
        a == b ==> a == ls.len(),
    ensures
        strip_m(ls) == ls.subrange(a, b),
{
    lemma_strip_front_skip(ls, a);
    let v = ls.skip(a);
    assert(forall|i: int| b - a <= i < v.len() ==> is_space_lexeme(#[trigger] v[i]));
    lemma_strip_back_take(v, b - a);
    assert(v.take(b - a) =~= ls.subrange(a, b));
}

/// Clone a token sequence, keeping its value.
fn clone_text(v: &Vec<Token>) -> (r: Vec<Token>)
    ensures
        text_view(r@) == text_view(v@),
{
    let mut r: Vec<Token> = Vec::new();
    let mut i: usize = 0;
    while i < v.len()
        invariant
            i <= v@.len(),
            r@.len() == i,
            forall|j: int| 0 <= j < i ==> #[trigger] r@[j]@ == v@[j]@,
        decreases v@.len() - i,
    {
        r.push(v[i].clone());
        i = i + 1;
    }
    proof {
        assert(text_view(r@) =~= text_view(v@));
    }
    r
}

impl Clone for Orthogram {
    fn clone(&self) -> (r: Self)
        ensures
            r@ == self@,
    {
        match self {
            Orthogram::Gap { answer, comment } => {
                let c: Option<Text> = match comment {
                    Some(c) => Some(clone_text(c)),
                    None => None,
                };
                Orthogram::Gap { answer: clone_text(answer), comment: c }
            },
            Orthogram::Choice { right_answer, wrong_answers } => {
                let mut ws: Vec<Text> = Vec::new();
                let mut i: usize = 0;
                while i < wrong_answers.len()
                    invariant
                        i <= wrong_answers@.len(),
                        ws@.len() == i,
                        forall|j: int| 0 <= j < i ==> #[trigger] text_view(ws@[j]@) == text_view(
                            wrong_answers@[j]@,
                        ),
                    decreases wrong_answers@.len() - i,
                {
                    ws.push(clone_text(&wrong_answers[i]));
                    i = i + 1;
                }
                proof {
                    assert(ws@.map_values(|v: Vec<Token>| text_view(v@)) =~= wrong_answers@
                        .map_values(|v: Vec<Token>| text_view(v@)));
                }
                Orthogram::Choice { right_answer: clone_text(right_answer), wrong_answers: ws }
            },
        }
    }
}

impl Clone for Lexeme {
    fn clone(&self) -> (r: Self)
        ensures
            r@ == self@,
    {
        match self {
            Lexeme::Normal(t) => Lexeme::Normal(t.clone()),
            Lexeme::Orthogram(o) => Lexeme::Orthogram(o.clone()),
        }
    }
}

/// Whether a lexeme is a whitespace run.
fn is_space_lex(l: &Lexeme) -> (b: bool)
    ensures
        b == is_space_lexeme(l@),
{
    match l {
        Lexeme::Normal(t) => t.kind() == TokenKind::space,
        Lexeme::Orthogram(_) => false,
    }
}

/// Remove the maximal prefix and suffix of whitespace-run lexemes;
/// interior whitespace and every other lexeme are kept unchanged.
pub fn strip(lexemes: Vec<Lexeme>) -> (r: Vec<Lexeme>)
    ensures
        lexemes_view(r@) == strip_m(lexemes_view(lexemes@)),
{
    let n = lexemes.len();
    let mut a: usize = 0;
    loop
        invariant
            a <= n,
            n == lexemes@.len(),
            forall|i: int| 0 <= i < a ==> is_space_lexeme(#[trigger] lexemes@[i]@),
        ensures
            a <= n,
            forall|i: int| 0 <= i < a ==> is_space_lexeme(#[trigger] lexemes@[i]@),
            a < n ==> !is_space_lexeme(lexemes@[a as int]@),
        decreases n - a,
    {
        if a == n {
            break;
        }
        if !is_space_lex(&lexemes[a]) {
            break;
        }
        a = a + 1;
    }
    let mut b: usize = n;
    if a == n {
        b = a;
    } else {
        loop
            invariant
                a < b <= n,
                n == lexemes@.len(),
                !is_space_lexeme(lexemes@[a as int]@),
                forall|i: int| b <= i < n ==> is_space_lexeme(#[trigger] lexemes@[i]@),
            ensures
                a <= b <= n,
                forall|i: int| b <= i < n ==> is_space_lexeme(#[trigger] lexemes@[i]@),
                b > a ==> !is_space_lexeme(lexemes@[b - 1]@),
            decreases b,
        {
            if !is_space_lex(&lexemes[b - 1]) {
                break;
            }
            if b - 1 == a {
                // the forward scan stopped on a non-whitespace lexeme
                assert(false);
            }
            b = b - 1;
        }
    }
    let mut r: Vec<Lexeme> = Vec::new();
    let mut k: usize = a;
    while k < b
        invariant
            a <= k <= b <= n,
            n == lexemes@.len(),
            r@.len() == k - a,
            forall|j: int| 0 <= j < r@.len() ==> #[trigger] r@[j]@ == lexemes@[a + j]@,
        decreases b - k,
    {
        r.push(lexemes[k].clone());
        k = k + 1;
    }
    proof {
        lemma_strip_exec_result(lexemes_view(lexemes@), lexemes_view(r@), a as int, b as int);
    }
    r
}

proof fn lemma_strip_exec_result(ls: Seq<LexemeM>, rs: Seq<LexemeM>, a: int, b: int)
    requires
        0 <= a <= b <= ls.len(),
        rs.len() == b - a,
        forall|j: int| 0 <= j < rs.len() ==> #[trigger] rs[j] == ls[a + j],
        forall|i: int| 0 <= i < a ==> is_space_lexeme(#[trigger] ls[i]),
        forall|i: int| b <= i < ls.len() ==> is_space_lexeme(#[trigger] ls[i]),
        a < b ==> !is_space_lexeme(ls[a]) && !is_space_lexeme(ls[b - 1]),
        a == b ==> a == ls.len(),
    ensures
        rs == strip_m(ls),
{
    lemma_strip_between(ls, a, b);
    assert(rs =~= ls.subrange(a, b));
}

/// Flatten a buffer of plain lexemes into its stripped token sequence.
pub fn lexemes_to_text(lexemes: &Vec<Lexeme>) -> (r: Text)
    requires
        forall|i: int| 0 <= i < lexemes@.len() ==> lexemes@[i] is Normal,
    ensures
        text_view(r@) == to_text_m(lexemes_view(lexemes@)),
{
    let mut copy: Vec<Lexeme> = Vec::new();
    let mut i: usize = 0;
    while i < lexemes.len()
        invariant
            i <= lexemes@.len(),
            copy@.len() == i,
            forall|j: int| 0 <= j < i ==> #[trigger] copy@[j]@ == lexemes@[j]@,
        decreases lexemes@.len() - i,
    {
        copy.push(lexemes[i].clone());
        i = i + 1;
    }
    proof {
        assert(lexemes_view(copy@) =~= lexemes_view(lexemes@));
    }
    let stripped = strip(copy);
    let mut text: Vec<Token> = Vec::new();
    let mut k: usize = 0;
    proof {
        let ls = lexemes_view(lexemes@);
        let sm = strip_m(ls);
        lemma_strip_is_subseq_elements(ls);
        assert forall|i: int| 0 <= i < stripped@.len() implies #[trigger] stripped@[i]@
            is Normal by {
            assert(stripped@[i]@ == sm[i]);
            let j = choose|j: int| 0 <= j < ls.len() && #[trigger] sm[i] == ls[j];
            assert(ls[j] == lexemes@[j]@);
            assert(lexemes@[j] is Normal);
        }
    }
    while k < stripped.len()
        invariant
            k <= stripped@.len(),
            lexemes_view(stripped@) == strip_m(lexemes_view(lexemes@)),
            forall|i: int| 0 <= i < stripped@.len() ==> #[trigger] stripped@[i]@ is Normal,
            text@.len() == k,
            forall|j: int| 0 <= j < k ==> #[trigger] text@[j]@ == stripped@[j]@->Normal_0,
        decreases stripped@.len() - k,
    {
        let tok = stripped[k].unwrap_norm();
        text.push(tok.clone());
        k = k + 1;
    }
    proof {
        assert(text_view(text@) =~= lexemes_view(stripped@).map_values(|l: LexemeM| l->Normal_0));
    }
    text
}

/// The number of whitespace-run lexemes at the front of a sequence.
pub open spec fn lead_count(ls: Seq<LexemeM>) -> int
    decreases ls.len(),
{
    if ls.len() > 0 && is_space_lexeme(ls[0]) {
        1 + lead_count(ls.drop_first())
    } else {
        0
    }
}

/// The number of whitespace-run lexemes at the back of a sequence.
pub open spec fn trail_count(ls: Seq<LexemeM>) -> int
    decreases ls.len(),
{
    if ls.len() > 0 && is_space_lexeme(ls[ls.len() - 1]) {
        1 + trail_count(ls.drop_last())
    } else {
        0
    }
}

proof fn lemma_lead_count(ls: Seq<LexemeM>)
    ensures
        0 <= lead_count(ls) <= ls.len(),
        forall|i: int| 0 <= i < lead_count(ls) ==> is_space_lexeme(ls[i]),
        lead_count(ls) < ls.len() ==> !is_space_lexeme(ls[lead_count(ls)]),
    decreases ls.len(),
{
    if ls.len() > 0 && is_space_lexeme(ls[0]) {
        let u = ls.drop_first();
        lemma_lead_count(u);
        assert forall|i: int| 0 <= i < lead_count(ls) implies is_space_lexeme(ls[i]) by {
            if i > 0 {
                assert(u[i - 1] == ls[i]);
            }
        }
    }
}

proof fn lemma_trail_count(ls: Seq<LexemeM>)
    ensures
        0 <= trail_count(ls) <= ls.len(),
        forall|i: int| ls.len() - trail_count(ls) <= i < ls.len() ==> is_space_lexeme(ls[i]),
        trail_count(ls) < ls.len() ==> !is_space_lexeme(ls[ls.len() - trail_count(ls) - 1]),
    decreases ls.len(),
{
    if ls.len() > 0 && is_space_lexeme(ls[ls.len() - 1]) {
        let u = ls.drop_last();
        lemma_trail_count(u);
        assert(forall|i: int| 0 <= i < u.len() ==> u[i] == ls[i]);
    }
}

/// Where the strip of a sequence sits in it: the bounds of the kept
/// subrange.
pub open spec fn strip_bounds(ls: Seq<LexemeM>) -> (int, int) {
    let a = lead_count(ls);
    let u = ls.skip(a);
    (a, a + u.len() - trail_count(u))
}

/// The strip of a sequence is one of its contiguous subranges; what is
/// dropped on either side is whitespace runs only, and what is kept is
/// flanked by non-whitespace.  Stripping never removes interior content.
pub proof fn lemma_strip_structure(ls: Seq<LexemeM>)
    ensures
        ({
            let (a, b) = strip_bounds(ls);
            &&& 0 <= a <= b <= ls.len()
            &&& strip_m(ls) == ls.subrange(a, b)
            &&& forall|i: int| 0 <= i < a ==> is_space_lexeme(ls[i])
            &&& forall|i: int| b <= i < ls.len() ==> is_space_lexeme(ls[i])
            &&& a < b ==> !is_space_lexeme(ls[a]) && !is_space_lexeme(ls[b - 1])
        }),
{
    let a = lead_count(ls);
    lemma_lead_count(ls);
    let u = ls.skip(a);
    lemma_trail_count(u);
    let b = a + u.len() - trail_count(u);
    assert(forall|i: int| 0 <= i < u.len() ==> u[i] == ls[a + i]);
    if a < ls.len() && trail_count(u) == u.len() {
        assert(is_space_lexeme(u[0]));
        assert(!is_space_lexeme(ls[a]));
        assert(false);
    }
    assert forall|i: int| b <= i < ls.len() implies is_space_lexeme(ls[i]) by {
        assert(u[i - a] == ls[i]);
    }
    if a < b {
        assert(ls[b - 1] == u[b - 1 - a]);
    }
    lemma_strip_between(ls, a, b);
}

/// Every lexeme of the stripped sequence already stood in the input:
/// stripping never invents or rewrites content.
pub proof fn lemma_strip_is_subseq_elements(ls: Seq<LexemeM>)
    ensures
        forall|j: int| 0 <= j < strip_m(ls).len() ==> exists|i: int|
            0 <= i < ls.len() && #[trigger] strip_m(ls)[j] == ls[i],
{
    lemma_strip_structure(ls);
    let (a, b) = strip_bounds(ls);
    assert forall|j: int| 0 <= j < strip_m(ls).len() implies exists|i: int|
        0 <= i < ls.len() && #[trigger] strip_m(ls)[j] == ls[i] by {
        assert(strip_m(ls)[j] == ls[a + j]);
    }
}

/// Stripping is idempotent: a stripped sequence strips to itself.
pub proof fn lemma_strip_idempotent(ls: Seq<LexemeM>)
    ensures
        strip_m(strip_m(ls)) == strip_m(ls),
{
    lemma_strip_structure(ls);
    let (a, b) = strip_bounds(ls);
    let sub = strip_m(ls);
    assert(sub.len() == b - a);
    lemma_strip_between(sub, 0, sub.len() as int);
    assert(sub.subrange(0, sub.len() as int) =~= sub);
}

/// All meaningful tokens of a source, in order: what repeated calls of
/// `Lexer::lex` return before the end of input or an invalid character.
pub open spec fn toks_from(s: Seq<char>, i: int) -> Seq<TokenM>
    decreases s.len() - i
        when 0 <= i <= s.len()
        via toks_from_dec
{
    match lex_from(s, i, true) {
        LexStep::End => Seq::empty(),
        LexStep::Bad { at } => Seq::empty(),
        LexStep::Tok { kind, start, end } => seq![tokm(s, kind, start, end)] + toks_from(s, end),
    }
}

#[via_fn]
proof fn toks_from_dec(s: Seq<char>, i: int) {
    if 0 <= i <= s.len() {
        lemma_lex_from(s, i, true);
    }
}

/// The lexing failure a source ends in, if any: the invalid-character
/// diagnostic that cuts the token sequence short.
pub open spec fn lex_fail(s: Seq<char>, i: int) -> Option<ErrorM>
    decreases s.len() - i
        when 0 <= i <= s.len()
        via lex_fail_dec
{
    match lex_from(s, i, true) {
        LexStep::End => None,
        LexStep::Bad { at } => Some(invalid_m(s, at)),
        LexStep::Tok { kind, start, end } => lex_fail(s, end),
    }
}

#[via_fn]
proof fn lex_fail_dec(s: Seq<char>, i: int) {
    if 0 <= i <= s.len() {
        lemma_lex_from(s, i, true);
    }
}

/// The outcome of a parsing step: a value and the index of the next
/// unread token, or the diagnostic the step failed with.
pub ghost enum PRes<T> {
    Val { v: T, nj: int },
    Fail { e: ErrorM },
}

/// The index after reading the token at `j`; reading the synthetic
/// end-of-file token consumes nothing.
pub open spec fn adv(ts: Seq<TokenM>, j: int) -> int {
    if j < ts.len() {
        j + 1
    } else {
        j
    }
}

/// The token read at index `j`: a stored token, or past the end either
/// the recorded lexing failure or the synthetic end-of-file token.
pub open spec fn next_at(ts: Seq<TokenM>, fail: Option<ErrorM>, j: int) -> Result<TokenM, ErrorM> {
    if 0 <= j < ts.len() {
        Ok(ts[j])
    } else {
        match fail {
            Some(e) => Err(e),
            None => Ok(eof_token_m()),
        }
    }
}

/// Choice parsing, after the first pipe: strict text extends the current
/// wrong answer, a pipe closes it and opens the next, a closing bracket
/// closes the orthogram; anything else is rejected.
pub open spec fn sp_choice(
    ts: Seq<TokenM>,
    fail: Option<ErrorM>,
    j: int,
    right: Seq<TokenM>,
    wrongs: Seq<Seq<TokenM>>,
    cur: Seq<TokenM>,
) -> PRes<OrthoM>
    decreases ts.len() - j
        when 0 <= j <= ts.len()
{
    match next_at(ts, fail, j) {
        Err(e) => PRes::Fail { e },
        Ok(t) => if is_strict_text_kind(t.kind) {
            sp_choice(ts, fail, adv(ts, j), right, wrongs, cur.push(t))
        } else if t.kind == TokenKind::pipe {
            sp_choice(ts, fail, adv(ts, j), right, wrongs.push(cur), Seq::empty())
        } else if t.kind == TokenKind::r_square {
            PRes::Val {
                v: OrthoM::Choice { right_answer: right, wrong_answers: wrongs.push(cur) },
                nj: adv(ts, j),
            }
        } else {
            PRes::Fail {
                e: ErrorM::UnexpectedToken { found: t, expected: Expectation::PipeOrClose },
            }
        },
    }
}

/// Gap-comment parsing, after the colon: general text extends the
/// comment; the first non-text token must close the bracket.
pub open spec fn sp_ortho_comment(
    ts: Seq<TokenM>,
    fail: Option<ErrorM>,
    j: int,
    answer: Seq<TokenM>,
    acc: Seq<TokenM>,
) -> PRes<OrthoM>
    decreases ts.len() - j
        when 0 <= j <= ts.len()
{
    match next_at(ts, fail, j) {
        Err(e) => PRes::Fail { e },
        Ok(t) => if is_text_kind(t.kind) {
            sp_ortho_comment(ts, fail, adv(ts, j), answer, acc.push(t))
        } else if t.kind == TokenKind::r_square {
            PRes::Val { v: OrthoM::Gap { answer, comment: Some(acc) }, nj: adv(ts, j) }
        } else {
            PRes::Fail {
                e: ErrorM::UnexpectedToken {
                    found: t,
                    expected: Expectation::Kind(TokenKind::r_square),
                },
            }
        },
    }
}

/// Orthogram parsing, after the opening bracket: strict text extends the
/// answer; a colon opens a gap comment, a closing bracket closes a bare
/// gap, a pipe turns the answer into the right answer of a choice.
pub open spec fn sp_orthogram(
    ts: Seq<TokenM>,
    fail: Option<ErrorM>,
    j: int,
    answer: Seq<TokenM>,
) -> PRes<OrthoM>
    decreases ts.len() - j
        when 0 <= j <= ts.len()
{
    match next_at(ts, fail, j) {
        Err(e) => PRes::Fail { e },
        Ok(t) => if is_strict_text_kind(t.kind) {
            sp_orthogram(ts, fail, adv(ts, j), answer.push(t))
        } else if t.kind == TokenKind::colon {
            sp_ortho_comment(ts, fail, adv(ts, j), answer, Seq::empty())
        } else if t.kind == TokenKind::r_square {
            PRes::Val { v: OrthoM::Gap { answer, comment: None }, nj: adv(ts, j) }
        } else if t.kind == TokenKind::pipe {
            sp_choice(ts, fail, adv(ts, j), answer, Seq::empty(), Seq::empty())
        } else {
            PRes::Fail { e: ErrorM::ExpectedText { found: t } }
        },
    }
}

pub proof fn lemma_sp_choice_progress(
    ts: Seq<TokenM>,
    fail: Option<ErrorM>,
    j: int,
    right: Seq<TokenM>,
    wrongs: Seq<Seq<TokenM>>,
    cur: Seq<TokenM>,
)
    requires
        0 <= j <= ts.len(),
    ensures
        sp_choice(ts, fail, j, right, wrongs, cur) matches PRes::Val { nj, .. } ==> j < nj
            <= ts.len(),
    decreases ts.len() - j,
{
    match next_at(ts, fail, j) {
        Err(e) => {},
        Ok(t) => {
            if is_strict_text_kind(t.kind) {
                lemma_sp_choice_progress(ts, fail, adv(ts, j), right, wrongs, cur.push(t));
            } else if t.kind == TokenKind::pipe {
                lemma_sp_choice_progress(ts, fail, adv(ts, j), right, wrongs.push(cur), Seq::empty());
            }
        },
    }
}

pub proof fn lemma_sp_ortho_comment_progress(
    ts: Seq<TokenM>,
    fail: Option<ErrorM>,
    j: int,
    answer: Seq<TokenM>,
    acc: Seq<TokenM>,
)
    requires
        0 <= j <= ts.len(),
    ensures
        sp_ortho_comment(ts, fail, j, answer, acc) matches PRes::Val { nj, .. } ==> j < nj
            <= ts.len(),
    decreases ts.len() - j,
{
    match next_at(ts, fail, j) {
        Err(e) => {},
        Ok(t) => {
            if is_text_kind(t.kind) {
                lemma_sp_ortho_comment_progress(ts, fail, adv(ts, j), answer, acc.push(t));
            }
        },
    }
}

pub proof fn lemma_sp_orthogram_progress(
    ts: Seq<TokenM>,
    fail: Option<ErrorM>,
    j: int,
    answer: Seq<TokenM>,
)
    requires
        0 <= j <= ts.len(),
    ensures
        sp_orthogram(ts, fail, j, answer) matches PRes::Val { nj, .. } ==> j < nj <= ts.len(),
    decreases ts.len() - j,
{
    match next_at(ts, fail, j) {
        Err(e) => {},
        Ok(t) => {
            if is_strict_text_kind(t.kind) {
                lemma_sp_orthogram_progress(ts, fail, adv(ts, j), answer.push(t));
            } else if t.kind == TokenKind::colon {
                lemma_sp_ortho_comment_progress(ts, fail, adv(ts, j), answer, Seq::empty());
            } else if t.kind == TokenKind::pipe {
                lemma_sp_choice_progress(ts, fail, adv(ts, j), answer, Seq::empty(), Seq::empty());
            }
        },
    }
}

/// Complex-statement parsing, after the first orthogram: text and further
/// orthograms extend the buffer; a comment or the end of the line closes
/// the statement with the buffer stripped.
pub open spec fn sp_complex_loop(
    ts: Seq<TokenM>,
    fail: Option<ErrorM>,
    j: int,
    acc: Seq<LexemeM>,
) -> PRes<LineM>
    decreases ts.len() - j
        when 0 <= j <= ts.len()
        via sp_complex_loop_dec
{
    match next_at(ts, fail, j) {
        Err(e) => PRes::Fail { e },
        Ok(t) => if is_text_kind(t.kind) {
            sp_complex_loop(ts, fail, adv(ts, j), acc.push(LexemeM::Normal(t)))
        } else if t.kind == TokenKind::pub_comment {
            match next_at(ts, fail, adv(ts, j)) {
                Err(e) => PRes::Fail { e },
                Ok(t2) => if is_eol_kind(t2.kind) {
                    PRes::Val {
                        v: LineM::ComplexStmt { text: strip_m(acc), comment: Some(t) },
                        nj: adv(ts, adv(ts, j)),
                    }
                } else {
                    PRes::Fail { e: ErrorM::ExpectedEndOfLine { found: t2 } }
                },
            }
        } else if is_eol_kind(t.kind) {
            PRes::Val {
                v: LineM::ComplexStmt { text: strip_m(acc), comment: None },
                nj: adv(ts, j),
            }
        } else if t.kind == TokenKind::l_square {
            match sp_orthogram(ts, fail, adv(ts, j), Seq::empty()) {
                PRes::Fail { e } => PRes::Fail { e },
                PRes::Val { v: o, nj } => sp_complex_loop(
                    ts,
                    fail,
                    nj,
                    acc.push(LexemeM::Orthogram(o)),
                ),
            }
        } else {
            PRes::Fail { e: ErrorM::ExpectedText { found: t } }
        },
    }
}

#[via_fn]
proof fn sp_complex_loop_dec(ts: Seq<TokenM>, fail: Option<ErrorM>, j: int, acc: Seq<LexemeM>) {
    if 0 <= j <= ts.len() {
        lemma_sp_orthogram_progress(ts, fail, adv(ts, j), Seq::empty());
    }
}

/// Complex-statement parsing, entered right after an opening bracket:
/// one orthogram, then the loop above.
pub open spec fn sp_complex(
    ts: Seq<TokenM>,
    fail: Option<ErrorM>,
    j: int,
    acc: Seq<LexemeM>,
) -> PRes<LineM> {
    match sp_orthogram(ts, fail, j, Seq::empty()) {
        PRes::Fail { e } => PRes::Fail { e },
        PRes::Val { v: o, nj } => sp_complex_loop(ts, fail, nj, acc.push(LexemeM::Orthogram(o))),
    }
}

/// Translation parsing, after the arrow: text extends the translation;
/// a public comment (followed by the end of the line) or the end of the
/// line closes the statement.
pub open spec fn sp_translation(
    ts: Seq<TokenM>,
    fail: Option<ErrorM>,
    j: int,
    original: Seq<TokenM>,
    acc: Seq<LexemeM>,
) -> PRes<LineM>
    decreases ts.len() - j
        when 0 <= j <= ts.len()
{
    match next_at(ts, fail, j) {
        Err(e) => PRes::Fail { e },
        Ok(t) => if is_text_kind(t.kind) {
            sp_translation(ts, fail, adv(ts, j), original, acc.push(LexemeM::Normal(t)))
        } else if t.kind == TokenKind::pub_comment {
            match next_at(ts, fail, adv(ts, j)) {
                Err(e) => PRes::Fail { e },
                Ok(t2) => if is_eol_kind(t2.kind) {
                    PRes::Val {
                        v: LineM::TranslationStmt {
                            original,
                            translation: to_text_m(acc),
                            comment: Some(t),
                        },
                        nj: adv(ts, adv(ts, j)),
                    }
                } else {
                    PRes::Fail { e: ErrorM::ExpectedEndOfLine { found: t2 } }
                },
            }
        } else if is_eol_kind(t.kind) {
            PRes::Val {
                v: LineM::TranslationStmt {
                    original,
                    translation: to_text_m(acc),
                    comment: None,
                },
                nj: adv(ts, j),
            }
        } else {
            PRes::Fail { e: ErrorM::ExpectedText { found: t } }
        },
    }
}

/// Statement parsing, after the first token was pushed: text extends the
/// buffer; a comment or the end of the line closes a plain statement, an
/// arrow opens the translation side, a bracket opens an orthogram.
pub open spec fn sp_stmt_loop(
    ts: Seq<TokenM>,
    fail: Option<ErrorM>,
    j: int,
    acc: Seq<LexemeM>,
) -> PRes<LineM>
    decreases ts.len() - j
        when 0 <= j <= ts.len()
{
    match next_at(ts, fail, j) {
        Err(e) => PRes::Fail { e },
        Ok(t) => if is_text_kind(t.kind) {
            sp_stmt_loop(ts, fail, adv(ts, j), acc.push(LexemeM::Normal(t)))
        } else if is_comment_kind(t.kind) || is_eol_kind(t.kind) {
            PRes::Val {
                v: LineM::PlainStmt {
                    text: to_text_m(acc),
                    comment: if t.kind == TokenKind::pub_comment {
                        Some(t)
                    } else {
                        None
                    },
                },
                nj: adv(ts, j),
            }
        } else if t.kind == TokenKind::arrow {
            sp_translation(ts, fail, adv(ts, j), to_text_m(acc), Seq::empty())
        } else if t.kind == TokenKind::l_square {
            sp_complex(ts, fail, adv(ts, j), acc)
        } else {
            PRes::Fail { e: ErrorM::ExpectedText { found: t } }
        },
    }
}

/// Kinds that may open a statement.
pub open spec fn is_stmt_start_kind(k: TokenKind) -> bool {
    match k {
        TokenKind::word | TokenKind::punct | TokenKind::number | TokenKind::other
            | TokenKind::colon | TokenKind::pipe | TokenKind::l_square => true,
        _ => false,
    }
}

/// Statement parsing, given its already-read first token.
pub open spec fn sp_stmt(ts: Seq<TokenM>, fail: Option<ErrorM>, j: int, first: TokenM) -> PRes<
    LineM,
> {
    if first.kind == TokenKind::l_square {
        sp_complex(ts, fail, j, Seq::empty())
    } else {
        sp_stmt_loop(ts, fail, j, seq![LexemeM::Normal(first)])
    }
}

/// One line: dispatch on the kind of its first token.  A public comment
/// must be followed by the end of the line; statement kinds parse a
/// statement; an arrow or a closing bracket cannot open a line; a line
/// break, a skipped comment or bare whitespace yields an empty line; the
/// end of file ends the parse.
pub open spec fn sp_parse_line(ts: Seq<TokenM>, fail: Option<ErrorM>, j: int) -> PRes<
    Option<LineM>,
> {
    match next_at(ts, fail, j) {
        Err(e) => PRes::Fail { e },
        Ok(t) => if t.kind == TokenKind::pub_comment {
            match next_at(ts, fail, adv(ts, j)) {
                Err(e) => PRes::Fail { e },
                Ok(t2) => if is_eol_kind(t2.kind) {
                    PRes::Val { v: Some(LineM::PubComment(t)), nj: adv(ts, adv(ts, j)) }
                } else {
                    PRes::Fail { e: ErrorM::ExpectedEndOfLine { found: t2 } }
                },
            }
        } else if is_stmt_start_kind(t.kind) {
            match sp_stmt(ts, fail, adv(ts, j), t) {
                PRes::Fail { e } => PRes::Fail { e },
                PRes::Val { v, nj } => PRes::Val { v: Some(v), nj },
            }
        } else if t.kind == TokenKind::arrow || t.kind == TokenKind::r_square {
            PRes::Fail { e: ErrorM::ExpectedText { found: t } }
        } else if t.kind == TokenKind::newline || t.kind == TokenKind::comment || t.kind
            == TokenKind::space {
            PRes::Val { v: Some(LineM::Empty), nj: adv(ts, j) }
        } else {
            PRes::Val { v: None, nj: adv(ts, j) }
        },
    }
}

pub proof fn lemma_sp_complex_loop_progress(
    ts: Seq<TokenM>,
    fail: Option<ErrorM>,
    j: int,
    acc: Seq<LexemeM>,
)
    requires
        0 <= j <= ts.len(),
    ensures
        sp_complex_loop(ts, fail, j, acc) matches PRes::Val { nj, .. } ==> j <= nj <= ts.len(),
    decreases ts.len() - j,
{
    match next_at(ts, fail, j) {
        Err(e) => {},
        Ok(t) => {
            if is_text_kind(t.kind) {
                lemma_sp_complex_loop_progress(ts, fail, adv(ts, j), acc.push(LexemeM::Normal(t)));
            } else if t.kind == TokenKind::l_square {
                lemma_sp_orthogram_progress(ts, fail, adv(ts, j), Seq::empty());
                if let PRes::Val { v: o, nj } = sp_orthogram(ts, fail, adv(ts, j), Seq::empty()) {
                    lemma_sp_complex_loop_progress(ts, fail, nj, acc.push(LexemeM::Orthogram(o)));
                }
            }
        },
    }
}

pub proof fn lemma_sp_complex_progress(
    ts: Seq<TokenM>,
    fail: Option<ErrorM>,
    j: int,
    acc: Seq<LexemeM>,
)
    requires
        0 <= j <= ts.len(),
    ensures
        sp_complex(ts, fail, j, acc) matches PRes::Val { nj, .. } ==> j < nj <= ts.len(),
{
    lemma_sp_orthogram_progress(ts, fail, j, Seq::empty());
    if let PRes::Val { v: o, nj } = sp_orthogram(ts, fail, j, Seq::empty()) {
        lemma_sp_complex_loop_progress(ts, fail, nj, acc.push(LexemeM::Orthogram(o)));
    }
}

pub proof fn lemma_sp_translation_progress(
    ts: Seq<TokenM>,
    fail: Option<ErrorM>,
    j: int,
    original: Seq<TokenM>,
    acc: Seq<LexemeM>,
)
    requires
        0 <= j <= ts.len(),
    ensures
        sp_translation(ts, fail, j, original, acc) matches PRes::Val { nj, .. } ==> j <= nj
            <= ts.len(),
    decreases ts.len() - j,
{
    match next_at(ts, fail, j) {
        Err(e) => {},
        Ok(t) => {
            if is_text_kind(t.kind) {
                lemma_sp_translation_progress(
                    ts,
                    fail,
                    adv(ts, j),
                    original,
                    acc.push(LexemeM::Normal(t)),
                );
            }
        },
    }
}

pub proof fn lemma_sp_stmt_loop_progress(
    ts: Seq<TokenM>,
    fail: Option<ErrorM>,
    j: int,
    acc: Seq<LexemeM>,
)
    requires
        0 <= j <= ts.len(),
    ensures
        sp_stmt_loop(ts, fail, j, acc) matches PRes::Val { nj, .. } ==> j <= nj <= ts.len(),
    decreases ts.len() - j,
{
    match next_at(ts, fail, j) {
        Err(e) => {},
        Ok(t) => {
            if is_text_kind(t.kind) {
                lemma_sp_stmt_loop_progress(ts, fail, adv(ts, j), acc.push(LexemeM::Normal(t)));
            } else if t.kind == TokenKind::arrow {
                lemma_sp_translation_progress(ts, fail, adv(ts, j), to_text_m(acc), Seq::empty());
            } else if t.kind == TokenKind::l_square {
                lemma_sp_complex_progress(ts, fail, adv(ts, j), acc);
            }
        },
    }
}

pub proof fn lemma_sp_parse_line_progress(ts: Seq<TokenM>, fail: Option<ErrorM>, j: int)
    requires
        0 <= j <= ts.len(),
    ensures
        sp_parse_line(ts, fail, j) matches PRes::Val { v: Some(l), nj } ==> j < nj <= ts.len(),
        sp_parse_line(ts, fail, j) matches PRes::Val { v: None, nj } ==> j <= nj <= ts.len(),
{
    match next_at(ts, fail, j) {
        Err(e) => {},
        Ok(t) => {
            if is_stmt_start_kind(t.kind) {
                if t.kind == TokenKind::l_square {
                    lemma_sp_complex_progress(ts, fail, adv(ts, j), Seq::empty());
                } else {
                    lemma_sp_stmt_loop_progress(
                        ts,
                        fail,
                        adv(ts, j),
                        seq![LexemeM::Normal(t)],
                    );
                }
            }
        },
    }
}

/// The whole file: lines parsed one after another until the end of file.
pub open spec fn sp_parse(ts: Seq<TokenM>, fail: Option<ErrorM>, j: int) -> PRes<Seq<LineM>>
    decreases ts.len() - j
        when 0 <= j <= ts.len()
        via sp_parse_dec
{
    match sp_parse_line(ts, fail, j) {
        PRes::Fail { e } => PRes::Fail { e },
        PRes::Val { v, nj } => match v {
            None => PRes::Val { v: Seq::empty(), nj },
            Some(l) => match sp_parse(ts, fail, nj) {
                PRes::Fail { e } => PRes::Fail { e },
                PRes::Val { v: rest, nj: fj } => PRes::Val { v: seq![l] + rest, nj: fj },
            },
        },
    }
}

#[via_fn]
proof fn sp_parse_dec(ts: Seq<TokenM>, fail: Option<ErrorM>, j: int) {
    if 0 <= j <= ts.len() {
        lemma_sp_parse_line_progress(ts, fail, j);
    }
}


/// The value of an optional line.
pub open spec fn opt_line_view(o: Option<Line>) -> Option<LineM> {
    match o {
        Some(l) => Some(l@),
        None => None,
    }
}

/// The recursive-descent parser: a cursor over the token sequence of one
/// source buffer.
pub struct Parser<'s> {
    diag: Diag<'s>,
    tokens: Vec<Token>,
    lex_err: Option<ParseError>,
    idx: usize,
    cur_line: Vec<Lexeme>,
}

impl<'s> Parser<'s> {
    /// The source text being parsed.
    pub closed spec fn src(&self) -> Seq<char> {
        self.diag.spec_source()
    }

    /// The meaningful tokens of the source, as the parser reads them.
    pub closed spec fn toks(&self) -> Seq<TokenM> {
        self.tokens@.map_values(|t: Token| t@)
    }

    /// The lexing failure the token sequence ends in, if any.
    pub closed spec fn failm(&self) -> Option<ErrorM> {
        match self.lex_err {
            Some(e) => Some(e@),
            None => None,
        }
    }

    /// The index of the next unread token.
    pub closed spec fn spec_idx(&self) -> int {
        self.idx as int
    }

    /// The values of the per-line lexeme buffer.
    closed spec fn buf(&self) -> Seq<LexemeM> {
        lexemes_view(self.cur_line@)
    }

    /// Every lexeme of the buffer is a plain token.
    closed spec fn buf_normal(&self) -> bool {
        forall|i: int| 0 <= i < self.cur_line@.len() ==> self.cur_line@[i] is Normal
    }

    /// The token sequence and recorded failure are exactly those of the
    /// source text.
    pub closed spec fn wf(&self) -> bool {
        &&& self.toks() == toks_from(self.src(), 0)
        &&& self.failm() == lex_fail(self.src(), 0)
        &&& self.idx <= self.tokens@.len()
    }

    /// Tokenize the whole source; lexing stops at the first invalid
    /// character, whose diagnostic is replayed when the parse reaches it.
    pub fn new(source_name: &'s str, source: &'s str) -> (p: Parser<'s>)
        ensures
            p.wf(),
            p.src() == source@,
            p.toks() == toks_from(source@, 0),
            p.failm() == lex_fail(source@, 0),
            p.spec_idx() == 0,
    {
        let mut lexer = Lexer::new(source_name, source);
        lexer.skip_comments(true);
        let mut tokens: Vec<Token> = Vec::new();
        let mut lex_err: Option<ParseError> = None;
        proof {
            assert(tokens@.map_values(|t: Token| t@) =~= Seq::<TokenM>::empty());
        }
        loop
            invariant_except_break
                lex_err is None,
            invariant
                lexer.wf(),
                lexer.src() == source@,
                lexer.spec_skip() == true,
                0 <= lexer.spec_pos() <= source@.len(),
                toks_from(source@, 0) == tokens@.map_values(|t: Token| t@) + toks_from(
                    source@,
                    lexer.spec_pos(),
                ),
                lex_fail(source@, 0) == lex_fail(source@, lexer.spec_pos()),
            ensures
                tokens@.map_values(|t: Token| t@) == toks_from(source@, 0),
                match lex_err {
                    Some(e) => lex_fail(source@, 0) == Some(e@),
                    None => lex_fail(source@, 0) is None,
                },
            decreases source@.len() - lexer.spec_pos(),
        {
            let ghost pos0 = lexer.spec_pos();
            let ghost pre = tokens@.map_values(|t: Token| t@);
            proof {
                lemma_lex_from(source@, pos0, true);
            }
            match lexer.lex() {
                Ok(t) => {
                    if t.kind() == TokenKind::eof {
                        proof {
                            assert(lex_from(source@, pos0, true) is End);
                            assert(pre + toks_from(source@, pos0) =~= pre);
                        }
                        break;
                    }
                    proof {
                        assert(lex_from(source@, pos0, true) matches LexStep::Tok { .. });
                    }
                    tokens.push(t);
                    proof {
                        if let LexStep::Tok { kind, start, end } = lex_from(source@, pos0, true) {
                            assert(0 <= end <= source@.len());
                            assert(tokens@.map_values(|t2: Token| t2@) =~= pre.push(
                                tokm(source@, kind, start, end),
                            ));
                            assert(pre + (seq![tokm(source@, kind, start, end)] + toks_from(
                                source@,
                                end,
                            )) =~= tokens@.map_values(|t2: Token| t2@) + toks_from(source@, end));
                        }
                    }
                },
                Err(e) => {
                    proof {
                        assert(lex_from(source@, pos0, true) matches LexStep::Bad { .. });
                        assert(pre + toks_from(source@, pos0) =~= pre);
                    }
                    lex_err = Some(e);
                    break;
                },
            }
        }
        Parser {
            diag: Diag::new(source_name, source),
            tokens,
            lex_err,
            idx: 0,
            cur_line: Vec::new(),
        }
    }

    /// Read one token: a stored one, or past the end the recorded lexing
    /// failure or the synthetic end-of-file token.
    fn next_token(&mut self) -> (r: Result<Token, ParseError>)
        requires
            old(self).wf(),
        ensures
            final(self).wf(),
            final(self).src() == old(self).src(),
            final(self).buf() == old(self).buf(),
            final(self).buf_normal() == old(self).buf_normal(),
            final(self).diag == old(self).diag,
            match next_at(old(self).toks(), old(self).failm(), old(self).spec_idx()) {
                Ok(tm) => r matches Ok(t) && t@ == tm && final(self).spec_idx() == adv(
                    old(self).toks(),
                    old(self).spec_idx(),
                ),
                Err(em) => r matches Err(e) && e@ == em && final(self).spec_idx() == old(
                    self,
                ).spec_idx(),
            },
    {
        if self.idx < self.tokens.len() {
            let t = self.tokens[self.idx].clone();
            self.idx = self.idx + 1;
            Ok(t)
        } else {
            match &self.lex_err {
                Some(e) => Err(e.clone()),
                None => Ok(Token::eof()),
            }
        }
    }

    /// Require the next token to end the line.
    fn expect_eol_tok(&mut self) -> (r: Result<(), ParseError>)
        requires
            old(self).wf(),
        ensures
            final(self).wf(),
            final(self).src() == old(self).src(),
            final(self).buf() == old(self).buf(),
            final(self).buf_normal() == old(self).buf_normal(),
            final(self).diag == old(self).diag,
            match next_at(old(self).toks(), old(self).failm(), old(self).spec_idx()) {
                Err(em) => r matches Err(e) && e@ == em,
                Ok(tm) => if is_eol_kind(tm.kind) {
                    r is Ok && final(self).spec_idx() == adv(old(self).toks(), old(self).spec_idx())
                } else {
                    r matches Err(e) && e@ == (ErrorM::ExpectedEndOfLine { found: tm })
                },
            },
    {
        match self.next_token() {
            Err(e) => Err(e),
            Ok(t) => {
                if t.is_eol() {
                    Ok(())
                } else {
                    Err(self.diag.expected_eol(t))
                }
            },
        }
    }
}


impl<'s> Parser<'s> {
    /// Parse one orthogram, entered right after its opening bracket.
    fn parse_orthogram(&mut self) -> (r: Result<Orthogram, ParseError>)
        requires
            old(self).wf(),
        ensures
            final(self).wf(),
            final(self).src() == old(self).src(),
            final(self).buf() == old(self).buf(),
            final(self).buf_normal() == old(self).buf_normal(),
            final(self).diag == old(self).diag,
            match sp_orthogram(
                old(self).toks(),
                old(self).failm(),
                old(self).spec_idx(),
                Seq::empty(),
            ) {
                PRes::Val { v, nj } => r matches Ok(o) && o@ == v && final(self).spec_idx() == nj,
                PRes::Fail { e } => r matches Err(pe) && pe@ == e,
            },
    {
        let ghost ts = self.toks();
        let ghost fl = self.failm();
        let ghost j0 = self.spec_idx();
        let mut answer: Vec<Token> = Vec::new();
        proof {
            assert(text_view(answer@) =~= Seq::<TokenM>::empty());
        }
        loop
            invariant
                self.wf(),
                self.src() == old(self).src(),
                self.buf() == old(self).buf(),
                self.buf_normal() == old(self).buf_normal(),
                self.diag == old(self).diag,
                ts == old(self).toks(),
                fl == old(self).failm(),
                j0 == old(self).spec_idx(),
                ts == self.toks(),
                fl == self.failm(),
                0 <= self.spec_idx() <= ts.len(),
                sp_orthogram(ts, fl, j0, Seq::empty()) == sp_orthogram(
                    ts,
                    fl,
                    self.spec_idx(),
                    text_view(answer@),
                ),
            decreases ts.len() - self.spec_idx(),
        {
            let ghost jcur = self.spec_idx();
            let ghost av = text_view(answer@);
            let token = match self.next_token() {
                Ok(t) => t,
                Err(e) => {
                    return Err(e);
                },
            };
            if token.is_strict_text() {
                answer.push(token);
                proof {
                    assert(text_view(answer@) =~= av.push(ts[jcur]));
                }
            } else if token.kind() == TokenKind::colon {
                let mut comment: Vec<Token> = Vec::new();
                proof {
                    assert(text_view(comment@) =~= Seq::<TokenM>::empty());
                }
                loop
                    invariant
                        self.wf(),
                        self.src() == old(self).src(),
                        self.buf() == old(self).buf(),
                        self.buf_normal() == old(self).buf_normal(),
                        self.diag == old(self).diag,
                        ts == old(self).toks(),
                        fl == old(self).failm(),
                        j0 == old(self).spec_idx(),
                        ts == self.toks(),
                        fl == self.failm(),
                        0 <= self.spec_idx() <= ts.len(),
                        sp_orthogram(ts, fl, j0, Seq::empty()) == sp_ortho_comment(
                            ts,
                            fl,
                            self.spec_idx(),
                            text_view(answer@),
                            text_view(comment@),
                        ),
                    decreases ts.len() - self.spec_idx(),
                {
                    let ghost jc = self.spec_idx();
                    let ghost cv = text_view(comment@);
                    let t2 = match self.next_token() {
                        Ok(t) => t,
                        Err(e) => {
                            return Err(e);
                        },
                    };
                    if t2.is_text() {
                        comment.push(t2);
                        proof {
                            assert(text_view(comment@) =~= cv.push(ts[jc]));
                        }
                    } else if t2.kind() == TokenKind::r_square {
                        return Ok(Orthogram::Gap { answer, comment: Some(comment) });
                    } else {
                        return Err(self.diag.unexpected_token(
                            t2,
                            Expectation::Kind(TokenKind::r_square),
                        ));
                    }
                }
            } else if token.kind() == TokenKind::r_square {
                return Ok(Orthogram::Gap { answer, comment: None });
            } else if token.kind() == TokenKind::pipe {
                return self.parse_choice_orthogram(answer);
            } else {
                return Err(self.diag.expected_text(token));
            }
        }
    }

    /// Parse the wrong answers of a choice orthogram; the answer read so
    /// far becomes the right one.
    fn parse_choice_orthogram(&mut self, right_answer: Text) -> (r: Result<Orthogram, ParseError>)
        requires
            old(self).wf(),
        ensures
            final(self).wf(),
            final(self).src() == old(self).src(),
            final(self).buf() == old(self).buf(),
            final(self).buf_normal() == old(self).buf_normal(),
            final(self).diag == old(self).diag,
            match sp_choice(
                old(self).toks(),
                old(self).failm(),
                old(self).spec_idx(),
                text_view(right_answer@),
                Seq::empty(),
                Seq::empty(),
            ) {
                PRes::Val { v, nj } => r matches Ok(o) && o@ == v && final(self).spec_idx() == nj,
                PRes::Fail { e } => r matches Err(pe) && pe@ == e,
            },
    {
        let ghost ts = self.toks();
        let ghost fl = self.failm();
        let ghost j0 = self.spec_idx();
        let ghost rv = text_view(right_answer@);
        let mut wrong_answers: Vec<Text> = Vec::new();
        let mut wrong_answer: Vec<Token> = Vec::new();
        proof {
            assert(text_view(wrong_answer@) =~= Seq::<TokenM>::empty());
            assert(wrong_answers@.map_values(|v: Vec<Token>| text_view(v@)) =~= Seq::<
                Seq<TokenM>,
            >::empty());
        }
        loop
            invariant
                self.wf(),
                self.src() == old(self).src(),
                self.buf() == old(self).buf(),
                self.buf_normal() == old(self).buf_normal(),
                self.diag == old(self).diag,
                ts == old(self).toks(),
                fl == old(self).failm(),
                j0 == old(self).spec_idx(),
                rv == text_view(right_answer@),
                ts == self.toks(),
                fl == self.failm(),
                0 <= self.spec_idx() <= ts.len(),
                sp_choice(ts, fl, j0, rv, Seq::empty(), Seq::empty()) == sp_choice(
                    ts,
                    fl,
                    self.spec_idx(),
                    rv,
                    wrong_answers@.map_values(|v: Vec<Token>| text_view(v@)),
                    text_view(wrong_answer@),
                ),
            decreases ts.len() - self.spec_idx(),
        {
            let ghost jcur = self.spec_idx();
            let ghost wsv = wrong_answers@.map_values(|v: Vec<Token>| text_view(v@));
            let ghost cv = text_view(wrong_answer@);
            let token = match self.next_token() {
                Ok(t) => t,
                Err(e) => {
                    return Err(e);
                },
            };
            if token.is_strict_text() {
                wrong_answer.push(token);
                proof {
                    assert(text_view(wrong_answer@) =~= cv.push(ts[jcur]));
                }
            } else if token.kind() == TokenKind::pipe {
                wrong_answers.push(wrong_answer);
                wrong_answer = Vec::new();
                proof {
                    assert(wrong_answers@.map_values(|v: Vec<Token>| text_view(v@)) =~= wsv.push(
                        cv,
                    ));
                    assert(text_view(wrong_answer@) =~= Seq::<TokenM>::empty());
                }
            } else if token.kind() == TokenKind::r_square {
                wrong_answers.push(wrong_answer);
                proof {
                    assert(wrong_answers@.map_values(|v: Vec<Token>| text_view(v@)) =~= wsv.push(
                        cv,
                    ));
                }
                return Ok(Orthogram::Choice { right_answer, wrong_answers });
            } else {
                return Err(self.diag.unexpected_token(token, Expectation::PipeOrClose));
            }
        }
    }
}


impl<'s> Parser<'s> {
    /// Close a plain statement on its final token: the buffer, stripped,
    /// becomes the text; a public comment is attached, any other closer
    /// is dropped.
    fn parse_plain_stmt(&mut self, last_token: Token) -> (r: Result<Line, ParseError>)
        requires
            old(self).wf(),
            old(self).buf_normal(),
            is_comment_kind(last_token@.kind) || is_eol_kind(last_token@.kind),
        ensures
            final(self).wf(),
            final(self).src() == old(self).src(),
            final(self).spec_idx() == old(self).spec_idx(),
            final(self).diag == old(self).diag,
            r matches Ok(l) && l@ == (LineM::PlainStmt {
                text: to_text_m(old(self).buf()),
                comment: if last_token@.kind == TokenKind::pub_comment {
                    Some(last_token@)
                } else {
                    None
                },
            }),
    {
        let text = lexemes_to_text(&self.cur_line);
        self.cur_line.clear();
        match last_token.kind() {
            TokenKind::pub_comment => Ok(Line::PlainStmt { text, comment: Some(last_token) }),
            _ => Ok(Line::PlainStmt { text, comment: None }),
        }
    }

    /// Parse the translation side of a statement, entered right after
    /// the arrow; the buffer holds the original side.
    fn parse_translation_stmt(&mut self) -> (r: Result<Line, ParseError>)
        requires
            old(self).wf(),
            old(self).buf_normal(),
        ensures
            final(self).wf(),
            final(self).src() == old(self).src(),
            final(self).diag == old(self).diag,
            match sp_translation(
                old(self).toks(),
                old(self).failm(),
                old(self).spec_idx(),
                to_text_m(old(self).buf()),
                Seq::empty(),
            ) {
                PRes::Val { v, nj } => r matches Ok(l) && l@ == v && final(self).spec_idx() == nj,
                PRes::Fail { e } => r matches Err(pe) && pe@ == e,
            },
    {
        let ghost ts = self.toks();
        let ghost fl = self.failm();
        let ghost j0 = self.spec_idx();
        let ghost om = to_text_m(old(self).buf());
        let original = lexemes_to_text(&self.cur_line);
        self.cur_line.clear();
        proof {
            assert(self.buf() =~= Seq::<LexemeM>::empty());
        }
        loop
            invariant
                self.wf(),
                self.src() == old(self).src(),
                self.diag == old(self).diag,
                ts == old(self).toks(),
                fl == old(self).failm(),
                j0 == old(self).spec_idx(),
                ts == self.toks(),
                fl == self.failm(),
                0 <= self.spec_idx() <= ts.len(),
                om == to_text_m(old(self).buf()),
                text_view(original@) == om,
                self.buf_normal(),
                sp_translation(ts, fl, j0, om, Seq::empty()) == sp_translation(
                    ts,
                    fl,
                    self.spec_idx(),
                    om,
                    self.buf(),
                ),
            decreases ts.len() - self.spec_idx(),
        {
            let ghost jcur = self.spec_idx();
            let ghost bv = self.buf();
            let token = match self.next_token() {
                Ok(t) => t,
                Err(e) => {
                    return Err(e);
                },
            };
            if token.is_text() {
                self.cur_line.push(Lexeme::Normal(token));
                proof {
                    assert(self.buf() =~= bv.push(LexemeM::Normal(ts[jcur])));
                }
            } else if token.kind() == TokenKind::pub_comment {
                let translation = lexemes_to_text(&self.cur_line);
                self.cur_line.clear();
                match self.expect_eol_tok() {
                    Err(e) => {
                        return Err(e);
                    },
                    Ok(()) => {
                        return Ok(Line::TranslationStmt {
                            original,
                            translation,
                            comment: Some(token),
                        });
                    },
                }
            } else if token.is_eol() {
                let translation = lexemes_to_text(&self.cur_line);
                self.cur_line.clear();
                return Ok(Line::TranslationStmt { original, translation, comment: None });
            } else {
                return Err(self.diag.expected_text(token));
            }
        }
    }

    /// Parse a complex statement, entered right after an opening
    /// bracket; the buffer holds the plain text read so far.
    fn parse_complex_stmt(&mut self) -> (r: Result<Line, ParseError>)
        requires
            old(self).wf(),
        ensures
            final(self).wf(),
            final(self).src() == old(self).src(),
            final(self).diag == old(self).diag,
            match sp_complex(
                old(self).toks(),
                old(self).failm(),
                old(self).spec_idx(),
                old(self).buf(),
            ) {
                PRes::Val { v, nj } => r matches Ok(l) && l@ == v && final(self).spec_idx() == nj,
                PRes::Fail { e } => r matches Err(pe) && pe@ == e,
            },
    {
        let ghost ts = self.toks();
        let ghost fl = self.failm();
        let ghost j0 = self.spec_idx();
        let ghost buf0 = self.buf();
        let ortho = match self.parse_orthogram() {
            Ok(o) => o,
            Err(e) => {
                return Err(e);
            },
        };
        self.cur_line.push(Lexeme::Orthogram(ortho));
        proof {
            if let PRes::Val { v: o, nj } = sp_orthogram(ts, fl, j0, Seq::empty()) {
                assert(self.buf() =~= buf0.push(LexemeM::Orthogram(o)));
            }
        }
        loop
            invariant
                self.wf(),
                self.src() == old(self).src(),
                self.diag == old(self).diag,
                ts == old(self).toks(),
                fl == old(self).failm(),
                j0 == old(self).spec_idx(),
                buf0 == old(self).buf(),
                ts == self.toks(),
                fl == self.failm(),
                0 <= self.spec_idx() <= ts.len(),
                sp_complex(ts, fl, j0, buf0) == sp_complex_loop(
                    ts,
                    fl,
                    self.spec_idx(),
                    self.buf(),
                ),
            decreases ts.len() - self.spec_idx(),
        {
            let ghost jcur = self.spec_idx();
            let ghost bv = self.buf();
            let token = match self.next_token() {
                Ok(t) => t,
                Err(e) => {
                    return Err(e);
                },
            };
            if token.is_text() {
                self.cur_line.push(Lexeme::Normal(token));
                proof {
                    assert(self.buf() =~= bv.push(LexemeM::Normal(ts[jcur])));
                }
            } else if token.kind() == TokenKind::pub_comment {
                match self.expect_eol_tok() {
                    Err(e) => {
                        return Err(e);
                    },
                    Ok(()) => {
                        let mut taken: Vec<Lexeme> = Vec::new();
                        core::mem::swap(&mut taken, &mut self.cur_line);
                        let text = strip(taken);
                        proof {
                            assert(self.buf() =~= Seq::<LexemeM>::empty());
                        }
                        return Ok(Line::ComplexStmt { text, comment: Some(token) });
                    },
                }
            } else if token.is_eol() {
                let mut taken: Vec<Lexeme> = Vec::new();
                core::mem::swap(&mut taken, &mut self.cur_line);
                let text = strip(taken);
                proof {
                    assert(self.buf() =~= Seq::<LexemeM>::empty());
                }
                return Ok(Line::ComplexStmt { text, comment: None });
            } else if token.kind() == TokenKind::l_square {
                let ghost jnext = self.spec_idx();
                proof {
                    lemma_sp_orthogram_progress(ts, fl, jnext, Seq::empty());
                }
                let ortho2 = match self.parse_orthogram() {
                    Ok(o) => o,
                    Err(e) => {
                        return Err(e);
                    },
                };
                self.cur_line.push(Lexeme::Orthogram(ortho2));
                proof {
                    if let PRes::Val { v: o, nj } = sp_orthogram(ts, fl, jnext, Seq::empty()) {
                        assert(self.buf() =~= bv.push(LexemeM::Orthogram(o)));
                    }
                }
            } else {
                return Err(self.diag.expected_text(token));
            }
        }
    }

    /// Parse one statement, given its already-read first token.
    fn parse_stmt(&mut self, first_token: Token) -> (r: Result<Line, ParseError>)
        requires
            old(self).wf(),
            old(self).buf() == Seq::<LexemeM>::empty(),
            is_stmt_start_kind(first_token@.kind),
        ensures
            final(self).wf(),
            final(self).src() == old(self).src(),
            final(self).diag == old(self).diag,
            match sp_stmt(
                old(self).toks(),
                old(self).failm(),
                old(self).spec_idx(),
                first_token@,
            ) {
                PRes::Val { v, nj } => r matches Ok(l) && l@ == v && final(self).spec_idx() == nj,
                PRes::Fail { e } => r matches Err(pe) && pe@ == e,
            },
    {
        let ghost ts = self.toks();
        let ghost fl = self.failm();
        let ghost j0 = self.spec_idx();
        let ghost fm = first_token@;
        if first_token.kind() == TokenKind::l_square {
            return self.parse_complex_stmt();
        }
        proof {
            assert(forall|i: int| 0 <= i < self.cur_line@.len() ==> self.cur_line@[i] is Normal);
        }
        self.cur_line.push(Lexeme::Normal(first_token));
        proof {
            assert(self.buf() =~= seq![LexemeM::Normal(fm)]);
        }
        loop
            invariant
                self.wf(),
                self.src() == old(self).src(),
                self.diag == old(self).diag,
                ts == old(self).toks(),
                fl == old(self).failm(),
                j0 == old(self).spec_idx(),
                fm == first_token@,
                fm.kind != TokenKind::l_square,
                ts == self.toks(),
                fl == self.failm(),
                0 <= self.spec_idx() <= ts.len(),
                self.buf_normal(),
                sp_stmt_loop(ts, fl, j0, seq![LexemeM::Normal(fm)]) == sp_stmt_loop(
                    ts,
                    fl,
                    self.spec_idx(),
                    self.buf(),
                ),
            decreases ts.len() - self.spec_idx(),
        {
            let ghost jcur = self.spec_idx();
            let ghost bv = self.buf();
            let token = match self.next_token() {
                Ok(t) => t,
                Err(e) => {
                    return Err(e);
                },
            };
            if token.is_text() {
                self.cur_line.push(Lexeme::Normal(token));
                proof {
                    assert(self.buf() =~= bv.push(LexemeM::Normal(ts[jcur])));
                }
            } else if token.is_comment() || token.is_eol() {
                return self.parse_plain_stmt(token);
            } else if token.kind() == TokenKind::arrow {
                return self.parse_translation_stmt();
            } else if token.kind() == TokenKind::l_square {
                return self.parse_complex_stmt();
            } else {
                return Err(self.diag.expected_text(token));
            }
        }
    }

    /// Parse exactly one logical line; `None` at the end of the file.
    pub fn parse_line(&mut self) -> (r: Result<Option<Line>, ParseError>)
        requires
            old(self).wf(),
        ensures
            final(self).wf(),
            final(self).src() == old(self).src(),
            final(self).toks() == old(self).toks(),
            final(self).failm() == old(self).failm(),
            match sp_parse_line(old(self).toks(), old(self).failm(), old(self).spec_idx()) {
                PRes::Val { v, nj } => r matches Ok(ol) && opt_line_view(ol) == v && final(self).spec_idx() == nj,
                PRes::Fail { e } => r matches Err(pe) && pe@ == e,
            },
    {
        self.cur_line.clear();
        proof {
            assert(self.buf() =~= Seq::<LexemeM>::empty());
        }
        let token = match self.next_token() {
            Ok(t) => t,
            Err(e) => {
                return Err(e);
            },
        };
        match token.kind() {
            TokenKind::pub_comment => match self.expect_eol_tok() {
                Ok(()) => Ok(Some(Line::PubComment(token))),
                Err(e) => Err(e),
            },
            TokenKind::word | TokenKind::punct | TokenKind::number | TokenKind::other
                | TokenKind::colon | TokenKind::pipe | TokenKind::l_square => {
                match self.parse_stmt(token) {
                    Ok(l) => Ok(Some(l)),
                    Err(e) => Err(e),
                }
            },
            TokenKind::arrow | TokenKind::r_square => Err(self.diag.expected_text(token)),
            TokenKind::newline | TokenKind::comment | TokenKind::space => Ok(Some(Line::Empty)),
            TokenKind::eof => Ok(None),
        }
    }

    /// Parse the whole file into its sequence of lines.
    pub fn parse(&mut self) -> (r: Result<Vec<Line>, ParseError>)
        requires
            old(self).wf(),
        ensures
            final(self).wf(),
            final(self).src() == old(self).src(),
            final(self).toks() == old(self).toks(),
            final(self).failm() == old(self).failm(),
            match sp_parse(old(self).toks(), old(self).failm(), old(self).spec_idx()) {
                PRes::Val { v, nj } => r matches Ok(lines) && lines_view(lines@) == v && final(self).spec_idx() == nj,
                PRes::Fail { e } => r matches Err(pe) && pe@ == e,
            },
    {
        let ghost ts = self.toks();
        let ghost fl = self.failm();
        let ghost j0 = self.spec_idx();
        let mut lines: Vec<Line> = Vec::new();
        proof {
            assert(lines_view(lines@) =~= Seq::<LineM>::empty());
        }
        loop
            invariant_except_break
                match sp_parse(ts, fl, self.spec_idx()) {
                    PRes::Val { v, nj } => sp_parse(ts, fl, j0) == (PRes::Val {
                        v: lines_view(lines@) + v,
                        nj,
                    }),
                    PRes::Fail { e } => sp_parse(ts, fl, j0) == (PRes::Fail::<Seq<LineM>> { e }),
                },
            invariant
                self.wf(),
                self.src() == old(self).src(),
                ts == old(self).toks(),
                fl == old(self).failm(),
                j0 == old(self).spec_idx(),
                ts == self.toks(),
                fl == self.failm(),
                0 <= j0 <= ts.len(),
                0 <= self.spec_idx() <= ts.len(),
            ensures
                self.wf(),
                self.src() == old(self).src(),
                ts == self.toks(),
                fl == self.failm(),
                sp_parse(ts, fl, j0) == (PRes::Val {
                    v: lines_view(lines@),
                    nj: self.spec_idx(),
                }),
            decreases ts.len() - self.spec_idx(),
        {
            let ghost jcur = self.spec_idx();
            let ghost lv = lines_view(lines@);
            proof {
                lemma_sp_parse_line_progress(ts, fl, jcur);
            }
            match self.parse_line() {
                Err(e) => {
                    return Err(e);
                },
                Ok(None) => {
                    proof {
                        assert(sp_parse(ts, fl, jcur) == (PRes::Val {
                            v: Seq::<LineM>::empty(),
                            nj: self.spec_idx(),
                        }));
                        assert(lv + Seq::<LineM>::empty() =~= lv);
                    }
                    break;
                },
                Ok(Some(l)) => {
                    lines.push(l);
                    proof {
                        assert(lines_view(lines@) =~= lv.push(l@));
                        if let PRes::Val { v: rest, nj } = sp_parse(ts, fl, self.spec_idx()) {
                            assert(lv + (seq![l@] + rest) =~= lv.push(l@) + rest);
                        }
                    }
                },
            }
        }
        Ok(lines)
    }
}


/// Parsing is deterministic: two parsers over the same source text carry
/// the same token model and their parses have the same outcome.
pub proof fn lemma_parse_deterministic<'a, 'b>(p1: &Parser<'a>, p2: &Parser<'b>)
    requires
        p1.wf(),
        p2.wf(),
        p1.src() == p2.src(),
        p1.spec_idx() == p2.spec_idx(),
    ensures
        p1.toks() == p2.toks(),
        p1.failm() == p2.failm(),
        sp_parse(p1.toks(), p1.failm(), p1.spec_idx()) == sp_parse(
            p2.toks(),
            p2.failm(),
            p2.spec_idx(),
        ),
{
}

/// An empty file lexes to no tokens and parses to an empty line sequence.
pub proof fn lemma_parse_empty_source()
    ensures
        toks_from(Seq::empty(), 0) == Seq::<TokenM>::empty(),
        lex_fail(Seq::empty(), 0) is None,
        sp_parse(Seq::empty(), None, 0) == (PRes::Val { v: Seq::<LineM>::empty(), nj: 0 }),
{
}

proof fn lemma_newline_token_seq(s: Seq<char>, i: int)
    requires
        0 <= i <= s.len(),
        forall|k: int| 0 <= k < s.len() ==> s[k] == '\n',
    ensures
        toks_from(s, i).len() == s.len() - i,
        forall|k: int| 0 <= k < s.len() - i ==> #[trigger] toks_from(s, i)[k].kind
            == TokenKind::newline,
        lex_fail(s, i) is None,
    decreases s.len() - i,
{
    if i < s.len() {
        assert(scan_token(s, i) == (Scan::Hit { kind: TokenKind::newline, end: i + 1 }));
        assert(lex_from(s, i, true) == (LexStep::Tok {
            kind: TokenKind::newline,
            start: i,
            end: i + 1,
        }));
        lemma_newline_token_seq(s, i + 1);
        let ts = toks_from(s, i);
        let rest = toks_from(s, i + 1);
        assert(ts =~= seq![tokm(s, TokenKind::newline, i, i + 1)] + rest);
        assert forall|k: int| 0 <= k < s.len() - i implies #[trigger] ts[k].kind
            == TokenKind::newline by {
            if k > 0 {
                assert(ts[k] == rest[k - 1]);
            }
        }
    }
}

proof fn lemma_parse_newline_tokens(ts: Seq<TokenM>, j: int)
    requires
        0 <= j <= ts.len(),
        forall|k: int| 0 <= k < ts.len() ==> #[trigger] ts[k].kind == TokenKind::newline,
    ensures
        sp_parse(ts, None, j) == (PRes::Val {
            v: Seq::new((ts.len() - j) as nat, |k: int| LineM::Empty),
            nj: ts.len() as int,
        }),
    decreases ts.len() - j,
{
    if j == ts.len() {
        assert(Seq::new(0nat, |k: int| LineM::Empty) =~= Seq::<LineM>::empty());
    } else {
        lemma_parse_newline_tokens(ts, j + 1);
        assert(sp_parse_line(ts, None, j) == (PRes::Val {
            v: Some(LineM::Empty),
            nj: j + 1,
        }));
        assert(seq![LineM::Empty] + Seq::new((ts.len() - j - 1) as nat, |k: int| LineM::Empty)
            =~= Seq::new((ts.len() - j) as nat, |k: int| LineM::Empty));
    }
}

/// A file consisting only of newlines parses to one empty line per line
/// break, and to nothing else.
pub proof fn lemma_parse_newline_file(s: Seq<char>)
    requires
        forall|k: int| 0 <= k < s.len() ==> s[k] == '\n',
    ensures
        lex_fail(s, 0) is None,
        sp_parse(toks_from(s, 0), lex_fail(s, 0), 0) matches PRes::Val { v, .. } && v.len()
            == s.len() && (forall|k: int| 0 <= k < v.len() ==> v[k] == LineM::Empty),
{
    lemma_newline_token_seq(s, 0);
    lemma_parse_newline_tokens(toks_from(s, 0), 0);
}

} // verus!

