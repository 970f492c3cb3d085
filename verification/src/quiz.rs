//! The textual renderings the quiz runner needs from parsed content.
//!
//! `spell_text` flattens a token sequence into the literal string it
//! stands for; the `spell_answer` family renders any content as the one
//! correct answer string.  Question rendering (colors, shuffled choice
//! order) is presentation and lives with the runner.

use vstd::prelude::*;
use crate::lexis::{
    collapse_ws, lemma_run_end, lemma_run_end_is, lemma_scan_token_end, region_tokens, run_end,
    run_pred, scan_token, spelling_of, starts_space_token, text_region, tokm, Scan, Token,
    TokenKind, TokenM,
};
use crate::syntax::{text_view, Lexeme, LexemeM, lexemes_view, Orthogram, OrthoM};

verus! {

/// The concatenation of the spellings of a token sequence.
pub open spec fn spell_text_m(ts: Seq<TokenM>) -> Seq<char>
    decreases ts.len(),
{
    if ts.len() == 0 {
        Seq::empty()
    } else {
        ts[0].spelling + spell_text_m(ts.drop_first())
    }
}

/// The correct answer a lexeme stands for: its own spelling for a plain
/// token, the expected answer for an orthogram.
pub open spec fn spell_answer_lexeme_m(l: LexemeM) -> Seq<char> {
    match l {
        LexemeM::Normal(t) => t.spelling,
        LexemeM::Orthogram(o) => spell_answer_ortho_m(o),
    }
}

/// The correct answer an orthogram stands for.
pub open spec fn spell_answer_ortho_m(o: OrthoM) -> Seq<char> {
    match o {
        OrthoM::Gap { answer, .. } => spell_text_m(answer),
        OrthoM::Choice { right_answer, .. } => spell_text_m(right_answer),
    }
}

/// The correct answer a whole lexeme sequence stands for.
pub open spec fn spell_answer_m(ls: Seq<LexemeM>) -> Seq<char>
    decreases ls.len(),
{
    if ls.len() == 0 {
        Seq::empty()
    } else {
        spell_answer_lexeme_m(ls[0]) + spell_answer_m(ls.drop_first())
    }
}

proof fn lemma_spell_text_push(ts: Seq<TokenM>, t: TokenM)
    ensures
        spell_text_m(ts.push(t)) == spell_text_m(ts) + t.spelling,
    decreases ts.len(),
{
    if ts.len() == 0 {
        reveal_with_fuel(spell_text_m, 2);
        assert(ts.push(t)[0] == t);
        assert(ts.push(t).drop_first() =~= Seq::<TokenM>::empty());
        assert(spell_text_m(ts) + t.spelling =~= t.spelling);
        assert(t.spelling + Seq::<char>::empty() =~= t.spelling);
    } else {
        lemma_spell_text_push(ts.drop_first(), t);
        assert(ts.push(t)[0] == ts[0]);
        assert(ts.push(t).drop_first() =~= ts.drop_first().push(t));
        assert(ts[0].spelling + (spell_text_m(ts.drop_first()) + t.spelling) =~= (ts[0].spelling
            + spell_text_m(ts.drop_first())) + t.spelling);
    }
}

proof fn lemma_spell_answer_push(ls: Seq<LexemeM>, l: LexemeM)
    ensures
        spell_answer_m(ls.push(l)) == spell_answer_m(ls) + spell_answer_lexeme_m(l),
    decreases ls.len(),
{
    if ls.len() == 0 {
        reveal_with_fuel(spell_answer_m, 2);
        assert(ls.push(l)[0] == l);
        assert(ls.push(l).drop_first() =~= Seq::<LexemeM>::empty());
        assert(spell_answer_m(ls) + spell_answer_lexeme_m(l) =~= spell_answer_lexeme_m(l));
        assert(spell_answer_lexeme_m(l) + Seq::<char>::empty() =~= spell_answer_lexeme_m(l));
    } else {
        lemma_spell_answer_push(ls.drop_first(), l);
        assert(ls.push(l)[0] == ls[0]);
        assert(ls.push(l).drop_first() =~= ls.drop_first().push(l));
        assert(spell_answer_lexeme_m(ls[0]) + (spell_answer_m(ls.drop_first())
            + spell_answer_lexeme_m(l)) =~= (spell_answer_lexeme_m(ls[0]) + spell_answer_m(
            ls.drop_first(),
        )) + spell_answer_lexeme_m(l));
    }
}

/// Concatenate the spellings of a token sequence.
pub fn spell_text(text: &Vec<Token>) -> (s: String)
    ensures
        s@ == spell_text_m(text_view(text@)),
{
    let mut s = String::new();
    let mut i: usize = 0;
    proof {
        assert(text_view(text@.take(0)) =~= Seq::<TokenM>::empty());
    }
    while i < text.len()
        invariant
            i <= text@.len(),
            s@ == spell_text_m(text_view(text@.take(i as int))),
        decreases text@.len() - i,
    {
        let ghost pre = text_view(text@.take(i as int));
        s.append(text[i].spelling());
        i = i + 1;
        proof {
            assert(text_view(text@.take(i as int)) =~= pre.push(text@[i - 1]@));
            lemma_spell_text_push(pre, text@[i - 1]@);
        }
    }
    proof {
        assert(text@.take(text@.len() as int) =~= text@);
    }
    s
}

impl Orthogram {
    /// The correct answer of this orthogram.
    pub fn spell_answer(&self) -> (s: String)
        ensures
            s@ == spell_answer_ortho_m(self@),
    {
        match self {
            Orthogram::Gap { answer, .. } => spell_text(answer),
            Orthogram::Choice { right_answer, .. } => spell_text(right_answer),
        }
    }
}

impl Lexeme {
    /// The correct answer this lexeme stands for.
    pub fn spell_answer(&self) -> (s: String)
        ensures
            s@ == spell_answer_lexeme_m(self@),
    {
        match self {
            Lexeme::Normal(t) => {
                let mut s = String::new();
                s.append(t.spelling());
                s
            },
            Lexeme::Orthogram(o) => o.spell_answer(),
        }
    }
}

/// The correct answer a complex statement's text stands for.
pub fn spell_answer(lexemes: &Vec<Lexeme>) -> (s: String)
    ensures
        s@ == spell_answer_m(lexemes_view(lexemes@)),
{
    let mut s = String::new();
    let mut i: usize = 0;
    proof {
        assert(lexemes_view(lexemes@.take(0)) =~= Seq::<LexemeM>::empty());
    }
    while i < lexemes.len()
        invariant
            i <= lexemes@.len(),
            s@ == spell_answer_m(lexemes_view(lexemes@.take(i as int))),
        decreases lexemes@.len() - i,
    {
        let ghost pre = lexemes_view(lexemes@.take(i as int));
        let part = lexemes[i].spell_answer();
        s.append(part.as_str());
        i = i + 1;
        proof {
            assert(lexemes_view(lexemes@.take(i as int)) =~= pre.push(lexemes@[i - 1]@));
            lemma_spell_answer_push(pre, lexemes@[i - 1]@);
        }
    }
    proof {
        assert(lexemes@.take(lexemes@.len() as int) =~= lexemes@);
    }
    s
}


proof fn lemma_spell_cons(t: TokenM, rest: Seq<TokenM>)
    ensures
        spell_text_m(seq![t] + rest) == t.spelling + spell_text_m(rest),
{
    let w = seq![t] + rest;
    assert(w.len() > 0);
    assert(w[0] == t);
    assert(w.drop_first() =~= rest);
}

proof fn lemma_collapse_identity_run(t: Seq<char>, m: int)
    requires
        0 <= m <= t.len(),
        forall|j: int| 0 <= j < m ==> !starts_space_token(t[j]),
    ensures
        collapse_ws(t) == t.take(m) + collapse_ws(t.skip(m)),
    decreases m,
{
    if m == 0 {
        assert(t.skip(0) =~= t);
        assert(t.take(0) + collapse_ws(t) =~= collapse_ws(t));
    } else {
        let u = t.drop_first();
        assert(forall|j: int| 0 <= j < m - 1 ==> !starts_space_token(#[trigger] u[j]));
        lemma_collapse_identity_run(u, m - 1);
        assert(u.skip(m - 1) =~= t.skip(m));
        assert(seq![t[0]] + (u.take(m - 1) + collapse_ws(t.skip(m))) =~= t.take(m) + collapse_ws(
            t.skip(m),
        ));
    }
}

/// The round trip between source text and spellings: the tokens scanned
/// across a region of ordinary text spell out, in order, exactly that
/// region of the source with each whitespace run collapsed to a single
/// space.  Stored statement text therefore reproduces the literal input
/// up to whitespace-run collapsing.
pub proof fn lemma_spell_round_trip(s: Seq<char>, i: int, e: int)
    requires
        0 <= i <= e <= s.len(),
        text_region(s, i, e),
    ensures
        spell_text_m(region_tokens(s, i, e)) == collapse_ws(s.subrange(i, e)),
    decreases e - i,
{
    let sub = s.subrange(i, e);
    if i == e {
        assert(region_tokens(s, i, e) =~= Seq::<TokenM>::empty());
        assert(spell_text_m(Seq::<TokenM>::empty()) =~= Seq::<char>::empty());
        assert(collapse_ws(sub) =~= Seq::<char>::empty());
    } else {
        lemma_scan_token_end(s, i);
        if let Scan::Hit { kind, end } = scan_token(s, i) {
            lemma_spell_round_trip(s, end, e);
            let rest = region_tokens(s, end, e);
            assert(region_tokens(s, i, e) =~= seq![tokm(s, kind, i, end)] + rest);
            lemma_spell_cons(tokm(s, kind, i, end), rest);
            assert(sub.skip(end - i) =~= s.subrange(end, e));
            if kind == TokenKind::space {
                let p = run_pred(TokenKind::space);
                assert(starts_space_token(s[i]));
                assert(sub[0] == s[i]);
                lemma_run_end(s, i + 1, p);
                assert forall|j: int| 0 <= j < end - i implies p(sub[j]) by {
                    assert(sub[j] == s[i + j]);
                }
                if end - i < sub.len() {
                    assert(sub[end - i] == s[end]);
                }
                lemma_run_end_is(sub, 0, p, end - i);
                assert(spelling_of(s, kind, i, end) == seq![' ']);
                assert(collapse_ws(sub) == seq![' '] + collapse_ws(sub.skip(end - i)));
            } else {
                lemma_run_end(s, i + 1, run_pred(kind));
                assert forall|j: int| 0 <= j < end - i implies !starts_space_token(sub[j]) by {
                    assert(sub[j] == s[i + j]);
                    if j > 0 {
                        assert(run_pred(kind)(s[i + j]));
                    }
                }
                lemma_collapse_identity_run(sub, end - i);
                assert(spelling_of(s, kind, i, end) =~= sub.take(end - i));
            }
        }
    }
}

/// On a buffer of plain lexemes, the answer rendering is exactly the
/// concatenated token spellings.
pub proof fn lemma_spell_answer_plain(ls: Seq<LexemeM>)
    requires
        forall|k: int| 0 <= k < ls.len() ==> ls[k] is Normal,
    ensures
        spell_answer_m(ls) == spell_text_m(ls.map_values(|l: LexemeM| l->Normal_0)),
    decreases ls.len(),
{
    let f = |l: LexemeM| l->Normal_0;
    if ls.len() == 0 {
        assert(ls.map_values(f) =~= Seq::<TokenM>::empty());
    } else {
        let u = ls.drop_first();
        assert(forall|k: int| 0 <= k < u.len() ==> #[trigger] u[k] is Normal);
        lemma_spell_answer_plain(u);
        assert(u.map_values(f) =~= ls.map_values(f).drop_first());
        assert(ls.map_values(f)[0] == f(ls[0]));
        assert(spell_answer_lexeme_m(ls[0]) == f(ls[0]).spelling);
    }
}

} // verus!
