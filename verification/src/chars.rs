//! Character classification, UTF-8 widths and whitespace trimming.
//!
//! The lexical grammar is defined over Unicode general-category groups.
//! The group of a character and the White_Space property come from outside
//! code and are therefore only named here; everything built on top of the
//! two names is verified.

use vstd::prelude::*;
use unicode_properties::UnicodeGeneralCategory;

verus! {

/// The seven groups of Unicode general categories.
#[derive(Clone, Copy, Debug, PartialEq, Eq, Structural)]
pub enum CharClass {
    Letter,
    Mark,
    Number,
    Punctuation,
    Symbol,
    Separator,
    Other,
}

/// The Unicode general-category group of a character, as the classifier
/// below reports it.
pub uninterp spec fn char_class(c: char) -> CharClass;

/// Relies on `unicode_properties::UnicodeGeneralCategory::general_category_group`:
/// the general-category group of a character, a function of the character alone.
#[verifier::external_body]
pub(crate) fn classify(c: char) -> (g: CharClass)
    ensures
        g == char_class(c),
{
    match c.general_category_group() {
        unicode_properties::GeneralCategoryGroup::Letter => CharClass::Letter,
        unicode_properties::GeneralCategoryGroup::Mark => CharClass::Mark,
        unicode_properties::GeneralCategoryGroup::Number => CharClass::Number,
        unicode_properties::GeneralCategoryGroup::Punctuation => CharClass::Punctuation,
        unicode_properties::GeneralCategoryGroup::Symbol => CharClass::Symbol,
        unicode_properties::GeneralCategoryGroup::Separator => CharClass::Separator,
        unicode_properties::GeneralCategoryGroup::Other => CharClass::Other,
    }
}

/// The Unicode White_Space property of a character, as `char::is_whitespace`
/// reports it; comment spellings are trimmed by it.
pub uninterp spec fn white_space(c: char) -> bool;

/// Relies on `char::is_whitespace`: the White_Space property of a character,
/// a function of the character alone.
#[verifier::external_body]
pub(crate) fn char_is_white(c: char) -> (r: bool)
    ensures
        r == white_space(c),
{
    c.is_whitespace()
}

/// Characters that may form a `word` token: letters and combining marks.
pub open spec fn is_word_char(c: char) -> bool {
    char_class(c) is Letter || char_class(c) is Mark
}

/// Characters that may form a `punct` token: punctuation other than the
/// three bracket and colon delimiters, which are tokens of their own.
pub open spec fn is_punct_char(c: char) -> bool {
    char_class(c) is Punctuation && c != '[' && c != ']' && c != ':'
}

/// Characters that may form a `number` token.
pub open spec fn is_number_char(c: char) -> bool {
    char_class(c) is Number
}

/// Characters that may form an `other` token: symbols except the pipe,
/// which is a token of its own.
pub open spec fn is_other_char(c: char) -> bool {
    char_class(c) is Symbol && c != '|'
}

/// Characters that may form a `space` token: a tab or any separator.
pub open spec fn is_space_char(c: char) -> bool {
    c == '\t' || char_class(c) is Separator
}

/// Characters that may sit inside a comment: anything but a line break.
pub open spec fn is_comment_char(c: char) -> bool {
    c != '\n' && c != '\r'
}

pub(crate) fn exec_is_word_char(c: char) -> (r: bool)
    ensures
        r == is_word_char(c),
{
    let g = classify(c);
    g == CharClass::Letter || g == CharClass::Mark
}

pub(crate) fn exec_is_comment_char(c: char) -> (r: bool)
    ensures
        r == is_comment_char(c),
{
    c != '\n' && c != '\r'
}

/// The width in bytes of the UTF-8 encoding of a character.
pub open spec fn utf8_len(c: char) -> int {
    if c as u32 <= 0x7F {
        1
    } else if c as u32 <= 0x7FF {
        2
    } else if c as u32 <= 0xFFFF {
        3
    } else {
        4
    }
}

pub(crate) fn exec_utf8_len(c: char) -> (l: usize)
    ensures
        l == utf8_len(c),
{
    let u = c as u32;
    if u <= 0x7F {
        1
    } else if u <= 0x7FF {
        2
    } else if u <= 0xFFFF {
        3
    } else {
        4
    }
}

/// The byte offset at which the character with index `i` starts, in the
/// UTF-8 encoding of `s`.
pub open spec fn byte_start(s: Seq<char>, i: int) -> int
    decreases i,
{
    if i <= 0 {
        0
    } else {
        byte_start(s, i - 1) + utf8_len(s[i - 1])
    }
}

/// My byte width of a character agrees with the length of its UTF-8
/// encoding as vstd defines it.
pub proof fn lemma_utf8_len_encode(c: char)
    ensures
        utf8_len(c) == vstd::utf8::encode_scalar(c as u32).len(),
{
    vstd::utf8::char_is_scalar(c);
}

proof fn lemma_encode_len_push(t: Seq<char>, c: char)
    ensures
        vstd::utf8::encode_utf8(t.push(c)).len() == vstd::utf8::encode_utf8(t).len()
            + vstd::utf8::encode_scalar(c as u32).len(),
    decreases t.len(),
{
    let p = t.push(c);
    assert(p.len() == t.len() + 1);
    if t.len() == 0 {
        assert(p[0] == c);
        assert(p.drop_first() =~= Seq::<char>::empty());
        assert(vstd::utf8::encode_utf8(p) =~= vstd::utf8::encode_scalar(c as u32)
            + vstd::utf8::encode_utf8(p.drop_first()));
    } else {
        lemma_encode_len_push(t.drop_first(), c);
        assert(p.drop_first() =~= t.drop_first().push(c));
        assert(p[0] == t[0]);
        assert(vstd::utf8::encode_utf8(p) == vstd::utf8::encode_scalar(t[0] as u32)
            + vstd::utf8::encode_utf8(p.drop_first()));
        assert(vstd::utf8::encode_utf8(t) == vstd::utf8::encode_scalar(t[0] as u32)
            + vstd::utf8::encode_utf8(t.drop_first()));
    }
}

/// Byte offsets agree with the length of the UTF-8 encoding of the prefix.
pub proof fn lemma_byte_start_is_encode_len(s: Seq<char>, i: int)
    requires
        0 <= i <= s.len(),
    ensures
        byte_start(s, i) == vstd::utf8::encode_utf8(s.take(i)).len(),
    decreases i,
{
    if i == 0 {
        assert(s.take(0) =~= Seq::<char>::empty());
    } else {
        lemma_byte_start_is_encode_len(s, i - 1);
        lemma_utf8_len_encode(s[i - 1]);
        lemma_encode_len_push(s.take(i - 1), s[i - 1]);
        assert(s.take(i) =~= s.take(i - 1).push(s[i - 1]));
    }
}

/// Byte offsets are monotone in the character index.
pub proof fn lemma_byte_start_mono(s: Seq<char>, i: int, j: int)
    requires
        0 <= i <= j,
    ensures
        byte_start(s, i) <= byte_start(s, j),
    decreases j - i,
{
    if i < j {
        lemma_byte_start_mono(s, i, j - 1);
    }
}

/// The spelling of a comment token: its text with leading whitespace removed.
pub open spec fn trim_start(t: Seq<char>) -> Seq<char>
    decreases t.len(),
{
    if t.len() > 0 && white_space(t[0]) {
        trim_start(t.drop_first())
    } else {
        t
    }
}

/// The spelling of a comment token: its text with trailing whitespace removed.
pub open spec fn trim_end(t: Seq<char>) -> Seq<char>
    decreases t.len(),
{
    if t.len() > 0 && white_space(t[t.len() - 1]) {
        trim_end(t.drop_last())
    } else {
        t
    }
}

/// Whitespace removed from both ends, as `str::trim` does it.
pub open spec fn trim(t: Seq<char>) -> Seq<char> {
    trim_end(trim_start(t))
}

proof fn lemma_trim_start_skip(t: Seq<char>, k: int)
    requires
        0 <= k <= t.len(),
        forall|i: int| 0 <= i < k ==> white_space(t[i]),
        k < t.len() ==> !white_space(t[k]),
    ensures
        trim_start(t) == t.skip(k),
    decreases k,
{
    if k == 0 {
        assert(t.skip(0) =~= t);
    } else {
        assert(white_space(t[0]));
        let u = t.drop_first();
        assert(forall|i: int| 0 <= i < k - 1 ==> white_space(#[trigger] u[i]));
        lemma_trim_start_skip(u, k - 1);
        assert(u.skip(k - 1) =~= t.skip(k));
    }
}

proof fn lemma_trim_end_take(t: Seq<char>, m: int)
    requires
        0 <= m <= t.len(),
        forall|i: int| m <= i < t.len() ==> white_space(t[i]),
        m > 0 ==> !white_space(t[m - 1]),
    ensures
        trim_end(t) == t.take(m),
    decreases t.len() - m,
{
    if m == t.len() as int {
        assert(t.take(m) =~= t);
    } else {
        assert(white_space(t[t.len() - 1]));
        let u = t.drop_last();
        lemma_trim_end_take(u, m);
        assert(u.take(m) =~= t.take(m));
    }
}

/// Characterizes `trim` by the indices an implementation computes: if
/// everything before `a` and everything from `b` on is whitespace, and the
/// region between them is flanked by non-whitespace, the trim is exactly
/// that region.
pub proof fn lemma_trim_between(u: Seq<char>, a: int, b: int)
    requires
        0 <= a <= b <= u.len(),
        forall|i: int| 0 <= i < a ==> white_space(u[i]),
        forall|i: int| b <= i < u.len() ==> white_space(u[i]),
        a < b ==> !white_space(u[a]) && !white_space(u[b - 1]),
        a == b ==> a == u.len(),
    ensures
        trim(u) == u.subrange(a, b),
{
    lemma_trim_start_skip(u, a);
    let v = u.skip(a);
    assert(forall|i: int| b - a <= i < v.len() ==> white_space(#[trigger] v[i]));
    lemma_trim_end_take(v, b - a);
    assert(v.take(b - a) =~= u.subrange(a, b));
}

} // verus!
