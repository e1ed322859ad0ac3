//! Character classification and the keyword set.

use vstd::prelude::*;

verus! {

/// Whitespace that counts toward indentation: space and tab.
pub open spec fn whitespace_char(c: char) -> bool {
    c == ' ' || c == '\t'
}

/// ASCII decimal digit.
pub open spec fn digit_char(c: char) -> bool {
    '0' <= c && c <= '9'
}

/// ASCII hexadecimal digit.
pub open spec fn hex_digit_char(c: char) -> bool {
    digit_char(c) || ('a' <= c && c <= 'f') || ('A' <= c && c <= 'F')
}

/// Word-forming initial character: ASCII letter or underscore.
pub open spec fn letter_char(c: char) -> bool {
    ('a' <= c && c <= 'z') || ('A' <= c && c <= 'Z') || c == '_'
}

/// Character that may continue a word: a letter or a digit.
pub open spec fn word_char(c: char) -> bool {
    letter_char(c) || digit_char(c)
}

/// Operator-forming character.
pub open spec fn special_char(c: char) -> bool {
    ('!' <= c && c <= '&') || ('*' <= c && c <= '/') || (':' <= c && c <= '@') || c == '\\'
        || c == '^' || c == '_' || c == '|' || c == '~'
}

/// The closed keyword set of the language.
pub open spec fn keyword_text(w: Seq<char>) -> bool {
    ||| w == "data"@
    ||| w == "forall"@
    ||| w == "case"@
    ||| w == "where"@
    ||| w == "if"@
    ||| w == "else"@
    ||| w == "infix"@
    ||| w == "infixl"@
    ||| w == "infixr"@
}

pub fn is_whitespace(w: char) -> (r: bool)
    ensures
        r == whitespace_char(w),
{
    w == ' ' || w == '\t'
}

pub fn is_digit(d: char) -> (r: bool)
    ensures
        r == digit_char(d),
{
    '0' <= d && d <= '9'
}

pub fn is_hex_digit(d: char) -> (r: bool)
    ensures
        r == hex_digit_char(d),
{
    is_digit(d) || ('a' <= d && d <= 'f') || ('A' <= d && d <= 'F')
}

pub fn is_letter(l: char) -> (r: bool)
    ensures
        r == letter_char(l),
{
    ('a' <= l && l <= 'z') || ('A' <= l && l <= 'Z') || l == '_'
}

pub fn is_word_char(c: char) -> (r: bool)
    ensures
        r == word_char(c),
{
    is_letter(c) || is_digit(c)
}

pub fn is_special(s: char) -> (r: bool)
    ensures
        r == special_char(s),
{
    ('!' <= s && s <= '&') || ('*' <= s && s <= '/') || (':' <= s && s <= '@') || s == '\\'
        || s == '^' || s == '_' || s == '|' || s == '~'
}

fn eq2(w: &Vec<char>, a: char, b: char) -> (r: bool)
    ensures
        r == (w@ == seq![a, b]),
{
    let r = w.len() == 2 && w[0] == a && w[1] == b;
    proof {
        if r {
            assert(w@ =~= seq![a, b]);
        }
    }
    r
}

fn eq4(w: &Vec<char>, a: char, b: char, c: char, d: char) -> (r: bool)
    ensures
        r == (w@ == seq![a, b, c, d]),
{
    let r = w.len() == 4 && w[0] == a && w[1] == b && w[2] == c && w[3] == d;
    proof {
        if r {
            assert(w@ =~= seq![a, b, c, d]);
        }
    }
    r
}

fn eq5(w: &Vec<char>, a: char, b: char, c: char, d: char, e: char) -> (r: bool)
    ensures
        r == (w@ == seq![a, b, c, d, e]),
{
    let r = w.len() == 5 && w[0] == a && w[1] == b && w[2] == c && w[3] == d && w[4] == e;
    proof {
        if r {
            assert(w@ =~= seq![a, b, c, d, e]);
        }
    }
    r
}

fn eq6(w: &Vec<char>, a: char, b: char, c: char, d: char, e: char, f: char) -> (r: bool)
    ensures
        r == (w@ == seq![a, b, c, d, e, f]),
{
    let r = w.len() == 6 && w[0] == a && w[1] == b && w[2] == c && w[3] == d && w[4] == e
        && w[5] == f;
    proof {
        if r {
            assert(w@ =~= seq![a, b, c, d, e, f]);
        }
    }
    r
}

/// Whether the collected word is one of the reserved keywords.
pub fn is_keyword(kw: &Vec<char>) -> (r: bool)
    ensures
        r == keyword_text(kw@),
{
    proof {
        reveal_strlit("data");
        reveal_strlit("forall");
        reveal_strlit("case");
        reveal_strlit("where");
        reveal_strlit("if");
        reveal_strlit("else");
        reveal_strlit("infix");
        reveal_strlit("infixl");
        reveal_strlit("infixr");
        assert(seq!['d', 'a', 't', 'a'] =~= "data"@);
        assert(seq!['f', 'o', 'r', 'a', 'l', 'l'] =~= "forall"@);
        assert(seq!['c', 'a', 's', 'e'] =~= "case"@);
        assert(seq!['w', 'h', 'e', 'r', 'e'] =~= "where"@);
        assert(seq!['i', 'f'] =~= "if"@);
        assert(seq!['e', 'l', 's', 'e'] =~= "else"@);
        assert(seq!['i', 'n', 'f', 'i', 'x'] =~= "infix"@);
        assert(seq!['i', 'n', 'f', 'i', 'x', 'l'] =~= "infixl"@);
        assert(seq!['i', 'n', 'f', 'i', 'x', 'r'] =~= "infixr"@);
    }
    eq4(kw, 'd', 'a', 't', 'a') || eq6(kw, 'f', 'o', 'r', 'a', 'l', 'l') || eq4(
        kw,
        'c',
        'a',
        's',
        'e',
    ) || eq5(kw, 'w', 'h', 'e', 'r', 'e') || eq2(kw, 'i', 'f') || eq4(kw, 'e', 'l', 's', 'e')
        || eq5(kw, 'i', 'n', 'f', 'i', 'x') || eq6(kw, 'i', 'n', 'f', 'i', 'x', 'l') || eq6(
        kw,
        'i',
        'n',
        'f',
        'i',
        'x',
        'r',
    )
}

} // verus!
