//! The mathematical model of the lexer.
//!
//! `step` relates one lexer state (text, offset, indent level) to the token
//! or error produced by a single `next_token` call and to the state after
//! the call. It is the single source of truth for the lexer's contract.

use vstd::prelude::*;

use crate::chars::{
    digit_char, hex_digit_char, keyword_text, letter_char, special_char, whitespace_char,
    word_char,
};
use crate::token::{Lexeme, LexerError, Position, Token};

verus! {

/// Number of newlines in `s[0..p]`: the 0-indexed line at offset `p`.
pub open spec fn line_of(s: Seq<char>, p: int) -> int
    recommends
        0 <= p <= s.len(),
    decreases p,
{
    if p <= 0 {
        0
    } else {
        line_of(s, p - 1) + if s[p - 1] == '\n' {
            1int
        } else {
            0int
        }
    }
}

/// Characters since the last newline: the 0-indexed column at offset `p`.
pub open spec fn col_of(s: Seq<char>, p: int) -> int
    recommends
        0 <= p <= s.len(),
    decreases p,
{
    if p <= 0 {
        0
    } else if s[p - 1] == '\n' {
        0
    } else {
        col_of(s, p - 1) + 1
    }
}

pub proof fn lemma_line_col_bounds(s: Seq<char>, p: int)
    requires
        0 <= p,
    ensures
        0 <= line_of(s, p) <= p,
        0 <= col_of(s, p) <= p,
    decreases p,
{
    if p > 0 {
        lemma_line_col_bounds(s, p - 1);
    }
}

/// End of the maximal run of characters satisfying `pred`, scanning from `i`.
pub open spec fn run_end(s: Seq<char>, i: int, pred: spec_fn(char) -> bool) -> int
    recommends
        0 <= i <= s.len(),
    decreases s.len() - i,
{
    if 0 <= i < s.len() && pred(s[i]) {
        run_end(s, i + 1, pred)
    } else {
        i
    }
}

pub proof fn lemma_run_end(s: Seq<char>, i: int, pred: spec_fn(char) -> bool)
    requires
        0 <= i <= s.len(),
    ensures
        i <= run_end(s, i, pred) <= s.len(),
        forall|k: int| i <= k < run_end(s, i, pred) ==> pred(s[k]),
        run_end(s, i, pred) == s.len() || !pred(s[run_end(s, i, pred)]),
    decreases s.len() - i,
{
    if i < s.len() && pred(s[i]) {
        lemma_run_end(s, i + 1, pred);
    }
}

/// A run may be resumed anywhere inside it: skipping a satisfying prefix
/// does not move its end.
pub proof fn lemma_run_end_skip(s: Seq<char>, i: int, j: int, pred: spec_fn(char) -> bool)
    requires
        0 <= i <= j <= s.len(),
        forall|k: int| i <= k < j ==> pred(s[k]),
    ensures
        run_end(s, i, pred) == run_end(s, j, pred),
    decreases j - i,
{
    if i < j {
        lemma_run_end_skip(s, i + 1, j, pred);
    }
}

pub open spec fn ws_run_end(s: Seq<char>, i: int) -> int {
    run_end(s, i, |c: char| whitespace_char(c))
}

pub open spec fn word_run_end(s: Seq<char>, i: int) -> int {
    run_end(s, i, |c: char| word_char(c))
}

pub open spec fn digit_run_end(s: Seq<char>, i: int) -> int {
    run_end(s, i, |c: char| digit_char(c))
}

pub open spec fn hex_digit_run_end(s: Seq<char>, i: int) -> int {
    run_end(s, i, |c: char| hex_digit_char(c))
}

pub open spec fn special_run_end(s: Seq<char>, i: int) -> int {
    run_end(s, i, |c: char| special_char(c))
}

pub open spec fn comment_run_end(s: Seq<char>, i: int) -> int {
    run_end(s, i, |c: char| c != '\n')
}

pub proof fn lemma_ws_run_end(s: Seq<char>, i: int)
    requires
        0 <= i <= s.len(),
    ensures
        i <= ws_run_end(s, i) <= s.len(),
        forall|k: int| i <= k < ws_run_end(s, i) ==> whitespace_char(s[k]),
        ws_run_end(s, i) == s.len() || !whitespace_char(s[ws_run_end(s, i)]),
{
    lemma_run_end(s, i, |c: char| whitespace_char(c));
}

pub proof fn lemma_word_run_end(s: Seq<char>, i: int)
    requires
        0 <= i <= s.len(),
    ensures
        i <= word_run_end(s, i) <= s.len(),
        forall|k: int| i <= k < word_run_end(s, i) ==> word_char(s[k]),
        word_run_end(s, i) == s.len() || !word_char(s[word_run_end(s, i)]),
{
    lemma_run_end(s, i, |c: char| word_char(c));
}

pub proof fn lemma_digit_run_end(s: Seq<char>, i: int)
    requires
        0 <= i <= s.len(),
    ensures
        i <= digit_run_end(s, i) <= s.len(),
        forall|k: int| i <= k < digit_run_end(s, i) ==> digit_char(s[k]),
        digit_run_end(s, i) == s.len() || !digit_char(s[digit_run_end(s, i)]),
{
    lemma_run_end(s, i, |c: char| digit_char(c));
}

pub proof fn lemma_hex_digit_run_end(s: Seq<char>, i: int)
    requires
        0 <= i <= s.len(),
    ensures
        i <= hex_digit_run_end(s, i) <= s.len(),
        forall|k: int| i <= k < hex_digit_run_end(s, i) ==> hex_digit_char(s[k]),
        hex_digit_run_end(s, i) == s.len() || !hex_digit_char(s[hex_digit_run_end(s, i)]),
{
    lemma_run_end(s, i, |c: char| hex_digit_char(c));
}

pub proof fn lemma_special_run_end(s: Seq<char>, i: int)
    requires
        0 <= i <= s.len(),
    ensures
        i <= special_run_end(s, i) <= s.len(),
        forall|k: int| i <= k < special_run_end(s, i) ==> special_char(s[k]),
        special_run_end(s, i) == s.len() || !special_char(s[special_run_end(s, i)]),
{
    lemma_run_end(s, i, |c: char| special_char(c));
}

pub proof fn lemma_comment_run_end(s: Seq<char>, i: int)
    requires
        0 <= i <= s.len(),
    ensures
        i <= comment_run_end(s, i) <= s.len(),
        forall|k: int| i <= k < comment_run_end(s, i) ==> s[k] != '\n',
        comment_run_end(s, i) == s.len() || s[comment_run_end(s, i)] == '\n',
{
    lemma_run_end(s, i, |c: char| c != '\n');
}

/// A word run resumed after a prefix of word characters keeps its end.
pub proof fn lemma_word_run_skip(s: Seq<char>, i: int, j: int)
    requires
        0 <= i <= j <= s.len(),
        forall|k: int| i <= k < j ==> word_char(s[k]),
    ensures
        word_run_end(s, i) == word_run_end(s, j),
{
    lemma_run_end_skip(s, i, j, |c: char| word_char(c));
}

/// End of a hexadecimal literal's character run starting at `i`: characters
/// are consumed until the character after the current one is whitespace, a
/// newline, or absent. At least one character is always consumed.
pub open spec fn hex_run_end(s: Seq<char>, i: int) -> int
    recommends
        0 <= i < s.len(),
    decreases s.len() - i,
{
    if 0 <= i && i + 1 < s.len() && !whitespace_char(s[i + 1]) && s[i + 1] != '\n' {
        hex_run_end(s, i + 1)
    } else {
        i + 1
    }
}

pub proof fn lemma_hex_run_end(s: Seq<char>, i: int)
    requires
        0 <= i < s.len(),
    ensures
        i + 1 <= hex_run_end(s, i) <= s.len(),
        forall|k: int| i < k < hex_run_end(s, i) ==> !whitespace_char(s[k]) && s[k] != '\n',
        hex_run_end(s, i) == s.len() || whitespace_char(s[hex_run_end(s, i)]) || s[hex_run_end(
            s,
            i,
        )] == '\n',
    decreases s.len() - i,
{
    if i + 1 < s.len() && !whitespace_char(s[i + 1]) && s[i + 1] != '\n' {
        lemma_hex_run_end(s, i + 1);
    }
}

/// Offset of the closing quote of a string whose content starts at `i`,
/// or the text's length if the string is unterminated.
pub open spec fn str_end(s: Seq<char>, i: int) -> int
    recommends
        0 <= i <= s.len(),
    decreases s.len() - i,
{
    if i < 0 || i >= s.len() {
        s.len() as int
    } else if s[i] == '\\' && i + 1 < s.len() && (s[i + 1] == '"' || s[i + 1] == '\\') {
        str_end(s, i + 2)
    } else if s[i] == '"' {
        i
    } else {
        str_end(s, i + 1)
    }
}

/// The decoded payload of a string whose content starts at `i`: characters
/// up to the closing quote, with `\"` and `\\` decoded.
pub open spec fn str_payload(s: Seq<char>, i: int) -> Seq<char>
    recommends
        0 <= i <= s.len(),
    decreases s.len() - i,
{
    if i < 0 || i >= s.len() {
        Seq::empty()
    } else if s[i] == '\\' && i + 1 < s.len() && (s[i + 1] == '"' || s[i + 1] == '\\') {
        seq![s[i + 1]] + str_payload(s, i + 2)
    } else if s[i] == '"' {
        Seq::empty()
    } else {
        seq![s[i]] + str_payload(s, i + 1)
    }
}

pub proof fn lemma_str_end(s: Seq<char>, i: int)
    requires
        0 <= i <= s.len(),
    ensures
        i <= str_end(s, i) <= s.len(),
        str_end(s, i) < s.len() ==> s[str_end(s, i)] == '"',
    decreases s.len() - i,
{
    if i < s.len() {
        if s[i] == '\\' && i + 1 < s.len() && (s[i + 1] == '"' || s[i + 1] == '\\') {
            lemma_str_end(s, i + 2);
        } else if s[i] != '"' {
            lemma_str_end(s, i + 1);
        }
    }
}

/// Replaces each `\"` by `"` and each `\\` by `\`; every other character,
/// a stray backslash included, is kept as it stands.
pub open spec fn unescape(t: Seq<char>) -> Seq<char>
    decreases t.len(),
{
    if t.len() == 0 {
        Seq::empty()
    } else if t[0] == '\\' && t.len() >= 2 && (t[1] == '"' || t[1] == '\\') {
        seq![t[1]] + unescape(t.skip(2))
    } else {
        seq![t[0]] + unescape(t.skip(1))
    }
}

/// The scanned payload of a string is exactly the unescaping of the raw
/// characters between the quotes.
pub proof fn lemma_payload_unescape(s: Seq<char>, i: int)
    requires
        0 <= i <= s.len(),
    ensures
        str_payload(s, i) == unescape(s.subrange(i, str_end(s, i))),
    decreases s.len() - i,
{
    lemma_str_end(s, i);
    let e = str_end(s, i);
    let t = s.subrange(i, e);
    if i >= s.len() {
        assert(t =~= Seq::<char>::empty());
        assert(str_payload(s, i) =~= unescape(t));
    } else if s[i] == '\\' && i + 1 < s.len() && (s[i + 1] == '"' || s[i + 1] == '\\') {
        lemma_payload_unescape(s, i + 2);
        lemma_str_end(s, i + 2);
        assert(t.len() >= 2);
        assert(t[0] == s[i] && t[1] == s[i + 1]);
        assert(t.skip(2) =~= s.subrange(i + 2, e));
        assert(str_payload(s, i) =~= unescape(t));
    } else if s[i] == '"' {
        assert(t =~= Seq::<char>::empty());
        assert(str_payload(s, i) =~= unescape(t));
    } else {
        lemma_payload_unescape(s, i + 1);
        lemma_str_end(s, i + 1);
        assert(t.len() >= 1);
        assert(t[0] == s[i]);
        if t.len() >= 2 {
            assert(t[1] == s[i + 1]);
        }
        assert(t.skip(1) =~= s.subrange(i + 1, e));
        assert(str_payload(s, i) =~= unescape(t));
    }
}

/// An endpoint triple naming the character at offset `p`.
pub open spec fn is_at(e: (usize, usize, usize), s: Seq<char>, p: int) -> bool {
    e.0 == p && e.1 == line_of(s, p) && e.2 == col_of(s, p)
}

/// An endpoint triple one past the character at offset `m`, on its line.
pub open spec fn is_after(e: (usize, usize, usize), s: Seq<char>, m: int) -> bool {
    e.0 == m + 1 && e.1 == line_of(s, m) && e.2 == col_of(s, m) + 1
}

/// A span from the character at `a` through the character at `b_last`.
pub open spec fn spans(p: Position, s: Seq<char>, a: int, b_last: int) -> bool {
    is_at(p.from, s, a) && is_after(p.to, s, b_last)
}

/// A successful single-character token at offset `q`.
pub open spec fn tok_at(r: Result<Token, LexerError>, lex: Lexeme, s: Seq<char>, q: int) -> bool {
    match r {
        Ok(t) => t.lexeme == lex && spans(t.position, s, q, q),
        Err(_) => false,
    }
}

/// A word-shaped token (an identifier run) starting at offset `q` whose
/// classification among `Underscore`/`Keyword`/`Word` applies: used for
/// runs that begin with a letter.
pub open spec fn word_case(s: Seq<char>, q: int, r: Result<Token, LexerError>, p1: int) -> bool {
    let e = word_run_end(s, q);
    let w = s.subrange(q, e);
    let mw = e < s.len() && s[e] == '[';
    match r {
        Ok(t) => {
            &&& is_at(t.position.from, s, q)
            &&& if mw {
                &&& match t.lexeme {
                    Lexeme::Mword(x) => x@ == w,
                    _ => false,
                }
                &&& is_after(t.position.to, s, e)
                &&& p1 == e + 1
            } else {
                &&& match t.lexeme {
                    Lexeme::Underscore => w == "_"@,
                    Lexeme::Keyword(x) => x@ == w && keyword_text(w) && w != "_"@,
                    Lexeme::Word(x) => x@ == w && !keyword_text(w) && w != "_"@,
                    _ => false,
                }
                &&& is_after(t.position.to, s, e - 1)
                &&& p1 == e
            }
        },
        Err(_) => false,
    }
}

/// A token starting on a digit at offset `q`: an integer, a float, or an
/// identifier that begins with digits and continues with a letter.
pub open spec fn integer_case(s: Seq<char>, q: int, r: Result<Token, LexerError>, p1: int) -> bool {
    let n = s.len() as int;
    let d = digit_run_end(s, q);
    if d < n && letter_char(s[d]) {
        let e = word_run_end(s, q);
        let w = s.subrange(q, e);
        let mw = e < n && s[e] == '[';
        match r {
            Ok(t) => {
                &&& is_at(t.position.from, s, q)
                &&& if mw {
                    &&& match t.lexeme {
                        Lexeme::Mword(x) => x@ == w,
                        _ => false,
                    }
                    &&& is_after(t.position.to, s, e)
                    &&& p1 == e + 1
                } else {
                    &&& match t.lexeme {
                        Lexeme::Word(x) => x@ == w,
                        _ => false,
                    }
                    &&& is_after(t.position.to, s, e - 1)
                    &&& p1 == e
                }
            },
            Err(_) => false,
        }
    } else if d < n && s[d] == '[' {
        // a measured numeric literal: the digits with the bracket consumed
        match r {
            Ok(t) => {
                &&& match t.lexeme {
                    Lexeme::Mword(x) => x@ == s.subrange(q, d),
                    _ => false,
                }
                &&& spans(t.position, s, q, d)
                &&& p1 == d + 1
            },
            Err(_) => false,
        }
    } else if d < n && s[d] == '.' {
        if d + 1 < n && digit_char(s[d + 1]) {
            let f = digit_run_end(s, d + 1);
            match r {
                Ok(t) => {
                    &&& match t.lexeme {
                        Lexeme::Float(x) => x@ == s.subrange(q, f),
                        _ => false,
                    }
                    &&& spans(t.position, s, q, f - 1)
                    &&& p1 == f
                },
                Err(_) => false,
            }
        } else {
            match r {
                Err(LexerError::InvalidInteger(pp)) => spans(pp, s, q, d) && p1 == d,
                _ => false,
            }
        }
    } else {
        match r {
            Ok(t) => {
                &&& match t.lexeme {
                    Lexeme::Integer(x) => x@ == s.subrange(q, d),
                    _ => false,
                }
                &&& spans(t.position, s, q, d - 1)
                &&& p1 == d
            },
            Err(_) => false,
        }
    }
}

/// A hexadecimal literal starting with `0x` at offset `q`. The run after the
/// prefix ends when the character after the current one is whitespace, a
/// newline or absent; every character of the run must be a hex digit.
pub open spec fn hex_case(s: Seq<char>, q: int, r: Result<Token, LexerError>, p1: int) -> bool {
    let n = s.len() as int;
    let i0 = q + 2;
    if i0 >= n {
        match r {
            Err(LexerError::InvalidInteger(pp)) => spans(pp, s, q, q + 1) && p1 == i0,
            _ => false,
        }
    } else {
        let h = hex_run_end(s, i0);
        let g = hex_digit_run_end(s, i0);
        if g >= h {
            match r {
                Ok(t) => {
                    &&& match t.lexeme {
                        Lexeme::Integer(x) => x@ == s.subrange(q, h),
                        _ => false,
                    }
                    &&& spans(t.position, s, q, h - 1)
                    &&& p1 == h
                },
                Err(_) => false,
            }
        } else {
            match r {
                Err(LexerError::InvalidInteger(pp)) => spans(pp, s, q, g) && p1 == g,
                _ => false,
            }
        }
    }
}

/// A comment starting with `--` at offset `q`. A `.` or `^` right after the
/// markers selects the documentation flavor; the text runs to the end of the
/// line, and the newline itself is not consumed.
pub open spec fn comment_case(s: Seq<char>, q: int, r: Result<Token, LexerError>, p1: int) -> bool {
    let n = s.len() as int;
    let b = q + 2;
    let doc = b < n && s[b] == '.';
    let top = b < n && s[b] == '^';
    let bs = if doc || top {
        b + 1
    } else {
        b
    };
    let ce = comment_run_end(s, bs);
    let w = s.subrange(bs, ce);
    match r {
        Ok(t) => {
            &&& match t.lexeme {
                Lexeme::Comment(x) => x@ == w && !doc && !top,
                Lexeme::DocComment(x) => x@ == w && doc,
                Lexeme::TopDocComment(x) => x@ == w && top,
                _ => false,
            }
            &&& is_at(t.position.from, s, q)
            &&& is_at(t.position.to, s, ce)
            &&& p1 == ce
        },
        Err(_) => false,
    }
}

/// A string literal whose opening quote stands at offset `q`.
pub open spec fn string_case(s: Seq<char>, q: int, r: Result<Token, LexerError>, p1: int) -> bool {
    let n = s.len() as int;
    let k = str_end(s, q + 1);
    if k < n {
        match r {
            Ok(t) => {
                &&& match t.lexeme {
                    Lexeme::String(x) => x@ == str_payload(s, q + 1),
                    _ => false,
                }
                &&& spans(t.position, s, q, k)
                &&& p1 == k + 1
            },
            Err(_) => false,
        }
    } else {
        match r {
            Err(LexerError::UnexpectedEof(pp)) => spans(pp, s, n, n) && p1 == n,
            _ => false,
        }
    }
}

/// The remapping of an operator run to punctuation lexemes.
pub open spec fn operator_lexeme(t: Lexeme, w: Seq<char>) -> bool {
    match t {
        Lexeme::Comma => w == ","@,
        Lexeme::Dot => w == "."@,
        Lexeme::Rarrow => w == "->"@,
        Lexeme::Colon => w == ":"@,
        Lexeme::Bar => w == "|"@,
        Lexeme::Equals => w == "="@,
        Lexeme::Operator(x) => {
            &&& x@ == w
            &&& w != ","@
            &&& w != "."@
            &&& w != "->"@
            &&& w != ":"@
            &&& w != "|"@
            &&& w != "="@
        },
        _ => false,
    }
}

/// An operator token: a maximal run of special characters from offset `q`.
pub open spec fn operator_case(s: Seq<char>, q: int, r: Result<Token, LexerError>, p1: int) -> bool {
    let e = special_run_end(s, q);
    let w = s.subrange(q, e);
    match r {
        Ok(t) => {
            &&& operator_lexeme(t.lexeme, w)
            &&& spans(t.position, s, q, e - 1)
            &&& p1 == e
        },
        Err(_) => false,
    }
}

/// An error that names the single character at offset `q`.
pub open spec fn mysterious_at(s: Seq<char>, q: int, r: Result<Token, LexerError>, p1: int) -> bool {
    match r {
        Err(LexerError::MysteriousChar(pp)) => spans(pp, s, q, q) && p1 == q,
        _ => false,
    }
}

/// Token dispatch once leading whitespace has been passed: `q` is the offset
/// of the first character of the token.
pub open spec fn dispatch(s: Seq<char>, q: int, r: Result<Token, LexerError>, p1: int) -> bool {
    let n = s.len() as int;
    if q >= n {
        tok_at(r, Lexeme::Eof, s, q) && p1 == q
    } else {
        let c = s[q];
        if c == '-' && q + 1 < n && s[q + 1] == '-' {
            comment_case(s, q, r, p1)
        } else if c == '[' {
            tok_at(r, Lexeme::Lbracket, s, q) && p1 == q + 1
        } else if c == 'T' && q + 1 < n && s[q + 1] == '[' {
            tok_at(r, Lexeme::Tbracket, s, q) && p1 == q + 2
        } else if c == ']' {
            tok_at(r, Lexeme::Rbracket, s, q) && p1 == q + 1
        } else if c == '{' {
            tok_at(r, Lexeme::Lbrace, s, q) && p1 == q + 1
        } else if c == '}' {
            tok_at(r, Lexeme::Rbrace, s, q) && p1 == q + 1
        } else if c == '(' {
            tok_at(r, Lexeme::Lparren, s, q) && p1 == q + 1
        } else if c == ')' {
            tok_at(r, Lexeme::Rparren, s, q) && p1 == q + 1
        } else if c == '\n' {
            tok_at(r, Lexeme::Newline, s, q) && p1 == q + 1
        } else if c == '"' {
            string_case(s, q, r, p1)
        } else if c == '\'' {
            // character literals are not part of the language yet
            mysterious_at(s, q, r, p1)
        } else if c == '0' && q + 1 < n && s[q + 1] == 'x' {
            hex_case(s, q, r, p1)
        } else if letter_char(c) {
            word_case(s, q, r, p1)
        } else if special_char(c) {
            operator_case(s, q, r, p1)
        } else if digit_char(c) {
            integer_case(s, q, r, p1)
        } else {
            mysterious_at(s, q, r, p1)
        }
    }
}

/// One full `next_token` call from state `(p0, ind0)`: the layout pass runs
/// first and may emit an `Indent`/`Unindent` token; otherwise the dispatcher
/// produces the token at the first non-whitespace character.
pub open spec fn step(
    s: Seq<char>,
    p0: int,
    ind0: int,
    r: Result<Token, LexerError>,
    p1: int,
    ind1: int,
) -> bool {
    let n = s.len() as int;
    let j = ws_run_end(s, p0);
    let lstart = col_of(s, p0) == 0;
    let fires = lstart && (j == n || s[j] != '\n');
    let iw = j - p0;
    if fires && iw != ind0 {
        &&& ind1 == iw
        &&& p1 == j
        &&& match r {
            Ok(t) => {
                &&& is_at(t.position.from, s, p0)
                &&& is_at(t.position.to, s, j)
                &&& match t.lexeme {
                    Lexeme::Indent(m) => iw > ind0 && m == iw - ind0,
                    Lexeme::Unindent(m) => iw < ind0 && m == ind0 - iw,
                    _ => false,
                }
            },
            Err(_) => false,
        }
    } else {
        &&& ind1 == ind0
        &&& dispatch(s, j, r, p1)
    }
}

} // verus!
