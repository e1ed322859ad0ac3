//! Laws of the token stream, proved against the lexer's model.
//!
//! Every lemma here quantifies over `step`, the relation that `next_token`
//! is proved to satisfy, so each law holds of every token the lexer can
//! ever produce.

use vstd::prelude::*;

use crate::chars::keyword_text;
use crate::model::{
    col_of, lemma_comment_run_end, lemma_digit_run_end, lemma_hex_digit_run_end,
    lemma_hex_run_end, lemma_payload_unescape, lemma_special_run_end, lemma_str_end,
    lemma_word_run_end, lemma_ws_run_end, step, str_end, unescape, word_run_end, ws_run_end,
};
use crate::token::{Lexeme, LexerError, Token};

verus! {

/// Every successful step moves the cursor forward, the token starts no
/// earlier than the old cursor, and a token that is neither layout nor
/// `Eof` ends exactly where the cursor is left.
pub proof fn lemma_step_token_bounds(
    s: Seq<char>,
    p0: int,
    ind0: int,
    t: Token,
    p1: int,
    ind1: int,
)
    requires
        0 <= p0 <= s.len(),
        step(s, p0, ind0, Result::<Token, LexerError>::Ok(t), p1, ind1),
    ensures
        p0 <= p1 <= s.len(),
        p0 <= t.position.from.0,
        !(t.lexeme is Indent) && !(t.lexeme is Unindent) && !(t.lexeme is Eof) ==> t.position.to.0
            <= p1,
        t.lexeme is Eof ==> t.position.from.0 == p1 && t.position.to.0 == p1 + 1,
{
    let j = ws_run_end(s, p0);
    lemma_ws_run_end(s, p0);
    let r = Result::<Token, LexerError>::Ok(t);
    let fires = col_of(s, p0) == 0 && (j == s.len() || s[j] != '\n');
    if fires && j - p0 != ind0 {
    } else {
        if j < s.len() {
            let c = s[j];
            if c == '-' && j + 1 < s.len() && s[j + 1] == '-' {
                let b = j + 2;
                let bs = if b < s.len() && (s[b] == '.' || s[b] == '^') {
                    b + 1
                } else {
                    b
                };
                lemma_comment_run_end(s, bs);
            } else if c == '"' {
                lemma_str_end(s, j + 1);
            } else if c == '0' && j + 1 < s.len() && s[j + 1] == 'x' {
                if j + 2 < s.len() {
                    lemma_hex_run_end(s, j + 2);
                    lemma_hex_digit_run_end(s, j + 2);
                }
            } else if crate::chars::letter_char(c) {
                lemma_word_run_end(s, j);
                assert(word_run_end(s, j) == word_run_end(s, j + 1));
                lemma_word_run_end(s, j + 1);
            } else if crate::chars::special_char(c) {
                lemma_special_run_end(s, j);
                assert(crate::model::special_run_end(s, j) == crate::model::special_run_end(
                    s,
                    j + 1,
                ));
                lemma_special_run_end(s, j + 1);
            } else if crate::chars::digit_char(c) {
                lemma_digit_run_end(s, j);
                assert(crate::model::digit_run_end(s, j) == crate::model::digit_run_end(s, j + 1));
                lemma_digit_run_end(s, j + 1);
                let d = crate::model::digit_run_end(s, j);
                if d < s.len() && crate::chars::letter_char(s[d]) {
                    lemma_word_run_end(s, j);
                    assert(word_run_end(s, j) == word_run_end(s, j + 1));
                    lemma_word_run_end(s, j + 1);
                } else if d < s.len() && s[d] == '.' {
                    if d + 1 < s.len() && crate::chars::digit_char(s[d + 1]) {
                        lemma_digit_run_end(s, d + 1);
                        assert(crate::model::digit_run_end(s, d + 1)
                            == crate::model::digit_run_end(s, d + 2));
                        lemma_digit_run_end(s, d + 2);
                    }
                }
            }
        }
    }
}

/// Position monotonicity: for two consecutive tokens that are neither
/// layout tokens nor `Eof` at the first position, the second token starts
/// no earlier than where the first one ends.
pub proof fn lemma_position_monotone(
    s: Seq<char>,
    p0: int,
    ind0: int,
    t1: Token,
    p1: int,
    ind1: int,
    t2: Token,
    p2: int,
    ind2: int,
)
    requires
        0 <= p0 <= s.len(),
        step(s, p0, ind0, Result::<Token, LexerError>::Ok(t1), p1, ind1),
        step(s, p1, ind1, Result::<Token, LexerError>::Ok(t2), p2, ind2),
        !(t1.lexeme is Indent),
        !(t1.lexeme is Unindent),
        !(t1.lexeme is Eof),
    ensures
        t1.position.to.0 <= t2.position.from.0,
{
    lemma_step_token_bounds(s, p0, ind0, t1, p1, ind1);
    lemma_step_token_bounds(s, p1, ind1, t2, p2, ind2);
}

/// Newline semantics: a step yields a `Newline` token exactly when the
/// first character past the leading whitespace is a literal newline, and
/// then the token sits on that very character.
pub proof fn lemma_newline_semantics(
    s: Seq<char>,
    p0: int,
    ind0: int,
    r: Result<Token, LexerError>,
    p1: int,
    ind1: int,
)
    requires
        0 <= p0 <= s.len(),
        step(s, p0, ind0, r, p1, ind1),
    ensures
        ({
            let j = ws_run_end(s, p0);
            let newline_tok = match r {
                Ok(t) => t.lexeme is Newline,
                Err(_) => false,
            };
            &&& newline_tok <==> (j < s.len() && s[j] == '\n')
            &&& newline_tok ==> match r {
                Ok(t) => t.position.from.0 == j && t.position.to.0 == j + 1 && p1 == j + 1,
                Err(_) => false,
            }
        }),
{
    let j = ws_run_end(s, p0);
    lemma_ws_run_end(s, p0);
}

/// The signed layout contribution of one token result.
pub open spec fn layout_delta(r: Result<Token, LexerError>) -> int {
    match r {
        Ok(t) => match t.lexeme {
            Lexeme::Indent(m) => m as int,
            Lexeme::Unindent(m) => -(m as int),
            _ => 0,
        },
        Err(_) => 0,
    }
}

/// Each step changes the recorded indentation level by exactly the layout
/// contribution of the token it returns.
pub proof fn lemma_indent_delta(
    s: Seq<char>,
    p0: int,
    ind0: int,
    r: Result<Token, LexerError>,
    p1: int,
    ind1: int,
)
    requires
        0 <= p0 <= s.len(),
        step(s, p0, ind0, r, p1, ind1),
    ensures
        ind1 == ind0 + layout_delta(r),
{
    lemma_ws_run_end(s, p0);
}

/// Indent balance at a line start: after a step taken at the start of a
/// line whose first non-whitespace character is not a newline (or that
/// holds only whitespace up to the end of the text), the recorded level
/// equals the line's leading whitespace count.
pub proof fn lemma_line_start_sync(
    s: Seq<char>,
    p0: int,
    ind0: int,
    r: Result<Token, LexerError>,
    p1: int,
    ind1: int,
)
    requires
        0 <= p0 <= s.len(),
        step(s, p0, ind0, r, p1, ind1),
        col_of(s, p0) == 0,
        ws_run_end(s, p0) == s.len() || s[ws_run_end(s, p0)] != '\n',
    ensures
        ind1 == ws_run_end(s, p0) - p0,
{
}

/// The sum of layout contributions over a sequence of results.
pub open spec fn layout_sum(rs: Seq<Result<Token, LexerError>>) -> int
    decreases rs.len(),
{
    if rs.len() == 0 {
        0
    } else {
        layout_sum(rs.drop_last()) + layout_delta(rs.last())
    }
}

/// A chain of steps: `ps[k]` and `inds[k]` are the offset and the level
/// before the step that returns `rs[k]`.
pub open spec fn lex_chain(
    s: Seq<char>,
    ps: Seq<int>,
    inds: Seq<int>,
    rs: Seq<Result<Token, LexerError>>,
) -> bool {
    &&& ps.len() == rs.len() + 1
    &&& inds.len() == rs.len() + 1
    &&& forall|k: int|
        0 <= k < rs.len() ==> step(s, #[trigger] ps[k], inds[k], rs[k], ps[k + 1], inds[k + 1])
    &&& forall|k: int| 0 <= k < ps.len() ==> 0 <= #[trigger] ps[k] <= s.len()
}

/// Indent balance over any prefix of the token stream: the sum of `Indent`
/// magnitudes minus the sum of `Unindent` magnitudes equals the change of
/// the recorded indentation level.
pub proof fn lemma_indent_balance(
    s: Seq<char>,
    ps: Seq<int>,
    inds: Seq<int>,
    rs: Seq<Result<Token, LexerError>>,
)
    requires
        lex_chain(s, ps, inds, rs),
    ensures
        inds[rs.len() as int] == inds[0] + layout_sum(rs),
    decreases rs.len(),
{
    if rs.len() > 0 {
        let n = rs.len() as int;
        assert(lex_chain(s, ps.drop_last(), inds.drop_last(), rs.drop_last()));
        lemma_indent_balance(s, ps.drop_last(), inds.drop_last(), rs.drop_last());
        lemma_indent_delta(s, ps[n - 1], inds[n - 1], rs[n - 1], ps[n], inds[n]);
    }
}

/// Blank-line invariant: at the start of a line whose first character past
/// the leading whitespace is a newline, the step emits exactly a `Newline`
/// token, no layout token, and leaves the recorded level unchanged.
pub proof fn lemma_blank_line(
    s: Seq<char>,
    p0: int,
    ind0: int,
    r: Result<Token, LexerError>,
    p1: int,
    ind1: int,
)
    requires
        0 <= p0 <= s.len(),
        step(s, p0, ind0, r, p1, ind1),
        col_of(s, p0) == 0,
        ws_run_end(s, p0) < s.len(),
        s[ws_run_end(s, p0)] == '\n',
    ensures
        match r {
            Ok(t) => t.lexeme is Newline,
            Err(_) => false,
        },
        ind1 == ind0,
        p1 == ws_run_end(s, p0) + 1,
{
    lemma_newline_semantics(s, p0, ind0, r, p1, ind1);
    lemma_indent_delta(s, p0, ind0, r, p1, ind1);
}

/// Keyword exclusivity: every `Keyword` token's text belongs to the closed
/// keyword set, and no `Word` token's text does.
pub proof fn lemma_keyword_exclusivity(
    s: Seq<char>,
    p0: int,
    ind0: int,
    r: Result<Token, LexerError>,
    p1: int,
    ind1: int,
)
    requires
        0 <= p0 <= s.len(),
        step(s, p0, ind0, r, p1, ind1),
    ensures
        match r {
            Ok(t) => {
                &&& (t.lexeme matches Lexeme::Keyword(x) ==> keyword_text(x@))
                &&& (t.lexeme matches Lexeme::Word(x) ==> !keyword_text(x@))
            },
            Err(_) => true,
        },
{
    let j = ws_run_end(s, p0);
    lemma_ws_run_end(s, p0);
    if j < s.len() && crate::chars::digit_char(s[j]) && !crate::chars::letter_char(s[j]) && s[j]
        != '\'' && s[j] != '"' {
        let d = crate::model::digit_run_end(s, j);
        lemma_digit_run_end(s, j);
        if d < s.len() && crate::chars::letter_char(s[d]) {
            let e = word_run_end(s, j);
            lemma_word_run_end(s, j);
            assert(word_run_end(s, j) == word_run_end(s, j + 1));
            lemma_word_run_end(s, j + 1);
            let w = s.subrange(j, e);
            assert(w.len() > 0 && w[0] == s[j]);
            proof_digit_start_not_keyword(w);
        }
    }
}

/// A text that starts with a digit is not a keyword.
proof fn proof_digit_start_not_keyword(w: Seq<char>)
    requires
        w.len() > 0,
        crate::chars::digit_char(w[0]),
    ensures
        !keyword_text(w),
{
    reveal_strlit("data");
    reveal_strlit("forall");
    reveal_strlit("case");
    reveal_strlit("where");
    reveal_strlit("if");
    reveal_strlit("else");
    reveal_strlit("infix");
    reveal_strlit("infixl");
    reveal_strlit("infixr");
}

/// Mword trigger: an `Mword` token is emitted exactly for an identifier
/// run whose very next character in the source is `[`, and that `[` is
/// consumed with the token; a `Word` token's run is never followed by `[`.
pub proof fn lemma_mword_trigger(
    s: Seq<char>,
    p0: int,
    ind0: int,
    r: Result<Token, LexerError>,
    p1: int,
    ind1: int,
)
    requires
        0 <= p0 <= s.len(),
        step(s, p0, ind0, r, p1, ind1),
    ensures
        match r {
            Ok(t) => {
                &&& (t.lexeme matches Lexeme::Mword(x) ==> ({
                    let q = t.position.from.0 as int;
                    let e = q + x@.len();
                    &&& x@ == s.subrange(q, e)
                    &&& e < s.len()
                    &&& s[e] == '['
                    &&& p1 == e + 1
                }))
                &&& (t.lexeme matches Lexeme::Word(x) ==> ({
                    let q = t.position.from.0 as int;
                    let e = q + x@.len();
                    &&& x@ == s.subrange(q, e)
                    &&& e == s.len() || s[e] != '['
                }))
            },
            Err(_) => true,
        },
{
    let j = ws_run_end(s, p0);
    lemma_ws_run_end(s, p0);
    if j < s.len() {
        if crate::chars::letter_char(s[j]) {
            lemma_word_run_end(s, j);
            assert(word_run_end(s, j) == word_run_end(s, j + 1));
            lemma_word_run_end(s, j + 1);
        } else if crate::chars::digit_char(s[j]) {
            let d = crate::model::digit_run_end(s, j);
            lemma_digit_run_end(s, j);
            if d < s.len() && crate::chars::letter_char(s[d]) {
                lemma_word_run_end(s, j);
                assert(word_run_end(s, j) == word_run_end(s, j + 1));
                lemma_word_run_end(s, j + 1);
            }
        }
    }
}

/// String escape: a `String` token's payload is its source span without
/// the surrounding quotes and with each `\"` turned into `"` and each
/// `\\` into `\`, and nothing else changed.
pub proof fn lemma_string_escape(
    s: Seq<char>,
    p0: int,
    ind0: int,
    r: Result<Token, LexerError>,
    p1: int,
    ind1: int,
)
    requires
        0 <= p0 <= s.len(),
        step(s, p0, ind0, r, p1, ind1),
    ensures
        match r {
            Ok(t) => t.lexeme matches Lexeme::String(x) ==> ({
                let a = t.position.from.0 as int;
                let b = t.position.to.0 - 1;
                &&& 0 <= a < b < s.len()
                &&& s[a] == '"'
                &&& s[b] == '"'
                &&& x@ == unescape(s.subrange(a + 1, b))
            }),
            Err(_) => true,
        },
{
    let j = ws_run_end(s, p0);
    lemma_ws_run_end(s, p0);
    if j < s.len() && s[j] == '"' {
        lemma_str_end(s, j + 1);
        lemma_payload_unescape(s, j + 1);
        let k = str_end(s, j + 1);
        if k < s.len() {
            assert(j + 1 <= k);
        }
    }
}

} // verus!
