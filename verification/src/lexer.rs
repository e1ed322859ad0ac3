//! The lexer: a cursor over decoded text with indentation tracking.

use vstd::prelude::*;

use crate::chars::{
    digit_char, is_digit, is_hex_digit, is_keyword, is_letter, is_special, is_whitespace,
    is_word_char, letter_char, special_char, word_char,
};
use crate::model::{
    col_of, comment_case, comment_run_end, digit_run_end, hex_case, hex_digit_run_end,
    hex_run_end, integer_case, is_after, is_at, lemma_comment_run_end, lemma_digit_run_end,
    lemma_hex_digit_run_end, lemma_hex_run_end, lemma_line_col_bounds, lemma_special_run_end,
    lemma_str_end, lemma_word_run_end, lemma_word_run_skip, lemma_ws_run_end, line_of,
    operator_case, special_run_end, step, str_end, str_payload, string_case, word_case,
    word_run_end, ws_run_end,
};
use crate::text::make_string;
use crate::token::{Lexeme, LexerError, Position, Token};

verus! {

/// The lexer's state: the decoded text, the cursor offset, the current
/// indentation level, and the cursor's line and column.
pub struct Lexer {
    input: Vec<char>,
    indent: usize,
    seek: usize,
    line: usize,
    column: usize,
}

impl Lexer {
    /// The text being tokenized.
    pub closed spec fn text(&self) -> Seq<char> {
        self.input@
    }

    /// The cursor's absolute offset.
    pub closed spec fn offset(&self) -> int {
        self.seek as int
    }

    /// The current recorded indentation level.
    pub closed spec fn level(&self) -> int {
        self.indent as int
    }

    /// The cursor is inside the text and the line and column counters
    /// agree with the consumed prefix.
    pub closed spec fn wf(&self) -> bool {
        &&& self.seek <= self.input@.len()
        &&& self.input@.len() < usize::MAX
        &&& self.line == line_of(self.input@, self.seek as int)
        &&& self.column == col_of(self.input@, self.seek as int)
    }

    /// Builds a lexer over the given decoded text, at offset 0 with
    /// indentation level 0.
    pub fn new(input: Vec<char>) -> (l: Lexer)
        requires
            input@.len() < usize::MAX,
        ensures
            l.wf(),
            l.text() == input@,
            l.offset() == 0,
            l.level() == 0,
    {
        Lexer { input, indent: 0, seek: 0, line: 0, column: 0 }
    }

    /// The character under the cursor, if any.
    fn current(&self) -> (c: Option<char>)
        requires
            self.wf(),
        ensures
            c == if self.offset() < self.text().len() {
                Some(self.text()[self.offset()])
            } else {
                Option::<char>::None
            },
    {
        if self.seek < self.input.len() {
            Some(self.input[self.seek])
        } else {
            None
        }
    }

    /// The character after the one under the cursor, if any.
    fn lookahead(&self) -> (c: Option<char>)
        requires
            self.wf(),
        ensures
            c == if self.offset() + 1 < self.text().len() {
                Some(self.text()[self.offset() + 1])
            } else {
                Option::<char>::None
            },
    {
        if self.seek < self.input.len() && self.seek + 1 < self.input.len() {
            Some(self.input[self.seek + 1])
        } else {
            None
        }
    }

    /// Advances the cursor by one character, maintaining line and column.
    fn shift(&mut self)
        requires
            old(self).wf(),
            old(self).offset() < old(self).text().len(),
        ensures
            final(self).wf(),
            final(self).text() == old(self).text(),
            final(self).indent == old(self).indent,
            final(self).offset() == old(self).offset() + 1,
    {
        proof {
            lemma_line_col_bounds(self.input@, self.seek as int);
        }
        if self.input[self.seek] == '\n' {
            self.column = 0;
            self.line = self.line + 1;
        } else {
            self.column = self.column + 1;
        }
        self.seek = self.seek + 1;
    }

    /// The coordinate triple of the character under the cursor.
    fn cursor_point(&self) -> (e: (usize, usize, usize))
        requires
            self.wf(),
        ensures
            is_at(e, self.text(), self.offset()),
    {
        (self.seek, self.line, self.column)
    }

    /// The coordinate triple one past the character under the cursor.
    fn upper_bound(&self) -> (e: (usize, usize, usize))
        requires
            self.wf(),
        ensures
            is_after(e, self.text(), self.offset()),
    {
        proof {
            lemma_line_col_bounds(self.input@, self.seek as int);
        }
        (self.seek + 1, self.line, self.column + 1)
    }

    /// The single-character span at the cursor.
    fn cursor_position(&self) -> (p: Position)
        requires
            self.wf(),
        ensures
            is_at(p.from, self.text(), self.offset()),
            is_after(p.to, self.text(), self.offset()),
    {
        Position { from: self.cursor_point(), to: self.upper_bound() }
    }

    /// A token spanning the single character at the cursor.
    fn point_token(&self, lex: Lexeme) -> (t: Token)
        requires
            self.wf(),
        ensures
            t.lexeme == lex,
            is_at(t.position.from, self.text(), self.offset()),
            is_after(t.position.to, self.text(), self.offset()),
    {
        Token { lexeme: lex, position: self.cursor_position() }
    }

    /// The layout pass: consumes leading whitespace and, at the start of a
    /// non-blank line, emits an `Indent` or `Unindent` token when the
    /// leading whitespace count differs from the recorded level.
    fn skip_whitespace(&mut self) -> (r: Option<Token>)
        requires
            old(self).wf(),
        ensures
            final(self).wf(),
            final(self).text() == old(self).text(),
            ({
                let s = old(self).text();
                let p0 = old(self).offset();
                let j = ws_run_end(s, p0);
                let fires = col_of(s, p0) == 0 && (j == s.len() || s[j] != '\n');
                let iw = j - p0;
                &&& final(self).offset() == j
                &&& if fires && iw != old(self).level() {
                    &&& final(self).level() == iw
                    &&& match r {
                        Some(t) => {
                            &&& is_at(t.position.from, s, p0)
                            &&& is_at(t.position.to, s, j)
                            &&& match t.lexeme {
                                Lexeme::Indent(m) => iw > old(self).level() && m == iw - old(
                                    self,
                                ).level(),
                                Lexeme::Unindent(m) => iw < old(self).level() && m == old(
                                    self,
                                ).level() - iw,
                                _ => false,
                            }
                        },
                        None => false,
                    }
                } else {
                    &&& final(self).level() == old(self).level()
                    &&& r is None
                }
            }),
    {
        let ghost s = self.input@;
        let ghost p0 = self.seek as int;
        let ghost j = ws_run_end(s, p0);
        proof {
            lemma_ws_run_end(s, p0);
        }
        let is_line_start = self.column == 0;
        let start_pos = self.cursor_point();

        let mut indent: usize = 0;
        while self.seek < self.input.len() && is_whitespace(self.input[self.seek])
            invariant
                self.wf(),
                self.text() == s,
                self.indent == old(self).indent,
                0 <= p0 <= self.offset() <= s.len(),
                indent == self.offset() - p0,
                ws_run_end(s, self.offset()) == j,
            decreases s.len() - self.offset(),
        {
            proof {
                assert(ws_run_end(s, self.offset()) == ws_run_end(s, self.offset() + 1));
            }
            self.shift();
            indent = indent + 1;
        }
        proof {
            assert(ws_run_end(s, self.offset()) == self.offset());
            assert(self.offset() == j);
        }

        if is_line_start && (self.seek >= self.input.len() || self.input[self.seek] != '\n') {
            let position = Position { from: start_pos, to: self.cursor_point() };
            let res = if indent > self.indent {
                Some(Token { position, lexeme: Lexeme::Indent(indent - self.indent) })
            } else if indent < self.indent {
                Some(Token { position, lexeme: Lexeme::Unindent(self.indent - indent) })
            } else {
                None
            };
            self.indent = indent;
            res
        } else {
            None
        }
    }

    /// Consumes the maximal run of word characters from the cursor, leaving
    /// the cursor on the run's last character.
    fn read_word(&mut self) -> (w: Vec<char>)
        requires
            old(self).wf(),
            old(self).offset() < old(self).text().len(),
            word_char(old(self).text()[old(self).offset()]),
        ensures
            final(self).wf(),
            final(self).text() == old(self).text(),
            final(self).indent == old(self).indent,
            final(self).offset() == word_run_end(old(self).text(), old(self).offset()) - 1,
            w@ == old(self).text().subrange(
                old(self).offset(),
                word_run_end(old(self).text(), old(self).offset()),
            ),
    {
        let ghost s = self.input@;
        let ghost q = self.seek as int;
        let ghost e = word_run_end(s, q);
        proof {
            lemma_word_run_end(s, q);
            assert(word_run_end(s, q) == word_run_end(s, q + 1));
            lemma_word_run_end(s, q + 1);
        }
        let mut word: Vec<char> = Vec::new();
        loop
            invariant_except_break
                self.wf(),
                self.text() == s,
                self.indent == old(self).indent,
                0 <= q <= self.offset() < e <= s.len(),
                e == word_run_end(s, q),
                e == word_run_end(s, self.offset()),
                word@ == s.subrange(q, self.offset()),
            ensures
                self.wf(),
                self.text() == s,
                self.indent == old(self).indent,
                self.offset() == e - 1,
                word@ == s.subrange(q, e),
            decreases e - self.offset(),
        {
            let eow = match self.lookahead() {
                Some(c) => !is_word_char(c),
                None => true,
            };
            word.push(self.input[self.seek]);
            proof {
                assert(word@ =~= s.subrange(q, self.offset() + 1));
                lemma_word_run_end(s, self.offset());
                assert(word_run_end(s, self.offset()) == word_run_end(s, self.offset() + 1));
            }
            if eow {
                proof {
                    lemma_word_run_end(s, self.offset() + 1);
                    assert(e == self.offset() + 1);
                }
                break;
            }
            proof {
                lemma_word_run_end(s, self.offset() + 1);
            }
            self.shift();
        }
        word
    }

    /// Scans a word starting at a letter and classifies it as `Underscore`,
    /// `Keyword`, `Word`, or — when a `[` follows at once — `Mword`.
    fn word(&mut self) -> (r: Result<Token, LexerError>)
        requires
            old(self).wf(),
            old(self).offset() < old(self).text().len(),
            letter_char(old(self).text()[old(self).offset()]),
        ensures
            final(self).wf(),
            final(self).text() == old(self).text(),
            final(self).indent == old(self).indent,
            word_case(old(self).text(), old(self).offset(), r, final(self).offset()),
    {
        let ghost s = self.input@;
        let ghost q = self.seek as int;
        let ghost e = word_run_end(s, q);
        proof {
            reveal_strlit("_");
            lemma_word_run_end(s, q);
        }
        let start_pos = self.cursor_point();
        let word = self.read_word();
        let is_mword = match self.lookahead() {
            Some(c) => c == '[',
            None => false,
        };
        if is_mword {
            self.shift();
        }
        let to = self.upper_bound();
        let position = Position { from: start_pos, to };
        let lexeme = if is_mword {
            Lexeme::Mword(make_string(&word))
        } else if word.len() == 1 && word[0] == '_' {
            proof {
                assert(word@ =~= "_"@);
            }
            Lexeme::Underscore
        } else if is_keyword(&word) {
            Lexeme::Keyword(make_string(&word))
        } else {
            Lexeme::Word(make_string(&word))
        };
        self.shift();
        Ok(Token { position, lexeme })
    }

    /// Scans a token that starts with a digit: an integer, a float, or an
    /// identifier that begins with digits.
    fn integer_or_word(&mut self) -> (r: Result<Token, LexerError>)
        requires
            old(self).wf(),
            old(self).offset() < old(self).text().len(),
            digit_char(old(self).text()[old(self).offset()]),
        ensures
            final(self).wf(),
            final(self).text() == old(self).text(),
            final(self).indent == old(self).indent,
            integer_case(old(self).text(), old(self).offset(), r, final(self).offset()),
    {
        let ghost s = self.input@;
        let ghost q = self.seek as int;
        let ghost d = digit_run_end(s, q);
        proof {
            lemma_digit_run_end(s, q);
            assert(digit_run_end(s, q) == digit_run_end(s, q + 1));
            lemma_digit_run_end(s, q + 1);
        }
        let start_pos = self.cursor_point();
        let mut thing: Vec<char> = Vec::new();
        loop
            invariant
                self.wf(),
                self.text() == s,
                s == old(self).text(),
                q == old(self).offset(),
                self.indent == old(self).indent,
                0 <= q <= self.offset() < d <= s.len(),
                d == digit_run_end(s, q),
                d == digit_run_end(s, self.offset()),
                thing@ == s.subrange(q, self.offset()),
                is_at(start_pos, s, q),
            decreases d - self.offset(),
        {
            thing.push(self.input[self.seek]);
            proof {
                assert(thing@ =~= s.subrange(q, self.offset() + 1));
                lemma_digit_run_end(s, self.offset());
            }
            let la = self.lookahead();
            let cont_digit = match la {
                Some(c) => is_digit(c),
                None => false,
            };
            let cont_letter = match la {
                Some(c) => is_letter(c),
                None => false,
            };
            let dot = match la {
                Some(c) => c == '.',
                None => false,
            };
            let bracket = match la {
                Some(c) => c == '[',
                None => false,
            };
            if cont_digit {
                proof {
                    assert(digit_run_end(s, self.offset()) == digit_run_end(s, self.offset() + 1));
                    lemma_digit_run_end(s, self.offset() + 1);
                    assert(digit_run_end(s, self.offset() + 1) == digit_run_end(
                        s,
                        self.offset() + 2,
                    ));
                    lemma_digit_run_end(s, self.offset() + 2);
                }
                self.shift();
            } else if cont_letter {
                proof {
                    assert(digit_run_end(s, self.offset()) == digit_run_end(s, self.offset() + 1));
                    assert(d == self.offset() + 1);
                }
                self.shift();
                let ghost e = word_run_end(s, q);
                proof {
                    lemma_digit_run_end(s, q);
                    lemma_word_run_skip(s, q, d);
                }
                let mut rem = self.read_word();
                proof {
                    lemma_word_run_end(s, d);
                }
                thing.append(&mut rem);
                proof {
                    assert(thing@ =~= s.subrange(q, e));
                }
                let is_mword = match self.lookahead() {
                    Some(c) => c == '[',
                    None => false,
                };
                if is_mword {
                    self.shift();
                }
                let to = self.upper_bound();
                let position = Position { from: start_pos, to };
                let lexeme = if is_mword {
                    Lexeme::Mword(make_string(&thing))
                } else {
                    Lexeme::Word(make_string(&thing))
                };
                self.shift();
                return Ok(Token { position, lexeme });
            } else if bracket {
                proof {
                    assert(digit_run_end(s, self.offset()) == digit_run_end(s, self.offset() + 1));
                    assert(d == self.offset() + 1);
                }
                self.shift();
                let to = self.upper_bound();
                let position = Position { from: start_pos, to };
                self.shift();
                return Ok(Token { position, lexeme: Lexeme::Mword(make_string(&thing)) });
            } else if dot {
                proof {
                    assert(digit_run_end(s, self.offset()) == digit_run_end(s, self.offset() + 1));
                    assert(d == self.offset() + 1);
                }
                thing.push('.');
                self.shift();
                proof {
                    assert(thing@ =~= s.subrange(q, d + 1));
                }
                let next_digit = match self.lookahead() {
                    Some(c) => is_digit(c),
                    None => false,
                };
                if !next_digit {
                    let position = Position { from: start_pos, to: self.upper_bound() };
                    return Err(LexerError::InvalidInteger(position));
                }
                let ghost f = digit_run_end(s, d + 1);
                proof {
                    lemma_digit_run_end(s, d + 1);
                    assert(digit_run_end(s, d + 1) == digit_run_end(s, d + 2));
                    lemma_digit_run_end(s, d + 2);
                }
                self.shift();
                loop
                    invariant_except_break
                        self.wf(),
                        self.text() == s,
                        s == old(self).text(),
                        q == old(self).offset(),
                        self.indent == old(self).indent,
                        0 <= q < d + 1 <= self.offset() < f <= s.len(),
                        f == digit_run_end(s, d + 1),
                        f == digit_run_end(s, self.offset()),
                        thing@ == s.subrange(q, self.offset()),
                        is_at(start_pos, s, q),
                    ensures
                        self.wf(),
                        self.text() == s,
                        self.indent == old(self).indent,
                        0 <= q,
                        self.offset() == f - 1,
                        thing@ == s.subrange(q, f),
                        is_at(start_pos, s, q),
                    decreases f - self.offset(),
                {
                    thing.push(self.input[self.seek]);
                    proof {
                        assert(thing@ =~= s.subrange(q, self.offset() + 1));
                        lemma_digit_run_end(s, self.offset());
                        assert(digit_run_end(s, self.offset()) == digit_run_end(
                            s,
                            self.offset() + 1,
                        ));
                    }
                    let more = match self.lookahead() {
                        Some(c) => is_digit(c),
                        None => false,
                    };
                    if !more {
                        proof {
                            lemma_digit_run_end(s, self.offset() + 1);
                            assert(f == self.offset() + 1);
                        }
                        break;
                    }
                    proof {
                        lemma_digit_run_end(s, self.offset() + 1);
                    }
                    self.shift();
                }
                let to = self.upper_bound();
                let position = Position { from: start_pos, to };
                self.shift();
                return Ok(Token { position, lexeme: Lexeme::Float(make_string(&thing)) });
            } else {
                proof {
                    assert(digit_run_end(s, self.offset()) == digit_run_end(s, self.offset() + 1));
                    assert(d == self.offset() + 1);
                }
                let to = self.upper_bound();
                let position = Position { from: start_pos, to };
                self.shift();
                return Ok(Token { position, lexeme: Lexeme::Integer(make_string(&thing)) });
            }
        }
    }

    /// Scans a comment opened by `--`, selecting the documentation flavor
    /// from the marker that follows; the closing newline is left unread.
    fn comment(&mut self) -> (r: Result<Token, LexerError>)
        requires
            old(self).wf(),
            old(self).offset() + 1 < old(self).text().len(),
            old(self).text()[old(self).offset()] == '-',
            old(self).text()[old(self).offset() + 1] == '-',
        ensures
            final(self).wf(),
            final(self).text() == old(self).text(),
            final(self).indent == old(self).indent,
            comment_case(old(self).text(), old(self).offset(), r, final(self).offset()),
    {
        let ghost s = self.input@;
        let ghost q = self.seek as int;
        let start_pos = self.cursor_point();
        self.shift();
        self.shift();
        let cur = self.current();
        let is_doc = match cur {
            Some(c) => c == '.',
            None => false,
        };
        let is_top = match cur {
            Some(c) => c == '^',
            None => false,
        };
        if is_doc || is_top {
            self.shift();
        }
        let ghost bs = self.offset();
        let ghost ce = comment_run_end(s, bs);
        proof {
            lemma_comment_run_end(s, bs);
        }
        let mut line: Vec<char> = Vec::new();
        loop
            invariant_except_break
                self.wf(),
                self.text() == s,
                self.indent == old(self).indent,
                0 <= bs <= self.offset() <= ce <= s.len(),
                ce == comment_run_end(s, bs),
                ce == comment_run_end(s, self.offset()),
                line@ == s.subrange(bs, self.offset()),
            ensures
                self.wf(),
                self.text() == s,
                self.indent == old(self).indent,
                self.offset() == ce,
                line@ == s.subrange(bs, ce),
            decreases s.len() - self.offset(),
        {
            let cur2 = self.current();
            match cur2 {
                None => {
                    proof {
                        assert(comment_run_end(s, self.offset()) == self.offset());
                    }
                    break;
                },
                Some(c) => {
                    if c == '\n' {
                        proof {
                            assert(comment_run_end(s, self.offset()) == self.offset());
                        }
                        break;
                    }
                    line.push(c);
                    proof {
                        assert(line@ =~= s.subrange(bs, self.offset() + 1));
                        assert(comment_run_end(s, self.offset()) == comment_run_end(
                            s,
                            self.offset() + 1,
                        ));
                        lemma_comment_run_end(s, self.offset() + 1);
                    }
                    self.shift();
                },
            }
        }
        let position = Position { from: start_pos, to: self.cursor_point() };
        let lexeme = if is_doc {
            Lexeme::DocComment(make_string(&line))
        } else if is_top {
            Lexeme::TopDocComment(make_string(&line))
        } else {
            Lexeme::Comment(make_string(&line))
        };
        Ok(Token { position, lexeme })
    }

    /// Scans a string literal, decoding the quote and backslash escapes.
    fn string(&mut self) -> (r: Result<Token, LexerError>)
        requires
            old(self).wf(),
            old(self).offset() < old(self).text().len(),
            old(self).text()[old(self).offset()] == '"',
        ensures
            final(self).wf(),
            final(self).text() == old(self).text(),
            final(self).indent == old(self).indent,
            string_case(old(self).text(), old(self).offset(), r, final(self).offset()),
    {
        let ghost s = self.input@;
        let ghost q = self.seek as int;
        let ghost k = str_end(s, q + 1);
        proof {
            lemma_str_end(s, q + 1);
        }
        let start_pos = self.cursor_point();
        self.shift();
        let mut string: Vec<char> = Vec::new();
        loop
            invariant_except_break
                self.wf(),
                self.text() == s,
                s == old(self).text(),
                q == old(self).offset(),
                self.indent == old(self).indent,
                0 <= q + 1 <= self.offset() <= s.len(),
                k == str_end(s, q + 1),
                k == str_end(s, self.offset()),
                k <= s.len(),
                str_payload(s, q + 1) == string@ + str_payload(s, self.offset()),
                is_at(start_pos, s, q),
            ensures
                self.wf(),
                self.text() == s,
                self.indent == old(self).indent,
                k < s.len(),
                self.offset() == k,
                string@ == str_payload(s, q + 1),
                is_at(start_pos, s, q),
            decreases s.len() - self.offset(),
        {
            let cur = self.current();
            let la = self.lookahead();
            match cur {
                None => {
                    proof {
                        assert(str_end(s, self.offset()) == s.len());
                    }
                    let position = self.cursor_position();
                    return Err(LexerError::UnexpectedEof(position));
                },
                Some(c) => {
                    let la_quote = match la {
                        Some(x) => x == '"',
                        None => false,
                    };
                    let la_bs = match la {
                        Some(x) => x == '\\',
                        None => false,
                    };
                    if c == '\\' && (la_quote || la_bs) {
                        let decoded = if la_quote {
                            '"'
                        } else {
                            '\\'
                        };
                        let ghost sb = string@;
                        string.push(decoded);
                        proof {
                            let off = self.offset();
                            assert(str_end(s, off) == str_end(s, off + 2));
                            assert(str_payload(s, off) == seq![s[off + 1]] + str_payload(
                                s,
                                off + 2,
                            ));
                            assert(sb.push(decoded) + str_payload(s, off + 2) =~= sb
                                + str_payload(s, off));
                        }
                        self.shift();
                        self.shift();
                    } else if c == '"' {
                        proof {
                            assert(str_end(s, self.offset()) == self.offset());
                            assert(str_payload(s, self.offset()) =~= Seq::<char>::empty());
                            assert(string@ + str_payload(s, self.offset()) =~= string@);
                        }
                        break;
                    } else {
                        let ghost sb = string@;
                        string.push(c);
                        proof {
                            let off = self.offset();
                            assert(str_end(s, off) == str_end(s, off + 1));
                            assert(str_payload(s, off) == seq![s[off]] + str_payload(s, off + 1));
                            assert(sb.push(c) + str_payload(s, off + 1) =~= sb + str_payload(
                                s,
                                off,
                            ));
                        }
                        self.shift();
                    }
                },
            }
        }
        let to = self.upper_bound();
        let position = Position { from: start_pos, to };
        self.shift();
        Ok(Token { position, lexeme: Lexeme::String(make_string(&string)) })
    }

    /// Scans a hexadecimal integer literal opened by `0x`.
    fn hex_integer(&mut self) -> (r: Result<Token, LexerError>)
        requires
            old(self).wf(),
            old(self).offset() + 1 < old(self).text().len(),
            old(self).text()[old(self).offset()] == '0',
            old(self).text()[old(self).offset() + 1] == 'x',
        ensures
            final(self).wf(),
            final(self).text() == old(self).text(),
            final(self).indent == old(self).indent,
            hex_case(old(self).text(), old(self).offset(), r, final(self).offset()),
    {
        let ghost s = self.input@;
        let ghost q = self.seek as int;
        let start_pos = self.cursor_point();
        self.shift();
        let to_prefix = self.upper_bound();
        self.shift();
        if self.seek >= self.input.len() {
            return Err(LexerError::InvalidInteger(Position { from: start_pos, to: to_prefix }));
        }
        let ghost i0 = q + 2;
        let ghost h = hex_run_end(s, i0);
        let ghost g = hex_digit_run_end(s, i0);
        proof {
            lemma_hex_run_end(s, i0);
            lemma_hex_digit_run_end(s, i0);
        }
        let mut number: Vec<char> = Vec::new();
        number.push('0');
        number.push('x');
        proof {
            assert(number@ =~= s.subrange(q, q + 2));
        }
        loop
            invariant_except_break
                self.wf(),
                self.text() == s,
                s == old(self).text(),
                q == old(self).offset(),
                self.indent == old(self).indent,
                0 <= q,
                i0 == q + 2,
                i0 <= self.offset() < h <= s.len(),
                h == hex_run_end(s, i0),
                h == hex_run_end(s, self.offset()),
                g == hex_digit_run_end(s, i0),
                g == hex_digit_run_end(s, self.offset()),
                number@ == s.subrange(q, self.offset()),
                is_at(start_pos, s, q),
            ensures
                self.wf(),
                self.text() == s,
                self.indent == old(self).indent,
                0 <= q,
                i0 == q + 2,
                self.offset() == h - 1,
                number@ == s.subrange(q, h),
                g >= h,
                is_at(start_pos, s, q),
            decreases h - self.offset(),
        {
            let c = self.input[self.seek];
            if !is_hex_digit(c) {
                proof {
                    assert(hex_digit_run_end(s, self.offset()) == self.offset());
                    assert(g < h);
                }
                let position = Position { from: start_pos, to: self.upper_bound() };
                return Err(LexerError::InvalidInteger(position));
            }
            number.push(c);
            proof {
                assert(number@ =~= s.subrange(q, self.offset() + 1));
                assert(hex_digit_run_end(s, self.offset()) == hex_digit_run_end(
                    s,
                    self.offset() + 1,
                ));
                lemma_hex_digit_run_end(s, self.offset() + 1);
            }
            let eon = match self.lookahead() {
                Some(w) => is_whitespace(w) || w == '\n',
                None => true,
            };
            if eon {
                proof {
                    assert(hex_run_end(s, self.offset()) == self.offset() + 1);
                }
                break;
            }
            proof {
                assert(hex_run_end(s, self.offset()) == hex_run_end(s, self.offset() + 1));
                lemma_hex_run_end(s, self.offset() + 1);
            }
            self.shift();
        }
        let to = self.upper_bound();
        let position = Position { from: start_pos, to };
        self.shift();
        Ok(Token { position, lexeme: Lexeme::Integer(make_string(&number)) })
    }

    /// Scans the two-character opening `T[` as a single token whose span
    /// covers only the `T`.
    fn t_bracket(&mut self) -> (r: Result<Token, LexerError>)
        requires
            old(self).wf(),
            old(self).offset() + 1 < old(self).text().len(),
            old(self).text()[old(self).offset()] == 'T',
            old(self).text()[old(self).offset() + 1] == '[',
        ensures
            final(self).wf(),
            final(self).text() == old(self).text(),
            final(self).indent == old(self).indent,
            final(self).offset() == old(self).offset() + 2,
            match r {
                Ok(t) => {
                    &&& t.lexeme == Lexeme::Tbracket
                    &&& is_at(t.position.from, old(self).text(), old(self).offset())
                    &&& is_after(t.position.to, old(self).text(), old(self).offset())
                },
                Err(_) => false,
            },
    {
        let position = self.cursor_position();
        self.shift();
        self.shift();
        Ok(Token { position, lexeme: Lexeme::Tbracket })
    }

    /// Scans a maximal run of special characters and remaps the short
    /// punctuation spellings.
    fn operator(&mut self) -> (r: Result<Token, LexerError>)
        requires
            old(self).wf(),
            old(self).offset() < old(self).text().len(),
            special_char(old(self).text()[old(self).offset()]),
        ensures
            final(self).wf(),
            final(self).text() == old(self).text(),
            final(self).indent == old(self).indent,
            operator_case(old(self).text(), old(self).offset(), r, final(self).offset()),
    {
        let ghost s = self.input@;
        let ghost q = self.seek as int;
        let ghost e = special_run_end(s, q);
        proof {
            lemma_special_run_end(s, q);
            assert(special_run_end(s, q) == special_run_end(s, q + 1));
            lemma_special_run_end(s, q + 1);
        }
        let start_pos = self.cursor_point();
        let mut op: Vec<char> = Vec::new();
        loop
            invariant_except_break
                self.wf(),
                self.text() == s,
                self.indent == old(self).indent,
                0 <= q <= self.offset() < e <= s.len(),
                e == special_run_end(s, q),
                e == special_run_end(s, self.offset()),
                op@ == s.subrange(q, self.offset()),
                is_at(start_pos, s, q),
            ensures
                self.wf(),
                self.text() == s,
                self.indent == old(self).indent,
                self.offset() == e - 1,
                op@ == s.subrange(q, e),
                is_at(start_pos, s, q),
            decreases e - self.offset(),
        {
            let eop = match self.lookahead() {
                Some(c) => !is_special(c),
                None => true,
            };
            op.push(self.input[self.seek]);
            proof {
                assert(op@ =~= s.subrange(q, self.offset() + 1));
                lemma_special_run_end(s, self.offset());
                assert(special_run_end(s, self.offset()) == special_run_end(s, self.offset() + 1));
            }
            if eop {
                proof {
                    lemma_special_run_end(s, self.offset() + 1);
                    assert(e == self.offset() + 1);
                }
                break;
            }
            proof {
                lemma_special_run_end(s, self.offset() + 1);
            }
            self.shift();
        }
        let to = self.upper_bound();
        let position = Position { from: start_pos, to };
        proof {
            reveal_strlit(",");
            reveal_strlit(".");
            reveal_strlit("->");
            reveal_strlit(":");
            reveal_strlit("|");
            reveal_strlit("=");
        }
        let lexeme = if op.len() == 1 && op[0] == ',' {
            proof {
                assert(op@ =~= ","@);
            }
            Lexeme::Comma
        } else if op.len() == 1 && op[0] == '.' {
            proof {
                assert(op@ =~= "."@);
            }
            Lexeme::Dot
        } else if op.len() == 2 && op[0] == '-' && op[1] == '>' {
            proof {
                assert(op@ =~= "->"@);
            }
            Lexeme::Rarrow
        } else if op.len() == 1 && op[0] == ':' {
            proof {
                assert(op@ =~= ":"@);
            }
            Lexeme::Colon
        } else if op.len() == 1 && op[0] == '|' {
            proof {
                assert(op@ =~= "|"@);
            }
            Lexeme::Bar
        } else if op.len() == 1 && op[0] == '=' {
            proof {
                assert(op@ =~= "="@);
            }
            Lexeme::Equals
        } else {
            Lexeme::Operator(make_string(&op))
        };
        self.shift();
        Ok(Token { position, lexeme })
    }

    /// Produces the next token of the stream, or the error that ends it.
    /// Once the text is exhausted every further call returns `Eof`.
    pub fn next_token(&mut self) -> (r: Result<Token, LexerError>)
        requires
            old(self).wf(),
        ensures
            final(self).wf(),
            final(self).text() == old(self).text(),
            step(
                old(self).text(),
                old(self).offset(),
                old(self).level(),
                r,
                final(self).offset(),
                final(self).level(),
            ),
    {
        let ghost s = self.input@;
        let ghost p0 = self.seek as int;
        let ghost ind0 = self.indent as int;
        match self.skip_whitespace() {
            Some(tok) => {
                return Ok(tok);
            },
            None => {},
        }
        let cur = self.current();
        let c = match cur {
            Some(c) => c,
            None => {
                return Ok(self.point_token(Lexeme::Eof));
            },
        };
        let la = self.lookahead();
        let la_dash = match la {
            Some(x) => x == '-',
            None => false,
        };
        let la_lbrack = match la {
            Some(x) => x == '[',
            None => false,
        };
        let la_x = match la {
            Some(x) => x == 'x',
            None => false,
        };
        if c == '-' && la_dash {
            self.comment()
        } else if c == '[' {
            let t = self.point_token(Lexeme::Lbracket);
            self.shift();
            Ok(t)
        } else if c == 'T' && la_lbrack {
            self.t_bracket()
        } else if c == ']' {
            let t = self.point_token(Lexeme::Rbracket);
            self.shift();
            Ok(t)
        } else if c == '{' {
            let t = self.point_token(Lexeme::Lbrace);
            self.shift();
            Ok(t)
        } else if c == '}' {
            let t = self.point_token(Lexeme::Rbrace);
            self.shift();
            Ok(t)
        } else if c == '(' {
            let t = self.point_token(Lexeme::Lparren);
            self.shift();
            Ok(t)
        } else if c == ')' {
            let t = self.point_token(Lexeme::Rparren);
            self.shift();
            Ok(t)
        } else if c == '\n' {
            let t = self.point_token(Lexeme::Newline);
            self.shift();
            Ok(t)
        } else if c == '"' {
            self.string()
        } else if c == '\'' {
            // character literals are not part of the language yet
            let position = self.cursor_position();
            Err(LexerError::MysteriousChar(position))
        } else if c == '0' && la_x {
            self.hex_integer()
        } else if is_letter(c) {
            self.word()
        } else if is_special(c) {
            self.operator()
        } else if is_digit(c) {
            self.integer_or_word()
        } else {
            let position = self.cursor_position();
            Err(LexerError::MysteriousChar(position))
        }
    }
}

} // verus!
