use indent_lexer::lexer::Lexer;
use indent_lexer::token::{Lexeme, LexerError, Position, Token};

fn lexer_for(text: &str) -> Lexer {
    Lexer::new(text.chars().collect())
}

fn collect_lexemes(lexer: &mut Lexer) -> Vec<Lexeme> {
    let mut lexemes = vec![];
    loop {
        let tok = lexer.next_token().unwrap();

        if tok.lexeme == Lexeme::Eof {
            lexemes.push(Lexeme::Eof);
            break;
        }

        lexemes.push(tok.lexeme)
    }
    lexemes
}

fn collect_positions(lexer: &mut Lexer) -> Vec<Position> {
    let mut positions = vec![];
    loop {
        let tok = lexer.next_token().unwrap();

        if tok.lexeme == Lexeme::Eof {
            break;
        }

        positions.push(tok.position)
    }
    positions
}

fn collect_tokens(lexer: &mut Lexer) -> Vec<Token> {
    let mut tokens = vec![];
    loop {
        let tok = lexer.next_token().unwrap();
        let done = tok.lexeme == Lexeme::Eof;
        tokens.push(tok);
        if done {
            break;
        }
    }
    tokens
}

fn draw_positions(positions: &[Position]) -> String {
    let chars = ['x', 'y'];

    let mut line = 0;
    let mut column = 0;

    let mut string = String::new();

    for (i, p) in positions.iter().enumerate() {
        while line < p.from.1 {
            string.push('\n');
            line += 1;
            column = 0;
        }

        while column < p.from.2 {
            string.push(' ');
            column += 1;
        }

        let delta = p.to.2 - p.from.2;
        for _ in 0..delta {
            string.push(chars[i % 2]);
            column += 1;
        }
    }

    string
}

#[test]
fn hello_lexer() {
    let hello = "main =\n    \"Hello, world!\" print_ln\n";

    let mut lexer = lexer_for(hello);
    let lexemes = collect_lexemes(&mut lexer);

    assert_eq!(
        &*lexemes,
        &[
            Lexeme::Word("main".to_string()),
            Lexeme::Equals,
            Lexeme::Newline,
            Lexeme::Indent(4),
            Lexeme::String("Hello, world!".to_string()),
            Lexeme::Word("print_ln".to_string()),
            Lexeme::Newline,
            Lexeme::Unindent(4),
            Lexeme::Eof
        ]
    )
}

#[test]
fn hello_positions() {
    let hello = "main =\n    \"Hello, world!\" print_ln\n    \"Hello, world!\" print_ln\n    \"Hello, world!\" print_ln";

    let mut lexer = lexer_for(hello);
    let positions = collect_positions(&mut lexer);

    let pretty = draw_positions(&positions);
    let gold = "xxxx yx\nyyyyxxxxxxxxxxxxxxx yyyyyyyyx\n    yyyyyyyyyyyyyyy xxxxxxxxy\n    xxxxxxxxxxxxxxx yyyyyyyy";

    assert_eq!(gold, &*pretty)
}

#[test]
fn stairs() {
    let faboor = "if foo:\n    if bar:\n        bar foo\n\n    foo bar\nelse: \n    baz baz baz\n";

    let mut lexer = lexer_for(faboor);
    let lexemes = collect_lexemes(&mut lexer);

    assert_eq!(
        &*lexemes,
        &[
            Lexeme::Keyword("if".to_string()),
            Lexeme::Word("foo".to_string()),
            Lexeme::Colon,
            Lexeme::Newline,
            Lexeme::Indent(4),
            Lexeme::Keyword("if".to_string()),
            Lexeme::Word("bar".to_string()),
            Lexeme::Colon,
            Lexeme::Newline,
            Lexeme::Indent(4),
            Lexeme::Word("bar".to_string()),
            Lexeme::Word("foo".to_string()),
            Lexeme::Newline,
            Lexeme::Newline,
            Lexeme::Unindent(4),
            Lexeme::Word("foo".to_string()),
            Lexeme::Word("bar".to_string()),
            Lexeme::Newline,
            Lexeme::Unindent(4),
            Lexeme::Keyword("else".to_string()),
            Lexeme::Colon,
            Lexeme::Newline,
            Lexeme::Indent(4),
            Lexeme::Word("baz".to_string()),
            Lexeme::Word("baz".to_string()),
            Lexeme::Word("baz".to_string()),
            Lexeme::Newline,
            Lexeme::Unindent(4),
            Lexeme::Eof
        ]
    )
}

#[test]
fn position_monotonicity() {
    // consecutive non-layout tokens never move backwards
    let text = "if foo:\n    bar 3.14 0xFF \"s\" -- c\nbaz\n";
    let mut lexer = lexer_for(text);
    let tokens = collect_tokens(&mut lexer);
    let mut last_to = 0;
    for t in &tokens {
        match t.lexeme {
            Lexeme::Indent(_) | Lexeme::Unindent(_) | Lexeme::Eof => continue,
            _ => {}
        }
        assert!(t.position.from.0 >= last_to);
        last_to = t.position.to.0;
    }
}

#[test]
fn newline_iff_literal_newline() {
    let text = "a\nb c\n\nd";
    let mut lexer = lexer_for(text);
    let tokens = collect_tokens(&mut lexer);
    let newline_offsets: Vec<usize> = tokens
        .iter()
        .filter(|t| t.lexeme == Lexeme::Newline)
        .map(|t| t.position.from.0)
        .collect();
    let literal_offsets: Vec<usize> = text
        .chars()
        .enumerate()
        .filter(|(_, c)| *c == '\n')
        .map(|(i, _)| i)
        .collect();
    assert_eq!(newline_offsets, literal_offsets);
}

#[test]
fn indent_balance_at_eof() {
    // Indent magnitudes minus Unindent magnitudes equal the last level;
    // no dedent to zero is synthesized before Eof
    let text = "a\n  b\n      c\n";
    let mut lexer = lexer_for(text);
    let lexemes = collect_lexemes(&mut lexer);
    let mut sum: i64 = 0;
    for l in &lexemes {
        match l {
            Lexeme::Indent(n) => sum += *n as i64,
            Lexeme::Unindent(n) => sum -= *n as i64,
            _ => {}
        }
    }
    assert_eq!(sum, 0);
    let text2 = "a\n  b\n      c";
    let mut lexer2 = lexer_for(text2);
    let lexemes2 = collect_lexemes(&mut lexer2);
    let mut sum2: i64 = 0;
    for l in &lexemes2 {
        match l {
            Lexeme::Indent(n) => sum2 += *n as i64,
            Lexeme::Unindent(n) => sum2 -= *n as i64,
            _ => {}
        }
    }
    assert_eq!(sum2, 6);
}

#[test]
fn blank_line_only_newline() {
    let text = "a\n\n   \nb\n";
    let mut lexer = lexer_for(text);
    let lexemes = collect_lexemes(&mut lexer);
    assert_eq!(
        &*lexemes,
        &[
            Lexeme::Word("a".to_string()),
            Lexeme::Newline,
            Lexeme::Newline,
            Lexeme::Newline,
            Lexeme::Word("b".to_string()),
            Lexeme::Newline,
            Lexeme::Eof
        ]
    );
}

#[test]
fn keyword_exclusivity() {
    let text = "data forall case where if else infix infixl infixr dataa iff infixrr";
    let mut lexer = lexer_for(text);
    let lexemes = collect_lexemes(&mut lexer);
    let keywords = [
        "data", "forall", "case", "where", "if", "else", "infix", "infixl", "infixr",
    ];
    let mut expected: Vec<Lexeme> = keywords.iter().map(|k| Lexeme::Keyword(k.to_string())).collect();
    expected.push(Lexeme::Word("dataa".to_string()));
    expected.push(Lexeme::Word("iff".to_string()));
    expected.push(Lexeme::Word("infixrr".to_string()));
    expected.push(Lexeme::Eof);
    assert_eq!(lexemes, expected);
}

#[test]
fn measured_words() {
    let mut lexer = lexer_for("vec[");
    let lexemes = collect_lexemes(&mut lexer);
    assert_eq!(&*lexemes, &[Lexeme::Mword("vec".to_string()), Lexeme::Eof]);

    let mut lexer = lexer_for("16[");
    let lexemes = collect_lexemes(&mut lexer);
    assert_eq!(&*lexemes, &[Lexeme::Mword("16".to_string()), Lexeme::Eof]);

    // with a space before the bracket the bracket stays its own token
    let mut lexer = lexer_for("vec [");
    let lexemes = collect_lexemes(&mut lexer);
    assert_eq!(&*lexemes, &[Lexeme::Word("vec".to_string()), Lexeme::Lbracket, Lexeme::Eof]);
}

#[test]
fn numbers_and_hex() {
    let mut lexer = lexer_for("3.14");
    let lexemes = collect_lexemes(&mut lexer);
    assert_eq!(&*lexemes, &[Lexeme::Float("3.14".to_string()), Lexeme::Eof]);

    let mut lexer = lexer_for("3.");
    let err = lexer.next_token().unwrap_err();
    assert!(matches!(err, LexerError::InvalidInteger(_)));

    let mut lexer = lexer_for("0xBEEF");
    let lexemes = collect_lexemes(&mut lexer);
    assert_eq!(&*lexemes, &[Lexeme::Integer("0xBEEF".to_string()), Lexeme::Eof]);

    let mut lexer = lexer_for("42 7x");
    let lexemes = collect_lexemes(&mut lexer);
    assert_eq!(
        &*lexemes,
        &[Lexeme::Integer("42".to_string()), Lexeme::Word("7x".to_string()), Lexeme::Eof]
    );
}

#[test]
fn hex_errors() {
    let mut lexer = lexer_for("0x");
    let err = lexer.next_token().unwrap_err();
    assert!(matches!(err, LexerError::InvalidInteger(_)));

    let mut lexer = lexer_for("0xZ ");
    let err = lexer.next_token().unwrap_err();
    assert!(matches!(err, LexerError::InvalidInteger(_)));
}

#[test]
fn comment_flavors() {
    let mut lexer = lexer_for("-- note\n");
    let lexemes = collect_lexemes(&mut lexer);
    assert_eq!(&*lexemes, &[Lexeme::Comment(" note".to_string()), Lexeme::Newline, Lexeme::Eof]);

    let mut lexer = lexer_for("--. doc\n");
    let lexemes = collect_lexemes(&mut lexer);
    assert_eq!(&*lexemes, &[Lexeme::DocComment(" doc".to_string()), Lexeme::Newline, Lexeme::Eof]);

    let mut lexer = lexer_for("--^ top\n");
    let lexemes = collect_lexemes(&mut lexer);
    assert_eq!(
        &*lexemes,
        &[Lexeme::TopDocComment(" top".to_string()), Lexeme::Newline, Lexeme::Eof]
    );
}

#[test]
fn string_escapes() {
    let mut lexer = lexer_for("\"a\\\"b\\\\c\"");
    let lexemes = collect_lexemes(&mut lexer);
    assert_eq!(&*lexemes, &[Lexeme::String("a\"b\\c".to_string()), Lexeme::Eof]);

    // a backslash before any other character stays as it is
    let mut lexer = lexer_for("\"a\\nb\"");
    let lexemes = collect_lexemes(&mut lexer);
    assert_eq!(&*lexemes, &[Lexeme::String("a\\nb".to_string()), Lexeme::Eof]);
}

#[test]
fn unterminated_string() {
    let mut lexer = lexer_for("\"abc");
    let err = lexer.next_token().unwrap_err();
    assert!(matches!(err, LexerError::UnexpectedEof(_)));
}

#[test]
fn mysterious_characters() {
    let mut lexer = lexer_for("`");
    let err = lexer.next_token().unwrap_err();
    assert!(matches!(err, LexerError::MysteriousChar(_)));

    // the character-literal syntax is not lexed
    let mut lexer = lexer_for("'c'");
    let err = lexer.next_token().unwrap_err();
    assert!(matches!(err, LexerError::MysteriousChar(_)));
}

#[test]
fn operators_and_punctuation() {
    let mut lexer = lexer_for("( ) [ ] { } , . -> : | = <*> _ _foo\n");
    let lexemes = collect_lexemes(&mut lexer);
    assert_eq!(
        &*lexemes,
        &[
            Lexeme::Lparren,
            Lexeme::Rparren,
            Lexeme::Lbracket,
            Lexeme::Rbracket,
            Lexeme::Lbrace,
            Lexeme::Rbrace,
            Lexeme::Comma,
            Lexeme::Dot,
            Lexeme::Rarrow,
            Lexeme::Colon,
            Lexeme::Bar,
            Lexeme::Equals,
            Lexeme::Operator("<*>".to_string()),
            Lexeme::Underscore,
            Lexeme::Word("_foo".to_string()),
            Lexeme::Newline,
            Lexeme::Eof
        ]
    );
}

#[test]
fn t_bracket() {
    let mut lexer = lexer_for("T[x]");
    let tokens = collect_tokens(&mut lexer);
    assert_eq!(tokens[0].lexeme, Lexeme::Tbracket);
    // the span covers only the T; the bracket is consumed silently
    assert_eq!(tokens[0].position.from.0, 0);
    assert_eq!(tokens[0].position.to.0, 1);
    assert_eq!(tokens[1].lexeme, Lexeme::Word("x".to_string()));
    assert_eq!(tokens[2].lexeme, Lexeme::Rbracket);

    let mut lexer = lexer_for("T x");
    let lexemes = collect_lexemes(&mut lexer);
    assert_eq!(
        &*lexemes,
        &[Lexeme::Word("T".to_string()), Lexeme::Word("x".to_string()), Lexeme::Eof]
    );
}

#[test]
fn eof_repeats() {
    let mut lexer = lexer_for("a");
    let first = lexer.next_token().unwrap();
    assert_eq!(first.lexeme, Lexeme::Word("a".to_string()));
    for _ in 0..3 {
        let t = lexer.next_token().unwrap();
        assert_eq!(t.lexeme, Lexeme::Eof);
    }
}

#[test]
fn cover_spans() {
    let mut lexer = lexer_for("ab cd");
    let tokens = collect_tokens(&mut lexer);
    let covered = tokens[0].position.cover(tokens[1].position);
    assert_eq!(covered.from, (0, 0, 0));
    assert_eq!(covered.to, (5, 0, 5));
    let same = tokens[1].position.cover(tokens[0].position);
    assert_eq!(covered, same);
}

#[test]
fn underscore_measured_word() {
    // the bracket check comes before the underscore special case
    let mut lexer = lexer_for("_[");
    let lexemes = collect_lexemes(&mut lexer);
    assert_eq!(&*lexemes, &[Lexeme::Mword("_".to_string()), Lexeme::Eof]);
}

#[test]
fn tabs_count_as_single_units() {
    let text = "a\n\t\tb\n";
    let mut lexer = lexer_for(text);
    let lexemes = collect_lexemes(&mut lexer);
    assert_eq!(
        &*lexemes,
        &[
            Lexeme::Word("a".to_string()),
            Lexeme::Newline,
            Lexeme::Indent(2),
            Lexeme::Word("b".to_string()),
            Lexeme::Newline,
            Lexeme::Unindent(2),
            Lexeme::Eof
        ]
    );
}

#[test]
fn trailing_whitespace_line_changes_level() {
    // a final line of bare whitespace is not blank: it reaches the end of
    // the text, so the layout pass compares its count against the level
    let mut lexer = lexer_for("a\n   ");
    let lexemes = collect_lexemes(&mut lexer);
    assert_eq!(
        &*lexemes,
        &[
            Lexeme::Word("a".to_string()),
            Lexeme::Newline,
            Lexeme::Indent(3),
            Lexeme::Eof
        ]
    );
}

#[test]
fn dashes_open_comments() {
    let mut lexer = lexer_for("-->\n- -\n");
    let lexemes = collect_lexemes(&mut lexer);
    assert_eq!(
        &*lexemes,
        &[
            Lexeme::Comment(">".to_string()),
            Lexeme::Newline,
            Lexeme::Operator("-".to_string()),
            Lexeme::Operator("-".to_string()),
            Lexeme::Newline,
            Lexeme::Eof
        ]
    );
}

#[test]
fn hex_before_newline() {
    let mut lexer = lexer_for("0xAB\n0x1f 9\n");
    let lexemes = collect_lexemes(&mut lexer);
    assert_eq!(
        &*lexemes,
        &[
            Lexeme::Integer("0xAB".to_string()),
            Lexeme::Newline,
            Lexeme::Integer("0x1f".to_string()),
            Lexeme::Integer("9".to_string()),
            Lexeme::Newline,
            Lexeme::Eof
        ]
    );
}

#[test]
fn invalid_integer_position() {
    // the error spans the numeric token read so far, the dot included
    let mut lexer = lexer_for("ab 37.x");
    let first = lexer.next_token().unwrap();
    assert_eq!(first.lexeme, Lexeme::Word("ab".to_string()));
    let err = lexer.next_token().unwrap_err();
    match err {
        LexerError::InvalidInteger(p) => {
            assert_eq!(p.from.0, 3);
            assert_eq!(p.to.0, 6);
        }
        other => panic!("unexpected error {:?}", other),
    }
}

#[test]
fn string_positions_span_quotes() {
    let mut lexer = lexer_for("\"ab\" x");
    let tokens = collect_tokens(&mut lexer);
    assert_eq!(tokens[0].lexeme, Lexeme::String("ab".to_string()));
    assert_eq!(tokens[0].position.from.0, 0);
    assert_eq!(tokens[0].position.to.0, 4);
}
