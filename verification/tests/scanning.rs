use flexar::diagnostic::{ErrorDef, Fragment};
use flexar::flext::Flext;
use flexar::lexer::{CharTest, Lexer, Rule, Step, TokenType};
use flexar::lext::Lext;
use flexar::token_node::Token;

const SLASH: u32 = 0;
const PLUS: u32 = 1;
const LPAREN: u32 = 2;
const RPAREN: u32 = 3;
const DOT: u32 = 4;
const COLON: u32 = 5;
const EEE: u32 = 6;
const EE: u32 = 7;
const EQ: u32 = 8;
const STR: u32 = 9;
const INT: u32 = 10;
const FLOAT: u32 = 11;

fn digits() -> CharTest {
    CharTest::OneOf("0123456789".chars().collect())
}

fn single(c: char, kind: u32) -> Rule {
    Rule::Single { test: CharTest::Is(c), kind }
}

fn sequence(text: &str, kind: u32) -> Rule {
    Rule::Sequence { tests: text.chars().map(CharTest::Is).collect(), kind }
}

fn invalid_character() -> ErrorDef {
    ErrorDef {
        code: "E001".to_string(),
        title: "invalid character".to_string(),
        template: vec![
            Fragment::Text("`".to_string()),
            Fragment::Arg(0),
            Fragment::Text("` is an invalid character".to_string()),
        ],
    }
}

fn string_not_closed() -> ErrorDef {
    ErrorDef {
        code: "E002".to_string(),
        title: "string not closed".to_string(),
        template: vec![
            Fragment::Text("expected `\"` to close string opened at ".to_string()),
            Fragment::Place(1),
        ],
    }
}

fn string_rule() -> Rule {
    Rule::Body {
        start: CharTest::Is('"'),
        flags: 0,
        texts: 1,
        steps: vec![
            Step::Advance,
            Step::Clear { var: 0 },
            Step::Repeat {
                label: 0,
                body: vec![
                    Step::Check {
                        test: CharTest::Is('"'),
                        body: vec![Step::Advance, Step::Done { kind: STR, text: Some(0) }],
                    },
                    Step::Push { var: 0 },
                ],
            },
            Step::Throw { error: string_not_closed() },
        ],
    }
}

fn number_rule() -> Rule {
    const DOT_SEEN: usize = 0;
    const MATCHED: usize = 1;
    Rule::Body {
        start: digits(),
        flags: 2,
        texts: 1,
        steps: vec![
            Step::Clear { var: 0 },
            Step::SetFlag { var: DOT_SEEN, value: false },
            Step::Repeat {
                label: 1,
                body: vec![
                    Step::SetFlag { var: MATCHED, value: false },
                    Step::Check {
                        test: digits(),
                        body: vec![
                            Step::SetFlag { var: MATCHED, value: true },
                            Step::Push { var: 0 },
                        ],
                    },
                    Step::Check {
                        test: CharTest::Is('.'),
                        body: vec![
                            Step::IfFlag {
                                var: DOT_SEEN,
                                expect: true,
                                body: vec![Step::Done { kind: FLOAT, text: Some(0) }],
                            },
                            Step::SetFlag { var: MATCHED, value: true },
                            Step::SetFlag { var: DOT_SEEN, value: true },
                            Step::Push { var: 0 },
                        ],
                    },
                    Step::IfFlag {
                        var: MATCHED,
                        expect: false,
                        body: vec![Step::Break { label: 1 }],
                    },
                ],
            },
            Step::IfFlag {
                var: DOT_SEEN,
                expect: true,
                body: vec![Step::Done { kind: FLOAT, text: Some(0) }],
            },
            Step::Done { kind: INT, text: Some(0) },
        ],
    }
}

fn lexer() -> Lexer {
    Lexer {
        rules: vec![
            single('/', SLASH),
            single('+', PLUS),
            single('(', LPAREN),
            single(')', RPAREN),
            single('.', DOT),
            single(':', COLON),
            Rule::Skip { test: CharTest::OneOf(vec![' ', '\n', '\t']) },
            sequence("===", EEE),
            sequence("==", EE),
            single('=', EQ),
            string_rule(),
            number_rule(),
        ],
        unmatched: invalid_character(),
    }
}

fn scan(text: &str) -> Vec<Token<TokenType>> {
    lexer().tokenise(Lext::new("test.fx".to_string(), text)).expect("the text scans")
}

fn kinds(tokens: &[Token<TokenType>]) -> Vec<u32> {
    tokens.iter().map(|t| t.token_type.kind).collect()
}

fn offsets(tokens: &[Token<TokenType>]) -> Vec<(usize, usize)> {
    tokens.iter().map(|t| (t.span.start.offset, t.span.end.offset)).collect()
}

#[test]
fn double_equals_is_one_token() {
    let tokens = scan("==");
    assert_eq!(kinds(&tokens), vec![EE]);
    assert_eq!(offsets(&tokens), vec![(0, 2)]);
    assert_eq!(tokens[0].token_type.text, None);
}

#[test]
fn single_equals_is_one_token() {
    let tokens = scan("=");
    assert_eq!(kinds(&tokens), vec![EQ]);
    assert_eq!(offsets(&tokens), vec![(0, 1)]);
}

#[test]
fn longest_sequence_wins_and_the_rest_is_scanned_again() {
    assert_eq!(kinds(&scan("===")), vec![EEE]);
    assert_eq!(kinds(&scan("====")), vec![EEE, EQ]);
    assert_eq!(kinds(&scan("=====")), vec![EEE, EE]);
    assert_eq!(kinds(&scan("==+=")), vec![EE, PLUS, EQ]);
}

#[test]
fn second_dot_ends_a_number() {
    let tokens = scan("12.3.4");
    assert_eq!(kinds(&tokens), vec![FLOAT, DOT, INT]);
    assert_eq!(tokens[0].token_type.text.as_deref(), Some("12.3"));
    assert_eq!(tokens[1].token_type.text, None);
    assert_eq!(tokens[2].token_type.text.as_deref(), Some("4"));
    assert_eq!(offsets(&tokens), vec![(0, 4), (4, 5), (5, 6)]);
}

#[test]
fn number_without_dot_is_an_integer() {
    let tokens = scan("2024");
    assert_eq!(kinds(&tokens), vec![INT]);
    assert_eq!(tokens[0].token_type.text.as_deref(), Some("2024"));
}

#[test]
fn number_stops_at_the_first_other_character() {
    let tokens = scan("7+1.5)");
    assert_eq!(kinds(&tokens), vec![INT, PLUS, FLOAT, RPAREN]);
    assert_eq!(tokens[0].token_type.text.as_deref(), Some("7"));
    assert_eq!(tokens[2].token_type.text.as_deref(), Some("1.5"));
}

#[test]
fn string_text_leaves_out_the_quotes() {
    let tokens = scan("\"a b\":");
    assert_eq!(kinds(&tokens), vec![STR, COLON]);
    assert_eq!(tokens[0].token_type.text.as_deref(), Some("a b"));
    assert_eq!(offsets(&tokens), vec![(0, 5), (5, 6)]);
}

#[test]
fn empty_string_has_empty_text() {
    let tokens = scan("\"\"");
    assert_eq!(kinds(&tokens), vec![STR]);
    assert_eq!(tokens[0].token_type.text.as_deref(), Some(""));
}

#[test]
fn tokens_lie_end_to_end() {
    let tokens = scan("1 + (2.5 / 3)\n== \"x\"");
    assert_eq!(
        kinds(&tokens),
        vec![INT, PLUS, LPAREN, FLOAT, SLASH, INT, RPAREN, EE, STR]
    );
    assert_eq!(tokens[0].span.start.offset, 0);
    for pair in tokens.windows(2) {
        assert_eq!(pair[1].span.start.offset, pair[0].span.end.offset);
        assert_eq!(pair[1].span.start.line, pair[0].span.end.line);
        assert_eq!(pair[1].span.start.column, pair[0].span.end.column);
    }
}

#[test]
fn lines_and_columns_follow_line_breaks() {
    let tokens = scan("1\n  +\n=");
    assert_eq!(kinds(&tokens), vec![INT, PLUS, EQ]);
    let plus = &tokens[1].span;
    assert_eq!((plus.end.line, plus.end.column, plus.end.offset), (1, 3, 5));
    let eq = &tokens[2].span;
    assert_eq!((eq.start.line, eq.start.column, eq.start.offset), (1, 3, 5));
    assert_eq!((eq.end.line, eq.end.column, eq.end.offset), (2, 1, 7));
}

#[test]
fn empty_text_has_no_tokens() {
    assert!(scan("").is_empty());
    assert!(scan(" \t ").is_empty());
}

#[test]
fn unmatched_character_is_fatal() {
    let error = lexer()
        .tokenise(Lext::new("test.fx".to_string(), "1 + ?"))
        .expect_err("`?` matches no rule");
    assert!(error.fatal);
    assert_eq!(error.code, "E001");
    assert_eq!(error.title, "invalid character");
    assert_eq!(error.message, "`?` is an invalid character");
    assert_eq!(error.spans.len(), 1);
    assert_eq!(error.spans[0].start.offset, 4);
    assert_eq!(error.spans[0].end.offset, 4);
}

#[test]
fn unclosed_string_is_fatal() {
    let error = lexer()
        .tokenise(Lext::new("test.fx".to_string(), "+\n \"abc"))
        .expect_err("the string is not closed");
    assert!(error.fatal);
    assert_eq!(error.code, "E002");
    assert_eq!(
        error.message,
        "expected `\"` to close string opened at test.fx:1:2"
    );
    assert_eq!(error.spans.len(), 2);
    assert_eq!(error.spans[0].start.offset, 7);
    assert_eq!(error.spans[1].start.offset, 1);
    assert_eq!(error.spans[1].end.offset, 7);
}

#[test]
fn leading_line_breaks_are_not_scanned() {
    let lext = Lext::new("test.fx".to_string(), "\n\n=\n");
    assert_eq!(lext.current, Some('='));
    assert_eq!(lext.cursor.source.len(), 2);
    let tokens = lexer().tokenise(lext).expect("the text scans");
    assert_eq!(offsets(&tokens), vec![(0, 1)]);
}

#[test]
fn failed_rule_leaves_the_cursor_alone() {
    let lext = Lext::new("test.fx".to_string(), "=+");
    let rule = sequence("==", EE);
    match rule.attempt(&lext) {
        flexar::lexer::Attempt::NoMatch => {}
        other => panic!("`==` matched `=+`: {:?}", other),
    }
    assert_eq!(lext.current, Some('='));
    assert_eq!(lext.position().end.offset, 0);
}

#[test]
fn body_that_consumes_nothing_does_not_match() {
    let lexer = Lexer {
        rules: vec![Rule::Body {
            start: CharTest::Is('a'),
            flags: 0,
            texts: 0,
            steps: vec![Step::Done { kind: 1, text: None }],
        }],
        unmatched: invalid_character(),
    };
    let error = lexer
        .tokenise(Lext::new("test.fx".to_string(), "a"))
        .expect_err("the body consumes nothing");
    assert_eq!(error.message, "`a` is an invalid character");
}

#[test]
fn peek_looks_one_character_ahead() {
    let lexer = Lexer {
        rules: vec![
            Rule::Body {
                start: CharTest::Is('-'),
                flags: 1,
                texts: 0,
                steps: vec![
                    Step::Advance,
                    Step::Peek {
                        body: vec![Step::Check {
                            test: CharTest::Is('>'),
                            body: vec![Step::SetFlag { var: 0, value: true }],
                        }],
                    },
                    Step::IfFlag {
                        var: 0,
                        expect: true,
                        body: vec![Step::Done { kind: 2, text: None }],
                    },
                ],
            },
            single('-', 1),
            single('>', 3),
        ],
        unmatched: invalid_character(),
    };
    let arrow = lexer.tokenise(Lext::new("t".to_string(), "->")).expect("scans");
    assert_eq!(kinds(&arrow), vec![2]);
    let minus = lexer.tokenise(Lext::new("t".to_string(), "-")).expect("scans");
    assert_eq!(kinds(&minus), vec![1]);
    let both = lexer.tokenise(Lext::new("t".to_string(), "-->")).expect("scans");
    assert_eq!(kinds(&both), vec![1, 2]);
}

#[test]
fn break_ends_the_loop_that_it_names() {
    // Letters up to `!`, in groups that `;` parts.
    let lexer = Lexer {
        rules: vec![
            Rule::Body {
                start: CharTest::Is('a'),
                flags: 0,
                texts: 1,
                steps: vec![
                    Step::Repeat {
                        label: 1,
                        body: vec![Step::Repeat {
                            label: 2,
                            body: vec![
                                Step::Check {
                                    test: CharTest::Is('!'),
                                    body: vec![Step::Break { label: 1 }],
                                },
                                Step::Check {
                                    test: CharTest::Is(';'),
                                    body: vec![Step::Break { label: 2 }],
                                },
                                Step::Push { var: 0 },
                            ],
                        }],
                    },
                    Step::Advance,
                    Step::Done { kind: 1, text: Some(0) },
                ],
            },
            single('=', EQ),
        ],
        unmatched: invalid_character(),
    };
    let tokens = lexer.tokenise(Lext::new("t".to_string(), "ab;cd!=")).expect("scans");
    assert_eq!(kinds(&tokens), vec![1, EQ]);
    assert_eq!(tokens[0].token_type.text.as_deref(), Some("abcd"));
    assert_eq!(offsets(&tokens), vec![(0, 6), (6, 7)]);
}

#[test]
fn break_without_its_loop_ends_the_rule_without_a_match() {
    let lexer = Lexer {
        rules: vec![
            Rule::Body {
                start: CharTest::Is('a'),
                flags: 0,
                texts: 0,
                steps: vec![
                    Step::Advance,
                    Step::Break { label: 7 },
                    Step::Done { kind: 1, text: None },
                ],
            },
            single('a', 2),
        ],
        unmatched: invalid_character(),
    };
    let tokens = lexer.tokenise(Lext::new("t".to_string(), "a")).expect("scans");
    assert_eq!(kinds(&tokens), vec![2]);
}

#[test]
fn flags_and_texts_that_are_not_there_are_false_and_empty() {
    let lexer = Lexer {
        rules: vec![Rule::Body {
            start: CharTest::Is('a'),
            flags: 1,
            texts: 1,
            steps: vec![
                Step::Advance,
                Step::SetFlag { var: 3, value: true },
                Step::Push { var: 3 },
                Step::Clear { var: 3 },
                Step::IfFlag {
                    var: 3,
                    expect: false,
                    body: vec![Step::Done { kind: 5, text: Some(3) }],
                },
                Step::Done { kind: 6, text: Some(0) },
            ],
        }],
        unmatched: invalid_character(),
    };
    let tokens = lexer.tokenise(Lext::new("t".to_string(), "a")).expect("scans");
    assert_eq!(kinds(&tokens), vec![5]);
    assert_eq!(tokens[0].token_type.text.as_deref(), Some(""));
}

#[test]
fn scan_text_scans_from_the_start_of_the_text() {
    let tokens = lexer().scan_text("dir/test.fx".to_string(), "\n(1)").expect("the text scans");
    assert_eq!(kinds(&tokens), vec![LPAREN, INT, RPAREN]);
    assert_eq!(offsets(&tokens), vec![(0, 1), (1, 2), (2, 3)]);
    assert_eq!(tokens[1].span.start.file.as_str(), "dir/test.fx");
    assert_eq!(tokens[2].span.end.line, 0);
    let error = lexer().scan_text("dir/test.fx".to_string(), "(#").expect_err("`#` matches no rule");
    assert_eq!(error.message, "`#` is an invalid character");
}
