use std::rc::Rc;

use flexar::cursor::{Position, Span};
use flexar::diagnostic::{ErrorDef, Fragment};
use flexar::flext::Flext;
use flexar::lexer::TokenType;
use flexar::parser::{
    Alternative, Answer, Failure, Fallback, Found, Grammar, Requirement, RuleDef, Tail,
};
use flexar::parxt::Parxt;
use flexar::token_node::{Child, Node, Token};

const X: u32 = 0;
const Y: u32 = 1;
const Z: u32 = 2;
const W: u32 = 3;
const OTHER: u32 = 9;

fn name_of(kind: u32) -> &'static str {
    match kind {
        X => "x",
        Y => "y",
        Z => "z",
        W => "w",
        _ => "other",
    }
}

/// Tokens of one character each, one space apart, on one line.
fn tokens(kinds: &[u32]) -> Vec<Token<TokenType>> {
    let file = Rc::new("test.fx".to_string());
    kinds
        .iter()
        .enumerate()
        .map(|(i, kind)| {
            Token::new(
                TokenType { kind: *kind, text: None },
                Span {
                    start: Position::new(file.clone(), 0, 2 * i, 2 * i),
                    end: Position::new(file.clone(), 0, 2 * i + 1, 2 * i + 1),
                },
            )
        })
        .collect()
}

fn def(code: &str, title: &str, template: Vec<Fragment>) -> ErrorDef {
    ErrorDef { code: code.to_string(), title: title.to_string(), template }
}

fn expected() -> ErrorDef {
    def(
        "P001",
        "unexpected token",
        vec![Fragment::Text("expected `".to_string()), Fragment::Arg(0), Fragment::Text("`".to_string())],
    )
}

fn grammar(rules: Vec<RuleDef>) -> Grammar {
    Grammar {
        rules,
        root: 0,
        expected: expected(),
        nesting: def("P900", "nested too deep", vec![Fragment::Text("too deep".to_string())]),
        unanswered: def("P901", "unanswered", vec![Fragment::Text("no answer".to_string())]),
        max_nesting: 64,
    }
}

fn token(kind: u32) -> Requirement {
    Requirement::Token { kind, name: name_of(kind).to_string(), bind: true }
}

fn rule(index: usize) -> Requirement {
    Requirement::Rule { rule: index, bind: true }
}

fn alt(requirements: Vec<Requirement>, variant: u32) -> Alternative {
    Alternative { requirements, tail: Tail::Build { variant } }
}

fn raise(code: &str) -> Fallback {
    Fallback::Raise {
        error: def(code, "no match", vec![Fragment::Text("nothing matches at ".to_string()), Fragment::Place(0)]),
        args: vec![],
    }
}

fn run(g: &Grammar, rule: usize, input: &[Token<TokenType>], answers: &Vec<Answer>) -> (Result<Node, Failure>, usize) {
    assert!(g.check());
    let mut parxt = Parxt::new(input);
    let result = g.parse_rule(rule, &mut parxt, g.max_nesting, answers);
    (result, parxt.idx)
}

fn offsets(span: &Span) -> (usize, usize) {
    (span.start.offset, span.end.offset)
}

fn child_tokens(node: &Node) -> Vec<usize> {
    node.children
        .iter()
        .map(|c| match c {
            Child::Token(i) => *i,
            Child::Node(_) => usize::MAX,
        })
        .collect()
}

fn long_and_short(long_first: bool) -> Grammar {
    let long = alt(vec![token(X), token(Y), token(Z)], 1);
    let short = alt(vec![token(X), token(W)], 2);
    let alternatives = if long_first { vec![long, short] } else { vec![short, long] };
    grammar(vec![RuleDef { alternatives, fallback: raise("P100") }])
}

#[test]
fn furthest_failure_is_reported_in_either_order() {
    let input = tokens(&[X, Y, OTHER]);
    for long_first in [true, false] {
        let (result, idx) = run(&long_and_short(long_first), 0, &input, &vec![]);
        let failure = result.expect_err("neither alternative matches");
        assert_eq!(failure.depth, 2);
        assert_eq!(failure.error.code, "P001");
        assert_eq!(failure.error.message, "expected `z`");
        assert!(!failure.error.fatal);
        assert_eq!(offsets(&failure.error.spans[0]), (4, 5));
        assert_eq!(idx, 0);
    }
}

#[test]
fn equal_depths_keep_the_first_failure() {
    let g = grammar(vec![RuleDef {
        alternatives: vec![alt(vec![token(X), token(Y)], 1), alt(vec![token(X), token(Z)], 2)],
        fallback: raise("P100"),
    }]);
    let (result, _) = run(&g, 0, &tokens(&[X, W]), &vec![]);
    let failure = result.expect_err("neither alternative matches");
    assert_eq!(failure.depth, 1);
    assert_eq!(failure.error.message, "expected `y`");
}

#[test]
fn first_matching_alternative_wins() {
    let g = grammar(vec![RuleDef {
        alternatives: vec![alt(vec![token(X)], 1), alt(vec![token(X), token(Y)], 2)],
        fallback: raise("P100"),
    }]);
    let (result, idx) = run(&g, 0, &tokens(&[X, Y]), &vec![]);
    let node = result.expect("the first alternative matches");
    assert_eq!(node.variant, 1);
    assert_eq!(child_tokens(&node), vec![0]);
    assert_eq!(idx, 1);
}

#[test]
fn failures_at_depth_zero_resolve_by_the_fallback() {
    let g = grammar(vec![RuleDef {
        alternatives: vec![alt(vec![token(X), token(Y)], 1), alt(vec![token(Z)], 2)],
        fallback: raise("P100"),
    }]);
    let (result, idx) = run(&g, 0, &tokens(&[W, X]), &vec![]);
    let failure = result.expect_err("no alternative matches");
    assert_eq!(failure.depth, 0);
    assert_eq!(failure.error.code, "P100");
    assert_eq!(failure.error.message, "nothing matches at test.fx:1:1");
    assert!(!failure.error.fatal);
    assert_eq!(idx, 0);
}

#[test]
fn fallback_may_succeed_without_consuming() {
    let g = grammar(vec![RuleDef {
        alternatives: vec![alt(vec![token(X)], 1)],
        fallback: Fallback::Succeed { variant: 7 },
    }]);
    let (result, idx) = run(&g, 0, &tokens(&[Y, Y]), &vec![]);
    let node = result.expect("the fallback succeeds");
    assert_eq!(node.variant, 7);
    assert!(node.children.is_empty());
    assert_eq!(offsets(&node.span), (0, 1));
    assert_eq!(idx, 0);
}

#[test]
fn fallback_is_not_reached_past_depth_zero() {
    let g = grammar(vec![RuleDef {
        alternatives: vec![alt(vec![token(X), token(Y)], 1)],
        fallback: Fallback::Succeed { variant: 7 },
    }]);
    let (result, _) = run(&g, 0, &tokens(&[X, Z]), &vec![]);
    let failure = result.expect_err("the alternative got past its first requirement");
    assert_eq!(failure.depth, 1);
    assert_eq!(failure.error.message, "expected `y`");
}

#[test]
fn fallback_may_delegate_to_another_rule() {
    let g = grammar(vec![
        RuleDef {
            alternatives: vec![alt(vec![token(X)], 1)],
            fallback: Fallback::Delegate { rule: 1, variant: 5 },
        },
        RuleDef { alternatives: vec![alt(vec![token(Y), token(Z)], 2)], fallback: raise("P101") },
    ]);
    let (result, idx) = run(&g, 0, &tokens(&[Y, Z, X]), &vec![]);
    let node = result.expect("the other rule matches");
    assert_eq!(node.variant, 5);
    assert_eq!(offsets(&node.span), (0, 3));
    assert_eq!(idx, 2);
    match &node.children[..] {
        [Child::Node(inner)] => {
            assert_eq!(inner.variant, 2);
            assert_eq!(child_tokens(inner), vec![0, 1]);
        }
        other => panic!("one node expected, found {:?}", other),
    }
    let (result, idx) = run(&g, 0, &tokens(&[Y, W]), &vec![]);
    let failure = result.expect_err("the other rule fails");
    assert_eq!(failure.depth, 1);
    assert_eq!(failure.error.message, "expected `z`");
    assert_eq!(idx, 0);
}

#[test]
fn node_spans_the_tokens_that_were_consumed() {
    let g = grammar(vec![RuleDef {
        alternatives: vec![alt(vec![token(X), token(Y), token(Z)], 1)],
        fallback: raise("P100"),
    }]);
    let input = tokens(&[W, X, Y, Z, W]);
    let mut parxt = Parxt::new(&input);
    parxt.advance();
    let node = g.parse_rule(0, &mut parxt, 8, &vec![]).expect("the rule matches");
    assert_eq!(parxt.idx, 4);
    assert_eq!(offsets(&node.span), (input[1].span.start.offset, input[3].span.end.offset));
    assert_eq!(child_tokens(&node), vec![1, 2, 3]);
}

#[test]
fn unbound_requirements_leave_no_child() {
    let g = grammar(vec![RuleDef {
        alternatives: vec![Alternative {
            requirements: vec![
                Requirement::Token { kind: X, name: "x".to_string(), bind: false },
                token(Y),
                Requirement::Token { kind: Z, name: "z".to_string(), bind: false },
            ],
            tail: Tail::Build { variant: 1 },
        }],
        fallback: raise("P100"),
    }]);
    let (result, idx) = run(&g, 0, &tokens(&[X, Y, Z]), &vec![]);
    let node = result.expect("the rule matches");
    assert_eq!(child_tokens(&node), vec![1]);
    assert_eq!(offsets(&node.span), (0, 5));
    assert_eq!(idx, 3);
}

fn with_choice(fallback: Fallback) -> Grammar {
    grammar(vec![RuleDef {
        alternatives: vec![Alternative {
            requirements: vec![token(X)],
            tail: Tail::Choice {
                alternatives: vec![alt(vec![token(Y)], 1), alt(vec![token(Z), token(W)], 2)],
                fallback,
            },
        }],
        fallback: raise("P100"),
    }])
}

#[test]
fn further_alternatives_follow_the_requirements() {
    let g = with_choice(raise("P102"));
    let (result, idx) = run(&g, 0, &tokens(&[X, Z, W]), &vec![]);
    let node = result.expect("the second further alternative matches");
    assert_eq!(node.variant, 2);
    assert_eq!(child_tokens(&node), vec![0, 1, 2]);
    assert_eq!(offsets(&node.span), (0, 5));
    assert_eq!(idx, 3);
}

#[test]
fn depth_carries_into_further_alternatives() {
    let g = with_choice(raise("P102"));
    let (result, _) = run(&g, 0, &tokens(&[X, Z, OTHER]), &vec![]);
    let failure = result.expect_err("no further alternative matches");
    assert_eq!(failure.depth, 2);
    assert_eq!(failure.error.message, "expected `w`");
    let (result, idx) = run(&g, 0, &tokens(&[X, OTHER]), &vec![]);
    let failure = result.expect_err("no further alternative gets anywhere");
    assert_eq!(failure.depth, 1);
    assert_eq!(failure.error.code, "P102");
    assert_eq!(failure.error.message, "nothing matches at test.fx:1:3");
    assert_eq!(idx, 0);
}

#[test]
fn further_alternatives_may_fall_back_to_success() {
    let g = with_choice(Fallback::Succeed { variant: 8 });
    let (result, idx) = run(&g, 0, &tokens(&[X, OTHER]), &vec![]);
    let node = result.expect("the fallback succeeds");
    assert_eq!(node.variant, 8);
    assert!(node.children.is_empty());
    assert_eq!(offsets(&node.span), (0, 1));
    assert_eq!(idx, 1);
}

#[test]
fn failure_of_a_sub_rule_adds_the_depth_before_it() {
    let g = grammar(vec![
        RuleDef { alternatives: vec![alt(vec![token(X), rule(1)], 1)], fallback: raise("P100") },
        RuleDef { alternatives: vec![alt(vec![token(Y), token(Z)], 2)], fallback: raise("P101") },
    ]);
    let (result, _) = run(&g, 0, &tokens(&[X, Y, W]), &vec![]);
    let failure = result.expect_err("the sub-rule fails");
    assert_eq!(failure.depth, 2);
    assert_eq!(failure.error.message, "expected `z`");
    let (result, _) = run(&g, 0, &tokens(&[X, W]), &vec![]);
    let failure = result.expect_err("the sub-rule falls back");
    assert_eq!(failure.depth, 1);
    assert_eq!(failure.error.code, "P101");
}

const NUM: u32 = 10;
const PLUS: u32 = 11;
const OPEN: u32 = 12;
const CLOSE: u32 = 13;
const SUM: u32 = 1;
const TERM: u32 = 2;
const GROUP: u32 = 3;

fn sums() -> Grammar {
    let sym = |kind: u32, name: &str, bind: bool| Requirement::Token { kind, name: name.to_string(), bind };
    grammar(vec![
        RuleDef {
            alternatives: vec![Alternative {
                requirements: vec![rule(1)],
                tail: Tail::Choice {
                    alternatives: vec![alt(vec![sym(PLUS, "+", false), rule(0)], SUM)],
                    fallback: Fallback::Succeed { variant: TERM },
                },
            }],
            fallback: raise("P200"),
        },
        RuleDef {
            alternatives: vec![
                alt(vec![sym(NUM, "number", true)], TERM),
                alt(vec![sym(OPEN, "(", false), rule(0), sym(CLOSE, ")", false)], GROUP),
            ],
            fallback: raise("P201"),
        },
    ])
}

#[test]
fn nested_rules_build_a_tree() {
    let input = tokens(&[NUM, PLUS, OPEN, NUM, PLUS, NUM, CLOSE]);
    let g = sums();
    assert!(g.check());
    let tree = g.parse(&input).expect("the sum parses");
    assert_eq!(tree.variant, SUM);
    assert_eq!(offsets(&tree.span), (0, 13));
    match &tree.children[..] {
        [Child::Node(left), Child::Node(right)] => {
            assert_eq!(left.variant, TERM);
            assert_eq!(child_tokens(left), vec![0]);
            assert_eq!(offsets(&left.span), (0, 1));
            assert_eq!(right.variant, TERM);
            assert_eq!(offsets(&right.span), (4, 5));
            assert!(right.children.is_empty());
        }
        other => panic!("two nodes expected, found {:?}", other),
    }
}

#[test]
fn failed_parse_reports_the_deepest_point() {
    let input = tokens(&[OPEN, NUM, PLUS, NUM, PLUS]);
    let (result, _) = run(&sums(), 0, &input, &vec![]);
    assert_eq!(result.expect_err("the sum is cut short").depth, 5);
    let error = sums().parse(&input).expect_err("the sum is cut short");
    assert_eq!(error.code, "P200");
    assert!(!error.fatal);
    assert_eq!(error.spans.len(), 1);
    assert_eq!(error.spans[0].start.line, 1);
    assert_eq!(offsets(&error.spans[0]), (9, 9));
}

#[test]
fn end_of_input_is_one_line_below_the_last_token() {
    let input = tokens(&[X, Y]);
    let mut parxt = Parxt::new(&input);
    assert!(!parxt.done);
    parxt.advance();
    parxt.advance();
    assert!(parxt.done);
    assert!(parxt.current().is_none());
    let end = parxt.position();
    assert_eq!((end.start.line, end.start.column, end.start.offset), (1, 3, 3));
    assert_eq!((end.end.line, end.end.column, end.end.offset), (1, 3, 3));
    let last = parxt.get_last_pos();
    assert_eq!((last.end.line, last.end.offset), (1, 3));
}

#[test]
fn nesting_deeper_than_allowed_is_fatal() {
    let mut g = grammar(vec![RuleDef {
        alternatives: vec![alt(vec![rule(0), token(X)], 1)],
        fallback: raise("P100"),
    }]);
    g.max_nesting = 16;
    let input = tokens(&[X, X]);
    let error = g.parse(&input).expect_err("the rule invokes itself without end");
    assert!(error.fatal);
    assert_eq!(error.code, "P900");
    assert_eq!(error.message, "too deep");
}

#[test]
fn nesting_up_to_the_limit_is_allowed() {
    let mut g = sums();
    let input = tokens(&[OPEN, OPEN, NUM, CLOSE, CLOSE]);
    g.max_nesting = 5;
    assert_eq!(g.parse(&input).expect("five levels are enough").variant, TERM);
    g.max_nesting = 4;
    let error = g.parse(&input).expect_err("four levels are not enough");
    assert!(error.fatal);
    assert_eq!(error.code, "P900");
}

fn with_hook() -> Grammar {
    grammar(vec![
        RuleDef { alternatives: vec![alt(vec![token(X), rule(1)], 1)], fallback: raise("P100") },
        RuleDef { alternatives: vec![alt(vec![token(Y)], 2)], fallback: Fallback::External { hook: 4 } },
    ])
}

#[test]
fn outside_function_without_answer_stops_the_parse() {
    let input = tokens(&[X, W, W]);
    let failure = with_hook().parse_with(&input, &vec![]).expect_err("no answer is known");
    assert!(failure.error.fatal);
    assert_eq!(failure.error.code, "P901");
    let request = failure.request.expect("the call is named");
    assert_eq!((request.hook, request.at), (4, 1));
    let error = with_hook().parse(&input).expect_err("no answer is known");
    assert_eq!(error.code, "P901");
}

#[test]
fn answer_of_an_outside_function_is_handed_on_as_it_stands() {
    let input = tokens(&[X, W, W]);
    let found = Node { span: input[1].span.combine(&input[2].span), variant: 77, children: vec![Child::Token(2)] };
    let answers = vec![
        Answer { hook: 3, at: 1, outcome: Ok(Found { node: found.duplicate(), end: 2 }) },
        Answer { hook: 4, at: 1, outcome: Ok(Found { node: found, end: 3 }) },
    ];
    let tree = with_hook().parse_with(&input, &answers).expect("the answer is a match");
    assert_eq!(tree.variant, 1);
    assert_eq!(offsets(&tree.span), (0, 5));
    match &tree.children[..] {
        [Child::Token(0), Child::Node(inner)] => {
            assert_eq!(inner.variant, 77);
            assert_eq!(child_tokens(inner), vec![2]);
            assert_eq!(offsets(&inner.span), (2, 5));
        }
        other => panic!("a token and a node expected, found {:?}", other),
    }
}

#[test]
fn failure_of_an_outside_function_is_handed_on_as_it_stands() {
    let input = tokens(&[X, W, W]);
    let error = expected().instantiate(&vec!["something".to_string()], vec![input[2].span.duplicate()], false);
    let answers = vec![Answer { hook: 4, at: 1, outcome: Err(Failure { depth: 3, error, request: None }) }];
    let failure = with_hook().parse_with(&input, &answers).expect_err("the answer is a failure");
    assert_eq!(failure.depth, 4);
    assert_eq!(failure.error.message, "expected `something`");
    assert!(failure.request.is_none());
}

#[test]
fn answer_that_ends_outside_the_tokens_is_no_answer() {
    let input = tokens(&[X, W, W]);
    let node = Node { span: input[1].span.duplicate(), variant: 77, children: vec![] };
    let answers = vec![
        Answer { hook: 4, at: 1, outcome: Ok(Found { node: node.duplicate(), end: 0 }) },
        Answer { hook: 4, at: 1, outcome: Ok(Found { node, end: 4 }) },
    ];
    let failure = with_hook().parse_with(&input, &answers).expect_err("neither answer fits");
    assert_eq!(failure.request.map(|r| (r.hook, r.at)), Some((4, 1)));
}

#[test]
fn grammar_that_names_a_missing_rule_is_not_well_formed() {
    assert!(sums().check());
    let mut g = sums();
    g.root = 2;
    assert!(!g.check());
    let g = grammar(vec![RuleDef { alternatives: vec![alt(vec![rule(1)], 1)], fallback: raise("P100") }]);
    assert!(!g.check());
    let g = grammar(vec![RuleDef { alternatives: vec![], fallback: Fallback::Delegate { rule: 3, variant: 1 } }]);
    assert!(!g.check());
    let g = with_choice(Fallback::Delegate { rule: 1, variant: 1 });
    assert!(!g.check());
}

#[test]
fn rule_without_alternatives_resolves_by_its_fallback() {
    let g = grammar(vec![RuleDef { alternatives: vec![], fallback: Fallback::Succeed { variant: 3 } }]);
    let (result, idx) = run(&g, 0, &tokens(&[X]), &vec![]);
    assert_eq!(result.expect("the fallback succeeds").variant, 3);
    assert_eq!(idx, 0);
}

#[test]
fn rule_that_invokes_none_needs_no_nesting() {
    let mut g = long_and_short(true);
    g.max_nesting = 0;
    let node = g.parse(&tokens(&[X, Y, Z])).expect("the long alternative matches");
    assert_eq!(node.variant, 1);
    let (result, idx) = run(&g, 0, &tokens(&[X, Y, OTHER]), &vec![]);
    let failure = result.expect_err("neither alternative matches");
    assert_eq!(failure.depth, 2);
    assert_eq!(failure.error.message, "expected `z`");
    assert_eq!(idx, 0);
    let mut g = sums();
    g.max_nesting = 0;
    let error = g.parse(&tokens(&[NUM])).expect_err("the root invokes a rule");
    assert!(error.fatal);
    assert_eq!(error.code, "P900");
    g.max_nesting = 1;
    assert_eq!(g.parse(&tokens(&[NUM])).expect("one level is enough").variant, TERM);
}

#[test]
fn fallback_that_succeeds_stands_where_the_rule_began() {
    let g = grammar(vec![RuleDef {
        alternatives: vec![Alternative {
            requirements: vec![token(X), token(Y), token(Z)],
            tail: Tail::Choice {
                alternatives: vec![alt(vec![token(W)], 1)],
                fallback: Fallback::Succeed { variant: 8 },
            },
        }],
        fallback: raise("P100"),
    }]);
    let input = tokens(&[OTHER, X, Y, Z, OTHER]);
    let mut parxt = Parxt::new(&input);
    parxt.advance();
    let node = g.parse_rule(0, &mut parxt, 0, &vec![]).expect("the fallback succeeds");
    assert_eq!(parxt.idx, 4);
    assert_eq!(node.variant, 8);
    assert!(node.children.is_empty());
    assert_eq!(offsets(&node.span), (2, 3));
    let input = tokens(&[X, Y, Z, W]);
    let mut parxt = Parxt::new(&input);
    let node = g.parse_rule(0, &mut parxt, 0, &vec![]).expect("the further alternative matches");
    assert_eq!(parxt.idx, 4);
    assert_eq!(node.variant, 1);
    assert_eq!(offsets(&node.span), (0, 7));
}

#[test]
fn alternatives_that_begin_with_failing_rules_resolve_by_the_fallback() {
    let g = grammar(vec![
        RuleDef {
            alternatives: vec![alt(vec![rule(1), token(X)], 1), alt(vec![rule(2)], 2)],
            fallback: raise("P100"),
        },
        RuleDef { alternatives: vec![alt(vec![token(Y)], 3)], fallback: raise("P101") },
        RuleDef { alternatives: vec![alt(vec![token(Z)], 4)], fallback: raise("P102") },
    ]);
    let input = tokens(&[W, X]);
    let mut parxt = Parxt::new(&input);
    parxt.advance();
    let failure = g.parse_rule(0, &mut parxt, 4, &vec![]).expect_err("no alternative matches");
    assert_eq!(failure.depth, 0);
    assert_eq!(failure.error.code, "P100");
    assert_eq!(offsets(&failure.error.spans[0]), (2, 3));
    assert_eq!(parxt.idx, 1);
}
