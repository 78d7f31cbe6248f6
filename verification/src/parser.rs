//! The parsing engine: an interpreter of grammar rules over the token cursor,
//! with backtracking and furthest-failure diagnostics.

use crate::cursor::{in_order, Span};
use crate::diagnostic::{texts, CompileError, ErrorDef, ErrorView};
use crate::flext::Flext;
use crate::lexer::TokenType;
use crate::parxt::{span_at, Parxt};
use crate::token_node::{token_spans, views, Child, ChildView, Node, NodeView, Token};
use vstd::prelude::*;

verus! {

/// One thing that an alternative asks of the input.
#[derive(Debug)]
pub enum Requirement {
    /// The token under the cursor is of this kind; it is consumed. `name` is
    /// how the diagnostic calls the token where it is missing. With `bind`
    /// the token becomes a child of the node.
    Token { kind: u32, name: String, bind: bool },
    /// The rule with this index matches here; what it matched is consumed.
    /// With `bind` its node becomes a child of the node.
    Rule { rule: usize, bind: bool },
}

/// What follows the requirements of an alternative.
#[derive(Debug)]
pub enum Tail {
    /// The alternative is complete: the rule yields a node of this variant.
    Build { variant: u32 },
    /// Further alternatives, tried where the requirements ended.
    Choice { alternatives: Vec<Alternative>, fallback: Fallback },
}

/// One way to match a rule: requirements, in order, and what follows them.
#[derive(Debug)]
pub struct Alternative {
    pub requirements: Vec<Requirement>,
    pub tail: Tail,
}

/// What a list of alternatives resolves to where none of them got past its
/// first requirement.
#[derive(Debug)]
pub enum Fallback {
    /// Fails with this diagnostic at the current position.
    Raise { error: ErrorDef, args: Vec<String> },
    /// Matches without consuming anything more, as a node of this variant
    /// without children at the position where the rule began.
    Succeed { variant: u32 },
    /// Hands over to the rule with this index; its node becomes the one child
    /// of a node of this variant.
    Delegate { rule: usize, variant: u32 },
    /// Hands over to the parsing function with this number, which is no part
    /// of the grammar; what it gave is the result as it stands.
    External { hook: usize },
}

/// A named rule: its alternatives in the order in which they are tried, and
/// its fallback.
#[derive(Debug)]
pub struct RuleDef {
    pub alternatives: Vec<Alternative>,
    pub fallback: Fallback,
}

/// A grammar.
///
/// `expected` is the diagnostic for a token that is not there; its argument
/// is the name of the token. The root rule may invoke rules `max_nesting`
/// deep: with 0 it may invoke none, with 1 only rules that invoke none, and
/// so on. `nesting` is the fatal diagnostic for input that asks for more, and
/// `unanswered` the fatal diagnostic for a parsing function from outside the
/// grammar of which it is not known what it gives.
#[derive(Debug)]
pub struct Grammar {
    pub rules: Vec<RuleDef>,
    pub root: usize,
    pub expected: ErrorDef,
    pub nesting: ErrorDef,
    pub unanswered: ErrorDef,
    pub max_nesting: usize,
}

/// The call of a parsing function from outside the grammar that a parse
/// stopped at: which function, and at which token index.
#[derive(Debug, Clone, Copy)]
pub struct Request {
    pub hook: usize,
    pub at: usize,
}

/// A failed match: how many requirements were met before it failed, why it
/// failed, and the call that has to be answered before the parse can get
/// further, if there is one. The count of requirements stops at `usize::MAX`.
#[derive(Debug)]
pub struct Failure {
    pub depth: usize,
    pub error: CompileError,
    pub request: Option<Request>,
}

/// A failed match as a mathematical value.
pub struct FailureView {
    pub depth: usize,
    pub error: ErrorView,
    pub request: Option<Request>,
}

impl View for Failure {
    type V = FailureView;

    open spec fn view(&self) -> FailureView {
        FailureView { depth: self.depth, error: self.error@, request: self.request }
    }
}

impl Failure {
    /// A second failure with the same value.
    pub fn duplicate(&self) -> (f: Failure)
        ensures
            f@ == self@,
    {
        Failure { depth: self.depth, error: self.error.duplicate(), request: self.request }
    }
}

/// What a parsing function from outside the grammar matched: the node, and
/// the index of the first token that it did not consume.
#[derive(Debug)]
pub struct Found {
    pub node: Node,
    pub end: usize,
}

/// What the parsing function `hook` gave when it was run at the token index
/// `at`.
#[derive(Debug)]
pub struct Answer {
    pub hook: usize,
    pub at: usize,
    pub outcome: Result<Found, Failure>,
}

/// An answer as a mathematical value.
pub struct AnswerView {
    pub hook: usize,
    pub at: usize,
    pub outcome: Parsed,
}

impl View for Answer {
    type V = AnswerView;

    open spec fn view(&self) -> AnswerView {
        AnswerView {
            hook: self.hook,
            at: self.at,
            outcome: match self.outcome {
                Ok(found) => Parsed::Matched { node: found.node@, idx: found.end as int },
                Err(f) => Parsed::Failed(f@),
            },
        }
    }
}

/// The mathematical values of some answers.
pub open spec fn answer_views(answers: Seq<Answer>) -> Seq<AnswerView> {
    answers.map_values(|a: Answer| a@)
}

/// Whether `a` answers the call of `hook` at `at`, over `len` tokens. A match
/// that ends before `at` or behind the tokens answers nothing.
pub open spec fn answers_to(a: AnswerView, hook: usize, at: int, len: int) -> bool {
    &&& a.hook == hook
    &&& a.at == at
    &&& a.outcome matches Parsed::Matched { node, idx } ==> at <= idx <= len
}

/// What the first of the answers from index `from` on that answers the call
/// of `hook` at `at` says.
pub open spec fn answer_for(
    answers: Seq<AnswerView>,
    from: int,
    hook: usize,
    at: int,
    len: int,
) -> Option<Parsed>
    decreases answers.len() - from,
{
    if 0 <= from < answers.len() {
        if answers_to(answers[from], hook, at, len) {
            Some(answers[from].outcome)
        } else {
            answer_for(answers, from + 1, hook, at, len)
        }
    } else {
        None
    }
}

/// What became of a list of alternatives, as a mathematical value.
pub enum Built {
    /// One matched: the node's variant and children, and the index of the
    /// first token that was not consumed.
    Matched { variant: u32, children: Seq<ChildView>, idx: int },
    /// The fallback matched without consuming anything more: the variant of
    /// the node, which has no children and stands where the rule began, and
    /// the index of the first token that was not consumed.
    Placed { variant: u32, idx: int },
    /// A parsing function from outside the grammar matched: its node as it
    /// stands, and the index of the first token that it did not consume.
    Whole { node: NodeView, idx: int },
    Failed(FailureView),
}

/// What became of a rule, as a mathematical value.
pub enum Parsed {
    /// It matched: the node, and the index of the first token that was not
    /// consumed.
    Matched { node: NodeView, idx: int },
    Failed(FailureView),
}

/// The span of the tokens from index `start` up to, not including, index
/// `end`; where there are none, the position at `start`.
pub open spec fn covered(tokens: Seq<Token<TokenType>>, start: int, end: int) -> Span {
    if start < end {
        span_at(tokens, start).spec_combine(span_at(tokens, end - 1))
    } else {
        span_at(tokens, start)
    }
}

/// Of two failures, the later one if it got further, else the earlier one.
pub open spec fn further(best: Option<FailureView>, new: FailureView) -> Option<FailureView> {
    match best {
        None => Some(new),
        Some(b) => if new.depth > b.depth {
            Some(new)
        } else {
            Some(b)
        },
    }
}

/// The failure of a token requirement at index `idx`, after `depth`
/// requirements were met.
pub open spec fn missing(
    g: Grammar,
    tokens: Seq<Token<TokenType>>,
    name: String,
    idx: int,
    depth: usize,
) -> FailureView {
    FailureView {
        depth,
        error: g.expected.spec_instantiate(seq![name@], seq![span_at(tokens, idx)], false),
        request: None,
    }
}

/// The failure of a rule that is invoked deeper than the grammar allows.
pub open spec fn too_deep(g: Grammar, tokens: Seq<Token<TokenType>>, idx: int) -> FailureView {
    FailureView {
        depth: 0,
        error: g.nesting.spec_instantiate(Seq::empty(), seq![span_at(tokens, idx)], true),
        request: None,
    }
}

/// The failure of a list of alternatives that hands over to the parsing
/// function `hook` at the token index `entry`, of which no answer is known.
pub open spec fn unanswered(
    g: Grammar,
    tokens: Seq<Token<TokenType>>,
    hook: usize,
    entry: int,
    base: usize,
) -> FailureView {
    FailureView {
        depth: base,
        error: g.unanswered.spec_instantiate(Seq::empty(), seq![span_at(tokens, entry)], true),
        request: Some(Request { hook, at: entry as usize }),
    }
}

/// What a list of alternatives resolves to when all of them have failed.
///
/// `best` is the failure that got furthest, `base` the number of
/// requirements that were met before the list was reached, `entry` the index
/// at which it was reached, and `delegated` what became of the rule or the
/// parsing function that the fallback hands over to, if it hands over.
pub open spec fn resolve(
    tokens: Seq<Token<TokenType>>,
    fallback: Fallback,
    entry: int,
    base: usize,
    best: Option<FailureView>,
    delegated: Parsed,
) -> Built {
    if best is Some && best->0.depth > base {
        Built::Failed(best->0)
    } else {
        match fallback {
            Fallback::Raise { error, args } => Built::Failed(
                FailureView {
                    depth: base,
                    error: error.spec_instantiate(
                        texts(args@),
                        seq![span_at(tokens, entry)],
                        false,
                    ),
                    request: None,
                },
            ),
            Fallback::Succeed { variant } => Built::Placed { variant, idx: entry },
            Fallback::Delegate { rule, variant } => match delegated {
                Parsed::Matched { node, idx } => Built::Matched {
                    variant,
                    children: seq![ChildView::Node(node)],
                    idx,
                },
                Parsed::Failed(f) => Built::Failed(
                    FailureView { depth: f.depth.saturating_add(base), ..f },
                ),
            },
            Fallback::External { hook } => match delegated {
                Parsed::Matched { node, idx } => Built::Whole { node, idx },
                Parsed::Failed(f) => Built::Failed(f),
            },
        }
    }
}

/// What becomes of the rule `rule` when it is invoked at the token index
/// `idx` by a rule that may still invoke rules `fuel` deep: a fatal failure
/// where that is not deep enough.
pub open spec fn invoke(
    g: Grammar,
    tokens: Seq<Token<TokenType>>,
    answers: Seq<AnswerView>,
    rule: int,
    idx: int,
    fuel: nat,
) -> Parsed
    decreases fuel, 0nat,
{
    if fuel == 0 {
        Parsed::Failed(too_deep(g, tokens, idx))
    } else {
        parse_rule(g, tokens, answers, rule, idx, (fuel - 1) as nat)
    }
}

/// What becomes of the rule or the parsing function that `fallback` hands
/// over to at the token index `entry`, when rules may still be invoked `fuel`
/// deep. For a parsing function it is what the first answer to that call
/// says; without an answer it is a fatal failure that names the call.
pub open spec fn delegated(
    g: Grammar,
    tokens: Seq<Token<TokenType>>,
    answers: Seq<AnswerView>,
    fallback: Fallback,
    entry: int,
    base: usize,
    fuel: nat,
) -> Parsed
    decreases fuel, 1nat,
{
    match fallback {
        Fallback::Delegate { rule, variant } => invoke(
            g,
            tokens,
            answers,
            rule as int,
            entry,
            fuel,
        ),
        Fallback::External { hook } => match answer_for(
            answers,
            0,
            hook,
            entry,
            tokens.len() as int,
        ) {
            Some(outcome) => outcome,
            None => Parsed::Failed(unanswered(g, tokens, hook, entry, base)),
        },
        _ => Parsed::Failed(too_deep(g, tokens, entry)),
    }
}

/// What becomes of the rule `rule` at the token index `idx`, when it may
/// invoke rules `fuel` deep.
pub open spec fn parse_rule(
    g: Grammar,
    tokens: Seq<Token<TokenType>>,
    answers: Seq<AnswerView>,
    rule: int,
    idx: int,
    fuel: nat,
) -> Parsed
    decreases fuel, 3nat,
{
    let def = g.rules@[rule];
    match try_alternatives(
        g,
        tokens,
        answers,
        def.alternatives@,
        0,
        def.fallback,
        idx,
        0,
        Seq::empty(),
        None,
        fuel,
    ) {
        Built::Matched { variant, children, idx: end } => Parsed::Matched {
            node: NodeView { span: covered(tokens, idx, end), variant, children },
            idx: end,
        },
        Built::Placed { variant, idx: end } => Parsed::Matched {
            node: NodeView { span: span_at(tokens, idx), variant, children: Seq::empty() },
            idx: end,
        },
        Built::Whole { node, idx: end } => Parsed::Matched { node, idx: end },
        Built::Failed(f) => Parsed::Failed(f),
    }
}

/// What becomes of the alternatives from index `from` on, each tried at the
/// token index `entry` after `base` requirements were met and `bound`
/// children were bound, given the failure `best` that got furthest so far.
///
/// The first alternative that matches decides. A fatal failure ends the
/// attempt at once. When all have failed, `resolve` decides.
pub open spec fn try_alternatives(
    g: Grammar,
    tokens: Seq<Token<TokenType>>,
    answers: Seq<AnswerView>,
    alts: Seq<Alternative>,
    from: int,
    fallback: Fallback,
    entry: int,
    base: usize,
    bound: Seq<ChildView>,
    best: Option<FailureView>,
    fuel: nat,
) -> Built
    decreases fuel, 2nat, alts, alts.len() - from,
{
    if 0 <= from < alts.len() {
        match run_requirements(g, tokens, answers, alts[from], 0, entry, base, bound, fuel) {
            Built::Failed(f) => if f.error.fatal {
                Built::Failed(f)
            } else {
                try_alternatives(
                    g,
                    tokens,
                    answers,
                    alts,
                    from + 1,
                    fallback,
                    entry,
                    base,
                    bound,
                    further(best, f),
                    fuel,
                )
            },
            matched => matched,
        }
    } else {
        resolve(
            tokens,
            fallback,
            entry,
            base,
            best,
            delegated(g, tokens, answers, fallback, entry, base, fuel),
        )
    }
}

/// What becomes of the alternative `alt` from its requirement `k` on, at the
/// token index `idx`, after `depth` requirements were met and `bound`
/// children were bound.
pub open spec fn run_requirements(
    g: Grammar,
    tokens: Seq<Token<TokenType>>,
    answers: Seq<AnswerView>,
    alt: Alternative,
    k: int,
    idx: int,
    depth: usize,
    bound: Seq<ChildView>,
    fuel: nat,
) -> Built
    decreases fuel, 2nat, alt, alt.requirements@.len() - k,
{
    if 0 <= k < alt.requirements@.len() {
        match alt.requirements@[k] {
            Requirement::Token { kind, name, bind } => if 0 <= idx < tokens.len()
                && tokens[idx].token_type.kind == kind {
                run_requirements(
                    g,
                    tokens,
                    answers,
                    alt,
                    k + 1,
                    idx + 1,
                    depth.saturating_add(1),
                    if bind {
                        bound.push(ChildView::Token(idx as usize))
                    } else {
                        bound
                    },
                    fuel,
                )
            } else {
                Built::Failed(missing(g, tokens, name, idx, depth))
            },
            Requirement::Rule { rule, bind } => match invoke(
                g,
                tokens,
                answers,
                rule as int,
                idx,
                fuel,
            ) {
                Parsed::Matched { node, idx: next } => run_requirements(
                    g,
                    tokens,
                    answers,
                    alt,
                    k + 1,
                    next,
                    depth.saturating_add(1),
                    if bind {
                        bound.push(ChildView::Node(node))
                    } else {
                        bound
                    },
                    fuel,
                ),
                Parsed::Failed(f) => Built::Failed(
                    FailureView { depth: f.depth.saturating_add(depth), ..f },
                ),
            },
        }
    } else {
        match alt.tail {
            Tail::Build { variant } => Built::Matched { variant, children: bound, idx },
            Tail::Choice { alternatives, fallback } => try_alternatives(
                g,
                tokens,
                answers,
                alternatives@,
                0,
                fallback,
                idx,
                depth,
                bound,
                None,
                fuel,
            ),
        }
    }
}

/// What a parse of `tokens` from the root rule gives, given `answers`.
pub open spec fn parse_tokens(
    g: Grammar,
    tokens: Seq<Token<TokenType>>,
    answers: Seq<AnswerView>,
) -> Parsed {
    parse_rule(g, tokens, answers, g.root as int, 0, g.max_nesting as nat)
}

/// A fallback names no rule that the grammar does not have.
pub open spec fn fallback_wf(fallback: Fallback, rules: nat) -> bool {
    match fallback {
        Fallback::Delegate { rule, variant } => rule < rules,
        _ => true,
    }
}

/// A requirement names no rule that the grammar does not have.
pub open spec fn requirement_wf(requirement: Requirement, rules: nat) -> bool {
    match requirement {
        Requirement::Rule { rule, bind } => rule < rules,
        _ => true,
    }
}

/// An alternative names no rule that the grammar does not have.
pub open spec fn alternative_wf(alt: Alternative, rules: nat) -> bool
    decreases alt,
{
    &&& forall|k: int|
        0 <= k < alt.requirements@.len() ==> requirement_wf(#[trigger] alt.requirements@[k], rules)
    &&& match alt.tail {
        Tail::Build { variant } => true,
        Tail::Choice { alternatives, fallback } => alternatives_wf(alternatives@, rules)
            && fallback_wf(fallback, rules),
    }
}

/// No alternative of a list names a rule that the grammar does not have.
pub open spec fn alternatives_wf(alts: Seq<Alternative>, rules: nat) -> bool
    decreases alts,
{
    forall|i: int| 0 <= i < alts.len() ==> alternative_wf(#[trigger] alts[i], rules)
}

/// A match, with the cursor that stands behind what was consumed.
#[derive(Debug)]
pub enum Match<'a> {
    /// The variant and the children of the node that the rule builds.
    Built { variant: u32, children: Vec<Child>, child: Parxt<'a, TokenType> },
    /// The variant of the node without children that stands where the rule
    /// began.
    Placed { variant: u32, child: Parxt<'a, TokenType> },
    /// The node of a parsing function from outside the grammar.
    Whole { node: Node, child: Parxt<'a, TokenType> },
}

impl<'a> Match<'a> {
    /// The cursor that stands behind what was consumed.
    pub open spec fn cursor(self) -> Parxt<'a, TokenType> {
        match self {
            Match::Built { variant, children, child } => child,
            Match::Placed { variant, child } => child,
            Match::Whole { node, child } => child,
        }
    }

    /// The match as a mathematical value.
    pub open spec fn built(self) -> Built {
        match self {
            Match::Built { variant, children, child } => Built::Matched {
                variant,
                children: views(children@),
                idx: child.idx as int,
            },
            Match::Placed { variant, child } => Built::Placed { variant, idx: child.idx as int },
            Match::Whole { node, child } => Built::Whole { node: node@, idx: child.idx as int },
        }
    }
}

/// The index of the first of `answers` that answers the call of `hook` at
/// `at`, over `len` tokens.
pub fn find_answer(answers: &Vec<Answer>, hook: usize, at: usize, len: usize) -> (r: Option<usize>)
    ensures
        match r {
            Some(i) => i < answers@.len() && answers_to(
                answers@[i as int]@,
                hook,
                at as int,
                len as int,
            ) && (forall|j: int|
                0 <= j < i ==> !answers_to((#[trigger] answers@[j])@, hook, at as int, len as int))
                && answer_for(answer_views(answers@), 0, hook, at as int, len as int) == Some(
                answers@[i as int]@.outcome,
            ),
            None => answer_for(answer_views(answers@), 0, hook, at as int, len as int) is None,
        },
{
    let mut i: usize = 0;
    while i < answers.len()
        invariant
            i <= answers@.len(),
            forall|j: int|
                0 <= j < i ==> !answers_to((#[trigger] answers@[j])@, hook, at as int, len as int),
            answer_for(answer_views(answers@), i as int, hook, at as int, len as int)
                == answer_for(answer_views(answers@), 0, hook, at as int, len as int),
        decreases answers@.len() - i,
    {
        let a = &answers[i];
        assert(answer_views(answers@)[i as int] == a@);
        let fits = match &a.outcome {
            Ok(found) => at <= found.end && found.end <= len,
            Err(_) => true,
        };
        if a.hook == hook && a.at == at && fits {
            return Some(i);
        }
        i = i + 1;
    }
    None
}

impl Grammar {
    /// The root is a rule of the grammar, and so is every rule that a
    /// requirement or a fallback names.
    pub open spec fn wf(&self) -> bool {
        &&& self.root < self.rules@.len()
        &&& forall|i: int|
            0 <= i < self.rules@.len() ==> alternatives_wf(
                (#[trigger] self.rules@[i]).alternatives@,
                self.rules@.len(),
            ) && fallback_wf(self.rules@[i].fallback, self.rules@.len())
    }

    /// Whether the grammar is well formed.
    pub fn check(&self) -> (b: bool)
        ensures
            b == self.wf(),
    {
        if self.root >= self.rules.len() {
            return false;
        }
        let n = self.rules.len();
        let mut i: usize = 0;
        while i < n
            invariant
                i <= n == self.rules@.len(),
                forall|j: int|
                    0 <= j < i ==> alternatives_wf(
                        (#[trigger] self.rules@[j]).alternatives@,
                        self.rules@.len(),
                    ) && fallback_wf(self.rules@[j].fallback, self.rules@.len()),
            decreases n - i,
        {
            if !check_alternatives(&self.rules[i].alternatives, n) || !check_fallback(
                &self.rules[i].fallback,
                n,
            ) {
                return false;
            }
            i = i + 1;
        }
        true
    }

    /// Parses `tokens` from the root rule, in a grammar that hands over to no
    /// parsing function from outside.
    ///
    /// The result is the tree of the root rule, or the diagnostic of the
    /// failure that got furthest; how far it got is dropped.
    pub fn parse(&self, tokens: &[Token<TokenType>]) -> (r: Result<Node, CompileError>)
        requires
            self.wf(),
            tokens@.len() > 0,
            tokens@[tokens@.len() - 1].span.end.line < usize::MAX,
        ensures
            match r {
                Ok(node) => parse_tokens(*self, tokens@, Seq::empty()) matches Parsed::Matched {
                    node: n,
                    idx,
                } && n == node@,
                Err(e) => parse_tokens(*self, tokens@, Seq::empty()) matches Parsed::Failed(f)
                    && f.error == e@,
            },
    {
        let answers: Vec<Answer> = Vec::new();
        assert(answer_views(answers@) =~= Seq::empty());
        match self.parse_with(tokens, &answers) {
            Ok(node) => Ok(node),
            Err(f) => Err(f.error),
        }
    }

    /// Parses `tokens` from the root rule, given what the parsing functions
    /// from outside the grammar gave where they were run.
    ///
    /// A failure with a request says which call has to be answered before
    /// the parse can get further: run that function there, add what it gave
    /// to `answers`, and parse again.
    pub fn parse_with(&self, tokens: &[Token<TokenType>], answers: &Vec<Answer>) -> (r: Result<
        Node,
        Failure,
    >)
        requires
            self.wf(),
            tokens@.len() > 0,
            tokens@[tokens@.len() - 1].span.end.line < usize::MAX,
        ensures
            match r {
                Ok(node) => parse_tokens(*self, tokens@, answer_views(answers@))
                    matches Parsed::Matched { node: n, idx } && n == node@,
                Err(f) => parse_tokens(*self, tokens@, answer_views(answers@)) == Parsed::Failed(
                    f@,
                ),
            },
    {
        let mut parxt = Parxt::new(tokens);
        self.parse_rule(self.root, &mut parxt, self.max_nesting, answers)
    }

    /// Invokes the rule `rule` where `parxt` stands, from a rule that may
    /// still invoke rules `fuel` deep: a fatal failure where that is not deep
    /// enough.
    pub fn invoke<'a>(
        &self,
        rule: usize,
        parxt: &mut Parxt<'a, TokenType>,
        fuel: usize,
        answers: &Vec<Answer>,
    ) -> (r: Result<Node, Failure>)
        requires
            self.wf(),
            rule < self.rules@.len(),
            old(parxt).well_formed(),
            old(parxt).locatable(),
            old(parxt).idx <= old(parxt).tokens@.len(),
        ensures
            final(parxt).well_formed(),
            final(parxt).tokens == old(parxt).tokens,
            final(parxt).idx <= final(parxt).tokens@.len(),
            match r {
                Ok(node) => invoke(
                    *self,
                    old(parxt).tokens@,
                    answer_views(answers@),
                    rule as int,
                    old(parxt).idx as int,
                    fuel as nat,
                ) == (Parsed::Matched { node: node@, idx: final(parxt).idx as int })
                    && old(parxt).idx <= final(parxt).idx,
                Err(f) => invoke(
                    *self,
                    old(parxt).tokens@,
                    answer_views(answers@),
                    rule as int,
                    old(parxt).idx as int,
                    fuel as nat,
                ) == Parsed::Failed(f@) && *final(parxt) == *old(parxt),
            },
        decreases fuel, 0nat,
    {
        if fuel == 0 {
            let args: Vec<String> = Vec::new();
            let mut spans: Vec<Span> = Vec::new();
            spans.push(parxt.position());
            assert(texts(args@) =~= Seq::empty());
            assert(spans@ == seq![span_at(parxt.tokens@, parxt.idx as int)]);
            return Err(
                Failure {
                    depth: 0,
                    error: self.nesting.instantiate(&args, spans, true),
                    request: None,
                },
            );
        }
        self.parse_rule(rule, parxt, fuel - 1, answers)
    }

    /// Matches the rule `rule` where `parxt` stands; the rule may invoke rules
    /// `fuel` deep.
    ///
    /// On a match the node is returned and `parxt` stands behind what was
    /// consumed. On a failure `parxt` is as it was.
    pub fn parse_rule<'a>(
        &self,
        rule: usize,
        parxt: &mut Parxt<'a, TokenType>,
        fuel: usize,
        answers: &Vec<Answer>,
    ) -> (r: Result<Node, Failure>)
        requires
            self.wf(),
            rule < self.rules@.len(),
            old(parxt).well_formed(),
            old(parxt).locatable(),
            old(parxt).idx <= old(parxt).tokens@.len(),
        ensures
            final(parxt).well_formed(),
            final(parxt).tokens == old(parxt).tokens,
            final(parxt).idx <= final(parxt).tokens@.len(),
            match r {
                Ok(node) => parse_rule(
                    *self,
                    old(parxt).tokens@,
                    answer_views(answers@),
                    rule as int,
                    old(parxt).idx as int,
                    fuel as nat,
                ) == (Parsed::Matched { node: node@, idx: final(parxt).idx as int })
                    && old(parxt).idx <= final(parxt).idx,
                Err(f) => parse_rule(
                    *self,
                    old(parxt).tokens@,
                    answer_views(answers@),
                    rule as int,
                    old(parxt).idx as int,
                    fuel as nat,
                ) == Parsed::Failed(f@) && *final(parxt) == *old(parxt),
            },
        decreases fuel, 3nat,
    {
        let def = &self.rules[rule];
        let mut bound: Vec<Child> = Vec::new();
        assert(views(bound@) =~= Seq::empty());
        let entry = parxt.spawn();
        match attempt_alternatives(
            self,
            answers,
            &def.alternatives,
            &def.fallback,
            &entry,
            0,
            &mut bound,
            fuel,
        ) {
            Ok(Match::Built { variant, children, child }) => {
                let start = parxt.position();
                let span = if child.idx > parxt.idx {
                    start.combine(&parxt.tokens[child.idx - 1].span)
                } else {
                    start
                };
                *parxt = child;
                Ok(Node { span, variant, children })
            },
            Ok(Match::Placed { variant, child }) => {
                let span = parxt.position();
                *parxt = child;
                let children: Vec<Child> = Vec::new();
                assert(views(children@) =~= Seq::empty());
                Ok(Node { span, variant, children })
            },
            Ok(Match::Whole { node, child }) => {
                *parxt = child;
                Ok(node)
            },
            Err(f) => Err(f),
        }
    }
}

/// Whether a fallback names no rule beyond the first `rules`.
pub fn check_fallback(fallback: &Fallback, rules: usize) -> (b: bool)
    ensures
        b == fallback_wf(*fallback, rules as nat),
{
    match fallback {
        Fallback::Delegate { rule, variant } => *rule < rules,
        _ => true,
    }
}

/// Whether an alternative names no rule beyond the first `rules`.
pub fn check_alternative(alt: &Alternative, rules: usize) -> (b: bool)
    ensures
        b == alternative_wf(*alt, rules as nat),
    decreases *alt,
{
    let mut k: usize = 0;
    while k < alt.requirements.len()
        invariant
            k <= alt.requirements@.len(),
            forall|j: int|
                0 <= j < k ==> requirement_wf(#[trigger] alt.requirements@[j], rules as nat),
        decreases alt.requirements@.len() - k,
    {
        match &alt.requirements[k] {
            Requirement::Rule { rule, bind } => {
                if *rule >= rules {
                    return false;
                }
            },
            _ => {},
        }
        k = k + 1;
    }
    match &alt.tail {
        Tail::Build { variant } => true,
        Tail::Choice { alternatives, fallback } => check_alternatives(alternatives, rules)
            && check_fallback(fallback, rules),
    }
}

/// Whether no alternative of a list names a rule beyond the first `rules`.
pub fn check_alternatives(alts: &Vec<Alternative>, rules: usize) -> (b: bool)
    ensures
        b == alternatives_wf(alts@, rules as nat),
    decreases alts@,
{
    let mut i: usize = 0;
    while i < alts.len()
        invariant
            i <= alts@.len(),
            forall|j: int| 0 <= j < i ==> alternative_wf(#[trigger] alts@[j], rules as nat),
        decreases alts@.len() - i,
    {
        if !check_alternative(&alts[i], rules) {
            return false;
        }
        i = i + 1;
    }
    true
}

/// Tries the alternatives `alts` in their order where `entry` stands, each on
/// a cursor of its own, and resolves by `fallback` when all have failed.
///
/// `bound` holds the children that were bound before the list was reached.
/// After a failure it is as it was.
pub fn attempt_alternatives<'a>(
    g: &Grammar,
    answers: &Vec<Answer>,
    alts: &Vec<Alternative>,
    fallback: &Fallback,
    entry: &Parxt<'a, TokenType>,
    base: usize,
    bound: &mut Vec<Child>,
    fuel: usize,
) -> (r: Result<Match<'a>, Failure>)
    requires
        g.wf(),
        alternatives_wf(alts@, g.rules@.len()),
        fallback_wf(*fallback, g.rules@.len()),
        entry.well_formed(),
        entry.locatable(),
        entry.idx <= entry.tokens@.len(),
    ensures
        match r {
            Ok(m) => try_alternatives(
                *g,
                entry.tokens@,
                answer_views(answers@),
                alts@,
                0,
                *fallback,
                entry.idx as int,
                base,
                views(old(bound)@),
                None,
                fuel as nat,
            ) == m.built() && m.cursor().well_formed() && m.cursor().tokens == entry.tokens
                && entry.idx <= m.cursor().idx <= entry.tokens@.len(),
            Err(f) => try_alternatives(
                *g,
                entry.tokens@,
                answer_views(answers@),
                alts@,
                0,
                *fallback,
                entry.idx as int,
                base,
                views(old(bound)@),
                None,
                fuel as nat,
            ) == Built::Failed(f@) && final(bound)@ == old(bound)@,
        },
    decreases fuel, 2nat, alts@, alts@.len(),
{
    let ghost goal = try_alternatives(
        *g,
        entry.tokens@,
        answer_views(answers@),
        alts@,
        0,
        *fallback,
        entry.idx as int,
        base,
        views(bound@),
        None,
        fuel as nat,
    );
    let mut best: Option<Failure> = None;
    let mut i: usize = 0;
    while i < alts.len()
        invariant
            i <= alts@.len(),
            g.wf(),
            alternatives_wf(alts@, g.rules@.len()),
            entry.well_formed(),
            entry.locatable(),
            entry.idx <= entry.tokens@.len(),
            bound@ == old(bound)@,
            try_alternatives(
                *g,
                entry.tokens@,
                answer_views(answers@),
                alts@,
                i as int,
                *fallback,
                entry.idx as int,
                base,
                views(bound@),
                match best {
                    Some(b) => Some(b@),
                    None => None,
                },
                fuel as nat,
            ) == try_alternatives(
                *g,
                entry.tokens@,
                answer_views(answers@),
                alts@,
                0,
                *fallback,
                entry.idx as int,
                base,
                views(old(bound)@),
                None,
                fuel as nat,
            ),
        decreases alts@.len() - i,
    {
        match attempt_requirements(g, answers, &alts[i], entry, base, bound, fuel) {
            Ok(m) => {
                return Ok(m);
            },
            Err(f) => {
                if f.error.fatal {
                    return Err(f);
                }
                best = match best {
                    None => Some(f),
                    Some(b) => if f.depth > b.depth {
                        Some(f)
                    } else {
                        Some(b)
                    },
                };
            },
        }
        i = i + 1;
    }
    match best {
        Some(b) => {
            if b.depth > base {
                return Err(b);
            }
        },
        None => {},
    }
    let ghost handed = delegated(
        *g,
        entry.tokens@,
        answer_views(answers@),
        *fallback,
        entry.idx as int,
        base,
        fuel as nat,
    );
    assert(goal == resolve(
        entry.tokens@,
        *fallback,
        entry.idx as int,
        base,
        match best {
            Some(b) => Some(b@),
            None => None,
        },
        handed,
    ));
    match fallback {
        Fallback::Raise { error, args } => {
            let mut spans: Vec<Span> = Vec::new();
            spans.push(entry.position());
            assert(spans@ == seq![span_at(entry.tokens@, entry.idx as int)]);
            Err(
                Failure {
                    depth: base,
                    error: error.instantiate(args, spans, false),
                    request: None,
                },
            )
        },
        Fallback::Succeed { variant } => Ok(
            Match::Placed { variant: *variant, child: entry.spawn() },
        ),
        Fallback::Delegate { rule, variant } => {
            let mut child = entry.spawn();
            match g.invoke(*rule, &mut child, fuel, answers) {
                Ok(node) => {
                    let ghost value = node@;
                    let mut children: Vec<Child> = Vec::new();
                    children.push(Child::Node(node));
                    proof {
                        crate::token_node::lemma_views(children@);
                        assert(views(children@) =~= seq![ChildView::Node(value)]);
                    }
                    Ok(Match::Built { variant: *variant, children, child })
                },
                Err(f) => Err(
                    Failure {
                        depth: f.depth.saturating_add(base),
                        error: f.error,
                        request: f.request,
                    },
                ),
            }
        },
        Fallback::External { hook } => {
            match find_answer(answers, *hook, entry.idx, entry.tokens.len()) {
                Some(i) => {
                    match &answers[i].outcome {
                        Ok(found) => {
                            let child = Parxt {
                                tokens: entry.tokens,
                                idx: found.end,
                                done: found.end >= entry.tokens.len(),
                            };
                            assert(answers@[i as int]@.outcome == (Parsed::Matched {
                                node: found.node@,
                                idx: found.end as int,
                            }));
                            Ok(Match::Whole { node: found.node.duplicate(), child })
                        },
                        Err(f) => {
                            assert(answers@[i as int]@.outcome == Parsed::Failed(f@));
                            Err(f.duplicate())
                        },
                    }
                },
                None => {
                    let args: Vec<String> = Vec::new();
                    let mut spans: Vec<Span> = Vec::new();
                    spans.push(entry.position());
                    assert(texts(args@) =~= Seq::empty());
                    assert(spans@ == seq![span_at(entry.tokens@, entry.idx as int)]);
                    Err(
                        Failure {
                            depth: base,
                            error: g.unanswered.instantiate(&args, spans, true),
                            request: Some(Request { hook: *hook, at: entry.idx }),
                        },
                    )
                },
            }
        },
    }
}

/// Matches the requirements of `alt` one after the other on a cursor of its
/// own that starts where `entry` stands, then does what the tail says.
///
/// `bound` holds the children that were bound before the alternative was
/// reached. After a failure it is as it was.
pub fn attempt_requirements<'a>(
    g: &Grammar,
    answers: &Vec<Answer>,
    alt: &Alternative,
    entry: &Parxt<'a, TokenType>,
    base: usize,
    bound: &mut Vec<Child>,
    fuel: usize,
) -> (r: Result<Match<'a>, Failure>)
    requires
        g.wf(),
        alternative_wf(*alt, g.rules@.len()),
        entry.well_formed(),
        entry.locatable(),
        entry.idx <= entry.tokens@.len(),
    ensures
        match r {
            Ok(m) => run_requirements(
                *g,
                entry.tokens@,
                answer_views(answers@),
                *alt,
                0,
                entry.idx as int,
                base,
                views(old(bound)@),
                fuel as nat,
            ) == m.built() && m.cursor().well_formed() && m.cursor().tokens == entry.tokens
                && entry.idx <= m.cursor().idx <= entry.tokens@.len(),
            Err(f) => run_requirements(
                *g,
                entry.tokens@,
                answer_views(answers@),
                *alt,
                0,
                entry.idx as int,
                base,
                views(old(bound)@),
                fuel as nat,
            ) == Built::Failed(f@) && final(bound)@ == old(bound)@,
        },
    decreases fuel, 2nat, *alt, alt.requirements@.len(),
{
    let mark = bound.len();
    let mut child = entry.spawn();
    let mut depth = base;
    let mut k: usize = 0;
    while k < alt.requirements.len()
        invariant
            k <= alt.requirements@.len(),
            g.wf(),
            alternative_wf(*alt, g.rules@.len()),
            entry.well_formed(),
            entry.locatable(),
            child.well_formed(),
            child.tokens == entry.tokens,
            entry.idx <= child.idx <= entry.tokens@.len(),
            mark == old(bound)@.len(),
            mark <= bound@.len(),
            bound@.take(mark as int) == old(bound)@,
            run_requirements(
                *g,
                entry.tokens@,
                answer_views(answers@),
                *alt,
                k as int,
                child.idx as int,
                depth,
                views(bound@),
                fuel as nat,
            ) == run_requirements(
                *g,
                entry.tokens@,
                answer_views(answers@),
                *alt,
                0,
                entry.idx as int,
                base,
                views(old(bound)@),
                fuel as nat,
            ),
        decreases alt.requirements@.len() - k,
    {
        match &alt.requirements[k] {
            Requirement::Token { kind, name, bind } => {
                let found = match child.current() {
                    Some(token_type) => token_type.kind == *kind,
                    None => false,
                };
                if !found {
                    let mut args: Vec<String> = Vec::new();
                    args.push(name.clone());
                    let mut spans: Vec<Span> = Vec::new();
                    spans.push(child.position());
                    assert(texts(args@) =~= seq![name@]);
                    assert(spans@ == seq![span_at(entry.tokens@, child.idx as int)]);
                    bound.truncate(mark);
                    return Err(
                        Failure {
                            depth,
                            error: g.expected.instantiate(&args, spans, false),
                            request: None,
                        },
                    );
                }
                if *bind {
                    proof {
                        crate::token_node::lemma_views_push(bound@, Child::Token(child.idx));
                    }
                    bound.push(Child::Token(child.idx));
                }
                child.advance();
            },
            Requirement::Rule { rule, bind } => {
                match g.invoke(*rule, &mut child, fuel, answers) {
                    Ok(node) => {
                        if *bind {
                            proof {
                                crate::token_node::lemma_views_push(bound@, Child::Node(node));
                            }
                            bound.push(Child::Node(node));
                        }
                    },
                    Err(f) => {
                        bound.truncate(mark);
                        return Err(
                            Failure {
                                depth: f.depth.saturating_add(depth),
                                error: f.error,
                                request: f.request,
                            },
                        );
                    },
                }
            },
        }
        depth = depth.saturating_add(1);
        k = k + 1;
    }
    match &alt.tail {
        Tail::Build { variant } => {
            let mut children: Vec<Child> = Vec::new();
            std::mem::swap(bound, &mut children);
            Ok(Match::Built { variant: *variant, children, child })
        },
        Tail::Choice { alternatives, fallback } => {
            match attempt_alternatives(
                g,
                answers,
                alternatives,
                fallback,
                &child,
                depth,
                bound,
                fuel,
            ) {
                Ok(m) => Ok(m),
                Err(f) => {
                    bound.truncate(mark);
                    Err(f)
                },
            }
        },
    }
}

/// The failure that is retained of the first `n` of `failures`.
pub open spec fn retained(failures: Seq<FailureView>, n: int) -> Option<FailureView>
    decreases n,
{
    if n <= 0 {
        None
    } else {
        further(retained(failures, n - 1), failures[n - 1])
    }
}

/// Furthest failure: what is retained is the first of the failures that got
/// furthest. How far it got is therefore the same in whatever order the
/// failures come.
pub proof fn lemma_retained_is_furthest(failures: Seq<FailureView>, n: int)
    requires
        0 < n <= failures.len(),
    ensures
        retained(failures, n) is Some,
        exists|i: int|
            0 <= i < n && retained(failures, n) == Some(#[trigger] failures[i]) && (forall|j: int|
                0 <= j < n ==> failures[j].depth <= failures[i].depth) && (forall|j: int|
                0 <= j < i ==> failures[j].depth < failures[i].depth),
    decreases n,
{
    if n == 1 {
        assert(retained(failures, 0) is None);
        assert(retained(failures, 1) == Some(failures[0]));
    } else {
        lemma_retained_is_furthest(failures, n - 1);
        let i = choose|i: int|
            0 <= i < n - 1 && retained(failures, n - 1) == Some(#[trigger] failures[i])
                && (forall|j: int| 0 <= j < n - 1 ==> failures[j].depth <= failures[i].depth)
                && (forall|j: int| 0 <= j < i ==> failures[j].depth < failures[i].depth);
        if failures[n - 1].depth > failures[i].depth {
            assert(retained(failures, n) == Some(failures[n - 1]));
        } else {
            assert(retained(failures, n) == Some(failures[i]));
        }
    }
}

/// Two runs of failures that hold the same failures, in whatever order,
/// retain failures that got equally far.
pub proof fn lemma_retained_depth_ignores_order(a: Seq<FailureView>, b: Seq<FailureView>)
    requires
        a.len() > 0,
        forall|i: int| 0 <= i < a.len() ==> b.contains(#[trigger] a[i]),
        forall|i: int| 0 <= i < b.len() ==> a.contains(#[trigger] b[i]),
    ensures
        retained(a, a.len() as int) is Some,
        retained(b, b.len() as int) is Some,
        retained(a, a.len() as int)->0.depth == retained(b, b.len() as int)->0.depth,
{
    assert(b.contains(a[0]));
    lemma_retained_is_furthest(a, a.len() as int);
    lemma_retained_is_furthest(b, b.len() as int);
    let i = choose|i: int|
        0 <= i < a.len() && retained(a, a.len() as int) == Some(#[trigger] a[i]) && (forall|j: int|
            0 <= j < a.len() ==> a[j].depth <= a[i].depth);
    let k = choose|k: int|
        0 <= k < b.len() && retained(b, b.len() as int) == Some(#[trigger] b[k]) && (forall|j: int|
            0 <= j < b.len() ==> b[j].depth <= b[k].depth);
    assert(b.contains(a[i]));
    assert(a.contains(b[k]));
}

/// Every alternative of `alts` fails where it is tried, and none fatally.
pub open spec fn all_fail(
    g: Grammar,
    tokens: Seq<Token<TokenType>>,
    answers: Seq<AnswerView>,
    alts: Seq<Alternative>,
    entry: int,
    base: usize,
    bound: Seq<ChildView>,
    fuel: nat,
) -> bool {
    forall|i: int|
        0 <= i < alts.len() ==> ((#[trigger] run_requirements(
            g,
            tokens,
            answers,
            alts[i],
            0,
            entry,
            base,
            bound,
            fuel,
        )) matches Built::Failed(f) && !f.error.fatal)
}

/// The failures of the alternatives of `alts`, in their order.
pub open spec fn failures_of(
    g: Grammar,
    tokens: Seq<Token<TokenType>>,
    answers: Seq<AnswerView>,
    alts: Seq<Alternative>,
    entry: int,
    base: usize,
    bound: Seq<ChildView>,
    fuel: nat,
) -> Seq<FailureView> {
    Seq::new(
        alts.len(),
        |i: int|
            run_requirements(g, tokens, answers, alts[i], 0, entry, base, bound, fuel)->Failed_0,
    )
}

/// Where every alternative fails, the list resolves from the failure that is
/// retained of all of them.
pub proof fn lemma_all_failed(
    g: Grammar,
    tokens: Seq<Token<TokenType>>,
    answers: Seq<AnswerView>,
    alts: Seq<Alternative>,
    from: int,
    fallback: Fallback,
    entry: int,
    base: usize,
    bound: Seq<ChildView>,
    fuel: nat,
)
    requires
        0 <= from <= alts.len(),
        all_fail(g, tokens, answers, alts, entry, base, bound, fuel),
    ensures
        try_alternatives(
            g,
            tokens,
            answers,
            alts,
            from,
            fallback,
            entry,
            base,
            bound,
            retained(failures_of(g, tokens, answers, alts, entry, base, bound, fuel), from),
            fuel,
        ) == resolve(
            tokens,
            fallback,
            entry,
            base,
            retained(
                failures_of(g, tokens, answers, alts, entry, base, bound, fuel),
                alts.len() as int,
            ),
            delegated(g, tokens, answers, fallback, entry, base, fuel),
        ),
    decreases alts.len() - from,
{
    if from < alts.len() {
        let fs = failures_of(g, tokens, answers, alts, entry, base, bound, fuel);
        let outcome = run_requirements(
            g,
            tokens,
            answers,
            alts[from],
            0,
            entry,
            base,
            bound,
            fuel,
        );
        assert(outcome matches Built::Failed(f) && !f.error.fatal);
        assert(fs[from] == outcome->Failed_0);
        assert(retained(fs, from + 1) == further(retained(fs, from), fs[from]));
        lemma_all_failed(g, tokens, answers, alts, from + 1, fallback, entry, base, bound, fuel);
    }
}

/// Furthest failure, for two alternatives: where both fail and one of them
/// gets further than the other and past the requirements that were met
/// before, its failure is the result, whichever of the two is tried first.
pub proof fn lemma_deeper_failure_wins(
    g: Grammar,
    tokens: Seq<Token<TokenType>>,
    answers: Seq<AnswerView>,
    deeper: Alternative,
    other: Alternative,
    fallback: Fallback,
    entry: int,
    base: usize,
    bound: Seq<ChildView>,
    fuel: nat,
)
    requires
        run_requirements(g, tokens, answers, deeper, 0, entry, base, bound, fuel) is Failed,
        run_requirements(g, tokens, answers, other, 0, entry, base, bound, fuel) is Failed,
        !run_requirements(
            g,
            tokens,
            answers,
            deeper,
            0,
            entry,
            base,
            bound,
            fuel,
        )->Failed_0.error.fatal,
        !run_requirements(
            g,
            tokens,
            answers,
            other,
            0,
            entry,
            base,
            bound,
            fuel,
        )->Failed_0.error.fatal,
        run_requirements(g, tokens, answers, deeper, 0, entry, base, bound, fuel)->Failed_0.depth
            > run_requirements(
            g,
            tokens,
            answers,
            other,
            0,
            entry,
            base,
            bound,
            fuel,
        )->Failed_0.depth,
        run_requirements(g, tokens, answers, deeper, 0, entry, base, bound, fuel)->Failed_0.depth
            > base,
    ensures
        try_alternatives(
            g,
            tokens,
            answers,
            seq![deeper, other],
            0,
            fallback,
            entry,
            base,
            bound,
            None,
            fuel,
        ) == run_requirements(g, tokens, answers, deeper, 0, entry, base, bound, fuel),
        try_alternatives(
            g,
            tokens,
            answers,
            seq![other, deeper],
            0,
            fallback,
            entry,
            base,
            bound,
            None,
            fuel,
        ) == run_requirements(g, tokens, answers, deeper, 0, entry, base, bound, fuel),
{
    let one = seq![deeper, other];
    let two = seq![other, deeper];
    let fd = run_requirements(g, tokens, answers, deeper, 0, entry, base, bound, fuel)->Failed_0;
    let fo = run_requirements(g, tokens, answers, other, 0, entry, base, bound, fuel)->Failed_0;
    assert(one[0] == deeper && one[1] == other);
    assert(two[0] == other && two[1] == deeper);
    let f1 = failures_of(g, tokens, answers, one, entry, base, bound, fuel);
    let f2 = failures_of(g, tokens, answers, two, entry, base, bound, fuel);
    assert(f1[0] == fd && f1[1] == fo);
    assert(f2[0] == fo && f2[1] == fd);
    assert(retained(f1, 0) is None);
    assert(retained(f1, 1) == Some(fd));
    assert(retained(f1, 2) == Some(fd));
    assert(retained(f2, 0) is None);
    assert(retained(f2, 1) == Some(fo));
    assert(retained(f2, 2) == Some(fd));
    lemma_all_failed(g, tokens, answers, one, 0, fallback, entry, base, bound, fuel);
    lemma_all_failed(g, tokens, answers, two, 0, fallback, entry, base, bound, fuel);
}

/// The name by which a token requirement calls its token.
pub open spec fn name_of(requirement: Requirement) -> String {
    match requirement {
        Requirement::Token { kind, name, bind } => name,
        Requirement::Rule { rule, bind } => arbitrary(),
    }
}

/// Whether `requirement` asks for a token of the kind that lies at the index
/// `idx`.
pub open spec fn token_there(
    tokens: Seq<Token<TokenType>>,
    requirement: Requirement,
    idx: int,
) -> bool {
    requirement matches Requirement::Token { kind, name, bind } && 0 <= idx < tokens.len()
        && tokens[idx].token_type.kind == kind
}

/// Whether `requirement` asks for a token of a kind that does not lie at the
/// index `idx`.
pub open spec fn token_missing(
    tokens: Seq<Token<TokenType>>,
    requirement: Requirement,
    idx: int,
) -> bool {
    requirement matches Requirement::Token { kind, name, bind } && !(0 <= idx < tokens.len()
        && tokens[idx].token_type.kind == kind)
}

/// An alternative whose requirements up to the `n`th are tokens that lie in
/// the input from the index `first` on, and whose `n`th requirement is a
/// token that does not, fails at that token after `n` further requirements.
pub proof fn lemma_stops_at_missing_token(
    g: Grammar,
    tokens: Seq<Token<TokenType>>,
    answers: Seq<AnswerView>,
    alt: Alternative,
    k: int,
    n: int,
    first: int,
    base: usize,
    bound: Seq<ChildView>,
    fuel: nat,
)
    requires
        0 <= k <= n < alt.requirements@.len(),
        base + n <= usize::MAX,
        forall|j: int| 0 <= j < n ==> token_there(tokens, #[trigger] alt.requirements@[j], first + j),
        token_missing(tokens, alt.requirements@[n], first + n),
    ensures
        run_requirements(
            g,
            tokens,
            answers,
            alt,
            k,
            first + k,
            (base + k) as usize,
            bound,
            fuel,
        ) == Built::Failed(
            missing(g, tokens, name_of(alt.requirements@[n]), first + n, (base + n) as usize),
        ),
    decreases n - k,
{
    if k < n {
        assert(token_there(tokens, alt.requirements@[k], first + k));
        match alt.requirements@[k] {
            Requirement::Token { kind, name, bind } => {
                lemma_stops_at_missing_token(
                    g,
                    tokens,
                    answers,
                    alt,
                    k + 1,
                    n,
                    first,
                    base,
                    if bind {
                        bound.push(ChildView::Token((first + k) as usize))
                    } else {
                        bound
                    },
                    fuel,
                );
            },
            _ => {},
        }
    }
}

/// Furthest failure, for a rule of two alternatives of tokens: where one
/// alternative finds its first `far` tokens and misses the next, and the
/// other finds fewer before it misses one, the rule fails at the token that
/// the first one misses, after `far` requirements, whichever of the two is
/// declared first.
pub proof fn lemma_further_alternative_is_reported(
    g: Grammar,
    tokens: Seq<Token<TokenType>>,
    answers: Seq<AnswerView>,
    rule: int,
    idx: int,
    far: int,
    near: int,
    fuel: nat,
)
    requires
        0 <= rule < g.rules@.len(),
        g.rules@[rule].alternatives@.len() == 2,
        0 <= near < far <= usize::MAX,
        ({
            let a = g.rules@[rule].alternatives@[0];
            let b = g.rules@[rule].alternatives@[1];
            ||| stops_after(tokens, a, idx, far) && stops_after(tokens, b, idx, near)
            ||| stops_after(tokens, b, idx, far) && stops_after(tokens, a, idx, near)
        }),
    ensures
        ({
            let a = g.rules@[rule].alternatives@[0];
            let b = g.rules@[rule].alternatives@[1];
            let deeper = if stops_after(tokens, a, idx, far) {
                a
            } else {
                b
            };
            parse_rule(g, tokens, answers, rule, idx, fuel) == Parsed::Failed(
                missing(
                    g,
                    tokens,
                    name_of(deeper.requirements@[far]),
                    idx + far,
                    far as usize,
                ),
            )
        }),
{
    let alts = g.rules@[rule].alternatives@;
    let a = alts[0];
    let b = alts[1];
    let none = Seq::<ChildView>::empty();
    let (deeper, other) = if stops_after(tokens, a, idx, far) {
        (a, b)
    } else {
        (b, a)
    };
    lemma_stops_at_missing_token(g, tokens, answers, deeper, 0, far, idx, 0, none, fuel);
    lemma_stops_at_missing_token(g, tokens, answers, other, 0, near, idx, 0, none, fuel);
    lemma_deeper_failure_wins(
        g,
        tokens,
        answers,
        deeper,
        other,
        g.rules@[rule].fallback,
        idx,
        0,
        none,
        fuel,
    );
    assert(alts =~= seq![a, b]);
}

/// The first `n` requirements of `alt` are tokens that lie in the input from
/// the index `idx` on, and the next requirement is a token that does not.
pub open spec fn stops_after(
    tokens: Seq<Token<TokenType>>,
    alt: Alternative,
    idx: int,
    n: int,
) -> bool {
    &&& 0 <= n < alt.requirements@.len()
    &&& forall|j: int| 0 <= j < n ==> token_there(tokens, #[trigger] alt.requirements@[j], idx + j)
    &&& token_missing(tokens, alt.requirements@[n], idx + n)
}

/// Fallback floor: where no alternative gets past the requirements that were
/// met before the list was reached, the list resolves by its fallback, and
/// none of the failures is reported.
pub proof fn lemma_fallback_floor(
    g: Grammar,
    tokens: Seq<Token<TokenType>>,
    answers: Seq<AnswerView>,
    alts: Seq<Alternative>,
    fallback: Fallback,
    entry: int,
    base: usize,
    bound: Seq<ChildView>,
    fuel: nat,
)
    requires
        all_fail(g, tokens, answers, alts, entry, base, bound, fuel),
        forall|i: int|
            0 <= i < alts.len() ==> (#[trigger] failures_of(
                g,
                tokens,
                answers,
                alts,
                entry,
                base,
                bound,
                fuel,
            )[i]).depth <= base,
    ensures
        try_alternatives(
            g,
            tokens,
            answers,
            alts,
            0,
            fallback,
            entry,
            base,
            bound,
            None,
            fuel,
        ) == resolve(
            tokens,
            fallback,
            entry,
            base,
            None,
            delegated(g, tokens, answers, fallback, entry, base, fuel),
        ),
{
    let fs = failures_of(g, tokens, answers, alts, entry, base, bound, fuel);
    lemma_all_failed(g, tokens, answers, alts, 0, fallback, entry, base, bound, fuel);
    if alts.len() > 0 {
        lemma_retained_is_furthest(fs, alts.len() as int);
    }
}

/// The alternative does not get past its first requirement at the index
/// `idx`: that is a token which does not lie there, or a rule which fails
/// there before it has met a requirement, and not fatally.
pub open spec fn stops_at_once(
    g: Grammar,
    tokens: Seq<Token<TokenType>>,
    answers: Seq<AnswerView>,
    alt: Alternative,
    idx: int,
    fuel: nat,
) -> bool {
    alt.requirements@.len() > 0 && match alt.requirements@[0] {
        Requirement::Token { kind, name, bind } => !(0 <= idx < tokens.len()
            && tokens[idx].token_type.kind == kind),
        Requirement::Rule { rule, bind } => match invoke(
            g,
            tokens,
            answers,
            rule as int,
            idx,
            fuel,
        ) {
            Parsed::Failed(f) => f.depth == 0 && !f.error.fatal,
            _ => false,
        },
    }
}

/// Fallback floor, for a rule: where none of its alternatives gets past its
/// first requirement, the rule resolves by its fallback. A fallback that
/// raises gives its own diagnostic at the place where the rule began, after
/// no requirement; a fallback that succeeds gives its node at that place and
/// consumes nothing.
pub proof fn lemma_rule_falls_back(
    g: Grammar,
    tokens: Seq<Token<TokenType>>,
    answers: Seq<AnswerView>,
    rule: int,
    idx: int,
    fuel: nat,
)
    requires
        0 <= rule < g.rules@.len(),
        forall|i: int|
            0 <= i < g.rules@[rule].alternatives@.len() ==> stops_at_once(
                g,
                tokens,
                answers,
                #[trigger] g.rules@[rule].alternatives@[i],
                idx,
                fuel,
            ),
    ensures
        built_by(g, tokens, answers, rule, idx, fuel) == resolve(
            tokens,
            g.rules@[rule].fallback,
            idx,
            0,
            None,
            delegated(g, tokens, answers, g.rules@[rule].fallback, idx, 0, fuel),
        ),
        match g.rules@[rule].fallback {
            Fallback::Raise { error, args } => parse_rule(g, tokens, answers, rule, idx, fuel)
                == Parsed::Failed(
                FailureView {
                    depth: 0,
                    error: error.spec_instantiate(texts(args@), seq![span_at(tokens, idx)], false),
                    request: None,
                },
            ),
            Fallback::Succeed { variant } => parse_rule(g, tokens, answers, rule, idx, fuel) == (
            Parsed::Matched {
                node: NodeView { span: span_at(tokens, idx), variant, children: Seq::empty() },
                idx,
            }),
            Fallback::Delegate { rule: to, variant } => invoke(
                g,
                tokens,
                answers,
                to as int,
                idx,
                fuel,
            ) matches Parsed::Failed(f) ==> parse_rule(g, tokens, answers, rule, idx, fuel)
                == Parsed::Failed(f),
            Fallback::External { hook } => true,
        },
{
    let alts = g.rules@[rule].alternatives@;
    let none = Seq::<ChildView>::empty();
    assert forall|i: int| 0 <= i < alts.len() implies ((#[trigger] run_requirements(
        g,
        tokens,
        answers,
        alts[i],
        0,
        idx,
        0,
        none,
        fuel,
    )) matches Built::Failed(f) && !f.error.fatal && f.depth == 0) by {
        assert(stops_at_once(g, tokens, answers, alts[i], idx, fuel));
    }
    let fs = failures_of(g, tokens, answers, alts, idx, 0, none, fuel);
    assert forall|i: int| 0 <= i < alts.len() implies (#[trigger] fs[i]).depth <= 0 by {
        assert(run_requirements(g, tokens, answers, alts[i], 0, idx, 0, none, fuel) is Failed);
    }
    lemma_fallback_floor(g, tokens, answers, alts, g.rules@[rule].fallback, idx, 0, none, fuel);
}

/// An answer that is a match ends between the place of the call and the end
/// of the tokens.
pub proof fn lemma_answer_in_range(
    answers: Seq<AnswerView>,
    from: int,
    hook: usize,
    at: int,
    len: int,
)
    ensures
        answer_for(answers, from, hook, at, len) matches Some(Parsed::Matched { node, idx })
            ==> at <= idx <= len,
    decreases answers.len() - from,
{
    if 0 <= from < answers.len() && !answers_to(answers[from], hook, at, len) {
        lemma_answer_in_range(answers, from + 1, hook, at, len);
    }
}

/// A rule that matches ends between the place where it began and the end of
/// the tokens.
pub proof fn lemma_rule_in_range(
    g: Grammar,
    tokens: Seq<Token<TokenType>>,
    answers: Seq<AnswerView>,
    rule: int,
    idx: int,
    fuel: nat,
)
    requires
        0 <= idx <= tokens.len(),
    ensures
        parse_rule(g, tokens, answers, rule, idx, fuel) matches Parsed::Matched { node, idx: end }
            ==> idx <= end <= tokens.len(),
    decreases fuel, 3nat,
{
    let def = g.rules@[rule];
    lemma_alternatives_in_range(
        g,
        tokens,
        answers,
        def.alternatives@,
        0,
        def.fallback,
        idx,
        0,
        Seq::empty(),
        None,
        fuel,
    );
}

/// A rule that is invoked and matches ends between the place where it began
/// and the end of the tokens.
pub proof fn lemma_invoke_in_range(
    g: Grammar,
    tokens: Seq<Token<TokenType>>,
    answers: Seq<AnswerView>,
    rule: int,
    idx: int,
    fuel: nat,
)
    requires
        0 <= idx <= tokens.len(),
    ensures
        invoke(g, tokens, answers, rule, idx, fuel) matches Parsed::Matched { node, idx: end }
            ==> idx <= end <= tokens.len(),
    decreases fuel, 0nat,
{
    if fuel > 0 {
        lemma_rule_in_range(g, tokens, answers, rule, idx, (fuel - 1) as nat);
    }
}

/// A list of alternatives that matches ends between the place where it was
/// reached and the end of the tokens.
pub proof fn lemma_alternatives_in_range(
    g: Grammar,
    tokens: Seq<Token<TokenType>>,
    answers: Seq<AnswerView>,
    alts: Seq<Alternative>,
    from: int,
    fallback: Fallback,
    entry: int,
    base: usize,
    bound: Seq<ChildView>,
    best: Option<FailureView>,
    fuel: nat,
)
    requires
        0 <= entry <= tokens.len(),
    ensures
        match try_alternatives(
            g,
            tokens,
            answers,
            alts,
            from,
            fallback,
            entry,
            base,
            bound,
            best,
            fuel,
        ) {
            Built::Matched { variant, children, idx: end } => entry <= end <= tokens.len(),
            Built::Placed { variant, idx: end } => entry <= end <= tokens.len(),
            Built::Whole { node, idx: end } => entry <= end <= tokens.len(),
            Built::Failed(f) => true,
        },
    decreases fuel, 2nat, alts, alts.len() - from,
{
    if 0 <= from < alts.len() {
        lemma_requirements_in_range(g, tokens, answers, alts[from], 0, entry, base, bound, fuel);
        match run_requirements(g, tokens, answers, alts[from], 0, entry, base, bound, fuel) {
            Built::Failed(f) => {
                if !f.error.fatal {
                    lemma_alternatives_in_range(
                        g,
                        tokens,
                        answers,
                        alts,
                        from + 1,
                        fallback,
                        entry,
                        base,
                        bound,
                        further(best, f),
                        fuel,
                    );
                }
            },
            _ => {},
        }
    } else {
        let handed = delegated(g, tokens, answers, fallback, entry, base, fuel);
        assert(try_alternatives(
            g,
            tokens,
            answers,
            alts,
            from,
            fallback,
            entry,
            base,
            bound,
            best,
            fuel,
        ) == resolve(tokens, fallback, entry, base, best, handed));
        match fallback {
            Fallback::Delegate { rule, variant } => {
                lemma_invoke_in_range(g, tokens, answers, rule as int, entry, fuel);
            },
            Fallback::External { hook } => {
                lemma_answer_in_range(answers, 0, hook, entry, tokens.len() as int);
            },
            _ => {},
        }
    }
}

/// An alternative that matches ends between the place where it stands and
/// the end of the tokens.
pub proof fn lemma_requirements_in_range(
    g: Grammar,
    tokens: Seq<Token<TokenType>>,
    answers: Seq<AnswerView>,
    alt: Alternative,
    k: int,
    idx: int,
    depth: usize,
    bound: Seq<ChildView>,
    fuel: nat,
)
    requires
        0 <= idx <= tokens.len(),
    ensures
        match run_requirements(g, tokens, answers, alt, k, idx, depth, bound, fuel) {
            Built::Matched { variant, children, idx: end } => idx <= end <= tokens.len(),
            Built::Placed { variant, idx: end } => idx <= end <= tokens.len(),
            Built::Whole { node, idx: end } => idx <= end <= tokens.len(),
            Built::Failed(f) => true,
        },
    decreases fuel, 2nat, alt, alt.requirements@.len() - k,
{
    if 0 <= k < alt.requirements@.len() {
        match alt.requirements@[k] {
            Requirement::Token { kind, name, bind } => {
                if 0 <= idx < tokens.len() && tokens[idx].token_type.kind == kind {
                    lemma_requirements_in_range(
                        g,
                        tokens,
                        answers,
                        alt,
                        k + 1,
                        idx + 1,
                        depth.saturating_add(1),
                        if bind {
                            bound.push(ChildView::Token(idx as usize))
                        } else {
                            bound
                        },
                        fuel,
                    );
                }
            },
            Requirement::Rule { rule, bind } => {
                lemma_invoke_in_range(g, tokens, answers, rule as int, idx, fuel);
                match invoke(g, tokens, answers, rule as int, idx, fuel) {
                    Parsed::Matched { node, idx: next } => {
                        lemma_requirements_in_range(
                            g,
                            tokens,
                            answers,
                            alt,
                            k + 1,
                            next,
                            depth.saturating_add(1),
                            if bind {
                                bound.push(ChildView::Node(node))
                            } else {
                                bound
                            },
                            fuel,
                        );
                    },
                    _ => {},
                }
            },
        }
    } else {
        match alt.tail {
            Tail::Choice { alternatives, fallback } => {
                lemma_alternatives_in_range(
                    g,
                    tokens,
                    answers,
                    alternatives@,
                    0,
                    fallback,
                    idx,
                    depth,
                    bound,
                    None,
                    fuel,
                );
            },
            _ => {},
        }
    }
}

/// What the alternatives of the rule `rule` give at the token index `idx`.
pub open spec fn built_by(
    g: Grammar,
    tokens: Seq<Token<TokenType>>,
    answers: Seq<AnswerView>,
    rule: int,
    idx: int,
    fuel: nat,
) -> Built {
    try_alternatives(
        g,
        tokens,
        answers,
        g.rules@[rule].alternatives@,
        0,
        g.rules@[rule].fallback,
        idx,
        0,
        Seq::empty(),
        None,
        fuel,
    )
}

/// The node that a rule builds spans the tokens that the rule consumed. The
/// node of a fallback that succeeds stands where the rule began. The node of
/// a parsing function from outside the grammar is handed on as it stands.
pub proof fn lemma_span_of_match(
    g: Grammar,
    tokens: Seq<Token<TokenType>>,
    answers: Seq<AnswerView>,
    rule: int,
    idx: int,
    fuel: nat,
)
    ensures
        match built_by(g, tokens, answers, rule, idx, fuel) {
            Built::Matched { variant, children, idx: end } => parse_rule(
                g,
                tokens,
                answers,
                rule,
                idx,
                fuel,
            ) == (Parsed::Matched {
                node: NodeView { span: covered(tokens, idx, end), variant, children },
                idx: end,
            }),
            Built::Placed { variant, idx: end } => parse_rule(g, tokens, answers, rule, idx, fuel)
                == (Parsed::Matched {
                node: NodeView { span: span_at(tokens, idx), variant, children: Seq::empty() },
                idx: end,
            }),
            Built::Whole { node, idx: end } => parse_rule(g, tokens, answers, rule, idx, fuel) == (
            Parsed::Matched { node, idx: end }),
            Built::Failed(f) => parse_rule(g, tokens, answers, rule, idx, fuel) == Parsed::Failed(
                f,
            ),
        },
{
}

/// Over tokens that are in order, the span of a run of tokens starts where
/// its first token starts, ends where its last token ends, and so holds every
/// token of the run.
pub proof fn lemma_covered_holds_all(tokens: Seq<Token<TokenType>>, start: int, end: int)
    requires
        in_order(token_spans(tokens)),
        0 <= start < end <= tokens.len(),
    ensures
        covered(tokens, start, end).start == tokens[start].span.start,
        covered(tokens, start, end).end.offset == tokens[end - 1].span.end.offset,
        forall|k: int|
            start <= k < end ==> covered(tokens, start, end).start.offset <= (
            #[trigger] tokens[k]).span.start.offset && tokens[k].span.end.offset <= covered(
                tokens,
                start,
                end,
            ).end.offset,
{
    let spans = token_spans(tokens);
    assert(spans[start].start.offset <= spans[end - 1].start.offset);
    assert(spans[start].end.offset <= spans[end - 1].end.offset);
    assert forall|k: int| start <= k < end implies covered(tokens, start, end).start.offset <= (
    #[trigger] tokens[k]).span.start.offset && tokens[k].span.end.offset <= covered(
        tokens,
        start,
        end,
    ).end.offset by {
        assert(spans[start].start.offset <= spans[k].start.offset);
        assert(spans[k].end.offset <= spans[end - 1].end.offset);
    }
}

/// Round trip: over tokens that are in order, the node that a rule builds
/// from at least one token starts where the first token that it consumed
/// starts, ends where the last one ends, and so holds every one of them.
pub proof fn lemma_node_covers_consumed(
    g: Grammar,
    tokens: Seq<Token<TokenType>>,
    answers: Seq<AnswerView>,
    rule: int,
    idx: int,
    fuel: nat,
)
    requires
        in_order(token_spans(tokens)),
        0 <= idx <= tokens.len(),
        built_by(g, tokens, answers, rule, idx, fuel) is Matched,
    ensures
        parse_rule(g, tokens, answers, rule, idx, fuel) matches Parsed::Matched { node, idx: end }
            && idx <= end <= tokens.len() && (idx < end ==> node.span.start
            == tokens[idx].span.start && node.span.end.offset == tokens[end - 1].span.end.offset
            && forall|k: int|
            idx <= k < end ==> node.span.start.offset <= (#[trigger] tokens[k]).span.start.offset
                && tokens[k].span.end.offset <= node.span.end.offset),
{
    lemma_span_of_match(g, tokens, answers, rule, idx, fuel);
    lemma_rule_in_range(g, tokens, answers, rule, idx, fuel);
    let end = built_by(g, tokens, answers, rule, idx, fuel)->Matched_idx;
    if idx < end {
        lemma_covered_holds_all(tokens, idx, end);
    }
}

} // verus!
