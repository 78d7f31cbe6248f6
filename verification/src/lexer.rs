//! The scanning engine: an interpreter of ordered scanning rules over the
//! character cursor.

use crate::cursor::{in_order, lemma_end_to_end_in_order, Position, Span};
use crate::diagnostic::{push_char, texts, CompileError, ErrorDef, ErrorView};
use crate::flext::Flext;
use crate::lext::Lext;
use crate::token_node::{token_spans, Token};
use vstd::prelude::*;

verus! {

/// The type of a scanned token: a tag, and the text that the rule gathered
/// for it, if it gathered any.
#[derive(Debug)]
pub struct TokenType {
    pub kind: u32,
    pub text: Option<String>,
}

/// A token type as a mathematical value.
pub struct TypeView {
    pub kind: u32,
    pub text: Option<Seq<char>>,
}

impl View for TokenType {
    type V = TypeView;

    open spec fn view(&self) -> TypeView {
        TypeView {
            kind: self.kind,
            text: match self.text {
                Some(t) => Some(t@),
                None => None,
            },
        }
    }
}

/// A scanned token as a mathematical value.
pub struct TokenView {
    pub token_type: TypeView,
    pub span: Span,
}

/// The mathematical value of a scanned token.
pub open spec fn token_view(t: Token<TokenType>) -> TokenView {
    TokenView { token_type: t.token_type@, span: t.span }
}

/// The mathematical values of a sequence of scanned tokens.
pub open spec fn token_views(tokens: Seq<Token<TokenType>>) -> Seq<TokenView> {
    tokens.map_values(|t: Token<TokenType>| token_view(t))
}

/// A test on one character.
#[derive(Debug)]
pub enum CharTest {
    /// The character is this one.
    Is(char),
    /// The character is one of these.
    OneOf(Vec<char>),
}

impl CharTest {
    /// Whether `c` passes the test.
    pub open spec fn accepts(&self, c: char) -> bool {
        match self {
            CharTest::Is(x) => c == *x,
            CharTest::OneOf(set) => set@.contains(c),
        }
    }

    /// Whether `c` passes the test.
    pub fn test(&self, c: char) -> (b: bool)
        ensures
            b == self.accepts(c),
    {
        match self {
            CharTest::Is(x) => c == *x,
            CharTest::OneOf(set) => {
                let mut i: usize = 0;
                while i < set.len()
                    invariant
                        i <= set@.len(),
                        self.accepts(c) == set@.contains(c),
                        forall|j: int| 0 <= j < i ==> set@[j] != c,
                    decreases set@.len() - i,
                {
                    if set[i] == c {
                        assert(set@[i as int] == c);
                        return true;
                    }
                    i = i + 1;
                }
                false
            },
        }
    }
}

/// One instruction of a structured rule body.
///
/// A body runs on a copy of the scanner's cursor. It has flags and texts of
/// its own, each named by its index, and a bound character: the character
/// under the cursor when the rule, or the enclosing `Repeat` or `Peek`, began
/// its round.
#[derive(Debug)]
pub enum Step {
    /// Consumes one character.
    Advance,
    /// Gives the flag `var` the value `value`.
    SetFlag { var: usize, value: bool },
    /// Empties the text `var`.
    Clear { var: usize },
    /// Appends the bound character to the text `var`.
    Push { var: usize },
    /// Runs `body` if the bound character passes `test`.
    Check { test: CharTest, body: Vec<Step> },
    /// Runs `body` if the flag `var` has the value `expect`.
    IfFlag { var: usize, expect: bool, body: Vec<Step> },
    /// While a character is under the cursor: binds it, runs `body`, and
    /// consumes one character.
    Repeat { label: u32, body: Vec<Step> },
    /// If a character is under the cursor: binds it, runs `body`, and
    /// consumes one character.
    Peek { body: Vec<Step> },
    /// Ends the enclosing `Repeat` that has this label.
    Break { label: u32 },
    /// Commits the copy and yields a token of this kind, with the text `text`
    /// if one is named.
    Done { kind: u32, text: Option<usize> },
    /// Raises a fatal diagnostic at the cursor.
    Throw { error: ErrorDef },
}

/// One scanning rule. A rule is tried when a character is under the cursor.
#[derive(Debug)]
pub enum Rule {
    /// The character passes `test`: it is consumed and a token is emitted.
    Single { test: CharTest, kind: u32 },
    /// The next characters pass `tests` one by one: all of them are consumed
    /// and a token is emitted. Otherwise nothing is consumed. Without tests
    /// the rule matches nothing.
    Sequence { tests: Vec<CharTest>, kind: u32 },
    /// The character passes `test`: it is consumed and no token is emitted.
    Skip { test: CharTest },
    /// The character passes `start`: `steps` run on a copy of the cursor,
    /// with `flags` flags and `texts` texts.
    Body { start: CharTest, flags: usize, texts: usize, steps: Vec<Step> },
}

/// A scanner: its rules in the order in which they are tried, and the
/// diagnostic for a character that no rule matches.
#[derive(Debug)]
pub struct Lexer {
    pub rules: Vec<Rule>,
    pub unmatched: ErrorDef,
}

/// The state of a running rule body, as a mathematical value.
pub struct Frame {
    pub lext: Lext,
    pub flags: Seq<bool>,
    pub texts: Seq<Seq<char>>,
}

/// How a step ended, as a mathematical value.
pub enum FlowView {
    /// The next step runs.
    Next,
    /// A `Repeat` with this label is to end.
    Break(u32),
    /// The rule yields a token.
    Done { kind: u32, text: Option<usize> },
    /// The scan ends with this diagnostic.
    Raise(ErrorView),
}

/// The point under the cursor, as a span without extent.
pub open spec fn here(lext: Lext) -> Span {
    Span { start: lext.cursor.pos_end, end: lext.cursor.pos_end }
}

impl Frame {
    /// The value of the flag `var`; `false` where there is no such flag.
    pub open spec fn flag(self, var: usize) -> bool {
        var < self.flags.len() && self.flags[var as int]
    }

    /// The text `var`; empty where there is no such text.
    pub open spec fn text(self, var: usize) -> Seq<char> {
        if var < self.texts.len() {
            self.texts[var as int]
        } else {
            Seq::empty()
        }
    }

    /// The frame in which the flag `var` has the value `value`; the frame
    /// itself where there is no such flag.
    pub open spec fn with_flag(self, var: usize, value: bool) -> Frame {
        if var < self.flags.len() {
            Frame { flags: self.flags.update(var as int, value), ..self }
        } else {
            self
        }
    }

    /// The frame in which the text `var` is `text`; the frame itself where
    /// there is no such text.
    pub open spec fn with_text(self, var: usize, text: Seq<char>) -> Frame {
        if var < self.texts.len() {
            Frame { texts: self.texts.update(var as int, text), ..self }
        } else {
            self
        }
    }

    /// The frame after its cursor consumed one character.
    pub open spec fn advanced(self) -> Frame {
        Frame { lext: self.lext.advanced(), ..self }
    }

    /// The number of characters that are left to consume.
    pub open spec fn remaining(self) -> nat {
        self.lext.cursor.remaining()
    }
}

/// The diagnostic that a `Throw` of `error` gives in the frame `f` with the
/// bound character `cur`: its argument is the bound character, its spans are
/// the point under the cursor and the token so far.
pub open spec fn thrown(error: ErrorDef, f: Frame, cur: char) -> ErrorView {
    error.spec_instantiate(seq![seq![cur]], seq![here(f.lext), f.lext.cursor.span()], true)
}

/// What one step does to a frame, and how it ends.
pub open spec fn run_step(step: Step, f: Frame, cur: char) -> (Frame, FlowView)
    decreases step, 1nat, 0nat,
{
    match step {
        Step::Advance => (f.advanced(), FlowView::Next),
        Step::SetFlag { var, value } => (f.with_flag(var, value), FlowView::Next),
        Step::Clear { var } => (f.with_text(var, Seq::empty()), FlowView::Next),
        Step::Push { var } => (f.with_text(var, f.text(var).push(cur)), FlowView::Next),
        Step::Check { test, body } => if test.accepts(cur) {
            run_steps(body@, 0, f, cur)
        } else {
            (f, FlowView::Next)
        },
        Step::IfFlag { var, expect, body } => if f.flag(var) == expect {
            run_steps(body@, 0, f, cur)
        } else {
            (f, FlowView::Next)
        },
        Step::Repeat { label, body } => run_repeat(step, f),
        Step::Peek { body } => match f.lext.current {
            Some(c) => {
                let (f1, flow) = run_steps(body@, 0, f, c);
                if flow is Next {
                    (f1.advanced(), FlowView::Next)
                } else {
                    (f1, flow)
                }
            },
            None => (f, FlowView::Next),
        },
        Step::Break { label } => (f, FlowView::Break(label)),
        Step::Done { kind, text } => (f, FlowView::Done { kind, text }),
        Step::Throw { error } => (f, FlowView::Raise(thrown(error, f, cur))),
    }
}

/// What the steps from index `from` on do to a frame, one after the other,
/// until one of them does not end in `Next`.
pub open spec fn run_steps(steps: Seq<Step>, from: int, f: Frame, cur: char) -> (Frame, FlowView)
    decreases steps, steps.len() - from, 0nat,
{
    if 0 <= from < steps.len() {
        let (f1, flow) = run_step(steps[from], f, cur);
        if flow is Next {
            run_steps(steps, from + 1, f1, cur)
        } else {
            (f1, flow)
        }
    } else {
        (f, FlowView::Next)
    }
}

/// What a `Repeat` does to a frame: round after round while a character is
/// under the cursor and no round ends the loop.
///
/// Each round consumes at least one character; the comparison of what
/// remains, which is what makes this definition well founded, never fails.
pub open spec fn run_repeat(step: Step, f: Frame) -> (Frame, FlowView)
    decreases step, 0nat, f.remaining(),
{
    match step {
        Step::Repeat { label, body } => match f.lext.current {
            Some(c) => {
                let (f1, flow) = run_steps(body@, 0, f, c);
                match flow {
                    FlowView::Next => {
                        let f2 = f1.advanced();
                        if f2.remaining() < f.remaining() {
                            run_repeat(step, f2)
                        } else {
                            (f2, FlowView::Next)
                        }
                    },
                    FlowView::Break(l) => if l == label {
                        (f1, FlowView::Next)
                    } else {
                        (f1, flow)
                    },
                    _ => (f1, flow),
                }
            },
            None => (f, FlowView::Next),
        },
        _ => (f, FlowView::Next),
    }
}

/// A step leaves the cursor well formed, over the same text and on the same
/// token, and never moves it back.
pub proof fn lemma_step_follows(step: Step, f: Frame, cur: char)
    requires
        f.lext.well_formed(),
    ensures
        run_step(step, f, cur).0.lext.well_formed(),
        follows(f.lext, run_step(step, f, cur).0.lext),
    decreases step, 1nat, 0nat,
{
    match step {
        Step::Check { test, body } => {
            if test.accepts(cur) {
                lemma_steps_follow(body@, 0, f, cur);
            }
        },
        Step::IfFlag { var, expect, body } => {
            if f.flag(var) == expect {
                lemma_steps_follow(body@, 0, f, cur);
            }
        },
        Step::Repeat { label, body } => {
            lemma_repeat_follows(step, f);
        },
        Step::Peek { body } => {
            match f.lext.current {
                Some(c) => {
                    lemma_steps_follow(body@, 0, f, c);
                },
                None => {},
            }
        },
        _ => {},
    }
}

/// Steps in a row leave the cursor well formed, over the same text and on
/// the same token, and never move it back.
pub proof fn lemma_steps_follow(steps: Seq<Step>, from: int, f: Frame, cur: char)
    requires
        f.lext.well_formed(),
    ensures
        run_steps(steps, from, f, cur).0.lext.well_formed(),
        follows(f.lext, run_steps(steps, from, f, cur).0.lext),
    decreases steps, steps.len() - from, 0nat,
{
    if 0 <= from < steps.len() {
        lemma_step_follows(steps[from], f, cur);
        let (f1, flow) = run_step(steps[from], f, cur);
        if flow is Next {
            lemma_steps_follow(steps, from + 1, f1, cur);
        }
    }
}

/// A `Repeat` leaves the cursor well formed, over the same text and on the
/// same token, and never moves it back. Each of its rounds consumes at least
/// one character, so the comparison in `run_repeat` holds in every round.
pub proof fn lemma_repeat_follows(step: Step, f: Frame)
    requires
        f.lext.well_formed(),
    ensures
        run_repeat(step, f).0.lext.well_formed(),
        follows(f.lext, run_repeat(step, f).0.lext),
        match step {
            Step::Repeat { label, body } => match f.lext.current {
                Some(c) => run_steps(body@, 0, f, c).1 is Next ==> run_steps(
                    body@,
                    0,
                    f,
                    c,
                ).0.advanced().remaining() < f.remaining(),
                None => true,
            },
            _ => true,
        },
    decreases step, 0nat, f.remaining(),
{
    match step {
        Step::Repeat { label, body } => {
            match f.lext.current {
                Some(c) => {
                    lemma_steps_follow(body@, 0, f, c);
                    let (f1, flow) = run_steps(body@, 0, f, c);
                    if flow is Next {
                        let f2 = f1.advanced();
                        assert(f2.remaining() < f.remaining());
                        lemma_repeat_follows(step, f2);
                    }
                },
                None => {},
            }
        },
        _ => {},
    }
}

/// The flags and texts of a running rule body.
#[derive(Debug)]
pub struct Scratch {
    pub flags: Vec<bool>,
    pub texts: Vec<String>,
}

/// How a step ended.
#[derive(Debug)]
pub enum Flow {
    /// The next step runs.
    Next,
    /// A `Repeat` with this label is to end.
    Break(u32),
    /// The rule yields a token.
    Done { kind: u32, text: Option<usize> },
    /// The scan ends with this diagnostic.
    Raise(CompileError),
}

impl View for Flow {
    type V = FlowView;

    open spec fn view(&self) -> FlowView {
        match self {
            Flow::Next => FlowView::Next,
            Flow::Break(l) => FlowView::Break(*l),
            Flow::Done { kind, text } => FlowView::Done { kind: *kind, text: *text },
            Flow::Raise(e) => FlowView::Raise(e@),
        }
    }
}

/// The frame that a cursor and a scratch make.
pub open spec fn frame_of(lext: Lext, scratch: Scratch) -> Frame {
    Frame { lext, flags: scratch.flags@, texts: texts(scratch.texts@) }
}

/// `b` walks the same text as `a`, builds the same token, and is not behind
/// `a`.
pub open spec fn follows(a: Lext, b: Lext) -> bool {
    &&& b.cursor.source == a.cursor.source
    &&& b.cursor.pos_end.file == a.cursor.pos_end.file
    &&& b.cursor.pos_start.offset == a.cursor.pos_start.offset
    &&& a.cursor.pos_end.offset <= b.cursor.pos_end.offset
}

impl Scratch {
    /// A scratch of `flags` flags, all `false`, and `texts` texts, all empty.
    pub fn new(flags: usize, texts: usize) -> (s: Scratch)
        ensures
            s.flags@ == Seq::new(flags as nat, |i: int| false),
            crate::diagnostic::texts(s.texts@) == Seq::new(
                texts as nat,
                |i: int| Seq::<char>::empty(),
            ),
    {
        let mut f: Vec<bool> = Vec::new();
        while f.len() < flags
            invariant
                f@.len() <= flags,
                f@ == Seq::new(f@.len(), |i: int| false),
            decreases flags - f@.len(),
        {
            f.push(false);
        }
        let mut t: Vec<String> = Vec::new();
        while t.len() < texts
            invariant
                t@.len() <= texts,
                forall|i: int| 0 <= i < t@.len() ==> (#[trigger] t@[i])@ == Seq::<char>::empty(),
            decreases texts - t@.len(),
        {
            t.push(String::new());
        }
        assert(crate::diagnostic::texts(t@) =~= Seq::new(
            texts as nat,
            |i: int| Seq::<char>::empty(),
        ));
        Scratch { flags: f, texts: t }
    }
}

/// Performs one step of a rule body on the cursor `child` and the scratch
/// `scratch`, with the bound character `cur`.
pub fn perform_step(step: &Step, child: &mut Lext, scratch: &mut Scratch, cur: char) -> (flow:
    Flow)
    requires
        old(child).well_formed(),
    ensures
        final(child).well_formed(),
        follows(*old(child), *final(child)),
        flow matches Flow::Raise(e) ==> e.fatal,
        (frame_of(*final(child), *final(scratch)), flow@) == run_step(
            *step,
            frame_of(*old(child), *old(scratch)),
            cur,
        ),
    decreases *step, 1nat, 0nat,
{
    match step {
        Step::Advance => {
            child.advance();
            Flow::Next
        },
        Step::SetFlag { var, value } => {
            if *var < scratch.flags.len() {
                scratch.flags.set(*var, *value);
            }
            Flow::Next
        },
        Step::Clear { var } => {
            if *var < scratch.texts.len() {
                scratch.texts.set(*var, String::new());
                assert(texts(scratch.texts@) == texts(old(scratch).texts@).update(
                    *var as int,
                    Seq::<char>::empty(),
                ));
            }
            Flow::Next
        },
        Step::Push { var } => {
            if *var < scratch.texts.len() {
                push_char(&mut scratch.texts[*var], cur);
                assert(texts(scratch.texts@) == texts(old(scratch).texts@).update(
                    *var as int,
                    texts(old(scratch).texts@)[*var as int].push(cur),
                ));
            }
            Flow::Next
        },
        Step::Check { test, body } => {
            if test.test(cur) {
                perform_steps(body, child, scratch, cur)
            } else {
                Flow::Next
            }
        },
        Step::IfFlag { var, expect, body } => {
            let value = *var < scratch.flags.len() && scratch.flags[*var];
            if value == *expect {
                perform_steps(body, child, scratch, cur)
            } else {
                Flow::Next
            }
        },
        Step::Repeat { label, body } => {
            let ghost f0 = frame_of(*child, *scratch);
            let mut result = Flow::Next;
            loop
                invariant_except_break
                    child.well_formed(),
                    follows(*old(child), *child),
                    *step == (Step::Repeat { label: *label, body: *body }),
                    run_repeat(*step, frame_of(*child, *scratch)) == run_repeat(*step, f0),
                ensures
                    child.well_formed(),
                    follows(*old(child), *child),
                    result matches Flow::Raise(e) ==> e.fatal,
                    (frame_of(*child, *scratch), result@) == run_repeat(*step, f0),
                decreases child.cursor.remaining(),
            {
                match child.current {
                    None => {
                        result = Flow::Next;
                        break ;
                    },
                    Some(c) => {
                        let flow = perform_steps(body, child, scratch, c);
                        match flow {
                            Flow::Next => {
                                child.advance();
                            },
                            Flow::Break(l) => {
                                if l == *label {
                                    result = Flow::Next;
                                } else {
                                    result = Flow::Break(l);
                                }
                                break ;
                            },
                            other => {
                                result = other;
                                break ;
                            },
                        }
                    },
                }
            }
            result
        },
        Step::Peek { body } => {
            match child.current {
                Some(c) => {
                    let flow = perform_steps(body, child, scratch, c);
                    match flow {
                        Flow::Next => {
                            child.advance();
                            Flow::Next
                        },
                        other => other,
                    }
                },
                None => Flow::Next,
            }
        },
        Step::Break { label } => Flow::Break(*label),
        Step::Done { kind, text } => Flow::Done { kind: *kind, text: *text },
        Step::Throw { error } => {
            let mut arg = String::new();
            push_char(&mut arg, cur);
            let mut args: Vec<String> = Vec::new();
            args.push(arg);
            let mut spans: Vec<Span> = Vec::new();
            let end = child.cursor.pos_end.duplicate();
            spans.push(Span { start: end.duplicate(), end });
            spans.push(child.cursor.position());
            assert(texts(args@) == seq![seq![cur]]);
            assert(spans@ == seq![here(*child), child.cursor.span()]);
            Flow::Raise(error.instantiate(&args, spans, true))
        },
    }
}

/// Performs the steps of a rule body one after the other, until one of them
/// does not end in `Next`.
pub fn perform_steps(steps: &Vec<Step>, child: &mut Lext, scratch: &mut Scratch, cur: char) -> (flow:
    Flow)
    requires
        old(child).well_formed(),
    ensures
        final(child).well_formed(),
        follows(*old(child), *final(child)),
        flow matches Flow::Raise(e) ==> e.fatal,
        (frame_of(*final(child), *final(scratch)), flow@) == run_steps(
            steps@,
            0,
            frame_of(*old(child), *old(scratch)),
            cur,
        ),
    decreases steps@, steps@.len(), 0nat,
{
    let mut i: usize = 0;
    while i < steps.len()
        invariant
            i <= steps@.len(),
            child.well_formed(),
            follows(*old(child), *child),
            run_steps(steps@, i as int, frame_of(*child, *scratch), cur) == run_steps(
                steps@,
                0,
                frame_of(*old(child), *old(scratch)),
                cur,
            ),
        decreases steps@.len() - i,
    {
        let flow = perform_step(&steps[i], child, scratch, cur);
        match flow {
            Flow::Next => {},
            other => {
                return other;
            },
        }
        i = i + 1;
    }
    Flow::Next
}

/// What became of one rule at one place, as a mathematical value.
pub enum AttemptView {
    /// The rule does not match; nothing was consumed.
    NoMatch,
    /// The rule matched and emits nothing; the scan goes on with this cursor.
    Restart(Lext),
    /// The rule matched; the scan goes on with this cursor, and the token of
    /// this type spans what the cursor has gathered.
    Emit(Lext, TypeView),
    /// The scan ends with this diagnostic.
    Raise(ErrorView),
}

/// What became of one rule at one place.
#[derive(Debug)]
pub enum Attempt {
    NoMatch,
    Restart(Lext),
    Emit(Lext, TokenType),
    Raise(CompileError),
}

impl View for Attempt {
    type V = AttemptView;

    open spec fn view(&self) -> AttemptView {
        match self {
            Attempt::NoMatch => AttemptView::NoMatch,
            Attempt::Restart(l) => AttemptView::Restart(*l),
            Attempt::Emit(l, t) => AttemptView::Emit(*l, t@),
            Attempt::Raise(e) => AttemptView::Raise(e@),
        }
    }
}

/// The context over the same text that builds the same token and whose
/// cursor stands at the offset `end`.
pub open spec fn moved_to(lext: Lext, end: int) -> Lext {
    Lext {
        cursor: lext.cursor.placed(lext.cursor.pos_start.offset as int, end),
        current: lext.cursor.placed(lext.cursor.pos_start.offset as int, end).current_char,
    }
}

/// The characters of `text` from the offset `at` on pass `tests` one by one.
pub open spec fn run_matches(tests: Seq<CharTest>, text: Seq<char>, at: int) -> bool {
    &&& tests.len() > 0
    &&& at + tests.len() <= text.len()
    &&& forall|i: int| 0 <= i < tests.len() ==> (#[trigger] tests[i]).accepts(text[at + i])
}

/// The frame in which a rule body starts.
pub open spec fn fresh_frame(lext: Lext, flags: usize, texts: usize) -> Frame {
    Frame {
        lext,
        flags: Seq::new(flags as nat, |i: int| false),
        texts: Seq::new(texts as nat, |i: int| Seq::<char>::empty()),
    }
}

/// What becomes of `rule` where `lext` stands.
///
/// A body that yields a token before its copy of the cursor has consumed a
/// character does not match: every match consumes input.
pub open spec fn try_rule(rule: Rule, lext: Lext) -> AttemptView {
    match lext.current {
        None => AttemptView::NoMatch,
        Some(c) => match rule {
            Rule::Single { test, kind } => if test.accepts(c) {
                AttemptView::Emit(lext.advanced(), TypeView { kind, text: None })
            } else {
                AttemptView::NoMatch
            },
            Rule::Sequence { tests, kind } => if run_matches(
                tests@,
                lext.cursor.text(),
                lext.cursor.pos_end.offset as int,
            ) {
                AttemptView::Emit(
                    moved_to(lext, lext.cursor.pos_end.offset + tests@.len()),
                    TypeView { kind, text: None },
                )
            } else {
                AttemptView::NoMatch
            },
            Rule::Skip { test } => if test.accepts(c) {
                AttemptView::Restart(lext.advanced())
            } else {
                AttemptView::NoMatch
            },
            Rule::Body { start, flags, texts, steps } => if start.accepts(c) {
                let f0 = fresh_frame(lext, flags, texts);
                let (f1, flow) = run_steps(steps@, 0, f0, c);
                match flow {
                    FlowView::Done { kind, text } => if f1.remaining() < f0.remaining() {
                        AttemptView::Emit(
                            f1.lext,
                            TypeView {
                                kind,
                                text: match text {
                                    Some(var) => Some(f1.text(var)),
                                    None => None,
                                },
                            },
                        )
                    } else {
                        AttemptView::NoMatch
                    },
                    FlowView::Raise(e) => AttemptView::Raise(e),
                    _ => AttemptView::NoMatch,
                }
            } else {
                AttemptView::NoMatch
            },
        },
    }
}

/// What becomes of the first rule, from index `from` on, that does not end
/// in `NoMatch`; `NoMatch` if there is none.
pub open spec fn first_match(rules: Seq<Rule>, from: int, lext: Lext) -> AttemptView
    decreases rules.len() - from,
{
    if 0 <= from < rules.len() {
        match try_rule(rules[from], lext) {
            AttemptView::NoMatch => first_match(rules, from + 1, lext),
            other => other,
        }
    } else {
        AttemptView::NoMatch
    }
}

impl Rule {
    /// Tries the rule where `lext` stands. `lext` itself stays as it is: a
    /// match hands back the cursor to go on with.
    pub fn attempt(&self, lext: &Lext) -> (a: Attempt)
        requires
            lext.well_formed(),
        ensures
            a@ == try_rule(*self, *lext),
            a matches Attempt::Raise(e) ==> e.fatal,
            a matches Attempt::Restart(l) ==> l.well_formed() && follows(*lext, l)
                && l.cursor.remaining() < lext.cursor.remaining(),
            a matches Attempt::Emit(l, _) ==> l.well_formed() && follows(*lext, l)
                && l.cursor.remaining() < lext.cursor.remaining(),
    {
        let c = match lext.current {
            None => {
                return Attempt::NoMatch;
            },
            Some(c) => c,
        };
        match self {
            Rule::Single { test, kind } => {
                if test.test(c) {
                    let mut child = lext.spawn();
                    child.advance();
                    Attempt::Emit(child, TokenType { kind: *kind, text: None })
                } else {
                    Attempt::NoMatch
                }
            },
            Rule::Sequence { tests, kind } => {
                let mut child = lext.spawn();
                let mut i: usize = 0;
                while i < tests.len()
                    invariant
                        i <= tests@.len(),
                        *self == (Rule::Sequence { tests: *tests, kind: *kind }),
                        lext.current is Some,
                        lext.well_formed(),
                        child.well_formed(),
                        lext.cursor.pos_end.offset + i <= lext.cursor.text().len(),
                        child == moved_to(*lext, lext.cursor.pos_end.offset + i),
                        forall|j: int|
                            0 <= j < i ==> (#[trigger] tests@[j]).accepts(
                                lext.cursor.text()[lext.cursor.pos_end.offset + j],
                            ),
                    decreases tests@.len() - i,
                {
                    match child.current {
                        Some(ch) => {
                            if !tests[i].test(ch) {
                                assert(!tests@[i as int].accepts(
                                    lext.cursor.text()[lext.cursor.pos_end.offset + i],
                                ));
                                return Attempt::NoMatch;
                            }
                        },
                        None => {
                            return Attempt::NoMatch;
                        },
                    }
                    child.advance();
                    i = i + 1;
                }
                if tests.len() == 0 {
                    return Attempt::NoMatch;
                }
                Attempt::Emit(child, TokenType { kind: *kind, text: None })
            },
            Rule::Skip { test } => {
                if test.test(c) {
                    let mut child = lext.spawn();
                    child.advance();
                    Attempt::Restart(child)
                } else {
                    Attempt::NoMatch
                }
            },
            Rule::Body { start, flags, texts, steps } => {
                if !start.test(c) {
                    return Attempt::NoMatch;
                }
                let mut child = lext.spawn();
                let mut scratch = Scratch::new(*flags, *texts);
                let flow = perform_steps(steps, &mut child, &mut scratch, c);
                match flow {
                    Flow::Done { kind, text } => {
                        if child.cursor.pos_end.offset <= lext.cursor.pos_end.offset {
                            return Attempt::NoMatch;
                        }
                        let text = match text {
                            Some(var) => {
                                if var < scratch.texts.len() {
                                    Some(scratch.texts[var].clone())
                                } else {
                                    Some(String::new())
                                }
                            },
                            None => None,
                        };
                        Attempt::Emit(child, TokenType { kind, text })
                    },
                    Flow::Raise(e) => Attempt::Raise(e),
                    _ => Attempt::NoMatch,
                }
            },
        }
    }
}

/// The context whose next token starts where the token so far ends.
pub open spec fn restarted(lext: Lext) -> Lext {
    Lext { cursor: lext.cursor.restarted(), current: lext.current }
}

/// The diagnostic for the character `c` under the cursor of `lext`, which no
/// rule matches: its argument is the character, its span the point under the
/// cursor.
pub open spec fn unmatched_error(lexer: Lexer, lext: Lext, c: char) -> ErrorView {
    lexer.unmatched.spec_instantiate(seq![seq![c]], seq![here(lext)], true)
}

/// The tokens that a scan from `lext` on adds to `acc`, or the diagnostic
/// that ends it.
///
/// At each place the first rule that matches decides. Each match consumes at
/// least one character; the comparison of what remains, which is what makes
/// this definition well founded, never fails.
pub open spec fn scan(lexer: Lexer, lext: Lext, acc: Seq<TokenView>) -> Result<
    Seq<TokenView>,
    ErrorView,
>
    decreases lext.cursor.remaining(),
{
    match lext.current {
        None => Ok(acc),
        Some(c) => match first_match(lexer.rules@, 0, lext) {
            AttemptView::NoMatch => Err(unmatched_error(lexer, lext, c)),
            AttemptView::Raise(e) => Err(e),
            AttemptView::Restart(next) => if next.cursor.remaining() < lext.cursor.remaining() {
                scan(lexer, next, acc)
            } else {
                Ok(acc)
            },
            AttemptView::Emit(next, token_type) => if next.cursor.remaining()
                < lext.cursor.remaining() {
                scan(
                    lexer,
                    restarted(next),
                    acc.push(TokenView { token_type, span: next.cursor.span() }),
                )
            } else {
                Ok(acc)
            },
        },
    }
}

/// A rule that matches hands back a well-formed cursor over the same text
/// that has consumed at least one character and has left the start of the
/// token where it was.
pub proof fn lemma_match_consumes(rule: Rule, lext: Lext)
    requires
        lext.well_formed(),
    ensures
        match try_rule(rule, lext) {
            AttemptView::Restart(next) => next.well_formed() && follows(lext, next)
                && next.cursor.remaining() < lext.cursor.remaining(),
            AttemptView::Emit(next, _) => next.well_formed() && follows(lext, next)
                && next.cursor.remaining() < lext.cursor.remaining(),
            _ => true,
        },
{
    match lext.current {
        None => {},
        Some(c) => match rule {
            Rule::Sequence { tests, kind } => {
                if run_matches(tests@, lext.cursor.text(), lext.cursor.pos_end.offset as int) {
                    crate::cursor::lemma_placed(
                        lext.cursor,
                        lext.cursor.pos_start.offset as int,
                        lext.cursor.pos_end.offset + tests@.len(),
                    );
                }
            },
            Rule::Body { start, flags, texts, steps } => {
                if start.accepts(c) {
                    lemma_steps_follow(steps@, 0, fresh_frame(lext, flags, texts), c);
                }
            },
            _ => {},
        },
    }
}

/// The first rule that matches hands back a well-formed cursor over the same
/// text that has consumed at least one character, so the comparisons in
/// `scan` hold at every place.
pub proof fn lemma_first_match_consumes(rules: Seq<Rule>, from: int, lext: Lext)
    requires
        lext.well_formed(),
    ensures
        match first_match(rules, from, lext) {
            AttemptView::Restart(next) => next.well_formed() && follows(lext, next)
                && next.cursor.remaining() < lext.cursor.remaining(),
            AttemptView::Emit(next, _) => next.well_formed() && follows(lext, next)
                && next.cursor.remaining() < lext.cursor.remaining(),
            _ => true,
        },
    decreases rules.len() - from,
{
    if 0 <= from < rules.len() {
        lemma_match_consumes(rules[from], lext);
        if try_rule(rules[from], lext) is NoMatch {
            lemma_first_match_consumes(rules, from + 1, lext);
        }
    }
}

/// Each token starts where the token before it ends, and the first one at
/// `origin`.
pub open spec fn contiguous(tokens: Seq<TokenView>, origin: Position) -> bool {
    forall|i: int|
        0 <= i < tokens.len() ==> (#[trigger] tokens[i]).span.start == if i == 0 {
            origin
        } else {
            tokens[i - 1].span.end
        }
}

/// Span contiguity: the tokens of a scan lie end to end. If the tokens so
/// far do, and the cursor's token starts where the last of them ends, then so
/// do all the tokens that the scan gives.
pub proof fn lemma_scan_contiguous(
    lexer: Lexer,
    lext: Lext,
    acc: Seq<TokenView>,
    origin: Position,
)
    requires
        lext.well_formed(),
        contiguous(acc, origin),
        lext.cursor.pos_start == if acc.len() == 0 {
            origin
        } else {
            acc[acc.len() - 1].span.end
        },
    ensures
        scan(lexer, lext, acc) matches Ok(tokens) ==> contiguous(tokens, origin),
    decreases lext.cursor.remaining(),
{
    match lext.current {
        None => {},
        Some(c) => {
            lemma_first_match_consumes(lexer.rules@, 0, lext);
            match first_match(lexer.rules@, 0, lext) {
                AttemptView::Restart(next) => {
                    lemma_scan_contiguous(lexer, next, acc, origin);
                },
                AttemptView::Emit(next, token_type) => {
                    let more = acc.push(TokenView { token_type, span: next.cursor.span() });
                    assert(contiguous(more, origin)) by {
                        assert forall|i: int| 0 <= i < more.len() implies (#[trigger] more[i]).span.start
                            == if i == 0 {
                            origin
                        } else {
                            more[i - 1].span.end
                        } by {
                            if i < acc.len() {
                                assert(more[i] == acc[i]);
                            }
                        }
                    }
                    lemma_scan_contiguous(lexer, restarted(next), more, origin);
                },
                _ => {},
            }
        },
    }
}

impl Lexer {
    /// Tries the rules in their order where `lext` stands, up to the first
    /// that does not end in `NoMatch`.
    pub fn first(&self, lext: &Lext) -> (a: Attempt)
        requires
            lext.well_formed(),
        ensures
            a@ == first_match(self.rules@, 0, *lext),
            a matches Attempt::Raise(e) ==> e.fatal,
            a matches Attempt::Restart(l) ==> l.well_formed() && follows(*lext, l)
                && l.cursor.remaining() < lext.cursor.remaining(),
            a matches Attempt::Emit(l, _) ==> l.well_formed() && follows(*lext, l)
                && l.cursor.remaining() < lext.cursor.remaining(),
    {
        let mut i: usize = 0;
        while i < self.rules.len()
            invariant
                i <= self.rules@.len(),
                lext.well_formed(),
                first_match(self.rules@, i as int, *lext) == first_match(self.rules@, 0, *lext),
            decreases self.rules@.len() - i,
        {
            let a = self.rules[i].attempt(lext);
            match a {
                Attempt::NoMatch => {},
                other => {
                    return other;
                },
            }
            i = i + 1;
        }
        Attempt::NoMatch
    }

    /// Scans `contents`, the text of the file called `file_name`, into
    /// tokens: the scan of a context that stands at the start of that text.
    pub fn scan_text(&self, file_name: String, contents: &str) -> (r: Result<
        Vec<Token<TokenType>>,
        CompileError,
    >)
        ensures
            exists|lext: Lext| #[trigger]
                lext.starts(file_name@, contents@) && match r {
                    Ok(tokens) => scan(*self, lext, Seq::empty()) == Ok::<
                        Seq<TokenView>,
                        ErrorView,
                    >(token_views(tokens@)) && contiguous(
                        token_views(tokens@),
                        lext.cursor.pos_start,
                    ) && in_order(token_spans(tokens@)),
                    Err(e) => scan(*self, lext, Seq::empty()) == Err::<Seq<TokenView>, ErrorView>(
                        e@,
                    ) && e.fatal,
                },
    {
        let lext = Lext::new(file_name, contents);
        let ghost start = lext;
        let r = self.tokenise(lext);
        assert(start.starts(file_name@, contents@));
        r
    }

    /// Scans the text under `lext` into tokens.
    ///
    /// The result is the whole sequence of tokens, or the diagnostic of the
    /// first place at which no rule matched or a rule raised one. The tokens
    /// lie end to end: the first starts where `lext` starts, each other one
    /// where the one before it ends.
    pub fn tokenise(&self, lext: Lext) -> (r: Result<Vec<Token<TokenType>>, CompileError>)
        requires
            lext.well_formed(),
        ensures
            match r {
                Ok(tokens) => scan(*self, lext, Seq::empty()) == Ok::<Seq<TokenView>, ErrorView>(
                    token_views(tokens@),
                ) && contiguous(token_views(tokens@), lext.cursor.pos_start) && in_order(
                    token_spans(tokens@),
                ),
                Err(e) => scan(*self, lext, Seq::empty()) == Err::<Seq<TokenView>, ErrorView>(e@)
                    && e.fatal,
            },
    {
        let mut live = lext;
        let mut tokens: Vec<Token<TokenType>> = Vec::new();
        assert(token_views(tokens@) =~= Seq::empty());
        loop
            invariant
                live.well_formed(),
                scan(*self, live, token_views(tokens@)) == scan(*self, lext, Seq::empty()),
                contiguous(token_views(tokens@), lext.cursor.pos_start),
                forall|i: int|
                    0 <= i < tokens@.len() ==> (#[trigger] tokens@[i]).span.start.offset
                        <= tokens@[i].span.end.offset,
                live.cursor.pos_start == if tokens@.len() == 0 {
                    lext.cursor.pos_start
                } else {
                    tokens@[tokens@.len() - 1].span.end
                },
            decreases live.cursor.remaining(),
        {
            let c = match live.current {
                None => {
                    proof {
                        let spans = token_spans(tokens@);
                        assert forall|i: int| 0 < i < spans.len() implies (#[trigger] spans[i]).start
                            == spans[i - 1].end by {
                            assert(token_views(tokens@)[i].span == spans[i]);
                            assert(token_views(tokens@)[i - 1].span == spans[i - 1]);
                        }
                        lemma_end_to_end_in_order(spans);
                    }
                    return Ok(tokens);
                },
                Some(c) => c,
            };
            match self.first(&live) {
                Attempt::NoMatch => {
                    let mut arg = String::new();
                    push_char(&mut arg, c);
                    let mut args: Vec<String> = Vec::new();
                    args.push(arg);
                    let mut spans: Vec<Span> = Vec::new();
                    let end = live.cursor.pos_end.duplicate();
                    spans.push(Span { start: end.duplicate(), end });
                    assert(texts(args@) == seq![seq![c]]);
                    assert(spans@ == seq![here(live)]);
                    return Err(self.unmatched.instantiate(&args, spans, true));
                },
                Attempt::Raise(e) => {
                    return Err(e);
                },
                Attempt::Restart(next) => {
                    live = next;
                },
                Attempt::Emit(next, token_type) => {
                    let ghost before = token_views(tokens@);
                    let span = next.cursor.position();
                    tokens.push(Token { token_type, span });
                    assert(token_views(tokens@) =~= before.push(
                        TokenView { token_type: token_type@, span: next.cursor.span() },
                    ));
                    live = next;
                    live.cursor.restart();
                },
            }
        }
    }
}

} // verus!
