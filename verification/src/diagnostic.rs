//! Diagnostics: what both engines report when the input cannot be matched.

use crate::cursor::{Position, Span};
use vstd::prelude::*;
use vstd::string::StringExecFns;

verus! {

/// `String::push`: appends one character to the end of the string. The
/// contract claims exactly that of the string's characters.
#[verifier::external_body]
pub(crate) fn push_char(text: &mut String, c: char)
    ensures
        final(text)@ == old(text)@.push(c),
{
    text.push(c)
}

/// One piece of a message template.
#[derive(Debug)]
pub enum Fragment {
    /// Fixed text.
    Text(String),
    /// The argument with this index; nothing where there is no such argument.
    Arg(usize),
    /// Where the span with this index starts, as file, line and column;
    /// nothing where there is no such span.
    Place(usize),
}

/// The definition of a diagnostic: its stable code, its title, and the
/// template of its message.
#[derive(Debug)]
pub struct ErrorDef {
    pub code: String,
    pub title: String,
    pub template: Vec<Fragment>,
}

/// A diagnostic.
///
/// A fatal one ends the whole scan or parse. One that is not fatal is an
/// ordinary failure of one alternative, to be weighed against the others.
#[derive(Debug)]
pub struct CompileError {
    pub code: String,
    pub title: String,
    pub message: String,
    pub spans: Vec<Span>,
    pub fatal: bool,
}

/// A diagnostic as a mathematical value.
pub struct ErrorView {
    pub code: Seq<char>,
    pub title: Seq<char>,
    pub message: Seq<char>,
    pub spans: Seq<Span>,
    pub fatal: bool,
}

impl View for CompileError {
    type V = ErrorView;

    open spec fn view(&self) -> ErrorView {
        ErrorView {
            code: self.code@,
            title: self.title@,
            message: self.message@,
            spans: self.spans@,
            fatal: self.fatal,
        }
    }
}

/// The characters of each string of a sequence.
pub open spec fn texts(strings: Seq<String>) -> Seq<Seq<char>> {
    strings.map_values(|s: String| s@)
}

/// The character that stands for the digit `d`.
pub open spec fn digit(d: nat) -> char {
    if d == 0 {
        '0'
    } else if d == 1 {
        '1'
    } else if d == 2 {
        '2'
    } else if d == 3 {
        '3'
    } else if d == 4 {
        '4'
    } else if d == 5 {
        '5'
    } else if d == 6 {
        '6'
    } else if d == 7 {
        '7'
    } else if d == 8 {
        '8'
    } else {
        '9'
    }
}

/// The decimal numeral of `n`, without leading zeros.
pub open spec fn decimal(n: nat) -> Seq<char>
    decreases n,
{
    if n < 10 {
        seq![digit(n)]
    } else {
        decimal(n / 10).push(digit(n % 10))
    }
}

/// How a point is written in a message: the file, then the line and the
/// column, both counted from one, with colons between them.
pub open spec fn place_text(p: Position) -> Seq<char> {
    p.file@ + seq![':'] + decimal((p.line + 1) as nat) + seq![':'] + decimal(
        (p.column + 1) as nat,
    )
}

/// The text that one fragment contributes to a message.
pub open spec fn fragment_text(f: Fragment, args: Seq<Seq<char>>, spans: Seq<Span>) -> Seq<char> {
    match f {
        Fragment::Text(t) => t@,
        Fragment::Arg(i) => if i < args.len() {
            args[i as int]
        } else {
            Seq::empty()
        },
        Fragment::Place(i) => if i < spans.len() {
            place_text(spans[i as int].start)
        } else {
            Seq::empty()
        },
    }
}

/// The message that the first `n` fragments of a template make.
pub open spec fn message_text(
    template: Seq<Fragment>,
    n: int,
    args: Seq<Seq<char>>,
    spans: Seq<Span>,
) -> Seq<char>
    decreases n,
{
    if n <= 0 {
        Seq::empty()
    } else {
        message_text(template, n - 1, args, spans) + fragment_text(template[n - 1], args, spans)
    }
}

fn digit_char(d: u8) -> (c: char)
    requires
        d < 10,
    ensures
        c == digit(d as nat),
{
    if d == 0 {
        '0'
    } else if d == 1 {
        '1'
    } else if d == 2 {
        '2'
    } else if d == 3 {
        '3'
    } else if d == 4 {
        '4'
    } else if d == 5 {
        '5'
    } else if d == 6 {
        '6'
    } else if d == 7 {
        '7'
    } else if d == 8 {
        '8'
    } else {
        '9'
    }
}

/// Appends the decimal numeral of `n` to `text`.
pub fn push_decimal(text: &mut String, n: u128)
    ensures
        final(text)@ == old(text)@ + decimal(n as nat),
    decreases n,
{
    if n >= 10 {
        push_decimal(text, n / 10);
    }
    let d: u8 = (n % 10) as u8;
    push_char(text, digit_char(d));
}

/// Appends to `text` how `p` is written in a message.
pub fn push_place(text: &mut String, p: &Position)
    ensures
        final(text)@ == old(text)@ + place_text(*p),
{
    text.append(p.file.as_str());
    push_char(text, ':');
    push_decimal(text, p.line as u128 + 1);
    push_char(text, ':');
    push_decimal(text, p.column as u128 + 1);
}

impl CompileError {
    /// A second diagnostic with the same value.
    pub fn duplicate(&self) -> (e: CompileError)
        ensures
            e@ == self@,
    {
        let mut spans: Vec<Span> = Vec::new();
        let mut i: usize = 0;
        while i < self.spans.len()
            invariant
                i <= self.spans@.len(),
                spans@ == self.spans@.take(i as int),
            decreases self.spans@.len() - i,
        {
            spans.push(self.spans[i].duplicate());
            i = i + 1;
        }
        assert(spans@ =~= self.spans@);
        CompileError {
            code: self.code.clone(),
            title: self.title.clone(),
            message: self.message.clone(),
            spans,
            fatal: self.fatal,
        }
    }
}

impl ErrorDef {
    /// The diagnostic that this definition gives for the arguments `args` and
    /// the spans `spans`.
    pub open spec fn spec_instantiate(
        &self,
        args: Seq<Seq<char>>,
        spans: Seq<Span>,
        fatal: bool,
    ) -> ErrorView {
        ErrorView {
            code: self.code@,
            title: self.title@,
            message: message_text(self.template@, self.template@.len() as int, args, spans),
            spans,
            fatal,
        }
    }

    /// Builds the diagnostic: the message is the template with each slot
    /// replaced by the argument or the place that it names.
    pub fn instantiate(&self, args: &Vec<String>, spans: Vec<Span>, fatal: bool) -> (e:
        CompileError)
        ensures
            e@ == self.spec_instantiate(texts(args@), spans@, fatal),
    {
        let mut message = String::new();
        let mut i: usize = 0;
        while i < self.template.len()
            invariant
                i <= self.template@.len(),
                message@ == message_text(self.template@, i as int, texts(args@), spans@),
            decreases self.template@.len() - i,
        {
            match &self.template[i] {
                Fragment::Text(t) => {
                    message.append(t.as_str());
                },
                Fragment::Arg(k) => {
                    if *k < args.len() {
                        message.append(args[*k].as_str());
                    }
                },
                Fragment::Place(k) => {
                    if *k < spans.len() {
                        push_place(&mut message, &spans[*k].start);
                    }
                },
            }
            i = i + 1;
        }
        CompileError { code: self.code.clone(), title: self.title.clone(), message, spans, fatal }
    }
}

} // verus!
