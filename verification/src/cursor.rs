//! Source locations, spans, and the character cursor.

use std::rc::Rc;
use vstd::prelude::*;

verus! {

/// `Rc::clone`: a second handle to the allocation that `handle` points to.
/// The contract claims that the value behind the new handle is the value
/// behind the old one; the reference count is not modelled.
#[verifier::external_body]
fn share<T>(handle: &Rc<T>) -> (other: Rc<T>)
    ensures
        other == *handle,
{
    Rc::clone(handle)
}

/// One point in a source file.
///
/// `line` and `column` count from zero; `offset` counts the characters that
/// precede the point.
#[derive(Debug, Clone)]
pub struct Position {
    pub file: Rc<String>,
    pub line: usize,
    pub column: usize,
    pub offset: usize,
}

/// The range between two points of a source file, `start` included and `end`
/// excluded.
#[derive(Debug, Clone)]
pub struct Span {
    pub start: Position,
    pub end: Position,
}

impl Position {
    /// The point of `file` with this line, column and offset.
    pub fn new(file: Rc<String>, line: usize, column: usize, offset: usize) -> (p: Position)
        ensures
            p == (Position { file, line, column, offset }),
    {
        Position { file, line, column, offset }
    }

    /// A second record of the same point.
    pub fn duplicate(&self) -> (p: Position)
        ensures
            p == *self,
    {
        Position {
            file: share(&self.file),
            line: self.line,
            column: self.column,
            offset: self.offset,
        }
    }

    /// The point behind `unit`, which stands at this point: on the next line
    /// after a line break, else in the next column.
    pub open spec fn spec_after(self, unit: char) -> Position {
        if unit == '\n' {
            Position {
                line: (self.line + 1) as usize,
                column: 0,
                offset: (self.offset + 1) as usize,
                ..self
            }
        } else {
            Position {
                column: (self.column + 1) as usize,
                offset: (self.offset + 1) as usize,
                ..self
            }
        }
    }

    /// The point behind `unit`, which stands at this point.
    pub fn after(&self, unit: char) -> (p: Position)
        requires
            self.line < usize::MAX,
            self.column < usize::MAX,
            self.offset < usize::MAX,
        ensures
            p == self.spec_after(unit),
    {
        if unit == '\n' {
            Position {
                file: share(&self.file),
                line: self.line + 1,
                column: 0,
                offset: self.offset + 1,
            }
        } else {
            Position {
                file: share(&self.file),
                line: self.line,
                column: self.column + 1,
                offset: self.offset + 1,
            }
        }
    }

    /// The earlier of two points; `self` when both have the same offset.
    pub open spec fn spec_min(self, other: Position) -> Position {
        if other.offset < self.offset {
            other
        } else {
            self
        }
    }

    /// The later of two points; `self` when both have the same offset.
    pub open spec fn spec_max(self, other: Position) -> Position {
        if other.offset > self.offset {
            other
        } else {
            self
        }
    }

    /// The smallest span that holds both points.
    pub open spec fn spec_combine(self, other: Position) -> Span {
        Span { start: self.spec_min(other), end: self.spec_max(other) }
    }

    /// The smallest span that holds both points.
    pub fn combine(&self, other: &Position) -> (s: Span)
        ensures
            s == self.spec_combine(*other),
    {
        if other.offset < self.offset {
            Span { start: other.duplicate(), end: self.duplicate() }
        } else if other.offset > self.offset {
            Span { start: self.duplicate(), end: other.duplicate() }
        } else {
            Span { start: self.duplicate(), end: self.duplicate() }
        }
    }
}

impl Span {
    /// A second record of the same span.
    pub fn duplicate(&self) -> (s: Span)
        ensures
            s == *self,
    {
        Span { start: self.start.duplicate(), end: self.end.duplicate() }
    }

    /// The smallest span that holds both spans.
    pub open spec fn spec_combine(self, other: Span) -> Span {
        Span { start: self.start.spec_min(other.start), end: self.end.spec_max(other.end) }
    }

    /// The smallest span that holds both spans.
    pub fn combine(&self, other: &Span) -> (s: Span)
        ensures
            s == self.spec_combine(*other),
    {
        let start = if other.start.offset < self.start.offset {
            other.start.duplicate()
        } else {
            self.start.duplicate()
        };
        let end = if other.end.offset > self.end.offset {
            other.end.duplicate()
        } else {
            self.end.duplicate()
        };
        Span { start, end }
    }
}

/// Each span starts and ends no earlier than the spans before it.
pub open spec fn in_order(spans: Seq<Span>) -> bool {
    forall|i: int, j: int|
        0 <= i <= j < spans.len() ==> (#[trigger] spans[i]).start.offset <= (
        #[trigger] spans[j]).start.offset && spans[i].end.offset <= spans[j].end.offset
}

/// Spans that lie end to end, none of which ends before it starts, are in
/// order.
pub proof fn lemma_end_to_end_in_order(spans: Seq<Span>)
    requires
        forall|i: int|
            0 <= i < spans.len() ==> (#[trigger] spans[i]).start.offset <= spans[i].end.offset,
        forall|i: int| 0 < i < spans.len() ==> (#[trigger] spans[i]).start == spans[i - 1].end,
    ensures
        in_order(spans),
{
    assert forall|i: int, j: int| 0 <= i <= j < spans.len() implies (#[trigger] spans[i]).start.offset
        <= (#[trigger] spans[j]).start.offset && spans[i].end.offset <= spans[j].end.offset by {
        lemma_end_to_end_between(spans, i, j);
    }
}

proof fn lemma_end_to_end_between(spans: Seq<Span>, i: int, j: int)
    requires
        0 <= i <= j < spans.len(),
        forall|i: int|
            0 <= i < spans.len() ==> (#[trigger] spans[i]).start.offset <= spans[i].end.offset,
        forall|i: int| 0 < i < spans.len() ==> (#[trigger] spans[i]).start == spans[i - 1].end,
    ensures
        spans[i].start.offset <= spans[j].start.offset,
        spans[i].end.offset <= spans[j].end.offset,
    decreases j - i,
{
    if i < j {
        lemma_end_to_end_between(spans, i, j - 1);
        assert(spans[j].start == spans[j - 1].end);
        assert(spans[j].start.offset <= spans[j].end.offset);
        assert(spans[j - 1].start.offset <= spans[j - 1].end.offset);
    }
}

/// The number of line breaks among the first `n` characters of `text`.
pub open spec fn line_of(text: Seq<char>, n: int) -> nat
    decreases n,
{
    if n <= 0 {
        0
    } else if text[n - 1] == '\n' {
        line_of(text, n - 1) + 1
    } else {
        line_of(text, n - 1)
    }
}

/// The number of characters between the last line break before offset `n` and
/// offset `n`.
pub open spec fn column_of(text: Seq<char>, n: int) -> nat
    decreases n,
{
    if n <= 0 {
        0
    } else if text[n - 1] == '\n' {
        0
    } else {
        column_of(text, n - 1) + 1
    }
}

/// The point of `text` at offset `n`.
pub open spec fn locate(file: Rc<String>, text: Seq<char>, n: int) -> Position {
    Position {
        file,
        line: line_of(text, n) as usize,
        column: column_of(text, n) as usize,
        offset: n as usize,
    }
}

/// The character at offset `n`, if `text` reaches that far.
pub open spec fn unit_at(text: Seq<char>, n: int) -> Option<char> {
    if 0 <= n < text.len() {
        Some(text[n])
    } else {
        None
    }
}

/// Neither the line nor the column of a point exceeds its offset.
pub proof fn lemma_locate_bounds(text: Seq<char>, n: int)
    requires
        0 <= n,
    ensures
        line_of(text, n) <= n,
        column_of(text, n) <= n,
    decreases n,
{
    if n > 0 {
        lemma_locate_bounds(text, n - 1);
    }
}

/// The point behind a character of a text is the point at the character,
/// moved past it.
pub proof fn lemma_locate_step(file: Rc<String>, text: Seq<char>, n: int)
    requires
        0 <= n < text.len() <= usize::MAX,
    ensures
        locate(file, text, n + 1) == locate(file, text, n).spec_after(text[n]),
{
    lemma_locate_bounds(text, n);
    lemma_locate_bounds(text, n + 1);
}

/// Over a stretch without a line break the column grows with the offset.
pub proof fn lemma_column_run(text: Seq<char>, from: int, to: int)
    requires
        0 <= from <= to,
        forall|i: int| from <= i < to ==> text[i] != '\n',
    ensures
        column_of(text, to) == column_of(text, from) + (to - from),
        line_of(text, to) == line_of(text, from),
    decreases to - from,
{
    if from < to {
        lemma_column_run(text, from, to - 1);
    }
}

/// A well-formed cursor stays well formed wherever inside the text its
/// markers are put, and stands where it was put.
pub proof fn lemma_placed(c: MutCursor, start: int, end: int)
    requires
        c.wf(),
        0 <= start <= end <= c.text().len(),
    ensures
        c.placed(start, end).wf(),
        c.placed(start, end).source == c.source,
        c.placed(start, end).pos_end.file == c.pos_end.file,
        c.placed(start, end).pos_start.offset == start,
        c.placed(start, end).pos_end.offset == end,
{
    lemma_locate_bounds(c.text(), start);
    lemma_locate_bounds(c.text(), end);
}

/// A cursor over the characters of one source text.
///
/// `pos_start` and `pos_end` bound the token that is being built;
/// `current_char` is the character under `pos_end`.
#[derive(Debug, Clone)]
pub struct MutCursor {
    pub source: Rc<Vec<char>>,
    pub pos_start: Position,
    pub pos_end: Position,
    pub current_char: Option<char>,
}

impl MutCursor {
    /// The source text as a sequence of characters.
    pub open spec fn text(&self) -> Seq<char> {
        self.source@
    }

    /// The number of characters that lie at or after `pos_end`.
    pub open spec fn remaining(&self) -> nat {
        (self.text().len() - self.pos_end.offset) as nat
    }

    /// The cursor over the same source whose markers stand at the offsets
    /// `start` and `end`.
    pub open spec fn placed(self, start: int, end: int) -> MutCursor {
        MutCursor {
            source: self.source,
            pos_start: locate(self.pos_end.file, self.text(), start),
            pos_end: locate(self.pos_end.file, self.text(), end),
            current_char: unit_at(self.text(), end),
        }
    }

    /// Both markers lie inside the source, `pos_start` not after `pos_end`,
    /// the source is no longer than a `Vec` can be, and lines, columns and the
    /// current character agree with the text.
    pub open spec fn wf(&self) -> bool {
        &&& self.pos_start.offset <= self.pos_end.offset <= self.text().len() <= usize::MAX
        &&& *self == self.placed(self.pos_start.offset as int, self.pos_end.offset as int)
    }

    /// The cursor after one character was consumed; the cursor itself at the
    /// end of the text.
    pub open spec fn advanced(self) -> MutCursor {
        if self.pos_end.offset < self.text().len() {
            self.placed(self.pos_start.offset as int, self.pos_end.offset + 1)
        } else {
            self
        }
    }

    /// The cursor after one step back; the cursor itself at offset zero.
    /// `pos_start` follows `pos_end` where it would otherwise lie behind it.
    pub open spec fn revanced(self) -> MutCursor {
        if self.pos_end.offset > 0 {
            if self.pos_start.offset < self.pos_end.offset {
                self.placed(self.pos_start.offset as int, self.pos_end.offset - 1)
            } else {
                self.placed(self.pos_end.offset - 1, self.pos_end.offset - 1)
            }
        } else {
            self
        }
    }

    /// The cursor whose token starts where the token so far ends.
    pub open spec fn restarted(self) -> MutCursor {
        MutCursor { pos_start: self.pos_end, ..self }
    }

    /// The span of the token that is being built.
    pub open spec fn span(&self) -> Span {
        Span { start: self.pos_start, end: self.pos_end }
    }

    /// The span of the token that is being built is the smallest span that
    /// holds both markers.
    pub proof fn lemma_span_is_combine(self)
        requires
            self.wf(),
        ensures
            self.span() == self.pos_start.spec_combine(self.pos_end),
    {
    }

    /// A cursor at the first character of `source`.
    pub fn new(file: Rc<String>, source: Rc<Vec<char>>) -> (c: MutCursor)
        ensures
            c.wf(),
            c.source == source,
            c.pos_end.file == file,
            c.pos_start.offset == 0,
            c.pos_end.offset == 0,
    {
        let current_char = if source.len() > 0 {
            Some(source[0])
        } else {
            None
        };
        let pos_start = Position { file: share(&file), line: 0, column: 0, offset: 0 };
        let pos_end = Position { file, line: 0, column: 0, offset: 0 };
        MutCursor { source, pos_start, pos_end, current_char }
    }

    /// Consumes one character. At the end of the text nothing changes.
    pub fn advance(&mut self)
        requires
            old(self).wf(),
        ensures
            final(self).wf(),
            *final(self) == old(self).advanced(),
    {
        let offset = self.pos_end.offset;
        if offset < self.source.len() {
            proof {
                lemma_locate_bounds(self.text(), offset as int);
                lemma_locate_step(self.pos_end.file, self.text(), offset as int);
            }
            let next = offset + 1;
            self.pos_end = self.pos_end.after(self.source[offset]);
            self.current_char = if next < self.source.len() {
                Some(self.source[next])
            } else {
                None
            };
        }
    }

    /// Undoes one `advance`. At offset zero nothing changes.
    pub fn revance(&mut self)
        requires
            old(self).wf(),
        ensures
            final(self).wf(),
            *final(self) == old(self).revanced(),
    {
        let offset = self.pos_end.offset;
        if offset > 0 {
            let prev = offset - 1;
            let c = self.source[prev];
            proof {
                lemma_locate_bounds(self.text(), offset as int);
                lemma_locate_bounds(self.text(), prev as int);
            }
            if c == '\n' {
                let mut from = prev;
                while from > 0 && self.source[from - 1] != '\n'
                    invariant
                        from <= prev < self.source.len(),
                        forall|i: int| from <= i < prev ==> self.text()[i] != '\n',
                    decreases from,
                {
                    from = from - 1;
                }
                proof {
                    lemma_column_run(self.text(), from as int, prev as int);
                }
                self.pos_end.line = self.pos_end.line - 1;
                self.pos_end.column = prev - from;
            } else {
                self.pos_end.column = self.pos_end.column - 1;
            }
            self.pos_end.offset = prev;
            self.current_char = Some(c);
            if self.pos_start.offset > prev {
                self.pos_start = self.pos_end.duplicate();
            }
        }
    }

    /// An independent cursor at the same place over the same source.
    pub fn spawn(&self) -> (child: MutCursor)
        ensures
            child == *self,
    {
        MutCursor {
            source: share(&self.source),
            pos_start: self.pos_start.duplicate(),
            pos_end: self.pos_end.duplicate(),
            current_char: self.current_char,
        }
    }

    /// The span of the token that is being built.
    pub fn position(&self) -> (s: Span)
        ensures
            s == self.span(),
    {
        Span { start: self.pos_start.duplicate(), end: self.pos_end.duplicate() }
    }

    /// Lets the next token start where this one ends.
    pub fn restart(&mut self)
        requires
            old(self).wf(),
        ensures
            final(self).wf(),
            *final(self) == old(self).restarted(),
    {
        self.pos_start = self.pos_end.duplicate();
    }
}

} // verus!
