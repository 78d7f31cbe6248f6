//! The scanner's context: a character cursor and the character under it.

use crate::cursor::{MutCursor, Span};
use crate::flext::Flext;
use std::rc::Rc;
use vstd::prelude::*;

verus! {

/// The number of line breaks that `text` begins with.
pub open spec fn leading_breaks(text: Seq<char>) -> nat
    decreases text.len(),
{
    if text.len() > 0 && text[0] == '\n' {
        1 + leading_breaks(text.drop_first())
    } else {
        0
    }
}

/// `text` without the line breaks that it begins with.
pub open spec fn without_leading_breaks(text: Seq<char>) -> Seq<char> {
    text.skip(leading_breaks(text) as int)
}

/// Lexer context for tokenising.
#[derive(Debug, Clone)]
pub struct Lext {
    pub cursor: MutCursor,
    pub current: Option<char>,
}

impl Lext {
    /// The cursor is well formed and `current` is the character under it.
    pub open spec fn well_formed(&self) -> bool {
        &&& self.cursor.wf()
        &&& self.current == self.cursor.current_char
    }

    /// The context stands at the start of the text of `contents`, in the file
    /// called `file_name`.
    pub open spec fn starts(&self, file_name: Seq<char>, contents: Seq<char>) -> bool {
        &&& self.well_formed()
        &&& self.cursor.text() == without_leading_breaks(contents)
        &&& self.cursor.pos_end.file@ == file_name
        &&& self.cursor.pos_start.offset == 0
        &&& self.cursor.pos_end.offset == 0
    }

    /// A context at the first character of `contents` that is no line break.
    /// The line breaks before it are not part of the text that is scanned.
    pub fn new(file_name: String, contents: &str) -> (lext: Lext)
        ensures
            lext.starts(file_name@, contents@),
    {
        let source = scanned_text(contents);
        let cursor = MutCursor::new(Rc::new(file_name), Rc::new(source));
        let current = cursor.current_char;
        Lext { cursor, current }
    }

    /// The position one step before the current one.
    pub fn rposition(&self) -> (s: Span)
        requires
            self.well_formed(),
        ensures
            s == self.cursor.revanced().span(),
    {
        let mut clone = self.cursor.spawn();
        clone.revance();
        clone.position()
    }
}

/// A text that begins with `k` line breaks and goes on with another
/// character, or ends there, has exactly `k` leading line breaks.
pub proof fn lemma_leading_breaks(text: Seq<char>, k: int)
    requires
        0 <= k <= text.len(),
        forall|i: int| 0 <= i < k ==> text[i] == '\n',
        k == text.len() || text[k] != '\n',
    ensures
        leading_breaks(text) == k,
    decreases k,
{
    if k > 0 {
        let rest = text.drop_first();
        assert forall|i: int| 0 <= i < k - 1 implies rest[i] == '\n' by {
            assert(rest[i] == text[i + 1]);
        }
        lemma_leading_breaks(rest, k - 1);
    }
}

/// The characters of `contents` from the first that is no line break.
pub fn scanned_text(contents: &str) -> (source: Vec<char>)
    ensures
        source@ == without_leading_breaks(contents@),
{
    let mut source: Vec<char> = Vec::new();
    let mut started = false;
    let ghost mut skipped: int = 0;
    for c in it: contents.chars()
        invariant
            it.seq() == contents@,
            !started ==> source@.len() == 0 && forall|i: int|
                0 <= i < it.index() ==> contents@[i] == '\n',
            started ==> 0 <= skipped < it.index() && contents@[skipped] != '\n' && source@
                == contents@.subrange(skipped, it.index() as int) && forall|i: int|
                0 <= i < skipped ==> contents@[i] == '\n',
    {
        if started || c != '\n' {
            proof {
                if !started {
                    skipped = it.index() as int;
                }
            }
            started = true;
            source.push(c);
        }
    }
    proof {
        if started {
            lemma_leading_breaks(contents@, skipped);
        } else {
            lemma_leading_breaks(contents@, contents@.len() as int);
        }
    }
    source
}

impl Flext for Lext {
    open spec fn wf(&self) -> bool {
        self.well_formed()
    }

    open spec fn locatable(&self) -> bool {
        true
    }

    open spec fn can_advance(&self) -> bool {
        true
    }

    open spec fn advanced(self) -> Self {
        Lext { cursor: self.cursor.advanced(), current: self.cursor.advanced().current_char }
    }

    open spec fn revanced(self) -> Self {
        Lext { cursor: self.cursor.revanced(), current: self.cursor.revanced().current_char }
    }

    open spec fn span(&self) -> Span {
        self.cursor.span()
    }

    /// Advances to the next character; at the end of the text nothing
    /// changes.
    fn advance(&mut self) {
        self.cursor.advance();
        self.current = self.cursor.current_char;
    }

    /// Un-advances.
    fn revance(&mut self) {
        self.cursor.revance();
        self.current = self.cursor.current_char;
    }

    /// Spawns a child context.
    fn spawn(&self) -> (child: Self) {
        Lext { cursor: self.cursor.spawn(), current: self.current }
    }

    /// Gets the current position of the cursor.
    fn position(&self) -> (s: Span) {
        self.cursor.position()
    }
}

} // verus!
