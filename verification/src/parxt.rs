//! The parser's context: a cursor over a sequence of tokens.

use crate::cursor::{Position, Span};
use crate::flext::Flext;
use crate::token_node::Token;
use vstd::prelude::*;

verus! {

/// The position that stands for the end of the input: the end of the last
/// token, moved one line down.
pub open spec fn end_of_input<TT>(tokens: Seq<Token<TT>>) -> Span {
    let last = tokens[tokens.len() - 1].span.end;
    let end = Position { line: (last.line + 1) as usize, ..last };
    Span { start: end, end }
}

/// The span of the token at `idx`, or the end of the input where there is
/// none.
pub open spec fn span_at<TT>(tokens: Seq<Token<TT>>, idx: int) -> Span {
    if 0 <= idx < tokens.len() {
        tokens[idx].span
    } else {
        end_of_input(tokens)
    }
}

/// Parser context for parsing.
#[derive(Debug, Clone, Copy)]
pub struct Parxt<'a, TT> {
    pub tokens: &'a [Token<TT>],
    pub idx: usize,
    pub done: bool,
}

impl<'a, TT> Parxt<'a, TT> {
    /// `done` says whether the index lies behind the tokens, of which there
    /// are no more than a slice can hold.
    pub open spec fn well_formed(&self) -> bool {
        &&& self.tokens@.len() <= usize::MAX
        &&& self.done == (self.idx >= self.tokens@.len())
    }

    /// The cursor over the same tokens at index `idx`.
    pub open spec fn placed(self, idx: int) -> Self {
        Parxt { tokens: self.tokens, idx: idx as usize, done: idx >= self.tokens@.len() }
    }

    /// A context at the first token.
    pub fn new(tokens: &'a [Token<TT>]) -> (parxt: Self)
        ensures
            parxt.well_formed(),
            parxt.tokens == tokens,
            parxt.idx == 0,
    {
        Parxt { tokens, idx: 0, done: tokens.len() == 0 }
    }

    /// The token under the cursor, if the cursor is not at the end.
    pub fn current_token(&self) -> (t: Option<&'a Token<TT>>)
        ensures
            self.idx < self.tokens@.len() ==> t == Some(&self.tokens@[self.idx as int]),
            self.idx >= self.tokens@.len() ==> t is None,
    {
        if self.idx < self.tokens.len() {
            Some(&self.tokens[self.idx])
        } else {
            None
        }
    }

    /// The type of the token under the cursor, if the cursor is not at the
    /// end.
    pub fn current(&self) -> (t: Option<&'a TT>)
        ensures
            self.idx < self.tokens@.len() ==> t == Some(
                &self.tokens@[self.idx as int].token_type,
            ),
            self.idx >= self.tokens@.len() ==> t is None,
    {
        match self.current_token() {
            Some(token) => Some(&token.token_type),
            None => None,
        }
    }

    /// The position that stands for the end of the input.
    pub fn get_last_pos(&self) -> (s: Span)
        requires
            self.tokens@.len() > 0,
            self.tokens@[self.tokens@.len() - 1].span.end.line < usize::MAX,
        ensures
            s == end_of_input(self.tokens@),
    {
        let last = &self.tokens[self.tokens.len() - 1].span.end;
        let mut end = last.duplicate();
        end.line = end.line + 1;
        Span { start: end.duplicate(), end }
    }
}

/// A step forward raises the index by one, and a step back after it leads
/// to where the cursor was: the same index and the same token under it.
pub proof fn lemma_forward_back<'a, TT>(p: Parxt<'a, TT>)
    requires
        p.well_formed(),
        p.can_advance(),
    ensures
        p.advanced().well_formed(),
        p.advanced().idx == p.idx + 1,
        p.advanced().tokens == p.tokens,
        p.advanced().revanced() == p,
{
}

impl<'a, TT> Flext for Parxt<'a, TT> {
    open spec fn wf(&self) -> bool {
        self.well_formed()
    }

    open spec fn locatable(&self) -> bool {
        &&& self.tokens@.len() > 0
        &&& self.tokens@[self.tokens@.len() - 1].span.end.line < usize::MAX
    }

    open spec fn can_advance(&self) -> bool {
        self.idx < usize::MAX
    }

    open spec fn advanced(self) -> Self {
        self.placed(self.idx + 1)
    }

    open spec fn revanced(self) -> Self {
        if self.idx > 0 {
            self.placed(self.idx - 1)
        } else {
            self
        }
    }

    open spec fn span(&self) -> Span {
        span_at(self.tokens@, self.idx as int)
    }

    /// Advances to the next token. Behind the last token the index still
    /// grows, so that a step back undoes the step.
    fn advance(&mut self) {
        self.idx = self.idx + 1;
        self.done = self.idx >= self.tokens.len();
    }

    /// Un-advances.
    fn revance(&mut self) {
        if self.idx != 0 {
            self.idx = self.idx - 1;
            self.done = self.idx >= self.tokens.len();
        }
    }

    /// Spawns a child context.
    fn spawn(&self) -> (child: Self) {
        Parxt { tokens: self.tokens, idx: self.idx, done: self.done }
    }

    /// Gets the current position of the cursor.
    fn position(&self) -> (s: Span) {
        match self.current_token() {
            Some(token) => token.span.duplicate(),
            None => self.get_last_pos(),
        }
    }
}

} // verus!
