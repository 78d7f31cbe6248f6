//! The backtracking discipline that the character cursor and the token cursor
//! share.

use crate::cursor::Span;
use vstd::prelude::*;

verus! {

/// A cursor that can step forward and back, and of which an independent copy
/// can be taken as a checkpoint.
///
/// A speculative match works on a copy made by `spawn`. Dropping the copy is
/// the rollback; assigning it to the cursor that it was taken from is the
/// commit.
pub trait Flext: Sized {
    /// The cursor is consistent with the input that it walks over.
    spec fn wf(&self) -> bool;

    /// The input is such that a position can be reported.
    spec fn locatable(&self) -> bool;

    /// The machine can count one step further than the cursor stands.
    spec fn can_advance(&self) -> bool;

    /// The cursor after `advance`.
    spec fn advanced(self) -> Self;

    /// The cursor after `revance`.
    spec fn revanced(self) -> Self;

    /// What `position` reports.
    spec fn span(&self) -> Span;

    /// Steps forward by one unit.
    fn advance(&mut self)
        requires
            old(self).wf(),
            old(self).can_advance(),
        ensures
            final(self).wf(),
            *final(self) == old(self).advanced(),
    ;

    /// Steps back by one unit; changes nothing at the start of the input.
    fn revance(&mut self)
        requires
            old(self).wf(),
        ensures
            final(self).wf(),
            *final(self) == old(self).revanced(),
    ;

    /// An independent cursor at the same place.
    fn spawn(&self) -> (child: Self)
        ensures
            child == *self,
    ;

    /// The current position.
    fn position(&self) -> (s: Span)
        requires
            self.wf(),
            self.locatable(),
        ensures
            s == self.span(),
    ;
}

/// One move of a speculative match.
pub enum Move {
    /// A copy of the newest cursor is taken and becomes the newest.
    Spawn,
    /// The newest copy consumes one unit.
    Advance,
    /// The newest copy steps back by one unit.
    Revance,
    /// The newest copy is dropped.
    Discard,
}

/// The cursors that are alive after one move, the originating cursor first
/// and the newest copy last. `Advance`, `Revance` and `Discard` act on
/// copies only: where none is alive they change nothing.
pub open spec fn moved<F: Flext>(alive: Seq<F>, m: Move) -> Seq<F> {
    if alive.len() == 0 {
        alive
    } else {
        match m {
            Move::Spawn => alive.push(alive.last()),
            Move::Advance => if alive.len() >= 2 {
                alive.update(alive.len() - 1, alive.last().advanced())
            } else {
                alive
            },
            Move::Revance => if alive.len() >= 2 {
                alive.update(alive.len() - 1, alive.last().revanced())
            } else {
                alive
            },
            Move::Discard => if alive.len() >= 2 {
                alive.drop_last()
            } else {
                alive
            },
        }
    }
}

/// The cursors that are alive after the first `n` of `moves`, starting from
/// `origin` alone.
pub open spec fn speculation<F: Flext>(origin: F, moves: Seq<Move>, n: int) -> Seq<F>
    decreases n,
{
    if n <= 0 {
        seq![origin]
    } else {
        moved(speculation(origin, moves, n - 1), moves[n - 1])
    }
}

/// Rollback is exact: whatever is spawned, moved and discarded, the
/// originating cursor stays as it was, and with it the position and the unit
/// that it reports. Once every copy is discarded it is all that is left.
pub proof fn lemma_rollback<F: Flext>(origin: F, moves: Seq<Move>, n: int)
    requires
        0 <= n <= moves.len(),
    ensures
        speculation(origin, moves, n).len() >= 1,
        speculation(origin, moves, n)[0] == origin,
        speculation(origin, moves, n)[0].span() == origin.span(),
        speculation(origin, moves, n).len() == 1 ==> speculation(origin, moves, n) == seq![origin],
    decreases n,
{
    if n > 0 {
        lemma_rollback(origin, moves, n - 1);
    }
    assert(speculation(origin, moves, n).len() == 1 ==> speculation(origin, moves, n) =~= seq![
        origin,
    ]);
}

} // verus!
