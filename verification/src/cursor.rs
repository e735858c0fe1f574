//! Resumable iteration cursor over a prepared query's matches, and the
//! trait every iterable query-like value offers.

use vstd::prelude::*;

verus! {

/// Flag requesting stricter per-entity field-access validation; set by
/// the per-entity consumption patterns.
pub const ITER_FLAG_EACH: u64 = 1;

/// Cursor over a query's matches. `pos` counts the successful advances
/// so far, so after an advance the current match is `pos - 1`; `done`
/// marks the finalized, terminal state.
#[derive(Clone, Copy, PartialEq, Eq, Structural, Debug)]
pub struct CursorState {
    pub pos: usize,
    pub done: bool,
    pub flags: u64,
}

/// Match-level metadata handed to context-aware consumption patterns:
/// which table matched, how many concrete entities the match holds,
/// and the cursor flags in force.
#[derive(Clone, Copy, PartialEq, Eq, Structural, Debug)]
pub struct MatchInfo {
    pub table: usize,
    pub count: usize,
    pub flags: u64,
}

/// The state a freshly retrieved cursor is in.
pub open spec fn fresh_cursor() -> CursorState {
    CursorState { pos: 0, done: false, flags: 0 }
}

/// Whether an advance of cursor `c` over a query with the given match
/// table indices yields another match.
pub open spec fn advance_ok(matches: Seq<usize>, c: CursorState) -> bool {
    !c.done && c.pos < matches.len()
}

/// The cursor state after one advance: the next match when one is left,
/// the finalized state otherwise. A finalized cursor stays as it is.
pub open spec fn advance(matches: Seq<usize>, c: CursorState) -> CursorState {
    if advance_ok(matches, c) {
        (CursorState { pos: (c.pos + 1) as usize, ..c })
    } else {
        (CursorState { done: true, ..c })
    }
}

/// How many successful advances the cursor has left.
pub open spec fn matches_remaining(matches: Seq<usize>, c: CursorState) -> nat {
    if c.done || c.pos >= matches.len() {
        0
    } else {
        (matches.len() - c.pos) as nat
    }
}

/// Operations every iterable query-like value offers: producing a fresh
/// cursor and advancing it. All consumption patterns are built by
/// looping on `iter_next`.
pub trait IterOperations {
    /// The table indices of the matches, in the order the planner
    /// produces them.
    spec fn matches(&self) -> Seq<usize>;

    /// Produce a fresh cursor; runs no matching itself.
    fn retrieve_iter(&self) -> (c: CursorState)
        ensures
            c == fresh_cursor(),
    ;

    /// Advance to the next match. Returns false exactly when no match
    /// is left, leaving the cursor finalized; a finalized cursor is
    /// never changed again.
    fn iter_next(&self, iter: &mut CursorState) -> (r: bool)
        ensures
            r == advance_ok(self.matches(), *old(iter)),
            *final(iter) == advance(self.matches(), *old(iter)),
    ;
}

/// An owned iteration adapter: a fresh cursor bound to its own copy of
/// the query's match list, so it can be advanced independently of the
/// query object it came from.
pub struct IterIterable {
    pub matched: Vec<usize>,
    pub it: CursorState,
}

impl IterIterable {
    /// Advance the owned cursor to the next match, exactly as
    /// `iter_next` does.
    pub fn next_match(&mut self) -> (r: bool)
        ensures
            final(self).matched@ == old(self).matched@,
            r == advance_ok(old(self).matched@, old(self).it),
            final(self).it == advance(old(self).matched@, old(self).it),
    {
        if !self.it.done && self.it.pos < self.matched.len() {
            self.it.pos = self.it.pos + 1;
            true
        } else {
            self.it.done = true;
            false
        }
    }
}

/// Finalize a cursor before exhaustion, releasing the engine-side match
/// state; every early-exit path must call this.
pub fn iter_fini(iter: &mut CursorState)
    ensures
        *final(iter) == (CursorState { done: true, ..*old(iter) }),
{
    iter.done = true;
}

/// Exhaustion law: every successful advance strictly decreases the
/// number of matches left, so repeated `iter_next` calls reach the
/// finalized state after finitely many steps; and once an advance has
/// failed, every further advance fails and changes nothing.
pub proof fn lemma_cursor_exhaustion(matches: Seq<usize>, c: CursorState)
    requires
        matches.len() <= usize::MAX,
    ensures
        advance_ok(matches, c) ==> matches_remaining(matches, advance(matches, c))
            < matches_remaining(matches, c),
        !advance_ok(matches, c) ==> advance(matches, c).done,
        !advance_ok(matches, c) ==> !advance_ok(matches, advance(matches, c)),
        !advance_ok(matches, c) ==> advance(matches, advance(matches, c)) == advance(matches, c),
{
    if advance_ok(matches, c) {
        let c2 = advance(matches, c);
        assert(c2.pos == c.pos + 1 && !c2.done);
        assert(matches_remaining(matches, c) == matches.len() - c.pos);
        assert(matches_remaining(matches, c2) <= matches.len() - c2.pos);
    }
}

} // verus!
