//! Caller-supplied consumption logic. Each consumption pattern takes a
//! visitor (or predicate) implementing one of these traits; the spec
//! log of a visitor records every invocation, in order, so pattern
//! contracts can state exactly which rows were handed out and how
//! often. One verified collector per trait is provided.

use vstd::prelude::*;
use crate::cursor::MatchInfo;
use crate::query::Term;
use crate::storage::{copy_row, rows_view};

verus! {

/// Per-entity callback receiving the row tuple alone.
pub trait RowVisitor {
    /// All rows this visitor has been invoked on, in order.
    spec fn log(&self) -> Seq<Seq<u64>>;

    fn visit(&mut self, row: &Vec<u64>)
        ensures
            final(self).log() == old(self).log().push(row@),
    ;
}

/// Per-entity callback receiving the entity identity and the row.
pub trait EntityRowVisitor {
    spec fn log(&self) -> Seq<(u64, Seq<u64>)>;

    fn visit(&mut self, entity: u64, row: &Vec<u64>)
        ensures
            final(self).log() == old(self).log().push((entity, row@)),
    ;
}

/// Per-entity callback receiving the match context, the row index
/// inside the match, and the row.
pub trait ContextRowVisitor {
    spec fn log(&self) -> Seq<(MatchInfo, int, Seq<u64>)>;

    fn visit(&mut self, ctx: &MatchInfo, index: usize, row: &Vec<u64>)
        ensures
            final(self).log() == old(self).log().push((*ctx, index as int, row@)),
    ;
}

/// Per-table callback receiving the match context and one typed slice
/// per field (of length `count`, or 1 for a shared field).
pub trait SliceVisitor {
    spec fn log(&self) -> Seq<(MatchInfo, Seq<Seq<u64>>)>;

    fn visit(&mut self, ctx: &MatchInfo, slices: &Vec<Vec<u64>>)
        ensures
            final(self).log() == old(self).log().push((*ctx, rows_view(slices@))),
    ;
}

/// Per-table callback receiving the match context alone, for
/// structural-only queries.
pub trait MatchVisitor {
    spec fn log(&self) -> Seq<MatchInfo>;

    fn visit(&mut self, ctx: &MatchInfo)
        ensures
            final(self).log() == old(self).log().push(*ctx),
    ;
}

/// Search predicate over a row tuple. Its verdict is a function of the
/// row alone and survives its own calls, so a search contract can name
/// the first matching row.
pub trait RowPredicate {
    spec fn pred(&self, row: Seq<u64>) -> bool;

    /// All rows this predicate has been asked about, in order.
    spec fn log(&self) -> Seq<Seq<u64>>;

    fn check(&mut self, row: &Vec<u64>) -> (r: bool)
        ensures
            r == old(self).pred(row@),
            final(self).log() == old(self).log().push(row@),
            forall|s: Seq<u64>| final(self).pred(s) == old(self).pred(s),
    ;
}

/// Search predicate over an entity identity and its row.
pub trait EntityRowPredicate {
    spec fn pred(&self, entity: u64, row: Seq<u64>) -> bool;

    spec fn log(&self) -> Seq<(u64, Seq<u64>)>;

    fn check(&mut self, entity: u64, row: &Vec<u64>) -> (r: bool)
        ensures
            r == old(self).pred(entity, row@),
            final(self).log() == old(self).log().push((entity, row@)),
            forall|e: u64, s: Seq<u64>| final(self).pred(e, s) == old(self).pred(e, s),
    ;
}

/// Search predicate over the match context, row index and row.
pub trait ContextRowPredicate {
    spec fn pred(&self, ctx: MatchInfo, index: int, row: Seq<u64>) -> bool;

    spec fn log(&self) -> Seq<(MatchInfo, int, Seq<u64>)>;

    fn check(&mut self, ctx: &MatchInfo, index: usize, row: &Vec<u64>) -> (r: bool)
        ensures
            r == old(self).pred(*ctx, index as int, row@),
            final(self).log() == old(self).log().push((*ctx, index as int, row@)),
            forall|c: MatchInfo, i: int, s: Seq<u64>|
                final(self).pred(c, i, s) == old(self).pred(c, i, s),
    ;
}

/// Callback receiving one term of the query at a time.
pub trait TermVisitor {
    spec fn log(&self) -> Seq<Term>;

    fn visit(&mut self, term: &Term)
        ensures
            final(self).log() == old(self).log().push(*term),
    ;
}

/// Collector of rows: the verified `RowVisitor`.
pub struct RowCollector {
    pub rows: Vec<Vec<u64>>,
}

impl RowCollector {
    pub fn new() -> (r: RowCollector)
        ensures
            r.log() == Seq::<Seq<u64>>::empty(),
    {
        let r = RowCollector { rows: Vec::new() };
        proof {
            assert(r.log() =~= Seq::<Seq<u64>>::empty());
        }
        r
    }
}

impl RowVisitor for RowCollector {
    open spec fn log(&self) -> Seq<Seq<u64>> {
        rows_view(self.rows@)
    }

    fn visit(&mut self, row: &Vec<u64>) {
        let c = copy_row(row);
        self.rows.push(c);
        proof {
            assert(self.log() =~= old(self).log().push(row@));
        }
    }
}

/// Collector of entity identities and rows: the verified
/// `EntityRowVisitor`.
pub struct EntityRowCollector {
    pub items: Vec<(u64, Vec<u64>)>,
}

impl EntityRowCollector {
    pub fn new() -> (r: EntityRowCollector)
        ensures
            r.log() == Seq::<(u64, Seq<u64>)>::empty(),
    {
        let r = EntityRowCollector { items: Vec::new() };
        proof {
            assert(r.log() =~= Seq::<(u64, Seq<u64>)>::empty());
        }
        r
    }
}

impl EntityRowVisitor for EntityRowCollector {
    open spec fn log(&self) -> Seq<(u64, Seq<u64>)> {
        Seq::new(self.items@.len(), |i: int| (self.items@[i].0, self.items@[i].1@))
    }

    fn visit(&mut self, entity: u64, row: &Vec<u64>) {
        let c = copy_row(row);
        self.items.push((entity, c));
        proof {
            assert(self.log() =~= old(self).log().push((entity, row@)));
        }
    }
}

/// Collector of match contexts, indices and rows: the verified
/// `ContextRowVisitor`.
pub struct ContextRowCollector {
    pub items: Vec<(MatchInfo, usize, Vec<u64>)>,
}

impl ContextRowCollector {
    pub fn new() -> (r: ContextRowCollector)
        ensures
            r.log() == Seq::<(MatchInfo, int, Seq<u64>)>::empty(),
    {
        let r = ContextRowCollector { items: Vec::new() };
        proof {
            assert(r.log() =~= Seq::<(MatchInfo, int, Seq<u64>)>::empty());
        }
        r
    }
}

impl ContextRowVisitor for ContextRowCollector {
    open spec fn log(&self) -> Seq<(MatchInfo, int, Seq<u64>)> {
        Seq::new(
            self.items@.len(),
            |i: int| (self.items@[i].0, self.items@[i].1 as int, self.items@[i].2@),
        )
    }

    fn visit(&mut self, ctx: &MatchInfo, index: usize, row: &Vec<u64>) {
        let c = copy_row(row);
        self.items.push((*ctx, index, c));
        proof {
            assert(self.log() =~= old(self).log().push((*ctx, index as int, row@)));
        }
    }
}

/// Collector of per-table slice views: the verified `SliceVisitor`.
pub struct SliceCollector {
    pub items: Vec<(MatchInfo, Vec<Vec<u64>>)>,
}

impl SliceCollector {
    pub fn new() -> (r: SliceCollector)
        ensures
            r.log() == Seq::<(MatchInfo, Seq<Seq<u64>>)>::empty(),
    {
        let r = SliceCollector { items: Vec::new() };
        proof {
            assert(r.log() =~= Seq::<(MatchInfo, Seq<Seq<u64>>)>::empty());
        }
        r
    }
}

impl SliceVisitor for SliceCollector {
    open spec fn log(&self) -> Seq<(MatchInfo, Seq<Seq<u64>>)> {
        Seq::new(self.items@.len(), |i: int| (self.items@[i].0, rows_view(self.items@[i].1@)))
    }

    fn visit(&mut self, ctx: &MatchInfo, slices: &Vec<Vec<u64>>) {
        let mut c: Vec<Vec<u64>> = Vec::new();
        let mut k: usize = 0;
        while k < slices.len()
            invariant
                k <= slices@.len(),
                c@.len() == k,
                forall|j: int| 0 <= j < k ==> (#[trigger] c@[j])@ == slices@[j]@,
            decreases slices@.len() - k,
        {
            let one = copy_row(&slices[k]);
            c.push(one);
            k = k + 1;
        }
        proof {
            assert(rows_view(c@) =~= rows_view(slices@));
        }
        self.items.push((*ctx, c));
        proof {
            assert(self.log() =~= old(self).log().push((*ctx, rows_view(slices@))));
        }
    }
}

/// Collector of match contexts: the verified `MatchVisitor`.
pub struct MatchCollector {
    pub infos: Vec<MatchInfo>,
}

impl MatchCollector {
    pub fn new() -> (r: MatchCollector)
        ensures
            r.log() == Seq::<MatchInfo>::empty(),
    {
        let r = MatchCollector { infos: Vec::new() };
        proof {
            assert(r.log() =~= Seq::<MatchInfo>::empty());
        }
        r
    }
}

impl MatchVisitor for MatchCollector {
    open spec fn log(&self) -> Seq<MatchInfo> {
        self.infos@
    }

    fn visit(&mut self, ctx: &MatchInfo) {
        self.infos.push(*ctx);
    }
}

/// Collector of terms: the verified `TermVisitor`.
pub struct TermCollector {
    pub terms: Vec<Term>,
}

impl TermCollector {
    pub fn new() -> (r: TermCollector)
        ensures
            r.log() == Seq::<Term>::empty(),
    {
        let r = TermCollector { terms: Vec::new() };
        proof {
            assert(r.log() =~= Seq::<Term>::empty());
        }
        r
    }
}

impl TermVisitor for TermCollector {
    open spec fn log(&self) -> Seq<Term> {
        self.terms@
    }

    fn visit(&mut self, term: &Term) {
        self.terms.push(*term);
    }
}

/// Verified `RowPredicate`: true of a row whose field `field` holds
/// `value`; false also when the row is too short.
pub struct FieldEqualsPredicate {
    pub field: usize,
    pub value: u64,
    pub seen: Vec<Vec<u64>>,
}

impl FieldEqualsPredicate {
    pub fn new(field: usize, value: u64) -> (r: FieldEqualsPredicate)
        ensures
            r.log() == Seq::<Seq<u64>>::empty(),
            forall|s: Seq<u64>|
                #[trigger] r.pred(s) == (field < s.len() && s[field as int] == value),
    {
        let r = FieldEqualsPredicate { field, value, seen: Vec::new() };
        proof {
            assert(r.log() =~= Seq::<Seq<u64>>::empty());
        }
        r
    }
}

impl RowPredicate for FieldEqualsPredicate {
    open spec fn pred(&self, row: Seq<u64>) -> bool {
        self.field < row.len() && row[self.field as int] == self.value
    }

    open spec fn log(&self) -> Seq<Seq<u64>> {
        rows_view(self.seen@)
    }

    fn check(&mut self, row: &Vec<u64>) -> (r: bool) {
        let c = copy_row(row);
        self.seen.push(c);
        proof {
            assert(self.log() =~= old(self).log().push(row@));
        }
        self.field < row.len() && row[self.field] == self.value
    }
}

/// Verified `EntityRowPredicate`: true of the entity with the given
/// identity.
pub struct EntityEqualsPredicate {
    pub target: u64,
    pub seen: Vec<(u64, Vec<u64>)>,
}

impl EntityEqualsPredicate {
    pub fn new(target: u64) -> (r: EntityEqualsPredicate)
        ensures
            r.log() == Seq::<(u64, Seq<u64>)>::empty(),
            forall|e: u64, s: Seq<u64>| #[trigger] r.pred(e, s) == (e == target),
    {
        let r = EntityEqualsPredicate { target, seen: Vec::new() };
        proof {
            assert(r.log() =~= Seq::<(u64, Seq<u64>)>::empty());
        }
        r
    }
}

impl EntityRowPredicate for EntityEqualsPredicate {
    open spec fn pred(&self, entity: u64, row: Seq<u64>) -> bool {
        entity == self.target
    }

    open spec fn log(&self) -> Seq<(u64, Seq<u64>)> {
        Seq::new(self.seen@.len(), |i: int| (self.seen@[i].0, self.seen@[i].1@))
    }

    fn check(&mut self, entity: u64, row: &Vec<u64>) -> (r: bool) {
        let c = copy_row(row);
        self.seen.push((entity, c));
        proof {
            assert(self.log() =~= old(self).log().push((entity, row@)));
        }
        entity == self.target
    }
}

/// Verified `ContextRowPredicate`: true of a row whose field `field`
/// holds `value`, whatever the context.
pub struct ContextFieldEqualsPredicate {
    pub field: usize,
    pub value: u64,
    pub seen: Vec<(MatchInfo, usize, Vec<u64>)>,
}

impl ContextFieldEqualsPredicate {
    pub fn new(field: usize, value: u64) -> (r: ContextFieldEqualsPredicate)
        ensures
            r.log() == Seq::<(MatchInfo, int, Seq<u64>)>::empty(),
            forall|c: MatchInfo, i: int, s: Seq<u64>|
                #[trigger] r.pred(c, i, s) == (field < s.len() && s[field as int] == value),
    {
        let r = ContextFieldEqualsPredicate { field, value, seen: Vec::new() };
        proof {
            assert(r.log() =~= Seq::<(MatchInfo, int, Seq<u64>)>::empty());
        }
        r
    }
}

impl ContextRowPredicate for ContextFieldEqualsPredicate {
    open spec fn pred(&self, ctx: MatchInfo, index: int, row: Seq<u64>) -> bool {
        self.field < row.len() && row[self.field as int] == self.value
    }

    open spec fn log(&self) -> Seq<(MatchInfo, int, Seq<u64>)> {
        Seq::new(
            self.seen@.len(),
            |i: int| (self.seen@[i].0, self.seen@[i].1 as int, self.seen@[i].2@),
        )
    }

    fn check(&mut self, ctx: &MatchInfo, index: usize, row: &Vec<u64>) -> (r: bool) {
        let c = copy_row(row);
        self.seen.push((*ctx, index, c));
        proof {
            assert(self.log() =~= old(self).log().push((*ctx, index as int, row@)));
        }
        self.field < row.len() && row[self.field] == self.value
    }
}

} // verus!
