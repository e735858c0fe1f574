//! Consumption patterns over a query's matches. All of them share one
//! skeleton — advance the cursor, lock the match's table, hand rows or
//! slices out, unlock — and differ in what the callback receives and
//! whether it can stop the walk. Every contract states the exact
//! sequence of callback invocations, that the tables and lock depths
//! are left as found, and that lock acquisitions and releases balance,
//! on every exit path.

use vstd::prelude::*;
use crate::cursor::{ITER_FLAG_EACH, IterOperations, MatchInfo, iter_fini};
use crate::query::Query;
use crate::storage::{Table, World, eff_count, lock_balanced};
use crate::storage::lemma_counts_push;
use crate::visit::{
    ContextRowPredicate,
    ContextRowVisitor,
    EntityRowPredicate,
    EntityRowVisitor,
    MatchVisitor,
    RowPredicate,
    RowVisitor,
    SliceVisitor,
    TermVisitor,
};

verus! {

/// The table of match `m`, read off a table sequence. Consumption
/// patterns state their contracts over the tables as they stood at
/// entry; the patterns leave them unchanged.
pub open spec fn table_of(q: Query, tables: Seq<Table>, m: int) -> Table {
    tables[q.matched@[m] as int]
}

/// The match context of match `m` under the given cursor flags.
pub open spec fn minfo(q: Query, tables: Seq<Table>, m: int, flags: u64) -> MatchInfo {
    MatchInfo {
        table: q.matched@[m],
        count: table_of(q, tables, m).count() as usize,
        flags,
    }
}

/// Rows of one match in index order, one per visited row: one per
/// concrete entity, and a single row 0 for a match with no concrete
/// entities (which can only arise from shared-only terms).
pub open spec fn match_rows(t: Table) -> Seq<Seq<u64>> {
    Seq::new(eff_count(t.count()), |i: int| t.row(i))
}

/// Rows handed out over the first `m` matches, in visit order.
pub open spec fn each_rows(q: Query, tables: Seq<Table>, m: int) -> Seq<Seq<u64>>
    decreases m,
{
    if m <= 0 {
        Seq::empty()
    } else {
        each_rows(q, tables, m - 1) + match_rows(table_of(q, tables, m - 1))
    }
}

/// Entity identity and row of one match, one per visited row; a match
/// with no concrete entities surfaces one row with the null identity.
pub open spec fn match_entity_rows(t: Table) -> Seq<(u64, Seq<u64>)> {
    Seq::new(eff_count(t.count()), |i: int| (t.entity_at(i), t.row(i)))
}

/// Identities and rows handed out over the first `m` matches.
pub open spec fn each_entity_rows(q: Query, tables: Seq<Table>, m: int) -> Seq<(u64, Seq<u64>)>
    decreases m,
{
    if m <= 0 {
        Seq::empty()
    } else {
        each_entity_rows(q, tables, m - 1) + match_entity_rows(table_of(q, tables, m - 1))
    }
}

/// No row of the first `m` matches satisfies the row predicate.
pub open spec fn no_row_hit<P: RowPredicate>(p: P, q: Query, tables: Seq<Table>, m: int) -> bool {
    forall|m2: int, i2: int|
        0 <= m2 < m && 0 <= i2 < eff_count(table_of(q, tables, m2).count()) ==> !p.pred(
            #[trigger] table_of(q, tables, m2).row(i2),
        )
}

/// No row of table `t` before row `upto` satisfies the row predicate.
pub open spec fn no_row_hit_in<P: RowPredicate>(p: P, t: Table, upto: int) -> bool {
    forall|i2: int| 0 <= i2 < upto ==> !p.pred(#[trigger] t.row(i2))
}

/// Context, row index and row of one match, one per visited row.
pub open spec fn match_ctx_rows(q: Query, tables: Seq<Table>, m: int, flags: u64) -> Seq<
    (MatchInfo, int, Seq<u64>),
> {
    Seq::new(
        eff_count(table_of(q, tables, m).count()),
        |i: int| (minfo(q, tables, m, flags), i, table_of(q, tables, m).row(i)),
    )
}

/// Contexts, indices and rows handed out over the first `m` matches.
pub open spec fn each_iter_rows(q: Query, tables: Seq<Table>, m: int, flags: u64) -> Seq<
    (MatchInfo, int, Seq<u64>),
>
    decreases m,
{
    if m <= 0 {
        Seq::empty()
    } else {
        each_iter_rows(q, tables, m - 1, flags) + match_ctx_rows(q, tables, m - 1, flags)
    }
}

/// One per-table entry per match: its context and its field slices.
pub open spec fn iter_entries(q: Query, tables: Seq<Table>, m: int, flags: u64) -> Seq<
    (MatchInfo, Seq<Seq<u64>>),
> {
    Seq::new(
        if m <= 0 {
            0
        } else {
            m as nat
        },
        |mi: int| (minfo(q, tables, mi, flags), table_of(q, tables, mi).slices()),
    )
}

/// One context entry per match.
pub open spec fn iter_infos(q: Query, tables: Seq<Table>, m: int, flags: u64) -> Seq<MatchInfo> {
    Seq::new(
        if m <= 0 {
            0
        } else {
            m as nat
        },
        |mi: int| minfo(q, tables, mi, flags),
    )
}

/// No visited (identity, row) of the first `m` matches satisfies the
/// predicate.
pub open spec fn no_pair_hit<P: EntityRowPredicate>(
    p: P,
    q: Query,
    tables: Seq<Table>,
    m: int,
) -> bool {
    forall|m2: int, i2: int|
        0 <= m2 < m && 0 <= i2 < eff_count(table_of(q, tables, m2).count()) ==> !p.pred(
            table_of(q, tables, m2).entity_at(i2),
            #[trigger] table_of(q, tables, m2).row(i2),
        )
}

/// No visited (identity, row) of table `t` before row `upto` satisfies
/// the predicate.
pub open spec fn no_pair_hit_in<P: EntityRowPredicate>(p: P, t: Table, upto: int) -> bool {
    forall|i2: int| 0 <= i2 < upto ==> !p.pred(t.entity_at(i2), #[trigger] t.row(i2))
}

/// No visited (context, index, row) of the first `m` matches satisfies
/// the predicate.
pub open spec fn no_ctx_hit<P: ContextRowPredicate>(
    p: P,
    q: Query,
    tables: Seq<Table>,
    m: int,
    flags: u64,
) -> bool {
    forall|m2: int, i2: int|
        0 <= m2 < m && 0 <= i2 < eff_count(table_of(q, tables, m2).count()) ==> !p.pred(
            minfo(q, tables, m2, flags),
            i2,
            #[trigger] table_of(q, tables, m2).row(i2),
        )
}

/// No visited (context, index, row) of table `t` before row `upto`
/// satisfies the predicate.
pub open spec fn no_ctx_hit_in<P: ContextRowPredicate>(
    p: P,
    info: MatchInfo,
    t: Table,
    upto: int,
) -> bool {
    forall|i2: int| 0 <= i2 < upto ==> !p.pred(info, i2, #[trigger] t.row(i2))
}

/// Total number of concrete entities over the first `m` matches.
pub open spec fn total_count(q: Query, w: World, m: int) -> nat
    decreases m,
{
    if m <= 0 {
        0
    } else {
        total_count(q, w, m - 1) + q.match_table(w, m - 1).count()
    }
}

/// Count additivity over match prefixes: the running sum never exceeds
/// the total over all matches.
pub proof fn lemma_total_count_mono(q: Query, w: World, m1: int, m2: int)
    requires
        0 <= m1 <= m2,
    ensures
        total_count(q, w, m1) <= total_count(q, w, m2),
    decreases m2 - m1,
{
    if m1 < m2 {
        lemma_total_count_mono(q, w, m1, m2 - 1);
    }
}

impl Query {
    /// Total number of entities in the result: the sum of the entity
    /// count of every match the cursor yields, to exhaustion.
    pub fn count(&self, w: &World) -> (r: i32)
        requires
            self.wf(*w),
            total_count(*self, *w, self.matched@.len() as int) <= i32::MAX,
        ensures
            r as int == total_count(*self, *w, self.matched@.len() as int),
    {
        let n_matches = self.matched.len();
        let ghost m_all = self.matched@.len() as int;
        let mut it = self.retrieve_iter();
        let mut result: i32 = 0;
        loop
            invariant_except_break
                self.wf(*w),
                total_count(*self, *w, m_all) <= i32::MAX,
                m_all == self.matched@.len() as int,
                n_matches == self.matched@.len(),
                !it.done,
                it.pos <= n_matches,
                result as int == total_count(*self, *w, it.pos as int),
            ensures
                result as int == total_count(*self, *w, m_all),
            decreases self.matched@.len() - it.pos,
        {
            let more = self.iter_next(&mut it);
            if !more {
                break;
            }
            let tidx = self.matched[it.pos - 1];
            let c = self.match_count_of(w, tidx);
            proof {
                lemma_total_count_mono(*self, *w, it.pos as int, m_all);
                assert(total_count(*self, *w, it.pos as int) == total_count(
                    *self,
                    *w,
                    it.pos - 1,
                ) + self.match_table(*w, it.pos - 1).count());
                assert(result as int + c as int <= i32::MAX);
            }
            result = result + (c as i32);
        }
        result
    }

    /// Entity count of the table at index `tidx`.
    fn match_count_of(&self, w: &World, tidx: usize) -> (c: usize)
        requires
            tidx < w.tables@.len(),
        ensures
            c == w.tables@[tidx as int].count(),
    {
        w.tables[tidx].entities.len()
    }

    /// Whether the query yields at least one match; the cursor is
    /// finalized as soon as that is known.
    pub fn is_true(&self) -> (r: bool)
        ensures
            r == (self.matched@.len() > 0),
    {
        let mut it = self.retrieve_iter();
        let r = self.iter_next(&mut it);
        if r {
            iter_fini(&mut it);
        }
        r
    }

    /// First entity of the first match that holds a concrete entity, or
    /// `None` when every match is empty; the cursor is finalized as
    /// soon as the entity is found.
    pub fn first_entity(&self, w: &World) -> (r: Option<u64>)
        requires
            self.wf(*w),
        ensures
            (r is Some) == (exists|m: int|
                0 <= m < self.matched@.len() && (#[trigger] self.match_table(*w, m)).count()
                    > 0),
            forall|m: int|
                0 <= m < self.matched@.len() && (#[trigger] self.match_table(*w, m)).count() > 0
                    && (forall|m2: int|
                    0 <= m2 < m ==> (#[trigger] self.match_table(*w, m2)).count() == 0) ==> r
                    == Some(self.match_table(*w, m).entities@[0]),
    {
        let n_matches = self.matched.len();
        let mut it = self.retrieve_iter();
        loop
            invariant_except_break
                self.wf(*w),
                n_matches == self.matched@.len(),
                !it.done,
                it.pos <= n_matches,
                forall|m2: int|
                    0 <= m2 < it.pos ==> (#[trigger] self.match_table(*w, m2)).count() == 0,
            ensures
                forall|m2: int|
                    0 <= m2 < self.matched@.len() ==> (#[trigger] self.match_table(
                        *w,
                        m2,
                    )).count() == 0,
            decreases self.matched@.len() - it.pos,
        {
            let more = self.iter_next(&mut it);
            if !more {
                break;
            }
            let tidx = self.matched[it.pos - 1];
            let tbl = &w.tables[tidx];
            if tbl.entities.len() > 0 {
                let e = tbl.entities[0];
                iter_fini(&mut it);
                proof {
                    assert(self.match_table(*w, it.pos - 1).count() > 0);
                }
                return Some(e);
            }
        }
        None
    }

    /// Per-entity consumption: every visited row of every match is
    /// handed to the visitor, in match order and row order, the table
    /// locked around each match. A match with no concrete entities
    /// (shared-only terms) is still visited exactly once, with row
    /// index 0.
    pub fn each<V: RowVisitor>(&self, w: &mut World, v: &mut V)
        requires
            self.wf(*old(w)),
            forall|t: int|
                0 <= t < old(w).lock_depth@.len() ==> (#[trigger] old(w).lock_depth@[t])
                    < u64::MAX,
        ensures
            final(w).tables@ == old(w).tables@,
            final(w).lock_depth@ == old(w).lock_depth@,
            lock_balanced(*old(w), *final(w)),
            final(v).log() == old(v).log() + each_rows(
                *self,
                old(w).tables@,
                self.matched@.len() as int,
            ),
    {
        let n_matches = self.matched.len();
        let mut it = self.retrieve_iter();
        it.flags = it.flags | ITER_FLAG_EACH;
        loop
            invariant_except_break
                self.wf(*w),
                w.tables@ == old(w).tables@,
                w.lock_depth@ == old(w).lock_depth@,
                lock_balanced(*old(w), *w),
                forall|t: int|
                    0 <= t < w.lock_depth@.len() ==> (#[trigger] w.lock_depth@[t]) < u64::MAX,
                n_matches == self.matched@.len(),
                !it.done,
                it.pos <= n_matches,
                v.log() == old(v).log() + each_rows(*self, w.tables@, it.pos as int),
            ensures
                w.tables@ == old(w).tables@,
                w.lock_depth@ == old(w).lock_depth@,
                lock_balanced(*old(w), *w),
                v.log() == old(v).log() + each_rows(*self, w.tables@, n_matches as int),
            decreases n_matches - it.pos,
        {
            let more = self.iter_next(&mut it);
            if !more {
                break;
            }
            let ghost m: int = it.pos - 1;
            let tidx = self.matched[it.pos - 1];
            let ghost w_pre = *w;
            w.lock(tidx);
            proof {
                lemma_counts_push(w_pre.lock_log@, (true, tidx as int));
            }
            let ghost w_locked = *w;
            proof {
                assert(w.tables@ == w_pre.tables@);
                assert forall|m2: int| 0 <= m2 < self.matched@.len() implies (
                    #[trigger] self.match_table(*w, m2)) == self.match_table(w_pre, m2) by {
                }
                assert(self.wf(*w));
                assert(self.match_table(*w, m) == table_of(*self, w.tables@, m));
            }
            let tbl = &w.tables[tidx];
            let count = tbl.entities.len();
            let eff = if count == 0 {
                1
            } else {
                count
            };
            let mut i: usize = 0;
            while i < eff
                invariant
                    tbl.wf(),
                    *tbl == table_of(*self, w.tables@, m),
                    count == tbl.count(),
                    eff == eff_count(tbl.count()),
                    count == 0 ==> tbl.shared_only(),
                    i <= eff,
                    v.log() == old(v).log() + each_rows(*self, w.tables@, m) + match_rows(
                        *tbl,
                    ).take(i as int),
                decreases eff - i,
            {
                let row = tbl.build_row(i);
                v.visit(&row);
                proof {
                    assert(match_rows(*tbl).take(i + 1) =~= match_rows(*tbl).take(
                        i as int,
                    ).push(tbl.row(i as int)));
                }
                i = i + 1;
            }
            proof {
                assert(match_rows(*tbl).take(eff as int) =~= match_rows(*tbl));
                assert(each_rows(*self, w.tables@, it.pos as int) == each_rows(
                    *self,
                    w.tables@,
                    m,
                ) + match_rows(table_of(*self, w.tables@, m)));
            }
            w.unlock(tidx);
            proof {
                lemma_counts_push(w_locked.lock_log@, (false, tidx as int));
                assert(w.lock_depth@ =~= w_pre.lock_depth@);
                assert(w.tables@ == w_pre.tables@);
                assert forall|m2: int| 0 <= m2 < self.matched@.len() implies (
                    #[trigger] self.match_table(*w, m2)) == self.match_table(w_pre, m2) by {
                }
                assert(self.wf(*w));
            }
        }
    }

    /// Per-entity consumption with identity: like `each`, but the
    /// visitor also receives each row's entity identity, and a match
    /// with no concrete entities is still visited exactly once, with
    /// row index 0 and the null identity.
    pub fn each_entity<V: EntityRowVisitor>(&self, w: &mut World, v: &mut V)
        requires
            self.wf(*old(w)),
            forall|t: int|
                0 <= t < old(w).lock_depth@.len() ==> (#[trigger] old(w).lock_depth@[t])
                    < u64::MAX,
        ensures
            final(w).tables@ == old(w).tables@,
            final(w).lock_depth@ == old(w).lock_depth@,
            lock_balanced(*old(w), *final(w)),
            final(v).log() == old(v).log() + each_entity_rows(
                *self,
                old(w).tables@,
                self.matched@.len() as int,
            ),
    {
        let n_matches = self.matched.len();
        let mut it = self.retrieve_iter();
        it.flags = it.flags | ITER_FLAG_EACH;
        loop
            invariant_except_break
                self.wf(*w),
                w.tables@ == old(w).tables@,
                w.lock_depth@ == old(w).lock_depth@,
                lock_balanced(*old(w), *w),
                forall|t: int|
                    0 <= t < w.lock_depth@.len() ==> (#[trigger] w.lock_depth@[t]) < u64::MAX,
                n_matches == self.matched@.len(),
                !it.done,
                it.pos <= n_matches,
                v.log() == old(v).log() + each_entity_rows(*self, w.tables@, it.pos as int),
            ensures
                w.tables@ == old(w).tables@,
                w.lock_depth@ == old(w).lock_depth@,
                lock_balanced(*old(w), *w),
                v.log() == old(v).log() + each_entity_rows(*self, w.tables@, n_matches as int),
            decreases n_matches - it.pos,
        {
            let more = self.iter_next(&mut it);
            if !more {
                break;
            }
            let ghost m: int = it.pos - 1;
            let tidx = self.matched[it.pos - 1];
            let ghost w_pre = *w;
            w.lock(tidx);
            proof {
                lemma_counts_push(w_pre.lock_log@, (true, tidx as int));
            }
            let ghost w_locked = *w;
            proof {
                assert(w.tables@ == w_pre.tables@);
                assert forall|m2: int| 0 <= m2 < self.matched@.len() implies (
                    #[trigger] self.match_table(*w, m2)) == self.match_table(w_pre, m2) by {
                }
                assert(self.wf(*w));
                assert(self.match_table(*w, m) == table_of(*self, w.tables@, m));
            }
            let tbl = &w.tables[tidx];
            let count = tbl.entities.len();
            let eff = if count == 0 {
                1
            } else {
                count
            };
            let mut i: usize = 0;
            while i < eff
                invariant
                    tbl.wf(),
                    *tbl == table_of(*self, w.tables@, m),
                    count == tbl.count(),
                    eff == eff_count(tbl.count()),
                    count == 0 ==> tbl.shared_only(),
                    i <= eff,
                    v.log() == old(v).log() + each_entity_rows(*self, w.tables@, m)
                        + match_entity_rows(*tbl).take(i as int),
                decreases eff - i,
            {
                let row = tbl.build_row(i);
                let entity: u64 = if i < count {
                    tbl.entities[i]
                } else {
                    0
                };
                v.visit(entity, &row);
                proof {
                    assert(entity == tbl.entity_at(i as int));
                    assert(match_entity_rows(*tbl).take(i + 1) =~= match_entity_rows(
                        *tbl,
                    ).take(i as int).push((tbl.entity_at(i as int), tbl.row(i as int))));
                }
                i = i + 1;
            }
            proof {
                assert(match_entity_rows(*tbl).take(eff as int) =~= match_entity_rows(*tbl));
                assert(each_entity_rows(*self, w.tables@, it.pos as int) == each_entity_rows(
                    *self,
                    w.tables@,
                    m,
                ) + match_entity_rows(table_of(*self, w.tables@, m)));
            }
            w.unlock(tidx);
            proof {
                lemma_counts_push(w_locked.lock_log@, (false, tidx as int));
                assert(w.lock_depth@ =~= w_pre.lock_depth@);
                assert(w.tables@ == w_pre.tables@);
                assert forall|m2: int| 0 <= m2 < self.matched@.len() implies (
                    #[trigger] self.match_table(*w, m2)) == self.match_table(w_pre, m2) by {
                }
                assert(self.wf(*w));
            }
        }
    }

    /// First-match search: rows are handed to the predicate in visit
    /// order until it first answers true; that row's entity identity is
    /// returned and the cursor finalized at once, so no later row is
    /// ever asked about. `None` exactly when no row satisfies the
    /// predicate. A match with no concrete entities (shared-only
    /// terms) surfaces one row at index 0, like every per-entity
    /// pattern; a hit there yields the null identity.
    pub fn find<P: RowPredicate>(&self, w: &mut World, p: &mut P) -> (r: Option<u64>)
        requires
            self.wf(*old(w)),
            forall|t: int|
                0 <= t < old(w).lock_depth@.len() ==> (#[trigger] old(w).lock_depth@[t])
                    < u64::MAX,
        ensures
            final(w).tables@ == old(w).tables@,
            final(w).lock_depth@ == old(w).lock_depth@,
            lock_balanced(*old(w), *final(w)),
            forall|s: Seq<u64>| final(p).pred(s) == old(p).pred(s),
            (r is Some) == (exists|m: int, i: int|
                0 <= m < self.matched@.len() && 0 <= i < eff_count(
                    table_of(*self, old(w).tables@, m).count(),
                ) && old(p).pred(#[trigger] table_of(*self, old(w).tables@, m).row(i))),
            no_row_hit(*old(p), *self, old(w).tables@, self.matched@.len() as int) ==> (r is None
                && final(p).log() == old(p).log() + each_rows(
                *self,
                old(w).tables@,
                self.matched@.len() as int,
            )),
            forall|m: int, i: int|
                ({
                    &&& 0 <= m < self.matched@.len()
                    &&& 0 <= i < eff_count(table_of(*self, old(w).tables@, m).count())
                    &&& old(p).pred(#[trigger] table_of(*self, old(w).tables@, m).row(i))
                    &&& no_row_hit(*old(p), *self, old(w).tables@, m)
                    &&& no_row_hit_in(*old(p), table_of(*self, old(w).tables@, m), i)
                }) ==> (r == Some(table_of(*self, old(w).tables@, m).entity_at(i))
                    && final(p).log() == old(p).log() + each_rows(*self, old(w).tables@, m)
                    + match_rows(table_of(*self, old(w).tables@, m)).take(i + 1)),
    {
        let n_matches = self.matched.len();
        let mut it = self.retrieve_iter();
        loop
            invariant_except_break
                self.wf(*w),
                w.tables@ == old(w).tables@,
                w.lock_depth@ == old(w).lock_depth@,
                lock_balanced(*old(w), *w),
                forall|t: int|
                    0 <= t < w.lock_depth@.len() ==> (#[trigger] w.lock_depth@[t]) < u64::MAX,
                n_matches == self.matched@.len(),
                !it.done,
                it.pos <= n_matches,
                p.log() == old(p).log() + each_rows(*self, w.tables@, it.pos as int),
                forall|s: Seq<u64>| p.pred(s) == old(p).pred(s),
                no_row_hit(*old(p), *self, w.tables@, it.pos as int),
            ensures
                w.tables@ == old(w).tables@,
                w.lock_depth@ == old(w).lock_depth@,
                lock_balanced(*old(w), *w),
                p.log() == old(p).log() + each_rows(*self, w.tables@, n_matches as int),
                forall|s: Seq<u64>| p.pred(s) == old(p).pred(s),
                no_row_hit(*old(p), *self, w.tables@, n_matches as int),
            decreases n_matches - it.pos,
        {
            let more = self.iter_next(&mut it);
            if !more {
                break;
            }
            let ghost m: int = it.pos - 1;
            let tidx = self.matched[it.pos - 1];
            let ghost w_pre = *w;
            w.lock(tidx);
            proof {
                lemma_counts_push(w_pre.lock_log@, (true, tidx as int));
            }
            let ghost w_locked = *w;
            proof {
                assert(w.tables@ == w_pre.tables@);
                assert forall|m2: int| 0 <= m2 < self.matched@.len() implies (
                    #[trigger] self.match_table(*w, m2)) == self.match_table(w_pre, m2) by {
                }
                assert(self.wf(*w));
                assert(self.match_table(*w, m) == table_of(*self, w.tables@, m));
            }
            let tbl = &w.tables[tidx];
            let count = tbl.entities.len();
            let eff = if count == 0 {
                1
            } else {
                count
            };
            let mut i: usize = 0;
            let mut hit: bool = false;
            let mut found_entity: u64 = 0;
            loop
                invariant_except_break
                    !hit,
                    tbl.wf(),
                    *tbl == table_of(*self, w.tables@, m),
                    count == tbl.count(),
                    eff == eff_count(tbl.count()),
                    count == 0 ==> tbl.shared_only(),
                    i <= eff,
                    p.log() == old(p).log() + each_rows(*self, w.tables@, m) + match_rows(
                        *tbl,
                    ).take(i as int),
                    forall|s: Seq<u64>| p.pred(s) == old(p).pred(s),
                    no_row_hit_in(*old(p), *tbl, i as int),
                ensures
                    i <= eff,
                    eff == eff_count(tbl.count()),
                    forall|s: Seq<u64>| p.pred(s) == old(p).pred(s),
                    hit ==> i < eff && old(p).pred(tbl.row(i as int)) && no_row_hit_in(
                        *old(p),
                        *tbl,
                        i as int,
                    ) && p.log() == old(p).log() + each_rows(*self, w.tables@, m) + match_rows(
                        *tbl,
                    ).take(i + 1) && found_entity == tbl.entity_at(i as int),
                    !hit ==> i == eff && no_row_hit_in(*old(p), *tbl, eff as int) && p.log()
                        == old(p).log() + each_rows(*self, w.tables@, m) + match_rows(*tbl).take(
                        eff as int,
                    ),
                decreases eff - i,
            {
                if i >= eff {
                    break;
                }
                let row = tbl.build_row(i);
                let verdict = p.check(&row);
                proof {
                    assert(match_rows(*tbl).take(i + 1) =~= match_rows(*tbl).take(
                        i as int,
                    ).push(tbl.row(i as int)));
                }
                if verdict {
                    hit = true;
                    found_entity = if i < count {
                        tbl.entities[i]
                    } else {
                        0
                    };
                    proof {
                        assert(found_entity == tbl.entity_at(i as int));
                    }
                    break;
                }
                i = i + 1;
            }
            let ghost hit_i: int = i as int;
            proof {
                if !hit {
                    assert(match_rows(*tbl).take(eff as int) =~= match_rows(*tbl));
                    assert(each_rows(*self, w.tables@, it.pos as int) == each_rows(
                        *self,
                        w.tables@,
                        m,
                    ) + match_rows(table_of(*self, w.tables@, m)));
                }
            }
            w.unlock(tidx);
            proof {
                lemma_counts_push(w_locked.lock_log@, (false, tidx as int));
                assert(w.lock_depth@ =~= w_pre.lock_depth@);
                assert(w.tables@ == w_pre.tables@);
                assert forall|m2: int| 0 <= m2 < self.matched@.len() implies (
                    #[trigger] self.match_table(*w, m2)) == self.match_table(w_pre, m2) by {
                }
                assert(self.wf(*w));
            }
            if hit {
                iter_fini(&mut it);
                proof {
                    assert(old(p).pred(table_of(*self, w.tables@, m).row(hit_i)));
                }
                return Some(found_entity);
            }
        }
        None
    }

    /// First-match search with identity: each visited (identity, row)
    /// is handed to the predicate in visit order until it first answers
    /// true; that identity is returned and the cursor finalized at
    /// once. Zero-count matches are visited once, like `each_entity`.
    pub fn find_entity<P: EntityRowPredicate>(&self, w: &mut World, p: &mut P) -> (r: Option<
        u64,
    >)
        requires
            self.wf(*old(w)),
            forall|t: int|
                0 <= t < old(w).lock_depth@.len() ==> (#[trigger] old(w).lock_depth@[t])
                    < u64::MAX,
        ensures
            final(w).tables@ == old(w).tables@,
            final(w).lock_depth@ == old(w).lock_depth@,
            lock_balanced(*old(w), *final(w)),
            forall|e: u64, s: Seq<u64>| final(p).pred(e, s) == old(p).pred(e, s),
            (r is Some) == (exists|m: int, i: int|
                0 <= m < self.matched@.len() && 0 <= i < eff_count(
                    table_of(*self, old(w).tables@, m).count(),
                ) && old(p).pred(
                    table_of(*self, old(w).tables@, m).entity_at(i),
                    #[trigger] table_of(*self, old(w).tables@, m).row(i),
                )),
            no_pair_hit(*old(p), *self, old(w).tables@, self.matched@.len() as int) ==> (r
                is None && final(p).log() == old(p).log() + each_entity_rows(
                *self,
                old(w).tables@,
                self.matched@.len() as int,
            )),
            forall|m: int, i: int|
                ({
                    &&& 0 <= m < self.matched@.len()
                    &&& 0 <= i < eff_count(table_of(*self, old(w).tables@, m).count())
                    &&& old(p).pred(
                        table_of(*self, old(w).tables@, m).entity_at(i),
                        #[trigger] table_of(*self, old(w).tables@, m).row(i),
                    )
                    &&& no_pair_hit(*old(p), *self, old(w).tables@, m)
                    &&& no_pair_hit_in(*old(p), table_of(*self, old(w).tables@, m), i)
                }) ==> (r == Some(table_of(*self, old(w).tables@, m).entity_at(i))
                    && final(p).log() == old(p).log() + each_entity_rows(
                    *self,
                    old(w).tables@,
                    m,
                ) + match_entity_rows(table_of(*self, old(w).tables@, m)).take(i + 1)),
    {
        let n_matches = self.matched.len();
        let mut it = self.retrieve_iter();
        loop
            invariant_except_break
                self.wf(*w),
                w.tables@ == old(w).tables@,
                w.lock_depth@ == old(w).lock_depth@,
                lock_balanced(*old(w), *w),
                forall|t: int|
                    0 <= t < w.lock_depth@.len() ==> (#[trigger] w.lock_depth@[t]) < u64::MAX,
                n_matches == self.matched@.len(),
                !it.done,
                it.pos <= n_matches,
                p.log() == old(p).log() + each_entity_rows(*self, w.tables@, it.pos as int),
                forall|e: u64, s: Seq<u64>| p.pred(e, s) == old(p).pred(e, s),
                no_pair_hit(*old(p), *self, w.tables@, it.pos as int),
            ensures
                w.tables@ == old(w).tables@,
                w.lock_depth@ == old(w).lock_depth@,
                lock_balanced(*old(w), *w),
                p.log() == old(p).log() + each_entity_rows(*self, w.tables@, n_matches as int),
                forall|e: u64, s: Seq<u64>| p.pred(e, s) == old(p).pred(e, s),
                no_pair_hit(*old(p), *self, w.tables@, n_matches as int),
            decreases n_matches - it.pos,
        {
            let more = self.iter_next(&mut it);
            if !more {
                break;
            }
            let ghost m: int = it.pos - 1;
            let tidx = self.matched[it.pos - 1];
            let ghost w_pre = *w;
            w.lock(tidx);
            proof {
                lemma_counts_push(w_pre.lock_log@, (true, tidx as int));
            }
            let ghost w_locked = *w;
            proof {
                assert(w.tables@ == w_pre.tables@);
                assert forall|m2: int| 0 <= m2 < self.matched@.len() implies (
                    #[trigger] self.match_table(*w, m2)) == self.match_table(w_pre, m2) by {
                }
                assert(self.wf(*w));
                assert(self.match_table(*w, m) == table_of(*self, w.tables@, m));
            }
            let tbl = &w.tables[tidx];
            let count = tbl.entities.len();
            let eff = if count == 0 {
                1
            } else {
                count
            };
            let mut i: usize = 0;
            let mut hit: bool = false;
            let mut found_entity: u64 = 0;
            loop
                invariant_except_break
                    !hit,
                    tbl.wf(),
                    *tbl == table_of(*self, w.tables@, m),
                    count == tbl.count(),
                    eff == eff_count(tbl.count()),
                    count == 0 ==> tbl.shared_only(),
                    i <= eff,
                    p.log() == old(p).log() + each_entity_rows(*self, w.tables@, m)
                        + match_entity_rows(*tbl).take(i as int),
                    forall|e: u64, s: Seq<u64>| p.pred(e, s) == old(p).pred(e, s),
                    no_pair_hit_in(*old(p), *tbl, i as int),
                ensures
                    i <= eff,
                    eff == eff_count(tbl.count()),
                    forall|e: u64, s: Seq<u64>| p.pred(e, s) == old(p).pred(e, s),
                    hit ==> i < eff && old(p).pred(
                        tbl.entity_at(i as int),
                        tbl.row(i as int),
                    ) && no_pair_hit_in(*old(p), *tbl, i as int) && p.log() == old(p).log()
                        + each_entity_rows(*self, w.tables@, m) + match_entity_rows(*tbl).take(
                        i + 1,
                    ) && found_entity == tbl.entity_at(i as int),
                    !hit ==> i == eff && no_pair_hit_in(*old(p), *tbl, eff as int) && p.log()
                        == old(p).log() + each_entity_rows(*self, w.tables@, m)
                        + match_entity_rows(*tbl).take(eff as int),
                decreases eff - i,
            {
                if i >= eff {
                    break;
                }
                let row = tbl.build_row(i);
                let entity: u64 = if i < count {
                    tbl.entities[i]
                } else {
                    0
                };
                proof {
                    assert(entity == tbl.entity_at(i as int));
                }
                let verdict = p.check(entity, &row);
                proof {
                    assert(match_entity_rows(*tbl).take(i + 1) =~= match_entity_rows(
                        *tbl,
                    ).take(i as int).push((tbl.entity_at(i as int), tbl.row(i as int))));
                }
                if verdict {
                    hit = true;
                    found_entity = entity;
                    break;
                }
                i = i + 1;
            }
            let ghost hit_i: int = i as int;
            proof {
                if !hit {
                    assert(match_entity_rows(*tbl).take(eff as int) =~= match_entity_rows(
                        *tbl,
                    ));
                    assert(each_entity_rows(*self, w.tables@, it.pos as int)
                        == each_entity_rows(*self, w.tables@, m) + match_entity_rows(
                        table_of(*self, w.tables@, m),
                    ));
                }
            }
            w.unlock(tidx);
            proof {
                lemma_counts_push(w_locked.lock_log@, (false, tidx as int));
                assert(w.lock_depth@ =~= w_pre.lock_depth@);
                assert(w.tables@ == w_pre.tables@);
                assert forall|m2: int| 0 <= m2 < self.matched@.len() implies (
                    #[trigger] self.match_table(*w, m2)) == self.match_table(w_pre, m2) by {
                }
                assert(self.wf(*w));
            }
            if hit {
                iter_fini(&mut it);
                proof {
                    assert(old(p).pred(
                        table_of(*self, w.tables@, m).entity_at(hit_i),
                        table_of(*self, w.tables@, m).row(hit_i),
                    ));
                }
                return Some(found_entity);
            }
        }
        None
    }

    /// First-match search with cursor context: each visited (context,
    /// index, row) is handed to the predicate in visit order until it
    /// first answers true; that row's entity identity is returned and
    /// the cursor finalized at once. Zero-count matches are visited
    /// once, like `each_iter`.
    pub fn find_iter<P: ContextRowPredicate>(&self, w: &mut World, p: &mut P) -> (r: Option<
        u64,
    >)
        requires
            self.wf(*old(w)),
            forall|t: int|
                0 <= t < old(w).lock_depth@.len() ==> (#[trigger] old(w).lock_depth@[t])
                    < u64::MAX,
        ensures
            final(w).tables@ == old(w).tables@,
            final(w).lock_depth@ == old(w).lock_depth@,
            lock_balanced(*old(w), *final(w)),
            forall|c: MatchInfo, i: int, s: Seq<u64>|
                final(p).pred(c, i, s) == old(p).pred(c, i, s),
            (r is Some) == (exists|m: int, i: int|
                0 <= m < self.matched@.len() && 0 <= i < eff_count(
                    table_of(*self, old(w).tables@, m).count(),
                ) && old(p).pred(
                    minfo(*self, old(w).tables@, m, 0),
                    i,
                    #[trigger] table_of(*self, old(w).tables@, m).row(i),
                )),
            no_ctx_hit(*old(p), *self, old(w).tables@, self.matched@.len() as int, 0) ==> (r
                is None && final(p).log() == old(p).log() + each_iter_rows(
                *self,
                old(w).tables@,
                self.matched@.len() as int,
                0,
            )),
            forall|m: int, i: int|
                ({
                    &&& 0 <= m < self.matched@.len()
                    &&& 0 <= i < eff_count(table_of(*self, old(w).tables@, m).count())
                    &&& old(p).pred(
                        minfo(*self, old(w).tables@, m, 0),
                        i,
                        #[trigger] table_of(*self, old(w).tables@, m).row(i),
                    )
                    &&& no_ctx_hit(*old(p), *self, old(w).tables@, m, 0)
                    &&& no_ctx_hit_in(
                        *old(p),
                        minfo(*self, old(w).tables@, m, 0),
                        table_of(*self, old(w).tables@, m),
                        i,
                    )
                }) ==> (r == Some(table_of(*self, old(w).tables@, m).entity_at(i))
                    && final(p).log() == old(p).log() + each_iter_rows(
                    *self,
                    old(w).tables@,
                    m,
                    0,
                ) + match_ctx_rows(*self, old(w).tables@, m, 0).take(i + 1)),
    {
        let n_matches = self.matched.len();
        let mut it = self.retrieve_iter();
        loop
            invariant_except_break
                self.wf(*w),
                w.tables@ == old(w).tables@,
                w.lock_depth@ == old(w).lock_depth@,
                lock_balanced(*old(w), *w),
                forall|t: int|
                    0 <= t < w.lock_depth@.len() ==> (#[trigger] w.lock_depth@[t]) < u64::MAX,
                n_matches == self.matched@.len(),
                !it.done,
                it.pos <= n_matches,
                it.flags == 0,
                p.log() == old(p).log() + each_iter_rows(*self, w.tables@, it.pos as int, 0),
                forall|c: MatchInfo, i: int, s: Seq<u64>| p.pred(c, i, s) == old(p).pred(c, i, s),
                no_ctx_hit(*old(p), *self, w.tables@, it.pos as int, 0),
            ensures
                w.tables@ == old(w).tables@,
                w.lock_depth@ == old(w).lock_depth@,
                lock_balanced(*old(w), *w),
                p.log() == old(p).log() + each_iter_rows(*self, w.tables@, n_matches as int, 0),
                forall|c: MatchInfo, i: int, s: Seq<u64>| p.pred(c, i, s) == old(p).pred(c, i, s),
                no_ctx_hit(*old(p), *self, w.tables@, n_matches as int, 0),
            decreases n_matches - it.pos,
        {
            let more = self.iter_next(&mut it);
            if !more {
                break;
            }
            let ghost m: int = it.pos - 1;
            let tidx = self.matched[it.pos - 1];
            let ghost w_pre = *w;
            w.lock(tidx);
            proof {
                lemma_counts_push(w_pre.lock_log@, (true, tidx as int));
            }
            let ghost w_locked = *w;
            proof {
                assert(w.tables@ == w_pre.tables@);
                assert forall|m2: int| 0 <= m2 < self.matched@.len() implies (
                    #[trigger] self.match_table(*w, m2)) == self.match_table(w_pre, m2) by {
                }
                assert(self.wf(*w));
                assert(self.match_table(*w, m) == table_of(*self, w.tables@, m));
            }
            let tbl = &w.tables[tidx];
            let count = tbl.entities.len();
            let eff = if count == 0 {
                1
            } else {
                count
            };
            let ctx = MatchInfo { table: tidx, count, flags: it.flags };
            proof {
                assert(ctx == minfo(*self, w.tables@, m, 0));
            }
            let mut i: usize = 0;
            let mut hit: bool = false;
            let mut found_entity: u64 = 0;
            loop
                invariant_except_break
                    !hit,
                    tbl.wf(),
                    *tbl == table_of(*self, w.tables@, m),
                    count == tbl.count(),
                    eff == eff_count(tbl.count()),
                    count == 0 ==> tbl.shared_only(),
                    ctx == minfo(*self, w.tables@, m, 0),
                    i <= eff,
                    p.log() == old(p).log() + each_iter_rows(*self, w.tables@, m, 0)
                        + match_ctx_rows(*self, w.tables@, m, 0).take(i as int),
                    forall|c: MatchInfo, i2: int, s: Seq<u64>|
                        p.pred(c, i2, s) == old(p).pred(c, i2, s),
                    no_ctx_hit_in(*old(p), ctx, *tbl, i as int),
                ensures
                    i <= eff,
                    eff == eff_count(tbl.count()),
                    ctx == minfo(*self, w.tables@, m, 0),
                    forall|c: MatchInfo, i2: int, s: Seq<u64>|
                        p.pred(c, i2, s) == old(p).pred(c, i2, s),
                    hit ==> i < eff && old(p).pred(ctx, i as int, tbl.row(i as int))
                        && no_ctx_hit_in(*old(p), ctx, *tbl, i as int) && p.log() == old(
                        p,
                    ).log() + each_iter_rows(*self, w.tables@, m, 0) + match_ctx_rows(
                        *self,
                        w.tables@,
                        m,
                        0,
                    ).take(i + 1) && found_entity == tbl.entity_at(i as int),
                    !hit ==> i == eff && no_ctx_hit_in(*old(p), ctx, *tbl, eff as int)
                        && p.log() == old(p).log() + each_iter_rows(*self, w.tables@, m, 0)
                        + match_ctx_rows(*self, w.tables@, m, 0).take(eff as int),
                decreases eff - i,
            {
                if i >= eff {
                    break;
                }
                let row = tbl.build_row(i);
                let verdict = p.check(&ctx, i, &row);
                proof {
                    assert(match_ctx_rows(*self, w.tables@, m, 0).take(i + 1)
                        =~= match_ctx_rows(*self, w.tables@, m, 0).take(i as int).push(
                        (ctx, i as int, tbl.row(i as int)),
                    ));
                }
                if verdict {
                    hit = true;
                    found_entity = if i < count {
                        tbl.entities[i]
                    } else {
                        0
                    };
                    proof {
                        assert(found_entity == tbl.entity_at(i as int));
                    }
                    break;
                }
                i = i + 1;
            }
            let ghost hit_i: int = i as int;
            proof {
                if !hit {
                    assert(match_ctx_rows(*self, w.tables@, m, 0).take(eff as int)
                        =~= match_ctx_rows(*self, w.tables@, m, 0));
                    assert(each_iter_rows(*self, w.tables@, it.pos as int, 0) == each_iter_rows(
                        *self,
                        w.tables@,
                        m,
                        0,
                    ) + match_ctx_rows(*self, w.tables@, m, 0));
                }
            }
            w.unlock(tidx);
            proof {
                lemma_counts_push(w_locked.lock_log@, (false, tidx as int));
                assert(w.lock_depth@ =~= w_pre.lock_depth@);
                assert(w.tables@ == w_pre.tables@);
                assert forall|m2: int| 0 <= m2 < self.matched@.len() implies (
                    #[trigger] self.match_table(*w, m2)) == self.match_table(w_pre, m2) by {
                }
                assert(self.wf(*w));
            }
            if hit {
                iter_fini(&mut it);
                proof {
                    assert(old(p).pred(
                        minfo(*self, w.tables@, m, 0),
                        hit_i,
                        table_of(*self, w.tables@, m).row(hit_i),
                    ));
                }
                return Some(found_entity);
            }
        }
        None
    }

    /// Per-entity consumption with cursor context: the visitor receives
    /// the match context, the row index inside the match and the row; a
    /// match with no concrete entities is visited exactly once, with
    /// row index 0.
    pub fn each_iter<V: ContextRowVisitor>(&self, w: &mut World, v: &mut V)
        requires
            self.wf(*old(w)),
            forall|t: int|
                0 <= t < old(w).lock_depth@.len() ==> (#[trigger] old(w).lock_depth@[t])
                    < u64::MAX,
        ensures
            final(w).tables@ == old(w).tables@,
            final(w).lock_depth@ == old(w).lock_depth@,
            lock_balanced(*old(w), *final(w)),
            final(v).log() == old(v).log() + each_iter_rows(
                *self,
                old(w).tables@,
                self.matched@.len() as int,
                ITER_FLAG_EACH,
            ),
    {
        let n_matches = self.matched.len();
        let mut it = self.retrieve_iter();
        it.flags = it.flags | ITER_FLAG_EACH;
        proof {
            assert((0u64 | 1u64) == 1u64) by (bit_vector);
        }
        loop
            invariant_except_break
                self.wf(*w),
                w.tables@ == old(w).tables@,
                w.lock_depth@ == old(w).lock_depth@,
                lock_balanced(*old(w), *w),
                forall|t: int|
                    0 <= t < w.lock_depth@.len() ==> (#[trigger] w.lock_depth@[t]) < u64::MAX,
                n_matches == self.matched@.len(),
                !it.done,
                it.pos <= n_matches,
                it.flags == ITER_FLAG_EACH,
                v.log() == old(v).log() + each_iter_rows(
                    *self,
                    w.tables@,
                    it.pos as int,
                    ITER_FLAG_EACH,
                ),
            ensures
                w.tables@ == old(w).tables@,
                w.lock_depth@ == old(w).lock_depth@,
                lock_balanced(*old(w), *w),
                v.log() == old(v).log() + each_iter_rows(
                    *self,
                    w.tables@,
                    n_matches as int,
                    ITER_FLAG_EACH,
                ),
            decreases n_matches - it.pos,
        {
            let more = self.iter_next(&mut it);
            if !more {
                break;
            }
            let ghost m: int = it.pos - 1;
            let tidx = self.matched[it.pos - 1];
            let ghost w_pre = *w;
            w.lock(tidx);
            proof {
                lemma_counts_push(w_pre.lock_log@, (true, tidx as int));
            }
            let ghost w_locked = *w;
            proof {
                assert(w.tables@ == w_pre.tables@);
                assert forall|m2: int| 0 <= m2 < self.matched@.len() implies (
                    #[trigger] self.match_table(*w, m2)) == self.match_table(w_pre, m2) by {
                }
                assert(self.wf(*w));
                assert(self.match_table(*w, m) == table_of(*self, w.tables@, m));
            }
            let tbl = &w.tables[tidx];
            let count = tbl.entities.len();
            let eff = if count == 0 {
                1
            } else {
                count
            };
            let ctx = MatchInfo { table: tidx, count, flags: it.flags };
            proof {
                assert(ctx == minfo(*self, w.tables@, m, ITER_FLAG_EACH));
            }
            let mut i: usize = 0;
            while i < eff
                invariant
                    tbl.wf(),
                    *tbl == table_of(*self, w.tables@, m),
                    count == tbl.count(),
                    eff == eff_count(tbl.count()),
                    count == 0 ==> tbl.shared_only(),
                    ctx == minfo(*self, w.tables@, m, ITER_FLAG_EACH),
                    i <= eff,
                    v.log() == old(v).log() + each_iter_rows(
                        *self,
                        w.tables@,
                        m,
                        ITER_FLAG_EACH,
                    ) + match_ctx_rows(*self, w.tables@, m, ITER_FLAG_EACH).take(i as int),
                decreases eff - i,
            {
                let row = tbl.build_row(i);
                v.visit(&ctx, i, &row);
                proof {
                    assert(match_ctx_rows(*self, w.tables@, m, ITER_FLAG_EACH).take(i + 1)
                        =~= match_ctx_rows(*self, w.tables@, m, ITER_FLAG_EACH).take(
                        i as int,
                    ).push((ctx, i as int, tbl.row(i as int))));
                }
                i = i + 1;
            }
            proof {
                assert(match_ctx_rows(*self, w.tables@, m, ITER_FLAG_EACH).take(eff as int)
                    =~= match_ctx_rows(*self, w.tables@, m, ITER_FLAG_EACH));
                assert(each_iter_rows(*self, w.tables@, it.pos as int, ITER_FLAG_EACH)
                    == each_iter_rows(*self, w.tables@, m, ITER_FLAG_EACH) + match_ctx_rows(
                    *self,
                    w.tables@,
                    m,
                    ITER_FLAG_EACH,
                ));
            }
            w.unlock(tidx);
            proof {
                lemma_counts_push(w_locked.lock_log@, (false, tidx as int));
                assert(w.lock_depth@ =~= w_pre.lock_depth@);
                assert(w.tables@ == w_pre.tables@);
                assert forall|m2: int| 0 <= m2 < self.matched@.len() implies (
                    #[trigger] self.match_table(*w, m2)) == self.match_table(w_pre, m2) by {
                }
                assert(self.wf(*w));
            }
        }
    }

    /// Per-table consumption: the visitor is invoked once per match
    /// with the match context and one slice per field — the whole
    /// column for an owned field, the single value for a shared one.
    pub fn iter<V: SliceVisitor>(&self, w: &mut World, v: &mut V)
        requires
            self.wf(*old(w)),
            forall|t: int|
                0 <= t < old(w).lock_depth@.len() ==> (#[trigger] old(w).lock_depth@[t])
                    < u64::MAX,
        ensures
            final(w).tables@ == old(w).tables@,
            final(w).lock_depth@ == old(w).lock_depth@,
            lock_balanced(*old(w), *final(w)),
            final(v).log() == old(v).log() + iter_entries(
                *self,
                old(w).tables@,
                self.matched@.len() as int,
                0,
            ),
    {
        let n_matches = self.matched.len();
        let mut it = self.retrieve_iter();
        loop
            invariant_except_break
                self.wf(*w),
                w.tables@ == old(w).tables@,
                w.lock_depth@ == old(w).lock_depth@,
                lock_balanced(*old(w), *w),
                forall|t: int|
                    0 <= t < w.lock_depth@.len() ==> (#[trigger] w.lock_depth@[t]) < u64::MAX,
                n_matches == self.matched@.len(),
                !it.done,
                it.pos <= n_matches,
                it.flags == 0,
                v.log() == old(v).log() + iter_entries(*self, w.tables@, it.pos as int, 0),
            ensures
                w.tables@ == old(w).tables@,
                w.lock_depth@ == old(w).lock_depth@,
                lock_balanced(*old(w), *w),
                v.log() == old(v).log() + iter_entries(*self, w.tables@, n_matches as int, 0),
            decreases n_matches - it.pos,
        {
            let more = self.iter_next(&mut it);
            if !more {
                break;
            }
            let ghost m: int = it.pos - 1;
            let tidx = self.matched[it.pos - 1];
            let ghost w_pre = *w;
            w.lock(tidx);
            proof {
                lemma_counts_push(w_pre.lock_log@, (true, tidx as int));
            }
            let ghost w_locked = *w;
            proof {
                assert(w.tables@ == w_pre.tables@);
                assert forall|m2: int| 0 <= m2 < self.matched@.len() implies (
                    #[trigger] self.match_table(*w, m2)) == self.match_table(w_pre, m2) by {
                }
                assert(self.wf(*w));
                assert(self.match_table(*w, m) == table_of(*self, w.tables@, m));
            }
            let tbl = &w.tables[tidx];
            let count = tbl.entities.len();
            let ctx = MatchInfo { table: tidx, count, flags: it.flags };
            let slices = tbl.build_slices();
            v.visit(&ctx, &slices);
            proof {
                assert(ctx == minfo(*self, w.tables@, m, 0));
                assert(iter_entries(*self, w.tables@, it.pos as int, 0) =~= iter_entries(
                    *self,
                    w.tables@,
                    m,
                    0,
                ).push((ctx, tbl.slices())));
            }
            w.unlock(tidx);
            proof {
                lemma_counts_push(w_locked.lock_log@, (false, tidx as int));
                assert(w.lock_depth@ =~= w_pre.lock_depth@);
                assert(w.tables@ == w_pre.tables@);
                assert forall|m2: int| 0 <= m2 < self.matched@.len() implies (
                    #[trigger] self.match_table(*w, m2)) == self.match_table(w_pre, m2) by {
                }
                assert(self.wf(*w));
            }
        }
    }

    /// Per-table consumption without field data: the visitor is invoked
    /// once per match with the match context alone.
    pub fn iter_only<V: MatchVisitor>(&self, w: &mut World, v: &mut V)
        requires
            self.wf(*old(w)),
            forall|t: int|
                0 <= t < old(w).lock_depth@.len() ==> (#[trigger] old(w).lock_depth@[t])
                    < u64::MAX,
        ensures
            final(w).tables@ == old(w).tables@,
            final(w).lock_depth@ == old(w).lock_depth@,
            lock_balanced(*old(w), *final(w)),
            final(v).log() == old(v).log() + iter_infos(
                *self,
                old(w).tables@,
                self.matched@.len() as int,
                0,
            ),
    {
        let n_matches = self.matched.len();
        let mut it = self.retrieve_iter();
        loop
            invariant_except_break
                self.wf(*w),
                w.tables@ == old(w).tables@,
                w.lock_depth@ == old(w).lock_depth@,
                lock_balanced(*old(w), *w),
                forall|t: int|
                    0 <= t < w.lock_depth@.len() ==> (#[trigger] w.lock_depth@[t]) < u64::MAX,
                n_matches == self.matched@.len(),
                !it.done,
                it.pos <= n_matches,
                it.flags == 0,
                v.log() == old(v).log() + iter_infos(*self, w.tables@, it.pos as int, 0),
            ensures
                w.tables@ == old(w).tables@,
                w.lock_depth@ == old(w).lock_depth@,
                lock_balanced(*old(w), *w),
                v.log() == old(v).log() + iter_infos(*self, w.tables@, n_matches as int, 0),
            decreases n_matches - it.pos,
        {
            let more = self.iter_next(&mut it);
            if !more {
                break;
            }
            let ghost m: int = it.pos - 1;
            let tidx = self.matched[it.pos - 1];
            let ghost w_pre = *w;
            w.lock(tidx);
            proof {
                lemma_counts_push(w_pre.lock_log@, (true, tidx as int));
            }
            let ghost w_locked = *w;
            proof {
                assert(w.tables@ == w_pre.tables@);
                assert forall|m2: int| 0 <= m2 < self.matched@.len() implies (
                    #[trigger] self.match_table(*w, m2)) == self.match_table(w_pre, m2) by {
                }
                assert(self.wf(*w));
                assert(self.match_table(*w, m) == table_of(*self, w.tables@, m));
            }
            let tbl = &w.tables[tidx];
            let count = tbl.entities.len();
            let ctx = MatchInfo { table: tidx, count, flags: it.flags };
            v.visit(&ctx);
            proof {
                assert(ctx == minfo(*self, w.tables@, m, 0));
                assert(iter_infos(*self, w.tables@, it.pos as int, 0) =~= iter_infos(
                    *self,
                    w.tables@,
                    m,
                    0,
                ).push(ctx));
            }
            w.unlock(tidx);
            proof {
                lemma_counts_push(w_locked.lock_log@, (false, tidx as int));
                assert(w.lock_depth@ =~= w_pre.lock_depth@);
                assert(w.tables@ == w_pre.tables@);
                assert forall|m2: int| 0 <= m2 < self.matched@.len() implies (
                    #[trigger] self.match_table(*w, m2)) == self.match_table(w_pre, m2) by {
                }
                assert(self.wf(*w));
            }
        }
    }

    /// Term enumeration: the visitor receives each term of the query in
    /// declared order, read-only.
    pub fn each_term<V: TermVisitor>(&self, v: &mut V)
        ensures
            final(v).log() == old(v).log() + self.terms@,
    {
        let n = self.terms.len();
        let mut j: usize = 0;
        while j < n
            invariant
                n == self.terms@.len(),
                j <= n,
                v.log() == old(v).log() + self.terms@.take(j as int),
            decreases n - j,
        {
            let t = self.terms[j];
            v.visit(&t);
            proof {
                assert(self.terms@.take(j + 1) =~= self.terms@.take(j as int).push(
                    self.terms@[j as int],
                ));
            }
            j = j + 1;
        }
        proof {
            assert(self.terms@.take(n as int) =~= self.terms@);
        }
    }
}

} // verus!
