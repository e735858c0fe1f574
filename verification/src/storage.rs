//! Storage model: tables of entities with per-field columns, and the
//! world that owns them together with the per-table lock state.

use vstd::prelude::*;

verus! {

/// One queried field of a table: either a column owning one value per
/// entity row, or a single value shared by every entity of the match
/// (from a parent, prefab or singleton source).
#[derive(Clone, PartialEq, Eq, Debug)]
pub enum FieldColumn {
    Owned(Vec<u64>),
    Shared(u64),
}

impl FieldColumn {
    /// Whether this field applies identically to every entity in a match.
    pub open spec fn is_shared(self) -> bool {
        self is Shared
    }

    /// The value this field shows at row `i`. A shared field ignores the
    /// row index: every row observes the one shared value.
    pub open spec fn value_at(self, i: int) -> u64 {
        match self {
            FieldColumn::Owned(v) => v@[i],
            FieldColumn::Shared(x) => x,
        }
    }
}

/// A storage partition holding all entities that share one component
/// set, restricted here to the fields a query asked for.
#[derive(Clone, PartialEq, Eq, Debug)]
pub struct Table {
    /// The entity identifiers stored in this table, in row order.
    pub entities: Vec<u64>,
    /// One column per queried field.
    pub fields: Vec<FieldColumn>,
}

impl Table {
    /// Every owned column has exactly one value per entity row.
    pub open spec fn wf(self) -> bool {
        forall|k: int|
            0 <= k < self.fields@.len() && !(#[trigger] self.fields@[k]).is_shared()
                ==> self.fields@[k]->Owned_0@.len() == self.entities@.len()
    }

    /// Number of concrete entity rows.
    pub open spec fn count(self) -> nat {
        self.entities@.len()
    }

    /// The typed row tuple an entity at row `i` observes: one value per
    /// field, in declared field order; shared fields broadcast.
    pub open spec fn row(self, i: int) -> Seq<u64> {
        Seq::new(self.fields@.len(), |k: int| self.fields@[k].value_at(i))
    }

    /// The entity identifier surfaced for row `i`; the null identifier 0
    /// when the table holds no concrete entities (a shared-only match).
    pub open spec fn entity_at(self, i: int) -> u64 {
        if 0 <= i < self.entities@.len() {
            self.entities@[i]
        } else {
            0
        }
    }

    /// Every field of this table is shared. A match with no concrete
    /// entities can only arise from shared-only terms.
    pub open spec fn shared_only(self) -> bool {
        forall|k: int| 0 <= k < self.fields@.len() ==> (#[trigger] self.fields@[k]).is_shared()
    }

    /// The per-field whole-table slices, in declared field order.
    pub open spec fn slices(self) -> Seq<Seq<u64>> {
        Seq::new(self.fields@.len(), |k: int| col_slice(self.fields@[k]))
    }

    /// Build the typed row tuple for row `i`: the field pointers are
    /// set up once per match, and a shared field always reads its
    /// single value whatever the row index.
    pub fn build_row(&self, i: usize) -> (r: Vec<u64>)
        requires
            self.wf(),
            i < eff_count(self.count()),
            self.count() == 0 ==> self.shared_only(),
        ensures
            r@ == self.row(i as int),
    {
        let mut r: Vec<u64> = Vec::new();
        let mut k: usize = 0;
        while k < self.fields.len()
            invariant
                self.wf(),
                i < eff_count(self.count()),
                self.count() == 0 ==> self.shared_only(),
                k <= self.fields@.len(),
                r@.len() == k,
                forall|k2: int| 0 <= k2 < k ==> r@[k2] == self.row(i as int)[k2],
            decreases self.fields@.len() - k,
        {
            let v: u64 = match &self.fields[k] {
                FieldColumn::Owned(col) => {
                    proof {
                        assert(!self.fields@[k as int].is_shared());
                        assert(self.count() > 0);
                    }
                    col[i]
                },
                FieldColumn::Shared(x) => *x,
            };
            r.push(v);
            k = k + 1;
        }
        proof {
            assert(r@ =~= self.row(i as int));
        }
        r
    }

    /// Build the per-field whole-table slices: the full column for an
    /// owned field, a one-value slice for a shared one.
    pub fn build_slices(&self) -> (r: Vec<Vec<u64>>)
        requires
            self.wf(),
        ensures
            rows_view(r@) == self.slices(),
    {
        let mut r: Vec<Vec<u64>> = Vec::new();
        let mut k: usize = 0;
        while k < self.fields.len()
            invariant
                k <= self.fields@.len(),
                r@.len() == k,
                forall|k2: int| 0 <= k2 < k ==> (#[trigger] r@[k2])@ == col_slice(
                    self.fields@[k2],
                ),
            decreases self.fields@.len() - k,
        {
            let one: Vec<u64> = match &self.fields[k] {
                FieldColumn::Owned(col) => copy_row(col),
                FieldColumn::Shared(x) => {
                    let mut s: Vec<u64> = Vec::new();
                    s.push(*x);
                    proof {
                        assert(s@ =~= seq![*x]);
                    }
                    s
                },
            };
            r.push(one);
            k = k + 1;
        }
        proof {
            assert(rows_view(r@) =~= self.slices());
        }
        r
    }
}

/// Every lock acquisition recorded since the earlier state is matched
/// by a release recorded since then, and the other way round: the two
/// event counts grew by the same amount.
pub open spec fn lock_balanced(pre: World, post: World) -> bool {
    acquire_count(post.lock_log@) + release_count(pre.lock_log@) == release_count(post.lock_log@)
        + acquire_count(pre.lock_log@)
}

/// The sequence of row views a vector of row tuples stands for.
pub open spec fn rows_view(v: Seq<Vec<u64>>) -> Seq<Seq<u64>> {
    Seq::new(v.len(), |i: int| v[i]@)
}

/// Copy a row tuple.
pub fn copy_row(row: &Vec<u64>) -> (r: Vec<u64>)
    ensures
        r@ == row@,
{
    let mut r: Vec<u64> = Vec::new();
    let mut k: usize = 0;
    while k < row.len()
        invariant
            k <= row@.len(),
            r@ == row@.take(k as int),
        decreases row@.len() - k,
    {
        r.push(row[k]);
        k = k + 1;
        proof {
            assert(r@ =~= row@.take(k as int));
        }
    }
    proof {
        assert(row@.take(row@.len() as int) =~= row@);
    }
    r
}

/// The whole-table slice of one field: the column itself for an owned
/// field, the single shared value for a shared one.
pub open spec fn col_slice(c: FieldColumn) -> Seq<u64> {
    match c {
        FieldColumn::Owned(v) => v@,
        FieldColumn::Shared(x) => seq![x],
    }
}

/// How many rows a per-entity pattern visits in one match: a match
/// with no concrete entities still stands for one logical match
/// (shared-only terms), so every per-entity pattern — consumption and
/// search alike — visits exactly one row there, at index 0.
pub open spec fn eff_count(c: nat) -> nat {
    if c == 0 {
        1
    } else {
        c
    }
}

/// Shared-field broadcast: when field `k` of a well-formed table is
/// shared, every row tuple observes the same value for that field.
pub proof fn lemma_shared_field_broadcast(t: Table, k: int, i: int, j: int)
    requires
        t.wf(),
        0 <= k < t.fields@.len(),
        t.fields@[k].is_shared(),
    ensures
        t.row(i)[k] == t.row(j)[k],
{
}

/// Count of lock acquisitions recorded in a lock event log. An event is
/// `(true, t)` for acquiring the lock of table `t`, `(false, t)` for
/// releasing it.
pub open spec fn acquire_count(log: Seq<(bool, int)>) -> nat
    decreases log.len(),
{
    if log.len() == 0 {
        0
    } else {
        acquire_count(log.drop_last()) + if log.last().0 {
            1nat
        } else {
            0nat
        }
    }
}

/// Count of lock releases recorded in a lock event log.
pub open spec fn release_count(log: Seq<(bool, int)>) -> nat
    decreases log.len(),
{
    if log.len() == 0 {
        0
    } else {
        release_count(log.drop_last()) + if log.last().0 {
            0nat
        } else {
            1nat
        }
    }
}

pub proof fn lemma_counts_push(log: Seq<(bool, int)>, e: (bool, int))
    ensures
        acquire_count(log.push(e)) == acquire_count(log) + if e.0 {
            1nat
        } else {
            0nat
        },
        release_count(log.push(e)) == release_count(log) + if e.0 {
            0nat
        } else {
            1nat
        },
{
    assert(log.push(e).drop_last() == log);
    assert(log.push(e).last() == e);
}

/// The world: the tables, a parallel per-table lock depth, and a ghost
/// log of every lock acquisition and release, in order.
pub struct World {
    pub tables: Vec<Table>,
    pub lock_depth: Vec<u64>,
    pub lock_log: Ghost<Seq<(bool, int)>>,
}

impl World {
    /// One lock-depth slot per table, and every table well formed.
    pub open spec fn wf(self) -> bool {
        &&& self.lock_depth@.len() == self.tables@.len()
        &&& forall|t: int| 0 <= t < self.tables@.len() ==> (#[trigger] self.tables@[t]).wf()
    }

    /// An empty world.
    pub fn new() -> (w: World)
        ensures
            w.wf(),
            w.tables@.len() == 0,
            w.lock_log@.len() == 0,
    {
        World { tables: Vec::new(), lock_depth: Vec::new(), lock_log: Ghost(Seq::empty()) }
    }

    /// Add a table to the world, returning its index.
    pub fn add_table(&mut self, t: Table) -> (idx: usize)
        requires
            old(self).wf(),
            t.wf(),
        ensures
            final(self).wf(),
            idx == old(self).tables@.len(),
            final(self).tables@ == old(self).tables@.push(t),
            final(self).lock_depth@ == old(self).lock_depth@.push(0u64),
            final(self).lock_log == old(self).lock_log,
    {
        let idx = self.tables.len();
        self.tables.push(t);
        self.lock_depth.push(0);
        idx
    }

    /// Acquire the structural lock of table `t`: while held, structural
    /// mutation of that table is deferred, so the pointers of the
    /// current match stay valid.
    pub fn lock(&mut self, t: usize)
        requires
            old(self).wf(),
            t < old(self).tables@.len(),
            old(self).lock_depth@[t as int] < u64::MAX,
        ensures
            final(self).wf(),
            final(self).tables == old(self).tables,
            final(self).lock_depth@ == old(self).lock_depth@.update(
                t as int,
                (old(self).lock_depth@[t as int] + 1) as u64,
            ),
            final(self).lock_log@ == old(self).lock_log@.push((true, t as int)),
    {
        let d = self.lock_depth[t];
        self.lock_depth.set(t, d + 1);
        proof {
            self.lock_log@ = self.lock_log@.push((true, t as int));
        }
    }

    /// Release the structural lock of table `t`.
    pub fn unlock(&mut self, t: usize)
        requires
            old(self).wf(),
            t < old(self).tables@.len(),
            old(self).lock_depth@[t as int] > 0,
        ensures
            final(self).wf(),
            final(self).tables == old(self).tables,
            final(self).lock_depth@ == old(self).lock_depth@.update(
                t as int,
                (old(self).lock_depth@[t as int] - 1) as u64,
            ),
            final(self).lock_log@ == old(self).lock_log@.push((false, t as int)),
    {
        let d = self.lock_depth[t];
        self.lock_depth.set(t, d - 1);
        proof {
            self.lock_log@ = self.lock_log@.push((false, t as int));
        }
    }
}

} // verus!
