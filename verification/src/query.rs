//! The prepared query: its term list, field count, variable names and
//! the table indices its plan matches, with read-only introspection.

use vstd::prelude::*;
use vstd::string::StringExecFns;
use crate::id::Id;
use crate::storage::{Table, World};
use crate::cursor::{CursorState, IterIterable, IterOperations, fresh_cursor};

verus! {

/// One term of a query: the element it constrains a field to.
#[derive(Clone, Copy, PartialEq, Eq, Structural, Debug)]
pub struct Term {
    pub id: Id,
}

/// A prepared query. This core treats it as read-only: the planner that
/// built it is an external collaborator, modeled here by the list of
/// table indices its plan matches, in plan order.
#[derive(Clone, PartialEq, Eq, Debug)]
pub struct Query {
    /// Identifier of the query entity itself.
    pub entity: u64,
    /// The declarative terms the query was built from.
    pub terms: Vec<Term>,
    /// Number of data fields each match exposes.
    pub n_fields: usize,
    /// Names of the query variables, by variable index.
    pub var_names: Vec<String>,
    /// Indices of the matching tables, in the order the plan visits
    /// them.
    pub matched: Vec<usize>,
}

impl Query {
    /// The query is consistent with the world it was prepared for:
    /// every matched table exists, is well formed and exposes exactly
    /// the query's fields.
    pub open spec fn wf(self, w: World) -> bool {
        &&& w.wf()
        &&& self.n_fields <= 127
        &&& self.terms@.len() <= u32::MAX
        &&& self.var_names@.len() <= i32::MAX
        &&& forall|m: int|
            0 <= m < self.matched@.len() ==> (#[trigger] self.matched@[m]) < w.tables@.len()
        &&& forall|m: int|
            0 <= m < self.matched@.len() ==> (#[trigger] self.match_table(w, m)).fields@.len()
                == self.n_fields
        &&& forall|m: int|
            0 <= m < self.matched@.len() && (#[trigger] self.match_table(w, m)).count() == 0
                ==> self.match_table(w, m).shared_only()
    }

    /// The table of match number `m`.
    pub open spec fn match_table(self, w: World, m: int) -> Table {
        w.tables@[self.matched@[m] as int]
    }

    /// The entity of the query itself.
    pub fn as_entity(&self) -> (r: u64)
        ensures
            r == self.entity,
    {
        self.entity
    }

    /// The term at the given index; indexing past the term list is a
    /// programming error and is excluded.
    pub fn term(&self, index: usize) -> (r: Term)
        requires
            index < self.terms@.len(),
        ensures
            r == self.terms@[index as int],
    {
        self.terms[index]
    }

    /// Number of data fields each match exposes.
    pub fn field_count(&self) -> (r: i8)
        requires
            self.n_fields <= 127,
        ensures
            r as int == self.n_fields as int,
    {
        self.n_fields as i8
    }

    /// Number of terms the query was built from.
    pub fn term_count(&self) -> (r: u32)
        requires
            self.terms@.len() <= u32::MAX,
        ensures
            r as int == self.terms@.len(),
    {
        self.terms.len() as u32
    }

    /// An owned iteration adapter over this query's matches: a fresh
    /// cursor together with a copy of the match list, advanceable
    /// independently of this query.
    pub fn iterable(&self) -> (r: IterIterable)
        ensures
            r.matched@ == self.matched@,
            r.it == fresh_cursor(),
    {
        let mut matched: Vec<usize> = Vec::new();
        let mut k: usize = 0;
        while k < self.matched.len()
            invariant
                k <= self.matched@.len(),
                matched@ == self.matched@.take(k as int),
            decreases self.matched@.len() - k,
        {
            matched.push(self.matched[k]);
            k = k + 1;
            proof {
                assert(matched@ =~= self.matched@.take(k as int));
            }
        }
        proof {
            assert(self.matched@.take(self.matched@.len() as int) =~= self.matched@);
        }
        IterIterable { matched, it: self.retrieve_iter() }
    }

    /// Index of the named query variable, or `None` when no variable
    /// carries that name; a missing name is a normal outcome, never an
    /// error.
    pub fn find_var(&self, name: &str) -> (r: Option<i32>)
        requires
            self.var_names@.len() <= i32::MAX,
        ensures
            (r is Some) == (exists|j: int|
                0 <= j < self.var_names@.len() && self.var_names@[j]@ == name@),
            forall|j: int|
                0 <= j < self.var_names@.len() && self.var_names@[j]@ == name@ && (forall|i: int|
                    0 <= i < j ==> self.var_names@[i]@ != name@) ==> r == Some(j as i32),
    {
        let needle: String = <String as StringExecFns>::from_str(name);
        let mut j: usize = 0;
        while j < self.var_names.len()
            invariant
                j <= self.var_names@.len(),
                self.var_names@.len() <= i32::MAX,
                needle@ == name@,
                forall|i: int| 0 <= i < j ==> self.var_names@[i]@ != name@,
            decreases self.var_names@.len() - j,
        {
            if self.var_names[j] == needle {
                return Some(j as i32);
            }
            j = j + 1;
        }
        None
    }
}

impl IterOperations for Query {
    open spec fn matches(&self) -> Seq<usize> {
        self.matched@
    }

    fn retrieve_iter(&self) -> (c: CursorState) {
        CursorState { pos: 0, done: false, flags: 0 }
    }

    fn iter_next(&self, iter: &mut CursorState) -> (r: bool) {
        if !iter.done && iter.pos < self.matched.len() {
            iter.pos = iter.pos + 1;
            true
        } else {
            iter.done = true;
            false
        }
    }
}

} // verus!
