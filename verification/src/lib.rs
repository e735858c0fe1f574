//! Query-iteration core of an entity-component-system runtime.
//!
//! Given a prepared query over a table-based storage world, the library
//! walks the matching tables with a resumable cursor, brackets every
//! consumption of a match between a table lock and its release, projects
//! per-field columns into row tuples or whole-table slices (broadcasting
//! shared fields), and offers the usual consumption idioms on top:
//! per-entity visits, per-table visits, first-match search, counting and
//! existence checks, plus textual introspection of the query itself.

pub mod cursor;
pub mod id;
pub mod patterns;
pub mod query;
pub mod storage;
pub mod text;
pub mod visit;

pub use id::Id;
