//! Snapshot/diff engine for database test fixtures.
//!
//! A [`model::FixtureSnapshot`] captures the row-level state of a relational
//! database: a list of tables, each with ordered columns, rows of canonical
//! string values, an optional single-column primary key, and declared foreign
//! keys. Diffing two snapshots yields a [`model::Fixture`]: an ordered,
//! replayable sequence of row mutations (delete / update / insert) that
//! transforms the first state into the second while respecting foreign-key
//! dependencies at every intermediate point.

pub mod model;
pub mod order;
pub mod diff;
pub mod laws;
