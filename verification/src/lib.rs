//! Ingestion and metrics derivation for a Linux resource monitor.
//!
//! The crate turns the text of kernel pseudo-files into typed records, derives
//! per-tick deltas from cumulative counters, keeps bounded histories and builds
//! the sortable process hierarchy. It performs no I/O of its own: callers hand
//! it the bytes they read and act on the values it returns.
//!
//! - [`text`] splits and parses the bytes of the kernel's text formats.
//! - [`snapshot`] parses the system-wide files into one [`snapshot::Snapshot`] per
//!   tick.
//! - [`system`] derives the deltas between two snapshots and decides which
//!   per-entity state is carried on, created or dropped.
//! - [`series`] holds the bounded history of a metric and the window of its
//!   moving average.
//! - [`handles`] holds the rules by which the set of watched files is assembled
//!   and rebuilt when the hardware changes.
//! - [`procfs`] parses the per-process files, [`ingest`] carries the counters of
//!   processes and threads from tick to tick.
//! - [`info`] builds the tables of threads, processes, sessions and login sessions
//!   and sorts them, with [`rows`] for the order of rows, [`arena`] for their names
//!   and [`users`] for the accounts of the system.
//! - [`schedule`] decides what is done in which tick.
//! - [`maps`] and [`names`] hold the map keyed by names and the order of names;
//!   [`walk`] walks the maps keyed by ids in the order of their keys.

pub mod arena;
pub mod handles;
pub mod info;
pub mod ingest;
pub mod maps;
pub mod names;
pub mod procfs;
pub mod rows;
pub mod schedule;
pub mod series;
pub mod snapshot;
pub mod system;
pub mod text;
pub mod users;
pub mod walk;
