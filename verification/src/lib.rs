//! An embeddable profiling store.
//!
//! Instrumented call sites report a name, a start and an end; the store
//! keeps them as rows and answers how long the calls of a name took.
//!
//! From the bottom up:
//! - `encoding`: the bytes of names and epochs;
//! - `row`: field values and rows;
//! - `disk`: one 4096-byte block per page id;
//! - `page`: one block in memory, with its fixed-width slots;
//! - `bufferpool`: a bounded cache of pages in front of the disk;
//! - `column`: an append-only sequence of values of one kind;
//! - `index`: the ids of the rows that hold a value;
//! - `capture` and `queue`: reported calls, and where they wait;
//! - `database`: the queue, four columns and the index by name.
//!
//! The store does no input or output of its own: the embedding layer hands
//! in the blocks that its files hold, and writes out the blocks that the
//! store lists as changed.

pub mod bufferpool;
pub mod capture;
pub mod column;
pub mod database;
pub mod disk;
pub mod encoding;
pub mod error;
pub mod index;
pub mod page;
pub mod queue;
pub mod row;
