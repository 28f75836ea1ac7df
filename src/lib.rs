//! A minimal persistent row store: a fixed-layout row codec, a lazily
//! materialised page cache over a backing byte image, an append-only table
//! built on top of them, and the decisions of the command loop that drives it.
pub mod pager;
pub mod repl;
pub mod row;
pub mod table;
pub mod text;
