//! A prefix-scoped document cursor over an ordered byte-keyed store.
//!
//! Document values are encoded into "stacked keys" whose byte order agrees
//! with the document order (`key`); an ordered store hands out cursors over
//! a snapshot of its keys (`kv`); a [`Cursor`] walks only the keys that
//! start with the encoding of one prefix value (`cursor`).

pub mod bytes;
pub mod cursor;
pub mod error;
pub mod key;
pub mod kv;
pub mod node;

pub use bytes::{compare_bytes, is_prefix_with};
pub use cursor::Cursor;
pub use error::DbErr;
pub use key::{stacked_key, stacked_key_bytes, KeyValue};
pub use kv::{KvCursor, KvStore};
pub use node::{BTreePageView, CursorItem};
