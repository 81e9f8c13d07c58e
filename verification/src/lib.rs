//! Immutable maps and sets over fixed collections of up to 65535 entries, looked up through a
//! minimal perfect hash function.
//!
//! A map is built once from its entries: construction searches for a seed and small lookup tables under
//! which every key hashes to its own position, so a lookup needs one hash, a table read or two and one
//! key comparison. Maps of a single entry are scanned instead, and maps of a few entries try a seed that
//! needs no tables at all.

pub mod construct;
pub mod counting;
pub mod cow;
pub mod frozen_map;
pub mod frozen_set;
pub mod iter;
pub mod kernel;
pub mod literal;
pub mod key;
pub mod key_expr;
pub mod write_hasher;
pub mod pilot_search;
pub mod pilots;

pub use construct::{construct, ConstructError, MapState};
pub use cow::CowSlice;
pub use frozen_map::{BuildError, FrozenMap, ValueEq};
pub use frozen_set::FrozenSet;
pub use iter::{MapEntries, MapKeys, MapValues, SetEntries};
pub use kernel::MAX_LEN;
pub use key::{Key, KeyView};
