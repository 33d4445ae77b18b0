//! A hash table with separate chaining that doubles its bucket array when
//! the load factor passes three quarters.

mod bucket;
pub mod key;
pub mod map;

pub use bucket::{copied_entry, keyed, not_keyed};
pub use key::TableKey;
pub use map::SimpleHashMap;
