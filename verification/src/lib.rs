//! Parallel traversal and parallel bulk construction for an open-addressed
//! hash table, together with the sequential table they are built on.
pub mod batch;
pub mod bulk;
pub mod heap;
pub mod key;
pub mod layout;
pub mod map;
pub mod memory;
pub mod nonzero;
pub mod par;
pub mod round;
pub mod segment;
pub mod set;
pub mod table;

pub use crate::key::{CollisionHash, DefaultState, HashStrategy, TableKey};
pub use crate::map::HashMap;
pub use crate::set::HashSet;
