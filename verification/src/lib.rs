//! A recency-ordered linked container whose elements are addressed by stable,
//! reusable integer keys.
//!
//! [`LURLinked`] keeps its values in a doubly-linked chain. A value is pushed
//! at the front and gets a key; by that key it can be read, written, moved to
//! the front or removed, each in constant time, and the value at the back can
//! be removed in constant time as well. This is the mechanism under a cache
//! that evicts what was used longest ago; capacity and eviction are left to
//! the caller.
//!
//! The container is modelled as the sequence of its `(key, value)` pairs,
//! front to back (its view). Module [`model`] says what each operation does to
//! such a sequence, module [`laws`] proves what follows for every sequence of
//! operations, and every method of the container is proved to do to the view
//! what the model says.

pub mod iter;
pub mod laws;
pub mod list;
pub mod model;
pub mod slot_table;

pub use iter::{Ends, IntoIter, Iter, IterMut};
pub use list::{LURLinked, Node};
