//! A fixed-capacity hash table with linear probing that also keeps its live
//! entries in order of their latest insert or update, through links held as
//! slot indices.
//!
//! The search for a key starts at its home slot, the hash of the key modulo
//! the capacity, and goes up slot by slot to the first one that is empty or
//! holds the key. It does not wrap around at the end of the array, and a
//! removed entry leaves no mark behind: `HashMap::remove` says what follows
//! from that.
//!
//! `TableModel` is the table as a mathematical value; the contracts of
//! `HashMap` are stated over it, and the modules whose names end in `_laws`
//! prove what holds of lookups and of the order of recency.

pub mod key;
pub mod lookup_laws;
pub mod model;
pub mod node;
pub mod order_laws;
pub mod recency_laws;
pub mod table;

pub use key::TableKey;
pub use model::TableModel;
pub use node::Entry;
pub use node::HashNode;
pub use table::HashMap;
pub use table::ProbeExhausted;
