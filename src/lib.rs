//! A deterministic binary codec for order-preserving maps and sets.
//!
//! Wire layout: a little-endian `u32` entry count, then each entry's fields
//! in sequence, every field written by its own [`field::Field`] codec. Each
//! container offers two orders: its own enumeration order (`serialize`), and
//! ascending order of key or element (`serialize_canonical`), under which
//! containers with the same contents always write the same bytes.

pub mod error;
pub mod field;
pub mod guard;
pub mod laws;
pub mod le;
pub mod map;
pub mod order;
pub mod records;
pub mod set;
