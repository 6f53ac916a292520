//! A listing store for houses: an identifier allocator, a record table kept
//! in ascending identifier order, queries over it, mutations gated by
//! validation and ownership, and a reversible binary encoding of a record.
pub mod house;
pub mod text;
pub mod allocator;
pub mod model;
pub mod store;
pub mod laws;
pub mod codec;
