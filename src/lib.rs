//! An entity/component store: entities are issued by an allocator, each
//! entity carries a set of typed records, and entities with the same set of
//! record types are kept together in one archetype of columnar sparse sets.
//!
//! The store is generic over the payload type `T` of a record. A record is a
//! [`data::Data`], which tags its payload with a `std::any::TypeId`; the
//! store's logic only ever reads those tags. A program that wants to hold
//! values of many Rust types picks a type-erased payload such as
//! `Box<dyn Any>` and downcasts it after a lookup has checked the tag.
pub mod type_identity;
pub mod entity;
pub mod data;
pub mod sparse_set;
pub mod archetype;
pub mod storage;
pub mod world;
pub mod query;
pub mod error;
