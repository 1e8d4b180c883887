//! Query-evaluation core of an entity-component-system store.
//!
//! Given the components attached to each entity, a set of with/without
//! clauses, explicit allow/deny lists of entities, and the requested output
//! columns, the engine computes the matching entity set and materializes one
//! ordered result tuple per qualifying entity.
//!
//! Entity ids are strings; component tags and component values are opaque
//! interned handles (`u64`). The host that owns the real component data is
//! expected to intern its tags and values before calling in, and to resolve
//! the handles in the returned tuples afterwards.

pub mod index;
pub mod matcher;
pub mod scope;
pub mod tuples;
pub mod types;
