//! A crash-safe, exactly-once hash index: the local metadata layer of a
//! content-addressed store.
//!
//! Data chunks are identified by cryptographic digests. The index records,
//! for each known digest, whether its content is reserved (in flight) or
//! durable, its height in the hash tree, an opaque payload, and an opaque
//! reference into the external blob store. The index is a single serialized
//! actor: requests are handled one at a time, and each handler returns the
//! reply together with the ordered side effects (row inserts, database
//! commits, callback invocations) that the embedding program must perform.

pub mod bytes;
pub mod callbacks;
pub mod counter;
pub mod hash_index;
pub mod ordered_collection;
pub mod queue;
pub mod timer;
