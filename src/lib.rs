pub mod codec;
pub mod crdt;
pub mod diff;
pub mod envelope;
pub mod error;
pub mod laws;
pub mod model;
pub mod store;
pub mod summary;
