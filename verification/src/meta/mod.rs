pub mod admission;
pub mod keyspace;
pub mod laws;
pub mod metadata;
pub mod sentinel;
pub mod twin;
pub mod user;
