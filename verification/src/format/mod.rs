pub mod envelope;
pub mod footer;
pub mod offset;
pub mod stream;
pub mod trailer;
