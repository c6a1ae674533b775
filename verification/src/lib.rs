pub mod date;
pub mod timestamp;
pub mod store;
pub mod summary;
pub mod laws;
pub mod codec;
