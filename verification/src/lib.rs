pub mod codec;
pub mod store;
