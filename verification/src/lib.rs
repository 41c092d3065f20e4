pub mod cipher;
pub mod codec;
pub mod errors;
pub mod keycodec;
pub mod store;
pub mod vault;
