pub mod buffer;
pub mod plan;
pub mod bytes;
pub mod errors;
pub mod hash;
pub mod header;
pub mod response;
pub mod stream;
