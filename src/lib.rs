//! A codec between RESP3, the framed wire format of key-value database
//! servers, and plain Rust values.
mod error;
pub mod wire;
pub mod read;
pub mod de;
pub mod ser;
pub mod types;
pub mod laws;
pub mod prefix;

pub use de::Deserializer;
pub use error::{Error, Result};
pub use ser::{from_write, Serializer};
