//! FON (Fast Object Notation): types, serialization and deserialization of
//! the FON wire format.

pub mod deserialize;
pub mod error;
pub mod format;
pub mod raw_data;
pub mod roundtrip;
pub mod serialize;
pub mod text;
pub mod types;

pub use deserialize::{
    deserialize_dump_from_bytes, deserialize_line, try_deserialize_line, DeserializeOptions,
};
pub use error::FonError;
pub use raw_data::RawData;
pub use serialize::{serialize_dump_lines, serialize_dump_to_string, serialize_to_string};
pub use types::{FonCollection, FonDump, FonValue};
