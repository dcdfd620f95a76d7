//! A validated string wrapper and a length-prefixed binary encoding for
//! strings and sequences of strings.

pub mod little_endian;
pub mod normalized_string;
pub mod serialization;

pub use little_endian::{le_bytes, le_value};
pub use normalized_string::{NormalizationError, NormalizedString};
pub use serialization::{
    conversion_result, deserialize_string, deserialize_text, deserialize_texts, deserialize_vec,
    finalize_serialization, remove_u32, remove_usize, serialize_string, serialize_text,
    serialize_texts, serialize_vec, SerializationError,
};
