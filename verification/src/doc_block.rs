//! The value types of document fields stored in doc blocks.
//!
//! The indexer encodes documents into blocks of its own; the segment layer
//! only carries these descriptors: which primitive type a field holds, and a
//! decoded field's raw bytes.

use vstd::prelude::*;

verus! {

/// The type of each field value.
#[derive(Debug, Copy, Clone, Ord, PartialOrd, Eq, PartialEq, Structural, Hash)]
pub enum ValueType {
    /// The field value is of type `string`.
    String,
    /// The field value is of type `u64`.
    U64,
    /// The field value is of type `i64`.
    I64,
    /// The field value is of type `f64`.
    F64,
    /// The field value is of type `bytes`.
    Bytes,
    /// The field value is of type `json`.
    Json,
}

/// One field read back from an encoded document.
pub struct Field<'a> {
    /// The value type of the field.
    pub value_type: ValueType,
    /// The ID of the field.
    pub field_id: u16,
    /// The value of the field in bytes.
    pub value: &'a [u8],
}

/// Field data that cannot be deserialized into a value of its declared type.
#[derive(Debug, Copy, Clone, PartialEq, Eq, Structural)]
pub struct Corrupted(pub ValueType);

impl Corrupted {
    /// A short description, in place of a `Display` implementation.
    pub fn message(&self) -> (r: &'static str)
        ensures
            r@.len() > 0,
    {
        proof {
            reveal_strlit("Unable to deserialize field data into value with the declared type");
        }
        "Unable to deserialize field data into value with the declared type"
    }
}

} // verus!
