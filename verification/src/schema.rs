//! The basic document schema the doc-block encoder works against.

use vstd::prelude::*;

use crate::doc_block::ValueType;

verus! {

/// A document schema: field names with their IDs, per-field structure, and
/// an optional field whose value keys the document digest.
pub struct BasicSchema {
    /// The field names mapping to a given field ID.
    pub fields: Vec<(String, u16)>,
    /// More detailed information, indexed by field ID.
    pub field_info: Vec<FieldInfo>,
    /// The field ID to use as the digest hash key.
    pub hash_key: Option<u16>,
}

impl BasicSchema {
    /// Create a new basic schema.
    pub fn new(fields: Vec<(String, u16)>, field_info: Vec<FieldInfo>, hash_key: Option<u16>) -> (r:
        BasicSchema)
        ensures
            r.fields@ == fields@,
            r.field_info@ == field_info@,
            r.hash_key == hash_key,
    {
        BasicSchema { fields, field_info, hash_key }
    }

    /// The field names mapping to a given field ID.
    pub fn fields(&self) -> (r: &Vec<(String, u16)>)
        ensures
            r@ == self.fields@,
    {
        &self.fields
    }

    /// The field ID to use as the digest hash key.
    pub fn hash_key(&self) -> (r: Option<u16>)
        ensures
            r == self.hash_key,
    {
        self.hash_key
    }

    /// Get the specific field information.
    pub fn info(&self, field_id: u16) -> (r: &FieldInfo)
        requires
            field_id < self.field_info@.len(),
        ensures
            r == self.field_info@[field_id as int],
    {
        &self.field_info[field_id as usize]
    }

    /// How many field IDs the schema describes.
    pub open spec fn num_fields(&self) -> int {
        self.field_info@.len() as int
    }
}

/// Field specific info describing the structure of the document.
#[derive(Debug, Copy, Clone, PartialEq, Eq, Structural)]
pub struct FieldInfo {
    pub value_type: ValueType,
    pub is_multi: bool,
}

impl FieldInfo {
    /// Create a new field info.
    pub fn new(value_type: ValueType, is_multi: bool) -> (r: FieldInfo)
        ensures
            r.value_type == value_type,
            r.is_multi == is_multi,
    {
        FieldInfo { value_type, is_multi }
    }

    /// The value type of the doc field.
    pub fn value_type(&self) -> (r: ValueType)
        ensures
            r == self.value_type,
    {
        self.value_type
    }

    /// Is the field multi-valued.
    pub fn is_multi(&self) -> (r: bool)
        ensures
            r == self.is_multi,
    {
        self.is_multi
    }
}

} // verus!
