//! Header fields, and the prefix code for the strings in them.
pub mod huffman;

use vstd::prelude::*;

verus! {

/// What a header field says.
pub struct Field {
    /// The name.
    pub name: Seq<u8>,
    /// The value.
    pub value: Seq<u8>,
    /// The field is not to be put into tables.
    pub sensitive: bool,
}

/// A header field.
#[derive(Debug, Clone, PartialEq, Eq)]
pub struct HeaderField {
    /// The name.
    pub name: Vec<u8>,
    /// The value.
    pub value: Vec<u8>,
    /// The field is not to be put into tables.
    pub sensitive: bool,
}

impl HeaderField {
    /// What the field says.
    pub open spec fn view(&self) -> Field {
        Field { name: self.name@, value: self.value@, sensitive: self.sensitive }
    }

    /// A field that may be put into tables.
    pub fn new(name: &[u8], value: &[u8]) -> (f: Self)
        ensures
            f@ == (Field { name: name@, value: value@, sensitive: false }),
    {
        HeaderField {
            name: vstd::slice::slice_to_vec(name),
            value: vstd::slice::slice_to_vec(value),
            sensitive: false,
        }
    }

    /// A field that is not to be put into tables.
    pub fn sensitive(name: &[u8], value: &[u8]) -> (f: Self)
        ensures
            f@ == (Field { name: name@, value: value@, sensitive: true }),
    {
        HeaderField {
            name: vstd::slice::slice_to_vec(name),
            value: vstd::slice::slice_to_vec(value),
            sensitive: true,
        }
    }
}

/// What a list of header fields says.
pub open spec fn said(fields: Seq<HeaderField>) -> Seq<Field> {
    fields.map_values(|f: HeaderField| f@)
}

} // verus!
