use vstd::prelude::*;

verus! {

/// Errors surfaced while decoding stored rows or while splitting a
/// stream of rows into size-bounded row groups.
#[derive(Clone, Debug, PartialEq, Eq)]
pub enum Error {
    /// A decoded value's shape does not match the expected leaf type,
    /// or a required field is missing; carries the field name.
    InvalidField(String),
    /// One row's serialized size exceeds the row-group budget.
    OversizedRowValue { row_group_index: usize },
}

/// Errors raised at value-construction time, so that invalid values
/// never reach the encoder.
#[derive(Clone, Debug, PartialEq, Eq)]
pub enum ValueError {
    /// A string field value contains a NUL byte, which would corrupt
    /// byte-string sort-key termination.
    NullByteString { column_path: Vec<String>, index: usize },
}

/// Errors raised when building a sort-key descriptor.
#[derive(Clone, Copy, Debug, PartialEq, Eq)]
pub enum SortKeyError {
    /// A selected column is variable-length bytes without the string
    /// annotation; undelimited byte columns are unsafe as sort keys.
    NonSingletonByteArrayKey,
    /// The selector list is empty or longer than five columns.
    UnsupportedLength(usize),
}

/// Errors raised by schema analysis, before any value is processed.
#[derive(Clone, Debug, PartialEq, Eq)]
pub enum SchemaShapeError {
    /// A repeated field is not wrapped in the two-level
    /// optional-list/repeated-element shape; carries the field name.
    UnsupportedRepetition(String),
    /// The root of the schema tree is not a group.
    InvalidRootSchema,
    /// A group field has no children; carries the field name.
    EmptyGroup(String),
    /// A leaf's physical and logical types have no supported mapping;
    /// carries the field name.
    UnsupportedType(String),
    /// The schema nests deeper than the on-disk level representation
    /// allows; carries the field name at which the limit was hit.
    DepthLimitExceeded(String),
}

} // verus!
