//! The error kinds surfaced by loading, diffing and patch application.

use vstd::prelude::*;

verus! {

/// Why an operation was refused.
#[derive(Clone, Copy, PartialEq, Eq, Structural, Debug)]
pub enum GffError {
    /// A loaded source yielded no usable records.
    EmptyOrInvalidInput,
    /// An operation was invoked before both stores were loaded.
    BothStoresRequired,
    /// An update or attribute change references an id absent from the target.
    UnknownId,
    /// A change lacks a required part (id, key, value or action), or names a
    /// field the record does not have.
    MissingField,
    /// An action outside the known set was given for a change kind.
    UnrecognizedAction,
    /// A numeric field update failed to parse as an unsigned integer.
    MalformedNumericField,
    /// An attribute removal names a key/value pair absent from the target.
    MissingAttribute,
}

} // verus!
