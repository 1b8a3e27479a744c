//! The typed failures a query can return.

use vstd::prelude::*;

verus! {

/// What a query call can fail with.
#[derive(Clone, Copy, PartialEq, Eq, Debug)]
pub enum Error {
    /// `replace` was attempted on a type without an identity field.
    CanNotReplace,
    /// An encode or decode failed.
    Serialize,
    /// `replace` was attempted without an id.
    RequiresId,
    /// A query condition names a field the schema does not declare.
    FieldNotFound,
}

} // verus!
