//! What can go wrong while extracting a value.
use vstd::prelude::*;

verus! {

/// Declares `json::Error`, the decoder's syntax error, as an opaque type that
/// is carried through unread.
#[verifier::external_type_specification]
#[verifier::external_body]
pub struct ExJsonError(json::Error);

/// Why a value could not be extracted.
#[derive(Debug)]
pub enum ExtractError {
    /// The value's text was found but the decoder refused it.
    JsonError(json::Error),
    /// The key never stands in key position at the top level of the object.
    KeyNotFound(),
    /// The text ends where the key's value should begin.
    JsonTooShort(),
    /// The text ends before the value's closing terminator.
    MissingEnd(),
    /// The key holds a quote or a backslash, which key matching does not support.
    InvalidKey(),
}

} // verus!
