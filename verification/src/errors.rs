use vstd::prelude::*;

verus! {

/// The closed set of failures a vault operation can surface to a caller.
#[derive(Clone, Copy, Debug, PartialEq, Eq, Structural)]
pub enum VaultError {
    /// The supplied key string is not 64 hexadecimal digits.
    InvalidKeyFormat,
    /// The vault bytes are too short, misaligned, corrupted, or the key is wrong.
    DecryptionError,
    /// A filesystem or entropy-source failure outside the library's control.
    IoError,
    /// No visible note with the requested id exists.
    NotFoundError,
    /// The decrypted snapshot is not a well-formed note table.
    SchemaError,
}

} // verus!
