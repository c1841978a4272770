use vstd::prelude::*;

verus! {

/// Failures of the password and encryption primitives.
#[derive(Clone, Copy, Debug, PartialEq, Eq, Structural)]
pub enum CryptoError {
    /// A password hash string that does not parse in the self-describing
    /// PHC format.
    InvalidFormat,
    /// An authentication tag that does not verify: tampered data or a
    /// wrong key.
    AuthenticationFailed,
    /// An encrypted blob shorter than the 12-byte nonce prefix.
    TooShort,
    /// An internal failure of the random-number source or of encoding.
    Internal,
}

/// Failures of the vault lifecycle operations.
#[derive(Clone, Copy, Debug, PartialEq, Eq, Structural)]
pub enum VaultError {
    /// The operation is not valid in the current vault state, for example
    /// creating a vault that already exists or changing settings while
    /// locked.
    Validation,
    /// The master password does not match the stored hash.
    Authentication,
    /// A crypto primitive failed; the cause is carried along.
    Crypto(CryptoError),
    /// The storage layer refused the operation.
    Persistence,
}

/// Failures of the memory-store operations.
#[derive(Clone, Copy, Debug, PartialEq, Eq, Structural)]
pub enum MemoryError {
    /// Malformed input, for example an unparseable import payload.
    Validation,
    /// An operation on a memory id that is not present.
    NotFound,
    /// The storage layer refused the operation, for example a fresh id
    /// colliding with an existing row.
    Persistence,
}

impl CryptoError {
    /// A short human-readable description of the failure.
    pub fn describe(&self) -> (r: &'static str)
        ensures
            r@ == self.describe_spec(),
    {
        match self {
            CryptoError::InvalidFormat => "invalid password hash format",
            CryptoError::AuthenticationFailed => "authentication failed",
            CryptoError::TooShort => "encrypted data too short",
            CryptoError::Internal => "internal crypto failure",
        }
    }

    /// The text `describe` returns for each variant.
    pub open spec fn describe_spec(&self) -> Seq<char> {
        match self {
            CryptoError::InvalidFormat => "invalid password hash format"@,
            CryptoError::AuthenticationFailed => "authentication failed"@,
            CryptoError::TooShort => "encrypted data too short"@,
            CryptoError::Internal => "internal crypto failure"@,
        }
    }
}

} // verus!
