//! The errors of the audit scheme and their text.
use vstd::prelude::*;
use crate::encoding::{decimal_text, prefixed, usize_to_text};

verus! {

/// The errors of the audit scheme, each with a message.
#[derive(Clone, Debug, PartialEq, Eq)]
pub enum AuditError {
    DkgError(String),
    DecryptionError(String),
    SerializationError(String),
}

impl AuditError {
    /// The error's text: its kind, then its message.
    pub open spec fn text(&self) -> Seq<char> {
        match self {
            AuditError::DkgError(m) => "DKG error: "@ + m@,
            AuditError::DecryptionError(m) => "Threshold decryption error: "@ + m@,
            AuditError::SerializationError(m) => "Serialization error: "@ + m@,
        }
    }

    /// The error's text, as its `Display` would write it.
    pub fn describe(&self) -> (s: String)
        ensures
            s@ == self.text(),
    {
        match self {
            AuditError::DkgError(m) => prefixed("DKG error: ", m.as_str()),
            AuditError::DecryptionError(m) => prefixed("Threshold decryption error: ", m.as_str()),
            AuditError::SerializationError(m) => prefixed("Serialization error: ", m.as_str()),
        }
    }
}

/// The message for too few decryption shares: the count received and the
/// three needed.
pub open spec fn insufficient_shares_text(got: nat) -> Seq<char> {
    "Insufficient decryption shares: got "@ + decimal_text(got) + ", need at least 3"@
}

/// The message for `got` decryption shares, fewer than needed.
pub fn insufficient_shares_message(got: usize) -> (m: String)
    ensures
        m@ == insufficient_shares_text(got as nat),
{
    let mut m = String::from_str("Insufficient decryption shares: got ");
    let count = usize_to_text(got);
    m.append(count.as_str());
    m.append(", need at least 3");
    m
}

/// The message for bytes too short to hold a node id.
pub open spec fn invalid_length_text() -> Seq<char> {
    "Invalid bytes length"@
}

/// The serialization error for bytes too short to hold a node id.
pub fn invalid_length_error() -> (e: AuditError)
    ensures
        e matches AuditError::SerializationError(m) && m@ == invalid_length_text(),
{
    AuditError::SerializationError("Invalid bytes length".to_owned())
}

} // verus!
