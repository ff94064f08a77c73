//! The checksum comparison that decides whether a copy may replace its
//! source.

use vstd::prelude::*;
use crate::text::chars_of;
use crate::utils::hash::{chars_eq_ignore_ascii_case, eq_ignore_ascii_case};

verus! {

/// Why a copy could not be confirmed: the checksum of a file could not be
/// computed, or the two checksums differ.
#[derive(Debug, Clone, PartialEq, Eq)]
pub enum VerificationError {
    Io(String),
    HashMismatch { source_hash: String, dest_hash: String },
}

/// The text of a verification error.
pub open spec fn verification_message(e: VerificationError) -> Seq<char> {
    match e {
        VerificationError::Io(m) => "I/O error during checksum calculation: "@ + m@,
        VerificationError::HashMismatch { source_hash, dest_hash } =>
            "Checksum mismatch: source hash '"@ + source_hash@ + "' != destination hash '"@ + dest_hash@ + "'"@,
    }
}

impl VerificationError {
    /// The text of the error.
    pub fn message(&self) -> (r: String)
        ensures
            r@ == verification_message(*self),
    {
        match self {
            VerificationError::Io(m) => {
                let mut s = String::from_str("I/O error during checksum calculation: ");
                s.append(m.as_str());
                s
            },
            VerificationError::HashMismatch { source_hash, dest_hash } => {
                let mut s = String::from_str("Checksum mismatch: source hash '");
                s.append(source_hash.as_str());
                s.append("' != destination hash '");
                s.append(dest_hash.as_str());
                s.append("'");
                s
            },
        }
    }
}

/// Confirms a copy from the checksums of its source and destination: the
/// source's checksum when they are equal without regard to ASCII case, else
/// a mismatch carrying both.
pub fn verify_copy(source_hash: &str, dest_hash: &str) -> (r: Result<String, VerificationError>)
    ensures
        eq_ignore_ascii_case(source_hash@, dest_hash@) ==> (r matches Ok(h) && h@ == source_hash@),
        !eq_ignore_ascii_case(source_hash@, dest_hash@) ==> (r matches Err(VerificationError::HashMismatch { source_hash: s, dest_hash: d })
            && s@ == source_hash@ && d@ == dest_hash@),
{
    let a = chars_of(source_hash);
    let b = chars_of(dest_hash);
    if chars_eq_ignore_ascii_case(a.as_slice(), b.as_slice()) {
        Ok(source_hash.to_owned())
    } else {
        Err(VerificationError::HashMismatch { source_hash: source_hash.to_owned(), dest_hash: dest_hash.to_owned() })
    }
}

} // verus!
