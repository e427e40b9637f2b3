//! What can go wrong.

use vstd::prelude::*;
use vstd::string::*;

use crate::text;

verus! {

/// Errors of PAR2 operations.
#[derive(Debug)]
pub enum Par2Error {
    /// The PAR2 file was not found.
    NotFound,
    /// The PAR2 file has an invalid format.
    InvalidFormat(String),
    /// The PAR2 file could not be parsed.
    ParseError(String),
    /// The verification of a file failed.
    VerificationFailed(String),
    /// The repair failed.
    RepairFailed(String),
    /// There are not enough recovery blocks.
    InsufficientRecovery { needed: usize, available: usize },
    /// A file has another size than it should.
    SizeMismatch { file: String, expected: u64, actual: u64 },
    /// A file has another hash than it should.
    HashMismatch(String),
    /// Reading or writing failed.
    Io(String),
    /// The operation was cancelled.
    Cancelled,
}

pub type Result<T> = std::result::Result<T, Par2Error>;

impl Par2Error {
    /// The message of the error.
    pub open spec fn spec_message(&self) -> Seq<char> {
        match self {
            Par2Error::NotFound => "PAR2 file not found"@,
            Par2Error::InvalidFormat(s) => "Invalid PAR2 file format: "@ + s@,
            Par2Error::ParseError(s) => "PAR2 parsing failed: "@ + s@,
            Par2Error::VerificationFailed(s) => "File verification failed: "@ + s@,
            Par2Error::RepairFailed(s) => "PAR2 repair failed: "@ + s@,
            Par2Error::InsufficientRecovery { needed, available } =>
                "Insufficient recovery blocks: need "@ + text::decimal_digits(*needed as nat)
                    + ", have "@ + text::decimal_digits(*available as nat),
            Par2Error::SizeMismatch { file, expected, actual } => "File size mismatch for "@ + file@
                + ": expected "@ + text::decimal_digits(*expected as nat) + ", got "@
                + text::decimal_digits(*actual as nat),
            Par2Error::HashMismatch(s) => "Hash mismatch for file "@ + s@,
            Par2Error::Io(s) => "I/O error: "@ + s@,
            Par2Error::Cancelled => "Operation cancelled"@,
        }
    }

    /// The message of the error.
    pub fn message(&self) -> (r: String)
        ensures
            r@ == self.spec_message(),
    {
        match self {
            Par2Error::NotFound => "PAR2 file not found".to_owned(),
            Par2Error::InvalidFormat(s) => joined("Invalid PAR2 file format: ", s.as_str()),
            Par2Error::ParseError(s) => joined("PAR2 parsing failed: ", s.as_str()),
            Par2Error::VerificationFailed(s) => joined("File verification failed: ", s.as_str()),
            Par2Error::RepairFailed(s) => joined("PAR2 repair failed: ", s.as_str()),
            Par2Error::InsufficientRecovery { needed, available } => {
                let mut r: String = "Insufficient recovery blocks: need ".to_owned();
                r.append(text::decimal(*needed as u64).as_str());
                r.append(", have ");
                r.append(text::decimal(*available as u64).as_str());
                r
            },
            Par2Error::SizeMismatch { file, expected, actual } => {
                let mut r: String = "File size mismatch for ".to_owned();
                r.append(file.as_str());
                r.append(": expected ");
                r.append(text::decimal(*expected).as_str());
                r.append(", got ");
                r.append(text::decimal(*actual).as_str());
                r
            },
            Par2Error::HashMismatch(s) => joined("Hash mismatch for file ", s.as_str()),
            Par2Error::Io(s) => joined("I/O error: ", s.as_str()),
            Par2Error::Cancelled => "Operation cancelled".to_owned(),
        }
    }
}

/// Two texts, one after the other.
fn joined(a: &str, b: &str) -> (r: String)
    ensures
        r@ == a@ + b@,
{
    let mut r: String = a.to_owned();
    r.append(b);
    r
}

} // verus!
