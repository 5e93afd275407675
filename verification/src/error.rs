//! Error taxonomy of the safe-deletion pipeline.

use vstd::prelude::*;

verus! {

/// Every failure the pipeline can report. Wrapped lower-level failures
/// carry their message as plain text.
#[derive(Clone, Debug)]
pub enum RcleanerError {
    SystemDetection(String),
    PackageManager(String),
    Cleaner(String),
    SafetyRule(String),
    Backup(String),
    Io(String),
    Parse(String),
    TomlSerialize(String),
    Serialization(String),
    Command(String),
    Permission(String),
    NotFound(String),
    InvalidInput(String),
    Dependency(String),
    Config(String),
}

impl RcleanerError {
    /// The detail text carried by the error.
    pub fn detail(&self) -> (r: &String)
        ensures
            r@ == self.spec_detail(),
    {
        match self {
            RcleanerError::SystemDetection(s) => s,
            RcleanerError::PackageManager(s) => s,
            RcleanerError::Cleaner(s) => s,
            RcleanerError::SafetyRule(s) => s,
            RcleanerError::Backup(s) => s,
            RcleanerError::Io(s) => s,
            RcleanerError::Parse(s) => s,
            RcleanerError::TomlSerialize(s) => s,
            RcleanerError::Serialization(s) => s,
            RcleanerError::Command(s) => s,
            RcleanerError::Permission(s) => s,
            RcleanerError::NotFound(s) => s,
            RcleanerError::InvalidInput(s) => s,
            RcleanerError::Dependency(s) => s,
            RcleanerError::Config(s) => s,
        }
    }

    /// The detail text, in specifications.
    pub open spec fn spec_detail(&self) -> Seq<char> {
        match self {
            RcleanerError::SystemDetection(s) => s@,
            RcleanerError::PackageManager(s) => s@,
            RcleanerError::Cleaner(s) => s@,
            RcleanerError::SafetyRule(s) => s@,
            RcleanerError::Backup(s) => s@,
            RcleanerError::Io(s) => s@,
            RcleanerError::Parse(s) => s@,
            RcleanerError::TomlSerialize(s) => s@,
            RcleanerError::Serialization(s) => s@,
            RcleanerError::Command(s) => s@,
            RcleanerError::Permission(s) => s@,
            RcleanerError::NotFound(s) => s@,
            RcleanerError::InvalidInput(s) => s@,
            RcleanerError::Dependency(s) => s@,
            RcleanerError::Config(s) => s@,
        }
    }
}

} // verus!
