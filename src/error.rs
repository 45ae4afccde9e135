use vstd::prelude::*;

verus! {

/// Every way a run can fail. Each variant carries the path, pattern or
/// reason that a user needs to see what went wrong.
#[derive(Debug)]
pub enum CodicatError {
    /// The queried location is not inside a repository.
    NotUnderVersionControl { path: String },
    /// The tracked-file lister failed for another reason.
    ListingFailed { reason: String },
    /// The tracked-file lister found no file at all.
    NoTrackedFiles { path: String },
    /// No listed file lies under the queried location.
    NoTrackedFilesUnderPath { path: String },
    /// A path that was to be rendered as a file is a directory.
    NotAFile { path: String },
    /// A file could not be opened or read.
    IOError { path: String, reason: String },
    /// The filter is not a valid regular expression.
    InvalidFilterPattern { pattern: String },
    /// The interactive selector could not be run or failed.
    ExternalToolError { reason: String },
    /// Text that had to be UTF-8 was not.
    EncodingError { path: String },
    /// The secondary output (the clipboard) could not be written.
    SecondarySinkError { reason: String },
}

/// `head` followed by `tail`.
fn joined(head: &str, tail: &str) -> (r: String)
    ensures
        r@ == head@ + tail@,
{
    String::from_str(head).concat(tail)
}

impl CodicatError {
    /// The message shown to the user for this error.
    pub fn message(&self) -> (r: String)
        ensures
            r@ == self.message_spec(),
    {
        match self {
            CodicatError::NotUnderVersionControl { path } => joined(
                "This directory is not inside a Git repository: ",
                path.as_str(),
            ),
            CodicatError::ListingFailed { reason } => joined(
                "Failed to list files: ",
                reason.as_str(),
            ),
            CodicatError::NoTrackedFiles { path } => joined(
                "No Git-tracked files found in: ",
                path.as_str(),
            ),
            CodicatError::NoTrackedFilesUnderPath { path } => joined(
                "No Git-tracked files found under: ",
                path.as_str(),
            ),
            CodicatError::NotAFile { path } => joined(
                "cannot render directory as file: ",
                path.as_str(),
            ),
            CodicatError::IOError { path, reason } => {
                let head = joined("Failed to read file: ", path.as_str());
                let head = head.concat(": ");
                head.concat(reason.as_str())
            },
            CodicatError::InvalidFilterPattern { pattern } => joined(
                "Invalid regex pattern: ",
                pattern.as_str(),
            ),
            CodicatError::ExternalToolError { reason } => joined(
                "External tool failed: ",
                reason.as_str(),
            ),
            CodicatError::EncodingError { path } => joined(
                "File is not valid UTF-8: ",
                path.as_str(),
            ),
            CodicatError::SecondarySinkError { reason } => joined(
                "Failed to copy to clipboard: ",
                reason.as_str(),
            ),
        }
    }

    pub open spec fn message_spec(&self) -> Seq<char> {
        match self {
            CodicatError::NotUnderVersionControl { path } =>
                "This directory is not inside a Git repository: "@ + path@,
            CodicatError::ListingFailed { reason } => "Failed to list files: "@ + reason@,
            CodicatError::NoTrackedFiles { path } => "No Git-tracked files found in: "@ + path@,
            CodicatError::NoTrackedFilesUnderPath { path } =>
                "No Git-tracked files found under: "@ + path@,
            CodicatError::NotAFile { path } => "cannot render directory as file: "@ + path@,
            CodicatError::IOError { path, reason } => "Failed to read file: "@ + path@ + ": "@
                + reason@,
            CodicatError::InvalidFilterPattern { pattern } => "Invalid regex pattern: "@
                + pattern@,
            CodicatError::ExternalToolError { reason } => "External tool failed: "@ + reason@,
            CodicatError::EncodingError { path } => "File is not valid UTF-8: "@ + path@,
            CodicatError::SecondarySinkError { reason } => "Failed to copy to clipboard: "@
                + reason@,
        }
    }
}

} // verus!
