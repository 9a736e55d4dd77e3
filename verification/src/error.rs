//! Operational errors returned by the library and the command-line program.

use vstd::prelude::*;

use crate::diagnostic::{decimal, decimal_text};

verus! {

/// Operational errors returned by the library and CLI.
#[derive(Debug)]
pub enum Error {
    /// Source validation failed. Individual diagnostics have already been emitted.
    ValidationFailed {
        /// Number of error diagnostics.
        errors: usize,
    },
    /// A collection identifier could not be parsed.
    InvalidCollection(String),
    /// A syntactically valid collection is absent from the loaded catalog.
    UnavailableCollection(String),
    /// No rule matched an explain query.
    NotFound {
        /// Queried process name.
        process: String,
        /// Queried platform.
        platform: String,
    },
    /// An unsafe or unsupported output target was supplied.
    InvalidOutput {
        /// Rejected output path, as displayed.
        path: String,
        /// Rejection reason.
        reason: String,
    },
    /// A filesystem operation failed.
    Io {
        /// Operation being attempted.
        operation: &'static str,
        /// Affected path, as displayed.
        path: String,
        /// Description of the underlying I/O error.
        source: String,
    },
    /// JSON manifest or diagnostic serialization failed; the description of the failure.
    Json(String),
}

/// The process exit code of each error category.
pub open spec fn exit_code_of(e: Error) -> u8 {
    match e {
        Error::ValidationFailed { .. } => 3,
        Error::InvalidCollection(_) | Error::UnavailableCollection(_) | Error::NotFound { .. } => 4,
        Error::InvalidOutput { .. } | Error::Io { .. } | Error::Json(_) => 1,
    }
}

/// The one-line description of an error.
pub open spec fn error_text(e: Error) -> Seq<char> {
    match e {
        Error::ValidationFailed { errors } => "source validation failed with "@ + decimal(
            errors as nat,
        ) + " error(s)"@,
        Error::InvalidCollection(c) => "invalid collection `"@ + c@
            + "`; expected any, only-<region>, contain-<region>, or not-contain-<region>"@,
        Error::UnavailableCollection(c) => "collection `"@ + c@
            + "` is not available because its region does not occur in the catalog"@,
        Error::NotFound { process, platform } => "no process rule matched `"@ + process@ + "` on "@
            + platform@,
        Error::InvalidOutput { path, reason } => "invalid output path `"@ + path@ + "`: "@ + reason@,
        Error::Io { operation, path, source } => "failed to "@ + operation@ + " `"@ + path@ + "`: "@
            + source@,
        Error::Json(m) => "failed to serialize JSON: "@ + m@,
    }
}

impl Error {
    /// The one-line description of this error, as the command line shows it.
    pub fn render(&self) -> (r: String)
        ensures
            r@ == error_text(*self),
    {
        match self {
            Error::ValidationFailed { errors } => {
                let mut r = "source validation failed with ".to_owned();
                let digits = decimal_text(*errors);
                r.append(digits.as_str());
                r.append(" error(s)");
                r
            },
            Error::InvalidCollection(c) => {
                let mut r = "invalid collection `".to_owned();
                r.append(c.as_str());
                r.append("`; expected any, only-<region>, contain-<region>, or not-contain-<region>");
                r
            },
            Error::UnavailableCollection(c) => {
                let mut r = "collection `".to_owned();
                r.append(c.as_str());
                r.append("` is not available because its region does not occur in the catalog");
                r
            },
            Error::NotFound { process, platform } => {
                let mut r = "no process rule matched `".to_owned();
                r.append(process.as_str());
                r.append("` on ");
                r.append(platform.as_str());
                r
            },
            Error::InvalidOutput { path, reason } => {
                let mut r = "invalid output path `".to_owned();
                r.append(path.as_str());
                r.append("`: ");
                r.append(reason.as_str());
                r
            },
            Error::Io { operation, path, source } => {
                let mut r = "failed to ".to_owned();
                r.append(operation);
                r.append(" `");
                r.append(path.as_str());
                r.append("`: ");
                r.append(source.as_str());
                r
            },
            Error::Json(m) => {
                let mut r = "failed to serialize JSON: ".to_owned();
                r.append(m.as_str());
                r
            },
        }
    }

    /// Stable process exit code for this error category: 3 for failed validation, 4 for a bad
    /// or unanswerable query, 1 for output and I/O failures.
    pub fn exit_code(&self) -> (r: u8)
        ensures
            r == exit_code_of(*self),
    {
        match self {
            Error::ValidationFailed { .. } => 3,
            Error::InvalidCollection(_) | Error::UnavailableCollection(_) | Error::NotFound {
                ..
            } => 4,
            Error::InvalidOutput { .. } | Error::Io { .. } | Error::Json(_) => 1,
        }
    }
}

} // verus!
