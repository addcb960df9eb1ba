//! The library's error kinds.
use vstd::prelude::*;

verus! {

/// What went wrong, with enough context for a caller to act on.
#[derive(Debug, Clone, PartialEq, Eq)]
pub enum AppError {
    Io { message: String },
    Http { message: String },
    Json { message: String },
    Yaml { message: String },
    Config { message: String },
    Validation { message: String },
    NotFound { resource: String },
    OperationFailed { reason: String },
}

/// The message shown to a user for an error.
pub open spec fn error_text(e: AppError) -> Seq<char> {
    match e {
        AppError::Io { message } => "IO error: "@ + message@,
        AppError::Http { message } => "HTTP error: "@ + message@,
        AppError::Json { message } => "JSON parsing error: "@ + message@,
        AppError::Yaml { message } => "YAML parsing error: "@ + message@,
        AppError::Config { message } => "Configuration error: "@ + message@,
        AppError::Validation { message } => "Validation error: "@ + message@,
        AppError::NotFound { resource } => "Not found: "@ + resource@,
        AppError::OperationFailed { reason } => "Operation failed: "@ + reason@,
    }
}

impl AppError {
    /// The message shown to a user for this error.
    pub fn describe(&self) -> (r: String)
        ensures
            r@ == error_text(*self),
    {
        let (head, body) = match self {
            AppError::Io { message } => ("IO error: ", message),
            AppError::Http { message } => ("HTTP error: ", message),
            AppError::Json { message } => ("JSON parsing error: ", message),
            AppError::Yaml { message } => ("YAML parsing error: ", message),
            AppError::Config { message } => ("Configuration error: ", message),
            AppError::Validation { message } => ("Validation error: ", message),
            AppError::NotFound { resource } => ("Not found: ", resource),
            AppError::OperationFailed { reason } => ("Operation failed: ", reason),
        };
        let mut r = String::from_str(head);
        r.append(body.as_str());
        r
    }
}

} // verus!
