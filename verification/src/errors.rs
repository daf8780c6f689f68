//! The error type shared by every operation of the crate.

use crate::json::json_error_text;
use vstd::prelude::*;
use vstd::string::*;

verus! {

/// Everything that can go wrong in the application.
///
/// The store and the link index only ever produce `NotFound`,
/// `ValidationError` and `CyclicMoveError`; the remaining variants belong to
/// the layers around them.
#[derive(Debug, PartialEq)]
pub enum AppError {
    DatabaseConnectionFailed(String),
    DatabaseQueryFailed(String),
    DatabaseConstraintViolation(String),
    InvalidBlockData(String),
    InvalidPageData(String),
    MissingRequiredField(String),
    FileNotFound(String),
    FilePermissionDenied(String),
    ExportFailed(String),
    ConfigurationError(String),
    GitInitFailed(String),
    GitCommitFailed(String),
    GitPushFailed(String),
    WebSocketConnectionFailed(String),
    SyncConflict(String),
    UserUnauthorized(String),
    Internal(String),
    SerializationError(String),
    /// The operation targets an id that no node carries.
    NotFound(String),
    /// Malformed or out-of-bounds input.
    ValidationError(String),
    /// Reparenting would make a node its own ancestor.
    CyclicMoveError(String),
    /// A connection or transaction could not be acquired or committed.
    StoreUnavailable(String),
}

/// The result of an operation that can fail with an [`AppError`].
pub type AppResult<T> = Result<T, AppError>;

impl AppError {
    /// The error for a JSON text that could not be read or written.
    pub fn from_json(err: serde_json::Error) -> (e: AppError)
        ensures
            e is SerializationError,
    {
        AppError::SerializationError(json_error_text(&err))
    }

    /// The payload carried by the error, whatever its kind.
    pub open spec fn detail(self) -> Seq<char> {
        match self {
            AppError::DatabaseConnectionFailed(m) => m@,
            AppError::DatabaseQueryFailed(m) => m@,
            AppError::DatabaseConstraintViolation(m) => m@,
            AppError::InvalidBlockData(m) => m@,
            AppError::InvalidPageData(m) => m@,
            AppError::MissingRequiredField(m) => m@,
            AppError::FileNotFound(m) => m@,
            AppError::FilePermissionDenied(m) => m@,
            AppError::ExportFailed(m) => m@,
            AppError::ConfigurationError(m) => m@,
            AppError::GitInitFailed(m) => m@,
            AppError::GitCommitFailed(m) => m@,
            AppError::GitPushFailed(m) => m@,
            AppError::WebSocketConnectionFailed(m) => m@,
            AppError::SyncConflict(m) => m@,
            AppError::UserUnauthorized(m) => m@,
            AppError::Internal(m) => m@,
            AppError::SerializationError(m) => m@,
            AppError::NotFound(m) => m@,
            AppError::ValidationError(m) => m@,
            AppError::CyclicMoveError(m) => m@,
            AppError::StoreUnavailable(m) => m@,
        }
    }

    /// The fixed text that introduces the payload in the rendered message.
    pub open spec fn heading(self) -> Seq<char> {
        match self {
            AppError::DatabaseConnectionFailed(_) => "Database connection failed: "@,
            AppError::DatabaseQueryFailed(_) => "Database query failed: "@,
            AppError::DatabaseConstraintViolation(_) => "Database constraint violation: "@,
            AppError::InvalidBlockData(_) => "Invalid block data: "@,
            AppError::InvalidPageData(_) => "Invalid page data: "@,
            AppError::MissingRequiredField(_) => "Missing required field: "@,
            AppError::FileNotFound(_) => "File not found: "@,
            AppError::FilePermissionDenied(_) => "File permission denied: "@,
            AppError::ExportFailed(_) => "Export failed: "@,
            AppError::ConfigurationError(_) => "Configuration error: "@,
            AppError::GitInitFailed(_) => "Git initialization failed: "@,
            AppError::GitCommitFailed(_) => "Git commit failed: "@,
            AppError::GitPushFailed(_) => "Git push failed: "@,
            AppError::WebSocketConnectionFailed(_) => "WebSocket connection failed: "@,
            AppError::SyncConflict(_) => "Sync conflict: "@,
            AppError::UserUnauthorized(_) => "User unauthorized: "@,
            AppError::Internal(_) => "Internal error: "@,
            AppError::SerializationError(_) => "Serialization error: "@,
            AppError::NotFound(_) => "Not found: "@,
            AppError::ValidationError(_) => "Validation error: "@,
            AppError::CyclicMoveError(_) => "Cyclic move: "@,
            AppError::StoreUnavailable(_) => "Store unavailable: "@,
        }
    }

    /// The rendered message: heading followed by payload.
    pub open spec fn message_text(self) -> Seq<char> {
        self.heading() + self.detail()
    }

    /// Renders the error for display.
    pub fn message(&self) -> (text: String)
        ensures
            text@ == self.message_text(),
    {
        match self {
            AppError::DatabaseConnectionFailed(m) => String::from_str(
                "Database connection failed: ",
            ).concat(m.as_str()),
            AppError::DatabaseQueryFailed(m) => String::from_str("Database query failed: ").concat(
                m.as_str(),
            ),
            AppError::DatabaseConstraintViolation(m) => String::from_str(
                "Database constraint violation: ",
            ).concat(m.as_str()),
            AppError::InvalidBlockData(m) => String::from_str("Invalid block data: ").concat(
                m.as_str(),
            ),
            AppError::InvalidPageData(m) => String::from_str("Invalid page data: ").concat(
                m.as_str(),
            ),
            AppError::MissingRequiredField(m) => String::from_str(
                "Missing required field: ",
            ).concat(m.as_str()),
            AppError::FileNotFound(m) => String::from_str("File not found: ").concat(m.as_str()),
            AppError::FilePermissionDenied(m) => String::from_str(
                "File permission denied: ",
            ).concat(m.as_str()),
            AppError::ExportFailed(m) => String::from_str("Export failed: ").concat(m.as_str()),
            AppError::ConfigurationError(m) => String::from_str("Configuration error: ").concat(
                m.as_str(),
            ),
            AppError::GitInitFailed(m) => String::from_str("Git initialization failed: ").concat(
                m.as_str(),
            ),
            AppError::GitCommitFailed(m) => String::from_str("Git commit failed: ").concat(
                m.as_str(),
            ),
            AppError::GitPushFailed(m) => String::from_str("Git push failed: ").concat(m.as_str()),
            AppError::WebSocketConnectionFailed(m) => String::from_str(
                "WebSocket connection failed: ",
            ).concat(m.as_str()),
            AppError::SyncConflict(m) => String::from_str("Sync conflict: ").concat(m.as_str()),
            AppError::UserUnauthorized(m) => String::from_str("User unauthorized: ").concat(
                m.as_str(),
            ),
            AppError::Internal(m) => String::from_str("Internal error: ").concat(m.as_str()),
            AppError::SerializationError(m) => String::from_str("Serialization error: ").concat(
                m.as_str(),
            ),
            AppError::NotFound(m) => String::from_str("Not found: ").concat(m.as_str()),
            AppError::ValidationError(m) => String::from_str("Validation error: ").concat(
                m.as_str(),
            ),
            AppError::CyclicMoveError(m) => String::from_str("Cyclic move: ").concat(m.as_str()),
            AppError::StoreUnavailable(m) => String::from_str("Store unavailable: ").concat(
                m.as_str(),
            ),
        }
    }
}

} // verus!
