//! The error reports, word for word.

use worlds_store::errors::ApiError;
use worlds_store::errors::FileError;
use worlds_store::errors::NetworkError;

#[test]
fn test_error_display() {
    assert_eq!(FileError::FileNotFound.message(), "file not found");
}

#[test]
fn test_network_error_display() {
    let test_cases = vec![
        (NetworkError::Timeout, "network timeout"),
        (NetworkError::ConnectionFailed, "connection failed"),
        (NetworkError::HttpError(404), "HTTP error 404"),
        (NetworkError::InvalidResponse, "invalid response"),
    ];

    for (error, expected) in test_cases {
        assert_eq!(error.message(), expected);
    }
}

#[test]
fn test_api_error_display() {
    assert_eq!(
        ApiError::AuthenticationFailed.message(),
        "authentication failed"
    );
    assert_eq!(
        ApiError::InvalidRequest("missing parameter").message(),
        "invalid request: missing parameter"
    );
}

#[test]
fn test_error_debug_format() {
    assert!(format!("{:?}", NetworkError::Timeout).contains("Timeout"));
    assert!(format!("{:?}", ApiError::VersionMismatch).contains("VersionMismatch"));
}

#[test]
fn test_app_error_prefixes() {
    let e = worlds_store::errors::AppError::Storage(FileError::InvalidFile);
    assert_eq!(e.message(), "Storage error: invalid format");
    let e = worlds_store::errors::AppError::Concurrency(
        worlds_store::errors::ConcurrencyError::PoisonedLock,
    );
    assert_eq!(e.message(), "Concurrency error: mutex lock was poisoned");
    let e = worlds_store::errors::AppError::Entity(
        worlds_store::errors::EntityError::FolderNotFound("Trips".to_string()),
    );
    assert_eq!(e.message(), "Entity error: folder not found: Trips");
}
