use bookmarks::claim::AuthError;
use bookmarks::error::StoreError;

#[test]
fn store_errors_have_messages() {
    assert_eq!(StoreError::NotFound.message(), "Not found");
    assert_eq!(StoreError::Conflict.message(), "Conflict");
    assert_eq!(StoreError::Validation.message(), "Invalid parameters");
    assert_eq!(StoreError::Full.message(), "Catalog full");
    for e in [StoreError::NotFound, StoreError::Conflict, StoreError::Validation, StoreError::Full] {
        assert_eq!(e.to_string(), e.message());
    }
}

#[test]
fn auth_errors_have_messages() {
    assert_eq!(AuthError::NoHeader.message(), "No authorization header");
    assert_eq!(AuthError::InvalidHeader.message(), "Invalid authorization header");
    assert_eq!(AuthError::InvalidToken.message(), "Invalid token");
    for e in [AuthError::NoHeader, AuthError::InvalidHeader, AuthError::InvalidToken] {
        assert_eq!(e.to_string(), e.message());
    }
}
