use simple_notes::error::AppError;
use simple_notes::storage::{Credentials, Settings};

#[test]
fn test_settings_default() {
    let settings = Settings::default();
    assert_eq!(settings.theme, "system");
    assert!(settings.autosave);
    assert!(!settings.minimize_to_tray);
    assert!(!settings.autostart);
}

#[test]
fn test_settings_clone() {
    let settings = Settings {
        theme: "dark".to_string(),
        autosave: true,
        minimize_to_tray: true,
        autostart: false,
    };

    let cloned = settings.clone();
    assert_eq!(cloned.theme, settings.theme);
    assert_eq!(cloned.minimize_to_tray, settings.minimize_to_tray);
    assert_eq!(cloned.autostart, settings.autostart);
}

#[test]
fn test_settings_debug_format() {
    let settings = Settings::default();
    let debug = format!("{:?}", settings);
    assert!(debug.contains("minimize_to_tray"));
    assert!(debug.contains("autostart"));
}

#[test]
fn test_credentials_fields() {
    let creds = Credentials {
        url: "http://localhost:8080".to_string(),
        username: "user".to_string(),
        password: "pass".to_string(),
    };
    let copy = creds.clone();
    assert_eq!(copy.url, creds.url);
    assert_eq!(copy.username, creds.username);
    assert_eq!(copy.password, creds.password);
}

#[test]
fn test_error_display() {
    let err = AppError::NotConnected;
    assert_eq!(err.message(), "Not connected to server");
}

#[test]
fn test_error_webdav() {
    let err = AppError::WebDav("404 Not Found".to_string());
    assert!(err.message().contains("404"));
}

#[test]
fn test_error_messages_all_kinds() {
    assert_eq!(
        AppError::NoteNotFound("abc123".to_string()).message(),
        "Note not found: abc123"
    );
    assert_eq!(AppError::ParseError("bad".to_string()).message(), "Parse error: bad");
    assert_eq!(
        AppError::StorageError("disk".to_string()).message(),
        "Storage error: disk"
    );
    assert_eq!(AppError::InvalidCredentials.message(), "Invalid credentials");
    assert_eq!(
        AppError::NetworkError("down".to_string()).message(),
        "Network error: down"
    );
    assert_eq!(
        AppError::InvalidTimestamp("xyz".to_string()).message(),
        "Invalid timestamp: xyz"
    );
}
