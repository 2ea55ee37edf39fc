use quadtree::config::{Config, ConfigParsingError};
use quadtree::errors::ErrorStatusError;

#[test]
fn test_config_defaults() {
    let config = Config::default();
    assert_eq!(config.port, 50051);
    assert_eq!(config.top_left_x, 0);
    assert_eq!(config.top_left_y, 0);
    assert_eq!(config.bottom_right_x, 10);
    assert_eq!(config.bottom_right_y, 10);
    assert_eq!(config.capacity, 10);
}

#[test]
fn test_config_resolve_full() {
    let config = Config::resolve(
        Some(5000),
        Some(1),
        Some(1),
        Some(3),
        Some(3),
        Some(5),
    );
    assert_eq!(config.port, 5000);
    assert_eq!(config.top_left_x, 1);
    assert_eq!(config.top_left_y, 1);
    assert_eq!(config.bottom_right_x, 3);
    assert_eq!(config.bottom_right_y, 3);
    assert_eq!(config.capacity, 5);
}

#[test]
fn test_config_resolve_partial() {
    // Every missing value falls back to its own default, independently
    // of the provided ones.
    let config = Config::resolve(Some(5000), Some(1), None, Some(3), None, Some(5));
    assert_eq!(config.port, 5000);
    assert_eq!(config.top_left_x, 1);
    assert_eq!(config.top_left_y, 0);
    assert_eq!(config.bottom_right_x, 3);
    assert_eq!(config.bottom_right_y, 10);
    assert_eq!(config.capacity, 5);
}

#[test]
fn test_config_parsing_error_keeps_details() {
    let error = ConfigParsingError::new("Cannot parse config file: missing.ini");
    assert_eq!(error.details, "Cannot parse config file: missing.ini");
}

#[test]
fn test_error_status_keeps_description() {
    let error = ErrorStatusError::new("deadline exceeded");
    assert_eq!(error.description(), "deadline exceeded");
}
