use nss::config::{Config, User};
use nss::head::Head;

#[test]
fn test_config_username() {
    let user = User::new("noshishi".to_string(), None);
    let config = Config::new(user);
    assert_eq!(config.username(), "noshishi".to_string());
}

#[test]
fn test_config_useremail() {
    let user = User::new("noshishi".to_string(), None);
    let config = Config::new(user);
    assert_eq!(config.useremail(), Option::None);

    let user = User::new(
        "noshishi".to_string(),
        Some("noshishi@nope.com".to_string()),
    );
    let config = Config::new(user);
    assert_eq!(config.useremail(), Some("noshishi@nope.com".to_string()));
}

#[test]
fn test_user_debug() {
    let user = User::new("noshishi".to_string(), None);
    let debug = format!("{:?}", user);
    let test_debug = "User { name: \"noshishi\", email: None }";
    assert_eq!(debug, test_debug);
}

#[test]
fn test_config_debug() {
    let user = User::new("noshishi".to_string(), None);
    let config = Config::new(user);
    let debug = format!("{:?}", config);
    let test_debug = "Config { user: User { name: \"noshishi\", email: None } }";
    assert_eq!(debug, test_debug);
}

#[test]
fn head_test_read_config() {}

#[test]
fn test_head_kinds() {
    let bookmark = Head::from_path("local/voyage".to_string());
    assert!(!bookmark.is_hash());
    assert_eq!(bookmark.get_path(), "local/voyage".to_string());

    let detached = Head::from_hash("e69de29bb2d1d6434b8b29ae775ad8c2e48c5391".to_string());
    assert!(detached.is_hash());
    assert_eq!(
        detached.get_path(),
        "e6/9de29bb2d1d6434b8b29ae775ad8c2e48c5391".to_string()
    );
}
