use rust_recipes::error_framework::{
    fetch_user, get_user, parse_port, validate_age, validate_username, AgeError, AppError, ConfigError, DatabaseError, DbError,
    FormatDemo, NotFoundError, PortError, ServiceError, UsernameError,
};

#[test]
fn test_validate_age_ok() -> Result<(), String> {
    validate_age(25).map_err(|e| e.to_string())?;
    Ok(())
}

#[test]
fn test_validate_age_negative() {
    assert!(validate_age(-1).is_err());
}

#[test]
fn test_db_not_found() {
    let result = fetch_user(9999);
    assert!(result.is_err());
    let err = result.unwrap_err();
    assert!(matches!(err, DbError::NotFound { id: 9999 }));
}

#[test]
fn test_thiserror_display() {
    let e = FormatDemo::OutOfRange { min: 0, max: 10, value: 99 };
    assert_eq!(e.to_string(), "range [0, 10) violated by value 99");
}

#[test]
fn error_messages() {
    assert_eq!(validate_age(-5).unwrap_err().to_string(), "age cannot be negative, got -5");
    assert_eq!(validate_age(151).unwrap_err().to_string(), "age 151 is implausibly large");
    assert!(matches!(validate_age(150), Ok(())));
    assert!(matches!(validate_age(0), Ok(())));
    assert!(matches!(validate_age(-1), Err(AgeError::Negative(-1))));
    assert_eq!(fetch_user(1).ok(), Some("user_1".to_string()));
    assert_eq!(fetch_user(1000).ok(), Some("user_1000".to_string()));
    assert_eq!(fetch_user(0).unwrap_err().to_string(), "connection timed out after 30s");
    assert_eq!(fetch_user(1001).unwrap_err().to_string(), "record 1001 not found");
    assert_eq!(FormatDemo::CountMismatch(3, 4).to_string(), "expected 3 items, got 4");
    let inner = NotFoundError { resource: "cfg".to_string() };
    assert_eq!(FormatDemo::Wrapped { inner }.to_string(), "wrapped: resource not found: 'cfg'");
    assert_eq!(FormatDemo::OutOfRange { min: -3, max: -1, value: 5 }.to_string(), "range [-3, -1) violated by value 5");
}

#[test]
fn test_thiserror_source_chain() {
    let inner = DatabaseError::ConnectionRefused { host: "localhost".to_string(), port: 5432 };
    let outer = ServiceError::Database(inner);

    assert!(outer.source().is_some());
    assert_eq!(outer.source().unwrap().to_string(), "connection refused on 'localhost:5432'");
}

#[test]
fn service_error_messages() {
    let upstream = ServiceError::Upstream { status: 503 };
    assert_eq!(upstream.to_string(), "upstream API error: 503");
    assert!(upstream.source().is_none());
    let db = ServiceError::Database(DatabaseError::QueryFailed { message: "syntax".to_string() });
    assert_eq!(db.to_string(), "database layer failed");
    assert_eq!(db.source().unwrap().to_string(), "query failed: syntax");
    let cfg = ServiceError::Config(ConfigError {
        path: "/etc/app.conf".to_string(),
        source: std::io::Error::new(std::io::ErrorKind::PermissionDenied, "permission denied"),
    });
    assert_eq!(cfg.to_string(), "config load failed");
    assert_eq!(cfg.source().unwrap().to_string(), "failed to load config from '/etc/app.conf'");
    assert_eq!(DatabaseError::Migration("bad schema".to_string()).to_string(), "migration error");
}

#[test]
fn config_error_keeps_its_cause() {
    let err = ConfigError {
        path: "app.toml".to_string(),
        source: std::io::Error::new(std::io::ErrorKind::NotFound, "gone"),
    };
    assert_eq!(err.to_string(), "failed to load config from 'app.toml'");
    assert_eq!(err.source().kind(), std::io::ErrorKind::NotFound);
    assert_eq!(err.source().to_string(), "gone");
}

#[test]
fn app_error_messages() {
    assert_eq!(AppError::NotFound("cfg".to_string()).to_string(), "not found: cfg");
    let denied = AppError::Unauthorized { user: "bob".to_string(), action: "delete".to_string() };
    assert_eq!(denied.to_string(), "user 'bob' cannot 'delete'");
    let io = AppError::Io(std::io::Error::new(std::io::ErrorKind::Other, "disk full"));
    assert_eq!(io.to_string(), "I/O error: disk full");
    let parse = AppError::Parse("x".parse::<i32>().unwrap_err());
    assert_eq!(parse.to_string(), "parse error: invalid digit found in string");
    let other = AppError::Other(anyhow::Error::msg("boom"));
    assert_eq!(other.to_string(), "boom");
}

#[test]
fn get_user_refuses_id_zero() {
    match get_user(0) {
        Err(ServiceError::Database(DatabaseError::ConnectionRefused { host, port })) => {
            assert_eq!(host, "db.example.com");
            assert_eq!(port, 5432);
        },
        _ => panic!("expected a refused connection"),
    }
    assert_eq!(get_user(7).ok(), Some("user_7".to_string()));
}

#[test]
fn username_rules() {
    assert!(validate_username("alice").is_ok());
    let err = validate_username("").unwrap_err();
    assert!(matches!(err, UsernameError::Empty));
    assert_eq!(err.to_string(), "username cannot be empty");
    let long = "a".repeat(33);
    let err = validate_username(&long).unwrap_err();
    assert_eq!(err.to_string(), format!("username '{}' exceeds 32 characters", long));
    assert!(validate_username(&"b".repeat(32)).is_ok());
    // 17 two-byte characters take 34 bytes
    assert!(validate_username(&"é".repeat(17)).is_err());
}

#[test]
fn port_rules() {
    assert_eq!(parse_port(" 443 ").ok(), Some(443));
    let err = parse_port("70000").unwrap_err();
    assert!(matches!(err, PortError::OutOfRange(70000)));
    assert_eq!(err.to_string(), "port 70000 is out of valid range 0\u{2013}65535");
    let err = parse_port("x1").unwrap_err();
    assert_eq!(err.to_string(), "invalid digit found in string");
}
