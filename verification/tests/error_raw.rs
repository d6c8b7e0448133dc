use rust_recipes::error_raw::{parse_config, parse_port, with_context, AppError, AppErrorSource, ParseConfigError};

#[test]
fn parse_config_reads_host_and_port() {
    let cfg = "host=localhost\nport=8080";
    let (host, port) = parse_config(cfg).ok().unwrap();
    assert_eq!(host, "localhost");
    assert_eq!(port, 8080);
}

#[test]
fn parse_config_trims_values_but_not_keys() {
    // the key must be exactly `host`; a space before `=` makes it another key
    let err = parse_config("host = localhost\nport = 8080").unwrap_err();
    assert!(matches!(err, ParseConfigError::MissingField("host")));
    assert_eq!(err.to_string(), "required field 'host' is missing");
    let (host, port) = parse_config("host=  example.org \t\r\nport= 42 \n").ok().unwrap();
    assert_eq!(host, "example.org");
    assert_eq!(port, 42);
}

#[test]
fn parse_config_bad_port() {
    let err = parse_config("host=localhost\nport=bad").unwrap_err();
    match &err {
        ParseConfigError::BadInt { field, source } => {
            assert_eq!(*field, "port");
            assert_eq!(source.to_string(), "invalid digit found in string");
        },
        _ => panic!("expected a bad integer"),
    }
    assert_eq!(err.to_string(), "field 'port' is not a valid integer");
    assert!(err.source().is_some());
    // the bad port stops the parse even before the host is seen
    assert!(matches!(parse_config("port=70000\nhost=h").unwrap_err(), ParseConfigError::BadInt { .. }));
}

#[test]
fn parse_config_missing_port_and_last_value_wins() {
    let err = parse_config("host=a").unwrap_err();
    assert!(matches!(err, ParseConfigError::MissingField("port")));
    assert!(err.source().is_none());
    let (host, port) = parse_config("host=a\nport=1\nnoise\nhost=b\nport=+2").ok().unwrap();
    assert_eq!(host, "b");
    assert_eq!(port, 2);
    assert!(matches!(parse_config("").unwrap_err(), ParseConfigError::MissingField("host")));
}

#[test]
fn parse_port_ranges() {
    assert_eq!(parse_port(" 8080\n").ok(), Some(8080));
    assert_eq!(parse_port("65535").ok(), Some(65535));
    match parse_port("70000") {
        Err(AppError::NotFound(m)) => assert_eq!(m, "port 70000 out of range"),
        _ => panic!("expected an out of range port"),
    }
    assert!(matches!(parse_port("abc"), Err(AppError::Parse(_))));
    assert!(matches!(parse_port("99999999999"), Err(AppError::Parse(_))));
    assert!(matches!(parse_port("-1"), Err(AppError::Parse(_))));
}

#[test]
fn app_error_context_chain() {
    let failed: Result<(), AppError> = Err(AppError::NotFound("db".to_string()));
    let wrapped = with_context("starting up".to_string(), failed).unwrap_err();
    assert_eq!(wrapped.to_string(), "starting up");
    match wrapped.source() {
        Some(AppErrorSource::App(inner)) => assert_eq!(inner.to_string(), "not found: db"),
        _ => panic!("expected the wrapped error"),
    }
    let ok: Result<u8, AppError> = Ok(3);
    assert_eq!(with_context("unused".to_string(), ok).ok(), Some(3));
    let denied = AppError::Unauthorized { user: "eve".to_string(), action: "read".to_string() };
    assert_eq!(denied.to_string(), "user 'eve' cannot 'read'");
    assert!(denied.source().is_none());
    let parse = AppError::Parse("".parse::<u32>().unwrap_err());
    assert_eq!(parse.to_string(), "parse error: cannot parse integer from empty string");
    assert!(matches!(parse.source(), Some(AppErrorSource::Parse(_))));
    let io = AppError::Io(std::io::Error::new(std::io::ErrorKind::Other, "broken pipe"));
    assert_eq!(io.to_string(), "I/O error: broken pipe");
    assert!(matches!(io.source(), Some(AppErrorSource::Io(_))));
}
