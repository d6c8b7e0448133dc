//! Error values of a small application: what can go wrong, when, and the message each
//! error reads as.
use vstd::prelude::*;

verus! {

/// The decimal digits of `n`.
pub open spec fn decimal(n: nat) -> Seq<char>
    decreases n,
{
    if n < 10 {
        seq![(48 + n) as char]
    } else {
        decimal(n / 10) + seq![(48 + n % 10) as char]
    }
}

/// `n` written in decimal, with a leading `-` when negative.
pub open spec fn signed_decimal(n: int) -> Seq<char> {
    if n < 0 {
        seq!['-'] + decimal((-n) as nat)
    } else {
        decimal(n as nat)
    }
}

/// `u64::to_string`: `n` in decimal.
#[verifier::external_body]
pub(crate) fn decimal_text(n: u64) -> (r: String)
    ensures
        r@ == decimal(n as nat),
{
    n.to_string()
}

/// `i64::to_string`: `n` in decimal, with a leading `-` when negative.
#[verifier::external_body]
pub(crate) fn signed_text(n: i64) -> (r: String)
    ensures
        r@ == signed_decimal(n as int),
{
    n.to_string()
}

/// `prefix` followed by `rest`.
pub(crate) fn joined(prefix: &str, rest: &str) -> (r: String)
    ensures
        r@ == prefix@ + rest@,
{
    let mut r = String::from_str(prefix);
    r.append(rest);
    r
}

/// A resource that does not exist.
pub struct NotFoundError {
    pub resource: String,
}

impl NotFoundError {
    /// `resource not found: '<resource>'`.
    pub fn to_string(&self) -> (r: String)
        ensures
            r@ == "resource not found: '"@ + self.resource@ + "'"@,
    {
        let mut r = joined("resource not found: '", self.resource.as_str());
        r.append("'");
        r
    }
}

/// How a value can violate the expectations placed on it.
pub enum FormatDemo {
    OutOfRange { min: i32, max: i32, value: i32 },
    CountMismatch(usize, usize),
    Wrapped { inner: NotFoundError },
}

impl FormatDemo {
    /// The message of the error.
    pub fn to_string(&self) -> (r: String)
        ensures
            self matches FormatDemo::OutOfRange { min, max, value } ==> r@ == "range ["@ + signed_decimal(
                min as int,
            ) + ", "@ + signed_decimal(max as int) + ") violated by value "@ + signed_decimal(value as int),
            self matches FormatDemo::CountMismatch(e, g) ==> r@ == "expected "@ + decimal(e as nat)
                + " items, got "@ + decimal(g as nat),
            self matches FormatDemo::Wrapped { inner } ==> r@ == "wrapped: "@ + "resource not found: '"@
                + inner.resource@ + "'"@,
    {
        match self {
            FormatDemo::OutOfRange { min, max, value } => {
                let mut r = joined("range [", signed_text(*min as i64).as_str());
                r.append(", ");
                r.append(signed_text(*max as i64).as_str());
                r.append(") violated by value ");
                r.append(signed_text(*value as i64).as_str());
                r
            },
            FormatDemo::CountMismatch(e, g) => {
                let mut r = joined("expected ", decimal_text(*e as u64).as_str());
                r.append(" items, got ");
                r.append(decimal_text(*g as u64).as_str());
                r
            },
            FormatDemo::Wrapped { inner } => {
                let text = inner.to_string();
                let r = joined("wrapped: ", text.as_str());
                proof {
                    assert(r@ =~= "wrapped: "@ + "resource not found: '"@ + inner.resource@ + "'"@);
                }
                r
            },
        }
    }
}

/// What the user database can fail with.
pub enum DbError {
    Timeout { secs: u64 },
    NotFound { id: u64 },
}

impl DbError {
    /// The message of the error.
    pub fn to_string(&self) -> (r: String)
        ensures
            self matches DbError::Timeout { secs } ==> r@ == "connection timed out after "@ + decimal(
                secs as nat,
            ) + "s"@,
            self matches DbError::NotFound { id } ==> r@ == "record "@ + decimal(id as nat) + " not found"@,
    {
        match self {
            DbError::Timeout { secs } => {
                let mut r = joined("connection timed out after ", decimal_text(*secs).as_str());
                r.append("s");
                r
            },
            DbError::NotFound { id } => {
                let mut r = joined("record ", decimal_text(*id).as_str());
                r.append(" not found");
                r
            },
        }
    }
}

/// Looks a user up: id 0 times out after 30 seconds, ids above 1000 do not exist, and
/// every other id names the user `user_<id>`.
pub fn fetch_user(id: u64) -> (r: Result<String, DbError>)
    ensures
        id == 0 ==> (r matches Err(DbError::Timeout { secs }) && secs == 30),
        id > 1000 ==> (r matches Err(DbError::NotFound { id: missing }) && missing == id),
        1 <= id <= 1000 ==> (r matches Ok(name) && name@ == "user_"@ + decimal(id as nat)),
{
    if id == 0 {
        return Err(DbError::Timeout { secs: 30 });
    }
    if id > 1000 {
        return Err(DbError::NotFound { id });
    }
    Ok(joined("user_", decimal_text(id).as_str()))
}

/// Why an age was refused.
pub enum AgeError {
    Negative(i32),
    ImplausiblyLarge(i32),
}

impl AgeError {
    /// The message of the error.
    pub fn to_string(&self) -> (r: String)
        ensures
            self matches AgeError::Negative(a) ==> r@ == "age cannot be negative, got "@ + signed_decimal(a as int),
            self matches AgeError::ImplausiblyLarge(a) ==> r@ == "age "@ + signed_decimal(a as int)
                + " is implausibly large"@,
    {
        match self {
            AgeError::Negative(a) => joined("age cannot be negative, got ", signed_text(*a as i64).as_str()),
            AgeError::ImplausiblyLarge(a) => {
                let mut r = joined("age ", signed_text(*a as i64).as_str());
                r.append(" is implausibly large");
                r
            },
        }
    }
}

/// Accepts ages from 0 to 150.
pub fn validate_age(age: i32) -> (r: Result<(), AgeError>)
    ensures
        age < 0 ==> (r matches Err(AgeError::Negative(a)) && a == age),
        age > 150 ==> (r matches Err(AgeError::ImplausiblyLarge(a)) && a == age),
        0 <= age <= 150 ==> r is Ok,
{
    if age < 0 {
        return Err(AgeError::Negative(age));
    }
    if age > 150 {
        return Err(AgeError::ImplausiblyLarge(age));
    }
    Ok(())
}

#[verifier::external_type_specification]
#[verifier::external_body]
pub struct ExIoError(std::io::Error);

#[verifier::external_type_specification]
#[verifier::external_body]
pub struct ExParseIntError(std::num::ParseIntError);

#[verifier::external_type_specification]
#[verifier::external_body]
pub struct ExAnyhowError(anyhow::Error);

/// `io::Error`'s `Display`. What it reads depends on the error's kind and, for an error
/// of the operating system, on that system's own message for it, so nothing is stated.
#[verifier::external_body]
pub(crate) fn io_error_text(e: &std::io::Error) -> (r: String) {
    e.to_string()
}

/// `ParseIntError`'s `Display`. Its documentation does not give the messages, so nothing
/// is stated.
#[verifier::external_body]
pub(crate) fn parse_int_error_text(e: &std::num::ParseIntError) -> (r: String) {
    e.to_string()
}

/// `anyhow::Error`'s `Display`: the outermost message of the error. The error is opaque
/// here, so nothing is stated.
#[verifier::external_body]
fn anyhow_error_text(e: &anyhow::Error) -> (r: String) {
    e.to_string()
}

/// A configuration file that could not be loaded, and the I/O error that stopped it.
pub struct ConfigError {
    pub path: String,
    pub source: std::io::Error,
}

impl ConfigError {
    /// `failed to load config from '<path>'`.
    pub fn to_string(&self) -> (r: String)
        ensures
            r@ == "failed to load config from '"@ + self.path@ + "'"@,
    {
        let mut r = joined("failed to load config from '", self.path.as_str());
        r.append("'");
        r
    }

    /// The I/O error that caused this one.
    pub fn source(&self) -> (r: &std::io::Error)
        ensures
            r == &self.source,
    {
        &self.source
    }
}

/// What the application can fail with.
pub enum AppError {
    Io(std::io::Error),
    Parse(std::num::ParseIntError),
    NotFound(String),
    Unauthorized { user: String, action: String },
    Other(anyhow::Error),
}

impl AppError {
    /// The message of the error. An `Other` error reads as the error it carries.
    pub fn to_string(&self) -> (r: String)
        ensures
            self is Io ==> "I/O error: "@.is_prefix_of(r@),
            self is Parse ==> "parse error: "@.is_prefix_of(r@),
            self matches AppError::NotFound(name) ==> r@ == "not found: "@ + name@,
            self matches AppError::Unauthorized { user, action } ==> r@ == "user '"@ + user@
                + "' cannot '"@ + action@ + "'"@,
    {
        match self {
            AppError::Io(e) => {
                let text = io_error_text(e);
                joined("I/O error: ", text.as_str())
            },
            AppError::Parse(e) => {
                let text = parse_int_error_text(e);
                joined("parse error: ", text.as_str())
            },
            AppError::NotFound(name) => joined("not found: ", name.as_str()),
            AppError::Unauthorized { user, action } => {
                let mut r = joined("user '", user.as_str());
                r.append("' cannot '");
                r.append(action.as_str());
                r.append("'");
                r
            },
            AppError::Other(e) => anyhow_error_text(e),
        }
    }
}

/// What the database layer can fail with. A failed migration carries the message of the
/// error that made it fail.
pub enum DatabaseError {
    ConnectionRefused { host: String, port: u16 },
    QueryFailed { message: String },
    Migration(String),
}

impl DatabaseError {
    /// The message of the error.
    pub fn to_string(&self) -> (r: String)
        ensures
            self matches DatabaseError::ConnectionRefused { host, port } ==> r@
                == "connection refused on '"@ + host@ + ":"@ + decimal(port as nat) + "'"@,
            self matches DatabaseError::QueryFailed { message } ==> r@ == "query failed: "@ + message@,
            self is Migration ==> r@ == "migration error"@,
    {
        match self {
            DatabaseError::ConnectionRefused { host, port } => {
                let mut r = joined("connection refused on '", host.as_str());
                r.append(":");
                r.append(decimal_text(*port as u64).as_str());
                r.append("'");
                r
            },
            DatabaseError::QueryFailed { message } => joined("query failed: ", message.as_str()),
            DatabaseError::Migration(_) => String::from_str("migration error"),
        }
    }
}

/// What the service can fail with: a failure of one of its layers, or an error status from
/// the API it calls.
pub enum ServiceError {
    Database(DatabaseError),
    Config(ConfigError),
    Upstream { status: u16 },
}

/// The error that caused a [`ServiceError`].
pub enum ServiceErrorSource<'a> {
    Database(&'a DatabaseError),
    Config(&'a ConfigError),
}

impl<'a> ServiceErrorSource<'a> {
    /// The message of the underlying error.
    pub fn to_string(&self) -> (r: String)
        ensures
            self matches ServiceErrorSource::Database(e) ==> r@ == database_text(**e),
            self matches ServiceErrorSource::Config(e) ==> r@ == "failed to load config from '"@
                + e.path@ + "'"@,
    {
        match self {
            ServiceErrorSource::Database(e) => e.to_string(),
            ServiceErrorSource::Config(e) => e.to_string(),
        }
    }
}

/// The message of a database error.
pub open spec fn database_text(e: DatabaseError) -> Seq<char> {
    match e {
        DatabaseError::ConnectionRefused { host, port } => "connection refused on '"@ + host@ + ":"@
            + decimal(port as nat) + "'"@,
        DatabaseError::QueryFailed { message } => "query failed: "@ + message@,
        DatabaseError::Migration(_) => "migration error"@,
    }
}

impl ServiceError {
    /// The message of the error.
    pub fn to_string(&self) -> (r: String)
        ensures
            self is Database ==> r@ == "database layer failed"@,
            self is Config ==> r@ == "config load failed"@,
            self matches ServiceError::Upstream { status } ==> r@ == "upstream API error: "@ + decimal(
                status as nat,
            ),
    {
        match self {
            ServiceError::Database(_) => String::from_str("database layer failed"),
            ServiceError::Config(_) => String::from_str("config load failed"),
            ServiceError::Upstream { status } => joined("upstream API error: ", decimal_text(*status as u64).as_str()),
        }
    }

    /// The error of the layer that failed; an error status of the API has none.
    pub fn source(&self) -> (r: Option<ServiceErrorSource<'_>>)
        ensures
            self matches ServiceError::Database(e) ==> r == Some(ServiceErrorSource::Database(&e)),
            self matches ServiceError::Config(e) ==> r == Some(ServiceErrorSource::Config(&e)),
            self is Upstream ==> r is None,
    {
        match self {
            ServiceError::Database(e) => Some(ServiceErrorSource::Database(e)),
            ServiceError::Config(e) => Some(ServiceErrorSource::Config(e)),
            ServiceError::Upstream { .. } => None,
        }
    }
}

/// Looks a user up: id 0 fails as a refused connection to `db.example.com:5432`, and every
/// other id names the user `user_<id>`.
pub fn get_user(id: u32) -> (r: Result<String, ServiceError>)
    ensures
        id == 0 ==> (r matches Err(ServiceError::Database(DatabaseError::ConnectionRefused { host, port }))
            && host@ == "db.example.com"@ && port == 5432),
        id != 0 ==> (r matches Ok(name) && name@ == "user_"@ + decimal(id as nat)),
{
    if id == 0 {
        return Err(
            ServiceError::Database(
                DatabaseError::ConnectionRefused { host: String::from_str("db.example.com"), port: 5432 },
            ),
        );
    }
    Ok(joined("user_", decimal_text(id as u64).as_str()))
}

/// Why a user name was refused.
pub enum UsernameError {
    Empty,
    TooLong(String),
}

impl UsernameError {
    /// The message of the error.
    pub fn to_string(&self) -> (r: String)
        ensures
            self is Empty ==> r@ == "username cannot be empty"@,
            self matches UsernameError::TooLong(name) ==> r@ == "username '"@ + name@
                + "' exceeds 32 characters"@,
    {
        match self {
            UsernameError::Empty => String::from_str("username cannot be empty"),
            UsernameError::TooLong(name) => {
                let mut r = joined("username '", name.as_str());
                r.append("' exceeds 32 characters");
                r
            },
        }
    }
}

/// Accepts a user name that is not empty and takes at most 32 bytes.
pub fn validate_username(name: &str) -> (r: Result<(), UsernameError>)
    ensures
        name@.len() == 0 ==> r matches Err(UsernameError::Empty),
        name@.len() != 0 && name.len() > 32 ==> (r matches Err(UsernameError::TooLong(n))
            && n@ == name@),
        name@.len() != 0 && name.len() <= 32 ==> r is Ok,
{
    if name.is_empty() {
        return Err(UsernameError::Empty);
    }
    if name.len() > 32 {
        return Err(UsernameError::TooLong(String::from_str(name)));
    }
    Ok(())
}

/// Why a port number was refused.
pub enum PortError {
    Parse(std::num::ParseIntError),
    OutOfRange(u32),
}

impl PortError {
    /// The message of the error: the parse error's own, or the number and the valid range.
    pub fn to_string(&self) -> (r: String)
        ensures
            self matches PortError::OutOfRange(n) ==> r@ == "port "@ + decimal(n as nat)
                + " is out of valid range 0\u{2013}65535"@,
    {
        match self {
            PortError::Parse(e) => parse_int_error_text(e),
            PortError::OutOfRange(n) => {
                let mut r = joined("port ", decimal_text(*n as u64).as_str());
                r.append(" is out of valid range 0\u{2013}65535");
                r
            },
        }
    }
}

/// Reads a port number: `s` without its surrounding white space must be a decimal number
/// that fits in a `u32` (else the parse error), and at most 65535.
pub fn parse_port(s: &str) -> (r: Result<u16, PortError>)
    ensures
        (match crate::text::unsigned_text_value(crate::text::trimmed(s@)) {
            Some(n) => if n <= 65535 {
                r == Ok::<u16, PortError>(n as u16)
            } else if n <= u32::MAX {
                r matches Err(PortError::OutOfRange(m)) && m == n
            } else {
                r matches Err(PortError::Parse(_))
            },
            None => r matches Err(PortError::Parse(_)),
        }),
{
    let t = crate::text::trim_text(s);
    match crate::text::parse_u32(t) {
        Err(e) => Err(PortError::Parse(e)),
        Ok(n) => {
            if n > 65535 {
                Err(PortError::OutOfRange(n))
            } else {
                Ok(n as u16)
            }
        },
    }
}

} // verus!
