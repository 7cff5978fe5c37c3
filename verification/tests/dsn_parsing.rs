//! Connection-string parsing on concrete inputs.

use rowjoin::dsn::parse_dsn;
use rowjoin::error::Error;

#[test]
fn dsn_full_form() {
    let d = parse_dsn("root:secret@127.0.0.1/test").unwrap();
    assert_eq!(d.user, "root");
    assert_eq!(d.password, "secret");
    assert_eq!(d.host, "127.0.0.1");
    assert_eq!(d.database, "test");
}

#[test]
fn dsn_without_password() {
    let d = parse_dsn("alice@dbhost/prod").unwrap();
    assert_eq!(d.user, "alice");
    assert_eq!(d.password, "");
    assert_eq!(d.host, "dbhost");
    assert_eq!(d.database, "prod");
}

#[test]
fn dsn_database_is_first_segment() {
    let d = parse_dsn("u:p@h/db/extra").unwrap();
    assert_eq!(d.database, "db");
}

#[test]
fn dsn_without_at_is_invalid() {
    assert_eq!(parse_dsn("no-at-sign").unwrap_err(), Error::InvalidDSN);
}

#[test]
fn dsn_without_database_is_invalid() {
    assert_eq!(parse_dsn("user@hostonly").unwrap_err(), Error::InvalidDSN);
}
