use raft_core::Error;

#[test]
fn error_text_of_carried_string() {
    assert_eq!(Error::Config("bad peers".into()).to_string(), "bad peers");
    assert_eq!(Error::Internal("disk".into()).to_string(), "disk");
    assert_eq!(Error::Parse("not a number".into()).to_string(), "not a number");
    assert_eq!(Error::Value("out of range".into()).to_string(), "out of range");
}

#[test]
fn error_text_of_fixed_variants() {
    assert_eq!(Error::Serialization.to_string(), "Serialization failure, retry transaction");
    assert_eq!(Error::ReadOnly.to_string(), "Read-only transaction");
}

#[test]
fn error_constructors() {
    assert_eq!(Error::internal("x"), Error::Internal("x".into()));
    assert_eq!(Error::config("y"), Error::Config("y".into()));
    assert_ne!(Error::internal("x"), Error::config("x"));
}

#[test]
fn error_clone_is_equal() {
    let e = Error::Value("v".into());
    assert_eq!(e.clone(), e);
    assert_eq!(Error::ReadOnly.clone(), Error::ReadOnly);
}
