use zkdb::error::{ErrorEnums, ZKError};

#[test]
fn error_kind_accessors() {
    let u = ErrorEnums::unknown();
    assert_eq!(u.get_code(), 1);
    assert_eq!(u.get_msg(), "unknown");
    assert!(!u.is_success());
    let s = ErrorEnums::success();
    assert_eq!(s.get_code(), 0);
    assert_eq!(s.get_msg(), "success");
    assert!(s.is_success());
    let io = ErrorEnums::io_error();
    assert_eq!(io.get_code(), 2);
    assert_eq!(io.get_msg(), "IO FAILED");
    assert!(!io.is_success());
}

#[test]
fn error_construction() {
    let e = ZKError::new(7, "boom".to_string());
    assert_eq!(e.get_code(), 7);
    assert_eq!(e.get_msg().as_str(), "boom");
    assert!(e.source().is_none());
}

#[test]
fn error_kind_to_error() {
    let e = ErrorEnums::unknown().to_error();
    assert_eq!(e.get_code(), 1);
    assert_eq!(e.get_msg().as_str(), "unknown");
}

#[test]
fn error_describe_plain() {
    let e = ZKError::new(7, "boom".to_string());
    assert_eq!(e.describe(), "code=7,msg=boom");
}

#[test]
fn error_describe_with_cause() {
    let e = ZKError::new(2, "disk".to_string()).with_error("sector gone".to_string());
    assert_eq!(e.describe(), "code=2,msg=disk,err=sector gone");
}

#[test]
fn error_describe_with_wrapped_chain() {
    let inner = ZKError::new(2, "inner".to_string());
    let outer = ZKError::new(1, "outer".to_string()).with_wrapped_error(Box::new(inner));
    assert_eq!(outer.describe(), "code=1,msg=outer,wrapped err=code=2,msg=inner");
    let w = outer.source().unwrap();
    assert_eq!(w.get_code(), 2);
    assert_eq!(w.get_msg().as_str(), "inner");
}

#[test]
fn error_describe_full_chain() {
    let inner = ZKError::new(3, "parse".to_string()).with_error("bad byte".to_string());
    let outer = ZKError::new(1, "store".to_string())
        .with_error("engine".to_string())
        .with_wrapped_error(Box::new(inner));
    assert_eq!(
        outer.describe(),
        "code=1,msg=store,err=engine,wrapped err=code=3,msg=parse,err=bad byte"
    );
}

#[test]
fn error_describe_long_code() {
    let e = ZKError::new(1234567890, "x".to_string());
    assert_eq!(e.describe(), "code=1234567890,msg=x");
}
