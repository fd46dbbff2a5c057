use kv::err::ErrCode;
use kv::err::Error;

#[test]
fn test_err_debug() {
    let err = Error {
        code: ErrCode::ReadDataFileFailed,
        msg: "Error message here".to_string(),
    };
    println!("{:?}", err);
}

#[test]
fn error_new_keeps_code_and_message() {
    let err = Error::new(ErrCode::KeyNotFoundError, "missing");
    assert_eq!(err.code, ErrCode::KeyNotFoundError);
    assert_eq!(err.msg, "missing");
}

#[test]
fn error_codes_describe_themselves() {
    assert_eq!(ErrCode::ReadDataFileFailed.message(), "Failed to read data file");
    assert_eq!(ErrCode::EmptyKeyError.message(), "The key is empty");
    assert_eq!(ErrCode::AcquireWriteLockFailed.message(), "Failed to acquire write lock");
}
