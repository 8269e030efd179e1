use rust_ml::base::error::{Error, ErrorKind};

#[test]
fn error_keeps_kind_and_message() {
    let e = Error::new(ErrorKind::InvalidState, "label not found");
    assert_eq!(*e.kind(), ErrorKind::InvalidState);
    assert_eq!(e.message(), "label not found");
}

#[test]
fn error_kinds_differ() {
    let a = Error::new(ErrorKind::InvalidData, "x");
    let b = Error::new(ErrorKind::UntrainedModel, "x");
    assert_ne!(*a.kind(), *b.kind());
    assert_eq!(*Error::new(ErrorKind::LinAlgError, "").kind(), ErrorKind::LinAlgError);
    assert_eq!(*Error::new(ErrorKind::InvalidParameters, "").kind(), ErrorKind::InvalidParameters);
}
