use iris::error::IrisError;
use iris::text::{decimal_string, list_string};

#[test]
fn test_error_formatting() {
    let err = IrisError::Generic("test error".to_string());
    assert_eq!(err.message(), "Generic error: test error");

    let err_dim = IrisError::DimensionMismatch { expected: vec![1, 2, 3], actual: vec![1, 2] };
    assert!(err_dim.message().contains("Dimension mismatch"));
}

#[test]
fn error_texts_of_every_kind() {
    let dim = IrisError::DimensionMismatch { expected: vec![1, 2, 3], actual: vec![] };
    assert_eq!(dim.message(), "Dimension mismatch: expected [1, 2, 3], found []");
    assert_eq!(IrisError::Tensor("t".into()).message(), "Tensor operation failed: t");
    assert_eq!(IrisError::InvalidParameter("p".into()).message(), "Invalid parameter: p");
    assert_eq!(IrisError::ModelLoad("m".into()).message(), "Model load failure: m");
    assert_eq!(IrisError::Inference("i".into()).message(), "Model execution or inference failure: i");
    assert_eq!(IrisError::FeatureNotImplemented("f".into()).message(), "Feature not implemented: f");
}

#[test]
fn numbers_in_decimal() {
    assert_eq!(decimal_string(0), "0");
    assert_eq!(decimal_string(7), "7");
    assert_eq!(decimal_string(1234567890), "1234567890");
    assert_eq!(decimal_string(usize::MAX), format!("{}", usize::MAX));
    assert_eq!(list_string(&vec![10, 0, 305]), "[10, 0, 305]");
    assert_eq!(list_string(&vec![42]), format!("{:?}", vec![42usize]));
}
