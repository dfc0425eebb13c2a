use regressor_rs::error::{RegressorError, RegressorResult};

#[test]
fn display_messages_are_stable() {
    assert_eq!(RegressorError::NotFitted.to_string(), "Model not fitted yet");
    assert_eq!(
        RegressorError::SizeMismatch.to_string(),
        "Size of Features and Target dont match"
    );
    assert_eq!(
        RegressorError::InvalidInput("x".into()).to_string(),
        "Invalid Input"
    );
    assert_eq!(RegressorError::EmptyInput.to_string(), "Empty Input");
    assert_eq!(
        RegressorError::Exception("boom".into()).to_string(),
        "Exception: boom"
    );
}

#[test]
fn result_carries_the_error_variant() {
    fn fails() -> RegressorResult<()> {
        Err(RegressorError::NotFitted)
    }
    let err = fails().unwrap_err();
    assert!(matches!(err, RegressorError::NotFitted));
}

#[test]
fn exception_message_keeps_its_text_verbatim() {
    assert_eq!(
        RegressorError::Exception(String::new()).to_string(),
        "Exception: "
    );
    assert_eq!(
        RegressorError::Exception("Cannot compute R^2 with zero variance in y_true ".into())
            .to_string(),
        "Exception: Cannot compute R^2 with zero variance in y_true "
    );
}
