use message_text::IllegalArgumentException;
use message_text::IllegalStateException;
use std::error::Error;

fn function_that_fails() -> Result<(), IllegalArgumentException> {
    Err(IllegalArgumentException::new("Test propagation"))
}

fn propagate_error() -> Result<(), Box<dyn Error>> {
    function_that_fails().map_err(|error| error.to_string())?;
    Ok(())
}

fn may_fail(value: i32) -> Result<(), Box<dyn Error>> {
    if value < 0 {
        Err(IllegalArgumentException::new("Value cannot be negative")
            .to_string()
            .into())
    } else if value > 100 {
        Err(IllegalStateException::new("Value too large")
            .to_string()
            .into())
    } else {
        Ok(())
    }
}

#[test]
fn test_illegal_argument_exception_creation() {
    let error_msg = "Test error message";
    let exception = IllegalArgumentException::new(error_msg);

    // The message is stored as given.
    assert_eq!(exception.description(), error_msg);

    let debug_output = format!("{:?}", exception);
    assert!(debug_output.contains(error_msg));

    let display_output = format!("{}", exception.to_string());
    assert_eq!(display_output, error_msg);

    let description = exception.to_string();
    assert_eq!(description, error_msg);
}

#[test]
fn test_illegal_state_exception_creation() {
    let error_msg = "Test state error";
    let exception = IllegalStateException::new(error_msg);

    // The message is stored as given.
    assert_eq!(exception.description(), error_msg);

    let debug_output = format!("{:?}", exception);
    assert!(debug_output.contains(error_msg));

    let display_output = format!("{}", exception.to_string());
    assert_eq!(display_output, error_msg);

    let description = exception.to_string();
    assert_eq!(description, error_msg);
}

#[test]
fn test_error_propagation() {
    let result = propagate_error();
    assert!(result.is_err());
    if let Err(boxed_error) = result {
        let error_message = boxed_error.to_string();
        assert_eq!(error_message, "Test propagation");
    }
}

#[test]
fn test_error_conversion() {
    let arg_exception = IllegalArgumentException::new("Invalid argument");
    let boxed_error: Box<dyn Error> = arg_exception.to_string().into();
    assert_eq!(boxed_error.to_string(), "Invalid argument");

    let state_exception = IllegalStateException::new("Invalid state");
    let boxed_error: Box<dyn Error> = state_exception.to_string().into();
    assert_eq!(boxed_error.to_string(), "Invalid state");
}

#[test]
fn test_error_as_return_type() {
    let result = may_fail(-10);
    assert!(result.is_err());
    if let Err(error) = result {
        assert_eq!(error.to_string(), "Value cannot be negative");
    }

    let result = may_fail(150);
    assert!(result.is_err());
    if let Err(error) = result {
        assert_eq!(error.to_string(), "Value too large");
    }

    let result = may_fail(50);
    assert!(result.is_ok());
}

#[test]
fn test_error_trait_methods() {
    let arg_exception = IllegalArgumentException::new("Test error");
    let boxed: Box<dyn Error> = arg_exception.to_string().into();
    let error: &dyn Error = boxed.as_ref();

    // There is no underlying cause.
    assert!(error.source().is_none());
    assert_eq!(arg_exception.to_string(), "Test error");

    let state_exception = IllegalStateException::new("Test state error");
    let boxed: Box<dyn Error> = state_exception.to_string().into();
    let error: &dyn Error = boxed.as_ref();

    assert!(error.source().is_none());
    assert_eq!(state_exception.to_string(), "Test state error");
}

#[test]
fn test_debug_formatting() {
    let arg_exception = IllegalArgumentException::new("Test arg error");
    let debug_str = format!("{:?}", arg_exception);
    assert!(debug_str.contains("IllegalArgumentException"));
    assert!(debug_str.contains("Test arg error"));

    let state_exception = IllegalStateException::new("Test state error");
    let debug_str = format!("{:?}", state_exception);
    assert!(debug_str.contains("IllegalStateException"));
    assert!(debug_str.contains("Test state error"));
}

#[test]
fn error_messages_are_kept_as_given() {
    let message = "  Mixed CASE, {braces}\n and ünïcödé ";
    assert_eq!(IllegalArgumentException::new(message).description(), message);
    assert_eq!(IllegalStateException::new(message).description(), message);
    assert_eq!(IllegalArgumentException::new("").to_string(), "");
    assert_eq!(IllegalStateException::new("").to_string(), "");
}
