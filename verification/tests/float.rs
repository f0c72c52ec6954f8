use ravel::float::{Float, PoisonError};

#[test]
fn into_inner_gives_the_value_back() {
    let value = "hello";
    let float = Float::new(value);
    assert_eq!(float.into_inner(), Ok(value));
}

#[test]
fn as_ref_borrows_the_value() {
    let float = Float::new(true);
    assert_eq!(float.as_ref(), Ok(&true));
}

#[test]
fn as_mut_writes_through() {
    let mut float = Float::new("hello");
    *float.as_mut().unwrap() = "bye";
    assert_eq!(float.into_inner(), Ok("bye"));
}

#[test]
fn float_stores_what_the_callback_returns() {
    let mut float = Float::new("hello".to_string());
    let result = float.float(|value| {
        let pair = (value, "world".to_string());
        assert_eq!(pair.0, "hello");
        ("bye".to_string(), true)
    });
    assert_eq!(result, Ok(true));
    assert_eq!(float.into_inner(), Ok("bye".to_string()));
}

#[test]
fn float_without_result_stores_what_the_callback_returns() {
    let mut float = Float::new("hello".to_string());
    let result = float.float_(|value| {
        assert_eq!(value, "hello");
        "bye".to_string()
    });
    assert_eq!(result, Ok(()));
    assert_eq!(float.as_ref(), Ok(&"bye".to_string()));
}

#[test]
fn float_never_leaves_the_container_empty() {
    let mut float = Float::new(1u32);
    for step in 0..5u32 {
        assert_eq!(float.float(|value| (value + 1, value)), Ok(step + 1));
        assert!(float.as_ref().is_ok());
        assert_eq!(float.float_(|value| value), Ok(()));
        assert!(float.as_ref().is_ok());
    }
    assert_eq!(float.into_inner(), Ok(6));
}

#[test]
fn a_poisoned_float_fails_every_access() {
    let mut float: Float<u32> = Float::poisoned();
    assert_eq!(float.as_ref(), Err(PoisonError));
    assert!(float.as_mut().is_err());
    assert_eq!(float.float(|value| (value, 1u8)), Err(PoisonError));
    assert_eq!(float.float_(|value| value), Err(PoisonError));
    assert_eq!(float.as_ref(), Err(PoisonError));
    assert_eq!(float.into_inner(), Err(PoisonError));
}

#[test]
fn a_poisoned_float_does_not_call_the_callback() {
    let mut float: Float<u32> = Float::poisoned();
    let mut called = false;
    let result = float.float_(|value| {
        called = true;
        value
    });
    assert_eq!(result, Err(PoisonError));
    assert!(!called);
}

#[test]
fn poison_error_has_a_message() {
    assert_eq!(PoisonError.message(), "poisoned float: task unwinded while value was floated");
}
