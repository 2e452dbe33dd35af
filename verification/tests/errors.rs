use wfc::error::MyError;

#[test]
fn message_of_an_unreadable_file() {
    let e = MyError::Io("No such file or directory (os error 2)".to_string());
    assert_eq!(e.message(), "IO error: No such file or directory (os error 2)");
}

#[test]
fn message_of_malformed_data() {
    let e = MyError::Json("expected value at line 1 column 1".to_string());
    assert_eq!(e.message(), "JSON error: expected value at line 1 column 1");
}

#[test]
fn message_of_another_failure() {
    let e = MyError::Other("no window".to_string());
    assert_eq!(e.message(), "Other error: no window");
}

#[test]
fn message_of_an_empty_text() {
    assert_eq!(MyError::Other(String::new()).message(), "Other error: ");
}

#[test]
fn a_string_becomes_another_failure() {
    match MyError::from("no texture".to_string()) {
        MyError::Other(m) => assert_eq!(m, "no texture"),
        other => panic!("expected the other kind, got {:?}", other),
    }
}

fn fails() -> Result<(), MyError> {
    let r: Result<(), String> = Err("broken".to_string());
    r?;
    Ok(())
}

#[test]
fn question_mark_converts_a_string_error() {
    assert!(matches!(fails(), Err(MyError::Other(m)) if m == "broken"));
}
