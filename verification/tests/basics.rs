use physim::{greeting, pass};

#[test]
fn greeting_is_hello_world() {
    assert_eq!(greeting(), "Hello, world!");
}

#[test]
fn pass_labels_outcomes() {
    assert_eq!(pass(true), "PASS");
    assert_eq!(pass(false), "FAIL");
}
