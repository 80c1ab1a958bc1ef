trait HelloMacro {
    fn hello_macro() -> String {
        String::from("666")
    }
}

struct A;

// Returns the name of the implementing type.
impl HelloMacro for A {
    fn hello_macro() -> String {
        String::from("A")
    }
}

#[test]
fn test_macro() {
    assert_eq!(A::hello_macro(), "A".to_string());
}
