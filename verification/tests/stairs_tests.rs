#[test]
fn placeholder_compiles() {
    assert!(true);
}
