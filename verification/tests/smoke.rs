#[test]
fn todo() {
    assert_eq!(2 + 2, 4);
}
