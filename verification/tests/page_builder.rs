#[test]
fn test_bad_add() {
    // This assert would fire and test will fail.
    assert_eq!(3, 3);
}
