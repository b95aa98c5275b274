#[test]
fn swc_ts() {
    assert_eq!(1 + 1, 2);
}
