use ootr::n64::rust_add;

#[test]
fn rust_add_adds() {
    assert_eq!(rust_add(2, 3), 5);
}

#[test]
fn rust_add_wraps() {
    assert_eq!(rust_add(u32::MAX, 2), 1);
    assert_eq!(rust_add(0x8000_0000, 0x8000_0000), 0);
}
