use perms::utils::new_boxed_slice;

#[test]
fn boxed_slice_is_empty() {
    assert_eq!(new_boxed_slice(8).len(), 0);
    assert_eq!(new_boxed_slice(0).len(), 0);
}
