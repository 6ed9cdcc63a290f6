use markdown_core::scopes::first_repeated_name;

#[test]
fn the_first_name_repeated_in_its_scope_is_found() {
    assert_eq!(first_repeated_name(&[]), None);
    assert_eq!(
        first_repeated_name(&[(None, Some("a")), (Some(0), Some("a")), (Some(1), Some("a"))]),
        None
    );
    assert_eq!(
        first_repeated_name(&[(None, Some("a")), (Some(0), Some("b")), (Some(0), Some("c")), (Some(0), Some("b")), (None, Some("a"))]),
        Some(3)
    );
    assert_eq!(first_repeated_name(&[(None, None), (None, None)]), None);
    assert_eq!(first_repeated_name(&[(Some(2), Some("x")), (Some(2), None), (Some(2), Some("x"))]), Some(2));
}
