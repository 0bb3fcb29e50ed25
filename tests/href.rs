use whim::href::Href;

#[test]
fn path_items_counts() {
    assert_eq!("/index.html".to_string().path_items(), 1);
    assert_eq!("/blog/".to_string().path_items(), 2);
    assert_eq!("../x".to_string().path_items(), 2);
    assert_eq!("".to_string().path_items(), 1);
    assert_eq!("notes/a.md".to_string().path_items(), 2);
}

#[test]
fn parent_accessors_counts() {
    assert_eq!("../../x".to_string().parent_accessors(), 2);
    assert_eq!("...".to_string().parent_accessors(), 1);
    assert_eq!("....".to_string().parent_accessors(), 2);
    assert_eq!("a/b".to_string().parent_accessors(), 0);
}
