use cconfig::path::parent_directory;

#[test]
fn parent_directory_ends_before_the_last_slash() {
    assert_eq!(parent_directory("test/foo.txt"), Some(String::from("test")));
    assert_eq!(parent_directory("a/b/c.txt"), Some(String::from("a/b")));
    assert_eq!(parent_directory("/foo.txt"), Some(String::from("")));
    assert_eq!(parent_directory("dir/"), Some(String::from("dir")));
}

#[test]
fn parent_directory_falls_back_to_the_backslash() {
    assert_eq!(parent_directory("a\\b\\c.txt"), Some(String::from("a\\b")));
    assert_eq!(parent_directory("a\\b/c\\d.txt"), Some(String::from("a\\b")));
}

#[test]
fn parent_directory_of_a_bare_name_is_none() {
    assert_eq!(parent_directory("foo.txt"), None);
    assert_eq!(parent_directory(""), None);
}
