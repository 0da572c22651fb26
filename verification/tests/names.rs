use mu::text::{classify, join, lies_under, to_logical_path, Kind};

fn kind(path: &str) -> Kind {
    classify(&path.chars().collect())
}

#[test]
fn the_root_has_the_empty_name() {
    assert_eq!(to_logical_path("/home/me/project", "/home/me/project"), "");
    assert_eq!(to_logical_path("", ""), "");
}

#[test]
fn components_below_the_root_are_joined_by_dots() {
    assert_eq!(to_logical_path("/home/me/project", "/home/me/project/a/b"), "a.b");
    assert_eq!(to_logical_path("/home/me/project", "/home/me/project/a"), "a");
    assert_eq!(to_logical_path("root", "root/a/b"), "a.b");
}

#[test]
fn a_root_that_ends_in_a_separator_is_cut_off_whole() {
    assert_eq!(to_logical_path("/", "/a/b"), "a.b");
    assert_eq!(to_logical_path("project/", "project/theories/Lists"), "theories.Lists");
}

#[test]
fn under_the_empty_root_every_path_is_relative() {
    assert_eq!(to_logical_path("", "a/b/c"), "a.b.c");
}

#[test]
fn join_puts_one_separator_between_directory_and_name() {
    assert_eq!(join("/project", "a.v"), "/project/a.v");
    assert_eq!(join("/project/", "a.v"), "/project/a.v");
    assert_eq!(join("", "a.v"), "a.v");
    assert_eq!(join("/", "sub"), "/sub");
}

#[test]
fn a_joined_path_has_the_name_of_its_entry() {
    let directory = join("/project", "theories");
    assert_eq!(to_logical_path("/project", &directory), "theories");
    let deeper = join(&directory, "Lists");
    assert_eq!(to_logical_path("/project", &deeper), "theories.Lists");
}

#[test]
fn sources_and_objects_are_told_by_their_extension() {
    assert_eq!(kind("a.v"), Kind::Source);
    assert_eq!(kind("dir/a.v"), Kind::Source);
    assert_eq!(kind("a.vo"), Kind::Object);
    assert_eq!(kind("a.b.vo"), Kind::Object);
    assert_eq!(kind("a.glob"), Kind::Foreign);
    assert_eq!(kind("a.vv"), Kind::Foreign);
    assert_eq!(kind("a.V"), Kind::Foreign);
    assert_eq!(kind("a."), Kind::Foreign);
}

#[test]
fn a_name_without_an_inner_dot_has_no_extension() {
    assert_eq!(kind("Makefile"), Kind::Plain);
    assert_eq!(kind(""), Kind::Plain);
    assert_eq!(kind(".v"), Kind::Plain);
    assert_eq!(kind("dir/.v"), Kind::Plain);
    assert_eq!(kind(".."), Kind::Plain);
    assert_eq!(kind("dir.v/file"), Kind::Plain);
}

#[test]
fn dots_before_the_last_belong_to_the_name() {
    assert_eq!(kind("..v"), Kind::Source);
    assert_eq!(kind("a.tar.v"), Kind::Source);
    assert_eq!(kind("..."), Kind::Foreign);
}

#[test]
fn lying_under_a_directory_takes_a_separator() {
    assert!(lies_under("/p", "/p"));
    assert!(lies_under("/p", "/p/a"));
    assert!(lies_under("/p/", "/p/a"));
    assert!(lies_under("", "a/b"));
    assert!(!lies_under("/p", "/pa"));
    assert!(!lies_under("/p/a", "/p"));
    assert!(!lies_under("/p", "/q/a"));
}

#[test]
fn empty_components_are_left_out_of_a_name() {
    assert_eq!(to_logical_path("/r", "/r/a/"), "a");
    assert_eq!(to_logical_path("/r", "/r/a//b"), "a.b");
    assert_eq!(to_logical_path("/r", "/r//a/b//"), "a.b");
    assert_eq!(to_logical_path("/r", "/r/"), "");
    assert_eq!(to_logical_path("", "/a/b"), "a.b");
}

#[test]
fn separators_at_the_end_do_not_change_the_kind() {
    assert_eq!(kind("a.v/"), Kind::Source);
    assert_eq!(kind("dir/a.vo//"), Kind::Object);
    assert_eq!(kind("dir//a.v"), Kind::Source);
    assert_eq!(kind("a.txt/"), Kind::Foreign);
    assert_eq!(kind("Makefile/"), Kind::Plain);
    assert_eq!(kind("/"), Kind::Plain);
    assert_eq!(kind("../"), Kind::Plain);
}
