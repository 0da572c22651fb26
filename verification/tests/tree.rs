use mu::package::{Entry, FileTree, Package};

fn names(list: &[&str]) -> Vec<String> {
    list.iter().map(|s| s.to_string()).collect()
}

fn file(name: &str) -> Entry {
    Entry::File(name.to_string())
}

fn directory(name: &str, entries: Vec<Entry>) -> Entry {
    Entry::Directory(name.to_string(), entries)
}

#[test]
fn the_empty_tree_has_no_directory() {
    let tree = FileTree::empty();
    assert!(tree.directories.is_empty());
    assert!(!tree.contains_key("/p"));
}

#[test]
fn the_root_is_kept_though_it_holds_nothing() {
    let tree = FileTree::from_root("/p", &vec![]);
    assert_eq!(tree.directories, vec![("/p".to_string(), vec![])]);
    assert!(tree.contains_key("/p"));
}

#[test]
fn the_root_is_kept_though_nothing_in_it_counts() {
    let tree = FileTree::from_root(
        "/p",
        &vec![file("README.md"), file("a.vo"), directory("doc", vec![file("index.html")])],
    );
    assert_eq!(tree.directories, vec![("/p".to_string(), vec![])]);
}

#[test]
fn a_directory_without_sources_is_left_out() {
    let tree = FileTree::from_root(
        "/p",
        &vec![
            directory("junk", vec![file("a.txt"), file("b.vo"), file("Makefile")]),
            file("x.v"),
        ],
    );
    assert!(!tree.contains_key("/p/junk"));
    assert_eq!(tree.directories, vec![("/p".to_string(), names(&["/p/x.v"]))]);
}

#[test]
fn a_directory_of_empty_directories_is_left_out() {
    let tree = FileTree::from_root(
        "/p",
        &vec![directory("a", vec![directory("b", vec![]), directory("c", vec![file("n.txt")])])],
    );
    assert_eq!(tree.directories, vec![("/p".to_string(), vec![])]);
    assert!(!tree.contains_key("/p/a"));
    assert!(!tree.contains_key("/p/a/b"));
    assert!(!tree.contains_key("/p/a/c"));
}

#[test]
fn a_directory_is_kept_for_a_source_deep_below_it() {
    let tree = FileTree::from_root(
        "/p",
        &vec![directory("a", vec![directory("b", vec![file("deep.v")]), file("n.txt")])],
    );
    assert_eq!(
        tree.directories,
        vec![
            ("/p/a/b".to_string(), names(&["/p/a/b/deep.v"])),
            ("/p/a".to_string(), names(&["/p/a/b"])),
            ("/p".to_string(), names(&["/p/a"])),
        ]
    );
}

#[test]
fn directories_stand_behind_the_directories_below_them() {
    let tree = FileTree::from_root(
        "/p",
        &vec![
            file("z.v"),
            directory("lib", vec![file("a.v"), directory("deep", vec![file("b.v")]), file("c.v")]),
            file("notes.txt"),
            directory("util", vec![file("u.v")]),
            file("y.v"),
        ],
    );
    assert_eq!(
        tree.directories,
        vec![
            ("/p/lib/deep".to_string(), names(&["/p/lib/deep/b.v"])),
            ("/p/lib".to_string(), names(&["/p/lib/a.v", "/p/lib/deep", "/p/lib/c.v"])),
            ("/p/util".to_string(), names(&["/p/util/u.v"])),
            ("/p".to_string(), names(&["/p/z.v", "/p/lib", "/p/util", "/p/y.v"])),
        ]
    );
    assert!(tree.contains_key("/p/lib/deep"));
    assert!(!tree.contains_key("/p/z.v"));
}

#[test]
fn the_children_are_parted_in_directories_and_files() {
    let tree = FileTree::from_root(
        "/p",
        &vec![file("z.v"), directory("lib", vec![file("a.v")]), file("y.v")],
    );
    let (directories, files) = tree.split(1);
    assert_eq!(directories, names(&["/p/lib"]));
    assert_eq!(files, names(&["/p/z.v", "/p/y.v"]));
    let (directories, files) = tree.split(0);
    assert!(directories.is_empty());
    assert_eq!(files, names(&["/p/lib/a.v"]));
}

#[test]
fn a_package_holds_the_tree_of_its_root() {
    let package = Package::new(
        "/p",
        "demo".to_string(),
        "1.2.3".to_string(),
        &vec![directory("d", vec![file("a.v")])],
    );
    assert_eq!(package.root, "/p");
    assert_eq!(package.name, "demo");
    assert_eq!(package.version, "1.2.3");
    assert!(package.authors.is_none());
    assert!(package.dependencies.is_empty());
    assert_eq!(
        package.filetree.directories,
        vec![("/p/d".to_string(), names(&["/p/d/a.v"])), ("/p".to_string(), names(&["/p/d"]))]
    );
}

#[test]
fn a_tree_read_from_a_root_is_rooted_there() {
    let mut package = Package::new(
        "/p",
        "demo".to_string(),
        "1.0".to_string(),
        &vec![directory("d", vec![file("a.v")])],
    );
    assert!(package.is_rooted());
    package.root = "/q".to_string();
    assert!(!package.is_rooted());
    package.root = "/p".to_string();
    package.filetree.directories[0].1.clear();
    assert!(!package.is_rooted());
    package.filetree = FileTree::empty();
    assert!(!package.is_rooted());
    package.filetree = FileTree::from_root("/p", &vec![]);
    assert!(package.is_rooted());
    package.filetree.directories.insert(0, ("/elsewhere".to_string(), names(&["/elsewhere/a.v"])));
    assert!(!package.is_rooted());
}

fn tree(directories: &[(&str, &[&str])]) -> FileTree {
    FileTree {
        directories: directories
            .iter()
            .map(|(path, children)| (path.to_string(), names(children)))
            .collect(),
    }
}

#[test]
fn a_tree_that_names_a_directory_twice_is_not_sound() {
    let twice = tree(&[("/r/a", &["/r/a/x.v"]), ("/r/a", &["/r/a/y.v"]), ("/r", &["/r/a"])]);
    assert!(!twice.has_no_key_twice());
    let once = tree(&[("/r/a", &["/r/a/x.v"]), ("/r/b", &["/r/b/y.v"]), ("/r", &["/r/a", "/r/b"])]);
    assert!(once.has_no_key_twice());
    assert!(FileTree::empty().has_no_key_twice());
}

#[test]
fn a_directory_before_a_directory_among_its_children_is_out_of_order() {
    let upside_down = tree(&[("/r/a", &["/r/a/b"]), ("/r/a/b", &["/r/a/b/x.v"]), ("/r", &["/r/a"])]);
    assert!(!upside_down.stands_bottom_up());
    let bottom_up = tree(&[("/r/a/b", &["/r/a/b/x.v"]), ("/r/a", &["/r/a/b"]), ("/r", &["/r/a"])]);
    assert!(bottom_up.stands_bottom_up());
    let own_child = tree(&[("/r", &["/r"])]);
    assert!(!own_child.stands_bottom_up());
    assert!(FileTree::empty().stands_bottom_up());
}

#[test]
fn a_package_is_rooted_only_with_a_sound_tree() {
    let mut package = Package::new("/r", "demo".to_string(), "1.0".to_string(), &vec![]);
    package.filetree =
        tree(&[("/r/a", &["/r/a/b"]), ("/r/a/b", &["/r/a/b/x.v"]), ("/r", &["/r/a"])]);
    assert!(!package.is_rooted());
    package.filetree =
        tree(&[("/r/a", &["/r/a/x.v"]), ("/r/a", &["/r/a/y.v"]), ("/r", &["/r/a"])]);
    assert!(!package.is_rooted());
    package.filetree =
        tree(&[("/r/a/b", &["/r/a/b/x.v"]), ("/r/a", &["/r/a/b"]), ("/r", &["/r/a"])]);
    assert!(package.is_rooted());
}

#[test]
fn a_scanned_listing_gives_a_rooted_tree() {
    let package = Package::new(
        "/r",
        "demo".to_string(),
        "1.0".to_string(),
        &vec![
            directory("a", vec![directory("b", vec![file("x.v")]), file("y.v")]),
            file("z.v"),
            directory("c", vec![file("w.v")]),
        ],
    );
    assert!(package.is_rooted());
    assert!(package.filetree.has_no_key_twice());
    assert!(package.filetree.stands_bottom_up());
}

#[test]
fn entries_with_one_name_twice_give_a_tree_that_is_not_rooted() {
    let package = Package::new(
        "/r",
        "demo".to_string(),
        "1.0".to_string(),
        &vec![directory("a", vec![file("x.v")]), directory("a", vec![file("y.v")])],
    );
    assert!(!package.is_rooted());
}

#[test]
fn a_directory_without_sources_at_any_depth_is_no_child_either() {
    let tree = FileTree::from_root(
        "/p",
        &vec![
            directory(
                "lib",
                vec![
                    file("a.v"),
                    directory(
                        "doc",
                        vec![file("index.html"), directory("img", vec![file("logo.png")])],
                    ),
                ],
            ),
            directory("junk", vec![directory("more", vec![file("b.vo")])]),
        ],
    );
    assert_eq!(
        tree.directories,
        vec![
            ("/p/lib".to_string(), names(&["/p/lib/a.v"])),
            ("/p".to_string(), names(&["/p/lib"])),
        ]
    );
    for absent in ["/p/lib/doc", "/p/lib/doc/img", "/p/junk", "/p/junk/more"] {
        assert!(!tree.contains_key(absent));
        for (_, children) in &tree.directories {
            assert!(!children.contains(&absent.to_string()));
        }
    }
}
