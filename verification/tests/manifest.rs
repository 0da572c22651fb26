use mu::error::Error;
use mu::manifest::{describe, ensure_string};
use mu::package::{Entry, Package};

fn names(list: &[&str]) -> Vec<String> {
    list.iter().map(|s| s.to_string()).collect()
}

fn text(s: &str) -> toml::Value {
    toml::Value::String(s.to_string())
}

fn table(entries: Vec<(&str, toml::Value)>) -> toml::Table {
    let mut table = toml::Table::new();
    for (key, value) in entries {
        table.insert(key.to_string(), value);
    }
    table
}

fn sources() -> Vec<Entry> {
    vec![Entry::File("a.v".to_string()), Entry::File("notes.txt".to_string())]
}

#[test]
fn a_string_is_read_from_its_key() {
    let fields = table(vec![("name", text("demo")), ("version", text("0.1.0"))]);
    assert_eq!(ensure_string(&fields, "name").unwrap(), "demo");
    assert_eq!(ensure_string(&fields, "version").unwrap(), "0.1.0");
}

#[test]
fn a_missing_key_is_named() {
    let fields = table(vec![("name", text("demo"))]);
    match ensure_string(&fields, "version") {
        Err(Error::MissingKey(key)) => assert_eq!(key, "version"),
        other => panic!("{:?}", other),
    }
}

#[test]
fn a_value_of_another_type_is_a_mismatch() {
    let fields = table(vec![
        ("name", toml::Value::Integer(3)),
        ("version", toml::Value::Table(toml::Table::new())),
        ("flag", toml::Value::Boolean(true)),
        ("list", toml::Value::Array(vec![text("x")])),
    ]);
    for key in ["name", "version", "flag", "list"] {
        assert!(matches!(ensure_string(&fields, key), Err(Error::TypeMismatch)));
    }
}

#[test]
fn the_description_is_the_name_and_the_version_of_the_package_table() {
    let document = table(vec![
        ("name", text("not this one")),
        (
            "package",
            toml::Value::Table(table(vec![("version", text("1.0")), ("name", text("demo"))])),
        ),
    ]);
    assert_eq!(describe(&document).unwrap(), ("demo".to_string(), "1.0".to_string()));
}

#[test]
fn a_manifest_without_the_package_table_lacks_that_key() {
    let document = table(vec![("name", text("demo")), ("version", text("1.0"))]);
    match describe(&document) {
        Err(Error::MissingKey(key)) => assert_eq!(key, "package"),
        other => panic!("{:?}", other),
    }
}

#[test]
fn a_package_that_is_no_table_is_a_mismatch() {
    let document = table(vec![("package", text("demo"))]);
    assert!(matches!(describe(&document), Err(Error::TypeMismatch)));
}

#[test]
fn the_name_is_asked_for_before_the_version() {
    let document = table(vec![("package", toml::Value::Table(toml::Table::new()))]);
    match describe(&document) {
        Err(Error::MissingKey(key)) => assert_eq!(key, "name"),
        other => panic!("{:?}", other),
    }
    let document = table(vec![(
        "package",
        toml::Value::Table(table(vec![("name", toml::Value::Integer(1))])),
    )]);
    assert!(matches!(describe(&document), Err(Error::TypeMismatch)));
    let document =
        table(vec![("package", toml::Value::Table(table(vec![("name", text("demo"))])))]);
    match describe(&document) {
        Err(Error::MissingKey(key)) => assert_eq!(key, "version"),
        other => panic!("{:?}", other),
    }
}

#[test]
fn a_package_is_made_from_a_table() {
    let document = table(vec![
        (
            "package",
            toml::Value::Table(table(vec![("name", text("demo")), ("version", text("0.3.1"))])),
        ),
        ("dependencies", toml::Value::Table(table(vec![("other", text("1.0"))]))),
    ]);
    let package = Package::from_value("/p", document, &sources()).unwrap();
    assert_eq!(package.root, "/p");
    assert_eq!(package.name, "demo");
    assert_eq!(package.version, "0.3.1");
    assert!(package.authors.is_none());
    assert!(package.dependencies.is_empty());
    assert_eq!(package.filetree.directories, vec![("/p".to_string(), names(&["/p/a.v"]))]);
}

#[test]
fn a_table_that_lacks_the_version_makes_no_package() {
    let document =
        table(vec![("package", toml::Value::Table(table(vec![("name", text("demo"))])))]);
    match Package::from_value("/p", document, &sources()) {
        Err(Error::MissingKey(key)) => assert_eq!(key, "version"),
        other => panic!("{:?}", other),
    }
}

#[test]
fn a_package_is_read_from_the_text_of_its_manifest() {
    let manifest = "# a project\n[package]\nname = \"demo\"\nversion = \"0.1.0\"\nauthors = [\"me\"]\n\n[dependencies]\nother = \"1.0\"\n";
    let package = Package::from_root("/p", manifest, &sources()).unwrap();
    assert_eq!(package.name, "demo");
    assert_eq!(package.version, "0.1.0");
    assert!(package.authors.is_none());
    assert!(package.dependencies.is_empty());
    assert_eq!(package.filetree.directories, vec![("/p".to_string(), names(&["/p/a.v"]))]);
}

#[test]
fn a_text_that_is_no_document_is_a_syntax_error() {
    assert!(matches!(
        Package::from_root("/p", "[package\nname = ", &sources()),
        Err(Error::Syntax)
    ));
    assert!(matches!(Package::from_root("/p", "name = = 3", &sources()), Err(Error::Syntax)));
}

#[test]
fn the_empty_manifest_lacks_the_package_table() {
    match Package::from_root("/p", "", &sources()) {
        Err(Error::MissingKey(key)) => assert_eq!(key, "package"),
        other => panic!("{:?}", other),
    }
}

#[test]
fn a_manifest_with_a_version_of_another_type_is_a_mismatch() {
    let manifest = "[package]\nname = \"demo\"\nversion = 2\n";
    assert!(matches!(Package::from_root("/p", manifest, &sources()), Err(Error::TypeMismatch)));
    let manifest = "package = \"demo\"\n";
    assert!(matches!(Package::from_root("/p", manifest, &sources()), Err(Error::TypeMismatch)));
}
