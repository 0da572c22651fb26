//! The manifest of a project: a TOML document that describes it.

use vstd::prelude::*;
use crate::error::Error;

verus! {

/// `toml::Value`, a value of a TOML document. Nothing is known of what one
/// holds but what `value_item` names.
#[verifier::external_type_specification]
#[verifier::external_body]
pub struct ExValue(toml::Value);

/// What a TOML value holds, as far as a manifest is read.
pub enum Item {
    /// A string, with its text.
    Text(Seq<char>),
    /// A table, with the item of each of its keys.
    Table(Map<Seq<char>, Item>),
    /// A value of another type.
    Other,
}

/// What a TOML table holds: for each of its keys the item that the key
/// stands for.
pub uninterp spec fn table_items(table: toml::Table) -> Map<Seq<char>, Item>;

/// What a TOML value holds.
pub uninterp spec fn value_item(value: toml::Value) -> Item;

/// What a text says as a TOML document: the items of its top table, or
/// `None` where the text is no TOML document.
pub uninterp spec fn document_items(text: Seq<char>) -> Option<Map<Seq<char>, Item>>;

/// `toml::Parser::parse` on a parser made for `text`: the top table of the
/// document, or `None` where the text is no TOML document. The table is a
/// function of the text and of nothing else.
#[verifier::external_body]
pub(crate) fn parse(text: &str) -> (document: Option<toml::Table>)
    ensures
        match document {
            Some(table) => document_items(text@) == Some(table_items(table)),
            None => document_items(text@) is None,
        },
{
    toml::Parser::new(text).parse()
}

/// `BTreeMap::get` on a TOML table: the value that `key` stands for, or
/// `None` where the table has no such key.
#[verifier::external_body]
pub(crate) fn lookup<'a>(table: &'a toml::Table, key: &str) -> (found: Option<&'a toml::Value>)
    ensures
        match found {
            Some(value) => table_items(*table).contains_key(key@) && table_items(*table)[key@]
                == value_item(*value),
            None => !table_items(*table).contains_key(key@),
        },
{
    table.get(key)
}

/// `toml::Value::as_str`: the text of a value that is a string, `None` for
/// a value of another type.
#[verifier::external_body]
pub(crate) fn text_of<'a>(value: &'a toml::Value) -> (text: Option<&'a str>)
    ensures
        match text {
            Some(s) => value_item(*value) == Item::Text(s@),
            None => !(value_item(*value) is Text),
        },
{
    value.as_str()
}

/// `toml::Value::as_table`: the table of a value that is a table, `None`
/// for a value of another type.
#[verifier::external_body]
pub(crate) fn table_of<'a>(value: &'a toml::Value) -> (table: Option<&'a toml::Table>)
    ensures
        match table {
            Some(t) => value_item(*value) == Item::Table(table_items(*t)),
            None => !(value_item(*value) is Table),
        },
{
    value.as_table()
}

/// The key of the table that describes the project.
pub open spec fn package_key() -> Seq<char> {
    seq!['p', 'a', 'c', 'k', 'a', 'g', 'e']
}

/// The key of the project's name.
pub open spec fn name_key() -> Seq<char> {
    seq!['n', 'a', 'm', 'e']
}

/// The key of the project's version.
pub open spec fn version_key() -> Seq<char> {
    seq!['v', 'e', 'r', 's', 'i', 'o', 'n']
}

/// What is wrong with a manifest.
pub enum Fault {
    /// A key holds a value of the wrong type.
    TypeMismatch,
    /// This key is missing.
    MissingKey(Seq<char>),
}

/// Whether the error `error` reports the fault `fault`.
pub open spec fn reports(error: Error, fault: Fault) -> bool {
    match (error, fault) {
        (Error::TypeMismatch, Fault::TypeMismatch) => true,
        (Error::MissingKey(key), Fault::MissingKey(missing)) => key@ == missing,
        _ => false,
    }
}

/// The text that `key` stands for in `table`: the key must be there, and
/// stand for a string.
pub open spec fn field(table: Map<Seq<char>, Item>, key: Seq<char>) -> Result<Seq<char>, Fault> {
    if !table.contains_key(key) {
        Err(Fault::MissingKey(key))
    } else {
        match table[key] {
            Item::Text(text) => Ok(text),
            _ => Err(Fault::TypeMismatch),
        }
    }
}

/// The name and the version of the project that `document` describes.
///
/// The document must hold the table `package`, and that table the strings
/// `name` and `version`. The first of these that is missing or of another
/// type is the fault.
pub open spec fn description(document: Map<Seq<char>, Item>) -> Result<
    (Seq<char>, Seq<char>),
    Fault,
> {
    if !document.contains_key(package_key()) {
        Err(Fault::MissingKey(package_key()))
    } else {
        match document[package_key()] {
            Item::Table(table) => match field(table, name_key()) {
                Err(fault) => Err(fault),
                Ok(name) => match field(table, version_key()) {
                    Err(fault) => Err(fault),
                    Ok(version) => Ok((name, version)),
                },
            },
            _ => Err(Fault::TypeMismatch),
        }
    }
}

/// The text that `key` stands for in `table`, or the error that the key is
/// missing or stands for no string.
pub fn ensure_string(table: &toml::Table, key: &str) -> (result: Result<String, Error>)
    ensures
        match (result, field(table_items(*table), key@)) {
            (Ok(text), Ok(expected)) => text@ == expected,
            (Err(error), Err(fault)) => reports(error, fault),
            _ => false,
        },
{
    match lookup(table, key) {
        Some(value) => match text_of(value) {
            Some(text) => Ok(text.to_owned()),
            None => Err(Error::TypeMismatch),
        },
        None => Err(Error::MissingKey(key.to_owned())),
    }
}

/// The name and the version of the project that the document with the top
/// table `document` describes, or the error that says what it lacks.
pub fn describe(document: &toml::Table) -> (result: Result<(String, String), Error>)
    ensures
        match (result, description(table_items(*document))) {
            (Ok(found), Ok(expected)) => found.0@ == expected.0 && found.1@ == expected.1,
            (Err(error), Err(fault)) => reports(error, fault),
            _ => false,
        },
{
    proof {
        reveal_strlit("package");
        reveal_strlit("name");
        reveal_strlit("version");
        assert("package"@ =~= package_key());
        assert("name"@ =~= name_key());
        assert("version"@ =~= version_key());
    }
    match lookup(document, "package") {
        None => Err(Error::MissingKey("package".to_owned())),
        Some(value) => match table_of(value) {
            None => Err(Error::TypeMismatch),
            Some(table) => {
                let name = match ensure_string(table, "name") {
                    Ok(name) => name,
                    Err(error) => {
                        return Err(error);
                    },
                };
                let version = match ensure_string(table, "version") {
                    Ok(version) => version,
                    Err(error) => {
                        return Err(error);
                    },
                };
                Ok((name, version))
            },
        },
    }
}

} // verus!
