//! The TOML layer of the frontmatter, as far as the `toml` crate does it.
//!
//! Parsing TOML text is the `toml` crate's work. The library reads the parsed
//! document through a handful of accessors whose contracts are stated over
//! `TomlModel`, a plain mathematical picture of a TOML value that keeps
//! exactly what the header reader looks at: strings, integers, arrays and
//! tables. Every other kind of value (booleans, floats, datetimes) is `Other`.
//!
//! Writing the frontmatter is the `toml` crate's work too: the library builds
//! a `toml::Table` entry by entry, in the order the header lists its fields,
//! and has `toml::to_string_pretty` write it. A table under construction is
//! seen as the sequence of its entries, `TomlItem`s in insertion order (the
//! crate is built with `toml`'s `preserve_order`, so a table keeps that
//! order).

use vstd::prelude::*;

verus! {

/// What a TOML value holds, seen by the header reader.
pub enum TomlModel {
    Str(Seq<char>),
    Int(int),
    Array(Seq<TomlModel>),
    Table(Map<Seq<char>, TomlModel>),
    Other,
}

#[verifier::external_type_specification]
#[verifier::external_body]
pub struct ExTomlValue(toml::Value);

#[verifier::external_type_specification]
#[verifier::external_body]
#[verifier::reject_recursive_types(K)]
#[verifier::reject_recursive_types(V)]
pub struct ExTomlMap<K, V>(toml::map::Map<K, V>);

/// What a parsed `toml::Value` holds.
pub uninterp spec fn toml_value_model(v: toml::Value) -> TomlModel;

/// What a parsed `toml::Table` holds: its keys and their values.
pub uninterp spec fn toml_table_model(t: toml::map::Map<String, toml::Value>) -> Map<
    Seq<char>,
    TomlModel,
>;

/// The outcome of `toml::from_str::<toml::Table>` on a text: the table's
/// contents, or the text of the parse error.
pub uninterp spec fn toml_parse_outcome(text: Seq<char>) -> core::result::Result<
    Map<Seq<char>, TomlModel>,
    Seq<char>,
>;

/// One entry's value in a table built for writing: a string, an integer,
/// or an array of tables (each given by its entries).
pub enum TomlItem {
    Str(Seq<char>),
    Int(int),
    Tables(Seq<Seq<(Seq<char>, TomlItem)>>),
}

/// The keys of a list of entries.
pub open spec fn entry_keys(es: Seq<(Seq<char>, TomlItem)>) -> Seq<Seq<char>> {
    es.map_values(|e: (Seq<char>, TomlItem)| e.0)
}

/// The entries of a `toml::Table` that the library built, in insertion
/// order.
pub uninterp spec fn toml_entries(t: toml::map::Map<String, toml::Value>) -> Seq<
    (Seq<char>, TomlItem),
>;

/// What `toml::to_string_pretty` makes of a table with these entries: the
/// TOML text, or the text of the error.
pub uninterp spec fn toml_pretty_outcome(entries: Seq<(Seq<char>, TomlItem)>) -> core::result::Result<
    Seq<char>,
    Seq<char>,
>;

/// Parse a TOML document with `toml::from_str::<toml::Table>`. On success the
/// table's contents are the named outcome of the text; on failure the error's
/// `Display` text is.
#[verifier::external_body]
pub fn toml_parse_table(text: &str) -> (res: core::result::Result<
    toml::map::Map<String, toml::Value>,
    String,
>)
    ensures
        match res {
            Ok(t) => toml_parse_outcome(text@) == Ok::<Map<Seq<char>, TomlModel>, Seq<char>>(
                toml_table_model(t),
            ),
            Err(m) => toml_parse_outcome(text@) == Err::<Map<Seq<char>, TomlModel>, Seq<char>>(
                m@,
            ),
        },
{
    toml::from_str::<toml::Table>(text).map_err(|e| e.to_string())
}

/// `toml::Table::get`: the value under `key`, if the table holds the key.
#[verifier::external_body]
pub fn toml_table_get<'a>(t: &'a toml::map::Map<String, toml::Value>, key: &str) -> (res: Option<
    &'a toml::Value,
>)
    ensures
        match res {
            Some(v) => toml_table_model(*t).contains_key(key@) && toml_value_model(*v)
                == toml_table_model(*t)[key@],
            None => !toml_table_model(*t).contains_key(key@),
        },
{
    t.get(key)
}

/// `toml::Value::as_str`: the text of a string value.
#[verifier::external_body]
pub fn toml_value_str<'a>(v: &'a toml::Value) -> (res: Option<&'a str>)
    ensures
        match toml_value_model(*v) {
            TomlModel::Str(s) => res matches Some(r) && r@ == s,
            _ => res is None,
        },
{
    v.as_str()
}

/// `toml::Value::as_integer`: the number held by an integer value.
#[verifier::external_body]
pub fn toml_value_integer(v: &toml::Value) -> (res: Option<i64>)
    ensures
        match toml_value_model(*v) {
            TomlModel::Int(i) => res matches Some(r) && r as int == i,
            _ => res is None,
        },
{
    v.as_integer()
}

/// `toml::Value::as_array`: the items of an array value.
#[verifier::external_body]
pub fn toml_value_array<'a>(v: &'a toml::Value) -> (res: Option<&'a Vec<toml::Value>>)
    ensures
        match toml_value_model(*v) {
            TomlModel::Array(items) => res matches Some(a) && a@.len() == items.len() && forall|
                i: int,
            |
                0 <= i < items.len() ==> toml_value_model(#[trigger] a@[i]) == items[i],
            _ => res is None,
        },
{
    v.as_array()
}

/// `toml::Value::as_table`: the table held by a table value.
#[verifier::external_body]
pub fn toml_value_table<'a>(v: &'a toml::Value) -> (res: Option<
    &'a toml::map::Map<String, toml::Value>,
>)
    ensures
        match toml_value_model(*v) {
            TomlModel::Table(m) => res matches Some(t) && toml_table_model(*t) == m,
            _ => res is None,
        },
{
    v.as_table()
}

/// `toml::Table::new()`: a table with no entries.
#[verifier::external_body]
pub fn toml_table_new() -> (t: toml::map::Map<String, toml::Value>)
    ensures
        toml_entries(t) == Seq::<(Seq<char>, TomlItem)>::empty(),
{
    toml::map::Map::new()
}

/// `toml::Table::insert` of a string value under a new key: the entry is
/// added after the others (an insertion under a key already present, which
/// replaces that key's value, is not described).
#[verifier::external_body]
pub fn toml_insert_str(t: &mut toml::map::Map<String, toml::Value>, key: &str, value: &str)
    ensures
        !entry_keys(toml_entries(*old(t))).contains(key@) ==> toml_entries(*final(t))
            == toml_entries(*old(t)).push((key@, TomlItem::Str(value@))),
{
    t.insert(key.to_string(), toml::Value::String(value.to_string()));
}

/// `toml::Table::insert` of an integer value under a new key: the entry is
/// added after the others.
#[verifier::external_body]
pub fn toml_insert_int(t: &mut toml::map::Map<String, toml::Value>, key: &str, value: i64)
    ensures
        !entry_keys(toml_entries(*old(t))).contains(key@) ==> toml_entries(*final(t))
            == toml_entries(*old(t)).push((key@, TomlItem::Int(value as int))),
{
    t.insert(key.to_string(), toml::Value::Integer(value));
}

/// `toml::Table::insert` of an array of tables under a new key: the entry
/// is added after the others.
#[verifier::external_body]
pub fn toml_insert_tables(
    t: &mut toml::map::Map<String, toml::Value>,
    key: &str,
    items: Vec<toml::map::Map<String, toml::Value>>,
)
    ensures
        !entry_keys(toml_entries(*old(t))).contains(key@) ==> toml_entries(*final(t))
            == toml_entries(*old(t)).push(
            (
                key@,
                TomlItem::Tables(
                    items@.map_values(|m: toml::map::Map<String, toml::Value>| toml_entries(m)),
                ),
            ),
        ),
{
    t.insert(key.to_string(), toml::Value::Array(items.into_iter().map(toml::Value::Table).collect()));
}

/// `toml::to_string_pretty` on a table: the named outcome of its entries,
/// with the error given by its `Display` text.
#[verifier::external_body]
pub fn toml_pretty(t: &toml::map::Map<String, toml::Value>) -> (res: core::result::Result<
    String,
    String,
>)
    ensures
        match res {
            Ok(s) => toml_pretty_outcome(toml_entries(*t)) == Ok::<Seq<char>, Seq<char>>(s@),
            Err(m) => toml_pretty_outcome(toml_entries(*t)) == Err::<Seq<char>, Seq<char>>(m@),
        },
{
    toml::to_string_pretty(t).map_err(|e| e.to_string())
}

} // verus!
