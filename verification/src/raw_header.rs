//! Reading the header fields out of a parsed TOML table.
//!
//! `RawHeader` records, for every header key, whether the table holds it and
//! with what kind of value. `header_from_raw` then applies the schema: which
//! keys are required, which default, which must be strings or integers, and
//! how a v0.1 file (numeric `order`, no `kind`) is read in legacy mode.

use vstd::prelude::*;

use crate::header::{
    inputs_view, opt_inputs_view, opt_str_view, HeaderView, InputRef, InputRefView,
    PromptElementHeader, PromptElementKind,
};
use crate::text::{first_match, lemma_first_match_at};
use crate::toml_doc::{
    toml_table_get, toml_table_model, toml_value_array, toml_value_integer, toml_value_model,
    toml_value_str, toml_value_table, TomlModel,
};

verus! {

/// A text-valued key as found in the table.
#[derive(Debug)]
pub enum RawText {
    Missing,
    Text(String),
    WrongType,
}

pub enum RawTextView {
    Missing,
    Text(Seq<char>),
    WrongType,
}

impl View for RawText {
    type V = RawTextView;

    open spec fn view(&self) -> RawTextView {
        match self {
            RawText::Missing => RawTextView::Missing,
            RawText::Text(s) => RawTextView::Text(s@),
            RawText::WrongType => RawTextView::WrongType,
        }
    }
}

/// An integer-valued key as found in the table.
#[derive(Debug, Clone, Copy)]
pub enum RawNumber {
    Missing,
    Number(i64),
    WrongType,
}

/// One entry of the `composed_of` array.
#[derive(Debug)]
pub enum RawEntry {
    Entry { id: RawText, version: RawText },
    NotATable,
}

pub enum RawEntryView {
    Entry { id: RawTextView, version: RawTextView },
    NotATable,
}

impl View for RawEntry {
    type V = RawEntryView;

    open spec fn view(&self) -> RawEntryView {
        match self {
            RawEntry::Entry { id, version } => RawEntryView::Entry { id: id@, version: version@ },
            RawEntry::NotATable => RawEntryView::NotATable,
        }
    }
}

pub open spec fn entries_view(v: Seq<RawEntry>) -> Seq<RawEntryView> {
    v.map_values(|e: RawEntry| e@)
}

/// The `composed_of` key as found in the table.
#[derive(Debug)]
pub enum RawRecipe {
    Missing,
    Entries(Vec<RawEntry>),
    WrongType,
}

pub enum RawRecipeView {
    Missing,
    Entries(Seq<RawEntryView>),
    WrongType,
}

impl View for RawRecipe {
    type V = RawRecipeView;

    open spec fn view(&self) -> RawRecipeView {
        match self {
            RawRecipe::Missing => RawRecipeView::Missing,
            RawRecipe::Entries(v) => RawRecipeView::Entries(entries_view(v@)),
            RawRecipe::WrongType => RawRecipeView::WrongType,
        }
    }
}

/// Every header key of a frontmatter table.
#[derive(Debug)]
pub struct RawHeader {
    pub name: RawText,
    pub kind: RawText,
    pub id: RawText,
    pub version: RawText,
    pub meta: RawText,
    pub generated_at: RawText,
    pub render_mode: RawText,
    pub body_level: RawNumber,
    pub depth: RawNumber,
    pub order: RawNumber,
    pub composed_of: RawRecipe,
}

pub struct RawHeaderView {
    pub name: RawTextView,
    pub kind: RawTextView,
    pub id: RawTextView,
    pub version: RawTextView,
    pub meta: RawTextView,
    pub generated_at: RawTextView,
    pub render_mode: RawTextView,
    pub body_level: RawNumber,
    pub depth: RawNumber,
    pub order: RawNumber,
    pub composed_of: RawRecipeView,
}

impl View for RawHeader {
    type V = RawHeaderView;

    open spec fn view(&self) -> RawHeaderView {
        RawHeaderView {
            name: self.name@,
            kind: self.kind@,
            id: self.id@,
            version: self.version@,
            meta: self.meta@,
            generated_at: self.generated_at@,
            render_mode: self.render_mode@,
            body_level: self.body_level,
            depth: self.depth,
            order: self.order,
            composed_of: self.composed_of@,
        }
    }
}

pub open spec fn text_of_model(m: Map<Seq<char>, TomlModel>, key: Seq<char>) -> RawTextView {
    if !m.contains_key(key) {
        RawTextView::Missing
    } else {
        match m[key] {
            TomlModel::Str(s) => RawTextView::Text(s),
            _ => RawTextView::WrongType,
        }
    }
}

pub open spec fn number_of_model(m: Map<Seq<char>, TomlModel>, key: Seq<char>) -> RawNumber {
    if !m.contains_key(key) {
        RawNumber::Missing
    } else {
        match m[key] {
            TomlModel::Int(i) => if i64::MIN <= i <= i64::MAX {
                RawNumber::Number(i as i64)
            } else {
                RawNumber::WrongType
            },
            _ => RawNumber::WrongType,
        }
    }
}

pub open spec fn entry_of_model(v: TomlModel) -> RawEntryView {
    match v {
        TomlModel::Table(t) => RawEntryView::Entry {
            id: text_of_model(t, "id"@),
            version: text_of_model(t, "version"@),
        },
        _ => RawEntryView::NotATable,
    }
}

pub open spec fn recipe_of_model(m: Map<Seq<char>, TomlModel>, key: Seq<char>) -> RawRecipeView {
    if !m.contains_key(key) {
        RawRecipeView::Missing
    } else {
        match m[key] {
            TomlModel::Array(items) => RawRecipeView::Entries(
                items.map_values(|x: TomlModel| entry_of_model(x)),
            ),
            _ => RawRecipeView::WrongType,
        }
    }
}

/// The raw header that a frontmatter table holds.
pub open spec fn raw_of_model(m: Map<Seq<char>, TomlModel>) -> RawHeaderView {
    RawHeaderView {
        name: text_of_model(m, "name"@),
        kind: text_of_model(m, "kind"@),
        id: text_of_model(m, "id"@),
        version: text_of_model(m, "version"@),
        meta: text_of_model(m, "meta"@),
        generated_at: text_of_model(m, "generated_at"@),
        render_mode: text_of_model(m, "render_mode"@),
        body_level: number_of_model(m, "body_level"@),
        depth: number_of_model(m, "depth"@),
        order: number_of_model(m, "order"@),
        composed_of: recipe_of_model(m, "composed_of"@),
    }
}

fn read_text(t: &toml::map::Map<String, toml::Value>, key: &str) -> (r: RawText)
    ensures
        r@ == text_of_model(toml_table_model(*t), key@),
{
    match toml_table_get(t, key) {
        None => RawText::Missing,
        Some(v) => match toml_value_str(v) {
            Some(s) => RawText::Text(String::from_str(s)),
            None => RawText::WrongType,
        },
    }
}

fn read_number(t: &toml::map::Map<String, toml::Value>, key: &str) -> (r: RawNumber)
    ensures
        r == number_of_model(toml_table_model(*t), key@),
{
    match toml_table_get(t, key) {
        None => RawNumber::Missing,
        Some(v) => match toml_value_integer(v) {
            Some(i) => RawNumber::Number(i),
            None => RawNumber::WrongType,
        },
    }
}

fn read_entry(v: &toml::Value) -> (r: RawEntry)
    ensures
        r@ == entry_of_model(toml_value_model(*v)),
{
    match toml_value_table(v) {
        Some(t) => RawEntry::Entry { id: read_text(t, "id"), version: read_text(t, "version") },
        None => RawEntry::NotATable,
    }
}

fn read_recipe(t: &toml::map::Map<String, toml::Value>, key: &str) -> (r: RawRecipe)
    ensures
        r@ == recipe_of_model(toml_table_model(*t), key@),
{
    match toml_table_get(t, key) {
        None => RawRecipe::Missing,
        Some(v) => match toml_value_array(v) {
            None => RawRecipe::WrongType,
            Some(items) => {
                let ghost model_items = match toml_value_model(*v) {
                    TomlModel::Array(it) => it,
                    _ => Seq::empty(),
                };
                let mut out: Vec<RawEntry> = Vec::new();
                let mut i: usize = 0;
                while i < items.len()
                    invariant
                        i <= items@.len(),
                        items@.len() == model_items.len(),
                        forall|j: int|
                            0 <= j < model_items.len() ==> toml_value_model(#[trigger] items@[j])
                                == model_items[j],
                        out@.len() == i,
                        forall|j: int|
                            0 <= j < i ==> (#[trigger] out@[j])@ == entry_of_model(model_items[j]),
                    decreases items.len() - i,
                {
                    let e = read_entry(&items[i]);
                    out.push(e);
                    i += 1;
                }
                let r = RawRecipe::Entries(out);
                proof {
                    assert(entries_view(out@) =~= model_items.map_values(
                        |x: TomlModel| entry_of_model(x),
                    ));
                }
                r
            },
        },
    }
}

/// Read every header key of a parsed frontmatter table.
pub fn read_raw_header(t: &toml::map::Map<String, toml::Value>) -> (r: RawHeader)
    ensures
        r@ == raw_of_model(toml_table_model(*t)),
{
    RawHeader {
        name: read_text(t, "name"),
        kind: read_text(t, "kind"),
        id: read_text(t, "id"),
        version: read_text(t, "version"),
        meta: read_text(t, "meta"),
        generated_at: read_text(t, "generated_at"),
        render_mode: read_text(t, "render_mode"),
        body_level: read_number(t, "body_level"),
        depth: read_number(t, "depth"),
        order: read_number(t, "order"),
        composed_of: read_recipe(t, "composed_of"),
    }
}


pub open spec fn missing_msg(key: Seq<char>) -> Seq<char> {
    "missing field `"@ + key + "`"@
}

pub open spec fn type_msg(key: Seq<char>, expected: Seq<char>) -> Seq<char> {
    "invalid type for field `"@ + key + "`, expected "@ + expected
}

pub open spec fn range_msg(key: Seq<char>) -> Seq<char> {
    "invalid value for field `"@ + key + "`, expected u32"@
}

pub open spec fn variant_msg(found: Seq<char>) -> Seq<char> {
    "unknown variant `"@ + found + "`, expected `atom` or `compound`"@
}

fn missing_msg_exec(key: &str) -> (m: String)
    ensures
        m@ == missing_msg(key@),
{
    let mut m = String::from_str("missing field `");
    m.append(key);
    m.append("`");
    m
}

fn type_msg_exec(key: &str, expected: &str) -> (m: String)
    ensures
        m@ == type_msg(key@, expected@),
{
    let mut m = String::from_str("invalid type for field `");
    m.append(key);
    m.append("`, expected ");
    m.append(expected);
    m
}

fn range_msg_exec(key: &str) -> (m: String)
    ensures
        m@ == range_msg(key@),
{
    let mut m = String::from_str("invalid value for field `");
    m.append(key);
    m.append("`, expected u32");
    m
}

fn variant_msg_exec(found: &str) -> (m: String)
    ensures
        m@ == variant_msg(found@),
{
    let mut m = String::from_str("unknown variant `");
    m.append(found);
    m.append("`, expected `atom` or `compound`");
    m
}

/// A required text key.
pub open spec fn req_text(t: RawTextView, key: Seq<char>) -> core::result::Result<Seq<char>, Seq<char>> {
    match t {
        RawTextView::Missing => Err(missing_msg(key)),
        RawTextView::Text(s) => Ok(s),
        RawTextView::WrongType => Err(type_msg(key, "a string"@)),
    }
}

/// An optional text key.
pub open spec fn opt_text(t: RawTextView, key: Seq<char>) -> core::result::Result<Option<Seq<char>>, Seq<char>> {
    match t {
        RawTextView::Missing => Ok(None),
        RawTextView::Text(s) => Ok(Some(s)),
        RawTextView::WrongType => Err(type_msg(key, "a string"@)),
    }
}

/// An optional `u32` key.
pub open spec fn opt_u32(n: RawNumber, key: Seq<char>) -> core::result::Result<Option<u32>, Seq<char>> {
    match n {
        RawNumber::Missing => Ok(None),
        RawNumber::Number(i) => if 0 <= i <= u32::MAX {
            Ok(Some(i as u32))
        } else {
            Err(range_msg(key))
        },
        RawNumber::WrongType => Err(type_msg(key, "an integer"@)),
    }
}

/// One recipe entry as an input reference.
pub open spec fn entry_input(e: RawEntryView) -> core::result::Result<InputRefView, Seq<char>> {
    match e {
        RawEntryView::NotATable => Err(type_msg("composed_of"@, "a table"@)),
        RawEntryView::Entry { id, version } => match req_text(id, "id"@) {
            Err(m) => Err(m),
            Ok(i) => match req_text(version, "version"@) {
                Err(m) => Err(m),
                Ok(v) => Ok(InputRefView { id: i, version: v }),
            },
        },
    }
}

/// All recipe entries, failing on the first bad one.
pub open spec fn recipe_inputs(es: Seq<RawEntryView>) -> core::result::Result<Seq<InputRefView>, Seq<char>> {
    let k = first_match(es, |e: RawEntryView| entry_input(e) is Err);
    if k < es.len() {
        Err(entry_input(es[k])->Err_0)
    } else {
        Ok(es.map_values(|e: RawEntryView| entry_input(e)->Ok_0))
    }
}

pub open spec fn opt_recipe(r: RawRecipeView) -> core::result::Result<Option<Seq<InputRefView>>, Seq<char>> {
    match r {
        RawRecipeView::Missing => Ok(None),
        RawRecipeView::WrongType => Err(type_msg("composed_of"@, "an array"@)),
        RawRecipeView::Entries(es) => match recipe_inputs(es) {
            Err(m) => Err(m),
            Ok(v) => Ok(Some(v)),
        },
    }
}

/// The element kind: the `kind` key, or in legacy mode the v0.1 `order`
/// (0 for an atom, anything above for a compound) when `kind` is absent.
pub open spec fn kind_of(raw: RawHeaderView, legacy: bool) -> core::result::Result<PromptElementKind, Seq<char>> {
    match raw.kind {
        RawTextView::Text(s) => if s == "atom"@ {
            Ok(PromptElementKind::Atom)
        } else if s == "compound"@ {
            Ok(PromptElementKind::Compound)
        } else {
            Err(variant_msg(s))
        },
        RawTextView::WrongType => Err(type_msg("kind"@, "a string"@)),
        RawTextView::Missing => if !legacy {
            Err(missing_msg("kind"@))
        } else {
            match raw.order {
                RawNumber::Missing => Err(missing_msg("kind"@)),
                RawNumber::Number(n) => if n == 0 {
                    Ok(PromptElementKind::Atom)
                } else if n > 0 {
                    Ok(PromptElementKind::Compound)
                } else {
                    Err(range_msg("order"@))
                },
                RawNumber::WrongType => Err(type_msg("order"@, "an integer"@)),
            }
        },
    }
}

/// The header a raw table describes, or the first schema violation, keys
/// taken in the order `name`, `kind`, `id`, `version`, `meta`,
/// `generated_at`, `render_mode`, `body_level`, `depth`, `composed_of`.
/// `meta` defaults to the empty text. In legacy mode a compound without
/// `depth` takes its `body_level` as depth.
pub open spec fn header_spec(raw: RawHeaderView, legacy: bool) -> core::result::Result<HeaderView, Seq<char>> {
    match req_text(raw.name, "name"@) {
        Err(m) => Err(m),
        Ok(name) => match kind_of(raw, legacy) {
            Err(m) => Err(m),
            Ok(kind) => match req_text(raw.id, "id"@) {
                Err(m) => Err(m),
                Ok(id) => match req_text(raw.version, "version"@) {
                    Err(m) => Err(m),
                    Ok(version) => match opt_text(raw.meta, "meta"@) {
                        Err(m) => Err(m),
                        Ok(meta) => match opt_text(raw.generated_at, "generated_at"@) {
                            Err(m) => Err(m),
                            Ok(generated_at) => match opt_text(raw.render_mode, "render_mode"@) {
                                Err(m) => Err(m),
                                Ok(render_mode) => match opt_u32(raw.body_level, "body_level"@) {
                                    Err(m) => Err(m),
                                    Ok(body_level) => match opt_u32(raw.depth, "depth"@) {
                                        Err(m) => Err(m),
                                        Ok(depth) => match opt_recipe(raw.composed_of) {
                                            Err(m) => Err(m),
                                            Ok(composed_of) => Ok(
                                                HeaderView {
                                                    name,
                                                    kind,
                                                    id,
                                                    version,
                                                    meta: match meta {
                                                        Some(s) => s,
                                                        None => Seq::empty(),
                                                    },
                                                    generated_at,
                                                    render_mode,
                                                    body_level,
                                                    depth: if legacy && kind
                                                        == PromptElementKind::Compound
                                                        && depth is None {
                                                        body_level
                                                    } else {
                                                        depth
                                                    },
                                                    composed_of,
                                                },
                                            ),
                                        },
                                    },
                                },
                            },
                        },
                    },
                },
            },
        },
    }
}

fn req_text_exec(t: &RawText, key: &str) -> (r: core::result::Result<String, String>)
    ensures
        match r {
            Ok(s) => req_text(t@, key@) == Ok::<Seq<char>, Seq<char>>(s@),
            Err(m) => req_text(t@, key@) == Err::<Seq<char>, Seq<char>>(m@),
        },
{
    match t {
        RawText::Missing => Err(missing_msg_exec(key)),
        RawText::Text(s) => Ok(s.clone()),
        RawText::WrongType => Err(type_msg_exec(key, "a string")),
    }
}

fn opt_text_exec(t: &RawText, key: &str) -> (r: core::result::Result<Option<String>, String>)
    ensures
        match r {
            Ok(s) => opt_text(t@, key@) == Ok::<Option<Seq<char>>, Seq<char>>(opt_str_view(s)),
            Err(m) => opt_text(t@, key@) == Err::<Option<Seq<char>>, Seq<char>>(m@),
        },
{
    match t {
        RawText::Missing => Ok(None),
        RawText::Text(s) => Ok(Some(s.clone())),
        RawText::WrongType => Err(type_msg_exec(key, "a string")),
    }
}

fn opt_u32_exec(n: RawNumber, key: &str) -> (r: core::result::Result<Option<u32>, String>)
    ensures
        match r {
            Ok(v) => opt_u32(n, key@) == Ok::<Option<u32>, Seq<char>>(v),
            Err(m) => opt_u32(n, key@) == Err::<Option<u32>, Seq<char>>(m@),
        },
{
    match n {
        RawNumber::Missing => Ok(None),
        RawNumber::Number(i) => if 0 <= i && i <= 4294967295i64 {
            Ok(Some(i as u32))
        } else {
            Err(range_msg_exec(key))
        },
        RawNumber::WrongType => Err(type_msg_exec(key, "an integer")),
    }
}

fn entry_input_exec(e: &RawEntry) -> (r: core::result::Result<InputRef, String>)
    ensures
        match r {
            Ok(i) => entry_input(e@) == Ok::<InputRefView, Seq<char>>(i@),
            Err(m) => entry_input(e@) == Err::<InputRefView, Seq<char>>(m@),
        },
{
    match e {
        RawEntry::NotATable => Err(type_msg_exec("composed_of", "a table")),
        RawEntry::Entry { id, version } => {
            let i = match req_text_exec(id, "id") {
                Ok(s) => s,
                Err(m) => return Err(m),
            };
            let v = match req_text_exec(version, "version") {
                Ok(s) => s,
                Err(m) => return Err(m),
            };
            Ok(InputRef { id: i, version: v })
        },
    }
}

fn opt_recipe_exec(r: &RawRecipe) -> (res: core::result::Result<Option<Vec<InputRef>>, String>)
    ensures
        match res {
            Ok(v) => opt_recipe(r@) == Ok::<Option<Seq<InputRefView>>, Seq<char>>(opt_inputs_view(v)),
            Err(m) => opt_recipe(r@) == Err::<Option<Seq<InputRefView>>, Seq<char>>(m@),
        },
{
    match r {
        RawRecipe::Missing => Ok(None),
        RawRecipe::WrongType => Err(type_msg_exec("composed_of", "an array")),
        RawRecipe::Entries(es) => {
            let ghost ev = entries_view(es@);
            assert(r@ == RawRecipeView::Entries(ev));
            let ghost pred = |e: RawEntryView| entry_input(e) is Err;
            let mut out: Vec<InputRef> = Vec::new();
            let mut i: usize = 0;
            while i < es.len()
                invariant
                    i <= es@.len(),
                    ev == entries_view(es@),
                    r@ == RawRecipeView::Entries(ev),
                    pred == (|e: RawEntryView| entry_input(e) is Err),
                    out@.len() == i,
                    forall|j: int| 0 <= j < i ==> !pred(#[trigger] ev[j]),
                    forall|j: int|
                        0 <= j < i ==> entry_input(ev[j]) == Ok::<InputRefView, Seq<char>>(
                            (#[trigger] out@[j])@,
                        ),
                decreases es.len() - i,
            {
                assert(ev[i as int] == es@[i as int]@);
                match entry_input_exec(&es[i]) {
                    Ok(x) => {
                        out.push(x);
                    },
                    Err(m) => {
                        proof {
                            lemma_first_match_at(ev, pred, i as int);
                            assert(r@ == RawRecipeView::Entries(ev));
                            assert(first_match(ev, |e: RawEntryView| entry_input(e) is Err) == i);
                            assert(recipe_inputs(ev) == Err::<Seq<InputRefView>, Seq<char>>(m@));
                        }
                        return Err(m);
                    },
                }
                i += 1;
            }
            proof {
                lemma_first_match_at(ev, pred, es@.len() as int);
                assert(inputs_view(out@) =~= ev.map_values(|e: RawEntryView| entry_input(e)->Ok_0));
            }
            Ok(Some(out))
        },
    }
}

fn kind_of_exec(raw: &RawHeader, legacy: bool) -> (r: core::result::Result<PromptElementKind, String>)
    ensures
        match r {
            Ok(k) => kind_of(raw@, legacy) == Ok::<PromptElementKind, Seq<char>>(k),
            Err(m) => kind_of(raw@, legacy) == Err::<PromptElementKind, Seq<char>>(m@),
        },
{
    match &raw.kind {
        RawText::Text(s) => {
            let atom = String::from_str("atom");
            let compound = String::from_str("compound");
            if *s == atom {
                Ok(PromptElementKind::Atom)
            } else if *s == compound {
                Ok(PromptElementKind::Compound)
            } else {
                Err(variant_msg_exec(s.as_str()))
            }
        },
        RawText::WrongType => Err(type_msg_exec("kind", "a string")),
        RawText::Missing => {
            if !legacy {
                return Err(missing_msg_exec("kind"));
            }
            match raw.order {
                RawNumber::Missing => Err(missing_msg_exec("kind")),
                RawNumber::Number(n) => if n == 0 {
                    Ok(PromptElementKind::Atom)
                } else if n > 0 {
                    Ok(PromptElementKind::Compound)
                } else {
                    Err(range_msg_exec("order"))
                },
                RawNumber::WrongType => Err(type_msg_exec("order", "an integer")),
            }
        },
    }
}

/// Apply the header schema to a raw table. See `header_spec`.
pub fn header_from_raw(raw: &RawHeader, legacy: bool) -> (res: core::result::Result<PromptElementHeader, String>)
    ensures
        match res {
            Ok(h) => header_spec(raw@, legacy) == Ok::<HeaderView, Seq<char>>(h@),
            Err(m) => header_spec(raw@, legacy) == Err::<HeaderView, Seq<char>>(m@),
        },
{
    let name = match req_text_exec(&raw.name, "name") {
        Ok(s) => s,
        Err(m) => return Err(m),
    };
    let kind = match kind_of_exec(raw, legacy) {
        Ok(k) => k,
        Err(m) => return Err(m),
    };
    let id = match req_text_exec(&raw.id, "id") {
        Ok(s) => s,
        Err(m) => return Err(m),
    };
    let version = match req_text_exec(&raw.version, "version") {
        Ok(s) => s,
        Err(m) => return Err(m),
    };
    let meta = match opt_text_exec(&raw.meta, "meta") {
        Ok(Some(s)) => s,
        Ok(None) => String::new(),
        Err(m) => return Err(m),
    };
    let generated_at = match opt_text_exec(&raw.generated_at, "generated_at") {
        Ok(s) => s,
        Err(m) => return Err(m),
    };
    let render_mode = match opt_text_exec(&raw.render_mode, "render_mode") {
        Ok(s) => s,
        Err(m) => return Err(m),
    };
    let body_level = match opt_u32_exec(raw.body_level, "body_level") {
        Ok(v) => v,
        Err(m) => return Err(m),
    };
    let depth = match opt_u32_exec(raw.depth, "depth") {
        Ok(v) => v,
        Err(m) => return Err(m),
    };
    let composed_of = match opt_recipe_exec(&raw.composed_of) {
        Ok(v) => v,
        Err(m) => return Err(m),
    };
    let is_compound = match kind {
        PromptElementKind::Compound => true,
        PromptElementKind::Atom => false,
    };
    let depth = if legacy && is_compound && depth.is_none() {
        body_level
    } else {
        depth
    };
    Ok(
        PromptElementHeader {
            name,
            kind,
            id,
            version,
            meta,
            generated_at,
            render_mode,
            body_level,
            depth,
            composed_of,
        },
    )
}

} // verus!
