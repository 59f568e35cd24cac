//! Parsing, validation, and serialization of complete Oovra files.
//!
//! An Oovra file is exactly:
//!
//! ```text
//! +++
//! <TOML frontmatter>
//! +++
//!
//! <Markdown body>
//! ```
//!
//! For atoms the body is freeform Markdown. For compounds the body is a
//! sequence of complete sub-element files delimited by chiral, level-aware
//! tilde lines: a level-N open delimiter is `(N+1)` tildes followed by `>>`,
//! the close delimiter is `(N+1)` tildes followed by `<<`.

use vstd::prelude::*;

use crate::error::{ErrorView, OovraError, Result};
use crate::header::{
    copy_opt_string, inputs_view, is_kebab_case, is_valid_rfc3339, is_valid_semver, kebab,
    opt_str_view, rfc3339_accepts, semver_accepts, HeaderView, InputRef, InputRefView,
    PromptElementHeader, PromptElementKind,
};
use crate::text::{
    all_ws, append_chars, chars_eq, chars_of, first_match, is_blank, join, join_vecs, lacks,
    lemma_first_match_at, lemma_first_match_bounds, lines, nl, split_lines, string_of, sub_lines,
    trim_end, trim_end_vec, trim_trailing, trim_trailing_vec,
};
use crate::raw_header::{header_from_raw, header_spec, raw_of_model, read_raw_header};
use crate::toml_doc::{
    entry_keys, toml_entries, toml_insert_int, toml_insert_str, toml_insert_tables, toml_parse_outcome,
    toml_parse_table, toml_pretty, toml_pretty_outcome, toml_table_new, TomlItem,
};

verus! {

/// Parse-mode switch. `legacy` accepts v0.1 files, which carry a numeric
/// `order` instead of `kind`.
#[derive(Debug, Clone, Copy, PartialEq, Eq, Structural)]
pub struct ParseOptions {
    pub legacy: bool,
}

impl Default for ParseOptions {
    fn default() -> (o: Self)
        ensures
            !o.legacy,
    {
        ParseOptions { legacy: false }
    }
}

/// In-memory representation of one Oovra file.
#[derive(Debug)]
pub struct PromptElement {
    pub header: PromptElementHeader,
    pub body: String,
    pub source_path: Option<String>,
}

pub struct ElementView {
    pub header: HeaderView,
    pub body: Seq<char>,
    pub source_path: Option<Seq<char>>,
}

impl View for PromptElement {
    type V = ElementView;

    open spec fn view(&self) -> ElementView {
        ElementView {
            header: self.header@,
            body: self.body@,
            source_path: opt_str_view(self.source_path),
        }
    }
}

impl Clone for PromptElement {
    fn clone(&self) -> (r: Self)
        ensures
            r@ == self@,
    {
        PromptElement {
            header: self.header.clone(),
            body: self.body.clone(),
            source_path: copy_opt_string(&self.source_path),
        }
    }
}

impl PromptElement {
    pub fn new(header: PromptElementHeader, body: String) -> (e: Self)
        ensures
            e.header == header,
            e.body == body,
            e.source_path is None,
    {
        PromptElement { header, body, source_path: None }
    }
}

/// `n` tilde characters.
pub open spec fn tildes(n: nat) -> Seq<char> {
    Seq::new(n, |i: int| '~')
}

/// The level-`level` open delimiter: `(level + 1)` tildes, then `>>`.
pub open spec fn delim_open(level: u32) -> Seq<char> {
    tildes(level as nat + 1) + seq!['>', '>']
}

/// The level-`level` close delimiter: `(level + 1)` tildes, then `<<`.
pub open spec fn delim_close(level: u32) -> Seq<char> {
    tildes(level as nat + 1) + seq!['<', '<']
}

fn delimiter_chars(body_level: u32, tail: char) -> (v: Vec<char>)
    ensures
        v@ == tildes(body_level as nat + 1) + seq![tail, tail],
{
    let mut v: Vec<char> = Vec::new();
    let count: u64 = body_level as u64 + 1;
    let mut i: u64 = 0;
    while i < count
        invariant
            count == body_level as nat + 1,
            i <= count,
            v@ == tildes(i as nat),
        decreases count - i,
    {
        v.push('~');
        i += 1;
        assert(v@ =~= tildes(i as nat));
    }
    v.push(tail);
    v.push(tail);
    assert(v@ =~= tildes(body_level as nat + 1) + seq![tail, tail]);
    v
}

pub fn open_chars(body_level: u32) -> (v: Vec<char>)
    ensures
        v@ == delim_open(body_level),
{
    delimiter_chars(body_level, '>')
}

pub fn close_chars(body_level: u32) -> (v: Vec<char>)
    ensures
        v@ == delim_close(body_level),
{
    delimiter_chars(body_level, '<')
}

/// Open delimiter for level-`body_level` body splitting: `(body_level + 1)`
/// tildes plus the chiral `>>` suffix.
pub fn body_delimiter_open(body_level: u32) -> (s: String)
    ensures
        s@ == delim_open(body_level),
{
    let v = open_chars(body_level);
    string_of(v.as_slice())
}

/// Close delimiter for level-`body_level` body splitting: `(body_level + 1)`
/// tildes plus the chiral `<<` suffix.
pub fn body_delimiter_close(body_level: u32) -> (s: String)
    ensures
        s@ == delim_close(body_level),
{
    let v = close_chars(body_level);
    string_of(v.as_slice())
}

/// The frontmatter fence `+++`.
pub open spec fn fence() -> Seq<char> {
    seq!['+', '+', '+']
}

/// A line that is a fence once trailing whitespace is dropped.
pub open spec fn is_fence(l: Seq<char>) -> bool {
    trim_end(l) == fence()
}

fn fence_chars() -> (v: Vec<char>)
    ensures
        v@ == fence(),
{
    let mut v: Vec<char> = Vec::new();
    v.push('+');
    v.push('+');
    v.push('+');
    assert(v@ =~= fence());
    v
}

fn line_is_fence(l: &[char]) -> (b: bool)
    ensures
        b == is_fence(l@),
{
    let t = trim_end_vec(l);
    let f = fence_chars();
    chars_eq(t.as_slice(), f.as_slice())
}

/// Lines of the body after the closing fence, with one blank separator line
/// dropped when present.
pub open spec fn body_after_fence(after: Seq<Seq<char>>) -> Seq<Seq<char>> {
    if after.len() > 0 && all_ws(after[0]) {
        after.drop_first()
    } else {
        after
    }
}

/// The split of a file into (frontmatter, body):
/// - the first line must be `+++` (trailing whitespace tolerated);
/// - the next line that is `+++` closes the frontmatter;
/// - one blank line after the closing fence is dropped; the rest is the body.
pub open spec fn split_spec(content: Seq<char>, path: Seq<char>) -> core::result::Result<
    (Seq<char>, Seq<char>),
    ErrorView,
> {
    let ls = lines(content);
    if ls.len() == 0 {
        Err(ErrorView::EmptyFile(path))
    } else if !is_fence(ls[0]) {
        Err(ErrorView::MissingOpenDelimiter { path, actual: ls[0] })
    } else {
        let rest = ls.drop_first();
        let k = first_match(rest, |l: Seq<char>| is_fence(l));
        if k >= rest.len() {
            Err(ErrorView::MissingCloseDelimiter(path))
        } else {
            Ok((join(rest.take(k), nl()), join(body_after_fence(rest.skip(k + 1)), nl())))
        }
    }
}

pub open spec fn split_result_view(r: Result<(String, String)>) -> core::result::Result<
    (Seq<char>, Seq<char>),
    ErrorView,
> {
    match r {
        Ok((a, b)) => Ok((a@, b@)),
        Err(e) => Err(e@),
    }
}

/// Split a file's content into (frontmatter, body). See `split_spec`.
pub fn split_frontmatter(content: &str, path: &str) -> (res: Result<(String, String)>)
    ensures
        split_result_view(res) == split_spec(content@, path@),
{
    let cs = chars_of(content);
    let ls = split_lines(cs.as_slice());
    let ghost lsv = ls.deep_view();
    if ls.len() == 0 {
        return Err(OovraError::EmptyFile(String::from_str(path)));
    }
    proof {
        crate::text::lemma_chars_deep_view(ls@[0]);
    }
    if !line_is_fence(ls[0].as_slice()) {
        return Err(
            OovraError::MissingOpenDelimiter {
                path: String::from_str(path),
                actual: string_of(ls[0].as_slice()),
            },
        );
    }
    let ghost rest = lsv.drop_first();
    let ghost pred = |l: Seq<char>| is_fence(l);
    let mut k: usize = 1;
    while k < ls.len()
        invariant
            1 <= k <= ls@.len(),
            lsv == ls.deep_view(),
            rest == lsv.drop_first(),
            pred == (|l: Seq<char>| is_fence(l)),
            forall|j: int| 0 <= j < k - 1 ==> !pred(#[trigger] rest[j]),
        ensures
            1 <= k <= ls@.len(),
            forall|j: int| 0 <= j < k - 1 ==> !pred(#[trigger] rest[j]),
            k < ls@.len() ==> pred(rest[k - 1]),
        decreases ls.len() - k,
    {
        proof {
            crate::text::lemma_chars_deep_view(ls@[k as int]);
        }
        if line_is_fence(ls[k].as_slice()) {
            break;
        }
        k += 1;
    }
    proof {
        if k < ls.len() {
            crate::text::lemma_chars_deep_view(ls@[k as int]);
        }
        lemma_first_match_at(rest, pred, k - 1);
    }
    if k >= ls.len() {
        return Err(OovraError::MissingCloseDelimiter(String::from_str(path)));
    }
    let fm_lines = sub_lines(&ls, 1, k);
    let mut start: usize = k + 1;
    if start < ls.len() {
        proof {
            crate::text::lemma_chars_deep_view(ls@[start as int]);
        }
        if is_blank(ls[start].as_slice()) {
            start = start + 1;
        }
    }
    let body_lines = sub_lines(&ls, start, ls.len());
    proof {
        assert(fm_lines.deep_view() =~= rest.take(k - 1));
        assert(body_lines.deep_view() =~= body_after_fence(rest.skip(k as int)));
    }
    let sep = crate::text::newline_chars();
    let fm = join_vecs(&fm_lines, sep.as_slice());
    let body = join_vecs(&body_lines, sep.as_slice());
    Ok((string_of(fm.as_slice()), string_of(body.as_slice())))
}

/// Whether content starts with the Oovra `+++` opening fence.
pub open spec fn looks_like_spec(content: Seq<char>) -> bool {
    ||| (content.len() >= 4 && content.take(4) == fence().push('\n'))
    ||| (content.len() >= 5 && content.take(5) == fence().push('\r').push('\n'))
    ||| crate::text::trim_start(content) == fence()
}

/// Detect whether a string starts with the Oovra `+++` opening delimiter.
pub fn looks_like_oovra_file(content: &str) -> (b: bool)
    ensures
        b == looks_like_spec(content@),
{
    let cs = chars_of(content);
    let n = cs.len();
    if n >= 4 && cs[0] == '+' && cs[1] == '+' && cs[2] == '+' && cs[3] == '\n' {
        assert(cs@.take(4) =~= fence().push('\n'));
        return true;
    }
    if n >= 5 && cs[0] == '+' && cs[1] == '+' && cs[2] == '+' && cs[3] == '\r' && cs[4] == '\n' {
        assert(cs@.take(5) =~= fence().push('\r').push('\n'));
        return true;
    }
    proof {
        if n >= 4 && cs@.take(4) == fence().push('\n') {
            assert(cs@[3] == cs@.take(4)[3]);
            assert(cs@[0] == cs@.take(4)[0]);
            assert(cs@[1] == cs@.take(4)[1]);
            assert(cs@[2] == cs@.take(4)[2]);
        }
        if n >= 5 && cs@.take(5) == fence().push('\r').push('\n') {
            assert(cs@[3] == cs@.take(5)[3]);
            assert(cs@[4] == cs@.take(5)[4]);
            assert(cs@[0] == cs@.take(5)[0]);
            assert(cs@[1] == cs@.take(5)[1]);
            assert(cs@[2] == cs@.take(5)[2]);
        }
    }
    let n: usize = crate::text::trim_start_len(cs.as_slice());
    let t = crate::text::slice_range(cs.as_slice(), n, cs.len());
    assert(t@ =~= cs@.skip(n as int));
    let f = fence_chars();
    chars_eq(t.as_slice(), f.as_slice())
}


pub open spec fn kebab_reason() -> Seq<char> {
    "must be kebab-case (lowercase letters, digits, hyphens; no leading/trailing/double hyphens)"@
}

pub open spec fn semver_reason() -> Seq<char> {
    "must be valid semver (e.g. \"1.0.0\")"@
}

pub open spec fn rfc3339_reason() -> Seq<char> {
    "must be RFC 3339 (e.g. \"2026-05-09T14:23:15Z\")"@
}

/// An input reference that violates the schema.
pub open spec fn bad_input(r: InputRefView) -> bool {
    !kebab(r.id) || !semver_accepts(r.version)
}

pub open spec fn input_error(path: Seq<char>, r: InputRefView) -> ErrorView {
    if !kebab(r.id) {
        ErrorView::InvalidField {
            path,
            field: "composed_of[].id"@,
            value: r.id,
            reason: "must be kebab-case"@,
        }
    } else {
        ErrorView::InvalidField {
            path,
            field: "composed_of[].version"@,
            value: r.version,
            reason: "must be valid semver"@,
        }
    }
}

/// The message for an atom that carries composition metadata.
pub open spec fn companion_reason() -> Seq<char> {
    "these fields are only valid when composed_of is also present"@
}

/// The first rule an atom breaks: composition metadata (`generated_at`,
/// `render_mode`, `body_level`) is refused as one invalid field; a `depth`
/// or a recipe is a forbidden field.
pub open spec fn atom_violation(h: HeaderView, path: Seq<char>) -> Option<ErrorView> {
    if h.generated_at is Some || h.render_mode is Some || h.body_level is Some {
        Some(
            ErrorView::InvalidField {
                path,
                field: "generated_at|render_mode|body_level"@,
                value: "<set>"@,
                reason: companion_reason(),
            },
        )
    } else if h.depth is Some {
        Some(ErrorView::AtomHasForbiddenField { path, id: h.id, field: "depth"@ })
    } else if h.composed_of is Some {
        Some(ErrorView::AtomHasForbiddenField { path, id: h.id, field: "composed_of"@ })
    } else {
        None
    }
}

/// The first requirement a compound fails: `generated_at` (RFC 3339),
/// `render_mode`, `body_level` (at least 1), a non-empty `composed_of` of
/// valid references, and `depth` at least 1 when present.
pub open spec fn compound_violation(h: HeaderView, path: Seq<char>) -> Option<ErrorView> {
    match h.generated_at {
        None => Some(ErrorView::CompoundMissingField { path, id: h.id, field: "generated_at"@ }),
        Some(g) => if !rfc3339_accepts(g) {
            Some(
                ErrorView::InvalidField {
                    path,
                    field: "generated_at"@,
                    value: g,
                    reason: rfc3339_reason(),
                },
            )
        } else if h.render_mode is None {
            Some(ErrorView::CompoundMissingField { path, id: h.id, field: "render_mode"@ })
        } else {
            match h.body_level {
                None => Some(
                    ErrorView::CompoundMissingField { path, id: h.id, field: "body_level"@ },
                ),
                Some(bl) => if bl == 0 {
                    Some(
                        ErrorView::InvalidField {
                            path,
                            field: "body_level"@,
                            value: "0"@,
                            reason: "must be >= 1"@,
                        },
                    )
                } else {
                    match h.composed_of {
                        None => Some(
                            ErrorView::CompoundMissingField {
                                path,
                                id: h.id,
                                field: "composed_of"@,
                            },
                        ),
                        Some(inputs) => if inputs.len() == 0 {
                            Some(
                                ErrorView::InvalidField {
                                    path,
                                    field: "composed_of"@,
                                    value: "[]"@,
                                    reason: "compound elements must have at least one input"@,
                                },
                            )
                        } else {
                            let k = first_match(inputs, |r: InputRefView| bad_input(r));
                            if k < inputs.len() {
                                Some(input_error(path, inputs[k]))
                            } else if h.depth == Some(0u32) {
                                Some(
                                    ErrorView::InvalidField {
                                        path,
                                        field: "depth"@,
                                        value: "0"@,
                                        reason: "must be >= 1"@,
                                    },
                                )
                            } else {
                                None
                            }
                        },
                    }
                },
            }
        },
    }
}

/// The first schema violation of a header with its body, or none:
/// kebab-case id, semver version, non-blank name, non-blank body, then the
/// kind-specific rules.
pub open spec fn validate_spec(h: HeaderView, body: Seq<char>, path: Seq<char>) -> Option<ErrorView> {
    if !kebab(h.id) {
        Some(ErrorView::InvalidField { path, field: "id"@, value: h.id, reason: kebab_reason() })
    } else if !semver_accepts(h.version) {
        Some(
            ErrorView::InvalidField {
                path,
                field: "version"@,
                value: h.version,
                reason: semver_reason(),
            },
        )
    } else if all_ws(h.name) {
        Some(
            ErrorView::InvalidField {
                path,
                field: "name"@,
                value: h.name,
                reason: "must be non-empty"@,
            },
        )
    } else if all_ws(body) {
        Some(ErrorView::EmptyBody(path))
    } else {
        match h.kind {
            PromptElementKind::Atom => atom_violation(h, path),
            PromptElementKind::Compound => compound_violation(h, path),
        }
    }
}

/// What validation accepts: a kebab-case id, a semver version, a
/// non-blank name and body; an atom with no composition metadata and no
/// recipe; a compound with an RFC 3339 `generated_at`, a `render_mode`, a
/// body level of at least 1, a non-empty recipe of kebab-case ids at
/// semver versions, and a depth of at least 1 when it has one.
pub open spec fn schema_ok(h: HeaderView, body: Seq<char>) -> bool {
    &&& kebab(h.id)
    &&& semver_accepts(h.version)
    &&& !all_ws(h.name)
    &&& !all_ws(body)
    &&& h.kind == PromptElementKind::Atom ==> h.generated_at is None && h.render_mode is None
        && h.body_level is None && h.depth is None && h.composed_of is None
    &&& h.kind == PromptElementKind::Compound ==> {
        &&& h.generated_at is Some && rfc3339_accepts(h.generated_at->Some_0)
        &&& h.render_mode is Some
        &&& h.body_level is Some && h.body_level->Some_0 >= 1
        &&& h.composed_of is Some && h.composed_of->Some_0.len() > 0
        &&& forall|i: int|
            0 <= i < h.composed_of->Some_0.len() ==> kebab((#[trigger] h.composed_of->Some_0[i]).id)
                && semver_accepts(h.composed_of->Some_0[i].version)
        &&& h.depth != Some(0u32)
    }
}

/// Validation passes exactly on headers and bodies that meet the schema.
pub proof fn lemma_validate_exact(h: HeaderView, body: Seq<char>, path: Seq<char>)
    ensures
        validate_spec(h, body, path) is None <==> schema_ok(h, body),
{
    if h.kind == PromptElementKind::Compound && h.composed_of is Some {
        let inputs = h.composed_of->Some_0;
        let pred = |r: InputRefView| bad_input(r);
        lemma_first_match_bounds(inputs, pred);
        let k = first_match(inputs, pred);
        if k >= inputs.len() {
            assert forall|i: int| 0 <= i < inputs.len() implies kebab((#[trigger] inputs[i]).id)
                && semver_accepts(inputs[i].version) by {
                assert(!pred(inputs[i]));
            }
        } else {
            assert(pred(inputs[k]));
        }
    }
}

fn check_inputs(inputs: &Vec<InputRef>, path: &str) -> (r: Result<()>)
    ensures
        ({
            let iv = inputs_view(inputs@);
            let k = first_match(iv, |x: InputRefView| bad_input(x));
            match r {
                Ok(()) => k >= iv.len(),
                Err(e) => k < iv.len() && e@ == input_error(path@, iv[k]),
            }
        }),
{
    let ghost iv = inputs_view(inputs@);
    let ghost pred = |x: InputRefView| bad_input(x);
    let mut i: usize = 0;
    while i < inputs.len()
        invariant
            i <= inputs@.len(),
            iv == inputs_view(inputs@),
            pred == (|x: InputRefView| bad_input(x)),
            forall|j: int| 0 <= j < i ==> !pred(#[trigger] iv[j]),
        decreases inputs.len() - i,
    {
        assert(iv[i as int] == inputs@[i as int]@);
        if !is_kebab_case(inputs[i].id.as_str()) {
            proof {
                lemma_first_match_at(iv, pred, i as int);
            }
            return Err(
                OovraError::InvalidField {
                    path: String::from_str(path),
                    field: "composed_of[].id",
                    value: inputs[i].id.clone(),
                    reason: String::from_str("must be kebab-case"),
                },
            );
        }
        if !is_valid_semver(inputs[i].version.as_str()) {
            proof {
                lemma_first_match_at(iv, pred, i as int);
            }
            return Err(
                OovraError::InvalidField {
                    path: String::from_str(path),
                    field: "composed_of[].version",
                    value: inputs[i].version.clone(),
                    reason: String::from_str("must be valid semver"),
                },
            );
        }
        i += 1;
    }
    proof {
        lemma_first_match_at(iv, pred, iv.len() as int);
    }
    Ok(())
}

fn atom_forbidden(header: &PromptElementHeader, field: &'static str, path: &str) -> (e: OovraError)
    ensures
        e@ == (ErrorView::AtomHasForbiddenField { path: path@, id: header.id@, field: field@ }),
{
    OovraError::AtomHasForbiddenField {
        path: String::from_str(path),
        id: header.id.clone(),
        field,
    }
}

fn compound_missing(header: &PromptElementHeader, field: &'static str, path: &str) -> (e: OovraError)
    ensures
        e@ == (ErrorView::CompoundMissingField { path: path@, id: header.id@, field: field@ }),
{
    OovraError::CompoundMissingField {
        path: String::from_str(path),
        id: header.id.clone(),
        field,
    }
}

fn invalid_field(path: &str, field: &'static str, value: &str, reason: &str) -> (e: OovraError)
    ensures
        e@ == (ErrorView::InvalidField {
            path: path@,
            field: field@,
            value: value@,
            reason: reason@,
        }),
{
    OovraError::InvalidField {
        path: String::from_str(path),
        field,
        value: String::from_str(value),
        reason: String::from_str(reason),
    }
}

/// Check a header and its body against the schema. See `validate_spec`.
pub fn validate_header(header: &PromptElementHeader, body: &str, path: &str) -> (r: Result<()>)
    ensures
        match r {
            Ok(()) => validate_spec(header@, body@, path@) is None,
            Err(e) => validate_spec(header@, body@, path@) == Some(e@),
        },
{
    if !is_kebab_case(header.id.as_str()) {
        return Err(
            invalid_field(
                path,
                "id",
                header.id.as_str(),
                "must be kebab-case (lowercase letters, digits, hyphens; no leading/trailing/double hyphens)",
            ),
        );
    }
    if !is_valid_semver(header.version.as_str()) {
        return Err(
            invalid_field(
                path,
                "version",
                header.version.as_str(),
                "must be valid semver (e.g. \"1.0.0\")",
            ),
        );
    }
    let name_chars = chars_of(header.name.as_str());
    if is_blank(name_chars.as_slice()) {
        return Err(invalid_field(path, "name", header.name.as_str(), "must be non-empty"));
    }
    let body_chars = chars_of(body);
    if is_blank(body_chars.as_slice()) {
        return Err(OovraError::EmptyBody(String::from_str(path)));
    }
    match header.kind {
        PromptElementKind::Atom => {
            if header.generated_at.is_some() || header.render_mode.is_some()
                || header.body_level.is_some() {
                return Err(
                    invalid_field(
                        path,
                        "generated_at|render_mode|body_level",
                        "<set>",
                        "these fields are only valid when composed_of is also present",
                    ),
                );
            }
            if header.depth.is_some() {
                return Err(atom_forbidden(header, "depth", path));
            }
            if header.composed_of.is_some() {
                return Err(atom_forbidden(header, "composed_of", path));
            }
            Ok(())
        },
        PromptElementKind::Compound => {
            match &header.generated_at {
                None => {
                    return Err(compound_missing(header, "generated_at", path));
                },
                Some(g) => {
                    if !is_valid_rfc3339(g.as_str()) {
                        return Err(
                            invalid_field(
                                path,
                                "generated_at",
                                g.as_str(),
                                "must be RFC 3339 (e.g. \"2026-05-09T14:23:15Z\")",
                            ),
                        );
                    }
                },
            }
            if header.render_mode.is_none() {
                return Err(compound_missing(header, "render_mode", path));
            }
            match header.body_level {
                None => {
                    return Err(compound_missing(header, "body_level", path));
                },
                Some(bl) => {
                    if bl == 0 {
                        return Err(invalid_field(path, "body_level", "0", "must be >= 1"));
                    }
                },
            }
            match &header.composed_of {
                None => {
                    return Err(compound_missing(header, "composed_of", path));
                },
                Some(inputs) => {
                    if inputs.len() == 0 {
                        return Err(
                            invalid_field(
                                path,
                                "composed_of",
                                "[]",
                                "compound elements must have at least one input",
                            ),
                        );
                    }
                    match check_inputs(inputs, path) {
                        Ok(()) => {},
                        Err(e) => {
                            return Err(e);
                        },
                    }
                },
            }
            if header.depth == Some(0u32) {
                return Err(invalid_field(path, "depth", "0", "must be >= 1"));
            }
            Ok(())
        },
    }
}

/// The element a file's content describes, or the first error: framing
/// (`split_spec`), TOML syntax, the header schema (both reported as
/// `InvalidToml`), then `validate_spec`.
pub open spec fn parse_spec(content: Seq<char>, path: Seq<char>, legacy: bool) -> core::result::Result<
    ElementView,
    ErrorView,
> {
    match split_spec(content, path) {
        Err(e) => Err(e),
        Ok((fm, body)) => match toml_parse_outcome(fm) {
            Err(m) => Err(ErrorView::InvalidToml { path, message: m }),
            Ok(tbl) => match header_spec(raw_of_model(tbl), legacy) {
                Err(m) => Err(ErrorView::InvalidToml { path, message: m }),
                Ok(h) => match validate_spec(h, body, path) {
                    Some(e) => Err(e),
                    None => Ok(ElementView { header: h, body, source_path: Some(path) }),
                },
            },
        },
    }
}

pub open spec fn element_result_view(r: Result<PromptElement>) -> core::result::Result<
    ElementView,
    ErrorView,
> {
    match r {
        Ok(e) => Ok(e@),
        Err(e) => Err(e@),
    }
}

/// The body a file yields is at least three characters shorter than the
/// file: the opening fence alone takes that much.
pub proof fn lemma_split_body_len(content: Seq<char>, path: Seq<char>)
    ensures
        split_spec(content, path) matches Ok((fm, body)) ==> body.len() + 3 <= content.len(),
{
    let ls = lines(content);
    if ls.len() > 0 && is_fence(ls[0]) {
        let rest = ls.drop_first();
        let pred = |l: Seq<char>| is_fence(l);
        let k = first_match(rest, pred);
        lemma_first_match_bounds(rest, pred);
        if k < rest.len() {
            let after = rest.skip(k + 1);
            let b = body_after_fence(after);
            crate::text::lemma_join_len(b);
            crate::text::lemma_line_total_skip(rest, k + 1);
            if after.len() > 0 && all_ws(after[0]) {
                crate::text::lemma_line_total_skip(after, 1);
                assert(after.skip(1) =~= after.drop_first());
            }
            crate::text::lemma_lines_total(content);
            crate::text::lemma_trim_end_len(ls[0]);
            assert(crate::text::line_total(ls) == ls[0].len() + 1 + crate::text::line_total(rest));
        }
    }
}

/// A parsed compound carries its body level and a non-empty recipe.
pub proof fn lemma_parsed_compound(content: Seq<char>, path: Seq<char>, legacy: bool)
    ensures
        parse_spec(content, path, legacy) matches Ok(e) ==> (e.header.kind
            == PromptElementKind::Compound ==> e.header.body_level is Some
            && e.header.composed_of is Some),
{
    if let Ok(e) = parse_spec(content, path, legacy) {
        assert(validate_spec(e.header, e.body, path) is None);
        if e.header.kind == PromptElementKind::Compound {
            assert(compound_violation(e.header, path) is None);
        }
    }
}

/// A parsed element's body is at least three characters shorter than the
/// file it was parsed from.
pub proof fn lemma_parse_body_len(content: Seq<char>, path: Seq<char>, legacy: bool)
    ensures
        parse_spec(content, path, legacy) matches Ok(e) ==> e.body.len() + 3 <= content.len(),
{
    lemma_split_body_len(content, path);
}

/// Parse a complete Oovra file in the given mode, validating the header.
pub fn parse_with(content: &str, path: &str, opts: ParseOptions) -> (res: Result<PromptElement>)
    ensures
        element_result_view(res) == parse_spec(content@, path@, opts.legacy),
{
    let (fm, body) = match split_frontmatter(content, path) {
        Ok(p) => p,
        Err(e) => return Err(e),
    };
    let table = match toml_parse_table(fm.as_str()) {
        Ok(t) => t,
        Err(m) => return Err(OovraError::InvalidToml { path: String::from_str(path), message: m }),
    };
    let raw = read_raw_header(&table);
    let header = match header_from_raw(&raw, opts.legacy) {
        Ok(h) => h,
        Err(m) => return Err(OovraError::InvalidToml { path: String::from_str(path), message: m }),
    };
    match validate_header(&header, body.as_str(), path) {
        Ok(()) => {},
        Err(e) => return Err(e),
    }
    Ok(PromptElement { header, body, source_path: Some(String::from_str(path)) })
}

/// Parse a complete Oovra file (v0.2 schema only).
pub fn parse(content: &str, path: &str) -> (res: Result<PromptElement>)
    ensures
        element_result_view(res) == parse_spec(content@, path@, false),
{
    parse_with(content, path, ParseOptions { legacy: false })
}


/// The decimal digit for `d < 10`.
pub open spec fn digit(d: nat) -> char {
    if d == 0 {
        '0'
    } else if d == 1 {
        '1'
    } else if d == 2 {
        '2'
    } else if d == 3 {
        '3'
    } else if d == 4 {
        '4'
    } else if d == 5 {
        '5'
    } else if d == 6 {
        '6'
    } else if d == 7 {
        '7'
    } else if d == 8 {
        '8'
    } else if d == 9 {
        '9'
    } else {
        '9'
    }
}

/// The decimal text of `n`.
pub open spec fn decimal(n: nat) -> Seq<char>
    decreases n,
{
    if n < 10 {
        seq![digit(n)]
    } else {
        decimal(n / 10).push(digit(n % 10))
    }
}

fn digit_char(d: u64) -> (c: char)
    requires
        d < 10,
    ensures
        c == digit(d as nat),
{
    if d == 0 {
        '0'
    } else if d == 1 {
        '1'
    } else if d == 2 {
        '2'
    } else if d == 3 {
        '3'
    } else if d == 4 {
        '4'
    } else if d == 5 {
        '5'
    } else if d == 6 {
        '6'
    } else if d == 7 {
        '7'
    } else if d == 8 {
        '8'
    } else {
        '9'
    }
}

/// The decimal text of a number.
pub fn decimal_chars(n: u64) -> (v: Vec<char>)
    ensures
        v@ == decimal(n as nat),
    decreases n,
{
    if n < 10 {
        let mut v: Vec<char> = Vec::new();
        v.push(digit_char(n));
        assert(v@ =~= seq![digit(n as nat)]);
        v
    } else {
        let mut v = decimal_chars(n / 10);
        v.push(digit_char(n % 10));
        v
    }
}

pub open spec fn kind_text(k: PromptElementKind) -> Seq<char> {
    match k {
        PromptElementKind::Atom => "atom"@,
        PromptElementKind::Compound => "compound"@,
    }
}

pub open spec fn opt_str_entry(key: Seq<char>, o: Option<Seq<char>>) -> Seq<(Seq<char>, TomlItem)> {
    match o {
        Some(s) => seq![(key, TomlItem::Str(s))],
        None => Seq::empty(),
    }
}

pub open spec fn opt_int_entry(key: Seq<char>, o: Option<u32>) -> Seq<(Seq<char>, TomlItem)> {
    match o {
        Some(n) => seq![(key, TomlItem::Int(n as int))],
        None => Seq::empty(),
    }
}

/// The table of one recipe entry: `id`, then `version`.
pub open spec fn input_entries(r: InputRefView) -> Seq<(Seq<char>, TomlItem)> {
    seq![("id"@, TomlItem::Str(r.id)), ("version"@, TomlItem::Str(r.version))]
}

/// The table a header is written from: `name`, `kind`, `id`, `version`,
/// `meta`, then whichever of `generated_at`, `render_mode`, `body_level`,
/// `depth` and `composed_of` (an array of tables) are present, in that
/// order: the header's field order, absent fields left out.
pub open spec fn header_entries(h: HeaderView) -> Seq<(Seq<char>, TomlItem)> {
    seq![
        ("name"@, TomlItem::Str(h.name)),
        ("kind"@, TomlItem::Str(kind_text(h.kind))),
        ("id"@, TomlItem::Str(h.id)),
        ("version"@, TomlItem::Str(h.version)),
        ("meta"@, TomlItem::Str(h.meta)),
    ] + opt_str_entry("generated_at"@, h.generated_at) + opt_str_entry("render_mode"@, h.render_mode)
        + opt_int_entry("body_level"@, h.body_level) + opt_int_entry("depth"@, h.depth)
        + match h.composed_of {
        Some(v) => seq![
            ("composed_of"@, TomlItem::Tables(v.map_values(|r: InputRefView| input_entries(r)))),
        ],
        None => Seq::empty(),
    }
}

/// What `toml::to_string_pretty` makes of a header.
pub open spec fn header_toml_outcome(h: HeaderView) -> core::result::Result<Seq<char>, Seq<char>> {
    toml_pretty_outcome(header_entries(h))
}

/// Writing the element's header as TOML fails.
pub open spec fn serialize_fails(e: ElementView) -> bool {
    header_toml_outcome(e.header) is Err
}

/// The frontmatter text of a header, as `toml` writes it.
pub open spec fn header_toml(h: HeaderView) -> Seq<char> {
    match header_toml_outcome(h) {
        Ok(t) => t,
        Err(_) => Seq::empty(),
    }
}

/// The error serializing reports when the header cannot be written.
pub open spec fn serialize_error(e: ElementView) -> ErrorView {
    ErrorView::TomlSerialize {
        id: e.header.id,
        message: match header_toml_outcome(e.header) {
            Err(m) => m,
            Ok(_) => Seq::empty(),
        },
    }
}

/// A file made of a frontmatter text and a body:
/// `+++\n<frontmatter>+++\n\n<body>\n`, the body without its trailing
/// newlines (exactly one newline always ends the file).
pub open spec fn framed(frontmatter: Seq<char>, body: Seq<char>) -> Seq<char> {
    fence() + nl() + frontmatter + fence() + nl() + nl() + trim_trailing(body, '\n') + nl()
}

/// The on-disk text of an element whose header can be written.
pub open spec fn serialize_spec(e: ElementView) -> Seq<char> {
    framed(header_toml(e.header), e.body)
}

/// What serializing gives: the text, or the error of a header `toml`
/// cannot write.
pub open spec fn serialize_outcome(e: ElementView) -> core::result::Result<Seq<char>, ErrorView> {
    if serialize_fails(e) {
        Err(serialize_error(e))
    } else {
        Ok(serialize_spec(e))
    }
}

/// The text that writing `e` to `path` puts on disk, or the error its
/// in-memory check reports: the header must be writable and the serialized
/// element must parse back.
pub open spec fn write_spec(e: ElementView, path: Seq<char>) -> core::result::Result<Seq<char>, ErrorView> {
    if serialize_fails(e) {
        Err(serialize_error(e))
    } else {
        let text = serialize_spec(e);
        match parse_spec(text, path, false) {
            Ok(_) => Ok(text),
            Err(x) => Err(x),
        }
    }
}

fn push_str(out: &mut Vec<char>, s: &str)
    ensures
        final(out)@ == old(out)@ + s@,
{
    let cs = chars_of(s);
    append_chars(out, cs.as_slice());
}

/// The table of one recipe entry. See `input_entries`.
fn input_table(r: &InputRef) -> (t: toml::map::Map<String, toml::Value>)
    ensures
        toml_entries(t) == input_entries(r@),
{
    proof {
        reveal_strlit("id");
        reveal_strlit("version");
    }
    let mut t = toml_table_new();
    toml_insert_str(&mut t, "id", r.id.as_str());
    assert(entry_keys(toml_entries(t)) =~= seq!["id"@]);
    assert(!entry_keys(toml_entries(t)).contains("version"@)) by {
        assert("id"@.len() != "version"@.len());
    }
    toml_insert_str(&mut t, "version", r.version.as_str());
    assert(toml_entries(t) =~= input_entries(r@));
    t
}

/// The tables of a recipe, in order.
fn recipe_tables(inputs: &Vec<InputRef>) -> (v: Vec<toml::map::Map<String, toml::Value>>)
    ensures
        v@.map_values(|m: toml::map::Map<String, toml::Value>| toml_entries(m)) == inputs_view(
            inputs@,
        ).map_values(|r: InputRefView| input_entries(r)),
{
    let mut v: Vec<toml::map::Map<String, toml::Value>> = Vec::new();
    let mut i: usize = 0;
    while i < inputs.len()
        invariant
            i <= inputs@.len(),
            v@.map_values(|m: toml::map::Map<String, toml::Value>| toml_entries(m))
                == inputs_view(inputs@).take(i as int).map_values(
                |r: InputRefView| input_entries(r),
            ),
        decreases inputs.len() - i,
    {
        let t = input_table(&inputs[i]);
        let ghost before = v@;
        v.push(t);
        proof {
            assert(v@ == before.push(t));
            assert(v@.map_values(|m: toml::map::Map<String, toml::Value>| toml_entries(m))
                =~= before.map_values(|m: toml::map::Map<String, toml::Value>| toml_entries(m)).push(
                toml_entries(t),
            ));
            assert(inputs_view(inputs@).take(i + 1).map_values(|r: InputRefView| input_entries(r))
                =~= inputs_view(inputs@).take(i as int).map_values(
                |r: InputRefView| input_entries(r),
            ).push(input_entries(inputs@[i as int]@)));
        }
        i += 1;
    }
    assert(inputs_view(inputs@).take(inputs@.len() as int) =~= inputs_view(inputs@));
    v
}

/// Every key of `ks` differs from `k` in length or in its first character.
proof fn lemma_fresh_key(ks: Seq<Seq<char>>, k: Seq<char>)
    requires
        k.len() > 0,
        forall|i: int|
            0 <= i < ks.len() ==> (#[trigger] ks[i]).len() != k.len() || (ks[i].len() > 0
                && ks[i][0] != k[0]),
    ensures
        !ks.contains(k),
{
    if ks.contains(k) {
        let i = choose|i: int| 0 <= i < ks.len() && ks[i] == k;
        assert(ks[i][0] == k[0]);
    }
}

/// The table `toml` writes a header from. See `header_entries`.
fn header_table(h: &PromptElementHeader) -> (t: toml::map::Map<String, toml::Value>)
    ensures
        toml_entries(t) == header_entries(h@),
{
    proof {
        reveal_strlit("name");
        reveal_strlit("kind");
        reveal_strlit("id");
        reveal_strlit("version");
        reveal_strlit("meta");
        reveal_strlit("generated_at");
        reveal_strlit("render_mode");
        reveal_strlit("body_level");
        reveal_strlit("depth");
        reveal_strlit("composed_of");
    }
    let mut t = toml_table_new();
    toml_insert_str(&mut t, "name", h.name.as_str());
    assert(entry_keys(toml_entries(t)) =~= seq!["name"@]);
    proof { lemma_fresh_key(entry_keys(toml_entries(t)), "kind"@); }
    let kind_label = match h.kind {
        PromptElementKind::Atom => "atom",
        PromptElementKind::Compound => "compound",
    };
    toml_insert_str(&mut t, "kind", kind_label);
    assert(entry_keys(toml_entries(t)) =~= seq!["name"@, "kind"@]);
    proof { lemma_fresh_key(entry_keys(toml_entries(t)), "id"@); }
    toml_insert_str(&mut t, "id", h.id.as_str());
    assert(entry_keys(toml_entries(t)) =~= seq!["name"@, "kind"@, "id"@]);
    proof { lemma_fresh_key(entry_keys(toml_entries(t)), "version"@); }
    toml_insert_str(&mut t, "version", h.version.as_str());
    assert(entry_keys(toml_entries(t)) =~= seq!["name"@, "kind"@, "id"@, "version"@]);
    proof { lemma_fresh_key(entry_keys(toml_entries(t)), "meta"@); }
    toml_insert_str(&mut t, "meta", h.meta.as_str());
    let ghost fixed = toml_entries(t);
    assert(fixed =~= seq![
        ("name"@, TomlItem::Str(h@.name)),
        ("kind"@, TomlItem::Str(kind_text(h@.kind))),
        ("id"@, TomlItem::Str(h@.id)),
        ("version"@, TomlItem::Str(h@.version)),
        ("meta"@, TomlItem::Str(h@.meta)),
    ]);
    let ghost base_keys = seq!["name"@, "kind"@, "id"@, "version"@, "meta"@];
    assert(entry_keys(fixed) =~= base_keys);
    match &h.generated_at {
        Some(g) => {
            proof { lemma_fresh_key(entry_keys(toml_entries(t)), "generated_at"@); }
            toml_insert_str(&mut t, "generated_at", g.as_str());
        },
        None => {},
    }
    let ghost a1 = toml_entries(t);
    assert(a1 =~= fixed + opt_str_entry("generated_at"@, h@.generated_at));
    assert(forall|i: int| 0 <= i < entry_keys(a1).len() ==> #[trigger] entry_keys(a1)[i] == "name"@
        || entry_keys(a1)[i] == "kind"@ || entry_keys(a1)[i] == "id"@ || entry_keys(a1)[i]
        == "version"@ || entry_keys(a1)[i] == "meta"@ || entry_keys(a1)[i] == "generated_at"@);
    match &h.render_mode {
        Some(r) => {
            proof { lemma_fresh_key(entry_keys(toml_entries(t)), "render_mode"@); }
            toml_insert_str(&mut t, "render_mode", r.as_str());
        },
        None => {},
    }
    let ghost a2 = toml_entries(t);
    assert(a2 =~= a1 + opt_str_entry("render_mode"@, h@.render_mode));
    assert(forall|i: int| 0 <= i < entry_keys(a2).len() ==> #[trigger] entry_keys(a2)[i] == "name"@
        || entry_keys(a2)[i] == "kind"@ || entry_keys(a2)[i] == "id"@ || entry_keys(a2)[i]
        == "version"@ || entry_keys(a2)[i] == "meta"@ || entry_keys(a2)[i] == "generated_at"@
        || entry_keys(a2)[i] == "render_mode"@);
    match h.body_level {
        Some(n) => {
            proof { lemma_fresh_key(entry_keys(toml_entries(t)), "body_level"@); }
            toml_insert_int(&mut t, "body_level", n as i64);
        },
        None => {},
    }
    let ghost a3 = toml_entries(t);
    assert(a3 =~= a2 + opt_int_entry("body_level"@, h@.body_level));
    assert(forall|i: int| 0 <= i < entry_keys(a3).len() ==> #[trigger] entry_keys(a3)[i] == "name"@
        || entry_keys(a3)[i] == "kind"@ || entry_keys(a3)[i] == "id"@ || entry_keys(a3)[i]
        == "version"@ || entry_keys(a3)[i] == "meta"@ || entry_keys(a3)[i] == "generated_at"@
        || entry_keys(a3)[i] == "render_mode"@ || entry_keys(a3)[i] == "body_level"@);
    match h.depth {
        Some(n) => {
            proof { lemma_fresh_key(entry_keys(toml_entries(t)), "depth"@); }
            toml_insert_int(&mut t, "depth", n as i64);
        },
        None => {},
    }
    let ghost a4 = toml_entries(t);
    assert(a4 =~= a3 + opt_int_entry("depth"@, h@.depth));
    assert(forall|i: int| 0 <= i < entry_keys(a4).len() ==> #[trigger] entry_keys(a4)[i] == "name"@
        || entry_keys(a4)[i] == "kind"@ || entry_keys(a4)[i] == "id"@ || entry_keys(a4)[i]
        == "version"@ || entry_keys(a4)[i] == "meta"@ || entry_keys(a4)[i] == "generated_at"@
        || entry_keys(a4)[i] == "render_mode"@ || entry_keys(a4)[i] == "body_level"@
        || entry_keys(a4)[i] == "depth"@);
    match &h.composed_of {
        Some(inputs) => {
            proof { lemma_fresh_key(entry_keys(toml_entries(t)), "composed_of"@); }
            let items = recipe_tables(inputs);
            toml_insert_tables(&mut t, "composed_of", items);
        },
        None => {},
    }
    assert(toml_entries(t) =~= header_entries(h@));
    t
}

/// Serialize a `PromptElement` to its on-disk string form:
/// `+++\n<toml>+++\n\n<body>\n`, the header written by
/// `toml::to_string_pretty`. Fails exactly when `toml` cannot write the
/// header.
pub fn serialize(element: &PromptElement) -> (res: Result<String>)
    ensures
        match res {
            Ok(s) => !serialize_fails(element@) && s@ == serialize_spec(element@),
            Err(e) => serialize_fails(element@) && e@ == serialize_error(element@),
        },
{
    let table = header_table(&element.header);
    match toml_pretty(&table) {
        Ok(text) => {
            let mut v: Vec<char> = Vec::new();
            push_str(&mut v, "+++\n");
            push_str(&mut v, text.as_str());
            push_str(&mut v, "+++\n\n");
            let b = chars_of(element.body.as_str());
            let bt = trim_trailing_vec(b.as_slice(), '\n');
            append_chars(&mut v, bt.as_slice());
            v.push('\n');
            proof {
                reveal_strlit("+++\n");
                reveal_strlit("+++\n\n");
                assert(v@ =~= serialize_spec(element@));
            }
            Ok(string_of(v.as_slice()))
        },
        Err(m) => Err(OovraError::TomlSerialize { id: element.header.id.clone(), message: m }),
    }
}

/// The in-memory half of writing an element to `path`: serialize it and
/// validate the serialized form by parsing it back, so that an invalid
/// element never reaches the disk. Returns the text to write.
pub fn prepare_write(element: &PromptElement, path: &str) -> (res: Result<String>)
    ensures
        match res {
            Ok(s) => write_spec(element@, path@) == Ok::<Seq<char>, ErrorView>(s@),
            Err(e) => write_spec(element@, path@) == Err::<Seq<char>, ErrorView>(e@),
        },
{
    let content = match serialize(element) {
        Ok(c) => c,
        Err(e) => return Err(e),
    };
    match parse(content.as_str(), path) {
        Ok(_) => Ok(content),
        Err(e) => Err(e),
    }
}

/// Delimiters never collide: an open delimiter is never a close
/// delimiter, and delimiters of different levels differ.
pub proof fn lemma_delimiters_distinct(l: u32, m: u32)
    ensures
        delim_open(l) != delim_close(m),
        l != m ==> delim_open(l) != delim_open(m),
        l != m ==> delim_close(l) != delim_close(m),
{
    let a = delim_open(l);
    let b = delim_close(m);
    assert(a.last() == '>');
    assert(b.last() == '<');
    assert(a.len() == l + 3);
    assert(delim_open(m).len() == m + 3);
    assert(delim_close(l).len() == l + 3);
}

/// A serialized element splits back cleanly: its header's TOML text ends
/// with a newline and has no carriage return and no line that is a fence,
/// and its body has no carriage return and is not only newlines.
pub open spec fn splits_cleanly(e: ElementView) -> bool {
    let t = header_toml(e.header);
    &&& t.len() > 0
    &&& t.last() == '\n'
    &&& lacks(t, '\r')
    &&& forall|k: int| 0 <= k < lines(t).len() ==> !is_fence(#[trigger] lines(t)[k])
    &&& lacks(e.body, '\r')
    &&& trim_trailing(e.body, '\n').len() > 0
}

/// Without its final newline, a framed file splits as the whole file does.
pub proof fn lemma_split_framed_trimmed(t: Seq<char>, body: Seq<char>, path: Seq<char>)
    requires
        t.len() > 0,
        t.last() == '\n',
        lacks(t, '\r'),
        forall|k: int| 0 <= k < lines(t).len() ==> !is_fence(#[trigger] lines(t)[k]),
        lacks(body, '\r'),
        trim_trailing(body, '\n').len() > 0,
    ensures
        split_spec(trim_trailing(framed(t, body), '\n'), path) == Ok::<(Seq<char>, Seq<char>), ErrorView>(
            (t.drop_last(), trim_trailing(body, '\n')),
        ),
{
    let b = trim_trailing(body, '\n');
    crate::text::lemma_trim_trailing_last(body, '\n');
    crate::text::lemma_trim_trailing_prefix(body, '\n');
    let x = fence() + nl() + t + fence() + nl() + nl() + b;
    assert(framed(t, body) =~= x + nl());
    assert((x + nl()).drop_last() =~= x);
    assert(x.last() == b.last());
    assert(trim_trailing(x, '\n') == x);
    assert(trim_trailing(x + nl(), '\n') == trim_trailing(x, '\n'));
    assert(lacks(x, '\r')) by {
        assert forall|i: int| 0 <= i < x.len() implies #[trigger] x[i] != '\r' by {
            let n0 = fence().len() + 1;
            let n1 = n0 + t.len();
            let n2 = n1 + fence().len() + 2;
            if i < n0 {
            } else if i < n1 {
                assert(x[i] == t[i - n0]);
            } else if i < n2 {
            } else {
                assert(x[i] == b[i - n2]);
                assert(b[i - n2] == body[i - n2]);
            }
        }
    }
    crate::text::lemma_lines_terminated(x);
    lemma_split_framed(t, body, path);
}

/// Reading back what serializing wrote gives the element's body without
/// its trailing newlines, when the element splits back cleanly and the
/// text parses.
pub proof fn lemma_parse_serialized_body(e: ElementView, path: Seq<char>, legacy: bool)
    requires
        splits_cleanly(e),
    ensures
        parse_spec(serialize_spec(e), path, legacy) matches Ok(x) ==> x.body == trim_trailing(
            e.body,
            '\n',
        ),
{
    lemma_split_framed(header_toml(e.header), e.body, path);
}

/// Splitting a file does not depend on the path it is read under, but for
/// the path that errors name: it succeeds under one path exactly when it
/// succeeds under another, with the same frontmatter and body.
pub proof fn lemma_split_path_free(content: Seq<char>, p1: Seq<char>, p2: Seq<char>)
    ensures
        split_spec(content, p1) is Ok <==> split_spec(content, p2) is Ok,
        split_spec(content, p1) is Ok ==> split_spec(content, p1) == split_spec(content, p2),
{
}

/// The file `+++\n<frontmatter>\n+++\n\n<body>\n`.
pub open spec fn file_text(frontmatter: Seq<char>, body: Seq<char>) -> Seq<char> {
    fence() + nl() + frontmatter + nl() + fence() + nl() + nl() + body + nl()
}

/// Splitting `+++\n<frontmatter>\n+++\n\n<body>\n` gives back exactly the
/// frontmatter and the body (the one blank line after the closing fence is
/// consumed), when neither holds a carriage return and no line of the
/// frontmatter is a fence.
pub proof fn lemma_split_file(fm: Seq<char>, body: Seq<char>, path: Seq<char>)
    requires
        lacks(fm, '\r'),
        forall|k: int| 0 <= k < lines(fm + nl()).len() ==> !is_fence(#[trigger] lines(fm + nl())[k]),
        lacks(body, '\r'),
    ensures
        split_spec(file_text(fm, body), path) == Ok::<(Seq<char>, Seq<char>), ErrorView>((fm, body)),
{
    let t0 = fm;
    let t = fm + nl();
    let b = body;
    let f = fence();
    assert(lacks(f, '\n'));
    let content = file_text(fm, body);
    let x = f + nl() + (Seq::<char>::empty() + nl() + (b + nl()));
    assert(content =~= f + nl() + (t0 + nl() + x));
    crate::text::lemma_lines_split(f, t0 + nl() + x);
    crate::text::lemma_lines_cons(f, Seq::<char>::empty());
    assert(f + nl() + Seq::<char>::empty() =~= f + nl());
    assert(lines(Seq::<char>::empty()) =~= Seq::<Seq<char>>::empty());
    crate::text::lemma_lines_split(t0, x);
    crate::text::lemma_lines_cons(f, Seq::<char>::empty() + nl() + (b + nl()));
    crate::text::lemma_lines_cons(Seq::<char>::empty(), b + nl());
    assert(crate::text::strip_cr(f) == f);
    assert(crate::text::strip_cr(Seq::<char>::empty()) =~= Seq::<char>::empty());
    let lt = lines(t);
    let lb = lines(b + nl());
    let ls = lines(content);
    let e0 = Seq::<char>::empty();
    assert(ls =~= seq![f] + lt + (seq![f] + (seq![e0] + lb)));
    assert(trim_end(f) =~= f);
    assert(is_fence(ls[0]));
    let rest = ls.drop_first();
    assert(rest =~= lt + (seq![f] + (seq![e0] + lb)));
    let n = lt.len() as int;
    let pred = |l: Seq<char>| is_fence(l);
    assert forall|j: int| 0 <= j < n implies !pred(#[trigger] rest[j]) by {
        assert(rest[j] == lt[j]);
    }
    assert(rest[n] == f);
    lemma_first_match_at(rest, pred, n);
    assert(rest.take(n) =~= lt);
    assert(rest.skip(n + 1) =~= seq![e0] + lb);
    assert(all_ws((seq![e0] + lb)[0]));
    assert(body_after_fence(rest.skip(n + 1)) =~= lb);
    crate::text::lemma_join_lines(t0);
    crate::text::lemma_join_lines(b);
}

/// A file framed from a frontmatter text and a body splits back into the
/// frontmatter (without its final newline) and the body without its
/// trailing newlines, when the frontmatter ends with a newline, neither
/// holds a carriage return, and no line of the frontmatter is a fence.
pub proof fn lemma_split_framed(t: Seq<char>, body: Seq<char>, path: Seq<char>)
    requires
        t.len() > 0,
        t.last() == '\n',
        lacks(t, '\r'),
        forall|k: int| 0 <= k < lines(t).len() ==> !is_fence(#[trigger] lines(t)[k]),
        lacks(body, '\r'),
    ensures
        split_spec(framed(t, body), path) == Ok::<(Seq<char>, Seq<char>), ErrorView>(
            (t.drop_last(), trim_trailing(body, '\n')),
        ),
{
    let t0 = t.drop_last();
    assert(t =~= t0 + nl());
    let b = trim_trailing(body, '\n');
    crate::text::lemma_trim_trailing_prefix(body, '\n');
    assert(lacks(b, '\r')) by {
        assert forall|i: int| 0 <= i < b.len() implies #[trigger] b[i] != '\r' by {
            assert(b[i] == body[i]);
        }
    }
    assert(lacks(t0, '\r')) by {
        assert forall|i: int| 0 <= i < t0.len() implies #[trigger] t0[i] != '\r' by {
            assert(t0[i] == t[i]);
        }
    }
    assert(framed(t, body) =~= file_text(t0, b));
    lemma_split_file(t0, b, path);
}

/// What serializing wrote splits back into the header's TOML text (without
/// its final newline) and the body without its trailing newlines, when the
/// TOML text ends with a newline, neither holds a carriage return, and no
/// line of the TOML text is a fence.
pub proof fn lemma_split_serialized(e: ElementView, path: Seq<char>)
    requires
        header_toml(e.header).len() > 0,
        header_toml(e.header).last() == '\n',
        lacks(header_toml(e.header), '\r'),
        forall|k: int| 0 <= k < lines(header_toml(e.header)).len() ==> !is_fence(
            #[trigger] lines(header_toml(e.header))[k],
        ),
        lacks(e.body, '\r'),
    ensures
        split_spec(serialize_spec(e), path) == Ok::<(Seq<char>, Seq<char>), ErrorView>(
            (header_toml(e.header).drop_last(), trim_trailing(e.body, '\n')),
        ),
{
    lemma_split_framed(header_toml(e.header), e.body, path);
}

} // verus!
