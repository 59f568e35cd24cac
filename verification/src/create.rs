//! Create: turn plain Markdown files into Oovra atoms.
//!
//! Two file-based modes:
//!
//! - label: put a header on a file in place; the file itself becomes the
//!   element.
//! - olib: write a headered copy into a library directory, leaving the
//!   original untouched. An input that is already an Oovra file is copied
//!   verbatim (no second header).
//!
//! Every output is checked by parsing it back before it is handed to the
//! caller to write, so a broken file never reaches the disk. The caller
//! reads and writes the files.

use vstd::prelude::*;

use crate::decompose::{md_name, md_name_string};
use crate::element::{
    looks_like_oovra_file, looks_like_spec, parse, parse_spec, prepare_write, split_frontmatter,
    split_spec, write_spec, ElementView, PromptElement,
};
use crate::error::{ErrorView, OovraError, Result};
use crate::header::{HeaderView, PromptElementHeader, PromptElementKind};
use crate::paths::{extends, join_path, joined_path, plain_name};
use crate::text::{all_ws, append_chars, chars_of, is_blank, string_of};

verus! {

/// The header of a freshly labeled atom: its name is its id.
pub open spec fn atom_header_spec(id: Seq<char>, version: Seq<char>, meta: Seq<char>) -> HeaderView {
    HeaderView {
        name: id,
        kind: PromptElementKind::Atom,
        id,
        version,
        meta,
        generated_at: None,
        render_mode: None,
        body_level: None,
        depth: None,
        composed_of: None,
    }
}

/// Build the header for a freshly labeled atom. The element name defaults
/// to the id: file-based authoring carries no separate display name.
pub fn atom_header(id: &str, version: &str, meta: &str) -> (h: PromptElementHeader)
    ensures
        h@ == atom_header_spec(id@, version@, meta@),
{
    PromptElementHeader {
        name: String::from_str(id),
        kind: PromptElementKind::Atom,
        id: String::from_str(id),
        version: String::from_str(version),
        meta: String::from_str(meta),
        generated_at: None,
        render_mode: None,
        body_level: None,
        depth: None,
        composed_of: None,
    }
}

/// The body given to an element labeled from an empty file.
pub open spec fn placeholder(id: Seq<char>) -> Seq<char> {
    "<!-- TODO: body for `"@ + id + "` was empty when labeled -->"@
}

pub open spec fn body_or_placeholder_spec(content: Seq<char>, id: Seq<char>) -> Seq<char> {
    if all_ws(content) {
        placeholder(id)
    } else {
        content
    }
}

/// The body for a labeled element: the file's content verbatim, or a TODO
/// placeholder when the content is blank.
pub fn body_or_placeholder(content: &str, id: &str) -> (s: String)
    ensures
        s@ == body_or_placeholder_spec(content@, id@),
{
    let c = chars_of(content);
    if is_blank(c.as_slice()) {
        let mut v = chars_of("<!-- TODO: body for `");
        append_chars(&mut v, chars_of(id).as_slice());
        append_chars(&mut v, chars_of("` was empty when labeled -->").as_slice());
        string_of(v.as_slice())
    } else {
        String::from_str(content)
    }
}

/// The body left once a file's first `+++ ... +++` block is stripped, or
/// none when the file is not framed that way. This is the body the file
/// splits into (see `split_spec`).
pub open spec fn peel_spec(content: Seq<char>) -> Option<Seq<char>> {
    match split_spec(content, seq![]) {
        Ok((_, body)) => Some(body),
        Err(_) => None,
    }
}

/// Peeling the frontmatter gives, for every path, the body that splitting
/// the file under that path gives, and nothing exactly when the split
/// fails.
pub proof fn lemma_peel_is_split_body(content: Seq<char>, path: Seq<char>)
    ensures
        peel_spec(content) == match split_spec(content, path) {
            Ok((_, b)) => Some(b),
            Err(_) => None::<Seq<char>>,
        },
{
    crate::element::lemma_split_path_free(content, seq![], path);
}

/// Strip the first `+++ ... +++` frontmatter block and one blank line
/// after it. `None` when the file does not open with a fence or never
/// closes it.
fn peel_existing_frontmatter(content: &str) -> (r: Option<String>)
    ensures
        match r {
            Some(b) => peel_spec(content@) == Some(b@),
            None => peel_spec(content@) is None,
        },
{
    match split_frontmatter(content, "") {
        Ok((_, body)) => Some(body),
        Err(_) => None,
    }
}

/// The atom a label gives: the labeled header over its body.
pub open spec fn labeled_atom(body: Seq<char>, id: Seq<char>, version: Seq<char>, meta: Seq<char>) -> ElementView {
    ElementView { header: atom_header_spec(id, version, meta), body, source_path: None }
}

/// Labeling a file in place: refused for an Oovra file unless `force`;
/// when forced, the old frontmatter is peeled (or the whole text kept when
/// it cannot be split); otherwise the body is the content or the
/// placeholder.
pub open spec fn label_spec(
    path: Seq<char>,
    content: Seq<char>,
    id: Seq<char>,
    version: Seq<char>,
    meta: Seq<char>,
    force: bool,
) -> core::result::Result<Seq<char>, ErrorView> {
    let already = looks_like_spec(content);
    if already && !force {
        Err(ErrorView::AlreadyLabeled(path))
    } else {
        let body = if already {
            match peel_spec(content) {
                Some(b) => b,
                None => content,
            }
        } else {
            body_or_placeholder_spec(content, id)
        };
        write_spec(labeled_atom(body, id, version, meta), path)
    }
}

pub open spec fn text_result_view(r: Result<String>) -> core::result::Result<Seq<char>, ErrorView> {
    match r {
        Ok(s) => Ok(s@),
        Err(e) => Err(e@),
    }
}

/// Put a header on the file at `path`, whose text is `content`: the file
/// becomes the element. Returns the text to write back to `path`.
pub fn label_in_place(
    path: &str,
    content: &str,
    id: &str,
    version: &str,
    meta: &str,
    force: bool,
) -> (res: Result<String>)
    ensures
        text_result_view(res) == label_spec(path@, content@, id@, version@, meta@, force),
{
    let already = looks_like_oovra_file(content);
    if already && !force {
        return Err(OovraError::AlreadyLabeled(String::from_str(path)));
    }
    let body = if already {
        match peel_existing_frontmatter(content) {
            Some(b) => b,
            None => String::from_str(content),
        }
    } else {
        body_or_placeholder(content, id)
    };
    let element = PromptElement::new(atom_header(id, version, meta), body);
    assert(element@ == labeled_atom(body@, id@, version@, meta@));
    prepare_write(&element, path)
}

/// A headered copy of a plain Markdown file for a library directory:
/// the destination `olib_dir/<id>.md` and the text to write there. The
/// original file is never touched. The destination is joined by the
/// platform's path rules; the check parses the text under that path.
pub fn label_into_olib(olib_dir: &str, content: &str, id: &str, version: &str, meta: &str) -> (res:
    Result<(String, String)>)
    ensures
        ({
            let e = labeled_atom(body_or_placeholder_spec(content@, id@), id@, version@, meta@);
            let dest = joined_path(olib_dir@, md_name(id@));
            match res {
                Ok((d, text)) => d@ == dest && write_spec(e, dest) == Ok::<Seq<char>, ErrorView>(
                    text@,
                ) && (plain_name(md_name(id@)) ==> extends(d@, olib_dir@, md_name(id@))),
                Err(err) => write_spec(e, dest) == Err::<Seq<char>, ErrorView>(err@),
            }
        }),
{
    let element = PromptElement::new(atom_header(id, version, meta), body_or_placeholder(content, id));
    let name = md_name_string(id);
    let dest = join_path(olib_dir, name.as_str());
    let ghost e = labeled_atom(body_or_placeholder_spec(content@, id@), id@, version@, meta@);
    assert(element@ == e);
    match prepare_write(&element, dest.as_str()) {
        Ok(text) => Ok((dest, text)),
        Err(err) => Err(err),
    }
}

/// Where an input that is already an Oovra file goes in a library
/// directory: `olib_dir/<its own id>.md`, after a full parse has accepted
/// it. The caller copies the content there byte for byte, so the copy
/// keeps its single header.
pub fn copy_oovra_into_olib(olib_dir: &str, source: &str, content: &str) -> (res: Result<String>)
    ensures
        match res {
            Ok(d) => parse_spec(content@, source@, false) is Ok && {
                let id = parse_spec(content@, source@, false)->Ok_0.header.id;
                &&& d@ == joined_path(olib_dir@, md_name(id))
                &&& plain_name(md_name(id)) ==> extends(d@, olib_dir@, md_name(id))
            },
            Err(e) => parse_spec(content@, source@, false) == Err::<ElementView, ErrorView>(e@),
        },
{
    let element = match parse(content, source) {
        Ok(e) => e,
        Err(e) => return Err(e),
    };
    let name = md_name_string(element.header.id.as_str());
    Ok(join_path(olib_dir, name.as_str()))
}

/// Which `create` mode the user selected.
#[derive(Clone, Copy, Debug, PartialEq, Eq, Structural)]
pub enum CreateMode {
    /// Header files in place: the file becomes the element.
    Label,
    /// Copy headered elements into the library directory.
    Olib,
}

/// What `create` does with one file.
#[derive(Clone, Copy, Debug, PartialEq, Eq, Structural)]
pub enum CreateAction {
    /// Copy an Oovra file verbatim into the library, keeping its one header.
    CopyVerbatim,
    /// Settle an id for a plain file and write a headered copy into the
    /// library.
    LabelCopy,
    /// Leave an Oovra file alone: relabeling it needs `--force`.
    SkipLabeled,
    /// Relabel an Oovra file in place, keeping the element's own id.
    Relabel,
    /// Settle an id for a plain file and put a header on it in place.
    LabelInPlace,
}

/// The action for a file, by mode, by whether the file already opens with
/// an Oovra fence, and by `--force` (which matters only for relabeling).
pub open spec fn create_action_spec(mode: CreateMode, is_oovra: bool, force: bool) -> CreateAction {
    match mode {
        CreateMode::Olib => if is_oovra {
            CreateAction::CopyVerbatim
        } else {
            CreateAction::LabelCopy
        },
        CreateMode::Label => if !is_oovra {
            CreateAction::LabelInPlace
        } else if force {
            CreateAction::Relabel
        } else {
            CreateAction::SkipLabeled
        },
    }
}

/// Decide what `create` does with one file. See `create_action_spec`.
pub fn create_action(mode: CreateMode, is_oovra: bool, force: bool) -> (a: CreateAction)
    ensures
        a == create_action_spec(mode, is_oovra, force),
{
    match mode {
        CreateMode::Olib => if is_oovra {
            CreateAction::CopyVerbatim
        } else {
            CreateAction::LabelCopy
        },
        CreateMode::Label => if !is_oovra {
            CreateAction::LabelInPlace
        } else if force {
            CreateAction::Relabel
        } else {
            CreateAction::SkipLabeled
        },
    }
}

} // verus!
