//! Decisions behind the command-line tool: how an input file's name becomes
//! an element id, the default id of a composition, the inputs of a
//! re-render, and the size summary of a body.

use vstd::prelude::*;

use crate::element::{ElementView, PromptElement};
use crate::header::{is_kebab_case, kebab, slugify, slugify_spec, InputRefView};
use crate::paths::{file_name, path_components, stem_of};
use crate::text::{
    append_chars, chars_of, debug_quoted, debug_str, join, lines, split_lines, string_of, strs,
};

verus! {

/// The stem of a path's file name, or nothing when it has none.
pub open spec fn file_stem_of(p: Seq<char>) -> Seq<char> {
    match file_name(p) {
        Some(n) => stem_of(n),
        None => seq![],
    }
}

/// How the id of a plain input file is settled.
#[derive(Debug)]
pub enum IdResolution {
    /// Use this id, renaming the file first when `rename_to` is set.
    Use { id: String, rename_to: Option<String> },
    /// Skip the file, for the reason given.
    Skip(String),
    /// Ask the user whether to use the slug (or rename the file to it).
    Ask { stem: String, slug: String },
}

pub enum IdResolutionView {
    Use { id: Seq<char>, rename_to: Option<Seq<char>> },
    Skip(Seq<char>),
    Ask { stem: Seq<char>, slug: Seq<char> },
}

impl View for IdResolution {
    type V = IdResolutionView;

    open spec fn view(&self) -> IdResolutionView {
        match self {
            IdResolution::Use { id, rename_to } => IdResolutionView::Use {
                id: id@,
                rename_to: crate::header::opt_str_view(*rename_to),
            },
            IdResolution::Skip(r) => IdResolutionView::Skip(r@),
            IdResolution::Ask { stem, slug } => IdResolutionView::Ask { stem: stem@, slug: slug@ },
        }
    }
}

/// The id decision for the file at `source`: a kebab-case stem is the id;
/// otherwise its slug, when `--slug` was given; otherwise the user is asked
/// when there is a terminal, and the file is skipped (with advice) when
/// there is not. A stem with no letter or digit is skipped.
pub open spec fn resolve_id_spec(source: Seq<char>, slug_flag: bool, interactive: bool) -> IdResolutionView {
    let stem = file_stem_of(source);
    if kebab(stem) {
        IdResolutionView::Use { id: stem, rename_to: None }
    } else {
        match slugify_spec(stem) {
            None => IdResolutionView::Skip(
                "filename "@ + debug_quoted(stem) + " has no characters usable for a kebab-case id"@,
            ),
            Some(slug) => if slug_flag {
                IdResolutionView::Use { id: slug, rename_to: None }
            } else if !interactive {
                IdResolutionView::Skip(
                    "filename "@ + debug_quoted(stem) + " isn't kebab-case — rerun with --slug, or rename it to '"@
                        + slug + ".md'"@,
                )
            } else {
                IdResolutionView::Ask { stem, slug }
            },
        }
    }
}

fn file_stem(source: &str) -> (s: String)
    ensures
        s@ == file_stem_of(source@),
{
    let p = chars_of(source);
    let cs = path_components(p.as_slice());
    if cs.len() == 0 {
        return String::new();
    }
    let last = &cs[cs.len() - 1];
    assert(last@ == crate::paths::components(source@).last());
    if crate::paths::has_file_name_form(last.as_slice()) {
        string_of(crate::paths::stem_chars(last.as_slice()).as_slice())
    } else {
        String::new()
    }
}

/// Resolve the kebab-case id for a plain input file from its file name
/// stem; `interactive` tells whether the user can be asked.
pub fn resolve_id(source: &str, slug_flag: bool, interactive: bool) -> (r: IdResolution)
    ensures
        r@ == resolve_id_spec(source@, slug_flag, interactive),
{
    let stem = file_stem(source);
    if is_kebab_case(stem.as_str()) {
        return IdResolution::Use { id: stem, rename_to: None };
    }
    let slug = match slugify(stem.as_str()) {
        Some(s) => s,
        None => {
            let mut m = chars_of("filename ");
            append_chars(&mut m, chars_of(debug_str(stem.as_str()).as_str()).as_slice());
            append_chars(&mut m, chars_of(" has no characters usable for a kebab-case id").as_slice());
            return IdResolution::Skip(string_of(m.as_slice()));
        },
    };
    if slug_flag {
        return IdResolution::Use { id: slug, rename_to: None };
    }
    if !interactive {
        let mut m = chars_of("filename ");
        append_chars(&mut m, chars_of(debug_str(stem.as_str()).as_str()).as_slice());
        append_chars(&mut m, chars_of(" isn't kebab-case — rerun with --slug, or rename it to '").as_slice());
        append_chars(&mut m, chars_of(slug.as_str()).as_slice());
        append_chars(&mut m, chars_of(".md'").as_slice());
        return IdResolution::Skip(string_of(m.as_slice()));
    }
    IdResolution::Ask { stem, slug }
}

/// The reason a file is skipped when the user declines both the slug and
/// the rename.
pub open spec fn declined_reason_spec(stem: Seq<char>, slug: Seq<char>) -> Seq<char> {
    "filename "@ + debug_quoted(stem) + " isn't kebab-case — rename it (e.g. '"@ + slug + ".md') to include it"@
}

pub fn declined_reason(stem: &str, slug: &str) -> (s: String)
    ensures
        s@ == declined_reason_spec(stem@, slug@),
{
    let mut m = chars_of("filename ");
    append_chars(&mut m, chars_of(debug_str(stem).as_str()).as_slice());
    append_chars(&mut m, chars_of(" isn't kebab-case — rename it (e.g. '").as_slice());
    append_chars(&mut m, chars_of(slug).as_slice());
    append_chars(&mut m, chars_of(".md') to include it").as_slice());
    string_of(m.as_slice())
}

/// The id of a composition that was not given one: `composed-` and the
/// input ids joined by `-`.
pub open spec fn default_output_id_spec(ids: Seq<Seq<char>>) -> Seq<char> {
    "composed-"@ + join(ids, seq!['-'])
}

pub fn default_output_id(ids: &Vec<String>) -> (s: String)
    ensures
        s@ == default_output_id_spec(strs(ids@)),
{
    let mut parts: Vec<Vec<char>> = Vec::new();
    let mut i: usize = 0;
    while i < ids.len()
        invariant
            i <= ids@.len(),
            parts.deep_view() == strs(ids@).take(i as int),
        decreases ids.len() - i,
    {
        let c = chars_of(ids[i].as_str());
        let ghost before = parts.deep_view();
        let ghost cg = c;
        proof {
            crate::text::lemma_chars_deep_view(cg);
        }
        parts.push(c);
        assert(parts@.last() == cg);
        assert(strs(ids@)[i as int] == ids@[i as int]@);
        assert(parts.deep_view() =~= before.push(cg@));
        assert(strs(ids@).take(i + 1) =~= strs(ids@).take(i as int).push(strs(ids@)[i as int]));
        i += 1;
    }
    assert(strs(ids@).take(i as int) =~= strs(ids@));
    let mut sep: Vec<char> = Vec::new();
    sep.push('-');
    assert(sep@ =~= seq!['-']);
    let joined = crate::text::join_vecs(&parts, sep.as_slice());
    let mut out = chars_of("composed-");
    append_chars(&mut out, joined.as_slice());
    string_of(out.as_slice())
}

/// The inputs a re-render composes: the target's recipe, each input pinned
/// to its recorded version; none for an element without a recipe.
pub open spec fn re_render_inputs_spec(e: ElementView) -> Option<Seq<(Seq<char>, Option<Seq<char>>)>> {
    match e.header.composed_of {
        None => None,
        Some(v) => Some(v.map_values(|r: InputRefView| (r.id, Some(r.version)))),
    }
}

/// Re-rendering holds to the recorded versions: when compose accepts the
/// inputs a re-render builds from a recipe, the library holds every input
/// of that recipe at exactly the version the recipe records.
pub proof fn lemma_re_render_pins(e: ElementView, lib: Seq<ElementView>)
    ensures
        re_render_inputs_spec(e) matches Some(ins) && crate::render::compose_error(lib, ins) is None
            ==> forall|i: int|
            0 <= i < e.header.composed_of->Some_0.len() ==> {
                let r = #[trigger] e.header.composed_of->Some_0[i];
                let k = crate::library::find_id(lib, r.id);
                &&& k < lib.len()
                &&& lib[k].header.id == r.id
                &&& lib[k].header.version == r.version
            },
{
    if let Some(ins) = re_render_inputs_spec(e) {
        crate::render::lemma_compose_pins_exact(lib, ins);
        if crate::render::compose_error(lib, ins) is None {
            let v = e.header.composed_of->Some_0;
            assert forall|i: int| 0 <= i < v.len() implies {
                let r = #[trigger] v[i];
                let k = crate::library::find_id(lib, r.id);
                &&& k < lib.len()
                &&& lib[k].header.id == r.id
                &&& lib[k].header.version == r.version
            } by {
                assert(ins[i] == (v[i].id, Some(v[i].version)));
                assert(crate::render::input_ok(lib, ins, i));
                crate::library::lemma_find_id_bounds(lib, v[i].id);
            }
        }
    }
}

pub fn re_render_inputs(e: &PromptElement) -> (r: Option<Vec<(String, Option<String>)>>)
    ensures
        match r {
            Some(v) => re_render_inputs_spec(e@) == Some(crate::render::request_inputs(v@)),
            None => re_render_inputs_spec(e@) is None,
        },
{
    match &e.header.composed_of {
        None => None,
        Some(inputs) => {
            let ghost iv = crate::header::inputs_view(inputs@);
            let mut out: Vec<(String, Option<String>)> = Vec::new();
            let mut i: usize = 0;
            while i < inputs.len()
                invariant
                    i <= inputs@.len(),
                    iv == crate::header::inputs_view(inputs@),
                    crate::render::request_inputs(out@) == iv.take(i as int).map_values(
                        |r: InputRefView| (r.id, Some(r.version)),
                    ),
                decreases inputs.len() - i,
            {
                assert(iv[i as int] == inputs@[i as int]@);
                let ghost before = crate::render::request_inputs(out@);
                out.push((inputs[i].id.clone(), Some(inputs[i].version.clone())));
                assert(crate::render::request_inputs(out@) =~= before.push(
                    (iv[i as int].id, Some(iv[i as int].version)),
                ));
                assert(iv.take(i + 1).map_values(|r: InputRefView| (r.id, Some(r.version)))
                    =~= iv.take(i as int).map_values(|r: InputRefView| (r.id, Some(r.version))).push(
                    (iv[i as int].id, Some(iv[i as int].version)),
                ));
                i += 1;
            }
            assert(iv.take(i as int) =~= iv);
            Some(out)
        },
    }
}

/// A body's size: its number of lines (none for an empty body) and of
/// characters.
pub fn body_stats(body: &str) -> (r: (usize, usize))
    ensures
        r.0 == lines(body@).len(),
        r.1 == body@.len(),
{
    let c = chars_of(body);
    if c.len() == 0 {
        assert(lines(body@) =~= Seq::<Seq<char>>::empty());
        return (0, 0);
    }
    let ls = split_lines(c.as_slice());
    (ls.len(), c.len())
}

} // verus!
