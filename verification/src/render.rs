//! Compose: the JOIN operator.
//!
//! Compose takes an ordered list of input prompt elements and produces a
//! single compound. The output's `body_level` is always
//! `max(input.body_level, default = 0) + 1`, so the outer delimiters have
//! strictly more tildes than any input's own delimiters.
//!
//! The output's body is the concatenation of each input's full file content
//! (frontmatter + body), wrapped in level-aware delimiters. This makes every
//! compound losslessly decomposable.

use vstd::prelude::*;

use crate::element::{
    close_chars, delim_close, delim_open, open_chars, serialize, serialize_error, serialize_fails,
    serialize_spec, ElementView, PromptElement,
};
use crate::error::{ErrorView, OovraError, Result};
use crate::header::{
    inputs_view, rfc3339_accepts, HeaderView, InputRef, InputRefView, PromptElementHeader,
    PromptElementKind,
};
use crate::library::{elements_view, find_id, Library};
use crate::decompose::{decompose, decompose_spec, lemma_decompose_shrinks};
use crate::text::{
    append_chars, chars_of, first_match, join, join_vecs, lemma_first_match_at, newline_chars, nl,
    string_of, trim, trim_trailing, trim_trailing_vec, trim_vec,
};

verus! {

/// The largest of `s` (`-1` when empty).
pub open spec fn seq_max(s: Seq<u32>) -> int
    decreases s.len(),
{
    if s.len() == 0 {
        -1
    } else {
        let m = seq_max(s.drop_last());
        if s.last() > m {
            s.last() as int
        } else {
            m
        }
    }
}

/// `max(s) + 1`, or 1 when `s` is empty.
pub open spec fn level_above(s: Seq<u32>) -> int {
    if s.len() == 0 {
        1
    } else {
        seq_max(s) + 1
    }
}

pub proof fn lemma_seq_max(s: Seq<u32>)
    ensures
        forall|i: int| 0 <= i < s.len() ==> s[i] <= seq_max(s),
        s.len() > 0 ==> exists|i: int| 0 <= i < s.len() && s[i] == seq_max(s),
        s.len() == 0 ==> seq_max(s) == -1,
    decreases s.len(),
{
    if s.len() > 0 {
        lemma_seq_max(s.drop_last());
        assert forall|i: int| 0 <= i < s.len() implies s[i] <= seq_max(s) by {
            if i < s.len() - 1 {
                assert(s[i] == s.drop_last()[i]);
            }
        }
        if s.last() > seq_max(s.drop_last()) {
            assert(s[s.len() - 1] == seq_max(s));
        } else {
            let w = choose|i: int| 0 <= i < s.drop_last().len() && s.drop_last()[i] == seq_max(s.drop_last());
            assert(s[w] == seq_max(s));
        }
    }
}

/// The level above a list of levels is at least 1 and strictly above each
/// of them.
pub proof fn lemma_level_escalates(s: Seq<u32>)
    ensures
        level_above(s) >= 1,
        forall|i: int| 0 <= i < s.len() ==> s[i] < level_above(s),
{
    lemma_seq_max(s);
}

/// The level above a list is exactly one more than its largest member
/// (1 for an empty list).
pub proof fn lemma_level_above_exact(s: Seq<u32>)
    ensures
        s.len() == 0 ==> level_above(s) == 1,
        forall|i: int| 0 <= i < s.len() ==> s[i] < level_above(s),
        s.len() > 0 ==> exists|i: int| 0 <= i < s.len() && s[i] + 1 == level_above(s),
{
    lemma_seq_max(s);
}

fn max_plus_one(levels: &[u32]) -> (r: u32)
    requires
        forall|i: int| 0 <= i < levels@.len() ==> #[trigger] levels@[i] < u32::MAX,
    ensures
        r == level_above(levels@),
{
    let mut best: Option<u32> = None;
    let mut i: usize = 0;
    while i < levels.len()
        invariant
            i <= levels@.len(),
            forall|j: int| 0 <= j < levels@.len() ==> #[trigger] levels@[j] < u32::MAX,
            i == 0 ==> best is None,
            i > 0 ==> best is Some && best->0 == seq_max(levels@.take(i as int)),
        decreases levels.len() - i,
    {
        let cur = levels[i];
        let nb: u32 = match best {
            None => cur,
            Some(b) => if cur > b {
                cur
            } else {
                b
            },
        };
        proof {
            let t = levels@.take(i + 1);
            assert(t.drop_last() =~= levels@.take(i as int));
            assert(t.last() == cur);
            if i == 0 {
                assert(levels@.take(0).len() == 0);
                assert(seq_max(levels@.take(0)) == -1);
            }
            assert(nb == seq_max(t));
        }
        best = Some(nb);
        i += 1;
    }
    assert(levels@.take(levels@.len() as int) =~= levels@);
    proof {
        lemma_seq_max(levels@);
    }
    match best {
        None => 1,
        Some(b) => b + 1,
    }
}

/// Compute the physical body delimiter level for a compose output:
/// `max(input body levels) + 1`, or 1 with no inputs. Atoms contribute 0.
pub fn compute_body_level(input_body_levels: &[u32]) -> (r: u32)
    requires
        forall|i: int|
            0 <= i < input_body_levels@.len() ==> #[trigger] input_body_levels@[i] < u32::MAX,
    ensures
        r == level_above(input_body_levels@),
{
    max_plus_one(input_body_levels)
}

/// Compute the recipe depth of a compose output: `1 + max(input depths)`,
/// or 1 with no inputs. Atoms contribute 0.
pub fn compute_depth(input_depths: &[u32]) -> (r: u32)
    requires
        forall|i: int| 0 <= i < input_depths@.len() ==> #[trigger] input_depths@[i] < u32::MAX,
    ensures
        r == level_above(input_depths@),
{
    max_plus_one(input_depths)
}

/// One input's full file content between level-`level` delimiters, each on
/// its own line; the content loses its trailing newlines.
pub open spec fn wrap_spec(level: u32, file: Seq<char>) -> Seq<char> {
    delim_open(level) + nl() + trim_trailing(file, '\n') + nl() + delim_close(level)
}

/// The body of a compound: every input wrapped, joined by newlines.
pub open spec fn render_body_spec(level: u32, files: Seq<Seq<char>>) -> Seq<char> {
    join(files.map_values(|f: Seq<char>| wrap_spec(level, f)), nl())
}

fn wrap_chunk(body_level: u32, full_file_content: &str) -> (v: Vec<char>)
    ensures
        v@ == wrap_spec(body_level, full_file_content@),
{
    let mut v = open_chars(body_level);
    v.push('\n');
    let c = chars_of(full_file_content);
    let t = trim_trailing_vec(c.as_slice(), '\n');
    append_chars(&mut v, t.as_slice());
    v.push('\n');
    let close = close_chars(body_level);
    append_chars(&mut v, close.as_slice());
    assert(v@ =~= wrap_spec(body_level, full_file_content@));
    v
}

pub open spec fn strings_view(v: Seq<String>) -> Seq<Seq<char>> {
    v.map_values(|s: String| s@)
}

/// Render the body of a composed element by concatenating the full-file
/// content of each input separated by level-`body_level` delimiters.
pub fn render_body(body_level: u32, input_files: &[String]) -> (s: String)
    ensures
        s@ == render_body_spec(body_level, strings_view(input_files@)),
{
    let mut parts: Vec<Vec<char>> = Vec::new();
    let mut i: usize = 0;
    let ghost fv = strings_view(input_files@);
    while i < input_files.len()
        invariant
            i <= input_files@.len(),
            fv == strings_view(input_files@),
            parts.deep_view() == fv.take(i as int).map_values(
                |f: Seq<char>| wrap_spec(body_level, f),
            ),
        decreases input_files.len() - i,
    {
        let w = wrap_chunk(body_level, input_files[i].as_str());
        let ghost before = parts.deep_view();
        let ghost wg = w;
        proof {
            crate::text::lemma_chars_deep_view(wg);
        }
        parts.push(w);
        proof {
            assert(parts@.last() == wg);
            assert(parts.deep_view() =~= before.push(wg@));
            assert(fv.take(i + 1).map_values(|f: Seq<char>| wrap_spec(body_level, f))
                =~= fv.take(i as int).map_values(|f: Seq<char>| wrap_spec(body_level, f)).push(
                wrap_spec(body_level, fv[i as int]),
            ));
        }
        i += 1;
    }
    assert(fv.take(fv.len() as int) =~= fv);
    let sep = newline_chars();
    let joined = join_vecs(&parts, sep.as_slice());
    string_of(joined.as_slice())
}

/// Inputs to a compose operation. Each input is an id with an optional
/// version pin; a pinned input must match the library's version exactly.
pub struct ComposeRequest<'a> {
    pub library: &'a Library,
    pub inputs: Vec<(String, Option<String>)>,
    pub output_id: String,
    pub output_name: String,
    pub output_version: String,
    pub output_meta: String,
}

pub open spec fn request_inputs(v: Seq<(String, Option<String>)>) -> Seq<(Seq<char>, Option<Seq<char>>)> {
    v.map_values(|x: (String, Option<String>)| (x.0@, crate::header::opt_str_view(x.1)))
}

/// What is wrong with one requested input, if anything: an id missing from
/// the library, or a pin that differs from the library's version.
pub open spec fn input_problem(lib: Seq<ElementView>, x: (Seq<char>, Option<Seq<char>>)) -> Option<ErrorView> {
    let k = find_id(lib, x.0);
    if k >= lib.len() {
        Some(ErrorView::ElementNotFound { id: x.0 })
    } else {
        match x.1 {
            Some(pin) => if pin != lib[k].header.version {
                Some(ErrorView::VersionMismatch { id: x.0, pin, actual: lib[k].header.version })
            } else {
                None
            },
            None => None,
        }
    }
}

/// Why a compose request fails, if it does: no inputs, or the first input
/// with a problem.
pub open spec fn compose_error(lib: Seq<ElementView>, ins: Seq<(Seq<char>, Option<Seq<char>>)>) -> Option<ErrorView> {
    if ins.len() == 0 {
        Some(ErrorView::EmptyCompose)
    } else {
        let k = first_match(ins, |x: (Seq<char>, Option<Seq<char>>)| input_problem(lib, x) is Some);
        if k < ins.len() {
            input_problem(lib, ins[k])
        } else {
            let rs = resolved(lib, ins);
            let f = first_match(rs, |e: ElementView| serialize_fails(e));
            if f < rs.len() {
                Some(serialize_error(rs[f]))
            } else {
                None
            }
        }
    }
}

/// The library elements a request names, in request order.
pub open spec fn resolved(lib: Seq<ElementView>, ins: Seq<(Seq<char>, Option<Seq<char>>)>) -> Seq<ElementView> {
    ins.map_values(|x: (Seq<char>, Option<Seq<char>>)| lib[find_id(lib, x.0)])
}

/// The body level an input contributes: its own, or 0 for an atom.
pub open spec fn level_of(e: ElementView) -> u32 {
    match e.header.body_level {
        Some(l) => l,
        None => 0,
    }
}

/// The depth an input contributes: its own, else its body level (compounds
/// written before `depth` existed), else 0.
pub open spec fn depth_of(e: ElementView) -> u32 {
    match e.header.depth {
        Some(d) => d,
        None => level_of(e),
    }
}

/// The element the library holds under `id`, if any, leaves room for one
/// more level in its body level and its depth.
pub open spec fn id_fits(lib: Seq<ElementView>, id: Seq<char>) -> bool {
    find_id(lib, id) < lib.len() ==> level_of(lib[find_id(lib, id)]) < u32::MAX && depth_of(
        lib[find_id(lib, id)],
    ) < u32::MAX
}

/// Every input the library holds leaves room for one more level.
pub open spec fn inputs_fit(lib: Seq<ElementView>, ins: Seq<(Seq<char>, Option<Seq<char>>)>) -> bool {
    forall|i: int| 0 <= i < ins.len() ==> id_fits(lib, #[trigger] ins[i].0)
}

/// The compound a valid request produces, stamped with `generated_at`.
pub open spec fn compose_element(
    lib: Seq<ElementView>,
    ins: Seq<(Seq<char>, Option<Seq<char>>)>,
    id: Seq<char>,
    name: Seq<char>,
    version: Seq<char>,
    meta: Seq<char>,
    generated_at: Seq<char>,
) -> ElementView {
    let rs = resolved(lib, ins);
    let level = level_above(rs.map_values(|e: ElementView| level_of(e))) as u32;
    let depth = level_above(rs.map_values(|e: ElementView| depth_of(e))) as u32;
    ElementView {
        header: HeaderView {
            name,
            kind: PromptElementKind::Compound,
            id,
            version,
            meta,
            generated_at: Some(generated_at),
            render_mode: Some("markdown-h2"@),
            body_level: Some(level),
            depth: Some(depth),
            composed_of: Some(
                rs.map_values(|e: ElementView| InputRefView { id: e.header.id, version: e.header.version }),
            ),
        },
        body: render_body_spec(level, rs.map_values(|e: ElementView| serialize_spec(e))),
        source_path: None,
    }
}

/// Resolve and render a compose request, stamping the output with the given
/// `generated_at` timestamp.
pub fn compose_at(req: ComposeRequest, generated_at: String) -> (res: Result<PromptElement>)
    requires
        inputs_fit(elements_view(req.library.elements@), request_inputs(req.inputs@)),
    ensures
        ({
            let lib = elements_view(req.library.elements@);
            let ins = request_inputs(req.inputs@);
            match res {
                Ok(e) => compose_error(lib, ins) is None && e@ == compose_element(
                    lib,
                    ins,
                    req.output_id@,
                    req.output_name@,
                    req.output_version@,
                    req.output_meta@,
                    generated_at@,
                ),
                Err(e) => compose_error(lib, ins) == Some(e@),
            }
        }),
{
    let ghost lib = elements_view(req.library.elements@);
    let ghost ins = request_inputs(req.inputs@);
    if req.inputs.len() == 0 {
        return Err(OovraError::EmptyCompose);
    }
    let ghost pred = |x: (Seq<char>, Option<Seq<char>>)| input_problem(lib, x) is Some;
    let mut resolved_els: Vec<&PromptElement> = Vec::new();
    let mut i: usize = 0;
    while i < req.inputs.len()
        invariant
            i <= req.inputs@.len(),
            lib == elements_view(req.library.elements@),
            ins == request_inputs(req.inputs@),
            pred == (|x: (Seq<char>, Option<Seq<char>>)| input_problem(lib, x) is Some),
            req.inputs@.len() > 0,
            resolved_els@.len() == i,
            forall|j: int| 0 <= j < i ==> !pred(#[trigger] ins[j]),
            forall|j: int| 0 <= j < i ==> (#[trigger] resolved_els@[j])@ == resolved(lib, ins)[j],
        decreases req.inputs.len() - i,
    {
        let (id, pin) = &req.inputs[i];
        assert(ins[i as int] == (id@, crate::header::opt_str_view(*pin)));
        let element = match req.library.get(id.as_str()) {
            Some(e) => e,
            None => {
                proof {
                    assert(input_problem(lib, ins[i as int]) is Some);
                    lemma_first_match_at(ins, pred, i as int);
                }
                return Err(OovraError::ElementNotFound { id: id.clone() });
            },
        };
        match pin {
            Some(p) => {
                if element.header.version != *p {
                    proof {
                        let k = find_id(lib, id@);
                        crate::library::lemma_find_id_bounds(lib, id@);
                        crate::library::lemma_elements_view_index(req.library.elements@, k);
                        assert(input_problem(lib, ins[i as int]) is Some);
                        lemma_first_match_at(ins, pred, i as int);
                    }
                    return Err(
                        OovraError::VersionMismatch {
                            id: id.clone(),
                            pin: p.clone(),
                            actual: element.header.version.clone(),
                        },
                    );
                }
            },
            None => {},
        }
        proof {
            let k = find_id(lib, id@);
            crate::library::lemma_find_id_bounds(lib, id@);
            crate::library::lemma_elements_view_index(req.library.elements@, k);
            assert(input_problem(lib, ins[i as int]) is None);
            assert(resolved(lib, ins)[i as int] == lib[k]);
        }
        resolved_els.push(element);
        i += 1;
    }
    proof {
        lemma_first_match_at(ins, pred, ins.len() as int);
        assert forall|m: int| 0 <= m < ins.len() implies find_id(lib, #[trigger] ins[m].0) < lib.len() by {
            assert(!pred(ins[m]));
        }
    }
    let ghost rs = resolved(lib, ins);
    let mut levels: Vec<u32> = Vec::new();
    let mut depths: Vec<u32> = Vec::new();
    let mut files: Vec<String> = Vec::new();
    let mut refs: Vec<InputRef> = Vec::new();
    let mut j: usize = 0;
    while j < resolved_els.len()
        invariant
            j <= resolved_els@.len(),
            resolved_els@.len() == rs.len(),
            rs == resolved(lib, ins),
            lib == elements_view(req.library.elements@),
            ins == request_inputs(req.inputs@),
            inputs_fit(lib, ins),
            forall|m: int| 0 <= m < rs.len() ==> (#[trigger] resolved_els@[m])@ == rs[m],
            forall|m: int| 0 <= m < rs.len() ==> find_id(lib, #[trigger] ins[m].0) < lib.len(),
            forall|m: int| 0 <= m < j ==> !serialize_fails(#[trigger] rs[m]),
            first_match(ins, |x: (Seq<char>, Option<Seq<char>>)| input_problem(lib, x) is Some)
                >= ins.len(),
            ins.len() > 0,
            levels@ == rs.take(j as int).map_values(|e: ElementView| level_of(e)),
            depths@ == rs.take(j as int).map_values(|e: ElementView| depth_of(e)),
            strings_view(files@) == rs.take(j as int).map_values(|e: ElementView| serialize_spec(e)),
            inputs_view(refs@) == rs.take(j as int).map_values(
                |e: ElementView| InputRefView { id: e.header.id, version: e.header.version },
            ),
        decreases resolved_els.len() - j,
    {
        let e = resolved_els[j];
        let l = match e.header.body_level {
            Some(l) => l,
            None => 0,
        };
        let d = match e.header.depth {
            Some(d) => d,
            None => l,
        };
        let f = match serialize(e) {
            Ok(s) => s,
            Err(err) => {
                proof {
                    assert(e@ == rs[j as int]);
                    lemma_first_match_at(rs, |x: ElementView| serialize_fails(x), j as int);
                }
                return Err(err);
            },
        };
        let ghost l0 = levels@;
        let ghost d0 = depths@;
        let ghost f0 = files@;
        let ghost r0 = refs@;
        let ghost fg = f;
        let r = InputRef { id: e.header.id.clone(), version: e.header.version.clone() };
        let ghost rg = r;
        levels.push(l);
        depths.push(d);
        files.push(f);
        refs.push(r);
        proof {
            assert(e@ == rs[j as int]);
            assert(fg@ == serialize_spec(rs[j as int]));
            assert(strings_view(files@) =~= strings_view(f0).push(fg@));
            assert(inputs_view(refs@) =~= inputs_view(r0).push(rg@));
            assert(rs.take(j + 1) =~= rs.take(j as int).push(rs[j as int]));
            assert(levels@ =~= rs.take(j + 1).map_values(|e: ElementView| level_of(e)));
            assert(depths@ =~= rs.take(j + 1).map_values(|e: ElementView| depth_of(e)));
            assert(strings_view(files@) =~= rs.take(j + 1).map_values(|e: ElementView| serialize_spec(e)));
            assert(inputs_view(refs@) =~= rs.take(j + 1).map_values(
                |e: ElementView| InputRefView { id: e.header.id, version: e.header.version },
            ));
        }
        j += 1;
    }
    proof {
        lemma_first_match_at(rs, |x: ElementView| serialize_fails(x), rs.len() as int);
        assert(rs.take(rs.len() as int) =~= rs);
        assert forall|m: int| 0 <= m < levels@.len() implies #[trigger] levels@[m] < u32::MAX by {
            let k = find_id(lib, ins[m].0);
            crate::library::lemma_find_id_bounds(lib, ins[m].0);
            assert(rs[m] == lib[k]);
            assert(levels@[m] == level_of(rs[m]));
            assert(id_fits(lib, ins[m].0));
            assert(level_of(lib[k]) < u32::MAX);
        }
        assert forall|m: int| 0 <= m < depths@.len() implies #[trigger] depths@[m] < u32::MAX by {
            let k = find_id(lib, ins[m].0);
            crate::library::lemma_find_id_bounds(lib, ins[m].0);
            assert(rs[m] == lib[k]);
            assert(depths@[m] == depth_of(rs[m]));
            assert(id_fits(lib, ins[m].0));
            assert(depth_of(lib[k]) < u32::MAX);
        }
    }
    let body_level = compute_body_level(levels.as_slice());
    let depth = compute_depth(depths.as_slice());
    let body = render_body(body_level, files.as_slice());
    let header = PromptElementHeader {
        name: req.output_name,
        kind: PromptElementKind::Compound,
        id: req.output_id,
        version: req.output_version,
        meta: req.output_meta,
        generated_at: Some(generated_at),
        render_mode: Some(String::from_str("markdown-h2")),
        body_level: Some(body_level),
        depth: Some(depth),
        composed_of: Some(refs),
    };
    Ok(PromptElement::new(header, body))
}

/// The current time as RFC 3339 text (`chrono::Utc::now().to_rfc3339()`).
/// Which time it gives depends on the clock, so only its form is stated:
/// it is RFC 3339 text, which `DateTime::parse_from_rfc3339` accepts.
#[verifier::external_body]
fn now_rfc3339() -> (s: String)
    ensures
        rfc3339_accepts(s@),
{
    chrono::Utc::now().to_rfc3339()
}

/// Resolve and render a compose request into a compound stamped with the
/// current time. Apart from the timestamp, the result is the one
/// `compose_at` gives.
pub fn compose(req: ComposeRequest) -> (res: Result<PromptElement>)
    requires
        inputs_fit(elements_view(req.library.elements@), request_inputs(req.inputs@)),
    ensures
        ({
            let lib = elements_view(req.library.elements@);
            let ins = request_inputs(req.inputs@);
            match res {
                Ok(e) => compose_error(lib, ins) is None && (e@.header.generated_at matches Some(g)
                    && rfc3339_accepts(g) && e@ == compose_element(
                    lib,
                    ins,
                    req.output_id@,
                    req.output_name@,
                    req.output_version@,
                    req.output_meta@,
                    g,
                )),
                Err(e) => compose_error(lib, ins) == Some(e@),
            }
        }),
{
    let now = now_rfc3339();
    compose_at(req, now)
}

/// The separator between pasted parts: a blank line.
pub open spec fn para_sep() -> Seq<char> {
    "\n\n"@
}

/// The prose form of an element: an atom is an H2 with its id over its
/// trimmed body; a compound is the prose of its immediate sub-elements,
/// separated by blank lines. Decomposition errors propagate.
pub open spec fn paste_text(e: ElementView) -> core::result::Result<Seq<char>, ErrorView>
    decreases e.body.len() + 1, 0nat,
{
    if e.header.kind == PromptElementKind::Atom {
        Ok("## "@ + e.header.id + "\n\n"@ + trim(e.body))
    } else {
        match decompose_spec(e, false) {
            Err(err) => Err(err),
            Ok(xs) => {
                proof {
                    lemma_decompose_shrinks(e, false);
                }
                match paste_all(xs, e.body.len()) {
                    Ok(parts) => Ok(join(parts, para_sep())),
                    Err(err) => Err(err),
                }
            },
        }
    }
}

/// The prose of each of `xs`, in order; the first failure stops. `room`
/// bounds the sub-elements' body lengths.
pub open spec fn paste_all(xs: Seq<ElementView>, room: nat) -> core::result::Result<
    Seq<Seq<char>>,
    ErrorView,
>
    decreases room, xs.len(),
    when forall|j: int| 0 <= j < xs.len() ==> #[trigger] xs[j].body.len() < room
{
    if xs.len() == 0 {
        Ok(seq![])
    } else {
        match paste_text(xs[0]) {
            Err(err) => Err(err),
            Ok(t) => match paste_all(xs.drop_first(), room) {
                Err(err) => Err(err),
                Ok(ts) => Ok(seq![t] + ts),
            },
        }
    }
}

/// The prose of each input, in order, each a top-level `paste_text`; the
/// first failure stops.
pub open spec fn paste_inputs(xs: Seq<ElementView>) -> core::result::Result<
    Seq<Seq<char>>,
    ErrorView,
>
    decreases xs.len(),
{
    if xs.len() == 0 {
        Ok(seq![])
    } else {
        match paste_text(xs[0]) {
            Err(err) => Err(err),
            Ok(t) => match paste_inputs(xs.drop_first()) {
                Err(err) => Err(err),
                Ok(ts) => Ok(seq![t] + ts),
            },
        }
    }
}

pub open spec fn text_result_view(r: Result<String>) -> core::result::Result<Seq<char>, ErrorView> {
    match r {
        Ok(s) => Ok(s@),
        Err(e) => Err(e@),
    }
}

/// `done` followed by what `r` holds, or `r`'s error.
pub open spec fn parts_after(
    done: Seq<Seq<char>>,
    r: core::result::Result<Seq<Seq<char>>, ErrorView>,
) -> core::result::Result<Seq<Seq<char>>, ErrorView> {
    match r {
        Ok(rest) => Ok(done + rest),
        Err(e) => Err(e),
    }
}

fn para_sep_chars() -> (v: Vec<char>)
    ensures
        v@ == para_sep(),
{
    chars_of("\n\n")
}

/// Recursively render an element to its prose form: an H2 header per atom
/// leaf, with no Oovra metadata in the output.
fn render_for_paste(element: &PromptElement) -> (res: Result<String>)
    ensures
        text_result_view(res) == paste_text(element@),
    decreases element.body@.len(),
{
    if element.header.is_atom() {
        let mut v = chars_of("## ");
        append_chars(&mut v, chars_of(element.header.id.as_str()).as_slice());
        append_chars(&mut v, chars_of("\n\n").as_slice());
        let b = chars_of(element.body.as_str());
        let t = trim_vec(b.as_slice());
        append_chars(&mut v, t.as_slice());
        return Ok(string_of(v.as_slice()));
    }
    let subs = match decompose(element) {
        Ok(s) => s,
        Err(e) => return Err(e),
    };
    let ghost xs = elements_view(subs@);
    let ghost room = element@.body.len();
    proof {
        lemma_decompose_shrinks(element@, false);
        assert(decompose_spec(element@, false) == Ok::<Seq<ElementView>, ErrorView>(xs));
    }
    let mut parts: Vec<Vec<char>> = Vec::new();
    let mut i: usize = 0;
    assert(xs.skip(0) =~= xs);
    assert(parts.deep_view() =~= Seq::<Seq<char>>::empty());
    assert(parts_after(seq![], paste_all(xs, room)) =~= paste_all(xs, room)) by {
        if let Ok(r) = paste_all(xs, room) {
            assert(Seq::<Seq<char>>::empty() + r =~= r);
        }
    }
    while i < subs.len()
        invariant
            i <= subs@.len(),
            xs == elements_view(subs@),
            room == element@.body.len(),
            element@.header.kind != PromptElementKind::Atom,
            decompose_spec(element@, false) == Ok::<Seq<ElementView>, ErrorView>(xs),
            forall|j: int| 0 <= j < xs.len() ==> #[trigger] xs[j].body.len() < room,
            paste_all(xs, room) == parts_after(parts.deep_view(), paste_all(xs.skip(i as int), room)),
        decreases subs.len() - i,
    {
        let ghost ys = xs.skip(i as int);
        proof {
            assert(ys.drop_first() =~= xs.skip(i + 1));
            assert(ys[0] == xs[i as int]);
            assert(xs[i as int] == subs@[i as int]@);
            assert(forall|j: int| 0 <= j < ys.len() ==> #[trigger] ys[j].body.len() < room) by {
                assert forall|j: int| 0 <= j < ys.len() implies #[trigger] ys[j].body.len() < room by {
                    assert(ys[j] == xs[i + j]);
                }
            }
            assert(forall|j: int| 0 <= j < ys.drop_first().len() ==> #[trigger] ys.drop_first()[j].body.len() < room) by {
                assert forall|j: int| 0 <= j < ys.drop_first().len() implies #[trigger] ys.drop_first()[j].body.len() < room by {
                    assert(ys.drop_first()[j] == ys[j + 1]);
                }
            }
        }
        proof {
            crate::library::lemma_elements_view_index(subs@, i as int);
            assert(xs[i as int].body.len() < room);
        }
        assert(subs@[i as int].body@.len() < element.body@.len());
        let p = match render_for_paste(&subs[i]) {
            Ok(p) => p,
            Err(e) => {
                assert(paste_all(ys, room) == Err::<Seq<Seq<char>>, ErrorView>(e@));
                return Err(e);
            },
        };
        let pc = chars_of(p.as_str());
        let ghost before = parts.deep_view();
        let ghost pg = pc;
        proof {
            crate::text::lemma_chars_deep_view(pg);
        }
        parts.push(pc);
        proof {
            assert(parts@.last() == pg);
            assert(parts.deep_view() =~= before.push(p@));
            if let Ok(ts) = paste_all(xs.skip(i + 1), room) {
                assert(before + (seq![p@] + ts) =~= before.push(p@) + ts);
            }
        }
        i += 1;
    }
    proof {
        assert(xs.skip(i as int) =~= Seq::<ElementView>::empty());
        assert(parts.deep_view() + Seq::<Seq<char>>::empty() =~= parts.deep_view());
    }
    let sep = para_sep_chars();
    let joined = join_vecs(&parts, sep.as_slice());
    Ok(string_of(joined.as_slice()))
}

/// Render a clean prompt from a list of inputs, for pasting into a model:
/// each atom body under an H2 of its id, compounds flattened to their atom
/// leaves, parts separated by blank lines. Not an Oovra file.
pub fn render_text(inputs: &[&PromptElement]) -> (res: Result<String>)
    ensures
        text_result_view(res) == (match paste_inputs(inputs@.map_values(|e: &PromptElement| e@)) {
            Ok(parts) => Ok::<Seq<char>, ErrorView>(join(parts, para_sep())),
            Err(err) => Err(err),
        }),
{
    let ghost xs = inputs@.map_values(|e: &PromptElement| e@);
    let mut parts: Vec<Vec<char>> = Vec::new();
    let mut i: usize = 0;
    assert(xs.skip(0) =~= xs);
    assert(parts.deep_view() =~= Seq::<Seq<char>>::empty());
    assert(parts_after(seq![], paste_inputs(xs)) =~= paste_inputs(xs)) by {
        if let Ok(r) = paste_inputs(xs) {
            assert(Seq::<Seq<char>>::empty() + r =~= r);
        }
    }
    while i < inputs.len()
        invariant
            i <= inputs@.len(),
            xs == inputs@.map_values(|e: &PromptElement| e@),
            paste_inputs(xs) == parts_after(parts.deep_view(), paste_inputs(xs.skip(i as int))),
        decreases inputs.len() - i,
    {
        let ghost ys = xs.skip(i as int);
        proof {
            assert(ys.drop_first() =~= xs.skip(i + 1));
            assert(ys[0] == xs[i as int]);
        }
        let p = match render_for_paste(inputs[i]) {
            Ok(p) => p,
            Err(e) => {
                assert(paste_inputs(ys) == Err::<Seq<Seq<char>>, ErrorView>(e@));
                return Err(e);
            },
        };
        let pc = chars_of(p.as_str());
        let ghost before = parts.deep_view();
        let ghost pg = pc;
        proof {
            crate::text::lemma_chars_deep_view(pg);
        }
        parts.push(pc);
        proof {
            assert(parts@.last() == pg);
            assert(parts.deep_view() =~= before.push(p@));
            if let Ok(ts) = paste_inputs(xs.skip(i + 1)) {
                assert(before + (seq![p@] + ts) =~= before.push(p@) + ts);
            }
        }
        i += 1;
    }
    proof {
        assert(xs.skip(i as int) =~= Seq::<ElementView>::empty());
        assert(parts.deep_view() + Seq::<Seq<char>>::empty() =~= parts.deep_view());
    }
    let sep = para_sep_chars();
    let joined = join_vecs(&parts, sep.as_slice());
    Ok(string_of(joined.as_slice()))
}

/// A compound's body level is strictly above the body level of every
/// input, so its delimiters have more tildes than any delimiter inside its
/// inputs.
pub proof fn lemma_compose_escalates(
    lib: Seq<ElementView>,
    ins: Seq<(Seq<char>, Option<Seq<char>>)>,
    id: Seq<char>,
    name: Seq<char>,
    version: Seq<char>,
    meta: Seq<char>,
    generated_at: Seq<char>,
)
    requires
        inputs_fit(lib, ins),
        compose_error(lib, ins) is None,
    ensures
        ({
            let e = compose_element(lib, ins, id, name, version, meta, generated_at);
            let rs = resolved(lib, ins);
            &&& e.header.body_level.unwrap() >= 1
            &&& forall|i: int| 0 <= i < rs.len() ==> level_of(#[trigger] rs[i]) < e.header.body_level.unwrap()
        }),
{
    let rs = resolved(lib, ins);
    let ls = rs.map_values(|e: ElementView| level_of(e));
    lemma_level_escalates(ls);
    lemma_resolved_fit(lib, ins);
    assert forall|i: int| 0 <= i < rs.len() implies level_of(#[trigger] rs[i]) < level_above(ls) by {
        assert(ls[i] == level_of(rs[i]));
    }
    assert(level_above(ls) <= u32::MAX) by {
        lemma_seq_max(ls);
        if ls.len() > 0 {
            let w = choose|i: int| 0 <= i < ls.len() && ls[i] == seq_max(ls);
            assert(ls[w] == level_of(rs[w]));
        }
    }
}

/// The elements a valid request resolves to are library elements, so their
/// levels and depths leave room for one more.
proof fn lemma_resolved_fit(lib: Seq<ElementView>, ins: Seq<(Seq<char>, Option<Seq<char>>)>)
    requires
        inputs_fit(lib, ins),
        compose_error(lib, ins) is None,
    ensures
        forall|i: int| 0 <= i < ins.len() ==> level_of(#[trigger] resolved(lib, ins)[i]) < u32::MAX && depth_of(
            resolved(lib, ins)[i],
        ) < u32::MAX,
{
    let bad = |x: (Seq<char>, Option<Seq<char>>)| input_problem(lib, x) is Some;
    crate::text::lemma_first_match_bounds(ins, bad);
    assert forall|i: int| 0 <= i < ins.len() implies level_of(#[trigger] resolved(lib, ins)[i]) < u32::MAX
        && depth_of(resolved(lib, ins)[i]) < u32::MAX by {
        assert(!bad(ins[i]));
        crate::library::lemma_find_id_bounds(lib, ins[i].0);
        let k = find_id(lib, ins[i].0);
        assert(resolved(lib, ins)[i] == lib[k]);
        assert(id_fits(lib, ins[i].0));
        assert(level_of(lib[k]) < u32::MAX && depth_of(lib[k]) < u32::MAX);
    }
}

/// When every compound among the inputs has its depth equal to its body
/// level (as every compound this library composes has) and the atoms carry
/// neither (as every valid atom), the compound's depth equals its body
/// level.
pub proof fn lemma_depth_equals_level(
    lib: Seq<ElementView>,
    ins: Seq<(Seq<char>, Option<Seq<char>>)>,
    id: Seq<char>,
    name: Seq<char>,
    version: Seq<char>,
    meta: Seq<char>,
    generated_at: Seq<char>,
)
    requires
        forall|i: int|
            0 <= i < ins.len() && (#[trigger] resolved(lib, ins)[i]).header.kind
                == PromptElementKind::Compound ==> depth_of(resolved(lib, ins)[i]) == level_of(
                resolved(lib, ins)[i],
            ),
        forall|i: int|
            0 <= i < ins.len() && (#[trigger] resolved(lib, ins)[i]).header.kind
                == PromptElementKind::Atom ==> resolved(lib, ins)[i].header.depth is None
                && resolved(lib, ins)[i].header.body_level is None,
    ensures
        compose_element(lib, ins, id, name, version, meta, generated_at).header.depth
            == compose_element(lib, ins, id, name, version, meta, generated_at).header.body_level,
{
    let rs = resolved(lib, ins);
    assert forall|i: int| 0 <= i < rs.len() implies depth_of(#[trigger] rs[i]) == level_of(rs[i]) by {
        if rs[i].header.kind == PromptElementKind::Atom {
            assert(rs[i].header.depth is None && rs[i].header.body_level is None);
        }
    }
    assert(rs.map_values(|e: ElementView| depth_of(e)) =~= rs.map_values(|e: ElementView| level_of(e)));
}

/// The input at `i` is in the library and its pin, if any, is exactly the
/// library's version of it.
pub open spec fn input_ok(lib: Seq<ElementView>, ins: Seq<(Seq<char>, Option<Seq<char>>)>, i: int) -> bool {
    &&& find_id(lib, ins[i].0) < lib.len()
    &&& (ins[i].1 matches Some(p) ==> p == lib[find_id(lib, ins[i].0)].header.version)
}

/// Pins must match exactly: a request that compose accepts names only
/// library elements, each pinned (when pinned) to exactly the library's
/// version; and when every input before `i` is fine and the input at `i`
/// is in the library but pinned to any other text, compose refuses with
/// `VersionMismatch` carrying that pin and the library's version.
pub proof fn lemma_compose_pins_exact(lib: Seq<ElementView>, ins: Seq<(Seq<char>, Option<Seq<char>>)>)
    ensures
        compose_error(lib, ins) is None ==> ins.len() > 0 && forall|i: int|
            0 <= i < ins.len() ==> #[trigger] input_ok(lib, ins, i),
        forall|i: int|
            0 <= i < ins.len() && (forall|j: int| 0 <= j < i ==> #[trigger] input_ok(lib, ins, j))
                && find_id(lib, ins[i].0) < lib.len() && (#[trigger] ins[i]).1 is Some && ins[i].1->Some_0
                != lib[find_id(lib, ins[i].0)].header.version ==> compose_error(lib, ins) == Some(
                ErrorView::VersionMismatch {
                    id: ins[i].0,
                    pin: ins[i].1->Some_0,
                    actual: lib[find_id(lib, ins[i].0)].header.version,
                },
            ),
{
    let pred = |x: (Seq<char>, Option<Seq<char>>)| input_problem(lib, x) is Some;
    crate::text::lemma_first_match_bounds(ins, pred);
    if compose_error(lib, ins) is None {
        assert forall|i: int| 0 <= i < ins.len() implies #[trigger] input_ok(lib, ins, i) by {
            assert(!pred(ins[i]));
        }
    }
    assert forall|i: int|
        0 <= i < ins.len() && (forall|j: int| 0 <= j < i ==> #[trigger] input_ok(lib, ins, j))
            && find_id(lib, ins[i].0) < lib.len() && (#[trigger] ins[i]).1 is Some && ins[i].1->Some_0
            != lib[find_id(lib, ins[i].0)].header.version implies compose_error(lib, ins) == Some(
        ErrorView::VersionMismatch {
            id: ins[i].0,
            pin: ins[i].1->Some_0,
            actual: lib[find_id(lib, ins[i].0)].header.version,
        },
    ) by {
        assert forall|j: int| 0 <= j < i implies !pred(#[trigger] ins[j]) by {
            assert(input_ok(lib, ins, j));
        }
        assert(pred(ins[i]));
        lemma_first_match_at(ins, pred, i);
    }
}

/// Compose refuses an empty request, and otherwise names the first input
/// the library does not hold (every input before it being fine).
pub proof fn lemma_compose_refusals(lib: Seq<ElementView>, ins: Seq<(Seq<char>, Option<Seq<char>>)>)
    ensures
        ins.len() == 0 ==> compose_error(lib, ins) == Some(ErrorView::EmptyCompose),
        forall|i: int|
            0 <= i < ins.len() && (forall|j: int| 0 <= j < i ==> #[trigger] input_ok(lib, ins, j))
                && !(exists|k: int| 0 <= k < lib.len() && #[trigger] lib[k].header.id == (#[trigger] ins[i]).0)
                ==> compose_error(lib, ins) == Some(ErrorView::ElementNotFound { id: ins[i].0 }),
{
    let pred = |x: (Seq<char>, Option<Seq<char>>)| input_problem(lib, x) is Some;
    assert forall|i: int|
        0 <= i < ins.len() && (forall|j: int| 0 <= j < i ==> #[trigger] input_ok(lib, ins, j))
            && !(exists|k: int| 0 <= k < lib.len() && #[trigger] lib[k].header.id == (#[trigger] ins[i]).0)
            implies compose_error(lib, ins) == Some(ErrorView::ElementNotFound { id: ins[i].0 }) by {
        assert forall|j: int| 0 <= j < i implies !pred(#[trigger] ins[j]) by {
            assert(input_ok(lib, ins, j));
        }
        crate::library::lemma_find_id_bounds(lib, ins[i].0);
        if find_id(lib, ins[i].0) < lib.len() {
            assert(lib[find_id(lib, ins[i].0)].header.id == ins[i].0);
        }
        assert(pred(ins[i]));
        lemma_first_match_at(ins, pred, i);
    }
}

/// What compose builds from a request it accepts: a compound with the
/// requested id, name, version and meta, rendered as `markdown-h2`, whose
/// recipe lists each requested id, in order, at the version the library
/// holds; its body level is one more than the largest body level among the
/// inputs (atoms counting 0), and its depth one more than the largest input
/// depth (an input without one counting its body level).
pub proof fn lemma_compose_shape(
    lib: Seq<ElementView>,
    ins: Seq<(Seq<char>, Option<Seq<char>>)>,
    id: Seq<char>,
    name: Seq<char>,
    version: Seq<char>,
    meta: Seq<char>,
    generated_at: Seq<char>,
)
    requires
        compose_error(lib, ins) is None,
    ensures
        ({
            let c = compose_element(lib, ins, id, name, version, meta, generated_at);
            let recipe = c.header.composed_of->Some_0;
            let bl = c.header.body_level->Some_0;
            let dp = c.header.depth->Some_0;
            &&& c.header.kind == PromptElementKind::Compound
            &&& c.header.id == id && c.header.name == name && c.header.version == version
                && c.header.meta == meta
            &&& c.header.generated_at == Some(generated_at)
            &&& c.header.render_mode == Some("markdown-h2"@)
            &&& c.header.composed_of is Some && recipe.len() == ins.len()
            &&& forall|i: int|
                0 <= i < ins.len() ==> (#[trigger] recipe[i]).id == ins[i].0 && recipe[i].version
                    == lib[find_id(lib, ins[i].0)].header.version
            &&& c.header.body_level is Some && c.header.depth is Some
            &&& (inputs_fit(lib, ins) ==> {
                &&& forall|i: int| 0 <= i < ins.len() ==> level_of(#[trigger] lib[find_id(lib, ins[i].0)]) < bl
                &&& exists|i: int| 0 <= i < ins.len() && level_of(#[trigger] lib[find_id(lib, ins[i].0)]) + 1 == bl
                &&& forall|i: int| 0 <= i < ins.len() ==> depth_of(#[trigger] lib[find_id(lib, ins[i].0)]) < dp
                &&& exists|i: int| 0 <= i < ins.len() && depth_of(#[trigger] lib[find_id(lib, ins[i].0)]) + 1 == dp
            })
        }),
{
    lemma_compose_pins_exact(lib, ins);
    let rs = resolved(lib, ins);
    let c = compose_element(lib, ins, id, name, version, meta, generated_at);
    let recipe = c.header.composed_of->Some_0;
    assert forall|i: int| 0 <= i < ins.len() implies (#[trigger] recipe[i]).id == ins[i].0
        && recipe[i].version == lib[find_id(lib, ins[i].0)].header.version by {
        assert(input_ok(lib, ins, i));
        crate::library::lemma_find_id_bounds(lib, ins[i].0);
        assert(rs[i] == lib[find_id(lib, ins[i].0)]);
    }
    if inputs_fit(lib, ins) {
        lemma_resolved_fit(lib, ins);
        let ls = rs.map_values(|e: ElementView| level_of(e));
        let ds = rs.map_values(|e: ElementView| depth_of(e));
        lemma_level_above_exact(ls);
        lemma_level_above_exact(ds);
        lemma_seq_max(ls);
        lemma_seq_max(ds);
        assert(level_above(ls) <= u32::MAX) by {
            let w = choose|i: int| 0 <= i < ls.len() && ls[i] == seq_max(ls);
            assert(ls[w] == level_of(rs[w]));
        }
        assert(level_above(ds) <= u32::MAX) by {
            let w = choose|i: int| 0 <= i < ds.len() && ds[i] == seq_max(ds);
            assert(ds[w] == depth_of(rs[w]));
        }
        let bl = c.header.body_level->Some_0;
        let dp = c.header.depth->Some_0;
        assert(bl == level_above(ls));
        assert(dp == level_above(ds));
        assert forall|i: int| 0 <= i < ins.len() implies level_of(#[trigger] lib[find_id(lib, ins[i].0)]) < bl
            by {
            assert(rs[i] == lib[find_id(lib, ins[i].0)]);
            assert(ls[i] == level_of(rs[i]));
        }
        assert forall|i: int| 0 <= i < ins.len() implies depth_of(#[trigger] lib[find_id(lib, ins[i].0)]) < dp
            by {
            assert(rs[i] == lib[find_id(lib, ins[i].0)]);
            assert(ds[i] == depth_of(rs[i]));
        }
        let wl = choose|i: int| 0 <= i < ls.len() && ls[i] + 1 == level_above(ls);
        assert(rs[wl] == lib[find_id(lib, ins[wl].0)]);
        assert(level_of(lib[find_id(lib, ins[wl].0)]) + 1 == bl);
        let wd = choose|i: int| 0 <= i < ds.len() && ds[i] + 1 == level_above(ds);
        assert(rs[wd] == lib[find_id(lib, ins[wd].0)]);
        assert(depth_of(lib[find_id(lib, ins[wd].0)]) + 1 == dp);
    }
}

} // verus!
