//! Autocompose canvas: the working set of library components the user has
//! selected, in the order they should compose in, with the live preview
//! and the save-as-compound step.
//!
//! The canvas remembers an ordered list of ids and resolves them against a
//! library on demand. Adding, removing and toggling keep every id at most
//! once.

use vstd::prelude::*;

use crate::element::write_spec;
use crate::element::{prepare_write, ElementView, PromptElement};
use crate::error::{ErrorView, OovraError, Result};
use crate::library::{elements_view, find_id, lemma_find_id_bounds, lookup, Library};
use crate::decompose::md_name;
use crate::header::rfc3339_accepts;
use crate::paths::{extends, join_path, joined_path, plain_name};
use crate::render::{
    compose, compose_element, id_fits, inputs_fit, para_sep, paste_inputs, render_text, request_inputs,
    text_result_view, ComposeRequest,
};
use crate::text::{
    all_ws, chars_of, first_match, is_blank, join, lemma_first_match_at, lemma_first_match_bounds,
    strs,
};

verus! {

/// Working set of the canvas.
#[derive(Debug, Clone)]
pub struct CanvasState {
    /// Ids included in the canvas, in display order.
    pub order: Vec<String>,
    /// Output id for save-as-compound.
    pub output_id: String,
    /// Last save status or error text.
    pub status: String,
}

impl Default for CanvasState {
    fn default() -> (c: Self)
        ensures
            c.order@.len() == 0,
            c.output_id@.len() == 0,
            c.status@.len() == 0,
    {
        CanvasState { order: Vec::new(), output_id: String::new(), status: String::new() }
    }
}

/// The test for being `x`.
pub open spec fn is_text(x: Seq<char>) -> spec_fn(Seq<char>) -> bool {
    |y: Seq<char>| y == x
}

/// Index of the first occurrence of `x` in `o`, or `o.len()`.
pub open spec fn index_of(o: Seq<Seq<char>>, x: Seq<char>) -> int {
    first_match(o, is_text(x))
}

/// `o` with `x` added at the end when absent.
pub open spec fn canvas_add(o: Seq<Seq<char>>, x: Seq<char>) -> Seq<Seq<char>> {
    if o.contains(x) {
        o
    } else {
        o.push(x)
    }
}

/// `o` with the first `x` taken out, the others keeping their order.
pub open spec fn canvas_remove(o: Seq<Seq<char>>, x: Seq<char>) -> Seq<Seq<char>> {
    if o.contains(x) {
        o.remove(index_of(o, x))
    } else {
        o
    }
}

/// `o` with `x` removed when present, added when absent.
pub open spec fn canvas_toggle(o: Seq<Seq<char>>, x: Seq<char>) -> Seq<Seq<char>> {
    if o.contains(x) {
        canvas_remove(o, x)
    } else {
        o.push(x)
    }
}

/// No id occurs twice.
pub open spec fn no_dups(o: Seq<Seq<char>>) -> bool {
    forall|i: int, j: int| 0 <= i < j < o.len() ==> #[trigger] o[i] != #[trigger] o[j]
}

proof fn lemma_index_of(o: Seq<Seq<char>>, x: Seq<char>)
    ensures
        0 <= index_of(o, x) <= o.len(),
        index_of(o, x) < o.len() <==> o.contains(x),
        index_of(o, x) < o.len() ==> o[index_of(o, x)] == x,
{
    lemma_first_match_bounds(o, is_text(x));
    if o.contains(x) {
        let k = choose|k: int| 0 <= k < o.len() && o[k] == x;
        assert(is_text(x)(o[k]));
    }
}

impl CanvasState {
    pub fn new() -> (c: Self)
        ensures
            c.order@.len() == 0,
            c.output_id@.len() == 0,
            c.status@.len() == 0,
    {
        Self::default()
    }

    /// Whether `id` is on the canvas.
    pub fn contains(&self, id: &str) -> (b: bool)
        ensures
            b == strs(self.order@).contains(id@),
    {
        proof {
            lemma_index_of(strs(self.order@), id@);
        }
        self.position(id).is_some()
    }

    fn position(&self, id: &str) -> (r: Option<usize>)
        ensures
            match r {
                Some(k) => k < self.order@.len() && k == index_of(strs(self.order@), id@),
                None => !strs(self.order@).contains(id@),
            },
    {
        let ghost o = strs(self.order@);
        let ghost pred = is_text(id@);
        let idc = String::from_str(id);
        let mut i: usize = 0;
        while i < self.order.len()
            invariant
                i <= self.order@.len(),
                o == strs(self.order@),
                idc@ == id@,
                pred == is_text(id@),
                forall|j: int| 0 <= j < i ==> !pred(#[trigger] o[j]),
            decreases self.order.len() - i,
        {
            assert(o[i as int] == self.order@[i as int]@);
            if self.order[i] == idc {
                proof {
                    lemma_first_match_at(o, pred, i as int);
                }
                return Some(i);
            }
            i += 1;
        }
        proof {
            lemma_first_match_at(o, pred, o.len() as int);
            lemma_index_of(o, id@);
        }
        None
    }

    /// Add `id` if absent, remove it (keeping the order of the others) if
    /// present.
    pub fn toggle(&mut self, id: &str)
        ensures
            strs(final(self).order@) == canvas_toggle(strs(old(self).order@), id@),
            final(self).output_id == old(self).output_id,
            final(self).status == old(self).status,
    {
        let ghost o = strs(self.order@);
        match self.position(id) {
            Some(pos) => {
                proof {
                    lemma_index_of(o, id@);
                }
                self.order.remove(pos);
                assert(strs(self.order@) =~= o.remove(pos as int));
            },
            None => {
                self.order.push(String::from_str(id));
                assert(strs(self.order@) =~= o.push(id@));
            },
        }
    }

    /// Add `id` if absent; no change if already present. Returns whether
    /// the canvas grew.
    pub fn add(&mut self, id: &str) -> (grew: bool)
        ensures
            grew == !strs(old(self).order@).contains(id@),
            strs(final(self).order@) == canvas_add(strs(old(self).order@), id@),
            final(self).output_id == old(self).output_id,
            final(self).status == old(self).status,
    {
        let ghost o = strs(self.order@);
        if !self.contains(id) {
            self.order.push(String::from_str(id));
            assert(strs(self.order@) =~= o.push(id@));
            true
        } else {
            false
        }
    }

    /// Remove `id` if present; no change if absent. Returns whether the
    /// canvas shrank.
    pub fn remove(&mut self, id: &str) -> (shrank: bool)
        ensures
            shrank == strs(old(self).order@).contains(id@),
            strs(final(self).order@) == canvas_remove(strs(old(self).order@), id@),
            final(self).output_id == old(self).output_id,
            final(self).status == old(self).status,
    {
        let ghost o = strs(self.order@);
        match self.position(id) {
            Some(pos) => {
                proof {
                    lemma_index_of(o, id@);
                }
                self.order.remove(pos);
                assert(strs(self.order@) =~= o.remove(pos as int));
                true
            },
            None => false,
        }
    }
}

/// `o` with each of `ids` added in turn.
pub open spec fn canvas_add_all(o: Seq<Seq<char>>, ids: Seq<Seq<char>>) -> Seq<Seq<char>>
    decreases ids.len(),
{
    if ids.len() == 0 {
        o
    } else {
        canvas_add(canvas_add_all(o, ids.drop_last()), ids.last())
    }
}

/// `o` with each of `ids` removed in turn.
pub open spec fn canvas_remove_all(o: Seq<Seq<char>>, ids: Seq<Seq<char>>) -> Seq<Seq<char>>
    decreases ids.len(),
{
    if ids.len() == 0 {
        o
    } else {
        canvas_remove(canvas_remove_all(o, ids.drop_last()), ids.last())
    }
}

impl CanvasState {
    /// Whether any of `ids` is on the canvas (a compound's checkbox shows
    /// ticked when any of its leaf atoms is).
    pub fn contains_any(&self, ids: &Vec<String>) -> (b: bool)
        ensures
            b == exists|j: int| 0 <= j < ids@.len() && strs(self.order@).contains(#[trigger] ids@[j]@),
    {
        let mut j: usize = 0;
        while j < ids.len()
            invariant
                j <= ids@.len(),
                forall|k: int| 0 <= k < j ==> !strs(self.order@).contains(#[trigger] ids@[k]@),
            decreases ids.len() - j,
        {
            if self.contains(ids[j].as_str()) {
                return true;
            }
            j += 1;
        }
        false
    }

    /// Tick or untick a compound: add every one of its leaf atoms `ids`
    /// (each at most once, at the end) when `on`, else remove each.
    pub fn set_all(&mut self, ids: &Vec<String>, on: bool)
        ensures
            strs(final(self).order@) == (if on {
                canvas_add_all(strs(old(self).order@), strs(ids@))
            } else {
                canvas_remove_all(strs(old(self).order@), strs(ids@))
            }),
            final(self).output_id == old(self).output_id,
            final(self).status == old(self).status,
    {
        let ghost o = strs(self.order@);
        let ghost xs = strs(ids@);
        let mut j: usize = 0;
        assert(xs.take(0) =~= Seq::<Seq<char>>::empty());
        while j < ids.len()
            invariant
                j <= ids@.len(),
                xs == strs(ids@),
                strs(self.order@) == (if on {
                    canvas_add_all(o, xs.take(j as int))
                } else {
                    canvas_remove_all(o, xs.take(j as int))
                }),
                self.output_id == old(self).output_id,
                self.status == old(self).status,
            decreases ids.len() - j,
        {
            assert(xs.take(j + 1).drop_last() =~= xs.take(j as int));
            assert(xs.take(j + 1).last() == ids@[j as int]@);
            if on {
                self.add(ids[j].as_str());
            } else {
                self.remove(ids[j].as_str());
            }
            j += 1;
        }
        assert(xs.take(ids@.len() as int) =~= xs);
    }
}

/// Adding puts `x` at the end when it is absent and otherwise changes
/// nothing; removing takes out exactly the one occurrence of `x`, keeping
/// the others in order; toggling removes `x` when present and adds it when
/// absent. Every other id stays as it was.
pub proof fn lemma_canvas_ops_exact(o: Seq<Seq<char>>, x: Seq<char>)
    requires
        no_dups(o),
    ensures
        o.contains(x) ==> canvas_add(o, x) == o,
        !o.contains(x) ==> canvas_add(o, x) == o.push(x),
        !o.contains(x) ==> canvas_remove(o, x) == o,
        forall|k: int| 0 <= k < o.len() && o[k] == x ==> canvas_remove(o, x) == o.take(k) + o.skip(k + 1),
        !canvas_remove(o, x).contains(x),
        canvas_toggle(o, x).contains(x) <==> !o.contains(x),
        forall|y: Seq<char>|
            y != x ==> (#[trigger] canvas_toggle(o, x).contains(y) <==> o.contains(y))
                && (canvas_add(o, x).contains(y) <==> o.contains(y)) && (canvas_remove(o, x).contains(y)
                <==> o.contains(y)),
{
    lemma_index_of(o, x);
    lemma_remove_idempotent(o, x);
    let p = canvas_add(o, x);
    assert forall|k: int| 0 <= k < o.len() && o[k] == x implies canvas_remove(o, x) == o.take(k) + o.skip(
        k + 1,
    ) by {
        let i = index_of(o, x);
        if i != k {
            assert(o[i] == o[k]);
        }
        assert(o.remove(k) =~= o.take(k) + o.skip(k + 1));
    }
    if !o.contains(x) {
        assert(o.push(x)[o.len() as int] == x);
    }
    assert forall|y: Seq<char>| y != x implies (#[trigger] canvas_toggle(o, x).contains(y) <==> o.contains(y))
        && (canvas_add(o, x).contains(y) <==> o.contains(y)) && (canvas_remove(o, x).contains(y)
        <==> o.contains(y)) by {
        if o.contains(x) {
            let k = index_of(o, x);
            let r = o.remove(k);
            if o.contains(y) {
                let i = choose|i: int| 0 <= i < o.len() && o[i] == y;
                if i < k {
                    assert(r[i] == y);
                } else {
                    assert(i != k);
                    assert(r[i - 1] == y);
                }
            }
            if r.contains(y) {
                let i = choose|i: int| 0 <= i < r.len() && r[i] == y;
                if i < k {
                    assert(o[i] == y);
                } else {
                    assert(o[i + 1] == y);
                }
            }
        } else {
            if o.push(x).contains(y) {
                let i = choose|i: int| 0 <= i < o.push(x).len() && o.push(x)[i] == y;
                assert(o[i] == y);
            }
            if o.contains(y) {
                let i = choose|i: int| 0 <= i < o.len() && o[i] == y;
                assert(o.push(x)[i] == y);
            }
        }
    }
}

/// Adding twice is adding once.
pub proof fn lemma_add_idempotent(o: Seq<Seq<char>>, x: Seq<char>)
    ensures
        canvas_add(canvas_add(o, x), x) == canvas_add(o, x),
{
    if !o.contains(x) {
        assert(o.push(x)[o.len() as int] == x);
    }
}

/// Removing twice is removing once, when no id occurs twice.
pub proof fn lemma_remove_idempotent(o: Seq<Seq<char>>, x: Seq<char>)
    requires
        no_dups(o),
    ensures
        canvas_remove(canvas_remove(o, x), x) == canvas_remove(o, x),
        !canvas_remove(o, x).contains(x),
{
    lemma_index_of(o, x);
    if o.contains(x) {
        let k = index_of(o, x);
        let r = o.remove(k);
        if r.contains(x) {
            let i = choose|i: int| 0 <= i < r.len() && r[i] == x;
            if i < k {
                assert(o[i] == x);
            } else {
                assert(o[i + 1] == x);
            }
        }
    }
}

/// Toggling an absent id twice leaves the canvas as it was.
pub proof fn lemma_toggle_twice_absent(o: Seq<Seq<char>>, x: Seq<char>)
    requires
        !o.contains(x),
    ensures
        canvas_toggle(canvas_toggle(o, x), x) == o,
{
    let p = o.push(x);
    assert(p[o.len() as int] == x);
    lemma_index_of(p, x);
    let k = index_of(p, x);
    if k < o.len() {
        assert(o[k] == x);
    }
    assert(p.remove(o.len() as int) =~= o);
}

/// Adding, removing and toggling never put an id on the canvas twice.
pub proof fn lemma_ops_keep_no_dups(o: Seq<Seq<char>>, x: Seq<char>)
    requires
        no_dups(o),
    ensures
        no_dups(canvas_add(o, x)),
        no_dups(canvas_remove(o, x)),
        no_dups(canvas_toggle(o, x)),
{
    lemma_index_of(o, x);
    if !o.contains(x) {
        let p = o.push(x);
        assert forall|i: int, j: int| 0 <= i < j < p.len() implies #[trigger] p[i] != #[trigger] p[j] by {
            if j == o.len() {
                assert(o[i] != x);
            } else {
                assert(p[i] == o[i] && p[j] == o[j]);
            }
        }
    } else {
        let k = index_of(o, x);
        let r = o.remove(k);
        assert forall|i: int, j: int| 0 <= i < j < r.len() implies #[trigger] r[i] != #[trigger] r[j] by {
            let oi = if i < k { i } else { i + 1 };
            let oj = if j < k { j } else { j + 1 };
            assert(r[i] == o[oi] && r[j] == o[oj]);
        }
    }
}

/// The library elements the canvas names, or the first id the library
/// lacks.
pub open spec fn resolve_spec(lib: Seq<ElementView>, order: Seq<Seq<char>>) -> core::result::Result<
    Seq<ElementView>,
    ErrorView,
> {
    let k = first_match(order, |id: Seq<char>| lookup(lib, id) is None);
    if k < order.len() {
        Err(ErrorView::ElementNotFound { id: order[k] })
    } else {
        Ok(order.map_values(|id: Seq<char>| lookup(lib, id).unwrap()))
    }
}

/// The live preview of a canvas: the prose rendering of its resolved ids.
pub open spec fn preview_spec(lib: Seq<ElementView>, order: Seq<Seq<char>>) -> core::result::Result<
    Seq<char>,
    ErrorView,
> {
    match resolve_spec(lib, order) {
        Err(e) => Err(e),
        Ok(els) => match paste_inputs(els) {
            Ok(parts) => Ok(join(parts, para_sep())),
            Err(e) => Err(e),
        },
    }
}

/// The inputs a save composes: each id pinned to the library's current
/// version, so the recipe is reproducible across later version bumps.
pub open spec fn pinned_inputs(lib: Seq<ElementView>, order: Seq<Seq<char>>) -> Seq<
    (Seq<char>, Option<Seq<char>>),
> {
    order.map_values(|id: Seq<char>| (id, Some(lookup(lib, id).unwrap().header.version)))
}

impl CanvasState {
    /// The canvas's ids resolved against `lib`, in order; the first id the
    /// library lacks is the error.
    fn resolve<'a>(&self, lib: &'a Library) -> (res: Result<Vec<&'a PromptElement>>)
        ensures
            match res {
                Ok(v) => resolve_spec(elements_view(lib.elements@), strs(self.order@)) == Ok::<
                    Seq<ElementView>,
                    ErrorView,
                >(v@.map_values(|e: &PromptElement| e@)),
                Err(e) => resolve_spec(elements_view(lib.elements@), strs(self.order@)) == Err::<
                    Seq<ElementView>,
                    ErrorView,
                >(e@),
            },
    {
        let ghost ev = elements_view(lib.elements@);
        let ghost o = strs(self.order@);
        let ghost pred = |id: Seq<char>| lookup(ev, id) is None;
        let mut out: Vec<&'a PromptElement> = Vec::new();
        let mut i: usize = 0;
        while i < self.order.len()
            invariant
                i <= self.order@.len(),
                ev == elements_view(lib.elements@),
                o == strs(self.order@),
                pred == (|id: Seq<char>| lookup(ev, id) is None),
                out@.len() == i,
                forall|j: int| 0 <= j < i ==> !pred(#[trigger] o[j]),
                forall|j: int| 0 <= j < i ==> (#[trigger] out@[j])@ == lookup(ev, o[j]).unwrap(),
            decreases self.order.len() - i,
        {
            assert(o[i as int] == self.order@[i as int]@);
            proof {
                lemma_find_id_bounds(ev, o[i as int]);
            }
            match lib.get(self.order[i].as_str()) {
                Some(e) => {
                    assert(ev[find_id(ev, o[i as int])] == e@);
                    out.push(e);
                },
                None => {
                    proof {
                        lemma_first_match_at(o, pred, i as int);
                    }
                    return Err(OovraError::ElementNotFound { id: self.order[i].clone() });
                },
            }
            i += 1;
        }
        proof {
            lemma_first_match_at(o, pred, o.len() as int);
            assert(out@.map_values(|e: &PromptElement| e@) =~= o.map_values(
                |id: Seq<char>| lookup(ev, id).unwrap(),
            ));
        }
        Ok(out)
    }

    /// Render the live prose preview from the current order; an id missing
    /// from `lib` is an error.
    pub fn live_preview(&self, lib: &Library) -> (res: Result<String>)
        ensures
            text_result_view(res) == preview_spec(elements_view(lib.elements@), strs(self.order@)),
    {
        let resolved = match self.resolve(lib) {
            Ok(r) => r,
            Err(e) => return Err(e),
        };
        render_text(resolved.as_slice())
    }
}

impl CanvasState {
    /// Compose the current order into a compound pinned to the library's
    /// versions, to be written as `<olib_dir>/<output_id>.md`: returns the
    /// destination and the text, checked by parsing it back. A blank
    /// output id, an empty canvas, or an id the library lacks is refused
    /// first, in that order.
    pub fn save_as_compound(&self, lib: &Library, olib_dir: &str) -> (res: Result<(String, String)>)
        requires
            forall|i: int|
                0 <= i < self.order@.len() ==> id_fits(
                    elements_view(lib.elements@),
                    #[trigger] strs(self.order@)[i],
                ),
        ensures
            ({
                let ev = elements_view(lib.elements@);
                let o = strs(self.order@);
                let out = self.output_id@;
                if all_ws(out) {
                    res matches Err(e) && e@ == ErrorView::InvalidField {
                        path: olib_dir@,
                        field: "output_id"@,
                        value: out,
                        reason: "output id must not be empty"@,
                    }
                } else if o.len() == 0 {
                    res matches Err(e) && e@ == ErrorView::EmptyCompose
                } else if resolve_spec(ev, o) is Err {
                    res matches Err(e) && resolve_spec(ev, o) == Err::<Seq<ElementView>, ErrorView>(e@)
                } else {
                    let ins = pinned_inputs(ev, o);
                    let dest = joined_path(olib_dir@, md_name(out));
                    match crate::render::compose_error(ev, ins) {
                        Some(err) => res matches Err(e) && e@ == err,
                        None => match res {
                            Ok((d, text)) => d@ == dest && (plain_name(md_name(out)) ==> extends(
                                d@,
                                olib_dir@,
                                md_name(out),
                            )) && exists|g: Seq<char>|
                                rfc3339_accepts(g) && write_spec(
                                    compose_element(ev, ins, out, out, "1.0.0"@, seq![], g),
                                    dest,
                                ) == Ok::<Seq<char>, ErrorView>(text@),
                            Err(e) => exists|g: Seq<char>|
                                rfc3339_accepts(g) && write_spec(
                                    compose_element(ev, ins, out, out, "1.0.0"@, seq![], g),
                                    dest,
                                ) == Err::<Seq<char>, ErrorView>(e@),
                        },
                    }
                }
            }),
    {
        let ghost ev = elements_view(lib.elements@);
        let ghost o = strs(self.order@);
        let oc = chars_of(self.output_id.as_str());
        if is_blank(oc.as_slice()) {
            return Err(
                OovraError::InvalidField {
                    path: String::from_str(olib_dir),
                    field: "output_id",
                    value: self.output_id.clone(),
                    reason: String::from_str("output id must not be empty"),
                },
            );
        }
        if self.order.len() == 0 {
            return Err(OovraError::EmptyCompose);
        }
        let ghost pred = |id: Seq<char>| lookup(ev, id) is None;
        let mut inputs: Vec<(String, Option<String>)> = Vec::new();
        let mut i: usize = 0;
        while i < self.order.len()
            invariant
                i <= self.order@.len(),
                ev == elements_view(lib.elements@),
                o == strs(self.order@),
                pred == (|id: Seq<char>| lookup(ev, id) is None),
                !all_ws(self.output_id@),
                o.len() > 0,
                forall|j: int| 0 <= j < i ==> !pred(#[trigger] o[j]),
                request_inputs(inputs@) == pinned_inputs(ev, o).take(i as int),
            decreases self.order.len() - i,
        {
            assert(o[i as int] == self.order@[i as int]@);
            proof {
                lemma_find_id_bounds(ev, o[i as int]);
            }
            match lib.get(self.order[i].as_str()) {
                Some(e) => {
                    assert(ev[find_id(ev, o[i as int])] == e@);
                    let ghost before = request_inputs(inputs@);
                    inputs.push((self.order[i].clone(), Some(e.header.version.clone())));
                    assert(request_inputs(inputs@) =~= before.push(
                        (o[i as int], Some(e@.header.version)),
                    ));
                    assert(pinned_inputs(ev, o).take(i + 1) =~= pinned_inputs(ev, o).take(i as int).push(
                        pinned_inputs(ev, o)[i as int],
                    ));
                },
                None => {
                    proof {
                        lemma_first_match_at(o, pred, i as int);
                    }
                    return Err(OovraError::ElementNotFound { id: self.order[i].clone() });
                },
            }
            i += 1;
        }
        proof {
            lemma_first_match_at(o, pred, o.len() as int);
            assert(pinned_inputs(ev, o).take(o.len() as int) =~= pinned_inputs(ev, o));
            assert forall|i: int| 0 <= i < pinned_inputs(ev, o).len() implies id_fits(
                ev,
                #[trigger] pinned_inputs(ev, o)[i].0,
            ) by {
                assert(pinned_inputs(ev, o)[i].0 == o[i]);
            }
            assert(inputs_fit(ev, pinned_inputs(ev, o)));
        }
        let req = ComposeRequest {
            library: lib,
            inputs,
            output_id: self.output_id.clone(),
            output_name: self.output_id.clone(),
            output_version: String::from_str("1.0.0"),
            output_meta: String::new(),
        };
        let composed = match compose(req) {
            Ok(c) => c,
            Err(e) => return Err(e),
        };
        let ghost g = composed@.header.generated_at.unwrap();
        let name = crate::decompose::md_name_string(self.output_id.as_str());
        let dest = join_path(olib_dir, name.as_str());
        match prepare_write(&composed, dest.as_str()) {
            Ok(text) => {
                assert(write_spec(
                    compose_element(ev, pinned_inputs(ev, o), self.output_id@, self.output_id@, "1.0.0"@, seq![], g),
                    dest@,
                ) == Ok::<Seq<char>, ErrorView>(text@));
                Ok((dest, text))
            },
            Err(e) => {
                assert(write_spec(
                    compose_element(ev, pinned_inputs(ev, o), self.output_id@, self.output_id@, "1.0.0"@, seq![], g),
                    dest@,
                ) == Err::<Seq<char>, ErrorView>(e@));
                Err(e)
            },
        }
    }
}

} // verus!
