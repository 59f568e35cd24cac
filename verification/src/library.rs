//! Library: a collection of prompt elements read from one directory.
//!
//! Loading fails loud: one unparseable file aborts the load, and two files
//! with the same id are an error. Walking the directory and reading the
//! files is the caller's part; the library receives `(path, content)` pairs.

use vstd::prelude::*;

use crate::element::{parse_spec, parse_with, ElementView, ParseOptions, PromptElement};
use crate::error::{ErrorView, OovraError, Result};
use crate::header::{InputRef, InputRefView, PromptElementKind};
use crate::text::{
    contains_str, first_match, insert_sorted, lemma_first_match_at, lemma_first_match_bounds,
    strictly_sorted, strs,
};

verus! {

#[derive(Debug)]
pub struct Library {
    pub root: String,
    pub elements: Vec<PromptElement>,
}

/// The element views of a library, in load order.
pub open spec fn elements_view(v: Seq<PromptElement>) -> Seq<ElementView> {
    v.map_values(|e: PromptElement| e@)
}

pub proof fn lemma_elements_view_index(v: Seq<PromptElement>, k: int)
    requires
        0 <= k < v.len(),
    ensures
        elements_view(v).len() == v.len(),
        elements_view(v)[k] == v[k]@,
{
}

/// Position of the element with `id`, or the length if none has it.
pub open spec fn find_id(els: Seq<ElementView>, id: Seq<char>) -> int {
    first_match(els, |e: ElementView| e.header.id == id)
}

pub proof fn lemma_find_id_bounds(els: Seq<ElementView>, id: Seq<char>)
    ensures
        0 <= find_id(els, id) <= els.len(),
        find_id(els, id) < els.len() ==> els[find_id(els, id)].header.id == id,
        forall|j: int| 0 <= j < find_id(els, id) ==> (#[trigger] els[j]).header.id != id,
{
    lemma_first_match_bounds(els, |e: ElementView| e.header.id == id);
}

/// A compound that passed validation: it has a body level and a recipe.
pub open spec fn complete(e: ElementView) -> bool {
    e.header.kind == PromptElementKind::Compound ==> e.header.body_level is Some
        && e.header.composed_of is Some
}

/// No two elements share an id.
pub open spec fn unique_ids(els: Seq<ElementView>) -> bool {
    forall|i: int, j: int|
        0 <= i < els.len() && 0 <= j < els.len() && i != j ==> #[trigger] els[i].header.id
            != #[trigger] els[j].header.id
}

/// Loading the first `n` files: each is parsed in turn; the first parse
/// error, or the first id already seen, stops the load.
pub open spec fn load_prefix(
    files: Seq<(Seq<char>, Seq<char>)>,
    n: int,
    legacy: bool,
) -> core::result::Result<Seq<(Seq<char>, ElementView)>, ErrorView>
    decreases n,
{
    if n <= 0 {
        Ok(Seq::empty())
    } else {
        match load_prefix(files, n - 1, legacy) {
            Err(e) => Err(e),
            Ok(acc) => {
                let (path, content) = files[n - 1];
                match parse_spec(content, path, legacy) {
                    Err(e) => Err(e),
                    Ok(el) => {
                        let k = first_match(
                            acc,
                            |p: (Seq<char>, ElementView)| p.1.header.id == el.header.id,
                        );
                        if k < acc.len() {
                            Err(
                                ErrorView::DuplicateId {
                                    id: el.header.id,
                                    first: acc[k].0,
                                    second: path,
                                },
                            )
                        } else {
                            Ok(acc.push((path, el)))
                        }
                    },
                }
            },
        }
    }
}

pub proof fn lemma_load_error_sticks(
    files: Seq<(Seq<char>, Seq<char>)>,
    m: int,
    n: int,
    legacy: bool,
)
    requires
        0 <= m <= n,
        load_prefix(files, m, legacy) is Err,
    ensures
        load_prefix(files, n, legacy) == load_prefix(files, m, legacy),
    decreases n - m,
{
    if n > m {
        lemma_load_error_sticks(files, m, n - 1, legacy);
    }
}

proof fn lemma_load_prefix_exact(files: Seq<(Seq<char>, Seq<char>)>, n: int, legacy: bool)
    requires
        0 <= n <= files.len(),
    ensures
        load_prefix(files, n, legacy) matches Ok(acc) ==> acc.len() == n && forall|i: int|
            0 <= i < n ==> (#[trigger] acc[i]).0 == files[i].0 && parse_spec(files[i].1, files[i].0, legacy)
                == Ok::<ElementView, ErrorView>(acc[i].1),
        load_prefix(files, n, legacy) matches Ok(acc) ==> forall|i: int, j: int|
            0 <= i < j < n ==> (#[trigger] acc[i]).1.header.id != (#[trigger] acc[j]).1.header.id,
        (forall|i: int| 0 <= i < n ==> (#[trigger] parse_spec(files[i].1, files[i].0, legacy)) is Ok) && (
        forall|i: int, j: int|
            0 <= i < j < n ==> (#[trigger] parse_spec(files[i].1, files[i].0, legacy))->Ok_0.header.id
                != (#[trigger] parse_spec(files[j].1, files[j].0, legacy))->Ok_0.header.id)
            ==> load_prefix(files, n, legacy) is Ok,
    decreases n,
{
    if n > 0 {
        lemma_load_prefix_exact(files, n - 1, legacy);
        if let Ok(acc) = load_prefix(files, n - 1, legacy) {
            let (path, content) = files[n - 1];
            if let Ok(el) = parse_spec(content, path, legacy) {
                let pred = |p: (Seq<char>, ElementView)| p.1.header.id == el.header.id;
                lemma_first_match_bounds(acc, pred);
                if let Ok(acc2) = load_prefix(files, n, legacy) {
                    assert(acc2 == acc.push((path, el)));
                    assert forall|i: int, j: int| 0 <= i < j < n implies (#[trigger] acc2[i]).1.header.id
                        != (#[trigger] acc2[j]).1.header.id by {
                        if j == n - 1 {
                            assert(acc2[i] == acc[i]);
                            assert(!pred(acc[i]));
                        } else {
                            assert(acc2[i] == acc[i]);
                            assert(acc2[j] == acc[j]);
                        }
                    }
                    assert forall|i: int| 0 <= i < n implies (#[trigger] acc2[i]).0 == files[i].0
                        && parse_spec(files[i].1, files[i].0, legacy) == Ok::<ElementView, ErrorView>(acc2[i].1) by {
                        if i < n - 1 {
                            assert(acc2[i] == acc[i]);
                        }
                    }
                }
                if (forall|i: int| 0 <= i < n ==> (#[trigger] parse_spec(files[i].1, files[i].0, legacy)) is Ok)
                    && (forall|i: int, j: int|
                    0 <= i < j < n ==> (#[trigger] parse_spec(files[i].1, files[i].0, legacy))->Ok_0.header.id
                        != (#[trigger] parse_spec(files[j].1, files[j].0, legacy))->Ok_0.header.id) {
                    let k = first_match(acc, pred);
                    if k < acc.len() {
                        assert(pred(acc[k]));
                        assert(parse_spec(files[k].1, files[k].0, legacy) is Ok);
                        assert(parse_spec(files[n - 1].1, files[n - 1].0, legacy) is Ok);
                    }
                }
            }
        }
        if (forall|i: int| 0 <= i < n ==> (#[trigger] parse_spec(files[i].1, files[i].0, legacy)) is Ok) && (
        forall|i: int, j: int|
            0 <= i < j < n ==> (#[trigger] parse_spec(files[i].1, files[i].0, legacy))->Ok_0.header.id
                != (#[trigger] parse_spec(files[j].1, files[j].0, legacy))->Ok_0.header.id) {
            assert forall|i: int| 0 <= i < n - 1 implies (#[trigger] parse_spec(files[i].1, files[i].0, legacy)) is Ok by {}
            assert(parse_spec(files[n - 1].1, files[n - 1].0, legacy) is Ok);
        }
    }
}

/// Loading succeeds exactly when every file parses and no two parsed files
/// share an id; it then holds, in file order, each file's path and the
/// element it parses to.
pub proof fn lemma_load_exact(files: Seq<(Seq<char>, Seq<char>)>, legacy: bool)
    ensures
        load_prefix(files, files.len() as int, legacy) is Ok <==> (forall|i: int|
            0 <= i < files.len() ==> (#[trigger] parse_spec(files[i].1, files[i].0, legacy)) is Ok) && (
        forall|i: int, j: int|
            0 <= i < j < files.len() ==> (#[trigger] parse_spec(files[i].1, files[i].0, legacy))->Ok_0.header.id
                != (#[trigger] parse_spec(files[j].1, files[j].0, legacy))->Ok_0.header.id),
        load_prefix(files, files.len() as int, legacy) matches Ok(acc) ==> acc.len() == files.len()
            && forall|i: int|
            0 <= i < files.len() ==> (#[trigger] acc[i]).0 == files[i].0 && parse_spec(
                files[i].1,
                files[i].0,
                legacy,
            ) == Ok::<ElementView, ErrorView>(acc[i].1),
{
    lemma_load_prefix_exact(files, files.len() as int, legacy);
    if let Ok(acc) = load_prefix(files, files.len() as int, legacy) {
        assert forall|i: int| 0 <= i < files.len() implies (#[trigger] parse_spec(
            files[i].1,
            files[i].0,
            legacy,
        )) is Ok by {
            assert(acc[i].0 == files[i].0);
        }
        assert forall|i: int, j: int| 0 <= i < j < files.len() implies (#[trigger] parse_spec(
            files[i].1,
            files[i].0,
            legacy,
        ))->Ok_0.header.id != (#[trigger] parse_spec(files[j].1, files[j].0, legacy))->Ok_0.header.id by {
            assert(parse_spec(files[i].1, files[i].0, legacy) == Ok::<ElementView, ErrorView>(acc[i].1));
            assert(parse_spec(files[j].1, files[j].0, legacy) == Ok::<ElementView, ErrorView>(acc[j].1));
        }
    }
}

pub open spec fn files_view(files: Seq<(String, String)>) -> Seq<(Seq<char>, Seq<char>)> {
    files.map_values(|f: (String, String)| (f.0@, f.1@))
}

impl Library {
    /// Ids are unique, and every compound carries its body level and its
    /// recipe, as every parsed compound does.
    pub open spec fn well_formed(&self) -> bool {
        &&& unique_ids(elements_view(self.elements@))
        &&& forall|k: int| 0 <= k < self.elements@.len() ==> complete(#[trigger] elements_view(self.elements@)[k])
    }

    /// Parse every `(path, content)` pair (v0.2 schema only). Errors on
    /// duplicate ids or any unparseable file.
    pub fn load(root: &str, files: &Vec<(String, String)>) -> (res: Result<Library>)
        ensures
            match res {
                Ok(lib) => load_prefix(files_view(files@), files@.len() as int, false) matches Ok(
                    acc,
                ) && elements_view(lib.elements@) == acc.map_values(
                    |p: (Seq<char>, ElementView)| p.1,
                ) && lib.root@ == root@ && lib.well_formed(),
                Err(e) => load_prefix(files_view(files@), files@.len() as int, false) == Err::<
                    Seq<(Seq<char>, ElementView)>,
                    ErrorView,
                >(e@),
            },
    {
        Self::load_with(root, files, ParseOptions { legacy: false })
    }

    /// Same as `load` but with explicit parse options.
    pub fn load_with(root: &str, files: &Vec<(String, String)>, opts: ParseOptions) -> (res: Result<
        Library,
    >)
        ensures
            match res {
                Ok(lib) => load_prefix(files_view(files@), files@.len() as int, opts.legacy) matches Ok(
                    acc,
                ) && elements_view(lib.elements@) == acc.map_values(
                    |p: (Seq<char>, ElementView)| p.1,
                ) && lib.root@ == root@ && lib.well_formed(),
                Err(e) => load_prefix(files_view(files@), files@.len() as int, opts.legacy) == Err::<
                    Seq<(Seq<char>, ElementView)>,
                    ErrorView,
                >(e@),
            },
    {
        let ghost fv = files_view(files@);
        let mut elements: Vec<PromptElement> = Vec::new();
        let mut paths: Vec<String> = Vec::new();
        let mut i: usize = 0;
        while i < files.len()
            invariant
                i <= files@.len(),
                fv == files_view(files@),
                elements@.len() == i,
                paths@.len() == i,
                load_prefix(fv, i as int, opts.legacy) matches Ok(acc) && acc.len() == i && (forall|
                    j: int,
                |
                    0 <= j < i ==> (#[trigger] acc[j]).1 == elements@[j]@ && acc[j].0
                        == paths@[j]@),
                unique_ids(elements_view(elements@)),
                forall|k: int| 0 <= k < i ==> complete(#[trigger] elements_view(elements@)[k]),
            decreases files.len() - i,
        {
            let ghost acc = load_prefix(fv, i as int, opts.legacy)->Ok_0;
            let path = &files[i].0;
            let content = &files[i].1;
            assert(fv[i as int] == (path@, content@));
            let el = match parse_with(content.as_str(), path.as_str(), opts) {
                Ok(e) => e,
                Err(e) => {
                    proof {
                        lemma_load_error_sticks(fv, i + 1, files@.len() as int, opts.legacy);
                    }
                    return Err(e);
                },
            };
            let ghost pred = |p: (Seq<char>, ElementView)| p.1.header.id == el@.header.id;
            let mut j: usize = 0;
            while j < elements.len()
                invariant
                    j <= elements@.len(),
                    elements@.len() == i,
                    acc.len() == i,
                    paths@.len() == i,
                    forall|m: int| 0 <= m < i ==> (#[trigger] acc[m]).1 == elements@[m]@ && acc[m].0 == paths@[m]@,
                    forall|m: int| 0 <= m < j ==> !pred(#[trigger] acc[m]),
                    load_prefix(fv, i as int, opts.legacy) == Ok::<Seq<(Seq<char>, ElementView)>, ErrorView>(acc),
                    fv[i as int] == (path@, content@),
                    parse_spec(content@, path@, opts.legacy) == Ok::<ElementView, ErrorView>(el@),
                    i < files@.len(),
                    fv == files_view(files@),
                    pred == (|p: (Seq<char>, ElementView)| p.1.header.id == el@.header.id),
                decreases elements.len() - j,
            {
                assert(acc[j as int].1 == elements@[j as int]@);
                if elements[j].header.id == el.header.id {
                    proof {
                        lemma_first_match_at(acc, pred, j as int);
                        lemma_load_error_sticks(fv, i + 1, files@.len() as int, opts.legacy);
                    }
                    return Err(
                        OovraError::DuplicateId {
                            id: el.header.id.clone(),
                            first: paths[j].clone(),
                            second: path.clone(),
                        },
                    );
                }
                j += 1;
            }
            proof {
                lemma_first_match_at(acc, pred, i as int);
            }
            let ghost ev0 = elements_view(elements@);
            let ghost elv = el@;
            proof {
                crate::element::lemma_parsed_compound(content@, path@, opts.legacy);
            }
            elements.push(el);
            paths.push(path.clone());
            proof {
                assert(elements_view(elements@) =~= ev0.push(elv));
                assert forall|a: int, b: int|
                    0 <= a < elements@.len() && 0 <= b < elements@.len() && a != b implies #[trigger] elements_view(elements@)[a].header.id
                    != #[trigger] elements_view(elements@)[b].header.id by {
                    if a == i as int {
                        assert(!pred(acc[b]));
                    } else if b == i as int {
                        assert(!pred(acc[a]));
                    }
                }
                assert forall|k: int| 0 <= k < i + 1 implies complete(#[trigger] elements_view(elements@)[k]) by {
                    if k < i {
                        assert(elements_view(elements@)[k] == ev0[k]);
                    }
                }
            }
            i += 1;
        }
        proof {
            let acc = load_prefix(fv, i as int, opts.legacy)->Ok_0;
            assert(elements_view(elements@) =~= acc.map_values(|p: (Seq<char>, ElementView)| p.1));
        }
        Ok(Library { root: String::from_str(root), elements })
    }

    /// The element with `id`, if any.
    pub fn get(&self, id: &str) -> (r: Option<&PromptElement>)
        ensures
            ({
                let k = find_id(elements_view(self.elements@), id@);
                match r {
                    Some(e) => k < self.elements@.len() && *e == self.elements@[k],
                    None => k >= self.elements@.len(),
                }
            }),
    {
        let ghost ev = elements_view(self.elements@);
        let ghost pred = |e: ElementView| e.header.id == id@;
        let idc = String::from_str(id);
        let mut i: usize = 0;
        while i < self.elements.len()
            invariant
                i <= self.elements@.len(),
                ev == elements_view(self.elements@),
                pred == (|e: ElementView| e.header.id == id@),
                idc@ == id@,
                forall|j: int| 0 <= j < i ==> !pred(#[trigger] ev[j]),
            decreases self.elements.len() - i,
        {
            assert(ev[i as int] == self.elements@[i as int]@);
            if self.elements[i].header.id == idc {
                proof {
                    lemma_first_match_at(ev, pred, i as int);
                }
                return Some(&self.elements[i]);
            }
            i += 1;
        }
        proof {
            lemma_first_match_at(ev, pred, ev.len() as int);
        }
        None
    }

    pub fn len(&self) -> (n: usize)
        ensures
            n == self.elements@.len(),
    {
        self.elements.len()
    }

    pub fn is_empty(&self) -> (b: bool)
        ensures
            b == (self.elements@.len() == 0),
    {
        self.elements.len() == 0
    }
}

/// The ids an element's recipe names, in order (none for an element
/// without a recipe).
pub open spec fn ids_of(e: ElementView) -> Seq<Seq<char>> {
    match e.header.composed_of {
        Some(v) => v.map_values(|r: InputRefView| r.id),
        None => seq![],
    }
}

/// Every id named in any recipe of the library, element by element.
pub open spec fn recipe_ids(els: Seq<ElementView>) -> Seq<Seq<char>>
    decreases els.len(),
{
    if els.len() == 0 {
        seq![]
    } else {
        recipe_ids(els.drop_last()) + ids_of(els.last())
    }
}

/// An id of the library that no recipe in the library names.
pub open spec fn is_root(els: Seq<ElementView>, id: Seq<char>) -> bool {
    find_id(els, id) < els.len() && !recipe_ids(els).contains(id)
}

/// The inputs an element's `composed_of` lists (none when it has none).
pub open spec fn recipe_list(e: ElementView) -> Seq<InputRefView> {
    match e.header.composed_of {
        Some(v) => v,
        None => seq![],
    }
}

/// Some recipe of the library names `id`.
pub open spec fn named_in_recipe(els: Seq<ElementView>, id: Seq<char>) -> bool {
    exists|k: int, j: int|
        0 <= k < els.len() && 0 <= j < recipe_list(els[k]).len() && (#[trigger] recipe_list(els[k])[j]).id
            == id
}

proof fn lemma_recipe_ids_named(els: Seq<ElementView>, id: Seq<char>)
    ensures
        recipe_ids(els).contains(id) <==> named_in_recipe(els, id),
    decreases els.len(),
{
    if els.len() > 0 {
        let h = els.drop_last();
        lemma_recipe_ids_named(h, id);
        let e = els.last();
        let r = recipe_ids(els);
        assert(r == recipe_ids(h) + ids_of(e));
        if r.contains(id) {
            let i = choose|i: int| 0 <= i < r.len() && r[i] == id;
            if i < recipe_ids(h).len() {
                assert(recipe_ids(h)[i] == id);
                assert(recipe_ids(h).contains(id));
                let (k, j) = choose|k: int, j: int|
                    0 <= k < h.len() && 0 <= j < recipe_list(h[k]).len() && (#[trigger] recipe_list(
                        h[k],
                    )[j]).id == id;
                assert(els[k] == h[k]);
                assert(recipe_list(els[k])[j].id == id);
            } else {
                let j = i - recipe_ids(h).len();
                assert(ids_of(e)[j] == id);
                assert(recipe_list(e)[j].id == id);
                assert(els[els.len() - 1] == e);
                assert(recipe_list(els[els.len() - 1])[j].id == id);
            }
        }
        if named_in_recipe(els, id) {
            let (k, j) = choose|k: int, j: int|
                0 <= k < els.len() && 0 <= j < recipe_list(els[k]).len() && (#[trigger] recipe_list(
                    els[k],
                )[j]).id == id;
            if k < els.len() - 1 {
                assert(h[k] == els[k]);
                assert(recipe_list(h[k])[j].id == id);
                assert(named_in_recipe(h, id));
                let i = choose|i: int| 0 <= i < recipe_ids(h).len() && recipe_ids(h)[i] == id;
                assert(r[i] == id);
            } else {
                assert(e == els[k]);
                assert(ids_of(e)[j] == recipe_list(e)[j].id);
                assert(r[recipe_ids(h).len() + j] == id);
            }
        }
    }
}

/// The roots are exactly the library's elements that no recipe in the
/// library names, whatever their kind: `id` is a root if and only if some
/// element has it and no element's `composed_of` lists it.
pub proof fn lemma_roots_exact(els: Seq<ElementView>, id: Seq<char>)
    ensures
        is_root(els, id) <==> (exists|k: int| 0 <= k < els.len() && #[trigger] els[k].header.id == id)
            && !named_in_recipe(els, id),
{
    lemma_recipe_ids_named(els, id);
    lemma_find_id_bounds(els, id);
    if exists|k: int| 0 <= k < els.len() && #[trigger] els[k].header.id == id {
        let k = choose|k: int| 0 <= k < els.len() && #[trigger] els[k].header.id == id;
        if find_id(els, id) >= els.len() {
            assert(els[k].header.id != id);
        }
    }
}

/// The element with `id`, if the library has one.
pub open spec fn lookup(els: Seq<ElementView>, id: Seq<char>) -> Option<ElementView> {
    let k = find_id(els, id);
    if 0 <= k < els.len() {
        Some(els[k])
    } else {
        None
    }
}

/// The ids a walk expands `x` into: its recipe, if the library has `x`
/// and (when `compounds_only`) `x` is a compound.
pub open spec fn kids(els: Seq<ElementView>, x: Seq<char>, compounds_only: bool) -> Seq<Seq<char>> {
    match lookup(els, x) {
        None => seq![],
        Some(e) => if compounds_only && e.header.kind != PromptElementKind::Compound {
            seq![]
        } else {
            ids_of(e)
        },
    }
}

/// How many entries of `u` are not yet in `seen`.
pub open spec fn unseen(u: Seq<Seq<char>>, seen: Seq<Seq<char>>) -> nat
    decreases u.len(),
{
    if u.len() == 0 {
        0
    } else {
        unseen(u.drop_last(), seen) + if seen.contains(u.last()) {
            0nat
        } else {
            1nat
        }
    }
}

pub proof fn lemma_unseen_push(u: Seq<Seq<char>>, seen: Seq<Seq<char>>, x: Seq<char>)
    ensures
        unseen(u, seen.push(x)) <= unseen(u, seen),
        u.contains(x) && !seen.contains(x) ==> unseen(u, seen.push(x)) < unseen(u, seen),
    decreases u.len(),
{
    if u.len() > 0 {
        lemma_unseen_push(u.drop_last(), seen, x);
        if seen.contains(u.last()) {
            let i = choose|i: int| 0 <= i < seen.len() && seen[i] == u.last();
            assert(seen.push(x)[i] == u.last());
        }
        if u.last() == x {
            assert(seen.push(x)[seen.len() as int] == x);
        }
        if u.contains(x) && u.last() != x {
            let i = choose|i: int| 0 <= i < u.len() && u[i] == x;
            assert(u.drop_last()[i] == x);
        }
    }
}

/// Depth-first, pre-order walk: take the next id; if it was already
/// visited skip it, else visit it and walk its kids before the rest.
pub open spec fn walk(
    els: Seq<ElementView>,
    todo: Seq<Seq<char>>,
    visited: Seq<Seq<char>>,
    compounds_only: bool,
) -> Seq<Seq<char>>
    decreases unseen(recipe_ids(els), visited), todo.len(),
    when forall|k: int| 0 <= k < todo.len() ==> recipe_ids(els).contains(#[trigger] todo[k])
{
    if todo.len() == 0 {
        visited
    } else {
        let x = todo[0];
        if visited.contains(x) {
            walk(els, todo.drop_first(), visited, compounds_only)
        } else {
            proof {
                assert(recipe_ids(els).contains(todo[0]));
                lemma_unseen_push(recipe_ids(els), visited, x);
            }
            walk(els, kids(els, x, compounds_only) + todo.drop_first(), visited.push(x), compounds_only)
        }
    }
}

proof fn lemma_recipe_ids_has(els: Seq<ElementView>, k: int, j: int)
    requires
        0 <= k < els.len(),
        0 <= j < ids_of(els[k]).len(),
    ensures
        recipe_ids(els).contains(ids_of(els[k])[j]),
    decreases els.len(),
{
    let r = recipe_ids(els);
    let head = recipe_ids(els.drop_last());
    if k == els.len() - 1 {
        assert(r[head.len() + j] == ids_of(els[k])[j]);
    } else {
        assert(els.drop_last()[k] == els[k]);
        lemma_recipe_ids_has(els.drop_last(), k, j);
        let i = choose|i: int| 0 <= i < head.len() && head[i] == ids_of(els[k])[j];
        assert(r[i] == head[i]);
    }
}

/// A walk's kids are always ids some recipe names.
proof fn lemma_kids_named(els: Seq<ElementView>, x: Seq<char>, compounds_only: bool)
    ensures
        forall|j: int| 0 <= j < kids(els, x, compounds_only).len() ==> recipe_ids(els).contains(
            #[trigger] kids(els, x, compounds_only)[j],
        ),
{
    lemma_find_id_bounds(els, x);
    let k = find_id(els, x);
    if 0 <= k < els.len() {
        assert forall|j: int| 0 <= j < kids(els, x, compounds_only).len() implies recipe_ids(
            els,
        ).contains(#[trigger] kids(els, x, compounds_only)[j]) by {
            lemma_recipe_ids_has(els, k, j);
        }
    }
}

/// The recipe of the element the library holds under `y` (none when it
/// holds none, or the element has no recipe).
pub open spec fn recipe_of_id(els: Seq<ElementView>, y: Seq<char>) -> Seq<InputRefView> {
    match lookup(els, y) {
        Some(e) => recipe_list(e),
        None => seq![],
    }
}

proof fn lemma_kids_recipe(els: Seq<ElementView>, y: Seq<char>, compounds_only: bool)
    ensures
        (!compounds_only || (lookup(els, y) is Some && lookup(els, y)->Some_0.header.kind
            == PromptElementKind::Compound)) ==> kids(els, y, compounds_only) == recipe_of_id(
            els,
            y,
        ).map_values(|r: InputRefView| r.id),
{
    if let Some(e) = lookup(els, y) {
        if e.header.composed_of is None {
            assert(recipe_of_id(els, y).map_values(|r: InputRefView| r.id) =~= Seq::<Seq<char>>::empty());
        }
    } else {
        assert(recipe_of_id(els, y).map_values(|r: InputRefView| r.id) =~= Seq::<Seq<char>>::empty());
    }
}

/// A walk keeps what it has visited, visits everything it is given, and
/// everything it visits has its kids visited too.
proof fn lemma_walk_closed(
    els: Seq<ElementView>,
    todo: Seq<Seq<char>>,
    visited: Seq<Seq<char>>,
    co: bool,
)
    requires
        forall|k: int| 0 <= k < todo.len() ==> recipe_ids(els).contains(#[trigger] todo[k]),
    ensures
        forall|y: Seq<char>| #[trigger] visited.contains(y) ==> walk(els, todo, visited, co).contains(y),
        forall|k: int| 0 <= k < todo.len() ==> walk(els, todo, visited, co).contains(#[trigger] todo[k]),
        forall|y: Seq<char>, k: int|
            #![trigger walk(els, todo, visited, co).contains(y), kids(els, y, co)[k]]
            walk(els, todo, visited, co).contains(y) && !visited.contains(y) && 0 <= k < kids(
                els,
                y,
                co,
            ).len() ==> walk(els, todo, visited, co).contains(kids(els, y, co)[k]),
    decreases unseen(recipe_ids(els), visited), todo.len(),
{
    if todo.len() > 0 {
        let x = todo[0];
        let rest = todo.drop_first();
        assert forall|k: int| 0 <= k < rest.len() implies recipe_ids(els).contains(#[trigger] rest[k]) by {
            assert(rest[k] == todo[k + 1]);
        }
        if visited.contains(x) {
            lemma_walk_closed(els, rest, visited, co);
            let r = walk(els, rest, visited, co);
            assert(walk(els, todo, visited, co) == r);
            assert forall|k: int| 0 <= k < todo.len() implies r.contains(#[trigger] todo[k]) by {
                if k > 0 {
                    assert(todo[k] == rest[k - 1]);
                }
            }
        } else {
            assert(recipe_ids(els).contains(todo[0]));
            lemma_kids_named(els, x, co);
            lemma_unseen_push(recipe_ids(els), visited, x);
            let ks = kids(els, x, co);
            let t2 = ks + rest;
            let v2 = visited.push(x);
            assert forall|k: int| 0 <= k < t2.len() implies recipe_ids(els).contains(#[trigger] t2[k]) by {
                if k < ks.len() {
                    assert(t2[k] == ks[k]);
                } else {
                    assert(t2[k] == rest[k - ks.len()]);
                }
            }
            lemma_walk_closed(els, t2, v2, co);
            let r = walk(els, t2, v2, co);
            assert(walk(els, todo, visited, co) == r);
            assert forall|y: Seq<char>| #[trigger] visited.contains(y) implies r.contains(y) by {
                let i = choose|i: int| 0 <= i < visited.len() && visited[i] == y;
                assert(v2[i] == y);
                assert(v2.contains(y));
            }
            assert(v2[visited.len() as int] == x);
            assert(v2.contains(x));
            assert(r.contains(x));
            assert forall|k: int| 0 <= k < todo.len() implies r.contains(#[trigger] todo[k]) by {
                if k > 0 {
                    assert(todo[k] == rest[k - 1]);
                    assert(t2[ks.len() + k - 1] == rest[k - 1]);
                }
            }
            assert forall|y: Seq<char>, k: int|
                r.contains(y) && !visited.contains(y) && 0 <= k < kids(els, y, co).len() implies r.contains(
                #[trigger] kids(els, y, co)[k],
            ) by {
                if y == x {
                    assert(t2[k] == ks[k]);
                } else {
                    if v2.contains(y) {
                        let i = choose|i: int| 0 <= i < v2.len() && v2[i] == y;
                        assert(visited[i] == y);
                    }
                }
            }
        }
    }
}

/// The descendants of `id`: the ids a walk of the recipe graph from its
/// recipe visits.
pub open spec fn descendants_spec(els: Seq<ElementView>, id: Seq<char>) -> Seq<Seq<char>> {
    walk(els, kids(els, id, false), seq![], false)
}

/// The descendants are closed under recipes: every input of `id`'s recipe
/// is a descendant, and every input of a descendant's recipe is too, so the
/// walk goes all the way down.
pub proof fn lemma_descendants_closed(els: Seq<ElementView>, id: Seq<char>)
    ensures
        forall|j: int|
            0 <= j < recipe_of_id(els, id).len() ==> descendants_spec(els, id).contains(
                (#[trigger] recipe_of_id(els, id)[j]).id,
            ),
        forall|y: Seq<char>, j: int|
            #![trigger descendants_spec(els, id).contains(y), recipe_of_id(els, y)[j]]
            descendants_spec(els, id).contains(y) && 0 <= j < recipe_of_id(els, y).len()
                ==> descendants_spec(els, id).contains(recipe_of_id(els, y)[j].id),
{
    lemma_kids_named(els, id, false);
    lemma_walk_closed(els, kids(els, id, false), seq![], false);
    let d = descendants_spec(els, id);
    lemma_kids_recipe(els, id, false);
    assert forall|j: int| 0 <= j < recipe_of_id(els, id).len() implies d.contains(
        (#[trigger] recipe_of_id(els, id)[j]).id,
    ) by {
        assert(kids(els, id, false)[j] == recipe_of_id(els, id)[j].id);
    }
    assert forall|y: Seq<char>, j: int|
        d.contains(y) && 0 <= j < recipe_of_id(els, y).len() implies d.contains(
        #[trigger] recipe_of_id(els, y)[j].id,
    ) by {
        lemma_kids_recipe(els, y, false);
        assert(kids(els, y, false)[j] == recipe_of_id(els, y)[j].id);
        assert(!Seq::<Seq<char>>::empty().contains(y));
    }
}

/// The library holds `x` as a compound whose recipe names `y`.
pub open spec fn compound_names(els: Seq<ElementView>, x: Seq<char>, y: Seq<char>) -> bool {
    &&& lookup(els, x) is Some
    &&& lookup(els, x)->Some_0.header.kind == PromptElementKind::Compound
    &&& exists|j: int| 0 <= j < recipe_of_id(els, x).len() && (#[trigger] recipe_of_id(els, x)[j]).id == y
}

/// `p` is a chain of recipe links through compounds: each id but the last
/// is a compound of the library whose recipe names the next.
pub open spec fn compound_chain(els: Seq<ElementView>, p: Seq<Seq<char>>) -> bool {
    forall|i: int| 0 <= i < p.len() - 1 ==> compound_names(els, #[trigger] p[i], p[i + 1])
}

proof fn lemma_chain_walked(els: Seq<ElementView>, p: Seq<Seq<char>>, i: int)
    requires
        p.len() >= 2,
        compound_chain(els, p),
        1 <= i < p.len(),
    ensures
        walk(els, kids(els, p[0], true), seq![], true).contains(p[i]),
    decreases i,
{
    let id = p[0];
    let w = walk(els, kids(els, id, true), seq![], true);
    lemma_kids_named(els, id, true);
    lemma_walk_closed(els, kids(els, id, true), seq![], true);
    let x = p[i - 1];
    assert(compound_names(els, p[i - 1], p[i]));
    lemma_kids_recipe(els, x, true);
    let j = choose|j: int| 0 <= j < recipe_of_id(els, x).len() && (#[trigger] recipe_of_id(els, x)[j]).id == p[i];
    assert(kids(els, x, true)[j] == p[i]);
    if i == 1 {
        assert(kids(els, id, true)[j] == p[i]);
    } else {
        lemma_chain_walked(els, p, i - 1);
        assert(!Seq::<Seq<char>>::empty().contains(x));
    }
}

/// Every atom reachable from `id` is a leaf atom of it: for any chain of
/// recipe links from `id` through compounds of the library that ends at an
/// atom of the library, that atom is among `id`'s leaf atoms (`id` itself
/// when it is an atom).
pub proof fn lemma_leaf_atoms_complete(els: Seq<ElementView>, id: Seq<char>, p: Seq<Seq<char>>)
    requires
        p.len() >= 1,
        p[0] == id,
        compound_chain(els, p),
        lookup(els, p.last()) is Some,
        lookup(els, p.last())->Some_0.header.kind == PromptElementKind::Atom,
    ensures
        is_leaf_atom(els, id, p.last()),
{
    if p.len() >= 2 {
        lemma_chain_walked(els, p, p.len() - 1);
    }
}

/// The atoms reachable from `id`: `id` itself and every id a walk through
/// compounds visits, kept when the library has it as an atom.
pub open spec fn is_leaf_atom(els: Seq<ElementView>, id: Seq<char>, y: Seq<char>) -> bool {
    &&& (y == id || walk(els, kids(els, id, true), seq![], true).contains(y))
    &&& lookup(els, y) matches Some(e)
    &&& e.header.kind == PromptElementKind::Atom
}

impl Library {
    fn recipe_ids_exec(&self) -> (r: Vec<String>)
        ensures
            strs(r@) == recipe_ids(elements_view(self.elements@)),
    {
        let ghost ev = elements_view(self.elements@);
        let mut r: Vec<String> = Vec::new();
        let mut i: usize = 0;
        assert(strs(r@) =~= recipe_ids(ev.take(0)));
        while i < self.elements.len()
            invariant
                i <= self.elements@.len(),
                ev == elements_view(self.elements@),
                strs(r@) == recipe_ids(ev.take(i as int)),
            decreases self.elements.len() - i,
        {
            let e = &self.elements[i];
            assert(ev[i as int] == e@);
            assert(ev.take(i + 1).drop_last() =~= ev.take(i as int));
            assert(ev.take(i + 1).last() == e@);
            let ghost r0 = strs(r@);
            match &e.header.composed_of {
                None => {
                    assert(r0 + ids_of(e@) =~= r0);
                },
                Some(inputs) => {
                    let ghost iv = ids_of(e@);
                    let mut j: usize = 0;
                    while j < inputs.len()
                        invariant
                            j <= inputs@.len(),
                            iv == inputs@.map_values(|x: InputRef| x@).map_values(|v: InputRefView| v.id),
                            strs(r@) == r0 + iv.take(j as int),
                        decreases inputs.len() - j,
                    {
                        assert(iv[j as int] == inputs@[j as int].id@);
                        let ghost rb = r@;
                        r.push(inputs[j].id.clone());
                        assert(strs(r@) =~= strs(rb).push(iv[j as int]));
                        assert(iv.take(j + 1) =~= iv.take(j as int).push(iv[j as int]));
                        assert(strs(r@) =~= r0 + iv.take(j + 1));
                        j += 1;
                    }
                    assert(iv.take(j as int) =~= iv);
                },
            }
            i += 1;
        }
        assert(ev.take(i as int) =~= ev);
        r
    }

    /// Top-level component ids: every element whose id no recipe in the
    /// library names, sorted by id.
    pub fn roots(&self) -> (r: Vec<String>)
        requires
            self.well_formed(),
        ensures
            strictly_sorted(strs(r@)),
            forall|x: Seq<char>| #[trigger] strs(r@).contains(x) <==> is_root(elements_view(self.elements@), x),
    {
        let ghost ev = elements_view(self.elements@);
        let named = self.recipe_ids_exec();
        let mut r: Vec<String> = Vec::new();
        let mut i: usize = 0;
        while i < self.elements.len()
            invariant
                i <= self.elements@.len(),
                ev == elements_view(self.elements@),
                unique_ids(ev),
                strs(named@) == recipe_ids(ev),
                strictly_sorted(strs(r@)),
                forall|x: Seq<char>| #[trigger] strs(r@).contains(x) <==> (exists|k: int| 0 <= k < i && #[trigger] ev[k].header.id == x && is_root(ev, x)),
            decreases self.elements.len() - i,
        {
            let id = &self.elements[i].header.id;
            assert(ev[i as int] == self.elements@[i as int]@);
            proof {
                lemma_find_id_bounds(ev, id@);
                if find_id(ev, id@) != i {
                    assert(ev[find_id(ev, id@)].header.id == id@);
                }
            }
            let ghost r0 = strs(r@);
            if !contains_str(&named, id) {
                insert_sorted(&mut r, id.clone());
                assert(is_root(ev, id@));
            }
            assert forall|x: Seq<char>| #[trigger] strs(r@).contains(x) <==> (exists|k: int| 0 <= k < i + 1 && #[trigger] ev[k].header.id == x && is_root(ev, x)) by {
                if exists|k: int| 0 <= k < i + 1 && #[trigger] ev[k].header.id == x && is_root(ev, x) {
                    let k = choose|k: int| 0 <= k < i + 1 && #[trigger] ev[k].header.id == x && is_root(ev, x);
                    if k < i {
                        assert(r0.contains(x));
                    }
                }
                if r0.contains(x) {
                    let k = choose|k: int| 0 <= k < i && #[trigger] ev[k].header.id == x && is_root(ev, x);
                    assert(0 <= k < i + 1 && ev[k].header.id == x && is_root(ev, x));
                }
            }
            i += 1;
        }
        proof {
            assert forall|x: Seq<char>| #[trigger] strs(r@).contains(x) <==> is_root(ev, x) by {
                if is_root(ev, x) {
                    lemma_find_id_bounds(ev, x);
                    let k = find_id(ev, x);
                    assert(ev[k].header.id == x);
                }
            }
        }
        r
    }
}

/// The library has `y` as an atom.
pub open spec fn is_atom_in(els: Seq<ElementView>, y: Seq<char>) -> bool {
    lookup(els, y) matches Some(e) && e.header.kind == PromptElementKind::Atom
}

impl Library {
    fn kids_exec(&self, x: &String, compounds_only: bool) -> (r: Vec<String>)
        ensures
            strs(r@) == kids(elements_view(self.elements@), x@, compounds_only),
    {
        let ghost ev = elements_view(self.elements@);
        let mut r: Vec<String> = Vec::new();
        proof {
            lemma_find_id_bounds(ev, x@);
        }
        match self.get(x.as_str()) {
            None => {
                assert(strs(r@) =~= Seq::<Seq<char>>::empty());
                r
            },
            Some(e) => {
                assert(ev[find_id(ev, x@)] == e@);
                if compounds_only && !e.header.is_compound() {
                    assert(strs(r@) =~= Seq::<Seq<char>>::empty());
                    return r;
                }
                match &e.header.composed_of {
                    None => {
                        assert(strs(r@) =~= Seq::<Seq<char>>::empty());
                    },
                    Some(inputs) => {
                        let ghost iv = ids_of(e@);
                        let mut j: usize = 0;
                        while j < inputs.len()
                            invariant
                                j <= inputs@.len(),
                                iv == inputs@.map_values(|x: InputRef| x@).map_values(
                                    |v: InputRefView| v.id,
                                ),
                                strs(r@) == iv.take(j as int),
                            decreases inputs.len() - j,
                        {
                            assert(iv[j as int] == inputs@[j as int].id@);
                            let ghost rb = r@;
                            r.push(inputs[j].id.clone());
                            assert(strs(r@) =~= strs(rb).push(iv[j as int]));
                            assert(iv.take(j + 1) =~= iv.take(j as int).push(iv[j as int]));
                            j += 1;
                        }
                        assert(iv.take(j as int) =~= iv);
                    },
                }
                r
            },
        }
    }

    /// The pre-order walk from the ids in `todo`, each id visited once.
    fn walk_exec(&self, todo: Vec<String>, compounds_only: bool) -> (visited: Vec<String>)
        requires
            forall|k: int| 0 <= k < todo@.len() ==> recipe_ids(elements_view(self.elements@)).contains(
                #[trigger] strs(todo@)[k],
            ),
        ensures
            strs(visited@) == walk(elements_view(self.elements@), strs(todo@), seq![], compounds_only),
    {
        let ghost ev = elements_view(self.elements@);
        let ghost u = recipe_ids(ev);
        let ghost t0 = strs(todo@);
        let mut todo = todo;
        let mut visited: Vec<String> = Vec::new();
        assert(strs(visited@) =~= Seq::<Seq<char>>::empty());
        while todo.len() > 0
            invariant
                ev == elements_view(self.elements@),
                u == recipe_ids(ev),
                forall|k: int| 0 <= k < strs(todo@).len() ==> u.contains(#[trigger] strs(todo@)[k]),
                walk(ev, t0, seq![], compounds_only) == walk(
                    ev,
                    strs(todo@),
                    strs(visited@),
                    compounds_only,
                ),
            decreases unseen(u, strs(visited@)), todo@.len(),
        {
            let ghost tv = strs(todo@);
            let ghost vv = strs(visited@);
            let x = todo.remove(0);
            assert(tv[0] == x@);
            assert(strs(todo@) =~= tv.drop_first());
            assert(u.contains(tv[0]));
            if contains_str(&visited, &x) {
            } else {
                let ks = self.kids_exec(&x, compounds_only);
                proof {
                    lemma_kids_named(ev, x@, compounds_only);
                    lemma_unseen_push(u, vv, x@);
                }
                let mut next = ks;
                let ghost kv = strs(next@);
                let ghost rest = strs(todo@);
                next.append(&mut todo);
                todo = next;
                assert(strs(todo@) =~= kv + rest);
                assert forall|k: int| 0 <= k < strs(todo@).len() implies u.contains(#[trigger] strs(todo@)[k]) by {
                    if k < kv.len() {
                        assert(strs(todo@)[k] == kv[k]);
                    } else {
                        assert(strs(todo@)[k] == rest[k - kv.len()]);
                        assert(rest[k - kv.len()] == tv[k - kv.len() + 1]);
                    }
                }
                visited.push(x);
                assert(strs(visited@) =~= vv.push(tv[0]));
            }
        }
        assert(strs(todo@) =~= Seq::<Seq<char>>::empty());
        visited
    }

    /// Transitive descendants of `id` in pre-order, each once: a walk of
    /// the recipe graph from `id`'s inputs. Empty when `id` is missing or
    /// has no recipe.
    pub fn descendants(&self, id: &str) -> (r: Vec<String>)
        ensures
            strs(r@) == walk(
                elements_view(self.elements@),
                kids(elements_view(self.elements@), id@, false),
                seq![],
                false,
            ),
    {
        let idc = String::from_str(id);
        let start = self.kids_exec(&idc, false);
        proof {
            lemma_kids_named(elements_view(self.elements@), id@, false);
        }
        self.walk_exec(start, false)
    }

    /// The atoms reachable from `id` through compounds (`id` itself if it
    /// is an atom), each once, sorted by id.
    pub fn leaf_atoms(&self, id: &str) -> (r: Vec<String>)
        ensures
            strictly_sorted(strs(r@)),
            forall|y: Seq<char>| #[trigger] strs(r@).contains(y) <==> is_leaf_atom(
                elements_view(self.elements@),
                id@,
                y,
            ),
    {
        let ghost ev = elements_view(self.elements@);
        let idc = String::from_str(id);
        let start = self.kids_exec(&idc, true);
        proof {
            lemma_kids_named(ev, id@, true);
        }
        let visited = self.walk_exec(start, true);
        let ghost wv = strs(visited@);
        let mut cands: Vec<String> = Vec::new();
        cands.push(idc);
        let mut more = visited;
        cands.append(&mut more);
        let ghost cv = strs(cands@);
        assert(cv =~= seq![id@] + wv);
        let mut r: Vec<String> = Vec::new();
        let mut i: usize = 0;
        while i < cands.len()
            invariant
                i <= cands@.len(),
                ev == elements_view(self.elements@),
                cv == strs(cands@),
                strictly_sorted(strs(r@)),
                forall|y: Seq<char>| #[trigger] strs(r@).contains(y) <==> (exists|k: int| 0 <= k < i && #[trigger] cv[k] == y && is_atom_in(ev, y)),
            decreases cands.len() - i,
        {
            let c = &cands[i];
            assert(cv[i as int] == c@);
            proof {
                lemma_find_id_bounds(ev, c@);
            }
            let ghost r0 = strs(r@);
            match self.get(c.as_str()) {
                Some(e) => {
                    assert(ev[find_id(ev, c@)] == e@);
                    if e.header.is_atom() {
                        insert_sorted(&mut r, c.clone());
                    }
                },
                None => {},
            }
            assert forall|y: Seq<char>| #[trigger] strs(r@).contains(y) <==> (exists|k: int| 0 <= k < i + 1 && #[trigger] cv[k] == y && is_atom_in(ev, y)) by {
                if exists|k: int| 0 <= k < i + 1 && #[trigger] cv[k] == y && is_atom_in(ev, y) {
                    let k = choose|k: int| 0 <= k < i + 1 && #[trigger] cv[k] == y && is_atom_in(ev, y);
                    if k < i {
                        assert(r0.contains(y));
                    }
                }
                if r0.contains(y) {
                    let k = choose|k: int| 0 <= k < i && #[trigger] cv[k] == y && is_atom_in(ev, y);
                    assert(0 <= k < i + 1 && cv[k] == y);
                }
            }
            i += 1;
        }
        proof {
            assert forall|y: Seq<char>| #[trigger] strs(r@).contains(y) <==> is_leaf_atom(ev, id@, y) by {
                if is_leaf_atom(ev, id@, y) {
                    if y == id@ {
                        assert(cv[0] == y);
                    } else {
                        let k = choose|k: int| 0 <= k < wv.len() && wv[k] == y;
                        assert(cv[k + 1] == y);
                    }
                }
                if strs(r@).contains(y) {
                    let k = choose|k: int| 0 <= k < cv.len() && #[trigger] cv[k] == y && is_atom_in(ev, y);
                    if k > 0 {
                        assert(wv[k - 1] == y);
                    }
                }
            }
        }
        r
    }
}

} // verus!
