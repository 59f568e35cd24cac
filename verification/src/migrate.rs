//! Migrate: rewrite a v0.1 library in the v0.2 schema.
//!
//! Every Oovra file is parsed in legacy mode (which accepts both shapes)
//! and rewritten in v0.2 form. Compounds carry their sub-elements inside
//! their body, so those are migrated too, recursively, and the body is
//! rendered again from the migrated children. Files already in v0.2 form
//! are re-serialized unchanged in content. `generated_at` is kept as it
//! was: migration changes the representation, it does not regenerate.
//!
//! A rewrite is checked in memory before it is written, so a file whose
//! migration would be invalid is left untouched and reported as failed.
//! Walking the directory, reading and writing are the caller's part.

use vstd::prelude::*;

use crate::element::write_spec;
use crate::decompose::{
    decompose_spec, decompose_with, lemma_decompose_shrinks, lemma_decompose_subs_valid,
};
use crate::element::{
    looks_like_oovra_file, looks_like_spec, parse_spec, parse_with, prepare_write, serialize,
    serialize_error, serialize_fails, serialize_spec, ElementView, ParseOptions, PromptElement,
};
use crate::error::{ErrorView, OovraError, Result};
use crate::header::PromptElementKind;
use crate::library::elements_view;
use crate::render::{render_body, render_body_spec, strings_view};

verus! {

/// The v0.2 form of an element: an atom is unchanged; a compound keeps its
/// header and gets its body rendered again, at its own level, from the
/// migrated files of its sub-elements (read in legacy mode).
pub open spec fn migrated(e: ElementView) -> core::result::Result<ElementView, ErrorView>
    decreases e.body.len() + 1, 0nat,
{
    if e.header.kind == PromptElementKind::Atom {
        Ok(e)
    } else {
        match decompose_spec(e, true) {
            Err(err) => Err(err),
            Ok(xs) => {
                proof {
                    lemma_decompose_shrinks(e, true);
                }
                match migrated_all(xs, e.body.len()) {
                    Err(err) => Err(err),
                    Ok(ms) => Ok(
                        ElementView {
                            header: e.header,
                            body: render_body_spec(
                                e.header.body_level.unwrap(),
                                ms.map_values(|m: ElementView| serialize_spec(m)),
                            ),
                            source_path: None,
                        },
                    ),
                }
            },
        }
    }
}

/// Each of `xs` migrated, in order, each result's header writable; the
/// first failure stops. `room`
/// bounds the elements' body lengths.
pub open spec fn migrated_all(xs: Seq<ElementView>, room: nat) -> core::result::Result<
    Seq<ElementView>,
    ErrorView,
>
    decreases room, xs.len(),
    when forall|j: int| 0 <= j < xs.len() ==> #[trigger] xs[j].body.len() < room
{
    if xs.len() == 0 {
        Ok(seq![])
    } else {
        match migrated(xs[0]) {
            Err(err) => Err(err),
            Ok(m) => if serialize_fails(m) {
                Err(serialize_error(m))
            } else {
                match migrated_all(xs.drop_first(), room) {
                    Err(err) => Err(err),
                    Ok(ms) => Ok(seq![m] + ms),
                }
            },
        }
    }
}

/// `done` followed by what `r` holds, or `r`'s error.
pub open spec fn then_all(
    done: Seq<ElementView>,
    r: core::result::Result<Seq<ElementView>, ErrorView>,
) -> core::result::Result<Seq<ElementView>, ErrorView> {
    match r {
        Ok(rest) => Ok(done + rest),
        Err(e) => Err(e),
    }
}

pub open spec fn migrated_view(r: Result<PromptElement>) -> core::result::Result<ElementView, ErrorView> {
    match r {
        Ok(e) => Ok(e@),
        Err(e) => Err(e@),
    }
}

/// Produce the v0.2 version of `element` with its body migrated
/// recursively. A compound must carry its body level, as every parsed
/// compound does.
pub fn rewrite_with_body_migration(element: &PromptElement) -> (res: Result<PromptElement>)
    requires
        element.header.kind == PromptElementKind::Compound ==> element.header.body_level is Some,
    ensures
        migrated_view(res) == migrated(element@),
    decreases element.body@.len(),
{
    if element.header.is_atom() {
        return Ok(element.clone());
    }
    let body_level: u32 = element.header.body_level.unwrap();
    let subs = match decompose_with(element, ParseOptions { legacy: true }) {
        Ok(s) => s,
        Err(e) => return Err(e),
    };
    let ghost xs = elements_view(subs@);
    let ghost room = element@.body.len();
    proof {
        lemma_decompose_shrinks(element@, true);
        lemma_decompose_subs_valid(element@, true);
    }
    let mut chunks: Vec<String> = Vec::new();
    let mut done: Vec<PromptElement> = Vec::new();
    let mut i: usize = 0;
    assert(xs.skip(0) =~= xs);
    assert(elements_view(done@) =~= Seq::<ElementView>::empty());
    assert(then_all(seq![], migrated_all(xs, room)) =~= migrated_all(xs, room)) by {
        if let Ok(r) = migrated_all(xs, room) {
            assert(Seq::<ElementView>::empty() + r =~= r);
        }
    }
    while i < subs.len()
        invariant
            i <= subs@.len(),
            xs == elements_view(subs@),
            room == element@.body.len(),
            element@.header.kind != PromptElementKind::Atom,
            decompose_spec(element@, true) == Ok::<Seq<ElementView>, ErrorView>(xs),
            forall|j: int| 0 <= j < xs.len() ==> #[trigger] xs[j].body.len() < room,
            forall|j: int| 0 <= j < xs.len() ==> (#[trigger] xs[j]).header.kind
                == PromptElementKind::Compound ==> xs[j].header.body_level is Some,
            migrated_all(xs, room) == then_all(elements_view(done@), migrated_all(xs.skip(i as int), room)),
            strings_view(chunks@) == elements_view(done@).map_values(|m: ElementView| serialize_spec(m)),
        decreases subs.len() - i,
    {
        let ghost ys = xs.skip(i as int);
        proof {
            crate::library::lemma_elements_view_index(subs@, i as int);
            assert(ys.drop_first() =~= xs.skip(i + 1));
            assert(ys[0] == xs[i as int]);
            assert forall|j: int| 0 <= j < ys.len() implies #[trigger] ys[j].body.len() < room by {
                assert(ys[j] == xs[i + j]);
            }
            assert forall|j: int| 0 <= j < ys.drop_first().len() implies #[trigger] ys.drop_first()[j].body.len() < room by {
                assert(ys.drop_first()[j] == ys[j + 1]);
            }
            assert(xs[i as int].body.len() < room);
            assert(xs[i as int].header.kind == PromptElementKind::Compound ==> xs[i as int].header.body_level is Some);
        }
        assert(subs@[i as int].body@.len() < element.body@.len());
        let m = match rewrite_with_body_migration(&subs[i]) {
            Ok(m) => m,
            Err(e) => {
                assert(migrated_all(ys, room) == Err::<Seq<ElementView>, ErrorView>(e@));
                return Err(e);
            },
        };
        let text = match serialize(&m) {
            Ok(t) => t,
            Err(e) => {
                assert(migrated_all(ys, room) == Err::<Seq<ElementView>, ErrorView>(e@));
                return Err(e);
            },
        };
        let ghost before = elements_view(done@);
        let ghost cb = strings_view(chunks@);
        chunks.push(text);
        done.push(m);
        proof {
            assert(elements_view(done@) =~= before.push(m@));
            assert(strings_view(chunks@) =~= cb.push(serialize_spec(m@)));
            assert(elements_view(done@).map_values(|x: ElementView| serialize_spec(x)) =~= before.map_values(
                |x: ElementView| serialize_spec(x),
            ).push(serialize_spec(m@)));
            if let Ok(rest) = migrated_all(xs.skip(i + 1), room) {
                assert(before + (seq![m@] + rest) =~= before.push(m@) + rest);
            }
        }
        i += 1;
    }
    proof {
        assert(xs.skip(i as int) =~= Seq::<ElementView>::empty());
        assert(elements_view(done@) + Seq::<ElementView>::empty() =~= elements_view(done@));
    }
    let new_body = render_body(body_level, chunks.as_slice());
    Ok(PromptElement::new(element.header.clone(), new_body))
}

/// What migrating one `.md` file comes to.
#[derive(Debug)]
pub enum MigrateOutcome {
    /// Left alone, with a reason tag.
    Skipped(&'static str),
    /// The v0.2 text to write over the file.
    Rewrite(String),
    /// The file did not parse, or its rewrite would be invalid.
    Failed(OovraError),
}

pub enum MigrateOutcomeView {
    Skipped(Seq<char>),
    Rewrite(Seq<char>),
    Failed(ErrorView),
}

impl View for MigrateOutcome {
    type V = MigrateOutcomeView;

    open spec fn view(&self) -> MigrateOutcomeView {
        match self {
            MigrateOutcome::Skipped(r) => MigrateOutcomeView::Skipped(r@),
            MigrateOutcome::Rewrite(t) => MigrateOutcomeView::Rewrite(t@),
            MigrateOutcome::Failed(e) => MigrateOutcomeView::Failed(e@),
        }
    }
}

/// Migrating the file at `path` whose text is `content`: a file that does
/// not open like an Oovra file is skipped as `not-oovra`; otherwise it is
/// parsed in legacy mode, migrated, and its v0.2 text checked by a strict
/// parse.
pub open spec fn migrate_file_spec(path: Seq<char>, content: Seq<char>) -> MigrateOutcomeView {
    if !looks_like_spec(content) {
        MigrateOutcomeView::Skipped("not-oovra"@)
    } else {
        match parse_spec(content, path, true) {
            Err(e) => MigrateOutcomeView::Failed(e),
            Ok(el) => match migrated(el) {
                Err(e) => MigrateOutcomeView::Failed(e),
                Ok(m) => match write_spec(m, path) {
                    Ok(t) => MigrateOutcomeView::Rewrite(t),
                    Err(e) => MigrateOutcomeView::Failed(e),
                },
            },
        }
    }
}

/// Migrate one file in memory.
pub fn migrate_file(path: &str, content: &str) -> (r: MigrateOutcome)
    ensures
        r@ == migrate_file_spec(path@, content@),
{
    if !looks_like_oovra_file(content) {
        return MigrateOutcome::Skipped("not-oovra");
    }
    let element = match parse_with(content, path, ParseOptions { legacy: true }) {
        Ok(e) => e,
        Err(e) => return MigrateOutcome::Failed(e),
    };
    let migrated_element = match rewrite_with_body_migration(&element) {
        Ok(m) => m,
        Err(e) => return MigrateOutcome::Failed(e),
    };
    match prepare_write(&migrated_element, path) {
        Ok(text) => MigrateOutcome::Rewrite(text),
        Err(e) => MigrateOutcome::Failed(e),
    }
}

/// Per-file outcome of a migration walk.
#[derive(Debug)]
pub struct MigrationSummary {
    /// Paths that were rewritten in v0.2 format.
    pub migrated: Vec<String>,
    /// `.md` files skipped, with a reason tag.
    pub skipped: Vec<(String, &'static str)>,
    /// Files that failed to parse or write; the original is left in place.
    pub failed: Vec<(String, OovraError)>,
}

impl Default for MigrationSummary {
    fn default() -> (s: Self)
        ensures
            s.migrated@.len() == 0,
            s.skipped@.len() == 0,
            s.failed@.len() == 0,
    {
        MigrationSummary { migrated: Vec::new(), skipped: Vec::new(), failed: Vec::new() }
    }
}

} // verus!
