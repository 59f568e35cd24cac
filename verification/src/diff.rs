//! Compare: the FORWARD-DIFF operator with kind-aware dispatch.
//!
//! - Both atoms: content diff (metadata changes plus a unified diff of the
//!   bodies).
//! - Both compounds: sequence-aware structural diff over `composed_of`,
//!   reporting inputs added, removed, version-changed and moved. The axes
//!   are not exclusive: an input both bumped and moved is on both lists.
//! - Atom against compound: refused.

use vstd::prelude::*;

use crate::decompose::{kind_name, kind_str};
use crate::element::{ElementView, PromptElement};
use crate::error::{ErrorView, OovraError, Result};
use crate::header::{InputRef, InputRefView, PromptElementKind, inputs_view};

verus! {

/// One input together with its index in its recipe.
#[derive(Debug)]
pub struct PositionedInput {
    pub input: InputRef,
    pub position: usize,
}

/// An input whose version differs between the two recipes.
#[derive(Debug)]
pub struct VersionChange {
    pub id: String,
    pub before_version: String,
    pub after_version: String,
}

/// An input present in both recipes at different indices.
#[derive(Debug)]
pub struct MovedInput {
    pub id: String,
    pub version: String,
    pub before_pos: usize,
    pub after_pos: usize,
}

/// Diff of two compounds.
#[derive(Debug)]
pub struct StructuralDiff {
    pub a_id: String,
    pub b_id: String,
    pub added: Vec<PositionedInput>,
    pub removed: Vec<PositionedInput>,
    pub version_changed: Vec<VersionChange>,
    pub moved: Vec<MovedInput>,
    pub recipes_equal: bool,
}

/// A metadata field whose value differs.
#[derive(Debug)]
pub struct FieldChange {
    pub field: String,
    pub before: String,
    pub after: String,
}

/// Diff of two atoms.
#[derive(Debug)]
pub struct ContentDiff {
    pub a_id: String,
    pub b_id: String,
    pub field_changes: Vec<FieldChange>,
    pub body_unified_diff: String,
    pub bodies_equal: bool,
}

/// Top-level result of [`compare`].
#[derive(Debug)]
pub enum DiffReport {
    Content(ContentDiff),
    StructuralDiff(StructuralDiff),
}

pub struct PositionedView {
    pub input: InputRefView,
    pub position: nat,
}

pub struct VersionChangeView {
    pub id: Seq<char>,
    pub before_version: Seq<char>,
    pub after_version: Seq<char>,
}

pub struct MovedView {
    pub id: Seq<char>,
    pub version: Seq<char>,
    pub before_pos: nat,
    pub after_pos: nat,
}

pub struct StructuralView {
    pub a_id: Seq<char>,
    pub b_id: Seq<char>,
    pub added: Seq<PositionedView>,
    pub removed: Seq<PositionedView>,
    pub version_changed: Seq<VersionChangeView>,
    pub moved: Seq<MovedView>,
    pub recipes_equal: bool,
}

pub struct FieldChangeView {
    pub field: Seq<char>,
    pub before: Seq<char>,
    pub after: Seq<char>,
}

pub struct ContentView {
    pub a_id: Seq<char>,
    pub b_id: Seq<char>,
    pub field_changes: Seq<FieldChangeView>,
    pub body_unified_diff: Seq<char>,
    pub bodies_equal: bool,
}

pub enum DiffView {
    Content(ContentView),
    StructuralDiff(StructuralView),
}

impl View for PositionedInput {
    type V = PositionedView;

    open spec fn view(&self) -> PositionedView {
        PositionedView { input: self.input@, position: self.position as nat }
    }
}

impl View for VersionChange {
    type V = VersionChangeView;

    open spec fn view(&self) -> VersionChangeView {
        VersionChangeView {
            id: self.id@,
            before_version: self.before_version@,
            after_version: self.after_version@,
        }
    }
}

impl View for MovedInput {
    type V = MovedView;

    open spec fn view(&self) -> MovedView {
        MovedView {
            id: self.id@,
            version: self.version@,
            before_pos: self.before_pos as nat,
            after_pos: self.after_pos as nat,
        }
    }
}

impl View for StructuralDiff {
    type V = StructuralView;

    open spec fn view(&self) -> StructuralView {
        StructuralView {
            a_id: self.a_id@,
            b_id: self.b_id@,
            added: self.added@.map_values(|p: PositionedInput| p@),
            removed: self.removed@.map_values(|p: PositionedInput| p@),
            version_changed: self.version_changed@.map_values(|v: VersionChange| v@),
            moved: self.moved@.map_values(|m: MovedInput| m@),
            recipes_equal: self.recipes_equal,
        }
    }
}

impl View for FieldChange {
    type V = FieldChangeView;

    open spec fn view(&self) -> FieldChangeView {
        FieldChangeView { field: self.field@, before: self.before@, after: self.after@ }
    }
}

impl View for ContentDiff {
    type V = ContentView;

    open spec fn view(&self) -> ContentView {
        ContentView {
            a_id: self.a_id@,
            b_id: self.b_id@,
            field_changes: self.field_changes@.map_values(|f: FieldChange| f@),
            body_unified_diff: self.body_unified_diff@,
            bodies_equal: self.bodies_equal,
        }
    }
}

impl View for DiffReport {
    type V = DiffView;

    open spec fn view(&self) -> DiffView {
        match self {
            DiffReport::Content(c) => DiffView::Content(c@),
            DiffReport::StructuralDiff(s) => DiffView::StructuralDiff(s@),
        }
    }
}

/// Index of the last input of `s` with `id`, or `-1` if none has it: the
/// entry a lookup by id keeps when ids repeat.
pub open spec fn last_pos(s: Seq<InputRefView>, id: Seq<char>) -> int
    decreases s.len(),
{
    if s.len() == 0 {
        -1
    } else if s.last().id == id {
        s.len() - 1
    } else {
        last_pos(s.drop_last(), id)
    }
}

/// The inputs among the first `n` of `b` whose id `a` lacks.
pub open spec fn added_upto(a: Seq<InputRefView>, b: Seq<InputRefView>, n: nat) -> Seq<PositionedView>
    decreases n,
{
    if n == 0 {
        seq![]
    } else {
        let j = n - 1;
        let prev = added_upto(a, b, (n - 1) as nat);
        if last_pos(a, b[j].id) < 0 {
            prev.push(PositionedView { input: b[j], position: j as nat })
        } else {
            prev
        }
    }
}

/// The inputs among the first `n` of `a` whose id `b` lacks.
pub open spec fn removed_upto(a: Seq<InputRefView>, b: Seq<InputRefView>, n: nat) -> Seq<PositionedView>
    decreases n,
{
    if n == 0 {
        seq![]
    } else {
        let k = n - 1;
        let prev = removed_upto(a, b, (n - 1) as nat);
        if last_pos(b, a[k].id) < 0 {
            prev.push(PositionedView { input: a[k], position: k as nat })
        } else {
            prev
        }
    }
}

/// The inputs among the first `n` of `b` that `a` holds at another version.
pub open spec fn version_changed_upto(a: Seq<InputRefView>, b: Seq<InputRefView>, n: nat) -> Seq<
    VersionChangeView,
>
    decreases n,
{
    if n == 0 {
        seq![]
    } else {
        let j = n - 1;
        let prev = version_changed_upto(a, b, (n - 1) as nat);
        let k = last_pos(a, b[j].id);
        if k >= 0 && a[k].version != b[j].version {
            prev.push(
                VersionChangeView {
                    id: b[j].id,
                    before_version: a[k].version,
                    after_version: b[j].version,
                },
            )
        } else {
            prev
        }
    }
}

/// The inputs among the first `n` of `b` that `a` holds at another index.
pub open spec fn moved_upto(a: Seq<InputRefView>, b: Seq<InputRefView>, n: nat) -> Seq<MovedView>
    decreases n,
{
    if n == 0 {
        seq![]
    } else {
        let j = n - 1;
        let prev = moved_upto(a, b, (n - 1) as nat);
        let k = last_pos(a, b[j].id);
        if k >= 0 && k != j {
            prev.push(
                MovedView {
                    id: b[j].id,
                    version: b[j].version,
                    before_pos: k as nat,
                    after_pos: j as nat,
                },
            )
        } else {
            prev
        }
    }
}

/// The structural diff of recipe `a` (before) against recipe `b` (after).
pub open spec fn structural_spec(
    a_id: Seq<char>,
    b_id: Seq<char>,
    a: Seq<InputRefView>,
    b: Seq<InputRefView>,
) -> StructuralView {
    let added = added_upto(a, b, b.len());
    let removed = removed_upto(a, b, a.len());
    let version_changed = version_changed_upto(a, b, b.len());
    let moved = moved_upto(a, b, b.len());
    StructuralView {
        a_id,
        b_id,
        added,
        removed,
        version_changed,
        moved,
        recipes_equal: added.len() == 0 && removed.len() == 0 && version_changed.len() == 0
            && moved.len() == 0,
    }
}

/// The recipe of a compound; an element without one has an empty recipe.
pub open spec fn recipe_of(e: ElementView) -> Seq<InputRefView> {
    match e.header.composed_of {
        Some(v) => v,
        None => seq![],
    }
}

fn last_pos_exec(s: &Vec<InputRef>, id: &String) -> (r: Option<usize>)
    ensures
        match r {
            Some(k) => k < s@.len() && last_pos(inputs_view(s@), id@) == k,
            None => last_pos(inputs_view(s@), id@) == -1,
        },
{
    let ghost sv = inputs_view(s@);
    let mut i: usize = s.len();
    assert(sv.take(i as int) =~= sv);
    while i > 0
        invariant
            i <= s@.len(),
            sv == inputs_view(s@),
            last_pos(sv, id@) == last_pos(sv.take(i as int), id@),
        decreases i,
    {
        assert(sv.take(i as int).last() == s@[i - 1]@);
        if s[i - 1].id == *id {
            return Some(i - 1);
        }
        assert(sv.take(i as int).drop_last() =~= sv.take(i - 1));
        i -= 1;
    }
    None
}

/// The structural diff of two recipes: what `b` added, what it dropped,
/// which inputs changed version and which changed index (lookups by id
/// keep the last entry of a repeated id).
pub fn structural_diff(a_id: &String, b_id: &String, a: &Vec<InputRef>, b: &Vec<InputRef>) -> (d:
    StructuralDiff)
    ensures
        d@ == structural_spec(a_id@, b_id@, inputs_view(a@), inputs_view(b@)),
{
    let ghost av = inputs_view(a@);
    let ghost bv = inputs_view(b@);
    let mut added: Vec<PositionedInput> = Vec::new();
    let mut version_changed: Vec<VersionChange> = Vec::new();
    let mut moved: Vec<MovedInput> = Vec::new();
    let mut j: usize = 0;
    while j < b.len()
        invariant
            j <= b@.len(),
            av == inputs_view(a@),
            bv == inputs_view(b@),
            added@.map_values(|p: PositionedInput| p@) == added_upto(av, bv, j as nat),
            version_changed@.map_values(|v: VersionChange| v@) == version_changed_upto(
                av,
                bv,
                j as nat,
            ),
            moved@.map_values(|m: MovedInput| m@) == moved_upto(av, bv, j as nat),
        decreases b.len() - j,
    {
        let input = &b[j];
        assert(bv[j as int] == input@);
        let ghost a0 = added@.map_values(|p: PositionedInput| p@);
        let ghost v0 = version_changed@.map_values(|v: VersionChange| v@);
        let ghost m0 = moved@.map_values(|m: MovedInput| m@);
        match last_pos_exec(a, &input.id) {
            None => {
                added.push(PositionedInput { input: input.clone(), position: j });
                assert(added@.map_values(|p: PositionedInput| p@) =~= a0.push(
                    PositionedView { input: bv[j as int], position: j as nat },
                ));
            },
            Some(k) => {
                assert(av[k as int] == a@[k as int]@);
                if a[k].version != input.version {
                    version_changed.push(
                        VersionChange {
                            id: input.id.clone(),
                            before_version: a[k].version.clone(),
                            after_version: input.version.clone(),
                        },
                    );
                    assert(version_changed@.map_values(|v: VersionChange| v@) =~= v0.push(
                        VersionChangeView {
                            id: bv[j as int].id,
                            before_version: av[k as int].version,
                            after_version: bv[j as int].version,
                        },
                    ));
                }
                if k != j {
                    moved.push(
                        MovedInput {
                            id: input.id.clone(),
                            version: input.version.clone(),
                            before_pos: k,
                            after_pos: j,
                        },
                    );
                    assert(moved@.map_values(|m: MovedInput| m@) =~= m0.push(
                        MovedView {
                            id: bv[j as int].id,
                            version: bv[j as int].version,
                            before_pos: k as nat,
                            after_pos: j as nat,
                        },
                    ));
                }
            },
        }
        j += 1;
    }
    let mut removed: Vec<PositionedInput> = Vec::new();
    let mut k: usize = 0;
    while k < a.len()
        invariant
            k <= a@.len(),
            av == inputs_view(a@),
            bv == inputs_view(b@),
            removed@.map_values(|p: PositionedInput| p@) == removed_upto(av, bv, k as nat),
        decreases a.len() - k,
    {
        let input = &a[k];
        assert(av[k as int] == input@);
        let ghost r0 = removed@.map_values(|p: PositionedInput| p@);
        if last_pos_exec(b, &input.id).is_none() {
            removed.push(PositionedInput { input: input.clone(), position: k });
            assert(removed@.map_values(|p: PositionedInput| p@) =~= r0.push(
                PositionedView { input: av[k as int], position: k as nat },
            ));
        }
        k += 1;
    }
    let recipes_equal = added.len() == 0 && removed.len() == 0 && version_changed.len() == 0
        && moved.len() == 0;
    StructuralDiff {
        a_id: a_id.clone(),
        b_id: b_id.clone(),
        added,
        removed,
        version_changed,
        moved,
        recipes_equal,
    }
}

/// A named field's change, if its values differ.
pub open spec fn field_change(field: Seq<char>, before: Seq<char>, after: Seq<char>) -> Seq<
    FieldChangeView,
> {
    if before != after {
        seq![FieldChangeView { field, before, after }]
    } else {
        seq![]
    }
}

/// The content diff of two atoms, given the unified diff of their bodies:
/// changes to `name`, `version` and `meta`, in that order, and whether the
/// bodies are equal.
pub open spec fn content_spec(a: ElementView, b: ElementView, body_diff: Seq<char>) -> ContentView {
    ContentView {
        a_id: a.header.id,
        b_id: b.header.id,
        field_changes: field_change("name"@, a.header.name, b.header.name) + field_change(
            "version"@,
            a.header.version,
            b.header.version,
        ) + field_change("meta"@, a.header.meta, b.header.meta),
        body_unified_diff: body_diff,
        bodies_equal: a.body == b.body,
    }
}

/// The unified diff that `similar` renders for two texts compared line by
/// line, with the given file names in its header.
pub uninterp spec fn unified_diff_of(
    old_text: Seq<char>,
    new_text: Seq<char>,
    old_name: Seq<char>,
    new_name: Seq<char>,
) -> Seq<char>;

/// `similar::TextDiff::from_lines(old, new).unified_diff().header(old_name,
/// new_name).to_string()`. The diff has no deadline, so its text depends on
/// the four arguments alone; the contract names it and says nothing more.
#[verifier::external_body]
fn unified_diff_text(old_text: &str, new_text: &str, old_name: &str, new_name: &str) -> (s: String)
    ensures
        s@ == unified_diff_of(old_text@, new_text@, old_name@, new_name@),
{
    similar::TextDiff::from_lines(old_text, new_text).unified_diff().header(old_name, new_name).to_string()
}

fn track_field(out: &mut Vec<FieldChange>, field: &str, before: &String, after: &String)
    ensures
        final(out)@.map_values(|f: FieldChange| f@) == old(out)@.map_values(|f: FieldChange| f@)
            + field_change(field@, before@, after@),
{
    let ghost o0 = out@.map_values(|f: FieldChange| f@);
    if *before != *after {
        out.push(
            FieldChange { field: String::from_str(field), before: before.clone(), after: after.clone() },
        );
        assert(out@.map_values(|f: FieldChange| f@) =~= o0 + field_change(field@, before@, after@));
    } else {
        assert(o0 + field_change(field@, before@, after@) =~= o0);
    }
}

/// The content diff of two atoms, given the unified diff of their bodies.
pub fn content_diff_with(a: &PromptElement, b: &PromptElement, body_unified_diff: String) -> (d:
    ContentDiff)
    ensures
        d@ == content_spec(a@, b@, body_unified_diff@),
{
    let mut field_changes: Vec<FieldChange> = Vec::new();
    assert(field_changes@.map_values(|f: FieldChange| f@) =~= Seq::<FieldChangeView>::empty());
    track_field(&mut field_changes, "name", &a.header.name, &b.header.name);
    track_field(&mut field_changes, "version", &a.header.version, &b.header.version);
    track_field(&mut field_changes, "meta", &a.header.meta, &b.header.meta);
    let bodies_equal = a.body == b.body;
    let d = ContentDiff {
        a_id: a.header.id.clone(),
        b_id: b.header.id.clone(),
        field_changes,
        body_unified_diff,
        bodies_equal,
    };
    assert(d@.field_changes =~= content_spec(a@, b@, body_unified_diff@).field_changes);
    d
}

fn content_diff(a: &PromptElement, b: &PromptElement) -> (d: ContentDiff)
    ensures
        d@ == content_spec(a@, b@, unified_diff_of(a@.body, b@.body, a@.header.id, b@.header.id)),
{
    let text = unified_diff_text(
        a.body.as_str(),
        b.body.as_str(),
        a.header.id.as_str(),
        b.header.id.as_str(),
    );
    content_diff_with(a, b, text)
}

/// The name of a kind in a refusal.
fn kind_label(k: PromptElementKind) -> (s: &'static str)
    ensures
        s@ == kind_name(k),
{
    kind_str(&k)
}

/// The comparison of two elements: atoms get a content diff, compounds a
/// structural diff of their recipes, and an atom against a compound is
/// refused with both kinds named.
pub open spec fn compare_spec(a: ElementView, b: ElementView) -> core::result::Result<
    DiffView,
    ErrorView,
> {
    if a.header.kind == PromptElementKind::Atom && b.header.kind == PromptElementKind::Atom {
        Ok(
            DiffView::Content(
                content_spec(a, b, unified_diff_of(a.body, b.body, a.header.id, b.header.id)),
            ),
        )
    } else if a.header.kind == PromptElementKind::Compound && b.header.kind
        == PromptElementKind::Compound {
        Ok(
            DiffView::StructuralDiff(
                structural_spec(a.header.id, b.header.id, recipe_of(a), recipe_of(b)),
            ),
        )
    } else {
        Err(
            ErrorView::KindMismatch {
                a_id: a.header.id,
                a_kind: kind_name(a.header.kind),
                b_id: b.header.id,
                b_kind: kind_name(b.header.kind),
            },
        )
    }
}

/// One of the three metadata fields an atom comparison tracks changed
/// from `before` to `after`.
pub open spec fn tracked_change(a: ElementView, b: ElementView, f: FieldChangeView) -> bool {
    &&& f.before != f.after
    &&& (f.field == "name"@ && f.before == a.header.name && f.after == b.header.name)
        || (f.field == "version"@ && f.before == a.header.version && f.after == b.header.version)
        || (f.field == "meta"@ && f.before == a.header.meta && f.after == b.header.meta)
}

/// Comparing goes by kind: two atoms give a content diff that lists each of
/// `name`, `version` and `meta` exactly when it differs (with both values),
/// nothing else, and says whether the bodies are equal; two compounds give
/// the structural diff of their recipes; an atom and a compound are
/// refused with both kinds named.
pub proof fn lemma_compare_by_kind(a: ElementView, b: ElementView)
    ensures
        a.header.kind == PromptElementKind::Atom && b.header.kind == PromptElementKind::Atom ==> {
            &&& compare_spec(a, b) matches Ok(DiffView::Content(c))
            &&& c.a_id == a.header.id && c.b_id == b.header.id
            &&& (c.bodies_equal <==> a.body == b.body)
            &&& forall|t: int| 0 <= t < c.field_changes.len() ==> tracked_change(a, b, #[trigger] c.field_changes[t])
            &&& (a.header.name != b.header.name <==> c.field_changes.contains(
                FieldChangeView { field: "name"@, before: a.header.name, after: b.header.name },
            ))
            &&& (a.header.version != b.header.version <==> c.field_changes.contains(
                FieldChangeView { field: "version"@, before: a.header.version, after: b.header.version },
            ))
            &&& (a.header.meta != b.header.meta <==> c.field_changes.contains(
                FieldChangeView { field: "meta"@, before: a.header.meta, after: b.header.meta },
            ))
        },
        a.header.kind == PromptElementKind::Compound && b.header.kind == PromptElementKind::Compound
            ==> compare_spec(a, b) == Ok::<DiffView, ErrorView>(
            DiffView::StructuralDiff(structural_spec(a.header.id, b.header.id, recipe_of(a), recipe_of(b))),
        ),
        a.header.kind != b.header.kind ==> compare_spec(a, b) == Err::<DiffView, ErrorView>(
            ErrorView::KindMismatch {
                a_id: a.header.id,
                a_kind: if a.header.kind == PromptElementKind::Atom { "atom"@ } else { "compound"@ },
                b_id: b.header.id,
                b_kind: if b.header.kind == PromptElementKind::Atom { "atom"@ } else { "compound"@ },
            },
        ),
{
    reveal_strlit("name");
    reveal_strlit("version");
    reveal_strlit("meta");
    assert("name"@.len() == 4 && "version"@.len() == 7 && "meta"@.len() == 4);
    assert("name"@[0] == 'n' && "meta"@[0] == 'm');
    if a.header.kind == PromptElementKind::Atom && b.header.kind == PromptElementKind::Atom {
        let n = field_change("name"@, a.header.name, b.header.name);
        let v = field_change("version"@, a.header.version, b.header.version);
        let m = field_change("meta"@, a.header.meta, b.header.meta);
        let fc = n + v + m;
        assert forall|t: int| 0 <= t < fc.len() implies tracked_change(a, b, #[trigger] fc[t]) by {
            if t < n.len() {
                assert(fc[t] == n[t]);
            } else if t < n.len() + v.len() {
                assert(fc[t] == v[t - n.len()]);
            } else {
                assert(fc[t] == m[t - n.len() - v.len()]);
            }
        }
        let fn_ = FieldChangeView { field: "name"@, before: a.header.name, after: b.header.name };
        let fv = FieldChangeView { field: "version"@, before: a.header.version, after: b.header.version };
        let fm = FieldChangeView { field: "meta"@, before: a.header.meta, after: b.header.meta };
        if a.header.name != b.header.name {
            assert(fc[0] == fn_);
        }
        if a.header.version != b.header.version {
            assert(fc[n.len() as int] == fv);
        }
        if a.header.meta != b.header.meta {
            assert(fc[(n.len() + v.len()) as int] == fm);
        }
        if fc.contains(fn_) {
            let t = choose|t: int| 0 <= t < fc.len() && fc[t] == fn_;
            assert(tracked_change(a, b, fc[t]));
        }
        if fc.contains(fv) {
            let t = choose|t: int| 0 <= t < fc.len() && fc[t] == fv;
            assert(tracked_change(a, b, fc[t]));
        }
        if fc.contains(fm) {
            let t = choose|t: int| 0 <= t < fc.len() && fc[t] == fm;
            assert(tracked_change(a, b, fc[t]));
        }
    }
}

/// Compare two prompt elements by kind: atom with atom is a content diff,
/// compound with compound a structural diff, a mix is an error. A compound
/// carries its recipe (`composed_of`), as every parsed compound does.
pub fn compare(a: &PromptElement, b: &PromptElement) -> (res: Result<DiffReport>)
    requires
        a.header.kind == PromptElementKind::Compound && b.header.kind == PromptElementKind::Compound
            ==> a.header.composed_of is Some && b.header.composed_of is Some,
    ensures
        match res {
            Ok(d) => compare_spec(a@, b@) == Ok::<DiffView, ErrorView>(d@),
            Err(e) => compare_spec(a@, b@) == Err::<DiffView, ErrorView>(e@),
        },
{
    match (a.header.kind, b.header.kind) {
        (PromptElementKind::Atom, PromptElementKind::Atom) => {
            Ok(DiffReport::Content(content_diff(a, b)))
        },
        (PromptElementKind::Compound, PromptElementKind::Compound) => {
            let a_inputs = a.header.composed_of.as_ref().unwrap();
            let b_inputs = b.header.composed_of.as_ref().unwrap();
            Ok(
                DiffReport::StructuralDiff(
                    structural_diff(&a.header.id, &b.header.id, a_inputs, b_inputs),
                ),
            )
        },
        (a_kind, b_kind) => Err(
            OovraError::KindMismatch {
                a_id: a.header.id.clone(),
                a_kind: kind_label(a_kind),
                b_id: b.header.id.clone(),
                b_kind: kind_label(b_kind),
            },
        ),
    }
}

/// No two inputs of a recipe share an id.
pub open spec fn distinct_ids(s: Seq<InputRefView>) -> bool {
    forall|i: int, j: int|
        0 <= i < s.len() && 0 <= j < s.len() && i != j ==> #[trigger] s[i].id != #[trigger] s[j].id
}

proof fn lemma_last_pos(s: Seq<InputRefView>, id: Seq<char>)
    ensures
        -1 <= last_pos(s, id) < s.len(),
        last_pos(s, id) >= 0 ==> s[last_pos(s, id)].id == id,
        forall|j: int| last_pos(s, id) < j < s.len() ==> #[trigger] s[j].id != id,
    decreases s.len(),
{
    if s.len() > 0 && s.last().id != id {
        lemma_last_pos(s.drop_last(), id);
        assert forall|j: int| last_pos(s, id) < j < s.len() implies #[trigger] s[j].id != id by {
            if j < s.len() - 1 {
                assert(s[j] == s.drop_last()[j]);
            }
        }
    }
}

/// In a recipe with distinct ids, an input's id is last seen at its own
/// index.
proof fn lemma_last_pos_distinct(s: Seq<InputRefView>, k: int)
    requires
        distinct_ids(s),
        0 <= k < s.len(),
    ensures
        last_pos(s, s[k].id) == k,
{
    lemma_last_pos(s, s[k].id);
    let p = last_pos(s, s[k].id);
    if p != k {
        if p < 0 {
            assert(s[k].id != s[k].id);
        } else {
            assert(s[p].id == s[k].id);
        }
    }
}

/// No input of `a` has `id`.
pub open spec fn absent_from(a: Seq<InputRefView>, id: Seq<char>) -> bool {
    forall|k: int| 0 <= k < a.len() ==> #[trigger] a[k].id != id
}

proof fn lemma_last_pos_absent(a: Seq<InputRefView>, id: Seq<char>)
    ensures
        last_pos(a, id) < 0 <==> absent_from(a, id),
{
    lemma_last_pos(a, id);
    if last_pos(a, id) >= 0 {
        assert(a[last_pos(a, id)].id == id);
    }
}

proof fn lemma_added_upto_exact(a: Seq<InputRefView>, b: Seq<InputRefView>, n: nat)
    requires
        n <= b.len(),
    ensures
        forall|t: int|
            0 <= t < added_upto(a, b, n).len() ==> {
                let q = #[trigger] added_upto(a, b, n)[t];
                &&& q.position < n
                &&& q.input == b[q.position as int]
                &&& absent_from(a, q.input.id)
            },
        forall|s: int, t: int|
            0 <= s < t < added_upto(a, b, n).len() ==> (#[trigger] added_upto(a, b, n)[s]).position
                < (#[trigger] added_upto(a, b, n)[t]).position,
        forall|j: int|
            0 <= j < n && absent_from(a, #[trigger] b[j].id) ==> added_upto(a, b, n).contains(
                PositionedView { input: b[j], position: j as nat },
            ),
    decreases n,
{
    if n > 0 {
        let m = (n - 1) as nat;
        lemma_added_upto_exact(a, b, m);
        let prev = added_upto(a, b, m);
        let j = m as int;
        lemma_last_pos_absent(a, b[j].id);
        let cur = added_upto(a, b, n);
        let q = PositionedView { input: b[j], position: j as nat };
        if absent_from(a, b[j].id) {
            assert(cur == prev.push(q));
            assert(cur[prev.len() as int] == q);
            assert forall|t: int| 0 <= t < prev.len() implies cur[t] == #[trigger] prev[t] by {}
            assert forall|i: int| 0 <= i < n && absent_from(a, #[trigger] b[i].id) implies cur.contains(
                PositionedView { input: b[i], position: i as nat },
            ) by {
                if i < m {
                    let t = choose|t: int| 0 <= t < prev.len() && prev[t] == PositionedView {
                        input: b[i],
                        position: i as nat,
                    };
                    assert(cur[t] == prev[t]);
                } else {
                    assert(cur[prev.len() as int] == q);
                }
            }
        } else {
            assert(cur == prev);
        }
    }
}

/// What compare lists as added is exactly the inputs of the after-recipe
/// whose id the before-recipe lacks, each with its position, in recipe
/// order: an input at position `j` of `b` is listed, as that input at `j`,
/// if and only if no input of `a` has its id.
pub proof fn lemma_structural_added(a_id: Seq<char>, b_id: Seq<char>, a: Seq<InputRefView>, b: Seq<InputRefView>)
    ensures
        forall|j: int|
            0 <= j < b.len() ==> (absent_from(a, #[trigger] b[j].id) <==> structural_spec(
                a_id,
                b_id,
                a,
                b,
            ).added.contains(PositionedView { input: b[j], position: j as nat })),
        forall|t: int|
            0 <= t < structural_spec(a_id, b_id, a, b).added.len() ==> {
                let q = #[trigger] structural_spec(a_id, b_id, a, b).added[t];
                &&& q.position < b.len()
                &&& q.input == b[q.position as int]
                &&& absent_from(a, q.input.id)
            },
        forall|s: int, t: int|
            0 <= s < t < structural_spec(a_id, b_id, a, b).added.len() ==> (
            #[trigger] structural_spec(a_id, b_id, a, b).added[s]).position < (
            #[trigger] structural_spec(a_id, b_id, a, b).added[t]).position,
{
    lemma_added_upto_exact(a, b, b.len());
    let ad = structural_spec(a_id, b_id, a, b).added;
    assert forall|j: int|
        0 <= j < b.len() && ad.contains(PositionedView { input: b[j], position: j as nat }) implies absent_from(
        a,
        #[trigger] b[j].id,
    ) by {
        let t = choose|t: int| 0 <= t < ad.len() && ad[t] == PositionedView { input: b[j], position: j as nat };
        assert(absent_from(a, ad[t].input.id));
    }
}

proof fn lemma_removed_is_added(a: Seq<InputRefView>, b: Seq<InputRefView>, n: nat)
    ensures
        removed_upto(a, b, n) == added_upto(b, a, n),
    decreases n,
{
    if n > 0 {
        lemma_removed_is_added(a, b, (n - 1) as nat);
    }
}

/// What compare lists as removed is exactly the inputs of the
/// before-recipe whose id the after-recipe lacks, each with its position,
/// in recipe order.
pub proof fn lemma_structural_removed(a_id: Seq<char>, b_id: Seq<char>, a: Seq<InputRefView>, b: Seq<InputRefView>)
    ensures
        forall|k: int|
            0 <= k < a.len() ==> (absent_from(b, #[trigger] a[k].id) <==> structural_spec(
                a_id,
                b_id,
                a,
                b,
            ).removed.contains(PositionedView { input: a[k], position: k as nat })),
        forall|t: int|
            0 <= t < structural_spec(a_id, b_id, a, b).removed.len() ==> {
                let q = #[trigger] structural_spec(a_id, b_id, a, b).removed[t];
                &&& q.position < a.len()
                &&& q.input == a[q.position as int]
                &&& absent_from(b, q.input.id)
            },
        forall|s: int, t: int|
            0 <= s < t < structural_spec(a_id, b_id, a, b).removed.len() ==> (
            #[trigger] structural_spec(a_id, b_id, a, b).removed[s]).position < (
            #[trigger] structural_spec(a_id, b_id, a, b).removed[t]).position,
{
    lemma_removed_is_added(a, b, a.len());
    lemma_structural_added(b_id, a_id, b, a);
}

/// `k` is the last position of `a` holding `id`.
pub open spec fn last_at(a: Seq<InputRefView>, k: int, id: Seq<char>) -> bool {
    &&& 0 <= k < a.len()
    &&& a[k].id == id
    &&& forall|m: int| k < m < a.len() ==> #[trigger] a[m].id != id
}

proof fn lemma_last_at(a: Seq<InputRefView>, k: int, id: Seq<char>)
    ensures
        last_at(a, k, id) <==> last_pos(a, id) == k && k >= 0,
{
    lemma_last_pos(a, id);
    let p = last_pos(a, id);
    if last_at(a, k, id) && p != k {
        if p < k {
            assert(a[k].id != id);
        } else {
            assert(a[p].id != id);
        }
    }
}

proof fn lemma_changed_upto_exact(a: Seq<InputRefView>, b: Seq<InputRefView>, n: nat)
    requires
        n <= b.len(),
    ensures
        forall|t: int|
            0 <= t < version_changed_upto(a, b, n).len() ==> exists|j: int, k: int|
                0 <= j < n && last_at(a, k, b[j].id) && a[k].version != b[j].version
                    && #[trigger] version_changed_upto(a, b, n)[t] == (VersionChangeView {
                    id: b[j].id,
                    before_version: a[k].version,
                    after_version: b[j].version,
                }),
        forall|j: int, k: int|
            0 <= j < n && #[trigger] last_at(a, k, b[j].id) && a[k].version != b[j].version
                ==> version_changed_upto(a, b, n).contains(
                VersionChangeView { id: b[j].id, before_version: a[k].version, after_version: b[j].version },
            ),
    decreases n,
{
    if n > 0 {
        let m = (n - 1) as nat;
        lemma_changed_upto_exact(a, b, m);
        let prev = version_changed_upto(a, b, m);
        let cur = version_changed_upto(a, b, n);
        let j0 = m as int;
        let k0 = last_pos(a, b[j0].id);
        lemma_last_pos(a, b[j0].id);
        if k0 >= 0 {
            lemma_last_at(a, k0, b[j0].id);
        }
        assert forall|j: int, k: int|
            0 <= j < n && #[trigger] last_at(a, k, b[j].id) && a[k].version != b[j].version implies cur.contains(
            VersionChangeView { id: b[j].id, before_version: a[k].version, after_version: b[j].version },
        ) by {
            lemma_last_at(a, k, b[j].id);
            if j < m {
                let t = choose|t: int| 0 <= t < prev.len() && prev[t] == VersionChangeView {
                    id: b[j].id,
                    before_version: a[k].version,
                    after_version: b[j].version,
                };
                if cur != prev {
                    assert(cur[t] == prev[t]);
                }
            } else {
                assert(cur[prev.len() as int] == VersionChangeView {
                    id: b[j].id,
                    before_version: a[k].version,
                    after_version: b[j].version,
                });
            }
        }
        assert forall|t: int| 0 <= t < cur.len() implies exists|j: int, k: int|
            0 <= j < n && last_at(a, k, b[j].id) && a[k].version != b[j].version && #[trigger] cur[t]
                == (VersionChangeView {
                id: b[j].id,
                before_version: a[k].version,
                after_version: b[j].version,
            }) by {
            if t < prev.len() {
                assert(cur[t] == prev[t]);
                let (j, k) = choose|j: int, k: int|
                    0 <= j < m && last_at(a, k, b[j].id) && a[k].version != b[j].version
                        && #[trigger] prev[t] == (VersionChangeView {
                        id: b[j].id,
                        before_version: a[k].version,
                        after_version: b[j].version,
                    });
                assert(0 <= j < n);
            } else {
                assert(last_at(a, k0, b[j0].id));
            }
        }
    }
}

/// `q` is a version change an input of `b` makes to the last input of `a`
/// with its id.
pub open spec fn changed_entry(a: Seq<InputRefView>, b: Seq<InputRefView>, q: VersionChangeView) -> bool {
    exists|j: int, k: int|
        0 <= j < b.len() && #[trigger] last_at(a, k, b[j].id) && a[k].version != b[j].version && q
            == (VersionChangeView { id: b[j].id, before_version: a[k].version, after_version: b[j].version })
}

/// What compare lists as version-changed: for every input of the
/// after-recipe whose id the before-recipe holds (its last input with that
/// id) at another version, an entry with the id and both versions; and
/// nothing else.
pub proof fn lemma_structural_version_changed(
    a_id: Seq<char>,
    b_id: Seq<char>,
    a: Seq<InputRefView>,
    b: Seq<InputRefView>,
)
    ensures
        forall|j: int, k: int|
            0 <= j < b.len() && #[trigger] last_at(a, k, b[j].id) ==> (a[k].version != b[j].version
                <==> structural_spec(a_id, b_id, a, b).version_changed.contains(
                VersionChangeView { id: b[j].id, before_version: a[k].version, after_version: b[j].version },
            )),
        forall|t: int|
            0 <= t < structural_spec(a_id, b_id, a, b).version_changed.len() ==> changed_entry(
                a,
                b,
                #[trigger] structural_spec(a_id, b_id, a, b).version_changed[t],
            ),
{
    lemma_changed_upto_exact(a, b, b.len());
    let vc = structural_spec(a_id, b_id, a, b).version_changed;
    assert(vc == version_changed_upto(a, b, b.len()));
    assert forall|t: int| 0 <= t < vc.len() implies changed_entry(a, b, #[trigger] vc[t]) by {
        let (j, k) = choose|j: int, k: int|
            0 <= j < b.len() && #[trigger] last_at(a, k, b[j].id) && a[k].version != b[j].version
                && #[trigger] version_changed_upto(a, b, b.len())[t] == (VersionChangeView {
                id: b[j].id,
                before_version: a[k].version,
                after_version: b[j].version,
            });
        assert(last_at(a, k, b[j].id));
    }
    assert forall|j: int, k: int|
        0 <= j < b.len() && #[trigger] last_at(a, k, b[j].id) && vc.contains(
            VersionChangeView { id: b[j].id, before_version: a[k].version, after_version: b[j].version },
        ) implies a[k].version != b[j].version by {
        let t = choose|t: int| 0 <= t < vc.len() && vc[t] == VersionChangeView {
            id: b[j].id,
            before_version: a[k].version,
            after_version: b[j].version,
        };
        assert(changed_entry(a, b, vc[t]));
        let (j2, k2) = choose|j2: int, k2: int|
            0 <= j2 < b.len() && #[trigger] last_at(a, k2, b[j2].id) && a[k2].version != b[j2].version
                && vc[t] == (VersionChangeView {
                id: b[j2].id,
                before_version: a[k2].version,
                after_version: b[j2].version,
            });
        lemma_last_at(a, k, b[j].id);
        lemma_last_at(a, k2, b[j2].id);
    }
}

/// `q` is a move: an input of `b` at position `j` whose id the last input
/// of `a` with that id holds at another position `k`.
pub open spec fn moved_entry(a: Seq<InputRefView>, b: Seq<InputRefView>, q: MovedView) -> bool {
    exists|j: int, k: int|
        0 <= j < b.len() && #[trigger] last_at(a, k, b[j].id) && k != j && q == (MovedView {
            id: b[j].id,
            version: b[j].version,
            before_pos: k as nat,
            after_pos: j as nat,
        })
}

proof fn lemma_moved_upto_exact(a: Seq<InputRefView>, b: Seq<InputRefView>, n: nat)
    requires
        n <= b.len(),
    ensures
        forall|t: int|
            0 <= t < moved_upto(a, b, n).len() ==> exists|j: int, k: int|
                0 <= j < n && #[trigger] last_at(a, k, b[j].id) && k != j && #[trigger] moved_upto(a, b, n)[t]
                    == (MovedView {
                    id: b[j].id,
                    version: b[j].version,
                    before_pos: k as nat,
                    after_pos: j as nat,
                }),
        forall|j: int, k: int|
            0 <= j < n && #[trigger] last_at(a, k, b[j].id) && k != j ==> moved_upto(a, b, n).contains(
                MovedView { id: b[j].id, version: b[j].version, before_pos: k as nat, after_pos: j as nat },
            ),
    decreases n,
{
    if n > 0 {
        let m = (n - 1) as nat;
        lemma_moved_upto_exact(a, b, m);
        let prev = moved_upto(a, b, m);
        let cur = moved_upto(a, b, n);
        let j0 = m as int;
        let k0 = last_pos(a, b[j0].id);
        lemma_last_pos(a, b[j0].id);
        if k0 >= 0 {
            lemma_last_at(a, k0, b[j0].id);
        }
        assert forall|j: int, k: int|
            0 <= j < n && #[trigger] last_at(a, k, b[j].id) && k != j implies cur.contains(
            MovedView { id: b[j].id, version: b[j].version, before_pos: k as nat, after_pos: j as nat },
        ) by {
            lemma_last_at(a, k, b[j].id);
            if j < m {
                let t = choose|t: int| 0 <= t < prev.len() && prev[t] == MovedView {
                    id: b[j].id,
                    version: b[j].version,
                    before_pos: k as nat,
                    after_pos: j as nat,
                };
                if cur != prev {
                    assert(cur[t] == prev[t]);
                }
            } else {
                assert(cur[prev.len() as int] == MovedView {
                    id: b[j].id,
                    version: b[j].version,
                    before_pos: k as nat,
                    after_pos: j as nat,
                });
            }
        }
        assert forall|t: int| 0 <= t < cur.len() implies exists|j: int, k: int|
            0 <= j < n && #[trigger] last_at(a, k, b[j].id) && k != j && #[trigger] cur[t] == (MovedView {
                id: b[j].id,
                version: b[j].version,
                before_pos: k as nat,
                after_pos: j as nat,
            }) by {
            if t < prev.len() {
                assert(cur[t] == prev[t]);
                let (j, k) = choose|j: int, k: int|
                    0 <= j < m && #[trigger] last_at(a, k, b[j].id) && k != j && prev[t] == (MovedView {
                        id: b[j].id,
                        version: b[j].version,
                        before_pos: k as nat,
                        after_pos: j as nat,
                    });
                assert(last_at(a, k, b[j].id));
            } else {
                assert(last_at(a, k0, b[j0].id));
            }
        }
    }
}

/// What compare lists as moved: every input of the after-recipe whose id
/// the before-recipe holds (its last input with that id) at another
/// position, with both positions; and nothing else.
pub proof fn lemma_structural_moved(a_id: Seq<char>, b_id: Seq<char>, a: Seq<InputRefView>, b: Seq<InputRefView>)
    ensures
        forall|j: int, k: int|
            0 <= j < b.len() && #[trigger] last_at(a, k, b[j].id) ==> (k != j <==> structural_spec(
                a_id,
                b_id,
                a,
                b,
            ).moved.contains(
                MovedView { id: b[j].id, version: b[j].version, before_pos: k as nat, after_pos: j as nat },
            )),
        forall|t: int|
            0 <= t < structural_spec(a_id, b_id, a, b).moved.len() ==> moved_entry(
                a,
                b,
                #[trigger] structural_spec(a_id, b_id, a, b).moved[t],
            ),
{
    lemma_moved_upto_exact(a, b, b.len());
    let mv = structural_spec(a_id, b_id, a, b).moved;
    assert(mv == moved_upto(a, b, b.len()));
    assert forall|t: int| 0 <= t < mv.len() implies moved_entry(a, b, #[trigger] mv[t]) by {
        let (j, k) = choose|j: int, k: int|
            0 <= j < b.len() && #[trigger] last_at(a, k, b[j].id) && k != j && moved_upto(a, b, b.len())[t]
                == (MovedView {
                id: b[j].id,
                version: b[j].version,
                before_pos: k as nat,
                after_pos: j as nat,
            });
        assert(last_at(a, k, b[j].id));
    }
    assert forall|j: int, k: int|
        0 <= j < b.len() && #[trigger] last_at(a, k, b[j].id) && mv.contains(
            MovedView { id: b[j].id, version: b[j].version, before_pos: k as nat, after_pos: j as nat },
        ) implies k != j by {
        let t = choose|t: int| 0 <= t < mv.len() && mv[t] == MovedView {
            id: b[j].id,
            version: b[j].version,
            before_pos: k as nat,
            after_pos: j as nat,
        };
        assert(moved_entry(a, b, mv[t]));
        let (j2, k2) = choose|j2: int, k2: int|
            0 <= j2 < b.len() && #[trigger] last_at(a, k2, b[j2].id) && k2 != j2 && mv[t] == (MovedView {
                id: b[j2].id,
                version: b[j2].version,
                before_pos: k2 as nat,
                after_pos: j2 as nat,
            });
    }
}

proof fn lemma_added_empty(a: Seq<InputRefView>, b: Seq<InputRefView>, n: nat)
    requires
        n <= b.len(),
    ensures
        added_upto(a, b, n).len() == 0 <==> forall|j: int| 0 <= j < n ==> last_pos(a, #[trigger] b[j].id) >= 0,
    decreases n,
{
    if n > 0 {
        lemma_added_empty(a, b, (n - 1) as nat);
    }
}

proof fn lemma_removed_empty(a: Seq<InputRefView>, b: Seq<InputRefView>, n: nat)
    requires
        n <= a.len(),
    ensures
        removed_upto(a, b, n).len() == 0 <==> forall|k: int| 0 <= k < n ==> last_pos(b, #[trigger] a[k].id) >= 0,
    decreases n,
{
    if n > 0 {
        lemma_removed_empty(a, b, (n - 1) as nat);
    }
}

proof fn lemma_changed_empty(a: Seq<InputRefView>, b: Seq<InputRefView>, n: nat)
    requires
        n <= b.len(),
    ensures
        version_changed_upto(a, b, n).len() == 0 <==> forall|j: int|
            0 <= j < n ==> (last_pos(a, #[trigger] b[j].id) >= 0 ==> a[last_pos(a, b[j].id)].version
                == b[j].version),
    decreases n,
{
    if n > 0 {
        lemma_changed_empty(a, b, (n - 1) as nat);
    }
}

proof fn lemma_moved_empty(a: Seq<InputRefView>, b: Seq<InputRefView>, n: nat)
    requires
        n <= b.len(),
    ensures
        moved_upto(a, b, n).len() == 0 <==> forall|j: int|
            0 <= j < n ==> (last_pos(a, #[trigger] b[j].id) >= 0 ==> last_pos(a, b[j].id) == j),
    decreases n,
{
    if n > 0 {
        lemma_moved_empty(a, b, (n - 1) as nat);
    }
}

/// Two recipes are reported equal exactly when they are the same sequence
/// of inputs, provided the first recipe names no id twice.
pub proof fn lemma_recipes_equal_iff(
    a_id: Seq<char>,
    b_id: Seq<char>,
    a: Seq<InputRefView>,
    b: Seq<InputRefView>,
)
    requires
        distinct_ids(a),
    ensures
        structural_spec(a_id, b_id, a, b).recipes_equal <==> a == b,
{
    lemma_added_empty(a, b, b.len());
    lemma_removed_empty(a, b, a.len());
    lemma_changed_empty(a, b, b.len());
    lemma_moved_empty(a, b, b.len());
    if a == b {
        assert forall|j: int| 0 <= j < b.len() implies last_pos(a, #[trigger] b[j].id) == j by {
            lemma_last_pos_distinct(a, j);
        }
        assert forall|k: int| 0 <= k < a.len() implies last_pos(b, #[trigger] a[k].id) >= 0 by {
            lemma_last_pos_distinct(a, k);
        }
    }
    if structural_spec(a_id, b_id, a, b).recipes_equal {
        assert forall|j: int| 0 <= j < b.len() implies j < a.len() && #[trigger] a[j] == b[j] by {
            lemma_last_pos(a, b[j].id);
            assert(last_pos(a, b[j].id) >= 0);
            assert(last_pos(a, b[j].id) == j);
        }
        assert forall|k: int| 0 <= k < a.len() implies #[trigger] last_pos(b, a[k].id) == k by {
            lemma_last_pos(b, a[k].id);
            let j = last_pos(b, a[k].id);
            assert(j >= 0);
            assert(b[j].id == a[k].id);
            assert(j < a.len() && a[j] == b[j]);
            if j != k {
                assert(a[j].id != a[k].id);
            }
        }
        if a.len() > b.len() {
            assert(last_pos(b, a[b.len() as int].id) == b.len());
            lemma_last_pos(b, a[b.len() as int].id);
        }
        assert(a =~= b);
    }
}

} // verus!
