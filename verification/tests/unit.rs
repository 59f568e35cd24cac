//! Module-level behaviour: delimiters, framing, parsing, validation,
//! kebab/semver/RFC 3339 checks, body levels, paths, the canvas, the
//! editor, id resolution and the library's graph queries.

use oovra::canvas::CanvasState;
use oovra::cli::{resolve_id, IdResolution};
use oovra::comparison::CompareState;
use oovra::diff::DiffReport;
use oovra::create::label_into_olib;
use oovra::editor::{Editor, OpenResult};
use oovra::element::{
    body_delimiter_close, body_delimiter_open, parse, parse_with, serialize, split_frontmatter,
    ParseOptions,
};
use oovra::error::OovraError;
use oovra::header::{is_kebab_case, is_valid_rfc3339, is_valid_semver, InputRef, PromptElementKind};
use oovra::library::Library;
use oovra::paths::{has_md_extension, short_path};
use oovra::render::{compose, compute_body_level, compute_depth, render_body, render_text, ComposeRequest};

fn legacy() -> ParseOptions {
    ParseOptions { legacy: true }
}

/// Two atoms labeled into a library directory, loaded.
fn two_atom_lib() -> Library {
    let (p1, t1) = label_into_olib("olib", "the role body", "role", "1.0.0", "").unwrap();
    let (p2, t2) = label_into_olib("olib", "the tone body", "tone", "1.0.0", "").unwrap();
    Library::load("olib", &vec![(p1, t1), (p2, t2)]).unwrap()
}

/// Atoms `a` and `b`, and a compound `c` of both, loaded.
fn small_lib() -> Library {
    let (pa, ta) = label_into_olib("olib", "a body", "a", "1.0.0", "").unwrap();
    let (pb, tb) = label_into_olib("olib", "b body", "b", "1.0.0", "").unwrap();
    let files = vec![(pa.clone(), ta.clone()), (pb.clone(), tb.clone())];
    let lib = Library::load("olib", &files).unwrap();
    let c = compose(ComposeRequest {
        library: &lib,
        inputs: vec![
            ("a".to_owned(), Some("1.0.0".to_owned())),
            ("b".to_owned(), Some("1.0.0".to_owned())),
        ],
        output_id: "c".to_owned(),
        output_name: "c".to_owned(),
        output_version: "1.0.0".to_owned(),
        output_meta: String::new(),
    })
    .unwrap();
    let tc = serialize(&c).unwrap();
    Library::load("olib", &vec![(pa, ta), (pb, tb), ("olib/c.md".to_owned(), tc)]).unwrap()
}

#[test]
fn delimiter_scales_with_order() {
    assert_eq!(body_delimiter_open(1), "~~>>");
    assert_eq!(body_delimiter_close(1), "~~<<");
    assert_eq!(body_delimiter_open(2), "~~~>>");
    assert_eq!(body_delimiter_close(2), "~~~<<");
    assert_eq!(body_delimiter_open(5), "~~~~~~>>");
    assert_eq!(body_delimiter_close(5), "~~~~~~<<");
}

#[test]
fn split_frontmatter_minimal_node() {
    let content = "+++\nname = \"Test\"\norder = 0\nid = \"test\"\nversion = \"1.0.0\"\nmeta = \"\"\n+++\n\nThe body.\n";
    let (fm, body) = split_frontmatter(content, "test.md").unwrap();
    assert!(fm.contains("name = \"Test\""));
    assert_eq!(body, "The body.");
}

#[test]
fn split_frontmatter_rejects_missing_open() {
    let content = "name = \"Test\"\n+++\n\nbody";
    let err = split_frontmatter(content, "test.md").unwrap_err();
    assert!(matches!(err, OovraError::MissingOpenDelimiter { .. }));
}

#[test]
fn split_frontmatter_rejects_missing_close() {
    let content = "+++\nname = \"Test\"\nno close here\n";
    let err = split_frontmatter(content, "test.md").unwrap_err();
    assert!(matches!(err, OovraError::MissingCloseDelimiter(_)));
}

#[test]
fn parse_round_trips_minimal_node() {
    // A v0.1 file (`order = 0`) read in legacy mode is an atom.
    let content = "+++\nname = \"Refusal Policy\"\norder = 0\nid = \"refusal-policy\"\nversion = \"1.0.0\"\nmeta = \"Be brief.\"\n+++\n\nDecline harmful requests briefly.\n";
    let element = parse_with(content, "refusal.md", legacy()).unwrap();
    assert_eq!(element.header.id, "refusal-policy");
    assert_eq!(element.header.kind, PromptElementKind::Atom);
    assert_eq!(element.body, "Decline harmful requests briefly.");

    let serialized = serialize(&element).unwrap();
    let parsed_again = parse(&serialized, "refusal.md").unwrap();
    assert_eq!(parsed_again.header.id, element.header.id);
    assert_eq!(parsed_again.body, element.body);
}

#[test]
fn parse_rejects_non_kebab_id() {
    let content = "+++\nname = \"X\"\norder = 0\nid = \"NotKebab\"\nversion = \"1.0.0\"\nmeta = \"\"\n+++\n\nbody\n";
    let err = parse_with(content, "x.md", legacy()).unwrap_err();
    assert!(matches!(err, OovraError::InvalidField { field: "id", .. }));
}

#[test]
fn parse_rejects_non_semver_version() {
    let content = "+++\nname = \"X\"\norder = 0\nid = \"x\"\nversion = \"v1.0\"\nmeta = \"\"\n+++\n\nbody\n";
    let err = parse_with(content, "x.md", legacy()).unwrap_err();
    assert!(matches!(err, OovraError::InvalidField { field: "version", .. }));
}

#[test]
fn parse_rejects_higher_order_without_composed_of() {
    // A hand-authored claim of `order = 1` without a recipe is a compound
    // missing its composition fields.
    let content = "+++\nname = \"X\"\norder = 1\nid = \"x\"\nversion = \"1.0.0\"\nmeta = \"\"\n+++\n\nbody\n";
    let err = parse_with(content, "x.md", legacy()).unwrap_err();
    assert!(matches!(err, OovraError::CompoundMissingField { .. }));
}

#[test]
fn parse_accepts_valid_composed_element() {
    let content = "+++\nname = \"Composed\"\norder = 1\nid = \"composed\"\nversion = \"1.0.0\"\nmeta = \"\"\ngenerated_at = \"2026-05-09T14:23:15Z\"\nrender_mode = \"markdown-h2\"\nbody_level = 1\ncomposed_of = [{id = \"a\", version = \"1.0.0\"}, {id = \"b\", version = \"1.0.0\"}]\n+++\n\nbody\n";
    let element = parse_with(content, "composed.md", legacy()).unwrap();
    assert_eq!(element.header.kind, PromptElementKind::Compound);
    assert_eq!(element.header.body_level, Some(1));
    let composed_of = element.header.composed_of.as_ref().unwrap();
    assert_eq!(composed_of.len(), 2);
    assert_eq!(composed_of[0], InputRef::new("a", "1.0.0"));
}

#[test]
fn parse_rejects_atomic_with_companion_fields() {
    // An order-0 file with composition-only fields set is rejected.
    let content = "+++\nname = \"X\"\norder = 0\nid = \"x\"\nversion = \"1.0.0\"\nmeta = \"\"\nbody_level = 1\n+++\n\nbody\n";
    let err = parse_with(content, "x.md", legacy()).unwrap_err();
    assert!(matches!(err, OovraError::InvalidField { .. }));
}

#[test]
fn parse_rejects_composed_without_body_level() {
    let content = "+++\nname = \"X\"\norder = 1\nid = \"x\"\nversion = \"1.0.0\"\nmeta = \"\"\ngenerated_at = \"2026-05-09T14:23:15Z\"\nrender_mode = \"markdown-h2\"\ncomposed_of = [{id = \"a\", version = \"1.0.0\"}]\n+++\n\nbody\n";
    let err = parse_with(content, "x.md", legacy()).unwrap_err();
    assert!(matches!(err, OovraError::CompoundMissingField { field: "body_level", .. }));
}

#[test]
fn kebab_case_accepts_valid_ids() {
    assert!(is_kebab_case("role-declaration"));
    assert!(is_kebab_case("a"));
    assert!(is_kebab_case("a-b-c"));
    assert!(is_kebab_case("v2-beta"));
    assert!(is_kebab_case("policy-007"));
}

#[test]
fn kebab_case_rejects_invalid_ids() {
    assert!(!is_kebab_case(""));
    assert!(!is_kebab_case("Role"));
    assert!(!is_kebab_case("role_declaration"));
    assert!(!is_kebab_case("role declaration"));
    assert!(!is_kebab_case("-leading"));
    assert!(!is_kebab_case("trailing-"));
    assert!(!is_kebab_case("double--dash"));
}

#[test]
fn semver_accepts_valid_versions() {
    assert!(is_valid_semver("1.0.0"));
    assert!(is_valid_semver("0.1.0"));
    assert!(is_valid_semver("2.3.1-rc1"));
}

#[test]
fn semver_rejects_invalid_versions() {
    assert!(!is_valid_semver("v1.0"));
    assert!(!is_valid_semver("1.0"));
    assert!(!is_valid_semver(""));
    assert!(!is_valid_semver("1"));
}

#[test]
fn rfc3339_accepts_valid_timestamps() {
    assert!(is_valid_rfc3339("2026-05-09T14:23:15Z"));
    assert!(is_valid_rfc3339("2026-05-09T14:23:15+00:00"));
    assert!(is_valid_rfc3339("2026-05-09T14:23:15.123Z"));
}

#[test]
fn rfc3339_rejects_invalid_timestamps() {
    assert!(!is_valid_rfc3339("2026-05-09"));
    assert!(!is_valid_rfc3339("2026-05-09 14:23:15"));
    assert!(!is_valid_rfc3339(""));
}

#[test]
fn render_body_wraps_each_input_in_correct_delimiters() {
    let chunks = vec!["FILE_A".to_string(), "FILE_B".to_string()];
    let body = render_body(1, &chunks);
    assert!(body.contains("~~>>\nFILE_A\n~~<<"));
    assert!(body.contains("~~>>\nFILE_B\n~~<<"));

    let body2 = render_body(2, &chunks);
    assert!(body2.contains("~~~>>\nFILE_A\n~~~<<"));
    assert!(body2.contains("~~~>>\nFILE_B\n~~~<<"));
}

#[test]
fn body_level_always_strictly_greater_than_max_input_body_level() {
    assert_eq!(compute_body_level(&[0, 0, 0]), 1);
    assert_eq!(compute_body_level(&[1, 1]), 2);
    assert_eq!(compute_body_level(&[1, 0, 0, 0]), 2);
    assert_eq!(compute_body_level(&[2, 1, 0, 0, 0]), 3);
    assert_eq!(compute_body_level(&[2, 2, 1]), 3);
    assert_eq!(compute_body_level(&[5]), 6);
    assert_eq!(compute_body_level(&[]), 1);
}

#[test]
fn compute_depth_mirrors_compute_body_level() {
    for inputs in [
        &[0u32, 0, 0][..],
        &[1, 1][..],
        &[1, 0, 0, 0][..],
        &[2, 1, 0, 0, 0][..],
        &[2, 2, 1][..],
        &[5][..],
        &[][..],
    ] {
        assert_eq!(
            compute_depth(inputs),
            compute_body_level(inputs),
            "depth and body_level diverged on input {:?}",
            inputs
        );
    }
}

#[test]
fn has_md_extension_is_case_insensitive() {
    assert!(has_md_extension("a.md"));
    assert!(has_md_extension("a.MD"));
    assert!(has_md_extension("dir/a.Md"));
    assert!(!has_md_extension("a.txt"));
    assert!(!has_md_extension("a"));
}

#[test]
fn short_path_truncates_with_ellipsis() {
    let s = short_path("/a/b/c/d/olib");
    assert!(s.starts_with("…/"), "expected ellipsis prefix, got {s}");
    assert!(s.ends_with("olib"));
}

#[test]
fn short_path_short_paths_are_not_prefixed() {
    let s = short_path("a/olib");
    assert!(!s.starts_with("…"), "short path should not be prefixed: {s}");
    assert!(s.ends_with("olib"));
}

#[test]
fn canvas_toggle_is_idempotent() {
    let mut c = CanvasState::new();
    assert!(!c.contains("a"));
    c.toggle("a");
    assert_eq!(c.order, vec!["a"]);
    c.toggle("a");
    assert!(c.order.is_empty());

    c.toggle("a");
    c.toggle("b");
    c.toggle("c");
    assert_eq!(c.order, vec!["a", "b", "c"]);

    // Removing the middle keeps the others' order.
    c.toggle("b");
    assert_eq!(c.order, vec!["a", "c"]);
}

#[test]
fn canvas_add_and_remove_are_idempotent() {
    let mut c = CanvasState::new();
    assert!(c.add("a"));
    assert!(!c.add("a"));
    assert_eq!(c.order, vec!["a"]);
    c.add("b");
    c.add("c");
    assert!(c.remove("b"));
    assert!(!c.remove("b"));
    assert_eq!(c.order, vec!["a", "c"]);
}

#[test]
fn canvas_live_preview_matches_render_text() {
    let lib = two_atom_lib();
    let mut c = CanvasState::new();
    c.toggle("tone");
    c.toggle("role");
    let preview = c.live_preview(&lib).expect("preview should succeed");
    let direct = render_text(&[lib.get("tone").unwrap(), lib.get("role").unwrap()]).unwrap();
    assert_eq!(preview, direct);
}

#[test]
fn canvas_save_as_compound_round_trips() {
    let lib = two_atom_lib();
    let mut c = CanvasState::new();
    c.toggle("role");
    c.toggle("tone");
    c.output_id = "coding-agent".to_string();

    let (path, text) = c.save_as_compound(&lib, "olib").expect("save should succeed");
    assert_eq!(std::path::Path::new(&path), std::path::Path::new("olib").join("coding-agent.md"));

    let parsed = parse(&text, &path).unwrap();
    assert_eq!(parsed.header.id, "coding-agent");
    assert_eq!(parsed.header.kind, PromptElementKind::Compound);
    let inputs = parsed.header.composed_of.as_ref().expect("compound has inputs");
    assert_eq!(inputs.len(), 2);
    assert_eq!(inputs[0].id, "role");
    assert_eq!(inputs[1].id, "tone");
    assert_eq!(parsed.header.body_level, Some(1));
}

#[test]
fn canvas_live_preview_errors_on_missing_id() {
    let lib = two_atom_lib();
    let mut c = CanvasState::new();
    c.toggle("role");
    c.toggle("ghost");
    let err = c.live_preview(&lib).expect_err("preview must error");
    match err {
        OovraError::ElementNotFound { id } => assert_eq!(id, "ghost"),
        other => panic!("unexpected error: {other:?}"),
    }
}

#[test]
fn editor_round_trips_an_atom() {
    let (path, text) = label_into_olib("olib", "original body", "my-atom", "1.0.0", "test-atom").unwrap();
    let mut ed = match Editor::open(&path, &text) {
        OpenResult::Loaded(e) => e,
        OpenResult::CompoundReadOnly { .. } => panic!("expected Loaded, got CompoundReadOnly"),
        OpenResult::Failed(e) => panic!("expected Loaded, got Failed: {e:?}"),
    };
    assert_eq!(ed.id, "my-atom");
    assert_eq!(ed.body, "original body");
    assert!(!ed.dirty);

    ed.body = "edited body".to_string();
    ed.dirty = true;
    let written = ed.save().expect("save should succeed");
    ed.saved(&path);
    assert!(!ed.dirty, "save clears the dirty flag");

    let reread = parse(&written, &path).unwrap();
    assert_eq!(reread.body, "edited body");
    assert_eq!(reread.header.id, "my-atom");
}

#[test]
fn editor_refuses_to_open_a_compound() {
    let content = "+++\nname = \"composed\"\nkind = \"compound\"\nid = \"composed\"\nversion = \"1.0.0\"\nmeta = \"\"\ngenerated_at = \"2026-05-20T00:00:00Z\"\nrender_mode = \"markdown-h2\"\nbody_level = 1\ncomposed_of = [{id = \"a\", version = \"1.0.0\"}]\n+++\n\nbody\n";
    match Editor::open("composed.md", content) {
        OpenResult::CompoundReadOnly { summary, .. } => {
            assert_eq!(
                summary,
                "composed — compound with 1 input(s); editing compounds is a later sprint"
            );
        }
        OpenResult::Loaded(_) => panic!("editor should not load a compound"),
        OpenResult::Failed(e) => panic!("unexpected parse failure: {e:?}"),
    }
}

#[test]
fn editor_rejects_invalid_semver_on_save() {
    let (path, text) = label_into_olib("olib", "body", "a", "1.0.0", "test-atom").unwrap();
    let mut ed = match Editor::open(&path, &text) {
        OpenResult::Loaded(e) => e,
        _ => panic!("setup: expected Loaded"),
    };
    ed.version = "not-a-version".to_string();
    ed.dirty = true;
    let r = ed.save();
    assert!(r.is_err(), "save must reject invalid semver");
    assert_eq!(ed.status, "Save rejected: version \"not-a-version\" is not valid semver");
    // Nothing was handed over to write, so the file keeps its version.
    let reread = parse(&text, &path).unwrap();
    assert_eq!(reread.header.version, "1.0.0", "on-disk file must be intact after a rejected save");
}

#[test]
fn resolve_id_uses_kebab_stem_directly() {
    match resolve_id("drafts/numbered-sprints.md", false, false) {
        IdResolution::Use { id, rename_to } => {
            assert_eq!(id, "numbered-sprints");
            assert!(rename_to.is_none());
        }
        _ => panic!("a kebab-case stem should resolve directly"),
    }
}

#[test]
fn resolve_id_slugs_non_kebab_with_flag() {
    match resolve_id("drafts/My Draft.md", true, false) {
        IdResolution::Use { id, rename_to } => {
            assert_eq!(id, "my-draft");
            assert!(rename_to.is_none());
        }
        _ => panic!("--slug should resolve a non-kebab stem"),
    }
}

#[test]
fn resolve_id_skips_non_kebab_without_tty_or_flag() {
    let r = resolve_id("drafts/My Draft.md", false, false);
    assert!(matches!(r, IdResolution::Skip(_)));
}

#[test]
fn roots_excludes_components_that_are_inputs() {
    let lib = small_lib();
    assert_eq!(lib.roots(), vec!["c"]);
}

#[test]
fn descendants_walks_recipe_graph() {
    let lib = small_lib();
    let mut d = lib.descendants("c");
    d.sort();
    assert_eq!(d, vec!["a", "b"]);
    assert!(lib.descendants("a").is_empty());
}

#[test]
fn leaf_atoms_returns_only_atoms() {
    let lib = small_lib();
    assert_eq!(lib.leaf_atoms("c"), vec!["a", "b"]);
    assert_eq!(lib.leaf_atoms("a"), vec!["a"]);
}

#[test]
fn leaf_atoms_dedupes_across_a_diamond() {
    // c1 = (a); c2 = (a, c1); the leaves of c2 are [a], not [a, a].
    let (pa, ta) = label_into_olib("olib", "a body", "a", "1.0.0", "").unwrap();
    let lib = Library::load("olib", &vec![(pa.clone(), ta.clone())]).unwrap();
    let c1 = compose(ComposeRequest {
        library: &lib,
        inputs: vec![("a".to_owned(), Some("1.0.0".to_owned()))],
        output_id: "c1".to_owned(),
        output_name: "c1".to_owned(),
        output_version: "1.0.0".to_owned(),
        output_meta: String::new(),
    })
    .unwrap();
    let t1 = serialize(&c1).unwrap();
    let lib = Library::load("olib", &vec![(pa.clone(), ta.clone()), ("olib/c1.md".to_owned(), t1.clone())]).unwrap();
    let c2 = compose(ComposeRequest {
        library: &lib,
        inputs: vec![
            ("a".to_owned(), Some("1.0.0".to_owned())),
            ("c1".to_owned(), Some("1.0.0".to_owned())),
        ],
        output_id: "c2".to_owned(),
        output_name: "c2".to_owned(),
        output_version: "1.0.0".to_owned(),
        output_meta: String::new(),
    })
    .unwrap();
    let t2 = serialize(&c2).unwrap();
    let lib = Library::load(
        "olib",
        &vec![(pa, ta), ("olib/c1.md".to_owned(), t1), ("olib/c2.md".to_owned(), t2)],
    )
    .unwrap();
    assert_eq!(lib.leaf_atoms("c2"), vec!["a"]);
    assert_eq!(lib.roots(), vec!["c2"]);
}

/// Two atoms that differ in body, and a compound of the first.
fn compare_fixture() -> Library {
    let (p1, t1) = label_into_olib("olib", "role body v1", "role", "1.0.0", "the role").unwrap();
    let (p2, t2) = label_into_olib("olib", "role body v2", "role-alt", "1.0.0", "alt role").unwrap();
    let files = vec![(p1.clone(), t1.clone()), (p2.clone(), t2.clone())];
    let lib = Library::load("olib", &files).unwrap();
    let composed = compose(ComposeRequest {
        library: &lib,
        inputs: vec![("role".to_owned(), Some("1.0.0".to_owned()))],
        output_id: "role-prompt".to_owned(),
        output_name: "role-prompt".to_owned(),
        output_version: "1.0.0".to_owned(),
        output_meta: String::new(),
    })
    .unwrap();
    let t3 = serialize(&composed).unwrap();
    Library::load("olib", &vec![(p1, t1), (p2, t2), ("olib/role-prompt.md".to_owned(), t3)]).unwrap()
}

#[test]
fn compare_state_clears_report_when_either_side_unset() {
    let lib = compare_fixture();
    let mut c = CompareState::new();
    c.set_a(Some("role".to_owned()), Some(&lib));
    assert!(c.report.is_none(), "one side set is not enough");
    c.set_b(Some("role-alt".to_owned()), Some(&lib));
    assert!(c.report.is_some(), "both sides set should produce a report");
    c.set_a(None, Some(&lib));
    assert!(c.report.is_none(), "clearing A clears the report");
}

#[test]
fn compare_state_produces_content_diff_for_two_atoms() {
    let lib = compare_fixture();
    let mut c = CompareState::new();
    c.set_a(Some("role".to_owned()), Some(&lib));
    c.set_b(Some("role-alt".to_owned()), Some(&lib));
    let report = c.report.as_ref().expect("expected a report").as_ref().expect("expected Ok");
    match report {
        DiffReport::Content(c) => {
            assert!(!c.bodies_equal);
            assert!(!c.body_unified_diff.is_empty());
        }
        DiffReport::StructuralDiff(_) => panic!("expected Content variant for atom-vs-atom"),
    }
}

#[test]
fn compare_state_errors_on_mixed_kind() {
    let lib = compare_fixture();
    let mut c = CompareState::new();
    c.set_a(Some("role".to_owned()), Some(&lib));
    c.set_b(Some("role-prompt".to_owned()), Some(&lib));
    let r = c.report.as_ref().expect("expected a report");
    assert!(r.is_err(), "atom vs compound must error");
    assert_eq!(
        r.as_ref().unwrap_err(),
        "Cannot compare an atom with a compound: 'role' is an atom, 'role-prompt' is a compound."
    );
}

#[test]
fn compare_state_same_id_both_sides_clears() {
    let lib = compare_fixture();
    let mut c = CompareState::new();
    c.set_a(Some("role".to_owned()), Some(&lib));
    c.set_b(Some("role".to_owned()), Some(&lib));
    assert!(c.report.is_none(), "same id on both sides clears report");
    c.set_b(Some("ghost".to_owned()), Some(&lib));
    assert_eq!(c.report.as_ref().unwrap().as_ref().unwrap_err(), "'ghost' is not in the loaded olib");
}
