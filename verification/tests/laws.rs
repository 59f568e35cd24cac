//! Concrete instances of the library's laws, each error variant, and the
//! exact texts the library produces.

use oovra::canvas::CanvasState;
use oovra::cli::{body_stats, declined_reason, default_output_id, re_render_inputs, resolve_id, IdResolution};
use oovra::create::{
    atom_header, body_or_placeholder, copy_oovra_into_olib, create_action, label_in_place, label_into_olib,
    CreateAction, CreateMode,
};
use oovra::decompose::{decompose, decompose_with, kind_str, report, split_chunks, ChunkError};
use oovra::diff::{compare, structural_diff, DiffReport};
use oovra::discovery::is_olib_name;
use oovra::editor::{Editor, OpenResult, ReloadError, SaveError};
use oovra::element::{
    body_delimiter_close, body_delimiter_open, looks_like_oovra_file, parse, prepare_write, serialize,
    split_frontmatter, ParseOptions, PromptElement,
};
use oovra::error::OovraError;
use oovra::header::{is_kebab_case, is_valid_rfc3339, slugify, InputRef, PromptElementHeader, PromptElementKind};
use oovra::library::Library;
use oovra::migrate::{migrate_file, MigrateOutcome};
use oovra::paths::{has_md_extension, short_path};
use oovra::render::{compose, compose_at, compute_body_level, render_body, render_text, ComposeRequest};

fn lib_of(ids: &[(&str, &str)]) -> Library {
    let files: Vec<(String, String)> = ids
        .iter()
        .map(|(id, body)| label_into_olib("olib", body, id, "1.0.0", "").unwrap())
        .collect();
    Library::load("olib", &files).unwrap()
}

fn compound_of(lib: &Library, ids: &[&str], out: &str) -> PromptElement {
    compose(ComposeRequest {
        library: lib,
        inputs: ids.iter().map(|i| (i.to_string(), None)).collect(),
        output_id: out.into(),
        output_name: out.into(),
        output_version: "1.0.0".into(),
        output_meta: String::new(),
    })
    .unwrap()
}

fn compound_with_body(body: &str, level: Option<u32>) -> PromptElement {
    let header = PromptElementHeader {
        name: "c".into(),
        kind: PromptElementKind::Compound,
        id: "c".into(),
        version: "1.0.0".into(),
        meta: String::new(),
        generated_at: Some("2026-05-09T14:23:15Z".into()),
        render_mode: Some("markdown-h2".into()),
        body_level: level,
        depth: level,
        composed_of: Some(vec![InputRef::new("a", "1.0.0")]),
    };
    PromptElement::new(header, body.into())
}

#[test]
fn serialize_writes_the_exact_file_shape() {
    let e = PromptElement::new(atom_header("x", "1.0.0", ""), "body\n\n\n".into());
    assert_eq!(
        serialize(&e).unwrap(),
        "+++\nname = \"x\"\nkind = \"atom\"\nid = \"x\"\nversion = \"1.0.0\"\nmeta = \"\"\n+++\n\nbody\n"
    );
}

#[test]
fn serialized_text_splits_back_into_header_and_body() {
    let mut e = PromptElement::new(atom_header("x", "1.0.0", "m"), "line one\n\nline three\n".into());
    e.header.name = "A \"quoted\" name".into();
    let text = serialize(&e).unwrap();
    let (fm, body) = split_frontmatter(&text, "x.md").unwrap();
    assert_eq!(body, "line one\n\nline three");
    assert!(fm.starts_with("name = 'A \"quoted\" name'"), "{fm}");
    let back = parse(&text, "x.md").unwrap();
    assert_eq!(back.header.name, "A \"quoted\" name");
    assert_eq!(back.header.meta, "m");
}

#[test]
fn delimiters_of_levels_never_collide() {
    assert_ne!(body_delimiter_open(1), body_delimiter_close(1));
    assert_ne!(body_delimiter_open(1), body_delimiter_open(2));
    assert_ne!(body_delimiter_close(2), body_delimiter_close(3));
    assert!(compute_body_level(&[3, 7, 2]) > 7);
}

#[test]
fn decompose_recovers_what_render_body_wrapped() {
    let lib = lib_of(&[("a", "alpha body"), ("b", "beta body")]);
    let c = compound_of(&lib, &["a", "b"], "c");
    let subs = decompose(&c).unwrap();
    assert_eq!(subs.len(), 2);
    for (sub, id) in subs.iter().zip(["a", "b"]) {
        let original = lib.get(id).unwrap();
        assert_eq!(sub.header.id, original.header.id);
        assert_eq!(sub.body, original.body);
        assert_eq!(sub.source_path.as_deref(), Some("<c:embedded>"));
    }
}

#[test]
fn chunking_errors_carry_exact_reasons() {
    let nested = compound_with_body("~~>>\nx\n~~>>\n", Some(1));
    match decompose(&nested).unwrap_err() {
        OovraError::BodyParse { id, body_level, reason } => {
            assert_eq!(id, "c");
            assert_eq!(body_level, 1);
            assert_eq!(reason, "encountered '~~>>' while still inside an open chunk");
        }
        other => panic!("unexpected {other:?}"),
    }
    let stray = compound_with_body("x\n~~<<\n", Some(1));
    match decompose(&stray).unwrap_err() {
        OovraError::BodyParse { reason, .. } => {
            assert_eq!(reason, "encountered '~~<<' without a matching '~~>>'")
        }
        other => panic!("unexpected {other:?}"),
    }
    let unclosed = compound_with_body("~~>>\nx\n", Some(1));
    match decompose(&unclosed).unwrap_err() {
        OovraError::BodyParse { reason, .. } => assert_eq!(reason, "missing '~~<<' to close the final chunk"),
        other => panic!("unexpected {other:?}"),
    }
    let empty = compound_with_body("just prose\n", Some(2));
    match decompose(&empty).unwrap_err() {
        OovraError::BodyParse { body_level, reason, .. } => {
            assert_eq!(body_level, 2);
            assert_eq!(reason, "no '~~~>>' delimiters found in body");
        }
        other => panic!("unexpected {other:?}"),
    }
    assert!(matches!(split_chunks("~~>>\n~~>>", 1), Err(ChunkError::NestedOpen)));
    assert_eq!(split_chunks("~~>>  \nA\r\nB\n~~<<\t\n", 1).unwrap(), vec!["A\nB".chars().collect::<Vec<char>>()]);
}

#[test]
fn decompose_refuses_atoms_and_levelless_compounds() {
    let lib = lib_of(&[("a", "alpha")]);
    let err = decompose(lib.get("a").unwrap()).unwrap_err();
    assert!(matches!(err, OovraError::CannotDecomposeAtom { ref id } if id == "a"));
    let levelless = compound_with_body("~~>>\nx\n~~<<\n", None);
    match decompose(&levelless).unwrap_err() {
        OovraError::MissingField { path, field } => {
            assert_eq!(path, "<c:embedded>");
            assert_eq!(field, "body_level");
        }
        other => panic!("unexpected {other:?}"),
    }
    let bad_chunk = compound_with_body("~~>>\nnot a file\n~~<<\n", Some(1));
    match decompose_with(&bad_chunk, ParseOptions { legacy: true }).unwrap_err() {
        OovraError::MissingOpenDelimiter { path, actual } => {
            assert_eq!(path, "<c:embedded>");
            assert_eq!(actual, "not a file");
        }
        other => panic!("unexpected {other:?}"),
    }
}

#[test]
fn report_lists_immediate_inputs() {
    let lib = lib_of(&[("a", "alpha"), ("b", "beta")]);
    let c = compound_of(&lib, &["b", "a"], "c");
    let r = report(&c).unwrap();
    assert_eq!(r.element_id, "c");
    assert_eq!(r.element_kind, "compound");
    assert_eq!(r.body_level, 1);
    assert_eq!(r.render_mode.as_deref(), Some("markdown-h2"));
    let ids: Vec<&str> = r.inputs.iter().map(|e| e.id.as_str()).collect();
    assert_eq!(ids, vec!["b", "a"]);
    assert_eq!(r.inputs[0].kind, "atom");
    assert_eq!(kind_str(&PromptElementKind::Compound), "compound");
    assert!(matches!(report(lib.get("a").unwrap()), Err(OovraError::CannotDecomposeAtom { .. })));
}

#[test]
fn render_text_flattens_to_atom_sections() {
    let lib = lib_of(&[("role", "  the role body \n"), ("tone", "the tone body")]);
    let c = compound_of(&lib, &["role", "tone"], "c");
    let text = render_text(&[&c]).unwrap();
    assert_eq!(text, "## role\n\nthe role body\n\n## tone\n\nthe tone body");
    let both = render_text(&[lib.get("tone").unwrap(), &c]).unwrap();
    assert_eq!(both, "## tone\n\nthe tone body\n\n## role\n\nthe role body\n\n## tone\n\nthe tone body");
}

#[test]
fn compose_errors_name_the_problem() {
    let lib = lib_of(&[("a", "alpha")]);
    let mk = |inputs: Vec<(String, Option<String>)>| ComposeRequest {
        library: &lib,
        inputs,
        output_id: "c".into(),
        output_name: "c".into(),
        output_version: "1.0.0".into(),
        output_meta: String::new(),
    };
    assert!(matches!(compose(mk(vec![])), Err(OovraError::EmptyCompose)));
    assert!(matches!(
        compose(mk(vec![("zz".into(), None)])),
        Err(OovraError::ElementNotFound { ref id }) if id == "zz"
    ));
    match compose(mk(vec![("a".into(), Some("2.0.0".into()))])) {
        Err(OovraError::VersionMismatch { id, pin, actual }) => {
            assert_eq!((id.as_str(), pin.as_str(), actual.as_str()), ("a", "2.0.0", "1.0.0"));
        }
        other => panic!("unexpected {other:?}"),
    }
    let fixed = compose_at(mk(vec![("a".into(), None)]), "2026-01-02T03:04:05Z".into()).unwrap();
    assert_eq!(fixed.header.generated_at.as_deref(), Some("2026-01-02T03:04:05Z"));
    let live = compose(mk(vec![("a".into(), None)])).unwrap();
    assert!(is_valid_rfc3339(live.header.generated_at.as_deref().unwrap()));
}

#[test]
fn render_body_joins_wrapped_files() {
    let files = vec!["A\n\n".to_string(), "B".to_string()];
    assert_eq!(render_body(1, &files), "~~>>\nA\n~~<<\n~~>>\nB\n~~<<");
}

#[test]
fn identical_recipes_compare_equal() {
    let lib = lib_of(&[("a", "alpha"), ("b", "beta")]);
    let c1 = compound_of(&lib, &["a", "b"], "c1");
    let c2 = compound_of(&lib, &["a", "b"], "c2");
    match compare(&c1, &c2).unwrap() {
        DiffReport::StructuralDiff(s) => {
            assert!(s.recipes_equal);
            assert_eq!(s.a_id, "c1");
            assert_eq!(s.b_id, "c2");
        }
        DiffReport::Content(_) => panic!("expected structural diff"),
    }
    // A repeated id is found at its last position, so it counts as moved.
    let dup = vec![InputRef::new("x", "1.0.0"), InputRef::new("x", "1.0.0")];
    let d = structural_diff(&"p".to_string(), &"q".to_string(), &dup, &dup);
    assert!(!d.recipes_equal);
    assert_eq!(d.moved.len(), 1);
}

#[test]
fn bumped_and_moved_input_is_on_both_lists() {
    let a = vec![InputRef::new("x", "1.0.0"), InputRef::new("y", "1.0.0")];
    let b = vec![InputRef::new("y", "1.0.0"), InputRef::new("x", "2.0.0")];
    let d = structural_diff(&"a".to_string(), &"b".to_string(), &a, &b);
    assert_eq!(d.version_changed.len(), 1);
    assert_eq!(d.version_changed[0].id, "x");
    assert_eq!(d.moved.len(), 2);
    assert_eq!(d.moved[1].id, "x");
    assert_eq!(d.moved[1].version, "2.0.0");
    assert_eq!((d.moved[1].before_pos, d.moved[1].after_pos), (0, 1));
}

#[test]
fn content_diff_reports_fields_and_body() {
    let a = PromptElement::new(atom_header("a", "1.0.0", "old"), "one\ntwo\n".into());
    let mut b = PromptElement::new(atom_header("b", "1.1.0", "old"), "one\nthree\n".into());
    b.header.name = "a".into();
    match compare(&a, &b).unwrap() {
        DiffReport::Content(c) => {
            let fields: Vec<(&str, &str, &str)> = c
                .field_changes
                .iter()
                .map(|f| (f.field.as_str(), f.before.as_str(), f.after.as_str()))
                .collect();
            assert_eq!(fields, vec![("version", "1.0.0", "1.1.0")]);
            assert!(!c.bodies_equal);
            assert!(c.body_unified_diff.starts_with("--- a\n+++ b\n"));
            assert!(c.body_unified_diff.contains("-two"));
            assert!(c.body_unified_diff.contains("+three"));
        }
        DiffReport::StructuralDiff(_) => panic!("expected content diff"),
    }
}

#[test]
fn kind_mismatch_names_both_kinds() {
    let lib = lib_of(&[("a", "alpha")]);
    let c = compound_of(&lib, &["a"], "c");
    match compare(&c, lib.get("a").unwrap()).unwrap_err() {
        OovraError::KindMismatch { a_id, a_kind, b_id, b_kind } => {
            assert_eq!((a_id.as_str(), a_kind, b_id.as_str(), b_kind), ("c", "compound", "a", "atom"));
        }
        other => panic!("unexpected {other:?}"),
    }
}

#[test]
fn slugify_makes_kebab_ids() {
    assert_eq!(slugify("My Draft").as_deref(), Some("my-draft"));
    assert_eq!(slugify("  --Hello__World 2!  ").as_deref(), Some("hello-world-2"));
    assert_eq!(slugify("???"), None);
    assert_eq!(slugify("already-kebab-1").as_deref(), Some("already-kebab-1"));
    assert!(is_kebab_case(&slugify("Ünïcode Title").unwrap()));
}

#[test]
fn id_resolution_texts() {
    match resolve_id("notes/???.md", true, false) {
        IdResolution::Skip(reason) => {
            assert_eq!(reason, "filename \"???\" has no characters usable for a kebab-case id")
        }
        _ => panic!("expected a skip"),
    }
    match resolve_id("notes/My Draft.md", false, false) {
        IdResolution::Skip(reason) => assert_eq!(
            reason,
            "filename \"My Draft\" isn't kebab-case — rerun with --slug, or rename it to 'my-draft.md'"
        ),
        _ => panic!("expected a skip"),
    }
    match resolve_id("notes/My Draft.md", false, true) {
        IdResolution::Ask { stem, slug } => assert_eq!((stem.as_str(), slug.as_str()), ("My Draft", "my-draft")),
        _ => panic!("expected a question"),
    }
    assert_eq!(
        declined_reason("My Draft", "my-draft"),
        "filename \"My Draft\" isn't kebab-case — rename it (e.g. 'my-draft.md') to include it"
    );
}

#[test]
fn paths_follow_component_rules() {
    assert!(has_md_extension("a.md/"));
    assert!(has_md_extension("x/./notes.MD"));
    assert!(!has_md_extension(".md"));
    assert!(!has_md_extension("a.md/.."));
    assert_eq!(short_path("a/b/c/d"), "…/b/c/d");
    assert_eq!(short_path("a/b/c"), "a/b/c");
    assert_eq!(short_path("/olib"), "//olib");
    assert_eq!(short_path("x/./y"), "x/y");
    assert!(is_olib_name("OLib"));
    assert!(!is_olib_name("olibs"));
}

#[test]
fn canvas_laws_on_concrete_ids() {
    let mut c = CanvasState::new();
    c.add("a");
    c.add("b");
    let before = c.order.clone();
    c.toggle("z");
    c.toggle("z");
    assert_eq!(c.order, before);
    c.add("a");
    assert_eq!(c.order, before);
    assert!(c.remove("a"));
    assert!(!c.contains("a"));
}

#[test]
fn canvas_save_refusals() {
    let lib = lib_of(&[("a", "alpha")]);
    let mut c = CanvasState::new();
    c.output_id = "   ".into();
    match c.save_as_compound(&lib, "olib").unwrap_err() {
        OovraError::InvalidField { path, field, value, reason } => {
            assert_eq!((path.as_str(), field, value.as_str()), ("olib", "output_id", "   "));
            assert_eq!(reason, "output id must not be empty");
        }
        other => panic!("unexpected {other:?}"),
    }
    c.output_id = "out".into();
    assert!(matches!(c.save_as_compound(&lib, "olib"), Err(OovraError::EmptyCompose)));
    c.add("nope");
    assert!(matches!(c.save_as_compound(&lib, "olib"), Err(OovraError::ElementNotFound { .. })));
}

#[test]
fn labeling_rules() {
    assert_eq!(
        body_or_placeholder(" \n\t", "x"),
        "<!-- TODO: body for `x` was empty when labeled -->"
    );
    assert_eq!(body_or_placeholder("text", "x"), "text");
    let written = label_in_place("notes/x.md", "Some prose.\n", "x", "1.0.0", "", false).unwrap();
    let e = parse(&written, "notes/x.md").unwrap();
    assert_eq!(e.body, "Some prose.");
    assert_eq!(e.header.name, "x");
    assert!(looks_like_oovra_file(&written));
    assert!(matches!(
        label_in_place("notes/x.md", &written, "x", "2.0.0", "", false),
        Err(OovraError::AlreadyLabeled(ref p)) if p == "notes/x.md"
    ));
    let relabeled = label_in_place("notes/x.md", &written, "x", "2.0.0", "new", true).unwrap();
    let r = parse(&relabeled, "notes/x.md").unwrap();
    assert_eq!(r.header.version, "2.0.0");
    assert_eq!(r.body, "Some prose.");
    assert!(matches!(
        label_into_olib("olib", "text", "Bad_Id", "1.0.0", ""),
        Err(OovraError::InvalidField { field: "id", .. })
    ));
    let dest = copy_oovra_into_olib("olib", "notes/x.md", &written).unwrap();
    assert_eq!(std::path::Path::new(&dest), std::path::Path::new("olib").join("x.md"));
    assert!(copy_oovra_into_olib("olib", "notes/y.md", "no header").is_err());
}

#[test]
fn library_rejects_duplicate_ids() {
    let (p, t) = label_into_olib("olib", "alpha", "a", "1.0.0", "").unwrap();
    let err = Library::load("olib", &vec![(p.clone(), t.clone()), ("olib/copy.md".into(), t)]).unwrap_err();
    match err {
        OovraError::DuplicateId { id, first, second } => {
            assert_eq!(id, "a");
            assert_eq!(first, p);
            assert_eq!(second, "olib/copy.md");
        }
        other => panic!("unexpected {other:?}"),
    }
}

#[test]
fn migrate_skips_plain_markdown() {
    assert!(matches!(migrate_file("a.md", "# Title\n"), MigrateOutcome::Skipped("not-oovra")));
    assert!(matches!(migrate_file("a.md", "+++\nbroken\n"), MigrateOutcome::Failed(_)));
}

#[test]
fn editor_status_and_refusals() {
    let (path, text) = label_into_olib("olib", "body", "a", "1.0.0", "").unwrap();
    let mut ed = match Editor::open(&path, &text) {
        OpenResult::Loaded(e) => e,
        _ => panic!("expected Loaded"),
    };
    assert_eq!(ed.status, format!("Loaded {path}"));
    ed.name = "  ".into();
    match ed.save() {
        Err(SaveError::Rejected(m)) => assert_eq!(m, "name must not be empty"),
        _ => panic!("expected a rejection"),
    }
    assert_eq!(ed.status, "Save rejected: name must not be empty");
    ed.name = "A".into();
    ed.body = "new".into();
    ed.dirty = true;
    assert!(matches!(ed.reload("not a file"), Err(ReloadError::Parse(_))));
    assert!(ed.dirty);
    ed.reload(&text).unwrap();
    assert_eq!(ed.body, "body");
    assert!(!ed.dirty);
    assert_eq!(ed.status, format!("Reloaded {path}"));
    assert!(matches!(Editor::open("x.md", "nope"), OpenResult::Failed(_)));
    ed.save_failed("disk full");
    assert_eq!(ed.status, "Save failed: disk full");
}

#[test]
fn cli_helpers() {
    assert_eq!(default_output_id(&vec!["a".into(), "b".into()]), "composed-a-b");
    assert_eq!(body_stats("one\ntwo\n"), (2, 8));
    assert_eq!(body_stats(""), (0, 0));
    let lib = lib_of(&[("a", "alpha")]);
    let c = compound_of(&lib, &["a"], "c");
    assert_eq!(re_render_inputs(&c), Some(vec![("a".to_string(), Some("1.0.0".to_string()))]));
    assert_eq!(re_render_inputs(lib.get("a").unwrap()), None);
}

#[test]
fn prepare_write_refuses_invalid_elements() {
    let e = PromptElement::new(atom_header("x", "one", ""), "body".into());
    assert!(matches!(prepare_write(&e, "x.md"), Err(OovraError::InvalidField { field: "version", .. })));
    let blank = PromptElement::new(atom_header("x", "1.0.0", ""), "   ".into());
    assert!(matches!(prepare_write(&blank, "x.md"), Err(OovraError::EmptyBody(ref p)) if p == "x.md"));
}

#[test]
fn serialize_writes_the_recipe_as_an_array_of_tables() {
    let c = compound_with_body("~~>>\nx\n~~<<\n", Some(1));
    let text = serialize(&c).unwrap();
    assert_eq!(
        text,
        "+++\nname = \"c\"\nkind = \"compound\"\nid = \"c\"\nversion = \"1.0.0\"\nmeta = \"\"\n\
         generated_at = \"2026-05-09T14:23:15Z\"\nrender_mode = \"markdown-h2\"\nbody_level = 1\n\
         depth = 1\n\n[[composed_of]]\nid = \"a\"\nversion = \"1.0.0\"\n+++\n\n~~>>\nx\n~~<<\n"
    );
    assert!(!text.contains("composed_of = ["));
}

#[test]
fn only_a_first_line_of_three_plus_signs_opens_a_file() {
    assert!(looks_like_oovra_file("+++\nname = 1\n"));
    assert!(looks_like_oovra_file("+++\r\nname = 1\r\n"));
    assert!(looks_like_oovra_file("  +++"));
    assert!(!looks_like_oovra_file("+++ "));
    assert!(!looks_like_oovra_file("+++ \nname = 1\n"));
    assert!(!looks_like_oovra_file("# Title\n"));
}

#[test]
fn atom_with_composition_metadata_is_an_invalid_field() {
    let content = "+++\nname = \"X\"\nkind = \"atom\"\nid = \"x\"\nversion = \"1.0.0\"\nmeta = \"\"\nrender_mode = \"markdown-h2\"\n+++\n\nbody\n";
    match parse(content, "x.md").unwrap_err() {
        OovraError::InvalidField { field, value, reason, .. } => {
            assert_eq!(field, "generated_at|render_mode|body_level");
            assert_eq!(value, "<set>");
            assert_eq!(reason, "these fields are only valid when composed_of is also present");
        }
        other => panic!("unexpected {other:?}"),
    }
    let with_depth = "+++\nname = \"X\"\nkind = \"atom\"\nid = \"x\"\nversion = \"1.0.0\"\nmeta = \"\"\ndepth = 1\n+++\n\nbody\n";
    assert!(matches!(
        parse(with_depth, "x.md").unwrap_err(),
        OovraError::AtomHasForbiddenField { field: "depth", .. }
    ));
}

#[test]
fn create_action_follows_mode_header_and_force() {
    assert_eq!(create_action(CreateMode::Olib, true, false), CreateAction::CopyVerbatim);
    assert_eq!(create_action(CreateMode::Olib, true, true), CreateAction::CopyVerbatim);
    assert_eq!(create_action(CreateMode::Olib, false, true), CreateAction::LabelCopy);
    assert_eq!(create_action(CreateMode::Label, true, false), CreateAction::SkipLabeled);
    assert_eq!(create_action(CreateMode::Label, true, true), CreateAction::Relabel);
    assert_eq!(create_action(CreateMode::Label, false, false), CreateAction::LabelInPlace);
}

#[test]
fn library_destinations_are_the_directory_joined_with_the_id() {
    let (dest, _) = label_into_olib("my/olib", "alpha", "alpha", "1.0.0", "").unwrap();
    assert_eq!(std::path::Path::new(&dest), std::path::Path::new("my/olib").join("alpha.md"));
    assert!(dest.starts_with("my/olib"));
    assert!(dest.ends_with("alpha.md"));
    let (_, written) = label_into_olib("x", "beta", "beta", "1.0.0", "").unwrap();
    let copied = copy_oovra_into_olib("lib", "notes/beta.md", &written).unwrap();
    assert_eq!(std::path::Path::new(&copied), std::path::Path::new("lib").join("beta.md"));
    let mut canvas = CanvasState::new();
    let lib = lib_of(&[("a", "alpha body")]);
    canvas.order.push("a".into());
    canvas.output_id = "combo".into();
    let (saved, text) = canvas.save_as_compound(&lib, "out").unwrap();
    assert_eq!(std::path::Path::new(&saved), std::path::Path::new("out").join("combo.md"));
    assert!(text.contains("[[composed_of]]"));
}

#[test]
fn rejected_save_keeps_the_fields_and_says_why() {
    let (path, text) = label_into_olib("olib", "body", "a", "1.0.0", "m").unwrap();
    let mut ed = match Editor::open(&path, &text) {
        OpenResult::Loaded(e) => e,
        _ => panic!("expected Loaded"),
    };
    ed.version = "not-a-version".into();
    assert!(matches!(ed.save(), Err(SaveError::Rejected(_))));
    assert!(ed.status.starts_with("Save rejected: "));
    assert_eq!(ed.id, "a");
    assert_eq!(ed.meta, "m");
    assert_eq!(ed.version, "not-a-version");
}

#[test]
fn splitting_ignores_the_path() {
    let text = "+++\na = 1\n+++\n\nbody\n";
    assert_eq!(split_frontmatter(text, "x.md").unwrap(), split_frontmatter(text, "y/z.md").unwrap());
    assert!(split_frontmatter("no fence", "x.md").is_err());
    assert!(split_frontmatter("no fence", "q.md").is_err());
}

#[test]
fn reading_back_a_serialized_element_gives_its_body() {
    let e = PromptElement::new(atom_header("x", "1.0.0", ""), "para one\n\npara two\n\n".into());
    let back = parse(&serialize(&e).unwrap(), "x.md").unwrap();
    assert_eq!(back.body, "para one\n\npara two");
}

#[test]
fn a_compound_renders_as_its_inputs() {
    let lib = lib_of(&[("a", "alpha body\n\n"), ("b", "beta body")]);
    let inner = compound_of(&lib, &["a", "b"], "inner");
    let direct = render_text(&[lib.get("a").unwrap(), lib.get("b").unwrap()]).unwrap();
    assert_eq!(render_text(&[&inner]).unwrap(), direct);
}

#[test]
fn decomposing_a_composed_compound_gives_back_full_headers() {
    let lib = lib_of(&[("a", "alpha body"), ("b", "beta body")]);
    let c = compound_of(&lib, &["a", "b"], "c");
    let subs = decompose(&c).unwrap();
    for (sub, id) in subs.iter().zip(["a", "b"]) {
        let original = lib.get(id).unwrap();
        assert_eq!(sub.header.id, original.header.id);
        assert_eq!(sub.header.name, original.header.name);
        assert_eq!(sub.header.version, original.header.version);
        assert_eq!(sub.header.meta, original.header.meta);
        assert_eq!(sub.header.kind, original.header.kind);
        assert_eq!(sub.header.body_level, original.header.body_level);
        assert_eq!(sub.header.composed_of, original.header.composed_of);
    }
    let once = serialize(&c).unwrap();
    let back = parse(&once, "c.md").unwrap();
    assert_eq!(serialize(&back).unwrap(), once);
}

#[test]
fn splitting_gives_back_a_body_that_ends_in_a_newline() {
    let (fm, body) = split_frontmatter("+++\na = 1\n+++\n\nline\n\n", "x.md").unwrap();
    assert_eq!(fm, "a = 1");
    assert_eq!(body, "line\n");
}

#[test]
fn compound_checkbox_adds_and_removes_its_leaves() {
    let mut canvas = CanvasState::new();
    canvas.order.push("b".into());
    let leaves = vec!["a".to_string(), "b".to_string(), "c".to_string()];
    assert!(canvas.contains_any(&leaves));
    assert!(!canvas.contains_any(&vec!["z".to_string()]));
    canvas.set_all(&leaves, true);
    assert_eq!(canvas.order, vec!["b".to_string(), "a".to_string(), "c".to_string()]);
    canvas.order.push("d".into());
    canvas.set_all(&leaves, false);
    assert_eq!(canvas.order, vec!["d".to_string()]);
}

#[test]
fn only_regular_md_files_are_counted() {
    let entries = vec![
        ("olib/a.md".to_string(), true),
        ("olib/B.MD".to_string(), true),
        ("olib/sub.md".to_string(), false),
        ("olib/notes.txt".to_string(), true),
    ];
    assert_eq!(oovra::discovery::count_md_files(&entries), 2);
}
