//! End-to-end pipeline: parse, compose compounds from atoms, compose deeper
//! compounds from compounds, decompose one level and in full, compare, and
//! migrate. Files live in memory as `(path, content)` pairs.

use oovra::decompose::{decompose, full_step, TreeChild};
use oovra::diff::{compare, DiffReport};
use oovra::element::{parse, parse_with, prepare_write, serialize, ParseOptions, PromptElement};
use oovra::error::OovraError;
use oovra::header::PromptElementKind;
use oovra::library::Library;
use oovra::migrate::{migrate_file, MigrateOutcome};
use oovra::render::{compose, render_text, ComposeRequest};

fn atom(id: &str, name: &str, meta: &str, body: &str) -> (String, String) {
    (
        format!("elements/{id}.md"),
        format!(
            "+++\nname = \"{name}\"\nkind = \"atom\"\nid = \"{id}\"\nversion = \"1.0.0\"\nmeta = \"{meta}\"\n+++\n\n{body}\n"
        ),
    )
}

/// The sample library: five atoms.
fn elements() -> Vec<(String, String)> {
    vec![
        atom(
            "role-declaration",
            "Role Declaration",
            "Who the agent is",
            "You are a senior software engineer working in this repository.",
        ),
        atom(
            "refusal-policy-strict",
            "Refusal Policy (Strict)",
            "Decline harmful requests",
            "Decline harmful or out-of-scope requests briefly.\n\nDo not lecture.",
        ),
        atom("tone-direct", "Tone: Direct", "", "Be direct. Lead with the answer."),
        atom(
            "output-format-markdown",
            "Output Format: Markdown",
            "",
            "Answer in GitHub-flavoured Markdown.\n\n- Use headings sparingly.\n- Use code fences for code.",
        ),
        atom(
            "examples-block",
            "Examples",
            "Worked examples",
            "## Example\n\nUser: rename a variable.\nAssistant: done, with a diff.",
        ),
    ]
}

fn library() -> Library {
    Library::load("elements", &elements()).unwrap()
}

/// The sample library plus extra files.
fn staged(extra: Vec<(String, String)>) -> Library {
    let mut files = elements();
    files.extend(extra);
    Library::load("staging", &files).unwrap()
}

fn request<'a>(lib: &'a Library, ids: &[&str], out: &str, name: &str) -> ComposeRequest<'a> {
    ComposeRequest {
        library: lib,
        inputs: ids.iter().map(|i| (i.to_string(), None)).collect(),
        output_id: out.into(),
        output_name: name.into(),
        output_version: "1.0.0".into(),
        output_meta: String::new(),
    }
}

fn file_of(e: &PromptElement, path: &str) -> (String, String) {
    (path.to_string(), prepare_write(e, path).unwrap())
}

/// Expand the full decomposition tree of `e` under `dir`, collecting the
/// files that would be written, in order.
fn write_tree(e: &PromptElement, dir: &str, out: &mut Vec<(String, String)>) {
    let step = full_step(e);
    out.push((format!("{dir}/{}", step.file_name), step.content.unwrap()));
    for child in step.children.unwrap() {
        match child {
            TreeChild::Leaf { file_name, content } => out.push((format!("{dir}/{file_name}"), content.unwrap())),
            TreeChild::Branch { dir_name, element } => write_tree(&element, &format!("{dir}/{dir_name}"), out),
        }
    }
}

/// Migrate every file in memory, as `migrate_library` does on disk:
/// returns (migrated, skipped, failed) counts.
fn migrate_all(files: &mut Vec<(String, String)>) -> (usize, usize, Vec<(String, OovraError)>) {
    let mut migrated = 0;
    let mut skipped = 0;
    let mut failed = Vec::new();
    for (path, content) in files.iter_mut() {
        match migrate_file(path, content) {
            MigrateOutcome::Rewrite(text) => {
                *content = text;
                migrated += 1;
            }
            MigrateOutcome::Skipped(_) => skipped += 1,
            MigrateOutcome::Failed(e) => failed.push((path.clone(), e)),
        }
    }
    (migrated, skipped, failed)
}

#[test]
fn parse_serialize_round_trip_is_idempotent() {
    let library = library();
    for element in &library.elements {
        let s1 = serialize(element).unwrap();
        let parsed = parse(&s1, "<test>").unwrap();
        let s2 = serialize(&parsed).unwrap();
        assert_eq!(s1, s2, "non-idempotent round-trip for '{}'", element.header.id);
    }
}

#[test]
fn compose_round_trip_preserves_recipe_and_decomposes_lossless() {
    let library = library();
    let mut req = request(
        &library,
        &["role-declaration", "refusal-policy-strict", "tone-direct"],
        "round-trip",
        "Round Trip Test",
    );
    req.output_meta = "ensures byte-stable round-trip".into();
    let composed = compose(req).unwrap();

    let serialized = serialize(&composed).unwrap();
    let reparsed = parse(&serialized, "<rt>").unwrap();

    assert_eq!(reparsed.header.id, composed.header.id);
    assert_eq!(reparsed.header.kind, composed.header.kind);
    assert_eq!(reparsed.header.body_level, composed.header.body_level);
    assert_eq!(reparsed.header.composed_of, composed.header.composed_of);

    let recovered = decompose(&reparsed).unwrap();
    for original_id in &["role-declaration", "refusal-policy-strict", "tone-direct"] {
        let original = library.get(original_id).unwrap();
        let rec = recovered.iter().find(|e| e.header.id == *original_id).unwrap();
        assert_eq!(rec.body, original.body, "body drift for {original_id}");
        assert_eq!(rec.header.name, original.header.name);
        assert_eq!(rec.header.version, original.header.version);
        assert_eq!(rec.header.meta, original.header.meta);
    }
}

#[test]
fn library_loads_five_atoms() {
    let library = library();
    assert_eq!(library.len(), 5);
    for element in &library.elements {
        assert_eq!(element.header.kind, PromptElementKind::Atom, "{}", element.header.id);
    }
}

#[test]
fn compose_three_atoms_into_one_compound() {
    let library = library();
    let mut req = request(
        &library,
        &["role-declaration", "refusal-policy-strict", "tone-direct"],
        "coding-agent-strict",
        "Coding Agent (Strict)",
    );
    req.output_meta = "Three-element strict coding-agent prompt".into();
    let composed = compose(req).unwrap();
    assert_eq!(composed.header.kind, PromptElementKind::Compound);
    assert_eq!(composed.header.body_level, Some(1));
    assert_eq!(composed.header.composed_of.as_ref().map(|v| v.len()), Some(3));
    for id in &["role-declaration", "refusal-policy-strict", "tone-direct"] {
        assert!(composed.body.contains(id), "expected {id} to appear in body");
    }
    assert!(composed.body.contains("~~>>"));
    assert!(composed.body.contains("~~<<"));
}

#[test]
fn compose_two_compounds_into_one_deeper_compound() {
    let library = library();
    let sub_a = compose(request(
        &library,
        &["role-declaration", "refusal-policy-strict"],
        "subprompt-a",
        "Subprompt A",
    ))
    .unwrap();
    let sub_b = compose(request(
        &library,
        &["output-format-markdown", "examples-block"],
        "subprompt-b",
        "Subprompt B",
    ))
    .unwrap();
    let staged_lib = staged(vec![
        file_of(&sub_a, "staging/subprompt-a.md"),
        file_of(&sub_b, "staging/subprompt-b.md"),
    ]);
    let deep = compose(request(
        &staged_lib,
        &["subprompt-a", "subprompt-b"],
        "two-stage-prompt",
        "Two-Stage Prompt",
    ))
    .unwrap();

    assert_eq!(deep.header.kind, PromptElementKind::Compound);
    assert_eq!(deep.header.body_level, Some(2));
    assert!(deep.body.contains("~~~>>"));
    assert!(deep.body.contains("~~~<<"));
    assert!(deep.body.contains("~~>>"));
    assert!(deep.body.contains("~~<<"));
}

#[test]
fn decompose_one_level_recovers_immediate_inputs() {
    let library = library();
    let composed = compose(request(
        &library,
        &["role-declaration", "refusal-policy-strict", "tone-direct"],
        "tmp-compose",
        "tmp",
    ))
    .unwrap();

    let inputs = decompose(&composed).unwrap();
    assert_eq!(inputs.len(), 3);
    assert_eq!(inputs[0].header.id, "role-declaration");
    assert_eq!(inputs[1].header.id, "refusal-policy-strict");
    assert_eq!(inputs[2].header.id, "tone-direct");

    let original_a = library.get("role-declaration").unwrap();
    assert_eq!(inputs[0].body, original_a.body);
    assert_eq!(inputs[0].header.version, original_a.header.version);
}

#[test]
fn decompose_full_writes_folder_tree_for_deep_compound() {
    let library = library();
    let sub_a = compose(request(
        &library,
        &["role-declaration", "refusal-policy-strict"],
        "subprompt-a",
        "Subprompt A",
    ))
    .unwrap();
    let sub_b = compose(request(
        &library,
        &["output-format-markdown", "tone-direct"],
        "subprompt-b",
        "Subprompt B",
    ))
    .unwrap();
    let staged_lib = staged(vec![
        file_of(&sub_a, "staging/subprompt-a.md"),
        file_of(&sub_b, "staging/subprompt-b.md"),
    ]);
    let deep = compose(request(&staged_lib, &["subprompt-a", "subprompt-b"], "full-test", "Full Test")).unwrap();

    let mut written = Vec::new();
    write_tree(&deep, "out/full-test", &mut written);
    let paths: Vec<&str> = written.iter().map(|(p, _)| p.as_str()).collect();
    assert_eq!(
        paths,
        vec![
            "out/full-test/full-test.md",
            "out/full-test/subprompt-a/subprompt-a.md",
            "out/full-test/subprompt-a/role-declaration.md",
            "out/full-test/subprompt-a/refusal-policy-strict.md",
            "out/full-test/subprompt-b/subprompt-b.md",
            "out/full-test/subprompt-b/output-format-markdown.md",
            "out/full-test/subprompt-b/tone-direct.md",
        ]
    );

    let (leaf_path, leaf_text) = &written[2];
    let leaf = parse(leaf_text, leaf_path).unwrap();
    let original = library.get("role-declaration").unwrap();
    assert_eq!(leaf.header.id, original.header.id);
    assert_eq!(leaf.header.version, original.header.version);
    assert_eq!(leaf.header.name, original.header.name);
    assert_eq!(leaf.header.meta, original.header.meta);
    assert_eq!(leaf.body, original.body);
}

fn bumped(id: &str) -> (String, String) {
    let library = library();
    let mut e = library.get(id).unwrap().clone();
    e.header.version = "1.1.0".into();
    file_of(&e, &format!("elements/{id}.md"))
}

/// The sample library with one atom's version bumped.
fn bumped_lib(id: &str) -> Library {
    let mut files: Vec<(String, String)> =
        elements().into_iter().filter(|(p, _)| !p.ends_with(&format!("/{id}.md"))).collect();
    files.push(bumped(id));
    Library::load("bumped", &files).unwrap()
}

#[test]
fn compare_structural_diff_detects_version_change() {
    let library = library();
    let v1 = compose(request(&library, &["role-declaration", "refusal-policy-strict"], "stable", "Stable")).unwrap();
    let lib2 = bumped_lib("refusal-policy-strict");
    let v2 = compose(request(&lib2, &["role-declaration", "refusal-policy-strict"], "stable", "Stable")).unwrap();

    match compare(&v1, &v2).unwrap() {
        DiffReport::StructuralDiff(s) => {
            assert!(s.added.is_empty());
            assert!(s.removed.is_empty());
            assert!(s.moved.is_empty(), "no reorder, no move");
            assert_eq!(s.version_changed.len(), 1);
            assert_eq!(s.version_changed[0].id, "refusal-policy-strict");
            assert_eq!(s.version_changed[0].before_version, "1.0.0");
            assert_eq!(s.version_changed[0].after_version, "1.1.0");
        }
        DiffReport::Content(_) => panic!("expected structural diff for compounds"),
    }
}

#[test]
fn compare_detects_reorder() {
    let library = library();
    let v1 = compose(request(&library, &["role-declaration", "refusal-policy-strict", "tone-direct"], "abc", "abc")).unwrap();
    let v2 = compose(request(&library, &["tone-direct", "refusal-policy-strict", "role-declaration"], "cba", "cba")).unwrap();
    match compare(&v1, &v2).unwrap() {
        DiffReport::StructuralDiff(s) => {
            assert!(s.added.is_empty());
            assert!(s.removed.is_empty());
            assert!(s.version_changed.is_empty());
            assert!(!s.recipes_equal, "reorder is a real change");
            assert_eq!(s.moved.len(), 2);
            let by_id: std::collections::HashMap<_, _> = s
                .moved
                .iter()
                .map(|m| (m.id.as_str(), (m.before_pos, m.after_pos)))
                .collect();
            assert_eq!(by_id.get("role-declaration"), Some(&(0, 2)));
            assert_eq!(by_id.get("tone-direct"), Some(&(2, 0)));
        }
        DiffReport::Content(_) => panic!("expected structural diff for compounds"),
    }
}

#[test]
fn compare_distinguishes_move_from_add_remove() {
    let library = library();
    let v1 = compose(request(&library, &["role-declaration", "refusal-policy-strict", "tone-direct"], "v1", "v1")).unwrap();
    let v2 = compose(request(&library, &["tone-direct", "refusal-policy-strict", "examples-block"], "v2", "v2")).unwrap();
    match compare(&v1, &v2).unwrap() {
        DiffReport::StructuralDiff(s) => {
            assert_eq!(s.removed.len(), 1);
            assert_eq!(s.removed[0].input.id, "role-declaration");
            assert_eq!(s.removed[0].position, 0);
            assert_eq!(s.added.len(), 1);
            assert_eq!(s.added[0].input.id, "examples-block");
            assert_eq!(s.added[0].position, 2);
            assert!(s.version_changed.is_empty());
            assert_eq!(s.moved.len(), 1);
            assert_eq!(s.moved[0].id, "tone-direct");
            assert_eq!(s.moved[0].before_pos, 2);
            assert_eq!(s.moved[0].after_pos, 0);
            assert!(!s.recipes_equal);
        }
        DiffReport::Content(_) => panic!("expected structural diff for compounds"),
    }
}

#[test]
fn compare_reports_pure_version_change_not_as_move() {
    let library = library();
    let v1 = compose(request(&library, &["role-declaration", "tone-direct"], "stable", "Stable")).unwrap();
    let lib2 = bumped_lib("tone-direct");
    let v2 = compose(request(&lib2, &["role-declaration", "tone-direct"], "stable", "Stable")).unwrap();
    match compare(&v1, &v2).unwrap() {
        DiffReport::StructuralDiff(s) => {
            assert!(s.added.is_empty());
            assert!(s.removed.is_empty());
            assert!(s.moved.is_empty(), "no position change");
            assert_eq!(s.version_changed.len(), 1);
            assert_eq!(s.version_changed[0].id, "tone-direct");
            assert!(!s.recipes_equal);
        }
        DiffReport::Content(_) => panic!("expected structural diff for compounds"),
    }
}

#[test]
fn mixed_kind_compose_does_not_collide_with_inner_delimiters() {
    let library = library();
    let inner = compose(request(&library, &["role-declaration", "refusal-policy-strict"], "inner-compound", "Inner")).unwrap();
    let staged_lib = staged(vec![file_of(&inner, "staging/inner-compound.md")]);
    let mixed = compose(request(&staged_lib, &["inner-compound", "tone-direct"], "mixed-kind", "Mixed")).unwrap();

    assert_eq!(mixed.header.kind, PromptElementKind::Compound);
    assert_eq!(mixed.header.body_level, Some(2));

    let immediate = decompose(&mixed).unwrap();
    assert_eq!(immediate.len(), 2);
    assert_eq!(immediate[0].header.id, "inner-compound");
    assert_eq!(immediate[1].header.id, "tone-direct");
    assert_eq!(immediate[0].header.kind, PromptElementKind::Compound);
    assert_eq!(immediate[0].header.body_level, Some(1));
}

#[test]
fn depth_equals_body_level_for_every_compose() {
    let library = library();
    let c1 = compose(request(&library, &["role-declaration", "tone-direct"], "depth-check-1", "depth-check-1")).unwrap();
    assert_eq!(c1.header.body_level, Some(1));
    assert_eq!(c1.header.depth, Some(1));

    let staged_lib = staged(vec![file_of(&c1, "staging/depth-check-1.md")]);
    let c2 = compose(request(&staged_lib, &["depth-check-1", "examples-block"], "depth-check-2", "depth-check-2")).unwrap();
    assert_eq!(c2.header.body_level, Some(2));
    assert_eq!(c2.header.depth, Some(2));
}

#[test]
fn migrate_rewrites_library_in_place() {
    let atom_a = "+++\nname = \"Atom A\"\norder = 0\nid = \"atom-a\"\nversion = \"1.0.0\"\nmeta = \"\"\n+++\n\nAtom A body.\n";
    let atom_b = "+++\nname = \"Atom B\"\norder = 0\nid = \"atom-b\"\nversion = \"1.0.0\"\nmeta = \"\"\n+++\n\nAtom B body.\n";
    let compound = "+++\nname = \"Compound\"\norder = 1\nid = \"compound\"\nversion = \"1.0.0\"\nmeta = \"\"\ngenerated_at = \"2026-05-09T14:23:15Z\"\nrender_mode = \"markdown-h2\"\nbody_level = 1\ncomposed_of = [{id = \"atom-a\", version = \"1.0.0\"}, {id = \"atom-b\", version = \"1.0.0\"}]\n+++\n\n~~>>\n+++\nname = \"Atom A\"\norder = 0\nid = \"atom-a\"\nversion = \"1.0.0\"\nmeta = \"\"\n+++\n\nAtom A body.\n~~<<\n~~>>\n+++\nname = \"Atom B\"\norder = 0\nid = \"atom-b\"\nversion = \"1.0.0\"\nmeta = \"\"\n+++\n\nAtom B body.\n~~<<\n";
    let mut files = vec![
        ("lib/atom-a.md".to_string(), atom_a.to_string()),
        ("lib/atom-b.md".to_string(), atom_b.to_string()),
        ("lib/compound.md".to_string(), compound.to_string()),
    ];
    let (migrated, _, failed) = migrate_all(&mut files);
    assert_eq!(migrated, 3, "all three files should migrate");
    assert!(failed.is_empty(), "no failures expected: {:?}", failed);

    let migrated_a = parse(&files[0].1, &files[0].0).unwrap();
    assert_eq!(migrated_a.header.kind, PromptElementKind::Atom);
    let migrated_compound = parse(&files[2].1, &files[2].0).unwrap();
    assert_eq!(migrated_compound.header.kind, PromptElementKind::Compound);
    assert_eq!(migrated_compound.header.body_level, Some(1));
    assert_eq!(migrated_compound.header.depth, Some(1));
    assert_eq!(migrated_compound.header.generated_at.as_deref(), Some("2026-05-09T14:23:15Z"));
}

#[test]
fn migrate_preserves_lossless_roundtrip() {
    let mut files = vec![
        (
            "lib/role.md".to_string(),
            "+++\nname = \"Role\"\norder = 0\nid = \"role\"\nversion = \"1.0.0\"\nmeta = \"\"\n+++\n\nYou are a senior engineer.\n".to_string(),
        ),
        (
            "lib/tone.md".to_string(),
            "+++\nname = \"Tone\"\norder = 0\nid = \"tone\"\nversion = \"1.0.0\"\nmeta = \"\"\n+++\n\nBe direct.\n".to_string(),
        ),
    ];
    let pre_lib = Library::load_with("lib", &files, ParseOptions { legacy: true }).unwrap();
    let pre_compound = compose(request(&pre_lib, &["role", "tone"], "rt", "rt")).unwrap();
    let pre_text = render_text(&[&pre_compound]).unwrap();

    let (migrated, _, failed) = migrate_all(&mut files);
    assert_eq!(migrated, 2);
    assert!(failed.is_empty());

    let post_lib = Library::load("lib", &files).unwrap();
    let post_compound = compose(request(&post_lib, &["role", "tone"], "rt", "rt")).unwrap();
    let post_text = render_text(&[&post_compound]).unwrap();

    assert_eq!(pre_text.trim(), post_text.trim(), "rendered text drifted across migration");
}

#[test]
fn migrate_recursively_rewrites_embedded_frontmatter() {
    let compound = "+++\n\
        name = \"Compound\"\n\
        order = 1\n\
        id = \"compound\"\n\
        version = \"1.0.0\"\n\
        meta = \"\"\n\
        generated_at = \"2026-05-09T14:23:15Z\"\n\
        render_mode = \"markdown-h2\"\n\
        body_level = 1\n\
        composed_of = [{id = \"alpha\", version = \"1.0.0\"}, {id = \"beta\", version = \"1.0.0\"}]\n\
        +++\n\n\
        ~~>>\n\
        +++\n\
        name = \"Alpha\"\n\
        order = 0\n\
        id = \"alpha\"\n\
        version = \"1.0.0\"\n\
        meta = \"\"\n\
        +++\n\n\
        Alpha body.\n\
        ~~<<\n\
        ~~>>\n\
        +++\n\
        name = \"Beta\"\n\
        order = 0\n\
        id = \"beta\"\n\
        version = \"1.0.0\"\n\
        meta = \"\"\n\
        +++\n\n\
        Beta body.\n\
        ~~<<\n";
    let mut files = vec![("lib/compound.md".to_string(), compound.to_string())];
    let (migrated, _, failed) = migrate_all(&mut files);
    assert_eq!(migrated, 1);
    assert!(failed.is_empty());

    let migrated_element = parse(&files[0].1, &files[0].0).unwrap();
    let leaves = decompose(&migrated_element).unwrap();
    assert_eq!(leaves.len(), 2);
    assert_eq!(leaves[0].header.id, "alpha");
    assert_eq!(leaves[0].header.kind, PromptElementKind::Atom);
    assert_eq!(leaves[1].header.id, "beta");
    assert_eq!(leaves[1].header.kind, PromptElementKind::Atom);
}

#[test]
fn migrate_is_idempotent_on_v0_2_files() {
    let mut files = vec![(
        "lib/a.md".to_string(),
        "+++\nname = \"A\"\nkind = \"atom\"\nid = \"a\"\nversion = \"1.0.0\"\nmeta = \"\"\n+++\n\nbody\n".to_string(),
    )];
    let (m1, _, _) = migrate_all(&mut files);
    assert_eq!(m1, 1);
    let first = files[0].1.clone();
    let (m2, _, f2) = migrate_all(&mut files);
    assert_eq!(m2, 1);
    assert!(f2.is_empty());
    assert_eq!(files[0].1, first);
    let parsed = parse(&files[0].1, &files[0].0).unwrap();
    assert_eq!(parsed.header.kind, PromptElementKind::Atom);
}

#[test]
fn compare_refuses_atom_vs_compound() {
    let library = library();
    let compound = compose(request(&library, &["role-declaration", "refusal-policy-strict"], "x", "x")).unwrap();
    let atom = library.get("role-declaration").unwrap();
    let err = compare(atom, &compound).unwrap_err();
    assert!(matches!(err, OovraError::KindMismatch { .. }));
}

#[test]
fn legacy_library_parses_v0_1_atoms() {
    let files = vec![(
        "lib/x.md".to_string(),
        "+++\nname = \"X\"\norder = 0\nid = \"x\"\nversion = \"1.0.0\"\nmeta = \"\"\n+++\n\nbody\n".to_string(),
    )];
    assert!(Library::load("lib", &files).is_err());
    let lib = Library::load_with("lib", &files, ParseOptions { legacy: true }).unwrap();
    assert_eq!(lib.get("x").unwrap().header.kind, PromptElementKind::Atom);
    let strict = parse_with(&files[0].1, "lib/x.md", ParseOptions { legacy: false });
    assert!(matches!(strict, Err(OovraError::InvalidToml { .. })));
}
