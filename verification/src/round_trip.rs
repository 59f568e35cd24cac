//! Reading back what was written.
//!
//! Writing a header is `toml`'s work, and so is reading it: the library
//! names both results and knows neither text. What it does know is what it
//! asked `toml` to write, the table `header_entries` lists. The laws here
//! are stated on the condition that `toml` reads back, from the text it
//! wrote, that same table (`reads_back`); under it, everything the library
//! itself does on the way, the framing, the header schema and the body
//! chunks, is proved to give back what went in.

use vstd::prelude::*;

use crate::decompose::{
    chunks_of, decompose_spec, embedded_path, fits_level, lemma_decompose_compose,
    lemma_decompose_shrinks, parse_all, scan, trimmed_files,
};
use crate::element::{
    delim_close, delim_open, fence, header_toml, kind_text, lemma_split_framed, looks_like_spec, lemma_split_framed_trimmed, parse_spec, serialize_fails,
    serialize_spec, splits_cleanly, validate_spec, write_spec, ElementView,
};
use crate::error::ErrorView;
use crate::migrate::{migrate_file_spec, migrated, migrated_all, MigrateOutcomeView};
use crate::render::{
    compose_element, para_sep, paste_all, paste_inputs, paste_text, render_body_spec, resolved,
    wrap_spec,
};
use crate::header::{HeaderView, InputRefView, PromptElementKind};
use crate::raw_header::{
    entry_input, entry_of_model, header_spec, raw_of_model, recipe_inputs, RawEntryView, RawNumber,
    RawRecipeView, RawTextView,
};
use crate::text::{
    join, lacks, lemma_first_match_at, lemma_lines_cons, lemma_lines_split, lemma_lines_terminated,
    lemma_trim_trailing_last, lines, nl, strip_cr, trim_end, trim_trailing,
};
use crate::toml_doc::{toml_parse_outcome, TomlModel};

verus! {

pub open spec fn opt_str_model(
    m: Map<Seq<char>, TomlModel>,
    key: Seq<char>,
    o: Option<Seq<char>>,
) -> Map<Seq<char>, TomlModel> {
    match o {
        Some(s) => m.insert(key, TomlModel::Str(s)),
        None => m,
    }
}

pub open spec fn opt_int_model(m: Map<Seq<char>, TomlModel>, key: Seq<char>, o: Option<u32>) -> Map<
    Seq<char>,
    TomlModel,
> {
    match o {
        Some(n) => m.insert(key, TomlModel::Int(n as int)),
        None => m,
    }
}

/// The table of one recipe entry, read as keys and values.
pub open spec fn input_model(r: InputRefView) -> Map<Seq<char>, TomlModel> {
    Map::empty().insert("id"@, TomlModel::Str(r.id)).insert("version"@, TomlModel::Str(r.version))
}

/// The table `header_entries(h)` lists, read as keys and values: what
/// `toml` gives back if it reads its own text as it was meant.
pub open spec fn header_model(h: HeaderView) -> Map<Seq<char>, TomlModel> {
    let base = Map::empty().insert("name"@, TomlModel::Str(h.name)).insert(
        "kind"@,
        TomlModel::Str(kind_text(h.kind)),
    ).insert("id"@, TomlModel::Str(h.id)).insert("version"@, TomlModel::Str(h.version)).insert(
        "meta"@,
        TomlModel::Str(h.meta),
    );
    let m = opt_int_model(
        opt_int_model(
            opt_str_model(opt_str_model(base, "generated_at"@, h.generated_at), "render_mode"@, h.render_mode),
            "body_level"@,
            h.body_level,
        ),
        "depth"@,
        h.depth,
    );
    match h.composed_of {
        Some(v) => m.insert(
            "composed_of"@,
            TomlModel::Array(v.map_values(|r: InputRefView| TomlModel::Table(input_model(r)))),
        ),
        None => m,
    }
}

/// `toml` reads back, from the text it wrote for the header (less its final
/// newline, as the frontmatter is cut), the table the library wrote.
pub open spec fn reads_back(h: HeaderView) -> bool {
    toml_parse_outcome(header_toml(h).drop_last()) == Ok::<Map<Seq<char>, TomlModel>, Seq<char>>(
        header_model(h),
    )
}

/// Reading the header schema from the table the library wrote gives back
/// the header, except that legacy reading gives a compound without a
/// `depth` its body level as depth.
pub proof fn lemma_header_read_back(h: HeaderView, legacy: bool)
    requires
        legacy ==> h.kind == PromptElementKind::Atom || h.depth is Some,
    ensures
        header_spec(raw_of_model(header_model(h)), legacy) == Ok::<HeaderView, Seq<char>>(h),
{
    reveal_strlit("name");
    reveal_strlit("kind");
    reveal_strlit("id");
    reveal_strlit("version");
    reveal_strlit("meta");
    reveal_strlit("generated_at");
    reveal_strlit("render_mode");
    reveal_strlit("body_level");
    reveal_strlit("depth");
    reveal_strlit("order");
    reveal_strlit("composed_of");
    reveal_strlit("atom");
    reveal_strlit("compound");
    assert("name"@.len() == 4 && "name"@[0] == 'n');
    assert("kind"@.len() == 4 && "kind"@[0] == 'k');
    assert("id"@.len() == 2);
    assert("version"@.len() == 7);
    assert("meta"@.len() == 4 && "meta"@[0] == 'm');
    assert("generated_at"@.len() == 12);
    assert("render_mode"@.len() == 11 && "render_mode"@[0] == 'r');
    assert("body_level"@.len() == 10);
    assert("depth"@.len() == 5 && "depth"@[0] == 'd');
    assert("order"@.len() == 5 && "order"@[0] == 'o');
    assert("composed_of"@.len() == 11 && "composed_of"@[0] == 'c');
    assert("atom"@.len() == 4 && "compound"@.len() == 8);
    let m = header_model(h);
    let raw = raw_of_model(m);
    assert(raw.name == RawTextView::Text(h.name));
    assert(raw.kind == RawTextView::Text(kind_text(h.kind)));
    assert(raw.id == RawTextView::Text(h.id));
    assert(raw.version == RawTextView::Text(h.version));
    assert(raw.meta == RawTextView::Text(h.meta));
    assert(!m.contains_key("order"@));
    if h.kind == PromptElementKind::Compound {
        assert("compound"@ != "atom"@);
    }
    assert(raw.generated_at == match h.generated_at {
        Some(g) => RawTextView::Text(g),
        None => RawTextView::Missing,
    });
    assert(raw.render_mode == match h.render_mode {
        Some(g) => RawTextView::Text(g),
        None => RawTextView::Missing,
    });
    assert(raw.body_level == match h.body_level {
        Some(n) => RawNumber::Number(n as i64),
        None => RawNumber::Missing,
    });
    assert(raw.depth == match h.depth {
        Some(n) => RawNumber::Number(n as i64),
        None => RawNumber::Missing,
    });
    match h.composed_of {
        Some(v) => {
            let items = v.map_values(|r: InputRefView| TomlModel::Table(input_model(r)));
            assert(m.contains_key("composed_of"@) && m["composed_of"@] == TomlModel::Array(items));
            let es = items.map_values(|x: TomlModel| entry_of_model(x));
            assert(raw.composed_of == RawRecipeView::Entries(es));
            let pred = |e: RawEntryView| entry_input(e) is Err;
            assert forall|j: int| 0 <= j < es.len() implies entry_input(#[trigger] es[j]) == Ok::<
                InputRefView,
                Seq<char>,
            >(v[j]) by {
                assert(items[j] == TomlModel::Table(input_model(v[j])));
                assert(input_model(v[j]).contains_key("id"@));
                assert(input_model(v[j])["id"@] == TomlModel::Str(v[j].id));
            }
            assert forall|j: int| 0 <= j < es.len() implies !pred(#[trigger] es[j]) by {
                assert(entry_input(es[j]) is Ok);
            }
            lemma_first_match_at(es, pred, es.len() as int);
            assert(es.map_values(|e: RawEntryView| entry_input(e)->Ok_0) =~= v);
            assert(recipe_inputs(es) == Ok::<Seq<InputRefView>, Seq<char>>(v));
        },
        None => {
            assert(raw.composed_of == RawRecipeView::Missing);
        },
    }
}

/// What reading back a serialized element gives: its header, its body
/// without trailing newlines, and the path it was read under.
pub open spec fn read_back(e: ElementView, path: Seq<char>) -> ElementView {
    ElementView { header: e.header, body: trim_trailing(e.body, '\n'), source_path: Some(path) }
}

/// Trimming trailing characters twice trims nothing more.
pub proof fn lemma_trim_trailing_idempotent(s: Seq<char>, c: char)
    ensures
        trim_trailing(trim_trailing(s, c), c) == trim_trailing(s, c),
{
    lemma_trim_trailing_last(s, c);
}

/// Parsing what serializing wrote gives the element back (its body without
/// trailing newlines, read under the path), when the element splits back
/// cleanly, `toml` reads back the table it wrote, and the header and body
/// pass validation; in legacy mode a compound must carry its depth.
pub proof fn lemma_parse_serialized(e: ElementView, path: Seq<char>, legacy: bool)
    requires
        splits_cleanly(e),
        reads_back(e.header),
        validate_spec(e.header, trim_trailing(e.body, '\n'), path) is None,
        legacy ==> e.header.kind == PromptElementKind::Atom || e.header.depth is Some,
    ensures
        parse_spec(serialize_spec(e), path, legacy) == Ok::<ElementView, ErrorView>(read_back(e, path)),
        parse_spec(trim_trailing(serialize_spec(e), '\n'), path, legacy) == Ok::<ElementView, ErrorView>(
            read_back(e, path),
        ),
{
    lemma_split_framed(header_toml(e.header), e.body, path);
    lemma_split_framed_trimmed(header_toml(e.header), e.body, path);
    lemma_header_read_back(e.header, legacy);
}

/// What writing an element puts on disk reads back as the element (its
/// body without trailing newlines, read under the path written to), when
/// the element splits back cleanly and `toml` reads back the table it
/// wrote.
pub proof fn lemma_written_reads_back(e: ElementView, path: Seq<char>)
    requires
        splits_cleanly(e),
        reads_back(e.header),
    ensures
        write_spec(e, path) matches Ok(t) ==> parse_spec(t, path, false) == Ok::<ElementView, ErrorView>(
            read_back(e, path),
        ),
{
    lemma_split_framed(header_toml(e.header), e.body, path);
    lemma_header_read_back(e.header, false);
}

/// Serializing is idempotent: when what serializing wrote parses, the
/// element read back serializes to the same text, provided the element
/// splits back cleanly and `toml` reads back the table it wrote.
pub proof fn lemma_serialize_idempotent(e: ElementView, path: Seq<char>, legacy: bool)
    requires
        splits_cleanly(e),
        reads_back(e.header),
        !serialize_fails(e),
        legacy ==> e.header.kind == PromptElementKind::Atom || e.header.depth is Some,
    ensures
        parse_spec(serialize_spec(e), path, legacy) matches Ok(x) ==> !serialize_fails(x)
            && serialize_spec(x) == serialize_spec(e),
{
    lemma_split_framed(header_toml(e.header), e.body, path);
    lemma_header_read_back(e.header, legacy);
    lemma_trim_trailing_idempotent(e.body, '\n');
}

/// Parsing every chunk succeeds exactly as given: all of them parse to the
/// listed elements.
pub proof fn lemma_parse_all_each(chunks: Seq<Seq<char>>, path: Seq<char>, legacy: bool, xs: Seq<ElementView>)
    requires
        xs.len() == chunks.len(),
        forall|j: int|
            0 <= j < chunks.len() ==> parse_spec(#[trigger] chunks[j], path, legacy) == Ok::<
                ElementView,
                ErrorView,
            >(xs[j]),
    ensures
        parse_all(chunks, path, legacy) == Ok::<Seq<ElementView>, ErrorView>(xs),
    decreases chunks.len(),
{
    if chunks.len() > 0 {
        assert forall|j: int| 0 <= j < chunks.drop_first().len() implies parse_spec(
            #[trigger] chunks.drop_first()[j],
            path,
            legacy,
        ) == Ok::<ElementView, ErrorView>(xs.drop_first()[j]) by {
            assert(chunks.drop_first()[j] == chunks[j + 1]);
        }
        lemma_parse_all_each(chunks.drop_first(), path, legacy, xs.drop_first());
        assert(parse_spec(chunks[0], path, legacy) == Ok::<ElementView, ErrorView>(xs[0]));
        assert(seq![xs[0]] + xs.drop_first() =~= xs);
    } else {
        assert(xs =~= Seq::<ElementView>::empty());
    }
}

/// Composing and then decomposing one level gives back the inputs, in
/// request order, with their full headers, their bodies without trailing
/// newlines, and the compound's embedded path: provided each serialized
/// input fits the compound's body level and splits back cleanly, `toml`
/// reads back each table it wrote, and each input passes validation (in
/// legacy mode a compound input must carry its depth).
pub proof fn lemma_decompose_compose_recovers(
    lib: Seq<ElementView>,
    ins: Seq<(Seq<char>, Option<Seq<char>>)>,
    id: Seq<char>,
    name: Seq<char>,
    version: Seq<char>,
    meta: Seq<char>,
    generated_at: Seq<char>,
    legacy: bool,
)
    requires
        ins.len() > 0,
        forall|i: int| 0 <= i < ins.len() ==> fits_level(
            trim_trailing(#[trigger] serialize_spec(resolved(lib, ins)[i]), '\n'),
            compose_element(lib, ins, id, name, version, meta, generated_at).header.body_level.unwrap(),
        ),
        forall|i: int|
            0 <= i < ins.len() ==> {
                let x = #[trigger] resolved(lib, ins)[i];
                &&& splits_cleanly(x)
                &&& reads_back(x.header)
                &&& validate_spec(x.header, trim_trailing(x.body, '\n'), embedded_path(id)) is None
                &&& legacy ==> x.header.kind == PromptElementKind::Atom || x.header.depth is Some
            },
    ensures
        decompose_spec(compose_element(lib, ins, id, name, version, meta, generated_at), legacy) == Ok::<
            Seq<ElementView>,
            ErrorView,
        >(resolved(lib, ins).map_values(|x: ElementView| read_back(x, embedded_path(id)))),
{
    lemma_decompose_compose(lib, ins, id, name, version, meta, generated_at, legacy);
    let rs = resolved(lib, ins);
    let files = rs.map_values(|x: ElementView| serialize_spec(x));
    let chunks = trimmed_files(files);
    let p = embedded_path(id);
    let ys = rs.map_values(|x: ElementView| read_back(x, p));
    assert forall|j: int| 0 <= j < chunks.len() implies parse_spec(#[trigger] chunks[j], p, legacy)
        == Ok::<ElementView, ErrorView>(ys[j]) by {
        let x = rs[j];
        assert(chunks[j] == trim_trailing(serialize_spec(x), '\n'));
        lemma_parse_serialized(x, p, legacy);
    }
    lemma_parse_all_each(chunks, p, legacy, ys);
}

/// Adding a final newline to a text without carriage returns adds at most
/// one empty line to its lines.
pub proof fn lemma_lines_add_nl(s: Seq<char>)
    requires
        lacks(s, '\r'),
    ensures
        lines(s + nl()) == lines(s) || lines(s + nl()) == lines(s) + seq![Seq::<char>::empty()],
{
    if s.len() == 0 {
        lemma_lines_cons(Seq::<char>::empty(), Seq::<char>::empty());
        assert(Seq::<char>::empty() + nl() + Seq::<char>::empty() =~= s + nl());
        assert(lines(Seq::<char>::empty()) =~= Seq::<Seq<char>>::empty());
        assert(strip_cr(Seq::<char>::empty()) =~= Seq::<char>::empty());
        assert(lines(s + nl()) =~= lines(s) + seq![Seq::<char>::empty()]);
    } else if s.last() != '\n' {
        lemma_lines_terminated(s);
    } else {
        let a = s.drop_last();
        assert(s =~= a + nl());
        lemma_lines_split(a, nl());
        assert(a + nl() + nl() =~= s + nl());
        lemma_lines_cons(Seq::<char>::empty(), Seq::<char>::empty());
        assert(Seq::<char>::empty() + nl() + Seq::<char>::empty() =~= nl());
        assert(lines(Seq::<char>::empty()) =~= Seq::<Seq<char>>::empty());
        assert(strip_cr(Seq::<char>::empty()) =~= Seq::<char>::empty());
        assert(lines(nl()) =~= seq![Seq::<char>::empty()]);
    }
}

/// An empty line at the end changes nothing a scan finds: it is no
/// delimiter, and an unclosed chunk stays unclosed.
pub proof fn lemma_scan_trailing_empty(
    ls: Seq<Seq<char>>,
    open: Seq<char>,
    close: Seq<char>,
    done: Seq<Seq<char>>,
    cur: Option<Seq<Seq<char>>>,
)
    requires
        open.len() > 0,
        close.len() > 0,
    ensures
        scan(ls + seq![Seq::<char>::empty()], open, close, done, cur) == scan(ls, open, close, done, cur),
    decreases ls.len(),
{
    reveal_with_fuel(scan, 2);
    let e = Seq::<char>::empty();
    let l2 = ls + seq![e];
    if ls.len() == 0 {
        assert(l2 =~= seq![e]);
        assert(l2.drop_first() =~= Seq::<Seq<char>>::empty());
        assert(trim_end(e) =~= e);
        assert(e != open && e != close);
    } else {
        assert(l2[0] == ls[0]);
        assert(l2.drop_first() =~= ls.drop_first() + seq![e]);
        let t = trim_end(ls[0]);
        let rest = ls.drop_first();
        if t == open {
            if cur is None {
                lemma_scan_trailing_empty(rest, open, close, done, Some(seq![]));
            }
        } else if t == close {
            if let Some(buf) = cur {
                lemma_scan_trailing_empty(rest, open, close, done.push(join(buf, nl())), None);
            }
        } else {
            match cur {
                Some(buf) => lemma_scan_trailing_empty(rest, open, close, done, Some(buf.push(ls[0]))),
                None => lemma_scan_trailing_empty(rest, open, close, done, None),
            }
        }
    }
}

/// Trailing newlines of a body do not change its chunks.
pub proof fn lemma_chunks_trim_trailing(b: Seq<char>, level: u32)
    requires
        lacks(b, '\r'),
    ensures
        chunks_of(trim_trailing(b, '\n'), level) == chunks_of(b, level),
    decreases b.len(),
{
    if b.len() > 0 && b.last() == '\n' {
        let s = b.drop_last();
        assert(b =~= s + nl());
        assert(lacks(s, '\r')) by {
            assert forall|i: int| 0 <= i < s.len() implies #[trigger] s[i] != '\r' by {
                assert(s[i] == b[i]);
            }
        }
        lemma_chunks_trim_trailing(s, level);
        lemma_lines_add_nl(s);
        assert(delim_open(level).len() > 0 && delim_close(level).len() > 0) by {
            assert(delim_open(level).last() == '>');
            assert(delim_close(level).last() == '<');
        }
        lemma_scan_trailing_empty(lines(s), delim_open(level), delim_close(level), seq![], None);
    }
}

/// Removing trailing newlines does not change what trimming whitespace
/// leaves.
pub proof fn lemma_trim_end_trailing(b: Seq<char>)
    ensures
        trim_end(trim_trailing(b, '\n')) == trim_end(b),
    decreases b.len(),
{
    if b.len() > 0 && b.last() == '\n' {
        lemma_trim_end_trailing(b.drop_last());
    }
}

/// The prose of a list does not depend on the room given, as long as every
/// body fits in it.
pub proof fn lemma_paste_all_room(xs: Seq<ElementView>, r1: nat, r2: nat)
    requires
        forall|j: int| 0 <= j < xs.len() ==> #[trigger] xs[j].body.len() < r1,
        forall|j: int| 0 <= j < xs.len() ==> #[trigger] xs[j].body.len() < r2,
    ensures
        paste_all(xs, r1) == paste_all(xs, r2),
    decreases xs.len(),
{
    if xs.len() > 0 {
        let t = xs.drop_first();
        assert forall|j: int| 0 <= j < t.len() implies #[trigger] t[j].body.len() < r1 && t[j].body.len() < r2 by {
            assert(t[j] == xs[j + 1]);
        }
        lemma_paste_all_room(t, r1, r2);
    }
}

/// An element read back renders as the element did.
pub proof fn lemma_paste_read_back(x: ElementView, p: Seq<char>)
    requires
        lacks(x.body, '\r'),
    ensures
        paste_text(read_back(x, p)) == paste_text(x),
{
    let y = read_back(x, p);
    if x.header.kind == PromptElementKind::Atom {
        lemma_trim_end_trailing(x.body);
    } else {
        if let Some(level) = x.header.body_level {
            lemma_chunks_trim_trailing(x.body, level);
        }
        assert(decompose_spec(y, false) == decompose_spec(x, false));
        lemma_decompose_shrinks(x, false);
        lemma_decompose_shrinks(y, false);
        if let Ok(xs) = decompose_spec(x, false) {
            lemma_paste_all_room(xs, y.body.len(), x.body.len());
        }
    }
}

/// Elements that render alike, in order, render alike as a list.
pub proof fn lemma_paste_all_inputs(ys: Seq<ElementView>, room: nat, zs: Seq<ElementView>)
    requires
        ys.len() == zs.len(),
        forall|j: int| 0 <= j < ys.len() ==> #[trigger] ys[j].body.len() < room,
        forall|j: int| 0 <= j < ys.len() ==> paste_text(#[trigger] ys[j]) == paste_text(zs[j]),
    ensures
        paste_all(ys, room) == paste_inputs(zs),
    decreases ys.len(),
{
    if ys.len() > 0 {
        let a = ys.drop_first();
        let b = zs.drop_first();
        assert forall|j: int| 0 <= j < a.len() implies #[trigger] a[j].body.len() < room && paste_text(a[j])
            == paste_text(b[j]) by {
            assert(a[j] == ys[j + 1]);
            assert(b[j] == zs[j + 1]);
        }
        lemma_paste_all_inputs(a, room, b);
        assert(paste_text(ys[0]) == paste_text(zs[0]));
    }
}

/// A composed compound renders exactly as its inputs do, so nesting never
/// changes the prose: its paste text is the inputs' paste texts joined by
/// blank lines (or the first failure), under the conditions of
/// `lemma_decompose_compose_recovers`.
pub proof fn lemma_compound_renders_as_inputs(
    lib: Seq<ElementView>,
    ins: Seq<(Seq<char>, Option<Seq<char>>)>,
    id: Seq<char>,
    name: Seq<char>,
    version: Seq<char>,
    meta: Seq<char>,
    generated_at: Seq<char>,
)
    requires
        ins.len() > 0,
        forall|i: int| 0 <= i < ins.len() ==> fits_level(
            trim_trailing(#[trigger] serialize_spec(resolved(lib, ins)[i]), '\n'),
            compose_element(lib, ins, id, name, version, meta, generated_at).header.body_level.unwrap(),
        ),
        forall|i: int|
            0 <= i < ins.len() ==> {
                let x = #[trigger] resolved(lib, ins)[i];
                &&& splits_cleanly(x)
                &&& reads_back(x.header)
                &&& validate_spec(x.header, trim_trailing(x.body, '\n'), embedded_path(id)) is None
            },
    ensures
        paste_text(compose_element(lib, ins, id, name, version, meta, generated_at)) == match paste_inputs(
            resolved(lib, ins),
        ) {
            Ok(parts) => Ok::<Seq<char>, ErrorView>(join(parts, para_sep())),
            Err(err) => Err(err),
        },
{
    lemma_decompose_compose_recovers(lib, ins, id, name, version, meta, generated_at, false);
    let c = compose_element(lib, ins, id, name, version, meta, generated_at);
    let rs = resolved(lib, ins);
    let p = embedded_path(id);
    let ys = rs.map_values(|x: ElementView| read_back(x, p));
    lemma_decompose_shrinks(c, false);
    assert forall|j: int| 0 <= j < ys.len() implies paste_text(#[trigger] ys[j]) == paste_text(rs[j]) by {
        assert(splits_cleanly(rs[j]));
        lemma_paste_read_back(rs[j], p);
    }
    lemma_paste_all_inputs(ys, c.body.len(), rs);
}

/// A joined list ends with the last item's last character.
pub proof fn lemma_join_last(ls: Seq<Seq<char>>, sep: Seq<char>)
    requires
        ls.len() > 0,
        ls.last().len() > 0,
    ensures
        join(ls, sep).len() > 0,
        join(ls, sep).last() == ls.last().last(),
    decreases ls.len(),
{
    if ls.len() > 1 {
        let t = ls.drop_first();
        assert(t.last() == ls.last());
        lemma_join_last(t, sep);
        let j = ls[0] + sep + join(t, sep);
        assert(j.last() == join(t, sep).last());
    }
}

/// A rendered body does not end with a newline.
pub proof fn lemma_render_body_untrimmed(level: u32, files: Seq<Seq<char>>)
    ensures
        trim_trailing(render_body_spec(level, files), '\n') == render_body_spec(level, files),
{
    let ws = files.map_values(|f: Seq<char>| wrap_spec(level, f));
    if files.len() > 0 {
        let w = ws.last();
        assert(w == wrap_spec(level, files.last()));
        assert(delim_close(level).last() == '<');
        assert(w.last() == delim_close(level).last());
        lemma_join_last(ws, nl());
    } else {
        assert(ws =~= Seq::<Seq<char>>::empty());
    }
}

/// A settled element is one that migration leaves as it is: its header can
/// be written, and a compound's body is the rendering, at its body level,
/// of the files of its sub-elements (read in legacy mode), each settled in
/// turn.
pub open spec fn settled(x: ElementView) -> bool
    decreases x.body.len(),
{
    &&& !serialize_fails(x)
    &&& (x.header.kind == PromptElementKind::Compound ==> match x.header.body_level {
        None => false,
        Some(l) => match decompose_spec(x, true) {
            Err(_) => false,
            Ok(ys) => {
                proof {
                    lemma_decompose_shrinks(x, true);
                }
                &&& x.body == render_body_spec(l, ys.map_values(|y: ElementView| serialize_spec(y)))
                &&& forall|i: int| 0 <= i < ys.len() ==> settled(#[trigger] ys[i])
            },
        },
    })
}

/// Migrating a settled element keeps its header and its body.
pub proof fn lemma_migrated_settled(x: ElementView)
    requires
        settled(x),
    ensures
        migrated(x) matches Ok(y) && y.header == x.header && y.body == x.body,
    decreases x.body.len() + 1, 0nat,
{
    if x.header.kind != PromptElementKind::Atom {
        let l = x.header.body_level.unwrap();
        let ys = decompose_spec(x, true)->Ok_0;
        lemma_decompose_shrinks(x, true);
        lemma_migrated_all_settled(ys, x.body.len());
        let ms = migrated_all(ys, x.body.len())->Ok_0;
        assert(ms.map_values(|m: ElementView| serialize_spec(m)) =~= ys.map_values(
            |y: ElementView| serialize_spec(y),
        ));
    }
}

/// Migrating settled elements keeps each one's header and body.
pub proof fn lemma_migrated_all_settled(ys: Seq<ElementView>, room: nat)
    requires
        forall|j: int| 0 <= j < ys.len() ==> #[trigger] ys[j].body.len() < room,
        forall|j: int| 0 <= j < ys.len() ==> settled(#[trigger] ys[j]),
    ensures
        migrated_all(ys, room) matches Ok(ms) && ms.len() == ys.len() && forall|j: int|
            0 <= j < ys.len() ==> (#[trigger] ms[j]).header == ys[j].header && ms[j].body
                == ys[j].body,
    decreases room, ys.len(),
{
    if ys.len() > 0 {
        let t = ys.drop_first();
        assert forall|j: int| 0 <= j < t.len() implies #[trigger] t[j].body.len() < room && settled(t[j]) by {
            assert(t[j] == ys[j + 1]);
        }
        assert(ys[0].body.len() < room);
        assert(settled(ys[0]));
        lemma_migrated_settled(ys[0]);
        lemma_migrated_all_settled(t, room);
        let m = migrated(ys[0])->Ok_0;
        assert(serialize_fails(m) == serialize_fails(ys[0]));
        let rest = migrated_all(t, room)->Ok_0;
        let ms = seq![m] + rest;
        assert(migrated_all(ys, room) == Ok::<Seq<ElementView>, ErrorView>(ms));
        assert forall|j: int| 0 <= j < ys.len() implies (#[trigger] ms[j]).header == ys[j].header
            && ms[j].body == ys[j].body by {
            if j > 0 {
                assert(ms[j] == rest[j - 1]);
                assert(ys[j] == t[j - 1]);
            }
        }
    }
}

/// Migration is idempotent on v0.2 files: migrating the file a settled,
/// valid element is written to gives back that same text, when the element
/// splits back cleanly, `toml` reads back the table it wrote, and a
/// compound carries its depth.
pub proof fn lemma_migrate_idempotent(e: ElementView, path: Seq<char>)
    requires
        settled(e),
        splits_cleanly(e),
        reads_back(e.header),
        e.header.kind == PromptElementKind::Atom || e.header.depth is Some,
        write_spec(e, path) is Ok,
    ensures
        migrate_file_spec(path, serialize_spec(e)) == MigrateOutcomeView::Rewrite(serialize_spec(e)),
{
    let t = serialize_spec(e);
    let h = e.header;
    lemma_split_framed(header_toml(h), e.body, path);
    lemma_header_read_back(h, false);
    lemma_header_read_back(h, true);
    assert(validate_spec(h, trim_trailing(e.body, '\n'), path) is None);
    lemma_parse_serialized(e, path, true);
    assert(t.take(4) =~= fence().push('\n'));
    assert(looks_like_spec(t));
    let r = read_back(e, path);
    lemma_trim_trailing_idempotent(e.body, '\n');
    if h.kind == PromptElementKind::Compound {
        let l = h.body_level.unwrap();
        lemma_chunks_trim_trailing(e.body, l);
        assert(decompose_spec(r, true) == decompose_spec(e, true));
        let ys = decompose_spec(e, true)->Ok_0;
        lemma_render_body_untrimmed(l, ys.map_values(|y: ElementView| serialize_spec(y)));
        assert(r.body == e.body);
        lemma_decompose_shrinks(e, true);
        assert(settled(r));
    } else {
        assert(settled(r));
    }
    lemma_migrated_settled(r);
    let m2 = migrated(r)->Ok_0;
    assert(serialize_spec(m2) == serialize_spec(r));
    assert(serialize_spec(r) == t);
    assert(write_spec(m2, path) == write_spec(e, path));
}

} // verus!
