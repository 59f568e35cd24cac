//! Decompose: the SPLIT operator.
//!
//! One level: split the body of a compound into its immediate
//! sub-elements, each a complete Oovra file between the level's chiral
//! delimiters, and parse them. The full, recursive decomposition into a
//! folder tree is driven one element at a time by [`full_step`]; the
//! caller performs the file writes it asks for.

use vstd::prelude::*;

use crate::element::{
    close_chars, delim_close, delim_open, header_toml, lemma_split_framed_trimmed, open_chars,
    parse_spec, parse_with, serialize, serialize_outcome, serialize_spec, splits_cleanly,
    ElementView, ParseOptions, PromptElement,
};
use crate::create::text_result_view;
use crate::error::{ErrorView, OovraError, Result};
use crate::header::PromptElementKind;
use crate::library::elements_view;
use crate::render::{compose_element, render_body_spec, resolved};
use crate::text::{
    append_chars, chars_eq, chars_of, join, join_vecs, lacks, lemma_join_lines, lemma_lines_cons,
    lemma_lines_no_newline, lemma_lines_split, lemma_lines_terminated, lemma_trim_trailing_last,
    line_total, lines, newline_chars, nl, split_lines, string_of, strip_cr, trim_end, trim_end_vec,
    trim_trailing,
};

verus! {

/// Why a compound's body could not be cut into chunks.
#[derive(Debug, Clone, Copy, PartialEq, Eq, Structural)]
pub enum ChunkError {
    /// An open delimiter inside an open chunk.
    NestedOpen,
    /// A close delimiter outside any chunk.
    StrayClose,
    /// The body ended inside a chunk.
    Unclosed,
    /// The body held no chunk at all.
    NoChunks,
}

/// Cutting the lines `ls` into chunks, given the chunks already closed
/// (`done`) and the lines of the chunk being read, if one is open (`cur`).
/// A line counts as a delimiter when it equals one once its trailing
/// whitespace is removed; a closed chunk is its lines joined by `\n`.
/// Lines outside every chunk are ignored.
pub open spec fn scan(
    ls: Seq<Seq<char>>,
    open: Seq<char>,
    close: Seq<char>,
    done: Seq<Seq<char>>,
    cur: Option<Seq<Seq<char>>>,
) -> core::result::Result<Seq<Seq<char>>, ChunkError>
    decreases ls.len(),
{
    if ls.len() == 0 {
        match cur {
            Some(_) => Err(ChunkError::Unclosed),
            None => if done.len() == 0 {
                Err(ChunkError::NoChunks)
            } else {
                Ok(done)
            },
        }
    } else {
        let t = trim_end(ls[0]);
        let rest = ls.drop_first();
        if t == open {
            match cur {
                Some(_) => Err(ChunkError::NestedOpen),
                None => scan(rest, open, close, done, Some(seq![])),
            }
        } else if t == close {
            match cur {
                Some(buf) => scan(rest, open, close, done.push(join(buf, nl())), None),
                None => Err(ChunkError::StrayClose),
            }
        } else {
            match cur {
                Some(buf) => scan(rest, open, close, done, Some(buf.push(ls[0]))),
                None => scan(rest, open, close, done, None),
            }
        }
    }
}

/// The chunks of a body at a delimiter level.
pub open spec fn chunks_of(body: Seq<char>, level: u32) -> core::result::Result<
    Seq<Seq<char>>,
    ChunkError,
> {
    scan(lines(body), delim_open(level), delim_close(level), seq![], None)
}

/// The reason text reported for a chunking failure at `level`.
pub open spec fn chunk_reason(err: ChunkError, level: u32) -> Seq<char> {
    let open = delim_open(level);
    let close = delim_close(level);
    match err {
        ChunkError::NestedOpen => "encountered '"@ + open + "' while still inside an open chunk"@,
        ChunkError::StrayClose => "encountered '"@ + close + "' without a matching '"@ + open
            + "'"@,
        ChunkError::Unclosed => "missing '"@ + close + "' to close the final chunk"@,
        ChunkError::NoChunks => "no '"@ + open + "' delimiters found in body"@,
    }
}

/// Split `body` into the chunks between level-`body_level` delimiters.
pub fn split_chunks(body: &str, body_level: u32) -> (res: core::result::Result<
    Vec<Vec<char>>,
    ChunkError,
>)
    ensures
        match res {
            Ok(v) => chunks_of(body@, body_level) == Ok::<Seq<Seq<char>>, ChunkError>(
                v.deep_view(),
            ),
            Err(e) => chunks_of(body@, body_level) == Err::<Seq<Seq<char>>, ChunkError>(e),
        },
{
    let open = open_chars(body_level);
    let close = close_chars(body_level);
    let content = chars_of(body);
    let ls = split_lines(content.as_slice());
    let ghost lv = ls.deep_view();
    let ghost o = delim_open(body_level);
    let ghost c = delim_close(body_level);
    let mut done: Vec<Vec<char>> = Vec::new();
    let mut buf: Vec<Vec<char>> = Vec::new();
    let mut inside: bool = false;
    let mut i: usize = 0;
    assert(lv.skip(0) =~= lv);
    assert(done.deep_view() =~= Seq::<Seq<char>>::empty());
    while i < ls.len()
        invariant
            i <= ls@.len(),
            lv == ls.deep_view(),
            lv == lines(body@),
            open@ == o,
            close@ == c,
            o == delim_open(body_level),
            c == delim_close(body_level),
            scan(lv, o, c, seq![], None) == scan(
                lv.skip(i as int),
                o,
                c,
                done.deep_view(),
                if inside {
                    Some(buf.deep_view())
                } else {
                    None
                },
            ),
        decreases ls.len() - i,
    {
        let ghost cur = if inside {
            Some(buf.deep_view())
        } else {
            None::<Seq<Seq<char>>>
        };
        proof {
            assert(lv.skip(i as int).drop_first() =~= lv.skip(i + 1));
            assert(lv.skip(i as int)[0] == lv[i as int]);
            assert(lv[i as int] == ls@[i as int]@);
        }
        let t = trim_end_vec(ls[i].as_slice());
        if chars_eq(t.as_slice(), open.as_slice()) {
            if inside {
                return Err(ChunkError::NestedOpen);
            }
            buf = Vec::new();
            inside = true;
            assert(buf.deep_view() =~= Seq::<Seq<char>>::empty());
        } else if chars_eq(t.as_slice(), close.as_slice()) {
            if !inside {
                return Err(ChunkError::StrayClose);
            }
            let sep = newline_chars();
            let chunk = join_vecs(&buf, sep.as_slice());
            let ghost before = done.deep_view();
            let ghost cg = chunk;
            proof {
                crate::text::lemma_chars_deep_view(cg);
            }
            done.push(chunk);
            proof {
                assert(done@.last() == cg);
                assert(done.deep_view() =~= before.push(join(cur.unwrap(), nl())));
            }
            buf = Vec::new();
            inside = false;
        } else if inside {
            let line = crate::text::slice_range(ls[i].as_slice(), 0, ls[i].len());
            let ghost before = buf.deep_view();
            let ghost lg = line;
            proof {
                assert(ls@[i as int]@.subrange(0, ls@[i as int]@.len() as int) =~= ls@[i as int]@);
                crate::text::lemma_chars_deep_view(lg);
            }
            buf.push(line);
            proof {
                assert(buf@.last() == lg);
                assert(buf.deep_view() =~= before.push(lv[i as int]));
            }
        }
        i += 1;
    }
    assert(lv.skip(i as int) =~= Seq::<Seq<char>>::empty());
    if inside {
        return Err(ChunkError::Unclosed);
    }
    if done.len() == 0 {
        return Err(ChunkError::NoChunks);
    }
    Ok(done)
}

/// The path under which a compound's sub-elements are reported:
/// `<id:embedded>`.
pub open spec fn embedded_path(id: Seq<char>) -> Seq<char> {
    "<"@ + id + ":embedded>"@
}

/// Parsing each chunk in turn; the first failure stops.
pub open spec fn parse_all(chunks: Seq<Seq<char>>, path: Seq<char>, legacy: bool) -> core::result::Result<
    Seq<ElementView>,
    ErrorView,
>
    decreases chunks.len(),
{
    if chunks.len() == 0 {
        Ok(seq![])
    } else {
        match parse_spec(chunks[0], path, legacy) {
            Err(e) => Err(e),
            Ok(x) => match parse_all(chunks.drop_first(), path, legacy) {
                Err(e) => Err(e),
                Ok(rest) => Ok(seq![x] + rest),
            },
        }
    }
}

/// `done` followed by what `r` holds, or `r`'s error.
pub open spec fn after(done: Seq<ElementView>, r: core::result::Result<
    Seq<ElementView>,
    ErrorView,
>) -> core::result::Result<Seq<ElementView>, ErrorView> {
    match r {
        Ok(rest) => Ok(done + rest),
        Err(e) => Err(e),
    }
}

/// One-level decomposition of `e`: atoms and compounds without a
/// `body_level` are refused, the body is cut into chunks at its level, and
/// every chunk is parsed as a complete file under `<id:embedded>`.
pub open spec fn decompose_spec(e: ElementView, legacy: bool) -> core::result::Result<
    Seq<ElementView>,
    ErrorView,
> {
    let id = e.header.id;
    if e.header.kind == PromptElementKind::Atom {
        Err(ErrorView::CannotDecomposeAtom { id })
    } else {
        match e.header.body_level {
            None => Err(ErrorView::MissingField { path: embedded_path(id), field: "body_level"@ }),
            Some(level) => match chunks_of(e.body, level) {
                Err(ce) => Err(
                    ErrorView::BodyParse { id, body_level: level, reason: chunk_reason(ce, level) },
                ),
                Ok(cs) => parse_all(cs, embedded_path(id), legacy),
            },
        }
    }
}

pub open spec fn elements_result_view(r: Result<Vec<PromptElement>>) -> core::result::Result<
    Seq<ElementView>,
    ErrorView,
> {
    match r {
        Ok(v) => Ok(elements_view(v@)),
        Err(e) => Err(e@),
    }
}

fn embedded_path_string(id: &str) -> (s: String)
    ensures
        s@ == embedded_path(id@),
{
    let mut v: Vec<char> = Vec::new();
    let open = chars_of("<");
    append_chars(&mut v, open.as_slice());
    let idc = chars_of(id);
    append_chars(&mut v, idc.as_slice());
    let tail = chars_of(":embedded>");
    append_chars(&mut v, tail.as_slice());
    string_of(v.as_slice())
}

fn chunk_reason_string(err: ChunkError, body_level: u32) -> (s: String)
    ensures
        s@ == chunk_reason(err, body_level),
{
    let open = open_chars(body_level);
    let close = close_chars(body_level);
    let mut v: Vec<char> = Vec::new();
    match err {
        ChunkError::NestedOpen => {
            append_chars(&mut v, chars_of("encountered '").as_slice());
            append_chars(&mut v, open.as_slice());
            append_chars(&mut v, chars_of("' while still inside an open chunk").as_slice());
        },
        ChunkError::StrayClose => {
            append_chars(&mut v, chars_of("encountered '").as_slice());
            append_chars(&mut v, close.as_slice());
            append_chars(&mut v, chars_of("' without a matching '").as_slice());
            append_chars(&mut v, open.as_slice());
            append_chars(&mut v, chars_of("'").as_slice());
        },
        ChunkError::Unclosed => {
            append_chars(&mut v, chars_of("missing '").as_slice());
            append_chars(&mut v, close.as_slice());
            append_chars(&mut v, chars_of("' to close the final chunk").as_slice());
        },
        ChunkError::NoChunks => {
            append_chars(&mut v, chars_of("no '").as_slice());
            append_chars(&mut v, open.as_slice());
            append_chars(&mut v, chars_of("' delimiters found in body").as_slice());
        },
    }
    string_of(v.as_slice())
}

/// Same as [`decompose`] but each sub-element is parsed with the given
/// [`ParseOptions`]; legacy mode walks v0.1 compounds whose sub-elements
/// still carry `order`.
pub fn decompose_with(element: &PromptElement, opts: ParseOptions) -> (res: Result<
    Vec<PromptElement>,
>)
    ensures
        elements_result_view(res) == decompose_spec(element@, opts.legacy),
{
    if element.header.is_atom() {
        return Err(OovraError::CannotDecomposeAtom { id: element.header.id.clone() });
    }
    let body_level: u32 = match element.header.body_level {
        Some(l) => l,
        None => {
            return Err(
                OovraError::MissingField {
                    path: embedded_path_string(element.header.id.as_str()),
                    field: "body_level",
                },
            );
        },
    };
    let chunks = match split_chunks(element.body.as_str(), body_level) {
        Ok(c) => c,
        Err(ce) => {
            return Err(
                OovraError::BodyParse {
                    id: element.header.id.clone(),
                    body_level,
                    reason: chunk_reason_string(ce, body_level),
                },
            );
        },
    };
    let path = embedded_path_string(element.header.id.as_str());
    let ghost cs = chunks.deep_view();
    let ghost p = path@;
    let mut parsed: Vec<PromptElement> = Vec::new();
    let mut i: usize = 0;
    assert(cs.skip(0) =~= cs);
    assert(decompose_spec(element@, opts.legacy) == parse_all(cs, p, opts.legacy));
    assert(elements_view(parsed@) =~= Seq::<ElementView>::empty());
    assert(after(Seq::<ElementView>::empty(), parse_all(cs, p, opts.legacy)) =~= parse_all(cs, p, opts.legacy));
    while i < chunks.len()
        invariant
            i <= chunks@.len(),
            cs == chunks.deep_view(),
            p == path@,
            decompose_spec(element@, opts.legacy) == parse_all(cs, p, opts.legacy),
            after(seq![], parse_all(cs, p, opts.legacy)) == after(
                elements_view(parsed@),
                parse_all(cs.skip(i as int), p, opts.legacy),
            ),
        decreases chunks.len() - i,
    {
        proof {
            assert(cs.skip(i as int).drop_first() =~= cs.skip(i + 1));
            assert(cs.skip(i as int)[0] == cs[i as int]);
        }
        let text = string_of(chunks[i].as_slice());
        assert(text@ == cs[i as int]);
        let e = match parse_with(text.as_str(), path.as_str(), opts) {
            Ok(e) => e,
            Err(err) => {
                assert(parse_all(cs.skip(i as int), p, opts.legacy) == Err::<Seq<ElementView>, ErrorView>(err@));
                assert(parse_all(cs, p, opts.legacy) == Err::<Seq<ElementView>, ErrorView>(err@));
                return Err(err);
            },
        };
        let ghost before = elements_view(parsed@);
        parsed.push(e);
        proof {
            assert(elements_view(parsed@) =~= before.push(e@));
            match parse_all(cs.skip(i + 1), p, opts.legacy) {
                Ok(rest) => {
                    assert(before + (seq![e@] + rest) =~= before.push(e@) + rest);
                },
                Err(_) => {},
            }
        }
        i += 1;
    }
    proof {
        assert(cs.skip(i as int) =~= Seq::<Seq<char>>::empty());
        assert(elements_view(parsed@) + Seq::<ElementView>::empty() =~= elements_view(parsed@));
        match parse_all(cs, p, opts.legacy) {
            Ok(all) => { assert(Seq::<ElementView>::empty() + all =~= all); },
            Err(_) => {},
        }
    }
    Ok(parsed)
}

/// Split the body of a composed element into its immediate sub-elements,
/// parsing them in the default (v0.2-only) mode.
pub fn decompose(element: &PromptElement) -> (res: Result<Vec<PromptElement>>)
    ensures
        elements_result_view(res) == decompose_spec(element@, false),
{
    decompose_with(element, ParseOptions { legacy: false })
}

/// A line that is not one of the level's delimiters, even once its
/// trailing whitespace is removed.
pub open spec fn is_plain(l: Seq<char>, level: u32) -> bool {
    trim_end(l) != delim_open(level) && trim_end(l) != delim_close(level)
}

/// A file's text can travel between level-`level` delimiters and come
/// back unchanged: it has no carriage return, and none of its lines is one
/// of the level's delimiters.
pub open spec fn fits_level(t: Seq<char>, level: u32) -> bool {
    &&& lacks(t, '\r')
    &&& forall|k: int| 0 <= k < lines(t).len() ==> is_plain(#[trigger] lines(t)[k], level)
}

/// What a file carries inside a compound's body: its text without
/// trailing newlines.
pub open spec fn trimmed_files(files: Seq<Seq<char>>) -> Seq<Seq<char>> {
    files.map_values(|f: Seq<char>| trim_trailing(f, '\n'))
}

/// The lines of a rendered body: for each file, the open delimiter, the
/// file's lines, the close delimiter.
pub open spec fn body_lines(level: u32, files: Seq<Seq<char>>) -> Seq<Seq<char>>
    decreases files.len(),
{
    if files.len() == 0 {
        seq![]
    } else {
        seq![delim_open(level)] + lines(trim_trailing(files[0], '\n') + nl()) + seq![
            delim_close(level),
        ] + body_lines(level, files.drop_first())
    }
}

proof fn lemma_delims(level: u32)
    ensures
        trim_end(delim_open(level)) == delim_open(level),
        trim_end(delim_close(level)) == delim_close(level),
        delim_open(level) != delim_close(level),
        delim_open(level).len() > 0,
        delim_close(level).len() > 0,
        lacks(delim_open(level), '\n'),
        lacks(delim_close(level), '\n'),
        lines(delim_open(level) + nl()) == seq![delim_open(level)],
        lines(delim_close(level) + nl()) == seq![delim_close(level)],
        lines(delim_close(level)) == seq![delim_close(level)],
{
    let o = delim_open(level);
    let c = delim_close(level);
    assert(o.last() == '>');
    assert(c.last() == '<');
    assert(o[o.len() - 1] != c[c.len() - 1]);
    assert(lacks(o, '\n')) by {
        assert forall|j: int| 0 <= j < o.len() implies #[trigger] o[j] != '\n' by {
            if j < level + 1 {
                assert(o[j] == '~');
            }
        }
    }
    assert(lacks(c, '\n')) by {
        assert forall|j: int| 0 <= j < c.len() implies #[trigger] c[j] != '\n' by {
            if j < level + 1 {
                assert(c[j] == '~');
            }
        }
    }
    lemma_lines_cons(o, Seq::<char>::empty());
    lemma_lines_cons(c, Seq::<char>::empty());
    assert(o + nl() + Seq::<char>::empty() =~= o + nl());
    assert(c + nl() + Seq::<char>::empty() =~= c + nl());
    assert(lines(Seq::<char>::empty()) =~= Seq::<Seq<char>>::empty());
    assert(seq![o] + Seq::<Seq<char>>::empty() =~= seq![o]);
    assert(seq![c] + Seq::<Seq<char>>::empty() =~= seq![c]);
    lemma_lines_no_newline(c);
}

/// The lines of a rendered body are the delimited lines of its files.
proof fn lemma_lines_render(level: u32, files: Seq<Seq<char>>)
    ensures
        lines(render_body_spec(level, files)) == body_lines(level, files),
    decreases files.len(),
{
    lemma_delims(level);
    let o = delim_open(level);
    let c = delim_close(level);
    let ws = files.map_values(|f: Seq<char>| crate::render::wrap_spec(level, f));
    if files.len() == 0 {
        assert(ws.len() == 0);
        assert(lines(Seq::<char>::empty()) =~= Seq::<Seq<char>>::empty());
    } else {
        let t = trim_trailing(files[0], '\n');
        let rest = files.drop_first();
        assert(ws[0] == o + nl() + t + nl() + c);
        lemma_lines_render(level, rest);
        let head = seq![o] + lines(t + nl()) + seq![c];
        if files.len() == 1 {
            assert(render_body_spec(level, files) == ws[0]);
            assert(ws[0] =~= o + nl() + (t + nl() + c));
            lemma_lines_split(o, t + nl() + c);
            lemma_lines_split(t, c);
            assert(rest.len() == 0);
            assert(body_lines(level, rest) =~= Seq::<Seq<char>>::empty());
            assert(lines(ws[0]) =~= head);
            assert(head + Seq::<Seq<char>>::empty() =~= head);
        } else {
            assert(ws.drop_first() =~= rest.map_values(
                |f: Seq<char>| crate::render::wrap_spec(level, f),
            ));
            let r = render_body_spec(level, rest);
            assert(render_body_spec(level, files) == ws[0] + nl() + r);
            lemma_lines_split(ws[0], r);
            assert(ws[0] + nl() =~= o + nl() + (t + nl() + (c + nl())));
            lemma_lines_split(o, t + nl() + (c + nl()));
            lemma_lines_split(t, c + nl());
            assert(lines(ws[0] + nl()) =~= head);
        }
    }
}

/// Plain lines inside an open chunk are added to it.
proof fn lemma_scan_plain(
    ms: Seq<Seq<char>>,
    rest: Seq<Seq<char>>,
    level: u32,
    done: Seq<Seq<char>>,
    buf: Seq<Seq<char>>,
)
    requires
        forall|k: int| 0 <= k < ms.len() ==> is_plain(#[trigger] ms[k], level),
    ensures
        scan(ms + rest, delim_open(level), delim_close(level), done, Some(buf)) == scan(
            rest,
            delim_open(level),
            delim_close(level),
            done,
            Some(buf + ms),
        ),
    decreases ms.len(),
{
    if ms.len() == 0 {
        assert(ms + rest =~= rest);
        assert(buf + ms =~= buf);
    } else {
        assert((ms + rest)[0] == ms[0]);
        assert(is_plain(ms[0], level));
        assert((ms + rest).drop_first() =~= ms.drop_first() + rest);
        lemma_scan_plain(ms.drop_first(), rest, level, done, buf.push(ms[0]));
        assert(buf.push(ms[0]) + ms.drop_first() =~= buf + ms);
    }
}

/// Scanning the lines of a rendered body closes one chunk per file, each
/// holding the file's text.
proof fn lemma_scan_body(level: u32, files: Seq<Seq<char>>, done: Seq<Seq<char>>)
    requires
        forall|i: int| 0 <= i < files.len() ==> fits_level(
            #[trigger] trim_trailing(files[i], '\n'),
            level,
        ),
    ensures
        scan(body_lines(level, files), delim_open(level), delim_close(level), done, None) == scan(
            seq![],
            delim_open(level),
            delim_close(level),
            done + trimmed_files(files),
            None,
        ),
    decreases files.len(),
{
    lemma_delims(level);
    let o = delim_open(level);
    let c = delim_close(level);
    if files.len() == 0 {
        assert(trimmed_files(files) =~= Seq::<Seq<char>>::empty());
        assert(done + Seq::<Seq<char>>::empty() =~= done);
    } else {
        let t = trim_trailing(files[0], '\n');
        assert(fits_level(t, level));
        let m = lines(t + nl());
        let rest = files.drop_first();
        let b2 = body_lines(level, rest);
        let bl = body_lines(level, files);
        assert(bl == seq![o] + m + seq![c] + b2);
        assert(forall|k: int| 0 <= k < m.len() ==> is_plain(#[trigger] m[k], level)) by {
            lemma_trim_trailing_last(files[0], '\n');
            if t.len() == 0 {
                assert(t + nl() =~= Seq::<char>::empty() + nl() + Seq::<char>::empty());
                lemma_lines_cons(Seq::<char>::empty(), Seq::<char>::empty());
                assert(lines(Seq::<char>::empty()) =~= Seq::<Seq<char>>::empty());
                assert(strip_cr(Seq::<char>::empty()) =~= Seq::<char>::empty());
                assert(m =~= seq![Seq::<char>::empty()]);
                assert(trim_end(Seq::<char>::empty()) =~= Seq::<char>::empty());
            } else {
                lemma_lines_terminated(t);
            }
        }
        assert(bl[0] == o);
        assert(bl.drop_first() =~= m + (seq![c] + b2));
        lemma_scan_plain(m, seq![c] + b2, level, done, seq![]);
        assert(Seq::<Seq<char>>::empty() + m =~= m);
        assert((seq![c] + b2)[0] == c);
        assert((seq![c] + b2).drop_first() =~= b2);
        lemma_join_lines(t);
        assert forall|i: int| 0 <= i < rest.len() implies fits_level(
            #[trigger] trim_trailing(rest[i], '\n'),
            level,
        ) by {
            assert(rest[i] == files[i + 1]);
        }
        lemma_scan_body(level, rest, done.push(t));
        assert(done.push(t) + trimmed_files(rest) =~= done + trimmed_files(files));
    }
}

/// Cutting a rendered body at its level gives back every file's text, in
/// order, provided each file fits the level.
pub proof fn lemma_chunks_of_render(level: u32, files: Seq<Seq<char>>)
    requires
        files.len() > 0,
        forall|i: int| 0 <= i < files.len() ==> fits_level(
            #[trigger] trim_trailing(files[i], '\n'),
            level,
        ),
    ensures
        chunks_of(render_body_spec(level, files), level) == Ok::<Seq<Seq<char>>, ChunkError>(
            trimmed_files(files),
        ),
{
    lemma_lines_render(level, files);
    lemma_scan_body(level, files, seq![]);
    assert(Seq::<Seq<char>>::empty() + trimmed_files(files) =~= trimmed_files(files));
}

/// Decomposing a compound whose body was rendered from `files` at its own
/// body level parses exactly those files' texts, in order, under
/// `<id:embedded>`, provided each file fits the level.
pub proof fn lemma_decompose_rendered(e: ElementView, files: Seq<Seq<char>>, legacy: bool)
    requires
        e.header.kind == PromptElementKind::Compound,
        e.header.body_level is Some,
        e.body == render_body_spec(e.header.body_level.unwrap(), files),
        files.len() > 0,
        forall|i: int| 0 <= i < files.len() ==> fits_level(
            #[trigger] trim_trailing(files[i], '\n'),
            e.header.body_level.unwrap(),
        ),
    ensures
        decompose_spec(e, legacy) == parse_all(trimmed_files(files), embedded_path(e.header.id), legacy),
{
    lemma_chunks_of_render(e.header.body_level.unwrap(), files);
}

/// Composing and then decomposing: the sub-elements recovered from a
/// composed compound are the parses of its inputs' serialized files, in
/// request order, provided each serialized input fits the compound's body
/// level.
pub proof fn lemma_decompose_compose(
    lib: Seq<ElementView>,
    ins: Seq<(Seq<char>, Option<Seq<char>>)>,
    id: Seq<char>,
    name: Seq<char>,
    version: Seq<char>,
    meta: Seq<char>,
    generated_at: Seq<char>,
    legacy: bool,
)
    requires
        ins.len() > 0,
        forall|i: int| 0 <= i < ins.len() ==> fits_level(
            trim_trailing(#[trigger] serialize_spec(resolved(lib, ins)[i]), '\n'),
            compose_element(lib, ins, id, name, version, meta, generated_at).header.body_level.unwrap(),
        ),
    ensures
        decompose_spec(compose_element(lib, ins, id, name, version, meta, generated_at), legacy)
            == parse_all(
            trimmed_files(resolved(lib, ins).map_values(|x: ElementView| serialize_spec(x))),
            embedded_path(id),
            legacy,
        ),
{
    let e = compose_element(lib, ins, id, name, version, meta, generated_at);
    let files = resolved(lib, ins).map_values(|x: ElementView| serialize_spec(x));
    assert forall|i: int| 0 <= i < files.len() implies fits_level(
        #[trigger] trim_trailing(files[i], '\n'),
        e.header.body_level.unwrap(),
    ) by {
        assert(files[i] == serialize_spec(resolved(lib, ins)[i]));
    }
    lemma_decompose_rendered(e, files, legacy);
}

/// One level down, a composed compound gives back its inputs' bodies: when
/// the decomposition succeeds it has one sub-element per input, in request
/// order, each with its input's body (without trailing newlines), provided
/// each serialized input fits the compound's body level and splits back
/// cleanly.
pub proof fn lemma_decompose_compose_bodies(
    lib: Seq<ElementView>,
    ins: Seq<(Seq<char>, Option<Seq<char>>)>,
    id: Seq<char>,
    name: Seq<char>,
    version: Seq<char>,
    meta: Seq<char>,
    generated_at: Seq<char>,
    legacy: bool,
)
    requires
        ins.len() > 0,
        forall|i: int| 0 <= i < ins.len() ==> fits_level(
            trim_trailing(#[trigger] serialize_spec(resolved(lib, ins)[i]), '\n'),
            compose_element(lib, ins, id, name, version, meta, generated_at).header.body_level.unwrap(),
        ),
        forall|i: int| 0 <= i < ins.len() ==> splits_cleanly(#[trigger] resolved(lib, ins)[i]),
    ensures
        decompose_spec(compose_element(lib, ins, id, name, version, meta, generated_at), legacy) matches Ok(
            xs,
        ) ==> xs.len() == ins.len() && forall|i: int|
            0 <= i < ins.len() ==> (#[trigger] xs[i]).body == trim_trailing(
                resolved(lib, ins)[i].body,
                '\n',
            ),
{
    lemma_decompose_compose(lib, ins, id, name, version, meta, generated_at, legacy);
    let rs = resolved(lib, ins);
    let files = rs.map_values(|x: ElementView| serialize_spec(x));
    let chunks = trimmed_files(files);
    let p = embedded_path(id);
    lemma_parse_all_ok(chunks, p, legacy);
    if let Ok(xs) = decompose_spec(compose_element(lib, ins, id, name, version, meta, generated_at), legacy) {
        assert forall|i: int| 0 <= i < ins.len() implies (#[trigger] xs[i]).body == trim_trailing(
            rs[i].body,
            '\n',
        ) by {
            assert(splits_cleanly(rs[i]));
            assert(chunks[i] == trim_trailing(serialize_spec(rs[i]), '\n'));
            lemma_split_framed_trimmed(header_toml(rs[i].header), rs[i].body, p);
            assert(parse_spec(chunks[i], p, legacy) == Ok::<ElementView, ErrorView>(xs[i]));
        }
    }
}

/// Room the chunks still to be closed can take: the remaining lines, plus
/// the open chunk's lines and its open delimiter line.
spec fn scan_room(ls: Seq<Seq<char>>, open: Seq<char>, cur: Option<Seq<Seq<char>>>) -> int {
    let open_part: int = match cur {
        Some(buf) => (line_total(buf) + open.len() + 1) as int,
        None => 0int,
    };
    line_total(ls) + open_part
}

/// Scanning keeps the chunks already closed, and every chunk it closes,
/// together with an open delimiter line, fits in the room that was left.
proof fn lemma_scan_sizes(
    ls: Seq<Seq<char>>,
    open: Seq<char>,
    close: Seq<char>,
    done: Seq<Seq<char>>,
    cur: Option<Seq<Seq<char>>>,
)
    ensures
        scan(ls, open, close, done, cur) matches Ok(res) ==> {
            &&& res.len() >= done.len()
            &&& forall|k: int| 0 <= k < done.len() ==> #[trigger] res[k] == done[k]
            &&& forall|k: int|
                done.len() <= k < res.len() ==> #[trigger] res[k].len() + open.len() + 1
                    <= scan_room(ls, open, cur)
        },
    decreases ls.len(),
{
    if ls.len() > 0 {
        let l = ls[0];
        let t = trim_end(l);
        let rest = ls.drop_first();
        assert(line_total(ls) == l.len() + 1 + line_total(rest));
        if t == open {
            if cur is None {
                crate::text::lemma_trim_end_len(l);
                lemma_scan_sizes(rest, open, close, done, Some(seq![]));
                assert(line_total(Seq::<Seq<char>>::empty()) == 0);
            }
        } else if t == close {
            if let Some(buf) = cur {
                let d2 = done.push(join(buf, nl()));
                lemma_scan_sizes(rest, open, close, d2, None);
                crate::text::lemma_join_len(buf);
                if let Ok(res) = scan(ls, open, close, done, cur) {
                    assert forall|k: int| 0 <= k < done.len() implies #[trigger] res[k] == done[k] by {
                        assert(res[k] == d2[k]);
                    }
                    assert(res[done.len() as int] == d2[done.len() as int]);
                }
            }
        } else {
            match cur {
                Some(buf) => {
                    lemma_scan_sizes(rest, open, close, done, Some(buf.push(l)));
                    crate::text::lemma_line_total_concat(buf, seq![l]);
                    assert(buf + seq![l] =~= buf.push(l));
                    assert(seq![l].drop_first() =~= Seq::<Seq<char>>::empty());
                },
                None => {
                    lemma_scan_sizes(rest, open, close, done, None);
                },
            }
        }
    }
}

/// Each chunk parsed in turn: `parse_all` succeeds with one element per
/// chunk, each the chunk's parse.
pub proof fn lemma_parse_all_ok(chunks: Seq<Seq<char>>, path: Seq<char>, legacy: bool)
    ensures
        parse_all(chunks, path, legacy) matches Ok(xs) ==> {
            &&& xs.len() == chunks.len()
            &&& forall|j: int|
                0 <= j < chunks.len() ==> parse_spec(#[trigger] chunks[j], path, legacy) == Ok::<
                    ElementView,
                    ErrorView,
                >(xs[j])
        },
    decreases chunks.len(),
{
    if chunks.len() > 0 {
        lemma_parse_all_ok(chunks.drop_first(), path, legacy);
        if let Ok(xs) = parse_all(chunks, path, legacy) {
            assert forall|j: int| 0 <= j < chunks.len() implies parse_spec(
                #[trigger] chunks[j],
                path,
                legacy,
            ) == Ok::<ElementView, ErrorView>(xs[j]) by {
                if j > 0 {
                    assert(chunks[j] == chunks.drop_first()[j - 1]);
                }
            }
        }
    }
}

/// Every sub-element a decomposition yields has a strictly shorter body
/// than the compound it came from.
pub proof fn lemma_decompose_shrinks(e: ElementView, legacy: bool)
    ensures
        decompose_spec(e, legacy) matches Ok(xs) ==> forall|j: int|
            0 <= j < xs.len() ==> #[trigger] xs[j].body.len() < e.body.len(),
{
    if e.header.kind != PromptElementKind::Atom && e.header.body_level is Some {
        let level = e.header.body_level.unwrap();
        let o = delim_open(level);
        lemma_scan_sizes(lines(e.body), o, delim_close(level), seq![], None);
        crate::text::lemma_lines_total(e.body);
        if let Ok(cs) = chunks_of(e.body, level) {
            let p = embedded_path(e.header.id);
            lemma_parse_all_ok(cs, p, legacy);
            if let Ok(xs) = parse_all(cs, p, legacy) {
                assert forall|j: int| 0 <= j < xs.len() implies #[trigger] xs[j].body.len()
                    < e.body.len() by {
                    crate::element::lemma_parse_body_len(cs[j], p, legacy);
                    assert(cs[j].len() + o.len() + 1 <= line_total(lines(e.body)));
                }
            }
        }
    }
}

/// The name a kind is reported under.
pub open spec fn kind_name(k: PromptElementKind) -> Seq<char> {
    match k {
        PromptElementKind::Atom => "atom"@,
        PromptElementKind::Compound => "compound"@,
    }
}

pub fn kind_str(k: &PromptElementKind) -> (s: &'static str)
    ensures
        s@ == kind_name(*k),
{
    match k {
        PromptElementKind::Atom => "atom",
        PromptElementKind::Compound => "compound",
    }
}

/// A summary of a compound and its immediate inputs, for the `decompose`
/// command's no-write inspection mode.
#[derive(Debug)]
pub struct DecomposeReport {
    pub element_id: String,
    pub element_kind: &'static str,
    pub element_version: String,
    pub body_level: u32,
    pub render_mode: Option<String>,
    pub inputs: Vec<ReportEntry>,
}

/// One immediate input in a [`DecomposeReport`].
#[derive(Debug)]
pub struct ReportEntry {
    pub id: String,
    pub version: String,
    pub kind: &'static str,
    pub name: String,
}

pub struct ReportEntryView {
    pub id: Seq<char>,
    pub version: Seq<char>,
    pub kind: Seq<char>,
    pub name: Seq<char>,
}

pub struct DecomposeReportView {
    pub element_id: Seq<char>,
    pub element_kind: Seq<char>,
    pub element_version: Seq<char>,
    pub body_level: u32,
    pub render_mode: Option<Seq<char>>,
    pub inputs: Seq<ReportEntryView>,
}

impl View for ReportEntry {
    type V = ReportEntryView;

    open spec fn view(&self) -> ReportEntryView {
        ReportEntryView { id: self.id@, version: self.version@, kind: self.kind@, name: self.name@ }
    }
}

impl View for DecomposeReport {
    type V = DecomposeReportView;

    open spec fn view(&self) -> DecomposeReportView {
        DecomposeReportView {
            element_id: self.element_id@,
            element_kind: self.element_kind@,
            element_version: self.element_version@,
            body_level: self.body_level,
            render_mode: crate::header::opt_str_view(self.render_mode),
            inputs: self.inputs@.map_values(|r: ReportEntry| r@),
        }
    }
}

/// The report line for one input.
pub open spec fn entry_of(x: ElementView) -> ReportEntryView {
    ReportEntryView {
        id: x.header.id,
        version: x.header.version,
        kind: kind_name(x.header.kind),
        name: x.header.name,
    }
}

/// The report on `e`: its identity and, for each immediate input, its id,
/// version, kind and name; atoms are refused, and a failing decomposition
/// is its error.
pub open spec fn report_spec(e: ElementView) -> core::result::Result<DecomposeReportView, ErrorView> {
    if e.header.kind == PromptElementKind::Atom {
        Err(ErrorView::CannotDecomposeAtom { id: e.header.id })
    } else {
        match decompose_spec(e, false) {
            Err(err) => Err(err),
            Ok(xs) => Ok(
                DecomposeReportView {
                    element_id: e.header.id,
                    element_kind: kind_name(e.header.kind),
                    element_version: e.header.version,
                    body_level: match e.header.body_level {
                        Some(l) => l,
                        None => 0,
                    },
                    render_mode: e.header.render_mode,
                    inputs: xs.map_values(|x: ElementView| entry_of(x)),
                },
            ),
        }
    }
}

/// The report lists exactly the immediate inputs, in order: it succeeds on
/// a compound exactly when one-level decomposition does, with one entry per
/// sub-element giving its id, version and name, and its kind as the word
/// `atom` for an atom and `compound` for a compound; an atom is refused.
pub proof fn lemma_report_lists_inputs(e: ElementView)
    ensures
        e.header.kind == PromptElementKind::Atom ==> report_spec(e) is Err,
        e.header.kind == PromptElementKind::Compound ==> (report_spec(e) is Ok <==> decompose_spec(
            e,
            false,
        ) is Ok),
        report_spec(e) matches Ok(r) ==> {
            let xs = decompose_spec(e, false)->Ok_0;
            &&& r.element_id == e.header.id
            &&& r.element_kind == "compound"@
            &&& r.element_version == e.header.version
            &&& r.body_level == e.header.body_level->Some_0
            &&& r.render_mode == e.header.render_mode
            &&& r.inputs.len() == xs.len()
            &&& forall|j: int|
                0 <= j < xs.len() ==> {
                    &&& (#[trigger] r.inputs[j]).id == xs[j].header.id
                    &&& r.inputs[j].version == xs[j].header.version
                    &&& r.inputs[j].name == xs[j].header.name
                    &&& (xs[j].header.kind == PromptElementKind::Atom ==> r.inputs[j].kind == "atom"@)
                    &&& (xs[j].header.kind == PromptElementKind::Compound ==> r.inputs[j].kind
                        == "compound"@)
                }
        },
{
}

/// Produce a report listing the immediate inputs of a compound (id,
/// version, kind, name).
pub fn report(element: &PromptElement) -> (res: Result<DecomposeReport>)
    ensures
        match res {
            Ok(r) => report_spec(element@) == Ok::<DecomposeReportView, ErrorView>(r@),
            Err(e) => report_spec(element@) == Err::<DecomposeReportView, ErrorView>(e@),
        },
{
    if element.header.is_atom() {
        return Err(OovraError::CannotDecomposeAtom { id: element.header.id.clone() });
    }
    let immediate = match decompose(element) {
        Ok(v) => v,
        Err(e) => return Err(e),
    };
    let ghost xs = elements_view(immediate@);
    let mut entries: Vec<ReportEntry> = Vec::new();
    let mut i: usize = 0;
    while i < immediate.len()
        invariant
            i <= immediate@.len(),
            xs == elements_view(immediate@),
            entries@.len() == i,
            forall|j: int| 0 <= j < i ==> #[trigger] entries@[j]@ == entry_of(xs[j]),
        decreases immediate.len() - i,
    {
        let x = &immediate[i];
        proof {
            crate::library::lemma_elements_view_index(immediate@, i as int);
        }
        entries.push(
            ReportEntry {
                id: x.header.id.clone(),
                version: x.header.version.clone(),
                kind: kind_str(&x.header.kind),
                name: x.header.name.clone(),
            },
        );
        i += 1;
    }
    let r = DecomposeReport {
        element_id: element.header.id.clone(),
        element_kind: kind_str(&element.header.kind),
        element_version: element.header.version.clone(),
        body_level: match element.header.body_level {
            Some(l) => l,
            None => 0,
        },
        render_mode: crate::header::copy_opt_string(&element.header.render_mode),
        inputs: entries,
    };
    assert(r@.inputs =~= xs.map_values(|x: ElementView| entry_of(x)));
    Ok(r)
}

/// One entry below a compound in the decomposed folder tree: an atom is a
/// file in the compound's directory; a compound gets a subdirectory of its
/// own, named by its id, to be expanded in turn.
#[derive(Debug)]
pub enum TreeChild {
    Leaf { file_name: String, content: Result<String> },
    Branch { dir_name: String, element: PromptElement },
}

pub enum TreeChildView {
    Leaf { file_name: Seq<char>, content: core::result::Result<Seq<char>, ErrorView> },
    Branch { dir_name: Seq<char>, element: ElementView },
}

impl View for TreeChild {
    type V = TreeChildView;

    open spec fn view(&self) -> TreeChildView {
        match self {
            TreeChild::Leaf { file_name, content } => TreeChildView::Leaf {
                file_name: file_name@,
                content: text_result_view(*content),
            },
            TreeChild::Branch { dir_name, element } => TreeChildView::Branch {
                dir_name: dir_name@,
                element: element@,
            },
        }
    }
}

/// What expanding one element of the folder tree asks for: write the
/// element itself as `file_name` with `content`, then (for a compound)
/// place each immediate input, in order; `children` holds the
/// decomposition error instead when the body cannot be split. A text
/// that could not be serialized holds the error, and the expansion stops
/// there.
pub struct FullStep {
    pub file_name: String,
    pub content: Result<String>,
    pub children: Result<Vec<TreeChild>>,
}

/// The file an element is written to: `<id>.md`.
pub open spec fn md_name(id: Seq<char>) -> Seq<char> {
    id + ".md"@
}

/// Where an immediate input goes in the folder tree.
pub open spec fn child_of(x: ElementView) -> TreeChildView {
    if x.header.kind == PromptElementKind::Atom {
        TreeChildView::Leaf { file_name: md_name(x.header.id), content: serialize_outcome(x) }
    } else {
        TreeChildView::Branch { dir_name: x.header.id, element: x }
    }
}

/// The children an element expands to: none for an atom, else one per
/// immediate input (or the decomposition's error).
pub open spec fn children_spec(e: ElementView) -> core::result::Result<Seq<TreeChildView>, ErrorView> {
    if e.header.kind == PromptElementKind::Atom {
        Ok(seq![])
    } else {
        match decompose_spec(e, false) {
            Err(err) => Err(err),
            Ok(xs) => Ok(xs.map_values(|x: ElementView| child_of(x))),
        }
    }
}

pub(crate) fn md_name_string(id: &str) -> (s: String)
    ensures
        s@ == md_name(id@),
{
    let mut v = chars_of(id);
    append_chars(&mut v, chars_of(".md").as_slice());
    string_of(v.as_slice())
}

/// Expand one element of the full, recursive decomposition. The caller
/// writes `content` to `file_name` in the element's directory, then places
/// the children in order, expanding each branch in its own subdirectory.
/// Every branch's body is strictly shorter than the element's, so the
/// expansion ends.
pub fn full_step(element: &PromptElement) -> (step: FullStep)
    ensures
        step.file_name@ == md_name(element@.header.id),
        text_result_view(step.content) == serialize_outcome(element@),
        match step.children {
            Ok(cs) => children_spec(element@) == Ok::<Seq<TreeChildView>, ErrorView>(
                cs@.map_values(|c: TreeChild| c@),
            ),
            Err(e) => children_spec(element@) == Err::<Seq<TreeChildView>, ErrorView>(e@),
        },
        step.children matches Ok(cs) ==> forall|j: int|
            0 <= j < cs@.len() ==> (#[trigger] cs@[j]@ matches TreeChildView::Branch {
                element: x,
                ..
            } ==> x.body.len() < element@.body.len()),
{
    let file_name = md_name_string(element.header.id.as_str());
    let content = serialize(element);
    if element.header.is_atom() {
        let empty: Vec<TreeChild> = Vec::new();
        assert(empty@.map_values(|c: TreeChild| c@) =~= Seq::<TreeChildView>::empty());
        return FullStep { file_name, content, children: Ok(empty) };
    }
    let subs = match decompose(element) {
        Ok(v) => v,
        Err(e) => return FullStep { file_name, content, children: Err(e) },
    };
    let ghost xs = elements_view(subs@);
    proof {
        lemma_decompose_shrinks(element@, false);
    }
    let mut children: Vec<TreeChild> = Vec::new();
    let mut i: usize = 0;
    while i < subs.len()
        invariant
            i <= subs@.len(),
            xs == elements_view(subs@),
            decompose_spec(element@, false) == Ok::<Seq<ElementView>, ErrorView>(xs),
            forall|j: int| 0 <= j < xs.len() ==> #[trigger] xs[j].body.len() < element@.body.len(),
            children@.len() == i,
            forall|j: int| 0 <= j < i ==> #[trigger] children@[j]@ == child_of(xs[j]),
        decreases subs.len() - i,
    {
        let x = &subs[i];
        proof {
            crate::library::lemma_elements_view_index(subs@, i as int);
        }
        if x.header.is_atom() {
            let name = md_name_string(x.header.id.as_str());
            let text = serialize(x);
            children.push(TreeChild::Leaf { file_name: name, content: text });
        } else {
            children.push(TreeChild::Branch { dir_name: x.header.id.clone(), element: x.clone() });
        }
        i += 1;
    }
    proof {
        assert(children@.map_values(|c: TreeChild| c@) =~= xs.map_values(|x: ElementView| child_of(x)));
        assert forall|j: int| 0 <= j < children@.len() implies (#[trigger] children@[j]@ matches TreeChildView::Branch {
            element: x,
            ..
        } ==> x.body.len() < element@.body.len()) by {
            assert(children@[j]@ == child_of(xs[j]));
        }
    }
    FullStep { file_name, content, children: Ok(children) }
}

/// The sub-elements a decomposition yields passed validation: every
/// compound among them has a body level.
pub proof fn lemma_decompose_subs_valid(e: ElementView, legacy: bool)
    ensures
        decompose_spec(e, legacy) matches Ok(xs) ==> forall|j: int|
            0 <= j < xs.len() ==> (#[trigger] xs[j]).header.kind == PromptElementKind::Compound
                ==> xs[j].header.body_level is Some,
{
    if e.header.kind != PromptElementKind::Atom && e.header.body_level is Some {
        let level = e.header.body_level.unwrap();
        if let Ok(cs) = chunks_of(e.body, level) {
            let p = embedded_path(e.header.id);
            lemma_parse_all_ok(cs, p, legacy);
            if let Ok(xs) = parse_all(cs, p, legacy) {
                assert forall|j: int|
                    0 <= j < xs.len() && (#[trigger] xs[j]).header.kind == PromptElementKind::Compound implies xs[j].header.body_level is Some by {
                    crate::element::lemma_parsed_compound(cs[j], p, legacy);
                }
            }
        }
    }
}

} // verus!
