//! Paths as text: the components of a `/`-separated path, its file name
//! and extension, and the short labels shown for library directories.
//!
//! Components follow the rules of `std::path` on Unix: a leading `/` is the
//! root, empty segments and `.` segments are dropped except for a leading
//! `.`, and `..` is kept.

use vstd::prelude::*;

use crate::text::{
    chars_of, find_char, join, join_vecs, lemma_find_char_at, lemma_find_char_bounds, slice_range,
    string_of,
};

verus! {

/// The pieces of `s` between occurrences of `c` (`str::split`): there is
/// always at least one, and empty pieces are kept.
pub open spec fn split_on(s: Seq<char>, c: char) -> Seq<Seq<char>>
    decreases s.len(),
{
    let i = find_char(s, c);
    if i >= s.len() {
        seq![s]
    } else {
        proof {
            lemma_find_char_bounds(s, c);
        }
        seq![s.take(i)] + split_on(s.skip(i + 1), c)
    }
}

pub open spec fn root_dir() -> Seq<char> {
    seq!['/']
}

pub open spec fn cur_dir() -> Seq<char> {
    seq!['.']
}

pub open spec fn parent_dir() -> Seq<char> {
    seq!['.', '.']
}

/// The segments that name a component: not empty, not `.`.
pub open spec fn kept_segments(segs: Seq<Seq<char>>) -> Seq<Seq<char>>
    decreases segs.len(),
{
    if segs.len() == 0 {
        seq![]
    } else {
        let rest = kept_segments(segs.drop_last());
        let s = segs.last();
        if s.len() == 0 || s == cur_dir() {
            rest
        } else {
            rest.push(s)
        }
    }
}

/// The components of path `p`, each as its text: `/` for the root, `.`
/// for a leading current-directory mark, then the named segments.
pub open spec fn components(p: Seq<char>) -> Seq<Seq<char>> {
    let segs = split_on(p, '/');
    if p.len() > 0 && p[0] == '/' {
        seq![root_dir()] + kept_segments(segs.drop_first())
    } else if segs[0] == cur_dir() {
        seq![cur_dir()] + kept_segments(segs.drop_first())
    } else {
        kept_segments(segs)
    }
}

/// The last component, when it names a file or directory (not the root,
/// `.` or `..`).
pub open spec fn file_name(p: Seq<char>) -> Option<Seq<char>> {
    let cs = components(p);
    if cs.len() == 0 {
        None
    } else {
        let last = cs.last();
        if last == root_dir() || last == cur_dir() || last == parent_dir() {
            None
        } else {
            Some(last)
        }
    }
}

/// Index of the last `c` in `s`, or `-1`.
pub open spec fn last_index(s: Seq<char>, c: char) -> int
    decreases s.len(),
{
    if s.len() == 0 {
        -1
    } else if s.last() == c {
        s.len() - 1
    } else {
        last_index(s.drop_last(), c)
    }
}

/// The extension of a file name: the text after its last `.`, unless that
/// dot is the first character or there is none.
pub open spec fn extension_of(name: Seq<char>) -> Option<Seq<char>> {
    let k = last_index(name, '.');
    if k <= 0 {
        None
    } else {
        Some(name.skip(k + 1))
    }
}

/// A file name without its extension.
pub open spec fn stem_of(name: Seq<char>) -> Seq<char> {
    let k = last_index(name, '.');
    if k <= 0 {
        name
    } else {
        name.take(k)
    }
}

/// ASCII lower case of one character.
pub open spec fn ascii_lower(c: char) -> char {
    if 'A' <= c && c <= 'Z' {
        ((c as u32) + 32) as char
    } else {
        c
    }
}

/// Equal up to ASCII case (`str::eq_ignore_ascii_case`).
pub open spec fn eq_ignore_ascii_case(a: Seq<char>, b: Seq<char>) -> bool {
    a.len() == b.len() && forall|i: int| 0 <= i < a.len() ==> ascii_lower(#[trigger] a[i]) == ascii_lower(b[i])
}

/// The path names a file whose extension is `md` in any case.
pub open spec fn md_path(p: Seq<char>) -> bool {
    match file_name(p) {
        Some(n) => match extension_of(n) {
            Some(e) => eq_ignore_ascii_case(e, "md"@),
            None => false,
        },
        None => false,
    }
}

/// The short label of a path: its last three components at most, joined
/// with `/`, behind `…` when earlier components were left out.
pub open spec fn short_path_spec(p: Seq<char>) -> Seq<char> {
    let cs = components(p);
    let n = cs.len();
    if n > 3 {
        join(seq![seq!['…']] + cs.subrange(n - 3, n as int), seq!['/'])
    } else {
        join(cs, seq!['/'])
    }
}

/// Split `s` at every `c`.
pub fn split_chars(s: &[char], c: char) -> (res: Vec<Vec<char>>)
    ensures
        res.deep_view() == split_on(s@, c),
{
    let mut res: Vec<Vec<char>> = Vec::new();
    let mut start: usize = 0;
    let mut i: usize = 0;
    assert(s@.skip(0) =~= s@);
    assert(res.deep_view() + split_on(s@, c) =~= split_on(s@, c));
    while i < s.len()
        invariant
            start <= i <= s@.len(),
            split_on(s@, c) == res.deep_view() + split_on(s@.skip(start as int), c),
            forall|j: int| start <= j < i ==> #[trigger] s@[j] != c,
        decreases s.len() - i,
    {
        if s[i] == c {
            let ghost t = s@.skip(start as int);
            proof {
                assert forall|j: int| 0 <= j < i - start implies #[trigger] t[j] != c by {
                    assert(t[j] == s@[start + j]);
                }
                lemma_find_char_at(t, c, i - start);
                assert(t.take(i - start) =~= s@.subrange(start as int, i as int));
                assert(t.skip(i - start + 1) =~= s@.skip(i + 1));
            }
            let piece = slice_range(s, start, i);
            let ghost before = res.deep_view();
            let ghost pg = piece;
            proof {
                crate::text::lemma_chars_deep_view(pg);
            }
            res.push(piece);
            proof {
                assert(res@.last() == pg);
                assert(res.deep_view() =~= before.push(s@.subrange(start as int, i as int)));
                assert(before + split_on(t, c) =~= before.push(s@.subrange(start as int, i as int))
                    + split_on(s@.skip(i + 1), c));
            }
            start = i + 1;
        }
        i += 1;
    }
    let piece = slice_range(s, start, s.len());
    let ghost t = s@.skip(start as int);
    proof {
        assert(t =~= s@.subrange(start as int, s@.len() as int));
        assert forall|j: int| 0 <= j < t.len() implies #[trigger] t[j] != c by {
            assert(t[j] == s@[start + j]);
        }
        lemma_find_char_at(t, c, t.len() as int);
    }
    let ghost before = res.deep_view();
    let ghost pg = piece;
    proof {
        crate::text::lemma_chars_deep_view(pg);
    }
    res.push(piece);
    proof {
        assert(res@.last() == pg);
        assert(res.deep_view() =~= before.push(t));
        assert(before + seq![t] =~= before.push(t));
    }
    res
}

fn is_cur_dir(s: &[char]) -> (b: bool)
    ensures
        b == (s@ == cur_dir()),
{
    if s.len() == 1 && s[0] == '.' {
        assert(s@ =~= cur_dir());
        true
    } else {
        false
    }
}

fn is_parent_dir(s: &[char]) -> (b: bool)
    ensures
        b == (s@ == parent_dir()),
{
    if s.len() == 2 && s[0] == '.' && s[1] == '.' {
        assert(s@ =~= parent_dir());
        true
    } else {
        false
    }
}

/// The components of a path, each as its characters.
pub fn path_components(p: &[char]) -> (cs: Vec<Vec<char>>)
    ensures
        cs.deep_view() == components(p@),
{
    let segs = split_chars(p, '/');
    let ghost sv = segs.deep_view();
    proof {
        lemma_split_nonempty(p@, '/');
    }
    assert(sv[0] == segs@[0]@);
    let mut cs: Vec<Vec<char>> = Vec::new();
    let mut first: usize = 0;
    let ghost head: Seq<Seq<char>>;
    if p.len() > 0 && p[0] == '/' {
        let mut r: Vec<char> = Vec::new();
        r.push('/');
        assert(r@ =~= root_dir());
        proof {
            crate::text::lemma_chars_deep_view(r);
        }
        cs.push(r);
        first = 1;
        proof {
            head = seq![root_dir()];
        }
    } else if is_cur_dir(segs[0].as_slice()) {
        let mut r: Vec<char> = Vec::new();
        r.push('.');
        assert(r@ =~= cur_dir());
        proof {
            crate::text::lemma_chars_deep_view(r);
        }
        cs.push(r);
        first = 1;
        proof {
            head = seq![cur_dir()];
        }
    } else {
        proof {
            head = seq![];
        }
    }
    assert(cs.deep_view() =~= head);
    let mut i: usize = first;
    assert(sv.subrange(first as int, i as int) =~= Seq::<Seq<char>>::empty());
    assert(cs.deep_view() =~= head + kept_segments(sv.subrange(first as int, i as int)));
    while i < segs.len()
        invariant
            first <= i <= segs@.len(),
            sv == segs.deep_view(),
            cs.deep_view() == head + kept_segments(sv.subrange(first as int, i as int)),
        decreases segs.len() - i,
    {
        let ghost before = cs.deep_view();
        assert(sv.subrange(first as int, i + 1).drop_last() =~= sv.subrange(first as int, i as int));
        assert(sv.subrange(first as int, i + 1).last() == sv[i as int]);
        assert(sv[i as int] == segs@[i as int]@);
        if segs[i].len() == 0 || is_cur_dir(segs[i].as_slice()) {
        } else {
            let piece = slice_range(segs[i].as_slice(), 0, segs[i].len());
            assert(piece@ =~= sv[i as int]);
            let ghost pg = piece;
            proof {
                crate::text::lemma_chars_deep_view(pg);
            }
            cs.push(piece);
            assert(cs@.last() == pg);
            assert(cs.deep_view() =~= before.push(sv[i as int]));
            assert(head + kept_segments(sv.subrange(first as int, i as int)).push(sv[i as int]) =~= (head
                + kept_segments(sv.subrange(first as int, i as int))).push(sv[i as int]));
        }
        i += 1;
    }
    proof {
        if first == 1 {
            assert(sv.subrange(1, sv.len() as int) =~= sv.drop_first());
        } else {
            assert(sv.subrange(0, sv.len() as int) =~= sv);
        }
        assert(sv == split_on(p@, '/'));
        if p@.len() > 0 && p@[0] == '/' {
            assert(first == 1);
            assert(head == seq![root_dir()]);
        } else if sv[0] == cur_dir() {
            assert(first == 1);
            assert(head == seq![cur_dir()]);
        } else {
            assert(first == 0);
            assert(head == Seq::<Seq<char>>::empty());
            assert(head + kept_segments(sv) =~= kept_segments(sv));
        }
    }
    cs
}

proof fn lemma_split_nonempty(s: Seq<char>, c: char)
    ensures
        split_on(s, c).len() >= 1,
        (s.len() > 0 && s[0] == c) ==> split_on(s, c)[0].len() == 0,
{
    lemma_find_char_bounds(s, c);
    if s.len() > 0 && s[0] == c {
        lemma_find_char_at(s, c, 0);
        assert(s.take(0) =~= Seq::<char>::empty());
    }
}

proof fn lemma_last_index(s: Seq<char>, c: char)
    ensures
        -1 <= last_index(s, c) < s.len(),
    decreases s.len(),
{
    if s.len() > 0 {
        lemma_last_index(s.drop_last(), c);
    }
}

fn last_index_exec(s: &[char], c: char) -> (k: Option<usize>)
    ensures
        match k {
            Some(i) => i == last_index(s@, c),
            None => last_index(s@, c) == -1,
        },
{
    let mut n: usize = s.len();
    assert(s@.take(n as int) =~= s@);
    while n > 0
        invariant
            n <= s@.len(),
            last_index(s@, c) == last_index(s@.take(n as int), c),
        decreases n,
    {
        if s[n - 1] == c {
            return Some(n - 1);
        }
        assert(s@.take(n as int).drop_last() =~= s@.take(n - 1));
        n -= 1;
    }
    None
}

fn lower_code(c: char) -> (r: u32)
    ensures
        r == ascii_lower(c) as u32,
{
    if 'A' <= c && c <= 'Z' {
        (c as u32) + 32
    } else {
        c as u32
    }
}

pub fn eq_ignore_case_chars(a: &[char], b: &[char]) -> (r: bool)
    ensures
        r == eq_ignore_ascii_case(a@, b@),
{
    if a.len() != b.len() {
        return false;
    }
    let mut i: usize = 0;
    while i < a.len()
        invariant
            i <= a@.len(),
            a@.len() == b@.len(),
            forall|j: int| 0 <= j < i ==> ascii_lower(#[trigger] a@[j]) == ascii_lower(b@[j]),
        decreases a.len() - i,
    {
        if lower_code(a[i]) != lower_code(b[i]) {
            return false;
        }
        i += 1;
    }
    true
}

/// Whether a component names a file or directory (not the root, `.` or
/// `..`).
pub fn has_file_name_form(c: &[char]) -> (b: bool)
    ensures
        b == (c@ != root_dir() && c@ != cur_dir() && c@ != parent_dir()),
{
    if c.len() == 1 && c[0] == '/' {
        assert(c@ =~= root_dir());
        return false;
    }
    !is_cur_dir(c) && !is_parent_dir(c)
}

/// A file name without its extension.
pub fn stem_chars(name: &[char]) -> (s: Vec<char>)
    ensures
        s@ == stem_of(name@),
{
    proof {
        lemma_last_index(name@, '.');
    }
    match last_index_exec(name, '.') {
        None => slice_range(name, 0, name.len()),
        Some(k) => if k == 0 {
            slice_range(name, 0, name.len())
        } else {
            slice_range(name, 0, k)
        },
    }
}

/// Case-insensitive check for a `.md` extension.
pub fn has_md_extension(path: &str) -> (b: bool)
    ensures
        b == md_path(path@),
{
    let p = chars_of(path);
    let cs = path_components(p.as_slice());
    if cs.len() == 0 {
        return false;
    }
    let last = &cs[cs.len() - 1];
    assert(last@ == components(path@).last());
    if (last.len() == 1 && last[0] == '/') || is_cur_dir(last.as_slice()) || is_parent_dir(
        last.as_slice(),
    ) {
        assert(last@.len() == 1 && last@[0] == '/' ==> last@ =~= root_dir());
        return false;
    }
    assert(last@ != root_dir());
    let ku: usize = match last_index_exec(last.as_slice(), '.') {
        None => return false,
        Some(k) => k,
    };
    if ku == 0 {
        return false;
    }
    proof {
        lemma_last_index(last@, '.');
    }
    let ext = slice_range(last.as_slice(), ku + 1, last.len());
    assert(ext@ =~= last@.skip(ku + 1));
    let md = chars_of("md");
    eq_ignore_case_chars(ext.as_slice(), md.as_slice())
}

/// Short, human-readable label for a path: the last two or three
/// components joined with `/`, prefixed with `…` when truncated.
pub fn short_path(p: &str) -> (s: String)
    ensures
        s@ == short_path_spec(p@),
{
    let pc = chars_of(p);
    let cs = path_components(pc.as_slice());
    let ghost cv = cs.deep_view();
    let n: usize = cs.len();
    let mut parts: Vec<Vec<char>> = Vec::new();
    let lo: usize = if n > 3 {
        let mut e: Vec<char> = Vec::new();
        e.push('…');
        proof {
            crate::text::lemma_chars_deep_view(e);
        }
        parts.push(e);
        n - 3
    } else {
        0
    };
    let ghost head = parts.deep_view();
    assert(head == (if n > 3 { seq![seq!['…']] } else { Seq::<Seq<char>>::empty() }));
    let mut i: usize = lo;
    assert(cv.subrange(lo as int, i as int) =~= Seq::<Seq<char>>::empty());
    assert(parts.deep_view() =~= head + cv.subrange(lo as int, i as int));
    while i < n
        invariant
            lo <= i <= n,
            n == cs@.len(),
            cv == cs.deep_view(),
            parts.deep_view() == head + cv.subrange(lo as int, i as int),
        decreases n - i,
    {
        let piece = slice_range(cs[i].as_slice(), 0, cs[i].len());
        assert(piece@ =~= cv[i as int]);
        let ghost before = parts.deep_view();
        let ghost pg = piece;
        proof {
            crate::text::lemma_chars_deep_view(pg);
        }
        parts.push(piece);
        assert(parts@.last() == pg);
        assert(parts.deep_view() =~= before.push(cv[i as int]));
        assert(cv.subrange(lo as int, i + 1) =~= cv.subrange(lo as int, i as int).push(cv[i as int]));
        assert(parts.deep_view() =~= head + cv.subrange(lo as int, i + 1));
        i += 1;
    }
    let mut sep: Vec<char> = Vec::new();
    sep.push('/');
    assert(sep@ =~= seq!['/']);
    let joined = join_vecs(&parts, sep.as_slice());
    proof {
        if n <= 3 {
            assert(head + cv.subrange(0, n as int) =~= cv);
        }
    }
    string_of(joined.as_slice())
}

/// What `Path::new(dir).join(name)` gives, as text, on the platform the
/// library runs on.
pub uninterp spec fn joined_path(dir: Seq<char>, name: Seq<char>) -> Seq<char>;

/// A relative name with no separator or drive in it that is not `.` or
/// `..`: joining it to a directory appends it (on Windows, joining to a
/// verbatim `\\?\` directory normalizes `.` and `..` away).
pub open spec fn plain_name(name: Seq<char>) -> bool {
    &&& forall|i: int| 0 <= i < name.len() ==> #[trigger] name[i] != '/' && name[i] != '\\' && name[i] != ':'
    &&& name != seq!['.']
    &&& name != seq!['.', '.']
}

/// `p` starts with `dir` and ends with `name`.
pub open spec fn extends(p: Seq<char>, dir: Seq<char>, name: Seq<char>) -> bool {
    p.len() >= dir.len() + name.len() && p.take(dir.len() as int) == dir && p.skip(
        p.len() - name.len(),
    ) == name
}

/// `Path::new(dir).join(name)`, as text. How the two are put together
/// depends on the platform's path rules (its separator; an absolute `name`
/// replaces `dir`), so the result is named. Of a plain name the
/// documentation of `PathBuf::push` gives that the path is extended by it:
/// the result starts with `dir` and ends with `name`.
#[verifier::external_body]
pub fn join_path(dir: &str, name: &str) -> (p: String)
    ensures
        p@ == joined_path(dir@, name@),
        plain_name(name@) ==> extends(p@, dir@, name@),
{
    std::path::Path::new(dir).join(name).to_string_lossy().into_owned()
}

} // verus!
