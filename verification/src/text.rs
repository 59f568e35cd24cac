//! Character-sequence utilities shared by the parser and the renderers.
//!
//! Every function here works on `Vec<char>` / `Seq<char>` so that the
//! line-oriented file format (frontmatter fences, chiral body delimiters)
//! can be specified and proved over plain sequences.

use vstd::prelude::*;

verus! {

/// Unicode `White_Space`, the property `char::is_whitespace` tests.
pub open spec fn is_ws(c: char) -> bool {
    ||| c == '\t'
    ||| c == '\n'
    ||| c == '\u{0B}'
    ||| c == '\u{0C}'
    ||| c == '\r'
    ||| c == ' '
    ||| c == '\u{85}'
    ||| c == '\u{A0}'
    ||| c == '\u{1680}'
    ||| ('\u{2000}' <= c && c <= '\u{200A}')
    ||| c == '\u{2028}'
    ||| c == '\u{2029}'
    ||| c == '\u{202F}'
    ||| c == '\u{205F}'
    ||| c == '\u{3000}'
}

/// `s` with trailing whitespace removed (`str::trim_end`).
pub open spec fn trim_end(s: Seq<char>) -> Seq<char>
    decreases s.len(),
{
    if s.len() > 0 && is_ws(s.last()) {
        trim_end(s.drop_last())
    } else {
        s
    }
}

/// `s` with leading whitespace removed (`str::trim_start`).
pub open spec fn trim_start(s: Seq<char>) -> Seq<char>
    decreases s.len(),
{
    if s.len() > 0 && is_ws(s[0]) {
        trim_start(s.drop_first())
    } else {
        s
    }
}

/// `s` with whitespace removed at both ends (`str::trim`).
pub open spec fn trim(s: Seq<char>) -> Seq<char> {
    trim_start(trim_end(s))
}

/// True when every character of `s` is whitespace, i.e. `s.trim().is_empty()`.
pub open spec fn all_ws(s: Seq<char>) -> bool {
    forall|i: int| 0 <= i < s.len() ==> is_ws(#[trigger] s[i])
}

/// Index of the first occurrence of `c` in `s`, or `s.len()` if absent.
pub open spec fn find_char(s: Seq<char>, c: char) -> int
    decreases s.len(),
{
    if s.len() == 0 {
        0
    } else if s[0] == c {
        0
    } else {
        1 + find_char(s.drop_first(), c)
    }
}

/// Drop one trailing carriage return.
pub open spec fn strip_cr(s: Seq<char>) -> Seq<char> {
    if s.len() > 0 && s.last() == '\r' {
        s.drop_last()
    } else {
        s
    }
}

/// The lines of `s`, as `str::lines` yields them: split at `\n`, a `\r`
/// just before a `\n` is dropped, and no empty line follows a final `\n`.
pub open spec fn lines(s: Seq<char>) -> Seq<Seq<char>>
    decreases s.len(),
{
    if s.len() == 0 {
        seq![]
    } else {
        let i = find_char(s, '\n');
        if i >= s.len() {
            seq![s]
        } else {
            proof {
                lemma_find_char_bounds(s, '\n');
            }
            seq![strip_cr(s.take(i))] + lines(s.skip(i + 1))
        }
    }
}

/// Concatenate `ls`, putting `sep` between neighbours (`[T]::join`).
pub open spec fn join(ls: Seq<Seq<char>>, sep: Seq<char>) -> Seq<char>
    decreases ls.len(),
{
    if ls.len() == 0 {
        seq![]
    } else if ls.len() == 1 {
        ls[0]
    } else {
        ls[0] + sep + join(ls.drop_first(), sep)
    }
}

pub open spec fn nl() -> Seq<char> {
    seq!['\n']
}

/// True when `c` does not occur in `s`.
pub open spec fn lacks(s: Seq<char>, c: char) -> bool {
    forall|i: int| 0 <= i < s.len() ==> #[trigger] s[i] != c
}

pub proof fn lemma_find_char_bounds(s: Seq<char>, c: char)
    ensures
        0 <= find_char(s, c) <= s.len(),
        find_char(s, c) < s.len() ==> s[find_char(s, c)] == c,
        forall|j: int| 0 <= j < find_char(s, c) ==> #[trigger] s[j] != c,
    decreases s.len(),
{
    if s.len() > 0 && s[0] != c {
        lemma_find_char_bounds(s.drop_first(), c);
        assert forall|j: int| 0 <= j < find_char(s, c) implies #[trigger] s[j] != c by {
            if j > 0 {
                assert(s[j] == s.drop_first()[j - 1]);
            }
        }
    }
}

/// The first `c` is at `k` when `s[k] == c` and no earlier character is `c`.
pub proof fn lemma_find_char_at(s: Seq<char>, c: char, k: int)
    requires
        0 <= k <= s.len(),
        k < s.len() ==> s[k] == c,
        forall|j: int| 0 <= j < k ==> #[trigger] s[j] != c,
    ensures
        find_char(s, c) == k,
    decreases s.len(),
{
    if s.len() > 0 && k > 0 {
        let t = s.drop_first();
        assert forall|j: int| 0 <= j < k - 1 implies #[trigger] t[j] != c by {
            assert(t[j] == s[j + 1]);
        }
        lemma_find_char_at(t, c, k - 1);
    }
}

/// Lines of text without a newline: the text itself (or nothing if empty).
pub proof fn lemma_lines_no_newline(s: Seq<char>)
    requires
        lacks(s, '\n'),
    ensures
        lines(s) == (if s.len() == 0 {
            Seq::<Seq<char>>::empty()
        } else {
            seq![s]
        }),
{
    if s.len() > 0 {
        lemma_find_char_at(s, '\n', s.len() as int);
    }
}

/// Splitting `a + "\n" + b` where `a` has no newline.
pub proof fn lemma_lines_cons(a: Seq<char>, b: Seq<char>)
    requires
        lacks(a, '\n'),
    ensures
        lines(a + nl() + b) == seq![strip_cr(a)] + lines(b),
{
    let s = a + nl() + b;
    assert forall|j: int| 0 <= j < a.len() implies #[trigger] s[j] != '\n' by {
        assert(s[j] == a[j]);
    }
    lemma_find_char_at(s, '\n', a.len() as int);
    assert(s.take(a.len() as int) =~= a);
    assert(s.skip(a.len() as int + 1) =~= b);
}

/// The lines of `a + "\n" + b` are those of `a + "\n"` followed by those
/// of `b`.
pub proof fn lemma_lines_split(a: Seq<char>, b: Seq<char>)
    ensures
        lines(a + nl() + b) == lines(a + nl()) + lines(b),
    decreases a.len(),
{
    lemma_find_char_bounds(a, '\n');
    let i = find_char(a, '\n');
    if i >= a.len() {
        assert(lacks(a, '\n'));
        lemma_lines_cons(a, b);
        lemma_lines_cons(a, Seq::<char>::empty());
        assert(a + nl() + Seq::<char>::empty() =~= a + nl());
        assert(lines(Seq::<char>::empty()) =~= Seq::<Seq<char>>::empty());
        assert(seq![strip_cr(a)] + Seq::<Seq<char>>::empty() =~= seq![strip_cr(a)]);
    } else {
        let a1 = a.take(i);
        let a2 = a.skip(i + 1);
        assert(lacks(a1, '\n')) by {
            assert forall|j: int| 0 <= j < a1.len() implies #[trigger] a1[j] != '\n' by {
                assert(a1[j] == a[j]);
            }
        }
        assert(a + nl() + b =~= a1 + nl() + (a2 + nl() + b));
        assert(a + nl() =~= a1 + nl() + (a2 + nl()));
        lemma_lines_cons(a1, a2 + nl() + b);
        lemma_lines_cons(a1, a2 + nl());
        lemma_lines_split(a2, b);
        assert(seq![strip_cr(a1)] + (lines(a2 + nl()) + lines(b)) =~= (seq![strip_cr(a1)] + lines(
            a2 + nl(),
        )) + lines(b));
    }
}

/// Joining the lines of `t + "\n"` with newlines gives back `t`, when `t`
/// has no carriage return.
pub proof fn lemma_join_lines(t: Seq<char>)
    requires
        lacks(t, '\r'),
    ensures
        lines(t + nl()).len() >= 1,
        join(lines(t + nl()), nl()) == t,
    decreases t.len(),
{
    lemma_find_char_bounds(t, '\n');
    let i = find_char(t, '\n');
    if i >= t.len() {
        assert(lacks(t, '\n'));
        lemma_lines_cons(t, Seq::<char>::empty());
        assert(t + nl() + Seq::<char>::empty() =~= t + nl());
        assert(lines(Seq::<char>::empty()) =~= Seq::<Seq<char>>::empty());
        assert(strip_cr(t) == t);
        assert(seq![t] + Seq::<Seq<char>>::empty() =~= seq![t]);
    } else {
        let t1 = t.take(i);
        let t2 = t.skip(i + 1);
        assert(lacks(t1, '\n')) by {
            assert forall|j: int| 0 <= j < t1.len() implies #[trigger] t1[j] != '\n' by {
                assert(t1[j] == t[j]);
            }
        }
        assert(lacks(t2, '\r')) by {
            assert forall|j: int| 0 <= j < t2.len() implies #[trigger] t2[j] != '\r' by {
                assert(t2[j] == t[i + 1 + j]);
            }
        }
        assert(t + nl() =~= t1 + nl() + (t2 + nl()));
        lemma_lines_cons(t1, t2 + nl());
        assert(strip_cr(t1) == t1) by {
            if t1.len() > 0 {
                assert(t1.last() == t[i - 1]);
            }
        }
        lemma_join_lines(t2);
        let rest = lines(t2 + nl());
        let all = seq![t1] + rest;
        assert(all[0] == t1);
        assert(all.drop_first() =~= rest);
        assert(t1 + nl() + t2 =~= t);
    }
}

/// For text that does not end with a newline, adding one final newline
/// does not change its lines.
pub proof fn lemma_lines_terminated(t: Seq<char>)
    requires
        lacks(t, '\r'),
        t.len() > 0,
        t.last() != '\n',
    ensures
        lines(t + nl()) == lines(t),
    decreases t.len(),
{
    lemma_find_char_bounds(t, '\n');
    let i = find_char(t, '\n');
    if i >= t.len() {
        assert(lacks(t, '\n'));
        lemma_lines_no_newline(t);
        lemma_lines_cons(t, Seq::<char>::empty());
        assert(t + nl() + Seq::<char>::empty() =~= t + nl());
        assert(lines(Seq::<char>::empty()) =~= Seq::<Seq<char>>::empty());
        assert(strip_cr(t) == t);
        assert(seq![t] + Seq::<Seq<char>>::empty() =~= seq![t]);
    } else {
        let t1 = t.take(i);
        let t2 = t.skip(i + 1);
        assert(lacks(t1, '\n')) by {
            assert forall|j: int| 0 <= j < t1.len() implies #[trigger] t1[j] != '\n' by {
                assert(t1[j] == t[j]);
            }
        }
        assert(lacks(t2, '\r')) by {
            assert forall|j: int| 0 <= j < t2.len() implies #[trigger] t2[j] != '\r' by {
                assert(t2[j] == t[i + 1 + j]);
            }
        }
        assert(i < t.len() - 1);
        assert(t2.last() == t.last());
        assert(t + nl() =~= t1 + nl() + (t2 + nl()));
        assert(t =~= t1 + nl() + t2);
        lemma_lines_cons(t1, t2 + nl());
        lemma_lines_cons(t1, t2);
        lemma_lines_terminated(t2);
    }
}

/// What `trim_trailing` leaves is a prefix of the text.
pub proof fn lemma_trim_trailing_prefix(s: Seq<char>, c: char)
    ensures
        trim_trailing(s, c).len() <= s.len(),
        forall|i: int| 0 <= i < trim_trailing(s, c).len() ==> #[trigger] trim_trailing(s, c)[i] == s[i],
    decreases s.len(),
{
    if s.len() > 0 && s.last() == c {
        lemma_trim_trailing_prefix(s.drop_last(), c);
        assert forall|i: int| 0 <= i < trim_trailing(s, c).len() implies #[trigger] trim_trailing(s, c)[i] == s[i] by {
            assert(s.drop_last()[i] == s[i]);
        }
    }
}

/// What `trim_trailing` leaves is empty or does not end with `c`.
pub proof fn lemma_trim_trailing_last(s: Seq<char>, c: char)
    ensures
        trim_trailing(s, c).len() == 0 || trim_trailing(s, c).last() != c,
    decreases s.len(),
{
    if s.len() > 0 && s.last() == c {
        lemma_trim_trailing_last(s.drop_last(), c);
    }
}

/// The characters `ls` takes up as lines: each line and its terminator.
pub open spec fn line_total(ls: Seq<Seq<char>>) -> nat
    decreases ls.len(),
{
    if ls.len() == 0 {
        0
    } else {
        ls[0].len() + 1 + line_total(ls.drop_first())
    }
}

pub proof fn lemma_line_total_concat(a: Seq<Seq<char>>, b: Seq<Seq<char>>)
    ensures
        line_total(a + b) == line_total(a) + line_total(b),
    decreases a.len(),
{
    if a.len() == 0 {
        assert(a + b =~= b);
    } else {
        assert((a + b)[0] == a[0]);
        assert((a + b).drop_first() =~= a.drop_first() + b);
        lemma_line_total_concat(a.drop_first(), b);
    }
}

/// A suffix of `ls` takes up no more than `ls`.
pub proof fn lemma_line_total_skip(ls: Seq<Seq<char>>, j: int)
    requires
        0 <= j <= ls.len(),
    ensures
        line_total(ls.skip(j)) <= line_total(ls),
{
    lemma_line_total_concat(ls.take(j), ls.skip(j));
    assert(ls.take(j) + ls.skip(j) =~= ls);
}

/// The lines of `s` take up at most one character more than `s`.
pub proof fn lemma_lines_total(s: Seq<char>)
    ensures
        line_total(lines(s)) <= s.len() + 1,
    decreases s.len(),
{
    if s.len() > 0 {
        lemma_find_char_bounds(s, '\n');
        let i = find_char(s, '\n');
        if i < s.len() {
            lemma_lines_total(s.skip(i + 1));
            let first = strip_cr(s.take(i));
            let ls = lines(s);
            assert(ls == seq![first] + lines(s.skip(i + 1)));
            assert(ls[0] == first);
            assert(ls.drop_first() =~= lines(s.skip(i + 1)));
            assert(first.len() <= i);
            assert(line_total(ls) == first.len() + 1 + line_total(lines(s.skip(i + 1))));
        } else {
            let ls = lines(s);
            assert(ls == seq![s]);
            assert(ls.drop_first() =~= Seq::<Seq<char>>::empty());
            assert(line_total(ls) == s.len() + 1 + line_total(Seq::<Seq<char>>::empty()));
        }
    } else {
        assert(lines(s) =~= Seq::<Seq<char>>::empty());
    }
}

/// Joining lines with newlines takes no more room than the lines do.
pub proof fn lemma_join_len(ls: Seq<Seq<char>>)
    ensures
        join(ls, nl()).len() <= line_total(ls),
    decreases ls.len(),
{
    if ls.len() > 1 {
        lemma_join_len(ls.drop_first());
    } else if ls.len() == 1 {
        assert(ls.drop_first() =~= Seq::<Seq<char>>::empty());
    }
}

/// Removing trailing whitespace never lengthens a text.
pub proof fn lemma_trim_end_len(s: Seq<char>)
    ensures
        trim_end(s).len() <= s.len(),
    decreases s.len(),
{
    if s.len() > 0 && is_ws(s.last()) {
        lemma_trim_end_len(s.drop_last());
    }
}

/// `join` of a prefix grows by one separator and one element.
pub proof fn lemma_join_push(ls: Seq<Seq<char>>, x: Seq<char>, sep: Seq<char>)
    ensures
        join(ls.push(x), sep) == (if ls.len() == 0 {
            x
        } else {
            join(ls, sep) + sep + x
        }),
    decreases ls.len(),
{
    if ls.len() == 1 {
        assert(ls.push(x).drop_first() =~= seq![x]);
        assert(join(seq![x], sep) == x);
    } else if ls.len() > 1 {
        assert(ls.push(x).drop_first() =~= ls.drop_first().push(x));
        lemma_join_push(ls.drop_first(), x, sep);
        assert(ls[0] + sep + (join(ls.drop_first(), sep) + sep + x) =~= (ls[0] + sep + join(
            ls.drop_first(),
            sep,
        )) + sep + x);
    }
}

pub proof fn lemma_chars_deep_view(v: Vec<char>)
    ensures
        v.deep_view() == v@,
{
    assert(v.deep_view() =~= v@);
}

/// Index of the first element of `s` satisfying `p`, or `s.len()` if none.
pub open spec fn first_match<A>(s: Seq<A>, p: spec_fn(A) -> bool) -> int
    decreases s.len(),
{
    if s.len() == 0 {
        0
    } else if p(s[0]) {
        0
    } else {
        1 + first_match(s.drop_first(), p)
    }
}

pub proof fn lemma_first_match_bounds<A>(s: Seq<A>, p: spec_fn(A) -> bool)
    ensures
        0 <= first_match(s, p) <= s.len(),
        first_match(s, p) < s.len() ==> p(s[first_match(s, p)]),
        forall|j: int| 0 <= j < first_match(s, p) ==> !p(#[trigger] s[j]),
    decreases s.len(),
{
    if s.len() > 0 && !p(s[0]) {
        lemma_first_match_bounds(s.drop_first(), p);
        assert forall|j: int| 0 <= j < first_match(s, p) implies !p(#[trigger] s[j]) by {
            if j > 0 {
                assert(s[j] == s.drop_first()[j - 1]);
            }
        }
    }
}

pub proof fn lemma_first_match_at<A>(s: Seq<A>, p: spec_fn(A) -> bool, k: int)
    requires
        0 <= k <= s.len(),
        k < s.len() ==> p(s[k]),
        forall|j: int| 0 <= j < k ==> !p(#[trigger] s[j]),
    ensures
        first_match(s, p) == k,
    decreases s.len(),
{
    if s.len() > 0 && k > 0 {
        let t = s.drop_first();
        assert forall|j: int| 0 <= j < k - 1 implies !p(#[trigger] t[j]) by {
            assert(t[j] == s[j + 1]);
        }
        lemma_first_match_at(t, p, k - 1);
    }
}

/// `s` without any trailing `c` characters (`str::trim_end_matches(c)`).
pub open spec fn trim_trailing(s: Seq<char>, c: char) -> Seq<char>
    decreases s.len(),
{
    if s.len() > 0 && s.last() == c {
        trim_trailing(s.drop_last(), c)
    } else {
        s
    }
}

/// `s` without trailing `c` characters.
pub fn trim_trailing_vec(s: &[char], c: char) -> (r: Vec<char>)
    ensures
        r@ == trim_trailing(s@, c),
{
    let mut n: usize = s.len();
    assert(s@.take(n as int) =~= s@);
    while n > 0 && s[n - 1] == c
        invariant
            n <= s@.len(),
            trim_trailing(s@.take(n as int), c) == trim_trailing(s@, c),
        decreases n,
    {
        assert(s@.take(n as int).drop_last() =~= s@.take(n - 1));
        n = n - 1;
    }
    slice_prefix(s, n)
}

/// A copy of lines `lo..hi`.
pub fn sub_lines(ls: &Vec<Vec<char>>, lo: usize, hi: usize) -> (r: Vec<Vec<char>>)
    requires
        lo <= hi <= ls@.len(),
    ensures
        r.deep_view() == ls.deep_view().subrange(lo as int, hi as int),
{
    let mut r: Vec<Vec<char>> = Vec::new();
    let mut i: usize = lo;
    while i < hi
        invariant
            lo <= i <= hi <= ls@.len(),
            r.deep_view() == ls.deep_view().subrange(lo as int, i as int),
        decreases hi - i,
    {
        let line = slice_range(ls[i].as_slice(), 0, ls[i].len());
        proof {
            lemma_chars_deep_view(line);
            lemma_chars_deep_view(ls@[i as int]);
            assert(ls[i as int]@.subrange(0, ls[i as int]@.len() as int) =~= ls[i as int]@);
        }
        let ghost r0 = r.deep_view();
        let ghost lg = line;
        r.push(line);
        proof {
            assert(r@.last() == lg);
            assert(r.deep_view() =~= r0.push(lg@));
        }
        i += 1;
        assert(r.deep_view() =~= ls.deep_view().subrange(lo as int, i as int));
    }
    r
}

/// Copy the characters of a string, in order (`str::chars`).
pub fn chars_of(s: &str) -> (v: Vec<char>)
    ensures
        v@ == s@,
{
    broadcast use vstd::string::axiom_spec_iter;
    let mut v: Vec<char> = Vec::new();
    for c in it: s.chars()
        invariant
            it.seq() == s@,
            v@ == s@.take(it.index() as int),
    {
        v.push(c);
        assert(v@ =~= s@.take(it.index() + 1));
    }
    assert(v@ =~= s@);
    v
}

/// Build a `String` from characters (`String: FromIterator<char>`).
#[verifier::external_body]
pub fn string_of(v: &[char]) -> (s: String)
    ensures
        s@ == v@,
{
    v.iter().collect()
}

/// ASCII lower case (`char::to_ascii_lowercase`): ASCII capitals become the
/// matching small letters; every other character is returned unchanged.
pub fn to_ascii_lower(c: char) -> (r: char)
    ensures
        r == crate::paths::ascii_lower(c),
{
    if 'A' <= c && c <= 'Z' {
        let b: u8 = c as u8;
        assert(b as u32 == c as u32);
        let r: char = (b + 32) as char;
        r
    } else {
        c
    }
}

/// The text `{:?}` prints for a string: quoted, with escapes.
pub uninterp spec fn debug_quoted(s: Seq<char>) -> Seq<char>;

/// `format!("{:?}", s)`: the string's `Debug` form. It depends on the text
/// alone; the contract names it.
#[verifier::external_body]
pub fn debug_str(s: &str) -> (r: String)
    ensures
        r@ == debug_quoted(s@),
{
    format!("{:?}", s)
}

pub fn is_whitespace(c: char) -> (b: bool)
    ensures
        b == is_ws(c),
{
    c == '\t' || c == '\n' || c == '\u{0B}' || c == '\u{0C}' || c == '\r' || c == ' ' || c
        == '\u{85}' || c == '\u{A0}' || c == '\u{1680}' || ('\u{2000}' <= c && c <= '\u{200A}')
        || c == '\u{2028}' || c == '\u{2029}' || c == '\u{202F}' || c == '\u{205F}' || c
        == '\u{3000}'
}

/// Length of `s` once trailing whitespace is removed.
pub fn trim_end_len(s: &[char]) -> (n: usize)
    ensures
        n <= s@.len(),
        s@.take(n as int) == trim_end(s@),
{
    let mut n: usize = s.len();
    assert(s@.take(n as int) =~= s@);
    while n > 0 && is_whitespace(s[n - 1])
        invariant
            n <= s@.len(),
            trim_end(s@.take(n as int)) == trim_end(s@),
        decreases n,
    {
        assert(s@.take(n as int).drop_last() =~= s@.take(n - 1));
        n = n - 1;
    }
    assert(s@.take(n as int) == trim_end(s@.take(n as int)));
    n
}

/// `s` with trailing whitespace removed.
pub fn trim_end_vec(s: &[char]) -> (r: Vec<char>)
    ensures
        r@ == trim_end(s@),
{
    let n: usize = trim_end_len(s);
    slice_prefix(s, n)
}

/// Index of the first non-whitespace character.
pub fn trim_start_len(s: &[char]) -> (n: usize)
    ensures
        n <= s@.len(),
        s@.skip(n as int) == trim_start(s@),
{
    let mut n: usize = 0;
    assert(s@.skip(0) =~= s@);
    while n < s.len() && is_whitespace(s[n])
        invariant
            n <= s@.len(),
            trim_start(s@.skip(n as int)) == trim_start(s@),
        decreases s.len() - n,
    {
        assert(s@.skip(n as int).drop_first() =~= s@.skip(n + 1));
        n = n + 1;
    }
    n
}

/// `s` with whitespace removed at both ends.
pub fn trim_vec(s: &[char]) -> (r: Vec<char>)
    ensures
        r@ == trim(s@),
{
    let e = trim_end_vec(s);
    let n: usize = trim_start_len(e.as_slice());
    slice_range(e.as_slice(), n, e.len())
}

/// The one-character sequence `\n`.
pub fn newline_chars() -> (v: Vec<char>)
    ensures
        v@ == nl(),
{
    let mut v: Vec<char> = Vec::new();
    v.push('\n');
    assert(v@ =~= nl());
    v
}

/// The first `n` characters of `s`.
pub fn slice_prefix(s: &[char], n: usize) -> (r: Vec<char>)
    requires
        n <= s@.len(),
    ensures
        r@ == s@.take(n as int),
{
    slice_range(s, 0, n)
}

/// Characters `lo..hi` of `s`.
pub fn slice_range(s: &[char], lo: usize, hi: usize) -> (r: Vec<char>)
    requires
        lo <= hi <= s@.len(),
    ensures
        r@ == s@.subrange(lo as int, hi as int),
{
    let mut r: Vec<char> = Vec::new();
    let mut i: usize = lo;
    while i < hi
        invariant
            lo <= i <= hi <= s@.len(),
            r@ == s@.subrange(lo as int, i as int),
        decreases hi - i,
    {
        r.push(s[i]);
        i += 1;
        assert(r@ =~= s@.subrange(lo as int, i as int));
    }
    r
}

/// True when every character is whitespace (`str::trim().is_empty()`).
pub fn is_blank(s: &[char]) -> (b: bool)
    ensures
        b == all_ws(s@),
{
    let mut i: usize = 0;
    while i < s.len()
        invariant
            i <= s@.len(),
            forall|j: int| 0 <= j < i ==> is_ws(#[trigger] s@[j]),
        decreases s.len() - i,
    {
        if !is_whitespace(s[i]) {
            return false;
        }
        i += 1;
    }
    true
}

/// Character-wise equality of two sequences.
pub fn chars_eq(a: &[char], b: &[char]) -> (r: bool)
    ensures
        r == (a@ == b@),
{
    if a.len() != b.len() {
        return false;
    }
    let mut i: usize = 0;
    while i < a.len()
        invariant
            a@.len() == b@.len(),
            i <= a@.len(),
            forall|j: int| 0 <= j < i ==> a@[j] == b@[j],
        decreases a.len() - i,
    {
        if a[i] != b[i] {
            return false;
        }
        i += 1;
    }
    assert(a@ =~= b@);
    true
}

/// Append all of `b` to `a`.
pub fn append_chars(a: &mut Vec<char>, b: &[char])
    ensures
        final(a)@ == old(a)@ + b@,
{
    let mut i: usize = 0;
    let ghost a0 = a@;
    while i < b.len()
        invariant
            i <= b@.len(),
            a@ == a0 + b@.take(i as int),
        decreases b.len() - i,
    {
        a.push(b[i]);
        i += 1;
        assert(a@ =~= a0 + b@.take(i as int));
    }
    assert(b@.take(b@.len() as int) =~= b@);
}

/// Split `s` into lines exactly as `str::lines` does.
pub fn split_lines(s: &[char]) -> (res: Vec<Vec<char>>)
    ensures
        res.deep_view() == lines(s@),
{
    let mut res: Vec<Vec<char>> = Vec::new();
    let mut start: usize = 0;
    let mut i: usize = 0;
    assert(s@.skip(0) =~= s@);
    assert(res.deep_view() + lines(s@) =~= lines(s@));
    while i < s.len()
        invariant
            start <= i <= s@.len(),
            lines(s@) == res.deep_view() + lines(s@.skip(start as int)),
            forall|j: int| start <= j < i ==> #[trigger] s@[j] != '\n',
        decreases s.len() - i,
    {
        if s[i] == '\n' {
            let ghost t = s@.skip(start as int);
            proof {
                assert forall|j: int| 0 <= j < i - start implies #[trigger] t[j] != '\n' by {
                    assert(t[j] == s@[start + j]);
                }
                lemma_find_char_at(t, '\n', i - start);
                assert(t.take(i - start) =~= s@.subrange(start as int, i as int));
                assert(t.skip(i - start + 1) =~= s@.skip(i + 1));
            }
            let mut line = slice_range(s, start, i);
            let n: usize = line.len();
            if n > 0 && line[n - 1] == '\r' {
                line.pop();
            }
            let ghost before = res.deep_view();
            let ghost lg = line;
            proof {
                lemma_chars_deep_view(lg);
            }
            res.push(line);
            proof {
                assert(res@.last() == lg);
                assert(res.deep_view() =~= before.push(strip_cr(s@.subrange(start as int, i as int))));
            }
            start = i + 1;
        }
        i += 1;
    }
    if start < s.len() {
        let line = slice_range(s, start, s.len());
        let ghost t = s@.skip(start as int);
        proof {
            assert(t =~= s@.subrange(start as int, s@.len() as int));
            assert forall|j: int| 0 <= j < t.len() implies #[trigger] t[j] != '\n' by {
                assert(t[j] == s@[start + j]);
            }
            lemma_lines_no_newline(t);
        }
        let ghost before = res.deep_view();
        let ghost lg = line;
        proof {
            lemma_chars_deep_view(lg);
        }
        res.push(line);
        proof {
            assert(res@.last() == lg);
            assert(res.deep_view() =~= before.push(t));
        }
    } else {
        assert(s@.skip(start as int) =~= Seq::<char>::empty());
        assert(res.deep_view() + lines(s@.skip(start as int)) =~= res.deep_view());
    }
    res
}

/// Join `ls` with `sep` between neighbours.
pub fn join_vecs(ls: &Vec<Vec<char>>, sep: &[char]) -> (r: Vec<char>)
    ensures
        r@ == join(ls.deep_view(), sep@),
{
    let mut r: Vec<char> = Vec::new();
    let mut i: usize = 0;
    while i < ls.len()
        invariant
            i <= ls@.len(),
            r@ == join(ls.deep_view().take(i as int), sep@),
        decreases ls.len() - i,
    {
        proof {
            lemma_join_push(ls.deep_view().take(i as int), ls.deep_view()[i as int], sep@);
            assert(ls.deep_view().take(i + 1) =~= ls.deep_view().take(i as int).push(
                ls.deep_view()[i as int],
            ));
        }
        if i > 0 {
            append_chars(&mut r, sep);
        }
        append_chars(&mut r, ls[i].as_slice());
        i += 1;
    }
    assert(ls.deep_view().take(ls@.len() as int) =~= ls.deep_view());
    r
}

/// `a` sorts before `b`: the first differing character decides, and a
/// proper prefix comes first. On UTF-8 text this is the order of `str`'s
/// `Ord`, which compares the bytes.
pub open spec fn seq_lt(a: Seq<char>, b: Seq<char>) -> bool
    decreases a.len(),
{
    if a.len() == 0 {
        b.len() > 0
    } else if b.len() == 0 {
        false
    } else if a[0] != b[0] {
        a[0] < b[0]
    } else {
        seq_lt(a.drop_first(), b.drop_first())
    }
}

pub proof fn lemma_seq_lt_irreflexive(a: Seq<char>)
    ensures
        !seq_lt(a, a),
    decreases a.len(),
{
    if a.len() > 0 {
        lemma_seq_lt_irreflexive(a.drop_first());
    }
}

pub proof fn lemma_seq_lt_asymmetric(a: Seq<char>, b: Seq<char>)
    requires
        seq_lt(a, b),
    ensures
        !seq_lt(b, a),
    decreases a.len(),
{
    if a.len() > 0 && b.len() > 0 && a[0] == b[0] {
        lemma_seq_lt_asymmetric(a.drop_first(), b.drop_first());
    }
}

pub proof fn lemma_seq_lt_transitive(a: Seq<char>, b: Seq<char>, c: Seq<char>)
    requires
        seq_lt(a, b),
        seq_lt(b, c),
    ensures
        seq_lt(a, c),
    decreases a.len(),
{
    if a.len() > 0 && b.len() > 0 && c.len() > 0 && a[0] == b[0] && b[0] == c[0] {
        lemma_seq_lt_transitive(a.drop_first(), b.drop_first(), c.drop_first());
    }
}

pub proof fn lemma_seq_lt_total(a: Seq<char>, b: Seq<char>)
    ensures
        a == b || seq_lt(a, b) || seq_lt(b, a),
    decreases a.len(),
{
    if a.len() > 0 && b.len() > 0 && a[0] == b[0] {
        lemma_seq_lt_total(a.drop_first(), b.drop_first());
        if a.drop_first() == b.drop_first() {
            assert(a =~= seq![a[0]] + a.drop_first());
            assert(b =~= seq![b[0]] + b.drop_first());
        }
    } else if a.len() == 0 && b.len() == 0 {
        assert(a =~= b);
    }
}

/// Whether `a` sorts before `b` (see `seq_lt`).
pub fn str_lt(a: &str, b: &str) -> (r: bool)
    ensures
        r == seq_lt(a@, b@),
{
    let x = chars_of(a);
    let y = chars_of(b);
    let mut i: usize = 0;
    assert(x@.skip(0) =~= x@);
    assert(y@.skip(0) =~= y@);
    while i < x.len() && i < y.len()
        invariant
            i <= x@.len(),
            i <= y@.len(),
            x@ == a@,
            y@ == b@,
            seq_lt(a@, b@) == seq_lt(x@.skip(i as int), y@.skip(i as int)),
        decreases x.len() - i,
    {
        if x[i] != y[i] {
            return x[i] < y[i];
        }
        assert(x@.skip(i as int).drop_first() =~= x@.skip(i + 1));
        assert(y@.skip(i as int).drop_first() =~= y@.skip(i + 1));
        i += 1;
    }
    i == x.len() && i < y.len()
}

/// Strictly increasing in the `seq_lt` order (so free of duplicates).
pub open spec fn strictly_sorted(s: Seq<Seq<char>>) -> bool {
    forall|i: int, j: int| 0 <= i < j < s.len() ==> seq_lt(#[trigger] s[i], #[trigger] s[j])
}

/// The character sequences of a list of strings.
pub open spec fn strs(v: Seq<String>) -> Seq<Seq<char>> {
    v.map_values(|s: String| s@)
}

/// Whether `x` occurs in `v`.
pub fn contains_str(v: &Vec<String>, x: &String) -> (b: bool)
    ensures
        b == strs(v@).contains(x@),
{
    let mut i: usize = 0;
    while i < v.len()
        invariant
            i <= v@.len(),
            forall|j: int| 0 <= j < i ==> #[trigger] strs(v@)[j] != x@,
        decreases v.len() - i,
    {
        assert(strs(v@)[i as int] == v@[i as int]@);
        if v[i] == *x {
            assert(strs(v@)[i as int] == x@);
            return true;
        }
        i += 1;
    }
    false
}

/// Insert `x` into the strictly sorted `v`, keeping it strictly sorted; an
/// `x` already present leaves `v` as it was.
pub fn insert_sorted(v: &mut Vec<String>, x: String)
    requires
        strictly_sorted(strs(old(v)@)),
    ensures
        strictly_sorted(strs(final(v)@)),
        forall|y: Seq<char>| #[trigger] strs(final(v)@).contains(y) <==> (strs(old(v)@).contains(y) || y == x@),
{
    let ghost s0 = strs(v@);
    let mut k: usize = 0;
    while k < v.len() && str_lt(v[k].as_str(), x.as_str())
        invariant
            k <= v@.len(),
            s0 == strs(v@),
            strictly_sorted(s0),
            forall|j: int| 0 <= j < k ==> seq_lt(#[trigger] s0[j], x@),
        decreases v.len() - k,
    {
        assert(s0[k as int] == v@[k as int]@);
        k += 1;
    }
    if k < v.len() && v[k] == x {
        assert(s0[k as int] == v@[k as int]@);
        assert(s0.contains(x@));
        return;
    }
    proof {
        if k < v@.len() {
            assert(s0[k as int] == v@[k as int]@);
            lemma_seq_lt_total(s0[k as int], x@);
        }
    }
    let ghost xv = x@;
    v.insert(k, x);
    let ghost s1 = strs(v@);
    proof {
        assert(s1 =~= s0.insert(k as int, xv));
        assert forall|i: int, j: int| 0 <= i < j < s1.len() implies seq_lt(#[trigger] s1[i], #[trigger] s1[j]) by {
            if j < k {
            } else if j == k {
            } else if i < k {
                lemma_seq_lt_transitive(s1[i], xv, s0[k as int]);
                if j - 1 > k {
                    lemma_seq_lt_transitive(s1[i], s0[k as int], s0[j - 1]);
                }
            } else if i == k {
                if j - 1 > k {
                    lemma_seq_lt_transitive(xv, s0[k as int], s0[j - 1]);
                }
            } else {
            }
        }
        assert forall|y: Seq<char>| #[trigger] s1.contains(y) <==> (s0.contains(y) || y == xv) by {
            if s1.contains(y) {
                let i = choose|i: int| 0 <= i < s1.len() && s1[i] == y;
                if i < k {
                    assert(s0[i] == y);
                } else if i > k {
                    assert(s0[i - 1] == y);
                }
            }
            if s0.contains(y) {
                let i = choose|i: int| 0 <= i < s0.len() && s0[i] == y;
                if i < k {
                    assert(s1[i] == y);
                } else {
                    assert(s1[i + 1] == y);
                }
            }
            if y == xv {
                assert(s1[k as int] == y);
            }
        }
    }
}

} // verus!
