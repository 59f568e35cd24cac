//! The TOML frontmatter schema for every Oovra prompt element.
//!
//! Every Oovra file is a `PromptElement`. Its `kind` field tells you which of
//! two shapes the file has:
//!
//! - `kind = "atom"` is a hand-authored element. Its body is freeform
//!   Markdown. It has no recipe.
//! - `kind = "compound"` is a composition produced by compose. Its body is a
//!   sequence of wrapped sub-element files. It carries a `composed_of`
//!   recipe plus composition metadata (`generated_at`, `render_mode`,
//!   `body_level`, and optional `depth`).

use vstd::prelude::*;

use crate::paths::ascii_lower;
use crate::text::{chars_of, string_of, to_ascii_lower};

verus! {

/// The two kinds of prompt element. An atom is hand-authored and
/// indivisible; a compound is produced by compose and carries a
/// `composed_of` recipe.
#[derive(Debug, Clone, Copy, PartialEq, Eq, Structural)]
pub enum PromptElementKind {
    Atom,
    Compound,
}

impl Default for PromptElementKind {
    fn default() -> (k: Self)
        ensures
            k == PromptElementKind::Atom,
    {
        PromptElementKind::Atom
    }
}

/// One immediate input to a composed element.
#[derive(Debug)]
pub struct InputRef {
    pub id: String,
    pub version: String,
}

pub struct InputRefView {
    pub id: Seq<char>,
    pub version: Seq<char>,
}

impl View for InputRef {
    type V = InputRefView;

    open spec fn view(&self) -> InputRefView {
        InputRefView { id: self.id@, version: self.version@ }
    }
}

impl Clone for InputRef {
    fn clone(&self) -> (r: Self)
        ensures
            r@ == self@,
    {
        InputRef { id: self.id.clone(), version: self.version.clone() }
    }
}

impl PartialEq for InputRef {
    fn eq(&self, other: &Self) -> (r: bool) {
        self.id == other.id && self.version == other.version
    }
}

impl vstd::std_specs::cmp::PartialEqSpecImpl for InputRef {
    open spec fn obeys_eq_spec() -> bool {
        true
    }

    open spec fn eq_spec(&self, other: &InputRef) -> bool {
        self.id@ == other.id@ && self.version@ == other.version@
    }
}

impl Eq for InputRef {}

impl InputRef {
    pub fn new(id: &str, version: &str) -> (r: InputRef)
        ensures
            r.id@ == id@,
            r.version@ == version@,
    {
        InputRef { id: String::from_str(id), version: String::from_str(version) }
    }
}

/// Views of a recipe.
pub open spec fn inputs_view(v: Seq<InputRef>) -> Seq<InputRefView> {
    v.map_values(|r: InputRef| r@)
}

/// Copy a recipe entry by entry.
pub fn copy_inputs(v: &Vec<InputRef>) -> (r: Vec<InputRef>)
    ensures
        inputs_view(r@) == inputs_view(v@),
{
    let mut r: Vec<InputRef> = Vec::new();
    let mut i: usize = 0;
    while i < v.len()
        invariant
            i <= v@.len(),
            r@.len() == i,
            inputs_view(r@) == inputs_view(v@.take(i as int)),
        decreases v.len() - i,
    {
        let c = v[i].clone();
        let ghost r0 = r@;
        r.push(c);
        proof {
            assert(inputs_view(r@) =~= inputs_view(r0).push(c@));
            assert(inputs_view(v@.take(i + 1)) =~= inputs_view(v@.take(i as int)).push(v@[i as int]@));
        }
        i += 1;
        assert(inputs_view(r@) =~= inputs_view(v@.take(i as int)));
    }
    assert(v@.take(v@.len() as int) =~= v@);
    r
}

pub open spec fn opt_str_view(o: Option<String>) -> Option<Seq<char>> {
    match o {
        Some(s) => Some(s@),
        None => None,
    }
}

pub open spec fn opt_inputs_view(o: Option<Vec<InputRef>>) -> Option<Seq<InputRefView>> {
    match o {
        Some(v) => Some(inputs_view(v@)),
        None => None,
    }
}

pub fn copy_opt_string(o: &Option<String>) -> (r: Option<String>)
    ensures
        opt_str_view(r) == opt_str_view(*o),
{
    match o {
        Some(s) => Some(s.clone()),
        None => None,
    }
}

pub fn copy_opt_inputs(o: &Option<Vec<InputRef>>) -> (r: Option<Vec<InputRef>>)
    ensures
        opt_inputs_view(r) == opt_inputs_view(*o),
{
    match o {
        Some(v) => Some(copy_inputs(v)),
        None => None,
    }
}

/// The full TOML frontmatter of a prompt element. Fields that are only
/// meaningful for compounds are optional and validated jointly against
/// `kind`.
///
/// `body_level` is the physical delimiter level used inside the body of a
/// compound; `depth` is the compositional depth of the recipe tree.
#[derive(Debug)]
pub struct PromptElementHeader {
    pub name: String,
    pub kind: PromptElementKind,
    pub id: String,
    pub version: String,
    pub meta: String,
    pub generated_at: Option<String>,
    pub render_mode: Option<String>,
    pub body_level: Option<u32>,
    pub depth: Option<u32>,
    pub composed_of: Option<Vec<InputRef>>,
}

pub struct HeaderView {
    pub name: Seq<char>,
    pub kind: PromptElementKind,
    pub id: Seq<char>,
    pub version: Seq<char>,
    pub meta: Seq<char>,
    pub generated_at: Option<Seq<char>>,
    pub render_mode: Option<Seq<char>>,
    pub body_level: Option<u32>,
    pub depth: Option<u32>,
    pub composed_of: Option<Seq<InputRefView>>,
}

impl View for PromptElementHeader {
    type V = HeaderView;

    open spec fn view(&self) -> HeaderView {
        HeaderView {
            name: self.name@,
            kind: self.kind,
            id: self.id@,
            version: self.version@,
            meta: self.meta@,
            generated_at: opt_str_view(self.generated_at),
            render_mode: opt_str_view(self.render_mode),
            body_level: self.body_level,
            depth: self.depth,
            composed_of: opt_inputs_view(self.composed_of),
        }
    }
}

impl Clone for PromptElementHeader {
    fn clone(&self) -> (r: Self)
        ensures
            r@ == self@,
    {
        PromptElementHeader {
            name: self.name.clone(),
            kind: self.kind,
            id: self.id.clone(),
            version: self.version.clone(),
            meta: self.meta.clone(),
            generated_at: copy_opt_string(&self.generated_at),
            render_mode: copy_opt_string(&self.render_mode),
            body_level: self.body_level,
            depth: self.depth,
            composed_of: copy_opt_inputs(&self.composed_of),
        }
    }
}

impl PromptElementHeader {
    /// True if this element is an atom (hand-authored, no recipe).
    pub fn is_atom(&self) -> (b: bool)
        ensures
            b == (self.kind == PromptElementKind::Atom),
    {
        match self.kind {
            PromptElementKind::Atom => true,
            PromptElementKind::Compound => false,
        }
    }

    /// True if this element is a compound (produced by compose, has a recipe).
    pub fn is_compound(&self) -> (b: bool)
        ensures
            b == (self.kind == PromptElementKind::Compound),
    {
        match self.kind {
            PromptElementKind::Atom => false,
            PromptElementKind::Compound => true,
        }
    }
}

pub open spec fn is_kebab_char(c: char) -> bool {
    ('a' <= c && c <= 'z') || ('0' <= c && c <= '9') || c == '-'
}

/// Kebab-case: non-empty; lowercase ASCII letters, digits and hyphens only;
/// no leading or trailing hyphen; no two hyphens in a row.
pub open spec fn kebab(s: Seq<char>) -> bool {
    &&& s.len() > 0
    &&& s[0] != '-'
    &&& s.last() != '-'
    &&& forall|i: int| 0 <= i < s.len() ==> is_kebab_char(#[trigger] s[i])
    &&& forall|i: int| 0 <= i < s.len() - 1 ==> !(#[trigger] s[i] == '-' && s[i + 1] == '-')
}

pub fn is_kebab_chars(s: &[char]) -> (b: bool)
    ensures
        b == kebab(s@),
{
    let n = s.len();
    if n == 0 {
        return false;
    }
    if s[0] == '-' || s[n - 1] == '-' {
        return false;
    }
    let mut i: usize = 0;
    while i < n
        invariant
            n == s@.len(),
            i <= n,
            forall|j: int| 0 <= j < i ==> is_kebab_char(#[trigger] s@[j]),
            forall|j: int| 0 <= j < i && j < n - 1 ==> !(#[trigger] s@[j] == '-' && s@[j + 1] == '-'),
        decreases n - i,
    {
        let c = s[i];
        if !(('a' <= c && c <= 'z') || ('0' <= c && c <= '9') || c == '-') {
            return false;
        }
        if i + 1 < n && c == '-' && s[i + 1] == '-' {
            return false;
        }
        i += 1;
    }
    true
}

/// Validate kebab-case: lowercase letters, digits, and hyphens only;
/// no leading/trailing hyphen; no double-hyphen.
pub fn is_kebab_case(s: &str) -> (b: bool)
    ensures
        b == kebab(s@),
{
    let v = chars_of(s);
    is_kebab_chars(v.as_slice())
}

/// Whether `semver::Version::parse` accepts the text.
pub uninterp spec fn semver_accepts(s: Seq<char>) -> bool;

/// Whether `chrono::DateTime::parse_from_rfc3339` accepts the text.
pub uninterp spec fn rfc3339_accepts(s: Seq<char>) -> bool;

/// Validate semver per the `semver` crate: the result is whether
/// `semver::Version::parse` succeeds on the text, named `semver_accepts`.
#[verifier::external_body]
pub fn is_valid_semver(s: &str) -> (b: bool)
    ensures
        b == semver_accepts(s@),
{
    semver::Version::parse(s).is_ok()
}

/// Validate an RFC 3339 timestamp: the result is whether
/// `chrono::DateTime::parse_from_rfc3339` succeeds on the text, named
/// `rfc3339_accepts`.
#[verifier::external_body]
pub fn is_valid_rfc3339(s: &str) -> (b: bool)
    ensures
        b == rfc3339_accepts(s@),
{
    chrono::DateTime::parse_from_rfc3339(s).is_ok()
}

/// The characters a slug keeps: ASCII letters and digits.
pub open spec fn is_slug_source(c: char) -> bool {
    ('a' <= c && c <= 'z') || ('A' <= c && c <= 'Z') || ('0' <= c && c <= '9')
}

/// The slug of `s` continued onto `out`; `gap` records that characters
/// were dropped since the last one kept. Kept characters are lowered;
/// each run of dropped characters between kept ones becomes one `-`.
pub open spec fn slug_from(s: Seq<char>, out: Seq<char>, gap: bool) -> Seq<char>
    decreases s.len(),
{
    if s.len() == 0 {
        out
    } else if is_slug_source(s[0]) {
        let sep = if gap && out.len() > 0 {
            out.push('-')
        } else {
            out
        };
        slug_from(s.drop_first(), sep.push(ascii_lower(s[0])), false)
    } else {
        slug_from(s.drop_first(), out, true)
    }
}

/// The kebab-case slug of `s`, if it has any letter or digit.
pub open spec fn slugify_spec(s: Seq<char>) -> Option<Seq<char>> {
    let o = slug_from(s, seq![], false);
    if o.len() == 0 {
        None
    } else {
        Some(o)
    }
}

/// Turn arbitrary text (a file name stem, say) into a kebab-case id:
/// ASCII letters and digits are kept and lowered, every run of other
/// characters between them becomes a single `-`, and leading or trailing
/// runs are dropped. `None` when nothing is left.
pub fn slugify(s: &str) -> (r: Option<String>)
    ensures
        match r {
            Some(x) => slugify_spec(s@) == Some(x@),
            None => slugify_spec(s@) is None,
        },
{
    let cs = chars_of(s);
    let mut out: Vec<char> = Vec::new();
    let mut gap: bool = false;
    let mut i: usize = 0;
    assert(cs@.skip(0) =~= cs@);
    while i < cs.len()
        invariant
            i <= cs@.len(),
            cs@ == s@,
            slug_from(s@, seq![], false) == slug_from(cs@.skip(i as int), out@, gap),
        decreases cs.len() - i,
    {
        let c = cs[i];
        assert(cs@.skip(i as int)[0] == c);
        assert(cs@.skip(i as int).drop_first() =~= cs@.skip(i + 1));
        if ('a' <= c && c <= 'z') || ('A' <= c && c <= 'Z') || ('0' <= c && c <= '9') {
            if gap && out.len() > 0 {
                out.push('-');
            }
            out.push(to_ascii_lower(c));
            gap = false;
        } else {
            gap = true;
        }
        i += 1;
    }
    assert(cs@.skip(i as int) =~= Seq::<char>::empty());
    if out.len() == 0 {
        None
    } else {
        Some(string_of(out.as_slice()))
    }
}

proof fn lemma_slug_step(out: Seq<char>, c: char, gap: bool)
    requires
        out.len() == 0 || kebab(out),
        is_slug_source(c),
    ensures
        kebab(
            (if gap && out.len() > 0 {
                out.push('-')
            } else {
                out
            }).push(ascii_lower(c)),
        ),
{
    let sep = if gap && out.len() > 0 {
        out.push('-')
    } else {
        out
    };
    let r = sep.push(ascii_lower(c));
    assert(is_kebab_char(ascii_lower(c)));
    assert forall|i: int| 0 <= i < r.len() implies is_kebab_char(#[trigger] r[i]) by {
        if i < out.len() {
            assert(r[i] == out[i]);
        }
    }
    assert forall|i: int| 0 <= i < r.len() - 1 implies !(#[trigger] r[i] == '-' && r[i + 1] == '-') by {
        if i + 1 < out.len() {
            assert(r[i] == out[i] && r[i + 1] == out[i + 1]);
        } else if i + 1 == out.len() {
            assert(r[i] == out[i]);
        }
    }
    if out.len() > 0 {
        assert(r[0] == out[0]);
    }
}

proof fn lemma_slug_from_kebab(s: Seq<char>, out: Seq<char>, gap: bool)
    requires
        out.len() == 0 || kebab(out),
    ensures
        slug_from(s, out, gap).len() == 0 || kebab(slug_from(s, out, gap)),
    decreases s.len(),
{
    if s.len() > 0 {
        if is_slug_source(s[0]) {
            lemma_slug_step(out, s[0], gap);
            let sep = if gap && out.len() > 0 {
                out.push('-')
            } else {
                out
            };
            lemma_slug_from_kebab(s.drop_first(), sep.push(ascii_lower(s[0])), false);
        } else {
            lemma_slug_from_kebab(s.drop_first(), out, true);
        }
    }
}

/// Every slug is a kebab-case id.
pub proof fn lemma_slugify_is_kebab(s: Seq<char>)
    ensures
        slugify_spec(s) matches Some(o) ==> kebab(o),
{
    lemma_slug_from_kebab(s, seq![], false);
}

proof fn lemma_slug_of_kebab(s: Seq<char>, i: int)
    requires
        kebab(s),
        0 <= i <= s.len(),
    ensures
        slug_from(
            s.skip(i),
            if i > 0 && s[i - 1] == '-' {
                s.take(i - 1)
            } else {
                s.take(i)
            },
            i > 0 && s[i - 1] == '-',
        ) == s,
    decreases s.len() - i,
{
    let gap = i > 0 && s[i - 1] == '-';
    let out = if gap {
        s.take(i - 1)
    } else {
        s.take(i)
    };
    if i == s.len() {
        assert(s.last() != '-');
        assert(s.take(i) =~= s);
    } else {
        let c = s[i];
        assert(s.skip(i)[0] == c);
        assert(s.skip(i).drop_first() =~= s.skip(i + 1));
        assert(is_kebab_char(c));
        if c == '-' {
            assert(i > 0);
            assert(!gap);
            assert(!is_slug_source(c));
            assert(s.take(i + 1 - 1) =~= s.take(i));
            lemma_slug_of_kebab(s, i + 1);
        } else {
            assert(is_slug_source(c));
            assert(ascii_lower(c) == c);
            if gap {
                assert(i >= 2) by {
                    assert(s[0] != '-');
                }
                assert(out.len() > 0);
                assert(out.push('-').push(c) =~= s.take(i + 1));
            } else {
                assert(out.push(c) =~= s.take(i + 1));
            }
            lemma_slug_of_kebab(s, i + 1);
        }
    }
}

/// A kebab-case id is its own slug.
pub proof fn lemma_slugify_fixes_kebab(s: Seq<char>)
    requires
        kebab(s),
    ensures
        slugify_spec(s) == Some(s),
{
    lemma_slug_of_kebab(s, 0);
    assert(s.skip(0) =~= s);
    assert(s.take(0) =~= Seq::<char>::empty());
}

} // verus!
