//! The compare tab's working state: two picked ids and the cached report
//! of comparing them in the loaded library.

use vstd::prelude::*;

use crate::diff::{compare, compare_spec, DiffReport, DiffView};
use crate::element::ElementView;
use crate::error::{ErrorView, OovraError};
use crate::library::{complete, elements_view, find_id, lemma_find_id_bounds, lookup, Library};
use crate::text::{append_chars, chars_of, string_of};

verus! {

/// Working state for the compare tab.
#[derive(Debug)]
pub struct CompareState {
    /// Id of the element on the "before" side.
    pub a: Option<String>,
    /// Id of the element on the "after" side.
    pub b: Option<String>,
    /// The cached result: none when a side is not picked or both sides
    /// are the same id; otherwise the report, or the reason there is none.
    pub report: Option<Result<DiffReport, String>>,
}

impl Default for CompareState {
    fn default() -> (c: Self)
        ensures
            c.a is None,
            c.b is None,
            c.report is None,
    {
        CompareState { a: None, b: None, report: None }
    }
}

/// The message for a picked id the library lacks.
pub open spec fn missing_text(id: Seq<char>) -> Seq<char> {
    "'"@ + id + "' is not in the loaded olib"@
}

/// The message for a comparison refused because the kinds differ.
pub open spec fn mismatch_text(a_id: Seq<char>, a_kind: Seq<char>, b_id: Seq<char>, b_kind: Seq<char>) -> Seq<char> {
    "Cannot compare an atom with a compound: '"@ + a_id + "' is an "@ + a_kind + ", '"@ + b_id
        + "' is a "@ + b_kind + "."@
}

pub open spec fn opt_text(o: Option<String>) -> Option<Seq<char>> {
    match o {
        Some(s) => Some(s@),
        None => None,
    }
}

/// The report for picks `a` and `b` in library `lib`.
pub open spec fn report_for(
    a: Option<Seq<char>>,
    b: Option<Seq<char>>,
    lib: Option<Seq<ElementView>>,
) -> Option<core::result::Result<DiffView, Seq<char>>> {
    match (a, b, lib) {
        (Some(a), Some(b), Some(lib)) => if a == b {
            None
        } else {
            match (lookup(lib, a), lookup(lib, b)) {
                (None, _) => Some(Err(missing_text(a))),
                (Some(_), None) => Some(Err(missing_text(b))),
                (Some(ea), Some(eb)) => match compare_spec(ea, eb) {
                    Ok(d) => Some(Ok(d)),
                    Err(ErrorView::KindMismatch { a_id, a_kind, b_id, b_kind }) => Some(
                        Err(mismatch_text(a_id, a_kind, b_id, b_kind)),
                    ),
                    Err(_) => None,
                },
            }
        },
        _ => None,
    }
}

pub open spec fn report_view(r: Option<Result<DiffReport, String>>) -> Option<core::result::Result<DiffView, Seq<char>>> {
    match r {
        None => None,
        Some(Ok(d)) => Some(Ok(d@)),
        Some(Err(m)) => Some(Err(m@)),
    }
}

pub open spec fn lib_view(lib: Option<&Library>) -> Option<Seq<ElementView>> {
    match lib {
        Some(l) => Some(elements_view(l.elements@)),
        None => None,
    }
}

fn missing_message(id: &String) -> (s: String)
    ensures
        s@ == missing_text(id@),
{
    let mut v = chars_of("'");
    append_chars(&mut v, chars_of(id.as_str()).as_slice());
    append_chars(&mut v, chars_of("' is not in the loaded olib").as_slice());
    string_of(v.as_slice())
}

fn error_message(e: &OovraError) -> (s: String)
    requires
        e@ is KindMismatch,
    ensures
        e@ matches ErrorView::KindMismatch { a_id, a_kind, b_id, b_kind } && s@ == mismatch_text(
            a_id,
            a_kind,
            b_id,
            b_kind,
        ),
{
    match e {
        OovraError::KindMismatch { a_id, a_kind, b_id, b_kind } => {
            let mut v = chars_of("Cannot compare an atom with a compound: '");
            append_chars(&mut v, chars_of(a_id.as_str()).as_slice());
            append_chars(&mut v, chars_of("' is an ").as_slice());
            append_chars(&mut v, chars_of(a_kind).as_slice());
            append_chars(&mut v, chars_of(", '").as_slice());
            append_chars(&mut v, chars_of(b_id.as_str()).as_slice());
            append_chars(&mut v, chars_of("' is a ").as_slice());
            append_chars(&mut v, chars_of(b_kind).as_slice());
            append_chars(&mut v, chars_of(".").as_slice());
            string_of(v.as_slice())
        },
        _ => String::new(),
    }
}

impl CompareState {
    pub fn new() -> (c: Self)
        ensures
            c.a is None,
            c.b is None,
            c.report is None,
    {
        Self::default()
    }

    /// Recompute the report against `lib`.
    pub fn recompute(&mut self, lib: Option<&Library>)
        requires
            lib matches Some(l) ==> l.well_formed(),
        ensures
            final(self).a == old(self).a,
            final(self).b == old(self).b,
            report_view(final(self).report) == report_for(opt_text(old(self).a), opt_text(old(self).b), lib_view(lib)),
    {
        let (a, b, lib) = match (&self.a, &self.b, lib) {
            (Some(a), Some(b), Some(l)) => (a, b, l),
            _ => {
                self.report = None;
                return;
            },
        };
        if *a == *b {
            self.report = None;
            return;
        }
        let ghost ev = elements_view(lib.elements@);
        proof {
            lemma_find_id_bounds(ev, a@);
            lemma_find_id_bounds(ev, b@);
        }
        let ea = match lib.get(a.as_str()) {
            Some(e) => e,
            None => {
                let m = missing_message(a);
                self.report = Some(Err(m));
                return;
            },
        };
        let eb = match lib.get(b.as_str()) {
            Some(e) => e,
            None => {
                let m = missing_message(b);
                self.report = Some(Err(m));
                return;
            },
        };
        assert(ev[find_id(ev, a@)] == ea@);
        assert(ev[find_id(ev, b@)] == eb@);
        assert(complete(ev[find_id(ev, a@)]));
        assert(complete(ev[find_id(ev, b@)]));
        let r = match compare(ea, eb) {
            Ok(d) => Ok(d),
            Err(e) => Err(error_message(&e)),
        };
        self.report = Some(r);
    }

    /// Replace the "before" pick and recompute against `lib`.
    pub fn set_a(&mut self, id: Option<String>, lib: Option<&Library>)
        requires
            lib matches Some(l) ==> l.well_formed(),
        ensures
            final(self).a == id,
            final(self).b == old(self).b,
            report_view(final(self).report) == report_for(opt_text(id), opt_text(old(self).b), lib_view(lib)),
    {
        self.a = id;
        self.recompute(lib);
    }

    /// Replace the "after" pick and recompute against `lib`.
    pub fn set_b(&mut self, id: Option<String>, lib: Option<&Library>)
        requires
            lib matches Some(l) ==> l.well_formed(),
        ensures
            final(self).a == old(self).a,
            final(self).b == id,
            report_view(final(self).report) == report_for(opt_text(old(self).a), opt_text(id), lib_view(lib)),
    {
        self.b = id;
        self.recompute(lib);
    }
}

} // verus!
