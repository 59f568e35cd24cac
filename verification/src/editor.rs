//! Editor: in-memory edit state for one prompt-element file.
//!
//! Only atoms are editable; a compound opens read-only with a summary. The
//! flow: `Editor::open` parses the file's text; the host writes user edits
//! into the fields and sets `dirty`; `Editor::save` checks the edit and
//! renders the text to write, which is validated by parsing it back before
//! anything reaches the disk. Reading and writing the file are the host's
//! part; it reports the outcome back with `saved` or `save_failed`.

use vstd::prelude::*;

use crate::element::write_spec;
use crate::element::{
    decimal, decimal_chars, parse, parse_spec, prepare_write, ElementView, PromptElement,
};
use crate::error::{ErrorView, OovraError};
use crate::header::{
    is_valid_semver, semver_accepts, HeaderView, PromptElementHeader, PromptElementKind,
};
use crate::text::{all_ws, append_chars, chars_of, debug_quoted, debug_str, is_blank, string_of};

verus! {

/// In-memory edit state for one atom.
#[derive(Debug)]
pub struct Editor {
    pub path: String,
    /// Identifier; read-only here, since a rename ripples into the recipes
    /// that reference the id.
    pub id: String,
    pub name: String,
    pub version: String,
    pub meta: String,
    pub body: String,
    /// `true` while in-memory edits have not been saved.
    pub dirty: bool,
    /// One-line status or error text.
    pub status: String,
}

/// Outcome of `Editor::open`.
#[derive(Debug)]
pub enum OpenResult {
    /// The atom is editable.
    Loaded(Editor),
    /// The element is a compound, shown but not editable.
    CompoundReadOnly { path: String, summary: String },
    /// The text did not parse.
    Failed(OovraError),
}

/// Why a save did not produce text to write.
#[derive(Debug)]
pub enum SaveError {
    /// The edit was refused before building the element; the message.
    Rejected(String),
    /// The element's serialized form failed its check.
    Invalid(OovraError),
}

/// Why a reload left the editor as it was.
#[derive(Debug)]
pub enum ReloadError {
    /// The text on disk did not parse.
    Parse(OovraError),
    /// The element on disk is no longer an atom.
    NotAtom,
}

/// The atom header the editor's fields describe.
pub open spec fn edited_header(e: Editor) -> HeaderView {
    HeaderView {
        name: e.name@,
        kind: PromptElementKind::Atom,
        id: e.id@,
        version: e.version@,
        meta: e.meta@,
        generated_at: None,
        render_mode: None,
        body_level: None,
        depth: None,
        composed_of: None,
    }
}

/// The element the editor's fields describe.
pub open spec fn edited_element(e: Editor) -> ElementView {
    ElementView { header: edited_header(e), body: e.body@, source_path: None }
}

/// The summary shown for a compound: its id and how many inputs it has.
pub open spec fn compound_summary(id: Seq<char>, inputs: nat) -> Seq<char> {
    id + " — compound with "@ + decimal(inputs) + " input(s); editing compounds is a later sprint"@
}

/// The message for a version that is not semver.
pub open spec fn semver_message(version: Seq<char>) -> Seq<char> {
    "version "@ + debug_quoted(version) + " is not valid semver"@
}

impl Editor {
    /// Open the file at `path`, whose text is `content`, as an editable
    /// atom.
    pub fn open(path: &str, content: &str) -> (r: OpenResult)
        ensures
            match parse_spec(content@, path@, false) {
                Err(e) => r matches OpenResult::Failed(x) && x@ == e,
                Ok(el) => if el.header.kind == PromptElementKind::Atom {
                    r matches OpenResult::Loaded(ed) && ed.path@ == path@ && ed.id@ == el.header.id
                        && ed.name@ == el.header.name && ed.version@ == el.header.version
                        && ed.meta@ == el.header.meta && ed.body@ == el.body && !ed.dirty
                        && ed.status@ == "Loaded "@ + path@
                } else {
                    r matches OpenResult::CompoundReadOnly { path: p, summary } && p@ == path@
                        && summary@ == compound_summary(
                        el.header.id,
                        match el.header.composed_of {
                            Some(v) => v.len(),
                            None => 0,
                        },
                    )
                },
            },
    {
        let element = match parse(content, path) {
            Ok(e) => e,
            Err(e) => return OpenResult::Failed(e),
        };
        match element.header.kind {
            PromptElementKind::Atom => {
                let mut st = chars_of("Loaded ");
                append_chars(&mut st, chars_of(path).as_slice());
                OpenResult::Loaded(
                    Editor {
                        path: String::from_str(path),
                        id: element.header.id,
                        name: element.header.name,
                        version: element.header.version,
                        meta: element.header.meta,
                        body: element.body,
                        dirty: false,
                        status: string_of(st.as_slice()),
                    },
                )
            },
            PromptElementKind::Compound => {
                let n: usize = match &element.header.composed_of {
                    Some(v) => v.len(),
                    None => 0,
                };
                let mut s = chars_of(element.header.id.as_str());
                append_chars(&mut s, chars_of(" — compound with ").as_slice());
                append_chars(&mut s, decimal_chars(n as u64).as_slice());
                append_chars(
                    &mut s,
                    chars_of(" input(s); editing compounds is a later sprint").as_slice(),
                );
                OpenResult::CompoundReadOnly {
                    path: String::from_str(path),
                    summary: string_of(s.as_slice()),
                }
            },
        }
    }

    fn reject(&mut self, msg: String) -> (r: SaveError)
        ensures
            r matches SaveError::Rejected(m) && m@ == msg@,
            final(self).status@ == "Save rejected: "@ + msg@,
            final(self).path == old(self).path,
            final(self).id == old(self).id,
            final(self).name == old(self).name,
            final(self).version == old(self).version,
            final(self).meta == old(self).meta,
            final(self).body == old(self).body,
            final(self).dirty == old(self).dirty,
    {
        let mut st = chars_of("Save rejected: ");
        append_chars(&mut st, chars_of(msg.as_str()).as_slice());
        self.status = string_of(st.as_slice());
        SaveError::Rejected(msg)
    }

    /// Check the editor's state and render the text to write to `path`: a
    /// version that is not semver, or a blank name, is rejected (and the
    /// status says so); otherwise the atom the fields describe is
    /// serialized and checked by parsing it back.
    pub fn save_to(&mut self, path: &str) -> (r: Result<String, SaveError>)
        ensures
            !semver_accepts(old(self).version@) ==> (r matches Err(SaveError::Rejected(m)) && m@
                == semver_message(old(self).version@) && final(self).status@ == "Save rejected: "@
                + m@),
            semver_accepts(old(self).version@) && all_ws(old(self).name@) ==> (r matches Err(
                SaveError::Rejected(m),
            ) && m@ == "name must not be empty"@ && final(self).status@ == "Save rejected: "@ + m@),
            semver_accepts(old(self).version@) && !all_ws(old(self).name@) ==> match r {
                Ok(text) => write_spec(edited_element(*old(self)), path@) == Ok::<
                    Seq<char>,
                    ErrorView,
                >(text@),
                Err(SaveError::Invalid(e)) => write_spec(edited_element(*old(self)), path@) == Err::<
                    Seq<char>,
                    ErrorView,
                >(e@),
                Err(SaveError::Rejected(_)) => false,
            },
            final(self).path == old(self).path,
            final(self).id == old(self).id,
            final(self).name == old(self).name,
            final(self).version == old(self).version,
            final(self).meta == old(self).meta,
            final(self).body == old(self).body,
            final(self).dirty == old(self).dirty,
            semver_accepts(old(self).version@) && !all_ws(old(self).name@) ==> final(self).status
                == old(self).status,
    {
        if !is_valid_semver(self.version.as_str()) {
            let mut m = chars_of("version ");
            append_chars(&mut m, chars_of(debug_str(self.version.as_str()).as_str()).as_slice());
            append_chars(&mut m, chars_of(" is not valid semver").as_slice());
            let msg = string_of(m.as_slice());
            return Err(self.reject(msg));
        }
        let nm = chars_of(self.name.as_str());
        if is_blank(nm.as_slice()) {
            let msg = String::from_str("name must not be empty");
            return Err(self.reject(msg));
        }
        let header = PromptElementHeader {
            name: self.name.clone(),
            kind: PromptElementKind::Atom,
            id: self.id.clone(),
            version: self.version.clone(),
            meta: self.meta.clone(),
            generated_at: None,
            render_mode: None,
            body_level: None,
            depth: None,
            composed_of: None,
        };
        let element = PromptElement::new(header, self.body.clone());
        assert(element@ == edited_element(*self));
        match prepare_write(&element, path) {
            Ok(text) => Ok(text),
            Err(e) => Err(SaveError::Invalid(e)),
        }
    }

    /// Check and render the save of the editor's state to its own path.
    pub fn save(&mut self) -> (r: Result<String, SaveError>)
        ensures
            !semver_accepts(old(self).version@) ==> (r matches Err(SaveError::Rejected(m)) && m@
                == semver_message(old(self).version@) && final(self).status@ == "Save rejected: "@
                + m@),
            semver_accepts(old(self).version@) && all_ws(old(self).name@) ==> (r matches Err(
                SaveError::Rejected(m),
            ) && m@ == "name must not be empty"@ && final(self).status@ == "Save rejected: "@ + m@),
            semver_accepts(old(self).version@) && !all_ws(old(self).name@) ==> match r {
                Ok(text) => write_spec(edited_element(*old(self)), old(self).path@) == Ok::<
                    Seq<char>,
                    ErrorView,
                >(text@),
                Err(SaveError::Invalid(e)) => write_spec(edited_element(*old(self)), old(self).path@)
                    == Err::<Seq<char>, ErrorView>(e@),
                Err(SaveError::Rejected(_)) => false,
            },
            final(self).path == old(self).path,
            final(self).id == old(self).id,
            final(self).name == old(self).name,
            final(self).version == old(self).version,
            final(self).meta == old(self).meta,
            final(self).body == old(self).body,
            final(self).dirty == old(self).dirty,
            semver_accepts(old(self).version@) && !all_ws(old(self).name@) ==> final(self).status
                == old(self).status,
    {
        let path = self.path.clone();
        self.save_to(path.as_str())
    }

    /// The text was written to `path`: the edits are saved.
    pub fn saved(&mut self, path: &str)
        ensures
            !final(self).dirty,
            final(self).status@ == "Saved "@ + path@,
            final(self).path == old(self).path,
            final(self).body == old(self).body,
    {
        let mut st = chars_of("Saved ");
        append_chars(&mut st, chars_of(path).as_slice());
        self.dirty = false;
        self.status = string_of(st.as_slice());
    }

    /// The save failed with `msg`: the edits stay unsaved.
    pub fn save_failed(&mut self, msg: &str)
        ensures
            final(self).dirty == old(self).dirty,
            final(self).status@ == "Save failed: "@ + msg@,
            final(self).body == old(self).body,
    {
        let mut st = chars_of("Save failed: ");
        append_chars(&mut st, chars_of(msg).as_slice());
        self.status = string_of(st.as_slice());
    }

    /// Reading the file for a reload failed with `msg`.
    pub fn reload_failed(&mut self, msg: &str)
        ensures
            final(self).status@ == "Reload failed: "@ + msg@,
            final(self).dirty == old(self).dirty,
            final(self).body == old(self).body,
    {
        let mut st = chars_of("Reload failed: ");
        append_chars(&mut st, chars_of(msg).as_slice());
        self.status = string_of(st.as_slice());
    }

    /// Reload from the file's current text, discarding in-memory edits. A
    /// text that does not parse, or an element that is no longer an atom,
    /// leaves the edits in place.
    pub fn reload(&mut self, content: &str) -> (r: Result<(), ReloadError>)
        ensures
            match parse_spec(content@, old(self).path@, false) {
                Err(e) => r matches Err(ReloadError::Parse(x)) && x@ == e && *final(self) == *old(
                    self,
                ),
                Ok(el) => if el.header.kind != PromptElementKind::Atom {
                    r matches Err(ReloadError::NotAtom) && final(self).status@
                        == "Reload aborted: element on disk is no longer an atom"@
                        && final(self).body == old(self).body
                } else {
                    r is Ok && final(self).name@ == el.header.name && final(self).version@
                        == el.header.version && final(self).meta@ == el.header.meta
                        && final(self).body@ == el.body && !final(self).dirty
                        && final(self).status@ == "Reloaded "@ + old(self).path@
                },
            },
            final(self).path == old(self).path,
            final(self).id == old(self).id,
    {
        let element = match parse(content, self.path.as_str()) {
            Ok(e) => e,
            Err(e) => return Err(ReloadError::Parse(e)),
        };
        if !element.header.is_atom() {
            self.status = String::from_str("Reload aborted: element on disk is no longer an atom");
            return Err(ReloadError::NotAtom);
        }
        self.name = element.header.name;
        self.version = element.header.version;
        self.meta = element.header.meta;
        self.body = element.body;
        self.dirty = false;
        let mut st = chars_of("Reloaded ");
        append_chars(&mut st, chars_of(self.path.as_str()).as_slice());
        self.status = string_of(st.as_slice());
        Ok(())
    }
}

} // verus!
