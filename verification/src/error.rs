//! Error type for Oovra operations.
//!
//! Every variant attaches the file path (or element id) and says what went
//! wrong, so that an agent reading the error can act on it. Paths are kept
//! as text: the library itself never touches the filesystem.

use vstd::prelude::*;

verus! {

#[derive(Debug)]
pub enum OovraError {
    FileNotFound(String),
    Io { path: String, message: String },
    WriteIo { path: String, message: String },
    EmptyFile(String),
    MissingOpenDelimiter { path: String, actual: String },
    MissingCloseDelimiter(String),
    InvalidToml { path: String, message: String },
    TomlSerialize { id: String, message: String },
    MissingField { path: String, field: &'static str },
    InvalidField { path: String, field: &'static str, value: String, reason: String },
    AtomHasForbiddenField { path: String, id: String, field: &'static str },
    CompoundMissingField { path: String, id: String, field: &'static str },
    EmptyBody(String),
    DuplicateId { id: String, first: String, second: String },
    ElementNotFound { id: String },
    VersionMismatch { id: String, pin: String, actual: String },
    KindMismatch { a_id: String, a_kind: &'static str, b_id: String, b_kind: &'static str },
    EmptyCompose,
    AlreadyLabeled(String),
    CannotDecomposeAtom { id: String },
    BodyParse { id: String, body_level: u32, reason: String },
    NotADirectory(String),
}

/// The same error with every text payload taken as a character sequence.
pub enum ErrorView {
    FileNotFound(Seq<char>),
    Io { path: Seq<char>, message: Seq<char> },
    WriteIo { path: Seq<char>, message: Seq<char> },
    EmptyFile(Seq<char>),
    MissingOpenDelimiter { path: Seq<char>, actual: Seq<char> },
    MissingCloseDelimiter(Seq<char>),
    InvalidToml { path: Seq<char>, message: Seq<char> },
    TomlSerialize { id: Seq<char>, message: Seq<char> },
    MissingField { path: Seq<char>, field: Seq<char> },
    InvalidField { path: Seq<char>, field: Seq<char>, value: Seq<char>, reason: Seq<char> },
    AtomHasForbiddenField { path: Seq<char>, id: Seq<char>, field: Seq<char> },
    CompoundMissingField { path: Seq<char>, id: Seq<char>, field: Seq<char> },
    EmptyBody(Seq<char>),
    DuplicateId { id: Seq<char>, first: Seq<char>, second: Seq<char> },
    ElementNotFound { id: Seq<char> },
    VersionMismatch { id: Seq<char>, pin: Seq<char>, actual: Seq<char> },
    KindMismatch { a_id: Seq<char>, a_kind: Seq<char>, b_id: Seq<char>, b_kind: Seq<char> },
    EmptyCompose,
    AlreadyLabeled(Seq<char>),
    CannotDecomposeAtom { id: Seq<char> },
    BodyParse { id: Seq<char>, body_level: u32, reason: Seq<char> },
    NotADirectory(Seq<char>),
}

impl View for OovraError {
    type V = ErrorView;

    open spec fn view(&self) -> ErrorView {
        match self {
            OovraError::FileNotFound(p) => ErrorView::FileNotFound(p@),
            OovraError::Io { path, message } => ErrorView::Io { path: path@, message: message@ },
            OovraError::WriteIo { path, message } => ErrorView::WriteIo {
                path: path@,
                message: message@,
            },
            OovraError::EmptyFile(p) => ErrorView::EmptyFile(p@),
            OovraError::MissingOpenDelimiter { path, actual } => ErrorView::MissingOpenDelimiter {
                path: path@,
                actual: actual@,
            },
            OovraError::MissingCloseDelimiter(p) => ErrorView::MissingCloseDelimiter(p@),
            OovraError::InvalidToml { path, message } => ErrorView::InvalidToml {
                path: path@,
                message: message@,
            },
            OovraError::TomlSerialize { id, message } => ErrorView::TomlSerialize {
                id: id@,
                message: message@,
            },
            OovraError::MissingField { path, field } => ErrorView::MissingField {
                path: path@,
                field: field@,
            },
            OovraError::InvalidField { path, field, value, reason } => ErrorView::InvalidField {
                path: path@,
                field: field@,
                value: value@,
                reason: reason@,
            },
            OovraError::AtomHasForbiddenField { path, id, field } =>
                ErrorView::AtomHasForbiddenField { path: path@, id: id@, field: field@ },
            OovraError::CompoundMissingField { path, id, field } =>
                ErrorView::CompoundMissingField { path: path@, id: id@, field: field@ },
            OovraError::EmptyBody(p) => ErrorView::EmptyBody(p@),
            OovraError::DuplicateId { id, first, second } => ErrorView::DuplicateId {
                id: id@,
                first: first@,
                second: second@,
            },
            OovraError::ElementNotFound { id } => ErrorView::ElementNotFound { id: id@ },
            OovraError::VersionMismatch { id, pin, actual } => ErrorView::VersionMismatch {
                id: id@,
                pin: pin@,
                actual: actual@,
            },
            OovraError::KindMismatch { a_id, a_kind, b_id, b_kind } => ErrorView::KindMismatch {
                a_id: a_id@,
                a_kind: a_kind@,
                b_id: b_id@,
                b_kind: b_kind@,
            },
            OovraError::EmptyCompose => ErrorView::EmptyCompose,
            OovraError::AlreadyLabeled(p) => ErrorView::AlreadyLabeled(p@),
            OovraError::CannotDecomposeAtom { id } => ErrorView::CannotDecomposeAtom { id: id@ },
            OovraError::BodyParse { id, body_level, reason } => ErrorView::BodyParse {
                id: id@,
                body_level: *body_level,
                reason: reason@,
            },
            OovraError::NotADirectory(p) => ErrorView::NotADirectory(p@),
        }
    }
}

pub type Result<T> = core::result::Result<T, OovraError>;

} // verus!
