//! Oovra: composition and comparison of agentic system prompts built from
//! Markdown + TOML "prompt elements".

pub mod text;
pub mod header;
pub mod error;
pub mod toml_doc;
pub mod element;
pub mod raw_header;
pub mod library;
pub mod render;
pub mod decompose;
pub mod diff;
pub mod paths;
pub mod create;
pub mod migrate;
pub mod canvas;
pub mod editor;
pub mod discovery;
pub mod cli;
pub mod comparison;
pub mod round_trip;

pub use element::{parse, parse_with, serialize, ParseOptions, PromptElement};
pub use error::{OovraError, Result};
pub use header::{InputRef, PromptElementHeader, PromptElementKind};
pub use library::Library;
