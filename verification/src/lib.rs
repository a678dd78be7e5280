//! ydcli — a command-line client for the Youdao dictionary.
//!
//! Reads a word's result page from dict.youdao.com (paraphrases,
//! pronunciations, word forms and example sentences) and renders it for the
//! terminal with ANSI colours. This crate holds the page model, the HTML
//! engine and the text it prints; sockets and the terminal are the caller's.

pub mod color;
pub mod english;
pub mod html;
pub mod http;
pub mod model;
pub mod render;
pub mod text;

pub use color::{styled, Color};
pub use english::{render_page, search_path, Example, Paraphrase, Pronounce, Variant};
pub use model::PronounceEntry;
