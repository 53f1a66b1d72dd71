//! previewf: preview and annotate markdown files with inline flags.
//!
//! The library holds what the preview tool decides and computes: the flag
//! grammar and the edits on flagged documents, HTML escaping, the finishing
//! of rendered markdown, terminal markers, listings, breadcrumbs and file
//! trees, the JSON viewer, container path handling and the parsing of
//! `docker` output, polling decisions, and the answers to the server's
//! requests. Reading and writing files, running `docker`, and serving HTTP
//! are left to the program around it.
pub mod text;
pub mod tags;
pub mod error;
pub mod flags;
pub mod html;
pub mod docker;
pub mod ordering;
pub mod source;
pub mod server;
pub mod json_view;
pub mod listing;
pub mod markdown;
pub mod terminal;
pub mod duration;
pub mod edits;
pub mod poll;
pub mod pages;
