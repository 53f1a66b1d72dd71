//! The error type shared by the library.
use std::path::PathBuf;
use vstd::prelude::*;
use crate::text::{chars_to_string, decimal, decimal_exec, push_all, push_str};

verus! {

/// `std::path::PathBuf`, carried through opaquely.
#[verifier::external_type_specification]
#[verifier::external_body]
pub struct ExPathBuf(std::path::PathBuf);

/// `std::path::Path`, carried through opaquely.
#[verifier::external_type_specification]
#[verifier::external_body]
pub struct ExPath(std::path::Path);

/// `std::io::Error`, carried through opaquely.
#[verifier::external_type_specification]
#[verifier::external_body]
pub struct ExIoError(std::io::Error);

/// `notify::Error`, carried through opaquely.
#[verifier::external_type_specification]
#[verifier::external_body]
pub struct ExNotifyError(notify::Error);

/// `PathBuf::clone`; nothing is claimed of the copy.
pub assume_specification[ <std::path::PathBuf as Clone>::clone ](p: &std::path::PathBuf) -> std::path::PathBuf;

/// What `PathBuf::as_path` gives for a path: the same path, borrowed as a
/// `Path`.
pub uninterp spec fn buf_as_path(p: &PathBuf) -> &std::path::Path;

/// Borrows a `PathBuf` as a `Path` (`PathBuf::as_path`). The result is
/// taken to be a function of the path, named `buf_as_path`.
#[verifier::external_body]
pub(crate) fn path_of(p: &PathBuf) -> (r: &std::path::Path)
    ensures
        r == buf_as_path(p),
{
    p.as_path()
}

/// What `PathBuf::from` gives for a path given as text.
pub uninterp spec fn pathbuf_of_text(s: Seq<char>) -> PathBuf;

/// A `PathBuf` for a path given as text (`PathBuf::from`). The result is
/// taken to be a function of the text, named `pathbuf_of_text`.
#[verifier::external_body]
pub(crate) fn pathbuf_from(s: &str) -> (r: PathBuf)
    ensures
        r == pathbuf_of_text(s@),
{
    PathBuf::from(s)
}

/// Everything that can go wrong while previewing, annotating or serving.
#[derive(Debug)]
pub enum PreviewError {
    FileNotFound(PathBuf),
    NotMarkdown(PathBuf),
    FlagParse { line: usize, detail: String },
    Server(std::io::Error),
    Watcher(notify::Error),
    DockerNotAvailable(String),
    ContainerNotFound(String),
    ContainerNotRunning(String),
    DockerExec(String),
    ContainerPathNotFound { container: String, path: String },
}

/// What `Path::display` shows of a path, as text: the path, with anything
/// that is not valid Unicode replaced.
pub uninterp spec fn path_display(p: &PathBuf) -> Seq<char>;

/// The text of a path as `Path::display` shows it, taken to be a function
/// of the path, named `path_display`.
#[verifier::external_body]
fn path_text(p: &PathBuf) -> (r: String)
    ensures
        r@ == path_display(p),
{
    p.display().to_string()
}

/// The message of an I/O error (its `Display`); nothing is claimed of it.
#[verifier::external_body]
fn io_error_text(e: &std::io::Error) -> String {
    e.to_string()
}

/// The message of a file-watching error (its `Display`); nothing is
/// claimed of it.
#[verifier::external_body]
fn notify_error_text(e: &notify::Error) -> String {
    e.to_string()
}

/// The message of a flag syntax error.
pub open spec fn flag_error_message(line: usize, detail: Seq<char>) -> Seq<char> {
    "Invalid flag syntax at line "@ + decimal(line as nat) + ": "@ + detail
}

/// `prefix` followed by `text`, as a `String`.
fn prefixed(prefix: &str, text: &str) -> (r: String)
    ensures
        r@ == prefix@ + text@,
{
    let mut v: Vec<char> = Vec::new();
    push_str(&mut v, prefix);
    push_str(&mut v, text);
    chars_to_string(&v)
}

impl PreviewError {
    /// The error's message, as the error is shown to users.
    pub fn message(&self) -> (r: String)
        ensures
            match self {
                PreviewError::FlagParse { line, detail } => r@ == flag_error_message(
                    *line,
                    detail@,
                ),
                PreviewError::DockerNotAvailable(m) => r@ == "Docker not available: "@ + m@,
                PreviewError::ContainerNotFound(m) => r@ == "Container not found: "@ + m@,
                PreviewError::ContainerNotRunning(m) => r@ == "Container not running: "@ + m@,
                PreviewError::DockerExec(m) => r@ == "Docker command failed: "@ + m@,
                PreviewError::ContainerPathNotFound { container, path } => r@
                    == "Path not found in container "@ + container@ + ":"@ + path@,
                PreviewError::FileNotFound(p) => r@ == "File not found: "@ + path_display(p),
                PreviewError::NotMarkdown(p) => r@ == "Not a markdown file: "@ + path_display(p),
                PreviewError::Server(_) => exists|t: Seq<char>| r@ == "Server error: "@ + t,
                PreviewError::Watcher(_) => exists|t: Seq<char>| r@ == "Watch error: "@ + t,
            },
    {
        match self {
            PreviewError::FileNotFound(p) => prefixed("File not found: ", path_text(p).as_str()),
            PreviewError::NotMarkdown(p) => prefixed(
                "Not a markdown file: ",
                path_text(p).as_str(),
            ),
            PreviewError::FlagParse { line, detail } => {
                let mut v: Vec<char> = Vec::new();
                push_str(&mut v, "Invalid flag syntax at line ");
                let n = decimal_exec(*line as u64);
                push_all(&mut v, &n);
                push_str(&mut v, ": ");
                push_str(&mut v, detail.as_str());
                chars_to_string(&v)
            },
            PreviewError::Server(e) => prefixed("Server error: ", io_error_text(e).as_str()),
            PreviewError::Watcher(e) => prefixed("Watch error: ", notify_error_text(e).as_str()),
            PreviewError::DockerNotAvailable(m) => prefixed("Docker not available: ", m.as_str()),
            PreviewError::ContainerNotFound(m) => prefixed("Container not found: ", m.as_str()),
            PreviewError::ContainerNotRunning(m) => prefixed(
                "Container not running: ",
                m.as_str(),
            ),
            PreviewError::DockerExec(m) => prefixed("Docker command failed: ", m.as_str()),
            PreviewError::ContainerPathNotFound { container, path } => {
                let mut v: Vec<char> = Vec::new();
                push_str(&mut v, "Path not found in container ");
                push_str(&mut v, container.as_str());
                push_str(&mut v, ":");
                push_str(&mut v, path.as_str());
                chars_to_string(&v)
            },
        }
    }
}

} // verus!
