//! The decisions behind the flag-editing requests of the preview server:
//! which requests are refused, with which status and text, and what the
//! document becomes otherwise. Reading and writing the file, and locking it
//! meanwhile, are left to the caller.
use vstd::prelude::*;
use crate::error::{flag_error_message, PreviewError};
use crate::flags::{
    extracted, has_flag, injected, inject_flag, is_code_fence, is_fence, max_id, not_found_detail, removed,
    remove_flag, update_flag, updated,
};
use crate::server::{is_markdown, is_markdown_name};
use crate::text::{
    chars_to_string, contains_exec, contains_seq, lines_of, seq_views, split_lines, str_to_chars,
    trim_exec, trimmed,
};

verus! {

/// A refused request: the HTTP status code and the text of the answer.
#[derive(Debug)]
pub struct Refusal {
    pub status: u16,
    pub message: String,
}

/// What a [`Refusal`] holds.
pub struct RefusalView {
    pub status: u16,
    pub message: Seq<char>,
}

impl View for Refusal {
    type V = RefusalView;

    open spec fn view(&self) -> RefusalView {
        RefusalView { status: self.status, message: self.message@ }
    }
}

/// The three kinds of flag edits.
#[derive(Debug, Clone, Copy, PartialEq, Eq, Structural)]
pub enum FlagAction {
    Add,
    Remove,
    Edit,
}

/// Why a flag edit on a file that is not markdown is refused.
pub open spec fn not_markdown_text(action: FlagAction) -> Seq<char> {
    match action {
        FlagAction::Add => "Flags can only be added to markdown files"@,
        FlagAction::Remove => "Flags can only be removed from markdown files"@,
        FlagAction::Edit => "Flags can only be edited in markdown files"@,
    }
}

fn refusal(status: u16, message: &str) -> (r: Refusal)
    ensures
        r@ == (RefusalView { status, message: message@ }),
{
    Refusal { status, message: chars_to_string(&str_to_chars(message)) }
}

/// Refuses (400) a flag edit on a file that is not a markdown file.
pub fn check_flag_target(filepath: &str, action: FlagAction) -> (r: Option<Refusal>)
    ensures
        match r {
            None => is_markdown_name(filepath@),
            Some(f) => !is_markdown_name(filepath@) && f@ == (RefusalView {
                status: 400,
                message: not_markdown_text(action),
            }),
        },
{
    if is_markdown(filepath) {
        return None;
    }
    let text = match action {
        FlagAction::Add => "Flags can only be added to markdown files",
        FlagAction::Remove => "Flags can only be removed from markdown files",
        FlagAction::Edit => "Flags can only be edited in markdown files",
    };
    Some(refusal(400, text))
}

/// Refuses (400) a new comment that is empty once trimmed.
pub fn check_comment(comment: &str) -> (r: Option<Refusal>)
    ensures
        match r {
            None => trimmed(comment@).len() > 0,
            Some(f) => trimmed(comment@).len() == 0 && f@ == (RefusalView {
                status: 400,
                message: "Comment cannot be empty"@,
            }),
        },
{
    let t = trim_exec(&str_to_chars(comment));
    if t.len() > 0 {
        None
    } else {
        Some(refusal(400, "Comment cannot be empty"))
    }
}

/// The index of the first line at or after `k` that contains `text`.
pub open spec fn first_line_with(ls: Seq<Seq<char>>, text: Seq<char>, k: int) -> Option<int>
    decreases ls.len() - k,
{
    if k < 0 || k >= ls.len() {
        None
    } else if contains_seq(ls[k], text) {
        Some(k)
    } else {
        first_line_with(ls, text, k + 1)
    }
}

/// The number (from 1) of the first line of `content` that contains `text`.
pub open spec fn selected_line(content: Seq<char>, text: Seq<char>) -> Option<int> {
    match first_line_with(lines_of(content), text, 0) {
        Some(k) => Some(k + 1),
        None => None,
    }
}

proof fn lemma_first_line_with(ls: Seq<Seq<char>>, text: Seq<char>, k: int)
    requires
        0 <= k,
    ensures
        first_line_with(ls, text, k) matches Some(j) ==> k <= j < ls.len(),
    decreases ls.len() - k,
{
    if k < ls.len() && !contains_seq(ls[k], text) {
        lemma_first_line_with(ls, text, k + 1);
    }
}

/// The number (from 1) of the first line of `content` that contains
/// `text`, if any.
pub fn find_selected_line(content: &str, text: &str) -> (r: Option<usize>)
    ensures
        match r {
            Some(l) => selected_line(content@, text@) == Some(l as int),
            None => selected_line(content@, text@) is None,
        },
{
    let lines = split_lines(&str_to_chars(content));
    let pat = str_to_chars(text);
    let ghost ls = lines_of(content@);
    let mut k: usize = 0;
    while k < lines.len()
        invariant
            ls == seq_views(lines@),
            ls == lines_of(content@),
            pat@ == text@,
            k <= lines.len(),
            first_line_with(ls, text@, 0) == first_line_with(ls, text@, k as int),
        decreases lines.len() - k,
    {
        assert(ls[k as int] == lines[k as int]@);
        if contains_exec(&lines[k], &pat) {
            return Some(k + 1);
        }
        k = k + 1;
    }
    None
}

/// Whether a request to flag the first line holding `selected_text` adds a
/// flag, and so needs a new id: the text occurs on some line, and that line
/// is no code fence delimiter.
pub fn adds_flag(content: &str, selected_text: &str) -> (r: bool)
    ensures
        r == (selected_line(content@, selected_text@) matches Some(l) && !is_fence(
            lines_of(content@)[l - 1],
        )),
{
    match find_selected_line(content, selected_text) {
        None => false,
        Some(l) => {
            proof {
                lemma_first_line_with(lines_of(content@), selected_text@, 0);
            }
            let lines = split_lines(&str_to_chars(content));
            assert(lines@[l - 1]@ == lines_of(content@)[l - 1]);
            !is_code_fence(&lines[l - 1])
        },
    }
}

/// The refusal for a failed flag edit: `status` and the error's message.
fn error_refusal(status: u16, e: &PreviewError) -> (r: Refusal)
    ensures
        r.status == status,
        e matches PreviewError::FlagParse { line, detail } ==> r.message@ == flag_error_message(
            *line,
            detail@,
        ),
{
    Refusal { status, message: e.message() }
}

/// What a request to flag the first line holding `selected_text` does to
/// the document: the flag is added to that line; a request whose text
/// occurs on no line is refused with 400 "Selected text not found in file",
/// and one whose line is a code fence delimiter with 400 and the flag
/// syntax error.
pub fn plan_add_flag(content: &str, selected_text: &str, comment: &str, label: &str) -> (r: Result<
    String,
    Refusal,
>)
    requires
        selected_line(content@, selected_text@) matches Some(l) && !is_fence(
            lines_of(content@)[l - 1],
        ) ==> max_id(extracted(content@)) < u32::MAX,
    ensures
        match selected_line(content@, selected_text@) {
            None => r matches Err(f) && f@ == (RefusalView {
                status: 400,
                message: "Selected text not found in file"@,
            }),
            Some(l) => if is_fence(lines_of(content@)[l - 1]) {
                r matches Err(f) && f@ == (RefusalView {
                    status: 400,
                    message: flag_error_message(
                        l as usize,
                        "Cannot inject flag into a code fence delimiter"@,
                    ),
                })
            } else {
                r matches Ok(s) && s@ == injected(
                    content@,
                    l,
                    max_id(extracted(content@)) + 1,
                    label@,
                    comment@,
                )
            },
        },
{
    let line = match find_selected_line(content, selected_text) {
        Some(l) => l,
        None => {
            return Err(refusal(400, "Selected text not found in file"));
        },
    };
    proof {
        lemma_first_line_with(lines_of(content@), selected_text@, 0);
    }
    match inject_flag(content, line, comment, label) {
        Ok(s) => Ok(s),
        Err(e) => Err(error_refusal(400, &e)),
    }
}

/// What a request to remove flag `id` does to the document: every tag with
/// that id goes; when there is none the request is refused with 404 and
/// the flag syntax error.
pub fn plan_remove_flag(content: &str, id: u32) -> (r: Result<String, Refusal>)
    ensures
        match r {
            Ok(s) => has_flag(extracted(content@), id) && s@ == removed(content@, id),
            Err(f) => !has_flag(extracted(content@), id) && f@ == (RefusalView {
                status: 404,
                message: flag_error_message(0, not_found_detail(id as nat)),
            }),
        },
{
    match remove_flag(content, id) {
        Ok(s) => Ok(s),
        Err(e) => Err(error_refusal(404, &e)),
    }
}

/// What a request to rewrite flag `id` does to the document: the comment of
/// every tag with that id is replaced, and its label when one is given;
/// when there is none the request is refused with 404 and the flag syntax
/// error.
pub fn plan_update_flag(content: &str, id: u32, comment: &str, label: Option<&str>) -> (r: Result<
    String,
    Refusal,
>)
    ensures
        match r {
            Ok(s) => has_flag(extracted(content@), id) && s@ == updated(
                content@,
                id,
                comment@,
                match label {
                    Some(l) => Some(l@),
                    None => None,
                },
            ),
            Err(f) => !has_flag(extracted(content@), id) && f@ == (RefusalView {
                status: 404,
                message: flag_error_message(0, not_found_detail(id as nat)),
            }),
        },
{
    match update_flag(content, id, comment, label) {
        Ok(s) => Ok(s),
        Err(e) => Err(error_refusal(404, &e)),
    }
}

} // verus!
