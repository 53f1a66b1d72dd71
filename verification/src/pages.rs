//! The document page of the preview server, and the checks in front of the
//! container routes.
use vstd::prelude::*;
use crate::docker::{valid_container_name, validate_container_name};
use crate::edits::{Refusal, RefusalView};
use crate::html::{escape_chars, escaped};
use crate::listing::{source_view, ListingSource};
use crate::server::{
    breadcrumbs_html, build_breadcrumbs, build_docker_breadcrumbs, docker_breadcrumbs_html,
    is_json, is_json_name, is_markdown, is_markdown_name,
};
use crate::text::{
    chars_to_string, copy_range, replace_all, replace_all_exec, str_to_chars,
};

verus! {

/// How the viewer shows a file.
#[derive(Debug, Clone, Copy, PartialEq, Eq, Structural)]
pub enum ViewKind {
    Markdown,
    Json,
    Unsupported,
}

/// How the viewer shows a file with this path: as markdown, as JSON, or
/// not at all.
pub open spec fn view_kind_of(path: Seq<char>) -> ViewKind {
    if is_markdown_name(path) {
        ViewKind::Markdown
    } else if is_json_name(path) {
        ViewKind::Json
    } else {
        ViewKind::Unsupported
    }
}

/// How the viewer shows a file with this path.
pub fn view_kind(path: &str) -> (r: ViewKind)
    ensures
        r == view_kind_of(path@),
{
    if is_markdown(path) {
        ViewKind::Markdown
    } else if is_json(path) {
        ViewKind::Json
    } else {
        ViewKind::Unsupported
    }
}

/// The index after the last `/` in `s[..i]`, or 0 when there is none.
pub open spec fn after_last_slash(s: Seq<char>, i: int) -> int
    decreases i,
{
    if i <= 0 || i > s.len() {
        0
    } else if s[i - 1] == '/' {
        i
    } else {
        after_last_slash(s, i - 1)
    }
}

/// The last `/`-separated segment of a path (all of it when it has no `/`).
pub open spec fn last_segment(path: Seq<char>) -> Seq<char> {
    path.subrange(after_last_slash(path, path.len() as int), path.len() as int)
}

/// The document page: the template with its title (the file's name,
/// escaped), breadcrumbs and rendered content filled in.
pub open spec fn document_page(
    container: Option<Seq<char>>,
    filepath: Seq<char>,
    template: Seq<char>,
    rendered: Seq<char>,
) -> Seq<char> {
    let crumbs = match container {
        None => breadcrumbs_html(filepath),
        Some(c) => docker_breadcrumbs_html(c, filepath),
    };
    replace_all(
        replace_all(replace_all(template, "{{title}}"@, escaped(last_segment(filepath))), "{{breadcrumbs}}"@, crumbs),
        "{{content}}"@,
        rendered,
    )
}

proof fn lemma_after_last_slash(s: Seq<char>, i: int)
    requires
        0 <= i <= s.len(),
    ensures
        0 <= after_last_slash(s, i) <= i,
    decreases i,
{
    if i > 0 && s[i - 1] != '/' {
        lemma_after_last_slash(s, i - 1);
    }
}

/// The page that shows a rendered file: `template` has the placeholders
/// `{{title}}`, `{{breadcrumbs}}` and `{{content}}`.
pub fn render_document(source: &ListingSource, filepath: &str, template: &str, rendered: &str) -> (r:
    String)
    ensures
        r@ == document_page(source_view(source), filepath@, template@, rendered@),
{
    proof {
        reveal_strlit("{{title}}");
        reveal_strlit("{{breadcrumbs}}");
        reveal_strlit("{{content}}");
    }
    let path = str_to_chars(filepath);
    let mut start = path.len();
    while start > 0 && path[start - 1] != '/'
        invariant
            start <= path.len(),
            after_last_slash(path@, path.len() as int) == after_last_slash(path@, start as int),
        decreases start,
    {
        start = start - 1;
    }
    let title = escape_chars(&copy_range(&path, start, path.len()));
    let crumbs = match source {
        ListingSource::Local => build_breadcrumbs(filepath),
        ListingSource::Docker(c) => build_docker_breadcrumbs(c.as_str(), filepath),
    };
    let t = str_to_chars(template);
    let p1 = str_to_chars("{{title}}");
    let p2 = str_to_chars("{{breadcrumbs}}");
    let p3 = str_to_chars("{{content}}");
    let a = replace_all_exec(&t, &p1, &title);
    let b = replace_all_exec(&a, &p2, &str_to_chars(crumbs.as_str()));
    let c = replace_all_exec(&b, &p3, &str_to_chars(rendered));
    chars_to_string(&c)
}

/// Why a container route is refused: 503 when Docker is not available,
/// 400 with the validation message when the container name is invalid.
pub fn check_container_route(docker_available: bool, container: &str) -> (r: Option<Refusal>)
    ensures
        match r {
            None => docker_available && valid_container_name(container@),
            Some(f) => if !docker_available {
                f@ == (RefusalView { status: 503, message: "Docker not available"@ })
            } else {
                !valid_container_name(container@) && f@ == (RefusalView {
                    status: 400,
                    message: "Container not found: "@ + if container@.len() == 0 {
                        Seq::<char>::empty()
                    } else {
                        "Invalid container name: "@ + container@
                    },
                })
            },
        },
{
    if !docker_available {
        return Some(
            Refusal { status: 503, message: chars_to_string(&str_to_chars("Docker not available")) },
        );
    }
    match validate_container_name(container) {
        Ok(()) => None,
        Err(e) => Some(Refusal { status: 400, message: e.message() }),
    }
}

} // verus!
