use previewf::docker::{
    docker_version, parse_container_list, path_check, running_state, workdir_from_inspect,
};
use previewf::duration::{parse_duration, PollInterval};
use previewf::edits::{
    adds_flag, check_comment, check_flag_target, find_selected_line, plan_add_flag, plan_remove_flag,
    plan_update_flag, FlagAction,
};
use previewf::error::PreviewError;
use previewf::flags::{
    extract_flags, has_free_id, inject_flag, next_flag_id, remove_flag, update_flag,
};
use previewf::html::{escape, unescape};
use previewf::json_view::{render_json_html, JsonTokenizer};
use previewf::listing::{tree_level, ListingSource, TreeNodeKind};
use previewf::markdown::finish_html;
use previewf::pages::{check_container_route, render_document, view_kind, ViewKind};
use previewf::poll::{poll_changes, TrackedFiles};
use previewf::server::{
    build_breadcrumbs, build_docker_breadcrumbs, is_json, is_markdown, not_found_message,
    parse_id_and_filepath, ServerBuilder,
};
use previewf::source::docker::{
    normalize_container_path, parse_ls_output, parse_stat_output, DockerSource,
};
use previewf::source::{listing_entries, DirEntry, EntryType};
use previewf::terminal::{prepare_flags_for_terminal, render_terminal};

// --- finishing rendered HTML ---

#[test]
fn test_render_flags_basic() {
    let result = finish_html("<flag:1>Comment: something</flag>");
    assert!(result.contains("class=\"flag\""));
    assert!(result.contains("data-flag-id=\"1\""));
    assert!(result.contains("class=\"flag-marker\""));
    assert!(result.contains("class=\"flag-comment\""));
    assert!(result.contains("something"));
}

#[test]
fn test_render_flags_escapes_html_in_comment() {
    let result = finish_html("<flag:1>Comment: <script>alert(1)</script></flag>");
    assert!(!result.contains("<script>"));
    assert!(result.contains("&lt;script&gt;"));
}

#[test]
fn test_finish_html_flag_span_exact() {
    let result = finish_html("<p>Text <flag:7>Bug:   broken  </flag> here.</p>\n");
    assert_eq!(
        result,
        "<p>Text <span class=\"flag\" data-flag-id=\"7\"><span class=\"flag-marker\">#7</span><span class=\"flag-comment\">broken</span></span> here.</p>\n"
    );
}

#[test]
fn test_finish_html_diff_block_exact() {
    let html = "<pre><code class=\"language-diff\">- old line\n+ new &lt;b&gt;\n@@ -1,3 +1,3 @@\n ctx\n</code></pre>\n";
    let result = finish_html(html);
    assert_eq!(
        result,
        "<pre class=\"diff-block\"><code><span class=\"diff-removed\">- old line</span>\n<span class=\"diff-added\">+ new &lt;b&gt;</span>\n<span class=\"diff-hunk\">@@ -1,3 +1,3 @@</span>\n<span class=\"diff-context\"> ctx</span>\n</code></pre>\n"
    );
}

#[test]
fn test_finish_html_highlights_known_language() {
    let html = "<pre><code class=\"language-rust\">fn main() {}\n</code></pre>\n";
    let result = finish_html(html);
    assert!(result.starts_with("<pre style=\""));
    assert!(!result.contains("language-rust"));
    assert!(result.contains("main"));
}

#[test]
fn test_finish_html_keeps_unknown_language() {
    let html = "<pre><code class=\"language-nosuchlanguage\">x &lt; y</code></pre>";
    assert_eq!(finish_html(html), html);
}

#[test]
fn test_finish_html_plain_text_unchanged() {
    let html = "<h1>Hello World</h1>\n<p>No flags <em>here</em>.</p>\n";
    assert_eq!(finish_html(html), html);
}

// --- terminal markers ---

#[test]
fn test_prepare_flags_basic() {
    let result = prepare_flags_for_terminal("<flag:1>Comment: check this</flag>");
    assert_eq!(result, "**[FLAG #1:** check this**]**");
}

#[test]
fn test_prepare_flags_multiple() {
    let input = "Text <flag:1>Comment: first</flag> and <flag:2>Comment: second</flag>.";
    let result = prepare_flags_for_terminal(input);
    assert_eq!(
        result,
        "Text **[FLAG #1:** first**]** and **[FLAG #2:** second**]**."
    );
}

#[test]
fn test_prepare_flags_no_flags() {
    let input = "Just plain text.";
    assert_eq!(prepare_flags_for_terminal(input), input);
}

#[test]
fn test_prepare_flags_other_labels_untouched() {
    let input = "A <flag:3>Bug: broken</flag> B";
    assert_eq!(prepare_flags_for_terminal(input), input);
}

// --- HTML escaping ---

#[test]
fn test_html_escape_roundtrip() {
    let original = "<p>Hello & \"world\" it's</p>";
    let encoded = escape(original);
    assert_eq!(
        encoded,
        "&lt;p&gt;Hello &amp; &quot;world&quot; it&#39;s&lt;/p&gt;"
    );
    assert_eq!(unescape(&encoded), original);
}

#[test]
fn test_html_escape_decode_no_double_decode() {
    assert_eq!(unescape("&amp;lt;script&amp;gt;"), "&lt;script&gt;");
}

// --- durations ---

#[test]
fn test_parse_duration_units() {
    assert_eq!(parse_duration("2s"), Ok(PollInterval::Seconds(2)));
    assert_eq!(parse_duration("500ms"), Ok(PollInterval::Millis(500)));
    assert_eq!(parse_duration(" 3 "), Ok(PollInterval::Seconds(3)));
    assert_eq!(parse_duration("+4s"), Ok(PollInterval::Seconds(4)));
}

#[test]
fn test_parse_duration_errors() {
    assert_eq!(
        parse_duration("abc"),
        Err("Invalid duration: abc. Use e.g. '2s' or '500ms'".to_string())
    );
    assert!(parse_duration("xs").is_err());
    assert!(parse_duration("ms").is_err());
    assert!(parse_duration("99999999999999999999s").is_err());
}

// --- flag ids and flag edits ---

#[test]
fn test_next_flag_id_and_free_ids() {
    assert_eq!(next_flag_id("no flags"), 1);
    assert!(has_free_id("<flag:4294967294>Comment: x</flag>"));
    assert!(!has_free_id("<flag:4294967295>Comment: x</flag>"));
}

#[test]
fn test_next_flag_id_is_fresh() {
    let content = "a <flag:7>Comment: x</flag>\nb <flag:3>Note: y</flag> <flag:0>Comment: z</flag>\n";
    let next = next_flag_id(content);
    assert_eq!(next, 8);
    assert!(extract_flags(content).iter().all(|f| f.id < next));
}

#[test]
fn test_inject_flag_errors_carry_messages() {
    match inject_flag("one\ntwo\n", 5, "x", "Comment") {
        Err(PreviewError::FlagParse { line, detail }) => {
            assert_eq!(line, 5);
            assert_eq!(detail, "Line 5 is out of range (file has 2 lines)");
        }
        _ => panic!("expected a flag error"),
    }
    match inject_flag("```\ncode\n```\n", 1, "x", "Comment") {
        Err(PreviewError::FlagParse { line, detail }) => {
            assert_eq!(line, 1);
            assert_eq!(detail, "Cannot inject flag into a code fence delimiter");
        }
        _ => panic!("expected a flag error"),
    }
}

#[test]
fn test_remove_then_extract_keeps_other_flags() {
    let content = "A <flag:1>Comment: first</flag> B <flag:2>Note: second</flag>\nC <flag:1>Comment: again</flag>\n";
    let result = remove_flag(content, 1).unwrap();
    assert_eq!(result, "A  B <flag:2>Note: second</flag>\nC \n");
    let flags = extract_flags(&result);
    assert_eq!(flags.len(), 1);
    assert_eq!(flags[0].id, 2);
    assert_eq!(flags[0].line, 1);
    assert_eq!(flags[0].label, "Note");
    assert_eq!(flags[0].comment, "second");
}

#[test]
fn test_edits_on_lines_with_other_angle_brackets() {
    let content = "x < y <flag:1>Comment: a</flag> <b>z</b> <flag:2>Note: b</flag>\n";
    let removed = remove_flag(content, 1).unwrap();
    assert_eq!(removed, "x < y  <b>z</b> <flag:2>Note: b</flag>\n");
    let flags = extract_flags(&removed);
    assert_eq!(flags.len(), 1);
    assert_eq!(flags[0].id, 2);
    assert_eq!(flags[0].context, "x < y  <b>z</b> ");
    let updated = update_flag(content, 2, "c", None).unwrap();
    assert_eq!(updated, "x < y <flag:1>Comment: a</flag> <b>z</b> <flag:2>Note: c</flag>\n");
    let flags = extract_flags(&updated);
    assert_eq!(flags.len(), 2);
    assert_eq!((flags[0].id, flags[0].comment.as_str()), (1, "a"));
    assert_eq!((flags[1].id, flags[1].comment.as_str()), (2, "c"));
    assert_eq!(flags[1].label, "Note");
}

#[test]
fn test_update_flag_with_label() {
    let content = "Line <flag:1>Comment: old</flag> here.";
    let result = update_flag(content, 1, "new <b>", Some("Bug")).unwrap();
    assert_eq!(result, "Line <flag:1>Bug: new &lt;b&gt;</flag> here.");
    assert!(!result.ends_with('\n'));
}

#[test]
fn test_inject_beside_existing_flag_then_extract() {
    let content = "intro\na <flag:1>Comment: x</flag>\nb <flag:2>Note: z</flag>\n";
    let result = inject_flag(content, 2, "  y", "Todo").unwrap();
    assert_eq!(
        result,
        "intro\na <flag:1>Comment: x</flag> <flag:3>Todo:   y</flag>\nb <flag:2>Note: z</flag>\n"
    );
    let flags = extract_flags(&result);
    assert_eq!(flags.len(), 3);
    assert_eq!((flags[0].id, flags[0].line), (1, 2));
    assert_eq!(flags[0].context, "a  ");
    assert_eq!(flags[0].comment, "x");
    assert_eq!((flags[1].id, flags[1].line), (3, 2));
    assert_eq!(flags[1].context, "a  ");
    assert_eq!(flags[1].label, "Todo");
    assert_eq!(flags[1].comment, "y");
    assert_eq!((flags[2].id, flags[2].line), (2, 3));
    assert_eq!(flags[2].context, "b ");
    assert_eq!(flags[2].label, "Note");
}

#[test]
fn test_inject_blank_comment_reads_back_last_space() {
    let result = inject_flag("a\n", 1, "", "Comment").unwrap();
    assert_eq!(result, "a <flag:1>Comment: </flag>\n");
    let flags = extract_flags(&result);
    assert_eq!(flags.len(), 1);
    assert_eq!(flags[0].comment, " ");
    assert_eq!(flags[0].context, "a ");
    let result = inject_flag("a\n", 1, " \t", "Comment").unwrap();
    let flags = extract_flags(&result);
    assert_eq!(flags.len(), 1);
    assert_eq!(flags[0].comment, "\t");
}

#[test]
fn test_unicode_digits_and_word_labels_in_tags() {
    let content = "a <flag:1>Comment: x</flag> <flag:\u{663}>Comment: y</flag>\n";
    let flags = extract_flags(content);
    assert_eq!(flags.len(), 1);
    assert_eq!(flags[0].id, 1);
    assert_eq!(flags[0].context, "a  ");
    let flags = extract_flags("b <flag:2>Pr\u{fc}fen: z</flag>");
    assert_eq!(flags.len(), 1);
    assert_eq!(flags[0].label, "Pr\u{fc}fen");
    assert_eq!(flags[0].comment, "z");
    let html = finish_html("<p>x <flag:\u{663}>Comment: y</flag></p>");
    assert!(html.contains("<span class=\"flag\" data-flag-id=\"\u{663}\">"));
    assert_eq!(
        prepare_flags_for_terminal("<flag:\u{663}>Comment: y</flag>"),
        "**[FLAG #\u{663}:** y**]**"
    );
}

#[test]
fn test_inject_keeps_missing_final_newline_on_last_line() {
    let result = inject_flag("one\ntwo", 2, "x", "Comment").unwrap();
    assert_eq!(result, "one\ntwo <flag:1>Comment: x</flag>");
}

#[test]
fn test_check_flag_target() {
    assert!(check_flag_target("notes/plan.MD", FlagAction::Add).is_none());
    let r = check_flag_target("notes.txt", FlagAction::Add).unwrap();
    assert_eq!(r.status, 400);
    assert_eq!(r.message, "Flags can only be added to markdown files");
    let r = check_flag_target("a.json", FlagAction::Remove).unwrap();
    assert_eq!(r.message, "Flags can only be removed from markdown files");
    let r = check_flag_target("a.html", FlagAction::Edit).unwrap();
    assert_eq!(r.message, "Flags can only be edited in markdown files");
}

#[test]
fn test_check_comment() {
    assert!(check_comment(" ok ").is_none());
    let r = check_comment(" \t ").unwrap();
    assert_eq!(r.status, 400);
    assert_eq!(r.message, "Comment cannot be empty");
}

#[test]
fn test_find_selected_line() {
    assert_eq!(find_selected_line("a\nb c\nd c", "c"), Some(2));
    assert_eq!(find_selected_line("a\nb\n", "z"), None);
    assert_eq!(find_selected_line("", "z"), None);
}

#[test]
fn test_plan_add_flag() {
    let r = plan_add_flag("Line one\nLine two\n", "two", "note", "Comment").unwrap();
    assert_eq!(r, "Line one\nLine two <flag:1>Comment: note</flag>\n");
    let e = plan_add_flag("Line one\n", "zzz", "note", "Comment").unwrap_err();
    assert_eq!(e.status, 400);
    assert_eq!(e.message, "Selected text not found in file");
    let e = plan_add_flag("```\ncode\n```\n", "```", "note", "Comment").unwrap_err();
    assert_eq!(e.status, 400);
    assert_eq!(
        e.message,
        "Invalid flag syntax at line 1: Cannot inject flag into a code fence delimiter"
    );
}

#[test]
fn test_plan_remove_and_update_flag() {
    let content = "x <flag:3>Comment: c</flag>\n";
    assert_eq!(plan_remove_flag(content, 3).unwrap(), "x \n");
    let e = plan_remove_flag(content, 4).unwrap_err();
    assert_eq!(e.status, 404);
    assert_eq!(e.message, "Invalid flag syntax at line 0: Flag #4 not found");
    assert_eq!(
        plan_update_flag(content, 3, "d", None).unwrap(),
        "x <flag:3>Comment: d</flag>\n"
    );
    let e = plan_update_flag(content, 9, "d", Some("Bug")).unwrap_err();
    assert_eq!(e.status, 404);
}

#[test]
fn test_error_messages() {
    assert_eq!(
        PreviewError::DockerExec("boom".to_string()).message(),
        "Docker command failed: boom"
    );
    assert_eq!(
        PreviewError::FlagParse { line: 12, detail: "bad".to_string() }.message(),
        "Invalid flag syntax at line 12: bad"
    );
    assert_eq!(
        PreviewError::ContainerPathNotFound {
            container: "app".to_string(),
            path: "/x".to_string()
        }
        .message(),
        "Path not found in container app:/x"
    );
    assert_eq!(
        PreviewError::FileNotFound(std::path::PathBuf::from("a/b.md")).message(),
        "File not found: a/b.md"
    );
}

// --- polling ---

#[test]
fn test_tracked_files_and_polls() {
    let mut watched = TrackedFiles::new();
    assert!(watched.is_empty());
    watched.track("a.md".to_string(), 5);
    watched.track("a.md".to_string(), 7);
    watched.track("b.md".to_string(), 1);
    assert!(watched.tracks("a.md"));
    let files = watched.snapshot();
    assert_eq!(files, vec![("a.md".to_string(), 5), ("b.md".to_string(), 1)]);

    let stats = vec![Some(6), Some(1)];
    let outcome = poll_changes(&files, &stats);
    assert!(outcome.changed);
    assert_eq!(outcome.updates, vec![("a.md".to_string(), 6)]);
    watched.apply(&outcome.updates);
    let again = poll_changes(&watched.snapshot(), &stats);
    assert!(!again.changed);
    assert!(again.updates.is_empty());

    let failed = poll_changes(&watched.snapshot(), &vec![None, Some(1)]);
    assert!(failed.changed);
    assert!(failed.updates.is_empty());

    watched.untrack("a.md");
    watched.untrack("b.md");
    assert!(watched.is_empty());
}

// --- pages and routes ---

#[test]
fn test_view_kind() {
    assert_eq!(view_kind("docs/Plan.MD"), ViewKind::Markdown);
    assert_eq!(view_kind("data.JSON"), ViewKind::Json);
    assert_eq!(view_kind("page.html"), ViewKind::Unsupported);
}

#[test]
fn test_render_document() {
    let template = "<title>{{title}}</title>{{breadcrumbs}}<main>{{content}}</main>";
    let page = render_document(&ListingSource::Local, "docs/a&b.md", template, "<p>x</p>");
    let crumbs = build_breadcrumbs("docs/a&b.md");
    assert_eq!(
        page,
        format!("<title>a&amp;b.md</title>{}<main><p>x</p></main>", crumbs)
    );
    let docker_page = render_document(
        &ListingSource::Docker("app".to_string()),
        "a.md",
        "{{breadcrumbs}}",
        "",
    );
    assert_eq!(docker_page, build_docker_breadcrumbs("app", "a.md"));
}

#[test]
fn test_build_breadcrumbs_exact() {
    assert_eq!(
        build_breadcrumbs("docs/a.md"),
        "<nav class=\"breadcrumbs\"><a class=\"breadcrumb-link\" href=\"/\">root</a><span class=\"breadcrumb-sep\">/</span><a class=\"breadcrumb-link\" href=\"/browse/docs\">docs</a><span class=\"breadcrumb-sep\">/</span><span class=\"breadcrumb-current\">a.md</span></nav>"
    );
}

#[test]
fn test_check_container_route() {
    let r = check_container_route(false, "app").unwrap();
    assert_eq!(r.status, 503);
    assert_eq!(r.message, "Docker not available");
    let r = check_container_route(true, "bad name").unwrap();
    assert_eq!(r.status, 400);
    assert_eq!(r.message, "Container not found: Invalid container name: bad name");
    assert!(check_container_route(true, "app").is_none());
}

#[test]
fn test_parse_id_and_filepath() {
    assert_eq!(
        parse_id_and_filepath("3/docs/a.md"),
        Some((3, "docs/a.md".to_string()))
    );
    assert_eq!(parse_id_and_filepath("x/a.md"), None);
    assert_eq!(parse_id_and_filepath("3/"), None);
    assert_eq!(parse_id_and_filepath("3"), None);
    assert_eq!(parse_id_and_filepath("4294967296/a.md"), None);
}

#[test]
fn test_file_kinds_and_messages() {
    assert!(is_markdown("README.MD"));
    assert!(is_markdown("notes.markdown"));
    assert!(is_markdown("x.mkd"));
    assert!(!is_markdown("x.txt"));
    assert!(is_json("A.JSON"));
    assert_eq!(not_found_message("<x>"), "File not found: &lt;x&gt;");
}

#[test]
fn test_server_builder() {
    let config = ServerBuilder::new()
        .port(8080)
        .host("0.0.0.0")
        .live_reload(false)
        .docker(true)
        .build_with(Some(std::path::PathBuf::from("/srv")))
        .unwrap();
    assert_eq!(config.port(), 8080);
    assert_eq!(config.host(), "0.0.0.0");
    assert!(!config.live_reload());
    assert!(config.docker());
    assert!(ServerBuilder::new().build_with(None).is_err());
}

// --- JSON viewer ---

#[test]
fn test_render_json_html() {
    let html = render_json_html("{\"a\":1,\"b\":[true,null,\"x\"]}");
    assert!(html.starts_with("<pre class=\"json-viewer\"><code>{\n  "));
    assert!(html.contains("<span class=\"json-key\">&quot;a&quot;</span>"));
    assert!(html.contains("<span class=\"json-number\">1</span>"));
    assert!(html.contains("<span class=\"json-keyword\">true</span>"));
    assert!(html.contains("<span class=\"json-string\">&quot;x&quot;</span>"));
    assert!(html.ends_with("</code></pre>"));
    let broken = render_json_html("{oops");
    assert!(broken.contains("oops"));
}

#[test]
fn test_json_tokenizer_stays_done() {
    let mut t = JsonTokenizer::new("[1]");
    let mut texts = Vec::new();
    while let Some(tok) = t.next_token() {
        texts.push(tok.text);
    }
    assert_eq!(texts, vec!["[", "1", "]"]);
    assert!(t.next_token().is_none());
    assert!(t.next_token().is_none());
}

#[test]
fn test_route_tail_round_trip() {
    assert_eq!(parse_id_and_filepath("4294967295/a/b.md"), Some((4294967295, "a/b.md".to_string())));
    assert_eq!(parse_id_and_filepath("0/x"), Some((0, "x".to_string())));
}

#[test]
fn test_default_builder_path_is_current_dir() {
    match ServerBuilder::new().build_with(None) {
        Err(PreviewError::FileNotFound(p)) => assert_eq!(p, std::path::PathBuf::from(".")),
        _ => panic!("expected FileNotFound"),
    }
}

// --- container sources ---

#[test]
fn test_docker_source_paths() {
    let source = DockerSource::new("app".to_string(), "/srv//www/./".to_string()).unwrap();
    assert_eq!(source.display_root(), "app:/srv/www");
    assert_eq!(source.resolve("docs/a.md").unwrap(), "/srv/www/docs/a.md");
    assert_eq!(source.resolve("").unwrap(), "/srv/www");
    assert!(source.resolve("../etc/passwd").is_err());
    match DockerSource::new("bad;name".to_string(), "/".to_string()) {
        Err(PreviewError::ContainerNotFound(m)) => assert_eq!(m, "Invalid container name: bad;name"),
        _ => panic!("expected ContainerNotFound"),
    }
    match DockerSource::new(String::new(), "/".to_string()) {
        Err(PreviewError::ContainerNotFound(m)) => assert_eq!(m, ""),
        _ => panic!("expected ContainerNotFound"),
    }
}

#[test]
fn test_parse_ls_and_stat_output() {
    let entries = parse_ls_output("b.md*\n.hidden\nA/\nlink@\n\n");
    let names: Vec<&str> = entries.iter().map(|e| e.name.as_str()).collect();
    assert_eq!(names, vec!["A", "b.md", "link"]);
    assert!(entries[0].entry_type == EntryType::Directory);
    assert!(entries[1].entry_type == EntryType::File);
    let meta = parse_stat_output("1700000000 42 regular file\n").unwrap();
    assert_eq!(meta.mtime, 1700000000);
    assert_eq!(meta.size, 42);
    assert!(!meta.is_dir);
    assert!(parse_stat_output("12 directory").is_err());
}

#[test]
fn test_parse_container_list_fields() {
    let list = parse_container_list("abc\tweb\tnginx:1\tUp 3 minutes\n");
    assert_eq!(list.len(), 1);
    assert_eq!(list[0].id, "abc");
    assert_eq!(list[0].status, "Up 3 minutes");
}

// --- file tree ---

#[test]
fn test_tree_level() {
    let entries = vec![
        DirEntry { name: "zeta".to_string(), entry_type: EntryType::Directory },
        DirEntry { name: "b.md".to_string(), entry_type: EntryType::File },
        DirEntry { name: "Alpha".to_string(), entry_type: EntryType::Directory },
        DirEntry { name: "a.json".to_string(), entry_type: EntryType::File },
        DirEntry { name: "x.txt".to_string(), entry_type: EntryType::File },
        DirEntry { name: "p.htm".to_string(), entry_type: EntryType::File },
    ];
    let level = tree_level("docs", 0, &entries);
    let names: Vec<&str> = level.iter().map(|n| n.name.as_str()).collect();
    assert_eq!(names, vec!["Alpha", "zeta", "a.json", "b.md", "p.htm"]);
    assert!(level[0].kind == TreeNodeKind::Dir);
    assert_eq!(level[0].path, "docs/Alpha");
    assert!(level[3].kind == TreeNodeKind::Md);
    assert!(tree_level("docs", 10, &entries).is_empty());
}

// --- more flag edits ---

#[test]
fn test_update_then_extract_rewrites_only_that_flag() {
    let content = "A <flag:1>Comment: x</flag> B <flag:2>Note: y</flag>\n";
    let result = update_flag(content, 1, "  new", Some("Bug")).unwrap();
    assert_eq!(result, "A <flag:1>Bug:   new</flag> B <flag:2>Note: y</flag>\n");
    let flags = extract_flags(&result);
    assert_eq!(flags.len(), 2);
    assert_eq!(flags[0].id, 1);
    assert_eq!(flags[0].label, "Bug");
    assert_eq!(flags[0].comment, "new");
    assert_eq!(flags[0].context, "A  B ");
    assert_eq!(flags[1].id, 2);
    assert_eq!(flags[1].label, "Note");
    assert_eq!(flags[1].comment, "y");
}

#[test]
fn test_remove_can_leave_a_final_line_feed() {
    let result = remove_flag("a\n<flag:1>Comment: x</flag>", 1).unwrap();
    assert_eq!(result, "a\n");
}

#[test]
fn test_adds_flag() {
    assert!(adds_flag("one\ntwo\n", "two"));
    assert!(!adds_flag("one\ntwo\n", "three"));
    assert!(!adds_flag("```rust\ncode\n```\n", "```"));
}

// --- docker answers ---

#[test]
fn test_docker_answers() {
    assert_eq!(workdir_from_inspect(true, "  /app \n"), "/app");
    assert_eq!(workdir_from_inspect(true, "  \n"), "/");
    assert_eq!(workdir_from_inspect(false, "/app"), "/");
    assert!(running_state("web", true, "true\n").is_ok());
    match running_state("web", true, "false\n") {
        Err(PreviewError::ContainerNotRunning(m)) => assert_eq!(m, "web"),
        _ => panic!("expected ContainerNotRunning"),
    }
    match running_state("web", false, "") {
        Err(PreviewError::ContainerNotFound(m)) => assert_eq!(m, "web"),
        _ => panic!("expected ContainerNotFound"),
    }
    assert_eq!(docker_version(true, " 27.1.1\n").unwrap(), "27.1.1");
    match docker_version(false, "") {
        Err(e) => assert_eq!(e.message(), "Docker not available: Docker CLI not responding"),
        Ok(_) => panic!("expected an error"),
    }
    assert!(path_check("web", "/srv", true).is_ok());
    assert_eq!(
        path_check("web", "/srv", false).unwrap_err().message(),
        "Path not found in container web:/srv"
    );
}

#[test]
fn test_listing_entries_hides_and_sorts() {
    let entries = vec![
        DirEntry { name: "b.md".to_string(), entry_type: EntryType::File },
        DirEntry { name: ".git".to_string(), entry_type: EntryType::Directory },
        DirEntry { name: "A".to_string(), entry_type: EntryType::Directory },
        DirEntry { name: "a.md".to_string(), entry_type: EntryType::File },
    ];
    let shown = listing_entries(&entries);
    let names: Vec<&str> = shown.iter().map(|e| e.name.as_str()).collect();
    assert_eq!(names, vec!["A", "a.md", "b.md"]);
}

// --- laws on concrete values ---

#[test]
fn test_resolve_never_climbs_out() {
    let source = DockerSource::new("app".to_string(), "/srv".to_string()).unwrap();
    assert!(source.resolve("a/../../etc").is_err());
    assert!(source.resolve("..").is_err());
    assert_eq!(source.resolve("./docs//a.md").unwrap(), "/srv/docs/a.md");
    assert_eq!(source.resolve(".").unwrap(), "/srv/");
    let root = DockerSource::new("app".to_string(), "/".to_string()).unwrap();
    assert_eq!(root.resolve("etc/hosts").unwrap(), "/etc/hosts");
    assert_eq!(root.display_root(), "app:/");
}

#[test]
fn test_plain_html_and_text_unchanged() {
    let html = "<p>a &lt; b</p>\n<pre><code>no language</code></pre>\n";
    assert_eq!(finish_html(html), html);
    let text = "# Title\n\nsome <b>bold</b> text\n";
    assert_eq!(prepare_flags_for_terminal(text), text);
}

#[test]
fn test_json_viewer_keeps_every_character() {
    let raw = "{oops [1, \"x\"";
    let html = render_json_html(raw);
    let inner = html
        .strip_prefix("<pre class=\"json-viewer\"><code>")
        .unwrap()
        .strip_suffix("</code></pre>")
        .unwrap();
    let mut text = String::new();
    let mut in_tag = false;
    for c in inner.chars() {
        match c {
            '<' => in_tag = true,
            '>' => in_tag = false,
            _ if !in_tag => text.push(c),
            _ => {}
        }
    }
    assert_eq!(unescape(&text), raw);
}

#[test]
fn test_track_then_untrack_restores() {
    let mut watched = TrackedFiles::new();
    watched.track("a.md".to_string(), 1);
    let before = watched.snapshot();
    watched.track("b.md".to_string(), 2);
    watched.untrack("b.md");
    assert_eq!(watched.snapshot(), before);
}

#[test]
fn test_render_terminal_lines_end_with_line_feed() {
    let out = render_terminal("# Title\n\nSome text <flag:1>Comment: look</flag>\n");
    assert!(!out.is_empty());
    assert!(out.ends_with('\n'));
    assert!(out.contains("Title"));
    assert!(out.contains("FLAG #1"));
}

#[test]
fn test_normalize_container_path_twice() {
    for p in ["app//docs/.", "/", "./", "a/b/c/", "//x/./y//"] {
        let once = normalize_container_path(p).unwrap();
        assert_eq!(normalize_container_path(&once).unwrap(), once);
    }
    assert_eq!(normalize_container_path("app//docs/.").unwrap(), "/app/docs");
}

#[test]
fn test_inject_then_extract_with_bare_cr_on_last_line() {
    let content = "a\nb <flag:1>Comment: x</flag>\r";
    let result = inject_flag(content, 1, "y", "Comment").unwrap();
    assert_eq!(result, "a <flag:2>Comment: y</flag>\nb <flag:1>Comment: x</flag>\r");
    let flags = extract_flags(&result);
    assert_eq!(flags.len(), 2);
    assert_eq!((flags[0].id, flags[0].line), (2, 1));
    assert_eq!((flags[1].id, flags[1].line), (1, 2));
    assert_eq!(flags[1].context, "b \r");
    assert_eq!(extract_flags(content)[0].context, "b \r");
}

#[test]
fn test_render_terminal_keeps_each_line() {
    let out = render_terminal("one\n\ntwo\n```\ncode\n```\nthree");
    assert!(out.matches('\n').count() >= 5);
    assert!(out.ends_with('\n'));
}

#[test]
fn test_duration_unit_errors_are_parser_messages() {
    assert_eq!(parse_duration("xs").unwrap_err(), "x".parse::<u64>().unwrap_err().to_string());
    assert_eq!(parse_duration("ms").unwrap_err(), "".parse::<u64>().unwrap_err().to_string());
    assert_eq!(
        parse_duration("99999999999999999999s").unwrap_err(),
        "99999999999999999999".parse::<u64>().unwrap_err().to_string()
    );
}

#[test]
fn test_path_error_messages_show_the_path() {
    let e = PreviewError::FileNotFound(std::path::PathBuf::from("/tmp/a.md"));
    assert_eq!(e.message(), "File not found: /tmp/a.md");
    let e = PreviewError::NotMarkdown(std::path::PathBuf::from("x.txt"));
    assert_eq!(e.message(), "Not a markdown file: x.txt");
}

#[test]
fn test_json_viewer_shows_pretty_text() {
    let content = "{\"a\":[1,\"<x>\"],\"b\":null}";
    let html = render_json_html(content);
    let inner = html
        .strip_prefix("<pre class=\"json-viewer\"><code>")
        .unwrap()
        .strip_suffix("</code></pre>")
        .unwrap();
    let mut stripped = String::new();
    let mut rest = inner;
    while !rest.is_empty() {
        if let Some(r) = rest.strip_prefix("</span>") {
            rest = r;
        } else if rest.starts_with("<span class=\"json-") {
            let k = rest.find('>').unwrap();
            rest = &rest[k + 1..];
        } else {
            let c = rest.chars().next().unwrap();
            stripped.push(c);
            rest = &rest[c.len_utf8()..];
        }
    }
    assert!(!stripped.contains('<'));
    let value: serde_json::Value = serde_json::from_str(content).unwrap();
    assert_eq!(unescape(&stripped), serde_json::to_string_pretty(&value).unwrap());
}
