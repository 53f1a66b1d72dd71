//! Directory listing pages: which entries are shown, in which order, and
//! the HTML for them. Reading the directory and the markdown files is the
//! caller's; it hands over the entries and the file contents.
use vstd::prelude::*;
use crate::flags::{extract_flags, extracted, flag_views};
use crate::html::{escape_chars, escaped};
use crate::ordering::{
    is_permutation, lower_keys, lower_keys_exec, lowercase_chars, lowercased, sort_names_by,
    sorted_under, stable_sort_order, stably_sorted,
};
use crate::server::{
    breadcrumbs_html, build_breadcrumbs, build_docker_breadcrumbs, docker_breadcrumbs_html,
    is_json, is_json_name, is_markdown, is_markdown_name,
};
use crate::source::{DirEntry, DirEntryView, EntryType, entry_views};
use crate::text::{
    chars_to_string, contains_seq, copy_range, decimal, decimal_exec, ends_with, ends_with_exec,
    join_with, occurs_at,
    join_with_exec, push_all, push_str, replace_all, replace_all_exec, seq_views, str_to_chars,
};

verus! {

/// Whose files a listing shows: the local directory, or a container's.
pub enum ListingSource {
    Local,
    Docker(String),
}

/// System directories hidden at the root of a container whose base is `/`.
pub open spec fn system_dirs() -> Seq<Seq<char>> {
    seq![
        "bin"@,
        "boot"@,
        "dev"@,
        "etc"@,
        "lib"@,
        "lib32"@,
        "lib64"@,
        "libx32"@,
        "media"@,
        "mnt"@,
        "opt"@,
        "proc"@,
        "root"@,
        "run"@,
        "sbin"@,
        "srv"@,
        "sys"@,
        "tmp"@,
        "usr"@,
        "var"@,
    ]
}

fn system_dirs_exec() -> (r: Vec<Vec<char>>)
    ensures
        seq_views(r@) == system_dirs(),
{
    let names = [
        "bin",
        "boot",
        "dev",
        "etc",
        "lib",
        "lib32",
        "lib64",
        "libx32",
        "media",
        "mnt",
        "opt",
        "proc",
        "root",
        "run",
        "sbin",
        "srv",
        "sys",
        "tmp",
        "usr",
        "var",
    ];
    let mut r: Vec<Vec<char>> = Vec::new();
    let mut i: usize = 0;
    while i < 20
        invariant
            i <= 20,
            r.len() == i,
            forall|k: int| 0 <= k < i ==> #[trigger] r@[k]@ == names@[k]@,
        decreases 20 - i,
    {
        r.push(str_to_chars(names[i]));
        i = i + 1;
    }
    assert(seq_views(r@) =~= system_dirs());
    r
}

/// Whether `v` holds a sequence equal to `x`.
fn contains_name(v: &Vec<Vec<char>>, x: &Vec<char>) -> (r: bool)
    ensures
        r == seq_views(v@).contains(x@),
{
    let mut i: usize = 0;
    while i < v.len()
        invariant
            i <= v.len(),
            forall|k: int| 0 <= k < i ==> #[trigger] v@[k]@ != x@,
        decreases v.len() - i,
    {
        if v[i].len() == x.len() && crate::text::occurs_at_exec(&v[i], 0, x) {
            assert(v@[i as int]@ =~= x@);
            assert(seq_views(v@)[i as int] == x@);
            return true;
        }
        proof {
            if v@[i as int]@ == x@ {
                assert(x@.subrange(0, x@.len() as int) =~= x@);
            }
        }
        i = i + 1;
    }
    false
}

/// Whether a file name marks an HTML page (`.html` or `.htm`, as written).
pub open spec fn is_html_name(name: Seq<char>) -> bool {
    ends_with(name, ".html"@) || ends_with(name, ".htm"@)
}

/// The entries of a listing, grouped and in listing order before sorting:
/// directories (system directories left out when `hide_system`), markdown
/// files with their flag counts, JSON files and HTML pages. The `k`-th
/// markdown file's content is `contents[k]`.
#[verifier::ext_equal]
pub struct Groups {
    pub dirs: Seq<Seq<char>>,
    pub md: Seq<(Seq<char>, nat)>,
    pub json: Seq<Seq<char>>,
    pub html: Seq<Seq<char>>,
}

/// Groups entries for a listing.
pub open spec fn grouped(
    entries: Seq<DirEntryView>,
    contents: Seq<Seq<char>>,
    hide_system: bool,
) -> Groups
    decreases entries.len(),
{
    if entries.len() == 0 {
        Groups { dirs: seq![], md: seq![], json: seq![], html: seq![] }
    } else {
        let g = grouped(entries.drop_last(), contents, hide_system);
        let e = entries.last();
        match e.entry_type {
            EntryType::Directory => if hide_system && system_dirs().contains(e.name) {
                g
            } else {
                Groups { dirs: g.dirs.push(e.name), ..g }
            },
            EntryType::File => if is_markdown_name(e.name) {
                Groups {
                    md: g.md.push((e.name, extracted(contents[g.md.len() as int]).len())),
                    ..g
                }
            } else if is_json_name(e.name) {
                Groups { json: g.json.push(e.name), ..g }
            } else if is_html_name(e.name) {
                Groups { html: g.html.push(e.name), ..g }
            } else {
                g
            },
        }
    }
}

/// The subdirectory path with trailing slashes cut (`trim_end_matches('/')`).
pub open spec fn trim_trailing_slashes(s: Seq<char>) -> Seq<char> {
    s.subrange(0, crate::source::docker::char_trim_end(s, '/', s.len() as int))
}

/// What link paths of a listing start with: empty at the root, otherwise
/// the subdirectory and a slash.
pub open spec fn link_prefix(subpath: Seq<char>) -> Seq<char> {
    if subpath.len() == 0 {
        seq![]
    } else {
        trim_trailing_slashes(subpath) + seq!['/']
    }
}

/// The paths, relative to the source, of the markdown files among the
/// entries, in order: the files whose flags a listing counts.
pub open spec fn markdown_paths(subpath: Seq<char>, entries: Seq<DirEntryView>) -> Seq<Seq<char>>
    decreases entries.len(),
{
    if entries.len() == 0 {
        seq![]
    } else {
        let r = markdown_paths(subpath, entries.drop_last());
        let e = entries.last();
        if e.entry_type == EntryType::File && is_markdown_name(e.name) {
            r.push(link_prefix(subpath) + e.name)
        } else {
            r
        }
    }
}

/// How many of the entries are markdown files.
pub open spec fn markdown_count(entries: Seq<DirEntryView>) -> nat
    decreases entries.len(),
{
    if entries.len() == 0 {
        0
    } else {
        let e = entries.last();
        markdown_count(entries.drop_last()) + if e.entry_type == EntryType::File
            && is_markdown_name(e.name) {
            1nat
        } else {
            0nat
        }
    }
}

proof fn lemma_markdown_paths_len(subpath: Seq<char>, es: Seq<DirEntryView>)
    ensures
        markdown_paths(subpath, es).len() == markdown_count(es),
    decreases es.len(),
{
    if es.len() > 0 {
        lemma_markdown_paths_len(subpath, es.drop_last());
    }
}

fn trim_trailing_slashes_exec(s: &Vec<char>) -> (r: Vec<char>)
    ensures
        r@ == trim_trailing_slashes(s@),
{
    let mut b: usize = s.len();
    while b > 0 && s[b - 1] == '/'
        invariant
            b <= s.len(),
            crate::source::docker::char_trim_end(s@, '/', s.len() as int)
                == crate::source::docker::char_trim_end(s@, '/', b as int),
        decreases b,
    {
        b = b - 1;
    }
    copy_range(s, 0, b)
}

fn link_prefix_exec(subpath: &Vec<char>) -> (r: Vec<char>)
    ensures
        r@ == link_prefix(subpath@),
{
    if subpath.len() == 0 {
        Vec::new()
    } else {
        let mut p = trim_trailing_slashes_exec(subpath);
        p.push('/');
        p
    }
}

/// The paths of the markdown files among the entries, whose contents a
/// listing needs for its flag counts.
pub fn listing_markdown_paths(subpath: &str, entries: &Vec<DirEntry>) -> (r: Vec<String>)
    ensures
        r@.map_values(|s: String| s@) == markdown_paths(subpath@, entry_views(entries@)),
        r.len() == markdown_count(entry_views(entries@)),
{
    proof {
        lemma_markdown_paths_len(subpath@, entry_views(entries@));
    }
    let sub = str_to_chars(subpath);
    let prefix = link_prefix_exec(&sub);
    let ghost es = entry_views(entries@);
    let mut r: Vec<String> = Vec::new();
    let mut k: usize = 0;
    assert(es.take(0) =~= Seq::<DirEntryView>::empty());
    while k < entries.len()
        invariant
            es == entry_views(entries@),
            prefix@ == link_prefix(subpath@),
            k <= entries.len(),
            r@.map_values(|s: String| s@) == markdown_paths(subpath@, es.take(k as int)),
        decreases entries.len() - k,
    {
        assert(es.take(k + 1).drop_last() =~= es.take(k as int));
        assert(es.take(k + 1).last() == entries@[k as int]@);
        let e = &entries[k];
        if e.entry_type == EntryType::File && is_markdown(e.name.as_str()) {
            let mut path = copy_range(&prefix, 0, prefix.len());
            push_str(&mut path, e.name.as_str());
            assert(path@ =~= prefix@ + e.name@);
            let ghost before = r@.map_values(|s: String| s@);
            let p = chars_to_string(&path);
            r.push(p);
            assert(r@.map_values(|s: String| s@) =~= before.push(path@));
        }
        k = k + 1;
    }
    assert(es.take(entries.len() as int) =~= es);
    r
}

/// The flag badge of a markdown entry.
pub open spec fn flag_badge(n: nat) -> Seq<char> {
    if n > 0 {
        "<span class=\"file-entry-badge has-flags\">"@ + decimal(n) + " flag"@ + (if n == 1 {
            ""@
        } else {
            "s"@
        }) + "</span>"@
    } else {
        "<span class=\"file-entry-badge\">&mdash;</span>"@
    }
}

/// The listing line of a directory.
pub open spec fn dir_line(href: Seq<char>, path: Seq<char>, name: Seq<char>) -> Seq<char> {
    "<a class=\"file-entry file-entry-dir\" href=\""@ + href + escaped(path)
        + "\"><span class=\"file-entry-name-group\"><span class=\"file-entry-icon dir-icon\">&#128193;</span><span class=\"file-entry-name\">"@
        + escaped(name)
        + "/</span></span><span class=\"file-entry-badge dir-badge\">folder</span></a>"@
}

/// The listing line of a markdown file.
pub open spec fn md_line(href: Seq<char>, path: Seq<char>, name: Seq<char>, n: nat) -> Seq<char> {
    "<a class=\"file-entry\" href=\""@ + href + escaped(path)
        + "\"><span class=\"file-entry-name-group\"><span class=\"file-entry-icon md-icon\">&#9670;</span><span class=\"file-entry-name\">"@
        + escaped(name) + "</span></span>"@ + flag_badge(n) + "</a>"@
}

/// The listing line of a JSON file.
pub open spec fn json_line(href: Seq<char>, path: Seq<char>, name: Seq<char>) -> Seq<char> {
    "<a class=\"file-entry\" href=\""@ + href + escaped(path)
        + "\"><span class=\"file-entry-name-group\"><span class=\"file-entry-icon json-icon\">&#123;&#125;</span><span class=\"file-entry-name\">"@
        + escaped(name)
        + "</span></span><span class=\"file-entry-badge json-badge\">json</span></a>"@
}

/// The listing line of an HTML page.
pub open spec fn html_line(href: Seq<char>, path: Seq<char>, name: Seq<char>) -> Seq<char> {
    "<a class=\"file-entry\" href=\""@ + href + escaped(path)
        + "\"><span class=\"file-entry-name-group\"><span class=\"file-entry-icon html-icon\">&#9671;</span><span class=\"file-entry-name\">"@
        + escaped(name)
        + "</span></span><span class=\"file-entry-badge html-badge\">html</span></a>"@
}

/// Where the links of a listing point: directories, markdown files, JSON
/// files, HTML pages.
pub open spec fn hrefs(container: Option<Seq<char>>) -> (Seq<char>, Seq<char>, Seq<char>, Seq<
    char,
>) {
    match container {
        None => ("/browse/"@, "/view/"@, "/view/"@, "/raw/"@),
        Some(c) => {
            let base = "/docker/"@ + escaped(c);
            (base + "/browse/"@, base + "/view/"@, base + "/view/"@, base + "/view/"@)
        },
    }
}

/// The listing lines, directories first, then markdown, JSON and HTML.
pub open spec fn listing_lines(container: Option<Seq<char>>, prefix: Seq<char>, g: Groups) -> Seq<
    Seq<char>,
> {
    let h = hrefs(container);
    g.dirs.map_values(|n: Seq<char>| dir_line(h.0, prefix + n, n)) + g.md.map_values(
        |m: (Seq<char>, nat)| md_line(h.1, prefix + m.0, m.0, m.1),
    ) + g.json.map_values(|n: Seq<char>| json_line(h.2, prefix + n, n)) + g.html.map_values(
        |n: Seq<char>| html_line(h.3, prefix + n, n),
    )
}

/// The listing line of the `k`-th markdown file shows its flag count: a
/// file with `n >= 1` flags has a badge marked `has-flags` reading the
/// decimal of `n` and " flag"; a file without flags has the dash badge.
/// (Each markdown entry's count is how many flags extraction finds in its
/// content; see [`grouped`] and [`law_grouped_md_counts`].)
pub proof fn law_md_line_shows_flag_count(
    container: Option<Seq<char>>,
    prefix: Seq<char>,
    g: Groups,
    k: int,
)
    requires
        0 <= k < g.md.len(),
    ensures
        ({
            let line = listing_lines(container, prefix, g)[g.dirs.len() + k];
            let n = g.md[k].1;
            &&& n == 1 ==> contains_seq(
                line,
                "<span class=\"file-entry-badge has-flags\">1 flag</span>"@,
            )
            &&& n >= 2 ==> contains_seq(
                line,
                "<span class=\"file-entry-badge has-flags\">"@ + decimal(n) + " flags</span>"@,
            )
            &&& n == 0 ==> contains_seq(line, "<span class=\"file-entry-badge\">&mdash;</span>"@)
        }),
{
    let h = hrefs(container);
    let m = g.md[k];
    let n = m.1;
    let lines = listing_lines(container, prefix, g);
    let d = g.dirs.map_values(|x: Seq<char>| dir_line(h.0, prefix + x, x));
    let md = g.md.map_values(|x: (Seq<char>, nat)| md_line(h.1, prefix + x.0, x.0, x.1));
    assert(lines[g.dirs.len() + k] == md[k]);
    let line = md_line(h.1, prefix + m.0, m.0, n);
    assert(md[k] == line);
    let a = "<a class=\"file-entry\" href=\""@ + h.1 + escaped(prefix + m.0)
        + "\"><span class=\"file-entry-name-group\"><span class=\"file-entry-icon md-icon\">&#9670;</span><span class=\"file-entry-name\">"@
        + escaped(m.0) + "</span></span>"@;
    assert(line == a + flag_badge(n) + "</a>"@);
    let i = a.len() as int;
    if n == 1 {
        let pat = "<span class=\"file-entry-badge has-flags\">1 flag</span>"@;
        reveal_strlit("<span class=\"file-entry-badge has-flags\">1 flag</span>");
        reveal_strlit("<span class=\"file-entry-badge has-flags\">");
        reveal_strlit(" flag");
        reveal_strlit("</span>");
        reveal_strlit("");
        assert(decimal(1) =~= seq!['1']) by {
            crate::text::lemma_decimal_digits(1);
            reveal_with_fuel(decimal, 2);
        }
        let b = flag_badge(n);
        assert(b =~= pat);
        assert(line.subrange(i, i + pat.len()) =~= pat);
        assert(occurs_at(line, i, pat));
    } else if n >= 2 {
        let pat = "<span class=\"file-entry-badge has-flags\">"@ + decimal(n) + " flags</span>"@;
        reveal_strlit(" flags</span>");
        reveal_strlit(" flag");
        reveal_strlit("s");
        reveal_strlit("</span>");
        let b = flag_badge(n);
        assert(b =~= pat);
        assert(line.subrange(i, i + pat.len()) =~= pat);
        assert(occurs_at(line, i, pat));
    } else {
        let pat = "<span class=\"file-entry-badge\">&mdash;</span>"@;
        assert(line.subrange(i, i + pat.len()) =~= pat);
        assert(occurs_at(line, i, pat));
    }
}

/// Each markdown entry of a listing carries the number of flags that
/// extraction finds in its content: the `k`-th markdown file (in entry
/// order) is counted on `contents[k]`.
pub proof fn law_grouped_md_counts(entries: Seq<DirEntryView>, contents: Seq<Seq<char>>, hide_system: bool)
    ensures
        forall|k: int|
            0 <= k < grouped(entries, contents, hide_system).md.len() ==> (#[trigger] grouped(
                entries,
                contents,
                hide_system,
            ).md[k]).1 == extracted(contents[k]).len(),
    decreases entries.len(),
{
    if entries.len() > 0 {
        law_grouped_md_counts(entries.drop_last(), contents, hide_system);
        let g = grouped(entries.drop_last(), contents, hide_system);
        let g2 = grouped(entries, contents, hide_system);
        assert forall|k: int| 0 <= k < g2.md.len() implies (#[trigger] g2.md[k]).1 == extracted(
            contents[k],
        ).len() by {
            if k < g.md.len() {
                assert(g2.md[k] == g.md[k]);
            }
        }
    }
}

/// `"s"` unless there is exactly one.
pub open spec fn plural(n: nat) -> Seq<char> {
    if n == 1 {
        ""@
    } else {
        "s"@
    }
}

/// The summary line of a listing: how many of each kind it shows.
pub open spec fn listing_summary(g: Groups) -> Seq<char> {
    decimal(g.dirs.len()) + " folder"@ + plural(g.dirs.len()) + " &middot; "@ + decimal(
        g.md.len(),
    ) + " markdown &middot; "@ + decimal(g.json.len()) + " json &middot; "@ + decimal(
        g.html.len(),
    ) + " html"@
}

/// The page: the template with its four placeholders filled in.
pub open spec fn fill_template(
    template: Seq<char>,
    directory: Seq<char>,
    breadcrumbs: Seq<char>,
    entries: Seq<char>,
    summary: Seq<char>,
) -> Seq<char> {
    replace_all(
        replace_all(
            replace_all(replace_all(template, "{{directory}}"@, escaped(directory)), "{{breadcrumbs}}"@, breadcrumbs),
            "{{file_entries}}"@,
            entries,
        ),
        "{{summary}}"@,
        summary,
    )
}

/// The groups sorted for display: directories, markdown and JSON files
/// stably by lowercase name, HTML pages by name.
pub open spec fn sorted_groups(g: Groups, s: Groups) -> bool {
    &&& sorted_under(g.dirs, lower_keys(g.dirs), s.dirs)
    &&& sorted_under(g.md, lower_keys(g.md.map_values(|m: (Seq<char>, nat)| m.0)), s.md)
    &&& sorted_under(g.json, lower_keys(g.json), s.json)
    &&& sorted_under(g.html, g.html, s.html)
}

/// The listing page for a directory: `subpath` relative to the source root
/// (empty for the root), `display_root` the source's description, the
/// directory's entries, the contents of its markdown files (in the order of
/// `listing_markdown_paths`), and the page template.
pub open spec fn listing_page(
    container: Option<Seq<char>>,
    subpath: Seq<char>,
    display_root: Seq<char>,
    s: Groups,
    template: Seq<char>,
) -> Seq<char> {
    let crumbs = match container {
        None => breadcrumbs_html(subpath),
        Some(c) => docker_breadcrumbs_html(c, subpath),
    };
    let directory = if subpath.len() == 0 {
        display_root
    } else {
        display_root + seq!['/'] + subpath
    };
    fill_template(
        template,
        directory,
        crumbs,
        join_with(listing_lines(container, link_prefix(subpath), s), seq!['\n']),
        listing_summary(s),
    )
}

/// Whether system directories are hidden: at the root of a container
/// listing whose source is rooted at `/`.
pub open spec fn hides_system(container: Option<Seq<char>>, subpath: Seq<char>, display_root: Seq<
    char,
>) -> bool {
    container is Some && subpath.len() == 0 && ends_with(display_root, ":/"@)
}

/// The view of a listing source.
pub open spec fn source_view(src: &ListingSource) -> Option<Seq<char>> {
    match src {
        ListingSource::Local => None,
        ListingSource::Docker(c) => Some(c@),
    }
}

struct GroupsExec {
    dirs: Vec<Vec<char>>,
    md_names: Vec<Vec<char>>,
    md_counts: Vec<usize>,
    json: Vec<Vec<char>>,
    html: Vec<Vec<char>>,
}

spec fn groups_of(g: &GroupsExec) -> Groups {
    Groups {
        dirs: seq_views(g.dirs@),
        md: Seq::new(g.md_names.len() as nat, |i: int| (g.md_names@[i]@, g.md_counts@[i] as nat)),
        json: seq_views(g.json@),
        html: seq_views(g.html@),
    }
}

fn group_entries(entries: &Vec<DirEntry>, contents: &Vec<String>, hide_system: bool) -> (r:
    GroupsExec)
    requires
        contents.len() == markdown_count(entry_views(entries@)),
    ensures
        r.md_names.len() == r.md_counts.len(),
        groups_of(&r) == grouped(
            entry_views(entries@),
            contents@.map_values(|s: String| s@),
            hide_system,
        ),
{
    let ghost es = entry_views(entries@);
    let ghost cs = contents@.map_values(|s: String| s@);
    let system = system_dirs_exec();
    let mut g = GroupsExec {
        dirs: Vec::new(),
        md_names: Vec::new(),
        md_counts: Vec::new(),
        json: Vec::new(),
        html: Vec::new(),
    };
    let mut k: usize = 0;
    assert(es.take(0) =~= Seq::<DirEntryView>::empty());
    assert(groups_of(&g) =~= grouped(es.take(0), cs, hide_system));
    while k < entries.len()
        invariant
            es == entry_views(entries@),
            cs == contents@.map_values(|s: String| s@),
            seq_views(system@) == system_dirs(),
            contents.len() == markdown_count(es),
            k <= entries.len(),
            g.md_names.len() == g.md_counts.len(),
            groups_of(&g) == grouped(es.take(k as int), cs, hide_system),
        decreases entries.len() - k,
    {
        assert(es.take(k + 1).drop_last() =~= es.take(k as int));
        assert(es.take(k + 1).last() == entries@[k as int]@);
        proof {
            lemma_md_count(es, cs, hide_system, k as int);
            lemma_md_count_prefix(es, k as int);
        }
        let e = &entries[k];
        let name = str_to_chars(e.name.as_str());
        let ghost before = groups_of(&g);
        match e.entry_type {
            EntryType::Directory => {
                if !(hide_system && contains_name(&system, &name)) {
                    g.dirs.push(name);
                    assert(groups_of(&g) =~= Groups { dirs: before.dirs.push(e.name@), ..before });
                } else {
                    assert(groups_of(&g) =~= before);
                }
            },
            EntryType::File => {
                if is_markdown(e.name.as_str()) {
                    let idx = g.md_names.len();
                    let flags = extract_flags(contents[idx].as_str());
                    assert(cs[idx as int] == contents@[idx as int]@);
                    assert(flag_views(flags@).len() == flags.len());
                    g.md_names.push(name);
                    g.md_counts.push(flags.len());
                    assert(groups_of(&g) =~= Groups {
                        md: before.md.push((e.name@, extracted(cs[before.md.len() as int]).len())),
                        ..before
                    });
                } else if is_json(e.name.as_str()) {
                    g.json.push(name);
                    assert(groups_of(&g) =~= Groups { json: before.json.push(e.name@), ..before });
                } else {
                    let mut html_ext: Vec<char> = Vec::new();
                    push_str(&mut html_ext, ".html");
                    let mut htm_ext: Vec<char> = Vec::new();
                    push_str(&mut htm_ext, ".htm");
                    if ends_with_exec(&name, &html_ext) || ends_with_exec(&name, &htm_ext) {
                        g.html.push(name);
                        assert(groups_of(&g) =~= Groups {
                            html: before.html.push(e.name@),
                            ..before
                        });
                    } else {
                        assert(groups_of(&g) =~= before);
                    }
                }
            },
        }
        k = k + 1;
    }
    assert(es.take(entries.len() as int) =~= es);
    g
}

proof fn lemma_md_count_prefix(es: Seq<DirEntryView>, k: int)
    requires
        0 <= k < es.len(),
    ensures
        markdown_count(es.take(k)) + (if es[k].entry_type == EntryType::File && is_markdown_name(
            es[k].name,
        ) {
            1nat
        } else {
            0nat
        }) <= markdown_count(es),
    decreases es.len() - k,
{
    assert(es.take(k + 1).drop_last() =~= es.take(k));
    assert(es.take(k + 1).last() == es[k]);
    if k + 1 < es.len() {
        lemma_md_count_prefix(es, k + 1);
        assert(es.take(k + 2).drop_last() =~= es.take(k + 1));
    } else {
        assert(es.take(k + 1) =~= es);
    }
}

proof fn lemma_md_count(es: Seq<DirEntryView>, cs: Seq<Seq<char>>, hide: bool, k: int)
    requires
        0 <= k <= es.len(),
    ensures
        grouped(es.take(k), cs, hide).md.len() == markdown_count(es.take(k)),
    decreases k,
{
    if k > 0 {
        lemma_md_count(es, cs, hide, k - 1);
        assert(es.take(k).drop_last() =~= es.take(k - 1));
    } else {
        assert(es.take(0) =~= Seq::<DirEntryView>::empty());
    }
}

fn sort_md(names: &Vec<Vec<char>>, counts: &Vec<usize>) -> (r: (Vec<Vec<char>>, Vec<usize>))
    requires
        names.len() == counts.len(),
    ensures
        r.0.len() == r.1.len(),
        sorted_under(
            Seq::new(names.len() as nat, |i: int| (names@[i]@, counts@[i] as nat)),
            lower_keys(seq_views(names@)),
            Seq::new(r.0.len() as nat, |i: int| (r.0@[i]@, r.1@[i] as nat)),
        ),
{
    let ghost input = Seq::new(names.len() as nat, |i: int| (names@[i]@, counts@[i] as nat));
    let keys = lower_keys_exec(names);
    assert(seq_views(keys@).len() == keys.len());
    assert(lower_keys(seq_views(names@)).len() == names.len());
    let order = stable_sort_order(&keys);
    let mut rn: Vec<Vec<char>> = Vec::new();
    let mut rc: Vec<usize> = Vec::new();
    let mut j: usize = 0;
    while j < order.len()
        invariant
            names.len() == counts.len(),
            is_permutation(order@, names.len() as nat),
            j <= order.len(),
            rn.len() == j,
            rc.len() == j,
            forall|k: int|
                0 <= k < j ==> (#[trigger] rn@[k])@ == names@[order@[k] as int]@ && rc@[k]
                    == counts@[order@[k] as int],
        decreases order.len() - j,
    {
        let n = &names[order[j]];
        let copy = copy_range(n, 0, n.len());
        assert(copy@ =~= n@);
        rn.push(copy);
        rc.push(counts[order[j]]);
        j = j + 1;
    }
    let ghost out = Seq::new(rn.len() as nat, |i: int| (rn@[i]@, rc@[i] as nat));
    assert(out =~= order@.map_values(|i: usize| input[i as int]));
    assert(seq_views(keys@) == lower_keys(seq_views(names@)));
    (rn, rc)
}

fn push_line_start(out: &mut Vec<char>, href: &Vec<char>, path: &Vec<char>)
    ensures
        final(out)@ == old(out)@ + href@ + escaped(path@),
{
    push_all(out, href);
    let e = escape_chars(path);
    push_all(out, &e);
}

fn push_badge(out: &mut Vec<char>, n: usize)
    ensures
        final(out)@ == old(out)@ + flag_badge(n as nat),
{
    if n > 0 {
        push_str(out, "<span class=\"file-entry-badge has-flags\">");
        let d = decimal_exec(n as u64);
        push_all(out, &d);
        push_str(out, " flag");
        if n == 1 {
            push_str(out, "");
        } else {
            push_str(out, "s");
        }
        push_str(out, "</span>");
    } else {
        push_str(out, "<span class=\"file-entry-badge\">&mdash;</span>");
    }
    assert(final(out)@ =~= old(out)@ + flag_badge(n as nat));
}

/// Which of the four kinds of listing line to write.
enum LineKind {
    Dir,
    Md(usize),
    Json,
    Html,
}

fn make_line(kind: &LineKind, href: &Vec<char>, prefix: &Vec<char>, name: &Vec<char>) -> (r: Vec<
    char,
>)
    ensures
        r@ == match kind {
            LineKind::Dir => dir_line(href@, prefix@ + name@, name@),
            LineKind::Md(n) => md_line(href@, prefix@ + name@, name@, *n as nat),
            LineKind::Json => json_line(href@, prefix@ + name@, name@),
            LineKind::Html => html_line(href@, prefix@ + name@, name@),
        },
{
    let mut path = copy_range(prefix, 0, prefix.len());
    push_all(&mut path, name);
    assert(path@ =~= prefix@ + name@);
    let safe = escape_chars(name);
    let mut out: Vec<char> = Vec::new();
    match kind {
        LineKind::Dir => {
            push_str(&mut out, "<a class=\"file-entry file-entry-dir\" href=\"");
            push_line_start(&mut out, href, &path);
            push_str(&mut out, "\"><span class=\"file-entry-name-group\"><span class=\"file-entry-icon dir-icon\">&#128193;</span><span class=\"file-entry-name\">");
            push_all(&mut out, &safe);
            push_str(&mut out, "/</span></span><span class=\"file-entry-badge dir-badge\">folder</span></a>");
        },
        LineKind::Md(n) => {
            push_str(&mut out, "<a class=\"file-entry\" href=\"");
            push_line_start(&mut out, href, &path);
            push_str(&mut out, "\"><span class=\"file-entry-name-group\"><span class=\"file-entry-icon md-icon\">&#9670;</span><span class=\"file-entry-name\">");
            push_all(&mut out, &safe);
            push_str(&mut out, "</span></span>");
            push_badge(&mut out, *n);
            push_str(&mut out, "</a>");
        },
        LineKind::Json => {
            push_str(&mut out, "<a class=\"file-entry\" href=\"");
            push_line_start(&mut out, href, &path);
            push_str(&mut out, "\"><span class=\"file-entry-name-group\"><span class=\"file-entry-icon json-icon\">&#123;&#125;</span><span class=\"file-entry-name\">");
            push_all(&mut out, &safe);
            push_str(&mut out, "</span></span><span class=\"file-entry-badge json-badge\">json</span></a>");
        },
        LineKind::Html => {
            push_str(&mut out, "<a class=\"file-entry\" href=\"");
            push_line_start(&mut out, href, &path);
            push_str(&mut out, "\"><span class=\"file-entry-name-group\"><span class=\"file-entry-icon html-icon\">&#9671;</span><span class=\"file-entry-name\">");
            push_all(&mut out, &safe);
            push_str(&mut out, "</span></span><span class=\"file-entry-badge html-badge\">html</span></a>");
        },
    }
    assert(out@ =~= match kind {
        LineKind::Dir => dir_line(href@, prefix@ + name@, name@),
        LineKind::Md(n) => md_line(href@, prefix@ + name@, name@, *n as nat),
        LineKind::Json => json_line(href@, prefix@ + name@, name@),
        LineKind::Html => html_line(href@, prefix@ + name@, name@),
    });
    out
}

/// The line for an entry of a kind other than markdown.
spec fn plain_line(kind: LineKind, href: Seq<char>, path: Seq<char>, name: Seq<char>) -> Seq<char> {
    match kind {
        LineKind::Dir => dir_line(href, path, name),
        LineKind::Json => json_line(href, path, name),
        _ => html_line(href, path, name),
    }
}

/// Appends the lines of a group of directories, JSON files or HTML pages.
fn push_plain_lines(
    lines: &mut Vec<Vec<char>>,
    names: &Vec<Vec<char>>,
    kind: LineKind,
    href: &Vec<char>,
    prefix: &Vec<char>,
)
    requires
        !(kind is Md),
    ensures
        seq_views(final(lines)@) == seq_views(old(lines)@) + seq_views(names@).map_values(
            |n: Seq<char>| plain_line(kind, href@, prefix@ + n, n),
        ),
{
    let ghost start = seq_views(lines@);
    let ghost want = seq_views(names@).map_values(
        |n: Seq<char>| plain_line(kind, href@, prefix@ + n, n),
    );
    let mut i: usize = 0;
    while i < names.len()
        invariant
            !(kind is Md),
            want == seq_views(names@).map_values(
                |n: Seq<char>| plain_line(kind, href@, prefix@ + n, n),
            ),
            i <= names.len(),
            seq_views(lines@) == start + want.take(i as int),
        decreases names.len() - i,
    {
        let line = make_line(&kind, href, prefix, &names[i]);
        let ghost before = seq_views(lines@);
        lines.push(line);
        assert(seq_views(lines@) =~= before.push(line@));
        assert(want.take(i + 1) =~= want.take(i as int).push(want[i as int]));
        i = i + 1;
    }
    assert(want.take(names.len() as int) =~= want);
}

/// Appends the lines of the markdown group.
fn push_md_lines(
    lines: &mut Vec<Vec<char>>,
    names: &Vec<Vec<char>>,
    counts: &Vec<usize>,
    href: &Vec<char>,
    prefix: &Vec<char>,
)
    requires
        names.len() == counts.len(),
    ensures
        seq_views(final(lines)@) == seq_views(old(lines)@) + Seq::new(
            names.len() as nat,
            |i: int| (names@[i]@, counts@[i] as nat),
        ).map_values(|m: (Seq<char>, nat)| md_line(href@, prefix@ + m.0, m.0, m.1)),
{
    let ghost start = seq_views(lines@);
    let ghost want = Seq::new(
        names.len() as nat,
        |i: int| (names@[i]@, counts@[i] as nat),
    ).map_values(|m: (Seq<char>, nat)| md_line(href@, prefix@ + m.0, m.0, m.1));
    let mut i: usize = 0;
    while i < names.len()
        invariant
            names.len() == counts.len(),
            want == Seq::new(
                names.len() as nat,
                |i: int| (names@[i]@, counts@[i] as nat),
            ).map_values(|m: (Seq<char>, nat)| md_line(href@, prefix@ + m.0, m.0, m.1)),
            i <= names.len(),
            seq_views(lines@) == start + want.take(i as int),
        decreases names.len() - i,
    {
        let line = make_line(&LineKind::Md(counts[i]), href, prefix, &names[i]);
        let ghost before = seq_views(lines@);
        lines.push(line);
        assert(seq_views(lines@) =~= before.push(line@));
        assert(want.take(i + 1) =~= want.take(i as int).push(want[i as int]));
        i = i + 1;
    }
    assert(want.take(names.len() as int) =~= want);
}

fn plural_exec(out: &mut Vec<char>, n: usize)
    ensures
        final(out)@ == old(out)@ + plural(n as nat),
{
    if n == 1 {
        push_str(out, "");
    } else {
        push_str(out, "s");
    }
}

fn summary_exec(nd: usize, nm: usize, nj: usize, nh: usize) -> (r: Vec<char>)
    ensures
        r@ == decimal(nd as nat) + " folder"@ + plural(nd as nat) + " &middot; "@ + decimal(
            nm as nat,
        ) + " markdown &middot; "@ + decimal(nj as nat) + " json &middot; "@ + decimal(nh as nat)
            + " html"@,
{
    let mut out: Vec<char> = Vec::new();
    let a = decimal_exec(nd as u64);
    push_all(&mut out, &a);
    push_str(&mut out, " folder");
    plural_exec(&mut out, nd);
    push_str(&mut out, " &middot; ");
    let b = decimal_exec(nm as u64);
    push_all(&mut out, &b);
    push_str(&mut out, " markdown &middot; ");
    let c = decimal_exec(nj as u64);
    push_all(&mut out, &c);
    push_str(&mut out, " json &middot; ");
    let d = decimal_exec(nh as u64);
    push_all(&mut out, &d);
    push_str(&mut out, " html");
    assert(out@ =~= decimal(nd as nat) + " folder"@ + plural(nd as nat) + " &middot; "@ + decimal(
        nm as nat,
    ) + " markdown &middot; "@ + decimal(nj as nat) + " json &middot; "@ + decimal(nh as nat)
        + " html"@);
    out
}

fn fill_template_exec(
    template: &str,
    directory: &Vec<char>,
    breadcrumbs: &Vec<char>,
    entries: &Vec<char>,
    summary: &Vec<char>,
) -> (r: String)
    ensures
        r@ == fill_template(template@, directory@, breadcrumbs@, entries@, summary@),
{
    proof {
        reveal_strlit("{{directory}}");
        reveal_strlit("{{breadcrumbs}}");
        reveal_strlit("{{file_entries}}");
        reveal_strlit("{{summary}}");
    }
    let t = str_to_chars(template);
    let mut p1: Vec<char> = Vec::new();
    push_str(&mut p1, "{{directory}}");
    let mut p2: Vec<char> = Vec::new();
    push_str(&mut p2, "{{breadcrumbs}}");
    let mut p3: Vec<char> = Vec::new();
    push_str(&mut p3, "{{file_entries}}");
    let mut p4: Vec<char> = Vec::new();
    push_str(&mut p4, "{{summary}}");
    let safe_dir = escape_chars(directory);
    let a = replace_all_exec(&t, &p1, &safe_dir);
    let b = replace_all_exec(&a, &p2, breadcrumbs);
    let c = replace_all_exec(&b, &p3, entries);
    let d = replace_all_exec(&c, &p4, summary);
    chars_to_string(&d)
}

/// Renders a directory listing page. `subpath` is the directory relative
/// to the source root (empty for the root), `display_root` describes the
/// source, `entries` are the directory's entries, `md_contents` the
/// contents of its markdown files in the order of
/// `listing_markdown_paths` (empty for files that could not be read), and
/// `template` the page template with the placeholders `{{directory}}`,
/// `{{breadcrumbs}}`, `{{file_entries}}` and `{{summary}}`.
///
/// Directories, markdown files (with their flag counts), JSON files and
/// HTML pages are listed in that order; the first three groups are sorted
/// stably by lowercase name, HTML pages by name. At the root of a container
/// rooted at `/`, system directories are left out.
pub fn render_listing(
    source: &ListingSource,
    subpath: &str,
    display_root: &str,
    entries: &Vec<DirEntry>,
    md_contents: &Vec<String>,
    template: &str,
) -> (r: String)
    requires
        md_contents.len() == markdown_count(entry_views(entries@)),
    ensures
        exists|s: Groups|
            sorted_groups(
                grouped(
                    entry_views(entries@),
                    md_contents@.map_values(|x: String| x@),
                    hides_system(source_view(source), subpath@, display_root@),
                ),
                s,
            ) && r@ == listing_page(source_view(source), subpath@, display_root@, s, template@),
{
    let root_chars = str_to_chars(display_root);
    let sub = str_to_chars(subpath);
    let mut root_suffix: Vec<char> = Vec::new();
    push_str(&mut root_suffix, ":/");
    let hide = match source {
        ListingSource::Docker(_) => sub.len() == 0 && ends_with_exec(&root_chars, &root_suffix),
        ListingSource::Local => false,
    };
    let g = group_entries(entries, md_contents, hide);
    let ghost gs = groups_of(&g);
    let dir_keys = lower_keys_exec(&g.dirs);
    let dirs = sort_names_by(&g.dirs, &dir_keys);
    let (md_names, md_counts) = sort_md(&g.md_names, &g.md_counts);
    let json_keys = lower_keys_exec(&g.json);
    let json = sort_names_by(&g.json, &json_keys);
    let html = sort_names_by(&g.html, &g.html);
    let ghost sorted = Groups {
        dirs: seq_views(dirs@),
        md: Seq::new(md_names.len() as nat, |i: int| (md_names@[i]@, md_counts@[i] as nat)),
        json: seq_views(json@),
        html: seq_views(html@),
    };
    proof {
        assert(gs.md.map_values(|m: (Seq<char>, nat)| m.0) =~= seq_views(g.md_names@));
        assert(sorted_groups(gs, sorted));
    }
    // Link targets.
    let mut h_dir: Vec<char> = Vec::new();
    let mut h_md: Vec<char> = Vec::new();
    let mut h_json: Vec<char> = Vec::new();
    let mut h_html: Vec<char> = Vec::new();
    match source {
        ListingSource::Local => {
            push_str(&mut h_dir, "/browse/");
            push_str(&mut h_md, "/view/");
            push_str(&mut h_json, "/view/");
            push_str(&mut h_html, "/raw/");
        },
        ListingSource::Docker(c) => {
            let cc = str_to_chars(c.as_str());
            let safe = escape_chars(&cc);
            let mut base: Vec<char> = Vec::new();
            push_str(&mut base, "/docker/");
            push_all(&mut base, &safe);
            push_all(&mut h_dir, &base);
            push_str(&mut h_dir, "/browse/");
            push_all(&mut h_md, &base);
            push_str(&mut h_md, "/view/");
            push_all(&mut h_json, &base);
            push_str(&mut h_json, "/view/");
            push_all(&mut h_html, &base);
            push_str(&mut h_html, "/view/");
        },
    }
    let ghost h = hrefs(source_view(source));
    assert(h_dir@ == h.0 && h_md@ == h.1 && h_json@ == h.2 && h_html@ == h.3);
    let prefix = link_prefix_exec(&sub);
    let mut lines: Vec<Vec<char>> = Vec::new();
    push_plain_lines(&mut lines, &dirs, LineKind::Dir, &h_dir, &prefix);
    push_md_lines(&mut lines, &md_names, &md_counts, &h_md, &prefix);
    push_plain_lines(&mut lines, &json, LineKind::Json, &h_json, &prefix);
    push_plain_lines(&mut lines, &html, LineKind::Html, &h_html, &prefix);
    proof {
        let p = prefix@;
        assert(seq_views(dirs@).map_values(|n: Seq<char>| plain_line(LineKind::Dir, h.0, p + n, n))
            =~= sorted.dirs.map_values(|n: Seq<char>| dir_line(h.0, p + n, n)));
        assert(seq_views(json@).map_values(
            |n: Seq<char>| plain_line(LineKind::Json, h.2, p + n, n),
        ) =~= sorted.json.map_values(|n: Seq<char>| json_line(h.2, p + n, n)));
        assert(seq_views(html@).map_values(
            |n: Seq<char>| plain_line(LineKind::Html, h.3, p + n, n),
        ) =~= sorted.html.map_values(|n: Seq<char>| html_line(h.3, p + n, n)));
        assert(seq_views(lines@) =~= listing_lines(source_view(source), p, sorted));
    }
    let mut nl: Vec<char> = Vec::new();
    nl.push('\n');
    assert(nl@ =~= seq!['\n']);
    let file_entries = join_with_exec(&lines, &nl);
    let summary = summary_exec(dirs.len(), md_names.len(), json.len(), html.len());
    assert(summary@ == listing_summary(sorted));
    let mut directory: Vec<char> = Vec::new();
    push_all(&mut directory, &root_chars);
    if sub.len() > 0 {
        directory.push('/');
        push_all(&mut directory, &sub);
    }
    let crumbs = match source {
        ListingSource::Local => build_breadcrumbs(subpath),
        ListingSource::Docker(c) => build_docker_breadcrumbs(c.as_str(), subpath),
    };
    let crumb_chars = str_to_chars(crumbs.as_str());
    assert(directory@ =~= if subpath@.len() == 0 {
        display_root@
    } else {
        display_root@ + seq!['/'] + subpath@
    });
    assert(crumb_chars@ == match source_view(source) {
        None => breadcrumbs_html(subpath@),
        Some(c) => docker_breadcrumbs_html(c, subpath@),
    });
    assert(file_entries@ == join_with(
        listing_lines(source_view(source), link_prefix(subpath@), sorted),
        seq!['\n'],
    ));
    let r = fill_template_exec(template, &directory, &crumb_chars, &file_entries, &summary);
    assert(r@ == listing_page(source_view(source), subpath@, display_root@, sorted, template@));
    r
}

/// How deep the file tree goes below the root.
pub const MAX_TREE_DEPTH: usize = 10;

/// The kinds of nodes in the file tree.
#[derive(Debug, Clone, Copy, PartialEq, Eq, Structural)]
pub enum TreeNodeKind {
    Dir,
    Md,
    Json,
    Html,
}

/// A node of one level of the file tree: its name, kind and path relative
/// to the source root. Directory nodes get their children from the next
/// level.
#[derive(Debug, Clone)]
pub struct TreeEntry {
    pub name: String,
    pub kind: TreeNodeKind,
    pub path: String,
}

/// What a [`TreeEntry`] holds.
pub struct TreeEntryView {
    pub name: Seq<char>,
    pub kind: TreeNodeKind,
    pub path: Seq<char>,
}

impl View for TreeEntry {
    type V = TreeEntryView;

    open spec fn view(&self) -> TreeEntryView {
        TreeEntryView { name: self.name@, kind: self.kind, path: self.path@ }
    }
}

/// The kind of tree node an entry makes, if it is shown at all.
pub open spec fn tree_kind(e: DirEntryView) -> Option<TreeNodeKind> {
    match e.entry_type {
        EntryType::Directory => Some(TreeNodeKind::Dir),
        EntryType::File => if is_markdown_name(e.name) {
            Some(TreeNodeKind::Md)
        } else if is_json_name(e.name) {
            Some(TreeNodeKind::Json)
        } else if is_html_name(e.name) {
            Some(TreeNodeKind::Html)
        } else {
            None
        },
    }
}

/// The path of an entry relative to the source root.
pub open spec fn tree_path(path: Seq<char>, name: Seq<char>) -> Seq<char> {
    if path.len() == 0 {
        name
    } else {
        path + seq!['/'] + name
    }
}

/// The nodes of a level, in entry order: directories (`dirs` true) or
/// files (`dirs` false).
pub open spec fn tree_nodes(path: Seq<char>, es: Seq<DirEntryView>, dirs: bool) -> Seq<
    TreeEntryView,
>
    decreases es.len(),
{
    if es.len() == 0 {
        seq![]
    } else {
        let r = tree_nodes(path, es.drop_last(), dirs);
        let e = es.last();
        match tree_kind(e) {
            Some(k) => if (k == TreeNodeKind::Dir) == dirs {
                r.push(TreeEntryView { name: e.name, kind: k, path: tree_path(path, e.name) })
            } else {
                r
            },
            None => r,
        }
    }
}

/// A tree node's kind follows its entry's name: directories are `Dir`;
/// a file node is `Md` only for a markdown name, `Json` only for a JSON
/// name that is not markdown, and `Html` only for an `.html` or `.htm`
/// name that is neither; every node carries its entry's path.
pub open spec fn node_kind_fits(n: TreeEntryView, path: Seq<char>) -> bool {
    &&& n.path == tree_path(path, n.name)
    &&& n.kind == TreeNodeKind::Md ==> is_markdown_name(n.name)
    &&& n.kind == TreeNodeKind::Json ==> is_json_name(n.name) && !is_markdown_name(n.name)
    &&& n.kind == TreeNodeKind::Html ==> is_html_name(n.name) && !is_markdown_name(n.name)
        && !is_json_name(n.name)
}

/// The nodes of a tree level have the kinds their names give, and every
/// file whose name ends in `.html` or `.htm` and is neither markdown nor
/// JSON by name is among the file nodes as an `Html` node (likewise JSON
/// names as `Json` nodes and markdown names as `Md` nodes).
pub proof fn law_tree_kinds_follow_names(path: Seq<char>, es: Seq<DirEntryView>)
    ensures
        forall|i: int|
            0 <= i < tree_nodes(path, es, false).len() ==> node_kind_fits(
                #[trigger] tree_nodes(path, es, false)[i],
                path,
            ) && tree_nodes(path, es, false)[i].kind != TreeNodeKind::Dir,
        forall|i: int|
            0 <= i < tree_nodes(path, es, true).len() ==> (#[trigger] tree_nodes(
                path,
                es,
                true,
            )[i]).kind == TreeNodeKind::Dir,
        forall|i: int|
            0 <= i < es.len() && (#[trigger] es[i]).entry_type == EntryType::File && is_html_name(
                es[i].name,
            ) && !is_markdown_name(es[i].name) && !is_json_name(es[i].name) ==> tree_nodes(
                path,
                es,
                false,
            ).contains(
                TreeEntryView {
                    name: es[i].name,
                    kind: TreeNodeKind::Html,
                    path: tree_path(path, es[i].name),
                },
            ),
        forall|i: int|
            0 <= i < es.len() && (#[trigger] es[i]).entry_type == EntryType::File && is_json_name(
                es[i].name,
            ) && !is_markdown_name(es[i].name) ==> tree_nodes(path, es, false).contains(
                TreeEntryView {
                    name: es[i].name,
                    kind: TreeNodeKind::Json,
                    path: tree_path(path, es[i].name),
                },
            ),
        forall|i: int|
            0 <= i < es.len() && (#[trigger] es[i]).entry_type == EntryType::File
                && is_markdown_name(es[i].name) ==> tree_nodes(path, es, false).contains(
                TreeEntryView {
                    name: es[i].name,
                    kind: TreeNodeKind::Md,
                    path: tree_path(path, es[i].name),
                },
            ),
    decreases es.len(),
{
    if es.len() > 0 {
        let front = es.drop_last();
        law_tree_kinds_follow_names(path, front);
        let e = es.last();
        let rf = tree_nodes(path, front, false);
        let rd = tree_nodes(path, front, true);
        let nf = tree_nodes(path, es, false);
        let nd = tree_nodes(path, es, true);
        assert forall|i: int| 0 <= i < nf.len() implies node_kind_fits(#[trigger] nf[i], path)
            && nf[i].kind != TreeNodeKind::Dir by {
            if i < rf.len() {
                assert(nf[i] == rf[i]);
            }
        }
        assert forall|i: int| 0 <= i < nd.len() implies (#[trigger] nd[i]).kind
            == TreeNodeKind::Dir by {
            if i < rd.len() {
                assert(nd[i] == rd[i]);
            }
        }
        assert forall|i: int| 0 <= i < es.len() && (#[trigger] es[i]).entry_type == EntryType::File
            && (is_markdown_name(es[i].name) || is_json_name(es[i].name) || is_html_name(
            es[i].name,
        )) implies nf.contains(
            TreeEntryView {
                name: es[i].name,
                kind: tree_kind(es[i])->0,
                path: tree_path(path, es[i].name),
            },
        ) by {
            let x = TreeEntryView {
                name: es[i].name,
                kind: tree_kind(es[i])->0,
                path: tree_path(path, es[i].name),
            };
            if i < front.len() {
                assert(es[i] == front[i]);
                assert(rf.contains(x));
                let j = choose|j: int| 0 <= j < rf.len() && rf[j] == x;
                assert(nf[j] == rf[j]);
            } else {
                assert(es[i] == e);
                assert(nf[nf.len() - 1] == x);
            }
        }
    }
}

/// The lowercase names of tree nodes.
pub open spec fn tree_keys(ns: Seq<TreeEntryView>) -> Seq<Seq<char>> {
    ns.map_values(|n: TreeEntryView| lowercased(n.name))
}

fn tree_group(path: &Vec<char>, entries: &Vec<DirEntry>, dirs: bool) -> (r: Vec<TreeEntry>)
    ensures
        r@.map_values(|t: TreeEntry| t@) == tree_nodes(path@, entry_views(entries@), dirs),
{
    let ghost es = entry_views(entries@);
    let mut r: Vec<TreeEntry> = Vec::new();
    let mut k: usize = 0;
    assert(es.take(0) =~= Seq::<DirEntryView>::empty());
    while k < entries.len()
        invariant
            es == entry_views(entries@),
            k <= entries.len(),
            r@.map_values(|t: TreeEntry| t@) == tree_nodes(path@, es.take(k as int), dirs),
        decreases entries.len() - k,
    {
        assert(es.take(k + 1).drop_last() =~= es.take(k as int));
        assert(es.take(k + 1).last() == entries@[k as int]@);
        let e = &entries[k];
        let kind = match e.entry_type {
            EntryType::Directory => Some(TreeNodeKind::Dir),
            EntryType::File => if is_markdown(e.name.as_str()) {
                Some(TreeNodeKind::Md)
            } else if is_json(e.name.as_str()) {
                Some(TreeNodeKind::Json)
            } else {
                let name = str_to_chars(e.name.as_str());
                let mut a: Vec<char> = Vec::new();
                push_str(&mut a, ".html");
                let mut b: Vec<char> = Vec::new();
                push_str(&mut b, ".htm");
                if ends_with_exec(&name, &a) || ends_with_exec(&name, &b) {
                    Some(TreeNodeKind::Html)
                } else {
                    None
                }
            },
        };
        assert(kind == tree_kind(e@));
        match kind {
            Some(kd) => {
                if (kd == TreeNodeKind::Dir) == dirs {
                    let mut p: Vec<char> = Vec::new();
                    if path.len() > 0 {
                        push_all(&mut p, path);
                        p.push('/');
                    }
                    push_str(&mut p, e.name.as_str());
                    assert(p@ =~= tree_path(path@, e.name@));
                    let node = TreeEntry { name: e.name.clone(), kind: kd, path: chars_to_string(&p) };
                    let ghost before = r@.map_values(|t: TreeEntry| t@);
                    r.push(node);
                    assert(r@.map_values(|t: TreeEntry| t@) =~= before.push(node@));
                }
            },
            None => {},
        }
        k = k + 1;
    }
    assert(es.take(entries.len() as int) =~= es);
    r
}

fn sort_tree(nodes: &Vec<TreeEntry>) -> (r: Vec<TreeEntry>)
    ensures
        sorted_under(
            nodes@.map_values(|t: TreeEntry| t@),
            tree_keys(nodes@.map_values(|t: TreeEntry| t@)),
            r@.map_values(|t: TreeEntry| t@),
        ),
{
    let ghost input = nodes@.map_values(|t: TreeEntry| t@);
    let mut keys: Vec<Vec<char>> = Vec::new();
    let mut i: usize = 0;
    while i < nodes.len()
        invariant
            i <= nodes.len(),
            keys.len() == i,
            forall|k: int| 0 <= k < i ==> #[trigger] keys@[k]@ == lowercased(nodes@[k].name@),
        decreases nodes.len() - i,
    {
        let name = str_to_chars(nodes[i].name.as_str());
        keys.push(lowercase_chars(&name));
        i = i + 1;
    }
    assert(seq_views(keys@) =~= tree_keys(input));
    let order = stable_sort_order(&keys);
    let mut r: Vec<TreeEntry> = Vec::new();
    let mut j: usize = 0;
    while j < order.len()
        invariant
            input == nodes@.map_values(|t: TreeEntry| t@),
            is_permutation(order@, nodes.len() as nat),
            j <= order.len(),
            r.len() == j,
            forall|k: int| 0 <= k < j ==> #[trigger] r@[k]@ == input[order@[k] as int],
        decreases order.len() - j,
    {
        let n = &nodes[order[j]];
        r.push(TreeEntry { name: n.name.clone(), kind: n.kind, path: n.path.clone() });
        j = j + 1;
    }
    assert(r@.map_values(|t: TreeEntry| t@) =~= order@.map_values(|i: usize| input[i as int]));
    r
}

/// One level of the file tree below `path`, at `depth`: nothing from
/// `MAX_TREE_DEPTH` on; otherwise the directories, then the markdown, JSON
/// and HTML files among the entries, each group sorted stably by lowercase
/// name. Other files are left out.
pub fn tree_level(path: &str, depth: usize, entries: &Vec<DirEntry>) -> (r: Vec<TreeEntry>)
    ensures
        depth >= MAX_TREE_DEPTH ==> r@.len() == 0,
        depth < MAX_TREE_DEPTH ==> {
            let ds = tree_nodes(path@, entry_views(entries@), true);
            let fs = tree_nodes(path@, entry_views(entries@), false);
            let out = r@.map_values(|t: TreeEntry| t@);
            &&& out.len() == ds.len() + fs.len()
            &&& sorted_under(ds, tree_keys(ds), out.take(ds.len() as int))
            &&& sorted_under(fs, tree_keys(fs), out.skip(ds.len() as int))
        },
{
    if depth >= MAX_TREE_DEPTH {
        return Vec::new();
    }
    let p = str_to_chars(path);
    let dirs = tree_group(&p, entries, true);
    let files = tree_group(&p, entries, false);
    let mut sd = sort_tree(&dirs);
    let sf = sort_tree(&files);
    let ghost d = sd@.map_values(|t: TreeEntry| t@);
    let ghost f = sf@.map_values(|t: TreeEntry| t@);
    let mut i: usize = 0;
    while i < sf.len()
        invariant
            i <= sf.len(),
            f == sf@.map_values(|t: TreeEntry| t@),
            sd@.map_values(|t: TreeEntry| t@) == d + f.take(i as int),
        decreases sf.len() - i,
    {
        let n = &sf[i];
        let ghost before = sd@.map_values(|t: TreeEntry| t@);
        let copy = TreeEntry { name: n.name.clone(), kind: n.kind, path: n.path.clone() };
        sd.push(copy);
        assert(sd@.map_values(|t: TreeEntry| t@) =~= before.push(copy@));
        assert(f.take(i + 1) =~= f.take(i as int).push(f[i as int]));
        i = i + 1;
    }
    assert(f.take(sf.len() as int) =~= f);
    proof {
        let out = sd@.map_values(|t: TreeEntry| t@);
        assert(out.take(d.len() as int) =~= d);
        assert(out.skip(d.len() as int) =~= f);
    }
    sd
}

} // verus!
