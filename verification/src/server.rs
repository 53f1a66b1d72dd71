//! The preview server's logic: configuration, path handling, breadcrumbs,
//! directory listings, the JSON viewer and the decisions of the flag
//! endpoints. Sockets, routing and file access are the caller's.
use std::path::{Path, PathBuf};
use vstd::prelude::*;
use crate::error::{buf_as_path, path_of, pathbuf_from, pathbuf_of_text};
use crate::html::{escape_chars, escaped};
use crate::ordering::{lowercase_chars, lowercased, to_lowercase};
use crate::docker::{split_on, split_on_exec};
use crate::text::{
    join_with, join_with_exec, chars_to_string, copy_range, ends_with, ends_with_exec, find_char, find_char_exec,
    lemma_find_char, lemma_find_char_upto, parse_unsigned, parsed_unsigned, push_all, push_str,
    seq_views, starts_with, str_to_chars,
};

verus! {

/// Immutable server configuration produced by [`ServerBuilder`].
#[derive(Clone, Debug)]
pub struct ServerConfig {
    path: PathBuf,
    port: u16,
    host: String,
    live_reload: bool,
    docker: bool,
}

impl ServerConfig {
    pub closed spec fn spec_path(&self) -> PathBuf {
        self.path
    }

    pub closed spec fn spec_port(&self) -> u16 {
        self.port
    }

    pub closed spec fn spec_host(&self) -> Seq<char> {
        self.host@
    }

    pub closed spec fn spec_live_reload(&self) -> bool {
        self.live_reload
    }

    pub closed spec fn spec_docker(&self) -> bool {
        self.docker
    }

    /// The served file or directory (canonical).
    pub fn path(&self) -> (r: &Path)
        ensures
            r == buf_as_path(&self.spec_path()),
    {
        path_of(&self.path)
    }

    pub fn port(&self) -> (r: u16)
        ensures
            r == self.spec_port(),
    {
        self.port
    }

    pub fn host(&self) -> (r: &str)
        ensures
            r@ == self.spec_host(),
    {
        self.host.as_str()
    }

    pub fn live_reload(&self) -> (r: bool)
        ensures
            r == self.spec_live_reload(),
    {
        self.live_reload
    }

    pub fn docker(&self) -> (r: bool)
        ensures
            r == self.spec_docker(),
    {
        self.docker
    }
}

/// Builder for [`ServerConfig`].
pub struct ServerBuilder {
    path: PathBuf,
    port: u16,
    host: String,
    live_reload: bool,
    docker: bool,
}

impl ServerBuilder {
    pub closed spec fn spec_path(&self) -> PathBuf {
        self.path
    }

    pub closed spec fn spec_port(&self) -> u16 {
        self.port
    }

    pub closed spec fn spec_host(&self) -> Seq<char> {
        self.host@
    }

    pub closed spec fn spec_live_reload(&self) -> bool {
        self.live_reload
    }

    pub closed spec fn spec_docker(&self) -> bool {
        self.docker
    }

    /// Defaults: the current directory, port 4567, host `127.0.0.1`, live
    /// reload on, Docker off.
    pub fn new() -> (r: Self)
        ensures
            r.spec_path() == pathbuf_of_text("."@),
            r.spec_port() == 4567,
            r.spec_host() == "127.0.0.1"@,
            r.spec_live_reload(),
            !r.spec_docker(),
    {
        let mut host: Vec<char> = Vec::new();
        push_str(&mut host, "127.0.0.1");
        ServerBuilder {
            path: pathbuf_from("."),
            port: 4567,
            host: chars_to_string(&host),
            live_reload: true,
            docker: false,
        }
    }

    /// Sets the path to serve: the argument converted into a `PathBuf`.
    pub fn path<P: Into<PathBuf>>(self, path: P) -> (r: Self)
        ensures
            <P as vstd::std_specs::convert::IntoSpec<PathBuf>>::obeys_into_spec() ==> r.spec_path()
                == <P as vstd::std_specs::convert::IntoSpec<PathBuf>>::into_spec(path),
            r.spec_port() == self.spec_port(),
            r.spec_host() == self.spec_host(),
            r.spec_live_reload() == self.spec_live_reload(),
            r.spec_docker() == self.spec_docker(),
    {
        ServerBuilder { path: path.into(), ..self }
    }

    pub fn port(self, port: u16) -> (r: Self)
        ensures
            r.spec_port() == port,
            r.spec_path() == self.spec_path(),
            r.spec_host() == self.spec_host(),
            r.spec_live_reload() == self.spec_live_reload(),
            r.spec_docker() == self.spec_docker(),
    {
        ServerBuilder { port, ..self }
    }

    /// Sets the host to bind to: the argument converted into a `String`.
    pub fn host<S: Into<String>>(self, host: S) -> (r: Self)
        ensures
            <S as vstd::std_specs::convert::IntoSpec<String>>::obeys_into_spec() ==> r.spec_host()
                == <S as vstd::std_specs::convert::IntoSpec<String>>::into_spec(host)@,
            r.spec_port() == self.spec_port(),
            r.spec_path() == self.spec_path(),
            r.spec_live_reload() == self.spec_live_reload(),
            r.spec_docker() == self.spec_docker(),
    {
        ServerBuilder { host: host.into(), ..self }
    }

    pub fn live_reload(self, enabled: bool) -> (r: Self)
        ensures
            r.spec_live_reload() == enabled,
            r.spec_port() == self.spec_port(),
            r.spec_path() == self.spec_path(),
            r.spec_host() == self.spec_host(),
            r.spec_docker() == self.spec_docker(),
    {
        ServerBuilder { live_reload: enabled, ..self }
    }

    pub fn docker(self, enabled: bool) -> (r: Self)
        ensures
            r.spec_docker() == enabled,
            r.spec_port() == self.spec_port(),
            r.spec_path() == self.spec_path(),
            r.spec_host() == self.spec_host(),
            r.spec_live_reload() == self.spec_live_reload(),
    {
        ServerBuilder { docker: enabled, ..self }
    }

    /// The configured path, to be canonicalized by the caller.
    pub fn requested_path(&self) -> (r: &Path)
        ensures
            r == buf_as_path(&self.spec_path()),
    {
        path_of(&self.path)
    }

    /// Builds the configuration from the result of canonicalizing the
    /// configured path: `None` (the path does not exist) is `FileNotFound`
    /// naming the configured path.
    pub fn build_with(self, canonical: Option<PathBuf>) -> (r: Result<
        ServerConfig,
        crate::error::PreviewError,
    >)
        ensures
            match canonical {
                Some(c) => r matches Ok(cfg) && cfg.spec_path() == c && cfg.spec_port()
                    == self.spec_port() && cfg.spec_host() == self.spec_host()
                    && cfg.spec_live_reload() == self.spec_live_reload() && cfg.spec_docker()
                    == self.spec_docker(),
                None => r matches Err(e) && e == crate::error::PreviewError::FileNotFound(
                    self.spec_path(),
                ),
            },
    {
        match canonical {
            Some(c) => Ok(
                ServerConfig {
                    path: c,
                    port: self.port,
                    host: self.host,
                    live_reload: self.live_reload,
                    docker: self.docker,
                },
            ),
            None => Err(crate::error::PreviewError::FileNotFound(self.path)),
        }
    }
}

impl Default for ServerBuilder {
    /// The defaults of [`ServerBuilder::new`].
    fn default() -> (r: Self)
        ensures
            r.spec_path() == pathbuf_of_text("."@),
            r.spec_port() == 4567,
            r.spec_host() == "127.0.0.1"@,
            r.spec_live_reload(),
            !r.spec_docker(),
    {
        ServerBuilder::new()
    }
}

/// Whether a lowercase file name has a markdown extension (`.md`,
/// `.markdown`, `.mkd`).
pub open spec fn markdown_extension(lower: Seq<char>) -> bool {
    ends_with(lower, ".md"@) || ends_with(lower, ".markdown"@) || ends_with(lower, ".mkd"@)
}

/// Whether a file name is a markdown file name: its lowercase form ends
/// with `.md`, `.markdown` or `.mkd`.
pub open spec fn is_markdown_name(name: Seq<char>) -> bool {
    markdown_extension(lowercased(name))
}

/// Whether a file name is a JSON file name: its lowercase form ends with
/// `.json`.
pub open spec fn is_json_name(name: Seq<char>) -> bool {
    ends_with(lowercased(name), ".json"@)
}

fn ends_with_str(s: &Vec<char>, pat: &str) -> (r: bool)
    ensures
        r == ends_with(s@, pat@),
{
    let p = str_to_chars(pat);
    ends_with_exec(s, &p)
}

/// Whether an already lowercased file name has a markdown extension.
pub fn has_markdown_extension(lower: &str) -> (r: bool)
    ensures
        r == markdown_extension(lower@),
{
    let l = str_to_chars(lower);
    ends_with_str(&l, ".md") || ends_with_str(&l, ".markdown") || ends_with_str(&l, ".mkd")
}

/// Whether an already lowercased file name has the `.json` extension.
pub fn has_json_extension(lower: &str) -> (r: bool)
    ensures
        r == ends_with(lower@, ".json"@),
{
    let l = str_to_chars(lower);
    ends_with_str(&l, ".json")
}

/// Whether a file name is a markdown file name (case-insensitive `.md`,
/// `.markdown` or `.mkd`).
pub fn is_markdown(name: &str) -> (r: bool)
    ensures
        r == is_markdown_name(name@),
{
    let lower = to_lowercase(name);
    has_markdown_extension(lower.as_str())
}

/// Whether a file name is a JSON file name (case-insensitive `.json`).
pub fn is_json(name: &str) -> (r: bool)
    ensures
        r == is_json_name(name@),
{
    let lower = to_lowercase(name);
    has_json_extension(lower.as_str())
}

/// The flag id and file path of a flag route's `ID/PATH` tail: the text up
/// to the first slash must parse as a `u32`, and a nonempty path must
/// follow.
pub open spec fn id_and_path(raw: Seq<char>) -> Option<(u32, Seq<char>)> {
    let k = find_char(raw, '/', 0);
    if k >= raw.len() {
        None
    } else {
        match parsed_unsigned(raw.subrange(0, k), u32::MAX as nat) {
            None => None,
            Some(id) => if k + 1 < raw.len() {
                Some((id as u32, raw.subrange(k + 1, raw.len() as int)))
            } else {
                None
            },
        }
    }
}

/// Splits the tail of a flag route, `ID/PATH`, into the flag id and the
/// file path.
pub fn parse_id_and_filepath(raw: &str) -> (r: Option<(u32, String)>)
    ensures
        match id_and_path(raw@) {
            Some((id, path)) => r matches Some((i, p)) && i == id && p@ == path,
            None => r is None,
        },
{
    let chars = str_to_chars(raw);
    let k = find_char_exec(&chars, '/', 0);
    proof {
        lemma_find_char(chars@, '/', 0);
    }
    if k >= chars.len() {
        return None;
    }
    let id_text = copy_range(&chars, 0, k);
    let id = match parse_unsigned(&id_text, 4294967295) {
        Some(v) => v,
        None => {
            return None;
        },
    };
    if k + 1 >= chars.len() {
        return None;
    }
    let rest = copy_range(&chars, k + 1, chars.len());
    Some((id as u32, chars_to_string(&rest)))
}

/// A flag route's tail written as `ID/PATH`, with the id in decimal and a
/// nonempty path, parses back to that id and path.
pub proof fn law_route_tail_round_trip(id: u32, path: Seq<char>)
    requires
        path.len() > 0,
    ensures
        id_and_path(crate::text::decimal(id as nat) + seq!['/'] + path) == Some((id, path)),
{
    let d = crate::text::decimal(id as nat);
    crate::text::lemma_decimal_digits(id as nat);
    let raw = d + seq!['/'] + path;
    assert forall|j: int| 0 <= j < d.len() implies raw[j] != '/' by {
        assert(raw[j] == d[j]);
        assert(crate::text::is_digit(d[j]));
    }
    crate::text::lemma_find_char_upto(raw, '/', 0, d.len() as int);
    assert(raw.subrange(0, d.len() as int) =~= d);
    assert(crate::text::is_digit(d[0]));
    assert(crate::text::unsigned_digits(d) == d);
    assert(raw.subrange(d.len() as int + 1, raw.len() as int) =~= path);
}

/// The label a flag gets when a request names none.
pub fn default_label() -> (r: String)
    ensures
        r@ == "Comment"@,
{
    let mut v: Vec<char> = Vec::new();
    push_str(&mut v, "Comment");
    chars_to_string(&v)
}

/// The body of a 404 answer: `File not found: PATH`, the path escaped.
pub fn not_found_message(filepath: &str) -> (r: String)
    ensures
        r@ == "File not found: "@ + escaped(filepath@),
{
    let mut v: Vec<char> = Vec::new();
    push_str(&mut v, "File not found: ");
    let p = str_to_chars(filepath);
    let e = escape_chars(&p);
    push_all(&mut v, &e);
    chars_to_string(&v)
}

/// The nonempty pieces, in order.
pub open spec fn nonempty_pieces(ps: Seq<Seq<char>>) -> Seq<Seq<char>>
    decreases ps.len(),
{
    if ps.len() == 0 {
        seq![]
    } else {
        let r = nonempty_pieces(ps.drop_last());
        if ps.last().len() > 0 {
            r.push(ps.last())
        } else {
            r
        }
    }
}

/// The segments of a slash-separated path, empty ones dropped.
pub open spec fn path_segments(path: Seq<char>) -> Seq<Seq<char>> {
    nonempty_pieces(split_on(path, '/'))
}

/// The breadcrumb for segment `k`: the last one is the current page, the
/// others link to the path up to them under `browse_prefix`.
pub open spec fn crumb(browse_prefix: Seq<char>, segs: Seq<Seq<char>>, k: int) -> Seq<char> {
    if k == segs.len() - 1 {
        "<span class=\"breadcrumb-current\">"@ + escaped(segs[k]) + "</span>"@
    } else {
        "<a class=\"breadcrumb-link\" href=\""@ + browse_prefix + escaped(
            join_with(segs.take(k + 1), seq!['/']),
        ) + "\">"@ + escaped(segs[k]) + "</a>"@
    }
}

/// The breadcrumbs of all segments.
pub open spec fn crumbs(browse_prefix: Seq<char>, segs: Seq<Seq<char>>) -> Seq<Seq<char>> {
    Seq::new(segs.len(), |k: int| crumb(browse_prefix, segs, k))
}

/// The opening of a breadcrumb link, up to where its target starts.
pub open spec fn crumb_link_open() -> Seq<char> {
    "<a class=\"breadcrumb-link\" href=\""@
}

/// Where a breadcrumb link points: the text after its opening up to the
/// next `"`.
pub open spec fn crumb_target(c: Seq<char>) -> Seq<char> {
    let rest = c.skip(crumb_link_open().len() as int);
    rest.take(crate::text::find_char(rest, '"', 0))
}

/// The target of a breadcrumb link to the path `p` under `browse_prefix`.
proof fn lemma_crumb_target(browse_prefix: Seq<char>, segs: Seq<Seq<char>>, k: int)
    requires
        0 <= k < segs.len() - 1,
        !browse_prefix.contains('"'),
    ensures
        starts_with(crumb(browse_prefix, segs, k), crumb_link_open()),
        crumb_target(crumb(browse_prefix, segs, k)) == browse_prefix + escaped(
            join_with(segs.take(k + 1), seq!['/']),
        ),
{
    reveal_strlit("<a class=\"breadcrumb-link\" href=\"");
    reveal_strlit("\">");
    let o = crumb_link_open();
    let e = escaped(join_with(segs.take(k + 1), seq!['/']));
    let tail = "\">"@ + escaped(segs[k]) + "</a>"@;
    let c = crumb(browse_prefix, segs, k);
    assert(c == o + browse_prefix + e + tail);
    assert(c.subrange(0, o.len() as int) =~= o);
    let rest = c.skip(o.len() as int);
    assert(rest =~= browse_prefix + e + tail);
    crate::html::lemma_escaped_lacks(join_with(segs.take(k + 1), seq!['/']));
    let t = browse_prefix + e;
    assert forall|j: int| 0 <= j < t.len() implies rest[j] != '"' by {
        if j < browse_prefix.len() {
            assert(rest[j] == browse_prefix[j]);
            if browse_prefix[j] == '"' {
                assert(browse_prefix.contains('"'));
            }
        } else {
            assert(rest[j] == e[j - browse_prefix.len()]);
        }
    }
    assert(rest[t.len() as int] == tail[0]);
    lemma_find_char_upto(rest, '"', 0, t.len() as int);
    assert(rest.take(t.len() as int) =~= t);
}

/// The breadcrumb links lead down the path one directory at a time: the
/// first links to the first segment, each next one to the previous target
/// followed by `/` and its own segment, and the last link (the one before
/// the current page) to the path's parent directory. The last crumb names
/// the current page without a link.
pub proof fn law_crumb_links_descend(browse_prefix: Seq<char>, segs: Seq<Seq<char>>)
    requires
        segs.len() >= 2,
        !browse_prefix.contains('"'),
    ensures
        starts_with(crumbs(browse_prefix, segs)[0], crumb_link_open()),
        crumb_target(crumbs(browse_prefix, segs)[0]) == browse_prefix + escaped(segs[0]),
        forall|k: int|
            0 <= k < segs.len() - 2 ==> starts_with(
                #[trigger] crumbs(browse_prefix, segs)[k + 1],
                crumb_link_open(),
            ) && crumb_target(crumbs(browse_prefix, segs)[k + 1]) == crumb_target(
                crumbs(browse_prefix, segs)[k],
            ) + escaped(seq!['/'] + segs[k + 1]),
        crumb_target(crumbs(browse_prefix, segs)[segs.len() - 2]) == browse_prefix + escaped(
            join_with(segs.drop_last(), seq!['/']),
        ),
        crumbs(browse_prefix, segs)[segs.len() - 1] == "<span class=\"breadcrumb-current\">"@
            + escaped(segs.last()) + "</span>"@,
{
    let cs = crumbs(browse_prefix, segs);
    lemma_crumb_target(browse_prefix, segs, 0);
    assert(segs.take(1) =~= seq![segs[0]]);
    assert forall|k: int| 0 <= k < segs.len() - 2 implies starts_with(
        #[trigger] cs[k + 1],
        crumb_link_open(),
    ) && crumb_target(cs[k + 1]) == crumb_target(cs[k]) + escaped(seq!['/'] + segs[k + 1]) by {
        lemma_crumb_target(browse_prefix, segs, k);
        lemma_crumb_target(browse_prefix, segs, k + 1);
        let a = segs.take(k + 1);
        let b = segs.take(k + 2);
        assert(b.drop_last() =~= a);
        assert(b.last() == segs[k + 1]);
        assert(join_with(b, seq!['/']) == join_with(a, seq!['/']) + seq!['/'] + segs[k + 1]);
        crate::html::lemma_escaped_concat(join_with(a, seq!['/']), seq!['/'] + segs[k + 1]);
        assert(join_with(a, seq!['/']) + seq!['/'] + segs[k + 1] =~= join_with(a, seq!['/']) + (
        seq!['/'] + segs[k + 1]));
    }
    let n = segs.len() as int;
    lemma_crumb_target(browse_prefix, segs, n - 2);
    assert(segs.take(n - 1) =~= segs.drop_last());
    assert(segs.last() == segs[n - 1]);
}

/// Breadcrumb parts wrapped in their navigation element, separated by
/// slashes.
pub open spec fn breadcrumb_nav(parts: Seq<Seq<char>>) -> Seq<char> {
    "<nav class=\"breadcrumbs\">"@ + join_with(parts, "<span class=\"breadcrumb-sep\">/</span>"@)
        + "</nav>"@
}

/// The link back to the root listing.
pub open spec fn root_crumb() -> Seq<char> {
    "<a class=\"breadcrumb-link\" href=\"/\">root</a>"@
}

/// The breadcrumb navigation for a path of the local source.
pub open spec fn breadcrumbs_html(path: Seq<char>) -> Seq<char> {
    breadcrumb_nav(seq![root_crumb()] + crumbs("/browse/"@, path_segments(path)))
}

/// The link to a container's root listing.
pub open spec fn container_crumb(container: Seq<char>) -> Seq<char> {
    "<a class=\"breadcrumb-link\" href=\"/docker/"@ + escaped(container) + "\">&#128051; "@
        + escaped(container) + "</a>"@
}

/// Where the directories of a container are browsed.
pub open spec fn docker_browse_prefix(container: Seq<char>) -> Seq<char> {
    "/docker/"@ + escaped(container) + "/browse/"@
}

/// The breadcrumb navigation for a path inside a container.
pub open spec fn docker_breadcrumbs_html(container: Seq<char>, path: Seq<char>) -> Seq<char> {
    breadcrumb_nav(
        seq![root_crumb(), container_crumb(container)] + crumbs(
            docker_browse_prefix(container),
            path_segments(path),
        ),
    )
}

fn path_segments_exec(path: &Vec<char>) -> (r: Vec<Vec<char>>)
    ensures
        seq_views(r@) == path_segments(path@),
{
    let pieces = split_on_exec(path, '/');
    let ghost ps = seq_views(pieces@);
    let mut r: Vec<Vec<char>> = Vec::new();
    let mut k: usize = 0;
    assert(ps.take(0) =~= Seq::<Seq<char>>::empty());
    while k < pieces.len()
        invariant
            ps == seq_views(pieces@),
            k <= pieces.len(),
            seq_views(r@) == nonempty_pieces(ps.take(k as int)),
        decreases pieces.len() - k,
    {
        assert(ps.take(k + 1).drop_last() =~= ps.take(k as int));
        assert(ps.take(k + 1).last() == pieces@[k as int]@);
        if pieces[k].len() > 0 {
            let copy = copy_range(&pieces[k], 0, pieces[k].len());
            assert(copy@ =~= pieces@[k as int]@);
            let ghost before = seq_views(r@);
            r.push(copy);
            assert(seq_views(r@) =~= before.push(copy@));
        }
        k = k + 1;
    }
    assert(ps.take(pieces.len() as int) =~= ps);
    r
}

/// Appends the breadcrumbs of a path's segments to `parts`.
fn push_crumbs(parts: &mut Vec<Vec<char>>, browse_prefix: &Vec<char>, path: &str)
    ensures
        seq_views(final(parts)@) == seq_views(old(parts)@) + crumbs(
            browse_prefix@,
            path_segments(path@),
        ),
{
    let chars = str_to_chars(path);
    let segs = path_segments_exec(&chars);
    let ghost sv = seq_views(segs@);
    let ghost start = seq_views(parts@);
    let mut slash: Vec<char> = Vec::new();
    slash.push('/');
    assert(slash@ =~= seq!['/']);
    let mut accumulated: Vec<char> = Vec::new();
    let mut i: usize = 0;
    assert(sv.take(0) =~= Seq::<Seq<char>>::empty());
    while i < segs.len()
        invariant
            sv == seq_views(segs@),
            sv == path_segments(path@),
            slash@ == seq!['/'],
            i <= segs.len(),
            accumulated@ == join_with(sv.take(i as int), seq!['/']),
            seq_views(parts@) == start + crumbs(browse_prefix@, sv).take(i as int),
        decreases segs.len() - i,
    {
        assert(sv.take(i + 1).drop_last() =~= sv.take(i as int));
        assert(sv.take(i + 1).last() == segs@[i as int]@);
        if i > 0 {
            accumulated.push('/');
        }
        push_all(&mut accumulated, &segs[i]);
        assert(accumulated@ =~= join_with(sv.take(i + 1), seq!['/']));
        let safe_seg = escape_chars(&segs[i]);
        let mut part: Vec<char> = Vec::new();
        if i == segs.len() - 1 {
            push_str(&mut part, "<span class=\"breadcrumb-current\">");
            push_all(&mut part, &safe_seg);
            push_str(&mut part, "</span>");
        } else {
            let safe_path = escape_chars(&accumulated);
            push_str(&mut part, "<a class=\"breadcrumb-link\" href=\"");
            push_all(&mut part, browse_prefix);
            push_all(&mut part, &safe_path);
            push_str(&mut part, "\">");
            push_all(&mut part, &safe_seg);
            push_str(&mut part, "</a>");
        }
        assert(part@ =~= crumb(browse_prefix@, sv, i as int));
        let ghost before = seq_views(parts@);
        parts.push(part);
        assert(seq_views(parts@) =~= before.push(part@));
        assert(crumbs(browse_prefix@, sv).take(i + 1) =~= crumbs(browse_prefix@, sv).take(
            i as int,
        ).push(part@));
        i = i + 1;
    }
    assert(crumbs(browse_prefix@, sv).take(segs.len() as int) =~= crumbs(browse_prefix@, sv));
}

fn nav_of(parts: &Vec<Vec<char>>) -> (r: String)
    ensures
        r@ == breadcrumb_nav(seq_views(parts@)),
{
    let mut sep: Vec<char> = Vec::new();
    push_str(&mut sep, "<span class=\"breadcrumb-sep\">/</span>");
    let joined = join_with_exec(parts, &sep);
    let mut out: Vec<char> = Vec::new();
    push_str(&mut out, "<nav class=\"breadcrumbs\">");
    push_all(&mut out, &joined);
    push_str(&mut out, "</nav>");
    chars_to_string(&out)
}

fn root_crumb_exec() -> (r: Vec<char>)
    ensures
        r@ == root_crumb(),
{
    let mut v: Vec<char> = Vec::new();
    push_str(&mut v, "<a class=\"breadcrumb-link\" href=\"/\">root</a>");
    v
}

/// Breadcrumb navigation for a path: a link to the root, links to each
/// enclosing directory, and the last segment as plain text.
pub fn build_breadcrumbs(path: &str) -> (r: String)
    ensures
        r@ == breadcrumbs_html(path@),
{
    let mut parts: Vec<Vec<char>> = Vec::new();
    let root = root_crumb_exec();
    parts.push(root);
    assert(seq_views(parts@) =~= seq![root_crumb()]);
    let mut prefix: Vec<char> = Vec::new();
    push_str(&mut prefix, "/browse/");
    push_crumbs(&mut parts, &prefix, path);
    nav_of(&parts)
}

/// Breadcrumb navigation for a path inside a container: a link to the
/// root, a link to the container, links to each enclosing directory, and
/// the last segment as plain text.
pub fn build_docker_breadcrumbs(container: &str, path: &str) -> (r: String)
    ensures
        r@ == docker_breadcrumbs_html(container@, path@),
{
    let c = str_to_chars(container);
    let safe_container = escape_chars(&c);
    let mut parts: Vec<Vec<char>> = Vec::new();
    let root = root_crumb_exec();
    parts.push(root);
    let mut link: Vec<char> = Vec::new();
    push_str(&mut link, "<a class=\"breadcrumb-link\" href=\"/docker/");
    push_all(&mut link, &safe_container);
    push_str(&mut link, "\">&#128051; ");
    push_all(&mut link, &safe_container);
    push_str(&mut link, "</a>");
    assert(link@ =~= container_crumb(container@));
    parts.push(link);
    assert(seq_views(parts@) =~= seq![root_crumb(), container_crumb(container@)]);
    let mut prefix: Vec<char> = Vec::new();
    push_str(&mut prefix, "/docker/");
    push_all(&mut prefix, &safe_container);
    push_str(&mut prefix, "/browse/");
    assert(prefix@ =~= docker_browse_prefix(container@));
    push_crumbs(&mut parts, &prefix, path);
    nav_of(&parts)
}

} // verus!
