//! A Docker container's file system as a file source: container paths,
//! and the output of `ls -1F` and `stat` read back into entries and
//! metadata. The `docker exec` calls themselves are made by the caller.
use vstd::prelude::*;
use crate::docker::{split_on, split_on_exec, valid_container_name, validate_container_name};
use crate::error::PreviewError;
use crate::source::{
    sort_entries_by_lower_name, sorted_by_lower_name, DirEntry, DirEntryView, EntryType,
    FileMeta, entry_views,
};
use crate::text::{
    chars_to_string, contains_exec, contains_seq, copy_range, find_char, find_char_exec,
    join_with, join_with_exec, lemma_find_char, lines_of, parse_unsigned, parsed_unsigned,
    push_all, push_str, seq_views, split_lines, str_to_chars, trim_exec, trimmed,
};

verus! {

/// The end of the run of `c` starting at `i`.
pub open spec fn char_run_end(s: Seq<char>, c: char, i: int) -> int
    decreases s.len() - i,
{
    if 0 <= i < s.len() && s[i] == c {
        char_run_end(s, c, i + 1)
    } else {
        i
    }
}

/// The end of `s[..i]` once trailing `c` are cut.
pub open spec fn char_trim_end(s: Seq<char>, c: char, i: int) -> int
    decreases i,
{
    if i <= 0 || i > s.len() {
        0
    } else if s[i - 1] == c {
        char_trim_end(s, c, i - 1)
    } else {
        i
    }
}

/// The text without leading and trailing slashes (`trim_matches('/')`).
pub open spec fn trim_slashes(s: Seq<char>) -> Seq<char> {
    let a = char_run_end(s, '/', 0);
    let b = char_trim_end(s, '/', s.len() as int);
    if a < b {
        s.subrange(a, b)
    } else {
        seq![]
    }
}

/// The path segments that remain once empty and `.` segments are dropped.
pub open spec fn clean_segments(ps: Seq<Seq<char>>) -> Seq<Seq<char>>
    decreases ps.len(),
{
    if ps.len() == 0 {
        seq![]
    } else {
        let r = clean_segments(ps.drop_last());
        let p = ps.last();
        if p.len() > 0 && p != seq!['.'] {
            r.push(p)
        } else {
            r
        }
    }
}

/// A container path in normal form: a leading slash, single slashes, no
/// `.` segments; `None` when a `..` segment occurs.
pub open spec fn normalized_path(path: Seq<char>) -> Option<Seq<char>> {
    let t = trim_slashes(path);
    if t.len() == 0 {
        Some(seq!['/'])
    } else {
        let segs = clean_segments(split_on(t, '/'));
        if segs.contains(seq!['.', '.']) {
            None
        } else {
            Some(seq!['/'] + join_with(segs, seq!['/']))
        }
    }
}

/// Whether `e` is the "path not found" error for a container and path.
pub open spec fn is_path_error(e: PreviewError, container: Seq<char>, path: Seq<char>) -> bool {
    e matches PreviewError::ContainerPathNotFound { container: c, path: p } && c@ == container
        && p@ == path
}

fn trim_slashes_exec(s: &Vec<char>) -> (r: Vec<char>)
    ensures
        r@ == trim_slashes(s@),
{
    let mut a: usize = 0;
    while a < s.len() && s[a] == '/'
        invariant
            a <= s.len(),
            char_run_end(s@, '/', 0) == char_run_end(s@, '/', a as int),
        decreases s.len() - a,
    {
        a = a + 1;
    }
    let mut b: usize = s.len();
    while b > 0 && s[b - 1] == '/'
        invariant
            b <= s.len(),
            char_trim_end(s@, '/', s.len() as int) == char_trim_end(s@, '/', b as int),
        decreases b,
    {
        b = b - 1;
    }
    if a < b {
        copy_range(s, a, b)
    } else {
        Vec::new()
    }
}

/// Normalizes a container path: a leading slash, collapsed slashes, `.`
/// segments removed; a `..` segment is refused with `ContainerPathNotFound`
/// (no container named, the path as given).
pub fn normalize_container_path(path: &str) -> (r: Result<String, PreviewError>)
    ensures
        match normalized_path(path@) {
            Some(n) => r matches Ok(s) && s@ == n,
            None => r matches Err(e) && is_path_error(e, Seq::<char>::empty(), path@),
        },
{
    let chars = str_to_chars(path);
    let t = trim_slashes_exec(&chars);
    if t.len() == 0 {
        let mut out: Vec<char> = Vec::new();
        out.push('/');
        assert(out@ =~= seq!['/']);
        return Ok(chars_to_string(&out));
    }
    let pieces = split_on_exec(&t, '/');
    let ghost ps = seq_views(pieces@);
    let mut segs: Vec<Vec<char>> = Vec::new();
    let mut has_parent = false;
    let mut k: usize = 0;
    assert(ps.take(0) =~= Seq::<Seq<char>>::empty());
    while k < pieces.len()
        invariant
            ps == seq_views(pieces@),
            k <= pieces.len(),
            seq_views(segs@) == clean_segments(ps.take(k as int)),
            has_parent == seq_views(segs@).contains(seq!['.', '.']),
        decreases pieces.len() - k,
    {
        let p = &pieces[k];
        assert(ps.take(k + 1).drop_last() =~= ps.take(k as int));
        assert(ps.take(k + 1).last() == p@);
        let is_dot = p.len() == 1 && p[0] == '.';
        assert(is_dot == (p@ == seq!['.'])) by {
            if p@ == seq!['.'] {
                assert(p@[0] == '.');
            }
            if is_dot {
                assert(p@ =~= seq!['.']);
            }
        }
        if p.len() > 0 && !is_dot {
            let is_parent = p.len() == 2 && p[0] == '.' && p[1] == '.';
            assert(is_parent == (p@ == seq!['.', '.'])) by {
                if p@ == seq!['.', '.'] {
                    assert(p@[0] == '.' && p@[1] == '.');
                }
                if is_parent {
                    assert(p@ =~= seq!['.', '.']);
                }
            }
            let copy = copy_range(p, 0, p.len());
            assert(copy@ =~= p@);
            let ghost before = seq_views(segs@);
            segs.push(copy);
            assert(seq_views(segs@) =~= before.push(p@));
            proof {
                if before.contains(seq!['.', '.']) {
                    let j = choose|j: int| 0 <= j < before.len() && before[j] == seq!['.', '.'];
                    assert(seq_views(segs@)[j] == seq!['.', '.']);
                }
                if seq_views(segs@).contains(seq!['.', '.']) && !is_parent {
                    let j = choose|j: int|
                        0 <= j < seq_views(segs@).len() && seq_views(segs@)[j] == seq!['.', '.'];
                    assert(before[j] == seq!['.', '.']);
                }
                if is_parent {
                    assert(seq_views(segs@)[before.len() as int] == seq!['.', '.']);
                }
            }
            has_parent = has_parent || is_parent;
        }
        k = k + 1;
    }
    assert(ps.take(pieces.len() as int) =~= ps);
    if has_parent {
        return Err(PreviewError::ContainerPathNotFound { container: String::new(), path: chars_to_string(&chars) });
    }
    let mut slash: Vec<char> = Vec::new();
    slash.push('/');
    assert(slash@ =~= seq!['/']);
    let joined = join_with_exec(&segs, &slash);
    let mut out: Vec<char> = Vec::new();
    out.push('/');
    push_all(&mut out, &joined);
    assert(out@ =~= seq!['/'] + join_with(seq_views(segs@), seq!['/']));
    Ok(chars_to_string(&out))
}

/// File source backed by a Docker container's file system, rooted at a
/// normalized base path.
pub struct DockerSource {
    container: String,
    base_path: String,
}

/// Where a path relative to the base lands in the container, or the error
/// for it.
pub open spec fn resolved(container: Seq<char>, base: Seq<char>, path: Seq<char>) -> Result<
    Seq<char>,
    (Seq<char>, Seq<char>),
> {
    if path.len() == 0 {
        Ok(base)
    } else {
        match normalized_path(path) {
            None => Err((Seq::<char>::empty(), path)),
            Some(n) => {
                let full = if base == seq!['/'] {
                    n
                } else {
                    base + n
                };
                if crate::text::starts_with(full, base) {
                    Ok(full)
                } else {
                    Err((container, path))
                }
            },
        }
    }
}

impl DockerSource {
    /// The container's name.
    pub closed spec fn container_name(&self) -> Seq<char> {
        self.container@
    }

    /// The normalized base path.
    pub closed spec fn base(&self) -> Seq<char> {
        self.base_path@
    }

    /// A source for `container`, rooted at `base_path`. The container name
    /// must be valid (see `validate_container_name`) and the base path is
    /// normalized (see `normalize_container_path`); their errors are passed on.
    pub fn new(container: String, base_path: String) -> (r: Result<Self, PreviewError>)
        ensures
            match r {
                Ok(s) => valid_container_name(container@) && normalized_path(base_path@)
                    == Some(s.base()) && s.container_name() == container@,
                Err(e) => !valid_container_name(container@) && (e matches
                PreviewError::ContainerNotFound(m) && m@ == crate::docker::invalid_name_message(
                    container@,
                )) || valid_container_name(container@)
                    && normalized_path(base_path@) is None && is_path_error(
                    e,
                    Seq::<char>::empty(),
                    base_path@,
                ),
            },
    {
        match validate_container_name(container.as_str()) {
            Ok(()) => {},
            Err(e) => {
                return Err(e);
            },
        }
        match normalize_container_path(base_path.as_str()) {
            Ok(b) => Ok(DockerSource { container, base_path: b }),
            Err(e) => Err(e),
        }
    }

    /// The container's name.
    pub fn container(&self) -> (r: &str)
        ensures
            r@ == self.container_name(),
    {
        self.container.as_str()
    }

    /// Resolves a path relative to the base, refusing `..` segments.
    pub fn resolve(&self, path: &str) -> (r: Result<String, PreviewError>)
        ensures
            match resolved(self.container_name(), self.base(), path@) {
                Ok(full) => r matches Ok(s) && s@ == full,
                Err((c, p)) => r matches Err(e) && is_path_error(e, c, p),
            },
    {
        let path_chars = str_to_chars(path);
        if path_chars.len() == 0 {
            return Ok(self.base_path.clone());
        }
        let normalized = match normalize_container_path(path) {
            Ok(n) => n,
            Err(e) => {
                return Err(e);
            },
        };
        let base = str_to_chars(self.base_path.as_str());
        let norm = str_to_chars(normalized.as_str());
        let is_root = base.len() == 1 && base[0] == '/';
        assert(is_root == (base@ == seq!['/'])) by {
            if base@ == seq!['/'] {
                assert(base@[0] == '/');
            }
            if is_root {
                assert(base@ =~= seq!['/']);
            }
        }
        let mut full: Vec<char> = Vec::new();
        if !is_root {
            push_all(&mut full, &base);
        }
        push_all(&mut full, &norm);
        if base.len() > full.len() || !crate::text::occurs_at_exec(&full, 0, &base) {
            return Err(
                PreviewError::ContainerPathNotFound {
                    container: self.container.clone(),
                    path: chars_to_string(&path_chars),
                },
            );
        }
        Ok(chars_to_string(&full))
    }

    /// Human-readable root: `CONTAINER:BASE`.
    pub fn display_root(&self) -> (r: String)
        ensures
            r@ == self.container_name() + seq![':'] + self.base(),
    {
        let mut out: Vec<char> = Vec::new();
        push_str(&mut out, self.container.as_str());
        out.push(':');
        push_str(&mut out, self.base_path.as_str());
        chars_to_string(&out)
    }
}

/// Whether a character is one of the type markers that `ls -F` appends to
/// file names (`*`, `@`, `|`, `=`).
pub open spec fn is_type_marker(c: char) -> bool {
    c == '*' || c == '@' || c == '|' || c == '='
}

/// The end of `s[..i]` once trailing type markers are cut.
pub open spec fn marker_trim_end(s: Seq<char>, i: int) -> int
    decreases i,
{
    if i <= 0 || i > s.len() {
        0
    } else if is_type_marker(s[i - 1]) {
        marker_trim_end(s, i - 1)
    } else {
        i
    }
}

/// The entry that one line of `ls -1F` output describes: hidden names and
/// empty lines give none; a trailing `/` marks a directory; other type
/// markers are cut from file names.
pub open spec fn ls_entry(line: Seq<char>) -> Option<DirEntryView> {
    let name = trimmed(line);
    if line.len() == 0 || (name.len() > 0 && name[0] == '.') {
        None
    } else if name.len() > 0 && name.last() == '/' {
        Some(DirEntryView { name: name.drop_last(), entry_type: EntryType::Directory })
    } else {
        Some(
            DirEntryView {
                name: name.subrange(0, marker_trim_end(name, name.len() as int)),
                entry_type: EntryType::File,
            },
        )
    }
}

/// The entries of the given `ls -1F` lines, in order.
pub open spec fn ls_entries(ls: Seq<Seq<char>>) -> Seq<DirEntryView>
    decreases ls.len(),
{
    if ls.len() == 0 {
        seq![]
    } else {
        let r = ls_entries(ls.drop_last());
        match ls_entry(ls.last()) {
            Some(e) => r.push(e),
            None => r,
        }
    }
}

proof fn lemma_marker_trim_end(s: Seq<char>, i: int)
    requires
        0 <= i <= s.len(),
    ensures
        0 <= marker_trim_end(s, i) <= i,
    decreases i,
{
    if i > 0 && is_type_marker(s[i - 1]) {
        lemma_marker_trim_end(s, i - 1);
    }
}

fn ls_entry_exec(line: &Vec<char>) -> (r: Option<DirEntry>)
    ensures
        match r {
            Some(e) => ls_entry(line@) == Some(e@),
            None => ls_entry(line@) is None,
        },
{
    if line.len() == 0 {
        return None;
    }
    let name = trim_exec(line);
    if name.len() > 0 && name[0] == '.' {
        return None;
    }
    if name.len() > 0 && name[name.len() - 1] == '/' {
        let dir = copy_range(&name, 0, name.len() - 1);
        assert(dir@ =~= name@.drop_last());
        return Some(DirEntry { name: chars_to_string(&dir), entry_type: EntryType::Directory });
    }
    let mut b: usize = name.len();
    while b > 0 && (name[b - 1] == '*' || name[b - 1] == '@' || name[b - 1] == '|' || name[b
        - 1] == '=')
        invariant
            b <= name.len(),
            marker_trim_end(name@, name.len() as int) == marker_trim_end(name@, b as int),
        decreases b,
    {
        b = b - 1;
    }
    proof {
        lemma_marker_trim_end(name@, b as int);
    }
    let file = copy_range(&name, 0, b);
    Some(DirEntry { name: chars_to_string(&file), entry_type: EntryType::File })
}

/// Reads the output of `ls -1F` into entries sorted stably by lowercase
/// name.
pub fn parse_ls_output(stdout: &str) -> (r: Vec<DirEntry>)
    ensures
        sorted_by_lower_name(ls_entries(lines_of(stdout@)), entry_views(r@)),
{
    let chars = str_to_chars(stdout);
    let lines = split_lines(&chars);
    let ghost ls = seq_views(lines@);
    let mut entries: Vec<DirEntry> = Vec::new();
    let mut k: usize = 0;
    assert(ls.take(0) =~= Seq::<Seq<char>>::empty());
    while k < lines.len()
        invariant
            ls == seq_views(lines@),
            k <= lines.len(),
            entry_views(entries@) == ls_entries(ls.take(k as int)),
        decreases lines.len() - k,
    {
        assert(ls.take(k + 1).drop_last() =~= ls.take(k as int));
        assert(ls.take(k + 1).last() == lines@[k as int]@);
        match ls_entry_exec(&lines[k]) {
            Some(e) => {
                let ghost before = entry_views(entries@);
                let ghost ev = e@;
                entries.push(e);
                assert(entry_views(entries@) =~= before.push(ev));
            },
            None => {},
        }
        k = k + 1;
    }
    assert(ls.take(lines.len() as int) =~= ls);
    sort_entries_by_lower_name(&entries)
}

/// The first three pieces of a text split at spaces, the third holding the
/// rest (`splitn(3, ' ')`).
pub open spec fn split3(t: Seq<char>) -> Seq<Seq<char>> {
    let k1 = find_char(t, ' ', 0);
    if k1 >= t.len() {
        seq![t]
    } else {
        let k2 = find_char(t, ' ', k1 + 1);
        if k2 >= t.len() {
            seq![t.subrange(0, k1), t.subrange(k1 + 1, t.len() as int)]
        } else {
            seq![t.subrange(0, k1), t.subrange(k1 + 1, k2), t.subrange(k2 + 1, t.len() as int)]
        }
    }
}

/// The metadata that `stat -c "%Y %s %F"` output describes: unparseable
/// numbers count as 0, and the entry is a directory when its type mentions
/// `directory`. `None` when the output has fewer than three fields.
pub open spec fn stat_meta(stdout: Seq<char>) -> Option<(nat, nat, bool)> {
    let parts = split3(trimmed(stdout));
    if parts.len() < 3 {
        None
    } else {
        Some(
            (
                match parsed_unsigned(parts[0], u64::MAX as nat) {
                    Some(v) => v,
                    None => 0,
                },
                match parsed_unsigned(parts[1], u64::MAX as nat) {
                    Some(v) => v,
                    None => 0,
                },
                contains_seq(parts[2], "directory"@),
            ),
        )
    }
}

/// Reads the output of `stat -c "%Y %s %F"`. Output with fewer than three
/// fields is a `DockerExec` error quoting it.
pub fn parse_stat_output(stdout: &str) -> (r: Result<FileMeta, PreviewError>)
    ensures
        match stat_meta(stdout@) {
            Some((m, s, d)) => r matches Ok(meta) && meta.mtime == m && meta.size == s
                && meta.is_dir == d,
            None => r matches Err(e) && (e matches PreviewError::DockerExec(msg) && msg@
                == "Unexpected stat output: "@ + stdout@),
        },
{
    let chars = str_to_chars(stdout);
    let t = trim_exec(&chars);
    let k1 = find_char_exec(&t, ' ', 0);
    proof {
        lemma_find_char(t@, ' ', 0);
    }
    let mut k2: usize = t.len();
    if k1 < t.len() {
        k2 = find_char_exec(&t, ' ', k1 + 1);
        proof {
            lemma_find_char(t@, ' ', k1 + 1);
        }
    }
    if k1 >= t.len() || k2 >= t.len() {
        let mut msg: Vec<char> = Vec::new();
        push_str(&mut msg, "Unexpected stat output: ");
        push_all(&mut msg, &chars);
        return Err(PreviewError::DockerExec(chars_to_string(&msg)));
    }
    let p0 = copy_range(&t, 0, k1);
    let p1 = copy_range(&t, k1 + 1, k2);
    let p2 = copy_range(&t, k2 + 1, t.len());
    let mtime = match parse_unsigned(&p0, u64::MAX) {
        Some(v) => v,
        None => 0,
    };
    let size = match parse_unsigned(&p1, u64::MAX) {
        Some(v) => v,
        None => 0,
    };
    let mut word: Vec<char> = Vec::new();
    push_str(&mut word, "directory");
    let is_dir = contains_exec(&p2, &word);
    Ok(FileMeta { mtime, size, is_dir })
}

proof fn lemma_clean_segments_lack(ps: Seq<Seq<char>>, c: char)
    requires
        forall|k: int| 0 <= k < ps.len() ==> !(#[trigger] ps[k]).contains(c),
    ensures
        forall|k: int| 0 <= k < clean_segments(ps).len() ==> !(#[trigger] clean_segments(ps)[k]).contains(c),
    decreases ps.len(),
{
    if ps.len() > 0 {
        let front = ps.drop_last();
        assert forall|k: int| 0 <= k < front.len() implies !(#[trigger] front[k]).contains(c) by {
            assert(front[k] == ps[k]);
        }
        lemma_clean_segments_lack(front, c);
        assert(!ps[ps.len() - 1].contains(c));
        let r = clean_segments(front);
        let p = ps.last();
        assert forall|k: int| 0 <= k < clean_segments(ps).len() implies !(
        #[trigger] clean_segments(ps)[k]).contains(c) by {
            if p.len() > 0 && p != seq!['.'] {
                assert(clean_segments(ps) == r.push(p));
                if k < r.len() {
                    assert(clean_segments(ps)[k] == r[k]);
                }
            } else {
                assert(clean_segments(ps) == r);
            }
        }
    }
}

proof fn lemma_concat_lacks_piece(x: Seq<Seq<char>>, y: Seq<Seq<char>>, e: Seq<char>)
    requires
        !x.contains(e),
        !y.contains(e),
    ensures
        !(x + y).contains(e),
{
    if (x + y).contains(e) {
        let j = choose|j: int| 0 <= j < (x + y).len() && (x + y)[j] == e;
        if j < x.len() {
            assert(x[j] == e);
        } else {
            assert(y[j - x.len()] == e);
        }
    }
}

/// The segments that cleaning keeps are nonempty and not `.`, and come
/// from the given ones.
proof fn lemma_clean_segments_clean(ps: Seq<Seq<char>>)
    ensures
        forall|k: int|
            0 <= k < clean_segments(ps).len() ==> (#[trigger] clean_segments(ps)[k]).len() > 0
                && clean_segments(ps)[k] != seq!['.'],
    decreases ps.len(),
{
    if ps.len() > 0 {
        lemma_clean_segments_clean(ps.drop_last());
        let r = clean_segments(ps.drop_last());
        let p = ps.last();
        if p.len() > 0 && p != seq!['.'] {
            assert forall|k: int| 0 <= k < r.push(p).len() implies (#[trigger] r.push(p)[k]).len() > 0
                && r.push(p)[k] != seq!['.'] by {
                if k < r.len() {
                    assert(r.push(p)[k] == r[k]);
                }
            }
        }
    }
}

/// Cleaning segments that are all nonempty and not `.` keeps them all.
proof fn lemma_clean_segments_keep(ps: Seq<Seq<char>>)
    requires
        forall|k: int| 0 <= k < ps.len() ==> (#[trigger] ps[k]).len() > 0 && ps[k] != seq!['.'],
    ensures
        clean_segments(ps) == ps,
    decreases ps.len(),
{
    if ps.len() > 0 {
        let f = ps.drop_last();
        assert forall|k: int| 0 <= k < f.len() implies (#[trigger] f[k]).len() > 0 && f[k] != seq![
            '.',
        ] by {
            assert(f[k] == ps[k]);
        }
        lemma_clean_segments_keep(f);
        assert(ps.last() == ps[ps.len() - 1]);
        assert(f.push(ps.last()) =~= ps);
    }
}

/// Joined nonempty segments start with the first segment's first character
/// and end with the last segment's last one.
proof fn lemma_join_ends(segs: Seq<Seq<char>>, sep: Seq<char>)
    requires
        segs.len() > 0,
        forall|k: int| 0 <= k < segs.len() ==> (#[trigger] segs[k]).len() > 0,
    ensures
        join_with(segs, sep).len() > 0,
        join_with(segs, sep)[0] == segs[0][0],
        join_with(segs, sep).last() == segs.last().last(),
    decreases segs.len(),
{
    assert(segs[segs.len() - 1] == segs.last());
    if segs.len() > 1 {
        let f = segs.drop_last();
        assert forall|k: int| 0 <= k < f.len() implies (#[trigger] f[k]).len() > 0 by {
            assert(f[k] == segs[k]);
        }
        lemma_join_ends(f, sep);
        assert(f[0] == segs[0]);
        let j = join_with(f, sep) + sep + segs.last();
        assert(j[0] == join_with(f, sep)[0]);
        assert(j.last() == segs.last()[segs.last().len() - 1]);
    }
}

/// Normalizing a normalized container path gives it back.
pub proof fn law_normalize_idempotent(path: Seq<char>)
    ensures
        normalized_path(path) matches Some(n) ==> normalized_path(n) == Some(n),
{
    let t = trim_slashes(path);
    let slash = seq!['/'];
    assert(char_run_end(slash, '/', 1) == 1);
    assert(char_run_end(slash, '/', 0) == 1);
    assert(char_trim_end(slash, '/', 0) == 0);
    assert(char_trim_end(slash, '/', 1) == 0);
    assert(trim_slashes(slash).len() == 0);
    assert(normalized_path(slash) == Some(slash));
    if normalized_path(path) is Some && t.len() > 0 {
        let ps = split_on(t, '/');
        let segs = clean_segments(ps);
        let n = seq!['/'] + join_with(segs, seq!['/']);
        assert(normalized_path(path) == Some(n));
        if segs.len() == 0 {
            assert(join_with(segs, seq!['/']) =~= Seq::<char>::empty());
            assert(n =~= seq!['/']);
        } else {
            let j = join_with(segs, seq!['/']);
            crate::docker::lemma_pieces_lack(t, '/', 0);
            lemma_clean_segments_lack(ps, '/');
            lemma_clean_segments_clean(ps);
            lemma_join_ends(segs, seq!['/']);
            assert(!segs[0].contains('/'));
            assert(segs[0][0] != '/') by {
                if segs[0][0] == '/' {
                    assert(segs[0].contains('/'));
                }
            }
            assert(segs.last() == segs[segs.len() - 1]);
            assert(segs.last().last() != '/') by {
                let l = segs.last();
                if l.last() == '/' {
                    assert(l[l.len() - 1] == '/');
                    assert(l.contains('/'));
                }
            }
            assert(n[1] == j[0]);
            assert(n.last() == j.last());
            assert(char_run_end(n, '/', 1) == 1);
            assert(char_run_end(n, '/', 0) == 1);
            assert(char_trim_end(n, '/', n.len() as int) == n.len());
            assert(trim_slashes(n) =~= j);
            crate::docker::lemma_split_join(segs, '/');
            lemma_clean_segments_keep(segs);
        }
    }
}

/// A normalized path is a slash followed by text whose `/`-separated
/// segments are none of them `..`.
proof fn lemma_normal_form(x: Seq<char>)
    ensures
        normalized_path(x) matches Some(n) ==> {
            &&& n.len() > 0
            &&& n[0] == '/'
            &&& !split_on(n.drop_first(), '/').contains(seq!['.', '.'])
        },
{
    let parent = seq!['.', '.'];
    let t = trim_slashes(x);
    let empty_split = split_on(Seq::<char>::empty(), '/');
    assert(empty_split == seq![Seq::<char>::empty()]) by {
        assert(find_char(Seq::<char>::empty(), '/', 0) == 0);
        assert(Seq::<char>::empty().subrange(0, 0) =~= Seq::<char>::empty());
    }
    assert(!empty_split.contains(parent)) by {
        if empty_split.contains(parent) {
            let j = choose|j: int| 0 <= j < empty_split.len() && empty_split[j] == parent;
            assert(empty_split[j].len() == 0);
        }
    }
    if t.len() == 0 {
        assert(seq!['/'].drop_first() =~= Seq::<char>::empty());
    } else {
        let segs = clean_segments(split_on(t, '/'));
        if !segs.contains(parent) {
            let n = seq!['/'] + join_with(segs, seq!['/']);
            assert(n.drop_first() =~= join_with(segs, seq!['/']));
            if segs.len() > 0 {
                crate::docker::lemma_pieces_lack(t, '/', 0);
                lemma_clean_segments_lack(split_on(t, '/'), '/');
                crate::docker::lemma_split_join(segs, '/');
            } else {
                assert(join_with(segs, seq!['/']) =~= Seq::<char>::empty());
            }
        }
    }
}

/// Resolving a path keeps it under the source's base, and never leaves a
/// `..` segment in it, whatever path is asked for.
pub proof fn law_resolve_stays_under_base(container: Seq<char>, base_text: Seq<char>, path: Seq<char>)
    requires
        normalized_path(base_text) is Some,
    ensures
        ({
            let base = normalized_path(base_text)->0;
            resolved(container, base, path) matches Ok(full) ==> {
                &&& crate::text::starts_with(full, base)
                &&& !split_on(full, '/').contains(seq!['.', '.'])
            }
        }),
{
    let parent = seq!['.', '.'];
    let base = normalized_path(base_text)->0;
    lemma_normal_form(base_text);
    let b = base.drop_first();
    assert(base =~= Seq::<char>::empty() + seq!['/'] + b);
    crate::docker::lemma_pieces_concat(Seq::<char>::empty(), b, '/', 0);
    let empty_split = split_on(Seq::<char>::empty(), '/');
    assert(empty_split == seq![Seq::<char>::empty()]) by {
        assert(find_char(Seq::<char>::empty(), '/', 0) == 0);
        assert(Seq::<char>::empty().subrange(0, 0) =~= Seq::<char>::empty());
    }
    assert(!empty_split.contains(parent)) by {
        if empty_split.contains(parent) {
            let j = choose|j: int| 0 <= j < empty_split.len() && empty_split[j] == parent;
            assert(empty_split[j].len() == 0);
        }
    }
    lemma_concat_lacks_piece(empty_split, split_on(b, '/'), parent);
    assert(!split_on(base, '/').contains(parent));
    if path.len() == 0 {
        assert(base.subrange(0, base.len() as int) =~= base);
    } else {
        lemma_normal_form(path);
        match normalized_path(path) {
            None => {},
            Some(n) => {
                let m = n.drop_first();
                assert(n =~= Seq::<char>::empty() + seq!['/'] + m);
                crate::docker::lemma_pieces_concat(Seq::<char>::empty(), m, '/', 0);
                lemma_concat_lacks_piece(empty_split, split_on(m, '/'), parent);
                if base != seq!['/'] {
                    let full = base + n;
                    assert(full =~= base + seq!['/'] + m);
                    crate::docker::lemma_pieces_concat(base, m, '/', 0);
                    lemma_concat_lacks_piece(split_on(base, '/'), split_on(m, '/'), parent);
                }
            },
        }
    }
}

} // verus!
