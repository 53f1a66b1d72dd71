//! Reading `docker ps` output and checking container names.
use vstd::prelude::*;
use crate::error::PreviewError;
use crate::text::{
    chars_equal, chars_to_string, copy_range, find_char, find_char_exec, join_with, lemma_find_char,
    lemma_find_char_shift, lines_of,
    push_all, push_str, seq_views, split_lines, str_to_chars, trim_exec, trimmed,
};

verus! {

/// A running container as `docker ps` lists it, with its working directory.
#[derive(Debug, Clone)]
pub struct ContainerInfo {
    pub id: String,
    pub name: String,
    pub image: String,
    pub status: String,
    pub workdir: String,
}

/// What a [`ContainerInfo`] holds.
pub struct ContainerInfoView {
    pub id: Seq<char>,
    pub name: Seq<char>,
    pub image: Seq<char>,
    pub status: Seq<char>,
    pub workdir: Seq<char>,
}

impl View for ContainerInfo {
    type V = ContainerInfoView;

    open spec fn view(&self) -> ContainerInfoView {
        ContainerInfoView {
            id: self.id@,
            name: self.name@,
            image: self.image@,
            status: self.status@,
            workdir: self.workdir@,
        }
    }
}

/// The pieces of `s[i..]` between occurrences of `c` (`str::split`): there
/// is always at least one piece, possibly empty.
pub open spec fn pieces_from(s: Seq<char>, c: char, i: int) -> Seq<Seq<char>>
    decreases s.len() - i,
{
    if i < 0 || i > s.len() {
        seq![]
    } else {
        let k = find_char(s, c, i);
        if k >= s.len() || k < i {
            seq![s.subrange(i, s.len() as int)]
        } else {
            seq![s.subrange(i, k)] + pieces_from(s, c, k + 1)
        }
    }
}

/// The pieces of `s` between occurrences of `c`.
pub open spec fn split_on(s: Seq<char>, c: char) -> Seq<Seq<char>> {
    pieces_from(s, c, 0)
}

/// Splits `s` at every `c` (`str::split`).
pub fn split_on_exec(s: &Vec<char>, c: char) -> (r: Vec<Vec<char>>)
    ensures
        seq_views(r@) == split_on(s@, c),
{
    let mut r: Vec<Vec<char>> = Vec::new();
    let mut i: usize = 0;
    loop
        invariant
            i <= s.len(),
            seq_views(r@) + pieces_from(s@, c, i as int) == split_on(s@, c),
        decreases s.len() - i,
    {
        let k = find_char_exec(s, c, i);
        proof {
            lemma_find_char(s@, c, i as int);
        }
        let ghost before = seq_views(r@);
        if k >= s.len() {
            let piece = copy_range(s, i, s.len());
            r.push(piece);
            assert(seq_views(r@) =~= before.push(piece@));
            assert(seq_views(r@) =~= before + pieces_from(s@, c, i as int));
            return r;
        }
        let piece = copy_range(s, i, k);
        r.push(piece);
        assert(seq_views(r@) =~= before.push(piece@));
        assert(seq_views(r@) + pieces_from(s@, c, k + 1) =~= before + pieces_from(
            s@,
            c,
            i as int,
        ));
        i = k + 1;
    }
}

/// Text in front does not change the pieces from a position.
proof fn lemma_pieces_shift(p: Seq<char>, t: Seq<char>, c: char, j: int)
    requires
        0 <= j,
    ensures
        pieces_from(p + t, c, p.len() + j) == pieces_from(t, c, j),
    decreases t.len() - j,
{
    if j <= t.len() {
        lemma_find_char_shift(p, t, c, j);
        lemma_find_char(t, c, j);
        let k = find_char(t, c, j);
        if k < t.len() {
            lemma_pieces_shift(p, t, c, k + 1);
            assert((p + t).subrange(p.len() + j, p.len() + k) =~= t.subrange(j, k));
        } else {
            assert((p + t).subrange(p.len() + j, (p + t).len() as int) =~= t.subrange(
                j,
                t.len() as int,
            ));
        }
    }
}

/// Splitting at a separator splits both sides.
pub proof fn lemma_pieces_concat(a: Seq<char>, b: Seq<char>, c: char, i: int)
    requires
        0 <= i <= a.len(),
    ensures
        pieces_from(a + seq![c] + b, c, i) == pieces_from(a, c, i) + split_on(b, c),
    decreases a.len() - i,
{
    let s = a + seq![c] + b;
    lemma_find_char(a, c, i);
    let k = find_char(a, c, i);
    if k < a.len() {
        assert forall|j: int| i <= j < k implies s[j] != c by {
            assert(s[j] == a[j]);
        }
        crate::text::lemma_find_char_upto(s, c, i, k);
        lemma_pieces_concat(a, b, c, k + 1);
        assert(s.subrange(i, k) =~= a.subrange(i, k));
        let x = seq![a.subrange(i, k)];
        let y = pieces_from(a, c, k + 1);
        assert(x + (y + split_on(b, c)) =~= (x + y) + split_on(b, c));
    } else {
        assert forall|j: int| i <= j < a.len() implies s[j] != c by {
            assert(s[j] == a[j]);
        }
        crate::text::lemma_find_char_upto(s, c, i, a.len() as int);
        lemma_pieces_shift(a + seq![c], b, c, 0);
        assert(s =~= (a + seq![c]) + b);
        assert(s.subrange(i, a.len() as int) =~= a.subrange(i, a.len() as int));
    }
}

/// The pieces of a split hold no separator.
pub proof fn lemma_pieces_lack(s: Seq<char>, c: char, i: int)
    requires
        0 <= i,
    ensures
        forall|k: int| 0 <= k < pieces_from(s, c, i).len() ==> !(#[trigger] pieces_from(s, c, i)[k]).contains(c),
    decreases s.len() - i,
{
    if i <= s.len() {
        lemma_find_char(s, c, i);
        let k = find_char(s, c, i);
        let ps = pieces_from(s, c, i);
        let first = if k < s.len() { s.subrange(i, k) } else { s.subrange(i, s.len() as int) };
        assert(!first.contains(c)) by {
            if first.contains(c) {
                let j = choose|j: int| 0 <= j < first.len() && first[j] == c;
                assert(s[i + j] == c);
            }
        }
        if k < s.len() {
            lemma_pieces_lack(s, c, k + 1);
            assert forall|m: int| 0 <= m < ps.len() implies !(#[trigger] ps[m]).contains(c) by {
                if m > 0 {
                    assert(ps[m] == pieces_from(s, c, k + 1)[m - 1]);
                }
            }
        }
    }
}

/// Joining pieces without the separator and splitting again gives them
/// back.
pub proof fn lemma_split_join(segs: Seq<Seq<char>>, c: char)
    requires
        segs.len() > 0,
        forall|k: int| 0 <= k < segs.len() ==> !(#[trigger] segs[k]).contains(c),
    ensures
        split_on(join_with(segs, seq![c]), c) == segs,
    decreases segs.len(),
{
    let last = segs.last();
    assert(!last.contains(c));
    assert forall|j: int| 0 <= j < last.len() implies last[j] != c by {
        if last[j] == c {
            assert(last.contains(c));
        }
    }
    crate::text::lemma_find_char_none(last, c, 0);
    assert(last.subrange(0, last.len() as int) =~= last);
    if segs.len() == 1 {
        assert(segs =~= seq![last]);
    } else {
        let front = segs.drop_last();
        assert forall|k: int| 0 <= k < front.len() implies !(#[trigger] front[k]).contains(c) by {
            assert(front[k] == segs[k]);
        }
        lemma_split_join(front, c);
        lemma_pieces_concat(join_with(front, seq![c]), last, c, 0);
        assert(front + seq![last] =~= segs);
    }
}

/// The container that a `docker ps` line describes, when it has at least
/// four tab-separated fields.
pub open spec fn container_of_line(line: Seq<char>) -> Option<ContainerInfoView> {
    let parts = split_on(line, '\t');
    if line.len() > 0 && parts.len() >= 4 {
        Some(
            ContainerInfoView {
                id: parts[0],
                name: parts[1],
                image: parts[2],
                status: parts[3],
                workdir: seq!['/'],
            },
        )
    } else {
        None
    }
}

/// The containers of the given lines, in order.
pub open spec fn containers_of_lines(ls: Seq<Seq<char>>) -> Seq<ContainerInfoView>
    decreases ls.len(),
{
    if ls.len() == 0 {
        seq![]
    } else {
        let rest = containers_of_lines(ls.drop_last());
        match container_of_line(ls.last()) {
            Some(c) => rest.push(c),
            None => rest,
        }
    }
}

/// Parses the output of `docker ps --format "{{.ID}}\t{{.Names}}\t{{.Image}}\t{{.Status}}"`.
/// Empty lines and lines with fewer than four fields are skipped; the
/// working directory starts out as `/`.
pub fn parse_container_list(output: &str) -> (r: Vec<ContainerInfo>)
    ensures
        r@.map_values(|c: ContainerInfo| c@) == containers_of_lines(lines_of(output@)),
{
    let chars = str_to_chars(output);
    let lines = split_lines(&chars);
    let ghost ls = seq_views(lines@);
    let mut r: Vec<ContainerInfo> = Vec::new();
    let mut k: usize = 0;
    assert(ls.take(0) =~= Seq::<Seq<char>>::empty());
    while k < lines.len()
        invariant
            ls == seq_views(lines@),
            ls == lines_of(output@),
            k <= lines.len(),
            r@.map_values(|c: ContainerInfo| c@) == containers_of_lines(ls.take(k as int)),
        decreases lines.len() - k,
    {
        let line = &lines[k];
        assert(ls.take(k + 1).drop_last() =~= ls.take(k as int));
        assert(ls.take(k + 1).last() == line@);
        if line.len() > 0 {
            let parts = split_on_exec(line, '\t');
            if parts.len() >= 4 {
                let mut root: Vec<char> = Vec::new();
                root.push('/');
                let info = ContainerInfo {
                    id: chars_to_string(&parts[0]),
                    name: chars_to_string(&parts[1]),
                    image: chars_to_string(&parts[2]),
                    status: chars_to_string(&parts[3]),
                    workdir: chars_to_string(&root),
                };
                assert(root@ =~= seq!['/']);
                let ghost before = r@;
                r.push(info);
                assert(r@.map_values(|c: ContainerInfo| c@) =~= before.map_values(
                    |c: ContainerInfo| c@,
                ).push(info@));
            }
        }
        k = k + 1;
    }
    assert(ls.take(lines.len() as int) =~= ls);
    r
}

/// ASCII letters and digits.
pub open spec fn is_ascii_alnum(c: char) -> bool {
    ('a' <= c <= 'z') || ('A' <= c <= 'Z') || ('0' <= c <= '9')
}

/// A container name that is safe to hand to `docker`: it starts with an
/// ASCII letter or digit, and continues with those or `_`, `.`, `-`.
pub open spec fn valid_container_name(name: Seq<char>) -> bool {
    &&& name.len() > 0
    &&& is_ascii_alnum(name[0])
    &&& forall|k: int|
        1 <= k < name.len() ==> is_ascii_alnum(#[trigger] name[k]) || name[k] == '_' || name[k]
            == '.' || name[k] == '-'
}

/// The message of the error for an invalid container name: empty for an
/// empty name, else `Invalid container name: NAME`.
pub open spec fn invalid_name_message(name: Seq<char>) -> Seq<char> {
    if name.len() == 0 {
        Seq::<char>::empty()
    } else {
        "Invalid container name: "@ + name
    }
}

/// Checks that a container name is safe to pass to `docker` as an argument.
/// An empty name yields `ContainerNotFound` with an empty message; another
/// invalid name yields `ContainerNotFound` with `Invalid container name: NAME`.
pub fn validate_container_name(name: &str) -> (r: Result<(), PreviewError>)
    ensures
        r is Ok <==> valid_container_name(name@),
        r matches Err(e) ==> (e matches PreviewError::ContainerNotFound(m) && m@
            == invalid_name_message(name@)),
{
    let chars = str_to_chars(name);
    if chars.len() == 0 {
        return Err(PreviewError::ContainerNotFound(String::new()));
    }
    let mut valid = true;
    let mut i: usize = 0;
    while i < chars.len()
        invariant
            chars@ == name@,
            i <= chars.len(),
            chars.len() > 0,
            valid == (i == 0 || (is_ascii_alnum(chars@[0]) && forall|k: int|
                1 <= k < i ==> is_ascii_alnum(#[trigger] chars@[k]) || chars@[k] == '_'
                    || chars@[k] == '.' || chars@[k] == '-')),
        decreases chars.len() - i,
    {
        let c = chars[i];
        let alnum = ('a' <= c && c <= 'z') || ('A' <= c && c <= 'Z') || ('0' <= c && c <= '9');
        let ok = if i == 0 {
            alnum
        } else {
            alnum || c == '_' || c == '.' || c == '-'
        };
        valid = valid && ok;
        i = i + 1;
    }
    if valid {
        Ok(())
    } else {
        let mut msg: Vec<char> = Vec::new();
        push_str(&mut msg, "Invalid container name: ");
        push_all(&mut msg, &chars);
        Err(PreviewError::ContainerNotFound(chars_to_string(&msg)))
    }
}

/// The working directory that `docker inspect` reported: its trimmed
/// output when the command succeeded with a nonempty one, `/` otherwise.
pub open spec fn workdir_of(success: bool, stdout: Seq<char>) -> Seq<char> {
    if success && trimmed(stdout).len() > 0 {
        trimmed(stdout)
    } else {
        seq!['/']
    }
}

/// Reads the working directory out of a `docker inspect` run.
pub fn workdir_from_inspect(success: bool, stdout: &str) -> (r: String)
    ensures
        r@ == workdir_of(success, stdout@),
{
    let t = trim_exec(&str_to_chars(stdout));
    if success && t.len() > 0 {
        chars_to_string(&t)
    } else {
        let mut root: Vec<char> = Vec::new();
        root.push('/');
        assert(root@ =~= seq!['/']);
        chars_to_string(&root)
    }
}

/// Whether a container is running, from a `docker inspect` of its state:
/// a failed command means no such container (`ContainerNotFound` naming
/// it), and any state but `true` means it is not running
/// (`ContainerNotRunning` naming it).
pub fn running_state(name: &str, success: bool, stdout: &str) -> (r: Result<(), PreviewError>)
    ensures
        match r {
            Ok(()) => success && trimmed(stdout@) == "true"@,
            Err(e) => if !success {
                e matches PreviewError::ContainerNotFound(m) && m@ == name@
            } else {
                trimmed(stdout@) != "true"@ && (e matches PreviewError::ContainerNotRunning(m) && m@
                    == name@)
            },
        },
{
    if !success {
        return Err(PreviewError::ContainerNotFound(chars_to_string(&str_to_chars(name))));
    }
    let t = trim_exec(&str_to_chars(stdout));
    let yes = str_to_chars("true");
    if chars_equal(&t, &yes) {
        Ok(())
    } else {
        Err(PreviewError::ContainerNotRunning(chars_to_string(&str_to_chars(name))))
    }
}

/// The Docker client version from a `docker version` run: its trimmed
/// output when the command succeeded, `DockerNotAvailable("Docker CLI not
/// responding")` otherwise.
pub fn docker_version(success: bool, stdout: &str) -> (r: Result<String, PreviewError>)
    ensures
        match r {
            Ok(v) => success && v@ == trimmed(stdout@),
            Err(e) => !success && (e matches PreviewError::DockerNotAvailable(m) && m@
                == "Docker CLI not responding"@),
        },
{
    if success {
        Ok(chars_to_string(&trim_exec(&str_to_chars(stdout))))
    } else {
        Err(PreviewError::DockerNotAvailable(chars_to_string(&str_to_chars("Docker CLI not responding"))))
    }
}

/// Whether a path exists in a container, from a `docker exec .. test -e`
/// run: a failed test is `ContainerPathNotFound` naming the container and
/// the path.
pub fn path_check(container: &str, path: &str, success: bool) -> (r: Result<(), PreviewError>)
    ensures
        match r {
            Ok(()) => success,
            Err(e) => !success && (e matches PreviewError::ContainerPathNotFound { container: c, path: p }
                && c@ == container@ && p@ == path@),
        },
{
    if success {
        Ok(())
    } else {
        Err(
            PreviewError::ContainerPathNotFound {
                container: chars_to_string(&str_to_chars(container)),
                path: chars_to_string(&str_to_chars(path)),
            },
        )
    }
}

} // verus!
